# emul_4leaf

The verified core of an emulator that runs the 4Leaf browser client on a
virtual Win32 environment, written in Verus. The functions under `src/` are
proved against their `requires`/`ensures` contracts, except the few
`#[verifier::external_body]` wrappers around calls into `hex`,
`encoding_rs` and std (`hex_encode`, `hex_decode`, `check_hex_input`,
`euc_kr_encode`, `string_from_chars`, `send_ui`, `window_slot`), whose
contracts are trusted and say in their doc comments what they claim of the
call. `app/` is a small command-line capture analyzer built on the library.

## Layout

- `geometry`, `region_spec`, `region`: GDI rectangles and regions; the
  canonical band form of a region and the laws that make it a normal form.
- `frame`: inferring a window's guest frame from its clip rectangles.
- `dib`, `gdi32`: DIB pixel encodings (palettes, 16/24/32-bit, bit masks)
  and the conversions between guest DIB memory and pixel buffers.
- `blit`: raster operations and the pixel loops of BitBlt, StretchBlt,
  SetDIBitsToDevice and StretchDIBits.
- `surface`: synchronisation of host-window surface bitmaps with their GPU
  copies (full uploads, queued partial uploads and draw commands, DC
  lifetimes), including the fills that draw rectangles.
- `gdi_table`: the GDI object table by handle and the GDI calls on it:
  device contexts and what is selected in them, regions and clipping,
  bitmaps and DIB sections, BitBlt/StretchBlt/SetDIBitsToDevice/
  StretchDIBits between DC bitmaps, surface-bitmap resizing, deletion.
- `heap`: the guest heap allocator (best fit, merging free list).
- `threads`: guest threads, their waits and sleeps, event objects, TLS
  slots, per-thread message queues, and the scheduler's bookkeeping
  between quanta.
- `sounds`: the Rare.dll sound objects' controls and last-error codes.
- `exports`: the fake import addresses of proxy exports and their reverse
  map for the hook dispatcher.
- `kernel32`, `rare`, `audio`, `boot`: small KERNEL32 computations, the
  Rare.dll export table, WAV/pack decoding, resource lookup.
- `diagnostics`, `logging`, `debugger`, `debug_view`, `win_frame`: trace
  formatting, the debugger's log buffers, key handling and window layout,
  the window table.
- `capture`, `capture_log`, `capture_summary`, `logtext`, `text`: parsing
  and summarising network capture logs.
