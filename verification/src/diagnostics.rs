//! Trace lines and stall decisions of the GIF-loading diagnostics: hook and
//! file traces, checksums, heap-guard messages, the bounded queues of recent
//! events, the virtual clock of deterministic runs and the detector of the
//! guest's LZW hot loop.

use vstd::prelude::*;
use vstd::string::StringExecFns;
use crate::text::{
    dec_digits, hex_alt, hex_padded, bool_text, option_debug, join, ends_with_ascii_ci,
    push_dec, push_hex_alt, push_hex_padded, push_bool, push_option_debug, ends_with_ascii_ci_exec,
};

verus! {

/// Entries kept by each queue of recent events.
pub const RECENT_LIMIT: usize = 16;
pub const LIME_GIF_RVA_START: u32 = 0x0000_b000;
pub const LIME_GIF_RVA_END: u32 = 0x0000_ca80;
pub const LIME_GIF_HOT_RVA_START: u32 = 0x0000_bd80;
pub const LIME_GIF_HOT_RVA_END: u32 = 0x0000_be20;
pub const LIME_GIF_OUTPUT_CURSOR_RVA: u64 = 0x0004_3450;
pub const LIME_GIF_OUTPUT_LIMIT_RVA: u64 = 0x0004_1450;
/// A stall report is due every this many hot-loop hits.
pub const GIF_STALL_REPORT_EVERY: usize = 16;
/// The emulator is stopped after this many consecutive hot-loop hits.
pub const GIF_STALL_ABORT_AFTER: usize = 64;
pub const DETERMINISTIC_TICK_STEP_MS: u32 = 16;
/// Instructions per emulator slice in deterministic runs.
pub const DETERMINISTIC_QUANTUM: usize = 20_000;

/// Who pops the arguments of a stdcall or cdecl hook.
#[derive(Clone, Copy, Debug, PartialEq, Eq, Structural)]
pub enum StackCleanup {
    Caller,
    /// The callee pops this many 4-byte arguments.
    Callee(u32),
}

pub open spec fn cleanup_text(c: StackCleanup) -> Seq<char> {
    match c {
        StackCleanup::Caller => "caller"@,
        StackCleanup::Callee(n) => "callee(args="@ + dec_digits(n as nat) + ",bytes="@ + dec_digits((n * 4) as nat) + ")"@,
    }
}

/// `caller`, or `callee(args=N,bytes=4N)`.
pub fn format_cleanup(cleanup: StackCleanup) -> (s: String)
    ensures
        s@ == cleanup_text(cleanup),
{
    match cleanup {
        StackCleanup::Caller => String::from_str("caller"),
        StackCleanup::Callee(count) => {
            let mut s = String::from_str("callee(args=");
            push_dec(&mut s, count as u64);
            s.append(",bytes=");
            push_dec(&mut s, count as u64 * 4);
            s.append(")");
            s
        },
    }
}

pub open spec fn opt_i32(v: Option<i32>) -> Option<int> {
    match v {
        Some(x) => Some(x as int),
        None => None,
    }
}

pub open spec fn opt_u64(v: Option<u64>) -> Option<int> {
    match v {
        Some(x) => Some(x as int),
        None => None,
    }
}

pub open spec fn hook_trace_text(
    import_func: Seq<char>, cleanup: StackCleanup, return_value: Option<i32>,
    esp_before: u64, esp_after: u64, eip_after: u64, ret_before: u32, retry: bool,
) -> Seq<char> {
    import_func + " cleanup="@ + cleanup_text(cleanup) + " ret="@ + option_debug(opt_i32(return_value))
        + " retry="@ + bool_text(retry) + " esp="@ + hex_alt(esp_before as nat) + "->"@ + hex_alt(esp_after as nat)
        + " eip_after="@ + hex_alt(eip_after as nat) + " guest_ret="@ + hex_alt(ret_before as nat)
}

/// One line describing how a Win32 hook returned.
pub fn format_hook_trace(
    import_func: &str,
    cleanup: StackCleanup,
    return_value: Option<i32>,
    esp_before: u64,
    esp_after: u64,
    eip_after: u64,
    ret_before: u32,
    retry: bool,
) -> (s: String)
    ensures
        s@ == hook_trace_text(import_func@, cleanup, return_value, esp_before, esp_after, eip_after, ret_before, retry),
{
    let mut s = String::from_str(import_func);
    s.append(" cleanup=");
    let c = format_cleanup(cleanup);
    s.append(c.as_str());
    s.append(" ret=");
    push_option_debug(&mut s, match return_value {
        Some(x) => Some(x as i64),
        None => None,
    });
    s.append(" retry=");
    push_bool(&mut s, retry);
    s.append(" esp=");
    push_hex_alt(&mut s, esp_before);
    s.append("->");
    push_hex_alt(&mut s, esp_after);
    s.append(" eip_after=");
    push_hex_alt(&mut s, eip_after);
    s.append(" guest_ret=");
    push_hex_alt(&mut s, ret_before as u64);
    s
}

/// Checksum of trace input: starting from the FNV offset basis, each byte
/// times the FNV prime (wrapping) is XORed in.
pub open spec fn checksum_of(data: Seq<u8>) -> u32
    decreases data.len(),
{
    if data.len() == 0 {
        0x811c_9dc5
    } else {
        checksum_of(data.drop_last()) ^ (((data.last() as int) * 0x0100_0193) % 0x1_0000_0000) as u32
    }
}

/// What byte `x` contributes to the checksum.
pub open spec fn checksum_term(x: u8) -> u32 {
    (((x as int) * 0x0100_0193) % 0x1_0000_0000) as u32
}

proof fn lemma_checksum_xor(a: Seq<u8>, b: Seq<u8>, k: int)
    requires
        a.len() == b.len(),
        0 <= k < a.len(),
        forall|i: int| 0 <= i < a.len() && i != k ==> a[i] == b[i],
    ensures
        checksum_of(a) ^ checksum_of(b) == checksum_term(a[k]) ^ checksum_term(b[k]),
    decreases a.len(),
{
    let pa = a.drop_last();
    let pb = b.drop_last();
    let ta = checksum_term(a.last());
    let tb = checksum_term(b.last());
    assert(checksum_of(a) == checksum_of(pa) ^ ta);
    assert(checksum_of(b) == checksum_of(pb) ^ tb);
    if k == a.len() - 1 {
        assert(pa =~= pb);
        let c = checksum_of(pa);
        assert((c ^ ta) ^ (c ^ tb) == ta ^ tb) by (bit_vector);
    } else {
        lemma_checksum_xor(pa, pb, k);
        assert(ta == tb);
        let ca = checksum_of(pa);
        let cb = checksum_of(pb);
        assert((ca ^ ta) ^ (cb ^ ta) == ca ^ cb) by (bit_vector);
    }
}

/// Changing one byte of the input changes the checksum.
pub proof fn lemma_checksum_detects_one_byte(a: Seq<u8>, b: Seq<u8>, k: int)
    requires
        a.len() == b.len(),
        0 <= k < a.len(),
        a[k] != b[k],
        forall|i: int| 0 <= i < a.len() && i != k ==> a[i] == b[i],
    ensures
        checksum_of(a) != checksum_of(b),
{
    lemma_checksum_xor(a, b, k);
    let x = a[k] as int;
    let y = b[k] as int;
    assert(x * 0x0100_0193 < 0x1_0000_0000 && y * 0x0100_0193 < 0x1_0000_0000 && x * 0x0100_0193 != y * 0x0100_0193)
        by (nonlinear_arith)
        requires
            0 <= x < 256,
            0 <= y < 256,
            x != y;
    let ta = checksum_term(a[k]);
    let tb = checksum_term(b[k]);
    assert(ta != tb);
    let ca = checksum_of(a);
    let cb = checksum_of(b);
    assert(ca ^ cb == ta ^ tb);
    assert(ta != tb && ca ^ cb == ta ^ tb ==> ca != cb) by (bit_vector);
}

/// Checksum of the bytes read for a traced file operation.
pub fn trace_checksum(data: &[u8]) -> (r: u32)
    ensures
        r == checksum_of(data@),
{
    let mut hash: u32 = 0x811c_9dc5;
    let mut i: usize = 0;
    while i < data.len()
        invariant
            0 <= i <= data@.len(),
            hash == checksum_of(data@.subrange(0, i as int)),
        decreases data@.len() - i,
    {
        let b = data[i] as u32;
        let m = b.wrapping_mul(0x0100_0193);
        proof {
            assert(data@.subrange(0, i + 1).drop_last() =~= data@.subrange(0, i as int));
            assert(m == ((b as int) * 0x0100_0193) % 0x1_0000_0000);
        }
        hash = hash ^ m;
        i = i + 1;
    }
    proof {
        assert(data@.subrange(0, data@.len() as int) =~= data@);
    }
    hash
}

/// File operations are traced for `.pak` archives, whatever the case of the
/// extension.
pub fn should_trace_file(path: &str) -> (r: bool)
    ensures
        r == ends_with_ascii_ci(path@, ".pak"@),
{
    ends_with_ascii_ci_exec(path, ".pak")
}

pub open spec fn file_trace_text(
    op: Seq<char>, handle: u32, path: Seq<char>, offset_before: Option<u64>, offset_after: Option<u64>,
    requested: usize, actual: usize, data: Seq<u8>,
) -> Seq<char> {
    op + " handle="@ + hex_alt(handle as nat) + " path="@ + path + " off="@ + option_debug(opt_u64(offset_before))
        + "->"@ + option_debug(opt_u64(offset_after)) + " req="@ + dec_digits(requested as nat) + " actual="@
        + dec_digits(actual as nat) + " checksum=0x"@ + hex_padded(checksum_of(data) as nat, 8)
}

fn push_option_u64(s: &mut String, v: Option<u64>)
    ensures
        final(s)@ == old(s)@ + option_debug(opt_u64(v)),
{
    let ghost s0 = s@;
    match v {
        Some(x) => {
            s.append("Some(");
            push_dec(s, x);
            s.append(")");
            proof {
                reveal_strlit("Some(");
                reveal_strlit(")");
                assert(crate::text::dec_signed(x as int) == dec_digits(x as nat));
                assert(s0 + "Some("@ + dec_digits(x as nat) + ")"@ =~= s0 + option_debug(opt_u64(v)));
            }
        },
        None => {
            s.append("None");
            proof {
                reveal_strlit("None");
            }
        },
    }
}

/// One line describing a traced file operation and the bytes it moved.
pub fn format_file_trace(
    op: &str,
    handle: u32,
    path: &str,
    offset_before: Option<u64>,
    offset_after: Option<u64>,
    requested: usize,
    actual: usize,
    data: &[u8],
) -> (s: String)
    ensures
        s@ == file_trace_text(op@, handle, path@, offset_before, offset_after, requested, actual, data@),
{
    let mut s = String::from_str(op);
    s.append(" handle=");
    push_hex_alt(&mut s, handle as u64);
    s.append(" path=");
    s.append(path);
    s.append(" off=");
    push_option_u64(&mut s, offset_before);
    s.append("->");
    push_option_u64(&mut s, offset_after);
    s.append(" req=");
    push_dec(&mut s, requested as u64);
    s.append(" actual=");
    push_dec(&mut s, actual as u64);
    s.append(" checksum=0x");
    push_hex_padded(&mut s, trace_checksum(data) as u64, 8);
    s
}

pub open spec fn heap_guard_text(addr: u64, size: usize, value: i64) -> Seq<char> {
    "HEAP_GUARD unallocated write addr="@ + hex_alt(addr as nat) + " size="@ + dec_digits(size as nat)
        + " value="@ + hex_alt((value as u64) as nat)
}

/// The message for a guest write into heap memory that no live allocation
/// holds; a negative value is shown in two's complement.
pub fn heap_guard_message(addr: u64, size: usize, value: i64) -> (s: String)
    ensures
        s@ == heap_guard_text(addr, size, value),
{
    let mut s = String::from_str("HEAP_GUARD unallocated write addr=");
    push_hex_alt(&mut s, addr);
    s.append(" size=");
    push_dec(&mut s, size as u64);
    s.append(" value=");
    push_hex_alt(&mut s, value as u64);
    s
}

/// The offset `rva` lies in the guest's LZW decoding loop.
pub fn is_lime_gif_hot_rva(rva: u32) -> (r: bool)
    ensures
        r == (LIME_GIF_HOT_RVA_START <= rva <= LIME_GIF_HOT_RVA_END),
{
    LIME_GIF_HOT_RVA_START <= rva && rva <= LIME_GIF_HOT_RVA_END
}

/// How far the LZW output cursor has run past its limit, if it has.
pub fn gif_lzw_output_limit_exceeded(limit_addr: u32, cursor: u32) -> (r: Option<u32>)
    ensures
        r == (if cursor > limit_addr { Some((cursor - limit_addr) as u32) } else { None }),
{
    if cursor > limit_addr { Some(cursor - limit_addr) } else { None }
}

pub open spec fn lzw_overflow_text(overflow: Option<(u32, u32, u32)>) -> Seq<char> {
    match overflow {
        Some((limit_addr, cursor, bytes)) => "limit_addr="@ + hex_alt(limit_addr as nat) + ", cursor="@
            + hex_alt(cursor as nat) + ", overflow="@ + dec_digits(bytes as nat),
        None => "limit_addr=<none>, cursor=<none>, overflow=0"@,
    }
}

/// Describes the LZW output overflow `(limit, cursor, bytes)`, or its absence.
pub fn format_lzw_overflow(overflow: Option<(u32, u32, u32)>) -> (s: String)
    ensures
        s@ == lzw_overflow_text(overflow),
{
    match overflow {
        Some((limit_addr, cursor, bytes)) => {
            let mut s = String::from_str("limit_addr=");
            push_hex_alt(&mut s, limit_addr as u64);
            s.append(", cursor=");
            push_hex_alt(&mut s, cursor as u64);
            s.append(", overflow=");
            push_dec(&mut s, bytes as u64);
            s
        },
        None => String::from_str("limit_addr=<none>, cursor=<none>, overflow=0"),
    }
}

pub open spec fn views(q: Seq<String>) -> Seq<Seq<char>> {
    q.map_values(|s: String| s@)
}

pub open spec fn recent_summary_text(q: Seq<String>) -> Seq<char> {
    if q.len() == 0 { "<empty>"@ } else { join(views(q), " | "@) }
}

/// The queued entries joined by ` | `, or `<empty>`.
pub fn recent_summary(queue: &Vec<String>) -> (s: String)
    ensures
        s@ == recent_summary_text(queue@),
{
    if queue.len() == 0 {
        return String::from_str("<empty>");
    }
    let mut s = String::from_str(queue[0].as_str());
    let mut i: usize = 1;
    proof {
        assert(views(queue@.subrange(0, 1)) =~= seq![queue@[0]@]);
    }
    while i < queue.len()
        invariant
            1 <= i <= queue@.len(),
            s@ == join(views(queue@.subrange(0, i as int)), " | "@),
        decreases queue@.len() - i,
    {
        s.append(" | ");
        s.append(queue[i].as_str());
        proof {
            let p = views(queue@.subrange(0, i + 1));
            assert(p.drop_last() =~= views(queue@.subrange(0, i as int)));
            assert(p.last() == queue@[i as int]@);
        }
        i = i + 1;
    }
    proof {
        assert(queue@.subrange(0, queue@.len() as int) =~= queue@);
    }
    s
}

/// The last `RECENT_LIMIT` entries of `q`.
pub open spec fn keep_recent<T>(q: Seq<T>) -> Seq<T> {
    if q.len() > RECENT_LIMIT { q.subrange(q.len() - RECENT_LIMIT, q.len() as int) } else { q }
}

/// Appends an entry, dropping the oldest ones beyond `RECENT_LIMIT`.
pub fn push_recent<T>(queue: &mut Vec<T>, value: T)
    ensures
        final(queue)@ == keep_recent(old(queue)@.push(value)),
{
    let ghost q0 = old(queue)@.push(value);
    queue.push(value);
    while queue.len() > RECENT_LIMIT
        invariant
            queue@.len() >= RECENT_LIMIT ==> queue@ == q0.subrange(q0.len() - queue@.len(), q0.len() as int),
            queue@.len() < RECENT_LIMIT ==> queue@ == q0,
            queue@.len() <= q0.len(),
            q0.len() > RECENT_LIMIT ==> queue@.len() >= RECENT_LIMIT,
        decreases queue@.len(),
    {
        let ghost before = queue@;
        queue.remove(0);
        proof {
            assert(queue@ =~= q0.subrange(q0.len() - queue@.len(), q0.len() as int));
        }
    }
    proof {
        if q0.len() > RECENT_LIMIT {
            assert(queue@.len() == RECENT_LIMIT);
        } else {
            if queue@.len() == RECENT_LIMIT {
                assert(q0.subrange(0, q0.len() as int) =~= q0);
            }
        }
    }
}

/// The offset of `eip` inside the guest's GIF decoder of the module loaded
/// at `base` with `size` bytes, if it lies there.
pub open spec fn spec_lime_gif_rva(base: u64, size: u64, eip: u64) -> Option<u32> {
    let end = if base + size > u64::MAX { u64::MAX as int } else { base + size };
    if eip < base || eip >= end {
        None
    } else {
        let rva = ((eip - base) as u64) as u32;
        if LIME_GIF_RVA_START <= rva <= LIME_GIF_RVA_END { Some(rva) } else { None }
    }
}

pub fn lime_gif_rva(base: u64, size: u64, eip: u64) -> (r: Option<u32>)
    ensures
        r == spec_lime_gif_rva(base, size, eip),
{
    let end = base.saturating_add(size);
    if eip < base || eip >= end {
        return None;
    }
    let rva = (eip - base) as u32;
    if LIME_GIF_RVA_START <= rva && rva <= LIME_GIF_RVA_END { Some(rva) } else { None }
}

/// The address at which the guest's LZW output limit is stored, for the
/// module loaded at `base`.
pub fn lzw_limit_addr(base: u64) -> (r: u32)
    ensures
        r == (if base + LIME_GIF_OUTPUT_LIMIT_RVA > u64::MAX { u64::MAX as u32 } else { ((base + LIME_GIF_OUTPUT_LIMIT_RVA) as u64) as u32 }),
{
    base.saturating_add(LIME_GIF_OUTPUT_LIMIT_RVA) as u32
}

/// Instructions per emulator slice: fixed in deterministic runs.
pub fn emulator_quantum(deterministic: bool, default_quantum: usize) -> (r: usize)
    ensures
        r == (if deterministic { DETERMINISTIC_QUANTUM } else { default_quantum }),
{
    if deterministic { DETERMINISTIC_QUANTUM } else { default_quantum }
}

/// Milliseconds seen by the guest: in deterministic runs a counter that
/// advances by a fixed step per reading, else the real elapsed time.
pub struct VirtualClock {
    pub ticks: u32,
}

impl VirtualClock {
    pub fn new() -> (c: VirtualClock)
        ensures
            c.ticks == 0,
    {
        VirtualClock { ticks: 0 }
    }

    /// The current reading; `elapsed_millis` is the real time since start.
    pub fn virtual_millis(&mut self, deterministic: bool, elapsed_millis: u128) -> (r: u32)
        ensures
            deterministic ==> r == old(self).ticks && final(self).ticks == (old(self).ticks + DETERMINISTIC_TICK_STEP_MS) % 0x1_0000_0000,
            !deterministic ==> r == elapsed_millis % 0x1_0000_0000 && final(self).ticks == old(self).ticks,
    {
        if deterministic {
            let t = self.ticks;
            self.ticks = t.wrapping_add(DETERMINISTIC_TICK_STEP_MS);
            t
        } else {
            proof {
                assert(elapsed_millis as u32 == elapsed_millis % 0x1_0000_0000) by (bit_vector);
            }
            elapsed_millis as u32
        }
    }
}

/// Hot-loop hits since the last periodic report; the count restarts at zero
/// when the loop is left while the last report count stays, and the distance
/// then wraps around as unchecked `usize` subtraction does.
pub open spec fn report_distance(count: usize, last: usize) -> int {
    if count >= last { count - last } else { count - last + usize::MAX + 1 }
}

/// Watches the guest's program counter for a GIF decoder stuck in its LZW
/// loop.
pub struct GifStallDetector {
    /// The latest program counters seen inside the decoder, oldest first.
    pub recent_eips: Vec<u32>,
    /// Consecutive observations inside the hot loop.
    pub hot_loop_count: usize,
    /// The count at the last periodic report.
    pub last_report_count: usize,
}

/// What the emulator loop does after one observation, in this order: a
/// periodic report with its overflow line, then, when `stop` is set, an
/// optional last report and the stop with that reason.
pub struct StallStep {
    pub periodic_report: bool,
    pub overflow_line: Option<String>,
    pub final_report: bool,
    pub stop: Option<String>,
}

pub open spec fn overflow_line_text(limit_addr: u32, cursor: u32, bytes: u32) -> Seq<char> {
    "GIF_LZW_STACK_OVERFLOW limit_addr="@ + hex_alt(limit_addr as nat) + " cursor="@ + hex_alt(cursor as nat)
        + " overflow="@ + dec_digits(bytes as nat)
}

pub open spec fn break_text(eip: u64, rva: u32, repeat: usize) -> Seq<char> {
    "GIF stall break requested at "@ + hex_alt(eip as nat) + " (rva="@ + hex_alt(rva as nat) + ", repeat="@
        + dec_digits(repeat as nat) + ")"@
}

pub open spec fn abort_text(eip: u64, rva: u32, repeat: usize, overflow: Option<(u32, u32, u32)>) -> Seq<char> {
    "GIF LZW hot loop did not make progress at "@ + hex_alt(eip as nat) + " (rva="@ + hex_alt(rva as nat)
        + ", repeat="@ + dec_digits(repeat as nat) + ", "@ + lzw_overflow_text(overflow) + ")"@
}

/// The overflow `(limit, cursor, bytes)` seen at a hot-loop observation of
/// the module at `base`, given the cursor read from guest memory.
pub open spec fn observed_overflow(hot: bool, base: u64, lzw_cursor: Option<u32>) -> Option<(u32, u32, u32)> {
    let limit_addr: u32 = if base + LIME_GIF_OUTPUT_LIMIT_RVA > u64::MAX { u64::MAX as u32 } else { ((base + LIME_GIF_OUTPUT_LIMIT_RVA) as u64) as u32 };
    match lzw_cursor {
        Some(cursor) => if hot && cursor > limit_addr { Some((limit_addr, cursor, (cursor - limit_addr) as u32)) } else { None },
        None => None,
    }
}

/// The guest memory word that holds the LZW output cursor is needed for
/// this observation.
pub fn needs_lzw_cursor(location: Option<(u64, u32)>) -> (r: bool)
    ensures
        r == (location matches Some((_, rva)) && LIME_GIF_HOT_RVA_START <= rva <= LIME_GIF_HOT_RVA_END),
{
    match location {
        Some((_, rva)) => is_lime_gif_hot_rva(rva),
        None => false,
    }
}

fn format_overflow_line(limit_addr: u32, cursor: u32, bytes: u32) -> (s: String)
    ensures
        s@ == overflow_line_text(limit_addr, cursor, bytes),
{
    let mut s = String::from_str("GIF_LZW_STACK_OVERFLOW limit_addr=");
    push_hex_alt(&mut s, limit_addr as u64);
    s.append(" cursor=");
    push_hex_alt(&mut s, cursor as u64);
    s.append(" overflow=");
    push_dec(&mut s, bytes as u64);
    s
}

fn format_break(eip: u64, rva: u32, repeat: usize) -> (s: String)
    ensures
        s@ == break_text(eip, rva, repeat),
{
    let mut s = String::from_str("GIF stall break requested at ");
    push_hex_alt(&mut s, eip);
    s.append(" (rva=");
    push_hex_alt(&mut s, rva as u64);
    s.append(", repeat=");
    push_dec(&mut s, repeat as u64);
    s.append(")");
    s
}

fn format_abort(eip: u64, rva: u32, repeat: usize, overflow: Option<(u32, u32, u32)>) -> (s: String)
    ensures
        s@ == abort_text(eip, rva, repeat, overflow),
{
    let mut s = String::from_str("GIF LZW hot loop did not make progress at ");
    push_hex_alt(&mut s, eip);
    s.append(" (rva=");
    push_hex_alt(&mut s, rva as u64);
    s.append(", repeat=");
    push_dec(&mut s, repeat as u64);
    s.append(", ");
    let o = format_lzw_overflow(overflow);
    s.append(o.as_str());
    s.append(")");
    s
}

impl GifStallDetector {
    pub fn new() -> (d: GifStallDetector)
        ensures
            d.recent_eips@.len() == 0,
            d.hot_loop_count == 0,
            d.last_report_count == 0,
    {
        GifStallDetector { recent_eips: Vec::new(), hot_loop_count: 0, last_report_count: 0 }
    }

    /// Observes the program counter `eip`; `location` is the decoder module's
    /// base and the offset of `eip` in it when `eip` lies in the decoder, and
    /// `lzw_cursor` the output cursor read from guest memory when
    /// `needs_lzw_cursor` asked for it.
    pub fn observe(
        &mut self,
        eip: u64,
        location: Option<(u64, u32)>,
        lzw_cursor: Option<u32>,
        trace_enabled: bool,
        stall_break_enabled: bool,
    ) -> (step: StallStep)
        ensures
            match location {
                None => {
                    &&& final(self).hot_loop_count == 0
                    &&& final(self).last_report_count == old(self).last_report_count
                    &&& final(self).recent_eips@ == old(self).recent_eips@
                    &&& !step.periodic_report && step.overflow_line is None && !step.final_report && step.stop is None
                },
                Some((base, rva)) => {
                    let hot = LIME_GIF_HOT_RVA_START <= rva <= LIME_GIF_HOT_RVA_END;
                    let count = final(self).hot_loop_count;
                    let overflow = observed_overflow(hot, base, lzw_cursor);
                    let due = trace_enabled && count >= GIF_STALL_REPORT_EVERY
                        && report_distance(count, old(self).last_report_count) >= GIF_STALL_REPORT_EVERY;
                    &&& final(self).recent_eips@ == keep_recent(old(self).recent_eips@.push(eip as u32))
                    &&& count == (if hot {
                            if old(self).hot_loop_count == usize::MAX { usize::MAX as int } else { old(self).hot_loop_count + 1 }
                        } else { 0 })
                    &&& final(self).last_report_count == (if due { count } else { old(self).last_report_count })
                    &&& step.periodic_report == due
                    &&& (match step.overflow_line {
                            Some(line) => due && (overflow matches Some((l, c, b)) && line@ == overflow_line_text(l, c, b)),
                            None => !due || overflow is None,
                        })
                    &&& if due && stall_break_enabled {
                            &&& !step.final_report
                            &&& step.stop matches Some(msg) && msg@ == break_text(eip, rva, count)
                        } else if count >= GIF_STALL_ABORT_AFTER {
                            &&& step.final_report == trace_enabled
                            &&& step.stop matches Some(msg) && msg@ == abort_text(eip, rva, count, overflow)
                        } else {
                            !step.final_report && step.stop is None
                        }
                },
            },
    {
        let (base, rva) = match location {
            None => {
                self.hot_loop_count = 0;
                return StallStep { periodic_report: false, overflow_line: None, final_report: false, stop: None };
            },
            Some(l) => l,
        };
        push_recent(&mut self.recent_eips, eip as u32);
        let hot = is_lime_gif_hot_rva(rva);
        if hot {
            self.hot_loop_count = self.hot_loop_count.saturating_add(1);
        } else {
            self.hot_loop_count = 0;
        }
        let overflow: Option<(u32, u32, u32)> = if hot {
            match lzw_cursor {
                Some(cursor) => {
                    let limit_addr = lzw_limit_addr(base);
                    match gif_lzw_output_limit_exceeded(limit_addr, cursor) {
                        Some(bytes) => Some((limit_addr, cursor, bytes)),
                        None => None,
                    }
                },
                None => None,
            }
        } else {
            None
        };
        let mut step = StallStep { periodic_report: false, overflow_line: None, final_report: false, stop: None };
        let count = self.hot_loop_count;
        if trace_enabled && count >= GIF_STALL_REPORT_EVERY && count.wrapping_sub(self.last_report_count) >= GIF_STALL_REPORT_EVERY {
            self.last_report_count = count;
            step.periodic_report = true;
            step.overflow_line = match overflow {
                Some((limit_addr, cursor, bytes)) => Some(format_overflow_line(limit_addr, cursor, bytes)),
                None => None,
            };
            if stall_break_enabled {
                step.stop = Some(format_break(eip, rva, count));
                return step;
            }
        }
        if count >= GIF_STALL_ABORT_AFTER {
            step.final_report = trace_enabled;
            step.stop = Some(format_abort(eip, rva, count, overflow));
        }
        step
    }
}

pub open spec fn eip_list_text(eips: Seq<u32>) -> Seq<char> {
    join(eips.map_values(|e: u32| hex_alt(e as nat)), " "@)
}

pub open spec fn stall_header_text(eip: u64, rva: u32, repeat: usize, quantum: usize, recent_eips: Seq<u32>) -> Seq<char> {
    "GIF_STALL eip="@ + hex_alt(eip as nat) + " lime_rva="@ + hex_alt(rva as nat) + " repeat="@ + dec_digits(repeat as nat)
        + " quantum="@ + dec_digits(quantum as nat) + " recent_eips=["@ + eip_list_text(recent_eips) + "]"@
}

/// The first line of a stall report.
pub fn format_stall_header(eip: u64, rva: u32, repeat: usize, quantum: usize, recent_eips: &Vec<u32>) -> (s: String)
    ensures
        s@ == stall_header_text(eip, rva, repeat, quantum, recent_eips@),
{
    let mut s = String::from_str("GIF_STALL eip=");
    push_hex_alt(&mut s, eip);
    s.append(" lime_rva=");
    push_hex_alt(&mut s, rva as u64);
    s.append(" repeat=");
    push_dec(&mut s, repeat as u64);
    s.append(" quantum=");
    push_dec(&mut s, quantum as u64);
    s.append(" recent_eips=[");
    let ghost prefix = s@;
    let mut i: usize = 0;
    while i < recent_eips.len()
        invariant
            0 <= i <= recent_eips@.len(),
            s@ == prefix + eip_list_text(recent_eips@.subrange(0, i as int)),
        decreases recent_eips@.len() - i,
    {
        let ghost before = s@;
        if i > 0 {
            s.append(" ");
        }
        push_hex_alt(&mut s, recent_eips[i] as u64);
        proof {
            let sub = recent_eips@.subrange(0, i + 1);
            let parts = sub.map_values(|e: u32| hex_alt(e as nat));
            assert(parts.drop_last() =~= recent_eips@.subrange(0, i as int).map_values(|e: u32| hex_alt(e as nat)));
            assert(parts.last() == hex_alt(recent_eips@[i as int] as nat));
            if i == 0 {
                assert(parts.len() == 1);
                assert(eip_list_text(recent_eips@.subrange(0, 0)) =~= Seq::<char>::empty());
                assert(s@ =~= prefix + eip_list_text(sub));
            } else {
                assert(s@ =~= prefix + eip_list_text(sub));
            }
        }
        i = i + 1;
    }
    s.append("]");
    proof {
        assert(recent_eips@.subrange(0, recent_eips@.len() as int) =~= recent_eips@);
    }
    s
}

/// The register names of a stall report, in the order they are shown.
pub open spec fn register_names() -> Seq<Seq<char>> {
    seq!["EAX"@, "EBX"@, "ECX"@, "EDX"@, "ESI"@, "EDI"@, "EBP"@, "ESP"@, "EIP"@]
}

/// `EAX=0x..` and so on for the nine registers, joined by spaces.
pub open spec fn register_summary_text(regs: Seq<u64>) -> Seq<char> {
    join(Seq::new(9, |i: int| register_names()[i] + "="@ + hex_alt(regs[i] as nat)), " "@)
}

/// The registers of a stall report (`regs` in the order EAX, EBX, ECX, EDX,
/// ESI, EDI, EBP, ESP, EIP) as `NAME=0x..` pairs joined by spaces.
pub fn register_summary(regs: &[u64; 9]) -> (s: String)
    ensures
        s@ == register_summary_text(regs@),
{
    let names: [&str; 9] = ["EAX", "EBX", "ECX", "EDX", "ESI", "EDI", "EBP", "ESP", "EIP"];
    let ghost parts = Seq::new(9, |i: int| register_names()[i] + "="@ + hex_alt(regs@[i] as nat));
    proof {
        assert forall|i: int| 0 <= i < 9 implies #[trigger] names@[i]@ == register_names()[i] by {}
    }
    let mut s = String::new();
    let mut i: usize = 0;
    while i < 9
        invariant
            0 <= i <= 9,
            forall|k: int| 0 <= k < 9 ==> #[trigger] names@[k]@ == register_names()[k],
            parts == Seq::new(9, |j: int| register_names()[j] + "="@ + hex_alt(regs@[j] as nat)),
            s@ == join(parts.take(i as int), " "@),
        decreases 9 - i,
    {
        let ghost before = s@;
        if i > 0 {
            s.append(" ");
        }
        s.append(names[i]);
        s.append("=");
        push_hex_alt(&mut s, regs[i]);
        proof {
            let p = parts.take(i + 1);
            assert(p.drop_last() =~= parts.take(i as int));
            assert(p.last() == parts[i as int]);
            if i == 0 {
                assert(before =~= Seq::<char>::empty());
                assert(s@ =~= parts[0]);
            } else {
                assert(s@ =~= before + " "@ + parts[i as int]);
            }
        }
        i = i + 1;
    }
    proof {
        assert(parts.take(9) =~= parts);
    }
    s
}

/// `0x<addr>:0x<value>` for the eight words on top of the stack at `esp`,
/// joined by spaces.
pub open spec fn stack_summary_text(esp: u64, words: Seq<u32>) -> Seq<char> {
    join(Seq::new(8, |i: int| hex_alt((esp + i * 4) as nat) + ":"@ + hex_alt(words[i] as nat)), " "@)
}

/// The top of the stack of a stall report: `words[i]` is the value at
/// `esp + 4 * i`.
pub fn stack_summary(esp: u64, words: &[u32; 8]) -> (s: String)
    requires
        esp + 28 <= u64::MAX,
    ensures
        s@ == stack_summary_text(esp, words@),
{
    let ghost parts = Seq::new(8, |i: int| hex_alt((esp + i * 4) as nat) + ":"@ + hex_alt(words@[i] as nat));
    let mut s = String::new();
    let mut i: usize = 0;
    while i < 8
        invariant
            0 <= i <= 8,
            esp + 28 <= u64::MAX,
            parts == Seq::new(8, |j: int| hex_alt((esp + j * 4) as nat) + ":"@ + hex_alt(words@[j] as nat)),
            s@ == join(parts.take(i as int), " "@),
        decreases 8 - i,
    {
        let ghost before = s@;
        if i > 0 {
            s.append(" ");
        }
        push_hex_alt(&mut s, esp + (i as u64) * 4);
        s.append(":");
        push_hex_alt(&mut s, words[i] as u64);
        proof {
            let p = parts.take(i + 1);
            assert(p.drop_last() =~= parts.take(i as int));
            assert(p.last() == parts[i as int]);
            if i == 0 {
                assert(before =~= Seq::<char>::empty());
                assert(s@ =~= parts[0]);
            } else {
                assert(s@ =~= before + " "@ + parts[i as int]);
            }
        }
        i = i + 1;
    }
    proof {
        assert(parts.take(8) =~= parts);
    }
    s
}

} // verus!
