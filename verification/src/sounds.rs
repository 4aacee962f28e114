//! The sound objects of Rare.dll by guest pointer: the controls a game sets
//! and reads back (volume, pan, frequency, repeat, playing and paused), and
//! the last-error code each call leaves. The decoded samples and the
//! playback position belong to the mixer; a call that rewinds a sound says
//! so in its result.

use vstd::prelude::*;
use std::collections::HashMap;

verus! {

broadcast use vstd::std_specs::hash::group_hash_axioms;

/// The last-error code of a call on a pointer that names no sound.
pub const ERROR_INVALID_HANDLE: u32 = 6;

/// The controls of one sound object.
#[derive(Debug, Clone)]
pub struct SoundControls {
    /// The context object that created the sound.
    pub context_ptr: u32,
    /// The file the sound was opened from.
    pub path: String,
    /// The raw value given to `SetVolume`.
    pub volume: i32,
    /// The raw value given to `SetPan`.
    pub pan: i32,
    /// The raw value given to `SetFrequency`.
    pub frequency: i32,
    pub repeat: bool,
    pub playing: bool,
    pub paused: bool,
}

/// The controls as plain values.
pub struct SoundView {
    pub context_ptr: u32,
    pub path: Seq<char>,
    pub volume: i32,
    pub pan: i32,
    pub frequency: i32,
    pub repeat: bool,
    pub playing: bool,
    pub paused: bool,
}

impl SoundControls {
    pub open spec fn view(&self) -> SoundView {
        SoundView {
            context_ptr: self.context_ptr,
            path: self.path@,
            volume: self.volume,
            pan: self.pan,
            frequency: self.frequency,
            repeat: self.repeat,
            playing: self.playing,
            paused: self.paused,
        }
    }
}

/// The last-error code of a call on `ptr`: 0 when it names a sound.
pub open spec fn error_for(sounds: Map<u32, SoundView>, ptr: u32) -> u32 {
    if sounds.contains_key(ptr) { 0 } else { ERROR_INVALID_HANDLE }
}

/// The sounds with the one at `ptr`, if there is one, replaced by `next`.
pub open spec fn changed(sounds: Map<u32, SoundView>, ptr: u32, next: SoundView) -> Map<u32, SoundView> {
    if sounds.contains_key(ptr) { sounds.insert(ptr, next) } else { sounds }
}

/// What a getter reports: `value` for a known sound, else `missing`; and
/// the last-error code.
pub open spec fn reading(sounds: Map<u32, SoundView>, ptr: u32, value: i32, missing: i32) -> (i32, u32) {
    if sounds.contains_key(ptr) { (value, 0u32) } else { (missing, ERROR_INVALID_HANDLE) }
}

/// The sound objects by guest pointer.
pub struct SoundTable {
    pub sounds: HashMap<u32, SoundControls>,
}

impl SoundTable {
    /// The sounds by pointer.
    pub open spec fn sound_map(&self) -> Map<u32, SoundView> {
        self.sounds@.map_values(|s: SoundControls| s@)
    }

    /// The sound at `ptr`, or any value where there is none.
    pub open spec fn at(&self, ptr: u32) -> SoundView {
        self.sound_map()[ptr]
    }

    pub fn new() -> (t: SoundTable)
        ensures
            t.sound_map() == Map::<u32, SoundView>::empty(),
    {
        let t = SoundTable { sounds: HashMap::new() };
        proof {
            assert(t.sound_map() =~= Map::<u32, SoundView>::empty());
        }
        t
    }

    /// Records a sound just opened at `ptr` for `context_ptr`: stopped, not
    /// repeating, at volume and pan 0 and the source's own `sample_rate`.
    pub fn create_sound_object(&mut self, ptr: u32, context_ptr: u32, path: &str, sample_rate: u32)
        ensures
            final(self).sound_map() == old(self).sound_map().insert(ptr, SoundView {
                context_ptr,
                path: path@,
                volume: 0,
                pan: 0,
                frequency: sample_rate as i32,
                repeat: false,
                playing: false,
                paused: false,
            }),
    {
        let s = SoundControls {
            context_ptr,
            path: path.to_owned(),
            volume: 0,
            pan: 0,
            frequency: sample_rate as i32,
            repeat: false,
            playing: false,
            paused: false,
        };
        self.sounds.insert(ptr, s);
        proof {
            assert(self.sound_map() =~= old(self).sound_map().insert(ptr, s@));
        }
    }

    /// Takes the sound at `ptr` out, if there is one.
    fn take(&mut self, ptr: u32) -> (r: Option<SoundControls>)
        ensures
            r is Some <==> old(self).sound_map().contains_key(ptr),
            r matches Some(s) ==> s@ == old(self).sound_map()[ptr],
            final(self).sound_map() == old(self).sound_map().remove(ptr),
    {
        let r = self.sounds.remove(&ptr);
        proof {
            assert(self.sound_map() =~= old(self).sound_map().remove(ptr));
        }
        r
    }

    fn put(&mut self, ptr: u32, s: SoundControls)
        ensures
            final(self).sound_map() == old(self).sound_map().insert(ptr, s@),
    {
        self.sounds.insert(ptr, s);
        proof {
            assert(self.sound_map() =~= old(self).sound_map().insert(ptr, s@));
        }
    }

    /// Forgets the sound at `ptr`; the last-error code, or `None` for the
    /// null pointer, which changes nothing.
    pub fn destroy_sound(&mut self, ptr: u32) -> (err: Option<u32>)
        ensures
            ptr == 0 ==> err is None && final(self).sound_map() == old(self).sound_map(),
            ptr != 0 ==> err == Some(error_for(old(self).sound_map(), ptr))
                && final(self).sound_map() == old(self).sound_map().remove(ptr),
    {
        if ptr == 0 {
            return None;
        }
        let removed = self.take(ptr);
        match removed {
            Some(_) => Some(0),
            None => Some(ERROR_INVALID_HANDLE),
        }
    }

    /// Starts, pauses or stops the sound at `ptr`; with `reset_position`
    /// the mixer must rewind it (the second result). The first result is
    /// the last-error code.
    pub fn set_sound_playing(&mut self, ptr: u32, playing: bool, paused: bool, reset_position: bool) -> (r: (u32, bool))
        ensures
            r.0 == error_for(old(self).sound_map(), ptr),
            r.1 == (old(self).sound_map().contains_key(ptr) && reset_position),
            final(self).sound_map() == changed(old(self).sound_map(), ptr,
                SoundView { playing, paused, ..old(self).at(ptr) }),
    {
        match self.take(ptr) {
            Some(mut s) => {
                s.playing = playing;
                s.paused = paused;
                self.put(ptr, s);
                proof {
                    assert(self.sound_map() =~= changed(old(self).sound_map(), ptr,
                        SoundView { playing, paused, ..old(self).at(ptr) }));
                }
                (0, reset_position)
            },
            None => {
                proof {
                    assert(self.sound_map() =~= old(self).sound_map());
                }
                (ERROR_INVALID_HANDLE, false)
            },
        }
    }

    /// Stops the sound at `ptr` and has the mixer rewind it; the last-error
    /// code and whether to rewind.
    pub fn stop_sound(&mut self, ptr: u32) -> (r: (u32, bool))
        ensures
            r.0 == error_for(old(self).sound_map(), ptr),
            r.1 == old(self).sound_map().contains_key(ptr),
            final(self).sound_map() == changed(old(self).sound_map(), ptr,
                SoundView { playing: false, paused: false, ..old(self).at(ptr) }),
    {
        self.set_sound_playing(ptr, false, false, true)
    }

    /// Has the mixer rewind the sound at `ptr`; the last-error code and
    /// whether to rewind. The controls stay as they are.
    pub fn reset_sound_position(&self, ptr: u32) -> (r: (u32, bool))
        ensures
            r.0 == error_for(self.sound_map(), ptr),
            r.1 == self.sound_map().contains_key(ptr),
    {
        if self.sounds.contains_key(&ptr) { (0, true) } else { (ERROR_INVALID_HANDLE, false) }
    }

    /// `SetVolume`: stores the raw value; the last-error code.
    pub fn set_sound_volume(&mut self, ptr: u32, value: i32) -> (err: u32)
        ensures
            err == error_for(old(self).sound_map(), ptr),
            final(self).sound_map() == changed(old(self).sound_map(), ptr, SoundView { volume: value, ..old(self).at(ptr) }),
    {
        match self.take(ptr) {
            Some(mut s) => {
                s.volume = value;
                self.put(ptr, s);
                0
            },
            None => {
                proof {
                    assert(self.sound_map() =~= old(self).sound_map());
                }
                ERROR_INVALID_HANDLE
            },
        }
    }

    /// `SetPan`: stores the raw value; the last-error code.
    pub fn set_sound_pan(&mut self, ptr: u32, value: i32) -> (err: u32)
        ensures
            err == error_for(old(self).sound_map(), ptr),
            final(self).sound_map() == changed(old(self).sound_map(), ptr, SoundView { pan: value, ..old(self).at(ptr) }),
    {
        match self.take(ptr) {
            Some(mut s) => {
                s.pan = value;
                self.put(ptr, s);
                0
            },
            None => {
                proof {
                    assert(self.sound_map() =~= old(self).sound_map());
                }
                ERROR_INVALID_HANDLE
            },
        }
    }

    /// `SetFrequency`: stores the raw value; the last-error code.
    pub fn set_sound_frequency(&mut self, ptr: u32, value: i32) -> (err: u32)
        ensures
            err == error_for(old(self).sound_map(), ptr),
            final(self).sound_map() == changed(old(self).sound_map(), ptr, SoundView { frequency: value, ..old(self).at(ptr) }),
    {
        match self.take(ptr) {
            Some(mut s) => {
                s.frequency = value;
                self.put(ptr, s);
                0
            },
            None => {
                proof {
                    assert(self.sound_map() =~= old(self).sound_map());
                }
                ERROR_INVALID_HANDLE
            },
        }
    }

    /// `SetRepeat`: the last-error code.
    pub fn set_sound_repeat(&mut self, ptr: u32, repeat: bool) -> (err: u32)
        ensures
            err == error_for(old(self).sound_map(), ptr),
            final(self).sound_map() == changed(old(self).sound_map(), ptr, SoundView { repeat, ..old(self).at(ptr) }),
    {
        match self.take(ptr) {
            Some(mut s) => {
                s.repeat = repeat;
                self.put(ptr, s);
                0
            },
            None => {
                proof {
                    assert(self.sound_map() =~= old(self).sound_map());
                }
                ERROR_INVALID_HANDLE
            },
        }
    }

    /// `IsPlaying`: 1 when playing and not paused, else 0 (0 for no
    /// sound); and the last-error code.
    pub fn sound_is_playing_value(&self, ptr: u32) -> (r: (i32, u32))
        ensures
            r == reading(self.sound_map(), ptr, if self.at(ptr).playing && !self.at(ptr).paused { 1i32 } else { 0i32 }, 0),
    {
        match self.sounds.get(&ptr) {
            Some(s) => (if s.playing && !s.paused { 1 } else { 0 }, 0),
            None => (0, ERROR_INVALID_HANDLE),
        }
    }

    /// `GetFrequency`: the stored value (-1 for no sound) and the
    /// last-error code.
    pub fn sound_frequency_value(&self, ptr: u32) -> (r: (i32, u32))
        ensures
            r == reading(self.sound_map(), ptr, self.at(ptr).frequency, -1i32),
    {
        match self.sounds.get(&ptr) {
            Some(s) => (s.frequency, 0),
            None => (-1, ERROR_INVALID_HANDLE),
        }
    }

    /// `GetPan`: the stored value (0 for no sound) and the last-error code.
    pub fn sound_pan_value(&self, ptr: u32) -> (r: (i32, u32))
        ensures
            r == reading(self.sound_map(), ptr, self.at(ptr).pan, 0),
    {
        match self.sounds.get(&ptr) {
            Some(s) => (s.pan, 0),
            None => (0, ERROR_INVALID_HANDLE),
        }
    }

    /// `GetVolume`: the stored value (-1 for no sound) and the last-error
    /// code.
    pub fn sound_volume_value(&self, ptr: u32) -> (r: (i32, u32))
        ensures
            r == reading(self.sound_map(), ptr, self.at(ptr).volume, -1i32),
    {
        match self.sounds.get(&ptr) {
            Some(s) => (s.volume, 0),
            None => (-1, ERROR_INVALID_HANDLE),
        }
    }

    /// `IsRepeat`: 1 or 0 (0 for no sound) and the last-error code.
    pub fn sound_is_repeat_value(&self, ptr: u32) -> (r: (i32, u32))
        ensures
            r == reading(self.sound_map(), ptr, if self.at(ptr).repeat { 1i32 } else { 0i32 }, 0),
    {
        match self.sounds.get(&ptr) {
            Some(s) => (if s.repeat { 1 } else { 0 }, 0),
            None => (0, ERROR_INVALID_HANDLE),
        }
    }
}

/// A getter gives back what the matching setter stored, on a known sound,
/// and every other sound keeps its controls.
pub proof fn lemma_sound_read_after_write(sounds: Map<u32, SoundView>, ptr: u32, other: u32, value: i32)
    requires
        sounds.contains_key(ptr),
    ensures
        reading(changed(sounds, ptr, SoundView { volume: value, ..sounds[ptr] }), ptr,
            changed(sounds, ptr, SoundView { volume: value, ..sounds[ptr] })[ptr].volume, -1i32) == (value, 0u32),
        reading(changed(sounds, ptr, SoundView { pan: value, ..sounds[ptr] }), ptr,
            changed(sounds, ptr, SoundView { pan: value, ..sounds[ptr] })[ptr].pan, 0) == (value, 0u32),
        reading(changed(sounds, ptr, SoundView { frequency: value, ..sounds[ptr] }), ptr,
            changed(sounds, ptr, SoundView { frequency: value, ..sounds[ptr] })[ptr].frequency, -1i32) == (value, 0u32),
        other != ptr && sounds.contains_key(other) ==>
            changed(sounds, ptr, SoundView { volume: value, ..sounds[ptr] })[other] == sounds[other],
{
}

/// A destroyed sound answers every later call with `ERROR_INVALID_HANDLE`.
pub proof fn lemma_destroyed_sound_is_invalid(sounds: Map<u32, SoundView>, ptr: u32, value: i32)
    ensures
        error_for(sounds.remove(ptr), ptr) == ERROR_INVALID_HANDLE,
        reading(sounds.remove(ptr), ptr, value, -1i32) == (-1i32, ERROR_INVALID_HANDLE),
        changed(sounds.remove(ptr), ptr, SoundView { volume: value, ..sounds.remove(ptr)[ptr] }) == sounds.remove(ptr),
{
}

} // verus!
