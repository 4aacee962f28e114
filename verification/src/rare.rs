//! The `Rare.dll` sound proxy: its export names, the `.pak` archives that
//! hold sounds, and the RIFF/WAVE container and PCM sample layouts.

use vstd::prelude::*;
use crate::logtext::chars_of;
use crate::exports::{ProxyExports, registration, proxy_key};

verus! {

/// The `Rare.dll` proxy module.
pub struct Rare;

pub open spec fn export_table() -> Seq<(Seq<char>, Seq<char>)> {
    seq![
        ("?Rare_CreateContext@@YAPAVRContext@@XZ"@, "Rare_CreateContext"@),
        ("?Rare_DestroyContext@@YAXPAVRContext@@@Z"@, "Rare_DestroyContext"@),
        ("?Rare_SetSoundNotify@@YAXPAVRContext@@PAVRNotify@@@Z"@, "Rare_SetSoundNotify"@),
        ("?Rare_OpenSound@@YAPAVRSound@@PAVRContext@@PADW4Rare_Open@@@Z"@, "Rare_OpenSound"@),
        ("?Rare_CloseSound@@YAXPAVRSound@@@Z"@, "Rare_CloseSound"@),
        ("?Rare_PlaySound@@YAXPAVRSound@@@Z"@, "Rare_PlaySound"@),
        ("?Rare_StopSound@@YAXPAVRSound@@@Z"@, "Rare_StopSound"@),
        ("?Rare_ResetSound@@YAXPAVRSound@@@Z"@, "Rare_ResetSound"@),
        ("?Rare_PauseSound@@YAXPAVRSound@@@Z"@, "Rare_PauseSound"@),
        ("?Rare_IsPlaySound@@YAHPAVRSound@@@Z"@, "Rare_IsPlaySound"@),
        ("?Rare_SetFrequency@@YAXPAVRSound@@J@Z"@, "Rare_SetFrequency"@),
        ("?Rare_GetFrequency@@YAJPAVRSound@@@Z"@, "Rare_GetFrequency"@),
        ("?Rare_SetPan@@YAXPAVRSound@@J@Z"@, "Rare_SetPan"@),
        ("?Rare_GetPan@@YAJPAVRSound@@@Z"@, "Rare_GetPan"@),
        ("?Rare_SetVolume@@YAXPAVRSound@@J@Z"@, "Rare_SetVolume"@),
        ("?Rare_GetVolume@@YAJPAVRSound@@@Z"@, "Rare_GetVolume"@),
        ("?Rare_SetRepeat@@YAXPAVRSound@@H@Z"@, "Rare_SetRepeat"@),
        ("?Rare_IsRepeat@@YAHPAVRSound@@@Z"@, "Rare_IsRepeat"@)
    ]
}

fn exec_export_table() -> (t: Vec<(&'static str, &'static str)>)
    ensures
        t@.len() == export_table().len(),
        forall|i: int| 0 <= i < t@.len() ==> (#[trigger] t@[i]).0@ == export_table()[i].0 && t@[i].1@ == export_table()[i].1,
{
    let t = vec![
        ("?Rare_CreateContext@@YAPAVRContext@@XZ", "Rare_CreateContext"),
        ("?Rare_DestroyContext@@YAXPAVRContext@@@Z", "Rare_DestroyContext"),
        ("?Rare_SetSoundNotify@@YAXPAVRContext@@PAVRNotify@@@Z", "Rare_SetSoundNotify"),
        ("?Rare_OpenSound@@YAPAVRSound@@PAVRContext@@PADW4Rare_Open@@@Z", "Rare_OpenSound"),
        ("?Rare_CloseSound@@YAXPAVRSound@@@Z", "Rare_CloseSound"),
        ("?Rare_PlaySound@@YAXPAVRSound@@@Z", "Rare_PlaySound"),
        ("?Rare_StopSound@@YAXPAVRSound@@@Z", "Rare_StopSound"),
        ("?Rare_ResetSound@@YAXPAVRSound@@@Z", "Rare_ResetSound"),
        ("?Rare_PauseSound@@YAXPAVRSound@@@Z", "Rare_PauseSound"),
        ("?Rare_IsPlaySound@@YAHPAVRSound@@@Z", "Rare_IsPlaySound"),
        ("?Rare_SetFrequency@@YAXPAVRSound@@J@Z", "Rare_SetFrequency"),
        ("?Rare_GetFrequency@@YAJPAVRSound@@@Z", "Rare_GetFrequency"),
        ("?Rare_SetPan@@YAXPAVRSound@@J@Z", "Rare_SetPan"),
        ("?Rare_GetPan@@YAJPAVRSound@@@Z", "Rare_GetPan"),
        ("?Rare_SetVolume@@YAXPAVRSound@@J@Z", "Rare_SetVolume"),
        ("?Rare_GetVolume@@YAJPAVRSound@@@Z", "Rare_GetVolume"),
        ("?Rare_SetRepeat@@YAXPAVRSound@@H@Z", "Rare_SetRepeat"),
        ("?Rare_IsRepeat@@YAHPAVRSound@@@Z", "Rare_IsRepeat"),
    ];
    proof {
        assert forall|i: int| 0 <= i < t@.len() implies (#[trigger] t@[i]).0@ == export_table()[i].0 && t@[i].1@ == export_table()[i].1 by {}
    }
    t
}

fn str_eq(a: &str, b: &str) -> (r: bool)
    ensures
        r == (a@ == b@),
{
    let x = chars_of(a);
    let y = chars_of(b);
    if x.len() != y.len() {
        return false;
    }
    let mut i: usize = 0;
    while i < x.len()
        invariant
            x@ == a@,
            y@ == b@,
            x@.len() == y@.len(),
            0 <= i <= x@.len(),
            forall|k: int| 0 <= k < i ==> x@[k] == y@[k],
        decreases x@.len() - i,
    {
        if x[i] != y[i] {
            proof {
                assert(a@[i as int] != b@[i as int]);
            }
            return false;
        }
        i = i + 1;
    }
    proof {
        assert(x@ =~= y@);
    }
    true
}

/// The decorated export that a name stands for: the decorated name itself or
/// its plain form.
pub fn normalize_export_name(func_name: &str) -> (r: Option<&'static str>)
    ensures
        match r {
            Some(d) => exists|i: int| 0 <= i < export_table().len()
                && (func_name@ == (#[trigger] export_table()[i]).0 || func_name@ == export_table()[i].1)
                && d@ == export_table()[i].0
                && forall|j: int| 0 <= j < i ==> func_name@ != (#[trigger] export_table()[j]).0 && func_name@ != export_table()[j].1,
            None => forall|i: int| 0 <= i < export_table().len()
                ==> func_name@ != (#[trigger] export_table()[i]).0 && func_name@ != export_table()[i].1,
        },
{
    let table = exec_export_table();
    let mut i: usize = 0;
    while i < table.len()
        invariant
            table@.len() == export_table().len(),
            forall|k: int| 0 <= k < table@.len() ==> (#[trigger] table@[k]).0@ == export_table()[k].0 && table@[k].1@ == export_table()[k].1,
            0 <= i <= table@.len(),
            forall|j: int| 0 <= j < i ==> func_name@ != (#[trigger] export_table()[j]).0 && func_name@ != export_table()[j].1,
        decreases table@.len() - i,
    {
        let (decorated, plain) = table[i];
        if str_eq(func_name, decorated) || str_eq(func_name, plain) {
            proof {
                assert(table@[i as int].0@ == export_table()[i as int].0);
            }
            return Some(decorated);
        }
        proof {
            assert(table@[i as int].0@ == export_table()[i as int].0);
        }
        i = i + 1;
    }
    None
}

/// `d` is the decorated export that `name` stands for (see
/// `normalize_export_name`).
pub open spec fn export_for(name: Seq<char>, d: Seq<char>) -> bool {
    exists|i: int| 0 <= i < export_table().len()
        && (name == (#[trigger] export_table()[i]).0 || name == export_table()[i].1)
        && d == export_table()[i].0
        && forall|j: int| 0 <= j < i ==> name != (#[trigger] export_table()[j]).0 && name != export_table()[j].1
}

impl Rare {
    /// The fake import address of the `Rare.dll` export `func_name`
    /// (decorated or plain), registered as `Rare.dll!<decorated name>`;
    /// `None`, with nothing changed, for a name the proxy does not export.
    pub fn resolve_export(exports: &mut ProxyExports, func_name: &str) -> (r: Option<u32>)
        ensures
            match r {
                Some(a) => exists|d: Seq<char>| #[trigger] export_for(func_name@, d)
                    && registration(*old(exports), *final(exports), proxy_key("Rare.dll"@, d), a),
                None => *final(exports) == *old(exports) && forall|i: int| 0 <= i < export_table().len()
                    ==> func_name@ != (#[trigger] export_table()[i]).0 && func_name@ != export_table()[i].1,
            },
    {
        match normalize_export_name(func_name) {
            Some(symbol) => {
                let a = exports.register_proxy_symbol("Rare.dll", symbol);
                proof {
                    assert(export_for(func_name@, symbol@));
                }
                Some(a)
            },
            None => None,
        }
    }
}

} // verus!
