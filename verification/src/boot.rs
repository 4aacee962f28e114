//! The resource directory: the files it must hold and the choice among the
//! candidate directories.

use vstd::prelude::*;

verus! {

pub const EXECUTABLE_NAME: &'static str = "4Leaf.exe";
pub const LIBRARY_4LEAF: &'static str = "4Leaf.dll";
pub const LIBRARY_CORE: &'static str = "Core.dll";
pub const LIBRARY_WINCORE: &'static str = "WinCore.dll";
pub const LIBRARY_DNET: &'static str = "DNet.dll";
pub const LIBRARY_LIME: &'static str = "Lime.dll";
pub const LIBRARY_DICE: &'static str = "Dice.dll";
/// The directory used when none was resolved.
pub const RESOURCES_DIR: &'static str = "./Resources";

/// The files a directory must hold to be taken as the resource directory.
pub fn required_resource_files() -> (r: Vec<&'static str>)
    ensures
        r@.len() == 7,
{
    vec![EXECUTABLE_NAME, LIBRARY_4LEAF, LIBRARY_CORE, LIBRARY_WINCORE, LIBRARY_DNET, LIBRARY_LIME, LIBRARY_DICE]
}

/// The resource directory: the one resolved at start-up, else `./Resources`.
pub fn resource_dir(resolved: Option<&str>) -> (r: &str)
    ensures
        r@ == match resolved {
            Some(p) => p@,
            None => RESOURCES_DIR@,
        },
{
    match resolved {
        Some(p) => p,
        None => RESOURCES_DIR,
    }
}

/// The first candidate directory that exists and holds every required file;
/// `complete[i]` tells whether candidate `i` does.
pub fn select_resource_dir(complete: &[bool]) -> (r: Option<usize>)
    ensures
        match r {
            Some(i) => i < complete@.len() && complete@[i as int]
                && forall|k: int| 0 <= k < i ==> !#[trigger] complete@[k],
            None => forall|k: int| 0 <= k < complete@.len() ==> !#[trigger] complete@[k],
        },
{
    let mut i: usize = 0;
    while i < complete.len()
        invariant
            0 <= i <= complete@.len(),
            forall|k: int| 0 <= k < i ==> !#[trigger] complete@[k],
        decreases complete@.len() - i,
    {
        if complete[i] {
            return Some(i);
        }
        i = i + 1;
    }
    None
}

/// The required files that are missing, in order; `present[i]` tells
/// whether the `i`-th required file exists.
pub fn missing_resource_files(present: &[bool]) -> (r: Vec<&'static str>)
    requires
        present@.len() == 7,
    ensures
        r@.len() <= 7,
        r@.len() == 0 <==> forall|k: int| 0 <= k < 7 ==> #[trigger] present@[k],
{
    let names = required_resource_files();
    let mut out: Vec<&'static str> = Vec::new();
    let mut i: usize = 0;
    while i < 7
        invariant
            0 <= i <= 7,
            names@.len() == 7,
            present@.len() == 7,
            out@.len() <= i,
            out@.len() == 0 <==> forall|k: int| 0 <= k < i ==> #[trigger] present@[k],
        decreases 7 - i,
    {
        if !present[i] {
            out.push(names[i]);
        }
        i = i + 1;
    }
    out
}

} // verus!
