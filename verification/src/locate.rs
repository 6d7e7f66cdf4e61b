//! Recognising the game among the running processes and open windows, and
//! the names under which its window and the overlay window are registered.

use vstd::prelude::*;
use crate::wide::{contains_units, encode_wide, find_units, utf16_units};

verus! {

/// File name of the game's executable, searched in a process's image path.
pub const GAME_IMAGE_NAME: &'static str = "PlantsVsZombies.exe";

/// Window class of the game's main window.
pub const GAME_WINDOW_CLASS: &'static str = "MainWindow";

/// Full title of the game's main window.
pub const GAME_WINDOW_NAME: &'static str = "植物大战僵尸中文版";

/// Part of the title that marks a window as the game's.
pub const GAME_TITLE_MARK: &'static str = "植物大战僵尸";

/// Window class registered for the overlay.
pub const OVERLAY_CLASS_NAME: &'static str = "Main_Class";

/// Title of the overlay window.
pub const OVERLAY_WINDOW_NAME: &'static str = "Main_Window";

/// The process identifiers worth opening: the non-zero entries, in order.
pub fn candidate_pids(pids: &[u32]) -> (r: Vec<u32>)
    ensures
        r@ == candidates(pids@),
{
    let mut out: Vec<u32> = Vec::new();
    let mut i: usize = 0;
    while i < pids.len()
        invariant
            i <= pids@.len(),
            out@ == pids@.take(i as int).filter(|pid: u32| pid != 0),
        decreases pids@.len() - i,
    {
        proof {
            reveal_with_fuel(Seq::filter, 1);
            assert(pids@.take(i + 1).drop_last() =~= pids@.take(i as int));
        }
        if pids[i] != 0 {
            out.push(pids[i]);
        }
        i = i + 1;
    }
    assert(pids@.take(pids@.len() as int) =~= pids@);
    out
}

/// The process identifiers worth opening, as a sequence.
pub open spec fn candidates(pids: Seq<u32>) -> Seq<u32> {
    pids.filter(|pid: u32| pid != 0)
}

/// The candidates are the non-zero identifiers: none of them is zero, and
/// every non-zero identifier of the list is among them.
pub proof fn law_candidates_are_the_nonzero_pids(pids: Seq<u32>)
    ensures
        forall|t: int| 0 <= t < candidates(pids).len() ==> #[trigger] candidates(pids)[t] != 0,
        forall|i: int|
            0 <= i < pids.len() && #[trigger] pids[i] != 0 ==> candidates(pids).contains(pids[i]),
{
    broadcast use vstd::seq_lib::group_filter_ensures;

    assert forall|i: int| 0 <= i < pids.len() && #[trigger] pids[i] != 0 implies candidates(
        pids,
    ).contains(pids[i]) by {
        pids.lemma_filter_contains(|pid: u32| pid != 0, i);
    }
}

/// Whether a process's image path, as the UTF-16 buffer that the system
/// filled, names the game's executable.  The whole buffer is searched,
/// terminator and unused units included.  Since every character of the name
/// is a single unit outside the surrogate range, finding its units in the
/// buffer is the same as finding the name in the text decoded from it.
pub fn is_game_image_name(image_name: &[u16]) -> (r: bool)
    ensures
        r == contains_units(image_name@, utf16_units(GAME_IMAGE_NAME@)),
{
    let needle: Vec<u16> = encode_wide(GAME_IMAGE_NAME);
    find_units(image_name, needle.as_slice())
}

/// Whether a window's title, as the UTF-16 buffer that the system filled,
/// marks the window as the game's.  As for the image path, the whole buffer
/// is searched for the units of the mark.
pub fn is_game_window_title(title: &[u16]) -> (r: bool)
    ensures
        r == contains_units(title@, utf16_units(GAME_TITLE_MARK@)),
{
    let needle: Vec<u16> = encode_wide(GAME_TITLE_MARK);
    find_units(title, needle.as_slice())
}

} // verus!
