//! The global-hotkey binding plan: after every registry mutation all local
//! hotkeys are rebound so that the shortcut at list position `i` hangs on a
//! key combination derived from `i` alone. The position-to-hotkey rule is a
//! pure function here; registering with the OS is the caller's.

use vstd::prelude::*;

use crate::model::{clone_string_vec, Shortcut};

verus! {

/// A local hotkey: Ctrl plus a digit, with Shift for the second ten.
#[derive(Clone, Copy, PartialEq, Eq, Structural, Debug)]
pub struct HotkeyDescriptor {
    pub shift: bool,
    pub digit: u8,
}

/// The rule: positions 0 through 9 bind to Ctrl+1 .. Ctrl+9, Ctrl+0;
/// positions 10 through 19 to Ctrl+Shift+1 .. Ctrl+Shift+9, Ctrl+Shift+0;
/// later positions have no local hotkey.
pub open spec fn spec_hotkey_for_position(i: int) -> Option<HotkeyDescriptor> {
    if 0 <= i < 10 {
        Some(HotkeyDescriptor { shift: false, digit: (((i + 1) % 10) as u8) })
    } else if 10 <= i < 20 {
        Some(HotkeyDescriptor { shift: true, digit: (((i - 9) % 10) as u8) })
    } else {
        None
    }
}

pub fn hotkey_for_position(i: usize) -> (r: Option<HotkeyDescriptor>)
    ensures
        r == spec_hotkey_for_position(i as int),
{
    if i < 10 {
        Some(HotkeyDescriptor { shift: false, digit: (((i + 1) % 10) as u8) })
    } else if i < 20 {
        Some(HotkeyDescriptor { shift: true, digit: (((i - 9) % 10) as u8) })
    } else {
        None
    }
}

/// The bindings to register after a mutation: each of the first twenty
/// entries paired with its position's hotkey, in list order.
pub fn hotkey_bindings(shortcuts: &Vec<Shortcut>) -> (r: Vec<(HotkeyDescriptor, Vec<String>)>)
    ensures
        r@.len() == if shortcuts.deep_view().len() < 20 {
            shortcuts.deep_view().len()
        } else {
            20
        },
        forall|j: int|
            0 <= j < r@.len() ==> Some((#[trigger] r@[j]).0) == spec_hotkey_for_position(j),
        forall|j: int|
            0 <= j < r@.len() ==> (#[trigger] r@[j]).1.deep_view()
                == shortcuts.deep_view()[j].sequence,
{
    let mut r: Vec<(HotkeyDescriptor, Vec<String>)> = Vec::new();
    let n = if shortcuts.len() < 20 {
        shortcuts.len()
    } else {
        20
    };
    let mut i: usize = 0;
    while i < n
        invariant
            n <= shortcuts@.len(),
            n == if shortcuts@.len() < 20 {
                shortcuts@.len() as int
            } else {
                20
            },
            i <= n,
            r@.len() == i,
            forall|j: int|
                0 <= j < i ==> Some((#[trigger] r@[j]).0) == spec_hotkey_for_position(j),
            forall|j: int|
                0 <= j < i ==> (#[trigger] r@[j]).1.deep_view()
                    == shortcuts.deep_view()[j].sequence,
        decreases n - i,
    {
        let hk = match hotkey_for_position(i) {
            Some(h) => h,
            None => {
                proof {
                    assert(false);
                }
                HotkeyDescriptor { shift: false, digit: 0 }
            },
        };
        r.push((hk, clone_string_vec(&shortcuts[i].sequence)));
        i += 1;
    }
    r
}

} // verus!
