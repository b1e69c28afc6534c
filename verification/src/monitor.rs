//! Decisions of the background monitor and of the menu window: when to open a
//! window and when to close the menu.
use vstd::prelude::*;

verus! {

/// The keys the monitor tells apart; every other key is `Other`.
#[derive(Debug, Clone, Copy, PartialEq, Eq, Structural)]
pub enum Key {
    Meta,
    LShift,
    V,
    Other,
}

fn holds(keys: &[Key], k: Key) -> (r: bool)
    ensures
        r == keys@.contains(k),
{
    for i in 0..keys.len()
        invariant
            forall|j: int| 0 <= j < i ==> keys@[j] != k,
    {
        if keys[i] == k {
            return true;
        }
    }
    false
}

/// The shortcut that opens the menu: Meta, left Shift and V held together.
pub open spec fn shortcut_held(keys: Seq<Key>) -> bool {
    keys.contains(Key::Meta) && keys.contains(Key::LShift) && keys.contains(Key::V)
}

/// The menu opens only when Meta, left Shift and V are all among the held keys: a set
/// of keys that lacks any one of them never opens it, and one that has all three does,
/// whatever else is held.
pub proof fn law_shortcut_needs_all_three(keys: Seq<Key>)
    ensures
        shortcut_held(keys) ==> keys.contains(Key::Meta),
        shortcut_held(keys) ==> keys.contains(Key::LShift),
        shortcut_held(keys) ==> keys.contains(Key::V),
        keys.contains(Key::Meta) && keys.contains(Key::LShift) && keys.contains(Key::V)
            ==> shortcut_held(keys),
{
}

pub fn open_shortcut_held(keys: &[Key]) -> (r: bool)
    ensures
        r == shortcut_held(keys@),
{
    holds(keys, Key::Meta) && holds(keys, Key::LShift) && holds(keys, Key::V)
}

/// What the monitor does on one poll.
#[derive(Debug, Clone, Copy, PartialEq, Eq, Structural)]
pub struct TickActions {
    /// Open the window that edits the saved entries.
    pub open_edit: bool,
    /// Open the menu.
    pub open_menu: bool,
}

/// One poll of the monitor: the edit window opens when it was asked for, the menu
/// when the shortcut is held; both can happen on the same poll, the edit window first.
pub fn monitor_tick(edit_requested: bool, keys: &[Key]) -> (r: TickActions)
    ensures
        r.open_edit == edit_requested,
        r.open_menu == shortcut_held(keys@),
{
    TickActions { open_edit: edit_requested, open_menu: open_shortcut_held(keys) }
}

/// The menu closes on a press of mouse button 1 made outside of it.
pub fn dismiss_on_click(buttons: &[bool], pointer_over_area: bool, pointer_in_ui: bool) -> (r:
    bool)
    requires
        buttons.len() > 1,
    ensures
        r == (buttons@[1] && !pointer_over_area && !pointer_in_ui),
{
    buttons[1] && !pointer_over_area && !pointer_in_ui
}

} // verus!
