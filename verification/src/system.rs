//! The decisions of the game's systems that need neither physics nor
//! graphics: how the menu reads the mouse and the keyboard.

use vstd::prelude::*;
use vstd::string::StringExecFns;

use crate::resource::{KeyCode, MouseButton};

verus! {

/// What a key does in the menu: a key of the menu's key map, by its
/// number, or a modifier.
#[derive(Clone, Copy, Debug, PartialEq, Eq, Structural)]
pub enum MenuKey {
    Key(usize),
    Ctrl,
    Shift,
    Alt,
    Super,
}

/// What the key named `name` does in the menu, if anything.
pub open spec fn menu_key(name: Seq<char>) -> Option<MenuKey> {
    if name == "Tab"@ {
        Some(MenuKey::Key(0))
    } else if name == "Left"@ {
        Some(MenuKey::Key(1))
    } else if name == "Right"@ {
        Some(MenuKey::Key(2))
    } else if name == "Up"@ {
        Some(MenuKey::Key(3))
    } else if name == "Down"@ {
        Some(MenuKey::Key(4))
    } else if name == "PageUp"@ {
        Some(MenuKey::Key(5))
    } else if name == "PageDown"@ {
        Some(MenuKey::Key(6))
    } else if name == "Home"@ {
        Some(MenuKey::Key(7))
    } else if name == "End"@ {
        Some(MenuKey::Key(8))
    } else if name == "Delete"@ {
        Some(MenuKey::Key(9))
    } else if name == "Back"@ {
        Some(MenuKey::Key(10))
    } else if name == "Return"@ {
        Some(MenuKey::Key(11))
    } else if name == "Escape"@ {
        Some(MenuKey::Key(12))
    } else if name == "A"@ {
        Some(MenuKey::Key(13))
    } else if name == "C"@ {
        Some(MenuKey::Key(14))
    } else if name == "V"@ {
        Some(MenuKey::Key(15))
    } else if name == "X"@ {
        Some(MenuKey::Key(16))
    } else if name == "Y"@ {
        Some(MenuKey::Key(17))
    } else if name == "Z"@ {
        Some(MenuKey::Key(18))
    } else if name == "LControl"@ {
        Some(MenuKey::Ctrl)
    } else if name == "RControl"@ {
        Some(MenuKey::Ctrl)
    } else if name == "LShift"@ {
        Some(MenuKey::Shift)
    } else if name == "RShift"@ {
        Some(MenuKey::Shift)
    } else if name == "LAlt"@ {
        Some(MenuKey::Alt)
    } else if name == "RAlt"@ {
        Some(MenuKey::Alt)
    } else if name == "LWin"@ {
        Some(MenuKey::Super)
    } else if name == "RWin"@ {
        Some(MenuKey::Super)
    } else {
        None
    }
}

/// The slot of the menu's mouse state that a button sets, if any: the
/// left, right and middle buttons, then the first two other buttons.
pub open spec fn mouse_slot(b: MouseButton) -> Option<int> {
    match b {
        MouseButton::Left => Some(0),
        MouseButton::Right => Some(1),
        MouseButton::Middle => Some(2),
        MouseButton::Other(n) => if n == 0 {
            Some(3)
        } else if n == 1 {
            Some(4)
        } else {
            None
        },
    }
}

/// `key` is named `lit`.
fn name_is(key: &KeyCode, lit: &str) -> (b: bool)
    ensures
        b == (key.name@ == lit@),
{
    let s = String::from_str(lit);
    key.name == s
}

/// What `key` does in the menu, if anything.
pub fn key_in_menu(key: &KeyCode) -> (k: Option<MenuKey>)
    ensures
        k == menu_key(key.name@),
{
    if name_is(key, "Tab") {
        Some(MenuKey::Key(0))
    } else if name_is(key, "Left") {
        Some(MenuKey::Key(1))
    } else if name_is(key, "Right") {
        Some(MenuKey::Key(2))
    } else if name_is(key, "Up") {
        Some(MenuKey::Key(3))
    } else if name_is(key, "Down") {
        Some(MenuKey::Key(4))
    } else if name_is(key, "PageUp") {
        Some(MenuKey::Key(5))
    } else if name_is(key, "PageDown") {
        Some(MenuKey::Key(6))
    } else if name_is(key, "Home") {
        Some(MenuKey::Key(7))
    } else if name_is(key, "End") {
        Some(MenuKey::Key(8))
    } else if name_is(key, "Delete") {
        Some(MenuKey::Key(9))
    } else if name_is(key, "Back") {
        Some(MenuKey::Key(10))
    } else if name_is(key, "Return") {
        Some(MenuKey::Key(11))
    } else if name_is(key, "Escape") {
        Some(MenuKey::Key(12))
    } else if name_is(key, "A") {
        Some(MenuKey::Key(13))
    } else if name_is(key, "C") {
        Some(MenuKey::Key(14))
    } else if name_is(key, "V") {
        Some(MenuKey::Key(15))
    } else if name_is(key, "X") {
        Some(MenuKey::Key(16))
    } else if name_is(key, "Y") {
        Some(MenuKey::Key(17))
    } else if name_is(key, "Z") {
        Some(MenuKey::Key(18))
    } else if name_is(key, "LControl") {
        Some(MenuKey::Ctrl)
    } else if name_is(key, "RControl") {
        Some(MenuKey::Ctrl)
    } else if name_is(key, "LShift") {
        Some(MenuKey::Shift)
    } else if name_is(key, "RShift") {
        Some(MenuKey::Shift)
    } else if name_is(key, "LAlt") {
        Some(MenuKey::Alt)
    } else if name_is(key, "RAlt") {
        Some(MenuKey::Alt)
    } else if name_is(key, "LWin") {
        Some(MenuKey::Super)
    } else if name_is(key, "RWin") {
        Some(MenuKey::Super)
    } else {
        None
    }
}

/// Feeds the mouse and keyboard events to the menu.
pub struct MenuControlSystem {
    mouse_down: [bool; 5],
}

impl MenuControlSystem {
    /// Which buttons are down, for the menu.
    pub closed spec fn buttons(&self) -> Seq<bool> {
        self.mouse_down@
    }

    /// The state has one slot per button the menu follows.
    pub proof fn lemma_buttons_len(&self)
        ensures
            self.buttons().len() == 5,
    {
    }

    /// No button is down.
    pub fn new() -> (s: Self)
        ensures
            s.buttons() == seq![false, false, false, false, false],
            s.buttons().len() == 5,
    {
        let s = MenuControlSystem { mouse_down: [false; 5] };
        assert(s.buttons() =~= seq![false, false, false, false, false]);
        s
    }

    /// A button was pressed or released: its slot follows it, the others
    /// stay. Gives the state to hand to the menu.
    pub fn mouse_input(&mut self, button: MouseButton, pressed: bool) -> (down: [bool; 5])
        ensures
            final(self).buttons() == (match mouse_slot(button) {
                Some(i) => old(self).buttons().update(i, pressed),
                None => old(self).buttons(),
            }),
            down@ == final(self).buttons(),
            old(self).buttons().len() == 5,
            final(self).buttons().len() == 5,
    {
        match button {
            MouseButton::Left => self.mouse_down[0] = pressed,
            MouseButton::Right => self.mouse_down[1] = pressed,
            MouseButton::Middle => self.mouse_down[2] = pressed,
            MouseButton::Other(0) => self.mouse_down[3] = pressed,
            MouseButton::Other(1) => self.mouse_down[4] = pressed,
            MouseButton::Other(_) => {},
        }
        self.mouse_down
    }
}

} // verus!
