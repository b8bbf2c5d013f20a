//! Keyboard and mouse state between frames: which keys went down this frame
//! and which are held.
use vstd::prelude::*;

verus! {

/// Number of slots in a key table.
pub const KEY_MAP_SIZE: usize = 32;

/// The keys and buttons the program reacts to.
#[allow(non_camel_case_types)]
#[derive(Debug, Clone, Copy, PartialEq, Eq, Structural)]
pub enum Key {
    W,
    A,
    S,
    D,
    R,
    N,
    F,
    I,
    LSHIFT,
    RSHIFT,
    SPACE,
    ESC,
    NumPLUS,
    NumMINUS,
    MouseLeftButton,
    MouseRightButton,
    MouseWheelUp,
    MouseWheelDown,
    NONE,
}

/// The slot of `k` in a key table.
pub open spec fn key_slot(k: Key) -> int {
    match k {
        Key::W => 0,
        Key::A => 1,
        Key::S => 2,
        Key::D => 3,
        Key::R => 4,
        Key::N => 5,
        Key::F => 6,
        Key::I => 7,
        Key::LSHIFT => 8,
        Key::RSHIFT => 9,
        Key::SPACE => 10,
        Key::ESC => 11,
        Key::NumPLUS => 12,
        Key::NumMINUS => 13,
        Key::MouseLeftButton => 14,
        Key::MouseRightButton => 15,
        Key::MouseWheelUp => 16,
        Key::MouseWheelDown => 17,
        Key::NONE => 18,
    }
}

impl Key {
    /// The slot of this key in a key table.
    pub fn slot(&self) -> (r: usize)
        ensures
            r == key_slot(*self),
            r < KEY_MAP_SIZE,
    {
        match self {
            Key::W => 0,
            Key::A => 1,
            Key::S => 2,
            Key::D => 3,
            Key::R => 4,
            Key::N => 5,
            Key::F => 6,
            Key::I => 7,
            Key::LSHIFT => 8,
            Key::RSHIFT => 9,
            Key::SPACE => 10,
            Key::ESC => 11,
            Key::NumPLUS => 12,
            Key::NumMINUS => 13,
            Key::MouseLeftButton => 14,
            Key::MouseRightButton => 15,
            Key::MouseWheelUp => 16,
            Key::MouseWheelDown => 17,
            Key::NONE => 18,
        }
    }
}

/// The input of one frame: keys pressed during it, keys held down, and how
/// far the mouse moved.
#[derive(Debug, Clone, Copy)]
pub struct InputMap {
    pub keys_pressed: [bool; 32],
    pub keys_hold: [bool; 32],
    pub mouse_x_dt: i32,
    pub mouse_y_dt: i32,
}

impl InputMap {
    /// No key pressed or held, no motion.
    pub fn new() -> (r: InputMap)
        ensures
            forall|k: Key| !#[trigger] r.spec_pressed(k) && !r.spec_held(k),
            r.mouse_x_dt == 0,
            r.mouse_y_dt == 0,
    {
        let r = InputMap { keys_pressed: [false; 32], keys_hold: [false; 32], mouse_x_dt: 0, mouse_y_dt: 0 };
        proof {
            assert forall|k: Key| !#[trigger] r.spec_pressed(k) && !r.spec_held(k) by {
                let i = key_slot(k);
                assert(0 <= i < 32);
            }
        }
        r
    }

    pub open spec fn spec_pressed(&self, k: Key) -> bool {
        self.keys_pressed@[key_slot(k)]
    }

    pub open spec fn spec_held(&self, k: Key) -> bool {
        self.keys_hold@[key_slot(k)]
    }

    /// Whether `k` went down during this frame.
    #[verifier::when_used_as_spec(spec_pressed)]
    pub fn pressed(&self, k: Key) -> (r: bool)
        ensures
            r == self.spec_pressed(k),
    {
        self.keys_pressed[k.slot()]
    }

    /// Whether `k` is held down.
    #[verifier::when_used_as_spec(spec_held)]
    pub fn held(&self, k: Key) -> (r: bool)
        ensures
            r == self.spec_held(k),
    {
        self.keys_hold[k.slot()]
    }

    /// Starts a new frame: no key has been pressed during it yet.
    pub fn begin_frame(&mut self)
        ensures
            forall|k: Key| !#[trigger] final(self).spec_pressed(k),
            final(self).keys_hold == old(self).keys_hold,
            final(self).mouse_x_dt == old(self).mouse_x_dt,
            final(self).mouse_y_dt == old(self).mouse_y_dt,
    {
        self.keys_pressed = [false; 32];
        proof {
            assert forall|k: Key| !#[trigger] self.spec_pressed(k) by {
                assert(0 <= key_slot(k) < 32);
            }
        }
    }

    /// `k` went down: it counts as pressed unless it was already held, as
    /// when the keyboard repeats it.
    pub fn key_down(&mut self, k: Key)
        ensures
            final(self).spec_pressed(k) == !old(self).spec_held(k),
            final(self).spec_held(k),
            forall|k2: Key|
                key_slot(k2) != key_slot(k) ==> #[trigger] final(self).spec_pressed(k2)
                    == old(self).spec_pressed(k2) && final(self).spec_held(k2) == old(self).spec_held(k2),
            final(self).mouse_x_dt == old(self).mouse_x_dt,
            final(self).mouse_y_dt == old(self).mouse_y_dt,
    {
        let i = k.slot();
        let was_held = self.keys_hold[i];
        self.keys_pressed.set(i, !was_held);
        self.keys_hold.set(i, true);
    }

    /// `k` went up.
    pub fn key_up(&mut self, k: Key)
        ensures
            !final(self).spec_held(k),
            final(self).keys_pressed == old(self).keys_pressed,
            forall|k2: Key|
                key_slot(k2) != key_slot(k) ==> #[trigger] final(self).spec_held(k2) == old(self).spec_held(k2),
            final(self).mouse_x_dt == old(self).mouse_x_dt,
            final(self).mouse_y_dt == old(self).mouse_y_dt,
    {
        let i = k.slot();
        self.keys_hold.set(i, false);
    }

    /// The mouse wheel turned by `y` notches: up counts as pressing
    /// `MouseWheelUp`, down as pressing `MouseWheelDown`, and no turn
    /// releases both.
    pub fn mouse_wheel(&mut self, y: i32)
        ensures
            y > 0 ==> final(self).spec_pressed(Key::MouseWheelUp) && final(self).spec_pressed(Key::MouseWheelDown) == old(self).spec_pressed(Key::MouseWheelDown),
            y < 0 ==> final(self).spec_pressed(Key::MouseWheelDown) && final(self).spec_pressed(Key::MouseWheelUp) == old(self).spec_pressed(Key::MouseWheelUp),
            y == 0 ==> !final(self).spec_pressed(Key::MouseWheelUp) && !final(self).spec_pressed(Key::MouseWheelDown),
            forall|k2: Key|
                k2 != Key::MouseWheelUp && k2 != Key::MouseWheelDown ==> #[trigger] final(self).spec_pressed(k2) == old(self).spec_pressed(k2),
            final(self).keys_hold == old(self).keys_hold,
            final(self).mouse_x_dt == old(self).mouse_x_dt,
            final(self).mouse_y_dt == old(self).mouse_y_dt,
    {
        let up = Key::MouseWheelUp.slot();
        let down = Key::MouseWheelDown.slot();
        if y > 0 {
            self.keys_pressed.set(up, true);
        } else if y < 0 {
            self.keys_pressed.set(down, true);
        } else {
            self.keys_pressed.set(up, false);
            self.keys_pressed.set(down, false);
        }
    }

    /// The mouse moved by `(dx, dy)` since the last frame.
    pub fn set_mouse_motion(&mut self, dx: i32, dy: i32)
        ensures
            final(self).keys_pressed == old(self).keys_pressed,
            final(self).keys_hold == old(self).keys_hold,
            final(self).mouse_x_dt == dx,
            final(self).mouse_y_dt == dy,
    {
        self.mouse_x_dt = dx;
        self.mouse_y_dt = dy;
    }
}

} // verus!
