use vstd::prelude::*;
use std::collections::HashSet;

verus! {

broadcast use vstd::std_specs::hash::group_hash_axioms;

/// A physical keyboard key, named by its numeric key code.
#[derive(Clone, Copy, Debug, PartialEq, Eq, Structural, Hash)]
pub struct Key(pub u32);

/// Mouse buttons.
#[derive(Clone, Copy, Debug, PartialEq, Eq, Structural, Hash)]
pub enum MouseButton {
    Left,
    Right,
    Middle,
}

/// The number under which a mouse button is recorded.
pub open spec fn button_code(b: MouseButton) -> u32 {
    match b {
        MouseButton::Left => 0,
        MouseButton::Right => 1,
        MouseButton::Middle => 2,
    }
}

impl MouseButton {
    /// The number under which this button is recorded.
    pub fn code(&self) -> (c: u32)
        ensures
            c == button_code(*self),
    {
        match self {
            MouseButton::Left => 0,
            MouseButton::Right => 1,
            MouseButton::Middle => 2,
        }
    }
}

/// Keyboard and mouse-button state: what is held, and what went down or up
/// during the current frame.
pub struct Input {
    keys_held: HashSet<u32>,
    keys_pressed: HashSet<u32>,
    keys_released: HashSet<u32>,
    mouse_held: HashSet<u32>,
    mouse_pressed: HashSet<u32>,
    mouse_released: HashSet<u32>,
}

/// The abstract input state: six sets of key and button codes.
pub struct InputView {
    pub keys_held: Set<u32>,
    pub keys_pressed: Set<u32>,
    pub keys_released: Set<u32>,
    pub mouse_held: Set<u32>,
    pub mouse_pressed: Set<u32>,
    pub mouse_released: Set<u32>,
}

impl View for Input {
    type V = InputView;

    closed spec fn view(&self) -> InputView {
        InputView {
            keys_held: self.keys_held@,
            keys_pressed: self.keys_pressed@,
            keys_released: self.keys_released@,
            mouse_held: self.mouse_held@,
            mouse_pressed: self.mouse_pressed@,
            mouse_released: self.mouse_released@,
        }
    }
}

/// The direction of an axis given by two keys: -1, 0 or +1.
pub open spec fn axis_value(negative_down: bool, positive_down: bool) -> int {
    (if negative_down { -1int } else { 0int }) + (if positive_down { 1int } else { 0int })
}

impl Input {
    /// Nothing held, nothing pressed or released.
    pub fn new() -> (i: Self)
        ensures
            i@.keys_held == Set::<u32>::empty(),
            i@.keys_pressed == Set::<u32>::empty(),
            i@.keys_released == Set::<u32>::empty(),
            i@.mouse_held == Set::<u32>::empty(),
            i@.mouse_pressed == Set::<u32>::empty(),
            i@.mouse_released == Set::<u32>::empty(),
    {
        Input {
            keys_held: HashSet::new(),
            keys_pressed: HashSet::new(),
            keys_released: HashSet::new(),
            mouse_held: HashSet::new(),
            mouse_pressed: HashSet::new(),
            mouse_released: HashSet::new(),
        }
    }

    /// The key is held down.
    pub fn is_key_down(&self, key: Key) -> (b: bool)
        ensures
            b == self@.keys_held.contains(key.0),
    {
        self.keys_held.contains(&key.0)
    }

    /// The key went down during this frame.
    pub fn is_key_pressed(&self, key: Key) -> (b: bool)
        ensures
            b == self@.keys_pressed.contains(key.0),
    {
        self.keys_pressed.contains(&key.0)
    }

    /// The key went up during this frame.
    pub fn is_key_released(&self, key: Key) -> (b: bool)
        ensures
            b == self@.keys_released.contains(key.0),
    {
        self.keys_released.contains(&key.0)
    }

    /// The button is held down.
    pub fn is_mouse_down(&self, btn: MouseButton) -> (b: bool)
        ensures
            b == self@.mouse_held.contains(button_code(btn)),
    {
        self.mouse_held.contains(&btn.code())
    }

    /// The button went down during this frame.
    pub fn is_mouse_pressed(&self, btn: MouseButton) -> (b: bool)
        ensures
            b == self@.mouse_pressed.contains(button_code(btn)),
    {
        self.mouse_pressed.contains(&btn.code())
    }

    /// The button went up during this frame.
    pub fn is_mouse_released(&self, btn: MouseButton) -> (b: bool)
        ensures
            b == self@.mouse_released.contains(button_code(btn)),
    {
        self.mouse_released.contains(&btn.code())
    }

    /// -1 when only `negative` is held, +1 when only `positive` is held, 0 otherwise.
    pub fn axis(&self, negative: Key, positive: Key) -> (a: i32)
        ensures
            a == axis_value(self@.keys_held.contains(negative.0), self@.keys_held.contains(positive.0)),
    {
        let n: i32 = if self.is_key_down(negative) { -1 } else { 0 };
        let p: i32 = if self.is_key_down(positive) { 1 } else { 0 };
        n + p
    }

    /// Forgets what went down or up during the frame; held keys and buttons stay held.
    pub fn flush(&mut self)
        ensures
            final(self)@.keys_held == old(self)@.keys_held,
            final(self)@.keys_pressed == Set::<u32>::empty(),
            final(self)@.keys_released == Set::<u32>::empty(),
            final(self)@.mouse_held == old(self)@.mouse_held,
            final(self)@.mouse_pressed == Set::<u32>::empty(),
            final(self)@.mouse_released == Set::<u32>::empty(),
    {
        self.keys_pressed.clear();
        self.keys_released.clear();
        self.mouse_pressed.clear();
        self.mouse_released.clear();
    }

    /// A key went down. It counts as pressed only if it was not already held
    /// (key repeat does not press it again).
    pub fn on_key_down(&mut self, key: Key)
        ensures
            final(self)@.keys_held == old(self)@.keys_held.insert(key.0),
            final(self)@.keys_pressed == if old(self)@.keys_held.contains(key.0) {
                old(self)@.keys_pressed
            } else {
                old(self)@.keys_pressed.insert(key.0)
            },
            final(self)@.keys_released == old(self)@.keys_released,
            final(self)@.mouse_held == old(self)@.mouse_held,
            final(self)@.mouse_pressed == old(self)@.mouse_pressed,
            final(self)@.mouse_released == old(self)@.mouse_released,
    {
        if !self.keys_held.contains(&key.0) {
            self.keys_pressed.insert(key.0);
        }
        self.keys_held.insert(key.0);
    }

    /// A key went up.
    pub fn on_key_up(&mut self, key: Key)
        ensures
            final(self)@.keys_held == old(self)@.keys_held.remove(key.0),
            final(self)@.keys_pressed == old(self)@.keys_pressed,
            final(self)@.keys_released == old(self)@.keys_released.insert(key.0),
            final(self)@.mouse_held == old(self)@.mouse_held,
            final(self)@.mouse_pressed == old(self)@.mouse_pressed,
            final(self)@.mouse_released == old(self)@.mouse_released,
    {
        self.keys_held.remove(&key.0);
        self.keys_released.insert(key.0);
    }

    /// A mouse button went down. It counts as pressed only if it was not already held.
    pub fn on_mouse_down(&mut self, btn: MouseButton)
        ensures
            final(self)@.mouse_held == old(self)@.mouse_held.insert(button_code(btn)),
            final(self)@.mouse_pressed == if old(self)@.mouse_held.contains(button_code(btn)) {
                old(self)@.mouse_pressed
            } else {
                old(self)@.mouse_pressed.insert(button_code(btn))
            },
            final(self)@.mouse_released == old(self)@.mouse_released,
            final(self)@.keys_held == old(self)@.keys_held,
            final(self)@.keys_pressed == old(self)@.keys_pressed,
            final(self)@.keys_released == old(self)@.keys_released,
    {
        let c = btn.code();
        if !self.mouse_held.contains(&c) {
            self.mouse_pressed.insert(c);
        }
        self.mouse_held.insert(c);
    }

    /// A mouse button went up.
    pub fn on_mouse_up(&mut self, btn: MouseButton)
        ensures
            final(self)@.mouse_held == old(self)@.mouse_held.remove(button_code(btn)),
            final(self)@.mouse_pressed == old(self)@.mouse_pressed,
            final(self)@.mouse_released == old(self)@.mouse_released.insert(button_code(btn)),
            final(self)@.keys_held == old(self)@.keys_held,
            final(self)@.keys_pressed == old(self)@.keys_pressed,
            final(self)@.keys_released == old(self)@.keys_released,
    {
        let c = btn.code();
        self.mouse_held.remove(&c);
        self.mouse_released.insert(c);
    }
}

impl Default for Input {
    fn default() -> (i: Self)
        ensures
            i@.keys_held == Set::<u32>::empty(),
            i@.keys_pressed == Set::<u32>::empty(),
            i@.keys_released == Set::<u32>::empty(),
            i@.mouse_held == Set::<u32>::empty(),
            i@.mouse_pressed == Set::<u32>::empty(),
            i@.mouse_released == Set::<u32>::empty(),
    {
        Self::new()
    }
}

// ─── Laws ─────────────────────────────────────────────────────────────────────

/// A key held across a frame is pressed only once: after it goes down, the frame ends
/// (`flush`) and the key reports down again (key repeat), it is held but not pressed.
pub proof fn law_held_key_not_pressed_again(i0: InputView, i1: InputView, i2: InputView, i3: InputView, k: u32)
    requires
        i1.keys_held == i0.keys_held.insert(k),
        i2.keys_held == i1.keys_held,
        i2.keys_pressed == Set::<u32>::empty(),
        i3.keys_held == i2.keys_held.insert(k),
        i3.keys_pressed == (if i2.keys_held.contains(k) { i2.keys_pressed } else { i2.keys_pressed.insert(k) }),
    ensures
        i3.keys_held.contains(k),
        !i3.keys_pressed.contains(k),
{
}

/// A key that is released and then goes down again counts as pressed again.
pub proof fn law_release_then_press(i0: InputView, i1: InputView, i2: InputView, k: u32)
    requires
        i1.keys_held == i0.keys_held.remove(k),
        i2.keys_held == i1.keys_held.insert(k),
        i2.keys_pressed == (if i1.keys_held.contains(k) { i1.keys_pressed } else { i1.keys_pressed.insert(k) }),
    ensures
        i2.keys_pressed.contains(k),
        i2.keys_held.contains(k),
{
}

/// The axis reads -1, 0 or +1, and 0 when both or neither key is held.
pub proof fn law_axis_range(negative_down: bool, positive_down: bool)
    ensures
        -1 <= axis_value(negative_down, positive_down) <= 1,
        negative_down == positive_down ==> axis_value(negative_down, positive_down) == 0,
        negative_down && !positive_down ==> axis_value(negative_down, positive_down) == -1,
        !negative_down && positive_down ==> axis_value(negative_down, positive_down) == 1,
{
}

/// Different mouse buttons are recorded under different numbers.
pub proof fn law_button_codes_distinct(a: MouseButton, b: MouseButton)
    ensures
        a != b ==> button_code(a) != button_code(b),
{
}

/// Pressing one mouse button changes nothing about any other button: the state that
/// `on_mouse_down(b)` leaves reports another button down, pressed or released exactly
/// when it did before.
pub proof fn law_press_leaves_other_buttons(i0: InputView, i1: InputView, b: MouseButton, other: MouseButton)
    requires
        other != b,
        i1.mouse_held == i0.mouse_held.insert(button_code(b)),
        i1.mouse_pressed == if i0.mouse_held.contains(button_code(b)) {
            i0.mouse_pressed
        } else {
            i0.mouse_pressed.insert(button_code(b))
        },
        i1.mouse_released == i0.mouse_released,
    ensures
        i1.mouse_held.contains(button_code(other)) == i0.mouse_held.contains(button_code(other)),
        i1.mouse_pressed.contains(button_code(other)) == i0.mouse_pressed.contains(button_code(other)),
        i1.mouse_released.contains(button_code(other)) == i0.mouse_released.contains(button_code(other)),
        i1.mouse_held.contains(button_code(b)),
{
    law_button_codes_distinct(b, other);
}

} // verus!
