//! Keyboard and mouse buttons, with no window system behind them.
//!
//! The app fills this in and the camera reads it. A key is held, or it was
//! pressed or released since the last frame: the edges compare with the
//! previous frame, so each fires once. Gates never see input.

use vstd::prelude::*;

verus! {

/// The keys the engine reacts to.
#[derive(Clone, Copy, Debug, PartialEq, Eq, Hash)]
pub enum Key {
    W,
    A,
    S,
    D,
    Q,
    E,
    Space,
    Shift,
    Control,
    Escape,
    Up,
    Down,
    Left,
    Right,
    Tab,
    F1,
    F2,
    F3,
}

pub const KEY_COUNT: usize = 18;

pub const BUTTON_COUNT: usize = 3;

/// The place of a key in the key table, in declaration order.
pub open spec fn key_slot(k: Key) -> int {
    match k {
        Key::W => 0,
        Key::A => 1,
        Key::S => 2,
        Key::D => 3,
        Key::Q => 4,
        Key::E => 5,
        Key::Space => 6,
        Key::Shift => 7,
        Key::Control => 8,
        Key::Escape => 9,
        Key::Up => 10,
        Key::Down => 11,
        Key::Left => 12,
        Key::Right => 13,
        Key::Tab => 14,
        Key::F1 => 15,
        Key::F2 => 16,
        Key::F3 => 17,
    }
}

impl Key {
    pub const COUNT: usize = 18;

    pub fn slot(self) -> (i: usize)
        ensures
            i == key_slot(self),
            i < KEY_COUNT,
    {
        match self {
            Key::W => 0,
            Key::A => 1,
            Key::S => 2,
            Key::D => 3,
            Key::Q => 4,
            Key::E => 5,
            Key::Space => 6,
            Key::Shift => 7,
            Key::Control => 8,
            Key::Escape => 9,
            Key::Up => 10,
            Key::Down => 11,
            Key::Left => 12,
            Key::Right => 13,
            Key::Tab => 14,
            Key::F1 => 15,
            Key::F2 => 16,
            Key::F3 => 17,
        }
    }
}

#[derive(Clone, Copy, Debug, PartialEq, Eq, Hash)]
pub enum MouseButton {
    Left,
    Right,
    Middle,
}

pub open spec fn button_slot(b: MouseButton) -> int {
    match b {
        MouseButton::Left => 0,
        MouseButton::Right => 1,
        MouseButton::Middle => 2,
    }
}

impl MouseButton {
    pub const COUNT: usize = 3;

    pub fn slot(self) -> (i: usize)
        ensures
            i == button_slot(self),
            i < BUTTON_COUNT,
    {
        match self {
            MouseButton::Left => 0,
            MouseButton::Right => 1,
            MouseButton::Middle => 2,
        }
    }
}

/// Held state now and at the end of the previous frame, key by key and
/// button by button.
pub struct InputModel {
    pub keys: Seq<bool>,
    pub keys_prev: Seq<bool>,
    pub buttons: Seq<bool>,
    pub buttons_prev: Seq<bool>,
}

pub open spec fn input_wf(m: InputModel) -> bool {
    &&& m.keys.len() == KEY_COUNT
    &&& m.keys_prev.len() == KEY_COUNT
    &&& m.buttons.len() == BUTTON_COUNT
    &&& m.buttons_prev.len() == BUTTON_COUNT
}

pub open spec fn spec_held(m: InputModel, k: Key) -> bool {
    m.keys[key_slot(k)]
}

/// Down now, up at the end of the previous frame.
pub open spec fn spec_pressed(m: InputModel, k: Key) -> bool {
    m.keys[key_slot(k)] && !m.keys_prev[key_slot(k)]
}

/// Up now, down at the end of the previous frame.
pub open spec fn spec_released(m: InputModel, k: Key) -> bool {
    !m.keys[key_slot(k)] && m.keys_prev[key_slot(k)]
}

pub open spec fn spec_button_held(m: InputModel, b: MouseButton) -> bool {
    m.buttons[button_slot(b)]
}

pub open spec fn spec_button_pressed(m: InputModel, b: MouseButton) -> bool {
    m.buttons[button_slot(b)] && !m.buttons_prev[button_slot(b)]
}

/// `+1` while `pos` alone is held, `-1` while `neg` alone is, else `0`.
pub open spec fn spec_axis(m: InputModel, neg: Key, pos: Key) -> int {
    (if spec_held(m, pos) { 1int } else { 0int }) - (if spec_held(m, neg) { 1int } else { 0int })
}

/// Nothing held, now or before.
pub open spec fn input_idle() -> InputModel {
    InputModel {
        keys: Seq::new(KEY_COUNT as nat, |i: int| false),
        keys_prev: Seq::new(KEY_COUNT as nat, |i: int| false),
        buttons: Seq::new(BUTTON_COUNT as nat, |i: int| false),
        buttons_prev: Seq::new(BUTTON_COUNT as nat, |i: int| false),
    }
}

/// `k` set down or up.
pub open spec fn key_set(m: InputModel, k: Key, down: bool) -> InputModel {
    InputModel { keys: m.keys.update(key_slot(k), down), ..m }
}

/// The edge state rolled forward: what is held now becomes the previous frame.
pub open spec fn frame_rolled(m: InputModel) -> InputModel {
    InputModel { keys_prev: m.keys, buttons_prev: m.buttons, ..m }
}

/// Edge- and level-triggered input for one frame. Call [`Input::end_frame`]
/// once the frame is done, or the edges never clear.
#[derive(Clone, Debug)]
pub struct Input {
    keys: [bool; KEY_COUNT],
    keys_prev: [bool; KEY_COUNT],
    buttons: [bool; BUTTON_COUNT],
    buttons_prev: [bool; BUTTON_COUNT],
}

impl View for Input {
    type V = InputModel;

    closed spec fn view(&self) -> InputModel {
        InputModel {
            keys: self.keys@,
            keys_prev: self.keys_prev@,
            buttons: self.buttons@,
            buttons_prev: self.buttons_prev@,
        }
    }
}

impl Default for Input {
    fn default() -> (i: Self)
        ensures
            i@ == input_idle(),
            input_wf(i@),
    {
        Input::new()
    }
}

impl Input {
    pub fn new() -> (i: Self)
        ensures
            i@ == input_idle(),
            input_wf(i@),
    {
        let i = Input {
            keys: [false; KEY_COUNT],
            keys_prev: [false; KEY_COUNT],
            buttons: [false; BUTTON_COUNT],
            buttons_prev: [false; BUTTON_COUNT],
        };
        assert(i@.keys =~= input_idle().keys);
        assert(i@.keys_prev =~= input_idle().keys_prev);
        assert(i@.buttons =~= input_idle().buttons);
        assert(i@.buttons_prev =~= input_idle().buttons_prev);
        i
    }

    pub fn set_key(&mut self, key: Key, down: bool)
        requires
            input_wf(old(self)@),
        ensures
            input_wf(final(self)@),
            final(self)@ == key_set(old(self)@, key, down),
    {
        let i = key.slot();
        self.keys[i] = down;
    }

    pub fn set_button(&mut self, button: MouseButton, down: bool)
        requires
            input_wf(old(self)@),
        ensures
            input_wf(final(self)@),
            final(self)@ == (InputModel {
                buttons: old(self)@.buttons.update(button_slot(button), down),
                ..old(self)@
            }),
    {
        let i = button.slot();
        self.buttons[i] = down;
    }

    pub fn held(&self, key: Key) -> (b: bool)
        requires
            input_wf(self@),
        ensures
            b == spec_held(self@, key),
    {
        self.keys[key.slot()]
    }

    pub fn pressed(&self, key: Key) -> (b: bool)
        requires
            input_wf(self@),
        ensures
            b == spec_pressed(self@, key),
    {
        let i = key.slot();
        self.keys[i] && !self.keys_prev[i]
    }

    pub fn released(&self, key: Key) -> (b: bool)
        requires
            input_wf(self@),
        ensures
            b == spec_released(self@, key),
    {
        let i = key.slot();
        !self.keys[i] && self.keys_prev[i]
    }

    pub fn button_held(&self, button: MouseButton) -> (b: bool)
        requires
            input_wf(self@),
        ensures
            b == spec_button_held(self@, button),
    {
        self.buttons[button.slot()]
    }

    pub fn button_pressed(&self, button: MouseButton) -> (b: bool)
        requires
            input_wf(self@),
        ensures
            b == spec_button_pressed(self@, button),
    {
        let i = button.slot();
        self.buttons[i] && !self.buttons_prev[i]
    }

    /// `+1` while `pos` is held, `-1` while `neg` is, `0` for neither or both.
    pub fn axis(&self, neg: Key, pos: Key) -> (a: i32)
        requires
            input_wf(self@),
        ensures
            a == spec_axis(self@, neg, pos),
    {
        let p: i32 = if self.held(pos) { 1 } else { 0 };
        let n: i32 = if self.held(neg) { 1 } else { 0 };
        p - n
    }

    /// Rolls the edge state forward.
    pub fn end_frame(&mut self)
        requires
            input_wf(old(self)@),
        ensures
            input_wf(final(self)@),
            final(self)@ == frame_rolled(old(self)@),
    {
        self.keys_prev = self.keys;
        self.buttons_prev = self.buttons;
    }

    /// Drops everything, what is held too (the window lost focus and will
    /// not report the releases).
    pub fn clear(&mut self)
        ensures
            input_wf(final(self)@),
            final(self)@ == input_idle(),
    {
        *self = Input::new();
    }
}

/// No edge survives the frame: after `end_frame` no key is pressed or
/// released, and what was held is still held.
pub proof fn edges_fire_once(m: InputModel, k: Key)
    requires
        input_wf(m),
    ensures
        !spec_pressed(frame_rolled(m), k),
        !spec_released(frame_rolled(m), k),
        spec_held(frame_rolled(m), k) == spec_held(m, k),
{
}

/// Pressing a key that was up is a press edge; letting go of a held key is a
/// release edge; neither touches another key.
pub proof fn setting_a_key_makes_its_edge(m: InputModel, k: Key, other: Key)
    requires
        input_wf(m),
        !m.keys_prev[key_slot(k)],
        key_slot(other) != key_slot(k),
    ensures
        spec_pressed(key_set(m, k, true), k),
        spec_held(key_set(m, k, true), other) == spec_held(m, other),
        spec_released(key_set(frame_rolled(key_set(m, k, true)), k, false), k),
{
}

/// After `clear` nothing is held and nothing is an edge: not even a release.
pub proof fn clear_is_not_a_release(k: Key, b: MouseButton)
    ensures
        !spec_held(input_idle(), k),
        !spec_pressed(input_idle(), k),
        !spec_released(input_idle(), k),
        !spec_button_held(input_idle(), b),
{
}

/// Both keys of an axis held is neutral, not jitter.
pub proof fn axis_cancels_when_both_are_held(m: InputModel, neg: Key, pos: Key)
    requires
        input_wf(m),
        spec_held(m, neg),
        spec_held(m, pos),
    ensures
        spec_axis(m, neg, pos) == 0,
{
}

} // verus!
