use harpia::engine::{
    engine_vk_version, Error, FrameNumber, BINDLESS_HEAP_SIZE, BINDLESS_NULL_SLOT, ENGINE_NAME,
};
use harpia::input::{Input, Key, MouseButton};

#[test]
fn null_slot_is_zero() {
    assert_eq!(BINDLESS_NULL_SLOT, 0);
    assert_eq!(BINDLESS_HEAP_SIZE, 8192);
}

#[test]
fn the_engine_version_packs_like_vulkan() {
    assert_eq!(engine_vk_version(), 1 << 12);
    assert_eq!(ENGINE_NAME, "harpia");
    assert!(FrameNumber(1) < FrameNumber(2));
    match Error::msg("boom") {
        Error::Message(m) => assert_eq!(m, "boom"),
    }
}

#[test]
fn edges_fire_once() {
    let mut i = Input::new();
    i.set_key(Key::W, true);
    assert!(i.pressed(Key::W) && i.held(Key::W));
    i.end_frame();
    assert!(!i.pressed(Key::W), "pressed must not repeat while held");
    assert!(i.held(Key::W));
    i.set_key(Key::W, false);
    assert!(i.released(Key::W));
    i.end_frame();
    assert!(!i.released(Key::W));
}

#[test]
fn axis_cancels_when_both_are_held() {
    let mut i = Input::new();
    assert_eq!(i.axis(Key::A, Key::D) as f32, 0.0);
    i.set_key(Key::D, true);
    assert_eq!(i.axis(Key::A, Key::D) as f32, 1.0);
    i.set_key(Key::A, true);
    assert_eq!(i.axis(Key::A, Key::D) as f32, 0.0, "both held is neutral, not jitter");
    i.set_key(Key::D, false);
    assert_eq!(i.axis(Key::A, Key::D) as f32, -1.0);
}

#[test]
fn clear_drops_held_state() {
    let mut i = Input::new();
    i.set_key(Key::W, true);
    i.set_button(MouseButton::Right, true);
    i.clear();
    assert!(!i.held(Key::W));
    assert!(!i.button_held(MouseButton::Right));
    assert!(!i.released(Key::W), "clear is not a release edge");
}

#[test]
fn buttons_have_edges_too_and_keys_do_not_touch_each_other() {
    let mut i = Input::default();
    i.set_button(MouseButton::Left, true);
    assert!(i.button_pressed(MouseButton::Left));
    assert!(!i.button_held(MouseButton::Middle));
    i.end_frame();
    assert!(!i.button_pressed(MouseButton::Left));
    assert!(i.button_held(MouseButton::Left));
    i.set_key(Key::F3, true);
    assert!(!i.held(Key::F2));
    assert_eq!(Key::COUNT, 18);
    assert_eq!(MouseButton::COUNT, 3);
}

use harpia::rhi::{Buffer, Texture};

#[test]
fn a_handle_is_its_id() {
    assert_eq!(Texture::from_raw(7).raw(), 7);
    assert_eq!(Texture::null().raw(), 0);
    assert!(Texture::from_raw(7) == Texture::from_raw(7));
    assert!(Texture::from_raw(7) != Texture::from_raw(8));
    assert_eq!(Buffer::from_raw(9).raw(), 9);
    assert!(Buffer::from_raw(9) == Buffer::from_raw(9));
    assert!(Buffer::from_raw(9) != Buffer::from_raw(10));
}
