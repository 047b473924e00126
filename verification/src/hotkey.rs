//! The key that is held down to talk.
use vstd::prelude::*;

verus! {

/// The bit of the right control key.
pub const CTRL_RIGHT: u32 = 0x80;

/// The bit of the function key.
pub const FN: u32 = 0x10;

/// Either of the keys that are held down to talk.
pub const TALK_KEYS: u32 = 0x90;

/// Whether a key to talk is among the modifiers `bits`.
pub open spec fn talk_key_held(bits: u32) -> bool {
    bits & TALK_KEYS != 0
}

/// `handy_keys::Modifiers::intersects` on two sets of modifiers, given by their bits:
/// whether a bit is set in both.
#[verifier::external_body]
fn modifiers_intersect(a: u32, b: u32) -> (r: bool)
    ensures
        r == (a & b != 0),
{
    handy_keys::Modifiers::from_bits_retain(a).intersects(
        handy_keys::Modifiers::from_bits_retain(b),
    )
}

/// Whether the key to talk is down after a keyboard event, where `pressed` says so of
/// before: it goes down with the press of any key that leaves a talk key held, and up as
/// soon as none is held.
pub open spec fn pressed_after(pressed: bool, is_key_down: bool, bits: u32) -> bool {
    talk_key_held(bits) && (pressed || is_key_down)
}

/// A talk key is held where the right control key is, or the function key, and not
/// otherwise.
pub proof fn lemma_talk_keys(bits: u32)
    ensures
        talk_key_held(bits) <==> bits & CTRL_RIGHT != 0 || bits & FN != 0,
{
    assert(bits & 0x90u32 != 0 <==> bits & 0x80u32 != 0 || bits & 0x10u32 != 0) by (bit_vector);
}

/// Releasing the talk keys always ends the talk, and holding one goes on with it. A talk is
/// begun by pressing a key while one of them is held, and by nothing else.
pub proof fn lemma_talk_ends_with_release(pressed: bool, is_key_down: bool, bits: u32)
    ensures
        !talk_key_held(bits) ==> !pressed_after(pressed, is_key_down, bits),
        !pressed && pressed_after(pressed, is_key_down, bits) ==> is_key_down && talk_key_held(
            bits,
        ),
        pressed && talk_key_held(bits) ==> pressed_after(pressed, is_key_down, bits),
        is_key_down && talk_key_held(bits) ==> pressed_after(pressed, is_key_down, bits),
{
}

/// Whether the key to talk is down.
pub struct Hotkey {
    pressed: bool,
}

impl View for Hotkey {
    type V = bool;

    closed spec fn view(&self) -> bool {
        self.pressed
    }
}

impl Hotkey {
    /// The key is up at first.
    pub fn new() -> (r: Hotkey)
        ensures
            r@ == false,
    {
        Hotkey { pressed: false }
    }

    /// Takes a keyboard event, and tells whether it changed anything.
    pub fn on_event(&mut self, is_key_down: bool, bits: u32) -> (changed: bool)
        ensures
            final(self)@ == pressed_after(old(self)@, is_key_down, bits),
            changed == (final(self)@ != old(self)@),
    {
        let contains = modifiers_intersect(bits, TALK_KEYS);
        if is_key_down && contains && !self.pressed {
            self.pressed = true;
            true
        } else if !contains && self.pressed {
            self.pressed = false;
            true
        } else {
            false
        }
    }

    /// Whether the key to talk is down.
    pub fn is_pressed(&self) -> (r: bool)
        ensures
            r == self@,
    {
        self.pressed
    }
}

} // verus!
