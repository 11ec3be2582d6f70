//! The key model: virtual keys, characters, hardware scancodes, and chords
//! (ordered sequences of keys that activate a binding when held together).
use vstd::prelude::*;

verus! {

/// An OS-level logical key identifier, independent of keyboard layout.
#[allow(non_camel_case_types)]
pub type VIRTUAL_KEY = u32;

/// Unsided Shift.
pub const VK_SHIFT: u32 = 0x10;

/// Unsided Control.
pub const VK_CONTROL: u32 = 0x11;

/// Unsided Alt (called "menu" by the OS).
pub const VK_MENU: u32 = 0x12;

/// Left Shift.
pub const VK_LSHIFT: u32 = 0xA0;

/// Right Shift.
pub const VK_RSHIFT: u32 = 0xA1;

/// Left Control.
pub const VK_LCONTROL: u32 = 0xA2;

/// Right Control.
pub const VK_RCONTROL: u32 = 0xA3;

/// Left Alt.
pub const VK_LMENU: u32 = 0xA4;

/// Right Alt.
pub const VK_RMENU: u32 = 0xA5;

/// Left OS meta key.
pub const VK_LWIN: u32 = 0x5B;

/// Right OS meta key.
pub const VK_RWIN: u32 = 0x5C;

/// One entry of a chord: either an exact virtual key, a character that some
/// held key must produce under the current layout, or an exact hardware
/// scancode.
pub enum Key {
    VirtualKey(VIRTUAL_KEY),
    Character(String),
    Scancode(u32),
}

/// The mathematical value of a [`Key`]: the character entry is a sequence of
/// characters rather than an executable string.
pub enum KeyView {
    VirtualKey(u32),
    Character(Seq<char>),
    Scancode(u32),
}

impl View for Key {
    type V = KeyView;

    open spec fn view(&self) -> KeyView {
        match self {
            Key::VirtualKey(v) => KeyView::VirtualKey(*v),
            Key::Character(s) => KeyView::Character(s@),
            Key::Scancode(c) => KeyView::Scancode(*c),
        }
    }
}

impl DeepView for Key {
    type V = KeyView;

    open spec fn deep_view(&self) -> KeyView {
        self.view()
    }
}

impl Clone for Key {
    fn clone(&self) -> (r: Self)
        ensures
            r@ == self@,
    {
        match self {
            Key::VirtualKey(v) => Key::VirtualKey(*v),
            Key::Character(s) => Key::Character(s.clone()),
            Key::Scancode(c) => Key::Scancode(*c),
        }
    }
}

/// A chord: an ordered sequence of keys. Chords of interest always have at
/// least one entry.
pub type KeyBinding = Vec<Key>;

/// Several chords.
pub type KeyBindings = Vec<KeyBinding>;

/// The character a group of chords is configured to emit.
pub type BindingChar = char;

/// Whether a key is the given virtual key.
pub open spec fn key_is_vk_value(k: KeyView, vk: u32) -> bool {
    match k {
        KeyView::VirtualKey(v) => v == vk,
        _ => false,
    }
}

/// Whether a key is a character entry.
pub open spec fn key_is_character(k: KeyView) -> bool {
    k is Character
}

/// Whether a key is a character entry holding exactly the given characters.
pub open spec fn key_is_character_value(k: KeyView, exact: Seq<char>) -> bool {
    match k {
        KeyView::Character(s) => s == exact,
        _ => false,
    }
}

/// Whether a key is a virtual-key entry.
pub open spec fn key_is_virtual_key(k: KeyView) -> bool {
    k is VirtualKey
}

/// Whether a key is one of the Shift virtual keys (unsided, left or right).
pub open spec fn key_is_shift(k: KeyView) -> bool {
    key_is_vk_value(k, VK_SHIFT) || key_is_vk_value(k, VK_LSHIFT) || key_is_vk_value(k, VK_RSHIFT)
}

/// Whether some entry of the chord is the given virtual key.
pub open spec fn chord_has_vk_value(chord: Seq<KeyView>, vk: u32) -> bool {
    exists|i: int| 0 <= i < chord.len() && key_is_vk_value(chord[i], vk)
}

/// Whether some entry of the chord is a character entry.
pub open spec fn chord_has_character(chord: Seq<KeyView>) -> bool {
    exists|i: int| 0 <= i < chord.len() && key_is_character(chord[i])
}

/// Whether some entry of the chord is a character entry with exactly the
/// given characters.
pub open spec fn chord_has_character_value(chord: Seq<KeyView>, exact: Seq<char>) -> bool {
    exists|i: int| 0 <= i < chord.len() && key_is_character_value(chord[i], exact)
}

/// Whether some entry of the chord is a virtual-key entry.
pub open spec fn chord_has_virtual_key(chord: Seq<KeyView>) -> bool {
    exists|i: int| 0 <= i < chord.len() && key_is_virtual_key(chord[i])
}

/// Whether some entry of the chord is a Shift virtual key.
pub open spec fn chord_has_shift(chord: Seq<KeyView>) -> bool {
    exists|i: int| 0 <= i < chord.len() && key_is_shift(chord[i])
}

/// Chords that contain a character entry.
pub trait HasCharacter {
    /// Whether some entry is a character entry.
    fn has_character(&self) -> (r: bool);

    /// Whether some entry is a character entry equal to `exact`.
    fn has_character_value(&self, exact: String) -> (r: bool);
}

/// Chords that contain a Shift key.
pub trait HasShift {
    /// Whether some entry is a Shift virtual key (unsided, left or right).
    fn has_shift(&self) -> (r: bool);
}

/// Chords that contain a virtual-key entry.
pub trait HasVirtualKey {
    /// Whether some entry is a virtual-key entry.
    fn has_virtual_key(&self) -> (r: bool);

    /// Whether some entry is the exact virtual key `exact`.
    fn has_virtual_key_value(&self, exact: VIRTUAL_KEY) -> (r: bool);
}

impl HasCharacter for KeyBinding {
    fn has_character(&self) -> (r: bool)
        ensures
            r == chord_has_character(self.deep_view()),
    {
        let n = self.len();
        for i in 0..n
            invariant
                n == self.len(),
                forall|j: int| 0 <= j < i ==> !key_is_character(#[trigger] self.deep_view()[j]),
        {
            if let Key::Character(_) = &self[i] {
                assert(key_is_character(self.deep_view()[i as int]));
                return true;
            }
        }
        false
    }

    fn has_character_value(&self, exact: String) -> (r: bool)
        ensures
            r == chord_has_character_value(self.deep_view(), exact@),
    {
        let n = self.len();
        for i in 0..n
            invariant
                n == self.len(),
                forall|j: int|
                    0 <= j < i ==> !key_is_character_value(#[trigger] self.deep_view()[j], exact@),
        {
            if let Key::Character(s) = &self[i] {
                if s.eq(&exact) {
                    assert(key_is_character_value(self.deep_view()[i as int], exact@));
                    return true;
                }
            }
        }
        false
    }
}

impl HasShift for KeyBinding {
    fn has_shift(&self) -> (r: bool)
        ensures
            r == chord_has_shift(self.deep_view()),
    {
        let n = self.len();
        for i in 0..n
            invariant
                n == self.len(),
                forall|j: int| 0 <= j < i ==> !key_is_shift(#[trigger] self.deep_view()[j]),
        {
            if let Key::VirtualKey(v) = &self[i] {
                if *v == VK_SHIFT || *v == VK_LSHIFT || *v == VK_RSHIFT {
                    assert(key_is_shift(self.deep_view()[i as int]));
                    return true;
                }
            }
        }
        false
    }
}

impl HasVirtualKey for KeyBinding {
    fn has_virtual_key(&self) -> (r: bool)
        ensures
            r == chord_has_virtual_key(self.deep_view()),
    {
        let n = self.len();
        for i in 0..n
            invariant
                n == self.len(),
                forall|j: int| 0 <= j < i ==> !key_is_virtual_key(#[trigger] self.deep_view()[j]),
        {
            if let Key::VirtualKey(_) = &self[i] {
                assert(key_is_virtual_key(self.deep_view()[i as int]));
                return true;
            }
        }
        false
    }

    fn has_virtual_key_value(&self, exact: VIRTUAL_KEY) -> (r: bool)
        ensures
            r == chord_has_vk_value(self.deep_view(), exact),
    {
        let n = self.len();
        for i in 0..n
            invariant
                n == self.len(),
                forall|j: int| 0 <= j < i ==> !key_is_vk_value(#[trigger] self.deep_view()[j], exact),
        {
            if let Key::VirtualKey(v) = &self[i] {
                if *v == exact {
                    assert(key_is_vk_value(self.deep_view()[i as int], exact));
                    return true;
                }
            }
        }
        false
    }
}

/// Whether the key is Alt (left/right) or OS meta (left/right): the keys the
/// OS auto-repeats and wraps in extra events around hotkey handling.
pub open spec fn spec_is_meta_or_alt(key: VIRTUAL_KEY) -> bool {
    key == VK_LMENU || key == VK_RMENU || key == VK_LWIN || key == VK_RWIN
}

/// Returns true when the key is Alt (left/right) or the OS meta key
/// (left/right).
pub fn is_meta_or_alt(key: VIRTUAL_KEY) -> (r: bool)
    ensures
        r == spec_is_meta_or_alt(key),
{
    key == VK_LMENU || key == VK_RMENU || key == VK_LWIN || key == VK_RWIN
}

/// A pointwise update of a vector lifts to an update of its deep view.
pub proof fn lemma_deep_view_update<T: DeepView>(a: Vec<T>, b: Vec<T>, i: int, x: T)
    requires
        0 <= i < a@.len(),
        b@ == a@.update(i, x),
    ensures
        b.deep_view() =~= a.deep_view().update(i, x.deep_view()),
{
    assert forall|k: int| 0 <= k < b@.len() implies #[trigger] b.deep_view()[k]
        == a.deep_view().update(i, x.deep_view())[k] by {
        assert(b.deep_view()[k] == b@[k].deep_view());
        if k != i {
            assert(b@[k] == a@[k]);
            assert(a.deep_view()[k] == a@[k].deep_view());
        } else {
            assert(b@[k] == x);
        }
    }
}

/// Appending to a vector lifts to appending to its deep view.
pub proof fn lemma_deep_view_push<T: DeepView>(a: Vec<T>, b: Vec<T>, x: T)
    requires
        b@ == a@.push(x),
    ensures
        b.deep_view() =~= a.deep_view().push(x.deep_view()),
{
    assert forall|k: int| 0 <= k < b@.len() implies #[trigger] b.deep_view()[k]
        == a.deep_view().push(x.deep_view())[k] by {
        assert(b.deep_view()[k] == b@[k].deep_view());
        if k < a@.len() {
            assert(b@[k] == a@[k]);
            assert(a.deep_view()[k] == a@[k].deep_view());
        } else {
            assert(b@[k] == x);
        }
    }
}

/// Copies a chord entry by entry.
pub fn clone_chord(keys: &KeyBinding) -> (r: KeyBinding)
    ensures
        r.deep_view() == keys.deep_view(),
{
    let mut r: KeyBinding = Vec::new();
    let n = keys.len();
    for i in 0..n
        invariant
            n == keys.len(),
            r@.len() == i,
            forall|k: int| 0 <= k < i ==> #[trigger] r.deep_view()[k] == keys.deep_view()[k],
    {
        let c = keys[i].clone();
        let ghost prev = r@;
        let ghost prevdv = r.deep_view();
        r.push(c);
        proof {
            assert(c.deep_view() == keys.deep_view()[i as int]);
            assert forall|k: int| 0 <= k < i + 1 implies #[trigger] r.deep_view()[k]
                == keys.deep_view()[k] by {
                assert(r.deep_view()[k] == r@[k].deep_view());
                if k < i {
                    assert(r@[k] == prev[k]);
                    assert(prevdv[k] == prev[k].deep_view());
                    assert(prevdv[k] == keys.deep_view()[k]);
                } else {
                    assert(r@[k] == c);
                }
            }
        }
    }
    proof {
        assert(r.deep_view() =~= keys.deep_view());
    }
    r
}


} // verus!
