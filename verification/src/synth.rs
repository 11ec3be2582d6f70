//! Planning of synthetic key strokes.
//!
//! When a chord activates, the physical modifier keys the user holds are
//! released at the OS level and the configured Unicode character is pressed
//! in their place; when it deactivates, the character is released and the
//! still-held modifiers are pressed back. This module plans those stroke
//! batches as plain values; submitting them to the OS input interface is the
//! caller's job. Every synthesized stroke carries the sentinel extra-info
//! marker so the hook front end can drop it on re-entry.
use vstd::prelude::*;

verus! {

use crate::hotkeymanager::TriggeredHotkey;
use crate::keys::VIRTUAL_KEY;
use crate::keys::VK_LMENU;
use crate::keys::VK_LSHIFT;
use crate::keys::VK_LWIN;
use crate::keys::VK_MENU;
use crate::keys::VK_RMENU;
use crate::keys::VK_RSHIFT;
use crate::keys::VK_RWIN;
use crate::keys::VK_SHIFT;
use crate::translate::lookup_scan;
use crate::translate::KeyPressedView;
use crate::translate::TranslationCache;

/// The sentinel placed in the OS extra-info field of every synthesized
/// event: the hook front end recognizes it and drops the event, so our own
/// strokes never re-enter the pressed-key tracker.
pub const KEYSTROKE_MARKER: usize = 0x666;

/// How a stroke is injected: as a Unicode code unit, or as a classic
/// scancode-based key event.
#[derive(Clone, Copy, Debug, PartialEq, Eq, Structural)]
pub enum KeyType {
    Unicode,
    Classic,
}

/// Whether a stroke presses or releases its key.
#[derive(Clone, Copy, Debug, PartialEq, Eq, Structural)]
pub enum KeyAction {
    Press,
    Release,
}

/// One planned synthetic key stroke. A classic stroke carries a virtual key
/// and its scancode; a Unicode stroke carries the UTF-16 code unit in the
/// scancode field and a zero virtual key.
#[derive(Clone, Copy, Debug, PartialEq, Eq, Structural)]
pub struct KeyStroke {
    pub key_type: KeyType,
    pub virtual_key: u32,
    pub scancode: u32,
    pub action: KeyAction,
}

impl KeyStroke {
    /// A classic stroke for a virtual key with its scancode.
    pub fn classic(virtual_key: VIRTUAL_KEY, scancode: u32, action: KeyAction) -> (r: Self)
        ensures
            r == (KeyStroke { key_type: KeyType::Classic, virtual_key, scancode, action }),
    {
        Self { key_type: KeyType::Classic, virtual_key, scancode, action }
    }

    /// A Unicode stroke for a character: the character's code goes into the
    /// scancode field and the virtual key is zero.
    pub fn unicode(ch: char, action: KeyAction) -> (r: Self)
        ensures
            r == (KeyStroke {
                key_type: KeyType::Unicode,
                virtual_key: 0u32,
                scancode: ch as u32,
                action,
            }),
    {
        Self { key_type: KeyType::Unicode, virtual_key: 0, scancode: ch as u32, action }
    }

    /// The same stroke as a press.
    pub fn clone_as_press(self) -> (r: KeyStroke)
        ensures
            r == (KeyStroke { action: KeyAction::Press, ..self }),
    {
        let mut copy = self;
        copy.action = KeyAction::Press;
        copy
    }

    /// The same stroke as a release.
    pub fn clone_as_release(self) -> (r: KeyStroke)
        ensures
            r == (KeyStroke { action: KeyAction::Release, ..self }),
    {
        let mut copy = self;
        copy.action = KeyAction::Release;
        copy
    }
}

/// Whether a virtual key is a modifier: Shift, Alt ("menu") or the OS meta
/// key, in their unsided, left and right forms.
pub open spec fn spec_is_modifier(vk: u32) -> bool {
    ||| vk == VK_SHIFT
    ||| vk == VK_LSHIFT
    ||| vk == VK_RSHIFT
    ||| vk == VK_MENU
    ||| vk == VK_LMENU
    ||| vk == VK_RMENU
    ||| vk == VK_LWIN
    ||| vk == VK_RWIN
}

/// The modifier keys of a key list, in their original order.
pub open spec fn spec_filter_modifiers(s: Seq<u32>) -> Seq<u32> {
    s.filter(|vk: u32| spec_is_modifier(vk))
}

/// Returns the modifier keys of the list, in their original order.
pub fn filter_modifier_keys(vk_list: &Vec<VIRTUAL_KEY>) -> (r: Vec<VIRTUAL_KEY>)
    ensures
        r@ == spec_filter_modifiers(vk_list@),
{
    broadcast use vstd::seq_lib::group_seq_lib_default;

    let mut r: Vec<u32> = Vec::new();
    let n = vk_list.len();
    proof {
        assert(vk_list@.take(0) =~= Seq::<u32>::empty());
        assert(vk_list@.take(0).filter(|vk: u32| spec_is_modifier(vk)) =~= Seq::<u32>::empty())
            by {
            reveal(Seq::filter);
        }
    }
    for i in 0..n
        invariant
            n == vk_list.len(),
            r@ == vk_list@.take(i as int).filter(|vk: u32| spec_is_modifier(vk)),
    {
        let vk = vk_list[i];
        let keep = vk == VK_SHIFT || vk == VK_LSHIFT || vk == VK_RSHIFT || vk == VK_MENU || vk
            == VK_LMENU || vk == VK_RMENU || vk == VK_LWIN || vk == VK_RWIN;
        if keep {
            r.push(vk);
        }
        proof {
            let pred = |vk: u32| spec_is_modifier(vk);
            assert(vk_list@.take(i + 1).drop_last() =~= vk_list@.take(i as int));
            assert(vk_list@.take(i as int).push(vk_list@[i as int]) =~= vk_list@.take(i + 1));
            Seq::lemma_filter_push(vk_list@.take(i as int), vk_list@[i as int], pred);
            assert(keep == pred(vk_list@[i as int]));
        }
    }
    proof {
        assert(vk_list@.take(n as int) =~= vk_list@);
    }
    r
}

/// Builds one batch from the strokes that precede the character, the
/// character strokes, and the strokes that follow, in that order. The caller
/// submits the batch to the OS input interface as one unit.
pub fn send_key_sequence(
    pre_keys: &[KeyStroke],
    the_char: &[KeyStroke],
    post_keys: &[KeyStroke],
) -> (r: Vec<KeyStroke>)
    ensures
        r@ == pre_keys@ + the_char@ + post_keys@,
{
    let mut inputs: Vec<KeyStroke> = Vec::new();
    append_strokes(&mut inputs, pre_keys);
    append_strokes(&mut inputs, the_char);
    append_strokes(&mut inputs, post_keys);
    proof {
        assert(inputs@ =~= pre_keys@ + the_char@ + post_keys@);
    }
    inputs
}

/// Appends every stroke of the slice to the vector.
fn append_strokes(out: &mut Vec<KeyStroke>, strokes: &[KeyStroke])
    ensures
        final(out)@ == old(out)@ + strokes@,
{
    let n = strokes.len();
    for i in 0..n
        invariant
            n == strokes@.len(),
            out@ == old(out)@ + strokes@.take(i as int),
    {
        out.push(strokes[i]);
        proof {
            assert(old(out)@ + strokes@.take(i + 1) =~= (old(out)@ + strokes@.take(i as int)).push(
                strokes@[i as int],
            ));
        }
    }
    proof {
        assert(strokes@.take(n as int) =~= strokes@);
        assert(final(out)@ == old(out)@ + strokes@);
    }
}

/// The classic release stroke for a key, with its scancode from the cache.
pub open spec fn spec_release_of(vk: u32, trans: Seq<KeyPressedView>) -> KeyStroke {
    KeyStroke {
        key_type: KeyType::Classic,
        virtual_key: vk,
        scancode: lookup_scan(trans, vk),
        action: KeyAction::Release,
    }
}

/// The classic press stroke for a key, with its scancode from the cache.
pub open spec fn spec_press_of(vk: u32, trans: Seq<KeyPressedView>) -> KeyStroke {
    KeyStroke {
        key_type: KeyType::Classic,
        virtual_key: vk,
        scancode: lookup_scan(trans, vk),
        action: KeyAction::Press,
    }
}

/// The batch that activates a binding: on the first activation, releases of
/// the held modifier keys in reverse order followed by the character press;
/// on a repeated activation, the character press alone.
pub open spec fn spec_activation(
    was_triggered: bool,
    pressed: Seq<u32>,
    ch: char,
    trans: Seq<KeyPressedView>,
) -> Seq<KeyStroke> {
    let char_press = KeyStroke {
        key_type: KeyType::Unicode,
        virtual_key: 0u32,
        scancode: ch as u32,
        action: KeyAction::Press,
    };
    if was_triggered {
        seq![char_press]
    } else {
        spec_filter_modifiers(pressed).reverse().map_values(|vk: u32| spec_release_of(vk, trans))
            + seq![char_press]
    }
}

/// The batch that deactivates a binding: the character release followed by
/// presses of the still-held modifier keys in their original order.
pub open spec fn spec_deactivation(
    pressed: Seq<u32>,
    ch: char,
    trans: Seq<KeyPressedView>,
) -> Seq<KeyStroke> {
    let char_release = KeyStroke {
        key_type: KeyType::Unicode,
        virtual_key: 0u32,
        scancode: ch as u32,
        action: KeyAction::Release,
    };
    seq![char_release] + spec_filter_modifiers(pressed).map_values(
        |vk: u32| spec_press_of(vk, trans),
    )
}

/// Plans the activation batch for a fired binding: the first activation
/// releases the user's held modifier keys (reverse order) so the character
/// injection is not modified by them, then presses the character; a repeat
/// presses the character alone.
pub fn activation_sequence(
    event: &TriggeredHotkey,
    ch: char,
    translations: &TranslationCache,
) -> (r: Vec<KeyStroke>)
    ensures
        r@ == spec_activation(event.was_triggered, event.pressed_keys@, ch, translations@),
{
    let char_press = KeyStroke::unicode(ch, KeyAction::Press);
    if event.was_triggered {
        let mut out: Vec<KeyStroke> = Vec::new();
        out.push(char_press);
        proof {
            assert(out@ =~= spec_activation(true, event.pressed_keys@, ch, translations@));
        }
        out
    } else {
        let ghost mapped = spec_filter_modifiers(event.pressed_keys@).reverse().map_values(
            |vk: u32| spec_release_of(vk, translations@),
        );
        let modifiers = filter_modifier_keys(&event.pressed_keys);
        let mut out: Vec<KeyStroke> = Vec::new();
        let k = modifiers.len();
        for i in 0..k
            invariant
                k == modifiers.len(),
                modifiers@ == spec_filter_modifiers(event.pressed_keys@),
                mapped == spec_filter_modifiers(event.pressed_keys@).reverse().map_values(
                    |vk: u32| spec_release_of(vk, translations@),
                ),
                out@ =~= mapped.take(i as int),
        {
            let vk = modifiers[k - 1 - i];
            let scan = translations.scancode_for(vk);
            out.push(KeyStroke::classic(vk, scan, KeyAction::Release));
            proof {
                assert(modifiers@.reverse()[i as int] == modifiers@[k - 1 - i]);
                assert(mapped[i as int] == spec_release_of(modifiers@[k - 1 - i], translations@));
                assert(out@ =~= mapped.take(i + 1));
            }
        }
        out.push(char_press);
        proof {
            assert(mapped.take(k as int) =~= mapped);
            assert(out@ =~= spec_activation(false, event.pressed_keys@, ch, translations@));
        }
        out
    }
}

/// Plans the deactivation batch for a released binding: the character
/// release, then presses that restore the still-held modifier keys in their
/// original order.
pub fn deactivation_sequence(
    event: &TriggeredHotkey,
    ch: char,
    translations: &TranslationCache,
) -> (r: Vec<KeyStroke>)
    ensures
        r@ == spec_deactivation(event.pressed_keys@, ch, translations@),
{
    let ghost mapped = spec_filter_modifiers(event.pressed_keys@).map_values(
        |vk: u32| spec_press_of(vk, translations@),
    );
    let mut out: Vec<KeyStroke> = Vec::new();
    out.push(KeyStroke::unicode(ch, KeyAction::Release));
    let modifiers = filter_modifier_keys(&event.pressed_keys);
    let k = modifiers.len();
    for i in 0..k
        invariant
            k == modifiers.len(),
            modifiers@ == spec_filter_modifiers(event.pressed_keys@),
            mapped == spec_filter_modifiers(event.pressed_keys@).map_values(
                |vk: u32| spec_press_of(vk, translations@),
            ),
            out@.len() == i + 1,
            out@ =~= seq![
                KeyStroke {
                    key_type: KeyType::Unicode,
                    virtual_key: 0u32,
                    scancode: ch as u32,
                    action: KeyAction::Release,
                },
            ] + mapped.take(i as int),
    {
        let vk = modifiers[i];
        let scan = translations.scancode_for(vk);
        out.push(KeyStroke::classic(vk, scan, KeyAction::Press));
        proof {
            assert(mapped[i as int] == spec_press_of(modifiers@[i as int], translations@));
        }
    }
    proof {
        assert(mapped.take(k as int) =~= mapped);
        assert(out@ =~= spec_deactivation(event.pressed_keys@, ch, translations@));
    }
    out
}

/// The set of classically-held virtual keys after one stroke is applied at
/// the OS level: classic presses insert, classic releases remove, Unicode
/// strokes leave it unchanged.
pub open spec fn os_apply_stroke(held: Set<u32>, k: KeyStroke) -> Set<u32> {
    if k.key_type is Classic {
        if k.action is Press {
            held.insert(k.virtual_key)
        } else {
            held.remove(k.virtual_key)
        }
    } else {
        held
    }
}

/// The held-key set after a batch is applied in order.
pub open spec fn os_apply(held: Set<u32>, ks: Seq<KeyStroke>) -> Set<u32>
    decreases ks.len(),
{
    if ks.len() == 0 {
        held
    } else {
        os_apply(os_apply_stroke(held, ks[0]), ks.drop_first())
    }
}

/// Applying a concatenation applies the two batches in order.
pub proof fn lemma_os_apply_concat(held: Set<u32>, a: Seq<KeyStroke>, b: Seq<KeyStroke>)
    ensures
        os_apply(held, a + b) == os_apply(os_apply(held, a), b),
    decreases a.len(),
{
    if a.len() == 0 {
        assert(a + b =~= b);
    } else {
        assert((a + b).drop_first() =~= a.drop_first() + b);
        lemma_os_apply_concat(os_apply_stroke(held, a[0]), a.drop_first(), b);
    }
}

/// Applying the release strokes of a key list removes exactly those keys.
pub proof fn lemma_os_apply_releases(held: Set<u32>, vks: Seq<u32>, trans: Seq<KeyPressedView>)
    ensures
        os_apply(held, vks.map_values(|vk: u32| spec_release_of(vk, trans))) =~= held.difference(
            vks.to_set(),
        ),
    decreases vks.len(),
{
    let strokes = vks.map_values(|vk: u32| spec_release_of(vk, trans));
    if vks.len() == 0 {
        assert(vks.to_set() =~= Set::<u32>::empty());
    } else {
        assert(strokes.drop_first() =~= vks.drop_first().map_values(
            |vk: u32| spec_release_of(vk, trans),
        ));
        lemma_os_apply_releases(held.remove(vks[0]), vks.drop_first(), trans);
        assert(vks.to_set() =~= vks.drop_first().to_set().insert(vks[0])) by {
            assert forall|x: u32| vks.to_set().contains(x) implies vks.drop_first()
                .to_set().insert(vks[0]).contains(x) by {
                let i = choose|i: int| 0 <= i < vks.len() && vks[i] == x;
                if i > 0 {
                    assert(vks.drop_first()[i - 1] == x);
                    assert(vks.drop_first().contains(x));
                }
            }
            assert forall|x: u32| vks.drop_first().to_set().insert(vks[0]).contains(x)
                implies vks.to_set().contains(x) by {
                if x == vks[0] {
                    assert(vks.contains(x));
                } else {
                    let i = choose|i: int|
                        0 <= i < vks.drop_first().len() && vks.drop_first()[i] == x;
                    assert(vks[i + 1] == x);
                }
            }
        }
        assert(held.remove(vks[0]).difference(vks.drop_first().to_set()) =~= held.difference(
            vks.to_set(),
        ));
    }
}

/// Applying the press strokes of a key list adds exactly those keys.
pub proof fn lemma_os_apply_presses(held: Set<u32>, vks: Seq<u32>, trans: Seq<KeyPressedView>)
    ensures
        os_apply(held, vks.map_values(|vk: u32| spec_press_of(vk, trans))) =~= held.union(
            vks.to_set(),
        ),
    decreases vks.len(),
{
    let strokes = vks.map_values(|vk: u32| spec_press_of(vk, trans));
    if vks.len() == 0 {
        assert(vks.to_set() =~= Set::<u32>::empty());
    } else {
        assert(strokes.drop_first() =~= vks.drop_first().map_values(
            |vk: u32| spec_press_of(vk, trans),
        ));
        lemma_os_apply_presses(held.insert(vks[0]), vks.drop_first(), trans);
        assert(vks.to_set() =~= vks.drop_first().to_set().insert(vks[0])) by {
            assert forall|x: u32| vks.to_set().contains(x) implies vks.drop_first()
                .to_set().insert(vks[0]).contains(x) by {
                let i = choose|i: int| 0 <= i < vks.len() && vks[i] == x;
                if i > 0 {
                    assert(vks.drop_first()[i - 1] == x);
                    assert(vks.drop_first().contains(x));
                }
            }
            assert forall|x: u32| vks.drop_first().to_set().insert(vks[0]).contains(x)
                implies vks.to_set().contains(x) by {
                if x == vks[0] {
                    assert(vks.contains(x));
                } else {
                    let i = choose|i: int|
                        0 <= i < vks.drop_first().len() && vks.drop_first()[i] == x;
                    assert(vks[i + 1] == x);
                }
            }
        }
        assert(held.insert(vks[0]).union(vks.drop_first().to_set()) =~= held.union(vks.to_set()));
    }
}

/// Law: the first activation of a binding followed by its deactivation, in
/// isolation, returns the OS logical modifier state to what it was before,
/// provided the user indeed held the modifiers the activation releases.
pub proof fn lemma_activation_deactivation_round_trip(
    held: Set<u32>,
    pressed: Seq<u32>,
    ch: char,
    trans: Seq<KeyPressedView>,
)
    requires
        forall|vk: u32| spec_filter_modifiers(pressed).contains(vk) ==> held.contains(vk),
    ensures
        os_apply(
            os_apply(held, spec_activation(false, pressed, ch, trans)),
            spec_deactivation(pressed, ch, trans),
        ) =~= held,
{
    let mods = spec_filter_modifiers(pressed);
    let char_press = KeyStroke {
        key_type: KeyType::Unicode,
        virtual_key: 0u32,
        scancode: ch as u32,
        action: KeyAction::Press,
    };
    let char_release = KeyStroke {
        key_type: KeyType::Unicode,
        virtual_key: 0u32,
        scancode: ch as u32,
        action: KeyAction::Release,
    };
    let releases = mods.reverse().map_values(|vk: u32| spec_release_of(vk, trans));
    let presses = mods.map_values(|vk: u32| spec_press_of(vk, trans));

    lemma_os_apply_concat(held, releases, seq![char_press]);
    lemma_os_apply_releases(held, mods.reverse(), trans);
    assert(mods.reverse().to_set() =~= mods.to_set()) by {
        assert forall|x: u32| mods.to_set().contains(x) implies mods.reverse().to_set().contains(
            x,
        ) by {
            let i = choose|i: int| 0 <= i < mods.len() && mods[i] == x;
            assert(mods.reverse()[mods.len() - 1 - i] == x);
        }
        assert forall|x: u32| mods.reverse().to_set().contains(x) implies mods.to_set().contains(
            x,
        ) by {
            let i = choose|i: int| 0 <= i < mods.reverse().len() && mods.reverse()[i] == x;
            assert(mods[mods.len() - 1 - i] == x);
        }
    }
    let d = os_apply(held, releases);
    assert(d == held.difference(mods.to_set()));
    assert(os_apply(d, seq![char_press]) == d) by {
        reveal_with_fuel(os_apply, 3);
        assert(seq![char_press][0] == char_press);
        assert(os_apply_stroke(d, char_press) == d);
        assert(seq![char_press].drop_first().len() == 0);
    }
    let after_act = os_apply(held, spec_activation(false, pressed, ch, trans));
    assert(after_act == d);
    lemma_os_apply_concat(after_act, seq![char_release], presses);
    assert(os_apply(after_act, seq![char_release]) == after_act) by {
        reveal_with_fuel(os_apply, 3);
        assert(seq![char_release][0] == char_release);
        assert(os_apply_stroke(after_act, char_release) == after_act);
        assert(seq![char_release].drop_first().len() == 0);
    }
    lemma_os_apply_presses(after_act, mods, trans);
    assert(held.difference(mods.to_set()).union(mods.to_set()) =~= held);
}

} // verus!
