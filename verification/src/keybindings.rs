//! Parsing and expansion of configured chords.
//!
//! A chord string looks like `lshift+alt+b+0x18`: tokens joined by `+`,
//! where a token starting with `0x` is a hardware scancode in hex, a
//! multi-character name is a virtual key resolved through the name table,
//! and a single character stands for itself. Unsided modifiers are expanded
//! into their left/right variants, and lowercase characters may get an
//! additional Shift-prefixed variant registered under the uppercase
//! character.
use vstd::prelude::*;

verus! {

use crate::keys::clone_chord;
use crate::keys::lemma_deep_view_update;
use crate::keys::BindingChar;
use crate::keys::chord_has_character;
use crate::keys::HasCharacter;
use crate::keys::HasShift;
use crate::keys::chord_has_shift;
use crate::keys::Key;
use crate::keys::KeyBinding;
use crate::keys::KeyBindings;
use crate::keys::KeyView;
use crate::keys::VK_CONTROL;
use crate::keys::VK_LCONTROL;
use crate::keys::VK_LMENU;
use crate::keys::VK_LSHIFT;
use crate::keys::VK_LWIN;
use crate::keys::VK_MENU;
use crate::keys::VK_RCONTROL;
use crate::keys::VK_RMENU;
use crate::keys::VK_RSHIFT;
use crate::keys::VK_RWIN;
use crate::keys::VK_SHIFT;

/// Why a configuration was rejected. Every error is fatal at startup: the
/// caller reports it and exits.
#[derive(Debug)]
pub enum ConfigError {
    /// A chord token was empty (as in `a++b` or a trailing `+`).
    EmptyToken,
    /// A `0x` token held no digits, a non-hex digit, or a value over 32
    /// bits; the offending token is carried.
    BadScancode(String),
    /// A multi-character token named no known virtual key; the offending
    /// token is carried.
    UnknownKeyName(String),
    /// A section name was not exactly one character; the offending name is
    /// carried.
    BadSectionChar(String),
}

/// Collects the characters of a string.
fn str_chars(s: &str) -> (r: Vec<char>)
    ensures
        r@ == s@,
{
    let n = s.unicode_len();
    let mut r: Vec<char> = Vec::new();
    for i in 0..n
        invariant
            n == s@.len(),
            r@ == s@.take(i as int),
    {
        r.push(s.get_char(i));
        proof {
            assert(s@.take(i + 1) =~= s@.take(i as int).push(s@[i as int]));
        }
    }
    proof {
        assert(s@.take(n as int) =~= s@);
    }
    r
}

/// Relies on `String::from_iter` over `char`: the string holds exactly the
/// given characters.
#[verifier::external_body]
fn chars_to_string(v: &Vec<char>) -> (r: String)
    ensures
        r@ == v@,
{
    v.iter().collect()
}

/// Returns whether the character vector holds exactly the characters of the
/// string.
fn chars_eq_str(t: &Vec<char>, s: &str) -> (r: bool)
    ensures
        r == (t@ == s@),
{
    let n = s.unicode_len();
    if t.len() != n {
        proof {
            assert(t@.len() != s@.len());
        }
        return false;
    }
    for i in 0..n
        invariant
            n == s@.len(),
            t@.len() == n,
            forall|j: int| 0 <= j < i ==> t@[j] == s@[j],
    {
        if t[i] != s.get_char(i) {
            return false;
        }
    }
    proof {
        assert(t@ =~= s@);
    }
    true
}

/// Whether the character is a hex digit.
pub open spec fn is_hex_digit(c: char) -> bool {
    ||| (c as u32 >= 48 && c as u32 <= 57)  // '0' to '9'
    ||| (c as u32 >= 97 && c as u32 <= 102)  // 'a' to 'f'
    ||| (c as u32 >= 65 && c as u32 <= 70)  // 'A' to 'F'
}

/// The value of a hex digit.
pub open spec fn hex_val(c: char) -> u32 {
    if c as u32 >= 97 {
        (c as u32 - 87) as u32
    } else if c as u32 >= 65 {
        (c as u32 - 55) as u32
    } else {
        (c as u32 - 48) as u32
    }
}

/// Folds hex digits into a value, most significant first: `None` on a
/// non-digit or when the value no longer fits in 32 bits.
pub open spec fn parse_hex_rec(s: Seq<char>, acc: u32) -> Option<u32>
    decreases s.len(),
{
    if s.len() == 0 {
        Some(acc)
    } else if !is_hex_digit(s[0]) {
        None
    } else if acc > 0x0FFF_FFFF {
        None
    } else {
        parse_hex_rec(s.drop_first(), (acc * 16 + hex_val(s[0])) as u32)
    }
}

/// The value of a hex-digit sequence: `None` when empty, malformed or over
/// 32 bits.
pub open spec fn spec_parse_hex(s: Seq<char>) -> Option<u32> {
    if s.len() == 0 {
        None
    } else {
        parse_hex_rec(s, 0u32)
    }
}

/// Parses the hex digits of `t` from position `from`, folding onto `acc`.
fn parse_hex_from(t: &Vec<char>, from: usize, acc: u32) -> (r: Option<u32>)
    requires
        from <= t@.len(),
    ensures
        r == parse_hex_rec(t@.skip(from as int), acc),
    decreases t@.len() - from,
{
    if from == t.len() {
        proof {
            assert(t@.skip(from as int).len() == 0);
        }
        return Some(acc);
    }
    proof {
        assert(t@.skip(from as int)[0] == t@[from as int]);
        assert(t@.skip(from as int).drop_first() =~= t@.skip(from as int + 1));
    }
    let c = t[from];
    let u = c as u32;
    let digit: u32 = if u >= 48 && u <= 57 {
        u - 48
    } else if u >= 97 && u <= 102 {
        u - 87
    } else if u >= 65 && u <= 70 {
        u - 55
    } else {
        return None;
    };
    if acc > 0x0FFF_FFFF {
        return None;
    }
    parse_hex_from(t, from + 1, acc * 16 + digit)
}

/// The virtual key a chord token names, through the name table: `None` for
/// an unknown name.
pub open spec fn spec_vk_from_name(t: Seq<char>) -> Option<u32> {
    if t == "shift"@ {
        Some(VK_SHIFT)
    } else if t == "lshift"@ {
        Some(VK_LSHIFT)
    } else if t == "rshift"@ {
        Some(VK_RSHIFT)
    } else if t == "control"@ {
        Some(VK_CONTROL)
    } else if t == "ctrl"@ {
        Some(VK_CONTROL)
    } else if t == "lcontrol"@ {
        Some(VK_LCONTROL)
    } else if t == "lctrl"@ {
        Some(VK_LCONTROL)
    } else if t == "rcontrol"@ {
        Some(VK_RCONTROL)
    } else if t == "rctrl"@ {
        Some(VK_RCONTROL)
    } else if t == "menu"@ {
        Some(VK_MENU)
    } else if t == "alt"@ {
        Some(VK_MENU)
    } else if t == "lmenu"@ {
        Some(VK_LMENU)
    } else if t == "lalt"@ {
        Some(VK_LMENU)
    } else if t == "rmenu"@ {
        Some(VK_RMENU)
    } else if t == "ralt"@ {
        Some(VK_RMENU)
    } else if t == "lwin"@ {
        Some(VK_LWIN)
    } else if t == "rwin"@ {
        Some(VK_RWIN)
    } else if t == "win"@ {
        Some(VK_LWIN)
    } else {
        None
    }
}

/// Resolves a multi-character token through the name table.
fn vk_from_name(t: &Vec<char>) -> (r: Option<u32>)
    ensures
        r == spec_vk_from_name(t@),
{
    if chars_eq_str(t, "shift") {
        Some(VK_SHIFT)
    } else if chars_eq_str(t, "lshift") {
        Some(VK_LSHIFT)
    } else if chars_eq_str(t, "rshift") {
        Some(VK_RSHIFT)
    } else if chars_eq_str(t, "control") {
        Some(VK_CONTROL)
    } else if chars_eq_str(t, "ctrl") {
        Some(VK_CONTROL)
    } else if chars_eq_str(t, "lcontrol") {
        Some(VK_LCONTROL)
    } else if chars_eq_str(t, "lctrl") {
        Some(VK_LCONTROL)
    } else if chars_eq_str(t, "rcontrol") {
        Some(VK_RCONTROL)
    } else if chars_eq_str(t, "rctrl") {
        Some(VK_RCONTROL)
    } else if chars_eq_str(t, "menu") {
        Some(VK_MENU)
    } else if chars_eq_str(t, "alt") {
        Some(VK_MENU)
    } else if chars_eq_str(t, "lmenu") {
        Some(VK_LMENU)
    } else if chars_eq_str(t, "lalt") {
        Some(VK_LMENU)
    } else if chars_eq_str(t, "rmenu") {
        Some(VK_RMENU)
    } else if chars_eq_str(t, "ralt") {
        Some(VK_RMENU)
    } else if chars_eq_str(t, "lwin") {
        Some(VK_LWIN)
    } else if chars_eq_str(t, "rwin") {
        Some(VK_RWIN)
    } else if chars_eq_str(t, "win") {
        Some(VK_LWIN)
    } else {
        None
    }
}

/// The key a chord token denotes: a `0x`-prefixed token is a scancode, a
/// multi-character token is a named virtual key, a single character stands
/// for itself; an empty token, a bad scancode and an unknown name denote
/// nothing.
pub open spec fn spec_token_to_key(t: Seq<char>) -> Option<KeyView> {
    if t.len() == 0 {
        None
    } else if t.len() >= 2 && t[0] == '0' && t[1] == 'x' {
        match spec_parse_hex(t.skip(2)) {
            Some(v) => Some(KeyView::Scancode(v)),
            None => None,
        }
    } else if t.len() > 1 {
        match spec_vk_from_name(t) {
            Some(vk) => Some(KeyView::VirtualKey(vk)),
            None => None,
        }
    } else {
        Some(KeyView::Character(t))
    }
}

/// Classifies one token; the error carries the token.
fn token_to_key(t: &Vec<char>) -> (r: Result<Key, ConfigError>)
    ensures
        match r {
            Ok(k) => spec_token_to_key(t@) == Some(k@),
            Err(_) => spec_token_to_key(t@) is None,
        },
{
    if t.len() == 0 {
        return Err(ConfigError::EmptyToken);
    }
    if t.len() >= 2 && t[0] == '0' && t[1] == 'x' {
        if t.len() == 2 {
            proof {
                assert(t@.skip(2).len() == 0);
            }
            return Err(ConfigError::BadScancode(chars_to_string(t)));
        }
        proof {
            assert(t@.skip(2).len() > 0);
        }
        return match parse_hex_from(t, 2, 0) {
            Some(v) => Ok(Key::Scancode(v)),
            None => Err(ConfigError::BadScancode(chars_to_string(t))),
        };
    }
    if t.len() > 1 {
        return match vk_from_name(t) {
            Some(vk) => Ok(Key::VirtualKey(vk)),
            None => Err(ConfigError::UnknownKeyName(chars_to_string(t))),
        };
    }
    Ok(Key::Character(chars_to_string(t)))
}

/// Splits a character sequence at every `+`. The result always holds at
/// least one (possibly empty) token.
pub open spec fn split_plus(s: Seq<char>) -> Seq<Seq<char>>
    decreases s.len(),
{
    if s.len() == 0 {
        seq![Seq::<char>::empty()]
    } else if s[0] == '+' {
        seq![Seq::<char>::empty()] + split_plus(s.drop_first())
    } else {
        let rest = split_plus(s.drop_first());
        rest.update(0, seq![s[0]] + rest[0])
    }
}

/// The tokens of `split_plus` are never fewer than one.
pub proof fn lemma_split_plus_len(s: Seq<char>)
    ensures
        split_plus(s).len() >= 1,
    decreases s.len(),
{
    if s.len() > 0 {
        lemma_split_plus_len(s.drop_first());
    }
}

/// Splits the characters from position `from` at every `+`.
fn split_chars_from(chars: &Vec<char>, from: usize) -> (r: Vec<Vec<char>>)
    requires
        from <= chars@.len(),
    ensures
        r.deep_view() == split_plus(chars@.skip(from as int)),
        r@.len() >= 1,
    decreases chars@.len() - from,
{
    let ghost s = chars@.skip(from as int);
    if from == chars.len() {
        let empty_tok: Vec<char> = Vec::new();
        let ghost ev = empty_tok;
        let mut r: Vec<Vec<char>> = Vec::new();
        r.push(empty_tok);
        proof {
            assert(s.len() == 0);
            assert(r@ == Seq::<Vec<char>>::empty().push(ev));
            assert(r.deep_view()[0] == ev.deep_view());
            assert(ev.deep_view() =~= Seq::<char>::empty());
            assert(r.deep_view() =~= seq![Seq::<char>::empty()]);
        }
        return r;
    }
    proof {
        assert(s[0] == chars@[from as int]);
        assert(s.drop_first() =~= chars@.skip(from as int + 1));
    }
    if chars[from] == '+' {
        let mut rest = split_chars_from(chars, from + 1);
        let ghost restdv = rest.deep_view();
        let ghost restseq = rest@;
        let empty_tok: Vec<char> = Vec::new();
        let ghost ev = empty_tok;
        rest.insert(0, empty_tok);
        proof {
            assert(rest@ == restseq.insert(0, ev));
            assert forall|k: int| 0 <= k < rest@.len() implies #[trigger] rest.deep_view()[k]
                == split_plus(s)[k] by {
                assert(rest.deep_view()[k] == rest@[k].deep_view());
                if k == 0 {
                    assert(rest@[0] == ev && ev@ =~= Seq::<char>::empty());
                } else {
                    assert(rest@[k] == restseq[k - 1]);
                    assert(restdv[k - 1] == restseq[k - 1].deep_view());
                    assert(split_plus(s)[k] == split_plus(s.drop_first())[k - 1]);
                }
            }
            assert(rest.deep_view() =~= split_plus(s));
        }
        rest
    } else {
        let c = chars[from];
        let mut rest = split_chars_from(chars, from + 1);
        let ghost restdv = rest.deep_view();
        let ghost restseq = rest@;
        let ghost first0 = rest@[0];
        rest[0].insert(0, c);
        proof {
            let nf = rest@[0];
            assert(rest@ == restseq.update(0, nf));
            assert(nf@ == first0@.insert(0, c));
            assert(nf@ =~= seq![c] + first0@);
            assert(nf.deep_view() == nf@);
            assert forall|k: int| 0 <= k < rest@.len() implies #[trigger] rest.deep_view()[k]
                == split_plus(s)[k] by {
                assert(rest.deep_view()[k] == rest@[k].deep_view());
                if k == 0 {
                    assert(restdv[0] == first0.deep_view());
                    assert(split_plus(s)[0] == seq![s[0]] + split_plus(s.drop_first())[0]);
                } else {
                    assert(rest@[k] == restseq[k]);
                    assert(restdv[k] == restseq[k].deep_view());
                    assert(split_plus(s)[k] == split_plus(s.drop_first())[k]);
                }
            }
            assert(rest.deep_view() =~= split_plus(s));
        }
        rest
    }
}

/// The chord a chord string denotes: every token must denote a key.
pub open spec fn spec_parse_binding(s: Seq<char>) -> Option<Seq<KeyView>> {
    let toks = split_plus(s);
    if forall|i: int| 0 <= i < toks.len() ==> (#[trigger] spec_token_to_key(toks[i])) is Some {
        Some(Seq::new(toks.len(), |i: int| spec_token_to_key(toks[i]).unwrap()))
    } else {
        None
    }
}

/// Parses a chord string such as `lshift+alt+b+0x18`. Returns the chord
/// exactly when every token denotes a key, and the first offending token's
/// error otherwise.
pub fn parse_binding(binding_str: &str) -> (r: Result<KeyBinding, ConfigError>)
    ensures
        match r {
            Ok(b) => spec_parse_binding(binding_str@) == Some(b.deep_view()) && b@.len() >= 1,
            Err(_) => spec_parse_binding(binding_str@) is None,
        },
{
    let chars = str_chars(binding_str);
    proof {
        assert(chars@.skip(0) =~= binding_str@);
    }
    let tokens = split_chars_from(&chars, 0);
    let ghost toks = split_plus(binding_str@);
    let mut out: KeyBinding = Vec::new();
    let n = tokens.len();
    proof {
        assert(toks.len() == n);
    }
    for i in 0..n
        invariant
            n == tokens@.len(),
            tokens.deep_view() == toks,
            toks == split_plus(binding_str@),
            out@.len() == i,
            forall|k: int|
                0 <= k < i ==> (#[trigger] spec_token_to_key(toks[k])) == Some(
                    out.deep_view()[k],
                ),
    {
        let ghost prevdv = out.deep_view();
        let ghost prevseq = out@;
        proof {
            assert(tokens.deep_view()[i as int] == tokens@[i as int].deep_view());
            assert(tokens@[i as int].deep_view() =~= tokens@[i as int]@);
            assert(toks[i as int] == tokens@[i as int]@);
        }
        match token_to_key(&tokens[i]) {
            Ok(k) => {
                out.push(k);
                proof {
                    assert forall|k2: int| 0 <= k2 < i + 1 implies (#[trigger] spec_token_to_key(
                        toks[k2],
                    )) == Some(out.deep_view()[k2]) by {
                        assert(out.deep_view()[k2] == out@[k2].deep_view());
                        if k2 < i {
                            assert(out@[k2] == prevseq[k2]);
                            assert(prevdv[k2] == prevseq[k2].deep_view());
                        }
                    }
                }
            },
            Err(e) => {
                proof {
                    assert(spec_token_to_key(toks[i as int]) is None);
                    assert(spec_parse_binding(binding_str@) is None);
                }
                return Err(e);
            },
        }
    }
    proof {
        assert(forall|i: int|
            0 <= i < toks.len() ==> (#[trigger] spec_token_to_key(toks[i])) is Some);
        let expect = Seq::new(toks.len(), |i: int| spec_token_to_key(toks[i]).unwrap());
        assert(out.deep_view() =~= expect);
        lemma_split_plus_len(binding_str@);
    }
    Ok(out)
}

/// The left/right pair an unsided modifier entry expands into.
pub open spec fn side_pair(k: KeyView) -> Option<(u32, u32)> {
    match k {
        KeyView::VirtualKey(vk) => if vk == VK_SHIFT {
            Some((VK_LSHIFT, VK_RSHIFT))
        } else if vk == VK_MENU {
            Some((VK_LMENU, VK_RMENU))
        } else if vk == VK_CONTROL {
            Some((VK_LCONTROL, VK_RCONTROL))
        } else {
            None
        },
        _ => None,
    }
}

/// One expansion step: every variant splits into a left-sided and a
/// right-sided copy at position `i`, the left copy first.
pub open spec fn expand_at(
    current: Seq<Seq<KeyView>>,
    i: int,
    left: u32,
    right: u32,
) -> Seq<Seq<KeyView>> {
    Seq::new(
        current.len() * 2,
        |k: int|
            if k % 2 == 0 {
                current[k / 2].update(i, KeyView::VirtualKey(left))
            } else {
                current[k / 2].update(i, KeyView::VirtualKey(right))
            },
    )
}

/// Expands the unsided modifiers of the chord at positions `i` and later,
/// doubling the variant list at each such position.
pub open spec fn expand_from(
    current: Seq<Seq<KeyView>>,
    chord: Seq<KeyView>,
    i: int,
) -> Seq<Seq<KeyView>>
    decreases chord.len() - i,
{
    if i < 0 || i >= chord.len() {
        current
    } else {
        match side_pair(chord[i]) {
            Some(pair) => expand_from(expand_at(current, i, pair.0, pair.1), chord, i + 1),
            None => expand_from(current, chord, i + 1),
        }
    }
}

/// All sided variants of a chord: each unsided Shift, Alt or Control entry
/// is replaced by its left and right forms, in cross product.
pub open spec fn spec_expand_modifiers(chord: Seq<KeyView>) -> Seq<Seq<KeyView>> {
    expand_from(seq![chord], chord, 0)
}

/// How many unsided modifier entries the chord has at positions `i` and
/// later.
pub open spec fn unsided_count_from(chord: Seq<KeyView>, i: int) -> nat
    decreases chord.len() - i,
{
    if i < 0 || i >= chord.len() {
        0
    } else {
        (if side_pair(chord[i]) is Some {
            1nat
        } else {
            0nat
        }) + unsided_count_from(chord, i + 1)
    }
}

/// Each remaining unsided modifier doubles the variant list.
proof fn lemma_expand_from_count(current: Seq<Seq<KeyView>>, chord: Seq<KeyView>, i: int)
    ensures
        expand_from(current, chord, i).len() == current.len() * vstd::arithmetic::power2::pow2(
            unsided_count_from(chord, i),
        ),
    decreases chord.len() - i,
{
    vstd::arithmetic::power2::lemma_pow2_pos(unsided_count_from(chord, i));
    if i < 0 || i >= chord.len() {
        assert(vstd::arithmetic::power2::pow2(0) == 1) by {
            vstd::arithmetic::power2::lemma2_to64();
        }
        assert(expand_from(current, chord, i) == current);
        assert(unsided_count_from(chord, i) == 0);
        assert(current.len() * vstd::arithmetic::power2::pow2(0) == current.len());
    } else {
        match side_pair(chord[i]) {
            Some(pair) => {
                let doubled = expand_at(current, i, pair.0, pair.1);
                assert(doubled.len() == current.len() * 2);
                lemma_expand_from_count(doubled, chord, i + 1);
                let k = unsided_count_from(chord, i + 1);
                assert(unsided_count_from(chord, i) == k + 1);
                assert(vstd::arithmetic::power2::pow2(k + 1) == 2 * vstd::arithmetic::power2::pow2(
                    k,
                )) by {
                    vstd::arithmetic::power2::lemma_pow2_unfold(k + 1);
                }
                assert((current.len() * 2) * vstd::arithmetic::power2::pow2(k) == current.len() * (
                2 * vstd::arithmetic::power2::pow2(k))) by {
                    vstd::arithmetic::mul::lemma_mul_is_associative(
                        current.len() as int,
                        2,
                        vstd::arithmetic::power2::pow2(k) as int,
                    );
                }
                assert(expand_from(current, chord, i) == expand_from(doubled, chord, i + 1));
                assert(expand_from(doubled, chord, i + 1).len() == doubled.len()
                    * vstd::arithmetic::power2::pow2(k));
                assert(expand_from(current, chord, i).len() == current.len()
                    * vstd::arithmetic::power2::pow2(k + 1));
            },
            None => {
                lemma_expand_from_count(current, chord, i + 1);
                assert(expand_from(current, chord, i) == expand_from(current, chord, i + 1));
                assert(unsided_count_from(chord, i) == unsided_count_from(chord, i + 1));
            },
        }
    }
}

/// Law: a chord with `N` unsided modifier entries expands into exactly
/// `2^N` sided variants.
pub proof fn lemma_expand_modifiers_count(chord: Seq<KeyView>)
    ensures
        spec_expand_modifiers(chord).len() == vstd::arithmetic::power2::pow2(
            unsided_count_from(chord, 0),
        ),
{
    lemma_expand_from_count(seq![chord], chord, 0);
    assert(seq![chord].len() == 1);
    assert(1 * vstd::arithmetic::power2::pow2(unsided_count_from(chord, 0))
        == vstd::arithmetic::power2::pow2(unsided_count_from(chord, 0)));
}

/// Expands every unsided modifier of the chord into its left and right
/// variants; a chord without unsided modifiers comes back as the single
/// variant. Every variant keeps the chord's length.
pub fn expand_modifiers(binding: &KeyBinding) -> (r: KeyBindings)
    ensures
        r.deep_view() == spec_expand_modifiers(binding.deep_view()),
        r@.len() >= 1,
        forall|k: int|
            0 <= k < r@.len() ==> (#[trigger] r.deep_view()[k]).len() == binding@.len(),
{
    let ghost chord = binding.deep_view();
    let mut expanded: KeyBindings = Vec::new();
    expanded.push(clone_chord(binding));
    proof {
        assert(expanded.deep_view() =~= seq![chord]);
    }
    let n = binding.len();
    for i in 0..n
        invariant
            n == binding@.len(),
            chord == binding.deep_view(),
            chord.len() == n,
            expanded@.len() >= 1,
            forall|k: int|
                0 <= k < expanded@.len() ==> (#[trigger] expanded.deep_view()[k]).len() == n,
            spec_expand_modifiers(chord) == expand_from(expanded.deep_view(), chord, i as int),
    {
        let pr: Option<(u32, u32)> = match &binding[i] {
            Key::VirtualKey(vk) => {
                if *vk == VK_SHIFT {
                    Some((VK_LSHIFT, VK_RSHIFT))
                } else if *vk == VK_MENU {
                    Some((VK_LMENU, VK_RMENU))
                } else if *vk == VK_CONTROL {
                    Some((VK_LCONTROL, VK_RCONTROL))
                } else {
                    None
                }
            },
            _ => None,
        };
        proof {
            assert(binding.deep_view()[i as int] == binding@[i as int].deep_view());
            assert(pr == side_pair(chord[i as int]));
        }
        if let Some((left, right)) = pr {
            let ghost cur = expanded.deep_view();
            let ghost target = expand_at(cur, i as int, left, right);
            let mut next: KeyBindings = Vec::new();
            let m = expanded.len();
            for c in 0..m
                invariant
                    m == expanded@.len(),
                    cur == expanded.deep_view(),
                    target == expand_at(cur, i as int, left, right),
                    i < n,
                    n == binding@.len(),
                    forall|k: int| 0 <= k < m ==> (#[trigger] cur[k]).len() == n,
                    next@.len() == 2 * c,
                    forall|k: int|
                        0 <= k < 2 * c ==> #[trigger] next.deep_view()[k] == target[k],
            {
                proof {
                    assert(expanded.deep_view()[c as int] == expanded@[c as int].deep_view());
                    assert(cur[c as int].len() == n);
                }
                let mut with_left = clone_chord(&expanded[c]);
                let mut with_right = clone_chord(&expanded[c]);
                let ghost wl0 = with_left;
                let ghost wr0 = with_right;
                with_left.set(i, Key::VirtualKey(left));
                with_right.set(i, Key::VirtualKey(right));
                proof {
                    lemma_deep_view_update(wl0, with_left, i as int, Key::VirtualKey(left));
                    lemma_deep_view_update(wr0, with_right, i as int, Key::VirtualKey(right));
                    assert(with_left.deep_view() == cur[c as int].update(
                        i as int,
                        KeyView::VirtualKey(left),
                    ));
                    assert(with_right.deep_view() == cur[c as int].update(
                        i as int,
                        KeyView::VirtualKey(right),
                    ));
                }
                let ghost prevseq = next@;
                let ghost prevdv = next.deep_view();
                let ghost wl = with_left;
                let ghost wr = with_right;
                next.push(with_left);
                next.push(with_right);
                proof {
                    assert(next@ == prevseq.push(wl).push(wr));
                    assert forall|k: int| 0 <= k < 2 * c + 2 implies #[trigger] next.deep_view()[k]
                        == target[k] by {
                        assert(next.deep_view()[k] == next@[k].deep_view());
                        if k < 2 * c {
                            assert(next@[k] == prevseq[k]);
                            assert(prevdv[k] == prevseq[k].deep_view());
                        } else if k == 2 * c {
                            assert(next@[k] == wl);
                            assert(target[k] == cur[k / 2].update(
                                i as int,
                                KeyView::VirtualKey(left),
                            ));
                        } else {
                            assert(next@[k] == wr);
                            assert(k % 2 == 1 && k / 2 == c);
                            assert(target[k] == cur[k / 2].update(
                                i as int,
                                KeyView::VirtualKey(right),
                            ));
                        }
                    }
                }
            }
            expanded = next;
            proof {
                assert(expanded.deep_view() =~= target);
                assert forall|k: int| 0 <= k < expanded@.len() implies (
                #[trigger] expanded.deep_view()[k]).len() == n by {
                    assert(expanded.deep_view()[k] == target[k]);
                    assert(target[k] == cur[k / 2].update(
                        i as int,
                        if k % 2 == 0 {
                            KeyView::VirtualKey(left)
                        } else {
                            KeyView::VirtualKey(right)
                        },
                    ));
                }
            }
        }
    }
    proof {
        assert(expand_from(expanded.deep_view(), chord, n as int) == expanded.deep_view());
    }
    expanded
}

/// The uppercase variants a chord list earns: when the emitted character is
/// lowercase, every variant that has a character entry and no Shift entry
/// gets a copy with the modifier prepended; otherwise none.
pub open spec fn spec_clone_with_modifier(
    c_lower: bool,
    bindings: Seq<Seq<KeyView>>,
    modifier: u32,
) -> Seq<Seq<KeyView>> {
    if !c_lower {
        Seq::<Seq<KeyView>>::empty()
    } else {
        bindings.filter(
            |b: Seq<KeyView>| chord_has_character(b) && !chord_has_shift(b),
        ).map_values(|b: Seq<KeyView>| seq![KeyView::VirtualKey(modifier)] + b)
    }
}

/// Whether the character is lowercase in the Unicode sense.
pub uninterp spec fn is_lowercase_char(c: char) -> bool;

/// Relies on `char::is_lowercase`: a property of the character alone.
#[verifier::external_body]
fn char_is_lowercase(c: char) -> (r: bool)
    ensures
        r == is_lowercase_char(c),
{
    c.is_lowercase()
}

/// The first character of a character's uppercase mapping.
pub uninterp spec fn upper_first_of(c: char) -> char;

/// Relies on `char::to_uppercase`: the first character of the uppercase
/// mapping, a function of the character alone.
#[verifier::external_body]
fn char_upper_first(c: char) -> (r: char)
    ensures
        r == upper_first_of(c),
{
    c.to_uppercase().next().unwrap_or(c)
}

/// For a lowercase emitted character, copies every chord that has a
/// character entry and no Shift entry, prepending the modifier; the copies
/// later register under the uppercase character.
pub fn clone_with_modifier_if_needed(
    char_to_post: char,
    bindings: &KeyBindings,
    modifier: u32,
) -> (r: KeyBindings)
    ensures
        r.deep_view() == spec_clone_with_modifier(
            is_lowercase_char(char_to_post),
            bindings.deep_view(),
            modifier,
        ),
{
    broadcast use vstd::seq_lib::group_seq_lib_default;

    let pred = |b: &KeyBinding| -> bool { true };
    let ghost sp = |b: Seq<KeyView>| chord_has_character(b) && !chord_has_shift(b);
    let ghost mp = |b: Seq<KeyView>| seq![KeyView::VirtualKey(modifier)] + b;
    let mut created: KeyBindings = Vec::new();
    if !char_is_lowercase(char_to_post) {
        proof {
            assert(created.deep_view() =~= spec_clone_with_modifier(
                false,
                bindings.deep_view(),
                modifier,
            ));
        }
        return created;
    }
    let ghost bs = bindings.deep_view();
    let n = bindings.len();
    proof {
        assert(bs.take(0) =~= Seq::<Seq<KeyView>>::empty());
        assert(bs.take(0).filter(sp) =~= Seq::<Seq<KeyView>>::empty()) by {
            reveal(Seq::filter);
        }
        assert(created.deep_view() =~= bs.take(0).filter(sp).map_values(mp));
    }
    for i in 0..n
        invariant
            n == bindings@.len(),
            bs == bindings.deep_view(),
            sp == (|b: Seq<KeyView>| chord_has_character(b) && !chord_has_shift(b)),
            mp == (|b: Seq<KeyView>| seq![KeyView::VirtualKey(modifier)] + b),
            created.deep_view() == bs.take(i as int).filter(sp).map_values(mp),
    {
        proof {
            assert(bindings.deep_view()[i as int] == bindings@[i as int].deep_view());
            assert(bs.take(i + 1).drop_last() =~= bs.take(i as int));
            assert(bs.take(i + 1).last() == bs[i as int]);
            Seq::lemma_filter_push(bs.take(i as int), bs[i as int], sp);
            assert(bs.take(i as int).push(bs[i as int]) =~= bs.take(i + 1));
        }
        let keep = bindings[i].has_character() && !bindings[i].has_shift();
        proof {
            assert(keep == sp(bs[i as int]));
        }
        if keep {
            let mut modified = clone_chord(&bindings[i]);
            let ghost m0 = modified;
            modified.insert(0, Key::VirtualKey(modifier));
            let ghost mv = modified;
            let ghost prevseq = created@;
            let ghost prevdv = created.deep_view();
            created.push(modified);
            proof {
                assert(mv@ == m0@.insert(0, Key::VirtualKey(modifier)));
                assert forall|k: int| 0 <= k < mv@.len() implies #[trigger] mv.deep_view()[k]
                    == mp(bs[i as int])[k] by {
                    assert(mv.deep_view()[k] == mv@[k].deep_view());
                    if k == 0 {
                        assert(mv@[0] == Key::VirtualKey(modifier));
                    } else {
                        assert(mv@[k] == m0@[k - 1]);
                        assert(m0.deep_view()[k - 1] == m0@[k - 1].deep_view());
                        assert(m0.deep_view()[k - 1] == bs[i as int][k - 1]);
                    }
                }
                assert(mv.deep_view() =~= mp(bs[i as int]));
                assert(created@ == prevseq.push(mv));
                assert(bs.take(i + 1).filter(sp) == bs.take(i as int).filter(sp).push(
                    bs[i as int],
                ));
                assert(bs.take(i + 1).filter(sp).map_values(mp) =~= bs.take(i as int).filter(
                    sp,
                ).map_values(mp).push(mp(bs[i as int])));
                assert forall|k: int| 0 <= k < created@.len() implies
                    #[trigger] created.deep_view()[k] == bs.take(i + 1).filter(sp).map_values(
                    mp,
                )[k] by {
                    assert(created.deep_view()[k] == created@[k].deep_view());
                    if k < prevseq.len() {
                        assert(created@[k] == prevseq[k]);
                        assert(prevdv[k] == prevseq[k].deep_view());
                    } else {
                        assert(created@[k] == mv);
                    }
                }
                assert(created.deep_view() =~= bs.take(i + 1).filter(sp).map_values(mp));
            }
        } else {
            proof {
                assert(bs.take(i + 1).filter(sp) == bs.take(i as int).filter(sp));
                assert(created.deep_view() =~= bs.take(i + 1).filter(sp).map_values(mp));
            }
        }
    }
    proof {
        assert(bs.take(n as int) =~= bs);
    }
    created
}

/// The table configuration loading produces: for each character to emit,
/// the chords that emit it, ordered by the character's code.
pub type CharKeyBindings = Vec<(BindingChar, KeyBindings)>;

/// The table's well-formedness: entries strictly ordered by character code,
/// so no character appears twice.
pub open spec fn char_map_wf(m: Seq<(char, Seq<Seq<KeyView>>)>) -> bool {
    forall|i: int, j: int|
        0 <= i < j < m.len() ==> ((#[trigger] m[i]).0 as u32) < ((#[trigger] m[j]).0 as u32)
}

/// The table after chords are added under a character: appended to the
/// character's entry, or put into a fresh entry at the ordered position.
pub open spec fn add_to_char(
    m: Seq<(char, Seq<Seq<KeyView>>)>,
    c: char,
    items: Seq<Seq<KeyView>>,
) -> Seq<(char, Seq<Seq<KeyView>>)>
    decreases m.len(),
{
    if m.len() == 0 {
        seq![(c, items)]
    } else if m[0].0 == c {
        m.update(0, (c, m[0].1 + items))
    } else if (c as u32) < (m[0].0 as u32) {
        seq![(c, items)] + m
    } else {
        seq![m[0]] + add_to_char(m.drop_first(), c, items)
    }
}

/// Relates the recursive `add_to_char` to the position the ordered scan
/// finds: an existing entry is extended in place, a missing one is inserted
/// at the scan position.
proof fn lemma_add_to_char_at(
    m: Seq<(char, Seq<Seq<KeyView>>)>,
    c: char,
    items: Seq<Seq<KeyView>>,
    pos: int,
)
    requires
        0 <= pos <= m.len(),
        forall|k: int| 0 <= k < pos ==> ((#[trigger] m[k]).0 as u32) < (c as u32),
        pos < m.len() ==> m[pos].0 == c || (c as u32) < (m[pos].0 as u32),
    ensures
        pos < m.len() && m[pos].0 == c ==> add_to_char(m, c, items) == m.update(
            pos,
            (c, m[pos].1 + items),
        ),
        !(pos < m.len() && m[pos].0 == c) ==> add_to_char(m, c, items) == m.insert(
            pos,
            (c, items),
        ),
    decreases m.len(),
{
    if m.len() == 0 {
        assert(m.insert(0, (c, items)) =~= seq![(c, items)]);
    } else if pos == 0 {
        if m[0].0 == c {
        } else {
            assert((c as u32) < (m[0].0 as u32));
            assert(m.insert(0, (c, items)) =~= seq![(c, items)] + m);
        }
    } else {
        assert((m[0].0 as u32) < (c as u32));
        assert(m[0].0 != c);
        let rest = m.drop_first();
        lemma_add_to_char_at(rest, c, items, pos - 1);
        if pos < m.len() && m[pos].0 == c {
            assert(rest[pos - 1] == m[pos]);
            assert(seq![m[0]] + rest.update(pos - 1, (c, rest[pos - 1].1 + items)) =~= m.update(
                pos,
                (c, m[pos].1 + items),
            ));
        } else {
            assert(seq![m[0]] + rest.insert(pos - 1, (c, items)) =~= m.insert(pos, (c, items)));
        }
    }
}

/// Adds chords under a character, keeping the table ordered.
fn extend_entry(map: &mut CharKeyBindings, c: char, items: KeyBindings)
    requires
        char_map_wf(old(map).deep_view()),
    ensures
        final(map).deep_view() == add_to_char(old(map).deep_view(), c, items.deep_view()),
        char_map_wf(final(map).deep_view()),
{
    let ghost m0 = map.deep_view();
    let ghost iv = items.deep_view();
    let n = map.len();
    let mut pos: usize = 0;
    while pos < n && (map[pos].0 as u32) < (c as u32)
        invariant
            n == map@.len(),
            m0 == map.deep_view(),
            pos <= n,
            forall|k: int| 0 <= k < pos ==> ((#[trigger] m0[k]).0 as u32) < (c as u32),
        decreases n - pos,
    {
        proof {
            assert(map.deep_view()[pos as int] == map@[pos as int].deep_view());
            assert(m0[pos as int].0 == map@[pos as int].0);
        }
        pos = pos + 1;
    }
    proof {
        if pos < n {
            assert(map.deep_view()[pos as int] == map@[pos as int].deep_view());
            assert(m0[pos as int].0 == map@[pos as int].0);
        }
    }
    let found_eq = pos < n && map[pos].0 == c;
    proof {
        if pos < n && !found_eq {
            assert(map@[pos as int].0 != c);
            assert((map@[pos as int].0 as u32) >= (c as u32));
            if (map@[pos as int].0 as u32) == (c as u32) {
                vstd::utf8::char_u32_cast(map@[pos as int].0, map@[pos as int].0 as u32);
                vstd::utf8::char_u32_cast(c, c as u32);
                assert(false);
            }
            assert((c as u32) < (m0[pos as int].0 as u32));
        }
        lemma_add_to_char_at(m0, c, iv, pos as int);
    }
    if found_eq {
        let ghost oldmap = *map;
        let ghost olditems = items;
        let mut items_in = items;
        map[pos].1.append(&mut items_in);
        proof {
            let ne = map@[pos as int];
            assert(map@ == oldmap@.update(pos as int, ne));
            assert(ne.0 == oldmap@[pos as int].0);
            assert(ne.1@ == oldmap@[pos as int].1@ + olditems@);
            assert forall|k: int| 0 <= k < map@.len() implies #[trigger] map.deep_view()[k]
                == add_to_char(m0, c, iv)[k] by {
                assert(map.deep_view()[k] == map@[k].deep_view());
                if k != pos {
                    assert(map@[k] == oldmap@[k]);
                    assert(m0[k] == oldmap@[k].deep_view());
                } else {
                    assert(ne.deep_view().0 == c);
                    assert forall|q: int| 0 <= q < ne.1@.len() implies
                        (#[trigger] ne.1.deep_view()[q]) == (m0[pos as int].1 + iv)[q] by {
                        assert(ne.1.deep_view()[q] == ne.1@[q].deep_view());
                        if q < oldmap@[pos as int].1@.len() {
                            assert(ne.1@[q] == oldmap@[pos as int].1@[q]);
                            assert(oldmap@[pos as int].1.deep_view()[q] == oldmap@[pos
                                as int].1@[q].deep_view());
                            assert(m0[pos as int].1[q] == oldmap@[pos as int].1.deep_view()[q]);
                        } else {
                            assert(ne.1@[q] == olditems@[q - oldmap@[pos as int].1@.len()]);
                            assert(olditems.deep_view()[q - oldmap@[pos as int].1@.len()]
                                == olditems@[q - oldmap@[pos as int].1@.len()].deep_view());
                        }
                    }
                    assert(ne.1.deep_view() =~= m0[pos as int].1 + iv);
                    assert(ne.deep_view() == (c, m0[pos as int].1 + iv));
                }
            }
            assert(map.deep_view() =~= add_to_char(m0, c, iv));
            assert(char_map_wf(map.deep_view()));
        }
    } else {
        let ghost oldmap = *map;
        let ghost newent = (c, items);
        map.insert(pos, (c, items));
        proof {
            assert(map@ == oldmap@.insert(pos as int, newent));
            assert forall|k: int| 0 <= k < map@.len() implies #[trigger] map.deep_view()[k]
                == add_to_char(m0, c, iv)[k] by {
                assert(map.deep_view()[k] == map@[k].deep_view());
                assert(add_to_char(m0, c, iv) == m0.insert(pos as int, (c, iv)));
                if k < pos {
                    assert(map@[k] == oldmap@[k]);
                    assert(m0[k] == oldmap@[k].deep_view());
                    assert(m0.insert(pos as int, (c, iv))[k] == m0[k]);
                } else if k == pos {
                    assert(map@[k] == newent);
                    assert(m0.insert(pos as int, (c, iv))[k] == (c, iv));
                } else {
                    assert(map@[k] == oldmap@[k - 1]);
                    assert(m0[k - 1] == oldmap@[k - 1].deep_view());
                    assert(m0.insert(pos as int, (c, iv))[k] == m0[k - 1]);
                }
            }
            assert(map.deep_view() =~= add_to_char(m0, c, iv));
            assert forall|x: int, y: int| 0 <= x < y < map@.len() implies ((
            #[trigger] map.deep_view()[x]).0 as u32) < ((#[trigger] map.deep_view()[y]).0
                as u32) by {
                let md = map.deep_view();
                assert(md == m0.insert(pos as int, (c, iv)));
                if y < pos {
                } else if x >= pos + 1 {
                } else if x < pos && y == pos {
                    assert(md[x] == m0[x] && md[y].0 == c);
                } else if x < pos && y > pos {
                    assert(md[x] == m0[x] && md[y] == m0[y - 1]);
                    assert((m0[x].0 as u32) < (c as u32));
                    assert(pos < m0.len() ==> (c as u32) < (m0[pos as int].0 as u32));
                } else {
                    assert(x == pos && y > pos);
                    assert(md[x].0 == c && md[y] == m0[y - 1]);
                    assert((c as u32) < (m0[pos as int].0 as u32));
                }
            }
            assert(char_map_wf(map.deep_view()));
        }
    }
}

/// The character a section name denotes: the name must be exactly one
/// character.
pub open spec fn spec_char_of_section(s: Seq<char>) -> Option<char> {
    if s.len() == 1 {
        Some(s[0])
    } else {
        None
    }
}

/// Expands each chord of the list and concatenates the variant lists in
/// order.
pub open spec fn expand_all(bs: Seq<Seq<KeyView>>) -> Seq<Seq<KeyView>>
    decreases bs.len(),
{
    if bs.len() == 0 {
        Seq::<Seq<KeyView>>::empty()
    } else {
        spec_expand_modifiers(bs[0]) + expand_all(bs.drop_first())
    }
}

/// `expand_all` distributes over appending one chord.
proof fn lemma_expand_all_push(bs: Seq<Seq<KeyView>>, x: Seq<KeyView>)
    ensures
        expand_all(bs.push(x)) == expand_all(bs) + spec_expand_modifiers(x),
    decreases bs.len(),
{
    if bs.len() == 0 {
        assert(bs.push(x)[0] == x);
        assert(bs.push(x).drop_first() =~= Seq::<Seq<KeyView>>::empty());
        assert(expand_all(Seq::<Seq<KeyView>>::empty()) =~= Seq::<Seq<KeyView>>::empty());
        assert(expand_all(bs.push(x)) == spec_expand_modifiers(x) + expand_all(
            Seq::<Seq<KeyView>>::empty(),
        ));
        assert(expand_all(bs.push(x)) =~= expand_all(bs) + spec_expand_modifiers(x));
    } else {
        assert(bs.push(x)[0] == bs[0]);
        assert(bs.push(x).drop_first() =~= bs.drop_first().push(x));
        lemma_expand_all_push(bs.drop_first(), x);
        assert(expand_all(bs.push(x)) == spec_expand_modifiers(bs[0]) + expand_all(
            bs.drop_first().push(x),
        ));
        assert(expand_all(bs) == spec_expand_modifiers(bs[0]) + expand_all(bs.drop_first()));
        assert(expand_all(bs.push(x)) =~= expand_all(bs) + spec_expand_modifiers(x));
    }
}

/// The table after one section property is processed: the chord string is
/// parsed and expanded under the section's character; when the value is
/// absent and the character is lowercase, Shift-prefixed variants of the
/// eligible chords register under the uppercase character. `None` when the
/// chord string does not parse.
pub open spec fn process_prop(
    m: Seq<(char, Seq<Seq<KeyView>>)>,
    c: char,
    key: Seq<char>,
    value: Option<Seq<char>>,
) -> Option<Seq<(char, Seq<Seq<KeyView>>)>> {
    match spec_parse_binding(key) {
        None => None,
        Some(chord) => {
            let ex = spec_expand_modifiers(chord);
            let m1 = add_to_char(m, c, ex);
            if value is None {
                let cap = spec_clone_with_modifier(is_lowercase_char(c), ex, VK_SHIFT);
                if cap.len() > 0 {
                    Some(add_to_char(m1, upper_first_of(c), expand_all(cap)))
                } else {
                    Some(m1)
                }
            } else {
                Some(m1)
            }
        },
    }
}

/// The table after a section's properties are processed in order.
pub open spec fn process_props(
    m: Seq<(char, Seq<Seq<KeyView>>)>,
    c: char,
    props: Seq<(Seq<char>, Option<Seq<char>>)>,
) -> Option<Seq<(char, Seq<Seq<KeyView>>)>>
    decreases props.len(),
{
    if props.len() == 0 {
        Some(m)
    } else {
        match process_prop(m, c, props[0].0, props[0].1) {
            None => None,
            Some(m1) => process_props(m1, c, props.drop_first()),
        }
    }
}

/// The table after all sections are processed in order.
pub open spec fn process_sections(
    m: Seq<(char, Seq<Seq<KeyView>>)>,
    conf: Seq<(Seq<char>, Seq<(Seq<char>, Option<Seq<char>>)>)>,
) -> Option<Seq<(char, Seq<Seq<KeyView>>)>>
    decreases conf.len(),
{
    if conf.len() == 0 {
        Some(m)
    } else {
        match spec_char_of_section(conf[0].0) {
            None => None,
            Some(c) => match process_props(m, c, conf[0].1) {
                None => None,
                Some(m1) => process_sections(m1, conf.drop_first()),
            },
        }
    }
}

/// The whole configuration folded into a table, starting from an empty one.
pub open spec fn spec_bindings_from_map(
    conf: Seq<(Seq<char>, Seq<(Seq<char>, Option<Seq<char>>)>)>,
) -> Option<Seq<(char, Seq<Seq<KeyView>>)>> {
    process_sections(Seq::<(char, Seq<Seq<KeyView>>)>::empty(), conf)
}

/// The remaining work of one section, as the prop loop sees it: folding the
/// remaining properties into the current table and then the remaining
/// sections must yield the configuration's overall result.
pub open spec fn section_goal(
    m: Seq<(char, Seq<Seq<KeyView>>)>,
    c: char,
    props_rest: Seq<(Seq<char>, Option<Seq<char>>)>,
    conf_rest: Seq<(Seq<char>, Seq<(Seq<char>, Option<Seq<char>>)>)>,
    conf: Seq<(Seq<char>, Seq<(Seq<char>, Option<Seq<char>>)>)>,
) -> bool {
    match process_props(m, c, props_rest) {
        Some(m1) => process_sections(m1, conf_rest) == spec_bindings_from_map(conf),
        None => spec_bindings_from_map(conf) is None,
    }
}

/// Builds the chord table from the parsed configuration: each section's
/// name is the character to emit, each property's key a chord string, and
/// an absent property value asks for the uppercase variant. Fails on the
/// first unparseable section name or chord, as configuration errors are
/// fatal at startup.
pub fn bindings_from_map(the_conf: Vec<(String, Vec<(String, Option<String>)>)>) -> (r: Result<
    CharKeyBindings,
    ConfigError,
>)
    ensures
        match r {
            Ok(m) => spec_bindings_from_map(the_conf.deep_view()) == Some(m.deep_view())
                && char_map_wf(m.deep_view()),
            Err(_) => spec_bindings_from_map(the_conf.deep_view()) is None,
        },
{
    let ghost conf = the_conf.deep_view();
    let mut bindings: CharKeyBindings = Vec::new();
    proof {
        assert(bindings.deep_view() =~= Seq::<(char, Seq<Seq<KeyView>>)>::empty());
        assert(conf.skip(0) =~= conf);
    }
    let ns = the_conf.len();
    for si in 0..ns
        invariant
            ns == the_conf@.len(),
            conf == the_conf.deep_view(),
            char_map_wf(bindings.deep_view()),
            process_sections(bindings.deep_view(), conf.skip(si as int))
                == spec_bindings_from_map(conf),
    {
        proof {
            assert(the_conf.deep_view()[si as int] == the_conf@[si as int].deep_view());
            assert(conf.skip(si as int)[0] == conf[si as int]);
            assert(conf.skip(si as int).drop_first() =~= conf.skip(si as int + 1));
        }
        let section = &the_conf[si].0;
        let prop = &the_conf[si].1;
        let ghost props = conf[si as int].1;
        if section.unicode_len() != 1 {
            proof {
                assert(spec_char_of_section(conf[si as int].0) is None);
            }
            return Err(ConfigError::BadSectionChar(section.clone()));
        }
        let char_to_post = section.get_char(0);
        proof {
            assert(spec_char_of_section(conf[si as int].0) == Some(char_to_post));
            assert(props.skip(0) =~= props);
        }
        let np = prop.len();
        for pi in 0..np
            invariant
                np == prop@.len(),
                ns == the_conf@.len(),
                si < ns,
                conf == the_conf.deep_view(),
                prop == &the_conf[si as int].1,
                props == conf[si as int].1,
                prop.deep_view() == props,
                char_map_wf(bindings.deep_view()),
                section_goal(
                    bindings.deep_view(),
                    char_to_post,
                    props.skip(pi as int),
                    conf.skip(si as int + 1),
                    conf,
                ),
        {
            proof {
                assert(prop.deep_view()[pi as int] == prop@[pi as int].deep_view());
                assert(props.skip(pi as int)[0] == props[pi as int]);
                assert(props.skip(pi as int).drop_first() =~= props.skip(pi as int + 1));
            }
            let key = &prop[pi].0;
            let value = &prop[pi].1;
            let ghost mcur = bindings.deep_view();
            let binding = match parse_binding(key.as_str()) {
                Ok(b) => b,
                Err(e) => {
                    proof {
                        assert(props[pi as int].0 == key@);
                        assert(process_prop(
                            mcur,
                            char_to_post,
                            props[pi as int].0,
                            props[pi as int].1,
                        ) is None);
                        assert(process_props(mcur, char_to_post, props.skip(pi as int)) is None);
                    }
                    return Err(e);
                },
            };
            let capitalize = value.is_none();
            proof {
                assert(props[pi as int].0 == key@);
                assert(capitalize == (props[pi as int].1 is None));
            }
            let ex = expand_modifiers(&binding);
            let ghost chord = binding.deep_view();
            let ghost exv = ex.deep_view();
            let upper: Option<KeyBindings> = if capitalize {
                let cap = clone_with_modifier_if_needed(char_to_post, &ex, VK_SHIFT);
                if cap.len() > 0 {
                    Some(cap)
                } else {
                    None
                }
            } else {
                None
            };
            extend_entry(&mut bindings, char_to_post, ex);
            let ghost m1 = bindings.deep_view();
            proof {
                assert(m1 == add_to_char(mcur, char_to_post, exv));
            }
            match upper {
                Some(cap) => {
                    let ghost capv = cap.deep_view();
                    let mut upper_expanded: KeyBindings = Vec::new();
                    proof {
                        assert(capv.take(0) =~= Seq::<Seq<KeyView>>::empty());
                        assert(upper_expanded.deep_view() =~= expand_all(capv.take(0)));
                    }
                    let nc = cap.len();
                    for ci in 0..nc
                        invariant
                            nc == cap@.len(),
                            capv == cap.deep_view(),
                            upper_expanded.deep_view() == expand_all(capv.take(ci as int)),
                    {
                        proof {
                            assert(cap.deep_view()[ci as int] == cap@[ci as int].deep_view());
                        }
                        let mut one = expand_modifiers(&cap[ci]);
                        let ghost onevec = one;
                        let ghost onev = one.deep_view();
                        let ghost oneseq = one@;
                        let ghost prevexp = upper_expanded;
                        upper_expanded.append(&mut one);
                        proof {
                            assert(upper_expanded@ == prevexp@ + oneseq);
                            assert forall|q: int| 0 <= q < upper_expanded@.len() implies
                                #[trigger] upper_expanded.deep_view()[q] == (expand_all(
                                capv.take(ci as int),
                            ) + onev)[q] by {
                                assert(upper_expanded.deep_view()[q]
                                    == upper_expanded@[q].deep_view());
                                if q < prevexp@.len() {
                                    assert(upper_expanded@[q] == prevexp@[q]);
                                    assert(prevexp.deep_view()[q] == prevexp@[q].deep_view());
                                } else {
                                    assert(upper_expanded@[q] == oneseq[q - prevexp@.len()]);
                                    assert(onevec.deep_view()[q - prevexp@.len()] == oneseq[q
                                        - prevexp@.len()].deep_view());
                                }
                            }
                            assert(upper_expanded.deep_view() =~= expand_all(capv.take(ci as int))
                                + onev);
                            lemma_expand_all_push(capv.take(ci as int), capv[ci as int]);
                            assert(capv.take(ci as int).push(capv[ci as int]) =~= capv.take(
                                ci + 1,
                            ));
                            assert(upper_expanded.deep_view() =~= expand_all(capv.take(ci + 1)));
                        }
                    }
                    proof {
                        assert(capv.take(nc as int) =~= capv);
                    }
                    let upper_char = char_upper_first(char_to_post);
                    extend_entry(&mut bindings, upper_char, upper_expanded);
                    proof {
                        assert(capv == spec_clone_with_modifier(
                            is_lowercase_char(char_to_post),
                            exv,
                            VK_SHIFT,
                        ));
                        assert(capv.len() > 0);
                        assert(bindings.deep_view() == add_to_char(
                            m1,
                            upper_first_of(char_to_post),
                            expand_all(capv),
                        ));
                        assert(process_prop(
                            mcur,
                            char_to_post,
                            props[pi as int].0,
                            props[pi as int].1,
                        ) == Some(bindings.deep_view()));
                    }
                },
                None => {
                    proof {
                        let cap = spec_clone_with_modifier(
                            is_lowercase_char(char_to_post),
                            exv,
                            VK_SHIFT,
                        );
                        if capitalize {
                            assert(cap.len() == 0);
                        }
                        assert(process_prop(
                            mcur,
                            char_to_post,
                            props[pi as int].0,
                            props[pi as int].1,
                        ) == Some(bindings.deep_view()));
                    }
                },
            }
            proof {
                assert(process_props(mcur, char_to_post, props.skip(pi as int)) == process_props(
                    bindings.deep_view(),
                    char_to_post,
                    props.skip(pi as int + 1),
                ));
            }
        }
        proof {
            assert(props.skip(np as int).len() == 0);
            assert(process_props(bindings.deep_view(), char_to_post, props.skip(np as int))
                == Some(bindings.deep_view()));
        }
    }
    proof {
        assert(conf.skip(ns as int).len() == 0);
    }
    Ok(bindings)
}

} // verus!
