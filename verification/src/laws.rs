//! Laws of the matcher: how the triggered state may change, what a repeated
//! press does, and which events can match at all.
use vstd::prelude::*;

verus! {

use crate::hotkeymanager::bucket_of;
use crate::hotkeymanager::buckets_wf;
use crate::hotkeymanager::chord_satisfied;
use crate::hotkeymanager::has_bucket;
use crate::hotkeymanager::has_match;
use crate::hotkeymanager::is_first_match;
use crate::hotkeymanager::lemma_first_match_unique;
use crate::hotkeymanager::matcher_next;
use crate::hotkeymanager::matcher_result;
use crate::hotkeymanager::spec_guard_hit;
use crate::hotkeymanager::BucketView;
use crate::keymanager::EventView;
use crate::keys::KeyView;
use crate::translate::lookup_localized;
use crate::translate::KeyPressedView;

/// Law: across one matcher step, a binding's triggered state rises only when
/// the event is a press whose pressed-key set satisfies that binding's
/// chord, and falls only on a release. Chords and bucket shapes never
/// change. Inductively: a triggered binding owes its state to a satisfied
/// press that no matching release has yet followed.
pub proof fn lemma_triggered_changes_only_on_match(
    m: Seq<BucketView>,
    ev: EventView,
    trans: Seq<KeyPressedView>,
)
    ensures
        matcher_next(m, ev, trans).len() == m.len(),
        forall|i: int|
            0 <= i < m.len() ==> (#[trigger] matcher_next(m, ev, trans)[i]).length
                == m[i].length && matcher_next(m, ev, trans)[i].bindings.len()
                == m[i].bindings.len(),
        forall|i: int, j: int|
            0 <= i < m.len() && 0 <= j < m[i].bindings.len() ==> (#[trigger] matcher_next(
                m,
                ev,
                trans,
            )[i].bindings[j]).chord == m[i].bindings[j].chord,
        forall|i: int, j: int|
            0 <= i < m.len() && 0 <= j < m[i].bindings.len() && (#[trigger] matcher_next(
                m,
                ev,
                trans,
            )[i].bindings[j]).triggered && !m[i].bindings[j].triggered ==> ev.pressing
                && chord_satisfied(m[i].bindings[j].chord, ev.matching, trans),
        forall|i: int, j: int|
            0 <= i < m.len() && 0 <= j < m[i].bindings.len() && !(#[trigger] matcher_next(
                m,
                ev,
                trans,
            )[i].bindings[j]).triggered && m[i].bindings[j].triggered ==> !ev.pressing,
{
    let next = matcher_next(m, ev, trans);
    if spec_guard_hit(m, ev) {
    } else {
        let n = ev.matching.len();
        if has_bucket(m, n) {
            let bi = bucket_of(m, n);
            let bucket = m[bi];
            if has_match(bucket.bindings, ev.matching, trans) {
                let j = choose|j: int|
                    is_first_match(bucket.bindings, ev.matching, trans, j);
                assert(is_first_match(bucket.bindings, ev.matching, trans, j));
                assert(next[bi].bindings[j].chord == m[bi].bindings[j].chord);
            }
        }
    }
}

/// Law: a press event applied twice moves the matcher to the same table a
/// single application reaches: the operating system's key repeat causes at
/// most one untriggered-to-triggered transition.
pub proof fn lemma_duplicate_press_is_idempotent(
    m: Seq<BucketView>,
    ev: EventView,
    trans: Seq<KeyPressedView>,
)
    requires
        buckets_wf(m),
        ev.pressing,
    ensures
        matcher_next(matcher_next(m, ev, trans), ev, trans) == matcher_next(m, ev, trans),
{
    let m1 = matcher_next(m, ev, trans);
    let pressed = ev.matching;
    let n = pressed.len();
    if spec_guard_hit(m, ev) {
        assert(m1 == m);
    } else {
        if has_bucket(m, n) {
            let bi = bucket_of(m, n);
            let bucket = m[bi];
            if has_match(bucket.bindings, pressed, trans) {
                let j = choose|j: int| is_first_match(bucket.bindings, pressed, trans, j);
                assert(is_first_match(bucket.bindings, pressed, trans, j));
                let b = bucket.bindings[j];
                let b2 = crate::hotkeymanager::BindingView { triggered: true, ..b };
                assert(m1 == m.update(
                    bi,
                    BucketView { length: bucket.length, bindings: bucket.bindings.update(j, b2) },
                ));
                if spec_guard_hit(m1, ev) {
                    assert(matcher_next(m1, ev, trans) == m1);
                } else {
                    assert(forall|i: int|
                        0 <= i < m1.len() ==> (#[trigger] m1[i]).length == m[i].length);
                    assert(has_bucket(m1, n)) by {
                        assert(m1[bi].length == n);
                    }
                    let bi2 = bucket_of(m1, n);
                    assert(0 <= bi2 < m1.len() && m1[bi2].length == n);
                    assert(bi2 == bi);
                    let bindings1 = m1[bi].bindings;
                    assert(forall|k: int|
                        0 <= k < bindings1.len() ==> (#[trigger] bindings1[k]).chord
                            == bucket.bindings[k].chord);
                    assert(is_first_match(bindings1, pressed, trans, j)) by {
                        assert(chord_satisfied(bindings1[j].chord, pressed, trans));
                        assert(forall|k: int|
                            0 <= k < j ==> !chord_satisfied(
                                (#[trigger] bindings1[k]).chord,
                                pressed,
                                trans,
                            ));
                    }
                    assert(has_match(bindings1, pressed, trans));
                    let j2 = choose|j2: int| is_first_match(bindings1, pressed, trans, j2);
                    lemma_first_match_unique(bindings1, pressed, trans, j2, j);
                    let b3 = crate::hotkeymanager::BindingView { triggered: true, ..bindings1[j] };
                    assert(b3 == b2);
                    assert(bindings1.update(j, b3) =~= bindings1);
                    assert(matcher_next(m1, ev, trans) == m1.update(
                        bi,
                        BucketView { length: m1[bi].length, bindings: bindings1.update(j, b3) },
                    ));
                    assert(m1.update(
                        bi,
                        BucketView { length: m1[bi].length, bindings: bindings1 },
                    ) =~= m1);
                }
            } else {
                assert(m1 == m);
            }
        } else {
            assert(m1 == m);
        }
    }
}

/// Law: a chord of one character entry is satisfied by a single held key
/// exactly when that key's localized character equals the entry.
pub proof fn lemma_single_character_chord(s: Seq<char>, vk: u32, trans: Seq<KeyPressedView>)
    ensures
        chord_satisfied(seq![KeyView::Character(s)], seq![vk], trans) <==> lookup_localized(
            trans,
            vk,
        ) == Some(s),
{
    let chord = seq![KeyView::Character(s)];
    let pressed = seq![vk];
    if lookup_localized(trans, vk) == Some(s) {
        assert(pressed[0] == vk);
        assert(crate::hotkeymanager::key_satisfied(chord[0], pressed, trans));
        assert(chord_satisfied(chord, pressed, trans));
    }
    if chord_satisfied(chord, pressed, trans) {
        assert(crate::hotkeymanager::key_satisfied(chord[0], pressed, trans));
        let i = choose|i: int|
            0 <= i < pressed.len() && lookup_localized(trans, pressed[i]) == Some(s);
        assert(pressed[i] == vk);
    }
}

/// Law: a chord made only of scancode entries is satisfied independent of
/// keyboard layout: two translation caches that map every key to the same
/// scancode (though perhaps to different characters) satisfy it on exactly
/// the same held keys.
pub proof fn lemma_scancode_chord_layout_independent(
    chord: Seq<KeyView>,
    pressed: Seq<u32>,
    t1: Seq<KeyPressedView>,
    t2: Seq<KeyPressedView>,
)
    requires
        forall|i: int| 0 <= i < chord.len() ==> (#[trigger] chord[i]) is Scancode,
        forall|vk: u32|
            #[trigger] crate::translate::lookup_scan(t1, vk) == crate::translate::lookup_scan(
                t2,
                vk,
            ),
    ensures
        chord_satisfied(chord, pressed, t1) == chord_satisfied(chord, pressed, t2),
{
    assert forall|i: int| 0 <= i < chord.len() implies (crate::hotkeymanager::key_satisfied(
        #[trigger] chord[i],
        pressed,
        t1,
    ) == crate::hotkeymanager::key_satisfied(chord[i], pressed, t2)) by {
        let sc = chord[i]->Scancode_0;
        assert forall|p: int| 0 <= p < pressed.len() implies (crate::translate::lookup_scan(
            t1,
            #[trigger] pressed[p],
        ) == sc) == (crate::translate::lookup_scan(t2, pressed[p]) == sc) by {
            assert(crate::translate::lookup_scan(t1, pressed[p])
                == crate::translate::lookup_scan(t2, pressed[p]));
        }
    }
}

/// Law: an event whose pressed-key count exceeds every configured chord
/// length matches nothing: the table is unchanged, and unless the
/// active-chord guard claims the event, the matcher reports false.
pub proof fn lemma_oversized_event_matches_nothing(
    m: Seq<BucketView>,
    ev: EventView,
    trans: Seq<KeyPressedView>,
)
    requires
        forall|i: int|
            0 <= i < m.len() ==> ((#[trigger] m[i]).length) < ev.matching.len(),
    ensures
        matcher_next(m, ev, trans) == m,
        !spec_guard_hit(m, ev) ==> !matcher_result(m, ev, trans),
{
    let n = ev.matching.len();
    assert(!has_bucket(m, n));
}

/// One matcher event: the event record and the translation cache it was
/// decided under.
pub struct MatcherEvent {
    pub ev: EventView,
    pub trans: Seq<KeyPressedView>,
}

/// The binding table after a trace of events is matched in order.
pub open spec fn run_matcher(m: Seq<BucketView>, evs: Seq<MatcherEvent>) -> Seq<BucketView>
    decreases evs.len(),
{
    if evs.len() == 0 {
        m
    } else {
        run_matcher(matcher_next(m, evs[0].ev, evs[0].trans), evs.drop_first())
    }
}

/// Law: a binding that is triggered after a trace of events, and was not
/// before, owes its state to some press event of the trace whose pressed-key
/// set satisfied the binding's chord.
pub proof fn lemma_triggered_owed_to_satisfied_press(
    m: Seq<BucketView>,
    evs: Seq<MatcherEvent>,
    i: int,
    j: int,
)
    requires
        0 <= i < m.len(),
        0 <= j < m[i].bindings.len(),
        !m[i].bindings[j].triggered,
        run_matcher(m, evs)[i].bindings[j].triggered,
    ensures
        run_matcher(m, evs).len() == m.len(),
        run_matcher(m, evs)[i].bindings.len() == m[i].bindings.len(),
        exists|k: int|
            0 <= k < evs.len() && (#[trigger] evs[k]).ev.pressing && chord_satisfied(
                m[i].bindings[j].chord,
                evs[k].ev.matching,
                evs[k].trans,
            ),
    decreases evs.len(),
{
    lemma_run_matcher_shape(m, evs);
    let m1 = matcher_next(m, evs[0].ev, evs[0].trans);
    lemma_triggered_changes_only_on_match(m, evs[0].ev, evs[0].trans);
    if m1[i].bindings[j].triggered {
        assert(evs[0].ev.pressing && chord_satisfied(
            m[i].bindings[j].chord,
            evs[0].ev.matching,
            evs[0].trans,
        ));
    } else {
        lemma_triggered_owed_to_satisfied_press(m1, evs.drop_first(), i, j);
        let k = choose|k: int|
            0 <= k < evs.drop_first().len() && (#[trigger] evs.drop_first()[k]).ev.pressing
                && chord_satisfied(
                m1[i].bindings[j].chord,
                evs.drop_first()[k].ev.matching,
                evs.drop_first()[k].trans,
            );
        assert(evs[k + 1] == evs.drop_first()[k]);
        assert(m1[i].bindings[j].chord == m[i].bindings[j].chord);
    }
}

/// A matcher trace never changes the table's shape: bucket count, bucket
/// lengths, binding counts and chords all stay.
pub proof fn lemma_run_matcher_shape(m: Seq<BucketView>, evs: Seq<MatcherEvent>)
    ensures
        run_matcher(m, evs).len() == m.len(),
        forall|i: int|
            0 <= i < m.len() ==> (#[trigger] run_matcher(m, evs)[i]).length == m[i].length
                && run_matcher(m, evs)[i].bindings.len() == m[i].bindings.len(),
        forall|i: int, j: int|
            0 <= i < m.len() && 0 <= j < m[i].bindings.len() ==> (#[trigger] run_matcher(
                m,
                evs,
            )[i].bindings[j]).chord == m[i].bindings[j].chord,
    decreases evs.len(),
{
    if evs.len() > 0 {
        let m1 = matcher_next(m, evs[0].ev, evs[0].trans);
        lemma_triggered_changes_only_on_match(m, evs[0].ev, evs[0].trans);
        lemma_run_matcher_shape(m1, evs.drop_first());
    }
}

} // verus!
