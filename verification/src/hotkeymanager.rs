//! The hotkey matcher: it stores the configured bindings in buckets indexed
//! by chord length, decides for each key event whether some binding's chord
//! is satisfied by the held keys, tracks each binding's triggered state, and
//! delivers press/release events to the binding's channels.
use vstd::prelude::*;

verus! {

use crate::channel::new_event_channel;
use crate::channel::send_event;
use crate::hook::Hook;
use crate::hook::HookError;
use crate::hook::HookMetadata;
use crate::keymanager::EventView;
use crate::keymanager::KeyboardHookMetadata;
use crate::keys::chord_has_vk_value;
use crate::keys::clone_chord;
use crate::keys::lemma_deep_view_push;
use crate::keys::lemma_deep_view_update;
use crate::keys::HasVirtualKey;
use crate::keys::is_meta_or_alt;
use crate::keys::spec_is_meta_or_alt;
use crate::keys::Key;
use crate::keys::KeyBinding;
use crate::keys::KeyView;
use crate::translate::lookup_localized;
use crate::translate::lookup_scan;
use crate::translate::KeyPressedView;
use crate::translate::TranslationCache;

/// Where a binding's press and release events go. Both variants deliver to a
/// channel; `Magic` marks the bindings whose workers synthesize key strokes,
/// `Channel` those whose consumer is the caller itself.
pub enum BindingAction {
    Channel(std::sync::mpsc::Sender<TriggeredHotkey>),
    Magic(std::sync::mpsc::Sender<TriggeredHotkey>),
}

/// One configured binding: its chord, where its press and release events go,
/// whether the stored order is meaningful (stored but not consulted by
/// matching), and whether the chord is currently triggered.
pub struct HotkeyBinding {
    pub keys: KeyBinding,
    pub on_press: BindingAction,
    pub on_release: BindingAction,
    pub ordered: bool,
    pub triggered: bool,
}

/// The mathematical value of a binding: its chord, the `ordered` mark and
/// the triggered state. The channel endpoints carry no specification.
pub struct BindingView {
    pub chord: Seq<KeyView>,
    pub ordered: bool,
    pub triggered: bool,
}

impl View for HotkeyBinding {
    type V = BindingView;

    open spec fn view(&self) -> BindingView {
        BindingView { chord: self.keys.deep_view(), ordered: self.ordered, triggered: self.triggered }
    }
}

impl DeepView for HotkeyBinding {
    type V = BindingView;

    open spec fn deep_view(&self) -> BindingView {
        self.view()
    }
}

/// What a binding's consumer receives when the binding fires: a copy of the
/// chord, the triggered state the binding had when the event fired, and the
/// keys still held once the event was applied, in insertion order.
pub struct TriggeredHotkey {
    pub chord: KeyBinding,
    pub was_triggered: bool,
    pub pressed_keys: Vec<u32>,
}

/// The bindings whose chords have one given length, in registration order.
pub struct LengthBucket {
    pub length: usize,
    pub bindings: Vec<HotkeyBinding>,
}

/// The mathematical value of a bucket.
pub struct BucketView {
    pub length: nat,
    pub bindings: Seq<BindingView>,
}

impl View for LengthBucket {
    type V = BucketView;

    open spec fn view(&self) -> BucketView {
        BucketView { length: self.length as nat, bindings: self.bindings.deep_view() }
    }
}

impl DeepView for LengthBucket {
    type V = BucketView;

    open spec fn deep_view(&self) -> BucketView {
        self.view()
    }
}

/// Whether one chord entry is satisfied by the held keys, given the
/// translation cache: a virtual-key entry needs its exact key held, a
/// character entry needs some held key whose localized character equals it,
/// a scancode entry needs some held key with that scancode.
pub open spec fn key_satisfied(k: KeyView, pressed: Seq<u32>, trans: Seq<KeyPressedView>) -> bool {
    match k {
        KeyView::VirtualKey(vk) => pressed.contains(vk),
        KeyView::Character(s) => exists|i: int|
            0 <= i < pressed.len() && lookup_localized(trans, pressed[i]) == Some(s),
        KeyView::Scancode(sc) => exists|i: int|
            0 <= i < pressed.len() && lookup_scan(trans, pressed[i]) == sc,
    }
}

/// Whether every entry of the chord is satisfied by the held keys.
pub open spec fn chord_satisfied(
    chord: Seq<KeyView>,
    pressed: Seq<u32>,
    trans: Seq<KeyPressedView>,
) -> bool {
    forall|i: int| 0 <= i < chord.len() ==> key_satisfied(#[trigger] chord[i], pressed, trans)
}

/// Whether binding `j` is the first binding of the bucket whose chord is
/// satisfied.
pub open spec fn is_first_match(
    bindings: Seq<BindingView>,
    pressed: Seq<u32>,
    trans: Seq<KeyPressedView>,
    j: int,
) -> bool {
    &&& 0 <= j < bindings.len()
    &&& chord_satisfied(bindings[j].chord, pressed, trans)
    &&& forall|k: int| 0 <= k < j ==> !chord_satisfied(#[trigger] bindings[k].chord, pressed, trans)
}

/// Whether some binding of the bucket matches.
pub open spec fn has_match(
    bindings: Seq<BindingView>,
    pressed: Seq<u32>,
    trans: Seq<KeyPressedView>,
) -> bool {
    exists|j: int| is_first_match(bindings, pressed, trans, j)
}

/// Whether some triggered binding's chord contains the given virtual key.
pub open spec fn some_triggered_with_key(m: Seq<BucketView>, vk: u32) -> bool {
    exists|i: int, j: int|
        0 <= i < m.len() && 0 <= j < m[i].bindings.len() && m[i].bindings[j].triggered
            && chord_has_vk_value(m[i].bindings[j].chord, vk)
}

/// The active-chord guard: a meta key that belongs to a triggered binding's
/// chord is swallowed while it is auto-repeated (press) and when its own
/// injected release bounces back (release + injected).
pub open spec fn spec_guard_hit(m: Seq<BucketView>, ev: EventView) -> bool {
    &&& spec_is_meta_or_alt(ev.key)
    &&& some_triggered_with_key(m, ev.key)
    &&& (ev.pressing || ev.injected)
}

/// Whether some bucket holds chords of length `n`.
pub open spec fn has_bucket(m: Seq<BucketView>, n: nat) -> bool {
    exists|i: int| 0 <= i < m.len() && m[i].length == n
}

/// The index of the bucket holding chords of length `n` (unique in a
/// well-formed table).
pub open spec fn bucket_of(m: Seq<BucketView>, n: nat) -> int {
    choose|i: int| 0 <= i < m.len() && m[i].length == n
}

/// The result the matcher reports for an event: true when the active-chord
/// guard fires, or when the bucket for the current held-key count holds a
/// matching binding.
pub open spec fn matcher_result(
    m: Seq<BucketView>,
    ev: EventView,
    trans: Seq<KeyPressedView>,
) -> bool {
    if spec_guard_hit(m, ev) {
        true
    } else {
        let n = ev.matching.len();
        has_bucket(m, n) && has_match(m[bucket_of(m, n)].bindings, ev.matching, trans)
    }
}

/// The binding table after an event: the first matching binding of the
/// event's bucket has its triggered state set for a press and cleared for a
/// release; everything else is unchanged.
pub open spec fn matcher_next(
    m: Seq<BucketView>,
    ev: EventView,
    trans: Seq<KeyPressedView>,
) -> Seq<BucketView> {
    if spec_guard_hit(m, ev) {
        m
    } else {
        let n = ev.matching.len();
        if has_bucket(m, n) {
            let bi = bucket_of(m, n);
            let bucket = m[bi];
            if has_match(bucket.bindings, ev.matching, trans) {
                let j = choose|j: int|
                    is_first_match(bucket.bindings, ev.matching, trans, j);
                let b = bucket.bindings[j];
                let b2 = BindingView { triggered: ev.pressing, ..b };
                m.update(bi, BucketView { length: bucket.length, bindings: bucket.bindings.update(j, b2) })
            } else {
                m
            }
        } else {
            m
        }
    }
}

/// The matcher. Its view is the sequence of buckets; well-formedness says
/// every chord sits in the bucket of its own length, no length has two
/// buckets, and every chord has at least one entry.
pub struct HotkeyManager {
    pub buckets: Vec<LengthBucket>,
}

impl View for HotkeyManager {
    type V = Seq<BucketView>;

    closed spec fn view(&self) -> Seq<BucketView> {
        self.buckets.deep_view()
    }
}

/// The length-bucket invariant of a binding table.
pub open spec fn buckets_wf(m: Seq<BucketView>) -> bool {
    &&& forall|i: int, j: int|
        0 <= i < m.len() && 0 <= j < m[i].bindings.len() ==> (#[trigger] m[i].bindings[j].chord).len()
            == m[i].length
    &&& forall|i: int, k: int|
        0 <= i < m.len() && 0 <= k < m.len() && i != k ==> (#[trigger] m[i].length) != (
        #[trigger] m[k].length)
    &&& forall|i: int| 0 <= i < m.len() ==> (#[trigger] m[i].length) >= 1
}

impl HotkeyBinding {
    /// Returns whether every entry of the chord is satisfied by the held
    /// keys, under the given translation cache.
    pub fn should_trigger(&self, pressed: &Vec<u32>, translations: &TranslationCache) -> (r: bool)
        ensures
            r == chord_satisfied(self@.chord, pressed@, translations@),
    {
        let n = self.keys.len();
        for i in 0..n
            invariant
                n == self.keys.len(),
                forall|k: int|
                    0 <= k < i ==> key_satisfied(#[trigger] self@.chord[k], pressed@, translations@),
        {
            let key = &self.keys[i];
            let ghost kv = self@.chord[i as int];
            proof {
                assert(kv == key@);
            }
            let ok = match key {
                Key::VirtualKey(vk) => contains_key(pressed, *vk),
                Key::Character(expected) => {
                    let mut found = false;
                    let pn = pressed.len();
                    for p in 0..pn
                        invariant
                            pn == pressed.len(),
                            kv == KeyView::Character(expected@),
                            !found ==> forall|q: int|
                                0 <= q < p ==> lookup_localized(translations@, #[trigger] pressed@[q])
                                    != Some(expected@),
                            found ==> key_satisfied(kv, pressed@, translations@),
                    {
                        if !found {
                            match translations.localized_for(pressed[p]) {
                                Some(s) => {
                                    if s.eq(expected) {
                                        proof {
                                            assert(lookup_localized(
                                                translations@,
                                                pressed@[p as int],
                                            ) == Some(expected@));
                                        }
                                        found = true;
                                    }
                                },
                                None => {},
                            }
                        }
                    }
                    found
                },
                Key::Scancode(expected_sc) => {
                    let mut found = false;
                    let pn = pressed.len();
                    for p in 0..pn
                        invariant
                            pn == pressed.len(),
                            kv == KeyView::Scancode(*expected_sc),
                            !found ==> forall|q: int|
                                0 <= q < p ==> lookup_scan(translations@, #[trigger] pressed@[q])
                                    != *expected_sc,
                            found ==> key_satisfied(kv, pressed@, translations@),
                    {
                        if !found {
                            if translations.scancode_for(pressed[p]) == *expected_sc {
                                found = true;
                            }
                        }
                    }
                    found
                },
            };
            if !ok {
                assert(!key_satisfied(self@.chord[i as int], pressed@, translations@));
                return false;
            }
        }
        true
    }
}

/// Returns whether the vector contains the key.
fn contains_key(pressed: &Vec<u32>, vk: u32) -> (r: bool)
    ensures
        r == pressed@.contains(vk),
{
    let n = pressed.len();
    for i in 0..n
        invariant
            n == pressed.len(),
            forall|j: int| 0 <= j < i ==> pressed@[j] != vk,
    {
        if pressed[i] == vk {
            return true;
        }
    }
    false
}

/// Two first matches of one bucket are the same match.
pub proof fn lemma_first_match_unique(
    bindings: Seq<BindingView>,
    pressed: Seq<u32>,
    trans: Seq<KeyPressedView>,
    j1: int,
    j2: int,
)
    requires
        is_first_match(bindings, pressed, trans, j1),
        is_first_match(bindings, pressed, trans, j2),
    ensures
        j1 == j2,
{
    if j1 < j2 {
        assert(!chord_satisfied(bindings[j1].chord, pressed, trans));
    } else if j2 < j1 {
        assert(!chord_satisfied(bindings[j2].chord, pressed, trans));
    }
}

/// The binding table after one binding is registered: appended to the bucket
/// of its chord's length, or put into a fresh bucket of that length.
pub open spec fn table_with_binding(
    m: Seq<BucketView>,
    chord: Seq<KeyView>,
    ordered: bool,
) -> Seq<BucketView> {
    let bv = BindingView { chord, ordered, triggered: false };
    if has_bucket(m, chord.len()) {
        let bi = bucket_of(m, chord.len());
        m.update(bi, BucketView { length: m[bi].length, bindings: m[bi].bindings.push(bv) })
    } else {
        m.push(BucketView { length: chord.len(), bindings: seq![bv] })
    }
}

/// Law (length buckets): registering a binding in a well-formed table keeps
/// it well-formed — every binding of chord length `n` sits in the bucket of
/// length `n` and in no other — and the new binding lands at the back of
/// its own length's bucket, existing or fresh, with every other bucket
/// untouched.
pub proof fn lemma_table_with_binding_buckets(
    m: Seq<BucketView>,
    chord: Seq<KeyView>,
    ordered: bool,
)
    requires
        buckets_wf(m),
        chord.len() >= 1,
    ensures
        buckets_wf(table_with_binding(m, chord, ordered)),
        has_bucket(table_with_binding(m, chord, ordered), chord.len()),
        ({
            let t = table_with_binding(m, chord, ordered);
            let bi = bucket_of(t, chord.len());
            let bv = BindingView { chord, ordered, triggered: false };
            &&& 0 <= bi < t.len() && t[bi].length == chord.len()
            &&& (has_bucket(m, chord.len()) ==> bi < m.len() && t[bi].bindings
                == m[bi].bindings.push(bv))
            &&& (!has_bucket(m, chord.len()) ==> bi == m.len() && t[bi].bindings == seq![bv])
            &&& forall|i: int| 0 <= i < t.len() && i != bi ==> t[i] == m[i]
        }),
{
    let t = table_with_binding(m, chord, ordered);
    let bv = BindingView { chord, ordered, triggered: false };
    let n = chord.len();
    if has_bucket(m, n) {
        let b0 = bucket_of(m, n);
        assert(0 <= b0 < m.len() && m[b0].length == n);
        assert(t == m.update(
            b0,
            BucketView { length: m[b0].length, bindings: m[b0].bindings.push(bv) },
        ));
        assert forall|i: int, j: int|
            0 <= i < t.len() && 0 <= j < t[i].bindings.len() implies (
        #[trigger] t[i].bindings[j].chord).len() == t[i].length by {
            if i == b0 {
                if j < m[b0].bindings.len() {
                    assert(t[i].bindings[j] == m[b0].bindings[j]);
                } else {
                    assert(t[i].bindings[j] == bv);
                }
            } else {
                assert(t[i] == m[i]);
            }
        }
        assert(buckets_wf(t));
        assert(has_bucket(t, n)) by {
            assert(t[b0].length == n);
        }
        let bi = bucket_of(t, n);
        assert(0 <= bi < t.len() && t[bi].length == n);
        assert(m[bi].length == n);
        assert(bi == b0);
    } else {
        assert(t == m.push(BucketView { length: n, bindings: seq![bv] }));
        assert forall|i: int, j: int|
            0 <= i < t.len() && 0 <= j < t[i].bindings.len() implies (
        #[trigger] t[i].bindings[j].chord).len() == t[i].length by {
            if i < m.len() {
                assert(t[i] == m[i]);
            } else {
                assert(t[i].bindings[j] == bv);
            }
        }
        assert forall|i: int, k: int|
            0 <= i < t.len() && 0 <= k < t.len() && i != k implies (#[trigger] t[i].length) != (
        #[trigger] t[k].length) by {
            if i < m.len() && k < m.len() {
                assert(t[i] == m[i] && t[k] == m[k]);
            } else if i < m.len() {
                assert(t[i] == m[i] && t[k].length == n);
            } else {
                assert(t[i].length == n && t[k] == m[k]);
            }
        }
        assert(buckets_wf(t));
        assert(has_bucket(t, n)) by {
            assert(t[m.len() as int].length == n);
        }
        let bi = bucket_of(t, n);
        assert(0 <= bi < t.len() && t[bi].length == n);
        if bi < m.len() {
            assert(t[bi] == m[bi]);
            assert(false);
        }
        assert(bi == m.len());
    }
}

impl HotkeyBinding {
    /// Returns whether the binding is currently triggered.
    pub fn is_triggered(&self) -> (r: bool)
        ensures
            r == self@.triggered,
    {
        self.triggered
    }

    /// Builds the snapshot a consumer receives when this binding fires: a
    /// copy of the chord, the triggered state the binding holds right now
    /// (before the transition), and the keys still held once the event is
    /// applied, in insertion order.
    fn make_snapshot(&self, metadata: &KeyboardHookMetadata) -> (r: TriggeredHotkey)
        ensures
            r.chord.deep_view() == self@.chord,
            r.was_triggered == self@.triggered,
            r.pressed_keys@ == metadata.spec_keys_after(),
    {
        TriggeredHotkey {
            chord: clone_chord(&self.keys),
            was_triggered: self.triggered,
            pressed_keys: metadata.keys_after().to_vec(),
        }
    }

    /// Fires the binding for one matched event. On a press, one snapshot
    /// (see [`Self::make_snapshot`]: the chord, the pre-transition triggered
    /// value, and the still-held keys) goes to the press channel and the
    /// binding becomes triggered. On a release, the snapshot goes to the
    /// release channel only when the binding was triggered, and the mark is
    /// cleared. The matched event is claimed either way. The deliveries
    /// themselves are channel sends, which carry no specification here; the
    /// snapshot's content is pinned by `make_snapshot`.
    fn execute_binding_actions(&mut self, metadata: &KeyboardHookMetadata) -> (r: bool)
        ensures
            final(self)@.chord == old(self)@.chord,
            final(self)@.ordered == old(self)@.ordered,
            final(self)@.triggered == metadata.spec_pressing(),
            r == true,
    {
        let snapshot = self.make_snapshot(metadata);
        if metadata.pressing() {
            match &self.on_press {
                BindingAction::Channel(tx) => {
                    let _delivered = send_event(tx, snapshot);
                },
                BindingAction::Magic(tx) => {
                    let _delivered = send_event(tx, snapshot);
                },
            }
            if !self.triggered {
                self.triggered = true;
            }
        } else {
            if self.triggered {
                match &self.on_release {
                    BindingAction::Channel(tx) => {
                        let _delivered = send_event(tx, snapshot);
                    },
                    BindingAction::Magic(tx) => {
                        let _delivered = send_event(tx, snapshot);
                    },
                }
                self.triggered = false;
            }
        }
        true
    }
}

impl HotkeyManager {
    /// The length-bucket invariant holds of the table.
    pub open spec fn wf(&self) -> bool {
        buckets_wf(self@)
    }

    /// Creates a matcher with no bindings.
    pub fn new() -> (r: Self)
        ensures
            r@ =~= Seq::<BucketView>::empty(),
            r.wf(),
    {
        HotkeyManager { buckets: Vec::new() }
    }

    /// Returns the index of the bucket for chords of length `n`, if any.
    fn find_bucket(&self, n: usize) -> (r: Option<usize>)
        ensures
            match r {
                Some(i) => i < self@.len() && self@[i as int].length == n as nat,
                None => !has_bucket(self@, n as nat),
            },
    {
        let m = self.buckets.len();
        for i in 0..m
            invariant
                m == self.buckets.len(),
                forall|k: int| 0 <= k < i ==> (#[trigger] self@[k].length) != n as nat,
        {
            if self.buckets[i].length == n {
                return Some(i);
            }
        }
        None
    }

    /// Returns whether some triggered binding's chord contains the key.
    fn any_triggered_with_key(&self, vk: u32) -> (r: bool)
        ensures
            r == some_triggered_with_key(self@, vk),
    {
        let m = self.buckets.len();
        for i in 0..m
            invariant
                m == self.buckets.len(),
                forall|i2: int, j2: int|
                    0 <= i2 < i && 0 <= j2 < self@[i2].bindings.len() ==> !((
                    #[trigger] self@[i2].bindings[j2]).triggered && chord_has_vk_value(
                        self@[i2].bindings[j2].chord,
                        vk,
                    )),
        {
            let bn = self.buckets[i].bindings.len();
            for j in 0..bn
                invariant
                    m == self.buckets.len(),
                    i < m,
                    bn == self@[i as int].bindings.len(),
                    forall|j2: int|
                        0 <= j2 < j ==> !((#[trigger] self@[i as int].bindings[j2]).triggered
                            && chord_has_vk_value(self@[i as int].bindings[j2].chord, vk)),
            {
                let b = &self.buckets[i].bindings[j];
                if b.triggered && b.keys.has_virtual_key_value(vk) {
                    proof {
                        assert(self@[i as int].bindings[j as int].triggered && chord_has_vk_value(
                            self@[i as int].bindings[j as int].chord,
                            vk,
                        ));
                    }
                    return true;
                }
            }
        }
        false
    }

    /// Registers one binding: the chord goes into the bucket of its length
    /// (created when absent), at the end of the registration order, with the
    /// triggered state clear.
    fn _add_binding(
        &mut self,
        keys: KeyBinding,
        on_press: BindingAction,
        on_release: BindingAction,
        ordered: bool,
    )
        requires
            keys@.len() >= 1,
            old(self).wf(),
        ensures
            final(self).wf(),
            final(self)@ == table_with_binding(old(self)@, keys.deep_view(), ordered),
    {
        let binding_length = keys.len();
        let ghost chord = keys.deep_view();
        let ghost bv = BindingView { chord, ordered, triggered: false };
        let ghost oldm = self@;
        let binding = HotkeyBinding { keys, on_press, on_release, ordered, triggered: false };
        proof {
            assert(binding@ == bv);
            assert(chord.len() == binding_length as nat);
        }
        match self.find_bucket(binding_length) {
            Some(i) => {
                let ghost oldbuckets = self.buckets;
                let ghost oldbucket = self.buckets@[i as int];
                self.buckets[i].bindings.push(binding);
                proof {
                    let nb = self.buckets@[i as int];
                    assert(self.buckets@ == oldbuckets@.update(i as int, nb));
                    assert(nb.bindings@ == oldbucket.bindings@.push(binding));
                    assert(nb.length == oldbucket.length);
                    lemma_deep_view_push(oldbucket.bindings, nb.bindings, binding);
                    assert(nb.deep_view() == BucketView {
                        length: oldbucket.length as nat,
                        bindings: oldbucket.bindings.deep_view().push(bv),
                    });
                    lemma_deep_view_update(oldbuckets, self.buckets, i as int, nb);
                    assert(oldm[i as int] == oldbucket.deep_view());
                    assert(bucket_of(oldm, chord.len()) == i as int) by {
                        assert(oldm[i as int].length == chord.len());
                        let c = bucket_of(oldm, chord.len());
                        assert(0 <= c < oldm.len() && oldm[c].length == chord.len());
                    }
                    assert(self@ =~= table_with_binding(oldm, chord, ordered));
                    assert forall|x: int, y: int|
                        0 <= x < self@.len() && 0 <= y < self@[x].bindings.len() implies (
                    #[trigger] self@[x].bindings[y].chord).len() == self@[x].length by {
                        if x != i as int || y < oldbucket.bindings@.len() {
                            assert(oldm[x].bindings.len() == self@[x].bindings.len() || x == i as int);
                        }
                    }
                    assert(self.wf());
                }
            },
            None => {
                let ghost oldbuckets = self.buckets;
                let mut fresh: Vec<HotkeyBinding> = Vec::new();
                fresh.push(binding);
                let bucket = LengthBucket { length: binding_length, bindings: fresh };
                proof {
                    assert(bucket.deep_view().bindings =~= seq![bv]);
                }
                self.buckets.push(bucket);
                proof {
                    lemma_deep_view_push(oldbuckets, self.buckets, bucket);
                    assert(self@ =~= table_with_binding(oldm, chord, ordered));
                    assert(self.wf());
                }
            },
        }
    }

    /// Registers a binding whose consumer is the caller: returns the
    /// receiving ends for the binding's press and release events.
    pub fn add_channel_binding(&mut self, keys: KeyBinding) -> (r: (
        std::sync::mpsc::Receiver<TriggeredHotkey>,
        std::sync::mpsc::Receiver<TriggeredHotkey>,
    ))
        requires
            keys@.len() >= 1,
            old(self).wf(),
        ensures
            final(self).wf(),
            final(self)@ == table_with_binding(old(self)@, keys.deep_view(), false),
    {
        let (on_press_tx, on_press_rx) = new_event_channel();
        let (on_release_tx, on_release_rx) = new_event_channel();
        self._add_binding(
            keys,
            BindingAction::Channel(on_press_tx),
            BindingAction::Channel(on_release_tx),
            false,
        );
        (on_press_rx, on_release_rx)
    }

    /// Registers a binding whose events feed synthesis workers: returns the
    /// receiving ends for the binding's press and release events, which the
    /// caller hands to its worker threads.
    pub fn add_magic_binding(&mut self, keys: KeyBinding, ordered: bool) -> (r: (
        std::sync::mpsc::Receiver<TriggeredHotkey>,
        std::sync::mpsc::Receiver<TriggeredHotkey>,
    ))
        requires
            keys@.len() >= 1,
            old(self).wf(),
        ensures
            final(self).wf(),
            final(self)@ == table_with_binding(old(self)@, keys.deep_view(), ordered),
    {
        let (on_press_tx, on_press_rx) = new_event_channel();
        let (on_release_tx, on_release_rx) = new_event_channel();
        self._add_binding(
            keys,
            BindingAction::Magic(on_press_tx),
            BindingAction::Magic(on_release_tx),
            ordered,
        );
        (on_press_rx, on_release_rx)
    }

    /// Decides one key event: applies the active-chord guard, then scans the
    /// bucket of the current held-key count in registration order and fires
    /// the first binding whose chord is satisfied. Returns whether the event
    /// is claimed (to be withheld from applications).
    pub fn check_and_trigger(
        &mut self,
        metadata: &KeyboardHookMetadata,
        translations: &TranslationCache,
    ) -> (r: bool)
        ensures
            old(self).wf() ==> final(self).wf(),
            old(self).wf() ==> final(self)@ == matcher_next(
                old(self)@,
                metadata.event_view(),
                translations@,
            ),
            old(self).wf() ==> r == matcher_result(old(self)@, metadata.event_view(), translations@),
    {
        let ghost ev = metadata.event_view();
        let key = metadata.key();
        if is_meta_or_alt(key) {
            let active = self.any_triggered_with_key(key);
            if active {
                if metadata.pressing() {
                    proof {
                        assert(spec_guard_hit(self@, ev));
                    }
                    return true;
                } else if metadata.injected() {
                    proof {
                        assert(spec_guard_hit(self@, ev));
                    }
                    return true;
                }
            }
        }
        proof {
            assert(!spec_guard_hit(self@, ev));
        }
        let pressed_vec = metadata.pressed_keys().to_vec();
        let n = pressed_vec.len();
        let ghost oldm = self@;
        let ghost pressed = ev.matching;
        match self.find_bucket(n) {
            None => {
                proof {
                    assert(!has_bucket(oldm, pressed.len()));
                }
                false
            },
            Some(bi) => {
                proof {
                    if self.wf() {
                        let c = bucket_of(oldm, pressed.len());
                        assert(0 <= c < oldm.len() && oldm[c].length == pressed.len());
                        assert(c == bi as int);
                    }
                }
                let bn = self.buckets[bi].bindings.len();
                let mut j: usize = 0;
                while j < bn
                    invariant
                        bi < self.buckets.len(),
                        bn == self@[bi as int].bindings.len(),
                        self@ == oldm,
                        old(self)@ == oldm,
                        pressed_vec@ == pressed,
                        pressed == ev.matching,
                        ev == metadata.event_view(),
                        !spec_guard_hit(oldm, ev),
                        has_bucket(oldm, pressed.len()),
                        oldm[bi as int].length == pressed.len(),
                        buckets_wf(oldm) ==> bucket_of(oldm, pressed.len()) == bi as int,
                        j <= bn,
                        forall|k: int|
                            0 <= k < j ==> !chord_satisfied(
                                (#[trigger] self@[bi as int].bindings[k]).chord,
                                pressed,
                                translations@,
                            ),
                    decreases bn - j,
                {
                    let hit = self.buckets[bi].bindings[j].should_trigger(
                        &pressed_vec,
                        translations,
                    );
                    if hit {
                        proof {
                            assert(is_first_match(
                                oldm[bi as int].bindings,
                                pressed,
                                translations@,
                                j as int,
                            ));
                        }
                        let ghost oldbuckets = self.buckets;
                        let ghost oldbucket = self.buckets@[bi as int];
                        let claimed = self.buckets[bi].bindings[j].execute_binding_actions(
                            metadata,
                        );
                        proof {
                            let nb = self.buckets@[bi as int];
                            let newb = nb.bindings@[j as int];
                            assert(self.buckets@ == oldbuckets@.update(bi as int, nb));
                            assert(nb.bindings@ == oldbucket.bindings@.update(j as int, newb));
                            assert(nb.length == oldbucket.length);
                            lemma_deep_view_update(oldbucket.bindings, nb.bindings, j as int, newb);
                            lemma_deep_view_update(oldbuckets, self.buckets, bi as int, nb);
                            assert(oldm[bi as int] == oldbucket.deep_view());
                            assert(oldm[bi as int].bindings[j as int] == oldbucket.bindings@[j
                                as int].deep_view());
                            if buckets_wf(oldm) {
                                let jj = choose|jj: int|
                                    is_first_match(
                                        oldm[bi as int].bindings,
                                        pressed,
                                        translations@,
                                        jj,
                                    );
                                lemma_first_match_unique(
                                    oldm[bi as int].bindings,
                                    pressed,
                                    translations@,
                                    jj,
                                    j as int,
                                );
                                assert(newb.deep_view() == BindingView {
                                    triggered: ev.pressing,
                                    ..oldm[bi as int].bindings[j as int]
                                });
                                assert(nb.bindings.deep_view() =~= oldm[bi as int].bindings.update(
                                    j as int,
                                    newb.deep_view(),
                                ));
                                assert(nb.deep_view() == BucketView {
                                    length: oldm[bi as int].length,
                                    bindings: oldm[bi as int].bindings.update(
                                        j as int,
                                        newb.deep_view(),
                                    ),
                                });
                                assert(self@ =~= matcher_next(oldm, ev, translations@));
                                assert(buckets_wf(self@));
                            }
                        }
                        return claimed;
                    }
                    j = j + 1;
                }
                proof {
                    if buckets_wf(oldm) {
                        assert(!has_match(oldm[bi as int].bindings, pressed, translations@));
                    }
                }
                false
            },
        }
    }
}

impl Hook for HotkeyManager {
    open spec fn spec_wf(&self) -> bool {
        self.wf()
    }

    open spec fn spec_claims(&self, ev: EventView, trans: Seq<KeyPressedView>) -> bool {
        matcher_result(self@, ev, trans)
    }

    fn call(&mut self, extra: &KeyboardHookMetadata, translations: &TranslationCache) -> (r: Result<
        bool,
        HookError,
    >) {
        Ok(self.check_and_trigger(extra, translations))
    }
}

} // verus!
