//! The pressed-key tracker: it owns the set of currently-held virtual keys,
//! applies each key event to that set, and dispatches the event to the
//! registered hooks in registration order until one claims it.
use vstd::prelude::*;

verus! {

use crate::hook::Hook;
use crate::hook::HookMetadata;
use crate::keys::VIRTUAL_KEY;
use crate::pressed::PressedKeys;
use crate::translate::KeyPressedView;
use crate::translate::TranslationCache;

/// The record describing one key event, handed to every hook: the key, the
/// software-injection flag, and snapshots of the pressed-key set after and
/// before the event was applied.
pub enum KeyboardHookMetadata {
    Press {
        key: VIRTUAL_KEY,
        injected: bool,
        pressed_keys: PressedKeys,
        pressed_keys_before_hook: PressedKeys,
    },
    Release {
        key: VIRTUAL_KEY,
        injected: bool,
        pressed_keys: PressedKeys,
        pressed_keys_before_hook: PressedKeys,
    },
}

impl KeyboardHookMetadata {
    /// The pressed-key set a matcher should test chords against: for a press
    /// the set with the event's key applied, for a release the set as it was
    /// while the key was still held.
    pub open spec fn spec_matching_keys(&self) -> Seq<u32> {
        match self {
            KeyboardHookMetadata::Press { pressed_keys, .. } => pressed_keys@,
            KeyboardHookMetadata::Release { pressed_keys_before_hook, .. }
                => pressed_keys_before_hook@,
        }
    }

    /// The keys still held once the event is applied.
    pub open spec fn spec_keys_after(&self) -> Seq<u32> {
        match self {
            KeyboardHookMetadata::Press { pressed_keys, .. } => pressed_keys@,
            KeyboardHookMetadata::Release { pressed_keys, .. } => pressed_keys@,
        }
    }

    /// Returns the pressed-key set a matcher should test chords against (see
    /// [`Self::spec_matching_keys`]).
    pub fn pressed_keys(&self) -> (r: &PressedKeys)
        ensures
            r@ == self.spec_matching_keys(),
    {
        match self {
            KeyboardHookMetadata::Press { pressed_keys, .. } => pressed_keys,
            KeyboardHookMetadata::Release { pressed_keys_before_hook, .. } => {
                pressed_keys_before_hook
            },
        }
    }

    /// Returns the keys still held once the event is applied.
    pub fn keys_after(&self) -> (r: &PressedKeys)
        ensures
            r@ == self.spec_keys_after(),
    {
        match self {
            KeyboardHookMetadata::Press { pressed_keys, .. } => pressed_keys,
            KeyboardHookMetadata::Release { pressed_keys, .. } => pressed_keys,
        }
    }
}

/// The observable content of one key event, as the matcher and the hooks
/// see it: the key, the phase, the injection flag, and the pressed-key set
/// chords are tested against.
pub struct EventView {
    pub key: u32,
    pub pressing: bool,
    pub injected: bool,
    pub matching: Seq<u32>,
}

impl KeyboardHookMetadata {
    /// The event's observable content.
    pub open spec fn event_view(&self) -> EventView {
        EventView {
            key: self.spec_key(),
            pressing: self.spec_pressing(),
            injected: self.spec_injected(),
            matching: self.spec_matching_keys(),
        }
    }
}

impl HookMetadata for KeyboardHookMetadata {
    open spec fn spec_key(&self) -> u32 {
        match self {
            KeyboardHookMetadata::Press { key, .. } => *key,
            KeyboardHookMetadata::Release { key, .. } => *key,
        }
    }

    open spec fn spec_pressing(&self) -> bool {
        self is Press
    }

    open spec fn spec_injected(&self) -> bool {
        match self {
            KeyboardHookMetadata::Press { injected, .. } => *injected,
            KeyboardHookMetadata::Release { injected, .. } => *injected,
        }
    }

    fn key(&self) -> (r: u32) {
        match self {
            KeyboardHookMetadata::Press { key, .. } => *key,
            KeyboardHookMetadata::Release { key, .. } => *key,
        }
    }

    fn pressing(&self) -> (r: bool) {
        match self {
            KeyboardHookMetadata::Press { .. } => true,
            KeyboardHookMetadata::Release { .. } => false,
        }
    }

    fn releasing(&self) -> (r: bool) {
        match self {
            KeyboardHookMetadata::Press { .. } => false,
            KeyboardHookMetadata::Release { .. } => true,
        }
    }

    fn injected(&self) -> (r: bool) {
        match self {
            KeyboardHookMetadata::Press { injected, .. } => *injected,
            KeyboardHookMetadata::Release { injected, .. } => *injected,
        }
    }
}

/// The process-wide pressed-key tracker: the held-key set plus the list of
/// registered hooks. Its view is the held keys in insertion order.
pub struct KeyManager<H: Hook> {
    pressed: PressedKeys,
    hooks: Vec<H>,
}

impl<H: Hook> View for KeyManager<H> {
    type V = Seq<u32>;

    closed spec fn view(&self) -> Seq<u32> {
        self.pressed@
    }
}

impl<H: Hook> KeyManager<H> {
    /// The held-key set never holds a key twice.
    pub open spec fn wf(&self) -> bool {
        self@.no_duplicates()
    }

    /// The registered hooks, in registration order.
    pub closed spec fn spec_hooks(&self) -> Seq<H> {
        self.hooks@
    }

    /// How many hooks are registered.
    pub open spec fn num_hooks(&self) -> nat {
        self.spec_hooks().len()
    }

    /// Every registered hook is well-formed; the dispatch result is pinned
    /// only under this.
    pub open spec fn hooks_wf(&self) -> bool {
        forall|k: int| 0 <= k < self.spec_hooks().len() ==> (#[trigger] self.spec_hooks()[k]).spec_wf()
    }

    /// Whether some registered hook claims the event.
    pub open spec fn some_hook_claims(&self, ev: EventView, trans: Seq<KeyPressedView>) -> bool {
        exists|k: int|
            0 <= k < self.spec_hooks().len() && (#[trigger] self.spec_hooks()[k]).spec_claims(
                ev,
                trans,
            )
    }

    /// Returns the registered hooks, in registration order.
    pub fn hooks(&self) -> (r: &Vec<H>)
        ensures
            r@ == self.spec_hooks(),
    {
        &self.hooks
    }

    /// Builds a tracker around an existing (normally empty) key set, with no
    /// hooks registered.
    pub fn with_storage(storage: PressedKeys) -> (r: Self)
        ensures
            r@ == storage@,
            r.num_hooks() == 0,
            r.hooks_wf(),
    {
        KeyManager { pressed: storage, hooks: Vec::new() }
    }

    /// Appends a hook; hooks run in registration order.
    pub fn add_hook(&mut self, hook: H)
        ensures
            final(self)@ == old(self)@,
            final(self).spec_hooks() == old(self).spec_hooks().push(hook),
            old(self).hooks_wf() && hook.spec_wf() ==> final(self).hooks_wf(),
    {
        self.hooks.push(hook);
        proof {
            if old(self).hooks_wf() && hook.spec_wf() {
                assert forall|k: int| 0 <= k < self.spec_hooks().len() implies (
                #[trigger] self.spec_hooks()[k]).spec_wf() by {
                    if k < old(self).spec_hooks().len() {
                        assert(self.spec_hooks()[k] == old(self).spec_hooks()[k]);
                    } else {
                        assert(self.spec_hooks()[k] == hook);
                    }
                }
            }
        }
    }

    /// Returns the held keys, in insertion order.
    pub fn dump(&self) -> (r: &PressedKeys)
        ensures
            r@ == self@,
    {
        &self.pressed
    }

    /// Runs the hooks in order on one event until one claims it; a hook
    /// error counts as "not claimed" and the chain goes on. Only the hooks'
    /// own state changes. With every hook well-formed, the result is exactly
    /// "some hook claims the event", each hook judged on the state it had
    /// when the dispatch began.
    fn run_hooks(&mut self, metadata: &KeyboardHookMetadata, translations: &TranslationCache) -> (suppress: bool)
        ensures
            final(self)@ == old(self)@,
            final(self).num_hooks() == old(self).num_hooks(),
            old(self).num_hooks() == 0 ==> !suppress,
            old(self).hooks_wf() ==> suppress == old(self).some_hook_claims(
                metadata.event_view(),
                translations@,
            ),
            old(self).hooks_wf() ==> final(self).hooks_wf(),
    {
        let n = self.hooks.len();
        let mut i: usize = 0;
        while i < n
            invariant
                i <= n,
                n == self.hooks.len(),
                self@ == old(self)@,
                self.num_hooks() == old(self).num_hooks(),
                forall|k: int| i <= k < n ==> self.spec_hooks()[k] == old(self).spec_hooks()[k],
                old(self).hooks_wf() ==> self.hooks_wf(),
                old(self).hooks_wf() ==> forall|k: int|
                    0 <= k < i ==> !(#[trigger] old(self).spec_hooks()[k]).spec_claims(
                        metadata.event_view(),
                        translations@,
                    ),
            decreases n - i,
        {
            let ghost pre_hook = self.spec_hooks()[i as int];
            let r = self.hooks[i].call(metadata, translations);
            let claimed = match r {
                Ok(b) => b,
                Err(_) => false,
            };
            proof {
                if old(self).hooks_wf() {
                    assert(pre_hook == old(self).spec_hooks()[i as int]);
                    assert(pre_hook.spec_wf());
                    assert(r == Ok::<bool, crate::hook::HookError>(
                        pre_hook.spec_claims(metadata.event_view(), translations@),
                    ));
                    assert(claimed == pre_hook.spec_claims(metadata.event_view(), translations@));
                    assert forall|k: int| 0 <= k < self.spec_hooks().len() implies (
                    #[trigger] self.spec_hooks()[k]).spec_wf() by {
                        if k != i as int {
                            assert(self.spec_hooks()[k] == old(self).spec_hooks()[k]
                                || self.spec_hooks()[k].spec_wf());
                        }
                    }
                }
            }
            if claimed {
                proof {
                    if old(self).hooks_wf() {
                        assert(old(self).some_hook_claims(metadata.event_view(), translations@));
                    }
                }
                return true;
            }
            i = i + 1;
        }
        false
    }

    /// Two trackers with the same hooks judge events alike and are alike
    /// well-formed.
    proof fn lemma_same_hooks(a: Self, b: Self, ev: EventView, trans: Seq<KeyPressedView>)
        requires
            a.spec_hooks() == b.spec_hooks(),
        ensures
            a.some_hook_claims(ev, trans) == b.some_hook_claims(ev, trans),
            a.hooks_wf() == b.hooks_wf(),
    {
        if a.some_hook_claims(ev, trans) {
            let k = choose|k: int|
                0 <= k < a.spec_hooks().len() && (#[trigger] a.spec_hooks()[k]).spec_claims(
                    ev,
                    trans,
                );
            assert(b.spec_hooks()[k].spec_claims(ev, trans));
        }
        if b.some_hook_claims(ev, trans) {
            let k = choose|k: int|
                0 <= k < b.spec_hooks().len() && (#[trigger] b.spec_hooks()[k]).spec_claims(
                    ev,
                    trans,
                );
            assert(a.spec_hooks()[k].spec_claims(ev, trans));
        }
        if a.hooks_wf() {
            assert forall|k: int| 0 <= k < b.spec_hooks().len() implies (
            #[trigger] b.spec_hooks()[k]).spec_wf() by {
                assert(a.spec_hooks()[k].spec_wf());
            }
        }
        if b.hooks_wf() {
            assert forall|k: int| 0 <= k < a.spec_hooks().len() implies (
            #[trigger] a.spec_hooks()[k]).spec_wf() by {
                assert(b.spec_hooks()[k].spec_wf());
            }
        }
    }

    /// Applies a key press: snapshots the held keys, inserts the key (a key
    /// already held stays where it is), and dispatches a press event to the
    /// hooks in registration order, stopping at the first that claims it.
    /// Returns whether some hook claimed the event (the caller must then
    /// withhold it from applications); with every hook well-formed, that is
    /// exactly whether some hook claims the press event whose matching set
    /// is the updated held-key set.
    pub fn keydown(
        &mut self,
        key: VIRTUAL_KEY,
        injected: bool,
        translations: &TranslationCache,
    ) -> (suppress: bool)
        ensures
            final(self)@ == apply_press(old(self)@, key),
            old(self)@.contains(key) ==> final(self)@ == old(self)@,
            !old(self)@.contains(key) ==> final(self)@ == old(self)@.push(key),
            old(self).wf() ==> final(self).wf(),
            final(self).num_hooks() == old(self).num_hooks(),
            old(self).num_hooks() == 0 ==> !suppress,
            old(self).hooks_wf() ==> final(self).hooks_wf(),
            old(self).hooks_wf() ==> suppress == old(self).some_hook_claims(
                (EventView {
                    key,
                    pressing: true,
                    injected,
                    matching: apply_press(old(self)@, key),
                }),
                translations@,
            ),
    {
        let old_pressed = self.pressed.snapshot();
        self.pressed.insert(key);
        let after = self.pressed.snapshot();
        proof {
            assert(after@ == apply_press(old(self)@, key));
        }
        let metadata = KeyboardHookMetadata::Press {
            key,
            injected,
            pressed_keys: after,
            pressed_keys_before_hook: old_pressed,
        };
        proof {
            assert(metadata.event_view() == (EventView {
                key,
                pressing: true,
                injected,
                matching: apply_press(old(self)@, key),
            }));
        }
        let ghost mid = *self;
        let suppress = self.run_hooks(&metadata, translations);
        proof {
            assert(mid.spec_hooks() == old(self).spec_hooks());
            Self::lemma_same_hooks(mid, *old(self), metadata.event_view(), translations@);
        }
        suppress
    }

    /// Applies a key release: snapshots the held keys, removes the key
    /// (releasing an absent key is allowed), and dispatches a release event
    /// to the hooks in registration order, stopping at the first that claims
    /// it. Returns whether some hook claimed the event; with every hook
    /// well-formed, that is exactly whether some hook claims the release
    /// event whose matching set is the held-key set as it was before the
    /// release.
    pub fn keyup(
        &mut self,
        key: VIRTUAL_KEY,
        injected: bool,
        translations: &TranslationCache,
    ) -> (suppress: bool)
        ensures
            final(self)@ == old(self)@.remove_value(key),
            old(self).wf() ==> final(self).wf(),
            final(self).num_hooks() == old(self).num_hooks(),
            old(self).num_hooks() == 0 ==> !suppress,
            old(self).hooks_wf() ==> final(self).hooks_wf(),
            old(self).hooks_wf() ==> suppress == old(self).some_hook_claims(
                (EventView { key, pressing: false, injected, matching: old(self)@ }),
                translations@,
            ),
    {
        let old_pressed = self.pressed.snapshot();
        self.pressed.remove(key);
        let after = self.pressed.snapshot();
        let metadata = KeyboardHookMetadata::Release {
            key,
            injected,
            pressed_keys: after,
            pressed_keys_before_hook: old_pressed,
        };
        proof {
            assert(metadata.event_view() == (EventView {
                key,
                pressing: false,
                injected,
                matching: old(self)@,
            }));
        }
        let ghost mid = *self;
        let suppress = self.run_hooks(&metadata, translations);
        proof {
            assert(mid.spec_hooks() == old(self).spec_hooks());
            Self::lemma_same_hooks(mid, *old(self), metadata.event_view(), translations@);
        }
        suppress
    }
}

/// The OS hook message codes for key events.
pub const WM_KEYDOWN: u32 = 256;

/// The OS hook message code for a key release.
pub const WM_KEYUP: u32 = 257;

/// The OS hook message code for a system key press (a key pressed while Alt
/// is held).
pub const WM_SYSKEYDOWN: u32 = 260;

/// The OS hook message code for a system key release.
pub const WM_SYSKEYUP: u32 = 261;

/// The bit the OS sets in a hook event's flags when the event was generated
/// by software.
pub const LLKHF_INJECTED_FLAG: u32 = 0x10;

/// A hook message classified: a key going down or a key going up.
#[derive(Clone, Copy, Debug, PartialEq, Eq, Structural)]
pub enum KeyEventKind {
    Down,
    Up,
}

/// How a hook message code classifies: ordinary and system presses are
/// presses, ordinary and system releases are releases, everything else is
/// not a key event.
pub open spec fn spec_classify_message(w_param: u32) -> Option<KeyEventKind> {
    if w_param == WM_KEYDOWN || w_param == WM_SYSKEYDOWN {
        Some(KeyEventKind::Down)
    } else if w_param == WM_KEYUP || w_param == WM_SYSKEYUP {
        Some(KeyEventKind::Up)
    } else {
        None
    }
}

/// Classifies a hook message code.
pub fn classify_message(w_param: u32) -> (r: Option<KeyEventKind>)
    ensures
        r == spec_classify_message(w_param),
{
    if w_param == WM_KEYDOWN || w_param == WM_SYSKEYDOWN {
        Some(KeyEventKind::Down)
    } else if w_param == WM_KEYUP || w_param == WM_SYSKEYUP {
        Some(KeyEventKind::Up)
    } else {
        None
    }
}

/// The held-key set after one press is applied: an absent key is appended,
/// a held key stays where it is.
pub open spec fn apply_press(s: Seq<u32>, vk: u32) -> Seq<u32> {
    if s.contains(vk) {
        s
    } else {
        s.push(vk)
    }
}

/// The held-key set after one release is applied: the key is removed,
/// keeping the order of the rest; releasing an absent key changes nothing.
pub open spec fn apply_release(s: Seq<u32>, vk: u32) -> Seq<u32> {
    s.remove_value(vk)
}

/// One key event of a trace: the kind and the virtual key.
pub struct KeyEvent {
    pub kind: KeyEventKind,
    pub vk: u32,
}

/// The held-key set after a trace of events is applied in order.
pub open spec fn run_events(s: Seq<u32>, events: Seq<KeyEvent>) -> Seq<u32>
    decreases events.len(),
{
    if events.len() == 0 {
        s
    } else {
        let s2 = if events[0].kind is Down {
            apply_press(s, events[0].vk)
        } else {
            apply_release(s, events[0].vk)
        };
        run_events(s2, events.drop_first())
    }
}

/// Whether the trace leaves the key held: some press of it is not followed
/// by any later release of it.
pub open spec fn held_after(events: Seq<KeyEvent>, vk: u32) -> bool {
    exists|i: int|
        0 <= i < events.len() && events[i] == (KeyEvent { kind: KeyEventKind::Down, vk })
            && forall|j: int|
            i < j < events.len() ==> (#[trigger] events[j]) != (KeyEvent {
                kind: KeyEventKind::Up,
                vk,
            })
}

/// Law: for any trace of press and release events applied to an initially
/// empty tracker, a key is held at the end exactly when the trace pressed it
/// without releasing it afterwards; and the held-key set stays free of
/// duplicates.
pub proof fn lemma_pressed_set_is_pressed_not_released(events: Seq<KeyEvent>)
    ensures
        forall|vk: u32|
            #[trigger] run_events(Seq::<u32>::empty(), events).contains(vk) == held_after(
                events,
                vk,
            ),
        run_events(Seq::<u32>::empty(), events).no_duplicates(),
{
    lemma_run_events_general(Seq::<u32>::empty(), events);
}

/// The inductive core: starting from any duplicate-free set, a key is held
/// after the trace exactly when the trace leaves it held, or it was held
/// before and the trace never releases it.
proof fn lemma_run_events_general(s: Seq<u32>, events: Seq<KeyEvent>)
    requires
        s.no_duplicates(),
    ensures
        forall|vk: u32|
            #[trigger] run_events(s, events).contains(vk) == (held_after(events, vk) || (
            s.contains(vk) && forall|j: int|
                0 <= j < events.len() ==> (#[trigger] events[j]) != (KeyEvent {
                    kind: KeyEventKind::Up,
                    vk,
                }))),
        run_events(s, events).no_duplicates(),
    decreases events.len(),
{
    if events.len() == 0 {
    } else {
        let e = events[0];
        let rest = events.drop_first();
        let s2 = if e.kind is Down {
            apply_press(s, e.vk)
        } else {
            apply_release(s, e.vk)
        };
        if e.kind is Down {
            if !s.contains(e.vk) {
                crate::pressed::lemma_push_no_duplicates(s, e.vk);
            }
        } else {
            crate::pressed::lemma_remove_value_no_duplicates(s, e.vk);
        }
        lemma_run_events_general(s2, rest);
        assert forall|vk: u32| #[trigger] run_events(s, events).contains(vk) implies (held_after(
            events,
            vk,
        ) || (s.contains(vk) && forall|j: int|
            0 <= j < events.len() ==> (#[trigger] events[j]) != (KeyEvent {
                kind: KeyEventKind::Up,
                vk,
            }))) by {
            assert(run_events(s, events) == run_events(s2, rest));
            if held_after(rest, vk) {
                let i = choose|i: int|
                    0 <= i < rest.len() && rest[i] == (KeyEvent { kind: KeyEventKind::Down, vk })
                        && forall|j: int|
                        i < j < rest.len() ==> (#[trigger] rest[j]) != (KeyEvent {
                            kind: KeyEventKind::Up,
                            vk,
                        });
                assert(events[i + 1] == (KeyEvent { kind: KeyEventKind::Down, vk }));
                assert forall|j: int| i + 1 < j < events.len() implies (#[trigger] events[j]) != (
                KeyEvent { kind: KeyEventKind::Up, vk }) by {
                    assert(rest[j - 1] == events[j]);
                }
                assert(held_after(events, vk));
            } else {
                assert(s2.contains(vk) && forall|j: int|
                    0 <= j < rest.len() ==> (#[trigger] rest[j]) != (KeyEvent {
                        kind: KeyEventKind::Up,
                        vk,
                    }));
                if e.kind is Down && vk == e.vk {
                    assert(events[0] == (KeyEvent { kind: KeyEventKind::Down, vk }));
                    assert forall|j: int| 0 < j < events.len() implies (#[trigger] events[j]) != (
                    KeyEvent { kind: KeyEventKind::Up, vk }) by {
                        assert(rest[j - 1] == events[j]);
                    }
                    assert(held_after(events, vk));
                } else {
                    if e.kind is Down {
                        assert(s2 == apply_press(s, e.vk));
                        assert(s.contains(vk)) by {
                            if !s.contains(e.vk) {
                                let i = choose|i: int| 0 <= i < s2.len() && s2[i] == vk;
                                assert(i < s.len());
                            }
                        }
                    } else {
                        assert(s2 == s.remove_value(e.vk));
                        crate::pressed::lemma_remove_value_no_duplicates(s, e.vk);
                        assert(vk != e.vk ==> s.contains(vk)) by {
                            if vk != e.vk {
                                assert(s2.contains(vk) == s.contains(vk));
                            }
                        }
                        if vk == e.vk {
                            assert(!s2.contains(vk));
                            assert(false);
                        }
                    }
                    assert forall|j: int| 0 <= j < events.len() implies (#[trigger] events[j]) != (
                    KeyEvent { kind: KeyEventKind::Up, vk }) by {
                        if j == 0 {
                            if e.kind is Up {
                                assert(vk != e.vk);
                            }
                        } else {
                            assert(rest[j - 1] == events[j]);
                        }
                    }
                }
            }
        }
        assert forall|vk: u32| (held_after(events, vk) || (s.contains(vk) && forall|j: int|
            0 <= j < events.len() ==> (#[trigger] events[j]) != (KeyEvent {
                kind: KeyEventKind::Up,
                vk,
            }))) implies #[trigger] run_events(s, events).contains(vk) by {
            assert(run_events(s, events) == run_events(s2, rest));
            if held_after(events, vk) {
                let i = choose|i: int|
                    0 <= i < events.len() && events[i] == (KeyEvent {
                        kind: KeyEventKind::Down,
                        vk,
                    }) && forall|j: int|
                        i < j < events.len() ==> (#[trigger] events[j]) != (KeyEvent {
                            kind: KeyEventKind::Up,
                            vk,
                        });
                if i == 0 {
                    assert(s2.contains(vk)) by {
                        assert(e == (KeyEvent { kind: KeyEventKind::Down, vk }));
                        if !s.contains(vk) {
                            assert(s2 == s.push(vk));
                            assert(s2[s.len() as int] == vk);
                        }
                    }
                    assert forall|j: int| 0 <= j < rest.len() implies (#[trigger] rest[j]) != (
                    KeyEvent { kind: KeyEventKind::Up, vk }) by {
                        assert(events[j + 1] == rest[j]);
                    }
                } else {
                    assert(rest[i - 1] == (KeyEvent { kind: KeyEventKind::Down, vk }));
                    assert forall|j: int| i - 1 < j < rest.len() implies (#[trigger] rest[j]) != (
                    KeyEvent { kind: KeyEventKind::Up, vk }) by {
                        assert(events[j + 1] == rest[j]);
                    }
                    assert(held_after(rest, vk));
                }
            } else {
                assert(s.contains(vk));
                assert(events[0] != (KeyEvent { kind: KeyEventKind::Up, vk }));
                assert(s2.contains(vk)) by {
                    if e.kind is Down {
                        if s.contains(e.vk) {
                        } else {
                            let i = choose|i: int| 0 <= i < s.len() && s[i] == vk;
                            assert(s.push(e.vk)[i] == vk);
                        }
                    } else {
                        assert(vk != e.vk);
                        crate::pressed::lemma_remove_value_no_duplicates(s, e.vk);
                    }
                }
                assert forall|j: int| 0 <= j < rest.len() implies (#[trigger] rest[j]) != (
                KeyEvent { kind: KeyEventKind::Up, vk }) by {
                    assert(events[j + 1] == rest[j]);
                }
            }
        }
    }
}

/// The front end of the OS keyboard hook, as a decision on plain values: an
/// event outside the action code, an event carrying our own sentinel
/// extra-info, and a message that is no key event are all dropped without
/// touching the tracker; everything else is applied as a press or release,
/// and the caller withholds the event from applications exactly when the
/// dispatch claimed it. Law: an event tagged with the sentinel leaves the
/// pressed-key set unchanged and is never claimed.
pub fn process_hook_event<H: Hook>(
    manager: &mut KeyManager<H>,
    n_code: i32,
    w_param: u32,
    vk: u32,
    flags: u32,
    extra_info: usize,
    translations: &TranslationCache,
) -> (suppress: bool)
    ensures
        final(manager).num_hooks() == old(manager).num_hooks(),
        old(manager).wf() ==> final(manager).wf(),
        old(manager).hooks_wf() ==> final(manager).hooks_wf(),
        old(manager).num_hooks() == 0 ==> !suppress,
        n_code != 0 ==> final(manager)@ == old(manager)@ && !suppress,
        extra_info == crate::synth::KEYSTROKE_MARKER ==> final(manager)@ == old(manager)@
            && !suppress,
        (n_code == 0 && extra_info != crate::synth::KEYSTROKE_MARKER) ==> match spec_classify_message(
            w_param,
        ) {
            Some(KeyEventKind::Down) => final(manager)@ == apply_press(old(manager)@, vk) && (
            old(manager).hooks_wf() ==> suppress == old(manager).some_hook_claims(
                (EventView {
                    key: vk,
                    pressing: true,
                    injected: flags & LLKHF_INJECTED_FLAG != 0,
                    matching: apply_press(old(manager)@, vk),
                }),
                translations@,
            )),
            Some(KeyEventKind::Up) => final(manager)@ == apply_release(old(manager)@, vk) && (
            old(manager).hooks_wf() ==> suppress == old(manager).some_hook_claims(
                (EventView {
                    key: vk,
                    pressing: false,
                    injected: flags & LLKHF_INJECTED_FLAG != 0,
                    matching: old(manager)@,
                }),
                translations@,
            )),
            None => final(manager)@ == old(manager)@ && !suppress,
        },
{
    if n_code != 0 {
        return false;
    }
    if extra_info == crate::synth::KEYSTROKE_MARKER {
        return false;
    }
    let injected = flags & LLKHF_INJECTED_FLAG != 0;
    match classify_message(w_param) {
        Some(KeyEventKind::Down) => manager.keydown(vk, injected, translations),
        Some(KeyEventKind::Up) => manager.keyup(vk, injected, translations),
        None => false,
    }
}

} // verus!
