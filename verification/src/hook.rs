//! Hooks: callbacks the pressed-key tracker invokes, in registration order,
//! for every key event until one of them claims the event.
use vstd::prelude::*;

verus! {

use crate::keymanager::EventView;
use crate::keymanager::KeyboardHookMetadata;
use crate::translate::KeyPressedView;
use crate::translate::TranslationCache;

/// The error a hook may return; the tracker treats it as "do not suppress"
/// and goes on with the next hook.
#[derive(Debug)]
pub struct HookError {
    pub message: String,
}

/// Read access to the record describing one key event.
pub trait HookMetadata {
    /// The event's virtual key.
    spec fn spec_key(&self) -> u32;

    /// Whether the event is a press (otherwise a release).
    spec fn spec_pressing(&self) -> bool;

    /// Whether the event was generated by software rather than hardware.
    spec fn spec_injected(&self) -> bool;

    /// Returns the event's virtual key.
    fn key(&self) -> (r: u32)
        ensures
            r == self.spec_key(),
    ;

    /// Returns whether the event is a press.
    fn pressing(&self) -> (r: bool)
        ensures
            r == self.spec_pressing(),
    ;

    /// Returns whether the event is a release.
    fn releasing(&self) -> (r: bool)
        ensures
            r == !self.spec_pressing(),
    ;

    /// Returns whether the event was generated by software.
    fn injected(&self) -> (r: bool)
        ensures
            r == self.spec_injected(),
    ;
}

/// A keyboard-event observer. The tracker calls `call` for each event; a
/// result of `Ok(true)` claims the event (the tracker stops the chain and
/// reports "suppress"), `Ok(false)` and `Err` pass it on. A well-formed
/// hook's answer is a function of its state and the event's observable
/// content, so the tracker's dispatch result can be pinned.
pub trait Hook {
    /// The hook's own validity; what `call` promises holds only of
    /// well-formed hooks, and `call` keeps a well-formed hook well-formed.
    spec fn spec_wf(&self) -> bool;

    /// Whether the hook claims the event, as a function of the hook's state,
    /// the event's observable content and the translation cache.
    spec fn spec_claims(&self, ev: EventView, trans: Seq<KeyPressedView>) -> bool;

    /// Handles one event, given the event record and the per-event
    /// translation cache. A well-formed hook reports its claim decision and
    /// stays well-formed.
    fn call(&mut self, extra: &KeyboardHookMetadata, translations: &TranslationCache) -> (r:
        Result<bool, HookError>)
        ensures
            old(self).spec_wf() ==> r == Ok::<bool, HookError>(
                old(self).spec_claims(extra.event_view(), translations@),
            ),
            old(self).spec_wf() ==> final(self).spec_wf(),
    ;
}

/// A hook made of a plain function and an argument handed to every call.
pub struct HookContainer<F, T> {
    pub hook: F,
    pub arg: T,
}

impl<T, F: Fn(&KeyboardHookMetadata, &T) -> Result<bool, HookError>> HookContainer<F, T> {
    /// Packs a function and its argument into a hook container.
    pub fn new(hook: F, arg: T) -> (r: Self)
        ensures
            r.hook == hook,
            r.arg == arg,
    {
        HookContainer { hook, arg }
    }

    /// Invokes the contained function on the event record and the stored
    /// argument.
    pub fn trigger(&self, extra: &KeyboardHookMetadata) -> (r: Result<bool, HookError>)
        requires
            call_requires(self.hook, (extra, &self.arg)),
        ensures
            call_ensures(self.hook, (extra, &self.arg), r),
    {
        (self.hook)(extra, &self.arg)
    }
}

} // verus!
