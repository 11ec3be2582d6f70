//! Channel endpoints for delivering triggered-binding events to the
//! synthesis workers that live outside this crate.
use vstd::prelude::*;

verus! {

use crate::hotkeymanager::TriggeredHotkey;

/// The sending half of a standard channel, declared so it can sit inside a
/// binding.
#[verifier::external_type_specification]
#[verifier::external_body]
#[verifier::reject_recursive_types(T)]
pub struct ExSender<T>(std::sync::mpsc::Sender<T>);

/// The receiving half of a standard channel, declared so it can be handed
/// back to the caller that registers a binding.
#[verifier::external_type_specification]
#[verifier::external_body]
#[verifier::reject_recursive_types(T)]
pub struct ExReceiver<T>(std::sync::mpsc::Receiver<T>);

/// Relies on `std::sync::mpsc::channel`: the two halves form a fresh
/// asynchronous channel.
#[verifier::external_body]
pub(crate) fn new_event_channel() -> (r: (
    std::sync::mpsc::Sender<TriggeredHotkey>,
    std::sync::mpsc::Receiver<TriggeredHotkey>,
))
{
    std::sync::mpsc::channel()
}

/// Relies on `std::sync::mpsc::Sender::send`: delivery fails only when the
/// receiving half is gone; the event is then dropped, which disables the
/// binding but keeps everything else running.
#[verifier::external_body]
pub(crate) fn send_event(
    tx: &std::sync::mpsc::Sender<TriggeredHotkey>,
    event: TriggeredHotkey,
) -> (ok: bool)
{
    tx.send(event).is_ok()
}

} // verus!
