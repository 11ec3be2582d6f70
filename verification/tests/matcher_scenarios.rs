//! End-to-end scenarios: a chord `lalt+e` configured to emit `є`, driven
//! through the pressed-key tracker, the matcher and the synthesis planner.
use keychord::hotkeymanager::HotkeyManager;
use keychord::keymanager::process_hook_event;
use keychord::keymanager::KeyManager;
use keychord::keys::Key;
use keychord::pressed::PressedKeys;
use keychord::synth::activation_sequence;
use keychord::synth::deactivation_sequence;
use keychord::synth::KeyAction;
use keychord::synth::KeyStroke;
use keychord::synth::KEYSTROKE_MARKER;
use keychord::translate::KeyPressed;
use keychord::translate::TranslationCache;

const VK_LALT: u32 = 0xA4;
const VK_E: u32 = 0x45;
const VK_A: u32 = 0x41;
const SCAN_LALT: u32 = 0x38;
const SCAN_E: u32 = 0x12;
const WM_KEYDOWN: u32 = 256;
const WM_KEYUP: u32 = 257;

fn translations() -> TranslationCache {
    let mut t = TranslationCache::new();
    t.push(KeyPressed::from_scan_and_code(VK_LALT, SCAN_LALT, None, None));
    t.push(KeyPressed::from_scan_and_code(
        VK_E,
        SCAN_E,
        Some(String::from("e")),
        Some(String::from("e")),
    ));
    t.push(KeyPressed::from_scan_and_code(
        VK_A,
        0x1E,
        Some(String::from("a")),
        Some(String::from("a")),
    ));
    t
}

fn lalt_e_chord() -> Vec<Key> {
    vec![Key::VirtualKey(VK_LALT), Key::Character(String::from("e"))]
}

struct Rig {
    manager: KeyManager<HotkeyManager>,
    press_rx: std::sync::mpsc::Receiver<keychord::hotkeymanager::TriggeredHotkey>,
    release_rx: std::sync::mpsc::Receiver<keychord::hotkeymanager::TriggeredHotkey>,
}

fn rig() -> Rig {
    let mut matcher = HotkeyManager::new();
    let (press_rx, release_rx) = matcher.add_channel_binding(lalt_e_chord());
    let mut manager = KeyManager::with_storage(PressedKeys::new());
    manager.add_hook(matcher);
    Rig { manager, press_rx, release_rx }
}

#[test]
fn press_lalt_then_e_activates_and_plans_activation() {
    let t = translations();
    let mut r = rig();
    // lalt alone matches nothing: bucket 1 is empty.
    assert!(!r.manager.keydown(VK_LALT, false, &t));
    // e completes the chord: the event is claimed.
    assert!(r.manager.keydown(VK_E, false, &t));
    let ev = r.press_rx.try_recv().expect("press event should be delivered");
    assert!(!ev.was_triggered);
    assert_eq!(ev.pressed_keys, vec![VK_LALT, VK_E]);
    assert_eq!(ev.chord.len(), 2);
    assert!(matches!(ev.chord[0], Key::VirtualKey(v) if v == VK_LALT));
    assert!(matches!(&ev.chord[1], Key::Character(s) if s == "e"));
    // The activation batch: release of lalt (scancode 0x38), press of є.
    let batch = activation_sequence(&ev, 'є', &t);
    assert_eq!(
        batch,
        vec![
            KeyStroke::classic(VK_LALT, SCAN_LALT, KeyAction::Release),
            KeyStroke::unicode('є', KeyAction::Press),
        ]
    );
    assert_eq!(batch[1].scancode, 0x0454);
    assert_eq!(batch[1].virtual_key, 0);
}

#[test]
fn release_e_while_holding_lalt_deactivates_and_restores_lalt() {
    let t = translations();
    let mut r = rig();
    r.manager.keydown(VK_LALT, false, &t);
    r.manager.keydown(VK_E, false, &t);
    r.press_rx.try_recv().expect("activation first");
    // Releasing e: the length-2 set before the release still matches.
    assert!(r.manager.keyup(VK_E, false, &t));
    let ev = r.release_rx.try_recv().expect("release event should be delivered");
    assert!(ev.was_triggered);
    // The snapshot holds what is still held: lalt alone.
    assert_eq!(ev.pressed_keys, vec![VK_LALT]);
    let batch = deactivation_sequence(&ev, 'є', &t);
    assert_eq!(
        batch,
        vec![
            KeyStroke::unicode('є', KeyAction::Release),
            KeyStroke::classic(VK_LALT, SCAN_LALT, KeyAction::Press),
        ]
    );
}

#[test]
fn release_lalt_clears_everything_and_is_forwarded() {
    let t = translations();
    let mut r = rig();
    r.manager.keydown(VK_LALT, false, &t);
    r.manager.keydown(VK_E, false, &t);
    r.manager.keyup(VK_E, false, &t);
    // The binding is no longer triggered, so the physical lalt release is
    // not claimed and reaches applications as a normal release.
    assert!(!r.manager.keyup(VK_LALT, false, &t));
    assert!(r.manager.dump().is_empty());
    let matcher = &r.manager.hooks()[0];
    assert!(!matcher.buckets[0].bindings[0].is_triggered());
    assert!(r.release_rx.try_recv().is_ok());
    assert!(r.release_rx.try_recv().is_err());
}

#[test]
fn repeated_e_press_fires_once_and_plans_character_only() {
    let t = translations();
    let mut r = rig();
    r.manager.keydown(VK_LALT, false, &t);
    r.manager.keydown(VK_E, false, &t);
    let first = r.press_rx.try_recv().expect("first activation");
    assert!(!first.was_triggered);
    // The OS repeats e: the matcher fires again, but the binding was
    // already triggered, so the repeat plans only the character press.
    assert!(r.manager.keydown(VK_E, false, &t));
    let second = r.press_rx.try_recv().expect("repeat delivers a press event");
    assert!(second.was_triggered);
    let batch = activation_sequence(&second, 'є', &t);
    assert_eq!(batch, vec![KeyStroke::unicode('є', KeyAction::Press)]);
    // Only one untriggered-to-triggered transition happened.
    let matcher = &r.manager.hooks()[0];
    assert!(matcher.buckets[0].bindings[0].is_triggered());
}

#[test]
fn unbound_key_is_forwarded() {
    let t = translations();
    let mut r = rig();
    // No chord contains a: the press is not claimed and reaches
    // applications.
    assert!(!r.manager.keydown(VK_A, false, &t));
    assert_eq!(r.manager.dump().to_vec(), vec![VK_A]);
    assert!(r.press_rx.try_recv().is_err());
}

#[test]
fn sentinel_tagged_event_is_dropped_before_the_tracker() {
    let t = translations();
    let mut r = rig();
    r.manager.keydown(VK_LALT, false, &t);
    // The synthesizer injects a lalt release tagged with the sentinel: the
    // hook front end drops it and the pressed set still holds lalt.
    let suppress = process_hook_event(
        &mut r.manager,
        0,
        WM_KEYUP,
        VK_LALT,
        0x10,
        KEYSTROKE_MARKER,
        &t,
    );
    assert!(!suppress);
    assert_eq!(r.manager.dump().to_vec(), vec![VK_LALT]);
}

#[test]
fn meta_key_repeat_is_swallowed_while_chord_is_active() {
    let t = translations();
    let mut r = rig();
    r.manager.keydown(VK_LALT, false, &t);
    r.manager.keydown(VK_E, false, &t);
    r.press_rx.try_recv().expect("activation");
    // The OS auto-repeats lalt while the chord is held: the guard claims
    // the press without re-firing the binding.
    assert!(r.manager.keydown(VK_LALT, false, &t));
    assert!(r.press_rx.try_recv().is_err());
    // An injected lalt release (the bounce of our own synthesis) is also
    // claimed.
    assert!(r.manager.keyup(VK_LALT, true, &t));
    assert!(r.release_rx.try_recv().is_err());
    // The key was still removed from the tracker by the release.
    assert_eq!(r.manager.dump().to_vec(), vec![VK_E]);
}

#[test]
fn hook_events_route_through_process_hook_event() {
    let t = translations();
    let mut r = rig();
    assert!(!process_hook_event(&mut r.manager, 0, WM_KEYDOWN, VK_LALT, 0, 0, &t));
    assert!(process_hook_event(&mut r.manager, 0, WM_KEYDOWN, VK_E, 0, 0, &t));
    assert!(r.press_rx.try_recv().is_ok());
    // A message outside the action code is ignored.
    assert!(!process_hook_event(&mut r.manager, 3, WM_KEYUP, VK_E, 0, 0, &t));
    assert_eq!(r.manager.dump().to_vec(), vec![VK_LALT, VK_E]);
    // An unknown message code is ignored.
    assert!(!process_hook_event(&mut r.manager, 0, 1234, VK_E, 0, 0, &t));
    assert_eq!(r.manager.dump().to_vec(), vec![VK_LALT, VK_E]);
}

#[test]
fn oversized_pressed_set_matches_nothing() {
    let t = translations();
    let mut r = rig();
    r.manager.keydown(VK_LALT, false, &t);
    r.manager.keydown(VK_E, false, &t);
    r.press_rx.try_recv().expect("activation");
    r.manager.keyup(VK_E, false, &t);
    r.release_rx.try_recv().expect("deactivation");
    // Three keys held: no bucket has length 3, so nothing matches.
    r.manager.keydown(VK_E, false, &t);
    r.press_rx.try_recv().expect("re-activation at two keys");
    assert!(!r.manager.keydown(VK_A, false, &t));
    assert!(r.press_rx.try_recv().is_err());
}
