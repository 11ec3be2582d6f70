//! The pressed-key tracker's set discipline and the synthesis planner.
use keychord::hook::HookContainer;
use keychord::hook::HookError;
use keychord::hotkeymanager::HotkeyManager;
use keychord::keymanager::KeyboardHookMetadata;
use keychord::keymanager::KeyManager;
use keychord::keys::is_meta_or_alt;
use keychord::keys::HasCharacter;
use keychord::keys::HasShift;
use keychord::keys::HasVirtualKey;
use keychord::keys::Key;
use keychord::pressed::PressedKeys;
use keychord::synth::filter_modifier_keys;
use keychord::synth::send_key_sequence;
use keychord::synth::KeyAction;
use keychord::synth::KeyStroke;
use keychord::synth::KeyType;
use keychord::translate::KeyPressed;
use keychord::translate::TranslationCache;
use keychord::util::measure_and_return;

#[test]
fn pressed_keys_track_insertion_order_and_membership() {
    let mut p = PressedKeys::new();
    assert!(p.is_empty());
    assert!(p.insert(3));
    assert!(p.insert(1));
    assert!(p.insert(2));
    // Re-inserting a held key neither duplicates nor reorders it.
    assert!(!p.insert(1));
    assert_eq!(p.to_vec(), vec![3, 1, 2]);
    assert!(p.contains(1));
    assert!(!p.contains(9));
    assert_eq!(p.len(), 3);
    // Removal keeps the order of the remaining keys.
    assert!(p.remove(1));
    assert_eq!(p.to_vec(), vec![3, 2]);
    // Removing an absent key is allowed and reports false.
    assert!(!p.remove(9));
    assert_eq!(p.to_vec(), vec![3, 2]);
    let snap = p.snapshot();
    assert_eq!(snap.to_vec(), vec![3, 2]);
}

#[test]
fn pressed_set_equals_pressed_but_not_released() {
    // A well-formed press/release trace leaves exactly the unreleased keys.
    let t = TranslationCache::new();
    let mut mgr: KeyManager<HotkeyManager> = KeyManager::with_storage(PressedKeys::new());
    mgr.keydown(10, false, &t);
    mgr.keydown(11, false, &t);
    mgr.keydown(12, false, &t);
    mgr.keyup(11, false, &t);
    // An OS key repeat presses 10 again: the set is unchanged.
    mgr.keydown(10, false, &t);
    // A stray release of a key never pressed is tolerated.
    mgr.keyup(99, false, &t);
    assert_eq!(mgr.dump().to_vec(), vec![10, 12]);
}

#[test]
fn tracker_without_hooks_never_claims() {
    let t = TranslationCache::new();
    let mut mgr: KeyManager<HotkeyManager> = KeyManager::with_storage(PressedKeys::new());
    assert!(!mgr.keydown(0xA4, false, &t));
    assert!(!mgr.keydown(0x45, true, &t));
    assert!(!mgr.keyup(0x45, false, &t));
    assert!(!mgr.keyup(0x99, false, &t));
    assert_eq!(mgr.dump().to_vec(), vec![0xA4]);
}

#[test]
fn hook_container_invokes_its_function_with_its_argument() {
    let container = HookContainer::new(
        |extra: &KeyboardHookMetadata, arg: &u32| -> Result<bool, HookError> {
            match extra {
                KeyboardHookMetadata::Press { key, .. } => Ok(*key == *arg),
                KeyboardHookMetadata::Release { .. } => Ok(false),
            }
        },
        42u32,
    );
    let meta = KeyboardHookMetadata::Press {
        key: 42,
        injected: false,
        pressed_keys: PressedKeys::new(),
        pressed_keys_before_hook: PressedKeys::new(),
    };
    assert_eq!(container.trigger(&meta).unwrap(), true);
    let meta = KeyboardHookMetadata::Release {
        key: 42,
        injected: true,
        pressed_keys: PressedKeys::new(),
        pressed_keys_before_hook: PressedKeys::new(),
    };
    assert_eq!(container.trigger(&meta).unwrap(), false);
}

#[test]
fn chord_predicates_inspect_entries() {
    let chord: Vec<Key> = vec![
        Key::VirtualKey(0xA0),
        Key::Character(String::from("e")),
        Key::Scancode(0x18),
    ];
    assert!(chord.has_character());
    assert!(chord.has_character_value(String::from("e")));
    assert!(!chord.has_character_value(String::from("f")));
    assert!(chord.has_shift());
    assert!(chord.has_virtual_key());
    assert!(chord.has_virtual_key_value(0xA0));
    assert!(!chord.has_virtual_key_value(0xA4));
    let plain: Vec<Key> = vec![Key::Scancode(1)];
    assert!(!plain.has_character());
    assert!(!plain.has_shift());
    assert!(!plain.has_virtual_key());
}

#[test]
fn meta_and_alt_keys_are_recognized() {
    assert!(is_meta_or_alt(0xA4));
    assert!(is_meta_or_alt(0xA5));
    assert!(is_meta_or_alt(0x5B));
    assert!(is_meta_or_alt(0x5C));
    assert!(!is_meta_or_alt(0x10));
    assert!(!is_meta_or_alt(0x45));
}

#[test]
fn key_strokes_carry_their_fields() {
    let s = KeyStroke::classic(0xA4, 0x38, KeyAction::Press);
    assert_eq!(s.key_type, KeyType::Classic);
    assert_eq!(s.virtual_key, 0xA4);
    assert_eq!(s.scancode, 0x38);
    assert_eq!(s.action, KeyAction::Press);
    let r = s.clone_as_release();
    assert_eq!(r.action, KeyAction::Release);
    assert_eq!(r.virtual_key, 0xA4);
    let p = r.clone_as_press();
    assert_eq!(p, s);
    let u = KeyStroke::unicode('є', KeyAction::Press);
    assert_eq!(u.key_type, KeyType::Unicode);
    assert_eq!(u.virtual_key, 0);
    assert_eq!(u.scancode, 0x0454);
}

#[test]
fn filter_modifier_keys_keeps_only_modifiers_in_order() {
    let keys: Vec<u32> = vec![0x45, 0xA4, 0x41, 0x10, 0x5C];
    assert_eq!(filter_modifier_keys(&keys), vec![0xA4, 0x10, 0x5C]);
    let none: Vec<u32> = vec![0x45, 0x41];
    assert_eq!(filter_modifier_keys(&none), Vec::<u32>::new());
}

#[test]
fn send_key_sequence_concatenates_in_order() {
    let pre = [KeyStroke::classic(0xA4, 0x38, KeyAction::Release)];
    let ch = [KeyStroke::unicode('є', KeyAction::Press)];
    let post = [KeyStroke::classic(0xA4, 0x38, KeyAction::Press)];
    let batch = send_key_sequence(&pre, &ch, &post);
    assert_eq!(batch, vec![pre[0], ch[0], post[0]]);
    let empty: [KeyStroke; 0] = [];
    let batch = send_key_sequence(&empty, &ch, &empty);
    assert_eq!(batch, vec![ch[0]]);
}

#[test]
fn activation_then_deactivation_restores_held_modifiers() {
    // Simulate the OS logical state over the two planned batches.
    let mut t = TranslationCache::new();
    t.push(KeyPressed::from_scan_and_code(0xA4, 0x38, None, None));
    t.push(KeyPressed::from_scan_and_code(0x10, 0x2A, None, None));
    t.push(KeyPressed::from_scan_and_code(
        0x45,
        0x12,
        Some(String::from("e")),
        Some(String::from("e")),
    ));
    let ev = keychord::hotkeymanager::TriggeredHotkey {
        chord: vec![Key::VirtualKey(0xA4), Key::Character(String::from("e"))],
        was_triggered: false,
        pressed_keys: vec![0xA4, 0x10, 0x45],
    };
    let mut held: Vec<u32> = vec![0xA4, 0x10, 0x45];
    let activation = keychord::synth::activation_sequence(&ev, 'є', &t);
    // Releases come in reverse order of the held modifiers.
    assert_eq!(
        activation,
        vec![
            KeyStroke::classic(0x10, 0x2A, KeyAction::Release),
            KeyStroke::classic(0xA4, 0x38, KeyAction::Release),
            KeyStroke::unicode('є', KeyAction::Press),
        ]
    );
    let deactivation = keychord::synth::deactivation_sequence(&ev, 'є', &t);
    for stroke in activation.iter().chain(deactivation.iter()) {
        if stroke.key_type == KeyType::Classic {
            if stroke.action == KeyAction::Press {
                if !held.contains(&stroke.virtual_key) {
                    held.push(stroke.virtual_key);
                }
            } else {
                held.retain(|v| *v != stroke.virtual_key);
            }
        }
    }
    held.sort();
    assert_eq!(held, vec![0x10, 0x45, 0xA4]);
}

#[test]
fn translation_cache_lookups_answer_per_key() {
    let mut t = TranslationCache::new();
    let rec = KeyPressed::from_scan_and_code(
        0x45,
        0x12,
        Some(String::from("e")),
        Some(String::from("é")),
    );
    assert_eq!(rec.vk, 0x45);
    assert_eq!(rec.scan_code, 0x12);
    assert_eq!(rec.unicode.as_deref(), Some("e"));
    assert_eq!(rec.localized_unicode.as_deref(), Some("é"));
    t.push(rec);
    t.push(KeyPressed::from_scan_and_code(0xA4, 0x38, None, None));
    assert_eq!(t.scancode_for(0x45), 0x12);
    assert_eq!(t.scancode_for(0xA4), 0x38);
    // An unmapped key translates to scancode 0 and no character.
    assert_eq!(t.scancode_for(0x99), 0);
    assert_eq!(t.localized_for(0x45).map(|s| s.as_str()), Some("é"));
    assert!(t.localized_for(0xA4).is_none());
    assert!(t.localized_for(0x99).is_none());
}

#[test]
fn measure_and_return_passes_the_result_through() {
    let (value, duration) = measure_and_return(|| 6 * 7);
    assert_eq!(value, 42);
    let _ = duration;
}
