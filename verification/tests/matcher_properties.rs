//! Concrete checks of the matcher's bucket discipline and chord-entry kinds.
use keychord::hotkeymanager::HotkeyManager;
use keychord::keymanager::KeyManager;
use keychord::keys::Key;
use keychord::pressed::PressedKeys;
use keychord::translate::KeyPressed;
use keychord::translate::TranslationCache;

#[test]
fn every_binding_sits_in_the_bucket_of_its_length() {
    let mut matcher = HotkeyManager::new();
    let _ab = matcher.add_channel_binding(vec![Key::Character(String::from("a"))]);
    let _cd = matcher.add_channel_binding(vec![
        Key::VirtualKey(0xA4),
        Key::Character(String::from("e")),
    ]);
    let _ef = matcher.add_channel_binding(vec![Key::Scancode(0x38)]);
    assert_eq!(matcher.buckets.len(), 2);
    for bucket in &matcher.buckets {
        for binding in &bucket.bindings {
            assert_eq!(binding.keys.len(), bucket.length);
        }
    }
    assert_eq!(matcher.buckets[0].length, 1);
    assert_eq!(matcher.buckets[0].bindings.len(), 2);
    assert_eq!(matcher.buckets[1].length, 2);
    assert_eq!(matcher.buckets[1].bindings.len(), 1);
}

#[test]
fn single_character_chord_matches_one_held_key_with_that_character() {
    let mut t = TranslationCache::new();
    t.push(KeyPressed::from_scan_and_code(
        0x41,
        0x1E,
        Some(String::from("a")),
        Some(String::from("a")),
    ));
    t.push(KeyPressed::from_scan_and_code(
        0x42,
        0x30,
        Some(String::from("b")),
        Some(String::from("b")),
    ));
    let mut matcher = HotkeyManager::new();
    let (press_rx, _release_rx) =
        matcher.add_channel_binding(vec![Key::Character(String::from("a"))]);
    let mut mgr = KeyManager::with_storage(PressedKeys::new());
    mgr.add_hook(matcher);
    // A key whose localized character is not "a" does not match.
    assert!(!mgr.keydown(0x42, false, &t));
    assert!(press_rx.try_recv().is_err());
    mgr.keyup(0x42, false, &t);
    // The key producing "a" matches when it is the only key held.
    assert!(mgr.keydown(0x41, false, &t));
    let ev = press_rx.try_recv().expect("the character chord fires");
    assert_eq!(ev.pressed_keys, vec![0x41]);
}

#[test]
fn scancode_chord_matches_regardless_of_layout_characters() {
    // Two layouts: same scancodes, entirely different characters.
    let mut latin = TranslationCache::new();
    latin.push(KeyPressed::from_scan_and_code(
        0x41,
        0x1E,
        Some(String::from("a")),
        Some(String::from("a")),
    ));
    let mut cyrillic = TranslationCache::new();
    cyrillic.push(KeyPressed::from_scan_and_code(
        0x41,
        0x1E,
        Some(String::from("ф")),
        Some(String::from("ф")),
    ));

    for layout in [latin, cyrillic] {
        let mut matcher = HotkeyManager::new();
        let (press_rx, _release_rx) = matcher.add_channel_binding(vec![Key::Scancode(0x1E)]);
        let mut mgr = KeyManager::with_storage(PressedKeys::new());
        mgr.add_hook(matcher);
        assert!(mgr.keydown(0x41, false, &layout));
        assert!(press_rx.try_recv().is_ok());
    }
}

#[test]
fn first_registered_binding_of_a_bucket_wins() {
    let mut t = TranslationCache::new();
    t.push(KeyPressed::from_scan_and_code(
        0x41,
        0x1E,
        Some(String::from("a")),
        Some(String::from("a")),
    ));
    let mut matcher = HotkeyManager::new();
    let (first_rx, _r1) = matcher.add_channel_binding(vec![Key::VirtualKey(0x41)]);
    let (second_rx, _r2) = matcher.add_channel_binding(vec![Key::Character(String::from("a"))]);
    let mut mgr = KeyManager::with_storage(PressedKeys::new());
    mgr.add_hook(matcher);
    // Both bindings are satisfied by the held key; only the first fires.
    assert!(mgr.keydown(0x41, false, &t));
    assert!(first_rx.try_recv().is_ok());
    assert!(second_rx.try_recv().is_err());
}

#[test]
fn one_held_key_may_satisfy_two_chord_entries() {
    // The same held key satisfies both the virtual-key entry and the
    // character entry: matching is not one-to-one.
    let mut t = TranslationCache::new();
    t.push(KeyPressed::from_scan_and_code(
        0x41,
        0x1E,
        Some(String::from("a")),
        Some(String::from("a")),
    ));
    t.push(KeyPressed::from_scan_and_code(0xA0, 0x2A, None, None));
    let mut matcher = HotkeyManager::new();
    let (press_rx, _r) = matcher.add_channel_binding(vec![
        Key::VirtualKey(0x41),
        Key::Character(String::from("a")),
    ]);
    let mut mgr = KeyManager::with_storage(PressedKeys::new());
    mgr.add_hook(matcher);
    mgr.keydown(0x41, false, &t);
    // Two keys held, bucket 2 consulted: the single key 0x41 satisfies both
    // entries even though the second held key satisfies neither.
    assert!(mgr.keydown(0xA0, false, &t));
    assert!(press_rx.try_recv().is_ok());
}
