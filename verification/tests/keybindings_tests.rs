//! Parsing and expansion of configured chords.
use keychord::keybindings::bindings_from_map;
use keychord::keybindings::clone_with_modifier_if_needed;
use keychord::keybindings::expand_modifiers;
use keychord::keybindings::parse_binding;
use keychord::keybindings::ConfigError;
use keychord::keys::Key;

const VK_SHIFT: u32 = 0x10;
const VK_LSHIFT: u32 = 0xA0;
const VK_RSHIFT: u32 = 0xA1;
const VK_MENU: u32 = 0x12;
const VK_LMENU: u32 = 0xA4;
const VK_RMENU: u32 = 0xA5;

fn is_vk(k: &Key, vk: u32) -> bool {
    matches!(k, Key::VirtualKey(v) if *v == vk)
}

fn is_char(k: &Key, s: &str) -> bool {
    matches!(k, Key::Character(c) if c == s)
}

fn is_scan(k: &Key, sc: u32) -> bool {
    matches!(k, Key::Scancode(v) if *v == sc)
}

#[test]
fn parse_binding_mixes_names_characters_and_scancodes() {
    let b = parse_binding("lshift+alt+b+0x18").expect("the chord parses");
    assert_eq!(b.len(), 4);
    assert!(is_vk(&b[0], VK_LSHIFT));
    assert!(is_vk(&b[1], VK_MENU));
    assert!(is_char(&b[2], "b"));
    assert!(is_scan(&b[3], 0x18));
}

#[test]
fn parse_binding_single_character() {
    let b = parse_binding("e").expect("a single character parses");
    assert_eq!(b.len(), 1);
    assert!(is_char(&b[0], "e"));
}

#[test]
fn parse_binding_hex_is_case_insensitive_and_wide() {
    let b = parse_binding("0xE038").expect("hex digits parse");
    assert!(is_scan(&b[0], 0xE038));
    let b = parse_binding("0xffffFFFF").expect("a full 32-bit scancode parses");
    assert!(is_scan(&b[0], 0xFFFF_FFFF));
}

#[test]
fn parse_binding_rejects_empty_token() {
    assert!(matches!(parse_binding("a++b"), Err(ConfigError::EmptyToken)));
    assert!(matches!(parse_binding(""), Err(ConfigError::EmptyToken)));
    assert!(matches!(parse_binding("lalt+"), Err(ConfigError::EmptyToken)));
}

#[test]
fn parse_binding_rejects_bad_scancode() {
    assert!(matches!(parse_binding("0x"), Err(ConfigError::BadScancode(_))));
    assert!(matches!(parse_binding("0xzz"), Err(ConfigError::BadScancode(_))));
    assert!(matches!(parse_binding("0x100000000"), Err(ConfigError::BadScancode(_))));
}

#[test]
fn parse_binding_rejects_unknown_name() {
    assert!(matches!(parse_binding("hyper"), Err(ConfigError::UnknownKeyName(_))));
    assert!(matches!(parse_binding("lalt+bogus"), Err(ConfigError::UnknownKeyName(_))));
}

#[test]
fn expand_modifiers_doubles_per_unsided_modifier() {
    let b = parse_binding("shift+e").expect("parses");
    let ex = expand_modifiers(&b);
    assert_eq!(ex.len(), 2);
    assert!(is_vk(&ex[0][0], VK_LSHIFT) && is_char(&ex[0][1], "e"));
    assert!(is_vk(&ex[1][0], VK_RSHIFT) && is_char(&ex[1][1], "e"));

    let b = parse_binding("shift+alt+e").expect("parses");
    let ex = expand_modifiers(&b);
    assert_eq!(ex.len(), 4);
    // The first modifier varies slowest: LL, LR, RL, RR.
    assert!(is_vk(&ex[0][0], VK_LSHIFT) && is_vk(&ex[0][1], VK_LMENU));
    assert!(is_vk(&ex[1][0], VK_LSHIFT) && is_vk(&ex[1][1], VK_RMENU));
    assert!(is_vk(&ex[2][0], VK_RSHIFT) && is_vk(&ex[2][1], VK_LMENU));
    assert!(is_vk(&ex[3][0], VK_RSHIFT) && is_vk(&ex[3][1], VK_RMENU));
}

#[test]
fn expand_modifiers_keeps_sided_keys() {
    let b = parse_binding("lalt+e").expect("parses");
    let ex = expand_modifiers(&b);
    assert_eq!(ex.len(), 1);
    assert!(is_vk(&ex[0][0], VK_LMENU));
    assert!(is_char(&ex[0][1], "e"));
}

#[test]
fn clone_with_modifier_prefixes_eligible_chords() {
    let b = parse_binding("lalt+e").expect("parses");
    let ex = expand_modifiers(&b);
    // 'є' is lowercase, the chord has a character and no shift: one copy
    // with the modifier prepended.
    let cap = clone_with_modifier_if_needed('є', &ex, VK_SHIFT);
    assert_eq!(cap.len(), 1);
    assert!(is_vk(&cap[0][0], VK_SHIFT));
    assert!(is_vk(&cap[0][1], VK_LMENU));
    assert!(is_char(&cap[0][2], "e"));
    // An uppercase character earns no copies.
    let cap = clone_with_modifier_if_needed('Є', &ex, VK_SHIFT);
    assert_eq!(cap.len(), 0);
    // A chord that already holds a shift earns no copies.
    let shifted = parse_binding("lshift+e").expect("parses");
    let ex = expand_modifiers(&shifted);
    let cap = clone_with_modifier_if_needed('є', &ex, VK_SHIFT);
    assert_eq!(cap.len(), 0);
    // A chord without a character entry earns no copies.
    let plain = parse_binding("lalt+0x18").expect("parses");
    let ex = expand_modifiers(&plain);
    let cap = clone_with_modifier_if_needed('є', &ex, VK_SHIFT);
    assert_eq!(cap.len(), 0);
}

#[test]
fn bindings_from_map_builds_both_cases() {
    // Section 'є' maps lalt+e with no value: the uppercase variant is
    // generated under 'Є' with shift expanded to both sides.
    let conf = vec![(
        String::from("є"),
        vec![(String::from("lalt+e"), None::<String>)],
    )];
    let map = bindings_from_map(conf).expect("the configuration parses");
    assert_eq!(map.len(), 2);
    // Entries are ordered by character code: 'Є' (0x404) before 'є' (0x454).
    assert_eq!(map[0].0, 'Є');
    assert_eq!(map[1].0, 'є');
    let lower = &map[1].1;
    assert_eq!(lower.len(), 1);
    assert!(is_vk(&lower[0][0], VK_LMENU) && is_char(&lower[0][1], "e"));
    let upper = &map[0].1;
    assert_eq!(upper.len(), 2);
    assert!(is_vk(&upper[0][0], VK_LSHIFT) && is_vk(&upper[0][1], VK_LMENU));
    assert!(is_char(&upper[0][2], "e"));
    assert!(is_vk(&upper[1][0], VK_RSHIFT) && is_vk(&upper[1][1], VK_LMENU));
    assert!(is_char(&upper[1][2], "e"));
}

#[test]
fn bindings_from_map_with_present_value_skips_uppercase() {
    let conf = vec![(
        String::from("є"),
        vec![(String::from("lalt+e"), Some(String::from("no-caps")))],
    )];
    let map = bindings_from_map(conf).expect("the configuration parses");
    assert_eq!(map.len(), 1);
    assert_eq!(map[0].0, 'є');
}

#[test]
fn bindings_from_map_extends_existing_entries_in_order() {
    let conf = vec![(
        String::from("ж"),
        vec![
            (String::from("lalt+g"), Some(String::from("x"))),
            (String::from("lalt+0x2c"), Some(String::from("x"))),
        ],
    )];
    let map = bindings_from_map(conf).expect("the configuration parses");
    assert_eq!(map.len(), 1);
    assert_eq!(map[0].0, 'ж');
    assert_eq!(map[0].1.len(), 2);
    assert!(is_char(&map[0].1[0][1], "g"));
    assert!(is_scan(&map[0].1[1][1], 0x2C));
}

#[test]
fn bindings_from_map_rejects_bad_sections_and_chords() {
    let conf = vec![(String::from("ab"), vec![(String::from("e"), None::<String>)])];
    assert!(matches!(bindings_from_map(conf), Err(ConfigError::BadSectionChar(_))));
    let conf = vec![(String::from("є"), vec![(String::from("nope"), None::<String>)])];
    assert!(matches!(bindings_from_map(conf), Err(ConfigError::UnknownKeyName(_))));
}
