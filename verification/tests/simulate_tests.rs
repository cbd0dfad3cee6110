use shortcut_sync::simulate::{
    is_special_character, is_text_string, plan_combo, plan_sequence, plan_text, Key, KeyEvent,
};

#[test]
fn classification_combo_on_plus_or_modifier_name() {
    assert!(!is_text_string("Ctrl+S"));
    assert!(!is_text_string("hello+world"));
    assert!(!is_text_string("press ConTROL now"), "modifier names match case-insensitively");
    assert!(!is_text_string("shift"));
    assert!(!is_text_string("my cmd line"));
    assert!(!is_text_string("meta"));
    assert!(!is_text_string("ALTERNATE"), "substring check: alt occurs in ALTERNATE");
}

#[test]
fn classification_text_when_neither() {
    assert!(is_text_string("hello world"));
    assert!(is_text_string(""));
    assert!(is_text_string("Enter"));
    assert!(is_text_string("ctr l"));
}

#[test]
fn shift_punctuation_set() {
    for c in "!@#$%^&*()_+{}|:\"<>?".chars() {
        assert!(is_special_character(c), "{} needs shift", c);
    }
    for c in "abcZ019-=[];',./ ".chars() {
        assert!(!is_special_character(c), "{} does not need shift", c);
    }
}

#[test]
fn combo_presses_in_order_and_releases_in_reverse() {
    let plan = plan_combo("Ctrl+Shift+K");
    assert_eq!(
        plan,
        vec![
            KeyEvent::Press(Key::Control),
            KeyEvent::Press(Key::Shift),
            KeyEvent::Click(Key::Unicode('k')),
            KeyEvent::Release(Key::Shift),
            KeyEvent::Release(Key::Control),
        ]
    );
}

#[test]
fn combo_releases_reverse_with_three_modifiers() {
    let plan = plan_combo("Ctrl+Alt+Meta+x");
    let releases: Vec<&KeyEvent> = plan
        .iter()
        .filter(|e| matches!(e, KeyEvent::Release(_)))
        .collect();
    assert_eq!(
        releases,
        vec![
            &KeyEvent::Release(Key::Meta),
            &KeyEvent::Release(Key::Alt),
            &KeyEvent::Release(Key::Control),
        ]
    );
}

#[test]
fn shift_injected_for_uppercase_unless_held() {
    // Not held: an uppercase character gets its own Shift press first.
    let plan = plan_combo("Ctrl+S");
    assert_eq!(
        plan,
        vec![
            KeyEvent::Press(Key::Control),
            KeyEvent::Press(Key::Shift),
            KeyEvent::Click(Key::Unicode('s')),
            KeyEvent::Release(Key::Shift),
            KeyEvent::Release(Key::Control),
        ]
    );
    // Held: no second Shift press.
    let plan = plan_combo("Shift+S");
    assert_eq!(
        plan,
        vec![
            KeyEvent::Press(Key::Shift),
            KeyEvent::Click(Key::Unicode('s')),
            KeyEvent::Release(Key::Shift),
        ]
    );
}

#[test]
fn shift_injected_for_punctuation() {
    let plan = plan_combo("Ctrl+!");
    assert_eq!(
        plan,
        vec![
            KeyEvent::Press(Key::Control),
            KeyEvent::Press(Key::Shift),
            KeyEvent::Click(Key::Unicode('!')),
            KeyEvent::Release(Key::Shift),
            KeyEvent::Release(Key::Control),
        ]
    );
}

#[test]
fn lowercase_character_needs_no_shift() {
    let plan = plan_combo("Ctrl+s");
    assert_eq!(
        plan,
        vec![
            KeyEvent::Press(Key::Control),
            KeyEvent::Click(Key::Unicode('s')),
            KeyEvent::Release(Key::Control),
        ]
    );
}

#[test]
fn named_keys_resolve_and_tokens_are_trimmed() {
    let plan = plan_combo("Ctrl + Enter");
    assert_eq!(
        plan,
        vec![
            KeyEvent::Press(Key::Control),
            KeyEvent::Click(Key::Return),
            KeyEvent::Release(Key::Control),
        ]
    );
    assert_eq!(plan_combo("Tab"), vec![KeyEvent::Click(Key::Tab)]);
    assert_eq!(plan_combo("Backspace"), vec![KeyEvent::Click(Key::Backspace)]);
    assert_eq!(plan_combo("Space"), vec![KeyEvent::Click(Key::Space)]);
}

#[test]
fn empty_token_is_skipped_not_fatal() {
    // "Ctrl+" splits into a modifier and an empty token; the empty token
    // is malformed input and skipped, the rest still runs.
    let plan = plan_combo("Ctrl+");
    assert_eq!(
        plan,
        vec![KeyEvent::Press(Key::Control), KeyEvent::Release(Key::Control)]
    );
}

#[test]
fn text_plan_types_each_character() {
    assert_eq!(
        plan_text("hi!"),
        vec![
            KeyEvent::TypeChar('h'),
            KeyEvent::TypeChar('i'),
            KeyEvent::TypeChar('!'),
        ]
    );
    assert_eq!(plan_text(""), Vec::<KeyEvent>::new());
}

#[test]
fn sequence_plan_classifies_and_paces() {
    let steps = vec!["Ctrl+s".to_string(), "ok".to_string()];
    let plan = plan_sequence(&steps, Some(7));
    assert_eq!(
        plan,
        vec![
            KeyEvent::Press(Key::Control),
            KeyEvent::Click(Key::Unicode('s')),
            KeyEvent::Release(Key::Control),
            KeyEvent::Sleep(7),
            KeyEvent::TypeChar('o'),
            KeyEvent::TypeChar('k'),
        ]
    );
}

#[test]
fn sequence_default_interval_is_100ms() {
    let steps = vec!["Ctrl+s".to_string()];
    let plan = plan_sequence(&steps, None);
    assert_eq!(plan.last(), Some(&KeyEvent::Sleep(100)));
}
