use shortcut_sync::hotkeys::{hotkey_bindings, hotkey_for_position, HotkeyDescriptor};
use shortcut_sync::model::Shortcut;

#[test]
fn first_ten_positions_bind_ctrl_digit() {
    assert_eq!(
        hotkey_for_position(0),
        Some(HotkeyDescriptor { shift: false, digit: 1 })
    );
    assert_eq!(
        hotkey_for_position(8),
        Some(HotkeyDescriptor { shift: false, digit: 9 })
    );
    assert_eq!(
        hotkey_for_position(9),
        Some(HotkeyDescriptor { shift: false, digit: 0 }),
        "the tenth position wraps to the 0 key"
    );
}

#[test]
fn second_ten_positions_bind_ctrl_shift_digit() {
    assert_eq!(
        hotkey_for_position(10),
        Some(HotkeyDescriptor { shift: true, digit: 1 })
    );
    assert_eq!(
        hotkey_for_position(19),
        Some(HotkeyDescriptor { shift: true, digit: 0 })
    );
}

#[test]
fn later_positions_have_no_hotkey() {
    assert_eq!(hotkey_for_position(20), None);
    assert_eq!(hotkey_for_position(1000), None);
}

#[test]
fn bindings_pair_positions_with_sequences() {
    let shortcuts: Vec<Shortcut> = (0..25)
        .map(|i| Shortcut {
            id: i,
            name: format!("s{}", i),
            sequence: vec![format!("Ctrl+{}", i)],
        })
        .collect();
    let b = hotkey_bindings(&shortcuts);
    assert_eq!(b.len(), 20, "only the first twenty entries are bound");
    assert_eq!(b[0].0, HotkeyDescriptor { shift: false, digit: 1 });
    assert_eq!(b[0].1, vec!["Ctrl+0".to_string()]);
    assert_eq!(b[19].0, HotkeyDescriptor { shift: true, digit: 0 });
    assert_eq!(b[19].1, vec!["Ctrl+19".to_string()]);

    let few = hotkey_bindings(&shortcuts[..3].to_vec());
    assert_eq!(few.len(), 3);
}
