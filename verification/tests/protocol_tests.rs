use shortcut_sync::model::Shortcut;
use shortcut_sync::protocol::{handle_frame, parse_message, ControlMessage, SessionAction};
use shortcut_sync::session::AppState;
use shortcut_sync::simulate::{plan_sequence, Key, KeyEvent};

fn sc(id: u64, name: &str, steps: &[&str]) -> Shortcut {
    Shortcut {
        id,
        name: name.to_string(),
        sequence: steps.iter().map(|s| s.to_string()).collect(),
    }
}

#[test]
fn parse_device_info_frame() {
    let m = parse_message("{\"type\":\"device_info\",\"device_name\":\"Phone\"}");
    match m {
        ControlMessage::DeviceInfo { device_name } => assert_eq!(device_name, "Phone"),
        _ => panic!("expected a device_info message"),
    }
}

#[test]
fn parse_tolerates_whitespace_and_field_order() {
    let m = parse_message("  { \"device_name\" : \"Pad\" ,\n\t\"type\" : \"device_info\" }  ");
    match m {
        ControlMessage::DeviceInfo { device_name } => assert_eq!(device_name, "Pad"),
        _ => panic!("expected a device_info message"),
    }
}

#[test]
fn parse_execute_with_and_without_interval() {
    match parse_message("{\"type\":\"execute_shortcut\",\"shortcut_id\":42,\"interval_ms\":250}") {
        ControlMessage::ExecuteShortcut { shortcut_id, interval_ms } => {
            assert_eq!(shortcut_id, 42);
            assert_eq!(interval_ms, Some(250));
        },
        _ => panic!("expected an execute_shortcut message"),
    }
    match parse_message("{\"type\":\"execute_shortcut\",\"shortcut_id\":7}") {
        ControlMessage::ExecuteShortcut { shortcut_id, interval_ms } => {
            assert_eq!(shortcut_id, 7);
            assert_eq!(interval_ms, None);
        },
        _ => panic!("expected an execute_shortcut message"),
    }
}

#[test]
fn parse_last_field_wins_on_duplicate_keys() {
    match parse_message("{\"type\":\"execute_shortcut\",\"shortcut_id\":1,\"shortcut_id\":2}") {
        ControlMessage::ExecuteShortcut { shortcut_id, .. } => assert_eq!(shortcut_id, 2),
        _ => panic!("expected an execute_shortcut message"),
    }
}

#[test]
fn parse_unknown_on_malformed_or_unrecognized() {
    assert!(matches!(parse_message(""), ControlMessage::Unknown));
    assert!(matches!(parse_message("hello"), ControlMessage::Unknown));
    assert!(matches!(parse_message("{}"), ControlMessage::Unknown));
    assert!(matches!(parse_message("{\"type\":\"reboot\"}"), ControlMessage::Unknown));
    assert!(matches!(parse_message("{\"type\":7}"), ControlMessage::Unknown));
    assert!(matches!(
        parse_message("{\"type\":\"device_info\"}"),
        ControlMessage::Unknown
    ));
    assert!(matches!(
        parse_message("{\"type\":\"execute_shortcut\",\"shortcut_id\":\"x\"}"),
        ControlMessage::Unknown
    ));
    assert!(matches!(
        parse_message("{\"type\":\"device_info\",\"device_name\":\"a\"} trailing"),
        ControlMessage::Unknown
    ));
}

#[test]
fn pairing_accepts_first_device_and_pushes_shortcuts() {
    let mut state = AppState::new();
    let shortcuts = vec![sc(1, "Save", &["Ctrl+S"])];
    let actions = handle_frame(
        &mut state,
        &shortcuts,
        "{\"type\":\"device_info\",\"device_name\":\"Phone\"}",
    );
    assert_eq!(actions.len(), 2);
    assert!(matches!(actions[0], SessionAction::NotifyDevicesChanged));
    match &actions[1] {
        SessionAction::SendFrame(doc) => {
            assert_eq!(doc, "[{\"id\":1,\"name\":\"Save\",\"sequence\":[\"Ctrl+S\"]}]");
        },
        _ => panic!("expected the shortcut list frame"),
    }
    let d = state.current_device().expect("a device is paired");
    assert_eq!(d.name, "Phone");
    assert!(d.connected);
}

#[test]
fn second_pairing_is_rejected_and_first_device_kept() {
    let mut state = AppState::new();
    let shortcuts = Vec::new();
    handle_frame(
        &mut state,
        &shortcuts,
        "{\"type\":\"device_info\",\"device_name\":\"First\"}",
    );
    let actions = handle_frame(
        &mut state,
        &shortcuts,
        "{\"type\":\"device_info\",\"device_name\":\"Second\"}",
    );
    assert_eq!(actions.len(), 1);
    match &actions[0] {
        SessionAction::SendFrame(f) => assert_eq!(f, "connection_rejected"),
        _ => panic!("expected the rejection frame"),
    }
    let d = state.current_device().expect("the first device is still paired");
    assert_eq!(d.name, "First");
    assert!(d.connected);
}

#[test]
fn disconnect_clears_the_slot() {
    let mut state = AppState::new();
    handle_frame(
        &mut state,
        &Vec::new(),
        "{\"type\":\"device_info\",\"device_name\":\"P\"}",
    );
    assert!(state.handle_disconnect());
    assert!(state.current_device().is_none());
    assert!(!state.handle_disconnect(), "a second disconnect finds no device");
}

#[test]
fn execute_plans_the_named_shortcut() {
    let mut state = AppState::new();
    let shortcuts = vec![sc(5, "S", &["Ctrl+s"])];
    let actions = handle_frame(
        &mut state,
        &shortcuts,
        "{\"type\":\"execute_shortcut\",\"shortcut_id\":5,\"interval_ms\":30}",
    );
    assert_eq!(actions.len(), 1);
    match &actions[0] {
        SessionAction::RunPlan(plan) => {
            assert_eq!(plan, &plan_sequence(&shortcuts[0].sequence, Some(30)));
            assert_eq!(
                plan,
                &vec![
                    KeyEvent::Press(Key::Control),
                    KeyEvent::Click(Key::Unicode('s')),
                    KeyEvent::Release(Key::Control),
                    KeyEvent::Sleep(30),
                ]
            );
        },
        _ => panic!("expected an injection plan"),
    }
    assert!(state.current_device().is_none(), "execute does not touch the session");
}

#[test]
fn execute_of_unknown_id_is_ignored() {
    let mut state = AppState::new();
    let shortcuts = vec![sc(5, "S", &["Ctrl+s"])];
    let actions = handle_frame(
        &mut state,
        &shortcuts,
        "{\"type\":\"execute_shortcut\",\"shortcut_id\":6}",
    );
    assert!(actions.is_empty());
}

#[test]
fn unknown_frames_do_nothing() {
    let mut state = AppState::new();
    let actions = handle_frame(&mut state, &Vec::new(), "not even a frame");
    assert!(actions.is_empty());
    assert!(state.current_device().is_none());
}
