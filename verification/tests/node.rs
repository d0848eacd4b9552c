use nodio::node::{
    application_node_button, device_node_button, empty_hint, mute_button, node_pin, speaker_icon,
    DeviceInfo, NewNode, NodeKind, Pin, PinSide, ProcessInfo,
};

fn process() -> ProcessInfo {
    ProcessInfo { pid: 42, display_name: "Player".to_string(), filename: "player.exe".to_string() }
}

fn device() -> DeviceInfo {
    DeviceInfo { id: 7, name: "Speakers".to_string() }
}

#[test]
fn pins_follow_the_kind() {
    let out = Pin { side: PinSide::Output, detach_with_drag: false };
    assert_eq!(node_pin(NodeKind::Application), out);
    assert_eq!(node_pin(NodeKind::InputDevice), out);
    assert_eq!(
        node_pin(NodeKind::OutputDevice),
        Pin { side: PinSide::Input, detach_with_drag: true }
    );
}

#[test]
fn speaker_signs() {
    assert_eq!(speaker_icon(true, true), "🔇");
    assert_eq!(speaker_icon(true, false), "🔇");
    assert_eq!(speaker_icon(false, true), "🔉");
    assert_eq!(speaker_icon(false, false), "🔈");
}

#[test]
fn mute_button_switches() {
    assert_eq!(mute_button(true, false), Some(true));
    assert_eq!(mute_button(true, true), Some(false));
    assert_eq!(mute_button(false, true), None);
}

#[test]
fn hint_shows_without_nodes() {
    assert_eq!(empty_hint(0), Some("Right-click anywhere to add nodes"));
    assert_eq!(empty_hint(1), None);
}

#[test]
fn clicked_process_becomes_a_node() {
    let mut added: Option<NewNode<(f32, f32)>> = None;
    assert!(!application_node_button(&mut added, (1.5, 2.5), false, process()));
    assert_eq!(added, None);
    assert!(application_node_button(&mut added, (1.5, 2.5), true, process()));
    assert_eq!(
        added,
        Some(NewNode {
            id: None,
            kind: NodeKind::Application,
            display_name: "Player".to_string(),
            filename: Some("player.exe".to_string()),
            pos: (1.5, 2.5),
            process_id: Some(42),
        })
    );
}

#[test]
fn last_clicked_entry_wins() {
    let mut added: Option<NewNode<(f32, f32)>> = None;
    assert!(application_node_button(&mut added, (0.0, 0.0), true, process()));
    assert!(device_node_button(&mut added, (3.0, 4.0), true, device(), NodeKind::OutputDevice));
    assert!(!device_node_button(&mut added, (5.0, 6.0), false, device(), NodeKind::InputDevice));
    assert_eq!(
        added,
        Some(NewNode {
            id: Some(7),
            kind: NodeKind::OutputDevice,
            display_name: "Speakers".to_string(),
            filename: None,
            pos: (3.0, 4.0),
            process_id: None,
        })
    );
}
