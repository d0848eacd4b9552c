use nodio::shell::{
    menu_choice, start_hidden, toggled_startup, tray_label, tray_menu, ButtonState, Command,
    MenuChoice, MouseButton, Shell, TrayEvent, TrayItem,
};

fn strings(items: &[&str]) -> Vec<String> {
    items.iter().map(|s| s.to_string()).collect()
}

fn left_up() -> TrayEvent {
    TrayEvent::Click { button: MouseButton::Left, state: ButtonState::Up }
}

#[test]
fn starts_hidden_only_when_asked() {
    let flag = "--minimized".to_string();
    assert!(start_hidden(&strings(&["nodio", "--minimized"]), &flag));
    assert!(!start_hidden(&strings(&["nodio", "--min"]), &flag));
    assert!(!start_hidden(&Vec::new(), &flag));
    assert_eq!(Shell::new(true), Shell { visible: false, should_quit: false });
    assert_eq!(Shell::new(false), Shell { visible: true, should_quit: false });
}

#[test]
fn tray_menu_has_three_entries_apart() {
    let items = tray_menu(true);
    assert_eq!(
        items,
        vec![
            TrayItem::Show,
            TrayItem::Separator,
            TrayItem::Startup { checked: true },
            TrayItem::Separator,
            TrayItem::Quit,
        ]
    );
    let labels: Vec<Option<&str>> = items.iter().map(|i| tray_label(*i)).collect();
    assert_eq!(labels, vec![Some("Show UI"), None, Some("Run on startup"), None, Some("Quit")]);
}

#[test]
fn menu_choices_are_told_apart() {
    let (show, startup, quit) = ("1".to_string(), "2".to_string(), "3".to_string());
    let of = |id: &str| menu_choice(&id.to_string(), &show, &startup, &quit);
    assert_eq!(of("1"), MenuChoice::Show);
    assert_eq!(of("2"), MenuChoice::Startup);
    assert_eq!(of("3"), MenuChoice::Quit);
    assert_eq!(of("4"), MenuChoice::Other);
}

#[test]
fn closing_hides_the_window() {
    let mut shell = Shell::new(false);
    let commands = shell.logic(true, &Vec::new(), &Vec::new());
    assert_eq!(
        commands,
        vec![Command::CancelClose, Command::Visible(false), Command::RepaintAfter(100)]
    );
    assert_eq!(shell, Shell { visible: false, should_quit: false });
}

#[test]
fn quitting_lets_the_close_through() {
    let mut shell = Shell::new(false);
    assert_eq!(shell.logic(false, &Vec::new(), &vec![MenuChoice::Quit]), vec![Command::Close]);
    assert!(shell.should_quit);
    assert_eq!(shell.logic(true, &Vec::new(), &Vec::new()), Vec::new());
    assert_eq!(shell, Shell { visible: true, should_quit: true });
}

#[test]
fn left_click_on_the_tray_shows_the_window() {
    let mut shell = Shell::new(true);
    let other = TrayEvent::Click { button: MouseButton::Left, state: ButtonState::Down };
    let right = TrayEvent::Click { button: MouseButton::Right, state: ButtonState::Up };
    let commands = shell.logic(false, &vec![other, right, TrayEvent::Other], &Vec::new());
    assert_eq!(commands, vec![Command::RepaintAfter(100)]);
    let commands = shell.logic(false, &vec![left_up()], &Vec::new());
    assert_eq!(commands, vec![Command::Visible(true), Command::Focus]);
    assert!(shell.visible);
}

#[test]
fn show_entry_toggles_the_window() {
    let mut shell = Shell::new(false);
    let commands = shell.logic(false, &Vec::new(), &vec![MenuChoice::Show]);
    assert_eq!(commands, vec![Command::Visible(false), Command::RepaintAfter(100)]);
    let commands = shell.logic(false, &Vec::new(), &vec![MenuChoice::Show]);
    assert_eq!(commands, vec![Command::Visible(true), Command::Focus]);
    assert_eq!(shell, Shell::new(false));
}

#[test]
fn close_comes_before_tray_and_tray_before_menu() {
    let mut shell = Shell::new(false);
    let choices = vec![MenuChoice::Startup, MenuChoice::Other, MenuChoice::Show];
    let commands = shell.logic(true, &vec![left_up()], &choices);
    assert_eq!(
        commands,
        vec![
            Command::CancelClose,
            Command::Visible(false),
            Command::Visible(true),
            Command::Focus,
            Command::ToggleStartup,
            Command::Visible(false),
            Command::RepaintAfter(100),
        ]
    );
    assert!(!shell.visible);
}

#[test]
fn startup_setting_is_switched() {
    assert!(toggled_startup(false));
    assert!(!toggled_startup(true));
}
