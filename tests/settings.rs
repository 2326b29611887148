use noteapp::actions::NoteDate;
use noteapp::application::{Action, NoteApp};
use noteapp::messages::Message;
use noteapp::scans::Scan;
use noteapp::settings::Paths;

fn paths() -> Paths {
    Paths { notes_path: String::from("/notes"), scans_path: String::from("/scans") }
}

fn scans(n: usize) -> Vec<Scan> {
    (0..n).map(|i| Scan { id: format!("s{}", i) }).collect()
}

#[test]
fn validate_reports_missing_notes_first() {
    let e = paths().validate(false, false).unwrap_err();
    assert_eq!(e.message, "Notes path does not exist: /notes");
    assert_eq!(e.to_string(), "SettingsValidationError: Notes path does not exist: /notes");
    let e = paths().validate(true, false).unwrap_err();
    assert_eq!(e.message, "Scans path does not exist: /scans");
    assert!(paths().validate(true, true).is_ok());
}

#[test]
fn session_moves_within_bounds() {
    let mut app = NoteApp::new(paths(), scans(2));
    assert_eq!(app.title(), "Note App");
    assert_eq!(app.update(Message::Previous), Action::Nothing);
    assert_eq!(app.index, 0);
    app.update(Message::Next);
    assert_eq!(app.index, 1);
    app.update(Message::Next);
    assert_eq!(app.index, 1);
    assert_eq!(app.current_scan().unwrap().id, "s1");
    let mut empty = NoteApp::new(paths(), Vec::new());
    assert_eq!(empty.update(Message::Next), Action::Nothing);
    assert_eq!(empty.index, 0);
    assert_eq!(empty.update(Message::Delete), Action::Nothing);
}

#[test]
fn session_posts_only_with_a_date() {
    let mut app = NoteApp::new(paths(), scans(1));
    assert_eq!(app.update(Message::Post), Action::Nothing);
    app.update(Message::InputChanged(String::from("2021.05")));
    assert_eq!(app.input, "2021.05");
    assert_eq!(app.date, Some(NoteDate::year_month(2021, 5)));
    assert_eq!(app.update(Message::Post), Action::PostScan(NoteDate::year_month(2021, 5)));
    app.update(Message::InputChanged(String::from("20")));
    assert_eq!(app.date, None);
    assert_eq!(app.update(Message::Post), Action::Nothing);
    assert_eq!(app.update(Message::Delete), Action::DeleteScan);
}

#[test]
fn reload_clamps_position() {
    let mut app = NoteApp::new(paths(), scans(3));
    app.update(Message::Next);
    app.update(Message::Next);
    assert_eq!(app.index, 2);
    app.reload(scans(2));
    assert_eq!(app.index, 1);
    app.reload(Vec::new());
    assert!(app.current_scan().is_none());
}
