use noteapp::actions::NoteDate;
use noteapp::scans::{next_note_number, parse_int, DeleteError, PostError, Scan, ScanEntry};
use noteapp::settings::Paths;

fn names(v: &[&str]) -> Vec<String> {
    v.iter().map(|s| s.to_string()).collect()
}

fn paths() -> Paths {
    Paths { notes_path: String::from("/notes"), scans_path: String::from("/scans") }
}

#[test]
fn first_note_is_zero() {
    assert_eq!(next_note_number(Vec::new()).unwrap(), "000");
}

#[test]
fn next_note_follows_contiguous_numbers() {
    let n = next_note_number(names(&["000", "001", "002", "003", "004"])).unwrap();
    assert_eq!(n, "005");
}

#[test]
fn next_note_follows_last_of_gap() {
    assert_eq!(next_note_number(names(&["000", "002"])).unwrap(), "003");
    assert_eq!(next_note_number(names(&["002", "000"])).unwrap(), "003");
}

#[test]
fn next_note_takes_lexicographic_last_not_numeric_max() {
    assert_eq!(next_note_number(names(&["10", "9"])).unwrap(), "010");
    assert_eq!(next_note_number(names(&["999"])).unwrap(), "1000");
}

#[test]
fn next_note_fails_on_non_numeric_last() {
    assert_eq!(next_note_number(names(&["000", "notes"])), Err(PostError));
    assert_eq!(next_note_number(names(&["2147483648"])), Err(PostError));
}

#[test]
fn next_note_reads_signed_names() {
    assert_eq!(next_note_number(names(&["-5"])).unwrap(), "-04");
    assert_eq!(next_note_number(names(&["+7"])).unwrap(), "008");
}

#[test]
fn parses_like_std() {
    for s in ["0", "+7", "-7", "2147483647", "-2147483648", "2147483648", "", "+", "-", "1a", " 1", "007"] {
        assert_eq!(parse_int(s), s.parse::<i32>().ok().map(|v| v as i64), "{}", s);
    }
}

#[test]
fn scan_from_path_takes_final_component() {
    assert_eq!(Scan::from_path("/scans/0001").id, "0001");
    assert_eq!(Scan::from_path("/scans/0002/").id, "0002");
    assert_eq!(Scan::from_path("single").id, "single");
}

#[test]
fn scan_paths() {
    let scan = Scan { id: String::from("abc") };
    assert_eq!(scan.to_path(&paths()), "/scans/abc");
    assert_eq!(scan.image_path(&paths()), "/scans/abc/result.jpg");
}

#[test]
fn populate_keeps_directories_sorted() {
    let entries = vec![
        ScanEntry { path: String::from("/scans/b"), is_dir: true },
        ScanEntry { path: String::from("/scans/readme.txt"), is_dir: false },
        ScanEntry { path: String::from("/scans/a"), is_dir: true },
        ScanEntry { path: String::from("/scans/c"), is_dir: true },
    ];
    let scans = Scan::populate_scans(&entries);
    let ids: Vec<&str> = scans.iter().map(|s| s.id.as_str()).collect();
    assert_eq!(ids, vec!["a", "b", "c"]);
    assert!(Scan::populate_scans(&Vec::new()).is_empty());
}

#[test]
fn plan_post_places_note_in_next_folder() {
    let scan = Scan { id: String::from("s1") };
    let date = NoteDate::full_date(2021, 3, 4);
    let folder = paths().date_folder(&date);
    assert_eq!(folder, "/notes/2021/03/04");
    let plan = scan.plan_post(&paths(), &folder, names(&["000", "001"])).unwrap();
    assert_eq!(plan.note_dir, "/notes/2021/03/04/002");
    assert_eq!(plan.source, "/scans/s1/result.jpg");
    assert_eq!(plan.target, "/notes/2021/03/04/002/result.jpg");
    let first = scan.plan_post(&paths(), &folder, Vec::new()).unwrap();
    assert_eq!(first.note_dir, "/notes/2021/03/04/000");
    assert_eq!(scan.plan_post(&paths(), &folder, names(&["x"])).unwrap_err(), PostError);
}

#[test]
fn error_messages() {
    assert_eq!(DeleteError.to_string(), "Error deleting scan");
    assert_eq!(PostError.to_string(), "Error posting scan");
}
