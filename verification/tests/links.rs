use wikinote::config::Config;
use wikinote::links::{format_link_path, resolve_link_path};
use wikinote::note::Note;

fn test_config() -> Config {
    Config::new(
        "/path/to/wiki".to_string(),
        "%Y%m%d%H%M%S".to_string(),
        "%Y-%m-%d".to_string(),
        "%H:%M:%S".to_string(),
    )
    .expect("home path is absolute")
}

#[test]
fn format_link_path_to_abs_test() {
    let config = test_config();
    let current_note = Note::new_physical(vec![], "start".to_string());
    let target_note = "/path/to/wiki/end.md";

    assert_eq!(format_link_path(&config, &current_note, target_note).unwrap(), "end.md");
}

#[test]
fn format_link_path_to_rel_test() {
    let config = test_config();
    let current_note = Note::new_physical(vec![], "start".to_string());
    let target_path = "end.md";

    format_link_path(&config, &current_note, target_path).unwrap_err();
}

#[test]
fn format_link_target_more_nested_test() {
    let config = test_config();
    let current_note = Note::new_physical(vec!["dir".to_string()], "start".to_string());
    let target_path = "/path/to/wiki/dir/dir2/end.md";

    assert_eq!(format_link_path(&config, &current_note, target_path).unwrap(), "dir2/end.md");
}

#[test]
fn format_link_target_same_directory_test() {
    let config = test_config();
    let current_note =
        Note::new_physical(vec!["dir".to_string(), "dir2".to_string()], "start".to_string());
    let target_path = "/path/to/wiki/dir/dir2/end.md";

    assert_eq!(format_link_path(&config, &current_note, target_path).unwrap(), "end.md");
}

#[test]
fn format_link_target_less_nested_test() {
    let config = test_config();
    let current_note =
        Note::new_physical(vec!["dir".to_string(), "dir2".to_string()], "start".to_string());
    let target_path = "/path/to/wiki/dir/end.md";

    assert_eq!(format_link_path(&config, &current_note, target_path).unwrap(), "../end.md");
}

#[test]
fn link_round_trip_test() {
    // formatting a link from one note to another and resolving it at the
    // first note returns exactly the target's path
    let config = test_config();
    let a = Note::new_physical(vec!["dir".to_string(), "sub".to_string()], "start".to_string());
    let b = Note::new_physical(vec!["elsewhere".to_string()], "end".to_string());
    let b_path = match &b {
        Note::Physical(n) => n.path(&config),
        Note::Scratch(_) => unreachable!(),
    };

    let link = format_link_path(&config, &a, &b_path).unwrap();
    assert_eq!(link, "../../elsewhere/end.md");
    let resolved = resolve_link_path(&config, &a, &link).unwrap();
    assert_eq!(resolved, b_path);
}

#[test]
fn resolve_scratch_absolute_test() {
    let config = test_config();
    let scratch = Note::Scratch(wikinote::note::ScratchNote { buffer: 7 });
    let resolved = resolve_link_path(&config, &scratch, "/somewhere/else.md").unwrap();
    assert_eq!(resolved, "/somewhere/else.md");
}

#[test]
fn resolve_scratch_relative_test() {
    let config = test_config();
    let scratch = Note::Scratch(wikinote::note::ScratchNote { buffer: 7 });
    let resolved = resolve_link_path(&config, &scratch, "notes/today.md").unwrap();
    assert_eq!(resolved, "/path/to/wiki/notes/today.md");
}
