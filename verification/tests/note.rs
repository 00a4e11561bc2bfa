use wikinote::config::Config;
use wikinote::note::{Note, PhysicalNote, Tag, ParseFromFilepathError};

fn test_config() -> Config {
    Config::new(
        "/path/to/wiki".to_string(),
        String::new(),
        String::new(),
        String::new(),
    )
    .expect("home path is absolute")
}

#[test]
fn parse_from_filepath_relative_test() {
    let config = test_config();

    let note_parsed = PhysicalNote::parse_from_filepath(&config, "dir1/dir2/note.md")
        .expect("parse from filepath should work");
    assert_eq!(
        note_parsed,
        PhysicalNote { directories: vec!["dir1".to_string(), "dir2".to_string()], id: "note".to_string() }
    );
}

#[test]
fn parse_from_filepath_absolute_in_home_test() {
    let config = test_config();

    let note_parsed = PhysicalNote::parse_from_filepath(&config, "/path/to/wiki/dir1/dir2/note.md")
        .expect("parse from filepath should work");
    assert_eq!(
        note_parsed,
        PhysicalNote { directories: vec!["dir1".to_string(), "dir2".to_string()], id: "note".to_string() }
    );
}

#[test]
fn parse_from_filepath_absolute_out_of_home_test() {
    let config = test_config();

    PhysicalNote::parse_from_filepath(&config, "/some/other/directory/note.md")
        .expect_err("parse from filepath should not work in this case");
}

#[test]
fn parse_from_filepath_rejection_kind_test() {
    let config = Config::new("/wiki".to_string(), String::new(), String::new(), String::new())
        .unwrap();
    let err = PhysicalNote::parse_from_filepath(&config, "/elsewhere/note.md").unwrap_err();
    assert_eq!(err, ParseFromFilepathError::FileNotWithinWikiDir);
}

#[test]
fn parse_from_filepath_no_parent_test() {
    let config = Config::new("/wiki".to_string(), String::new(), String::new(), String::new())
        .unwrap();
    let err = PhysicalNote::parse_from_filepath(&config, "/wiki").unwrap_err();
    assert_eq!(err, ParseFromFilepathError::NoPathParent);
}

#[test]
fn parse_from_filepath_dotdot_test() {
    let config = Config::new("/wiki".to_string(), String::new(), String::new(), String::new())
        .unwrap();
    let note = PhysicalNote::parse_from_filepath(&config, "/wiki/a/../b/./note.v2.md").unwrap();
    assert_eq!(
        note,
        PhysicalNote { directories: vec!["b".to_string()], id: "note.v2".to_string() }
    );
}

#[test]
fn note_path_test() {
    let config = test_config();
    let note = PhysicalNote { directories: vec!["dir".to_string()], id: "x".to_string() };
    assert_eq!(note.path(&config), "/path/to/wiki/dir/x.md");
}

#[test]
fn note_accessors_test() {
    let physical = Note::new_physical(vec![], "a".to_string());
    let scratch = Note::Scratch(wikinote::note::ScratchNote { buffer: 3 });
    assert!(physical.is_physical() && !physical.is_scratch());
    assert!(scratch.is_scratch() && !scratch.is_physical());
    assert_eq!(physical.get_id().unwrap(), "a");
    assert!(scratch.get_id().is_none());
    assert!(physical.as_physical().is_some());
    assert!(physical.as_scratch().is_none());
    assert!(scratch.as_scratch().is_some());
    let config = test_config();
    assert_eq!(physical.path(&config).unwrap(), "/path/to/wiki/a.md");
    assert!(scratch.path(&config).is_none());
}

#[test]
fn tag_ordering_test() {
    // "a::b" < "a::c" < "b" under the segment-wise order
    let ab = Tag::parse_from_str("a::b");
    let ac = Tag::parse_from_str("a::c");
    let b = Tag::parse_from_str("b");
    assert!(ab.le(&ac) && !ac.le(&ab));
    assert!(ac.le(&b) && !b.le(&ac));
    assert!(ab.le(&b) && !b.le(&ab));
    assert!(ab < ac && ac < b);
}

#[test]
fn tag_parse_render_test() {
    let t = Tag::parse_from_str("project::sub");
    assert_eq!(t.0, vec!["project".to_string(), "sub".to_string()]);
    assert_eq!(t.render(), "project::sub");
    assert!(t.eq_tag(&Tag::parse_from_str("project::sub")));
    assert!(!t.eq_tag(&Tag::parse_from_str("project")));
}
