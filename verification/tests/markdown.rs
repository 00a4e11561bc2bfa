use wikinote::config::Config;
use wikinote::markdown::{parse_markdown, find_frontmatter, get_all_links, point_in_position, Span};
use wikinote::frontmatter::{
    parse_frontmatter, get_title, get_tags, get_timestamp, YamlValue, GetFrontmatterFieldError,
    GetTimestampError, InvalidFrontmatter, title_of_contents,
};
use wikinote::ops::{follow_link_target, FollowLinkError};
use wikinote::note::Note;

fn test_config() -> Config {
    Config::new(
        "/wiki".to_string(),
        "%Y%m%d".to_string(),
        "%Y-%m-%d".to_string(),
        "%H:%M:%S".to_string(),
    )
    .unwrap()
}

const DOC: &str = "---\ntitle: My Note\ndate: 2024-01-02\ntime: 10:30:00\ntags: a::b c\n---\n\nsome [text](other.md) and [more](dir/two.md)\n";

#[test]
fn parse_and_find_frontmatter_test() {
    let tree = parse_markdown(DOC).unwrap();
    let fm = find_frontmatter(&tree).unwrap();
    assert_eq!(fm, "title: My Note\ndate: 2024-01-02\ntime: 10:30:00\ntags: a::b c");
}

#[test]
fn frontmatter_fields_test() {
    let tree = parse_markdown(DOC).unwrap();
    let fm = parse_frontmatter(&tree).unwrap();
    assert_eq!(get_title(&fm).unwrap(), "My Note");
    let tags = get_tags(&fm).unwrap();
    assert_eq!(tags.len(), 2);
    assert_eq!(tags[0].render(), "a::b");
    assert_eq!(tags[1].render(), "c");
}

#[test]
fn timestamp_test() {
    let config = test_config();
    let tree = parse_markdown(DOC).unwrap();
    let fm = parse_frontmatter(&tree).unwrap();
    let ts = get_timestamp(&fm, &config).unwrap();
    assert_eq!(ts.secs, 10 * 3600 + 30 * 60);

    let earlier = parse_markdown("---\ndate: 2024-01-01\n---\n").unwrap();
    let efm = parse_frontmatter(&earlier).unwrap();
    let ets = get_timestamp(&efm, &config).unwrap();
    assert_eq!(ets.secs, 0);
    assert!(ets.le(&ts) && !ts.le(&ets));
}

#[test]
fn timestamp_errors_test() {
    let config = test_config();
    let tree = parse_markdown("---\ntitle: x\n---\n").unwrap();
    let fm = parse_frontmatter(&tree).unwrap();
    assert_eq!(get_timestamp(&fm, &config).unwrap_err(), GetTimestampError::NoDateField);
    assert_eq!(
        get_timestamp(&YamlValue::Str("x".to_string()), &config).unwrap_err(),
        GetTimestampError::NotHashTable,
    );
    let bad = parse_markdown("---\ndate: not-a-date\n---\n").unwrap();
    let bfm = parse_frontmatter(&bad).unwrap();
    assert_eq!(get_timestamp(&bfm, &config).unwrap_err(), GetTimestampError::TimestampParseError);
}

#[test]
fn field_errors_test() {
    let not_table = YamlValue::Str("x".to_string());
    assert!(matches!(get_title(&not_table), Err(GetFrontmatterFieldError::NotHashTable)));
    let tree = parse_markdown("---\ndate: 2024-01-02\n---\n").unwrap();
    let fm = parse_frontmatter(&tree).unwrap();
    assert!(matches!(get_title(&fm), Err(GetFrontmatterFieldError::NoField(_))));
    assert!(matches!(get_tags(&fm), Err(GetFrontmatterFieldError::NoField(_))));
    let bad_tags = parse_markdown("---\ntags: 7\n---\n").unwrap();
    let bfm = parse_frontmatter(&bad_tags).unwrap();
    assert!(matches!(get_tags(&bfm), Err(GetFrontmatterFieldError::FieldWrongType { .. })));
}

#[test]
fn tags_as_list_test() {
    let tree = parse_markdown("---\ntags:\n- a::b\n- c\n---\n").unwrap();
    let fm = parse_frontmatter(&tree).unwrap();
    let tags = get_tags(&fm).unwrap();
    assert_eq!(tags.len(), 2);
    assert_eq!(tags[0].render(), "a::b");
    assert_eq!(tags[1].render(), "c");
}

#[test]
fn get_all_links_test() {
    let tree = parse_markdown(DOC).unwrap();
    let links = get_all_links(&tree);
    assert_eq!(links.len(), 2);
    assert_eq!(links[0].url, "other.md");
    assert_eq!(links[1].url, "dir/two.md");
    assert!(links[0].position.is_some());
}

#[test]
fn point_in_position_test() {
    let span = Span { start: 5, end: 9 };
    assert!(!point_in_position(&span, 4));
    assert!(point_in_position(&span, 5));
    assert!(point_in_position(&span, 8));
    assert!(!point_in_position(&span, 9));
}

#[test]
fn title_of_contents_absorbs_test() {
    assert_eq!(title_of_contents(DOC).unwrap(), "My Note");
    assert!(title_of_contents("no frontmatter here").is_none());
}

#[test]
fn follow_link_test() {
    let config = test_config();
    let current = Note::new_physical(vec!["dir".to_string()], "here".to_string());
    let tree = parse_markdown(DOC).unwrap();
    let links = get_all_links(&tree);
    let inside = links[0].position.unwrap().start;
    let target = follow_link_target(&config, &current, DOC, inside).unwrap();
    assert_eq!(target, "/wiki/dir/other.md");

    let err = follow_link_target(&config, &current, DOC, 0).unwrap_err();
    assert_eq!(err, FollowLinkError::NotOnALink);
}

#[test]
fn frontmatter_missing_test() {
    let tree = parse_markdown("just text, no metadata\n").unwrap();
    assert_eq!(parse_frontmatter(&tree).unwrap_err(), InvalidFrontmatter::NoFrontmatter);
}

#[test]
fn frontmatter_scan_error_test() {
    let tree = parse_markdown("---\ntitle: [unclosed\n---\n").unwrap();
    assert_eq!(parse_frontmatter(&tree).unwrap_err(), InvalidFrontmatter::YamlScanError);
}
