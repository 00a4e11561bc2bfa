use wikinote::config::Config;
use wikinote::autogen::{
    line_start_marker, line_is_end_marker, line_is_start_marker, region_end, args_of,
    regenerate_autogenerated_sections, NoteEntry, RegenError,
};
use wikinote::note::{Note, PhysicalNote, ScratchNote};

fn test_config() -> Config {
    Config::new(
        "/wiki".to_string(),
        "%Y%m%d".to_string(),
        "%Y-%m-%d".to_string(),
        "%H:%M:%S".to_string(),
    )
    .unwrap()
}

fn root_note(id: &str) -> PhysicalNote {
    PhysicalNote { directories: vec![], id: id.to_string() }
}

fn entry(id: &str, contents: &str) -> NoteEntry {
    NoteEntry { note: root_note(id), contents: contents.to_string() }
}

fn lines(xs: &[&str]) -> Vec<String> {
    xs.iter().map(|s| s.to_string()).collect()
}

#[test]
fn marker_grammar_test() {
    let (cmd, tail) = line_start_marker("wikiplugin_autogenerate index dir;title").unwrap();
    assert_eq!(cmd, "index");
    assert_eq!(tail, " dir;title");
    assert!(line_start_marker("wikiplugin_autogenerate_end").is_none());
    assert!(line_start_marker("wikiplugin_autogenerate").is_none());
    assert!(line_start_marker("prefixwikiplugin_autogenerate index").is_none());
    assert!(line_is_end_marker("-- wikiplugin_autogenerate_end --"));
    assert!(!line_is_end_marker("wikiplugin_autogenerate index"));
    assert!(line_is_start_marker("> wikiplugin_autogenerate backlinks"));
}

#[test]
fn args_split_test() {
    let args = args_of(" dir/sub ; title ");
    assert_eq!(args, vec!["dir/sub".to_string(), "title".to_string()]);
    let bare = args_of("");
    assert_eq!(bare, vec![String::new()]);
}

#[test]
fn region_end_cases_test() {
    // an end marker below, no further start marker: use it
    let a = lines(&["wikiplugin_autogenerate index", "old", "wikiplugin_autogenerate_end"]);
    assert_eq!(region_end(&a, 0), Some(2));
    // no end marker at all: synthesize
    let b = lines(&["wikiplugin_autogenerate index", "text"]);
    assert_eq!(region_end(&b, 0), None);
    // the end marker belongs to the next block: synthesize
    let c = lines(&[
        "wikiplugin_autogenerate index",
        "wikiplugin_autogenerate backlinks",
        "wikiplugin_autogenerate_end",
    ]);
    assert_eq!(region_end(&c, 0), None);
    assert_eq!(region_end(&c, 1), Some(2));
}

#[test]
fn regenerate_synthesizes_end_marker_test() {
    // a start marker without any end marker gets one right below it
    let config = test_config();
    let cur = Note::Scratch(ScratchNote { buffer: 1 });
    let corpus: Vec<NoteEntry> = vec![];
    let buf = lines(&["wikiplugin_autogenerate index"]);
    let (out, msgs) = regenerate_autogenerated_sections(&config, &cur, &corpus, buf).unwrap();
    assert_eq!(out, lines(&["wikiplugin_autogenerate index", "wikiplugin_autogenerate_end"]));
    assert!(msgs.is_empty());
}

#[test]
fn regenerate_shared_end_marker_test() {
    // the first of two stacked blocks must not swallow the second one's
    // end marker
    let config = test_config();
    let cur = Note::Scratch(ScratchNote { buffer: 1 });
    let corpus: Vec<NoteEntry> = vec![];
    let buf = lines(&[
        "wikiplugin_autogenerate index",
        "wikiplugin_autogenerate index",
        "stale",
        "wikiplugin_autogenerate_end",
    ]);
    let (out, _msgs) = regenerate_autogenerated_sections(&config, &cur, &corpus, buf).unwrap();
    assert_eq!(
        out,
        lines(&[
            "wikiplugin_autogenerate index",
            "wikiplugin_autogenerate_end",
            "wikiplugin_autogenerate index",
            "wikiplugin_autogenerate_end",
        ])
    );
}

#[test]
fn regenerate_unknown_command_test() {
    let config = test_config();
    let cur = Note::Scratch(ScratchNote { buffer: 1 });
    let corpus: Vec<NoteEntry> = vec![];
    let buf = lines(&["wikiplugin_autogenerate shuffle", "keep", "wikiplugin_autogenerate_end"]);
    let (out, msgs) = regenerate_autogenerated_sections(&config, &cur, &corpus, buf.clone())
        .unwrap();
    // the block stays untouched and the unknown command is reported
    assert_eq!(out, buf);
    assert_eq!(msgs.len(), 1);
    assert!(msgs[0].contains("shuffle"));
}

#[test]
fn index_sort_fallback_test() {
    // sorting by title where one candidate has no title compares ids
    // for that pair instead
    let config = test_config();
    let cur = Note::Physical(root_note("cur"));
    let corpus = vec![
        entry("cur", "---\ntitle: Cur\n---\n"),
        entry("zzz", "---\ntitle: Aaa\n---\n"),
        entry("bbb", "no frontmatter, no title"),
    ];
    let buf = lines(&["wikiplugin_autogenerate index ;title", "wikiplugin_autogenerate_end"]);
    let (out, msgs) = regenerate_autogenerated_sections(&config, &cur, &corpus, buf).unwrap();
    assert!(msgs.is_empty());
    // "bbb" has no title: against "zzz" it compares by id, so it comes
    // first; "cur" and "zzz" have titles and sort by them
    assert_eq!(
        out,
        lines(&[
            "wikiplugin_autogenerate index ;title",
            "- [](bbb.md)",
            "- [Aaa](zzz.md)",
            "- [Cur](cur.md)",
            "wikiplugin_autogenerate_end",
        ])
    );
}

#[test]
fn index_sort_by_date_test() {
    let config = test_config();
    let cur = Note::Physical(root_note("cur"));
    let corpus = vec![
        entry("cur", "---\ntitle: Cur\ndate: 2024-03-01\n---\n"),
        entry("young", "---\ntitle: B\ndate: 2024-02-01\n---\n"),
        entry("old", "---\ntitle: A\ndate: 2024-01-01\n---\n"),
    ];
    let buf = lines(&["wikiplugin_autogenerate index ;date", "wikiplugin_autogenerate_end"]);
    let (out, _msgs) = regenerate_autogenerated_sections(&config, &cur, &corpus, buf).unwrap();
    assert_eq!(
        out,
        lines(&[
            "wikiplugin_autogenerate index ;date",
            "- [A](old.md)",
            "- [B](young.md)",
            "- [Cur](cur.md)",
            "wikiplugin_autogenerate_end",
        ])
    );
}

#[test]
fn backlinks_test() {
    let config = test_config();
    let cur = Note::Physical(root_note("target"));
    let corpus = vec![
        entry("target", "---\ntitle: Target\n---\n"),
        entry("friend", "---\ntitle: Friend\n---\nsee [t](target.md)\n"),
        entry("stranger", "---\ntitle: Stranger\n---\nnothing here\n"),
    ];
    let buf = lines(&["wikiplugin_autogenerate backlinks", "wikiplugin_autogenerate_end"]);
    let (out, _msgs) = regenerate_autogenerated_sections(&config, &cur, &corpus, buf).unwrap();
    assert_eq!(
        out,
        lines(&[
            "wikiplugin_autogenerate backlinks",
            "- [Friend](friend.md)",
            "wikiplugin_autogenerate_end",
        ])
    );
}

#[test]
fn explore_test() {
    let config = test_config();
    let cur = Note::Physical(root_note("a"));
    let corpus = vec![
        entry("a", "[to b](b.md)\nwikiplugin_autogenerate explore\nwikiplugin_autogenerate_end\n"),
        entry("b", "---\ntitle: B\n---\n[to c](c.md)\n"),
        entry("c", "---\ntitle: C\n---\n[back](a.md)\n"),
        entry("lonely", "---\ntitle: L\n---\n"),
    ];
    let buf = lines(&[
        "[to b](b.md)",
        "wikiplugin_autogenerate explore",
        "wikiplugin_autogenerate_end",
    ]);
    let (out, _msgs) = regenerate_autogenerated_sections(&config, &cur, &corpus, buf).unwrap();
    // b and c are reachable, a itself and lonely are not listed
    assert_eq!(
        out,
        lines(&[
            "[to b](b.md)",
            "wikiplugin_autogenerate explore",
            "- [B](b.md)",
            "- [C](c.md)",
            "wikiplugin_autogenerate_end",
        ])
    );
}

#[test]
fn explore_missing_note_test() {
    let config = test_config();
    let cur = Note::Physical(root_note("a"));
    let corpus = vec![entry("a", "[gone](missing.md)\n")];
    let buf = lines(&[
        "[gone](missing.md)",
        "wikiplugin_autogenerate explore",
        "wikiplugin_autogenerate_end",
    ]);
    let err = regenerate_autogenerated_sections(&config, &cur, &corpus, buf).unwrap_err();
    assert_eq!(err, RegenError::NoteNotFound);
}

#[test]
fn explore_note_outside_wiki_test() {
    let config = test_config();
    let cur = Note::Physical(root_note("a"));
    let corpus = vec![entry("a", "")];
    let buf = lines(&[
        "[out](/elsewhere/y.md)",
        "wikiplugin_autogenerate explore",
        "wikiplugin_autogenerate_end",
    ]);
    let err = regenerate_autogenerated_sections(&config, &cur, &corpus, buf).unwrap_err();
    assert_eq!(err, RegenError::NoteParse);
}

#[test]
fn index_relative_home_fails_test() {
    // a wiki root that is not absolute leaves no way to format a link
    let config = Config {
        home_path: "relative/home".to_string(),
        note_id_timestamp_format: String::new(),
        date_format: String::new(),
        time_format: String::new(),
    };
    let cur = Note::Physical(root_note("cur"));
    let corpus = vec![entry("one", "---\ntitle: One\n---\n")];
    let buf = lines(&["wikiplugin_autogenerate index", "wikiplugin_autogenerate_end"]);
    let err = regenerate_autogenerated_sections(&config, &cur, &corpus, buf).unwrap_err();
    assert_eq!(err, RegenError::LinkFormat);
}

#[test]
fn index_subdirectory_test() {
    let config = test_config();
    let cur = Note::Physical(root_note("cur"));
    let corpus = vec![
        entry("top", "---\ntitle: Top\n---\n"),
        NoteEntry {
            note: PhysicalNote { directories: vec!["dir".to_string()], id: "x".to_string() },
            contents: "---\ntitle: X\n---\n".to_string(),
        },
    ];
    let buf = lines(&["wikiplugin_autogenerate index dir", "wikiplugin_autogenerate_end"]);
    let (out, _msgs) = regenerate_autogenerated_sections(&config, &cur, &corpus, buf).unwrap();
    assert_eq!(
        out,
        lines(&[
            "wikiplugin_autogenerate index dir",
            "- [X](dir/x.md)",
            "wikiplugin_autogenerate_end",
        ])
    );
}

#[test]
fn index_unknown_sort_key_test() {
    let config = test_config();
    let cur = Note::Physical(root_note("cur"));
    let corpus = vec![
        entry("b", "---\ntitle: Zed\n---\n"),
        entry("a", "---\ntitle: Ann\n---\n"),
    ];
    let buf = lines(&["wikiplugin_autogenerate index ;upside-down", "wikiplugin_autogenerate_end"]);
    let (out, msgs) = regenerate_autogenerated_sections(&config, &cur, &corpus, buf).unwrap();
    // the unknown key is reported and the id order is used
    assert_eq!(msgs.len(), 1);
    assert!(msgs[0].contains("upside-down"));
    assert_eq!(
        out,
        lines(&[
            "wikiplugin_autogenerate index ;upside-down",
            "- [Ann](a.md)",
            "- [Zed](b.md)",
            "wikiplugin_autogenerate_end",
        ])
    );
}
