use wikinote::config::Config;
use wikinote::autogen::{regenerate_autogenerated_sections, NoteEntry};
use wikinote::note::{Note, PhysicalNote};
use wikinote::ops::{new_note_content, link_snippet_for, confirm_delete, InsertLinkError};
use wikinote::tagindex::tag_index_lines;
use wikinote::strutil::join_lines_nl;

fn wiki_config() -> Config {
    Config::new(
        "/wiki".to_string(),
        "%Y%m%d".to_string(),
        "%Y-%m-%d".to_string(),
        "%H:%M:%S".to_string(),
    )
    .unwrap()
}

#[test]
fn end_to_end_scenario_test() {
    // a wiki at /wiki with note ids formatted from the clock
    let config = wiki_config();

    // creating the note: the shell formats the clock as 20240101 and the
    // library provides path and template
    let note_id = "20240101".to_string();
    let new_note = PhysicalNote { directories: vec![], id: note_id };
    assert_eq!(new_note.path(&config), "/wiki/20240101.md");
    let template = new_note_content("X", "2024-01-01", "09:00:00");
    assert_eq!(
        template,
        vec![
            "---".to_string(),
            "title: X".to_string(),
            "date: 2024-01-01".to_string(),
            "time: 09:00:00".to_string(),
            "tags:".to_string(),
            "---".to_string(),
        ]
    );
    let new_note_text = join_lines_nl(&template);

    // inserting a link to it at the cursor of another note in the same
    // directory: the text falls back to the new note's title
    let current = Note::new_physical(vec![], "journal".to_string());
    let snippet = link_snippet_for(
        &config,
        &current,
        &Note::Physical(new_note.clone()),
        None,
        Some(new_note_text.clone()),
    )
    .unwrap();
    assert_eq!(snippet, "[X](20240101.md)");

    // a scratch target is refused
    let err = link_snippet_for(
        &config,
        &current,
        &Note::Scratch(wikinote::note::ScratchNote { buffer: 2 }),
        None,
        None,
    )
    .unwrap_err();
    assert_eq!(err, InsertLinkError::CannotLinkToScratchNote);

    // regenerating an index block under the root with no sort argument
    // lists the notes sorted by title ascending
    let corpus = vec![
        NoteEntry { note: new_note, contents: new_note_text },
        NoteEntry {
            note: PhysicalNote { directories: vec![], id: "journal".to_string() },
            contents: "---\ntitle: Journal\n---\nwikiplugin_autogenerate index\n".to_string(),
        },
        NoteEntry {
            note: PhysicalNote { directories: vec![], id: "alpha".to_string() },
            contents: "---\ntitle: Alpha\n---\n".to_string(),
        },
    ];
    let buf: Vec<String> = vec![
        "---".to_string(),
        "title: Journal".to_string(),
        "---".to_string(),
        "wikiplugin_autogenerate index".to_string(),
    ];
    let (out, msgs) = regenerate_autogenerated_sections(&config, &current, &corpus, buf).unwrap();
    assert!(msgs.is_empty());
    assert_eq!(
        out,
        vec![
            "---".to_string(),
            "title: Journal".to_string(),
            "---".to_string(),
            "wikiplugin_autogenerate index".to_string(),
            "- [Alpha](alpha.md)".to_string(),
            "- [Journal](journal.md)".to_string(),
            "- [X](20240101.md)".to_string(),
            "wikiplugin_autogenerate_end".to_string(),
        ]
    );
}

#[test]
fn tag_index_test() {
    let config = wiki_config();
    let corpus = vec![
        NoteEntry {
            note: PhysicalNote { directories: vec![], id: "one".to_string() },
            contents: "---\ntitle: One\ntags: b a::x\n---\n".to_string(),
        },
        NoteEntry {
            note: PhysicalNote { directories: vec![], id: "two".to_string() },
            contents: "---\ntitle: Two\ntags: b\n---\n".to_string(),
        },
        NoteEntry {
            note: PhysicalNote { directories: vec![], id: "plain".to_string() },
            contents: "no metadata at all".to_string(),
        },
    ];
    let lines = tag_index_lines(&config, &corpus);
    assert_eq!(
        lines,
        vec![
            "# a::x".to_string(),
            "".to_string(),
            "- [One](/wiki/one.md)".to_string(),
            "".to_string(),
            "# b".to_string(),
            "".to_string(),
            "- [One](/wiki/one.md)".to_string(),
            "- [Two](/wiki/two.md)".to_string(),
            "".to_string(),
        ]
    );
}

#[test]
fn confirm_delete_test() {
    assert!(confirm_delete("yes"));
    assert!(!confirm_delete("Yes"));
    assert!(!confirm_delete("no"));
    assert!(!confirm_delete(""));
}
