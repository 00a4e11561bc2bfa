use vstd::prelude::*;
use crate::config::Config;
use crate::note::{Note, PhysicalNote};
use crate::markdown::{md_parse_of, parse_markdown, spec_link_at, find_link_at};
use crate::links::{spec_format_link, spec_resolve_link, format_link_path, resolve_link_path};
use crate::frontmatter::{spec_title_of_contents, title_of_contents};
use crate::strutil::str_eq;

verus! {

// ---------------------------------------------------------------------------
// Errors of single-note operations
// ---------------------------------------------------------------------------

/// A host path was not valid text.
#[derive(PartialEq, Eq, Debug, Clone, Copy, Structural)]
pub struct NonUtf8Path;

/// A scratch note cannot be a link target.
#[derive(PartialEq, Eq, Debug, Clone, Copy, Structural)]
pub struct CannotLinkToScratchNote;

/// The cursor does not rest on a link.
#[derive(PartialEq, Eq, Debug, Clone, Copy, Structural)]
pub struct NotOnALink;

/// Why following the link under the cursor failed.
#[derive(PartialEq, Eq, Debug, Clone, Copy, Structural)]
pub enum FollowLinkError {
    MarkdownUnparsable,
    NotOnALink,
}

/// Why a link could not be inserted.
#[derive(PartialEq, Eq, Debug, Clone, Copy, Structural)]
pub enum InsertLinkError {
    CannotLinkToScratchNote,
    FormatLinkPath,
}

// ---------------------------------------------------------------------------
// New notes
// ---------------------------------------------------------------------------

/// The frontmatter template of a fresh note.
pub open spec fn spec_new_note_content(
    title: Seq<char>,
    date: Seq<char>,
    time: Seq<char>,
) -> Seq<Seq<char>> {
    seq![
        "---"@,
        "title: "@ + title,
        "date: "@ + date,
        "time: "@ + time,
        "tags:"@,
        "---"@,
    ]
}

/// Builds the initial buffer lines of a fresh note: a frontmatter block
/// with the prompted title and the formatted date and time.
pub fn new_note_content(title: &str, date: &str, time: &str) -> (r: Vec<String>)
    ensures
        r.deep_view() == spec_new_note_content(title@, date@, time@),
{
    let mut r: Vec<String> = Vec::new();
    r.push(String::from_str("---"));
    let mut t = String::from_str("title: ");
    t.append(title);
    r.push(t);
    let mut d = String::from_str("date: ");
    d.append(date);
    r.push(d);
    let mut m = String::from_str("time: ");
    m.append(time);
    r.push(m);
    r.push(String::from_str("tags:"));
    r.push(String::from_str("---"));
    proof {
        assert(r.deep_view() =~~= spec_new_note_content(title@, date@, time@));
    }
    r
}

// ---------------------------------------------------------------------------
// Inserting links
// ---------------------------------------------------------------------------

/// The snippet put at the cursor: `[text](link)`.
pub open spec fn spec_link_snippet(text: Seq<char>, link: Seq<char>) -> Seq<char> {
    "["@ + text + "]("@ + link + ")"@
}

/// The text shown for a link: the given one, else the target's title,
/// else nothing.
pub open spec fn spec_link_display(
    given: Option<Seq<char>>,
    target_contents: Option<Seq<char>>,
) -> Seq<char> {
    match given {
        Some(t) => t,
        None => match target_contents {
            Some(c) => crate::autogen::opt_or_empty(spec_title_of_contents(c)),
            None => Seq::empty(),
        },
    }
}

/// What inserting a link yields: `[text](relative link)`, where the text
/// falls back to the target note's title; a scratch target is rejected,
/// and the link is the relative path from the current note.
pub open spec fn spec_link_snippet_for(
    cfg: Config,
    current: Note,
    link_to: Note,
    given: Option<Seq<char>>,
    target_contents: Option<Seq<char>>,
) -> Result<Seq<char>, InsertLinkError> {
    match link_to {
        Note::Scratch(_) => Err(InsertLinkError::CannotLinkToScratchNote),
        Note::Physical(target) => match spec_format_link(cfg, current, target.spec_path(cfg)) {
            Err(_) => Err(InsertLinkError::FormatLinkPath),
            Ok(link) => Ok(spec_link_snippet(spec_link_display(given, target_contents), link)),
        },
    }
}

/// Builds the snippet inserted at the cursor for a link to `link_to`.
/// The display text is the given one, or the target's title as read from
/// the contents the shell fetched (absent when the target is unreadable).
pub fn link_snippet_for(
    config: &Config,
    current_note: &Note,
    link_to: &Note,
    link_text: Option<String>,
    target_contents: Option<String>,
) -> (r: Result<String, InsertLinkError>)
    ensures
        match r {
            Ok(s) => spec_link_snippet_for(
                *config,
                *current_note,
                *link_to,
                link_text.deep_view(),
                target_contents.deep_view(),
            ) == Ok::<_, InsertLinkError>(s@),
            Err(e) => spec_link_snippet_for(
                *config,
                *current_note,
                *link_to,
                link_text.deep_view(),
                target_contents.deep_view(),
            ) == Err::<Seq<char>, _>(e),
        },
{
    let target = match link_to {
        Note::Physical(t) => t,
        Note::Scratch(_) => {
            return Err(InsertLinkError::CannotLinkToScratchNote);
        },
    };
    let path = target.path(config);
    let link = match format_link_path(config, current_note, path.as_str()) {
        Ok(l) => l,
        Err(_) => {
            return Err(InsertLinkError::FormatLinkPath);
        },
    };
    let text: String = match link_text {
        Some(t) => t,
        None => match target_contents {
            Some(c) => match title_of_contents(c.as_str()) {
                Some(t) => t,
                None => String::new(),
            },
            None => String::new(),
        },
    };
    let mut s = String::from_str("[");
    s.append(text.as_str());
    s.append("](");
    s.append(link.as_str());
    s.append(")");
    proof {
        assert(s@ =~= spec_link_snippet(text@, link@));
    }
    Ok(s)
}

// ---------------------------------------------------------------------------
// Following links
// ---------------------------------------------------------------------------

/// What following the cursor yields: the resolved absolute path of the
/// first link whose byte range holds the cursor, or exactly why not.
pub open spec fn spec_follow_link(
    cfg: Config,
    current: Note,
    contents: Seq<char>,
    cursor: usize,
) -> Result<Seq<char>, FollowLinkError> {
    match md_parse_of(contents) {
        None => Err(FollowLinkError::MarkdownUnparsable),
        Some(tree) => match spec_link_at(tree, cursor) {
            None => Err(FollowLinkError::NotOnALink),
            Some(url) => match spec_resolve_link(cfg, current, url) {
                Ok(p) => Ok(p),
                Err(_) => Err(FollowLinkError::NotOnALink),
            },
        },
    }
}

/// Finds the link under the cursor's byte offset and resolves it to the
/// target path to open.
pub fn follow_link_target(
    config: &Config,
    current_note: &Note,
    contents: &str,
    cursor_byte_index: usize,
) -> (r: Result<String, FollowLinkError>)
    ensures
        match r {
            Ok(p) => spec_follow_link(*config, *current_note, contents@, cursor_byte_index)
                == Ok::<_, FollowLinkError>(p@),
            Err(e) => spec_follow_link(*config, *current_note, contents@, cursor_byte_index)
                == Err::<Seq<char>, _>(e),
        },
{
    let tree = match parse_markdown(contents) {
        Ok(t) => t,
        Err(_) => {
            return Err(FollowLinkError::MarkdownUnparsable);
        },
    };
    let url = match find_link_at(&tree, cursor_byte_index) {
        Some(u) => u,
        None => {
            return Err(FollowLinkError::NotOnALink);
        },
    };
    match resolve_link_path(config, current_note, url.as_str()) {
        Ok(p) => Ok(p),
        Err(_) => {
            // resolution cannot fail; its contract rules this arm out
            proof {
                assert(false);
            }
            Err(FollowLinkError::NotOnALink)
        },
    }
}

// ---------------------------------------------------------------------------
// Deleting notes
// ---------------------------------------------------------------------------

/// Only the exact, case-sensitive answer `yes` confirms a deletion.
pub fn confirm_delete(choice: &str) -> (r: bool)
    ensures
        r == (choice@ == "yes"@),
{
    str_eq(choice, "yes")
}

} // verus!
