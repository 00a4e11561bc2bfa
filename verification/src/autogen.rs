use vstd::prelude::*;
use crate::strutil::{
    spec_is_space, spec_is_word_char, is_space, is_word_char, occurs_at, occurs_check, spec_trim,
    trim_str, spec_split, split_str, str_eq, str_vecs_eq, lex_le, str_lex_le, dup_string,
    spec_join_nl, join_lines_nl,
};
use crate::config::Config;
use crate::note::{
    PhysicalNote, Note, spec_path_v, note_target_abs, lemma_note_path_abs, spec_note_le,
    lemma_note_le_total,
};
use crate::markdown::{md_parse_of, parse_markdown, spec_all_links, get_all_links, Link};
use crate::frontmatter::{
    Timestamp, spec_ts_le, spec_title_of_contents, spec_ts_of_contents, title_opt, ts_opt,
};
use crate::links::{spec_format_link, spec_resolve_link, format_link_path, resolve_link_path};
use crate::sorting::{spec_sort_by, sort_by_rel, total_on};

verus! {

// ---------------------------------------------------------------------------
// The marker grammar
// ---------------------------------------------------------------------------
//
// A start marker is the word `wikiplugin_autogenerate`, bounded by
// non-word characters, followed by optional blanks and a non-empty run of
// word characters naming the command; the rest of the line is the raw
// argument tail.  An end marker is the bounded word
// `wikiplugin_autogenerate_end`.

/// The spelled-out start marker word.
pub open spec fn start_word() -> Seq<char> {
    "wikiplugin_autogenerate"@
}

/// The spelled-out end marker word.
pub open spec fn end_word() -> Seq<char> {
    "wikiplugin_autogenerate_end"@
}

/// The word occurs at `p` with non-word characters (or the line's ends)
/// around it.
pub open spec fn bounded_at(s: Seq<char>, w: Seq<char>, p: int) -> bool {
    &&& occurs_at(s, w, p)
    &&& (p == 0 || !spec_is_word_char(s[p - 1]))
    &&& (p + w.len() == s.len() || !spec_is_word_char(s[p + w.len() as int]))
}

/// First index at or after `q` that is not a blank (or the line's end).
pub open spec fn spec_skip_ws(s: Seq<char>, q: int) -> int
    decreases s.len() - q,
{
    if q < 0 || q >= s.len() {
        q
    } else if spec_is_space(s[q]) {
        spec_skip_ws(s, q + 1)
    } else {
        q
    }
}

/// First index at or after `q` that is not a word character (or the
/// line's end).
pub open spec fn spec_skip_word(s: Seq<char>, q: int) -> int
    decreases s.len() - q,
{
    if q < 0 || q >= s.len() {
        q
    } else if spec_is_word_char(s[q]) {
        spec_skip_word(s, q + 1)
    } else {
        q
    }
}

/// A start marker is anchored at `p`: the bounded word, blanks, then at
/// least one word character.
pub open spec fn start_anchor_ok(s: Seq<char>, p: int) -> bool {
    &&& bounded_at(s, start_word(), p)
    &&& ({
        let k = spec_skip_ws(s, p + start_word().len() as int);
        k < s.len() && spec_is_word_char(s[k])
    })
}

/// The first start anchor at or after `from`.
pub open spec fn spec_first_anchor(s: Seq<char>, from: int) -> Option<int>
    decreases s.len() - from,
{
    if from < 0 || from >= s.len() || from + start_word().len() > s.len() {
        None
    } else if start_anchor_ok(s, from) {
        Some(from)
    } else {
        spec_first_anchor(s, from + 1)
    }
}

/// A found anchor or end occurrence lies where its word fits.
pub proof fn lemma_first_anchor_props(s: Seq<char>, from: int)
    ensures
        match spec_first_anchor(s, from) {
            Some(p) => from <= p && start_anchor_ok(s, p) && p + start_word().len() <= s.len(),
            None => true,
        },
    decreases s.len() - from,
{
    if from < 0 || from >= s.len() || from + start_word().len() > s.len() {
    } else if start_anchor_ok(s, from) {
    } else {
        lemma_first_anchor_props(s, from + 1);
    }
}

/// The command and raw argument tail of a start marker line, if the line
/// is one.
pub open spec fn spec_start_marker(s: Seq<char>) -> Option<(Seq<char>, Seq<char>)> {
    match spec_first_anchor(s, 0) {
        None => None,
        Some(p) => {
            let k = spec_skip_ws(s, p + start_word().len() as int);
            let e = spec_skip_word(s, k);
            Some((s.subrange(k, e), s.subrange(e, s.len() as int)))
        },
    }
}

/// Whether the line is a start marker line.
pub open spec fn spec_is_start(s: Seq<char>) -> bool {
    spec_start_marker(s) is Some
}

/// The first bounded occurrence of the end word at or after `from`.
pub open spec fn spec_first_end_occ(s: Seq<char>, from: int) -> Option<int>
    decreases s.len() - from,
{
    if from < 0 || from >= s.len() || from + end_word().len() > s.len() {
        None
    } else if bounded_at(s, end_word(), from) {
        Some(from)
    } else {
        spec_first_end_occ(s, from + 1)
    }
}

/// Whether the line holds the bounded end marker word.
pub open spec fn spec_is_end(s: Seq<char>) -> bool {
    spec_first_end_occ(s, 0) is Some
}

fn skip_ws(s: &str, q: usize, len: usize) -> (r: usize)
    requires
        q <= len,
        len as nat == s@.len(),
    ensures
        r == spec_skip_ws(s@, q as int),
        q <= r <= len,
    decreases len - q,
{
    if q == len {
        q
    } else if is_space(s.get_char(q)) {
        skip_ws(s, q + 1, len)
    } else {
        q
    }
}

fn skip_word(s: &str, q: usize, len: usize) -> (r: usize)
    requires
        q <= len,
        len as nat == s@.len(),
    ensures
        r == spec_skip_word(s@, q as int),
        q <= r <= len,
    decreases len - q,
{
    if q == len {
        q
    } else if is_word_char(s.get_char(q)) {
        skip_word(s, q + 1, len)
    } else {
        q
    }
}

fn bounded_check(s: &str, w: &str, p: usize, len: usize) -> (r: bool)
    requires
        len as nat == s@.len(),
        p + w@.len() <= len,
    ensures
        r == bounded_at(s@, w@, p as int),
{
    if !occurs_check(s, w, p) {
        return false;
    }
    if p > 0 && is_word_char(s.get_char(p - 1)) {
        return false;
    }
    let after = p + w.unicode_len();
    if after < len && is_word_char(s.get_char(after)) {
        return false;
    }
    true
}

fn first_anchor(s: &str, from: usize, len: usize, w: &str) -> (r: Option<usize>)
    requires
        from <= len,
        len as nat == s@.len(),
        w@ == start_word(),
    ensures
        match r {
            Some(p) => spec_first_anchor(s@, from as int) == Some(p as int) && p <= len,
            None => spec_first_anchor(s@, from as int) is None,
        },
    decreases len - from,
{
    proof {
        reveal_strlit("wikiplugin_autogenerate");
    }
    let wlen = w.unicode_len();
    if wlen > len - from {
        return None;
    }
    let anchored = if bounded_check(s, w, from, len) {
        let k = skip_ws(s, from + wlen, len);
        k < len && is_word_char(s.get_char(k))
    } else {
        false
    };
    if anchored {
        Some(from)
    } else {
        first_anchor(s, from + 1, len, w)
    }
}

/// Reads a start marker from the line: the command name and the raw
/// argument tail.
pub fn line_start_marker(s: &str) -> (r: Option<(String, String)>)
    ensures
        match r {
            Some(ct) => spec_start_marker(s@) == Some((ct.0@, ct.1@)),
            None => spec_start_marker(s@) is None,
        },
{
    let len = s.unicode_len();
    let w = "wikiplugin_autogenerate";
    proof {
        reveal_strlit("wikiplugin_autogenerate");
    }
    match first_anchor(s, 0, len, w) {
        None => None,
        Some(p) => {
            proof {
                lemma_first_anchor_props(s@, 0);
            }
            let k = skip_ws(s, p + w.unicode_len(), len);
            let e = skip_word(s, k, len);
            let cmd = s.substring_char(k, e).to_owned();
            let tail = s.substring_char(e, len).to_owned();
            Some((cmd, tail))
        },
    }
}

fn first_end_occ(s: &str, from: usize, len: usize, w: &str) -> (r: Option<usize>)
    requires
        from <= len,
        len as nat == s@.len(),
        w@ == end_word(),
    ensures
        match r {
            Some(p) => spec_first_end_occ(s@, from as int) == Some(p as int),
            None => spec_first_end_occ(s@, from as int) is None,
        },
    decreases len - from,
{
    proof {
        reveal_strlit("wikiplugin_autogenerate_end");
    }
    let wlen = w.unicode_len();
    if wlen > len - from {
        return None;
    }
    if bounded_check(s, w, from, len) {
        Some(from)
    } else {
        first_end_occ(s, from + 1, len, w)
    }
}

/// Whether the line is an end marker line.
pub fn line_is_end_marker(s: &str) -> (r: bool)
    ensures
        r == spec_is_end(s@),
{
    let len = s.unicode_len();
    let w = "wikiplugin_autogenerate_end";
    proof {
        reveal_strlit("wikiplugin_autogenerate_end");
    }
    match first_end_occ(s, 0, len, w) {
        Some(_) => true,
        None => false,
    }
}

/// Whether the line is a start marker line.
pub fn line_is_start_marker(s: &str) -> (r: bool)
    ensures
        r == spec_is_start(s@),
{
    match line_start_marker(s) {
        Some(_) => true,
        None => false,
    }
}

// ---------------------------------------------------------------------------
// Buffer scans
// ---------------------------------------------------------------------------

/// Index of the `n`-th start marker line at or after `i`, counting from 1.
pub open spec fn spec_nth_start_from(lines: Seq<Seq<char>>, i: int, n: nat) -> Option<int>
    decreases lines.len() - i,
{
    if i < 0 || i >= lines.len() {
        None
    } else if spec_is_start(lines[i]) {
        if n <= 1 {
            Some(i)
        } else {
            spec_nth_start_from(lines, i + 1, (n - 1) as nat)
        }
    } else {
        spec_nth_start_from(lines, i + 1, n)
    }
}

/// Index of the first end marker line at or after `i`.
pub open spec fn spec_first_end_from(lines: Seq<Seq<char>>, i: int) -> Option<int>
    decreases lines.len() - i,
{
    if i < 0 || i >= lines.len() {
        None
    } else if spec_is_end(lines[i]) {
        Some(i)
    } else {
        spec_first_end_from(lines, i + 1)
    }
}

/// A found start marker index names a start marker line.
pub proof fn lemma_nth_start_props(lines: Seq<Seq<char>>, i: int, n: nat)
    ensures
        match spec_nth_start_from(lines, i, n) {
            Some(j) => i <= j < lines.len() && spec_is_start(lines[j]),
            None => true,
        },
    decreases lines.len() - i,
{
    if i < 0 || i >= lines.len() {
    } else if spec_is_start(lines[i]) {
        if n <= 1 {
        } else {
            lemma_nth_start_props(lines, i + 1, (n - 1) as nat);
        }
    } else {
        lemma_nth_start_props(lines, i + 1, n);
    }
}

/// Finds the `n`-th start marker line at or after `i`, counting from 1.
pub fn nth_start_from(lines: &Vec<String>, i: usize, n: u64) -> (r: Option<usize>)
    requires
        n >= 1,
    ensures
        match r {
            Some(j) => spec_nth_start_from(lines.deep_view(), i as int, n as nat) == Some(j as int)
                && i <= j < lines.len(),
            None => spec_nth_start_from(lines.deep_view(), i as int, n as nat) is None,
        },
    decreases lines.len() - i,
{
    if i >= lines.len() {
        return None;
    }
    proof {
        assert(lines.deep_view()[i as int] == lines@[i as int]@);
    }
    if line_is_start_marker(lines[i].as_str()) {
        if n <= 1 {
            Some(i)
        } else {
            nth_start_from(lines, i + 1, n - 1)
        }
    } else {
        nth_start_from(lines, i + 1, n)
    }
}

/// Finds the first end marker line at or after `i`.
pub fn first_end_from(lines: &Vec<String>, i: usize) -> (r: Option<usize>)
    ensures
        match r {
            Some(j) => spec_first_end_from(lines.deep_view(), i as int) == Some(j as int) && i <= j
                < lines.len(),
            None => spec_first_end_from(lines.deep_view(), i as int) is None,
        },
    decreases lines.len() - i,
{
    if i >= lines.len() {
        return None;
    }
    proof {
        assert(lines.deep_view()[i as int] == lines@[i as int]@);
    }
    if line_is_end_marker(lines[i].as_str()) {
        Some(i)
    } else {
        first_end_from(lines, i + 1)
    }
}

// ---------------------------------------------------------------------------
// Region resolution
// ---------------------------------------------------------------------------

/// How a block's end line is determined from its start line:
/// - no end marker anywhere below: synthesize one right after the start;
/// - an end marker below and no further start marker: use it;
/// - both below: use the end marker only if it comes first, else it
///   belongs to the next block and one is synthesized here.
pub open spec fn spec_region_end(lines: Seq<Seq<char>>, start: int) -> Option<int> {
    let e = spec_first_end_from(lines, start + 1);
    let s2 = spec_nth_start_from(lines, start + 1, 1);
    match e {
        None => None,
        Some(ei) => match s2 {
            None => Some(ei),
            Some(si) => if ei < si {
                Some(ei)
            } else {
                None
            },
        },
    }
}

/// Decides where the block starting at `start` ends: `Some` names an
/// existing end marker line, `None` asks for a synthesized one right
/// after the start line.
pub fn region_end(lines: &Vec<String>, start: usize) -> (r: Option<usize>)
    requires
        start < lines.len(),
    ensures
        match r {
            Some(e) => spec_region_end(lines.deep_view(), start as int) == Some(e as int) && start
                < e < lines.len(),
            None => spec_region_end(lines.deep_view(), start as int) is None,
        },
{
    let e = first_end_from(lines, start + 1);
    let s2 = nth_start_from(lines, start + 1, 1);
    match e {
        None => None,
        Some(ei) => match s2 {
            None => Some(ei),
            Some(si) => if ei < si {
                Some(ei)
            } else {
                None
            },
        },
    }
}

} // verus!

verus! {

// ---------------------------------------------------------------------------
// The note corpus
// ---------------------------------------------------------------------------

/// One note of the wiki together with its full text, as gathered by the
/// shell (live buffer content when the note is open, the file otherwise).
#[derive(Debug)]
pub struct NoteEntry {
    pub note: PhysicalNote,
    pub contents: String,
}

/// The ghost shape of a note entry: directory segments, id, text.
pub struct NoteEntryV {
    pub dirs: Seq<Seq<char>>,
    pub id: Seq<char>,
    pub contents: Seq<char>,
}

impl DeepView for NoteEntry {
    type V = NoteEntryV;

    open spec fn deep_view(&self) -> NoteEntryV {
        NoteEntryV {
            dirs: self.note.directories.deep_view(),
            id: self.note.id@,
            contents: self.contents@,
        }
    }
}

/// Why regenerating a block failed.
#[derive(PartialEq, Eq, Debug, Clone, Copy, Structural)]
pub enum RegenError {
    LinkFormat,
    NoteParse,
    NoteNotFound,
}

// ---------------------------------------------------------------------------
// The index generator
// ---------------------------------------------------------------------------

/// What an `index` block sorts by.
#[derive(PartialEq, Eq, Debug, Clone, Copy, Structural)]
pub enum SortKey {
    Title,
    Date,
    Id,
}

/// A candidate line of an index listing.
#[derive(Debug)]
pub struct IndexEntry {
    pub note: PhysicalNote,
    pub title: Option<String>,
    pub ts: Option<Timestamp>,
}

/// The ghost shape of an index candidate.
pub struct IndexEntryV {
    pub dirs: Seq<Seq<char>>,
    pub id: Seq<char>,
    pub title: Option<Seq<char>>,
    pub ts: Option<Timestamp>,
}

impl DeepView for IndexEntry {
    type V = IndexEntryV;

    open spec fn deep_view(&self) -> IndexEntryV {
        IndexEntryV {
            dirs: self.note.directories.deep_view(),
            id: self.note.id@,
            title: self.title.deep_view(),
            ts: self.ts,
        }
    }
}

/// The order an index listing uses.  Sorting by title falls back to the
/// id order whenever either candidate lacks a title; sorting by date puts
/// notes without a timestamp first.
pub open spec fn spec_entry_le(key: SortKey, a: IndexEntryV, b: IndexEntryV) -> bool {
    match key {
        SortKey::Title => match (a.title, b.title) {
            (Some(x), Some(y)) => lex_le(x, y),
            _ => lex_le(a.id, b.id),
        },
        SortKey::Date => match (a.ts, b.ts) {
            (None, _) => true,
            (Some(_), None) => false,
            (Some(x), Some(y)) => spec_ts_le(x, y),
        },
        SortKey::Id => lex_le(a.id, b.id),
    }
}

/// The index order is total for every key.
pub proof fn lemma_entry_le_total(key: SortKey)
    ensures
        total_on(|a: IndexEntryV, b: IndexEntryV| spec_entry_le(key, a, b)),
{
    assert forall|a: IndexEntryV, b: IndexEntryV| #[trigger] spec_entry_le(key, a, b)
        || #[trigger] spec_entry_le(key, b, a) by {
        match key {
            SortKey::Title => {
                match (a.title, b.title) {
                    (Some(x), Some(y)) => {
                        crate::strutil::lemma_lex_le_total(x, y);
                    },
                    _ => {
                        crate::strutil::lemma_lex_le_total(a.id, b.id);
                    },
                }
            },
            SortKey::Date => {},
            SortKey::Id => {
                crate::strutil::lemma_lex_le_total(a.id, b.id);
            },
        }
    }
}

/// Decides the index order.
pub fn entry_le(key: SortKey, a: &IndexEntry, b: &IndexEntry) -> (r: bool)
    ensures
        r == spec_entry_le(key, a.deep_view(), b.deep_view()),
{
    match key {
        SortKey::Title => match (&a.title, &b.title) {
            (Some(x), Some(y)) => str_lex_le(x.as_str(), y.as_str()),
            _ => str_lex_le(a.note.id.as_str(), b.note.id.as_str()),
        },
        SortKey::Date => match (a.ts, b.ts) {
            (None, _) => true,
            (Some(_), None) => false,
            (Some(x), Some(y)) => x.le(&y),
        },
        SortKey::Id => str_lex_le(a.note.id.as_str(), b.note.id.as_str()),
    }
}

/// A listing line: `- [title](link)`.
pub open spec fn spec_link_line(title: Seq<char>, link: Seq<char>) -> Seq<char> {
    "- ["@ + title + "]("@ + link + ")"@
}

/// Renders one listing line.
pub fn render_link_line(title: &str, link: &str) -> (r: String)
    ensures
        r@ == spec_link_line(title@, link@),
{
    let mut r = String::from_str("- [");
    r.append(title);
    r.append("](");
    r.append(link);
    r.append(")");
    proof {
        assert(r@ =~= spec_link_line(title@, link@));
    }
    r
}

/// The title, or empty text when there is none.
pub open spec fn opt_or_empty(o: Option<Seq<char>>) -> Seq<char> {
    match o {
        Some(t) => t,
        None => Seq::empty(),
    }
}

/// The formatted link, or empty text on failure (failures surface as
/// errors before any line is built).
pub open spec fn ok_link(cfg: Config, cur: Note, target: Seq<char>) -> Seq<char> {
    match spec_format_link(cfg, cur, target) {
        Ok(l) => l,
        Err(_) => Seq::empty(),
    }
}

/// The resolved link, or empty text on failure (resolution cannot fail).
pub open spec fn ok_resolve(cfg: Config, src: Note, url: Seq<char>) -> Seq<char> {
    match spec_resolve_link(cfg, src, url) {
        Ok(p) => p,
        Err(_) => Seq::empty(),
    }
}

/// The corpus entries whose directories equal `dir`, in corpus order.
pub open spec fn spec_matching(corpus: Seq<NoteEntry>, dir: Seq<Seq<char>>) -> Seq<NoteEntry>
    decreases corpus.len(),
{
    if corpus.len() == 0 {
        Seq::empty()
    } else {
        let rest = spec_matching(corpus.drop_last(), dir);
        if corpus.last().note.directories.deep_view() == dir {
            rest.push(corpus.last())
        } else {
            rest
        }
    }
}

/// The index candidate a corpus entry yields.
pub open spec fn spec_entry_of(cfg: Config, e: NoteEntry) -> IndexEntryV {
    IndexEntryV {
        dirs: e.note.directories.deep_view(),
        id: e.note.id@,
        title: spec_title_of_contents(e.contents@),
        ts: spec_ts_of_contents(e.contents@, cfg),
    }
}

/// One listing line of a sorted index candidate.
pub open spec fn spec_index_line(cfg: Config, cur: Note, ev: IndexEntryV) -> Seq<char> {
    spec_link_line(opt_or_empty(ev.title), ok_link(cfg, cur, spec_path_v(cfg, ev.dirs, ev.id)))
}

/// What an `index` block is replaced with: the notes of exactly the named
/// directory, sorted by the key, one link line each.  Only a link that
/// cannot be formatted (a wiki root that is not absolute) is an error.
pub open spec fn spec_index_lines(
    cfg: Config,
    cur: Note,
    corpus: Seq<NoteEntry>,
    dir: Seq<Seq<char>>,
    key: SortKey,
) -> Result<Seq<Seq<char>>, RegenError> {
    let views = spec_matching(corpus, dir).map_values(|e: NoteEntry| spec_entry_of(cfg, e));
    let sorted = spec_sort_by(views, |a: IndexEntryV, b: IndexEntryV| spec_entry_le(key, a, b));
    if sorted.len() > 0 && !note_target_abs(cfg) {
        Err(RegenError::LinkFormat)
    } else {
        Ok(sorted.map_values(|ev: IndexEntryV| spec_index_line(cfg, cur, ev)))
    }
}

/// Builds the replacement lines of an `index` block.
#[verifier::loop_isolation(false)]
pub fn index_lines(
    config: &Config,
    cur: &Note,
    corpus: &Vec<NoteEntry>,
    dir: &Vec<String>,
    key: SortKey,
) -> (r: Result<Vec<String>, RegenError>)
    ensures
        match r {
            Ok(ls) => spec_index_lines(*config, *cur, corpus@, dir.deep_view(), key) == Ok::<
                _,
                RegenError,
            >(ls.deep_view()),
            Err(e) => spec_index_lines(*config, *cur, corpus@, dir.deep_view(), key) == Err::<
                Seq<Seq<char>>,
                _,
            >(e),
        },
{
    let ghost dirv = dir.deep_view();
    let ghost entry_of = |e: NoteEntry| spec_entry_of(*config, e);
    let mut entries: Vec<IndexEntry> = Vec::new();
    proof {
        assert(corpus@.take(0) =~= Seq::<NoteEntry>::empty());
        assert(entries.deep_view() =~~= spec_matching(corpus@.take(0), dirv).map_values(entry_of));
    }
    let mut i: usize = 0;
    while i < corpus.len()
        invariant
            i <= corpus.len(),
            entries.deep_view() == spec_matching(corpus@.take(i as int), dirv).map_values(
                entry_of,
            ),
        decreases corpus.len() - i,
    {
        proof {
            assert(corpus@.take(i + 1).drop_last() =~= corpus@.take(i as int));
            assert(corpus@.take(i + 1).last() == corpus@[i as int]);
        }
        if str_vecs_eq(&corpus[i].note.directories, dir) {
            let e = &corpus[i];
            let parsed = parse_markdown(e.contents.as_str());
            let (title, ts) = match parsed {
                Ok(tree) => (title_opt(&tree), ts_opt(&tree, config)),
                Err(_) => (None, None),
            };
            let ghost pre = entries.deep_view();
            let ghost prev = entries@;
            entries.push(IndexEntry { note: e.note.duplicate(), title, ts });
            proof {
                assert(entries.deep_view()[prev.len() as int] == entries@[prev.len() as int].deep_view());
                assert(entries@[prev.len() as int].deep_view() == spec_entry_of(
                    *config,
                    corpus@[i as int],
                ));
                assert forall|k: int| 0 <= k < prev.len() implies #[trigger] entries.deep_view()[k]
                    == pre[k] by {
                    assert(entries@[k] == prev[k]);
                }
                assert(entries.deep_view() =~~= spec_matching(corpus@.take(i + 1), dirv).map_values(
                    entry_of,
                ));
            }
        }
        i = i + 1;
    }
    proof {
        assert(corpus@.take(corpus.len() as int) =~= corpus@);
    }
    let ghost le = |a: IndexEntryV, b: IndexEntryV| spec_entry_le(key, a, b);
    let key0 = key;
    let cmp = |a: &IndexEntry, b: &IndexEntry| -> (r: bool)
        ensures
            r == spec_entry_le(key0, a.deep_view(), b.deep_view()),
        { entry_le(key0, a, b) };
    let sorted = sort_by_rel(entries, cmp, Ghost(le));
    let ghost ssorted = spec_sort_by(
        spec_matching(corpus@, dirv).map_values(entry_of),
        le,
    );
    let mut out: Vec<String> = Vec::new();
    proof {
        assert(out.deep_view() =~~= ssorted.map_values(
            |ev: IndexEntryV| spec_index_line(*config, *cur, ev),
        ).take(0));
    }
    let mut j: usize = 0;
    while j < sorted.len()
        invariant
            j <= sorted.len(),
            sorted.deep_view() == ssorted,
            out.deep_view() == ssorted.map_values(
                |ev: IndexEntryV| spec_index_line(*config, *cur, ev),
            ).take(j as int),
            j > 0 ==> note_target_abs(*config),
        decreases sorted.len() - j,
    {
        let e = &sorted[j];
        let target = e.note.path(config);
        proof {
            lemma_note_path_abs(*config, e.note.directories.deep_view(), e.note.id@);
            assert(e.note.directories.deep_view() == ssorted[j as int].dirs);
            assert(e.note.id@ == ssorted[j as int].id);
        }
        let link = match format_link_path(config, cur, target.as_str()) {
            Ok(link) => link,
            Err(_) => {
                return Err(RegenError::LinkFormat);
            },
        };
        let line = match &e.title {
            Some(t) => render_link_line(t.as_str(), link.as_str()),
            None => {
                proof {
                    reveal_strlit("");
                    assert(""@ =~= Seq::<char>::empty());
                }
                render_link_line("", link.as_str())
            },
        };
        let ghost pre = out.deep_view();
        let ghost prev = out@;
        out.push(line);
        proof {
            assert(out.deep_view()[prev.len() as int] == out@[prev.len() as int]@);
            assert forall|k: int| 0 <= k < prev.len() implies #[trigger] out.deep_view()[k]
                == pre[k] by {
                assert(out@[k] == prev[k]);
            }
            assert(out.deep_view() =~~= ssorted.map_values(
                |ev: IndexEntryV| spec_index_line(*config, *cur, ev),
            ).take(j as int + 1));
        }
        j = j + 1;
    }
    proof {
        let mapped = ssorted.map_values(|ev: IndexEntryV| spec_index_line(*config, *cur, ev));
        assert(mapped.take(sorted.len() as int) =~= mapped);
    }
    Ok(out)
}

} // verus!

verus! {

// ---------------------------------------------------------------------------
// The backlinks generator
// ---------------------------------------------------------------------------

/// The links of a note text; a text that does not parse has none.
pub open spec fn spec_links_of(text: Seq<char>) -> Seq<(Seq<char>, Option<crate::markdown::Span>)> {
    match md_parse_of(text) {
        Some(tree) => spec_all_links(tree),
        None => Seq::empty(),
    }
}

/// Whether the corpus entry is the current note itself.
pub open spec fn spec_is_cur(cur: Note, e: NoteEntry) -> bool {
    cur matches Note::Physical(c) && c.directories.deep_view() == e.note.directories.deep_view()
        && c.id@ == e.note.id@
}

/// Whether some link of the entry resolves to the current note's path.
pub open spec fn spec_backlink_hit(cfg: Config, cur: Note, e: NoteEntry) -> bool {
    let links = spec_links_of(e.contents@);
    cur matches Note::Physical(c) && exists|k: int|
        0 <= k < links.len() && ok_resolve(cfg, Note::Physical(e.note), links[k].0)
            == c.spec_path(cfg)
}

/// The line a backlinking note contributes.
pub open spec fn spec_backlink_line(cfg: Config, cur: Note, e: NoteEntry) -> Seq<char> {
    spec_link_line(
        opt_or_empty(spec_title_of_contents(e.contents@)),
        ok_link(cfg, cur, spec_path_v(cfg, e.note.directories.deep_view(), e.note.id@)),
    )
}

/// What a `backlinks` block is replaced with: one line for every other
/// note that links to the current one, in corpus order.
pub open spec fn spec_backlinks_from(
    cfg: Config,
    cur: Note,
    corpus: Seq<NoteEntry>,
    i: int,
) -> Result<Seq<Seq<char>>, RegenError>
    decreases corpus.len() - i,
{
    if i < 0 || i >= corpus.len() {
        Ok(Seq::empty())
    } else {
        let e = corpus[i];
        if spec_is_cur(cur, e) {
            spec_backlinks_from(cfg, cur, corpus, i + 1)
        } else if spec_backlink_hit(cfg, cur, e) {
            if !note_target_abs(cfg) {
                Err(RegenError::LinkFormat)
            } else {
                match spec_backlinks_from(cfg, cur, corpus, i + 1) {
                    Ok(rest) => Ok(seq![spec_backlink_line(cfg, cur, e)] + rest),
                    Err(er) => Err(er),
                }
            }
        } else {
            spec_backlinks_from(cfg, cur, corpus, i + 1)
        }
    }
}

/// Decides whether an entry links back to the current note.
fn backlink_hit(config: &Config, cur: &Note, e: &NoteEntry) -> (r: bool)
    ensures
        r == spec_backlink_hit(*config, *cur, *e),
{
    let c = match cur {
        Note::Physical(c) => c,
        Note::Scratch(_) => {
            return false;
        },
    };
    let cp = c.path(config);
    let ghost links0 = spec_links_of(e.contents@);
    let links: Vec<Link> = match parse_markdown(e.contents.as_str()) {
        Ok(tree) => get_all_links(&tree),
        Err(_) => Vec::new(),
    };
    proof {
        assert(links.deep_view() =~~= links0);
    }
    let mut k: usize = 0;
    while k < links.len()
        invariant
            k <= links.len(),
            links.deep_view() == links0,
            links0 == spec_links_of(e.contents@),
            *cur == Note::Physical(*c),
            cp@ == c.spec_path(*config),
            forall|m: int| 0 <= m < k ==> ok_resolve(
                *config,
                Note::Physical(e.note),
                #[trigger] links0[m].0,
            ) != cp@,
        decreases links.len() - k,
    {
        let resolved = crate::links::resolve_link_at_note(config, &e.note, links[k].url.as_str());
        proof {
            assert(links.deep_view()[k as int] == links@[k as int].deep_view());
            assert(links@[k as int].deep_view().0 == links@[k as int].url@);
        }
        if str_eq(resolved.as_str(), cp.as_str()) {
            proof {
                assert(ok_resolve(
                    *config,
                    Note::Physical(e.note),
                    spec_links_of(e.contents@)[k as int].0,
                ) == c.spec_path(*config));
                assert(spec_backlink_hit(*config, *cur, *e));
            }
            return true;
        }
        k = k + 1;
    }
    proof {
        assert(!spec_backlink_hit(*config, *cur, *e)) by {
            if spec_backlink_hit(*config, *cur, *e) {
                let m = choose|m: int|
                    0 <= m < links0.len() && ok_resolve(
                        *config,
                        Note::Physical(e.note),
                        links0[m].0,
                    ) == c.spec_path(*config);
                assert(ok_resolve(*config, Note::Physical(e.note), links0[m].0) != cp@);
            }
        }
    }
    false
}

/// Builds the replacement lines of a `backlinks` block, scanning the
/// corpus from entry `i` on.
fn backlinks_from(config: &Config, cur: &Note, corpus: &Vec<NoteEntry>, i: usize) -> (r: Result<
    Vec<String>,
    RegenError,
>)
    requires
        i <= corpus.len(),
    ensures
        match r {
            Ok(ls) => spec_backlinks_from(*config, *cur, corpus@, i as int) == Ok::<_, RegenError>(
                ls.deep_view(),
            ),
            Err(e) => spec_backlinks_from(*config, *cur, corpus@, i as int) == Err::<
                Seq<Seq<char>>,
                _,
            >(e),
        },
    decreases corpus.len() - i,
{
    if i == corpus.len() {
        let r: Vec<String> = Vec::new();
        proof {
            assert(r.deep_view() =~~= Seq::<Seq<char>>::empty());
        }
        return Ok(r);
    }
    let e = &corpus[i];
    let is_cur = match cur {
        Note::Physical(c) => c.same_note(&e.note),
        Note::Scratch(_) => false,
    };
    if is_cur {
        return backlinks_from(config, cur, corpus, i + 1);
    }
    if backlink_hit(config, cur, e) {
        let target = e.note.path(config);
        proof {
            lemma_note_path_abs(*config, e.note.directories.deep_view(), e.note.id@);
        }
        let link = match format_link_path(config, cur, target.as_str()) {
            Ok(link) => link,
            Err(_) => {
                return Err(RegenError::LinkFormat);
            },
        };
        let title = crate::frontmatter::title_of_contents(e.contents.as_str());
        let line = match &title {
            Some(t) => render_link_line(t.as_str(), link.as_str()),
            None => {
                proof {
                    reveal_strlit("");
                    assert(""@ =~= Seq::<char>::empty());
                }
                render_link_line("", link.as_str())
            },
        };
        match backlinks_from(config, cur, corpus, i + 1) {
            Ok(mut rest) => {
                let ghost pre = rest.deep_view();
                let ghost prev = rest@;
                rest.insert(0, line);
                proof {
                    assert(rest.deep_view()[0] == line@);
                    assert forall|m: int| 1 <= m < rest@.len() implies #[trigger] rest.deep_view()[m]
                        == pre[m - 1] by {
                        assert(rest@[m] == prev[m - 1]);
                    }
                    assert(rest.deep_view() =~~= seq![spec_backlink_line(*config, *cur, corpus@[i as int])]
                        + pre);
                }
                Ok(rest)
            },
            Err(er) => Err(er),
        }
    } else {
        backlinks_from(config, cur, corpus, i + 1)
    }
}

/// Builds the replacement lines of a `backlinks` block.
pub fn backlinks_lines(config: &Config, cur: &Note, corpus: &Vec<NoteEntry>) -> (r: Result<
    Vec<String>,
    RegenError,
>)
    ensures
        match r {
            Ok(ls) => spec_backlinks_from(*config, *cur, corpus@, 0) == Ok::<_, RegenError>(
                ls.deep_view(),
            ),
            Err(e) => spec_backlinks_from(*config, *cur, corpus@, 0) == Err::<Seq<Seq<char>>, _>(
                e,
            ),
        },
{
    backlinks_from(config, cur, corpus, 0)
}

} // verus!

verus! {

// ---------------------------------------------------------------------------
// The explore generator
// ---------------------------------------------------------------------------
//
// Reachability over the link graph, computed as repeated sweeps: each
// sweep follows the links of the current note and of every note already
// reached.  Sweeps are repeated until nothing changes; as each sweep that
// is not the last reaches at least one new note, one sweep more than the
// corpus size always suffices.

/// First corpus entry naming the given note.
pub open spec fn spec_find_note(
    corpus: Seq<NoteEntry>,
    dirs: Seq<Seq<char>>,
    id: Seq<char>,
    from: int,
) -> Option<int>
    decreases corpus.len() - from,
{
    if from < 0 || from >= corpus.len() {
        None
    } else if corpus[from].note.directories.deep_view() == dirs && corpus[from].note.id@ == id {
        Some(from)
    } else {
        spec_find_note(corpus, dirs, id, from + 1)
    }
}

/// Whether the current note itself is the named note.
pub open spec fn spec_is_root_note(cur: Note, dirs: Seq<Seq<char>>, id: Seq<char>) -> bool {
    cur matches Note::Physical(c) && c.directories.deep_view() == dirs && c.id@ == id
}

/// Follows one note's links: each resolves to a path that must name a
/// corpus note, which is marked reached (the current note stays out).
pub open spec fn spec_apply_links(
    cfg: Config,
    src: Note,
    links: Seq<(Seq<char>, Option<crate::markdown::Span>)>,
    cur: Note,
    corpus: Seq<NoteEntry>,
    flags: Seq<bool>,
) -> Result<Seq<bool>, RegenError>
    decreases links.len(),
{
    if links.len() == 0 {
        Ok(flags)
    } else {
        let path = ok_resolve(cfg, src, links[0].0);
        match PhysicalNote::spec_parse(cfg, path) {
            Err(_) => Err(RegenError::NoteParse),
            Ok(di) => if spec_is_root_note(cur, di.0, di.1) {
                spec_apply_links(cfg, src, links.drop_first(), cur, corpus, flags)
            } else {
                match spec_find_note(corpus, di.0, di.1, 0) {
                    None => Err(RegenError::NoteNotFound),
                    Some(j) => {
                        let f1 = if 0 <= j < flags.len() {
                            flags.update(j, true)
                        } else {
                            flags
                        };
                        spec_apply_links(cfg, src, links.drop_first(), cur, corpus, f1)
                    },
                }
            },
        }
    }
}

/// One sweep over the notes already reached, in corpus order.
pub open spec fn spec_round_notes(
    cfg: Config,
    cur: Note,
    corpus: Seq<NoteEntry>,
    flags: Seq<bool>,
    i: int,
) -> Result<Seq<bool>, RegenError>
    decreases corpus.len() - i,
{
    if i < 0 || i >= corpus.len() {
        Ok(flags)
    } else if 0 <= i < flags.len() && flags[i] {
        match spec_apply_links(
            cfg,
            Note::Physical(corpus[i].note),
            spec_links_of(corpus[i].contents@),
            cur,
            corpus,
            flags,
        ) {
            Err(e) => Err(e),
            Ok(f1) => spec_round_notes(cfg, cur, corpus, f1, i + 1),
        }
    } else {
        spec_round_notes(cfg, cur, corpus, flags, i + 1)
    }
}

/// One full sweep: the current note's links, then every reached note's.
pub open spec fn spec_round(
    cfg: Config,
    cur: Note,
    cur_contents: Seq<char>,
    corpus: Seq<NoteEntry>,
    flags: Seq<bool>,
) -> Result<Seq<bool>, RegenError> {
    match spec_apply_links(cfg, cur, spec_links_of(cur_contents), cur, corpus, flags) {
        Err(e) => Err(e),
        Ok(f1) => spec_round_notes(cfg, cur, corpus, f1, 0),
    }
}

/// Sweeps until nothing changes or the fuel runs out.
pub open spec fn spec_rounds(
    cfg: Config,
    cur: Note,
    cur_contents: Seq<char>,
    corpus: Seq<NoteEntry>,
    flags: Seq<bool>,
    fuel: nat,
) -> Result<Seq<bool>, RegenError>
    decreases fuel,
{
    if fuel == 0 {
        Ok(flags)
    } else {
        match spec_round(cfg, cur, cur_contents, corpus, flags) {
            Err(e) => Err(e),
            Ok(f1) => if f1 == flags {
                Ok(flags)
            } else {
                spec_rounds(cfg, cur, cur_contents, corpus, f1, (fuel - 1) as nat)
            },
        }
    }
}

/// The reached corpus entries, in corpus order from index `i` on.
pub open spec fn spec_flagged(corpus: Seq<NoteEntry>, flags: Seq<bool>, i: int) -> Seq<NoteEntryV>
    decreases corpus.len() - i,
{
    if i < 0 || i >= corpus.len() {
        Seq::empty()
    } else if 0 <= i < flags.len() && flags[i] {
        seq![corpus[i].deep_view()] + spec_flagged(corpus, flags, i + 1)
    } else {
        spec_flagged(corpus, flags, i + 1)
    }
}

/// The note order lifted to corpus entry views.
pub open spec fn spec_note_entry_le(a: NoteEntryV, b: NoteEntryV) -> bool {
    spec_note_le(a.dirs, a.id, b.dirs, b.id)
}

/// One listing line of an explore result.
pub open spec fn spec_explore_line(cfg: Config, cur: Note, v: NoteEntryV) -> Seq<char> {
    spec_link_line(
        opt_or_empty(spec_title_of_contents(v.contents)),
        ok_link(cfg, cur, spec_path_v(cfg, v.dirs, v.id)),
    )
}

/// What an `explore` block is replaced with: every note reachable from
/// the current one along links, except the current note itself, in note
/// order.
pub open spec fn spec_explore_lines(
    cfg: Config,
    cur: Note,
    cur_contents: Seq<char>,
    corpus: Seq<NoteEntry>,
) -> Result<Seq<Seq<char>>, RegenError> {
    let flags0 = Seq::new(corpus.len(), |i: int| false);
    match spec_rounds(cfg, cur, cur_contents, corpus, flags0, (corpus.len() + 1) as nat) {
        Err(e) => Err(e),
        Ok(flags) => {
            let sorted = spec_sort_by(
                spec_flagged(corpus, flags, 0),
                |a: NoteEntryV, b: NoteEntryV| spec_note_entry_le(a, b),
            );
            if sorted.len() > 0 && !note_target_abs(cfg) {
                Err(RegenError::LinkFormat)
            } else {
                Ok(sorted.map_values(|v: NoteEntryV| spec_explore_line(cfg, cur, v)))
            }
        },
    }
}

/// Finds the corpus entry naming the given note.
fn find_note(corpus: &Vec<NoteEntry>, n: &PhysicalNote, from: usize) -> (r: Option<usize>)
    requires
        from <= corpus.len(),
    ensures
        match r {
            Some(j) => spec_find_note(
                corpus@,
                n.directories.deep_view(),
                n.id@,
                from as int,
            ) == Some(j as int) && j < corpus.len(),
            None => spec_find_note(corpus@, n.directories.deep_view(), n.id@, from as int)
                is None,
        },
    decreases corpus.len() - from,
{
    if from == corpus.len() {
        None
    } else if corpus[from].note.same_note(n) {
        Some(from)
    } else {
        find_note(corpus, n, from + 1)
    }
}

/// Follows one note's links, marking the reached corpus notes.
fn apply_links(
    config: &Config,
    src: &Note,
    links: &Vec<Link>,
    cur: &Note,
    corpus: &Vec<NoteEntry>,
    flags: Vec<bool>,
    k: usize,
) -> (r: Result<Vec<bool>, RegenError>)
    requires
        k <= links.len(),
    ensures
        ({
            let glinks = links.deep_view().skip(k as int);
            match r {
                Ok(f1) => spec_apply_links(*config, *src, glinks, *cur, corpus@, flags@) == Ok::<
                    _,
                    RegenError,
                >(f1@),
                Err(e) => spec_apply_links(*config, *src, glinks, *cur, corpus@, flags@) == Err::<
                    Seq<bool>,
                    _,
                >(e),
            }
        }),
    decreases links.len() - k,
{
    if k == links.len() {
        proof {
            assert(links.deep_view().skip(k as int) =~= Seq::empty());
        }
        return Ok(flags);
    }
    proof {
        assert(links.deep_view().skip(k as int)[0] == links.deep_view()[k as int]);
        assert(links.deep_view()[k as int] == links@[k as int].deep_view());
        assert(links.deep_view().skip(k as int).drop_first() =~= links.deep_view().skip(
            k as int + 1,
        ));
    }
    let resolved = match resolve_link_path(config, src, links[k].url.as_str()) {
        Ok(p) => p,
        Err(_) => {
            // resolution cannot fail; its contract rules this arm out
            proof {
                assert(false);
            }
            return Err(RegenError::NoteParse);
        },
    };
    let parsed = match PhysicalNote::parse_from_filepath(config, resolved.as_str()) {
        Ok(n) => n,
        Err(_) => {
            return Err(RegenError::NoteParse);
        },
    };
    let is_root = match cur {
        Note::Physical(c) => c.same_note(&parsed),
        Note::Scratch(_) => false,
    };
    if is_root {
        apply_links(config, src, links, cur, corpus, flags, k + 1)
    } else {
        match find_note(corpus, &parsed, 0) {
            None => Err(RegenError::NoteNotFound),
            Some(j) => {
                let mut f1 = flags;
                if j < f1.len() {
                    f1[j] = true;
                    proof {
                        assert(f1@ =~= flags@.update(j as int, true));
                    }
                }
                apply_links(config, src, links, cur, corpus, f1, k + 1)
            },
        }
    }
}

/// The links of one text, or none when it does not parse.
fn links_of(text: &str) -> (r: Vec<Link>)
    ensures
        r.deep_view() == spec_links_of(text@),
{
    match parse_markdown(text) {
        Ok(tree) => get_all_links(&tree),
        Err(_) => {
            let r: Vec<Link> = Vec::new();
            proof {
                assert(r.deep_view() =~~= spec_links_of(text@));
            }
            r
        },
    }
}

/// One sweep over the notes already reached.
fn round_notes(
    config: &Config,
    cur: &Note,
    corpus: &Vec<NoteEntry>,
    flags: Vec<bool>,
    i: usize,
) -> (r: Result<Vec<bool>, RegenError>)
    requires
        i <= corpus.len(),
    ensures
        match r {
            Ok(f1) => spec_round_notes(*config, *cur, corpus@, flags@, i as int) == Ok::<
                _,
                RegenError,
            >(f1@),
            Err(e) => spec_round_notes(*config, *cur, corpus@, flags@, i as int) == Err::<
                Seq<bool>,
                _,
            >(e),
        },
    decreases corpus.len() - i,
{
    if i == corpus.len() {
        return Ok(flags);
    }
    let marked = i < flags.len() && flags[i];
    if marked {
        let e = &corpus[i];
        let links = links_of(e.contents.as_str());
        let src = Note::Physical(e.note.duplicate());
        let ghost gsrc = Note::Physical(corpus@[i as int].note);
        proof {
            lemma_apply_links_congruent(
                *config,
                src,
                gsrc,
                links.deep_view(),
                *cur,
                corpus@,
                flags@,
            );
            assert(links.deep_view().skip(0) =~= links.deep_view());
        }
        match apply_links(config, &src, &links, cur, corpus, flags, 0) {
            Err(er) => Err(er),
            Ok(f1) => round_notes(config, cur, corpus, f1, i + 1),
        }
    } else {
        round_notes(config, cur, corpus, flags, i + 1)
    }
}

/// Link application reads only the source note's directories and id.
proof fn lemma_apply_links_congruent(
    cfg: Config,
    a: Note,
    b: Note,
    links: Seq<(Seq<char>, Option<crate::markdown::Span>)>,
    cur: Note,
    corpus: Seq<NoteEntry>,
    flags: Seq<bool>,
)
    requires
        a matches Note::Physical(an) && (b matches Note::Physical(bn)
            && an.directories.deep_view() == bn.directories.deep_view() && an.id@ == bn.id@),
    ensures
        spec_apply_links(cfg, a, links, cur, corpus, flags) == spec_apply_links(
            cfg,
            b,
            links,
            cur,
            corpus,
            flags,
        ),
    decreases links.len(),
{
    if links.len() == 0 {
    } else {
        match (a, b) {
            (Note::Physical(an), Note::Physical(bn)) => {
                crate::links::lemma_resolve_congruent(cfg, an, bn, links[0].0);
                let path = ok_resolve(cfg, a, links[0].0);
                match PhysicalNote::spec_parse(cfg, path) {
                    Err(_) => {},
                    Ok(di) => {
                        if spec_is_root_note(cur, di.0, di.1) {
                            lemma_apply_links_congruent(
                                cfg,
                                a,
                                b,
                                links.drop_first(),
                                cur,
                                corpus,
                                flags,
                            );
                        } else {
                            match spec_find_note(corpus, di.0, di.1, 0) {
                                None => {},
                                Some(j) => {
                                    let f1 = if 0 <= j < flags.len() {
                                        flags.update(j, true)
                                    } else {
                                        flags
                                    };
                                    lemma_apply_links_congruent(
                                        cfg,
                                        a,
                                        b,
                                        links.drop_first(),
                                        cur,
                                        corpus,
                                        f1,
                                    );
                                },
                            }
                        }
                    },
                }
            },
            _ => {},
        }
    }
}

} // verus!

verus! {

/// Whether two flag vectors agree.
fn flags_eq(a: &Vec<bool>, b: &Vec<bool>) -> (r: bool)
    ensures
        r == (a@ == b@),
{
    if a.len() != b.len() {
        return false;
    }
    let mut i: usize = 0;
    while i < a.len()
        invariant
            i <= a.len(),
            a.len() == b.len(),
            forall|k: int| 0 <= k < i ==> a@[k] == b@[k],
        decreases a.len() - i,
    {
        if a[i] != b[i] {
            return false;
        }
        i = i + 1;
    }
    proof {
        assert(a@ =~= b@);
    }
    true
}

/// One full sweep.
fn round(
    config: &Config,
    cur: &Note,
    cur_contents: &str,
    corpus: &Vec<NoteEntry>,
    flags: Vec<bool>,
) -> (r: Result<Vec<bool>, RegenError>)
    ensures
        match r {
            Ok(f1) => spec_round(*config, *cur, cur_contents@, corpus@, flags@) == Ok::<
                _,
                RegenError,
            >(f1@),
            Err(e) => spec_round(*config, *cur, cur_contents@, corpus@, flags@) == Err::<
                Seq<bool>,
                _,
            >(e),
        },
{
    let links = links_of(cur_contents);
    proof {
        assert(links.deep_view().skip(0) =~= links.deep_view());
    }
    match apply_links(config, cur, &links, cur, corpus, flags, 0) {
        Err(e) => Err(e),
        Ok(f1) => round_notes(config, cur, corpus, f1, 0),
    }
}

/// Sweeps to the fixed point (the fuel always suffices on real buffers,
/// and the specification carries it explicitly).
fn rounds(
    config: &Config,
    cur: &Note,
    cur_contents: &str,
    corpus: &Vec<NoteEntry>,
    flags: Vec<bool>,
    fuel: usize,
) -> (r: Result<Vec<bool>, RegenError>)
    ensures
        match r {
            Ok(f1) => spec_rounds(
                *config,
                *cur,
                cur_contents@,
                corpus@,
                flags@,
                fuel as nat,
            ) == Ok::<_, RegenError>(f1@),
            Err(e) => spec_rounds(*config, *cur, cur_contents@, corpus@, flags@, fuel as nat)
                == Err::<Seq<bool>, _>(e),
        },
    decreases fuel,
{
    if fuel == 0 {
        return Ok(flags);
    }
    let ghost gflags = flags@;
    let snapshot = dup_flags(&flags);
    match round(config, cur, cur_contents, corpus, flags) {
        Err(e) => Err(e),
        Ok(f1) => {
            if flags_eq(&f1, &snapshot) {
                Ok(f1)
            } else {
                rounds(config, cur, cur_contents, corpus, f1, fuel - 1)
            }
        },
    }
}

/// A copy of a flag vector.
fn dup_flags(v: &Vec<bool>) -> (r: Vec<bool>)
    ensures
        r@ == v@,
{
    let mut r: Vec<bool> = Vec::new();
    let mut i: usize = 0;
    while i < v.len()
        invariant
            i <= v.len(),
            r@ == v@.take(i as int),
        decreases v.len() - i,
    {
        r.push(v[i]);
        proof {
            assert(r@ =~= v@.take(i as int + 1));
        }
        i = i + 1;
    }
    proof {
        assert(v@.take(v.len() as int) =~= v@);
    }
    r
}

/// Builds the replacement lines of an `explore` block.
#[verifier::loop_isolation(false)]
pub fn explore_lines(
    config: &Config,
    cur: &Note,
    cur_contents: &str,
    corpus: &Vec<NoteEntry>,
) -> (r: Result<Vec<String>, RegenError>)
    requires
        corpus@.len() < usize::MAX,
    ensures
        match r {
            Ok(ls) => spec_explore_lines(*config, *cur, cur_contents@, corpus@) == Ok::<
                _,
                RegenError,
            >(ls.deep_view()),
            Err(e) => spec_explore_lines(*config, *cur, cur_contents@, corpus@) == Err::<
                Seq<Seq<char>>,
                _,
            >(e),
        },
{
    let mut flags0: Vec<bool> = Vec::new();
    let mut i: usize = 0;
    while i < corpus.len()
        invariant
            i <= corpus.len(),
            flags0@ =~= Seq::new(i as nat, |q: int| false),
        decreases corpus.len() - i,
    {
        flags0.push(false);
        proof {
            assert(flags0@ =~= Seq::new((i + 1) as nat, |q: int| false));
        }
        i = i + 1;
    }
    let flags = match rounds(config, cur, cur_contents, corpus, flags0, corpus.len() + 1) {
        Ok(f) => f,
        Err(e) => {
            return Err(e);
        },
    };
    // collect the reached entries in corpus order
    let mut items: Vec<NoteEntry> = Vec::new();
    let ghost gflags = flags@;
    proof {
        assert(items.deep_view() + spec_flagged(corpus@, gflags, 0) =~~= spec_flagged(
            corpus@,
            gflags,
            0,
        ));
    }
    let mut j: usize = 0;
    while j < corpus.len()
        invariant
            j <= corpus.len(),
            gflags == flags@,
            items.deep_view() + spec_flagged(corpus@, gflags, j as int) =~~= spec_flagged(
                corpus@,
                gflags,
                0,
            ),
        decreases corpus.len() - j,
    {
        let marked = j < flags.len() && flags[j];
        if marked {
            let ghost pre = items.deep_view();
            let ghost prev = items@;
            items.push(
                NoteEntry {
                    note: corpus[j].note.duplicate(),
                    contents: dup_string(&corpus[j].contents),
                },
            );
            proof {
                assert(items.deep_view()[prev.len() as int] == items@[prev.len() as int].deep_view());
                assert forall|m: int| 0 <= m < prev.len() implies #[trigger] items.deep_view()[m]
                    == pre[m] by {
                    assert(items@[m] == prev[m]);
                }
                assert(items.deep_view() =~~= pre.push(corpus@[j as int].deep_view()));
                assert(spec_flagged(corpus@, gflags, j as int) =~~= seq![corpus@[j as int].deep_view()]
                    + spec_flagged(corpus@, gflags, j as int + 1));
                assert(items.deep_view() + spec_flagged(corpus@, gflags, j + 1) =~~= pre + (seq![
                    corpus@[j as int].deep_view()
                ] + spec_flagged(corpus@, gflags, j + 1)));
            }
        }
        j = j + 1;
    }
    proof {
        assert(spec_flagged(corpus@, gflags, corpus.len() as int) =~~= Seq::<NoteEntryV>::empty());
        assert(items.deep_view() =~~= spec_flagged(corpus@, gflags, 0));
    }
    // sort by the note order
    let ghost le = |a: NoteEntryV, b: NoteEntryV| spec_note_entry_le(a, b);
    let cmp = |a: &NoteEntry, b: &NoteEntry| -> (r: bool)
        ensures
            r == spec_note_entry_le(a.deep_view(), b.deep_view()),
        { a.note.le(&b.note) };
    let sorted = sort_by_rel(items, cmp, Ghost(le));
    let ghost ssorted = spec_sort_by(spec_flagged(corpus@, gflags, 0), le);
    // render
    let mut out: Vec<String> = Vec::new();
    proof {
        assert(out.deep_view() =~~= ssorted.map_values(
            |v: NoteEntryV| spec_explore_line(*config, *cur, v),
        ).take(0));
    }
    let mut m: usize = 0;
    while m < sorted.len()
        invariant
            m <= sorted.len(),
            sorted.deep_view() == ssorted,
            out.deep_view() == ssorted.map_values(
                |v: NoteEntryV| spec_explore_line(*config, *cur, v),
            ).take(m as int),
            m > 0 ==> note_target_abs(*config),
        decreases sorted.len() - m,
    {
        let e = &sorted[m];
        let target = e.note.path(config);
        proof {
            lemma_note_path_abs(*config, e.note.directories.deep_view(), e.note.id@);
            assert(e.note.directories.deep_view() == ssorted[m as int].dirs);
            assert(e.note.id@ == ssorted[m as int].id);
            assert(e.contents@ == ssorted[m as int].contents);
        }
        let link = match format_link_path(config, cur, target.as_str()) {
            Ok(link) => link,
            Err(_) => {
                return Err(RegenError::LinkFormat);
            },
        };
        let title = crate::frontmatter::title_of_contents(e.contents.as_str());
        let line = match &title {
            Some(t) => render_link_line(t.as_str(), link.as_str()),
            None => {
                proof {
                    reveal_strlit("");
                    assert(""@ =~= Seq::<char>::empty());
                }
                render_link_line("", link.as_str())
            },
        };
        let ghost pre = out.deep_view();
        let ghost prev = out@;
        out.push(line);
        proof {
            assert(out.deep_view()[prev.len() as int] == out@[prev.len() as int]@);
            assert forall|k: int| 0 <= k < prev.len() implies #[trigger] out.deep_view()[k]
                == pre[k] by {
                assert(out@[k] == prev[k]);
            }
            assert(out.deep_view() =~~= ssorted.map_values(
                |v: NoteEntryV| spec_explore_line(*config, *cur, v),
            ).take(m as int + 1));
        }
        m = m + 1;
    }
    proof {
        let mapped = ssorted.map_values(|v: NoteEntryV| spec_explore_line(*config, *cur, v));
        assert(mapped.take(sorted.len() as int) =~= mapped);
    }
    Ok(out)
}

} // verus!

verus! {

// ---------------------------------------------------------------------------
// The rewriting state machine
// ---------------------------------------------------------------------------

/// The trimmed, semicolon-delimited arguments of a start marker's tail.
pub open spec fn spec_args(tail: Seq<char>) -> Seq<Seq<char>> {
    spec_split(tail, seq![';']).map_values(|t: Seq<char>| spec_trim(t))
}

/// Splits and trims a start marker's argument tail.
#[verifier::loop_isolation(false)]
pub fn args_of(tail: &str) -> (r: Vec<String>)
    ensures
        r.deep_view() == spec_args(tail@),
{
    proof {
        reveal_strlit(";");
        assert(";"@ =~= seq![';']);
    }
    let raw = split_str(tail, ";");
    let mut out: Vec<String> = Vec::new();
    proof {
        assert(out.deep_view() =~~= spec_args(tail@).take(0));
    }
    let mut i: usize = 0;
    while i < raw.len()
        invariant
            i <= raw.len(),
            raw.deep_view() == spec_split(tail@, seq![';']),
            out.deep_view() == spec_args(tail@).take(i as int),
        decreases raw.len() - i,
    {
        let ghost pre = out.deep_view();
        let ghost prev = out@;
        out.push(trim_str(raw[i].as_str()));
        proof {
            assert(raw.deep_view()[i as int] == raw@[i as int]@);
            assert(out.deep_view()[prev.len() as int] == out@[prev.len() as int]@);
            assert(out@[prev.len() as int]@ == spec_trim(raw@[i as int]@));
            assert forall|k: int| 0 <= k < prev.len() implies #[trigger] out.deep_view()[k]
                == pre[k] by {
                assert(out@[k] == prev[k]);
            }
            assert(out.deep_view() =~~= spec_args(tail@).take(i as int + 1));
        }
        i = i + 1;
    }
    proof {
        assert(spec_args(tail@).take(raw.len() as int) =~~= spec_args(tail@));
    }
    out
}

/// The directory segments an `index` argument names; empty text names the
/// wiki root itself.
pub open spec fn spec_dir_of(arg: Seq<char>) -> Seq<Seq<char>> {
    if arg.len() == 0 {
        Seq::empty()
    } else {
        spec_split(arg, seq!['/'])
    }
}

/// Splits an `index` directory argument into segments.
pub fn dir_of(arg: &str) -> (r: Vec<String>)
    ensures
        r.deep_view() == spec_dir_of(arg@),
{
    proof {
        reveal_strlit("/");
        assert("/"@ =~= seq!['/']);
    }
    if arg.unicode_len() == 0 {
        let r: Vec<String> = Vec::new();
        proof {
            assert(r.deep_view() =~~= spec_dir_of(arg@));
        }
        r
    } else {
        split_str(arg, "/")
    }
}

/// The sort key an `index` argument names; a missing argument means the
/// title, an unknown one falls back to the id.
pub open spec fn spec_key_of(arg: Option<Seq<char>>) -> SortKey {
    match arg {
        None => SortKey::Title,
        Some(a) => if a == "title"@ {
            SortKey::Title
        } else if a == "date"@ {
            SortKey::Date
        } else if a == "id"@ {
            SortKey::Id
        } else {
            SortKey::Id
        },
    }
}

/// Whether the named sort key is unknown (reported, then id order).
pub open spec fn spec_key_unknown(arg: Option<Seq<char>>) -> bool {
    match arg {
        None => false,
        Some(a) => a != "title"@ && a != "date"@ && a != "id"@,
    }
}

/// Reads the sort-key argument.
pub fn key_of(args: &Vec<String>) -> (r: (SortKey, bool))
    ensures
        ({
            let arg = if args.deep_view().len() >= 2 {
                Some(args.deep_view()[1])
            } else {
                None::<Seq<char>>
            };
            r.0 == spec_key_of(arg) && r.1 == spec_key_unknown(arg)
        }),
{
    if args.len() < 2 {
        return (SortKey::Title, false);
    }
    let a = args[1].as_str();
    proof {
        assert(args.deep_view()[1] == args@[1]@);
    }
    if str_eq(a, "title") {
        (SortKey::Title, false)
    } else if str_eq(a, "date") {
        (SortKey::Date, false)
    } else if str_eq(a, "id") {
        (SortKey::Id, false)
    } else {
        (SortKey::Id, true)
    }
}

/// Replaces the lines strictly between `a` and `b` (exclusive of both)
/// positions `a` and `b` themselves: keeps `[0, a)`, inserts the
/// replacement, keeps `[b, len)`.
#[verifier::loop_isolation(false)]
fn splice_lines(lines: &Vec<String>, a: usize, b: usize, rep: Vec<String>) -> (r: Vec<String>)
    requires
        a <= b <= lines@.len(),
    ensures
        r.deep_view() == lines.deep_view().take(a as int) + rep.deep_view()
            + lines.deep_view().skip(b as int),
{
    let ghost grep = rep.deep_view();
    let mut out: Vec<String> = Vec::new();
    proof {
        assert(out.deep_view() =~~= lines.deep_view().take(0));
    }
    let mut i: usize = 0;
    while i < a
        invariant
            i <= a <= lines@.len(),
            out.deep_view() == lines.deep_view().take(i as int),
        decreases a - i,
    {
        let ghost pre = out.deep_view();
        let ghost prev = out@;
        out.push(dup_string(&lines[i]));
        proof {
            assert(lines.deep_view()[i as int] == lines@[i as int]@);
            assert(out.deep_view()[prev.len() as int] == out@[prev.len() as int]@);
            assert forall|k: int| 0 <= k < prev.len() implies #[trigger] out.deep_view()[k]
                == pre[k] by {
                assert(out@[k] == prev[k]);
            }
            assert(out.deep_view() =~~= lines.deep_view().take(i as int + 1));
        }
        i = i + 1;
    }
    let ghost mid0 = out.deep_view();
    let ghost outv0 = out@;
    let mut rep_mut = rep;
    let ghost repv = rep_mut@;
    out.append(&mut rep_mut);
    proof {
        assert(out@ =~= outv0 + repv);
        assert forall|k: int| 0 <= k < out@.len() implies #[trigger] out.deep_view()[k] == (mid0
            + grep)[k] by {
            if k < outv0.len() {
                assert(out@[k] == outv0[k]);
            } else {
                assert(out@[k] == repv[k - outv0.len()]);
            }
        }
        assert(out.deep_view() =~~= mid0 + grep);
    }
    let ghost mid1 = out.deep_view();
    let mut j: usize = b;
    while j < lines.len()
        invariant
            b <= j <= lines@.len(),
            out.deep_view() == mid1 + lines.deep_view().subrange(b as int, j as int),
        decreases lines@.len() - j,
    {
        let ghost pre = out.deep_view();
        let ghost prev = out@;
        out.push(dup_string(&lines[j]));
        proof {
            assert(lines.deep_view()[j as int] == lines@[j as int]@);
            assert(out.deep_view()[prev.len() as int] == out@[prev.len() as int]@);
            assert forall|k: int| 0 <= k < prev.len() implies #[trigger] out.deep_view()[k]
                == pre[k] by {
                assert(out@[k] == prev[k]);
            }
            assert(out.deep_view() =~~= mid1 + lines.deep_view().subrange(b as int, j as int + 1));
        }
        j = j + 1;
    }
    proof {
        assert(lines.deep_view().subrange(b as int, lines@.len() as int) =~= lines.deep_view().skip(
            b as int,
        ));
        assert(out.deep_view() =~~= lines.deep_view().take(a as int) + grep
            + lines.deep_view().skip(b as int));
    }
    out
}

/// What one pass of the rewriter does at match ordinal `n`: nothing left,
/// a failure, or the buffer after handling that block.
pub enum StepRes {
    Done,
    Next(Seq<Seq<char>>),
    Fail(RegenError),
}

/// One pass: find the `n`-th start marker, settle the block's end
/// (synthesizing an end marker when needed), compute the replacement, and
/// splice it strictly between the markers.  An unknown command leaves the
/// block untouched.
pub open spec fn spec_step(
    cfg: Config,
    cur: Note,
    corpus: Seq<NoteEntry>,
    lines: Seq<Seq<char>>,
    n: nat,
) -> StepRes {
    match spec_nth_start_from(lines, 0, n) {
        None => StepRes::Done,
        Some(si) => match spec_start_marker(lines[si]) {
            None => StepRes::Done,
            Some(ct) => {
                let args = spec_args(ct.1);
                let synth = spec_region_end(lines, si) is None;
                let lines1 = if synth {
                    lines.insert(si + 1, end_word())
                } else {
                    lines
                };
                let eidx = if synth {
                    si + 1
                } else {
                    spec_region_end(lines, si)->Some_0
                };
                let rep: Option<Result<Seq<Seq<char>>, RegenError>> = if ct.0 == "index"@ {
                    let dirarg = if args.len() >= 1 {
                        args[0]
                    } else {
                        Seq::empty()
                    };
                    let key = spec_key_of(
                        if args.len() >= 2 {
                            Some(args[1])
                        } else {
                            None
                        },
                    );
                    Some(spec_index_lines(cfg, cur, corpus, spec_dir_of(dirarg), key))
                } else if ct.0 == "backlinks"@ {
                    Some(spec_backlinks_from(cfg, cur, corpus, 0))
                } else if ct.0 == "explore"@ {
                    Some(spec_explore_lines(cfg, cur, spec_join_nl(lines1), corpus))
                } else {
                    None
                };
                match rep {
                    None => StepRes::Next(lines1),
                    Some(Err(e)) => StepRes::Fail(e),
                    Some(Ok(ls)) => StepRes::Next(
                        lines1.take(si + 1) + ls + lines1.skip(eidx),
                    ),
                }
            },
        },
    }
}

/// Repeated passes with rising match ordinal, until no start marker is
/// left or the fuel runs out.
pub open spec fn spec_run(
    cfg: Config,
    cur: Note,
    corpus: Seq<NoteEntry>,
    lines: Seq<Seq<char>>,
    n: nat,
    fuel: nat,
) -> Result<Seq<Seq<char>>, RegenError>
    decreases fuel,
{
    if fuel == 0 {
        Ok(lines)
    } else {
        match spec_step(cfg, cur, corpus, lines, n) {
            StepRes::Done => Ok(lines),
            StepRes::Fail(e) => Err(e),
            StepRes::Next(l1) => spec_run(cfg, cur, corpus, l1, n + 1, (fuel - 1) as nat),
        }
    }
}

} // verus!

verus! {

/// Rewrites every autogenerated block of the buffer: scans for start
/// markers by rising match ordinal (line numbers shift as text is
/// spliced), settles each block's end, computes the replacement from the
/// note corpus, and splices it in.  Returns the rewritten lines and the
/// reports about unknown commands or sort keys.  The pass count is
/// bounded by the incoming line count, which covers every buffer whose
/// replacements do not themselves spawn new markers.
#[verifier::loop_isolation(false)]
pub fn regenerate_autogenerated_sections(
    config: &Config,
    current_note: &Note,
    corpus: &Vec<NoteEntry>,
    lines: Vec<String>,
) -> (r: Result<(Vec<String>, Vec<String>), RegenError>)
    requires
        corpus@.len() < usize::MAX,
    ensures
        ({
            let budget = lines.deep_view().len() as nat;
            match r {
                Ok(out) => spec_run(
                    *config,
                    *current_note,
                    corpus@,
                    lines.deep_view(),
                    1,
                    budget,
                ) == Ok::<_, RegenError>(out.0.deep_view()),
                Err(e) => spec_run(*config, *current_note, corpus@, lines.deep_view(), 1, budget)
                    == Err::<Seq<Seq<char>>, _>(e),
            }
        }),
{
    let ghost lines0 = lines.deep_view();
    let ghost budget = lines.deep_view().len() as nat;
    let mut cur_lines = lines;
    let mut msgs: Vec<String> = Vec::new();
    let mut fuel: usize = cur_lines.len();
    let mut n: u64 = 1;
    while fuel > 0
        invariant
            n >= 1,
            n as nat + fuel as nat == budget + 1,
            spec_run(*config, *current_note, corpus@, lines0, 1, budget) == spec_run(
                *config,
                *current_note,
                corpus@,
                cur_lines.deep_view(),
                n as nat,
                fuel as nat,
            ),
        decreases fuel,
    {
        let ghost pre_lines = cur_lines.deep_view();
        let si = match nth_start_from(&cur_lines, 0, n) {
            None => {
                return Ok((cur_lines, msgs));
            },
            Some(si) => si,
        };
        proof {
            assert(cur_lines.deep_view()[si as int] == cur_lines@[si as int]@);
        }
        let (cmd, tail) = match line_start_marker(cur_lines[si].as_str()) {
            Some(ct) => ct,
            None => {
                // the found line is a start marker line, so it always parses
                proof {
                    lemma_nth_start_props(cur_lines.deep_view(), 0, n as nat);
                    assert(false);
                }
                return Ok((cur_lines, msgs));
            },
        };
        let args = args_of(tail.as_str());
        let eidx = match region_end(&cur_lines, si) {
            Some(e) => e,
            None => {
                let ghost prev = cur_lines@;
                let ghost pred = cur_lines.deep_view();
                cur_lines.insert(si + 1, String::from_str("wikiplugin_autogenerate_end"));
                proof {
                    reveal_strlit("wikiplugin_autogenerate_end");
                    assert(cur_lines@ == prev.insert(si + 1, cur_lines@[si as int + 1]));
                    assert(cur_lines@[si as int + 1]@ == end_word());
                    assert forall|k: int| 0 <= k < cur_lines@.len() implies
                        #[trigger] cur_lines.deep_view()[k] == pred.insert(
                        si as int + 1,
                        end_word(),
                    )[k] by {
                        if k < si + 1 {
                            assert(cur_lines@[k] == prev[k]);
                        } else if k > si + 1 {
                            assert(cur_lines@[k] == prev[k - 1]);
                        }
                    }
                    assert(cur_lines.deep_view() =~~= pred.insert(si as int + 1, end_word()));
                }
                si + 1
            },
        };
        let ghost lines1 = cur_lines.deep_view();
        let rep: Option<Result<Vec<String>, RegenError>> = if str_eq(cmd.as_str(), "index") {
            let dirarg = if args.len() >= 1 {
                dup_string(&args[0])
            } else {
                String::new()
            };
            proof {
                if args.deep_view().len() >= 1 {
                    assert(args.deep_view()[0] == args@[0]@);
                }
            }
            let dir = dir_of(dirarg.as_str());
            let (key, unknown) = key_of(&args);
            if unknown {
                let mut m = String::from_str("invalid comparison: ");
                m.append(if args.len() >= 2 {
                    args[1].as_str()
                } else {
                    ""
                });
                msgs.push(m);
            }
            proof {
                if args.deep_view().len() >= 2 {
                    assert(args.deep_view()[1] == args@[1]@);
                }
            }
            Some(index_lines(config, current_note, corpus, &dir, key))
        } else if str_eq(cmd.as_str(), "backlinks") {
            Some(backlinks_lines(config, current_note, corpus))
        } else if str_eq(cmd.as_str(), "explore") {
            let text = join_lines_nl(&cur_lines);
            Some(explore_lines(config, current_note, text.as_str(), corpus))
        } else {
            let mut m = String::from_str("invalid autogenerate function: ");
            m.append(cmd.as_str());
            msgs.push(m);
            None
        };
        match rep {
            None => {},
            Some(Err(e)) => {
                proof {
                    assert(spec_step(*config, *current_note, corpus@, pre_lines, n as nat)
                        == StepRes::Fail(e));
                }
                return Err(e);
            },
            Some(Ok(ls)) => {
                let replaced = splice_lines(&cur_lines, si + 1, eidx, ls);
                cur_lines = replaced;
            },
        }
        proof {
            assert(spec_step(*config, *current_note, corpus@, pre_lines, n as nat)
                == StepRes::Next(cur_lines.deep_view()));
        }
        fuel = fuel - 1;
        if fuel == 0 {
            proof {
                assert(spec_run(
                    *config,
                    *current_note,
                    corpus@,
                    cur_lines.deep_view(),
                    n as nat + 1,
                    0,
                ) == Ok::<_, RegenError>(cur_lines.deep_view()));
            }
            return Ok((cur_lines, msgs));
        }
        n = n + 1;
    }
    Ok((cur_lines, msgs))
}

} // verus!

verus! {

/// Law: an `index` listing is a permutation of exactly the matching
/// notes, with neighbouring entries ordered under the chosen key (for the
/// title key, entries without a title compare by id).
pub proof fn lemma_index_listing_sorted(
    cfg: Config,
    corpus: Seq<NoteEntry>,
    dir: Seq<Seq<char>>,
    key: SortKey,
)
    ensures
        ({
            let views = spec_matching(corpus, dir).map_values(|e: NoteEntry| spec_entry_of(cfg, e));
            let le = |a: IndexEntryV, b: IndexEntryV| spec_entry_le(key, a, b);
            let sorted = spec_sort_by(views, le);
            &&& sorted.to_multiset() == views.to_multiset()
            &&& sorted.len() == views.len()
            &&& crate::sorting::adj_sorted_by(sorted, le)
        }),
{
    let views = spec_matching(corpus, dir).map_values(|e: NoteEntry| spec_entry_of(cfg, e));
    let le = |a: IndexEntryV, b: IndexEntryV| spec_entry_le(key, a, b);
    lemma_entry_le_total(key);
    crate::sorting::lemma_sort_by_props(views, le);
}

/// Law: an `explore` listing is a permutation of exactly the reached
/// notes, with neighbouring entries in the note order (directories first,
/// then id).
pub proof fn lemma_explore_listing_sorted(corpus: Seq<NoteEntry>, flags: Seq<bool>)
    ensures
        ({
            let views = spec_flagged(corpus, flags, 0);
            let le = |a: NoteEntryV, b: NoteEntryV| spec_note_entry_le(a, b);
            let sorted = spec_sort_by(views, le);
            &&& sorted.to_multiset() == views.to_multiset()
            &&& sorted.len() == views.len()
            &&& crate::sorting::adj_sorted_by(sorted, le)
        }),
{
    let views = spec_flagged(corpus, flags, 0);
    let le = |a: NoteEntryV, b: NoteEntryV| spec_note_entry_le(a, b);
    assert forall|a: NoteEntryV, b: NoteEntryV| #[trigger] le(a, b) || #[trigger] le(b, a) by {
        lemma_note_le_total(a.dirs, a.id, b.dirs, b.id);
    }
    crate::sorting::lemma_sort_by_props(views, le);
}

} // verus!

verus! {

/// Pointwise inclusion of flag vectors of one length.
pub open spec fn flags_le(a: Seq<bool>, b: Seq<bool>) -> bool {
    a.len() == b.len() && forall|i: int| 0 <= i < a.len() && a[i] ==> b[i]
}

/// A found corpus index lies inside the corpus.
proof fn lemma_find_note_range(
    corpus: Seq<NoteEntry>,
    dirs: Seq<Seq<char>>,
    id: Seq<char>,
    from: int,
)
    ensures
        match spec_find_note(corpus, dirs, id, from) {
            Some(j) => from <= j < corpus.len(),
            None => true,
        },
    decreases corpus.len() - from,
{
    if from < 0 || from >= corpus.len() {
    } else if corpus[from].note.directories.deep_view() == dirs && corpus[from].note.id@ == id {
    } else {
        lemma_find_note_range(corpus, dirs, id, from + 1);
    }
}

/// Following links only ever adds flags.
proof fn lemma_apply_links_monotone(
    cfg: Config,
    src: Note,
    links: Seq<(Seq<char>, Option<crate::markdown::Span>)>,
    cur: Note,
    corpus: Seq<NoteEntry>,
    flags: Seq<bool>,
)
    ensures
        match spec_apply_links(cfg, src, links, cur, corpus, flags) {
            Ok(f1) => flags_le(flags, f1),
            Err(_) => true,
        },
    decreases links.len(),
{
    if links.len() == 0 {
    } else {
        let path = ok_resolve(cfg, src, links[0].0);
        match PhysicalNote::spec_parse(cfg, path) {
            Err(_) => {},
            Ok(di) => {
                if spec_is_root_note(cur, di.0, di.1) {
                    lemma_apply_links_monotone(cfg, src, links.drop_first(), cur, corpus, flags);
                } else {
                    match spec_find_note(corpus, di.0, di.1, 0) {
                        None => {},
                        Some(j) => {
                            let f1 = if 0 <= j < flags.len() {
                                flags.update(j, true)
                            } else {
                                flags
                            };
                            lemma_apply_links_monotone(
                                cfg,
                                src,
                                links.drop_first(),
                                cur,
                                corpus,
                                f1,
                            );
                        },
                    }
                }
            },
        }
    }
}

/// A sweep over the reached notes only ever adds flags.
proof fn lemma_round_notes_monotone(
    cfg: Config,
    cur: Note,
    corpus: Seq<NoteEntry>,
    flags: Seq<bool>,
    i: int,
)
    ensures
        match spec_round_notes(cfg, cur, corpus, flags, i) {
            Ok(f1) => flags_le(flags, f1),
            Err(_) => true,
        },
    decreases corpus.len() - i,
{
    if i < 0 || i >= corpus.len() {
    } else if 0 <= i < flags.len() && flags[i] {
        let links = spec_links_of(corpus[i].contents@);
        lemma_apply_links_monotone(cfg, Note::Physical(corpus[i].note), links, cur, corpus, flags);
        match spec_apply_links(cfg, Note::Physical(corpus[i].note), links, cur, corpus, flags) {
            Err(_) => {},
            Ok(f1) => {
                lemma_round_notes_monotone(cfg, cur, corpus, f1, i + 1);
            },
        }
    } else {
        lemma_round_notes_monotone(cfg, cur, corpus, flags, i + 1);
    }
}

/// Every link of the list leads to the root or to a note flagged in
/// `flags`.
pub open spec fn links_covered(
    cfg: Config,
    src: Note,
    links: Seq<(Seq<char>, Option<crate::markdown::Span>)>,
    cur: Note,
    corpus: Seq<NoteEntry>,
    flags: Seq<bool>,
) -> bool {
    forall|k: int|
        0 <= k < links.len() ==> {
            let path = ok_resolve(cfg, src, (#[trigger] links[k]).0);
            match PhysicalNote::spec_parse(cfg, path) {
                Ok(di) => spec_is_root_note(cur, di.0, di.1) || (
                match spec_find_note(corpus, di.0, di.1, 0) {
                    Some(j) => 0 <= j < flags.len() && flags[j],
                    None => false,
                }),
                Err(_) => false,
            }
        }
}

/// Link application that changes nothing has every link covered already.
proof fn lemma_apply_links_fix_covered(
    cfg: Config,
    src: Note,
    links: Seq<(Seq<char>, Option<crate::markdown::Span>)>,
    cur: Note,
    corpus: Seq<NoteEntry>,
    flags: Seq<bool>,
)
    requires
        spec_apply_links(cfg, src, links, cur, corpus, flags) == Ok::<_, RegenError>(flags),
        flags.len() == corpus.len(),
    ensures
        links_covered(cfg, src, links, cur, corpus, flags),
    decreases links.len(),
{
    if links.len() == 0 {
    } else {
        let path = ok_resolve(cfg, src, links[0].0);
        match PhysicalNote::spec_parse(cfg, path) {
            Err(_) => {
                assert(false);
            },
            Ok(di) => {
                if spec_is_root_note(cur, di.0, di.1) {
                    lemma_apply_links_fix_covered(cfg, src, links.drop_first(), cur, corpus, flags);
                    assert forall|k: int| 0 <= k < links.len() implies {
                        let p = ok_resolve(cfg, src, (#[trigger] links[k]).0);
                        match PhysicalNote::spec_parse(cfg, p) {
                            Ok(d) => spec_is_root_note(cur, d.0, d.1) || (
                            match spec_find_note(corpus, d.0, d.1, 0) {
                                Some(j) => 0 <= j < flags.len() && flags[j],
                                None => false,
                            }),
                            Err(_) => false,
                        }
                    } by {
                        if k > 0 {
                            assert(links.drop_first()[k - 1] == links[k]);
                        }
                    }
                } else {
                    match spec_find_note(corpus, di.0, di.1, 0) {
                        None => {
                            assert(false);
                        },
                        Some(j) => {
                            lemma_find_note_range(corpus, di.0, di.1, 0);
                            let f1 = flags.update(j, true);
                            // the rest maps f1 to flags, so f1 is included in
                            // flags; in particular the new flag already held
                            lemma_apply_links_monotone(
                                cfg,
                                src,
                                links.drop_first(),
                                cur,
                                corpus,
                                f1,
                            );
                            assert(flags_le(f1, flags));
                            assert(flags[j]);
                            assert(f1 =~= flags);
                            lemma_apply_links_fix_covered(
                                cfg,
                                src,
                                links.drop_first(),
                                cur,
                                corpus,
                                flags,
                            );
                            assert forall|k: int| 0 <= k < links.len() implies {
                                let p = ok_resolve(cfg, src, (#[trigger] links[k]).0);
                                match PhysicalNote::spec_parse(cfg, p) {
                                    Ok(d) => spec_is_root_note(cur, d.0, d.1) || (
                                    match spec_find_note(corpus, d.0, d.1, 0) {
                                        Some(m) => 0 <= m < flags.len() && flags[m],
                                        None => false,
                                    }),
                                    Err(_) => false,
                                }
                            } by {
                                if k > 0 {
                                    assert(links.drop_first()[k - 1] == links[k]);
                                }
                            }
                        },
                    }
                }
            },
        }
    }
}

/// A reached-note sweep that changes nothing has every reached note's
/// links covered.
proof fn lemma_round_notes_fix_covered(
    cfg: Config,
    cur: Note,
    corpus: Seq<NoteEntry>,
    flags: Seq<bool>,
    i: int,
)
    requires
        0 <= i,
        spec_round_notes(cfg, cur, corpus, flags, i) == Ok::<_, RegenError>(flags),
        flags.len() == corpus.len(),
    ensures
        forall|m: int|
            i <= m < corpus.len() && flags[m] ==> links_covered(
                cfg,
                Note::Physical((#[trigger] corpus[m]).note),
                spec_links_of(corpus[m].contents@),
                cur,
                corpus,
                flags,
            ),
    decreases corpus.len() - i,
{
    if i < 0 || i >= corpus.len() {
    } else if 0 <= i < flags.len() && flags[i] {
        let links = spec_links_of(corpus[i].contents@);
        let src = Note::Physical(corpus[i].note);
        lemma_apply_links_monotone(cfg, src, links, cur, corpus, flags);
        match spec_apply_links(cfg, src, links, cur, corpus, flags) {
            Err(_) => {
                assert(false);
            },
            Ok(f1) => {
                lemma_round_notes_monotone(cfg, cur, corpus, f1, i + 1);
                assert(flags_le(f1, flags));
                assert(f1 =~= flags);
                lemma_apply_links_fix_covered(cfg, src, links, cur, corpus, flags);
                lemma_round_notes_fix_covered(cfg, cur, corpus, flags, i + 1);
                assert forall|m: int| i <= m < corpus.len() && flags[m] implies links_covered(
                    cfg,
                    Note::Physical((#[trigger] corpus[m]).note),
                    spec_links_of(corpus[m].contents@),
                    cur,
                    corpus,
                    flags,
                ) by {
                    if m == i {
                        assert(links_covered(cfg, src, links, cur, corpus, flags));
                    }
                }
            },
        }
    } else {
        lemma_round_notes_fix_covered(cfg, cur, corpus, flags, i + 1);
        assert forall|m: int| i <= m < corpus.len() && flags[m] implies links_covered(
            cfg,
            Note::Physical((#[trigger] corpus[m]).note),
            spec_links_of(corpus[m].contents@),
            cur,
            corpus,
            flags,
        ) by {
            assert(m != i);
        }
    }
}

/// Law: when the reachability sweeps settle, the reached set is closed:
/// the current note's links and every reached note's links lead only to
/// reached notes or back to the current note.
pub proof fn lemma_explore_fixpoint_closed(
    cfg: Config,
    cur: Note,
    cur_contents: Seq<char>,
    corpus: Seq<NoteEntry>,
    flags: Seq<bool>,
)
    requires
        spec_round(cfg, cur, cur_contents, corpus, flags) == Ok::<_, RegenError>(flags),
        flags.len() == corpus.len(),
    ensures
        links_covered(cfg, cur, spec_links_of(cur_contents), cur, corpus, flags),
        forall|m: int|
            0 <= m < corpus.len() && flags[m] ==> links_covered(
                cfg,
                Note::Physical((#[trigger] corpus[m]).note),
                spec_links_of(corpus[m].contents@),
                cur,
                corpus,
                flags,
            ),
{
    let rlinks = spec_links_of(cur_contents);
    lemma_apply_links_monotone(cfg, cur, rlinks, cur, corpus, flags);
    match spec_apply_links(cfg, cur, rlinks, cur, corpus, flags) {
        Err(_) => {
            assert(false);
        },
        Ok(f1) => {
            lemma_round_notes_monotone(cfg, cur, corpus, f1, 0);
            assert(flags_le(f1, flags));
            assert(f1 =~= flags);
            lemma_apply_links_fix_covered(cfg, cur, rlinks, cur, corpus, flags);
            lemma_round_notes_fix_covered(cfg, cur, corpus, flags, 0);
        },
    }
}

} // verus!

verus! {

/// How many flags are set.
pub open spec fn count_true(flags: Seq<bool>) -> nat
    decreases flags.len(),
{
    if flags.len() == 0 {
        0
    } else {
        count_true(flags.drop_last()) + (if flags.last() {
            1nat
        } else {
            0nat
        })
    }
}

proof fn lemma_count_bound(flags: Seq<bool>)
    ensures
        count_true(flags) <= flags.len(),
    decreases flags.len(),
{
    if flags.len() > 0 {
        lemma_count_bound(flags.drop_last());
    }
}

proof fn lemma_count_le(a: Seq<bool>, b: Seq<bool>)
    requires
        flags_le(a, b),
    ensures
        count_true(a) <= count_true(b),
        count_true(a) == count_true(b) ==> a == b,
    decreases a.len(),
{
    if a.len() == 0 {
        assert(a =~= b);
    } else {
        assert(flags_le(a.drop_last(), b.drop_last())) by {
            assert forall|i: int|
                0 <= i < a.drop_last().len() && a.drop_last()[i] implies b.drop_last()[i] by {
                assert(a[i]);
            }
        }
        lemma_count_le(a.drop_last(), b.drop_last());
        assert(a.last() ==> b.last());
        if count_true(a) == count_true(b) {
            if !a.last() && b.last() {
                assert(count_true(a.drop_last()) == count_true(b.drop_last()) + 1);
                assert(false);
            }
            assert(a.last() == b.last());
            assert(count_true(a.drop_last()) == count_true(b.drop_last()));
            assert(a.drop_last() == b.drop_last());
            assert(a =~= b) by {
                assert forall|i: int| 0 <= i < a.len() implies a[i] == b[i] by {
                    if i < a.len() - 1 {
                        assert(a.drop_last()[i] == b.drop_last()[i]);
                    }
                }
            }
        }
    }
}

/// With one unit of fuel more than the unset flags, the sweeps settle.
proof fn lemma_rounds_reach_fixpoint(
    cfg: Config,
    cur: Note,
    cur_contents: Seq<char>,
    corpus: Seq<NoteEntry>,
    flags: Seq<bool>,
    fuel: nat,
)
    requires
        count_true(flags) + fuel > flags.len(),
    ensures
        match spec_rounds(cfg, cur, cur_contents, corpus, flags, fuel) {
            Ok(g) => g.len() == flags.len() && spec_round(cfg, cur, cur_contents, corpus, g)
                == Ok::<_, RegenError>(g),
            Err(_) => true,
        },
    decreases fuel,
{
    if fuel == 0 {
        lemma_count_bound(flags);
        assert(false);
    } else {
        match spec_round(cfg, cur, cur_contents, corpus, flags) {
            Err(_) => {},
            Ok(f1) => {
                // one sweep only adds flags
                lemma_apply_links_monotone(
                    cfg,
                    cur,
                    spec_links_of(cur_contents),
                    cur,
                    corpus,
                    flags,
                );
                match spec_apply_links(
                    cfg,
                    cur,
                    spec_links_of(cur_contents),
                    cur,
                    corpus,
                    flags,
                ) {
                    Err(_) => {
                        assert(false);
                    },
                    Ok(fa) => {
                        lemma_round_notes_monotone(cfg, cur, corpus, fa, 0);
                        assert(flags_le(flags, fa) && flags_le(fa, f1));
                        assert(flags_le(flags, f1)) by {
                            assert forall|i: int| 0 <= i < flags.len() && flags[i] implies f1[i] by {
                                assert(fa[i]);
                            }
                        }
                        if f1 == flags {
                        } else {
                            lemma_count_le(flags, f1);
                            assert(count_true(flags) < count_true(f1));
                            lemma_rounds_reach_fixpoint(
                                cfg,
                                cur,
                                cur_contents,
                                corpus,
                                f1,
                                (fuel - 1) as nat,
                            );
                        }
                    },
                }
            },
        }
    }
}

/// Law: whatever `explore` reaches is closed under links — the current
/// note's links and every reached note's links lead only to reached
/// notes or back to the current note.
pub proof fn lemma_explore_reached_closed(
    cfg: Config,
    cur: Note,
    cur_contents: Seq<char>,
    corpus: Seq<NoteEntry>,
)
    ensures
        ({
            let flags0 = Seq::new(corpus.len(), |i: int| false);
            match spec_rounds(cfg, cur, cur_contents, corpus, flags0, (corpus.len() + 1) as nat) {
                Ok(flags) => {
                    &&& flags.len() == corpus.len()
                    &&& links_covered(cfg, cur, spec_links_of(cur_contents), cur, corpus, flags)
                    &&& forall|m: int|
                        0 <= m < corpus.len() && flags[m] ==> links_covered(
                            cfg,
                            Note::Physical((#[trigger] corpus[m]).note),
                            spec_links_of(corpus[m].contents@),
                            cur,
                            corpus,
                            flags,
                        )
                },
                Err(_) => true,
            }
        }),
{
    let flags0 = Seq::new(corpus.len(), |i: int| false);
    assert(count_true(flags0) == 0) by {
        lemma_count_zeros(flags0);
    }
    lemma_rounds_reach_fixpoint(cfg, cur, cur_contents, corpus, flags0, (corpus.len() + 1) as nat);
    match spec_rounds(cfg, cur, cur_contents, corpus, flags0, (corpus.len() + 1) as nat) {
        Ok(flags) => {
            lemma_explore_fixpoint_closed(cfg, cur, cur_contents, corpus, flags);
        },
        Err(_) => {},
    }
}

proof fn lemma_count_zeros(flags: Seq<bool>)
    requires
        forall|i: int| 0 <= i < flags.len() ==> !flags[i],
    ensures
        count_true(flags) == 0,
    decreases flags.len(),
{
    if flags.len() > 0 {
        lemma_count_zeros(flags.drop_last());
    }
}

} // verus!
