use vstd::prelude::*;
use crate::config::Config;
use crate::paths::{
    all_wf, wf_segment, spec_segments_of, spec_slash_concat, segments_of,
    lemma_normalize_segments, all_norm, no_slash,
};
use crate::strutil::{spec_split, spec_join, str_eq, split_str, join_str, lex_le, lex_lt, str_vecs_eq};

verus! {

// ---------------------------------------------------------------------------
// Notes
// ---------------------------------------------------------------------------

/// A note backed by a Markdown file under the wiki root: the directory
/// segments from the root down to its folder, and the file stem that names
/// it.
#[derive(PartialEq, Eq, PartialOrd, Ord, Debug, Clone)]
pub struct PhysicalNote {
    pub directories: Vec<String>,
    pub id: String,
}

/// A note-like context bound to an unsaved, non-file editor buffer, known
/// only by the host's buffer handle.  Valid as a link source, never as a
/// link target.
#[derive(PartialEq, Eq, Debug, Clone, Copy, Structural)]
pub struct ScratchNote {
    pub buffer: i64,
}

/// Either kind of note.
#[derive(PartialEq, Eq, Debug, Clone)]
pub enum Note {
    Physical(PhysicalNote),
    Scratch(ScratchNote),
}

/// Why a file path failed to parse as a note of this wiki.
#[derive(PartialEq, Eq, Debug, Clone, Copy, Structural)]
pub enum ParseFromFilepathError {
    FileNotWithinWikiDir,
    NoFileStem,
    NoPathParent,
    OsStringNotValidString,
}

/// The fixed extension of note files.
pub open spec fn md_ext() -> Seq<char> {
    seq!['.', 'm', 'd']
}

/// Index of the last occurrence of `c` in `s`.
pub open spec fn spec_rfind(s: Seq<char>, c: char) -> Option<int>
    decreases s.len(),
{
    if s.len() == 0 {
        None
    } else if s.last() == c {
        Some(s.len() - 1)
    } else {
        spec_rfind(s.drop_last(), c)
    }
}

/// The file stem: everything before the last dot, unless that dot leads the
/// name or there is none.
pub open spec fn spec_stem(name: Seq<char>) -> Seq<char> {
    match spec_rfind(name, '.') {
        Some(d) => if d > 0 {
            name.take(d)
        } else {
            name
        },
        None => name,
    }
}

/// The absolute path below the wiki root spelled from directory segments
/// and an id.
pub open spec fn spec_path_v(cfg: Config, dirs: Seq<Seq<char>>, id: Seq<char>) -> Seq<char> {
    cfg.home_path@ + spec_slash_concat(dirs.push(id + md_ext()))
}

/// Every note path is absolute exactly when the wiki root is empty or
/// itself absolute.
pub open spec fn note_target_abs(cfg: Config) -> bool {
    cfg.home_path@.len() == 0 || cfg.home_path@[0] == '/'
}

pub proof fn lemma_note_path_abs(cfg: Config, dirs: Seq<Seq<char>>, id: Seq<char>)
    ensures
        Config::spec_is_absolute(spec_path_v(cfg, dirs, id)) == note_target_abs(cfg),
{
    let parts = dirs.push(id + md_ext());
    crate::paths::lemma_slash_concat_first(parts);
    let p = spec_path_v(cfg, dirs, id);
    if cfg.home_path@.len() == 0 {
        assert(p[0] == spec_slash_concat(parts)[0]);
    } else {
        assert(p[0] == cfg.home_path@[0]);
    }
}

impl PhysicalNote {
    /// The file name of the note: its id with the fixed extension.
    pub open spec fn spec_file_name(self) -> Seq<char> {
        self.id@ + md_ext()
    }

    /// A copy of the note with the same directories and id.
    pub fn duplicate(&self) -> (r: PhysicalNote)
        ensures
            r.directories.deep_view() == self.directories.deep_view(),
            r.id@ == self.id@,
    {
        PhysicalNote {
            directories: crate::strutil::dup_string_vec(&self.directories),
            id: crate::strutil::dup_string(&self.id),
        }
    }

    /// Whether two notes name the same file: same directories, same id.
    pub fn same_note(&self, other: &PhysicalNote) -> (r: bool)
        ensures
            r == (self.directories.deep_view() == other.directories.deep_view() && self.id@
                == other.id@),
    {
        crate::strutil::str_vecs_eq(&self.directories, &other.directories)
            && crate::strutil::str_eq(self.id.as_str(), other.id.as_str())
    }

    /// Structural validity: plain directory segments, and an id that is
    /// non-empty and free of separators.
    pub open spec fn wf(self) -> bool {
        &&& all_wf(self.directories.deep_view())
        &&& self.id@.len() > 0
        &&& !self.id@.contains('/')
    }

    /// The note's absolute path under the wiki root.
    pub open spec fn spec_path(self, cfg: Config) -> Seq<char> {
        spec_path_v(cfg, self.directories.deep_view(), self.id@)
    }

    /// What parsing a path against a configuration yields: the directory
    /// segments between the wiki root and the file, and the file stem.
    pub open spec fn spec_parse(cfg: Config, path: Seq<char>) -> Result<
        (Seq<Seq<char>>, Seq<char>),
        ParseFromFilepathError,
    > {
        let full = if Config::spec_is_absolute(path) {
            path
        } else {
            cfg.home_path@ + seq!['/'] + path
        };
        let segs = spec_segments_of(full);
        let hsegs = spec_segments_of(cfg.home_path@);
        if !(hsegs.len() <= segs.len() && segs.take(hsegs.len() as int) == hsegs) {
            Err(ParseFromFilepathError::FileNotWithinWikiDir)
        } else if segs.len() == hsegs.len() {
            Err(ParseFromFilepathError::NoPathParent)
        } else {
            let rel = segs.skip(hsegs.len() as int);
            Ok((rel.drop_last(), spec_stem(rel.last())))
        }
    }

    /// Law: a wiki-root-relative path parses exactly like the absolute
    /// path it stands for.
    pub proof fn lemma_parse_relative_agrees(cfg: Config, path: Seq<char>)
        requires
            !Config::spec_is_absolute(path),
            Config::spec_is_absolute(cfg.home_path@),
        ensures
            Self::spec_parse(cfg, path) == Self::spec_parse(
                cfg,
                cfg.home_path@ + seq!['/'] + path,
            ),
    {
        assert((cfg.home_path@ + seq!['/'] + path)[0] == cfg.home_path@[0]);
    }

    /// Derives a note from a file path: the path is resolved lexically
    /// (relative paths against the wiki root), must fall below the wiki
    /// root, and is decomposed into directories and file stem.
    #[verifier::loop_isolation(false)]
    pub fn parse_from_filepath(config: &Config, path: &str) -> (r: Result<
        PhysicalNote,
        ParseFromFilepathError,
    >)
        ensures
            match r {
                Ok(n) => Self::spec_parse(*config, path@) == Ok::<_, ParseFromFilepathError>(
                    (n.directories.deep_view(), n.id@),
                ) && n.wf(),
                Err(e) => Self::spec_parse(*config, path@) == Err::<
                    (Seq<Seq<char>>, Seq<char>),
                    _,
                >(e),
            },
    {
        let full: String = if crate::paths::is_absolute_path(path) {
            path.to_owned()
        } else {
            let mut f = config.home_path.clone();
            f.append("/");
            f.append(path);
            proof {
                reveal_strlit("/");
                assert("/"@ =~= seq!['/']);
            }
            f
        };
        let segs = segments_of(full.as_str());
        let hsegs = segments_of(config.home_path.as_str());
        let ghost gsegs = segs.deep_view();
        let ghost ghsegs = hsegs.deep_view();
        if hsegs.len() > segs.len() {
            return Err(ParseFromFilepathError::FileNotWithinWikiDir);
        }
        let mut i: usize = 0;
        while i < hsegs.len()
            invariant
                i <= hsegs.len() <= segs.len(),
                gsegs == segs.deep_view(),
                ghsegs == hsegs.deep_view(),
                forall|k: int| 0 <= k < i ==> gsegs[k] == ghsegs[k],
            decreases hsegs.len() - i,
        {
            if !str_eq(segs[i].as_str(), hsegs[i].as_str()) {
                proof {
                    assert(gsegs.take(ghsegs.len() as int)[i as int] == gsegs[i as int]);
                }
                return Err(ParseFromFilepathError::FileNotWithinWikiDir);
            }
            i = i + 1;
        }
        proof {
            assert(gsegs.take(ghsegs.len() as int) =~= ghsegs);
        }
        if segs.len() == hsegs.len() {
            return Err(ParseFromFilepathError::NoPathParent);
        }
        let fname = &segs[segs.len() - 1];
        let id = stem_of(fname.as_str());
        let mut directories: Vec<String> = Vec::new();
        proof {
            assert(directories.deep_view() =~= gsegs.subrange(
                ghsegs.len() as int,
                ghsegs.len() as int,
            ));
        }
        let mut j: usize = hsegs.len();
        while j < segs.len() - 1
            invariant
                hsegs.len() <= j <= segs.len() - 1,
                segs.len() >= 1,
                gsegs == segs.deep_view(),
                directories.deep_view() == gsegs.subrange(ghsegs.len() as int, j as int),
                ghsegs.len() == hsegs.len(),
            decreases segs.len() - j,
        {
            let ghost pre = directories.deep_view();
            directories.push(segs[j].clone());
            proof {
                assert(directories.deep_view() =~= pre.push(gsegs[j as int]));
                assert(pre.push(gsegs[j as int]) =~= gsegs.subrange(ghsegs.len() as int, j + 1));
            }
            j = j + 1;
        }
        let note = PhysicalNote { directories, id };
        proof {
            let rel = gsegs.skip(ghsegs.len() as int);
            assert(note.directories.deep_view() =~= rel.drop_last());
            assert(rel.last() == gsegs[gsegs.len() - 1]);
            // validity of the produced segments
            let raw = spec_split(full@, seq!['/']);
            crate::strutil::lemma_split_pieces_clean(full@, seq!['/']);
            assert(no_slash(raw));
            lemma_normalize_segments(raw);
            assert(all_norm(gsegs) && no_slash(gsegs));
            assert forall|k: int| 0 <= k < note.directories.deep_view().len() implies wf_segment(
            #[trigger] note.directories.deep_view()[k]) by {
                assert(rel.drop_last()[k] == gsegs[ghsegs.len() + k]);
                assert(crate::paths::norm_segment(gsegs[ghsegs.len() + k]));
                assert(!gsegs[ghsegs.len() + k].contains('/'));
            }
            lemma_stem_clean(rel.last());
            assert(note.wf());
        }
        Ok(note)
    }

    /// The note's absolute path: the wiki root, the directories, and the id
    /// with the fixed extension.
    pub fn path(&self, config: &Config) -> (r: String)
        ensures
            r@ == self.spec_path(*config),
    {
        let mut p = config.home_path.clone();
        proof {
            reveal_strlit("/");
            assert("/"@ =~= seq!['/']);
            assert(p@ =~= config.home_path@ + spec_slash_concat(
                self.directories.deep_view().take(0),
            ));
        }
        let mut i: usize = 0;
        while i < self.directories.len()
            invariant
                i <= self.directories.len(),
                p@ == config.home_path@ + spec_slash_concat(
                    self.directories.deep_view().take(i as int),
                ),
                "/"@ == seq!['/'],
            decreases self.directories.len() - i,
        {
            p.append("/");
            p.append(self.directories[i].as_str());
            proof {
                let dv = self.directories.deep_view();
                assert(dv.take(i + 1).drop_last() =~= dv.take(i as int));
                assert(dv.take(i + 1).last() == dv[i as int]);
                assert(p@ =~= config.home_path@ + spec_slash_concat(dv.take(i + 1)));
            }
            i = i + 1;
        }
        p.append("/");
        p.append(self.id.as_str());
        p.append(".md");
        proof {
            reveal_strlit(".md");
            assert(".md"@ =~= md_ext());
            let dv = self.directories.deep_view();
            assert(dv.take(self.directories.len() as int) =~= dv);
            let whole = dv.push(self.spec_file_name());
            assert(whole.drop_last() =~= dv);
            assert(whole.last() == self.spec_file_name());
            assert(p@ =~= config.home_path@ + spec_slash_concat(whole));
        }
        p
    }
}

/// The stem of a non-empty, separator-free name is non-empty and
/// separator-free.
proof fn lemma_stem_clean(name: Seq<char>)
    requires
        name.len() > 0,
        !name.contains('/'),
    ensures
        spec_stem(name).len() > 0,
        !spec_stem(name).contains('/'),
{
    lemma_rfind_range(name, '.');
    match spec_rfind(name, '.') {
        Some(d) => {
            if d > 0 {
                if spec_stem(name).contains('/') {
                    let i = choose|i: int| 0 <= i < spec_stem(name).len() && spec_stem(name)[i]
                        == '/';
                    assert(name[i] == '/');
                }
            }
        },
        None => {},
    }
}

/// `spec_rfind` yields an index into the sequence.
proof fn lemma_rfind_range(s: Seq<char>, c: char)
    ensures
        match spec_rfind(s, c) {
            Some(d) => 0 <= d < s.len() && s[d] == c,
            None => true,
        },
    decreases s.len(),
{
    if s.len() > 0 && s.last() != c {
        lemma_rfind_range(s.drop_last(), c);
    }
}

/// Index of the last dot strictly inside `name@.take(upto)`.
fn rfind_dot(name: &str, upto: usize) -> (r: Option<usize>)
    requires
        upto <= name@.len(),
    ensures
        match r {
            Some(d) => spec_rfind(name@.take(upto as int), '.') == Some(d as int),
            None => spec_rfind(name@.take(upto as int), '.') is None,
        },
    decreases upto,
{
    if upto == 0 {
        None
    } else if name.get_char(upto - 1) == '.' {
        proof {
            assert(name@.take(upto as int).last() == name@[upto - 1]);
        }
        Some(upto - 1)
    } else {
        let r = rfind_dot(name, upto - 1);
        proof {
            assert(name@.take(upto as int).drop_last() =~= name@.take(upto - 1));
            assert(name@.take(upto as int).last() == name@[upto - 1]);
        }
        r
    }
}

/// The file stem of a name.
pub fn stem_of(name: &str) -> (r: String)
    ensures
        r@ == spec_stem(name@),
{
    let len = name.unicode_len();
    proof {
        assert(name@.take(len as int) =~= name@);
    }
    match rfind_dot(name, len) {
        Some(d) => {
            proof {
                lemma_rfind_range(name@, '.');
            }
            if d > 0 {
                let r = name.substring_char(0, d).to_owned();
                proof {
                    assert(name@.subrange(0, d as int) =~= name@.take(d as int));
                }
                r
            } else {
                name.to_owned()
            }
        },
        None => name.to_owned(),
    }
}

impl Note {
    /// Wraps directories and an id as a physical note.
    pub fn new_physical(directories: Vec<String>, id: String) -> (r: Note)
        ensures
            r == Note::Physical(PhysicalNote { directories, id }),
    {
        Note::Physical(PhysicalNote { directories, id })
    }

    /// The note's absolute path; scratch notes have none.
    pub fn path(&self, config: &Config) -> (r: Option<String>)
        ensures
            match *self {
                Note::Physical(n) => r matches Some(p) && p@ == n.spec_path(*config),
                Note::Scratch(_) => r is None,
            },
    {
        match self {
            Note::Physical(n) => Some(n.path(config)),
            Note::Scratch(_) => None,
        }
    }

    /// Whether the note is physical.
    pub fn is_physical(&self) -> (r: bool)
        ensures
            r == (self matches Note::Physical(_)),
    {
        match self {
            Note::Physical(_) => true,
            Note::Scratch(_) => false,
        }
    }

    /// Whether the note is a scratch note.
    pub fn is_scratch(&self) -> (r: bool)
        ensures
            r == (self matches Note::Scratch(_)),
    {
        match self {
            Note::Physical(_) => false,
            Note::Scratch(_) => true,
        }
    }

    /// The note's id; scratch notes have none.
    pub fn get_id(&self) -> (r: Option<&String>)
        ensures
            match *self {
                Note::Physical(n) => r matches Some(id) && id@ == n.id@,
                Note::Scratch(_) => r is None,
            },
    {
        match self {
            Note::Physical(n) => Some(&n.id),
            Note::Scratch(_) => None,
        }
    }

    /// The physical note inside, if any.
    pub fn as_physical(&self) -> (r: Option<&PhysicalNote>)
        ensures
            match *self {
                Note::Physical(n) => r matches Some(p) && *p == n,
                Note::Scratch(_) => r is None,
            },
    {
        match self {
            Note::Physical(n) => Some(n),
            Note::Scratch(_) => None,
        }
    }

    /// The scratch note inside, if any.
    pub fn as_scratch(&self) -> (r: Option<&ScratchNote>)
        ensures
            match *self {
                Note::Scratch(s) => r matches Some(p) && *p == s,
                Note::Physical(_) => r is None,
            },
    {
        match self {
            Note::Physical(_) => None,
            Note::Scratch(s) => Some(s),
        }
    }
}

// ---------------------------------------------------------------------------
// Tags
// ---------------------------------------------------------------------------

/// A hierarchical label: segments joined by `::` in frontmatter.
#[derive(Debug, PartialOrd, Ord, PartialEq, Eq, Clone)]
pub struct Tag(pub Vec<String>);

impl View for Tag {
    type V = Seq<Seq<char>>;

    open spec fn view(&self) -> Seq<Seq<char>> {
        self.0.deep_view()
    }
}

impl DeepView for Tag {
    type V = Seq<Seq<char>>;

    open spec fn deep_view(&self) -> Seq<Seq<char>> {
        self.0.deep_view()
    }
}

/// Segment-wise lexicographic order on tags: earlier segments decide;
/// a tag precedes its own extensions.
pub open spec fn tag_seq_le(a: Seq<Seq<char>>, b: Seq<Seq<char>>) -> bool
    decreases a.len(),
{
    if a.len() == 0 {
        true
    } else if b.len() == 0 {
        false
    } else if lex_lt(a[0], b[0]) {
        true
    } else if a[0] == b[0] {
        tag_seq_le(a.drop_first(), b.drop_first())
    } else {
        false
    }
}

/// Tag order is total.
pub proof fn lemma_tag_le_total(a: Seq<Seq<char>>, b: Seq<Seq<char>>)
    ensures
        tag_seq_le(a, b) || tag_seq_le(b, a),
    decreases a.len(),
{
    if a.len() == 0 || b.len() == 0 {
    } else if a[0] == b[0] {
        lemma_tag_le_total(a.drop_first(), b.drop_first());
    } else {
        crate::strutil::lemma_lex_le_total(a[0], b[0]);
    }
}

/// Tag order is transitive.
pub proof fn lemma_tag_le_trans(a: Seq<Seq<char>>, b: Seq<Seq<char>>, c: Seq<Seq<char>>)
    requires
        tag_seq_le(a, b),
        tag_seq_le(b, c),
    ensures
        tag_seq_le(a, c),
    decreases a.len(),
{
    if a.len() == 0 || b.len() == 0 || c.len() == 0 {
    } else if a[0] == b[0] && b[0] == c[0] {
        lemma_tag_le_trans(a.drop_first(), b.drop_first(), c.drop_first());
    } else if lex_lt(a[0], b[0]) && b[0] == c[0] {
    } else if a[0] == b[0] && lex_lt(b[0], c[0]) {
    } else {
        crate::strutil::lemma_lex_le_trans(a[0], b[0], c[0]);
        if a[0] == c[0] {
            crate::strutil::lemma_lex_le_antisym(b[0], c[0]);
        }
    }
}

impl Tag {
    /// Parses a tag by splitting on the `::` separator.
    pub fn parse_from_str(s: &str) -> (r: Tag)
        ensures
            r@ == spec_split(s@, "::"@),
            "::"@.len() == 2,
    {
        proof {
            reveal_strlit("::");
        }
        Tag(split_str(s, "::"))
    }

    /// The tag's text: its segments joined by `::`.
    pub fn render(&self) -> (r: String)
        ensures
            r@ == spec_join(self@, "::"@),
    {
        join_str(&self.0, "::")
    }

    /// Decides the tag order.
    pub fn le(&self, other: &Tag) -> (r: bool)
        ensures
            r == tag_seq_le(self@, other@),
    {
        let r = tag_le_from(&self.0, &other.0, 0);
        proof {
            assert(self.0.deep_view().skip(0) =~= self.0.deep_view());
            assert(other.0.deep_view().skip(0) =~= other.0.deep_view());
        }
        r
    }

    /// Decides tag equality.
    pub fn eq_tag(&self, other: &Tag) -> (r: bool)
        ensures
            r == (self@ == other@),
    {
        if self.0.len() != other.0.len() {
            proof {
                assert(self@.len() != other@.len());
            }
            return false;
        }
        let mut i: usize = 0;
        while i < self.0.len()
            invariant
                i <= self.0.len(),
                self.0.len() == other.0.len(),
                forall|k: int| 0 <= k < i ==> self@[k] == other@[k],
            decreases self.0.len() - i,
        {
            if !str_eq(self.0[i].as_str(), other.0[i].as_str()) {
                proof {
                    assert(self@[i as int] == self.0[i as int]@);
                    assert(other@[i as int] == other.0[i as int]@);
                }
                return false;
            }
            i = i + 1;
        }
        proof {
            assert(self@ =~= other@);
        }
        true
    }
}

/// Strictly below in the tag order.
pub open spec fn tag_seq_lt(a: Seq<Seq<char>>, b: Seq<Seq<char>>) -> bool {
    tag_seq_le(a, b) && a != b
}

/// The order on notes that listings use: directory segments first, then
/// the id.
pub open spec fn spec_note_le(
    d1: Seq<Seq<char>>,
    i1: Seq<char>,
    d2: Seq<Seq<char>>,
    i2: Seq<char>,
) -> bool {
    tag_seq_lt(d1, d2) || (d1 == d2 && lex_le(i1, i2))
}

/// The note order is total.
pub proof fn lemma_note_le_total(d1: Seq<Seq<char>>, i1: Seq<char>, d2: Seq<Seq<char>>, i2: Seq<char>)
    ensures
        spec_note_le(d1, i1, d2, i2) || spec_note_le(d2, i2, d1, i1),
{
    if d1 == d2 {
        crate::strutil::lemma_lex_le_total(i1, i2);
    } else {
        lemma_tag_le_total(d1, d2);
    }
}

impl PhysicalNote {
    /// Decides the note order.
    pub fn le(&self, other: &PhysicalNote) -> (r: bool)
        ensures
            r == spec_note_le(
                self.directories.deep_view(),
                self.id@,
                other.directories.deep_view(),
                other.id@,
            ),
    {
        if str_vecs_eq(&self.directories, &other.directories) {
            crate::strutil::str_lex_le(self.id.as_str(), other.id.as_str())
        } else {
            let r = tag_le_from(&self.directories, &other.directories, 0);
            proof {
                assert(self.directories.deep_view().skip(0) =~= self.directories.deep_view());
                assert(other.directories.deep_view().skip(0) =~= other.directories.deep_view());
            }
            r
        }
    }
}

fn tag_le_from(a: &Vec<String>, b: &Vec<String>, i: usize) -> (r: bool)
    requires
        i <= a.len(),
        i <= b.len(),
    ensures
        r == tag_seq_le(a.deep_view().skip(i as int), b.deep_view().skip(i as int)),
    decreases a.len() - i,
{
    if i == a.len() {
        true
    } else if i == b.len() {
        false
    } else {
        let eq = str_eq(a[i].as_str(), b[i].as_str());
        proof {
            assert(a.deep_view().skip(i as int)[0] == a.deep_view()[i as int]);
            assert(b.deep_view().skip(i as int)[0] == b.deep_view()[i as int]);
        }
        if eq {
            let r = tag_le_from(a, b, i + 1);
            proof {
                assert(a.deep_view().skip(i as int).drop_first() =~= a.deep_view().skip(
                    i as int + 1,
                ));
                assert(b.deep_view().skip(i as int).drop_first() =~= b.deep_view().skip(
                    i as int + 1,
                ));
            }
            r
        } else {
            crate::strutil::str_lex_le(a[i].as_str(), b[i].as_str())
        }
    }
}

} // verus!
