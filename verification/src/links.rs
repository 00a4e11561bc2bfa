use vstd::prelude::*;
use crate::config::Config;
use crate::note::{Note, PhysicalNote};
use crate::paths::{
    all_wf, wf_segment, wf_abs_path, spec_segments_of, spec_normalize, spec_slash_concat,
    spec_path_of_segments, dotdots, segments_of, normalize_segments, path_of_segments,
    is_absolute_path, all_norm, lemma_wf_abs_path_canonical, lemma_segments_of_extension,
    lemma_normalize_updown, lemma_normalize_id,
};
use crate::strutil::{spec_split, spec_join, split_str, join_str, str_eq};

verus! {

/// Why a relative link could not be formatted.
#[derive(PartialEq, Eq, Debug, Clone, Copy, Structural)]
pub enum FormatLinkPathError {
    TargetNotAbsolute,
    CurrentFilePathNoParent,
    CouldNotConstructLink,
    PathNotUtf8,
}

/// Why a link could not be resolved.
#[derive(PartialEq, Eq, Debug, Clone, Copy, Structural)]
pub enum ResolveLinkPathError {
    CurrentNoteNoParent,
}

/// A configuration whose wiki root is a well-formed absolute path.
pub open spec fn wf_config(cfg: Config) -> bool {
    wf_abs_path(cfg.home_path@)
}

/// Under a well-formed wiki root, every note path is absolute, so link
/// formatting never fails on a note target.
pub proof fn lemma_wf_config_targets_abs(cfg: Config)
    requires
        wf_config(cfg),
    ensures
        crate::note::note_target_abs(cfg),
{
}

/// The segments of the directory holding the note's file.
pub open spec fn spec_parent_segments(cfg: Config, n: PhysicalNote) -> Seq<Seq<char>> {
    let ps = spec_segments_of(n.spec_path(cfg));
    if ps.len() > 0 {
        ps.drop_last()
    } else {
        ps
    }
}

/// Length of the longest common prefix of two segment sequences.
pub open spec fn spec_common_prefix(a: Seq<Seq<char>>, b: Seq<Seq<char>>) -> int
    decreases a.len(),
{
    if a.len() == 0 || b.len() == 0 {
        0
    } else if a[0] == b[0] {
        1 + spec_common_prefix(a.drop_first(), b.drop_first())
    } else {
        0
    }
}

pub proof fn lemma_common_prefix(a: Seq<Seq<char>>, b: Seq<Seq<char>>)
    ensures
        0 <= spec_common_prefix(a, b) <= a.len(),
        spec_common_prefix(a, b) <= b.len(),
        a.take(spec_common_prefix(a, b)) == b.take(spec_common_prefix(a, b)),
    decreases a.len(),
{
    if a.len() == 0 || b.len() == 0 {
        assert(a.take(0) =~= b.take(0));
    } else if a[0] == b[0] {
        lemma_common_prefix(a.drop_first(), b.drop_first());
        let cp = spec_common_prefix(a, b);
        assert(a.take(cp) =~= b.take(cp)) by {
            let cpr = spec_common_prefix(a.drop_first(), b.drop_first());
            assert(a.drop_first().take(cpr) == b.drop_first().take(cpr));
            assert forall|i: int| 0 <= i < cp implies a.take(cp)[i] == b.take(cp)[i] by {
                if i > 0 {
                    assert(a.drop_first().take(cpr)[i - 1] == b.drop_first().take(cpr)[i - 1]);
                }
            }
        }
    } else {
        assert(a.take(0) =~= b.take(0));
    }
}

/// The relative-link segments from a base directory to a target: climb out
/// of the directories past the common prefix, then descend along the
/// target.
pub open spec fn spec_diff_segments(target: Seq<Seq<char>>, base: Seq<Seq<char>>) -> Seq<
    Seq<char>,
> {
    let cp = spec_common_prefix(target, base);
    dotdots((base.len() - cp) as nat) + target.skip(cp)
}

/// What `format_link_path` returns: the relative path from the current
/// note's directory to the target for physical notes, the target itself
/// for scratch notes; only a relative target is rejected.
pub open spec fn spec_format_link(cfg: Config, current: Note, target: Seq<char>) -> Result<
    Seq<char>,
    FormatLinkPathError,
> {
    if !Config::spec_is_absolute(target) {
        Err(FormatLinkPathError::TargetNotAbsolute)
    } else {
        match current {
            Note::Physical(n) => Ok(
                spec_join(
                    spec_diff_segments(spec_segments_of(target), spec_parent_segments(cfg, n)),
                    seq!['/'],
                ),
            ),
            Note::Scratch(_) => Ok(target),
        }
    }
}

/// What `resolve_link_path` returns: an absolute link stands alone; a
/// relative one is resolved against the current note's directory, or
/// against the wiki root for scratch notes.  The result is normalized.
pub open spec fn spec_resolve_link(cfg: Config, current: Note, link: Seq<char>) -> Result<
    Seq<char>,
    ResolveLinkPathError,
> {
    let base = match current {
        Note::Physical(n) => spec_parent_segments(cfg, n),
        Note::Scratch(_) => spec_segments_of(cfg.home_path@),
    };
    if Config::spec_is_absolute(link) {
        Ok(spec_path_of_segments(spec_segments_of(link)))
    } else {
        Ok(spec_path_of_segments(spec_normalize(base + spec_split(link, seq!['/']))))
    }
}

fn common_prefix_from(a: &Vec<String>, b: &Vec<String>, i: usize) -> (r: usize)
    requires
        i <= a.len(),
        i <= b.len(),
    ensures
        i <= r <= a.len(),
        r <= b.len(),
        r - i == spec_common_prefix(a.deep_view().skip(i as int), b.deep_view().skip(i as int)),
    decreases a.len() - i,
{
    if i == a.len() || i == b.len() {
        i
    } else {
        proof {
            assert(a.deep_view().skip(i as int)[0] == a.deep_view()[i as int]);
            assert(b.deep_view().skip(i as int)[0] == b.deep_view()[i as int]);
        }
        if str_eq(a[i].as_str(), b[i].as_str()) {
            let r = common_prefix_from(a, b, i + 1);
            proof {
                assert(a.deep_view().skip(i as int).drop_first() =~= a.deep_view().skip(
                    i as int + 1,
                ));
                assert(b.deep_view().skip(i as int).drop_first() =~= b.deep_view().skip(
                    i as int + 1,
                ));
            }
            r
        } else {
            i
        }
    }
}

/// The parent directory segments of a physical note's path.
fn parent_segments(config: &Config, n: &PhysicalNote) -> (r: Vec<String>)
    ensures
        r.deep_view() == spec_parent_segments(*config, *n),
{
    let pstr = n.path(config);
    let mut segs = segments_of(pstr.as_str());
    if segs.len() > 0 {
        let ghost pre = segs.deep_view();
        segs.pop();
        proof {
            assert(segs.deep_view() =~= pre.drop_last());
        }
    }
    segs
}

/// Formats the link text that leads from the current note to the target
/// path.  The target must be absolute; a physical current note yields the
/// relative path from its own directory, a scratch note the target
/// unchanged.
#[verifier::loop_isolation(false)]
pub fn format_link_path(config: &Config, current_note: &Note, target_file_path: &str) -> (r:
    Result<String, FormatLinkPathError>)
    ensures
        match r {
            Ok(link) => spec_format_link(*config, *current_note, target_file_path@) == Ok::<
                _,
                FormatLinkPathError,
            >(link@),
            Err(e) => spec_format_link(*config, *current_note, target_file_path@) == Err::<
                Seq<char>,
                _,
            >(e),
        },
        r is Err <==> !Config::spec_is_absolute(target_file_path@),
{
    if !is_absolute_path(target_file_path) {
        return Err(FormatLinkPathError::TargetNotAbsolute);
    }
    match current_note {
        Note::Physical(n) => {
            let base = parent_segments(config, n);
            let tsegs = segments_of(target_file_path);
            let cp = common_prefix_from(&tsegs, &base, 0);
            proof {
                assert(tsegs.deep_view().skip(0) =~= tsegs.deep_view());
                assert(base.deep_view().skip(0) =~= base.deep_view());
                reveal_strlit("..");
                assert(".."@ =~= seq!['.', '.']);
                reveal_strlit("/");
                assert("/"@ =~= seq!['/']);
            }
            let climb = base.len() - cp;
            let mut parts: Vec<String> = Vec::new();
            let mut j: usize = 0;
            while j < climb
                invariant
                    j <= climb,
                    parts.deep_view() == dotdots(j as nat),
                decreases climb - j,
            {
                let ghost prevv = parts@;
                let ghost pre = parts.deep_view();
                parts.push(String::from_str(".."));
                proof {
                    reveal_strlit("..");
                    assert(".."@ =~= seq!['.', '.']);
                    assert(parts.deep_view()[j as int] == ".."@);
                    assert forall|i: int| 0 <= i < j implies #[trigger] parts.deep_view()[i]
                        == pre[i] by {
                        assert(parts@[i] == prevv[i]);
                    }
                    assert(parts.deep_view() =~~= dotdots((j + 1) as nat));
                }
                j = j + 1;
            }
            let mut k: usize = cp;
            while k < tsegs.len()
                invariant
                    cp <= k <= tsegs.len(),
                    parts.deep_view() == dotdots(climb as nat) + tsegs.deep_view().subrange(
                        cp as int,
                        k as int,
                    ),
                decreases tsegs.len() - k,
            {
                let ghost prevv = parts@;
                let ghost pre = parts.deep_view();
                parts.push(tsegs[k].clone());
                proof {
                    assert(parts.deep_view()[pre.len() as int] == tsegs.deep_view()[k as int]);
                    assert forall|i: int| 0 <= i < pre.len() implies #[trigger] parts.deep_view()[i]
                        == pre[i] by {
                        assert(parts@[i] == prevv[i]);
                    }
                    assert(parts.deep_view() =~~= dotdots(climb as nat)
                        + tsegs.deep_view().subrange(cp as int, k as int + 1));
                }
                k = k + 1;
            }
            proof {
                assert(tsegs.deep_view().subrange(cp as int, tsegs.len() as int)
                    =~= tsegs.deep_view().skip(cp as int));
            }
            let link = join_str(&parts, "/");
            Ok(link)
        },
        Note::Scratch(_) => {
            Ok(target_file_path.to_owned())
        },
    }
}

/// Resolution only reads a note's directories and id, never its identity.
pub proof fn lemma_resolve_congruent(
    cfg: Config,
    a: PhysicalNote,
    b: PhysicalNote,
    link: Seq<char>,
)
    requires
        a.directories.deep_view() == b.directories.deep_view(),
        a.id@ == b.id@,
    ensures
        spec_resolve_link(cfg, Note::Physical(a), link) == spec_resolve_link(
            cfg,
            Note::Physical(b),
            link,
        ),
{
    assert(a.spec_path(cfg) == b.spec_path(cfg));
    assert(spec_parent_segments(cfg, a) == spec_parent_segments(cfg, b));
}

/// Resolves link text against a physical note's own directory (never
/// fails).
pub fn resolve_link_at_note(config: &Config, n: &PhysicalNote, link_path_text: &str) -> (r:
    String)
    ensures
        spec_resolve_link(*config, Note::Physical(*n), link_path_text@) == Ok::<
            _,
            ResolveLinkPathError,
        >(r@),
{
    let mut base: Vec<String> = parent_segments(config, n);
    if is_absolute_path(link_path_text) {
        let segs = segments_of(link_path_text);
        path_of_segments(&segs)
    } else {
        proof {
            reveal_strlit("/");
            assert("/"@ =~= seq!['/']);
        }
        let ghost gbase = base.deep_view();
        let mut tail = split_str(link_path_text, "/");
        let ghost gtail = tail.deep_view();
        base.append(&mut tail);
        proof {
            assert(base.deep_view() =~= gbase + gtail);
        }
        let segs = normalize_segments(&base);
        path_of_segments(&segs)
    }
}

/// Resolves link text against the current note: absolute links stand
/// alone, relative ones are joined to the note's own directory (or the
/// wiki root, for a scratch note), and the result is normalized.
pub fn resolve_link_path(config: &Config, current_note: &Note, link_path_text: &str) -> (r:
    Result<String, ResolveLinkPathError>)
    ensures
        r matches Ok(p) && spec_resolve_link(*config, *current_note, link_path_text@) == Ok::<
            _,
            ResolveLinkPathError,
        >(p@),
{
    match current_note {
        Note::Physical(n) => {
            return Ok(resolve_link_at_note(config, n, link_path_text));
        },
        Note::Scratch(_) => {},
    }
    let mut base: Vec<String> = segments_of(config.home_path.as_str());
    if is_absolute_path(link_path_text) {
        let segs = segments_of(link_path_text);
        Ok(path_of_segments(&segs))
    } else {
        proof {
            reveal_strlit("/");
            assert("/"@ =~= seq!['/']);
        }
        let ghost gbase = base.deep_view();
        let mut tail = split_str(link_path_text, "/");
        let ghost gtail = tail.deep_view();
        base.append(&mut tail);
        proof {
            assert(base.deep_view() =~= gbase + gtail);
        }
        let segs = normalize_segments(&base);
        Ok(path_of_segments(&segs))
    }
}

/// The round trip at the heart of linking: formatting a link from note `a`
/// to note `b`'s path and resolving it at `a` returns exactly `b`'s path.
pub proof fn lemma_link_round_trip(cfg: Config, a: PhysicalNote, b: PhysicalNote)
    requires
        wf_config(cfg),
        a.wf(),
        b.wf(),
    ensures
        ({
            let target = b.spec_path(cfg);
            match spec_format_link(cfg, Note::Physical(a), target) {
                Ok(link) => spec_resolve_link(cfg, Note::Physical(a), link) == Ok::<
                    _,
                    ResolveLinkPathError,
                >(target),
                Err(_) => false,
            }
        }),
{
    let target = b.spec_path(cfg);
    let hsegs = spec_segments_of(cfg.home_path@);
    lemma_wf_abs_path_canonical(cfg.home_path@);
    lemma_note_segments(cfg, b);
    lemma_note_segments(cfg, a);
    let tsegs = spec_segments_of(target);
    let fb = b.spec_file_name();
    let fa = a.spec_file_name();
    assert(tsegs == hsegs + b.directories.deep_view() + seq![fb]);

    // the target is absolute: it starts with the home path's leading slash
    assert(Config::spec_is_absolute(target)) by {
        assert(cfg.home_path@[0] == '/');
        assert(target[0] == cfg.home_path@[0]);
    }

    // the base is the parent directory of a
    let base = spec_parent_segments(cfg, a);
    let asegs = spec_segments_of(a.spec_path(cfg));
    assert(asegs == hsegs + a.directories.deep_view() + seq![fa]);
    assert(asegs.len() > 0);
    assert(base == hsegs + a.directories.deep_view()) by {
        assert(asegs.drop_last() =~= hsegs + a.directories.deep_view());
    }
    assert(all_norm(tsegs) && all_norm(base)) by {
        lemma_note_segments_wf(cfg, b);
        lemma_note_segments_wf(cfg, a);
    }

    let cp = spec_common_prefix(tsegs, base);
    lemma_common_prefix(tsegs, base);
    let k = (base.len() - cp) as nat;
    let diff = spec_diff_segments(tsegs, base);
    let link = spec_join(diff, seq!['/']);
    assert(spec_format_link(cfg, Note::Physical(a), target) == Ok::<_, FormatLinkPathError>(link));

    if diff.len() == 0 {
        // the target is exactly a's parent directory
        assert(k == 0 && cp == tsegs.len());
        assert(tsegs =~= base) by {
            assert(cp == base.len());
            assert forall|i: int| 0 <= i < cp implies tsegs[i] == base[i] by {
                assert(tsegs.take(cp)[i] == tsegs[i]);
                assert(base.take(cp)[i] == base[i]);
            }
        }
        assert(link =~= Seq::<char>::empty());
        assert(!Config::spec_is_absolute(link));
        // resolving the empty link yields the base itself
        assert(spec_split(link, seq!['/']) =~= seq![link]) by {
            crate::strutil::lemma_find_props(link, seq!['/'], 0);
            match crate::strutil::spec_find(link, seq!['/'], 0) {
                Some(i) => {
                    assert(false);
                },
                None => {},
            }
        }
        let combined = base + seq![link];
        assert(spec_normalize(combined) =~= base) by {
            assert(combined.drop_last() =~= base);
            assert(combined.last() == link);
            assert(link.len() == 0);
            lemma_normalize_id(base);
        }
        lemma_path_of_note_segments(cfg, b);
        assert(spec_resolve_link(cfg, Note::Physical(a), link) == Ok::<_, ResolveLinkPathError>(
            target,
        ));
    } else {
        // the link is not absolute: its first character comes from `..` or a
        // target segment, never a separator
        assert(diff[0].len() > 0 && diff[0][0] != '/') by {
            if k > 0 {
                assert(diff[0] == seq!['.', '.']);
            } else {
                assert(diff[0] == tsegs[cp]);
                assert(wf_segment(tsegs[cp])) by {
                    lemma_note_segments_wf(cfg, b);
                }
                assert(!tsegs[cp].contains('/'));
                if tsegs[cp][0] == '/' {
                    assert(tsegs[cp].contains('/'));
                }
            }
        }
        assert(link[0] == diff[0][0]) by {
            if diff.len() == 1 {
                assert(link == diff[0]);
            } else {
                crate::strutil::lemma_join_unfold_front(diff, seq!['/']);
                assert(link == diff[0] + seq!['/'] + spec_join(diff.drop_first(), seq!['/']));
            }
        }
        assert(!Config::spec_is_absolute(link));

        // splitting the link text restores the diff segments
        assert(spec_split(link, seq!['/']) == diff) by {
            assert forall|i: int| 0 <= i < diff.len() implies !(#[trigger] diff[i]).contains(
                '/',
            ) && diff[i].len() > 0 by {
                if i < k {
                    assert(diff[i] == seq!['.', '.']);
                } else {
                    assert(diff[i] == tsegs[cp + (i - k)]);
                    lemma_note_segments_wf(cfg, b);
                    assert(wf_segment(tsegs[cp + (i - k)]));
                }
            }
            crate::strutil::lemma_split_join_roundtrip(diff, seq!['/']);
        }

        // normalizing base ++ diff climbs and descends back to the target
        let suffix = tsegs.skip(cp);
        assert(all_norm(suffix)) by {
            lemma_note_segments_wf(cfg, b);
            assert forall|i: int| 0 <= i < suffix.len() implies
                crate::paths::norm_segment(#[trigger] suffix[i]) by {
                assert(suffix[i] == tsegs[cp + i]);
            }
        }
        assert(base + diff =~= base + dotdots(k) + suffix);
        lemma_normalize_updown(base, k, suffix);
        assert(base.take(base.len() - k) == tsegs.take(cp));
        assert(spec_normalize(base + diff) =~= tsegs) by {
            assert(tsegs.take(cp) + tsegs.skip(cp) =~= tsegs);
        }
        lemma_path_of_note_segments(cfg, b);
        assert(spec_resolve_link(cfg, Note::Physical(a), link) == Ok::<_, ResolveLinkPathError>(
            target,
        ));
    }
}

/// The segments of a well-formed note's path: the root's segments, the
/// directories, and the file name.
proof fn lemma_note_segments(cfg: Config, n: PhysicalNote)
    requires
        wf_config(cfg),
        n.wf(),
    ensures
        spec_segments_of(n.spec_path(cfg)) == spec_segments_of(cfg.home_path@)
            + n.directories.deep_view() + seq![n.spec_file_name()],
{
    let x = n.directories.deep_view().push(n.spec_file_name());
    assert(all_wf(x)) by {
        lemma_file_name_wf(n);
        assert forall|i: int| 0 <= i < x.len() implies wf_segment(#[trigger] x[i]) by {
            if i < n.directories.deep_view().len() {
                assert(x[i] == n.directories.deep_view()[i]);
            }
        }
    }
    lemma_segments_of_extension(cfg.home_path@, x);
    assert(spec_segments_of(cfg.home_path@) + x =~= spec_segments_of(cfg.home_path@)
        + n.directories.deep_view() + seq![n.spec_file_name()]);
}

/// Every segment of a well-formed note's path is well-formed.
proof fn lemma_note_segments_wf(cfg: Config, n: PhysicalNote)
    requires
        wf_config(cfg),
        n.wf(),
    ensures
        all_wf(spec_segments_of(n.spec_path(cfg))),
{
    lemma_note_segments(cfg, n);
    lemma_wf_abs_path_canonical(cfg.home_path@);
    lemma_file_name_wf(n);
    let hsegs = spec_segments_of(cfg.home_path@);
    let whole = hsegs + n.directories.deep_view() + seq![n.spec_file_name()];
    assert forall|i: int| 0 <= i < whole.len() implies wf_segment(#[trigger] whole[i]) by {
        if i < hsegs.len() {
            assert(whole[i] == hsegs[i]);
        } else if i < hsegs.len() + n.directories.deep_view().len() {
            assert(whole[i] == n.directories.deep_view()[i - hsegs.len()]);
        } else {
            assert(whole[i] == n.spec_file_name());
        }
    }
}

/// A well-formed note's file name is a well-formed segment.
proof fn lemma_file_name_wf(n: PhysicalNote)
    requires
        n.wf(),
    ensures
        wf_segment(n.spec_file_name()),
{
    let f = n.spec_file_name();
    assert(f.len() == n.id@.len() + 3);
    if f.contains('/') {
        let i = choose|i: int| 0 <= i < f.len() && f[i] == '/';
        if i < n.id@.len() {
            assert(n.id@[i] == '/');
            assert(n.id@.contains('/'));
        } else {
            assert(crate::note::md_ext()[i - n.id@.len()] == '/');
        }
    }
    assert(f != seq!['.'] && f != seq!['.', '.']) by {
        assert(f.len() >= 4);
    }
}

/// The canonical string of a well-formed note's path segments is the path
/// itself.
proof fn lemma_path_of_note_segments(cfg: Config, n: PhysicalNote)
    requires
        wf_config(cfg),
        n.wf(),
    ensures
        spec_path_of_segments(spec_segments_of(n.spec_path(cfg))) == n.spec_path(cfg),
{
    lemma_note_segments(cfg, n);
    lemma_wf_abs_path_canonical(cfg.home_path@);
    let hsegs = spec_segments_of(cfg.home_path@);
    let x = n.directories.deep_view().push(n.spec_file_name());
    let whole = spec_segments_of(n.spec_path(cfg));
    assert(whole =~= hsegs + x);
    assert(whole.len() > 0);
    crate::paths::lemma_slash_concat_app(hsegs, x);
    // the home path is the canonical string of its own segments
    assert(hsegs.len() >= 1) by {
        if hsegs.len() == 0 {
            assert(spec_path_of_segments(hsegs) =~= seq!['/']);
            assert(cfg.home_path@ =~= seq!['/']);
            let parts = spec_split(cfg.home_path@, seq!['/']);
            crate::paths::lemma_occurs_single(cfg.home_path@, '/', 0);
            crate::strutil::lemma_find_unique(cfg.home_path@, seq!['/'], 0, 0);
            assert(parts =~= seq![cfg.home_path@.take(0)] + spec_split(
                cfg.home_path@.skip(1),
                seq!['/'],
            ));
            assert(cfg.home_path@.skip(1) =~= Seq::<char>::empty());
            assert(spec_split(Seq::<char>::empty(), seq!['/']) =~= seq![Seq::<char>::empty()]) by {
                crate::strutil::lemma_find_props(Seq::<char>::empty(), seq!['/'], 0);
            }
            assert(parts.len() == 2);
            assert(parts[1].len() == 0);
            assert(wf_segment(parts[1]));
            assert(false);
        }
    }
    assert(spec_slash_concat(hsegs) == cfg.home_path@);
    assert(spec_slash_concat(whole) =~= cfg.home_path@ + spec_slash_concat(x));
}

} // verus!
