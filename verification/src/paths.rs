use vstd::prelude::*;
use crate::strutil::{
    spec_split, spec_join, lemma_split_pieces_clean, lemma_join_unfold_front, spec_find,
    lemma_find_props, occurs_at,
};

verus! {

// ---------------------------------------------------------------------------
// Path segments
// ---------------------------------------------------------------------------

/// A segment that neither renames a directory level (`.` / `..`), is empty,
/// nor smuggles in a separator.
pub open spec fn wf_segment(seg: Seq<char>) -> bool {
    &&& seg.len() > 0
    &&& !seg.contains('/')
    &&& seg != seq!['.']
    &&& seg != seq!['.', '.']
}

/// A segment that lexical normalization leaves alone.
pub open spec fn norm_segment(seg: Seq<char>) -> bool {
    &&& seg.len() > 0
    &&& seg != seq!['.']
    &&& seg != seq!['.', '.']
}

/// Lexical path normalization over segments: empty segments and `.` vanish,
/// `..` removes the preceding segment (or nothing, at the root).
pub open spec fn spec_normalize(parts: Seq<Seq<char>>) -> Seq<Seq<char>>
    decreases parts.len(),
{
    if parts.len() == 0 {
        Seq::empty()
    } else {
        let rest = spec_normalize(parts.drop_last());
        let last = parts.last();
        if last.len() == 0 || last == seq!['.'] {
            rest
        } else if last == seq!['.', '.'] {
            if rest.len() > 0 {
                rest.drop_last()
            } else {
                rest
            }
        } else {
            rest.push(last)
        }
    }
}

/// All segments are untouched by normalization.
pub open spec fn all_norm(parts: Seq<Seq<char>>) -> bool {
    forall|k: int| 0 <= k < parts.len() ==> norm_segment(#[trigger] parts[k])
}

/// All segments are plain path segments.
pub open spec fn all_wf(parts: Seq<Seq<char>>) -> bool {
    forall|k: int| 0 <= k < parts.len() ==> wf_segment(#[trigger] parts[k])
}

/// No segment contains a separator.
pub open spec fn no_slash(parts: Seq<Seq<char>>) -> bool {
    forall|k: int| 0 <= k < parts.len() ==> !(#[trigger] parts[k]).contains('/')
}

/// Every normalized segment is non-empty and not a dot segment; separators
/// never appear if the input had none.
pub proof fn lemma_normalize_segments(parts: Seq<Seq<char>>)
    ensures
        all_norm(spec_normalize(parts)),
        no_slash(parts) ==> no_slash(spec_normalize(parts)),
    decreases parts.len(),
{
    if parts.len() > 0 {
        lemma_normalize_segments(parts.drop_last());
        let rest = spec_normalize(parts.drop_last());
        let last = parts.last();
        assert(no_slash(parts) ==> no_slash(parts.drop_last())) by {
            if no_slash(parts) {
                assert forall|k: int| 0 <= k < parts.drop_last().len() implies !(
                #[trigger] parts.drop_last()[k]).contains('/') by {
                    assert(parts.drop_last()[k] == parts[k]);
                }
            }
        }
        if last.len() == 0 || last == seq!['.'] {
        } else if last == seq!['.', '.'] {
            if rest.len() > 0 {
                assert forall|k: int| 0 <= k < rest.drop_last().len() implies norm_segment(
                #[trigger] rest.drop_last()[k]) by {
                    assert(rest.drop_last()[k] == rest[k]);
                }
                if no_slash(rest) {
                    assert forall|k: int| 0 <= k < rest.drop_last().len() implies !(
                    #[trigger] rest.drop_last()[k]).contains('/') by {
                        assert(rest.drop_last()[k] == rest[k]);
                    }
                }
            }
        } else {
            assert(norm_segment(last));
            assert forall|k: int| 0 <= k < rest.push(last).len() implies norm_segment(
            #[trigger] rest.push(last)[k]) by {
                if k < rest.len() {
                    assert(rest.push(last)[k] == rest[k]);
                }
            }
            if no_slash(parts) {
                assert(!last.contains('/'));
                assert forall|k: int| 0 <= k < rest.push(last).len() implies !(
                #[trigger] rest.push(last)[k]).contains('/') by {
                    if k < rest.len() {
                        assert(rest.push(last)[k] == rest[k]);
                    }
                }
            }
        }
    }
}

/// Normalization does not touch a sequence of normalized segments.
pub proof fn lemma_normalize_id(parts: Seq<Seq<char>>)
    requires
        all_norm(parts),
    ensures
        spec_normalize(parts) == parts,
    decreases parts.len(),
{
    if parts.len() == 0 {
        assert(spec_normalize(parts) =~= parts);
    } else {
        assert forall|k: int| 0 <= k < parts.drop_last().len() implies norm_segment(
        #[trigger] parts.drop_last()[k]) by {
            assert(parts.drop_last()[k] == parts[k]);
        }
        lemma_normalize_id(parts.drop_last());
        assert(norm_segment(parts.last()));
        assert(spec_normalize(parts) =~= parts);
    }
}

/// Normalizing a concatenation may normalize the left part first.
pub proof fn lemma_normalize_concat(a: Seq<Seq<char>>, b: Seq<Seq<char>>)
    ensures
        spec_normalize(a + b) == spec_normalize(spec_normalize(a) + b),
    decreases b.len(),
{
    if b.len() == 0 {
        assert(a + b =~= a);
        lemma_normalize_segments(a);
        lemma_normalize_id(spec_normalize(a));
        assert(spec_normalize(a) + b =~= spec_normalize(a));
    } else {
        lemma_normalize_concat(a, b.drop_last());
        assert((a + b).drop_last() =~= a + b.drop_last());
        assert((spec_normalize(a) + b).drop_last() =~= spec_normalize(a) + b.drop_last());
        assert((a + b).last() == b.last());
        assert((spec_normalize(a) + b).last() == b.last());
    }
}

/// The sequence of `k` copies of `..`.
pub open spec fn dotdots(k: nat) -> Seq<Seq<char>> {
    Seq::new(k, |i: int| seq!['.', '.'])
}

/// `..` segments pop normalized segments one by one.
pub proof fn lemma_normalize_pop(base: Seq<Seq<char>>, k: nat)
    requires
        all_norm(base),
        k <= base.len(),
    ensures
        spec_normalize(base + dotdots(k)) == base.take(base.len() - k),
    decreases k,
{
    if k == 0 {
        assert(base + dotdots(0) =~= base);
        lemma_normalize_id(base);
        assert(base.take(base.len() as int) =~= base);
    } else {
        let whole = base + dotdots(k);
        assert(whole.drop_last() =~= base + dotdots((k - 1) as nat));
        lemma_normalize_pop(base, (k - 1) as nat);
        assert(whole.last() == seq!['.', '.']);
        let prev = base.take(base.len() - (k - 1));
        assert(prev.len() > 0);
        assert(prev.drop_last() =~= base.take(base.len() - k));
        assert(spec_normalize(whole) =~= base.take(base.len() - k));
    }
}

/// The central normalization fact behind the link round trip: walking up
/// with `..` and back down along the target restores the target.
pub proof fn lemma_normalize_updown(
    base: Seq<Seq<char>>,
    k: nat,
    suffix: Seq<Seq<char>>,
)
    requires
        all_norm(base),
        all_norm(suffix),
        k <= base.len(),
    ensures
        spec_normalize(base + dotdots(k) + suffix) == base.take(base.len() - k) + suffix,
{
    lemma_normalize_concat(base + dotdots(k), suffix);
    lemma_normalize_pop(base, k);
    let taken = base.take(base.len() - k);
    assert forall|j: int| 0 <= j < (taken + suffix).len() implies norm_segment(
    #[trigger] (taken + suffix)[j]) by {
        if j < taken.len() {
            assert(taken[j] == base[j]);
        } else {
            assert((taken + suffix)[j] == suffix[j - taken.len()]);
        }
    }
    lemma_normalize_id(taken + suffix);
    assert(spec_normalize(base + dotdots(k)) + suffix =~= taken + suffix);
}

// ---------------------------------------------------------------------------
// Absolute paths as strings
// ---------------------------------------------------------------------------

/// The normalized segments of a path string.
pub open spec fn spec_segments_of(s: Seq<char>) -> Seq<Seq<char>> {
    spec_normalize(spec_split(s, seq!['/']))
}

/// Each segment, preceded by one separator: the canonical spelling of an
/// absolute path below the root.
pub open spec fn spec_slash_concat(parts: Seq<Seq<char>>) -> Seq<char>
    decreases parts.len(),
{
    if parts.len() == 0 {
        Seq::empty()
    } else {
        spec_slash_concat(parts.drop_last()) + seq!['/'] + parts.last()
    }
}

pub proof fn lemma_slash_concat_app(a: Seq<Seq<char>>, b: Seq<Seq<char>>)
    ensures
        spec_slash_concat(a + b) == spec_slash_concat(a) + spec_slash_concat(b),
    decreases b.len(),
{
    if b.len() == 0 {
        assert(a + b =~= a);
        assert(spec_slash_concat(a) + spec_slash_concat(b) =~= spec_slash_concat(a));
    } else {
        lemma_slash_concat_app(a, b.drop_last());
        assert((a + b).drop_last() =~= a + b.drop_last());
        assert((a + b).last() == b.last());
        assert(spec_slash_concat(a) + (spec_slash_concat(b.drop_last()) + seq!['/'] + b.last())
            =~= (spec_slash_concat(a) + spec_slash_concat(b.drop_last())) + seq!['/'] + b.last());
    }
}

/// A non-empty slash-concatenation starts with the separator.
pub proof fn lemma_slash_concat_first(parts: Seq<Seq<char>>)
    requires
        parts.len() >= 1,
    ensures
        spec_slash_concat(parts).len() >= 1,
        spec_slash_concat(parts)[0] == '/',
    decreases parts.len(),
{
    if parts.len() == 1 {
        assert(spec_slash_concat(parts.drop_last()).len() == 0);
    } else {
        lemma_slash_concat_first(parts.drop_last());
    }
}

/// The string form of normalized absolute segments; the bare root when none
/// are left.
pub open spec fn spec_path_of_segments(parts: Seq<Seq<char>>) -> Seq<char> {
    if parts.len() == 0 {
        seq!['/']
    } else {
        spec_slash_concat(parts)
    }
}

/// A well-formed absolute path string: it starts at the root and every
/// segment is plain.
pub open spec fn wf_abs_path(s: Seq<char>) -> bool {
    let parts = spec_split(s, seq!['/']);
    &&& s.len() > 0
    &&& s[0] == '/'
    &&& parts[0].len() == 0
    &&& forall|k: int| #![auto] 1 <= k < parts.len() ==> wf_segment(parts[k])
}

/// `spec_join` inverts `spec_split`.
pub proof fn lemma_join_split_id(s: Seq<char>, sep: Seq<char>)
    requires
        sep.len() >= 1,
    ensures
        spec_join(spec_split(s, sep), sep) == s,
    decreases s.len(),
{
    lemma_find_props(s, sep, 0);
    match spec_find(s, sep, 0) {
        None => {
            assert(spec_join(seq![s], sep) == s);
        },
        Some(i) => {
            let rest = s.skip(i + sep.len() as int);
            lemma_join_split_id(rest, sep);
            let parts = spec_split(s, sep);
            assert(parts =~= seq![s.take(i)] + spec_split(rest, sep));
            assert(parts.len() >= 2);
            lemma_join_unfold_front(parts, sep);
            assert(parts[0] == s.take(i));
            assert(parts.drop_first() =~= spec_split(rest, sep));
            assert(s.subrange(i, i + sep.len() as int) == sep);
            assert(s.take(i) + sep + rest =~= s);
        },
    }
}

/// A well-formed absolute path string is the canonical spelling of its own
/// normalized segments.
pub proof fn lemma_wf_abs_path_canonical(s: Seq<char>)
    requires
        wf_abs_path(s),
    ensures
        spec_path_of_segments(spec_segments_of(s)) == s,
        all_wf(spec_segments_of(s)),
{
    let sep = seq!['/'];
    let parts = spec_split(s, sep);
    let rest = parts.drop_first();
    assert(parts.len() >= 1);
    assert forall|k: int| 0 <= k < rest.len() implies wf_segment(#[trigger] rest[k]) by {
        assert(rest[k] == parts[k + 1]);
    }
    assert(all_norm(rest));
    // normalize(parts) == rest: the leading empty segment vanishes.
    assert(parts =~= seq![parts[0]] + rest);
    lemma_normalize_concat(seq![parts[0]], rest);
    assert(spec_normalize(seq![parts[0]]) =~= Seq::<Seq<char>>::empty()) by {
        let single = seq![parts[0]];
        assert(single.drop_last() =~= Seq::<Seq<char>>::empty());
        assert(spec_normalize(Seq::<Seq<char>>::empty()) =~= Seq::<Seq<char>>::empty());
        assert(single.last().len() == 0);
    }
    assert(Seq::<Seq<char>>::empty() + rest =~= rest);
    lemma_normalize_id(rest);
    assert(spec_segments_of(s) == rest);

    // join inverts split, and a join led by an empty piece is a slash-concat.
    lemma_join_split_id(s, sep);
    if rest.len() == 0 {
        assert(parts =~= seq![parts[0]]);
        assert(spec_join(parts, sep) == parts[0]);
        assert(s == parts[0]);
        assert(parts[0].len() == 0);
        assert(s.len() > 0);
    } else {
        lemma_slash_concat_vs_join(rest);
        assert(parts.len() >= 2);
        lemma_join_unfold_front(parts, sep);
        assert(spec_join(parts, sep) =~= parts[0] + sep + spec_join(rest, sep));
        assert(parts[0] + sep + spec_join(rest, sep) =~= sep + spec_join(rest, sep));
        assert(spec_slash_concat(rest) == sep + spec_join(rest, sep));
        assert(spec_path_of_segments(spec_segments_of(s)) == s);
    }
}

/// Slash-concatenation is a join with one more separator in front.
pub proof fn lemma_slash_concat_vs_join(parts: Seq<Seq<char>>)
    requires
        parts.len() >= 1,
    ensures
        spec_slash_concat(parts) == seq!['/'] + spec_join(parts, seq!['/']),
    decreases parts.len(),
{
    if parts.len() == 1 {
        assert(spec_slash_concat(parts) == spec_slash_concat(parts.drop_last()) + seq!['/']
            + parts.last());
        assert(spec_slash_concat(parts.drop_last()) =~= Seq::<char>::empty()) by {
            assert(parts.drop_last().len() == 0);
        }
        assert(spec_slash_concat(parts) =~= seq!['/'] + spec_join(parts, seq!['/']));
    } else {
        lemma_slash_concat_vs_join(parts.drop_last());
        assert(spec_slash_concat(parts) == spec_slash_concat(parts.drop_last()) + seq!['/']
            + parts.last());
        assert((seq!['/'] + spec_join(parts.drop_last(), seq!['/'])) + seq!['/'] + parts.last()
            =~= seq!['/'] + (spec_join(parts.drop_last(), seq!['/']) + seq!['/'] + parts.last()));
    }
}

/// A single-character word occurs exactly at the positions holding that
/// character.
pub proof fn lemma_occurs_single(s: Seq<char>, c: char, p: int)
    ensures
        occurs_at(s, seq![c], p) <==> 0 <= p < s.len() && s[p] == c,
{
    if 0 <= p < s.len() && s[p] == c {
        assert(s.subrange(p, p + 1) =~= seq![c]);
    }
    if occurs_at(s, seq![c], p) {
        assert(s.subrange(p, p + 1)[0] == s[p]);
    }
}

/// Splitting distributes over a separator placed between two strings.
pub proof fn lemma_split_append(a: Seq<char>, b: Seq<char>, c: char)
    ensures
        spec_split(a + seq![c] + b, seq![c]) == spec_split(a, seq![c]) + spec_split(b, seq![c]),
    decreases a.len(),
{
    let sep = seq![c];
    let whole = a + sep + b;
    lemma_find_props(a, sep, 0);
    match spec_find(a, sep, 0) {
        None => {
            assert forall|q: int| 0 <= q < a.len() implies !occurs_at(whole, sep, q) by {
                lemma_occurs_single(whole, c, q);
                lemma_occurs_single(a, c, q);
                assert(whole[q] == a[q]);
            }
            assert(occurs_at(whole, sep, a.len() as int)) by {
                lemma_occurs_single(whole, c, a.len() as int);
                assert(whole[a.len() as int] == c);
            }
            crate::strutil::lemma_find_unique(whole, sep, 0, a.len() as int);
            assert(whole.take(a.len() as int) =~= a);
            assert(whole.skip(a.len() as int + 1) =~= b);
            assert(spec_split(whole, sep) =~= seq![a] + spec_split(b, sep));
            assert(spec_split(a, sep) =~= seq![a]);
        },
        Some(i) => {
            assert(occurs_at(a, sep, i));
            assert(occurs_at(whole, sep, i)) by {
                lemma_occurs_single(whole, c, i);
                lemma_occurs_single(a, c, i);
                assert(whole[i] == a[i]);
            }
            assert forall|q: int| 0 <= q < i implies !occurs_at(whole, sep, q) by {
                lemma_occurs_single(whole, c, q);
                lemma_occurs_single(a, c, q);
                assert(whole[q] == a[q]);
            }
            crate::strutil::lemma_find_unique(whole, sep, 0, i);
            lemma_split_append(a.skip(i + 1), b, c);
            assert(whole.skip(i + 1) =~= a.skip(i + 1) + sep + b);
            assert(whole.take(i) =~= a.take(i));
            assert(spec_split(whole, sep) =~= seq![a.take(i)] + spec_split(whole.skip(i + 1), sep));
            assert(seq![a.take(i)] + (spec_split(a.skip(i + 1), sep) + spec_split(b, sep)) =~= (
            seq![a.take(i)] + spec_split(a.skip(i + 1), sep)) + spec_split(b, sep));
            assert(spec_split(a, sep) =~= seq![a.take(i)] + spec_split(a.skip(i + 1), sep));
        },
    }
}

/// The normalized segments of a root path extended by plain segments.
pub proof fn lemma_segments_of_extension(root: Seq<char>, x: Seq<Seq<char>>)
    requires
        all_wf(x),
    ensures
        spec_segments_of(root + spec_slash_concat(x)) == spec_segments_of(root) + x,
    decreases x.len(),
{
    if x.len() == 0 {
        assert(root + spec_slash_concat(x) =~= root);
        assert(spec_segments_of(root) + x =~= spec_segments_of(root));
    } else {
        assert forall|k: int| 0 <= k < x.drop_last().len() implies wf_segment(
        #[trigger] x.drop_last()[k]) by {
            assert(x.drop_last()[k] == x[k]);
        }
        lemma_segments_of_extension(root, x.drop_last());
        let prev = root + spec_slash_concat(x.drop_last());
        let last = x.last();
        assert(root + spec_slash_concat(x) =~= prev + seq!['/'] + last);
        lemma_split_append(prev, last, '/');
        // split(last) is the single piece [last], since last holds no '/'
        assert(spec_find(last, seq!['/'], 0) is None) by {
            lemma_find_props(last, seq!['/'], 0);
            match spec_find(last, seq!['/'], 0) {
                Some(i) => {
                    lemma_occurs_single(last, '/', i);
                    assert(last.contains('/'));
                },
                None => {},
            }
        }
        assert(spec_split(last, seq!['/']) =~= seq![last]);
        lemma_normalize_concat(spec_split(prev, seq!['/']), seq![last]);
        // one more step: normalize(normalize(prev-split) + [last])
        let np = spec_normalize(spec_split(prev, seq!['/']));
        lemma_normalize_segments(spec_split(prev, seq!['/']));
        assert(spec_normalize(np + seq![last]) =~= np.push(last)) by {
            assert((np + seq![last]).drop_last() =~= np);
            lemma_normalize_id(np);
            assert((np + seq![last]).last() == last);
            assert(norm_segment(last));
        }
        assert(spec_split(prev + seq!['/'] + last, seq!['/']) =~= spec_split(prev, seq!['/'])
            + seq![last]);
        assert(spec_normalize(spec_split(prev, seq!['/']) + seq![last]) == spec_normalize(
            np + seq![last],
        )) by {
            lemma_normalize_concat(spec_split(prev, seq!['/']), seq![last]);
        }
        assert(spec_segments_of(root + spec_slash_concat(x)) =~= spec_segments_of(root) + x);
    }
}

// ---------------------------------------------------------------------------
// Executable forms
// ---------------------------------------------------------------------------

/// Normalizes split path segments.
pub fn normalize_segments(parts: &Vec<String>) -> (r: Vec<String>)
    ensures
        r.deep_view() == spec_normalize(parts.deep_view()),
{
    let mut out: Vec<String> = Vec::new();
    let mut i: usize = 0;
    while i < parts.len()
        invariant
            i <= parts.len(),
            out.deep_view() == spec_normalize(parts.deep_view().take(i as int)),
        decreases parts.len() - i,
    {
        proof {
            reveal_strlit(".");
            reveal_strlit("..");
            assert("."@ =~= seq!['.']);
            assert(".."@ =~= seq!['.', '.']);
            assert(parts.deep_view().take(i + 1).drop_last() =~= parts.deep_view().take(i as int));
            assert(parts.deep_view().take(i + 1).last() == parts.deep_view()[i as int]);
        }
        let seg = &parts[i];
        if seg.as_str().unicode_len() == 0 || crate::strutil::str_eq(seg.as_str(), ".") {
            // dropped
        } else if crate::strutil::str_eq(seg.as_str(), "..") {
            if out.len() > 0 {
                out.pop();
                proof {
                    assert(out.deep_view() =~= spec_normalize(
                        parts.deep_view().take(i as int),
                    ).drop_last());
                }
            }
        } else {
            out.push(seg.clone());
            proof {
                assert(out.deep_view() =~= spec_normalize(
                    parts.deep_view().take(i as int),
                ).push(parts.deep_view()[i as int]));
            }
        }
        i = i + 1;
    }
    proof {
        assert(parts.deep_view().take(parts.len() as int) =~= parts.deep_view());
    }
    out
}

/// Splits a path string on the separator and normalizes the segments.
pub fn segments_of(s: &str) -> (r: Vec<String>)
    ensures
        r.deep_view() == spec_segments_of(s@),
{
    proof {
        reveal_strlit("/");
        assert("/"@ =~= seq!['/']);
    }
    let raw = crate::strutil::split_str(s, "/");
    normalize_segments(&raw)
}

/// Renders normalized absolute segments as a path string.
pub fn path_of_segments(parts: &Vec<String>) -> (r: String)
    ensures
        r@ == spec_path_of_segments(parts.deep_view()),
{
    proof {
        reveal_strlit("/");
        assert("/"@ =~= seq!['/']);
    }
    if parts.len() == 0 {
        let r = String::from_str("/");
        return r;
    }
    let mut r = String::new();
    let mut i: usize = 0;
    while i < parts.len()
        invariant
            i <= parts.len(),
            r@ == spec_slash_concat(parts.deep_view().take(i as int)),
            "/"@ == seq!['/'],
        decreases parts.len() - i,
    {
        r.append("/");
        r.append(parts[i].as_str());
        proof {
            assert(parts.deep_view().take(i + 1).drop_last() =~= parts.deep_view().take(i as int));
            assert(parts.deep_view().take(i + 1).last() == parts.deep_view()[i as int]);
        }
        i = i + 1;
    }
    proof {
        assert(parts.deep_view().take(parts.len() as int) =~= parts.deep_view());
    }
    r
}

/// Whether the path string is absolute.
pub fn is_absolute_path(s: &str) -> (r: bool)
    ensures
        r == crate::config::Config::spec_is_absolute(s@),
{
    s.unicode_len() > 0 && s.get_char(0) == '/'
}

} // verus!
