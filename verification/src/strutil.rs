use vstd::prelude::*;

verus! {

// ---------------------------------------------------------------------------
// Character classes
// ---------------------------------------------------------------------------

/// ASCII whitespace, the class the marker grammar and argument trimming use.
pub open spec fn spec_is_space(c: char) -> bool {
    c == ' ' || c == '\t' || c == '\r' || c == '\n'
}

pub fn is_space(c: char) -> (r: bool)
    ensures
        r == spec_is_space(c),
{
    c == ' ' || c == '\t' || c == '\r' || c == '\n'
}

/// Word characters: letters, digits and the underscore.
pub open spec fn spec_is_word_char(c: char) -> bool {
    ||| 'a' as u32 <= c as u32 && c as u32 <= 'z' as u32
    ||| 'A' as u32 <= c as u32 && c as u32 <= 'Z' as u32
    ||| '0' as u32 <= c as u32 && c as u32 <= '9' as u32
    ||| c == '_'
}

pub fn is_word_char(c: char) -> (r: bool)
    ensures
        r == spec_is_word_char(c),
{
    let u = c as u32;
    ('a' as u32 <= u && u <= 'z' as u32)
        || ('A' as u32 <= u && u <= 'Z' as u32)
        || ('0' as u32 <= u && u <= '9' as u32)
        || c == '_'
}

// ---------------------------------------------------------------------------
// Lexicographic order on character sequences (by code point)
// ---------------------------------------------------------------------------

/// `a` is at most `b` in code-point lexicographic order.
pub open spec fn lex_le(a: Seq<char>, b: Seq<char>) -> bool
    decreases a.len(),
{
    if a.len() == 0 {
        true
    } else if b.len() == 0 {
        false
    } else if (a[0] as int) < (b[0] as int) {
        true
    } else if a[0] == b[0] {
        lex_le(a.drop_first(), b.drop_first())
    } else {
        false
    }
}

/// Strictly below in the lexicographic order.
pub open spec fn lex_lt(a: Seq<char>, b: Seq<char>) -> bool {
    lex_le(a, b) && a != b
}

/// The order is total: one of the two directions always holds.
pub proof fn lemma_lex_le_total(a: Seq<char>, b: Seq<char>)
    ensures
        lex_le(a, b) || lex_le(b, a),
    decreases a.len(),
{
    if a.len() == 0 || b.len() == 0 {
    } else if a[0] == b[0] {
        lemma_lex_le_total(a.drop_first(), b.drop_first());
    } else if (a[0] as int) < (b[0] as int) {
        assert(lex_le(a, b));
    } else {
        assert(a[0] as int != b[0] as int);
        assert((b[0] as int) < (a[0] as int));
        assert(lex_le(b, a));
    }
}

/// The order is transitive.
pub proof fn lemma_lex_le_trans(a: Seq<char>, b: Seq<char>, c: Seq<char>)
    requires
        lex_le(a, b),
        lex_le(b, c),
    ensures
        lex_le(a, c),
    decreases a.len(),
{
    if a.len() == 0 || b.len() == 0 || c.len() == 0 {
    } else if a[0] == b[0] && b[0] == c[0] {
        lemma_lex_le_trans(a.drop_first(), b.drop_first(), c.drop_first());
    }
}

/// The order is antisymmetric.
pub proof fn lemma_lex_le_antisym(a: Seq<char>, b: Seq<char>)
    requires
        lex_le(a, b),
        lex_le(b, a),
    ensures
        a == b,
    decreases a.len(),
{
    if a.len() == 0 {
        assert(b.len() == 0);
        assert(a =~= b);
    } else {
        assert(b.len() > 0);
        assert(a[0] == b[0]);
        lemma_lex_le_antisym(a.drop_first(), b.drop_first());
        assert(a.drop_first() == b.drop_first());
        assert(a =~= b) by {
            assert(a.len() == b.len()) by {
                assert(a.drop_first().len() == b.drop_first().len());
            }
            assert forall|i: int| 0 <= i < a.len() implies a[i] == b[i] by {
                if i > 0 {
                    assert(a.drop_first()[i - 1] == b.drop_first()[i - 1]);
                }
            }
        }
    }
}

fn str_lex_le_from(a: &str, b: &str, i: usize) -> (r: bool)
    requires
        i <= a@.len(),
        i <= b@.len(),
    ensures
        r == lex_le(a@.skip(i as int), b@.skip(i as int)),
    decreases a@.len() - i,
{
    let alen = a.unicode_len();
    let blen = b.unicode_len();
    if i == alen {
        true
    } else if i == blen {
        false
    } else {
        let ca = a.get_char(i);
        let cb = b.get_char(i);
        proof {
            assert(ca as int >= 0 && ca as int <= 0x10FFFF);
            assert(cb as int >= 0 && cb as int <= 0x10FFFF);
        }
        if (ca as u32) < (cb as u32) {
            true
        } else if ca == cb {
            let r = str_lex_le_from(a, b, i + 1);
            proof {
                assert(a@.skip(i as int).drop_first() =~= a@.skip(i as int + 1));
                assert(b@.skip(i as int).drop_first() =~= b@.skip(i as int + 1));
            }
            r
        } else {
            false
        }
    }
}

/// Code-point lexicographic comparison of two strings.
pub fn str_lex_le(a: &str, b: &str) -> (r: bool)
    ensures
        r == lex_le(a@, b@),
{
    let r = str_lex_le_from(a, b, 0);
    proof {
        assert(a@.skip(0) =~= a@);
        assert(b@.skip(0) =~= b@);
    }
    r
}

/// String equality, decided character by character.
pub fn str_eq(a: &str, b: &str) -> (r: bool)
    ensures
        r == (a@ == b@),
{
    let alen = a.unicode_len();
    let blen = b.unicode_len();
    if alen != blen {
        return false;
    }
    let mut j: usize = 0;
    while j < alen
        invariant
            j <= alen,
            alen as nat == a@.len(),
            alen as nat == b@.len(),
            forall|k: int| 0 <= k < j ==> a@[k] == b@[k],
        decreases alen - j,
    {
        if a.get_char(j) != b.get_char(j) {
            return false;
        }
        j = j + 1;
    }
    proof {
        assert(a@ =~= b@);
    }
    true
}

// ---------------------------------------------------------------------------
// Substring occurrence and search
// ---------------------------------------------------------------------------

/// The word `w` occurs in `s` at position `p`.
pub open spec fn occurs_at(s: Seq<char>, w: Seq<char>, p: int) -> bool {
    0 <= p && p + w.len() <= s.len() && s.subrange(p, p + w.len() as int) == w
}

/// Decides `occurs_at` at one position.
pub fn occurs_check(s: &str, w: &str, p: usize) -> (r: bool)
    requires
        p + w@.len() <= s@.len(),
    ensures
        r == occurs_at(s@, w@, p as int),
{
    let slen = s.unicode_len();
    let wlen = w.unicode_len();
    let mut j: usize = 0;
    while j < wlen
        invariant
            j <= wlen,
            slen as nat == s@.len(),
            wlen as nat == w@.len(),
            p + w@.len() <= s@.len(),
            forall|k: int| 0 <= k < j ==> s@[p + k] == w@[k],
        decreases wlen - j,
    {
        if s.get_char(p + j) != w.get_char(j) {
            proof {
                let sub = s@.subrange(p as int, p + w@.len() as int);
                assert(sub[j as int] == s@[p + j]);
            }
            return false;
        }
        j = j + 1;
    }
    proof {
        assert(s@.subrange(p as int, p + w@.len() as int) =~= w@);
    }
    true
}

/// Position of the first occurrence of `w` in `s` at or after `from`.
pub open spec fn spec_find(s: Seq<char>, w: Seq<char>, from: int) -> Option<int>
    recommends
        w.len() >= 1,
    decreases s.len() - from
        when w.len() >= 1
{
    if from < 0 || from + w.len() > s.len() {
        None
    } else if occurs_at(s, w, from) {
        Some(from)
    } else {
        spec_find(s, w, from + 1)
    }
}

/// What `spec_find` returns: the first occurrence, or none at all.
pub proof fn lemma_find_props(s: Seq<char>, w: Seq<char>, from: int)
    requires
        w.len() >= 1,
        0 <= from,
    ensures
        match spec_find(s, w, from) {
            Some(i) => from <= i && occurs_at(s, w, i) && forall|j: int|
                from <= j < i ==> !occurs_at(s, w, j),
            None => forall|j: int| from <= j ==> !occurs_at(s, w, j),
        },
    decreases s.len() - from,
{
    if from < 0 || from + w.len() > s.len() {
    } else if occurs_at(s, w, from) {
    } else {
        lemma_find_props(s, w, from + 1);
    }
}

/// `spec_find` is pinned down by an occurrence that nothing precedes.
pub proof fn lemma_find_unique(s: Seq<char>, w: Seq<char>, from: int, p: int)
    requires
        w.len() >= 1,
        0 <= from <= p,
        occurs_at(s, w, p),
        forall|j: int| from <= j < p ==> !occurs_at(s, w, j),
    ensures
        spec_find(s, w, from) == Some(p),
{
    lemma_find_props(s, w, from);
    match spec_find(s, w, from) {
        Some(i) => {
            if i < p {
                assert(!occurs_at(s, w, i));
            }
            if i > p {
                assert(!occurs_at(s, w, p));
            }
        },
        None => {
            assert(!occurs_at(s, w, p));
        },
    }
}

/// Searching in a suffix finds the same occurrences, shifted.
pub proof fn lemma_find_shift(s: Seq<char>, w: Seq<char>, k: int, from: int)
    requires
        w.len() >= 1,
        0 <= k <= s.len(),
        k <= from,
    ensures
        spec_find(s, w, from) == match spec_find(s.skip(k), w, from - k) {
            Some(i) => Some(i + k),
            None => None::<int>,
        },
    decreases s.len() - from,
{
    let t = s.skip(k);
    if from + w.len() > s.len() {
    } else {
        assert(occurs_at(s, w, from) == occurs_at(t, w, from - k)) by {
            if 0 <= from - k && from - k + w.len() <= t.len() {
                assert(s.subrange(from, from + w.len() as int) =~= t.subrange(
                    from - k,
                    from - k + w.len() as int,
                ));
            }
        }
        if occurs_at(s, w, from) {
        } else {
            lemma_find_shift(s, w, k, from + 1);
        }
    }
}

/// First occurrence of `w` in `s` at or after `from`.
pub fn find_str_from(s: &str, w: &str, from: usize) -> (r: Option<usize>)
    requires
        w@.len() >= 1,
        from <= s@.len(),
    ensures
        match r {
            Some(i) => spec_find(s@, w@, from as int) == Some(i as int) && i < s@.len(),
            None => spec_find(s@, w@, from as int) is None,
        },
    decreases s@.len() - from,
{
    let slen = s.unicode_len();
    let wlen = w.unicode_len();
    if wlen > slen - from {
        return None;
    }
    if occurs_check(s, w, from) {
        Some(from)
    } else {
        find_str_from(s, w, from + 1)
    }
}

// ---------------------------------------------------------------------------
// Splitting and joining on a separator
// ---------------------------------------------------------------------------

/// The pieces of `s` between occurrences of the separator, left to right.
pub open spec fn spec_split(s: Seq<char>, sep: Seq<char>) -> Seq<Seq<char>>
    recommends
        sep.len() >= 1,
    decreases s.len()
        when sep.len() >= 1
        via spec_split_decreases
{
    match spec_find(s, sep, 0) {
        None => seq![s],
        Some(i) => seq![s.take(i)] + spec_split(s.skip(i + sep.len() as int), sep),
    }
}

#[via_fn]
proof fn spec_split_decreases(s: Seq<char>, sep: Seq<char>) {
    lemma_find_props(s, sep, 0);
}

/// No piece of a single-character split contains the separator.
pub proof fn lemma_split_pieces_clean(s: Seq<char>, sep: Seq<char>)
    requires
        sep.len() == 1,
    ensures
        forall|k: int| #![auto]
            0 <= k < spec_split(s, sep).len() ==> !spec_split(s, sep)[k].contains(sep[0]),
        spec_split(s, sep).len() >= 1,
    decreases s.len(),
{
    lemma_find_props(s, sep, 0);
    match spec_find(s, sep, 0) {
        None => {
            assert forall|i: int| 0 <= i < s.len() implies s[i] != sep[0] by {
                if s[i] == sep[0] {
                    assert(s.subrange(i, i + 1) =~= sep);
                    assert(occurs_at(s, sep, i));
                }
            }
            assert(!s.contains(sep[0]));
        },
        Some(i) => {
            let head = s.take(i);
            assert forall|j: int| 0 <= j < head.len() implies head[j] != sep[0] by {
                if head[j] == sep[0] {
                    assert(s.subrange(j, j + 1) =~= sep);
                    assert(occurs_at(s, sep, j));
                }
            }
            assert(!head.contains(sep[0]));
            lemma_split_pieces_clean(s.skip(i + 1), sep);
        },
    }
}

fn split_push(s: &str, sep: &str, start: usize, out: &mut Vec<String>)
    requires
        sep@.len() >= 1,
        start <= s@.len(),
    ensures
        final(out).deep_view() == old(out).deep_view() + spec_split(
            s@.skip(start as int),
            sep@,
        ),
    decreases s@.len() - start,
{
    proof {
        lemma_find_shift(s@, sep@, start as int, start as int);
    }
    match find_str_from(s, sep, start) {
        None => {
            let slen = s.unicode_len();
            let seg = s.substring_char(start, slen).to_owned();
            out.push(seg);
            proof {
                assert(s@.subrange(start as int, slen as int) =~= s@.skip(start as int));
                assert(out.deep_view() =~= old(out).deep_view() + spec_split(
                    s@.skip(start as int),
                    sep@,
                ));
            }
        },
        Some(i) => {
            let slen = s.unicode_len();
            proof {
                lemma_find_props(s@, sep@, start as int);
            }
            let seg = s.substring_char(start, i).to_owned();
            out.push(seg);
            let seplen = sep.unicode_len();
            proof {
                assert(i + seplen <= slen);
            }
            let ghost mid = out.deep_view();
            split_push(s, sep, i + seplen, out);
            proof {
                let t = s@.skip(start as int);
                let d = i - start;
                assert(t.take(d) =~= s@.subrange(start as int, i as int));
                assert(t.skip(d + sep@.len() as int) =~= s@.skip(i + sep@.len() as int));
                assert(mid =~= old(out).deep_view() + seq![t.take(d)]);
                assert(out.deep_view() =~= old(out).deep_view() + spec_split(t, sep@));
            }
        },
    }
}

/// Splits `s` on every occurrence of `sep`.
pub fn split_str(s: &str, sep: &str) -> (r: Vec<String>)
    requires
        sep@.len() >= 1,
    ensures
        r.deep_view() == spec_split(s@, sep@),
{
    let mut out: Vec<String> = Vec::new();
    split_push(s, sep, 0, &mut out);
    proof {
        assert(s@.skip(0) =~= s@);
        assert(out.deep_view() =~= spec_split(s@, sep@));
    }
    out
}

/// The pieces glued back together with the separator between them.
pub open spec fn spec_join(parts: Seq<Seq<char>>, sep: Seq<char>) -> Seq<char>
    decreases parts.len(),
{
    if parts.len() == 0 {
        Seq::empty()
    } else if parts.len() == 1 {
        parts[0]
    } else {
        spec_join(parts.drop_last(), sep) + sep + parts.last()
    }
}

/// `spec_join` peeled from the front instead of the back.
pub proof fn lemma_join_unfold_front(parts: Seq<Seq<char>>, sep: Seq<char>)
    requires
        parts.len() >= 2,
    ensures
        spec_join(parts, sep) == parts[0] + sep + spec_join(parts.drop_first(), sep),
    decreases parts.len(),
{
    if parts.len() == 2 {
        let dl = parts.drop_last();
        let df = parts.drop_first();
        assert(dl =~= seq![parts[0]]);
        assert(df =~= seq![parts[1]]);
        assert(spec_join(dl, sep) == dl[0]);
        assert(spec_join(df, sep) == df[0]);
        assert(spec_join(parts, sep) == spec_join(dl, sep) + sep + parts.last());
        assert(spec_join(parts, sep) =~= parts[0] + sep + spec_join(df, sep));
    } else {
        lemma_join_unfold_front(parts.drop_last(), sep);
        assert(parts.drop_last().drop_first() =~= parts.drop_first().drop_last());
        assert(parts.drop_last()[0] == parts[0]);
        assert(parts.drop_first().last() == parts.last());
        assert(spec_join(parts, sep) == spec_join(parts.drop_last(), sep) + sep + parts.last());
        assert((parts[0] + sep + spec_join(parts.drop_first().drop_last(), sep)) + sep
            + parts.last() =~= parts[0] + sep + (spec_join(parts.drop_first().drop_last(), sep)
            + sep + parts.last()));
    }
}

/// Joins the pieces with the separator between them.
pub fn join_str(parts: &Vec<String>, sep: &str) -> (r: String)
    ensures
        r@ == spec_join(parts.deep_view(), sep@),
{
    let mut r = String::new();
    let mut i: usize = 0;
    while i < parts.len()
        invariant
            i <= parts.len(),
            r@ == spec_join(parts.deep_view().take(i as int), sep@),
        decreases parts.len() - i,
    {
        if i > 0 {
            r.append(sep);
        }
        r.append(parts[i].as_str());
        proof {
            let pv = parts.deep_view();
            assert(pv.take(i + 1).drop_last() =~= pv.take(i as int));
            assert(pv.take(i + 1).last() == pv[i as int]);
            if i == 0 {
                assert(spec_join(pv.take(1), sep@) == pv[0]);
            }
        }
        i = i + 1;
    }
    proof {
        assert(parts.deep_view().take(parts.len() as int) =~= parts.deep_view());
    }
    r
}

/// Splitting a join on a single-character separator restores the pieces,
/// provided no piece contains the separator.
pub proof fn lemma_split_join_roundtrip(parts: Seq<Seq<char>>, sep: Seq<char>)
    requires
        sep.len() == 1,
        parts.len() >= 1,
        forall|k: int| #![auto] 0 <= k < parts.len() ==> !parts[k].contains(sep[0]),
    ensures
        spec_split(spec_join(parts, sep), sep) == parts,
    decreases parts.len(),
{
    let j = spec_join(parts, sep);
    if parts.len() == 1 {
        assert forall|p: int| true implies !occurs_at(j, sep, p) by {
            if occurs_at(j, sep, p) {
                assert(j.subrange(p, p + 1)[0] == j[p]);
                assert(j[p] == sep[0]);
                assert(parts[0].contains(sep[0]));
            }
        }
        lemma_find_props(j, sep, 0);
        assert(spec_find(j, sep, 0) is None);
        assert(spec_split(j, sep) =~= parts);
    } else {
        lemma_join_unfold_front(parts, sep);
        let head = parts[0];
        let rest = spec_join(parts.drop_first(), sep);
        assert(j == head + sep + rest);
        let p = head.len() as int;
        assert(j.subrange(p, p + 1) =~= sep);
        assert(occurs_at(j, sep, p));
        assert forall|q: int| 0 <= q < p implies !occurs_at(j, sep, q) by {
            if occurs_at(j, sep, q) {
                assert(j.subrange(q, q + 1)[0] == j[q]);
                assert(j[q] == head[q]);
                assert(head.contains(sep[0]));
            }
        }
        lemma_find_unique(j, sep, 0, p);
        assert(j.take(p) =~= head);
        assert(j.skip(p + 1) =~= rest);
        lemma_split_join_roundtrip(parts.drop_first(), sep);
        assert(spec_split(j, sep) =~= seq![head] + spec_split(rest, sep));
        assert(seq![head] + parts.drop_first() =~= parts);
    }
}

// ---------------------------------------------------------------------------
// Copies and comparisons of owned strings
// ---------------------------------------------------------------------------

/// A copy of the string with the same characters.
pub fn dup_string(s: &String) -> (r: String)
    ensures
        r@ == s@,
{
    s.clone()
}

/// A copy of the vector with the same characters in each place.
pub fn dup_string_vec(v: &Vec<String>) -> (r: Vec<String>)
    ensures
        r.deep_view() == v.deep_view(),
{
    let mut r: Vec<String> = Vec::new();
    proof {
        assert(r.deep_view() =~= v.deep_view().take(0));
    }
    let mut i: usize = 0;
    while i < v.len()
        invariant
            i <= v.len(),
            r.deep_view() == v.deep_view().take(i as int),
        decreases v.len() - i,
    {
        let ghost pre = r.deep_view();
        let ghost prev = r@;
        proof {
            assert(pre.len() == i as int);
            assert(prev.len() == i as int);
        }
        r.push(dup_string(&v[i]));
        proof {
            assert(r@ == prev.push(r@[i as int]));
            assert(r.deep_view()[i as int] == r@[i as int]@);
            assert(r@[i as int]@ == v.deep_view()[i as int]);
            assert forall|k: int| 0 <= k < i implies #[trigger] r.deep_view()[k] == pre[k] by {
                assert(r@[k] == prev[k]);
                assert(pre[k] == prev[k]@);
            }
            assert(r.deep_view() =~~= v.deep_view().take(i as int + 1));
        }
        i = i + 1;
    }
    proof {
        assert(v.deep_view().take(v.len() as int) =~= v.deep_view());
    }
    r
}

/// Character-wise equality of two string vectors.
pub fn str_vecs_eq(a: &Vec<String>, b: &Vec<String>) -> (r: bool)
    ensures
        r == (a.deep_view() == b.deep_view()),
{
    if a.len() != b.len() {
        proof {
            assert(a.deep_view().len() != b.deep_view().len());
        }
        return false;
    }
    let mut i: usize = 0;
    while i < a.len()
        invariant
            i <= a.len(),
            a.len() == b.len(),
            forall|k: int| 0 <= k < i ==> a.deep_view()[k] == b.deep_view()[k],
        decreases a.len() - i,
    {
        if !str_eq(a[i].as_str(), b[i].as_str()) {
            proof {
                assert(a.deep_view()[i as int] == a@[i as int]@);
                assert(b.deep_view()[i as int] == b@[i as int]@);
            }
            return false;
        }
        i = i + 1;
    }
    proof {
        assert(a.deep_view() =~= b.deep_view());
    }
    true
}

// ---------------------------------------------------------------------------
// Joining buffer lines into a text
// ---------------------------------------------------------------------------

/// The lines glued together, each one closed by a newline.
pub open spec fn spec_join_nl(lines: Seq<Seq<char>>) -> Seq<char>
    decreases lines.len(),
{
    if lines.len() == 0 {
        Seq::empty()
    } else {
        spec_join_nl(lines.drop_last()) + lines.last() + seq!['\n']
    }
}

/// Joins buffer lines into one text, a newline after every line.
pub fn join_lines_nl(lines: &Vec<String>) -> (r: String)
    ensures
        r@ == spec_join_nl(lines.deep_view()),
{
    let mut r = String::new();
    proof {
        assert(lines.deep_view().take(0) =~= Seq::<Seq<char>>::empty());
    }
    let mut i: usize = 0;
    while i < lines.len()
        invariant
            i <= lines.len(),
            r@ == spec_join_nl(lines.deep_view().take(i as int)),
        decreases lines.len() - i,
    {
        r.append(lines[i].as_str());
        r.append("\n");
        proof {
            reveal_strlit("\n");
            assert("\n"@ =~= seq!['\n']);
            let lv = lines.deep_view();
            assert(lv.take(i + 1).drop_last() =~= lv.take(i as int));
            assert(lv.take(i + 1).last() == lv[i as int]);
            assert(r@ =~= spec_join_nl(lv.take(i + 1)));
        }
        i = i + 1;
    }
    proof {
        assert(lines.deep_view().take(lines.len() as int) =~= lines.deep_view());
    }
    r
}

// ---------------------------------------------------------------------------
// Trimming ASCII whitespace
// ---------------------------------------------------------------------------

pub open spec fn spec_trim_start(s: Seq<char>) -> Seq<char>
    decreases s.len(),
{
    if s.len() > 0 && spec_is_space(s[0]) {
        spec_trim_start(s.drop_first())
    } else {
        s
    }
}

pub open spec fn spec_trim_end(s: Seq<char>) -> Seq<char>
    decreases s.len(),
{
    if s.len() > 0 && spec_is_space(s.last()) {
        spec_trim_end(s.drop_last())
    } else {
        s
    }
}

/// The string with leading and trailing ASCII whitespace removed.
pub open spec fn spec_trim(s: Seq<char>) -> Seq<char> {
    spec_trim_end(spec_trim_start(s))
}

proof fn lemma_trim_start_skip(s: Seq<char>, a: int)
    requires
        0 <= a <= s.len(),
        forall|j: int| 0 <= j < a ==> spec_is_space(s[j]),
        a == s.len() || !spec_is_space(s[a]),
    ensures
        spec_trim_start(s) == s.skip(a),
    decreases a,
{
    if a == 0 {
        assert(s.skip(0) =~= s);
    } else {
        lemma_trim_start_skip(s.drop_first(), a - 1);
        assert(s.drop_first().skip(a - 1) =~= s.skip(a));
    }
}

proof fn lemma_trim_end_take(s: Seq<char>, b: int)
    requires
        0 <= b <= s.len(),
        forall|j: int| b <= j < s.len() ==> spec_is_space(s[j]),
        b == 0 || !spec_is_space(s[b - 1]),
    ensures
        spec_trim_end(s) == s.take(b),
    decreases s.len(),
{
    if b == s.len() {
        assert(s.take(b) =~= s);
    } else {
        lemma_trim_end_take(s.drop_last(), b);
        assert(s.drop_last().take(b) =~= s.take(b));
    }
}

/// Removes leading and trailing ASCII whitespace.
pub fn trim_str(s: &str) -> (r: String)
    ensures
        r@ == spec_trim(s@),
{
    let len = s.unicode_len();
    let mut a: usize = 0;
    while a < len && is_space(s.get_char(a))
        invariant
            a <= len,
            len as nat == s@.len(),
            forall|j: int| 0 <= j < a ==> spec_is_space(s@[j]),
        decreases len - a,
    {
        a = a + 1;
    }
    let mut b: usize = len;
    while b > a && is_space(s.get_char(b - 1))
        invariant
            a <= b <= len,
            len as nat == s@.len(),
            forall|j: int| b <= j < len ==> spec_is_space(s@[j]),
            a == len || !spec_is_space(s@[a as int]),
        decreases b,
    {
        b = b - 1;
    }
    let r = s.substring_char(a, b).to_owned();
    proof {
        lemma_trim_start_skip(s@, a as int);
        let t = s@.skip(a as int);
        lemma_trim_end_take(t, b - a);
        assert(t.take(b - a) =~= s@.subrange(a as int, b as int));
    }
    r
}

} // verus!
