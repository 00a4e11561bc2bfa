use vstd::prelude::*;

verus! {

broadcast use vstd::seq_lib::group_to_multiset_ensures;

/// Insertion of `x` into a run `s` from the right: `x` lands after the
/// last element at most `x`, so equal elements keep their order.
pub open spec fn spec_insert_by<V>(s: Seq<V>, x: V, le: spec_fn(V, V) -> bool) -> Seq<V>
    decreases s.len(),
{
    if s.len() == 0 {
        seq![x]
    } else if le(s.last(), x) {
        s.push(x)
    } else {
        spec_insert_by(s.drop_last(), x, le).push(s.last())
    }
}

/// Insertion sort, element by element from the left.
pub open spec fn spec_sort_by<V>(s: Seq<V>, le: spec_fn(V, V) -> bool) -> Seq<V>
    decreases s.len(),
{
    if s.len() == 0 {
        Seq::empty()
    } else {
        spec_insert_by(spec_sort_by(s.drop_last(), le), s.last(), le)
    }
}

/// Each neighbouring pair is ordered.
pub open spec fn adj_sorted_by<V>(s: Seq<V>, le: spec_fn(V, V) -> bool) -> bool {
    forall|i: int| 0 <= i < s.len() - 1 ==> le(#[trigger] s[i], s[i + 1])
}

/// The relation holds in one direction or the other for every pair drawn
/// from the sequences at hand.
pub open spec fn total_on<V>(le: spec_fn(V, V) -> bool) -> bool {
    forall|a: V, b: V| #[trigger] le(a, b) || #[trigger] le(b, a)
}

pub proof fn lemma_insert_by_multiset<V>(s: Seq<V>, x: V, le: spec_fn(V, V) -> bool)
    ensures
        spec_insert_by(s, x, le).to_multiset() == s.to_multiset().insert(x),
        spec_insert_by(s, x, le).len() == s.len() + 1,
    decreases s.len(),
{
    if s.len() == 0 {
        assert(seq![x] =~= Seq::<V>::empty().push(x));
        assert(Seq::<V>::empty().push(x).to_multiset() =~= Seq::<V>::empty().to_multiset().insert(
            x,
        ));
        assert(s.to_multiset() =~= Seq::<V>::empty().to_multiset());
    } else if le(s.last(), x) {
    } else {
        lemma_insert_by_multiset(s.drop_last(), x, le);
        let inner = spec_insert_by(s.drop_last(), x, le);
        assert(inner.push(s.last()).to_multiset() =~= inner.to_multiset().insert(s.last()));
        assert(s.drop_last().push(s.last()) =~= s);
        assert(s.to_multiset() =~= s.drop_last().to_multiset().insert(s.last()));
        assert(inner.to_multiset().insert(s.last()) =~= s.drop_last().to_multiset().insert(
            x,
        ).insert(s.last()));
        assert(s.drop_last().to_multiset().insert(x).insert(s.last())
            =~= s.drop_last().to_multiset().insert(s.last()).insert(x));
    }
}

pub proof fn lemma_insert_by_adjacent<V>(s: Seq<V>, x: V, le: spec_fn(V, V) -> bool)
    requires
        adj_sorted_by(s, le),
        total_on(le),
    ensures
        adj_sorted_by(spec_insert_by(s, x, le), le),
        spec_insert_by(s, x, le).last() == x || (s.len() > 0 && spec_insert_by(s, x, le).last()
            == s.last()),
    decreases s.len(),
{
    if s.len() == 0 {
    } else if le(s.last(), x) {
        let r = s.push(x);
        assert forall|i: int| 0 <= i < r.len() - 1 implies le(#[trigger] r[i], r[i + 1]) by {
            if i < s.len() - 1 {
                assert(le(s[i], s[i + 1]));
            }
        }
    } else {
        assert forall|i: int| 0 <= i < s.drop_last().len() - 1 implies le(
            #[trigger] s.drop_last()[i],
            s.drop_last()[i + 1],
        ) by {
            assert(le(s[i], s[i + 1]));
        }
        lemma_insert_by_adjacent(s.drop_last(), x, le);
        let inner = spec_insert_by(s.drop_last(), x, le);
        lemma_insert_by_multiset(s.drop_last(), x, le);
        let r = inner.push(s.last());
        assert(le(x, s.last()));
        assert forall|i: int| 0 <= i < r.len() - 1 implies le(#[trigger] r[i], r[i + 1]) by {
            if i < inner.len() - 1 {
                assert(le(inner[i], inner[i + 1]));
            } else {
                // the pair at the seam: inner's last element against s.last()
                assert(r[i] == inner.last());
                if inner.last() == x {
                } else {
                    assert(s.drop_last().len() > 0 && inner.last() == s.drop_last().last());
                    assert(le(s.drop_last().last(), s.last())) by {
                        assert(le(s[s.len() - 2], s[s.len() - 1]));
                    }
                }
            }
        }
    }
}

pub proof fn lemma_sort_by_props<V>(s: Seq<V>, le: spec_fn(V, V) -> bool)
    requires
        total_on(le),
    ensures
        spec_sort_by(s, le).to_multiset() == s.to_multiset(),
        spec_sort_by(s, le).len() == s.len(),
        adj_sorted_by(spec_sort_by(s, le), le),
    decreases s.len(),
{
    if s.len() == 0 {
    } else {
        lemma_sort_by_props(s.drop_last(), le);
        let inner = spec_sort_by(s.drop_last(), le);
        lemma_insert_by_multiset(inner, s.last(), le);
        lemma_insert_by_adjacent(inner, s.last(), le);
        assert(s.drop_last().push(s.last()) =~= s);
        assert(s.to_multiset() =~= s.drop_last().to_multiset().insert(s.last()));
    }
}

/// Where the scan from the right stops, the insertion is a splice.
proof fn lemma_insert_by_splice<V>(s: Seq<V>, x: V, le: spec_fn(V, V) -> bool, j: int)
    requires
        0 <= j <= s.len(),
        forall|k: int| j <= k < s.len() ==> !le(#[trigger] s[k], x),
        j == 0 || le(s[j - 1], x),
    ensures
        spec_insert_by(s, x, le) == s.take(j) + seq![x] + s.skip(j),
    decreases s.len(),
{
    if s.len() == 0 {
        assert(spec_insert_by(s, x, le) =~= s.take(0) + seq![x] + s.skip(0));
    } else if le(s.last(), x) {
        assert(j == s.len());
        assert(s.push(x) =~= s.take(j) + seq![x] + s.skip(j));
    } else {
        assert(j <= s.len() - 1);
        assert forall|k: int| j <= k < s.drop_last().len() implies !le(
            #[trigger] s.drop_last()[k],
            x,
        ) by {
            assert(s.drop_last()[k] == s[k]);
        }
        if j > 0 {
            assert(s.drop_last()[j - 1] == s[j - 1]);
        }
        lemma_insert_by_splice(s.drop_last(), x, le, j);
        assert((s.drop_last().take(j) + seq![x] + s.drop_last().skip(j)).push(s.last()) =~= s.take(
            j,
        ) + seq![x] + s.skip(j));
    }
}

/// A comparison closure that decides the relation `le` on deep views.
pub open spec fn cmp_decides<T: DeepView, F: Fn(&T, &T) -> bool>(
    cmp: F,
    le: spec_fn(T::V, T::V) -> bool,
) -> bool {
    &&& forall|a: &T, b: &T| #[trigger] call_requires(cmp, (a, b))
    &&& forall|a: &T, b: &T, ret: bool|
        call_ensures(cmp, (a, b), ret) ==> ret == le(a.deep_view(), b.deep_view())
}

/// Inserts `x` into an already built run, keeping the insertion-sort
/// shape.
fn insert_sorted<T: DeepView, F: Fn(&T, &T) -> bool + Copy>(
    v: &mut Vec<T>,
    x: T,
    cmp: F,
    Ghost(le): Ghost<spec_fn(T::V, T::V) -> bool>,
)
    requires
        cmp_decides(cmp, le),
    ensures
        final(v).deep_view() == spec_insert_by(old(v).deep_view(), x.deep_view(), le),
{
    let mut j: usize = v.len();
    while j > 0 && !cmp(&v[j - 1], &x)
        invariant
            j <= v.len(),
            cmp_decides(cmp, le),
            *v == *old(v),
            forall|k: int| j <= k < v.deep_view().len() ==> !le(
                #[trigger] v.deep_view()[k],
                x.deep_view(),
            ),
        decreases j,
    {
        proof {
            assert(v.deep_view()[j - 1] == v@[j - 1].deep_view());
        }
        j = j - 1;
    }
    proof {
        if j > 0 {
            assert(v.deep_view()[j - 1] == v@[j - 1].deep_view());
        }
    }
    let ghost pre = v.deep_view();
    let ghost gx = x.deep_view();
    let ghost gj = j as int;
    v.insert(j, x);
    proof {
        assert forall|k: int| 0 <= k < v.deep_view().len() implies v.deep_view()[k] == (pre.take(
            gj,
        ) + seq![gx] + pre.skip(gj))[k] by {
            if k < gj {
                assert(v@[k] == old(v)@[k]);
            } else if k == gj {
                assert(v@[k] == x);
            } else {
                assert(v@[k] == old(v)@[k - 1]);
            }
        }
        assert(v.deep_view() =~= pre.take(gj) + seq![gx] + pre.skip(gj));
        lemma_insert_by_splice(pre, gx, le, gj);
    }
}

/// Sorts by the relation `le` that `cmp` decides: the result is a
/// permutation of the input, neighbouring pairs are ordered, and equal
/// elements keep their relative order (insertion from the right).
pub fn sort_by_rel<T: DeepView, F: Fn(&T, &T) -> bool + Copy>(
    v: Vec<T>,
    cmp: F,
    Ghost(le): Ghost<spec_fn(T::V, T::V) -> bool>,
) -> (r: Vec<T>)
    requires
        cmp_decides(cmp, le),
    ensures
        r.deep_view() == spec_sort_by(v.deep_view(), le),
{
    let mut out: Vec<T> = Vec::new();
    let mut rest = v;
    let ghost whole = rest.deep_view();
    proof {
        assert(out.deep_view() =~= spec_sort_by(whole.take(0), le));
        assert(rest.deep_view() =~= whole.skip(0));
    }
    // consume from the front, inserting each element into the sorted run
    while rest.len() > 0
        invariant
            cmp_decides(cmp, le),
            rest.len() <= whole.len(),
            rest.deep_view() == whole.skip(whole.len() - rest.len()),
            out.deep_view() == spec_sort_by(whole.take(whole.len() - rest.len()), le),
        decreases rest.len(),
    {
        let ghost i = whole.len() - rest.len();
        let ghost prest = rest.deep_view();
        let x = rest.remove(0);
        proof {
            assert(x.deep_view() == prest[0]);
            assert(prest[0] == whole[i]);
            assert(whole.take(i + 1).drop_last() =~= whole.take(i));
            assert(whole.take(i + 1).last() == whole[i]);
            assert(rest.deep_view() =~~= prest.drop_first());
            assert(prest.drop_first() =~= whole.skip(i + 1));
        }
        insert_sorted(&mut out, x, cmp, Ghost(le));
    }
    proof {
        assert(whole.take(whole.len() as int) =~= whole);
    }
    out
}

} // verus!
