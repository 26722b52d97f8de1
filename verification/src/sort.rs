//! Stable sorting, stated as a permutation that orders the items and keeps
//! equivalent items in the order they came in.
use vstd::prelude::*;
use vstd::multiset::Multiset;

verus! {

/// `le` orders all values: any two compare, and it is transitive.
pub open spec fn total_preorder<T>(le: spec_fn(T, T) -> bool) -> bool {
    &&& forall|a: T, b: T| #[trigger] le(a, b) || le(b, a)
    &&& forall|a: T, b: T, c: T| #[trigger] le(a, b) && #[trigger] le(b, c) ==> le(a, c)
}

/// Every item is `le` every later item.
pub open spec fn sorted_by<T>(s: Seq<T>, le: spec_fn(T, T) -> bool) -> bool {
    forall|i: int, j: int| 0 <= i < j < s.len() ==> #[trigger] le(s[i], s[j])
}

/// `p` maps each position of `out` to a distinct position of `inp` holding the
/// same item; `out` is sorted by `le`, and items that `le` holds equivalent
/// keep their order from `inp`.
pub open spec fn stable_witness<T>(
    out: Seq<T>,
    inp: Seq<T>,
    le: spec_fn(T, T) -> bool,
    p: Seq<int>,
) -> bool {
    &&& out.len() == inp.len()
    &&& p.len() == inp.len()
    &&& forall|i: int| #![trigger p[i]] 0 <= i < p.len() ==> 0 <= p[i] < inp.len() && out[i] == inp[p[i]]
    &&& forall|i: int, j: int| 0 <= i < j < p.len() ==> #[trigger] p[i] != #[trigger] p[j]
    &&& sorted_by(out, le)
    &&& forall|i: int, j: int|
        0 <= i < j < out.len() && #[trigger] le(out[j], out[i]) ==> p[i] < p[j]
}

/// `out` is `inp` stably sorted by `le`.
pub open spec fn stable_sort_of<T>(out: Seq<T>, inp: Seq<T>, le: spec_fn(T, T) -> bool) -> bool {
    &&& out.to_multiset() == inp.to_multiset()
    &&& exists|p: Seq<int>| stable_witness(out, inp, le, p)
}

/// Insertion sort: `v` stably sorted by the comparison `le`, whose results
/// are those of the spec relation `sle`.
pub fn stable_sort<T, F: Fn(&T, &T) -> bool>(
    v: Vec<T>,
    le: F,
    Ghost(sle): Ghost<spec_fn(T, T) -> bool>,
) -> (r: Vec<T>)
    requires
        forall|a: &T, b: &T| #[trigger] le.requires((a, b)),
        forall|a: &T, b: &T, x: bool| le.ensures((a, b), x) ==> x == sle(*a, *b),
        total_preorder(sle),
    ensures
        stable_sort_of(r@, v@, sle),
{
    let ghost orig = v@;
    let n = v.len();
    let mut src = v;
    let mut out: Vec<T> = Vec::new();
    let ghost mut p: Seq<int> = Seq::empty();
    let mut k: usize = 0;
    assert(orig.skip(0) =~= orig);
    assert(stable_witness(out@, orig.take(0), sle, p));
    assert(orig.take(0) =~= out@);
    while src.len() > 0
        invariant
            k + src.len() == orig.len(),
            orig.len() == n,
            src@ == orig.skip(k as int),
            stable_witness(out@, orig.take(k as int), sle, p),
            out@.to_multiset() == orig.take(k as int).to_multiset(),
            forall|a: &T, b: &T| #[trigger] le.requires((a, b)),
            forall|a: &T, b: &T, x: bool| le.ensures((a, b), x) ==> x == sle(*a, *b),
            total_preorder(sle),
        decreases src.len(),
    {
        let x = src.remove(0);
        assert(x == orig[k as int]);
        assert(src@ =~= orig.skip(k + 1));
        let mut j = out.len();
        while j > 0 && !le(&out[j - 1], &x)
            invariant
                j <= out.len(),
                forall|m: int| j <= m < out.len() ==> !sle(#[trigger] out@[m], x),
                forall|a: &T, b: &T| #[trigger] le.requires((a, b)),
                forall|a: &T, b: &T, x: bool| le.ensures((a, b), x) ==> x == sle(*a, *b),
            decreases j,
        {
            j -= 1;
        }
        let ghost old_out = out@;
        let ghost old_p = p;
        out.insert(j, x);
        proof {
            p = old_p.insert(j as int, k as int);
            let inp = orig.take(k + 1);
            assert(out@ =~= old_out.insert(j as int, x));
            assert forall|i: int| #![trigger p[i]] 0 <= i < p.len() implies 0 <= p[i] < inp.len()
                && out@[i] == inp[p[i]] by {
                if i < j {
                    assert(p[i] == old_p[i]);
                } else if i > j {
                    assert(p[i] == old_p[i - 1]);
                }
            }
            assert forall|a: int, b: int| 0 <= a < b < p.len() implies #[trigger] p[a]
                != #[trigger] p[b] by {
                if a < j && b > j {
                    assert(old_p[a] != old_p[b - 1]);
                } else if a > j {
                    assert(old_p[a - 1] != old_p[b - 1]);
                } else if b < j {
                    assert(old_p[a] != old_p[b]);
                } else if a == j {
                    assert(0 <= old_p[b - 1] < k);
                } else {
                    assert(0 <= old_p[a] < k);
                }
            }
            assert forall|a: int, b: int| 0 <= a < b < out@.len() implies #[trigger] sle(
                out@[a],
                out@[b],
            ) by {
                if b < j {
                    assert(sle(old_out[a], old_out[b]));
                } else if a > j {
                    assert(sle(old_out[a - 1], old_out[b - 1]));
                } else if a < j && b > j {
                    assert(sle(old_out[a], old_out[b - 1]));
                } else if b == j {
                    if a < j - 1 {
                        assert(sle(old_out[a], old_out[j - 1]));
                        assert(sle(old_out[j - 1], x));
                    } else {
                        assert(sle(old_out[j - 1], x));
                    }
                } else {
                    assert(!sle(old_out[b - 1], x));
                    assert(sle(x, old_out[b - 1]) || sle(old_out[b - 1], x));
                }
            }
            assert forall|a: int, b: int|
                0 <= a < b < out@.len() && #[trigger] sle(out@[b], out@[a]) implies p[a] < p[b] by {
                if b < j {
                    assert(old_p[a] < old_p[b]);
                } else if a > j {
                    assert(sle(old_out[b - 1], old_out[a - 1]));
                    assert(old_p[a - 1] < old_p[b - 1]);
                } else if a < j && b > j {
                    assert(sle(old_out[b - 1], old_out[a]));
                    if a < j - 1 {
                        assert(sle(old_out[a], old_out[j - 1]));
                    }
                    assert(sle(old_out[j - 1], x));
                    assert(sle(old_out[b - 1], x));
                } else if b == j {
                    assert(0 <= old_p[a] < k);
                } else {
                    assert(!sle(old_out[b - 1], x));
                }
            }
            assert(stable_witness(out@, inp, sle, p));
            assert(inp =~= orig.take(k as int).push(x));
            vstd::seq_lib::to_multiset_build(orig.take(k as int), x);
            vstd::seq_lib::to_multiset_insert(old_out, j as int, x);
        }
        k += 1;
    }
    assert(orig.take(k as int) =~= orig);
    out
}

/// The sum of `f` over the items of `s`.
pub open spec fn seq_sum<T>(s: Seq<T>, f: spec_fn(T) -> nat) -> nat
    decreases s.len(),
{
    if s.len() == 0 {
        0
    } else {
        seq_sum(s.drop_last(), f) + f(s.last())
    }
}

/// Removing the item at `i` takes `f(s[i])` off the sum.
pub proof fn lemma_sum_remove<T>(s: Seq<T>, f: spec_fn(T) -> nat, i: int)
    requires
        0 <= i < s.len(),
    ensures
        seq_sum(s, f) == seq_sum(s.remove(i), f) + f(s[i]),
    decreases s.len(),
{
    if i == s.len() - 1 {
        assert(s.remove(i) =~= s.drop_last());
    } else {
        lemma_sum_remove(s.drop_last(), f, i);
        assert(s.remove(i).drop_last() =~= s.drop_last().remove(i));
        assert(s.remove(i).last() == s.last());
    }
}

/// Sequences with the same items have the same sum.
pub proof fn lemma_sum_multiset<T>(a: Seq<T>, b: Seq<T>, f: spec_fn(T) -> nat)
    requires
        a.to_multiset() == b.to_multiset(),
    ensures
        seq_sum(a, f) == seq_sum(b, f),
    decreases a.len(),
{
    broadcast use vstd::seq_lib::group_to_multiset_ensures;

    if a.len() == 0 {
        assert(b.to_multiset().len() == 0);
    } else {
        let x = a.last();
        assert(a.to_multiset().count(x) > 0) by {
            assert(a.contains(x)) by {
                assert(a[a.len() - 1] == x);
            }
        }
        assert(b.contains(x));
        let i = choose|i: int| 0 <= i < b.len() && b[i] == x;
        assert(a.drop_last().push(x) =~= a);
        assert(a.drop_last().to_multiset() =~= a.to_multiset().remove(x));
        assert(b.remove(i).to_multiset() =~= b.to_multiset().remove(x));
        lemma_sum_multiset(a.drop_last(), b.remove(i), f);
        lemma_sum_remove(b, f, i);
    }
}

/// A stable sort carries over to images under `f` when `le` compares images.
pub proof fn lemma_stable_sort_map<T, U>(
    out: Seq<T>,
    inp: Seq<T>,
    le: spec_fn(T, T) -> bool,
    f: spec_fn(T) -> U,
    le2: spec_fn(U, U) -> bool,
)
    requires
        stable_sort_of(out, inp, le),
        forall|a: T, b: T| #[trigger] le(a, b) == le2(f(a), f(b)),
    ensures
        stable_sort_of(out.map_values(f), inp.map_values(f), le2),
{
    lemma_map_multiset(out, inp, f);
    let p = choose|p: Seq<int>| stable_witness(out, inp, le, p);
    let mo = out.map_values(f);
    let mi = inp.map_values(f);
    assert forall|i: int| #![trigger p[i]] 0 <= i < p.len() implies 0 <= p[i] < mi.len() && mo[i]
        == mi[p[i]] by {}
    assert forall|i: int, j: int| 0 <= i < j < mo.len() implies #[trigger] le2(mo[i], mo[j]) by {
        assert(le(out[i], out[j]));
    }
    assert forall|i: int, j: int| 0 <= i < j < mo.len() && #[trigger] le2(mo[j], mo[i]) implies p[i]
        < p[j] by {
        assert(le(out[j], out[i]));
    }
    assert(stable_witness(mo, mi, le2, p));
}

/// Sequences with the same items have images with the same items.
pub proof fn lemma_map_multiset<T, U>(a: Seq<T>, b: Seq<T>, f: spec_fn(T) -> U)
    requires
        a.to_multiset() == b.to_multiset(),
    ensures
        a.map_values(f).to_multiset() == b.map_values(f).to_multiset(),
    decreases a.len(),
{
    broadcast use vstd::seq_lib::group_to_multiset_ensures;

    if a.len() == 0 {
        assert(b.to_multiset().len() == 0);
        assert(a.map_values(f) =~= Seq::<U>::empty());
        assert(b.map_values(f) =~= Seq::<U>::empty());
    } else {
        let x = a.last();
        assert(a.to_multiset().count(x) > 0) by {
            assert(a.contains(x)) by {
                assert(a[a.len() - 1] == x);
            }
        }
        assert(b.contains(x));
        let i = choose|i: int| 0 <= i < b.len() && b[i] == x;
        assert(a.drop_last().push(x) =~= a);
        assert(a.drop_last().to_multiset() =~= a.to_multiset().remove(x));
        assert(b.remove(i).to_multiset() =~= b.to_multiset().remove(x));
        lemma_map_multiset(a.drop_last(), b.remove(i), f);
        assert(a.map_values(f) =~= a.drop_last().map_values(f).push(f(x)));
        assert(b.remove(i).map_values(f) =~= b.map_values(f).remove(i));
        assert(b.map_values(f)[i] == f(x));
        assert(b.map_values(f).remove(i).to_multiset() =~= b.map_values(f).to_multiset().remove(
            f(x),
        ));
        assert(b.map_values(f).to_multiset().count(f(x)) > 0) by {
            assert(b.map_values(f).contains(f(x)));
        }
    }
}

/// The union of `f` over the items of `s`.
pub open spec fn ms_sum<T, A>(s: Seq<T>, f: spec_fn(T) -> Multiset<A>) -> Multiset<A>
    decreases s.len(),
{
    if s.len() == 0 {
        Multiset::empty()
    } else {
        ms_sum(s.drop_last(), f).add(f(s.last()))
    }
}

/// Removing the item at `i` takes `f(s[i])` out of the union.
pub proof fn lemma_ms_sum_remove<T, A>(s: Seq<T>, f: spec_fn(T) -> Multiset<A>, i: int)
    requires
        0 <= i < s.len(),
    ensures
        ms_sum(s, f) == ms_sum(s.remove(i), f).add(f(s[i])),
    decreases s.len(),
{
    if i == s.len() - 1 {
        assert(s.remove(i) =~= s.drop_last());
    } else {
        lemma_ms_sum_remove(s.drop_last(), f, i);
        assert(s.remove(i).drop_last() =~= s.drop_last().remove(i));
        assert(s.remove(i).last() == s.last());
        assert(ms_sum(s, f) =~= ms_sum(s.remove(i), f).add(f(s[i])));
    }
}

/// Sequences with the same items have the same union.
pub proof fn lemma_ms_sum_multiset<T, A>(a: Seq<T>, b: Seq<T>, f: spec_fn(T) -> Multiset<A>)
    requires
        a.to_multiset() == b.to_multiset(),
    ensures
        ms_sum(a, f) == ms_sum(b, f),
    decreases a.len(),
{
    broadcast use vstd::seq_lib::group_to_multiset_ensures;

    if a.len() == 0 {
        assert(b.to_multiset().len() == 0);
    } else {
        let x = a.last();
        assert(a.to_multiset().count(x) > 0) by {
            assert(a.contains(x)) by {
                assert(a[a.len() - 1] == x);
            }
        }
        assert(b.contains(x));
        let i = choose|i: int| 0 <= i < b.len() && b[i] == x;
        assert(a.drop_last().push(x) =~= a);
        assert(a.drop_last().to_multiset() =~= a.to_multiset().remove(x));
        assert(b.remove(i).to_multiset() =~= b.to_multiset().remove(x));
        lemma_ms_sum_multiset(a.drop_last(), b.remove(i), f);
        lemma_ms_sum_remove(b, f, i);
    }
}

/// Unions over item-wise equal images are equal.
pub proof fn lemma_ms_sum_pointwise<T, U, A>(
    a: Seq<T>,
    b: Seq<U>,
    f: spec_fn(T) -> Multiset<A>,
    g: spec_fn(U) -> Multiset<A>,
)
    requires
        a.len() == b.len(),
        forall|i: int| 0 <= i < a.len() ==> f(#[trigger] a[i]) == g(b[i]),
    ensures
        ms_sum(a, f) == ms_sum(b, g),
    decreases a.len(),
{
    if a.len() > 0 {
        lemma_ms_sum_pointwise(a.drop_last(), b.drop_last(), f, g);
        assert(f(a[a.len() - 1]) == g(b[b.len() - 1]));
    }
}

/// Some position of `p` holds `v`.
spec fn hits(p: Seq<int>, v: int) -> bool {
    exists|i: int| 0 <= i < p.len() && p[i] == v
}

/// A witness of a stable sort reaches every position of the input.
proof fn lemma_witness_onto(p: Seq<int>, n: int)
    requires
        p.len() == n,
        forall|i: int| #![trigger p[i]] 0 <= i < n ==> 0 <= p[i] < n,
        forall|i: int, j: int| 0 <= i < j < n ==> #[trigger] p[i] != #[trigger] p[j],
    ensures
        forall|v: int| 0 <= v < n ==> #[trigger] hits(p, v),
{
    assert(p.no_duplicates()) by {
        assert forall|i: int, j: int| 0 <= i < p.len() && 0 <= j < p.len() && i != j implies p[i]
            != p[j] by {
            if i > j {
                assert(p[j] != p[i]);
            }
        }
    }
    p.unique_seq_to_set();
    vstd::set_lib::lemma_int_range(0, n);
    let range = vstd::set_lib::set_int_range(0, n);
    assert(p.to_set().subset_of(range)) by {
        assert forall|v: int| p.to_set().contains(v) implies range.contains(v) by {
            let i = choose|i: int| 0 <= i < p.len() && p[i] == v;
        }
    }
    vstd::set_lib::lemma_len_subset(p.to_set(), range);
    vstd::set_lib::lemma_subset_equality(p.to_set(), range);
    assert forall|v: int| 0 <= v < n implies #[trigger] hits(p, v) by {
        assert(range.contains(v));
        assert(p.to_set().contains(v));
    }
}

/// The witnesses of two stable sorts of the same input agree on the first `m`
/// positions.
proof fn lemma_witnesses_agree<T>(
    a: Seq<T>,
    b: Seq<T>,
    inp: Seq<T>,
    le: spec_fn(T, T) -> bool,
    pa: Seq<int>,
    pb: Seq<int>,
    m: int,
)
    requires
        stable_witness(a, inp, le, pa),
        stable_witness(b, inp, le, pb),
        0 <= m <= inp.len(),
    ensures
        forall|k: int| 0 <= k < m ==> #[trigger] pa[k] == pb[k],
    decreases m,
{
    if m > 0 {
        let n = inp.len() as int;
        lemma_witnesses_agree(a, b, inp, le, pa, pb, m - 1);
        let k = m - 1;
        let x = pa[k];
        let y = pb[k];
        if x != y {
            lemma_witness_onto(pa, n);
            lemma_witness_onto(pb, n);
            assert(hits(pb, x));
            assert(hits(pa, y));
            let kb = choose|i: int| 0 <= i < pb.len() && pb[i] == x;
            let ka = choose|i: int| 0 <= i < pa.len() && pa[i] == y;
            if kb < k {
                assert(pa[kb] == pb[kb]);
                assert(pa[kb] != pa[k]);
            }
            if ka < k {
                assert(pa[ka] == pb[ka]);
                assert(pb[ka] != pb[k]);
            }
            assert(kb > k && ka > k);
            assert(le(b[k], b[kb]));
            assert(le(a[k], a[ka]));
            assert(b[k] == inp[y] && b[kb] == inp[x]);
            assert(a[k] == inp[x] && a[ka] == inp[y]);
            assert(pa[k] < pa[ka]);
            assert(pb[k] < pb[kb]);
        }
    }
}

/// A stable sort has one result: two stable sorts of the same input by the
/// same order are equal.
pub proof fn lemma_stable_sort_unique<T>(a: Seq<T>, b: Seq<T>, inp: Seq<T>, le: spec_fn(T, T) -> bool)
    requires
        stable_sort_of(a, inp, le),
        stable_sort_of(b, inp, le),
    ensures
        a == b,
{
    let pa = choose|p: Seq<int>| stable_witness(a, inp, le, p);
    let pb = choose|p: Seq<int>| stable_witness(b, inp, le, p);
    lemma_witnesses_agree(a, b, inp, le, pa, pb, inp.len() as int);
    assert forall|i: int| 0 <= i < a.len() implies a[i] == b[i] by {
        assert(pa[i] == pb[i]);
    }
    assert(a =~= b);
}

} // verus!
