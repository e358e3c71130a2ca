//! Ordering by a numeric rank (largest first) and the "k largest" selection
//! used for the largest files and the largest directories.

use vstd::prelude::*;
use vstd::multiset::Multiset;

verus! {

broadcast use {
    vstd::seq_lib::group_to_multiset_ensures,
    vstd::seq_lib::lemma_multiset_commutative,
    vstd::multiset::group_multiset_axioms,
};

/// A value with a numeric rank; larger ranks come first.
pub trait Ranked: Sized {
    /// The rank of the value.
    spec fn rank(&self) -> nat;

    /// Reads the rank.
    fn rank_of(&self) -> (r: u64)
        ensures
            r == self.rank(),
    ;
}

/// Ranks never increase along the sequence.
pub open spec fn sorted_desc<T: Ranked>(s: Seq<T>) -> bool {
    forall|i: int, j: int| 0 <= i < j < s.len() ==> #[trigger] s[i].rank() >= #[trigger] s[j].rank()
}

/// `top` holds the `k` values of largest rank in `pool` (all of `pool` when
/// it has fewer than `k`), largest first. Among values of equal rank at the
/// cut, which ones are kept is left open.
pub open spec fn is_top<T: Ranked>(top: Seq<T>, pool: Seq<T>, k: nat) -> bool {
    &&& sorted_desc(top)
    &&& top.to_multiset().subset_of(pool.to_multiset())
    &&& top.len() == if pool.len() < k { pool.len() } else { k }
    &&& (k > 0 && top.len() == k) ==> forall|y: T|
        y.rank() > top[k - 1].rank() ==> #[trigger] top.to_multiset().count(y)
            == pool.to_multiset().count(y)
}

/// A sub-multiset is no larger.
pub proof fn lemma_subset_len<T>(m1: Multiset<T>, m2: Multiset<T>)
    requires
        m1.subset_of(m2),
    ensures
        m1.len() <= m2.len(),
{
    let d = m2.sub(m1);
    assert(m1.add(d) =~= m2);
}

/// A sub-multiset of the same size is the whole multiset.
pub proof fn lemma_subset_same_len<T>(m1: Multiset<T>, m2: Multiset<T>)
    requires
        m1.subset_of(m2),
        m1.len() == m2.len(),
    ensures
        m1 == m2,
{
    let d = m2.sub(m1);
    assert(m1.add(d) =~= m2);
    assert(d.len() == 0);
    assert forall|v: T| #[trigger] d.count(v) == 0 by {
        if d.count(v) > 0 {
            vstd::multiset::axiom_count_le_len(d, v);
        }
    }
    assert(m1 =~= m2);
}

/// Every element of a sequence occurs in it.
pub proof fn lemma_index_in_multiset<T>(s: Seq<T>, i: int)
    requires
        0 <= i < s.len(),
    ensures
        s.to_multiset().count(s[i]) > 0,
{
    assert(s.contains(s[i]));
}

/// Inserts `x` into a list sorted by rank, keeping it sorted; `x` goes after
/// the values of equal rank.
pub fn insert_by_rank<T: Ranked>(out: &mut Vec<T>, x: T)
    requires
        sorted_desc(old(out)@),
    ensures
        sorted_desc(final(out)@),
        final(out)@.to_multiset() == old(out)@.to_multiset().insert(x),
        final(out)@.len() == old(out)@.len() + 1,
{
    let w = x.rank_of();
    let mut j: usize = 0;
    while j < out.len() && out[j].rank_of() >= w
        invariant
            j <= out@.len(),
            out@ == old(out)@,
            sorted_desc(out@),
            forall|i: int| 0 <= i < j ==> #[trigger] out@[i].rank() >= w,
        decreases out@.len() - j,
    {
        j = j + 1;
    }
    let ghost before = out@;
    out.insert(j, x);
    proof {
        assert(j < before.len() ==> before[j as int].rank() < w);
        assert forall|a: int, b: int| 0 <= a < b < out@.len() implies #[trigger] out@[a].rank()
            >= #[trigger] out@[b].rank() by {
            if a < j && b == j {
            } else if a < j && b > j {
                assert(out@[b] == before[b - 1]);
            } else if a == j {
                assert(out@[b] == before[b - 1]);
                assert(before[j as int].rank() >= before[b - 1].rank());
            } else if a > j {
                assert(out@[a] == before[a - 1]);
                assert(out@[b] == before[b - 1]);
            }
        }
    }
}

/// Sorts by rank, largest first.
pub fn sort_by_rank_desc<T: Ranked>(v: Vec<T>) -> (r: Vec<T>)
    ensures
        sorted_desc(r@),
        r@.to_multiset() == v@.to_multiset(),
        r@.len() == v@.len(),
{
    let mut rest = v;
    let mut out: Vec<T> = Vec::new();
    proof {
        assert(out@.to_multiset() =~= Multiset::empty());
    }
    while rest.len() > 0
        invariant
            sorted_desc(out@),
            out@.to_multiset().add(rest@.to_multiset()) == v@.to_multiset(),
            out@.len() + rest@.len() == v@.len(),
        decreases rest@.len(),
    {
        let ghost before = rest@;
        let x = rest.pop().unwrap();
        proof {
            assert(before =~= rest@.push(x));
        }
        insert_by_rank(&mut out, x);
        proof {
            assert(out@.to_multiset().add(rest@.to_multiset()) =~= v@.to_multiset());
        }
    }
    proof {
        assert(rest@.to_multiset() =~= Multiset::empty());
        assert(out@.to_multiset() =~= v@.to_multiset());
    }
    out
}

/// The empty list is the top of the empty pool.
pub proof fn lemma_top_of_empty<T: Ranked>(k: nat)
    ensures
        is_top(Seq::<T>::empty(), Seq::<T>::empty(), k),
{
    assert(Seq::<T>::empty().to_multiset() =~= Multiset::empty());
}

/// Offers one more value to a top-`k` list: afterwards the list is the top
/// `k` of the pool with that value added.
pub fn offer<T: Ranked>(top: &mut Vec<T>, x: T, k: usize, Ghost(pool): Ghost<Seq<T>>)
    requires
        k > 0,
        is_top(old(top)@, pool, k as nat),
    ensures
        is_top(final(top)@, pool.push(x), k as nat),
{
    let ghost t0 = top@;
    proof {
        assert(pool.push(x).to_multiset() =~= pool.to_multiset().insert(x));
    }
    if top.len() < k {
        proof {
            lemma_subset_same_len(t0.to_multiset(), pool.to_multiset());
        }
        insert_by_rank(top, x);
        proof {
            assert(top@.to_multiset() =~= pool.push(x).to_multiset());
        }
    } else {
        let last = top[k - 1].rank_of();
        if x.rank_of() > last {
            let ghost r = t0[k - 1];
            let _ = top.pop();
            proof {
                assert(t0 =~= top@.push(r));
                assert(top@.to_multiset() =~= t0.to_multiset().remove(r));
            }
            insert_by_rank(top, x);
            proof {
                let t1 = top@;
                assert(t1.to_multiset() =~= t0.to_multiset().remove(r).insert(x));
                assert(t1.to_multiset().subset_of(pool.push(x).to_multiset()));
                // the new cut is not below the old one
                lemma_index_in_multiset(t1, k - 1);
                let e = t1[k - 1];
                if e != x {
                    assert(t0.to_multiset().count(e) > 0);
                    assert(t0.contains(e));
                    let i = choose|i: int| 0 <= i < t0.len() && t0[i] == e;
                    assert(t0[i].rank() >= t0[k - 1].rank());
                }
                assert(t1[k - 1].rank() >= t0[k - 1].rank());
                assert forall|y: T| y.rank() > t1[k - 1].rank() implies #[trigger] t1.to_multiset().count(y)
                    == pool.push(x).to_multiset().count(y) by {
                    assert(y != r);
                }
            }
        } else {
            proof {
                assert forall|y: T| y.rank() > t0[k - 1].rank() implies #[trigger] t0.to_multiset().count(y)
                    == pool.push(x).to_multiset().count(y) by {
                    assert(y != x);
                }
            }
        }
    }
}

/// In a list sorted by rank, no value beyond position `n` ranks above the
/// value at position `n`; so the values ranking above it all lie in the
/// first `n` positions.
proof fn lemma_above_cut_in_prefix<T: Ranked>(s: Seq<T>, n: int, y: T)
    requires
        sorted_desc(s),
        0 <= n < s.len(),
        y.rank() > s[n].rank(),
    ensures
        s.to_multiset().count(y) == s.take(n).to_multiset().count(y),
{
    assert(s =~= s.take(n) + s.skip(n));
    assert(!s.skip(n).contains(y)) by {
        if s.skip(n).contains(y) {
            let j = choose|j: int| 0 <= j < s.skip(n).len() && s.skip(n)[j] == y;
            assert(s[n + j].rank() <= s[n].rank());
        }
    }
}

/// If a sorted list holds (as a multiset) `k` values all ranking above `t`,
/// its value at position `k - 1` ranks above `t` too.
proof fn lemma_kth_at_least<T: Ranked>(s: Seq<T>, a: Seq<T>, k: int, t: nat)
    requires
        sorted_desc(s),
        0 < k <= s.len(),
        a.len() == k,
        a.to_multiset().subset_of(s.to_multiset()),
        forall|i: int| 0 <= i < a.len() ==> #[trigger] a[i].rank() > t,
    ensures
        s[k - 1].rank() > t,
{
    if s[k - 1].rank() <= t {
        let p = |e: T| e.rank() > t;
        let m = s.to_multiset().filter(p);
        // every value of `a` ranks above t, so `a` is inside the filtered multiset
        assert(a.to_multiset().subset_of(m)) by {
            assert forall|v: T| a.to_multiset().count(v) <= #[trigger] m.count(v) by {
                if a.to_multiset().count(v) > 0 {
                    assert(a.contains(v));
                    let i = choose|i: int| 0 <= i < a.len() && a[i] == v;
                    assert(p(v));
                }
            }
        }
        // and the filtered multiset lies in the first k - 1 positions
        assert(m.subset_of(s.take(k - 1).to_multiset())) by {
            assert forall|v: T| m.count(v) <= #[trigger] s.take(k - 1).to_multiset().count(v) by {
                if p(v) {
                    lemma_above_cut_in_prefix(s, k - 1, v);
                }
            }
        }
        lemma_subset_len(a.to_multiset(), m);
        lemma_subset_len(m, s.take(k - 1).to_multiset());
        assert(s.take(k - 1).len() == k - 1);
    }
}

/// Merges two top-`k` lists: the result is the top `k` of the union of
/// their pools.
pub fn merge_tops<T: Ranked>(
    a: Vec<T>,
    b: Vec<T>,
    k: usize,
    Ghost(pa): Ghost<Seq<T>>,
    Ghost(pb): Ghost<Seq<T>>,
) -> (r: Vec<T>)
    requires
        k > 0,
        is_top(a@, pa, k as nat),
        is_top(b@, pb, k as nat),
    ensures
        is_top(r@, pa + pb, k as nat),
{
    let ghost sa = a@;
    let ghost sb = b@;
    let mut all = a;
    let mut other = b;
    all.append(&mut other);
    let mut sorted = sort_by_rank_desc(all);
    let ghost s = sorted@;
    sorted.truncate(k);
    proof {
        let pool = pa + pb;
        let c = sa + sb;
        assert(s.to_multiset() == c.to_multiset());
        assert(c.to_multiset() =~= sa.to_multiset().add(sb.to_multiset()));
        assert(pool.to_multiset() =~= pa.to_multiset().add(pb.to_multiset()));
        let r = sorted@;
        assert(s =~= r + s.skip(r.len() as int));
        assert(r.to_multiset().subset_of(s.to_multiset()));
        assert(c.to_multiset().subset_of(pool.to_multiset()));
        if c.len() < k {
            lemma_subset_same_len(sa.to_multiset(), pa.to_multiset());
            lemma_subset_same_len(sb.to_multiset(), pb.to_multiset());
        }
        if r.len() == k {
            let t = r[k - 1].rank();
            assert(r[k - 1] == s[k - 1]);
            assert forall|y: T| y.rank() > t implies #[trigger] r.to_multiset().count(y)
                == pool.to_multiset().count(y) by {
                lemma_above_cut_in_prefix(s, k - 1, y);
                assert(s.take(k - 1) =~= r.take(k - 1));
                lemma_above_cut_in_prefix(r, k - 1, y);
                // a value ranking above the cut was kept in full by both lists
                if sa.len() == k && y.rank() <= sa[k - 1].rank() {
                    assert forall|i: int| 0 <= i < sa.len() implies #[trigger] sa[i].rank() > t by {
                        assert(sa[i].rank() >= sa[k - 1].rank());
                    }
                    assert(sa.to_multiset().subset_of(s.to_multiset()));
                    lemma_kth_at_least(s, sa, k as int, t);
                }
                if sb.len() == k && y.rank() <= sb[k - 1].rank() {
                    assert forall|i: int| 0 <= i < sb.len() implies #[trigger] sb[i].rank() > t by {
                        assert(sb[i].rank() >= sb[k - 1].rank());
                    }
                    assert(sb.to_multiset().subset_of(s.to_multiset()));
                    lemma_kth_at_least(s, sb, k as int, t);
                }
                if sa.len() < k {
                    lemma_subset_same_len(sa.to_multiset(), pa.to_multiset());
                }
                if sb.len() < k {
                    lemma_subset_same_len(sb.to_multiset(), pb.to_multiset());
                }
            }
        }
    }
    sorted
}

/// Which values are the largest depends only on which values the pool
/// holds, not on the order they arrived in.
pub proof fn lemma_top_order_irrelevant<T: Ranked>(top: Seq<T>, p1: Seq<T>, p2: Seq<T>, k: nat)
    requires
        p1.to_multiset() == p2.to_multiset(),
        is_top(top, p1, k),
    ensures
        is_top(top, p2, k),
{
    vstd::seq_lib::to_multiset_len(p1);
    vstd::seq_lib::to_multiset_len(p2);
}

/// How many values of `s` have rank at least `r`.
pub open spec fn count_at_least<T: Ranked>(s: Seq<T>, r: nat) -> nat
    decreases s.len(),
{
    if s.len() == 0 {
        0
    } else {
        count_at_least(s.drop_last(), r) + if s.last().rank() >= r { 1nat } else { 0nat }
    }
}

/// Removing one value takes it out of the count.
proof fn lemma_count_at_least_remove<T: Ranked>(s: Seq<T>, j: int, r: nat)
    requires
        0 <= j < s.len(),
    ensures
        count_at_least(s, r) == count_at_least(s.remove(j), r) + if s[j].rank() >= r { 1nat } else { 0nat },
    decreases s.len(),
{
    if j == s.len() - 1 {
        assert(s.remove(j) =~= s.drop_last());
    } else {
        lemma_count_at_least_remove(s.drop_last(), j, r);
        assert(s.remove(j).drop_last() =~= s.drop_last().remove(j));
        assert(s.remove(j).last() == s.last());
    }
}

/// A sequence holding, rank by rank from `r` up, no more copies of each
/// value than another counts no more values of rank at least `r`.
proof fn lemma_count_at_least_le<T: Ranked>(s1: Seq<T>, s2: Seq<T>, r: nat)
    requires
        forall|y: T| y.rank() >= r ==> #[trigger] s1.to_multiset().count(y) <= s2.to_multiset().count(y),
    ensures
        count_at_least(s1, r) <= count_at_least(s2, r),
    decreases s1.len(),
{
    if s1.len() > 0 {
        let x = s1.last();
        let s1p = s1.drop_last();
        assert(s1 =~= s1p.push(x));
        assert(s1.to_multiset() =~= s1p.to_multiset().insert(x));
        if x.rank() >= r {
            assert(s1.to_multiset().count(x) > 0);
            assert(s1.to_multiset().count(x) <= s2.to_multiset().count(x));
            assert(s2.contains(x));
            let j = choose|j: int| 0 <= j < s2.len() && s2[j] == x;
            let s2p = s2.remove(j);
            assert(s2p.to_multiset() == s2.to_multiset().remove(x));
            assert forall|y: T| y.rank() >= r implies #[trigger] s1p.to_multiset().count(y)
                <= s2p.to_multiset().count(y) by {
                assert(s1.to_multiset().count(y) <= s2.to_multiset().count(y));
            }
            lemma_count_at_least_le(s1p, s2p, r);
            lemma_count_at_least_remove(s2, j, r);
        } else {
            assert forall|y: T| y.rank() >= r implies #[trigger] s1p.to_multiset().count(y)
                <= s2.to_multiset().count(y) by {
                assert(s1.to_multiset().count(y) <= s2.to_multiset().count(y));
            }
            lemma_count_at_least_le(s1p, s2, r);
        }
    }
}

/// In a list sorted largest first, the values of rank at least `r` are
/// exactly the first `count_at_least(s, r)`.
proof fn lemma_count_at_least_sorted<T: Ranked>(s: Seq<T>, r: nat)
    requires
        sorted_desc(s),
    ensures
        count_at_least(s, r) <= s.len(),
        forall|i: int| 0 <= i < s.len() ==> (#[trigger] s[i].rank() >= r <==> i < count_at_least(s, r)),
    decreases s.len(),
{
    if s.len() > 0 {
        let sp = s.drop_last();
        assert forall|i: int, j: int| 0 <= i < j < sp.len() implies #[trigger] sp[i].rank()
            >= #[trigger] sp[j].rank() by {
            assert(s[i].rank() >= s[j].rank());
        }
        lemma_count_at_least_sorted(sp, r);
        assert forall|i: int| 0 <= i < s.len() implies (#[trigger] s[i].rank() >= r <==> i < count_at_least(
            s,
            r,
        )) by {
            if i < sp.len() {
                assert(sp[i] == s[i]);
                if s.last().rank() >= r {
                    assert(s[i].rank() >= s[s.len() - 1].rank());
                    if count_at_least(sp, r) < sp.len() {
                        let m = count_at_least(sp, r) as int;
                        assert(sp[m] == s[m]);
                        assert(s[m].rank() >= s[s.len() - 1].rank());
                    }
                }
            }
        }
    }
}

/// Two lists that both hold the `k` largest values of one pool show the
/// same ranks, position by position: which of several values of equal rank
/// at the cut are kept may differ, the ranks shown may not.
pub proof fn lemma_tops_agree<T: Ranked>(t1: Seq<T>, t2: Seq<T>, pool: Seq<T>, k: nat)
    requires
        is_top(t1, pool, k),
        is_top(t2, pool, k),
    ensures
        t1.len() == t2.len(),
        forall|i: int| 0 <= i < t1.len() ==> #[trigger] t1[i].rank() == t2[i].rank(),
{
    vstd::seq_lib::to_multiset_len(t1);
    vstd::seq_lib::to_multiset_len(t2);
    vstd::seq_lib::to_multiset_len(pool);
    let n = t1.len();
    assert forall|r: nat| #[trigger] count_at_least(t1, r) == count_at_least(t2, r) by {
        lemma_count_at_least_le(t1, pool, r);
        lemma_count_at_least_le(t2, pool, r);
        lemma_count_at_least_sorted(t1, r);
        lemma_count_at_least_sorted(t2, r);
        if pool.len() <= k {
            lemma_subset_same_len(t1.to_multiset(), pool.to_multiset());
            lemma_subset_same_len(t2.to_multiset(), pool.to_multiset());
            lemma_count_at_least_le(pool, t1, r);
            lemma_count_at_least_le(pool, t2, r);
        } else if k > 0 {
            let c1 = t1[k - 1].rank();
            let c2 = t2[k - 1].rank();
            if c1 < c2 {
                lemma_count_at_least_le(pool, t1, c2);
                lemma_count_at_least_le(t2, pool, c2);
                lemma_count_at_least_sorted(t1, c2);
                lemma_count_at_least_sorted(t2, c2);
                assert(t2[k - 1].rank() >= c2);
                assert(false);
            }
            if c2 < c1 {
                lemma_count_at_least_le(pool, t2, c1);
                lemma_count_at_least_le(t1, pool, c1);
                lemma_count_at_least_sorted(t1, c1);
                lemma_count_at_least_sorted(t2, c1);
                assert(t1[k - 1].rank() >= c1);
                assert(false);
            }
            if r > c1 {
                lemma_count_at_least_le(pool, t1, r);
                lemma_count_at_least_le(pool, t2, r);
            } else {
                assert(t1[k - 1].rank() >= r);
                assert(t2[k - 1].rank() >= r);
            }
        }
    }
    assert forall|i: int| 0 <= i < n implies #[trigger] t1[i].rank() == t2[i].rank() by {
        let r1 = t1[i].rank();
        let r2 = t2[i].rank();
        lemma_count_at_least_sorted(t1, r1);
        lemma_count_at_least_sorted(t2, r1);
        lemma_count_at_least_sorted(t1, r2);
        lemma_count_at_least_sorted(t2, r2);
        assert(count_at_least(t1, r1) == count_at_least(t2, r1));
        assert(count_at_least(t1, r2) == count_at_least(t2, r2));
    }
}

} // verus!
