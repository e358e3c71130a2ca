//! Size totals keyed by a string (an extension label or a directory path),
//! and their listing largest first.

use vstd::prelude::*;
use crate::rank::{Ranked, sorted_desc, sort_by_rank_desc};

verus! {

broadcast use {
    vstd::seq_lib::group_to_multiset_ensures,
    vstd::multiset::group_multiset_axioms,
};

/// A (key, size) pair ranks by its size.
impl Ranked for (String, u64) {
    open spec fn rank(&self) -> nat {
        self.1 as nat
    }

    fn rank_of(&self) -> (r: u64) {
        self.1
    }
}

/// Sum of the sizes of the pairs whose key reads `k`.
pub open spec fn key_total(s: Seq<(String, u64)>, k: Seq<char>) -> nat
    decreases s.len(),
{
    if s.len() == 0 {
        0
    } else {
        key_total(s.drop_last(), k) + if s.last().0@ == k {
            s.last().1 as nat
        } else {
            0
        }
    }
}

/// Sum of all sizes.
pub open spec fn size_sum(s: Seq<(String, u64)>) -> nat
    decreases s.len(),
{
    if s.len() == 0 {
        0
    } else {
        size_sum(s.drop_last()) + s.last().1 as nat
    }
}

/// Some pair has key `k`.
pub open spec fn has_key(s: Seq<(String, u64)>, k: Seq<char>) -> bool {
    exists|i: int| 0 <= i < s.len() && #[trigger] s[i].0@ == k
}

/// No two pairs have the same key.
pub open spec fn distinct_keys(s: Seq<(String, u64)>) -> bool {
    forall|i: int, j: int| 0 <= i < j < s.len() ==> #[trigger] s[i].0@ != #[trigger] s[j].0@
}

/// `a` and `b` hold the same keys, with the same totals.
pub open spec fn same_totals(a: Seq<(String, u64)>, b: Seq<(String, u64)>) -> bool {
    &&& forall|k: Seq<char>| #[trigger] key_total(a, k) == key_total(b, k)
    &&& forall|k: Seq<char>| #[trigger] has_key(a, k) == has_key(b, k)
}

/// Totals split over concatenation.
pub proof fn lemma_key_total_append(a: Seq<(String, u64)>, b: Seq<(String, u64)>, k: Seq<char>)
    ensures
        key_total(a + b, k) == key_total(a, k) + key_total(b, k),
    decreases b.len(),
{
    if b.len() == 0 {
        assert(a + b =~= a);
    } else {
        assert((a + b).drop_last() =~= a + b.drop_last());
        lemma_key_total_append(a, b.drop_last(), k);
    }
}

/// Keys present in a concatenation are those of either part.
pub proof fn lemma_has_key_append(a: Seq<(String, u64)>, b: Seq<(String, u64)>, k: Seq<char>)
    ensures
        has_key(a + b, k) == (has_key(a, k) || has_key(b, k)),
{
    if has_key(a + b, k) {
        let i = choose|i: int| 0 <= i < (a + b).len() && #[trigger] (a + b)[i].0@ == k;
        if i < a.len() {
            assert(a[i].0@ == k);
        } else {
            assert(b[i - a.len()].0@ == k);
        }
    }
    if has_key(a, k) {
        let i = choose|i: int| 0 <= i < a.len() && #[trigger] a[i].0@ == k;
        assert((a + b)[i].0@ == k);
    }
    if has_key(b, k) {
        let i = choose|i: int| 0 <= i < b.len() && #[trigger] b[i].0@ == k;
        assert((a + b)[a.len() + i].0@ == k);
    }
}

/// Sums split over concatenation.
pub proof fn lemma_size_sum_append(a: Seq<(String, u64)>, b: Seq<(String, u64)>)
    ensures
        size_sum(a + b) == size_sum(a) + size_sum(b),
    decreases b.len(),
{
    if b.len() == 0 {
        assert(a + b =~= a);
    } else {
        assert((a + b).drop_last() =~= a + b.drop_last());
        lemma_size_sum_append(a, b.drop_last());
    }
}

/// A key's total is part of the sum of all sizes.
pub proof fn lemma_key_total_le_sum(s: Seq<(String, u64)>, k: Seq<char>)
    ensures
        key_total(s, k) <= size_sum(s),
    decreases s.len(),
{
    if s.len() > 0 {
        lemma_key_total_le_sum(s.drop_last(), k);
    }
}

/// The total of a single pair.
pub proof fn lemma_key_total_single(x: (String, u64), k: Seq<char>)
    ensures
        key_total(seq![x], k) == if x.0@ == k {
            x.1 as nat
        } else {
            0
        },
        size_sum(seq![x]) == x.1,
{
    reveal_with_fuel(key_total, 2);
    reveal_with_fuel(size_sum, 2);
    assert(seq![x].drop_last() =~= Seq::<(String, u64)>::empty());
    assert(seq![x].last() == x);
}

/// A key that no pair has totals zero.
pub proof fn lemma_key_total_absent(s: Seq<(String, u64)>, k: Seq<char>)
    requires
        !has_key(s, k),
    ensures
        key_total(s, k) == 0,
    decreases s.len(),
{
    if s.len() > 0 {
        assert(!has_key(s.drop_last(), k)) by {
            if has_key(s.drop_last(), k) {
                let i = choose|i: int| 0 <= i < s.drop_last().len() && #[trigger] s.drop_last()[i].0@ == k;
                assert(s[i].0@ == k);
            }
        }
        assert(s.last() == s[s.len() - 1]);
        lemma_key_total_absent(s.drop_last(), k);
    }
}

/// With distinct keys, the total of a key is the size of its one pair.
pub proof fn lemma_key_total_distinct(s: Seq<(String, u64)>, i: int)
    requires
        distinct_keys(s),
        0 <= i < s.len(),
    ensures
        key_total(s, s[i].0@) == s[i].1,
{
    let k = s[i].0@;
    let a = s.take(i);
    let b = s.skip(i + 1);
    assert(s =~= a + seq![s[i]] + b);
    assert(!has_key(a, k)) by {
        if has_key(a, k) {
            let j = choose|j: int| 0 <= j < a.len() && #[trigger] a[j].0@ == k;
            assert(s[j].0@ == s[i].0@);
        }
    }
    assert(!has_key(b, k)) by {
        if has_key(b, k) {
            let j = choose|j: int| 0 <= j < b.len() && #[trigger] b[j].0@ == k;
            assert(s[i + 1 + j].0@ == s[i].0@);
        }
    }
    lemma_key_total_absent(a, k);
    lemma_key_total_absent(b, k);
    lemma_key_total_append(a + seq![s[i]], b, k);
    lemma_key_total_append(a, seq![s[i]], k);
    lemma_key_total_single(s[i], k);
}

/// Removing one pair takes its size out of its key's total.
proof fn lemma_key_total_remove(s: Seq<(String, u64)>, j: int, k: Seq<char>)
    requires
        0 <= j < s.len(),
    ensures
        key_total(s, k) == key_total(s.remove(j), k) + if s[j].0@ == k {
            s[j].1 as nat
        } else {
            0
        },
{
    let a = s.take(j);
    let b = s.skip(j + 1);
    assert(s =~= a + seq![s[j]] + b);
    assert(s.remove(j) =~= a + b);
    lemma_key_total_append(a + seq![s[j]], b, k);
    lemma_key_total_append(a, seq![s[j]], k);
    lemma_key_total_append(a, b, k);
    lemma_key_total_single(s[j], k);
}

/// Totals depend only on which pairs there are, not on their order.
pub proof fn lemma_key_total_permutation(s1: Seq<(String, u64)>, s2: Seq<(String, u64)>, k: Seq<char>)
    requires
        s1.to_multiset() == s2.to_multiset(),
    ensures
        key_total(s1, k) == key_total(s2, k),
    decreases s1.len(),
{
    if s1.len() == 0 {
        assert(s2.to_multiset().len() == 0);
        assert(s2.len() == 0);
    } else {
        let x = s1.last();
        assert(s1 =~= s1.drop_last().push(x));
        assert(s2.to_multiset().count(x) > 0);
        assert(s2.contains(x));
        let j = choose|j: int| 0 <= j < s2.len() && s2[j] == x;
        assert(s2.remove(j).to_multiset() =~= s1.drop_last().to_multiset());
        lemma_key_total_permutation(s1.drop_last(), s2.remove(j), k);
        lemma_key_total_remove(s2, j, k);
    }
}

/// The sum of all sizes does not depend on the order of the pairs.
pub proof fn lemma_size_sum_permutation(s1: Seq<(String, u64)>, s2: Seq<(String, u64)>)
    requires
        s1.to_multiset() == s2.to_multiset(),
    ensures
        size_sum(s1) == size_sum(s2),
    decreases s1.len(),
{
    if s1.len() == 0 {
        assert(s2.to_multiset().len() == 0);
        assert(s2.len() == 0);
    } else {
        let x = s1.last();
        assert(s1 =~= s1.drop_last().push(x));
        assert(s2.to_multiset().count(x) > 0);
        assert(s2.contains(x));
        let j = choose|j: int| 0 <= j < s2.len() && s2[j] == x;
        assert(s2.remove(j).to_multiset() =~= s1.drop_last().to_multiset());
        lemma_size_sum_permutation(s1.drop_last(), s2.remove(j));
        let a = s2.take(j);
        let b = s2.skip(j + 1);
        assert(s2 =~= a + seq![s2[j]] + b);
        assert(s2.remove(j) =~= a + b);
        lemma_size_sum_append(a + seq![s2[j]], b);
        lemma_size_sum_append(a, seq![s2[j]]);
        lemma_size_sum_append(a, b);
        lemma_key_total_single(s2[j], seq![]);
    }
}

/// Keys present depend only on which pairs there are.
pub proof fn lemma_has_key_permutation(s1: Seq<(String, u64)>, s2: Seq<(String, u64)>, k: Seq<char>)
    requires
        s1.to_multiset() == s2.to_multiset(),
    ensures
        has_key(s1, k) == has_key(s2, k),
{
    if has_key(s1, k) {
        let i = choose|i: int| 0 <= i < s1.len() && #[trigger] s1[i].0@ == k;
        assert(s1.contains(s1[i]));
        assert(s2.to_multiset().count(s1[i]) > 0);
        assert(s2.contains(s1[i]));
        let j = choose|j: int| 0 <= j < s2.len() && s2[j] == s1[i];
        assert(s2[j].0@ == k);
    }
    if has_key(s2, k) {
        let i = choose|i: int| 0 <= i < s2.len() && #[trigger] s2[i].0@ == k;
        assert(s2.contains(s2[i]));
        assert(s1.to_multiset().count(s2[i]) > 0);
        assert(s1.contains(s2[i]));
        let j = choose|j: int| 0 <= j < s1.len() && s1[j] == s2[i];
        assert(s1[j].0@ == k);
    }
}

/// Size totals keyed by string, one pair per key.
pub struct SizeTally {
    entries: Vec<(String, u64)>,
}

impl View for SizeTally {
    type V = Seq<(String, u64)>;

    closed spec fn view(&self) -> Seq<(String, u64)> {
        self.entries@
    }
}

impl SizeTally {
    /// Holds at most one pair per key.
    pub open spec fn wf(&self) -> bool {
        distinct_keys(self@)
    }

    /// An empty tally.
    pub fn new() -> (t: Self)
        ensures
            t.wf(),
            t@ == Seq::<(String, u64)>::empty(),
    {
        SizeTally { entries: Vec::new() }
    }

    /// Number of keys.
    pub fn len(&self) -> (n: usize)
        ensures
            n == self@.len(),
    {
        self.entries.len()
    }

    /// The pairs of the tally.
    pub fn into_pairs(self) -> (r: Vec<(String, u64)>)
        ensures
            r@ == self@,
    {
        self.entries
    }

    /// Adds `amount` to the total of `key`, creating the key if needed.
    pub fn add(&mut self, key: String, amount: u64)
        requires
            old(self).wf(),
            key_total(old(self)@, key@) + amount <= u64::MAX,
        ensures
            final(self).wf(),
            forall|k: Seq<char>| #[trigger] key_total(final(self)@, k) == key_total(old(self)@, k) + if k == key@ {
                amount as nat
            } else {
                0
            },
            forall|k: Seq<char>| #[trigger] has_key(final(self)@, k) == (has_key(old(self)@, k) || k == key@),
            size_sum(final(self)@) == size_sum(old(self)@) + amount,
    {
        let ghost s0 = self.entries@;
        let mut i: usize = 0;
        while i < self.entries.len()
            invariant
                self.entries@ == s0,
                s0 == old(self)@,
                distinct_keys(s0),
                key_total(s0, key@) + amount <= u64::MAX,
                i <= s0.len(),
                forall|j: int| 0 <= j < i ==> #[trigger] s0[j].0@ != key@,
            decreases s0.len() - i,
        {
            if self.entries[i].0 == key {
                let current = self.entries[i].1;
                proof {
                    lemma_key_total_distinct(s0, i as int);
                }
                let ghost kv = key@;
                self.entries.set(i, (key, current + amount));
                proof {
                    let s1 = self.entries@;
                    assert(s1[i as int].0@ == kv);
                    assert(s0[i as int].0@ == kv);
                    assert(s1 =~= s0.remove(i as int).insert(i as int, s1[i as int]));
                    assert forall|k: Seq<char>| #[trigger] key_total(s1, k) == key_total(s0, k) + if k
                        == s1[i as int].0@ {
                        amount as nat
                    } else {
                        0
                    } by {
                        lemma_key_total_remove(s0, i as int, k);
                        lemma_key_total_remove(s1, i as int, k);
                        assert(s1.remove(i as int) =~= s0.remove(i as int));
                    }
                    assert forall|k: Seq<char>| #[trigger] has_key(s1, k) == (has_key(s0, k) || k
                        == s1[i as int].0@) by {
                        if has_key(s0, k) {
                            let j = choose|j: int| 0 <= j < s0.len() && #[trigger] s0[j].0@ == k;
                            assert(s1[j].0@ == k);
                        }
                        if has_key(s1, k) {
                            let j = choose|j: int| 0 <= j < s1.len() && #[trigger] s1[j].0@ == k;
                            assert(s0[j].0@ == k);
                        }
                    }
                    let a = s0.take(i as int);
                    let b = s0.skip(i as int + 1);
                    assert(s0 =~= a + seq![s0[i as int]] + b);
                    assert(s1 =~= a + seq![s1[i as int]] + b);
                    lemma_size_sum_append(a + seq![s0[i as int]], b);
                    lemma_size_sum_append(a, seq![s0[i as int]]);
                    lemma_size_sum_append(a + seq![s1[i as int]], b);
                    lemma_size_sum_append(a, seq![s1[i as int]]);
                    lemma_key_total_single(s0[i as int], key@);
                    lemma_key_total_single(s1[i as int], key@);
                    assert(self@ == s1);
                    assert(forall|k: Seq<char>| #[trigger] key_total(self@, k) == key_total(s0, k) + if k == kv {
                        amount as nat
                    } else {
                        0
                    });
                    assert(forall|k: Seq<char>| #[trigger] has_key(self@, k) == (has_key(s0, k) || k == kv));
                }
                return;
            }
            i = i + 1;
        }
        self.entries.push((key, amount));
        proof {
            let s1 = self.entries@;
            assert(s1.drop_last() =~= s0);
            assert forall|k: Seq<char>| #[trigger] has_key(s1, k) == (has_key(s0, k) || k == key@) by {
                if has_key(s0, k) {
                    let j = choose|j: int| 0 <= j < s0.len() && #[trigger] s0[j].0@ == k;
                    assert(s1[j].0@ == k);
                }
                if k == key@ {
                    assert(s1[s0.len() as int].0@ == k);
                }
            }
        }
    }

    /// Adds every total of `other` into this tally.
    pub fn absorb(&mut self, other: &SizeTally)
        requires
            old(self).wf(),
            other.wf(),
            forall|k: Seq<char>| #[trigger] key_total(old(self)@, k) + key_total(other@, k) <= u64::MAX,
        ensures
            final(self).wf(),
            forall|k: Seq<char>| #[trigger] key_total(final(self)@, k) == key_total(old(self)@, k)
                + key_total(other@, k),
            forall|k: Seq<char>| #[trigger] has_key(final(self)@, k) == (has_key(old(self)@, k) || has_key(other@, k)),
            size_sum(final(self)@) == size_sum(old(self)@) + size_sum(other@),
    {
        let ghost s0 = self@;
        let ghost o = other@;
        let n = other.entries.len();
        let mut i: usize = 0;
        while i < n
            invariant
                n == o.len(),
                o == other@,
                i <= n,
                self.wf(),
                distinct_keys(o),
                forall|k: Seq<char>| #[trigger] key_total(s0, k) + key_total(o, k) <= u64::MAX,
                forall|k: Seq<char>| #[trigger] key_total(self@, k) == key_total(s0, k) + key_total(
                    o.take(i as int),
                    k,
                ),
                forall|k: Seq<char>| #[trigger] has_key(self@, k) == (has_key(s0, k) || has_key(o.take(i as int), k)),
                size_sum(self@) == size_sum(s0) + size_sum(o.take(i as int)),
            decreases n - i,
        {
            let key = other.entries[i].0.clone();
            let amount = other.entries[i].1;
            proof {
                assert(o.take(i + 1) =~= o.take(i as int).push(o[i as int]));
                assert(o.take(i + 1).drop_last() =~= o.take(i as int));
                assert(o.take(i as int) + o.skip(i as int) =~= o);
                lemma_key_total_append(o.take(i as int), o.skip(i as int), key@);
                assert(key_total(o.skip(i as int), key@) >= amount) by {
                    assert(o.skip(i as int) =~= seq![o[i as int]] + o.skip(i + 1));
                    lemma_key_total_append(seq![o[i as int]], o.skip(i + 1), key@);
                    lemma_key_total_single(o[i as int], key@);
                }
            }
            self.add(key, amount);
            proof {
                assert forall|k: Seq<char>| #[trigger] has_key(o.take(i + 1), k) == (has_key(o.take(i as int), k)
                    || k == o[i as int].0@) by {
                    if has_key(o.take(i + 1), k) {
                        let j = choose|j: int| 0 <= j < o.take(i + 1).len() && #[trigger] o.take(i + 1)[j].0@ == k;
                        if j < i {
                            assert(o.take(i as int)[j].0@ == k);
                        }
                    }
                    if has_key(o.take(i as int), k) {
                        let j = choose|j: int| 0 <= j < o.take(i as int).len() && #[trigger] o.take(i as int)[j].0@ == k;
                        assert(o.take(i + 1)[j].0@ == k);
                    }
                    if k == o[i as int].0@ {
                        assert(o.take(i + 1)[i as int].0@ == k);
                    }
                }
            }
            i = i + 1;
        }
        proof {
            assert(o.take(n as int) =~= o);
        }
    }

    /// The pairs, largest total first.
    pub fn into_sorted(self) -> (r: Vec<(String, u64)>)
        requires
            self.wf(),
        ensures
            sorted_desc(r@),
            r@.len() == self@.len(),
            r@.to_multiset() == self@.to_multiset(),
            distinct_keys(r@),
            same_totals(r@, self@),
            size_sum(r@) == size_sum(self@),
    {
        let ghost s = self@;
        let r = sort_by_rank_desc(self.entries);
        proof {
            assert forall|k: Seq<char>| #[trigger] key_total(r@, k) == key_total(s, k) by {
                lemma_key_total_permutation(r@, s, k);
            }
            assert forall|k: Seq<char>| #[trigger] has_key(r@, k) == has_key(s, k) by {
                lemma_has_key_permutation(r@, s, k);
            }
            assert forall|i: int, j: int| 0 <= i < j < r@.len() implies #[trigger] r@[i].0@
                != #[trigger] r@[j].0@ by {
                lemma_distinct_pair_count(r@, s, i, j);
            }
            lemma_size_sum_permutation(r@, s);
        }
        r
    }
}

/// A permutation of a list with distinct keys has distinct keys.
proof fn lemma_distinct_pair_count(r: Seq<(String, u64)>, s: Seq<(String, u64)>, i: int, j: int)
    requires
        r.to_multiset() == s.to_multiset(),
        distinct_keys(s),
        0 <= i < j < r.len(),
    ensures
        r[i].0@ != r[j].0@,
{
    if r[i].0@ == r[j].0@ {
        assert(r.to_multiset().count(r[i]) > 0) by {
            assert(r.contains(r[i]));
        }
        assert(r.to_multiset().count(r[j]) > 0) by {
            assert(r.contains(r[j]));
        }
        assert(s.contains(r[i]));
        let si = choose|x: int| 0 <= x < s.len() && s[x] == r[i];
        assert(s.contains(r[j]));
        let sj = choose|x: int| 0 <= x < s.len() && s[x] == r[j];
        if si < sj {
            assert(s[si].0@ != s[sj].0@);
        } else if sj < si {
            assert(s[sj].0@ != s[si].0@);
        } else {
            lemma_count_two(r, i, j);
            lemma_count_one_distinct(s, si);
        }
    }
}

/// A value at two positions occurs at least twice.
proof fn lemma_count_two<T>(s: Seq<T>, i: int, j: int)
    requires
        0 <= i < j < s.len(),
        s[i] == s[j],
    ensures
        s.to_multiset().count(s[i]) >= 2,
{
    broadcast use vstd::seq_lib::lemma_multiset_commutative;

    let a = s.take(j);
    let b = s.skip(j);
    assert(s =~= a + b);
    assert(a.contains(s[i]));
    assert(b.contains(s[i])) by {
        assert(b[0] == s[j]);
    }
}

/// With distinct keys, each pair occurs once.
proof fn lemma_count_one_distinct(s: Seq<(String, u64)>, i: int)
    requires
        distinct_keys(s),
        0 <= i < s.len(),
    ensures
        s.to_multiset().count(s[i]) == 1,
    decreases s.len(),
{
    let x = s[i];
    if i == s.len() - 1 {
        let a = s.drop_last();
        assert(s =~= a.push(x));
        assert(!a.contains(x)) by {
            if a.contains(x) {
                let j = choose|j: int| 0 <= j < a.len() && a[j] == x;
                assert(s[j].0@ == s[i].0@);
            }
        }
    } else {
        let a = s.drop_last();
        assert(s =~= a.push(s.last()));
        assert(distinct_keys(a));
        lemma_count_one_distinct(a, i);
        assert(s.last() != x) by {
            assert(s[s.len() - 1].0@ != s[i].0@);
        }
    }
}

} // verus!
