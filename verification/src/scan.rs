//! Aggregation of the files a directory walk finds: the largest files, the
//! total size per extension and per directory, and the final results.
//!
//! A walk may be split among workers: each records into its own
//! accumulator, and accumulators are merged.

use vstd::prelude::*;
use crate::models::{FileEntry, ScanResults};
use crate::paths::{
    is_separator, no_separator, network_form, below_by_slash,
    lowercase, to_lowercase, path_extension, path_parent, path_starts_with, plain_extension_at, plain_parent_at,
    surely_within, surely_outside,
};
use crate::rank::{
    Ranked, is_top, sorted_desc, offer, merge_tops, lemma_top_of_empty, lemma_top_order_irrelevant, lemma_tops_agree,
};
use crate::tally::{
    SizeTally,
    key_total,
    size_sum,
    has_key,
    distinct_keys,
    same_totals,
    lemma_key_total_append,
    lemma_key_total_le_sum,
    lemma_has_key_append,
    lemma_size_sum_append,
    lemma_key_total_absent,
    lemma_key_total_single,
};

verus! {

broadcast use {
    vstd::seq_lib::group_to_multiset_ensures,
    vstd::multiset::group_multiset_axioms,
};

/// How many of the largest files a scan keeps.
pub const TOP_FILES: usize = 100;

/// How many of the largest directories a scan reports.
pub const TOP_DIRS: usize = 20;

/// The label of files without an extension.
pub open spec fn no_extension_label() -> Seq<char> {
    seq!['n', 'o', ' ', 'e', 'x', 't', 'e', 'n', 's', 'i', 'o', 'n']
}

/// Sum of the sizes of the files.
pub open spec fn files_size(files: Seq<FileEntry>) -> nat
    decreases files.len(),
{
    if files.len() == 0 {
        0
    } else {
        files_size(files.drop_last()) + files.last().size as nat
    }
}

/// One (extension label, size) pair per file.
pub open spec fn ext_events(files: Seq<FileEntry>) -> Seq<(String, u64)> {
    files.map_values(|f: FileEntry| (f.extension, f.size))
}

/// `chain` lists `dir` and then ancestors of it, each the previous one
/// without its final component: all non-empty, each a proper prefix of
/// the one before.
pub open spec fn is_ancestor_chain(chain: Seq<String>, dir: Seq<char>) -> bool {
    &&& forall|m: int| 0 <= m < chain.len() ==> #[trigger] chain[m]@.len() > 0
    &&& chain.len() > 0 ==> chain[0]@ == dir
    &&& forall|m: int, n: int| 0 <= m < n < chain.len() ==> #[trigger] chain[n]@.len() < #[trigger] chain[m]@.len()
    &&& forall|m: int| 0 <= m < chain.len() - 1 ==> #[trigger] chain[m + 1]@ == chain[m]@.take(chain[m + 1]@.len() as int)
}

/// One (directory, size) pair for each directory of a chain.
pub open spec fn chain_events(chain: Seq<String>, size: u64) -> Seq<(String, u64)> {
    chain.map_values(|d: String| (d, size))
}

/// The sizes of `dirs` carried to every directory of the matching chain.
pub open spec fn spread(dirs: Seq<(String, u64)>, chains: Seq<Seq<String>>) -> Seq<(String, u64)>
    decreases dirs.len(),
{
    if dirs.len() == 0 {
        Seq::empty()
    } else {
        spread(dirs.drop_last(), chains) + chain_events(chains[dirs.len() - 1], dirs.last().1)
    }
}

/// No directory occurs twice in the chain.
pub open spec fn distinct_views(chain: Seq<String>) -> bool {
    forall|m: int, n: int| 0 <= m < n < chain.len() ==> #[trigger] chain[m]@ != #[trigger] chain[n]@
}

/// In a chain without repeats, a directory collects the size at most once.
pub proof fn lemma_chain_events_total(chain: Seq<String>, size: u64, d: Seq<char>)
    requires
        distinct_views(chain),
    ensures
        key_total(chain_events(chain, size), d) == if exists|m: int| 0 <= m < chain.len() && #[trigger] chain[m]@ == d {
            size as nat
        } else {
            0
        },
    decreases chain.len(),
{
    let ev = chain_events(chain, size);
    if chain.len() == 0 {
    } else {
        let c = chain.drop_last();
        assert(distinct_views(c));
        lemma_chain_events_total(c, size, d);
        assert(ev.drop_last() =~= chain_events(c, size));
        let x = chain.last();
        assert(ev.last() == (x, size));
        if x@ == d {
            assert(!(exists|m: int| 0 <= m < c.len() && #[trigger] c[m]@ == d)) by {
                if exists|m: int| 0 <= m < c.len() && #[trigger] c[m]@ == d {
                    let m = choose|m: int| 0 <= m < c.len() && #[trigger] c[m]@ == d;
                    assert(chain[m]@ != chain[chain.len() - 1]@);
                }
            }
            assert(chain[chain.len() - 1]@ == d);
        } else {
            if exists|m: int| 0 <= m < chain.len() && #[trigger] chain[m]@ == d {
                let m = choose|m: int| 0 <= m < chain.len() && #[trigger] chain[m]@ == d;
                assert(c[m]@ == d);
            }
            if exists|m: int| 0 <= m < c.len() && #[trigger] c[m]@ == d {
                let m = choose|m: int| 0 <= m < c.len() && #[trigger] c[m]@ == d;
                assert(chain[m]@ == d);
            }
        }
    }
}

/// A directory's propagated total is at most the sum of the sizes spread.
pub proof fn lemma_spread_bound(dirs: Seq<(String, u64)>, chains: Seq<Seq<String>>, d: Seq<char>)
    requires
        chains.len() == dirs.len(),
        forall|i: int| 0 <= i < chains.len() ==> distinct_views(#[trigger] chains[i]),
    ensures
        key_total(spread(dirs, chains), d) <= size_sum(dirs),
    decreases dirs.len(),
{
    if dirs.len() > 0 {
        let n = dirs.len() - 1;
        lemma_spread_bound(dirs.drop_last(), chains.drop_last(), d);
        lemma_spread_prefix(dirs.drop_last(), chains, chains.drop_last());
        lemma_key_total_append(spread(dirs.drop_last(), chains), chain_events(chains[n], dirs.last().1), d);
        lemma_chain_events_total(chains[n], dirs.last().1, d);
    }
}

/// When each directory's chain starts with the directory itself, every
/// directory keeps at least its own size in the spread.
pub proof fn lemma_spread_covers(dirs: Seq<(String, u64)>, chains: Seq<Seq<String>>, d: Seq<char>)
    requires
        dirs.len() <= chains.len(),
        forall|i: int| 0 <= i < dirs.len() ==> distinct_views(#[trigger] chains[i]),
        forall|i: int| 0 <= i < dirs.len() ==> #[trigger] chains[i].len() > 0 && chains[i][0]@ == dirs[i].0@,
    ensures
        key_total(spread(dirs, chains), d) >= key_total(dirs, d),
        has_key(dirs, d) ==> has_key(spread(dirs, chains), d),
    decreases dirs.len(),
{
    if dirs.len() > 0 {
        let n = dirs.len() - 1;
        let front = dirs.drop_last();
        assert forall|i: int| 0 <= i < front.len() implies #[trigger] chains[i].len() > 0 && chains[i][0]@
            == front[i].0@ by {
            assert(front[i] == dirs[i]);
        }
        lemma_spread_covers(front, chains, d);
        let ev = chain_events(chains[n], dirs.last().1);
        lemma_key_total_append(spread(front, chains), ev, d);
        lemma_has_key_append(spread(front, chains), ev, d);
        lemma_chain_events_total(chains[n], dirs.last().1, d);
        assert(chains[n].len() > 0 && chains[n][0]@ == dirs[n].0@);
        assert(ev[0].0 == chains[n][0]);
        if dirs.last().0@ == d {
            assert(chains[n][0]@ == d);
            assert(ev[0].0@ == d);
        }
        if has_key(dirs, d) {
            let x = choose|x: int| 0 <= x < dirs.len() && #[trigger] dirs[x].0@ == d;
            if x < n {
                assert(front[x].0@ == d);
            } else {
                assert(ev[0].0@ == d);
            }
        }
    }
}

/// Only the first `dirs.len()` chains matter to the spread.
pub proof fn lemma_spread_prefix(dirs: Seq<(String, u64)>, c1: Seq<Seq<String>>, c2: Seq<Seq<String>>)
    requires
        dirs.len() <= c1.len(),
        dirs.len() <= c2.len(),
        forall|i: int| 0 <= i < dirs.len() ==> #[trigger] c1[i] == c2[i],
    ensures
        spread(dirs, c1) == spread(dirs, c2),
    decreases dirs.len(),
{
    if dirs.len() > 0 {
        lemma_spread_prefix(dirs.drop_last(), c1, c2);
    }
}

/// One step of the walk up from a directory, given the platform's answers
/// for the directory `current` reached: whether it lies inside the root
/// (`inside_root`) and its parent (`parent`). The directory joins the chain
/// exactly when it is non-empty and inside the root; the walk then goes on
/// to the parent, and otherwise stops.
pub fn walk_step(chain: &mut Vec<String>, current: String, inside_root: bool, parent: Option<String>) -> (next:
    Option<String>)
    ensures
        inside_root && current@.len() > 0 ==> final(chain)@ == old(chain)@.push(current) && next == parent,
        !(inside_root && current@.len() > 0) ==> final(chain)@ == old(chain)@ && next is None,
{
    if inside_root && !current.as_str().is_empty() {
        chain.push(current);
        parent
    } else {
        None
    }
}

/// A chain grows into a chain by a shorter prefix of its last directory.
proof fn lemma_ancestor_chain_push(chain: Seq<String>, dir: Seq<char>, next: String)
    requires
        is_ancestor_chain(chain, dir),
        chain.len() == 0 ==> next@ == dir,
        chain.len() > 0 ==> next@.len() < chain.last()@.len() && next@ == chain.last()@.take(next@.len() as int),
        next@.len() > 0,
    ensures
        is_ancestor_chain(chain.push(next), dir),
{
    let c = chain.push(next);
    assert(c.last() == next);
    assert forall|m: int, n: int| 0 <= m < n < c.len() implies #[trigger] c[n]@.len() < #[trigger] c[m]@.len() by {
        if n == c.len() - 1 && m < n {
            assert(c[m] == chain[m]);
            if m < chain.len() - 1 {
                assert(chain[m]@.len() > chain.last()@.len());
            }
        } else {
            assert(c[m] == chain[m] && c[n] == chain[n]);
        }
    }
    assert forall|m: int| 0 <= m < c.len() - 1 implies #[trigger] c[m + 1]@ == c[m]@.take(c[m + 1]@.len() as int) by {
        if m == c.len() - 2 {
            assert(c[m] == chain.last());
        } else {
            assert(c[m] == chain[m]);
            assert(c[m + 1] == chain[m + 1]);
        }
    }
    assert forall|m: int| 0 <= m < c.len() implies #[trigger] c[m]@.len() > 0 by {
        if m < chain.len() {
            assert(c[m] == chain[m]);
        }
    }
}

/// `chain` walks up towards `root` as far as every platform agrees: each
/// directory after the first is followed by its parent wherever the parent
/// is read alike on every platform (`plain_parent_at`), none after the
/// first lies surely outside `root`, and the walk does not stop before a
/// parent that surely lies inside `root`.
pub open spec fn walks_up(chain: Seq<String>, root: Seq<char>) -> bool {
    &&& forall|m: int, k: int|
        0 <= m < chain.len() - 1 && #[trigger] plain_parent_at(chain[m]@, k) ==> chain[m + 1]@ == chain[m]@.take(k)
    &&& forall|m: int| 1 <= m < chain.len() ==> !surely_outside(#[trigger] chain[m]@, root)
    &&& forall|k: int|
        chain.len() > 0 && #[trigger] plain_parent_at(chain.last()@, k) ==> !surely_within(chain.last()@.take(k), root)
}

/// A directory name every platform reads alike: non-empty, without
/// separators, ending in neither `:` nor `.`.
pub open spec fn plain_component(c: Seq<char>) -> bool {
    &&& c.len() > 0
    &&& no_separator(c)
    &&& c.last() != ':'
    &&& c.last() != '.'
}

/// A scan root every platform reads alike: non-empty, not a network form,
/// ending in neither a separator, `:` nor `.`.
pub open spec fn plain_root(root: Seq<char>) -> bool {
    &&& root.len() > 0
    &&& !is_separator(root.last())
    &&& root.last() != ':'
    &&& root.last() != '.'
    &&& !network_form(root)
}

/// `root` followed by `/` and each of `comps` in turn.
pub open spec fn joined(root: Seq<char>, comps: Seq<Seq<char>>) -> Seq<char>
    decreases comps.len(),
{
    if comps.len() == 0 {
        root
    } else {
        joined(root, comps.drop_last()) + seq!['/'] + comps.last()
    }
}

/// `d` is a plain `root` or lies below it through plain components.
pub open spec fn plainly_under(d: Seq<char>, root: Seq<char>) -> bool {
    &&& plain_root(root)
    &&& exists|comps: Seq<Seq<char>>|
        (forall|i: int| 0 <= i < comps.len() ==> plain_component(#[trigger] comps[i])) && #[trigger] joined(root, comps)
            == d
}

/// A plain root followed by plain components keeps the root in front, a
/// `/` right after it, and a plain end.
proof fn lemma_joined_shape(root: Seq<char>, comps: Seq<Seq<char>>)
    requires
        plain_root(root),
        forall|i: int| 0 <= i < comps.len() ==> plain_component(#[trigger] comps[i]),
    ensures
        joined(root, comps).len() >= root.len(),
        joined(root, comps).take(root.len() as int) == root,
        comps.len() > 0 ==> joined(root, comps).len() > root.len() && joined(root, comps)[root.len() as int] == '/',
        !is_separator(joined(root, comps).last()),
        joined(root, comps).last() != ':',
        joined(root, comps).last() != '.',
        !network_form(joined(root, comps)),
    decreases comps.len(),
{
    if comps.len() > 0 {
        let front = comps.drop_last();
        assert forall|i: int| 0 <= i < front.len() implies plain_component(#[trigger] front[i]) by {
            assert(front[i] == comps[i]);
        }
        lemma_joined_shape(root, front);
        let p = joined(root, front);
        let c = comps.last();
        assert(plain_component(comps[comps.len() - 1]));
        let d = joined(root, comps);
        assert(d == p + seq!['/'] + c);
        assert(d.take(root.len() as int) =~= p.take(root.len() as int));
        if front.len() > 0 {
            assert(d[root.len() as int] == p[root.len() as int]);
        } else {
            assert(p == root);
        }
        assert(d.last() == c.last());
        assert(!is_separator(c[c.len() - 1]));
        if root.len() >= 2 {
            assert(d[0] == root[0] && d[1] == root[1]);
        } else {
            assert(d[0] == root[0]);
        }
    }
}

/// A chain that walks up towards `root` from a directory plainly below it
/// reaches `root`, one component at a time.
proof fn lemma_walk_reaches_root(chain: Seq<String>, root: Seq<char>, comps: Seq<Seq<char>>)
    requires
        plain_root(root),
        forall|i: int| 0 <= i < comps.len() ==> plain_component(#[trigger] comps[i]),
        chain.len() > 0,
        chain[0]@ == joined(root, comps),
        walks_up(chain, root),
    ensures
        chain.len() > comps.len(),
        chain[comps.len() as int]@ == root,
    decreases comps.len(),
{
    if comps.len() > 0 {
        let front = comps.drop_last();
        assert forall|i: int| 0 <= i < front.len() implies plain_component(#[trigger] front[i]) by {
            assert(front[i] == comps[i]);
        }
        lemma_joined_shape(root, front);
        lemma_joined_shape(root, comps);
        let p = joined(root, front);
        let c = comps.last();
        assert(plain_component(comps[comps.len() - 1]));
        let d = joined(root, comps);
        let k = p.len() as int;
        assert(d == p + seq!['/'] + c);
        assert(d.skip(k + 1) =~= c);
        assert(d[k - 1] == p.last());
        assert(c != seq!['.']) by {
            if c == seq!['.'] {
                assert(c.last() == '.');
            }
        }
        assert(plain_parent_at(d, k));
        assert(d.take(k) =~= p);
        assert(surely_within(p, root)) by {
            if front.len() == 0 {
                assert(p == root);
            } else {
                assert(below_by_slash(p, root));
            }
        }
        if chain.len() == 1 {
            assert(chain.last()@ == d);
            assert(plain_parent_at(chain.last()@, k));
        }
        assert(plain_parent_at(chain[0]@, k));
        assert(chain[1]@ == p);
        let rest = chain.skip(1);
        assert forall|m: int, j: int|
            0 <= m < rest.len() - 1 && #[trigger] plain_parent_at(rest[m]@, j) implies rest[m + 1]@ == rest[m]@.take(j) by {
            assert(rest[m] == chain[m + 1]);
            assert(rest[m + 1] == chain[m + 2]);
            assert(plain_parent_at(chain[m + 1]@, j));
        }
        assert forall|m: int| 1 <= m < rest.len() implies !surely_outside(#[trigger] rest[m]@, root) by {
            assert(rest[m] == chain[m + 1]);
        }
        assert forall|j: int| rest.len() > 0 && #[trigger] plain_parent_at(rest.last()@, j) implies !surely_within(
            rest.last()@.take(j),
            root,
        ) by {
            assert(rest.last() == chain.last());
        }
        assert(rest[0] == chain[1]);
        lemma_walk_reaches_root(rest, root, front);
        assert(rest[front.len() as int] == chain[comps.len() as int]);
    }
}

/// When every directory lies plainly below `root` and its chain walks up
/// towards it, the root collects every directory's size.
pub proof fn lemma_root_collects_all(dirs: Seq<(String, u64)>, chains: Seq<Seq<String>>, root: Seq<char>)
    requires
        dirs.len() <= chains.len(),
        forall|i: int| 0 <= i < dirs.len() ==> distinct_views(#[trigger] chains[i]),
        forall|i: int| 0 <= i < dirs.len() ==> #[trigger] chains[i].len() > 0 && chains[i][0]@ == dirs[i].0@,
        forall|i: int| 0 <= i < dirs.len() ==> walks_up(#[trigger] chains[i], root),
        forall|i: int| 0 <= i < dirs.len() ==> plainly_under(#[trigger] dirs[i].0@, root),
    ensures
        key_total(spread(dirs, chains), root) == size_sum(dirs),
    decreases dirs.len(),
{
    if dirs.len() > 0 {
        let n = dirs.len() - 1;
        let front = dirs.drop_last();
        assert forall|i: int| 0 <= i < front.len() implies #[trigger] chains[i].len() > 0 && chains[i][0]@
            == front[i].0@ by {
            assert(front[i] == dirs[i]);
        }
        assert forall|i: int| 0 <= i < front.len() implies plainly_under(#[trigger] front[i].0@, root) by {
            assert(front[i] == dirs[i]);
        }
        lemma_root_collects_all(front, chains, root);
        let ev = chain_events(chains[n], dirs.last().1);
        lemma_key_total_append(spread(front, chains), ev, root);
        lemma_chain_events_total(chains[n], dirs.last().1, root);
        assert(plainly_under(dirs[n].0@, root));
        assert(chains[n].len() > 0 && chains[n][0]@ == dirs[n].0@);
        assert(walks_up(chains[n], root));
        let comps = choose|comps: Seq<Seq<char>>|
            (forall|i: int| 0 <= i < comps.len() ==> plain_component(#[trigger] comps[i])) && #[trigger] joined(root, comps)
                == dirs[n].0@;
        lemma_walk_reaches_root(chains[n], root, comps);
        let m = comps.len() as int;
        assert(chains[n][m]@ == root);
    }
}

/// What the walk knows of the parent it goes on to, `next`, from the
/// last directory of `chain`.
pub open spec fn walk_pending(chain: Seq<String>, next: Option<String>, root: Seq<char>) -> bool {
    &&& next matches Some(c) ==> forall|k: int|
        #[trigger] plain_parent_at(chain.last()@, k) ==> c@ == chain.last()@.take(k)
    &&& next is None ==> forall|k: int|
        chain.len() > 0 && #[trigger] plain_parent_at(chain.last()@, k) ==> !surely_within(chain.last()@.take(k), root)
}

/// The walk up from `dir` through its ancestors that lie inside `root`,
/// given the platform's answer to whether `dir` itself lies inside
/// (`dir_inside`): each directory reached is asked of
/// `Path::starts_with(root)` and `Path::parent`, and [`walk_step`] decides.
/// The chain starts with `dir` exactly when `dir` is inside and non-empty,
/// and goes on from parent to parent as [`walks_up`] says.
pub fn chain_from(dir: &str, root: &str, dir_inside: bool) -> (chain: Vec<String>)
    ensures
        is_ancestor_chain(chain@, dir@),
        chain@.len() > 0 <==> (dir_inside && dir@.len() > 0),
        walks_up(chain@, root@),
{
    let mut chain: Vec<String> = Vec::new();
    let first = dir.to_owned();
    let parent = path_parent(dir);
    let ghost parent0 = parent;
    let mut next = walk_step(&mut chain, first, dir_inside, parent);
    proof {
        if dir_inside && dir@.len() > 0 {
            lemma_ancestor_chain_push(Seq::empty(), dir@, first);
            assert(Seq::<String>::empty().push(first) =~= chain@);
            assert(chain@.last() == first);
            assert forall|k: int| #[trigger] plain_parent_at(chain@.last()@, k) implies parent0 is Some
                && parent0->0@ == chain@.last()@.take(k) by {
                assert(chain@.last()@ == dir@);
            }
        }
    }
    loop
        invariant
            is_ancestor_chain(chain@, dir@),
            chain@.len() > 0 <==> (dir_inside && dir@.len() > 0),
            next matches Some(c) ==> chain@.len() > 0 && c@.len() < chain@.last()@.len() && c@
                == chain@.last()@.take(c@.len() as int),
            forall|m: int, k: int|
                0 <= m < chain@.len() - 1 && #[trigger] plain_parent_at(chain@[m]@, k) ==> chain@[m + 1]@
                    == chain@[m]@.take(k),
            forall|m: int| 1 <= m < chain@.len() ==> !surely_outside(#[trigger] chain@[m]@, root@),
            walk_pending(chain@, next, root@),
        ensures
            is_ancestor_chain(chain@, dir@),
            chain@.len() > 0 <==> (dir_inside && dir@.len() > 0),
            walks_up(chain@, root@),
        decreases
                match next {
                    Some(c) => c@.len() + 1,
                    None => 0,
                },
    {
        match next {
            None => {
                break;
            },
            Some(current) => {
                let ghost before = chain@;
                let ghost cur = current;
                let inside = path_starts_with(current.as_str(), root);
                let parent = path_parent(current.as_str());
                let ghost parent1 = parent;
                next = walk_step(&mut chain, current, inside, parent);
                proof {
                    if chain@.len() > before.len() {
                        lemma_ancestor_chain_push(before, dir@, cur);
                        assert(chain@ == before.push(cur));
                        assert(chain@.last() == cur);
                        assert forall|m: int, k: int|
                            0 <= m < chain@.len() - 1 && #[trigger] plain_parent_at(chain@[m]@, k) implies chain@[m
                            + 1]@ == chain@[m]@.take(k) by {
                            if m == chain@.len() - 2 {
                                assert(chain@[m] == before.last());
                                assert(plain_parent_at(before.last()@, k));
                            } else {
                                assert(chain@[m] == before[m]);
                                assert(chain@[m + 1] == before[m + 1]);
                            }
                        }
                        assert forall|m: int| 1 <= m < chain@.len() implies !surely_outside(
                            #[trigger] chain@[m]@,
                            root@,
                        ) by {
                            if m < before.len() {
                                assert(chain@[m] == before[m]);
                            }
                        }
                        assert forall|k: int| #[trigger] plain_parent_at(chain@.last()@, k) implies parent1 is Some
                            && parent1->0@ == chain@.last()@.take(k) by {
                            assert(chain@.last()@ == cur@);
                        }
                    } else {
                        assert(chain@ == before);
                        assert forall|k: int|
                            chain@.len() > 0 && #[trigger] plain_parent_at(chain@.last()@, k) implies !surely_within(
                            chain@.last()@.take(k),
                            root@,
                        ) by {
                            assert(plain_parent_at(before.last()@, k));
                            assert(cur@ == before.last()@.take(k));
                        }
                    }
                }
            },
        }
    }
    chain
}

/// The walk from a directory up through its ancestors that stay within
/// `root`, stopping at the first one that is empty, outside `root`, or has
/// no parent: [`chain_from`], with the platform's answer to whether `dir`
/// lies inside `root`.
pub fn ancestor_chain(dir: &str, root: &str) -> (chain: Vec<String>)
    ensures
        is_ancestor_chain(chain@, dir@),
        walks_up(chain@, root@),
        dir@.len() > 0 && surely_within(dir@, root@) ==> chain@.len() > 0,
        surely_outside(dir@, root@) ==> chain@.len() == 0,
{
    let inside = path_starts_with(dir, root);
    chain_from(dir, root, inside)
}

/// Carries each directory's size up to every directory of its chain:
/// afterwards each directory's total is the sum of the sizes of the
/// directories whose chain lists it.
pub fn propagate(dirs: &Vec<(String, u64)>, chains: &Vec<Vec<String>>) -> (t: SizeTally)
    requires
        dirs@.len() == chains@.len(),
        size_sum(dirs@) <= u64::MAX,
        forall|i: int| 0 <= i < chains@.len() ==> distinct_views(#[trigger] chains@[i]@),
    ensures
        t.wf(),
        same_totals(t@, spread(dirs@, chains@.map_values(|c: Vec<String>| c@))),
{
    let ghost cv = chains@.map_values(|c: Vec<String>| c@);
    let mut t = SizeTally::new();
    let n = dirs.len();
    let mut i: usize = 0;
    while i < n
        invariant
            n == dirs@.len(),
            n == chains@.len(),
            cv == chains@.map_values(|c: Vec<String>| c@),
            i <= n,
            t.wf(),
            size_sum(dirs@) <= u64::MAX,
            forall|x: int| 0 <= x < cv.len() ==> distinct_views(#[trigger] cv[x]),
            same_totals(t@, spread(dirs@.take(i as int), cv)),
        decreases n - i,
    {
        let amount = dirs[i].1;
        let chain = &chains[i];
        let m = chain.len();
        let ghost base = spread(dirs@.take(i as int), cv);
        proof {
            assert(cv[i as int] == chain@);
            assert(dirs@.take(i + 1).drop_last() =~= dirs@.take(i as int));
            assert(dirs@ =~= dirs@.take(i + 1) + dirs@.skip(i + 1));
            lemma_size_sum_append(dirs@.take(i + 1), dirs@.skip(i + 1));
            assert(dirs@.take(i + 1).last() == dirs@[i as int]);
        }
        let mut j: usize = 0;
        while j < m
            invariant
                n == dirs@.len(),
                n == chains@.len(),
                i < n,
                m == chain@.len(),
                chain == &chains@[i as int],
                cv == chains@.map_values(|c: Vec<String>| c@),
                cv[i as int] == chain@,
                amount == dirs@[i as int].1,
                j <= m,
                t.wf(),
                forall|x: int| 0 <= x < cv.len() ==> distinct_views(#[trigger] cv[x]),
                base == spread(dirs@.take(i as int), cv),
                size_sum(dirs@.take(i as int)) + amount <= u64::MAX,
                same_totals(t@, base + chain_events(chain@.take(j as int), amount)),
            decreases m - j,
        {
            let d = chain[j].clone();
            proof {
                let d0 = d@;
                lemma_spread_bound(dirs@.take(i as int), cv.take(i as int), d0);
                lemma_spread_prefix(dirs@.take(i as int), cv, cv.take(i as int));
                let prefix = chain@.take(j as int);
                assert(distinct_views(prefix));
                lemma_chain_events_total(prefix, amount, d0);
                assert(!(exists|x: int| 0 <= x < prefix.len() && #[trigger] prefix[x]@ == d0)) by {
                    if exists|x: int| 0 <= x < prefix.len() && #[trigger] prefix[x]@ == d0 {
                        let x = choose|x: int| 0 <= x < prefix.len() && #[trigger] prefix[x]@ == d0;
                        assert(chain@[x]@ != chain@[j as int]@);
                    }
                }
                lemma_key_total_append(base, chain_events(prefix, amount), d0);
            }
            t.add(d, amount);
            proof {
                let prev = base + chain_events(chain@.take(j as int), amount);
                let next = base + chain_events(chain@.take(j + 1), amount);
                assert(next =~= prev.push((chain@[j as int], amount)));
                assert(next.drop_last() =~= prev);
                assert forall|k: Seq<char>| #[trigger] has_key(next, k) == (has_key(prev, k) || k
                    == chain@[j as int]@) by {
                    lemma_has_key_append(prev, seq![(chain@[j as int], amount)], k);
                    assert(prev + seq![(chain@[j as int], amount)] =~= next);
                    if k == chain@[j as int]@ {
                        assert(seq![(chain@[j as int], amount)][0].0@ == k);
                    }
                    if has_key(seq![(chain@[j as int], amount)], k) {
                        let x = choose|x: int| 0 <= x < 1 && #[trigger] seq![(chain@[j as int], amount)][x].0@ == k;
                    }
                }
            }
            j = j + 1;
        }
        proof {
            assert(chain@.take(m as int) =~= chain@);
            assert(spread(dirs@.take(i + 1), cv) == base + chain_events(cv[i as int], amount));
        }
        i = i + 1;
    }
    proof {
        assert(dirs@.take(n as int) =~= dirs@);
    }
    t
}

/// The label of a file's extension: the extension lower-cased, or
/// `no extension` when it has none.
pub fn label_for_extension(ext: Option<String>) -> (r: String)
    ensures
        ext matches Some(e) ==> r@ == lowercase(e@),
        ext is None ==> r@ == no_extension_label(),
{
    match ext {
        Some(e) => to_lowercase(e.as_str()),
        None => {
            let mut v: Vec<char> = Vec::new();
            v.push('n');
            v.push('o');
            v.push(' ');
            v.push('e');
            v.push('x');
            v.push('t');
            v.push('e');
            v.push('n');
            v.push('s');
            v.push('i');
            v.push('o');
            v.push('n');
            proof {
                assert(v@ =~= no_extension_label());
            }
            crate::text::chars_to_string(v)
        },
    }
}

/// The top files of a sorted list: its first `k`.
pub proof fn lemma_sorted_prefix_is_top<T: Ranked>(s: Seq<T>, pool: Seq<T>, k: nat)
    requires
        sorted_desc(s),
        s.to_multiset() == pool.to_multiset(),
    ensures
        is_top(s.take(if s.len() < k { s.len() as int } else { k as int }), pool, k),
{
    let n = if s.len() < k { s.len() as int } else { k as int };
    let r = s.take(n);
    assert(s =~= r + s.skip(n));
    vstd::seq_lib::lemma_multiset_commutative(r, s.skip(n));
    assert(r.to_multiset().subset_of(pool.to_multiset()));
    assert(sorted_desc(r)) by {
        assert forall|i: int, j: int| 0 <= i < j < r.len() implies #[trigger] r[i].rank() >= #[trigger] r[j].rank() by {
            assert(r[i] == s[i] && r[j] == s[j]);
        }
    }
    assert(s.len() == pool.len()) by {
        vstd::seq_lib::to_multiset_len(s);
        vstd::seq_lib::to_multiset_len(pool);
    }
    assert(r.len() == if pool.len() < k { pool.len() } else { k });
    assert(s.to_multiset().len() == pool.to_multiset().len());
    if k > 0 && r.len() == k {
        assert forall|y: T| y.rank() > r[k - 1].rank() implies #[trigger] r.to_multiset().count(y)
            == pool.to_multiset().count(y) by {
            assert(!s.skip(n).contains(y)) by {
                if s.skip(n).contains(y) {
                    let j = choose|j: int| 0 <= j < s.skip(n).len() && s.skip(n)[j] == y;
                    assert(s[n + j].rank() <= s[k - 1].rank());
                }
            }
        }
    }
}

/// What a worker has gathered from the files it was handed.
pub struct ScanAccumulator {
    top_files: Vec<FileEntry>,
    ext_map: SizeTally,
    dir_map: SizeTally,
    errors: Vec<String>,
    file_count: u64,
    byte_count: u64,
    recorded: Ghost<Seq<FileEntry>>,
    dir_events: Ghost<Seq<(String, u64)>>,
}

impl ScanAccumulator {
    /// The files recorded, in the order they were recorded.
    pub closed spec fn files(&self) -> Seq<FileEntry> {
        self.recorded@
    }

    /// One (directory, size) pair for each file whose directory counted
    /// (lies inside the scanned root).
    pub closed spec fn dir_sizes(&self) -> Seq<(String, u64)> {
        self.dir_events@
    }

    /// The largest files so far.
    pub closed spec fn top(&self) -> Seq<FileEntry> {
        self.top_files@
    }

    /// The messages of the entries that could not be read.
    pub closed spec fn error_messages(&self) -> Seq<String> {
        self.errors@
    }

    /// The accumulator's parts agree with the files recorded.
    pub closed spec fn wf(&self) -> bool {
        &&& is_top(self.top_files@, self.recorded@, TOP_FILES as nat)
        &&& self.ext_map.wf()
        &&& self.dir_map.wf()
        &&& same_totals(self.ext_map@, ext_events(self.recorded@))
        &&& same_totals(self.dir_map@, self.dir_events@)
        &&& self.file_count == self.recorded@.len()
        &&& self.byte_count == files_size(self.recorded@)
        &&& size_sum(self.ext_map@) == self.byte_count
        &&& size_sum(self.dir_map@) <= self.byte_count
        &&& size_sum(self.dir_map@) == size_sum(self.dir_events@)
        &&& forall|i: int| 0 <= i < self.dir_events@.len() ==> #[trigger] self.dir_events@[i].0@.len() > 0
    }

    /// Number of files recorded.
    pub fn file_count(&self) -> (n: u64)
        requires
            self.wf(),
        ensures
            n == self.files().len(),
    {
        self.file_count
    }

    /// Total size of the files recorded.
    pub fn byte_count(&self) -> (n: u64)
        requires
            self.wf(),
        ensures
            n == files_size(self.files()),
    {
        self.byte_count
    }

    /// An accumulator that has seen nothing.
    pub fn new() -> (acc: Self)
        ensures
            acc.wf(),
            acc.files() == Seq::<FileEntry>::empty(),
            acc.dir_sizes() == Seq::<(String, u64)>::empty(),
            acc.error_messages() == Seq::<String>::empty(),
    {
        let acc = ScanAccumulator {
            top_files: Vec::new(),
            ext_map: SizeTally::new(),
            dir_map: SizeTally::new(),
            errors: Vec::new(),
            file_count: 0,
            byte_count: 0,
            recorded: Ghost(Seq::empty()),
            dir_events: Ghost(Seq::empty()),
        };
        proof {
            lemma_top_of_empty::<FileEntry>(TOP_FILES as nat);
            assert(ext_events(Seq::<FileEntry>::empty()) =~= Seq::<(String, u64)>::empty());
        }
        acc
    }

    /// Whether a file of `size` bytes would enter the largest files: there
    /// is room, or it is larger than the smallest of them.
    pub fn admits_to_top(&self, size: u64) -> (b: bool)
        requires
            self.wf(),
        ensures
            b == (self.top().len() < TOP_FILES || size > self.top()[TOP_FILES - 1].size),
    {
        if self.top_files.len() < TOP_FILES {
            true
        } else {
            size > self.top_files[TOP_FILES - 1].size
        }
    }

    /// Records a file whose extension label is already in `entry` and
    /// whose directory, when it counts (it lies inside the scanned root),
    /// is `dir`: the file joins the
    /// largest files if it is among them, its size is added to its label's
    /// total, and to `dir`'s total when `dir` is given and not empty.
    pub fn record_classified(&mut self, entry: FileEntry, dir: Option<String>)
        requires
            old(self).wf(),
            old(self).files().len() < u64::MAX,
            files_size(old(self).files()) + entry.size <= u64::MAX,
        ensures
            final(self).wf(),
            final(self).files() == old(self).files().push(entry),
            final(self).error_messages() == old(self).error_messages(),
            dir matches Some(d) ==> if d@.len() > 0 {
                final(self).dir_sizes() == old(self).dir_sizes().push((d, entry.size))
            } else {
                final(self).dir_sizes() == old(self).dir_sizes()
            },
            dir is None ==> final(self).dir_sizes() == old(self).dir_sizes(),
    {
        let ghost files0 = self.recorded@;
        let size = entry.size;
        proof {
            lemma_key_total_le_sum(self.ext_map@, entry.extension@);
            lemma_key_total_le_sum(self.dir_map@, entry.extension@);
            assert(ext_events(files0.push(entry)) =~= ext_events(files0).push((entry.extension, size)));
            assert(files0.push(entry).drop_last() =~= files0);
        }
        self.file_count = self.file_count + 1;
        self.byte_count = self.byte_count + size;
        self.ext_map.add(entry.extension.clone(), size);
        proof {
            let ev = ext_events(files0);
            let ev1 = ext_events(files0.push(entry));
            assert forall|k: Seq<char>| #[trigger] key_total(self.ext_map@, k) == key_total(ev1, k) by {
                lemma_key_total_append(ev, seq![(entry.extension, size)], k);
                lemma_key_total_single((entry.extension, size), k);
                assert(ev + seq![(entry.extension, size)] =~= ev1);
            }
            assert forall|k: Seq<char>| #[trigger] has_key(self.ext_map@, k) == has_key(ev1, k) by {
                lemma_has_key_append(ev, seq![(entry.extension, size)], k);
                assert(ev + seq![(entry.extension, size)] =~= ev1);
                if has_key(seq![(entry.extension, size)], k) {
                    let x = choose|x: int| 0 <= x < 1 && #[trigger] seq![(entry.extension, size)][x].0@ == k;
                }
                if k == entry.extension@ {
                    assert(seq![(entry.extension, size)][0].0@ == k);
                }
            }
        }
        match dir {
            Some(d) => {
                if !d.as_str().is_empty() {
                    let ghost dev = self.dir_events@;
                    proof {
                        lemma_key_total_le_sum(self.dir_map@, d@);
                    }
                    let ghost dv = d@;
                    let ghost ds = d;
                    self.dir_map.add(d, size);
                    proof {
                        let dev1 = dev.push((ds, size));
                        assert(dev1.drop_last() =~= dev);
                        assert forall|k: Seq<char>| #[trigger] key_total(self.dir_map@, k) == key_total(dev1, k) by {
                            lemma_key_total_append(dev, seq![(ds, size)], k);
                            lemma_key_total_single((ds, size), k);
                            assert(dev + seq![(ds, size)] =~= dev1);
                        }
                        assert forall|k: Seq<char>| #[trigger] has_key(self.dir_map@, k) == has_key(dev1, k) by {
                            lemma_has_key_append(dev, seq![(ds, size)], k);
                            assert(dev + seq![(ds, size)] =~= dev1);
                            if has_key(seq![(ds, size)], k) {
                                let x = choose|x: int| 0 <= x < 1 && #[trigger] seq![(ds, size)][x].0@ == k;
                            }
                            if k == dv {
                                assert(seq![(ds, size)][0].0@ == k);
                            }
                        }
                        self.dir_events = Ghost(dev1);
                    }
                }
            },
            None => {},
        }
        offer(&mut self.top_files, entry, TOP_FILES, Ghost(files0));
        proof {
            self.recorded = Ghost(files0.push(entry));
        }
    }

    /// Records a file found by the walk below `root`: its extension label
    /// and its directory are worked out from `path`, and the file is then
    /// recorded as `record_classified` does.
    pub fn record_file(&mut self, root: &str, name: String, path: String, size: u64, modified: u64)
        requires
            old(self).wf(),
            old(self).files().len() < u64::MAX,
            files_size(old(self).files()) + size <= u64::MAX,
        ensures
            final(self).wf(),
            final(self).files().len() == old(self).files().len() + 1,
            final(self).files().drop_last() == old(self).files(),
            final(self).files().last().name == name,
            final(self).files().last().path == path,
            final(self).files().last().size == size,
            final(self).files().last().modified == modified,
            final(self).files().last().extension@ == no_extension_label() || exists|e: Seq<char>|
                !e.contains('.') && #[trigger] lowercase(e) == final(self).files().last().extension@,
            final(self).error_messages() == old(self).error_messages(),
            final(self).dir_sizes() == old(self).dir_sizes() || exists|d: String|
                final(self).dir_sizes() == old(self).dir_sizes().push((d, size)) && 0 < d@.len() < path@.len()
                    && #[trigger] path@.take(d@.len() as int) == d@,
            !path@.contains('.') ==> final(self).files().last().extension@ == no_extension_label(),
            forall|k: int| #[trigger] plain_extension_at(path@, k) ==> final(self).files().last().extension@
                == lowercase(path@.skip(k + 1)),
            forall|k: int| #[trigger] plain_parent_at(path@, k) && surely_within(path@.take(k), root@) ==> {
                &&& final(self).dir_sizes().len() == old(self).dir_sizes().len() + 1
                &&& final(self).dir_sizes().drop_last() == old(self).dir_sizes()
                &&& final(self).dir_sizes().last().0@ == path@.take(k)
                &&& final(self).dir_sizes().last().1 == size
            },
            forall|k: int| #[trigger] plain_parent_at(path@, k) && surely_outside(path@.take(k), root@)
                ==> final(self).dir_sizes() == old(self).dir_sizes(),
    {
        let ext = path_extension(path.as_str());
        let ghost ext0 = ext;
        let extension = label_for_extension(ext);
        let parent = path_parent(path.as_str());
        let ghost parent0 = parent;
        let mut inside = false;
        let dir = match parent {
            Some(p) => {
                inside = path_starts_with(p.as_str(), root);
                if inside {
                    Some(p)
                } else {
                    None
                }
            },
            None => None,
        };
        let ghost dir0 = dir;
        let ghost path0 = path;
        let entry = FileEntry { name, path, size, modified, extension };
        let ghost entry0 = entry;
        let ghost files0 = self.files();
        self.record_classified(entry, dir);
        proof {
            assert(self.files().drop_last() =~= files0);
            assert(self.files().last() == entry0);
            if let Some(e) = ext0 {
                assert(lowercase(e@) == entry0.extension@);
            }
            if let Some(d) = dir0 {
                if d@.len() > 0 {
                    assert(path0@.take(d@.len() as int) == d@);
                }
            }
            assert forall|k: int| #[trigger] plain_extension_at(path0@, k) implies entry0.extension@ == lowercase(
                path0@.skip(k + 1),
            ) by {
                assert(ext0 is Some);
            }
            assert forall|k: int| #[trigger] plain_parent_at(path0@, k) && surely_within(path0@.take(k), root@) implies {
                &&& self.dir_sizes().len() == old(self).dir_sizes().len() + 1
                &&& self.dir_sizes().drop_last() == old(self).dir_sizes()
                &&& self.dir_sizes().last().0@ == path0@.take(k)
                &&& self.dir_sizes().last().1 == size
            } by {
                assert(parent0 is Some);
                assert(dir0 is Some);
                assert(self.dir_sizes() == old(self).dir_sizes().push((dir0->0, size)));
            }
            assert forall|k: int| #[trigger] plain_parent_at(path0@, k) && surely_outside(path0@.take(k), root@)
                implies self.dir_sizes() == old(self).dir_sizes() by {
                assert(parent0 is Some);
                assert(dir0 is None);
            }
        }
    }

    /// Records an entry that could not be read.
    pub fn record_error(&mut self, message: String)
        requires
            old(self).wf(),
        ensures
            final(self).wf(),
            final(self).files() == old(self).files(),
            final(self).dir_sizes() == old(self).dir_sizes(),
            final(self).error_messages() == old(self).error_messages().push(message),
    {
        self.errors.push(message);
    }

    /// Combines what two workers gathered: afterwards the accumulator holds
    /// the files of both.
    pub fn merge(self, other: Self) -> (acc: Self)
        requires
            self.wf(),
            other.wf(),
            self.files().len() + other.files().len() <= u64::MAX,
            files_size(self.files()) + files_size(other.files()) <= u64::MAX,
        ensures
            acc.wf(),
            acc.files() == self.files() + other.files(),
            acc.dir_sizes() == self.dir_sizes() + other.dir_sizes(),
            acc.error_messages() == self.error_messages() + other.error_messages(),
    {
        let ghost fa = self.recorded@;
        let ghost fb = other.recorded@;
        let ghost da = self.dir_events@;
        let ghost db = other.dir_events@;
        let ScanAccumulator {
            top_files: top_a,
            ext_map: mut ext_a,
            dir_map: mut dir_a,
            errors: mut errors_a,
            file_count: count_a,
            byte_count: bytes_a,
            recorded: _,
            dir_events: _,
        } = self;
        let ScanAccumulator {
            top_files: top_b,
            ext_map: ext_b,
            dir_map: dir_b,
            errors: mut errors_b,
            file_count: count_b,
            byte_count: bytes_b,
            recorded: _,
            dir_events: _,
        } = other;
        let top = merge_tops(top_a, top_b, TOP_FILES, Ghost(fa), Ghost(fb));
        proof {
            assert forall|k: Seq<char>| #[trigger] key_total(ext_a@, k) + key_total(ext_b@, k) <= u64::MAX by {
                lemma_key_total_le_sum(ext_a@, k);
                lemma_key_total_le_sum(ext_b@, k);
            }
            assert forall|k: Seq<char>| #[trigger] key_total(dir_a@, k) + key_total(dir_b@, k) <= u64::MAX by {
                lemma_key_total_le_sum(dir_a@, k);
                lemma_key_total_le_sum(dir_b@, k);
            }
        }
        ext_a.absorb(&ext_b);
        dir_a.absorb(&dir_b);
        errors_a.append(&mut errors_b);
        let acc = ScanAccumulator {
            top_files: top,
            ext_map: ext_a,
            dir_map: dir_a,
            errors: errors_a,
            file_count: count_a + count_b,
            byte_count: bytes_a + bytes_b,
            recorded: Ghost(fa + fb),
            dir_events: Ghost(da + db),
        };
        proof {
            lemma_files_size_append(fa, fb);
            lemma_size_sum_append(da, db);
            assert(ext_events(fa + fb) =~= ext_events(fa) + ext_events(fb));
            assert forall|k: Seq<char>| #[trigger] key_total(acc.ext_map@, k) == key_total(ext_events(fa + fb), k) by {
                lemma_key_total_append(ext_events(fa), ext_events(fb), k);
            }
            assert forall|k: Seq<char>| #[trigger] has_key(acc.ext_map@, k) == has_key(ext_events(fa + fb), k) by {
                lemma_has_key_append(ext_events(fa), ext_events(fb), k);
            }
            assert forall|k: Seq<char>| #[trigger] key_total(acc.dir_map@, k) == key_total(da + db, k) by {
                lemma_key_total_append(da, db, k);
            }
            assert forall|k: Seq<char>| #[trigger] has_key(acc.dir_map@, k) == has_key(da + db, k) by {
                lemma_has_key_append(da, db, k);
            }
        }
        acc
    }

    /// The results of the scan of `root`: totals, the largest files, the
    /// sizes per extension label largest first, and the largest
    /// directories, where each directory counts every file below it within
    /// `root`.
    pub fn finish(self, root: String, scan_duration_ms: u64) -> (r: ScanResults)
        requires
            self.wf(),
        ensures
            r.scanned_path == root,
            r.total_size == files_size(self.files()),
            r.total_files == self.files().len(),
            is_top(r.top_files@, self.files(), TOP_FILES as nat),
            sorted_desc(r.ext_breakdown@),
            distinct_keys(r.ext_breakdown@),
            same_totals(r.ext_breakdown@, ext_events(self.files())),
            size_sum(r.ext_breakdown@) == r.total_size,
            forall|i: int| 0 <= i < r.dir_breakdown@.len() ==> #[trigger] r.dir_breakdown@[i].1 <= r.total_size,
            r.scan_duration_ms == scan_duration_ms,
            r.errors@ == self.error_messages(),
            exists|dirs: Seq<(String, u64)>, chains: Seq<Seq<String>>, full: Seq<(String, u64)>|
                #![trigger spread(dirs, chains), is_top(r.dir_breakdown@, full, TOP_DIRS as nat)]
                {
                    &&& distinct_keys(dirs)
                    &&& same_totals(dirs, self.dir_sizes())
                    &&& chains.len() == dirs.len()
                    &&& forall|i: int| 0 <= i < dirs.len() ==> is_ancestor_chain(#[trigger] chains[i], dirs[i].0@)
                    &&& forall|i: int| 0 <= i < dirs.len() ==> #[trigger] chains[i].len() > 0
                    &&& forall|i: int| 0 <= i < dirs.len() ==> walks_up(#[trigger] chains[i], root@)
                    &&& distinct_keys(full)
                    &&& same_totals(full, spread(dirs, chains))
                    &&& forall|d: Seq<char>| #[trigger] has_key(self.dir_sizes(), d) ==> has_key(full, d)
                    &&& forall|d: Seq<char>| #[trigger] key_total(full, d) >= key_total(self.dir_sizes(), d)
                    &&& (forall|d: Seq<char>| #[trigger] has_key(self.dir_sizes(), d) ==> plainly_under(d, root@))
                        ==> key_total(full, root@) == size_sum(self.dir_sizes())
                    &&& is_top(r.dir_breakdown@, full, TOP_DIRS as nat)
                },
    {
        let ghost files = self.recorded@;
        let ghost devents = self.dir_events@;
        let ScanAccumulator {
            top_files,
            ext_map,
            dir_map,
            errors,
            file_count,
            byte_count,
            recorded: _,
            dir_events: _,
        } = self;
        let ext_breakdown = ext_map.into_sorted();
        let dirs = dir_map.into_pairs();
        proof {
            assert forall|x: int| 0 <= x < dirs@.len() implies #[trigger] dirs@[x].0@.len() > 0 by {
                assert(has_key(dirs@, dirs@[x].0@));
                assert(has_key(devents, dirs@[x].0@));
                let y = choose|y: int| 0 <= y < devents.len() && #[trigger] devents[y].0@ == dirs@[x].0@;
            }
        }
        let mut chains: Vec<Vec<String>> = Vec::new();
        let n = dirs.len();
        let mut i: usize = 0;
        while i < n
            invariant
                n == dirs@.len(),
                i <= n,
                chains@.len() == i,
                forall|x: int| 0 <= x < i ==> is_ancestor_chain(#[trigger] chains@[x]@, dirs@[x].0@),
                forall|x: int| 0 <= x < i ==> #[trigger] chains@[x]@.len() > 0,
                forall|x: int| 0 <= x < i ==> walks_up(#[trigger] chains@[x]@, root@),
                forall|x: int| 0 <= x < n ==> #[trigger] dirs@[x].0@.len() > 0,
            decreases n - i,
        {
            // The directories were found inside the root when their files
            // were recorded.
            let chain = chain_from(dirs[i].0.as_str(), root.as_str(), true);
            chains.push(chain);
            i = i + 1;
        }
        proof {
            assert forall|x: int| 0 <= x < chains@.len() implies distinct_views(#[trigger] chains@[x]@) by {
                let c = chains@[x]@;
                assert(is_ancestor_chain(c, dirs@[x].0@));
                assert forall|m: int, p: int| 0 <= m < p < c.len() implies #[trigger] c[m]@ != #[trigger] c[p]@ by {
                    assert(c[p]@.len() < c[m]@.len());
                }
            }
        }
        let full = propagate(&dirs, &chains);
        let ghost cv = chains@.map_values(|c: Vec<String>| c@);
        let ghost full_view = full@;
        let mut dir_breakdown = full.into_sorted();
        let ghost sorted_dirs = dir_breakdown@;
        dir_breakdown.truncate(TOP_DIRS);
        proof {
            lemma_sorted_prefix_is_top(sorted_dirs, full_view, TOP_DIRS as nat);
            assert(dir_breakdown@ =~= sorted_dirs.take(
                if sorted_dirs.len() < TOP_DIRS { sorted_dirs.len() as int } else { TOP_DIRS as int },
            ));
            assert forall|x: int| 0 <= x < dirs@.len() implies is_ancestor_chain(#[trigger] cv[x], dirs@[x].0@) by {
                assert(cv[x] == chains@[x]@);
            }
            assert(is_top(dir_breakdown@, full_view, TOP_DIRS as nat));
        }
        let r = ScanResults {
            scanned_path: root,
            total_size: byte_count,
            total_files: file_count,
            top_files,
            ext_breakdown,
            dir_breakdown,
            scan_duration_ms,
            errors,
        };
        proof {
            let dv = dirs@;
            assert(distinct_keys(dv));
            assert(same_totals(dv, devents));
            assert(same_totals(full_view, spread(dv, cv)));
            assert(is_top(r.dir_breakdown@, full_view, TOP_DIRS as nat));
            assert(cv.len() == dv.len());
            assert forall|x: int| 0 <= x < dv.len() implies #[trigger] cv[x].len() > 0 by {
                assert(cv[x] == chains@[x]@);
            }
            assert forall|x: int| 0 <= x < dv.len() implies #[trigger] cv[x].len() > 0 && cv[x][0]@ == dv[x].0@ by {
                assert(cv[x] == chains@[x]@);
                assert(is_ancestor_chain(cv[x], dv[x].0@));
            }
            assert forall|x: int| 0 <= x < dv.len() implies walks_up(#[trigger] cv[x], root@) by {
                assert(cv[x] == chains@[x]@);
            }
            assert forall|x: int| 0 <= x < dv.len() implies distinct_views(#[trigger] cv[x]) by {
                assert(cv[x] == chains@[x]@);
            }
            assert forall|d: Seq<char>| #[trigger] key_total(full_view, d) >= key_total(devents, d) by {
                lemma_spread_covers(dv, cv, d);
            }
            assert forall|d: Seq<char>| #[trigger] has_key(devents, d) implies has_key(full_view, d) by {
                lemma_spread_covers(dv, cv, d);
            }
            if forall|d: Seq<char>| #[trigger] has_key(devents, d) ==> plainly_under(d, root@) {
                assert forall|x: int| 0 <= x < dv.len() implies plainly_under(#[trigger] dv[x].0@, root@) by {
                    assert(has_key(dv, dv[x].0@));
                    assert(has_key(devents, dv[x].0@));
                }
                lemma_root_collects_all(dv, cv, root@);
                assert(key_total(full_view, root@) == size_sum(devents));
            }
            assert forall|i: int| 0 <= i < r.dir_breakdown@.len() implies #[trigger] r.dir_breakdown@[i].1
                <= r.total_size by {
                let e = r.dir_breakdown@[i];
                assert(r.dir_breakdown@.contains(e));
                assert(full_view.to_multiset().count(e) > 0);
                assert(full_view.contains(e));
                let j = choose|j: int| 0 <= j < full_view.len() && full_view[j] == e;
                crate::tally::lemma_key_total_distinct(full_view, j);
                lemma_spread_bound(dv, cv, e.0@);
            }
        }
        r
    }
}

/// Mapping the elements keeps two sequences with the same elements alike.
pub proof fn lemma_map_values_multiset<A, B>(s1: Seq<A>, s2: Seq<A>, f: spec_fn(A) -> B)
    requires
        s1.to_multiset() == s2.to_multiset(),
    ensures
        s1.map_values(f).to_multiset() == s2.map_values(f).to_multiset(),
    decreases s1.len(),
{
    if s1.len() == 0 {
        assert(s2.to_multiset().len() == 0);
        assert(s2.len() == 0);
        assert(s1.map_values(f) =~= s2.map_values(f));
    } else {
        let x = s1.last();
        assert(s1 =~= s1.drop_last().push(x));
        assert(s2.to_multiset().count(x) > 0);
        assert(s2.contains(x));
        let j = choose|j: int| 0 <= j < s2.len() && s2[j] == x;
        assert(s2.remove(j).to_multiset() =~= s1.drop_last().to_multiset());
        lemma_map_values_multiset(s1.drop_last(), s2.remove(j), f);
        assert(s1.map_values(f) =~= s1.drop_last().map_values(f).push(f(x)));
        assert(s2.remove(j).map_values(f) =~= s2.map_values(f).remove(j));
        assert(s2.map_values(f)[j] == f(x));
        assert(s2.map_values(f).to_multiset() =~= s2.map_values(f).remove(j).to_multiset().insert(f(x)));
    }
}

/// The totals per extension depend only on which files were recorded,
/// not on how the walk was split among workers or in which order the
/// files arrived.
pub proof fn lemma_ext_totals_order_irrelevant(f1: Seq<FileEntry>, f2: Seq<FileEntry>)
    requires
        f1.to_multiset() == f2.to_multiset(),
    ensures
        same_totals(ext_events(f1), ext_events(f2)),
        files_size(f1) == files_size(f2),
{
    let g = |f: FileEntry| (f.extension, f.size);
    lemma_map_values_multiset(f1, f2, g);
    assert forall|k: Seq<char>| #[trigger] key_total(ext_events(f1), k) == key_total(ext_events(f2), k) by {
        crate::tally::lemma_key_total_permutation(ext_events(f1), ext_events(f2), k);
    }
    assert forall|k: Seq<char>| #[trigger] has_key(ext_events(f1), k) == has_key(ext_events(f2), k) by {
        crate::tally::lemma_has_key_permutation(ext_events(f1), ext_events(f2), k);
    }
    crate::tally::lemma_size_sum_permutation(ext_events(f1), ext_events(f2));
    lemma_files_size_is_event_sum(f1);
    lemma_files_size_is_event_sum(f2);
}

/// The sizes of the largest files listed depend only on which files the
/// walk found: lists of the largest files of the same files, recorded in
/// any order or split among any workers, show the same sizes, position by
/// position.
pub proof fn lemma_top_sizes_order_irrelevant(t1: Seq<FileEntry>, f1: Seq<FileEntry>, t2: Seq<FileEntry>, f2: Seq<FileEntry>)
    requires
        f1.to_multiset() == f2.to_multiset(),
        is_top(t1, f1, TOP_FILES as nat),
        is_top(t2, f2, TOP_FILES as nat),
    ensures
        t1.len() == t2.len(),
        forall|i: int| 0 <= i < t1.len() ==> #[trigger] t1[i].size == t2[i].size,
{
    lemma_top_order_irrelevant(t2, f2, f1, TOP_FILES as nat);
    lemma_tops_agree(t1, t2, f1, TOP_FILES as nat);
    assert forall|i: int| 0 <= i < t1.len() implies #[trigger] t1[i].size == t2[i].size by {
        assert(t1[i].rank() == t2[i].rank());
    }
}

/// The size of the files is the sum of their extension events.
proof fn lemma_files_size_is_event_sum(f: Seq<FileEntry>)
    ensures
        files_size(f) == size_sum(ext_events(f)),
    decreases f.len(),
{
    if f.len() > 0 {
        lemma_files_size_is_event_sum(f.drop_last());
        assert(ext_events(f).drop_last() =~= ext_events(f.drop_last()));
    }
}

/// Sizes add up over concatenation.
pub proof fn lemma_files_size_append(a: Seq<FileEntry>, b: Seq<FileEntry>)
    ensures
        files_size(a + b) == files_size(a) + files_size(b),
    decreases b.len(),
{
    if b.len() == 0 {
        assert(a + b =~= a);
    } else {
        assert((a + b).drop_last() =~= a + b.drop_last());
        lemma_files_size_append(a, b.drop_last());
    }
}

} // verus!
