//! The sequence catalog: interns every distinct query and target sequence
//! name into a dense identifier, and assigns each sequence an offset on a
//! single shared linear axis by ordering the sequences of a namespace by
//! descending length (ties keep the interning order).
//!
//! The name-to-identifier lookup is a minimal perfect hash map from the
//! `boomphf` crate, built once per namespace over the deduplicated name
//! set; the catalog is immutable afterwards.

use vstd::prelude::*;

use boomphf::hashmap::BoomHashMap;
use itertools::Itertools;
use std::hash::Hash;

use crate::paf::{PafRecord, RecV};

verus! {

/// One distinct query or target sequence.
#[derive(Debug, Clone, PartialEq)]
pub struct AlignedSeq {
    /// Name of the given sequence.
    pub name: String,
    /// Its length in bases.
    pub length: usize,
    /// Its rank among the other sequences of its namespace, by descending
    /// length.
    pub rank: usize,
    /// Its starting offset on the namespace's shared axis: the summed
    /// length of every sequence ranked before it.
    pub offset: usize,
}

impl AlignedSeq {
    /// An empty entry, as the catalog builder first materializes it.
    pub fn new() -> (s: AlignedSeq)
        ensures
            s.name@ == Seq::<char>::empty(),
            s.length == 0,
            s.rank == 0,
            s.offset == 0,
    {
        AlignedSeq { name: String::new(), length: 0, rank: 0, offset: 0 }
    }
}

#[verifier::external_type_specification]
#[verifier::external_body]
#[verifier::reject_recursive_types(K)]
#[verifier::reject_recursive_types(D)]
pub struct ExBoomHashMap<K: Hash, D>(BoomHashMap<K, D>);

/// The name-to-identifier pairs a perfect-hash map holds.
pub uninterp spec fn name_index_map(m: BoomHashMap<String, usize>) -> Map<Seq<char>, usize>;

/// Relies on boomphf's `BoomHashMap::new`: it builds a minimal perfect
/// hash over the given keys (which must hold no duplicates) and pairs each
/// key with the value at its position. Construction is deterministic and,
/// for a duplicate-free key set, completes without fault.
#[verifier::external_body]
fn name_index_new(keys: Vec<String>, values: Vec<usize>) -> (m: BoomHashMap<String, usize>)
    requires
        keys@.map_values(|s: String| s@).no_duplicates(),
        keys@.len() == values@.len(),
    ensures
        forall|i: int|
            0 <= i < keys@.len() ==> name_index_map(m).contains_pair(
                (#[trigger] keys@[i])@,
                values@[i],
            ),
        forall|x: Seq<char>|
            name_index_map(m).dom().contains(x) ==> exists|i: int|
                0 <= i < keys@.len() && (#[trigger] keys@[i])@ == x,
{
    BoomHashMap::new(keys, values)
}

/// Relies on boomphf's `BoomHashMap::get`: for a key of the construction
/// set it returns the paired value; for any other key it returns `None`
/// (the stored key is compared against the probe before answering).
#[verifier::external_body]
fn name_index_get(m: &BoomHashMap<String, usize>, name: &String) -> (r: Option<usize>)
    ensures
        match r {
            Some(v) => name_index_map(*m).contains_pair(name@, v),
            None => !name_index_map(*m).dom().contains(name@),
        },
{
    m.get(name).copied()
}

/// Relies on itertools' `sorted` and `dedup`: sorting brings equal names
/// together and deduplication then removes every repeat, so the result
/// enumerates the distinct names of the input, each exactly once.
#[verifier::external_body]
fn sorted_unique_names(names: Vec<String>) -> (r: Vec<String>)
    ensures
        r@.map_values(|s: String| s@).no_duplicates(),
        forall|j: int|
            0 <= j < names@.len() ==> r@.map_values(|s: String| s@).contains(
                (#[trigger] names@[j])@,
            ),
        forall|i: int|
            0 <= i < r@.len() ==> names@.map_values(|s: String| s@).contains((#[trigger] r@[i])@),
{
    names.into_iter().sorted().dedup().collect()
}

/// The (name, length) pairs one namespace of a record stream discovers.
pub open spec fn query_pairs(rvs: Seq<RecV>) -> Seq<(Seq<char>, nat)> {
    rvs.map_values(|r: RecV| (r.query_name, r.query_length))
}

/// The target-side counterpart of `query_pairs`.
pub open spec fn target_pairs(rvs: Seq<RecV>) -> Seq<(Seq<char>, nat)> {
    rvs.map_values(|r: RecV| (r.target_name, r.target_length))
}

/// The names of a pair sequence.
pub open spec fn pair_names(ps: Seq<(Seq<char>, nat)>) -> Seq<Seq<char>> {
    ps.map_values(|p: (Seq<char>, nat)| p.0)
}

/// The first-seen length of a name: when one name occurs with conflicting
/// lengths, the first occurrence wins.
pub open spec fn first_len(ps: Seq<(Seq<char>, nat)>, name: Seq<char>) -> nat
    decreases ps.len(),
{
    if ps.len() == 0 {
        0
    } else if ps[0].0 == name {
        ps[0].1
    } else {
        first_len(ps.drop_first(), name)
    }
}

/// The first occurrence of a name fixes its length.
pub proof fn lemma_first_len_at(ps: Seq<(Seq<char>, nat)>, k: int)
    requires
        0 <= k < ps.len(),
        forall|j: int| 0 <= j < k ==> (#[trigger] ps[j]).0 != ps[k].0,
    ensures
        first_len(ps, ps[k].0) == ps[k].1,
    decreases k,
{
    if k > 0 {
        assert(ps[0].0 != ps[k].0);
        assert(forall|j: int|
            0 <= j < k - 1 ==> (#[trigger] ps.drop_first()[j]) == ps[j + 1]);
        assert(ps.drop_first()[k - 1] == ps[k]);
        lemma_first_len_at(ps.drop_first(), k - 1);
    }
}

/// The summed first-seen length of an enumeration of names.
pub open spec fn sum_first_lens(ps: Seq<(Seq<char>, nat)>, ns: Seq<Seq<char>>) -> nat
    decreases ns.len(),
{
    if ns.len() == 0 {
        0
    } else {
        sum_first_lens(ps, ns.drop_last()) + first_len(ps, ns.last())
    }
}

/// The names of a namespace's entries.
pub open spec fn seq_names(entries: Seq<AlignedSeq>) -> Seq<Seq<char>> {
    entries.map_values(|e: AlignedSeq| e.name@)
}

/// The summed length of the entries ranked before rank `r`.
pub open spec fn sum_if_rank_lt(entries: Seq<AlignedSeq>, r: int) -> nat
    decreases entries.len(),
{
    if entries.len() == 0 {
        0
    } else {
        sum_if_rank_lt(entries.drop_last(), r) + if (entries.last().rank as int) < r {
            entries.last().length as nat
        } else {
            0
        }
    }
}

/// The summed length of all entries: the namespace's axis total.
pub open spec fn total_length(entries: Seq<AlignedSeq>) -> nat
    decreases entries.len(),
{
    if entries.len() == 0 {
        0
    } else {
        total_length(entries.drop_last()) + entries.last().length as nat
    }
}

/// Ranks below the entry count cover every entry.
pub proof fn lemma_sum_all_ranks(entries: Seq<AlignedSeq>, r: int)
    requires
        forall|i: int| 0 <= i < entries.len() ==> (#[trigger] entries[i]).rank < r,
    ensures
        sum_if_rank_lt(entries, r) == total_length(entries),
    decreases entries.len(),
{
    if entries.len() > 0 {
        assert(forall|i: int|
            0 <= i < entries.len() - 1 ==> (#[trigger] entries.drop_last()[i]) == entries[i]);
        lemma_sum_all_ranks(entries.drop_last(), r);
        assert(entries.last() == entries[entries.len() - 1]);
    }
}

/// Adding the unique rank-`r` entry extends the below-rank sum by one
/// step.
pub proof fn lemma_sum_rank_step(entries: Seq<AlignedSeq>, r: int, j: int)
    requires
        0 <= j < entries.len(),
        entries[j].rank == r,
        forall|i: int| 0 <= i < entries.len() && i != j ==> (#[trigger] entries[i]).rank != r,
    ensures
        sum_if_rank_lt(entries, r + 1) == sum_if_rank_lt(entries, r) + entries[j].length,
    decreases entries.len(),
{
    assert(entries.last() == entries[entries.len() - 1]);
    assert(forall|i: int|
        0 <= i < entries.len() - 1 ==> (#[trigger] entries.drop_last()[i]) == entries[i]);
    if j == entries.len() - 1 {
        lemma_sum_rank_same(entries.drop_last(), r);
    } else {
        lemma_sum_rank_step(entries.drop_last(), r, j);
    }
}

/// When no entry has rank `r`, the sums below `r` and below `r + 1` agree.
pub proof fn lemma_sum_rank_same(entries: Seq<AlignedSeq>, r: int)
    requires
        forall|i: int| 0 <= i < entries.len() ==> (#[trigger] entries[i]).rank != r,
    ensures
        sum_if_rank_lt(entries, r + 1) == sum_if_rank_lt(entries, r),
    decreases entries.len(),
{
    if entries.len() > 0 {
        assert(forall|i: int|
            0 <= i < entries.len() - 1 ==> (#[trigger] entries.drop_last()[i]) == entries[i]);
        lemma_sum_rank_same(entries.drop_last(), r);
        assert(entries.last() == entries[entries.len() - 1]);
    }
}

/// The strict order the ranking sorts by: longer first, ties by the
/// interning order. A deliberate, implementation-defined tie-break.
pub open spec fn rank_before(entries: Seq<AlignedSeq>, x: int, y: int) -> bool {
    entries[x].length > entries[y].length || (entries[x].length == entries[y].length && x < y)
}

/// A well-formed namespace: distinct names, a bijective rank assignment
/// that orders entries by descending length with ties in interning order,
/// and each offset equal to the summed length of all entries ranked
/// before it.
pub open spec fn namespace_wf(entries: Seq<AlignedSeq>) -> bool {
    &&& seq_names(entries).no_duplicates()
    &&& (forall|i: int| 0 <= i < entries.len() ==> (#[trigger] entries[i]).rank < entries.len())
    &&& (forall|i: int, j: int|
        0 <= i < entries.len() && 0 <= j < entries.len() && i != j ==> (#[trigger] entries[i]).rank
            != (#[trigger] entries[j]).rank)
    &&& (forall|i: int, j: int|
        0 <= i < entries.len() && 0 <= j < entries.len() && (#[trigger] entries[i]).rank < (
        #[trigger] entries[j]).rank ==> rank_before(entries, i, j))
    &&& (forall|i: int|
        0 <= i < entries.len() ==> (#[trigger] entries[i]).offset == sum_if_rank_lt(
            entries,
            entries[i].rank as int,
        ))
}

/// A namespace that catalogs exactly a discovered pair stream: its names
/// are the distinct names of the stream and each entry carries the
/// first-seen length of its name.
pub open spec fn namespace_of(entries: Seq<AlignedSeq>, ps: Seq<(Seq<char>, nat)>) -> bool {
    &&& (forall|j: int|
        0 <= j < ps.len() ==> seq_names(entries).contains((#[trigger] ps[j]).0))
    &&& (forall|i: int|
        0 <= i < entries.len() ==> pair_names(ps).contains((#[trigger] entries[i]).name@))
    &&& (forall|i: int|
        0 <= i < entries.len() ==> (#[trigger] entries[i]).length == first_len(
            ps,
            entries[i].name@,
        ))
}

/// Stable sort of the entry indices by descending length: the returned
/// sequence enumerates every index once, ordered by `rank_before`.
fn rank_order(entries: &Vec<AlignedSeq>) -> (order: Vec<usize>)
    ensures
        order@.len() == entries@.len(),
        forall|k: int| 0 <= k < order@.len() ==> (#[trigger] order@[k]) < entries@.len(),
        forall|v: usize| v < entries@.len() ==> order@.contains(v),
        forall|k1: int, k2: int|
            0 <= k1 < k2 < order@.len() ==> order@[k1] != order@[k2],
        forall|k1: int, k2: int|
            0 <= k1 < k2 < order@.len() ==> rank_before(
                entries@,
                order@[k1] as int,
                order@[k2] as int,
            ),
{
    let n = entries.len();
    let mut order: Vec<usize> = Vec::new();
    let mut i: usize = 0;
    while i < n
        invariant
            0 <= i <= n,
            order@.len() == i,
            forall|k: int| 0 <= k < i ==> (#[trigger] order@[k]) == k,
        decreases n - i,
    {
        order.push(i);
        i = i + 1;
    }
    proof {
        assert forall|v: usize| v < n implies order@.contains(v) by {
            assert(order@[v as int] == v);
        }
    }
    let mut a: usize = 1;
    while a < n
        invariant
            n == entries@.len(),
            1 <= a <= n || (n <= 1 && a == 1),
            order@.len() == n,
            forall|k: int| a <= k < n ==> (#[trigger] order@[k]) == k,
            forall|k: int| 0 <= k < a && k < n ==> (#[trigger] order@[k]) < a,
            forall|v: usize| v < n ==> order@.contains(v),
            forall|k1: int, k2: int|
                0 <= k1 < k2 < a && k2 < n ==> rank_before(
                    entries@,
                    order@[k1] as int,
                    order@[k2] as int,
                ),
        decreases n - a,
    {
        let mut b: usize = a;
        while b > 0 && entries[order[b - 1]].length < entries[order[b]].length
            invariant
                n == entries@.len(),
                0 <= b <= a < n,
                order@.len() == n,
                order@[b as int] == a,
                forall|k: int| a < k < n ==> (#[trigger] order@[k]) == k,
                forall|k: int| 0 <= k <= a && k != b ==> (#[trigger] order@[k]) < a,
                forall|v: usize| v < n ==> order@.contains(v),
                forall|k1: int, k2: int|
                    0 <= k1 < k2 <= a && k1 != b && k2 != b ==> rank_before(
                        entries@,
                        order@[k1] as int,
                        order@[k2] as int,
                    ),
                forall|k: int|
                    b < k <= a ==> rank_before(entries@, a as int, order@[k] as int),
            decreases b,
        {
            let moved = order[b];
            let left = order[b - 1];
            let ghost old_order = order@;
            order[b - 1] = moved;
            order[b] = left;
            proof {
                assert(order@ =~= old_order.update(b - 1, moved).update(b as int, left));
                assert forall|v: usize| v < n implies order@.contains(v) by {
                    assert(old_order.contains(v));
                    let k0 = choose|k: int| 0 <= k < old_order.len() && old_order[k] == v;
                    if k0 == b - 1 {
                        assert(order@[b as int] == v);
                    } else if k0 == b {
                        assert(order@[b - 1] == v);
                    } else {
                        assert(order@[k0] == v);
                    }
                }
            }
            b = b - 1;
        }
        proof {
            if b > 0 {
                assert(order@[b - 1] < a);
                assert(rank_before(entries@, order@[b - 1] as int, a as int));
            }
            assert forall|k1: int, k2: int| 0 <= k1 < k2 <= a implies rank_before(
                entries@,
                order@[k1] as int,
                order@[k2] as int,
            ) by {
                if k2 == b && k1 < b {
                    if k1 < b - 1 {
                        assert(rank_before(entries@, order@[k1] as int, order@[b - 1] as int));
                        assert(rank_before(entries@, order@[b - 1] as int, a as int));
                    }
                } else if k1 == b && k2 > b {
                    assert(rank_before(entries@, a as int, order@[k2] as int));
                }
            }
        }
        a = a + 1;
    }
    proof {
        assert forall|k1: int, k2: int| 0 <= k1 < k2 < order@.len() implies order@[k1]
            != order@[k2] by {
            if n > 1 {
                assert(rank_before(entries@, order@[k1] as int, order@[k2] as int));
            }
        }
    }
    order
}

/// Assign ranks and offsets along the sorted order, accumulating the
/// running offset. Returns the axis total, or `None` exactly when the
/// accumulation leaves machine bounds.
fn apply_ranks(entries: &mut Vec<AlignedSeq>, order: &Vec<usize>) -> (r: Option<usize>)
    requires
        old(entries)@.len() == order@.len(),
        forall|k: int| 0 <= k < order@.len() ==> (#[trigger] order@[k]) < order@.len(),
        forall|k1: int, k2: int|
            0 <= k1 < k2 < order@.len() ==> order@[k1] != order@[k2],
    ensures
        final(entries)@.len() == old(entries)@.len(),
        forall|i: int|
            0 <= i < final(entries)@.len() ==> (#[trigger] final(entries)@[i]).name
                == old(entries)@[i].name && final(entries)@[i].length == old(
                entries,
            )@[i].length,
        match r {
            Some(total) => {
                &&& forall|k: int|
                    0 <= k < order@.len() ==> (#[trigger] final(entries)@[order@[k] as int]).rank
                        == k
                &&& forall|k: int|
                    0 <= k < order@.len() ==> (#[trigger] final(entries)@[order@[k] as int]).offset
                        == sum_order(old(entries)@, order@, k)
                &&& total == sum_order(old(entries)@, order@, order@.len() as int)
            },
            None => sum_order(old(entries)@, order@, order@.len() as int) > usize::MAX,
        },
{
    let n = order.len();
    let ghost entries0 = entries@;
    let mut running: usize = 0;
    let mut k: usize = 0;
    while k < n
        invariant
            entries0 == old(entries)@,
            0 <= k <= n == order@.len(),
            entries@.len() == entries0.len() == n,
            forall|j: int| 0 <= j < order@.len() ==> (#[trigger] order@[j]) < order@.len(),
            forall|j1: int, j2: int|
                0 <= j1 < j2 < order@.len() ==> order@[j1] != order@[j2],
            forall|i: int|
                0 <= i < n ==> (#[trigger] entries@[i]).name == entries0[i].name
                    && entries@[i].length == entries0[i].length,
            forall|j: int|
                0 <= j < k ==> (#[trigger] entries@[order@[j] as int]).rank == j,
            forall|j: int|
                0 <= j < k ==> (#[trigger] entries@[order@[j] as int]).offset == sum_order(
                    entries0,
                    order@,
                    j,
                ),
            forall|j: int|
                k <= j < n ==> (#[trigger] entries@[order@[j] as int]).rank == entries0[order@[j]
                    as int].rank && entries@[order@[j] as int].offset == entries0[order@[j]
                    as int].offset,
            running == sum_order(entries0, order@, k as int),
        decreases n - k,
    {
        let id = order[k];
        let name = entries[id].name.clone();
        let length = entries[id].length;
        let ghost old_entries = entries@;
        entries[id] = AlignedSeq { name, length, rank: k, offset: running };
        proof {
            assert(entries@ =~= old_entries.update(id as int, entries@[id as int]));
            assert forall|i: int|
                0 <= i < n implies (#[trigger] entries@[i]).name == entries0[i].name
                && entries@[i].length == entries0[i].length by {
                if i != id {
                    assert(entries@[i] == old_entries[i]);
                }
            }
            assert forall|j: int| 0 <= j < k implies (#[trigger] entries@[order@[j]
                as int]).rank == j by {
                assert(order@[j] != order@[k as int]);
            }
            assert(sum_order(entries0, order@, k + 1) == sum_order(entries0, order@, k as int)
                + entries0[order@[k as int] as int].length);
        }
        running = match running.checked_add(length) {
            Some(v) => v,
            None => {
                proof {
                    lemma_sum_order_take_le(entries0, order@, k + 1, n as int);
                    assert(entries@.len() == entries0.len());
                    assert(forall|i: int|
                        0 <= i < entries@.len() ==> (#[trigger] entries@[i]).name
                            == entries0[i].name && entries@[i].length == entries0[i].length);
                    assert(sum_order(entries0, order@, n as int) > usize::MAX);
                }
                return None;
            },
        };
        k = k + 1;
    }
    Some(running)
}

/// The summed length of the first `k` entries in sorted order.
pub open spec fn sum_order(entries: Seq<AlignedSeq>, order: Seq<usize>, k: int) -> nat
    decreases k,
{
    if k <= 0 {
        0
    } else {
        sum_order(entries, order, k - 1) + entries[order[k - 1] as int].length as nat
    }
}

pub proof fn lemma_sum_order_take_le(entries: Seq<AlignedSeq>, order: Seq<usize>, k: int, m: int)
    requires
        0 <= k <= m,
    ensures
        sum_order(entries, order, k) <= sum_order(entries, order, m),
    decreases m - k,
{
    if k < m {
        lemma_sum_order_take_le(entries, order, k + 1, m);
    }
}

/// A name occurs among the first `k` discovered pairs.
pub open spec fn name_seen(ps: Seq<(Seq<char>, nat)>, k: int, x: Seq<char>) -> bool {
    exists|j: int| 0 <= j < k && (#[trigger] ps[j]).0 == x
}

/// The lookup map holds exactly the catalog's names, each paired with its
/// entry's position.
pub open spec fn index_consistent(m: BoomHashMap<String, usize>, entries: Seq<AlignedSeq>) -> bool {
    &&& (forall|i: int|
        0 <= i < entries.len() ==> name_index_map(m).contains_pair(
            (#[trigger] entries[i]).name@,
            i as usize,
        ))
    &&& (forall|x: Seq<char>|
        name_index_map(m).dom().contains(x) ==> seq_names(entries).contains(x))
}

/// The views of the discovered pairs.
pub open spec fn pair_views(ps: Seq<(String, usize)>) -> Seq<(Seq<char>, nat)> {
    ps.map_values(|p: (String, usize)| (p.0@, p.1 as nat))
}

/// In-order sums agree with by-rank sums once ranks follow the order.
proof fn lemma_sum_order_eq_rank_sum(
    e0: Seq<AlignedSeq>,
    e1: Seq<AlignedSeq>,
    order: Seq<usize>,
    k: int,
)
    requires
        order.len() <= usize::MAX,
        e0.len() == order.len(),
        e1.len() == order.len(),
        forall|j: int| 0 <= j < order.len() ==> (#[trigger] order[j]) < order.len(),
        forall|j1: int, j2: int| 0 <= j1 < j2 < order.len() ==> order[j1] != order[j2],
        forall|v: usize| v < order.len() ==> order.contains(v),
        forall|i: int| 0 <= i < e1.len() ==> (#[trigger] e1[i]).length == e0[i].length,
        forall|j: int| 0 <= j < order.len() ==> (#[trigger] e1[order[j] as int]).rank == j,
        0 <= k <= order.len(),
    ensures
        sum_order(e0, order, k) == sum_if_rank_lt(e1, k),
    decreases k,
{
    if k == 0 {
        lemma_sum_rank_none_below(e1, 0);
    } else {
        lemma_sum_order_eq_rank_sum(e0, e1, order, k - 1);
        let j = order[k - 1] as int;
        assert forall|i: int| 0 <= i < e1.len() && i != j implies (#[trigger] e1[i]).rank != k
            - 1 by {
            let vi: usize = i as usize;
            assert(vi < order.len());
            assert(order.contains(vi));
            let ji = choose|x: int| 0 <= x < order.len() && order[x] == vi;
            assert(e1[order[ji] as int].rank == ji);
            assert(e1[i].rank == ji);
            if ji == k - 1 {
                assert(order[ji] == order[k - 1]);
            }
        }
        lemma_sum_rank_step(e1, k - 1, j);
    }
}

/// No entry is ranked below a non-positive bound.
proof fn lemma_sum_rank_none_below(entries: Seq<AlignedSeq>, r: int)
    requires
        r <= 0,
    ensures
        sum_if_rank_lt(entries, r) == 0,
    decreases entries.len(),
{
    if entries.len() > 0 {
        lemma_sum_rank_none_below(entries.drop_last(), r);
    }
}

/// The rank-ordered name enumeration of a namespace sums the same
/// first-seen lengths as the in-order accumulation.
proof fn lemma_overflow_witness(
    ps: Seq<(Seq<char>, nat)>,
    e0: Seq<AlignedSeq>,
    order: Seq<usize>,
    k: int,
)
    requires
        e0.len() == order.len(),
        forall|j: int| 0 <= j < order.len() ==> (#[trigger] order[j]) < order.len(),
        forall|i: int|
            0 <= i < e0.len() ==> (#[trigger] e0[i]).length == first_len(ps, e0[i].name@),
        0 <= k <= order.len(),
    ensures
        sum_first_lens(ps, Seq::new(order.len() as nat, |j: int| e0[order[j] as int].name@).take(k))
            == sum_order(e0, order, k),
    decreases k,
{
    let ns = Seq::new(order.len() as nat, |j: int| e0[order[j] as int].name@);
    if k > 0 {
        lemma_overflow_witness(ps, e0, order, k - 1);
        assert(ns.take(k).drop_last() =~= ns.take(k - 1));
        assert(ns.take(k).last() == ns[k - 1]);
    }
}

/// Build one namespace from the discovered pairs: intern the distinct
/// names, fill each entry with its first-seen length, then rank by
/// descending length and assign offsets. `None` exactly when the axis
/// total leaves machine bounds.
fn build_namespace(pairs: &Vec<(String, usize)>) -> (r: Option<
    (Vec<AlignedSeq>, BoomHashMap<String, usize>, usize),
>)
    ensures
        match r {
            Some(t) => {
                &&& namespace_wf(t.0@)
                &&& namespace_of(t.0@, pair_views(pairs@))
                &&& index_consistent(t.1, t.0@)
                &&& t.2 == total_length(t.0@)
            },
            None => exists|ns: Seq<Seq<char>>|
                ns.no_duplicates() && (forall|i: int|
                    0 <= i < ns.len() ==> pair_names(pair_views(pairs@)).contains(#[trigger] ns[i]))
                    && sum_first_lens(pair_views(pairs@), ns) > usize::MAX,
        },
{
    let ghost pv = pair_views(pairs@);
    let n_pairs = pairs.len();
    let mut names: Vec<String> = Vec::new();
    let mut i: usize = 0;
    while i < n_pairs
        invariant
            0 <= i <= n_pairs == pairs@.len(),
            names@.len() == i,
            pv == pair_views(pairs@),
            forall|k: int| 0 <= k < i ==> (#[trigger] names@[k])@ == pv[k].0,
        decreases n_pairs - i,
    {
        let nm = pairs[i].0.clone();
        names.push(nm);
        i = i + 1;
    }
    let uniq = sorted_unique_names(names);
    let ghost uniq_v = uniq@.map_values(|s: String| s@);
    let ghost names_v = names@.map_values(|s: String| s@);
    proof {
        assert forall|j: int| 0 <= j < pv.len() implies uniq_v.contains((#[trigger] pv[j]).0) by {
            assert(uniq_v.contains(names_v[j]));
            let i0 = choose|i0: int| 0 <= i0 < uniq_v.len() && uniq_v[i0] == names_v[j];
            assert(uniq_v[i0] == pv[j].0);
        }
        assert forall|i2: int| 0 <= i2 < uniq_v.len() implies pair_names(pv).contains(
            #[trigger] uniq_v[i2],
        ) by {
            assert(names_v.contains(uniq_v[i2]));
            let j0 = choose|j0: int| 0 <= j0 < names_v.len() && names_v[j0] == uniq_v[i2];
            assert(pair_names(pv)[j0] == uniq_v[i2]);
        }
    }
    let n = uniq.len();
    let mut values: Vec<usize> = Vec::new();
    let mut i2: usize = 0;
    while i2 < n
        invariant
            0 <= i2 <= n,
            values@.len() == i2,
            forall|k: int| 0 <= k < i2 ==> (#[trigger] values@[k]) == k,
        decreases n - i2,
    {
        values.push(i2);
        i2 = i2 + 1;
    }
    let ghost uniq_snapshot = uniq@;
    let index = name_index_new(uniq, values);
    let mut entries: Vec<AlignedSeq> = Vec::new();
    let mut i3: usize = 0;
    while i3 < n
        invariant
            0 <= i3 <= n,
            entries@.len() == i3,
            forall|k: int|
                0 <= k < i3 ==> (#[trigger] entries@[k]).name@ == Seq::<char>::empty()
                    && entries@[k].length == 0 && entries@[k].rank == 0 && entries@[k].offset == 0,
        decreases n - i3,
    {
        entries.push(AlignedSeq::new());
        i3 = i3 + 1;
    }
    let mut seen: Vec<bool> = Vec::new();
    let mut i4: usize = 0;
    while i4 < n
        invariant
            0 <= i4 <= n,
            seen@.len() == i4,
            forall|k: int| 0 <= k < i4 ==> !(#[trigger] seen@[k]),
        decreases n - i4,
    {
        seen.push(false);
        i4 = i4 + 1;
    }
    let mut k: usize = 0;
    while k < n_pairs
        invariant
            0 <= k <= n_pairs == pairs@.len(),
            pv == pair_views(pairs@),
            pv.len() == n_pairs,
            entries@.len() == n,
            seen@.len() == n,
            uniq_v.len() == n,
            uniq_v.no_duplicates(),
            forall|i5: int|
                0 <= i5 < n ==> name_index_map(index).contains_pair(
                    #[trigger] uniq_v[i5],
                    i5 as usize,
                ),
            forall|x: Seq<char>|
                name_index_map(index).dom().contains(x) ==> exists|i5: int|
                    0 <= i5 < n && (#[trigger] uniq_v[i5]) == x,
            forall|j: int| 0 <= j < pv.len() ==> uniq_v.contains((#[trigger] pv[j]).0),
            forall|i5: int|
                0 <= i5 < uniq_v.len() ==> pair_names(pv).contains(#[trigger] uniq_v[i5]),
            forall|i5: int|
                0 <= i5 < n ==> ((#[trigger] seen@[i5]) <==> name_seen(pv, k as int, uniq_v[i5])),
            forall|i5: int|
                0 <= i5 < n && seen@[i5] ==> (#[trigger] entries@[i5]).name@ == uniq_v[i5]
                    && entries@[i5].length == first_len(pv, uniq_v[i5]),
        decreases n_pairs - k,
    {
        let name = pairs[k].0.clone();
        let length = pairs[k].1;
        proof {
            assert(pv[k as int].0 == name@ && pv[k as int].1 == length as nat);
        }
        match name_index_get(&index, &name) {
            Some(idv) => {
                proof {
                    assert(uniq_v.contains(name@));
                }
                let ghost i_of = choose|i5: int| 0 <= i5 < n && uniq_v[i5] == name@;
                proof {
                    assert(name_index_map(index).dom().contains(name@));
                    assert(name_index_map(index).contains_pair(uniq_v[i_of], i_of as usize));
                    assert(idv == i_of as usize);
                }
                if !seen[idv] {
                    let ghost old_seen = seen@;
                    let ghost old_entries = entries@;
                    seen[idv] = true;
                    entries[idv] = AlignedSeq { name, length, rank: 0, offset: 0 };
                    proof {
                        assert(!name_seen(pv, k as int, uniq_v[idv as int]));
                        assert forall|j: int| 0 <= j < k implies (#[trigger] pv[j]).0 != pv[k
                            as int].0 by {
                            if pv[j].0 == pv[k as int].0 {
                                assert(name_seen(pv, k as int, uniq_v[idv as int]));
                            }
                        }
                        lemma_first_len_at(pv, k as int);
                        assert forall|i5: int| 0 <= i5 < n implies ((#[trigger] seen@[i5])
                            <==> name_seen(pv, k + 1, uniq_v[i5])) by {
                            if i5 == idv as int {
                                assert(pv[k as int].0 == uniq_v[i5]);
                                assert(name_seen(pv, k + 1, uniq_v[i5]));
                            } else {
                                assert(seen@[i5] == old_seen[i5]);
                                if name_seen(pv, k + 1, uniq_v[i5]) && !name_seen(
                                    pv,
                                    k as int,
                                    uniq_v[i5],
                                ) {
                                    let j = choose|j: int|
                                        0 <= j < k + 1 && (#[trigger] pv[j]).0 == uniq_v[i5];
                                    assert(j == k as int);
                                    assert(uniq_v[i5] == uniq_v[idv as int]);
                                }
                            }
                        }
                    }
                } else {
                    proof {
                        assert(name_seen(pv, k as int, uniq_v[idv as int]));
                        assert forall|i5: int| 0 <= i5 < n implies ((#[trigger] seen@[i5])
                            <==> name_seen(pv, k + 1, uniq_v[i5])) by {
                            if name_seen(pv, k + 1, uniq_v[i5]) && !name_seen(
                                pv,
                                k as int,
                                uniq_v[i5],
                            ) {
                                let j = choose|j: int|
                                    0 <= j < k + 1 && (#[trigger] pv[j]).0 == uniq_v[i5];
                                assert(j == k as int);
                                assert(uniq_v[i5] == uniq_v[idv as int]);
                            }
                        }
                    }
                }
            },
            None => {
                proof {
                    assert(uniq_v.contains(name@));
                    let i5 = choose|i5: int| 0 <= i5 < n && uniq_v[i5] == name@;
                    assert(name_index_map(index).contains_pair(uniq_v[i5], i5 as usize));
                    assert(false);
                }
            },
        }
        k = k + 1;
    }
    proof {
        assert forall|i5: int| 0 <= i5 < n implies (#[trigger] entries@[i5]).name@ == uniq_v[i5]
            && entries@[i5].length == first_len(pv, uniq_v[i5]) by {
            assert(pair_names(pv).contains(uniq_v[i5]));
            let j = choose|j: int|
                0 <= j < pair_names(pv).len() && pair_names(pv)[j] == uniq_v[i5];
            assert(pv[j].0 == uniq_v[i5]);
            assert(name_seen(pv, n_pairs as int, uniq_v[i5]));
            assert(seen@[i5]);
        }
        assert(seq_names(entries@) =~= uniq_v);
    }
    let order = rank_order(&entries);
    let ghost entries_filled = entries@;
    match apply_ranks(&mut entries, &order) {
        Some(total) => {
            proof {
                let e1 = entries@;
                assert forall|i5: int, j5: int|
                    0 <= i5 < e1.len() && 0 <= j5 < e1.len() && i5 != j5 implies (
                #[trigger] e1[i5]).rank != (#[trigger] e1[j5]).rank by {
                    assert(order@.contains(i5 as usize));
                    assert(order@.contains(j5 as usize));
                    let ki = choose|x: int| 0 <= x < order@.len() && order@[x] == i5 as usize;
                    let kj = choose|x: int| 0 <= x < order@.len() && order@[x] == j5 as usize;
                    assert(e1[i5].rank == ki && e1[j5].rank == kj);
                }
                assert forall|i5: int| 0 <= i5 < e1.len() implies (#[trigger] e1[i5]).rank
                    < e1.len() by {
                    assert(order@.contains(i5 as usize));
                    let ki = choose|x: int| 0 <= x < order@.len() && order@[x] == i5 as usize;
                    assert(e1[i5].rank == ki);
                }
                assert forall|i5: int, j5: int|
                    0 <= i5 < e1.len() && 0 <= j5 < e1.len() && (#[trigger] e1[i5]).rank < (
                #[trigger] e1[j5]).rank implies rank_before(e1, i5, j5) by {
                    assert(order@.contains(i5 as usize));
                    assert(order@.contains(j5 as usize));
                    let ki = choose|x: int| 0 <= x < order@.len() && order@[x] == i5 as usize;
                    let kj = choose|x: int| 0 <= x < order@.len() && order@[x] == j5 as usize;
                    assert(e1[i5].rank == ki && e1[j5].rank == kj);
                    assert(rank_before(entries_filled, i5, j5));
                }
                assert forall|i5: int| 0 <= i5 < e1.len() implies (#[trigger] e1[i5]).offset
                    == sum_if_rank_lt(e1, e1[i5].rank as int) by {
                    assert(order@.contains(i5 as usize));
                    let ki = choose|x: int| 0 <= x < order@.len() && order@[x] == i5 as usize;
                    assert(e1[i5].rank == ki);
                    assert(e1[i5].offset == sum_order(entries_filled, order@, ki));
                    lemma_sum_order_eq_rank_sum(entries_filled, e1, order@, ki);
                }
                lemma_sum_order_eq_rank_sum(
                    entries_filled,
                    entries@,
                    order@,
                    order@.len() as int,
                );
                lemma_sum_all_ranks(entries@, entries@.len() as int);
                assert(seq_names(entries@) =~= uniq_v);
            }
            Some((entries, index, total))
        },
        None => {
            proof {
                let ns = Seq::new(
                    order@.len() as nat,
                    |j: int| entries_filled[order@[j] as int].name@,
                );
                lemma_overflow_witness(pv, entries_filled, order@, order@.len() as int);
                assert(ns.take(ns.len() as int) =~= ns);
                assert(ns.no_duplicates()) by {
                    assert forall|k1: int, k2: int|
                        0 <= k1 < ns.len() && 0 <= k2 < ns.len() && k1 != k2 implies ns[k1]
                        != ns[k2] by {
                        assert(order@[k1] != order@[k2]);
                        assert(ns[k1] == uniq_v[order@[k1] as int]);
                        assert(ns[k2] == uniq_v[order@[k2] as int]);
                    }
                }
                assert(forall|i5: int|
                    0 <= i5 < ns.len() ==> pair_names(pv).contains(#[trigger] ns[i5]));
            }
            None
        },
    }
}

/// The catalog of one input: both namespaces with their lookup maps and
/// axis totals. Built once from the full record stream; immutable
/// afterwards.
pub struct PafFile {
    /// Each distinct query sequence, indexed by its dense identifier.
    pub queries: Vec<AlignedSeq>,
    /// Each distinct target sequence, indexed by its dense identifier.
    pub targets: Vec<AlignedSeq>,
    /// Query name to dense identifier.
    pub query_index: BoomHashMap<String, usize>,
    /// Target name to dense identifier.
    pub target_index: BoomHashMap<String, usize>,
    /// Total length of the query axis.
    pub query_axis: usize,
    /// Total length of the target axis.
    pub target_axis: usize,
}

impl PafFile {
    /// The catalog invariant: both namespaces are well formed, the lookup
    /// maps mirror them, and the axis totals sum their lengths.
    pub open spec fn wf(self) -> bool {
        &&& namespace_wf(self.queries@)
        &&& namespace_wf(self.targets@)
        &&& index_consistent(self.query_index, self.queries@)
        &&& index_consistent(self.target_index, self.targets@)
        &&& self.query_axis == total_length(self.queries@)
        &&& self.target_axis == total_length(self.targets@)
    }

    /// Build the catalog from the full ordered record stream: discover
    /// every distinct name with its first-seen length, intern the names,
    /// then rank and place each sequence on its namespace's axis. `None`
    /// exactly when an axis total leaves machine bounds.
    pub fn new(records: &Vec<PafRecord>) -> (r: Option<PafFile>)
        ensures
            match r {
                Some(pf) => {
                    &&& pf.wf()
                    &&& namespace_of(pf.queries@, query_pairs(crate::chain::rec_views(records@)))
                    &&& namespace_of(pf.targets@, target_pairs(crate::chain::rec_views(records@)))
                },
                None => exists|ns: Seq<Seq<char>>|
                    ns.no_duplicates() && ((forall|i: int|
                        0 <= i < ns.len() ==> pair_names(
                            query_pairs(crate::chain::rec_views(records@)),
                        ).contains(#[trigger] ns[i])) && sum_first_lens(
                        query_pairs(crate::chain::rec_views(records@)),
                        ns,
                    ) > usize::MAX || (forall|i: int|
                        0 <= i < ns.len() ==> pair_names(
                            target_pairs(crate::chain::rec_views(records@)),
                        ).contains(#[trigger] ns[i])) && sum_first_lens(
                        target_pairs(crate::chain::rec_views(records@)),
                        ns,
                    ) > usize::MAX),
            },
    {
        let ghost rvs = crate::chain::rec_views(records@);
        let n = records.len();
        let mut qp: Vec<(String, usize)> = Vec::new();
        let mut tp: Vec<(String, usize)> = Vec::new();
        let mut i: usize = 0;
        while i < n
            invariant
                0 <= i <= n == records@.len(),
                rvs == crate::chain::rec_views(records@),
                rvs.len() == n,
                qp@.len() == i,
                tp@.len() == i,
                forall|k: int|
                    0 <= k < i ==> (#[trigger] qp@[k]).0@ == rvs[k].query_name && qp@[k].1
                        == rvs[k].query_length,
                forall|k: int|
                    0 <= k < i ==> (#[trigger] tp@[k]).0@ == rvs[k].target_name && tp@[k].1
                        == rvs[k].target_length,
            decreases n - i,
        {
            let qn = records[i].query_name.clone();
            let ql = records[i].query_length;
            let tn = records[i].target_name.clone();
            let tl = records[i].target_length;
            qp.push((qn, ql));
            tp.push((tn, tl));
            i = i + 1;
        }
        proof {
            assert(pair_views(qp@) =~= query_pairs(rvs));
            assert(pair_views(tp@) =~= target_pairs(rvs));
        }
        let (queries, query_index, query_axis) = match build_namespace(&qp) {
            Some(t) => t,
            None => {
                return None;
            },
        };
        let (targets, target_index, target_axis) = match build_namespace(&tp) {
            Some(t) => t,
            None => {
                return None;
            },
        };
        Some(PafFile { queries, targets, query_index, target_index, query_axis, target_axis })
    }

    /// The axis offset of the query sequence with the given dense
    /// identifier.
    pub fn global_query_start(&self, idx: usize) -> (r: usize)
        requires
            idx < self.queries@.len(),
        ensures
            r == self.queries@[idx as int].offset,
    {
        self.queries[idx].offset
    }

    /// The length of the query sequence with the given dense identifier.
    pub fn query_length(&self, idx: usize) -> (r: usize)
        requires
            idx < self.queries@.len(),
        ensures
            r == self.queries@[idx as int].length,
    {
        self.queries[idx].length
    }

    /// The axis offset of the target sequence with the given dense
    /// identifier.
    pub fn global_target_start(&self, idx: usize) -> (r: usize)
        requires
            idx < self.targets@.len(),
        ensures
            r == self.targets@[idx as int].offset,
    {
        self.targets[idx].offset
    }

    /// The length of the target sequence with the given dense identifier.
    pub fn target_length(&self, idx: usize) -> (r: usize)
        requires
            idx < self.targets@.len(),
        ensures
            r == self.targets@[idx as int].length,
    {
        self.targets[idx].length
    }

    /// Map a query-local interval to the shared axis: both bounds shifted
    /// by the sequence's offset. `None` when the name was never
    /// discovered, or a shifted bound leaves machine range. A name drawn
    /// from the records that built the catalog is always found.
    pub fn query_range(&self, name: &String, start: usize, end: usize) -> (r: Option<
        (usize, usize),
    >)
        requires
            self.wf(),
        ensures
            match r {
                Some(p) => exists|i: int|
                    0 <= i < self.queries@.len() && (#[trigger] self.queries@[i]).name@ == name@
                        && self.queries@[i].offset + start <= usize::MAX && self.queries@[i].offset
                        + end <= usize::MAX && p.0 == self.queries@[i].offset + start && p.1
                        == self.queries@[i].offset + end,
                None => forall|i: int|
                    0 <= i < self.queries@.len() ==> ((#[trigger] self.queries@[i]).name@ != name@
                        || self.queries@[i].offset + start > usize::MAX || self.queries@[i].offset
                        + end > usize::MAX),
            },
    {
        range_lookup(&self.query_index, &self.queries, name, start, end)
    }

    /// Map a target-local interval to the shared axis, as `query_range`
    /// does for queries.
    pub fn target_range(&self, name: &String, start: usize, end: usize) -> (r: Option<
        (usize, usize),
    >)
        requires
            self.wf(),
        ensures
            match r {
                Some(p) => exists|i: int|
                    0 <= i < self.targets@.len() && (#[trigger] self.targets@[i]).name@ == name@
                        && self.targets@[i].offset + start <= usize::MAX && self.targets@[i].offset
                        + end <= usize::MAX && p.0 == self.targets@[i].offset + start && p.1
                        == self.targets@[i].offset + end,
                None => forall|i: int|
                    0 <= i < self.targets@.len() ==> ((#[trigger] self.targets@[i]).name@ != name@
                        || self.targets@[i].offset + start > usize::MAX || self.targets@[i].offset
                        + end > usize::MAX),
            },
    {
        range_lookup(&self.target_index, &self.targets, name, start, end)
    }

    /// The global axis position where a record's alignment starts on each
    /// axis: the target side at its begin, the query side at its end on
    /// the reverse strand and at its begin otherwise.
    pub fn global_start(&self, rec: &PafRecord, query_rev: bool) -> (r: Option<(usize, usize)>)
        requires
            self.wf(),
        ensures
            r is Some ==> exists|i: int, j: int|
                0 <= i < self.targets@.len() && 0 <= j < self.queries@.len() && (
                #[trigger] self.targets@[i]).name@ == rec.target_name@ && (
                #[trigger] self.queries@[j]).name@ == rec.query_name@ && (r->0).0
                    == self.targets@[i].offset + rec.target_begin && (r->0).1
                    == self.queries@[j].offset + (if query_rev {
                    rec.query_end
                } else {
                    rec.query_begin
                }),
            r is None ==> (forall|i: int|
                0 <= i < self.targets@.len() ==> (#[trigger] self.targets@[i]).name@
                    != rec.target_name@) || (forall|j: int|
                0 <= j < self.queries@.len() ==> (#[trigger] self.queries@[j]).name@
                    != rec.query_name@) || (exists|i: int|
                0 <= i < self.targets@.len() && (#[trigger] self.targets@[i]).name@
                    == rec.target_name@ && self.targets@[i].offset + rec.target_begin
                    > usize::MAX) || (exists|j: int|
                0 <= j < self.queries@.len() && (#[trigger] self.queries@[j]).name@
                    == rec.query_name@ && self.queries@[j].offset + (if query_rev {
                    rec.query_end
                } else {
                    rec.query_begin
                }) > usize::MAX),
    {
        let t = match range_lookup(
            &self.target_index,
            &self.targets,
            &rec.target_name,
            rec.target_begin,
            rec.target_begin,
        ) {
            Some(p) => p.0,
            None => {
                return None;
            },
        };
        let q_local = if query_rev {
            rec.query_end
        } else {
            rec.query_begin
        };
        let q = match range_lookup(
            &self.query_index,
            &self.queries,
            &rec.query_name,
            q_local,
            q_local,
        ) {
            Some(p) => p.0,
            None => {
                return None;
            },
        };
        Some((t, q))
    }
}

/// Look a name up in one namespace and shift an interval by its offset.
fn range_lookup(
    index: &BoomHashMap<String, usize>,
    entries: &Vec<AlignedSeq>,
    name: &String,
    start: usize,
    end: usize,
) -> (r: Option<(usize, usize)>)
    requires
        index_consistent(*index, entries@),
        seq_names(entries@).no_duplicates(),
    ensures
        match r {
            Some(p) => exists|i: int|
                0 <= i < entries@.len() && (#[trigger] entries@[i]).name@ == name@
                    && entries@[i].offset + start <= usize::MAX && entries@[i].offset + end
                    <= usize::MAX && p.0 == entries@[i].offset + start && p.1 == entries@[i].offset
                    + end,
            None => forall|i: int|
                0 <= i < entries@.len() ==> ((#[trigger] entries@[i]).name@ != name@
                    || entries@[i].offset + start > usize::MAX || entries@[i].offset + end
                    > usize::MAX),
        },
{
    let n = entries.len();
    match name_index_get(index, name) {
        Some(id) => {
            proof {
                assert(entries@.len() == n);
                assert(name_index_map(*index).dom().contains(name@));
                assert(seq_names(entries@).contains(name@));
                let i0 = choose|i0: int|
                    0 <= i0 < seq_names(entries@).len() && seq_names(entries@)[i0] == name@;
                assert(entries@[i0].name@ == name@);
                assert(name_index_map(*index).contains_pair(entries@[i0].name@, i0 as usize));
                assert(id == i0 as usize);
            }
            let off = entries[id].offset;
            if start > usize::MAX - off || end > usize::MAX - off {
                proof {
                    assert forall|i: int|
                        0 <= i < entries@.len() implies ((#[trigger] entries@[i]).name@ != name@
                        || entries@[i].offset + start > usize::MAX || entries@[i].offset + end
                        > usize::MAX) by {
                        if entries@[i].name@ == name@ && i != id as int {
                            assert(seq_names(entries@)[i] == entries@[i].name@);
                            assert(seq_names(entries@)[id as int] == entries@[id as int].name@);
                            assert(seq_names(entries@)[i] != seq_names(entries@)[id as int]);
                        }
                    }
                }
                None
            } else {
                proof {
                    assert((id as int) < entries@.len());
                    assert(entries@[id as int].name@ == name@);
                    assert(entries@[id as int].offset + start <= usize::MAX);
                    assert(entries@[id as int].offset + end <= usize::MAX);
                }
                Some((off + start, off + end))
            }
        },
        None => {
            proof {
                assert forall|i: int| 0 <= i < entries@.len() implies (
                #[trigger] entries@[i]).name@ != name@ by {
                    if entries@[i].name@ == name@ {
                        assert(name_index_map(*index).contains_pair(entries@[i].name@, i as usize));
                    }
                }
            }
            None
        },
    }
}

} // verus!
