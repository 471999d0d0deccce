//! Turning the sparse bytes written to one memory instance into what an
//! export sink receives: the dense image and the ranges that were written.

use crate::mem::static_mem::StaticMemDescriptor;
use std::collections::BTreeMap;
use vstd::prelude::*;
use vstd::std_specs::btree::increasing_seq;
use vstd::std_specs::iter::IteratorSpec;

verus! {

/// A run of consecutive written offsets: `offset .. offset + len`.
#[derive(Clone, Debug, PartialEq, Eq, Structural)]
pub struct StaticMemRange {
    pub offset: usize,
    pub len: usize,
}

/// The range `r` holds offset `k`.
pub open spec fn range_holds(r: StaticMemRange, k: int) -> bool {
    r.offset <= k < r.offset + r.len
}

/// Some range of `rs` holds `k`.
pub open spec fn covered(rs: Seq<StaticMemRange>, k: int) -> bool {
    exists|i: int| 0 <= i < rs.len() && #[trigger] range_holds(rs[i], k)
}

/// `rs` lists the maximal runs of `keys`: every range is non-empty, the
/// ranges come in increasing order with at least one missing offset
/// between two of them, and an offset is in a range exactly when it is
/// a key.
pub open spec fn maximal_runs(rs: Seq<StaticMemRange>, keys: Set<usize>) -> bool {
    &&& forall|i: int| 0 <= i < rs.len() ==> #[trigger] rs[i].len > 0
    &&& forall|i: int, j: int|
        0 <= i < j < rs.len() ==> #[trigger] rs[i].offset + rs[i].len < #[trigger] rs[j].offset
    &&& forall|i: int| 0 <= i < rs.len() ==> #[trigger] rs[i].offset + rs[i].len <= usize::MAX
    &&& forall|k: usize| keys.contains(k) <==> covered(rs, k as int)
}

/// `rs` lists non-empty ranges inside `0 .. n`, in increasing order, with at
/// least one offset left out between two of them.
pub open spec fn ranges_inside(rs: Seq<StaticMemRange>, n: int) -> bool {
    &&& forall|i: int| 0 <= i < rs.len() ==> #[trigger] rs[i].len > 0
    &&& forall|i: int| 0 <= i < rs.len() ==> #[trigger] rs[i].offset + rs[i].len <= n
    &&& forall|i: int, j: int|
        0 <= i < j < rs.len() ==> #[trigger] rs[i].offset + rs[i].len < #[trigger] rs[j].offset
}

/// The maximal runs of offsets below `n` lie inside `0 .. n`.
pub proof fn lemma_runs_inside(rs: Seq<StaticMemRange>, keys: Set<usize>, n: int)
    requires
        maximal_runs(rs, keys),
        forall|k: usize| #[trigger] keys.contains(k) ==> k < n,
    ensures
        ranges_inside(rs, n),
{
    assert forall|i: int| 0 <= i < rs.len() implies #[trigger] rs[i].offset + rs[i].len <= n by {
        let k = (rs[i].offset + rs[i].len - 1) as usize;
        assert(range_holds(rs[i], k as int));
        assert(keys.contains(k));
    }
}

/// A run of one list of maximal runs is a run of any other list of maximal
/// runs of the same offsets.
proof fn lemma_run_in_other(a: Seq<StaticMemRange>, b: Seq<StaticMemRange>, keys: Set<usize>, i: int) -> (j: int)
    requires
        maximal_runs(a, keys),
        maximal_runs(b, keys),
        0 <= i < a.len(),
    ensures
        0 <= j < b.len(),
        b[j] == a[i],
{
    let o = a[i].offset;
    let e = a[i].offset + a[i].len;
    assert(a[i].len > 0);
    assert(range_holds(a[i], o as int));
    assert(keys.contains(o));
    let j = choose|j: int| 0 <= j < b.len() && #[trigger] range_holds(b[j], o as int);
    assert(b[j].len > 0);
    if b[j].offset < o {
        let p = (o - 1) as usize;
        assert(range_holds(b[j], p as int));
        assert(keys.contains(p));
        let m = choose|m: int| 0 <= m < a.len() && #[trigger] range_holds(a[m], p as int);
        if m < i {
            assert(a[m].offset + a[m].len < a[i].offset);
        } else if m > i {
            assert(a[i].offset + a[i].len < a[m].offset);
        }
    }
    assert(b[j].offset == o);
    if b[j].offset + b[j].len > e {
        let q = e as usize;
        assert(range_holds(b[j], q as int));
        assert(keys.contains(q));
        let m = choose|m: int| 0 <= m < a.len() && #[trigger] range_holds(a[m], q as int);
        if m < i {
            assert(a[m].offset + a[m].len < a[i].offset);
        } else if m > i {
            assert(a[i].offset + a[i].len < a[m].offset);
        }
    }
    if b[j].offset + b[j].len < e {
        let q = (b[j].offset + b[j].len) as usize;
        assert(range_holds(a[i], q as int));
        assert(keys.contains(q));
        let m = choose|m: int| 0 <= m < b.len() && #[trigger] range_holds(b[m], q as int);
        if m < j {
            assert(b[m].offset + b[m].len < b[j].offset);
        } else if m > j {
            assert(b[j].offset + b[j].len < b[m].offset);
        }
    }
    assert(b[j] =~= a[i]);
    j
}

/// Two lists of maximal runs of the same offsets agree on their first `n`
/// runs.
proof fn lemma_runs_agree_below(a: Seq<StaticMemRange>, b: Seq<StaticMemRange>, keys: Set<usize>, n: int)
    requires
        maximal_runs(a, keys),
        maximal_runs(b, keys),
        0 <= n <= a.len(),
        n <= b.len(),
    ensures
        forall|i: int| 0 <= i < n ==> a[i] == b[i],
    decreases n,
{
    if n > 0 {
        let i = n - 1;
        lemma_runs_agree_below(a, b, keys, i);
        let j = lemma_run_in_other(a, b, keys, i);
        if j < i {
            assert(a[j] == b[j]);
            assert(a[j].offset + a[j].len < a[i].offset);
        } else if j > i {
            let k = lemma_run_in_other(b, a, keys, i);
            if k < i {
                assert(a[k] == b[k]);
                assert(b[k].offset + b[k].len < b[i].offset);
            } else if k == i {
                assert(b[i].offset + b[i].len < b[j].offset);
            } else {
                assert(a[i].offset + a[i].len < a[k].offset);
                assert(b[i].offset + b[i].len < b[j].offset);
            }
        }
    }
}

/// The written ranges are determined by the written offsets: two lists of
/// maximal runs of the same offsets are equal.
pub proof fn lemma_maximal_runs_unique(a: Seq<StaticMemRange>, b: Seq<StaticMemRange>, keys: Set<usize>)
    requires
        maximal_runs(a, keys),
        maximal_runs(b, keys),
    ensures
        a == b,
{
    if a.len() < b.len() {
        lemma_runs_agree_below(a, b, keys, a.len() as int);
        let k = lemma_run_in_other(b, a, keys, a.len() as int);
        assert(a[k] == b[k]);
        assert(b[k].offset + b[k].len < b[a.len() as int].offset);
    } else if b.len() < a.len() {
        lemma_runs_agree_below(b, a, keys, b.len() as int);
        let k = lemma_run_in_other(a, b, keys, b.len() as int);
        assert(b[k] == a[k]);
        assert(a[k].offset + a[k].len < a[b.len() as int].offset);
    } else {
        lemma_runs_agree_below(a, b, keys, a.len() as int);
    }
    assert(a =~= b);
}

/// The elements of `s` grow strictly from left to right.
pub open spec fn strictly_increasing(s: Seq<usize>) -> bool {
    forall|i: int, j: int| 0 <= i < j < s.len() ==> #[trigger] s[i] < #[trigger] s[j]
}

/// The runs built by scanning `s` from left to right: an element that
/// directly follows the end of the last run extends it, any other one
/// starts a new run.
pub open spec fn runs_of(s: Seq<usize>) -> Seq<StaticMemRange>
    decreases s.len(),
{
    if s.len() == 0 {
        Seq::empty()
    } else {
        let prev = runs_of(s.drop_last());
        let k = s.last();
        if prev.len() > 0 && prev.last().offset + prev.last().len == k {
            prev.update(
                prev.len() - 1,
                StaticMemRange { offset: prev.last().offset, len: (prev.last().len + 1) as usize },
            )
        } else {
            prev.push(StaticMemRange { offset: k, len: 1 })
        }
    }
}

/// Scanning a strictly increasing sequence of offsets (none of them
/// `usize::MAX`) yields its maximal runs, the last of which ends right
/// after the last offset.
pub proof fn lemma_runs_of_maximal(s: Seq<usize>)
    requires
        strictly_increasing(s),
        forall|i: int| 0 <= i < s.len() ==> s[i] < usize::MAX,
    ensures
        maximal_runs(runs_of(s), s.to_set()),
        s.len() > 0 ==> runs_of(s).len() > 0 && runs_of(s).last().offset + runs_of(s).last().len
            == s.last() + 1,
        s.len() == 0 ==> runs_of(s).len() == 0,
    decreases s.len(),
{
    if s.len() > 0 {
        let t = s.drop_last();
        let k = s.last();
        lemma_runs_of_maximal(t);
        let prev = runs_of(t);
        let rs = runs_of(s);
        assert(s.to_set() =~= t.to_set().insert(k)) by {
            assert(s =~= t.push(k));
            t.lemma_push_to_set_commute(k);
        }
        // every earlier offset is below k
        assert forall|x: usize| t.to_set().contains(x) implies x < k by {
            let j = choose|j: int| 0 <= j < t.len() && t[j] == x;
            assert(s[j] == t[j]);
        }
        if t.len() > 0 {
            assert(t.to_set().contains(t.last())) by {
                assert(t[t.len() - 1] == t.last());
            }
        }
        if prev.len() > 0 && prev.last().offset + prev.last().len == k {
            let n = prev.len() - 1;
            assert forall|x: usize| s.to_set().contains(x) <==> covered(rs, x as int) by {
                if covered(prev, x as int) {
                    let i = choose|i: int| 0 <= i < prev.len() && #[trigger] range_holds(prev[i], x as int);
                    assert(range_holds(rs[i], x as int));
                }
                if covered(rs, x as int) {
                    let i = choose|i: int| 0 <= i < rs.len() && #[trigger] range_holds(rs[i], x as int);
                    if x != k {
                        assert(range_holds(prev[i], x as int));
                    }
                }
                if x == k {
                    assert(range_holds(rs[n], x as int));
                }
            }
        } else {
            let n = prev.len() as int;
            if prev.len() > 0 {
                // the last run ends at t.last() + 1 <= k, and k is not its end
                assert(prev.last().offset + prev.last().len < k);
            }
            assert forall|x: usize| s.to_set().contains(x) <==> covered(rs, x as int) by {
                if covered(prev, x as int) {
                    let i = choose|i: int| 0 <= i < prev.len() && #[trigger] range_holds(prev[i], x as int);
                    assert(range_holds(rs[i], x as int));
                }
                if covered(rs, x as int) {
                    let i = choose|i: int| 0 <= i < rs.len() && #[trigger] range_holds(rs[i], x as int);
                    if i < n {
                        assert(range_holds(prev[i], x as int));
                    }
                }
                if x == k {
                    assert(range_holds(rs[n], x as int));
                }
            }
            assert forall|i: int, j: int|
                0 <= i < j < rs.len() implies #[trigger] rs[i].offset + rs[i].len
                < #[trigger] rs[j].offset by {
                if j == n {
                    assert(rs[i] == prev[i]);
                    if i < n - 1 {
                        assert(prev[i].offset + prev[i].len < prev[n - 1].offset);
                    }
                }
            }
        }
    }
}

/// The dense image of `len` bytes in which the offsets that `sparse` holds
/// carry its bytes and every other offset carries zero.
pub open spec fn dense_image(len: nat, sparse: Map<usize, u8>) -> Seq<u8> {
    Seq::new(len, |i: int| if sparse.contains_key(i as usize) { sparse[i as usize] } else { 0u8 })
}

/// Lays the written bytes of one instance out over its whole extent
/// (`width * depth` bytes), with zero where nothing was written; written
/// offsets beyond the extent are left out.
pub fn dense_data(descriptor: &StaticMemDescriptor, sparse: &BTreeMap<usize, u8>) -> (data: Vec<u8>)
    requires
        descriptor.byte_len() <= usize::MAX,
    ensures
        data@ == dense_image(descriptor.byte_len() as nat, sparse@),
{
    let len: usize = descriptor.width * descriptor.depth;
    let mut data: Vec<u8> = vec![0; len];
    let ghost pairs = sparse.iter().remaining();
    for pair in it: sparse.iter()
        invariant
            it.seq() == pairs,
            pairs == sparse.iter().remaining(),
            data@.len() == len,
            forall|i: int|
                0 <= i < len ==> #[trigger] data@[i] == 0 || (sparse@.contains_key(i as usize)
                    && data@[i] == sparse@[i as usize]),
            forall|j: int|
                0 <= j < it.index() ==> #[trigger] (*it.seq()[j].0) < len ==> data@[*it.seq()[j].0 as int]
                    == sparse@[*it.seq()[j].0],
    {
        let (offset, byte) = pair;
        if *offset < data.len() {
            data.set(*offset, *byte);
        }
    }
    proof {
        assert forall|i: int| 0 <= i < len implies #[trigger] data@[i] == dense_image(
            len as nat,
            sparse@,
        )[i] by {
            let k = i as usize;
            if sparse@.contains_key(k) {
                assert(pairs.contains((&k, &sparse@[k])));
                let j = choose|j: int| 0 <= j < pairs.len() && pairs[j] == (&k, &sparse@[k]);
                assert(*pairs[j].0 == k);
            }
        }
        assert(data@ =~= dense_image(len as nat, sparse@));
    }
    data
}

/// Groups the written offsets of `data` into the maximal runs of
/// consecutive offsets, in increasing order.
pub fn collect_valid_ranges(data: &BTreeMap<usize, u8>) -> (ranges: Vec<StaticMemRange>)
    requires
        !data@.contains_key(usize::MAX),
    ensures
        maximal_runs(ranges@, data@.dom()),
{
    let mut ranges: Vec<StaticMemRange> = Vec::new();
    let mut start_and_end: Option<(usize, usize)> = None;
    let ghost keys = data.keys().remaining().unref();
    proof {
        lemma_keys_in_order(data);
        assert forall|i: int| 0 <= i < keys.len() implies keys[i] < usize::MAX by {
            assert(keys.to_set().contains(keys[i]));
        }
    }
    for offset in it: data.keys()
        invariant
            !data@.contains_key(usize::MAX),
            it.seq().unref() == keys,
            strictly_increasing(keys),
            forall|i: int| 0 <= i < keys.len() ==> keys[i] < usize::MAX,
            match start_and_end {
                None => it.index() == 0 && ranges@.len() == 0,
                Some((s, e)) => {
                    &&& it.index() > 0
                    &&& s < e
                    &&& ranges@.push(StaticMemRange { offset: s, len: (e - s) as usize })
                        == runs_of(keys.take(it.index()))
                },
            },
    {
        let ghost idx = it.index();
        let offset: usize = *offset;
        proof {
            assert(offset == keys[idx]);
            assert(keys.take(idx + 1).drop_last() =~= keys.take(idx));
        }
        match start_and_end {
            None => {
                start_and_end = Some((offset, offset + 1));
                assert(runs_of(keys.take(0)) =~= Seq::empty());
                assert(ranges@.push(StaticMemRange { offset: offset, len: 1 }) =~= runs_of(keys.take(idx + 1)));
            }
            Some((range_start, range_end)) => {
                if offset == range_end {
                    start_and_end = Some((range_start, offset + 1));
                    assert(ranges@.push(StaticMemRange { offset: range_start, len: (offset + 1 - range_start) as usize }) =~= runs_of(keys.take(idx + 1)));
                } else {
                    ranges.push(StaticMemRange { offset: range_start, len: range_end - range_start });
                    start_and_end = Some((offset, offset + 1));
                    assert(ranges@.push(StaticMemRange { offset: offset, len: 1 }) =~= runs_of(keys.take(idx + 1)));
                }
            }
        }
    }
    if let Some((range_start, range_end)) = start_and_end {
        ranges.push(StaticMemRange { offset: range_start, len: range_end - range_start });
    }
    proof {
        assert(keys.take(keys.len() as int) =~= keys);
        lemma_runs_of_maximal(keys);
    }
    ranges
}

/// The keys of a `BTreeMap` with `usize` keys come out of `keys()` strictly
/// increasing, and together they are its domain.
proof fn lemma_keys_in_order(data: &BTreeMap<usize, u8>)
    ensures
        strictly_increasing(data.keys().remaining().unref()),
        data.keys().remaining().unref().to_set() == data@.dom(),
{
    broadcast use vstd::std_specs::btree::group_btree_axioms;

    let r = data.keys().remaining();
    assert(vstd::laws_cmp::obeys_cmp::<usize>());
    assert(vstd::laws_cmp::obeys_cmp::<&usize>());
    assert(increasing_seq(r));
    assert forall|i: int, j: int| 0 <= i < j < r.len() implies #[trigger] r.unref()[i]
        < #[trigger] r.unref()[j] by {
        assert(vstd::std_specs::cmp::OrdSpec::cmp_spec(&r[i], &r[j]) is Less);
    }
}

} // verus!
