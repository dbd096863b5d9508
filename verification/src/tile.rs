//! Integer tile positions, and the removal of repeated tiles that follows the
//! rounding of continuous samples onto the tile grid.
use std::collections::HashSet;
use vstd::prelude::*;

verus! {

/// A position on the integer tile grid.
#[derive(Clone, Copy, Debug, PartialEq, Eq, Structural, Hash)]
pub struct TilePos {
    pub x: i32,
    pub y: i32,
}

impl TilePos {
    /// A tile at column `x`, row `y`.
    pub fn new(x: i32, y: i32) -> (p: TilePos)
        ensures
            p.x == x,
            p.y == y,
    {
        TilePos { x, y }
    }
}

/// The tiles of `s` in order, each kept only where it occurs for the first time.
pub open spec fn first_occurrences(s: Seq<TilePos>) -> Seq<TilePos>
    decreases s.len(),
{
    if s.len() == 0 {
        Seq::empty()
    } else {
        let rest = first_occurrences(s.drop_last());
        if s.drop_last().contains(s.last()) {
            rest
        } else {
            rest.push(s.last())
        }
    }
}

/// Removing repeated tiles keeps exactly the tiles that occur, each once, and
/// never lengthens the sequence.
pub proof fn lemma_first_occurrences_properties(s: Seq<TilePos>)
    ensures
        forall|t: TilePos| #[trigger] first_occurrences(s).contains(t) <==> s.contains(t),
        first_occurrences(s).no_duplicates(),
        first_occurrences(s).len() <= s.len(),
    decreases s.len(),
{
    if s.len() > 0 {
        let init = s.drop_last();
        let last = s.last();
        let r = first_occurrences(init);
        lemma_first_occurrences_properties(init);
        assert forall|t: TilePos| #[trigger] s.contains(t) <==> (init.contains(t) || t == last) by {
            if s.contains(t) {
                let j = choose|j: int| 0 <= j < s.len() && s[j] == t;
                if j < s.len() - 1 {
                    assert(init[j] == t);
                }
            }
            if init.contains(t) {
                let j = choose|j: int| 0 <= j < init.len() && init[j] == t;
                assert(s[j] == t);
            }
            if t == last {
                assert(s[s.len() - 1] == t);
            }
        }
        if !init.contains(last) {
            assert forall|t: TilePos| #[trigger] r.push(last).contains(t) <==> (r.contains(t) || t == last) by {
                if r.push(last).contains(t) {
                    let j = choose|j: int| 0 <= j < r.len() + 1 && r.push(last)[j] == t;
                    if j < r.len() {
                        assert(r[j] == t);
                    }
                }
                if r.contains(t) {
                    let j = choose|j: int| 0 <= j < r.len() && r[j] == t;
                    assert(r.push(last)[j] == t);
                }
                if t == last {
                    assert(r.push(last)[r.len() as int] == t);
                }
            }
            assert(r.push(last).no_duplicates()) by {
                assert forall|i: int, j: int|
                    0 <= i < r.len() + 1 && 0 <= j < r.len() + 1 && i != j implies
                    r.push(last)[i] != r.push(last)[j] by {
                    if i == r.len() {
                        assert(r.contains(r[j]));
                    } else if j == r.len() {
                        assert(r.contains(r[i]));
                    }
                }
            }
        }
    }
}

/// Tiles that are already pairwise distinct pass through unchanged.
pub proof fn lemma_first_occurrences_distinct(s: Seq<TilePos>)
    requires
        s.no_duplicates(),
    ensures
        first_occurrences(s) == s,
    decreases s.len(),
{
    if s.len() > 0 {
        let init = s.drop_last();
        assert(init.no_duplicates());
        lemma_first_occurrences_distinct(init);
        assert(!init.contains(s.last())) by {
            if init.contains(s.last()) {
                let j = choose|j: int| 0 <= j < init.len() && init[j] == s.last();
                assert(s[j] == s[s.len() - 1]);
            }
        }
        assert(s =~= init.push(s.last()));
    }
}

/// Removing repeated tiles a second time changes nothing.
pub proof fn lemma_first_occurrences_idempotent(s: Seq<TilePos>)
    ensures
        first_occurrences(first_occurrences(s)) == first_occurrences(s),
{
    lemma_first_occurrences_properties(s);
    lemma_first_occurrences_distinct(first_occurrences(s));
}


/// Removing repeated tiles selects, in their original order, exactly the
/// positions `i` of `s` whose tile occurs at no earlier position `j < i`:
/// the result is `s[idx[0]], s[idx[1]], ...` for a strictly increasing `idx`
/// that holds precisely those first-occurrence positions.
pub proof fn lemma_first_occurrences_selects_first_positions(s: Seq<TilePos>)
    ensures
        exists|idx: Seq<int>|
            #![trigger idx.len()]
            {
                &&& idx.len() == first_occurrences(s).len()
                &&& forall|k: int|
                    0 <= k < idx.len() ==> 0 <= #[trigger] idx[k] < s.len()
                        && first_occurrences(s)[k] == s[idx[k]]
                &&& forall|k1: int, k2: int|
                    0 <= k1 < k2 < idx.len() ==> #[trigger] idx[k1] < #[trigger] idx[k2]
                &&& forall|i: int|
                    0 <= i < s.len() ==> (#[trigger] idx.contains(i) <==> forall|j: int|
                        0 <= j < i ==> s[j] != s[i])
            },
    decreases s.len(),
{
    if s.len() == 0 {
        let idx = Seq::<int>::empty();
        assert(idx.len() == first_occurrences(s).len());
    } else {
        let n = s.len() as int;
        let init = s.drop_last();
        let last = s.last();
        let r = first_occurrences(init);
        lemma_first_occurrences_selects_first_positions(init);
        let idx0 = choose|idx: Seq<int>|
            #![trigger idx.len()]
            {
                &&& idx.len() == r.len()
                &&& forall|k: int|
                    0 <= k < idx.len() ==> 0 <= #[trigger] idx[k] < init.len() && r[k] == init[idx[k]]
                &&& forall|k1: int, k2: int|
                    0 <= k1 < k2 < idx.len() ==> #[trigger] idx[k1] < #[trigger] idx[k2]
                &&& forall|i: int|
                    0 <= i < init.len() ==> (#[trigger] idx.contains(i) <==> forall|j: int|
                        0 <= j < i ==> init[j] != init[i])
            };
        if init.contains(last) {
            assert(first_occurrences(s) == r);
            let j0 = choose|j: int| 0 <= j < init.len() && init[j] == last;
            assert(s[j0] == s[n - 1]);
            assert(!idx0.contains(n - 1)) by {
                if idx0.contains(n - 1) {
                    let k = choose|k: int| 0 <= k < idx0.len() && idx0[k] == n - 1;
                    assert(idx0[k] < init.len());
                }
            }
            assert forall|i: int| 0 <= i < s.len() implies (#[trigger] idx0.contains(i) <==> forall|j: int|
                0 <= j < i ==> s[j] != s[i]) by {
                if i < n - 1 {
                    assert(s[i] == init[i]);
                    assert forall|j: int| 0 <= j < i implies #[trigger] s[j] == init[j] by {}
                    assert(idx0.contains(i) <==> forall|j: int| 0 <= j < i ==> init[j] != init[i]);
                }
                if i == n - 1 {
                    assert(!(forall|j: int| 0 <= j < i ==> s[j] != s[i])) by {
                        assert(s[j0] == s[i]);
                    }
                }
            }
            assert forall|k: int| 0 <= k < idx0.len() implies 0 <= #[trigger] idx0[k] < s.len()
                && first_occurrences(s)[k] == s[idx0[k]] by {
                assert(init[idx0[k]] == s[idx0[k]]);
            }
        } else {
            let idx = idx0.push(n - 1);
            assert(first_occurrences(s) == r.push(last));
            assert forall|k: int| 0 <= k < idx.len() implies 0 <= #[trigger] idx[k] < s.len()
                && first_occurrences(s)[k] == s[idx[k]] by {
                if k < idx0.len() {
                    assert(idx[k] == idx0[k]);
                    assert(init[idx0[k]] == s[idx0[k]]);
                }
            }
            assert forall|k1: int, k2: int| 0 <= k1 < k2 < idx.len() implies #[trigger] idx[k1]
                < #[trigger] idx[k2] by {
                assert(idx[k1] == idx0[k1]);
                if k2 < idx0.len() {
                    assert(idx[k2] == idx0[k2]);
                }
            }
            assert forall|i: int| 0 <= i < s.len() implies (#[trigger] idx.contains(i) <==> forall|j: int|
                0 <= j < i ==> s[j] != s[i]) by {
                if i < n - 1 {
                    assert(s[i] == init[i]);
                    assert forall|j: int| 0 <= j < i implies #[trigger] s[j] == init[j] by {}
                    assert(idx0.contains(i) <==> forall|j: int| 0 <= j < i ==> init[j] != init[i]);
                }
                if idx.contains(i) && i != n - 1 {
                    let k = choose|k: int| 0 <= k < idx.len() && idx[k] == i;
                    assert(k < idx0.len());
                    assert(idx0[k] == i);
                    assert(idx0.contains(i));
                }
                if i < n - 1 && idx0.contains(i) {
                    let k = choose|k: int| 0 <= k < idx0.len() && idx0[k] == i;
                    assert(idx[k] == i);
                }
                if i == n - 1 {
                    assert(idx[idx0.len() as int] == i);
                    assert forall|j: int| 0 <= j < i implies s[j] != s[i] by {
                        if s[j] == s[i] {
                            assert(init[j] == last);
                        }
                    }
                }
            }
        }
    }
}

/// A 64-bit key that tells tiles apart: the column and row, each shifted to be
/// non-negative, as the high and low 32-bit halves.
spec fn tile_key(p: TilePos) -> int {
    (p.x + 0x8000_0000) * 0x1_0000_0000 + (p.y + 0x8000_0000)
}

proof fn lemma_tile_key_injective(a: TilePos, b: TilePos)
    ensures
        tile_key(a) == tile_key(b) ==> a == b,
        0 <= tile_key(a) <= u64::MAX,
{
    let ax = a.x + 0x8000_0000;
    let ay = a.y + 0x8000_0000;
    let bx = b.x + 0x8000_0000;
    let by_ = b.y + 0x8000_0000;
    assert(ax * 0x1_0000_0000 + ay == bx * 0x1_0000_0000 + by_ ==> ax == bx && ay == by_)
        by (nonlinear_arith)
        requires
            0 <= ax < 0x1_0000_0000,
            0 <= ay < 0x1_0000_0000,
            0 <= bx < 0x1_0000_0000,
            0 <= by_ < 0x1_0000_0000,
    ;
    assert(0 <= ax * 0x1_0000_0000 + ay <= u64::MAX) by (nonlinear_arith)
        requires
            0 <= ax < 0x1_0000_0000,
            0 <= ay < 0x1_0000_0000,
    ;
}

fn tile_key_of(p: TilePos) -> (k: u64)
    ensures
        k == tile_key(p),
{
    proof {
        lemma_tile_key_injective(p, p);
    }
    let hx: u64 = (p.x as i64 + 0x8000_0000i64) as u64;
    let hy: u64 = (p.y as i64 + 0x8000_0000i64) as u64;
    assert(hx * 0x1_0000_0000 <= 0xffff_ffff_0000_0000) by (nonlinear_arith)
        requires
            hx < 0x1_0000_0000,
    ;
    hx * 0x1_0000_0000 + hy
}

/// Removes repeated tiles, keeping the first occurrence of each, in order.
pub fn dedup_tiles(points: Vec<TilePos>) -> (out: Vec<TilePos>)
    ensures
        out@ == first_occurrences(points@),
        exists|idx: Seq<int>|
            #![trigger idx.len()]
            {
                &&& idx.len() == out@.len()
                &&& forall|k: int|
                    0 <= k < idx.len() ==> 0 <= #[trigger] idx[k] < points@.len() && out@[k]
                        == points@[idx[k]]
                &&& forall|k1: int, k2: int|
                    0 <= k1 < k2 < idx.len() ==> #[trigger] idx[k1] < #[trigger] idx[k2]
                &&& forall|i: int|
                    0 <= i < points@.len() ==> (#[trigger] idx.contains(i) <==> forall|j: int|
                        0 <= j < i ==> points@[j] != points@[i])
            },
{
    broadcast use vstd::std_specs::hash::group_hash_axioms;

    let n = points.len();
    let mut seen: HashSet<u64> = HashSet::with_capacity(n);
    let mut out: Vec<TilePos> = Vec::new();
    for i in 0..n
        invariant
            n == points@.len(),
            out@ == first_occurrences(points@.take(i as int)),
            forall|k: u64|
                #![trigger seen@.contains(k)]
                seen@.contains(k) <==> exists|j: int| 0 <= j < i && tile_key(points@[j]) == k,
    {
        let p = points[i];
        let key = tile_key_of(p);
        let ghost before = points@.take(i as int);
        assert(points@.take(i + 1).drop_last() =~= before);
        assert(points@.take(i + 1).last() == p);
        assert(before.contains(p) <==> seen@.contains(key)) by {
            if before.contains(p) {
                let j = choose|j: int| 0 <= j < before.len() && before[j] == p;
                assert(tile_key(points@[j]) == key);
            }
            if seen@.contains(key) {
                let j = choose|j: int| 0 <= j < i && tile_key(points@[j]) == key;
                lemma_tile_key_injective(points@[j], p);
                assert(before[j] == p);
            }
        }
        if seen.insert(key) {
            out.push(p);
        }
        assert forall|k: u64| #![trigger seen@.contains(k)]
            seen@.contains(k) <==> exists|j: int| 0 <= j < i + 1 && tile_key(points@[j]) == k by {
            if seen@.contains(k) && k != key {
                let j = choose|j: int| 0 <= j < i && tile_key(points@[j]) == k;
                assert(0 <= j < i + 1);
            }
            if k == key {
                assert(tile_key(points@[i as int]) == k);
            }
        }
    }
    assert(points@.take(n as int) =~= points@);
    proof {
        lemma_first_occurrences_selects_first_positions(points@);
    }
    out
}

} // verus!
