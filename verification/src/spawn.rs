//! A set of pre-generated spawn points, queryable by region.
//!
//! Region queries are a linear scan over the stored points.
use crate::tile::TilePos;
use vstd::prelude::*;

verus! {

/// Whether `p` lies in the closed rectangle with corners `min` and `max`.
pub open spec fn in_rect(p: TilePos, min: TilePos, max: TilePos) -> bool {
    min.x <= p.x <= max.x && min.y <= p.y <= max.y
}


/// The points of `points` that lie in the closed rectangle from `min` to
/// `max`, in their order.
pub open spec fn in_rect_points(points: Seq<TilePos>, min: TilePos, max: TilePos) -> Seq<TilePos> {
    points.filter(|q: TilePos| in_rect(q, min, max))
}

/// Filtering selects, in order, exactly the positions whose element satisfies
/// the predicate.
proof fn lemma_filter_selects(s: Seq<TilePos>, pred: spec_fn(TilePos) -> bool)
    ensures
        exists|idx: Seq<int>|
            #![trigger idx.len()]
            {
                &&& idx.len() == s.filter(pred).len()
                &&& forall|k: int|
                    0 <= k < idx.len() ==> 0 <= #[trigger] idx[k] < s.len() && s.filter(pred)[k]
                        == s[idx[k]]
                &&& forall|k1: int, k2: int|
                    0 <= k1 < k2 < idx.len() ==> #[trigger] idx[k1] < #[trigger] idx[k2]
                &&& forall|i: int| 0 <= i < s.len() ==> (#[trigger] idx.contains(i) <==> pred(s[i]))
            },
    decreases s.len(),
{
    if s.len() == 0 {
        let idx = Seq::<int>::empty();
        assert(idx.len() == s.filter(pred).len());
    } else {
        let n = s.len() as int;
        let init = s.drop_last();
        let last = s.last();
        let r = init.filter(pred);
        lemma_filter_selects(init, pred);
        let idx0 = choose|idx: Seq<int>|
            #![trigger idx.len()]
            {
                &&& idx.len() == r.len()
                &&& forall|k: int|
                    0 <= k < idx.len() ==> 0 <= #[trigger] idx[k] < init.len() && r[k] == init[idx[k]]
                &&& forall|k1: int, k2: int|
                    0 <= k1 < k2 < idx.len() ==> #[trigger] idx[k1] < #[trigger] idx[k2]
                &&& forall|i: int| 0 <= i < init.len() ==> (#[trigger] idx.contains(i) <==> pred(init[i]))
            };
        assert(s =~= init.push(last));
        init.lemma_filter_push(last, pred);
        assert(!idx0.contains(n - 1)) by {
            if idx0.contains(n - 1) {
                let k = choose|k: int| 0 <= k < idx0.len() && idx0[k] == n - 1;
                assert(idx0[k] < init.len());
            }
        }
        if pred(last) {
            let idx = idx0.push(n - 1);
            assert forall|k: int| 0 <= k < idx.len() implies 0 <= #[trigger] idx[k] < s.len()
                && s.filter(pred)[k] == s[idx[k]] by {
                if k < idx0.len() {
                    assert(idx[k] == idx0[k]);
                    assert(init[idx0[k]] == s[idx0[k]]);
                }
            }
            assert forall|k1: int, k2: int| 0 <= k1 < k2 < idx.len() implies #[trigger] idx[k1]
                < #[trigger] idx[k2] by {
                assert(idx[k1] == idx0[k1]);
                if k2 < idx0.len() {
                    assert(idx[k2] == idx0[k2]);
                }
            }
            assert forall|i: int| 0 <= i < s.len() implies (#[trigger] idx.contains(i) <==> pred(s[i])) by {
                if i < n - 1 {
                    assert(s[i] == init[i]);
                    if idx.contains(i) {
                        let k = choose|k: int| 0 <= k < idx.len() && idx[k] == i;
                        assert(k < idx0.len());
                        assert(idx0[k] == i);
                    }
                    if idx0.contains(i) {
                        let k = choose|k: int| 0 <= k < idx0.len() && idx0[k] == i;
                        assert(idx[k] == i);
                    }
                } else {
                    assert(idx[idx0.len() as int] == i);
                }
            }
        } else {
            assert forall|k: int| 0 <= k < idx0.len() implies 0 <= #[trigger] idx0[k] < s.len()
                && s.filter(pred)[k] == s[idx0[k]] by {
                assert(init[idx0[k]] == s[idx0[k]]);
            }
            assert forall|i: int| 0 <= i < s.len() implies (#[trigger] idx0.contains(i) <==> pred(s[i])) by {
                if i < n - 1 {
                    assert(s[i] == init[i]);
                }
            }
        }
    }
}

/// A region query selects, in their stored order, exactly the stored points
/// `p` with `min.x <= p.x <= max.x` and `min.y <= p.y <= max.y`: the result is
/// `points[idx[0]], points[idx[1]], ...` for a strictly increasing `idx` that
/// holds precisely the positions of those points.
pub proof fn lemma_in_rect_points_selects(points: Seq<TilePos>, min: TilePos, max: TilePos)
    ensures
        exists|idx: Seq<int>|
            #![trigger idx.len()]
            {
                &&& idx.len() == in_rect_points(points, min, max).len()
                &&& forall|k: int|
                    0 <= k < idx.len() ==> 0 <= #[trigger] idx[k] < points.len() && in_rect_points(
                        points,
                        min,
                        max,
                    )[k] == points[idx[k]]
                &&& forall|k1: int, k2: int|
                    0 <= k1 < k2 < idx.len() ==> #[trigger] idx[k1] < #[trigger] idx[k2]
                &&& forall|i: int|
                    0 <= i < points.len() ==> (#[trigger] idx.contains(i) <==> (min.x <= points[i].x
                        <= max.x && min.y <= points[i].y <= max.y))
            },
{
    let pred = |q: TilePos| in_rect(q, min, max);
    lemma_filter_selects(points, pred);
    let idx = choose|idx: Seq<int>|
        #![trigger idx.len()]
        {
            &&& idx.len() == points.filter(pred).len()
            &&& forall|k: int|
                0 <= k < idx.len() ==> 0 <= #[trigger] idx[k] < points.len() && points.filter(pred)[k]
                    == points[idx[k]]
            &&& forall|k1: int, k2: int|
                0 <= k1 < k2 < idx.len() ==> #[trigger] idx[k1] < #[trigger] idx[k2]
            &&& forall|i: int| 0 <= i < points.len() ==> (#[trigger] idx.contains(i) <==> pred(points[i]))
        };
    assert forall|i: int| 0 <= i < points.len() implies (#[trigger] idx.contains(i) <==> (min.x
        <= points[i].x <= max.x && min.y <= points[i].y <= max.y)) by {
        assert(pred(points[i]) == (min.x <= points[i].x <= max.x && min.y <= points[i].y <= max.y));
    }
}

/// A region query reports exactly the stored points `p` with
/// `min.x <= p.x <= max.x` and `min.y <= p.y <= max.y`, and reports every
/// stored point when all of them lie in that range.
pub proof fn lemma_points_in_rect_members(points: Seq<TilePos>, min: TilePos, max: TilePos)
    ensures
        forall|p: TilePos|
            #[trigger] in_rect_points(points, min, max).contains(p) <==> (points.contains(p) && min.x
                <= p.x <= max.x && min.y <= p.y <= max.y),
        (forall|i: int|
            0 <= i < points.len() ==> min.x <= #[trigger] points[i].x <= max.x && min.y <= points[i].y
                <= max.y) ==> in_rect_points(points, min, max) == points,
{
    let r = in_rect_points(points, min, max);
    lemma_in_rect_points_selects(points, min, max);
    let idx = choose|idx: Seq<int>|
        #![trigger idx.len()]
        {
            &&& idx.len() == r.len()
            &&& forall|k: int| 0 <= k < idx.len() ==> 0 <= #[trigger] idx[k] < points.len() && r[k] == points[idx[k]]
            &&& forall|k1: int, k2: int|
                0 <= k1 < k2 < idx.len() ==> #[trigger] idx[k1] < #[trigger] idx[k2]
            &&& forall|i: int|
                0 <= i < points.len() ==> (#[trigger] idx.contains(i) <==> (min.x <= points[i].x
                    <= max.x && min.y <= points[i].y <= max.y))
        };
    assert forall|p: TilePos| #[trigger] r.contains(p) <==> (points.contains(p) && min.x <= p.x
        <= max.x && min.y <= p.y <= max.y) by {
        if r.contains(p) {
            let k = choose|k: int| 0 <= k < r.len() && r[k] == p;
            assert(idx.contains(idx[k]));
            assert(points[idx[k]] == p);
        }
        if points.contains(p) && min.x <= p.x <= max.x && min.y <= p.y <= max.y {
            let i = choose|i: int| 0 <= i < points.len() && points[i] == p;
            assert(idx.contains(i));
            let k = choose|k: int| 0 <= k < idx.len() && idx[k] == i;
            assert(r[k] == p);
        }
    }
    lemma_all_in_rect(points, min, max);
}

proof fn lemma_all_in_rect(points: Seq<TilePos>, min: TilePos, max: TilePos)
    ensures
        (forall|i: int|
            0 <= i < points.len() ==> min.x <= #[trigger] points[i].x <= max.x && min.y <= points[i].y
                <= max.y) ==> in_rect_points(points, min, max) == points,
    decreases points.len(),
{
    let pred = |q: TilePos| in_rect(q, min, max);
    if points.len() > 0 {
        let init = points.drop_last();
        lemma_all_in_rect(init, min, max);
        assert(points =~= init.push(points.last()));
        init.lemma_filter_push(points.last(), pred);
        if forall|i: int|
            0 <= i < points.len() ==> min.x <= #[trigger] points[i].x <= max.x && min.y
                <= points[i].y <= max.y {
            assert forall|i: int| 0 <= i < init.len() implies min.x <= #[trigger] init[i].x <= max.x
                && min.y <= init[i].y <= max.y by {
                assert(init[i] == points[i]);
            }
            assert(points[points.len() - 1].x == points.last().x);
            assert(pred(points.last()));
        }
    } else {
        assert(points.filter(pred) =~= points) by {
            reveal(Seq::filter);
        }
    }
}

/// A set of pre-generated spawn points, kept in the order they were given.
#[derive(Clone, Debug)]
pub struct SpawnPointSet {
    points: Vec<TilePos>,
}

impl View for SpawnPointSet {
    type V = Seq<TilePos>;

    closed spec fn view(&self) -> Seq<TilePos> {
        self.points@
    }
}

impl Default for SpawnPointSet {
    fn default() -> (s: Self)
        ensures
            s@ == Seq::<TilePos>::empty(),
    {
        SpawnPointSet { points: Vec::new() }
    }
}

impl SpawnPointSet {
    /// Creates a spawn point set from generated points.
    pub fn new(points: Vec<TilePos>) -> (s: Self)
        ensures
            s@ == points@,
    {
        SpawnPointSet { points }
    }

    /// All spawn points in the set.
    pub fn points(&self) -> (r: &[TilePos])
        ensures
            r@ == self@,
    {
        self.points.as_slice()
    }

    /// All spawn points, in order, as a vector of their own.
    pub fn iter(&self) -> (r: Vec<TilePos>)
        ensures
            r@ == self@,
    {
        let n = self.points.len();
        let mut r: Vec<TilePos> = Vec::with_capacity(n);
        for i in 0..n
            invariant
                n == self@.len(),
                r@ == self@.take(i as int),
        {
            r.push(self.points[i]);
            assert(self@.take(i + 1) =~= self@.take(i as int).push(self@[i as int]));
        }
        assert(self@.take(n as int) =~= self@);
        r
    }

    /// The spawn points in the closed rectangle from `min` to `max`, in order.
    pub fn points_in_rect(&self, min: TilePos, max: TilePos) -> (r: Vec<TilePos>)
        ensures
            r@ == in_rect_points(self@, min, max),
            forall|k: int|
                0 <= k < r@.len() ==> min.x <= #[trigger] r@[k].x <= max.x && min.y <= r@[k].y
                    <= max.y,
            forall|i: int|
                0 <= i < self@.len() && min.x <= #[trigger] self@[i].x <= max.x && min.y
                    <= self@[i].y <= max.y ==> r@.contains(self@[i]),
            exists|idx: Seq<int>|
                #![trigger idx.len()]
                {
                    &&& idx.len() == r@.len()
                    &&& forall|k: int|
                        0 <= k < idx.len() ==> 0 <= #[trigger] idx[k] < self@.len() && r@[k]
                            == self@[idx[k]]
                    &&& forall|k1: int, k2: int|
                        0 <= k1 < k2 < idx.len() ==> #[trigger] idx[k1] < #[trigger] idx[k2]
                    &&& forall|i: int|
                        0 <= i < self@.len() ==> (#[trigger] idx.contains(i) <==> (min.x
                            <= self@[i].x <= max.x && min.y <= self@[i].y <= max.y))
                },
    {
        let ghost pred = |p: TilePos| in_rect(p, min, max);
        let n = self.points.len();
        let mut r: Vec<TilePos> = Vec::new();
        for i in 0..n
            invariant
                n == self@.len(),
                r@ == self@.take(i as int).filter(pred),
                pred == (|p: TilePos| in_rect(p, min, max)),
        {
            let p = self.points[i];
            assert(pred(p) == in_rect(p, min, max));
            assert(self@.take(i + 1) =~= self@.take(i as int).push(p));
            proof {
                self@.take(i as int).lemma_filter_push(p, pred);
            }
            if p.x >= min.x && p.x <= max.x && p.y >= min.y && p.y <= max.y {
                r.push(p);
            }
        }
        assert(self@.take(n as int) =~= self@);
        proof {
            lemma_in_rect_points_selects(self@, min, max);
            lemma_points_in_rect_members(self@, min, max);
            assert forall|k: int| 0 <= k < r@.len() implies min.x <= #[trigger] r@[k].x <= max.x
                && min.y <= r@[k].y <= max.y by {
                assert(r@.contains(r@[k]));
            }
            assert forall|i: int|
                0 <= i < self@.len() && min.x <= #[trigger] self@[i].x <= max.x && min.y
                    <= self@[i].y <= max.y implies r@.contains(self@[i]) by {
                assert(self@.contains(self@[i]));
            }
        }
        r
    }

    /// The number of spawn points.
    pub fn len(&self) -> (n: usize)
        ensures
            n == self@.len(),
    {
        self.points.len()
    }

    /// Whether the set holds no spawn points.
    pub fn is_empty(&self) -> (b: bool)
        ensures
            b == (self@.len() == 0),
    {
        self.points.is_empty()
    }
}

} // verus!
