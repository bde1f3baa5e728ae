//! Multi-ray merge: a beam owns one traversal state per fan member and
//! merges their pending crossings into one stream, each element tagged with
//! the index of the ray that produced it.
//!
//! Selection picks the ray whose pending crossing is nearest to that ray's
//! own origin (the first such ray on a tie). After an emission, every ray
//! whose pending crossing lies in the emitted cell is advanced past it, so
//! no cell is re-emitted by a ray that was about to cross it in the same
//! merge round.

use vstd::prelude::*;

use crate::fixed::dist_sq;
use crate::position::{TilePosition, WorldCoords};
use crate::ray::{tile_in_grid, Ray};
use crate::ray_iter::{iter_next_spec, lemma_iter_next_props, RayIter};

verus! {

/// A crossing attributed to the fan member (by index) that produced it.
#[derive(Clone, Copy, Debug, PartialEq, Eq, Structural)]
pub struct BeamIntersect(pub usize, pub TilePosition);

/// Squared world-space distance between two tile positions.
pub open spec fn pair_dsq(a: TilePosition, b: TilePosition, ts: int) -> int {
    let wa = WorldCoords::of_tile_position(a, ts);
    let wb = WorldCoords::of_tile_position(b, ts);
    (wa.x - wb.x) * (wa.x - wb.x) + (wa.y - wb.y) * (wa.y - wb.y)
}

/// Among the first `i` pending slots, the index of the first one whose
/// crossing is at minimal distance from its own ray's origin; `None` when
/// they are all empty.
pub open spec fn select_spec(origins: Seq<TilePosition>, pend: Seq<Option<TilePosition>>,
    ts: int, i: int) -> Option<int>
    decreases i,
{
    if i <= 0 {
        None
    } else {
        let before = select_spec(origins, pend, ts, i - 1);
        match pend[i - 1] {
            Option::None => before,
            Option::Some(p) => match before {
                Option::None => Some(i - 1),
                Option::Some(j) => if pair_dsq(origins[j], pend[j]->Some_0, ts) <= pair_dsq(
                    origins[i - 1],
                    p,
                    ts,
                ) {
                    Some(j)
                } else {
                    Some(i - 1)
                },
            },
        }
    }
}

/// The selected index lies in range and points at a filled slot; `None`
/// comes exactly when every slot in range is empty.
pub proof fn lemma_select_spec_bounds(origins: Seq<TilePosition>, pend: Seq<
    Option<TilePosition>>, ts: int, i: int)
    requires
        0 <= i <= pend.len(),
    ensures
        ({
            match select_spec(origins, pend, ts, i) {
                Option::None => forall|j: int| 0 <= j < i ==> (#[trigger] pend[j]) is None,
                Option::Some(j) => 0 <= j < i && pend[j] is Some,
            }
        }),
    decreases i,
{
    if i > 0 {
        lemma_select_spec_bounds(origins, pend, ts, i - 1);
    }
}

/// Merge state over a fan of rays: per ray its deduplicated traversal, its
/// origin, and its next unconsumed crossing.
pub struct Beam {
    pub rays: Vec<RayIter>,
    pub ray_origins: Vec<TilePosition>,
    pub tile_size: i64,
    pub intersects: Vec<Option<TilePosition>>,
    pub last_cell: Ghost<Option<(u32, u32)>>,
}

/// Remaining-work bound of the merge: each ray's traversal measure plus one
/// for each filled pending slot.
pub open spec fn beam_rest(rays: Seq<RayIter>, pend: Seq<Option<TilePosition>>, i: int) -> int
    decreases rays.len() - i,
{
    if i >= rays.len() {
        0
    } else {
        rays[i].ray.measure() + (if pend[i] is Some {
            1int
        } else {
            0int
        }) + beam_rest(rays, pend, i + 1)
    }
}

/// If every per-ray term is bounded by the old one, the total is too; a
/// single strictly smaller term makes the total strictly smaller.
proof fn lemma_beam_rest_le(rays1: Seq<RayIter>, pend1: Seq<Option<TilePosition>>,
    rays2: Seq<RayIter>, pend2: Seq<Option<TilePosition>>, i: int, strict_at: int)
    requires
        rays1.len() == rays2.len(),
        pend1.len() == rays1.len(),
        pend2.len() == rays1.len(),
        forall|j: int| i <= j < rays1.len() ==> #[trigger] rays2[j].ray.measure() + (if pend2[j]
            is Some {
            1int
        } else {
            0int
        }) <= rays1[j].ray.measure() + (if pend1[j] is Some {
            1int
        } else {
            0int
        }),
        i <= strict_at < rays1.len() ==> rays2[strict_at].ray.measure() + (if pend2[strict_at]
            is Some {
            1int
        } else {
            0int
        }) < rays1[strict_at].ray.measure() + (if pend1[strict_at] is Some {
            1int
        } else {
            0int
        }),
    ensures
        beam_rest(rays2, pend2, i) <= beam_rest(rays1, pend1, i),
        i <= strict_at < rays1.len() ==> beam_rest(rays2, pend2, i) < beam_rest(
            rays1,
            pend1,
            i,
        ),
    decreases rays1.len() - i,
{
    if i < rays1.len() {
        lemma_beam_rest_le(rays1, pend1, rays2, pend2, i + 1, strict_at);
    }
}

/// A well-formed merge state's remaining-work bound is non-negative.
pub proof fn lemma_beam_measure_nonneg(b: &Beam)
    requires
        b.wf(),
    ensures
        0 <= b.measure(),
{
    lemma_beam_rest_nonneg(b.rays@, b.intersects@, 0);
}

/// The tail sums of the remaining-work bound are non-negative for
/// well-formed traversals.
proof fn lemma_beam_rest_nonneg(rays: Seq<RayIter>, pend: Seq<Option<TilePosition>>, i: int)
    requires
        0 <= i,
        forall|j: int| 0 <= j < rays.len() ==> (#[trigger] rays[j]).wf(),
    ensures
        0 <= beam_rest(rays, pend, i),
    decreases rays.len() - i,
{
    if i < rays.len() {
        rays[i].ray.lemma_measure_nonneg();
        lemma_beam_rest_nonneg(rays, pend, i + 1);
    }
}

impl Beam {
    /// Per-ray invariant: each traversal is well formed over a grid with
    /// the beam's tile size, its recorded origin matches, a filled pending
    /// slot holds the cell that traversal emitted last, an empty slot means
    /// that traversal is exhausted, and no pending slot repeats the cell
    /// the beam emitted last.
    pub open spec fn wf(&self) -> bool {
        &&& self.ray_origins.len() == self.rays.len()
        &&& self.intersects.len() == self.rays.len()
        &&& forall|j: int| 0 <= j < self.rays.len() ==> {
            let it = #[trigger] self.rays@[j];
            &&& it.wf()
            &&& it.ray.grid.tile_size == self.tile_size
            &&& self.ray_origins@[j] == it.ray.tp
            &&& (self.intersects@[j] matches Some(p) ==> tile_in_grid(p, it.ray.grid) && p.wf()
                && it.last_intersect == Some((p.x, p.y)))
            &&& (self.intersects@[j] is None ==> it.ray.intersect_x is None
                && it.ray.intersect_y is None)
            &&& (self.last_cell@ matches Some(c) ==> (self.intersects@[j] matches Some(p) ==> (
            p.x, p.y) != c))
        }
    }

    /// Remaining-work bound of the whole merge.
    pub open spec fn measure(&self) -> int {
        beam_rest(self.rays@, self.intersects@, 0)
    }

    /// Build the merge state: take each ray's first crossing as its pending
    /// slot.
    pub fn new(tile_size: i64, rays: Vec<Ray>) -> (r: Beam)
        requires
            forall|j: int| 0 <= j < rays@.len() ==> (#[trigger] rays@[j]).wf()
                && rays@[j].grid.tile_size == tile_size,
        ensures
            r.wf(),
            r.rays.len() == rays.len(),
            r.tile_size == tile_size,
            r.last_cell@ is None,
            r.intersects@.len() == rays@.len(),
            r.ray_origins@.len() == rays@.len(),
            forall|j: int| 0 <= j < rays@.len() ==> {
                let first = iter_next_spec(RayIter { ray: rays@[j], last_intersect: None });
                &&& (#[trigger] r.rays@[j]) == first.1
                &&& r.intersects@[j] == first.0
                &&& r.ray_origins@[j] == rays@[j].tp
            },
    {
        let mut iters: Vec<RayIter> = Vec::new();
        let mut origins: Vec<TilePosition> = Vec::new();
        let mut intersects: Vec<Option<TilePosition>> = Vec::new();
        let n: usize = rays.len();
        let mut i: usize = 0;
        while i < n
            invariant
                n == rays@.len(),
                0 <= i <= n,
                iters@.len() == i,
                origins@.len() == i,
                intersects@.len() == i,
                forall|j: int| 0 <= j < rays@.len() ==> (#[trigger] rays@[j]).wf()
                    && rays@[j].grid.tile_size == tile_size,
                forall|j: int| 0 <= j < i ==> {
                    let it = #[trigger] iters@[j];
                    let first = iter_next_spec(RayIter { ray: rays@[j], last_intersect: None });
                    &&& it.wf()
                    &&& it.ray.grid.tile_size == tile_size
                    &&& origins@[j] == it.ray.tp
                    &&& it == first.1
                    &&& intersects@[j] == first.0
                    &&& (intersects@[j] matches Some(p) ==> tile_in_grid(p, it.ray.grid)
                        && p.wf() && it.last_intersect == Some((p.x, p.y)))
                    &&& (intersects@[j] is None ==> it.ray.intersect_x is None
                        && it.ray.intersect_y is None)
                },
            decreases n - i,
        {
            let ray: Ray = rays[i];
            origins.push(ray.tp);
            let mut it = ray.iter();
            let first = it.next();
            iters.push(it);
            intersects.push(first);
            i = i + 1;
        }
        Beam {
            rays: iters,
            ray_origins: origins,
            tile_size,
            intersects,
            last_cell: Ghost(None),
        }
    }

    /// The index and pending crossing of the ray whose crossing is nearest
    /// to its own origin; the first such ray on a tie. `None` exactly when
    /// every slot is empty.
    fn closest_intersect(&self) -> (r: Option<BeamIntersect>)
        requires
            self.wf(),
        ensures
            ({
                let sel = select_spec(self.ray_origins@, self.intersects@,
                    self.tile_size as int, self.intersects@.len() as int);
                match sel {
                    Option::None => r is None,
                    Option::Some(j) => r == Some(
                        BeamIntersect(j as usize, self.intersects@[j]->Some_0),
                    ),
                }
            }),
            r is None <==> (forall|j: int| 0 <= j < self.intersects@.len() ==> (
            #[trigger] self.intersects@[j]) is None),
            r matches Some(bi) ==> {
                &&& 0 <= bi.0 < self.intersects@.len()
                &&& self.intersects@[bi.0 as int] == Some(bi.1)
                &&& forall|j: int| 0 <= j < self.intersects@.len() ==> ((
                #[trigger] self.intersects@[j]) matches Some(q) ==> pair_dsq(
                    self.ray_origins@[bi.0 as int],
                    bi.1,
                    self.tile_size as int,
                ) <= pair_dsq(self.ray_origins@[j], q, self.tile_size as int))
                &&& forall|j: int| 0 <= j < bi.0 ==> ((#[trigger] self.intersects@[j]) matches
                    Some(q) ==> pair_dsq(self.ray_origins@[bi.0 as int], bi.1,
                    self.tile_size as int) < pair_dsq(self.ray_origins@[j], q,
                    self.tile_size as int))
            },
    {
        let n: usize = self.intersects.len();
        let mut best: Option<BeamIntersect> = None;
        let mut best_d: u128 = 0;
        let mut i: usize = 0;
        while i < n
            invariant
                self.wf(),
                n == self.intersects@.len(),
                0 <= i <= n,
                ({
                    let sel = select_spec(self.ray_origins@, self.intersects@,
                        self.tile_size as int, i as int);
                    match sel {
                        Option::None => best is None,
                        Option::Some(j) => best == Some(
                            BeamIntersect(j as usize, self.intersects@[j]->Some_0),
                        ),
                    }
                }),
                best is None ==> (forall|j: int| 0 <= j < i ==> (
                #[trigger] self.intersects@[j]) is None),
                best matches Some(bi) ==> {
                    &&& 0 <= bi.0 < i
                    &&& self.intersects@[bi.0 as int] == Some(bi.1)
                    &&& best_d == pair_dsq(self.ray_origins@[bi.0 as int], bi.1,
                        self.tile_size as int)
                    &&& forall|j: int| 0 <= j < i ==> ((#[trigger] self.intersects@[j]) matches
                        Some(q) ==> best_d <= pair_dsq(self.ray_origins@[j], q,
                        self.tile_size as int))
                    &&& forall|j: int| 0 <= j < bi.0 ==> ((#[trigger] self.intersects@[j])
                        matches Some(q) ==> best_d < pair_dsq(self.ray_origins@[j], q,
                        self.tile_size as int))
                },
            decreases n - i,
        {
            match &self.intersects[i] {
                Some(q) => {
                    proof {
                        let it = self.rays@[i as int];
                        assert(it.wf());
                    }
                    let ow = self.ray_origins[i].to_world_coords(self.tile_size);
                    let qw = q.to_world_coords(self.tile_size);
                    let d: u128 = dist_sq(ow.x, ow.y, qw.x, qw.y);
                    match &best {
                        None => {
                            best = Some(BeamIntersect(i, *q));
                            best_d = d;
                        },
                        Some(_) => {
                            if d < best_d {
                                best = Some(BeamIntersect(i, *q));
                                best_d = d;
                            }
                        },
                    }
                },
                None => {},
            }
            proof {
                let gi = i as int;
                let o = self.ray_origins@;
                let pd = self.intersects@;
                let ts = self.tile_size as int;
                lemma_select_spec_bounds(o, pd, ts, gi);
                lemma_select_spec_bounds(o, pd, ts, gi + 1);
                assert(select_spec(o, pd, ts, gi + 1) == (match pd[gi] {
                    Option::None => select_spec(o, pd, ts, gi),
                    Option::Some(p) => match select_spec(o, pd, ts, gi) {
                        Option::None => Some(gi),
                        Option::Some(j) => if pair_dsq(o[j], pd[j]->Some_0, ts) <= pair_dsq(
                            o[gi],
                            p,
                            ts,
                        ) {
                            Some(j)
                        } else {
                            Some(gi)
                        },
                    },
                }));
            }
            i = i + 1;
        }
        best
    }

    /// Advance every ray whose pending crossing lies in the emitted cell,
    /// the emitting ray included.
    fn update_intersects(&mut self, tp: &TilePosition)
        requires
            old(self).wf(),
        ensures
            final(self).rays@.len() == old(self).rays@.len(),
            final(self).ray_origins == old(self).ray_origins,
            final(self).tile_size == old(self).tile_size,
            final(self).intersects@.len() == old(self).intersects@.len(),
            final(self).last_cell == old(self).last_cell,
            forall|j: int| 0 <= j < old(self).rays@.len() ==> {
                &&& ((#[trigger] old(self).intersects@[j]) matches Some(q) && !((q.x, q.y) == (
                tp.x, tp.y)) ==> final(self).intersects@[j] == old(self).intersects@[j]
                    && final(self).rays@[j] == old(self).rays@[j])
                &&& (old(self).intersects@[j] is None ==> final(self).intersects@[j] == old(
                    self,
                ).intersects@[j] && final(self).rays@[j] == old(self).rays@[j])
                &&& ((#[trigger] old(self).intersects@[j]) matches Some(q) && (q.x, q.y) == (
                tp.x, tp.y) ==> final(self).rays@[j] == iter_next_spec(old(self).rays@[j]).1
                    && final(self).intersects@[j] == iter_next_spec(old(self).rays@[j]).0)
                &&& (final(self).rays@[j].frame().0 == old(self).rays@[j].frame().0)
            },
            beam_rest(final(self).rays@, final(self).intersects@, 0) <= beam_rest(
                old(self).rays@,
                old(self).intersects@,
                0,
            ),
            forall|j: int| 0 <= j < old(self).rays@.len() && ((
            #[trigger] old(self).intersects@[j]) matches Some(q) && (q.x, q.y) == (tp.x, tp.y))
                ==> beam_rest(final(self).rays@, final(self).intersects@, 0) < beam_rest(
                old(self).rays@,
                old(self).intersects@,
                0,
            ),
            forall|j: int| 0 <= j < final(self).rays@.len() ==> {
                let it = #[trigger] final(self).rays@[j];
                &&& it.wf()
                &&& it.ray.grid.tile_size == final(self).tile_size
                &&& final(self).ray_origins@[j] == it.ray.tp
                &&& (final(self).intersects@[j] matches Some(p) ==> tile_in_grid(p, it.ray.grid)
                    && p.wf() && it.last_intersect == Some((p.x, p.y)))
                &&& (final(self).intersects@[j] is None ==> it.ray.intersect_x is None
                    && it.ray.intersect_y is None)
                &&& (final(self).intersects@[j] matches Some(p) ==> (p.x, p.y) != (tp.x, tp.y))
            },
    {
        let n: usize = self.rays.len();
        let ghost orig = *self;
        let mut i: usize = 0;
        while i < n
            invariant
                n == self.rays@.len(),
                0 <= i <= n,
                self.rays@.len() == orig.rays@.len(),
                self.intersects@.len() == orig.intersects@.len(),
                self.ray_origins == orig.ray_origins,
                self.tile_size == orig.tile_size,
                self.last_cell == orig.last_cell,
                orig.wf(),
                forall|j: int| i <= j < n ==> #[trigger] self.rays@[j] == orig.rays@[j]
                    && self.intersects@[j] == orig.intersects@[j],
                forall|j: int| 0 <= j < n ==> #[trigger] self.rays@[j].ray.measure() + (if self.intersects@[j]
                    is Some {
                    1int
                } else {
                    0int
                }) <= orig.rays@[j].ray.measure() + (if orig.intersects@[j] is Some {
                    1int
                } else {
                    0int
                }),
                forall|j: int| 0 <= j < i && ((#[trigger] orig.intersects@[j]) matches Some(q)
                    && (q.x, q.y) == (tp.x, tp.y)) ==> self.rays@[j].ray.measure() + (if self.intersects@[j]
                    is Some {
                    1int
                } else {
                    0int
                }) < orig.rays@[j].ray.measure() + (if orig.intersects@[j] is Some {
                    1int
                } else {
                    0int
                }),
                forall|j: int| 0 <= j < i ==> {
                    &&& ((#[trigger] orig.intersects@[j]) matches Some(q) && !((q.x, q.y) == (
                    tp.x, tp.y)) ==> self.intersects@[j] == orig.intersects@[j]
                        && self.rays@[j] == orig.rays@[j])
                    &&& (orig.intersects@[j] is None ==> self.intersects@[j]
                        == orig.intersects@[j] && self.rays@[j] == orig.rays@[j])
                    &&& ((orig.intersects@[j] matches Some(q) && (q.x, q.y) == (tp.x, tp.y))
                        ==> self.rays@[j] == iter_next_spec(orig.rays@[j]).1
                        && self.intersects@[j] == iter_next_spec(orig.rays@[j]).0)
                    &&& (self.rays@[j].frame().0 == orig.rays@[j].frame().0)
                },
                forall|j: int| 0 <= j < n ==> {
                    let it = #[trigger] self.rays@[j];
                    &&& it.wf()
                    &&& it.ray.grid.tile_size == self.tile_size
                    &&& self.ray_origins@[j] == it.ray.tp
                    &&& (self.intersects@[j] matches Some(p) ==> tile_in_grid(p, it.ray.grid)
                        && p.wf() && it.last_intersect == Some((p.x, p.y)))
                    &&& (self.intersects@[j] is None ==> it.ray.intersect_x is None
                        && it.ray.intersect_y is None)
                },
                forall|j: int| 0 <= j < i ==> ((#[trigger] self.intersects@[j]) matches Some(p)
                    ==> (p.x, p.y) != (tp.x, tp.y)),
            decreases n - i,
        {
            let matched: bool = match &self.intersects[i] {
                Some(q) => q.x == tp.x && q.y == tp.y,
                None => false,
            };
            if matched {
                let mut it: RayIter = self.rays[i];
                let next = it.next();
                self.rays.set(i, it);
                self.intersects.set(i, next);
            }
            i = i + 1;
        }
        proof {
            if exists|j: int| 0 <= j < n && ((#[trigger] orig.intersects@[j]) matches Some(q)
                && (q.x, q.y) == (tp.x, tp.y)) {
                let w = choose|j: int| 0 <= j < n && ((#[trigger] orig.intersects@[j]) matches
                    Some(q) && (q.x, q.y) == (tp.x, tp.y));
                lemma_beam_rest_le(orig.rays@, orig.intersects@, self.rays@, self.intersects@,
                    0, w);
            } else {
                lemma_beam_rest_le(orig.rays@, orig.intersects@, self.rays@, self.intersects@,
                    0, -1);
            }
        }
    }

    /// Emit the nearest pending crossing with its ray index and advance
    /// every ray that was about to cross the same cell; `None` exactly when
    /// every ray is exhausted.
    pub fn next_intersect(&mut self) -> (r: Option<BeamIntersect>)
        requires
            old(self).wf(),
        ensures
            final(self).wf(),
            final(self).rays@.len() == old(self).rays@.len(),
            final(self).ray_origins == old(self).ray_origins,
            final(self).tile_size == old(self).tile_size,
            r == (match select_spec(
                old(self).ray_origins@,
                old(self).intersects@,
                old(self).tile_size as int,
                old(self).intersects@.len() as int,
            ) {
                Option::None => None::<BeamIntersect>,
                Option::Some(j) => Some(
                    BeamIntersect(j as usize, old(self).intersects@[j]->Some_0),
                ),
            }),
            r is None <==> (forall|j: int| 0 <= j < old(self).intersects@.len() ==> (
            #[trigger] old(self).intersects@[j]) is None),
            r is None ==> *final(self) == *old(self),
            r is Some ==> final(self).measure() < old(self).measure(),
            forall|j: int| 0 <= j < old(self).rays@.len() ==> (
            #[trigger] final(self).rays@[j]).frame().0 == old(self).rays@[j].frame().0,
            r matches Some(bi) ==> {
                &&& 0 <= bi.0 < old(self).intersects@.len()
                &&& old(self).intersects@[bi.0 as int] == Some(bi.1)
                &&& bi.1.wf()
                &&& tile_in_grid(bi.1, old(self).rays@[bi.0 as int].ray.grid)
                &&& final(self).last_cell@ == Some((bi.1.x, bi.1.y))
                &&& (old(self).last_cell@ matches Some(c) ==> (bi.1.x, bi.1.y) != c)
                &&& forall|j: int| 0 <= j < old(self).intersects@.len() ==> ((
                #[trigger] old(self).intersects@[j]) matches Some(q) ==> pair_dsq(
                    old(self).ray_origins@[bi.0 as int],
                    bi.1,
                    old(self).tile_size as int,
                ) <= pair_dsq(old(self).ray_origins@[j], q, old(self).tile_size as int))
                &&& forall|j: int| 0 <= j < bi.0 ==> ((#[trigger] old(self).intersects@[j])
                    matches Some(q) ==> pair_dsq(
                    old(self).ray_origins@[bi.0 as int],
                    bi.1,
                    old(self).tile_size as int,
                ) < pair_dsq(old(self).ray_origins@[j], q, old(self).tile_size as int))
                &&& forall|j: int| 0 <= j < old(self).rays@.len() ==> {
                    &&& ((#[trigger] old(self).intersects@[j]) matches Some(q) && (q.x, q.y)
                        == (bi.1.x, bi.1.y) ==> final(self).rays@[j] == iter_next_spec(
                        old(self).rays@[j],
                    ).1 && final(self).intersects@[j] == iter_next_spec(old(self).rays@[j]).0)
                    &&& ((old(self).intersects@[j] matches Some(q) && !((q.x, q.y) == (bi.1.x,
                    bi.1.y))) ==> final(self).rays@[j] == old(self).rays@[j]
                        && final(self).intersects@[j] == old(self).intersects@[j])
                    &&& (old(self).intersects@[j] is None ==> final(self).rays@[j] == old(
                        self,
                    ).rays@[j] && final(self).intersects@[j] == old(self).intersects@[j])
                }
                &&& final(self).rays@ == beam_step_rays(old(self).rays@, old(self).intersects@,
                    (bi.1.x, bi.1.y))
                &&& final(self).intersects@ == beam_step_pend(
                    old(self).rays@,
                    old(self).intersects@,
                    (bi.1.x, bi.1.y),
                )
            },
    {
        let got = self.closest_intersect();
        match got {
            None => None,
            Some(bi) => {
                let BeamIntersect(idx, tp) = bi;
                self.update_intersects(&tp);
                self.last_cell = Ghost(Some((tp.x, tp.y)));
                proof {
                    let cell = (tp.x, tp.y);
                    let orays = old(self).rays@;
                    let opend = old(self).intersects@;
                    assert forall|j: int| 0 <= j < orays.len() implies self.rays@[j]
                        == beam_step_rays(orays, opend, cell)[j] && self.intersects@[j]
                        == beam_step_pend(orays, opend, cell)[j] by {
                        assert(opend[j] == old(self).intersects@[j]);
                    }
                    assert(self.rays@ =~= beam_step_rays(orays, opend, cell));
                    assert(self.intersects@ =~= beam_step_pend(orays, opend, cell));
                }
                Some(BeamIntersect(idx, tp))
            },
        }
    }
}

/// A well-formed merge state's components satisfy the member invariant.
pub proof fn lemma_wf_members(b: &Beam)
    requires
        b.wf(),
    ensures
        members_wf(b.rays@, b.ray_origins@, b.intersects@, b.tile_size as int),
{
}

/// The member traversals after an emission in `cell`: every ray whose
/// pending crossing lies in that cell is advanced, the others are kept.
pub open spec fn beam_step_rays(rays: Seq<RayIter>, pend: Seq<Option<TilePosition>>,
    cell: (u32, u32)) -> Seq<RayIter> {
    Seq::new(
        rays.len(),
        |j: int|
            if pend[j] matches Some(q) && (q.x, q.y) == cell {
                iter_next_spec(rays[j]).1
            } else {
                rays[j]
            },
    )
}

/// The pending slots after an emission in `cell`.
pub open spec fn beam_step_pend(rays: Seq<RayIter>, pend: Seq<Option<TilePosition>>,
    cell: (u32, u32)) -> Seq<Option<TilePosition>> {
    Seq::new(
        pend.len(),
        |j: int|
            if pend[j] matches Some(q) && (q.x, q.y) == cell {
                iter_next_spec(rays[j]).0
            } else {
                pend[j]
            },
    )
}

/// Per-member invariant of the merge, at the level of the component
/// sequences.
pub open spec fn members_wf(rays: Seq<RayIter>, origins: Seq<TilePosition>, pend: Seq<
    Option<TilePosition>>, ts: int) -> bool {
    &&& origins.len() == rays.len()
    &&& pend.len() == rays.len()
    &&& forall|j: int| 0 <= j < rays.len() ==> {
        let it = #[trigger] rays[j];
        &&& it.wf()
        &&& it.ray.grid.tile_size == ts
        &&& origins[j] == it.ray.tp
        &&& (pend[j] matches Some(p) ==> crate::ray::tile_in_grid(p, it.ray.grid) && p.wf()
            && it.last_intersect == Some((p.x, p.y)))
        &&& (pend[j] is None ==> it.ray.intersect_x is None && it.ray.intersect_y is None)
    }
}

/// One merge step on the components preserves the member invariant and
/// strictly shrinks the remaining-work bound.
pub proof fn lemma_beam_step(rays: Seq<RayIter>, origins: Seq<TilePosition>, pend: Seq<
    Option<TilePosition>>, ts: int, j0: int)
    requires
        members_wf(rays, origins, pend, ts),
        0 <= j0 < pend.len(),
        pend[j0] is Some,
    ensures
        ({
            let cell = (pend[j0]->Some_0.x, pend[j0]->Some_0.y);
            let rays2 = beam_step_rays(rays, pend, cell);
            let pend2 = beam_step_pend(rays, pend, cell);
            &&& members_wf(rays2, origins, pend2, ts)
            &&& beam_rest(rays2, pend2, 0) < beam_rest(rays, pend, 0)
            &&& 0 <= beam_rest(rays2, pend2, 0)
            &&& (forall|j: int| 0 <= j < rays.len() ==> (#[trigger] rays2[j]).frame().0
                == rays[j].frame().0)
        }),
{
    let cell = (pend[j0]->Some_0.x, pend[j0]->Some_0.y);
    let rays2 = beam_step_rays(rays, pend, cell);
    let pend2 = beam_step_pend(rays, pend, cell);
    assert forall|j: int| 0 <= j < rays.len() implies {
        let it = #[trigger] rays2[j];
        &&& it.wf()
        &&& it.ray.grid.tile_size == ts
        &&& origins[j] == it.ray.tp
        &&& (pend2[j] matches Some(p) ==> crate::ray::tile_in_grid(p, it.ray.grid) && p.wf()
            && it.last_intersect == Some((p.x, p.y)))
        &&& (pend2[j] is None ==> it.ray.intersect_x is None && it.ray.intersect_y is None)
        &&& it.frame().0 == rays[j].frame().0
        &&& rays2[j].ray.measure() + (if pend2[j] is Some {
            1int
        } else {
            0int
        }) <= rays[j].ray.measure() + (if pend[j] is Some {
            1int
        } else {
            0int
        })
    } by {
        lemma_iter_next_props(rays[j]);
    }
    lemma_iter_next_props(rays[j0]);
    lemma_beam_rest_le(rays, pend, rays2, pend2, 0, j0);
    lemma_beam_rest_nonneg(rays2, pend2, 0);
}

/// Every `(ray index, crossing)` pair the merge will emit from the given
/// component state, in order: the first slot at minimal distance from its
/// own origin is emitted, every slot pending on the emitted cell is
/// advanced, and the rest follows from the stepped state.
pub open spec fn beam_emissions(rays: Seq<RayIter>, origins: Seq<TilePosition>, pend: Seq<
    Option<TilePosition>>, ts: int) -> Seq<BeamIntersect>
    decreases beam_rest(rays, pend, 0),
        when members_wf(rays, origins, pend, ts)
        via beam_emissions_decreases
{
    match select_spec(origins, pend, ts, pend.len() as int) {
        Option::None => Seq::empty(),
        Option::Some(j) => {
            let p = pend[j]->Some_0;
            seq![BeamIntersect(j as usize, p)] + beam_emissions(
                beam_step_rays(rays, pend, (p.x, p.y)),
                origins,
                beam_step_pend(rays, pend, (p.x, p.y)),
                ts,
            )
        },
    }
}

#[via_fn]
proof fn beam_emissions_decreases(rays: Seq<RayIter>, origins: Seq<TilePosition>, pend: Seq<
    Option<TilePosition>>, ts: int) {
    lemma_select_spec_bounds(origins, pend, ts, pend.len() as int);
    lemma_beam_rest_nonneg(rays, pend, 0);
    match select_spec(origins, pend, ts, pend.len() as int) {
        Option::None => {},
        Option::Some(j) => {
            lemma_beam_step(rays, origins, pend, ts, j);
        },
    }
}

} // verus!
