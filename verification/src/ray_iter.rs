//! The public single-ray sequence: wraps the raw traversal and suppresses a
//! crossing that lands in the same cell as the one just emitted, which
//! happens when the ray passes exactly through a grid corner.

use vstd::prelude::*;

use crate::position::TilePosition;
use crate::ray::{emit_spec, lemma_emit_spec, ray_frame, tile_in_grid, Ray};

verus! {

/// Lazy, finite, duplicate-free sequence of the cells a ray crosses.
#[derive(Clone, Copy, Debug)]
pub struct RayIter {
    pub ray: Ray,
    pub last_intersect: Option<(u32, u32)>,
}

/// The value and successor state of one call of [`RayIter::next`]: the next
/// deduplicated emission of the traversal, with the emitted cell recorded.
pub open spec fn iter_next_spec(it: RayIter) -> (Option<TilePosition>, RayIter) {
    let s = emit_spec(it.ray, it.last_intersect);
    (
        s.0,
        RayIter {
            ray: s.1,
            last_intersect: match s.0 {
                Option::Some(p) => Some((p.x, p.y)),
                Option::None => it.last_intersect,
            },
        },
    )
}

impl Ray {
    /// The ray's emission sequence, starting before the first crossing.
    pub fn iter(self) -> (r: RayIter)
        requires
            self.wf(),
        ensures
            r.ray == self,
            r.last_intersect is None,
            r.wf(),
    {
        RayIter { ray: self, last_intersect: None }
    }
}

impl RayIter {
    /// The underlying ray remains a valid traversal state.
    pub open spec fn wf(&self) -> bool {
        self.ray.wf()
    }

    /// The parts of the ray that iteration never changes.
    pub open spec fn frame(&self) -> (Ray, Option<(u32, u32)>) {
        (ray_frame(self.ray), self.last_intersect)
    }

    /// The next cell of the sequence: the nearer pending crossing, skipping
    /// crossings that repeat the cell emitted just before. The result and
    /// the successor state are exactly [`iter_next_spec`] of the old state;
    /// `None` comes exactly when the traversal has left the grid on both
    /// axes.
    pub fn next(&mut self) -> (r: Option<TilePosition>)
        requires
            old(self).wf(),
        ensures
            r == iter_next_spec(*old(self)).0,
            *final(self) == iter_next_spec(*old(self)).1,
            final(self).wf(),
            final(self).frame().0 == old(self).frame().0,
            final(self).ray.measure() <= old(self).ray.measure(),
            r is Some ==> final(self).ray.measure() < old(self).ray.measure(),
            r matches Some(p) ==> {
                &&& tile_in_grid(p, old(self).ray.grid)
                &&& p.wf()
                &&& final(self).last_intersect == Some((p.x, p.y))
                &&& (old(self).last_intersect matches Some(c) ==> (p.x, p.y) != c)
            },
            r is None ==> {
                &&& final(self).ray.intersect_x is None
                &&& final(self).ray.intersect_y is None
                &&& final(self).last_intersect == old(self).last_intersect
            },
    {
        proof {
            lemma_emit_spec(old(self).ray, old(self).last_intersect);
        }
        loop
            invariant
                self.ray.wf(),
                self.last_intersect == old(self).last_intersect,
                self.frame().0 == old(self).frame().0,
                self.ray.measure() <= old(self).ray.measure(),
                emit_spec(self.ray, self.last_intersect) == emit_spec(
                    old(self).ray,
                    old(self).last_intersect,
                ),
            decreases self.ray.measure(),
        {
            proof {
                self.ray.lemma_measure_nonneg();
            }
            let ghost pre = self.ray;
            let next = self.ray.next_intersect();
            proof {
                assert(self.ray == crate::ray::raw_step_spec(pre).1);
                assert(next == crate::ray::raw_step_spec(pre).0);
            }
            match next {
                None => {
                    return None;
                },
                Some(p) => {
                    let same: bool = match self.last_intersect {
                        Some((lx, ly)) => lx == p.x && ly == p.y,
                        None => false,
                    };
                    if !same {
                        self.last_intersect = Some((p.x, p.y));
                        return Some(p);
                    }
                },
            }
        }
    }
}

/// One iterator step preserves well-formedness and the frame, shrinks the
/// traversal measure when it emits, and never repeats the recorded cell.
pub proof fn lemma_iter_next_props(it: RayIter)
    requires
        it.wf(),
    ensures
        ({
            let s = iter_next_spec(it);
            &&& s.1.wf()
            &&& s.1.frame().0 == it.frame().0
            &&& 0 <= s.1.ray.measure() <= it.ray.measure()
            &&& (s.0 is Some ==> s.1.ray.measure() < it.ray.measure())
            &&& (s.0 matches Some(p) ==> tile_in_grid(p, it.ray.grid) && p.wf()
                && s.1.last_intersect == Some((p.x, p.y)) && (it.last_intersect matches Some(c)
                ==> (p.x, p.y) != c))
            &&& (s.0 is None ==> s.1.ray.intersect_x is None && s.1.ray.intersect_y is None
                && s.1.last_intersect == it.last_intersect)
        }),
{
    lemma_emit_spec(it.ray, it.last_intersect);
    it.ray.lemma_measure_nonneg();
}

} // verus!
