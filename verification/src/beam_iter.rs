//! The public beam sequence: one distance-ordered stream of
//! `(ray index, crossing)` pairs over the whole fan.

use vstd::prelude::*;

use crate::beam::{pair_dsq, select_spec, Beam, BeamIntersect};
use crate::ray::tile_in_grid;

verus! {

/// Lazy, finite sequence of the cells a beam's rays cross.
pub struct BeamIter {
    pub beam: Beam,
}

impl Beam {
    /// The beam's emission sequence.
    pub fn iter(self) -> (r: BeamIter)
        requires
            self.wf(),
        ensures
            r.beam == self,
            r.wf(),
    {
        BeamIter { beam: self }
    }
}

impl BeamIter {
    /// The underlying merge state remains well formed.
    pub open spec fn wf(&self) -> bool {
        self.beam.wf()
    }

    /// The next `(ray index, crossing)` pair: the pending crossing nearest
    /// to its own ray's origin; never the cell emitted just before; `None`
    /// exactly when every ray is exhausted, and from then on.
    pub fn next(&mut self) -> (r: Option<BeamIntersect>)
        requires
            old(self).wf(),
        ensures
            final(self).wf(),
            final(self).beam.rays@.len() == old(self).beam.rays@.len(),
            final(self).beam.ray_origins == old(self).beam.ray_origins,
            final(self).beam.tile_size == old(self).beam.tile_size,
            r == (match select_spec(
                old(self).beam.ray_origins@,
                old(self).beam.intersects@,
                old(self).beam.tile_size as int,
                old(self).beam.intersects@.len() as int,
            ) {
                Option::None => None::<BeamIntersect>,
                Option::Some(j) => Some(
                    BeamIntersect(j as usize, old(self).beam.intersects@[j]->Some_0),
                ),
            }),
            r is None <==> (forall|j: int| 0 <= j < old(self).beam.intersects@.len() ==> (
            #[trigger] old(self).beam.intersects@[j]) is None),
            r is None ==> *final(self) == *old(self),
            forall|j: int| 0 <= j < old(self).beam.rays@.len() ==> (
            #[trigger] final(self).beam.rays@[j]).frame().0 == old(self).beam.rays@[j].frame().0,
            r matches Some(bi) ==> {
                &&& 0 <= bi.0 < old(self).beam.intersects@.len()
                &&& old(self).beam.intersects@[bi.0 as int] == Some(bi.1)
                &&& bi.1.wf()
                &&& tile_in_grid(bi.1, old(self).beam.rays@[bi.0 as int].ray.grid)
                &&& final(self).beam.last_cell@ == Some((bi.1.x, bi.1.y))
                &&& (old(self).beam.last_cell@ matches Some(c) ==> (bi.1.x, bi.1.y) != c)
                &&& forall|j: int| 0 <= j < old(self).beam.intersects@.len() ==> ((
                #[trigger] old(self).beam.intersects@[j]) matches Some(q) ==> pair_dsq(
                    old(self).beam.ray_origins@[bi.0 as int],
                    bi.1,
                    old(self).beam.tile_size as int,
                ) <= pair_dsq(old(self).beam.ray_origins@[j], q,
                    old(self).beam.tile_size as int))
                &&& forall|j: int| 0 <= j < bi.0 ==> ((
                #[trigger] old(self).beam.intersects@[j]) matches Some(q) ==> pair_dsq(
                    old(self).beam.ray_origins@[bi.0 as int],
                    bi.1,
                    old(self).beam.tile_size as int,
                ) < pair_dsq(old(self).beam.ray_origins@[j], q,
                    old(self).beam.tile_size as int))
                &&& final(self).beam.rays@ == crate::beam::beam_step_rays(
                    old(self).beam.rays@,
                    old(self).beam.intersects@,
                    (bi.1.x, bi.1.y),
                )
                &&& final(self).beam.intersects@ == crate::beam::beam_step_pend(
                    old(self).beam.rays@,
                    old(self).beam.intersects@,
                    (bi.1.x, bi.1.y),
                )
                &&& forall|j: int| 0 <= j < old(self).beam.rays@.len() ==> {
                    &&& ((#[trigger] old(self).beam.intersects@[j]) matches Some(q) && (q.x,
                    q.y) == (bi.1.x, bi.1.y) ==> final(self).beam.rays@[j]
                        == crate::ray_iter::iter_next_spec(old(self).beam.rays@[j]).1
                        && final(self).beam.intersects@[j] == crate::ray_iter::iter_next_spec(
                        old(self).beam.rays@[j],
                    ).0)
                    &&& ((old(self).beam.intersects@[j] matches Some(q) && !((q.x, q.y) == (
                    bi.1.x, bi.1.y))) ==> final(self).beam.rays@[j] == old(self).beam.rays@[j]
                        && final(self).beam.intersects@[j] == old(self).beam.intersects@[j])
                    &&& (old(self).beam.intersects@[j] is None ==> final(self).beam.rays@[j]
                        == old(self).beam.rays@[j] && final(self).beam.intersects@[j] == old(
                        self,
                    ).beam.intersects@[j])
                }
            },
            r is Some ==> final(self).beam.measure() < old(self).beam.measure(),
    {
        self.beam.next_intersect()
    }
}

} // verus!
