//! The facade: build ray and beam sequences from scene parameters and fold
//! a caller-supplied validity predicate over them.
//!
//! The scan queries are specified against [`cast_ray_seq`], the full
//! emission sequence of the ray, with the predicate's recorded outcomes
//! quoted through `call_ensures`: a query says which element of the
//! sequence it returns and what the predicate answered on the elements it
//! was shown.

use vstd::prelude::*;

use crate::angle::{AngleRad, AngleTrig};
use crate::beam::{beam_emissions, lemma_wf_members, Beam, BeamIntersect};
use crate::beam_iter::BeamIter;
use crate::grid::Grid;
use crate::position::TilePosition;
use crate::ray::{emissions_spec, lemma_mono_init, lemma_monotonic_emissions, lemma_ray_make_wf,
    lemma_tile_dsq_nonneg, mono_scale_ok, origin_in_grid, pendings_ge, ray_make, tile_dsq,
    tile_in_grid, trig_consistent, Ray};
use crate::ray_iter::{iter_next_spec, RayIter};
use crate::rays::{fan_spec, rays_from};

verus! {

/// The full emission sequence of a ray cast from `tp` at `angle` with the
/// given tangent.
pub open spec fn cast_ray_seq(grid: Grid, tp: TilePosition, angle: AngleRad, tan: int) -> Seq<
    TilePosition,
> {
    emissions_spec(ray_make(grid, tp, angle, tan), None)
}

/// The full emission sequence of a beam of the given width cast from
/// `center` at `angle`: the merge of the fan's member traversals.
pub open spec fn cast_beam_seq(center: TilePosition, grid: Grid, width: int, angle: AngleRad,
    trig: AngleTrig) -> Seq<BeamIntersect> {
    let fan = fan_spec(center, grid, width, angle, trig);
    beam_emissions(
        Seq::new(
            fan.len(),
            |j: int| iter_next_spec(RayIter { ray: fan[j], last_intersect: None }).1,
        ),
        Seq::new(fan.len(), |j: int| fan[j].tp),
        Seq::new(
            fan.len(),
            |j: int| iter_next_spec(RayIter { ray: fan[j], last_intersect: None }).0,
        ),
        grid.tile_size as int,
    )
}

/// The valid-to-invalid transition of a predicate along a ray: the last
/// cell for which the predicate held and the first for which it failed.
#[derive(Debug, PartialEq, Eq, Structural)]
pub struct Crossing {
    pub valid: Option<TilePosition>,
    pub invalid: Option<TilePosition>,
}

impl Default for Crossing {
    /// The empty transition: no valid region was reached.
    fn default() -> (r: Self)
        ensures
            r.valid is None,
            r.invalid is None,
    {
        Crossing { valid: None, invalid: None }
    }
}

/// Builds rays and beams over one grid and answers scan queries on them.
pub struct TileRaycaster {
    pub grid: Grid,
}

impl TileRaycaster {
    /// The grid is a valid lattice.
    pub open spec fn wf(&self) -> bool {
        self.grid.wf()
    }

    /// Wrap a grid.
    pub fn new(grid: Grid) -> (r: Self)
        requires
            grid.wf(),
        ensures
            r.grid == grid,
            r.wf(),
    {
        TileRaycaster { grid }
    }

    /// The grid this caster works on.
    pub fn grid(&self) -> (r: &Grid)
        ensures
            r == &self.grid,
    {
        &self.grid
    }

    /// The sequence of cells a ray from `tp` at `angle` crosses. The
    /// angle's tangent enters as a plain fixed-point input.
    pub fn cast_ray(&self, tp: &TilePosition, angle: &AngleRad, tan: i64) -> (r: RayIter)
        requires
            self.wf(),
            tp.wf(),
            origin_in_grid(*tp, self.grid),
        ensures
            r.ray == ray_make(self.grid, *tp, *angle, tan as int),
            r.last_intersect is None,
            r.wf(),
            emissions_spec(r.ray, r.last_intersect) == cast_ray_seq(
                self.grid,
                *tp,
                *angle,
                tan as int,
            ),
    {
        let ray = Ray::new(self.grid, *tp, angle, tan);
        ray.iter()
    }

    /// The merged sequence of a beam: a fan of parallel rays of the given
    /// width centered on `beam_center`, each starting before its first
    /// crossing.
    pub fn cast_beam(&self, beam_center: &TilePosition, beam_width: i64, angle: &AngleRad,
        trig: &AngleTrig) -> (r: BeamIter)
        requires
            self.wf(),
            beam_center.wf(),
            1 <= beam_width,
        ensures
            r.wf(),
            r.beam.last_cell@ is None,
            r.beam.tile_size == self.grid.tile_size,
            ({
                let fan = fan_spec(*beam_center, self.grid, beam_width as int, *angle, *trig);
                &&& r.beam.rays@.len() == fan.len()
                &&& r.beam.intersects@.len() == fan.len()
                &&& r.beam.ray_origins@.len() == fan.len()
                &&& forall|j: int| 0 <= j < fan.len() ==> {
                    let first = iter_next_spec(
                        RayIter { ray: fan[j], last_intersect: None },
                    );
                    &&& (#[trigger] r.beam.rays@[j]) == first.1
                    &&& r.beam.intersects@[j] == first.0
                    &&& r.beam.ray_origins@[j] == fan[j].tp
                }
            }),
    {
        let rays = rays_from(beam_center, &self.grid, beam_width, angle, trig);
        let beam = Beam::new(self.grid.tile_size, rays);
        beam.iter()
    }

    /// The last cell of the ray for which the predicate holds, scanning
    /// only while it holds: the result is the element of the emission
    /// sequence just before the first one the predicate rejected (or the
    /// last element when it rejected none), and `None` exactly when the
    /// sequence is empty or its first element was rejected.
    pub fn last_valid<F: Fn(TilePosition) -> bool>(&self, tp: &TilePosition, angle: &AngleRad,
        tan: i64, is_valid: F) -> (r: Option<TilePosition>)
        requires
            self.wf(),
            tp.wf(),
            origin_in_grid(*tp, self.grid),
            forall|p: TilePosition| #[trigger] is_valid.requires((p,)),
        ensures
            ({
                let s = cast_ray_seq(self.grid, *tp, *angle, tan as int);
                &&& (r is None ==> s.len() == 0 || is_valid.ensures((s[0],), false))
                &&& (r matches Some(p) ==> exists|i: int|
                    {
                        &&& 0 <= i < s.len()
                        &&& p == #[trigger] s[i]
                        &&& (forall|j: int| 0 <= j <= i ==> is_valid.ensures(
                            (#[trigger] s[j],),
                            true,
                        ))
                        &&& (i + 1 < s.len() ==> is_valid.ensures((s[i + 1],), false))
                    })
            }),
            r matches Some(p) ==> tile_in_grid(p, self.grid) && p.wf() && is_valid.ensures(
                (p,),
                true,
            ),
    {
        let ghost s = cast_ray_seq(self.grid, *tp, *angle, tan as int);
        let mut iter = self.cast_ray(tp, angle, tan);
        let mut last: Option<TilePosition> = None;
        let ghost mut i: int = 0;
        loop
            invariant
                iter.wf(),
                iter.ray.grid == self.grid,
                forall|p: TilePosition| #[trigger] is_valid.requires((p,)),
                0 <= i <= s.len(),
                emissions_spec(iter.ray, iter.last_intersect) == s.skip(i),
                forall|j: int| 0 <= j < i ==> is_valid.ensures((#[trigger] s[j],), true),
                last is Some <==> i > 0,
                last matches Some(p) ==> p == s[i - 1] && tile_in_grid(p, self.grid) && p.wf(),
                s == cast_ray_seq(self.grid, *tp, *angle, tan as int),
            decreases iter.ray.measure(),
        {
            proof {
                iter.ray.lemma_measure_nonneg();
            }
            let ghost pre = iter;
            match iter.next() {
                None => {
                    proof {
                        assert(s.skip(i).len() == 0);
                        if last is Some {
                            assert(0 <= i - 1 < s.len() && last->Some_0 == s[i - 1]);
                        }
                    }
                    return last;
                },
                Some(p) => {
                    proof {
                        lemma_seq_suffix_step(s, i, p, emissions_spec(
                            iter.ray,
                            iter.last_intersect,
                        ), emissions_spec(pre.ray, pre.last_intersect));
                    }
                    if is_valid(p) {
                        last = Some(p);
                        proof {
                            i = i + 1;
                        }
                    } else {
                        proof {
                            if last is Some {
                                assert(0 <= i - 1 < s.len() && last->Some_0 == s[i - 1]);
                                assert(is_valid.ensures((s[i],), false));
                            }
                        }
                        return last;
                    }
                },
            }
        }
    }

    /// The first cell of the ray the predicate rejects, with every earlier
    /// cell accepted; `None` exactly when every cell of the sequence was
    /// accepted.
    pub fn first_invalid<F: Fn(TilePosition) -> bool>(&self, tp: &TilePosition,
        angle: &AngleRad, tan: i64, is_valid: F) -> (r: Option<TilePosition>)
        requires
            self.wf(),
            tp.wf(),
            origin_in_grid(*tp, self.grid),
            forall|p: TilePosition| #[trigger] is_valid.requires((p,)),
        ensures
            ({
                let s = cast_ray_seq(self.grid, *tp, *angle, tan as int);
                &&& (r is None ==> forall|j: int| 0 <= j < s.len() ==> is_valid.ensures(
                    (#[trigger] s[j],),
                    true,
                ))
                &&& (r matches Some(p) ==> exists|i: int|
                    {
                        &&& 0 <= i < s.len()
                        &&& p == #[trigger] s[i]
                        &&& is_valid.ensures((s[i],), false)
                        &&& (forall|j: int| 0 <= j < i ==> is_valid.ensures(
                            (#[trigger] s[j],),
                            true,
                        ))
                    })
            }),
            r matches Some(p) ==> tile_in_grid(p, self.grid) && p.wf() && is_valid.ensures(
                (p,),
                false,
            ),
    {
        let ghost s = cast_ray_seq(self.grid, *tp, *angle, tan as int);
        let mut iter = self.cast_ray(tp, angle, tan);
        let ghost mut i: int = 0;
        loop
            invariant
                iter.wf(),
                iter.ray.grid == self.grid,
                forall|p: TilePosition| #[trigger] is_valid.requires((p,)),
                0 <= i <= s.len(),
                emissions_spec(iter.ray, iter.last_intersect) == s.skip(i),
                forall|j: int| 0 <= j < i ==> is_valid.ensures((#[trigger] s[j],), true),
                s == cast_ray_seq(self.grid, *tp, *angle, tan as int),
            decreases iter.ray.measure(),
        {
            proof {
                iter.ray.lemma_measure_nonneg();
            }
            let ghost pre = iter;
            match iter.next() {
                None => {
                    proof {
                        assert(s.skip(i).len() == 0);
                    }
                    return None;
                },
                Some(p) => {
                    proof {
                        lemma_seq_suffix_step(s, i, p, emissions_spec(
                            iter.ray,
                            iter.last_intersect,
                        ), emissions_spec(pre.ray, pre.last_intersect));
                    }
                    if !is_valid(p) {
                        return Some(p);
                    }
                    proof {
                        i = i + 1;
                    }
                },
            }
        }
    }

    /// The last emission of the beam for which the predicate holds,
    /// scanning only while it holds: the result is the element of the
    /// beam's emission sequence just before the first one the predicate
    /// rejected (or the last element when it rejected none), and `None`
    /// exactly when the sequence is empty or its first element was
    /// rejected.
    #[verifier::rlimit(100)]
    pub fn beam_last_valid<F: Fn(BeamIntersect) -> bool>(&self, beam_center: &TilePosition,
        beam_width: i64, angle: &AngleRad, trig: &AngleTrig, is_valid: F) -> (r: Option<
        BeamIntersect>)
        requires
            self.wf(),
            beam_center.wf(),
            1 <= beam_width,
            forall|bi: BeamIntersect| #[trigger] is_valid.requires((bi,)),
        ensures
            ({
                let bs = cast_beam_seq(*beam_center, self.grid, beam_width as int, *angle,
                    *trig);
                &&& (r is None ==> bs.len() == 0 || is_valid.ensures((bs[0],), false))
                &&& (r matches Some(bi) ==> exists|i: int|
                    {
                        &&& 0 <= i < bs.len()
                        &&& bi == #[trigger] bs[i]
                        &&& (forall|j: int| 0 <= j <= i ==> is_valid.ensures(
                            (#[trigger] bs[j],),
                            true,
                        ))
                        &&& (i + 1 < bs.len() ==> is_valid.ensures((bs[i + 1],), false))
                    })
            }),
            r matches Some(bi) ==> bi.1.wf() && is_valid.ensures((bi,), true),
    {
        let ghost bs = cast_beam_seq(*beam_center, self.grid, beam_width as int, *angle, *trig);
        let mut iter = self.cast_beam(beam_center, beam_width, angle, trig);
        proof {
            let fan = fan_spec(*beam_center, self.grid, beam_width as int, *angle, *trig);
            assert forall|j: int| 0 <= j < fan.len() implies iter.beam.ray_origins@[j]
                == fan[j].tp && iter.beam.intersects@[j] == iter_next_spec(
                RayIter { ray: fan[j], last_intersect: None },
            ).0 by {
                assert(iter.beam.rays@[j] == iter_next_spec(
                    RayIter { ray: fan[j], last_intersect: None },
                ).1);
            }
            assert(iter.beam.rays@ =~= Seq::new(
                fan.len(),
                |j: int| iter_next_spec(RayIter { ray: fan[j], last_intersect: None }).1,
            ));
            assert(iter.beam.ray_origins@ =~= Seq::new(fan.len(), |j: int| fan[j].tp));
            assert(iter.beam.intersects@ =~= Seq::new(
                fan.len(),
                |j: int| iter_next_spec(RayIter { ray: fan[j], last_intersect: None }).0,
            ));
            assert(bs.skip(0) =~= bs);
        }
        let ghost origins0 = iter.beam.ray_origins@;
        let mut last: Option<BeamIntersect> = None;
        let ghost mut i: int = 0;
        loop
            invariant
                iter.wf(),
                iter.beam.ray_origins@ == origins0,
                forall|bi: BeamIntersect| #[trigger] is_valid.requires((bi,)),
                0 <= i <= bs.len(),
                beam_emissions(iter.beam.rays@, iter.beam.ray_origins@, iter.beam.intersects@,
                    iter.beam.tile_size as int) == bs.skip(i),
                iter.beam.tile_size == self.grid.tile_size,
                forall|j: int| 0 <= j < i ==> is_valid.ensures((#[trigger] bs[j],), true),
                last is Some <==> i > 0,
                last matches Some(bi) ==> bi == bs[i - 1] && bi.1.wf() && is_valid.ensures(
                    (bi,),
                    true,
                ),
                bs == cast_beam_seq(*beam_center, self.grid, beam_width as int, *angle, *trig),
            decreases iter.beam.measure(),
        {
            proof {
                crate::beam::lemma_beam_measure_nonneg(&iter.beam);
                lemma_wf_members(&iter.beam);
            }
            let ghost pre = iter;
            match iter.next() {
                None => {
                    proof {
                        assert(bs.skip(i).len() == 0);
                        if last is Some {
                            assert(0 <= i - 1 < bs.len() && last->Some_0 == bs[i - 1]);
                        }
                    }
                    return last;
                },
                Some(bi) => {
                    proof {
                        let rest = beam_emissions(iter.beam.rays@, iter.beam.ray_origins@,
                            iter.beam.intersects@, iter.beam.tile_size as int);
                        lemma_beam_suffix_step(bs, i, bi, rest, beam_emissions(pre.beam.rays@,
                            pre.beam.ray_origins@, pre.beam.intersects@,
                            pre.beam.tile_size as int));
                    }
                    if is_valid(bi) {
                        last = Some(bi);
                        proof {
                            i = i + 1;
                            crate::beam::lemma_beam_measure_nonneg(&iter.beam);
                        }
                    } else {
                        proof {
                            if last is Some {
                                assert(0 <= i - 1 < bs.len() && last->Some_0 == bs[i - 1]);
                                assert(is_valid.ensures((bs[i],), false));
                            }
                        }
                        return last;
                    }
                },
            }
        }
    }

    /// Scan the ray for the transition where the predicate stops holding:
    /// `valid` is the element before the first rejected one and `invalid`
    /// that element; `invalid` is absent when no element was rejected, and
    /// both are absent when the sequence is empty or its first element (or,
    /// at exhaustion, the re-checked last element) was rejected.
    pub fn crossing<F: Fn(TilePosition) -> bool>(&self, tp: &TilePosition, angle: &AngleRad,
        tan: i64, is_valid: F) -> (r: Crossing)
        requires
            self.wf(),
            tp.wf(),
            origin_in_grid(*tp, self.grid),
            forall|p: TilePosition| #[trigger] is_valid.requires((p,)),
        ensures
            r.invalid is Some ==> r.valid is Some,
            ({
                let s = cast_ray_seq(self.grid, *tp, *angle, tan as int);
                &&& (r.valid is None ==> r.invalid is None && (s.len() == 0 || is_valid.ensures(
                    (s[0],),
                    false,
                ) || is_valid.ensures((s[s.len() - 1],), false)))
                &&& (r.valid matches Some(p) ==> exists|i: int|
                    {
                        &&& 0 <= i < s.len()
                        &&& p == #[trigger] s[i]
                        &&& (forall|j: int| 0 <= j <= i ==> is_valid.ensures(
                            (#[trigger] s[j],),
                            true,
                        ))
                        &&& (match r.invalid {
                            Option::Some(q) => i + 1 < s.len() && q == s[i + 1]
                                && is_valid.ensures((q,), false),
                            Option::None => i == s.len() - 1,
                        })
                    })
            }),
            r.valid matches Some(p) ==> tile_in_grid(p, self.grid) && p.wf()
                && is_valid.ensures((p,), true),
            r.invalid matches Some(p) ==> tile_in_grid(p, self.grid) && p.wf()
                && is_valid.ensures((p,), false),
    {
        let ghost s = cast_ray_seq(self.grid, *tp, *angle, tan as int);
        let mut iter = self.cast_ray(tp, angle, tan);
        let ghost pre0 = iter;
        let first = iter.next();
        proof {
            assert(s.skip(0) =~= s);
            if first is Some {
                lemma_seq_suffix_step(s, 0, first->Some_0, emissions_spec(
                    iter.ray,
                    iter.last_intersect,
                ), emissions_spec(pre0.ray, pre0.last_intersect));
            }
        }
        let mut prev: TilePosition = match first {
            None => {
                return Crossing::default();
            },
            Some(p) => p,
        };
        if !is_valid(prev) {
            return Crossing::default();
        }
        let ghost mut i: int = 0;
        loop
            invariant
                iter.wf(),
                iter.ray.grid == self.grid,
                forall|p: TilePosition| #[trigger] is_valid.requires((p,)),
                0 <= i < s.len(),
                prev == s[i],
                emissions_spec(iter.ray, iter.last_intersect) == s.skip(i + 1),
                forall|j: int| 0 <= j <= i ==> is_valid.ensures((#[trigger] s[j],), true),
                tile_in_grid(prev, self.grid),
                prev.wf(),
                s == cast_ray_seq(self.grid, *tp, *angle, tan as int),
            decreases iter.ray.measure(),
        {
            proof {
                iter.ray.lemma_measure_nonneg();
            }
            let ghost pre = iter;
            match iter.next() {
                None => {
                    proof {
                        assert(s.skip(i + 1).len() == 0);
                    }
                    if is_valid(prev) {
                        return Crossing { valid: Some(prev), invalid: None };
                    }
                    return Crossing { valid: None, invalid: None };
                },
                Some(next) => {
                    proof {
                        lemma_seq_suffix_step(s, i + 1, next, emissions_spec(
                            iter.ray,
                            iter.last_intersect,
                        ), emissions_spec(pre.ray, pre.last_intersect));
                    }
                    if is_valid(next) {
                        prev = next;
                        proof {
                            i = i + 1;
                        }
                    } else {
                        return Crossing { valid: Some(prev), invalid: Some(next) };
                    }
                },
            }
        }
    }
}

/// Monotonic distance of a cast ray's emitted sequence: under trigonometry
/// consistent with the classified directions and a tile size coarse enough
/// for the snapping tolerance, the squared distances of the emissions from
/// the ray's origin never decrease along the sequence (and consecutive
/// emissions always differ in cell, by the iterator's contract; an exact
/// distance tie between the two axes' crossings is the one case that stops
/// the increase from being strict).
pub proof fn lemma_cast_ray_monotonic(grid: Grid, tp: TilePosition, angle: AngleRad, tan: i64)
    requires
        grid.wf(),
        tp.wf(),
        origin_in_grid(tp, grid),
        trig_consistent(ray_make(grid, tp, angle, tan as int)),
        mono_scale_ok(grid),
    ensures
        ({
            let r0 = ray_make(grid, tp, angle, tan as int);
            let s = cast_ray_seq(grid, tp, angle, tan as int);
            forall|i: int| 0 <= i && i + 1 < s.len() ==> tile_dsq(r0.wc, #[trigger] s[i + 1],
                grid.tile_size as int) >= tile_dsq(r0.wc, s[i], grid.tile_size as int)
        }),
{
    let r0 = ray_make(grid, tp, angle, tan as int);
    lemma_ray_make_wf(grid, tp, angle, tan);
    lemma_mono_init(grid, tp, angle, tan);
    assert(pendings_ge(r0, 0)) by {
        if r0.intersect_x is Some {
            lemma_tile_dsq_nonneg(r0.wc, r0.intersect_x->Some_0, grid.tile_size as int);
        }
        if r0.intersect_y is Some {
            lemma_tile_dsq_nonneg(r0.wc, r0.intersect_y->Some_0, grid.tile_size as int);
        }
    }
    lemma_monotonic_emissions(r0, None, 0);
}


/// Peeling one emission off a suffix of the sequence: if the remaining
/// emissions from position `i` are `[p]` followed by the new remaining
/// emissions, then `p` is the sequence's element at `i` and the new
/// remainder is the suffix from `i + 1`.
proof fn lemma_seq_suffix_step(s: Seq<TilePosition>, i: int, p: TilePosition,
    rest: Seq<TilePosition>, old_suffix: Seq<TilePosition>)
    requires
        0 <= i <= s.len(),
        old_suffix == s.skip(i),
        old_suffix == seq![p] + rest,
    ensures
        i < s.len(),
        p == s[i],
        rest == s.skip(i + 1),
{
    assert(s.skip(i).len() == s.len() - i);
    assert(old_suffix.len() == 1 + rest.len());
    assert(s.skip(i)[0] == s[i]);
    assert(rest.len() == s.len() - i - 1);
    assert forall|j: int| 0 <= j < rest.len() implies rest[j] == s.skip(i + 1)[j] by {
        assert(rest[j] == (seq![p] + rest)[j + 1]);
        assert(s.skip(i)[j + 1] == s[i + j + 1]);
        assert(s.skip(i + 1)[j] == s[i + 1 + j]);
    }
    assert(s.skip(i + 1).len() == s.len() - i - 1);
    assert(rest =~= s.skip(i + 1));
}

/// The beam counterpart of the suffix-peeling argument.
proof fn lemma_beam_suffix_step(s: Seq<BeamIntersect>, i: int, p: BeamIntersect,
    rest: Seq<BeamIntersect>, old_suffix: Seq<BeamIntersect>)
    requires
        0 <= i <= s.len(),
        old_suffix == s.skip(i),
        old_suffix == seq![p] + rest,
    ensures
        i < s.len(),
        p == s[i],
        rest == s.skip(i + 1),
{
    assert(s.skip(i).len() == s.len() - i);
    assert(old_suffix.len() == 1 + rest.len());
    assert(s.skip(i)[0] == s[i]);
    assert(rest.len() == s.len() - i - 1);
    assert forall|j: int| 0 <= j < rest.len() implies rest[j] == s.skip(i + 1)[j] by {
        assert(rest[j] == (seq![p] + rest)[j + 1]);
        assert(s.skip(i)[j + 1] == s[i + j + 1]);
        assert(s.skip(i + 1)[j] == s[i + 1 + j]);
    }
    assert(s.skip(i + 1).len() == s.len() - i - 1);
    assert(rest =~= s.skip(i + 1));
}

} // verus!
