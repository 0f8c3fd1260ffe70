//! What becomes of every macroblock of a picture.
use crate::mpeg2::headers::{Picture, PictureView};
use crate::mpeg2::macroblock;
use crate::mpeg2::macroblock::{Macroblock, MacroblockView};
use crate::transcode::encoder;
use crate::transcode::encoder::{DecodedJob, DecodedView, PictureEncoder};
use crate::transcode::motion;
use crate::transcode::motion::{count_macroblock, picture_coding, plan_motion, Coding, MotionPlan};
use crate::transcode::options;
use crate::transcode::options::Stats;
use crate::transcode::picture;
use crate::transcode::picture::{PictureShape, Place};
use crate::transcode::predict;
use crate::transcode::residual;
use crate::transcode::residual::{
    scale_for, scale_levels, source_field_targets, FieldTargetSet, LevelScale,
};
use crate::transcode::steps;
use crate::transcode::vectors;
use vstd::prelude::*;

verus! {

/// What the coefficients of a macroblock are made from.
#[derive(Clone, Copy, Debug, PartialEq, Eq)]
pub enum Residual {
    /// From the macroblock that the source coded there; from nothing where it carries no
    /// levels.
    Own(Option<LevelScale>),
    /// From the two macroblocks of a pair, each of which has a quantiser scale where the
    /// source coded it.
    Pair { targets: [FieldTargetSet; 2], scales: [Option<i32>; 2] },
}

/// What becomes of one macroblock.
#[derive(Clone, Copy, Debug, PartialEq, Eq)]
pub struct MacroblockPlan {
    pub place: Place,
    /// Whether it is read from the second coded picture of a pair.
    pub from_mate: bool,
    pub address: usize,
    /// How it is predicted; nothing in a slice that predicts from itself.
    pub motion: Option<MotionPlan>,
    pub residual: Residual,
}

/// The macroblock at an address, where there is one.
pub open spec fn at(grid: Seq<Option<MacroblockView>>, address: int) -> Option<MacroblockView> {
    if 0 <= address < grid.len() {
        grid[address]
    } else {
        None
    }
}

/// The macroblocks of both pictures of a job.
pub struct Grids {
    pub first: Seq<Option<MacroblockView>>,
    pub mate: Seq<Option<MacroblockView>>,
}

/// The macroblock that is coded at a position, in the source.
pub open spec fn source_at(grids: Grids, shape: PictureShape, place: Place) -> Option<
    MacroblockView,
> {
    let (from_mate, address) = shape.source(place);
    at(
        if from_mate {
            grids.mate
        } else {
            grids.first
        },
        address,
    )
}

/// The upper and the lower macroblock of the pair that a place stands in.
pub open spec fn halves_at(grids: Grids, shape: PictureShape, place: Place) -> (
    Option<MacroblockView>,
    Option<MacroblockView>,
) {
    let (upper, lower) = shape.halves(place);
    if motion::coding_of(shape) is FieldPair {
        (at(grids.first, upper), at(grids.first, lower))
    } else {
        (None, None)
    }
}

/// The quantiser scale of a macroblock, where there is one.
pub open spec fn half_scale(pic: PictureView, half: Option<MacroblockView>) -> Option<i32> {
    match half {
        Some(m) => Some(residual::scale_of(pic, m.quantiser_scale_code)),
        None => None,
    }
}

/// The picture that a coded field is made from.
pub open spec fn source_picture(job: DecodedView, place: Place) -> PictureView {
    match job.mate {
        Some(mate) if place.second => mate,
        _ => job.picture,
    }
}

/// What the coefficients of the macroblock at a place are made from.
pub open spec fn residual_at(job: DecodedView, shape: PictureShape, grids: Grids, place: Place) -> Residual {
    if motion::coding_of(shape) is FieldPair {
        let (upper, lower) = halves_at(grids, shape, place);
        Residual::Pair {
            targets: [residual::field_targets(upper), residual::field_targets(lower)],
            scales: [half_scale(job.picture, upper), half_scale(job.picture, lower)],
        }
    } else {
        Residual::Own(
            residual::level_scale(
                source_picture(job, place),
                shape.pair,
                source_at(grids, shape, place),
            ),
        )
    }
}

/// What becomes of the macroblock at a position, and what is counted of it.
pub open spec fn macroblock_plan(
    job: DecodedView,
    shape: PictureShape,
    grids: Grids,
    position: int,
) -> (MacroblockPlan, Stats) {
    let place = shape.place(position);
    let intra = picture::is_intra_field(job.context, place.second);
    let moved = motion::motion_plan(
        job.context,
        shape,
        place,
        source_at(grids, shape, place),
        halves_at(grids, shape, place),
        job.picture.coding.top_field_first,
    );
    (
        MacroblockPlan {
            place,
            from_mate: shape.source(place).0,
            address: shape.source(place).1 as usize,
            motion: if intra {
                None
            } else {
                Some(moved.0)
            },
            residual: residual_at(job, shape, grids, place),
        },
        if intra {
            motion::one_macroblock(true)
        } else {
            moved.1
        },
    )
}

/// What is counted of the first `count` macroblocks of a picture.
pub open spec fn counts_of(
    job: DecodedView,
    shape: PictureShape,
    grids: Grids,
    count: nat,
) -> Stats
    decreases count,
{
    if count == 0 {
        options::no_counts()
    } else {
        counts_of(job, shape, grids, (count - 1) as nat).plus(
            macroblock_plan(job, shape, grids, count - 1).1,
        )
    }
}

/// No more than four of anything are counted of a macroblock.
proof fn lemma_counts_four(job: DecodedView, shape: PictureShape, grids: Grids, position: int)
    ensures
        macroblock_plan(job, shape, grids, position).1.within(4),
{
    let place = shape.place(position);
    let source = source_at(grids, shape, place);
    motion::lemma_plan_counts(
        job.context,
        shape,
        place,
        source,
        halves_at(grids, shape, place),
        job.picture.coding.top_field_first,
    );
}

/// The vectors of what becomes of a macroblock are short.
proof fn lemma_plan_sound(job: DecodedView, shape: PictureShape, grids: Grids, position: int)
    requires
        macroblock::all_motion_small(grids.first),
        shape.pair ==> macroblock::all_motion_small(grids.mate),
    ensures
        macroblock_plan(job, shape, grids, position).0.motion matches Some(plan)
            ==> vectors::is_sound(motion::coding_of(shape), plan),
{
    let place = shape.place(position);
    motion::lemma_plan_short(
        job.context,
        shape,
        place,
        source_at(grids, shape, place),
        halves_at(grids, shape, place),
        job.picture.coding.top_field_first,
    );
}

/// Every macroblock's plan stands in its place, and its vectors are short.
pub proof fn lemma_plans_sound(
    job: DecodedView,
    shape: PictureShape,
    grids: Grids,
    plans: Seq<MacroblockPlan>,
)
    requires
        macroblock::all_motion_small(grids.first),
        shape.pair ==> macroblock::all_motion_small(grids.mate),
        plans.len() == shape.count(),
        forall|p: int|
            0 <= p < plans.len() ==> #[trigger] plans[p] == macroblock_plan(
                job,
                shape,
                grids,
                p,
            ).0,
    ensures
        vectors::in_place(shape, plans),
        vectors::all_sound(shape, plans),
{
    assert forall|p: int| 0 <= p < plans.len() implies ((#[trigger] plans[p]).motion matches Some(
        plan,
    ) ==> vectors::is_sound(motion::coding_of(shape), plan)) by {
        lemma_plan_sound(job, shape, grids, p);
    }
}

/// Counts stay within four for each macroblock.
proof fn lemma_counts_within(job: DecodedView, shape: PictureShape, grids: Grids, count: nat)
    requires
        count <= 0x10_0000,
    ensures
        counts_of(job, shape, grids, count).within(4 * count as int),
    decreases count,
{
    if count > 0 {
        lemma_counts_within(job, shape, grids, (count - 1) as nat);
        lemma_counts_four(job, shape, grids, count - 1);
    }
}

impl PictureEncoder {
    /// The macroblocks of both pictures.
    pub open spec fn grids(self) -> Grids {
        Grids { first: self.by_address@, mate: self.paired_by_address@ }
    }

    /// The macroblock at an address of one of the two pictures.
    fn macroblock(&self, from_mate: bool, address: usize) -> (source: Option<&Macroblock>)
        requires
            self.wf(),
            encoder::grid_sound(self.by_address@),
            from_mate ==> encoder::grid_sound(self.paired_by_address@),
        ensures
            predict::source_view(source) == at(
                if from_mate {
                    self.paired_by_address@
                } else {
                    self.by_address@
                },
                address as int,
            ),
            predict::source_small(source),
            residual::scale_named(source),
    {
        if from_mate {
            self.paired_by_address.get(address)
        } else {
            self.by_address.get(address)
        }
    }

    /// What the coefficients of the macroblock at a place are made from.
    fn plan_residual(
        &self,
        job: &DecodedJob,
        shape: &PictureShape,
        place: &Place,
        source: Option<&Macroblock>,
        halves: (Option<&Macroblock>, Option<&Macroblock>),
    ) -> (residual: Residual)
        requires
            job.wf(),
            residual::scale_named(source),
            residual::scale_named(halves.0),
            residual::scale_named(halves.1),
            predict::source_view(source) == source_at(self.grids(), *shape, *place),
            (predict::source_view(halves.0), predict::source_view(halves.1)) == halves_at(
                self.grids(),
                *shape,
                *place,
            ),
        ensures
            residual == residual_at(job@, *shape, self.grids(), *place),
            steps::are_scales(steps::scales_of(residual)),
    {
        if picture_coding(shape) == Coding::FieldPair {
            let scales: [Option<i32>; 2] = [
                scale_of_half(&job.picture, halves.0),
                scale_of_half(&job.picture, halves.1),
            ];
            Residual::Pair {
                targets: [source_field_targets(halves.0), source_field_targets(halves.1)],
                scales,
            }
        } else {
            let pic: &Picture = match &job.mate {
                Some(mate) => if place.second {
                    mate
                } else {
                    &job.picture
                },
                None => &job.picture,
            };
            Residual::Own(scale_levels(pic, shape.pair, source))
        }
    }

    /// Plan every macroblock of a decoded job's picture, in the order of their positions.
    pub fn plan_macroblocks(&self, job: &DecodedJob, stats: &mut Stats) -> (plans: Vec<
        MacroblockPlan,
    >)
        requires
            self.wf(),
            job.wf(),
            encoder::grid_sound(self.by_address@),
            job.mate is Some ==> encoder::grid_sound(self.paired_by_address@),
            picture::codable(job.context@),
            encoder::shape_of(job@).wf(),
            old(stats).within(u64::MAX - 0x40_0004),
        ensures
            ({
                let shape = encoder::shape_of(job@);
                &&& plans@.len() == shape.count()
                &&& forall|p: int|
                    0 <= p < plans@.len() ==> #[trigger] plans@[p] == macroblock_plan(
                        job@,
                        shape,
                        self.grids(),
                        p,
                    ).0
                &&& *final(stats) == old(stats).plus(
                    counts_of(job@, shape, self.grids(), shape.count() as nat),
                )
                &&& forall|p: int|
                    0 <= p < plans@.len() ==> steps::are_scales(
                        steps::scales_of((#[trigger] plans@[p]).residual),
                    )
                &&& vectors::in_place(shape, plans@)
                &&& vectors::all_sound(shape, plans@)
            }),
    {
        let shape = job.shape();
        let count: usize = shape.macroblock_count();
        let in_pairs: bool = picture_coding(&shape) == Coding::FieldPair;
        let intra_picture: bool = job.context.real_idr || job.context.recovery_intra;
        let ghost view = job@;
        let ghost grids = self.grids();
        let mut plans: Vec<MacroblockPlan> = Vec::new();
        let mut position: usize = 0;
        proof {
            stats.lemma_plus_nothing();
        }
        while position < count
            invariant
                self.wf(),
                job.wf(),
                view == job@,
                grids == self.grids(),
                shape == encoder::shape_of(view),
                encoder::grid_sound(self.by_address@),
                job.mate is Some ==> encoder::grid_sound(self.paired_by_address@),
                picture::codable(job.context@),
                shape.wf(),
                count == shape.count(),
                count <= 0x10_0000,
                in_pairs == (motion::coding_of(shape) is FieldPair),
                intra_picture == (view.context.real_idr || view.context.recovery_intra),
                old(stats).within(u64::MAX - 0x40_0004),
                position <= count,
                plans@.len() == position,
                forall|p: int|
                    0 <= p < position ==> #[trigger] plans@[p] == macroblock_plan(
                        view,
                        shape,
                        grids,
                        p,
                    ).0,
                forall|p: int|
                    0 <= p < position ==> steps::are_scales(
                        steps::scales_of((#[trigger] plans@[p]).residual),
                    ),
                *stats == old(stats).plus(counts_of(view, shape, grids, position as nat)),
            decreases count - position,
        {
            let place = shape.place_at(position);
            let (from_mate, address) = shape.source_of(&place);
            let source = self.macroblock(from_mate, address);
            let halves: (Option<&Macroblock>, Option<&Macroblock>) = if in_pairs {
                let (upper, lower) = shape.halves_of(&place);
                (self.macroblock(false, upper), self.macroblock(false, lower))
            } else {
                (None, None)
            };
            let residual = self.plan_residual(job, &shape, &place, source, halves);
            let ghost before = *stats;
            proof {
                lemma_counts_within(view, shape, grids, position as nat);
                lemma_counts_four(view, shape, grids, position as int);
            }
            let motion: Option<MotionPlan> = if intra_picture && !place.second {
                count_macroblock(true, stats);
                None
            } else {
                Some(
                    plan_motion(
                        &job.context,
                        &shape,
                        &place,
                        source,
                        halves,
                        job.picture.coding.top_field_first,
                        stats,
                    ),
                )
            };
            proof {
                old(stats).lemma_plus_in_turn(
                    counts_of(view, shape, grids, position as nat),
                    macroblock_plan(view, shape, grids, position as int).1,
                );
            }
            plans.push(MacroblockPlan { place, from_mate, address, motion, residual });
            position = position + 1;
        }
        proof {
            lemma_plans_sound(view, shape, grids, plans@);
        }
        plans
    }
}

/// The quantiser scale of a macroblock, where there is one.
fn scale_of_half(pic: &Picture, half: Option<&Macroblock>) -> (scale: Option<i32>)
    requires
        pic@.coding.wf(),
        residual::scale_named(half),
    ensures
        scale == half_scale(pic@, predict::source_view(half)),
        scale matches Some(scale) ==> 0 <= scale <= 112,
{
    match half {
        Some(m) => Some(scale_for(pic, m.quantiser_scale_code)),
        None => None,
    }
}

} // verus!
