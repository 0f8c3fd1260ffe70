//! The steps that the macroblocks of a slice are quantised with.
use crate::transcode::macroblocks::Residual;
use crate::transcode::picture::Place;
use crate::transcode::residual;
use crate::transcode::residual::pair_qp;
use crate::transcode::syntax::PPS_INIT_QP;
use vstd::prelude::*;

verus! {

/// How many quantiser scales there are steps for.
pub const SCALE_COUNT: usize = 256;

/// The steps that were chosen so far: one serves every block coded at the same MPEG-2
/// quantiser scale, and a picture uses only a handful of scales.
pub struct ChosenSteps {
    /// The step of each scale, below zero where none was chosen yet.
    pub by_scale: [i16; 256],
}

/// The steps that were chosen so far.
pub open spec fn chosen(by_scale: Seq<i16>) -> Map<int, int> {
    Map::new(
        |scale: int| 0 <= scale < by_scale.len() && by_scale[scale] >= 0,
        |scale: int| by_scale[scale] as int,
    )
}

impl View for ChosenSteps {
    type V = Map<int, int>;

    open spec fn view(&self) -> Map<int, int> {
        chosen(self.by_scale@)
    }
}

impl ChosenSteps {
    /// None was chosen yet.
    pub fn new() -> (steps: Self)
        ensures
            steps@ == Map::<int, int>::empty(),
    {
        let steps = ChosenSteps { by_scale: [-1; 256] };
        assert(steps@ =~= Map::<int, int>::empty());
        steps
    }

    /// The step that was chosen for a scale.
    pub fn get(&self, scale: i32) -> (qp: Option<i32>)
        requires
            0 <= scale < SCALE_COUNT,
        ensures
            match qp {
                Some(qp) => self@.dom().contains(scale as int) && self@[scale as int] == qp,
                None => !self@.dom().contains(scale as int),
            },
    {
        let qp: i16 = self.by_scale[scale as usize];
        if qp < 0 {
            None
        } else {
            Some(qp as i32)
        }
    }

    /// A step has been chosen for a scale.
    pub fn insert(&mut self, scale: i32, qp: i32)
        requires
            0 <= scale < SCALE_COUNT,
            0 <= qp <= i16::MAX,
        ensures
            final(self)@ == old(self)@.insert(scale as int, qp as int),
    {
        let ghost before = self@;
        self.by_scale[scale as usize] = qp as i16;
        assert(self@ =~= before.insert(scale as int, qp as int));
    }
}

/// The quantiser scales of what a macroblock is made from.
pub open spec fn scales_of(residual: Residual) -> [Option<i32>; 2] {
    match residual {
        Residual::Own(Some(levels)) => [Some(levels.quantiser_scale), None],
        Residual::Own(None) => [None, None],
        Residual::Pair { scales, .. } => scales,
    }
}

/// The scales are ones that steps can be chosen for.
pub open spec fn are_scales(scales: [Option<i32>; 2]) -> bool {
    &&& scales[0] matches Some(scale) ==> 0 <= scale < SCALE_COUNT
    &&& scales[1] matches Some(scale) ==> 0 <= scale < SCALE_COUNT
}

/// The quantiser scales of what a macroblock is made from.
pub fn scales_for(residual: &Residual) -> (scales: [Option<i32>; 2])
    ensures
        scales == scales_of(*residual),
{
    match residual {
        Residual::Own(levels) => match levels {
            Some(levels) => [Some(levels.quantiser_scale), None],
            None => [None, None],
        },
        Residual::Pair { scales, .. } => *scales,
    }
}

/// How the steps of a slice go on from one macroblock to the next.
#[derive(Clone, Copy, Debug, PartialEq, Eq, Structural)]
pub struct StepChain {
    /// What the macroblock before was coded at.
    pub previous: i32,
    /// What the pair that is being coded is coded at.
    pub pair: i32,
}

/// The step of a macroblock, where `steps` were chosen for the scales of what it is made
/// from. A pair has one step, and what carries no levels goes on with the one before.
pub open spec fn step_of(
    chain: StepChain,
    place: Place,
    residual: Residual,
    steps: [Option<i32>; 2],
) -> i32 {
    if residual is Pair && place.mb_y % 2 != 0 {
        chain.pair
    } else {
        residual::finer(steps[0], steps[1], chain.previous)
    }
}

impl StepChain {
    /// The beginning of a slice.
    pub fn new() -> (chain: Self)
        ensures
            chain == (StepChain { previous: PPS_INIT_QP, pair: PPS_INIT_QP }),
    {
        StepChain { previous: PPS_INIT_QP, pair: PPS_INIT_QP }
    }

    /// The step of the next macroblock.
    pub fn next(&mut self, place: &Place, residual: &Residual, steps: [Option<i32>; 2]) -> (qp: i32)
        ensures
            qp == step_of(*old(self), *place, *residual, steps),
            final(self).previous == old(self).previous,
            final(self).pair == (if *residual is Pair {
                qp
            } else {
                old(self).pair
            }),
    {
        let in_pair: bool = match residual {
            Residual::Pair { .. } => true,
            Residual::Own(_) => false,
        };
        if in_pair && place.mb_y % 2 != 0 {
            return self.pair;
        }
        let qp: i32 = pair_qp(steps[0], steps[1], self.previous);
        if in_pair {
            self.pair = qp;
        }
        qp
    }

    /// The macroblock has been written, at a step.
    pub fn wrote(&mut self, qp: i32)
        ensures
            *final(self) == (StepChain { previous: qp, ..*old(self) }),
    {
        self.previous = qp;
    }
}

} // verus!
