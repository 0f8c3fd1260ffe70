//! Coding the macroblocks of a picture, one question at a time.
//!
//! Requantising coefficients is floating point, and stands outside. What is to be done
//! when is decided here: a walk asks for one thing after another, and is told what came of
//! it.
use crate::h264::intra as samples;
use crate::h264::mb::InterMacroblock;
use crate::h264::params::{ZIGZAG_4X4, ZIGZAG_8X8};
use crate::h264::reconstruct;
use crate::h264::reconstruct::{
    chroma_qp, ChromaBlockLevels, InverseScale8x8, FIELD_SCAN_4X4, FIELD_SCAN_8X8, MAX_QP,
};
use crate::job::{ContextView, PictureContext};
use crate::transcode::encoder;
use crate::transcode::encoder::DecodedJob;
use crate::transcode::intra;
use crate::transcode::intra::{row_of, IntraState};
use crate::transcode::macroblocks::{MacroblockPlan, Residual};
use crate::transcode::motion;
use crate::transcode::motion::make_macroblock;
use crate::transcode::picture;
use crate::transcode::picture::PictureShape;
use crate::transcode::scans;
use crate::transcode::steps;
use crate::transcode::steps::{scales_for, ChosenSteps, StepChain};
use crate::transcode::syntax::{CHROMA_QP_OFFSET, PPS_INIT_QP};
use crate::transcode::vectors;
use crate::transcode::vectors::{predict_vectors, Predicted};
use vstd::prelude::*;

verus! {

/// What a walk asks for.
pub enum Asked {
    /// A slice opens: nothing written so far is a neighbour any more.
    OpenSlice { second: bool },
    /// A step for the coefficients of a quantiser scale.
    ChooseStep { scale: i32 },
    /// The levels of a luma block that is predicted from its own picture.
    Luma { block: usize, prediction: i32, qp: i32 },
    /// The syntax of a macroblock that is predicted from its own picture: whether its luma
    /// was requantised, and what its chroma blocks are predicted to be.
    Intra { luma: bool, chroma: [[i32; 4]; 2], qp: i32 },
    /// The syntax of a macroblock that is predicted from other pictures.
    Inter { macroblock: InterMacroblock, qp: i32 },
    /// Every macroblock has been coded.
    Done,
}

/// What a walk asks for, as a mathematical value.
#[verifier::ext_equal]
pub enum AskedView {
    OpenSlice { second: bool },
    ChooseStep { scale: i32 },
    Luma { block: int, prediction: int, qp: i32 },
    Intra { luma: bool, chroma: Seq<Seq<i32>>, qp: i32 },
    Inter { macroblock: InterMacroblock, qp: i32 },
    Done,
}

impl View for Asked {
    type V = AskedView;

    open spec fn view(&self) -> AskedView {
        match *self {
            Asked::OpenSlice { second } => AskedView::OpenSlice { second },
            Asked::ChooseStep { scale } => AskedView::ChooseStep { scale },
            Asked::Luma { block, prediction, qp } => AskedView::Luma {
                block: block as int,
                prediction: prediction as int,
                qp,
            },
            Asked::Intra { luma, chroma, qp } => AskedView::Intra {
                luma,
                chroma: Seq::new(2, |c: int| chroma[c]@),
                qp,
            },
            Asked::Inter { macroblock, qp } => AskedView::Inter { macroblock, qp },
            Asked::Done => AskedView::Done,
        }
    }
}

/// What came of what a walk asked for.
pub enum Told {
    /// The walk begins, or the slice has been opened.
    Nothing,
    /// The step that was chosen.
    Step(i32),
    /// The levels of the luma block in the order they are written in; nothing where none
    /// is left.
    Luma(Option<[i32; 64]>),
    /// The macroblock has been written, and the next one's step is told against this one.
    Coded { written: i32 },
    /// The same of one that is predicted from its own picture, with its chroma levels and
    /// how much of them was written.
    CodedIntra { written: i32, chroma: [ChromaBlockLevels; 2], cbp_chroma: u32 },
}

/// What a walk waits for.
#[derive(Clone, Copy, Debug, PartialEq, Eq, Structural)]
pub enum Waiting {
    /// To go on.
    Nothing,
    /// A step for a scale.
    Step { scale: i32 },
    /// The levels of a luma block.
    Luma { block: usize, prediction: i32, qp: i32 },
    /// A macroblock.
    Code,
}

/// The samples of a picture that predicts from itself.
#[verifier::ext_equal]
pub struct SamplesView {
    pub luma: Seq<u8>,
    pub chroma: Seq<Seq<u8>>,
}

/// How far a walk has come, as a mathematical value.
#[verifier::ext_equal]
pub struct WalkView {
    /// The macroblock that is being coded.
    pub position: int,
    /// Which slice is open: the second of a pair of fields, or not.
    pub open: Option<bool>,
    pub chain: StepChain,
    pub steps: Map<int, int>,
    /// What a decoder has made so far of a picture that predicts from itself.
    pub samples: Option<SamplesView>,
    pub waiting: Waiting,
}

/// What a walk goes over.
pub struct Setting {
    pub context: ContextView,
    pub shape: PictureShape,
    pub plans: Seq<MacroblockPlan>,
    /// What the luma levels of a picture that predicts from itself are multiplied by.
    pub scale: Option<InverseScale8x8>,
}

/// The levels of a macroblock that is predicted from its own picture are requantised where
/// the source coded it so too. Otherwise its luma is concealed.
pub open spec fn requantises(residual: Residual) -> bool {
    residual matches Residual::Own(Some(levels)) && levels.intra
}

/// The step that was chosen for a scale.
pub open spec fn chosen_for(steps: Map<int, int>, scale: Option<i32>) -> Option<i32> {
    match scale {
        Some(scale) => Some(steps[scale as int] as i32),
        None => None,
    }
}

/// The first scale that no step was chosen for yet.
pub open spec fn unchosen(steps: Map<int, int>, scales: [Option<i32>; 2]) -> Option<i32> {
    if scales[0] matches Some(scale) && !steps.dom().contains(scale as int) {
        scales[0]
    } else if scales[1] matches Some(scale) && !steps.dom().contains(scale as int) {
        scales[1]
    } else {
        None
    }
}

/// A plane with nothing made of it.
pub open spec fn blank(plane: Seq<u8>) -> Seq<u8> {
    Seq::new(plane.len(), |i: int| 0u8)
}

/// A picture of which nothing has been made.
pub open spec fn cleared(samples: SamplesView) -> SamplesView {
    SamplesView {
        luma: blank(samples.luma),
        chroma: Seq::new(2, |c: int| blank(samples.chroma[c])),
    }
}

impl Setting {
    /// The plan of the macroblock that is being coded.
    pub open spec fn plan(self, walk: WalkView) -> MacroblockPlan {
        self.plans[walk.position]
    }

    /// The column of the macroblock that is being coded.
    pub open spec fn column(self, walk: WalkView) -> int {
        self.plan(walk).place.mb_x as int
    }

    /// Its row within the coded picture.
    pub open spec fn row(self, walk: WalkView) -> int {
        intra::row_within(self.shape, self.plan(walk).place)
    }

    /// Luma samples in a row.
    pub open spec fn width(self) -> int {
        16 * intra::order_of(self.shape).mb_width
    }

    /// The order that luma levels are written in.
    pub open spec fn luma_scan(self) -> Seq<usize> {
        if self.shape.pair {
            FIELD_SCAN_8X8@
        } else {
            ZIGZAG_8X8@
        }
    }

    /// The order that chroma levels are written in.
    pub open spec fn chroma_scan(self) -> Seq<usize> {
        if self.shape.pair {
            FIELD_SCAN_4X4@
        } else {
            ZIGZAG_4X4@
        }
    }

    /// What a luma block is predicted to be.
    pub open spec fn luma_prediction(self, walk: WalkView, block: int) -> int {
        samples::luma_mean(
            walk.samples->Some_0.luma,
            self.width(),
            intra::order_of(self.shape),
            self.column(walk),
            self.row(walk),
            block,
        )
    }

    /// What the blocks of a chroma component are predicted to be.
    pub open spec fn chroma_prediction(self, walk: WalkView, c: int) -> Seq<i32> {
        Seq::new(
            4,
            |block: int|
                samples::chroma_mean(
                    walk.samples->Some_0.chroma[c],
                    self.width() / 2,
                    intra::order_of(self.shape),
                    self.column(walk),
                    self.row(walk),
                    block,
                ) as i32,
        )
    }

    /// What a decoder has made once the levels of a luma block are known.
    #[verifier::opaque]
    pub open spec fn luma_stored(
        self,
        walk: WalkView,
        block: int,
        prediction: int,
        qp: int,
        levels: Option<[i32; 64]>,
    ) -> SamplesView {
        let before = walk.samples->Some_0;
        SamplesView {
            luma: intra::block_stored(
                before.luma,
                self.width(),
                16 * self.column(walk) + 8 * (block % 2),
                16 * self.row(walk) + 8 * (block / 2),
                8,
                prediction,
                match levels {
                    Some(levels) => Some(
                        intra::luma_residual(
                            levels@,
                            self.scale->Some_0,
                            qp,
                            self.luma_scan(),
                        ),
                    ),
                    None => None,
                },
            ),
            ..before
        }
    }

    /// What a decoder has made where a macroblock's luma is concealed.
    #[verifier::opaque]
    pub open spec fn luma_concealed(self, walk: WalkView) -> SamplesView {
        let before = walk.samples->Some_0;
        SamplesView {
            luma: intra::concealed(
                before.luma,
                self.width(),
                intra::order_of(self.shape),
                self.column(walk),
                self.row(walk),
                4,
            ),
            ..before
        }
    }

    /// What a decoder has made once a macroblock's chroma levels are known.
    #[verifier::opaque]
    pub open spec fn chroma_stored(
        self,
        walk: WalkView,
        written: i32,
        levels: [ChromaBlockLevels; 2],
        cbp_chroma: u32,
    ) -> SamplesView {
        let before = walk.samples->Some_0;
        SamplesView {
            chroma: Seq::new(
                2,
                |c: int|
                    intra::chroma_stored(
                        before.chroma[c],
                        self.width() / 2,
                        self.column(walk),
                        self.row(walk),
                        self.chroma_prediction(walk, c),
                        levels[c],
                        reconstruct::chroma_step(written as int, CHROMA_QP_OFFSET as int),
                        cbp_chroma,
                        self.chroma_scan(),
                        4,
                    ),
            ),
            ..before
        }
    }

    /// What an answer changes.
    pub open spec fn answered(self, walk: WalkView, told: Told) -> WalkView {
        match (walk.waiting, told) {
            (Waiting::Step { scale }, Told::Step(qp)) => WalkView {
                steps: walk.steps.insert(scale as int, qp as int),
                ..walk
            },
            (Waiting::Luma { block, prediction, qp }, Told::Luma(levels)) => WalkView {
                samples: Some(
                    self.luma_stored(walk, block as int, prediction as int, qp as int, levels),
                ),
                ..walk
            },
            (Waiting::Code, Told::Coded { written }) => WalkView {
                position: walk.position + 1,
                chain: StepChain { previous: written, ..walk.chain },
                ..walk
            },
            (Waiting::Code, Told::CodedIntra { written, chroma, cbp_chroma }) => WalkView {
                position: walk.position + 1,
                chain: StepChain { previous: written, ..walk.chain },
                samples: Some(self.chroma_stored(walk, written, chroma, cbp_chroma)),
                ..walk
            },
            _ => walk,
        }
    }

    /// A slice opens. Steps are told from the first one again, and nothing is beside the
    /// first macroblock. A picture that predicts from itself does so in its first field
    /// only.
    pub open spec fn opening(self, walk: WalkView, second: bool) -> (WalkView, AskedView) {
        (
            WalkView {
                open: Some(second),
                chain: StepChain { previous: PPS_INIT_QP, pair: PPS_INIT_QP },
                samples: match walk.samples {
                    Some(samples) if !second => Some(cleared(samples)),
                    _ => None,
                },
                waiting: Waiting::Nothing,
                ..walk
            },
            AskedView::OpenSlice { second },
        )
    }

    /// A luma block is asked for.
    pub open spec fn asking_luma(self, walk: WalkView, block: int, qp: i32) -> (
        WalkView,
        AskedView,
    ) {
        let prediction = self.luma_prediction(walk, block);
        (
            WalkView {
                waiting: Waiting::Luma {
                    block: block as usize,
                    prediction: prediction as i32,
                    qp,
                },
                ..walk
            },
            AskedView::Luma { block, prediction, qp },
        )
    }

    /// A macroblock that is predicted from its own picture is asked for.
    pub open spec fn asking_intra(self, walk: WalkView, luma: bool, qp: i32) -> (
        WalkView,
        AskedView,
    ) {
        (
            WalkView { waiting: Waiting::Code, ..walk },
            AskedView::Intra {
                luma,
                chroma: Seq::new(2, |c: int| self.chroma_prediction(walk, c)),
                qp,
            },
        )
    }

    /// The step of the macroblock that is being coded.
    pub open spec fn step(self, walk: WalkView) -> i32 {
        let plan = self.plan(walk);
        let scales = steps::scales_of(plan.residual);
        steps::step_of(
            walk.chain,
            plan.place,
            plan.residual,
            [chosen_for(walk.steps, scales[0]), chosen_for(walk.steps, scales[1])],
        )
    }

    /// What is asked for to code a macroblock whose scales all have their steps.
    pub open spec fn coding(self, walk: WalkView) -> (WalkView, AskedView) {
        let plan = self.plan(walk);
        let qp = self.step(walk);
        let stepped = WalkView {
            chain: StepChain {
                pair: if plan.residual is Pair {
                    qp
                } else {
                    walk.chain.pair
                },
                ..walk.chain
            },
            ..walk
        };
        match walk.samples {
            Some(_) => if requantises(plan.residual) {
                self.asking_luma(stepped, 0, qp)
            } else {
                self.asking_intra(
                    WalkView { samples: Some(self.luma_concealed(stepped)), ..stepped },
                    false,
                    qp,
                )
            },
            None => {
                let near = vectors::predicted_at(self.shape, self.plans, walk.position)->Some_0;
                (
                    WalkView { waiting: Waiting::Code, ..stepped },
                    AskedView::Inter {
                        macroblock: motion::planned_macroblock(
                            self.context,
                            self.shape,
                            plan.place,
                            plan.motion->Some_0,
                            near.whole,
                            near.halves,
                            qp,
                            walk.chain.previous,
                        ),
                        qp,
                    },
                )
            },
        }
    }

    /// What is asked for next.
    pub open spec fn asking(self, walk: WalkView) -> (WalkView, AskedView) {
        match walk.waiting {
            Waiting::Luma { block, prediction, qp } => if block < 3 {
                self.asking_luma(walk, block + 1, qp)
            } else {
                self.asking_intra(walk, true, qp)
            },
            _ => if walk.position >= self.plans.len() {
                (WalkView { waiting: Waiting::Nothing, ..walk }, AskedView::Done)
            } else if walk.open != Some(self.plan(walk).place.second) {
                self.opening(walk, self.plan(walk).place.second)
            } else {
                match unchosen(walk.steps, steps::scales_of(self.plan(walk).residual)) {
                    Some(scale) => (
                        WalkView { waiting: Waiting::Step { scale }, ..walk },
                        AskedView::ChooseStep { scale },
                    ),
                    None => self.coding(walk),
                }
            },
        }
    }

    /// What becomes of a walk that is told something, and what it asks for next.
    pub open spec fn walked(self, walk: WalkView, told: Told) -> (WalkView, AskedView) {
        self.asking(self.answered(walk, told))
    }

    /// The plans are those of a picture: each stands in its place, its vectors are short,
    /// its scales are ones that steps can be chosen for, and it moves unless it is
    /// predicted from its own picture.
    pub open spec fn planned(self) -> bool {
        &&& self.shape.wf()
        &&& picture::codable(self.context)
        &&& vectors::in_place(self.shape, self.plans)
        &&& vectors::all_sound(self.shape, self.plans)
        &&& forall|p: int|
            0 <= p < self.plans.len() ==> steps::are_scales(
                steps::scales_of((#[trigger] self.plans[p]).residual),
            )
        &&& forall|p: int|
            0 <= p < self.plans.len() ==> ((#[trigger] self.plans[p]).motion is None
                <==> picture::is_intra_field(self.context, self.plans[p].place.second))
    }
}

impl Setting {
    /// What is the same all along a walk: the plans are those of a picture, and what their
    /// neighbours predict is known.
    #[verifier::opaque]
    pub open spec fn grounds(self, near: Seq<Option<Predicted>>) -> bool {
        &&& self.planned()
        &&& near.len() == self.plans.len()
        &&& forall|p: int|
            0 <= p < self.plans.len() ==> #[trigger] near[p] == vectors::predicted_at(
                self.shape,
                self.plans,
                p,
            )
        &&& forall|p: int|
            0 <= p < self.plans.len() ==> ((#[trigger] self.plans[p]).motion matches Some(plan)
                ==> vectors::told_by(motion::coding_of(self.shape), plan, near[p]->Some_0))
        &&& self.scale matches Some(scale) ==> scale.wf()
    }
}

/// What a walk begins with.
pub open spec fn not_begun(samples: Option<SamplesView>) -> WalkView {
    WalkView {
        position: 0,
        open: None,
        chain: StepChain { previous: PPS_INIT_QP, pair: PPS_INIT_QP },
        steps: Map::empty(),
        samples,
        waiting: Waiting::Nothing,
    }
}

/// What is told is an answer to what was asked.
pub open spec fn answers(walk: WalkView, told: Told) -> bool {
    match walk.waiting {
        Waiting::Nothing => told is Nothing,
        Waiting::Step { .. } => told matches Told::Step(qp) && 0 <= qp <= MAX_QP,
        Waiting::Luma { .. } => told matches Told::Luma(levels) && (levels matches Some(levels)
            ==> reconstruct::are_levels(levels@)),
        Waiting::Code => match told {
            Told::Coded { written } => walk.samples is None && 0 <= written <= MAX_QP,
            Told::CodedIntra { written, chroma, .. } => walk.samples is Some && 0 <= written
                <= MAX_QP && intra::are_chroma_levels(chroma[0]) && intra::are_chroma_levels(
                chroma[1],
            ),
            _ => false,
        },
    }
}

/// The samples that a decoder has made.
pub open spec fn samples_of(state: Option<IntraState>) -> Option<SamplesView> {
    match state {
        Some(state) => Some(
            SamplesView {
                luma: state.picture.luma@,
                chroma: Seq::new(2, |c: int| state.picture.component(c)),
            },
        ),
        None => None,
    }
}

/// A walk over the macroblocks of a picture.
pub struct PictureWalk {
    pub context: PictureContext,
    pub shape: PictureShape,
    pub plans: Vec<MacroblockPlan>,
    /// What the neighbours of each macroblock predict.
    pub near: Vec<Option<Predicted>>,
    pub scale: Option<InverseScale8x8>,
    pub position: usize,
    pub open: Option<bool>,
    pub chain: StepChain,
    pub steps: ChosenSteps,
    pub intra: Option<IntraState>,
    pub waiting: Waiting,
}

impl View for PictureWalk {
    type V = WalkView;

    open spec fn view(&self) -> WalkView {
        WalkView {
            position: self.position as int,
            open: self.open,
            chain: self.chain,
            steps: self.steps@,
            samples: samples_of(self.intra),
            waiting: self.waiting,
        }
    }
}

impl PictureWalk {
    /// What the walk goes over.
    pub open spec fn setting(self) -> Setting {
        Setting {
            context: self.context@,
            shape: self.shape,
            plans: self.plans@,
            scale: self.scale,
        }
    }

    /// What stays the same all along a walk.
    pub open spec fn grounded(self) -> bool {
        self.setting().grounds(self.near@)
    }

    /// The steps are ones that H.264 has, and the samples are kept exactly where the open
    /// slice predicts from them.
    pub open spec fn steady(self) -> bool {
        &&& self.position <= self.plans@.len()
        &&& forall|scale: int| #[trigger]
            self.steps@.dom().contains(scale) ==> 0 <= self.steps@[scale] <= MAX_QP
        &&& 0 <= self.chain.previous <= MAX_QP
        &&& 0 <= self.chain.pair <= MAX_QP
        &&& self.intra is Some <==> picture::is_intra_field(
            self.context@,
            self.open == Some(true),
        )
        &&& self.intra matches Some(state) ==> {
            &&& state.wf()
            &&& state.order == intra::order_of(self.shape)
            &&& self.scale is Some
        }
        &&& self.open == Some(true) ==> self.shape.pair && self.position
            >= self.shape.field_count()
    }

    /// The macroblock that is being coded stands in the slice that is open.
    pub open spec fn in_slice(self) -> bool {
        &&& self.position < self.plans@.len()
        &&& self.open == Some(self.plans@[self.position as int].place.second)
    }

    /// The walk is in order.
    pub open spec fn wf(self) -> bool {
        &&& self.grounded()
        &&& self.steady()
        &&& match self.waiting {
            Waiting::Nothing => true,
            Waiting::Step { scale } => 0 <= scale < steps::SCALE_COUNT && self.in_slice(),
            Waiting::Luma { block, prediction, qp } => {
                &&& self.in_slice()
                &&& self.intra is Some
                &&& block <= 3
                &&& 0 <= prediction <= 255
                &&& 0 <= qp <= MAX_QP
            },
            Waiting::Code => self.in_slice(),
        }
    }

    /// Begin to code the picture of a job, whose macroblocks have been planned.
    pub fn new(job: &DecodedJob, plans: Vec<MacroblockPlan>) -> (walk: Self)
        requires
            job.wf(),
            (Setting {
                context: job.context@,
                shape: encoder::shape_of(job@),
                plans: plans@,
                scale: None,
            }).planned(),
            picture::is_intra_field(job.context@, false) ==> reconstruct::are_weights(
                job.context.weight_scale@,
            ),
        ensures
            walk.wf(),
            walk.context@ == job.context@,
            walk.shape == encoder::shape_of(job@),
            walk.plans@ == plans@,
            walk.scale is Some <==> picture::is_intra_field(job.context@, false),
            walk.scale matches Some(scale) ==> forall|m: int, k: int|
                0 <= m < 6 && 0 <= k < 64 ==> #[trigger] scale.factors[m][k]
                    == reconstruct::factor_8x8(job.context.weight_scale@, m, k),
            walk@ == not_begun(walk@.samples),
            walk@.samples matches Some(samples) ==> samples == cleared(samples),
    {
        let shape = job.shape();
        let near = predict_vectors(&shape, &plans);
        let anchor: bool = job.context.real_idr || job.context.recovery_intra;
        let scale: Option<InverseScale8x8> = if anchor {
            Some(InverseScale8x8::new(&job.context.weight_scale))
        } else {
            None
        };
        let state: Option<IntraState> = if anchor {
            Some(IntraState::new(&shape))
        } else {
            None
        };
        let walk = PictureWalk {
            context: job.context,
            shape,
            plans,
            near,
            scale,
            position: 0,
            open: None,
            chain: StepChain::new(),
            steps: ChosenSteps::new(),
            intra: state,
            waiting: Waiting::Nothing,
        };
        proof {
            reveal(Setting::grounds);
            if let Some(samples) = walk@.samples {
                assert(samples.luma =~= cleared(samples).luma);
                assert(samples.chroma[0] == walk.intra->Some_0.picture.cb@);
                assert(samples.chroma[1] == walk.intra->Some_0.picture.cr@);
                assert(samples.chroma[0] =~= blank(samples.chroma[0]));
                assert(samples.chroma[1] =~= blank(samples.chroma[1]));
                assert(samples.chroma =~= cleared(samples).chroma);
            }
        }
        walk
    }

    /// The walk is in order once it has been answered.
    spec fn ready(self) -> bool {
        &&& self.grounded()
        &&& self.steady()
        &&& self.waiting matches Waiting::Luma { block, prediction, qp } ==> {
            &&& self.in_slice()
            &&& self.intra is Some
            &&& block <= 3
            &&& 0 <= qp <= MAX_QP
        }
    }

    /// The macroblock that is being coded stands inside the coded picture.
    proof fn lemma_place(self)
        requires
            self.grounded(),
            self.position < self.plans@.len(),
        ensures
            self.setting().column(self@) < intra::order_of(self.shape).mb_width,
            self.setting().row(self@) < intra::order_of(self.shape).mb_height,
            self.plans@[self.position as int].place.second ==> self.shape.pair,
            self.scale matches Some(scale) ==> scale.wf(),
    {
        reveal(Setting::grounds);
        picture::law_every_macroblock_is_coded_once(self.shape);
        let place = self.shape.place(self.position as int);
        assert(self.plans@[self.position as int].place == place);
        assert(place.mb_x < self.shape.mb_width && place.mb_y < self.shape.mb_height);
    }

    /// Store the levels of a luma block.
    fn take_luma(&mut self, block: usize, prediction: i32, qp: i32, levels: Option<[i32; 64]>)
        requires
            old(self).wf(),
            old(self).waiting == (Waiting::Luma { block, prediction, qp }),
            levels matches Some(levels) ==> reconstruct::are_levels(levels@),
        ensures
            final(self).ready(),
            final(self).setting() == old(self).setting(),
            final(self)@ == (WalkView {
                samples: Some(
                    old(self).setting().luma_stored(
                        old(self)@,
                        block as int,
                        prediction as int,
                        qp as int,
                        levels,
                    ),
                ),
                ..old(self)@
            }),
    {
        proof {
            self.lemma_place();
            scans::lemma_zigzag_8x8();
            scans::lemma_field_8x8();
            reveal(Setting::luma_stored);
        }
        let mb_x: usize = self.plans[self.position].place.mb_x;
        let mb_y: usize = row_of(&self.shape, &self.plans[self.position].place);
        let scan: &[usize; 64] = if self.shape.pair {
            &FIELD_SCAN_8X8
        } else {
            &ZIGZAG_8X8
        };
        let ghost before = self.intra->Some_0;
        match (&mut self.intra, &self.scale) {
            (Some(state), Some(scale)) => {
                state.store_luma(mb_x, mb_y, block, prediction, levels.as_ref(), qp, scale, scan);
            },
            _ => {},
        }
        assert(self.intra->Some_0.picture.component(0) == before.picture.component(0));
        assert(self.intra->Some_0.picture.component(1) == before.picture.component(1));
        assert(self@.samples->Some_0.chroma =~= old(self)@.samples->Some_0.chroma);
    }

    /// Store the chroma levels of a macroblock.
    fn take_chroma(&mut self, written: i32, levels: &[ChromaBlockLevels; 2], cbp_chroma: u32)
        requires
            old(self).wf(),
            old(self).waiting is Code,
            old(self).intra is Some,
            0 <= written <= MAX_QP,
            intra::are_chroma_levels(levels[0]),
            intra::are_chroma_levels(levels[1]),
        ensures
            final(self).wf(),
            final(self).setting() == old(self).setting(),
            final(self)@ == (WalkView {
                samples: Some(
                    old(self).setting().chroma_stored(old(self)@, written, *levels, cbp_chroma),
                ),
                ..old(self)@
            }),
    {
        proof {
            self.lemma_place();
            scans::lemma_zigzag_4x4();
            scans::lemma_field_4x4();
            reveal(Setting::chroma_stored);
        }
        let mb_x: usize = self.plans[self.position].place.mb_x;
        let mb_y: usize = row_of(&self.shape, &self.plans[self.position].place);
        let scan: &[usize; 16] = if self.shape.pair {
            &FIELD_SCAN_4X4
        } else {
            &ZIGZAG_4X4
        };
        let qp: i32 = chroma_qp(written, CHROMA_QP_OFFSET);
        let ghost before = self.intra->Some_0;
        let ghost setting = self.setting();
        let ghost walk = self@;
        match &mut self.intra {
            Some(state) => {
                let prediction = state.predict_chroma(mb_x, mb_y);
                proof {
                    assert forall|c: int| 0 <= c < 2 implies #[trigger] prediction[c]@
                        =~= setting.chroma_prediction(walk, c) by {
                        assert(walk.samples->Some_0.chroma[c] == before.picture.component(c));
                        assert forall|b: int| 0 <= b < 4 implies prediction[c]@[b]
                            == setting.chroma_prediction(walk, c)[b] by {
                            assert(prediction[c][b] == prediction[c]@[b]);
                        }
                    }
                }
                state.store_chroma(mb_x, mb_y, &prediction, levels, qp, cbp_chroma, scan);
            },
            None => {},
        }
        let ghost after = self.intra->Some_0;
        assert forall|c: int| 0 <= c < 2 implies self@.samples->Some_0.chroma[c]
            == setting.chroma_stored(walk, written, *levels, cbp_chroma).chroma[c] by {
            assert(self@.samples->Some_0.chroma[c] == after.picture.component(c));
            assert(walk.samples->Some_0.chroma[c] == before.picture.component(c));
        }
        assert(self@.samples->Some_0.chroma =~= setting.chroma_stored(
            walk,
            written,
            *levels,
            cbp_chroma,
        ).chroma);
    }

    /// The macroblock has been written.
    fn take_coded(&mut self, written: i32)
        requires
            old(self).wf(),
            old(self).waiting is Code,
            0 <= written <= MAX_QP,
        ensures
            final(self).ready(),
            final(self).setting() == old(self).setting(),
            final(self)@ == (WalkView {
                position: old(self)@.position + 1,
                chain: StepChain { previous: written, ..old(self)@.chain },
                ..old(self)@
            }),
    {
        assert(self.position < self.plans.len());
        self.chain.wrote(written);
        self.position = self.position + 1;
    }

    /// A step has been chosen.
    fn take_step(&mut self, scale: i32, qp: i32)
        requires
            old(self).wf(),
            old(self).waiting == (Waiting::Step { scale }),
            0 <= qp <= MAX_QP,
        ensures
            final(self).ready(),
            final(self).setting() == old(self).setting(),
            final(self)@ == (WalkView {
                steps: old(self)@.steps.insert(scale as int, qp as int),
                ..old(self)@
            }),
    {
        self.steps.insert(scale, qp);
    }

    /// Take in an answer.
    fn take(&mut self, told: Told)
        requires
            old(self).wf(),
            answers(old(self)@, told),
        ensures
            final(self).ready(),
            final(self).setting() == old(self).setting(),
            final(self)@ == old(self).setting().answered(old(self)@, told),
    {
        match told {
            Told::Nothing => {},
            Told::Step(qp) => {
                if let Waiting::Step { scale } = self.waiting {
                    self.take_step(scale, qp);
                }
            },
            Told::Luma(levels) => {
                if let Waiting::Luma { block, prediction, qp } = self.waiting {
                    self.take_luma(block, prediction, qp, levels);
                }
            },
            Told::Coded { written } => {
                self.take_coded(written);
            },
            Told::CodedIntra { written, chroma, cbp_chroma } => {
                self.take_chroma(written, &chroma, cbp_chroma);
                self.take_coded(written);
            },
        }
    }

    /// What the walk is in before it asks.
    spec fn asks_in_slice(self) -> bool {
        &&& self.grounded()
        &&& self.steady()
        &&& self.in_slice()
    }

    /// Open the slice of the next macroblock.
    fn open_slice(&mut self, second: bool) -> (asked: Asked)
        requires
            old(self).grounded(),
            old(self).steady(),
            old(self).position < old(self).plans@.len(),
            second == old(self).plans@[old(self).position as int].place.second,
        ensures
            final(self).wf(),
            final(self).setting() == old(self).setting(),
            (final(self)@, asked@) == old(self).setting().opening(old(self)@, second),
    {
        proof {
            reveal(Setting::grounds);
            assert(self.plans@[self.position as int].place == self.shape.place(
                self.position as int,
            ));
        }
        self.open = Some(second);
        self.chain = StepChain::new();
        self.waiting = Waiting::Nothing;
        if second {
            self.intra = None;
        }
        let ghost before = self.intra;
        if let Some(state) = &mut self.intra {
            state.picture.clear();
        }
        proof {
            if let Some(state) = before {
                let after = self.intra->Some_0;
                let had = samples_of(before)->Some_0;
                assert(had.chroma[0] == state.picture.cb@);
                assert(had.chroma[1] == state.picture.cr@);
                assert(after.picture.component(0) == blank(had.chroma[0]));
                assert(after.picture.component(1) == blank(had.chroma[1]));
                assert(self@.samples->Some_0.chroma =~= cleared(had).chroma);
            }
        }
        Asked::OpenSlice { second }
    }

    /// Ask for a luma block.
    fn ask_luma(&mut self, block: usize, qp: i32) -> (asked: Asked)
        requires
            old(self).asks_in_slice(),
            old(self).intra is Some,
            block <= 3,
            0 <= qp <= MAX_QP,
        ensures
            final(self).wf(),
            final(self).setting() == old(self).setting(),
            (final(self)@, asked@) == old(self).setting().asking_luma(
                old(self)@,
                block as int,
                qp,
            ),
    {
        proof {
            self.lemma_place();
        }
        let mb_x: usize = self.plans[self.position].place.mb_x;
        let mb_y: usize = row_of(&self.shape, &self.plans[self.position].place);
        let prediction: i32 = match &self.intra {
            Some(state) => state.predict_luma(mb_x, mb_y, block),
            None => 0,
        };
        self.waiting = Waiting::Luma { block, prediction, qp };
        Asked::Luma { block, prediction, qp }
    }

    /// Ask for a macroblock that is predicted from its own picture.
    fn ask_intra(&mut self, luma: bool, qp: i32) -> (asked: Asked)
        requires
            old(self).asks_in_slice(),
            old(self).intra is Some,
        ensures
            final(self).wf(),
            final(self).setting() == old(self).setting(),
            (final(self)@, asked@) == old(self).setting().asking_intra(old(self)@, luma, qp),
    {
        proof {
            self.lemma_place();
        }
        let mb_x: usize = self.plans[self.position].place.mb_x;
        let mb_y: usize = row_of(&self.shape, &self.plans[self.position].place);
        let chroma: [[i32; 4]; 2] = match &self.intra {
            Some(state) => state.predict_chroma(mb_x, mb_y),
            None => [[0; 4], [0; 4]],
        };
        proof {
            let setting = self.setting();
            let walk = self@;
            assert forall|c: int| 0 <= c < 2 implies chroma[c]@ =~= #[trigger]
                setting.chroma_prediction(walk, c) by {
                assert(walk.samples->Some_0.chroma[c] == self.intra->Some_0.picture.component(c));
                assert forall|b: int| 0 <= b < 4 implies chroma[c]@[b]
                    == setting.chroma_prediction(walk, c)[b] by {
                    assert(chroma[c][b] == chroma[c]@[b]);
                }
            }
            assert(Seq::new(2, |c: int| chroma[c]@) =~= Seq::new(
                2,
                |c: int| setting.chroma_prediction(walk, c),
            ));
        }
        self.waiting = Waiting::Code;
        Asked::Intra { luma, chroma, qp }
    }

    /// Make up the luma of the macroblock.
    fn conceal(&mut self)
        requires
            old(self).asks_in_slice(),
            old(self).intra is Some,
        ensures
            final(self).asks_in_slice(),
            final(self).intra is Some,
            final(self).setting() == old(self).setting(),
            final(self)@ == (WalkView {
                samples: Some(old(self).setting().luma_concealed(old(self)@)),
                ..old(self)@
            }),
    {
        proof {
            self.lemma_place();
            reveal(Setting::luma_concealed);
        }
        let mb_x: usize = self.plans[self.position].place.mb_x;
        let mb_y: usize = row_of(&self.shape, &self.plans[self.position].place);
        let ghost before = self.intra->Some_0;
        if let Some(state) = &mut self.intra {
            state.conceal_luma(mb_x, mb_y);
        }
        assert(self.intra->Some_0.picture.component(0) == before.picture.component(0));
        assert(self.intra->Some_0.picture.component(1) == before.picture.component(1));
        assert(self@.samples->Some_0.chroma =~= old(self)@.samples->Some_0.chroma);
    }

    /// Ask for a macroblock that is predicted from other pictures.
    fn ask_inter(&mut self, qp: i32) -> (asked: Asked)
        requires
            old(self).asks_in_slice(),
            old(self).intra is None,
        ensures
            final(self).wf(),
            final(self).setting() == old(self).setting(),
            final(self)@ == (WalkView { waiting: Waiting::Code, ..old(self)@ }),
            ({
                let setting = old(self).setting();
                let plan = setting.plan(old(self)@);
                let near = vectors::predicted_at(
                    setting.shape,
                    setting.plans,
                    old(self)@.position,
                )->Some_0;
                asked@ == (AskedView::Inter {
                    macroblock: motion::planned_macroblock(
                        setting.context,
                        setting.shape,
                        plan.place,
                        plan.motion->Some_0,
                        near.whole,
                        near.halves,
                        qp,
                        old(self)@.chain.previous,
                    ),
                    qp,
                })
            }),
    {
        proof {
            self.lemma_place();
            reveal(Setting::grounds);
        }
        let plan = self.plans[self.position];
        assert(plan.motion is Some);
        assert(self.near@[self.position as int] == vectors::predicted_at(
            self.shape,
            self.plans@,
            self.position as int,
        ));
        let near: Predicted = self.near[self.position].unwrap();
        let moves = plan.motion.unwrap();
        let macroblock = make_macroblock(
            &self.context,
            &self.shape,
            &plan.place,
            &moves,
            &near.whole,
            &near.halves,
            qp,
            self.chain.previous,
        );
        self.waiting = Waiting::Code;
        Asked::Inter { macroblock, qp }
    }

    /// The step that was chosen for a scale.
    fn step_for(&self, scale: Option<i32>) -> (qp: Option<i32>)
        requires
            self.steady(),
            scale matches Some(scale) ==> 0 <= scale < steps::SCALE_COUNT && self.steps@.dom().contains(
                scale as int,
            ),
        ensures
            qp == chosen_for(self.steps@, scale),
            qp matches Some(qp) ==> 0 <= qp <= MAX_QP,
    {
        match scale {
            Some(scale) => self.steps.get(scale),
            None => None,
        }
    }

    /// Ask for what it takes to code a macroblock whose scales all have their steps.
    fn code(&mut self) -> (asked: Asked)
        requires
            old(self).asks_in_slice(),
            unchosen(
                old(self).steps@,
                steps::scales_of(old(self).plans@[old(self).position as int].residual),
            ) is None,
        ensures
            final(self).wf(),
            final(self).setting() == old(self).setting(),
            (final(self)@, asked@) == old(self).setting().coding(old(self)@),
    {
        proof {
            reveal(Setting::grounds);
        }
        let plan = self.plans[self.position];
        let scales = scales_for(&plan.residual);
        assert(steps::are_scales(scales));
        let first: Option<i32> = self.step_for(scales[0]);
        let second: Option<i32> = self.step_for(scales[1]);
        let qp: i32 = self.chain.next(&plan.place, &plan.residual, [first, second]);
        assert(qp == self.setting().step(old(self)@));
        if self.intra.is_none() {
            return self.ask_inter(qp);
        }
        let luma: bool = match plan.residual {
            Residual::Own(Some(levels)) => levels.intra,
            _ => false,
        };
        if luma {
            self.ask_luma(0, qp)
        } else {
            self.conceal();
            self.ask_intra(false, qp)
        }
    }

    /// The first scale of the macroblock that no step was chosen for yet.
    fn missing_step(&self) -> (scale: Option<i32>)
        requires
            self.asks_in_slice(),
        ensures
            scale == unchosen(
                self.steps@,
                steps::scales_of(self.plans@[self.position as int].residual),
            ),
            scale matches Some(scale) ==> 0 <= scale < steps::SCALE_COUNT,
    {
        proof {
            reveal(Setting::grounds);
        }
        let plan = self.plans[self.position];
        let scales = scales_for(&plan.residual);
        assert(steps::are_scales(scales));
        if let Some(scale) = scales[0] {
            if self.steps.get(scale).is_none() {
                return Some(scale);
            }
        }
        if let Some(scale) = scales[1] {
            if self.steps.get(scale).is_none() {
                return Some(scale);
            }
        }
        None
    }

    /// Ask for what comes next.
    fn ask(&mut self) -> (asked: Asked)
        requires
            old(self).ready(),
        ensures
            final(self).wf(),
            final(self).setting() == old(self).setting(),
            (final(self)@, asked@) == old(self).setting().asking(old(self)@),
    {
        if let Waiting::Luma { block, prediction: _, qp } = self.waiting {
            return if block < 3 {
                self.ask_luma(block + 1, qp)
            } else {
                self.ask_intra(true, qp)
            };
        }
        if self.position >= self.plans.len() {
            self.waiting = Waiting::Nothing;
            return Asked::Done;
        }
        let second: bool = self.plans[self.position].place.second;
        let open: bool = match self.open {
            Some(open) => open == second,
            None => false,
        };
        if !open {
            return self.open_slice(second);
        }
        match self.missing_step() {
            Some(scale) => {
                self.waiting = Waiting::Step { scale };
                Asked::ChooseStep { scale }
            },
            None => self.code(),
        }
    }

    /// Take in what came of what was asked for, and ask for what comes next.
    pub fn next(&mut self, told: Told) -> (asked: Asked)
        requires
            old(self).wf(),
            answers(old(self)@, told),
        ensures
            final(self).wf(),
            final(self).setting() == old(self).setting(),
            (final(self)@, asked@) == old(self).setting().walked(old(self)@, told),
    {
        self.take(told);
        self.ask()
    }
}

/// The macroblock that is being coded stands in the slice that is open.
pub open spec fn is_in_slice(setting: Setting, walk: WalkView) -> bool {
    &&& walk.position < setting.plans.len()
    &&& walk.open == Some(setting.plan(walk).place.second)
}

/// How much of the macroblock that is being coded has been asked for.
pub open spec fn stage(setting: Setting, walk: WalkView) -> int {
    match walk.waiting {
        Waiting::Nothing => if is_in_slice(setting, walk) {
            1
        } else {
            0
        },
        Waiting::Step { scale } => if steps::scales_of(setting.plan(walk).residual)[0] == Some(
            scale,
        ) {
            2
        } else {
            3
        },
        Waiting::Luma { block, .. } => 4 + block as int,
        Waiting::Code => 8,
    }
}

/// Every answer brings a walk on: to its end, to a later macroblock, or to a later
/// question about the same one. Macroblocks are coded one after another, none is left
/// out, and none comes twice.
pub proof fn law_every_answer_brings_a_walk_on(setting: Setting, walk: WalkView, told: Told)
    requires
        0 <= walk.position <= setting.plans.len(),
        !(walk.waiting is Nothing) ==> is_in_slice(setting, walk),
        walk.waiting matches Waiting::Luma { block, .. } ==> block <= 3,
        walk.waiting matches Waiting::Step { scale } ==> {
            let scales = steps::scales_of(setting.plan(walk).residual);
            scales[0] == Some(scale) || (scales[1] == Some(scale) && unchosen(
                walk.steps,
                [scales[0], None],
            ) is None)
        },
        answers(walk, told),
    ensures
        ({
            let (after, asked) = setting.walked(walk, told);
            &&& after.position == walk.position + if walk.waiting is Code {
                1int
            } else {
                0
            }
            &&& asked is Done <==> after.position == setting.plans.len()
            &&& !(asked is Done) && after.position == walk.position ==> stage(setting, after)
                > stage(setting, walk)
            &&& asked is Luma || asked is Intra ==> after.samples is Some
            &&& asked is Inter ==> after.samples is None
        }),
{
    let answered = setting.answered(walk, told);
    match walk.waiting {
        Waiting::Step { scale } => {
            assert(answered.steps.dom().contains(scale as int));
        },
        _ => {},
    }
}

} // verus!
