//! The vectors of a picture as its syntax tells them: each as how far it lies from what
//! the macroblocks coded before it predict.
use crate::h264::mb::MbMotion;
use crate::h264::mvpred;
use crate::h264::mvpred::{MotionField, MotionFieldView};
use crate::transcode::macroblocks::MacroblockPlan;
use crate::transcode::motion;
use crate::transcode::motion::{
    lists_used, motion_left, picture_coding, Coding, MotionPlan, Neighbours,
};
use crate::transcode::picture;
use crate::transcode::picture::{PictureShape, Place};
use crate::transcode::predict;
use crate::transcode::predict::Prediction;
use vstd::prelude::*;

verus! {

/// What the neighbours of a macroblock predict: for the whole of it, and for its halves.
#[derive(Clone, Copy, Debug, PartialEq, Eq)]
pub struct Predicted {
    pub whole: Neighbours,
    pub halves: [Neighbours; 2],
}

/// Nothing is predicted to move.
pub open spec fn still() -> Neighbours {
    Neighbours { l0: [0, 0], l1: [0, 0] }
}

/// What is predicted for the whole of a macroblock, in the lists that it uses.
pub open spec fn near_whole(
    field: MotionFieldView,
    x: int,
    y: int,
    used: (bool, bool),
    refs: (i32, i32),
) -> Neighbours {
    Neighbours {
        l0: if used.0 {
            field.predicted(x, y, 0, refs.0)
        } else {
            [0, 0]
        },
        l1: if used.1 {
            field.predicted(x, y, 1, refs.1)
        } else {
            [0, 0]
        },
    }
}

/// What is predicted for a half of a macroblock, in the lists that it uses.
pub open spec fn near_half(
    field: MotionFieldView,
    x: int,
    y: int,
    part: int,
    used: (bool, bool),
    refs: (i32, i32),
) -> Neighbours {
    Neighbours {
        l0: if used.0 {
            field.predicted_half(x, y, part, 0, refs.0)
        } else {
            [0, 0]
        },
        l1: if used.1 {
            field.predicted_half(x, y, part, 1, refs.1)
        } else {
            [0, 0]
        },
    }
}

/// The indices that a prediction names.
pub open spec fn refs_of(prediction: Prediction) -> (i32, i32) {
    (prediction.ref_idx_l0, prediction.ref_idx_l1)
}

/// Whether the halves of a macroblock use the lists that their types name, rather than
/// those that they have indices in.
pub open spec fn halves_by_type(coding: Coding) -> bool {
    coding is SplitFrame
}

/// What the neighbours of a planned macroblock predict. The halves of a field macroblock
/// of a frame are all that it has. The upper half is a neighbour of the lower one.
pub open spec fn predictions(
    field: MotionFieldView,
    coding: Coding,
    x: int,
    y: int,
    plan: MotionPlan,
) -> Predicted {
    let by_type = halves_by_type(coding);
    Predicted {
        whole: if coding is FieldPair {
            still()
        } else {
            near_whole(field, x, y, motion::uses(plan.whole, true), refs_of(plan.whole))
        },
        halves: match plan.halves {
            Some(halves) => [
                near_half(field, x, y, 0, motion::uses(halves[0], by_type), refs_of(halves[0])),
                near_half(
                    field.put(x, 2 * y, motion::motion_of(halves[0], by_type)),
                    x,
                    y,
                    1,
                    motion::uses(halves[1], by_type),
                    refs_of(halves[1]),
                ),
            ],
            None => [still(), still()],
        },
    }
}

/// What the halves of a planned macroblock move by.
pub open spec fn planned_motions(coding: Coding, plan: MotionPlan) -> (MbMotion, MbMotion) {
    let by_type = halves_by_type(coding);
    match plan.halves {
        Some(halves) => (
            motion::motion_of(halves[0], by_type),
            motion::motion_of(halves[1], by_type),
        ),
        None => (motion::motion_of(plan.whole, true), motion::motion_of(plan.whole, true)),
    }
}

/// The field once both halves of a macroblock have been coded.
pub open spec fn put_halves(
    field: MotionFieldView,
    x: int,
    y: int,
    motions: (MbMotion, MbMotion),
) -> MotionFieldView {
    field.put(x, 2 * y, motions.0).put(x, 2 * y + 1, motions.1)
}

/// The vectors of a coded picture: those of its frame macroblocks, and those of the
/// macroblocks of either field.
#[verifier::ext_equal]
pub struct ScratchView {
    pub frame: MotionFieldView,
    pub top: MotionFieldView,
    pub bottom: MotionFieldView,
}

/// Nothing of a picture has been coded.
pub open spec fn unmoved(shape: PictureShape) -> ScratchView {
    let w = shape.mb_width as int;
    let h = shape.mb_height as int;
    ScratchView {
        frame: mvpred::nothing_coded(w, h),
        top: mvpred::nothing_coded(w, h / 2),
        bottom: mvpred::nothing_coded(w, h / 2),
    }
}

impl ScratchView {
    /// The vectors of the macroblocks that are coded like the one at a place.
    pub open spec fn of_place(self, shape: PictureShape, place: Place) -> MotionFieldView {
        if !shape.in_fields() {
            self.frame
        } else if place.mb_y % 2 == 0 {
            self.top
        } else {
            self.bottom
        }
    }

    /// Other vectors in place of those of the macroblocks that are coded like the one at
    /// a place.
    pub open spec fn with_place(
        self,
        shape: PictureShape,
        place: Place,
        field: MotionFieldView,
    ) -> ScratchView {
        if !shape.in_fields() {
            ScratchView { frame: field, ..self }
        } else if place.mb_y % 2 == 0 {
            ScratchView { top: field, ..self }
        } else {
            ScratchView { bottom: field, ..self }
        }
    }

    /// The vectors are those of a picture of a shape.
    pub open spec fn fits(self, shape: PictureShape) -> bool {
        &&& self.frame.wf()
        &&& self.top.wf()
        &&& self.bottom.wf()
        &&& self.frame.width == shape.mb_width && self.frame.height == shape.mb_height
        &&& self.top.width == shape.mb_width && self.top.height == shape.mb_height as int / 2
        &&& self.bottom.width == shape.mb_width && self.bottom.height == shape.mb_height as int
            / 2
    }

    /// No vector is longer than the longest.
    pub open spec fn is_short(self) -> bool {
        &&& self.frame.within(predict::LONGEST_VECTOR as int)
        &&& self.top.within(predict::LONGEST_VECTOR as int)
        &&& self.bottom.within(predict::LONGEST_VECTOR as int)
    }
}

/// Whether a slice begins with the macroblock at a position: nothing coded before it is
/// a neighbour of what follows.
pub open spec fn opens_slice(shape: PictureShape, position: int) -> bool {
    position == 0 || (shape.pair && position == shape.field_count())
}

/// The plans are those of the macroblocks of a picture, each in its place.
pub open spec fn in_place(shape: PictureShape, plans: Seq<MacroblockPlan>) -> bool {
    &&& plans.len() == shape.count()
    &&& forall|p: int| 0 <= p < plans.len() ==> (#[trigger] plans[p]).place == shape.place(p)
}

/// No vector of a plan is longer than the longest, and a field macroblock of a frame has
/// nothing but its halves.
pub open spec fn is_sound(coding: Coding, plan: MotionPlan) -> bool {
    &&& motion::plan_short(plan)
    &&& coding is FieldPair ==> plan.whole == motion::no_prediction()
}

/// The plans of all macroblocks are sound.
pub open spec fn all_sound(shape: PictureShape, plans: Seq<MacroblockPlan>) -> bool {
    forall|p: int|
        0 <= p < plans.len() ==> ((#[trigger] plans[p]).motion matches Some(plan) ==> is_sound(
            motion::coding_of(shape),
            plan,
        ))
}

/// What has been coded once a macroblock has.
pub open spec fn moved(
    shape: PictureShape,
    before: ScratchView,
    place: Place,
    plan: Option<MotionPlan>,
) -> ScratchView {
    match plan {
        Some(plan) => before.with_place(
            shape,
            place,
            put_halves(
                before.of_place(shape, place),
                place.mb_x as int,
                motion::coded_row(shape, place) as int,
                planned_motions(motion::coding_of(shape), plan),
            ),
        ),
        None => before,
    }
}

/// What the macroblock at a position is predicted from: what its slice has coded so far.
pub open spec fn coded_before(
    shape: PictureShape,
    plans: Seq<MacroblockPlan>,
    position: int,
) -> ScratchView
    decreases position,
{
    if position <= 0 || opens_slice(shape, position) {
        unmoved(shape)
    } else {
        moved(
            shape,
            coded_before(shape, plans, position - 1),
            shape.place(position - 1),
            plans[position - 1].motion,
        )
    }
}

/// What the neighbours of the macroblock at a position predict; nothing in a slice that
/// predicts from itself.
pub open spec fn predicted_at(
    shape: PictureShape,
    plans: Seq<MacroblockPlan>,
    position: int,
) -> Option<Predicted> {
    let place = shape.place(position);
    match plans[position].motion {
        Some(plan) => Some(
            predictions(
                coded_before(shape, plans, position).of_place(shape, place),
                motion::coding_of(shape),
                place.mb_x as int,
                motion::coded_row(shape, place) as int,
                plan,
            ),
        ),
        None => None,
    }
}

/// The syntax of a planned macroblock can tell its vectors.
pub open spec fn told_by(coding: Coding, plan: MotionPlan, predicted: Predicted) -> bool {
    let by_type = halves_by_type(coding);
    &&& motion::tellable(plan.whole, true, predicted.whole)
    &&& plan.halves matches Some(halves) ==> {
        &&& motion::tellable(halves[0], by_type, predicted.halves[0])
        &&& motion::tellable(halves[1], by_type, predicted.halves[1])
    }
}

/// The motion of a short prediction is short.
proof fn lemma_motion_short(prediction: Prediction, by_type: bool)
    requires
        predict::is_short(prediction),
    ensures
        mvpred::cell_within(
            Some(motion::motion_of(prediction, by_type)),
            predict::LONGEST_VECTOR as int,
        ),
{
}

/// What short vectors predict for the whole of a macroblock can be told.
proof fn lemma_whole_told(field: MotionFieldView, x: int, y: int, prediction: Prediction)
    requires
        field.wf(),
        field.within(predict::LONGEST_VECTOR as int),
        predict::is_short(prediction),
    ensures
        motion::tellable(
            prediction,
            true,
            near_whole(field, x, y, motion::uses(prediction, true), refs_of(prediction)),
        ),
{
    let limit = predict::LONGEST_VECTOR as int;
    mvpred::lemma_predicted_within(field, x, y, 0, prediction.ref_idx_l0, limit);
    mvpred::lemma_predicted_within(field, x, y, 1, prediction.ref_idx_l1, limit);
}

/// What short vectors predict for a half of a macroblock can be told.
proof fn lemma_half_told(
    field: MotionFieldView,
    x: int,
    y: int,
    part: int,
    prediction: Prediction,
    by_type: bool,
)
    requires
        field.wf(),
        field.within(predict::LONGEST_VECTOR as int),
        predict::is_short(prediction),
    ensures
        motion::tellable(
            prediction,
            by_type,
            near_half(field, x, y, part, motion::uses(prediction, by_type), refs_of(prediction)),
        ),
{
    let limit = predict::LONGEST_VECTOR as int;
    mvpred::lemma_predicted_half_within(field, x, y, part, 0, prediction.ref_idx_l0, limit);
    mvpred::lemma_predicted_half_within(field, x, y, part, 1, prediction.ref_idx_l1, limit);
}

/// What short vectors predict can be told, and short vectors are left behind.
proof fn lemma_step(field: MotionFieldView, coding: Coding, x: int, y: int, plan: MotionPlan)
    requires
        field.wf(),
        field.within(predict::LONGEST_VECTOR as int),
        is_sound(coding, plan),
        0 <= x < field.width,
        0 <= y < field.height,
    ensures
        told_by(coding, plan, predictions(field, coding, x, y, plan)),
        put_halves(field, x, y, planned_motions(coding, plan)).wf(),
        put_halves(field, x, y, planned_motions(coding, plan)).within(
            predict::LONGEST_VECTOR as int,
        ),
{
    let limit = predict::LONGEST_VECTOR as int;
    let by_type = halves_by_type(coding);
    let motions = planned_motions(coding, plan);
    lemma_motion_short(plan.whole, true);
    if !(coding is FieldPair) {
        lemma_whole_told(field, x, y, plan.whole);
    }
    if let Some(halves) = plan.halves {
        lemma_motion_short(halves[0], by_type);
        lemma_motion_short(halves[1], by_type);
    }
    mvpred::lemma_put_within(field, x, 2 * y, motions.0, limit);
    mvpred::lemma_put_within(field.put(x, 2 * y, motions.0), x, 2 * y + 1, motions.1, limit);
    if let Some(halves) = plan.halves {
        lemma_half_told(field, x, y, 0, halves[0], by_type);
        lemma_half_told(field.put(x, 2 * y, motions.0), x, y, 1, halves[1], by_type);
    }
}

/// What is predicted for the whole of a macroblock.
fn predict_whole(field: &MotionField, x: usize, y: usize, prediction: &Prediction) -> (near:
    Neighbours)
    requires
        field@.wf(),
        x < field@.width,
        y < field@.height,
    ensures
        near == near_whole(
            field@,
            x as int,
            y as int,
            motion::uses(*prediction, true),
            refs_of(*prediction),
        ),
{
    let (l0, l1) = lists_used(prediction, true);
    Neighbours {
        l0: if l0 {
            field.predict(x, y, 0, prediction.ref_idx_l0)
        } else {
            [0, 0]
        },
        l1: if l1 {
            field.predict(x, y, 1, prediction.ref_idx_l1)
        } else {
            [0, 0]
        },
    }
}

/// What is predicted for a half of a macroblock.
fn predict_half(
    field: &MotionField,
    x: usize,
    y: usize,
    part: usize,
    prediction: &Prediction,
    by_type: bool,
) -> (near: Neighbours)
    requires
        field@.wf(),
        x < field@.width,
        y < field@.height,
    ensures
        near == near_half(
            field@,
            x as int,
            y as int,
            part as int,
            motion::uses(*prediction, by_type),
            refs_of(*prediction),
        ),
{
    let (l0, l1) = lists_used(prediction, by_type);
    Neighbours {
        l0: if l0 {
            field.predict_16x8(x, y, part, 0, prediction.ref_idx_l0)
        } else {
            [0, 0]
        },
        l1: if l1 {
            field.predict_16x8(x, y, part, 1, prediction.ref_idx_l1)
        } else {
            [0, 0]
        },
    }
}

/// Predict the vectors of a macroblock, and keep what it moves by.
fn follow(field: &mut MotionField, coding: Coding, x: usize, y: usize, plan: &MotionPlan) -> (predicted:
    Predicted)
    requires
        old(field)@.wf(),
        x < old(field)@.width,
        y < old(field)@.height,
    ensures
        predicted == predictions(old(field)@, coding, x as int, y as int, *plan),
        final(field)@ == put_halves(
            old(field)@,
            x as int,
            y as int,
            planned_motions(coding, *plan),
        ),
        final(field)@.wf(),
{
    let by_type: bool = coding == Coding::SplitFrame;
    let nothing = Neighbours { l0: [0, 0], l1: [0, 0] };
    let whole = if coding == Coding::FieldPair {
        nothing
    } else {
        predict_whole(field, x, y, &plan.whole)
    };
    match plan.halves {
        Some(halves) => {
            let upper = predict_half(field, x, y, 0, &halves[0], by_type);
            field.set_16x8(x, y, 0, &motion_left(&halves[0], by_type));
            let lower = predict_half(field, x, y, 1, &halves[1], by_type);
            field.set_16x8(x, y, 1, &motion_left(&halves[1], by_type));
            Predicted { whole, halves: [upper, lower] }
        },
        None => {
            field.set(x, y, &motion_left(&plan.whole, true));
            Predicted { whole, halves: [nothing, nothing] }
        },
    }
}

/// The neighbour state that a picture's coding reads back.
pub struct PictureScratch {
    pub motion: MotionField,
    /// For the pictures coded as fields.
    pub top_motion: MotionField,
    pub bottom_motion: MotionField,
}

impl View for PictureScratch {
    type V = ScratchView;

    open spec fn view(&self) -> ScratchView {
        ScratchView {
            frame: self.motion@,
            top: self.top_motion@,
            bottom: self.bottom_motion@,
        }
    }
}

impl PictureScratch {
    /// Nothing of a picture has been coded.
    pub fn new(shape: &PictureShape) -> (scratch: Self)
        requires
            shape.wf(),
        ensures
            scratch@ == unmoved(*shape),
            scratch@.fits(*shape),
    {
        let field_height: usize = shape.mb_height / 2;
        PictureScratch {
            motion: MotionField::new(shape.mb_width, shape.mb_height),
            top_motion: MotionField::new(shape.mb_width, field_height),
            bottom_motion: MotionField::new(shape.mb_width, field_height),
        }
    }

    /// Start a slice.
    pub fn reset(&mut self, shape: &PictureShape)
        requires
            old(self)@.fits(*shape),
        ensures
            final(self)@ == unmoved(*shape),
            final(self)@.fits(*shape),
    {
        self.motion.reset();
        self.top_motion.reset();
        self.bottom_motion.reset();
    }

    /// Predict the vectors of the macroblock at a place, and keep what it moves by.
    pub fn predict(&mut self, shape: &PictureShape, place: &Place, plan: &MotionPlan) -> (predicted:
        Predicted)
        requires
            shape.wf(),
            old(self)@.fits(*shape),
            place.mb_x < shape.mb_width,
            place.mb_y < shape.mb_height,
        ensures
            predicted == predictions(
                old(self)@.of_place(*shape, *place),
                motion::coding_of(*shape),
                place.mb_x as int,
                motion::coded_row(*shape, *place) as int,
                *plan,
            ),
            final(self)@ == moved(*shape, old(self)@, *place, Some(*plan)),
            final(self)@.fits(*shape),
    {
        let coding = picture_coding(shape);
        if coding == Coding::FieldPair || coding == Coding::FieldPicture {
            let row: usize = place.mb_y / 2;
            if place.mb_y % 2 == 0 {
                follow(&mut self.top_motion, coding, place.mb_x, row, plan)
            } else {
                follow(&mut self.bottom_motion, coding, place.mb_x, row, plan)
            }
        } else {
            follow(&mut self.motion, coding, place.mb_x, place.mb_y, plan)
        }
    }
}

/// A place lies within the picture, and so does its row.
proof fn lemma_place_within(shape: PictureShape, position: int)
    requires
        shape.wf(),
        0 <= position < shape.count(),
    ensures
        shape.place(position).mb_x < shape.mb_width,
        shape.place(position).mb_y < shape.mb_height,
        shape.in_fields() ==> motion::coded_row(shape, shape.place(position))
            < shape.mb_height as int / 2,
        !shape.in_fields() ==> motion::coded_row(shape, shape.place(position)) < shape.mb_height,
{
    picture::law_every_macroblock_is_coded_once(shape);
}

/// Nothing coded is short.
pub proof fn lemma_unmoved_fits(shape: PictureShape)
    requires
        shape.wf(),
    ensures
        unmoved(shape).fits(shape),
        unmoved(shape).is_short(),
{
    assert(2 * (shape.mb_height as int) * (shape.mb_width as int) >= 0) by (nonlinear_arith);
    assert(2 * (shape.mb_height as int / 2) * (shape.mb_width as int) >= 0) by (nonlinear_arith);
}

/// Coding a macroblock keeps the vectors short, and what is predicted for it can be told.
pub proof fn lemma_moved(shape: PictureShape, before: ScratchView, position: int, plan: MotionPlan)
    requires
        shape.wf(),
        0 <= position < shape.count(),
        before.fits(shape),
        before.is_short(),
        is_sound(motion::coding_of(shape), plan),
    ensures
        ({
            let place = shape.place(position);
            let after = moved(shape, before, place, Some(plan));
            &&& after.fits(shape)
            &&& after.is_short()
            &&& told_by(
                motion::coding_of(shape),
                plan,
                predictions(
                    before.of_place(shape, place),
                    motion::coding_of(shape),
                    place.mb_x as int,
                    motion::coded_row(shape, place) as int,
                    plan,
                ),
            )
        }),
{
    let place = shape.place(position);
    lemma_place_within(shape, position);
    lemma_step(
        before.of_place(shape, place),
        motion::coding_of(shape),
        place.mb_x as int,
        motion::coded_row(shape, place) as int,
        plan,
    );
}

/// Predict the vectors of every macroblock of a picture, in the order that they are coded.
pub fn predict_vectors(shape: &PictureShape, plans: &Vec<MacroblockPlan>) -> (predicted: Vec<
    Option<Predicted>,
>)
    requires
        shape.wf(),
        in_place(*shape, plans@),
        all_sound(*shape, plans@),
    ensures
        predicted@.len() == plans@.len(),
        forall|p: int|
            0 <= p < plans@.len() ==> #[trigger] predicted@[p] == predicted_at(*shape, plans@, p),
        forall|p: int|
            0 <= p < plans@.len() ==> ((#[trigger] plans@[p]).motion matches Some(plan) ==> told_by(
                motion::coding_of(*shape),
                plan,
                predicted@[p]->Some_0,
            )),
{
    let count: usize = plans.len();
    let field_count: usize = if shape.pair {
        shape.field_macroblock_count()
    } else {
        0
    };
    let mut scratch = PictureScratch::new(shape);
    let mut predicted: Vec<Option<Predicted>> = Vec::new();
    let mut position: usize = 0;
    proof {
        lemma_unmoved_fits(*shape);
    }
    while position < count
        invariant
            shape.wf(),
            in_place(*shape, plans@),
            all_sound(*shape, plans@),
            count == plans@.len(),
            shape.pair ==> field_count == shape.field_count(),
            position <= count,
            scratch@.fits(*shape),
            scratch@.is_short(),
            !opens_slice(*shape, position as int) ==> scratch@ == coded_before(
                *shape,
                plans@,
                position as int,
            ),
            predicted@.len() == position,
            forall|p: int|
                0 <= p < position ==> #[trigger] predicted@[p] == predicted_at(*shape, plans@, p),
            forall|p: int|
                0 <= p < position ==> ((#[trigger] plans@[p]).motion matches Some(plan)
                    ==> told_by(motion::coding_of(*shape), plan, predicted@[p]->Some_0)),
        decreases count - position,
    {
        if position == 0 || (shape.pair && position == field_count) {
            scratch.reset(shape);
            proof {
                lemma_unmoved_fits(*shape);
            }
        }
        assert(scratch@ == coded_before(*shape, plans@, position as int));
        let ghost before = scratch@;
        let plan: &MacroblockPlan = &plans[position];
        let near: Option<Predicted> = match &plan.motion {
            Some(motion) => {
                proof {
                    lemma_place_within(*shape, position as int);
                    lemma_moved(*shape, before, position as int, *motion);
                }
                Some(scratch.predict(shape, &plan.place, motion))
            },
            None => None,
        };
        assert(near == predicted_at(*shape, plans@, position as int));
        predicted.push(near);
        position = position + 1;
    }
    predicted
}

} // verus!
