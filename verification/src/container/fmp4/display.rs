//! For how long each picture of a unit is shown, and from when on.
use crate::container::fmp4::timeline;
use crate::container::fmp4::timeline::WalkState;
use crate::mpeg2::constants::{PictureStructure, FRAME_RATE};
use crate::mpeg2::headers::PictureView;
use vstd::arithmetic::div_mod;
use vstd::prelude::*;

verus! {

/// Whether `tick` is the tick of a clock of 90 kHz nearest to the time that `fields`
/// fields take, at `rate.0` frames in `rate.1` seconds and two fields to a frame. Of two
/// that are equally near it is the later.
pub open spec fn is_nearest(tick: int, fields: int, rate: (nat, nat)) -> bool {
    -(rate.0 as int) < 2 * rate.0 * tick - fields * 90000 * rate.1 <= rate.0
}

/// The tick of a number of fields is the nearest one.
pub proof fn law_ticks_are_nearest(fields: int, rate: (nat, nat))
    requires
        rate.0 > 0,
    ensures
        is_nearest(timeline::field_tick(fields, rate), fields, rate),
{
    let n = rate.0 as int;
    let a = fields * 90000 * rate.1;
    let t = timeline::field_tick(fields, rate);
    assert(timeline::TIMESCALE == 90000);
    assert(t == (a + n) / (2 * n));
    div_mod::lemma_fundamental_div_mod(a + n, 2 * n);
    div_mod::lemma_mod_bound(a + n, 2 * n);
}

/// There is one nearest tick.
pub proof fn law_one_tick_is_nearest(a: int, b: int, fields: int, rate: (nat, nat))
    requires
        is_nearest(a, fields, rate),
        is_nearest(b, fields, rate),
    ensures
        a == b,
{
    let n = rate.0 as int;
    assert(a == b) by (nonlinear_arith)
        requires
            n > 0,
            -2 * n < 2 * n * a - 2 * n * b < 2 * n,
    ;
}

/// More fields take no less time.
pub proof fn law_more_fields_take_no_less(few: int, many: int, rate: (nat, nat))
    requires
        few <= many,
        rate.0 > 0,
    ensures
        timeline::field_tick(few, rate) <= timeline::field_tick(many, rate),
{
    let n = rate.0 as int;
    let d = rate.1 as int;
    assert(few * 90000 * d <= many * 90000 * d) by (nonlinear_arith)
        requires
            few <= many,
            d >= 0,
    ;
    div_mod::lemma_div_is_ordered(few * 90000 * d + n, many * 90000 * d + n, 2 * n);
}

/// The frame rates that a sequence can name, and the fractions that its extension
/// multiplies them by.
pub proof fn law_rates_are_named(picture: PictureView)
    ensures
        ({
            let code = picture.sequence.frame_rate_code;
            let n = picture.sequence_ext.frame_rate_extension_n + 1;
            let d = picture.sequence_ext.frame_rate_extension_d + 1;
            let rate = timeline::frame_rate(picture);
            &&& rate is Some <==> 1 <= code <= 8
            &&& code == 1 ==> rate->Some_0.0 == 24000 * n && rate->Some_0.1 == 1001 * d
            &&& code == 2 ==> rate->Some_0.0 == 24 * n && rate->Some_0.1 == d
            &&& code == 3 ==> rate->Some_0.0 == 25 * n && rate->Some_0.1 == d
            &&& code == 4 ==> rate->Some_0.0 == 30000 * n && rate->Some_0.1 == 1001 * d
            &&& code == 5 ==> rate->Some_0.0 == 30 * n && rate->Some_0.1 == d
            &&& code == 6 ==> rate->Some_0.0 == 50 * n && rate->Some_0.1 == d
            &&& code == 7 ==> rate->Some_0.0 == 60000 * n && rate->Some_0.1 == 1001 * d
            &&& code == 8 ==> rate->Some_0.0 == 60 * n && rate->Some_0.1 == d
        }),
{
    let code = picture.sequence.frame_rate_code;
    let n = picture.sequence_ext.frame_rate_extension_n + 1;
    let d = picture.sequence_ext.frame_rate_extension_d + 1;
    if 1 <= code <= 8 {
        let a = FRAME_RATE@[code as int].0 as int;
        let b = FRAME_RATE@[code as int].1 as int;
        assert(a == if code == 1 {
            24000int
        } else if code == 2 {
            24
        } else if code == 3 {
            25
        } else if code == 4 {
            30000
        } else if code == 5 {
            30
        } else if code == 6 {
            50
        } else if code == 7 {
            60000
        } else {
            60
        });
        assert(b == if code == 1 || code == 4 || code == 7 {
            1001int
        } else {
            1
        });
        lemma_product(a, n);
        lemma_product(b, d);
    } else {
        assert(FRAME_RATE@[0].0 == 0);
    }
}

/// A product with one of the numbers of the frame rates.
proof fn lemma_product(a: int, n: int)
    requires
        n > 0,
        a > 0,
    ensures
        a * n > 0,
        a == 24000 ==> a * n == 24000 * n,
        a == 24 ==> a * n == 24 * n,
        a == 25 ==> a * n == 25 * n,
        a == 30000 ==> a * n == 30000 * n,
        a == 30 ==> a * n == 30 * n,
        a == 50 ==> a * n == 50 * n,
        a == 60000 ==> a * n == 60000 * n,
        a == 60 ==> a * n == 60 * n,
        a == 1001 ==> a * n == 1001 * n,
        a == 1 ==> a * n == n,
{
    assert(a * n > 0) by (nonlinear_arith)
        requires
            a > 0,
            n > 0,
    ;
    assert(1 * n == n) by (nonlinear_arith);
}

/// The display slot of the frame at picture `i`, when a walk has come to it: one behind
/// the slots of the groups before, and further by its temporal reference.
pub open spec fn slot_of(pictures: Seq<PictureView>, i: int, state: WalkState) -> int {
    let base = if pictures[i].starts_gop && state.seen_picture {
        state.gop_base + state.max_tr_in_gop + 1
    } else {
        state.gop_base
    };
    base + pictures[i].header.temporal_reference + 1
}

/// A picture that repeats its first field is shown for three fields, any other for two:
/// its display slot takes that many. Slots that were there keep theirs, and slots that
/// come into being between them take two.
pub proof fn law_a_repeated_field_is_shown_again(
    pictures: Seq<PictureView>,
    i: int,
    before: WalkState,
)
    requires
        0 <= i < pictures.len(),
        before.gop_base >= 0,
        before.max_tr_in_gop >= 0,
    ensures
        ({
            let slot = slot_of(pictures, i, before);
            let after = timeline::slot_step(pictures, i, before);
            let repeats = pictures[i].coding.picture_structure is Frame
                && pictures[i].coding.repeat_first_field;
            &&& slot < after.display_fields.len()
            &&& repeats ==> after.display_fields[slot] == 3
            &&& !repeats ==> after.display_fields[slot] == 2
            &&& forall|j: int|
                0 <= j < before.display_fields.len() && j != slot
                    ==> #[trigger] after.display_fields[j] == before.display_fields[j]
            &&& forall|j: int|
                before.display_fields.len() <= j < slot ==> #[trigger] after.display_fields[j] == 2
            &&& after.display_fields.len() == if before.display_fields.len() <= slot {
                slot + 1
            } else {
                before.display_fields.len() as int
            }
        }),
{
    reveal(timeline::slot_step);
}

/// Groups do not share display slots: where a group begins, its slots lie behind all those
/// that the group before it can have taken, and within a group they never go back to those.
pub proof fn law_groups_take_their_turn(pictures: Seq<PictureView>, i: int, before: WalkState)
    requires
        0 <= i < pictures.len(),
        before.gop_base >= 0,
        before.max_tr_in_gop >= 0,
    ensures
        ({
            let after = timeline::slot_step(pictures, i, before);
            let slot = slot_of(pictures, i, before);
            &&& after.gop_base < slot <= after.gop_base + after.max_tr_in_gop + 1
            &&& before.gop_base <= after.gop_base
            &&& pictures[i].starts_gop && before.seen_picture ==> before.gop_base
                + before.max_tr_in_gop + 1 < slot
            &&& !(pictures[i].starts_gop && before.seen_picture) ==> after.gop_base
                == before.gop_base && before.max_tr_in_gop <= after.max_tr_in_gop
            &&& after.seen_picture
            &&& after.max_tr_in_gop >= 0
        }),
{
    reveal(timeline::slot_step);
}

/// Fields that differ in one slot alone, by one, put everything behind that slot one field
/// later, and nothing else.
pub proof fn law_one_more_field_moves_what_follows(a: Seq<u8>, b: Seq<u8>, slot: int, index: int)
    requires
        0 < slot < a.len(),
        a.len() == b.len(),
        a[slot] == b[slot] + 1,
        forall|j: int| 0 <= j < a.len() && j != slot ==> a[j] == b[j],
        index <= a.len(),
    ensures
        index <= slot ==> timeline::fields_before(a, index) == timeline::fields_before(b, index),
        index > slot ==> timeline::fields_before(a, index) == timeline::fields_before(b, index) + 1,
    decreases index,
{
    if index > 1 {
        law_one_more_field_moves_what_follows(a, b, slot, index - 1);
    }
}

/// Two pictures that are the same but for the flag that repeats the first field.
pub open spec fn differ_in_repeat(a: PictureView, b: PictureView) -> bool {
    &&& a.coding.picture_structure is Frame
    &&& b.coding.picture_structure is Frame
    &&& a.coding.repeat_first_field
    &&& !b.coding.repeat_first_field
    &&& a.starts_gop == b.starts_gop
    &&& a.header.temporal_reference == b.header.temporal_reference
}

/// A picture that repeats its first field is shown half a frame longer than the same
/// picture without the flag, never shorter, and what is shown behind it comes one field
/// later.
pub proof fn law_repeating_moves_by_one_field(
    with: Seq<PictureView>,
    without: Seq<PictureView>,
    i: int,
    before: WalkState,
    rate: (nat, nat),
    index: int,
)
    requires
        0 <= i < with.len(),
        i < without.len(),
        differ_in_repeat(with[i], without[i]),
        before.gop_base >= 0,
        before.max_tr_in_gop >= 0,
        rate.0 > 0,
        slot_of(with, i, before) < index <= timeline::slot_step(
            with,
            i,
            before,
        ).display_fields.len(),
    ensures
        ({
            let slot = slot_of(with, i, before);
            let a = timeline::slot_step(with, i, before).display_fields;
            let b = timeline::slot_step(without, i, before).display_fields;
            let start = timeline::slot_start(b, rate, slot);
            &&& slot_of(without, i, before) == slot
            &&& timeline::slot_start(a, rate, slot) == start
            &&& timeline::slot_start(a, rate, index) >= timeline::slot_start(b, rate, index)
            &&& is_nearest(
                timeline::slot_start(a, rate, index),
                timeline::fields_before(b, index) + 1,
                rate,
            )
            &&& is_nearest(
                timeline::slot_start(a, rate, slot + 1),
                timeline::fields_before(b, slot) + 3,
                rate,
            )
            &&& is_nearest(
                timeline::slot_start(b, rate, slot + 1),
                timeline::fields_before(b, slot) + 2,
                rate,
            )
        }),
{
    let slot = slot_of(with, i, before);
    law_a_repeated_field_is_shown_again(with, i, before);
    law_a_repeated_field_is_shown_again(without, i, before);
    let a = timeline::slot_step(with, i, before).display_fields;
    let b = timeline::slot_step(without, i, before).display_fields;
    assert(slot_of(without, i, before) == slot);
    assert(a.len() == b.len());
    assert forall|j: int| 0 <= j < a.len() && j != slot implies a[j] == b[j] by {
        if j < before.display_fields.len() {
            assert(a[j] == before.display_fields[j]);
        }
    }
    law_one_more_field_moves_what_follows(a, b, slot, slot);
    law_one_more_field_moves_what_follows(a, b, slot, slot + 1);
    law_one_more_field_moves_what_follows(a, b, slot, index);
    law_ticks_are_nearest(timeline::fields_before(a, index), rate);
    law_ticks_are_nearest(timeline::fields_before(a, slot + 1), rate);
    law_ticks_are_nearest(timeline::fields_before(b, slot + 1), rate);
    law_more_fields_take_no_less(
        timeline::fields_before(b, index),
        timeline::fields_before(a, index),
        rate,
    );
}

/// No frame from picture `i` on is shown in display slot `slot`.
pub open spec fn slot_is_left(
    pictures: Seq<PictureView>,
    undecodable: Seq<bool>,
    i: int,
    state: WalkState,
    slot: int,
) -> bool
    decreases pictures.len() - i,
{
    if i < 0 || i >= pictures.len() {
        true
    } else {
        &&& !(pictures[i].header.picture_coding_type is Other) ==> slot_of(pictures, i, state)
            != slot
        &&& slot_is_left(
            pictures,
            undecodable,
            timeline::next_frame(pictures, i),
            timeline::walk_step(pictures, undecodable, i, state),
            slot,
        )
    }
}

/// The state counts as it should.
pub open spec fn counts(state: WalkState) -> bool {
    &&& state.gop_base >= 0
    &&& state.max_tr_in_gop >= 0
    &&& state.display_fields.len() > 0
}

/// A walk leaves a slot alone that no frame from here on is shown in, and keeps what it
/// has kept.
proof fn lemma_slot_is_left(
    pictures: Seq<PictureView>,
    undecodable: Seq<bool>,
    i: int,
    state: WalkState,
    slot: int,
)
    requires
        0 <= i,
        counts(state),
        0 <= slot < state.display_fields.len(),
        slot_is_left(pictures, undecodable, i, state, slot),
    ensures
        ({
            let end = timeline::walked(pictures, undecodable, i, state);
            &&& slot < end.display_fields.len()
            &&& end.display_fields[slot] == state.display_fields[slot]
            &&& end.kept.len() >= state.kept.len()
            &&& forall|k: int|
                0 <= k < state.kept.len() ==> #[trigger] end.kept[k] == state.kept[k]
        }),
    decreases pictures.len() - i,
{
    if i < pictures.len() {
        reveal(timeline::walk_step);
        let next = timeline::walk_step(pictures, undecodable, i, state);
        law_a_repeated_field_is_shown_again(pictures, i, state);
        law_groups_take_their_turn(pictures, i, state);
        lemma_step_keeps(pictures, i, state);
        lemma_slot_is_left(
            pictures,
            undecodable,
            timeline::next_frame(pictures, i),
            next,
            slot,
        );
    }
}

/// Taking a slot keeps what was kept.
proof fn lemma_step_keeps(pictures: Seq<PictureView>, i: int, state: WalkState)
    ensures
        timeline::slot_step(pictures, i, state).kept == state.kept,
{
    reveal(timeline::slot_step);
}

/// A picture of a unit is shown for three fields where it is a frame that repeats its
/// first field, and for two where it is not, from the time on that the fields of all slots
/// before its own take; provided that no later picture takes the same slot, and that the
/// times fit.
pub proof fn law_kept_pictures_are_shown_for_their_fields(
    first: PictureView,
    rate: (nat, nat),
    pictures: Seq<PictureView>,
    undecodable: Seq<bool>,
    i: int,
    before: WalkState,
)
    requires
        0 <= i < pictures.len(),
        counts(before),
        rate.0 > 0,
        !(pictures[i].header.picture_coding_type is Other),
        timeline::keeps(
            pictures,
            undecodable,
            i,
            timeline::slot_step(pictures, i, before),
        ),
        slot_of(pictures, i, before) <= u32::MAX,
        slot_is_left(
            pictures,
            undecodable,
            timeline::next_frame(pictures, i),
            timeline::walk_step(pictures, undecodable, i, before),
            slot_of(pictures, i, before),
        ),
        timeline::slot_start(
            timeline::walked(pictures, undecodable, i, before).display_fields,
            rate,
            slot_of(pictures, i, before) + 1,
        ) <= u32::MAX,
        timeline::slot_start(
            timeline::walked(pictures, undecodable, i, before).display_fields,
            rate,
            slot_of(pictures, i, before),
        ) >= 0,
    ensures
        ({
            let slot = slot_of(pictures, i, before);
            let end = timeline::walked(pictures, undecodable, i, before);
            let shown = timeline::timeline_of(first, rate, end);
            let k = before.kept.len() as int;
            let fields = timeline::fields_before(end.display_fields, slot);
            let own = if pictures[i].coding.picture_structure is Frame
                && pictures[i].coding.repeat_first_field {
                3int
            } else {
                2
            };
            &&& shown.presentation_indices[k] == slot
            &&& is_nearest(shown.presentation_times[k] as int, fields, rate)
            &&& is_nearest(
                shown.presentation_times[k] + shown.sample_durations[k],
                fields + own,
                rate,
            )
            &&& shown.field_pairs[k] <==> !(pictures[i].coding.picture_structure is Frame)
        }),
{
    reveal(timeline::walk_step);
    let slot = slot_of(pictures, i, before);
    let next = timeline::walk_step(pictures, undecodable, i, before);
    law_a_repeated_field_is_shown_again(pictures, i, before);
    law_groups_take_their_turn(pictures, i, before);
    lemma_step_keeps(pictures, i, before);
    assert(next.kept[before.kept.len() as int].index == slot) by {
        reveal(timeline::slot_step);
    }
    lemma_slot_is_left(
        pictures,
        undecodable,
        timeline::next_frame(pictures, i),
        next,
        slot,
    );
    let end = timeline::walked(pictures, undecodable, i, before);
    let k = before.kept.len() as int;
    assert(end.kept[k] == next.kept[k]);
    let fields = timeline::fields_before(end.display_fields, slot);
    law_ticks_are_nearest(fields, rate);
    law_ticks_are_nearest(fields + end.display_fields[slot], rate);
    law_more_fields_take_no_less(fields, fields + end.display_fields[slot], rate);
    assert(timeline::fields_before(end.display_fields, slot + 1) == fields
        + end.display_fields[slot]);
}

/// How a picture's fields lie: a field picture is one field of an interlaced frame and
/// comes first, whichever it is; a frame says itself whether it is progressive and which
/// field is first.
pub proof fn law_scans_are_told(picture: PictureView)
    ensures
        ({
            let scan = timeline::scan_kind(picture);
            match picture.coding.picture_structure {
                PictureStructure::TopField => scan.interlaced && scan.top_field_first,
                PictureStructure::BottomField => scan.interlaced && !scan.top_field_first,
                PictureStructure::Frame => {
                    &&& scan.interlaced <==> !picture.coding.progressive_frame
                    &&& scan.top_field_first <==> picture.coding.top_field_first
                },
                PictureStructure::Reserved => true,
            }
        }),
{
}

/// Two field pictures make a frame where they are of opposite parity, of the same place in
/// display order, and of the same type; beside an I field there may also be a P field, which
/// is predicted from it. Nothing else makes one.
pub proof fn law_two_fields_make_a_frame(first: PictureView, second: PictureView)
    requires
        first.coding.picture_structure is TopField || first.coding.picture_structure is BottomField,
        second.coding.picture_structure is TopField || second.coding.picture_structure is BottomField
            || second.coding.picture_structure is Frame,
    ensures
        ({
            let a = first.header.picture_coding_type;
            let b = second.header.picture_coding_type;
            timeline::complements(second, first) <==> {
                &&& (first.coding.picture_structure is TopField
                    && second.coding.picture_structure is BottomField) || (
                first.coding.picture_structure is BottomField
                    && second.coding.picture_structure is TopField)
                &&& first.header.temporal_reference == second.header.temporal_reference
                &&& (a is I && b is I) || (a is I && b is P) || (a is P && b is P) || (a is B
                    && b is B)
            }
        }),
{
}

/// A picture is carried only where it is a whole frame, or both fields of one; of the unit's own
/// description; with slices that nobody found damaged; not before an intra picture where the
/// unit has to begin with one; and a B picture only behind two that it can be predicted from.
pub proof fn law_pictures_that_can_be_shown_are_kept(
    pictures: Seq<PictureView>,
    i: int,
    state: WalkState,
)
    requires
        0 <= i < pictures.len(),
        pictures[i].slices.len() > 0,
        pictures[i].coding.picture_structure is Frame,
        crate::mpeg2::headers::picture_description(pictures[i])
            == crate::mpeg2::headers::picture_description(pictures[0]),
    ensures
        ({
            let kind = pictures[i].header.picture_coding_type;
            let none = Seq::<bool>::empty();
            &&& kind is I ==> timeline::keeps(pictures, none, i, state)
            &&& kind is P ==> (timeline::keeps(pictures, none, i, state) <==> !state.awaiting_intra)
            &&& kind is B ==> (timeline::keeps(pictures, none, i, state) <==> !state.awaiting_intra
                && state.references >= 2)
            &&& forall|marks: Seq<bool>|
                i < marks.len() && #[trigger] marks[i] ==> !timeline::keeps(
                    pictures,
                    marks,
                    i,
                    state,
                )
        }),
{
}

} // verus!
