//! The pieces of H.264 syntax that a unit is held together by.
use crate::h264::bitwriter;
use crate::h264::bitwriter::{nal_type, BitWriter};
use crate::h264::nal;
use crate::h264::nal::to_nal_unit;
use crate::h264::params;
use crate::h264::params::FrameGeometry;
use crate::h264::slice;
use crate::h264::slice::{
    write_slice_header, RefPicList, RefPicListEntry, SliceHeaderConfig, SliceType,
};
use crate::job::ShortTermFrames;
use vstd::prelude::*;

verus! {

pub const LOG2_MAX_FRAME_NUM_MINUS4: u32 = 4;

pub const LOG2_MAX_POC_LSB_MINUS4: u32 = 12;

pub const LOG2_MAX_FRAME_NUM: u32 = 8;

pub const LOG2_MAX_POC_LSB: u32 = 16;

pub const PPS_INIT_QP: i32 = 26;

/// Chroma is quantised finer than luma. Its conversion runs through an inverse
/// and a forward transform plus the 2x2 DC Hadamard, which is orthogonal but not
/// orthonormal, so it accumulates more rounding than luma's direct coefficient
/// mapping and that error compounds along a chain of predicted pictures.
pub const CHROMA_QP_OFFSET: i32 = -6;

pub const MAX_FRAME_NUM: u32 = 256;

/// `max_num_ref_frames`, which is also when the sliding window starts pushing
/// pictures out: three short-term frames and the long-term one.
pub const MAX_NUM_REF_FRAMES: u32 = 4;

/// Picture order counts advance by this much per source frame.
///
/// Four, not the two a pair of fields needs, because a random access point puts
/// two pictures where the source had one: an IDR that may be a field pair and
/// so takes counts 0 and 1, and the copy of it that carries the flat prediction
/// at 2. Content has to start above all three, and stepping by four leaves each
/// frame's own pair of counts adjacent.
pub const POC_PER_FRAME: u32 = 4;

/// The order count of the copy that follows the IDR, which displays between the
/// IDR and the first content picture.
pub const CLONE_POC: u32 = 2;

/// `LongTermFrameIdx` of that copy, the only long-term picture there ever is.
pub const LONG_TERM_FRAME_IDX: u32 = 0;

/// What a slice header says unless told otherwise.
pub open spec fn plain_header() -> SliceHeaderConfig {
    SliceHeaderConfig {
        first_mb_in_slice: 0,
        slice_type: SliceType::P,
        frame_num: 0,
        log2_max_frame_num: LOG2_MAX_FRAME_NUM,
        pic_order_cnt_lsb: 0,
        log2_max_poc_lsb: LOG2_MAX_POC_LSB,
        idr: false,
        long_term_current: None,
        long_term_previous: None,
        reference: false,
        mbaff: false,
        field_picture: None,
        slice_qp: PPS_INIT_QP,
        pps_init_qp: PPS_INIT_QP,
        disable_deblocking_filter_idc: 1,
        num_ref_idx_l0_active: None,
        num_ref_idx_l1_active: None,
        explicit_ref_lists: None,
        l1_first_short_term_delta: None,
        flat_pred_ref_idx: [None, None],
    }
}

/// The header of the copy that follows an IDR.
pub open spec fn clone_header(mbaff: bool, mark_random_access_point: bool) -> SliceHeaderConfig {
    SliceHeaderConfig {
        frame_num: 1,
        pic_order_cnt_lsb: CLONE_POC,
        reference: true,
        long_term_previous: if mark_random_access_point {
            Some((1u32, LONG_TERM_FRAME_IDX))
        } else {
            None
        },
        mbaff,
        num_ref_idx_l0_active: Some(1u32),
        ..plain_header()
    }
}

/// The copy that follows an IDR: one slice that skips every macroblock.
pub open spec fn clone_unit(g: FrameGeometry, mbaff: bool, mark_random_access_point: bool) -> Seq<
    u8,
> {
    nal::nal_unit(
        params::closed_rbsp(
            slice::header_bits(clone_header(mbaff, mark_random_access_point)) + bitwriter::ue_code(
                (g.mb_width * g.mb_height) as nat,
            ),
        ),
        2,
        nal_type::SLICE_NON_IDR as int,
    )
}

/// Copy the picture that opens a random access point, without changing pixels.
///
/// Two pictures are needed there. Intra macroblocks need a reference index whose
/// weights can force the flat prediction, and that index has to survive the
/// sliding window for the rest of the stream, so one of the two has to be
/// long-term; the other stays short-term for the content to predict from. Both
/// hold the same samples, so which is which does not change a single decoded
/// sample -- but it does change which one a decoder has to keep.
///
/// The long-term slot goes to the random access picture, not to this copy,
/// because VideoToolbox stops honouring an IDR as a reference once the picture
/// behind it marks itself long-term, and substitutes the most recently decoded
/// reference wherever the IDR is named. Content then predicts from this copy,
/// which no marking has moved, and never names the IDR at all.
///
/// A frame IDR says so itself with `long_term_reference_flag`. A field pair
/// cannot -- only its first half is the IDR, and marking one field leaves the
/// pair half marked, which ffmpeg fails to resolve -- so with
/// `mark_random_access_point` this copy hands the slot over from outside, where
/// being a frame lets it name the pair as a whole.
pub fn write_reference_clone(
    g: &FrameGeometry,
    mbaff: bool,
    mark_random_access_point: bool,
) -> (unit: Vec<u8>)
    requires
        g.mb_width * g.mb_height < u32::MAX,
    ensures
        unit@ == clone_unit(*g, mbaff, mark_random_access_point),
{
    let mut w = BitWriter::with_capacity(64);
    let cfg = SliceHeaderConfig {
        first_mb_in_slice: 0,
        slice_type: SliceType::P,
        frame_num: 1,
        log2_max_frame_num: LOG2_MAX_FRAME_NUM,
        pic_order_cnt_lsb: CLONE_POC,
        log2_max_poc_lsb: LOG2_MAX_POC_LSB,
        idr: false,
        long_term_current: None,
        // The random access picture is the only one in the buffer, and a
        // pair of coded fields sharing a `frame_num` is one frame to a frame
        // picture, so index 0 and one `frame_num` back both reach it
        // whichever way the source sent it.
        long_term_previous: if mark_random_access_point {
            Some((1, LONG_TERM_FRAME_IDX))
        } else {
            None
        },
        reference: true,
        mbaff,
        field_picture: None,
        slice_qp: PPS_INIT_QP,
        pps_init_qp: PPS_INIT_QP,
        disable_deblocking_filter_idc: 1,
        num_ref_idx_l0_active: Some(1),
        num_ref_idx_l1_active: None,
        explicit_ref_lists: None,
        l1_first_short_term_delta: None,
        flat_pred_ref_idx: [None, None],
    };
    assert(cfg == clone_header(mbaff, mark_random_access_point));
    write_slice_header(&mut w, &cfg);
    assert(w@ =~= slice::header_bits(cfg));
    w.ue((g.mb_width * g.mb_height) as u32);  // mb_skip_run: copy the IDR
    w.rbsp_trailing_bits();
    to_nal_unit(w.bytes(), 2, nal_type::SLICE_NON_IDR)
}

/// The access unit delimiter: any kind of slice may follow.
pub open spec fn delimiter_unit() -> Seq<u8> {
    nal::nal_unit(params::closed_rbsp(bitwriter::digits(7, 3)), 0, nal_type::AUD as int)
}

/// Access-unit delimiter, which is what tells the MP4 wrapper where one video
/// sample ends. One before each picture keeps the two NAL units of a PAFF
/// complementary field pair in a single sample; `split_field_samples` adds one
/// between them to make each field a sample of its own.
pub fn write_access_unit_delimiter() -> (unit: Vec<u8>)
    ensures
        unit@ == delimiter_unit(),
{
    let mut w = BitWriter::new();
    w.u(3, 7);  // primary_pic_type: I, P, or B
    assert(w@ =~= bitwriter::digits(7, 3));
    w.rbsp_trailing_bits();
    to_nal_unit(w.bytes(), 0, nal_type::AUD)
}

/// The recovery point message.
pub open spec fn recovery_unit() -> Seq<u8> {
    nal::nal_unit(seq![6u8, 1, 0xe4, 0x80], 0, nal_type::SEI as int)
}

/// Recovery point SEI (D.2.7): recovery_frame_cnt 0, exact match, a broken
/// link for open-GOP leading pictures, and no changing slice groups. Continuous
/// decoding still has their old references and displays them; a decoder that
/// starts here knows not to display them when those references are absent. The
/// payload is byte-aligned before the SEI RBSP's own trailing bit.
pub fn write_recovery_point_sei() -> (unit: Vec<u8>)
    ensures
        unit@ == recovery_unit(),
{
    let payload: [u8; 4] = [6, 1, 0xe4, 0x80];
    assert(payload@ =~= seq![6u8, 1, 0xe4, 0x80]);
    to_nal_unit(&payload, 0, nal_type::SEI)
}

/// How far back each of the short-term frames lies, newest first.
pub open spec fn frames_back(short_term: Seq<u32>, frame_num: u32) -> Seq<u32> {
    Seq::new(
        short_term.len(),
        |i: int|
            ((frame_num + MAX_FRAME_NUM - short_term[short_term.len() - 1 - i])
                % MAX_FRAME_NUM as int) as u32,
    )
}

/// The entries that frames take in a list: a field takes its own parity and then its
/// mate.
pub open spec fn frame_entries(backs: Seq<u32>, field: bool) -> Seq<RefPicListEntry>
    decreases backs.len(),
{
    if backs.len() == 0 {
        seq![]
    } else {
        let before = frame_entries(backs.drop_last(), field);
        let same = RefPicListEntry { frames_back: backs.last(), same_parity: true };
        let mate = RefPicListEntry { frames_back: backs.last(), same_parity: false };
        if field {
            before.push(same).push(mate)
        } else {
            before.push(same)
        }
    }
}

/// The short-term entries of both lists. A picture with one that follows it reaches
/// that one last in list 0 and first in list 1. A field without one has the first two
/// entries of list 1 exchanged.
pub open spec fn short_term_lists(
    short_term: Seq<u32>,
    frame_num: u32,
    backward: bool,
    field: bool,
) -> (Seq<RefPicListEntry>, Seq<RefPicListEntry>) {
    let backs = frames_back(short_term, frame_num);
    let plain = frame_entries(backs, field);
    if backs.len() == 0 {
        (seq![], seq![])
    } else if backward {
        (frame_entries(backs.skip(1).push(backs[0]), field), plain)
    } else if field {
        (plain, plain.update(0, plain[1]).update(1, plain[0]))
    } else {
        (plain, plain)
    }
}

/// How many entries frames take in a list.
proof fn lemma_entries_len(backs: Seq<u32>, field: bool)
    ensures
        frame_entries(backs, field).len() == if field {
            2 * backs.len()
        } else {
            backs.len()
        },
        forall|i: int|
            0 <= i < frame_entries(backs, field).len() ==> (#[trigger] frame_entries(
                backs,
                field,
            )[i]).frames_back == backs[if field {
                i / 2
            } else {
                i
            }],
        field && backs.len() > 0 ==> frame_entries(backs, field)[0] == (RefPicListEntry {
            frames_back: backs[0],
            same_parity: true,
        }) && frame_entries(backs, field)[1] == (RefPicListEntry {
            frames_back: backs[0],
            same_parity: false,
        }),
    decreases backs.len(),
{
    if backs.len() > 0 {
        lemma_entries_len(backs.drop_last(), field);
    }
}

/// Where the entries of a frame stand among the entries of frames.
proof fn lemma_entries_at(backs: Seq<u32>, field: bool, k: int)
    requires
        0 <= k < backs.len(),
    ensures
        field ==> frame_entries(backs, field)[2 * k] == entry_of(backs[k], true) && frame_entries(
            backs,
            field,
        )[2 * k + 1] == entry_of(backs[k], false),
        !field ==> frame_entries(backs, field)[k] == entry_of(backs[k], true),
    decreases backs.len(),
{
    lemma_entries_len(backs.drop_last(), field);
    if k < backs.len() - 1 {
        lemma_entries_at(backs.drop_last(), field, k);
    }
}

/// The entry of a frame, or of one of its fields.
pub open spec fn entry_of(frames_back: u32, same_parity: bool) -> RefPicListEntry {
    RefPicListEntry { frames_back, same_parity }
}

/// A list names a frame, or both of its fields.
pub open spec fn names(list: Seq<RefPicListEntry>, frames_back: u32, field: bool) -> bool {
    &&& list.contains(entry_of(frames_back, true))
    &&& field ==> list.contains(entry_of(frames_back, false))
}

/// The entries of frames name each of them.
proof fn lemma_entries_name(backs: Seq<u32>, field: bool, k: int)
    requires
        0 <= k < backs.len(),
    ensures
        names(frame_entries(backs, field), backs[k], field),
{
    lemma_entries_len(backs, field);
    lemma_entries_at(backs, field, k);
    let list = frame_entries(backs, field);
    if field {
        assert(list[2 * k] == entry_of(backs[k], true));
        assert(list[2 * k + 1] == entry_of(backs[k], false));
    } else {
        assert(list[k] == entry_of(backs[k], true));
    }
}

/// Exchanging the first two entries of a list keeps what it names.
proof fn lemma_exchanged_names(list: Seq<RefPicListEntry>, frames_back: u32, field: bool)
    requires
        list.len() >= 2,
        names(list, frames_back, field),
    ensures
        names(list.update(0, list[1]).update(1, list[0]), frames_back, field),
{
    let other = list.update(0, list[1]).update(1, list[0]);
    assert forall|entry: RefPicListEntry| list.contains(entry) implies #[trigger] other.contains(
        entry,
    ) by {
        let i = choose|i: int| 0 <= i < list.len() && list[i] == entry;
        let j = if i == 0 {
            1
        } else if i == 1 {
            0
        } else {
            i
        };
        assert(other[j] == entry);
    }
    assert(other.contains(entry_of(frames_back, true)));
    if field {
        assert(other.contains(entry_of(frames_back, false)));
    }
}

/// No entry lies further back than frames are numbered.
pub proof fn lemma_lists_near(short_term: Seq<u32>, frame_num: u32, backward: bool, field: bool)
    ensures
        ({
            let (l0, l1) = short_term_lists(short_term, frame_num, backward, field);
            &&& forall|i: int|
                0 <= i < l0.len() ==> (#[trigger] l0[i]).frames_back < MAX_FRAME_NUM
            &&& forall|i: int|
                0 <= i < l1.len() ==> (#[trigger] l1[i]).frames_back < MAX_FRAME_NUM
        }),
{
    let backs = frames_back(short_term, frame_num);
    assert(forall|k: int| 0 <= k < backs.len() ==> #[trigger] backs[k] < MAX_FRAME_NUM);
    lemma_entries_len(backs, field);
    if backs.len() > 0 {
        let moved = backs.skip(1).push(backs[0]);
        assert forall|k: int| 0 <= k < moved.len() implies #[trigger] moved[k]
            < MAX_FRAME_NUM by {
            if k < moved.len() - 1 {
                assert(moved[k] == backs[k + 1]);
            }
        }
        lemma_entries_len(moved, field);
    }
}

/// Both lists name every short-term frame that the decoder holds, as a frame or in both
/// its fields, and nothing else: what is not named begins right behind as many entries in
/// either list.
pub proof fn law_lists_name_every_frame(
    short_term: Seq<u32>,
    frame_num: u32,
    backward: bool,
    field: bool,
)
    ensures
        ({
            let (l0, l1) = short_term_lists(short_term, frame_num, backward, field);
            let backs = frames_back(short_term, frame_num);
            let entries = if field {
                2 * short_term.len()
            } else {
                short_term.len()
            };
            &&& l0.len() == entries
            &&& l1.len() == entries
            &&& forall|k: int|
                0 <= k < short_term.len() ==> names(l0, #[trigger] backs[k], field) && names(
                    l1,
                    backs[k],
                    field,
                )
        }),
{
    let backs = frames_back(short_term, frame_num);
    let (l0, l1) = short_term_lists(short_term, frame_num, backward, field);
    lemma_entries_len(backs, field);
    if backs.len() > 0 {
        let turned = backs.skip(1).push(backs[0]);
        lemma_entries_len(turned, field);
        assert forall|k: int| 0 <= k < short_term.len() implies names(
            l0,
            #[trigger] backs[k],
            field,
        ) && names(l1, backs[k], field) by {
            lemma_entries_name(backs, field, k);
            let at = if k == 0 {
                turned.len() - 1
            } else {
                k - 1
            };
            assert(turned[at] == backs[k]);
            lemma_entries_name(turned, field, at);
            if field && !backward {
                lemma_exchanged_names(frame_entries(backs, field), backs[k], field);
            }
        }
    }
}

/// Append a frame to a list: one entry, or both of its fields.
fn push_frame(list: &mut RefPicList, back: u32, field: bool, Ghost(backs): Ghost<Seq<u32>>)
    requires
        old(list).wf(),
        old(list)@ == frame_entries(backs, field),
        old(list)@.len() + 2 <= 6,
    ensures
        final(list).wf(),
        final(list)@ == frame_entries(backs.push(back), field),
{
    list.push(RefPicListEntry { frames_back: back, same_parity: true });
    if field {
        list.push(RefPicListEntry { frames_back: back, same_parity: false });
    }
    assert(backs.push(back).drop_last() =~= backs);
}

/// The entries of frames.
fn make_list(backs: &Vec<u32>, field: bool) -> (list: RefPicList)
    requires
        backs@.len() <= 3,
    ensures
        list.wf(),
        list@ == frame_entries(backs@, field),
{
    let mut list = RefPicList::new();
    let mut i: usize = 0;
    assert(backs@.take(0) =~= Seq::<u32>::empty());
    while i < backs.len()
        invariant
            i <= backs@.len() <= 3,
            list.wf(),
            list@ == frame_entries(backs@.take(i as int), field),
        decreases backs@.len() - i,
    {
        proof {
            lemma_entries_len(backs@.take(i as int), field);
            assert(backs@.take(i + 1) =~= backs@.take(i as int).push(backs@[i as int]));
        }
        push_frame(&mut list, backs[i], field, Ghost(backs@.take(i as int)));
        i = i + 1;
    }
    assert(backs@.take(backs@.len() as int) =~= backs@);
    list
}

/// Name the short-term entries of a slice's two reference lists.
///
/// The order is the one clause 8.2.4.2.3 builds for a frame and 8.2.4.2.5 for a
/// field: the reference frames in list order, a field picture taking from each
/// the field with the parity of the one being coded and then its mate. Writing
/// it out instead of leaving it to the decoder is what keeps the index
/// arithmetic of the predictions true on decoders that build the list
/// differently -- VideoToolbox does, and puts the long-term picture an index
/// below where the slice header's weights are.
///
/// The long-term entries behind them are deliberately left unnamed. Reordering
/// keeps the entries a slice does not name, in the order the initialisation put
/// them, so the long-term picture still lands right behind the run named here
/// -- and naming it is not an option, because VideoToolbox rejects
/// `long_term_pic_num` in a field slice outright and fails the picture with
/// `kVTVideoDecoderBadDataErr`.
pub fn short_term_ref_lists(
    short_term: &ShortTermFrames,
    frame_num: u32,
    backward: bool,
    field: bool,
) -> (lists: [RefPicList; 2])
    requires
        short_term.wf(),
        frame_num < 256,
        forall|i: int| 0 <= i < short_term@.len() ==> #[trigger] short_term@[i] < 256,
    ensures
        lists[0].wf(),
        lists[1].wf(),
        (lists[0]@, lists[1]@) == short_term_lists(short_term@, frame_num, backward, field),
        slice::small_distances(lists[0]@),
        slice::small_distances(lists[1]@),
{
    let mut newest_first: Vec<u32> = Vec::new();
    let mut i: usize = 0;
    while i < short_term.count
        invariant
            i <= short_term.count <= 3,
            frame_num < 256,
            forall|j: int| 0 <= j < short_term@.len() ==> #[trigger] short_term@[j] < 256,
            newest_first@.len() == i,
            forall|j: int|
                0 <= j < i ==> #[trigger] newest_first@[j] == frames_back(
                    short_term@,
                    frame_num,
                )[j],
        decreases short_term.count - i,
    {
        let reference: u32 = short_term.frames[short_term.count - 1 - i];
        assert(short_term@[short_term.count - 1 - i] == reference);
        newest_first.push((frame_num + MAX_FRAME_NUM - reference) % MAX_FRAME_NUM);
        i = i + 1;
    }
    let ghost backs = frames_back(short_term@, frame_num);
    assert(newest_first@ =~= backs);
    proof {
        lemma_entries_len(backs, field);
    }
    let mut second = make_list(&newest_first, field);
    let mut first = second;
    if newest_first.len() > 0 {
        if backward {
            // A B picture sits between its references. The one it was decoded
            // behind is the following picture, which list 0 reaches last and list 1
            // first; the rest precede it, nearest first in both.
            let mut rotated: Vec<u32> = Vec::new();
            let mut k: usize = 1;
            while k < newest_first.len()
                invariant
                    1 <= k <= newest_first@.len() <= 3,
                    rotated@ == newest_first@.subrange(1, k as int),
                decreases newest_first@.len() - k,
            {
                rotated.push(newest_first[k]);
                k = k + 1;
                assert(rotated@ =~= newest_first@.subrange(1, k as int));
            }
            rotated.push(newest_first[0]);
            assert(rotated@ =~= backs.skip(1).push(backs[0]));
            proof {
                lemma_entries_len(backs.skip(1).push(backs[0]), field);
            }
            first = make_list(&rotated, field);
        } else if field {
            // Without a following picture the two lists come out identical, and the
            // initialisation ends by exchanging the first two entries of list 1.
            // For a field those two are the parities of one frame, and the
            // macroblock writer reaches both through list 1, so reproduce the
            // exchange; for a frame they are two different pictures and the writer
            // wants the nearest reference first in both lists, so do not.
            let ghost plain = second@;
            let same: RefPicListEntry = second.entries[0];
            second.entries[0] = second.entries[1];
            second.entries[1] = same;
            assert(second@ =~= plain.update(0, plain[1]).update(1, plain[0]));
        }
    } else {
        assert(second@ =~= Seq::<RefPicListEntry>::empty());
    }
    let lists: [RefPicList; 2] = [first, second];
    lists
}

} // verus!
