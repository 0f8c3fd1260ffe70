//! The timeline of a unit: which of its pictures are carried, and when each is
//! shown.
use crate::container::fmp4::samples;
use crate::error::Error;
use crate::mpeg2::constants::{start_code, PictureStructure, PictureType, FRAME_RATE};
use crate::mpeg2::headers;
use crate::mpeg2::headers::{
    parse_elementary_stream, picture_sequence_description, Interlacing, Picture, PictureView,
    SampleAspectRatio,
};
use vstd::prelude::*;

verus! {

/// Ticks of the movie clock in a second.
pub const TIMESCALE: u32 = 90_000;

#[derive(Clone, Debug)]
pub struct Mpeg2VideoTimeline {
    pub width: u32,
    pub height: u32,
    pub sample_duration: u32,
    /// Presentation time of each coded picture, relative to the first display
    /// slot in the unit. Parallel with `presentation_indices`.
    pub presentation_times: Vec<u64>,
    /// Display duration of each coded picture. MPEG-2 `repeat_first_field`
    /// makes this longer than `sample_duration` for telecined material.
    /// Parallel with `presentation_indices`.
    pub sample_durations: Vec<u32>,
    /// Field metadata of each coded picture, parallel with
    /// `presentation_indices` and still in decode order.
    pub sample_scans: Vec<Interlacing>,
    /// Presentation index for each coded picture, excluding the IDR clone.
    pub presentation_indices: Vec<u32>,
    /// Whether each coded picture is a complementary field pair rather than a
    /// frame. Parallel with `presentation_indices`.
    pub field_pairs: Vec<bool>,
    /// Whether each field of a pair has its own access unit, which makes such a
    /// picture occupy two MP4 samples instead of one. Set by the caller from the
    /// options of the conversion; parsing the source cannot tell.
    /// [`crate::container::fmp4::mpeg2_video_timeline`] fills it in to match that
    /// option's default, so a caller that converts with the defaults and never
    /// touches this still counts the same samples the bitstream holds.
    pub split_field_samples: bool,
    pub sample_aspect_ratio: Option<SampleAspectRatio>,
    /// Extra ticks the unit's opening sample is held for, covering a hole
    /// between the unit before it and this one.
    ///
    /// A unit's pictures are timed against each other, and the units are
    /// appended end to end, so a stretch the source lost would simply close up
    /// -- the picture and the sound would keep playing, a little earlier than
    /// they belong, and the captions alongside them, which carry their own
    /// timestamps, would no longer line up. Holding the opening sample over the
    /// hole instead leaves everything where the source put it. Set by the
    /// caller, which is the only one that knows where the unit before this
    /// ended; zero for a unit that follows without a break.
    ///
    /// It goes to the sample that covers the unit's leading display slots -- an
    /// IDR clone or the first picture -- so a caller that sets it asks for a
    /// random access point as well.
    pub hold_ticks: u32,
}

/// A timeline as a mathematical value.
#[verifier::ext_equal]
pub struct TimelineView {
    pub width: u32,
    pub height: u32,
    pub sample_duration: u32,
    pub presentation_times: Seq<u64>,
    pub sample_durations: Seq<u32>,
    pub sample_scans: Seq<Interlacing>,
    pub presentation_indices: Seq<u32>,
    pub field_pairs: Seq<bool>,
    pub split_field_samples: bool,
    pub sample_aspect_ratio: Option<SampleAspectRatio>,
    pub hold_ticks: u32,
}

impl View for Mpeg2VideoTimeline {
    type V = TimelineView;

    open spec fn view(&self) -> TimelineView {
        TimelineView {
            width: self.width,
            height: self.height,
            sample_duration: self.sample_duration,
            presentation_times: self.presentation_times@,
            sample_durations: self.sample_durations@,
            sample_scans: self.sample_scans@,
            presentation_indices: self.presentation_indices@,
            field_pairs: self.field_pairs@,
            split_field_samples: self.split_field_samples,
            sample_aspect_ratio: self.sample_aspect_ratio,
            hold_ticks: self.hold_ticks,
        }
    }
}

impl TimelineView {
    /// Whether the picture at this decode position is a complementary field pair.
    pub open spec fn pair_at(self, i: int) -> bool {
        0 <= i < self.field_pairs.len() && self.field_pairs[i]
    }

    /// How long the picture at this decode position is shown.
    pub open spec fn duration_of(self, i: int) -> u32 {
        if 0 <= i < self.sample_durations.len() {
            self.sample_durations[i]
        } else {
            self.sample_duration
        }
    }

    /// When the picture at this decode position is shown. Without a time of its own
    /// it is shown in the slot that its index names.
    pub open spec fn time_of(self, i: int) -> int {
        if 0 <= i < self.presentation_times.len() {
            self.presentation_times[i] as int
        } else {
            let index = if 0 <= i < self.presentation_indices.len() {
                self.presentation_indices[i] as int
            } else {
                1
            };
            (if index > 0 {
                index - 1
            } else {
                0
            }) * self.sample_duration
        }
    }

    /// The earliest presentation time of the first `n` pictures, or zero of none.
    pub open spec fn earliest(self, n: nat) -> int
        decreases n,
    {
        if n == 0 {
            0
        } else if n == 1 {
            self.time_of(0)
        } else {
            let before = self.earliest((n - 1) as nat);
            if self.time_of(n - 1) < before {
                self.time_of(n - 1)
            } else {
                before
            }
        }
    }

    /// The earliest presentation time of any picture.
    pub open spec fn first_time(self) -> int {
        self.earliest(self.presentation_indices.len())
    }

    /// The earliest of the first `n` presentation times is one of them, and no
    /// other comes before it.
    pub proof fn lemma_earliest(self, n: nat)
        ensures
            n > 0 ==> exists|i: int| 0 <= i < n && self.earliest(n) == #[trigger] self.time_of(i),
            forall|i: int| 0 <= i < n ==> self.earliest(n) <= #[trigger] self.time_of(i),
            0 <= self.earliest(n) <= u64::MAX,
        decreases n,
    {
        if n == 1 {
            assert(self.earliest(1) == self.time_of(0));
        } else if n > 1 {
            self.lemma_earliest((n - 1) as nat);
        }
        assert forall|i: int| 0 <= #[trigger] self.time_of(i) <= u64::MAX by {
            self.lemma_time(i);
        }
    }

    /// Presentation times fit in 64 bits.
    pub proof fn lemma_time(self, i: int)
        ensures
            0 <= self.time_of(i) <= u64::MAX,
    {
        if !(0 <= i < self.presentation_times.len()) {
            let index = if 0 <= i < self.presentation_indices.len() {
                self.presentation_indices[i] as int
            } else {
                1
            };
            let slots = if index > 0 {
                index - 1
            } else {
                0
            };
            let d = self.sample_duration as int;
            assert(0 <= slots * d <= 0xffff_ffff * 0xffff_ffff) by (nonlinear_arith)
                requires
                    0 <= slots <= 0xffff_ffff,
                    0 <= d <= 0xffff_ffff,
            ;
        }
    }
}

impl Mpeg2VideoTimeline {
    /// Whether the picture at this decode position is a complementary field
    /// pair. A caller that filled in the indices but not `field_pairs` gets
    /// what it would have got before the field ever existed: frames.
    pub fn is_field_pair(&self, decode_index: usize) -> (pair: bool)
        ensures
            pair == self@.pair_at(decode_index as int),
    {
        decode_index < self.field_pairs.len() && self.field_pairs[decode_index]
    }

    pub fn duration_at(&self, decode_index: usize) -> (duration: u32)
        ensures
            duration == self@.duration_of(decode_index as int),
    {
        if decode_index < self.sample_durations.len() {
            self.sample_durations[decode_index]
        } else {
            self.sample_duration
        }
    }

    pub fn presentation_time_at(&self, decode_index: usize) -> (time: u64)
        ensures
            time == self@.time_of(decode_index as int),
    {
        if decode_index < self.presentation_times.len() {
            return self.presentation_times[decode_index];
        }
        let index: u32 = if decode_index < self.presentation_indices.len() {
            self.presentation_indices[decode_index]
        } else {
            1
        };
        let slots: u64 = if index > 0 {
            index as u64 - 1
        } else {
            0
        };
        proof {
            self@.lemma_time(decode_index as int);
        }
        slots * self.sample_duration as u64
    }

    pub fn first_presentation_time(&self) -> (time: u64)
        ensures
            time == self@.first_time(),
    {
        let count: usize = self.presentation_indices.len();
        if count == 0 {
            return 0;
        }
        let mut earliest: u64 = self.presentation_time_at(0);
        let mut i: usize = 1;
        while i < count
            invariant
                1 <= i <= count,
                count == self.presentation_indices@.len(),
                earliest == self@.earliest(i as nat),
            decreases count - i,
        {
            let time: u64 = self.presentation_time_at(i);
            if time < earliest {
                earliest = time;
            }
            i = i + 1;
        }
        earliest
    }

    /// Presentation time of the first picture in coding order. A GOP's PES
    /// timestamp belongs here, even when leading B pictures display earlier.
    pub fn first_coded_presentation_time(&self) -> (time: u64)
        ensures
            time == self@.time_of(0),
    {
        self.presentation_time_at(0)
    }
}

/// Whether `mate` is the other field of the frame that `picture` is a field of.
pub open spec fn complements(mate: PictureView, picture: PictureView) -> bool {
    &&& mate.coding.picture_structure != PictureStructure::Frame
    &&& mate.coding.picture_structure != picture.coding.picture_structure
    &&& mate.header.temporal_reference == picture.header.temporal_reference
    // The two fields of a frame need not be coded the same way: an I field may
    // have a P field beside it.
    &&& match picture.header.picture_coding_type {
        PictureType::I => mate.header.picture_coding_type is I
            || mate.header.picture_coding_type is P,
        PictureType::P => mate.header.picture_coding_type is P,
        PictureType::B => mate.header.picture_coding_type is B,
        PictureType::Other => false,
    }
}

/// The field that pairs with `picture` to make a frame, if `candidate` is it.
///
/// A unit that begins between the two fields of a pair has only the second, and
/// one that ends between them has only the first; a broadcast that loses a
/// field leaves the same thing in the middle. None of the three can be made
/// into a frame, so the odd field is dropped -- by the conversion and by the
/// timeline alike, which is why this decision lives in one place.
pub fn complementary_field<'a>(candidate: Option<&'a Picture>, picture: &Picture) -> (field: Option<
    &'a Picture,
>)
    ensures
        field == (if candidate is Some && complements(candidate->Some_0@, picture@) {
            candidate
        } else {
            None
        }),
{
    let mate = match candidate {
        Some(mate) => mate,
        None => return None,
    };
    let coded_alike: bool = match (
        picture.header.picture_coding_type,
        mate.header.picture_coding_type,
    ) {
        (PictureType::I, PictureType::I) => true,
        (PictureType::I, PictureType::P) => true,
        (PictureType::P, PictureType::P) => true,
        (PictureType::B, PictureType::B) => true,
        _ => false,
    };
    if mate.coding.picture_structure != PictureStructure::Frame && mate.coding.picture_structure
        != picture.coding.picture_structure && mate.header.temporal_reference
        == picture.header.temporal_reference && coded_alike {
        Some(mate)
    } else {
        None
    }
}

/// One source picture the timeline kept, and the bytes it was coded in.
///
/// The range runs from the end of the picture before it, so the sequence and
/// group headers between two pictures belong to the one that follows them --
/// which is what makes a sample that opens a fragment decodable on its own.
#[derive(Clone, Copy, PartialEq, Eq, Debug, Structural)]
pub struct Mpeg2Sample {
    pub start: usize,
    /// Where the first field of a complementary pair ends, when this picture is
    /// one. A caller splitting field samples cuts here; one that is not ignores
    /// it and carries the pair whole, as the two coded pictures it already is.
    pub field_end: Option<usize>,
    pub end: usize,
    /// Whether a decoder can begin at this sample, i.e. an intra picture.
    pub sync: bool,
}

impl Mpeg2Sample {
    /// The sample is a range of `len` bytes, and where fields are split, cut inside it.
    pub open spec fn fits(self, len: int, split: bool) -> bool {
        &&& self.start <= self.end <= len
        &&& split && self.field_end is Some ==> self.start <= self.field_end->Some_0 <= self.end
    }
}

/// One unit of MPEG-2 video, cut into the samples an MP4 carries it as.
#[derive(Clone, Debug)]
pub struct Mpeg2Unit {
    pub timeline: Mpeg2VideoTimeline,
    /// In decode order, one per entry of `timeline.presentation_indices`.
    pub samples: Vec<Mpeg2Sample>,
    /// How many bytes of sequence header the unit opens with, which is what a
    /// passthrough MP4 declares as the decoder configuration. Zero for a unit
    /// that does not begin with one.
    pub sequence_header_len: usize,
}

/// A unit as a mathematical value.
#[verifier::ext_equal]
pub struct UnitView {
    pub timeline: TimelineView,
    pub samples: Seq<Mpeg2Sample>,
    pub sequence_header_len: int,
}

impl View for Mpeg2Unit {
    type V = UnitView;

    open spec fn view(&self) -> UnitView {
        UnitView {
            timeline: self.timeline@,
            samples: self.samples@,
            sequence_header_len: self.sequence_header_len as int,
        }
    }
}

impl UnitView {
    /// The unit's samples and its header are ranges of `len` bytes.
    pub open spec fn fits(self, len: int) -> bool {
        &&& self.sequence_header_len <= len
        &&& forall|i: int|
            0 <= i < self.samples.len() ==> (#[trigger] self.samples[i]).fits(
                len,
                self.timeline.split_field_samples,
            )
    }
}

/// Where the coded data of a picture ends that starts at `start`.
pub open spec fn end_of(picture: PictureView, start: int) -> int {
    match headers::last_slice_end(picture) {
        Some(bit) => bit as int / 8,
        None => start,
    }
}

/// Where a picture's coded data ends, which is the start code that terminated
/// its last slice. A picture with no slices at all ends where it began.
pub fn picture_end(picture: &Picture, start: usize) -> (end: usize)
    ensures
        end == end_of(picture@, start as int),
{
    let count: usize = picture.slices.len();
    if count == 0 {
        return start;
    }
    match picture.slices[count - 1].data_end_bit {
        Some(bit) => bit / 8,
        None => start,
    }
}

/// Where each picture's bytes begin, which is where the one before it ended.
pub open spec fn start_of(pictures: Seq<PictureView>, i: int) -> int
    decreases i,
{
    if i <= 0 {
        0
    } else {
        end_of(pictures[i - 1], start_of(pictures, i - 1))
    }
}

/// The bytes of the pictures of a finished parse follow each other.
pub proof fn lemma_starts_increase(pictures: Seq<PictureView>, len: int, i: int)
    requires
        headers::laid_out(pictures, len),
        0 <= len,
        0 <= i <= pictures.len(),
    ensures
        0 <= start_of(pictures, i) <= len,
        forall|j: int|
            i <= j < pictures.len() ==> start_of(pictures, i) <= end_of(
                #[trigger] pictures[j],
                start_of(pictures, i),
            ) <= len,
    decreases i,
{
    if i > 0 {
        lemma_starts_increase(pictures, len, i - 1);
        let before = start_of(pictures, i - 1);
        assert(before <= end_of(pictures[i - 1], before) <= len);
        assert forall|j: int| i <= j < pictures.len() implies start_of(pictures, i) <= end_of(
            #[trigger] pictures[j],
            start_of(pictures, i),
        ) <= len by {
            assert(before <= end_of(pictures[j], before) <= len);
            if headers::last_slice_end(pictures[i - 1]) is Some && headers::last_slice_end(
                pictures[j],
            ) is Some {
                assert(headers::last_slice_end(pictures[i - 1])->Some_0
                    <= headers::last_slice_end(pictures[j])->Some_0);
            }
        }
    }
}

/// Where the bytes of the frame at picture `i` end when they begin at `start`, which is
/// where those of the next frame begin.
pub open spec fn frame_end(pictures: Seq<PictureView>, i: int, start: int) -> int {
    end_of(pictures[next_frame(pictures, i) - 1], start)
}

/// Bytes that begin at `start` reach no further than where any picture from `i` on ends.
pub open spec fn follows(pictures: Seq<PictureView>, len: int, start: int, i: int) -> bool {
    &&& 0 <= start <= len
    &&& forall|j: int|
        i <= j < pictures.len() ==> start <= end_of(#[trigger] pictures[j], start) <= len
}

/// The bytes of the frames of a finished parse follow each other.
pub proof fn lemma_frames_follow(pictures: Seq<PictureView>, len: int, start: int, i: int)
    requires
        headers::laid_out(pictures, len),
        0 <= i < pictures.len(),
        follows(pictures, len, start, i),
    ensures
        start <= frame_end(pictures, i, start),
        follows(pictures, len, frame_end(pictures, i, start), next_frame(pictures, i)),
        pictures[i].slices.len() > 0 && pictures[next_frame(pictures, i) - 1].slices.len() > 0
            ==> end_of(pictures[i], start) <= frame_end(pictures, i, start),
{
    let last = next_frame(pictures, i) - 1;
    assert(start <= end_of(pictures[last], start) <= len);
    let end = frame_end(pictures, i, start);
    assert forall|j: int| last < j < pictures.len() implies end <= end_of(
        #[trigger] pictures[j],
        end,
    ) <= len by {
        assert(start <= end_of(pictures[j], start) <= len);
        if headers::last_slice_end(pictures[last]) is Some && headers::last_slice_end(
            pictures[j],
        ) is Some {
            assert(headers::last_slice_end(pictures[last])->Some_0 <= headers::last_slice_end(
                pictures[j],
            )->Some_0);
        }
    }
    if i < last && pictures[i].slices.len() > 0 && pictures[last].slices.len() > 0 {
        assert(headers::last_slice_end(pictures[i])->Some_0 <= headers::last_slice_end(
            pictures[last],
        )->Some_0);
    }
}

/// How much of a unit is the sequence header block that opens it, from byte `at`
/// on: everything ahead of its first group, picture or slice header.
pub open spec fn header_block_end(data: Seq<u8>, at: int) -> int
    decreases data.len() - at,
{
    if at < 0 || at + 4 > data.len() {
        0
    } else if data[at] == 0 && data[at + 1] == 0 && data[at + 2] == 1 {
        let code = data[at + 3];
        if code == start_code::PICTURE || code == start_code::GROUP || start_code::SLICE_MIN <= code
            <= start_code::SLICE_MAX {
            at
        } else {
            header_block_end(data, at + 4)
        }
    } else {
        header_block_end(data, at + 1)
    }
}

/// The length of the sequence header block that opens a unit.
pub open spec fn header_block(data: Seq<u8>) -> int {
    if data.len() >= 4 && data[0] == 0 && data[1] == 0 && data[2] == 1 && data[3]
        == start_code::SEQUENCE_HEADER {
        header_block_end(data, 4)
    } else {
        0
    }
}

/// How much of a unit is the sequence header block that opens it: everything
/// ahead of its first group or picture header.
///
/// This is the decoder configuration a passthrough MP4 declares, and the only
/// part of the unit that a sample which does not begin at byte zero still
/// needs. The scan stops at the first header of a picture, so it walks the few
/// hundred bytes the block occupies rather than the unit.
pub fn sequence_header_len(data: &[u8]) -> (len: usize)
    ensures
        len == header_block(data@),
        len <= data@.len(),
{
    if data.len() < 4 || data[0] != 0 || data[1] != 0 || data[2] != 1 || data[3]
        != start_code::SEQUENCE_HEADER {
        return 0;
    }
    let mut at: usize = 4;
    while data.len() - at >= 4
        invariant
            4 <= at <= data@.len(),
            header_block_end(data@, at as int) == header_block(data@),
        decreases data@.len() - at,
    {
        if data[at] != 0 || data[at + 1] != 0 || data[at + 2] != 1 {
            at = at + 1;
            continue;
        }
        let code: u8 = data[at + 3];
        if code == start_code::PICTURE || code == start_code::GROUP || (code
            >= start_code::SLICE_MIN && code <= start_code::SLICE_MAX) {
            return at;
        }
        at = at + 4;
    }
    0
}

/// The frame rate of a sequence as a fraction, or nothing where its code names
/// none.
pub open spec fn frame_rate(picture: PictureView) -> Option<(nat, nat)> {
    let code = picture.sequence.frame_rate_code as int;
    if code >= 9 || FRAME_RATE@[code].0 == 0 {
        None
    } else {
        Some(
            (
                (FRAME_RATE@[code].0 * (picture.sequence_ext.frame_rate_extension_n + 1)) as nat,
                (FRAME_RATE@[code].1 * (picture.sequence_ext.frame_rate_extension_d + 1)) as nat,
            ),
        )
    }
}

/// The tick that the `fields`-th field of a clip begins on, at a frame rate: half a
/// frame per field, rounded to the nearest tick.
pub open spec fn field_tick(fields: int, rate: (nat, nat)) -> int {
    (fields * TIMESCALE * rate.1 + rate.0) / (2 * rate.0 as int)
}

/// A picture that a unit keeps.
#[verifier::ext_equal]
pub struct KeptPicture {
    /// Its one-based place in display order.
    pub index: u32,
    pub scan: Interlacing,
    pub pair: bool,
    pub sample: Mpeg2Sample,
}

/// What a walk over a unit's pictures has gathered.
#[verifier::ext_equal]
pub struct WalkState {
    /// How many reference pictures a B picture would find, up to two.
    pub references: int,
    pub awaiting_intra: bool,
    /// The display slots of the groups before the present one.
    pub gop_base: int,
    pub seen_picture: bool,
    pub max_tr_in_gop: int,
    /// How many fields each display slot takes, from the one-based first slot on.
    pub display_fields: Seq<u8>,
    /// Where the next sample's bytes begin.
    pub start: int,
    pub kept: Seq<KeptPicture>,
}

/// Whether picture `i` and the one behind it are the two fields of a frame.
pub open spec fn paired(pictures: Seq<PictureView>, i: int) -> bool {
    &&& pictures[i].coding.picture_structure != PictureStructure::Frame
    &&& i + 1 < pictures.len()
    &&& complements(pictures[i + 1], pictures[i])
}

/// The first picture behind the frame that picture `i` begins.
pub open spec fn next_frame(pictures: Seq<PictureView>, i: int) -> int {
    if paired(pictures, i) {
        i + 2
    } else {
        i + 1
    }
}

/// Whether picture `i` has slices that nobody found damaged.
pub open spec fn decodable(pictures: Seq<PictureView>, undecodable: Seq<bool>, i: int) -> bool {
    pictures[i].slices.len() > 0 && !(i < undecodable.len() && undecodable[i])
}

/// How a picture was captured.
pub open spec fn scan_kind(picture: PictureView) -> Interlacing {
    match picture.coding.picture_structure {
        PictureStructure::TopField => Interlacing { interlaced: true, top_field_first: true },
        PictureStructure::BottomField => Interlacing { interlaced: true, top_field_first: false },
        PictureStructure::Frame => Interlacing {
            interlaced: !picture.coding.progressive_frame,
            top_field_first: picture.coding.top_field_first,
        },
        PictureStructure::Reserved => Interlacing { interlaced: false, top_field_first: true },
    }
}

/// How many fields a picture is shown for.
pub open spec fn shown_fields(picture: PictureView) -> u8 {
    if picture.coding.picture_structure == PictureStructure::Frame
        && picture.coding.repeat_first_field {
        3
    } else {
        2
    }
}

/// `fields` with slot `index` set, and slots of two fields up to it where there
/// were none.
pub open spec fn with_slot(fields: Seq<u8>, index: int, count: u8) -> Seq<u8> {
    let longer = if fields.len() <= index {
        fields + Seq::new((index + 1 - fields.len()) as nat, |i: int| 2u8)
    } else {
        fields
    };
    longer.update(index, count)
}

/// The greater of two numbers.
pub open spec fn greater(a: int, b: int) -> int {
    if a > b {
        a
    } else {
        b
    }
}

/// What a walk has gathered with the display slot of the frame at picture `i`.
#[verifier::opaque]
pub open spec fn slot_step(pictures: Seq<PictureView>, i: int, state: WalkState) -> WalkState {
    let picture = pictures[i];
    let tr = picture.header.temporal_reference as int;
    let new_group = picture.starts_gop && state.seen_picture;
    let gop_base = if new_group {
        state.gop_base + state.max_tr_in_gop + 1
    } else {
        state.gop_base
    };
    WalkState {
        gop_base,
        seen_picture: true,
        max_tr_in_gop: if new_group {
            tr
        } else {
            greater(state.max_tr_in_gop, tr)
        },
        display_fields: with_slot(state.display_fields, gop_base + tr + 1, shown_fields(picture)),
        ..state
    }
}

/// Whether the frame at picture `i` is kept, when a walk has come to it.
pub open spec fn keeps(
    pictures: Seq<PictureView>,
    undecodable: Seq<bool>,
    i: int,
    state: WalkState,
) -> bool {
    let picture = pictures[i];
    let kind = picture.header.picture_coding_type;
    // A lone field is no frame.
    &&& picture.coding.picture_structure == PictureStructure::Frame || paired(pictures, i)
    // Nor is a picture coded under a description other than the one the unit
    // opens with.
    &&& headers::picture_description(picture) == headers::picture_description(pictures[0])
    &&& decodable(pictures, undecodable, i)
    &&& paired(pictures, i) ==> decodable(pictures, undecodable, i + 1)
    // Nothing is kept before the intra picture that opens the unit.
    &&& state.awaiting_intra ==> kind is I
    // A B picture needs both of its references.
    &&& !(kind is B && state.references < 2)
}

/// What a walk has gathered behind the frame at picture `i`.
#[verifier::opaque]
pub open spec fn walk_step(
    pictures: Seq<PictureView>,
    undecodable: Seq<bool>,
    i: int,
    before: WalkState,
) -> WalkState {
    let picture = pictures[i];
    let kind = picture.header.picture_coding_type;
    // Where this frame's bytes end, and so where the next one's begin, whether or
    // not this one is kept.
    let end = frame_end(pictures, i, before.start);
    if kind is Other {
        WalkState { start: end, ..before }
    } else {
        let state = slot_step(pictures, i, before);
        if !keeps(pictures, undecodable, i, state) {
            WalkState { start: end, ..state }
        } else {
            let pair = paired(pictures, i);
            WalkState {
                awaiting_intra: false,
                references: if kind is B {
                    state.references
                } else if state.references + 1 < 2 {
                    state.references + 1
                } else {
                    2
                },
                start: end,
                kept: state.kept.push(
                    KeptPicture {
                        index: (state.gop_base + picture.header.temporal_reference + 1) as u32,
                        scan: scan_kind(picture),
                        pair,
                        sample: Mpeg2Sample {
                            start: before.start as usize,
                            field_end: if pair {
                                Some(end_of(picture, before.start) as usize)
                            } else {
                                None
                            },
                            end: end as usize,
                            sync: kind is I,
                        },
                    },
                ),
                ..state
            }
        }
    }
}

/// What a walk gathers from picture `i` on.
pub open spec fn walked(
    pictures: Seq<PictureView>,
    undecodable: Seq<bool>,
    i: int,
    state: WalkState,
) -> WalkState
    decreases pictures.len() - i,
{
    if i < 0 || i >= pictures.len() {
        state
    } else {
        walked(
            pictures,
            undecodable,
            next_frame(pictures, i),
            walk_step(pictures, undecodable, i, state),
        )
    }
}

/// What a walk starts with.
pub open spec fn walk_start(has_references: bool) -> WalkState {
    WalkState {
        references: if has_references {
            2
        } else {
            0
        },
        awaiting_intra: !has_references,
        gop_base: 0,
        seen_picture: false,
        max_tr_in_gop: 0,
        display_fields: seq![2u8],
        start: 0,
        kept: Seq::empty(),
    }
}

/// How many fields are shown before display slot `index`.
pub open spec fn fields_before(display_fields: Seq<u8>, index: int) -> int
    decreases index,
{
    if index <= 1 {
        0
    } else {
        fields_before(display_fields, index - 1) + display_fields[index - 1]
    }
}

/// The tick that display slot `index` begins on.
pub open spec fn slot_start(display_fields: Seq<u8>, rate: (nat, nat), index: int) -> int {
    field_tick(fields_before(display_fields, index), rate)
}

/// The timeline of a unit whose pictures were walked with this outcome.
pub open spec fn timeline_of(first: PictureView, rate: (nat, nat), walk: WalkState) -> TimelineView {
    TimelineView {
        width: first.sequence.horizontal_size,
        height: first.sequence.vertical_size,
        sample_duration: field_tick(2, rate) as u32,
        presentation_times: Seq::new(
            walk.kept.len(),
            |k: int| slot_start(walk.display_fields, rate, walk.kept[k].index as int) as u64,
        ),
        sample_durations: Seq::new(
            walk.kept.len(),
            |k: int|
                (slot_start(walk.display_fields, rate, walk.kept[k].index + 1) - slot_start(
                    walk.display_fields,
                    rate,
                    walk.kept[k].index as int,
                )) as u32,
        ),
        sample_scans: Seq::new(walk.kept.len(), |k: int| walk.kept[k].scan),
        presentation_indices: Seq::new(walk.kept.len(), |k: int| walk.kept[k].index),
        field_pairs: Seq::new(walk.kept.len(), |k: int| walk.kept[k].pair),
        split_field_samples: true,
        sample_aspect_ratio: headers::picture_description(first).sample_aspect_ratio,
        hold_ticks: 0,
    }
}

/// The pictures of a parsed unit that can be coded or carried.
pub open spec fn walked_unit(
    data: Seq<u8>,
    pictures: Seq<PictureView>,
    has_references: bool,
    undecodable: Seq<bool>,
) -> Result<UnitView, Error> {
    if pictures.len() == 0 {
        Err(Error::NoPictures)
    } else {
        match frame_rate(pictures[0]) {
            None => Err(Error::FrameRateCode { code: pictures[0].sequence.frame_rate_code }),
            Some(rate) => {
                let walk = walked(pictures, undecodable, 0, walk_start(has_references));
                Ok(
                    UnitView {
                        timeline: timeline_of(pictures[0], rate, walk),
                        samples: Seq::new(walk.kept.len(), |k: int| walk.kept[k].sample),
                        sequence_header_len: header_block(data),
                    },
                )
            },
        }
    }
}

/// The unit that the data holds.
pub open spec fn unit_of(data: Seq<u8>, has_references: bool, undecodable: Seq<bool>) -> Result<
    UnitView,
    Error,
> {
    match headers::parsed(data) {
        Ok(pictures) => walked_unit(data, pictures, has_references, undecodable),
        Err(e) => Err(e),
    }
}

/// A unit's pictures can be numbered: there are fewer than four million.
pub open spec fn countable(data: Seq<u8>) -> bool {
    headers::parsed(data) is Ok ==> headers::parsed(data)->Ok_0.len() < 0x3f_ff00
}

/// A frame rate that the sequence syntax can name.
pub open spec fn is_rate(rate: (nat, nat)) -> bool {
    &&& 0 < rate.0 <= 240_000
    &&& rate.1 <= 32_032
    &&& TIMESCALE * rate.1 <= 120_120 * rate.0
}

/// Every frame rate of a sequence is one.
proof fn lemma_frame_rate(picture: PictureView)
    requires
        picture.sequence_ext.wf(),
        frame_rate(picture) is Some,
    ensures
        is_rate(frame_rate(picture)->Some_0),
{
    let code = picture.sequence.frame_rate_code as int;
    let a = FRAME_RATE@[code].0 as int;
    let b = FRAME_RATE@[code].1 as int;
    assert(0 < a <= 60_000 && b <= 1001 && 24_000 * b <= 1001 * a);
    let n = picture.sequence_ext.frame_rate_extension_n + 1;
    let d = picture.sequence_ext.frame_rate_extension_d + 1;
    assert(0 < a * n <= 240_000) by (nonlinear_arith)
        requires
            0 < a <= 60_000,
            1 <= n <= 4,
    ;
    assert(b * d <= 32 * b) by (nonlinear_arith)
        requires
            0 <= b,
            1 <= d <= 32,
    ;
    assert(a <= a * n) by (nonlinear_arith)
        requires
            0 < a,
            1 <= n,
    ;
}

/// Field ticks are in order, a few fields are not many ticks apart, and none is
/// beyond what 64 bits hold.
proof fn lemma_field_tick(fields: int, more: int, rate: (nat, nat))
    requires
        is_rate(rate),
        0 <= fields <= 0x4_0000_0000,
        0 <= more <= 3,
    ensures
        0 <= field_tick(fields, rate) <= 60_060 * fields + 1,
        field_tick(fields, rate) <= field_tick(fields + more, rate) <= field_tick(fields, rate)
            + 180_181,
{
    let n = rate.0 as int;
    let d = rate.1 as int;
    let x = fields * TIMESCALE * d + n;
    let y = (fields + more) * TIMESCALE * d + n;
    assert(fields * TIMESCALE * d == fields * (TIMESCALE * d)) by (nonlinear_arith);
    assert((fields + more) * TIMESCALE * d == fields * (TIMESCALE * d) + more * (TIMESCALE * d))
        by (nonlinear_arith);
    let t = TIMESCALE * d;
    assert(0 <= fields * t <= fields * (120_120 * n)) by (nonlinear_arith)
        requires
            0 <= fields,
            0 <= t <= 120_120 * n,
    ;
    assert(0 <= more * t <= 3 * (120_120 * n)) by (nonlinear_arith)
        requires
            0 <= more <= 3,
            0 <= t <= 120_120 * n,
    ;
    assert(fields * (120_120 * n) + n <= (60_060 * fields + 1) * (2 * n)) by (nonlinear_arith)
        requires
            n > 0,
    ;
    let m = 2 * n;
    vstd::arithmetic::div_mod::lemma_div_is_ordered(x, (60_060 * fields + 1) * m, m);
    vstd::arithmetic::div_mod::lemma_div_by_multiple(60_060 * fields + 1, m);
    vstd::arithmetic::div_mod::lemma_div_pos_is_pos(x, m);
    vstd::arithmetic::div_mod::lemma_div_is_ordered(x, y, m);
    vstd::arithmetic::div_mod::lemma_div_is_ordered(y, x + 180_181 * m, m);
    vstd::arithmetic::div_mod::lemma_hoist_over_denominator(x, 180_181, m as nat);
    assert(180_181 * m == m * 180_181) by (nonlinear_arith);
}

/// The tick that a field begins on.
fn tick_of(fields: u64, numerator: u32, denominator: u32) -> (tick: u64)
    requires
        is_rate((numerator as nat, denominator as nat)),
        fields <= 0x4_0000_0000,
    ensures
        tick == field_tick(fields as int, (numerator as nat, denominator as nat)),
{
    proof {
        lemma_field_tick(fields as int, 0, (numerator as nat, denominator as nat));
        let f = fields as int;
        let d = denominator as int;
        assert(0 <= f * TIMESCALE * d <= 0x4_0000_0000 * TIMESCALE * 32_032) by (nonlinear_arith)
            requires
                0 <= f <= 0x4_0000_0000,
                0 <= d <= 32_032,
        ;
        assert(0 <= f * TIMESCALE <= 0x4_0000_0000 * TIMESCALE);
    }
    let ticks: u128 = fields as u128 * TIMESCALE as u128 * denominator as u128;
    ((ticks + numerator as u128) / (2 * numerator as u128)) as u64
}

/// A walk under way.
struct Walk {
    references: u32,
    awaiting_intra: bool,
    gop_base: u32,
    seen_picture: bool,
    max_tr_in_gop: u32,
    display_fields: Vec<u8>,
    /// Where the frame in hand starts, which is where the one before it ended,
    /// whether or not that one was kept. What lies between two frames goes to the
    /// one that follows, since a sequence header there describes that picture. A
    /// pair whose second field has no slices ends where it began, and leaves all
    /// of its bytes.
    start: usize,
    indices: Vec<u32>,
    scans: Vec<Interlacing>,
    pairs: Vec<bool>,
    samples: Vec<Mpeg2Sample>,
}

impl View for Walk {
    type V = WalkState;

    closed spec fn view(&self) -> WalkState {
        WalkState {
            references: self.references as int,
            awaiting_intra: self.awaiting_intra,
            gop_base: self.gop_base as int,
            seen_picture: self.seen_picture,
            max_tr_in_gop: self.max_tr_in_gop as int,
            display_fields: self.display_fields@,
            start: self.start as int,
            kept: Seq::new(
                self.indices@.len(),
                |k: int|
                    KeptPicture {
                        index: self.indices@[k],
                        scan: self.scans@[k],
                        pair: self.pairs@[k],
                        sample: self.samples@[k],
                    },
            ),
        }
    }
}

impl Walk {
    /// The walk is over `done` pictures of a unit of `len` bytes.
    spec fn wf(&self, done: int, len: int) -> bool {
        &&& self.references <= 2
        &&& self.gop_base <= 1024 * done
        &&& self.max_tr_in_gop < 1024
        &&& self.display_fields@.len() >= 1
        &&& self.display_fields@.len() <= 1024 * done + 1025
        &&& forall|i: int| 0 <= i < self.display_fields@.len() ==> #[trigger] self.display_fields@[i] <= 3
        &&& self.indices@.len() == self.scans@.len()
        &&& self.indices@.len() == self.pairs@.len()
        &&& self.indices@.len() == self.samples@.len()
        &&& forall|k: int|
            0 <= k < self.indices@.len() ==> 1 <= #[trigger] self.indices@[k]
                < self.display_fields@.len()
        &&& forall|k: int|
            0 <= k < self.samples@.len() ==> (#[trigger] self.samples@[k]).fits(len, true)
    }

    /// Take in the display slot of the frame at picture `i`.
    fn slot(&mut self, pictures: &[Picture], i: usize, len: Ghost<int>)
        requires
            old(self).wf(i as int, len@),
            i < 0x3f_ff00,
            i < pictures@.len(),
            pictures@[i as int]@.header.wf(),
        ensures
            final(self).wf(i + 1, len@),
            final(self)@ == slot_step(headers::picture_views(pictures@), i as int, old(self)@),
            final(self).gop_base + pictures@[i as int].header.temporal_reference + 1
                < final(self).display_fields@.len(),
    {
        proof {
            reveal(slot_step);
        }
        let picture = &pictures[i];
        let tr: u32 = picture.header.temporal_reference;
        if picture.starts_gop && self.seen_picture {
            self.gop_base = self.gop_base + self.max_tr_in_gop + 1;
            self.max_tr_in_gop = tr;
        } else if tr > self.max_tr_in_gop {
            self.max_tr_in_gop = tr;
        }
        self.seen_picture = true;
        let index: usize = (self.gop_base + tr + 1) as usize;
        let fields: u8 = if picture.coding.picture_structure == PictureStructure::Frame
            && picture.coding.repeat_first_field {
            3
        } else {
            2
        };
        set_slot(&mut self.display_fields, index, fields);
        assert(headers::picture_views(pictures@)[i as int] == picture@);
        assert(self@ =~= slot_step(headers::picture_views(pictures@), i as int, old(self)@));
    }

    /// Take in the frame at picture `i`, which is a field pair where `pair` is set,
    /// and whose bytes run to `end`.
    fn frame(
        &mut self,
        pictures: &[Picture],
        undecodable: &[bool],
        i: usize,
        pair: bool,
        end: usize,
        len: Ghost<int>,
    )
        requires
            old(self).wf(i as int, len@),
            i < 0x3f_ff00,
            i < pictures@.len(),
            headers::all_wf(headers::picture_views(pictures@)),
            pair == paired(headers::picture_views(pictures@), i as int),
            end == frame_end(
                headers::picture_views(pictures@),
                i as int,
                old(self)@.start,
            ),
            old(self).start <= end <= len@,
            pair && pictures@[i as int]@.slices.len() > 0 && pictures@[i + 1]@.slices.len() > 0
                ==> old(self).start <= end_of(pictures@[i as int]@, old(self)@.start) <= end,
        ensures
            final(self).wf(i + 1, len@),
            final(self)@ == walk_step(
                headers::picture_views(pictures@),
                undecodable@,
                i as int,
                old(self)@,
            ),
            final(self)@.start == end,
    {
        proof {
            reveal(walk_step);
        }
        let ghost views = headers::picture_views(pictures@);
        assert(views[i as int].wf());
        assert(views[0].wf());
        let picture = &pictures[i];
        let kind = picture.header.picture_coding_type;
        let start: usize = self.start;
        if !kind.is_ipb() {
            self.start = end;
            assert(self@ =~= walk_step(views, undecodable@, i as int, old(self)@));
            return;
        }
        self.slot(pictures, i, len);
        let ghost state = self@;
        self.start = end;
        assert(self@ =~= WalkState { start: end as int, ..state });
        // A lone field is no frame, and the conversion drops it for the same
        // reason. Both have to, or the timeline reserves a sample the H.264
        // stream does not hold.
        if picture.coding.picture_structure != PictureStructure::Frame && !pair {
            return;
        }
        // Nor is a picture coded under a description other than the one this
        // unit opens with: the parameter sets in front of it describe that one,
        // and the conversion drops it for the same reason.
        if picture_sequence_description(picture) != picture_sequence_description(&pictures[0]) {
            return;
        }
        if !is_decodable(pictures, undecodable, i) || (pair && !is_decodable(
            pictures,
            undecodable,
            i + 1,
        )) {
            return;
        }
        if self.awaiting_intra && kind != PictureType::I {
            return;
        }
        if kind == PictureType::B && self.references < 2 {
            return;
        }
        assert(keeps(views, undecodable@, i as int, state));
        self.awaiting_intra = false;
        self.indices.push(self.gop_base + picture.header.temporal_reference + 1);
        let scan = match picture.coding.picture_structure {
            PictureStructure::TopField => Interlacing { interlaced: true, top_field_first: true },
            PictureStructure::BottomField => Interlacing {
                interlaced: true,
                top_field_first: false,
            },
            PictureStructure::Frame => Interlacing {
                interlaced: !picture.coding.progressive_frame,
                top_field_first: picture.coding.top_field_first,
            },
            PictureStructure::Reserved => Interlacing::default(),
        };
        self.scans.push(scan);
        self.pairs.push(pair);
        let field_end: Option<usize> = if pair {
            Some(picture_end(picture, start))
        } else {
            None
        };
        self.samples.push(Mpeg2Sample { start, field_end, end, sync: kind == PictureType::I });
        if kind != PictureType::B && self.references < 2 {
            self.references = self.references + 1;
        }
        assert(self@ =~= walk_step(views, undecodable@, i as int, old(self)@));
    }
}

/// Set display slot `index`, with slots of two fields up to it where there were
/// none.
fn set_slot(fields: &mut Vec<u8>, index: usize, count: u8)
    requires
        index < usize::MAX,
        count <= 3,
        forall|i: int| 0 <= i < old(fields)@.len() ==> #[trigger] old(fields)@[i] <= 3,
    ensures
        final(fields)@ == with_slot(old(fields)@, index as int, count),
        final(fields)@.len() > index,
        final(fields)@.len() == old(fields)@.len() || final(fields)@.len() == index + 1,
        final(fields)@.len() >= old(fields)@.len(),
        forall|i: int| 0 <= i < final(fields)@.len() ==> #[trigger] final(fields)@[i] <= 3,
{
    let had: usize = fields.len();
    assert(fields@ =~= old(fields)@ + Seq::new(0, |i: int| 2u8));
    while fields.len() <= index
        invariant
            had == old(fields)@.len(),
            had <= fields@.len(),
            fields@.len() == had || fields@.len() <= index + 1,
            index < usize::MAX,
            fields@ == old(fields)@ + Seq::new((fields@.len() - had) as nat, |i: int| 2u8),
        decreases index + 1 - fields@.len(),
    {
        fields.push(2);
        assert(fields@ =~= old(fields)@ + Seq::new((fields@.len() - had) as nat, |i: int| 2u8));
    }
    fields[index] = count;
    assert(fields@ =~= with_slot(old(fields)@, index as int, count));
}

/// Whether picture `i` has slices that nobody found damaged.
fn is_decodable(pictures: &[Picture], undecodable: &[bool], i: usize) -> (yes: bool)
    requires
        i < pictures@.len(),
    ensures
        yes == decodable(headers::picture_views(pictures@), undecodable@, i as int),
{
    assert(headers::picture_views(pictures@)[i as int] == pictures@[i as int]@);
    pictures[i].slices.len() > 0 && !(i < undecodable.len() && undecodable[i])
}

/// Fields shown before a slot number no more than three for every slot.
proof fn lemma_fields_before(fields: Seq<u8>, index: int)
    requires
        forall|i: int| 0 <= i < fields.len() ==> #[trigger] fields[i] <= 3,
        index <= fields.len(),
    ensures
        0 <= fields_before(fields, index),
        index >= 0 ==> fields_before(fields, index) <= 3 * index,
    decreases index,
{
    if index > 1 {
        lemma_fields_before(fields, index - 1);
        assert(fields[index - 1] <= 3);
    }
}

/// The ticks that the display slots begin on, and the one past the last of them.
fn slot_ticks(fields: &Vec<u8>, numerator: u32, denominator: u32) -> (ticks: Vec<u64>)
    requires
        1 <= fields@.len() <= 0x1_0000_0000,
        is_rate((numerator as nat, denominator as nat)),
        forall|i: int| 0 <= i < fields@.len() ==> #[trigger] fields@[i] <= 3,
    ensures
        ticks@.len() == fields@.len() + 1,
        forall|i: int|
            0 <= i <= fields@.len() ==> #[trigger] ticks@[i] == slot_start(
                fields@,
                (numerator as nat, denominator as nat),
                i,
            ),
        forall|i: int|
            1 <= i < fields@.len() ==> ticks@[i] <= #[trigger] ticks@[i + 1] <= ticks@[i] + 180_181,
{
    let ghost rate = (numerator as nat, denominator as nat);
    let mut ticks: Vec<u64> = Vec::new();
    let zero: u64 = tick_of(0, numerator, denominator);
    ticks.push(zero);
    ticks.push(zero);
    let mut shown: u64 = 0;
    let mut index: usize = 1;
    let count: usize = fields.len();
    while index < count
        invariant
            count == fields@.len(),
            1 <= index <= count <= 0x1_0000_0000,
            rate == (numerator as nat, denominator as nat),
            is_rate(rate),
            forall|i: int| 0 <= i < fields@.len() ==> #[trigger] fields@[i] <= 3,
            shown == fields_before(fields@, index as int),
            ticks@.len() == index + 1,
            forall|i: int|
                0 <= i <= index ==> #[trigger] ticks@[i] == slot_start(fields@, rate, i),
            forall|i: int|
                1 <= i < index ==> ticks@[i] <= #[trigger] ticks@[i + 1] <= ticks@[i] + 180_181,
        decreases count - index,
    {
        proof {
            lemma_fields_before(fields@, index as int);
            lemma_field_tick(shown as int, fields@[index as int] as int, rate);
        }
        shown = shown + fields[index] as u64;
        ticks.push(tick_of(shown, numerator, denominator));
        index = index + 1;
    }
    ticks
}

/// Walk a unit's pictures, keeping the ones that can be coded or carried.
///
/// Nothing is decoded here. A picture is kept if it has slices at all and was
/// not named in `undecodable`, which is what the conversion reports back once
/// it has tried; passthrough hands the bytes on untouched and names nothing,
/// since a damaged slice is then the decoder's business rather than this one's.
pub fn walk_pictures(data: &[u8], has_references: bool, undecodable: &[bool]) -> (result: Result<
    Mpeg2Unit,
    Error,
>)
    requires
        8 * data@.len() <= usize::MAX,
        countable(data@),
    ensures
        match result {
            Ok(unit) => unit_of(data@, has_references, undecodable@) == Ok::<UnitView, Error>(
                unit@,
            ) && unit@.fits(data@.len() as int),
            Err(e) => unit_of(data@, has_references, undecodable@) == Err::<UnitView, Error>(e),
        },
{
    let pictures = match parse_elementary_stream(data) {
        Ok(pictures) => pictures,
        Err(e) => return Err(e),
    };
    let ghost views = headers::picture_views(pictures@);
    proof {
        headers::law_parse_lays_out_in_order(data@);
    }
    if pictures.len() == 0 {
        return Err(Error::NoPictures);
    }
    let first = &pictures[0];
    assert(views[0] == first@);
    assert(views[0].wf());
    let code: u32 = first.sequence.frame_rate_code;
    if code >= 9 || FRAME_RATE[code as usize].0 == 0 {
        return Err(Error::FrameRateCode { code });
    }
    proof {
        lemma_frame_rate(views[0]);
    }
    let base: (u32, u32) = FRAME_RATE[code as usize];
    let numerator: u32 = base.0 * (first.sequence_ext.frame_rate_extension_n + 1);
    let denominator: u32 = base.1 * (first.sequence_ext.frame_rate_extension_d + 1);
    let ghost rate = (numerator as nat, denominator as nat);
    proof {
        lemma_field_tick(0, 2, rate);
    }
    let sample_duration: u32 = tick_of(2, numerator, denominator) as u32;

    let mut walk = Walk {
        references: if has_references {
            2
        } else {
            0
        },
        awaiting_intra: !has_references,
        gop_base: 0,
        seen_picture: false,
        max_tr_in_gop: 0,
        display_fields: vec![2u8],
        start: 0,
        indices: Vec::new(),
        scans: Vec::new(),
        pairs: Vec::new(),
        samples: Vec::new(),
    };
    assert(walk@ =~= walk_start(has_references));
    let ghost len = data@.len() as int;
    let mut i: usize = 0;
    proof {
        lemma_starts_increase(views, len, 0);
    }
    while i < pictures.len()
        invariant
            views == headers::picture_views(pictures@),
            headers::all_wf(views),
            headers::laid_out(views, len),
            len == data@.len(),
            pictures@.len() < 0x3f_ff00,
            i <= pictures@.len(),
            follows(views, len, walk@.start, i as int),
            walk.wf(i as int, len),
            walked(views, undecodable@, i as int, walk@) == walked(
                views,
                undecodable@,
                0,
                walk_start(has_references),
            ),
        decreases pictures@.len() - i,
    {
        proof {
            lemma_frames_follow(views, len, walk@.start, i as int);
        }
        let picture = &pictures[i];
        assert(views[i as int] == picture@);
        let mate: Option<&Picture> = if picture.coding.picture_structure
            != PictureStructure::Frame && i + 1 < pictures.len() {
            assert(views[i + 1] == pictures@[i + 1]@);
            complementary_field(Some(&pictures[i + 1]), picture)
        } else {
            None
        };
        let pair: bool = mate.is_some();
        assert(pair == paired(views, i as int));
        let next: usize = if pair {
            i + 2
        } else {
            i + 1
        };
        // A field pair is one frame: it occupies one MP4 sample and advances
        // reference state only once as well.
        let end: usize = match mate {
            Some(field) => picture_end(field, walk.start),
            None => picture_end(picture, walk.start),
        };
        assert(end == frame_end(views, i as int, walk@.start));
        proof {
            if pair {
                assert(views[i + 1] == pictures@[i + 1]@);
                assert(walk@.start <= end_of(views[i as int], walk@.start));
            }
        }
        walk.frame(&pictures, undecodable, i, pair, end, Ghost(len));
        i = next;
    }
    // Round positions on the continuous field clock, not every picture of three
    // fields in isolation. At 30000/1001 fps a field is 1501.5 ticks, so
    // successive three-field pictures must alternate between 4505 and 4504 ticks
    // instead of gaining half a tick apiece.
    let ticks: Vec<u64> = slot_ticks(&walk.display_fields, numerator, denominator);
    let mut presentation_times: Vec<u64> = Vec::new();
    let mut sample_durations: Vec<u32> = Vec::new();
    let mut k: usize = 0;
    let ghost outcome = walk@;
    while k < walk.indices.len()
        invariant
            outcome == walk@,
            walk.wf(pictures@.len() as int, len),
            ticks@.len() == walk.display_fields@.len() + 1,
            forall|i: int|
                0 <= i <= walk.display_fields@.len() ==> #[trigger] ticks@[i] == slot_start(
                    walk.display_fields@,
                    rate,
                    i,
                ),
            forall|i: int|
                1 <= i < walk.display_fields@.len() ==> ticks@[i] <= #[trigger] ticks@[i + 1]
                    <= ticks@[i] + 180_181,
            k <= walk.indices@.len(),
            presentation_times@.len() == k,
            sample_durations@.len() == k,
            forall|j: int|
                0 <= j < k ==> #[trigger] presentation_times@[j] == slot_start(
                    outcome.display_fields,
                    rate,
                    outcome.kept[j].index as int,
                ) as u64,
            forall|j: int|
                0 <= j < k ==> #[trigger] sample_durations@[j] == (slot_start(
                    outcome.display_fields,
                    rate,
                    outcome.kept[j].index + 1,
                ) - slot_start(outcome.display_fields, rate, outcome.kept[j].index as int)) as u32,
        decreases walk.indices@.len() - k,
    {
        let index: usize = walk.indices[k] as usize;
        assert(1 <= walk.indices@[k as int] < walk.display_fields@.len());
        assert(ticks@[index as int] <= ticks@[index + 1] <= ticks@[index as int] + 180_181);
        presentation_times.push(ticks[index]);
        sample_durations.push((ticks[index + 1] - ticks[index]) as u32);
        k = k + 1;
    }
    let unit = Mpeg2Unit {
        timeline: Mpeg2VideoTimeline {
            width: first.sequence.horizontal_size,
            height: first.sequence.vertical_size,
            sample_duration,
            presentation_times,
            sample_durations,
            sample_scans: walk.scans,
            presentation_indices: walk.indices,
            field_pairs: walk.pairs,
            split_field_samples: true,
            sample_aspect_ratio: picture_sequence_description(first).sample_aspect_ratio,
            hold_ticks: 0,
        },
        samples: walk.samples,
        sequence_header_len: sequence_header_len(data),
    };
    assert(unit@.timeline =~= timeline_of(views[0], rate, outcome));
    assert(unit@.samples =~= Seq::new(outcome.kept.len(), |k: int| outcome.kept[k].sample));
    Ok(unit)
}

/// Reproduce the conversion's accepted-picture timeline in MP4 timescale units.
///
/// `has_references` is set when the unit continues an already-populated decoded
/// picture buffer, so its leading B pictures are codeable.
///
/// `undecodable`, indexed by source picture, names the pictures the conversion
/// found damaged. The timeline must reserve a sample for each picture the
/// conversion emits and no others, and this is how it is told which those are;
/// an empty slice means none were, which is the ordinary case.
pub fn mpeg2_video_timeline(data: &[u8], has_references: bool, undecodable: &[bool]) -> (result:
    Result<Mpeg2VideoTimeline, Error>)
    requires
        8 * data@.len() <= usize::MAX,
        countable(data@),
    ensures
        match result {
            Ok(timeline) => unit_of(data@, has_references, undecodable@) is Ok && timeline@
                == unit_of(data@, has_references, undecodable@)->Ok_0.timeline,
            Err(e) => unit_of(data@, has_references, undecodable@) == Err::<UnitView, Error>(e),
        },
{
    match walk_pictures(data, has_references, undecodable) {
        Ok(unit) => Ok(unit.timeline),
        Err(e) => Err(e),
    }
}

/// Cut a unit into the samples a passthrough MP4 carries, alongside the same
/// timeline the converting path would build for it.
///
/// The pictures kept here are exactly the pictures the conversion would code,
/// bar the ones it drops for being undecodable: nothing is decoded on this
/// path, and a damaged slice is the decoder's business rather than this one's.
pub fn mpeg2_passthrough_unit(data: &[u8], has_references: bool) -> (result: Result<
    Mpeg2Unit,
    Error,
>)
    requires
        8 * data@.len() <= usize::MAX,
        countable(data@),
    ensures
        match result {
            Ok(unit) => unit_of(data@, has_references, Seq::empty()) == Ok::<UnitView, Error>(
                unit@,
            ) && unit@.fits(data@.len() as int) && samples::in_order(
                unit@,
                data@.len() as int,
                has_references,
            ),
            Err(e) => unit_of(data@, has_references, Seq::empty()) == Err::<UnitView, Error>(e),
        },
{
    let none: [bool; 0] = [];
    assert(none@ =~= Seq::empty());
    proof {
        if unit_of(data@, has_references, Seq::empty()) is Ok {
            samples::law_samples_lie_in_order(data@, has_references, Seq::empty());
        }
    }
    walk_pictures(data, has_references, &none)
}

} // verus!
