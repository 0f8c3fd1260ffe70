//! Sample durations and composition offsets.
use crate::container::fmp4::timeline::{Mpeg2VideoTimeline, TimelineView};
use crate::error::Error;
use vstd::prelude::*;

verus! {

/// Sample durations and composition offsets for one unit of coded pictures.
#[derive(Clone, Debug)]
pub struct SampleTiming {
    /// Durations in decode order.
    pub durations: Vec<u32>,
    /// Offsets carrying each sample from its decode slot to its display slot.
    pub compositions: Vec<u32>,
    /// How far decoding runs ahead of display.
    pub reorder_delay: i64,
}

/// A timing as a mathematical value.
#[verifier::ext_equal]
pub struct TimingView {
    pub durations: Seq<u32>,
    pub compositions: Seq<u32>,
    pub reorder_delay: int,
}

impl View for SampleTiming {
    type V = TimingView;

    open spec fn view(&self) -> TimingView {
        TimingView {
            durations: self.durations@,
            compositions: self.compositions@,
            reorder_delay: self.reorder_delay as int,
        }
    }
}

/// What the sample that opens a unit has to stand in for.
///
/// A unit that opens the presentation is short of pictures at the front: an
/// open GOP's leading B pictures reference an anchor that is not there, so
/// neither path can carry them and the first retained picture sits that many
/// display slots in. Those empty slots are given to the opening sample, which
/// leaves no gap to stall on and -- the reason this matters -- makes every unit
/// span exactly as many frames as the source did, so units appended end to end
/// cannot creep away from the audio.
#[derive(Clone, Copy, PartialEq, Eq, Debug, Structural)]
pub enum UnitLeadIn {
    /// Nothing: the unit continues a decode chain and every display slot in it
    /// has a picture of its own.
    Nothing,
    /// The empty slots, held by the extra copy of the IDR that the conversion
    /// puts ahead of the unit to start its short-term reference chain. That
    /// copy is a sample the timeline has no picture for, so the unit holds one
    /// more sample than the timeline has pictures.
    IdrClone,
    /// The empty slots, held by the unit's own first picture, which is what
    /// passthrough does: it adds no samples of its own, so the picture that
    /// opens the unit is simply shown for longer.
    FirstPicture,
}

/// Whether picture `i` takes a sample for each of its fields.
pub open spec fn split_at(t: TimelineView, i: int) -> bool {
    t.split_field_samples && t.pair_at(i)
}

/// How many MP4 samples the first `n` pictures take.
pub open spec fn samples_before(t: TimelineView, n: nat) -> nat
    decreases n,
{
    if n == 0 {
        0
    } else {
        samples_before(t, (n - 1) as nat) + if split_at(t, n - 1) {
            2nat
        } else {
            1nat
        }
    }
}

/// How many MP4 samples the timeline's pictures occupy.
pub open spec fn content_samples(t: TimelineView) -> nat {
    samples_before(t, t.presentation_indices.len())
}

/// The samples of the first pictures of a unit, in decode order.
#[verifier::ext_equal]
pub struct Laid {
    /// How far the display slot of each lies behind its decode slot, before the
    /// decode timeline is held back.
    pub offsets: Seq<int>,
    pub durations: Seq<u32>,
    /// Where the decode timeline has come to.
    pub decode_time: int,
}

/// The samples of the first `n` pictures. The two fields of a split pair share the
/// frame's slot between them, in the order they display in.
pub open spec fn laid(t: TimelineView, n: nat) -> Laid
    decreases n,
{
    if n == 0 {
        Laid { offsets: Seq::empty(), durations: Seq::empty(), decode_time: 0 }
    } else {
        let before = laid(t, (n - 1) as nat);
        let offset = t.time_of(n - 1) - t.first_time() - before.decode_time;
        let duration = t.duration_of(n - 1);
        let half = duration / 2;
        if split_at(t, n - 1) {
            Laid {
                offsets: before.offsets.push(offset).push(offset),
                durations: before.durations.push(half).push((duration - half) as u32),
                decode_time: before.decode_time + duration,
            }
        } else {
            Laid {
                offsets: before.offsets.push(offset),
                durations: before.durations.push(duration),
                decode_time: before.decode_time + duration,
            }
        }
    }
}

/// The least of the first `n` numbers and zero.
pub open spec fn least(offsets: Seq<int>, n: nat) -> int
    decreases n,
{
    if n == 0 {
        0
    } else {
        let before = least(offsets, (n - 1) as nat);
        if offsets[n - 1] < before {
            offsets[n - 1]
        } else {
            before
        }
    }
}

/// How far the decode timeline of a unit is held back: a frame, or as far as it
/// takes for no picture to be shown before it is decoded.
pub open spec fn delay_of(t: TimelineView) -> int {
    let offsets = laid(t, t.presentation_indices.len()).offsets;
    let measured = -least(offsets, offsets.len());
    if measured > t.sample_duration {
        measured
    } else {
        t.sample_duration as int
    }
}

/// The ticks in front of a unit's first picture that its opening sample covers.
pub open spec fn lead_of(t: TimelineView) -> int {
    (t.first_time() as u32) + t.hold_ticks
}

/// The greater of two lengths.
pub open spec fn longer(a: int, b: int) -> int {
    if a > b {
        a
    } else {
        b
    }
}

/// The timing of a unit before its lead-in.
pub open spec fn base_timing(t: TimelineView) -> TimingView {
    let samples = laid(t, t.presentation_indices.len());
    TimingView {
        durations: samples.durations,
        compositions: Seq::new(
            samples.offsets.len(),
            |i: int| (samples.offsets[i] + delay_of(t)) as u32,
        ),
        reorder_delay: delay_of(t),
    }
}

/// Whether the clone that leads a unit in stands behind a split field pair.
pub open spec fn opens_on_pair(t: TimelineView) -> bool {
    split_at(t, 0) && t.presentation_indices.len() > 0
}

/// The timing of a unit.
pub open spec fn timing_of(t: TimelineView, lead_in: UnitLeadIn) -> TimingView {
    let base = base_timing(t);
    let lead = lead_of(t);
    match lead_in {
        UnitLeadIn::Nothing => base,
        UnitLeadIn::IdrClone => if opens_on_pair(t) {
            // The clone is the unit's third sample, because the pair it repeats
            // takes two. The second field is held over the empty slots, and the
            // clone takes the frame the pair belongs to.
            let first = base.durations[0] as int;
            let second = base.durations[1] as int;
            let held = longer(lead - first, 1);
            TimingView {
                durations: base.durations.update(1, held as u32).insert(
                    2,
                    longer(lead + second - held, 1) as u32,
                ),
                compositions: base.compositions.insert(2, base.reorder_delay as u32),
                ..base
            }
        } else {
            TimingView {
                durations: base.durations.insert(0, longer(lead, 1) as u32),
                compositions: base.compositions.insert(0, base.reorder_delay as u32),
                ..base
            }
        },
        UnitLeadIn::FirstPicture => if base.durations.len() > 0 {
            TimingView {
                durations: base.durations.update(0, (base.durations[0] + lead) as u32),
                ..base
            }
        } else {
            base
        },
    }
}

/// A timeline whose times a clock can tell: not too many pictures, and none of
/// them too far away.
pub open spec fn tellable(t: TimelineView) -> bool {
    &&& t.presentation_indices.len() <= 0x1000_0000
    &&& forall|i: int|
        0 <= i < t.presentation_indices.len() ==> #[trigger] t.time_of(i) <= 0x1000_0000_0000_0000
}

/// What the opening sample covers fits in a sample duration.
pub open spec fn lead_fits(t: TimelineView, lead_in: UnitLeadIn) -> bool {
    let base = base_timing(t);
    match lead_in {
        UnitLeadIn::Nothing => true,
        UnitLeadIn::IdrClone => if opens_on_pair(t) {
            let first = base.durations[0] as int;
            let second = base.durations[1] as int;
            &&& lead_of(t) + first + second <= u32::MAX
            &&& 1 <= lead_of(t) + second
            &&& (delay_of(t) as u32) + longer(lead_of(t), first + 1) <= u32::MAX
        } else {
            lead_of(t) <= u32::MAX
        },
        UnitLeadIn::FirstPicture => if base.durations.len() > 0 {
            base.durations[0] + lead_of(t) <= u32::MAX
        } else {
            true
        },
    }
}

/// Each picture that is split takes two samples, every other takes one.
proof fn lemma_laid_lengths(t: TimelineView, n: nat)
    requires
        n <= t.presentation_indices.len() <= 0x1000_0000,
    ensures
        laid(t, n).offsets.len() == samples_before(t, n),
        laid(t, n).durations.len() == samples_before(t, n),
        n <= samples_before(t, n) <= 2 * n,
        0 <= laid(t, n).decode_time <= n * 0x1_0000_0000,
    decreases n,
{
    if n > 0 {
        lemma_laid_lengths(t, (n - 1) as nat);
    }
}

/// The pictures of a timeline take a sample each, or two, and each sample lasts no
/// longer than 32 bits say.
pub proof fn lemma_content_samples(t: TimelineView)
    requires
        tellable(t),
    ensures
        content_samples(t) <= 0x2000_0000,
        0 <= delay_of(t) <= 0x4000_0000_0000_0000,
{
    let n = t.presentation_indices.len();
    lemma_laid_lengths(t, n);
    lemma_laid_small(t, n);
    lemma_least(laid(t, n).offsets, laid(t, n).offsets.len());
}

/// The offsets of a tellable timeline are small numbers.
proof fn lemma_laid_small(t: TimelineView, n: nat)
    requires
        tellable(t),
        n <= t.presentation_indices.len(),
    ensures
        forall|i: int|
            0 <= i < laid(t, n).offsets.len() ==> -0x2000_0000_0000_0000 <= #[trigger] laid(
                t,
                n,
            ).offsets[i] <= 0x1000_0000_0000_0000,
    decreases n,
{
    if n > 0 {
        lemma_laid_small(t, (n - 1) as nat);
        lemma_laid_lengths(t, (n - 1) as nat);
        t.lemma_earliest(t.presentation_indices.len());
        assert(t.first_time() <= t.time_of(n - 1) <= 0x1000_0000_0000_0000);
        let before = laid(t, (n - 1) as nat);
        let offset = t.time_of(n - 1) - t.first_time() - before.decode_time;
        assert(-0x2000_0000_0000_0000 <= offset <= 0x1000_0000_0000_0000);
        let now = laid(t, n);
        assert forall|i: int| 0 <= i < now.offsets.len() implies -0x2000_0000_0000_0000
            <= #[trigger] now.offsets[i] <= 0x1000_0000_0000_0000 by {
            if i < before.offsets.len() {
                assert(now.offsets[i] == before.offsets[i]);
            } else {
                assert(now.offsets[i] == offset);
            }
        }
    }
}

/// The least of some numbers is no greater than any of them, nor than zero.
proof fn lemma_least(offsets: Seq<int>, n: nat)
    requires
        n <= offsets.len(),
    ensures
        least(offsets, n) <= 0,
        forall|i: int| 0 <= i < n ==> least(offsets, n) <= #[trigger] offsets[i],
        least(offsets, n) == 0 || exists|i: int|
            0 <= i < n && least(offsets, n) == #[trigger] offsets[i],
    decreases n,
{
    if n > 0 {
        lemma_least(offsets, (n - 1) as nat);
        if offsets[n - 1] < least(offsets, (n - 1) as nat) {
            assert(least(offsets, n) == offsets[n - 1]);
        }
    }
}

/// How many MP4 samples the timeline's pictures occupy, before the IDR clone.
/// One each, unless split field pairs are taking two.
pub fn content_sample_count(timeline: &Mpeg2VideoTimeline) -> (count: usize)
    requires
        2 * timeline.presentation_indices@.len() <= usize::MAX,
    ensures
        count == content_samples(timeline@),
{
    let pictures: usize = timeline.presentation_indices.len();
    let mut count: usize = 0;
    let mut i: usize = 0;
    while i < pictures
        invariant
            pictures == timeline.presentation_indices@.len(),
            2 * pictures <= usize::MAX,
            i <= pictures,
            count == samples_before(timeline@, i as nat),
            count <= 2 * i,
        decreases pictures - i,
    {
        count = count + if timeline.split_field_samples && timeline.is_field_pair(i) {
            2
        } else {
            1
        };
        i = i + 1;
    }
    count
}

/// How many samples are synthesized around a random-access point, where their
/// number is one that can be.
pub open spec fn extra_samples(
    sample_count: int,
    content_samples: int,
    recovery_copy: bool,
    split_field_samples: bool,
) -> Option<int> {
    let extra = sample_count - content_samples;
    if extra < 0 {
        None
    } else if recovery_copy {
        if extra == 2 || (split_field_samples && extra == 3) {
            Some(extra)
        } else {
            None
        }
    } else if extra <= 1 {
        Some(extra)
    } else {
        None
    }
}

/// Validate the samples synthesized around a random-access point and return
/// how many timing entries they need. An ordinary IDR has one reference clone.
/// Recovery in IDR mode has an IDR copy plus its clone; when that copied source
/// picture is a split field pair, the IDR copy itself occupies two samples.
pub fn recovery_extra_samples(
    sample_count: usize,
    content_samples: usize,
    recovery_copy: bool,
    split_field_samples: bool,
) -> (extra: Option<usize>)
    ensures
        match extra {
            Some(n) => extra_samples(
                sample_count as int,
                content_samples as int,
                recovery_copy,
                split_field_samples,
            ) == Some(n as int),
            None => extra_samples(
                sample_count as int,
                content_samples as int,
                recovery_copy,
                split_field_samples,
            ) is None,
        },
{
    if sample_count < content_samples {
        return None;
    }
    let extra: usize = sample_count - content_samples;
    let possible: bool = if recovery_copy {
        extra == 2 || (split_field_samples && extra == 3)
    } else {
        extra <= 1
    };
    if possible {
        Some(extra)
    } else {
        None
    }
}

/// Work out the sample timing for one unit of coded pictures.
pub fn mpeg2_sample_timing(timeline: &Mpeg2VideoTimeline, lead_in: UnitLeadIn) -> (timing:
    SampleTiming)
    requires
        tellable(timeline@),
        lead_fits(timeline@, lead_in),
    ensures
        timing@ == timing_of(timeline@, lead_in),
{
    let ghost t = timeline@;
    let count: usize = timeline.presentation_indices.len();
    // The slot the unit starts on, which is not the first picture in decode
    // order: an I picture is coded ahead of the B pictures that display before
    // it, and at a random access point those B pictures are missing entirely.
    let first_time: u64 = timeline.first_presentation_time();
    proof {
        t.lemma_earliest(count as nat);
        lemma_laid_small(t, count as nat);
        lemma_laid_lengths(t, count as nat);
    }
    let mut offsets: Vec<i64> = Vec::new();
    let mut durations: Vec<u32> = Vec::new();
    let mut decode_time: i64 = 0;
    let mut least_offset: i64 = 0;
    let mut i: usize = 0;
    while i < count
        invariant
            t == timeline@,
            count == t.presentation_indices.len(),
            tellable(t),
            first_time == t.first_time(),
            i <= count,
            durations@ == laid(t, i as nat).durations,
            decode_time == laid(t, i as nat).decode_time,
            0 <= decode_time <= i * 0x1_0000_0000,
            offsets@.len() == laid(t, i as nat).offsets.len(),
            forall|k: int|
                0 <= k < offsets@.len() ==> #[trigger] offsets@[k] == laid(t, i as nat).offsets[k],
            least_offset == least(laid(t, i as nat).offsets, offsets@.len()),
            -0x2000_0000_0000_0000 <= least_offset <= 0,
        decreases count - i,
    {
        proof {
            t.lemma_earliest(count as nat);
            assert(t.time_of(i as int) <= 0x1000_0000_0000_0000);
        }
        let time: i64 = timeline.presentation_time_at(i) as i64 - first_time as i64;
        let duration: u32 = timeline.duration_at(i);
        let offset: i64 = time - decode_time;
        let ghost before = laid(t, i as nat);
        let ghost now = laid(t, (i + 1) as nat);
        let ghost n = before.offsets.len();
        offsets.push(offset);
        proof {
            lemma_least_same(before.offsets, now.offsets, n);
        }
        if timeline.split_field_samples && timeline.is_field_pair(i) {
            // Each field takes half the frame's slot, in the order it displays
            // in. Splitting the duration rather than leaving the second sample
            // at zero keeps every sample on an instant of its own, which is
            // what the decoders this works around want to see.
            let first_duration: u32 = duration / 2;
            durations.push(first_duration);
            offsets.push(offset);
            durations.push(duration - first_duration);
            assert(now.offsets[n as int] == offset && now.offsets[n as int + 1] == offset);
            assert(least(now.offsets, n + 2) == if offset < least(now.offsets, n + 1) {
                offset as int
            } else {
                least(now.offsets, n + 1)
            });
        } else {
            durations.push(duration);
            assert(now.offsets[n as int] == offset);
        }
        assert(least(now.offsets, n + 1) == if offset < least(now.offsets, n) {
            offset as int
        } else {
            least(now.offsets, n)
        });
        if offset < least_offset {
            least_offset = offset;
        }
        decode_time = decode_time + duration as i64;
        i = i + 1;
    }
    // An anchor picture is coded before the B pictures that display ahead of it,
    // so it reaches its display slot before its decode slot -- a negative
    // composition offset, which asks a decoder to show a picture it has not
    // decoded yet. Holding the whole decode timeline back by that lead keeps
    // every offset at or above zero without moving a single picture relative to
    // the audio.
    //
    // The lead is one frame, and it is held back by a frame whether this unit
    // needs it or not, because the delay sets where the unit's decode timeline
    // begins and the units are appended to one timeline. A unit that measured
    // its own would start a frame later than its neighbours whenever it had no
    // picture displaying ahead of its decode slot -- a group coded without B
    // pictures, or one whose leading B pictures were dropped -- which leaves a
    // hole in the decode timeline in front of it and lands its last sample on
    // the decode time of the next unit's first. Media Source Extensions reads
    // that overlap as an append over buffered frames and clears them back to a
    // random access point, and these streams carry one every few hundred
    // pictures, so the picture freezes until the next one. MPEG-2 never leads by
    // more than a frame: B pictures are not references, so only one anchor is
    // ever held.
    let measured: i64 = -least_offset;
    let reorder_delay: i64 = if measured > timeline.sample_duration as i64 {
        measured
    } else {
        timeline.sample_duration as i64
    };
    let ghost samples = laid(t, count as nat);
    assert(reorder_delay == delay_of(t));
    let mut compositions: Vec<u32> = Vec::new();
    let mut k: usize = 0;
    while k < offsets.len()
        invariant
            k <= offsets@.len(),
            offsets@.len() == samples.offsets.len(),
            forall|j: int| 0 <= j < offsets@.len() ==> #[trigger] offsets@[j] == samples.offsets[j],
            forall|j: int|
                0 <= j < samples.offsets.len() ==> -0x2000_0000_0000_0000
                    <= #[trigger] samples.offsets[j] <= 0x1000_0000_0000_0000,
            0 <= reorder_delay <= 0x2000_0000_0000_0000,
            reorder_delay == delay_of(t),
            compositions@.len() == k,
            forall|j: int|
                0 <= j < k ==> #[trigger] compositions@[j] == (samples.offsets[j] + delay_of(
                    t,
                )) as u32,
        decreases offsets@.len() - k,
    {
        assert(offsets@[k as int] == samples.offsets[k as int]);
        let composition: i64 = offsets[k] + reorder_delay;
        compositions.push(composition as u32);
        k = k + 1;
    }
    assert(compositions@ =~= base_timing(t).compositions);
    match lead_in {
        UnitLeadIn::Nothing => {},
        UnitLeadIn::IdrClone => {
            // The hole in front of the unit, which the sample covering its leading
            // slots is held over.
            let opens_on_a_pair: bool = timeline.split_field_samples && timeline.is_field_pair(0);
            proof {
                if count > 0 {
                    lemma_laid_grows(t, 1, count as nat);
                    lemma_laid_lengths(t, 1);
                    assert(samples_before(t, 1) == samples_before(t, 0) + if split_at(t, 0) {
                        2nat
                    } else {
                        1nat
                    });
                }
            }
            if opens_on_a_pair && durations.len() >= 2 {
                // The clone is the unit's third sample, because the pair it
                // repeats takes two. Holding the first field over the hole --
                // which is what inserting the extra slot in front does -- puts
                // the second field a whole hole after its own first, so the
                // pair is torn across frames and every field behind it lands
                // on the wrong half of the frame. Hold the second field
                // instead, and give the clone the frame the pair belongs to.
                let lead: u32 = first_time as u32 + timeline.hold_ticks;
                let first: u32 = durations[0];
                let second: u32 = durations[1];
                let held: u32 = if lead > first {
                    lead - first
                } else {
                    1
                };
                let rest: u32 = lead + second - held;
                durations[1] = held;
                durations.insert(
                    2,
                    if rest > 1 {
                        rest
                    } else {
                        1
                    },
                );
                compositions.insert(2, reorder_delay as u32);
            } else {
                let lead: u32 = first_time as u32 + timeline.hold_ticks;
                durations.insert(
                    0,
                    if lead > 1 {
                        lead
                    } else {
                        1
                    },
                );
                compositions.insert(0, reorder_delay as u32);
            }
        },
        // The opening sample is displayed from the first empty slot through its
        // own, so the unit spans exactly what it would have with a clone in
        // front of it. Holding it longer moves the decode slot of everything
        // after it by the same amount, which is what the clone did too, so the
        // composition offsets already computed still land where they should.
        UnitLeadIn::FirstPicture => {
            if durations.len() > 0 {
                let first: u32 = durations[0];
                durations[0] = first + (first_time as u32 + timeline.hold_ticks);
            }
        },
    }
    let timing = SampleTiming { durations, compositions, reorder_delay };
    assert(timing@ =~= timing_of(t, lead_in));
    timing
}

/// The least of numbers that are the same is the same.
proof fn lemma_least_same(a: Seq<int>, b: Seq<int>, n: nat)
    requires
        n <= a.len(),
        n <= b.len(),
        forall|i: int| 0 <= i < n ==> a[i] == b[i],
    ensures
        least(a, n) == least(b, n),
    decreases n,
{
    if n > 0 {
        lemma_least_same(a, b, (n - 1) as nat);
    }
}

/// The samples of some pictures begin with the samples of the first of them.
proof fn lemma_laid_grows(t: TimelineView, m: nat, n: nat)
    requires
        m <= n <= t.presentation_indices.len() <= 0x1000_0000,
    ensures
        samples_before(t, m) <= samples_before(t, n),
        laid(t, n).durations.take(samples_before(t, m) as int) == laid(t, m).durations,
        laid(t, n).offsets.take(samples_before(t, m) as int) == laid(t, m).offsets,
    decreases n,
{
    lemma_laid_lengths(t, m);
    lemma_laid_lengths(t, n);
    if m < n {
        lemma_laid_grows(t, m, (n - 1) as nat);
        lemma_laid_lengths(t, (n - 1) as nat);
        let k = samples_before(t, m) as int;
        let before = laid(t, (n - 1) as nat);
        assert(laid(t, n).durations.take(k) =~= before.durations.take(k));
        assert(laid(t, n).offsets.take(k) =~= before.offsets.take(k));
    } else {
        assert(laid(t, n).durations.take(samples_before(t, m) as int) =~= laid(t, m).durations);
        assert(laid(t, n).offsets.take(samples_before(t, m) as int) =~= laid(t, m).offsets);
    }
}

/// The sum of the first `n` durations: where a decode timeline has come to.
pub open spec fn elapsed(durations: Seq<u32>, n: nat) -> int
    decreases n,
{
    if n == 0 {
        0
    } else {
        elapsed(durations, (n - 1) as nat) + durations[n - 1]
    }
}

/// The sum of all durations.
pub open spec fn total(durations: Seq<u32>) -> int {
    elapsed(durations, durations.len())
}

/// When sample `i` is shown.
pub open spec fn shown_at(timing: TimingView, i: int) -> int {
    elapsed(timing.durations, i as nat) + timing.compositions[i]
}

/// When the last of the first `n` samples is shown.
pub open spec fn last_shown(timing: TimingView, n: nat) -> int
    decreases n,
{
    if n == 0 {
        0
    } else {
        longer(last_shown(timing, (n - 1) as nat), shown_at(timing, n - 1))
    }
}

/// `copies` ticks taken from the sample at `index`, or from the one before it where
/// there is none.
pub open spec fn lent(timing: TimingView, index: int, copies: u32) -> Result<TimingView, Error> {
    let len = timing.durations.len();
    if index == len {
        if len == 0 {
            Err(Error::RecoveryWithoutContent)
        } else if timing.durations[len - 1] <= copies {
            Err(Error::RecoveryBeforeTooShort)
        } else {
            Ok(
                TimingView {
                    durations: timing.durations.update(
                        len - 1,
                        (timing.durations[len - 1] - copies) as u32,
                    ),
                    ..timing
                },
            )
        }
    } else if timing.durations[index] <= copies || timing.compositions[index] < copies {
        Err(Error::RecoveryAfterTooShort)
    } else {
        Ok(
            TimingView {
                durations: timing.durations.update(
                    index,
                    (timing.durations[index] - copies) as u32,
                ),
                compositions: timing.compositions.update(
                    index,
                    (timing.compositions[index] - copies) as u32,
                ),
                ..timing
            },
        )
    }
}

/// How long after its decode instant a copy at `index` is shown: a tick after that
/// instant, and a tick after everything decoded before it.
pub open spec fn copy_offset(timing: TimingView, index: int) -> int {
    let decoded = elapsed(timing.durations, index as nat);
    longer(last_shown(timing, index as nat), decoded) + 1 - decoded
}

/// `s` with `n` times `v` at `index`.
pub open spec fn repeated(s: Seq<u32>, index: int, n: nat, v: u32) -> Seq<u32> {
    s.take(index) + Seq::new(n, |i: int| v) + s.skip(index)
}

/// The timing with `copies` samples of a tick each at `index`.
pub open spec fn copied(timing: TimingView, index: int, copies: nat) -> TimingView {
    TimingView {
        durations: repeated(timing.durations, index, copies, 1),
        compositions: repeated(
            timing.compositions,
            index,
            copies,
            copy_offset(timing, index) as u32,
        ),
        ..timing
    }
}

/// The timing with copies of a recovery picture at `index`, or why there can be
/// none.
pub open spec fn with_copies(timing: TimingView, index: int, copies: nat) -> Result<
    TimingView,
    Error,
> {
    match lent(timing, index, copies as u32) {
        Err(e) => Err(e),
        Ok(lending) => if copy_offset(lending, index) > u32::MAX {
            Err(Error::RecoveryUnreachable)
        } else {
            Ok(copied(lending, index, copies))
        },
    }
}

/// Put `n` times `v` at `index`.
fn insert_repeated(s: &mut Vec<u32>, index: usize, n: usize, v: u32)
    requires
        index <= old(s)@.len(),
        old(s)@.len() + n <= usize::MAX,
    ensures
        final(s)@ == repeated(old(s)@, index as int, n as nat, v),
{
    let mut done: usize = 0;
    assert(s@ =~= repeated(old(s)@, index as int, 0, v));
    while done < n
        invariant
            done <= n,
            index <= old(s)@.len(),
            old(s)@.len() + n <= usize::MAX,
            s@ == repeated(old(s)@, index as int, done as nat, v),
        decreases n - done,
    {
        s.insert(index + done, v);
        done = done + 1;
        assert(s@ =~= repeated(old(s)@, index as int, done as nat, v));
    }
}

/// Give the duplicate recovery picture a real decode instant and a display
/// slot after the picture it repeats, without changing the unit's duration or
/// any following presentation time.
pub fn insert_recovery_copy_timing(
    timing: &mut SampleTiming,
    index: usize,
    copies: usize,
) -> (result: Result<(), Error>)
    requires
        old(timing).durations@.len() == old(timing).compositions@.len(),
        old(timing).durations@.len() <= 0x4000_0000,
        index <= old(timing).durations@.len(),
        copies <= 0x4000_0000,
    ensures
        match result {
            Ok(()) => with_copies(old(timing)@, index as int, copies as nat) == Ok::<
                TimingView,
                Error,
            >(final(timing)@),
            Err(e) => with_copies(old(timing)@, index as int, copies as nat) == Err::<
                TimingView,
                Error,
            >(e) && final(timing)@ == if e == Error::RecoveryUnreachable {
                lent(old(timing)@, index as int, copies as u32)->Ok_0
            } else {
                old(timing)@
            },
        },
{
    let borrowed: u32 = copies as u32;
    let len: usize = timing.durations.len();
    if index == len {
        if len == 0 {
            return Err(Error::RecoveryWithoutContent);
        }
        let previous: u32 = timing.durations[len - 1];
        if previous <= borrowed {
            return Err(Error::RecoveryBeforeTooShort);
        }
        timing.durations[len - 1] = previous - borrowed;
    } else {
        let next_duration: u32 = timing.durations[index];
        let next_composition: u32 = timing.compositions[index];
        if next_duration <= borrowed || next_composition < borrowed {
            return Err(Error::RecoveryAfterTooShort);
        }
        timing.durations[index] = next_duration - borrowed;
        timing.compositions[index] = next_composition - borrowed;
    }
    let ghost lending = timing@;
    assert(lent(old(timing)@, index as int, borrowed) == Ok::<TimingView, Error>(lending));
    // Where the pictures already coded give way. The copies repeat the unit's
    // intra picture, and everything decoded ahead of them are the leading
    // pictures that display before it, so this is that picture's last sample.
    let mut decode_time: u64 = 0;
    let mut shown_until: u64 = 0;
    let mut i: usize = 0;
    while i < index
        invariant
            timing@ == lending,
            i <= index <= timing.durations@.len(),
            timing.durations@.len() == timing.compositions@.len(),
            timing.durations@.len() <= 0x4000_0000,
            decode_time == elapsed(lending.durations, i as nat),
            decode_time <= i * 0x1_0000_0000,
            shown_until == last_shown(lending, i as nat),
            shown_until <= (i + 1) * 0x1_0000_0000,
        decreases index - i,
    {
        let shown: u64 = decode_time + timing.compositions[i] as u64;
        if shown > shown_until {
            shown_until = shown;
        }
        decode_time = decode_time + timing.durations[i] as u64;
        i = i + 1;
    }
    // A tick after their own decode instant, so the browser sees strictly
    // increasing timestamps rather than the source intra picture's own. And a
    // tick after that picture leaves the screen, which is what a split field
    // pair needs: its second field displays half a frame after the first,
    // which is after these samples decode, so timing them from their decode
    // instant alone lands them between the two fields and leaves the pair
    // presented top, top, bottom, frame, bottom.
    let start: u64 = if shown_until > decode_time {
        shown_until + 1
    } else {
        decode_time + 1
    };
    let offset: u64 = start - decode_time;
    assert(offset == copy_offset(lending, index as int));
    if offset > u32::MAX as u64 {
        return Err(Error::RecoveryUnreachable);
    }
    // Each copy decodes a tick after the one before it, so one offset carries
    // them all and they stay a tick apart on screen too.
    insert_repeated(&mut timing.durations, index, copies, 1);
    insert_repeated(&mut timing.compositions, index, copies, offset as u32);
    assert(timing@ =~= copied(lending, index as int, copies as nat));
    Ok(())
}

/// How much of the presentation one fragment covers. The caller needs this
/// before it can decide how much audio belongs in the same fragment, which is
/// why it is separate from the muxing.
pub fn mpeg2_fragment_duration(timeline: &Mpeg2VideoTimeline, lead_in: UnitLeadIn) -> (duration:
    u64)
    requires
        tellable(timeline@),
        lead_fits(timeline@, lead_in),
    ensures
        duration == total(timing_of(timeline@, lead_in).durations),
{
    let timing = mpeg2_sample_timing(timeline, lead_in);
    proof {
        law_one_timing_per_sample(timeline@, lead_in);
        lemma_laid_lengths(timeline@, timeline@.presentation_indices.len());
    }
    sum_of(&timing.durations)
}

/// The sum of durations.
pub fn sum_of(durations: &Vec<u32>) -> (sum: u64)
    requires
        durations@.len() <= 0x4000_0000,
    ensures
        sum == total(durations@),
{
    let mut sum: u64 = 0;
    let mut i: usize = 0;
    while i < durations.len()
        invariant
            i <= durations@.len() <= 0x4000_0000,
            sum == elapsed(durations@, i as nat),
            sum <= i * 0x1_0000_0000,
        decreases durations@.len() - i,
    {
        sum = sum + durations[i] as u64;
        i = i + 1;
    }
    sum
}

/// A timing holds a duration and an offset for every sample: as many as the
/// timeline's pictures take, and one more where a clone leads them in.
pub proof fn law_one_timing_per_sample(t: TimelineView, lead_in: UnitLeadIn)
    requires
        tellable(t),
    ensures
        ({
            let timing = timing_of(t, lead_in);
            let clone: int = if lead_in is IdrClone {
                1
            } else {
                0
            };
            &&& timing.durations.len() == content_samples(t) + clone
            &&& timing.compositions.len() == timing.durations.len()
        }),
{
    let n = t.presentation_indices.len();
    lemma_laid_lengths(t, n);
    if opens_on_pair(t) {
        lemma_laid_grows(t, 1, n);
        lemma_laid_lengths(t, 1);
        assert(samples_before(t, 1) == samples_before(t, 0) + 2);
    }
}

/// A unit is held back by a frame at least, and by enough for no picture to be
/// shown before it is decoded.
pub proof fn law_no_picture_is_shown_before_it_decodes(t: TimelineView)
    ensures
        delay_of(t) >= t.sample_duration,
        forall|i: int|
            0 <= i < laid(t, t.presentation_indices.len()).offsets.len() ==> 0 <= #[trigger] laid(
                t,
                t.presentation_indices.len(),
            ).offsets[i] + delay_of(t),
{
    let offsets = laid(t, t.presentation_indices.len()).offsets;
    lemma_least(offsets, offsets.len());
}

/// Sums of the same durations are the same.
proof fn lemma_elapsed_same(a: Seq<u32>, b: Seq<u32>, n: nat)
    requires
        n <= a.len(),
        n <= b.len(),
        forall|i: int| 0 <= i < n ==> a[i] == b[i],
    ensures
        elapsed(a, n) == elapsed(b, n),
    decreases n,
{
    if n > 0 {
        lemma_elapsed_same(a, b, (n - 1) as nat);
    }
}

/// The decode timeline of a unit is the sum of its durations.
proof fn lemma_laid_elapsed(t: TimelineView, n: nat)
    requires
        n <= t.presentation_indices.len() <= 0x1000_0000,
    ensures
        total(laid(t, n).durations) == laid(t, n).decode_time,
    decreases n,
{
    if n > 0 {
        let m = (n - 1) as nat;
        lemma_laid_elapsed(t, m);
        lemma_laid_lengths(t, m);
        lemma_laid_lengths(t, n);
        let before = laid(t, m).durations;
        let now = laid(t, n).durations;
        let k = before.len();
        lemma_elapsed_same(before, now, k);
        if split_at(t, n - 1) {
            assert(elapsed(now, k + 2) == elapsed(now, k + 1) + now[k as int + 1]);
            assert(elapsed(now, k + 1) == elapsed(now, k) + now[k as int]);
        } else {
            assert(elapsed(now, k + 1) == elapsed(now, k) + now[k as int]);
        }
    }
}

/// Every picture is shown when its timeline says, counted from the first of them
/// and held back by the delay. The second field of a split pair is shown half a
/// frame after the first.
pub proof fn law_pictures_are_shown_on_time(t: TimelineView, k: nat)
    requires
        tellable(t),
        k < t.presentation_indices.len(),
        delay_of(t) + t.time_of(k as int) - t.first_time() <= u32::MAX,
    ensures
        ({
            let timing = timing_of(t, UnitLeadIn::Nothing);
            let s = samples_before(t, k) as int;
            let due = t.time_of(k as int) - t.first_time() + delay_of(t);
            &&& shown_at(timing, s) == due
            &&& split_at(t, k as int) ==> shown_at(timing, s + 1) == due + t.duration_of(k as int)
                / 2
        }),
{
    let n = t.presentation_indices.len();
    let timing = timing_of(t, UnitLeadIn::Nothing);
    let s = samples_before(t, k);
    lemma_laid_lengths(t, n);
    lemma_laid_lengths(t, k);
    lemma_laid_lengths(t, k + 1);
    lemma_laid_grows(t, k, n);
    lemma_laid_grows(t, k + 1, n);
    lemma_laid_elapsed(t, k);
    lemma_laid_lengths(t, (k + 1) as nat);
    let whole = laid(t, n);
    let before = laid(t, k);
    let now = laid(t, k + 1);
    let offset = t.time_of(k as int) - t.first_time() - before.decode_time;
    assert(whole.durations.take(s as int) =~= before.durations);
    assert(forall|i: int| 0 <= i < s ==> whole.durations[i] == whole.durations.take(s as int)[i]);
    lemma_elapsed_same(whole.durations, before.durations, s);
    let e = samples_before(t, k + 1) as int;
    assert(forall|i: int| 0 <= i < e ==> whole.offsets[i] == whole.offsets.take(e)[i]);
    assert(forall|i: int| 0 <= i < e ==> whole.durations[i] == whole.durations.take(e)[i]);
    assert(now.offsets[s as int] == offset);
    law_no_picture_is_shown_before_it_decodes(t);
    assert(0 <= whole.offsets[s as int] + delay_of(t));
    assert(before.decode_time >= 0);
    assert(timing.compositions[s as int] == offset + delay_of(t));
    if split_at(t, k as int) {
        assert(now.offsets[s as int + 1] == offset);
        assert(now.durations[s as int] == t.duration_of(k as int) / 2);
        assert(elapsed(whole.durations, s + 1) == elapsed(whole.durations, s)
            + whole.durations[s as int]);
        assert(timing.compositions[s as int + 1] == offset + delay_of(t));
    }
}

/// Splitting field pairs moves sample boundaries and nothing else: the unit is as
/// long and is held back as far as with its pairs kept whole.
pub proof fn law_splitting_keeps_the_total(t: TimelineView)
    requires
        tellable(t),
    ensures
        ({
            let split = TimelineView { split_field_samples: true, ..t };
            let whole = TimelineView { split_field_samples: false, ..t };
            &&& total(timing_of(split, UnitLeadIn::Nothing).durations) == total(
                timing_of(whole, UnitLeadIn::Nothing).durations,
            )
            &&& delay_of(split) == delay_of(whole)
        }),
{
    let split = TimelineView { split_field_samples: true, ..t };
    let whole = TimelineView { split_field_samples: false, ..t };
    let n = t.presentation_indices.len();
    lemma_same_earliest(split, whole, n);
    lemma_split_laid(split, whole, n);
    lemma_laid_elapsed(split, n);
    lemma_laid_elapsed(whole, n);
}

/// Splitting does not change when the first picture is shown.
proof fn lemma_same_earliest(a: TimelineView, b: TimelineView, n: nat)
    requires
        a.presentation_times == b.presentation_times,
        a.presentation_indices == b.presentation_indices,
        a.sample_duration == b.sample_duration,
    ensures
        a.earliest(n) == b.earliest(n),
    decreases n,
{
    assert(forall|i: int| a.time_of(i) == b.time_of(i));
    if n > 1 {
        lemma_same_earliest(a, b, (n - 1) as nat);
    }
}

/// Splitting changes neither the decode timeline nor the least offset.
proof fn lemma_split_laid(split: TimelineView, whole: TimelineView, n: nat)
    requires
        n <= whole.presentation_indices.len() <= 0x1000_0000,
        split == (TimelineView { split_field_samples: true, ..whole }),
        !whole.split_field_samples,
        split.first_time() == whole.first_time(),
    ensures
        laid(split, n).decode_time == laid(whole, n).decode_time,
        least(laid(split, n).offsets, laid(split, n).offsets.len()) == least(
            laid(whole, n).offsets,
            laid(whole, n).offsets.len(),
        ),
    decreases n,
{
    if n > 0 {
        let m = (n - 1) as nat;
        lemma_split_laid(split, whole, m);
        assert(split.time_of(n - 1) == whole.time_of(n - 1));
        assert(split.duration_of(n - 1) == whole.duration_of(n - 1));
        let a = laid(split, m).offsets;
        let b = laid(whole, m).offsets;
        let a1 = laid(split, n).offsets;
        let b1 = laid(whole, n).offsets;
        let offset = whole.time_of(n - 1) - whole.first_time() - laid(whole, m).decode_time;
        lemma_least_same(a, a1, a.len());
        lemma_least_same(b, b1, b.len());
        assert(b1 == b.push(offset));
        assert(least(b1, b1.len()) == if offset < least(b1, b.len()) {
            offset
        } else {
            least(b1, b.len())
        });
        assert(a1[a.len() as int] == offset);
        assert(least(a1, a.len() + 1) == if offset < least(a1, a.len()) {
            offset
        } else {
            least(a1, a.len())
        });
        if split_at(split, n - 1) {
            assert(a1 == a.push(offset).push(offset));
            assert(a1[a.len() as int + 1] == offset);
            assert(least(a1, a.len() + 2) == if offset < least(a1, a.len() + 1) {
                offset
            } else {
                least(a1, a.len() + 1)
            });
        }
    }
}

/// Changing one duration changes every sum that holds it by as much.
proof fn lemma_elapsed_update(durations: Seq<u32>, k: int, v: u32, n: nat)
    requires
        0 <= k < durations.len(),
        n <= durations.len(),
    ensures
        elapsed(durations.update(k, v), n) == elapsed(durations, n) + if k < n {
            v - durations[k]
        } else {
            0
        },
    decreases n,
{
    if n > 0 {
        lemma_elapsed_update(durations, k, v, (n - 1) as nat);
    }
}

/// Sums over durations that some were put among.
proof fn lemma_elapsed_repeated(s: Seq<u32>, index: int, copies: nat, v: u32, n: nat)
    requires
        0 <= index <= s.len(),
        n <= s.len() + copies,
    ensures
        elapsed(repeated(s, index, copies, v), n) == if n <= index {
            elapsed(s, n)
        } else if n <= index + copies {
            elapsed(s, index as nat) + (n - index) * v
        } else {
            elapsed(s, (n - copies) as nat) + copies * v
        },
    decreases n,
{
    let r = repeated(s, index, copies, v);
    if n > 0 {
        lemma_elapsed_repeated(s, index, copies, v, (n - 1) as nat);
        let last = r[n - 1];
        if n <= index {
            assert(last == s[n - 1]);
        } else if n <= index + copies {
            assert(last == v);
            assert((n - 1 - index) * v + v == (n - index) * v) by (nonlinear_arith);
            if n - 1 == index {
                assert(0 * v == 0);
            }
        } else {
            assert(last == s[n - 1 - copies]);
            if n - 1 == index + copies {
                assert((n - 1 - index) * v == copies * v);
            }
        }
    } else if copies == 0 {
        assert(0 * v == 0);
    }
}

/// Recovery copies change neither the unit's duration nor when any other sample is
/// shown, and each of them is shown a tick after the one before it, behind
/// everything decoded ahead of them.
pub proof fn law_recovery_copies_move_nothing(timing: TimingView, index: int, copies: nat)
    requires
        timing.durations.len() == timing.compositions.len(),
        0 <= index <= timing.durations.len(),
        copies <= u32::MAX,
        with_copies(timing, index, copies) is Ok,
    ensures
        ({
            let after = with_copies(timing, index, copies)->Ok_0;
            &&& total(after.durations) == total(timing.durations)
            &&& forall|i: int|
                0 <= i < index ==> #[trigger] shown_at(after, i) == shown_at(timing, i)
            &&& forall|i: int|
                index <= i < timing.durations.len() ==> shown_at(after, i + copies)
                    == #[trigger] shown_at(timing, i)
            &&& forall|i: int|
                0 <= i < copies ==> #[trigger] shown_at(after, index + i) == shown_at(after, index)
                    + i
            &&& copies > 0 ==> forall|i: int|
                0 <= i < index ==> #[trigger] shown_at(timing, i) < shown_at(after, index)
        }),
{
    let lending = lent(timing, index, copies as u32)->Ok_0;
    let after = copied(lending, index, copies);
    let len = timing.durations.len();
    let d = lending.durations;
    let changed = if index == len {
        len - 1
    } else {
        index
    };
    assert(d == timing.durations.update(
        changed,
        (timing.durations[changed] - copies) as u32,
    ));
    let offset = copy_offset(lending, index);
    assert(copies * 1 == copies);
    assert forall|n: nat| n <= len implies elapsed(d, n) == elapsed(timing.durations, n) - (
    if changed < n {
        copies as int
    } else {
        0
    }) by {
        lemma_elapsed_update(
            timing.durations,
            changed,
            (timing.durations[changed] - copies) as u32,
            n,
        );
    }
    lemma_elapsed_repeated(d, index, copies, 1, after.durations.len());
    assert(after.durations.len() == len + copies);
    assert((after.durations.len() - index) * 1 == after.durations.len() - index);
    assert(elapsed(d, len) == elapsed(timing.durations, len) - copies);
    if index == len {
        assert(after.durations.len() <= index + copies);
    }
    assert forall|i: int| 0 <= i < index implies #[trigger] shown_at(after, i) == shown_at(
        timing,
        i,
    ) by {
        lemma_elapsed_repeated(d, index, copies, 1, i as nat);
        assert(after.compositions[i] == lending.compositions[i]);
    }
    assert forall|i: int| index <= i < len implies shown_at(after, i + copies)
        == #[trigger] shown_at(timing, i) by {
        lemma_elapsed_repeated(d, index, copies, 1, (i + copies) as nat);
        assert(((i + copies) - index) * 1 == (i + copies) - index);
        assert(after.compositions[i + copies] == lending.compositions[i]);
    }
    assert forall|i: int| 0 <= i < copies implies #[trigger] shown_at(after, index + i) == elapsed(
        d,
        index as nat,
    ) + i + offset by {
        lemma_elapsed_repeated(d, index, copies, 1, (index + i) as nat);
        assert(i * 1 == i);
        assert(after.compositions[index + i] == offset as u32);
    }
    if copies > 0 {
        assert(shown_at(after, index + 0) == elapsed(d, index as nat) + offset);
        assert forall|i: int| 0 <= i < index implies #[trigger] shown_at(timing, i) < shown_at(
            after,
            index,
        ) by {
            lemma_last_shown(lending, index as nat);
            assert(shown_at(lending, i) <= last_shown(lending, index as nat));
            assert(elapsed(d, i as nat) == elapsed(timing.durations, i as nat));
        }
    }
}

/// No sample is shown after the last shown.
proof fn lemma_last_shown(timing: TimingView, n: nat)
    ensures
        forall|i: int| 0 <= i < n ==> #[trigger] shown_at(timing, i) <= last_shown(timing, n),
    decreases n,
{
    if n > 0 {
        lemma_last_shown(timing, (n - 1) as nat);
    }
}

/// The opening sample makes a unit span what the source did: the ticks in front of
/// its first picture on top of the pictures themselves, whoever covers them. A clone
/// lasts a tick at least, so behind one there are to be ticks in front, or a split pair
/// long enough to lend that tick.
pub proof fn law_the_lead_in_is_covered(t: TimelineView, lead_in: UnitLeadIn)
    requires
        tellable(t),
        lead_fits(t, lead_in),
        lead_in !is Nothing,
        t.presentation_indices.len() > 0,
        lead_in is IdrClone ==> if opens_on_pair(t) {
            3 <= t.duration_of(0) || (1 <= lead_of(t) && 1 <= t.duration_of(0))
        } else {
            1 <= lead_of(t)
        },
    ensures
        total(timing_of(t, lead_in).durations) == lead_of(t) + total(
            timing_of(t, UnitLeadIn::Nothing).durations,
        ),
{
    let base = base_timing(t);
    let d = base.durations;
    let lead = lead_of(t);
    let n = t.presentation_indices.len();
    lemma_laid_lengths(t, n);
    if opens_on_pair(t) {
        lemma_laid_grows(t, 1, n);
        lemma_laid_lengths(t, 1);
        assert(samples_before(t, 1) == samples_before(t, 0) + 2);
    }
    match lead_in {
        UnitLeadIn::IdrClone => {
            if opens_on_pair(t) {
                let held = longer(lead - d[0], 1);
                let third = longer(lead + d[1] - held, 1) as u32;
                let u = d.update(1, held as u32);
                lemma_elapsed_update(d, 1, held as u32, d.len());
                assert(u.insert(2, third) =~= repeated(u, 2, 1, third));
                lemma_elapsed_repeated(u, 2, 1, third, d.len() + 1);
                assert((d.len() + 1 - 2) * third == (d.len() - 1) * third);
                assert(1 * third == third);
                if d.len() == 2 {
                    assert(elapsed(u, 2) == elapsed(u, d.len()));
                }
                assert(d[0] + d[1] >= 0);
                lemma_pair_halves(t);
            } else {
                let first = longer(lead, 1) as u32;
                assert(d.insert(0, first) =~= repeated(d, 0, 1, first));
                lemma_elapsed_repeated(d, 0, 1, first, d.len() + 1);
                assert(1 * first == first);
                if d.len() == 0 {
                    assert(elapsed(d, 0) == 0);
                }
            }
        },
        UnitLeadIn::FirstPicture => {
            lemma_elapsed_update(d, 0, (d[0] + lead) as u32, d.len());
        },
        UnitLeadIn::Nothing => {},
    }
}

/// The second field of a split pair is shown for as long as the first, or a tick
/// longer.
proof fn lemma_pair_halves(t: TimelineView)
    requires
        opens_on_pair(t),
        t.presentation_indices.len() <= 0x1000_0000,
    ensures
        base_timing(t).durations.len() >= 2,
        base_timing(t).durations[0] <= base_timing(t).durations[1],
        base_timing(t).durations[0] + base_timing(t).durations[1] == t.duration_of(0),
{
    let n = t.presentation_indices.len();
    lemma_laid_grows(t, 1, n);
    lemma_laid_lengths(t, 1);
    lemma_laid_lengths(t, n);
    assert(samples_before(t, 1) == samples_before(t, 0) + 2);
    let d = t.duration_of(0);
    let one = laid(t, 1).durations;
    assert(laid(t, 0).durations.len() == 0);
    assert(one == laid(t, 0).durations.push(d / 2).push((d - d / 2) as u32));
    assert(one[0] == d / 2 && one[1] == d - d / 2);
    assert(laid(t, n).durations[0] == laid(t, n).durations.take(2)[0]);
    assert(laid(t, n).durations[1] == laid(t, n).durations.take(2)[1]);
}

} // verus!
