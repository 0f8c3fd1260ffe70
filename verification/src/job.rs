//! The pictures of a unit, each as a job that can be converted by itself.
use crate::container::fmp4::boxes;
use crate::container::fmp4::boxes::Buf;
use crate::error::Error;
use crate::mpeg2::headers::SequenceDescription;
use crate::transcode::options::{OpenGopRecovery, Stats, TranscodeOptions, VideoMode};
use vstd::prelude::*;

verus! {

/// How many short-term frames a decoder holds.
pub const MAX_SHORT_TERM_FRAMES: usize = 3;

/// Where the references of a picture stand in its two lists.
#[derive(Clone, Copy, PartialEq, Eq, Debug, Structural)]
pub struct RefLayout {
    /// How many entries each list has.
    pub count: u32,
    pub fwd_l0: i32,
    pub fwd_l1: i32,
    /// Negative where there is no picture to predict backward from.
    pub bwd_l0: i32,
    pub bwd_l1: i32,
    /// The index that carries the flat prediction.
    pub flat: i32,
    /// How far back the picture lies that is to lead list 1.
    pub l1_short_term_delta: Option<u32>,
    /// The second field of a random access point: its own first field is all it
    /// predicts from, and the flat prediction is on list 1.
    pub anchor_second_field: bool,
}

/// The short-term frames that a decoder holds, by `frame_num`, oldest first.
#[derive(Clone, Copy, PartialEq, Eq, Debug)]
pub struct ShortTermFrames {
    pub frames: [u32; 3],
    pub count: usize,
}

impl View for ShortTermFrames {
    type V = Seq<u32>;

    open spec fn view(&self) -> Seq<u32> {
        self.frames@.take(self.count as int)
    }
}

/// The frames with one more, the oldest pushed out where there is no room for it.
pub open spec fn pushed_frame(frames: Seq<u32>, frame_num: u32) -> Seq<u32> {
    if frames.len() < 3 {
        frames.push(frame_num)
    } else {
        frames.skip(1).push(frame_num)
    }
}

impl ShortTermFrames {
    /// No more frames than there is room for.
    pub open spec fn wf(self) -> bool {
        self.count <= 3
    }

    pub fn new() -> (frames: Self)
        ensures
            frames.wf(),
            frames@ == Seq::<u32>::empty(),
    {
        let frames = ShortTermFrames { frames: [0, 0, 0], count: 0 };
        assert(frames@ =~= Seq::<u32>::empty());
        frames
    }

    pub fn clear(&mut self)
        ensures
            final(self).wf(),
            final(self)@ == Seq::<u32>::empty(),
    {
        self.count = 0;
        assert(self@ =~= Seq::<u32>::empty());
    }

    /// Hold one more frame.
    pub fn push(&mut self, frame_num: u32)
        requires
            old(self).wf(),
        ensures
            final(self).wf(),
            final(self)@ == pushed_frame(old(self)@, frame_num),
    {
        if self.count < MAX_SHORT_TERM_FRAMES {
            let at: usize = self.count;
            self.frames[at] = frame_num;
            self.count = at + 1;
        } else {
            self.frames[0] = self.frames[1];
            self.frames[1] = self.frames[2];
            self.frames[2] = frame_num;
        }
        assert(self@ =~= pushed_frame(old(self)@, frame_num));
    }
}

/// The window never holds more frames than a decoder does, and always the newest.
pub proof fn law_window_slides(frames: Seq<u32>, frame_num: u32)
    requires
        frames.len() <= 3,
    ensures
        pushed_frame(frames, frame_num).len() == if frames.len() < 3 {
            frames.len() + 1
        } else {
            3
        },
        pushed_frame(frames, frame_num).last() == frame_num,
        forall|i: int|
            0 <= i < pushed_frame(frames, frame_num).len() - 1 ==> frames.contains(
                #[trigger] pushed_frame(frames, frame_num)[i],
            ),
{
    let after = pushed_frame(frames, frame_num);
    assert forall|i: int| 0 <= i < after.len() - 1 implies frames.contains(#[trigger] after[i]) by {
        if frames.len() < 3 {
            assert(after[i] == frames[i]);
        } else {
            assert(after[i] == frames[i + 1]);
        }
    }
}

/// What a conversion carries from one unit to the next.
#[derive(Clone, Copy, Debug)]
pub struct TranscoderState {
    /// Whether parameter sets have gone out.
    pub initialized: bool,
    /// Whether the next picture coded has to be one that opens the decoded picture
    /// buffer.
    pub awaiting_idr: bool,
    /// What the parameter sets say.
    pub description: SequenceDescription,
    pub prev_ref_frame_num: u32,
    pub short_term_count: u32,
    pub newest_short_term: u32,
    pub short_term: ShortTermFrames,
    /// The display index that the current group of pictures starts from.
    pub gop_base: u32,
    pub max_tr_in_gop: u32,
    pub seen_picture: bool,
}

/// The state as a mathematical value.
#[verifier::ext_equal]
pub struct StateView {
    pub initialized: bool,
    pub awaiting_idr: bool,
    pub description: SequenceDescription,
    pub prev_ref_frame_num: u32,
    pub short_term_count: u32,
    pub newest_short_term: u32,
    pub short_term: Seq<u32>,
    pub gop_base: int,
    pub max_tr_in_gop: u32,
    pub seen_picture: bool,
}

impl View for TranscoderState {
    type V = StateView;

    open spec fn view(&self) -> StateView {
        StateView {
            initialized: self.initialized,
            awaiting_idr: self.awaiting_idr,
            description: self.description,
            prev_ref_frame_num: self.prev_ref_frame_num,
            short_term_count: self.short_term_count,
            newest_short_term: self.newest_short_term,
            short_term: self.short_term@,
            gop_base: self.gop_base as int,
            max_tr_in_gop: self.max_tr_in_gop,
            seen_picture: self.seen_picture,
        }
    }
}

/// The state of a conversion of which nothing has gone out, or which starts over: the
/// decoded picture buffer is empty and the display order unstarted.
pub open spec fn opening(initialized: bool, description: SequenceDescription) -> StateView {
    StateView {
        initialized,
        awaiting_idr: true,
        description,
        prev_ref_frame_num: 0,
        short_term_count: 0,
        newest_short_term: 0,
        short_term: seq![],
        gop_base: 0,
        max_tr_in_gop: 0,
        seen_picture: false,
    }
}

impl StateView {
    /// The counts are ones that the conversion arrives at.
    pub open spec fn wf(self) -> bool {
        &&& self.prev_ref_frame_num < 256
        &&& self.newest_short_term < 256
        &&& self.short_term_count == self.short_term.len()
        &&& self.short_term.len() <= 3
        &&& forall|i: int| 0 <= i < self.short_term.len() ==> #[trigger] self.short_term[i] < 256
        &&& self.max_tr_in_gop < 1024
        // The newest frame of the chain is the last reference, and there is one as soon
        // as the buffer has been opened.
        &&& self.short_term_count > 0 ==> self.newest_short_term == self.prev_ref_frame_num
        &&& !self.awaiting_idr ==> self.short_term_count > 0
    }
}

impl TranscoderState {
    /// The state is one that the conversion arrives at.
    pub open spec fn wf(self) -> bool {
        self.short_term.wf() && self@.wf()
    }

    pub fn new() -> (state: Self)
        ensures
            state.wf(),
            state@.initialized == false,
            state@ == opening(false, state@.description),
    {
        let state = TranscoderState {
            initialized: false,
            awaiting_idr: true,
            description: SequenceDescription::default(),
            prev_ref_frame_num: 0,
            short_term_count: 0,
            newest_short_term: 0,
            short_term: ShortTermFrames::new(),
            gop_base: 0,
            max_tr_in_gop: 0,
            seen_picture: false,
        };
        assert(state@ =~= opening(false, state@.description));
        state
    }

    /// What a stream that restarts at a random access point begins from: nothing but
    /// the parameter sets that are out.
    pub fn restarted(&self) -> (state: Self)
        ensures
            state.wf(),
            state@ == opening(self.initialized, self.description),
    {
        let fresh = TranscoderState::new();
        let state = TranscoderState {
            initialized: self.initialized,
            description: self.description,
            ..fresh
        };
        assert(state@ =~= opening(self.initialized, self.description));
        state
    }
}

/// Everything a picture is coded against.
#[derive(Clone, Copy, Debug)]
pub struct PictureContext {
    pub frame_num: u32,
    pub poc: u32,
    pub is_reference: bool,
    pub layout: RefLayout,
    pub short_term: ShortTermFrames,
    pub options: TranscodeOptions,
    pub mbaff: bool,
    pub real_idr: bool,
    pub recovery_intra: bool,
    /// The scaling list that the parameter sets declare.
    pub weight_scale: [i32; 64],
    /// How many coded pictures at the end of the job belong to it: a frame or two
    /// fields.
    pub picture_count: u32,
}

/// The context as a mathematical value.
#[verifier::ext_equal]
pub struct ContextView {
    pub frame_num: u32,
    pub poc: u32,
    pub is_reference: bool,
    pub layout: RefLayout,
    pub short_term: Seq<u32>,
    pub options: TranscodeOptions,
    pub mbaff: bool,
    pub real_idr: bool,
    pub recovery_intra: bool,
    pub weight_scale: Seq<i32>,
    pub picture_count: u32,
}

impl View for PictureContext {
    type V = ContextView;

    open spec fn view(&self) -> ContextView {
        ContextView {
            frame_num: self.frame_num,
            poc: self.poc,
            is_reference: self.is_reference,
            layout: self.layout,
            short_term: self.short_term@,
            options: self.options,
            mbaff: self.mbaff,
            real_idr: self.real_idr,
            recovery_intra: self.recovery_intra,
            weight_scale: self.weight_scale@,
            picture_count: self.picture_count,
        }
    }
}

/// How many 32-bit numbers stand in front of a job.
pub const JOB_WORDS: usize = 91;

/// How many bytes stand in front of a job.
pub const JOB_HEADER_LEN: usize = 364;

/// A choice as a number.
pub open spec fn bool_word(b: bool) -> u32 {
    if b {
        1
    } else {
        0
    }
}

/// How a recovery is made, as a number.
pub open spec fn recovery_word(recovery: OpenGopRecovery) -> u32 {
    match recovery {
        OpenGopRecovery::Idr => 0,
        OpenGopRecovery::RecoveryPoint => 1,
        OpenGopRecovery::Discard => 2,
    }
}

/// Which path the video takes, as a number.
pub open spec fn video_word(video: VideoMode) -> u32 {
    match video {
        VideoMode::Transcode => 0,
        VideoMode::Passthrough => 1,
    }
}

/// The frame at `i`, or zero where there is none.
pub open spec fn frame_word(frames: Seq<u32>, i: int) -> u32 {
    if i < frames.len() {
        frames[i]
    } else {
        0
    }
}

/// The numbers that say what the picture is.
pub open spec fn picture_words(c: ContextView) -> Seq<u32> {
    seq![
        c.frame_num,
        c.poc,
        bool_word(c.is_reference),
        bool_word(c.mbaff),
        bool_word(c.real_idr),
        bool_word(c.recovery_intra),
        c.picture_count,
    ]
}

/// The numbers that say where the references stand.
pub open spec fn layout_words(l: RefLayout) -> Seq<u32> {
    seq![
        l.count,
        l.fwd_l0 as u32,
        l.fwd_l1 as u32,
        l.bwd_l0 as u32,
        l.bwd_l1 as u32,
        l.flat as u32,
        bool_word(l.l1_short_term_delta is Some),
        match l.l1_short_term_delta {
            Some(delta) => delta,
            None => 0,
        },
        bool_word(l.anchor_second_field),
    ]
}

/// The numbers that say which frames are held.
pub open spec fn frame_words(frames: Seq<u32>) -> Seq<u32> {
    seq![
        frames.len() as u32,
        frame_word(frames, 0),
        frame_word(frames, 1),
        frame_word(frames, 2),
    ]
}

/// The numbers that say what was asked for.
pub open spec fn option_words(o: TranscodeOptions) -> Seq<u32> {
    seq![
        (o.oversample / 0x1_0000_0000) as u32,
        (o.oversample % 0x1_0000_0000) as u32,
        (o.recovery_interval as u64 / 0x1_0000_0000) as u32,
        (o.recovery_interval as u64 % 0x1_0000_0000) as u32,
        recovery_word(o.open_gop_recovery),
        bool_word(o.split_field_samples),
        video_word(o.video),
    ]
}

/// The numbers that stand in front of a job, but for the scaling list.
pub open spec fn front_words(c: ContextView) -> Seq<u32> {
    picture_words(c) + layout_words(c.layout) + frame_words(c.short_term) + option_words(c.options)
}

/// Numbers, most significant byte first.
pub open spec fn word_bytes(words: Seq<u32>) -> Seq<u8>
    decreases words.len(),
{
    if words.len() == 0 {
        seq![]
    } else {
        word_bytes(words.drop_last()) + boxes::be32(words.last())
    }
}

/// The numbers that stand in front of a job.
#[verifier::opaque]
pub open spec fn header_words(c: ContextView) -> Seq<u32> {
    front_words(c) + Seq::new(64, |i: int| c.weight_scale[i] as u32)
}

/// What stands in front of a job.
pub open spec fn header_bytes(c: ContextView) -> Seq<u8> {
    word_bytes(header_words(c))
}

/// The number at `at`, most significant byte first.
pub open spec fn word_at(job: Seq<u8>, at: int) -> u32 {
    (0x100_0000 * job[at] + 0x1_0000 * job[at + 1] + 256 * job[at + 2] + job[at + 3]) as u32
}

/// The numbers in front of a job.
pub open spec fn words_of(job: Seq<u8>) -> Seq<u32> {
    Seq::new(91, |i: int| word_at(job, 4 * i))
}

/// The numbers are ones that a context is written as.
pub open spec fn readable(w: Seq<u32>) -> bool {
    &&& w[2] <= 1 && w[3] <= 1 && w[4] <= 1 && w[5] <= 1
    &&& 1 <= w[6] <= 2
    &&& w[13] <= 1 && w[15] <= 1
    &&& w[16] <= 3
    &&& 0x1_0000_0000 * w[22] + w[23] <= usize::MAX
    &&& w[24] <= 2 && w[25] <= 1 && w[26] <= 1
}

/// The context that the numbers say.
pub open spec fn context_of(w: Seq<u32>) -> ContextView {
    ContextView {
        frame_num: w[0],
        poc: w[1],
        is_reference: w[2] == 1,
        layout: RefLayout {
            count: w[7],
            fwd_l0: w[8] as i32,
            fwd_l1: w[9] as i32,
            bwd_l0: w[10] as i32,
            bwd_l1: w[11] as i32,
            flat: w[12] as i32,
            l1_short_term_delta: if w[13] == 1 {
                Some(w[14])
            } else {
                None
            },
            anchor_second_field: w[15] == 1,
        },
        short_term: w.subrange(17, 17 + w[16] as int),
        options: TranscodeOptions {
            oversample: (0x1_0000_0000 * w[20] + w[21]) as u64,
            recovery_interval: (0x1_0000_0000 * w[22] + w[23]) as usize,
            open_gop_recovery: if w[24] == 0 {
                OpenGopRecovery::Idr
            } else if w[24] == 1 {
                OpenGopRecovery::RecoveryPoint
            } else {
                OpenGopRecovery::Discard
            },
            split_field_samples: w[25] == 1,
            video: if w[26] == 0 {
                VideoMode::Transcode
            } else {
                VideoMode::Passthrough
            },
        },
        mbaff: w[3] == 1,
        real_idr: w[4] == 1,
        recovery_intra: w[5] == 1,
        weight_scale: Seq::new(64, |i: int| w[27 + i] as i32),
        picture_count: w[6],
    }
}

/// The context in front of a job, if one can be read there.
pub open spec fn job_context(job: Seq<u8>) -> Option<ContextView> {
    if job.len() >= 364 && readable(words_of(job)) {
        Some(context_of(words_of(job)))
    } else {
        None
    }
}

/// Append a number to a list of words.
proof fn lemma_word_bytes_push(words: Seq<u32>, word: u32)
    ensures
        word_bytes(words.push(word)) == word_bytes(words) + boxes::be32(word),
{
    assert(words.push(word).drop_last() =~= words);
}

/// Numbers take four bytes each, and are read back where they were written.
proof fn lemma_word_bytes(words: Seq<u32>)
    ensures
        word_bytes(words).len() == 4 * words.len(),
        forall|i: int|
            0 <= i < words.len() ==> #[trigger] word_at(word_bytes(words), 4 * i) == words[i],
    decreases words.len(),
{
    if words.len() > 0 {
        let before = words.drop_last();
        lemma_word_bytes(before);
        let bytes = word_bytes(words);
        let last = words.last();
        assert forall|i: int| 0 <= i < words.len() implies #[trigger] word_at(bytes, 4 * i)
            == words[i] by {
            if i < before.len() {
                assert(word_at(word_bytes(before), 4 * i) == before[i]);
            } else {
                assert(bytes[4 * i] == boxes::be32(last)[0]);
                assert(bytes[4 * i + 1] == boxes::be32(last)[1]);
                assert(bytes[4 * i + 2] == boxes::be32(last)[2]);
                assert(bytes[4 * i + 3] == boxes::be32(last)[3]);
            }
        }
    }
}

/// A signed number comes back out of an unsigned one.
proof fn lemma_signed(v: i32)
    ensures
        (v as u32) as i32 == v,
{
    assert((v as u32) as i32 == v) by (bit_vector);
}

/// A context that was put in front of a job is read back as it was, whatever the job
/// holds behind it.
pub proof fn law_context_survives(c: ContextView, rest: Seq<u8>)
    requires
        c.short_term.len() <= 3,
        c.weight_scale.len() == 64,
        1 <= c.picture_count <= 2,
    ensures
        header_bytes(c).len() == JOB_HEADER_LEN,
        job_context(header_bytes(c) + rest) == Some(c),
{
    let w = header_words(c);
    lemma_header_words(c);
    lemma_word_bytes(w);
    let job = header_bytes(c) + rest;
    assert(words_of(job) =~= w) by {
        assert forall|i: int| 0 <= i < 91 implies words_of(job)[i] == w[i] by {
            assert(word_at(header_bytes(c), 4 * i) == w[i]);
        }
    }
    lemma_layout_read_back(c);
    lemma_options_read_back(c);
    lemma_rest_read_back(c);
    assert(context_of(w) =~= c);
}

/// Where each number stands.
proof fn lemma_header_words(c: ContextView)
    requires
        c.weight_scale.len() == 64,
    ensures
        header_words(c).len() == 91,
        forall|i: int|
            0 <= i < 7 ==> #[trigger] header_words(c)[i] == picture_words(c)[i],
        forall|i: int|
            7 <= i < 16 ==> #[trigger] header_words(c)[i] == layout_words(c.layout)[i - 7],
        forall|i: int|
            16 <= i < 20 ==> #[trigger] header_words(c)[i] == frame_words(c.short_term)[i - 16],
        forall|i: int|
            20 <= i < 27 ==> #[trigger] header_words(c)[i] == option_words(c.options)[i - 20],
        forall|i: int|
            27 <= i < 91 ==> #[trigger] header_words(c)[i] == c.weight_scale[i - 27] as u32,
{
    reveal(header_words);
}

/// The layout is read back as it was.
proof fn lemma_layout_read_back(c: ContextView)
    requires
        c.weight_scale.len() == 64,
    ensures
        context_of(header_words(c)).layout == c.layout,
        header_words(c)[13] <= 1,
        header_words(c)[15] <= 1,
{
    lemma_header_words(c);
    lemma_signed(c.layout.fwd_l0);
    lemma_signed(c.layout.fwd_l1);
    lemma_signed(c.layout.bwd_l0);
    lemma_signed(c.layout.bwd_l1);
    lemma_signed(c.layout.flat);
}

/// What was asked for is read back as it was.
proof fn lemma_options_read_back(c: ContextView)
    requires
        c.weight_scale.len() == 64,
    ensures
        context_of(header_words(c)).options == c.options,
        ({
            let w = header_words(c);
            &&& 0x1_0000_0000 * w[22] + w[23] <= usize::MAX
            &&& w[24] <= 2
            &&& w[25] <= 1
            &&& w[26] <= 1
        }),
{
    lemma_header_words(c);
    let w = header_words(c);
    let o = c.options;
    let n = o.recovery_interval as u64;
    assert(0x1_0000_0000 * w[20] + w[21] == o.oversample);
    assert(0x1_0000_0000 * w[22] + w[23] == n);
}

/// The frames, the scaling list and the rest are read back as they were.
proof fn lemma_rest_read_back(c: ContextView)
    requires
        c.short_term.len() <= 3,
        c.weight_scale.len() == 64,
        1 <= c.picture_count <= 2,
    ensures
        ({
            let w = header_words(c);
            let back = context_of(w);
            &&& back.short_term == c.short_term
            &&& back.weight_scale == c.weight_scale
            &&& back.frame_num == c.frame_num && back.poc == c.poc
            &&& back.is_reference == c.is_reference && back.mbaff == c.mbaff
            &&& back.real_idr == c.real_idr && back.recovery_intra == c.recovery_intra
            &&& back.picture_count == c.picture_count
            &&& w[2] <= 1 && w[3] <= 1 && w[4] <= 1 && w[5] <= 1
            &&& 1 <= w[6] <= 2
            &&& w[16] <= 3
        }),
{
    lemma_header_words(c);
    let w = header_words(c);
    let back = context_of(w);
    assert forall|i: int| 0 <= i < 64 implies back.weight_scale[i] == c.weight_scale[i] by {
        assert(w[27 + i] == c.weight_scale[i] as u32);
        lemma_signed(c.weight_scale[i]);
    }
    assert(back.weight_scale =~= c.weight_scale);
    assert(w[16] == c.short_term.len());
    assert(w[17] == frame_word(c.short_term, 0));
    assert(w[18] == frame_word(c.short_term, 1));
    assert(w[19] == frame_word(c.short_term, 2));
    assert(back.short_term =~= c.short_term);
}

impl RefLayout {
    /// Append the numbers that say where the references stand.
    fn push_words(&self, words: &mut Vec<u32>)
        ensures
            final(words)@ == old(words)@ + layout_words(*self),
    {
        let layout: [u32; 9] = [
            self.count,
            self.fwd_l0 as u32,
            self.fwd_l1 as u32,
            self.bwd_l0 as u32,
            self.bwd_l1 as u32,
            self.flat as u32,
            word_of(self.l1_short_term_delta.is_some()),
            match self.l1_short_term_delta {
                Some(delta) => delta,
                None => 0,
            },
            word_of(self.anchor_second_field),
        ];
        assert(layout@ =~= layout_words(*self));
        words.extend_from_slice(&layout);
        assert(words@ =~= old(words)@ + layout_words(*self));
    }
}

impl ShortTermFrames {
    /// The frame at `i`, or zero where there is none.
    fn word(&self, i: usize) -> (word: u32)
        requires
            self.wf(),
            i < 3,
        ensures
            word == frame_word(self@, i as int),
    {
        if i < self.count {
            self.frames[i]
        } else {
            0
        }
    }

    /// Append the numbers that say which frames are held.
    fn push_words(&self, words: &mut Vec<u32>)
        requires
            self.wf(),
        ensures
            final(words)@ == old(words)@ + frame_words(self@),
    {
        let frames: [u32; 4] = [self.count as u32, self.word(0), self.word(1), self.word(2)];
        assert(frames@ =~= frame_words(self@));
        words.extend_from_slice(&frames);
        assert(words@ =~= old(words)@ + frame_words(self@));
    }
}

impl PictureContext {
    /// The window of short-term frames is well formed.
    pub open spec fn wf(self) -> bool {
        self.short_term.wf()
    }

    /// Append what stands in front of a job.
    pub fn encode(&self, out: &mut Buf)
        requires
            self.wf(),
        ensures
            final(out)@ == old(out)@ + header_bytes(self@),
    {
        let words = self.words();
        let mut i: usize = 0;
        assert(out@ + word_bytes(words@.take(0)) =~= out@);
        while i < words.len()
            invariant
                i <= words@.len(),
                out@ == old(out)@ + word_bytes(words@.take(i as int)),
            decreases words@.len() - i,
        {
            out.u32(words[i]);
            proof {
                lemma_word_bytes_push(words@.take(i as int), words@[i as int]);
                assert(words@.take(i + 1) =~= words@.take(i as int).push(words@[i as int]));
            }
            i = i + 1;
            assert(out@ =~= old(out)@ + word_bytes(words@.take(i as int)));
        }
        assert(words@.take(words@.len() as int) =~= words@);
    }

    /// The numbers that stand in front of a job.
    fn words(&self) -> (words: Vec<u32>)
        requires
            self.wf(),
        ensures
            words@ == header_words(self@),
    {
        let mut words: Vec<u32> = Vec::new();
        let picture: [u32; 7] = [
            self.frame_num,
            self.poc,
            word_of(self.is_reference),
            word_of(self.mbaff),
            word_of(self.real_idr),
            word_of(self.recovery_intra),
            self.picture_count,
        ];
        assert(picture@ =~= picture_words(self@));
        words.extend_from_slice(&picture);
        assert(words@ =~= picture_words(self@));
        self.layout.push_words(&mut words);
        self.short_term.push_words(&mut words);
        self.options_words(&mut words);
        let ghost front = front_words(self@);
        assert(words@ == front);
        let mut i: usize = 0;
        while i < 64
            invariant
                i <= 64,
                words@ == front + Seq::new(i as nat, |j: int| self.weight_scale@[j] as u32),
            decreases 64 - i,
        {
            words.push(self.weight_scale[i] as u32);
            i = i + 1;
            assert(words@ =~= front + Seq::new(i as nat, |j: int| self.weight_scale@[j] as u32));
        }
        reveal(header_words);
        assert(words@ =~= header_words(self@));
        words
    }

    /// Append the numbers that say what was asked for.
    fn options_words(&self, words: &mut Vec<u32>)
        ensures
            final(words)@ == old(words)@ + option_words(self.options),
    {
        let options: [u32; 7] = [
            (self.options.oversample / 0x1_0000_0000) as u32,
            (self.options.oversample % 0x1_0000_0000) as u32,
            (self.options.recovery_interval as u64 / 0x1_0000_0000) as u32,
            (self.options.recovery_interval as u64 % 0x1_0000_0000) as u32,
            match self.options.open_gop_recovery {
                OpenGopRecovery::Idr => 0,
                OpenGopRecovery::RecoveryPoint => 1,
                OpenGopRecovery::Discard => 2,
            },
            word_of(self.options.split_field_samples),
            match self.options.video {
                VideoMode::Transcode => 0,
                VideoMode::Passthrough => 1,
            },
        ];
        assert(options@ =~= option_words(self.options));
        words.extend_from_slice(&options);
        assert(words@ =~= old(words)@ + option_words(self.options));
    }

    /// Read what stands in front of a job.
    pub fn decode(job: &[u8]) -> (result: Result<PictureContext, Error>)
        ensures
            match result {
                Ok(context) => context.wf() && job_context(job@) == Some(context@),
                Err(e) => job_context(job@) is None && e == Error::JobHeader,
            },
    {
        if job.len() < JOB_HEADER_LEN {
            return Err(Error::JobHeader);
        }
        let mut w: Vec<u32> = Vec::new();
        let mut i: usize = 0;
        while i < JOB_WORDS
            invariant
                i <= 91,
                job@.len() >= 364,
                w@.len() == i,
                forall|j: int| 0 <= j < i ==> w@[j] == #[trigger] word_at(job@, 4 * j),
            decreases 91 - i,
        {
            let at: usize = 4 * i;
            w.push(
                job[at] as u32 * 0x100_0000 + job[at + 1] as u32 * 0x1_0000 + job[at + 2] as u32
                    * 256 + job[at + 3] as u32,
            );
            i = i + 1;
        }
        assert(w@ =~= words_of(job@)) by {
            assert forall|j: int| 0 <= j < 91 implies w@[j] == words_of(job@)[j] by {
                assert(w@[j] == word_at(job@, 4 * j));
            }
        }
        let interval: u64 = w[22] as u64 * 0x1_0000_0000 + w[23] as u64;
        let valid: bool = w[2] <= 1 && w[3] <= 1 && w[4] <= 1 && w[5] <= 1 && 1 <= w[6] && w[6] <= 2
            && w[13] <= 1 && w[15] <= 1 && w[16] <= 3 && interval <= usize::MAX as u64 && w[24] <= 2
            && w[25] <= 1 && w[26] <= 1;
        assert(valid == readable(w@));
        if !valid {
            return Err(Error::JobHeader);
        }
        let mut weight_scale: [i32; 64] = [0;64];
        let mut k: usize = 0;
        while k < 64
            invariant
                k <= 64,
                w@.len() == 91,
                forall|j: int| 0 <= j < k ==> #[trigger] weight_scale@[j] == w@[27 + j] as i32,
            decreases 64 - k,
        {
            weight_scale[k] = w[27 + k] as i32;
            k = k + 1;
        }
        let context = PictureContext {
            frame_num: w[0],
            poc: w[1],
            is_reference: w[2] == 1,
            layout: RefLayout {
                count: w[7],
                fwd_l0: w[8] as i32,
                fwd_l1: w[9] as i32,
                bwd_l0: w[10] as i32,
                bwd_l1: w[11] as i32,
                flat: w[12] as i32,
                l1_short_term_delta: if w[13] == 1 {
                    Some(w[14])
                } else {
                    None
                },
                anchor_second_field: w[15] == 1,
            },
            short_term: ShortTermFrames { frames: [w[17], w[18], w[19]], count: w[16] as usize },
            options: TranscodeOptions {
                oversample: w[20] as u64 * 0x1_0000_0000 + w[21] as u64,
                recovery_interval: interval as usize,
                open_gop_recovery: if w[24] == 0 {
                    OpenGopRecovery::Idr
                } else if w[24] == 1 {
                    OpenGopRecovery::RecoveryPoint
                } else {
                    OpenGopRecovery::Discard
                },
                split_field_samples: w[25] == 1,
                video: if w[26] == 0 {
                    VideoMode::Transcode
                } else {
                    VideoMode::Passthrough
                },
            },
            mbaff: w[3] == 1,
            real_idr: w[4] == 1,
            recovery_intra: w[5] == 1,
            weight_scale,
            picture_count: w[6],
        };
        assert(context@.weight_scale =~= context_of(w@).weight_scale);
        assert(context@.short_term =~= context_of(w@).short_term);
        assert(context@ =~= context_of(w@));
        Ok(context)
    }
}

/// A choice as a number.
fn word_of(b: bool) -> (w: u32)
    ensures
        w == bool_word(b),
{
    if b {
        1
    } else {
        0
    }
}

/// One picture of a unit, to be converted by itself.
#[derive(Clone, Debug)]
pub struct PictureJob {
    pub index: usize,
    /// Which of the unit's pictures it is.
    pub source: usize,
    /// Which of the unit's pictures is its other field, if it is a pair.
    pub mate: Option<usize>,
    pub data: Vec<u8>,
}

/// What a job became.
#[derive(Clone, Debug)]
pub struct PictureOutput {
    /// Whether every slice of the picture could be decoded.
    pub decoded: bool,
    pub stats: Stats,
    pub bitstream: Vec<u8>,
}

} // verus!
