//! What a conversion is asked to do, and what it counts.
use vstd::prelude::*;

verus! {

/// What to do with the source video.
#[derive(Clone, Copy, PartialEq, Eq, Debug, Structural)]
pub enum VideoMode {
    /// Convert it to H.264, which is what every browser can decode.
    Transcode,
    /// Carry the MPEG-2 through into the MP4 as it stands, for a player whose
    /// decoder handles it. Nothing is requantised, so the picture is the
    /// broadcast's own and the conversion costs almost nothing -- but a decoder
    /// that does not take MPEG-2 plays none of it.
    Passthrough,
}

impl Default for VideoMode {
    fn default() -> (mode: Self)
        ensures
            mode == VideoMode::Transcode,
    {
        VideoMode::Transcode
    }
}

#[derive(Clone, Copy, PartialEq, Eq, Debug, Structural)]
pub enum OpenGopRecovery {
    /// Preserve every leading picture, then emit a real IDR and its reference
    /// clone after them. This costs two additional samples at each recovery
    /// boundary, but gives hardware decoders an unambiguous restart point.
    Idr,
    /// Preserve every leading picture and use the independently coded source
    /// intra picture as a non-IDR recovery point.
    RecoveryPoint,
    /// Discard leading pictures and restart the decoded picture buffer at the
    /// source intra picture.
    Discard,
}

impl Default for OpenGopRecovery {
    fn default() -> (recovery: Self)
        ensures
            recovery == OpenGopRecovery::Idr,
    {
        OpenGopRecovery::Idr
    }
}

/// How many times finer the H.264 quantiser step is than the source's unless the
/// caller says otherwise: two, as the bits of a binary64 number.
pub const DEFAULT_OVERSAMPLE: u64 = 0x4000_0000_0000_0000;

#[derive(Clone, Copy, PartialEq, Eq, Debug, Structural)]
pub struct TranscodeOptions {
    /// How many times finer the H.264 quantiser step is than the source's, as the
    /// bits of a binary64 number. It is handed on to whoever picks the quantiser.
    pub oversample: u64,
    /// Put a recovery point at every this many GOPs. Its handling is selected
    /// by [`Self::open_gop_recovery`].
    pub recovery_interval: usize,
    /// How an open GOP becomes independently decodable at a periodic recovery
    /// boundary.
    pub open_gop_recovery: OpenGopRecovery,
    /// Put the two coded fields of a complementary pair in separate access
    /// units, and so in separate MP4 samples. On by default, because both
    /// break where frame pictures give way to field pictures: Firefox on
    /// Windows freezes, and a pair sharing a sample decodes to an image of
    /// `CVFieldCount` 2 where a frame picture gives 1, which Safari fails on
    /// because WebKit reuses the format description it cached from the first
    /// decoded image. Only an access unit delimiter moves, so the elementary
    /// stream is the same either way.
    pub split_field_samples: bool,
    /// Which of the two paths the video takes. The conversion itself does not
    /// look at it.
    pub video: VideoMode,
}

impl Default for TranscodeOptions {
    fn default() -> (options: Self)
        ensures
            options == (TranscodeOptions {
                oversample: DEFAULT_OVERSAMPLE,
                recovery_interval: 24,
                open_gop_recovery: OpenGopRecovery::Idr,
                split_field_samples: true,
                video: VideoMode::Transcode,
            }),
    {
        TranscodeOptions {
            oversample: DEFAULT_OVERSAMPLE,
            recovery_interval: 24,
            open_gop_recovery: OpenGopRecovery::default(),
            split_field_samples: true,
            video: VideoMode::default(),
        }
    }
}

/// Counts of how faithfully each macroblock's motion could be reproduced.
#[derive(Clone, Copy, PartialEq, Eq, Debug, Structural)]
pub struct Stats {
    /// Inter macroblocks whose motion is reproduced exactly, luma and chroma.
    pub integer_vectors: u64,
    /// Half sample on one axis: luma exact, chroma a quarter sample out.
    pub single_axis_half_vectors: u64,
    /// Half sample on both axes, where luma is approximate as well.
    pub both_axis_half_vectors: u64,
    /// Macroblocks with both prediction slots already spoken for, so H.264's
    /// own sub-sample filter runs in place of MPEG-2's bilinear. Bidirectional
    /// macroblocks are the usual case; the second field of a random access
    /// point is the other, its list 1 carrying the flat prediction.
    pub bidirectional_vectors: u64,
    pub intra_macroblocks: u64,
    pub inter_macroblocks: u64,
    /// Pictures discarded because they could not be decoded.
    pub dropped: u64,
    /// Pictures containing at least one malformed slice.
    pub errors: u64,
}

/// Nothing has been counted.
pub open spec fn no_counts() -> Stats {
    Stats {
        integer_vectors: 0,
        single_axis_half_vectors: 0,
        both_axis_half_vectors: 0,
        bidirectional_vectors: 0,
        intra_macroblocks: 0,
        inter_macroblocks: 0,
        dropped: 0,
        errors: 0,
    }
}

impl Default for Stats {
    fn default() -> (stats: Self)
        ensures
            stats == no_counts(),
    {
        Stats {
            integer_vectors: 0,
            single_axis_half_vectors: 0,
            both_axis_half_vectors: 0,
            bidirectional_vectors: 0,
            intra_macroblocks: 0,
            inter_macroblocks: 0,
            dropped: 0,
            errors: 0,
        }
    }
}

impl Stats {
    /// No count is greater than `limit`.
    pub open spec fn within(self, limit: int) -> bool {
        &&& self.integer_vectors <= limit
        &&& self.single_axis_half_vectors <= limit
        &&& self.both_axis_half_vectors <= limit
        &&& self.bidirectional_vectors <= limit
        &&& self.intra_macroblocks <= limit
        &&& self.inter_macroblocks <= limit
        &&& self.dropped <= limit
        &&& self.errors <= limit
    }

    /// The counts of both can be told in one.
    pub open spec fn addable(self, other: Stats) -> bool {
        &&& self.integer_vectors + other.integer_vectors <= u64::MAX
        &&& self.single_axis_half_vectors + other.single_axis_half_vectors <= u64::MAX
        &&& self.both_axis_half_vectors + other.both_axis_half_vectors <= u64::MAX
        &&& self.bidirectional_vectors + other.bidirectional_vectors <= u64::MAX
        &&& self.intra_macroblocks + other.intra_macroblocks <= u64::MAX
        &&& self.inter_macroblocks + other.inter_macroblocks <= u64::MAX
        &&& self.dropped + other.dropped <= u64::MAX
        &&& self.errors + other.errors <= u64::MAX
    }

    /// The counts of both together.
    pub open spec fn plus(self, other: Stats) -> Stats {
        Stats {
            integer_vectors: (self.integer_vectors + other.integer_vectors) as u64,
            single_axis_half_vectors: (self.single_axis_half_vectors
                + other.single_axis_half_vectors) as u64,
            both_axis_half_vectors: (self.both_axis_half_vectors
                + other.both_axis_half_vectors) as u64,
            bidirectional_vectors: (self.bidirectional_vectors + other.bidirectional_vectors) as u64,
            intra_macroblocks: (self.intra_macroblocks + other.intra_macroblocks) as u64,
            inter_macroblocks: (self.inter_macroblocks + other.inter_macroblocks) as u64,
            dropped: (self.dropped + other.dropped) as u64,
            errors: (self.errors + other.errors) as u64,
        }
    }

    /// Adding nothing changes nothing.
    pub proof fn lemma_plus_nothing(self)
        ensures
            self.plus(no_counts()) == self,
            no_counts().plus(self) == self,
    {
    }

    /// Counts of a few can be taken in one by one or together.
    pub proof fn lemma_plus_few(self, a: Stats, b: Stats, c: Stats, d: Stats)
        requires
            self.within(u64::MAX - 4),
            a.within(1),
            b.within(1),
            c.within(1),
            d.within(1),
        ensures
            self.plus(a).within(u64::MAX - 3),
            self.plus(a).plus(b).within(u64::MAX - 2),
            self.plus(a).plus(b).plus(c).within(u64::MAX - 1),
            self.plus(a).plus(b) == self.plus(a.plus(b)),
            self.plus(a).plus(b).plus(c).plus(d) == self.plus(a.plus(b).plus(c).plus(d)),
    {
    }

    /// Counts can be taken in one behind the other or together.
    pub proof fn lemma_plus_in_turn(self, a: Stats, b: Stats)
        requires
            self.within(u64::MAX - 0x40_0004),
            a.within(0x40_0000),
            b.within(4),
        ensures
            self.plus(a).within(u64::MAX - 4),
            self.plus(a).plus(b) == self.plus(a.plus(b)),
    {
    }

    /// Take one picture's counts into a running total. Pictures are counted
    /// wherever they happen to be converted, so the totals are added up rather
    /// than accumulated in place.
    pub fn add(&mut self, other: &Stats)
        requires
            old(self).addable(*other),
        ensures
            *final(self) == old(self).plus(*other),
    {
        self.integer_vectors = self.integer_vectors + other.integer_vectors;
        self.single_axis_half_vectors = self.single_axis_half_vectors
            + other.single_axis_half_vectors;
        self.both_axis_half_vectors = self.both_axis_half_vectors + other.both_axis_half_vectors;
        self.bidirectional_vectors = self.bidirectional_vectors + other.bidirectional_vectors;
        self.intra_macroblocks = self.intra_macroblocks + other.intra_macroblocks;
        self.inter_macroblocks = self.inter_macroblocks + other.inter_macroblocks;
        self.dropped = self.dropped + other.dropped;
        self.errors = self.errors + other.errors;
    }
}

} // verus!
