//! One picture at a time: a job is read and decoded, and its coded macroblocks are put
//! together.
use crate::bitreader::BitReader;
use crate::error::Error;
use crate::h264::params;
use crate::h264::params::frame_geometry;
use crate::job;
use crate::job::{ContextView, PictureContext, PictureOutput, JOB_HEADER_LEN};
use crate::mpeg2::constants::PictureType;
use crate::mpeg2::headers;
use crate::mpeg2::headers::{parse_elementary_stream, picture_geometry, Picture, PictureView};
use crate::mpeg2::macroblock;
use crate::mpeg2::macroblock::{decode_slice, MacroblockGrid, MacroblockView};
use crate::transcode::options;
use crate::transcode::options::Stats;
use crate::transcode::picture;
use crate::transcode::picture::{write_picture, PictureShape};
use vstd::prelude::*;
use vstd::slice::slice_subrange;

verus! {

/// What decoding the slices of a picture has come to.
#[verifier::ext_equal]
pub struct DecodedSlices {
    pub grid: Seq<Option<MacroblockView>>,
    pub decoded: int,
    pub malformed: bool,
}

/// A picture of which nothing is decoded.
pub open spec fn undecoded(pic: PictureView) -> DecodedSlices {
    let geometry = headers::geometry_of(pic.sequence, pic.coding.picture_structure);
    DecodedSlices {
        grid: Seq::new(
            (geometry.mb_width * geometry.mb_height) as nat,
            |i: int| None::<MacroblockView>,
        ),
        decoded: 0,
        malformed: false,
    }
}

/// A picture with its first `count` slices decoded.
pub open spec fn slices_decoded(data: Seq<u8>, pic: PictureView, count: nat) -> DecodedSlices
    decreases count,
{
    if count == 0 {
        undecoded(pic)
    } else {
        let before = slices_decoded(data, pic, (count - 1) as nat);
        let geometry = headers::geometry_of(pic.sequence, pic.coding.picture_structure);
        let (_, grid, result) = macroblock::slice_decoded(
            data,
            pic,
            pic.slices[count - 1],
            geometry.mb_width as int,
            before.grid,
        );
        DecodedSlices {
            grid,
            decoded: if result is Ok {
                before.decoded + 1
            } else {
                before.decoded
            },
            malformed: before.malformed || result is Err,
        }
    }
}

/// What decoding one slice of a picture behind those before it leaves.
pub open spec fn slice_outcome(data: Seq<u8>, pic: PictureView, n: int) -> (
    nat,
    Seq<Option<MacroblockView>>,
    Result<(), Error>,
) {
    let geometry = headers::geometry_of(pic.sequence, pic.coding.picture_structure);
    macroblock::slice_decoded(
        data,
        pic,
        pic.slices[n],
        geometry.mb_width as int,
        slices_decoded(data, pic, n as nat).grid,
    )
}

/// A picture with all of its slices decoded.
pub open spec fn picture_decoded(data: Seq<u8>, pic: PictureView) -> DecodedSlices {
    slices_decoded(data, pic, pic.slices.len())
}

impl DecodedSlices {
    /// Every slice came out whole, and there was one.
    pub open spec fn whole(self) -> bool {
        !self.malformed && self.decoded > 0
    }

    /// What is counted of the picture.
    pub open spec fn counts(self) -> Stats {
        if self.malformed {
            Stats { errors: 1, ..options::no_counts() }
        } else {
            options::no_counts()
        }
    }
}

/// The data can be decoded by counters that hold 63 bits.
pub open spec fn decodable_len(len: int) -> bool {
    8 * len <= usize::MAX && 272 * len + 0x20_0000 <= i64::MAX
}

/// The macroblocks are ones that can be planned and scaled.
pub open spec fn grid_sound(grid: Seq<Option<MacroblockView>>) -> bool {
    macroblock::all_motion_small(grid) && macroblock::all_scales_named(grid)
}

/// Decode every slice of one coded picture, reporting whether all of them came
/// out whole. A picture with no slices at all is not damaged, merely empty, and
/// is dropped without being counted as an error.
pub fn decode_picture(
    reader: &mut BitReader<'_>,
    pic: &Picture,
    grid: &mut MacroblockGrid,
    stats: &mut Stats,
) -> (whole: bool)
    requires
        old(reader).wf(),
        decodable_len(old(reader).data().len() as int),
        pic@.wf(),
        old(grid).wf(),
        old(stats).within(u64::MAX - 1),
    ensures
        final(reader).wf(),
        final(reader).data() == old(reader).data(),
        final(grid).wf(),
        ({
            let outcome = picture_decoded(old(reader).data(), pic@);
            &&& whole == outcome.whole()
            &&& final(grid)@ == outcome.grid
            &&& *final(stats) == old(stats).plus(outcome.counts())
        }),
        whole ==> grid_sound(final(grid)@),
{
    let geometry = picture_geometry(pic);
    assert(geometry.mb_width <= 1024 && geometry.mb_height <= 1024);
    assert(0 <= geometry.mb_width * geometry.mb_height <= 0x10_0000) by (nonlinear_arith)
        requires
            0 <= geometry.mb_width <= 1024,
            0 <= geometry.mb_height <= 1024,
    ;
    grid.reset(geometry.mb_width * geometry.mb_height);
    let ghost data = reader.data();
    let mut decoded_slices: usize = 0;
    let mut malformed: bool = false;
    let mut i: usize = 0;
    while i < pic.slices.len()
        invariant
            data == reader.data(),
            data == old(reader).data(),
            decodable_len(data.len() as int),
            reader.wf(),
            pic@.wf(),
            grid.wf(),
            geometry == headers::geometry_of(pic.sequence, pic.coding.picture_structure),
            geometry.mb_width <= 1024,
            i <= pic.slices@.len(),
            decoded_slices <= i,
            (DecodedSlices { grid: grid@, decoded: decoded_slices as int, malformed })
                == slices_decoded(data, pic@, i as nat),
            !malformed ==> grid_sound(grid@),
        decreases pic.slices@.len() - i,
    {
        let slice = pic.slices[i];
        assert(pic@.slices[i as int].wf());
        assert(slice.vertical_position * geometry.mb_width <= 1072 * 1024) by (nonlinear_arith)
            requires
                0 <= slice.vertical_position <= 1072,
                0 <= geometry.mb_width <= 1024,
        ;
        proof {
            if !malformed {
                macroblock::law_decoded_scales_are_named(
                    data,
                    pic@,
                    slice,
                    geometry.mb_width as int,
                    grid@,
                );
            }
        }
        match decode_slice(reader, pic, &slice, geometry.mb_width, grid) {
            Ok(()) => {
                decoded_slices = decoded_slices + 1;
            },
            Err(_) => {
                malformed = true;
            },
        }
        i = i + 1;
    }
    proof {
        stats.lemma_plus_nothing();
    }
    if malformed {
        stats.errors = stats.errors + 1;
    }
    !malformed && decoded_slices > 0
}

/// A job as far as it can be read before anything is coded.
#[derive(Debug)]
pub struct DecodedJob {
    pub context: PictureContext,
    /// The frame, or the first field.
    pub picture: Picture,
    /// The second field.
    pub mate: Option<Picture>,
    /// Whether every slice could be decoded.
    pub decoded: bool,
    pub stats: Stats,
}

/// A decoded job as a mathematical value.
#[verifier::ext_equal]
pub struct DecodedView {
    pub context: ContextView,
    pub picture: PictureView,
    pub mate: Option<PictureView>,
    pub decoded: bool,
    pub stats: Stats,
}

/// The second field of a job as a mathematical value.
pub open spec fn mate_view(mate: Option<Picture>) -> Option<PictureView> {
    match mate {
        Some(mate) => Some(mate@),
        None => None,
    }
}

impl View for DecodedJob {
    type V = DecodedView;

    open spec fn view(&self) -> DecodedView {
        DecodedView {
            context: self.context@,
            picture: self.picture@,
            mate: mate_view(self.mate),
            decoded: self.decoded,
            stats: self.stats,
        }
    }
}

/// What the pictures of a job decode to.
pub open spec fn pictures_decoded(
    data: Seq<u8>,
    context: ContextView,
    picture: PictureView,
    mate: Option<PictureView>,
) -> DecodedView {
    let first = picture_decoded(data, picture);
    let second = match mate {
        Some(mate) if first.whole() => Some(picture_decoded(data, mate)),
        _ => None,
    };
    DecodedView {
        context,
        picture,
        mate,
        decoded: first.whole() && match second {
            Some(second) => second.whole(),
            None => true,
        },
        stats: match second {
            Some(second) => options::no_counts().plus(first.counts()).plus(second.counts()),
            None => options::no_counts().plus(first.counts()),
        },
    }
}

/// What a job decodes to. Everything in front of its own pictures is the context the
/// picture is described by, and is not coded.
pub open spec fn job_decoded(job: Seq<u8>) -> Result<DecodedView, Error> {
    match job::job_context(job) {
        None => Err(Error::JobHeader),
        Some(context) => {
            let data = job.skip(JOB_HEADER_LEN as int);
            match headers::parsed(data) {
                Err(e) => Err(e),
                Ok(pictures) => {
                    let wanted = context.picture_count as int;
                    let found = pictures.len() as int;
                    if found < wanted {
                        Err(
                            Error::JobPictures {
                                found: found as usize,
                                expected: wanted as usize,
                            },
                        )
                    } else {
                        Ok(
                            pictures_decoded(
                                data,
                                context,
                                pictures[found - wanted],
                                if wanted == 2 {
                                    Some(pictures[found - 1])
                                } else {
                                    None
                                },
                            ),
                        )
                    }
                },
            }
        },
    }
}

/// The shape of a job's picture.
pub open spec fn shape_of(decoded: DecodedView) -> PictureShape {
    let g = params::geometry(
        decoded.picture.sequence.horizontal_size,
        decoded.picture.sequence.vertical_size,
        !decoded.context.mbaff,
    );
    PictureShape {
        mb_width: g.mb_width,
        mb_height: g.mb_height,
        mbaff: decoded.context.mbaff,
        pair: decoded.mate is Some,
        structure: decoded.picture.coding.picture_structure,
        source_intra: decoded.picture.header.picture_coding_type is I,
    }
}

impl DecodedJob {
    /// The pictures are ones that were parsed.
    pub open spec fn wf(self) -> bool {
        &&& self.context.wf()
        &&& self.picture@.wf()
        &&& self.mate matches Some(mate) ==> mate@.wf()
    }

    /// The shape of the job's picture.
    pub fn shape(&self) -> (shape: PictureShape)
        requires
            self.wf(),
        ensures
            shape == shape_of(self@),
    {
        let g = frame_geometry(
            self.picture.sequence.horizontal_size,
            self.picture.sequence.vertical_size,
            !self.context.mbaff,
        );
        PictureShape {
            mb_width: g.mb_width,
            mb_height: g.mb_height,
            mbaff: self.context.mbaff,
            pair: self.mate.is_some(),
            structure: self.picture.coding.picture_structure,
            source_intra: self.picture.header.picture_coding_type == PictureType::I,
        }
    }
}

/// Converts one picture at a time, and nothing else.
///
/// This is the whole of what a thread or a worker has to hold. It knows nothing
/// of the stream around it: everything a picture is coded against arrives with
/// it, which is what makes the pictures of a unit convertible at the same time.
/// What it keeps between them is only scratch.
pub struct PictureEncoder {
    /// The macroblocks of the frame, or of the first field.
    pub by_address: MacroblockGrid,
    /// The macroblocks of the second field.
    pub paired_by_address: MacroblockGrid,
}

impl PictureEncoder {
    /// Both grids are well formed.
    pub open spec fn wf(self) -> bool {
        self.by_address.wf() && self.paired_by_address.wf()
    }

    pub fn new() -> (encoder: Self)
        ensures
            encoder.wf(),
            encoder.by_address@ == Seq::<Option<MacroblockView>>::empty(),
            encoder.paired_by_address@ == Seq::<Option<MacroblockView>>::empty(),
    {
        PictureEncoder {
            by_address: MacroblockGrid::new(),
            paired_by_address: MacroblockGrid::new(),
        }
    }

    /// Read the picture a job describes, and decode its slices.
    ///
    /// A slice that will not decode is not an error here: it is a fact about
    /// the source that the plan could not know, reported back so the unit can
    /// be planned again without it.
    pub fn decode(&mut self, job: &[u8]) -> (result: Result<DecodedJob, Error>)
        requires
            old(self).wf(),
            decodable_len(job@.len() as int),
        ensures
            final(self).wf(),
            match result {
                Ok(decoded) => decoded.wf() && job_decoded(job@) == Ok::<DecodedView, Error>(
                    decoded@,
                ) && (decoded.decoded ==> {
                    let data = job@.skip(JOB_HEADER_LEN as int);
                    &&& final(self).by_address@ == picture_decoded(data, decoded.picture@).grid
                    &&& grid_sound(final(self).by_address@)
                    &&& decoded.mate matches Some(mate) ==> final(self).paired_by_address@
                        == picture_decoded(data, mate@).grid && grid_sound(
                        final(self).paired_by_address@,
                    )
                }),
                Err(e) => job_decoded(job@) == Err::<DecodedView, Error>(e),
            },
    {
        let context = match PictureContext::decode(job) {
            Ok(context) => context,
            Err(e) => return Err(e),
        };
        let data = slice_subrange(job, JOB_HEADER_LEN, job.len());
        assert(data@ =~= job@.skip(JOB_HEADER_LEN as int));
        let mut pictures = match parse_elementary_stream(data) {
            Ok(pictures) => pictures,
            Err(e) => return Err(e),
        };
        let ghost views = headers::picture_views(pictures@);
        let found: usize = pictures.len();
        let wanted: usize = context.picture_count as usize;
        if found < wanted {
            return Err(Error::JobPictures { found, expected: wanted });
        }
        assert(views[found - 1] == pictures@[found - 1]@);
        assert(views[found - 1].wf());
        assert(views[found - wanted] == pictures@[found - wanted]@);
        assert(views[found - wanted].wf());
        let mate: Option<Picture> = if wanted == 2 {
            pictures.pop()
        } else {
            None
        };
        let picture = pictures.pop().unwrap();
        let ghost outcome = pictures_decoded(data@, context@, picture@, mate_view(mate));
        assert(job_decoded(job@) == Ok::<DecodedView, Error>(outcome));
        let mut stats = Stats::default();
        let mut reader = BitReader::new(data);
        let whole: bool = decode_picture(&mut reader, &picture, &mut self.by_address, &mut stats);
        let decoded: bool = match &mate {
            Some(second) => whole && decode_picture(
                &mut reader,
                second,
                &mut self.paired_by_address,
                &mut stats,
            ),
            None => whole,
        };
        let read = DecodedJob { context, picture, mate, decoded, stats };
        assert(read@ =~= outcome);
        Ok(read)
    }

    /// Put the picture of a decoded job together from its coded macroblocks.
    ///
    /// `coded` holds each macroblock in the order of their positions, and `stats` what
    /// was counted while they were coded. A job that did not decode becomes nothing.
    pub fn encode(&self, job: &DecodedJob, coded: &Vec<Vec<bool>>, stats: Stats) -> (output:
        PictureOutput)
        requires
            job.wf(),
            job.decoded ==> {
                &&& picture::codable(job.context@)
                &&& shape_of(job@).wf()
                &&& coded@.len() == shape_of(job@).count()
            },
        ensures
            output.decoded == job.decoded,
            output.stats == stats,
            output.bitstream@ == (if job.decoded {
                picture::picture_units(
                    job.context@,
                    shape_of(job@),
                    picture::bit_views(coded@),
                )
            } else {
                Seq::<u8>::empty()
            }),
    {
        if !job.decoded {
            return PictureOutput { decoded: false, stats, bitstream: Vec::new() };
        }
        let shape = job.shape();
        PictureOutput {
            decoded: true,
            stats,
            bitstream: write_picture(&job.context, &shape, coded),
        }
    }
}

impl Default for PictureEncoder {
    fn default() -> (encoder: Self)
        ensures
            encoder.wf(),
            encoder.by_address@ == Seq::<Option<MacroblockView>>::empty(),
            encoder.paired_by_address@ == Seq::<Option<MacroblockView>>::empty(),
    {
        Self::new()
    }
}

} // verus!
