//! What is asked for to code a picture, and when.
use mpeg2toh264::h264::reconstruct::ChromaBlockLevels;
use mpeg2toh264::job::TranscoderState;
use mpeg2toh264::mpeg2::constants::PictureStructure;
use mpeg2toh264::transcode::walk::{Asked, PictureWalk, Told};
use mpeg2toh264::transcode::{plan_unit, PictureEncoder, TranscodeOptions, UnitRequest};

struct Bits {
    bytes: Vec<u8>,
    count: usize,
}

impl Bits {
    fn new() -> Self {
        Bits {
            bytes: Vec::new(),
            count: 0,
        }
    }

    fn u(&mut self, value: u32, width: usize) -> &mut Self {
        for shift in (0..width).rev() {
            if self.count % 8 == 0 {
                self.bytes.push(0);
            }
            let last = self.bytes.len() - 1;
            self.bytes[last] |= (((value >> shift) & 1) as u8) << (7 - self.count % 8);
            self.count += 1;
        }
        self
    }

    fn append(&self, stream: &mut Vec<u8>, code: u8) {
        stream.extend_from_slice(&[0, 0, 1, code]);
        stream.extend_from_slice(&self.bytes);
    }
}

/// MPEG-1 video of one intra macroblock a picture, I then P.
fn stream() -> Vec<u8> {
    let mut stream = Vec::new();
    let mut b = Bits::new();
    b.u(16, 12).u(16, 12).u(1, 4).u(3, 4).u(1000, 18).u(1, 1);
    b.u(20, 10).u(0, 1).u(0, 1).u(0, 1);
    b.append(&mut stream, 0xb3);
    for (kind, at) in [(1, 0), (2, 1)] {
        let mut b = Bits::new();
        b.u(at, 10).u(kind, 3).u(0xffff, 16);
        if kind == 2 {
            b.u(0, 1).u(1, 3);
        }
        b.u(0, 1);
        b.append(&mut stream, 0);
        let mut b = Bits::new();
        b.u(2, 5).u(0, 1).u(1, 1);
        if kind == 1 {
            b.u(1, 1);
        } else {
            b.u(3, 5);
        }
        for block in 0..6 {
            if block < 4 {
                b.u(4, 3);
            } else {
                b.u(0, 2);
            }
            b.u(2, 2);
        }
        b.append(&mut stream, 1);
    }
    stream.extend_from_slice(&[0, 0, 1, 0xb7]);
    stream
}

fn jobs() -> Vec<Vec<u8>> {
    let data = stream();
    plan_unit(
        &data,
        &TranscoderState::new(),
        TranscodeOptions::default(),
        UnitRequest::default(),
        &[],
    )
    .unwrap()
    .take_jobs()
}

fn begin(encoder: &mut PictureEncoder, job: &[u8]) -> PictureWalk {
    let decoded = encoder.decode(job).unwrap();
    let mut stats = decoded.stats;
    let plans = encoder.plan_macroblocks(&decoded, &mut stats);
    PictureWalk::new(&decoded, plans)
}

fn no_chroma() -> [ChromaBlockLevels; 2] {
    let component = || ChromaBlockLevels {
        dc: [0; 4],
        ac: [[0; 15]; 4],
    };
    [component(), component()]
}

#[test]
fn a_picture_that_opens_the_buffer_asks_for_its_blocks() {
    let mut walk = begin(&mut PictureEncoder::new(), &jobs()[0]);
    assert!(matches!(
        walk.next(Told::Nothing),
        Asked::OpenSlice { second: false }
    ));
    assert!(matches!(
        walk.next(Told::Nothing),
        Asked::ChooseStep { scale: 4 }
    ));
    assert!(matches!(
        walk.next(Told::Step(20)),
        Asked::Luma {
            block: 0,
            prediction: 128,
            qp: 20
        }
    ));
    // A first level lifts the block, and with it what the next one is predicted to be.
    let mut levels = [0; 64];
    levels[0] = 16;
    let lifted = match walk.next(Told::Luma(Some(levels))) {
        Asked::Luma {
            block: 1,
            prediction,
            qp: 20,
        } => prediction,
        _ => panic!("the second block comes next"),
    };
    assert!(lifted > 128);
    for block in 2..4 {
        match walk.next(Told::Luma(None)) {
            Asked::Luma {
                block: asked,
                prediction,
                ..
            } => assert_eq!((asked, prediction), (block, lifted)),
            _ => panic!("four blocks make a macroblock"),
        }
    }
    match walk.next(Told::Luma(None)) {
        Asked::Intra { luma, chroma, qp } => {
            assert!(luma);
            assert_eq!(chroma, [[128; 4]; 2]);
            assert_eq!(qp, 20);
        }
        _ => panic!("then the macroblock itself"),
    }
    let coded = Told::CodedIntra {
        written: 20,
        chroma: no_chroma(),
        cbp_chroma: 0,
    };
    assert!(matches!(walk.next(coded), Asked::Done));
    assert!(matches!(walk.next(Told::Nothing), Asked::Done));
}

#[test]
fn other_pictures_are_asked_for_whole() {
    let mut walk = begin(&mut PictureEncoder::new(), &jobs()[1]);
    assert!(matches!(
        walk.next(Told::Nothing),
        Asked::OpenSlice { second: false }
    ));
    assert!(matches!(
        walk.next(Told::Nothing),
        Asked::ChooseStep { scale: 4 }
    ));
    match walk.next(Told::Step(31)) {
        Asked::Inter { macroblock, qp } => {
            assert_eq!(qp, 31);
            assert_eq!((macroblock.qp, macroblock.prev_qp), (31, 26));
            assert_eq!((macroblock.mb_x, macroblock.mb_y), (0, 0));
        }
        _ => panic!("one macroblock, predicted from the constant"),
    }
    assert!(matches!(walk.next(Told::Coded { written: 31 }), Asked::Done));
}

#[test]
fn a_luma_the_source_did_not_code_is_concealed() {
    let mut walk = begin(&mut PictureEncoder::new(), &jobs()[0]);
    walk.plans[0].residual = mpeg2toh264::transcode::macroblocks::Residual::Own(None);
    walk.next(Told::Nothing);
    match walk.next(Told::Nothing) {
        Asked::Intra { luma, qp, .. } => {
            assert!(!luma);
            assert_eq!(qp, 26, "nothing is coded, so the step stays");
        }
        _ => panic!("nothing is left to ask of its luma"),
    }
    let picture = &walk.intra.as_ref().unwrap().picture;
    assert!(picture.luma.iter().all(|&sample| sample == 128));
}

#[test]
fn the_second_field_of_an_opening_pair_is_predicted_from_the_first() {
    let mut encoder = PictureEncoder::new();
    let mut decoded = encoder.decode(&jobs()[0]).unwrap();
    let mut second = encoder.decode(&jobs()[0]).unwrap().picture;
    decoded.picture.sequence.vertical_size = 32;
    second.sequence.vertical_size = 32;
    decoded.picture.coding.picture_structure = PictureStructure::TopField;
    second.coding.picture_structure = PictureStructure::BottomField;
    decoded.mate = Some(second);
    let mut stats = decoded.stats;
    let plans = encoder.plan_macroblocks(&decoded, &mut stats);
    assert_eq!(plans.len(), 2);
    let mut walk = PictureWalk::new(&decoded, plans);
    assert!(walk.intra.is_some());
    let mut slices = Vec::new();
    let mut kinds = Vec::new();
    let mut steps = 0;
    let mut told = Told::Nothing;
    loop {
        told = match walk.next(told) {
            Asked::OpenSlice { second } => {
                slices.push(second);
                Told::Nothing
            }
            Asked::ChooseStep { .. } => {
                steps += 1;
                Told::Step(30)
            }
            Asked::Luma { .. } => Told::Luma(None),
            Asked::Intra { .. } => {
                kinds.push("own");
                Told::CodedIntra {
                    written: 30,
                    chroma: no_chroma(),
                    cbp_chroma: 0,
                }
            }
            Asked::Inter { macroblock, .. } => {
                kinds.push("other");
                assert_eq!(macroblock.prev_qp, 26, "steps start over with the slice");
                Told::Coded { written: 30 }
            }
            Asked::Done => break,
        };
    }
    assert_eq!(slices, [false, true]);
    assert_eq!(kinds, ["own", "other"]);
    assert_eq!(steps, 1, "one step serves a scale all along");
    assert!(walk.intra.is_none());
}
