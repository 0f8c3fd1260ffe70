//! Slice headers, read with a parser that follows the syntax and not the writer.
use mpeg2toh264::h264::bitwriter::BitWriter;
use mpeg2toh264::h264::slice::{
    write_slice_header, RefPicList, RefPicListEntry, SliceHeaderConfig, SliceType,
};

struct Reader {
    data: Vec<u8>,
    pos: usize,
}

impl Reader {
    fn flag(&mut self) -> bool {
        let bit = (self.data[self.pos / 8] >> (7 - self.pos % 8)) & 1;
        self.pos += 1;
        bit == 1
    }

    fn u(&mut self, n: usize) -> u32 {
        (0..n).fold(0, |v, _| 2 * v + u32::from(self.flag()))
    }

    fn ue(&mut self) -> u32 {
        let mut zeros = 0;
        while !self.flag() {
            zeros += 1;
        }
        (1 << zeros) - 1 + self.u(zeros)
    }

    fn se(&mut self) -> i32 {
        let k = self.ue() as i32;
        if k % 2 == 1 {
            (k + 1) / 2
        } else {
            -(k / 2)
        }
    }
}

#[derive(Debug, Default, PartialEq, Eq)]
struct Header {
    first_mb: u32,
    slice_type: u32,
    frame_num: u32,
    field: Option<bool>,
    poc: u32,
    active: [u32; 2],
    lists: [Vec<u32>; 2],
    weights: [Vec<Option<[i32; 6]>>; 2],
    marking: Vec<u32>,
    qp_delta: i32,
    deblocking: u32,
}

fn read_list(r: &mut Reader, range: u32) -> Vec<u32> {
    let mut list = Vec::new();
    if r.flag() {
        let mut back = 0;
        loop {
            let step = match r.ue() {
                0 => r.ue() + 1,
                1 => range - (r.ue() + 1),
                _ => break,
            };
            back = (back + step) % range;
            list.push(back);
        }
    }
    list
}

fn read_weights(r: &mut Reader, count: u32) -> Vec<Option<[i32; 6]>> {
    (0..count)
        .map(|_| {
            let luma = r.flag().then(|| [r.se(), r.se()]);
            let chroma = r.flag().then(|| [r.se(), r.se(), r.se(), r.se()]);
            assert_eq!(luma.is_some(), chroma.is_some());
            luma.zip(chroma)
                .map(|(l, c)| [l[0], l[1], c[0], c[1], c[2], c[3]])
        })
        .collect()
}

fn read_header(cfg: &SliceHeaderConfig, data: Vec<u8>) -> Header {
    let mut r = Reader { data, pos: 0 };
    let mut h = Header {
        first_mb: r.ue(),
        slice_type: r.ue(),
        ..Header::default()
    };
    assert_eq!(r.ue(), 0);
    h.frame_num = r.u(cfg.log2_max_frame_num as usize);
    if cfg.mbaff && r.flag() {
        h.field = Some(r.flag());
    }
    if cfg.idr {
        assert_eq!(r.ue(), 0);
    }
    h.poc = r.u(cfg.log2_max_poc_lsb as usize);
    let range = 1 << (cfg.log2_max_frame_num + u32::from(h.field.is_some()));
    if h.slice_type == 1 {
        assert!(r.flag());
    }
    if h.slice_type != 2 {
        h.active = [1, u32::from(h.slice_type == 1)];
        if r.flag() {
            h.active[0] = r.ue() + 1;
            if h.slice_type == 1 {
                h.active[1] = r.ue() + 1;
            }
        }
        h.lists[0] = read_list(&mut r, range);
        if h.slice_type == 1 {
            h.lists[1] = read_list(&mut r, range);
        }
        assert_eq!((r.ue(), r.ue()), (0, 0));
        h.weights[0] = read_weights(&mut r, h.active[0]);
        h.weights[1] = read_weights(&mut r, h.active[1]);
    }
    if cfg.reference {
        if cfg.idr {
            h.marking = vec![u32::from(r.flag()), u32::from(r.flag())];
        } else if r.flag() {
            loop {
                let op = r.ue();
                h.marking.push(op);
                match op {
                    0 => break,
                    3 => {
                        h.marking.push(r.ue());
                        h.marking.push(r.ue());
                    }
                    _ => h.marking.push(r.ue()),
                }
            }
        }
    }
    h.qp_delta = r.se();
    h.deblocking = r.ue();
    if h.deblocking != 1 {
        assert_eq!((r.se(), r.se()), (0, 0));
    }
    // What follows is ours again.
    assert_eq!(r.u(3), 0b101);
    h
}

fn plain() -> SliceHeaderConfig {
    SliceHeaderConfig {
        first_mb_in_slice: 0,
        slice_type: SliceType::P,
        frame_num: 0,
        log2_max_frame_num: 8,
        pic_order_cnt_lsb: 0,
        log2_max_poc_lsb: 16,
        idr: false,
        long_term_current: None,
        long_term_previous: None,
        reference: false,
        mbaff: false,
        field_picture: None,
        slice_qp: 26,
        pps_init_qp: 26,
        disable_deblocking_filter_idc: 1,
        num_ref_idx_l0_active: None,
        num_ref_idx_l1_active: None,
        explicit_ref_lists: None,
        l1_first_short_term_delta: None,
        flat_pred_ref_idx: [None, None],
    }
}

fn written(cfg: &SliceHeaderConfig) -> Header {
    let mut w = BitWriter::new();
    write_slice_header(&mut w, cfg);
    w.u(3, 0b101);
    w.rbsp_trailing_bits();
    read_header(cfg, w.bytes().to_vec())
}

fn entries(backs: &[(u32, bool)]) -> RefPicList {
    let mut list = RefPicList::new();
    for &(frames_back, same_parity) in backs {
        list.push(RefPicListEntry {
            frames_back,
            same_parity,
        });
    }
    list
}

const FLAT: [i32; 6] = [0, 127, 0, 127, 0, 127];

#[test]
fn a_slice_of_two_lists_reads_back() {
    let header = written(&SliceHeaderConfig {
        slice_type: SliceType::B,
        frame_num: 5,
        pic_order_cnt_lsb: 0x1_0010,
        num_ref_idx_l0_active: Some(3),
        num_ref_idx_l1_active: Some(3),
        explicit_ref_lists: Some([entries(&[(2, true), (1, true)]), entries(&[(1, true), (2, true)])]),
        flat_pred_ref_idx: [Some(2), Some(2)],
        slice_qp: 30,
        disable_deblocking_filter_idc: 0,
        ..plain()
    });
    assert_eq!(header.slice_type, 1);
    assert_eq!((header.frame_num, header.poc), (5, 0x10));
    assert_eq!(header.active, [3, 3]);
    assert_eq!(header.lists, [vec![2, 1], vec![1, 2]]);
    assert_eq!(header.weights[0], [None, None, Some(FLAT)]);
    assert_eq!(header.weights[1], header.weights[0]);
    assert_eq!((header.qp_delta, header.deblocking), (4, 0));
    assert!(header.marking.is_empty());
}

#[test]
fn fields_count_both_parities() {
    let header = written(&SliceHeaderConfig {
        slice_type: SliceType::B,
        mbaff: true,
        field_picture: Some(true),
        reference: true,
        num_ref_idx_l0_active: Some(1),
        num_ref_idx_l1_active: Some(1),
        explicit_ref_lists: Some([entries(&[(0, false)]), entries(&[(1, false), (1, true)])]),
        flat_pred_ref_idx: [None, Some(0)],
        ..plain()
    });
    assert_eq!(header.field, Some(true));
    assert_eq!(header.lists, [vec![1], vec![3, 2]]);
    assert_eq!(header.weights, [vec![None], vec![Some(FLAT)]]);
    assert!(header.marking.is_empty());
}

#[test]
fn opening_pictures_say_what_is_kept() {
    let idr = written(&SliceHeaderConfig {
        slice_type: SliceType::I,
        idr: true,
        reference: true,
        mbaff: true,
        long_term_current: Some(0),
        ..plain()
    });
    assert_eq!((idr.slice_type, idr.field), (2, None));
    assert_eq!(idr.marking, [0, 1]);
    assert_eq!(idr.active, [0, 0]);
    let copy = written(&SliceHeaderConfig {
        frame_num: 1,
        pic_order_cnt_lsb: 2,
        reference: true,
        num_ref_idx_l0_active: Some(1),
        long_term_previous: Some((1, 0)),
        ..plain()
    });
    assert_eq!((copy.slice_type, copy.frame_num, copy.poc), (0, 1, 2));
    assert_eq!(copy.marking, [4, 1, 3, 0, 0, 0]);
    assert_eq!(copy.weights[0], [None]);
    assert!(copy.lists[0].is_empty());
}

#[test]
fn a_picture_can_lead_the_second_list() {
    let header = written(&SliceHeaderConfig {
        slice_type: SliceType::B,
        l1_first_short_term_delta: Some(4),
        ..plain()
    });
    assert_eq!(header.lists, [vec![], vec![4]]);
    assert_eq!(header.active, [1, 1]);
}
