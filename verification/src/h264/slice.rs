//! H.264 slice headers.
//!
//! Two parts of the header carry the conversion. The weights give one reference
//! index a prediction that does not depend on any picture: weight 0 and offset
//! 127, which is what intra macroblocks of the source are coded against. And the
//! reference lists are written out, so that every decoder numbers the pictures
//! alike.
use crate::bits;
use crate::h264::bitwriter;
use crate::h264::bitwriter::BitWriter;
use vstd::prelude::*;

verus! {

/// The kinds of slices that are written.
#[derive(Clone, Copy, PartialEq, Eq, Debug, Structural)]
pub enum SliceType {
    P,
    B,
    I,
}

impl SliceType {
    /// The number that the header gives.
    pub open spec fn number(self) -> nat {
        match self {
            SliceType::P => 0,
            SliceType::B => 1,
            SliceType::I => 2,
        }
    }

    /// The number that the header gives.
    pub fn code(self) -> (n: u32)
        ensures
            n == self.number(),
    {
        match self {
            SliceType::P => 0,
            SliceType::B => 1,
            SliceType::I => 2,
        }
    }
}

/// One entry of a reference list: how many frames back it lies, counted in
/// `frame_num`, and, where fields are coded, whether it has the parity of the field
/// being coded.
#[derive(Clone, Copy, PartialEq, Eq, Debug, Structural)]
pub struct RefPicListEntry {
    pub frames_back: u32,
    pub same_parity: bool,
}

/// The entries of one reference list that the slice names, in order.
#[derive(Clone, Copy, PartialEq, Eq, Debug)]
pub struct RefPicList {
    pub entries: [RefPicListEntry; 6],
    pub count: usize,
}

impl View for RefPicList {
    type V = Seq<RefPicListEntry>;

    open spec fn view(&self) -> Seq<RefPicListEntry> {
        self.entries@.take(self.count as int)
    }
}

impl RefPicList {
    /// No more entries than there is room for.
    pub open spec fn wf(self) -> bool {
        self.count <= 6
    }

    /// A list that names nothing.
    pub fn new() -> (list: Self)
        ensures
            list.wf(),
            list@ == Seq::<RefPicListEntry>::empty(),
    {
        let list = RefPicList {
            entries: [RefPicListEntry { frames_back: 0, same_parity: true };6],
            count: 0,
        };
        assert(list@ =~= Seq::<RefPicListEntry>::empty());
        list
    }

    /// Name one more entry.
    pub fn push(&mut self, entry: RefPicListEntry)
        requires
            old(self).wf(),
            old(self)@.len() < 6,
        ensures
            final(self).wf(),
            final(self)@ == old(self)@.push(entry),
    {
        let at: usize = self.count;
        self.entries[at] = entry;
        self.count = at + 1;
        assert(self@ =~= old(self)@.push(entry));
    }

    pub fn len(&self) -> (len: usize)
        requires
            self.wf(),
        ensures
            len == self@.len(),
    {
        self.count
    }

    pub fn is_empty(&self) -> (empty: bool)
        requires
            self.wf(),
        ensures
            empty == (self@.len() == 0),
    {
        self.count == 0
    }
}

/// What a slice header says.
#[derive(Clone, Copy, Debug)]
pub struct SliceHeaderConfig {
    pub first_mb_in_slice: u32,
    pub slice_type: SliceType,
    pub frame_num: u32,
    pub log2_max_frame_num: u32,
    pub pic_order_cnt_lsb: u32,
    pub log2_max_poc_lsb: u32,
    pub idr: bool,
    /// An IDR that takes this long-term slot itself.
    pub long_term_current: Option<u32>,
    /// A picture that hands a long-term slot to another one: how many frames back
    /// that one lies, and which slot it takes.
    pub long_term_previous: Option<(u32, u32)>,
    /// Whether later pictures may predict from this one.
    pub reference: bool,
    /// Whether the sequence is coded with macroblock-adaptive frames and fields.
    pub mbaff: bool,
    /// For a coded field, whether it is the bottom one.
    pub field_picture: Option<bool>,
    pub slice_qp: i32,
    pub pps_init_qp: i32,
    pub disable_deblocking_filter_idc: u32,
    pub num_ref_idx_l0_active: Option<u32>,
    pub num_ref_idx_l1_active: Option<u32>,
    /// The short-term entries of both lists, where the slice names them.
    pub explicit_ref_lists: Option<[RefPicList; 2]>,
    /// How far back the picture lies that is to lead list 1, where the lists are not
    /// named.
    pub l1_first_short_term_delta: Option<u32>,
    /// Which index of each list carries the flat prediction.
    pub flat_pred_ref_idx: [Option<u32>; 2],
}

impl SliceHeaderConfig {
    /// What stands in the header is what can be written there.
    pub open spec fn wf(self) -> bool {
        &&& self.first_mb_in_slice < u32::MAX
        &&& self.log2_max_frame_num <= 16
        &&& self.log2_max_poc_lsb <= 16
        &&& self.long_term_previous matches Some((back, slot)) ==> 1 <= back && slot < 16
        &&& self.slice_qp - self.pps_init_qp <= 100
        &&& self.pps_init_qp - self.slice_qp <= 100
        &&& self.disable_deblocking_filter_idc < u32::MAX
        &&& self.num_ref_idx_l0_active matches Some(n) ==> 1 <= n
        &&& self.num_ref_idx_l1_active matches Some(n) ==> 1 <= n
        &&& self.explicit_ref_lists matches Some(lists) ==> lists[0].wf() && lists[1].wf()
            && small_distances(lists[0]@) && small_distances(lists[1]@)
        &&& self.l1_first_short_term_delta matches Some(delta) ==> 1 <= delta <= 0x100_0000
    }
}

/// The entries lie no further back than picture numbers reach.
pub open spec fn small_distances(list: Seq<RefPicListEntry>) -> bool {
    forall|i: int| 0 <= i < list.len() ==> (#[trigger] list[i]).frames_back <= 0x100_0000
}

/// How far back an entry lies in picture numbers: frames count one each; fields count
/// two for each frame, and one more for the opposite parity.
pub open spec fn distance(entry: RefPicListEntry, field: bool) -> int {
    if field {
        2 * entry.frames_back + if entry.same_parity {
            0int
        } else {
            1
        }
    } else {
        entry.frames_back as int
    }
}

/// How many picture numbers there are before they start again.
pub open spec fn number_range(log2_max_frame_num: u32, field: bool) -> nat {
    vstd::arithmetic::power2::pow2(
        (log2_max_frame_num + if field {
            1int
        } else {
            0
        }) as nat,
    )
}

/// The step from the picture that lies `from` numbers back to the one that lies `to`
/// back: whether it goes forward, and how far. A step to the same number goes all
/// the way round.
pub open spec fn number_step(from: int, to: int, range: nat) -> (bool, nat) {
    if to > from {
        (false, (to - from) as nat)
    } else if to < from {
        (true, (from - to) as nat)
    } else {
        (false, range)
    }
}

/// One step of a list modification.
pub open spec fn step_bits(step: (bool, nat)) -> Seq<bool> {
    bitwriter::ue_code(
        if step.0 {
            1
        } else {
            0
        },
    ) + bitwriter::ue_code((step.1 - 1) as nat)
}

/// The steps to the first `n` entries of a list.
pub open spec fn steps_bits(list: Seq<RefPicListEntry>, field: bool, range: nat, n: nat) -> Seq<
    bool,
>
    decreases n,
{
    if n == 0 {
        seq![]
    } else {
        let from = if n == 1 {
            0
        } else {
            distance(list[n - 2], field)
        };
        steps_bits(list, field, range, (n - 1) as nat) + step_bits(
            number_step(from, distance(list[n - 1], field), range),
        )
    }
}

/// The modification of one list: whether there is one, the steps, and what ends them.
pub open spec fn list_bits(list: Seq<RefPicListEntry>, field: bool, range: nat) -> Seq<bool> {
    if list.len() == 0 {
        bitwriter::bit(false)
    } else {
        bitwriter::bit(true) + steps_bits(list, field, range, list.len()) + bitwriter::ue_code(3)
    }
}

/// Which slice this is, and of which picture.
pub open spec fn front_bits(cfg: SliceHeaderConfig) -> Seq<bool> {
    bitwriter::ue_code(cfg.first_mb_in_slice as nat) + bitwriter::ue_code(cfg.slice_type.number())
        + bitwriter::ue_code(0) + bitwriter::digits(
        cfg.frame_num as nat,
        cfg.log2_max_frame_num as nat,
    ) + (if cfg.mbaff {
        match cfg.field_picture {
            Some(bottom) => bitwriter::bit(true) + bitwriter::bit(bottom),
            None => bitwriter::bit(false),
        }
    } else {
        Seq::<bool>::empty()
    }) + (if cfg.idr {
        bitwriter::ue_code(0)
    } else {
        Seq::<bool>::empty()
    }) + bitwriter::digits(cfg.pic_order_cnt_lsb as nat, cfg.log2_max_poc_lsb as nat)
}

/// How long the reference lists are.
pub open spec fn count_bits(cfg: SliceHeaderConfig) -> Seq<bool> {
    match (cfg.slice_type, cfg.num_ref_idx_l0_active, cfg.num_ref_idx_l1_active) {
        (SliceType::I, _, _) => Seq::<bool>::empty(),
        (SliceType::P, Some(l0), _) => bitwriter::bit(true) + bitwriter::ue_code((l0 - 1) as nat),
        (SliceType::P, None, _) => bitwriter::bit(false),
        (SliceType::B, Some(l0), Some(l1)) => bitwriter::bit(true) + bitwriter::bit(true)
            + bitwriter::ue_code((l0 - 1) as nat) + bitwriter::ue_code((l1 - 1) as nat),
        (SliceType::B, _, _) => bitwriter::bit(true) + bitwriter::bit(false),
    }
}

/// What the two lists hold.
pub open spec fn lists_bits(cfg: SliceHeaderConfig) -> Seq<bool> {
    let field = cfg.field_picture is Some;
    let range = number_range(cfg.log2_max_frame_num, field);
    let (first, second): (Seq<RefPicListEntry>, Seq<RefPicListEntry>) = match (
        cfg.explicit_ref_lists,
        cfg.l1_first_short_term_delta,
    ) {
        (Some(lists), _) => (lists[0]@, lists[1]@),
        (None, Some(delta)) => (
            seq![],
            seq![RefPicListEntry { frames_back: delta, same_parity: true }],
        ),
        (None, None) => (seq![], seq![]),
    };
    match cfg.slice_type {
        SliceType::I => Seq::<bool>::empty(),
        SliceType::P => list_bits(first, field, range),
        SliceType::B => list_bits(first, field, range) + list_bits(second, field, range),
    }
}

/// The weight that makes a prediction of any picture the same.
pub const FLAT_WEIGHT: i32 = 0;

/// What a prediction of no weight comes to.
pub const FLAT_OFFSET: i32 = 127;

/// The weights of one reference index: the flat prediction's, or the default.
pub open spec fn weight_bits(flat: bool) -> Seq<bool> {
    if flat {
        let weighting = bitwriter::se_code(FLAT_WEIGHT as int) + bitwriter::se_code(
            FLAT_OFFSET as int,
        );
        bitwriter::bit(true) + weighting + bitwriter::bit(true) + weighting + weighting
    } else {
        bitwriter::bit(false) + bitwriter::bit(false)
    }
}

/// The weights of the first `n` indices of a list.
pub open spec fn list_weights(flat: Option<u32>, n: nat) -> Seq<bool>
    decreases n,
{
    if n == 0 {
        seq![]
    } else {
        list_weights(flat, (n - 1) as nat) + weight_bits(flat == Some((n - 1) as u32))
    }
}

/// How many indices a list has, where the slice does not say: one.
pub open spec fn list_len(active: Option<u32>) -> nat {
    match active {
        Some(n) => n as nat,
        None => 1,
    }
}

/// How many indices each list has. Where a B slice says only one of the two, it says
/// neither.
pub open spec fn list_lens(cfg: SliceHeaderConfig) -> (nat, nat) {
    match (cfg.slice_type, cfg.num_ref_idx_l0_active, cfg.num_ref_idx_l1_active) {
        (SliceType::B, Some(l0), Some(l1)) => (l0 as nat, l1 as nat),
        (SliceType::B, _, _) => (1, 1),
        (_, l0, _) => (list_len(l0), 0),
    }
}

/// The weights of all indices.
pub open spec fn weights_bits(cfg: SliceHeaderConfig) -> Seq<bool> {
    if cfg.slice_type is I {
        Seq::<bool>::empty()
    } else {
        bitwriter::ue_code(0) + bitwriter::ue_code(0) + list_weights(
            cfg.flat_pred_ref_idx[0],
            list_lens(cfg).0,
        ) + (if cfg.slice_type is B {
            list_weights(cfg.flat_pred_ref_idx[1], list_lens(cfg).1)
        } else {
            Seq::<bool>::empty()
        })
    }
}

/// What becomes of the pictures that are held for reference.
pub open spec fn marking_bits(cfg: SliceHeaderConfig) -> Seq<bool> {
    if !cfg.reference {
        Seq::<bool>::empty()
    } else if cfg.idr {
        bitwriter::bit(false) + bitwriter::bit(cfg.long_term_current is Some)
    } else {
        match cfg.long_term_previous {
            Some((back, slot)) => bitwriter::bit(true) + bitwriter::ue_code(4) + bitwriter::ue_code(
                slot as nat + 1,
            ) + bitwriter::ue_code(3) + bitwriter::ue_code((back - 1) as nat) + bitwriter::ue_code(
                slot as nat,
            ) + bitwriter::ue_code(0),
            None => bitwriter::bit(false),
        }
    }
}

/// The quantiser and the loop filter.
pub open spec fn tail_bits(cfg: SliceHeaderConfig) -> Seq<bool> {
    bitwriter::se_code(cfg.slice_qp - cfg.pps_init_qp) + bitwriter::ue_code(
        cfg.disable_deblocking_filter_idc as nat,
    ) + (if cfg.disable_deblocking_filter_idc != 1 {
        bitwriter::se_code(0) + bitwriter::se_code(0)
    } else {
        Seq::<bool>::empty()
    })
}

/// The slice header (clause 7.3.3).
pub open spec fn header_bits(cfg: SliceHeaderConfig) -> Seq<bool> {
    front_bits(cfg) + count_bits(cfg) + lists_bits(cfg) + weights_bits(cfg) + marking_bits(cfg)
        + tail_bits(cfg)
}

/// A list that names these entries.
pub open spec fn list_naming(entries: Seq<RefPicListEntry>) -> RefPicList {
    choose|list: RefPicList| list.wf() && #[trigger] list.view() == entries
}

/// Of the lists that a header names, only the entries matter.
pub proof fn lemma_entries_matter(a: SliceHeaderConfig, b: SliceHeaderConfig)
    requires
        a == (SliceHeaderConfig { explicit_ref_lists: a.explicit_ref_lists, ..b }),
        match (a.explicit_ref_lists, b.explicit_ref_lists) {
            (Some(x), Some(y)) => x[0]@ == y[0]@ && x[1]@ == y[1]@,
            (None, None) => true,
            _ => false,
        },
    ensures
        header_bits(a) == header_bits(b),
{
    assert(lists_bits(a) == lists_bits(b));
}

/// How far back an entry lies in picture numbers.
fn entry_distance(entry: RefPicListEntry, field: bool) -> (d: u32)
    requires
        entry.frames_back <= 0x100_0000,
    ensures
        d == distance(entry, field),
{
    if field {
        if entry.same_parity {
            2 * entry.frames_back
        } else {
            2 * entry.frames_back + 1
        }
    } else {
        entry.frames_back
    }
}

/// Write one step of a list modification.
fn write_step(w: &mut BitWriter, from: u32, to: u32, field: bool, log2_max_frame_num: u32)
    requires
        old(w).wf(),
        from <= 0x200_0001,
        to <= 0x200_0001,
        log2_max_frame_num <= 16,
    ensures
        final(w).wf(),
        final(w)@ == old(w)@ + step_bits(
            number_step(from as int, to as int, number_range(log2_max_frame_num, field)),
        ),
{
    if to > from {
        w.ue(0);
        w.ue(to - from - 1);
    } else if to < from {
        w.ue(1);
        w.ue(from - to - 1);
    } else {
        let range_bits: u32 = if field {
            log2_max_frame_num + 1
        } else {
            log2_max_frame_num
        };
        w.ue(0);
        w.ue(bits::power_of_two(range_bits) - 1);
    }
    assert(w@ =~= old(w)@ + step_bits(
        number_step(from as int, to as int, number_range(log2_max_frame_num, field)),
    ));
}

/// Write the modification of one list.
fn write_list(w: &mut BitWriter, list: &RefPicList, field: bool, log2_max_frame_num: u32)
    requires
        old(w).wf(),
        list.wf(),
        small_distances(list@),
        log2_max_frame_num <= 16,
    ensures
        final(w).wf(),
        final(w)@ == old(w)@ + list_bits(
            list@,
            field,
            number_range(log2_max_frame_num, field),
        ),
{
    let ghost range = number_range(log2_max_frame_num, field);
    if list.is_empty() {
        w.flag(false);
        return ;
    }
    w.flag(true);
    let mut from: u32 = 0;
    let mut i: usize = 0;
    let ghost start = old(w)@ + bitwriter::bit(true);
    assert(w@ =~= start + steps_bits(list@, field, range, 0));
    while i < list.count
        invariant
            i <= list.count,
            list.wf(),
            small_distances(list@),
            w.wf(),
            log2_max_frame_num <= 16,
            range == number_range(log2_max_frame_num, field),
            from <= 0x200_0001,
            from == if i == 0 {
                0
            } else {
                distance(list@[i - 1], field)
            },
            w@ == start + steps_bits(list@, field, range, i as nat),
        decreases list.count - i,
    {
        let entry: RefPicListEntry = list.entries[i];
        assert(list@[i as int] == entry);
        let to: u32 = entry_distance(entry, field);
        write_step(w, from, to, field, log2_max_frame_num);
        from = to;
        i = i + 1;
        assert(w@ =~= start + steps_bits(list@, field, range, i as nat));
    }
    w.ue(3);
    assert(w@ =~= old(w)@ + list_bits(list@, field, range));
}

/// Write which slice this is, and of which picture.
#[verifier::rlimit(60)]
fn write_front(w: &mut BitWriter, cfg: &SliceHeaderConfig)
    requires
        old(w).wf(),
        cfg.wf(),
    ensures
        final(w).wf(),
        final(w)@ == old(w)@ + front_bits(*cfg),
{
    w.ue(cfg.first_mb_in_slice);
    w.ue(cfg.slice_type.code());
    w.ue(0);  // pic_parameter_set_id
    w.u(cfg.log2_max_frame_num, cfg.frame_num);
    if cfg.mbaff {
        match cfg.field_picture {
            Some(bottom) => {
                w.flag(true);  // field_pic_flag
                w.flag(bottom);  // bottom_field_flag
            },
            None => {
                w.flag(false);
            },
        }
    }
    if cfg.idr {
        w.ue(0);  // idr_pic_id
    }
    w.u(cfg.log2_max_poc_lsb, cfg.pic_order_cnt_lsb);
    assert(w@ =~= old(w)@ + front_bits(*cfg));
}

/// Write how long the reference lists are.
fn write_counts(w: &mut BitWriter, cfg: &SliceHeaderConfig)
    requires
        old(w).wf(),
        cfg.wf(),
    ensures
        final(w).wf(),
        final(w)@ == old(w)@ + count_bits(*cfg),
{
    match cfg.slice_type {
        SliceType::I => {},
        SliceType::P => match cfg.num_ref_idx_l0_active {
            Some(l0) => {
                w.flag(true);  // num_ref_idx_active_override_flag
                w.ue(l0 - 1);
            },
            None => {
                w.flag(false);
            },
        },
        SliceType::B => {
            // Every macroblock is coded explicitly, so nothing is derived from
            // this.
            w.flag(true);  // direct_spatial_mv_pred_flag
            match (cfg.num_ref_idx_l0_active, cfg.num_ref_idx_l1_active) {
                (Some(l0), Some(l1)) => {
                    w.flag(true);
                    w.ue(l0 - 1);
                    w.ue(l1 - 1);
                },
                _ => {
                    w.flag(false);
                },
            }
        },
    }
    assert(w@ =~= old(w)@ + count_bits(*cfg));
}

/// Write what the two lists hold.
fn write_lists(w: &mut BitWriter, cfg: &SliceHeaderConfig)
    requires
        old(w).wf(),
        cfg.wf(),
    ensures
        final(w).wf(),
        final(w)@ == old(w)@ + lists_bits(*cfg),
{
    let field: bool = cfg.field_picture.is_some();
    let mut first = RefPicList::new();
    let mut second = RefPicList::new();
    match cfg.explicit_ref_lists {
        Some(lists) => {
            first = lists[0];
            second = lists[1];
        },
        None => {
            if let Some(delta) = cfg.l1_first_short_term_delta {
                second.push(RefPicListEntry { frames_back: delta, same_parity: true });
                assert(second@ =~= seq![
                    RefPicListEntry { frames_back: delta, same_parity: true },
                ]);
            }
        },
    }
    match cfg.slice_type {
        SliceType::I => {},
        SliceType::P => {
            write_list(w, &first, field, cfg.log2_max_frame_num);
        },
        SliceType::B => {
            write_list(w, &first, field, cfg.log2_max_frame_num);
            write_list(w, &second, field, cfg.log2_max_frame_num);
        },
    }
    assert(w@ =~= old(w)@ + lists_bits(*cfg));
}

/// Write the weights of one list.
fn write_list_weights(w: &mut BitWriter, flat: Option<u32>, count: u32)
    requires
        old(w).wf(),
    ensures
        final(w).wf(),
        final(w)@ == old(w)@ + list_weights(flat, count as nat),
{
    let mut i: u32 = 0;
    assert(w@ =~= old(w)@ + list_weights(flat, 0));
    while i < count
        invariant
            i <= count,
            w.wf(),
            w@ == old(w)@ + list_weights(flat, i as nat),
        decreases count - i,
    {
        let is_flat: bool = match flat {
            Some(index) => index == i,
            None => false,
        };
        let ghost before = w@;
        if is_flat {
            w.flag(true);  // luma_weight_flag
            w.se(FLAT_WEIGHT);
            w.se(FLAT_OFFSET);
            w.flag(true);  // chroma_weight_flag
            w.se(FLAT_WEIGHT);
            w.se(FLAT_OFFSET);
            w.se(FLAT_WEIGHT);
            w.se(FLAT_OFFSET);
        } else {
            w.flag(false);
            w.flag(false);
        }
        assert(w@ =~= before + weight_bits(is_flat));
        i = i + 1;
        assert(w@ =~= old(w)@ + list_weights(flat, i as nat));
    }
}

/// Write the weights of all indices.
fn write_weights(w: &mut BitWriter, cfg: &SliceHeaderConfig)
    requires
        old(w).wf(),
        cfg.wf(),
    ensures
        final(w).wf(),
        final(w)@ == old(w)@ + weights_bits(*cfg),
{
    if cfg.slice_type != SliceType::I {
        w.ue(0);  // luma_log2_weight_denom
        w.ue(0);  // chroma_log2_weight_denom
        let (l0, l1): (u32, u32) = if cfg.slice_type == SliceType::B {
            match (cfg.num_ref_idx_l0_active, cfg.num_ref_idx_l1_active) {
                (Some(l0), Some(l1)) => (l0, l1),
                _ => (1, 1),
            }
        } else {
            match cfg.num_ref_idx_l0_active {
                Some(l0) => (l0, 0),
                None => (1, 0),
            }
        };
        assert(list_lens(*cfg) == (l0 as nat, l1 as nat));
        write_list_weights(w, cfg.flat_pred_ref_idx[0], l0);
        if cfg.slice_type == SliceType::B {
            write_list_weights(w, cfg.flat_pred_ref_idx[1], l1);
        }
    }
    assert(w@ =~= old(w)@ + weights_bits(*cfg));
}

/// Write what becomes of the pictures that are held for reference.
fn write_marking(w: &mut BitWriter, cfg: &SliceHeaderConfig)
    requires
        old(w).wf(),
        cfg.wf(),
    ensures
        final(w).wf(),
        final(w)@ == old(w)@ + marking_bits(*cfg),
{
    if cfg.reference {
        if cfg.idr {
            w.flag(false);  // no_output_of_prior_pics_flag
            w.flag(cfg.long_term_current.is_some());  // long_term_reference_flag
        } else {
            match cfg.long_term_previous {
                Some((back, slot)) => {
                    w.flag(true);  // adaptive_ref_pic_marking_mode_flag
                    // Make room for the slot, and give it to the picture.
                    w.ue(4);
                    w.ue(slot + 1);
                    w.ue(3);
                    w.ue(back - 1);
                    w.ue(slot);
                    w.ue(0);
                },
                None => {
                    w.flag(false);
                },
            }
        }
    }
    assert(w@ =~= old(w)@ + marking_bits(*cfg));
}

/// Write the quantiser and the loop filter.
fn write_tail(w: &mut BitWriter, cfg: &SliceHeaderConfig)
    requires
        old(w).wf(),
        cfg.wf(),
    ensures
        final(w).wf(),
        final(w)@ == old(w)@ + tail_bits(*cfg),
{
    w.se(cfg.slice_qp - cfg.pps_init_qp);
    w.ue(cfg.disable_deblocking_filter_idc);
    if cfg.disable_deblocking_filter_idc != 1 {
        w.se(0);
        w.se(0);
    }
    assert(w@ =~= old(w)@ + tail_bits(*cfg));
}

/// Write a slice header (clause 7.3.3).
pub fn write_slice_header(w: &mut BitWriter, cfg: &SliceHeaderConfig)
    requires
        old(w).wf(),
        cfg.wf(),
    ensures
        final(w).wf(),
        final(w)@ == old(w)@ + header_bits(*cfg),
{
    write_front(w, cfg);
    write_counts(w, cfg);
    write_lists(w, cfg);
    write_weights(w, cfg);
    write_marking(w, cfg);
    write_tail(w, cfg);
    proof {
        lemma_joined(
            old(w)@,
            front_bits(*cfg),
            count_bits(*cfg),
            lists_bits(*cfg),
            weights_bits(*cfg),
            marking_bits(*cfg),
            tail_bits(*cfg),
        );
    }
}

/// The parts of a header can be written one behind the other.
proof fn lemma_joined(
    before: Seq<bool>,
    a: Seq<bool>,
    b: Seq<bool>,
    c: Seq<bool>,
    d: Seq<bool>,
    e: Seq<bool>,
    f: Seq<bool>,
)
    ensures
        before + a + b + c + d + e + f == before + (a + b + c + d + e + f),
{
    assert(before + a + b + c + d + e + f =~= before + (a + b + c + d + e + f));
}

/// A step of a list modification leads from one picture number to the other, going round
/// where they start again.
pub proof fn law_steps_arrive(from: int, to: int, range: nat)
    requires
        0 <= from < range,
        0 <= to < range,
        range > 0,
    ensures
        ({
            let (forward, length) = number_step(from, to, range);
            &&& 1 <= length <= range
            &&& to == (if forward {
                from - length
            } else {
                from + length
            }) % (range as int)
        }),
{
    if to == from {
        vstd::arithmetic::div_mod::lemma_mod_add_multiples_vanish(from, range as int);
        vstd::arithmetic::div_mod::lemma_small_mod(from as nat, range);
    } else {
        vstd::arithmetic::div_mod::lemma_small_mod(to as nat, range);
    }
}

} // verus!
