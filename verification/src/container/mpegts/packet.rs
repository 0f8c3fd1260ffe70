//! The packets of a transport stream.
use vstd::prelude::*;

verus! {

pub const TS_PACKET_SIZE: usize = 188;

pub const SYNC_BYTE: u8 = 0x47;

/// How many sync bytes in a row make out a transport stream.
pub const MIN_SYNC_COUNT: usize = 6;

/// How many bytes have to be there before a packet boundary can be looked for.
pub const SYNC_SPAN: usize = 1128;

/// What one packet carries, as a mathematical value.
#[verifier::ext_equal]
pub struct TsView {
    pub pid: u16,
    pub transport_error_indicator: bool,
    pub payload_unit_start: bool,
    pub continuity_counter: u8,
    pub discontinuity: bool,
    pub scrambled: bool,
    pub data: Seq<u8>,
}

/// What one packet carries.
pub struct TsPayload<'a> {
    pub pid: u16,
    pub transport_error_indicator: bool,
    pub payload_unit_start: bool,
    pub continuity_counter: u8,
    pub discontinuity: bool,
    pub scrambled: bool,
    pub data: &'a [u8],
}

impl<'a> View for TsPayload<'a> {
    type V = TsView;

    open spec fn view(&self) -> TsView {
        TsView {
            pid: self.pid,
            transport_error_indicator: self.transport_error_indicator,
            payload_unit_start: self.payload_unit_start,
            continuity_counter: self.continuity_counter,
            discontinuity: self.discontinuity,
            scrambled: self.scrambled,
            data: self.data@,
        }
    }
}

/// `count` sync bytes, a packet apart, from `offset` on.
pub open spec fn synced_at(data: Seq<u8>, offset: int, count: int) -> bool {
    forall|k: int|
        #![trigger data[offset + 188 * k]]
        0 <= k < count ==> offset + 188 * k < data.len() && data[offset + 188 * k] == SYNC_BYTE
}

/// The first packet boundary from `offset` on, within the first packet's length.
pub open spec fn boundary_from(data: Seq<u8>, offset: int, count: int) -> Option<int>
    decreases 188 - offset,
{
    if offset >= 188 || offset >= data.len() {
        None
    } else if synced_at(data, offset, count) {
        Some(offset)
    } else {
        boundary_from(data, offset + 1, count)
    }
}

/// The first packet boundary.
pub open spec fn boundary(data: Seq<u8>, count: int) -> Option<int> {
    boundary_from(data, 0, count)
}

/// Whether `count` sync bytes stand a packet apart from `offset` on.
fn has_sync(data: &[u8], offset: usize, count: usize) -> (synced: bool)
    requires
        offset < data@.len(),
        data@.len() <= isize::MAX,
    ensures
        synced == synced_at(data@, offset as int, count as int),
{
    let mut matches: usize = 0;
    let mut at: usize = offset;
    while matches < count
        invariant
            matches <= count,
            data@.len() <= isize::MAX,
            at == offset + 188 * matches,
            at < data@.len() + 188,
            forall|k: int|
                #![trigger data@[offset + 188 * k]]
                0 <= k < matches ==> offset + 188 * k < data@.len() && data@[offset + 188 * k]
                    == SYNC_BYTE,
        decreases count - matches,
    {
        if at >= data.len() || data[at] != SYNC_BYTE {
            assert(!synced_at(data@, offset as int, count as int)) by {
                let here = data@[offset + 188 * (matches as int)];
            }
            return false;
        }
        matches = matches + 1;
        at = at + TS_PACKET_SIZE;
    }
    true
}

/// Find the first packet boundary, by requiring several sync bytes 188 apart.
pub fn sync_offset(data: &[u8], min_sync_count: usize) -> (found: Option<usize>)
    requires
        data@.len() <= isize::MAX,
    ensures
        match found {
            Some(offset) => boundary(data@, min_sync_count as int) == Some(offset as int),
            None => boundary(data@, min_sync_count as int) is None,
        },
{
    let mut offset: usize = 0;
    while offset < TS_PACKET_SIZE && offset < data.len()
        invariant
            offset <= 188,
            data@.len() <= isize::MAX,
            boundary(data@, min_sync_count as int) == boundary_from(
                data@,
                offset as int,
                min_sync_count as int,
            ),
        decreases 188 - offset,
    {
        if has_sync(data, offset, min_sync_count) {
            return Some(offset);
        }
        offset = offset + 1;
    }
    None
}

/// The bytes are a transport stream: there are enough of them, and packets begin
/// somewhere in them.
pub open spec fn is_transport_stream(data: Seq<u8>) -> bool {
    data.len() >= 1128 && boundary(data, 6) is Some
}

pub fn is_mpeg_transport_stream(data: &[u8]) -> (is: bool)
    requires
        data@.len() <= isize::MAX,
    ensures
        is == is_transport_stream(data@),
{
    data.len() >= SYNC_SPAN && sync_offset(data, MIN_SYNC_COUNT).is_some()
}

/// A packet boundary is one whatever stands in front of it or behind it: a packet
/// begins there, and another follows it.
pub proof fn lemma_boundary(data: Seq<u8>, offset: int)
    requires
        boundary(data, 6) == Some(offset),
    ensures
        0 <= offset < 188,
        offset + 940 < data.len(),
        synced_at(data, offset, 6),
        data[offset] == SYNC_BYTE,
{
    lemma_boundary_from(data, 0, offset);
    let first = data[offset + 188 * 0];
    let last = data[offset + 188 * 5];
}

/// A boundary that is found is one.
proof fn lemma_boundary_from(data: Seq<u8>, from: int, offset: int)
    requires
        boundary_from(data, from, 6) == Some(offset),
    ensures
        from <= offset < 188,
        synced_at(data, offset, 6),
    decreases 188 - from,
{
    if from < 188 && from < data.len() && !synced_at(data, from, 6) {
        lemma_boundary_from(data, from + 1, offset);
    }
}

/// Whether and where packets begin is told by the first bytes alone.
pub proof fn lemma_boundary_is_local(data: Seq<u8>, more: Seq<u8>)
    requires
        data.len() >= 1128,
    ensures
        boundary(data + more, 6) == boundary(data, 6),
{
    lemma_boundary_from_is_local(data, more, 0);
}

/// Whether and where packets begin from here on is told by the first bytes alone.
proof fn lemma_boundary_from_is_local(data: Seq<u8>, more: Seq<u8>, from: int)
    requires
        data.len() >= 1128,
        0 <= from,
    ensures
        boundary_from(data + more, from, 6) == boundary_from(data, from, 6),
    decreases 188 - from,
{
    if from < 188 {
        let whole = data + more;
        assert(synced_at(whole, from, 6) == synced_at(data, from, 6)) by {
            assert forall|k: int| 0 <= k < 6 implies from + 188 * k < data.len()
                && #[trigger] whole[from + 188 * k] == data[from + 188 * k] by {}
            if synced_at(data, from, 6) {
                assert forall|k: int|
                    #![trigger whole[from + 188 * k]]
                    0 <= k < 6 implies from + 188 * k < whole.len() && whole[from + 188 * k]
                    == SYNC_BYTE by {
                    let here = data[from + 188 * k];
                }
            }
            if synced_at(whole, from, 6) {
                assert forall|k: int|
                    #![trigger data[from + 188 * k]]
                    0 <= k < 6 implies from + 188 * k < data.len() && data[from + 188 * k]
                    == SYNC_BYTE by {
                    let here = whole[from + 188 * k];
                }
            }
        }
        lemma_boundary_from_is_local(data, more, from + 1);
    }
}

/// What the packet `p` carries, if it is one that carries anything.
pub open spec fn payload_of(p: Seq<u8>) -> Option<TsView> {
    let control = (p[3] / 16) % 4;
    let start: int = if control >= 2 {
        5 + p[4]
    } else {
        4
    };
    if p[0] != SYNC_BYTE || control % 2 == 0 || start > 188 {
        None
    } else {
        Some(
            TsView {
                pid: (256 * (p[1] % 32) + p[2]) as u16,
                transport_error_indicator: p[1] >= 128,
                payload_unit_start: (p[1] / 64) % 2 == 1,
                continuity_counter: p[3] % 16,
                discontinuity: control >= 2 && p[5] >= 128,
                scrambled: p[3] >= 64,
                data: p.subrange(start, 188),
            },
        )
    }
}

/// What the packet at `at` carries, if it is one that carries anything.
pub fn payload_at<'a>(data: &'a [u8], at: usize) -> (payload: Option<TsPayload<'a>>)
    requires
        at + 188 <= data@.len(),
        data@.len() <= isize::MAX,
    ensures
        match payload {
            Some(p) => payload_of(data@.subrange(at as int, at + 188)) == Some(p@),
            None => payload_of(data@.subrange(at as int, at + 188)) is None,
        },
        payload matches Some(p) ==> p.data@.len() <= 184 && p.continuity_counter < 16,
{
    let ghost p = data@.subrange(at as int, at + 188);
    assert(p[0] == data@[at as int]);
    assert(p[1] == data@[at + 1]);
    assert(p[2] == data@[at + 2]);
    assert(p[3] == data@[at + 3]);
    assert(p[4] == data@[at + 4]);
    assert(p[5] == data@[at + 5]);
    if data[at] != SYNC_BYTE {
        return None;
    }
    let adaptation_control: u8 = (data[at + 3] / 16) % 4;
    if adaptation_control % 2 == 0 {
        return None;
    }
    let mut payload: usize = at + 4;
    let mut discontinuity = false;
    if adaptation_control >= 2 {
        discontinuity = data[payload + 1] >= 128;
        payload = payload + 1 + data[payload] as usize;
    }
    let end: usize = at + TS_PACKET_SIZE;
    if payload > end {
        return None;
    }
    let found = TsPayload {
        pid: (data[at + 1] % 32) as u16 * 256 + data[at + 2] as u16,
        transport_error_indicator: data[at + 1] >= 128,
        payload_unit_start: (data[at + 1] / 64) % 2 == 1,
        continuity_counter: data[at + 3] % 16,
        discontinuity,
        scrambled: data[at + 3] >= 64,
        data: &data[payload..end],
    };
    assert(found.data@ =~= p.subrange(payload - at, 188));
    Some(found)
}

} // verus!
