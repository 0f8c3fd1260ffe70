//! What the samples of a fragment hold.
use crate::container::fmp4::boxes;
use crate::container::fmp4::timeline::{Mpeg2Sample, Mpeg2Unit, UnitView};
use crate::h264::bitwriter::nal_type;
use vstd::prelude::*;

verus! {

/// Several byte strings.
pub open spec fn parts_view(parts: Seq<&[u8]>) -> Seq<Seq<u8>> {
    Seq::new(parts.len(), |i: int| parts[i]@)
}

/// Several samples, each made of byte strings.
pub open spec fn samples_view(samples: Seq<Vec<&[u8]>>) -> Seq<Seq<Seq<u8>>> {
    Seq::new(samples.len(), |i: int| parts_view(samples[i]@))
}

/// How long the start code is that stands at `i`, or zero where none does.
pub open spec fn start_code_len(data: Seq<u8>, i: int) -> int {
    if data[i] != 0 || data[i + 1] != 0 {
        0
    } else if data[i + 2] == 1 {
        3
    } else if data[i + 2] == 0 && data[i + 3] == 1 {
        4
    } else {
        0
    }
}

/// The unit that has been open since `open`, if it holds anything by `end`.
pub open spec fn closed_unit(data: Seq<u8>, open: Option<int>, end: int) -> Seq<Seq<u8>> {
    match open {
        Some(start) => if end > start {
            seq![data.subrange(start, end)]
        } else {
            seq![]
        },
        None => seq![],
    }
}

/// The units from `i` on, where one has been open since `open`.
pub open spec fn units_from(data: Seq<u8>, i: int, open: Option<int>) -> Seq<Seq<u8>>
    decreases data.len() - i,
{
    if i + 3 >= data.len() {
        closed_unit(data, open, data.len() as int)
    } else {
        let length = start_code_len(data, i);
        if length > 0 {
            closed_unit(data, open, i) + units_from(data, i + length, Some(i + length))
        } else {
            units_from(data, i + 1, open)
        }
    }
}

/// The NAL units of an Annex B byte stream, without their start codes.
pub open spec fn annex_b_units(data: Seq<u8>) -> Seq<Seq<u8>> {
    units_from(data, 0, None)
}

/// Append what has been open since `open`, if it holds anything by `end`.
fn close_unit<'a>(data: &'a [u8], open: Option<usize>, end: usize, nals: &mut Vec<&'a [u8]>)
    requires
        end <= data@.len(),
    ensures
        parts_view(final(nals)@) == parts_view(old(nals)@) + closed_unit(
            data@,
            match open {
                Some(start) => Some(start as int),
                None => None,
            },
            end as int,
        ),
{
    if let Some(start) = open {
        if end > start {
            let nal: &'a [u8] = &data[start..end];
            nals.push(nal);
            assert(parts_view(nals@) =~= parts_view(old(nals)@) + seq![nal@]);
            return ;
        }
    }
    assert(parts_view(nals@) =~= parts_view(old(nals)@) + Seq::<Seq<u8>>::empty());
}

/// Split an Annex B byte stream into its NAL units, dropping the start codes.
pub fn split_annex_b<'a>(data: &'a [u8]) -> (nals: Vec<&'a [u8]>)
    ensures
        parts_view(nals@) == annex_b_units(data@),
{
    let mut nals: Vec<&'a [u8]> = Vec::new();
    let mut open: Option<usize> = None;
    let mut i: usize = 0;
    assert(parts_view(nals@) + annex_b_units(data@) =~= annex_b_units(data@));
    while data.len() > 3 && i < data.len() - 3
        invariant
            i <= data@.len(),
            parts_view(nals@) + units_from(
                data@,
                i as int,
                match open {
                    Some(start) => Some(start as int),
                    None => None,
                },
            ) == annex_b_units(data@),
        decreases data@.len() - i,
    {
        let length: usize = if data[i] != 0 || data[i + 1] != 0 {
            0
        } else if data[i + 2] == 1 {
            3
        } else if data[i + 2] == 0 && data[i + 3] == 1 {
            4
        } else {
            0
        };
        if length > 0 {
            let ghost before = parts_view(nals@);
            let ghost closed = closed_unit(
                data@,
                match open {
                    Some(start) => Some(start as int),
                    None => None,
                },
                i as int,
            );
            let ghost rest = units_from(data@, i + length, Some(i + length));
            close_unit(data, open, i, &mut nals);
            i = i + length;
            open = Some(i);
            assert(before + (closed + rest) =~= (before + closed) + rest);
        } else {
            i = i + 1;
        }
    }
    close_unit(data, open, data.len(), &mut nals);
    nals
}

/// Every unit that a byte stream is split into holds something.
pub proof fn law_split_units_are_not_empty(data: Seq<u8>)
    ensures
        forall|j: int|
            0 <= j < annex_b_units(data).len() ==> (#[trigger] annex_b_units(data)[j]).len() > 0,
{
    lemma_units_not_empty(data, 0, None);
}

/// Every unit from `i` on holds something.
proof fn lemma_units_not_empty(data: Seq<u8>, i: int, open: Option<int>)
    requires
        0 <= i <= data.len(),
        open matches Some(start) ==> 0 <= start <= i,
    ensures
        forall|j: int|
            0 <= j < units_from(data, i, open).len() ==> (#[trigger] units_from(
                data,
                i,
                open,
            )[j]).len() > 0,
    decreases data.len() - i,
{
    if i + 3 < data.len() {
        let length = start_code_len(data, i);
        if length > 0 {
            lemma_units_not_empty(data, i + length, Some(i + length));
            let closed = closed_unit(data, open, i);
            let rest = units_from(data, i + length, Some(i + length));
            assert forall|j: int| 0 <= j < (closed + rest).len() implies (#[trigger] (closed
                + rest)[j]).len() > 0 by {
                if j >= closed.len() {
                    assert((closed + rest)[j] == rest[j - closed.len()]);
                }
            }
            assert(units_from(data, i, open) == closed + rest);
        } else {
            lemma_units_not_empty(data, i + 1, open);
            assert(units_from(data, i, open) == units_from(data, i + 1, open));
        }
    } else {
        assert(units_from(data, i, open) == closed_unit(data, open, data.len() as int));
    }
}

/// A byte stream: each unit behind a start code of four bytes.
pub open spec fn framed(units: Seq<Seq<u8>>) -> Seq<u8>
    decreases units.len(),
{
    if units.len() == 0 {
        seq![]
    } else {
        seq![0u8, 0, 0, 1] + units[0] + framed(units.skip(1))
    }
}

/// The unit can stand in a byte stream: it neither holds a start code nor ends in
/// a byte that the next start code would swallow.
pub open spec fn frameable(unit: Seq<u8>) -> bool {
    &&& unit.len() > 0
    &&& unit.last() != 0
    &&& forall|i: int|
        #![trigger unit[i]]
        0 <= i && i + 2 < unit.len() ==> !(unit[i] == 0 && unit[i + 1] == 0 && unit[i + 2] <= 1)
}

/// A byte stream splits into the units that it was made of.
pub proof fn law_split_inverts_framing(units: Seq<Seq<u8>>)
    requires
        forall|i: int| 0 <= i < units.len() ==> frameable(#[trigger] units[i]),
    ensures
        annex_b_units(framed(units)) == units,
{
    assert(framed(units).skip(0) =~= framed(units));
    lemma_split_framed(framed(units), 0, None, units);
    assert(closed_unit(framed(units), None, 0) + units =~= units);
}

/// What is left of a byte stream splits into what was open and the units behind
/// it.
proof fn lemma_split_framed(data: Seq<u8>, i: int, open: Option<int>, units: Seq<Seq<u8>>)
    requires
        forall|j: int| 0 <= j < units.len() ==> frameable(#[trigger] units[j]),
        0 <= i <= data.len(),
        data.skip(i) == framed(units),
        open matches Some(start) ==> 0 <= start <= i,
    ensures
        units_from(data, i, open) == closed_unit(data, open, i) + units,
    decreases units.len(),
{
    if units.len() == 0 {
        assert(data.skip(i).len() == 0);
        assert(closed_unit(data, open, i) + units =~= closed_unit(data, open, i));
    } else {
        let unit = units[0];
        let rest = units.skip(1);
        assert forall|j: int| 0 <= j < rest.len() implies frameable(#[trigger] rest[j]) by {
            assert(rest[j] == units[j + 1]);
        }
        let from = i + 4;
        let to = from + unit.len();
        let f = framed(units);
        assert(f.len() == 4 + unit.len() + framed(rest).len());
        assert forall|j: int| 0 <= j < f.len() implies data[i + j] == #[trigger] f[j] by {
            assert(data.skip(i)[j] == data[i + j]);
        }
        assert(data[i] == f[0] && data[i + 1] == f[1] && data[i + 2] == f[2] && data[i + 3]
            == f[3]);
        assert(start_code_len(data, i) == 4);
        assert(data.skip(to) =~= framed(rest)) by {
            assert forall|j: int| 0 <= j < framed(rest).len() implies data.skip(to)[j] == framed(
                rest,
            )[j] by {
                assert(f[4 + unit.len() + j] == framed(rest)[j]);
                assert(data[i + (4 + unit.len() + j)] == f[4 + unit.len() + j]);
            }
        }
        assert(data.subrange(from, to) =~= unit) by {
            assert forall|j: int| 0 <= j < unit.len() implies data[from + j] == unit[j] by {
                assert(f[4 + j] == unit[j]);
                assert(data[i + (4 + j)] == f[4 + j]);
            }
        }
        if rest.len() > 0 {
            let g = framed(rest);
            assert(frameable(rest[0]));
            assert(g.len() == 4 + rest[0].len() + framed(rest.skip(1)).len());
            assert(g[0] == 0 && g[1] == 0 && g[2] == 0 && g[3] == 1);
            let tail = data.skip(to);
            assert(tail[0] == data[to] && tail[1] == data[to + 1] && tail[2] == data[to + 2]
                && tail[3] == data[to + 3]);
        } else {
            assert(data.skip(to).len() == 0);
        }
        lemma_skip_unit(data, from, from, to);
        lemma_split_framed(data, to, Some(from), rest);
        assert(closed_unit(data, Some(from), to) == seq![unit]);
        assert(seq![unit] + rest =~= units);
    }
}

/// No unit begins inside a unit.
proof fn lemma_skip_unit(data: Seq<u8>, start: int, at: int, end: int)
    requires
        0 <= start <= at <= end <= data.len(),
        frameable(data.subrange(start, end)),
        end < data.len() ==> end + 4 < data.len() && data[end] == 0 && data[end + 1] == 0
            && data[end + 2] == 0 && data[end + 3] == 1,
    ensures
        units_from(data, at, Some(start)) == units_from(data, end, Some(start)),
    decreases end - at,
{
    let unit = data.subrange(start, end);
    if at < end {
        if at + 3 < data.len() {
            assert(start_code_len(data, at) == 0) by {
                assert(unit[at - start] == data[at]);
                assert(unit.last() == data[end - 1]);
                if at + 2 < end {
                    assert(unit[at - start + 1] == data[at + 1]);
                    assert(unit[at - start + 2] == data[at + 2]);
                } else if at + 2 == end {
                    assert(data[at + 1] != 0);
                } else {
                    assert(data[at] != 0);
                }
            }
            lemma_skip_unit(data, start, at + 1, end);
        } else {
            assert(end == data.len());
        }
    }
}

/// What kind of NAL unit this is.
pub open spec fn kind_of(nal: Seq<u8>) -> int {
    nal[0] as int % 32
}

/// The unit holds a slice of a picture.
pub open spec fn is_slice(nal: Seq<u8>) -> bool {
    kind_of(nal) == 1 || kind_of(nal) == 5
}

/// The first byte's low five bits.
pub fn unit_kind(nal: &[u8]) -> (kind: u8)
    requires
        nal@.len() > 0,
    ensures
        kind == kind_of(nal@),
{
    nal[0] % 32
}

/// None of the units is empty.
pub open spec fn all_filled(nals: Seq<Seq<u8>>) -> bool {
    forall|i: int| 0 <= i < nals.len() ==> (#[trigger] nals[i]).len() > 0
}

/// One of the units is of this kind.
pub open spec fn any_of_kind(nals: Seq<Seq<u8>>, kind: int) -> bool {
    exists|i: int| 0 <= i < nals.len() && kind_of(#[trigger] nals[i]) == kind
}

/// Where the first unit of this kind stands, from `i` on.
pub open spec fn first_of_kind(nals: Seq<Seq<u8>>, kind: int, i: int) -> Option<int>
    decreases nals.len() - i,
{
    if i >= nals.len() {
        None
    } else if kind_of(nals[i]) == kind {
        Some(i)
    } else {
        first_of_kind(nals, kind, i + 1)
    }
}

/// The first unit of this kind.
pub open spec fn found(nals: Seq<Seq<u8>>, kind: int) -> Option<Seq<u8>> {
    match first_of_kind(nals, kind, 0) {
        Some(i) => Some(nals[i]),
        None => None,
    }
}

/// The first unit of this kind.
pub fn find_unit<'a>(nals: &Vec<&'a [u8]>, kind: u8) -> (unit: Option<&'a [u8]>)
    requires
        all_filled(parts_view(nals@)),
    ensures
        match unit {
            Some(nal) => found(parts_view(nals@), kind as int) == Some(nal@),
            None => found(parts_view(nals@), kind as int) is None,
        },
{
    let mut i: usize = 0;
    while i < nals.len()
        invariant
            i <= nals@.len(),
            all_filled(parts_view(nals@)),
            first_of_kind(parts_view(nals@), kind as int, 0) == first_of_kind(
                parts_view(nals@),
                kind as int,
                i as int,
            ),
        decreases nals@.len() - i,
    {
        let nal: &'a [u8] = nals[i];
        assert(parts_view(nals@)[i as int] == nal@);
        if unit_kind(nal) == kind {
            return Some(nal);
        }
        i = i + 1;
    }
    None
}

/// Whether one of the units is of this kind.
pub fn contains_kind<'a>(nals: &Vec<&'a [u8]>, kind: u8) -> (contains: bool)
    requires
        all_filled(parts_view(nals@)),
    ensures
        contains == any_of_kind(parts_view(nals@), kind as int),
{
    let mut i: usize = 0;
    while i < nals.len()
        invariant
            i <= nals@.len(),
            all_filled(parts_view(nals@)),
            forall|j: int|
                0 <= j < i ==> kind_of(#[trigger] parts_view(nals@)[j]) != kind,
        decreases nals@.len() - i,
    {
        let nal: &'a [u8] = nals[i];
        assert(parts_view(nals@)[i as int] == nal@);
        if unit_kind(nal) == kind {
            return true;
        }
        i = i + 1;
    }
    false
}

/// Every slice among the first `n` units as a sample of its own.
pub open spec fn lone_slices(nals: Seq<Seq<u8>>, n: nat) -> Seq<Seq<Seq<u8>>>
    decreases n,
{
    if n == 0 {
        seq![]
    } else {
        let before = lone_slices(nals, (n - 1) as nat);
        if is_slice(nals[n - 1]) {
            before.push(seq![nals[n - 1]])
        } else {
            before
        }
    }
}

/// The samples that delimiters have closed among the first `n` units, and the
/// slices behind the last delimiter.
pub open spec fn delimited(nals: Seq<Seq<u8>>, n: nat) -> (Seq<Seq<Seq<u8>>>, Seq<Seq<u8>>)
    decreases n,
{
    if n == 0 {
        (seq![], seq![])
    } else {
        let (samples, current) = delimited(nals, (n - 1) as nat);
        let nal = nals[n - 1];
        if kind_of(nal) == 9 {
            (
                if current.len() > 0 {
                    samples.push(current)
                } else {
                    samples
                },
                seq![],
            )
        } else if is_slice(nal) {
            (samples, current.push(nal))
        } else {
            (samples, current)
        }
    }
}

/// The slices of the units, gathered into access units: what stands between two
/// delimiters, or each slice by itself where there are no delimiters.
pub open spec fn samples_of(nals: Seq<Seq<u8>>) -> Seq<Seq<Seq<u8>>> {
    if any_of_kind(nals, 9) {
        let (samples, current) = delimited(nals, nals.len());
        if current.len() > 0 {
            samples.push(current)
        } else {
            samples
        }
    } else {
        lone_slices(nals, nals.len())
    }
}

/// Group VCL NAL units into access units. New streams carry AUDs so a PAFF
/// field pair becomes one MP4 sample; accepting streams without AUDs preserves
/// compatibility with callers that provide one VCL NAL per picture.
pub fn video_samples<'a>(nals: &Vec<&'a [u8]>) -> (samples: Vec<Vec<&'a [u8]>>)
    requires
        all_filled(parts_view(nals@)),
    ensures
        samples_view(samples@) == samples_of(parts_view(nals@)),
{
    let ghost units = parts_view(nals@);
    let has_aud = contains_kind(nals, nal_type::AUD);
    let mut samples: Vec<Vec<&'a [u8]>> = Vec::new();
    if !has_aud {
        let mut i: usize = 0;
        assert(samples_view(samples@) =~= lone_slices(units, 0));
        while i < nals.len()
            invariant
                i <= nals@.len(),
                units == parts_view(nals@),
                all_filled(units),
                samples_view(samples@) == lone_slices(units, i as nat),
            decreases nals@.len() - i,
        {
            let nal: &'a [u8] = nals[i];
            assert(units[i as int] == nal@);
            let kind: u8 = unit_kind(nal);
            if kind == nal_type::SLICE_NON_IDR || kind == nal_type::SLICE_IDR {
                let mut sample: Vec<&'a [u8]> = Vec::new();
                sample.push(nal);
                let ghost before = samples@;
                assert(parts_view(sample@) =~= seq![nal@]);
                samples.push(sample);
                assert(samples_view(samples@) =~= samples_view(before).push(seq![nal@]));
            }
            i = i + 1;
        }
        return samples;
    }
    let mut current: Vec<&'a [u8]> = Vec::new();
    let mut i: usize = 0;
    assert(samples_view(samples@) =~= delimited(units, 0).0);
    assert(parts_view(current@) =~= delimited(units, 0).1);
    while i < nals.len()
        invariant
            i <= nals@.len(),
            units == parts_view(nals@),
            all_filled(units),
            samples_view(samples@) == delimited(units, i as nat).0,
            parts_view(current@) == delimited(units, i as nat).1,
        decreases nals@.len() - i,
    {
        let nal: &'a [u8] = nals[i];
        assert(units[i as int] == nal@);
        let kind: u8 = unit_kind(nal);
        assert(parts_view(current@).len() == current@.len());
        if kind == nal_type::AUD {
            if current.len() > 0 {
                let ghost before = samples@;
                let ghost closed = parts_view(current@);
                samples.push(current);
                assert(samples_view(samples@) =~= samples_view(before).push(closed));
                current = Vec::new();
            }
            assert(parts_view(current@) =~= Seq::<Seq<u8>>::empty());
        } else if kind == nal_type::SLICE_NON_IDR || kind == nal_type::SLICE_IDR {
            let ghost before = current@;
            current.push(nal);
            assert(parts_view(current@) =~= parts_view(before).push(nal@));
        }
        i = i + 1;
    }
    assert(parts_view(current@).len() == current@.len());
    if current.len() > 0 {
        let ghost before = samples@;
        let ghost closed = parts_view(current@);
        samples.push(current);
        assert(samples_view(samples@) =~= samples_view(before).push(closed));
    }
    samples
}

/// The unit is a recovery point message.
pub open spec fn is_recovery_point(nal: Seq<u8>) -> bool {
    kind_of(nal) == 6 && nal.len() > 1 && nal[1] == 6
}

/// Which access unit a recovery point among the units from `i` on speaks of,
/// `completed` having ended before, with a slice behind the last delimiter if
/// `open`.
pub open spec fn recovery_from(
    nals: Seq<Seq<u8>>,
    has_aud: bool,
    i: int,
    completed: int,
    open: bool,
) -> Option<int>
    decreases nals.len() - i,
{
    if i >= nals.len() {
        None
    } else {
        let nal = nals[i];
        if kind_of(nal) == 9 && has_aud {
            recovery_from(
                nals,
                has_aud,
                i + 1,
                completed + if open {
                    1int
                } else {
                    0
                },
                false,
            )
        } else if is_slice(nal) {
            if has_aud {
                recovery_from(nals, has_aud, i + 1, completed, true)
            } else {
                recovery_from(nals, has_aud, i + 1, completed + 1, open)
            }
        } else if is_recovery_point(nal) {
            Some(completed)
        } else {
            recovery_from(nals, has_aud, i + 1, completed, open)
        }
    }
}

/// Which access unit the first recovery point speaks of.
pub open spec fn recovery_index(nals: Seq<Seq<u8>>) -> Option<int> {
    recovery_from(nals, any_of_kind(nals, 9), 0, 0, false)
}

/// The access unit immediately following a recovery-point SEI.
pub fn recovery_sample_index<'a>(nals: &Vec<&'a [u8]>) -> (index: Option<usize>)
    requires
        all_filled(parts_view(nals@)),
    ensures
        match index {
            Some(i) => recovery_index(parts_view(nals@)) == Some(i as int),
            None => recovery_index(parts_view(nals@)) is None,
        },
{
    let ghost units = parts_view(nals@);
    let has_aud = contains_kind(nals, nal_type::AUD);
    let mut completed: usize = 0;
    let mut current_vcl = false;
    let mut i: usize = 0;
    while i < nals.len()
        invariant
            i <= nals@.len(),
            units == parts_view(nals@),
            all_filled(units),
            completed <= i,
            current_vcl ==> completed < i,
            recovery_index(units) == recovery_from(
                units,
                has_aud,
                i as int,
                completed as int,
                current_vcl,
            ),
        decreases nals@.len() - i,
    {
        let nal: &'a [u8] = nals[i];
        assert(units[i as int] == nal@);
        let kind: u8 = unit_kind(nal);
        if kind == nal_type::AUD && has_aud {
            if current_vcl {
                completed = completed + 1;
            }
            current_vcl = false;
        } else if kind == nal_type::SLICE_NON_IDR || kind == nal_type::SLICE_IDR {
            if has_aud {
                current_vcl = true;
            } else {
                completed = completed + 1;
            }
        } else if kind == nal_type::SEI && nal.len() > 1 && nal[1] == 6 {
            return Some(completed);
        }
        i = i + 1;
    }
    None
}

/// A recovery point that a slice follows in an access unit of its own speaks of one
/// of the samples.
pub proof fn law_recovery_point_names_a_sample(nals: Seq<Seq<u8>>, at: int, next: int)
    requires
        0 <= at < next < nals.len(),
        is_recovery_point(nals[at]),
        is_slice(nals[next]),
    ensures
        recovery_index(nals) matches Some(index) && 0 <= index < samples_of(nals).len(),
{
    let has_aud = any_of_kind(nals, 9);
    lemma_recovery_names(nals, has_aud, at, next, 0);
    if has_aud {
        assert(delimited(nals, 0).0.len() == 0);
        lemma_delimited_grows(nals, next as nat + 1, nals.len());
    } else {
        assert(lone_slices(nals, 0).len() == 0);
        lemma_lone_grows(nals, next as nat + 1, nals.len());
    }
}

/// How many samples the first `n` units have ended.
spec fn ended(nals: Seq<Seq<u8>>, has_aud: bool, n: nat) -> int {
    if has_aud {
        delimited(nals, n).0.len() as int
    } else {
        lone_slices(nals, n).len() as int
    }
}

/// A slice stands behind the last delimiter of the first `n` units.
spec fn opened(nals: Seq<Seq<u8>>, has_aud: bool, n: nat) -> bool {
    has_aud && delimited(nals, n).1.len() > 0
}

/// The recovery point is found, and names no sample that ends before the slice at
/// `next`.
proof fn lemma_recovery_names(nals: Seq<Seq<u8>>, has_aud: bool, at: int, next: int, i: nat)
    requires
        i <= at < next < nals.len(),
        is_recovery_point(nals[at]),
        is_slice(nals[next]),
    ensures
        recovery_from(
            nals,
            has_aud,
            i as int,
            ended(nals, has_aud, i),
            opened(nals, has_aud, i),
        ) matches Some(index) && ended(nals, has_aud, i) <= index <= ended(
            nals,
            has_aud,
            next as nat,
        ),
    decreases at - i,
{
    if is_recovery_point(nals[i as int]) {
        if has_aud {
            lemma_delimited_grows(nals, i, next as nat);
        } else {
            lemma_lone_grows(nals, i, next as nat);
        }
    } else {
        lemma_recovery_names(nals, has_aud, at, next, i + 1);
    }
}

/// Units only add to the samples.
proof fn lemma_lone_grows(nals: Seq<Seq<u8>>, m: nat, n: nat)
    requires
        m <= n,
    ensures
        lone_slices(nals, m).len() <= lone_slices(nals, n).len(),
    decreases n - m,
{
    if m < n {
        lemma_lone_grows(nals, m, (n - 1) as nat);
    }
}

/// Units only add to the samples, and one that is open stays open until it is
/// closed.
proof fn lemma_delimited_grows(nals: Seq<Seq<u8>>, m: nat, n: nat)
    requires
        m <= n,
    ensures
        delimited(nals, m).0.len() <= delimited(nals, n).0.len(),
        delimited(nals, m).1.len() > 0 ==> delimited(nals, n).1.len() > 0 || delimited(
            nals,
            m,
        ).0.len() < delimited(nals, n).0.len(),
    decreases n - m,
{
    if m < n {
        lemma_delimited_grows(nals, m, (n - 1) as nat);
    }
}

/// One part of a sample as the media data holds it.
pub open spec fn part_bytes(part: Seq<u8>, length_prefixed: bool) -> Seq<u8> {
    if length_prefixed {
        boxes::be32(boxes::low32(part.len())) + part
    } else {
        part
    }
}

/// The first `n` parts of a sample as the media data holds them.
pub open spec fn parts_bytes(parts: Seq<Seq<u8>>, length_prefixed: bool, n: nat) -> Seq<u8>
    decreases n,
{
    if n == 0 {
        seq![]
    } else {
        parts_bytes(parts, length_prefixed, (n - 1) as nat) + part_bytes(
            parts[n - 1],
            length_prefixed,
        )
    }
}

/// A sample as the media data holds it.
pub open spec fn sample_written(parts: Seq<Seq<u8>>, length_prefixed: bool) -> Seq<u8> {
    parts_bytes(parts, length_prefixed, parts.len())
}

/// The video samples of one fragment, and how the sample entry says to read
/// them, as a mathematical value.
#[verifier::ext_equal]
pub struct PayloadView {
    pub samples: Seq<Seq<Seq<u8>>>,
    pub length_prefixed: bool,
}

impl PayloadView {
    /// The bytes of sample `i`.
    pub open spec fn sample(self, i: int) -> Seq<u8> {
        sample_written(self.samples[i], self.length_prefixed)
    }

    /// The bytes of the first `n` samples.
    pub open spec fn media(self, n: nat) -> Seq<u8>
        decreases n,
    {
        if n == 0 {
            seq![]
        } else {
            self.media((n - 1) as nat) + self.sample(n - 1)
        }
    }

    /// The bytes of all samples.
    pub open spec fn all_media(self) -> Seq<u8> {
        self.media(self.samples.len())
    }
}

/// The video samples of one fragment, and how the sample entry says to read
/// them.
///
/// Two shapes reach the same `mdat`: AVC, whose access units are NAL units the
/// `avcC` says are length-prefixed, and MPEG-2 carried through untouched, whose
/// samples are elementary stream bytes with their own start codes. Everything
/// downstream needs is a size and a way to write, so that is what this is.
pub struct VideoPayload<'a> {
    pub samples: Vec<Vec<&'a [u8]>>,
    pub length_prefixed: bool,
}

impl<'a> View for VideoPayload<'a> {
    type V = PayloadView;

    open spec fn view(&self) -> PayloadView {
        PayloadView {
            samples: samples_view(self.samples@),
            length_prefixed: self.length_prefixed,
        }
    }
}

/// Put byte strings in front of the parts of the first sample.
fn prepend_parts<'a>(samples: &mut Vec<Vec<&'a [u8]>>, prefixes: &[&'a [u8]])
    requires
        old(samples)@.len() > 0 ==> old(samples)@[0]@.len() + prefixes@.len() <= usize::MAX,
    ensures
        samples_view(final(samples)@) == if old(samples)@.len() > 0 {
            samples_view(old(samples)@).update(
                0,
                parts_view(prefixes@) + samples_view(old(samples)@)[0],
            )
        } else {
            samples_view(old(samples)@)
        },
{
    if samples.len() > 0 {
        let ghost first = samples@[0]@;
        let ghost before = samples@;
        let mut i: usize = 0;
        assert(prefixes@.take(0) + first =~= first);
        while i < prefixes.len()
            invariant
                i <= prefixes@.len(),
                samples@.len() == before.len(),
                before.len() > 0,
                first == before[0]@,
                first.len() + prefixes@.len() <= usize::MAX,
                samples@[0]@ == prefixes@.take(i as int) + first,
                forall|j: int| 1 <= j < before.len() ==> #[trigger] samples@[j] == before[j],
            decreases prefixes@.len() - i,
        {
            samples[0].insert(i, prefixes[i]);
            i = i + 1;
            assert(samples@[0]@ =~= prefixes@.take(i as int) + first);
        }
        assert(parts_view(samples@[0]@) =~= parts_view(prefixes@) + parts_view(first));
        assert(samples_view(samples@) =~= samples_view(before).update(
            0,
            parts_view(prefixes@) + samples_view(before)[0],
        ));
    }
}

impl<'a> VideoPayload<'a> {
    /// AVC access units, with anything belonging ahead of the first sample --
    /// parameter-set-adjacent SEI -- prepended to it.
    pub fn avc(samples: Vec<Vec<&'a [u8]>>, prefixes: &[&'a [u8]]) -> (payload: Self)
        requires
            samples@.len() > 0 ==> samples@[0]@.len() + prefixes@.len() <= usize::MAX,
        ensures
            payload@ == (PayloadView {
                samples: if samples@.len() > 0 {
                    samples_view(samples@).update(
                        0,
                        parts_view(prefixes@) + samples_view(samples@)[0],
                    )
                } else {
                    samples_view(samples@)
                },
                length_prefixed: true,
            }),
    {
        let mut samples = samples;
        prepend_parts(&mut samples, prefixes);
        VideoPayload { samples, length_prefixed: true }
    }

    pub fn mpeg2(samples: Vec<Vec<&'a [u8]>>) -> (payload: Self)
        ensures
            payload@ == (PayloadView {
                samples: samples_view(samples@),
                length_prefixed: false,
            }),
    {
        VideoPayload { samples, length_prefixed: false }
    }

    pub fn len(&self) -> (len: usize)
        ensures
            len == self@.samples.len(),
    {
        self.samples.len()
    }

    pub fn is_empty(&self) -> (empty: bool)
        ensures
            empty == (self@.samples.len() == 0),
    {
        self.samples.len() == 0
    }

    /// How many bytes a sample takes, as far as 32 bits hold it.
    pub fn sample_bytes(&self, index: usize) -> (bytes: u32)
        requires
            index < self@.samples.len(),
        ensures
            bytes == boxes::low32(self@.sample(index as int).len()),
    {
        let ghost parts = self@.samples[index as int];
        let sample: &Vec<&'a [u8]> = &self.samples[index];
        assert(parts =~= parts_view(sample@));
        let prefix: u32 = if self.length_prefixed {
            4
        } else {
            0
        };
        let mut bytes: u32 = 0;
        let mut i: usize = 0;
        while i < sample.len()
            invariant
                i <= sample@.len(),
                parts == parts_view(sample@),
                prefix == if self.length_prefixed {
                    4u32
                } else {
                    0
                },
                bytes == boxes::low32(parts_bytes(parts, self.length_prefixed, i as nat).len()),
            decreases sample@.len() - i,
        {
            let part: &'a [u8] = sample[i];
            assert(parts[i as int] == part@);
            proof {
                boxes::lemma_low32_sum(
                    parts_bytes(parts, self.length_prefixed, i as nat).len(),
                    part_bytes(part@, self.length_prefixed).len(),
                );
            }
            bytes = bytes.wrapping_add(boxes::truncated(part.len(), prefix));
            i = i + 1;
        }
        bytes
    }

    /// How many bytes all samples take, as far as 32 bits hold it.
    pub fn total_bytes(&self) -> (bytes: u32)
        ensures
            bytes == boxes::low32(self@.all_media().len()),
    {
        let mut bytes: u32 = 0;
        let mut i: usize = 0;
        while i < self.samples.len()
            invariant
                i <= self.samples@.len(),
                bytes == boxes::low32(self@.media(i as nat).len()),
            decreases self.samples@.len() - i,
        {
            proof {
                boxes::lemma_low32_sum(self@.media(i as nat).len(), self@.sample(i as int).len());
            }
            bytes = bytes.wrapping_add(self.sample_bytes(i));
            i = i + 1;
        }
        bytes
    }

    pub fn write_sample(&self, index: usize, out: &mut boxes::Buf)
        requires
            index < self@.samples.len(),
        ensures
            final(out)@ == old(out)@ + self@.sample(index as int),
    {
        let ghost parts = self@.samples[index as int];
        let sample: &Vec<&'a [u8]> = &self.samples[index];
        assert(parts =~= parts_view(sample@));
        let mut i: usize = 0;
        assert(out@ + parts_bytes(parts, self.length_prefixed, 0) =~= out@);
        while i < sample.len()
            invariant
                i <= sample@.len(),
                parts == parts_view(sample@),
                out@ == old(out)@ + parts_bytes(parts, self.length_prefixed, i as nat),
            decreases sample@.len() - i,
        {
            let part: &'a [u8] = sample[i];
            assert(parts[i as int] == part@);
            if self.length_prefixed {
                out.u32(boxes::truncated(part.len(), 0));
            }
            out.bytes(part);
            i = i + 1;
            assert(out@ =~= old(out)@ + parts_bytes(parts, self.length_prefixed, i as nat));
        }
    }

    /// Write all samples, one behind the other.
    pub fn write_media(&self, out: &mut boxes::Buf)
        ensures
            final(out)@ == old(out)@ + self@.all_media(),
    {
        let mut i: usize = 0;
        assert(out@ + self@.media(0) =~= out@);
        while i < self.samples.len()
            invariant
                i <= self.samples@.len(),
                out@ == old(out)@ + self@.media(i as nat),
            decreases self.samples@.len() - i,
        {
            self.write_sample(i, out);
            i = i + 1;
            assert(out@ =~= old(out)@ + self@.media(i as nat));
        }
    }
}

/// The samples that the first `n` pictures of a unit are carried as.
pub open spec fn unit_samples(es: Seq<u8>, unit: UnitView, n: nat) -> Seq<Seq<Seq<u8>>>
    decreases n,
{
    if n == 0 {
        seq![]
    } else {
        let before = unit_samples(es, unit, (n - 1) as nat);
        let sample = unit.samples[n - 1];
        match sample.field_end {
            Some(cut) if unit.timeline.split_field_samples => before.push(
                seq![es.subrange(sample.start as int, cut as int)],
            ).push(seq![es.subrange(cut as int, sample.end as int)]),
            _ => before.push(seq![es.subrange(sample.start as int, sample.end as int)]),
        }
    }
}

/// The samples of a passthrough unit, the first of them behind the unit's sequence
/// header where it does not hold that itself.
pub open spec fn passthrough(es: Seq<u8>, unit: UnitView) -> PayloadView {
    let samples = unit_samples(es, unit, unit.samples.len());
    PayloadView {
        samples: if unit.samples.len() > 0 && unit.samples[0].start > unit.sequence_header_len {
            samples.update(0, seq![es.take(unit.sequence_header_len)] + samples[0])
        } else {
            samples
        },
        length_prefixed: false,
    }
}

/// A unit with pictures has samples.
proof fn lemma_unit_samples(es: Seq<u8>, unit: UnitView, n: nat)
    ensures
        unit_samples(es, unit, n).len() >= n,
        n > 0 ==> unit_samples(es, unit, n)[0].len() == 1,
    decreases n,
{
    if n > 0 {
        lemma_unit_samples(es, unit, (n - 1) as nat);
    }
}

/// One byte string as a sample.
fn lone_part<'a>(part: &'a [u8]) -> (sample: Vec<&'a [u8]>)
    ensures
        parts_view(sample@) == seq![part@],
{
    let mut sample: Vec<&'a [u8]> = Vec::new();
    sample.push(part);
    assert(parts_view(sample@) =~= seq![part@]);
    sample
}

/// The samples of a passthrough unit as the `mdat` will carry them.
///
/// A sample that does not open the unit but is the first one kept is given the
/// sequence header the unit opens with: the pictures that stood between them
/// were dropped, and their bytes with them.
pub fn mpeg2_payload<'a>(es: &'a [u8], unit: &Mpeg2Unit) -> (payload: VideoPayload<'a>)
    requires
        unit@.fits(es@.len() as int),
    ensures
        payload@ == passthrough(es@, unit@),
{
    let split_fields: bool = unit.timeline.split_field_samples;
    let mut samples: Vec<Vec<&'a [u8]>> = Vec::new();
    let mut i: usize = 0;
    assert(samples_view(samples@) =~= unit_samples(es@, unit@, 0));
    while i < unit.samples.len()
        invariant
            i <= unit.samples@.len(),
            unit@.fits(es@.len() as int),
            split_fields == unit@.timeline.split_field_samples,
            samples_view(samples@) == unit_samples(es@, unit@, i as nat),
        decreases unit.samples@.len() - i,
    {
        let sample: Mpeg2Sample = unit.samples[i];
        assert(unit@.samples[i as int].fits(es@.len() as int, unit@.timeline.split_field_samples));
        let ghost before = samples@;
        // The two fields of a pair are already two coded pictures here, so
        // giving each its own sample is a matter of not joining them.
        match sample.field_end {
            Some(field_end) if split_fields => {
                let first = lone_part(&es[sample.start..field_end]);
                let second = lone_part(&es[field_end..sample.end]);
                let ghost views = (parts_view(first@), parts_view(second@));
                samples.push(first);
                samples.push(second);
                assert(samples_view(samples@) =~= samples_view(before).push(views.0).push(
                    views.1,
                ));
            },
            _ => {
                let whole = lone_part(&es[sample.start..sample.end]);
                let ghost view = parts_view(whole@);
                samples.push(whole);
                assert(samples_view(samples@) =~= samples_view(before).push(view));
            },
        }
        i = i + 1;
    }
    if unit.samples.len() > 0 && unit.samples[0].start > unit.sequence_header_len {
        proof {
            lemma_unit_samples(es@, unit@, unit@.samples.len());
            assert(samples_view(samples@)[0] == parts_view(samples@[0]@));
            assert(samples@[0]@.len() == parts_view(samples@[0]@).len());
        }
        let header = lone_part(&es[0..unit.sequence_header_len]);
        assert(es@.subrange(0, unit.sequence_header_len as int) =~= es@.take(
            unit.sequence_header_len as int,
        ));
        assert(parts_view(header@).len() == header@.len());
        prepend_parts(&mut samples, &header);
    }
    VideoPayload::mpeg2(samples)
}

/// Which of the samples of the first `n` pictures a decoder can be started on.
pub open spec fn sync_marks(unit: UnitView, random_access: bool, n: nat) -> Seq<bool>
    decreases n,
{
    if n == 0 {
        seq![]
    } else {
        let before = sync_marks(unit, random_access, (n - 1) as nat);
        let sample = unit.samples[n - 1];
        let marked = before.push(n == 1 && random_access && sample.sync);
        if unit.timeline.split_field_samples && sample.field_end is Some {
            marked.push(false)
        } else {
            marked
        }
    }
}

/// Which of a passthrough unit's samples a decoder can be started on, in step
/// with what [`mpeg2_payload`] emits.
///
/// Only the sample that opens a restart point is marked, which is where the
/// conversion puts its IDR and its recovery points. The intra pictures
/// between them are no more startable here than there: an open group's leading
/// B pictures follow one in decode order and reference the group before it.
pub fn mpeg2_sync_samples(unit: &Mpeg2Unit, random_access: bool) -> (sync: Vec<bool>)
    ensures
        sync@ == sync_marks(unit@, random_access, unit@.samples.len()),
{
    let split_fields: bool = unit.timeline.split_field_samples;
    let mut sync: Vec<bool> = Vec::new();
    let mut i: usize = 0;
    while i < unit.samples.len()
        invariant
            i <= unit.samples@.len(),
            split_fields == unit@.timeline.split_field_samples,
            sync@ == sync_marks(unit@, random_access, i as nat),
            (i == 0) == (sync@.len() == 0),
        decreases unit.samples@.len() - i,
    {
        let sample: Mpeg2Sample = unit.samples[i];
        let opens: bool = sync.len() == 0;
        sync.push(opens && random_access && sample.sync);
        // The second field of a pair is half a picture, and no decoder starts
        // on one.
        if split_fields && sample.field_end.is_some() {
            sync.push(false);
        }
        i = i + 1;
    }
    sync
}

/// The samples of a passthrough unit and the marks on them are as many, and no
/// sample but the first is marked.
pub proof fn law_only_the_first_sample_is_marked(es: Seq<u8>, unit: UnitView, random_access: bool)
    ensures
        ({
            let marks = sync_marks(unit, random_access, unit.samples.len());
            &&& marks.len() == passthrough(es, unit).samples.len()
            &&& forall|i: int| 1 <= i < marks.len() ==> !(#[trigger] marks[i])
            &&& marks.len() > 0 ==> marks[0] == (random_access && unit.samples[0].sync)
        }),
{
    lemma_marks(es, unit, random_access, unit.samples.len());
}

/// The marks are as many as the samples, and none but the first is set.
proof fn lemma_marks(es: Seq<u8>, unit: UnitView, random_access: bool, n: nat)
    ensures
        ({
            let marks = sync_marks(unit, random_access, n);
            &&& marks.len() == unit_samples(es, unit, n).len()
            &&& forall|i: int| 1 <= i < marks.len() ==> !(#[trigger] marks[i])
            &&& marks.len() > 0 ==> marks[0] == (random_access && unit.samples[0].sync)
            &&& n <= marks.len()
        }),
    decreases n,
{
    if n > 0 {
        lemma_marks(es, unit, random_access, (n - 1) as nat);
    }
}

/// A unit's pictures stand one behind the other in a byte stream.
pub open spec fn back_to_back(unit: UnitView) -> bool {
    forall|i: int|
        #![trigger unit.samples[i]]
        0 < i < unit.samples.len() ==> unit.samples[i - 1].end == unit.samples[i].start
}

/// Passthrough carries the pictures it keeps byte for byte: where they stand one
/// behind the other, the media data is the stretch of the stream that holds them,
/// however their field pairs are cut.
pub proof fn law_passthrough_keeps_the_bytes(es: Seq<u8>, unit: UnitView)
    requires
        unit.fits(es.len() as int),
        back_to_back(unit),
        unit.samples.len() > 0,
        unit.samples[0].start <= unit.sequence_header_len,
    ensures
        passthrough(es, unit).all_media() == es.subrange(
            unit.samples[0].start as int,
            unit.samples.last().end as int,
        ),
{
    lemma_kept_bytes(es, unit, unit.samples.len());
}

/// The media data of the first `n` pictures is the stretch that holds them.
proof fn lemma_kept_bytes(es: Seq<u8>, unit: UnitView, n: nat)
    requires
        unit.fits(es.len() as int),
        back_to_back(unit),
        0 < n <= unit.samples.len(),
    ensures
        ({
            let samples = unit_samples(es, unit, n);
            &&& unit.samples[0].start <= unit.samples[n - 1].end
            &&& (PayloadView { samples, length_prefixed: false }).all_media() == es.subrange(
                unit.samples[0].start as int,
                unit.samples[n - 1].end as int,
            )
        }),
    decreases n,
{
    let m = (n - 1) as nat;
    let sample = unit.samples[n - 1];
    let before = PayloadView { samples: unit_samples(es, unit, m), length_prefixed: false };
    let now = PayloadView { samples: unit_samples(es, unit, n), length_prefixed: false };
    assert(sample.fits(es.len() as int, unit.timeline.split_field_samples));
    let k = before.samples.len();
    lemma_same_media(before, now, k);
    if m > 0 {
        lemma_kept_bytes(es, unit, m);
        assert(unit.samples[n - 1].start == unit.samples[n - 2].end);
        assert(unit.samples[n - 2].fits(es.len() as int, unit.timeline.split_field_samples));
    } else {
        assert(k == 0);
        assert(now.media(k) =~= es.subrange(sample.start as int, sample.start as int));
    }
    let start = unit.samples[0].start as int;
    assert(now.media(k) == es.subrange(start, sample.start as int));
    match sample.field_end {
        Some(cut) if unit.timeline.split_field_samples => {
            let a = es.subrange(sample.start as int, cut as int);
            let b = es.subrange(cut as int, sample.end as int);
            lemma_lone_sample(now, k, a);
            lemma_lone_sample(now, k + 1, b);
            lemma_joined(es, start, sample.start as int, cut as int);
            lemma_joined(es, start, cut as int, sample.end as int);
        },
        _ => {
            lemma_lone_sample(now, k, es.subrange(sample.start as int, sample.end as int));
            lemma_joined(es, start, sample.start as int, sample.end as int);
        },
    }
}

/// Two stretches that meet make one.
proof fn lemma_joined(es: Seq<u8>, a: int, b: int, c: int)
    requires
        0 <= a <= b <= c <= es.len(),
    ensures
        es.subrange(a, b) + es.subrange(b, c) == es.subrange(a, c),
{
    assert(es.subrange(a, b) + es.subrange(b, c) =~= es.subrange(a, c));
}

/// A sample of one part adds that part.
proof fn lemma_lone_sample(payload: PayloadView, k: nat, part: Seq<u8>)
    requires
        k < payload.samples.len(),
        payload.samples[k as int] == seq![part],
        !payload.length_prefixed,
    ensures
        payload.media(k + 1) == payload.media(k) + part,
{
    let parts = seq![part];
    assert(parts_bytes(parts, false, 0) == Seq::<u8>::empty());
    assert(parts_bytes(parts, false, 1) == parts_bytes(parts, false, 0) + part);
    assert(Seq::<u8>::empty() + part =~= part);
    assert(payload.sample(k as int) == part);
}

/// The same samples make the same media data.
proof fn lemma_same_media(a: PayloadView, b: PayloadView, n: nat)
    requires
        a.length_prefixed == b.length_prefixed,
        n <= a.samples.len(),
        n <= b.samples.len(),
        forall|i: int| 0 <= i < n ==> a.samples[i] == b.samples[i],
    ensures
        a.media(n) == b.media(n),
    decreases n,
{
    if n > 0 {
        lemma_same_media(a, b, (n - 1) as nat);
    }
}

} // verus!
