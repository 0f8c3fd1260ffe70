//! What a stream says of a picture can be cut out of it.
use crate::bitreader;
use crate::bitreader::StartCode;
use crate::bits;
use crate::error::Error;
use crate::mpeg2::constants::{extension, start_code};
use crate::mpeg2::headers;
use crate::mpeg2::headers::{ParseState, PictureView};
use crate::mpeg2::standalone;
use crate::mpeg2::syntax;
use vstd::prelude::*;

verus! {

/// Start codes in a stream whose bytes stand `by` places before.
pub open spec fn moved_codes(codes: Seq<StartCode>, by: int) -> Seq<StartCode> {
    Seq::new(codes.len(), |k: int| standalone::moved_code(codes[k], by))
}

/// From a start code on there are the start codes that follow it.
proof fn lemma_codes_from(data: Seq<u8>, at: int, k: int)
    requires
        0 <= at,
        data.len() <= usize::MAX,
        0 <= k < bitreader::start_codes(data, at).len(),
    ensures
        bitreader::start_codes(data, bitreader::start_codes(data, at)[k].offset as int)
            == bitreader::start_codes(data, at).skip(k),
    decreases data.len() - at,
{
    let all = bitreader::start_codes(data, at);
    if bitreader::is_start_code(data, at) {
        let rest = bitreader::start_codes(data, at + 3);
        if k > 0 {
            lemma_codes_from(data, at + 3, k - 1);
            assert(all[k] == rest[k - 1]);
            assert(all.skip(k) =~= rest.skip(k - 1));
        } else {
            assert(all.skip(0) =~= all);
        }
    } else {
        lemma_codes_from(data, at + 1, k);
    }
}

/// A stream that is cut off at a start code has the start codes in front of it, if they
/// are whole.
proof fn lemma_scan_cut(data: Seq<u8>, other: Seq<u8>, at: int, end: int, by: int, n: int)
    requires
        data.len() <= usize::MAX,
        0 <= by <= at <= end <= data.len(),
        other.len() == end - by,
        forall|x: int| at <= x < end ==> data[x] == other[x - by],
        0 <= n <= bitreader::start_codes(data, at).len(),
        forall|k: int|
            0 <= k < n ==> (#[trigger] bitreader::start_codes(data, at)[k]).offset + 4 <= end,
        n < bitreader::start_codes(data, at).len() ==> bitreader::start_codes(data, at)[n].offset
            >= end,
    ensures
        bitreader::start_codes(other, at - by) == moved_codes(
            bitreader::start_codes(data, at).take(n),
            by,
        ),
    decreases end - at,
{
    let codes = bitreader::start_codes(data, at);
    headers::lemma_start_codes_inside(data, at);
    if at + 3 >= end {
        if n > 0 {
            assert(codes[0].offset + 4 <= end);
            assert(at <= codes[0].offset);
        }
        assert(bitreader::start_codes(other, at - by) =~= moved_codes(codes.take(n), by));
    } else {
        assert(data[at] == other[at - by]);
        assert(data[at + 1] == other[at + 1 - by]);
        assert(data[at + 2] == other[at + 2 - by]);
        assert(data[at + 3] == other[at + 3 - by]);
        if bitreader::is_start_code(data, at) {
            let rest = bitreader::start_codes(data, at + 3);
            assert(codes[0].offset == at);
            assert(n >= 1);
            assert forall|k: int| 0 <= k < n - 1 implies (#[trigger] rest[k]).offset + 4
                <= end by {
                assert(rest[k] == codes[k + 1]);
            }
            if n - 1 < rest.len() {
                assert(rest[n - 1] == codes[n]);
            }
            lemma_scan_cut(data, other, at + 3, end, by, n - 1);
            assert(bitreader::start_codes(other, at - by) =~= moved_codes(codes.take(n), by)) by {
                let moved = moved_codes(rest.take(n - 1), by);
                assert(bitreader::start_codes(other, at - by) == seq![
                    standalone::moved_code(codes[0], by),
                ] + moved);
            }
        } else {
            lemma_scan_cut(data, other, at + 1, end, by, n);
        }
    }
}

/// A stream that goes on alike up to the first bytes of a start code has the start codes
/// in front of it.
proof fn lemma_scan_until(data: Seq<u8>, other: Seq<u8>, at: int, stop: int, by: int, n: int)
    requires
        data.len() <= usize::MAX,
        other.len() <= usize::MAX,
        0 <= by <= at <= stop,
        stop + 3 < data.len(),
        stop - by + 3 < other.len(),
        forall|x: int| at <= x < stop + 3 ==> data[x] == other[x - by],
        0 <= n < bitreader::start_codes(data, at).len(),
        bitreader::start_codes(data, at)[n].offset == stop,
    ensures
        bitreader::start_codes(other, at - by) == moved_codes(
            bitreader::start_codes(data, at).take(n),
            by,
        ) + bitreader::start_codes(other, stop - by),
    decreases stop - at,
{
    let codes = bitreader::start_codes(data, at);
    headers::lemma_start_codes_inside(data, at);
    headers::lemma_start_codes_increase(data, at);
    if at == stop {
        if n > 0 {
            assert(codes[0].offset < codes[n].offset);
        }
        assert(bitreader::start_codes(other, at - by) =~= moved_codes(codes.take(n), by)
            + bitreader::start_codes(other, stop - by));
    } else {
        assert(data[at] == other[at - by]);
        assert(data[at + 1] == other[at + 1 - by]);
        assert(data[at + 2] == other[at + 2 - by]);
        assert(data[at + 3] == other[at + 3 - by]);
        if bitreader::is_start_code(data, at) {
            let rest = bitreader::start_codes(data, at + 3);
            assert(codes[0].offset == at);
            assert(n >= 1);
            assert(rest[n - 1] == codes[n]);
            headers::lemma_start_codes_inside(data, at + 3);
            lemma_scan_until(data, other, at + 3, stop, by, n - 1);
            let moved = moved_codes(rest.take(n - 1), by);
            let tail = bitreader::start_codes(other, stop - by);
            assert(bitreader::start_codes(other, at - by) == seq![
                standalone::moved_code(codes[0], by),
            ] + (moved + tail));
            assert(moved_codes(codes.take(n), by) =~= seq![
                standalone::moved_code(codes[0], by),
            ] + moved);
            assert(bitreader::start_codes(other, at - by) =~= moved_codes(codes.take(n), by)
                + tail);
        } else {
            lemma_scan_until(data, other, at + 1, stop, by, n);
        }
    }
}

/// What a parse has gathered behind a start code and what it introduces.
#[verifier::opaque]
pub open spec fn step_at(
    data: Seq<u8>,
    codes: Seq<StartCode>,
    k: int,
    state: ParseState,
) -> Result<ParseState, Error> {
    headers::parse_step(data, codes[k], headers::header_end(data, codes, k), state)
}

/// What a parse has gathered between two start codes.
pub open spec fn run(
    data: Seq<u8>,
    codes: Seq<StartCode>,
    from: int,
    to: int,
    state: ParseState,
) -> Result<ParseState, Error>
    decreases to - from,
{
    if to <= from {
        Ok(state)
    } else {
        match run(data, codes, from, to - 1, state) {
            Ok(before) => step_at(data, codes, to - 1, before),
            Err(e) => Err(e),
        }
    }
}

/// A parse goes on from what it has gathered.
proof fn lemma_run_parses(
    data: Seq<u8>,
    codes: Seq<StartCode>,
    from: int,
    to: int,
    state: ParseState,
)
    requires
        0 <= from <= to <= codes.len(),
    ensures
        match run(data, codes, from, to, state) {
            Ok(after) => headers::parse_codes(data, codes, from, state) == headers::parse_codes(
                data,
                codes,
                to,
                after,
            ),
            Err(e) => headers::parse_codes(data, codes, from, state) is Err,
        },
    decreases to - from,
{
    reveal(step_at);
    if from < to {
        lemma_run_parses(data, codes, from, to - 1, state);
    }
}

/// A parse that is gone through in two goes.
proof fn lemma_run_on(
    data: Seq<u8>,
    codes: Seq<StartCode>,
    from: int,
    mid: int,
    to: int,
    state: ParseState,
)
    requires
        from <= mid <= to,
        run(data, codes, from, mid, state) is Ok,
    ensures
        run(data, codes, from, to, state) == run(
            data,
            codes,
            mid,
            to,
            run(data, codes, from, mid, state)->Ok_0,
        ),
    decreases to - mid,
{
    if mid < to {
        lemma_run_on(data, codes, from, mid, to - 1, state);
    }
}

/// What the parse of a stream has gathered when it comes to a start code.
pub open spec fn gathered(data: Seq<u8>, k: int) -> ParseState {
    run(data, bitreader::start_codes(data, 0), 0, k, ParseState::initial())->Ok_0
}

/// The stream can be parsed.
pub open spec fn parses(data: Seq<u8>) -> bool {
    headers::parsed(data) is Ok && 8 * data.len() <= usize::MAX
}

/// A parse that ends well went well all along.
proof fn lemma_gathered(data: Seq<u8>, k: int)
    requires
        parses(data),
        0 <= k <= bitreader::start_codes(data, 0).len(),
    ensures
        ({
            let codes = bitreader::start_codes(data, 0);
            &&& run(data, codes, 0, k, ParseState::initial()) == Ok::<ParseState, Error>(
                gathered(data, k),
            )
            &&& k < codes.len() ==> headers::parse_step(
                data,
                codes[k],
                headers::header_end(data, codes, k),
                gathered(data, k),
            ) == Ok::<ParseState, Error>(gathered(data, k + 1))
        }),
{
    reveal(step_at);
    let codes = bitreader::start_codes(data, 0);
    lemma_run_parses(data, codes, 0, k, ParseState::initial());
    if k < codes.len() {
        lemma_run_parses(data, codes, 0, k + 1, ParseState::initial());
    }
}

/// Whether a start code introduces a slice.
pub open spec fn is_slice(code: StartCode) -> bool {
    start_code::SLICE_MIN <= code.code <= start_code::SLICE_MAX
}

/// Whether a start code introduces an extension of a kind.
pub open spec fn is_extension(data: Seq<u8>, code: StartCode, id: int) -> bool {
    code.code == start_code::EXTENSION && bits::bits(data, 8 * code.payload_offset, 4) == id
}

/// What a header does to what is in effect: a sequence header and the extensions that
/// change it say where they are, and nothing else changes it.
proof fn lemma_step_description(data: Seq<u8>, code: StartCode, ends: int, state: ParseState)
    requires
        headers::parse_step(data, code, ends, state) is Ok,
        code.payload_offset <= data.len(),
    ensures
        ({
            let next = headers::parse_step(data, code, ends, state)->Ok_0;
            &&& state.sequence is Some ==> next.sequence is Some
            &&& if code.code == start_code::SEQUENCE_HEADER {
                &&& next.sequence is Some
                &&& next.context_start == code.offset
                &&& next.context_end == ends
            } else {
                &&& next.context_start == state.context_start
                &&& next.sequence is Some ==> state.sequence is Some
                &&& {
                    ||| {
                        &&& standalone::same_description(next, state)
                        &&& next.context_end == state.context_end
                    }
                    ||| {
                        &&& next.context_end == ends
                        &&& is_extension(data, code, extension::SEQUENCE as int) || is_extension(
                            data,
                            code,
                            extension::QUANT_MATRIX as int,
                        )
                    }
                }
            }
        }),
{
    reveal(headers::extension_step);
    reveal(headers::picture_step);
    assert(bits::advance(data, 0, (8 * code.payload_offset) as nat) == 8 * code.payload_offset);
}

/// What a header does to the pictures: only the last one can change, and one more can
/// follow.
proof fn lemma_step_pictures(data: Seq<u8>, code: StartCode, ends: int, state: ParseState)
    requires
        headers::parse_step(data, code, ends, state) is Ok,
        code.payload_offset <= data.len(),
    ensures
        ({
            let next = headers::parse_step(data, code, ends, state)->Ok_0;
            let ended = headers::slice_ended(state.pictures, (8 * code.offset) as usize);
            let opens = code.code == start_code::PICTURE && state.sequence is Some;
            &&& ended.len() == state.pictures.len()
            &&& next.pictures.len() == state.pictures.len() + if opens {
                1int
            } else {
                0
            }
            &&& opens ==> {
                &&& next.pictures.last().slices.len() == 0
                &&& next.pictures.last().context_start == state.context_start
                &&& next.pictures.last().context_end == state.context_end
            }
            &&& forall|q: int|
                0 <= q < state.pictures.len() - 1 ==> #[trigger] next.pictures[q]
                    == state.pictures[q]
            &&& state.pictures.len() > 0 ==> {
                let q = state.pictures.len() - 1;
                &&& next.pictures[q].context_start == state.pictures[q].context_start
                &&& next.pictures[q].context_end == state.pictures[q].context_end
                &&& is_slice(code) ==> {
                    &&& next.pictures[q].slices.len() == state.pictures[q].slices.len() + 1
                    &&& next.pictures[q].slices.last().data_end_bit is None
                }
                &&& !is_slice(code) ==> next.pictures[q].slices == ended[q].slices
                &&& !is_slice(code) && !is_extension(
                    data,
                    code,
                    extension::QUANT_MATRIX as int,
                ) && !is_extension(data, code, extension::PICTURE_CODING as int)
                    ==> next.pictures[q] == ended[q]
            }
        }),
{
    reveal(headers::extension_step);
    reveal(headers::picture_step);
    reveal(headers::slice_ended);
    reveal(syntax::slice_at);
    assert(bits::advance(data, 0, (8 * code.payload_offset) as nat) == 8 * code.payload_offset);
}

/// The parse comes from one start code to the next.
proof fn lemma_step(data: Seq<u8>, k: int)
    requires
        parses(data),
        0 <= k < bitreader::start_codes(data, 0).len(),
    ensures
        ({
            let codes = bitreader::start_codes(data, 0);
            let ends = headers::header_end(data, codes, k);
            &&& headers::parse_step(data, codes[k], ends, gathered(data, k)) == Ok::<
                ParseState,
                Error,
            >(gathered(data, k + 1))
            &&& codes[k].payload_offset == codes[k].offset + 4
            &&& codes[k].payload_offset <= data.len()
            &&& codes[k].offset < ends <= data.len()
        }),
{
    lemma_gathered(data, k);
    headers::lemma_start_codes_inside(data, 0);
    headers::lemma_start_codes_increase(data, 0);
    let codes = bitreader::start_codes(data, 0);
    assert(codes[k].offset >= 0);
    if k + 1 < codes.len() {
        assert(codes[k + 1].payload_offset <= data.len());
        assert(codes[k].offset < codes[k + 1].offset);
    }
}

/// There are never fewer pictures, nor is a sequence header forgotten.
proof fn lemma_grows(data: Seq<u8>, k: int, m: int)
    requires
        parses(data),
        0 <= k <= m <= bitreader::start_codes(data, 0).len(),
    ensures
        gathered(data, k).pictures.len() <= gathered(data, m).pictures.len(),
        gathered(data, k).sequence is Some ==> gathered(data, m).sequence is Some,
    decreases m - k,
{
    if k < m {
        lemma_grows(data, k, m - 1);
        lemma_step(data, m - 1);
        let codes = bitreader::start_codes(data, 0);
        let ends = headers::header_end(data, codes, m - 1);
        lemma_step_pictures(data, codes[m - 1], ends, gathered(data, m - 1));
        lemma_step_description(data, codes[m - 1], ends, gathered(data, m - 1));
    }
}

/// Where there is a picture there is a sequence header.
proof fn lemma_has_sequence(data: Seq<u8>, k: int)
    requires
        parses(data),
        0 <= k <= bitreader::start_codes(data, 0).len(),
        gathered(data, k).pictures.len() > 0,
    ensures
        gathered(data, k).sequence is Some,
    decreases k,
{
    if k > 0 {
        lemma_step(data, k - 1);
        let codes = bitreader::start_codes(data, 0);
        let ends = headers::header_end(data, codes, k - 1);
        lemma_step_pictures(data, codes[k - 1], ends, gathered(data, k - 1));
        lemma_step_description(data, codes[k - 1], ends, gathered(data, k - 1));
        if gathered(data, k - 1).pictures.len() > 0 {
            lemma_has_sequence(data, k - 1);
        }
    }
}

/// A picture was opened by its header.
proof fn lemma_opened(data: Seq<u8>, k: int, q: int) -> (h: int)
    requires
        parses(data),
        0 <= k <= bitreader::start_codes(data, 0).len(),
        0 <= q < gathered(data, k).pictures.len(),
    ensures
        0 <= h < k,
        bitreader::start_codes(data, 0)[h].code == start_code::PICTURE,
        gathered(data, h).sequence is Some,
        gathered(data, h).pictures.len() == q,
        gathered(data, h + 1).pictures.len() == q + 1,
        gathered(data, k).pictures[q].context_start == gathered(data, h).context_start,
        gathered(data, k).pictures[q].context_end == gathered(data, h).context_end,
    decreases k,
{
    if k == 0 {
        assert(gathered(data, 0) == ParseState::initial());
        0
    } else {
        lemma_step(data, k - 1);
        let codes = bitreader::start_codes(data, 0);
        let ends = headers::header_end(data, codes, k - 1);
        let before = gathered(data, k - 1);
        lemma_step_pictures(data, codes[k - 1], ends, before);
        if q < before.pictures.len() {
            let h = lemma_opened(data, k - 1, q);
            if q < before.pictures.len() - 1 {
                assert(gathered(data, k).pictures[q] == before.pictures[q]);
            }
            h
        } else {
            k - 1
        }
    }
}

/// A picture that has slices had the last of them somewhere, and nothing is added to it
/// from there on. The slice ends at the next start code.
proof fn lemma_last_slice(data: Seq<u8>, k: int, q: int) -> (e: int)
    requires
        parses(data),
        0 <= k <= bitreader::start_codes(data, 0).len(),
        0 <= q < gathered(data, k).pictures.len(),
        gathered(data, k).pictures[q].slices.len() > 0,
    ensures
        0 < e <= k,
        is_slice(bitreader::start_codes(data, 0)[e - 1]),
        gathered(data, e).pictures.len() == q + 1,
        gathered(data, e).pictures[q].slices.len() > 0,
        gathered(data, e).pictures[q].slices.last().data_end_bit is None,
        gathered(data, k).pictures[q].slices == (if e == k {
            gathered(data, e).pictures[q].slices
        } else {
            headers::slice_ended(
                gathered(data, e).pictures,
                (8 * bitreader::start_codes(data, 0)[e].offset) as usize,
            )[q].slices
        }),
        forall|y: int|
            e <= y < k && #[trigger] gathered(data, y).pictures.len() == q + 1 ==> !is_slice(
                bitreader::start_codes(data, 0)[y],
            ),
    decreases k,
{
    reveal(headers::slice_ended);
    if k == 0 {
        assert(gathered(data, 0) == ParseState::initial());
        0
    } else {
        lemma_step(data, k - 1);
        let codes = bitreader::start_codes(data, 0);
        let ends = headers::header_end(data, codes, k - 1);
        let before = gathered(data, k - 1);
        let after = gathered(data, k);
        lemma_step_pictures(data, codes[k - 1], ends, before);
        if q < before.pictures.len() - 1 {
            assert(after.pictures[q] == before.pictures[q]);
            lemma_last_slice(data, k - 1, q)
        } else if is_slice(codes[k - 1]) {
            k
        } else {
            lemma_last_slice(data, k - 1, q)
        }
    }
}

/// Whether a start code of a kind stands between two others.
pub open spec fn comes_between(codes: Seq<StartCode>, code: u8, x: int, k: int) -> bool {
    exists|y: int| x < y < k && (#[trigger] codes[y]).code == code
}

/// Extensions stand where the syntax has them: those of a picture between its header and
/// its slices, and those of a sequence behind a sequence header, in front of the pictures.
pub open spec fn orderly(data: Seq<u8>) -> bool {
    let codes = bitreader::start_codes(data, 0);
    forall|x: int, k: int|
        #![trigger is_slice(codes[x]), codes[k]]
        0 <= x < k < codes.len() && is_slice(codes[x]) ==> {
            &&& is_extension(data, codes[k], extension::SEQUENCE as int) ==> comes_between(
                codes,
                start_code::SEQUENCE_HEADER,
                x,
                k,
            )
            &&& is_extension(data, codes[k], extension::QUANT_MATRIX as int) ==> comes_between(
                codes,
                start_code::PICTURE,
                x,
                k,
            )
            &&& is_extension(data, codes[k], extension::PICTURE_CODING as int) ==> comes_between(
                codes,
                start_code::PICTURE,
                x,
                k,
            )
        }
}

/// Every header that is followed by another can be read from its own bytes, and so can
/// every slice's.
#[verifier::opaque]
pub open spec fn complete(data: Seq<u8>) -> bool {
    let codes = bitreader::start_codes(data, 0);
    forall|k: int|
        0 <= k < codes.len() && (k + 1 < codes.len() || is_slice(codes[k])) ==> standalone::has_room(
            data,
            #[trigger] codes[k],
            headers::header_end(data, codes, k),
            gathered(data, k),
        )
}

/// A header of a complete stream can be read from its own bytes.
proof fn lemma_room(data: Seq<u8>, k: int)
    requires
        complete(data),
        0 <= k < bitreader::start_codes(data, 0).len(),
        k + 1 < bitreader::start_codes(data, 0).len() || is_slice(
            bitreader::start_codes(data, 0)[k],
        ),
    ensures
        ({
            let codes = bitreader::start_codes(data, 0);
            standalone::has_room(
                data,
                codes[k],
                headers::header_end(data, codes, k),
                gathered(data, k),
            )
        }),
{
    reveal(complete);
}

/// No picture is opened while the pictures stay as many.
proof fn lemma_no_picture(data: Seq<u8>, from: int, to: int, y: int)
    requires
        parses(data),
        0 <= from <= y < to <= bitreader::start_codes(data, 0).len(),
        gathered(data, from).pictures.len() > 0,
        gathered(data, to).pictures.len() == gathered(data, from).pictures.len(),
    ensures
        bitreader::start_codes(data, 0)[y].code != start_code::PICTURE,
{
    let codes = bitreader::start_codes(data, 0);
    lemma_has_sequence(data, from);
    lemma_grows(data, from, y);
    lemma_grows(data, y + 1, to);
    lemma_step(data, y);
    lemma_step_pictures(data, codes[y], headers::header_end(data, codes, y), gathered(data, y));
}

/// Nothing behind its last slice changes a picture.
proof fn lemma_settled(data: Seq<u8>, e: int, k: int, q: int)
    requires
        parses(data),
        orderly(data),
        0 < e < k <= bitreader::start_codes(data, 0).len(),
        0 <= q,
        is_slice(bitreader::start_codes(data, 0)[e - 1]),
        gathered(data, e).pictures.len() == q + 1,
        gathered(data, e).pictures[q].slices.len() > 0,
        gathered(data, e).pictures[q].slices.last().data_end_bit is None,
        forall|y: int|
            e <= y < k && #[trigger] gathered(data, y).pictures.len() == q + 1 ==> !is_slice(
                bitreader::start_codes(data, 0)[y],
            ),
    ensures
        gathered(data, k).pictures.len() > q,
        gathered(data, k).pictures[q] == headers::slice_ended(
            gathered(data, e).pictures,
            (8 * bitreader::start_codes(data, 0)[e].offset) as usize,
        )[q],
    decreases k,
{
    let codes = bitreader::start_codes(data, 0);
    let before = gathered(data, k - 1);
    lemma_step(data, k - 1);
    lemma_step_pictures(data, codes[k - 1], headers::header_end(data, codes, k - 1), before);
    if e < k - 1 {
        lemma_settled(data, e, k - 1, q);
    }
    if before.pictures.len() == q + 1 {
        if is_extension(data, codes[k - 1], extension::QUANT_MATRIX as int) || is_extension(
            data,
            codes[k - 1],
            extension::PICTURE_CODING as int,
        ) {
            assert(is_slice(codes[e - 1]));
            assert(comes_between(codes, start_code::PICTURE, e - 1, k - 1));
            let y = choose|y: int|
                e - 1 < y < k - 1 && (#[trigger] codes[y]).code == start_code::PICTURE;
            lemma_no_picture(data, e, k - 1, y);
        }
        reveal(headers::slice_ended);
    } else {
        assert(gathered(data, k).pictures[q] == before.pictures[q]);
    }
}

/// What is in effect at a start code was said between a sequence header and the last
/// thing that changed it, and those are where the parse says.
proof fn lemma_said(data: Seq<u8>, k: int) -> (ab: (int, int))
    requires
        parses(data),
        0 <= k < bitreader::start_codes(data, 0).len(),
        gathered(data, k).sequence is Some,
    ensures
        ({
            let codes = bitreader::start_codes(data, 0);
            let (a, b) = ab;
            &&& 0 <= a < b <= k
            &&& codes[a].code == start_code::SEQUENCE_HEADER
            &&& codes[a].offset == gathered(data, k).context_start
            &&& codes[b].offset == gathered(data, k).context_end
            &&& forall|y: int|
                a < y < k ==> (#[trigger] codes[y]).code != start_code::SEQUENCE_HEADER
            &&& forall|m: int|
                b <= m <= k ==> standalone::same_description(
                    gathered(data, b),
                    #[trigger] gathered(data, m),
                )
            &&& a == b - 1 || is_extension(data, codes[b - 1], extension::SEQUENCE as int)
                || is_extension(data, codes[b - 1], extension::QUANT_MATRIX as int)
        }),
    decreases k,
{
    let codes = bitreader::start_codes(data, 0);
    if k == 0 {
        assert(gathered(data, 0) == ParseState::initial());
        (0, 0)
    } else {
        let ends = headers::header_end(data, codes, k - 1);
        lemma_step(data, k - 1);
        lemma_step_description(data, codes[k - 1], ends, gathered(data, k - 1));
        assert(ends == codes[k].offset);
        if codes[k - 1].code == start_code::SEQUENCE_HEADER {
            (k - 1, k)
        } else {
            let (a, b) = lemma_said(data, k - 1);
            if standalone::same_description(gathered(data, k), gathered(data, k - 1))
                && gathered(data, k).context_end == gathered(data, k - 1).context_end {
                (a, b)
            } else {
                (a, k)
            }
        }
    }
}

/// Without a sequence header a parse gathers no picture, and nothing goes wrong.
proof fn lemma_before_sequence(data: Seq<u8>, codes: Seq<StartCode>, to: int)
    requires
        0 <= to <= codes.len(),
        forall|y: int|
            0 <= y < to ==> (#[trigger] codes[y]).code != start_code::SEQUENCE_HEADER,
    ensures
        run(data, codes, 0, to, ParseState::initial()) is Ok,
        run(data, codes, 0, to, ParseState::initial())->Ok_0.sequence is None,
        run(data, codes, 0, to, ParseState::initial())->Ok_0.pictures.len() == 0,
    decreases to,
{
    if to > 0 {
        lemma_before_sequence(data, codes, to - 1);
        reveal(step_at);
        reveal(headers::extension_step);
        reveal(headers::picture_step);
        reveal(headers::slice_ended);
    }
}

/// The start codes from `from` to `to` stand in another stream too, from `there` on, `by`
/// places before.
#[verifier::opaque]
pub open spec fn stand_in_both(
    data: Seq<u8>,
    codes: Seq<StartCode>,
    from: int,
    to: int,
    other: Seq<u8>,
    others: Seq<StartCode>,
    there: int,
    by: int,
) -> bool {
    &&& 0 <= from <= to <= codes.len()
    &&& 0 <= there
    &&& there + (to - from) <= others.len()
    &&& forall|m: int|
        #![trigger codes[m]]
        from <= m < to ==> {
            let ends = headers::header_end(data, codes, m);
            &&& others[there + (m - from)] == standalone::moved_code(codes[m], by)
            &&& headers::header_end(other, others, there + (m - from)) == ends - by
            &&& standalone::stands_in_both(data, other, codes[m], ends, by)
        }
}

/// What stands in both streams: each start code, and fewer of them.
proof fn lemma_stand(
    data: Seq<u8>,
    codes: Seq<StartCode>,
    from: int,
    to: int,
    other: Seq<u8>,
    others: Seq<StartCode>,
    there: int,
    by: int,
)
    requires
        stand_in_both(data, codes, from, to, other, others, there, by),
        from < to,
    ensures
        0 <= from <= to <= codes.len(),
        stand_in_both(data, codes, from, to - 1, other, others, there, by),
        ({
            let k = to - 1;
            let ends = headers::header_end(data, codes, k);
            &&& others[there + (k - from)] == standalone::moved_code(codes[k], by)
            &&& headers::header_end(other, others, there + (k - from)) == ends - by
            &&& standalone::stands_in_both(data, other, codes[k], ends, by)
        }),
{
    reveal(stand_in_both);
    assert(codes[to - 1] == codes[to - 1]);
}

/// The last of several start codes does the same to both parses.
proof fn lemma_run_step(
    data: Seq<u8>,
    k: int,
    other: Seq<u8>,
    others: Seq<StartCode>,
    x: int,
    by: int,
    before: ParseState,
    i: int,
    l: int,
)
    requires
        parses(data),
        complete(data),
        0 <= k < bitreader::start_codes(data, 0).len(),
        k + 1 < bitreader::start_codes(data, 0).len() || is_slice(
            bitreader::start_codes(data, 0)[k],
        ),
        ({
            let codes = bitreader::start_codes(data, 0);
            let ends = headers::header_end(data, codes, k);
            &&& others[x] == standalone::moved_code(codes[k], by)
            &&& headers::header_end(other, others, x) == ends - by
            &&& standalone::stands_in_both(data, other, codes[k], ends, by)
            &&& standalone::same_description(gathered(data, k), before) || codes[k].code
                == start_code::SEQUENCE_HEADER
        }),
        standalone::alike_behind(gathered(data, k).pictures, before.pictures, i, l, 8 * by),
    ensures
        ({
            let after = step_at(other, others, x, before);
            &&& after is Ok
            &&& standalone::same_description(gathered(data, k + 1), after->Ok_0)
            &&& standalone::alike_behind(
                gathered(data, k + 1).pictures,
                after->Ok_0.pictures,
                i,
                l,
                8 * by,
            )
        }),
{
    reveal(step_at);
    let codes = bitreader::start_codes(data, 0);
    lemma_step(data, k);
    lemma_room(data, k);
    standalone::lemma_step_alike(
        data,
        other,
        codes[k],
        headers::header_end(data, codes, k),
        gathered(data, k),
        before,
        i,
        l,
        by,
    );
}

/// The parse of another stream goes alike where its start codes stand alike.
proof fn lemma_run_alike(
    data: Seq<u8>,
    from: int,
    to: int,
    other: Seq<u8>,
    others: Seq<StartCode>,
    there: int,
    by: int,
    state: ParseState,
    l: int,
)
    requires
        parses(data),
        complete(data),
        stand_in_both(
            data,
            bitreader::start_codes(data, 0),
            from,
            to,
            other,
            others,
            there,
            by,
        ),
        to < bitreader::start_codes(data, 0).len() || is_slice(
            bitreader::start_codes(data, 0)[to - 1],
        ),
        from < to,
        standalone::same_description(gathered(data, from), state) || bitreader::start_codes(
            data,
            0,
        )[from].code == start_code::SEQUENCE_HEADER,
        l == state.pictures.len(),
    ensures
        ({
            let i = gathered(data, from).pictures.len() as int;
            let after = run(other, others, there, there + (to - from), state);
            &&& after is Ok
            &&& standalone::same_description(gathered(data, to), after->Ok_0)
            &&& standalone::alike_behind(
                gathered(data, to).pictures,
                after->Ok_0.pictures,
                i,
                l,
                8 * by,
            )
        }),
    decreases to - from,
{
    let codes = bitreader::start_codes(data, 0);
    let i = gathered(data, from).pictures.len() as int;
    let k = to - 1;
    lemma_stand(data, codes, from, to, other, others, there, by);
    if from < k {
        lemma_run_alike(data, from, k, other, others, there, by, state, l);
    } else {
        assert(run(other, others, there, there, state) == Ok::<ParseState, Error>(state));
    }
    let x = there + (k - from);
    let before = run(other, others, there, x, state)->Ok_0;
    lemma_run_step(data, k, other, others, x, by, before, i, l);
    assert(run(other, others, there, x + 1, state) == step_at(other, others, x, before));
}

/// Where a start code stands; behind the last one, where the stream ends.
pub open spec fn place_of(data: Seq<u8>, k: int) -> int {
    let codes = bitreader::start_codes(data, 0);
    if k < codes.len() {
        codes[k].offset as int
    } else {
        data.len() as int
    }
}

/// Start codes stand one behind the other, inside the stream.
proof fn lemma_places(data: Seq<u8>, k: int, m: int)
    requires
        data.len() <= usize::MAX,
        0 <= k <= m <= bitreader::start_codes(data, 0).len(),
    ensures
        0 <= place_of(data, k) <= place_of(data, m) <= data.len(),
        k < m ==> place_of(data, k) < place_of(data, m),
        k < bitreader::start_codes(data, 0).len() ==> {
            let codes = bitreader::start_codes(data, 0);
            &&& codes[k].offset == place_of(data, k)
            &&& codes[k].payload_offset == codes[k].offset + 4
            &&& codes[k].payload_offset <= data.len()
            &&& headers::header_end(data, codes, k) == place_of(data, k + 1)
        },
{
    headers::lemma_start_codes_inside(data, 0);
    headers::lemma_start_codes_increase(data, 0);
    let codes = bitreader::start_codes(data, 0);
    if k < codes.len() {
        assert(codes[k].payload_offset <= data.len());
        if m < codes.len() {
            assert(codes[m].payload_offset <= data.len());
            if k < m {
                assert(codes[k].offset < codes[m].offset);
            }
        }
    }
}

/// What comes before a slice that is whole is whole.
proof fn lemma_whole(data: Seq<u8>, e: int, k: int)
    requires
        parses(data),
        complete(data),
        0 <= k < e <= bitreader::start_codes(data, 0).len(),
        is_slice(bitreader::start_codes(data, 0)[e - 1]),
    ensures
        place_of(data, k) + 4 <= place_of(data, k + 1) <= place_of(data, e) <= data.len(),
{
    lemma_places(data, k, e);
    lemma_places(data, k + 1, e);
    lemma_room(data, k);
}

/// A start code stands in another stream that has its bytes `by` places before.
proof fn lemma_stand_one(data: Seq<u8>, m: int, other: Seq<u8>, by: int)
    requires
        8 * data.len() <= usize::MAX,
        8 * other.len() <= usize::MAX,
        0 <= m < bitreader::start_codes(data, 0).len(),
        0 <= by <= place_of(data, m),
        place_of(data, m) + 4 <= place_of(data, m + 1),
        place_of(data, m + 1) - by <= other.len(),
        forall|x: int|
            place_of(data, m) <= x < place_of(data, m + 1) ==> data[x] == other[x - by],
    ensures
        standalone::stands_in_both(
            data,
            other,
            bitreader::start_codes(data, 0)[m],
            place_of(data, m + 1),
            by,
        ),
{
    let codes = bitreader::start_codes(data, 0);
    lemma_places(data, m, m + 1);
    lemma_places(data, m + 1, m + 1);
    standalone::lemma_same_bits(
        data,
        other,
        codes[m].payload_offset as int,
        place_of(data, m + 1),
        by,
    );
}

/// Start codes stand in another stream that has their bytes `by` places before.
proof fn lemma_stand_in(
    data: Seq<u8>,
    from: int,
    to: int,
    e: int,
    other: Seq<u8>,
    others: Seq<StartCode>,
    there: int,
    by: int,
)
    requires
        parses(data),
        complete(data),
        8 * other.len() <= usize::MAX,
        0 <= from < to <= e <= bitreader::start_codes(data, 0).len(),
        is_slice(bitreader::start_codes(data, 0)[e - 1]),
        0 <= by <= place_of(data, from),
        place_of(data, to) - by <= other.len(),
        forall|x: int|
            place_of(data, from) <= x < place_of(data, to) ==> data[x] == other[x - by],
        0 <= there,
        there + (to - from) <= others.len(),
        forall|m: int|
            #![trigger others[there + (m - from)]]
            from <= m < to ==> others[there + (m - from)] == standalone::moved_code(
                bitreader::start_codes(data, 0)[m],
                by,
            ),
        headers::header_end(other, others, there + (to - from) - 1) == place_of(data, to) - by,
    ensures
        stand_in_both(
            data,
            bitreader::start_codes(data, 0),
            from,
            to,
            other,
            others,
            there,
            by,
        ),
    decreases to - from,
{
    let codes = bitreader::start_codes(data, 0);
    let k = to - 1;
    lemma_whole(data, e, k);
    lemma_places(data, from, k);
    lemma_places(data, k, to);
    assert(others[there + (k - from)] == standalone::moved_code(codes[k], by));
    lemma_stand_one(data, k, other, by);
    if from < k {
        assert(headers::header_end(other, others, there + (k - from) - 1) == place_of(data, k)
            - by);
        lemma_stand_in(data, from, k, e, other, others, there, by);
    }
    lemma_stand_more(data, codes, from, to, other, others, there, by);
}

/// One more start code stands in both streams.
proof fn lemma_stand_more(
    data: Seq<u8>,
    codes: Seq<StartCode>,
    from: int,
    to: int,
    other: Seq<u8>,
    others: Seq<StartCode>,
    there: int,
    by: int,
)
    requires
        0 <= from < to <= codes.len(),
        0 <= there,
        there + (to - from) <= others.len(),
        from < to - 1 ==> stand_in_both(data, codes, from, to - 1, other, others, there, by),
        ({
            let k = to - 1;
            let ends = headers::header_end(data, codes, k);
            &&& others[there + (k - from)] == standalone::moved_code(codes[k], by)
            &&& headers::header_end(other, others, there + (k - from)) == ends - by
            &&& standalone::stands_in_both(data, other, codes[k], ends, by)
        }),
    ensures
        stand_in_both(data, codes, from, to, other, others, there, by),
{
    reveal(stand_in_both);
}

/// A stream that is cut out between two start codes, and has a sequence header in it,
/// parses to the pictures that stand behind that.
proof fn lemma_cut_plain(data: Seq<u8>, s: int, first: int, e: int, at: int)
    requires
        parses(data),
        complete(data),
        0 <= s <= first < e <= bitreader::start_codes(data, 0).len(),
        0 <= at <= place_of(data, s),
        bitreader::start_codes(data, at) == bitreader::start_codes(data, 0).skip(s),
        is_slice(bitreader::start_codes(data, 0)[e - 1]),
        bitreader::start_codes(data, 0)[first].code == start_code::SEQUENCE_HEADER,
        forall|y: int|
            s <= y < first ==> (#[trigger] bitreader::start_codes(data, 0)[y]).code
                != start_code::SEQUENCE_HEADER,
    ensures
        ({
            let end = place_of(data, e);
            let other = data.subrange(at, end);
            &&& at <= end <= data.len()
            &&& headers::parsed(other) is Ok
            &&& standalone::alike_behind(
                headers::slice_ended(gathered(data, e).pictures, (8 * end) as usize),
                headers::parsed(other)->Ok_0,
                gathered(data, first).pictures.len() as int,
                0,
                8 * at,
            )
        }),
{
    let codes = bitreader::start_codes(data, 0);
    let end = place_of(data, e);
    headers::lemma_start_codes_inside(data, 0);
    headers::lemma_start_codes_increase(data, 0);
    lemma_whole(data, e, s);
    lemma_whole(data, e, e - 1);
    let other = data.subrange(at, end);
    let n = e - s;
    let rest = codes.skip(s);
    assert forall|k: int| 0 <= k < n implies (#[trigger] rest[k]).offset + 4 <= end by {
        lemma_whole(data, e, s + k);
        assert(rest[k] == codes[s + k]);
    }
    if n < rest.len() {
        assert(rest[n] == codes[e]);
    }
    lemma_scan_cut(data, other, at, end, at, n);
    let others = bitreader::start_codes(other, 0);
    assert(others == moved_codes(rest.take(n), at));
    assert forall|m: int|
        #![trigger others[0 + (m - first) + (first - s)]]
        s <= m < e implies others[m - s] == standalone::moved_code(codes[m], at) by {
        assert(rest.take(n)[m - s] == codes[m]);
    }
    // Nothing is gathered in front of the sequence header.
    assert forall|y: int| 0 <= y < first - s implies (#[trigger] others[y]).code
        != start_code::SEQUENCE_HEADER by {
        assert(rest.take(n)[y] == codes[s + y]);
    }
    lemma_before_sequence(other, others, first - s);
    let begun = run(other, others, 0, first - s, ParseState::initial())->Ok_0;
    assert forall|m: int|
        #![trigger others[(first - s) + (m - first)]]
        first <= m < e implies others[(first - s) + (m - first)] == standalone::moved_code(
        codes[m],
        at,
    ) by {
        assert(rest.take(n)[m - s] == codes[m]);
    }
    if s < first {
        assert(codes[s].offset < codes[first].offset);
    }
    lemma_stand_in(data, first, e, e, other, others, first - s, at);
    lemma_run_alike(data, first, e, other, others, first - s, at, begun, 0);
    lemma_run_on(other, others, 0, first - s, n, ParseState::initial());
    lemma_run_parses(other, others, 0, n, ParseState::initial());
    let after = run(other, others, 0, n, ParseState::initial())->Ok_0;
    standalone::lemma_ended_alike(
        gathered(data, e).pictures,
        after.pictures,
        gathered(data, first).pictures.len() as int,
        0,
        8 * at,
        (8 * end) as usize,
        (8 * other.len()) as usize,
    );
}

/// What is cut out between two start codes, with what is in effect there in front of it.
pub open spec fn prefixed(data: Seq<u8>, a: int, b: int, s: int, e: int) -> Seq<u8> {
    data.subrange(place_of(data, a), place_of(data, b)) + data.subrange(
        place_of(data, s),
        place_of(data, e),
    )
}

/// The start codes of what is cut out and has something put in front of it.
proof fn lemma_prefixed_codes(data: Seq<u8>, a: int, b: int, s: int, e: int)
    requires
        parses(data),
        complete(data),
        0 <= a < b <= s < e <= bitreader::start_codes(data, 0).len(),
        is_slice(bitreader::start_codes(data, 0)[e - 1]),
    ensures
        ({
            let codes = bitreader::start_codes(data, 0);
            let other = prefixed(data, a, b, s, e);
            let others = bitreader::start_codes(other, 0);
            let from = place_of(data, a);
            let by = place_of(data, s) - (place_of(data, b) - from);
            &&& others.len() == (b - a) + (e - s)
            &&& forall|m: int|
                #![trigger others[0 + (m - a)]]
                a <= m < b ==> others[0 + (m - a)] == standalone::moved_code(codes[m], from)
            &&& forall|m: int|
                #![trigger others[(b - a) + (m - s)]]
                s <= m < e ==> others[(b - a) + (m - s)] == standalone::moved_code(codes[m], by)
        }),
{
    let codes = bitreader::start_codes(data, 0);
    let from = place_of(data, a);
    let to = place_of(data, b);
    let start = place_of(data, s);
    let end = place_of(data, e);
    lemma_whole(data, e, s);
    lemma_places(data, a, b);
    lemma_places(data, b, s);
    lemma_places(data, s, e);
    let other = prefixed(data, a, b, s, e);
    let len = to - from;
    let by = start - len;
    lemma_codes_from(data, 0, a);
    lemma_codes_from(data, 0, s);
    lemma_code_bytes(data, b);
    lemma_code_bytes(data, s);
    assert forall|x: int| from <= x < to + 3 implies data[x] == other[x - from] by {
        if x >= to {
            assert(other[x - from] == data[start + (x - to)]);
        }
    }
    assert(codes.skip(a)[b - a] == codes[b]);
    lemma_scan_until(data, other, from, to, from, b - a);
    let n = e - s;
    let rest = codes.skip(s);
    assert forall|k: int| 0 <= k < n implies (#[trigger] rest[k]).offset + 4 <= end by {
        lemma_whole(data, e, s + k);
        lemma_places(data, s + k, e);
        assert(rest[k] == codes[s + k]);
    }
    if n < rest.len() {
        assert(rest[n] == codes[e]);
    }
    lemma_scan_cut(data, other, start, end, by, n);
    let others = bitreader::start_codes(other, 0);
    let front = moved_codes(codes.skip(a).take(b - a), from);
    let back = moved_codes(rest.take(n), by);
    assert(others == front + back);
    assert forall|m: int|
        #![trigger others[0 + (m - a)]]
        a <= m < b implies others[0 + (m - a)] == standalone::moved_code(codes[m], from) by {
        assert(codes.skip(a).take(b - a)[m - a] == codes[m]);
    }
    assert forall|m: int|
        #![trigger others[(b - a) + (m - s)]]
        s <= m < e implies others[(b - a) + (m - s)] == standalone::moved_code(codes[m], by) by {
        assert(rest.take(n)[m - s] == codes[m]);
        assert(others[(b - a) + (m - s)] == back[m - s]);
    }
}

/// A stream that is cut out between two start codes, and has what is in effect there put
/// in front of it, parses to the pictures that stand in it.
proof fn lemma_cut_prefixed(data: Seq<u8>, a: int, b: int, s: int, e: int) -> (l: int)
    requires
        parses(data),
        complete(data),
        0 <= a < b <= s < e <= bitreader::start_codes(data, 0).len(),
        is_slice(bitreader::start_codes(data, 0)[e - 1]),
        bitreader::start_codes(data, 0)[a].code == start_code::SEQUENCE_HEADER,
        standalone::same_description(gathered(data, b), gathered(data, s)),
    ensures
        place_of(data, a) <= place_of(data, b) <= place_of(data, s) <= place_of(data, e)
            <= data.len(),
        headers::parsed(prefixed(data, a, b, s, e)) is Ok,
        standalone::alike_behind(
            headers::slice_ended(
                gathered(data, e).pictures,
                (8 * place_of(data, e)) as usize,
            ),
            headers::parsed(prefixed(data, a, b, s, e))->Ok_0,
            gathered(data, s).pictures.len() as int,
            l,
            8 * (place_of(data, s) - (place_of(data, b) - place_of(data, a))),
        ),
{
    let codes = bitreader::start_codes(data, 0);
    let from = place_of(data, a);
    let to = place_of(data, b);
    let start = place_of(data, s);
    let end = place_of(data, e);
    lemma_places(data, a, b);
    lemma_places(data, b, s);
    lemma_places(data, s, e);
    let other = prefixed(data, a, b, s, e);
    let others = bitreader::start_codes(other, 0);
    let by = start - (to - from);
    let n = e - s;
    lemma_prefixed_codes(data, a, b, s, e);
    assert(others[(b - a) + (s - s)] == standalone::moved_code(codes[s], by));
    assert(headers::header_end(other, others, 0 + (b - a) - 1) == to - from);
    assert(forall|x: int| from <= x < to ==> data[x] == other[x - from]);
    lemma_stand_in(data, a, b, e, other, others, 0, from);
    lemma_run_alike(data, a, b, other, others, 0, from, ParseState::initial(), 0);
    let begun = run(other, others, 0, b - a, ParseState::initial())->Ok_0;
    let l = begun.pictures.len() as int;
    assert(headers::header_end(other, others, (b - a) + (e - s) - 1) == end - by);
    assert(forall|x: int| start <= x < end ==> data[x] == other[x - by]);
    lemma_stand_in(data, s, e, e, other, others, b - a, by);
    lemma_run_alike(data, s, e, other, others, b - a, by, begun, l);
    lemma_run_on(other, others, 0, b - a, (b - a) + n, ParseState::initial());
    lemma_run_parses(other, others, 0, (b - a) + n, ParseState::initial());
    let after = run(other, others, 0, (b - a) + n, ParseState::initial())->Ok_0;
    standalone::lemma_ended_alike(
        gathered(data, e).pictures,
        after.pictures,
        gathered(data, s).pictures.len() as int,
        l,
        8 * by,
        (8 * end) as usize,
        (8 * other.len()) as usize,
    );
    l
}

/// A start code begins with the prefix of one.
proof fn lemma_code_bytes(data: Seq<u8>, k: int)
    requires
        data.len() <= usize::MAX,
        0 <= k < bitreader::start_codes(data, 0).len(),
    ensures
        bitreader::is_start_code(data, bitreader::start_codes(data, 0)[k].offset as int),
{
    lemma_code_bytes_from(data, 0, k);
}

/// A start code begins with the prefix of one.
proof fn lemma_code_bytes_from(data: Seq<u8>, at: int, k: int)
    requires
        data.len() <= usize::MAX,
        0 <= at,
        0 <= k < bitreader::start_codes(data, at).len(),
    ensures
        bitreader::is_start_code(data, bitreader::start_codes(data, at)[k].offset as int),
    decreases data.len() - at,
{
    if bitreader::is_start_code(data, at) {
        if k > 0 {
            lemma_code_bytes_from(data, at + 3, k - 1);
            assert(bitreader::start_codes(data, at)[k] == bitreader::start_codes(data, at + 3)[k
                - 1]);
        }
    } else {
        lemma_code_bytes_from(data, at + 1, k);
    }
}

/// The pictures that a parse ends with.
proof fn lemma_finished(data: Seq<u8>)
    requires
        parses(data),
    ensures
        headers::parsed(data)->Ok_0 == headers::slice_ended(
            gathered(data, bitreader::start_codes(data, 0).len() as int).pictures,
            (8 * data.len()) as usize,
        ),
        headers::parsed(data)->Ok_0.len() == gathered(
            data,
            bitreader::start_codes(data, 0).len() as int,
        ).pictures.len(),
{
    let codes = bitreader::start_codes(data, 0);
    lemma_gathered(data, codes.len() as int);
    lemma_run_parses(data, codes, 0, codes.len() as int, ParseState::initial());
    reveal(headers::slice_ended);
}

/// A picture that another follows has come to its end.
proof fn lemma_followed(data: Seq<u8>, k: int, q: int)
    requires
        parses(data),
        0 <= k <= bitreader::start_codes(data, 0).len(),
        0 <= q,
        q + 2 <= gathered(data, k).pictures.len(),
    ensures
        q < headers::parsed(data)->Ok_0.len(),
        headers::parsed(data)->Ok_0[q] == gathered(data, k).pictures[q],
    decreases bitreader::start_codes(data, 0).len() - k,
{
    let codes = bitreader::start_codes(data, 0);
    if k < codes.len() {
        lemma_step(data, k);
        lemma_step_pictures(
            data,
            codes[k],
            headers::header_end(data, codes, k),
            gathered(data, k),
        );
        assert(gathered(data, k + 1).pictures[q] == gathered(data, k).pictures[q]);
        lemma_followed(data, k + 1, q);
    } else {
        lemma_finished(data);
        reveal(headers::slice_ended);
    }
}

/// A picture comes to its end at the start code behind its last slice.
proof fn lemma_closed(data: Seq<u8>, q: int) -> (e: int)
    requires
        parses(data),
        orderly(data),
        0 <= q < headers::parsed(data)->Ok_0.len(),
        headers::parsed(data)->Ok_0[q].slices.len() > 0,
    ensures
        0 < e <= bitreader::start_codes(data, 0).len(),
        is_slice(bitreader::start_codes(data, 0)[e - 1]),
        gathered(data, e).pictures.len() == q + 1,
        headers::parsed(data)->Ok_0[q] == headers::slice_ended(
            gathered(data, e).pictures,
            (8 * place_of(data, e)) as usize,
        )[q],
        headers::last_slice_end(headers::parsed(data)->Ok_0[q]) == Some(
            (8 * place_of(data, e)) as usize,
        ),
{
    let codes = bitreader::start_codes(data, 0);
    let n = codes.len() as int;
    lemma_finished(data);
    reveal(headers::slice_ended);
    let e = lemma_last_slice(data, n, q);
    if e < n {
        lemma_settled(data, e, n, q);
    }
    e
}

/// The first sequence header of some start codes.
proof fn lemma_first_sequence(codes: Seq<StartCode>, s: int, a: int) -> (first: int)
    requires
        0 <= s <= a < codes.len(),
        codes[a].code == start_code::SEQUENCE_HEADER,
    ensures
        s <= first <= a,
        codes[first].code == start_code::SEQUENCE_HEADER,
        forall|y: int| s <= y < first ==> (#[trigger] codes[y]).code != start_code::SEQUENCE_HEADER,
    decreases a - s,
{
    if codes[s].code == start_code::SEQUENCE_HEADER {
        s
    } else {
        lemma_first_sequence(codes, s + 1, a)
    }
}

/// A range of a stream that some pictures stand in, with the headers that describe the
/// first of them in front unless they are already among its bytes.
pub open spec fn cut_out(data: Seq<u8>, first: PictureView, start: int, end: int) -> Seq<u8> {
    let prefix = if start <= first.context_start {
        Seq::<u8>::empty()
    } else {
        data.subrange(first.context_start, first.context_end)
    };
    prefix + data.subrange(start, end)
}

/// How many bits a range of a stream stands further behind than what is cut out of it.
pub open spec fn cut_by(first: PictureView, start: int) -> int {
    if start <= first.context_start {
        8 * start
    } else {
        8 * (start - (first.context_end - first.context_start))
    }
}

/// What was said of a picture in front of its own bytes was said before they begin.
proof fn lemma_said_before(data: Seq<u8>, s: int, h: int, a: int, b: int)
    requires
        parses(data),
        orderly(data),
        0 < s <= h < bitreader::start_codes(data, 0).len(),
        is_slice(bitreader::start_codes(data, 0)[s - 1]),
        gathered(data, s).pictures.len() > 0,
        gathered(data, s).pictures.len() == gathered(data, h).pictures.len(),
        0 <= a < b <= h,
        a < s,
        forall|y: int|
            a < y < h ==> (#[trigger] bitreader::start_codes(data, 0)[y]).code
                != start_code::SEQUENCE_HEADER,
        a == b - 1 || is_extension(
            data,
            bitreader::start_codes(data, 0)[b - 1],
            extension::SEQUENCE as int,
        ) || is_extension(
            data,
            bitreader::start_codes(data, 0)[b - 1],
            extension::QUANT_MATRIX as int,
        ),
    ensures
        b <= s,
{
    let codes = bitreader::start_codes(data, 0);
    if b > s {
        assert(is_slice(codes[s - 1]));
        if is_extension(data, codes[b - 1], extension::SEQUENCE as int) {
            assert(comes_between(codes, start_code::SEQUENCE_HEADER, s - 1, b - 1));
            let y = choose|y: int|
                s - 1 < y < b - 1 && (#[trigger] codes[y]).code == start_code::SEQUENCE_HEADER;
            assert(a < y < h);
        } else {
            assert(comes_between(codes, start_code::PICTURE, s - 1, b - 1));
            let y = choose|y: int|
                s - 1 < y < b - 1 && (#[trigger] codes[y]).code == start_code::PICTURE;
            lemma_no_picture(data, s, h, y);
        }
    }
}

/// Pictures `i` to `j` of a stream, cut out of it from where the one before them ends to
/// where they do, parse to what they parse to in it.
pub proof fn lemma_parses_alone(data: Seq<u8>, i: int, j: int, start: int, end: int)
    requires
        parses(data),
        complete(data),
        orderly(data),
        0 <= i < j <= headers::parsed(data)->Ok_0.len(),
        i == 0 ==> start == 0,
        i > 0 ==> (headers::last_slice_end(headers::parsed(data)->Ok_0[i - 1]) matches Some(bit)
            && start == bit as int / 8),
        headers::last_slice_end(headers::parsed(data)->Ok_0[j - 1]) matches Some(bit) && end
            == bit as int / 8,
    ensures
        ({
            let pictures = headers::parsed(data)->Ok_0;
            let alone = headers::parsed(cut_out(data, pictures[i], start, end));
            &&& 0 <= cut_by(pictures[i], start) <= 8 * start
            &&& alone is Ok
            &&& alone->Ok_0.len() >= j - i
            &&& forall|t: int|
                0 <= t < j - i ==> #[trigger] standalone::alike_picture(
                    pictures[i + t],
                    alone->Ok_0[alone->Ok_0.len() - (j - i) + t],
                    cut_by(pictures[i], start),
                )
        }),
{
    let codes = bitreader::start_codes(data, 0);
    let n = codes.len() as int;
    let pictures = headers::parsed(data)->Ok_0;
    assert(pictures[j - 1].slices.len() > 0);
    lemma_finished(data);
    let e = lemma_closed(data, j - 1);
    lemma_places(data, e, e);
    assert(end == place_of(data, e));
    let h = lemma_opened(data, n, i);
    assert(pictures[i].context_start == gathered(data, h).context_start && pictures[i].context_end
        == gathered(data, h).context_end) by {
        reveal(headers::slice_ended);
    }
    assert(h < e) by {
        if e <= h {
            lemma_grows(data, e, h);
        }
    }
    let s = if i > 0 {
        assert(pictures[i - 1].slices.len() > 0);
        lemma_closed(data, i - 1)
    } else {
        0
    };
    assert(gathered(data, 0) == ParseState::initial());
    assert(gathered(data, s).pictures.len() == i);
    assert(s <= h) by {
        if h < s {
            lemma_grows(data, h + 1, s);
        }
    }
    lemma_places(data, s, h);
    if i > 0 {
        assert(start == place_of(data, s));
    }
    let (a, b) = lemma_said(data, h);
    lemma_places(data, a, b);
    lemma_places(data, b, h);
    let from = pictures[i].context_start;
    let stream = cut_out(data, pictures[i], start, end);
    let d = cut_by(pictures[i], start);
    let whole = headers::slice_ended(
        gathered(data, e).pictures,
        (8 * place_of(data, e)) as usize,
    );
    let l = if start <= from {
        assert(s <= a) by {
            if a < s {
                lemma_places(data, a, s);
            }
        }
        let first = lemma_first_sequence(codes, s, a);
        lemma_grows(data, s, first);
        lemma_grows(data, first, h);
        if i > 0 {
            lemma_codes_from(data, 0, s);
        } else {
            assert(codes.skip(0) =~= codes);
        }
        lemma_cut_plain(data, s, first, e, start);
        assert(stream =~= data.subrange(start, end));
        0
    } else {
        assert(a < s) by {
            if s <= a {
                lemma_places(data, s, a);
            }
        }
        lemma_said_before(data, s, h, a, b);
        let l = lemma_cut_prefixed(data, a, b, s, e);
        assert(stream =~= prefixed(data, a, b, s, e));
        l
    };
    let alone = headers::parsed(stream)->Ok_0;
    assert(standalone::alike_behind(whole, alone, i, l, d));
    assert(whole.len() == j) by {
        reveal(headers::slice_ended);
    }
    assert forall|t: int| 0 <= t < j - i implies #[trigger] standalone::alike_picture(
        pictures[i + t],
        alone[alone.len() - (j - i) + t],
        d,
    ) by {
        assert(standalone::alike_picture(whole[i + t], alone[l + t], d));
        if i + t < j - 1 {
            lemma_followed(data, e, i + t);
            reveal(headers::slice_ended);
        }
        assert(pictures[i + t] == whole[i + t]);
    }
}

/// The slices of a picture begin between two places.
pub open spec fn slices_within(picture: PictureView, lo: int, hi: int) -> bool {
    forall|t: int|
        0 <= t < picture.slices.len() ==> lo <= (#[trigger] picture.slices[t]).data_start_bit
            <= hi
}

/// Ending a slice leaves where it begins.
proof fn lemma_ended_within(pictures: Seq<PictureView>, end: usize, q: int, lo: int, hi: int)
    requires
        0 <= q < pictures.len(),
        slices_within(pictures[q], lo, hi),
    ensures
        headers::slice_ended(pictures, end).len() == pictures.len(),
        slices_within(headers::slice_ended(pictures, end)[q], lo, hi),
{
    reveal(headers::slice_ended);
    let last = pictures.len() - 1;
    let ended = headers::slice_ended(pictures, end);
    if q == last && pictures[q].slices.len() > 0 {
        let n = pictures[q].slices.len() - 1;
        assert(pictures[q].slices[n].data_start_bit >= lo);
        assert forall|t: int| 0 <= t < ended[q].slices.len() implies lo <= (
        #[trigger] ended[q].slices[t]).data_start_bit <= hi by {
            assert(pictures[q].slices[t].data_start_bit == ended[q].slices[t].data_start_bit);
        }
    }
}

/// A slice begins behind its start code.
proof fn lemma_slice_begins(data: Seq<u8>, pos: nat, code: u8, picture: PictureView)
    requires
        pos <= 8 * data.len() <= usize::MAX,
    ensures
        pos <= syntax::slice_at(data, pos, code, picture).data_start_bit <= 8 * data.len(),
{
    reveal(syntax::slice_at);
    let tall = !picture.is_mpeg1 && picture.sequence.vertical_size > 2800;
    let p1 = if tall {
        bits::advance(data, pos, 3)
    } else {
        pos
    };
    let p2 = bits::advance(data, p1, 5);
    let p3 = if bits::bits(data, p2 as int, 1) == 1 {
        bits::advance(data, bits::advance(data, bits::advance(data, p2, 1), 1), 7)
    } else {
        p2
    };
    standalone::lemma_extra_information_advances(data, p3);
}

/// One more header keeps the slices between two places.
proof fn lemma_step_within(
    data: Seq<u8>,
    code: StartCode,
    ends: int,
    state: ParseState,
    q: int,
    lo: int,
)
    requires
        headers::parse_step(data, code, ends, state) is Ok,
        code.payload_offset <= data.len(),
        8 * data.len() <= usize::MAX,
        lo <= 8 * code.payload_offset,
        0 <= q < headers::parse_step(data, code, ends, state)->Ok_0.pictures.len(),
        q < state.pictures.len() ==> slices_within(state.pictures[q], lo, 8 * data.len() as int),
    ensures
        slices_within(
            headers::parse_step(data, code, ends, state)->Ok_0.pictures[q],
            lo,
            8 * data.len() as int,
        ),
{
    let next = headers::parse_step(data, code, ends, state)->Ok_0;
    let end = (8 * code.offset) as usize;
    let hi = 8 * data.len() as int;
    lemma_step_pictures(data, code, ends, state);
    if q < state.pictures.len() {
        lemma_ended_within(state.pictures, end, q, lo, hi);
        if q == state.pictures.len() - 1 && is_slice(code) {
            let ended = headers::slice_ended(state.pictures, end);
            let pos = bits::advance(data, 0, (8 * code.payload_offset) as nat);
            lemma_slice_begins(data, pos, code.code, ended.last());
            assert(next.pictures[q].slices == ended[q].slices.push(
                syntax::slice_at(data, pos, code.code, ended.last()),
            ));
        }
    }
}

/// The slices of a picture begin behind where the one before it has ended.
proof fn lemma_gathered_within(data: Seq<u8>, s: int, k: int, q: int)
    requires
        parses(data),
        0 <= s <= k <= bitreader::start_codes(data, 0).len(),
        gathered(data, s).pictures.len() <= q < gathered(data, k).pictures.len(),
    ensures
        slices_within(
            gathered(data, k).pictures[q],
            8 * place_of(data, s),
            8 * data.len() as int,
        ),
    decreases k - s,
{
    if s < k {
        let codes = bitreader::start_codes(data, 0);
        lemma_step(data, k - 1);
        lemma_places(data, s, k - 1);
        if q < gathered(data, k - 1).pictures.len() {
            lemma_gathered_within(data, s, k - 1, q);
        }
        lemma_step_within(
            data,
            codes[k - 1],
            headers::header_end(data, codes, k - 1),
            gathered(data, k - 1),
            q,
            8 * place_of(data, s),
        );
    }
}

/// The slices of a picture begin behind where the picture before a frame ends, for every
/// picture from that frame on, and inside the stream.
pub proof fn lemma_slices_begin(data: Seq<u8>, i: int, q: int, start: int)
    requires
        parses(data),
        orderly(data),
        0 <= i <= q < headers::parsed(data)->Ok_0.len(),
        i == 0 ==> start == 0,
        i > 0 ==> (headers::last_slice_end(headers::parsed(data)->Ok_0[i - 1]) matches Some(bit)
            && start == bit as int / 8),
    ensures
        slices_within(headers::parsed(data)->Ok_0[q], 8 * start, 8 * data.len() as int),
{
    let n = bitreader::start_codes(data, 0).len() as int;
    lemma_finished(data);
    let s = if i > 0 {
        assert(headers::parsed(data)->Ok_0[i - 1].slices.len() > 0);
        lemma_closed(data, i - 1)
    } else {
        0
    };
    assert(gathered(data, 0) == ParseState::initial());
    lemma_places(data, s, n);
    lemma_gathered_within(data, s, n, q);
    let first = 8 * place_of(data, s);
    lemma_ended_within(
        gathered(data, n).pictures,
        (8 * data.len()) as usize,
        q,
        first,
        8 * data.len() as int,
    );
    assert(8 * start <= first);
}

/// Behind its last slice a picture is followed by a start code or by nothing.
pub proof fn lemma_ends_marked(data: Seq<u8>, q: int)
    requires
        parses(data),
        orderly(data),
        0 <= q < headers::parsed(data)->Ok_0.len(),
        headers::parsed(data)->Ok_0[q].slices.len() > 0,
    ensures
        headers::last_slice_end(headers::parsed(data)->Ok_0[q]) matches Some(bit) && {
            let end = bit as int / 8;
            &&& 0 <= end <= data.len()
            &&& end == data.len() || bitreader::is_start_code(data, end)
        },
{
    let e = lemma_closed(data, q);
    lemma_places(data, e, e);
    if e < bitreader::start_codes(data, 0).len() {
        lemma_code_bytes(data, e);
    }
}

} // verus!
