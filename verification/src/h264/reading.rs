//! What a decoder reads from the codes that are written.
use crate::bits;
use crate::h264::bitwriter;
use crate::h264::nal;
use crate::h264::params;
use crate::h264::slice;
use crate::h264::slice::RefPicListEntry;
use vstd::arithmetic::power2;
use vstd::prelude::*;

verus! {

/// The number that binary digits stand for, most significant first.
pub open spec fn value_of(bits: Seq<bool>) -> nat
    decreases bits.len(),
{
    if bits.len() == 0 {
        0
    } else {
        2 * value_of(bits.drop_last()) + if bits.last() {
            1nat
        } else {
            0
        }
    }
}

/// The bits that bytes hold, most significant first.
pub open spec fn unpacked(bytes: Seq<u8>) -> Seq<bool> {
    Seq::new(8 * bytes.len(), |i: int| bits::bit_at(bytes, i) == 1)
}

/// The bits of the payload of a unit: behind its start code and its header, and without
/// the bytes that keep start codes out of it (clause 7.3.1).
pub open spec fn payload_bits(unit: Seq<u8>) -> Seq<bool> {
    unpacked(nal::unescaped(unit.skip(5), 0))
}

/// A digit of a byte is the one it was made of.
proof fn lemma_digit(b0: nat, b1: nat, b2: nat, b3: nat, b4: nat, b5: nat, b6: nat, b7: nat)
    requires
        b0 <= 1,
        b1 <= 1,
        b2 <= 1,
        b3 <= 1,
        b4 <= 1,
        b5 <= 1,
        b6 <= 1,
        b7 <= 1,
    ensures
        ({
            let byte = 128 * b0 + 64 * b1 + 32 * b2 + 16 * b3 + 8 * b4 + 4 * b5 + 2 * b6 + b7;
            &&& byte <= 255
            &&& (byte / 128) % 2 == b0
            &&& (byte / 64) % 2 == b1
            &&& (byte / 32) % 2 == b2
            &&& (byte / 16) % 2 == b3
            &&& (byte / 8) % 2 == b4
            &&& (byte / 4) % 2 == b5
            &&& (byte / 2) % 2 == b6
            &&& byte % 2 == b7
        }),
{
}

/// Whether a bit is set, as a number.
spec fn one_if(b: bool) -> nat {
    if b {
        1
    } else {
        0
    }
}

/// Bits come back out of the bytes they were packed in.
pub proof fn law_packed_bits_come_back(s: Seq<bool>)
    requires
        s.len() % 8 == 0,
    ensures
        unpacked(bitwriter::packed(s)) == s,
{
    let bytes = bitwriter::packed(s);
    assert(8 * bytes.len() == s.len());
    assert forall|i: int| 0 <= i < s.len() implies #[trigger] unpacked(bytes)[i] == s[i] by {
        let k = i / 8;
        let at = 8 * k;
        lemma_digit(
            one_if(s[at]),
            one_if(s[at + 1]),
            one_if(s[at + 2]),
            one_if(s[at + 3]),
            one_if(s[at + 4]),
            one_if(s[at + 5]),
            one_if(s[at + 6]),
            one_if(s[at + 7]),
        );
        assert(bytes[k] == bitwriter::packed_byte(s, k));
        let m = i % 8;
        assert(m == 0 || m == 1 || m == 2 || m == 3 || m == 4 || m == 5 || m == 6 || m == 7);
    }
    assert(unpacked(bytes) =~= s);
}

/// A decoder that takes a unit apart has the bits that were put in it, and those that
/// close them.
pub proof fn law_units_carry_their_bits(s: Seq<bool>, ref_idc: int, kind: int)
    ensures
        payload_bits(nal::nal_unit(params::closed_rbsp(s), ref_idc, kind)) == s
            + bitwriter::trailing(s.len()),
{
    let rbsp = params::closed_rbsp(s);
    let unit = nal::nal_unit(rbsp, ref_idc, kind);
    assert(unit.skip(5) =~= nal::escaped(rbsp, 0));
    nal::law_unescape_inverts_escape(rbsp, 0);
    law_packed_bits_come_back(s + bitwriter::trailing(s.len()));
}

/// How many zeros stand in front of the first one.
pub open spec fn leading_zeros(bits: Seq<bool>) -> nat
    decreases bits.len(),
{
    if bits.len() == 0 || bits[0] {
        0
    } else {
        1 + leading_zeros(bits.skip(1))
    }
}

/// The unsigned Exp-Golomb code in front of `bits`: its number, and how many bits it
/// takes (clause 9.1).
pub open spec fn read_ue(bits: Seq<bool>) -> (int, int) {
    let zeros = leading_zeros(bits) as int;
    (value_of(bits.subrange(zeros, 2 * zeros + 1)) - 1, 2 * zeros + 1)
}

/// The signed Exp-Golomb code in front of `bits`: its number, and how many bits it takes
/// (clause 9.1.1).
pub open spec fn read_se(bits: Seq<bool>) -> (int, int) {
    let (k, used) = read_ue(bits);
    (
        if k % 2 == 1 {
            (k + 1) / 2
        } else {
            -(k / 2)
        },
        used,
    )
}

/// The first `count` values of the scaling list in front of `bits`, in the order of the
/// scan, and how many bits they take (clause 7.3.2.1.1.1).
pub open spec fn read_scaling_list(bits: Seq<bool>, count: nat) -> (Seq<int>, int)
    decreases count,
{
    if count == 0 {
        (seq![], 0)
    } else {
        let (before, used) = read_scaling_list(bits, (count - 1) as nat);
        let last = if before.len() == 0 {
            8
        } else {
            before.last()
        };
        let (delta, more) = read_se(bits.skip(used));
        (before.push((last + delta + 256) % 256), used + more)
    }
}

/// A number comes back out of its digits, as far as there are enough of them.
pub proof fn law_digits_read_back(v: nat, n: nat)
    ensures
        value_of(bitwriter::digits(v, n)) == v % power2::pow2(n),
        v < power2::pow2(n) ==> value_of(bitwriter::digits(v, n)) == v,
    decreases n,
{
    power2::lemma2_to64();
    power2::lemma_pow2_pos(n);
    if v < power2::pow2(n) {
        vstd::arithmetic::div_mod::lemma_small_mod(v, power2::pow2(n));
    }
    if n > 0 {
        let d = bitwriter::digits(v, n);
        let h = (n - 1) as nat;
        power2::lemma_pow2_unfold(n);
        power2::lemma_pow2_pos(h);
        law_digits_read_back(v / 2, h);
        assert forall|i: int| 0 <= i < h implies d.drop_last()[i] == bitwriter::digits(v / 2, h)[i]
            by {
            let k = (h - 1 - i) as nat;
            power2::lemma_pow2_unfold((k + 1) as nat);
            power2::lemma_pow2_pos(k);
            vstd::arithmetic::div_mod::lemma_div_denominator(v as int, 2, power2::pow2(k) as int);
            assert(power2::pow2((n - 1 - i) as nat) == 2 * power2::pow2(k));
        }
        assert(d.drop_last() =~= bitwriter::digits(v / 2, h));
        assert(v / power2::pow2(0) == v);
        assert(d.last() == (v % 2 == 1));
        vstd::arithmetic::div_mod::lemma_mod_breakdown(v as int, 2, power2::pow2(h) as int);
    } else {
        assert(v % 1 == 0);
    }
}

/// A number lies between the powers of two that its digits say.
proof fn lemma_digit_count(v: nat)
    requires
        v >= 1,
    ensures
        bitwriter::digit_count(v) >= 1,
        power2::pow2((bitwriter::digit_count(v) - 1) as nat) <= v,
        v < power2::pow2(bitwriter::digit_count(v)),
    decreases v,
{
    power2::lemma2_to64();
    let n = bitwriter::digit_count(v);
    if v >= 2 {
        lemma_digit_count(v / 2);
        power2::lemma_pow2_unfold(n);
        power2::lemma_pow2_unfold((n - 1) as nat);
    } else {
        assert(bitwriter::digit_count(0) == 0);
    }
}

/// Zeros in front of a one are counted.
proof fn lemma_leading_zeros(zeros: nat, rest: Seq<bool>)
    requires
        rest.len() > 0,
        rest[0],
    ensures
        leading_zeros(bitwriter::zeros(zeros) + rest) == zeros,
    decreases zeros,
{
    let bits = bitwriter::zeros(zeros) + rest;
    if zeros > 0 {
        lemma_leading_zeros((zeros - 1) as nat, rest);
        assert(bits.skip(1) =~= bitwriter::zeros((zeros - 1) as nat) + rest);
    }
}

/// A decoder reads every number out of its unsigned Exp-Golomb code, and stops where the
/// code ends, whatever stands behind it.
pub proof fn law_unsigned_codes_read_back(v: nat, rest: Seq<bool>)
    ensures
        read_ue(bitwriter::ue_code(v) + rest) == (v as int, bitwriter::ue_code(v).len() as int),
{
    let n = bitwriter::digit_count((v + 1) as nat);
    lemma_digit_count((v + 1) as nat);
    let d = bitwriter::digits((v + 1) as nat, n);
    law_digits_read_back((v + 1) as nat, n);
    // The first digit of a number is a one.
    let top = power2::pow2((n - 1) as nat);
    power2::lemma_pow2_pos((n - 1) as nat);
    power2::lemma_pow2_unfold(n);
    assert((v + 1) as int / top as int == 1) by {
        vstd::arithmetic::div_mod::lemma_fundamental_div_mod_converse(
            (v + 1) as int,
            top as int,
            1,
            (v + 1) - top,
        );
    }
    assert(d[0]);
    let z = (n - 1) as nat;
    lemma_leading_zeros(z, d + rest);
    let bits = bitwriter::ue_code(v) + rest;
    assert(bits =~= bitwriter::zeros(z) + (d + rest));
    assert(bits.subrange(z as int, 2 * z as int + 1) =~= d);
}

/// A decoder reads every number out of its signed Exp-Golomb code.
pub proof fn law_signed_codes_read_back(v: int, rest: Seq<bool>)
    ensures
        read_se(bitwriter::se_code(v) + rest) == (v, bitwriter::se_code(v).len() as int),
{
    law_unsigned_codes_read_back(bitwriter::signed_index(v), rest);
}

/// A decoder reads the values of a scaling list back, in the order of the scan.
pub proof fn law_scaling_lists_read_back(list: Seq<i32>, count: nat, rest: Seq<bool>)
    requires
        params::is_scaling_list(list),
        list.len() == 16 || list.len() == 64,
        count <= list.len(),
    ensures
        ({
            let bits = params::scaling_list_bits(list, count);
            read_scaling_list(bits + rest, count) == (
                Seq::new(count, |j: int| list[params::scaling_scan(list.len())[j] as int] as int),
                bits.len() as int,
            )
        }),
    decreases count,
{
    let bits = params::scaling_list_bits(list, count);
    let scan = params::scaling_scan(list.len());
    if count == 0 {
        assert(read_scaling_list(bits + rest, 0).0 =~= Seq::new(
            0,
            |j: int| list[scan[j] as int] as int,
        ));
    } else {
        params::lemma_scan_in_range(list.len());
        let before = params::scaling_list_bits(list, (count - 1) as nat);
        let last = if count == 1 {
            8
        } else {
            list[scan[count - 2] as int] as int
        };
        let next = list[scan[count - 1] as int] as int;
        let code = bitwriter::se_code(params::scaling_delta(last, next));
        law_scaling_lists_read_back(list, (count - 1) as nat, code + rest);
        assert(bits + rest =~= before + (code + rest));
        assert((bits + rest).skip(before.len() as int) =~= code + rest);
        law_signed_codes_read_back(params::scaling_delta(last, next), rest);
        assert((last + params::scaling_delta(last, next) + 256) % 256 == next);
        let read = read_scaling_list(bits + rest, count);
        assert(read.0 =~= Seq::new(count, |j: int| list[scan[j] as int] as int));
    }
}

/// The weight and the offset of one component in front of `bits`, where a denominator of
/// one was declared, and how many bits they take (clause 7.3.3.2).
pub open spec fn read_weighting(bits: Seq<bool>) -> (int, int, int) {
    let (weight, used) = read_se(bits);
    let (offset, more) = read_se(bits.skip(used));
    (weight, offset, used + more)
}

/// What a sample is predicted to be with a weight and an offset (clause 8.4.2.3).
pub open spec fn weighted(sample: int, weight: int, offset: int) -> int {
    let value = sample * weight + offset;
    if value < 0 {
        0
    } else if value > 255 {
        255
    } else {
        value
    }
}

/// What a decoder makes of a luma sample that it predicts through a reference index whose
/// weights stand in front of `bits`: the sample itself where there are none.
pub open spec fn luma_through(bits: Seq<bool>, sample: int) -> int {
    if bits[0] {
        let (weight, offset, _) = read_weighting(bits.skip(1));
        weighted(sample, weight, offset)
    } else {
        sample
    }
}

/// The same for either chroma component.
pub open spec fn chroma_through(bits: Seq<bool>, sample: int, second: bool) -> int {
    let flag = if bits[0] {
        1 + read_weighting(bits.skip(1)).2
    } else {
        1
    };
    if bits[flag] {
        let (weight, offset, used) = read_weighting(bits.skip(flag + 1));
        if second {
            let (weight, offset, _) = read_weighting(bits.skip(flag + 1 + used));
            weighted(sample, weight, offset)
        } else {
            weighted(sample, weight, offset)
        }
    } else {
        sample
    }
}

/// Weights read back as they were written.
proof fn lemma_weighting_reads_back(weight: int, offset: int, rest: Seq<bool>)
    ensures
        ({
            let code = bitwriter::se_code(weight) + bitwriter::se_code(offset);
            read_weighting(code + rest) == (weight, offset, code.len() as int)
        }),
{
    let first = bitwriter::se_code(weight);
    let second = bitwriter::se_code(offset);
    let all = first + second + rest;
    assert(all =~= first + (second + rest));
    law_signed_codes_read_back(weight, second + rest);
    assert(all.skip(first.len() as int) =~= second + rest);
    law_signed_codes_read_back(offset, rest);
}

/// What weights that are written one behind the other do to a sample.
proof fn lemma_through(code: Seq<bool>, weight: int, offset: int, rest: Seq<bool>, sample: int)
    requires
        forall|more: Seq<bool>|
            #![trigger code + more]
            read_weighting(code + more) == (weight, offset, code.len() as int),
    ensures
        ({
            let one = bitwriter::bit(true);
            let bits = one + code + one + code + code + rest;
            let value = weighted(sample, weight, offset);
            &&& luma_through(bits, sample) == value
            &&& chroma_through(bits, sample, false) == value
            &&& chroma_through(bits, sample, true) == value
        }),
{
    let one = bitwriter::bit(true);
    let bits = one + code + one + code + code + rest;
    let n = code.len() as int;
    assert(bits.skip(1) =~= code + (one + code + code + rest));
    assert(bits[0]);
    assert(bits[1 + n]);
    assert(bits.skip(2 + n) =~= code + (code + rest));
    assert(bits.skip(2 + n + n) =~= code + rest);
}

/// The index that carries the flat prediction gives every sample the same value, whatever
/// picture stands behind it, and the others give the picture's own.
pub proof fn law_flat_weights_ignore_the_picture(flat: bool, sample: int, rest: Seq<bool>)
    requires
        0 <= sample <= 255,
    ensures
        ({
            let bits = slice::weight_bits(flat) + rest;
            let value = if flat {
                slice::FLAT_OFFSET as int
            } else {
                sample
            };
            &&& luma_through(bits, sample) == value
            &&& chroma_through(bits, sample, false) == value
            &&& chroma_through(bits, sample, true) == value
        }),
{
    let bits = slice::weight_bits(flat) + rest;
    if flat {
        let weight = slice::FLAT_WEIGHT as int;
        let offset = slice::FLAT_OFFSET as int;
        let code = bitwriter::se_code(weight) + bitwriter::se_code(offset);
        assert forall|more: Seq<bool>|
            #![trigger code + more]
            read_weighting(code + more) == (weight, offset, code.len() as int) by {
            lemma_weighting_reads_back(weight, offset, more);
        }
        lemma_through(code, weight, offset, rest, sample);
        assert(sample * weight == 0);
    }
}

/// How far back the entries of a list lie that a decoder takes from the steps in front of
/// `bits`, in picture numbers, when it stands `from` numbers back, and how many bits it
/// reads. The steps end with a mark, or when there are no more than `count`.
pub open spec fn read_steps(bits: Seq<bool>, from: int, range: nat, count: nat) -> (Seq<int>, int)
    decreases count,
{
    let (kind, used) = read_ue(bits);
    if kind == 3 || count == 0 {
        (seq![], used)
    } else {
        let (length, more) = read_ue(bits.skip(used));
        let at = (if kind == 1 {
            from - (length + 1)
        } else {
            from + (length + 1)
        }) % (range as int);
        let (rest, further) = read_steps(bits.skip(used + more), at, range, (count - 1) as nat);
        (seq![at] + rest, used + more + further)
    }
}

/// How far back an entry of a list lies; the picture itself in front of the first one.
pub open spec fn back_of(list: Seq<RefPicListEntry>, field: bool, k: int) -> int {
    if k < 0 {
        0
    } else {
        slice::distance(list[k], field)
    }
}

/// The steps to the entries of a list from one of them on, and what ends them.
pub open spec fn steps_from(list: Seq<RefPicListEntry>, field: bool, range: nat, k: int) -> Seq<bool>
    decreases list.len() - k,
{
    if k >= list.len() {
        bitwriter::ue_code(3)
    } else {
        slice::step_bits(
            slice::number_step(back_of(list, field, k - 1), back_of(list, field, k), range),
        ) + steps_from(list, field, range, k + 1)
    }
}

/// The steps of a list are those in front of an entry and those from it on.
proof fn lemma_steps_from(list: Seq<RefPicListEntry>, field: bool, range: nat, k: int)
    requires
        0 <= k <= list.len(),
    ensures
        slice::steps_bits(list, field, range, k as nat) + steps_from(list, field, range, k)
            == slice::steps_bits(list, field, range, list.len()) + bitwriter::ue_code(3),
    decreases list.len() - k,
{
    if k < list.len() {
        lemma_steps_from(list, field, range, k + 1);
        let before = slice::steps_bits(list, field, range, k as nat);
        let step = slice::step_bits(
            slice::number_step(back_of(list, field, k - 1), back_of(list, field, k), range),
        );
        let behind = steps_from(list, field, range, k + 1);
        assert(slice::steps_bits(list, field, range, (k + 1) as nat) == before + step);
        assert(before + (step + behind) =~= before + step + behind);
    }
}

/// A decoder reads one step back, and goes where it leads.
proof fn lemma_step_reads_back(from: int, to: int, range: nat, rest: Seq<bool>)
    requires
        0 <= from < range,
        0 <= to < range,
    ensures
        ({
            let step = slice::number_step(from, to, range);
            let code = slice::step_bits(step);
            let bits = code + rest;
            let (kind, used) = read_ue(bits);
            let (length, more) = read_ue(bits.skip(used));
            &&& kind == if step.0 {
                1int
            } else {
                0
            }
            &&& to == (if kind == 1 {
                from - (length + 1)
            } else {
                from + (length + 1)
            }) % (range as int)
            &&& used + more == code.len()
            &&& bits.skip(used + more) == rest
        }),
{
    let step = slice::number_step(from, to, range);
    slice::law_steps_arrive(from, to, range);
    let kind: nat = if step.0 {
        1
    } else {
        0
    };
    let first = bitwriter::ue_code(kind);
    let second = bitwriter::ue_code((step.1 - 1) as nat);
    let bits = slice::step_bits(step) + rest;
    assert(bits =~= first + (second + rest));
    law_unsigned_codes_read_back(kind, second + rest);
    assert(bits.skip(first.len() as int) =~= second + rest);
    law_unsigned_codes_read_back((step.1 - 1) as nat, rest);
    assert(bits.skip((first.len() + second.len()) as int) =~= rest);
}

/// A decoder reads one step, and then the others.
proof fn lemma_read_on(
    code: Seq<bool>,
    behind: Seq<bool>,
    from: int,
    to: int,
    range: nat,
    count: nat,
    further: Seq<int>,
    used: int,
)
    requires
        count > 0,
        ({
            let bits = code + behind;
            let (kind, first) = read_ue(bits);
            let (length, second) = read_ue(bits.skip(first));
            &&& kind == 0 || kind == 1
            &&& to == (if kind == 1 {
                from - (length + 1)
            } else {
                from + (length + 1)
            }) % (range as int)
            &&& first + second == code.len()
            &&& bits.skip(first + second) == behind
        }),
        read_steps(behind, to, range, (count - 1) as nat) == (further, used),
    ensures
        read_steps(code + behind, from, range, count) == (
            seq![to] + further,
            code.len() + used,
        ),
{
}

/// A decoder that follows the steps from an entry on arrives at the entries behind it.
#[verifier::rlimit(60)]
proof fn lemma_steps_read_back(
    list: Seq<RefPicListEntry>,
    field: bool,
    range: nat,
    k: int,
    spare: nat,
    rest: Seq<bool>,
)
    requires
        0 <= k <= list.len(),
        0 < range,
        forall|i: int|
            0 <= i < list.len() ==> 0 <= slice::distance(#[trigger] list[i], field) < range,
    ensures
        read_steps(
            steps_from(list, field, range, k) + rest,
            back_of(list, field, k - 1),
            range,
            (list.len() - k + spare) as nat,
        ) == (
            Seq::new((list.len() - k) as nat, |i: int| slice::distance(list[k + i], field)),
            steps_from(list, field, range, k).len() as int,
        ),
    decreases list.len() - k,
{
    let wanted = Seq::new((list.len() - k) as nat, |i: int| slice::distance(list[k + i], field));
    if k == list.len() {
        law_unsigned_codes_read_back(3, rest);
        assert(wanted =~= seq![]);
    } else {
        let from = back_of(list, field, k - 1);
        let to = back_of(list, field, k);
        let step = slice::step_bits(slice::number_step(from, to, range));
        let behind = steps_from(list, field, range, k + 1);
        assert(0 <= slice::distance(list[k], field) < range);
        if k > 0 {
            assert(0 <= slice::distance(list[k - 1], field) < range);
        }
        assert(step + behind + rest =~= step + (behind + rest));
        lemma_step_reads_back(from, to, range, behind + rest);
        lemma_steps_read_back(list, field, range, k + 1, spare, rest);
        let further = Seq::new(
            (list.len() - k - 1) as nat,
            |i: int| slice::distance(list[k + 1 + i], field),
        );
        assert(wanted =~= seq![to] + further);
        lemma_read_on(
            step,
            behind + rest,
            from,
            to,
            range,
            (list.len() - k + spare) as nat,
            further,
            behind.len() as int,
        );
    }
}

/// A decoder that follows the modification of a list from the picture being coded has the
/// entries that the list names, in their order, and stops where the modification ends,
/// however many more it would have followed.
pub proof fn law_list_modifications_read_back(
    list: Seq<RefPicListEntry>,
    field: bool,
    range: nat,
    count: nat,
    rest: Seq<bool>,
)
    requires
        0 < list.len() <= count,
        0 < range,
        forall|i: int|
            0 <= i < list.len() ==> 0 <= slice::distance(#[trigger] list[i], field) < range,
    ensures
        ({
            let bits = slice::list_bits(list, field, range);
            &&& bits[0]
            &&& read_steps((bits + rest).skip(1), 0, range, count) == (
                Seq::new(list.len(), |i: int| slice::distance(list[i], field)),
                bits.len() - 1,
            )
        }),
{
    let bits = slice::list_bits(list, field, range);
    lemma_steps_from(list, field, range, 0);
    let steps = steps_from(list, field, range, 0);
    assert(slice::steps_bits(list, field, range, 0) + steps =~= steps);
    assert(bits =~= bitwriter::bit(true) + steps);
    assert((bits + rest).skip(1) =~= steps + rest);
    lemma_steps_read_back(list, field, range, 0, (count - list.len()) as nat, rest);
    assert(Seq::new(list.len(), |i: int| slice::distance(list[i], field)) =~= Seq::new(
        list.len(),
        |i: int| slice::distance(list[0 + i], field),
    ));
}

} // verus!
