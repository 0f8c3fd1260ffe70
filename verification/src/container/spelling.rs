//! The letters that names are spelt with.
use crate::container::fmp4::init;
use crate::container::fmp4::init::CodecView;
use crate::container::mpegts::descriptors;
use vstd::prelude::*;
use vstd::string::*;

verus! {

/// A letter of the alphabet is one character, so many behind `a`.
pub proof fn law_letters_follow_the_alphabet(n: int)
    requires
        0 <= n < 26,
    ensures
        descriptors::nth_letter(n).len() == 1,
        descriptors::nth_letter(n)[0] as int == 97 + n,
{
    reveal_strlit("a");
    reveal_strlit("b");
    reveal_strlit("c");
    reveal_strlit("d");
    reveal_strlit("e");
    reveal_strlit("f");
    reveal_strlit("g");
    reveal_strlit("h");
    reveal_strlit("i");
    reveal_strlit("j");
    reveal_strlit("k");
    reveal_strlit("l");
    reveal_strlit("m");
    reveal_strlit("n");
    reveal_strlit("o");
    reveal_strlit("p");
    reveal_strlit("q");
    reveal_strlit("r");
    reveal_strlit("s");
    reveal_strlit("t");
    reveal_strlit("u");
    reveal_strlit("v");
    reveal_strlit("w");
    reveal_strlit("x");
    reveal_strlit("y");
    reveal_strlit("z");
}

/// A letter in lower case: a lower one stays, an upper one becomes the lower one 32 behind it.
pub proof fn law_letters_are_lowered(b: u8)
    requires
        65 <= b <= 90 || 97 <= b <= 122,
    ensures
        descriptors::lower(b).len() == 1,
        b >= 97 ==> descriptors::lower(b)[0] as int == b,
        b <= 90 ==> descriptors::lower(b)[0] as int == b + 32,
{
    law_letters_follow_the_alphabet(
        if b >= 97 {
            b - 97
        } else {
            b - 65
        },
    );
}

/// A code is lowered letter by letter.
pub proof fn law_codes_are_lowered(code: Seq<u8>, n: nat, i: int)
    requires
        0 <= i < n <= code.len(),
        forall|k: int| 0 <= k < code.len() ==> 65 <= #[trigger] code[k] <= 90 || 97 <= code[k] <= 122,
    ensures
        descriptors::lower_text(code, n).len() == n,
        descriptors::lower_text(code, n)[i] as int == if code[i] >= 97 {
            code[i] as int
        } else {
            code[i] + 32
        },
    decreases n,
{
    reveal_with_fuel(descriptors::lower_text, 2);
    assert(65 <= code[n - 1] <= 90 || 97 <= code[n - 1] <= 122);
    law_letters_are_lowered(code[n - 1]);
    if n > 1 {
        law_codes_are_lowered(
            code,
            (n - 1) as nat,
            if i < n - 1 {
                i
            } else {
                0
            },
        );
    }
}

/// A hexadecimal digit is one character, `0` to `9` and `a` to `f`.
pub proof fn law_digits_follow_each_other(n: int)
    requires
        0 <= n < 16,
    ensures
        init::hex_digit(n).len() == 1,
        n < 10 ==> init::hex_digit(n)[0] as int == 48 + n,
        n >= 10 ==> init::hex_digit(n)[0] as int == 97 + (n - 10),
{
    reveal_strlit("0");
    reveal_strlit("1");
    reveal_strlit("2");
    reveal_strlit("3");
    reveal_strlit("4");
    reveal_strlit("5");
    reveal_strlit("6");
    reveal_strlit("7");
    reveal_strlit("8");
    reveal_strlit("9");
    reveal_strlit("a");
    reveal_strlit("b");
    reveal_strlit("c");
    reveal_strlit("d");
    reveal_strlit("e");
    reveal_strlit("f");
}

/// The value of a hexadecimal digit.
pub open spec fn digit_value(c: char) -> int {
    if 97 <= c as int {
        c as int - 87
    } else {
        c as int - 48
    }
}

/// A byte is spelt in two digits, the high one first.
pub proof fn law_bytes_are_spelt(b: u8)
    ensures
        init::hex(b).len() == 2,
        16 * digit_value(init::hex(b)[0]) + digit_value(init::hex(b)[1]) == b,
{
    law_digits_follow_each_other(b as int / 16);
    law_digits_follow_each_other(b as int % 16);
}

/// The name of an AVC stream tells its profile, its compatibility flags and its level, in that
/// order, behind its kind; that of an MPEG-2 stream its object type.
pub proof fn law_codecs_are_named(sps: Seq<u8>, pps: Seq<u8>, header: Seq<u8>)
    requires
        sps.len() >= 4,
    ensures
        ({
            let name = init::codec_name(CodecView::Avc { sps, pps });
            let at = |i: int| digit_value(name[i]);
            &&& name.len() == 11
            &&& name.take(5) == "avc1."@
            &&& 16 * at(5) + at(6) == sps[1]
            &&& 16 * at(7) + at(8) == sps[2]
            &&& 16 * at(9) + at(10) == sps[3]
        }),
        ({
            let name = init::codec_name(CodecView::Mpeg2 { sequence_header: header });
            let at = |i: int| digit_value(name[i]);
            &&& name.len() == 7
            &&& name.take(5) == "mp4v."@
            &&& 16 * at(5) + at(6) == 0x61
        }),
{
    reveal_strlit("avc1.");
    reveal_strlit("mp4v.");
    law_bytes_are_spelt(sps[1]);
    law_bytes_are_spelt(sps[2]);
    law_bytes_are_spelt(sps[3]);
    law_bytes_are_spelt(0x61);
    let name = init::codec_name(CodecView::Avc { sps, pps });
    assert(name.take(5) =~= "avc1."@);
    let other = init::codec_name(CodecView::Mpeg2 { sequence_header: header });
    assert(other.take(5) =~= "mp4v."@);
}

} // verus!
