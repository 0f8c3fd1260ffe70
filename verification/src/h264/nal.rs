//! NAL units: the start code, the header, and emulation prevention.
use vstd::prelude::*;

verus! {

/// A payload with emulation prevention, behind `run` zero bytes: a three goes in
/// front of every byte up to three that follows two zeros.
pub open spec fn escaped(payload: Seq<u8>, run: nat) -> Seq<u8>
    decreases payload.len(),
{
    if payload.len() == 0 {
        Seq::empty()
    } else {
        let b = payload[0];
        let rest = payload.skip(1);
        if run >= 2 && b <= 3 {
            seq![3u8, b] + escaped(
                rest,
                if b == 0 {
                    1
                } else {
                    0
                },
            )
        } else {
            seq![b] + escaped(
                rest,
                if b == 0 {
                    run + 1
                } else {
                    0
                },
            )
        }
    }
}

/// A payload with the emulation prevention taken out again.
pub open spec fn unescaped(bytes: Seq<u8>, run: nat) -> Seq<u8>
    decreases bytes.len(),
{
    if bytes.len() == 0 {
        Seq::empty()
    } else {
        let b = bytes[0];
        let rest = bytes.skip(1);
        if run >= 2 && b == 3 {
            unescaped(rest, 0)
        } else {
            seq![b] + unescaped(
                rest,
                if b == 0 {
                    run + 1
                } else {
                    0
                },
            )
        }
    }
}

/// The NAL unit that carries `rbsp`, as it stands in a byte stream.
pub open spec fn nal_unit(rbsp: Seq<u8>, ref_idc: int, kind: int) -> Seq<u8> {
    seq![0u8, 0, 0, 1, (32 * ref_idc + kind) as u8] + escaped(rbsp, 0)
}

/// Wrap an RBSP in a NAL unit of the byte stream format.
pub fn to_nal_unit(rbsp: &[u8], ref_idc: u8, kind: u8) -> (nal: Vec<u8>)
    requires
        ref_idc < 4,
        kind < 32,
    ensures
        nal@ == nal_unit(rbsp@, ref_idc as int, kind as int),
{
    let mut nal: Vec<u8> = Vec::with_capacity(rbsp.len());
    nal.push(0);
    nal.push(0);
    nal.push(0);
    nal.push(1);
    nal.push(ref_idc * 32 + kind);
    let ghost head = seq![0u8, 0, 0, 1, (32 * ref_idc + kind) as u8];
    assert(nal@ =~= head);
    let mut run: u8 = 0;
    let mut i: usize = 0;
    assert(rbsp@.skip(0) =~= rbsp@);
    while i < rbsp.len()
        invariant
            i <= rbsp@.len(),
            run <= 2,
            nal@ + escaped(rbsp@.skip(i as int), run as nat) == head + escaped(rbsp@, 0),
        decreases rbsp@.len() - i,
    {
        let b: u8 = rbsp[i];
        let ghost before = nal@;
        let ghost tail = escaped(rbsp@.skip(i as int), run as nat);
        assert(rbsp@.skip(i as int).skip(1) =~= rbsp@.skip(i + 1));
        if run >= 2 && b <= 3 {
            nal.push(3);
            run = 0;
        }
        nal.push(b);
        run = if b == 0 {
            run + 1
        } else {
            0
        };
        i = i + 1;
        assert(nal@ + escaped(rbsp@.skip(i as int), run as nat) =~= before + tail);
    }
    assert(nal@ + escaped(rbsp@.skip(i as int), run as nat) =~= nal@);
    nal
}

/// Taking the emulation prevention out gives the payload back.
pub proof fn law_unescape_inverts_escape(payload: Seq<u8>, run: nat)
    requires
        run <= 2,
    ensures
        unescaped(escaped(payload, run), run) == payload,
    decreases payload.len(),
{
    if payload.len() > 0 {
        let b = payload[0];
        let rest = payload.skip(1);
        let all = escaped(payload, run);
        if run >= 2 && b <= 3 {
            let next: nat = if b == 0 {
                1
            } else {
                0
            };
            law_unescape_inverts_escape(rest, next);
            let tail = escaped(rest, next);
            assert(all.skip(1) =~= seq![b] + tail);
            assert(all.skip(1).skip(1) =~= tail);
            assert(unescaped(all.skip(1), 0) == seq![b] + unescaped(tail, next));
        } else {
            let next: nat = if b == 0 {
                run + 1
            } else {
                0
            };
            law_unescape_inverts_escape(rest, next);
            assert(all.skip(1) =~= escaped(rest, next));
        }
        assert(unescaped(all, run) =~= payload);
    }
}

/// Whether two zeros and a byte up to two stand at `i`, as they do in a start code.
pub open spec fn emulates_start_code(bytes: Seq<u8>, i: int) -> bool {
    0 <= i && i + 2 < bytes.len() && bytes[i] == 0 && bytes[i + 1] == 0 && bytes[i + 2] <= 2
}

/// `run` zero bytes.
pub open spec fn zero_bytes(run: nat) -> Seq<u8> {
    Seq::new(run, |i: int| 0u8)
}

/// No payload can be taken for a start code once it is escaped, whatever up to two
/// zeros stand in front of it.
pub proof fn law_escape_hides_start_codes(payload: Seq<u8>, run: nat)
    requires
        run <= 2,
    ensures
        forall|i: int| !emulates_start_code(zero_bytes(run) + escaped(payload, run), i),
    decreases payload.len(),
{
    let all = zero_bytes(run) + escaped(payload, run);
    if payload.len() > 0 {
        let b = payload[0];
        let rest = payload.skip(1);
        let inserts = run >= 2 && b <= 3;
        let next: nat = if b != 0 {
            0
        } else if inserts {
            1
        } else {
            run + 1
        };
        law_escape_hides_start_codes(rest, next);
        let tail = zero_bytes(next) + escaped(rest, next);
        // Where the tail begins within the whole.
        let at: int = all.len() - tail.len();
        assert(all.len() == run + (if inserts {
            2int
        } else {
            1int
        }) + escaped(rest, next).len());
        assert(all.skip(at) =~= tail);
        assert forall|i: int| !emulates_start_code(all, i) by {
            if i >= at {
                assert(!emulates_start_code(tail, i - at));
                assert(forall|k: int| 0 <= k < tail.len() ==> tail[k] == all[k + at]);
            } else if emulates_start_code(all, i) {
                assert(all[i + 2] <= 2);
            }
        }
    }
}

} // verus!
