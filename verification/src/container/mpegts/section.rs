//! The sections that a program's tables come in.
use vstd::prelude::*;

verus! {

/// How long the section is that `bytes` begin with.
pub open spec fn section_len(bytes: Seq<u8>) -> int {
    3 + 256 * (bytes[1] % 16) + bytes[2]
}

/// The complete sections at the front of `bytes`, and what is left behind them.
/// Stuffing ends both.
pub open spec fn sections_in(bytes: Seq<u8>) -> (Seq<Seq<u8>>, Seq<u8>)
    decreases bytes.len(),
{
    if bytes.len() > 0 && bytes[0] == 0xff {
        (seq![], seq![])
    } else if bytes.len() < 3 || bytes.len() < section_len(bytes) {
        (seq![], bytes)
    } else {
        let (sections, rest) = sections_in(bytes.skip(section_len(bytes)));
        (seq![bytes.take(section_len(bytes))] + sections, rest)
    }
}

/// What the assembler holds after a packet, and the sections that the packet
/// completed.
pub open spec fn assembled(held: Seq<u8>, payload: Seq<u8>, start: bool) -> (
    Seq<Seq<u8>>,
    Seq<u8>,
) {
    if !start {
        sections_in(held + payload)
    } else if payload.len() == 0 {
        (seq![], held)
    } else {
        // The pointer says where the first section of the packet begins, and so
        // how much of it belongs to the section before.
        let begin = 1 + payload[0] as int;
        let before = if held.len() > 0 && payload[0] > 0 {
            sections_in(
                held + payload.subrange(
                    1,
                    if begin < payload.len() {
                        begin
                    } else {
                        payload.len() as int
                    },
                ),
            ).0
        } else {
            seq![]
        };
        if begin <= payload.len() {
            let (sections, rest) = sections_in(payload.skip(begin));
            (before + sections, rest)
        } else {
            (before, seq![])
        }
    }
}

/// Several sections.
pub open spec fn section_views(sections: Seq<Vec<u8>>) -> Seq<Seq<u8>> {
    Seq::new(sections.len(), |i: int| sections[i]@)
}

/// Reassembles PSI sections, which are length-prefixed and may straddle packets.
pub struct SectionAssembler {
    pub bytes: Vec<u8>,
}

impl View for SectionAssembler {
    type V = Seq<u8>;

    open spec fn view(&self) -> Seq<u8> {
        self.bytes@
    }
}

impl SectionAssembler {
    pub fn new() -> (assembler: Self)
        ensures
            assembler@ == Seq::<u8>::empty(),
    {
        SectionAssembler { bytes: Vec::new() }
    }

    /// Take one packet's payload, and append the sections that it completes.
    pub fn push(&mut self, payload: &[u8], payload_unit_start: bool, sections: &mut Vec<Vec<u8>>)
        ensures
            section_views(final(sections)@) == section_views(old(sections)@) + assembled(
                old(self)@,
                payload@,
                payload_unit_start,
            ).0,
            final(self)@ == assembled(old(self)@, payload@, payload_unit_start).1,
    {
        if !payload_unit_start {
            self.append(payload, sections);
            return ;
        }
        if payload.len() == 0 {
            assert(section_views(sections@) + Seq::<Seq<u8>>::empty() =~= section_views(sections@));
            return ;
        }
        let ghost had = section_views(sections@);
        let pointer: usize = payload[0] as usize;
        let begin: usize = 1 + pointer;
        let ghost before: Seq<Seq<u8>> = seq![];
        if self.bytes.len() > 0 && pointer > 0 {
            let end: usize = if begin < payload.len() {
                begin
            } else {
                payload.len()
            };
            proof {
                before = sections_in(self@ + payload@.subrange(1, end as int)).0;
            }
            self.append(&payload[1..end], sections);
        } else {
            assert(had + before =~= had);
        }
        assert(section_views(sections@) == had + before);
        self.bytes.clear();
        if begin <= payload.len() {
            let ghost tail = payload@.skip(begin as int);
            assert(payload@.subrange(begin as int, payload@.len() as int) =~= tail);
            assert(self@ + tail =~= tail);
            self.append(&payload[begin..payload.len()], sections);
            assert(had + before + sections_in(tail).0 =~= had + (before + sections_in(tail).0));
        }
        assert(self@ =~= assembled(old(self)@, payload@, payload_unit_start).1);
    }

    /// Take more bytes, and append the sections that they complete.
    fn append(&mut self, data: &[u8], sections: &mut Vec<Vec<u8>>)
        ensures
            section_views(final(sections)@) == section_views(old(sections)@) + sections_in(
                old(self)@ + data@,
            ).0,
            final(self)@ == sections_in(old(self)@ + data@).1,
    {
        let ghost whole = self@ + data@;
        self.bytes.extend_from_slice(data);
        assert(self@ =~= whole);
        let ghost had = section_views(sections@);
        assert(had + sections_in(whole).0 == section_views(sections@) + sections_in(self@).0);
        loop
            invariant
                had == section_views(old(sections)@),
                whole == old(self)@ + data@,
                had + sections_in(whole).0 == section_views(sections@) + sections_in(self@).0,
                sections_in(whole).1 == sections_in(self@).1,
            decreases self@.len(),
        {
            if self.bytes.len() > 0 && self.bytes[0] == 0xff {
                self.bytes.clear();
                assert(section_views(sections@) + Seq::<Seq<u8>>::empty() =~= section_views(
                    sections@,
                ));
                assert(self@ =~= Seq::<u8>::empty());
                return ;
            }
            if self.bytes.len() < 3 {
                assert(section_views(sections@) + Seq::<Seq<u8>>::empty() =~= section_views(
                    sections@,
                ));
                return ;
            }
            let length: usize = 3 + 256 * ((self.bytes[1] % 16) as usize) + self.bytes[2] as usize;
            if self.bytes.len() < length {
                assert(section_views(sections@) + Seq::<Seq<u8>>::empty() =~= section_views(
                    sections@,
                ));
                return ;
            }
            let ghost held = self@;
            let ghost past = sections@;
            let rest = self.bytes.split_off(length);
            let mut section: Vec<u8> = Vec::new();
            section.extend_from_slice(&self.bytes);
            let ghost view = section@;
            assert(view =~= held.take(length as int));
            sections.push(section);
            self.bytes = rest;
            assert(self@ =~= held.skip(length as int));
            assert(section_views(sections@) =~= section_views(past) + seq![view]);
            assert(section_views(past) + (seq![view] + sections_in(self@).0) =~= section_views(
                sections@,
            ) + sections_in(self@).0);
        }
    }
}

/// A section is no longer than its length can say.
pub proof fn lemma_sections_are_short(held: Seq<u8>, payload: Seq<u8>, start: bool)
    ensures
        forall|i: int|
            0 <= i < assembled(held, payload, start).0.len() ==> (#[trigger] assembled(
                held,
                payload,
                start,
            ).0[i]).len() <= 0x1002,
        assembled(held, payload, start).1.len() <= held.len() + payload.len(),
{
    lemma_short(held + payload);
    if payload.len() > 0 {
        let begin = 1 + payload[0] as int;
        let end = if begin < payload.len() {
            begin
        } else {
            payload.len() as int
        };
        lemma_short(held + payload.subrange(1, end));
        if begin <= payload.len() {
            lemma_short(payload.skip(begin));
        }
    }
}

/// A section is no longer than its length can say.
proof fn lemma_short(bytes: Seq<u8>)
    ensures
        forall|i: int|
            0 <= i < sections_in(bytes).0.len() ==> (#[trigger] sections_in(bytes).0[i]).len()
                <= 0x1002,
        sections_in(bytes).1.len() <= bytes.len(),
    decreases bytes.len(),
{
    if bytes.len() >= 3 && bytes[0] != 0xff && bytes.len() >= section_len(bytes) {
        lemma_short(bytes.skip(section_len(bytes)));
    }
}

/// Sections that are not stuffing come out of an assembler whole, one behind the
/// other.
pub proof fn law_sections_are_cut_by_their_lengths(first: Seq<u8>, rest: Seq<u8>)
    requires
        first.len() >= 3,
        first[0] != 0xff,
        first.len() == section_len(first),
    ensures
        sections_in(first + rest) == (seq![first] + sections_in(rest).0, sections_in(rest).1),
{
    let whole = first + rest;
    assert(whole.take(first.len() as int) =~= first);
    assert(whole.skip(first.len() as int) =~= rest);
}

} // verus!
