//! What a multiplexer writes is what is read out of the stream.
use crate::container::mpegts::packet;
use crate::container::mpegts::program;
use crate::container::mpegts::section;
use vstd::prelude::*;

verus! {

/// A number of 13 bits behind three others, in two bytes.
pub open spec fn pid_bytes(others: int, pid: int) -> Seq<u8> {
    seq![(32 * others + pid / 256) as u8, (pid % 256) as u8]
}

/// A number of 12 bits behind four others, in two bytes.
pub open spec fn length_bytes(others: int, length: int) -> Seq<u8> {
    seq![(16 * others + length / 256) as u8, (length % 256) as u8]
}

/// A number of 16 bits in two bytes.
pub open spec fn pair_bytes(number: int) -> Seq<u8> {
    seq![(number / 256) as u8, (number % 256) as u8]
}

/// Every PID comes back, whatever the three bits in front of it are.
pub proof fn law_pids_read_back(before: Seq<u8>, others: int, pid: int, behind: Seq<u8>)
    requires
        0 <= others < 8,
        0 <= pid < 0x2000,
    ensures
        program::pid_in(before + pid_bytes(others, pid) + behind, before.len() as int) == pid,
{
    let s = before + pid_bytes(others, pid) + behind;
    assert(s[before.len() as int] == pid_bytes(others, pid)[0]);
    assert(s[before.len() as int + 1] == pid_bytes(others, pid)[1]);
}

/// Every length of 12 bits comes back, whatever the four bits in front of it are.
pub proof fn law_lengths_read_back(before: Seq<u8>, others: int, length: int, behind: Seq<u8>)
    requires
        0 <= others < 16,
        0 <= length < 0x1000,
    ensures
        program::length_in(before + length_bytes(others, length) + behind, before.len() as int)
            == length,
{
    let s = before + length_bytes(others, length) + behind;
    assert(s[before.len() as int] == length_bytes(others, length)[0]);
    assert(s[before.len() as int + 1] == length_bytes(others, length)[1]);
}

/// Every number of 16 bits comes back.
pub proof fn law_pairs_read_back(before: Seq<u8>, number: int, behind: Seq<u8>)
    requires
        0 <= number < 0x1_0000,
    ensures
        program::pair(before + pair_bytes(number) + behind, before.len() as int) == number,
{
    let s = before + pair_bytes(number) + behind;
    assert(s[before.len() as int] == pair_bytes(number)[0]);
    assert(s[before.len() as int + 1] == pair_bytes(number)[1]);
}

/// A packet as a multiplexer has it.
#[verifier::ext_equal]
pub struct Outgoing {
    pub damaged: bool,
    pub start: bool,
    pub priority: bool,
    pub pid: int,
    /// Two bits: zero where the payload is not scrambled.
    pub scrambling: int,
    pub counter: int,
    /// What the adaptation field holds behind its length, where there is one.
    pub adaptation: Option<Seq<u8>>,
    pub payload: Seq<u8>,
}

/// One, or nothing.
pub open spec fn one_if(yes: bool) -> int {
    if yes {
        1
    } else {
        0
    }
}

impl Outgoing {
    /// The adaptation field with its length in front.
    pub open spec fn field(self) -> Seq<u8> {
        match self.adaptation {
            Some(bytes) => seq![bytes.len() as u8] + bytes,
            None => seq![],
        }
    }

    /// The packet can be written: its fields are in range, and it has 188 bytes.
    pub open spec fn fits(self) -> bool {
        &&& 0 <= self.pid < 0x2000
        &&& 0 <= self.scrambling < 4
        &&& 0 <= self.counter < 16
        &&& 4 + self.field().len() + self.payload.len() == 188
    }

    /// The four bytes in front. The control bits say whether an adaptation field and
    /// whether a payload follows.
    pub open spec fn header(self, payload_follows: bool) -> Seq<u8> {
        seq![
            0x47u8,
            (128 * one_if(self.damaged) + 64 * one_if(self.start) + 32 * one_if(self.priority)
                + self.pid / 256) as u8,
            (self.pid % 256) as u8,
            (64 * self.scrambling + 32 * one_if(self.adaptation is Some) + 16 * one_if(
                payload_follows,
            ) + self.counter) as u8,
        ]
    }

    /// The packet's bytes.
    pub open spec fn bytes(self) -> Seq<u8> {
        self.header(true) + self.field() + self.payload
    }
}

/// A packet is read as it was written: its PID, its marks, its counter and its payload,
/// whatever the adaptation field in front of the payload holds. The first bit of that
/// field tells of a discontinuity.
pub proof fn law_packets_are_read_as_written(p: Outgoing)
    requires
        p.fits(),
    ensures
        ({
            let read = packet::payload_of(p.bytes());
            &&& read is Some
            &&& read->Some_0.pid == p.pid
            &&& read->Some_0.transport_error_indicator == p.damaged
            &&& read->Some_0.payload_unit_start == p.start
            &&& read->Some_0.continuity_counter == p.counter
            &&& read->Some_0.scrambled == (p.scrambling != 0)
            &&& read->Some_0.data == p.payload
            &&& p.adaptation is None ==> !read->Some_0.discontinuity
            &&& p.adaptation matches Some(field) ==> field.len() > 0 ==> (
            read->Some_0.discontinuity <==> field[0] >= 128)
        }),
{
    let b = p.bytes();
    let h = p.header(true);
    assert(b[0] == h[0] && b[1] == h[1] && b[2] == h[2] && b[3] == h[3]);
    let e = one_if(p.damaged);
    let s = one_if(p.start);
    let r = one_if(p.priority);
    let top = p.pid / 256;
    assert(0 <= top < 32);
    assert(h[1] == 128 * e + 64 * s + 32 * r + top);
    assert(h[3] == 64 * p.scrambling + 32 * one_if(p.adaptation is Some) + 16 + p.counter);
    assert(h[1] % 32 == top);
    assert((h[1] / 64) % 2 == s);
    match p.adaptation {
        Some(field) => {
            assert(b[4] == field.len());
            if field.len() > 0 {
                assert(b[5] == field[0]);
            }
            assert(b.subrange(5 + field.len() as int, 188) =~= p.payload);
        },
        None => {
            assert(b.subrange(4, 188) =~= p.payload);
        },
    }
}

/// A packet that announces no payload carries none, and bytes that do not open with the
/// sync byte are no packet.
pub proof fn law_packets_without_payload_carry_nothing(p: Outgoing, rest: Seq<u8>, bytes: Seq<u8>)
    requires
        p.fits(),
        bytes.len() == 188,
        bytes[0] != 0x47,
    ensures
        packet::payload_of(p.header(false) + rest) is None,
        packet::payload_of(bytes) is None,
{
    let b = p.header(false) + rest;
    let h = p.header(false);
    assert(b[0] == h[0] && b[1] == h[1] && b[2] == h[2] && b[3] == h[3]);
    assert(h[3] == 64 * p.scrambling + 32 * one_if(p.adaptation is Some) + p.counter);
}

/// One line of a program association table: a program number and the PID of its map, or
/// of the network where the number is zero.
#[verifier::ext_equal]
pub struct Association {
    pub program: int,
    pub others: int,
    pub pid: int,
}

impl Association {
    /// The line can be written.
    pub open spec fn fits(self) -> bool {
        &&& 0 <= self.program < 0x1_0000
        &&& 0 <= self.others < 8
        &&& 0 <= self.pid < 0x2000
    }
}

/// The lines of a table from `k` on, in bytes.
pub open spec fn association_bytes(list: Seq<Association>, k: int) -> Seq<u8>
    decreases list.len() - k,
{
    if k >= list.len() {
        seq![]
    } else {
        pair_bytes(list[k].program) + pid_bytes(list[k].others, list[k].pid) + association_bytes(
            list,
            k + 1,
        )
    }
}

/// A program association table: eight bytes, the lines, and a checksum of four bytes.
pub open spec fn association_table(
    front: Seq<u8>,
    list: Seq<Association>,
    checksum: Seq<u8>,
) -> Seq<u8> {
    front + association_bytes(list, 0) + checksum
}

/// The lines take four bytes each.
proof fn lemma_association_length(list: Seq<Association>, k: int)
    requires
        0 <= k <= list.len(),
    ensures
        association_bytes(list, k).len() == 4 * (list.len() - k),
    decreases list.len() - k,
{
    if k < list.len() {
        lemma_association_length(list, k + 1);
    }
}

/// A map's PID is among those of the lines from `k` on.
pub open spec fn names_map(list: Seq<Association>, k: int, pid: u16) -> bool {
    exists|j: int| k <= j < list.len() && #[trigger] list[j].program != 0 && list[j].pid == pid
}

/// A program is among those of the lines from `k` on.
pub open spec fn names_program(list: Seq<Association>, k: int, program: u16) -> bool {
    exists|j: int| k <= j < list.len() && #[trigger] list[j].program == program && program != 0
}

/// What the lines from `k` on announce.
proof fn lemma_announced(
    section: Seq<u8>,
    front: Seq<u8>,
    list: Seq<Association>,
    checksum: Seq<u8>,
    k: int,
    services: Seq<u16>,
    pids: Set<u16>,
)
    requires
        0 <= k <= list.len(),
        checksum.len() == 4,
        section == front + association_bytes(list, k) + checksum,
        forall|j: int| 0 <= j < list.len() ==> (#[trigger] list[j]).fits(),
    ensures
        ({
            let (all, maps) = program::announced(section, front.len() as int, services, pids);
            &&& forall|pid: u16|
                #[trigger] maps.contains(pid) <==> pids.contains(pid) || names_map(list, k, pid)
            &&& forall|program: u16|
                #[trigger] all.contains(program) <==> services.contains(program) || names_program(
                    list,
                    k,
                    program,
                )
            &&& services.len() <= all.len()
            &&& all.take(services.len() as int) == services
            &&& services.no_duplicates() ==> all.no_duplicates()
        }),
    decreases list.len() - k,
{
    lemma_association_length(list, k);
    let i = front.len() as int;
    if k == list.len() {
        assert(services.take(services.len() as int) =~= services);
    } else {
        let line = list[k];
        let rest = association_bytes(list, k + 1);
        let p = pair_bytes(line.program);
        let q = pid_bytes(line.others, line.pid);
        assert(line.fits());
        law_pairs_read_back(front, line.program, q + rest + checksum);
        assert(front + p + (q + rest + checksum) =~= section);
        law_pids_read_back(front + p, line.others, line.pid, rest + checksum);
        assert((front + p) + q + (rest + checksum) =~= section);
        assert((front + p + q) + rest + checksum =~= section);
        let program = line.program as u16;
        let (more, maps) = if program == 0 {
            (services, pids)
        } else {
            (
                if services.contains(program) {
                    services
                } else {
                    services.push(program)
                },
                pids.insert(line.pid as u16),
            )
        };
        lemma_announced(section, front + p + q, list, checksum, k + 1, more, maps);
        let (all, found) = program::announced(section, i + 4, more, maps);
        assert(program::announced(section, i, services, pids) == (all, found));
        assert forall|pid: u16| #[trigger] found.contains(pid) <==> pids.contains(pid)
            || names_map(list, k, pid) by {
            if names_map(list, k, pid) && !names_map(list, k + 1, pid) {
                let j = choose|j: int|
                    k <= j < list.len() && #[trigger] list[j].program != 0 && list[j].pid == pid;
                assert(j == k);
            }
            if names_map(list, k + 1, pid) {
                let j = choose|j: int|
                    k + 1 <= j < list.len() && #[trigger] list[j].program != 0 && list[j].pid
                        == pid;
                assert(list[j].program != 0);
            }
            if program != 0 && pid == line.pid {
                assert(list[k].program != 0);
            }
        }
        assert forall|s: u16| #[trigger] all.contains(s) <==> services.contains(s)
            || names_program(list, k, s) by {
            if program != 0 && !services.contains(program) {
                assert(more.contains(s) <==> services.contains(s) || s == program) by {
                    if services.contains(s) {
                        let j = services.index_of(s);
                        assert(more[j] == s);
                    }
                    assert(more[services.len() as int] == program);
                }
            }
            if names_program(list, k, s) && !names_program(list, k + 1, s) {
                let j = choose|j: int|
                    k <= j < list.len() && #[trigger] list[j].program == s && s != 0;
                assert(j == k);
            }
            if names_program(list, k + 1, s) {
                let j = choose|j: int|
                    k + 1 <= j < list.len() && #[trigger] list[j].program == s && s != 0;
                assert(list[j].program == s);
            }
            if program != 0 && s == program {
                assert(list[k].program == s);
            }
        }
        assert(all.take(services.len() as int) =~= all.take(more.len() as int).take(
            services.len() as int,
        ));
        assert(more.take(services.len() as int) =~= services);
    }
}

/// A program association table announces what its lines name, whatever PIDs they are: a
/// map on the PID of every program, and each program once, behind those known before. A
/// line of number zero names the network, and announces nothing.
pub proof fn law_associations_are_announced(
    front: Seq<u8>,
    list: Seq<Association>,
    checksum: Seq<u8>,
    services: Seq<u16>,
    pids: Set<u16>,
)
    requires
        front.len() == 8,
        checksum.len() == 4,
        forall|j: int| 0 <= j < list.len() ==> (#[trigger] list[j]).fits(),
    ensures
        ({
            let table = association_table(front, list, checksum);
            let (all, maps) = program::announced(table, 8, services, pids);
            &&& forall|pid: u16|
                #[trigger] maps.contains(pid) <==> pids.contains(pid) || names_map(list, 0, pid)
            &&& forall|program: u16|
                #[trigger] all.contains(program) <==> services.contains(program) || names_program(
                    list,
                    0,
                    program,
                )
            &&& services.len() <= all.len()
            &&& all.take(services.len() as int) == services
            &&& services.no_duplicates() ==> all.no_duplicates()
        }),
{
    lemma_announced(
        association_table(front, list, checksum),
        front,
        list,
        checksum,
        0,
        services,
        pids,
    );
}

} // verus!
