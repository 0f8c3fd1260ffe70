//! How the units of a sample lie in the media, and which units make a sample.
use crate::container::fmp4::boxes;
use crate::container::fmp4::package;
use crate::container::fmp4::payload;
use crate::container::fmp4::playback;
use vstd::prelude::*;

verus! {

/// Where part `k` of a sample begins: behind the parts before it, each with `extra` bytes in
/// front.
pub open spec fn part_start(parts: Seq<Seq<u8>>, extra: nat, k: nat) -> nat
    decreases k,
{
    if k == 0 {
        0
    } else {
        part_start(parts, extra, (k - 1) as nat) + extra + parts[k - 1].len()
    }
}

/// The units of a length-prefixed sample stand one behind the other, each behind its length in
/// four bytes; those of any other sample stand one behind the other as they are.
pub proof fn law_units_stand_behind_their_lengths(parts: Seq<Seq<u8>>, n: nat, k: nat)
    requires
        k < n <= parts.len(),
        forall|i: int| 0 <= i < parts.len() ==> (#[trigger] parts[i]).len() <= u32::MAX,
    ensures
        ({
            let b = payload::parts_bytes(parts, true, n);
            let at = part_start(parts, 4, k) as int;
            &&& b.len() == part_start(parts, 4, n)
            &&& playback::number(b, at) == parts[k as int].len()
            &&& playback::stands(b, at + 4, parts[k as int])
        }),
        ({
            let b = payload::parts_bytes(parts, false, n);
            &&& b.len() == part_start(parts, 0, n)
            &&& playback::stands(b, part_start(parts, 0, k) as int, parts[k as int])
        }),
    decreases n,
{
    lemma_parts_length(parts, true, n);
    lemma_parts_length(parts, false, n);
    lemma_parts_length(parts, true, (n - 1) as nat);
    lemma_parts_length(parts, false, (n - 1) as nat);
    let b = payload::parts_bytes(parts, true, n);
    let before = payload::parts_bytes(parts, true, (n - 1) as nat);
    let size = boxes::be32(boxes::low32(parts[n - 1].len()));
    playback::lemma_whole(b);
    playback::lemma_parts(b, 0, before, size + parts[n - 1]);
    let c = payload::parts_bytes(parts, false, n);
    let bare = payload::parts_bytes(parts, false, (n - 1) as nat);
    playback::lemma_whole(c);
    playback::lemma_parts(c, 0, bare, parts[n - 1]);
    if k == n - 1 {
        playback::lemma_parts(b, before.len() as int, size, parts[n - 1]);
        playback::lemma_number(b, before.len() as int, boxes::low32(parts[n - 1].len()));
        assert(parts[n - 1].len() <= u32::MAX);
    } else {
        law_units_stand_behind_their_lengths(parts, (n - 1) as nat, k);
        let at = part_start(parts, 4, k) as int;
        lemma_starts_grow(parts, 4, (k + 1) as nat, (n - 1) as nat);
        playback::lemma_number_inside(b, 0, before, at);
        playback::lemma_inside(b, 0, before, at + 4, parts[k as int]);
        playback::lemma_inside(c, 0, bare, part_start(parts, 0, k) as int, parts[k as int]);
    }
}

/// How long the first parts of a sample are.
proof fn lemma_parts_length(parts: Seq<Seq<u8>>, length_prefixed: bool, n: nat)
    ensures
        payload::parts_bytes(parts, length_prefixed, n).len() == part_start(
            parts,
            if length_prefixed {
                4
            } else {
                0
            },
            n,
        ),
    decreases n,
{
    if n > 0 {
        lemma_parts_length(parts, length_prefixed, (n - 1) as nat);
    }
}

/// Parts begin one behind the other.
proof fn lemma_starts_grow(parts: Seq<Seq<u8>>, extra: nat, j: nat, k: nat)
    requires
        j <= k,
    ensures
        part_start(parts, extra, j) <= part_start(parts, extra, k),
    decreases k,
{
    if j < k {
        lemma_starts_grow(parts, extra, j, (k - 1) as nat);
    }
}

/// A fragment begins to be decoded as long before it is shown as its delay, so that its first
/// picture is shown when it should be; only at the very beginning is there not that much time.
pub proof fn law_fragments_begin_ahead(start: u64, delay: int)
    requires
        0 <= delay,
    ensures
        start >= delay ==> package::base_time(start, delay) + delay == start,
        start < delay ==> package::base_time(start, delay) == 0,
{
}

/// Without delimiters each slice is a sample of its own: one more slice is one more sample, and
/// any other unit is none.
pub proof fn law_slices_are_samples(nals: Seq<Seq<u8>>, unit: Seq<u8>)
    requires
        !payload::any_of_kind(nals, 9),
        unit[0] % 32 != 9,
    ensures
        ({
            let more = payload::samples_of(nals.push(unit));
            let slice = unit[0] % 32 == 1 || unit[0] % 32 == 5;
            &&& slice ==> more == payload::samples_of(nals).push(seq![unit])
            &&& !slice ==> more == payload::samples_of(nals)
        }),
{
    let all = nals.push(unit);
    assert(!payload::any_of_kind(all, 9)) by {
        assert forall|i: int| 0 <= i < all.len() implies payload::kind_of(#[trigger] all[i])
            != 9 by {
            if i < nals.len() {
                assert(all[i] == nals[i]);
            }
        }
    }
    lemma_lone_same(nals, all, nals.len());
    assert(all[all.len() - 1] == unit);
}

/// Slices of the same units are the same.
proof fn lemma_lone_same(a: Seq<Seq<u8>>, b: Seq<Seq<u8>>, n: nat)
    requires
        n <= a.len(),
        n <= b.len(),
        forall|i: int| 0 <= i < n ==> a[i] == b[i],
    ensures
        payload::lone_slices(a, n) == payload::lone_slices(b, n),
    decreases n,
{
    if n > 0 {
        lemma_lone_same(a, b, (n - 1) as nat);
        assert(a[n - 1] == b[n - 1]);
    }
}

/// With delimiters a sample is what stands between two of them: the first slice behind a
/// delimiter begins one, a slice behind a slice joins it, and neither a delimiter nor any other
/// unit is part of one.
pub proof fn law_delimiters_part_the_samples(nals: Seq<Seq<u8>>, unit: Seq<u8>)
    requires
        payload::any_of_kind(nals, 9),
        nals.len() > 0,
    ensures
        ({
            let before = payload::samples_of(nals);
            let more = payload::samples_of(nals.push(unit));
            let last = nals.last()[0] % 32;
            let slice = unit[0] % 32 == 1 || unit[0] % 32 == 5;
            &&& !slice ==> more == before
            &&& slice && last == 9 ==> more == before.push(seq![unit])
            &&& slice && (last == 1 || last == 5) ==> before.len() > 0 && more == before.update(
                before.len() - 1,
                before.last().push(unit),
            )
        }),
{
    let all = nals.push(unit);
    let j = choose|j: int| 0 <= j < nals.len() && payload::kind_of(#[trigger] nals[j]) == 9;
    assert(all[j] == nals[j]);
    assert(payload::any_of_kind(all, 9));
    lemma_delimited_same(nals, all, nals.len());
    assert(all[all.len() - 1] == unit);
    let (samples, current) = payload::delimited(nals, nals.len());
    let n = nals.len();
    assert(nals[n - 1] == nals.last());
    let after = payload::delimited(all, all.len());
    let slice = unit[0] % 32 == 1 || unit[0] % 32 == 5;
    if slice && nals.last()[0] % 32 == 9 {
        assert(current.len() == 0);
        assert(current.push(unit) =~= seq![unit]);
    } else if slice && (nals.last()[0] % 32 == 1 || nals.last()[0] % 32 == 5) {
        assert(current.len() > 0);
        assert(samples.push(current).update(samples.len() as int, current.push(unit))
            =~= samples.push(current.push(unit)));
    }
}

/// What the same units are gathered into is the same.
proof fn lemma_delimited_same(a: Seq<Seq<u8>>, b: Seq<Seq<u8>>, n: nat)
    requires
        n <= a.len(),
        n <= b.len(),
        forall|i: int| 0 <= i < n ==> a[i] == b[i],
    ensures
        payload::delimited(a, n) == payload::delimited(b, n),
    decreases n,
{
    if n > 0 {
        lemma_delimited_same(a, b, (n - 1) as nat);
        assert(a[n - 1] == b[n - 1]);
    }
}

/// A recovery point is a message of type 6, in a unit of kind 6.
pub proof fn law_recovery_points_are_messages(unit: Seq<u8>)
    requires
        unit.len() > 1,
    ensures
        payload::is_recovery_point(unit) <==> unit[0] % 32 == 6 && unit[1] == 6,
{
}

} // verus!
