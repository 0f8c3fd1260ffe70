//! What is made of the pieces of a unit, and of those that are damaged.
use crate::h264::bitwriter;
use crate::h264::nal;
use crate::h264::params;
use crate::h264::params::FrameGeometry;
use crate::h264::reading;
use crate::h264::slice;
use crate::job::{PictureOutput, StateView};
use crate::mpeg2::headers::SequenceDescription;
use crate::mpeg2::macroblock::MacroblockView;
use crate::transcode::incremental;
use crate::transcode::plan;
use crate::transcode::plan::{JobView, PartView, UnitRequest};
use crate::transcode::residual;
use crate::transcode::syntax;
use vstd::prelude::*;

verus! {

/// The parts of a unit come out one behind the other: a part that was written in advance as
/// it is, and one that stands for a picture as what its job was coded as.
pub proof fn law_parts_are_joined_in_order(
    a: Seq<PartView>,
    b: Seq<PartView>,
    coded: Seq<Seq<u8>>,
    bytes: Seq<u8>,
    index: int,
)
    ensures
        plan::assembled(a + b, coded) == plan::assembled(a, coded) + plan::assembled(b, coded),
        plan::assembled(seq![PartView::Literal(bytes)], coded) == bytes,
        plan::assembled(seq![PartView::Picture(index)], coded) == coded[index],
    decreases b.len(),
{
    if b.len() == 0 {
        assert(a + b =~= a);
        assert(plan::assembled(a, coded) + plan::assembled(b, coded) =~= plan::assembled(a, coded));
    } else {
        law_parts_are_joined_in_order(a, b.drop_last(), coded, bytes, index);
        assert((a + b).drop_last() =~= a + b.drop_last());
        assert((a + b).last() == b.last());
        assert(plan::assembled(a + b, coded) =~= plan::assembled(a, coded) + plan::assembled(
            b,
            coded,
        ));
    }
    let one = seq![PartView::Literal(bytes)];
    let other = seq![PartView::Picture(index)];
    assert(one.drop_last() =~= Seq::<PartView>::empty());
    assert(other.drop_last() =~= Seq::<PartView>::empty());
    assert(plan::assembled(Seq::<PartView>::empty(), coded) =~= Seq::<u8>::empty());
    assert(plan::assembled(one, coded) =~= bytes);
    assert(plan::assembled(other, coded) =~= coded[index]);
}

/// Whether picture `i` is named as one that cannot be decoded.
pub open spec fn is_named(undecodable: Seq<bool>, i: int) -> bool {
    0 <= i < undecodable.len() && undecodable[i]
}

/// Naming a picture names it and no other.
pub proof fn law_one_picture_is_named(undecodable: Seq<bool>, index: int, i: int)
    requires
        0 <= index,
    ensures
        is_named(incremental::marked(undecodable, index), i) <==> i == index || is_named(
            undecodable,
            i,
        ),
{
}

/// A job is of picture `i`: of its first field or of its second.
pub open spec fn is_of(job: JobView, i: int) -> bool {
    job.source == i || job.mate == Some(i)
}

/// The pictures that are named behind a unit are those that were, and both fields of every
/// job that could not be decoded.
pub proof fn law_damaged_pictures_are_named(
    undecodable: Seq<bool>,
    jobs: Seq<JobView>,
    outputs: Seq<PictureOutput>,
    count: nat,
    i: int,
)
    requires
        count <= outputs.len() <= jobs.len(),
        forall|k: int|
            0 <= k < jobs.len() ==> (#[trigger] jobs[k]).source >= 0 && (jobs[k].mate matches Some(
                m,
            ) ==> m >= 0),
    ensures
        is_named(incremental::damage_named(undecodable, jobs, outputs, count), i) <==> is_named(
            undecodable,
            i,
        ) || exists|k: int| 0 <= k < count && !outputs[k].decoded && is_of(#[trigger] jobs[k], i),
    decreases count,
{
    if count > 0 {
        let n = (count - 1) as nat;
        law_damaged_pictures_are_named(undecodable, jobs, outputs, n, i);
        let before = incremental::damage_named(undecodable, jobs, outputs, n);
        let job = jobs[count - 1];
        if !outputs[count - 1].decoded {
            law_one_picture_is_named(before, job.source, i);
            if job.mate is Some {
                law_one_picture_is_named(
                    incremental::marked(before, job.source),
                    job.mate->Some_0,
                    i,
                );
            }
        }
        if is_named(before, i) && !is_named(undecodable, i) {
            let k = choose|k: int|
                0 <= k < n && !outputs[k].decoded && is_of(#[trigger] jobs[k], i);
            assert(0 <= k < count && !outputs[k].decoded && is_of(jobs[k], i));
        }
        if !outputs[count - 1].decoded && is_of(job, i) {
            assert(is_of(jobs[count - 1], i));
        }
    }
}

/// What the damage of a unit adds to the errors is what its damaged pictures counted, each of
/// them once, and nothing of the others.
pub proof fn law_damage_is_counted(
    a: Seq<PictureOutput>,
    b: Seq<PictureOutput>,
    one: PictureOutput,
)
    ensures
        incremental::damage_errors(a + b, (a + b).len()) == incremental::damage_errors(a, a.len())
            + incremental::damage_errors(b, b.len()),
        incremental::damage_errors(seq![one], 1) == if one.decoded {
            0
        } else {
            one.stats.errors as int
        },
{
    lemma_damage(a, b, b.len());
    reveal_with_fuel(incremental::damage_errors, 2);
    assert(seq![one][0] == one);
}

proof fn lemma_damage_front(a: Seq<PictureOutput>, b: Seq<PictureOutput>, n: nat)
    requires
        n <= a.len(),
    ensures
        incremental::damage_errors(a + b, n) == incremental::damage_errors(a, n),
    decreases n,
{
    if n > 0 {
        lemma_damage_front(a, b, (n - 1) as nat);
        assert((a + b)[n - 1] == a[n - 1]);
    }
}

proof fn lemma_damage(a: Seq<PictureOutput>, b: Seq<PictureOutput>, n: nat)
    requires
        n <= b.len(),
    ensures
        incremental::damage_errors(a + b, a.len() + n) == incremental::damage_errors(a, a.len())
            + incremental::damage_errors(b, n),
    decreases n,
{
    if n == 0 {
        lemma_damage_front(a, b, a.len());
    } else {
        lemma_damage(a, b, (n - 1) as nat);
        assert((a + b)[a.len() + n - 1] == b[n - 1]);
    }
}

/// The copy of an IDR picture is coded as one run that skips every macroblock of the frame.
pub proof fn law_copies_skip_every_macroblock(
    g: FrameGeometry,
    mbaff: bool,
    mark_random_access_point: bool,
)
    ensures
        ({
            let unit = syntax::clone_unit(g, mbaff, mark_random_access_point);
            let header = slice::header_bits(syntax::clone_header(mbaff, mark_random_access_point));
            exists|bits: Seq<bool>|
                {
                    &&& nal::unescaped(unit.skip(5), 0) == #[trigger] params::closed_rbsp(bits)
                    &&& header.len() <= bits.len()
                    &&& bits.take(header.len() as int) == header
                    &&& reading::read_ue(bits.skip(header.len() as int)) == (
                        g.mb_width * g.mb_height,
                        bits.len() - header.len(),
                    )
                }
        }),
{
    let unit = syntax::clone_unit(g, mbaff, mark_random_access_point);
    let header = slice::header_bits(syntax::clone_header(mbaff, mark_random_access_point));
    let run = bitwriter::ue_code((g.mb_width * g.mb_height) as nat);
    let bits = header + run;
    let rbsp = params::closed_rbsp(bits);
    nal::law_unescape_inverts_escape(rbsp, 0);
    assert(unit.skip(5) =~= nal::escaped(rbsp, 0));
    assert(bits.take(header.len() as int) =~= header);
    reading::law_unsigned_codes_read_back((g.mb_width * g.mb_height) as nat, Seq::<bool>::empty());
    assert(run + Seq::<bool>::empty() =~= run);
    assert(bits.skip(header.len() as int) =~= run);
    assert(g.mb_width * g.mb_height >= 0) by (nonlinear_arith)
        requires
            g.mb_width >= 0,
            g.mb_height >= 0,
    ;
}

/// A block of a field pair is to be coded where a block of the source reaches it: the one in
/// its own place, where the source was transformed by fields, and either of the two in its
/// column, whose lines lie in both fields, where it was not. Only the latter need converting.
pub proof fn law_blocks_reach_their_fields(m: MacroblockView, k: int)
    requires
        0 <= k < 4,
        m.blocks.len() == 6,
    ensures
        ({
            let set = residual::field_targets(Some(m));
            &&& set.active[k] <==> !m.skipped && exists|b: int|
                0 <= b < 4 && b % 2 == k % 2 && (m.dct_type == 1 ==> b == k) && (
                #[trigger] m.blocks[b]) is Some
            &&& set.converted <==> !m.skipped && m.dct_type != 1
        }),
{
    let set = residual::field_targets(Some(m));
    assert(k == 0 || k == 1 || k == 2 || k == 3);
    if !m.skipped {
        if m.dct_type == 1 {
            if set.active[k] {
                assert(m.blocks[k] is Some);
            }
        } else {
            let u = k % 2;
            assert(u % 2 == k % 2 && (u + 2) % 2 == k % 2);
            assert(set.active[k] <==> m.blocks[u] is Some || m.blocks[u + 2] is Some);
        }
        if exists|b: int|
            0 <= b < 4 && b % 2 == k % 2 && (m.dct_type == 1 ==> b == k) && (
            #[trigger] m.blocks[b]) is Some {
            let b = choose|b: int|
                0 <= b < 4 && b % 2 == k % 2 && (m.dct_type == 1 ==> b == k) && (
                #[trigger] m.blocks[b]) is Some;
            assert(b == 0 || b == 1 || b == 2 || b == 3);
        }
    }
}

/// A stream is described anew where that is asked for, at its start, and wherever its
/// description changes; and nowhere else.
pub proof fn law_changes_are_described(
    description: SequenceDescription,
    start: StateView,
    request: UnitRequest,
)
    ensures
        request.description ==> plan::redescribes(description, start, request),
        !start.initialized ==> plan::redescribes(description, start, request),
        description != start.description ==> plan::redescribes(description, start, request),
        !request.description && start.initialized && description == start.description
            ==> !plan::redescribes(description, start, request),
{
}

} // verus!
