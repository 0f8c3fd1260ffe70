//! How the samples of a unit lie in its bytes.
use crate::container::fmp4::timeline;
use crate::container::fmp4::timeline::{UnitView, WalkState};
use crate::mpeg2::headers;
use crate::mpeg2::headers::PictureView;
use vstd::prelude::*;

verus! {

/// Each sample lies in the `len` bytes and behind those before it, is cut where it holds
/// a pair of fields, and the first is one that a decoder can begin at unless there are
/// references.
pub open spec fn in_order(unit: UnitView, len: int, has_references: bool) -> bool {
    let samples = unit.samples;
    let pairs = unit.timeline.field_pairs;
    &&& samples.len() == unit.timeline.presentation_indices.len()
    &&& samples.len() == pairs.len()
    &&& forall|i: int|
        0 <= i < samples.len() ==> (#[trigger] samples[i]).start <= samples[i].end <= len
    &&& forall|i: int, j: int|
        0 <= i < j < samples.len() ==> (#[trigger] samples[i]).end <= (
        #[trigger] samples[j]).start
    &&& forall|i: int|
        0 <= i < samples.len() ==> ((#[trigger] samples[i]).field_end is Some <==> pairs[i])
    &&& forall|i: int|
        0 <= i < samples.len() ==> ((#[trigger] samples[i]).field_end matches Some(cut)
            ==> samples[i].start <= cut <= samples[i].end)
    &&& !has_references && samples.len() > 0 ==> samples[0].sync
}

/// What a walk has kept lies in order, and the bytes of the next frame follow it.
spec fn kept_in_order(walk: WalkState, len: int, has_references: bool) -> bool {
    let kept = walk.kept;
    &&& forall|i: int|
        0 <= i < kept.len() ==> (#[trigger] kept[i]).sample.start <= kept[i].sample.end
            <= walk.start
    &&& forall|i: int, j: int|
        0 <= i < j < kept.len() ==> (#[trigger] kept[i]).sample.end <= (
        #[trigger] kept[j]).sample.start
    &&& forall|i: int|
        0 <= i < kept.len() ==> ((#[trigger] kept[i]).sample.field_end is Some <==> kept[i].pair)
    &&& forall|i: int|
        0 <= i < kept.len() ==> ((#[trigger] kept[i]).sample.field_end matches Some(cut)
            ==> kept[i].sample.start <= cut <= kept[i].sample.end)
    &&& !has_references && kept.len() > 0 ==> kept[0].sample.sync
    &&& !has_references && kept.len() == 0 ==> walk.awaiting_intra
    &&& walk.start <= len
}

/// One frame keeps what is kept in order.
proof fn lemma_step(
    pictures: Seq<PictureView>,
    undecodable: Seq<bool>,
    i: int,
    walk: WalkState,
    len: int,
    has_references: bool,
)
    requires
        headers::laid_out(pictures, len),
        8 * len <= usize::MAX,
        0 <= i < pictures.len(),
        timeline::follows(pictures, len, walk.start, i),
        kept_in_order(walk, len, has_references),
    ensures
        ({
            let after = timeline::walk_step(pictures, undecodable, i, walk);
            &&& kept_in_order(after, len, has_references)
            &&& timeline::follows(
                pictures,
                len,
                after.start,
                timeline::next_frame(pictures, i),
            )
        }),
{
    reveal(timeline::walk_step);
    reveal(timeline::slot_step);
    timeline::lemma_frames_follow(pictures, len, walk.start, i);
    let after = timeline::walk_step(pictures, undecodable, i, walk);
    assert(walk.start <= timeline::end_of(pictures[i], walk.start) <= len);
    if after.kept.len() > walk.kept.len() {
        let n = walk.kept.len() as int;
        let state = timeline::slot_step(pictures, i, walk);
        assert(timeline::keeps(pictures, undecodable, i, state));
        assert(state.kept == walk.kept);
        assert(forall|k: int| 0 <= k < n ==> #[trigger] after.kept[k] == walk.kept[k]);
        assert(after.kept[n].sample.end == after.start);
        assert(after.kept[n].sample.start == walk.start);
    } else {
        assert(after.kept == walk.kept);
    }
}

/// What is kept stays in order from any frame on.
proof fn lemma_walked(
    pictures: Seq<PictureView>,
    undecodable: Seq<bool>,
    i: int,
    walk: WalkState,
    len: int,
    has_references: bool,
)
    requires
        headers::laid_out(pictures, len),
        8 * len <= usize::MAX,
        0 <= i,
        timeline::follows(pictures, len, walk.start, i),
        kept_in_order(walk, len, has_references),
    ensures
        kept_in_order(
            timeline::walked(pictures, undecodable, i, walk),
            len,
            has_references,
        ),
    decreases pictures.len() - i,
{
    if i < pictures.len() {
        lemma_step(pictures, undecodable, i, walk, len, has_references);
        lemma_walked(
            pictures,
            undecodable,
            timeline::next_frame(pictures, i),
            timeline::walk_step(pictures, undecodable, i, walk),
            len,
            has_references,
        );
    }
}

/// The samples of a unit, one for each picture of its timeline, lie in its bytes one
/// behind the other. Each is cut exactly where it holds a pair of fields, inside its
/// bytes; and in a unit that has no references behind it, a decoder can begin at the
/// first.
pub proof fn law_samples_lie_in_order(
    data: Seq<u8>,
    has_references: bool,
    undecodable: Seq<bool>,
)
    requires
        8 * data.len() <= usize::MAX,
        timeline::unit_of(data, has_references, undecodable) is Ok,
    ensures
        in_order(
            timeline::unit_of(data, has_references, undecodable)->Ok_0,
            data.len() as int,
            has_references,
        ),
{
    headers::law_parse_lays_out_in_order(data);
    let pictures = headers::parsed(data)->Ok_0;
    let len = data.len() as int;
    let start = timeline::walk_start(has_references);
    timeline::lemma_starts_increase(pictures, len, 0);
    lemma_walked(pictures, undecodable, 0, start, len, has_references);
    let walk = timeline::walked(pictures, undecodable, 0, start);
    let unit = timeline::unit_of(data, has_references, undecodable)->Ok_0;
    assert(forall|k: int|
        0 <= k < walk.kept.len() ==> #[trigger] unit.samples[k] == walk.kept[k].sample);
    assert(forall|k: int|
        0 <= k < walk.kept.len() ==> #[trigger] unit.timeline.field_pairs[k]
            == walk.kept[k].pair);
    assert forall|i: int, j: int| 0 <= i < j < unit.samples.len() implies (
    #[trigger] unit.samples[i]).end <= (#[trigger] unit.samples[j]).start by {
        assert(walk.kept[i].sample.end <= walk.kept[j].sample.start);
    }
}

} // verus!
