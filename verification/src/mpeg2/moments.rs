//! Which field of a picture comes first.
use crate::mpeg2::headers;
use crate::mpeg2::headers::{Picture, PictureCodingExtension};
use vstd::prelude::*;

verus! {

/// The picture is a frame whose lines are all of one moment.
pub open spec fn one_moment(coding: PictureCodingExtension) -> bool {
    coding.picture_structure is Frame && coding.progressive_frame
}

proof fn lemma_order(pictures: Seq<Picture>, from: int, i: int)
    requires
        0 <= from <= i <= pictures.len(),
        forall|k: int| 0 <= k < i ==> one_moment((#[trigger] pictures[k]).coding),
    ensures
        headers::first_field_order(pictures, from) == headers::first_field_order(pictures, i),
    decreases i - from,
{
    if from < i {
        assert(one_moment(pictures[from].coding));
        lemma_order(pictures, from + 1, i);
    }
}

/// The first picture that holds two moments says which field comes first: the field that
/// is coded first, where the two are pictures of their own, and what its extension says,
/// where they are coded together. Frames of one moment say nothing, whatever their
/// extensions hold, and where there are no others the top field comes first.
pub proof fn law_the_first_of_two_moments_says_the_order(pictures: Seq<Picture>, i: int)
    requires
        0 <= i <= pictures.len(),
        forall|k: int| 0 <= k < i ==> one_moment((#[trigger] pictures[k]).coding),
    ensures
        i == pictures.len() ==> headers::first_field_order(pictures, 0),
        i < pictures.len() ==> {
            let coding = pictures[i].coding;
            &&& coding.picture_structure is TopField ==> headers::first_field_order(pictures, 0)
            &&& coding.picture_structure is BottomField ==> !headers::first_field_order(
                pictures,
                0,
            )
            &&& coding.picture_structure is Frame && !coding.progressive_frame ==> (
            headers::first_field_order(pictures, 0) <==> coding.top_field_first)
        },
        forall|k: int|
            0 <= k < i ==> !headers::holds_two_moments((#[trigger] pictures[k]).coding),
{
    lemma_order(pictures, 0, i);
    assert forall|k: int| 0 <= k < i implies !headers::holds_two_moments(
        (#[trigger] pictures[k]).coding,
    ) by {
        assert(one_moment(pictures[k].coding));
    }
}

/// Every picture but a frame of one moment holds two.
pub proof fn law_fields_are_moments(coding: PictureCodingExtension)
    requires
        !(coding.picture_structure is Reserved),
    ensures
        headers::holds_two_moments(coding) <==> !one_moment(coding),
{
}

} // verus!
