//! Padding a tile pool with repeats of randomly chosen tiles.

use vstd::prelude::*;
use crate::error::MosaicError;
use crate::raster::RasterImage;

verus! {

/// Two rasters show the same picture.
pub open spec fn same_image(a: RasterImage, b: RasterImage) -> bool {
    a.width == b.width && a.height == b.height && a.bytes@ == b.bytes@
}

/// `after` is `before` followed by copies of the first `count` tiles of the
/// growing list, in order.
pub open spec fn duplicates_appended(after: Seq<RasterImage>, before: Seq<RasterImage>, count: int) -> bool {
    &&& after.len() == before.len() + count
    &&& forall|k: int| 0 <= k < before.len() ==> #[trigger] after[k] == before[k]
    &&& forall|i: int| 0 <= i < count ==> same_image(#[trigger] after[before.len() + i], after[i])
}

/// Calls `rand::seq::SliceRandom::shuffle` on the tiles with the generator
/// of `rand::thread_rng`. The contract claims only what holds of every
/// outcome: the list holds the same tiles as before, in some order.
#[verifier::external_body]
fn shuffle_tiles(card_images: &mut Vec<RasterImage>)
    ensures
        final(card_images)@.to_multiset() == old(card_images)@.to_multiset(),
{
    rand::seq::SliceRandom::shuffle(card_images.as_mut_slice(), &mut rand::thread_rng());
}

/// Appends copies of the first `num_duplicates` tiles to the list. Copies
/// appended earlier count as tiles, so a short list repeats itself.
pub fn append_duplicates(card_images: &mut Vec<RasterImage>, num_duplicates: u32)
    requires
        num_duplicates > 0 ==> old(card_images)@.len() > 0,
    ensures
        duplicates_appended(final(card_images)@, old(card_images)@, num_duplicates as int),
{
    let ghost before = card_images@;
    let mut i: u32 = 0;
    while i < num_duplicates
        invariant
            i <= num_duplicates,
            num_duplicates > 0 ==> before.len() > 0,
            duplicates_appended(card_images@, before, i as int),
        decreases num_duplicates - i,
    {
        let ghost previous = card_images@;
        let copy = card_images[i as usize].clone();
        card_images.push(copy);
        proof {
            assert forall|k: int| 0 <= k < i + 1 implies same_image(
                #[trigger] card_images@[before.len() + k],
                card_images@[k],
            ) by {
                if k < i {
                    assert(card_images@[before.len() + k] == previous[before.len() + k]);
                    assert(card_images@[k] == previous[k]);
                }
            }
        }
        i = i + 1;
    }
}

/// Shuffles the tiles and appends copies of the first `num_duplicates` of
/// the shuffled list.
pub fn add_duplicates(card_images: &mut Vec<RasterImage>, num_duplicates: u32) -> (r: Result<(), MosaicError>)
    ensures
        match r {
            Ok(_) => {
                &&& num_duplicates > 0 ==> old(card_images)@.len() > 0
                &&& exists|shuffled: Seq<RasterImage>|
                    shuffled.to_multiset() == old(card_images)@.to_multiset() && #[trigger] duplicates_appended(
                        final(card_images)@,
                        shuffled,
                        num_duplicates as int,
                    )
            },
            Err(e) => {
                &&& e == MosaicError::DegenerateInput
                &&& num_duplicates > 0 && old(card_images)@.len() == 0
                &&& final(card_images)@ == old(card_images)@
            },
        },
{
    if num_duplicates > 0 && card_images.len() == 0 {
        return Err(MosaicError::DegenerateInput);
    }
    let ghost before = card_images@;
    shuffle_tiles(card_images);
    let ghost shuffled = card_images@;
    proof {
        before.to_multiset_ensures();
        shuffled.to_multiset_ensures();
    }
    append_duplicates(card_images, num_duplicates);
    assert(duplicates_appended(card_images@, shuffled, num_duplicates as int));
    Ok(())
}

} // verus!
