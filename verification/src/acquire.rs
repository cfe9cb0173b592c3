//! Acquiring tiles: which fetched cards are kept, how a kept image is cut to
//! the tile aspect ratio, and when the pull loop fetches again or stops.

use vstd::prelude::*;
use crate::error::MosaicError;
use crate::raster::RasterImage;
use crate::ratio::{
    lemma_mul_u32,
    lemma_round_div_exact,
    lemma_round_div_monotonic,
    round_div,
    rounded_quotient,
    AspectRatio,
};
use crate::resample::{fill_triangle, is_center_crop};

verus! {

/// The layout whose cards are kept.
pub open spec fn normal_layout() -> Seq<u8> {
    seq![110u8, 111u8, 114u8, 109u8, 97u8, 108u8]
}

/// Tests whether a card's layout, given as the bytes of its name, is the
/// one kept: `normal`.
pub fn accepts_layout(layout: &[u8]) -> (ok: bool)
    ensures
        ok == (layout@ == normal_layout()),
{
    let ok: bool = layout.len() == 6 && layout[0] == 110 && layout[1] == 111 && layout[2] == 114 && layout[3]
        == 109 && layout[4] == 97 && layout[5] == 108;
    proof {
        if ok {
            assert(layout@ =~= normal_layout());
        }
    }
    ok
}

/// The size to which an image is cut so that it has the aspect ratio: the
/// full width with the height reduced if the ratio is wider than the image,
/// else the full height with the width reduced.
pub open spec fn crop_size(width: int, height: int, aspect: AspectRatio) -> (int, int) {
    if aspect.width * height > width * aspect.height {
        (width, round_div(width * aspect.height, aspect.width as int))
    } else {
        (round_div(aspect.width * height, aspect.height as int), height)
    }
}

/// Computes `crop_size`; neither side exceeds the image's.
pub fn crop_dimensions(width: u32, height: u32, desired_aspect: AspectRatio) -> (size: (u32, u32))
    requires
        desired_aspect.valid(),
    ensures
        (size.0 as int, size.1 as int) == crop_size(width as int, height as int, desired_aspect),
        (size.0 == width && size.1 <= height) || (size.1 == height && size.0 <= width),
{
    proof {
        lemma_mul_u32(desired_aspect.width, height);
        lemma_mul_u32(width, desired_aspect.height);
    }
    let wide: u64 = desired_aspect.width as u64 * height as u64;
    let tall: u64 = width as u64 * desired_aspect.height as u64;
    if wide > tall {
        proof {
            assert(height as int * desired_aspect.width as int == desired_aspect.width as int * height as int)
                by (nonlinear_arith);
            lemma_round_div_monotonic(tall as int, wide as int, desired_aspect.width as int);
            lemma_round_div_exact(height as int, desired_aspect.width as int);
        }
        let new_height: u128 = rounded_quotient(tall as u128, desired_aspect.width as u128);
        (width, new_height as u32)
    } else {
        proof {
            assert(width as int * desired_aspect.height as int == tall as int);
            lemma_round_div_monotonic(wide as int, tall as int, desired_aspect.height as int);
            lemma_round_div_exact(width as int, desired_aspect.height as int);
        }
        let new_width: u128 = rounded_quotient(wide as u128, desired_aspect.height as u128);
        (new_width as u32, height)
    }
}

/// Cuts an image to the aspect ratio, keeping its middle.
pub fn crop_card(card_image: &RasterImage, desired_aspect: AspectRatio) -> (r: Result<RasterImage, MosaicError>)
    requires
        card_image.wf(),
    ensures
        match r {
            Ok(out) => {
                &&& desired_aspect.valid() && card_image.width > 0 && card_image.height > 0
                &&& is_center_crop(
                    out,
                    *card_image,
                    crop_size(card_image.width as int, card_image.height as int, desired_aspect).0 as u32,
                    crop_size(card_image.width as int, card_image.height as int, desired_aspect).1 as u32,
                )
            },
            Err(e) => e == MosaicError::DegenerateInput && (!desired_aspect.valid() || card_image.width == 0
                || card_image.height == 0),
        },
{
    if !desired_aspect.is_valid() || card_image.width == 0 || card_image.height == 0 {
        return Err(MosaicError::DegenerateInput);
    }
    let size: (u32, u32) = crop_dimensions(card_image.width, card_image.height, desired_aspect);
    Ok(fill_triangle(card_image, size.0, size.1))
}

/// How long the pull loop keeps trying.
#[derive(Clone, Copy, Debug, PartialEq, Eq, Structural)]
pub struct RetryPolicy {
    /// Failures in a row after which the loop gives up; `None` never gives
    /// up.
    pub max_failures: Option<u32>,
}

/// Where the pull loop stands.
#[derive(Clone, Copy, Debug, PartialEq, Eq, Structural)]
pub struct PullState {
    /// Tiles saved so far.
    pub saved: u32,
    /// Tiles asked for.
    pub wanted: u32,
    /// Fetches that failed since the last tile was saved.
    pub failures: u32,
}

/// What came of one fetch.
#[derive(Clone, Copy, Debug, PartialEq, Eq, Structural)]
pub enum FetchEvent {
    /// A card with an accepted layout arrived and was saved.
    Saved,
    /// The fetch failed, or the card's layout was not accepted.
    Failed,
}

/// What the pull loop does next.
#[derive(Clone, Copy, Debug, PartialEq, Eq, Structural)]
pub enum PullAction {
    /// Fetch another card.
    Fetch,
    /// Every tile asked for is saved.
    Done,
    /// Too many fetches failed in a row.
    GiveUp,
}

/// The state after a fetch: a saved tile counts and clears the failures, a
/// failure counts towards giving up.
pub open spec fn state_after(state: PullState, event: FetchEvent) -> PullState {
    match event {
        FetchEvent::Saved => PullState {
            saved: if state.saved < u32::MAX {
                (state.saved + 1) as u32
            } else {
                state.saved
            },
            wanted: state.wanted,
            failures: 0,
        },
        FetchEvent::Failed => PullState {
            saved: state.saved,
            wanted: state.wanted,
            failures: if state.failures < u32::MAX {
                (state.failures + 1) as u32
            } else {
                state.failures
            },
        },
    }
}

/// What to do in a state: stop when enough is saved, give up when the
/// failures in a row have reached the policy's limit, else fetch.
pub open spec fn action_in(state: PullState, policy: RetryPolicy) -> PullAction {
    if state.saved >= state.wanted {
        PullAction::Done
    } else if policy.max_failures is Some && state.failures >= policy.max_failures->Some_0 {
        PullAction::GiveUp
    } else {
        PullAction::Fetch
    }
}

/// The state in which a pull of `wanted` tiles starts.
pub fn pull_start(wanted: u32) -> (state: PullState)
    ensures
        state == (PullState { saved: 0, wanted, failures: 0 }),
{
    PullState { saved: 0, wanted, failures: 0 }
}

/// What the pull loop does in a state.
pub fn pull_action(state: PullState, policy: RetryPolicy) -> (action: PullAction)
    ensures
        action == action_in(state, policy),
{
    if state.saved >= state.wanted {
        PullAction::Done
    } else {
        match policy.max_failures {
            Some(limit) => {
                if state.failures >= limit {
                    PullAction::GiveUp
                } else {
                    PullAction::Fetch
                }
            },
            None => PullAction::Fetch,
        }
    }
}

/// One step of the pull loop: takes in what came of the last fetch and says
/// what to do next.
pub fn pull_step(state: PullState, event: FetchEvent, policy: RetryPolicy) -> (next: (PullState, PullAction))
    ensures
        next.0 == state_after(state, event),
        next.1 == action_in(state_after(state, event), policy),
{
    let after: PullState = match event {
        FetchEvent::Saved => PullState {
            saved: if state.saved < u32::MAX {
                state.saved + 1
            } else {
                state.saved
            },
            wanted: state.wanted,
            failures: 0,
        },
        FetchEvent::Failed => PullState {
            saved: state.saved,
            wanted: state.wanted,
            failures: if state.failures < u32::MAX {
                state.failures + 1
            } else {
                state.failures
            },
        },
    };
    (after, pull_action(after, policy))
}

} // verus!
