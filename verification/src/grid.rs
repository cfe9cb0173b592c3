//! Grid sizing: how many tiles wide and tall a mosaic is, derived from the
//! tile aspect ratio and the base image, either for a fixed column count or
//! for a minimum number of cells.

use vstd::prelude::*;
use crate::error::MosaicError;
use crate::ratio::{lemma_mul_u32, round_div, rounded_quotient, AspectRatio};

verus! {

/// A grid of cells, each bound to a tile index. `grid` is row-major.
#[derive(Debug)]
pub struct CardGrid {
    pub grid: Vec<u32>,
    pub cards_wide: u32,
    pub cards_tall: u32,
}

impl CardGrid {
    /// Number of cells.
    pub open spec fn cell_count(&self) -> int {
        self.cards_wide as int * self.cards_tall as int
    }

    /// The assignment array has one entry per cell.
    pub open spec fn wf(&self) -> bool {
        self.grid@.len() == self.cell_count()
    }

    /// Well formed, with every cell still bound to tile 0.
    pub open spec fn blank(&self) -> bool {
        self.wf() && forall|i: int| 0 <= i < self.grid@.len() ==> self.grid@[i] == 0
    }

    /// Every cell is bound to one of `tile_count` tiles.
    pub open spec fn assigned(&self, tile_count: int) -> bool {
        self.wf() && forall|i: int| 0 <= i < self.grid@.len() ==> self.grid@[i] < tile_count
    }
}

/// Rows of a grid `cards_wide` tiles across an image: the image height over
/// the height of one tile, rounded to the nearest integer.
pub open spec fn rows_for(cards_wide: int, aspect: AspectRatio, image_width: int, image_height: int) -> int {
    round_div(image_height * cards_wide * aspect.width, image_width * aspect.height)
}

/// Columns of a grid `cards_tall` tiles down an image: the image width over
/// the width of one tile, rounded to the nearest integer.
pub open spec fn columns_for(cards_tall: int, aspect: AspectRatio, image_width: int, image_height: int) -> int {
    round_div(image_width * cards_tall * aspect.height, image_height * aspect.width)
}

/// Largest search parameter for which the dimension formulas are evaluated.
pub open spec fn search_limit() -> int {
    0xffff_fffe_0000_0001
}

/// The inputs common to both sizing modes describe a real image and ratio.
pub open spec fn image_inputs_valid(aspect: AspectRatio, image_width: u32, image_height: u32) -> bool {
    aspect.valid() && image_width > 0 && image_height > 0
}

/// What fixed-width sizing yields: the grid's shape or the reason it has none.
pub open spec fn grid_shape(cards_wide: u32, aspect: AspectRatio, image_width: u32, image_height: u32) -> Result<(int, int), MosaicError> {
    let rows = rows_for(cards_wide as int, aspect, image_width as int, image_height as int);
    if cards_wide == 0 || !image_inputs_valid(aspect, image_width, image_height) || rows == 0 {
        Err(MosaicError::DegenerateInput)
    } else if cards_wide * rows > u32::MAX {
        Err(MosaicError::TooLarge)
    } else {
        Ok((cards_wide as int, rows))
    }
}

/// One of the two grids tried at a search step: the step taken as the height
/// (`step_is_width` false) or as the width (`step_is_width` true), the other
/// side following from the aspect ratio.
pub open spec fn candidate(step: int, step_is_width: bool, aspect: AspectRatio, image_width: int, image_height: int) -> (int, int) {
    if step_is_width {
        (step, rows_for(step, aspect, image_width, image_height))
    } else {
        (columns_for(step, aspect, image_width, image_height), step)
    }
}

/// Cells in a grid of the given shape.
pub open spec fn area(shape: (int, int)) -> int {
    shape.0 * shape.1
}

/// The smaller of the step's two candidates that hold at least `n` cells, the
/// height-first one on a tie, or `None` when neither does.
pub open spec fn fit_choice(n: int, step: int, aspect: AspectRatio, image_width: int, image_height: int) -> Option<(int, int)> {
    let by_height = candidate(step, false, aspect, image_width, image_height);
    let by_width = candidate(step, true, aspect, image_width, image_height);
    if area(by_height) >= n && (area(by_width) < n || area(by_height) <= area(by_width)) {
        Some(by_height)
    } else if area(by_width) >= n {
        Some(by_width)
    } else {
        None
    }
}

/// `step` is the first search step at which a candidate holds `n` cells.
pub open spec fn first_fit(n: int, step: int, aspect: AspectRatio, image_width: int, image_height: int) -> bool {
    &&& 1 <= step <= image_width * image_height
    &&& fit_choice(n, step, aspect, image_width, image_height) is Some
    &&& forall|k: int| 1 <= k < step ==> fit_choice(n, k, aspect, image_width, image_height) is None
}

/// No candidate at any step up to `step` holds `n` cells in fewer than
/// `cells` cells.
pub open spec fn smallest_fit_through(n: int, step: int, cells: int, aspect: AspectRatio, image_width: int, image_height: int) -> bool {
    forall|k: int, step_is_width: bool|
        1 <= k <= step && n <= #[trigger] area(candidate(k, step_is_width, aspect, image_width, image_height))
            ==> cells <= area(candidate(k, step_is_width, aspect, image_width, image_height))
}

/// Rows for a grid `cards_wide` across, exactly, whatever its size.
pub fn rows_exact(cards_wide: u64, card_aspect: AspectRatio, image_width: u32, image_height: u32) -> (rows: u128)
    requires
        image_width > 0,
        card_aspect.height > 0,
        cards_wide <= search_limit(),
    ensures
        rows == rows_for(cards_wide as int, card_aspect, image_width as int, image_height as int),
{
    proof {
        lemma_mul_u32(image_height, card_aspect.width);
        lemma_mul_u32(image_width, card_aspect.height);
        let p = image_height as int * card_aspect.width as int;
        let c = cards_wide as int;
        assert(0 <= p * c <= 0xffff_fffe_0000_0001 * 0xffff_fffe_0000_0001) by (nonlinear_arith)
            requires
                0 <= p <= 0xffff_fffe_0000_0001,
                0 <= c <= 0xffff_fffe_0000_0001,
        ;
        assert(image_height as int * cards_wide as int * card_aspect.width as int == p * c)
            by (nonlinear_arith)
            requires
                p == image_height as int * card_aspect.width as int,
                c == cards_wide as int,
        ;
        assert(image_width as int * card_aspect.height as int > 0) by (nonlinear_arith)
            requires
                image_width > 0,
                card_aspect.height > 0,
        ;
    }
    let numerator: u128 = (image_height as u128 * card_aspect.width as u128) * cards_wide as u128;
    let denominator: u128 = image_width as u128 * card_aspect.height as u128;
    rounded_quotient(numerator, denominator)
}

/// Columns for a grid `cards_tall` down, exactly, whatever its size.
pub fn columns_exact(cards_tall: u64, card_aspect: AspectRatio, image_width: u32, image_height: u32) -> (columns: u128)
    requires
        image_height > 0,
        card_aspect.width > 0,
        cards_tall <= search_limit(),
    ensures
        columns == columns_for(cards_tall as int, card_aspect, image_width as int, image_height as int),
{
    proof {
        lemma_mul_u32(image_width, card_aspect.height);
        lemma_mul_u32(image_height, card_aspect.width);
        let p = image_width as int * card_aspect.height as int;
        let c = cards_tall as int;
        assert(0 <= p * c <= 0xffff_fffe_0000_0001 * 0xffff_fffe_0000_0001) by (nonlinear_arith)
            requires
                0 <= p <= 0xffff_fffe_0000_0001,
                0 <= c <= 0xffff_fffe_0000_0001,
        ;
        assert(image_width as int * cards_tall as int * card_aspect.height as int == p * c)
            by (nonlinear_arith)
            requires
                p == image_width as int * card_aspect.height as int,
                c == cards_tall as int,
        ;
        assert(image_height as int * card_aspect.width as int > 0) by (nonlinear_arith)
            requires
                image_height > 0,
                card_aspect.width > 0,
        ;
    }
    let numerator: u128 = (image_width as u128 * card_aspect.height as u128) * cards_tall as u128;
    let denominator: u128 = image_height as u128 * card_aspect.width as u128;
    rounded_quotient(numerator, denominator)
}

/// Rows of a grid `cards_wide` tiles across, or `None` when the count does
/// not fit in 32 bits.
pub fn cards_tall(cards_wide: u32, card_aspect: AspectRatio, image_width: u32, image_height: u32) -> (rows: Option<u32>)
    requires
        image_width > 0,
        card_aspect.height > 0,
    ensures
        match rows {
            Some(r) => r == rows_for(cards_wide as int, card_aspect, image_width as int, image_height as int),
            None => rows_for(cards_wide as int, card_aspect, image_width as int, image_height as int) > u32::MAX,
        },
{
    let exact: u128 = rows_exact(cards_wide as u64, card_aspect, image_width, image_height);
    if exact <= u32::MAX as u128 {
        Some(exact as u32)
    } else {
        None
    }
}

/// Columns of a grid `cards_tall` tiles down, or `None` when the count does
/// not fit in 32 bits.
pub fn cards_wide(cards_tall: u32, card_aspect: AspectRatio, image_width: u32, image_height: u32) -> (columns: Option<u32>)
    requires
        image_height > 0,
        card_aspect.width > 0,
    ensures
        match columns {
            Some(c) => c == columns_for(cards_tall as int, card_aspect, image_width as int, image_height as int),
            None => columns_for(cards_tall as int, card_aspect, image_width as int, image_height as int) > u32::MAX,
        },
{
    let exact: u128 = columns_exact(cards_tall as u64, card_aspect, image_width, image_height);
    if exact <= u32::MAX as u128 {
        Some(exact as u32)
    } else {
        None
    }
}

/// A grid of the given shape with every cell bound to tile 0.
fn blank_grid(cards_wide: u32, cards_tall: u32) -> (grid: CardGrid)
    requires
        cards_wide as int * cards_tall as int <= u32::MAX,
    ensures
        grid.blank(),
        grid.cards_wide == cards_wide,
        grid.cards_tall == cards_tall,
{
    let cells: usize = (cards_wide as u64 * cards_tall as u64) as usize;
    let mut grid: Vec<u32> = Vec::new();
    let mut i: usize = 0;
    while i < cells
        invariant
            i <= cells,
            grid@.len() == i,
            forall|k: int| 0 <= k < i ==> grid@[k] == 0,
        decreases cells - i,
    {
        grid.push(0u32);
        i = i + 1;
    }
    CardGrid { grid, cards_wide, cards_tall }
}

/// Fixed-width sizing: a blank grid `cards_wide` tiles across whose row count
/// follows from the tile aspect ratio and the image's dimensions.
pub fn create_grid(cards_wide: u32, card_aspect: AspectRatio, image_width: u32, image_height: u32) -> (r: Result<CardGrid, MosaicError>)
    ensures
        match r {
            Ok(g) => g.blank() && grid_shape(cards_wide, card_aspect, image_width, image_height)
                == Ok::<(int, int), MosaicError>((g.cards_wide as int, g.cards_tall as int)),
            Err(e) => grid_shape(cards_wide, card_aspect, image_width, image_height) == Err::<
                (int, int),
                MosaicError,
            >(e),
        },
{
    if cards_wide == 0 || !card_aspect.is_valid() || image_width == 0 || image_height == 0 {
        return Err(MosaicError::DegenerateInput);
    }
    let rows: u128 = rows_exact(cards_wide as u64, card_aspect, image_width, image_height);
    if rows == 0 {
        return Err(MosaicError::DegenerateInput);
    }
    if rows > u32::MAX as u128 {
        assert(cards_wide as int * rows as int > u32::MAX) by (nonlinear_arith)
            requires
                cards_wide >= 1,
                rows > u32::MAX,
        ;
        return Err(MosaicError::TooLarge);
    }
    proof {
        lemma_mul_u32(cards_wide, rows as u32);
    }
    if cards_wide as u64 * rows as u64 > u32::MAX as u64 {
        return Err(MosaicError::TooLarge);
    }
    Ok(blank_grid(cards_wide, rows as u32))
}

/// `a * b >= n`, computed without overflow for a 64-bit `b`.
fn product_reaches(a: u128, b: u64, n: u32) -> (reached: bool)
    requires
        b >= 1,
    ensures
        reached == (a as int * b as int >= n),
{
    if a > u32::MAX as u128 {
        assert(a as int * b as int >= a as int) by (nonlinear_arith)
            requires
                b >= 1,
                a >= 0,
        ;
        true
    } else {
        assert(0 <= a as int * b as int <= 0xffff_ffff * 0xffff_ffff_ffff_ffff) by (nonlinear_arith)
            requires
                0 <= a <= 0xffff_ffff,
                0 <= b <= 0xffff_ffff_ffff_ffff,
        ;
        a * b as u128 >= n as u128
    }
}

/// Builds the blank grid of an exact shape, or reports that it has too many
/// cells to index.
fn grid_of_shape(columns: u128, rows: u128) -> (r: Result<CardGrid, MosaicError>)
    requires
        columns >= 1,
        rows >= 1,
    ensures
        match r {
            Ok(g) => g.blank() && g.cards_wide == columns && g.cards_tall == rows && columns * rows
                <= u32::MAX,
            Err(e) => e == MosaicError::TooLarge && columns * rows > u32::MAX,
        },
{
    if columns > u32::MAX as u128 || rows > u32::MAX as u128 {
        assert(columns * rows > u32::MAX) by (nonlinear_arith)
            requires
                columns >= 1,
                rows >= 1,
                columns > u32::MAX || rows > u32::MAX,
        ;
        return Err(MosaicError::TooLarge);
    }
    proof {
        lemma_mul_u32(columns as u32, rows as u32);
    }
    if columns as u64 * rows as u64 > u32::MAX as u64 {
        return Err(MosaicError::TooLarge);
    }
    Ok(blank_grid(columns as u32, rows as u32))
}

/// Fit-N sizing: the smallest grid consistent with the aspect ratio that
/// holds at least `n` cells. The search tries step 1, 2, 3, ... up to the
/// image's pixel count; each step offers two grids, the step as height and
/// the step as width, and the search stops at the first step where one of
/// them has `n` cells or more, taking the smaller of those that do.
pub fn create_grid_fitting(n: u32, card_aspect: AspectRatio, image_width: u32, image_height: u32) -> (r: Result<CardGrid, MosaicError>)
    ensures
        match r {
            Ok(g) => {
                &&& n > 0 && image_inputs_valid(card_aspect, image_width, image_height)
                &&& g.blank()
                &&& g.cell_count() >= n
                &&& exists|step: int|
                    {
                        &&& #[trigger] first_fit(n as int, step, card_aspect, image_width as int, image_height as int)
                        &&& fit_choice(n as int, step, card_aspect, image_width as int, image_height as int)
                            == Some((g.cards_wide as int, g.cards_tall as int))
                        &&& smallest_fit_through(
                            n as int,
                            step,
                            g.cell_count(),
                            card_aspect,
                            image_width as int,
                            image_height as int,
                        )
                    }
            },
            Err(MosaicError::DegenerateInput) => n == 0 || !image_inputs_valid(
                card_aspect,
                image_width,
                image_height,
            ),
            Err(MosaicError::Ungridable) => {
                &&& n > 0 && image_inputs_valid(card_aspect, image_width, image_height)
                &&& forall|step: int|
                    1 <= step <= image_width as int * image_height as int ==> fit_choice(
                        n as int,
                        step,
                        card_aspect,
                        image_width as int,
                        image_height as int,
                    ) is None
            },
            Err(MosaicError::TooLarge) => {
                &&& n > 0 && image_inputs_valid(card_aspect, image_width, image_height)
                &&& exists|step: int|
                    {
                        &&& #[trigger] first_fit(n as int, step, card_aspect, image_width as int, image_height as int)
                        &&& area(
                            fit_choice(n as int, step, card_aspect, image_width as int, image_height as int).unwrap(),
                        ) > u32::MAX
                    }
            },
        },
{
    if n == 0 || !card_aspect.is_valid() || image_width == 0 || image_height == 0 {
        return Err(MosaicError::DegenerateInput);
    }
    proof {
        lemma_mul_u32(image_width, image_height);
    }
    let bound: u64 = image_width as u64 * image_height as u64;
    let mut step: u64 = 1;
    while step <= bound
        invariant
            1 <= step <= bound + 1,
            bound == image_width as int * image_height as int,
            bound <= search_limit(),
            n > 0,
            image_inputs_valid(card_aspect, image_width, image_height),
            forall|k: int|
                1 <= k < step ==> fit_choice(n as int, k, card_aspect, image_width as int, image_height as int) is None,
        decreases bound + 1 - step,
    {
        let columns: u128 = columns_exact(step, card_aspect, image_width, image_height);
        let rows: u128 = rows_exact(step, card_aspect, image_width, image_height);
        let height_fits: bool = product_reaches(columns, step, n);
        let width_fits: bool = product_reaches(rows, step, n);
        let ghost by_height = candidate(step as int, false, card_aspect, image_width as int, image_height as int);
        let ghost by_width = candidate(step as int, true, card_aspect, image_width as int, image_height as int);
        proof {
            assert(area(by_height) == columns as int * step as int);
            assert(area(by_width) == rows as int * step as int) by (nonlinear_arith)
                requires
                    area(by_width) == step as int * rows as int,
            ;
            assert((area(by_height) <= area(by_width)) == (columns <= rows)) by (nonlinear_arith)
                requires
                    area(by_height) == columns as int * step as int,
                    area(by_width) == rows as int * step as int,
                    step >= 1,
            ;
        }
        if height_fits && (!width_fits || columns <= rows) {
            assert(columns >= 1) by (nonlinear_arith)
                requires
                    columns as int * step as int >= n,
                    n > 0,
                    step >= 1,
            ;
            let built = grid_of_shape(columns, step as u128);
            proof {
                assert(first_fit(n as int, step as int, card_aspect, image_width as int, image_height as int));
                lemma_first_fit_is_smallest(n as int, step as int, card_aspect, image_width as int, image_height as int);
            }
            return built;
        } else if width_fits {
            assert(rows >= 1) by (nonlinear_arith)
                requires
                    rows as int * step as int >= n,
                    n > 0,
                    step >= 1,
            ;
            let built = grid_of_shape(step as u128, rows);
            proof {
                assert(first_fit(n as int, step as int, card_aspect, image_width as int, image_height as int));
                lemma_first_fit_is_smallest(n as int, step as int, card_aspect, image_width as int, image_height as int);
            }
            return built;
        }
        step = step + 1;
    }
    Err(MosaicError::Ungridable)
}

/// At the first step that fits, the chosen grid holds `n` cells and no
/// candidate of that step or an earlier one holds `n` cells in fewer.
pub proof fn lemma_first_fit_is_smallest(n: int, step: int, aspect: AspectRatio, image_width: int, image_height: int)
    requires
        first_fit(n, step, aspect, image_width, image_height),
    ensures
        area(fit_choice(n, step, aspect, image_width, image_height).unwrap()) >= n,
        smallest_fit_through(
            n,
            step,
            area(fit_choice(n, step, aspect, image_width, image_height).unwrap()),
            aspect,
            image_width,
            image_height,
        ),
{
    let chosen = area(fit_choice(n, step, aspect, image_width, image_height).unwrap());
    assert forall|k: int, step_is_width: bool|
        1 <= k <= step && n <= #[trigger] area(candidate(k, step_is_width, aspect, image_width, image_height))
            implies chosen <= area(candidate(k, step_is_width, aspect, image_width, image_height)) by {
        if k < step {
            assert(fit_choice(n, k, aspect, image_width, image_height) is None);
        }
    }
}

} // verus!
