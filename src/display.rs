//! The grid surface and the composition pass that lays metrics out on it.
use crate::color::Color;
use crate::column::{lemma_stacked_len, render_column, rendered, stacked, DisplayError, HardwareFault};
use crate::quantize::{lemma_quantized_len, lemma_quantized_within_capacity, quantized, vector_of_leds};
use vstd::prelude::*;

verus! {

/// Number of columns of the grid.
pub const GRID_WIDTH: usize = 16;

/// Number of rows of the grid; row 0 is the top.
pub const GRID_HEIGHT: usize = 16;

/// One unit of information to show.
pub enum MetricType {
    /// A proportional bar, repeated over `width` identical columns.
    ColumnRatio { width: u8, values: Vec<u32>, colors: Vec<Color> },
    /// A count gauge; reserved, and refused by the composer.
    ColumnCount { width: u8, value: u32 },
}

/// The pixel buffer of the 16 by 16 surface, column by column: the pixel at
/// `(column, row)` is entry `column * GRID_HEIGHT + row`; `None` is unlit.
pub struct Grid {
    cells: Vec<Option<Color>>,
}

impl View for Grid {
    type V = Seq<Option<Color>>;

    closed spec fn view(&self) -> Seq<Option<Color>> {
        self.cells@
    }
}

/// Index of the pixel at `(col, row)` in a grid's view.
pub open spec fn cell_index(col: int, row: int) -> int {
    col * GRID_HEIGHT + row
}

/// The grid column that shows a stack of lit positions: the first position on
/// the bottom row, the next one above it, and the rows above the stack unlit.
pub open spec fn column_pixels(stack: Seq<Color>) -> Seq<Option<Color>> {
    Seq::new(
        GRID_HEIGHT as nat,
        |row: int|
            if GRID_HEIGHT - 1 - row < stack.len() {
                Some(stack[GRID_HEIGHT - 1 - row])
            } else {
                None
            },
    )
}

/// `cells` with column `col` replaced by `pixels`.
pub open spec fn with_column(cells: Seq<Option<Color>>, col: int, pixels: Seq<Option<Color>>) -> Seq<
    Option<Color>,
> {
    Seq::new(
        cells.len(),
        |i: int|
            if cell_index(col, 0) <= i < cell_index(col + 1, 0) {
                pixels[i - cell_index(col, 0)]
            } else {
                cells[i]
            },
    )
}

/// Writes `pixels` to `width` consecutive columns from `col` on; the first
/// write to a column past the grid's edge fails.
pub open spec fn painted(cells: Seq<Option<Color>>, pixels: Seq<Option<Color>>, col: int, width: int) -> Result<
    Seq<Option<Color>>,
    DisplayError,
>
    decreases width,
{
    if width <= 0 {
        Ok(cells)
    } else if col >= GRID_WIDTH || col < 0 {
        Err(DisplayError::HardwareError(HardwareFault::ColumnOutOfRange { column: col as usize }))
    } else {
        painted(with_column(cells, col, pixels), pixels, col + 1, width - 1)
    }
}

/// The column that a ratio bar renders to.
pub open spec fn ratio_column(values: Seq<u32>, colors: Seq<Color>) -> Result<Seq<Color>, DisplayError> {
    rendered(quantized(values), colors)
}

/// A composition pass over `metrics` with the cursor at `cursor`: the grid
/// it leaves and the cursor after the last metric, or the first error.
pub open spec fn composed(cells: Seq<Option<Color>>, metrics: Seq<MetricType>, cursor: int) -> Result<
    (Seq<Option<Color>>, int),
    DisplayError,
>
    decreases metrics.len(),
{
    if metrics.len() == 0 {
        Ok((cells, cursor))
    } else {
        match metrics[0] {
            MetricType::ColumnCount { .. } => Err(DisplayError::NotImplemented),
            MetricType::ColumnRatio { width, values, colors } => match ratio_column(
                values@,
                colors@,
            ) {
                Err(e) => Err(e),
                Ok(stack) => match painted(cells, column_pixels(stack), cursor, width as int) {
                    Err(e) => Err(e),
                    Ok(next) => composed(next, metrics.drop_first(), cursor + width),
                },
            },
        }
    }
}

/// A composition pass seen through the grid's view.
pub open spec fn pass_view(r: Result<usize, DisplayError>, grid: Grid) -> Result<
    (Seq<Option<Color>>, int),
    DisplayError,
> {
    match r {
        Ok(n) => Ok((grid@, n as int)),
        Err(e) => Err(e),
    }
}

impl Grid {
    /// The grid has one entry per pixel.
    pub open spec fn wf(&self) -> bool {
        self@.len() == GRID_WIDTH * GRID_HEIGHT
    }

    /// An unlit grid.
    pub fn new() -> (g: Grid)
        ensures
            g.wf(),
            forall|i: int| 0 <= i < g@.len() ==> #[trigger] g@[i] == None::<Color>,
    {
        let mut cells: Vec<Option<Color>> = Vec::new();
        let mut i: usize = 0;
        while i < GRID_WIDTH * GRID_HEIGHT
            invariant
                i <= GRID_WIDTH * GRID_HEIGHT,
                cells@.len() == i,
                forall|k: int| 0 <= k < i ==> #[trigger] cells@[k] == None::<Color>,
            decreases GRID_WIDTH * GRID_HEIGHT - i,
        {
            cells.push(None);
            i = i + 1;
        }
        Grid { cells }
    }

    /// The pixel at `(col, row)`.
    pub fn pixel(&self, col: usize, row: usize) -> (p: Option<Color>)
        requires
            self.wf(),
            col < GRID_WIDTH,
            row < GRID_HEIGHT,
        ensures
            p == self@[cell_index(col as int, row as int)],
    {
        self.cells[col * GRID_HEIGHT + row]
    }

    /// Writes a stack of lit positions to column `col`, bottom first, and
    /// clears the rows above it. A stack taller than the grid is refused, as
    /// is a column past the grid's edge; the grid is then left as it was.
    pub fn fill_column(&mut self, col: usize, stack: &Vec<Color>) -> (r: Result<(), DisplayError>)
        requires
            old(self).wf(),
        ensures
            final(self).wf(),
            stack@.len() > GRID_HEIGHT ==> r == Err::<(), DisplayError>(DisplayError::CapacityExceeded)
                && final(self)@ == old(self)@,
            stack@.len() <= GRID_HEIGHT && col >= GRID_WIDTH ==> r == Err::<(), DisplayError>(
                DisplayError::HardwareError(HardwareFault::ColumnOutOfRange { column: col }),
            ) && final(self)@ == old(self)@,
            stack@.len() <= GRID_HEIGHT && col < GRID_WIDTH ==> r == Ok::<(), DisplayError>(())
                && final(self)@ == with_column(old(self)@, col as int, column_pixels(stack@)),
    {
        if stack.len() > GRID_HEIGHT {
            return Err(DisplayError::CapacityExceeded);
        }
        if col >= GRID_WIDTH {
            return Err(DisplayError::HardwareError(HardwareFault::ColumnOutOfRange { column: col }));
        }
        let ghost start = self@;
        let ghost target = with_column(start, col as int, column_pixels(stack@));
        let mut row: usize = 0;
        while row < GRID_HEIGHT
            invariant
                row <= GRID_HEIGHT,
                col < GRID_WIDTH,
                stack@.len() <= GRID_HEIGHT,
                self.wf(),
                target == with_column(start, col as int, column_pixels(stack@)),
                target.len() == self@.len(),
                forall|i: int|
                    0 <= i < self@.len() && !(cell_index(col as int, row as int) <= i < cell_index(
                        col as int + 1,
                        0,
                    )) ==> #[trigger] self@[i] == target[i],
            decreases GRID_HEIGHT - row,
        {
            let depth = GRID_HEIGHT - 1 - row;
            let p = if depth < stack.len() {
                Some(stack[depth])
            } else {
                None
            };
            assert(p == target[cell_index(col as int, row as int)]);
            self.cells.set(col * GRID_HEIGHT + row, p);
            row = row + 1;
        }
        assert(self@ =~= target);
        Ok(())
    }
}

/// A ratio bar of width two, composed from column 0, writes one and the same
/// rendered column to columns 0 and 1 and leaves the cursor at 2; the other
/// columns keep their pixels.
pub proof fn lemma_double_width_bar(cells: Seq<Option<Color>>, values: Vec<u32>, colors: Vec<Color>)
    requires
        cells.len() == GRID_WIDTH * GRID_HEIGHT,
        values@.len() == colors@.len(),
    ensures
        ({
            let pixels = column_pixels(stacked(quantized(values@), colors@, values@.len() as int));
            let bar = MetricType::ColumnRatio { width: 2, values, colors };
            let grid = with_column(with_column(cells, 0, pixels), 1, pixels);
            &&& composed(cells, seq![bar], 0) == Ok::<(Seq<Option<Color>>, int), DisplayError>(
                (grid, 2),
            )
            &&& forall|row: int|
                0 <= row < GRID_HEIGHT ==> grid[cell_index(0, row)] == pixels[row] && grid[cell_index(
                    1,
                    row,
                )] == pixels[row]
            &&& forall|i: int|
                cell_index(2, 0) <= i < cells.len() ==> #[trigger] grid[i] == cells[i]
        }),
{
    let q = quantized(values@);
    lemma_quantized_len(values@);
    lemma_quantized_within_capacity(values@);
    let stack = stacked(q, colors@, values@.len() as int);
    let pixels = column_pixels(stack);
    assert(ratio_column(values@, colors@) == Ok::<Seq<Color>, DisplayError>(stack));
    let g1 = with_column(cells, 0, pixels);
    let g2 = with_column(g1, 1, pixels);
    assert(painted(g2, pixels, 2, 0) == Ok::<Seq<Option<Color>>, DisplayError>(g2));
    assert(painted(g1, pixels, 1, 1) == Ok::<Seq<Option<Color>>, DisplayError>(g2));
    assert(painted(cells, pixels, 0, 2) == Ok::<Seq<Option<Color>>, DisplayError>(g2));
    let bar = MetricType::ColumnRatio { width: 2, values, colors };
    assert(seq![bar].drop_first() =~= Seq::<MetricType>::empty());
    assert(composed(g2, Seq::<MetricType>::empty(), 2) == Ok::<(Seq<Option<Color>>, int), DisplayError>(
        (g2, 2),
    ));
}

/// A pass that meets a count gauge before anything else fails with
/// `NotImplemented`.
pub proof fn lemma_count_gauge_not_implemented(
    cells: Seq<Option<Color>>,
    metrics: Seq<MetricType>,
    cursor: int,
)
    requires
        metrics.len() > 0,
        metrics[0] is ColumnCount,
    ensures
        composed(cells, metrics, cursor) == Err::<(Seq<Option<Color>>, int), DisplayError>(
            DisplayError::NotImplemented,
        ),
{
}

/// A pass over metrics that hold a count gauge anywhere never succeeds, so
/// its frame is never flushed.
pub proof fn lemma_count_gauge_never_flushed(
    cells: Seq<Option<Color>>,
    metrics: Seq<MetricType>,
    cursor: int,
    k: int,
)
    requires
        0 <= k < metrics.len(),
        metrics[k] is ColumnCount,
    ensures
        composed(cells, metrics, cursor) is Err,
    decreases k,
{
    if k > 0 {
        if let MetricType::ColumnRatio { width, values, colors } = metrics[0] {
            if let Ok(stack) = ratio_column(values@, colors@) {
                if let Ok(next) = painted(cells, column_pixels(stack), cursor, width as int) {
                    lemma_count_gauge_never_flushed(next, metrics.drop_first(), cursor + width, k - 1);
                }
            }
        }
    }
}

/// Lays `metrics` out on consecutive columns of `grid`, from column 0 on, and
/// returns the number of columns written. A ratio bar is quantized, rendered
/// once and written to `width` columns; a count gauge aborts the pass with
/// `NotImplemented`. The first error aborts the pass. `Ok` is the only outcome
/// after which the grid is to be flushed.
pub fn compose_metrics(grid: &mut Grid, metrics: &Vec<MetricType>) -> (r: Result<usize, DisplayError>)
    requires
        old(grid).wf(),
    ensures
        final(grid).wf(),
        pass_view(r, *final(grid)) == composed(old(grid)@, metrics@, 0),
{
    let ghost start = grid@;
    let mut cursor: usize = 0;
    let mut i: usize = 0;
    assert(metrics@.skip(0) =~= metrics@);
    while i < metrics.len()
        invariant
            grid.wf(),
            start == old(grid)@,
            i <= metrics@.len(),
            cursor <= GRID_WIDTH,
            composed(start, metrics@, 0) == composed(grid@, metrics@.skip(i as int), cursor as int),
        decreases metrics@.len() - i,
    {
        assert(metrics@.skip(i as int).drop_first() =~= metrics@.skip(i as int + 1));
        assert(metrics@.skip(i as int)[0] == metrics@[i as int]);
        match &metrics[i] {
            MetricType::ColumnCount { .. } => {
                assert(composed(grid@, metrics@.skip(i as int), cursor as int) == Err::<(Seq<Option<Color>>, int), DisplayError>(DisplayError::NotImplemented));
                return Err(DisplayError::NotImplemented);
            },
            MetricType::ColumnRatio { width, values, colors } => {
                let vals = values.clone();
                assert(vals@ =~= values@);
                let units = vector_of_leds(vals);
                let rendered_column = render_column(&units, colors);
                let stack = match rendered_column {
                    Ok(s) => s,
                    Err(e) => {
                        return Err(e);
                    },
                };
                proof {
                    let q = quantized(values@);
                    lemma_quantized_len(values@);
                    lemma_quantized_within_capacity(values@);
                    lemma_stacked_len(q, colors@, q.len() as int);
                    assert(q.subrange(0, q.len() as int) =~= q);
                }
                let ghost pixels = column_pixels(stack@);
                let ghost g0 = grid@;
                let ghost c0 = cursor as int;
                let ghost rest = metrics@.skip(i as int + 1);
                assert(composed(g0, metrics@.skip(i as int), c0) == match painted(
                    g0,
                    pixels,
                    c0,
                    *width as int,
                ) {
                    Err(e) => Err(e),
                    Ok(next) => composed(next, rest, c0 + *width),
                });
                let mut r: u8 = 0;
                while r < *width
                    invariant
                        grid.wf(),
                        start == old(grid)@,
                        composed(start, metrics@, 0) == composed(g0, metrics@.skip(i as int), c0),
                        composed(g0, metrics@.skip(i as int), c0) == match painted(
                            g0,
                            pixels,
                            c0,
                            *width as int,
                        ) {
                            Err(e) => Err(e),
                            Ok(next) => composed(next, rest, c0 + *width),
                        },
                        rest == metrics@.skip(i as int + 1),
                        i < metrics@.len(),
                        r <= *width,
                        stack@.len() <= GRID_HEIGHT,
                        pixels == column_pixels(stack@),
                        cursor == c0 + r,
                        cursor <= GRID_WIDTH,
                        painted(g0, pixels, c0, *width as int) == painted(
                            grid@,
                            pixels,
                            cursor as int,
                            *width - r,
                        ),
                    decreases *width - r,
                {
                    match grid.fill_column(cursor, &stack) {
                        Ok(()) => {},
                        Err(e) => {
                            return Err(e);
                        },
                    }
                    cursor = cursor + 1;
                    r = r + 1;
                }
            },
        }
        i = i + 1;
    }
    assert(metrics@.skip(i as int).len() == 0);
    Ok(cursor)
}

/// Ends a composition pass with the outcome of its flush: a device that
/// refused the frame gives back its fault unchanged.
pub fn finish_pass(flushed: Result<(), HardwareFault>) -> (r: Result<(), DisplayError>)
    ensures
        flushed is Ok ==> r is Ok,
        forall|f: HardwareFault|
            flushed == Err::<(), HardwareFault>(f) ==> r == Err::<(), DisplayError>(
                DisplayError::HardwareError(f),
            ),
{
    match flushed {
        Ok(()) => Ok(()),
        Err(f) => Err(DisplayError::HardwareError(f)),
    }
}

} // verus!
