//! Column rendering: a unit distribution and its colors become a bottom-anchored
//! stack of lit positions.
use crate::color::Color;
use crate::quantize::{sum_units, units_of, CAPACITY};
use vstd::prelude::*;

verus! {

/// What the display hardware reported when it refused a write or a flush.
#[derive(Debug, PartialEq, Eq)]
pub enum HardwareFault {
    /// A write addressed a column that the surface does not have.
    ColumnOutOfRange { column: usize },
    /// The device itself failed; the text is the device's own message.
    Device(String),
}

/// Why a composition pass was aborted.
#[derive(Debug, PartialEq, Eq)]
pub enum DisplayError {
    /// A ratio bar has a different number of values and colors.
    LengthMismatch,
    /// A unit distribution asks for more positions than a column has.
    CapacityExceeded,
    /// The metric kind has no rendering yet.
    NotImplemented,
    /// The display surface refused a write or a flush.
    HardwareError(HardwareFault),
}

/// `k` copies of one color.
pub open spec fn repeated(c: Color, k: int) -> Seq<Color> {
    Seq::new(k as nat, |i: int| c)
}

/// The colors of the first `n` categories, each repeated as often as its units,
/// in category order: the lit positions of a column, bottom first.
pub open spec fn stacked(units: Seq<int>, colors: Seq<Color>, n: int) -> Seq<Color>
    decreases n,
{
    if n <= 0 {
        Seq::empty()
    } else {
        stacked(units, colors, n - 1) + repeated(colors[n - 1], units[n - 1])
    }
}

/// What rendering a unit distribution with its colors gives.
pub open spec fn rendered(units: Seq<int>, colors: Seq<Color>) -> Result<Seq<Color>, DisplayError> {
    if units.len() != colors.len() {
        Err(DisplayError::LengthMismatch)
    } else if sum_units(units) > CAPACITY {
        Err(DisplayError::CapacityExceeded)
    } else {
        Ok(stacked(units, colors, units.len() as int))
    }
}

/// A rendered column seen through its colors.
pub open spec fn column_view(r: Result<Vec<Color>, DisplayError>) -> Result<Seq<Color>, DisplayError> {
    match r {
        Ok(v) => Ok(v@),
        Err(e) => Err(e),
    }
}

/// The sum over one more entry adds that entry.
pub proof fn lemma_sum_prefix(u: Seq<int>, i: int)
    requires
        0 <= i < u.len(),
    ensures
        sum_units(u.subrange(0, i + 1)) == sum_units(u.subrange(0, i)) + u[i],
{
    assert(u.subrange(0, i + 1).drop_last() =~= u.subrange(0, i));
}

/// A stack holds as many positions as its categories have units.
pub proof fn lemma_stacked_len(units: Seq<int>, colors: Seq<Color>, n: int)
    requires
        0 <= n <= units.len(),
        forall|i: int| 0 <= i < units.len() ==> #[trigger] units[i] >= 0,
    ensures
        stacked(units, colors, n).len() == sum_units(units.subrange(0, n)),
    decreases n,
{
    if n > 0 {
        lemma_stacked_len(units, colors, n - 1);
        lemma_sum_prefix(units, n - 1);
    } else {
        assert(units.subrange(0, 0).len() == 0);
    }
}

/// Renders one column: category `i` contributes `units[i]` positions of
/// `colors[i]`, in category order, bottom first.
pub fn render_column(units: &Vec<u64>, colors: &Vec<Color>) -> (r: Result<Vec<Color>, DisplayError>)
    ensures
        column_view(r) == rendered(units_of(units@), colors@),
{
    if units.len() != colors.len() {
        return Err(DisplayError::LengthMismatch);
    }
    let n = units.len();
    let ghost u = units_of(units@);
    let mut sum: u128 = 0;
    let mut i: usize = 0;
    while i < n
        invariant
            n == units@.len(),
            u == units_of(units@),
            i <= n,
            sum == sum_units(u.subrange(0, i as int)),
            sum <= i * (u64::MAX as int),
        decreases n - i,
    {
        proof {
            lemma_sum_prefix(u, i as int);
            assert((i + 1) * (u64::MAX as int) == i * (u64::MAX as int) + u64::MAX) by (nonlinear_arith);
            assert(i * (u64::MAX as int) <= (u64::MAX - 1) * (u64::MAX as int)) by (nonlinear_arith)
                requires
                    i < n,
                    n <= u64::MAX,
            ;
        }
        sum = sum + units[i] as u128;
        i = i + 1;
    }
    assert(u.subrange(0, n as int) =~= u);
    if sum > CAPACITY as u128 {
        return Err(DisplayError::CapacityExceeded);
    }
    let mut column: Vec<Color> = Vec::new();
    let mut k: usize = 0;
    while k < n
        invariant
            n == units@.len(),
            n == colors@.len(),
            u == units_of(units@),
            k <= n,
            sum == sum_units(u),
            sum <= CAPACITY,
            column@ == stacked(u, colors@, k as int),
            column@.len() == sum_units(u.subrange(0, k as int)),
        decreases n - k,
    {
        proof {
            lemma_sum_prefix(u, k as int);
            lemma_stacked_len(u, colors@, n as int);
            lemma_stacked_len(u, colors@, k as int + 1);
        }
        let c = colors[k];
        let count = units[k];
        let ghost before = column@;
        let mut j: u64 = 0;
        while j < count
            invariant
                j <= count,
                column@ == before + repeated(c, j as int),
            decreases count - j,
        {
            column.push(c);
            j = j + 1;
            assert(column@ =~= before + repeated(c, j as int));
        }
        k = k + 1;
    }
    Ok(column)
}

} // verus!
