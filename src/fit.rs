//! Fitting a label's text into its swatch: the scale search, its margin and
//! the centred placement.
use vstd::prelude::*;

verus! {

/// How many times the scale divisor may grow before fitting gives up.
pub const MAX_FIT_ATTEMPTS: u32 = 1000;

/// A text that cannot be made to fit its box.
#[derive(Debug, Clone, Copy, PartialEq, Eq, Structural)]
pub enum LayoutError {
    /// Still too wide after the largest number of attempts.
    TooSmall,
    /// The line that fits in width is taller than the box.
    TooTall,
}

/// What to do after measuring a text run at one scale.
#[derive(Debug, Clone, Copy, PartialEq, Eq, Structural)]
pub enum FitStep {
    /// The run fits: keep this scale.
    Accept,
    /// The run is too wide: measure again with this scale divisor, in halves.
    Retry(u32),
}

/// The widest run that fits a box of `width` pixels, exclusive: 5% of the
/// width is kept free.
pub open spec fn fit_limit(width: u32) -> int {
    width - width / 20
}

/// The pixel width of a run from the left edge of its first glyph to the
/// right edge of its last; a missing edge counts as 0, and the width is at
/// least 1.
pub open spec fn run_width_of(min_x: Option<i32>, max_x: Option<i32>) -> int {
    let lo: int = match min_x {
        Some(v) => v as int,
        None => 0,
    };
    let hi: int = match max_x {
        Some(v) => v as int,
        None => 0,
    };
    if hi - lo >= 1 {
        hi - lo
    } else {
        1
    }
}

/// Measured width of a run, from the pixel bounds of its first and last glyph.
pub fn run_width(min_x: Option<i32>, max_x: Option<i32>) -> (r: u32)
    ensures
        r == run_width_of(min_x, max_x),
        r >= 1,
{
    let lo: i64 = match min_x {
        Some(v) => v as i64,
        None => 0,
    };
    let hi: i64 = match max_x {
        Some(v) => v as i64,
        None => 0,
    };
    let w = hi - lo;
    if w >= 1 {
        w as u32
    } else {
        1
    }
}

/// The run fits the box: narrower than the width less a 5% margin.
pub fn fits(run: u32, width: u32) -> (r: bool)
    ensures
        r == (run < fit_limit(width)),
{
    run < width - width / 20
}

/// The next step of the scale search. The text was laid out at scale
/// `width / (divisor_halves / 2)` and measured `run` pixels wide; `attempts`
/// counts the divisors tried before this one. A run that fits is accepted;
/// otherwise the divisor grows by one half, until the attempts run out.
pub fn next_step(divisor_halves: u32, attempts: u32, run: u32, width: u32) -> (r: Result<
    FitStep,
    LayoutError,
>)
    ensures
        r == Ok::<FitStep, LayoutError>(FitStep::Accept) <==> run < fit_limit(width),
        r matches Ok(FitStep::Retry(next)) ==> next == divisor_halves + 1,
        r is Err <==> (run >= fit_limit(width) && (attempts >= MAX_FIT_ATTEMPTS || divisor_halves
            == u32::MAX)),
        r is Err ==> r == Err::<FitStep, LayoutError>(LayoutError::TooSmall),
{
    if fits(run, width) {
        Ok(FitStep::Accept)
    } else if attempts >= MAX_FIT_ATTEMPTS || divisor_halves == u32::MAX {
        Err(LayoutError::TooSmall)
    } else {
        Ok(FitStep::Retry(divisor_halves + 1))
    }
}

/// Top-left pixel of a run of `run` by `line_height` pixels centred in the
/// box at (`x0`, `y0`) of `width` by `height`, moved down by
/// `vertical_offset`.
pub fn place(
    x0: u32,
    y0: u32,
    width: u32,
    height: u32,
    run: u32,
    line_height: u32,
    vertical_offset: i32,
) -> (r: (i64, i64))
    requires
        run <= width,
        line_height <= height,
    ensures
        r.0 == x0 + (width - run) / 2,
        r.1 == y0 + (height - line_height) / 2 + vertical_offset,
{
    let x = x0 as i64 + ((width - run) / 2) as i64;
    let y = y0 as i64 + ((height - line_height) / 2) as i64 + vertical_offset as i64;
    (x, y)
}

/// Lays out a text at a scale and reports its pixel extent.
pub trait GlyphMetrics {
    /// Lays `text` out at scale `width / (divisor_halves / 2)` and returns the
    /// left pixel edge of its first glyph, the right pixel edge of its last
    /// (`None` for a glyph without pixels) and the line height in pixels.
    fn measure(&self, text: &str, divisor_halves: u32, width: u32) -> (Option<i32>, Option<i32>, u32);
}

/// Where a fitted text run goes.
#[derive(Debug, Clone, Copy, PartialEq, Eq, Structural)]
pub struct Placement {
    /// The scale divisor, in halves, at which the run fits.
    pub divisor_halves: u32,
    /// Measured width of the run.
    pub run: u32,
    /// Line height of the run.
    pub line_height: u32,
    /// Left pixel of the run.
    pub x: i64,
    /// Top pixel of the run.
    pub y: i64,
}

/// The placement of a run that fits in width: centred in the box and moved
/// down by `vertical_offset`, unless the line is taller than the box.
pub fn accept_run(
    x0: u32,
    y0: u32,
    width: u32,
    height: u32,
    halves: u32,
    run: u32,
    line_height: u32,
    vertical_offset: i32,
) -> (r: Result<Placement, LayoutError>)
    requires
        run <= width,
    ensures
        line_height > height <==> r == Err::<Placement, LayoutError>(LayoutError::TooTall),
        line_height <= height ==> r == Ok::<Placement, LayoutError>(
            (Placement {
                divisor_halves: halves,
                run,
                line_height,
                x: (x0 + (width - run) / 2) as i64,
                y: (y0 + (height - line_height) / 2 + vertical_offset) as i64,
            }),
        ),
{
    if line_height > height {
        return Err(LayoutError::TooTall);
    }
    let (x, y) = place(x0, y0, width, height, run, line_height, vertical_offset);
    Ok(Placement { divisor_halves: halves, run, line_height, x, y })
}

/// Fits `text` into the box at (`x0`, `y0`) of `width` by `height`: starting
/// from the divisor `initial_halves / 2`, the divisor grows by one half until
/// the measured run fits within the 5% margin; the run is then centred and
/// moved down by `vertical_offset`.
pub fn fit_and_place<M: GlyphMetrics>(
    metrics: &M,
    text: &str,
    x0: u32,
    y0: u32,
    width: u32,
    height: u32,
    initial_halves: u32,
    vertical_offset: i32,
) -> (r: Result<Placement, LayoutError>)
    ensures
        r matches Ok(p) ==> {
            &&& 1 <= p.run < fit_limit(width)
            &&& p.line_height <= height
            &&& initial_halves <= p.divisor_halves <= initial_halves + MAX_FIT_ATTEMPTS
            &&& p.x == x0 + (width - p.run) / 2
            &&& p.y == y0 + (height - p.line_height) / 2 + vertical_offset
        },
        r is Err ==> r == Err::<Placement, LayoutError>(LayoutError::TooSmall) || r == Err::<
            Placement,
            LayoutError,
        >(LayoutError::TooTall),
        fit_limit(width) <= 1 ==> r == Err::<Placement, LayoutError>(LayoutError::TooSmall),
{
    let mut halves = initial_halves;
    let mut attempts: u32 = 0;
    loop
        invariant
            attempts <= MAX_FIT_ATTEMPTS,
            halves == initial_halves + attempts,
        decreases MAX_FIT_ATTEMPTS - attempts,
    {
        let (min_x, max_x, line_height) = metrics.measure(text, halves, width);
        let run = run_width(min_x, max_x);
        match next_step(halves, attempts, run, width) {
            Err(e) => {
                return Err(e);
            },
            Ok(FitStep::Accept) => {
                return accept_run(
                    x0,
                    y0,
                    width,
                    height,
                    halves,
                    run,
                    line_height,
                    vertical_offset,
                );
            },
            Ok(FitStep::Retry(next)) => {
                halves = next;
                attempts = attempts + 1;
            },
        }
    }
}

} // verus!
