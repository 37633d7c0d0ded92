//! Row selection over the spectrogram: which cell lies under the cursor, which
//! rows the spectrogram image shows, and which rows the automatic gain averages.
//! A spectrogram row is modelled by its number of frequency bins and its duration
//! in nanoseconds; rows are listed newest first.
use vstd::prelude::*;

verus! {

/// The cell of the spectrogram under the cursor, if it is shown: the row must
/// exist, have one value per frequency bin, and be as long in time as the newest
/// row.
pub open spec fn spec_spectrogram_cell(
    column: int,
    row: int,
    bins: int,
    row_lens: Seq<usize>,
    row_durations: Seq<u64>,
) -> Option<(int, int)> {
    if 0 <= row < row_lens.len() && row_lens[row] == bins && row_durations[row] == row_durations[0] {
        Some((column, row))
    } else {
        None
    }
}

/// A cell is picked exactly for a row that exists, has one value per frequency bin
/// and lasts as long as the newest row; the cell is then the one asked for.
pub proof fn lemma_spectrogram_cell_shown_rows(
    column: int,
    row: int,
    bins: int,
    row_lens: Seq<usize>,
    row_durations: Seq<u64>,
)
    ensures
        spec_spectrogram_cell(column, row, bins, row_lens, row_durations) is Some <==> (0 <= row
            < row_lens.len() && row_lens[row] == bins && row_durations[row] == row_durations[0]),
        spec_spectrogram_cell(column, row, bins, row_lens, row_durations) is Some ==> spec_spectrogram_cell(
            column,
            row,
            bins,
            row_lens,
            row_durations,
        ) == Some((column, row)),
{
}

/// Picks the spectrogram cell in `column` and `row` (column and row computed from
/// the cursor position), for a display of `bins` frequency bins. The column must
/// name a frequency bin, and there must be a newest row to compare durations with.
pub fn spectrogram_cell(
    column: usize,
    row: usize,
    bins: usize,
    row_lens: &Vec<usize>,
    row_durations: &Vec<u64>,
) -> (cell: Option<(usize, usize)>)
    requires
        column < bins,
        row_lens.len() == row_durations.len(),
        row_lens.len() >= 1,
    ensures
        match cell {
            Some((c, r)) => spec_spectrogram_cell(column as int, row as int, bins as int, row_lens@, row_durations@)
                == Some((c as int, r as int)),
            None => spec_spectrogram_cell(column as int, row as int, bins as int, row_lens@, row_durations@)
                is None,
        },
        cell matches Some((c, r)) ==> c == column && r == row && row < row_lens.len() && row_lens@[row as int]
            == bins && row_durations@[row as int] == row_durations@[0],
        (row < row_lens.len() && row_lens@[row as int] == bins && row_durations@[row as int]
            == row_durations@[0]) ==> cell == Some((column, row)),
{
    let newest = row_durations[0];
    if row < row_lens.len() && row_lens[row] == bins && row_durations[row] == newest {
        Some((column, row))
    } else {
        None
    }
}

/// The number of rows of the spectrogram image that are drawn, counting from row
/// `y`: drawing stops at the first row that does not exist, does not have `width`
/// bins, lies at the image height, or differs in duration from the newest row.
pub open spec fn rows_drawn_from(
    width: nat,
    height: nat,
    row_lens: Seq<usize>,
    row_durations: Seq<u64>,
    y: int,
) -> int
    decreases row_lens.len() - y,
{
    if y < 0 || y >= row_lens.len() || row_lens[y] != width || y == height || row_durations[y]
        != row_durations[0] {
        y
    } else {
        rows_drawn_from(width, height, row_lens, row_durations, y + 1)
    }
}

/// Row `y` has `width` bins and lasts as long as the newest row.
pub open spec fn row_shown(width: int, row_lens: Seq<usize>, row_durations: Seq<u64>, y: int) -> bool {
    row_lens[y] == width && row_durations[y] == row_durations[0]
}

/// The rows drawn are the longest leading run of rows that have `width` bins, last
/// as long as the newest row and fit the image height.
pub proof fn lemma_rows_drawn_leading_run(
    width: nat,
    height: nat,
    row_lens: Seq<usize>,
    row_durations: Seq<u64>,
)
    ensures
        ({
            let d = rows_drawn_from(width, height, row_lens, row_durations, 0);
            &&& 0 <= d <= row_lens.len()
            &&& d <= height
            &&& forall|y: int| 0 <= y < d ==> (#[trigger] row_lens[y]) == width && row_durations[y] == row_durations[0]
            &&& d < row_lens.len() && d < height ==> row_lens[d] != width || row_durations[d] != row_durations[0]
        }),
{
    lemma_rows_drawn_from_run(width, height, row_lens, row_durations, 0);
}

proof fn lemma_rows_drawn_from_run(
    width: nat,
    height: nat,
    row_lens: Seq<usize>,
    row_durations: Seq<u64>,
    y0: int,
)
    requires
        0 <= y0 <= row_lens.len(),
        y0 <= height,
    ensures
        ({
            let d = rows_drawn_from(width, height, row_lens, row_durations, y0);
            &&& y0 <= d <= row_lens.len()
            &&& d <= height
            &&& forall|y: int| y0 <= y < d ==> (#[trigger] row_lens[y]) == width && row_durations[y] == row_durations[0]
            &&& d < row_lens.len() && d < height ==> row_lens[d] != width || row_durations[d] != row_durations[0]
        }),
    decreases row_lens.len() - y0,
{
    if !(y0 >= row_lens.len() || row_lens[y0] != width || y0 == height || row_durations[y0]
        != row_durations[0]) {
        lemma_rows_drawn_from_run(width, height, row_lens, row_durations, y0 + 1);
    }
}

proof fn lemma_cell_index(w: int, h: int, y: int, x: int)
    requires
        0 <= x < w,
        0 <= y < h,
    ensures
        0 <= y * w + x < w * h,
        y * w + x < (y + 1) * w,
        y * w <= y * w + x,
{
    assert(0 <= y * w) by (nonlinear_arith)
        requires
            0 <= y,
            0 <= w,
    ;
    assert(y * w + x < w * h) by (nonlinear_arith)
        requires
            0 <= x < w,
            0 <= y < h,
    ;
    assert((y + 1) * w == y * w + w) by (nonlinear_arith);
}

proof fn lemma_row_start_monotone(w: int, y: int, z: int)
    requires
        0 <= w,
        0 <= y <= z,
    ensures
        y * w <= z * w,
{
    assert(y * w <= z * w) by (nonlinear_arith)
        requires
            0 <= w,
            y <= z,
    ;
}

/// Draws the spectrogram image: a row-major image of `width` by `height` pixels,
/// row `y` showing spectrogram row `y` (newest at the top). Rows are drawn from the
/// top while they have `width` bins, fit the image and last as long as the newest
/// row; pixel `(x, y)` gets `color_at(y, x)`. Returns the number of rows drawn;
/// every pixel below them keeps its value.
pub fn draw_spectrogram_image<C: Copy, F: Fn(usize, usize) -> C>(
    pixels: &mut Vec<C>,
    width: usize,
    height: usize,
    row_lens: &Vec<usize>,
    row_durations: &Vec<u64>,
    color_at: F,
) -> (drawn: usize)
    requires
        old(pixels).len() == width * height,
        row_lens.len() == row_durations.len(),
        row_lens.len() >= 1,
        forall|y: usize, x: usize| y < row_lens.len() && x < width ==> call_requires(color_at, (y, x)),
    ensures
        drawn == rows_drawn_from(width as nat, height as nat, row_lens@, row_durations@, 0),
        drawn <= height,
        drawn <= row_lens.len(),
        forall|y: int| 0 <= y < drawn ==> (#[trigger] row_lens@[y]) == width && row_durations@[y] == row_durations@[0],
        drawn < row_lens.len() && drawn < height ==> row_lens@[drawn as int] != width
            || row_durations@[drawn as int] != row_durations@[0],
        final(pixels).len() == old(pixels).len(),
        forall|y: usize, x: usize|
            y < drawn && x < width ==> call_ensures(
                color_at,
                (y, x),
                #[trigger] final(pixels)@[y * width + x],
            ),
        forall|k: int| drawn * width <= k < old(pixels).len() ==> #[trigger] final(pixels)@[k] == old(pixels)@[k],
{
    let n = row_lens.len();
    let newest = row_durations[0];
    let mut drawn: usize = 0;
    while drawn < n && row_lens[drawn] == width && drawn != height && row_durations[drawn] == newest
        invariant
            n == row_lens.len(),
            n == row_durations.len(),
            newest == row_durations@[0],
            drawn <= n,
            drawn <= height,
            forall|y: int| 0 <= y < drawn ==> #[trigger] row_shown(width as int, row_lens@, row_durations@, y),
            rows_drawn_from(width as nat, height as nat, row_lens@, row_durations@, 0)
                == rows_drawn_from(width as nat, height as nat, row_lens@, row_durations@, drawn as int),
        decreases n - drawn,
    {
        let ghost prev = drawn;
        assert(row_lens@[drawn as int] == width && row_durations@[drawn as int] == row_durations@[0]);
        drawn = drawn + 1;
        assert(row_shown(width as int, row_lens@, row_durations@, prev as int));
    }
    assert forall|y: int| 0 <= y < drawn implies (#[trigger] row_lens@[y]) == width && row_durations@[y]
        == row_durations@[0] by {
        assert(row_shown(width as int, row_lens@, row_durations@, y));
    }
    let mut y: usize = 0;
    while y < drawn
        invariant
            y <= drawn <= height,
            drawn <= n,
            n == row_lens.len(),
            pixels.len() == width * height,
            forall|a: usize, x: usize| a < n && x < width ==> call_requires(color_at, (a, x)),
            forall|a: usize, x: usize|
                a < y && x < width ==> call_ensures(color_at, (a, x), #[trigger] pixels@[a * width + x]),
            forall|k: int| y * width <= k < pixels.len() ==> #[trigger] pixels@[k] == old(pixels)@[k],
        decreases drawn - y,
    {
        let mut x: usize = 0;
        while x < width
            invariant
                y < drawn <= height,
                drawn <= n,
                n == row_lens.len(),
                x <= width,
                pixels.len() == width * height,
                forall|a: usize, c: usize| a < n && c < width ==> call_requires(color_at, (a, c)),
                forall|a: usize, c: usize|
                    (a < y && c < width) || (a == y && c < x) ==> call_ensures(
                        color_at,
                        (a, c),
                        #[trigger] pixels@[a * width + c],
                    ),
                forall|k: int| y * width + x <= k < pixels.len() ==> #[trigger] pixels@[k] == old(pixels)@[k],
            decreases width - x,
        {
            proof {
                lemma_cell_index(width as int, height as int, y as int, x as int);
            }
            let color = color_at(y, x);
            let ghost before = pixels@;
            pixels[y * width + x] = color;
            proof {
                assert forall|a: usize, c: usize|
                    (a < y && c < width) || (a == y && c < x + 1) implies call_ensures(
                    color_at,
                    (a, c),
                    #[trigger] pixels@[a * width + c],
                ) by {
                    lemma_cell_index(width as int, height as int, a as int, c as int);
                    if a < y {
                        lemma_row_start_monotone(width as int, a as int + 1, y as int);
                        assert(pixels@[a * width + c] == before[a * width + c]);
                    } else if c < x {
                        assert(pixels@[a * width + c] == before[a * width + c]);
                    }
                }
            }
            x = x + 1;
        }
        proof {
            assert((y + 1) * width == y * width + width) by (nonlinear_arith);
        }
        y = y + 1;
    }
    drawn
}

/// The summed duration of the first `n` rows.
pub open spec fn duration_prefix(durations: Seq<u64>, n: int) -> int
    decreases n,
{
    if n <= 0 {
        0
    } else {
        duration_prefix(durations, n - 1) + durations[n - 1]
    }
}

proof fn lemma_duration_prefix_monotone(durations: Seq<u64>, m: int, n: int)
    requires
        0 <= m <= n,
    ensures
        duration_prefix(durations, m) <= duration_prefix(durations, n),
    decreases n - m,
{
    if m < n {
        lemma_duration_prefix_monotone(durations, m, n - 1);
    }
}

/// The number of newest rows the automatic gain averages over: the longest leading
/// run of rows whose summed duration stays within `limit` nanoseconds.
pub fn agc_rows(durations: &Vec<u64>, limit: u64) -> (n: usize)
    ensures
        n <= durations.len(),
        forall|m: int| 0 <= m <= n ==> #[trigger] duration_prefix(durations@, m) <= limit,
        forall|m: int| n < m <= durations.len() ==> #[trigger] duration_prefix(durations@, m) > limit,
{
    let len = durations.len();
    let mut sum: u128 = 0;
    let mut i: usize = 0;
    while i < len
        invariant
            len == durations.len(),
            i <= len,
            sum == duration_prefix(durations@, i as int),
            sum <= limit,
        ensures
            i == len || duration_prefix(durations@, i + 1) > limit,
        decreases len - i,
    {
        let next = sum + durations[i] as u128;
        if next > limit as u128 {
            break;
        }
        sum = next;
        i = i + 1;
    }
    proof {
        assert forall|m: int| 0 <= m <= i implies #[trigger] duration_prefix(durations@, m) <= limit by {
            lemma_duration_prefix_monotone(durations@, m, i as int);
        }
        assert forall|m: int| i < m <= len implies #[trigger] duration_prefix(durations@, m) > limit by {
            lemma_duration_prefix_monotone(durations@, i + 1, m);
        }
    }
    i
}

} // verus!
