//! Splitting the framebuffer between render workers, and addressing it.

use vstd::prelude::*;

verus! {

/// Number of workgroup columns the image is divided into.
pub const WORKGROUP_COLUMNS: u32 = 4;

/// Number of workgroup rows the image is divided into.
pub const WORKGROUP_ROWS: u32 = 3;

/// The extent of one workgroup: the image width split into
/// `WORKGROUP_COLUMNS` and the height into `WORKGROUP_ROWS`, rounding down.
pub open spec fn spec_workgroup_dimensions(image_width: u32, image_height: u32) -> (u32, u32) {
    ((image_width / WORKGROUP_COLUMNS) as u32, (image_height / WORKGROUP_ROWS) as u32)
}

/// Computes the extent of one workgroup.
pub fn workgroup_dimensions(image_width: u32, image_height: u32) -> (dimensions: (u32, u32))
    ensures
        dimensions == spec_workgroup_dimensions(image_width, image_height),
{
    (image_width / WORKGROUP_COLUMNS, image_height / WORKGROUP_ROWS)
}

/// Whether worker `worker` renders pixel (`x`, `y`): the pixel lies in the
/// image and in the worker's workgroup, which is column `worker % 4` and row
/// `worker / 4` of the grid of workgroups.
pub open spec fn worker_renders(worker: u32, x: u32, y: u32, image_width: u32, image_height: u32) -> bool {
    let (workgroup_width, workgroup_height) = spec_workgroup_dimensions(image_width, image_height);
    &&& workgroup_width > 0
    &&& workgroup_height > 0
    &&& x < image_width
    &&& y < image_height
    &&& x / workgroup_width == worker % WORKGROUP_COLUMNS
    &&& y / workgroup_height == worker / WORKGROUP_COLUMNS
}

/// Whether the rows of worker `worker`'s workgroup are numbered within
/// `u32`, so that computing them cannot overflow.
pub open spec fn worker_rows_fit(worker: u32, image_width: u32, image_height: u32) -> bool {
    let (workgroup_width, workgroup_height) = spec_workgroup_dimensions(image_width, image_height);
    workgroup_width == 0 || workgroup_height == 0 || (worker / WORKGROUP_COLUMNS) * workgroup_height
        + workgroup_height - 1 <= u32::MAX
}

/// Whether pixel `first` comes before pixel `second` in the order in which a
/// worker visits them: by column, then by row.
pub open spec fn visited_before(first: (u32, u32), second: (u32, u32)) -> bool {
    first.0 < second.0 || (first.0 == second.0 && first.1 < second.1)
}

/// The pixels that worker `worker` renders, in the order it renders them:
/// the pixels of its workgroup that lie in the image, column by column.
pub fn worker_pixels(worker: u32, image_width: u32, image_height: u32) -> (pixels: Vec<(u32, u32)>)
    requires
        worker_rows_fit(worker, image_width, image_height),
    ensures
        forall|i: int|
            0 <= i < pixels.len() ==> worker_renders(
                worker,
                (#[trigger] pixels@[i]).0,
                pixels@[i].1,
                image_width,
                image_height,
            ),
        forall|x: u32, y: u32|
            #[trigger] worker_renders(worker, x, y, image_width, image_height) ==> pixels@.contains(
                (x, y),
            ),
        forall|i: int, j: int|
            0 <= i < j < pixels.len() ==> visited_before(pixels@[i], pixels@[j]),
{
    let (workgroup_width, workgroup_height) = workgroup_dimensions(image_width, image_height);
    let x_modifier = worker % WORKGROUP_COLUMNS;
    let y_modifier = worker / WORKGROUP_COLUMNS;
    let mut pixels: Vec<(u32, u32)> = Vec::new();
    if workgroup_width == 0 || workgroup_height == 0 {
        return pixels;
    }
    assert(x_modifier * workgroup_width + workgroup_width <= image_width) by (nonlinear_arith)
        requires
            x_modifier < 4,
            workgroup_width == image_width / 4,
    ;
    proof {
        assert forall|px: u32, py: u32|
            #[trigger] worker_renders(worker, px, py, image_width, image_height) && px
                < x_modifier * workgroup_width implies pixels@.contains((px, py)) by {
            lemma_division_bounds(px as int, workgroup_width as int, x_modifier as int);
        }
    }
    let mut x: u32 = 0;
    while x < workgroup_width
        invariant
            0 < workgroup_width,
            0 < workgroup_height,
            (workgroup_width, workgroup_height) == spec_workgroup_dimensions(image_width, image_height),
            x_modifier == worker % WORKGROUP_COLUMNS,
            y_modifier == worker / WORKGROUP_COLUMNS,
            x_modifier * workgroup_width + workgroup_width <= image_width,
            y_modifier * workgroup_height + workgroup_height - 1 <= u32::MAX,
            x <= workgroup_width,
            forall|i: int|
                0 <= i < pixels.len() ==> worker_renders(
                    worker,
                    (#[trigger] pixels@[i]).0,
                    pixels@[i].1,
                    image_width,
                    image_height,
                ),
            forall|i: int|
                0 <= i < pixels.len() ==> (#[trigger] pixels@[i]).0 < x_modifier * workgroup_width + x,
            forall|px: u32, py: u32|
                #[trigger] worker_renders(worker, px, py, image_width, image_height) && px
                    < x_modifier * workgroup_width + x ==> pixels@.contains((px, py)),
            forall|i: int, j: int|
                0 <= i < j < pixels.len() ==> visited_before(pixels@[i], pixels@[j]),
        decreases workgroup_width - x,
    {
        let frame_x = x_modifier * workgroup_width + x;
        proof {
            lemma_division_bounds(frame_x as int, workgroup_width as int, x_modifier as int);
        }
        let ghost column_start = pixels.len();
        proof {
            assert forall|px: u32, py: u32|
                #[trigger] worker_renders(worker, px, py, image_width, image_height) && (px < frame_x
                    || (px == frame_x && py < y_modifier * workgroup_height)) implies pixels@.contains(
                (px, py),
            ) by {
                lemma_division_bounds(py as int, workgroup_height as int, y_modifier as int);
            }
        }
        let mut y: u32 = 0;
        while y < workgroup_height
            invariant
                0 < workgroup_width,
                0 < workgroup_height,
                (workgroup_width, workgroup_height) == spec_workgroup_dimensions(image_width, image_height),
                x_modifier == worker % WORKGROUP_COLUMNS,
                y_modifier == worker / WORKGROUP_COLUMNS,
                y_modifier * workgroup_height + workgroup_height - 1 <= u32::MAX,
                frame_x == x_modifier * workgroup_width + x,
                frame_x < image_width,
                frame_x / workgroup_width == x_modifier,
                x < workgroup_width,
                y <= workgroup_height,
                column_start <= pixels.len(),
                forall|i: int|
                    0 <= i < pixels.len() ==> worker_renders(
                        worker,
                        (#[trigger] pixels@[i]).0,
                        pixels@[i].1,
                        image_width,
                        image_height,
                    ),
                forall|i: int|
                    0 <= i < column_start ==> (#[trigger] pixels@[i]).0 < frame_x,
                forall|i: int|
                    column_start <= i < pixels.len() ==> (#[trigger] pixels@[i]).0 == frame_x
                        && pixels@[i].1 < y_modifier * workgroup_height + y,
                forall|px: u32, py: u32|
                    #[trigger] worker_renders(worker, px, py, image_width, image_height) && (px
                        < frame_x || (px == frame_x && py < y_modifier * workgroup_height + y))
                        ==> pixels@.contains((px, py)),
                forall|i: int, j: int|
                    0 <= i < j < pixels.len() ==> visited_before(pixels@[i], pixels@[j]),
            decreases workgroup_height - y,
        {
            let frame_y = y_modifier * workgroup_height + y;
            proof {
                lemma_division_bounds(frame_y as int, workgroup_height as int, y_modifier as int);
            }
            if frame_y < image_height {
                let ghost before = pixels@;
                pixels.push((frame_x, frame_y));
                proof {
                    assert(pixels@[pixels.len() - 1] == (frame_x, frame_y));
                    assert forall|px: u32, py: u32|
                        #[trigger] worker_renders(worker, px, py, image_width, image_height) && (px
                            < frame_x || (px == frame_x && py < y_modifier * workgroup_height + y + 1))
                            implies pixels@.contains((px, py)) by {
                        if px < frame_x || py < frame_y {
                            let p = choose|p: int| 0 <= p < before.len() && before[p] == (px, py);
                            assert(pixels@[p] == (px, py));
                        } else {
                            assert(pixels@[pixels.len() - 1] == (px, py));
                        }
                    }
                }
            } else {
                proof {
                    assert forall|px: u32, py: u32|
                        #[trigger] worker_renders(worker, px, py, image_width, image_height) && (px
                            < frame_x || (px == frame_x && py < y_modifier * workgroup_height + y + 1))
                            implies pixels@.contains((px, py)) by {
                        if px == frame_x && py == frame_y {
                            assert(false);
                        }
                    }
                }
            }
            y += 1;
        }
        proof {
            assert forall|px: u32, py: u32|
                #[trigger] worker_renders(worker, px, py, image_width, image_height) && px
                    < x_modifier * workgroup_width + x + 1 implies pixels@.contains((px, py)) by {
                if px == frame_x {
                    lemma_division_bounds(py as int, workgroup_height as int, y_modifier as int);
                }
            }
        }
        x += 1;
    }
    proof {
        assert forall|px: u32, py: u32|
            #[trigger] worker_renders(worker, px, py, image_width, image_height) implies pixels@.contains(
                (px, py),
            ) by {
            lemma_division_bounds(px as int, workgroup_width as int, x_modifier as int);
        }
    }
    pixels
}

/// `value / divisor == quotient` exactly when `value` lies in
/// `quotient * divisor .. quotient * divisor + divisor`.
pub proof fn lemma_division_bounds(value: int, divisor: int, quotient: int)
    requires
        value >= 0,
        divisor > 0,
        quotient >= 0,
    ensures
        value / divisor == quotient <==> quotient * divisor <= value < quotient * divisor + divisor,
{
    assert(value / divisor == quotient <==> quotient * divisor <= value < quotient * divisor + divisor)
        by (nonlinear_arith)
        requires
            value >= 0,
            divisor > 0,
            quotient >= 0,
    {
        if quotient * divisor <= value && value < quotient * divisor + divisor {
            vstd::arithmetic::div_mod::lemma_fundamental_div_mod_converse(
                value,
                divisor,
                quotient,
                value - quotient * divisor,
            );
        }
    }
}


/// Whether some worker numbered below `workers` renders pixel (`x`, `y`).
pub open spec fn rendered_by_some_worker(x: u32, y: u32, image_width: u32, image_height: u32, workers: u32) -> bool {
    exists|worker: u32| worker < workers && #[trigger] worker_renders(worker, x, y, image_width, image_height)
}

/// No two workers render the same pixel, so their writes to the framebuffer
/// never overlap.
pub proof fn lemma_workers_disjoint(first: u32, second: u32, x: u32, y: u32, image_width: u32, image_height: u32)
    requires
        first != second,
        worker_renders(first, x, y, image_width, image_height),
    ensures
        !worker_renders(second, x, y, image_width, image_height),
{
    if worker_renders(second, x, y, image_width, image_height) {
        assert(first == 4 * (first / 4) + first % 4);
        assert(second == 4 * (second / 4) + second % 4);
    }
}

/// A pixel is rendered by one of `workers` workers exactly when both
/// workgroup dimensions are positive, the pixel lies in the image and in the
/// 4-column grid of workgroups, and its workgroup's number
/// (`4 * row + column`) is below `workers`.
pub proof fn lemma_rendered_exactly_when(x: u32, y: u32, image_width: u32, image_height: u32, workers: u32)
    ensures
        rendered_by_some_worker(x, y, image_width, image_height, workers) <==> {
            let (workgroup_width, workgroup_height) = spec_workgroup_dimensions(image_width, image_height);
            &&& workgroup_width > 0
            &&& workgroup_height > 0
            &&& x < image_width
            &&& y < image_height
            &&& x / workgroup_width < WORKGROUP_COLUMNS
            &&& 4 * (y / workgroup_height) + x / workgroup_width < workers
        },
{
    let (workgroup_width, workgroup_height) = spec_workgroup_dimensions(image_width, image_height);
    if rendered_by_some_worker(x, y, image_width, image_height, workers) {
        let worker = choose|worker: u32|
            worker < workers && #[trigger] worker_renders(worker, x, y, image_width, image_height);
        assert(worker == 4 * (worker / 4) + worker % 4);
    }
    if workgroup_width > 0 && workgroup_height > 0 && x < image_width && y < image_height && x
        / workgroup_width < WORKGROUP_COLUMNS && 4 * (y / workgroup_height) + x / workgroup_width
        < workers {
        let worker = (4 * (y / workgroup_height) + x / workgroup_width) as u32;
        assert(worker % 4 == x / workgroup_width && worker / 4 == y / workgroup_height);
        assert(worker_renders(worker, x, y, image_width, image_height));
    }
}

/// With at least twelve workers and an image whose width is a positive
/// multiple of four and whose height is a positive multiple of three, every
/// pixel is rendered, and (by `lemma_workers_disjoint`) by one worker only.
pub proof fn lemma_full_coverage(x: u32, y: u32, image_width: u32, image_height: u32, workers: u32)
    requires
        workers >= WORKGROUP_COLUMNS * WORKGROUP_ROWS,
        image_width > 0,
        image_height > 0,
        image_width % WORKGROUP_COLUMNS == 0,
        image_height % WORKGROUP_ROWS == 0,
        x < image_width,
        y < image_height,
    ensures
        rendered_by_some_worker(x, y, image_width, image_height, workers),
{
    let (workgroup_width, workgroup_height) = spec_workgroup_dimensions(image_width, image_height);
    lemma_rendered_exactly_when(x, y, image_width, image_height, workers);
    assert(x / workgroup_width < 4) by (nonlinear_arith)
        requires
            x < image_width,
            image_width == 4 * workgroup_width,
            workgroup_width > 0,
    {
        vstd::arithmetic::div_mod::lemma_div_is_ordered(x as int, image_width as int, workgroup_width as int);
        vstd::arithmetic::div_mod::lemma_div_by_multiple(4, workgroup_width as int);
    }
    assert(y / workgroup_height < 3) by (nonlinear_arith)
        requires
            y < image_height,
            image_height == 3 * workgroup_height,
            workgroup_height > 0,
    {
        vstd::arithmetic::div_mod::lemma_div_is_ordered(y as int, image_height as int, workgroup_height as int);
        vstd::arithmetic::div_mod::lemma_div_by_multiple(3, workgroup_height as int);
    }
}

/// The position of pixel (`x`, `y`) in a row-major framebuffer of rows
/// `image_width` pixels long.
pub open spec fn spec_pixel_index(x: u32, y: u32, image_width: u32) -> int {
    x + y * image_width
}

/// Computes the framebuffer position of pixel (`x`, `y`).
pub fn pixel_index(x: u32, y: u32, image_width: u32, image_height: u32) -> (index: usize)
    requires
        x < image_width,
        y < image_height,
        image_width * image_height <= usize::MAX,
    ensures
        index == spec_pixel_index(x, y, image_width),
        index < image_width * image_height,
{
    proof {
        lemma_pixel_index_in_frame(x, y, image_width, image_height);
    }
    x as usize + y as usize * image_width as usize
}

/// Pixel positions lie in the framebuffer.
pub proof fn lemma_pixel_index_in_frame(x: u32, y: u32, image_width: u32, image_height: u32)
    requires
        x < image_width,
        y < image_height,
    ensures
        0 <= spec_pixel_index(x, y, image_width) < image_width * image_height,
{
    assert(x + y * image_width < image_width * image_height) by (nonlinear_arith)
        requires
            x < image_width,
            y < image_height,
    {
        assert(y * image_width + image_width <= image_height * image_width) by (nonlinear_arith)
            requires y + 1 <= image_height, image_width >= 0;
    }
}

/// Distinct pixels of an image have distinct framebuffer positions.
pub proof fn lemma_pixel_index_injective(x1: u32, y1: u32, x2: u32, y2: u32, image_width: u32)
    requires
        x1 < image_width,
        x2 < image_width,
        spec_pixel_index(x1, y1, image_width) == spec_pixel_index(x2, y2, image_width),
    ensures
        x1 == x2,
        y1 == y2,
{
    lemma_division_bounds(spec_pixel_index(x1, y1, image_width), image_width as int, y1 as int);
    lemma_division_bounds(spec_pixel_index(x2, y2, image_width), image_width as int, y2 as int);
    assert(y1 * image_width + x1 == image_width * y1 + x1) by (nonlinear_arith);
    assert(y2 * image_width + x2 == image_width * y2 + x2) by (nonlinear_arith);
}

} // verus!
