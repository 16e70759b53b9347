use vstd::prelude::*;
use image::DynamicImage;
use crate::grid::GridGeometry;
use crate::sheet::{PasteJob, SheetPlan, lemma_cells_disjoint, well_placed};

verus! {

#[verifier::external_type_specification]
#[verifier::external_body]
pub struct ExDynamicImage(DynamicImage);

/// An 8-bit RGB pixel: red, green, blue.
pub type Rgb = (u8, u8, u8);

/// The width of an image, in pixels.
pub uninterp spec fn img_width(img: DynamicImage) -> nat;

/// The height of an image, in pixels.
pub uninterp spec fn img_height(img: DynamicImage) -> nat;

/// The image stores 8-bit RGB pixels.
pub uninterp spec fn holds_rgb8(img: DynamicImage) -> bool;

/// The pixels of an 8-bit RGB image, by `(x, y)`.
pub uninterp spec fn rgb_pixels(img: DynamicImage) -> Map<(int, int), Rgb>;

/// The bytes are an image in a supported format.
pub uninterp spec fn decodes(bytes: Seq<u8>) -> bool;

/// `(x, y)` is a pixel of `img`.
pub open spec fn in_bounds(img: DynamicImage, x: int, y: int) -> bool {
    0 <= x < img_width(img) && 0 <= y < img_height(img)
}

/// The pixel of `img` at `(x, y)`.
pub open spec fn pixel(img: DynamicImage, x: int, y: int) -> Rgb {
    rgb_pixels(img)[(x, y)]
}

/// `(px, py)` lies in the rectangle of size `width` by `height` whose top-left corner is `(x, y)`.
pub open spec fn in_rect(px: int, py: int, x: int, y: int, width: int, height: int) -> bool {
    x <= px < x + width && y <= py < y + height
}

/// Two RGB images of the same size with the same pixels.
pub open spec fn same_picture(a: DynamicImage, b: DynamicImage) -> bool {
    &&& holds_rgb8(a)
    &&& holds_rgb8(b)
    &&& img_width(a) == img_width(b)
    &&& img_height(a) == img_height(b)
    &&& forall|px: int, py: int| in_bounds(a, px, py) ==> #[trigger] pixel(a, px, py) == pixel(b, px, py)
}

/// `after` is `before` with `top` pasted at `(x, y)`: same size, every pixel covered by `top`
/// replaced by `top`'s pixel, every other pixel kept. What falls outside `before` is dropped.
pub open spec fn pasted_at(before: DynamicImage, after: DynamicImage, top: DynamicImage, x: int, y: int) -> bool {
    &&& holds_rgb8(after)
    &&& img_width(after) == img_width(before)
    &&& img_height(after) == img_height(before)
    &&& forall|px: int, py: int|
        in_bounds(after, px, py) ==> #[trigger] pixel(after, px, py) == if in_rect(
            px,
            py,
            x,
            y,
            img_width(top) as int,
            img_height(top) as int,
        ) {
            pixel(top, px - x, py - y)
        } else {
            pixel(before, px, py)
        }
}

/// Why one cell of the sheet was left unpainted; the run goes on past it.
#[derive(Debug, Clone, Copy, PartialEq, Eq, Structural)]
pub enum CellError {
    /// The file's bytes are not an image in a supported format.
    Undecodable,
}

/// Relies on image::load_from_memory: whether decoding succeeds depends on the bytes alone.
#[verifier::external_body]
fn decode(bytes: &[u8]) -> (r: Option<DynamicImage>)
    ensures
        r is Some <==> decodes(bytes@),
{
    image::load_from_memory(bytes).ok()
}

/// Relies on DynamicImage::resize_exact with the triangle filter: a new image of exactly the
/// given size, the source stretched to it whatever its aspect ratio.
#[verifier::external_body]
fn stretch(img: &DynamicImage, width: u32, height: u32) -> (r: DynamicImage)
    requires
        width * height * 16 <= usize::MAX,
    ensures
        img_width(r) == width,
        img_height(r) == height,
{
    img.resize_exact(width, height, image::imageops::FilterType::Triangle)
}

/// Relies on DynamicImage::to_rgb8: the image converted to 8-bit RGB, same size; an image that
/// already is 8-bit RGB is copied as it is.
#[verifier::external_body]
fn to_rgb8(img: &DynamicImage) -> (r: DynamicImage)
    ensures
        holds_rgb8(r),
        img_width(r) == img_width(*img),
        img_height(r) == img_height(*img),
        holds_rgb8(*img) ==> same_picture(r, *img),
{
    DynamicImage::ImageRgb8(img.to_rgb8())
}

/// Relies on DynamicImage::new_rgb8: an 8-bit RGB image of the given size, every pixel zero.
#[verifier::external_body]
fn black_rgb8(width: u32, height: u32) -> (r: DynamicImage)
    requires
        width * height * 3 <= usize::MAX,
    ensures
        holds_rgb8(r),
        img_width(r) == width,
        img_height(r) == height,
        forall|px: int, py: int|
            0 <= px < width && 0 <= py < height ==> #[trigger] rgb_pixels(r)[(px, py)] == (0u8, 0u8, 0u8),
{
    DynamicImage::new_rgb8(width, height)
}

/// Relies on imageops::overlay: with both images 8-bit RGB (so every pixel is opaque), each
/// pixel of `bottom` under `top` placed at `(x, y)` is replaced by `top`'s, the rest kept,
/// and what falls outside `bottom` is clipped.
#[verifier::external_body]
fn overlay(bottom: &mut DynamicImage, top: &DynamicImage, x: i64, y: i64)
    requires
        holds_rgb8(*old(bottom)),
        holds_rgb8(*top),
        x >= 0,
        y >= 0,
    ensures
        pasted_at(*old(bottom), *final(bottom), *top, x as int, y as int),
{
    image::imageops::overlay(bottom, top, x, y)
}

/// The number of bytes of an 8-bit RGB canvas for the grid fits in memory addresses.
pub open spec fn canvas_addressable(g: GridGeometry) -> bool {
    g.canvas_width * g.canvas_height * 3 <= usize::MAX
}

/// A black canvas for the whole grid, or `None` when its pixels cannot be addressed.
pub fn blank_canvas(g: &GridGeometry) -> (r: Option<DynamicImage>)
    ensures
        r is Some <==> canvas_addressable(*g),
        r matches Some(c) ==> {
            &&& holds_rgb8(c)
            &&& img_width(c) == g.canvas_width
            &&& img_height(c) == g.canvas_height
            &&& forall|px: int, py: int| in_bounds(c, px, py) ==> #[trigger] pixel(c, px, py) == (0u8, 0u8, 0u8)
        },
{
    assert((g.canvas_width as u128) * (g.canvas_height as u128) * 3 <= 0xffff_ffff_u128 * 0xffff_ffff_u128 * 3)
        by (nonlinear_arith)
        requires g.canvas_width <= 0xffff_ffff_u32, g.canvas_height <= 0xffff_ffff_u32;
    let bytes: u128 = (g.canvas_width as u128) * (g.canvas_height as u128) * 3;
    if bytes > usize::MAX as u128 {
        return None;
    }
    let c = black_rgb8(g.canvas_width, g.canvas_height);
    assert forall|px: int, py: int| in_bounds(c, px, py) implies #[trigger] pixel(c, px, py) == (0u8, 0u8, 0u8) by {
        assert(rgb_pixels(c)[(px, py)] == (0u8, 0u8, 0u8));
    }
    Some(c)
}

/// Decodes one image and stretches it to a `width` by `height` cell of 8-bit RGB pixels.
pub fn normalize_cell(bytes: &[u8], width: u32, height: u32) -> (r: Result<DynamicImage, CellError>)
    requires
        width * height * 16 <= usize::MAX,
    ensures
        r is Err <==> !decodes(bytes@),
        r matches Ok(c) ==> holds_rgb8(c) && img_width(c) == width && img_height(c) == height,
{
    let img = match decode(bytes) {
        Some(img) => img,
        None => return Err(CellError::Undecodable),
    };
    let cell = stretch(&img, width, height);
    Ok(to_rgb8(&cell))
}

/// Pastes a normalized cell image at the offset of `job`, pixel for pixel, clipped to the canvas.
pub fn paste_cell(canvas: &mut DynamicImage, cell: &DynamicImage, job: &PasteJob)
    requires
        holds_rgb8(*old(canvas)),
        holds_rgb8(*cell),
    ensures
        pasted_at(*old(canvas), *final(canvas), *cell, job.x as int, job.y as int),
{
    overlay(canvas, cell, job.x as i64, job.y as i64);
}

/// Decodes one image, stretches it to a cell and paints it over the cell of `job`; on
/// undecodable bytes leaves the canvas as it was.
pub fn paint_cell(canvas: &mut DynamicImage, bytes: &[u8], job: &PasteJob, g: &GridGeometry) -> (r:
    Result<(), CellError>)
    requires
        holds_rgb8(*old(canvas)),
        g.cell_width * g.cell_height * 16 <= usize::MAX,
    ensures
        r is Err <==> !decodes(bytes@),
        r is Err ==> *final(canvas) == *old(canvas),
        r is Ok ==> exists|cell: DynamicImage|
            {
                &&& holds_rgb8(cell)
                &&& img_width(cell) == g.cell_width
                &&& img_height(cell) == g.cell_height
                &&& #[trigger] pasted_at(*old(canvas), *final(canvas), cell, job.x as int, job.y as int)
            },
{
    let cell = match normalize_cell(bytes, g.cell_width, g.cell_height) {
        Ok(cell) => cell,
        Err(e) => return Err(e),
    };
    paste_cell(canvas, &cell, job);
    Ok(())
}

/// `canvas` shows the RGB image `cell`, of size `cell_width` by `cell_height`, in the rectangle
/// at `(x, y)`, as far as that rectangle lies on the canvas.
pub open spec fn shows_cell(canvas: DynamicImage, cell: DynamicImage, x: int, y: int, cell_width: int, cell_height: int) -> bool {
    &&& holds_rgb8(cell)
    &&& img_width(cell) == cell_width
    &&& img_height(cell) == cell_height
    &&& forall|px: int, py: int|
        in_bounds(canvas, px, py) && in_rect(px, py, x, y, cell_width, cell_height) ==> #[trigger] pixel(
            canvas,
            px,
            py,
        ) == pixel(cell, px - x, py - y)
}

/// Some job among the first `done.len()` was painted (`done[k]`) over the pixel `(px, py)`.
pub open spec fn painted_over(
    jobs: Seq<(int, Seq<char>, int, int)>,
    done: Seq<bool>,
    cell_width: int,
    cell_height: int,
    px: int,
    py: int,
) -> bool {
    exists|k: int|
        0 <= k < done.len() && #[trigger] done[k] && in_rect(px, py, jobs[k].2, jobs[k].3, cell_width, cell_height)
}

/// Paints every job of `plan` whose bytes were read (`contents[k]` for `plan.jobs[k]`), in
/// order, going on past unreadable and undecodable ones. Returns what became of each job.
/// Every pixel outside the cells actually painted, such as the cells of videos and of
/// images that failed, keeps its value.
pub fn render_sheet(canvas: &mut DynamicImage, plan: &SheetPlan, contents: &Vec<Option<Vec<u8>>>) -> (r: Vec<bool>)
    requires
        holds_rgb8(*old(canvas)),
        contents@.len() == plan.jobs@.len(),
        plan.geometry.cell_width * plan.geometry.cell_height * 16 <= usize::MAX,
        well_placed(
            plan.jobs@.map_values(|j: PasteJob| j@),
            plan.geometry.side as int,
            plan.geometry.cell_width as int,
            plan.geometry.cell_height as int,
        ),
    ensures
        r@.len() == plan.jobs@.len(),
        forall|k: int|
            0 <= k < r@.len() && #[trigger] r@[k] ==> exists|cell: DynamicImage|
                #[trigger] shows_cell(
                    *final(canvas),
                    cell,
                    plan.jobs@[k].x as int,
                    plan.jobs@[k].y as int,
                    plan.geometry.cell_width as int,
                    plan.geometry.cell_height as int,
                ),
        forall|k: int|
            0 <= k < r@.len() ==> (#[trigger] r@[k] <==> (contents@[k] matches Some(b) && decodes(b@))),
        holds_rgb8(*final(canvas)),
        img_width(*final(canvas)) == img_width(*old(canvas)),
        img_height(*final(canvas)) == img_height(*old(canvas)),
        forall|px: int, py: int|
            in_bounds(*old(canvas), px, py) && !painted_over(
                plan.jobs@.map_values(|j: PasteJob| j@),
                r@,
                plan.geometry.cell_width as int,
                plan.geometry.cell_height as int,
                px,
                py,
            ) ==> #[trigger] pixel(*final(canvas), px, py) == pixel(*old(canvas), px, py),
{
    let ghost start = *canvas;
    let ghost jobs = plan.jobs@.map_values(|j: PasteJob| j@);
    let ghost (cw, ch) = (plan.geometry.cell_width as int, plan.geometry.cell_height as int);
    let mut done: Vec<bool> = Vec::new();
    let mut k: usize = 0;
    while k < plan.jobs.len()
        invariant
            k <= plan.jobs@.len(),
            done@.len() == k,
            contents@.len() == plan.jobs@.len(),
            jobs == plan.jobs@.map_values(|j: PasteJob| j@),
            cw == plan.geometry.cell_width,
            ch == plan.geometry.cell_height,
            plan.geometry.cell_width * plan.geometry.cell_height * 16 <= usize::MAX,
            well_placed(jobs, plan.geometry.side as int, cw, ch),
            forall|m: int|
                0 <= m < k && #[trigger] done@[m] ==> exists|cell: DynamicImage|
                    #[trigger] shows_cell(*canvas, cell, jobs[m].2, jobs[m].3, cw, ch),
            forall|m: int| 0 <= m < k ==> (#[trigger] done@[m] <==> (contents@[m] matches Some(b) && decodes(b@))),
            holds_rgb8(*canvas),
            img_width(*canvas) == img_width(start),
            img_height(*canvas) == img_height(start),
            forall|px: int, py: int|
                in_bounds(start, px, py) && !painted_over(jobs, done@, cw, ch, px, py) ==> #[trigger] pixel(
                    *canvas,
                    px,
                    py,
                ) == pixel(start, px, py),
        decreases plan.jobs@.len() - k,
    {
        let ghost before = *canvas;
        let ghost done_before = done@;
        let ok: bool = match &contents[k] {
            Some(bytes) => paint_cell(canvas, bytes.as_slice(), &plan.jobs[k], &plan.geometry).is_ok(),
            None => false,
        };
        done.push(ok);
        proof {
            let side = plan.geometry.side as int;
            let (xk, yk) = (jobs[k as int].2, jobs[k as int].3);
            assert(jobs[k as int] == plan.jobs@[k as int]@);
            assert forall|m: int| 0 <= m <= k && #[trigger] done@[m] implies exists|cell: DynamicImage|
                #[trigger] shows_cell(*canvas, cell, jobs[m].2, jobs[m].3, cw, ch) by {
                if m == k {
                    let cell = choose|cell: DynamicImage|
                        {
                            &&& holds_rgb8(cell)
                            &&& img_width(cell) == cw
                            &&& img_height(cell) == ch
                            &&& #[trigger] pasted_at(before, *canvas, cell, xk, yk)
                        };
                    assert(shows_cell(*canvas, cell, xk, yk, cw, ch));
                } else {
                    assert(done_before[m]);
                    let cell = choose|cell: DynamicImage| #[trigger] shows_cell(before, cell, jobs[m].2, jobs[m].3, cw, ch);
                    assert(jobs[m].0 < jobs[k as int].0);
                    assert forall|px: int, py: int|
                        in_bounds(*canvas, px, py) && in_rect(px, py, jobs[m].2, jobs[m].3, cw, ch) implies #[trigger] pixel(
                            *canvas,
                            px,
                            py,
                        ) == pixel(cell, px - jobs[m].2, py - jobs[m].3) by {
                        lemma_cells_disjoint(jobs[m].0, jobs[k as int].0, side, cw, ch, px, py);
                        if ok {
                            let top = choose|top: DynamicImage|
                                {
                                    &&& holds_rgb8(top)
                                    &&& img_width(top) == cw
                                    &&& img_height(top) == ch
                                    &&& #[trigger] pasted_at(before, *canvas, top, xk, yk)
                                };
                            assert(pixel(*canvas, px, py) == pixel(before, px, py));
                        }
                    }
                    assert(shows_cell(*canvas, cell, jobs[m].2, jobs[m].3, cw, ch));
                }
            }
            assert forall|px: int, py: int|
                in_bounds(start, px, py) && !painted_over(jobs, done@, cw, ch, px, py) implies #[trigger] pixel(
                    *canvas,
                    px,
                    py,
                ) == pixel(start, px, py) by {
                assert forall|m: int| 0 <= m < done_before.len() && #[trigger] done_before[m] implies !in_rect(
                    px,
                    py,
                    jobs[m].2,
                    jobs[m].3,
                    cw,
                    ch,
                ) by {
                    assert(done@[m] == done_before[m]);
                }
                if ok {
                    assert(done@[k as int]);
                    assert(!in_rect(px, py, jobs[k as int].2, jobs[k as int].3, cw, ch));
                    let cell = choose|cell: DynamicImage|
                        {
                            &&& holds_rgb8(cell)
                            &&& img_width(cell) == cw
                            &&& img_height(cell) == ch
                            &&& #[trigger] pasted_at(before, *canvas, cell, plan.jobs@[k as int].x as int, plan.jobs@[k as int].y as int)
                        };
                    assert(pixel(*canvas, px, py) == pixel(before, px, py));
                }
            }
        }
        k = k + 1;
    }
    done
}

/// A canvas exactly the size of a cell, showing that cell at the origin, is that cell's
/// picture: no background pixel remains.
pub proof fn lemma_single_cell_fills_canvas(canvas: DynamicImage, cell: DynamicImage)
    requires
        holds_rgb8(canvas),
        shows_cell(canvas, cell, 0, 0, img_width(canvas) as int, img_height(canvas) as int),
    ensures
        same_picture(canvas, cell),
{
    assert forall|px: int, py: int| in_bounds(canvas, px, py) implies #[trigger] pixel(canvas, px, py) == pixel(
        cell,
        px,
        py,
    ) by {
        assert(pixel(canvas, px, py) == pixel(cell, px - 0, py - 0));
    }
}

/// A cell placed wholly to the right of or below the canvas leaves every pixel as it was.
pub proof fn lemma_offscreen_paste_keeps_canvas(
    before: DynamicImage,
    after: DynamicImage,
    top: DynamicImage,
    x: int,
    y: int,
)
    requires
        holds_rgb8(before),
        pasted_at(before, after, top, x, y),
        x >= img_width(before) || y >= img_height(before),
    ensures
        same_picture(after, before),
{
}

/// Pastes into disjoint rectangles commute: the canvas does not depend on their order.
pub proof fn lemma_disjoint_pastes_commute(
    c0: DynamicImage,
    a1: DynamicImage,
    a2: DynamicImage,
    b1: DynamicImage,
    b2: DynamicImage,
    t1: DynamicImage,
    x1: int,
    y1: int,
    t2: DynamicImage,
    x2: int,
    y2: int,
)
    requires
        pasted_at(c0, a1, t1, x1, y1),
        pasted_at(a1, a2, t2, x2, y2),
        pasted_at(c0, b1, t2, x2, y2),
        pasted_at(b1, b2, t1, x1, y1),
        forall|px: int, py: int|
            !(in_rect(px, py, x1, y1, img_width(t1) as int, img_height(t1) as int) && in_rect(
                px,
                py,
                x2,
                y2,
                img_width(t2) as int,
                img_height(t2) as int,
            )),
    ensures
        same_picture(a2, b2),
{
    assert forall|px: int, py: int| in_bounds(a2, px, py) implies #[trigger] pixel(a2, px, py) == pixel(
        b2,
        px,
        py,
    ) by {
        assert(pixel(a1, px, py) == if in_rect(px, py, x1, y1, img_width(t1) as int, img_height(t1) as int) {
            pixel(t1, px - x1, py - y1)
        } else {
            pixel(c0, px, py)
        });
        assert(pixel(b1, px, py) == if in_rect(px, py, x2, y2, img_width(t2) as int, img_height(t2) as int) {
            pixel(t2, px - x2, py - y2)
        } else {
            pixel(c0, px, py)
        });
    }
}

} // verus!
