use vstd::prelude::*;
use crate::grid::{
    GridGeometry, canvas_fits, cell_position, compute_geometry, round_quotient,
};
use crate::canvas::in_rect;
use crate::grid::lemma_cell_position_injective;
use crate::media::{File, FileType, catalog_of, get_media_files};

verus! {

/// One image to paint: its index in the catalog, its path, and the top-left pixel of its cell.
#[derive(Debug)]
pub struct PasteJob {
    pub index: u64,
    pub path: String,
    pub x: u32,
    pub y: u32,
}

impl View for PasteJob {
    type V = (int, Seq<char>, int, int);

    open spec fn view(&self) -> (int, Seq<char>, int, int) {
        (self.index as int, self.path@, self.x as int, self.y as int)
    }
}

/// The left edge of the cell of catalog index `i`.
pub open spec fn cell_x(i: int, side: int, cell_width: int) -> int {
    (i % side) * cell_width
}

/// The top edge of the cell of catalog index `i`.
pub open spec fn cell_y(i: int, side: int, cell_height: int) -> int {
    round_quotient(i, side) * cell_height
}

/// The job for the catalog entry at index `i` with path `path`.
pub open spec fn job_at(i: int, path: Seq<char>, side: int, cell_width: int, cell_height: int) -> (
    int,
    Seq<char>,
    int,
    int,
) {
    (i, path, cell_x(i, side, cell_width), cell_y(i, side, cell_height))
}

/// The jobs of a catalog: one per image entry, in catalog order, each placed by its index in the
/// whole catalog (video entries take a cell that is never painted).
pub open spec fn plan_of(
    catalog: Seq<(Seq<char>, FileType)>,
    side: int,
    cell_width: int,
    cell_height: int,
) -> Seq<(int, Seq<char>, int, int)>
    decreases catalog.len(),
{
    if catalog.len() == 0 {
        Seq::empty()
    } else {
        let i = catalog.len() - 1;
        plan_of(catalog.drop_last(), side, cell_width, cell_height) + if catalog.last().1
            == FileType::IMAGE {
            seq![job_at(i, catalog.last().0, side, cell_width, cell_height)]
        } else {
            Seq::empty()
        }
    }
}

/// An index inside a square grid has its rounded row no further than one past the last row.
pub proof fn lemma_row_bound(i: int, side: int)
    requires
        side > 0,
        0 <= i < side * side,
    ensures
        0 <= round_quotient(i, side) <= side,
{
    let r = round_quotient(i, side);
    let t = 2 * i + side;
    vstd::arithmetic::div_mod::lemma_fundamental_div_mod(t, 2 * side);
    let m = t % (2 * side);
    assert(0 <= r <= side) by (nonlinear_arith)
        requires
            t == (2 * side) * r + m,
            0 <= m < 2 * side,
            t == 2 * i + side,
            0 <= i < side * side,
            side > 0;
}

/// Lists the images of `catalog` to paint on the grid `g`, each with the offset of its cell.
pub fn paste_plan(catalog: &Vec<File>, g: &GridGeometry) -> (r: Vec<PasteJob>)
    requires
        catalog@.len() <= g.side * g.side,
        g.canvas_width == g.side * g.cell_width,
        g.canvas_height == g.side * g.cell_height,
    ensures
        r@.map_values(|j: PasteJob| j@) == plan_of(
            catalog@.map_values(|f: File| f@),
            g.side as int,
            g.cell_width as int,
            g.cell_height as int,
        ),
{
    let ghost cat = catalog@.map_values(|f: File| f@);
    let ghost (side, cw, ch) = (g.side as int, g.cell_width as int, g.cell_height as int);
    let mut jobs: Vec<PasteJob> = Vec::new();
    let mut k: usize = 0;
    while k < catalog.len()
        invariant
            k <= catalog@.len(),
            cat == catalog@.map_values(|f: File| f@),
            side == g.side,
            cw == g.cell_width,
            ch == g.cell_height,
            catalog@.len() <= g.side * g.side,
            g.canvas_width == g.side * g.cell_width,
            g.canvas_height == g.side * g.cell_height,
            jobs@.map_values(|j: PasteJob| j@) == plan_of(cat.subrange(0, k as int), side, cw, ch),
        decreases catalog@.len() - k,
    {
        assert(cat.subrange(0, k + 1).drop_last() =~= cat.subrange(0, k as int));
        let entry = &catalog[k];
        match entry.file_type {
            FileType::IMAGE => {
                assert(g.side > 0) by (nonlinear_arith)
                    requires k < g.side * g.side;
                let (row, col) = cell_position(k as u64, g.side);
                proof {
                    lemma_row_bound(k as int, side);
                    assert(col * g.cell_width <= g.canvas_width) by (nonlinear_arith)
                        requires col < g.side, g.canvas_width == g.side * g.cell_width;
                    assert(row * g.cell_height <= g.canvas_height) by (nonlinear_arith)
                        requires row <= g.side, g.canvas_height == g.side * g.cell_height;
                }
                let x: u32 = (col * g.cell_width as u64) as u32;
                let y: u32 = (row * g.cell_height as u64) as u32;
                let ghost prev = jobs@;
                jobs.push(PasteJob { index: k as u64, path: entry.path.clone(), x, y });
                assert(jobs@.map_values(|j: PasteJob| j@) =~= prev.map_values(|j: PasteJob| j@).push(
                    job_at(k as int, cat[k as int].0, side, cw, ch),
                ));
            },
            FileType::VIDEO => {},
        }
        k = k + 1;
    }
    assert(cat.subrange(0, k as int) =~= cat);
    jobs
}

/// Two walks that yield the same paths in the same order give the same catalog, hence the same
/// grid and the same images painted in the same cells.
pub proof fn lemma_same_walk_same_plan(p: Seq<String>, q: Seq<String>, cell_width: int, cell_height: int)
    requires
        p.len() == q.len(),
        forall|i: int| 0 <= i < p.len() ==> p[i]@ == q[i]@,
    ensures
        catalog_of(p) == catalog_of(q),
        forall|side: int|
            plan_of(catalog_of(p), side, cell_width, cell_height) == #[trigger] plan_of(
                catalog_of(q),
                side,
                cell_width,
                cell_height,
            ),
    decreases p.len(),
{
    if p.len() > 0 {
        lemma_same_walk_same_plan(p.drop_last(), q.drop_last(), cell_width, cell_height);
    }
}

/// Two equal-sized slots of a row of width `w` that share a point are the same slot.
proof fn lemma_same_slot(a: int, b: int, w: int, p: int)
    requires
        w > 0,
        a * w <= p < a * w + w,
        b * w <= p < b * w + w,
    ensures
        a == b,
{
    if a < b {
        assert(a * w + w <= b * w) by (nonlinear_arith)
            requires a < b, w > 0;
    } else if b < a {
        assert(b * w + w <= a * w) by (nonlinear_arith)
            requires b < a, w > 0;
    }
}

/// The cells of two distinct catalog indices cover disjoint pixels, so no paste overwrites
/// another image.
pub proof fn lemma_cells_disjoint(i: int, j: int, side: int, cell_width: int, cell_height: int, px: int, py: int)
    requires
        side > 0,
        0 <= i,
        0 <= j,
        i != j,
    ensures
        !(in_rect(px, py, cell_x(i, side, cell_width), cell_y(i, side, cell_height), cell_width, cell_height)
            && in_rect(px, py, cell_x(j, side, cell_width), cell_y(j, side, cell_height), cell_width, cell_height)),
{
    let (ci, cj) = (i % side, j % side);
    let (ri, rj) = (round_quotient(i, side), round_quotient(j, side));
    if in_rect(px, py, ci * cell_width, ri * cell_height, cell_width, cell_height) && in_rect(
        px,
        py,
        cj * cell_width,
        rj * cell_height,
        cell_width,
        cell_height,
    ) {
        lemma_same_slot(ci, cj, cell_width, px);
        lemma_same_slot(ri, rj, cell_height, py);
        lemma_cell_position_injective(i, j, side);
    }
}

/// Jobs that each sit at the cell of their catalog index, with indices strictly increasing.
pub open spec fn well_placed(jobs: Seq<(int, Seq<char>, int, int)>, side: int, cell_width: int, cell_height: int) -> bool {
    &&& side > 0
    &&& forall|m: int|
        0 <= m < jobs.len() ==> {
            &&& 0 <= (#[trigger] jobs[m]).0
            &&& jobs[m].2 == cell_x(jobs[m].0, side, cell_width)
            &&& jobs[m].3 == cell_y(jobs[m].0, side, cell_height)
        }
    &&& forall|m: int, l: int| 0 <= m < l < jobs.len() ==> (#[trigger] jobs[m]).0 < (#[trigger] jobs[l]).0
}

/// The plan of a catalog places each job at its own cell, indices increasing below the length.
pub proof fn lemma_plan_well_placed(catalog: Seq<(Seq<char>, FileType)>, side: int, cell_width: int, cell_height: int)
    requires
        side > 0,
    ensures
        well_placed(plan_of(catalog, side, cell_width, cell_height), side, cell_width, cell_height),
        forall|m: int|
            0 <= m < plan_of(catalog, side, cell_width, cell_height).len() ==> (#[trigger] plan_of(
                catalog,
                side,
                cell_width,
                cell_height,
            )[m]).0 < catalog.len(),
    decreases catalog.len(),
{
    if catalog.len() > 0 {
        lemma_plan_well_placed(catalog.drop_last(), side, cell_width, cell_height);
        let p = plan_of(catalog.drop_last(), side, cell_width, cell_height);
        let q = plan_of(catalog, side, cell_width, cell_height);
        assert forall|m: int| 0 <= m < p.len() implies q[m] == #[trigger] p[m] by {}
    }
}

/// Why no contact sheet can be laid out.
#[derive(Debug, Clone, Copy, PartialEq, Eq, Structural)]
pub enum SheetError {
    /// No media file was found: there is nothing to lay out.
    EmptyCatalog,
    /// The canvas would be wider or taller than `u32::MAX` pixels.
    CanvasTooLarge,
}

/// What a run paints: the grid and, in catalog order, the images with their cells.
#[derive(Debug)]
pub struct SheetPlan {
    pub geometry: GridGeometry,
    pub jobs: Vec<PasteJob>,
}

/// Lays out the contact sheet for the files a directory walk yielded: catalogs them, sizes the
/// grid for the whole catalog (videos included) and places every image at its catalog index.
pub fn plan_sheet(paths: &Vec<String>, cell_width: u32, cell_height: u32) -> (r: Result<
    SheetPlan,
    SheetError,
>)
    ensures
        catalog_of(paths@).len() == 0 ==> r == Err::<SheetPlan, SheetError>(SheetError::EmptyCatalog),
        catalog_of(paths@).len() > 0 && !canvas_fits(
            catalog_of(paths@).len() as int,
            cell_width as int,
            cell_height as int,
        ) ==> r == Err::<SheetPlan, SheetError>(SheetError::CanvasTooLarge),
        r is Ok <==> catalog_of(paths@).len() > 0 && canvas_fits(
            catalog_of(paths@).len() as int,
            cell_width as int,
            cell_height as int,
        ),
        r matches Ok(p) ==> {
            &&& p.geometry.is_geometry_of(
                catalog_of(paths@).len() as int,
                cell_width as int,
                cell_height as int,
            )
            &&& p.jobs@.map_values(|j: PasteJob| j@) == plan_of(
                catalog_of(paths@),
                p.geometry.side as int,
                cell_width as int,
                cell_height as int,
            )
            &&& well_placed(p.jobs@.map_values(|j: PasteJob| j@), p.geometry.side as int, cell_width as int, cell_height as int)
        },
{
    let catalog = get_media_files(paths);
    if catalog.len() == 0 {
        return Err(SheetError::EmptyCatalog);
    }
    match compute_geometry(catalog.len(), cell_width, cell_height) {
        None => Err(SheetError::CanvasTooLarge),
        Some(geometry) => {
            let jobs = paste_plan(&catalog, &geometry);
            proof {
                assert(geometry.side > 0) by (nonlinear_arith)
                    requires catalog@.len() <= geometry.side * geometry.side, catalog@.len() > 0;
                lemma_plan_well_placed(
                    catalog@.map_values(|f: File| f@),
                    geometry.side as int,
                    cell_width as int,
                    cell_height as int,
                );
            }
            Ok(SheetPlan { geometry, jobs })
        },
    }
}

} // verus!
