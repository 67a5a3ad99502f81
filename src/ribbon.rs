//! A ribbon: a container that lays its cells out in a row, in a column, or
//! stacked and centred, and routes events to them.
//!
//! Layout is exact. A row or column is solved in units of `1 / den`, `den`
//! being the denominator of the ribbon's size: each cell's main length is
//! exactly its solved size, the cells lie end to end from zero, and their
//! lengths add up to what the solver shares out. A stacked cell is
//! `size * num / den` of the ribbon, centred, also exactly. Every box, every
//! size handed to a child and every point moved into a child's space is kept
//! in lowest terms, so denominators grow only as far as the exact values need.
//! Where such a value does not fit in `i64` the ribbon reports
//! `LayoutError::OutOfRange` and keeps its former layout.
use vstd::prelude::*;

use crate::event::{Delivery, ElementState, MouseButton, PanelEvent};
use crate::fraction::{lemma_reduced, reduce, reduced};
use crate::geometry::{
    fits_i64, in_box, is_point_in_box, is_translated_point_in_box, reduce_size, size_of, Size,
    Vector2,
};
use crate::solver::{adjust_cells, scaled_size, solve, solved_scale, CellLimit};
use crate::solver::limits_wf;
use crate::solver_laws::{
    lemma_sizes_fit, lemma_solution_fills_extent, min_total, no_binding_max, solved_upto,
};

verus! {

/// The most cells a ribbon holds: the solver counts cells in `u32`.
pub const MAX_CELLS: usize = 0xffff_ffff;

/// Why a layout or an event could not be carried out exactly.
#[derive(Clone, Copy, Debug, PartialEq, Eq, Structural)]
pub enum LayoutError {
    /// An exact length, position or denominator in lowest terms does not fit
    /// in `i64`, or a bound in the ribbon's units does not fit the solver's
    /// `u32`.
    OutOfRange,
}

/// How a ribbon arranges its cells.
#[derive(Clone, Copy, Debug, PartialEq, Eq, Structural)]
pub enum RibbonOrientation {
    Stack,
    Horizontal,
    Vertical,
}

/// One child of a ribbon: the child's identity, the box the ribbon gives it
/// (offset and size over one denominator), and its limit. Two cells are equal
/// when they hold the same child.
#[derive(Clone, Copy, Debug)]
pub struct Cell {
    pub id: usize,
    pub offset: Vector2,
    pub size: Size,
    pub limit: CellLimit,
}

impl PartialEq for Cell {
    fn eq(&self, other: &Cell) -> (r: bool) {
        self.id == other.id
    }
}

impl vstd::std_specs::cmp::PartialEqSpecImpl for Cell {
    open spec fn obeys_eq_spec() -> bool {
        true
    }

    open spec fn eq_spec(&self, other: &Cell) -> bool {
        self.id == other.id
    }
}

/// A limit a ribbon can lay out: a positive ratio and content fractions with
/// positive denominators.
pub open spec fn cell_limit_wf(l: CellLimit) -> bool {
    l.ratio > 0 && l.content_ratio.wf()
}

/// A cell's box: offset and size over one positive denominator, a size of
/// at least zero, and a far edge that fits in `i64`.
pub open spec fn box_wf(c: Cell) -> bool {
    &&& c.size.wf()
    &&& c.offset.den == c.size.den
    &&& c.offset.x + c.size.x <= i64::MAX
    &&& c.offset.y + c.size.y <= i64::MAX
}

impl Cell {
    /// A cell for the child `id`, not yet laid out.
    pub fn new(id: usize, limit: CellLimit) -> (r: Cell)
        ensures
            r.id == id,
            r.limit == limit,
            r.offset == (Vector2 { x: 0, y: 0, den: 1 }),
            r.size == (Size { x: 0, y: 0, den: 1 }),
            box_wf(r),
    {
        Cell { id, offset: Vector2 { x: 0, y: 0, den: 1 }, size: Size { x: 0, y: 0, den: 1 }, limit }
    }

    /// `point` moved into this cell's own space, exactly, where that fits in
    /// `i64`.
    pub fn translate_point(&self, point: Vector2) -> (r: Option<Vector2>)
        requires
            point.wf(),
            self.offset.wf(),
        ensures
            r is Some <==> Vector2::translation_fits(point, self.offset),
            r is Some ==> r->0 == Vector2::translated(point, self.offset) && r->0.wf(),
    {
        Vector2::translate(point, self.offset)
    }

    /// Gives the cell the box at `offset` of extent `size`.
    pub fn resize(&mut self, offset: Vector2, size: Size)
        ensures
            final(self).offset == offset,
            final(self).size == size,
            final(self).id == old(self).id,
            final(self).limit == old(self).limit,
    {
        self.offset = offset;
        self.size = size;
    }

    /// Whether a point in this cell's own space lies in the cell, edges
    /// included.
    pub fn is_translated_point_in_cell(&self, point: Vector2) -> (r: bool)
        requires
            point.wf(),
            self.size.den > 0,
        ensures
            r == in_box(point, Vector2 { x: 0, y: 0, den: self.size.den }, self.size),
    {
        is_translated_point_in_box(point, self.size)
    }
}

pub open spec fn cell_limits(cells: Seq<Cell>) -> Seq<CellLimit> {
    cells.map_values(|c: Cell| c.limit)
}

/// Whether a limit's bounds, in units of `1 / den`, fit the solver's `u32`.
pub open spec fn limit_scales(l: CellLimit, den: int) -> bool {
    &&& l.min_size * den <= u32::MAX
    &&& l.max_size is Some ==> l.max_size->0 * den <= u32::MAX
}

/// A limit with its bounds in units of `1 / den`.
pub open spec fn scaled_limit(l: CellLimit, den: int) -> CellLimit {
    CellLimit {
        min_size: (l.min_size * den) as u32,
        max_size: match l.max_size {
            Some(m) => Some((m * den) as u32),
            None => None,
        },
        ..l
    }
}

pub open spec fn scaled_limits(limits: Seq<CellLimit>, den: int) -> Seq<CellLimit> {
    limits.map_values(|l: CellLimit| scaled_limit(l, den))
}

/// The extent along the axis the cells share, and across it.
pub open spec fn main_of(size: Size, hor: bool) -> int {
    if hor {
        size.x as int
    } else {
        size.y as int
    }
}

pub open spec fn cross_of(size: Size, hor: bool) -> int {
    if hor {
        size.y as int
    } else {
        size.x as int
    }
}

/// Numerator of cell `i`'s length along a row solved over `total`: its solved
/// size times the solver's scale.
pub open spec fn row_len(scaled: Seq<CellLimit>, total: int, i: int) -> int {
    scaled_size(scaled[i], solve(scaled, total).locks[i], solve(scaled, total))
}

/// Numerator of cell `k`'s position along a row: the cells before it, end to
/// end from zero.
pub open spec fn row_pos(scaled: Seq<CellLimit>, total: int, k: int) -> int
    decreases k,
{
    if k <= 0 {
        0
    } else {
        row_pos(scaled, total, k - 1) + row_len(scaled, total, k - 1)
    }
}

/// The row's inputs fit the solver: every bound in units of `1 / size.den`
/// fits in `u32`.
pub open spec fn row_inputs_fit(limits: Seq<CellLimit>, size: Size, hor: bool) -> bool {
    &&& forall|i: int| 0 <= i < limits.len() ==> limit_scales(#[trigger] limits[i], size.den as int)
}

/// The parts of a cell's box: offset `x`, `y`, size `x`, `y`, and their
/// common denominator.
pub open spec fn box_parts(c: Cell) -> Seq<int> {
    seq![c.offset.x as int, c.offset.y as int, c.size.x as int, c.size.y as int, c.size.den as int]
}

/// Box parts that can be written in `i64`, far edges included.
pub open spec fn box_fits(s: Seq<int>) -> bool {
    &&& fits_i64(s)
    &&& s[0] + s[2] <= i64::MAX
    &&& s[1] + s[3] <= i64::MAX
}

/// Cell `i`'s exact box in a row (`hor`) or column of these limits at this
/// size, before reduction: over the denominator `scale * size.den`, its main
/// length is its solved size, its position the lengths before it, its cross
/// extent the whole of the ribbon's.
pub open spec fn row_box(limits: Seq<CellLimit>, size: Size, hor: bool, i: int) -> Seq<int> {
    let scaled = scaled_limits(limits, size.den as int);
    let total = main_of(size, hor);
    let scale = solved_scale(scaled, total);
    let len = row_len(scaled, total, i);
    let pos = row_pos(scaled, total, i);
    let cross = cross_of(size, hor) * scale;
    let den = scale * size.den;
    if hor {
        seq![pos, 0, len, cross, den]
    } else {
        seq![0, pos, cross, len, den]
    }
}

/// A row or column of these limits at this size can be laid out: the solver's
/// inputs fit, the far end of the last cell fits in `i128`, and every cell's
/// box in lowest terms fits in `i64`.
pub open spec fn row_fits(limits: Seq<CellLimit>, size: Size, hor: bool) -> bool {
    let scaled = scaled_limits(limits, size.den as int);
    let total = main_of(size, hor);
    &&& row_inputs_fit(limits, size, hor)
    &&& row_pos(scaled, total, limits.len() as int) <= i128::MAX
    &&& forall|i: int| 0 <= i < limits.len() ==> box_fits(reduced(#[trigger] row_box(limits, size, hor, i)))
}

/// Cell `c` is cell `i` of a row or column: its box is the exact box in
/// lowest terms.
pub open spec fn row_placed(c: Cell, limits: Seq<CellLimit>, size: Size, hor: bool, i: int) -> bool {
    &&& c.offset.den == c.size.den
    &&& box_parts(c) == reduced(row_box(limits, size, hor, i))
}

/// A stacked cell's exact box before reduction, over
/// `2 * size.den * den_x * den_y`: content `size * num / den` of the ribbon on
/// each axis, centred.
pub open spec fn stack_box(l: CellLimit, size: Size) -> Seq<int> {
    let nx = l.content_ratio.x.num as int;
    let dx = l.content_ratio.x.den as int;
    let ny = l.content_ratio.y.num as int;
    let dy = l.content_ratio.y.den as int;
    seq![
        size.x * (dx - nx) * dy,
        size.y * (dy - ny) * dx,
        2 * size.x * nx * dy,
        2 * size.y * ny * dx,
        2 * size.den * dx * dy,
    ]
}

/// A stacked cell of this limit at this size can be laid out: its exact box
/// fits in `i128`, and in lowest terms in `i64`.
pub open spec fn stack_fits(l: CellLimit, size: Size) -> bool {
    &&& stack_box(l, size)[2] <= i128::MAX
    &&& stack_box(l, size)[3] <= i128::MAX
    &&& stack_box(l, size)[4] <= i128::MAX
    &&& box_fits(reduced(stack_box(l, size)))
}

/// A stacked cell: its content ratio of the ribbon's size, centred, in lowest
/// terms. Over its denominator, `size.x / den == ribbon.x * num_x / den_x` and
/// `offset.x / den == (ribbon.x - size.x / den) / 2`, and the same for `y`.
pub open spec fn stacked(c: Cell, size: Size) -> bool {
    &&& c.offset.den == c.size.den
    &&& box_parts(c) == reduced(stack_box(c.limit, size))
}

/// The cells with these limits can be laid out exactly at this size.
pub open spec fn layout_fits(limits: Seq<CellLimit>, orientation: RibbonOrientation, size: Size) -> bool {
    match orientation {
        RibbonOrientation::Stack => forall|i: int|
            0 <= i < limits.len() ==> stack_fits(#[trigger] limits[i], size),
        RibbonOrientation::Horizontal => row_fits(limits, size, true),
        RibbonOrientation::Vertical => row_fits(limits, size, false),
    }
}

/// Cell `i` sits where the orientation puts it in a ribbon of extent `size`.
pub open spec fn placed(
    cells: Seq<Cell>,
    i: int,
    orientation: RibbonOrientation,
    size: Size,
) -> bool {
    match orientation {
        RibbonOrientation::Stack => stacked(cells[i], size),
        RibbonOrientation::Horizontal => row_placed(cells[i], cell_limits(cells), size, true, i),
        RibbonOrientation::Vertical => row_placed(cells[i], cell_limits(cells), size, false, i),
    }
}

/// Cell `i` holds the point `p`: `p`, moved into the cell's own space, lies
/// within the cell's size, edges included.
pub open spec fn cell_holds(cells: Seq<Cell>, i: int, p: Vector2) -> bool {
    in_box(p, cells[i].offset, cells[i].size)
}

/// The first cell, from `k` on, that holds `p`.
pub open spec fn first_hit(cells: Seq<Cell>, p: Vector2, k: int) -> Option<int>
    decreases cells.len() - k,
{
    if k < 0 || k >= cells.len() {
        None
    } else if cell_holds(cells, k, p) {
        Some(k)
    } else {
        first_hit(cells, p, k + 1)
    }
}

/// The layout state of a ribbon: its orientation, its cells in insertion
/// order, the last cursor position it was told of, and its own size.
pub struct Ribbon {
    pub orientation: RibbonOrientation,
    pub cells: Vec<Cell>,
    pub mouse_pos: Option<Vector2>,
    pub size: Size,
}

impl Ribbon {
    pub open spec fn wf(&self) -> bool {
        &&& self.cells@.len() <= MAX_CELLS
        &&& self.size.wf()
        &&& forall|i: int|
            0 <= i < self.cells@.len() ==> cell_limit_wf((#[trigger] self.cells@[i]).limit)
                && box_wf(self.cells@[i])
        &&& self.mouse_pos is Some ==> self.mouse_pos->0.wf()
    }

    /// `self` is `old`, field by field.
    pub open spec fn unchanged(&self, old: Ribbon) -> bool {
        &&& self.orientation == old.orientation
        &&& self.cells@ == old.cells@
        &&& self.mouse_pos == old.mouse_pos
        &&& self.size == old.size
    }

    /// Every cell sits where the orientation puts it.
    pub open spec fn laid_out(&self) -> bool {
        forall|i: int|
            0 <= i < self.cells@.len() ==> placed(self.cells@, i, self.orientation, self.size)
    }

    /// `self` holds the children and limits of `old`, in the same order.
    pub open spec fn same_children(&self, old: Ribbon) -> bool {
        &&& self.cells@.len() == old.cells@.len()
        &&& forall|i: int|
            0 <= i < self.cells@.len() ==> (#[trigger] self.cells@[i]).id == old.cells@[i].id
                && self.cells@[i].limit == old.cells@[i].limit
    }

    /// Where a mouse input goes: to the first cell that holds the last cursor
    /// position, marked as inside it; nowhere if no cell holds it or no
    /// position is known.
    pub open spec fn mouse_deliveries(
        &self,
        state: ElementState,
        button: MouseButton,
    ) -> Seq<Delivery> {
        match self.mouse_pos {
            None => seq![],
            Some(p) => match first_hit(self.cells@, p, 0) {
                None => seq![],
                Some(i) => seq![
                    Delivery {
                        child: self.cells@[i].id,
                        event: PanelEvent::MouseInput { in_bounds: true, state, button },
                    },
                ],
            },
        }
    }

    /// An empty ribbon of zero size.
    pub fn new(orientation: RibbonOrientation) -> (r: Ribbon)
        ensures
            r.wf(),
            r.orientation == orientation,
            r.cells@.len() == 0,
            r.mouse_pos is None,
            r.size == (Size { x: 0, y: 0, den: 1 }),
    {
        Ribbon { orientation, cells: Vec::new(), mouse_pos: None, size: Size { x: 0, y: 0, den: 1 } }
    }

    pub fn orientation(&self) -> (r: RibbonOrientation)
        ensures
            r == self.orientation,
    {
        self.orientation
    }

    pub fn cells(&self) -> (r: &Vec<Cell>)
        ensures
            r@ == self.cells@,
    {
        &self.cells
    }

    pub fn set_mouse_pos(&mut self, mouse_pos: Vector2)
        ensures
            final(self).mouse_pos == Some(mouse_pos),
            final(self).orientation == old(self).orientation,
            final(self).cells@ == old(self).cells@,
            final(self).size == old(self).size,
    {
        self.mouse_pos = Some(mouse_pos);
    }

    pub fn get_mouse_pos(&self) -> (r: Option<Vector2>)
        ensures
            r == self.mouse_pos,
    {
        self.mouse_pos
    }

    /// The event a new subscriber is sent at once: the ribbon's size, if it
    /// has one.
    pub fn on_subscribe(&self) -> (r: Option<PanelEvent>)
        ensures
            self.size.x == 0 && self.size.y == 0 ==> r is None,
            self.size.x != 0 || self.size.y != 0 ==> r == Some(PanelEvent::Resized(self.size)),
    {
        if self.size.x == 0 && self.size.y == 0 {
            None
        } else {
            Some(PanelEvent::Resized(self.size))
        }
    }

    /// Adds a cell for the child `id` at the end and lays the whole ribbon out
    /// again at its current size; where that layout does not fit, nothing
    /// changes.
    pub fn add_panel(&mut self, id: usize, limit: CellLimit) -> (r: Result<(), LayoutError>)
        requires
            old(self).wf(),
            cell_limit_wf(limit),
            old(self).cells@.len() < MAX_CELLS,
        ensures
            r is Ok <==> layout_fits(
                cell_limits(old(self).cells@).push(limit),
                old(self).orientation,
                old(self).size,
            ),
            r is Err ==> final(self).unchanged(*old(self)),
            r is Ok ==> {
                &&& final(self).wf()
                &&& final(self).laid_out()
                &&& final(self).orientation == old(self).orientation
                &&& final(self).mouse_pos == old(self).mouse_pos
                &&& final(self).size == old(self).size
                &&& final(self).cells@.len() == old(self).cells@.len() + 1
                &&& forall|i: int|
                    0 <= i < old(self).cells@.len() ==> (#[trigger] final(self).cells@[i]).id
                        == old(self).cells@[i].id && final(self).cells@[i].limit
                        == old(self).cells@[i].limit
                &&& final(self).cells@.last().id == id
                &&& final(self).cells@.last().limit == limit
            },
    {
        let ghost before = self.cells@;
        self.cells.push(Cell::new(id, limit));
        proof {
            assert(cell_limits(self.cells@) =~= cell_limits(before).push(limit));
        }
        let size = self.size;
        match self.resize_cells(size) {
            Ok(()) => Ok(()),
            Err(e) => {
                self.cells.pop();
                proof {
                    assert(self.cells@ =~= before);
                }
                Err(e)
            },
        }
    }

    /// Sets the ribbon's size and lays every cell out for it; where that
    /// layout does not fit, nothing changes.
    pub fn resize_cells(&mut self, size: Size) -> (r: Result<(), LayoutError>)
        requires
            old(self).wf(),
            size.wf(),
        ensures
            r is Ok <==> layout_fits(cell_limits(old(self).cells@), old(self).orientation, size),
            r is Err ==> final(self).unchanged(*old(self)),
            r is Ok ==> {
                &&& final(self).wf()
                &&& final(self).laid_out()
                &&& final(self).size == size
                &&& final(self).orientation == old(self).orientation
                &&& final(self).mouse_pos == old(self).mouse_pos
                &&& final(self).same_children(*old(self))
            },
    {
        let ghost limits = cell_limits(self.cells@);
        proof {
            assert forall|i: int| 0 <= i < self.cells@.len() implies limits[i]
                == self.cells@[i].limit by {}
        }
        proof {
            let n = self.cells@.len();
            if forall|i: int| 0 <= i < n ==> stack_fits(#[trigger] limits[i], size) {
                assert forall|i: int| 0 <= i < n implies stack_fits(
                    (#[trigger] self.cells@[i]).limit,
                    size,
                ) by {
                    assert(limits[i] == self.cells@[i].limit);
                }
            }
            if forall|i: int| 0 <= i < n ==> stack_fits((#[trigger] self.cells@[i]).limit, size) {
                assert forall|i: int| 0 <= i < n implies stack_fits(#[trigger] limits[i], size) by {
                    assert(limits[i] == self.cells@[i].limit);
                }
            }
        }
        let laid = match self.orientation {
            RibbonOrientation::Stack => self.stack_cells(size),
            RibbonOrientation::Horizontal => self.row_cells(size, true),
            RibbonOrientation::Vertical => self.row_cells(size, false),
        };
        match laid {
            Ok(cells) => {
                let ghost old_cells = self.cells@;
                proof {
                    assert(cell_limits(cells@) =~= cell_limits(old_cells));
                }
                self.cells = cells;
                self.size = size;
                Ok(())
            },
            Err(e) => Err(e),
        }
    }

    /// The cells stacked and centred at `size`.
    fn stack_cells(&self, size: Size) -> (r: Result<Vec<Cell>, LayoutError>)
        requires
            self.wf(),
            size.wf(),
        ensures
            r is Ok <==> forall|i: int|
                0 <= i < self.cells@.len() ==> stack_fits((#[trigger] self.cells@[i]).limit, size),
            r matches Ok(v) ==> {
                &&& v@.len() == self.cells@.len()
                &&& forall|i: int|
                    0 <= i < v@.len() ==> (#[trigger] v@[i]).id == self.cells@[i].id
                        && v@[i].limit == self.cells@[i].limit && box_wf(v@[i]) && stacked(
                        v@[i],
                        size,
                    )
            },
    {
        let n = self.cells.len();
        let mut v: Vec<Cell> = Vec::new();
        let mut i: usize = 0;
        while i < n
            invariant
                self.wf(),
                size.wf(),
                n == self.cells@.len(),
                i <= n,
                v@.len() == i,
                forall|k: int| 0 <= k < i ==> stack_fits((#[trigger] self.cells@[k]).limit, size),
                forall|k: int|
                    0 <= k < i ==> (#[trigger] v@[k]).id == self.cells@[k].id && v@[k].limit
                        == self.cells@[k].limit && box_wf(v@[k]) && stacked(v@[k], size),
            decreases n - i,
        {
            let c = self.cells[i];
            proof {
                assert(cell_limit_wf(self.cells@[i as int].limit));
            }
            match stack_cell(c, size) {
                Some(s) => v.push(s),
                None => return Err(LayoutError::OutOfRange),
            }
            i = i + 1;
        }
        Ok(v)
    }

    /// The cells of a row (`hor`) or column at `size`.
    fn row_cells(&self, size: Size, hor: bool) -> (r: Result<Vec<Cell>, LayoutError>)
        requires
            self.wf(),
            size.wf(),
        ensures
            r is Ok <==> row_fits(cell_limits(self.cells@), size, hor),
            r matches Ok(v) ==> {
                &&& v@.len() == self.cells@.len()
                &&& forall|i: int|
                    0 <= i < v@.len() ==> (#[trigger] v@[i]).id == self.cells@[i].id
                        && v@[i].limit == self.cells@[i].limit && box_wf(v@[i]) && row_placed(
                        v@[i],
                        cell_limits(self.cells@),
                        size,
                        hor,
                        i,
                    )
            },
    {
        let ghost limits = cell_limits(self.cells@);
        let ghost scaled = scaled_limits(limits, size.den as int);
        let n = self.cells.len();
        let total: i64 = if hor {
            size.x
        } else {
            size.y
        };
        let cross: i64 = if hor {
            size.y
        } else {
            size.x
        };
        let den = size.den as u128;
        let mut sl: Vec<CellLimit> = Vec::new();
        let mut i: usize = 0;
        while i < n
            invariant
                self.wf(),
                size.wf(),
                den == size.den,
                n == self.cells@.len(),
                limits == cell_limits(self.cells@),
                scaled == scaled_limits(limits, size.den as int),
                i <= n,
                sl@ == scaled.take(i as int),
                forall|k: int| 0 <= k < i ==> limit_scales(#[trigger] limits[k], size.den as int),
            decreases n - i,
        {
            let l = self.cells[i].limit;
            proof {
                assert(limits[i as int] == l);
                assert(l.min_size * size.den <= 0xffff_ffffu64 * 0x7fff_ffff_ffff_ffffu64)
                    by (nonlinear_arith)
                    requires l.min_size <= 0xffff_ffffu32, 0 < size.den <= 0x7fff_ffff_ffff_ffff;
                if l.max_size is Some {
                    let m = l.max_size->0;
                    assert(m * size.den <= 0xffff_ffffu64 * 0x7fff_ffff_ffff_ffffu64)
                        by (nonlinear_arith)
                        requires m <= 0xffff_ffffu32, 0 < size.den <= 0x7fff_ffff_ffff_ffff;
                }
            }
            let mn: u128 = l.min_size as u128 * den;
            if mn > 0xffff_ffff {
                proof {
                    assert(!row_inputs_fit(limits, size, hor)) by {
                        assert(!limit_scales(limits[i as int], size.den as int));
                    }
                }
                return Err(LayoutError::OutOfRange);
            }
            let mx: Option<u32> = match l.max_size {
                Some(m) => {
                    let v: u128 = m as u128 * den;
                    if v > 0xffff_ffff {
                        proof {
                            assert(!row_inputs_fit(limits, size, hor)) by {
                                assert(!limit_scales(limits[i as int], size.den as int));
                            }
                        }
                        return Err(LayoutError::OutOfRange);
                    }
                    Some(v as u32)
                },
                None => None,
            };
            sl.push(CellLimit { min_size: mn as u32, max_size: mx, ..l });
            proof {
                assert(sl@ =~= scaled.take(i + 1));
            }
            i = i + 1;
        }
        proof {
            assert(sl@ =~= scaled);
            assert(row_inputs_fit(limits, size, hor));
            assert forall|k: int| 0 <= k < scaled.len() implies (#[trigger] scaled[k]).wf() by {
                assert(cell_limit_wf(self.cells@[k].limit));
            }
        }
        let sizes = adjust_cells(&sl, total as u64);
        proof {
            lemma_sizes_fit(sl@, total as int, sizes);
        }
        let scale: u64 = sizes.scale;
        proof {
            assert(scale * den <= 0xffff_ffff_ffff_ffffu64 * 0x7fff_ffff_ffff_ffffu64)
                by (nonlinear_arith)
                requires scale <= 0xffff_ffff_ffff_ffffu64, den <= 0x7fff_ffff_ffff_ffff;
            assert(scale * cross <= 0xffff_ffff_ffff_ffffu64 * 0x7fff_ffff_ffff_ffffu64)
                by (nonlinear_arith)
                requires scale <= 0xffff_ffff_ffff_ffffu64, 0 <= cross <= 0x7fff_ffff_ffff_ffff;
            assert(scale * den > 0) by (nonlinear_arith)
                requires scale > 0, den > 0;
            assert(cross * scale == scale * cross) by (nonlinear_arith);
        }
        let d: i128 = (scale as u128 * den) as i128;
        let cr: i128 = (scale as u128 * cross as u128) as i128;
        let mut v: Vec<Cell> = Vec::new();
        let mut pos: u128 = 0;
        let mut i: usize = 0;
        while i < n
            invariant
                self.wf(),
                size.wf(),
                n == self.cells@.len(),
                limits == cell_limits(self.cells@),
                scaled == scaled_limits(limits, size.den as int),
                sizes.solves(scaled, total as int),
                scale == sizes.scale,
                scale == solved_scale(scaled, total as int),
                total == main_of(size, hor),
                cross == cross_of(size, hor),
                d == scale * size.den,
                d > 0,
                cr == cross * scale,
                cr >= 0,
                i <= n,
                v@.len() == i,
                pos == row_pos(scaled, total as int, i as int),
                pos <= i128::MAX,
                forall|k: int| 0 <= k < i ==> box_fits(reduced(#[trigger] row_box(limits, size, hor, k))),
                forall|k: int|
                    0 <= k < i ==> (#[trigger] v@[k]).id == self.cells@[k].id && v@[k].limit
                        == self.cells@[k].limit && box_wf(v@[k]) && row_placed(
                        v@[k],
                        limits,
                        size,
                        hor,
                        k,
                    ),
            decreases n - i,
        {
            let len: u128 = sizes.sizes[i];
            proof {
                assert(len == row_len(scaled, total as int, i as int));
            }
            if len > i128::MAX as u128 - pos {
                proof {
                    lemma_row_pos_grows(scaled, total as int, sizes, i + 1, n as int);
                }
                return Err(LayoutError::OutOfRange);
            }
            let next: u128 = pos + len;
            let parts: Vec<i128> = if hor {
                vec![pos as i128, 0, len as i128, cr, d]
            } else {
                vec![0, pos as i128, cr, len as i128, d]
            };
            proof {
                assert(parts@.map_values(|a: i128| a as int) =~= row_box(limits, size, hor, i as int));
            }
            match make_box(self.cells[i], &parts) {
                Some(c2) => v.push(c2),
                None => return Err(LayoutError::OutOfRange),
            }
            pos = next;
            i = i + 1;
        }
        proof {
            assert(row_fits(limits, size, hor));
        }
        Ok(v)
    }

    /// Routes an event to the cells and returns what each child receives, in
    /// cell order. A resize lays the ribbon out and gives every child its own
    /// new size; a cursor move is recorded and given to every child in its
    /// own space; a mouse input goes to the one child under the last cursor
    /// position; any other event goes to every child unchanged. A resize or
    /// cursor move whose exact values do not fit changes nothing and is
    /// reported.
    pub fn on_event(&mut self, event: &PanelEvent) -> (r: Result<Vec<Delivery>, LayoutError>)
        requires
            old(self).wf(),
            *event matches PanelEvent::Resized(s) ==> s.wf(),
            *event matches PanelEvent::CursorMoved(p) ==> p.wf(),
        ensures
            final(self).wf(),
            r is Err ==> final(self).unchanged(*old(self)),
            match *event {
                PanelEvent::Resized(s) => {
                    &&& r is Ok <==> layout_fits(
                        cell_limits(old(self).cells@),
                        old(self).orientation,
                        s,
                    )
                    &&& r matches Ok(d) ==> {
                        &&& final(self).size == s
                        &&& final(self).laid_out()
                        &&& final(self).orientation == old(self).orientation
                        &&& final(self).mouse_pos == old(self).mouse_pos
                        &&& final(self).same_children(*old(self))
                        &&& d@.len() == final(self).cells@.len()
                        &&& forall|i: int|
                            0 <= i < d@.len() ==> #[trigger] d@[i] == (Delivery {
                                child: final(self).cells@[i].id,
                                event: PanelEvent::Resized(
                                    size_of(reduced(final(self).cells@[i].size.parts())),
                                ),
                            })
                    }
                },
                PanelEvent::CursorMoved(p) => {
                    &&& r is Ok <==> forall|i: int|
                        0 <= i < old(self).cells@.len() ==> Vector2::translation_fits(
                            p,
                            (#[trigger] old(self).cells@[i]).offset,
                        )
                    &&& r matches Ok(d) ==> {
                        &&& final(self).mouse_pos == Some(p)
                        &&& final(self).cells@ == old(self).cells@
                        &&& final(self).size == old(self).size
                        &&& final(self).orientation == old(self).orientation
                        &&& d@.len() == old(self).cells@.len()
                        &&& forall|i: int|
                            0 <= i < d@.len() ==> #[trigger] d@[i] == (Delivery {
                                child: old(self).cells@[i].id,
                                event: PanelEvent::CursorMoved(
                                    Vector2::translated(p, old(self).cells@[i].offset),
                                ),
                            })
                    }
                },
                PanelEvent::MouseInput { state, button, .. } => {
                    &&& *final(self) == *old(self)
                    &&& r matches Ok(d) && d@ == old(self).mouse_deliveries(state, button)
                },
                PanelEvent::Empty => {
                    &&& *final(self) == *old(self)
                    &&& r matches Ok(d) && d@.len() == old(self).cells@.len() && forall|i: int|
                        0 <= i < d@.len() ==> #[trigger] d@[i] == (Delivery {
                            child: old(self).cells@[i].id,
                            event: PanelEvent::Empty,
                        })
                },
            },
    {
        match *event {
            PanelEvent::Resized(s) => match self.resize_cells(s) {
                Ok(()) => Ok(self.broadcast_sizes()),
                Err(e) => Err(e),
            },
            PanelEvent::CursorMoved(p) => self.translate_cursor_moved(p),
            PanelEvent::MouseInput { state, button, .. } => Ok(
                self.translate_mouse_input(state, button),
            ),
            PanelEvent::Empty => Ok(self.broadcast(PanelEvent::Empty)),
        }
    }

    /// Every child gets `event` unchanged.
    fn broadcast(&self, event: PanelEvent) -> (r: Vec<Delivery>)
        ensures
            r@.len() == self.cells@.len(),
            forall|i: int|
                0 <= i < r@.len() ==> #[trigger] r@[i] == (Delivery {
                    child: self.cells@[i].id,
                    event,
                }),
    {
        let mut r: Vec<Delivery> = Vec::new();
        let mut i: usize = 0;
        while i < self.cells.len()
            invariant
                i <= self.cells@.len(),
                r@.len() == i,
                forall|k: int|
                    0 <= k < i ==> #[trigger] r@[k] == (Delivery { child: self.cells@[k].id, event }),
            decreases self.cells@.len() - i,
        {
            r.push(Delivery { child: self.cells[i].id, event });
            i = i + 1;
        }
        r
    }

    /// Every child gets a resize to its own size, in lowest terms.
    fn broadcast_sizes(&self) -> (r: Vec<Delivery>)
        requires
            self.wf(),
        ensures
            r@.len() == self.cells@.len(),
            forall|i: int|
                0 <= i < r@.len() ==> #[trigger] r@[i] == (Delivery {
                    child: self.cells@[i].id,
                    event: PanelEvent::Resized(size_of(reduced(self.cells@[i].size.parts()))),
                }),
    {
        let mut r: Vec<Delivery> = Vec::new();
        let mut i: usize = 0;
        while i < self.cells.len()
            invariant
                self.wf(),
                i <= self.cells@.len(),
                r@.len() == i,
                forall|k: int|
                    0 <= k < i ==> #[trigger] r@[k] == (Delivery {
                        child: self.cells@[k].id,
                        event: PanelEvent::Resized(size_of(reduced(self.cells@[k].size.parts()))),
                    }),
            decreases self.cells@.len() - i,
        {
            let c = self.cells[i];
            proof {
                assert(box_wf(self.cells@[i as int]));
            }
            r.push(Delivery { child: c.id, event: PanelEvent::Resized(reduce_size(c.size)) });
            i = i + 1;
        }
        r
    }

    /// Records the cursor position and gives it to every child in the child's
    /// own space; where a child's translation does not fit, nothing changes.
    fn translate_cursor_moved(&mut self, mouse_pos: Vector2) -> (r: Result<Vec<Delivery>, LayoutError>)
        requires
            old(self).wf(),
            mouse_pos.wf(),
        ensures
            final(self).wf(),
            r is Err ==> final(self).unchanged(*old(self)),
            r is Ok <==> forall|i: int|
                0 <= i < old(self).cells@.len() ==> Vector2::translation_fits(
                    mouse_pos,
                    (#[trigger] old(self).cells@[i]).offset,
                ),
            r matches Ok(d) ==> {
                &&& final(self).mouse_pos == Some(mouse_pos)
                &&& final(self).cells@ == old(self).cells@
                &&& final(self).size == old(self).size
                &&& final(self).orientation == old(self).orientation
                &&& d@.len() == old(self).cells@.len()
                &&& forall|i: int|
                    0 <= i < d@.len() ==> #[trigger] d@[i] == (Delivery {
                        child: old(self).cells@[i].id,
                        event: PanelEvent::CursorMoved(
                            Vector2::translated(mouse_pos, old(self).cells@[i].offset),
                        ),
                    })
            },
    {
        let mut r: Vec<Delivery> = Vec::new();
        let mut i: usize = 0;
        while i < self.cells.len()
            invariant
                self.wf(),
                mouse_pos.wf(),
                i <= self.cells@.len(),
                r@.len() == i,
                forall|k: int|
                    0 <= k < i ==> Vector2::translation_fits(
                        mouse_pos,
                        (#[trigger] self.cells@[k]).offset,
                    ),
                forall|k: int|
                    0 <= k < i ==> #[trigger] r@[k] == (Delivery {
                        child: self.cells@[k].id,
                        event: PanelEvent::CursorMoved(
                            Vector2::translated(mouse_pos, self.cells@[k].offset),
                        ),
                    }),
            decreases self.cells@.len() - i,
        {
            let c = self.cells[i];
            proof {
                assert(box_wf(self.cells@[i as int]));
            }
            match c.translate_point(mouse_pos) {
                Some(p) => r.push(Delivery { child: c.id, event: PanelEvent::CursorMoved(p) }),
                None => return Err(LayoutError::OutOfRange),
            }
            i = i + 1;
        }
        self.set_mouse_pos(mouse_pos);
        Ok(r)
    }

    /// Gives a mouse input to the first cell that holds the last cursor
    /// position.
    fn translate_mouse_input(&self, state: ElementState, button: MouseButton) -> (r: Vec<Delivery>)
        requires
            self.wf(),
        ensures
            r@ == self.mouse_deliveries(state, button),
    {
        let mut r: Vec<Delivery> = Vec::new();
        if let Some(mouse_pos) = self.get_mouse_pos() {
            let mut i: usize = 0;
            while i < self.cells.len()
                invariant
                    self.wf(),
                    self.mouse_pos == Some(mouse_pos),
                    i <= self.cells@.len(),
                    r@.len() == 0,
                    first_hit(self.cells@, mouse_pos, 0) == first_hit(self.cells@, mouse_pos, i as int),
                decreases self.cells@.len() - i,
            {
                let c = self.cells[i];
                proof {
                    assert(box_wf(self.cells@[i as int]));
                }
                if is_point_in_box(mouse_pos, c.offset, c.size) {
                    r.push(
                        Delivery {
                            child: c.id,
                            event: PanelEvent::MouseInput { in_bounds: true, state, button },
                        },
                    );
                    assert(r@ =~= self.mouse_deliveries(state, button));
                    return r;
                }
                i = i + 1;
            }
        }
        assert(r@ =~= self.mouse_deliveries(state, button));
        r
    }
}

/// A stacked cell for `c` at `size`, where it can be laid out.
fn stack_cell(c: Cell, size: Size) -> (r: Option<Cell>)
    requires
        size.wf(),
        c.limit.content_ratio.wf(),
    ensures
        r is Some <==> stack_fits(c.limit, size),
        r matches Some(s) ==> s.id == c.id && s.limit == c.limit && box_wf(s) && stacked(s, size),
{
    let l = c.limit;
    let nx = l.content_ratio.x.num as u128;
    let dx = l.content_ratio.x.den as u128;
    let ny = l.content_ratio.y.num as u128;
    let dy = l.content_ratio.y.den as u128;
    let a = size.x as u128;
    let h = size.y as u128;
    let b = size.den as u128;
    let ghost sb = stack_box(l, size);
    proof {
        let m63: int = 0x7fff_ffff_ffff_ffff;
        let m32: int = 0xffff_ffff;
        lemma_product_bound(2 * b, dx as int, dy as int, 2 * m63, m32, m32);
        lemma_product_bound(2 * a, nx as int, dy as int, 2 * m63, m32, m32);
        lemma_product_bound(2 * h, ny as int, dx as int, 2 * m63, m32, m32);
        let ex = dx - nx;
        let ey = dy - ny;
        assert(-m63 * m32 <= a * ex <= m63 * m32) by (nonlinear_arith)
            requires 0 <= a <= m63, -m32 <= ex <= m32;
        assert(-m63 * m32 <= h * ey <= m63 * m32) by (nonlinear_arith)
            requires 0 <= h <= m63, -m32 <= ey <= m32;
        assert(-m63 * m32 * m32 <= a * ex * dy <= m63 * m32 * m32) by (nonlinear_arith)
            requires 0 <= a <= m63, -m32 <= ex <= m32, 0 <= dy <= m32;
        assert(-m63 * m32 * m32 <= h * ey * dx <= m63 * m32 * m32) by (nonlinear_arith)
            requires 0 <= h <= m63, -m32 <= ey <= m32, 0 <= dx <= m32;
        assert(2 * b * dx * dy > 0) by (nonlinear_arith)
            requires b > 0, dx > 0, dy > 0;
    }
    let den = 2 * b * dx * dy;
    let w = 2 * a * nx * dy;
    let hh = 2 * h * ny * dx;
    let max = i128::MAX as u128;
    if den > max || w > max || hh > max {
        return None;
    }
    let ox: i128 = a as i128 * (dx as i128 - nx as i128) * dy as i128;
    let oy: i128 = h as i128 * (dy as i128 - ny as i128) * dx as i128;
    let parts: Vec<i128> = vec![ox, oy, w as i128, hh as i128, den as i128];
    proof {
        assert(parts@.map_values(|v: i128| v as int) =~= sb);
    }
    make_box(c, &parts)
}

/// Cell `c` with the box of these parts in lowest terms, where that fits in
/// `i64`.
fn make_box(c: Cell, parts: &Vec<i128>) -> (r: Option<Cell>)
    requires
        parts@.len() == 5,
        parts@[2] >= 0,
        parts@[3] >= 0,
        parts@[4] > 0,
        forall|i: int| 0 <= i < 5 ==> i128::MIN < #[trigger] parts@[i],
    ensures
        r is Some <==> box_fits(reduced(parts@.map_values(|v: i128| v as int))),
        r matches Some(s) ==> s.id == c.id && s.limit == c.limit && box_wf(s) && s.offset.den
            == s.size.den && box_parts(s) == reduced(parts@.map_values(|v: i128| v as int)),
{
    let ghost t = parts@.map_values(|v: i128| v as int);
    let r = reduce(parts);
    proof {
        lemma_reduced(t, 4);
    }
    let lo = i64::MIN as i128;
    let hi = i64::MAX as i128;
    let ghost q = reduced(t);
    proof {
        assert forall|i: int| 0 <= i < 5 implies #[trigger] r@[i] == q[i] by {}
    }
    if r[0] < lo || r[0] > hi || r[1] < lo || r[1] > hi || r[2] > hi || r[3] > hi || r[4] > hi {
        proof {
            assert(!fits_i64(q)) by {
                assert(q[0] == r@[0] && q[1] == r@[1] && q[2] == r@[2] && q[3] == r@[3] && q[4]
                    == r@[4]);
            }
        }
        return None;
    }
    if r[0] + r[2] > hi || r[1] + r[3] > hi {
        return None;
    }
    let mut s = c;
    s.resize(
        Vector2 { x: r[0] as i64, y: r[1] as i64, den: r[4] as i64 },
        Size { x: r[2] as i64, y: r[3] as i64, den: r[4] as i64 },
    );
    proof {
        assert(box_parts(s) =~= q);
        assert(fits_i64(q));
    }
    Some(s)
}

/// Bounds on a product of three factors of at least zero.
proof fn lemma_product_bound(a: int, b: int, c: int, ma: int, mb: int, mc: int)
    requires
        0 <= a <= ma,
        0 <= b <= mb,
        0 <= c <= mc,
    ensures
        0 <= a * b <= ma * mb,
        0 <= a * b * c <= ma * mb * mc,
{
    assert(0 <= a * b <= ma * mb) by (nonlinear_arith)
        requires 0 <= a <= ma, 0 <= b <= mb;
    assert(0 <= a * b * c <= ma * mb * mc) by (nonlinear_arith)
        requires 0 <= a * b <= ma * mb, 0 <= c <= mc, 0 <= ma, 0 <= mb;
}

/// Positions along a row only grow.
proof fn lemma_row_pos_grows(
    scaled: Seq<CellLimit>,
    total: int,
    sizes: crate::solver::CellSizes,
    k: int,
    m: int,
)
    requires
        sizes.solves(scaled, total),
        0 <= k <= m <= scaled.len(),
    ensures
        row_pos(scaled, total, k) <= row_pos(scaled, total, m),
    decreases m - k,
{
    if k < m {
        lemma_row_pos_grows(scaled, total, sizes, k, m - 1);
        assert(sizes.sizes@[m - 1] == row_len(scaled, total, m - 1));
    }
}

proof fn lemma_row_pos_is_sum(scaled: Seq<CellLimit>, total: int, k: int)
    ensures
        row_pos(scaled, total, k) == solved_upto(scaled, total, k),
    decreases k,
{
    if k > 0 {
        lemma_row_pos_is_sum(scaled, total, k - 1);
    }
}

/// Where the minimums fit in the ribbon's extent and no maximum can bind, the
/// cells of a row (`hor`) or column end exactly at the ribbon's far edge: over
/// the common denominator `scale * size.den`, the last cell's far end is the
/// main extent times the scale, that is `main / size.den`.
pub proof fn lemma_row_fills_extent(limits: Seq<CellLimit>, size: Size, hor: bool)
    requires
        limits_wf(limits),
        limits.len() > 0,
        size.wf(),
        row_inputs_fit(limits, size, hor),
        min_total(scaled_limits(limits, size.den as int)) <= main_of(size, hor),
        no_binding_max(scaled_limits(limits, size.den as int), main_of(size, hor)),
    ensures
        ({
            let scaled = scaled_limits(limits, size.den as int);
            let total = main_of(size, hor);
            row_pos(scaled, total, limits.len() as int) == total * solved_scale(scaled, total)
        }),
{
    let scaled = scaled_limits(limits, size.den as int);
    let total = main_of(size, hor);
    assert forall|i: int| 0 <= i < scaled.len() implies (#[trigger] scaled[i]).wf() by {
        assert(limits[i].wf());
    }
    lemma_solution_fills_extent(scaled, total);
    lemma_row_pos_is_sum(scaled, total, limits.len() as int);
}

proof fn lemma_first_hit(cells: Seq<Cell>, p: Vector2, k: int)
    requires
        0 <= k,
    ensures
        first_hit(cells, p, k) matches Some(i) ==> k <= i < cells.len() && cell_holds(cells, i, p),
        first_hit(cells, p, k) is None ==> forall|j: int|
            k <= j < cells.len() ==> !cell_holds(cells, j, p),
    decreases cells.len() - k,
{
    if k < cells.len() && !cell_holds(cells, k, p) {
        lemma_first_hit(cells, p, k + 1);
    }
}

/// A mouse input reaches exactly one child when some cell holds the last
/// cursor position, and that child's cell holds it; it reaches no child when
/// no cell holds it, or when no cursor position is known.
pub proof fn lemma_mouse_input_reaches_one(rb: Ribbon, state: ElementState, button: MouseButton)
    ensures
        ({
            let d = rb.mouse_deliveries(state, button);
            let cells = rb.cells@;
            &&& rb.mouse_pos is None ==> d.len() == 0
            &&& rb.mouse_pos matches Some(p) ==> {
                &&& (exists|i: int| 0 <= i < cells.len() && cell_holds(cells, i, p)) ==> {
                    &&& d.len() == 1
                    &&& exists|i: int|
                        0 <= i < cells.len() && cell_holds(cells, i, p) && d[0].child
                            == cells[i].id
                }
                &&& !(exists|i: int| 0 <= i < cells.len() && cell_holds(cells, i, p)) ==> d.len()
                    == 0
            }
        }),
{
    if let Some(p) = rb.mouse_pos {
        lemma_first_hit(rb.cells@, p, 0);
    }
}

} // verus!
