//! The grid container: a rectangular, row-major matrix of cells with
//! bounds-checked point validation, neighbour lookup, cell access and
//! traversal combinators.
//!
//! A board is modelled as a sequence of rows, each a sequence of cells.
//! Well-formedness (`grid_wf`) asks for at least one row, at least one
//! column, and equal row lengths; constructors establish it and every
//! operation preserves it.

use vstd::arithmetic::div_mod::lemma_fundamental_div_mod_converse;
use vstd::prelude::*;
use vstd::string::StringExecFns;

use crate::geom::{Point, Size};

verus! {

/// A row-major matrix of cells: the boards' backing storage, also the
/// shape a pre-built grid is handed over in.
pub type Body<T> = Vec<Vec<T>>;

/// Well-formedness of a grid model: at least one row, at least one
/// column, and all rows of equal length (rectangularity).
pub open spec fn grid_wf<T>(g: Seq<Seq<T>>) -> bool {
    &&& 1 <= g.len() <= usize::MAX
    &&& 1 <= g[0].len() <= usize::MAX
    &&& forall|y: int| 0 <= y < g.len() ==> (#[trigger] g[y].len()) == g[0].len()
}

/// Width of a grid model: the length of its first row.
pub open spec fn grid_width<T>(g: Seq<Seq<T>>) -> int {
    g[0].len() as int
}

/// Height of a grid model: its number of rows.
pub open spec fn grid_height<T>(g: Seq<Seq<T>>) -> int {
    g.len() as int
}

/// Whether `p` addresses a cell of `g`: `p.x` within the width and
/// `p.y` within the height.
pub open spec fn point_in<T>(g: Seq<Seq<T>>, p: Point) -> bool {
    p.x < grid_width(g) && p.y < grid_height(g)
}

/// The cell of `g` addressed by `p`.
pub open spec fn cell_at<T>(g: Seq<Seq<T>>, p: Point) -> T {
    g[p.y as int][p.x as int]
}

/// What `Board::valid` returns: the point itself when it addresses a
/// cell, absent otherwise.
pub open spec fn valid_spec<T>(g: Seq<Seq<T>>, p: Point) -> Option<Point> {
    if point_in(g, p) {
        Some(p)
    } else {
        None
    }
}

/// The cells of `g` in row-major order: entry `k` pairs the point
/// `(k % width, k / width)` with the cell there. This is the visiting
/// order of `fold` and `each`, and its reverse is the visiting order
/// of `fold_rev`.
pub open spec fn cell_seq<T>(g: Seq<Seq<T>>) -> Seq<(Point, T)> {
    Seq::new(
        (grid_height(g) * grid_width(g)) as nat,
        |k: int|
            (
                Point {
                    x: (k % grid_width(g)) as usize,
                    y: (k / grid_width(g)) as usize,
                },
                g[k / grid_width(g)][k % grid_width(g)],
            ),
    )
}

/// `p` comes strictly before `q` in row-major order: on an earlier
/// row, or on the same row and in an earlier column.
pub open spec fn row_major_before(p: Point, q: Point) -> bool {
    p.y < q.y || (p.y == q.y && p.x < q.x)
}

/// Each valid point `p` of `g` is visited by the row-major traversal
/// exactly at step `p.y * width + p.x`, paired with its cell.
pub proof fn lemma_cell_seq_index<T>(g: Seq<Seq<T>>, p: Point)
    requires
        grid_wf(g),
        point_in(g, p),
    ensures
        0 <= p.y * grid_width(g) + p.x < cell_seq(g).len(),
        cell_seq(g)[p.y * grid_width(g) + p.x] == (p, cell_at(g, p)),
{
    let w = grid_width(g);
    let h = grid_height(g);
    let k = p.y * w + p.x;
    assert(0 <= k && k < h * w) by (nonlinear_arith)
        requires
            0 <= p.x < w,
            0 <= p.y < h,
            k == p.y * w + p.x,
    ;
    lemma_fundamental_div_mod_converse(k, w, p.y as int, p.x as int);
}

/// Row-major order of `cell_seq`: it has one entry per cell, each
/// valid point appears exactly once (at its row-major index), and any
/// two visiting steps `i < j` visit points in strict row-major order.
pub proof fn lemma_fold_order<T>(g: Seq<Seq<T>>)
    requires
        grid_wf(g),
    ensures
        cell_seq(g).len() == grid_width(g) * grid_height(g),
        forall|p: Point|
            #[trigger] point_in(g, p) ==> 0 <= p.y * grid_width(g) + p.x < cell_seq(g).len()
                && cell_seq(g)[p.y * grid_width(g) + p.x] == (p, cell_at(g, p)),
        forall|k: int|
            0 <= k < cell_seq(g).len() ==> point_in(g, (#[trigger] cell_seq(g)[k]).0) && cell_seq(
                g,
            )[k].1 == cell_at(g, cell_seq(g)[k].0),
        forall|i: int, j: int|
            0 <= i < j < cell_seq(g).len() ==> row_major_before(
                (#[trigger] cell_seq(g)[i]).0,
                (#[trigger] cell_seq(g)[j]).0,
            ),
        forall|i: int, j: int|
            0 <= i < j < cell_seq(g).len() ==> (#[trigger] cell_seq(g)[i]).0 != (
            #[trigger] cell_seq(g)[j]).0,
{
    let w = grid_width(g);
    let h = grid_height(g);
    assert(w * h == h * w) by (nonlinear_arith);
    assert forall|p: Point| #[trigger] point_in(g, p) implies 0 <= p.y * grid_width(g) + p.x
        < cell_seq(g).len() && cell_seq(g)[p.y * grid_width(g) + p.x] == (p, cell_at(g, p)) by {
        lemma_cell_seq_index(g, p);
    }
    assert forall|k: int| 0 <= k < cell_seq(g).len() implies point_in(
        g,
        (#[trigger] cell_seq(g)[k]).0,
    ) && cell_seq(g)[k].1 == cell_at(g, cell_seq(g)[k].0) by {
        assert(0 <= k % w < w && w * (k / w) + k % w == k) by (nonlinear_arith)
            requires
                w >= 1,
                0 <= k,
        ;
        assert(0 <= k / w < h) by (nonlinear_arith)
            requires
                w >= 1,
                0 <= k < h * w,
                w * (k / w) + k % w == k,
                0 <= k % w < w,
        ;
        let p = cell_seq(g)[k].0;
        assert(p.x == (k % w) as usize && p.y == (k / w) as usize);
        assert(p.x == k % w && p.y == k / w);
    }
    assert forall|i: int, j: int| 0 <= i < j < cell_seq(g).len() implies row_major_before(
        (#[trigger] cell_seq(g)[i]).0,
        (#[trigger] cell_seq(g)[j]).0,
    ) by {
        assert(0 <= i % w < w && w * (i / w) + i % w == i) by (nonlinear_arith)
            requires
                w >= 1,
                0 <= i,
        ;
        assert(0 <= j % w < w && w * (j / w) + j % w == j) by (nonlinear_arith)
            requires
                w >= 1,
                0 <= j,
        ;
        assert(0 <= i / w && j / w < h) by (nonlinear_arith)
            requires
                w >= 1,
                0 <= i <= j,
                j < h * w,
                w * (i / w) + i % w == i,
                w * (j / w) + j % w == j,
                0 <= i % w < w,
                0 <= j % w < w,
        ;
        assert(i / w < j / w || (i / w == j / w && i % w < j % w)) by (nonlinear_arith)
            requires
                w >= 1,
                i < j,
                w * (i / w) + i % w == i,
                w * (j / w) + j % w == j,
                0 <= i % w < w,
                0 <= j % w < w,
        ;
        let pi = cell_seq(g)[i].0;
        let pj = cell_seq(g)[j].0;
        assert(pi.x == i % w && pi.y == i / w);
        assert(pj.x == j % w && pj.y == j / w);
    }
}

/// Reverse traversal order: step `k` of `fold_rev` sees the entry of
/// `cell_seq` at index `len - 1 - k`, so it visits exactly the cells
/// `fold` visits, each exactly once (each valid point at exactly one
/// reverse step, with its true coordinate), and any two reverse steps
/// `i < j` visit points in strictly decreasing row-major order.
pub proof fn lemma_fold_rev_order<T>(g: Seq<Seq<T>>)
    requires
        grid_wf(g),
    ensures
        forall|p: Point|
            #[trigger] point_in(g, p) ==> {
                let k = cell_seq(g).len() - 1 - (p.y * grid_width(g) + p.x);
                &&& 0 <= k < cell_seq(g).len()
                &&& cell_seq(g)[cell_seq(g).len() - 1 - k] == (p, cell_at(g, p))
            },
        forall|i: int, j: int|
            0 <= i < j < cell_seq(g).len() ==> row_major_before(
                (#[trigger] cell_seq(g)[cell_seq(g).len() - 1 - j]).0,
                (#[trigger] cell_seq(g)[cell_seq(g).len() - 1 - i]).0,
            ),
{
    lemma_fold_order(g);
}

/// `g2` is `g1` with the cells at `a` and `b` exchanged and nothing
/// else changed (same shape, all other cells equal).
pub open spec fn swapped<T>(g1: Seq<Seq<T>>, g2: Seq<Seq<T>>, a: Point, b: Point) -> bool {
    &&& g2.len() == g1.len()
    &&& forall|y: int| 0 <= y < g1.len() ==> (#[trigger] g2[y].len()) == g1[y].len()
    &&& cell_at(g2, a) == cell_at(g1, b)
    &&& cell_at(g2, b) == cell_at(g1, a)
    &&& forall|p: Point|
        point_in(g1, p) && p != a && p != b ==> #[trigger] cell_at(g2, p) == cell_at(g1, p)
}

/// The views of a sequence of rendered cells, as character sequences.
pub open spec fn views_of(ss: Seq<String>) -> Seq<Seq<char>> {
    ss.map_values(|s: String| s@)
}

/// The characters of one rendered row up to, but not including, the
/// closing bar: each cell's rendering preceded by a separator bar.
pub open spec fn row_cells_chars(cells: Seq<Seq<char>>) -> Seq<char>
    decreases cells.len(),
{
    if cells.len() == 0 {
        Seq::empty()
    } else {
        seq!['|'] + cells[0] + row_cells_chars(cells.drop_first())
    }
}

/// One fully rendered row: each cell's rendering preceded by a
/// separator bar, with a trailing bar closing the row.
pub open spec fn framed_row(cells: Seq<Seq<char>>) -> Seq<char> {
    row_cells_chars(cells) + seq!['|']
}

/// Appending one more rendered cell extends the row's characters by a
/// separator bar and that rendering.
proof fn lemma_row_cells_chars_push(cells: Seq<Seq<char>>, c: Seq<char>)
    ensures
        row_cells_chars(cells.push(c)) == row_cells_chars(cells) + seq!['|'] + c,
    decreases cells.len(),
{
    if cells.len() == 0 {
        assert(cells.push(c)[0] == c);
        assert(cells.push(c).drop_first() =~= Seq::<Seq<char>>::empty());
        assert(row_cells_chars(Seq::<Seq<char>>::empty()) == Seq::<char>::empty());
        assert(row_cells_chars(cells.push(c)) == seq!['|'] + c + Seq::<char>::empty());
        assert(row_cells_chars(cells.push(c)) =~= row_cells_chars(cells) + seq!['|'] + c);
    } else {
        let d = cells.drop_first();
        assert(cells.push(c)[0] == cells[0]);
        assert(cells.push(c).drop_first() =~= d.push(c));
        lemma_row_cells_chars_push(d, c);
        assert(row_cells_chars(cells.push(c)) == seq!['|'] + cells[0] + row_cells_chars(d.push(c)));
        assert(row_cells_chars(d.push(c)) == row_cells_chars(d) + seq!['|'] + c);
        assert(row_cells_chars(cells) == seq!['|'] + cells[0] + row_cells_chars(d));
        assert(row_cells_chars(cells.push(c)) =~= row_cells_chars(cells) + seq!['|'] + c);
    }
}

/// Exchanging the cells at `a` and `b` twice restores the original
/// grid: `change(a, b)` is self-inverse, for any two valid points.
pub proof fn lemma_change_self_inverse<T>(
    g0: Seq<Seq<T>>,
    g1: Seq<Seq<T>>,
    g2: Seq<Seq<T>>,
    a: Point,
    b: Point,
)
    requires
        grid_wf(g0),
        point_in(g0, a),
        point_in(g0, b),
        swapped(g0, g1, a, b),
        swapped(g1, g2, a, b),
    ensures
        g2 == g0,
{
    assert(g1[0].len() == g0[0].len());
    assert forall|y: int| 0 <= y < g0.len() implies g2[y] =~= g0[y] by {
        assert(g1[y].len() == g0[y].len());
        assert(g2[y].len() == g1[y].len());
        assert forall|x: int| 0 <= x < g0[y].len() implies g2[y][x] == g0[y][x] by {
            let p = Point { x: x as usize, y: y as usize };
            assert(g0[y].len() == g0[0].len());
            assert(point_in(g0, p));
            assert(point_in(g1, p));
            if p == a {
                assert(cell_at(g2, a) == cell_at(g1, b));
                assert(cell_at(g1, b) == cell_at(g0, a));
            } else if p == b {
                assert(cell_at(g2, b) == cell_at(g1, a));
                assert(cell_at(g1, a) == cell_at(g0, b));
            } else {
                assert(cell_at(g2, p) == cell_at(g1, p));
                assert(cell_at(g1, p) == cell_at(g0, p));
            }
            assert(cell_at(g2, p) == cell_at(g0, p));
        }
    }
    assert(g2 =~~= g0);
}

/// `g2` has the shape of `g1` and each of its cells is a possible
/// result of cloning the cell of `g1` at the same point. For element
/// types whose `clone` promises equality (such as integers), this
/// collapses to equality of the two grids.
pub open spec fn grid_cloned<T: Clone>(g1: Seq<Seq<T>>, g2: Seq<Seq<T>>) -> bool {
    &&& g2.len() == g1.len()
    &&& forall|y: int| 0 <= y < g1.len() ==> (#[trigger] g2[y].len()) == g1[y].len()
    &&& forall|y: int, x: int|
        0 <= y < g1.len() && 0 <= x < g1[y].len() ==> cloned::<T>(g1[y][x], #[trigger] g2[y][x])
}

/// A rectangular grid of cells of type `T`, stored row-major as a
/// vector of rows.
#[derive(Debug)]
pub struct Board<T> {
    body: Body<T>,
}

impl<T> View for Board<T> {
    type V = Seq<Seq<T>>;

    closed spec fn view(&self) -> Seq<Seq<T>> {
        self.body@.map_values(|row: Vec<T>| row@)
    }
}

impl<T: Clone> Board<T> {
    /// Convenience form of `fold` whose accumulator is a board: folds
    /// `f` over the cells of `self` in row-major order, starting from
    /// a clone of `self`, letting the transform rebuild the grid
    /// cell by cell. The receiver is left unmodified.
    pub fn update(&self, f: impl Fn(Board<T>, (Point, &T)) -> Board<T>) -> (res: Board<T>)
        requires
            self.wf(),
            forall|acc: Board<T>, p: Point, t: &T|
                point_in(self@, p) && *t == cell_at(self@, p) ==> #[trigger] call_requires(
                    f,
                    (acc, (p, t)),
                ),
        ensures
            exists|start: Board<T>, accs: Seq<Board<T>>|
                {
                    &&& grid_cloned(self@, start@)
                    &&& start.wf()
                    &&& accs.len() == cell_seq(self@).len() + 1
                    &&& accs[0] == start
                    &&& accs[cell_seq(self@).len() as int] == res
                    &&& forall|k: int|
                        0 <= k < cell_seq(self@).len() ==> call_ensures(
                            f,
                            (#[trigger] accs[k], (cell_seq(self@)[k].0, &cell_seq(self@)[k].1)),
                            accs[k + 1],
                        )
                },
    {
        let start = self.clone();
        self.fold(start, f)
    }
}

impl<T: Clone> Clone for Board<T> {
    /// Duplicates the board cell by cell: the copy has the same shape,
    /// and each of its cells is a result of cloning the cell at the
    /// same point.
    fn clone(&self) -> (res: Self)
        ensures
            grid_cloned(self@, res@),
            self.wf() ==> res.wf(),
    {
        let mut body: Vec<Vec<T>> = Vec::with_capacity(self.body.len());
        let h = self.body.len();
        for y in 0..h
            invariant
                h == self.body@.len(),
                body@.len() == y,
                forall|yy: int| 0 <= yy < y ==> (#[trigger] body@[yy]@.len()) == self@[yy].len(),
                forall|yy: int, xx: int|
                    0 <= yy < y && 0 <= xx < self@[yy].len() ==> cloned::<T>(
                        self@[yy][xx],
                        #[trigger] body@[yy]@[xx],
                    ),
        {
            let w = self.body[y].len();
            let mut row: Vec<T> = Vec::with_capacity(w);
            for x in 0..w
                invariant
                    h == self.body@.len(),
                    y < h,
                    w == self@[y as int].len(),
                    row@.len() == x,
                    forall|xx: int|
                        0 <= xx < x ==> cloned::<T>(self@[y as int][xx], #[trigger] row@[xx]),
            {
                row.push(self.body[y][x].clone());
            }
            body.push(row);
        }
        let res = Board { body };
        proof {
            assert(forall|yy: int| 0 <= yy < res@.len() ==> res@[yy] == res.body@[yy]@);
            assert(res.body.len() == res@.len());
            if self.wf() {
                assert(res.body@[0].len() == res@[0].len());
            }
        }
        res
    }
}

impl<T> Board<T> {
    /// Well-formedness of the board: its model is a non-empty
    /// rectangular grid.
    pub open spec fn wf(&self) -> bool {
        grid_wf(self@)
    }

    /// Builds a `size.width` by `size.height` board, filling each cell
    /// from the initializer: the cell at `(x, y)` is a result of
    /// `init((x, y))`. The initializer is total on the board's
    /// coordinates; there is no error path.
    pub fn init(size: Size, init: impl Fn((usize, usize)) -> T) -> (b: Board<T>)
        requires
            size.width >= 1,
            size.height >= 1,
            forall|x: usize, y: usize|
                x < size.width && y < size.height ==> #[trigger] call_requires(init, ((x, y),)),
        ensures
            b.wf(),
            grid_width(b@) == size.width,
            grid_height(b@) == size.height,
            forall|y: int, x: int|
                0 <= y < size.height && 0 <= x < size.width ==> call_ensures(
                    init,
                    ((x as usize, y as usize),),
                    #[trigger] b@[y][x],
                ),
    {
        let h = size.height;
        let w = size.width;
        let mut body: Vec<Vec<T>> = Vec::with_capacity(h);
        for y in 0..h
            invariant
                w == size.width,
                h == size.height,
                forall|xx: usize, yy: usize|
                    xx < w && yy < h ==> #[trigger] call_requires(init, ((xx, yy),)),
                body@.len() == y,
                forall|yy: int| 0 <= yy < y ==> (#[trigger] body@[yy]@.len()) == w,
                forall|yy: int, xx: int|
                    0 <= yy < y && 0 <= xx < w ==> call_ensures(
                        init,
                        ((xx as usize, yy as usize),),
                        #[trigger] body@[yy]@[xx],
                    ),
        {
            let mut row: Vec<T> = Vec::with_capacity(w);
            for x in 0..w
                invariant
                    w == size.width,
                    h == size.height,
                    y < h,
                    forall|xx: usize, yy: usize|
                        xx < w && yy < h ==> #[trigger] call_requires(init, ((xx, yy),)),
                    row@.len() == x,
                    forall|xx: int|
                        0 <= xx < x ==> call_ensures(
                            init,
                            ((xx as usize, y),),
                            #[trigger] row@[xx],
                        ),
            {
                row.push(init((x, y)));
            }
            body.push(row);
        }
        let b = Board { body };
        proof {
            assert(forall|yy: int| 0 <= yy < b@.len() ==> b@[yy] == b.body@[yy]@);
        }
        b
    }

    /// Wraps an already-built row-major matrix. Rectangularity (and
    /// non-emptiness in both dimensions) is the caller's burden, not a
    /// checked error.
    pub fn from(body: Body<T>) -> (b: Board<T>)
        requires
            body@.len() >= 1,
            body@[0]@.len() >= 1,
            forall|y: int| 0 <= y < body@.len() ==> (#[trigger] body@[y]@.len()) == body@[0]@.len(),
        ensures
            b.wf(),
            b@ == body@.map_values(|row: Vec<T>| row@),
            b@.len() == body@.len(),
            forall|y: int| 0 <= y < body@.len() ==> b@[y] == body@[y]@,
    {
        let b = Board { body };
        proof {
            assert(forall|y: int| 0 <= y < b@.len() ==> b@[y] == b.body@[y]@);
            assert(b.body.len() == b@.len());
            assert(b.body@[0].len() == b@[0].len());
        }
        b
    }

    /// The board's dimensions: width from the first row, height from
    /// the number of rows.
    pub fn size(&self) -> (s: Size)
        requires
            self.wf(),
        ensures
            s.width == grid_width(self@),
            s.height == grid_height(self@),
    {
        proof {
            assert(self@[0] == self.body@[0]@);
        }
        Size::of(self.body[0].len(), self.body.len())
    }

    /// True iff `base` addresses a cell of this board.
    pub fn is_valid(&self, base: Point) -> (r: bool)
        requires
            self.wf(),
        ensures
            r == point_in(self@, base),
    {
        let size = self.size();
        base.y <= size.height - 1 && base.x <= size.width - 1
    }

    /// `base` wrapped as present iff it addresses a cell.
    pub fn valid(&self, base: Point) -> (r: Option<Point>)
        requires
            self.wf(),
        ensures
            r == valid_spec(self@, base),
    {
        if self.is_valid(base) {
            Some(base)
        } else {
            None
        }
    }

    /// The neighbour above `point`: absent when `point.y == 0`,
    /// otherwise `valid` of the point one row up.
    pub fn top(&self, point: Point) -> (r: Option<Point>)
        requires
            self.wf(),
        ensures
            r == (if point.y == 0 {
                None::<Point>
            } else {
                valid_spec(self@, Point { x: point.x, y: (point.y - 1) as usize })
            }),
    {
        if point.y == 0 {
            None
        } else {
            self.valid(Point::of(point.x, point.y - 1))
        }
    }

    /// The neighbour below `point`: absent when the row below is past
    /// the bottom edge or `point.x` is out of range.
    pub fn bottom(&self, point: Point) -> (r: Option<Point>)
        requires
            self.wf(),
        ensures
            r == (if point.y + 1 < grid_height(self@) {
                valid_spec(self@, Point { x: point.x, y: (point.y + 1) as usize })
            } else {
                None::<Point>
            }),
    {
        let size = self.size();
        if point.y < size.height - 1 {
            self.valid(Point::of(point.x, point.y + 1))
        } else {
            None
        }
    }

    /// The neighbour to the left of `point`: absent when
    /// `point.x == 0`, otherwise `valid` of the point one column left.
    pub fn left(&self, point: Point) -> (r: Option<Point>)
        requires
            self.wf(),
        ensures
            r == (if point.x == 0 {
                None::<Point>
            } else {
                valid_spec(self@, Point { x: (point.x - 1) as usize, y: point.y })
            }),
    {
        if point.x == 0 {
            None
        } else {
            self.valid(Point::of(point.x - 1, point.y))
        }
    }

    /// The neighbour to the right of `point`: absent when the column
    /// to the right is past the right edge or `point.y` is out of
    /// range.
    pub fn right(&self, point: Point) -> (r: Option<Point>)
        requires
            self.wf(),
        ensures
            r == (if point.x + 1 < grid_width(self@) {
                valid_spec(self@, Point { x: (point.x + 1) as usize, y: point.y })
            } else {
                None::<Point>
            }),
    {
        let size = self.size();
        if point.x < size.width - 1 {
            self.valid(Point::of(point.x + 1, point.y))
        } else {
            None
        }
    }

    /// The cell at `base`, unchecked: callers guarantee validity.
    pub fn pick(&self, base: Point) -> (r: &T)
        requires
            self.wf(),
            point_in(self@, base),
        ensures
            *r == cell_at(self@, base),
    {
        proof {
            assert(self@[base.y as int] == self.body@[base.y as int]@);
        }
        &self.body[base.y][base.x]
    }

    /// The cell at `base`, bounds-checked: a failure (with no payload)
    /// exactly when `base` addresses no cell.
    pub fn try_pick(&self, base: Point) -> (r: Result<&T, ()>)
        requires
            self.wf(),
        ensures
            r is Ok <==> point_in(self@, base),
            r matches Ok(v) ==> *v == cell_at(self@, base),
    {
        if self.is_valid(base) {
            Ok(self.pick(base))
        } else {
            Err(())
        }
    }

    /// Threads an accumulator through every cell exactly once, in
    /// strict row-major order (row 0 first, and left to right within a
    /// row): the result is reached from `init` by one application of
    /// `f` per entry of `cell_seq`, in order.
    pub fn fold<U>(&self, init: U, f: impl Fn(U, (Point, &T)) -> U) -> (r: U)
        requires
            self.wf(),
            forall|acc: U, p: Point, t: &T|
                point_in(self@, p) && *t == cell_at(self@, p) ==> #[trigger] call_requires(
                    f,
                    (acc, (p, t)),
                ),
        ensures
            exists|accs: Seq<U>|
                {
                    &&& accs.len() == cell_seq(self@).len() + 1
                    &&& accs[0] == init
                    &&& accs[cell_seq(self@).len() as int] == r
                    &&& forall|k: int|
                        0 <= k < cell_seq(self@).len() ==> call_ensures(
                            f,
                            (#[trigger] accs[k], (cell_seq(self@)[k].0, &cell_seq(self@)[k].1)),
                            accs[k + 1],
                        )
                },
    {
        let ghost g = self@;
        let ghost cs = cell_seq(g);
        let ghost init0 = init;
        let size = self.size();
        let w = size.width;
        let h = size.height;
        let ghost mut accs: Seq<U> = Seq::empty().push(init);
        let mut acc = init;
        proof {
            assert(accs.len() == 0 * w + 1);
            assert(accs[(0 * w) as int] == acc);
        }
        for y in 0..h
            invariant
                self.wf(),
                g == self@,
                cs == cell_seq(g),
                w == grid_width(g),
                h == grid_height(g),
                forall|a: U, p: Point, t: &T|
                    point_in(g, p) && *t == cell_at(g, p) ==> #[trigger] call_requires(
                        f,
                        (a, (p, t)),
                    ),
                accs.len() == y * w + 1,
                accs[0] == init0,
                accs[(y * w) as int] == acc,
                forall|k: int|
                    0 <= k < y * w ==> call_ensures(
                        f,
                        (#[trigger] accs[k], (cs[k].0, &cs[k].1)),
                        accs[k + 1],
                    ),
        {
            for x in 0..w
                invariant
                    self.wf(),
                    g == self@,
                    cs == cell_seq(g),
                    w == grid_width(g),
                    h == grid_height(g),
                    y < h,
                    forall|a: U, p: Point, t: &T|
                        point_in(g, p) && *t == cell_at(g, p) ==> #[trigger] call_requires(
                            f,
                            (a, (p, t)),
                        ),
                    accs.len() == y * w + x + 1,
                    accs[0] == init0,
                    accs[(y * w + x) as int] == acc,
                    forall|k: int|
                        0 <= k < y * w + x ==> call_ensures(
                            f,
                            (#[trigger] accs[k], (cs[k].0, &cs[k].1)),
                            accs[k + 1],
                        ),
            {
                let p = Point::of(x, y);
                proof {
                    lemma_cell_seq_index(g, p);
                    assert(cs[y * w + x] == (p, cell_at(g, p)));
                }
                let t = self.pick(p);
                acc = f(acc, (p, t));
                proof {
                    accs = accs.push(acc);
                }
            }
            proof {
                assert((y + 1) * w == y * w + w) by (nonlinear_arith);
            }
        }
        proof {
            assert(accs.len() == cs.len() + 1);
            assert(accs[cs.len() as int] == acc);
        }
        acc
    }

    /// Threads an accumulator through every cell exactly once, in
    /// exactly the reverse of `fold`'s row-major order (last row
    /// first, right to left within a row), while passing each cell's
    /// true coordinate: step `k` applies `f` to the entry of
    /// `cell_seq` at index `len - 1 - k`.
    pub fn fold_rev<U>(&self, init: U, f: impl Fn(U, (Point, &T)) -> U) -> (r: U)
        requires
            self.wf(),
            forall|acc: U, p: Point, t: &T|
                point_in(self@, p) && *t == cell_at(self@, p) ==> #[trigger] call_requires(
                    f,
                    (acc, (p, t)),
                ),
        ensures
            exists|accs: Seq<U>|
                {
                    &&& accs.len() == cell_seq(self@).len() + 1
                    &&& accs[0] == init
                    &&& accs[cell_seq(self@).len() as int] == r
                    &&& forall|k: int|
                        0 <= k < cell_seq(self@).len() ==> call_ensures(
                            f,
                            (
                                #[trigger] accs[k],
                                (
                                    cell_seq(self@)[cell_seq(self@).len() - 1 - k].0,
                                    &cell_seq(self@)[cell_seq(self@).len() - 1 - k].1,
                                ),
                            ),
                            accs[k + 1],
                        )
                },
    {
        let ghost g = self@;
        let ghost cs = cell_seq(g);
        let ghost init0 = init;
        let size = self.size();
        let w = size.width;
        let h = size.height;
        let ghost mut accs: Seq<U> = Seq::empty().push(init);
        let mut acc = init;
        proof {
            assert(accs.len() == 0 * w + 1);
            assert(accs[(0 * w) as int] == acc);
        }
        for y in 0..h
            invariant
                self.wf(),
                g == self@,
                cs == cell_seq(g),
                w == grid_width(g),
                h == grid_height(g),
                cs.len() == h * w,
                forall|a: U, p: Point, t: &T|
                    point_in(g, p) && *t == cell_at(g, p) ==> #[trigger] call_requires(
                        f,
                        (a, (p, t)),
                    ),
                accs.len() == y * w + 1,
                accs[0] == init0,
                accs[(y * w) as int] == acc,
                forall|k: int|
                    0 <= k < y * w ==> call_ensures(
                        f,
                        (#[trigger] accs[k], (cs[cs.len() - 1 - k].0, &cs[cs.len() - 1 - k].1)),
                        accs[k + 1],
                    ),
        {
            for x in 0..w
                invariant
                    self.wf(),
                    g == self@,
                    cs == cell_seq(g),
                    w == grid_width(g),
                    h == grid_height(g),
                    cs.len() == h * w,
                    y < h,
                    forall|a: U, p: Point, t: &T|
                        point_in(g, p) && *t == cell_at(g, p) ==> #[trigger] call_requires(
                            f,
                            (a, (p, t)),
                        ),
                    accs.len() == y * w + x + 1,
                    accs[0] == init0,
                    accs[(y * w + x) as int] == acc,
                    forall|k: int|
                        0 <= k < y * w + x ==> call_ensures(
                            f,
                            (#[trigger] accs[k], (cs[cs.len() - 1 - k].0, &cs[cs.len() - 1 - k].1)),
                            accs[k + 1],
                        ),
            {
                let yy = h - 1 - y;
                let xx = w - 1 - x;
                let p = Point::of(xx, yy);
                proof {
                    lemma_cell_seq_index(g, p);
                    assert((h - 1 - y) * w + (w - 1 - x) == h * w - 1 - (y * w + x))
                        by (nonlinear_arith)
                        requires
                            y < h,
                            x < w,
                    ;
                    assert(cs[cs.len() - 1 - (y * w + x)] == (p, cell_at(g, p)));
                }
                let t = self.pick(p);
                acc = f(acc, (p, t));
                proof {
                    accs = accs.push(acc);
                }
            }
            proof {
                assert((y + 1) * w == y * w + w) by (nonlinear_arith);
            }
        }
        proof {
            assert(accs.len() == cs.len() + 1);
            assert(accs[cs.len() as int] == acc);
        }
        acc
    }

    /// Performs a side effect per cell, visiting every cell exactly
    /// once in the same forward row-major order as `fold`, and
    /// returns nothing.
    pub fn each(&self, f: impl Fn((Point, &T)) -> ())
        requires
            self.wf(),
            forall|p: Point, t: &T|
                point_in(self@, p) && *t == cell_at(self@, p) ==> #[trigger] call_requires(
                    f,
                    ((p, t),),
                ),
    {
        let size = self.size();
        let w = size.width;
        let h = size.height;
        for y in 0..h
            invariant
                self.wf(),
                w == grid_width(self@),
                h == grid_height(self@),
                forall|p: Point, t: &T|
                    point_in(self@, p) && *t == cell_at(self@, p) ==> #[trigger] call_requires(
                        f,
                        ((p, t),),
                    ),
        {
            for x in 0..w
                invariant
                    self.wf(),
                    w == grid_width(self@),
                    h == grid_height(self@),
                    y < h,
                    forall|p: Point, t: &T|
                        point_in(self@, p) && *t == cell_at(self@, p) ==> #[trigger] call_requires(
                            f,
                            ((p, t),),
                        ),
            {
                let p = Point::of(x, y);
                let t = self.pick(p);
                f((p, t));
            }
        }
    }

    /// Builds a new board of the same shape whose cell at each valid
    /// point `p` is a result of `f((p, cell at p))`; the receiver is
    /// left unmodified. Every cell is used exactly once.
    pub fn map(&self, f: impl Fn((Point, &T)) -> T) -> (res: Board<T>)
        requires
            self.wf(),
            forall|p: Point, t: &T|
                point_in(self@, p) && *t == cell_at(self@, p) ==> #[trigger] call_requires(
                    f,
                    ((p, t),),
                ),
        ensures
            res.wf(),
            grid_width(res@) == grid_width(self@),
            grid_height(res@) == grid_height(self@),
            forall|p: Point|
                #[trigger] point_in(self@, p) ==> call_ensures(
                    f,
                    ((p, &cell_at(self@, p)),),
                    cell_at(res@, p),
                ),
    {
        let body = self.map2d(f);
        let res = Board { body };
        proof {
            assert(forall|y: int| 0 <= y < res@.len() ==> res@[y] == res.body@[y]@);
            assert(res.body.len() == res@.len());
            assert(res.body@[0].len() == res@[0].len());
            assert forall|p: Point| #[trigger] point_in(self@, p) implies call_ensures(
                f,
                ((p, &cell_at(self@, p)),),
                cell_at(res@, p),
            ) by {
                assert(cell_at(res@, p) == res.body@[p.y as int]@[p.x as int]);
            }
        }
        res
    }

    /// Renders the grid for diagnostics, one line per board row in
    /// forward row-major order: within a line, every cell's
    /// caller-supplied rendering is preceded by a separator bar, and a
    /// trailing bar closes the line. Writing the lines to a stream is
    /// the caller's business.
    pub fn render(&self, f: impl Fn((Point, &T)) -> String) -> (lines: Vec<String>)
        requires
            self.wf(),
            forall|p: Point, t: &T|
                point_in(self@, p) && *t == cell_at(self@, p) ==> #[trigger] call_requires(
                    f,
                    ((p, t),),
                ),
        ensures
            lines@.len() == grid_height(self@),
            exists|rend: Seq<String>|
                {
                    &&& rend.len() == cell_seq(self@).len()
                    &&& forall|k: int|
                        0 <= k < rend.len() ==> call_ensures(
                            f,
                            ((cell_seq(self@)[k].0, &cell_seq(self@)[k].1),),
                            #[trigger] rend[k],
                        )
                    &&& forall|y: int|
                        0 <= y < grid_height(self@) ==> (#[trigger] lines@[y]@) == framed_row(
                            views_of(
                                rend.subrange(
                                    y * grid_width(self@),
                                    y * grid_width(self@) + grid_width(self@),
                                ),
                            ),
                        )
                },
    {
        let ghost g = self@;
        let ghost cs = cell_seq(g);
        let size = self.size();
        let w = size.width;
        let h = size.height;
        let mut lines: Vec<String> = Vec::with_capacity(h);
        let ghost mut rend: Seq<String> = Seq::empty();
        proof {
            assert(rend.len() == 0 * w);
        }
        for y in 0..h
            invariant
                self.wf(),
                g == self@,
                cs == cell_seq(g),
                w == grid_width(g),
                h == grid_height(g),
                cs.len() == h * w,
                forall|p: Point, t: &T|
                    point_in(g, p) && *t == cell_at(g, p) ==> #[trigger] call_requires(
                        f,
                        ((p, t),),
                    ),
                lines@.len() == y,
                rend.len() == y * w,
                forall|k: int|
                    0 <= k < y * w ==> call_ensures(
                        f,
                        ((cs[k].0, &cs[k].1),),
                        #[trigger] rend[k],
                    ),
                forall|yy: int|
                    0 <= yy < y ==> (#[trigger] lines@[yy]@) == framed_row(
                        views_of(rend.subrange(yy * w, yy * w + w)),
                    ),
        {
            let mut line = String::new();
            let ghost mut row_rend: Seq<String> = Seq::empty();
            proof {
                assert(views_of(row_rend) =~= Seq::<Seq<char>>::empty());
                assert(line@ =~= row_cells_chars(views_of(row_rend)));
            }
            for x in 0..w
                invariant
                    self.wf(),
                    g == self@,
                    cs == cell_seq(g),
                    w == grid_width(g),
                    h == grid_height(g),
                    cs.len() == h * w,
                    y < h,
                    forall|p: Point, t: &T|
                        point_in(g, p) && *t == cell_at(g, p) ==> #[trigger] call_requires(
                            f,
                            ((p, t),),
                        ),
                    row_rend.len() == x,
                    line@ == row_cells_chars(views_of(row_rend)),
                    forall|xx: int|
                        0 <= xx < x ==> call_ensures(
                            f,
                            ((cs[y * w + xx].0, &cs[y * w + xx].1),),
                            #[trigger] row_rend[xx],
                        ),
            {
                let p = Point::of(x, y);
                proof {
                    lemma_cell_seq_index(g, p);
                    assert(cs[y * w + x] == (p, cell_at(g, p)));
                }
                let t = self.pick(p);
                let cell = f((p, t));
                line.append("|");
                line.append(cell.as_str());
                proof {
                    reveal_strlit("|");
                    assert("|"@ =~= seq!['|']);
                    lemma_row_cells_chars_push(views_of(row_rend), cell@);
                    assert(views_of(row_rend.push(cell)) =~= views_of(row_rend).push(cell@));
                    row_rend = row_rend.push(cell);
                }
            }
            line.append("|");
            proof {
                reveal_strlit("|");
                assert("|"@ =~= seq!['|']);
                assert(line@ == framed_row(views_of(row_rend)));
            }
            lines.push(line);
            proof {
                let ghost rend0 = rend;
                rend = rend + row_rend;
                assert(rend.subrange(y * w, y * w + w) =~= row_rend);
                assert forall|yy: int| 0 <= yy < y implies (#[trigger] lines@[yy]@) == framed_row(
                    views_of(rend.subrange(yy * w, yy * w + w)),
                ) by {
                    assert(yy * w + w <= y * w) by (nonlinear_arith)
                        requires
                            0 <= yy < y,
                            w >= 0,
                    ;
                    assert(rend.subrange(yy * w, yy * w + w) =~= rend0.subrange(
                        yy * w,
                        yy * w + w,
                    ));
                }
                assert((y + 1) * w == y * w + w) by (nonlinear_arith);
            }
        }
        proof {
            assert(rend.len() == cs.len());
            assert forall|y: int| 0 <= y < h implies (#[trigger] lines@[y]@) == framed_row(
                views_of(rend.subrange(y * grid_width(g), y * grid_width(g) + grid_width(g))),
            ) by {
                assert(lines@[y]@ == framed_row(views_of(rend.subrange(y * w, y * w + w))));
            }
        }
        lines
    }

    /// Row-major matrix of the results of `f` on every cell: the
    /// backing store that `map` wraps.
    fn map2d(&self, f: impl Fn((Point, &T)) -> T) -> (body: Body<T>)
        requires
            self.wf(),
            forall|p: Point, t: &T|
                point_in(self@, p) && *t == cell_at(self@, p) ==> #[trigger] call_requires(
                    f,
                    ((p, t),),
                ),
        ensures
            body@.len() == grid_height(self@),
            forall|y: int| 0 <= y < body@.len() ==> (#[trigger] body@[y]@.len()) == grid_width(self@),
            forall|y: int, x: int|
                0 <= y < grid_height(self@) && 0 <= x < grid_width(self@) ==> call_ensures(
                    f,
                    ((Point { x: x as usize, y: y as usize }, &self@[y][x]),),
                    #[trigger] body@[y]@[x],
                ),
    {
        let size = self.size();
        let w = size.width;
        let h = size.height;
        let mut body: Vec<Vec<T>> = Vec::with_capacity(h);
        for y in 0..h
            invariant
                self.wf(),
                w == grid_width(self@),
                h == grid_height(self@),
                forall|p: Point, t: &T|
                    point_in(self@, p) && *t == cell_at(self@, p) ==> #[trigger] call_requires(
                        f,
                        ((p, t),),
                    ),
                body@.len() == y,
                forall|yy: int| 0 <= yy < y ==> (#[trigger] body@[yy]@.len()) == w,
                forall|yy: int, xx: int|
                    0 <= yy < y && 0 <= xx < w ==> call_ensures(
                        f,
                        ((Point { x: xx as usize, y: yy as usize }, &self@[yy][xx]),),
                        #[trigger] body@[yy]@[xx],
                    ),
        {
            let mut row: Vec<T> = Vec::with_capacity(w);
            for x in 0..w
                invariant
                    self.wf(),
                    w == grid_width(self@),
                    h == grid_height(self@),
                    y < h,
                    forall|p: Point, t: &T|
                        point_in(self@, p) && *t == cell_at(self@, p) ==> #[trigger] call_requires(
                            f,
                            ((p, t),),
                        ),
                    row@.len() == x,
                    forall|xx: int|
                        0 <= xx < x ==> call_ensures(
                            f,
                            ((Point { x: xx as usize, y: y as usize }, &self@[y as int][xx]),),
                            #[trigger] row@[xx],
                        ),
            {
                let p = Point::of(x, y);
                let t = self.pick(p);
                row.push(f((p, t)));
            }
            body.push(row);
        }
        body
    }

    /// Consumes the board and returns it with the cells at `a` and
    /// `b` exchanged, unchecked on both points: callers guarantee
    /// validity. Nothing else changes.
    pub fn change(self, a: Point, b: Point) -> (res: Board<T>)
        requires
            self.wf(),
            point_in(self@, a),
            point_in(self@, b),
        ensures
            res.wf(),
            swapped(self@, res@, a, b),
    {
        let ghost g0 = self@;
        let mut this = self;
        if a.y == b.y && a.x == b.x {
            return this;
        }
        if a.y == b.y {
            let y = a.y;
            let i: usize = if a.x < b.x { a.x } else { b.x };
            let j: usize = if a.x < b.x { b.x } else { a.x };
            let ghost row = g0[y as int];
            let vj = this.body[y].remove(j);
            let vi = this.body[y].remove(i);
            this.body[y].insert(i, vj);
            this.body[y].insert(j, vi);
            proof {
                assert(this.body@[y as int]@ =~= row.update(i as int, row[j as int]).update(
                    j as int,
                    row[i as int],
                ));
                assert(forall|yy: int| 0 <= yy < g0.len() ==> this@[yy] == this.body@[yy]@);
            }
        } else {
            let ghost row_a = g0[a.y as int];
            let ghost row_b = g0[b.y as int];
            let va = this.body[a.y].remove(a.x);
            let vb = this.body[b.y].remove(b.x);
            this.body[a.y].insert(a.x, vb);
            this.body[b.y].insert(b.x, va);
            proof {
                assert(this.body@[a.y as int]@ =~= row_a.update(a.x as int, cell_at(g0, b)));
                assert(this.body@[b.y as int]@ =~= row_b.update(b.x as int, cell_at(g0, a)));
                assert(forall|yy: int| 0 <= yy < g0.len() ==> this@[yy] == this.body@[yy]@);
            }
        }
        proof {
            assert(this@.len() == g0.len());
            assert(forall|yy: int|
                0 <= yy < g0.len() ==> (#[trigger] this@[yy]).len() == g0[yy].len());
            assert(grid_wf(this@));
        }
        this
    }

    /// Overwrites the cell at `point`, unchecked: callers guarantee
    /// validity. Only that cell changes.
    pub fn insert(&mut self, point: Point, element: T)
        requires
            old(self).wf(),
            point_in(old(self)@, point),
        ensures
            final(self).wf(),
            final(self)@ == old(self)@.update(
                point.y as int,
                old(self)@[point.y as int].update(point.x as int, element),
            ),
    {
        proof {
            assert(old(self)@[point.y as int] == self.body@[point.y as int]@);
        }
        self.body[point.y][point.x] = element;
        proof {
            assert(final(self)@ =~= old(self)@.update(
                point.y as int,
                old(self)@[point.y as int].update(point.x as int, element),
            ));
        }
    }
}

} // verus!
