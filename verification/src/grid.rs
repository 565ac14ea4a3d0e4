//! The board model: a rectangular grid of letters with coordinate cells,
//! adjacency queries that exclude already-visited cells, and the mapping
//! from a path of cells to the characters it spells.

use vstd::prelude::*;
use vstd::set_lib::*;

verus! {

/// A position on the board: column `x`, row `y`.
#[derive(Clone, Copy, Debug, PartialEq, Eq, Structural)]
pub struct Point {
    pub x: i16,
    pub y: i16,
}

/// An ordered walk through the board; the search keeps its cells distinct.
pub type Path = Vec<Point>;

/// `a` and `b` are distinct cells at Chebyshev distance one: each
/// coordinate differs by at most one and they are not the same cell.
pub open spec fn points_adjacent(a: Point, b: Point) -> bool {
    let dx = a.x as int - b.x as int;
    let dy = a.y as int - b.y as int;
    !(dx == 0 && dy == 0) && -1 <= dx <= 1 && -1 <= dy <= 1
}

/// Column-major order on cells: the order in which the neighbour scan
/// visits the window around a cell.
pub open spec fn point_lex_lt(a: Point, b: Point) -> bool {
    a.x < b.x || (a.x == b.x && a.y < b.y)
}

/// The fatal conditions of the board load: no rows at all, rows of unequal
/// length, or a board too large for its coordinate type.
#[derive(Clone, Copy, Debug, PartialEq, Eq, Structural)]
pub enum GridError {
    NoRows,
    UnevenRows,
    TooLarge,
}

/// The letter grid, immutable once constructed: `height` rows of `width`
/// characters each.
pub struct Board {
    board: Vec<Vec<char>>,
    width: i16,
    height: i16,
}

impl Board {
    pub closed spec fn spec_width(self) -> int {
        self.width as int
    }

    pub closed spec fn spec_height(self) -> int {
        self.height as int
    }

    /// Every row holds exactly `width` characters and there are exactly
    /// `height` rows.
    pub closed spec fn wf(self) -> bool {
        &&& self.width >= 0
        &&& self.height >= 0
        &&& self.board@.len() == self.height as int
        &&& forall|y: int|
            0 <= y < self.board@.len() ==> (#[trigger] self.board@[y])@.len() == self.width as int
    }

    pub open spec fn in_bounds(self, p: Point) -> bool {
        &&& 0 <= (p.x as int) && (p.x as int) < self.spec_width()
        &&& 0 <= (p.y as int) && (p.y as int) < self.spec_height()
    }

    pub closed spec fn char_at_spec(self, p: Point) -> char {
        self.board@[p.y as int]@[p.x as int]
    }

    pub open spec fn path_in_bounds(self, path: Seq<Point>) -> bool {
        forall|i: int| 0 <= i < path.len() ==> self.in_bounds(#[trigger] path[i])
    }

    /// The characters a path spells, cell by cell in path order.
    pub open spec fn chars_of(self, path: Seq<Point>) -> Seq<char> {
        path.map_values(|p: Point| self.char_at_spec(p))
    }

    /// Builds the board from its rows. The width is taken from the first
    /// row and every later row must match it; an empty row list and an
    /// oversized board are the other fatal conditions.
    pub fn new(rows: Vec<Vec<char>>) -> (r: Result<Board, GridError>)
        ensures
            (r matches Err(e) && e == GridError::NoRows) <==> rows@.len() == 0,
            (r matches Err(e) && e == GridError::TooLarge) <==> (rows@.len() > 0 && (rows@.len()
                > i16::MAX as int || rows@[0]@.len() > i16::MAX as int)),
            (r matches Err(e) && e == GridError::UnevenRows) <==> (0 < rows@.len()
                && rows@.len() <= i16::MAX as int && rows@[0]@.len() <= i16::MAX as int && (exists|y: int|
                0 <= y < rows@.len() && (#[trigger] rows@[y])@.len() != rows@[0]@.len())),
            r matches Ok(b) ==> {
                &&& b.wf()
                &&& b.spec_height() == rows@.len()
                &&& b.spec_width() == rows@[0]@.len()
                &&& forall|p: Point|
                    b.in_bounds(p) ==> b.char_at_spec(p) == rows@[p.y as int]@[p.x as int]
            },
    {
        if rows.len() == 0 {
            return Err(GridError::NoRows);
        }
        if rows.len() > i16::MAX as usize || rows[0].len() > i16::MAX as usize {
            return Err(GridError::TooLarge);
        }
        let width = rows[0].len();
        let mut y: usize = 1;
        while y < rows.len()
            invariant
                rows@.len() > 0,
                rows@.len() <= i16::MAX as int,
                rows@[0]@.len() <= i16::MAX as int,
                width == rows@[0]@.len(),
                1 <= y <= rows@.len(),
                forall|j: int| 0 <= j < y ==> (#[trigger] rows@[j])@.len() == width,
            decreases rows@.len() - y,
        {
            if rows[y].len() != width {
                return Err(GridError::UnevenRows);
            }
            y += 1;
        }
        let height = rows.len();
        let ghost rv = rows@;
        let b = Board { board: rows, width: width as i16, height: height as i16 };
        proof {
            assert forall|p: Point| b.in_bounds(p) implies b.char_at_spec(p) == rv[p.y as int]@[p.x as int] by {}
        }
        Ok(b)
    }

    pub fn width(&self) -> (w: i16)
        ensures
            w as int == self.spec_width(),
    {
        self.width
    }

    pub fn height(&self) -> (h: i16)
        ensures
            h as int == self.spec_height(),
    {
        self.height
    }

    /// Direct lookup of the letter at a cell; callers only pass cells in
    /// bounds.
    pub fn char_at(&self, point: &Point) -> (c: char)
        requires
            self.wf(),
            self.in_bounds(*point),
        ensures
            c == self.char_at_spec(*point),
    {
        self.board[point.y as usize][point.x as usize]
    }

    /// The characters spelled by a path, in path order: the string the
    /// dictionary index is queried with.
    pub fn to_chars(&self, path: &Path) -> (r: Vec<char>)
        requires
            self.wf(),
            self.path_in_bounds(path@),
        ensures
            r@ == self.chars_of(path@),
    {
        let mut r: Vec<char> = Vec::new();
        let mut i: usize = 0;
        while i < path.len()
            invariant
                self.wf(),
                self.path_in_bounds(path@),
                i <= path@.len(),
                r@.len() == i,
                forall|j: int| 0 <= j < i ==> r@[j] == self.char_at_spec(#[trigger] path@[j]),
            decreases path@.len() - i,
        {
            r.push(self.char_at(&path[i]));
            i += 1;
        }
        proof {
            assert(r@ =~= self.chars_of(path@));
        }
        r
    }

    /// The character shown at `(x, y)` when rendering a path: the cell's
    /// letter when the cell lies on the path, a space otherwise.
    pub open spec fn render_cell(self, path: Seq<Point>, x: int, y: int) -> char {
        let p = Point { x: x as i16, y: y as i16 };
        if path.contains(p) {
            self.char_at_spec(p)
        } else {
            ' '
        }
    }

    /// The first `n` rendered characters of row `y`.
    pub open spec fn render_row(self, path: Seq<Point>, y: int, n: int) -> Seq<char>
        decreases n,
    {
        if n <= 0 {
            Seq::empty()
        } else {
            self.render_row(path, y, n - 1).push(self.render_cell(path, n - 1, y))
        }
    }

    /// The first `m` rendered rows, each of full width and ended by a
    /// newline.
    pub open spec fn render_rows(self, path: Seq<Point>, m: int) -> Seq<char>
        decreases m,
    {
        if m <= 0 {
            Seq::empty()
        } else {
            self.render_rows(path, m - 1) + self.render_row(path, m - 1, self.spec_width()).push(
                '\n',
            )
        }
    }

    /// The whole rendered board: the visual map of a path.
    pub open spec fn render(self, path: Seq<Point>) -> Seq<char> {
        self.render_rows(path, self.spec_height())
    }

    /// Renders a path as a height-by-width map: cells on the path show
    /// their letter, every other cell a space, one line per row.
    pub fn to_str(&self, path: &Path) -> (s: String)
        requires
            self.wf(),
        ensures
            s@ == self.render(path@),
    {
        let mut out: Vec<char> = Vec::new();
        let mut y: i16 = 0;
        while y < self.height
            invariant
                self.wf(),
                0 <= (y as int) && (y as int) <= self.spec_height(),
                out@ == self.render_rows(path@, y as int),
            decreases self.height - y,
        {
            proof {
                assert(out@ =~= self.render_rows(path@, y as int) + self.render_row(
                    path@,
                    y as int,
                    0,
                ));
            }
            let mut x: i16 = 0;
            while x < self.width
                invariant
                    self.wf(),
                    0 <= (y as int) && (y as int) < self.spec_height(),
                    0 <= (x as int) && (x as int) <= self.spec_width(),
                    out@ == self.render_rows(path@, y as int) + self.render_row(
                        path@,
                        y as int,
                        x as int,
                    ),
                decreases self.width - x,
            {
                let p = Point { x, y };
                if path_contains(path, &p) {
                    out.push(self.char_at(&p));
                } else {
                    out.push(' ');
                }
                proof {
                    assert(out@ =~= self.render_rows(path@, y as int) + self.render_row(
                        path@,
                        y as int,
                        x as int + 1,
                    ));
                }
                x += 1;
            }
            out.push('\n');
            proof {
                assert(out@ =~= self.render_rows(path@, y as int + 1));
            }
            y += 1;
        }
        chars_to_string(out)
    }
}

impl Board {
    /// Every cell of the ring around `point`, clipped to the board and
    /// with the cells of `path` left out, in column-major scan order.
    /// `point` itself is never among them, so at most eight cells come
    /// back, each at Chebyshev distance exactly one from `point`.
    #[verifier::loop_isolation(false)]
    pub fn neighbours(&self, point: &Point, path: &Path) -> (r: Vec<Point>)
        requires
            self.wf(),
            self.in_bounds(*point),
        ensures
            forall|i: int|
                0 <= i < r@.len() ==> self.in_bounds(#[trigger] r@[i]) && points_adjacent(
                    *point,
                    r@[i],
                ) && !path@.contains(r@[i]),
            forall|q: Point|
                self.in_bounds(q) && points_adjacent(*point, q) && !path@.contains(q)
                    ==> r@.contains(q),
            forall|i: int, j: int|
                0 <= i < j < r@.len() ==> point_lex_lt(#[trigger] r@[i], #[trigger] r@[j]),
            r@.no_duplicates(),
            r@.len() <= 8,
    {
        let px = point.x;
        let py = point.y;
        let xfloor: i16 = if px >= 1 {
            px - 1
        } else {
            0
        };
        let xceil: i16 = if px + 1 <= self.width - 1 {
            px + 2
        } else {
            self.width
        };
        let yfloor: i16 = if py >= 1 {
            py - 1
        } else {
            0
        };
        let yceil: i16 = if py + 1 <= self.height - 1 {
            py + 2
        } else {
            self.height
        };
        let mut r: Vec<Point> = Vec::new();
        let mut x: i16 = xfloor;
        while x < xceil
            invariant
                xfloor <= x && (x as int) <= (xceil as int),
                forall|i: int|
                    0 <= i < r@.len() ==> self.in_bounds(#[trigger] r@[i]) && points_adjacent(
                        *point,
                        r@[i],
                    ) && !path@.contains(r@[i]) && (r@[i].x as int) < (x as int),
                forall|q: Point|
                    self.in_bounds(q) && points_adjacent(*point, q) && !path@.contains(q) && (
                    q.x as int) < (x as int) ==> r@.contains(q),
                forall|i: int, j: int|
                    0 <= i < j < r@.len() ==> point_lex_lt(#[trigger] r@[i], #[trigger] r@[j]),
            decreases xceil - x,
        {
            let mut y: i16 = yfloor;
            while y < yceil
                invariant
                    xfloor <= x && x < xceil,
                    yfloor <= y && (y as int) <= (yceil as int),
                    forall|i: int|
                        0 <= i < r@.len() ==> self.in_bounds(#[trigger] r@[i]) && points_adjacent(
                            *point,
                            r@[i],
                        ) && !path@.contains(r@[i]) && ((r@[i].x as int) < (x as int) || (r@[i].x
                            == x && (r@[i].y as int) < (y as int))),
                    forall|q: Point|
                        self.in_bounds(q) && points_adjacent(*point, q) && !path@.contains(q) && ((
                        q.x as int) < (x as int) || (q.x == x && (q.y as int) < (y as int)))
                            ==> r@.contains(q),
                    forall|i: int, j: int|
                        0 <= i < j < r@.len() ==> point_lex_lt(#[trigger] r@[i], #[trigger] r@[j]),
                decreases yceil - y,
            {
                let p = Point { x, y };
                let ghost r_before = r@;
                if !(x == px && y == py) {
                    if !path_contains(path, &p) {
                        r.push(p);
                    }
                }
                proof {
                    assert forall|q: Point|
                        self.in_bounds(q) && points_adjacent(*point, q) && !path@.contains(q) && ((
                        q.x as int) < (x as int) || (q.x == x && (q.y as int) < (y as int)
                            + 1)) implies r@.contains(q) by {
                        if q.x == x && (q.y as int) == (y as int) {
                            assert(q == p);
                            assert(r@[r@.len() - 1] == p);
                        } else {
                            assert(r_before.contains(q));
                            let k = choose|k: int| 0 <= k < r_before.len() && r_before[k] == q;
                            assert(r@[k] == q);
                        }
                    }
                }
                y += 1;
            }
            proof {
                assert forall|q: Point|
                    self.in_bounds(q) && points_adjacent(*point, q) && !path@.contains(q) && (
                q.x as int) < (x as int) + 1 implies r@.contains(q) by {
                    if (q.x as int) == (x as int) {
                        assert((q.y as int) < (yceil as int));
                        assert((yfloor as int) <= (q.y as int));
                    }
                }
            }
            x += 1;
        }
        proof {
            assert forall|q: Point|
                self.in_bounds(q) && points_adjacent(*point, q) && !path@.contains(
                q,
            ) implies r@.contains(q) by {
                assert((q.x as int) < (xceil as int));
            }
            assert forall|i: int, j: int|
                0 <= i < r@.len() && 0 <= j < r@.len() && i != j implies r@[i] != r@[j] by {
                if i < j {
                    assert(point_lex_lt(r@[i], r@[j]));
                } else {
                    assert(point_lex_lt(r@[j], r@[i]));
                }
            }
            assert(r@.no_duplicates());
            lemma_ring_len(*self, *point, r@);
        }
        r
    }
}

/// A sequence of distinct cells, each at Chebyshev distance one from
/// `point`, holds at most the eight cells of the ring around `point`.
proof fn lemma_ring_len(b: Board, point: Point, r: Seq<Point>)
    requires
        r.no_duplicates(),
        forall|i: int| 0 <= i < r.len() ==> points_adjacent(point, #[trigger] r[i]),
    ensures
        r.len() <= 8,
{
    let enc = |q: Point| ((q.x as int) - (point.x as int) + 1) * 3 + ((q.y as int) - (
    point.y as int) + 1);
    let m = r.map_values(enc);
    assert forall|i: int, j: int|
        0 <= i < m.len() && 0 <= j < m.len() && i != j implies m[i] != m[j] by {
        assert(points_adjacent(point, r[i]));
        assert(points_adjacent(point, r[j]));
        assert(m[i] == enc(r[i]));
        assert(m[j] == enc(r[j]));
        assert(r[i] != r[j]);
    }
    assert(m.no_duplicates());
    m.unique_seq_to_set();
    let window = set_int_range(0, 9).remove(4);
    assert forall|e: int| m.to_set().contains(e) implies window.contains(e) by {
        let i = choose|i: int| 0 <= i < m.len() && m[i] == e;
        assert(points_adjacent(point, r[i]));
        assert(m[i] == enc(r[i]));
    }
    lemma_int_range(0, 9);
    lemma_len_subset(m.to_set(), window);
}

/// A path of distinct cells that all lie on the board cannot be longer
/// than the number of cells the board has.
pub proof fn lemma_path_len_bound(b: Board, p: Seq<Point>)
    requires
        b.wf(),
        p.no_duplicates(),
        b.path_in_bounds(p),
    ensures
        p.len() <= b.spec_width() * b.spec_height(),
{
    let w = b.spec_width();
    let h = b.spec_height();
    if w <= 0 || h <= 0 {
        if p.len() > 0 {
            assert(b.in_bounds(p[0]));
        }
        assert(w * h >= 0) by (nonlinear_arith)
            requires
                w >= 0,
                h >= 0,
        ;
    } else {
        let enc = |q: Point| (q.y as int) * w + (q.x as int);
        let m = p.map_values(enc);
        assert forall|i: int, j: int|
            0 <= i < m.len() && 0 <= j < m.len() && i != j implies m[i] != m[j] by {
            assert(b.in_bounds(p[i]));
            assert(b.in_bounds(p[j]));
            assert(m[i] == enc(p[i]));
            assert(m[j] == enc(p[j]));
            if m[i] == m[j] {
                lemma_cell_index_unique(
                    w,
                    p[i].x as int,
                    p[i].y as int,
                    p[j].x as int,
                    p[j].y as int,
                );
                assert(p[i] == p[j]);
            }
        }
        assert(m.no_duplicates());
        m.unique_seq_to_set();
        assert forall|e: int| m.to_set().contains(e) implies set_int_range(0, w * h).contains(
            e,
        ) by {
            let i = choose|i: int| 0 <= i < m.len() && m[i] == e;
            assert(b.in_bounds(p[i]));
            assert(m[i] == enc(p[i]));
            lemma_cell_index_range(w, h, p[i].x as int, p[i].y as int);
        }
        lemma_int_range(0, w * h);
        lemma_len_subset(m.to_set(), set_int_range(0, w * h));
    }
}

/// Row-major cell numbering is injective over one board.
proof fn lemma_cell_index_unique(w: int, x1: int, y1: int, x2: int, y2: int)
    by (nonlinear_arith)
    requires
        0 <= x1 < w,
        0 <= x2 < w,
        y1 * w + x1 == y2 * w + x2,
    ensures
        x1 == x2,
        y1 == y2,
{
}

/// Row-major cell numbering stays below the cell count.
proof fn lemma_cell_index_range(w: int, h: int, x: int, y: int)
    by (nonlinear_arith)
    requires
        0 <= x < w,
        0 <= y < h,
    ensures
        0 <= y * w + x < w * h,
{
}

/// Linear scan for a cell in a path: the membership test behind the
/// visited-cell exclusion.
fn path_contains(path: &Path, p: &Point) -> (r: bool)
    ensures
        r == path@.contains(*p),
{
    let mut i: usize = 0;
    while i < path.len()
        invariant
            i <= path@.len(),
            forall|j: int| 0 <= j < i ==> path@[j] != *p,
        decreases path@.len() - i,
    {
        if path[i] == *p {
            return true;
        }
        i += 1;
    }
    proof {
        if path@.contains(*p) {
            let k = choose|k: int| 0 <= k < path@.len() && path@[k] == *p;
        }
    }
    false
}

/// Copies a path cell by cell: the by-value capture of a walk.
pub(crate) fn clone_path(path: &Path) -> (r: Path)
    ensures
        r@ == path@,
{
    let mut r: Path = Vec::new();
    let mut i: usize = 0;
    while i < path.len()
        invariant
            i <= path@.len(),
            r@ == path@.take(i as int),
        decreases path@.len() - i,
    {
        r.push(path[i]);
        proof {
            assert(r@ =~= path@.take(i as int + 1));
        }
        i += 1;
    }
    proof {
        assert(path@.take(path@.len() as int) =~= path@);
    }
    r
}

/// Relies on std's `String::from_iter` over characters: the string holds
/// exactly the characters of `v`, in order.
#[verifier::external_body]
fn chars_to_string(v: Vec<char>) -> (r: String)
    ensures
        r@ == v@,
{
    String::from_iter(v)
}

} // verus!
