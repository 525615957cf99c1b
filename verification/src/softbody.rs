//! Topology of the mass-spring soft body: which particles a cloth grid
//! links by which kind of spring, its faces, and the particle-to-body pins.

use vstd::prelude::*;

verus! {

/// The role a spring plays in a cloth.
#[derive(Clone, Copy, Debug, PartialEq, Eq, Structural)]
pub enum SpringKind {
    Stretch,
    Shear,
    Bend,
}

/// A face of a cloth, by its three particle indices.
#[derive(Clone, Copy, Debug)]
pub struct Triangle {
    pub a: usize,
    pub b: usize,
    pub c: usize,
}

/// Which two particles a spring joins, and its kind.
#[derive(Clone, Copy, Debug)]
pub struct SpringLink {
    pub a: usize,
    pub b: usize,
    pub kind: SpringKind,
}

impl View for SpringLink {
    type V = (int, int, SpringKind);

    open spec fn view(&self) -> (int, int, SpringKind) {
        (self.a as int, self.b as int, self.kind)
    }
}

impl View for Triangle {
    type V = (int, int, int);

    open spec fn view(&self) -> (int, int, int) {
        (self.a as int, self.b as int, self.c as int)
    }
}

/// `seq![x]` when `cond` holds, the empty sequence otherwise.
pub open spec fn present_if<A>(cond: bool, x: A) -> Seq<A> {
    if cond {
        seq![x]
    } else {
        Seq::empty()
    }
}

/// `f(0) + f(1) + ... + f(n - 1)`.
pub open spec fn concat_upto<A>(f: spec_fn(int) -> Seq<A>, n: int) -> Seq<A>
    decreases n,
{
    if n <= 0 {
        Seq::empty()
    } else {
        concat_upto(f, n - 1) + f(n - 1)
    }
}

/// Index of the particle at row `r`, column `c` of a row-major grid that starts at `base`.
pub open spec fn grid_index(cols: int, base: int, r: int, c: int) -> int {
    base + r * cols + c
}

/// The structural and shear springs that start at grid cell `(r, c)`, in order:
/// right, down, down-right, down-left, each where that neighbour exists.
pub open spec fn cell_links(rows: int, cols: int, base: int, r: int, c: int) -> Seq<(int, int, SpringKind)> {
    let i: int = grid_index(cols, base, r, c);
    present_if(c + 1 < cols, (i, i + 1, SpringKind::Stretch))
        + present_if(r + 1 < rows, (i, i + cols, SpringKind::Stretch))
        + present_if(r + 1 < rows && c + 1 < cols, (i, i + cols + 1, SpringKind::Shear))
        + present_if(r + 1 < rows && c >= 1, (i, i + cols - 1, SpringKind::Shear))
}

/// The bend springs that start at grid cell `(r, c)`: two to the right, two down.
pub open spec fn cell_bends(rows: int, cols: int, base: int, r: int, c: int) -> Seq<(int, int, SpringKind)> {
    let i: int = grid_index(cols, base, r, c);
    present_if(c + 2 < cols, (i, i + 2, SpringKind::Bend))
        + present_if(r + 2 < rows, (i, i + 2 * cols, SpringKind::Bend))
}

/// The springs of the cells of row `r`, cell by cell.
pub open spec fn row_links(rows: int, cols: int, base: int, r: int) -> Seq<(int, int, SpringKind)> {
    concat_upto(|c: int| cell_links(rows, cols, base, r, c), cols)
}

/// The bend springs of the cells of row `r`, cell by cell.
pub open spec fn row_bends(rows: int, cols: int, base: int, r: int) -> Seq<(int, int, SpringKind)> {
    concat_upto(|c: int| cell_bends(rows, cols, base, r, c), cols)
}

/// All springs of a `rows` x `cols` cloth grid, in the order they are created:
/// first the structural and shear springs of every cell (row-major), then
/// the bend springs of every cell (row-major).
pub open spec fn cloth_links(rows: int, cols: int, base: int) -> Seq<(int, int, SpringKind)> {
    concat_upto(|r: int| row_links(rows, cols, base, r), rows)
        + concat_upto(|r: int| row_bends(rows, cols, base, r), rows)
}

proof fn lemma_cell_bounds(rows: int, cols: int, r: int, c: int)
    requires
        0 <= r < rows,
        0 <= c < cols,
    ensures
        r * cols + c < rows * cols,
        r * cols + cols <= rows * cols,
        r + 1 < rows ==> r * cols + 2 * cols <= rows * cols,
        r + 2 < rows ==> r * cols + 3 * cols <= rows * cols,
        0 <= r * cols,
{
    assert(r * cols + cols == (r + 1) * cols) by (nonlinear_arith);
    assert((r + 1) * cols <= rows * cols) by (nonlinear_arith)
        requires
            r + 1 <= rows,
            0 <= cols,
    ;
    if r + 1 < rows {
        assert(r * cols + 2 * cols == (r + 2) * cols) by (nonlinear_arith);
        assert((r + 2) * cols <= rows * cols) by (nonlinear_arith)
            requires
                r + 2 <= rows,
                0 <= cols,
        ;
    }
    if r + 2 < rows {
        assert(r * cols + 3 * cols == (r + 3) * cols) by (nonlinear_arith);
        assert((r + 3) * cols <= rows * cols) by (nonlinear_arith)
            requires
                r + 3 <= rows,
                0 <= cols,
        ;
    }
    assert(0 <= r * cols) by (nonlinear_arith)
        requires
            0 <= r,
            0 <= cols,
    ;
}

fn push_link(links: &mut Vec<SpringLink>, a: usize, b: usize, kind: SpringKind)
    ensures
        final(links)@.map_values(|l: SpringLink| l@) == old(links)@.map_values(|l: SpringLink| l@).push(
            (a as int, b as int, kind),
        ),
{
    let ghost before = links@;
    links.push(SpringLink { a, b, kind });
    assert(links@.map_values(|l: SpringLink| l@) =~= before.map_values(|l: SpringLink| l@).push(
        (a as int, b as int, kind),
    ));
}

fn push_cell_links(links: &mut Vec<SpringLink>, rows: usize, cols: usize, base: usize, r: usize, c: usize)
    requires
        base + rows * cols <= usize::MAX,
        r < rows,
        c < cols,
    ensures
        final(links)@.map_values(|l: SpringLink| l@) == old(links)@.map_values(|l: SpringLink| l@)
            + cell_links(rows as int, cols as int, base as int, r as int, c as int),
{
    proof {
        lemma_cell_bounds(rows as int, cols as int, r as int, c as int);
    }
    let ghost prefix = links@.map_values(|l: SpringLink| l@);
    let i: usize = base + r * cols + c;
    if c + 1 < cols {
        push_link(links, i, i + 1, SpringKind::Stretch);
    }
    if r + 1 < rows {
        push_link(links, i, i + cols, SpringKind::Stretch);
    }
    if r + 1 < rows && c + 1 < cols {
        push_link(links, i, i + cols + 1, SpringKind::Shear);
    }
    if r + 1 < rows && c >= 1 {
        push_link(links, i, i + cols - 1, SpringKind::Shear);
    }
    assert(links@.map_values(|l: SpringLink| l@) =~= prefix + cell_links(
        rows as int,
        cols as int,
        base as int,
        r as int,
        c as int,
    ));
}

fn push_cell_bends(links: &mut Vec<SpringLink>, rows: usize, cols: usize, base: usize, r: usize, c: usize)
    requires
        base + rows * cols <= usize::MAX,
        r < rows,
        c < cols,
    ensures
        final(links)@.map_values(|l: SpringLink| l@) == old(links)@.map_values(|l: SpringLink| l@)
            + cell_bends(rows as int, cols as int, base as int, r as int, c as int),
{
    proof {
        lemma_cell_bounds(rows as int, cols as int, r as int, c as int);
    }
    let ghost prefix = links@.map_values(|l: SpringLink| l@);
    let i: usize = base + r * cols + c;
    if cols - c > 2 {
        push_link(links, i, i + 2, SpringKind::Bend);
    }
    if rows - r > 2 {
        push_link(links, i, i + 2 * cols, SpringKind::Bend);
    }
    assert(links@.map_values(|l: SpringLink| l@) =~= prefix + cell_bends(
        rows as int,
        cols as int,
        base as int,
        r as int,
        c as int,
    ));
}

/// The springs of a `rows` x `cols` cloth grid whose first particle is `base`.
pub fn cloth_grid_springs(rows: usize, cols: usize, base: usize) -> (links: Vec<SpringLink>)
    requires
        base + rows * cols <= usize::MAX,
    ensures
        links@.map_values(|l: SpringLink| l@) == cloth_links(rows as int, cols as int, base as int),
{
    let ghost (ri, ci, bi) = (rows as int, cols as int, base as int);
    let mut links: Vec<SpringLink> = Vec::new();
    let mut r: usize = 0;
    while r < rows
        invariant
            (ri, ci, bi) == (rows as int, cols as int, base as int),
            base + rows * cols <= usize::MAX,
            r <= rows,
            links@.map_values(|l: SpringLink| l@) == concat_upto(
                |r: int| row_links(ri, ci, bi, r),
                r as int,
            ),
        decreases rows - r,
    {
        let mut c: usize = 0;
        while c < cols
            invariant
                (ri, ci, bi) == (rows as int, cols as int, base as int),
                base + rows * cols <= usize::MAX,
                r < rows,
                c <= cols,
                links@.map_values(|l: SpringLink| l@) == concat_upto(
                    |r: int| row_links(ri, ci, bi, r),
                    r as int,
                ) + concat_upto(|c: int| cell_links(ri, ci, bi, r as int, c), c as int),
            decreases cols - c,
        {
            push_cell_links(&mut links, rows, cols, base, r, c);
            c = c + 1;
        }
        r = r + 1;
    }
    let ghost first = links@.map_values(|l: SpringLink| l@);
    let mut r: usize = 0;
    while r < rows
        invariant
            (ri, ci, bi) == (rows as int, cols as int, base as int),
            base + rows * cols <= usize::MAX,
            r <= rows,
            links@.map_values(|l: SpringLink| l@) == first + concat_upto(
                |r: int| row_bends(ri, ci, bi, r),
                r as int,
            ),
        decreases rows - r,
    {
        let mut c: usize = 0;
        while c < cols
            invariant
                (ri, ci, bi) == (rows as int, cols as int, base as int),
                base + rows * cols <= usize::MAX,
                r < rows,
                c <= cols,
                links@.map_values(|l: SpringLink| l@) == first + concat_upto(
                    |r: int| row_bends(ri, ci, bi, r),
                    r as int,
                ) + concat_upto(|c: int| cell_bends(ri, ci, bi, r as int, c), c as int),
            decreases cols - c,
        {
            push_cell_bends(&mut links, rows, cols, base, r, c);
            c = c + 1;
        }
        r = r + 1;
    }
    links
}

/// The two faces of the quad whose top-left corner is grid cell `(r, c)`.
pub open spec fn quad_triangles(cols: int, base: int, r: int, c: int) -> Seq<(int, int, int)> {
    let a: int = grid_index(cols, base, r, c);
    let b: int = grid_index(cols, base, r, c + 1);
    let d: int = grid_index(cols, base, r + 1, c);
    let e: int = grid_index(cols, base, r + 1, c + 1);
    seq![(a, b, d), (b, e, d)]
}

/// The faces of the quads of row `r`, quad by quad.
pub open spec fn row_triangles(cols: int, base: int, r: int) -> Seq<(int, int, int)> {
    concat_upto(|c: int| quad_triangles(cols, base, r, c), cols - 1)
}

/// All faces of a `rows` x `cols` cloth grid: two per quad, quads in row-major order.
pub open spec fn cloth_triangles(rows: int, cols: int, base: int) -> Seq<(int, int, int)> {
    concat_upto(|r: int| row_triangles(cols, base, r), rows - 1)
}

/// The faces of a `rows` x `cols` cloth grid whose first particle is `base`.
pub fn cloth_grid_triangles(rows: usize, cols: usize, base: usize) -> (tris: Vec<Triangle>)
    requires
        rows >= 1,
        rows >= 2 ==> cols >= 1,
        base + rows * cols <= usize::MAX,
    ensures
        tris@.map_values(|t: Triangle| t@) == cloth_triangles(rows as int, cols as int, base as int),
{
    let ghost (ri, ci, bi) = (rows as int, cols as int, base as int);
    let mut tris: Vec<Triangle> = Vec::new();
    let mut r: usize = 0;
    while r < rows - 1
        invariant
            (ri, ci, bi) == (rows as int, cols as int, base as int),
            rows >= 1,
            rows >= 2 ==> cols >= 1,
            base + rows * cols <= usize::MAX,
            r <= rows - 1,
            tris@.map_values(|t: Triangle| t@) == concat_upto(|r: int| row_triangles(ci, bi, r), r as int),
        decreases rows - r,
    {
        let mut c: usize = 0;
        while c < cols - 1
            invariant
                (ri, ci, bi) == (rows as int, cols as int, base as int),
                rows >= 1,
                rows >= 2 ==> cols >= 1,
                base + rows * cols <= usize::MAX,
                r < rows - 1,
                c <= cols - 1,
                tris@.map_values(|t: Triangle| t@) == concat_upto(
                    |r: int| row_triangles(ci, bi, r),
                    r as int,
                ) + concat_upto(|c: int| quad_triangles(ci, bi, r as int, c), c as int),
            decreases cols - c,
        {
            proof {
                lemma_cell_bounds(ri, ci, r as int, c as int);
            }
            let ghost prefix = tris@.map_values(|t: Triangle| t@);
            let a: usize = base + r * cols + c;
            let b: usize = a + 1;
            let d: usize = a + cols;
            let e: usize = d + 1;
            tris.push(Triangle { a, b, c: d });
            tris.push(Triangle { a: b, b: e, c: d });
            proof {
                assert(grid_index(ci, bi, r as int + 1, c as int) == grid_index(ci, bi, r as int, c as int) + ci) by (nonlinear_arith);
                assert(tris@.map_values(|t: Triangle| t@) =~= prefix + quad_triangles(ci, bi, r as int, c as int));
            }
            c = c + 1;
        }
        r = r + 1;
    }
    tris
}

/// Whether `b` is the neighbour of particle `a`, at grid cell `(r, c)`, that a
/// spring of `kind` joins it to.
pub open spec fn neighbour_of(rows: int, cols: int, r: int, c: int, a: int, b: int, kind: SpringKind) -> bool {
    match kind {
        SpringKind::Stretch => (c + 1 < cols && b == a + 1) || (r + 1 < rows && b == a + cols),
        SpringKind::Shear => r + 1 < rows && ((c + 1 < cols && b == a + cols + 1) || (c >= 1 && b == a
            + cols - 1)),
        SpringKind::Bend => (c + 2 < cols && b == a + 2) || (r + 2 < rows && b == a + 2 * cols),
    }
}

/// Whether spring `l` starts at a particle of the grid and ends at a later
/// particle of the grid that is the neighbour its kind names.
pub open spec fn joins_grid_neighbours(rows: int, cols: int, base: int, l: (int, int, SpringKind)) -> bool {
    &&& base <= l.0 < l.1 < base + rows * cols
    &&& exists|r: int, c: int|
        0 <= r < rows && 0 <= c < cols && l.0 == #[trigger] grid_index(cols, base, r, c)
            && neighbour_of(rows, cols, r, c, l.0, l.1, l.2)
}

proof fn lemma_concat_all<A>(f: spec_fn(int) -> Seq<A>, n: int, p: spec_fn(A) -> bool)
    requires
        forall|k: int, j: int| 0 <= k < n && 0 <= j < f(k).len() ==> p(#[trigger] f(k)[j]),
    ensures
        forall|i: int| 0 <= i < concat_upto(f, n).len() ==> p(#[trigger] concat_upto(f, n)[i]),
    decreases n,
{
    if n > 0 {
        lemma_concat_all(f, n - 1, p);
        let prev = concat_upto(f, n - 1);
        assert forall|i: int| 0 <= i < concat_upto(f, n).len() implies p(
            #[trigger] concat_upto(f, n)[i],
        ) by {
            if i < prev.len() {
                assert(concat_upto(f, n)[i] == prev[i]);
            } else {
                assert(concat_upto(f, n)[i] == f(n - 1)[i - prev.len()]);
            }
        }
    }
}

proof fn lemma_cell_links_join_neighbours(rows: int, cols: int, base: int, r: int, c: int)
    requires
        0 <= r < rows,
        0 <= c < cols,
    ensures
        forall|j: int|
            0 <= j < cell_links(rows, cols, base, r, c).len() ==> joins_grid_neighbours(
                rows,
                cols,
                base,
                #[trigger] cell_links(rows, cols, base, r, c)[j],
            ),
        forall|j: int|
            0 <= j < cell_bends(rows, cols, base, r, c).len() ==> joins_grid_neighbours(
                rows,
                cols,
                base,
                #[trigger] cell_bends(rows, cols, base, r, c)[j],
            ),
{
    lemma_cell_bounds(rows, cols, r, c);
    let i: int = grid_index(cols, base, r, c);
    assert forall|j: int| 0 <= j < cell_links(rows, cols, base, r, c).len() implies joins_grid_neighbours(
        rows,
        cols,
        base,
        #[trigger] cell_links(rows, cols, base, r, c)[j],
    ) by {
        let l = cell_links(rows, cols, base, r, c)[j];
        assert(l.0 == i);
        assert(neighbour_of(rows, cols, r, c, l.0, l.1, l.2));
    }
    assert forall|j: int| 0 <= j < cell_bends(rows, cols, base, r, c).len() implies joins_grid_neighbours(
        rows,
        cols,
        base,
        #[trigger] cell_bends(rows, cols, base, r, c)[j],
    ) by {
        let l = cell_bends(rows, cols, base, r, c)[j];
        assert(l.0 == i);
        assert(neighbour_of(rows, cols, r, c, l.0, l.1, l.2));
    }
}

/// Every spring of a cloth grid joins a particle of the grid to a later
/// particle of the grid: for a stretch spring its right or lower neighbour,
/// for a shear spring a diagonal neighbour in the next row, for a bend spring
/// the particle two columns to the right or two rows down.
pub proof fn lemma_cloth_links_join_neighbours(rows: int, cols: int, base: int)
    ensures
        forall|i: int|
            0 <= i < cloth_links(rows, cols, base).len() ==> joins_grid_neighbours(
                rows,
                cols,
                base,
                #[trigger] cloth_links(rows, cols, base)[i],
            ),
{
    let p = |l: (int, int, SpringKind)| joins_grid_neighbours(rows, cols, base, l);
    let fl = |r: int| row_links(rows, cols, base, r);
    let fb = |r: int| row_bends(rows, cols, base, r);
    assert forall|r: int, j: int| 0 <= r < rows && 0 <= j < fl(r).len() implies p(#[trigger] fl(r)[j]) by {
        let fc = |c: int| cell_links(rows, cols, base, r, c);
        assert forall|c: int, k: int| 0 <= c < cols && 0 <= k < fc(c).len() implies p(#[trigger] fc(c)[k]) by {
            lemma_cell_links_join_neighbours(rows, cols, base, r, c);
        }
        lemma_concat_all(fc, cols, p);
        assert(fl(r) == concat_upto(fc, cols));
    }
    assert forall|r: int, j: int| 0 <= r < rows && 0 <= j < fb(r).len() implies p(#[trigger] fb(r)[j]) by {
        let fc = |c: int| cell_bends(rows, cols, base, r, c);
        assert forall|c: int, k: int| 0 <= c < cols && 0 <= k < fc(c).len() implies p(#[trigger] fc(c)[k]) by {
            lemma_cell_links_join_neighbours(rows, cols, base, r, c);
        }
        lemma_concat_all(fc, cols, p);
        assert(fb(r) == concat_upto(fc, cols));
    }
    lemma_concat_all(fl, rows, p);
    lemma_concat_all(fb, rows, p);
    let first = concat_upto(fl, rows);
    let second = concat_upto(fb, rows);
    assert forall|i: int| 0 <= i < cloth_links(rows, cols, base).len() implies joins_grid_neighbours(
        rows,
        cols,
        base,
        #[trigger] cloth_links(rows, cols, base)[i],
    ) by {
        assert(cloth_links(rows, cols, base) == first + second);
        if i < first.len() {
            assert(p(first[i]));
        } else {
            assert(p(second[i - first.len()]));
        }
    }
}

proof fn lemma_concat_len<A>(f: spec_fn(int) -> Seq<A>, n: int, m: int)
    requires
        n >= 0,
        forall|k: int| 0 <= k < n ==> #[trigger] f(k).len() == m,
    ensures
        concat_upto(f, n).len() == n * m,
    decreases n,
{
    if n > 0 {
        lemma_concat_len(f, n - 1, m);
        assert(f(n - 1).len() == m);
        assert((n - 1) * m + m == n * m) by (nonlinear_arith);
        assert(concat_upto(f, n) == concat_upto(f, n - 1) + f(n - 1));
    } else {
        assert(n * m == 0) by (nonlinear_arith)
            requires
                n == 0,
        ;
    }
}

/// Whether `t` is one of the two faces of a quad of the grid.
pub open spec fn is_grid_face(rows: int, cols: int, base: int, t: (int, int, int)) -> bool {
    &&& base <= t.0 < base + rows * cols
    &&& base <= t.1 < base + rows * cols
    &&& base <= t.2 < base + rows * cols
    &&& exists|r: int, c: int|
        0 <= r < rows - 1 && 0 <= c < cols - 1 && #[trigger] quad_triangles(cols, base, r, c).contains(t)
}

/// A cloth grid of at least one row (and of at least one column when it has
/// two rows or more) has two faces per quad,
/// `2 * (rows - 1) * (cols - 1)` in all, and each face is a half of a quad
/// of the grid whose three corners are particles of the grid.
pub proof fn lemma_cloth_triangles_cover_quads(rows: int, cols: int, base: int)
    requires
        rows >= 1,
        rows >= 2 ==> cols >= 1,
    ensures
        cloth_triangles(rows, cols, base).len() == 2 * (rows - 1) * (cols - 1),
        forall|i: int|
            0 <= i < cloth_triangles(rows, cols, base).len() ==> is_grid_face(
                rows,
                cols,
                base,
                #[trigger] cloth_triangles(rows, cols, base)[i],
            ),
{
    let p = |t: (int, int, int)| is_grid_face(rows, cols, base, t);
    let fr = |r: int| row_triangles(cols, base, r);
    assert forall|r: int| 0 <= r < rows - 1 implies #[trigger] fr(r).len() == 2 * (cols - 1) by {
        let fc = |c: int| quad_triangles(cols, base, r, c);
        assert forall|c: int| 0 <= c < cols - 1 implies #[trigger] fc(c).len() == 2 by {}
        lemma_concat_len(fc, cols - 1, 2);
        assert(fr(r) == concat_upto(fc, cols - 1));
        assert((cols - 1) * 2 == 2 * (cols - 1)) by (nonlinear_arith);
    }
    lemma_concat_len(fr, rows - 1, 2 * (cols - 1));
    assert((rows - 1) * (2 * (cols - 1)) == 2 * (rows - 1) * (cols - 1)) by (nonlinear_arith);
    assert forall|r: int, j: int| 0 <= r < rows - 1 && 0 <= j < fr(r).len() implies p(#[trigger] fr(r)[j]) by {
        let fc = |c: int| quad_triangles(cols, base, r, c);
        assert forall|c: int, k: int| 0 <= c < cols - 1 && 0 <= k < fc(c).len() implies p(#[trigger] fc(c)[k]) by {
            lemma_cell_bounds(rows, cols, r, c);
            lemma_cell_bounds(rows, cols, r, c + 1);
            lemma_cell_bounds(rows, cols, r + 1, c);
            lemma_cell_bounds(rows, cols, r + 1, c + 1);
            assert(grid_index(cols, base, r + 1, c) == grid_index(cols, base, r, c) + cols) by (nonlinear_arith);
            assert(quad_triangles(cols, base, r, c).contains(fc(c)[k]));
        }
        lemma_concat_all(fc, cols - 1, p);
        assert(fr(r) == concat_upto(fc, cols - 1));
    }
    lemma_concat_all(fr, rows - 1, p);
}

proof fn lemma_concat_index<A>(f: spec_fn(int) -> Seq<A>, n: int, m: int, k: int, j: int)
    requires
        0 <= k < n,
        0 <= j < m,
        forall|x: int| 0 <= x < n ==> #[trigger] f(x).len() == m,
    ensures
        k * m + j < concat_upto(f, n).len(),
        concat_upto(f, n)[k * m + j] == f(k)[j],
    decreases n,
{
    lemma_concat_len(f, n - 1, m);
    let prev = concat_upto(f, n - 1);
    assert(concat_upto(f, n) == prev + f(n - 1));
    assert(f(n - 1).len() == m);
    if k < n - 1 {
        lemma_concat_index(f, n - 1, m, k, j);
        assert(k * m + j < (n - 1) * m) by (nonlinear_arith)
            requires
                0 <= k < n - 1,
                0 <= j < m,
        ;
    } else {
        assert(k * m + j == prev.len() + j);
    }
    assert((n - 1) * m + m == n * m) by (nonlinear_arith);
}

/// Each quad of the grid is covered by its two faces, in place: the quad whose
/// top-left corner is particle `i` at cell `(r, c)` is the `k`-th quad in
/// row-major order, and faces `2k` and `2k + 1` are `(i, i + 1, i + cols)` and
/// `(i + 1, i + cols + 1, i + cols)`, which together use all four corners.
pub proof fn lemma_cloth_triangles_per_quad(rows: int, cols: int, base: int, r: int, c: int)
    requires
        0 <= r < rows - 1,
        0 <= c < cols - 1,
    ensures
        ({
            let i = base + r * cols + c;
            let k = r * (cols - 1) + c;
            let tris = cloth_triangles(rows, cols, base);
            &&& 2 * k + 1 < tris.len()
            &&& tris[2 * k] == (i, i + 1, i + cols)
            &&& tris[2 * k + 1] == (i + 1, i + cols + 1, i + cols)
        }),
{
    let i: int = base + r * cols + c;
    let fr = |r: int| row_triangles(cols, base, r);
    let fc = |c: int| quad_triangles(cols, base, r, c);
    assert forall|x: int| 0 <= x < rows - 1 implies #[trigger] fr(x).len() == 2 * (cols - 1) by {
        let g = |c: int| quad_triangles(cols, base, x, c);
        assert forall|y: int| 0 <= y < cols - 1 implies #[trigger] g(y).len() == 2 by {}
        lemma_concat_len(g, cols - 1, 2);
        assert(fr(x) == concat_upto(g, cols - 1));
        assert((cols - 1) * 2 == 2 * (cols - 1)) by (nonlinear_arith);
    }
    assert forall|y: int| 0 <= y < cols - 1 implies #[trigger] fc(y).len() == 2 by {}
    assert(fr(r) == concat_upto(fc, cols - 1));
    lemma_concat_index(fc, cols - 1, 2, c, 0);
    lemma_concat_index(fc, cols - 1, 2, c, 1);
    lemma_concat_index(fr, rows - 1, 2 * (cols - 1), r, c * 2);
    lemma_concat_index(fr, rows - 1, 2 * (cols - 1), r, c * 2 + 1);
    assert(r * (2 * (cols - 1)) + c * 2 == 2 * (r * (cols - 1) + c)) by (nonlinear_arith);
    assert(base + (r + 1) * cols + c == i + cols) by (nonlinear_arith)
        requires
            i == base + r * cols + c,
    ;
    assert(grid_index(cols, base, r + 1, c) == i + cols);
    assert(grid_index(cols, base, r + 1, c + 1) == i + cols + 1);
    assert(cloth_triangles(rows, cols, base) == concat_upto(fr, rows - 1));
}

proof fn lemma_concat_upto_no_duplicates<A>(f: spec_fn(int) -> Seq<A>, n: int, key: spec_fn(A) -> int)
    requires
        forall|k: int| 0 <= k < n ==> (#[trigger] f(k)).no_duplicates(),
        forall|k: int, j: int| 0 <= k < n && 0 <= j < f(k).len() ==> key(#[trigger] f(k)[j]) == k,
    ensures
        concat_upto(f, n).no_duplicates(),
        forall|i: int|
            0 <= i < concat_upto(f, n).len() ==> 0 <= key(#[trigger] concat_upto(f, n)[i]) < n,
    decreases n,
{
    if n > 0 {
        lemma_concat_upto_no_duplicates(f, n - 1, key);
        let prev = concat_upto(f, n - 1);
        let last = f(n - 1);
        assert(concat_upto(f, n) == prev + last);
        assert(last.no_duplicates());
        assert forall|i: int, j: int|
            0 <= i < (prev + last).len() && 0 <= j < (prev + last).len() && i != j implies (prev + last)[i]
            != (prev + last)[j] by {
            if i < prev.len() && j >= prev.len() {
                assert(key(prev[i]) < n - 1);
                assert(key(last[j - prev.len()]) == n - 1);
            } else if j < prev.len() && i >= prev.len() {
                assert(key(prev[j]) < n - 1);
                assert(key(last[i - prev.len()]) == n - 1);
            } else if i >= prev.len() {
                assert(last[i - prev.len()] != last[j - prev.len()]);
            }
        }
        assert forall|i: int| 0 <= i < (prev + last).len() implies 0 <= key(#[trigger] (prev + last)[i]) < n by {
            if i < prev.len() {
                assert(key(prev[i]) < n - 1);
            } else {
                assert(key(last[i - prev.len()]) == n - 1);
            }
        }
    }
}

proof fn lemma_row_springs_distinct(rows: int, cols: int, base: int, r: int)
    requires
        0 <= r < rows,
        cols > 0,
    ensures
        row_links(rows, cols, base, r).no_duplicates(),
        row_bends(rows, cols, base, r).no_duplicates(),
        forall|j: int|
            0 <= j < row_links(rows, cols, base, r).len() ==> (#[trigger] row_links(rows, cols, base, r)[j].0
                - base) / cols == r,
        forall|j: int|
            0 <= j < row_bends(rows, cols, base, r).len() ==> (#[trigger] row_bends(rows, cols, base, r)[j].0
                - base) / cols == r,
{
    let gl = |c: int| cell_links(rows, cols, base, r, c);
    let gb = |c: int| cell_bends(rows, cols, base, r, c);
    let cell_key = |l: (int, int, SpringKind)| l.0 - base - r * cols;
    assert forall|c: int| 0 <= c < cols implies (#[trigger] gl(c)).no_duplicates() by {}
    assert forall|c: int| 0 <= c < cols implies (#[trigger] gb(c)).no_duplicates() by {}
    assert forall|c: int, j: int| 0 <= c < cols && 0 <= j < gl(c).len() implies cell_key(#[trigger] gl(c)[j]) == c by {}
    assert forall|c: int, j: int| 0 <= c < cols && 0 <= j < gb(c).len() implies cell_key(#[trigger] gb(c)[j]) == c by {}
    lemma_concat_upto_no_duplicates(gl, cols, cell_key);
    lemma_concat_upto_no_duplicates(gb, cols, cell_key);
    let rl = row_links(rows, cols, base, r);
    let rb = row_bends(rows, cols, base, r);
    assert(rl == concat_upto(gl, cols));
    assert(rb == concat_upto(gb, cols));
    assert forall|j: int| 0 <= j < rl.len() implies (#[trigger] rl[j].0 - base) / cols == r by {
        let c = cell_key(rl[j]);
        vstd::arithmetic::div_mod::lemma_fundamental_div_mod_converse(rl[j].0 - base, cols, r, c);
    }
    assert forall|j: int| 0 <= j < rb.len() implies (#[trigger] rb[j].0 - base) / cols == r by {
        let c = cell_key(rb[j]);
        vstd::arithmetic::div_mod::lemma_fundamental_div_mod_converse(rb[j].0 - base, cols, r, c);
    }
}

/// No spring of a cloth grid is made twice: every spring is a distinct
/// (start, end, kind) triple.
pub proof fn lemma_cloth_links_distinct(rows: int, cols: int, base: int)
    ensures
        cloth_links(rows, cols, base).no_duplicates(),
{
    let fl = |r: int| row_links(rows, cols, base, r);
    let fb = |r: int| row_bends(rows, cols, base, r);
    let first = concat_upto(fl, rows);
    let second = concat_upto(fb, rows);
    assert(cloth_links(rows, cols, base) == first + second);
    if cols <= 0 {
        if rows > 0 {
            assert forall|r: int| 0 <= r < rows implies #[trigger] fl(r).len() == 0 by {}
            assert forall|r: int| 0 <= r < rows implies #[trigger] fb(r).len() == 0 by {}
            lemma_concat_len(fl, rows, 0);
            lemma_concat_len(fb, rows, 0);
        }
        assert((first + second).len() == 0);
        return;
    }
    let row_key = |l: (int, int, SpringKind)| (l.0 - base) / cols;
    assert forall|r: int| 0 <= r < rows implies (#[trigger] fl(r)).no_duplicates() by {
        lemma_row_springs_distinct(rows, cols, base, r);
    }
    assert forall|r: int| 0 <= r < rows implies (#[trigger] fb(r)).no_duplicates() by {
        lemma_row_springs_distinct(rows, cols, base, r);
    }
    assert forall|r: int, j: int| 0 <= r < rows && 0 <= j < fl(r).len() implies row_key(#[trigger] fl(r)[j]) == r by {
        lemma_row_springs_distinct(rows, cols, base, r);
    }
    assert forall|r: int, j: int| 0 <= r < rows && 0 <= j < fb(r).len() implies row_key(#[trigger] fb(r)[j]) == r by {
        lemma_row_springs_distinct(rows, cols, base, r);
    }
    lemma_concat_upto_no_duplicates(fl, rows, row_key);
    lemma_concat_upto_no_duplicates(fb, rows, row_key);
    let not_bend = |l: (int, int, SpringKind)| l.2 != SpringKind::Bend;
    let is_bend = |l: (int, int, SpringKind)| l.2 == SpringKind::Bend;
    assert forall|r: int, j: int| 0 <= r < rows && 0 <= j < fl(r).len() implies not_bend(#[trigger] fl(r)[j]) by {
        let gl = |c: int| cell_links(rows, cols, base, r, c);
        assert forall|c: int, k: int| 0 <= c < cols && 0 <= k < gl(c).len() implies not_bend(#[trigger] gl(c)[k]) by {}
        lemma_concat_all(gl, cols, not_bend);
        assert(fl(r) == concat_upto(gl, cols));
    }
    assert forall|r: int, j: int| 0 <= r < rows && 0 <= j < fb(r).len() implies is_bend(#[trigger] fb(r)[j]) by {
        let gb = |c: int| cell_bends(rows, cols, base, r, c);
        assert forall|c: int, k: int| 0 <= c < cols && 0 <= k < gb(c).len() implies is_bend(#[trigger] gb(c)[k]) by {}
        lemma_concat_all(gb, cols, is_bend);
        assert(fb(r) == concat_upto(gb, cols));
    }
    lemma_concat_all(fl, rows, not_bend);
    lemma_concat_all(fb, rows, is_bend);
    assert forall|i: int, j: int|
        0 <= i < (first + second).len() && 0 <= j < (first + second).len() && i != j implies (first
        + second)[i] != (first + second)[j] by {
        if i < first.len() && j >= first.len() {
            assert(not_bend(first[i]));
            assert(is_bend(second[j - first.len()]));
        } else if j < first.len() && i >= first.len() {
            assert(not_bend(first[j]));
            assert(is_bend(second[i - first.len()]));
        } else if i >= first.len() {
            assert(second[i - first.len()] != second[j - first.len()]);
        }
    }
}

proof fn lemma_concat_contains_part<A>(f: spec_fn(int) -> Seq<A>, n: int, k: int, x: A)
    requires
        0 <= k < n,
        f(k).contains(x),
    ensures
        concat_upto(f, n).contains(x),
    decreases n,
{
    let prev = concat_upto(f, n - 1);
    assert(concat_upto(f, n) == prev + f(n - 1));
    if k < n - 1 {
        lemma_concat_contains_part(f, n - 1, k, x);
        let j: int = choose|j: int| 0 <= j < prev.len() && #[trigger] prev[j] == x;
        assert((prev + f(n - 1))[j] == x);
    } else {
        let j: int = choose|j: int| 0 <= j < f(k).len() && #[trigger] f(k)[j] == x;
        assert((prev + f(n - 1))[prev.len() + j] == x);
    }
}

/// Every neighbour pair of a cloth grid is joined: each particle to its right
/// and lower neighbours by stretch springs, to its lower diagonal neighbours by
/// shear springs, and to the particles two columns right and two rows down by
/// bend springs, wherever those particles exist.
pub proof fn lemma_cloth_links_cover_neighbours(rows: int, cols: int, base: int, r: int, c: int)
    requires
        0 <= r < rows,
        0 <= c < cols,
    ensures
        ({
            let i = grid_index(cols, base, r, c);
            let links = cloth_links(rows, cols, base);
            &&& c + 1 < cols ==> links.contains((i, i + 1, SpringKind::Stretch))
            &&& r + 1 < rows ==> links.contains((i, i + cols, SpringKind::Stretch))
            &&& r + 1 < rows && c + 1 < cols ==> links.contains((i, i + cols + 1, SpringKind::Shear))
            &&& r + 1 < rows && c >= 1 ==> links.contains((i, i + cols - 1, SpringKind::Shear))
            &&& c + 2 < cols ==> links.contains((i, i + 2, SpringKind::Bend))
            &&& r + 2 < rows ==> links.contains((i, i + 2 * cols, SpringKind::Bend))
        }),
{
    let i: int = grid_index(cols, base, r, c);
    let fl = |r: int| row_links(rows, cols, base, r);
    let fb = |r: int| row_bends(rows, cols, base, r);
    let first = concat_upto(fl, rows);
    let second = concat_upto(fb, rows);
    assert(cloth_links(rows, cols, base) == first + second);
    let cl = cell_links(rows, cols, base, r, c);
    let cb = cell_bends(rows, cols, base, r, c);
    assert forall|x: (int, int, SpringKind)| cl.contains(x) implies #[trigger] (first + second).contains(x) by {
        let fc = |c: int| cell_links(rows, cols, base, r, c);
        lemma_concat_contains_part(fc, cols, c, x);
        assert(fl(r) == concat_upto(fc, cols));
        lemma_concat_contains_part(fl, rows, r, x);
        let j: int = choose|j: int| 0 <= j < first.len() && #[trigger] first[j] == x;
        assert((first + second)[j] == x);
    }
    assert forall|x: (int, int, SpringKind)| cb.contains(x) implies #[trigger] (first + second).contains(x) by {
        let fc = |c: int| cell_bends(rows, cols, base, r, c);
        lemma_concat_contains_part(fc, cols, c, x);
        assert(fb(r) == concat_upto(fc, cols));
        lemma_concat_contains_part(fb, rows, r, x);
        let j: int = choose|j: int| 0 <= j < second.len() && #[trigger] second[j] == x;
        assert((first + second)[first.len() + j] == x);
    }
    let w1 = present_if(c + 1 < cols, (i, i + 1, SpringKind::Stretch));
    let w2 = present_if(r + 1 < rows, (i, i + cols, SpringKind::Stretch));
    let w3 = present_if(r + 1 < rows && c + 1 < cols, (i, i + cols + 1, SpringKind::Shear));
    let w4 = present_if(r + 1 < rows && c >= 1, (i, i + cols - 1, SpringKind::Shear));
    assert(cl == w1 + w2 + w3 + w4);
    if c + 1 < cols {
        assert(cl[0] == (i, i + 1, SpringKind::Stretch));
        assert(cl.contains((i, i + 1, SpringKind::Stretch)));
    }
    if r + 1 < rows {
        assert(cl[w1.len() as int] == (i, i + cols, SpringKind::Stretch));
        assert(cl.contains((i, i + cols, SpringKind::Stretch)));
    }
    if r + 1 < rows && c + 1 < cols {
        assert(cl[(w1.len() + w2.len()) as int] == (i, i + cols + 1, SpringKind::Shear));
        assert(cl.contains((i, i + cols + 1, SpringKind::Shear)));
    }
    if r + 1 < rows && c >= 1 {
        assert(cl[(w1.len() + w2.len() + w3.len()) as int] == (i, i + cols - 1, SpringKind::Shear));
        assert(cl.contains((i, i + cols - 1, SpringKind::Shear)));
    }
    let v1 = present_if(c + 2 < cols, (i, i + 2, SpringKind::Bend));
    let v2 = present_if(r + 2 < rows, (i, i + 2 * cols, SpringKind::Bend));
    assert(cb == v1 + v2);
    if c + 2 < cols {
        assert(cb[0] == (i, i + 2, SpringKind::Bend));
        assert(cb.contains((i, i + 2, SpringKind::Bend)));
    }
    if r + 2 < rows {
        assert(cb[v1.len() as int] == (i, i + 2 * cols, SpringKind::Bend));
        assert(cb.contains((i, i + 2 * cols, SpringKind::Bend)));
    }
}

/// A soft-body particle held at a point given in the frame of a rigid body.
#[derive(Clone, Copy, Debug)]
pub struct Attachment<T> {
    pub particle: usize,
    pub body: usize,
    pub local_offset: T,
}

/// The pins of a soft body's particles to rigid bodies, in the order they were made.
pub struct Attachments<T> {
    entries: Vec<Attachment<T>>,
}

impl<T> View for Attachments<T> {
    type V = Seq<Attachment<T>>;

    closed spec fn view(&self) -> Seq<Attachment<T>> {
        self.entries@
    }
}

/// Whether `pins` holds `particle` to `body`.
pub open spec fn holds_pin<T>(pins: Seq<Attachment<T>>, particle: usize, body: usize) -> bool {
    exists|i: int| 0 <= i < pins.len() && #[trigger] pins[i].particle == particle && pins[i].body == body
}

/// The pins that do not hold `particle`, in their order.
pub open spec fn without_particle<T>(pins: Seq<Attachment<T>>, particle: usize) -> Seq<Attachment<T>> {
    pins.filter(|a: Attachment<T>| a.particle != particle)
}

impl<T: Copy> Attachments<T> {
    /// No pins.
    pub fn new() -> (pins: Self)
        ensures
            pins@ == Seq::<Attachment<T>>::empty(),
    {
        Attachments { entries: Vec::new() }
    }

    /// The number of pins.
    pub fn len(&self) -> (n: usize)
        ensures
            n == self@.len(),
    {
        self.entries.len()
    }

    /// The `i`-th pin.
    pub fn get(&self, i: usize) -> (pin: Attachment<T>)
        requires
            i < self@.len(),
        ensures
            pin == self@[i as int],
    {
        self.entries[i]
    }

    /// Holds `particle` to the point `local_offset` of `body`; earlier pins stay.
    pub fn pin_to_body(&mut self, particle: usize, body: usize, local_offset: T)
        ensures
            final(self)@ == old(self)@.push(Attachment { particle, body, local_offset }),
    {
        self.entries.push(Attachment { particle, body, local_offset });
    }

    /// Removes every pin of `particle`; the other pins keep their order.
    pub fn unpin(&mut self, particle: usize)
        ensures
            final(self)@ == without_particle(old(self)@, particle),
    {
        let mut kept: Vec<Attachment<T>> = Vec::new();
        let n: usize = self.entries.len();
        let mut i: usize = 0;
        while i < n
            invariant
                n == self.entries@.len(),
                i <= n,
                kept@ == without_particle(self.entries@.take(i as int), particle),
            decreases n - i,
        {
            proof {
                reveal_with_fuel(Seq::<_>::filter, 1);
                assert(self.entries@.take(i + 1).drop_last() =~= self.entries@.take(i as int));
            }
            let entry = self.entries[i];
            proof {
                assert(entry == self.entries@[i as int]);
                assert(self.entries@.take(i + 1).last() == entry);
            }
            if entry.particle != particle {
                kept.push(entry);
            }
            i = i + 1;
        }
        assert(self.entries@.take(n as int) =~= self.entries@);
        self.entries = kept;
    }

    /// Whether some pin holds `particle` to `body`.
    pub fn is_pinned_to(&self, particle: usize, body: usize) -> (pinned: bool)
        ensures
            pinned == holds_pin(self@, particle, body),
    {
        let n: usize = self.entries.len();
        let mut i: usize = 0;
        while i < n
            invariant
                n == self.entries@.len(),
                i <= n,
                forall|j: int|
                    0 <= j < i ==> !(#[trigger] self.entries@[j].particle == particle
                        && self.entries@[j].body == body),
            decreases n - i,
        {
            if self.entries[i].particle == particle && self.entries[i].body == body {
                return true;
            }
            i = i + 1;
        }
        false
    }
}

/// After `unpin(particle)` no pin holds `particle` to any body, and every
/// other particle is held to exactly the bodies it was held to before.
pub proof fn lemma_unpin_frees_only_that_particle<T>(pins: Seq<Attachment<T>>, particle: usize)
    ensures
        forall|body: usize| !holds_pin(#[trigger] without_particle(pins, particle), particle, body),
        forall|other: usize, body: usize|
            other != particle ==> (#[trigger] holds_pin(without_particle(pins, particle), other, body)
                <==> holds_pin(pins, other, body)),
{
    let pred = |a: Attachment<T>| a.particle != particle;
    let kept = without_particle(pins, particle);
    pins.lemma_filter_len(pred);
    assert forall|body: usize| !holds_pin(#[trigger] without_particle(pins, particle), particle, body) by {
        assert forall|i: int| 0 <= i < kept.len() implies kept[i].particle != particle by {
            pins.lemma_filter_pred(pred, i);
        }
    }
    assert forall|other: usize, body: usize|
        other != particle implies (#[trigger] holds_pin(without_particle(pins, particle), other, body)
            <==> holds_pin(pins, other, body)) by {
        if holds_pin(kept, other, body) {
            let i: int = choose|i: int| 0 <= i < kept.len() && #[trigger] kept[i].particle == other && kept[i].body == body;
            assert(kept.contains(kept[i]));
            pins.lemma_filter_contains_rev(pred, kept[i]);
            let j: int = choose|j: int| 0 <= j < pins.len() && pins[j] == kept[i];
            assert(pins[j].particle == other);
        }
        if holds_pin(pins, other, body) {
            let j: int = choose|j: int| 0 <= j < pins.len() && #[trigger] pins[j].particle == other && pins[j].body == body;
            pins.lemma_filter_contains(pred, j);
            let i: int = choose|i: int| 0 <= i < kept.len() && kept[i] == pins[j];
            assert(kept[i].particle == other);
        }
    }
}

/// Pinning a particle that holds no pin yet and then unpinning it gives back
/// the pins one started with.
pub proof fn lemma_pin_then_unpin_restores<T>(pins: Seq<Attachment<T>>, pin: Attachment<T>)
    requires
        forall|i: int| 0 <= i < pins.len() ==> #[trigger] pins[i].particle != pin.particle,
    ensures
        without_particle(pins.push(pin), pin.particle) == pins,
{
    let pred = |a: Attachment<T>| a.particle != pin.particle;
    reveal_with_fuel(Seq::<_>::filter, 1);
    assert(pins.push(pin).drop_last() =~= pins);
    lemma_filter_keeps_all(pins, pred);
}

proof fn lemma_filter_keeps_all<A>(s: Seq<A>, pred: spec_fn(A) -> bool)
    requires
        forall|i: int| 0 <= i < s.len() ==> pred(#[trigger] s[i]),
    ensures
        s.filter(pred) == s,
    decreases s.len(),
{
    reveal_with_fuel(Seq::<_>::filter, 1);
    if s.len() > 0 {
        lemma_filter_keeps_all(s.drop_last(), pred);
        assert(pred(s[s.len() - 1]));
        assert(s.drop_last().push(s.last()) =~= s);
    }
}

} // verus!
