use vstd::prelude::*;
use vstd::pervasive::VecAdditionalExecFns;

use crate::board_functions::{coord_in_direction, is_outside, same_coord};
use crate::board_functions::{spec_coord_in_direction, spec_is_outside};
use crate::models::Direction;
use crate::{Battlesnake, Board, Coord};

verus! {

/// One cell of the obstacle grid a reachability query works on. The grid is
/// built fresh for each query and dropped with it.
#[derive(Clone, Copy, PartialEq, Eq, Structural)]
pub struct TestCell {
    pub visited: bool,
    pub obstacle: bool,
    pub tail_length: usize,
}

/// The value every grid cell starts from: clear, unvisited, no tail mark.
pub open spec fn empty_cell() -> TestCell {
    TestCell { visited: false, obstacle: false, tail_length: 0 }
}

/// Where a coordinate's cell sits in the flat grid: row by row, `y` major.
pub open spec fn grid_index(width: i32, c: Coord) -> int {
    c.y * width + c.x
}

/// A coordinate that has a cell in a `width` by `height` grid.
pub open spec fn cell_in_grid(width: i32, height: u32, c: Coord) -> bool {
    0 <= c.x < width && 0 <= c.y < height
}

/// How many cells of the grid are not yet visited. The traversal only ever
/// turns `visited` on, so this number never grows and bounds the recursion.
pub open spec fn count_unvisited(g: Seq<TestCell>) -> nat
    decreases g.len(),
{
    if g.len() == 0 {
        0
    } else {
        count_unvisited(g.drop_last()) + if g.last().visited {
            0nat
        } else {
            1nat
        }
    }
}

pub proof fn lemma_count_update(g: Seq<TestCell>, i: int, c: TestCell)
    requires
        0 <= i < g.len(),
    ensures
        count_unvisited(g.update(i, c)) == count_unvisited(g)
            + (if c.visited { 0int } else { 1int })
            - (if g[i].visited { 0int } else { 1int }),
    decreases g.len(),
{
    let g2 = g.update(i, c);
    if i == g.len() - 1 {
        assert(g2.drop_last() =~= g.drop_last());
    } else {
        assert(g2.drop_last() =~= g.drop_last().update(i, c));
        lemma_count_update(g.drop_last(), i, c);
    }
}

/// A coordinate with a cell in the grid has a flat index within a
/// `width * height` allocation.
pub proof fn lemma_cell_index(width: i32, height: u32, c: Coord)
    requires
        cell_in_grid(width, height, c),
    ensures
        0 <= grid_index(width, c) < width * height,
{
    assert(c.y * width + c.x < width * height) by (nonlinear_arith)
        requires
            0 <= c.x < width,
            0 <= c.y < height as int,
    ;
    assert(0 <= c.y * width) by (nonlinear_arith)
        requires
            0 <= c.y,
            0 < width,
    ;
}

/// Not being outside the board means the coordinate has a cell in the grid,
/// and its flat index is within a `width * height` allocation.
pub proof fn lemma_inside_index(p: Coord, board: Board)
    requires
        !spec_is_outside(p, board),
    ensures
        cell_in_grid(board.width, board.height, p),
        0 <= grid_index(board.width, p) < board.width * board.height,
{
    let h = board.height;
    assert(0 <= p.y < board.height as int) by {
        if h > i32::MAX as u32 {
            assert((h as i32) < 0) by (bit_vector)
                requires
                    h > i32::MAX as u32,
            ;
        }
    }
    lemma_cell_index(board.width, board.height, p);
}

/// Distinct coordinates that both have cells in the grid have distinct flat
/// indices.
pub proof fn lemma_index_injective(width: i32, height: u32, a: Coord, b: Coord)
    requires
        cell_in_grid(width, height, a),
        cell_in_grid(width, height, b),
        a != b,
    ensures
        grid_index(width, a) != grid_index(width, b),
{
    assert(a.y * width + a.x != b.y * width + b.x) by (nonlinear_arith)
        requires
            0 <= a.x < width,
            0 <= b.x < width,
            0 <= a.y,
            0 <= b.y,
            !(a.x == b.x && a.y == b.y),
    ;
}

/// The depth-first traversal, as a mathematical function: from `p`, return the
/// pair of the count gathered and the grid with the newly visited cells
/// marked. A cell outside the board counts 0; a cell carrying a tail mark
/// short-circuits to that mark without being visited; a visited or obstacle
/// cell counts 0; any other cell is marked visited and counts itself plus its
/// four neighbours' counts, each computed on the grid the previous neighbour
/// left behind. `fuel` only forces termination: any fuel above the number of
/// unvisited cells gives the same answer (`lemma_visit_fuel`).
pub open spec fn spec_visit(g: Seq<TestCell>, p: Coord, board: Board, fuel: nat) -> (nat, Seq<
    TestCell,
>)
    decreases fuel,
{
    if fuel == 0 {
        (0nat, g)
    } else if spec_is_outside(p, board) {
        (0nat, g)
    } else {
        let i = grid_index(board.width, p);
        if g[i].tail_length > 0 {
            (g[i].tail_length as nat, g)
        } else if g[i].visited || g[i].obstacle {
            (0nat, g)
        } else {
            let g0 = g.update(
                i,
                TestCell { visited: true, obstacle: g[i].obstacle, tail_length: g[i].tail_length },
            );
            let up = spec_visit(g0, spec_coord_in_direction(p, Direction::Up), board, (fuel - 1) as nat);
            let down = spec_visit(
                up.1,
                spec_coord_in_direction(p, Direction::Down),
                board,
                (fuel - 1) as nat,
            );
            let left = spec_visit(
                down.1,
                spec_coord_in_direction(p, Direction::Left),
                board,
                (fuel - 1) as nat,
            );
            let right = spec_visit(
                left.1,
                spec_coord_in_direction(p, Direction::Right),
                board,
                (fuel - 1) as nat,
            );
            (1 + up.0 + down.0 + left.0 + right.0, right.1)
        }
    }
}

/// The traversal only turns `visited` flags on: length, obstacles and tail
/// marks are untouched, visited cells stay visited, and the number of
/// unvisited cells cannot grow.
pub proof fn lemma_visit_grid(g: Seq<TestCell>, p: Coord, board: Board, fuel: nat)
    requires
        g.len() == board.width * board.height,
    ensures
        ({
            let g2 = spec_visit(g, p, board, fuel).1;
            &&& g2.len() == g.len()
            &&& forall|i: int|
                0 <= i < g.len() ==> (#[trigger] g2[i]).obstacle == g[i].obstacle
                    && g2[i].tail_length == g[i].tail_length && (g[i].visited ==> g2[i].visited)
            &&& count_unvisited(g2) <= count_unvisited(g)
            &&& (fuel > 0 && !spec_is_outside(p, board) && g[grid_index(
                board.width,
                p,
            )].tail_length == 0 && !g[grid_index(board.width, p)].visited && !g[grid_index(
                board.width,
                p,
            )].obstacle) ==> g2[grid_index(board.width, p)].visited
        }),
    decreases fuel,
{
    if fuel == 0 || spec_is_outside(p, board) {
    } else {
        lemma_inside_index(p, board);
        let i = grid_index(board.width, p);
        if g[i].tail_length > 0 || g[i].visited || g[i].obstacle {
        } else {
            let g0 = g.update(
                i,
                TestCell { visited: true, obstacle: g[i].obstacle, tail_length: g[i].tail_length },
            );
            lemma_count_update(g, i, g0[i]);
            let up = spec_visit(g0, spec_coord_in_direction(p, Direction::Up), board, (fuel - 1) as nat);
            lemma_visit_grid(g0, spec_coord_in_direction(p, Direction::Up), board, (fuel - 1) as nat);
            let down = spec_visit(
                up.1,
                spec_coord_in_direction(p, Direction::Down),
                board,
                (fuel - 1) as nat,
            );
            lemma_visit_grid(up.1, spec_coord_in_direction(p, Direction::Down), board, (fuel - 1) as nat);
            let left = spec_visit(
                down.1,
                spec_coord_in_direction(p, Direction::Left),
                board,
                (fuel - 1) as nat,
            );
            lemma_visit_grid(down.1, spec_coord_in_direction(p, Direction::Left), board, (fuel - 1) as nat);
            lemma_visit_grid(left.1, spec_coord_in_direction(p, Direction::Right), board, (fuel - 1) as nat);
        }
    }
}

/// Fuel is irrelevant once it covers every cell the traversal could still
/// visit: any fuel of at least `count_unvisited(g) + 1` gives the same result
/// as the canonical fuel `count_unvisited(g) + 1` itself.
pub proof fn lemma_visit_fuel(g: Seq<TestCell>, p: Coord, board: Board, fuel: nat)
    requires
        g.len() == board.width * board.height,
        fuel >= count_unvisited(g) + 1,
    ensures
        spec_visit(g, p, board, fuel) == spec_visit(g, p, board, count_unvisited(g) + 1),
    decreases fuel,
{
    let canon = count_unvisited(g) + 1;
    if fuel == canon {
    } else if spec_is_outside(p, board) {
    } else {
        lemma_inside_index(p, board);
        let i = grid_index(board.width, p);
        if g[i].tail_length > 0 || g[i].visited || g[i].obstacle {
        } else {
            let g0 = g.update(
                i,
                TestCell { visited: true, obstacle: g[i].obstacle, tail_length: g[i].tail_length },
            );
            lemma_count_update(g, i, g0[i]);
            let c0 = count_unvisited(g0);
            // With fuel `f`, each neighbour runs with fuel `f - 1`; relate each
            // to its own canonical fuel on both sides.
            let p1 = spec_coord_in_direction(p, Direction::Up);
            let p2 = spec_coord_in_direction(p, Direction::Down);
            let p3 = spec_coord_in_direction(p, Direction::Left);
            let p4 = spec_coord_in_direction(p, Direction::Right);
            lemma_visit_fuel(g0, p1, board, (fuel - 1) as nat);
            assert((canon - 1) as nat == c0 + 1);
            let up = spec_visit(g0, p1, board, c0 + 1);
            lemma_visit_grid(g0, p1, board, c0 + 1);
            let g1 = up.1;
            lemma_visit_fuel(g1, p2, board, (fuel - 1) as nat);
            lemma_visit_fuel(g1, p2, board, (canon - 1) as nat);
            let down = spec_visit(g1, p2, board, count_unvisited(g1) + 1);
            lemma_visit_grid(g1, p2, board, count_unvisited(g1) + 1);
            let g2 = down.1;
            lemma_visit_fuel(g2, p3, board, (fuel - 1) as nat);
            lemma_visit_fuel(g2, p3, board, (canon - 1) as nat);
            let left = spec_visit(g2, p3, board, count_unvisited(g2) + 1);
            lemma_visit_grid(g2, p3, board, count_unvisited(g2) + 1);
            let g3 = left.1;
            lemma_visit_fuel(g3, p4, board, (fuel - 1) as nat);
            lemma_visit_fuel(g3, p4, board, (canon - 1) as nat);
        }
    }
}

/// One body segment applied to the grid. A segment without a cell in the grid
/// is skipped: a snake reported off the board must never be used to index the
/// grid. The tail of a snake longer than two segments first records that
/// snake's body length on its cell; then the cell is marked an obstacle,
/// unless the segment sits on the evaluation start point, which is forced
/// clear.
pub open spec fn mark_segment(
    g: Seq<TestCell>,
    width: i32,
    height: u32,
    seg: Coord,
    is_long_tail: bool,
    body_len: nat,
    test_point: Coord,
) -> Seq<TestCell> {
    if cell_in_grid(width, height, seg) {
        let i = grid_index(width, seg);
        let c1 = if is_long_tail {
            TestCell { visited: g[i].visited, obstacle: true, tail_length: body_len as usize }
        } else {
            g[i]
        };
        if seg == test_point {
            g.update(i, TestCell { visited: c1.visited, obstacle: false, tail_length: c1.tail_length })
        } else {
            g.update(i, TestCell { visited: c1.visited, obstacle: true, tail_length: c1.tail_length })
        }
    } else {
        g
    }
}

/// The first `n` segments of one snake's body applied to the grid, in body
/// order. A segment is the long tail when the body has more than two segments
/// and it is the last one.
pub open spec fn mark_body(
    g: Seq<TestCell>,
    width: i32,
    height: u32,
    body: Seq<Coord>,
    test_point: Coord,
    n: int,
) -> Seq<TestCell>
    decreases n,
{
    if n <= 0 {
        g
    } else {
        let prev = mark_body(g, width, height, body, test_point, n - 1);
        mark_segment(
            prev,
            width,
            height,
            body[n - 1],
            body.len() > 2 && n >= body.len(),
            body.len(),
            test_point,
        )
    }
}

/// The first `n` snakes' bodies applied to the grid, in snake order.
pub open spec fn mark_snakes(
    g: Seq<TestCell>,
    width: i32,
    height: u32,
    bodies: Seq<Seq<Coord>>,
    test_point: Coord,
    n: int,
) -> Seq<TestCell>
    decreases n,
{
    if n <= 0 {
        g
    } else {
        let prev = mark_snakes(g, width, height, bodies, test_point, n - 1);
        mark_body(prev, width, height, bodies[n - 1], test_point, bodies[n - 1].len() as int)
    }
}

pub open spec fn snake_bodies(board: Board) -> Seq<Seq<Coord>> {
    board.snakes@.map(|i: int, s: crate::Battlesnake| s.body@)
}

/// The grid a query starts from: one clear cell per board coordinate.
pub open spec fn initial_grid(board: Board) -> Seq<TestCell> {
    Seq::new((board.width * board.height) as nat, |i: int| empty_cell())
}

/// The obstacle grid built from the snapshot for a query that starts at
/// `test_point`.
pub open spec fn built_grid(board: Board, test_point: Coord) -> Seq<TestCell> {
    mark_snakes(
        initial_grid(board),
        board.width,
        board.height,
        snake_bodies(board),
        test_point,
        board.snakes@.len() as int,
    )
}

pub proof fn lemma_mark_body_len(
    g: Seq<TestCell>,
    width: i32,
    height: u32,
    body: Seq<Coord>,
    test_point: Coord,
    n: int,
)
    requires
        g.len() == width * height,
    ensures
        mark_body(g, width, height, body, test_point, n).len() == g.len(),
    decreases n,
{
    if n > 0 {
        lemma_mark_body_len(g, width, height, body, test_point, n - 1);
        if cell_in_grid(width, height, body[n - 1]) {
            lemma_cell_index(width, height, body[n - 1]);
        }
    }
}

pub proof fn lemma_mark_snakes_len(
    g: Seq<TestCell>,
    width: i32,
    height: u32,
    bodies: Seq<Seq<Coord>>,
    test_point: Coord,
    n: int,
)
    requires
        g.len() == width * height,
    ensures
        mark_snakes(g, width, height, bodies, test_point, n).len() == g.len(),
    decreases n,
{
    if n > 0 {
        lemma_mark_snakes_len(g, width, height, bodies, test_point, n - 1);
        lemma_mark_body_len(
            mark_snakes(g, width, height, bodies, test_point, n - 1),
            width,
            height,
            bodies[n - 1],
            test_point,
            bodies[n - 1].len() as int,
        );
    }
}

pub open spec fn deref_point(o: Option<&Coord>) -> Option<Coord> {
    match o {
        Option::None => Option::None,
        Option::Some(c) => Option::Some(*c),
    }
}

/// How much open space a query from `test_point` finds: the traversal's count
/// over the grid built from the snapshot, or 0 when there is no start point.
pub open spec fn spec_reachable_cells(board: Board, test_point: Option<Coord>) -> nat {
    match test_point {
        Option::None => 0nat,
        Option::Some(t) => {
            let g = built_grid(board, t);
            spec_visit(g, t, board, count_unvisited(g) + 1).0
        },
    }
}

/// Law: the reachable count is a function of the snapshot and the start point
/// alone. No state survives a query, so two queries on the same snapshot and
/// start return the same value.
pub proof fn lemma_reachable_cells_deterministic(
    board: Board,
    test_point: Option<Coord>,
    r1: nat,
    r2: nat,
)
    requires
        r1 == spec_reachable_cells(board, test_point),
        r2 == spec_reachable_cells(board, test_point),
    ensures
        r1 == r2,
{
}

/// Marking one snake's body never blocks the evaluation start point: its cell
/// stays clear and unvisited through every segment.
pub proof fn lemma_mark_body_start_clear(
    g: Seq<TestCell>,
    width: i32,
    height: u32,
    body: Seq<Coord>,
    test_point: Coord,
    n: int,
)
    requires
        g.len() == width * height,
        cell_in_grid(width, height, test_point),
        !g[grid_index(width, test_point)].obstacle,
        !g[grid_index(width, test_point)].visited,
    ensures
        ({
            let g2 = mark_body(g, width, height, body, test_point, n);
            &&& !g2[grid_index(width, test_point)].obstacle
            &&& !g2[grid_index(width, test_point)].visited
        }),
    decreases n,
{
    if n > 0 {
        lemma_cell_index(width, height, test_point);
        lemma_mark_body_start_clear(g, width, height, body, test_point, n - 1);
        lemma_mark_body_len(g, width, height, body, test_point, n - 1);
        let seg = body[n - 1];
        if cell_in_grid(width, height, seg) {
            lemma_cell_index(width, height, seg);
            if seg != test_point {
                lemma_index_injective(width, height, seg, test_point);
            }
        }
    }
}

/// Marking every snake's body keeps the evaluation start point clear and
/// unvisited.
pub proof fn lemma_mark_snakes_start_clear(
    g: Seq<TestCell>,
    width: i32,
    height: u32,
    bodies: Seq<Seq<Coord>>,
    test_point: Coord,
    n: int,
)
    requires
        g.len() == width * height,
        cell_in_grid(width, height, test_point),
        !g[grid_index(width, test_point)].obstacle,
        !g[grid_index(width, test_point)].visited,
    ensures
        ({
            let g2 = mark_snakes(g, width, height, bodies, test_point, n);
            &&& !g2[grid_index(width, test_point)].obstacle
            &&& !g2[grid_index(width, test_point)].visited
        }),
    decreases n,
{
    if n > 0 {
        lemma_mark_snakes_start_clear(g, width, height, bodies, test_point, n - 1);
        lemma_mark_snakes_len(g, width, height, bodies, test_point, n - 1);
        lemma_mark_body_start_clear(
            mark_snakes(g, width, height, bodies, test_point, n - 1),
            width,
            height,
            bodies[n - 1],
            test_point,
            bodies[n - 1].len() as int,
        );
    }
}

/// The coordinate whose cell sits at flat index `i`.
pub open spec fn coord_of(width: i32, i: int) -> Coord {
    Coord { x: (i % (width as int)) as i32, y: (i / (width as int)) as i32 }
}

pub proof fn lemma_coord_of_index(width: i32, height: u32, c: Coord)
    requires
        cell_in_grid(width, height, c),
    ensures
        coord_of(width, grid_index(width, c)) == c,
{
    vstd::arithmetic::div_mod::lemma_fundamental_div_mod_converse(
        grid_index(width, c),
        width as int,
        c.y as int,
        c.x as int,
    );
}

/// The tail shortcut value one traversal step onto `q` yields: the tail mark
/// on `q`'s cell, or 0 when `q` is off the board or carries no mark.
pub open spec fn tailval(g: Seq<TestCell>, board: Board, q: Coord) -> nat {
    if spec_is_outside(q, board) {
        0nat
    } else if g[grid_index(board.width, q)].tail_length > 0 {
        g[grid_index(board.width, q)].tail_length as nat
    } else {
        0nat
    }
}

/// What the four steps out of a visited cell `p` collect from tail marks.
pub open spec fn tailgain(g: Seq<TestCell>, board: Board, p: Coord) -> nat {
    tailval(g, board, spec_coord_in_direction(p, Direction::Up)) + tailval(
        g,
        board,
        spec_coord_in_direction(p, Direction::Down),
    ) + tailval(g, board, spec_coord_in_direction(p, Direction::Left)) + tailval(
        g,
        board,
        spec_coord_in_direction(p, Direction::Right),
    )
}

/// The count a traversal gathers, read off its footprint: each cell visited in
/// `g_new` but not in `g_old` contributes itself and the tail marks its four
/// steps reach (indices below `n` only).
pub open spec fn visit_total(
    g_old: Seq<TestCell>,
    g_new: Seq<TestCell>,
    board: Board,
    n: int,
) -> nat
    decreases n,
{
    if n <= 0 {
        0nat
    } else {
        visit_total(g_old, g_new, board, n - 1) + if !g_old[n - 1].visited && g_new[n
            - 1].visited {
            1nat + tailgain(g_old, board, coord_of(board.width, n - 1))
        } else {
            0nat
        }
    }
}

/// Tail gains depend only on the tail marks, which a traversal never changes.
pub proof fn lemma_tailgain_same(g1: Seq<TestCell>, g2: Seq<TestCell>, board: Board, p: Coord)
    requires
        g1.len() == board.width * board.height,
        g2.len() == g1.len(),
        forall|i: int| 0 <= i < g1.len() ==> (#[trigger] g2[i]).tail_length == g1[i].tail_length,
    ensures
        tailgain(g2, board, p) == tailgain(g1, board, p),
{
    let p1 = spec_coord_in_direction(p, Direction::Up);
    let p2 = spec_coord_in_direction(p, Direction::Down);
    let p3 = spec_coord_in_direction(p, Direction::Left);
    let p4 = spec_coord_in_direction(p, Direction::Right);
    if !spec_is_outside(p1, board) {
        lemma_inside_index(p1, board);
    }
    if !spec_is_outside(p2, board) {
        lemma_inside_index(p2, board);
    }
    if !spec_is_outside(p3, board) {
        lemma_inside_index(p3, board);
    }
    if !spec_is_outside(p4, board) {
        lemma_inside_index(p4, board);
    }
}

/// A traversal that visited nothing gathered nothing.
pub proof fn lemma_visit_total_refl(g: Seq<TestCell>, board: Board, n: int)
    ensures
        visit_total(g, g, board, n) == 0,
    decreases n,
{
    if n > 0 {
        lemma_visit_total_refl(g, board, n - 1);
    }
}

/// Footprint counting is additive over the stages of a traversal, as long as
/// visited flags only ever turn on and tail marks stay put.
pub proof fn lemma_visit_total_add(
    ga: Seq<TestCell>,
    gb: Seq<TestCell>,
    gc: Seq<TestCell>,
    board: Board,
    n: int,
)
    requires
        ga.len() == board.width * board.height,
        gb.len() == ga.len(),
        gc.len() == ga.len(),
        n <= ga.len(),
        forall|i: int| 0 <= i < ga.len() ==> ((#[trigger] ga[i]).visited ==> gb[i].visited),
        forall|i: int| 0 <= i < ga.len() ==> ((#[trigger] gb[i]).visited ==> gc[i].visited),
        forall|i: int| 0 <= i < ga.len() ==> (#[trigger] gb[i]).tail_length == ga[i].tail_length,
    ensures
        visit_total(ga, gc, board, n) == visit_total(ga, gb, board, n) + visit_total(
            gb,
            gc,
            board,
            n,
        ),
    decreases n,
{
    if n > 0 {
        lemma_visit_total_add(ga, gb, gc, board, n - 1);
        if !gb[n - 1].visited && gc[n - 1].visited {
            lemma_tailgain_same(ga, gb, board, coord_of(board.width, n - 1));
        }
    }
}

/// Marking one clear cell visited adds exactly that cell's contribution.
pub proof fn lemma_visit_total_update(g: Seq<TestCell>, c: Coord, board: Board, n: int)
    requires
        g.len() == board.width * board.height,
        n <= g.len(),
        cell_in_grid(board.width, board.height, c),
        !g[grid_index(board.width, c)].visited,
    ensures
        ({
            let i = grid_index(board.width, c);
            let g0 = g.update(
                i,
                TestCell { visited: true, obstacle: g[i].obstacle, tail_length: g[i].tail_length },
            );
            visit_total(g, g0, board, n) == if i < n {
                1nat + tailgain(g, board, c)
            } else {
                0nat
            }
        }),
    decreases n,
{
    lemma_cell_index(board.width, board.height, c);
    if n > 0 {
        lemma_visit_total_update(g, c, board, n - 1);
        if n - 1 == grid_index(board.width, c) {
            lemma_coord_of_index(board.width, board.height, c);
        }
    }
}

/// A traversal's result equals its footprint count: when the start cell is
/// actually entered, the result is exactly the contribution of every newly
/// visited cell; the short-circuit starts return their short-circuit values.
pub proof fn lemma_visit_count(g: Seq<TestCell>, p: Coord, board: Board, fuel: nat)
    requires
        g.len() == board.width * board.height,
        fuel >= count_unvisited(g) + 1,
    ensures
        ({
            let r = spec_visit(g, p, board, fuel);
            if spec_is_outside(p, board) {
                r.0 == 0
            } else if g[grid_index(board.width, p)].tail_length > 0 {
                r.0 == g[grid_index(board.width, p)].tail_length as nat
            } else if g[grid_index(board.width, p)].visited || g[grid_index(
                board.width,
                p,
            )].obstacle {
                r.0 == 0
            } else {
                r.0 == visit_total(g, r.1, board, g.len() as int)
            }
        }),
    decreases fuel,
{
    if spec_is_outside(p, board) {
    } else {
        lemma_inside_index(p, board);
        let i = grid_index(board.width, p);
        if g[i].tail_length > 0 || g[i].visited || g[i].obstacle {
        } else {
            let len = g.len() as int;
            let g0 = g.update(
                i,
                TestCell { visited: true, obstacle: g[i].obstacle, tail_length: g[i].tail_length },
            );
            lemma_count_update(g, i, g0[i]);
            let f1 = (fuel - 1) as nat;
            let p1 = spec_coord_in_direction(p, Direction::Up);
            let p2 = spec_coord_in_direction(p, Direction::Down);
            let p3 = spec_coord_in_direction(p, Direction::Left);
            let p4 = spec_coord_in_direction(p, Direction::Right);
            let up = spec_visit(g0, p1, board, f1);
            let down = spec_visit(up.1, p2, board, f1);
            let left = spec_visit(down.1, p3, board, f1);
            let right = spec_visit(left.1, p4, board, f1);
            let g1 = up.1;
            let g2 = down.1;
            let g3 = left.1;
            let g4 = right.1;
            lemma_visit_grid(g0, p1, board, f1);
            lemma_visit_grid(g1, p2, board, f1);
            lemma_visit_grid(g2, p3, board, f1);
            lemma_visit_grid(g3, p4, board, f1);
            lemma_visit_count(g0, p1, board, f1);
            lemma_visit_count(g1, p2, board, f1);
            lemma_visit_count(g2, p3, board, f1);
            lemma_visit_count(g3, p4, board, f1);

            // Every stage keeps the tail marks of `g` and only adds visits.
            assert(forall|j: int|
                0 <= j < len ==> (#[trigger] g1[j]).tail_length == g[j].tail_length
                    && g2[j].tail_length == g[j].tail_length && g3[j].tail_length
                    == g[j].tail_length && g4[j].tail_length == g[j].tail_length);
            assert(forall|j: int|
                0 <= j < len ==> ((#[trigger] g0[j]).visited ==> g4[j].visited) && ((
                #[trigger] g1[j]).visited ==> g4[j].visited) && ((#[trigger] g2[j]).visited
                    ==> g4[j].visited));

            // The footprint splits stage by stage.
            lemma_visit_total_add(g, g0, g4, board, len);
            lemma_visit_total_add(g0, g1, g4, board, len);
            lemma_visit_total_add(g1, g2, g4, board, len);
            lemma_visit_total_add(g2, g3, g4, board, len);
            lemma_visit_total_update(g, p, board, len);

            // Each step out of `p` contributes its short-circuit value or its
            // own subtree's footprint.
            lemma_visit_step_contribution(g, g0, p1, board, f1);
            lemma_visit_step_contribution(g, g1, p2, board, f1);
            lemma_visit_step_contribution(g, g2, p3, board, f1);
            lemma_visit_step_contribution(g, g3, p4, board, f1);
        }
    }
}

/// One step of the traversal, out of a just-visited cell onto `q`, returns the
/// tail value `q` offers plus the footprint of whatever subtree it opened.
proof fn lemma_visit_step_contribution(
    g: Seq<TestCell>,
    h: Seq<TestCell>,
    q: Coord,
    board: Board,
    fuel: nat,
)
    requires
        g.len() == board.width * board.height,
        h.len() == g.len(),
        fuel >= count_unvisited(h) + 1,
        forall|j: int| 0 <= j < g.len() ==> (#[trigger] h[j]).tail_length == g[j].tail_length,
        ({
            let r = spec_visit(h, q, board, fuel);
            if spec_is_outside(q, board) {
                r.0 == 0
            } else if h[grid_index(board.width, q)].tail_length > 0 {
                r.0 == h[grid_index(board.width, q)].tail_length as nat
            } else if h[grid_index(board.width, q)].visited || h[grid_index(
                board.width,
                q,
            )].obstacle {
                r.0 == 0
            } else {
                r.0 == visit_total(h, r.1, board, h.len() as int)
            }
        }),
    ensures
        ({
            let r = spec_visit(h, q, board, fuel);
            r.0 == tailval(g, board, q) + visit_total(h, r.1, board, g.len() as int)
        }),
{
    let r = spec_visit(h, q, board, fuel);
    if spec_is_outside(q, board) {
        lemma_visit_total_refl(h, board, g.len() as int);
    } else {
        lemma_inside_index(q, board);
        let i = grid_index(board.width, q);
        if h[i].tail_length > 0 {
            lemma_visit_total_refl(h, board, g.len() as int);
        } else if h[i].visited || h[i].obstacle {
            lemma_visit_total_refl(h, board, g.len() as int);
        }
    }
}

/// A step target the traversal would not enter and explore: off the board,
/// carrying a tail mark, an obstacle, or already visited.
pub open spec fn step_settled(g: Seq<TestCell>, board: Board, q: Coord) -> bool {
    ||| spec_is_outside(q, board)
    ||| g[grid_index(board.width, q)].tail_length > 0
    ||| g[grid_index(board.width, q)].obstacle
    ||| g[grid_index(board.width, q)].visited
}

/// A settled step stays settled while visits only accumulate and the other
/// fields stay put.
pub proof fn lemma_settled_mono(ga: Seq<TestCell>, gb: Seq<TestCell>, board: Board, q: Coord)
    requires
        ga.len() == board.width * board.height,
        gb.len() == ga.len(),
        forall|j: int|
            0 <= j < ga.len() ==> (#[trigger] gb[j]).tail_length == ga[j].tail_length
                && gb[j].obstacle == ga[j].obstacle && (ga[j].visited ==> gb[j].visited),
        step_settled(ga, board, q),
    ensures
        step_settled(gb, board, q),
{
    if !spec_is_outside(q, board) {
        lemma_inside_index(q, board);
    }
}

/// Every cell a traversal newly visited has all four of its steps settled in
/// the grid the traversal left behind: the traversal never walks away from an
/// open continuation.
pub open spec fn newly_closed(g: Seq<TestCell>, g2: Seq<TestCell>, board: Board) -> bool {
    forall|q: Coord|
        (#[trigger] cell_in_grid(board.width, board.height, q) && !g[grid_index(
            board.width,
            q,
        )].visited && g2[grid_index(board.width, q)].visited) ==> step_settled(
            g2,
            board,
            spec_coord_in_direction(q, Direction::Up),
        ) && step_settled(g2, board, spec_coord_in_direction(q, Direction::Down)) && step_settled(
            g2,
            board,
            spec_coord_in_direction(q, Direction::Left),
        ) && step_settled(g2, board, spec_coord_in_direction(q, Direction::Right))
}

pub proof fn lemma_visit_closed(g: Seq<TestCell>, p: Coord, board: Board, fuel: nat)
    requires
        g.len() == board.width * board.height,
        fuel >= count_unvisited(g) + 1,
    ensures
        newly_closed(g, spec_visit(g, p, board, fuel).1, board),
    decreases fuel,
{
    if spec_is_outside(p, board) {
    } else {
        lemma_inside_index(p, board);
        let i = grid_index(board.width, p);
        if g[i].tail_length > 0 || g[i].visited || g[i].obstacle {
        } else {
            let g0 = g.update(
                i,
                TestCell { visited: true, obstacle: g[i].obstacle, tail_length: g[i].tail_length },
            );
            lemma_count_update(g, i, g0[i]);
            let f1 = (fuel - 1) as nat;
            let p1 = spec_coord_in_direction(p, Direction::Up);
            let p2 = spec_coord_in_direction(p, Direction::Down);
            let p3 = spec_coord_in_direction(p, Direction::Left);
            let p4 = spec_coord_in_direction(p, Direction::Right);
            let g1 = spec_visit(g0, p1, board, f1).1;
            let g2 = spec_visit(g1, p2, board, f1).1;
            let g3 = spec_visit(g2, p3, board, f1).1;
            let g4 = spec_visit(g3, p4, board, f1).1;
            lemma_visit_grid(g0, p1, board, f1);
            lemma_visit_grid(g1, p2, board, f1);
            lemma_visit_grid(g2, p3, board, f1);
            lemma_visit_grid(g3, p4, board, f1);
            lemma_visit_closed(g0, p1, board, f1);
            lemma_visit_closed(g1, p2, board, f1);
            lemma_visit_closed(g2, p3, board, f1);
            lemma_visit_closed(g3, p4, board, f1);

            assert forall|q: Coord|
                (#[trigger] cell_in_grid(board.width, board.height, q) && !g[grid_index(
                    board.width,
                    q,
                )].visited && g4[grid_index(board.width, q)].visited) implies step_settled(
                g4,
                board,
                spec_coord_in_direction(q, Direction::Up),
            ) && step_settled(g4, board, spec_coord_in_direction(q, Direction::Down))
                && step_settled(g4, board, spec_coord_in_direction(q, Direction::Left))
                && step_settled(g4, board, spec_coord_in_direction(q, Direction::Right)) by {
                lemma_cell_index(board.width, board.height, q);
                let iq = grid_index(board.width, q);
                if iq == i {
                    lemma_index_injective_eq(board.width, board.height, q, p);
                    // `q` is the cell the node itself visited: each of its four
                    // steps was handed to a subtraversal, which settled it.
                    lemma_step_becomes_settled(g0, p1, board, f1, g1);
                    lemma_settled_mono(g1, g4, board, p1);
                    lemma_step_becomes_settled(g1, p2, board, f1, g2);
                    lemma_settled_mono(g2, g4, board, p2);
                    lemma_step_becomes_settled(g2, p3, board, f1, g3);
                    lemma_settled_mono(g3, g4, board, p3);
                    lemma_step_becomes_settled(g3, p4, board, f1, g4);
                } else {
                    if g1[iq].visited {
                        lemma_settled_mono(g1, g4, board, spec_coord_in_direction(q, Direction::Up));
                        lemma_settled_mono(g1, g4, board, spec_coord_in_direction(q, Direction::Down));
                        lemma_settled_mono(g1, g4, board, spec_coord_in_direction(q, Direction::Left));
                        lemma_settled_mono(g1, g4, board, spec_coord_in_direction(q, Direction::Right));
                    } else if g2[iq].visited {
                        lemma_settled_mono(g2, g4, board, spec_coord_in_direction(q, Direction::Up));
                        lemma_settled_mono(g2, g4, board, spec_coord_in_direction(q, Direction::Down));
                        lemma_settled_mono(g2, g4, board, spec_coord_in_direction(q, Direction::Left));
                        lemma_settled_mono(g2, g4, board, spec_coord_in_direction(q, Direction::Right));
                    } else if g3[iq].visited {
                        lemma_settled_mono(g3, g4, board, spec_coord_in_direction(q, Direction::Up));
                        lemma_settled_mono(g3, g4, board, spec_coord_in_direction(q, Direction::Down));
                        lemma_settled_mono(g3, g4, board, spec_coord_in_direction(q, Direction::Left));
                        lemma_settled_mono(g3, g4, board, spec_coord_in_direction(q, Direction::Right));
                    }
                }
            }
        }
    }
}

/// Two cells with the same flat index are the same cell.
pub proof fn lemma_index_injective_eq(width: i32, height: u32, a: Coord, b: Coord)
    requires
        cell_in_grid(width, height, a),
        cell_in_grid(width, height, b),
        grid_index(width, a) == grid_index(width, b),
    ensures
        a == b,
{
    if a != b {
        lemma_index_injective(width, height, a, b);
    }
}

/// After a subtraversal was handed the step target `q`, `q` is settled in the
/// grid it returns.
pub proof fn lemma_step_becomes_settled(
    h: Seq<TestCell>,
    q: Coord,
    board: Board,
    fuel: nat,
    g_end: Seq<TestCell>,
)
    requires
        h.len() == board.width * board.height,
        fuel >= count_unvisited(h) + 1,
        g_end == spec_visit(h, q, board, fuel).1,
    ensures
        step_settled(g_end, board, q),
{
    if !spec_is_outside(q, board) {
        lemma_inside_index(q, board);
        lemma_visit_grid(h, q, board, fuel);
    }
}

/// Every visited cell of `gf` has its four steps settled in `gf`.
pub open spec fn visited_closed(gf: Seq<TestCell>, board: Board) -> bool {
    forall|q: Coord|
        (#[trigger] cell_in_grid(board.width, board.height, q) && gf[grid_index(
            board.width,
            q,
        )].visited) ==> step_settled(gf, board, spec_coord_in_direction(q, Direction::Up))
            && step_settled(gf, board, spec_coord_in_direction(q, Direction::Down))
            && step_settled(gf, board, spec_coord_in_direction(q, Direction::Left))
            && step_settled(gf, board, spec_coord_in_direction(q, Direction::Right))
}

/// A traversal over a grid with more obstacles stays inside the footprint of a
/// finished traversal over the grid with fewer: every cell it visits, the
/// finished one had visited. `gf` is the finished footprint; it must be closed,
/// cover the visits already on `h`, and cover the start.
pub proof fn lemma_visit_transfer(
    h: Seq<TestCell>,
    p: Coord,
    board: Board,
    fuel: nat,
    gf: Seq<TestCell>,
)
    requires
        h.len() == board.width * board.height,
        gf.len() == h.len(),
        fuel >= count_unvisited(h) + 1,
        visited_closed(gf, board),
        forall|j: int| 0 <= j < h.len() ==> (#[trigger] h[j]).tail_length == gf[j].tail_length,
        forall|j: int| 0 <= j < h.len() ==> ((#[trigger] gf[j]).obstacle ==> h[j].obstacle),
        forall|j: int| 0 <= j < h.len() ==> ((#[trigger] h[j]).visited ==> gf[j].visited),
        (!spec_is_outside(p, board) && h[grid_index(board.width, p)].tail_length == 0 && !h[
            grid_index(board.width, p)].obstacle && !h[grid_index(board.width, p)].visited)
            ==> gf[grid_index(board.width, p)].visited,
    ensures
        forall|j: int|
            0 <= j < h.len() ==> ((#[trigger] spec_visit(h, p, board, fuel).1[j]).visited
                ==> gf[j].visited),
    decreases fuel,
{
    if spec_is_outside(p, board) {
    } else {
        lemma_inside_index(p, board);
        let i = grid_index(board.width, p);
        if h[i].tail_length > 0 || h[i].visited || h[i].obstacle {
        } else {
            let h0 = h.update(
                i,
                TestCell { visited: true, obstacle: h[i].obstacle, tail_length: h[i].tail_length },
            );
            lemma_count_update(h, i, h0[i]);
            let f1 = (fuel - 1) as nat;
            let p1 = spec_coord_in_direction(p, Direction::Up);
            let p2 = spec_coord_in_direction(p, Direction::Down);
            let p3 = spec_coord_in_direction(p, Direction::Left);
            let p4 = spec_coord_in_direction(p, Direction::Right);
            let h1 = spec_visit(h0, p1, board, f1).1;
            let h2 = spec_visit(h1, p2, board, f1).1;
            let h3 = spec_visit(h2, p3, board, f1).1;
            let h4 = spec_visit(h3, p4, board, f1).1;
            lemma_visit_grid(h0, p1, board, f1);
            lemma_visit_grid(h1, p2, board, f1);
            lemma_visit_grid(h2, p3, board, f1);
            assert(forall|j: int|
                0 <= j < h.len() ==> (#[trigger] h0[j]).tail_length == gf[j].tail_length && (
                gf[j].obstacle ==> h0[j].obstacle));
            assert(forall|j: int|
                0 <= j < h.len() ==> (#[trigger] h1[j]).tail_length == gf[j].tail_length && (
                gf[j].obstacle ==> h1[j].obstacle));
            assert(forall|j: int|
                0 <= j < h.len() ==> (#[trigger] h2[j]).tail_length == gf[j].tail_length && (
                gf[j].obstacle ==> h2[j].obstacle));
            assert(forall|j: int|
                0 <= j < h.len() ==> (#[trigger] h3[j]).tail_length == gf[j].tail_length && (
                gf[j].obstacle ==> h3[j].obstacle));
            lemma_transfer_step_hypothesis(h0, p, p1, board, gf);
            lemma_visit_transfer(h0, p1, board, f1, gf);
            lemma_transfer_step_hypothesis(h1, p, p2, board, gf);
            lemma_visit_transfer(h1, p2, board, f1, gf);
            lemma_transfer_step_hypothesis(h2, p, p3, board, gf);
            lemma_visit_transfer(h2, p3, board, f1, gf);
            lemma_transfer_step_hypothesis(h3, p, p4, board, gf);
            lemma_visit_transfer(h3, p4, board, f1, gf);
            assert(spec_visit(h, p, board, fuel).1 == h4);
        }
    }
}

/// The start hypothesis of the transfer, re-established for a step out of a
/// cell that `gf` has visited: if the stricter traversal can enter the step's
/// target, closedness of `gf` leaves only one settled case — `gf` visited it.
proof fn lemma_transfer_step_hypothesis(
    hc: Seq<TestCell>,
    p: Coord,
    q: Coord,
    board: Board,
    gf: Seq<TestCell>,
)
    requires
        hc.len() == board.width * board.height,
        gf.len() == hc.len(),
        visited_closed(gf, board),
        !spec_is_outside(p, board),
        q == spec_coord_in_direction(p, Direction::Up) || q == spec_coord_in_direction(
            p,
            Direction::Down,
        ) || q == spec_coord_in_direction(p, Direction::Left) || q == spec_coord_in_direction(
            p,
            Direction::Right,
        ),
        gf[grid_index(board.width, p)].visited,
        forall|j: int| 0 <= j < hc.len() ==> (#[trigger] hc[j]).tail_length == gf[j].tail_length,
        forall|j: int| 0 <= j < hc.len() ==> ((#[trigger] gf[j]).obstacle ==> hc[j].obstacle),
    ensures
        (!spec_is_outside(q, board) && hc[grid_index(board.width, q)].tail_length == 0 && !hc[
            grid_index(board.width, q)].obstacle && !hc[grid_index(board.width, q)].visited)
            ==> gf[grid_index(board.width, q)].visited,
{
    lemma_inside_index(p, board);
    if !spec_is_outside(q, board) && hc[grid_index(board.width, q)].tail_length == 0 && !hc[
        grid_index(board.width, q)].obstacle && !hc[grid_index(board.width, q)].visited {
        lemma_inside_index(q, board);
        assert(cell_in_grid(board.width, board.height, p));
        assert(step_settled(gf, board, q));
    }
}

/// A traversal whose footprint sits inside another's, cell for cell, gathers
/// at most the other's count.
pub proof fn lemma_visit_total_le(
    ga1: Seq<TestCell>,
    gb1: Seq<TestCell>,
    ga2: Seq<TestCell>,
    gb2: Seq<TestCell>,
    board: Board,
    n: int,
)
    requires
        ga1.len() == board.width * board.height,
        ga2.len() == ga1.len(),
        n <= ga1.len(),
        forall|j: int| 0 <= j < ga1.len() ==> (#[trigger] ga2[j]).tail_length == ga1[j].tail_length,
        forall|j: int|
            0 <= j < ga1.len() ==> ((!(#[trigger] ga2[j]).visited && gb2[j].visited) ==> (
            !ga1[j].visited && gb1[j].visited)),
    ensures
        visit_total(ga2, gb2, board, n) <= visit_total(ga1, gb1, board, n),
    decreases n,
{
    if n > 0 {
        lemma_visit_total_le(ga1, gb1, ga2, gb2, board, n - 1);
        if !ga2[n - 1].visited && gb2[n - 1].visited {
            lemma_tailgain_same(ga1, ga2, board, coord_of(board.width, n - 1));
        }
    }
}

/// A traversal reads nothing of the board but its dimensions.
pub proof fn lemma_visit_board_agnostic(
    g: Seq<TestCell>,
    p: Coord,
    b1: Board,
    b2: Board,
    fuel: nat,
)
    requires
        b1.width == b2.width,
        b1.height == b2.height,
    ensures
        spec_visit(g, p, b1, fuel) == spec_visit(g, p, b2, fuel),
    decreases fuel,
{
    if fuel > 0 && !spec_is_outside(p, b1) {
        let i = grid_index(b1.width, p);
        if g[i].tail_length > 0 || g[i].visited || g[i].obstacle {
        } else {
            let g0 = g.update(
                i,
                TestCell { visited: true, obstacle: g[i].obstacle, tail_length: g[i].tail_length },
            );
            let f1 = (fuel - 1) as nat;
            let p1 = spec_coord_in_direction(p, Direction::Up);
            let p2 = spec_coord_in_direction(p, Direction::Down);
            let p3 = spec_coord_in_direction(p, Direction::Left);
            let p4 = spec_coord_in_direction(p, Direction::Right);
            lemma_visit_board_agnostic(g0, p1, b1, b2, f1);
            let g1 = spec_visit(g0, p1, b1, f1).1;
            lemma_visit_board_agnostic(g1, p2, b1, b2, f1);
            let g2 = spec_visit(g1, p2, b1, f1).1;
            lemma_visit_board_agnostic(g2, p3, b1, b2, f1);
            let g3 = spec_visit(g2, p3, b1, f1).1;
            lemma_visit_board_agnostic(g3, p4, b1, b2, f1);
        }
    }
}

/// Marking snakes reads only the bodies it is given, in order.
pub proof fn lemma_mark_snakes_prefix(
    g: Seq<TestCell>,
    width: i32,
    height: u32,
    bodies1: Seq<Seq<Coord>>,
    bodies2: Seq<Seq<Coord>>,
    test_point: Coord,
    n: int,
)
    requires
        forall|j: int| 0 <= j < n ==> bodies1[j] == bodies2[j],
    ensures
        mark_snakes(g, width, height, bodies1, test_point, n) == mark_snakes(
            g,
            width,
            height,
            bodies2,
            test_point,
            n,
        ),
    decreases n,
{
    if n > 0 {
        lemma_mark_snakes_prefix(g, width, height, bodies1, bodies2, test_point, n - 1);
    }
}

/// Building the grid never touches the visited flags.
pub proof fn lemma_mark_body_visited(
    g: Seq<TestCell>,
    width: i32,
    height: u32,
    body: Seq<Coord>,
    test_point: Coord,
    n: int,
)
    requires
        g.len() == width * height,
    ensures
        forall|j: int|
            0 <= j < g.len() ==> (#[trigger] mark_body(g, width, height, body, test_point, n)[j]).visited
                == g[j].visited,
    decreases n,
{
    if n > 0 {
        lemma_mark_body_visited(g, width, height, body, test_point, n - 1);
        lemma_mark_body_len(g, width, height, body, test_point, n - 1);
        if cell_in_grid(width, height, body[n - 1]) {
            lemma_cell_index(width, height, body[n - 1]);
        }
    }
}

pub proof fn lemma_mark_snakes_visited(
    g: Seq<TestCell>,
    width: i32,
    height: u32,
    bodies: Seq<Seq<Coord>>,
    test_point: Coord,
    n: int,
)
    requires
        g.len() == width * height,
    ensures
        forall|j: int|
            0 <= j < g.len() ==> (#[trigger] mark_snakes(g, width, height, bodies, test_point, n)[j]).visited
                == g[j].visited,
    decreases n,
{
    if n > 0 {
        lemma_mark_snakes_visited(g, width, height, bodies, test_point, n - 1);
        lemma_mark_snakes_len(g, width, height, bodies, test_point, n - 1);
        lemma_mark_body_visited(
            mark_snakes(g, width, height, bodies, test_point, n - 1),
            width,
            height,
            bodies[n - 1],
            test_point,
            bodies[n - 1].len() as int,
        );
    }
}

/// Law, at the grid level: a traversal over a grid that differs only by extra
/// obstacles — same tail marks, nothing visited yet on either — reaches at
/// most the count of the freer grid.
pub proof fn lemma_visit_obstacle_monotone(
    g1: Seq<TestCell>,
    g2: Seq<TestCell>,
    p: Coord,
    board: Board,
)
    requires
        g1.len() == board.width * board.height,
        g2.len() == g1.len(),
        forall|j: int| 0 <= j < g1.len() ==> !(#[trigger] g1[j]).visited && !g2[j].visited,
        forall|j: int| 0 <= j < g1.len() ==> (#[trigger] g2[j]).tail_length == g1[j].tail_length,
        forall|j: int| 0 <= j < g1.len() ==> ((#[trigger] g1[j]).obstacle ==> g2[j].obstacle),
    ensures
        spec_visit(g2, p, board, count_unvisited(g2) + 1).0 <= spec_visit(
            g1,
            p,
            board,
            count_unvisited(g1) + 1,
        ).0,
{
    let f1 = count_unvisited(g1) + 1;
    let f2 = count_unvisited(g2) + 1;
    let r1 = spec_visit(g1, p, board, f1);
    let r2 = spec_visit(g2, p, board, f2);
    if spec_is_outside(p, board) {
    } else {
        lemma_inside_index(p, board);
        let i = grid_index(board.width, p);
        if g2[i].tail_length > 0 || g2[i].obstacle {
        } else {
            lemma_visit_count(g1, p, board, f1);
            lemma_visit_count(g2, p, board, f2);
            lemma_visit_grid(g1, p, board, f1);
            lemma_visit_grid(g2, p, board, f2);
            lemma_visit_closed(g1, p, board, f1);
            assert forall|q: Coord|
                (#[trigger] cell_in_grid(board.width, board.height, q) && r1.1[grid_index(
                    board.width,
                    q,
                )].visited) implies step_settled(
                r1.1,
                board,
                spec_coord_in_direction(q, Direction::Up),
            ) && step_settled(r1.1, board, spec_coord_in_direction(q, Direction::Down))
                && step_settled(r1.1, board, spec_coord_in_direction(q, Direction::Left))
                && step_settled(r1.1, board, spec_coord_in_direction(q, Direction::Right)) by {
                lemma_cell_index(board.width, board.height, q);
            }
            lemma_visit_transfer(g2, p, board, f2, r1.1);
            lemma_visit_total_le(g1, r1.1, g2, r2.1, board, g1.len() as int);
        }
    }
}

/// Law: a board that differs from another only by one more snake body segment,
/// standing on a cell that was clear of obstacles and tail marks, reaches at
/// most what the board without it reaches: an added obstacle never increases
/// the count.
pub proof fn lemma_extra_obstacle_monotone(b1: Board, b2: Board, extra: Battlesnake, start: Coord)
    requires
        b2.width == b1.width,
        b2.height == b1.height,
        b2.snakes@ == b1.snakes@.push(extra),
        extra.body@.len() == 1,
        cell_in_grid(b1.width, b1.height, extra.body@[0]),
        extra.body@[0] != start,
        built_grid(b1, start)[grid_index(b1.width, extra.body@[0])].tail_length == 0,
        !built_grid(b1, start)[grid_index(b1.width, extra.body@[0])].obstacle,
    ensures
        spec_reachable_cells(b2, Option::Some(start)) <= spec_reachable_cells(
            b1,
            Option::Some(start),
        ),
{
    let init = initial_grid(b1);
    let g1 = built_grid(b1, start);
    let g2 = built_grid(b2, start);
    let c = extra.body@[0];
    let ic = grid_index(b1.width, c);
    let n = b1.snakes@.len() as int;
    lemma_cell_index(b1.width, b1.height, c);
    lemma_mark_snakes_len(init, b1.width, b1.height, snake_bodies(b1), start, n);
    lemma_mark_snakes_visited(init, b1.width, b1.height, snake_bodies(b1), start, n);
    assert(initial_grid(b2) =~= init);
    assert(forall|j: int| 0 <= j < n ==> snake_bodies(b2)[j] == snake_bodies(b1)[j]);
    lemma_mark_snakes_prefix(init, b1.width, b1.height, snake_bodies(b1), snake_bodies(b2), start, n);
    assert(snake_bodies(b2)[n] == extra.body@);
    assert(b2.snakes@.len() as int == n + 1);
    assert(g2 == mark_body(g1, b1.width, b1.height, extra.body@, start, 1));
    assert(mark_body(g1, b1.width, b1.height, extra.body@, start, 0) == g1);
    assert(g2 == mark_segment(g1, b1.width, b1.height, c, false, 1nat, start));
    assert(g2 == g1.update(
        ic,
        TestCell { visited: g1[ic].visited, obstacle: true, tail_length: g1[ic].tail_length },
    ));
    lemma_visit_obstacle_monotone(g1, g2, start, b1);
    lemma_visit_board_agnostic(g2, start, b2, b1, count_unvisited(g2) + 1);
}

pub proof fn lemma_count_le_len(g: Seq<TestCell>)
    ensures
        count_unvisited(g) <= g.len(),
    decreases g.len(),
{
    if g.len() > 0 {
        lemma_count_le_len(g.drop_last());
    }
}

/// A traversal's count is bounded by the cells it newly visited, each worth
/// itself plus at most four tail shortcuts, plus one shortcut for the start.
pub proof fn lemma_visit_bound(g: Seq<TestCell>, p: Coord, board: Board, fuel: nat, t: nat)
    requires
        g.len() == board.width * board.height,
        forall|i: int| 0 <= i < g.len() ==> (#[trigger] g[i]).tail_length <= t,
    ensures
        ({
            let r = spec_visit(g, p, board, fuel);
            r.0 <= (count_unvisited(g) - count_unvisited(r.1)) * (1 + 4 * t) + t
        }),
    decreases fuel,
{
    let r = spec_visit(g, p, board, fuel);
    if fuel == 0 || spec_is_outside(p, board) {
    } else {
        lemma_inside_index(p, board);
        let i = grid_index(board.width, p);
        if g[i].tail_length > 0 || g[i].visited || g[i].obstacle {
        } else {
            let g0 = g.update(
                i,
                TestCell { visited: true, obstacle: g[i].obstacle, tail_length: g[i].tail_length },
            );
            lemma_count_update(g, i, g0[i]);
            let f1 = (fuel - 1) as nat;
            let p1 = spec_coord_in_direction(p, Direction::Up);
            let p2 = spec_coord_in_direction(p, Direction::Down);
            let p3 = spec_coord_in_direction(p, Direction::Left);
            let p4 = spec_coord_in_direction(p, Direction::Right);
            let g1 = spec_visit(g0, p1, board, f1).1;
            let g2 = spec_visit(g1, p2, board, f1).1;
            let g3 = spec_visit(g2, p3, board, f1).1;
            let g4 = spec_visit(g3, p4, board, f1).1;
            lemma_visit_grid(g0, p1, board, f1);
            lemma_visit_grid(g1, p2, board, f1);
            lemma_visit_grid(g2, p3, board, f1);
            lemma_visit_grid(g3, p4, board, f1);
            lemma_visit_bound(g0, p1, board, f1, t);
            lemma_visit_bound(g1, p2, board, f1, t);
            lemma_visit_bound(g2, p3, board, f1, t);
            lemma_visit_bound(g3, p4, board, f1, t);
            let d1 = count_unvisited(g0) - count_unvisited(g1);
            let d2 = count_unvisited(g1) - count_unvisited(g2);
            let d3 = count_unvisited(g2) - count_unvisited(g3);
            let d4 = count_unvisited(g3) - count_unvisited(g4);
            assert((1 + d1 + d2 + d3 + d4) * (1 + 4 * t) == (1 + 4 * t) + d1 * (1 + 4 * t) + d2 * (
            1 + 4 * t) + d3 * (1 + 4 * t) + d4 * (1 + 4 * t)) by (nonlinear_arith);
        }
    }
}

/// Building the grid writes no tail mark above the longest body handed to it.
pub proof fn lemma_mark_body_tail_bound(
    g: Seq<TestCell>,
    width: i32,
    height: u32,
    body: Seq<Coord>,
    test_point: Coord,
    n: int,
    t: nat,
)
    requires
        g.len() == width * height,
        forall|i: int| 0 <= i < g.len() ==> (#[trigger] g[i]).tail_length <= t,
        body.len() <= t,
        body.len() <= usize::MAX,
    ensures
        forall|i: int|
            0 <= i < g.len() ==> (#[trigger] mark_body(g, width, height, body, test_point, n)[i]).tail_length
                <= t,
    decreases n,
{
    if n > 0 {
        lemma_mark_body_tail_bound(g, width, height, body, test_point, n - 1, t);
        lemma_mark_body_len(g, width, height, body, test_point, n - 1);
        if cell_in_grid(width, height, body[n - 1]) {
            lemma_cell_index(width, height, body[n - 1]);
        }
    }
}

pub proof fn lemma_mark_snakes_tail_bound(
    g: Seq<TestCell>,
    width: i32,
    height: u32,
    bodies: Seq<Seq<Coord>>,
    test_point: Coord,
    n: int,
    t: nat,
)
    requires
        g.len() == width * height,
        forall|i: int| 0 <= i < g.len() ==> (#[trigger] g[i]).tail_length <= t,
        forall|j: int| 0 <= j < n ==> (#[trigger] bodies[j]).len() <= t,
        forall|j: int| 0 <= j < n ==> (#[trigger] bodies[j]).len() <= usize::MAX,
    ensures
        forall|i: int|
            0 <= i < g.len() ==> (#[trigger] mark_snakes(g, width, height, bodies, test_point, n)[i]).tail_length
                <= t,
    decreases n,
{
    if n > 0 {
        lemma_mark_snakes_tail_bound(g, width, height, bodies, test_point, n - 1, t);
        lemma_mark_snakes_len(g, width, height, bodies, test_point, n - 1);
        lemma_mark_body_tail_bound(
            mark_snakes(g, width, height, bodies, test_point, n - 1),
            width,
            height,
            bodies[n - 1],
            test_point,
            bodies[n - 1].len() as int,
            t,
        );
    }
}

/// The reachable count never exceeds the board's area, each cell weighed with
/// at most four tail shortcuts, plus one shortcut for the start: with `t` at
/// least every snake's body length, the count is at most
/// `width * height * (1 + 4 * t) + t`. A caller can discharge the machine
/// bound on `reachable_cells` from this and its board's size.
pub proof fn lemma_reachable_cells_bound(board: Board, test_point: Option<Coord>, t: nat)
    requires
        board.width >= 0,
        t <= usize::MAX,
        forall|j: int|
            0 <= j < board.snakes@.len() ==> (#[trigger] board.snakes@[j]).body@.len() <= t,
    ensures
        spec_reachable_cells(board, test_point) <= (board.width * board.height) * (1 + 4 * t) + t,
{
    assert(board.width * board.height >= 0) by (nonlinear_arith)
        requires
            board.width >= 0,
            board.height >= 0,
    ;
    match test_point {
        Option::None => {
            assert((board.width * board.height) * (1 + 4 * t) >= 0) by (nonlinear_arith)
                requires
                    board.width * board.height >= 0,
                    t >= 0,
            ;
        },
        Option::Some(tp) => {
            let init = initial_grid(board);
            let g = built_grid(board, tp);
            let n = board.snakes@.len() as int;
            assert(forall|j: int|
                0 <= j < n ==> #[trigger] snake_bodies(board)[j] == board.snakes@[j].body@);
            lemma_mark_snakes_len(init, board.width, board.height, snake_bodies(board), tp, n);
            lemma_mark_snakes_tail_bound(
                init,
                board.width,
                board.height,
                snake_bodies(board),
                tp,
                n,
                t,
            );
            let fuel = count_unvisited(g) + 1;
            let r = spec_visit(g, tp, board, fuel);
            lemma_visit_bound(g, tp, board, fuel, t);
            lemma_visit_grid(g, tp, board, fuel);
            lemma_count_le_len(g);
            assert((count_unvisited(g) - count_unvisited(r.1)) * (1 + 4 * t) <= (board.width
                * board.height) * (1 + 4 * t)) by (nonlinear_arith)
                requires
                    0 <= count_unvisited(g) - count_unvisited(r.1) <= board.width * board.height,
                    t >= 0,
            ;
        },
    }
}

/// Law: the evaluation start point is forced clear. A query whose start lies
/// on the board counts at least the start cell itself — or, when the start
/// carries a tail mark, at least that mark — even when a snake body segment
/// sits on the start.
pub proof fn lemma_start_forced_clear(board: Board, start: Coord)
    requires
        !spec_is_outside(start, board),
    ensures
        spec_reachable_cells(board, Option::Some(start)) >= 1,
{
    lemma_inside_index(start, board);
    let init = initial_grid(board);
    let g = built_grid(board, start);
    let i = grid_index(board.width, start);
    lemma_mark_snakes_start_clear(
        init,
        board.width,
        board.height,
        snake_bodies(board),
        start,
        board.snakes@.len() as int,
    );
    lemma_mark_snakes_len(
        init,
        board.width,
        board.height,
        snake_bodies(board),
        start,
        board.snakes@.len() as int,
    );
    let fuel = count_unvisited(g) + 1;
    if g[i].tail_length > 0 {
        assert(spec_visit(g, start, board, fuel).0 == g[i].tail_length as nat);
    } else {
        assert(spec_visit(g, start, board, fuel).0 >= 1);
    }
}

/// The depth-first traversal itself: the executable mirror of `spec_visit`,
/// run at the canonical fuel.
fn recursive(point: &Coord, board: &Board, grid: &mut Vec<TestCell>) -> (r: usize)
    requires
        old(grid)@.len() == board.width * board.height,
        spec_visit(old(grid)@, *point, *board, count_unvisited(old(grid)@) + 1).0 <= usize::MAX,
    ensures
        r == spec_visit(old(grid)@, *point, *board, count_unvisited(old(grid)@) + 1).0,
        final(grid)@ == spec_visit(old(grid)@, *point, *board, count_unvisited(old(grid)@) + 1).1,
    decreases count_unvisited(grid@),
{
    let ghost g_in = grid@;
    let ghost fuel = count_unvisited(g_in) + 1;
    let ghost sv = spec_visit(g_in, *point, *board, fuel);
    if is_outside(point, board) {
        return 0;
    }
    let glen = grid.len();
    proof {
        lemma_inside_index(*point, *board);
        assert(point.y * board.width <= grid_index(board.width, *point));
        assert(grid_index(board.width, *point) < glen);
    }
    let idx: usize = (point.y as usize) * (board.width as usize) + (point.x as usize);
    assert(idx == grid_index(board.width, *point));
    let cell = grid[idx];
    if cell.tail_length > 0 {
        return cell.tail_length;
    }
    if cell.visited || cell.obstacle {
        return 0;
    }
    grid.set(idx, TestCell { visited: true, obstacle: cell.obstacle, tail_length: cell.tail_length });
    let ghost g0 = grid@;
    proof {
        lemma_count_update(g_in, idx as int, g0[idx as int]);
    }
    let ghost p1 = spec_coord_in_direction(*point, Direction::Up);
    let ghost p2 = spec_coord_in_direction(*point, Direction::Down);
    let ghost p3 = spec_coord_in_direction(*point, Direction::Left);
    let ghost p4 = spec_coord_in_direction(*point, Direction::Right);
    let ghost up = spec_visit(g0, p1, *board, (fuel - 1) as nat);
    let ghost down = spec_visit(up.1, p2, *board, (fuel - 1) as nat);
    let ghost left = spec_visit(down.1, p3, *board, (fuel - 1) as nat);
    let ghost right = spec_visit(left.1, p4, *board, (fuel - 1) as nat);
    assert(sv == (1 + up.0 + down.0 + left.0 + right.0, right.1));

    let mut num_visited: usize = 1;

    let step = coord_in_direction(point, &Direction::Up);
    let r_step = recursive(&step, board, grid);
    assert(r_step == up.0 && grid@ == up.1);
    num_visited = num_visited + r_step;

    proof {
        lemma_visit_grid(g0, p1, *board, (fuel - 1) as nat);
        lemma_visit_fuel(grid@, p2, *board, (fuel - 1) as nat);
    }
    let step = coord_in_direction(point, &Direction::Down);
    let r_step = recursive(&step, board, grid);
    assert(r_step == down.0 && grid@ == down.1);
    num_visited = num_visited + r_step;

    proof {
        lemma_visit_grid(up.1, p2, *board, (fuel - 1) as nat);
        lemma_visit_fuel(grid@, p3, *board, (fuel - 1) as nat);
    }
    let step = coord_in_direction(point, &Direction::Left);
    let r_step = recursive(&step, board, grid);
    assert(r_step == left.0 && grid@ == left.1);
    num_visited = num_visited + r_step;

    proof {
        lemma_visit_grid(down.1, p3, *board, (fuel - 1) as nat);
        lemma_visit_fuel(grid@, p4, *board, (fuel - 1) as nat);
    }
    let step = coord_in_direction(point, &Direction::Right);
    let r_step = recursive(&step, board, grid);
    assert(r_step == right.0 && grid@ == right.1);
    num_visited = num_visited + r_step;

    num_visited
}

/// How many cells a traversal from `test_point_or_null` can reach on this
/// snapshot, treating snake bodies as obstacles, with the start point forced
/// clear and the tail shortcut applied. Without a start point the count is 0;
/// with a start point outside the board it is 0 as well.
pub fn reachable_cells(board: &Board, test_point_or_null: Option<&Coord>) -> (r: usize)
    requires
        board.width > 0,
        board.height > 0,
        board.width * board.height <= usize::MAX,
        spec_reachable_cells(*board, deref_point(test_point_or_null)) <= usize::MAX,
    ensures
        r == spec_reachable_cells(*board, deref_point(test_point_or_null)),
        test_point_or_null matches Some(t) && spec_is_outside(*t, *board) ==> r == 0,
{
    if test_point_or_null.is_none() {
        return 0;
    }
    let test_point: &Coord = test_point_or_null.unwrap();

    let total: usize = (board.width as usize) * (board.height as usize);
    let mut grid: Vec<TestCell> = Vec::new();
    while grid.len() < total
        invariant
            grid@.len() <= total,
            forall|k: int| 0 <= k < grid@.len() ==> grid@[k] == empty_cell(),
        decreases total - grid@.len(),
    {
        grid.push(TestCell { visited: false, obstacle: false, tail_length: 0 });
    }
    proof {
        assert(grid@ =~= initial_grid(*board));
    }

    let ghost g_init = grid@;
    let ghost bodies = snake_bodies(*board);
    let mut s: usize = 0;
    while s < board.snakes.len()
        invariant
            s <= board.snakes@.len(),
            grid@ == mark_snakes(g_init, board.width, board.height, bodies, *test_point, s as int),
            grid@.len() == total,
        decreases board.snakes@.len() - s,
    {
        let ghost g_snake = grid@;
        let snake = &board.snakes[s];
        let mut i: usize = 0;
        while i < snake.body.len()
            invariant
                i <= snake.body@.len(),
                grid@ == mark_body(
                    g_snake,
                    board.width,
                    board.height,
                    snake.body@,
                    *test_point,
                    i as int,
                ),
                grid@.len() == total,
            decreases snake.body@.len() - i,
        {
            let ghost g_iter = grid@;
            let part = &snake.body[i];
            let is_long_tail = snake.body.len() > 2 && i + 1 >= snake.body.len();
            let in_grid = part.x >= 0 && part.y >= 0 && (part.x as usize) < (board.width as usize)
                && (part.y as usize) < (board.height as usize);
            if in_grid {
                proof {
                    assert(cell_in_grid(board.width, board.height, *part));
                    lemma_cell_index(board.width, board.height, *part);
                    assert(part.y * board.width <= grid_index(board.width, *part));
                }
                let idx: usize = (part.y as usize) * (board.width as usize) + (part.x as usize);
                assert(idx == grid_index(board.width, *part));
                if is_long_tail {
                    let c = grid[idx];
                    grid.set(
                        idx,
                        TestCell { visited: c.visited, obstacle: true, tail_length: snake.body.len() },
                    );
                }
                let c = grid[idx];
                if same_coord(part, test_point) {
                    grid.set(
                        idx,
                        TestCell { visited: c.visited, obstacle: false, tail_length: c.tail_length },
                    );
                } else {
                    grid.set(
                        idx,
                        TestCell { visited: c.visited, obstacle: true, tail_length: c.tail_length },
                    );
                }
            }
            proof {
                assert(grid@ =~= mark_segment(
                    g_iter,
                    board.width,
                    board.height,
                    *part,
                    is_long_tail,
                    snake.body@.len(),
                    *test_point,
                ));
            }
            i = i + 1;
        }
        proof {
            assert(bodies[s as int] == snake.body@);
        }
        s = s + 1;
    }

    proof {
        assert(grid@ == built_grid(*board, *test_point));
        assert(deref_point(test_point_or_null) == Option::Some(*test_point));
    }
    let num_visited = recursive(test_point, board, &mut grid);
    num_visited
}

} // verus!
