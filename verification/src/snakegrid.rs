//! The simulation engine: the grid, the agents, and the tick.
//!
//! The engine owns a row-major grid of [`Tile`]s (`index = y * width +
//! x`) and the set of agents. One tick samples every agent's direction
//! first, then advances the agents in ascending id order: an agent whose
//! candidate head cell falls off the board dies at once; two agents
//! whose candidate cells coincide both die (no one wins a head-to-head);
//! an agent stepping onto any body or remnant dies; food makes an agent
//! grow and a replacement food tile is placed on a random empty cell.
//! Randomness (food placement, spawn sampling) is drawn up front and
//! handed to the deterministic core [`SnakeGrid::tick_with_inputs`], so
//! the step function is a mathematical function of its inputs.

use vstd::prelude::*;

use std::collections::HashMap;

use rand::Rng;

use crate::object::Tile;
use crate::snake::{
    int_seq, pops, spec_grow, spec_kill, spec_move_head, Direction, PlayerInfo, Snake, SnakeController,
    SnakeData, SnakeModel, SnakeRefData,
};

verus! {

/// The mathematical state of a match.
pub struct GridModel {
    pub width: int,
    pub height: int,
    pub grid: Seq<Tile>,
    pub snakes: Seq<SnakeModel>,
}

/// The grid with every cell of `cells` repainted to `t`.
pub open spec fn paint(g: Seq<Tile>, cells: Seq<int>, t: Tile) -> Seq<Tile> {
    Seq::new(g.len(), |i: int| if cells.contains(i) {
        t
    } else {
        g[i]
    })
}

/// Well-formedness of one agent within a match: its maximum length is
/// positive and no smaller than its body, its cells are in range and
/// pairwise distinct, and while it lives the grid marks each of its
/// cells as occupied by it.
pub open spec fn snake_wf(m: GridModel, i: int) -> bool
    recommends
        0 <= i < m.snakes.len(),
{
    let s = m.snakes[i];
    &&& 1 <= s.max_size
    &&& s.tiles.len() <= s.max_size
    &&& forall|j: int| 0 <= j < s.tiles.len() ==> 0 <= #[trigger] s.tiles[j] < m.grid.len()
    &&& forall|j: int, k: int|
        0 <= j < k < s.tiles.len() ==> #[trigger] s.tiles[j] != #[trigger] s.tiles[k]
    &&& s.alive ==> forall|j: int|
        0 <= j < s.tiles.len() ==> m.grid[#[trigger] s.tiles[j]] == (Tile::Snake {
            id: s.id as i32,
        })
}

/// Well-formedness of a match: a nonempty board whose size fits the
/// index type, agents numbered by their position, each one well-formed.
pub open spec fn grid_wf(m: GridModel) -> bool {
    &&& 1 <= m.width
    &&& 1 <= m.height
    &&& m.width * m.height == m.grid.len()
    &&& m.grid.len() <= i32::MAX
    &&& m.snakes.len() <= i32::MAX
    &&& forall|i: int| 0 <= i < m.snakes.len() ==> (#[trigger] m.snakes[i]).id == i
    &&& forall|i: int| 0 <= i < m.snakes.len() ==> #[trigger] snake_wf(m, i)
}

/// Every living agent has spawned (owns at least one cell).
pub open spec fn snakes_started(m: GridModel) -> bool {
    forall|i: int|
        0 <= i < m.snakes.len() && (#[trigger] m.snakes[i]).alive ==> m.snakes[i].tiles.len() >= 1
}

/// A match: board size, the grid, the agents, and the color pool handed
/// to newly added agents.
pub struct SnakeGrid<C: SnakeController> {
    pub width: i32,
    height: i32,
    snakes: Vec<Snake<C>>,
    grid: Vec<Tile>,
    snake_colors: Vec<(u8, u8, u8)>,
}

impl<C: SnakeController> View for SnakeGrid<C> {
    type V = GridModel;

    closed spec fn view(&self) -> GridModel {
        GridModel {
            width: self.width as int,
            height: self.height as int,
            grid: self.grid@,
            snakes: self.snakes@.map_values(|s: Snake<C>| s@),
        }
    }
}

/// Relies on rand::thread_rng and rand::Rng::gen_range: a uniformly
/// random index below `n`; gen_range panics only on an empty range,
/// which `n > 0` rules out.
#[verifier::external_body]
fn random_below(n: usize) -> (r: usize)
    requires
        n > 0,
    ensures
        r < n,
{
    rand::thread_rng().gen_range(0..n)
}

/// A random bright, non-red display color: low red, high green and
/// blue, as the extra agent colors are drawn.
fn random_color_bright_non_red() -> (c: (u8, u8, u8))
    ensures
        c.0 < 128,
        c.1 >= 128,
        c.2 >= 128,
{
    let red = random_below(128) as u8;
    let green = (128 + random_below(128)) as u8;
    let blue = (128 + random_below(128)) as u8;
    (red, green, blue)
}

/// Repaint the listed cells of the grid to `t`.
#[verifier::loop_isolation(false)]
fn paint_cells(grid: &mut Vec<Tile>, cells: &Vec<i32>, t: Tile)
    requires
        forall|j: int| 0 <= j < cells@.len() ==> 0 <= #[trigger] cells@[j] < old(grid)@.len(),
    ensures
        final(grid)@ == paint(old(grid)@, int_seq(cells@), t),
{
    let ghost cs = int_seq(cells@);
    let n = cells.len();
    for k in 0..n
        invariant
            n == cells@.len(),
            grid@.len() == old(grid)@.len(),
            forall|j: int| 0 <= j < cells@.len() ==> 0 <= #[trigger] cells@[j] < old(grid)@.len(),
            grid@ == paint(old(grid)@, cs.take(k as int), t),
    {
        let c = cells[k];
        grid[c as usize] = t;
        proof {
            let prev = cs.take(k as int);
            let next = cs.take(k + 1);
            assert(cs[k as int] == cells@[k as int] as int);
            assert forall|i: int| 0 <= i < grid@.len() implies grid@[i] == paint(
                old(grid)@,
                next,
                t,
            )[i] by {
                assert(next[k as int] == cs[k as int]);
                if i == cs[k as int] {
                    assert(next.contains(i));
                } else {
                    if prev.contains(i) {
                        let w = choose|w: int| 0 <= w < prev.len() && prev[w] == i;
                        assert(next[w] == i);
                        assert(next.contains(i));
                    } else {
                        assert(!next.contains(i)) by {
                            if next.contains(i) {
                                let w = choose|w: int| 0 <= w < next.len() && next[w] == i;
                                assert(w < k ==> prev[w] == i);
                            }
                        };
                    }
                }
            };
            assert(grid@ =~= paint(old(grid)@, next, t));
        }
    }
    proof {
        assert(cs.take(n as int) =~= cs);
    }
}

/// The grid after the first pick that lands on an empty cell receives a
/// food tile; if no pick hits an empty cell, the grid is unchanged.
pub open spec fn place_spec(g: Seq<Tile>, picks: Seq<usize>) -> Seq<Tile>
    decreases picks.len(),
{
    if picks.len() == 0 {
        g
    } else if 0 <= picks[0] < g.len() && g[picks[0] as int] is EMPTY {
        g.update(picks[0] as int, Tile::FOOD)
    } else {
        place_spec(g, picks.drop_first())
    }
}

/// Law helper: placing food either leaves the grid alone or turns
/// exactly one empty cell into food.
pub proof fn lemma_place_spec_effect(g: Seq<Tile>, picks: Seq<usize>)
    ensures
        place_spec(g, picks) == g || exists|c: int|
            0 <= c < g.len() && g[c] is EMPTY && place_spec(g, picks) == g.update(c, Tile::FOOD),
    decreases picks.len(),
{
    if picks.len() == 0 {
    } else if 0 <= picks[0] < g.len() && g[picks[0] as int] is EMPTY {
        assert(place_spec(g, picks) == g.update(picks[0] as int, Tile::FOOD));
    } else {
        lemma_place_spec_effect(g, picks.drop_first());
    }
}

/// Place one food tile using the picks in `picks[lo..hi]`, in order,
/// on the first one that is an empty cell.
#[verifier::loop_isolation(false)]
fn place_food_window(grid: &mut Vec<Tile>, picks: &Vec<usize>, lo: usize, hi: usize)
    requires
        lo <= hi <= picks@.len(),
        forall|j: int| 0 <= j < picks@.len() ==> #[trigger] picks@[j] < old(grid)@.len(),
    ensures
        final(grid)@ == place_spec(old(grid)@, picks@.subrange(lo as int, hi as int)),
{
    let ghost window = picks@.subrange(lo as int, hi as int);
    let mut k: usize = lo;
    while k < hi
        invariant
            lo <= k <= hi <= picks@.len(),
            grid@ == old(grid)@,
            forall|j: int| 0 <= j < picks@.len() ==> #[trigger] picks@[j] < old(grid)@.len(),
            place_spec(old(grid)@, window) == place_spec(
                old(grid)@,
                picks@.subrange(k as int, hi as int),
            ),
        decreases hi - k,
    {
        let ghost cur = picks@.subrange(k as int, hi as int);
        let p = picks[k];
        if matches!(grid[p], Tile::EMPTY) {
            proof {
                assert(cur[0] == p);
                assert(old(grid)@[p as int] is EMPTY);
                assert(place_spec(old(grid)@, cur) == old(grid)@.update(p as int, Tile::FOOD));
            }
            grid[p] = Tile::FOOD;
            proof {
                assert(grid@ =~= old(grid)@.update(p as int, Tile::FOOD));
            }
            return;
        }
        k = k + 1;
        proof {
            assert(cur[0] == p);
            assert(cur.drop_first() =~= picks@.subrange(k as int, hi as int));
        }
    }
    proof {
        assert(picks@.subrange(hi as int, hi as int) =~= Seq::<usize>::empty());
    }
}

impl<C: SnakeController> SnakeGrid<C> {
    /// A fresh match: an all-empty `width` by `height` board, no agents,
    /// and the built-in color pool.
    pub fn new(width: i32, height: i32) -> (r: SnakeGrid<C>)
        requires
            1 <= width,
            1 <= height,
            width * height <= i32::MAX,
        ensures
            r@.width == width,
            r@.height == height,
            r@.grid == Seq::new((width * height) as nat, |i: int| Tile::EMPTY),
            r@.snakes.len() == 0,
            grid_wf(r@),
    {
        proof {
            assert(width * height >= 1) by (nonlinear_arith)
                requires
                    width >= 1,
                    height >= 1,
            ;
        }
        let empty_grid = vec![Tile::EMPTY; (width * height) as usize];
        let mut snake_colors: Vec<(u8, u8, u8)> = Vec::new();
        snake_colors.push((171, 2, 168));
        snake_colors.push((0, 134, 119));
        snake_colors.push((143, 0, 255));
        snake_colors.push((0, 121, 241));
        snake_colors.push((253, 249, 0));
        snake_colors.push((0, 228, 48));
        snake_colors.push((255, 161, 0));
        let r = SnakeGrid {
            width,
            height,
            snakes: Vec::new(),
            grid: empty_grid,
            snake_colors,
        };
        proof {
            assert(r@.grid =~= Seq::new((width * height) as nat, |i: int| Tile::EMPTY));
            assert(r@.snakes =~= Seq::<SnakeModel>::empty());
        }
        r
    }

    /// A copy of the raw grid contents.
    pub fn clone_raw_grid(&self) -> (r: Vec<Tile>)
        ensures
            r@ == self@.grid,
    {
        self.grid.clone()
    }

    /// Add an agent driven by `controller`: it gets the next id, the
    /// next color of the pool (grown with random bright colors when it
    /// runs short), an empty body and maximum length 1.
    pub fn add_snake(&mut self, controller: C)
        requires
            old(self)@.snakes.len() < i32::MAX,
        ensures
            final(self)@.width == old(self)@.width,
            final(self)@.height == old(self)@.height,
            final(self)@.grid == old(self)@.grid,
            final(self)@.snakes.len() == old(self)@.snakes.len() + 1,
            forall|i: int|
                0 <= i < old(self)@.snakes.len() ==> final(self)@.snakes[i] == old(
                    self,
                )@.snakes[i],
            ({
                let s = final(self)@.snakes.last();
                &&& s.id == old(self)@.snakes.len()
                &&& s.tiles.len() == 0
                &&& s.max_size == 1
                &&& s.alive
            }),
            grid_wf(old(self)@) ==> grid_wf(final(self)@),
    {
        while self.snakes.len() + 1 > self.snake_colors.len()
            invariant
                self.snakes@.len() < i32::MAX,
                self.snakes@.len() == old(self).snakes@.len(),
                self@ == old(self)@,
            decreases self.snakes@.len() + 1 - self.snake_colors@.len(),
        {
            let c = random_color_bright_non_red();
            self.snake_colors.push(c);
        }
        let snake_id = self.snakes.len();
        let color = self.snake_colors[snake_id];
        let new_snake = Snake::new(snake_id as i32, controller, color);
        let ghost sv = new_snake@;
        self.snakes.push(new_snake);
        proof {
            assert(self@.snakes =~= old(self)@.snakes.push(sv));
            if grid_wf(old(self)@) {
                let m = self@;
                let n = old(self)@.snakes.len() as int;
                assert forall|i: int| 0 <= i < m.snakes.len() implies #[trigger] snake_wf(
                    m,
                    i,
                ) by {
                    if i < n {
                        assert(snake_wf(old(self)@, i));
                    }
                };
            }
        }
    }

    /// Column and row of a cell index on a board of width `width`.
    pub fn index_to_xy(index: i32, width: i32) -> (r: (i32, i32))
        requires
            0 <= index,
            1 <= width,
        ensures
            r.0 == index as int % width as int,
            r.1 == index as int / width as int,
    {
        (index % width, index / width)
    }

    /// Cell index of a column and row on a board of width `width`.
    pub fn xy_to_index(x: i32, y: i32, width: i32) -> (r: i32)
        requires
            0 <= x,
            0 <= y,
            1 <= width,
            x + width * y <= i32::MAX,
        ensures
            r == x + width * y,
    {
        proof {
            assert(0 <= width * y) by (nonlinear_arith)
                requires
                    0 <= y,
                    1 <= width,
            ;
        }
        x + width * y
    }

    /// Kill an agent and turn its frozen body into dead remnants on the
    /// grid. Killing an already-dead agent paints the same frozen cells
    /// again and changes nothing further.
    pub fn kill_snake(grid: &mut Vec<Tile>, snake: &mut Snake<C>)
        requires
            forall|j: int|
                0 <= j < old(snake)@.tiles.len() ==> 0 <= #[trigger] old(snake)@.tiles[j] < old(
                    grid,
                )@.len(),
        ensures
            final(snake)@ == spec_kill(old(snake)@),
            final(grid)@ == paint(old(grid)@, old(snake)@.tiles, Tile::DeadSnake),
    {
        let tiles = snake.kill();
        proof {
            assert(forall|j: int|
                0 <= j < tiles@.len() ==> #[trigger] tiles@[j] as int == int_seq(tiles@)[j]);
        }
        paint_cells(grid, tiles, Tile::DeadSnake);
    }

    /// Place one food tile on the board, trying up to 20 uniformly
    /// random cells and taking the first empty one; an overcrowded
    /// board may end up with no new food, which is not an error, but on
    /// an entirely empty board a placement is certain.
    pub fn place_food(grid: &mut Vec<Tile>)
        requires
            old(grid)@.len() > 0,
        ensures
            final(grid)@ == old(grid)@ || exists|c: int|
                0 <= c < old(grid)@.len() && old(grid)@[c] is EMPTY && final(grid)@ == old(
                    grid,
                )@.update(c, Tile::FOOD),
            (forall|i: int| 0 <= i < old(grid)@.len() ==> old(grid)@[i] is EMPTY)
                ==> final(grid)@ != old(grid)@,
    {
        let mut picks: Vec<usize> = Vec::new();
        for k in 0..20usize
            invariant
                old(grid)@.len() > 0,
                grid@ == old(grid)@,
                picks@.len() == k,
                forall|j: int| 0 <= j < picks@.len() ==> #[trigger] picks@[j] < old(grid)@.len(),
        {
            picks.push(random_below(grid.len()));
        }
        let n = picks.len();
        place_food_window(grid, &picks, 0, n);
        proof {
            assert(picks@.subrange(0, n as int) =~= picks@);
            lemma_place_spec_effect(old(grid)@, picks@);
            if forall|i: int| 0 <= i < old(grid)@.len() ==> old(grid)@[i] is EMPTY {
                // every pick lands on an empty cell, so the very first
                // one receives the food
                let p0 = picks@[0];
                assert(0 <= p0 < old(grid)@.len());
                assert(old(grid)@[p0 as int] is EMPTY);
                assert(place_spec(old(grid)@, picks@) == old(grid)@.update(
                    p0 as int,
                    Tile::FOOD,
                ));
                assert(grid@[p0 as int] is FOOD);
            }
        }
    }

    /// Place one food tile on this match's board.
    pub fn do_place_food(&mut self)
        requires
            old(self)@.grid.len() > 0,
        ensures
            final(self)@.width == old(self)@.width,
            final(self)@.height == old(self)@.height,
            final(self)@.snakes == old(self)@.snakes,
            final(self)@.grid == old(self)@.grid || exists|c: int|
                0 <= c < old(self)@.grid.len() && old(self)@.grid[c] is EMPTY && final(self)@.grid
                    == old(self)@.grid.update(c, Tile::FOOD),
            (forall|i: int| 0 <= i < old(self)@.grid.len() ==> old(self)@.grid[i] is EMPTY)
                ==> final(self)@.grid != old(self)@.grid,
            grid_wf(old(self)@) ==> grid_wf(final(self)@),
    {
        Self::place_food(&mut self.grid);
        proof {
            if grid_wf(old(self)@) {
                let m = self@;
                let m0 = old(self)@;
                if m.grid != m0.grid {
                    let c = choose|c: int|
                        0 <= c < m0.grid.len() && m0.grid[c] is EMPTY && m.grid == m0.grid.update(
                            c,
                            Tile::FOOD,
                        );
                    assert forall|i: int| 0 <= i < m.snakes.len() implies #[trigger] snake_wf(
                        m,
                        i,
                    ) by {
                        assert(snake_wf(m0, i));
                        let s = m.snakes[i];
                        if s.alive {
                            assert forall|j: int| 0 <= j < s.tiles.len() implies m.grid[
                                #[trigger] s.tiles[j]
                            ] == (Tile::Snake { id: s.id as i32 }) by {
                                assert(m0.grid[s.tiles[j]] == (Tile::Snake { id: s.id as i32 }));
                                assert(s.tiles[j] != c);
                            };
                        }
                    };
                }
            }
        }
    }
}


/// Horizontal offset of a direction.
pub open spec fn dir_dx(d: Direction) -> int {
    match d {
        Direction::LEFT => -1,
        Direction::RIGHT => 1,
        _ => 0,
    }
}

/// Vertical offset of a direction.
pub open spec fn dir_dy(d: Direction) -> int {
    match d {
        Direction::UP => -1,
        Direction::DOWN => 1,
        _ => 0,
    }
}

/// The cell a living agent's head would move to this tick, computed
/// from the pre-tick head and the sampled direction; `None` when the
/// candidate falls off the board.
pub open spec fn cand_cell(m: GridModel, dirs: Seq<Direction>, i: int) -> Option<int>
    recommends
        0 <= i < m.snakes.len(),
        m.snakes[i].tiles.len() >= 1,
        i < dirs.len(),
{
    let head = m.snakes[i].tiles[0];
    let x = head % m.width + dir_dx(dirs[i]);
    let y = head / m.width + dir_dy(dirs[i]);
    if x < 0 || x >= m.width || y < 0 || y >= m.height {
        None
    } else {
        Some(y * m.width + x)
    }
}

/// Whether some other living agent aims at the very same cell this
/// tick (a head-to-head collision: both die, no one wins).
pub open spec fn head_on(m: GridModel, dirs: Seq<Direction>, i: int) -> bool {
    exists|j: int|
        0 <= j < m.snakes.len() && j != i && m.snakes[j].alive && #[trigger] cand_cell(m, dirs, j)
            == cand_cell(m, dirs, i)
}

/// The match after agent `i` dies: the agent is marked dead and its
/// frozen body becomes dead remnants on the grid.
pub open spec fn kill_model(m: GridModel, i: int) -> GridModel {
    GridModel {
        grid: paint(m.grid, m.snakes[i].tiles, Tile::DeadSnake),
        snakes: m.snakes.update(i, spec_kill(m.snakes[i])),
        ..m
    }
}

/// The match after agent `i` moves its head to `c` (growing first when
/// it ate): the candidate cell is marked occupied, the body advances,
/// and the shed tail cells are cleared.
pub open spec fn move_model(m: GridModel, i: int, c: int, ate: bool) -> GridModel {
    let s0 = m.snakes[i];
    let s1 = if ate {
        spec_grow(s0)
    } else {
        s0
    };
    let mh = spec_move_head(s1, c);
    let g1 = m.grid.update(c, Tile::Snake { id: s0.id as i32 });
    GridModel { grid: paint(g1, mh.1, Tile::EMPTY), snakes: m.snakes.update(i, mh.0), ..m }
}

/// End of the pick window that one food placement consumes.
pub open spec fn window_end(picks: Seq<usize>, cur: int) -> int {
    vstd::math::min(cur + 20, picks.len() as int)
}

/// One agent's turn within a tick. `st` is the match so far and the
/// pick cursor; candidates and liveness are judged against the pre-tick
/// state `pre`, so every agent moves on the directions sampled at one
/// consistent instant.
pub open spec fn step_model(
    pre: GridModel,
    dirs: Seq<Direction>,
    picks: Seq<usize>,
    st: (GridModel, int),
    i: int,
) -> (GridModel, int) {
    let m = st.0;
    if !pre.snakes[i].alive {
        st
    } else {
        match cand_cell(pre, dirs, i) {
            Option::None => (kill_model(m, i), st.1),
            Option::Some(c) => {
                if head_on(pre, dirs, i) {
                    (kill_model(m, i), st.1)
                } else {
                    match m.grid[c] {
                        Tile::EMPTY => (move_model(m, i, c, false), st.1),
                        Tile::FOOD => {
                            let hi = window_end(picks, st.1);
                            let g2 = place_spec(m.grid, picks.subrange(st.1, hi));
                            (move_model(GridModel { grid: g2, ..m }, i, c, true), hi)
                        },
                        _ => (kill_model(m, i), st.1),
                    }
                }
            },
        }
    }
}

/// The match and pick cursor after the first `i` agents took their
/// turns, in ascending id order.
pub open spec fn tick_upto(
    pre: GridModel,
    dirs: Seq<Direction>,
    picks: Seq<usize>,
    i: int,
) -> (GridModel, int)
    decreases i,
{
    if i <= 0 {
        (pre, 0)
    } else {
        step_model(pre, dirs, picks, tick_upto(pre, dirs, picks, i - 1), i - 1)
    }
}

/// The match after one whole tick driven by the sampled directions and
/// the pre-drawn food placement picks.
pub open spec fn tick_model(pre: GridModel, dirs: Seq<Direction>, picks: Seq<usize>) -> GridModel {
    tick_upto(pre, dirs, picks, pre.snakes.len() as int).0
}

/// Inputs a tick may be given: one direction per agent and in-range
/// placement picks.
pub open spec fn tick_inputs_ok(pre: GridModel, dirs: Seq<Direction>, picks: Seq<usize>) -> bool {
    &&& dirs.len() == pre.snakes.len()
    &&& forall|p: int| 0 <= p < picks.len() ==> #[trigger] picks[p] < pre.grid.len()
}

/// What holds of the partial state after `i` agents took their turns:
/// board shape kept, unprocessed agents untouched, and the whole state
/// still well-formed with every living agent spawned.
pub open spec fn mid_ok(pre: GridModel, m: GridModel, i: int) -> bool {
    &&& m.width == pre.width
    &&& m.height == pre.height
    &&& m.grid.len() == pre.grid.len()
    &&& m.snakes.len() == pre.snakes.len()
    &&& forall|k: int| i <= k < m.snakes.len() ==> m.snakes[k] == pre.snakes[k]
    &&& grid_wf(m)
    &&& snakes_started(m)
}

proof fn lemma_pops_parts(t: Seq<int>, cap: int)
    requires
        cap >= 1,
    ensures
        pops(t, cap).0 == t.take(vstd::math::min(cap, t.len() as int)),
        pops(t, cap).1 == t.skip(vstd::math::min(cap, t.len() as int)).reverse(),
    decreases t.len(),
{
    let k = vstd::math::min(cap, t.len() as int);
    if t.len() == 0 || t.len() <= cap {
        assert(t.take(t.len() as int) =~= t);
        assert(t.skip(t.len() as int) =~= Seq::<int>::empty());
        assert(Seq::<int>::empty().reverse() =~= Seq::<int>::empty());
    } else {
        lemma_pops_parts(t.drop_last(), cap);
        assert(t.drop_last().take(cap) =~= t.take(cap));
        assert(t.skip(cap) =~= t.drop_last().skip(cap).push(t.last()));
        assert(t.drop_last().skip(cap).push(t.last()).reverse() =~= seq![t.last()]
            + t.drop_last().skip(cap).reverse());
    }
}

/// The cells a moving agent ends with and sheds, explicitly: the head
/// plus a prefix of the old body, and the rest of the old body.
proof fn lemma_move_parts(s: SnakeModel, c: int)
    requires
        s.alive,
        s.max_size >= 1,
    ensures
        ({
            let t = seq![c] + s.tiles;
            let k = vstd::math::min(s.max_size, t.len() as int);
            let mh = spec_move_head(s, c);
            &&& mh.0.tiles == t.take(k)
            &&& mh.1 == t.skip(k).reverse()
            &&& 1 <= k <= t.len()
            &&& mh.0.tiles.len() == k
            &&& mh.0.tiles[0] == c
            &&& forall|j: int| 1 <= j < k ==> mh.0.tiles[j] == s.tiles[j - 1]
            &&& forall|j: int| 0 <= j < mh.1.len() ==> s.tiles.contains(#[trigger] mh.1[j])
        }),
{
    let t = seq![c] + s.tiles;
    let k = vstd::math::min(s.max_size, t.len() as int);
    lemma_pops_parts(t, s.max_size);
    let mh = spec_move_head(s, c);
    assert forall|j: int| 0 <= j < mh.1.len() implies s.tiles.contains(#[trigger] mh.1[j]) by {
        let sk = t.skip(k);
        assert(mh.1[j] == sk[sk.len() - 1 - j]);
        assert(sk[sk.len() - 1 - j] == t[k + (sk.len() - 1 - j)]);
        assert(t[k + (sk.len() - 1 - j)] == s.tiles[k + (sk.len() - 1 - j) - 1]);
    };
}

proof fn lemma_wf_kill(m: GridModel, i: int)
    requires
        grid_wf(m),
        0 <= i < m.snakes.len(),
        m.snakes[i].alive,
    ensures
        grid_wf(kill_model(m, i)),
        kill_model(m, i).snakes.len() == m.snakes.len(),
        kill_model(m, i).grid.len() == m.grid.len(),
        forall|k: int| 0 <= k < m.snakes.len() && k != i ==> kill_model(m, i).snakes[k]
            == m.snakes[k],
        kill_model(m, i).snakes[i] == spec_kill(m.snakes[i]),
{
    let m2 = kill_model(m, i);
    let dead = m.snakes[i].tiles;
    assert(snake_wf(m, i));
    assert forall|k: int| 0 <= k < m2.snakes.len() implies #[trigger] snake_wf(m2, k) by {
        assert(snake_wf(m, k));
        let s = m2.snakes[k];
        if k != i && s.alive {
            assert forall|j: int| 0 <= j < s.tiles.len() implies m2.grid[#[trigger] s.tiles[j]]
                == (Tile::Snake { id: s.id as i32 }) by {
                assert(m.grid[s.tiles[j]] == (Tile::Snake { id: s.id as i32 }));
                if dead.contains(s.tiles[j]) {
                    let w = choose|w: int| 0 <= w < dead.len() && dead[w] == s.tiles[j];
                    assert(m.grid[dead[w]] == (Tile::Snake { id: m.snakes[i].id as i32 }));
                }
                assert(!dead.contains(s.tiles[j]));
            };
        }
    };
}

proof fn lemma_wf_place(m: GridModel, picks: Seq<usize>)
    requires
        grid_wf(m),
    ensures
        grid_wf(GridModel { grid: place_spec(m.grid, picks), ..m }),
        place_spec(m.grid, picks).len() == m.grid.len(),
        forall|x: int| 0 <= x < m.grid.len() && !(m.grid[x] is EMPTY) ==> place_spec(
            m.grid,
            picks,
        )[x] == m.grid[x],
{
    lemma_place_spec_effect(m.grid, picks);
    let g2 = place_spec(m.grid, picks);
    let m2 = GridModel { grid: g2, ..m };
    if g2 != m.grid {
        let c = choose|c: int|
            0 <= c < m.grid.len() && m.grid[c] is EMPTY && g2 == m.grid.update(c, Tile::FOOD);
        assert forall|k: int| 0 <= k < m2.snakes.len() implies #[trigger] snake_wf(m2, k) by {
            assert(snake_wf(m, k));
            let s = m2.snakes[k];
            if s.alive {
                assert forall|j: int| 0 <= j < s.tiles.len() implies m2.grid[#[trigger] s.tiles[j]]
                    == (Tile::Snake { id: s.id as i32 }) by {
                    assert(m.grid[s.tiles[j]] == (Tile::Snake { id: s.id as i32 }));
                    assert(s.tiles[j] != c);
                };
            }
        };
    }
}

proof fn lemma_wf_move(m: GridModel, i: int, c: int, ate: bool)
    requires
        grid_wf(m),
        0 <= i < m.snakes.len(),
        m.snakes[i].alive,
        0 <= c < m.grid.len(),
        m.grid[c] is EMPTY || m.grid[c] is FOOD,
    ensures
        grid_wf(move_model(m, i, c, ate)),
        move_model(m, i, c, ate).snakes.len() == m.snakes.len(),
        move_model(m, i, c, ate).grid.len() == m.grid.len(),
        forall|k: int| 0 <= k < m.snakes.len() && k != i ==> move_model(m, i, c, ate).snakes[k]
            == m.snakes[k],
        move_model(m, i, c, ate).snakes[i].alive,
        move_model(m, i, c, ate).snakes[i].tiles.len() >= 1,
{
    let s0 = m.snakes[i];
    let s1 = if ate {
        spec_grow(s0)
    } else {
        s0
    };
    assert(snake_wf(m, i));
    assert(!s0.tiles.contains(c)) by {
        if s0.tiles.contains(c) {
            let w = choose|w: int| 0 <= w < s0.tiles.len() && s0.tiles[w] == c;
            assert(m.grid[s0.tiles[w]] == (Tile::Snake { id: s0.id as i32 }));
        }
    };
    lemma_move_parts(s1, c);
    let t = seq![c] + s1.tiles;
    let k = vstd::math::min(s1.max_size, t.len() as int);
    let mh = spec_move_head(s1, c);
    let m2 = move_model(m, i, c, ate);
    let g1 = m.grid.update(c, Tile::Snake { id: s0.id as i32 });
    // The kept prefix and the shed cells split the distinct list `t`.
    assert(forall|j: int| 0 <= j < s0.tiles.len() ==> t[j + 1] == #[trigger] s0.tiles[j]);
    assert forall|x: int| mh.0.tiles.contains(x) implies !mh.1.contains(x) by {
        if mh.0.tiles.contains(x) && mh.1.contains(x) {
            let a = choose|a: int| 0 <= a < mh.0.tiles.len() && mh.0.tiles[a] == x;
            let b = choose|b: int| 0 <= b < mh.1.len() && mh.1[b] == x;
            let sk = t.skip(k);
            assert(mh.1[b] == sk[sk.len() - 1 - b]);
            assert(t[a] == t[k + (sk.len() - 1 - b)]);
            // two distinct positions of `t` holding the same cell
            let p = a;
            let q = k + (sk.len() - 1 - b);
            assert(p < k <= q);
            if p == 0 {
                assert(t[q] == s0.tiles[q - 1]);
                assert(s0.tiles.contains(c));
            } else {
                assert(t[p] == s0.tiles[p - 1] && t[q] == s0.tiles[q - 1]);
            }
        }
    };
    assert forall|kk: int| 0 <= kk < m2.snakes.len() implies #[trigger] snake_wf(m2, kk) by {
        assert(snake_wf(m, kk));
        if kk == i {
            // the mover: length, range, distinctness, marks
            let s2 = m2.snakes[i];
            assert(s2.tiles == t.take(k));
            assert(forall|j: int| 0 <= j < s2.tiles.len() ==> #[trigger] s2.tiles[j] == t[j]);
            assert forall|a: int, b: int| 0 <= a < b < s2.tiles.len() implies #[trigger] s2
                .tiles[a] != #[trigger] s2.tiles[b] by {
                if s2.tiles[a] == s2.tiles[b] {
                    if a == 0 {
                        assert(t[b] == s0.tiles[b - 1]);
                        assert(s0.tiles.contains(c));
                    } else {
                        assert(t[a] == s0.tiles[a - 1] && t[b] == s0.tiles[b - 1]);
                    }
                }
            };
            assert forall|j: int| 0 <= j < s2.tiles.len() implies m2.grid[#[trigger] s2.tiles[j]]
                == (Tile::Snake { id: s2.id as i32 }) by {
                assert(!mh.1.contains(s2.tiles[j]));
                if j == 0 {
                    assert(g1[c] == (Tile::Snake { id: s0.id as i32 }));
                } else {
                    assert(s2.tiles[j] == s0.tiles[j - 1]);
                    assert(m.grid[s2.tiles[j]] == (Tile::Snake { id: s0.id as i32 }));
                    assert(s2.tiles[j] != c);
                }
            };
        } else {
            let s = m2.snakes[kk];
            if s.alive {
                assert forall|j: int| 0 <= j < s.tiles.len() implies m2.grid[#[trigger] s.tiles[j]]
                    == (Tile::Snake { id: s.id as i32 }) by {
                    assert(m.grid[s.tiles[j]] == (Tile::Snake { id: s.id as i32 }));
                    assert(s.tiles[j] != c);
                    if mh.1.contains(s.tiles[j]) {
                        let w = choose|w: int| 0 <= w < mh.1.len() && mh.1[w] == s.tiles[j];
                        assert(s0.tiles.contains(mh.1[w]));
                        let v = choose|v: int| 0 <= v < s0.tiles.len() && s0.tiles[v] == mh.1[w];
                        assert(m.grid[s0.tiles[v]] == (Tile::Snake { id: s0.id as i32 }));
                    }
                    assert(!mh.1.contains(s.tiles[j]));
                };
            }
        }
    };
}


/// A candidate cell as phase one of the tick records it.
pub open spec fn opt_of(o: Option<i32>) -> Option<int> {
    match o {
        Option::Some(v) => Some(v as int),
        Option::None => None,
    }
}

proof fn lemma_cand_in_range(pre: GridModel, dirs: Seq<Direction>, i: int)
    requires
        grid_wf(pre),
        0 <= i < pre.snakes.len(),
        cand_cell(pre, dirs, i) is Some,
    ensures
        0 <= cand_cell(pre, dirs, i)->Some_0 < pre.grid.len(),
{
    let head = pre.snakes[i].tiles[0];
    let x = head % pre.width + dir_dx(dirs[i]);
    let y = head / pre.width + dir_dy(dirs[i]);
    assert(0 <= y * pre.width + x < pre.width * pre.height) by (nonlinear_arith)
        requires
            0 <= x < pre.width,
            0 <= y < pre.height,
            1 <= pre.width,
    ;
}

proof fn lemma_step_ok(
    pre: GridModel,
    dirs: Seq<Direction>,
    picks: Seq<usize>,
    st: (GridModel, int),
    i: int,
)
    requires
        grid_wf(pre),
        snakes_started(pre),
        tick_inputs_ok(pre, dirs, picks),
        0 <= i < pre.snakes.len(),
        mid_ok(pre, st.0, i),
        0 <= st.1 <= picks.len(),
    ensures
        mid_ok(pre, step_model(pre, dirs, picks, st, i).0, i + 1),
        st.1 <= step_model(pre, dirs, picks, st, i).1 <= picks.len(),
        forall|k: int|
            0 <= k < pre.snakes.len() && k != i ==> step_model(pre, dirs, picks, st, i).0.snakes[k]
                == st.0.snakes[k],
{
    let m = st.0;
    if pre.snakes[i].alive {
        assert(m.snakes[i] == pre.snakes[i]);
        match cand_cell(pre, dirs, i) {
            Option::None => {
                lemma_wf_kill(m, i);
            },
            Option::Some(c) => {
                lemma_cand_in_range(pre, dirs, i);
                if head_on(pre, dirs, i) {
                    lemma_wf_kill(m, i);
                } else {
                    match m.grid[c] {
                        Tile::EMPTY => {
                            lemma_wf_move(m, i, c, false);
                        },
                        Tile::FOOD => {
                            let hi = window_end(picks, st.1);
                            let w = picks.subrange(st.1, hi);
                            lemma_wf_place(m, w);
                            let m2 = GridModel { grid: place_spec(m.grid, w), ..m };
                            assert(m2.grid[c] is FOOD);
                            lemma_wf_move(m2, i, c, true);
                        },
                        _ => {
                            lemma_wf_kill(m, i);
                        },
                    }
                }
            },
        }
    }
}

proof fn lemma_tick_upto_ok(pre: GridModel, dirs: Seq<Direction>, picks: Seq<usize>, i: int)
    requires
        grid_wf(pre),
        snakes_started(pre),
        tick_inputs_ok(pre, dirs, picks),
        0 <= i <= pre.snakes.len(),
    ensures
        mid_ok(pre, tick_upto(pre, dirs, picks, i).0, i),
        0 <= tick_upto(pre, dirs, picks, i).1 <= picks.len(),
    decreases i,
{
    if i > 0 {
        lemma_tick_upto_ok(pre, dirs, picks, i - 1);
        lemma_step_ok(pre, dirs, picks, tick_upto(pre, dirs, picks, i - 1), i - 1);
    }
}

/// Once an agent has taken its turn, no later turn of the same tick
/// touches it again.
proof fn lemma_tick_upto_frame(
    pre: GridModel,
    dirs: Seq<Direction>,
    picks: Seq<usize>,
    k: int,
    i1: int,
    i2: int,
)
    requires
        grid_wf(pre),
        snakes_started(pre),
        tick_inputs_ok(pre, dirs, picks),
        0 <= k < i1 <= i2 <= pre.snakes.len(),
    ensures
        tick_upto(pre, dirs, picks, i2).0.snakes[k] == tick_upto(pre, dirs, picks, i1).0.snakes[k],
    decreases i2 - i1,
{
    if i1 < i2 {
        lemma_tick_upto_frame(pre, dirs, picks, k, i1, i2 - 1);
        lemma_tick_upto_ok(pre, dirs, picks, i2 - 1);
        lemma_step_ok(pre, dirs, picks, tick_upto(pre, dirs, picks, i2 - 1), i2 - 1);
    }
}

/// A dead-remnant cell stays a dead remnant for the rest of the tick.
proof fn lemma_step_keeps_dead(
    pre: GridModel,
    dirs: Seq<Direction>,
    picks: Seq<usize>,
    st: (GridModel, int),
    i: int,
    x: int,
)
    requires
        grid_wf(pre),
        snakes_started(pre),
        tick_inputs_ok(pre, dirs, picks),
        0 <= i < pre.snakes.len(),
        mid_ok(pre, st.0, i),
        0 <= st.1 <= picks.len(),
        0 <= x < st.0.grid.len(),
        st.0.grid[x] is DeadSnake,
    ensures
        step_model(pre, dirs, picks, st, i).0.grid[x] is DeadSnake,
{
    let m = st.0;
    if pre.snakes[i].alive {
        assert(m.snakes[i] == pre.snakes[i]);
        match cand_cell(pre, dirs, i) {
            Option::None => {},
            Option::Some(c) => {
                lemma_cand_in_range(pre, dirs, i);
                if !head_on(pre, dirs, i) {
                    let s0 = m.snakes[i];
                    assert(snake_wf(m, i));
                    match m.grid[c] {
                        Tile::EMPTY => {
                            lemma_move_parts(s0, c);
                            let mh = spec_move_head(s0, c);
                            assert(!mh.1.contains(x)) by {
                                if mh.1.contains(x) {
                                    let w = choose|w: int|
                                        0 <= w < mh.1.len() && mh.1[w] == x;
                                    assert(s0.tiles.contains(x));
                                    let v = choose|v: int|
                                        0 <= v < s0.tiles.len() && s0.tiles[v] == x;
                                    assert(m.grid[s0.tiles[v]] == (Tile::Snake {
                                        id: s0.id as i32,
                                    }));
                                }
                            };
                        },
                        Tile::FOOD => {
                            let hi = window_end(picks, st.1);
                            let w = picks.subrange(st.1, hi);
                            lemma_wf_place(m, w);
                            let g2 = place_spec(m.grid, w);
                            assert(g2[x] is DeadSnake);
                            let m2 = GridModel { grid: g2, ..m };
                            let s1 = spec_grow(s0);
                            lemma_move_parts(s1, c);
                            let mh = spec_move_head(s1, c);
                            assert(!mh.1.contains(x)) by {
                                if mh.1.contains(x) {
                                    let w2 = choose|w2: int|
                                        0 <= w2 < mh.1.len() && mh.1[w2] == x;
                                    assert(s1.tiles.contains(x));
                                    let v = choose|v: int|
                                        0 <= v < s0.tiles.len() && s0.tiles[v] == x;
                                    assert(m.grid[s0.tiles[v]] == (Tile::Snake {
                                        id: s0.id as i32,
                                    }));
                                }
                            };
                        },
                        _ => {},
                    }
                }
            },
        }
    }
}

proof fn lemma_tick_keeps_dead(
    pre: GridModel,
    dirs: Seq<Direction>,
    picks: Seq<usize>,
    i1: int,
    i2: int,
    x: int,
)
    requires
        grid_wf(pre),
        snakes_started(pre),
        tick_inputs_ok(pre, dirs, picks),
        0 <= i1 <= i2 <= pre.snakes.len(),
        0 <= x < pre.grid.len(),
        tick_upto(pre, dirs, picks, i1).0.grid[x] is DeadSnake,
    ensures
        tick_upto(pre, dirs, picks, i2).0.grid[x] is DeadSnake,
    decreases i2 - i1,
{
    if i1 < i2 {
        lemma_tick_upto_ok(pre, dirs, picks, i1);
        lemma_step_keeps_dead(pre, dirs, picks, tick_upto(pre, dirs, picks, i1), i1, x);
        lemma_tick_keeps_dead(pre, dirs, picks, i1 + 1, i2, x);
    }
}


impl<C: SnakeController> SnakeGrid<C> {
    /// Mark the candidate cell, advance agent `i`'s head to it, and
    /// clear the shed tail cells. Expects the cell to be free.
    #[verifier::loop_isolation(false)]
    fn apply_move(&mut self, i: usize, c: i32, ate: bool)
        requires
            grid_wf(old(self)@),
            0 <= i < old(self)@.snakes.len(),
            old(self)@.snakes[i as int].alive,
            0 <= c < old(self)@.grid.len(),
            old(self)@.grid[c as int] is EMPTY || old(self)@.grid[c as int] is FOOD,
        ensures
            final(self)@ == move_model(old(self)@, i as int, c as int, ate),
    {
        let ghost m = self@;
        let ghost s0 = m.snakes[i as int];
        proof {
            assert(snake_wf(m, i as int));
            assert(self.snakes@[i as int]@ == s0);
        }
        if ate {
            self.snakes[i].grow();
        }
        let ghost s1 = if ate {
            spec_grow(s0)
        } else {
            s0
        };
        proof {
            assert(self.snakes@[i as int]@ == s1);
            assert(self@.grid == m.grid);
        }
        let sid = self.snakes[i].get_id();
        self.grid[c as usize] = Tile::Snake { id: sid };
        proof {
            assert(sid as int == s0.id);
            assert(self@.grid =~= m.grid.update(c as int, Tile::Snake { id: s0.id as i32 }));
        }
        let ghost g1 = self@.grid;
        let removed = self.snakes[i].move_head(c);
        let ghost mh = spec_move_head(s1, c as int);
        proof {
            lemma_move_parts(s1, c as int);
            assert(int_seq(removed@) == mh.1);
            assert forall|j: int| 0 <= j < removed@.len() implies 0 <= #[trigger] removed@[j]
                < self.grid@.len() by {
                assert(int_seq(removed@)[j] == removed@[j] as int);
                assert(mh.1[j] == removed@[j] as int);
                assert(s0.tiles.contains(mh.1[j]));
                let v = choose|v: int| 0 <= v < s0.tiles.len() && s0.tiles[v] == mh.1[j];
            };
        }
        paint_cells(&mut self.grid, &removed, Tile::EMPTY);
        proof {
            let m2 = move_model(m, i as int, c as int, ate);
            assert(self@.grid == paint(g1, mh.1, Tile::EMPTY));
            assert(self@.snakes =~= m.snakes.update(i as int, mh.0));
            assert(self@ == m2);
        }
    }

    /// Kill agent `i` and turn its body into dead remnants.
    fn apply_kill(&mut self, i: usize)
        requires
            grid_wf(old(self)@),
            0 <= i < old(self)@.snakes.len(),
        ensures
            final(self)@ == kill_model(old(self)@, i as int),
    {
        let ghost m = self@;
        proof {
            assert(snake_wf(m, i as int));
            assert(self.snakes@[i as int]@ == m.snakes[i as int]);
        }
        Self::kill_snake(&mut self.grid, &mut self.snakes[i]);
        proof {
            assert(self@.grid == paint(m.grid, m.snakes[i as int].tiles, Tile::DeadSnake));
            assert(self@.snakes =~= m.snakes.update(i as int, spec_kill(m.snakes[i as int])));
        }
    }

    /// One deterministic tick: every agent moves on the direction
    /// sampled for it, with `picks` supplying the food-placement
    /// candidates (20 per food eaten). The new state is exactly
    /// [`tick_model`] of the old one.
    #[verifier::loop_isolation(false)]
    #[verifier::rlimit(100)]
    pub fn tick_with_inputs(&mut self, dirs: &Vec<Direction>, picks: &Vec<usize>)
        requires
            grid_wf(old(self)@),
            snakes_started(old(self)@),
            tick_inputs_ok(old(self)@, dirs@, picks@),
        ensures
            final(self)@ == tick_model(old(self)@, dirs@, picks@),
            grid_wf(final(self)@),
            snakes_started(final(self)@),
    {
        let ghost pre = self@;
        let n = self.snakes.len();
        proof {
            assert(n == pre.snakes.len());
        }

        // Phase one: record who is alive and where each head would go,
        // all against the one consistent pre-tick instant.
        let mut alives: Vec<bool> = Vec::new();
        let mut cands: Vec<Option<i32>> = Vec::new();
        for i in 0..n
            invariant
                alives@.len() == i,
                cands@.len() == i,
                forall|k: int| 0 <= k < i ==> #[trigger] alives@[k] == pre.snakes[k].alive,
                forall|k: int|
                    0 <= k < i && alives@[k] ==> opt_of(#[trigger] cands@[k]) == cand_cell(
                        pre,
                        dirs@,
                        k,
                    ),
        {
            proof {
                assert(self.snakes@[i as int]@ == pre.snakes[i as int]);
            }
            if self.snakes[i].is_dead() {
                alives.push(false);
                cands.push(None);
            } else {
                let head = self.snakes[i].get_head();
                proof {
                    assert(snake_wf(pre, i as int));
                    assert(head as int == pre.snakes[i as int].tiles[0]);
                    assert(0 <= head as int && (head as int) < pre.width * pre.height);
                    assert(0 <= head as int % (self.width as int) < pre.width) by (
                    nonlinear_arith)
                        requires
                            1 <= self.width as int == pre.width,
                            0 <= head as int,
                    ;
                    assert(0 <= head as int / (self.width as int)
                        && head as int / (self.width as int) < pre.height) by (
                    nonlinear_arith)
                        requires
                            1 <= self.width as int == pre.width,
                            0 <= head as int,
                            (head as int) < pre.width * pre.height,
                    ;
                }
                let x0 = head % self.width;
                let y0 = head / self.width;
                let d = dirs[i];
                let mut x = x0;
                let mut y = y0;
                match d {
                    Direction::UP => {
                        y = y - 1;
                    },
                    Direction::DOWN => {
                        y = y + 1;
                    },
                    Direction::LEFT => {
                        x = x - 1;
                    },
                    Direction::RIGHT => {
                        x = x + 1;
                    },
                    Direction::NONE => {},
                }
                proof {
                    assert(x as int == head as int % (self.width as int) + dir_dx(
                        dirs@[i as int],
                    ));
                    assert(y as int == head as int / (self.width as int) + dir_dy(
                        dirs@[i as int],
                    ));
                }
                alives.push(true);
                if x < 0 || x >= self.width || y < 0 || y >= self.height {
                    cands.push(None);
                } else {
                    proof {
                        assert((y as int) * pre.width + (x as int) < (pre.width * pre.height)) by (
                        nonlinear_arith)
                            requires
                                0 <= x as int,
                                (x as int) < pre.width,
                                0 <= y as int,
                                (y as int) < pre.height,
                                1 <= pre.width,
                        ;
                    }
                    let c = y * self.width + x;
                    cands.push(Some(c));
                }
            }
        }

        // Phase two: each agent takes its turn, in ascending id order.
        let mut cursor: usize = 0;
        for i in 0..n
            invariant
                alives@.len() == n,
                cands@.len() == n,
                forall|k: int| 0 <= k < n ==> #[trigger] alives@[k] == pre.snakes[k].alive,
                forall|k: int|
                    0 <= k < n && alives@[k] ==> opt_of(#[trigger] cands@[k]) == cand_cell(
                        pre,
                        dirs@,
                        k,
                    ),
                cursor <= picks@.len(),
                self@ == tick_upto(pre, dirs@, picks@, i as int).0,
                cursor as int == tick_upto(pre, dirs@, picks@, i as int).1,
        {
            proof {
                lemma_tick_upto_ok(pre, dirs@, picks@, i as int);
            }
            let ghost st = (self@, cursor as int);
            let ghost stepped = step_model(pre, dirs@, picks@, st, i as int);
            if alives[i] {
                match cands[i] {
                    None => {
                        proof {
                            assert(cand_cell(pre, dirs@, i as int) is None);
                        }
                        self.apply_kill(i);
                    },
                    Some(c) => {
                        proof {
                            assert(cand_cell(pre, dirs@, i as int) == Some(c as int));
                            lemma_cand_in_range(pre, dirs@, i as int);
                        }
                        let mut hit = false;
                        for j in 0..n
                            invariant
                                hit == exists|j2: int|
                                    0 <= j2 < j && j2 != i as int && alives@[j2]
                                        && #[trigger] cands@[j2] == Some(c),
                        {
                            if j != i && alives[j] {
                                match cands[j] {
                                    Some(cj) => {
                                        if cj == c {
                                            hit = true;
                                            proof {
                                                assert(cands@[j as int] == Some(c));
                                            }
                                        }
                                    },
                                    None => {},
                                }
                            }
                        }
                        proof {
                            if hit {
                                let j2 = choose|j2: int|
                                    0 <= j2 < n && j2 != i as int && alives@[j2]
                                        && #[trigger] cands@[j2] == Some(c);
                                assert(cand_cell(pre, dirs@, j2) == Some(c as int));
                                assert(head_on(pre, dirs@, i as int));
                            } else {
                                if head_on(pre, dirs@, i as int) {
                                    let j2 = choose|j2: int|
                                        0 <= j2 < pre.snakes.len() && j2 != i as int
                                            && pre.snakes[j2].alive && #[trigger] cand_cell(
                                            pre,
                                            dirs@,
                                            j2,
                                        ) == cand_cell(pre, dirs@, i as int);
                                    assert(opt_of(cands@[j2]) == Some(c as int));
                                    assert(cands@[j2] == Some(c));
                                }
                                assert(!head_on(pre, dirs@, i as int));
                            }
                        }
                        if hit {
                            self.apply_kill(i);
                        } else {
                            let tile = self.grid[c as usize];
                            match tile {
                                Tile::EMPTY => {
                                    self.apply_move(i, c, false);
                                },
                                Tile::FOOD => {
                                    let hi = if picks.len() - cursor < 20 {
                                        picks.len()
                                    } else {
                                        cursor + 20
                                    };
                                    proof {
                                        assert(hi as int == window_end(picks@, cursor as int));
                                    }
                                    place_food_window(&mut self.grid, picks, cursor, hi);
                                    let ghost placed = GridModel {
                                        grid: place_spec(
                                            st.0.grid,
                                            picks@.subrange(cursor as int, hi as int),
                                        ),
                                        ..st.0
                                    };
                                    proof {
                                        assert(self@ == placed);
                                        lemma_wf_place(st.0, picks@.subrange(cursor as int, hi as int));
                                        assert(placed.grid[c as int] is FOOD);
                                    }
                                    cursor = hi;
                                    self.apply_move(i, c, true);
                                    proof {
                                        assert(move_model(placed, i as int, c as int, true)
                                            == stepped.0);
                                    }
                                },
                                _ => {
                                    self.apply_kill(i);
                                },
                            }
                        }
                    },
                }
            } else {
                proof {
                    assert(!pre.snakes[i as int].alive);
                    assert(stepped == st);
                }
            }
            proof {
                assert(self@ == stepped.0);
                assert(cursor as int == stepped.1);
                assert(tick_upto(pre, dirs@, picks@, i + 1) == stepped);
                lemma_step_ok(pre, dirs@, picks@, st, i as int);
            }
        }
        proof {
            lemma_tick_upto_ok(pre, dirs@, picks@, n as int);
        }
    }
}


impl<C: SnakeController> SnakeGrid<C> {
    /// Advance the match one tick: sample every agent's direction at one
    /// consistent instant, draw the food-placement picks, and run the
    /// deterministic core on them. Dead agents contribute no direction.
    #[verifier::loop_isolation(false)]
    pub fn tick(&mut self)
        requires
            grid_wf(old(self)@),
            snakes_started(old(self)@),
        ensures
            grid_wf(final(self)@),
            snakes_started(final(self)@),
            exists|dirs: Seq<Direction>, picks: Seq<usize>|
                tick_inputs_ok(old(self)@, dirs, picks) && (forall|k: int|
                    0 <= k < dirs.len() && !old(self)@.snakes[k].alive ==> dirs[k]
                        == Direction::NONE) && final(self)@ == tick_model(
                    old(self)@,
                    dirs,
                    picks,
                ),
    {
        let ghost pre = self@;
        let n = self.snakes.len();
        let mut dirs: Vec<Direction> = Vec::new();
        for i in 0..n
            invariant
                dirs@.len() == i,
                forall|k: int|
                    0 <= k < i && !pre.snakes[k].alive ==> #[trigger] dirs@[k]
                        == Direction::NONE,
        {
            proof {
                assert(self.snakes@[i as int]@ == pre.snakes[i as int]);
            }
            dirs.push(self.snakes[i].next_direction());
        }
        proof {
            assert(pre.grid.len() >= 1) by {
                assert(pre.width * pre.height >= 1) by (nonlinear_arith)
                    requires
                        pre.width >= 1,
                        pre.height >= 1,
                ;
            };
        }
        let glen = self.grid.len();
        let mut picks: Vec<usize> = Vec::new();
        for i in 0..n
            invariant
                forall|p: int| 0 <= p < picks@.len() ==> #[trigger] picks@[p] < glen,
        {
            for k in 0..20usize
                invariant
                    forall|p: int| 0 <= p < picks@.len() ==> #[trigger] picks@[p] < glen,
            {
                picks.push(random_below(glen));
            }
        }
        self.tick_with_inputs(&dirs, &picks);
    }
}

/// Law (death idempotence, grid side): running the kill path a second
/// time on an already-killed agent repaints the same frozen body and
/// changes neither the grid nor the roster.
pub proof fn lemma_kill_model_idempotent(m: GridModel, i: int)
    requires
        0 <= i < m.snakes.len(),
    ensures
        kill_model(m, i).snakes[i].tiles == m.snakes[i].tiles,
        kill_model(kill_model(m, i), i).grid == kill_model(m, i).grid,
        kill_model(kill_model(m, i), i).snakes == kill_model(m, i).snakes,
{
    let m1 = kill_model(m, i);
    let m2 = kill_model(m1, i);
    assert(m2.grid =~= m1.grid);
    assert(m2.snakes =~= m1.snakes);
}

/// Law (collision tie-break): when two living agents aim at the same
/// in-bounds cell in the same tick, both are dead after that tick; no
/// agent wins a head-to-head collision.
pub proof fn lemma_collision_tiebreak(
    pre: GridModel,
    dirs: Seq<Direction>,
    picks: Seq<usize>,
    i: int,
    j: int,
)
    requires
        grid_wf(pre),
        snakes_started(pre),
        tick_inputs_ok(pre, dirs, picks),
        0 <= i < pre.snakes.len(),
        0 <= j < pre.snakes.len(),
        i != j,
        pre.snakes[i].alive,
        pre.snakes[j].alive,
        cand_cell(pre, dirs, i) is Some,
        cand_cell(pre, dirs, i) == cand_cell(pre, dirs, j),
    ensures
        !tick_model(pre, dirs, picks).snakes[i].alive,
        !tick_model(pre, dirs, picks).snakes[j].alive,
{
    let n = pre.snakes.len() as int;
    assert(head_on(pre, dirs, i));
    assert(head_on(pre, dirs, j));
    lemma_tick_upto_ok(pre, dirs, picks, i);
    assert(!tick_upto(pre, dirs, picks, i + 1).0.snakes[i].alive);
    lemma_tick_upto_frame(pre, dirs, picks, i, i + 1, n);
    lemma_tick_upto_ok(pre, dirs, picks, j);
    assert(!tick_upto(pre, dirs, picks, j + 1).0.snakes[j].alive);
    lemma_tick_upto_frame(pre, dirs, picks, j, j + 1, n);
}

/// Law (out-of-bounds move): an agent whose candidate cell falls
/// outside the board is dead after the tick, its body is frozen, and
/// each of its former cells is a dead remnant on the grid.
pub proof fn lemma_out_of_bounds_death(
    pre: GridModel,
    dirs: Seq<Direction>,
    picks: Seq<usize>,
    i: int,
)
    requires
        grid_wf(pre),
        snakes_started(pre),
        tick_inputs_ok(pre, dirs, picks),
        0 <= i < pre.snakes.len(),
        pre.snakes[i].alive,
        cand_cell(pre, dirs, i) is None,
    ensures
        !tick_model(pre, dirs, picks).snakes[i].alive,
        tick_model(pre, dirs, picks).snakes[i].tiles == pre.snakes[i].tiles,
        forall|t: int|
            pre.snakes[i].tiles.contains(t) ==> tick_model(pre, dirs, picks).grid[t]
                is DeadSnake,
{
    let n = pre.snakes.len() as int;
    lemma_tick_upto_ok(pre, dirs, picks, i);
    let st = tick_upto(pre, dirs, picks, i);
    let after = tick_upto(pre, dirs, picks, i + 1);
    assert(st.0.snakes[i] == pre.snakes[i]);
    assert(after.0.snakes[i] == spec_kill(pre.snakes[i]));
    lemma_tick_upto_frame(pre, dirs, picks, i, i + 1, n);
    assert(snake_wf(pre, i));
    assert forall|t: int| pre.snakes[i].tiles.contains(t) implies tick_model(
        pre,
        dirs,
        picks,
    ).grid[t] is DeadSnake by {
        let v = choose|v: int|
            0 <= v < pre.snakes[i].tiles.len() && pre.snakes[i].tiles[v] == t;
        assert(0 <= t < pre.grid.len());
        assert(after.0.grid[t] is DeadSnake);
        lemma_tick_keeps_dead(pre, dirs, picks, i + 1, n, t);
    };
}


/// One agent's spawn turn: a living agent takes its assigned cell if
/// that cell exists and is free (empty, or holding food, which the
/// seating covers), and dies on the spot only when the cell is missing
/// or already occupied; a dead agent is left alone.
pub open spec fn spawn_step(st: GridModel, ps: Seq<int>, i: int) -> GridModel {
    if !st.snakes[i].alive {
        st
    } else if i >= ps.len() || !(0 <= ps[i] < st.grid.len()) || !(st.grid[ps[i]] is EMPTY
        || st.grid[ps[i]] is FOOD) {
        kill_model(st, i)
    } else {
        GridModel {
            grid: st.grid.update(ps[i], Tile::Snake { id: st.snakes[i].id as i32 }),
            snakes: st.snakes.update(
                i,
                SnakeModel { tiles: seq![ps[i]], ..st.snakes[i] },
            ),
            ..st
        }
    }
}

/// The match after the first `i` agents took their spawn turns.
pub open spec fn spawn_upto(pre: GridModel, ps: Seq<int>, i: int) -> GridModel
    decreases i,
{
    if i <= 0 {
        pre
    } else {
        spawn_step(spawn_upto(pre, ps, i - 1), ps, i - 1)
    }
}

/// The match after every agent took its spawn turn on positions `ps`.
pub open spec fn spawn_model(pre: GridModel, ps: Seq<int>) -> GridModel {
    spawn_upto(pre, ps, pre.snakes.len() as int)
}

/// The four fixed quadrant spawn cells (25% and 75% of each axis).
pub open spec fn quad_positions(m: GridModel) -> Seq<int> {
    seq![
        m.width / 4 + m.width * (m.height / 4),
        m.width / 4 + m.width * (3 * m.height / 4),
        3 * m.width / 4 + m.width * (m.height / 4),
        3 * m.width / 4 + m.width * (3 * m.height / 4),
    ]
}

proof fn lemma_spawn_step_wf(st: GridModel, ps: Seq<int>, i: int)
    requires
        grid_wf(st),
        0 <= i < st.snakes.len(),
        st.snakes[i].tiles.len() == 0,
    ensures
        grid_wf(spawn_step(st, ps, i)),
        spawn_step(st, ps, i).width == st.width,
        spawn_step(st, ps, i).height == st.height,
        spawn_step(st, ps, i).grid.len() == st.grid.len(),
        spawn_step(st, ps, i).snakes.len() == st.snakes.len(),
        forall|k: int| 0 <= k < st.snakes.len() && k != i ==> spawn_step(st, ps, i).snakes[k]
            == st.snakes[k],
        spawn_step(st, ps, i).snakes[i].alive ==> spawn_step(st, ps, i).snakes[i].tiles.len()
            == 1,
{
    assert(snake_wf(st, i));
    if !st.snakes[i].alive {
    } else if i >= ps.len() || !(0 <= ps[i] < st.grid.len()) || !(st.grid[ps[i]] is EMPTY
        || st.grid[ps[i]] is FOOD) {
        lemma_wf_kill(st, i);
    } else {
        let c = ps[i];
        let m2 = spawn_step(st, ps, i);
        assert forall|k: int| 0 <= k < m2.snakes.len() implies #[trigger] snake_wf(m2, k) by {
            assert(snake_wf(st, k));
            let sk = m2.snakes[k];
            if k == i {
                assert(sk.tiles =~= seq![c]);
            } else if sk.alive {
                assert forall|j: int| 0 <= j < sk.tiles.len() implies m2.grid[
                    #[trigger] sk.tiles[j]
                ] == (Tile::Snake { id: sk.id as i32 }) by {
                    assert(st.grid[sk.tiles[j]] == (Tile::Snake { id: sk.id as i32 }));
                    assert(sk.tiles[j] != c);
                };
            }
        };
    }
}

proof fn lemma_spawn_upto_wf(pre: GridModel, ps: Seq<int>, i: int)
    requires
        grid_wf(pre),
        forall|k: int| 0 <= k < pre.snakes.len() ==> (#[trigger] pre.snakes[k]).tiles.len() == 0,
        0 <= i <= pre.snakes.len(),
    ensures
        grid_wf(spawn_upto(pre, ps, i)),
        spawn_upto(pre, ps, i).width == pre.width,
        spawn_upto(pre, ps, i).height == pre.height,
        spawn_upto(pre, ps, i).grid.len() == pre.grid.len(),
        spawn_upto(pre, ps, i).snakes.len() == pre.snakes.len(),
        forall|k: int| i <= k < pre.snakes.len() ==> spawn_upto(pre, ps, i).snakes[k]
            == pre.snakes[k],
        forall|k: int|
            0 <= k < i && (#[trigger] spawn_upto(pre, ps, i).snakes[k]).alive ==> spawn_upto(
                pre,
                ps,
                i,
            ).snakes[k].tiles.len() == 1,
    decreases i,
{
    if i > 0 {
        lemma_spawn_upto_wf(pre, ps, i - 1);
        let st = spawn_upto(pre, ps, i - 1);
        assert(st.snakes[i - 1] == pre.snakes[i - 1]);
        lemma_spawn_step_wf(st, ps, i - 1);
        assert forall|k: int|
            0 <= k < i && (#[trigger] spawn_upto(pre, ps, i).snakes[k]).alive implies spawn_upto(
            pre,
            ps,
            i,
        ).snakes[k].tiles.len() == 1 by {
            if k < i - 1 {
                assert(spawn_upto(pre, ps, i).snakes[k] == st.snakes[k]);
            }
        };
    }
}

/// How many agents of a roster are alive.
pub open spec fn count_alive(ss: Seq<SnakeModel>) -> int
    decreases ss.len(),
{
    if ss.len() == 0 {
        0
    } else {
        (if ss[0].alive {
            1int
        } else {
            0int
        }) + count_alive(ss.drop_first())
    }
}

proof fn lemma_count_alive_snoc(ss: Seq<SnakeModel>, x: SnakeModel)
    ensures
        count_alive(ss.push(x)) == count_alive(ss) + (if x.alive {
            1int
        } else {
            0int
        }),
    decreases ss.len(),
{
    if ss.len() == 0 {
        assert(ss.push(x)[0] == x);
        assert(ss.push(x).len() == 1);
        assert(ss.push(x).drop_first() =~= Seq::<SnakeModel>::empty());
        assert(count_alive(ss.push(x)) == (if x.alive {
            1int
        } else {
            0int
        }) + count_alive(Seq::<SnakeModel>::empty()));
    } else {
        assert(ss.push(x)[0] == ss[0]);
        assert(ss.push(x).drop_first() =~= ss.drop_first().push(x));
        lemma_count_alive_snoc(ss.drop_first(), x);
    }
}

proof fn lemma_count_alive_prefix(ss: Seq<SnakeModel>, i: int)
    requires
        0 <= i <= ss.len(),
    ensures
        count_alive(ss.take(i)) <= count_alive(ss),
    decreases ss.len() - i,
{
    if i == ss.len() {
        assert(ss.take(i) =~= ss);
    } else {
        assert(ss.take(i + 1) =~= ss.take(i).push(ss[i]));
        lemma_count_alive_snoc(ss.take(i), ss[i]);
        lemma_count_alive_prefix(ss, i + 1);
    }
}

impl<C: SnakeController> SnakeGrid<C> {
    /// Up to 1000 distinct random cell indices (at least one: the
    /// first draw is always kept), for spawning more agents than the
    /// four quadrants can seat.
    #[verifier::loop_isolation(false)]
    pub fn get_random_spawn_positions(&self) -> (r: Vec<i32>)
        requires
            self@.grid.len() >= 1,
            self@.grid.len() <= i32::MAX,
        ensures
            1 <= r@.len() <= 1000,
            forall|k: int| 0 <= k < r@.len() ==> 0 <= #[trigger] r@[k] < self@.grid.len(),
            forall|a: int, b: int| 0 <= a < b < r@.len() ==> r@[a] != r@[b],
    {
        let glen = self.grid.len();
        let mut out: Vec<i32> = Vec::new();
        for i in 0..1000usize
            invariant
                out@.len() <= i,
                i >= 1 ==> out@.len() >= 1,
                forall|k: int| 0 <= k < out@.len() ==> 0 <= #[trigger] out@[k] < glen,
                forall|a: int, b: int| 0 <= a < b < out@.len() ==> out@[a] != out@[b],
        {
            let x = random_below(glen) as i32;
            let mut found = false;
            let m = out.len();
            for j in 0..m
                invariant
                    m == out@.len(),
                    found == exists|j2: int| 0 <= j2 < j && #[trigger] out@[j2] == x,
            {
                if out[j] == x {
                    found = true;
                    proof {
                        assert(out@[j as int] == x);
                    }
                }
            }
            if !found {
                out.push(x);
            }
        }
        out
    }

    /// Seat every agent: at most four agents take the fixed quadrant
    /// cells; a larger field is seated on random distinct cells in
    /// order. A seat holding food is taken (the seating covers the
    /// food); an agent whose cell is missing or occupied dies on the
    /// spot rather than corrupting the board.
    #[verifier::loop_isolation(false)]
    pub fn start_game(&mut self)
        requires
            grid_wf(old(self)@),
            forall|i: int|
                0 <= i < old(self)@.snakes.len() ==> (#[trigger] old(
                    self,
                )@.snakes[i]).tiles.len() == 0,
        ensures
            grid_wf(final(self)@),
            snakes_started(final(self)@),
            exists|ps: Seq<int>| final(self)@ == spawn_model(old(self)@, ps),
            old(self)@.snakes.len() <= 4 ==> final(self)@ == spawn_model(
                old(self)@,
                quad_positions(old(self)@),
            ),
            old(self)@.snakes.len() > 4 ==> exists|ps: Seq<int>|
                1 <= ps.len() <= 1000 && (forall|k: int|
                    0 <= k < ps.len() ==> 0 <= #[trigger] ps[k] < old(self)@.grid.len()) && (
                forall|a: int, b: int| 0 <= a < b < ps.len() ==> ps[a] != ps[b]) && final(self)@
                    == spawn_model(old(self)@, ps),
    {
        let ghost pre = self@;
        let n = self.snakes.len();
        let mut positions: Vec<i32> = Vec::new();
        let ghost small = n <= 4;
        if n <= 4 {
            let w = self.width;
            let h = self.height;
            proof {
                assert(3 * (w as int) / 4 < w && 3 * (h as int) / 4 < h && (w as int) / 4
                    >= 0 && (h as int) / 4 >= 0) by (nonlinear_arith)
                    requires
                        1 <= w as int,
                        1 <= h as int,
                ;
                assert((w as int) / 4 < w) by (nonlinear_arith)
                    requires
                        1 <= w as int,
                ;
                assert((h as int) / 4 < h) by (nonlinear_arith)
                    requires
                        1 <= h as int,
                ;
            }
            let w4 = w / 4;
            let w34 = (((3 as i64) * (w as i64)) / 4) as i32;
            let h4 = h / 4;
            let h34 = (((3 as i64) * (h as i64)) / 4) as i32;
            proof {
                assert(w34 as int == 3 * (w as int) / 4);
                assert(h34 as int == 3 * (h as int) / 4);
                assert(w4 + (w as int) * h4 < (w as int) * (h as int) && w4 + (w as int) * h34
                    < (w as int) * (h as int) && w34 + (w as int) * h4 < (w as int) * (h as int)
                    && w34 + (w as int) * h34 < (w as int) * (h as int)) by (nonlinear_arith)
                    requires
                        0 <= w4 as int && (w4 as int) < w as int,
                        0 <= w34 as int && (w34 as int) < w as int,
                        0 <= h4 as int && (h4 as int) < h as int,
                        0 <= h34 as int && (h34 as int) < h as int,
                        1 <= w as int,
                ;
            }
            positions.push(Self::xy_to_index(w4, h4, w));
            positions.push(Self::xy_to_index(w4, h34, w));
            positions.push(Self::xy_to_index(w34, h4, w));
            positions.push(Self::xy_to_index(w34, h34, w));
            proof {
                assert(int_seq(positions@) =~= quad_positions(pre));
            }
        } else {
            proof {
                assert(pre.grid.len() >= 1) by {
                    assert(pre.width * pre.height >= 1) by (nonlinear_arith)
                        requires
                            pre.width >= 1,
                            pre.height >= 1,
                    ;
                };
            }
            positions = self.get_random_spawn_positions();
        }
        let ghost ps = int_seq(positions@);
        for i in 0..n
            invariant
                positions@.len() == ps.len(),
                forall|k: int| 0 <= k < ps.len() ==> #[trigger] ps[k] == positions@[k] as int,
                self@ == spawn_upto(pre, ps, i as int),
        {
            proof {
                lemma_spawn_upto_wf(pre, ps, i as int);
                assert(self@.snakes[i as int] == pre.snakes[i as int]);
                assert(self.snakes@[i as int]@ == self@.snakes[i as int]);
            }
            let ghost st = self@;
            if self.snakes[i].is_dead() {
            } else if i >= positions.len() {
                self.apply_kill(i);
            } else {
                let p = positions[i];
                if p >= 0 && (p as usize) < self.grid.len() && matches!(
                    self.grid[p as usize],
                    Tile::EMPTY | Tile::FOOD,
                ) {
                    let sid = self.snakes[i].get_id();
                    self.grid[p as usize] = Tile::Snake { id: sid };
                    let _shed = self.snakes[i].move_head(p);
                    proof {
                        let s0 = st.snakes[i as int];
                        assert(snake_wf(st, i as int));
                        assert(sid as int == s0.id);
                        let t = seq![p as int] + s0.tiles;
                        lemma_move_parts(s0, p as int);
                        assert(spec_move_head(s0, p as int).0.tiles =~= seq![p as int]);
                        assert(spec_move_head(s0, p as int).0 == (SnakeModel {
                            tiles: seq![p as int],
                            ..s0
                        }));
                        assert(self@.snakes =~= st.snakes.update(
                            i as int,
                            SnakeModel { tiles: seq![p as int], ..s0 },
                        ));
                        assert(self@.grid =~= st.grid.update(
                            p as int,
                            Tile::Snake { id: s0.id as i32 },
                        ));
                        assert(self@ == spawn_step(st, ps, i as int));
                    }
                } else {
                    self.apply_kill(i);
                    proof {
                        assert(self@ == spawn_step(st, ps, i as int));
                    }
                }
            }
            proof {
                assert(self@ == spawn_upto(pre, ps, i + 1));
            }
        }
        proof {
            lemma_spawn_upto_wf(pre, ps, n as int);
            assert(snakes_started(self@));
            assert(self@ == spawn_model(pre, ps));
            if small {
                assert(ps == quad_positions(pre));
            } else {
                assert(1 <= ps.len() <= 1000);
                assert(forall|k: int|
                    0 <= k < ps.len() ==> 0 <= #[trigger] ps[k] < pre.grid.len());
                assert forall|a: int, b: int| 0 <= a < b < ps.len() implies ps[a] != ps[b] by {
                    assert(positions@[a] != positions@[b]);
                };
            }
        }
    }

    /// Poll every living agent's controller for fresh input; the match
    /// state itself is untouched.
    #[verifier::loop_isolation(false)]
    pub fn update_input(&mut self)
        ensures
            final(self)@ == old(self)@,
    {
        let n = self.snakes.len();
        for i in 0..n
            invariant
                n == self.snakes@.len(),
                self@ == old(self)@,
        {
            if !self.snakes[i].is_dead() {
                self.snakes[i].update_controller();
                proof {
                    assert(self@.snakes =~= old(self)@.snakes);
                }
            }
        }
    }

    /// Hand the current snapshot to every agent's controller for
    /// transmission; dead agents' controllers are no longer served, and
    /// the match state itself is untouched.
    #[verifier::loop_isolation(false)]
    pub fn send_gamestate(&mut self)
        requires
            old(self)@.height <= u16::MAX,
            old(self)@.width <= u16::MAX,
        ensures
            final(self)@ == old(self)@,
    {
        let n = self.snakes.len();
        for i in 0..n
            invariant
                n == self.snakes@.len(),
                self@ == old(self)@,
        {
            let mut refs: Vec<SnakeRefData> = Vec::new();
            for j in 0..n
                invariant
                    n == self.snakes@.len(),
                    self@ == old(self)@,
            {
                refs.push(self.snakes[j].get_data());
            }
            let data = SnakeData {
                height: self.height as u16,
                width: self.width as u16,
                grid: &self.grid,
                snakes: refs,
            };
            self.snakes[i].send_gamestate(data);
            proof {
                assert(self@.snakes =~= old(self)@.snakes);
            }
        }
    }

    /// Whether the match is over: exactly one agent left alive is the
    /// winner (`Ok` with its roster entry); none left is `Err(0)` ("no
    /// winner"); two or more still alive is `Err(1)` ("still running").
    #[verifier::loop_isolation(false)]
    pub fn check_end(&self) -> (r: Result<SnakeRefData, i32>)
        ensures
            (count_alive(self@.snakes) == 0) <==> (r == Err::<SnakeRefData, i32>(0)),
            (count_alive(self@.snakes) >= 2) <==> (r == Err::<SnakeRefData, i32>(1)),
            count_alive(self@.snakes) == 1 ==> (r matches Ok(d) && exists|i: int|
                0 <= i < self@.snakes.len() && (#[trigger] self@.snakes[i]).alive && d@.id
                    == self@.snakes[i].id && d@.alive && d@.size == self@.snakes[i].max_size
                    && d@.tiles == self@.snakes[i].tiles && d@.color == self@.snakes[i].color),
    {
        let n = self.snakes.len();
        let mut winner: Option<usize> = None;
        for i in 0..n
            invariant
                n == self.snakes@.len(),
                winner matches Some(w) ==> 0 <= w < i && self@.snakes[w as int].alive,
                count_alive(self@.snakes.take(i as int)) == (if winner is Some {
                    1int
                } else {
                    0int
                }),
        {
            proof {
                assert(self@.snakes.take(i + 1) =~= self@.snakes.take(i as int).push(
                    self@.snakes[i as int],
                ));
                lemma_count_alive_snoc(self@.snakes.take(i as int), self@.snakes[i as int]);
                assert(self.snakes@[i as int]@ == self@.snakes[i as int]);
            }
            if !self.snakes[i].is_dead() {
                if winner.is_some() {
                    proof {
                        lemma_count_alive_prefix(self@.snakes, i + 1);
                    }
                    return Err(1);
                }
                winner = Some(i);
            }
        }
        proof {
            assert(self@.snakes.take(n as int) =~= self@.snakes);
        }
        match winner {
            Some(w) => Ok(self.snakes[w].get_data()),
            None => Err(0),
        }
    }

    /// The roster entries of every agent, in id order.
    pub fn get_all_snake_refs(&self) -> (r: Vec<SnakeRefData>)
        ensures
            r@.len() == self@.snakes.len(),
            forall|i: int|
                0 <= i < r@.len() ==> (#[trigger] r@[i])@.id == self@.snakes[i].id && r@[i]@.alive
                    == self@.snakes[i].alive && r@[i]@.size == self@.snakes[i].max_size
                    && r@[i]@.tiles == self@.snakes[i].tiles && r@[i]@.color
                    == self@.snakes[i].color,
    {
        let n = self.snakes.len();
        let mut r: Vec<SnakeRefData> = Vec::new();
        for i in 0..n
            invariant
                n == self.snakes@.len(),
                r@.len() == i,
                forall|k: int|
                    0 <= k < r@.len() ==> (#[trigger] r@[k])@.id == self@.snakes[k].id
                        && r@[k]@.alive == self@.snakes[k].alive && r@[k]@.size
                        == self@.snakes[k].max_size && r@[k]@.tiles == self@.snakes[k].tiles
                        && r@[k]@.color == self@.snakes[k].color,
        {
            proof {
                assert(self.snakes@[i as int]@ == self@.snakes[i as int]);
            }
            r.push(self.snakes[i].get_data());
        }
        r
    }

    /// Re-arm every agent's controller for a fresh match: release the
    /// endpoint, then establish it again.
    #[verifier::loop_isolation(false)]
    pub fn reconnect(&mut self)
        ensures
            final(self)@ == old(self)@,
    {
        let n = self.snakes.len();
        for i in 0..n
            invariant
                n == self.snakes@.len(),
                self@ == old(self)@,
        {
            self.snakes[i].disconnect_controller();
            // a failed connection leaves the agent permanently
            // disconnected; the match goes on regardless
            let _connected = self.snakes[i].connect_controller();
            proof {
                assert(self@.snakes =~= old(self)@.snakes);
            }
        }
    }

    /// Announce the match winner to every controller, best effort; the
    /// match state itself is untouched.
    #[verifier::loop_isolation(false)]
    pub fn announce_winner(&mut self, winner_id: i32)
        ensures
            final(self)@ == old(self)@,
    {
        let n = self.snakes.len();
        for i in 0..n
            invariant
                n == self.snakes@.len(),
                self@ == old(self)@,
        {
            self.snakes[i].send_winner(winner_id);
            proof {
                assert(self@.snakes =~= old(self)@.snakes);
            }
        }
    }

    /// Reset the board for a new round: every cell empty, every agent's
    /// body emptied, and one fresh food tile placed.
    #[verifier::loop_isolation(false)]
    pub fn clear(&mut self)
        requires
            old(self)@.grid.len() > 0,
        ensures
            final(self)@.width == old(self)@.width,
            final(self)@.height == old(self)@.height,
            final(self)@.snakes.len() == old(self)@.snakes.len(),
            forall|i: int|
                0 <= i < old(self)@.snakes.len() ==> final(self)@.snakes[i] == (SnakeModel {
                    tiles: Seq::empty(),
                    ..old(self)@.snakes[i]
                }),
            ({
                let base = Seq::new(old(self)@.grid.len(), |x: int| Tile::EMPTY);
                exists|c: int| 0 <= c < base.len() && final(self)@.grid == base.update(
                    c,
                    Tile::FOOD,
                )
            }),
    {
        let glen = self.grid.len();
        self.grid = vec![Tile::EMPTY; glen];
        proof {
            assert(self@.grid =~= Seq::new(old(self)@.grid.len(), |x: int| Tile::EMPTY));
        }
        let n = self.snakes.len();
        for i in 0..n
            invariant
                n == self.snakes@.len(),
                self@.width == old(self)@.width,
                self@.height == old(self)@.height,
                self@.grid == Seq::new(old(self)@.grid.len(), |x: int| Tile::EMPTY),
                self@.snakes.len() == old(self)@.snakes.len(),
                forall|k: int|
                    0 <= k < i ==> self@.snakes[k] == (SnakeModel {
                        tiles: Seq::empty(),
                        ..old(self)@.snakes[k]
                    }),
                forall|k: int| i <= k < n ==> self@.snakes[k] == old(self)@.snakes[k],
        {
            let ghost stm = self@;
            self.snakes[i].reset_body();
            proof {
                assert(self@.snakes =~= stm.snakes.update(
                    i as int,
                    (SnakeModel { tiles: Seq::empty(), ..stm.snakes[i as int] }),
                ));
            }
        }
        Self::place_food(&mut self.grid);
    }
}


impl<C: SnakeController> SnakeGrid<C> {
    /// The diagnostic data of every agent whose controller offers any,
    /// keyed by agent id; agents without diagnostics are absent.
    #[verifier::loop_isolation(false)]
    pub fn get_info_dict(&self) -> (r: HashMap<i32, PlayerInfo>)
        requires
            grid_wf(self@),
        ensures
            forall|k: i32| #[trigger] r@.contains_key(k) ==> exists|i: int|
                0 <= i < self@.snakes.len() && (#[trigger] self@.snakes[i]).id == k as int,
    {
        broadcast use vstd::std_specs::hash::group_hash_axioms;

        let mut r: HashMap<i32, PlayerInfo> = HashMap::new();
        let n = self.snakes.len();
        for i in 0..n
            invariant
                n == self.snakes@.len(),
                forall|k: i32| #[trigger] r@.contains_key(k) ==> exists|i2: int|
                    0 <= i2 < self@.snakes.len() && (#[trigger] self@.snakes[i2]).id == k as int,
        {
            let id = self.snakes[i].get_id();
            proof {
                assert(self.snakes@[i as int]@ == self@.snakes[i as int]);
            }
            match self.snakes[i].get_info() {
                Some(info) => {
                    let _prior = r.insert(id, info);
                    proof {
                        assert(self@.snakes[i as int].id == id as int);
                    }
                },
                None => {},
            }
        }
        r
    }
}

} // verus!
