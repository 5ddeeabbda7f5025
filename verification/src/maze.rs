use vstd::prelude::*;

verus! {

// A rectangular maze and its step-by-step generator: a randomized
// depth-first carver that yields one state per step, so a front end can
// animate the generation.

/// A grid coordinate: x counts columns, y counts rows.
#[derive(Clone, Copy, PartialEq, Eq, Structural, Debug)]
pub struct Vec2 {
    pub x: usize,
    pub y: usize,
}

impl Vec2 {
    pub fn new(x: usize, y: usize) -> (v: Vec2)
        ensures
            v == (Vec2 { x, y }),
    {
        Self { x, y }
    }
}

/// Which of a cell's four grid neighbours are joined to it by a carved
/// passage: up is toward larger y, down toward smaller y.
#[derive(Debug, Clone, Copy, PartialEq, Eq, Structural)]
pub struct Neighbors {
    up: bool,
    down: bool,
    left: bool,
    right: bool,
}

impl Neighbors {
    pub closed spec fn has_up(&self) -> bool {
        self.up
    }

    pub closed spec fn has_down(&self) -> bool {
        self.down
    }

    pub closed spec fn has_left(&self) -> bool {
        self.left
    }

    pub closed spec fn has_right(&self) -> bool {
        self.right
    }
}

/// Two cells side by side in the grid.
pub open spec fn grid_adjacent(a: Vec2, b: Vec2) -> bool {
    ||| (a.x == b.x && (a.y + 1 == b.y || b.y + 1 == a.y))
    ||| (a.y == b.y && (a.x + 1 == b.x || b.x + 1 == a.x))
}

/// A maze: per-cell passage flags in a width-by-height grid, stored
/// row-major (cell (x, y) at index x + y * width), with an entry and an
/// exit.
#[derive(Debug, Clone)]
pub struct Maze {
    edges: Vec<Neighbors>,
    width: usize,
    height: usize,
    start: Vec2,
    end: Vec2,
}

/// Flags of one cell never point outside the grid.
pub open spec fn flags_ok(n: Neighbors, x: int, y: int, w: int, h: int) -> bool {
    &&& n.has_up() ==> y + 1 < h
    &&& n.has_down() ==> y >= 1
    &&& n.has_left() ==> x >= 1
    &&& n.has_right() ==> x + 1 < w
}

impl Maze {
    pub closed spec fn spec_width(&self) -> int {
        self.width as int
    }

    pub closed spec fn spec_height(&self) -> int {
        self.height as int
    }

    pub closed spec fn spec_start(&self) -> Vec2 {
        self.start
    }

    pub closed spec fn spec_end(&self) -> Vec2 {
        self.end
    }

    /// The passage flags of cell (x, y).
    pub closed spec fn spec_cell(&self, x: int, y: int) -> Neighbors {
        self.edges@[x + y * self.spec_width()]
    }

    pub open spec fn in_bounds(&self, v: Vec2) -> bool {
        v.x < self.spec_width() && v.y < self.spec_height()
    }

    /// A coherent maze: grid dimensions at least one cell, storage of the
    /// right size, entry and exit on the grid, and no flag pointing off
    /// the grid.
    pub closed spec fn wf(&self) -> bool {
        &&& self.width >= 1
        &&& self.height >= 1
        &&& self.width * self.height <= usize::MAX
        &&& self.edges@.len() == self.width * self.height
        &&& self.in_bounds(self.start)
        &&& self.in_bounds(self.end)
        &&& forall|x: int, y: int|
            0 <= x < self.spec_width() && 0 <= y < self.spec_height() ==> flags_ok(
                #[trigger] self.spec_cell(x, y),
                x,
                y,
                self.spec_width(),
                self.spec_height(),
            )
    }

    /// There is a carved passage leading from `a` to the adjacent cell `b`.
    pub closed spec fn spec_passage(&self, a: Vec2, b: Vec2) -> bool {
        if a.x == b.x && b.y == a.y + 1 {
            self.spec_cell(a.x as int, a.y as int).has_up()
        } else if a.x == b.x && a.y == b.y + 1 {
            self.spec_cell(a.x as int, a.y as int).has_down()
        } else if a.y == b.y && a.x == b.x + 1 {
            self.spec_cell(a.x as int, a.y as int).has_left()
        } else if a.y == b.y && b.x == a.x + 1 {
            self.spec_cell(a.x as int, a.y as int).has_right()
        } else {
            false
        }
    }

    /// A maze of the given size with no passages carved yet.
    pub fn new(width: usize, height: usize, start: Vec2, end: Vec2) -> (m: Maze)
        requires
            1 <= width,
            1 <= height,
            width * height <= usize::MAX,
            start.x < width,
            start.y < height,
            end.x < width,
            end.y < height,
        ensures
            m.wf(),
            m.spec_width() == width,
            m.spec_height() == height,
            m.spec_start() == start,
            m.spec_end() == end,
            forall|a: Vec2, b: Vec2| m.in_bounds(a) ==> !(#[trigger] m.spec_passage(a, b)),
    {
        let n = width * height;
        let mut edges: Vec<Neighbors> = Vec::new();
        while edges.len() < n
            invariant
                edges@.len() <= n,
                forall|i: int| 0 <= i < edges@.len() ==> (#[trigger] edges@[i]) == (Neighbors {
                    up: false,
                    down: false,
                    left: false,
                    right: false,
                }),
            decreases n - edges.len(),
        {
            edges.push(Neighbors { up: false, down: false, left: false, right: false });
        }
        let m = Maze { edges, width, height, start, end };
        proof {
            assert forall|x: int, y: int|
                0 <= x < m.spec_width() && 0 <= y < m.spec_height() implies flags_ok(
                #[trigger] m.spec_cell(x, y),
                x,
                y,
                m.spec_width(),
                m.spec_height(),
            ) by {
                lemma_index_in_range(x, y, width as int, height as int);
            }
            assert forall|a: Vec2, b: Vec2| m.in_bounds(a) implies !(#[trigger] m.spec_passage(
                a,
                b,
            )) by {
                lemma_index_in_range(a.x as int, a.y as int, m.spec_width(), m.spec_height());
            }
        }
        m
    }

    /// Flat storage index of an in-bounds cell.
    fn index_of(&self, v: Vec2) -> (i: usize)
        requires
            self.wf(),
            self.in_bounds(v),
        ensures
            i == v.x + v.y * self.spec_width(),
            i < self.spec_width() * self.spec_height(),
    {
        proof {
            lemma_index_in_range(v.x as int, v.y as int, self.spec_width(), self.spec_height());
        }
        v.x + v.y * self.width
    }

    /// The cell at a flat storage index.
    fn coords_of(&self, i: usize) -> (v: Vec2)
        requires
            self.wf(),
            i < self.spec_width() * self.spec_height(),
        ensures
            self.in_bounds(v),
            i == v.x + v.y * self.spec_width(),
    {
        proof {
            vstd::arithmetic::div_mod::lemma_fundamental_div_mod(i as int, self.spec_width());
            vstd::arithmetic::div_mod::lemma_mod_division_less_than_divisor(
                i as int,
                self.spec_width(),
            );
            vstd::arithmetic::div_mod::lemma_multiply_divide_lt(
                i as int,
                self.spec_width(),
                self.spec_height(),
            );
            vstd::arithmetic::mul::lemma_mul_is_commutative(
                i as int / self.spec_width(),
                self.spec_width(),
            );
        }
        Vec2 { x: i % self.width, y: i / self.width }
    }

    /// Prepares a generator for this maze.
    pub fn create_generator(&self) -> (g: MazeGenerator)
        requires
            self.wf(),
        ensures
            g.wf_for(self),
            !g.started(),
            forall|i: int| 0 <= i < g.spec_visited().len() ==> !(#[trigger] g.spec_visited()[i]),
    {
        MazeGenerator::new(self)
    }

    /// Carves a passage both ways between two adjacent in-bounds cells;
    /// every other passage is untouched.
    pub fn add_edge(&mut self, from: Vec2, to: Vec2)
        requires
            old(self).wf(),
            old(self).in_bounds(from),
            old(self).in_bounds(to),
            grid_adjacent(from, to),
        ensures
            final(self).wf(),
            final(self).spec_width() == old(self).spec_width(),
            final(self).spec_height() == old(self).spec_height(),
            final(self).spec_start() == old(self).spec_start(),
            final(self).spec_end() == old(self).spec_end(),
            final(self).spec_passage(from, to),
            final(self).spec_passage(to, from),
            forall|a: Vec2, b: Vec2|
                old(self).in_bounds(a) && !(a == from && b == to) && !(a == to && b == from)
                    ==> #[trigger] final(self).spec_passage(a, b) == old(self).spec_passage(a, b),
    {
        let ghost m0 = *self;
        let fi = self.index_of(from);
        let ti = self.index_of(to);
        proof {
            if fi == ti {
                lemma_index_injective(
                    from.x as int,
                    from.y as int,
                    to.x as int,
                    to.y as int,
                    self.spec_width(),
                );
                assert(false);
            }
        }
        let mut fn_cell = self.edges[fi];
        let mut tn_cell = self.edges[ti];
        if from.x == to.x && to.y == from.y + 1 {
            fn_cell.up = true;
            tn_cell.down = true;
        } else if from.x == to.x && from.y == to.y + 1 {
            fn_cell.down = true;
            tn_cell.up = true;
        } else if from.y == to.y && from.x == to.x + 1 {
            fn_cell.left = true;
            tn_cell.right = true;
        } else {
            fn_cell.right = true;
            tn_cell.left = true;
        }
        self.edges.set(fi, fn_cell);
        self.edges.set(ti, tn_cell);
        proof {
            let w = m0.spec_width();
            let h = m0.spec_height();
            assert forall|x: int, y: int| 0 <= x < w && 0 <= y < h implies flags_ok(
                #[trigger] self.spec_cell(x, y),
                x,
                y,
                w,
                h,
            ) by {
                lemma_index_in_range(x, y, w, h);
                assert(flags_ok(m0.spec_cell(x, y), x, y, w, h));
                if x + y * w == fi as int {
                    lemma_index_injective(x, y, from.x as int, from.y as int, w);
                    assert(self.spec_cell(x, y) == fn_cell);
                } else if x + y * w == ti as int {
                    lemma_index_injective(x, y, to.x as int, to.y as int, w);
                    assert(self.spec_cell(x, y) == tn_cell);
                } else {
                    assert(self.spec_cell(x, y) == m0.spec_cell(x, y));
                }
            }
            assert forall|a: Vec2, b: Vec2|
                m0.in_bounds(a) && !(a == from && b == to) && !(a == to && b == from)
                implies #[trigger] self.spec_passage(a, b) == m0.spec_passage(a, b) by {
                lemma_index_in_range(a.x as int, a.y as int, w, h);
                if a.x + a.y * w == fi as int {
                    lemma_index_injective(a.x as int, a.y as int, from.x as int, from.y as int, w);
                } else if a.x + a.y * w == ti as int {
                    lemma_index_injective(a.x as int, a.y as int, to.x as int, to.y as int, w);
                }
            }
        }
    }

    /// The cells joined to `cords` by carved passages that the generator
    /// has not walked through yet, in the fixed order up, down, left,
    /// right.
    pub fn get_unvisited_neighbors(&self, cords: Vec2) -> (v: Vec<Vec2>)
        requires
            self.wf(),
            self.in_bounds(cords),
        ensures
            v@ == neighbor_list(self.spec_cell(cords.x as int, cords.y as int), cords),
            forall|j: int| 0 <= j < v@.len()
                ==> self.in_bounds(#[trigger] v@[j]) && grid_adjacent(cords, v@[j]),
    {
        let index = self.index_of(cords);
        let neighbors = self.edges[index];
        proof {
            assert(neighbors == self.spec_cell(cords.x as int, cords.y as int));
            assert(flags_ok(
                self.spec_cell(cords.x as int, cords.y as int),
                cords.x as int,
                cords.y as int,
                self.spec_width(),
                self.spec_height(),
            ));
        }
        let mut unvisited: Vec<Vec2> = Vec::new();

        if neighbors.up {
            unvisited.push(Vec2::new(cords.x, cords.y + 1));
        }
        if neighbors.down {
            unvisited.push(Vec2::new(cords.x, cords.y - 1));
        }
        if neighbors.left {
            unvisited.push(Vec2::new(cords.x - 1, cords.y));
        }
        if neighbors.right {
            unvisited.push(Vec2::new(cords.x + 1, cords.y));
        }
        proof {
            assert(unvisited@ =~= neighbor_list(
                self.spec_cell(cords.x as int, cords.y as int),
                cords,
            ));
        }
        unvisited
    }
}

/// The neighbours a cell's flags name, in the fixed order up, down,
/// left, right.
pub open spec fn neighbor_list(n: Neighbors, cords: Vec2) -> Seq<Vec2> {
    (if n.has_up() {
        seq![Vec2 { x: cords.x, y: (cords.y + 1) as usize }]
    } else {
        Seq::empty()
    }) + (if n.has_down() {
        seq![Vec2 { x: cords.x, y: (cords.y - 1) as usize }]
    } else {
        Seq::empty()
    }) + (if n.has_left() {
        seq![Vec2 { x: (cords.x - 1) as usize, y: cords.y }]
    } else {
        Seq::empty()
    }) + (if n.has_right() {
        seq![Vec2 { x: (cords.x + 1) as usize, y: cords.y }]
    } else {
        Seq::empty()
    })
}

/// Row-major indices stay inside the storage.
proof fn lemma_index_in_range(x: int, y: int, w: int, h: int)
    requires
        0 <= x < w,
        0 <= y < h,
    ensures
        0 <= x + y * w < w * h,
{
    assert(0 <= x + y * w < w * h) by (nonlinear_arith)
        requires
            0 <= x < w,
            0 <= y < h,
    ;
}

/// Row-major indexing is injective on in-bounds cells.
proof fn lemma_index_injective(x1: int, y1: int, x2: int, y2: int, w: int)
    requires
        0 <= x1 < w,
        0 <= x2 < w,
        0 <= y1,
        0 <= y2,
        x1 + y1 * w == x2 + y2 * w,
    ensures
        x1 == x2 && y1 == y2,
{
    assert(x1 == x2 && y1 == y2) by (nonlinear_arith)
        requires
            0 <= x1 < w,
            0 <= x2 < w,
            0 <= y1,
            0 <= y2,
            x1 + y1 * w == x2 + y2 * w,
    ;
}

/// One step of the randomized depth-first carver.
#[derive(Debug, Clone)]
pub enum GeneratorState {
    /// A cell was entered for the first time.
    Exploring(Vec2),
    /// Unvisited grid neighbours of `from` were considered and one of
    /// them, chosen at random, was carved to and entered.
    Considering { from: Vec2, options: Vec<Vec2> },
    /// A dead end: the cell was popped from the walk.
    Backtracking(Vec2),
}

/// The generator of a maze: a randomized depth-first walk over the grid
/// that carves a passage into each newly visited cell. It owns its own
/// bookkeeping and works on the maze it is stepped with.
pub struct MazeGenerator {
    visited: Vec<bool>,
    stack: Vec<usize>,
    previous_state: Option<GeneratorState>,
}

impl MazeGenerator {
    pub closed spec fn spec_visited(&self) -> Seq<bool> {
        self.visited@
    }

    pub closed spec fn started(&self) -> bool {
        self.previous_state is Some
    }

    /// Bookkeeping matches the maze: one visited flag per cell, and the
    /// walk holds only visited in-bounds cells.
    pub closed spec fn wf_for(&self, m: &Maze) -> bool {
        &&& self.visited@.len() == m.spec_width() * m.spec_height()
        &&& forall|i: int|
            0 <= i < self.stack@.len() ==> (#[trigger] self.stack@[i]) < self.visited@.len()
                && self.visited@[self.stack@[i] as int]
    }

    fn new(maze: &Maze) -> (g: MazeGenerator)
        requires
            maze.wf(),
        ensures
            g.wf_for(maze),
            !g.started(),
            forall|i: int| 0 <= i < g.spec_visited().len() ==> !(#[trigger] g.spec_visited()[i]),
    {
        proof {
            lemma_index_in_range(0, 0, maze.spec_width(), maze.spec_height());
        }
        let n = maze.width * maze.height;
        let mut visited: Vec<bool> = Vec::new();
        while visited.len() < n
            invariant
                visited@.len() <= n,
                forall|i: int| 0 <= i < visited@.len() ==> !(#[trigger] visited@[i]),
            decreases n - visited.len(),
        {
            visited.push(false);
        }
        Self { visited, stack: Vec::new(), previous_state: None }
    }

    /// The unvisited grid neighbours of a cell, in the fixed order up,
    /// down, left, right.
    fn unvisited_grid_neighbors(&self, maze: &Maze, cur: Vec2) -> (v: Vec<Vec2>)
        requires
            maze.wf(),
            self.wf_for(maze),
            maze.in_bounds(cur),
        ensures
            v@.len() <= 4,
            forall|i: int| 0 <= i < v@.len() ==> maze.in_bounds(#[trigger] v@[i]) && grid_adjacent(
                cur,
                v@[i],
            ) && !self.spec_visited()[v@[i].x + v@[i].y * maze.spec_width()],
    {
        let mut v: Vec<Vec2> = Vec::new();
        let w = maze.width;
        let h = maze.height;
        if cur.y + 1 < h {
            let c = Vec2 { x: cur.x, y: cur.y + 1 };
            if !self.visited[maze.index_of(c)] {
                v.push(c);
            }
        }
        if cur.y >= 1 {
            let c = Vec2 { x: cur.x, y: cur.y - 1 };
            if !self.visited[maze.index_of(c)] {
                v.push(c);
            }
        }
        if cur.x >= 1 {
            let c = Vec2 { x: cur.x - 1, y: cur.y };
            if !self.visited[maze.index_of(c)] {
                v.push(c);
            }
        }
        if cur.x + 1 < w {
            let c = Vec2 { x: cur.x + 1, y: cur.y };
            if !self.visited[maze.index_of(c)] {
                v.push(c);
            }
        }
        v
    }

    /// One step of the walk. The first step enters the maze's start cell.
    /// Afterwards, each step looks at the top of the walk: with unvisited
    /// grid neighbours, one is chosen at random, a passage is carved to
    /// it, and it is entered; with none, the cell is popped. `None` means
    /// the walk is finished (or, before the first step of an exhausted
    /// generator, that nothing is left to do); the maze is then unchanged.
    pub fn step(&mut self, maze: &mut Maze) -> (st: Option<GeneratorState>)
        requires
            old(self).wf_for(old(maze)),
            old(maze).wf(),
        ensures
            final(maze).wf(),
            final(self).wf_for(final(maze)),
            final(maze).spec_width() == old(maze).spec_width(),
            final(maze).spec_height() == old(maze).spec_height(),
            final(maze).spec_start() == old(maze).spec_start(),
            final(maze).spec_end() == old(maze).spec_end(),
            forall|i: int|
                0 <= i < old(self).spec_visited().len() && old(self).spec_visited()[i]
                    ==> #[trigger] final(self).spec_visited()[i],
            st is None ==> *final(maze) == *old(maze) && *final(self) == *old(self),
    {
        let started = self.previous_state.is_some();
        if !started {
            let s = maze.start;
            let idx = maze.index_of(s);
            self.visited.set(idx, true);
            self.stack.push(idx);
            self.previous_state = Some(GeneratorState::Exploring(s));
            return Some(GeneratorState::Exploring(s));
        }
        if self.stack.len() == 0 {
            return None;
        }
        let cur_idx = self.stack[self.stack.len() - 1];
        let cur = maze.coords_of(cur_idx);
        let cands = self.unvisited_grid_neighbors(maze, cur);
        if cands.len() == 0 {
            self.stack.pop();
            self.previous_state = Some(GeneratorState::Backtracking(cur));
            return Some(GeneratorState::Backtracking(cur));
        }
        let r = crate::rng::random_below(cands.len() as u32) as usize;
        let chosen = cands[r];
        maze.add_edge(cur, chosen);
        let cidx = maze.index_of(chosen);
        self.visited.set(cidx, true);
        self.stack.push(cidx);
        self.previous_state = Some(
            GeneratorState::Considering { from: cur, options: cands.clone() },
        );
        Some(GeneratorState::Considering { from: cur, options: cands })
    }
}

} // verus!
