use vstd::prelude::*;

verus! {

// The solitaire sliding-grid game on a 4-by-4 board.
//
// A move compacts every line toward one edge, collapses adjacent equal
// pairs once each (edge side first), and compacts again; a move is legal
// exactly when it changes the board. Cell value 0 is the empty sentinel.

/// The edge a sliding move compacts toward.
#[derive(Copy, Clone, Debug, PartialEq, Eq, Structural)]
pub enum Direction {
    Up,
    Down,
    Left,
    Right,
}

/// The non-empty cells of a line, in order.
pub open spec fn spec_compact(s: Seq<u32>) -> Seq<u32>
    decreases s.len(),
{
    if s.len() == 0 {
        Seq::empty()
    } else {
        let rest = spec_compact(s.drop_first());
        if s[0] == 0 {
            rest
        } else {
            seq![s[0]] + rest
        }
    }
}

/// Collapse adjacent equal pairs once each, edge side first. A pair whose
/// sum would not fit the cell type is left unmerged; no playable board
/// reaches such values.
pub open spec fn spec_merge(s: Seq<u32>) -> Seq<u32>
    decreases s.len(),
{
    if s.len() < 2 {
        s
    } else if s[0] == s[1] && s[0] + s[0] <= u32::MAX {
        seq![(s[0] + s[0]) as u32] + spec_merge(s.skip(2))
    } else {
        seq![s[0]] + spec_merge(s.skip(1))
    }
}

pub open spec fn zeros(n: nat) -> Seq<u32> {
    Seq::new(n, |i: int| 0u32)
}

/// Slide, collapse, slide again: the merged non-empty cells keep their
/// order at the edge and the line is refilled with empties to its length.
pub open spec fn spec_slide_line(s: Seq<u32>) -> Seq<u32> {
    let m = spec_merge(spec_compact(s));
    let pad = if m.len() <= s.len() { (s.len() - m.len()) as nat } else { 0nat };
    m + zeros(pad)
}

pub proof fn lemma_compact_len(s: Seq<u32>)
    ensures
        spec_compact(s).len() <= s.len(),
    decreases s.len(),
{
    if s.len() > 0 {
        lemma_compact_len(s.drop_first());
    }
}

pub proof fn lemma_merge_len(s: Seq<u32>)
    ensures
        spec_merge(s).len() <= s.len(),
    decreases s.len(),
{
    if s.len() >= 2 {
        if s[0] == s[1] && s[0] + s[0] <= u32::MAX {
            lemma_merge_len(s.skip(2));
        } else {
            lemma_merge_len(s.skip(1));
        }
    }
}

/// A slid line has the length of the line it came from.
pub proof fn lemma_slide_line_len(s: Seq<u32>)
    ensures
        spec_slide_line(s).len() == s.len(),
{
    lemma_compact_len(s);
    lemma_merge_len(spec_compact(s));
}

/// One line slid toward its front: compact, collapse adjacent equal pairs
/// once each, compact again.
pub fn slide_line(line: &Vec<u32>) -> (out: Vec<u32>)
    requires
        line@.len() == 4,
    ensures
        out@ == spec_slide_line(line@),
        out@.len() == 4,
{
    let mut comp: Vec<u32> = Vec::new();
    let mut i: usize = 0;
    proof {
        assert(line@.skip(0) =~= line@);
        assert(comp@ + spec_compact(line@) =~= spec_compact(line@));
    }
    while i < 4
        invariant
            line@.len() == 4,
            i <= 4,
            comp@.len() <= i,
            comp@ + spec_compact(line@.skip(i as int)) == spec_compact(line@),
        decreases 4 - i,
    {
        proof {
            assert(line@.skip(i as int).drop_first() =~= line@.skip(i as int + 1));
            assert(line@.skip(i as int)[0] == line@[i as int]);
        }
        if line[i] != 0 {
            let ghost pre = comp@;
            comp.push(line[i]);
            proof {
                assert(comp@ + spec_compact(line@.skip(i as int + 1))
                    =~= pre + (seq![line@[i as int]] + spec_compact(line@.skip(i as int + 1))));
            }
        }
        i += 1;
    }
    proof {
        assert(line@.skip(4) =~= Seq::<u32>::empty());
        assert(comp@ + Seq::<u32>::empty() =~= comp@);
        assert(comp@ == spec_compact(line@));
    }

    let mut out: Vec<u32> = Vec::new();
    let mut j: usize = 0;
    proof {
        assert(comp@.skip(0) =~= comp@);
        assert(out@ + spec_merge(comp@) =~= spec_merge(comp@));
    }
    while j < comp.len()
        invariant
            comp@.len() <= 4,
            j <= comp@.len(),
            out@.len() <= j,
            comp@ == spec_compact(line@),
            line@.len() == 4,
            out@ + spec_merge(comp@.skip(j as int)) == spec_merge(comp@),
        decreases comp@.len() - j,
    {
        let ghost pre = out@;
        let ghost suf = comp@.skip(j as int);
        proof {
            assert(suf[0] == comp@[j as int]);
            if j + 1 < comp@.len() {
                assert(suf[1] == comp@[j as int + 1]);
            }
        }
        if j + 1 < comp.len() && comp[j] == comp[j + 1] && comp[j] <= u32::MAX / 2 {
            proof {
                assert(suf.len() >= 2);
                assert(suf.skip(2) =~= comp@.skip(j as int + 2));
            }
            out.push(comp[j] + comp[j]);
            proof {
                assert(out@ + spec_merge(comp@.skip(j as int + 2))
                    =~= pre + (seq![(comp@[j as int] + comp@[j as int]) as u32]
                        + spec_merge(comp@.skip(j as int + 2))));
            }
            j += 2;
        } else {
            proof {
                assert(suf.skip(1) =~= comp@.skip(j as int + 1));
                if suf.len() >= 2 {
                    assert(spec_merge(suf) == seq![suf[0]] + spec_merge(suf.skip(1)));
                } else {
                    assert(suf =~= seq![comp@[j as int]]);
                    assert(spec_merge(comp@.skip(j as int + 1)) =~= Seq::<u32>::empty());
                    assert(spec_merge(suf) =~= seq![suf[0]] + spec_merge(suf.skip(1)));
                }
            }
            out.push(comp[j]);
            proof {
                assert(out@ + spec_merge(comp@.skip(j as int + 1))
                    =~= pre + (seq![comp@[j as int]] + spec_merge(comp@.skip(j as int + 1))));
            }
            j += 1;
        }
    }
    proof {
        assert(comp@.skip(comp@.len() as int) =~= Seq::<u32>::empty());
        assert(out@ + Seq::<u32>::empty() =~= out@);
        assert(out@ == spec_merge(spec_compact(line@)));
        lemma_slide_line_len(line@);
    }
    let ghost merged = out@;
    while out.len() < 4
        invariant
            merged == spec_merge(spec_compact(line@)),
            merged.len() <= out@.len() <= 4,
            out@ == merged + zeros((out@.len() - merged.len()) as nat),
        decreases 4 - out.len(),
    {
        let ghost pre_n = (out@.len() - merged.len()) as nat;
        out.push(0);
        proof {
            assert(merged + zeros(pre_n + 1) =~= (merged + zeros(pre_n)).push(0u32));
        }
    }
    proof {
        assert(out@ == spec_slide_line(line@));
    }
    out
}

/// Which of the four lines of direction `d` the flat cell `i` lies on.
pub open spec fn lane_of(d: Direction, i: int) -> int {
    match d {
        Direction::Left | Direction::Right => i / 4,
        Direction::Up | Direction::Down => i % 4,
    }
}

/// Position of flat cell `i` within its line, counted from the edge the
/// move compacts toward.
pub open spec fn pos_of(d: Direction, i: int) -> int {
    match d {
        Direction::Left => i % 4,
        Direction::Right => 3 - i % 4,
        Direction::Up => i / 4,
        Direction::Down => 3 - i / 4,
    }
}

/// Flat index of the cell at position `j` of line `k` of direction `d`.
pub open spec fn flat_of(d: Direction, k: int, j: int) -> int {
    match d {
        Direction::Left => 4 * k + j,
        Direction::Right => 4 * k + 3 - j,
        Direction::Up => k + 4 * j,
        Direction::Down => k + 4 * (3 - j),
    }
}

/// Line `k` of direction `d`, read from the compacting edge outward.
pub open spec fn extract_line(b: Seq<u32>, d: Direction, k: int) -> Seq<u32> {
    Seq::new(4, |j: int| b[flat_of(d, k, j)])
}

/// The board after sliding every line of direction `d`.
pub open spec fn spec_move_board(b: Seq<u32>, d: Direction) -> Seq<u32> {
    Seq::new(16, |i: int| spec_slide_line(extract_line(b, d, lane_of(d, i)))[pos_of(d, i)])
}

pub proof fn lemma_flat_inverse(d: Direction, i: int)
    requires
        0 <= i < 16,
    ensures
        0 <= lane_of(d, i) < 4,
        0 <= pos_of(d, i) < 4,
        flat_of(d, lane_of(d, i), pos_of(d, i)) == i,
{
    assert(0 <= i / 4 < 4);
    assert(0 <= i % 4 < 4);
    assert(4 * (i / 4) + i % 4 == i);
}

pub proof fn lemma_flat_range(d: Direction, k: int, j: int)
    requires
        0 <= k < 4,
        0 <= j < 4,
    ensures
        0 <= flat_of(d, k, j) < 16,
        lane_of(d, flat_of(d, k, j)) == k,
        pos_of(d, flat_of(d, k, j)) == j,
{
    match d {
        Direction::Left => {
            assert((4 * k + j) / 4 == k);
            assert((4 * k + j) % 4 == j);
        },
        Direction::Right => {
            assert((4 * k + 3 - j) / 4 == k);
            assert((4 * k + 3 - j) % 4 == 3 - j);
        },
        Direction::Up => {
            assert((k + 4 * j) / 4 == j);
            assert((k + 4 * j) % 4 == k);
        },
        Direction::Down => {
            assert((k + 4 * (3 - j)) / 4 == 3 - j);
            assert((k + 4 * (3 - j)) % 4 == k);
        },
    }
}

/// A 4-by-4 sliding board, stored row-major; 0 is the empty sentinel.
/// Every move returns a new value; a board is never mutated in place.
pub struct SlideBoard {
    cells: Vec<u32>,
}

impl View for SlideBoard {
    type V = Seq<u32>;

    closed spec fn view(&self) -> Seq<u32> {
        self.cells@
    }
}

impl SlideBoard {
    pub open spec fn wf(&self) -> bool {
        self@.len() == 16
    }

    /// An empty board.
    pub fn new() -> (b: SlideBoard)
        ensures
            b.wf(),
            forall|i: int| 0 <= i < 16 ==> b@[i] == 0,
    {
        let mut cells: Vec<u32> = Vec::new();
        while cells.len() < 16
            invariant
                cells@.len() <= 16,
                forall|i: int| 0 <= i < cells@.len() ==> cells@[i] == 0,
            decreases 16 - cells.len(),
        {
            cells.push(0);
        }
        SlideBoard { cells }
    }

    /// A board over caller-supplied cells, row-major.
    pub fn from_cells(cells: Vec<u32>) -> (b: SlideBoard)
        requires
            cells@.len() == 16,
        ensures
            b.wf(),
            b@ == cells@,
    {
        SlideBoard { cells }
    }

    /// The cell at row `r`, column `c`.
    pub fn get(&self, r: usize, c: usize) -> (v: u32)
        requires
            self.wf(),
            r < 4,
            c < 4,
        ensures
            v == self@[r as int * 4 + c as int],
    {
        self.cells[r * 4 + c]
    }

    /// Flat index of position `j` on line `k` of direction `d`.
    fn flat_index(d: Direction, k: usize, j: usize) -> (i: usize)
        requires
            k < 4,
            j < 4,
        ensures
            i as int == flat_of(d, k as int, j as int),
            i < 16,
    {
        proof {
            lemma_flat_range(d, k as int, j as int);
        }
        match d {
            Direction::Left => 4 * k + j,
            Direction::Right => 4 * k + 3 - j,
            Direction::Up => k + 4 * j,
            Direction::Down => k + 4 * (3 - j),
        }
    }

    /// The board after one move: every line of the chosen direction is
    /// slid toward that edge. The move may leave the board unchanged;
    /// callers that care must check (see `is_legal`).
    pub fn apply_move(&self, d: Direction) -> (b: SlideBoard)
        requires
            self.wf(),
        ensures
            b.wf(),
            b@ == spec_move_board(self@, d),
    {
        let ghost b0 = self@;
        let mut cells: Vec<u32> = Vec::new();
        let mut i: usize = 0;
        while i < 16
            invariant
                self.wf(),
                b0 == self@,
                i <= 16,
                cells@.len() == i,
                forall|t: int| 0 <= t < i ==> cells@[t] == b0[t],
            decreases 16 - i,
        {
            cells.push(self.cells[i]);
            i += 1;
        }
        let mut k: usize = 0;
        while k < 4
            invariant
                self.wf(),
                b0 == self@,
                k <= 4,
                cells@.len() == 16,
                forall|t: int| 0 <= t < 16 && lane_of(d, t) < k ==> cells@[t] == spec_move_board(b0, d)[t],
                forall|t: int| 0 <= t < 16 && lane_of(d, t) >= k ==> cells@[t] == b0[t],
            decreases 4 - k,
        {
            let mut line: Vec<u32> = Vec::new();
            let mut j: usize = 0;
            while j < 4
                invariant
                    self.wf(),
                    b0 == self@,
                    k < 4,
                    j <= 4,
                    line@.len() == j,
                    forall|t: int| 0 <= t < j ==> line@[t] == b0[flat_of(d, k as int, t)],
                decreases 4 - j,
            {
                let fi = Self::flat_index(d, k, j);
                line.push(self.cells[fi]);
                j += 1;
            }
            proof {
                assert(line@ =~= extract_line(b0, d, k as int));
            }
            let slid = slide_line(&line);
            let mut j: usize = 0;
            while j < 4
                invariant
                    k < 4,
                    j <= 4,
                    cells@.len() == 16,
                    slid@ == spec_slide_line(extract_line(b0, d, k as int)),
                    slid@.len() == 4,
                    forall|t: int| 0 <= t < 16 && lane_of(d, t) < k ==> cells@[t] == spec_move_board(b0, d)[t],
                    forall|t: int| 0 <= t < 16 && lane_of(d, t) > k ==> cells@[t] == b0[t],
                    forall|t: int| 0 <= t < 16 && lane_of(d, t) == k && pos_of(d, t) < j
                        ==> cells@[t] == spec_move_board(b0, d)[t],
                    forall|t: int| 0 <= t < 16 && lane_of(d, t) == k && pos_of(d, t) >= j
                        ==> cells@[t] == b0[t],
                decreases 4 - j,
            {
                let fi = Self::flat_index(d, k, j);
                proof {
                    lemma_flat_range(d, k as int, j as int);
                    assert(spec_move_board(b0, d)[fi as int]
                        == spec_slide_line(extract_line(b0, d, k as int))[j as int]);
                    assert forall|t: int| 0 <= t < 16 implies lane_of(d, t) == lane_of(d, t) by {}
                }
                cells.set(fi, slid[j]);
                proof {
                    assert forall|t: int| 0 <= t < 16 && t != fi as int
                        implies cells@[t] == cells@.update(fi as int, slid@[j as int])[t] by {}
                }
                j += 1;
            }
            k += 1;
        }
        proof {
            assert forall|t: int| 0 <= t < 16 implies cells@[t] == spec_move_board(b0, d)[t] by {
                lemma_flat_inverse(d, t);
            }
            assert(cells@ =~= spec_move_board(b0, d));
        }
        SlideBoard { cells }
    }
}

/// The fixed priority order in which directions are enumerated and, on a
/// full tie of scores, preferred.
pub open spec fn dir_order() -> Seq<Direction> {
    seq![Direction::Up, Direction::Down, Direction::Left, Direction::Right]
}

/// A move is legal exactly when it changes the board.
pub open spec fn spec_legal(b: Seq<u32>, d: Direction) -> bool {
    spec_move_board(b, d) != b
}

/// The legal directions among `dir_order()[i..]`, kept in that order.
pub open spec fn legal_from(b: Seq<u32>, i: int) -> Seq<Direction>
    decreases 4 - i,
{
    if i < 0 || i >= 4 {
        Seq::empty()
    } else {
        let rest = legal_from(b, i + 1);
        if spec_legal(b, dir_order()[i]) {
            seq![dir_order()[i]] + rest
        } else {
            rest
        }
    }
}

/// The legal moves of a board, in priority order.
pub open spec fn spec_legal_dirs(b: Seq<u32>) -> Seq<Direction> {
    legal_from(b, 0)
}

/// A board with no legal move is terminal.
pub open spec fn spec_terminal(b: Seq<u32>) -> bool {
    spec_legal_dirs(b).len() == 0
}

/// Larger of two values.
pub open spec fn max2(a: int, b: int) -> int {
    if a >= b {
        a
    } else {
        b
    }
}

/// Largest cell value among cells `i..16`.
pub open spec fn max_from(b: Seq<u32>, i: int) -> int
    decreases 16 - i,
{
    if i < 0 || i >= 16 {
        0
    } else {
        max2(b[i] as int, max_from(b, i + 1))
    }
}

/// The largest cell value on the board.
pub open spec fn spec_max_value(b: Seq<u32>) -> int {
    max_from(b, 0)
}

/// Number of empty cells among cells `i..16`.
pub open spec fn empty_from(b: Seq<u32>, i: int) -> int
    decreases 16 - i,
{
    if i < 0 || i >= 16 {
        0
    } else {
        (if b[i] == 0 { 1int } else { 0int }) + empty_from(b, i + 1)
    }
}

/// Number of empty cells on the board.
pub open spec fn spec_empty(b: Seq<u32>) -> int {
    empty_from(b, 0)
}

/// Adjacent-equal contribution of cell `i`: its value once for an equal
/// non-empty neighbour above and once, independently, for one to the left,
/// so a cell matching both contributes twice.
pub open spec fn cell_adj(b: Seq<u32>, i: int) -> int {
    (if i / 4 > 0 && b[i - 4] == b[i] && b[i] != 0 { b[i] as int } else { 0int })
    + (if i % 4 > 0 && b[i - 1] == b[i] && b[i] != 0 { b[i] as int } else { 0int })
}

pub open spec fn adj_from(b: Seq<u32>, i: int) -> int
    decreases 16 - i,
{
    if i < 0 || i >= 16 {
        0
    } else {
        cell_adj(b, i) + adj_from(b, i + 1)
    }
}

/// The adjacent-equal bonus of the whole board.
pub open spec fn spec_adjacent(b: Seq<u32>) -> int {
    adj_from(b, 0)
}

pub open spec fn abs_diff(a: int, b: int) -> int {
    if a >= b {
        a - b
    } else {
        b - a
    }
}

/// Roughness contribution of cell `i`: absolute difference to the cell
/// above and to the cell to the left, where those neighbours exist.
pub open spec fn cell_rough(b: Seq<u32>, i: int) -> int {
    (if i / 4 > 0 { abs_diff(b[i] as int, b[i - 4] as int) } else { 0int })
    + (if i % 4 > 0 { abs_diff(b[i] as int, b[i - 1] as int) } else { 0int })
}

pub open spec fn rough_from(b: Seq<u32>, i: int) -> int
    decreases 16 - i,
{
    if i < 0 || i >= 16 {
        0
    } else {
        cell_rough(b, i) + rough_from(b, i + 1)
    }
}

/// The roughness (inverse smoothness) of the whole board: higher means
/// less smooth, so it is a penalty feature, paired with a small weight.
pub open spec fn spec_rough(b: Seq<u32>) -> int {
    rough_from(b, 0)
}

pub proof fn lemma_max_bounds(b: Seq<u32>, i: int)
    ensures
        0 <= max_from(b, i) <= u32::MAX,
    decreases 16 - i,
{
    if 0 <= i < 16 {
        lemma_max_bounds(b, i + 1);
    }
}

pub proof fn lemma_empty_bounds(b: Seq<u32>, i: int)
    ensures
        0 <= empty_from(b, i) <= 16,
        0 <= i <= 16 ==> empty_from(b, i) <= 16 - i,
    decreases 16 - i,
{
    if 0 <= i < 16 {
        lemma_empty_bounds(b, i + 1);
    }
}

pub proof fn lemma_adj_bounds(b: Seq<u32>, i: int)
    ensures
        0 <= adj_from(b, i) <= 16 * 2 * 0xffff_ffff,
        0 <= i <= 16 ==> adj_from(b, i) <= (16 - i) * 2 * 0xffff_ffff,
    decreases 16 - i,
{
    if 0 <= i < 16 {
        lemma_adj_bounds(b, i + 1);
    }
}

pub proof fn lemma_rough_bounds(b: Seq<u32>, i: int)
    ensures
        0 <= rough_from(b, i) <= 16 * 2 * 0xffff_ffff,
        0 <= i <= 16 ==> rough_from(b, i) <= (16 - i) * 2 * 0xffff_ffff,
    decreases 16 - i,
{
    if 0 <= i < 16 {
        lemma_rough_bounds(b, i + 1);
    }
}

/// A non-empty cell filled over an empty one lowers the empty count by one.
pub proof fn lemma_empty_update(b: Seq<u32>, at: int, v: u32, i: int)
    requires
        0 <= at < 16,
        b.len() == 16,
        b[at] == 0,
        v != 0,
        0 <= i <= 16,
    ensures
        empty_from(b.update(at, v), i) == empty_from(b, i) - (if i <= at { 1int } else { 0int }),
    decreases 16 - i,
{
    if i < 16 {
        lemma_empty_update(b, at, v, i + 1);
    }
}

/// A board of all empty cells has 16 of them.
pub proof fn lemma_empty_all_zero(b: Seq<u32>, i: int)
    requires
        b.len() == 16,
        forall|t: int| 0 <= t < 16 ==> b[t] == 0,
        0 <= i <= 16,
    ensures
        empty_from(b, i) == 16 - i,
    decreases 16 - i,
{
    if i < 16 {
        lemma_empty_all_zero(b, i + 1);
    }
}

/// `max_from(b, j)` dominates every cell at or after `j`.
pub proof fn lemma_max_from_ge(b: Seq<u32>, j: int, i: int)
    requires
        0 <= j <= i < 16,
    ensures
        max_from(b, j) >= b[i],
    decreases i - j,
{
    if j < i {
        lemma_max_from_ge(b, j + 1, i);
    }
}

/// A board of only non-empty cells counts no empties.
proof fn lemma_empty_all_nonzero(b: Seq<u32>, i: int)
    requires
        forall|z: int| 0 <= z < 16 ==> (#[trigger] b[z]) != 0,
        0 <= i <= 16,
    ensures
        empty_from(b, i) == 0,
    decreases 16 - i,
{
    if i < 16 {
        lemma_empty_all_nonzero(b, i + 1);
    }
}

/// A board with empty cells holds one at a nameable index.
pub proof fn lemma_empty_witness(b: Seq<u32>)
    requires
        b.len() == 16,
        spec_empty(b) > 0,
    ensures
        exists|z: int| 0 <= z < 16 && (#[trigger] b[z]) == 0,
{
    if forall|z: int| 0 <= z < 16 ==> (#[trigger] b[z]) != 0 {
        lemma_empty_all_nonzero(b, 0);
        assert(false);
    }
}

/// A board with an empty count below sixteen holds a non-empty cell.
pub proof fn lemma_nonzero_exists(b: Seq<u32>)
    requires
        b.len() == 16,
        spec_empty(b) < 16,
    ensures
        exists|i: int| 0 <= i < 16 && (#[trigger] b[i]) != 0,
{
    if forall|i: int| 0 <= i < 16 ==> (#[trigger] b[i]) == 0 {
        lemma_empty_all_zero(b, 0);
        assert(false);
    }
}

/// Compacting keeps no empty cells.
proof fn lemma_compact_all_nonzero(s: Seq<u32>)
    ensures
        forall|j: int| 0 <= j < spec_compact(s).len() ==> (#[trigger] spec_compact(s)[j]) != 0,
    decreases s.len(),
{
    if s.len() > 0 {
        lemma_compact_all_nonzero(s.drop_first());
        assert forall|j: int| 0 <= j < spec_compact(s).len()
            implies (#[trigger] spec_compact(s)[j]) != 0 by {
            if s[0] == 0 {
                assert(spec_compact(s)[j] == spec_compact(s.drop_first())[j]);
            } else if j == 0 {
                assert(spec_compact(s)[0] == s[0]);
            } else {
                assert(spec_compact(s)[j] == spec_compact(s.drop_first())[j - 1]);
            }
        }
    }
}

/// Collapsing a line of non-empty cells keeps every cell non-empty.
proof fn lemma_merge_all_nonzero(s: Seq<u32>)
    requires
        forall|j: int| 0 <= j < s.len() ==> (#[trigger] s[j]) != 0,
    ensures
        forall|j: int| 0 <= j < spec_merge(s).len() ==> (#[trigger] spec_merge(s)[j]) != 0,
    decreases s.len(),
{
    if s.len() >= 2 {
        if s[0] == s[1] && s[0] + s[0] <= u32::MAX {
            assert(forall|j: int| 0 <= j < s.skip(2).len() ==> (#[trigger] s.skip(2)[j]) != 0);
            lemma_merge_all_nonzero(s.skip(2));
            assert forall|j: int| 0 <= j < spec_merge(s).len()
                implies (#[trigger] spec_merge(s)[j]) != 0 by {
                if j > 0 {
                    assert(spec_merge(s)[j] == spec_merge(s.skip(2))[j - 1]);
                }
            }
        } else {
            assert(forall|j: int| 0 <= j < s.skip(1).len() ==> (#[trigger] s.skip(1)[j]) != 0);
            lemma_merge_all_nonzero(s.skip(1));
            assert forall|j: int| 0 <= j < spec_merge(s).len()
                implies (#[trigger] spec_merge(s)[j]) != 0 by {
                if j > 0 {
                    assert(spec_merge(s)[j] == spec_merge(s.skip(1))[j - 1]);
                }
            }
        }
    }
}

/// A line holding an empty cell in front of a non-empty one is changed by
/// its slide: a slid line is always its non-empty cells first.
proof fn lemma_gap_line_changes(s: Seq<u32>, p: int, q: int)
    requires
        s.len() == 4,
        0 <= p < q < 4,
        s[p] == 0,
        s[q] != 0,
    ensures
        spec_slide_line(s) != s,
{
    lemma_compact_len(s);
    lemma_merge_len(spec_compact(s));
    lemma_compact_all_nonzero(s);
    lemma_merge_all_nonzero(spec_compact(s));
    let m = spec_merge(spec_compact(s));
    if spec_slide_line(s) == s {
        assert(s[q] == spec_slide_line(s)[q]);
        if q >= m.len() {
            assert(spec_slide_line(s)[q] == zeros((4 - m.len()) as nat)[q - m.len()]);
            assert(false);
        }
        assert(s[p] == spec_slide_line(s)[p]);
        assert(spec_slide_line(s)[p] == m[p]);
        assert(false);
    }
}

/// A direction whose line changes changes the board.
proof fn lemma_line_change_is_legal(b: Seq<u32>, d: Direction, k: int)
    requires
        b.len() == 16,
        0 <= k < 4,
        spec_slide_line(extract_line(b, d, k)) != extract_line(b, d, k),
    ensures
        spec_legal(b, d),
{
    lemma_slide_line_len(extract_line(b, d, k));
    if forall|j: int| 0 <= j < 4
        ==> (#[trigger] spec_slide_line(extract_line(b, d, k))[j]) == extract_line(b, d, k)[j] {
        assert(spec_slide_line(extract_line(b, d, k)) =~= extract_line(b, d, k));
        assert(false);
    }
    let j = choose|j: int| 0 <= j < 4
        && (#[trigger] spec_slide_line(extract_line(b, d, k))[j]) != extract_line(b, d, k)[j];
    lemma_flat_range(d, k, j);
    let t = flat_of(d, k, j);
    assert(spec_move_board(b, d)[t] == spec_slide_line(extract_line(b, d, k))[j]);
    assert(b[t] == extract_line(b, d, k)[j]);
    assert(spec_move_board(b, d)[t] != b[t]);
}

/// A board is terminal exactly when no direction at all changes it.
pub proof fn lemma_terminal_iff(b: Seq<u32>)
    ensures
        spec_terminal(b) <==> (!spec_legal(b, Direction::Up) && !spec_legal(b, Direction::Down)
            && !spec_legal(b, Direction::Left) && !spec_legal(b, Direction::Right)),
{
    assert(legal_from(b, 4) =~= Seq::<Direction>::empty());
    assert(legal_from(b, 3).len() == if spec_legal(b, Direction::Right) { 1int } else { 0int });
    assert(legal_from(b, 2).len() == legal_from(b, 3).len()
        + if spec_legal(b, Direction::Left) { 1int } else { 0int });
    assert(legal_from(b, 1).len() == legal_from(b, 2).len()
        + if spec_legal(b, Direction::Down) { 1int } else { 0int });
    assert(legal_from(b, 0).len() == legal_from(b, 1).len()
        + if spec_legal(b, Direction::Up) { 1int } else { 0int });
}

/// A board holding both a non-empty cell and an empty cell always has a
/// legal move: it is not terminal.
pub proof fn lemma_playable(b: Seq<u32>, i: int, i0: int)
    requires
        b.len() == 16,
        0 <= i < 16,
        0 <= i0 < 16,
        b[i] != 0,
        b[i0] == 0,
    ensures
        !spec_terminal(b),
{
    let r = i / 4;
    let c = i % 4;
    let r0 = i0 / 4;
    let c0 = i0 % 4;
    lemma_flat_inverse(Direction::Left, i);
    lemma_flat_inverse(Direction::Left, i0);
    lemma_terminal_iff(b);
    if c0 == c {
        // same column: the gap and the tile meet along that column
        assert(extract_line(b, Direction::Up, c)[r] == b[c + 4 * r]);
        assert(extract_line(b, Direction::Up, c)[r0] == b[c + 4 * r0]);
        assert(c + 4 * r == i);
        assert(c + 4 * r0 == i0);
        if r0 < r {
            lemma_gap_line_changes(extract_line(b, Direction::Up, c), r0, r);
            lemma_line_change_is_legal(b, Direction::Up, c);
        } else {
            assert(extract_line(b, Direction::Down, c)[3 - r] == b[c + 4 * (3 - (3 - r))]);
            assert(extract_line(b, Direction::Down, c)[3 - r0] == b[c + 4 * (3 - (3 - r0))]);
            lemma_gap_line_changes(extract_line(b, Direction::Down, c), 3 - r0, 3 - r);
            lemma_line_change_is_legal(b, Direction::Down, c);
        }
    } else if r0 == r {
        // same row: the gap and the tile meet along that row
        assert(extract_line(b, Direction::Left, r)[c] == b[4 * r + c]);
        assert(extract_line(b, Direction::Left, r)[c0] == b[4 * r + c0]);
        if c0 < c {
            lemma_gap_line_changes(extract_line(b, Direction::Left, r), c0, c);
            lemma_line_change_is_legal(b, Direction::Left, r);
        } else {
            assert(extract_line(b, Direction::Right, r)[3 - c] == b[4 * r + 3 - (3 - c)]);
            assert(extract_line(b, Direction::Right, r)[3 - c0] == b[4 * r + 3 - (3 - c0)]);
            lemma_gap_line_changes(extract_line(b, Direction::Right, r), 3 - c0, 3 - c);
            lemma_line_change_is_legal(b, Direction::Right, r);
        }
    } else {
        // cross cell: share the tile's row with the gap's column
        let m = r * 4 + c0;
        assert(0 <= m < 16) by (nonlinear_arith)
            requires
                0 <= r < 4,
                0 <= c0 < 4,
                m == r * 4 + c0,
        ;
        if b[m] == 0 {
            // the tile's row holds a gap at the other column
            assert(extract_line(b, Direction::Left, r)[c] == b[4 * r + c]);
            assert(extract_line(b, Direction::Left, r)[c0] == b[4 * r + c0]);
            if c0 < c {
                lemma_gap_line_changes(extract_line(b, Direction::Left, r), c0, c);
                lemma_line_change_is_legal(b, Direction::Left, r);
            } else {
                assert(extract_line(b, Direction::Right, r)[3 - c] == b[4 * r + 3 - (3 - c)]);
                assert(extract_line(b, Direction::Right, r)[3 - c0] == b[4 * r + 3 - (3 - c0)]);
                lemma_gap_line_changes(extract_line(b, Direction::Right, r), 3 - c0, 3 - c);
                lemma_line_change_is_legal(b, Direction::Right, r);
            }
        } else {
            // the gap's column holds a tile at the other row
            assert(extract_line(b, Direction::Up, c0)[r] == b[c0 + 4 * r]);
            assert(extract_line(b, Direction::Up, c0)[r0] == b[c0 + 4 * r0]);
            if r0 < r {
                lemma_gap_line_changes(extract_line(b, Direction::Up, c0), r0, r);
                lemma_line_change_is_legal(b, Direction::Up, c0);
            } else {
                assert(extract_line(b, Direction::Down, c0)[3 - r] == b[c0 + 4 * (3 - (3 - r))]);
                assert(extract_line(b, Direction::Down, c0)[3 - r0] == b[c0 + 4 * (3 - (3 - r0))]);
                lemma_gap_line_changes(extract_line(b, Direction::Down, c0), 3 - r0, 3 - r);
                lemma_line_change_is_legal(b, Direction::Down, c0);
            }
        }
    }
}

/// Compacting keeps a cell of value two or more.
proof fn lemma_compact_keeps_big(s: Seq<u32>)
    requires
        exists|j: int| 0 <= j < s.len() && (#[trigger] s[j]) >= 2,
    ensures
        exists|j: int| 0 <= j < spec_compact(s).len() && (#[trigger] spec_compact(s)[j]) >= 2,
    decreases s.len(),
{
    let j = choose|j: int| 0 <= j < s.len() && (#[trigger] s[j]) >= 2;
    if s[0] == 0 {
        assert(s.drop_first()[j - 1] == s[j]);
        lemma_compact_keeps_big(s.drop_first());
        let j2 = choose|j2: int|
            0 <= j2 < spec_compact(s.drop_first()).len()
                && (#[trigger] spec_compact(s.drop_first())[j2]) >= 2;
        assert(spec_compact(s)[j2] == spec_compact(s.drop_first())[j2]);
    } else if j == 0 {
        assert(spec_compact(s)[0] == s[0]);
    } else {
        assert(s.drop_first()[j - 1] == s[j]);
        lemma_compact_keeps_big(s.drop_first());
        let j2 = choose|j2: int|
            0 <= j2 < spec_compact(s.drop_first()).len()
                && (#[trigger] spec_compact(s.drop_first())[j2]) >= 2;
        assert(spec_compact(s)[1 + j2] == spec_compact(s.drop_first())[j2]);
    }
}

/// Collapsing keeps a cell of value two or more: a kept cell keeps its
/// value and a merged pair at least doubles it.
proof fn lemma_merge_keeps_big(s: Seq<u32>)
    requires
        exists|j: int| 0 <= j < s.len() && (#[trigger] s[j]) >= 2,
    ensures
        exists|j: int| 0 <= j < spec_merge(s).len() && (#[trigger] spec_merge(s)[j]) >= 2,
    decreases s.len(),
{
    let j = choose|j: int| 0 <= j < s.len() && (#[trigger] s[j]) >= 2;
    if s.len() < 2 {
        assert(spec_merge(s)[j] >= 2);
    } else if s[0] == s[1] && s[0] + s[0] <= u32::MAX {
        if j <= 1 {
            assert(spec_merge(s)[0] >= 2);
        } else {
            assert(s.skip(2)[j - 2] == s[j]);
            lemma_merge_keeps_big(s.skip(2));
            let j2 = choose|j2: int|
                0 <= j2 < spec_merge(s.skip(2)).len() && (#[trigger] spec_merge(s.skip(2))[j2]) >= 2;
            assert(spec_merge(s)[1 + j2] == spec_merge(s.skip(2))[j2]);
        }
    } else {
        if j == 0 {
            assert(spec_merge(s)[0] >= 2);
        } else {
            assert(s.skip(1)[j - 1] == s[j]);
            lemma_merge_keeps_big(s.skip(1));
            let j2 = choose|j2: int|
                0 <= j2 < spec_merge(s.skip(1)).len() && (#[trigger] spec_merge(s.skip(1))[j2]) >= 2;
            assert(spec_merge(s)[1 + j2] == spec_merge(s.skip(1))[j2]);
        }
    }
}

/// A move never loses the board's tiles: some cell of value two or more
/// survives every slide.
pub proof fn lemma_move_keeps_big(b: Seq<u32>, d: Direction)
    requires
        b.len() == 16,
        exists|i: int| 0 <= i < 16 && (#[trigger] b[i]) >= 2,
    ensures
        exists|i: int| 0 <= i < 16 && (#[trigger] spec_move_board(b, d)[i]) >= 2,
{
    let i = choose|i: int| 0 <= i < 16 && (#[trigger] b[i]) >= 2;
    lemma_flat_inverse(d, i);
    let k = lane_of(d, i);
    let p = pos_of(d, i);
    let line = extract_line(b, d, k);
    assert(line[p] == b[flat_of(d, k, p)]);
    lemma_compact_keeps_big(line);
    lemma_merge_keeps_big(spec_compact(line));
    lemma_compact_len(line);
    lemma_merge_len(spec_compact(line));
    let m = spec_merge(spec_compact(line));
    let q = choose|q: int| 0 <= q < m.len() && (#[trigger] m[q]) >= 2;
    assert(spec_slide_line(line)[q] == m[q]);
    lemma_flat_range(d, k, q);
    assert(spec_move_board(b, d)[flat_of(d, k, q)] == spec_slide_line(line)[q]);
}

impl SlideBoard {
    /// A copy of the cells, row-major.
    fn copy_cells(&self) -> (v: Vec<u32>)
        requires
            self.wf(),
        ensures
            v@ == self@,
    {
        let mut cells: Vec<u32> = Vec::new();
        let mut i: usize = 0;
        while i < 16
            invariant
                self.wf(),
                i <= 16,
                cells@.len() == i,
                forall|t: int| 0 <= t < i ==> cells@[t] == self@[t],
            decreases 16 - i,
        {
            cells.push(self.cells[i]);
            i += 1;
        }
        proof {
            assert(cells@ =~= self@);
        }
        cells
    }

    /// Whether the two boards hold the same cells.
    pub fn same_as(&self, other: &SlideBoard) -> (eq: bool)
        requires
            self.wf(),
            other.wf(),
        ensures
            eq <==> self@ == other@,
    {
        let mut i: usize = 0;
        while i < 16
            invariant
                self.wf(),
                other.wf(),
                i <= 16,
                forall|t: int| 0 <= t < i ==> self@[t] == other@[t],
            decreases 16 - i,
        {
            if self.cells[i] != other.cells[i] {
                return false;
            }
            i += 1;
        }
        proof {
            assert(self@ =~= other@);
        }
        true
    }

    /// Whether sliding toward `d` changes the board.
    pub fn is_legal(&self, d: Direction) -> (legal: bool)
        requires
            self.wf(),
        ensures
            legal == spec_legal(self@, d),
    {
        let moved = self.apply_move(d);
        !moved.same_as(self)
    }

    /// The legal moves, in the fixed priority order up, down, left, right.
    #[verifier::rlimit(100)]
    pub fn legal_moves(&self) -> (dirs: Vec<Direction>)
        requires
            self.wf(),
        ensures
            dirs@ == spec_legal_dirs(self@),
    {
        let ghost b = self@;
        let mut dirs: Vec<Direction> = Vec::new();
        let mut i: usize = 0;
        proof {
            assert(dirs@ + legal_from(b, 0) =~= legal_from(b, 0));
        }
        while i < 4
            invariant
                self.wf(),
                b == self@,
                i <= 4,
                dirs@ + legal_from(b, i as int) == spec_legal_dirs(b),
            decreases 4 - i,
        {
            let d = match i {
                0 => Direction::Up,
                1 => Direction::Down,
                2 => Direction::Left,
                _ => Direction::Right,
            };
            proof {
                assert(dir_order()[i as int] == d);
            }
            if self.is_legal(d) {
                let ghost pre = dirs@;
                dirs.push(d);
                proof {
                    assert(dirs@ + legal_from(b, i as int + 1)
                        =~= pre + (seq![d] + legal_from(b, i as int + 1)));
                }
            }
            i += 1;
        }
        proof {
            assert(legal_from(b, 4) =~= Seq::<Direction>::empty());
            assert(dirs@ + Seq::<Direction>::empty() =~= dirs@);
        }
        dirs
    }

    /// Whether the game is over: no direction changes the board.
    pub fn is_terminal(&self) -> (t: bool)
        requires
            self.wf(),
        ensures
            t == spec_terminal(self@),
    {
        let dirs = self.legal_moves();
        dirs.len() == 0
    }

    /// The largest cell value on the board.
    pub fn max_value(&self) -> (m: u32)
        requires
            self.wf(),
        ensures
            m as int == spec_max_value(self@),
    {
        let mut m: u32 = 0;
        let mut i: usize = 0;
        while i < 16
            invariant
                self.wf(),
                i <= 16,
                max2(m as int, max_from(self@, i as int)) == spec_max_value(self@),
            decreases 16 - i,
        {
            if self.cells[i] > m {
                m = self.cells[i];
            }
            i += 1;
        }
        proof {
            lemma_max_bounds(self@, 0);
        }
        m
    }

    /// The number of empty cells.
    pub fn empty_cells(&self) -> (n: u32)
        requires
            self.wf(),
        ensures
            n as int == spec_empty(self@),
            n <= 16,
    {
        let mut n: u32 = 0;
        let mut i: usize = 0;
        while i < 16
            invariant
                self.wf(),
                i <= 16,
                n <= i,
                n + empty_from(self@, i as int) == spec_empty(self@),
            decreases 16 - i,
        {
            if self.cells[i] == 0 {
                n = n + 1;
            }
            i += 1;
        }
        n
    }

    /// The adjacent-equal bonus: every cell adds its value once for an
    /// equal non-empty neighbour above and once for one to the left.
    pub fn adjacent_bonus(&self) -> (s: u64)
        requires
            self.wf(),
        ensures
            s as int == spec_adjacent(self@),
    {
        let ghost b = self@;
        let mut s: u64 = 0;
        let mut i: usize = 0;
        while i < 16
            invariant
                self.wf(),
                b == self@,
                i <= 16,
                s + adj_from(b, i as int) == spec_adjacent(b),
                s <= i * 2 * 0xffff_ffff,
            decreases 16 - i,
        {
            proof {
                lemma_adj_bounds(b, i as int);
            }
            let v = self.cells[i];
            if i >= 4 && self.cells[i - 4] == v && v != 0 {
                s = s + v as u64;
            }
            if i % 4 != 0 && self.cells[i - 1] == v && v != 0 {
                s = s + v as u64;
            }
            i += 1;
        }
        s
    }

    /// The roughness penalty: the sum of absolute differences between each
    /// cell and its neighbour above and its neighbour to the left.
    pub fn roughness(&self) -> (s: u64)
        requires
            self.wf(),
        ensures
            s as int == spec_rough(self@),
    {
        let ghost b = self@;
        let mut s: u64 = 0;
        let mut i: usize = 0;
        while i < 16
            invariant
                self.wf(),
                b == self@,
                i <= 16,
                s + rough_from(b, i as int) == spec_rough(b),
                s <= i * 2 * 0xffff_ffff,
            decreases 16 - i,
        {
            proof {
                lemma_rough_bounds(b, i as int);
            }
            let v = self.cells[i];
            if i >= 4 {
                let u = self.cells[i - 4];
                s = s + (if v >= u { v - u } else { u - v }) as u64;
            }
            if i % 4 != 0 {
                let u = self.cells[i - 1];
                s = s + (if v >= u { v - u } else { u - v }) as u64;
            }
            i += 1;
        }
        s
    }

    /// Adds one random tile (a 2, or a 4 one draw in ten) on a uniformly
    /// chosen empty cell; a board with no empty cell is returned unchanged.
    /// The drawn cell and value come from the process-local generator, so
    /// only what holds of every outcome is promised.
    pub fn spawn_random_tile(&self) -> (b: SlideBoard)
        requires
            self.wf(),
        ensures
            b.wf(),
            spec_empty(self@) == 0 ==> b@ == self@,
            spec_empty(self@) > 0 ==> exists|i: int|
                0 <= i < 16 && self@[i] == 0
                    && (b@ == self@.update(i, 2u32) || b@ == self@.update(i, 4u32)),
            spec_empty(self@) > 0 ==> spec_empty(b@) == spec_empty(self@) - 1,
    {
        let ghost b0 = self@;
        let n = self.empty_cells();
        if n == 0 {
            return SlideBoard { cells: self.copy_cells() };
        }
        let r = crate::rng::random_below(n);
        let v: u32 = if crate::rng::random_below(10) == 0 { 4 } else { 2 };
        let mut i: usize = 0;
        let mut seen: u32 = 0;
        while i < 16
            invariant
                self.wf(),
                b0 == self@,
                i <= 16,
                n as int == spec_empty(b0),
                r < n,
                v == 2 || v == 4,
                seen as int == spec_empty(b0) - empty_from(b0, i as int),
                seen <= r,
            decreases 16 - i,
        {
            if self.cells[i] == 0 {
                if seen == r {
                    let mut cells = self.copy_cells();
                    cells.set(i, v);
                    proof {
                        assert(cells@ =~= b0.update(i as int, v));
                        lemma_empty_update(b0, i as int, v, 0);
                    }
                    return SlideBoard { cells };
                }
                seen = seen + 1;
            }
            i += 1;
        }
        proof {
            assert(empty_from(b0, 16) == 0);
            assert(seen as int == spec_empty(b0));
            assert(false);
        }
        unreached()
    }

    /// A fresh game start: two random tiles on an otherwise empty board.
    pub fn new_random() -> (b: SlideBoard)
        ensures
            b.wf(),
            spec_empty(b@) == 14,
            forall|i: int| 0 <= i < 16 ==> (#[trigger] b@[i]) == 0 || b@[i] == 2 || b@[i] == 4,
    {
        let b0 = SlideBoard::new();
        proof {
            lemma_empty_all_zero(b0@, 0);
        }
        let b1 = b0.spawn_random_tile();
        proof {
            let i = choose|i: int|
                0 <= i < 16 && b0@[i] == 0
                    && (b1@ == b0@.update(i, 2u32) || b1@ == b0@.update(i, 4u32));
            assert(forall|t: int| 0 <= t < 16 ==> (#[trigger] b1@[t]) == 0 || b1@[t] == 2 || b1@[t] == 4);
        }
        let b2 = b1.spawn_random_tile();
        proof {
            let i = choose|i: int|
                0 <= i < 16 && b1@[i] == 0
                    && (b2@ == b1@.update(i, 2u32) || b2@ == b1@.update(i, 4u32));
            assert(forall|t: int| 0 <= t < 16 ==> (#[trigger] b2@[t]) == 0 || b2@[t] == 2 || b2@[t] == 4);
        }
        b2
    }
}

} // verus!
