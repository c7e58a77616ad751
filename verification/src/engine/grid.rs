use vstd::prelude::*;

use crate::engine::direction::Direction;
use crate::engine::grid_cell::GridCell;
use crate::engine::grid_position::{GridPosition, CELL_COUNT, GRID_SIZE};
use crate::engine::player_id::PlayerId;
use crate::engine::{GameOver, NextFrameResult};

verus! {

/// The playing field: one cell per position, in row-major order.
#[derive(Debug, Clone, PartialEq, Eq, Hash)]
pub struct Grid(pub Vec<GridCell>);

impl View for Grid {
    type V = Seq<GridCell>;

    open spec fn view(&self) -> Seq<GridCell> {
        self.0@
    }
}

/// Player O.
pub open spec fn player_o() -> PlayerId {
    PlayerId(true)
}

/// Player X.
pub open spec fn player_x() -> PlayerId {
    PlayerId(false)
}

/// Cell `i` of `s` holds the head of `p`.
pub open spec fn head_at(s: Seq<GridCell>, i: int, p: PlayerId) -> bool {
    0 <= i < s.len() && s[i].spec_is_players_head(p)
}

/// `s` holds exactly one head of `p`.
pub open spec fn unique_head(s: Seq<GridCell>, p: PlayerId) -> bool {
    exists|i: int|
        #![trigger head_at(s, i, p)]
        head_at(s, i, p) && forall|j: int| #![trigger head_at(s, j, p)] head_at(s, j, p) ==> j == i
}

/// The index of the head of `p` in `s` (meaningful where there is one).
pub open spec fn head_index(s: Seq<GridCell>, p: PlayerId) -> int {
    choose|i: int| head_at(s, i, p)
}

/// The position of the head of `p` in `s`.
pub open spec fn head_position(s: Seq<GridCell>, p: PlayerId) -> GridPosition {
    GridPosition(head_index(s, p) as usize)
}

/// The direction of the last move of `p` in `s`.
pub open spec fn head_direction(s: Seq<GridCell>, p: PlayerId) -> Direction {
    match s[head_index(s, p)] {
        GridCell::Head(_, d) => d,
        _ => Direction::PositiveX,
    }
}

/// A well-formed field: one cell per position and exactly one head for each
/// player.
pub open spec fn cells_wf(s: Seq<GridCell>) -> bool {
    &&& s.len() == CELL_COUNT
    &&& unique_head(s, player_o())
    &&& unique_head(s, player_x())
}

/// The cell at `q` is occupied (a step onto it crashes).
pub open spec fn occupied(s: Seq<GridCell>, q: GridPosition) -> bool {
    s[q.0 as int] != GridCell::Empty
}

/// How the game ends when O moves in direction `oc` and X in direction `xc`,
/// or `None` when both moves are safe and the game goes on.
pub open spec fn frame_verdict(s: Seq<GridCell>, oc: Direction, xc: Direction) -> Option<GameOver> {
    let next_o = head_position(s, player_o()).moved(oc);
    let next_x = head_position(s, player_x()).moved(xc);
    if next_o is None && next_x is None {
        Some(GameOver::Draw)
    } else if next_o is None {
        Some(GameOver::Winner { player_who_won: player_x() })
    } else if next_x is None {
        Some(GameOver::Winner { player_who_won: player_o() })
    } else if next_o == next_x {
        Some(GameOver::Draw)
    } else if occupied(s, next_o.unwrap()) && occupied(s, next_x.unwrap()) {
        Some(GameOver::Draw)
    } else if occupied(s, next_o.unwrap()) {
        Some(GameOver::Winner { player_who_won: player_x() })
    } else if occupied(s, next_x.unwrap()) {
        Some(GameOver::Winner { player_who_won: player_o() })
    } else {
        None
    }
}

/// The field after O moved in direction `oc` and X in direction `xc` in frame
/// `frame`: each old head becomes a tail, each new cell a head.
pub open spec fn advanced(s: Seq<GridCell>, oc: Direction, xc: Direction, frame: usize) -> Seq<GridCell> {
    let o = head_position(s, player_o());
    let x = head_position(s, player_x());
    let next_o = o.moved(oc).unwrap();
    let next_x = x.moved(xc).unwrap();
    s.update(o.0 as int, GridCell::Tail(player_o(), oc, frame)).update(
        x.0 as int,
        GridCell::Tail(player_x(), xc, frame),
    ).update(next_o.0 as int, GridCell::Head(player_o(), oc)).update(
        next_x.0 as int,
        GridCell::Head(player_x(), xc),
    )
}

/// The number of empty cells of `s`.
pub open spec fn count_empty(s: Seq<GridCell>) -> nat
    decreases s.len(),
{
    if s.len() == 0 {
        0
    } else {
        count_empty(s.drop_last()) + if s.last() == GridCell::Empty {
            1nat
        } else {
            0nat
        }
    }
}

/// The starting field: O at column 9 and X at column 11 of row 10, looking
/// away from each other.
pub open spec fn starting_cells() -> Seq<GridCell> {
    Seq::new(CELL_COUNT as nat, |i: int| GridCell::Empty).update(
        219,
        GridCell::Head(player_o(), Direction::NegativeX),
    ).update(221, GridCell::Head(player_x(), Direction::PositiveX))
}

/// In a well-formed field the head of each player is where `head_index`
/// says, and nowhere else.
pub proof fn lemma_head_index(s: Seq<GridCell>, p: PlayerId)
    requires
        cells_wf(s),
    ensures
        head_at(s, head_index(s, p), p),
        forall|j: int| #![trigger head_at(s, j, p)] head_at(s, j, p) ==> j == head_index(s, p),
        head_position(s, p).valid(),
        s[head_index(s, p)] == GridCell::Head(p, head_direction(s, p)),
{
    if p.0 {
        assert(p == player_o());
    } else {
        assert(p == player_x());
    }
    let i = choose|i: int|
        #![trigger head_at(s, i, p)]
        head_at(s, i, p) && forall|j: int| #![trigger head_at(s, j, p)] head_at(s, j, p) ==> j == i;
    assert(head_at(s, head_index(s, p), p));
}

/// The heads of the two players are at different cells.
pub proof fn lemma_heads_differ(s: Seq<GridCell>)
    requires
        cells_wf(s),
    ensures
        head_index(s, player_o()) != head_index(s, player_x()),
{
    lemma_head_index(s, player_o());
    lemma_head_index(s, player_x());
}

/// Writing `c` at index `i` changes the number of empty cells by what `c`
/// and the old cell contribute.
pub proof fn lemma_count_empty_update(s: Seq<GridCell>, i: int, c: GridCell)
    requires
        0 <= i < s.len(),
    ensures
        count_empty(s.update(i, c)) + (if s[i] == GridCell::Empty {
            1int
        } else {
            0int
        }) == count_empty(s) + (if c == GridCell::Empty {
            1int
        } else {
            0int
        }),
    decreases s.len(),
{
    let t = s.update(i, c);
    if i == s.len() - 1 {
        assert(t.drop_last() =~= s.drop_last());
    } else {
        assert(t.drop_last() =~= s.drop_last().update(i, c));
        lemma_count_empty_update(s.drop_last(), i, c);
    }
}

/// There are never more empty cells than cells.
pub proof fn lemma_count_empty_bound(s: Seq<GridCell>)
    ensures
        count_empty(s) <= s.len(),
    decreases s.len(),
{
    if s.len() > 0 {
        lemma_count_empty_bound(s.drop_last());
    }
}

/// A safe step keeps the field well-formed, puts each head on its new cell
/// with the chosen direction, and uses up exactly two empty cells.
pub proof fn lemma_advance_wf(s: Seq<GridCell>, oc: Direction, xc: Direction, frame: usize)
    requires
        cells_wf(s),
        frame_verdict(s, oc, xc) is None,
    ensures
        cells_wf(advanced(s, oc, xc, frame)),
        head_position(advanced(s, oc, xc, frame), player_o()) == head_position(s, player_o()).moved(
            oc,
        ).unwrap(),
        head_position(advanced(s, oc, xc, frame), player_x()) == head_position(s, player_x()).moved(
            xc,
        ).unwrap(),
        head_direction(advanced(s, oc, xc, frame), player_o()) == oc,
        head_direction(advanced(s, oc, xc, frame), player_x()) == xc,
        count_empty(advanced(s, oc, xc, frame)) + 2 == count_empty(s),
{
    lemma_head_index(s, player_o());
    lemma_head_index(s, player_x());
    let o = head_position(s, player_o());
    let x = head_position(s, player_x());
    let no = o.moved(oc).unwrap();
    let nx = x.moved(xc).unwrap();
    let s1 = s.update(o.0 as int, GridCell::Tail(player_o(), oc, frame));
    let s2 = s1.update(x.0 as int, GridCell::Tail(player_x(), xc, frame));
    let s3 = s2.update(no.0 as int, GridCell::Head(player_o(), oc));
    let s4 = s3.update(nx.0 as int, GridCell::Head(player_x(), xc));
    assert(s4 == advanced(s, oc, xc, frame));
    // the new cells were empty, hence neither is an old head
    assert(s[no.0 as int] == GridCell::Empty);
    assert(s[nx.0 as int] == GridCell::Empty);
    assert(no.0 != o.0 && no.0 != x.0 && nx.0 != o.0 && nx.0 != x.0);
    assert(head_at(s4, no.0 as int, player_o()));
    assert(head_at(s4, nx.0 as int, player_x()));
    assert forall|j: int| #![trigger head_at(s4, j, player_o())] head_at(s4, j, player_o()) implies j
        == no.0 as int by {
        if j != no.0 as int {
            assert(head_at(s, j, player_o()));
        }
    }
    assert forall|j: int| #![trigger head_at(s4, j, player_x())] head_at(s4, j, player_x()) implies j
        == nx.0 as int by {
        if j != nx.0 as int {
            assert(head_at(s, j, player_x()));
        }
    }
    assert(cells_wf(s4));
    lemma_head_index(s4, player_o());
    lemma_head_index(s4, player_x());
    lemma_count_empty_update(s, o.0 as int, GridCell::Tail(player_o(), oc, frame));
    lemma_count_empty_update(s1, x.0 as int, GridCell::Tail(player_x(), xc, frame));
    lemma_count_empty_update(s2, no.0 as int, GridCell::Head(player_o(), oc));
    lemma_count_empty_update(s3, nx.0 as int, GridCell::Head(player_x(), xc));
}

impl Grid {
    /// The grid is well-formed (see `cells_wf`).
    pub open spec fn wf(self) -> bool {
        cells_wf(self@)
    }

    /// The starting field: O at (9, 10) moving left, X at (11, 10) moving
    /// right, every other cell empty.
    pub fn new_default() -> (r: Self)
        ensures
            r@ == starting_cells(),
            r.wf(),
            head_position(r@, player_o()) == GridPosition(219),
            head_position(r@, player_x()) == GridPosition(221),
    {
        let mut cells: Vec<GridCell> = Vec::new();
        let mut k: usize = 0;
        while k < CELL_COUNT
            invariant
                k <= CELL_COUNT,
                cells@ == Seq::new(k as nat, |i: int| GridCell::Empty),
            decreases CELL_COUNT - k,
        {
            cells.push(GridCell::Empty);
            k = k + 1;
            assert(cells@ =~= Seq::new(k as nat, |i: int| GridCell::Empty));
        }
        let mut out = Grid(cells);
        let o_pos = GridPosition::new(9, 10).unwrap();
        let x_pos = GridPosition::new(11, 10).unwrap();
        *out.get_cell_mut(o_pos) = GridCell::Head(PlayerId::new_o(), Direction::NegativeX);
        *out.get_cell_mut(x_pos) = GridCell::Head(PlayerId::new_x(), Direction::PositiveX);
        proof {
            let s = out@;
            assert(s =~= starting_cells());
            assert(head_at(s, 219, player_o()));
            assert(head_at(s, 221, player_x()));
            assert forall|j: int| #![trigger head_at(s, j, player_o())] head_at(s, j, player_o()) implies j
                == 219 by {}
            assert forall|j: int| #![trigger head_at(s, j, player_x())] head_at(s, j, player_x()) implies j
                == 221 by {}
            assert(cells_wf(s));
            lemma_head_index(s, player_o());
            lemma_head_index(s, player_x());
        }
        out
    }

    /// A copy of the grid.
    pub fn duplicate(&self) -> (r: Self)
        ensures
            r@ == self@,
    {
        let mut cells: Vec<GridCell> = Vec::new();
        let mut k: usize = 0;
        while k < self.0.len()
            invariant
                k <= self@.len(),
                cells@ == self@.subrange(0, k as int),
            decreases self@.len() - k,
        {
            cells.push(self.0[k]);
            k = k + 1;
            assert(cells@ =~= self@.subrange(0, k as int));
        }
        assert(cells@ =~= self@);
        Grid(cells)
    }

    /// The outcome of one frame in which O moves in direction `o_choice` and
    /// X in direction `x_choice`. A player loses by leaving the field or by
    /// moving onto an occupied cell; the game is a draw when both do, or
    /// when both move onto the same cell. Otherwise the next frame is
    /// returned, in which each old head became a tail stamped with
    /// `next_frame`.
    pub fn next_grid(&self, o_choice: Direction, x_choice: Direction, next_frame: usize) -> (r:
        NextFrameResult)
        requires
            self.wf(),
        ensures
            r.verdict() == frame_verdict(self@, o_choice, x_choice),
            r matches NextFrameResult::NextFrame(g) ==> g@ == advanced(
                self@,
                o_choice,
                x_choice,
                next_frame,
            ) && g.wf(),
    {
        let (o_pos, x_pos) = self.player_head_positions();

        let next_o_pos = o_pos.after_moved(o_choice);
        let next_x_pos = x_pos.after_moved(x_choice);

        if next_o_pos.is_none() && next_x_pos.is_none() {
            return NextFrameResult::Draw;
        };

        let next_o_pos = match next_o_pos {
            Some(p) => p,
            None => {
                return NextFrameResult::Winner { player_who_won: PlayerId::new_x() };
            },
        };
        let next_x_pos = match next_x_pos {
            Some(p) => p,
            None => {
                return NextFrameResult::Winner { player_who_won: PlayerId::new_o() };
            },
        };

        if next_o_pos == next_x_pos {
            return NextFrameResult::Draw;
        };

        let next_o_cell = self.get_cell(next_o_pos);
        let next_x_cell = self.get_cell(next_x_pos);

        let o_blocked = next_o_cell.is_not_empty();
        let x_blocked = next_x_cell.is_not_empty();

        if o_blocked && x_blocked {
            return NextFrameResult::Draw;
        } else if o_blocked {
            return NextFrameResult::Winner { player_who_won: PlayerId::new_x() };
        } else if x_blocked {
            return NextFrameResult::Winner { player_who_won: PlayerId::new_o() };
        };

        proof {
            lemma_advance_wf(self@, o_choice, x_choice, next_frame);
        }
        let mut out = self.duplicate();
        *out.get_cell_mut(o_pos) = GridCell::Tail(PlayerId::new_o(), o_choice, next_frame);
        *out.get_cell_mut(x_pos) = GridCell::Tail(PlayerId::new_x(), x_choice, next_frame);
        *out.get_cell_mut(next_o_pos) = GridCell::Head(PlayerId::new_o(), o_choice);
        *out.get_cell_mut(next_x_pos) = GridCell::Head(PlayerId::new_x(), x_choice);

        NextFrameResult::NextFrame(out)
    }

    /// A mutable reference to the cell at `pos`.
    pub fn get_cell_mut(&mut self, pos: GridPosition) -> (r: &mut GridCell)
        requires
            pos.0 < old(self)@.len(),
        ensures
            *r == old(self)@[pos.0 as int],
            final(self)@ == old(self)@.update(pos.0 as int, *final(r)),
    {
        &mut self.0[pos.i()]
    }

    /// A mutable reference to the cell at column `pos.0` and row `pos.1`, or
    /// `None` where that is off the field.
    pub fn try_get_cell_mut(&mut self, pos: (usize, usize)) -> (r: Option<&mut GridCell>)
        requires
            old(self).wf(),
        ensures
            r is Some <==> (pos.0 < GRID_SIZE && pos.1 < GRID_SIZE),
            r matches Some(c) ==> *c == old(self)@[pos.0 + pos.1 * 21] && final(self)@ == old(
                self,
            )@.update(pos.0 + pos.1 * 21, *final(c)),
            r is None ==> final(self)@ == old(self)@,
    {
        match GridPosition::new(pos.0, pos.1) {
            Some(p) => {
                assert(p.0 == pos.0 + pos.1 * 21);
                Some(self.get_cell_mut(p))
            },
            None => None,
        }
    }

    /// The cell at `pos`.
    pub fn get_cell(&self, pos: GridPosition) -> (r: &GridCell)
        requires
            pos.0 < self@.len(),
        ensures
            *r == self@[pos.0 as int],
    {
        &self.0[pos.i()]
    }

    /// The cell at column `pos.0` and row `pos.1`, or `None` where that is off
    /// the field.
    pub fn try_get_cell(&self, pos: (usize, usize)) -> (r: Option<&GridCell>)
        requires
            self.wf(),
        ensures
            r is Some <==> (pos.0 < GRID_SIZE && pos.1 < GRID_SIZE),
            r matches Some(c) ==> *c == self@[pos.0 + pos.1 * 21],
    {
        match GridPosition::new(pos.0, pos.1) {
            Some(p) => {
                assert(p.0 == pos.0 + pos.1 * 21);
                Some(self.get_cell(p))
            },
            None => None,
        }
    }

    /// Every head on the field with its position, in row-major order.
    pub fn head_positions_map(&self) -> (r: Vec<(PlayerId, GridPosition)>)
        requires
            self.wf(),
        ensures
            r@.len() == 2,
            r@.contains((player_o(), head_position(self@, player_o()))),
            r@.contains((player_x(), head_position(self@, player_x()))),
    {
        let mut r: Vec<(PlayerId, GridPosition)> = Vec::new();
        let mut k: usize = 0;
        proof {
            lemma_head_index(self@, player_o());
            lemma_head_index(self@, player_x());
        }
        while k < CELL_COUNT
            invariant
                self.wf(),
                k <= CELL_COUNT,
                forall|e: (PlayerId, GridPosition)|
                    r@.contains(e) <==> (0 <= e.1.0 < k && head_at(self@, e.1.0 as int, e.0)),
                r@.len() == (if head_index(self@, player_o()) < k {
                    1int
                } else {
                    0int
                }) + (if head_index(self@, player_x()) < k {
                    1int
                } else {
                    0int
                }),
            decreases CELL_COUNT - k,
        {
            proof {
                lemma_head_index(self@, player_o());
                lemma_head_index(self@, player_x());
            }
            broadcast use vstd::seq_lib::group_seq_properties;
            if let GridCell::Head(player_id, _) = self.0[k] {
                r.push((player_id, GridPosition(k)));
                proof {
                    assert(head_at(self@, k as int, player_id));
                    if player_id.0 {
                        assert(player_id == player_o());
                        assert(k as int == head_index(self@, player_o()));
                    } else {
                        assert(player_id == player_x());
                        assert(k as int == head_index(self@, player_x()));
                    }
                }
            }
            k = k + 1;
        }
        proof {
            lemma_head_index(self@, player_o());
            lemma_head_index(self@, player_x());
            assert(head_at(self@, head_position(self@, player_o()).0 as int, player_o()));
            assert(head_at(self@, head_position(self@, player_x()).0 as int, player_x()));
        }
        r
    }

    /// (Player O's head position, Player X's head position)
    pub fn player_head_positions(&self) -> (r: (GridPosition, GridPosition))
        requires
            self.wf(),
        ensures
            r.0 == head_position(self@, player_o()),
            r.1 == head_position(self@, player_x()),
            r.0.valid(),
            r.1.valid(),
    {
        (self.player_head_position(PlayerId::new_o()), self.player_head_position(PlayerId::new_x()))
    }

    /// [Player O's head position, Player X's head position]
    pub fn player_head_positions_slice(&self) -> (r: [GridPosition; 2])
        requires
            self.wf(),
        ensures
            r@ == seq![head_position(self@, player_o()), head_position(self@, player_x())],
    {
        let r = [
            self.player_head_position(PlayerId::new_o()),
            self.player_head_position(PlayerId::new_x()),
        ];
        assert(r@ =~= seq![head_position(self@, player_o()), head_position(self@, player_x())]);
        r
    }

    /// The position of the head of `id`.
    pub fn player_head_position(&self, id: PlayerId) -> (r: GridPosition)
        requires
            self.wf(),
        ensures
            r == head_position(self@, id),
            r.valid(),
            head_at(self@, r.0 as int, id),
    {
        proof {
            lemma_head_index(self@, id);
        }
        let mut k: usize = 0;
        while k < CELL_COUNT
            invariant
                self.wf(),
                k <= CELL_COUNT,
                head_index(self@, id) >= k,
                head_at(self@, head_index(self@, id), id),
            decreases CELL_COUNT - k,
        {
            if let GridCell::Head(player_id, _) = self.0[k] {
                if player_id == id {
                    proof {
                        lemma_head_index(self@, id);
                        assert(head_at(self@, k as int, id));
                    }
                    return GridPosition(k);
                }
            }
            k = k + 1;
        }
        proof {
            assert(false);
        }
        GridPosition(0)
    }

    /// The direction of the last move of `id`.
    pub fn player_head_direction(&self, id: PlayerId) -> (r: Direction)
        requires
            self.wf(),
        ensures
            r == head_direction(self@, id),
            self@[head_index(self@, id)] == GridCell::Head(id, r),
    {
        let pos = self.player_head_position(id);
        proof {
            lemma_head_index(self@, id);
        }
        match self.0[pos.i()] {
            GridCell::Head(_, d) => d,
            _ => {
                proof {
                    assert(false);
                }
                Direction::PositiveX
            },
        }
    }

    /// The cell at `pos` is empty.
    pub fn cell_is_empty(&self, pos: GridPosition) -> (r: bool)
        requires
            pos.0 < self@.len(),
        ensures
            r == !occupied(self@, pos),
    {
        self.get_cell(pos).is_empty()
    }

    /// The cell at `pos` is not empty.
    pub fn cell_is_not_empty(&self, pos: GridPosition) -> (r: bool)
        requires
            pos.0 < self@.len(),
        ensures
            r == occupied(self@, pos),
    {
        self.get_cell(pos).is_not_empty()
    }

    /// All cells, in row-major order.
    pub fn get_cells(&self) -> (r: &Vec<GridCell>)
        ensures
            r@ == self@,
    {
        &self.0
    }
}

impl GridPosition {
    /// The cell at this position is empty.
    pub fn is_empty(self, grid: &Grid) -> (r: bool)
        requires
            self.0 < grid@.len(),
        ensures
            r == !occupied(grid@, self),
    {
        grid.cell_is_empty(self)
    }

    /// The cell at this position is not empty.
    pub fn is_not_empty(self, grid: &Grid) -> (r: bool)
        requires
            self.0 < grid@.len(),
        ensures
            r == occupied(grid@, self),
    {
        grid.cell_is_not_empty(self)
    }

    /// Some cell one step away holds the head of `player`.
    pub fn borders_players_head(self, grid: &Grid, player: PlayerId) -> (r: bool)
        requires
            self.valid(),
            grid.wf(),
        ensures
            r == exists|q: GridPosition|
                #![trigger self.adjacent(q)]
                self.adjacent(q) && grid@[q.0 as int].spec_is_players_head(player),
    {
        let ns = self.neighbors();
        let mut k: usize = 0;
        while k < ns.len()
            invariant
                grid.wf(),
                self.valid(),
                k <= ns@.len(),
                forall|j: int| 0 <= j < ns@.len() ==> (#[trigger] ns@[j]).valid(),
                forall|q: GridPosition| ns@.contains(q) <==> self.adjacent(q),
                forall|j: int| 0 <= j < k ==> !grid@[ns@[j].0 as int].spec_is_players_head(player),
            decreases ns@.len() - k,
        {
            if grid.get_cell(ns[k]).is_players_head(player) {
                assert(ns@.contains(ns@[k as int]));
                assert(self.adjacent(ns@[k as int]));
                return true;
            }
            k = k + 1;
        }
        proof {
            assert forall|q: GridPosition| self.adjacent(q) implies !grid@[q.0 as int].spec_is_players_head(
                player,
            ) by {
                assert(ns@.contains(q));
                let j = choose|j: int| 0 <= j < ns@.len() && ns@[j] == q;
            }
        }
        false
    }
}

impl PlayerId {
    /// The position of this player's head.
    pub fn get_head_pos(&self, grid: &Grid) -> (r: GridPosition)
        requires
            grid.wf(),
        ensures
            r == head_position(grid@, *self),
            r.valid(),
    {
        grid.player_head_position(*self)
    }

    /// The direction of this player's last move.
    pub fn get_head_direction(&self, grid: &Grid) -> (r: Direction)
        requires
            grid.wf(),
        ensures
            r == head_direction(grid@, *self),
    {
        grid.player_head_direction(*self)
    }
}

/// The characters of the drawing of `s`: the rows from the top one (row 20)
/// down, each cell as a space and its mark, each row ended by a newline.
pub open spec fn drawing_char(s: Seq<GridCell>, k: int) -> char {
    let line = k / 43;
    let col = k % 43;
    if col == 42 {
        '\n'
    } else if col % 2 == 0 {
        ' '
    } else {
        s[(20 - line) * 21 + col / 2].spec_symbol()
    }
}

impl Grid {
    /// The drawing of the field, `drawing_char` for each of its 903
    /// characters.
    pub fn render(&self) -> (r: Vec<char>)
        requires
            self@.len() == CELL_COUNT,
        ensures
            r@.len() == 903,
            forall|k: int| 0 <= k < 903 ==> r@[k] == drawing_char(self@, k),
    {
        let mut r: Vec<char> = Vec::new();
        let mut k: usize = 0;
        while k < 903
            invariant
                self@.len() == CELL_COUNT,
                k <= 903,
                r@.len() == k,
                forall|j: int| 0 <= j < k ==> r@[j] == drawing_char(self@, j),
            decreases 903 - k,
        {
            let line = k / 43;
            let col = k % 43;
            if col == 42 {
                r.push('\n');
            } else if col % 2 == 0 {
                r.push(' ');
            } else {
                proof {
                    assert((20 - line) * 21 + col / 2 < 441) by (nonlinear_arith)
                        requires
                            line <= 20,
                            col < 42,
                    ;
                }
                let i = (20 - line) * GRID_SIZE + col / 2;
                r.push(self.0[i].symbol());
            }
            k = k + 1;
        }
        r
    }
}

} // verus!
