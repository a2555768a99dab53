use vstd::prelude::*;
use crate::direction::{Direction, opposite_of};
use crate::grid::{Position, on_board, stepped, in_bounds, step, contains_cell};

verus! {

/// Column shared by the cells of a freshly spawned snake.
pub const SNAKE_INITIAL_X: i32 = 4;

/// Row of the head of a freshly spawned snake.
pub const SNAKE_HEAD_INITIAL_Y: i32 = 4;

/// Row of the single segment of a freshly spawned snake.
pub const SNAKE_SEGMENT_INITIAL_Y: i32 = 5;

/// Row of the vacated tail cell recorded for a freshly spawned snake.
pub const SNAKE_INITIAL_LAST_TAIL_Y: i32 = 6;

/// Heading of a freshly spawned snake.
pub const SNAKE_HEAD_INITIAL_DIRECTION: Direction = Direction::Down;

/// The snake: its head, its body segments (index 0 is the oldest segment,
/// the one next to the head; the last one is the tail), its heading, and the
/// cell that the tail left on the latest move, where a new segment grows.
pub struct Snake {
    pub head: Position,
    pub segments: Vec<Position>,
    pub direction: Direction,
    pub last_tail_position: Position,
}

/// The mathematical value of a snake.
pub struct SnakeView {
    pub head: Position,
    pub segments: Seq<Position>,
    pub direction: Direction,
    pub last_tail_position: Position,
}

impl View for Snake {
    type V = SnakeView;

    open spec fn view(&self) -> SnakeView {
        SnakeView {
            head: self.head,
            segments: self.segments@,
            direction: self.direction,
            last_tail_position: self.last_tail_position,
        }
    }
}

impl SnakeView {
    /// Every occupied cell: the head, then the segments from head to tail.
    pub open spec fn cells(self) -> Seq<Position> {
        seq![self.head] + self.segments
    }

    /// At least one segment, every cell on the board, no cell occupied twice.
    pub open spec fn wf(self) -> bool {
        &&& self.segments.len() >= 1
        &&& forall|i: int| 0 <= i < self.cells().len() ==> on_board(#[trigger] self.cells()[i])
        &&& self.cells().no_duplicates()
    }
}

/// The spawn configuration: head (4, 4), one segment at (4, 5), heading
/// Down, vacated tail cell (4, 6).
pub open spec fn initial_view() -> SnakeView {
    SnakeView {
        head: Position { x: SNAKE_INITIAL_X, y: SNAKE_HEAD_INITIAL_Y },
        segments: seq![Position { x: SNAKE_INITIAL_X, y: SNAKE_SEGMENT_INITIAL_Y }],
        direction: SNAKE_HEAD_INITIAL_DIRECTION,
        last_tail_position: Position { x: SNAKE_INITIAL_X, y: SNAKE_INITIAL_LAST_TAIL_Y },
    }
}

/// The heading after a request: a reversal is ignored.
pub open spec fn latched(current: Direction, requested: Direction) -> Direction {
    if requested == opposite_of(current) {
        current
    } else {
        requested
    }
}

/// Effect of `set_heading`.
pub open spec fn set_heading_spec(s: SnakeView, requested: Direction) -> SnakeView {
    SnakeView { direction: latched(s.direction, requested), ..s }
}

/// Effect of `advance`: the head steps once; the segment next to the head
/// takes the old head cell, each other segment the cell of its neighbour
/// nearer the head; the old tail cell is recorded.
pub open spec fn advance_spec(s: SnakeView) -> SnakeView {
    SnakeView {
        head: stepped(s.head, s.direction),
        segments: seq![s.head] + s.segments.drop_last(),
        direction: s.direction,
        last_tail_position: s.segments.last(),
    }
}

/// Effect of `grow`: one segment appended at the recorded tail cell.
pub open spec fn grow_spec(s: SnakeView) -> SnakeView {
    SnakeView { segments: s.segments.push(s.last_tail_position), ..s }
}

/// Effect of `reset`: the spawn configuration, whatever came before.
pub open spec fn reset_spec(s: SnakeView) -> SnakeView {
    initial_view()
}

/// Collision of a new head cell: off the board, or on a body cell.
pub open spec fn collides(head: Position, body: Seq<Position>) -> bool {
    !on_board(head) || body.contains(head)
}

/// Wall and self collision test of a head cell against the body cells
/// that were occupied before the move.
pub fn detect_collision(head: Position, body: &Vec<Position>) -> (r: bool)
    ensures
        r == collides(head, body@),
{
    !in_bounds(head) || contains_cell(body, head)
}

impl Snake {
    /// A snake in its spawn configuration.
    pub fn new() -> (r: Snake)
        ensures
            r@ == initial_view(),
            r@.wf(),
    {
        let r = Snake {
            head: Position { x: SNAKE_INITIAL_X, y: SNAKE_HEAD_INITIAL_Y },
            segments: vec![Position { x: SNAKE_INITIAL_X, y: SNAKE_SEGMENT_INITIAL_Y }],
            direction: SNAKE_HEAD_INITIAL_DIRECTION,
            last_tail_position: Position { x: SNAKE_INITIAL_X, y: SNAKE_INITIAL_LAST_TAIL_Y },
        };
        proof {
            assert(r.segments@ =~= seq![Position { x: SNAKE_INITIAL_X, y: SNAKE_SEGMENT_INITIAL_Y }]);
            lemma_initial_wf();
        }
        r
    }

    /// Takes the requested heading unless it reverses the current one.
    pub fn set_heading(&mut self, requested: Direction)
        ensures
            final(self)@ == set_heading_spec(old(self)@, requested),
    {
        if requested.opposite() != self.direction {
            self.direction = requested;
        } else {
            proof {
                assert(opposite_of(opposite_of(requested)) == requested);
            }
        }
    }

    /// Moves the snake one cell and returns whether the new head collides
    /// with a wall or with a body cell occupied before the move.
    pub fn advance(&mut self) -> (collision: bool)
        requires
            old(self)@.wf(),
        ensures
            final(self)@ == advance_spec(old(self)@),
            collision == collides(final(self)@.head, old(self)@.segments),
    {
        proof {
            assert(old(self)@.cells()[0] == old(self)@.head);
        }
        let last_head = self.head;
        let new_head = step(self.head, self.direction);
        let collision = detect_collision(new_head, &self.segments);
        self.head = new_head;
        let n = self.segments.len();
        self.last_tail_position = self.segments[n - 1];
        let ghost before = self.segments@;
        let mut i: usize = n - 1;
        while i > 0
            invariant
                n == before.len(),
                n >= 1,
                0 <= i < n,
                self.segments@.len() == n,
                self.head == new_head,
                self.direction == old(self).direction,
                self.last_tail_position == before.last(),
                forall|j: int| 0 <= j <= i ==> self.segments@[j] == before[j],
                forall|j: int| i < j < n ==> self.segments@[j] == before[j - 1],
            decreases i,
        {
            let prev = self.segments[i - 1];
            self.segments.set(i, prev);
            i -= 1;
        }
        self.segments.set(0, last_head);
        proof {
            assert(self.segments@ =~= seq![last_head] + before.drop_last());
        }
        collision
    }

    /// Appends one segment at the cell the tail left on the latest move.
    pub fn grow(&mut self)
        ensures
            final(self)@ == grow_spec(old(self)@),
    {
        let p = self.last_tail_position;
        self.segments.push(p);
    }

    /// Restores the spawn configuration.
    pub fn reset(&mut self)
        ensures
            final(self)@ == reset_spec(old(self)@),
            final(self)@.wf(),
    {
        *self = Snake::new();
    }
}

/// The spawn configuration is well formed.
pub proof fn lemma_initial_wf()
    ensures
        initial_view().wf(),
{
    let c = initial_view().cells();
    assert(c =~= seq![initial_view().head, initial_view().segments[0]]);
}

/// Resetting twice leaves the snake as resetting once does.
pub proof fn lemma_reset_idempotent(s: SnakeView)
    ensures
        reset_spec(reset_spec(s)) == reset_spec(s),
{
}

/// A move without collision keeps the cells of a well-formed snake distinct
/// and on the board, and so does growing at the vacated tail cell afterwards.
pub proof fn lemma_advance_keeps_wf(s: SnakeView)
    requires
        s.wf(),
        !collides(stepped(s.head, s.direction), s.segments),
    ensures
        advance_spec(s).wf(),
        grow_spec(advance_spec(s)).wf(),
{
    let a = advance_spec(s);
    let old_cells = s.cells();
    let n = s.segments.len();
    assert(old_cells[0] == s.head);
    assert forall|k: int| 1 <= k < a.cells().len() implies a.cells()[k] == old_cells[k - 1] by {
        if k >= 2 {
            assert(a.cells()[k] == a.segments[k - 1]);
            assert(a.segments[k - 1] == s.segments.drop_last()[k - 2]);
            assert(old_cells[k - 1] == s.segments[k - 2]);
        }
    }
    assert(a.cells()[0] == a.head);
    assert forall|k: int| 0 <= k < n implies s.segments[k] == old_cells[k + 1] by {}
    assert(a.head != s.head) by {
        match s.direction {
            Direction::Left => {},
            Direction::Right => {},
            Direction::Up => {},
            Direction::Down => {},
        }
    }
    assert forall|k: int| 1 <= k < a.cells().len() implies a.cells()[k] != a.head by {
        if k >= 2 {
            assert(s.segments[k - 2] == a.cells()[k]);
            if a.cells()[k] == a.head {
                assert(s.segments.contains(a.head));
            }
        }
    }
    assert(a.cells().no_duplicates());
    assert forall|i: int| 0 <= i < a.cells().len() implies on_board(#[trigger] a.cells()[i]) by {
        if i >= 1 {
            assert(on_board(old_cells[i - 1]));
        }
    }
    let g = grow_spec(a);
    assert(g.cells() =~= a.cells().push(s.segments.last()));
    assert(s.segments.last() == old_cells[n as int]);
    assert forall|k: int| 0 <= k < a.cells().len() implies a.cells()[k] != s.segments.last() by {
        if k == 0 {
            if a.head == s.segments.last() {
                assert(s.segments.contains(a.head));
            }
        } else {
            assert(a.cells()[k] == old_cells[k - 1]);
        }
    }
    assert forall|i: int| 0 <= i < g.cells().len() implies on_board(#[trigger] g.cells()[i]) by {
        if i < a.cells().len() {
            assert(g.cells()[i] == a.cells()[i]);
        } else {
            assert(on_board(old_cells[n as int]));
        }
    }
    assert(g.cells().no_duplicates()) by {
        assert forall|i: int, j: int| 0 <= i < g.cells().len() && 0 <= j < g.cells().len() && i != j
            implies g.cells()[i] != g.cells()[j] by {
            if i < a.cells().len() && j < a.cells().len() {
                assert(g.cells()[i] == a.cells()[i]);
                assert(g.cells()[j] == a.cells()[j]);
            }
        }
    }
}

} // verus!
