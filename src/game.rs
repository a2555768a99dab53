use vstd::prelude::*;
use crate::direction::Direction;
use crate::food::{without, is_free, board_full, check_eating, place_food};
use crate::grid::{Position, on_board, contains_cell, WIDTH_IN_TILE, HEIGHT_IN_TILE};
use crate::snake::{
    Snake, SnakeView, initial_view, set_heading_spec, advance_spec, grow_spec, collides,
    lemma_advance_keeps_wf,
};

verus! {

/// What a movement tick did, for the host to mirror in its visuals.
#[derive(PartialEq, Eq, Structural, Clone, Copy, Debug)]
pub enum TickOutcome {
    /// The snake moved.
    Moved,
    /// The snake moved, ate, and gained one segment at its old tail cell.
    Grew,
    /// The snake hit a wall or itself: the board was cleared and the snake respawned.
    Reset,
}

/// The whole simulation state: the snake and the food cells on the board.
pub struct Game {
    pub snake: Snake,
    pub food: Vec<Position>,
}

/// The mathematical value of a game.
pub struct GameView {
    pub snake: SnakeView,
    pub food: Seq<Position>,
}

impl View for Game {
    type V = GameView;

    open spec fn view(&self) -> GameView {
        GameView { snake: self.snake@, food: self.food@ }
    }
}

impl GameView {
    /// A well-formed snake; food cells on the board, distinct, and off the snake.
    pub open spec fn wf(self) -> bool {
        &&& self.snake.wf()
        &&& self.food.no_duplicates()
        &&& forall|i: int|
            0 <= i < self.food.len() ==> on_board(#[trigger] self.food[i])
                && !self.snake.cells().contains(self.food[i])
    }

    /// Every occupied cell: snake head, segments, then food.
    pub open spec fn occupied(self) -> Seq<Position> {
        self.snake.cells() + self.food
    }
}

/// The state right after start-up or after a game over: a fresh snake, no food.
pub open spec fn initial_game() -> GameView {
    GameView { snake: initial_view(), food: Seq::empty() }
}

/// The heading latched from the latest input sample, if any.
pub open spec fn steer(s: SnakeView, requested: Option<Direction>) -> SnakeView {
    match requested {
        Some(d) => set_heading_spec(s, d),
        None => s,
    }
}

/// One movement tick: latch the heading, move, eat, grow, then judge
/// collisions against the move; a collision clears the board and respawns.
pub open spec fn tick_spec(g: GameView, requested: Option<Direction>) -> (GameView, TickOutcome) {
    let steered = steer(g.snake, requested);
    let moved = advance_spec(steered);
    let ate = g.food.contains(moved.head);
    if collides(moved.head, steered.segments) {
        (initial_game(), TickOutcome::Reset)
    } else if ate {
        (GameView { snake: grow_spec(moved), food: without(g.food, moved.head) }, TickOutcome::Grew)
    } else {
        (GameView { snake: moved, food: g.food }, TickOutcome::Moved)
    }
}

impl Game {
    /// A game at start-up.
    pub fn new() -> (r: Game)
        ensures
            r@ == initial_game(),
            r@.wf(),
    {
        let r = Game { snake: Snake::new(), food: Vec::new() };
        proof {
            assert(r.food@ =~= Seq::<Position>::empty());
        }
        r
    }

    /// Runs one movement tick with the latest requested heading, if any.
    pub fn tick(&mut self, requested: Option<Direction>) -> (r: TickOutcome)
        requires
            old(self)@.wf(),
        ensures
            (final(self)@, r) == tick_spec(old(self)@, requested),
            final(self)@.wf(),
            r != TickOutcome::Reset ==> final(self)@.snake.cells().no_duplicates(),
            r != TickOutcome::Reset ==> final(self)@.snake.segments.len() == old(self)@.snake.segments.len()
                + if r == TickOutcome::Grew { 1int } else { 0int },
    {
        match requested {
            Some(d) => self.snake.set_heading(d),
            None => {},
        }
        let collision = self.snake.advance();
        let head = self.snake.head;
        let eaten = check_eating(head, &mut self.food);
        if eaten > 0 {
            self.snake.grow();
        }
        if collision {
            self.snake.reset();
            self.food = Vec::new();
            proof {
                assert(self.food@ =~= Seq::<Position>::empty());
                crate::snake::lemma_initial_wf();
            }
            return TickOutcome::Reset;
        }
        proof {
            lemma_tick_keeps_wf(old(self)@, requested);
            if eaten == 0 {
                lemma_without_absent(old(self).food@, head);
            }
        }
        if eaten > 0 {
            TickOutcome::Grew
        } else {
            TickOutcome::Moved
        }
    }

    /// Every occupied cell: snake head, segments, then food.
    pub fn occupied_cells(&self) -> (r: Vec<Position>)
        ensures
            r@ == self@.occupied(),
    {
        let mut r: Vec<Position> = Vec::new();
        r.push(self.snake.head);
        let mut i: usize = 0;
        while i < self.snake.segments.len()
            invariant
                0 <= i <= self.snake.segments@.len(),
                r@ == seq![self.snake.head] + self.snake.segments@.take(i as int),
            decreases self.snake.segments@.len() - i,
        {
            r.push(self.snake.segments[i]);
            proof {
                assert(self.snake.segments@.take(i as int + 1) =~= self.snake.segments@.take(i as int).push(self.snake.segments@[i as int]));
            }
            i += 1;
        }
        proof {
            assert(self.snake.segments@.take(i as int) =~= self.snake.segments@);
        }
        let mut j: usize = 0;
        while j < self.food.len()
            invariant
                0 <= j <= self.food@.len(),
                r@ == self@.snake.cells() + self.food@.take(j as int),
            decreases self.food@.len() - j,
        {
            r.push(self.food[j]);
            proof {
                assert(self.food@.take(j as int + 1) =~= self.food@.take(j as int).push(self.food@[j as int]));
                assert(r@ =~= self@.snake.cells() + self.food@.take(j as int + 1));
            }
            j += 1;
        }
        proof {
            assert(self.food@.take(j as int) =~= self.food@);
            assert(r@ =~= self@.occupied());
        }
        r
    }

    /// Puts food on `cell` when it is on the board and unoccupied; returns
    /// whether it did.
    pub fn spawn_food_at(&mut self, cell: Position) -> (r: bool)
        requires
            old(self)@.wf(),
        ensures
            final(self)@.wf(),
            r == is_free(cell, old(self)@.occupied()),
            final(self)@.snake == old(self)@.snake,
            final(self)@.food == if r { old(self)@.food.push(cell) } else { old(self)@.food },
    {
        let occupied = self.occupied_cells();
        if crate::grid::in_bounds(cell) && !contains_cell(&occupied, cell) {
            proof {
                lemma_push_free_keeps_wf(self@, cell);
            }
            self.food.push(cell);
            true
        } else {
            false
        }
    }

    /// The food-spawn tick: places one food on a random free cell, and
    /// returns it; `None`, with nothing changed, only when the board is full.
    pub fn spawn_food(&mut self) -> (r: Option<Position>)
        requires
            old(self)@.wf(),
        ensures
            final(self)@.wf(),
            final(self)@.snake == old(self)@.snake,
            r matches Some(c) ==> is_free(c, old(self)@.occupied())
                && final(self)@.food == old(self)@.food.push(c),
            r is None <==> board_full(old(self)@.occupied()),
            r is None ==> final(self)@.food == old(self)@.food,
            old(self)@.occupied().len() < WIDTH_IN_TILE * HEIGHT_IN_TILE ==> r is Some,
    {
        let occupied = self.occupied_cells();
        let r = place_food(&occupied);
        match r {
            Some(c) => {
                proof {
                    lemma_push_free_keeps_wf(self@, c);
                }
                self.food.push(c);
            },
            None => {},
        }
        r
    }
}

/// Every tick keeps the game well formed.
pub proof fn lemma_tick_keeps_wf(g: GameView, requested: Option<Direction>)
    requires
        g.wf(),
    ensures
        tick_spec(g, requested).0.wf(),
{
    let steered = steer(g.snake, requested);
    assert(steered.cells() == g.snake.cells());
    let moved = advance_spec(steered);
    let nh = moved.head;
    if collides(nh, steered.segments) {
        crate::snake::lemma_initial_wf();
    } else {
        lemma_advance_keeps_wf(steered);
        let old_cells = steered.cells();
        let n = steered.segments.len();
        assert forall|k: int| 1 <= k < moved.cells().len() implies moved.cells()[k] == old_cells[k - 1] by {
            if k >= 2 {
                assert(moved.cells()[k] == moved.segments[k - 1]);
            }
        }
        assert(old_cells[n as int] == steered.segments.last());
        let ate = g.food.contains(nh);
        let r = tick_spec(g, requested).0;
        let new_food = if ate { without(g.food, nh) } else { g.food };
        if ate {
            lemma_without_sub(g.food, nh);
        }
        assert(r.food == new_food);
        assert forall|i: int| 0 <= i < r.food.len() implies on_board(#[trigger] r.food[i])
            && !r.snake.cells().contains(r.food[i]) by {
            let f = r.food[i];
            assert(g.food.contains(f) && f != nh) by {
                assert(r.food.contains(f)) by {
                    assert(r.food[i] == f);
                }
                if !ate {
                    assert(g.food[i] == f);
                    assert(g.food.contains(g.food[i]));
                }
            }
            let j = choose|j: int| 0 <= j < g.food.len() && g.food[j] == f;
            assert(on_board(g.food[j]) && !old_cells.contains(g.food[j]));
            if r.snake.cells().contains(f) {
                let k = choose|k: int| 0 <= k < r.snake.cells().len() && r.snake.cells()[k] == f;
                if ate {
                    assert(r.snake.cells() =~= moved.cells().push(steered.segments.last()));
                    if k < moved.cells().len() {
                        assert(k >= 1);
                        assert(old_cells[k - 1] == f);
                    } else {
                        assert(old_cells[n as int] == f);
                    }
                } else {
                    assert(k >= 1);
                    assert(old_cells[k - 1] == f);
                }
                assert(old_cells.contains(f));
            }
        }
    }
}

/// Adding a free cell as food keeps the game well formed.
pub proof fn lemma_push_free_keeps_wf(g: GameView, c: Position)
    requires
        g.wf(),
        is_free(c, g.occupied()),
    ensures
        (GameView { food: g.food.push(c), ..g }).wf(),
{
    let f2 = g.food.push(c);
    let cells = g.snake.cells();
    assert forall|i: int| 0 <= i < g.food.len() implies g.occupied()[cells.len() + i] == g.food[i] by {}
    assert(!g.food.contains(c)) by {
        if g.food.contains(c) {
            let i = choose|i: int| 0 <= i < g.food.len() && g.food[i] == c;
            assert(g.occupied()[cells.len() + i] == c);
        }
    }
    assert(!cells.contains(c)) by {
        if cells.contains(c) {
            let k = choose|k: int| 0 <= k < cells.len() && cells[k] == c;
            assert(g.occupied()[k] == c);
        }
    }
    assert forall|i: int| 0 <= i < f2.len() implies on_board(#[trigger] f2[i]) && !cells.contains(f2[i]) by {
        if i < g.food.len() {
            assert(f2[i] == g.food[i]);
        }
    }
    assert(f2.no_duplicates()) by {
        assert forall|i: int, j: int| 0 <= i < f2.len() && 0 <= j < f2.len() && i != j implies f2[i] != f2[j] by {
            if i == g.food.len() {
                assert(g.food[j] == f2[j]);
            } else if j == g.food.len() {
                assert(g.food[i] == f2[i]);
            } else {
                assert(g.food[i] == f2[i]);
                assert(g.food[j] == f2[j]);
            }
        }
    }
}

/// The state after one movement tick per input, in order.
pub open spec fn run(g: GameView, inputs: Seq<Option<Direction>>) -> GameView
    decreases inputs.len(),
{
    if inputs.len() == 0 {
        g
    } else {
        tick_spec(run(g, inputs.drop_last()), inputs.last()).0
    }
}

/// No tick of the run ends in a collision.
pub open spec fn survives(g: GameView, inputs: Seq<Option<Direction>>) -> bool
    decreases inputs.len(),
{
    if inputs.len() == 0 {
        true
    } else {
        survives(g, inputs.drop_last())
            && tick_spec(run(g, inputs.drop_last()), inputs.last()).1 != TickOutcome::Reset
    }
}

/// Number of ticks of the run that consumed a growth signal.
pub open spec fn growths(g: GameView, inputs: Seq<Option<Direction>>) -> nat
    decreases inputs.len(),
{
    if inputs.len() == 0 {
        0
    } else {
        growths(g, inputs.drop_last()) + if tick_spec(run(g, inputs.drop_last()), inputs.last()).1
            == TickOutcome::Grew {
            1nat
        } else {
            0nat
        }
    }
}

/// Over a run of ticks without a collision, the snake stays well formed (its
/// cells distinct), its body never shrinks from one tick to the next, and it
/// ends exactly one segment longer per growth signal consumed.
pub proof fn lemma_run_growth(g: GameView, inputs: Seq<Option<Direction>>)
    requires
        g.wf(),
        survives(g, inputs),
    ensures
        run(g, inputs).wf(),
        run(g, inputs).snake.cells().no_duplicates(),
        run(g, inputs).snake.segments.len() == g.snake.segments.len() + growths(g, inputs),
        inputs.len() > 0 ==> run(g, inputs.drop_last()).snake.segments.len()
            <= run(g, inputs).snake.segments.len(),
    decreases inputs.len(),
{
    if inputs.len() > 0 {
        let before = run(g, inputs.drop_last());
        lemma_run_growth(g, inputs.drop_last());
        lemma_tick_keeps_wf(before, inputs.last());
    }
}

/// What remains after taking out a cell is drawn from the rest of the list,
/// and stays free of repeats.
pub proof fn lemma_without_sub(s: Seq<Position>, p: Position)
    ensures
        forall|x: Position| #[trigger] without(s, p).contains(x) ==> s.contains(x) && x != p,
        s.no_duplicates() ==> without(s, p).no_duplicates(),
    decreases s.len(),
{
    if s.len() > 0 {
        let d = s.drop_last();
        lemma_without_sub(d, p);
        let w = without(d, p);
        assert forall|x: Position| d.contains(x) implies s.contains(x) by {
            let k = choose|k: int| 0 <= k < d.len() && d[k] == x;
            assert(s[k] == x);
        }
        assert(s.contains(s.last())) by {
            assert(s[s.len() - 1] == s.last());
        }
        if s.last() != p {
            let w2 = w.push(s.last());
            assert(without(s, p) == w2);
            assert forall|x: Position| w2.contains(x) implies s.contains(x) && x != p by {
                let k = choose|k: int| 0 <= k < w2.len() && w2[k] == x;
                if k < w.len() {
                    assert(w[k] == x);
                    assert(w.contains(x));
                    assert(d.contains(x));
                }
            }
            if s.no_duplicates() {
                assert(d.no_duplicates()) by {
                    assert forall|i: int, j: int| 0 <= i < d.len() && 0 <= j < d.len() && i != j implies d[i] != d[j] by {
                        assert(s[i] == d[i] && s[j] == d[j]);
                    }
                }
                assert(!d.contains(s.last())) by {
                    if d.contains(s.last()) {
                        let k = choose|k: int| 0 <= k < d.len() && d[k] == s.last();
                        assert(s[k] == s[s.len() - 1]);
                    }
                }
                assert(!w.contains(s.last()));
                assert forall|i: int, j: int| 0 <= i < w2.len() && 0 <= j < w2.len() && i != j implies w2[i] != w2[j] by {
                    if i == w.len() {
                        assert(w2[j] == w[j]);
                    } else if j == w.len() {
                        assert(w2[i] == w[i]);
                    } else {
                        assert(w2[i] == w[i] && w2[j] == w[j]);
                    }
                }
            }
        } else {
            assert(without(s, p) == w);
            assert forall|x: Position| w.contains(x) implies s.contains(x) && x != p by {
                assert(d.contains(x));
            }
            if s.no_duplicates() {
                assert(d.no_duplicates()) by {
                    assert forall|i: int, j: int| 0 <= i < d.len() && 0 <= j < d.len() && i != j implies d[i] != d[j] by {
                        assert(s[i] == d[i] && s[j] == d[j]);
                    }
                }
            }
        }
    }
}

/// Taking out a cell that does not occur leaves the list as it was.
pub proof fn lemma_without_absent(s: Seq<Position>, p: Position)
    requires
        !s.contains(p),
    ensures
        without(s, p) == s,
    decreases s.len(),
{
    if s.len() > 0 {
        assert(!s.drop_last().contains(p)) by {
            if s.drop_last().contains(p) {
                let k = choose|k: int| 0 <= k < s.drop_last().len() && s.drop_last()[k] == p;
                assert(s[k] == p);
            }
        }
        lemma_without_absent(s.drop_last(), p);
        assert(s.drop_last().push(s.last()) =~= s);
    }
}

} // verus!
