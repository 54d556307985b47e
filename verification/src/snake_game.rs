//! The grid game.
//!
//! A snake moves over a walled grid, one cell at a time, and grows when it
//! eats an apple. The game ends when the snake runs into a wall or into
//! itself.

use crate::chance::random_below;
use std::collections::VecDeque;
use vstd::prelude::*;

verus! {

/// What a cell of the grid holds.
#[derive(Copy, Clone, PartialEq, Eq, Debug, Structural)]
pub enum CellKind {
    Empty,
    Apple,
    Snake,
    Wall,
    Crash,
}

/// A cell of the grid.
#[derive(Copy, Clone, PartialEq, Eq, Debug, Structural)]
pub struct Cell {
    pub kind: CellKind,
}

/// One of the four ways the snake can move.
#[derive(Copy, Clone, PartialEq, Eq, Debug, Structural)]
pub enum Direction {
    North,
    East,
    South,
    West,
}

/// A place on the grid, or a step from one place to another.
#[derive(Copy, Clone, PartialEq, Eq, Debug, Structural)]
pub struct GridPoint {
    pub x: i16,
    pub y: i16,
}

/// Where the apple lies.
#[derive(Copy, Clone, PartialEq, Eq, Debug, Structural)]
pub struct Apple {
    pub location: GridPoint,
}

/// Whether the game goes on.
#[derive(Copy, Clone, PartialEq, Eq, Debug, Structural)]
pub enum GameState {
    Running,
    GameOver,
}

/// What happened in a game, in the detail needed to play it back.
#[derive(Copy, Clone, PartialEq, Eq, Debug, Structural)]
pub enum PlaybackEvents {
    NewGame,
    NewAppleLocation(GridPoint),
    MoveSnake(Direction),
    GameOver,
}

/// Why a game could not be set up or go on: no free cell was found, in the
/// tries allowed, for the snake or for the apple.
#[derive(Copy, Clone, PartialEq, Eq, Debug, Structural)]
pub enum PlacementError {
    NoRoomForSnake,
    NoRoomForApple,
}

impl Default for GridPoint {
    fn default() -> (point: GridPoint)
        ensures
            point == (GridPoint { x: 0, y: 0 }),
    {
        GridPoint { x: 0, y: 0 }
    }
}

impl GridPoint {
    pub fn new(x: i16, y: i16) -> (point: GridPoint)
        ensures
            point == (GridPoint { x, y }),
    {
        Self { x, y }
    }

    /// The point reached from `self` by the step `other`.
    pub open spec fn plus(self, other: GridPoint) -> GridPoint {
        GridPoint { x: (self.x + other.x) as i16, y: (self.y + other.y) as i16 }
    }

    /// Whether the sum of the two points has coordinates of sixteen bits.
    pub open spec fn can_add(self, other: GridPoint) -> bool {
        &&& i16::MIN <= self.x + other.x <= i16::MAX
        &&& i16::MIN <= self.y + other.y <= i16::MAX
    }

    pub fn add(self, other: GridPoint) -> (sum: GridPoint)
        requires
            self.can_add(other),
        ensures
            sum == self.plus(other),
            sum.x == self.x + other.x,
            sum.y == self.y + other.y,
    {
        GridPoint { x: self.x + other.x, y: self.y + other.y }
    }

    pub fn is_zero(&self) -> (zero: bool)
        ensures
            zero == (self.x == 0 && self.y == 0),
    {
        self.x == 0 && self.y == 0
    }
}

impl Direction {
    /// The direction with an index: north, east, south, west.
    pub open spec fn at(i: int) -> Direction {
        if i == 0 {
            Direction::North
        } else if i == 1 {
            Direction::East
        } else if i == 2 {
            Direction::South
        } else {
            Direction::West
        }
    }

    /// The step a move in the direction makes: north is up the `y` axis.
    pub open spec fn offset(self) -> GridPoint {
        match self {
            Direction::North => GridPoint { x: 0, y: 1 },
            Direction::East => GridPoint { x: 1, y: 0 },
            Direction::South => GridPoint { x: 0, y: -1i16 },
            Direction::West => GridPoint { x: -1i16, y: 0 },
        }
    }

    /// North, east or south, drawn evenly. West is never drawn.
    pub fn random() -> (direction: Direction)
        ensures
            direction != Direction::West,
    {
        Self::from_index(random_below(3))
    }

    pub fn from_index(i: usize) -> (direction: Direction)
        requires
            i < 4,
        ensures
            direction == Self::at(i as int),
    {
        if i == 0 {
            Direction::North
        } else if i == 1 {
            Direction::East
        } else if i == 2 {
            Direction::South
        } else {
            Direction::West
        }
    }

    pub fn to_point(self) -> (step: GridPoint)
        ensures
            step == self.offset(),
    {
        match self {
            Direction::North => GridPoint { x: 0, y: 1 },
            Direction::East => GridPoint { x: 1, y: 0 },
            Direction::South => GridPoint { x: 0, y: -1 },
            Direction::West => GridPoint { x: -1, y: 0 },
        }
    }

    pub fn to_index(self) -> (i: usize)
        ensures
            i < 4,
            Self::at(i as int) == self,
    {
        match self {
            Direction::North => 0,
            Direction::East => 1,
            Direction::South => 2,
            Direction::West => 3,
        }
    }
}

/// The grid: forty cells wide, thirty high, walled all round.
#[derive(Debug)]
pub struct Grid {
    pub width: i16,
    pub height: i16,
    /// The cells, row by row from `y` = 0.
    pub cells: Vec<Cell>,
}

/// Whether a point lies on the grid.
pub open spec fn in_bounds(pt: GridPoint) -> bool {
    0 <= pt.x < Grid::WIDTH && 0 <= pt.y < Grid::HEIGHT
}

/// Whether a point lies on the rim of the grid.
pub open spec fn on_border(pt: GridPoint) -> bool {
    in_bounds(pt) && (pt.x == 0 || pt.y == 0 || pt.x == Grid::WIDTH - 1 || pt.y == Grid::HEIGHT - 1)
}

/// Whether a point lies on the grid and not on its rim.
pub open spec fn is_interior(pt: GridPoint) -> bool {
    0 < pt.x < Grid::WIDTH - 1 && 0 < pt.y < Grid::HEIGHT - 1
}

/// Whether a point is one that a random draw can give: it lies at least one
/// cell from the left and lower rim and two from the right and upper.
pub open spec fn can_be_drawn(pt: GridPoint) -> bool {
    1 <= pt.x < Grid::WIDTH - 2 && 1 <= pt.y < Grid::HEIGHT - 2
}

/// The position, in the list of cells, of the cell at a point; a point off
/// the grid stands for the first cell.
pub open spec fn slot(pt: GridPoint) -> int {
    if in_bounds(pt) {
        pt.y * Grid::WIDTH + pt.x
    } else {
        0
    }
}

/// What the cell at a point of a list of cells holds.
pub open spec fn kind_in(cells: Seq<Cell>, pt: GridPoint) -> CellKind {
    cells[slot(pt)].kind
}

/// Whether every cell on the rim holds a wall, or the crash of a snake that
/// ran into it.
pub open spec fn walled(cells: Seq<Cell>) -> bool {
    forall|pt: GridPoint|
        on_border(pt) ==> #[trigger] kind_in(cells, pt) == CellKind::Wall || kind_in(cells, pt)
            == CellKind::Crash
}

/// Whether the cells are those of a grid that was just set up: walls on the
/// rim, nothing inside.
pub open spec fn bare(cells: Seq<Cell>) -> bool {
    forall|pt: GridPoint|
        in_bounds(pt) ==> #[trigger] kind_in(cells, pt) == if on_border(pt) {
            CellKind::Wall
        } else {
            CellKind::Empty
        }
}

/// Putting a kind in the cell at a point of the grid changes what that
/// cell holds and no other.
pub proof fn lemma_put(cells: Seq<Cell>, at: GridPoint, kind: CellKind)
    requires
        cells.len() == Grid::WIDTH * Grid::HEIGHT,
        in_bounds(at),
    ensures
        forall|pt: GridPoint|
            in_bounds(pt) ==> #[trigger] kind_in(cells.update(slot(at), Cell { kind }), pt) == if pt
                == at {
                kind
            } else {
                kind_in(cells, pt)
            },
{
    assert forall|pt: GridPoint| in_bounds(pt) implies #[trigger] kind_in(
        cells.update(slot(at), Cell { kind }),
        pt,
    ) == if pt == at {
        kind
    } else {
        kind_in(cells, pt)
    } by {
        if pt != at {
            assert(slot(pt) != slot(at));
        }
    }
}

impl Grid {
    pub const WIDTH: i16 = 40;

    pub const HEIGHT: i16 = 30;

    /// The grid has its fixed size.
    pub open spec fn wf(&self) -> bool {
        &&& self.width == Grid::WIDTH
        &&& self.height == Grid::HEIGHT
        &&& self.cells.len() == Grid::WIDTH * Grid::HEIGHT
    }

    /// What the cell at a point holds.
    pub open spec fn kind_at(&self, pt: GridPoint) -> CellKind {
        kind_in(self.cells@, pt)
    }

    #[allow(clippy::new_without_default)]
    pub fn new() -> (grid: Grid)
        ensures
            grid.wf(),
            bare(grid.cells@),
    {
        let mut new_grid = Grid {
            width: Self::WIDTH,
            height: Self::HEIGHT,
            cells: Vec::with_capacity(1200),
        };
        let mut count: usize = 0;
        while count < 1200
            invariant
                count <= 1200,
                new_grid.cells.len() == count,
                new_grid.width == Grid::WIDTH,
                new_grid.height == Grid::HEIGHT,
            decreases 1200 - count,
        {
            new_grid.cells.push(Cell { kind: CellKind::Empty });
            count += 1;
        }
        new_grid.restart();
        new_grid
    }

    /// Sets the grid up anew: walls on the rim, nothing inside.
    pub fn restart(&mut self)
        requires
            old(self).wf(),
        ensures
            final(self).wf(),
            bare(final(self).cells@),
    {
        let mut x: i16 = 0;
        while x < Self::WIDTH
            invariant
                0 <= x <= Grid::WIDTH,
                self.wf(),
                forall|pt: GridPoint|
                    in_bounds(pt) && pt.x < x ==> #[trigger] kind_in(self.cells@, pt)
                        == CellKind::Empty,
            decreases Grid::WIDTH - x,
        {
            let mut y: i16 = 0;
            while y < Self::HEIGHT
                invariant
                    0 <= x < Grid::WIDTH,
                    0 <= y <= Grid::HEIGHT,
                    self.wf(),
                    forall|pt: GridPoint|
                        in_bounds(pt) && (pt.x < x || (pt.x == x && pt.y < y)) ==> #[trigger] kind_in(
                            self.cells@,
                            pt,
                        ) == CellKind::Empty,
                decreases Grid::HEIGHT - y,
            {
                proof {
                    lemma_put(self.cells@, GridPoint { x, y }, CellKind::Empty);
                }
                Self::set_cell(&mut self.cells, x, y, CellKind::Empty);
                y += 1;
            }
            x += 1;
        }
        let mut x: i16 = 0;
        while x < Self::WIDTH
            invariant
                0 <= x <= Grid::WIDTH,
                self.wf(),
                forall|pt: GridPoint|
                    in_bounds(pt) ==> #[trigger] kind_in(self.cells@, pt) == if pt.x < x && (pt.y
                        == 0 || pt.y == Grid::HEIGHT - 1) {
                        CellKind::Wall
                    } else {
                        CellKind::Empty
                    },
            decreases Grid::WIDTH - x,
        {
            proof {
                lemma_put(self.cells@, GridPoint { x, y: 0 }, CellKind::Wall);
            }
            Self::set_cell(&mut self.cells, x, 0, CellKind::Wall);
            proof {
                lemma_put(self.cells@, GridPoint { x, y: (Grid::HEIGHT - 1) as i16 }, CellKind::Wall);
            }
            Self::set_cell(&mut self.cells, x, Self::HEIGHT - 1, CellKind::Wall);
            x += 1;
        }
        let mut y: i16 = 0;
        while y < Self::HEIGHT
            invariant
                0 <= y <= Grid::HEIGHT,
                self.wf(),
                forall|pt: GridPoint|
                    in_bounds(pt) ==> #[trigger] kind_in(self.cells@, pt) == if pt.y == 0 || pt.y
                        == Grid::HEIGHT - 1 || (pt.y < y && (pt.x == 0 || pt.x == Grid::WIDTH - 1)) {
                        CellKind::Wall
                    } else {
                        CellKind::Empty
                    },
            decreases Grid::HEIGHT - y,
        {
            proof {
                lemma_put(self.cells@, GridPoint { x: 0, y }, CellKind::Wall);
            }
            Self::set_cell(&mut self.cells, 0, y, CellKind::Wall);
            proof {
                lemma_put(self.cells@, GridPoint { x: (Grid::WIDTH - 1) as i16, y }, CellKind::Wall);
            }
            Self::set_cell(&mut self.cells, Self::WIDTH - 1, y, CellKind::Wall);
            y += 1;
        }
    }

    /// Puts a kind in the cell at (`x`, `y`), if that is on the grid.
    fn set_cell(cells: &mut Vec<Cell>, x: i16, y: i16, kind: CellKind)
        requires
            old(cells).len() == Grid::WIDTH * Grid::HEIGHT,
        ensures
            final(cells).len() == old(cells).len(),
            in_bounds(GridPoint { x, y }) ==> final(cells)@ == old(cells)@.update(
                slot(GridPoint { x, y }),
                Cell { kind },
            ),
            !in_bounds(GridPoint { x, y }) ==> final(cells)@ == old(cells)@,
    {
        if x < 0 || y < 0 || x >= Self::WIDTH || y >= Self::HEIGHT {
            return ;
        }
        let i = y * Self::WIDTH + x;
        cells[i as usize] = Cell { kind };
    }

    pub fn is_in_bounds(&self, pt: GridPoint) -> (inside: bool)
        ensures
            inside == in_bounds(pt),
    {
        pt.x >= 0 && pt.y >= 0 && pt.x < Self::WIDTH && pt.y < Self::HEIGHT
    }

    /// The cell at a point; the first cell for a point off the grid.
    pub fn get_cell(&self, pt: GridPoint) -> (cell: &Cell)
        requires
            self.wf(),
        ensures
            *cell == self.cells[slot(pt)],
    {
        if !self.is_in_bounds(pt) {
            return &self.cells[0];
        }
        let i = pt.y * Self::WIDTH + pt.x;
        &self.cells[i as usize]
    }

    /// The cell at a point, to be changed; the first cell for a point off
    /// the grid.
    pub fn get_cell_mut(&mut self, pt: GridPoint) -> (cell: &mut Cell)
        requires
            old(self).wf(),
        ensures
            *cell == old(self).cells[slot(pt)],
            final(self).cells@ == old(self).cells@.update(slot(pt), *final(cell)),
            final(self).width == old(self).width,
            final(self).height == old(self).height,
    {
        if !self.is_in_bounds(pt) {
            return &mut self.cells[0];
        }
        let i = pt.y * Self::WIDTH + pt.x;
        &mut self.cells[i as usize]
    }

    /// A point drawn evenly among those that can be drawn.
    pub fn rand_point(&self) -> (pt: GridPoint)
        requires
            self.wf(),
        ensures
            can_be_drawn(pt),
    {
        let x = random_below((self.width - 3) as usize);
        let y = random_below((self.height - 3) as usize);
        GridPoint { x: (x + 1) as i16, y: (y + 1) as i16 }
    }

    /// An empty cell for the apple, drawn at random; none if ten thousand
    /// draws found none, as where no cell that can be drawn is empty. Where
    /// every cell that can be drawn is empty, the first draw finds one.
    pub fn new_viable_apple_location(&self) -> (found: Option<GridPoint>)
        requires
            self.wf(),
        ensures
            found matches Some(pt) ==> can_be_drawn(pt) && self.kind_at(pt) == CellKind::Empty,
            (forall|pt: GridPoint| can_be_drawn(pt) ==> #[trigger] self.kind_at(pt) != CellKind::Empty)
                ==> found is None,
            (forall|pt: GridPoint| can_be_drawn(pt) ==> #[trigger] self.kind_at(pt) == CellKind::Empty)
                ==> found is Some,
    {
        let mut tries: usize = 0;
        while tries < 10000
            invariant
                tries <= 10000,
                self.wf(),
                tries > 0 ==> exists|pt: GridPoint|
                    can_be_drawn(pt) && #[trigger] self.kind_at(pt) != CellKind::Empty,
            decreases 10000 - tries,
        {
            let loc = self.rand_point();
            if self.get_cell(loc).kind == CellKind::Empty {
                return Some(loc);
            }
            assert(can_be_drawn(loc) && self.kind_at(loc) != CellKind::Empty);
            tries += 1;
        }
        None
    }
}

/// The snake: the cells it lies on, head first, and how many cells it has
/// yet to grow.
#[derive(Debug)]
pub struct Snake {
    pub head_location: GridPoint,
    pub locations: VecDeque<GridPoint>,
    pub to_grow: usize,
}

impl Snake {
    /// A snake of two cells on the grid, unless no room was found.
    pub fn new(grid: &mut Grid) -> (made: Result<Snake, PlacementError>)
        requires
            old(grid).wf(),
            walled(old(grid).cells@),
        ensures
            final(grid).wf(),
            match made {
                Ok(snake) => snake.just_placed(old(grid).cells@, final(grid).cells@),
                Err(e) => e == PlacementError::NoRoomForSnake && final(grid).cells@ == old(grid).cells@,
            },
    {
        let locations = VecDeque::<GridPoint>::with_capacity(1200);
        let mut new_snake = Snake { head_location: GridPoint::default(), locations, to_grow: 0 };
        match new_snake.restart(grid) {
            Ok(()) => Ok(new_snake),
            Err(e) => Err(e),
        }
    }

    /// Whether the snake was just put on the grid: it lies on two cells
    /// next to each other, both inside the grid and empty before, and has
    /// nothing to grow; the two cells now hold the snake and no other cell
    /// has changed.
    pub open spec fn just_placed(&self, before: Seq<Cell>, after: Seq<Cell>) -> bool {
        let head = self.head_location;
        &&& self.locations@.len() == 2
        &&& self.locations@[0] == head
        &&& self.to_grow == 0
        &&& is_interior(head)
        &&& is_interior(self.locations@[1])
        &&& kind_in(before, head) == CellKind::Empty
        &&& kind_in(before, self.locations@[1]) == CellKind::Empty
        &&& exists|direction: Direction|
            direction != Direction::West && head == self.locations@[1].plus(
                #[trigger] direction.offset(),
            )
        &&& after == before.update(slot(head), Cell { kind: CellKind::Snake }).update(
            slot(self.locations@[1]),
            Cell { kind: CellKind::Snake },
        )
    }

    /// Puts the snake on the grid anew, on two empty cells drawn at random,
    /// unless a thousand tries found no room. Where the cells that can be
    /// drawn hold nothing empty, no room is found.
    pub fn restart(&mut self, grid: &mut Grid) -> (placed: Result<(), PlacementError>)
        requires
            old(grid).wf(),
            walled(old(grid).cells@),
        ensures
            final(grid).wf(),
            placed is Ok ==> final(self).just_placed(old(grid).cells@, final(grid).cells@),
            placed matches Err(e) ==> e == PlacementError::NoRoomForSnake && final(grid).cells@
                == old(grid).cells@ && final(self).locations@.len() == 0 && final(self).to_grow
                == 0,
            (forall|pt: GridPoint|
                can_be_drawn(pt) ==> #[trigger] kind_in(old(grid).cells@, pt) != CellKind::Empty)
                ==> placed is Err,
    {
        self.locations.clear();
        self.to_grow = 0;
        let mut tries: usize = 0;
        while tries < 1000
            invariant
                tries <= 1000,
                grid.wf(),
                walled(grid.cells@),
                grid.cells@ == old(grid).cells@,
                self.locations@.len() == 0,
                self.to_grow == 0,
            decreases 1000 - tries,
        {
            tries += 1;
            let tail = grid.rand_point();
            if grid.get_cell(tail).kind != CellKind::Empty {
                continue ;
            }
            let dir = Direction::random();
            let offset = dir.to_point();
            let head = tail.add(offset);
            if grid.get_cell(head).kind != CellKind::Empty {
                continue ;
            }
            proof {
                if on_border(head) {
                    assert(kind_in(grid.cells@, head) == CellKind::Wall || kind_in(
                        grid.cells@,
                        head,
                    ) == CellKind::Crash);
                }
                assert(dir.offset() == offset);
                assert(can_be_drawn(tail) && kind_in(old(grid).cells@, tail) == CellKind::Empty);
            }
            grid.get_cell_mut(head).kind = CellKind::Snake;
            grid.get_cell_mut(tail).kind = CellKind::Snake;
            self.locations.push_front(tail);
            self.locations.push_front(head);
            self.head_location = head;
            return Ok(());
        }
        Err(PlacementError::NoRoomForSnake)
    }

    pub fn length(&self) -> (n: usize)
        ensures
            n == self.locations@.len(),
    {
        self.locations.len()
    }
}

/// A game of snake.
#[derive(Debug)]
pub struct SnakeGame {
    pub grid: Grid,
    pub snake: Snake,
    pub apple: Apple,
    pub apples_eaten: usize,
    pub state: GameState,
    pub playback_events: Vec<PlaybackEvents>,
    /// For every cell, whether the head was on it since the marks were
    /// cleared.
    pub visited_vector: Vec<bool>,
    /// How often the head came to a cell without a mark.
    pub points_visited: usize,
}

/// A game as a mathematical value.
pub struct GameView {
    pub cells: Seq<Cell>,
    pub head: GridPoint,
    pub locations: Seq<GridPoint>,
    pub to_grow: nat,
    pub apple: GridPoint,
    pub apples_eaten: nat,
    pub state: GameState,
    pub playback_events: Seq<PlaybackEvents>,
    pub visited: Seq<bool>,
    pub points_visited: nat,
}

impl View for SnakeGame {
    type V = GameView;

    open spec fn view(&self) -> GameView {
        GameView {
            cells: self.grid.cells@,
            head: self.snake.head_location,
            locations: self.snake.locations@,
            to_grow: self.snake.to_grow as nat,
            apple: self.apple.location,
            apples_eaten: self.apples_eaten as nat,
            state: self.state,
            playback_events: self.playback_events@,
            visited: self.visited_vector@,
            points_visited: self.points_visited as nat,
        }
    }
}

impl GameView {
    /// The cells once the tail has moved on: if the snake has nothing to
    /// grow, the cell of its last part is empty.
    pub open spec fn cells_after_tail(self) -> Seq<Cell> {
        if self.to_grow == 0 {
            self.cells.update(slot(self.locations.last()), Cell { kind: CellKind::Empty })
        } else {
            self.cells
        }
    }

    /// The game after the head has moved on, but for what depends on what
    /// it ran into: the move is recorded, the tail has moved on or the
    /// snake has grown by one, the head is on the next cell, and that cell
    /// is marked and counted if it had no mark.
    pub open spec fn advanced(self, direction: Direction) -> GameView {
        let target = self.head.plus(direction.offset());
        GameView {
            cells: self.cells_after_tail().update(slot(target), Cell { kind: CellKind::Snake }),
            head: target,
            locations: seq![target] + (if self.to_grow == 0 {
                self.locations.drop_last()
            } else {
                self.locations
            }),
            to_grow: if self.to_grow == 0 {
                0
            } else {
                (self.to_grow - 1) as nat
            },
            playback_events: self.playback_events.push(PlaybackEvents::MoveSnake(direction)),
            visited: self.visited.update(slot(target), true),
            points_visited: if self.visited[slot(target)] {
                self.points_visited
            } else {
                self.points_visited + 1
            },
            ..self
        }
    }

    /// What the head runs into when it moves in a direction.
    pub open spec fn hit(self, direction: Direction) -> CellKind {
        kind_in(self.cells_after_tail(), self.head.plus(direction.offset()))
    }

    /// The game after a move in a direction, the next apple lying at
    /// `apple` if this move eats one. A game that is over stays as it is.
    /// Else the head moves on; if it runs into an apple, the apple is
    /// eaten, the next one is laid down and the snake has five more cells
    /// to grow; if it runs into anything else that is not empty, it
    /// crashes and the game is over.
    pub open spec fn step(self, direction: Direction, apple: GridPoint) -> GameView {
        if self.state != GameState::Running {
            self
        } else {
            let moved = self.advanced(direction);
            match self.hit(direction) {
                CellKind::Empty => moved,
                CellKind::Apple => GameView {
                    cells: moved.cells.update(slot(apple), Cell { kind: CellKind::Apple }),
                    apple,
                    apples_eaten: moved.apples_eaten + 1,
                    to_grow: moved.to_grow + SnakeGame::GROW_INCREMENT as nat,
                    playback_events: moved.playback_events.push(
                        PlaybackEvents::NewAppleLocation(apple),
                    ),
                    ..moved
                },
                _ => GameView {
                    cells: moved.cells.update(slot(moved.head), Cell { kind: CellKind::Crash }),
                    state: GameState::GameOver,
                    playback_events: moved.playback_events.push(PlaybackEvents::GameOver),
                    ..moved
                },
            }
        }
    }

    /// The game after a move that eats the apple when no room is found for
    /// the next one: the apple is eaten and the game is over.
    pub open spec fn step_without_room(self, direction: Direction) -> GameView {
        let moved = self.advanced(direction);
        GameView {
            apples_eaten: moved.apples_eaten + 1,
            state: GameState::GameOver,
            playback_events: moved.playback_events.push(PlaybackEvents::GameOver),
            ..moved
        }
    }

    /// Whether a game has just begun: the snake was put on a bare grid and
    /// the apple laid at `self.apple`; nothing is eaten, visited or marked,
    /// and the record holds the start of the game and the place of the
    /// apple.
    pub open spec fn just_begun(self) -> bool {
        &&& self.state == GameState::Running
        &&& self.apples_eaten == 0
        &&& self.points_visited == 0
        &&& self.to_grow == 0
        &&& self.locations.len() == 2
        &&& self.playback_events == seq![
            PlaybackEvents::NewGame,
            PlaybackEvents::NewAppleLocation(self.apple),
        ]
        &&& self.visited.len() == Grid::WIDTH * Grid::HEIGHT
        &&& forall|i: int| 0 <= i < self.visited.len() ==> !#[trigger] self.visited[i]
        &&& kind_in(self.cells, self.apple) == CellKind::Apple
        &&& exists|bare_cells: Seq<Cell>, snake_cells: Seq<Cell>|
            #![trigger bare(bare_cells), snake_cells.len()]
            {
                &&& bare(bare_cells)
                &&& bare_cells.len() == Grid::WIDTH * Grid::HEIGHT
                &&& snake_cells == bare_cells.update(
                    slot(self.head),
                    Cell { kind: CellKind::Snake },
                ).update(slot(self.locations[1]), Cell { kind: CellKind::Snake })
                &&& self.cells == snake_cells.update(slot(self.apple), Cell { kind: CellKind::Apple })
            }
    }
}

impl SnakeGame {
    pub const GROW_INCREMENT: usize = 5;

    /// The game is well formed: the grid and the marks have their size,
    /// and while the game runs the rim is walled and the snake lies inside
    /// the grid, its head first.
    pub open spec fn wf(&self) -> bool {
        &&& self.grid.wf()
        &&& self.visited_vector.len() == Grid::WIDTH * Grid::HEIGHT
        &&& self.state == GameState::Running ==> {
            &&& walled(self.grid.cells@)
            &&& self.snake.locations@.len() >= 1
            &&& self.snake.locations@[0] == self.snake.head_location
            &&& forall|k: int|
                0 <= k < self.snake.locations@.len() ==> is_interior(
                    #[trigger] self.snake.locations@[k],
                )
        }
    }

    /// Whether the counters have room for another move.
    pub open spec fn has_room(&self) -> bool {
        &&& self.apples_eaten < usize::MAX
        &&& self.points_visited < usize::MAX
        &&& self.snake.to_grow <= usize::MAX - SnakeGame::GROW_INCREMENT
    }

    /// A new game. With no place given for the apple, an empty cell is
    /// drawn at random.
    pub fn new(new_apple_location: Option<GridPoint>) -> (made: Result<SnakeGame, PlacementError>)
        requires
            new_apple_location matches Some(pt) ==> is_interior(pt),
        ensures
            made matches Ok(game) ==> game.wf() && game@.just_begun() && (
            new_apple_location matches Some(pt) ==> game.apple.location == pt),
            new_apple_location is Some ==> made != Err::<SnakeGame, PlacementError>(
                PlacementError::NoRoomForApple,
            ),
    {
        let mut grid = Grid::new();
        let ghost bare_cells = grid.cells@;
        proof {
            lemma_bare_walled(bare_cells);
        }
        let snake = match Snake::new(&mut grid) {
            Ok(snake) => snake,
            Err(e) => {
                return Err(e);
            },
        };
        let ghost snake_cells = grid.cells@;
        let location = match new_apple_location {
            None => match grid.new_viable_apple_location() {
                Some(pt) => pt,
                None => {
                    return Err(PlacementError::NoRoomForApple);
                },
            },
            Some(pt) => pt,
        };
        let apple = Apple { location };
        proof {
            lemma_put(bare_cells, snake.head_location, CellKind::Snake);
            lemma_put(
                bare_cells.update(slot(snake.head_location), Cell { kind: CellKind::Snake }),
                snake.locations@[1],
                CellKind::Snake,
            );
            lemma_put(snake_cells, location, CellKind::Apple);
        }
        grid.get_cell_mut(apple.location).kind = CellKind::Apple;
        let mut new_game = Self {
            grid,
            snake,
            apple,
            apples_eaten: 0,
            state: GameState::Running,
            playback_events: Vec::with_capacity(256),
            visited_vector: vec![false; 1200],
            points_visited: 0,
        };
        new_game.playback_events.clear();
        new_game.playback_events.push(PlaybackEvents::NewGame);
        new_game.playback_events.push(PlaybackEvents::NewAppleLocation(apple.location));
        proof {
            assert(new_game@.playback_events =~= seq![
                PlaybackEvents::NewGame,
                PlaybackEvents::NewAppleLocation(apple.location),
            ]);
            assert(bare(bare_cells) && snake_cells.len() == 1200);
        }
        Ok(new_game)
    }

    /// Begins the game anew. With no place given for the apple, an empty
    /// cell is drawn at random. Where no room is found the game is over.
    pub fn restart(&mut self, new_apple_location: Option<GridPoint>) -> (done: Result<
        (),
        PlacementError,
    >)
        requires
            old(self).grid.wf(),
            old(self).visited_vector.len() == Grid::WIDTH * Grid::HEIGHT,
            new_apple_location matches Some(pt) ==> is_interior(pt),
        ensures
            final(self).wf(),
            done is Ok ==> final(self)@.just_begun() && (new_apple_location matches Some(pt)
                ==> final(self).apple.location == pt),
            done is Err ==> final(self).state == GameState::GameOver,
            new_apple_location is Some ==> done != Err::<(), PlacementError>(
                PlacementError::NoRoomForApple,
            ),
    {
        self.grid.restart();
        let ghost bare_cells = self.grid.cells@;
        proof {
            lemma_bare_walled(bare_cells);
        }
        match self.snake.restart(&mut self.grid) {
            Ok(()) => {},
            Err(e) => {
                self.state = GameState::GameOver;
                return Err(e);
            },
        }
        let ghost snake_cells = self.grid.cells@;
        self.apple.location = match new_apple_location {
            None => match self.grid.new_viable_apple_location() {
                Some(pt) => pt,
                None => {
                    self.state = GameState::GameOver;
                    return Err(PlacementError::NoRoomForApple);
                },
            },
            Some(pt) => pt,
        };
        proof {
            lemma_put(bare_cells, self.snake.head_location, CellKind::Snake);
            lemma_put(
                bare_cells.update(slot(self.snake.head_location), Cell { kind: CellKind::Snake }),
                self.snake.locations@[1],
                CellKind::Snake,
            );
            lemma_put(snake_cells, self.apple.location, CellKind::Apple);
        }
        self.grid.get_cell_mut(self.apple.location).kind = CellKind::Apple;
        self.apples_eaten = 0;
        self.state = GameState::Running;
        self.playback_events.clear();
        self.playback_events.push(PlaybackEvents::NewGame);
        self.playback_events.push(PlaybackEvents::NewAppleLocation(self.apple.location));
        self.clear_visited();
        self.points_visited = 0;
        proof {
            assert(self@.playback_events =~= seq![
                PlaybackEvents::NewGame,
                PlaybackEvents::NewAppleLocation(self.apple.location),
            ]);
            assert(bare(bare_cells) && snake_cells.len() == 1200);
        }
        Ok(())
    }

    /// Clears the marks on the cells. What was counted stays counted.
    pub fn clear_visited(&mut self)
        ensures
            final(self).visited_vector.len() == old(self).visited_vector.len(),
            forall|i: int|
                0 <= i < final(self).visited_vector.len() ==> !#[trigger] final(self).visited_vector[i],
            final(self).grid == old(self).grid,
            final(self).snake == old(self).snake,
            final(self).apple == old(self).apple,
            final(self).apples_eaten == old(self).apples_eaten,
            final(self).state == old(self).state,
            final(self).playback_events == old(self).playback_events,
            final(self).points_visited == old(self).points_visited,
    {
        let mut i: usize = 0;
        while i < self.visited_vector.len()
            invariant
                i <= self.visited_vector.len(),
                self.visited_vector.len() == old(self).visited_vector.len(),
                forall|k: int| 0 <= k < i ==> !#[trigger] self.visited_vector[k],
                self.grid == old(self).grid,
                self.snake == old(self).snake,
                self.apple == old(self).apple,
                self.apples_eaten == old(self).apples_eaten,
                self.state == old(self).state,
                self.playback_events == old(self).playback_events,
                self.points_visited == old(self).points_visited,
            decreases self.visited_vector.len() - i,
        {
            self.visited_vector[i] = false;
            i += 1;
        }
    }
}

/// The point `steps` cells and one more from `start` in a direction.
pub open spec fn probe(start: GridPoint, direction: Direction, steps: int) -> GridPoint {
    GridPoint {
        x: (start.x + (steps + 1) * direction.offset().x) as i16,
        y: (start.y + (steps + 1) * direction.offset().y) as i16,
    }
}

/// Whether `distance` is how far one can go from `start` in a direction
/// before the next cell holds `target` or lies off the grid: every cell up
/// to there is on the grid and holds something else.
pub open spec fn is_distance(
    cells: Seq<Cell>,
    start: GridPoint,
    direction: Direction,
    target: CellKind,
    distance: int,
) -> bool {
    &&& 0 <= distance
    &&& forall|s: int|
        0 <= s < distance ==> in_bounds(#[trigger] probe(start, direction, s)) && kind_in(
            cells,
            probe(start, direction, s),
        ) != target
    &&& !in_bounds(probe(start, direction, distance)) || kind_in(
        cells,
        probe(start, direction, distance),
    ) == target
}

/// Where the point a number of steps from a point of the grid lies.
pub proof fn lemma_probe(start: GridPoint, direction: Direction, steps: int)
    requires
        in_bounds(start),
        -1 <= steps <= 100,
    ensures
        probe(start, direction, steps) == match direction {
            Direction::North => GridPoint { x: start.x, y: (start.y + steps + 1) as i16 },
            Direction::East => GridPoint { x: (start.x + steps + 1) as i16, y: start.y },
            Direction::South => GridPoint { x: start.x, y: (start.y - steps - 1) as i16 },
            Direction::West => GridPoint { x: (start.x - steps - 1) as i16, y: start.y },
        },
{
}

impl SnakeGame {
    /// Moves the snake one cell in a direction. With no place given for
    /// the next apple, an empty cell is drawn at random if the move eats
    /// the apple; where none is found the game is over.
    pub fn move_snake(&mut self, direction: Direction, new_apple_location: Option<GridPoint>) -> (done:
        Result<(), PlacementError>)
        requires
            old(self).wf(),
            old(self).has_room(),
            new_apple_location matches Some(pt) ==> is_interior(pt),
        ensures
            final(self).wf(),
            match done {
                Ok(()) => match new_apple_location {
                    Some(pt) => final(self)@ == old(self)@.step(direction, pt),
                    None => exists|pt: GridPoint|
                        can_be_drawn(pt) && #[trigger] old(self)@.step(direction, pt) == final(self)@
                            && (old(self).state == GameState::Running && old(self)@.hit(direction)
                            == CellKind::Apple ==> kind_in(old(self)@.advanced(direction).cells, pt)
                            == CellKind::Empty),
                },
                Err(e) => new_apple_location is None && e == PlacementError::NoRoomForApple
                    && old(self).state == GameState::Running && old(self)@.hit(direction)
                    == CellKind::Apple && final(self)@ == old(self)@.step_without_room(direction),
            },
    {
        if self.state != GameState::Running {
            proof {
                let pt = GridPoint { x: 1, y: 1 };
                assert(can_be_drawn(pt) && old(self)@.step(direction, pt) == self@);
            }
            return Ok(());
        }
        let ghost before = self@;
        self.playback_events.push(PlaybackEvents::MoveSnake(direction));

        // Move the tail first, if needed.
        if self.snake.to_grow == 0 {
            let old_tail_location = self.snake.locations.pop_back().unwrap();
            proof {
                assert(old_tail_location == before.locations.last());
                assert(is_interior(before.locations[before.locations.len() - 1]));
                lemma_put(self.grid.cells@, old_tail_location, CellKind::Empty);
            }
            self.grid.get_cell_mut(old_tail_location).kind = CellKind::Empty;
        } else {
            self.snake.to_grow -= 1;
        }
        assert(self.grid.cells@ == before.cells_after_tail());
        assert(is_interior(before.locations[0]));

        let offset = direction.to_point();
        let new_location = self.snake.head_location.add(offset);
        let kind_hit = self.grid.get_cell(new_location).kind;
        proof {
            assert(in_bounds(new_location));
            lemma_put(self.grid.cells@, new_location, CellKind::Snake);
            lemma_put(
                self.grid.cells@.update(slot(new_location), Cell { kind: CellKind::Snake }),
                new_location,
                CellKind::Crash,
            );
            if on_border(new_location) {
                assert(kind_in(self.grid.cells@, new_location) == CellKind::Wall || kind_in(
                    self.grid.cells@,
                    new_location,
                ) == CellKind::Crash);
            }
        }
        self.grid.get_cell_mut(new_location).kind = CellKind::Snake;
        let mut no_room = false;
        let ghost mut laid = GridPoint { x: 1, y: 1 };
        match kind_hit {
            CellKind::Empty => {},
            CellKind::Apple => {
                self.apples_eaten += 1;
                let found = match new_apple_location {
                    None => self.grid.new_viable_apple_location(),
                    Some(pt) => Some(pt),
                };
                match found {
                    Some(pt) => {
                        proof {
                            laid = pt;
                            lemma_put(self.grid.cells@, pt, CellKind::Apple);
                        }
                        self.apple.location = pt;
                        self.grid.get_cell_mut(pt).kind = CellKind::Apple;
                        self.playback_events.push(PlaybackEvents::NewAppleLocation(pt));
                        self.snake.to_grow += Self::GROW_INCREMENT;
                    },
                    None => {
                        self.playback_events.push(PlaybackEvents::GameOver);
                        self.state = GameState::GameOver;
                        no_room = true;
                    },
                }
            },
            _ => {
                self.playback_events.push(PlaybackEvents::GameOver);
                self.state = GameState::GameOver;
                self.grid.get_cell_mut(new_location).kind = CellKind::Crash;
            },
        }

        // Push on the new head.
        self.snake.locations.push_front(new_location);
        self.snake.head_location = new_location;

        // Update what was visited.
        let i = new_location.y as usize * Grid::WIDTH as usize + new_location.x as usize;
        if !self.visited_vector[i] {
            self.points_visited += 1;
        }
        self.visited_vector[i] = true;

        proof {
            let moved = before.advanced(direction);
            assert(self@.locations =~= moved.locations);
            if self.state == GameState::Running {
                assert forall|k: int| 0 <= k < self.snake.locations@.len() implies is_interior(
                    #[trigger] self.snake.locations@[k],
                ) by {
                    if k > 0 {
                        assert(self.snake.locations@[k] == before.locations[k - 1]);
                    }
                }
            }
        }
        if no_room {
            assert(self@ == before.step_without_room(direction));
            Err(PlacementError::NoRoomForApple)
        } else {
            proof {
                match new_apple_location {
                    Some(pt) => {
                        assert(self@ == before.step(direction, pt));
                    },
                    None => {
                        assert(self@ == before.step(direction, laid));
                    },
                }
            }
            Ok(())
        }
    }

    /// How far it is from the head to the next wall, and to the next part
    /// of the snake, in each of the four directions: north, east, south,
    /// west.
    pub fn wall_and_body_distances(&self) -> (distances: ([i16; 4], [i16; 4]))
        requires
            self.grid.wf(),
            in_bounds(self.snake.head_location),
        ensures
            forall|i: int|
                0 <= i < 4 ==> is_distance(
                    self.grid.cells@,
                    self.snake.head_location,
                    Direction::at(i),
                    CellKind::Wall,
                    #[trigger] distances.0[i] as int,
                ),
            forall|i: int|
                0 <= i < 4 ==> is_distance(
                    self.grid.cells@,
                    self.snake.head_location,
                    Direction::at(i),
                    CellKind::Snake,
                    #[trigger] distances.1[i] as int,
                ),
    {
        let mut dist_walls: [i16; 4] = [0; 4];
        let mut dist_snake: [i16; 4] = [0; 4];
        let head = self.snake.head_location;
        let mut i: usize = 0;
        while i < 4
            invariant
                i <= 4,
                self.grid.wf(),
                head == self.snake.head_location,
                in_bounds(head),
                forall|k: int|
                    0 <= k < i ==> is_distance(
                        self.grid.cells@,
                        head,
                        Direction::at(k),
                        CellKind::Wall,
                        #[trigger] dist_walls[k] as int,
                    ),
                forall|k: int|
                    0 <= k < i ==> is_distance(
                        self.grid.cells@,
                        head,
                        Direction::at(k),
                        CellKind::Snake,
                        #[trigger] dist_snake[k] as int,
                    ),
            decreases 4 - i,
        {
            let dir = Direction::from_index(i);
            dist_walls[i] = self.distance_to(head, dir, CellKind::Wall);
            dist_snake[i] = self.distance_to(head, dir, CellKind::Snake);
            i += 1;
        }
        (dist_walls, dist_snake)
    }

    /// How far one can go from a point of the grid in a direction before
    /// the next cell holds `target` or lies off the grid.
    fn distance_to(&self, pt_start: GridPoint, direction: Direction, target: CellKind) -> (distance:
        i16)
        requires
            self.grid.wf(),
            in_bounds(pt_start),
        ensures
            is_distance(self.grid.cells@, pt_start, direction, target, distance as int),
    {
        let offset = direction.to_point();
        let mut distance: i16 = 0;
        let mut pt_test = pt_start.add(offset);
        proof {
            lemma_probe(pt_start, direction, 0);
        }
        while self.grid.is_in_bounds(pt_test) && target != self.grid.get_cell(pt_test).kind
            invariant
                self.grid.wf(),
                in_bounds(pt_start),
                offset == direction.offset(),
                0 <= distance <= 40,
                pt_test == probe(pt_start, direction, distance as int),
                forall|s: int|
                    0 <= s < distance ==> in_bounds(#[trigger] probe(pt_start, direction, s))
                        && kind_in(self.grid.cells@, probe(pt_start, direction, s)) != target,
            decreases 40 - distance,
        {
            proof {
                lemma_probe(pt_start, direction, distance as int);
                lemma_probe(pt_start, direction, distance + 1);
            }
            distance += 1;
            pt_test = pt_test.add(offset);
        }
        distance
    }
}

/// A bare grid is walled.
pub proof fn lemma_bare_walled(cells: Seq<Cell>)
    requires
        bare(cells),
    ensures
        walled(cells),
{
    assert forall|pt: GridPoint| on_border(pt) implies #[trigger] kind_in(cells, pt)
        == CellKind::Wall || kind_in(cells, pt) == CellKind::Crash by {
        assert(in_bounds(pt));
    }
}

} // verus!
