use vstd::prelude::*;

verus! {

/// A request to start a fresh game, optionally with a board size.
#[derive(Debug, Clone)]
pub struct JoinGame {
    pub game_id: Option<String>,
    pub size: Option<Size>,
}

#[derive(Debug, Clone, Copy, PartialEq, Eq, Structural)]
pub enum Direction {
    Up,
    Down,
    Left,
    Right,
}

#[derive(Debug, Clone, Copy, PartialEq, Eq, Structural, Hash)]
pub struct Position {
    pub x: i32,
    pub y: i32,
}

#[derive(Debug, Clone, Copy, PartialEq, Eq, Structural, Hash)]
pub struct Size {
    pub width: i32,
    pub height: i32,
}

pub const DEFAULT_SIDE: i32 = 32;

pub const DEFAULT_INTERVAL: u16 = 1500;

/// Number of candidate cells tried when placing food.
pub const FOOD_ATTEMPTS: u32 = 100;

pub const SCORE_PER_FOOD: i32 = 10;

impl Default for Size {
    fn default() -> (r: Size)
        ensures
            r.width == DEFAULT_SIDE,
            r.height == DEFAULT_SIDE,
    {
        Size { width: DEFAULT_SIDE, height: DEFAULT_SIDE }
    }
}

/// The cell one step away from `p` in direction `d`, as mathematical integers.
pub open spec fn step_x(p: Position, d: Direction) -> int {
    match d {
        Direction::Left => p.x - 1,
        Direction::Right => p.x + 1,
        _ => p.x as int,
    }
}

pub open spec fn step_y(p: Position, d: Direction) -> int {
    match d {
        Direction::Up => p.y - 1,
        Direction::Down => p.y + 1,
        _ => p.y as int,
    }
}

/// The step from `p` in direction `d` stays inside the `i32` range.
pub open spec fn can_step(p: Position, d: Direction) -> bool {
    i32::MIN <= step_x(p, d) <= i32::MAX && i32::MIN <= step_y(p, d) <= i32::MAX
}

pub open spec fn stepped(p: Position, d: Direction) -> Position {
    Position { x: step_x(p, d) as i32, y: step_y(p, d) as i32 }
}

pub open spec fn opposite(a: Direction, b: Direction) -> bool {
    (a == Direction::Up && b == Direction::Down) || (a == Direction::Down && b == Direction::Up)
        || (a == Direction::Left && b == Direction::Right) || (a == Direction::Right && b
        == Direction::Left)
}

pub open spec fn in_bounds(p: Position, width: int, height: int) -> bool {
    0 <= p.x < width && 0 <= p.y < height
}

impl Position {
    pub fn new(x: i32, y: i32) -> (r: Position)
        ensures
            r.x == x,
            r.y == y,
    {
        Position { x, y }
    }

    pub fn move_in_direction(self, direction: Direction) -> (r: Position)
        requires
            can_step(self, direction),
        ensures
            r == stepped(self, direction),
    {
        match direction {
            Direction::Up => Position::new(self.x, self.y - 1),
            Direction::Down => Position::new(self.x, self.y + 1),
            Direction::Left => Position::new(self.x - 1, self.y),
            Direction::Right => Position::new(self.x + 1, self.y),
        }
    }
}

/// The mathematical state of a snake.
pub ghost struct SnakeModel {
    pub body: Seq<Position>,
    pub direction: Direction,
    pub grow_next: bool,
    pub next_direction: Option<Direction>,
}

#[derive(Debug, Clone)]
pub struct Snake {
    pub body: Vec<Position>,
    pub direction: Direction,
    pub grow_next: bool,
    pub next_direction: Option<Direction>,
}

impl View for Snake {
    type V = SnakeModel;

    open spec fn view(&self) -> SnakeModel {
        SnakeModel {
            body: self.body@,
            direction: self.direction,
            grow_next: self.grow_next,
            next_direction: self.next_direction,
        }
    }
}

impl SnakeModel {
    pub open spec fn head(self) -> Position {
        self.body[0]
    }

    /// The direction the snake takes on its next move.
    pub open spec fn heading(self) -> Direction {
        match self.next_direction {
            Some(d) => d,
            None => self.direction,
        }
    }

    pub open spec fn next_head(self) -> Position {
        stepped(self.head(), self.heading())
    }

    pub open spec fn can_move(self) -> bool {
        self.body.len() >= 1 && can_step(self.head(), self.heading())
    }

    /// One move: a new head in front, the tail dropped unless a growth was pending.
    pub open spec fn moved(self) -> SnakeModel {
        SnakeModel {
            body: if self.grow_next {
                seq![self.next_head()] + self.body
            } else {
                seq![self.next_head()] + self.body.drop_last()
            },
            direction: self.heading(),
            grow_next: false,
            next_direction: None,
        }
    }

    pub open spec fn turned(self, d: Direction) -> SnakeModel {
        if opposite(self.direction, d) {
            self
        } else {
            SnakeModel { next_direction: Some(d), ..self }
        }
    }

    pub open spec fn bites_itself(self) -> bool {
        exists|i: int| 1 <= i < self.body.len() && self.body[i] == self.head()
    }

    pub open spec fn hits_wall(self, width: int, height: int) -> bool {
        !in_bounds(self.head(), width, height)
    }
}

impl Snake {
    pub fn new(start_x: i32, start_y: i32) -> (r: Snake)
        requires
            start_x >= i32::MIN + 2,
        ensures
            r.body@ == seq![
                Position { x: start_x, y: start_y },
                Position { x: (start_x - 1) as i32, y: start_y },
                Position { x: (start_x - 2) as i32, y: start_y },
            ],
            r.direction == Direction::Right,
            r.next_direction.is_none(),
            !r.grow_next,
    {
        Snake {
            body: vec![
                Position::new(start_x, start_y),
                Position::new(start_x - 1, start_y),
                Position::new(start_x - 2, start_y),
            ],
            direction: Direction::Right,
            next_direction: None,
            grow_next: false,
        }
    }

    pub fn head(&self) -> (r: Position)
        requires
            self.body.len() >= 1,
        ensures
            r == self@.head(),
    {
        self.body[0]
    }

    pub fn move_forward(&mut self)
        requires
            old(self)@.can_move(),
        ensures
            final(self)@ == old(self)@.moved(),
    {
        self.direction = match self.next_direction {
            Some(d) => d,
            None => self.direction,
        };
        let new_head = self.head().move_in_direction(self.direction);
        self.next_direction = None;
        self.body.insert(0, new_head);
        if !self.grow_next {
            self.body.pop();
        } else {
            self.grow_next = false;
        }
        assert(self.body@ =~= old(self)@.moved().body);
    }

    pub fn change_direction(&mut self, new_direction: Direction)
        ensures
            final(self)@ == old(self)@.turned(new_direction),
    {
        if !self.is_opposite_direction(new_direction) {
            self.next_direction = Some(new_direction);
        }
    }

    fn is_opposite_direction(&self, direction: Direction) -> (r: bool)
        ensures
            r == opposite(self.direction, direction),
    {
        match (self.direction, direction) {
            (Direction::Up, Direction::Down) => true,
            (Direction::Down, Direction::Up) => true,
            (Direction::Left, Direction::Right) => true,
            (Direction::Right, Direction::Left) => true,
            _ => false,
        }
    }

    pub fn check_self_collision(&self) -> (r: bool)
        requires
            self.body.len() >= 1,
        ensures
            r == self@.bites_itself(),
    {
        let head = self.head();
        let mut i: usize = 1;
        while i < self.body.len()
            invariant
                1 <= i <= self.body.len(),
                head == self@.head(),
                forall|j: int| 1 <= j < i ==> self.body@[j] != head,
            decreases self.body.len() - i,
        {
            if self.body[i] == head {
                return true;
            }
            i += 1;
        }
        false
    }

    pub fn grow(&mut self)
        ensures
            final(self)@ == (SnakeModel { grow_next: true, ..old(self)@ }),
    {
        self.grow_next = true;
    }

    pub fn is_colliding_with_walls(&self, width: i32, height: i32) -> (r: bool)
        requires
            self.body.len() >= 1,
        ensures
            r == self@.hits_wall(width as int, height as int),
    {
        let head = self.head();
        head.x < 0 || head.x >= width || head.y < 0 || head.y >= height
    }
}

#[derive(Debug, Clone, Copy, PartialEq, Eq, Structural)]
pub struct Food {
    pub position: Position,
}

impl Food {
    pub fn new(position: Position) -> (r: Food)
        ensures
            r.position == position,
    {
        Food { position }
    }
}


/// The cell tried after `(x, y)` when placing food: scan right, wrapping to the next row.
pub open spec fn next_cell(x: int, y: int, width: int, height: int) -> (int, int) {
    let nx = (x + 1) % width;
    (nx, if nx == 0 { (y + 1) % height } else { y })
}

/// Where food lands: the first of `n` cells scanned from `(x, y)` that the body does not
/// cover, or the origin when all of them are covered.
pub open spec fn pick_food(body: Seq<Position>, x: int, y: int, width: int, height: int, n: nat) -> Position
    decreases n,
{
    if n == 0 {
        Position { x: 0, y: 0 }
    } else if !body.contains(Position { x: x as i32, y: y as i32 }) {
        Position { x: x as i32, y: y as i32 }
    } else {
        let c = next_cell(x, y, width, height);
        pick_food(body, c.0, c.1, width, height, (n - 1) as nat)
    }
}

pub open spec fn food_start_x(score: int, width: int) -> int {
    (score * 7 + 3) % width
}

pub open spec fn food_start_y(score: int, height: int) -> int {
    (score * 11 + 5) % height
}

pub open spec fn food_for(body: Seq<Position>, score: int, width: int, height: int) -> Position {
    pick_food(body, food_start_x(score, width), food_start_y(score, height), width, height, FOOD_ATTEMPTS as nat)
}

pub open spec fn add_score(score: i32) -> i32 {
    if score <= i32::MAX - SCORE_PER_FOOD {
        (score + SCORE_PER_FOOD) as i32
    } else {
        i32::MAX
    }
}

/// The mathematical state of one game.
pub ghost struct GameModel {
    pub snake: SnakeModel,
    pub food: Position,
    pub score: i32,
    pub game_over: bool,
    pub width: i32,
    pub height: i32,
    pub interval: u16,
    pub notified: Seq<Seq<char>>,
}

impl GameModel {
    pub open spec fn wf(self) -> bool {
        &&& self.width >= 1
        &&& self.height >= 1
        &&& self.score >= 0
        &&& self.snake.body.len() >= 1
        &&& !self.game_over ==> in_bounds(self.snake.head(), self.width as int, self.height as int)
        &&& !self.game_over ==> self.notified.len() == 0
    }

    /// A fresh game on a board of the given size.
    pub open spec fn initial(width: i32, height: i32) -> GameModel {
        let cx = (width / 2) as i32;
        let cy = (height / 2) as i32;
        let body = seq![
            Position { x: cx, y: cy },
            Position { x: (cx - 1) as i32, y: cy },
            Position { x: (cx - 2) as i32, y: cy },
        ];
        GameModel {
            snake: SnakeModel {
                body,
                direction: Direction::Right,
                grow_next: false,
                next_direction: None,
            },
            food: food_for(body, 0, width as int, height as int),
            score: 0,
            game_over: false,
            width,
            height,
            interval: DEFAULT_INTERVAL,
            notified: Seq::empty(),
        }
    }

    /// One simulation step.
    pub open spec fn updated(self) -> GameModel {
        if self.game_over {
            self
        } else {
            let s = self.snake.moved();
            if s.hits_wall(self.width as int, self.height as int) || s.bites_itself() {
                GameModel { snake: s, game_over: true, ..self }
            } else if s.head() == self.food {
                let grown = SnakeModel { grow_next: true, ..s };
                let score = add_score(self.score);
                GameModel {
                    snake: grown,
                    score,
                    food: food_for(grown.body, score as int, self.width as int, self.height as int),
                    ..self
                }
            } else {
                GameModel { snake: s, ..self }
            }
        }
    }

    pub open spec fn steered(self, d: Direction) -> GameModel {
        if self.game_over {
            self
        } else {
            GameModel { snake: self.snake.turned(d), ..self }
        }
    }
}

#[derive(Debug, Clone)]
pub struct GameState {
    pub snake: Snake,
    pub food: Food,
    pub score: i32,
    pub game_over: bool,
    pub width: i32,
    pub height: i32,
    /// Simulation period in milliseconds.
    pub interval: u16,
    /// Connections already told about the current game over.
    pub already_sent_gameovers_to: Vec<String>,
}

pub open spec fn string_views(v: Seq<String>) -> Seq<Seq<char>> {
    v.map_values(|s: String| s@)
}

impl View for GameState {
    type V = GameModel;

    open spec fn view(&self) -> GameModel {
        GameModel {
            snake: self.snake@,
            food: self.food.position,
            score: self.score,
            game_over: self.game_over,
            width: self.width,
            height: self.height,
            interval: self.interval,
            notified: string_views(self.already_sent_gameovers_to@),
        }
    }
}

fn body_contains(body: &Vec<Position>, p: Position) -> (r: bool)
    ensures
        r == body@.contains(p),
{
    let mut i: usize = 0;
    while i < body.len()
        invariant
            i <= body.len(),
            forall|j: int| 0 <= j < i ==> body@[j] != p,
        decreases body.len() - i,
    {
        if body[i] == p {
            return true;
        }
        i += 1;
    }
    false
}

impl GameState {
    pub fn new(width: i32, height: i32) -> (r: GameState)
        requires
            width >= 1,
            height >= 1,
        ensures
            r@ == GameModel::initial(width, height),
            r@.wf(),
    {
        let mut game = GameState {
            snake: Snake::new(width / 2, height / 2),
            food: Food::new(Position::new(0, 0)),
            score: 0,
            game_over: false,
            width,
            height,
            interval: DEFAULT_INTERVAL,
            already_sent_gameovers_to: Vec::new(),
        };
        game.spawn_food();
        assert(game@.notified =~= Seq::<Seq<char>>::empty());
        game
    }

    pub fn spawn_food(&mut self)
        requires
            old(self).width >= 1,
            old(self).height >= 1,
            old(self).score >= 0,
        ensures
            final(self)@ == (GameModel {
                food: food_for(old(self).snake.body@, old(self).score as int, old(self).width as int, old(self).height as int),
                ..old(self)@
            }),
    {
        let w = self.width as i64;
        let h = self.height as i64;
        let mut x = ((self.score as i64) * 7 + 3) % w;
        let mut y = ((self.score as i64) * 11 + 5) % h;
        let ghost body = self.snake.body@;
        let mut k: u32 = 0;
        while k < FOOD_ATTEMPTS
            invariant
                self.snake.body@ == body,
                w == self.width,
                h == self.height,
                w >= 1,
                h >= 1,
                0 <= x < w,
                0 <= y < h,
                k <= FOOD_ATTEMPTS,
                pick_food(body, x as int, y as int, w as int, h as int, (FOOD_ATTEMPTS - k) as nat)
                    == food_for(body, self.score as int, w as int, h as int),
                self@ == (GameModel { food: self.food.position, ..old(self)@ }),
            decreases FOOD_ATTEMPTS - k,
        {
            let pos = Position::new(x as i32, y as i32);
            if !body_contains(&self.snake.body, pos) {
                self.food.position = pos;
                return;
            }
            x = (x + 1) % w;
            if x == 0 {
                y = (y + 1) % h;
            }
            k += 1;
        }
        self.food.position = Position::new(0, 0);
    }

    pub fn update(&mut self)
        requires
            old(self)@.wf(),
        ensures
            final(self)@ == old(self)@.updated(),
            final(self)@.wf(),
    {
        if self.game_over {
            return;
        }
        self.snake.move_forward();
        if self.snake.is_colliding_with_walls(self.width, self.height) || self.snake.check_self_collision() {
            self.game_over = true;
            return;
        }
        if self.snake.head() == self.food.position {
            self.snake.grow();
            self.score = if self.score <= i32::MAX - SCORE_PER_FOOD {
                self.score + SCORE_PER_FOOD
            } else {
                i32::MAX
            };
            self.spawn_food();
        }
    }

    /// A copy for sending to clients: the record of notified connections is left out.
    pub fn snapshot(&self) -> (r: GameState)
        ensures
            r@ == (GameModel { notified: Seq::empty(), ..self@ }),
    {
        let mut body: Vec<Position> = Vec::new();
        let mut i: usize = 0;
        while i < self.snake.body.len()
            invariant
                i <= self.snake.body.len(),
                body@ == self.snake.body@.take(i as int),
            decreases self.snake.body.len() - i,
        {
            body.push(self.snake.body[i]);
            i += 1;
            assert(body@ =~= self.snake.body@.take(i as int));
        }
        assert(body@ =~= self.snake.body@);
        let r = GameState {
            snake: Snake {
                body,
                direction: self.snake.direction,
                grow_next: self.snake.grow_next,
                next_direction: self.snake.next_direction,
            },
            food: Food::new(self.food.position),
            score: self.score,
            game_over: self.game_over,
            width: self.width,
            height: self.height,
            interval: self.interval,
            already_sent_gameovers_to: Vec::new(),
        };
        assert(r@.notified =~= Seq::<Seq<char>>::empty());
        r
    }

    pub fn handle_input(&mut self, direction: Direction)
        ensures
            final(self)@ == old(self)@.steered(direction),
    {
        if !self.game_over {
            self.snake.change_direction(direction);
        }
    }

    pub fn reset(&mut self)
        requires
            old(self)@.wf(),
        ensures
            final(self)@ == GameModel::initial(old(self).width, old(self).height),
            final(self)@.wf(),
    {
        *self = Self::new(self.width, self.height);
    }
}

} // verus!
