//! A reindeer in a maze: where it stands, which way it looks, what its
//! moves cost, and the cheapest way to the goal.

use vstd::prelude::*;
use rustc_hash::FxHashMap;
use rustc_hash::FxHashSet;
use crate::tally::set_contains;
use crate::tally::set_insert;
use crate::tally::set_keys;
use crate::tally::set_new;
use crate::tally::tally_get;
use crate::tally::tally_insert;
use crate::tally::tally_keys;
use crate::tally::tally_new;
use crate::text::bytes_of;
use crate::text::lines;
use crate::text::lines_of;
use crate::text::rows;
use crate::text::text_bytes;

verus! {

pub const COST_MOVE: isize = 1;

pub const COST_TURN: isize = 1000;

#[derive(Debug, Hash, Eq, PartialEq, Clone, Copy, Structural)]
pub struct Loc {
    pub x: isize,
    pub y: isize,
}

impl Loc {
    pub fn from_u(x: usize, y: usize) -> (loc: Loc)
        requires
            x <= isize::MAX,
            y <= isize::MAX,
        ensures
            loc.x == x,
            loc.y == y,
    {
        Loc { x: x as isize, y: y as isize }
    }
}

#[derive(Debug, Hash, Eq, PartialEq, Clone, Copy, Structural)]
pub enum Direction {
    North,
    South,
    East,
    West,
}

/// The direction a quarter turn to the left of `dir`.
pub open spec fn left_of(dir: Direction) -> Direction {
    match dir {
        Direction::North => Direction::West,
        Direction::South => Direction::East,
        Direction::East => Direction::North,
        Direction::West => Direction::South,
    }
}

/// The direction a quarter turn to the right of `dir`.
pub open spec fn right_of(dir: Direction) -> Direction {
    match dir {
        Direction::North => Direction::East,
        Direction::South => Direction::West,
        Direction::East => Direction::South,
        Direction::West => Direction::North,
    }
}

/// A turn to the left undoes a turn to the right, and the other way round;
/// four turns to one side bring the first direction back.
pub proof fn lemma_turns(dir: Direction)
    ensures
        left_of(right_of(dir)) == dir,
        right_of(left_of(dir)) == dir,
        left_of(left_of(left_of(left_of(dir)))) == dir,
        right_of(right_of(right_of(right_of(dir)))) == dir,
{
}

#[derive(Clone, Copy, Debug, Hash, Eq, PartialEq, Structural)]
pub struct Deer {
    pub loc: Loc,
    pub dir: Direction,
}

impl Deer {
    pub fn turn_left(&self) -> (turned: Deer)
        ensures
            turned.loc == self.loc,
            turned.dir == left_of(self.dir),
    {
        let next_dir = match self.dir {
            Direction::North => Direction::West,
            Direction::South => Direction::East,
            Direction::East => Direction::North,
            Direction::West => Direction::South,
        };
        Deer { loc: self.loc, dir: next_dir }
    }

    pub fn turn_right(&self) -> (turned: Deer)
        ensures
            turned.loc == self.loc,
            turned.dir == right_of(self.dir),
    {
        let next_dir = match self.dir {
            Direction::North => Direction::East,
            Direction::South => Direction::West,
            Direction::East => Direction::South,
            Direction::West => Direction::North,
        };
        Deer { loc: self.loc, dir: next_dir }
    }
}

#[derive(Debug, Clone, Copy, PartialEq, Eq, Structural)]
pub enum Tile {
    Deer,
    Empty,
    Wall,
    Goal,
}

/// The four places next to `loc`, each with the direction in which it lies:
/// east, west, south, north.
pub fn potential_neighbors(loc: &Loc) -> (around: Vec<(Loc, Direction)>)
    requires
        isize::MIN < loc.x < isize::MAX,
        isize::MIN < loc.y < isize::MAX,
    ensures
        around@ == seq![
            (Loc { x: (loc.x + 1) as isize, y: loc.y }, Direction::East),
            (Loc { x: (loc.x - 1) as isize, y: loc.y }, Direction::West),
            (Loc { x: loc.x, y: (loc.y + 1) as isize }, Direction::South),
            (Loc { x: loc.x, y: (loc.y - 1) as isize }, Direction::North),
        ],
{
    let mut around: Vec<(Loc, Direction)> = Vec::new();
    around.push((Loc { x: loc.x + 1, y: loc.y }, Direction::East));
    around.push((Loc { x: loc.x - 1, y: loc.y }, Direction::West));
    around.push((Loc { x: loc.x, y: loc.y + 1 }, Direction::South));
    around.push((Loc { x: loc.x, y: loc.y - 1 }, Direction::North));
    assert(around@ =~= seq![
        (Loc { x: (loc.x + 1) as isize, y: loc.y }, Direction::East),
        (Loc { x: (loc.x - 1) as isize, y: loc.y }, Direction::West),
        (Loc { x: loc.x, y: (loc.y + 1) as isize }, Direction::South),
        (Loc { x: loc.x, y: (loc.y - 1) as isize }, Direction::North),
    ]);
    around
}

#[derive(Clone, Copy, Debug, PartialEq, Eq, Structural)]
pub enum Rotation {
    Left90,
    Right90,
}

#[derive(Clone, Copy, Debug, PartialEq, Eq, Structural)]
pub enum Action {
    Move(Deer, Deer),
    Turn(Rotation),
}

#[derive(Debug)]
pub struct Move {
    pub actions: Vec<Action>,
    pub src_deer: Deer,
    pub dest_deer: Deer,
    pub cost: isize,
}

/// What one action costs: a step 1, a quarter turn 1000.
pub open spec fn action_cost(action: Action) -> int {
    match action {
        Action::Move(..) => 1,
        Action::Turn(_) => 1000,
    }
}

/// What `actions` cost together.
pub open spec fn total_cost(actions: Seq<Action>) -> int
    decreases actions.len(),
{
    if actions.len() == 0 {
        0
    } else {
        total_cost(actions.drop_last()) + action_cost(actions.last())
    }
}

/// No action costs more than a turn.
pub proof fn lemma_total_cost_bounds(actions: Seq<Action>)
    ensures
        actions.len() <= total_cost(actions) <= 1000 * actions.len(),
    decreases actions.len(),
{
    if actions.len() > 0 {
        lemma_total_cost_bounds(actions.drop_last());
    }
}

pub struct Solution {
    pub cost: isize,
    pub actions: Vec<Action>,
}

impl Solution {
    pub fn compute_cost(actions: &Vec<Action>) -> (cost: isize)
        requires
            1000 * actions.len() <= isize::MAX,
        ensures
            cost == total_cost(actions@),
    {
        let mut cost: isize = 0;
        let mut i: usize = 0;
        assert(actions@.take(0) =~= Seq::<Action>::empty());
        while i < actions.len()
            invariant
                i <= actions.len(),
                1000 * actions.len() <= isize::MAX,
                cost == total_cost(actions@.take(i as int)),
            decreases actions.len() - i,
        {
            proof {
                assert(actions@.take(i + 1).drop_last() =~= actions@.take(i as int));
                lemma_total_cost_bounds(actions@.take(i as int));
            }
            let step: isize = match actions[i] {
                Action::Move(..) => 1,
                Action::Turn(_) => 1000,
            };
            cost = cost + step;
            i += 1;
        }
        assert(actions@.take(i as int) =~= actions@);
        cost
    }

    pub fn new(actions: Vec<Action>) -> (solution: Solution)
        requires
            1000 * actions.len() <= isize::MAX,
        ensures
            solution.actions@ == actions@,
            solution.cost == total_cost(actions@),
    {
        let cost = Self::compute_cost(&actions);
        Solution { actions, cost }
    }
}

/// The tile that a character of a maze stands for.
pub open spec fn tile_of(c: u8) -> Option<Tile> {
    if c == 35 {
        Some(Tile::Wall)
    } else if c == 46 {
        Some(Tile::Empty)
    } else if c == 83 {
        Some(Tile::Deer)
    } else if c == 69 {
        Some(Tile::Goal)
    } else {
        None
    }
}

/// Every character of the lines stands for a tile.
pub open spec fn all_tiles(lines: Seq<Seq<u8>>) -> bool {
    forall|y: int, x: int|
        0 <= y < lines.len() && 0 <= x < lines[y].len() ==> tile_of(#[trigger] lines[y][x]).is_some()
}

/// The tiles that the lines draw: the tile in column `x` of row `y` is
/// character `x` of line `y`.
pub open spec fn tiles_of(lines: Seq<Seq<u8>>) -> Map<(isize, isize), Tile> {
    Map::new(
        |p: (isize, isize)| 0 <= p.1 < lines.len() && 0 <= p.0 < lines[p.1 as int].len(),
        |p: (isize, isize)| tile_of(lines[p.1 as int][p.0 as int]).unwrap(),
    )
}

/// The part of the tiles on the lines before `y`, and on line `y` before
/// column `x`.
pub open spec fn tiles_before(lines: Seq<Seq<u8>>, y: int, x: int) -> Map<(isize, isize), Tile> {
    Map::new(
        |p: (isize, isize)|
            0 <= p.1 < lines.len() && 0 <= p.0 < lines[p.1 as int].len() && (p.1 < y || (p.1 == y && p.0
                < x)),
        |p: (isize, isize)| tile_of(lines[p.1 as int][p.0 as int]).unwrap(),
    )
}

/// The lines draw a maze: each character stands for a tile, a reindeer and a
/// goal are among them, and machine integers count the rows and the columns.
pub open spec fn draws_maze(lines: Seq<Seq<u8>>) -> bool {
    &&& all_tiles(lines)
    &&& lines.len() < isize::MAX
    &&& forall|y: int| 0 <= y < lines.len() ==> (#[trigger] lines[y]).len() < isize::MAX
    &&& exists|p: (isize, isize)| #[trigger]
        tiles_of(lines).contains_key(p) && tiles_of(lines)[p] == Tile::Deer
    &&& exists|p: (isize, isize)| #[trigger]
        tiles_of(lines).contains_key(p) && tiles_of(lines)[p] == Tile::Goal
}

/// There is a tile in column `x` of row `y`, and it is no wall.
pub open spec fn open_at(tiles: Map<(isize, isize), Tile>, x: int, y: int) -> bool {
    &&& isize::MIN <= x <= isize::MAX
    &&& isize::MIN <= y <= isize::MAX
    &&& tiles.contains_key((x as isize, y as isize))
    &&& tiles[(x as isize, y as isize)] != Tile::Wall
}

/// The place one step from `loc` in the direction `dir`.
pub open spec fn ahead(loc: Loc, dir: Direction) -> (int, int) {
    match dir {
        Direction::East => (loc.x + 1, loc.y as int),
        Direction::West => (loc.x - 1, loc.y as int),
        Direction::South => (loc.x as int, loc.y + 1),
        Direction::North => (loc.x as int, loc.y - 1),
    }
}

/// The direction after the turn `r`, if there is one.
pub open spec fn turned(dir: Direction, r: Option<Rotation>) -> Direction {
    match r {
        Some(Rotation::Left90) => left_of(dir),
        Some(Rotation::Right90) => right_of(dir),
        None => dir,
    }
}

/// What the move costs that begins with the turn `r`, if there is one.
pub open spec fn cost_with(r: Option<Rotation>) -> isize {
    if r.is_some() {
        1001
    } else {
        1
    }
}

/// Where the reindeer `src` is after it has made the turn `r`, if there is
/// one, and a step ahead: nowhere, unless it stands on an open tile and
/// steps onto one.
pub open spec fn moved(tiles: Map<(isize, isize), Tile>, src: Deer, r: Option<Rotation>) -> Option<Deer> {
    let dir = turned(src.dir, r);
    let to = ahead(src.loc, dir);
    if open_at(tiles, src.loc.x as int, src.loc.y as int) && open_at(tiles, to.0, to.1) {
        Some(Deer { loc: Loc { x: to.0 as isize, y: to.1 as isize }, dir })
    } else {
        None
    }
}

/// The actions of the move that begins with the turn `r`, if there is one.
pub open spec fn actions_of(src: Deer, dest: Deer, r: Option<Rotation>) -> Seq<Action> {
    match r {
        Some(turn) => seq![Action::Turn(turn), Action::Move(src, dest)],
        None => seq![Action::Move(src, dest)],
    }
}

/// The rotations in the order in which moves are tried: none, left, right.
pub open spec fn rotation_at(k: int) -> Option<Rotation> {
    if k == 0 {
        None
    } else if k == 1 {
        Some(Rotation::Left90)
    } else {
        Some(Rotation::Right90)
    }
}

/// A maze: its tiles, where the reindeer starts, and where it wants to go.
pub struct Maze {
    base_map: FxHashMap<(isize, isize), Tile>,
    deer_start: Deer,
    goal: Loc,
    dim_x: isize,
    dim_y: isize,
}

impl Maze {
    #[verifier::type_invariant]
    spec fn fenced(&self) -> bool {
        forall|p: (isize, isize)| #[trigger]
            self.base_map@.contains_key(p) ==> 0 <= p.0 < isize::MAX && 0 <= p.1 < isize::MAX
    }

    /// The tiles of the maze.
    pub closed spec fn tiles(&self) -> Map<(isize, isize), Tile> {
        self.base_map@
    }

    /// The reindeer at the start.
    pub closed spec fn start(&self) -> Deer {
        self.deer_start
    }

    /// Where the reindeer wants to go.
    pub closed spec fn target(&self) -> Loc {
        self.goal
    }

    /// The reindeer at the start.
    pub fn deer_start(&self) -> (deer: Deer)
        ensures
            deer == self.start(),
    {
        self.deer_start
    }

    /// Where the reindeer wants to go.
    pub fn goal(&self) -> (goal: Loc)
        ensures
            goal == self.target(),
    {
        self.goal
    }

    /// The maze drawn in `input`, a character for each tile; the reindeer
    /// looks east. `None` where the lines draw no maze.
    pub fn from(input: &String) -> (maze: Option<Maze>)
        ensures
            match maze {
                Some(read) => {
                    &&& draws_maze(lines_of(bytes_of(input@)))
                    &&& read.tiles() == tiles_of(lines_of(bytes_of(input@)))
                    &&& read.tiles().contains_key((read.start().loc.x, read.start().loc.y))
                    &&& read.tiles()[(read.start().loc.x, read.start().loc.y)] == Tile::Deer
                    &&& read.start().dir == Direction::East
                    &&& read.tiles().contains_key((read.target().x, read.target().y))
                    &&& read.tiles()[(read.target().x, read.target().y)] == Tile::Goal
                },
                None => !draws_maze(lines_of(bytes_of(input@))),
            },
    {
        let found = lines(text_bytes(input));
        let ghost text = rows(found@);
        if found.len() >= isize::MAX as usize {
            return None;
        }
        let mut base_map: FxHashMap<(isize, isize), Tile> = tally_new();
        let mut deer: Option<Deer> = None;
        let mut goal: Option<Loc> = None;
        assert(base_map@ =~= tiles_before(text, 0, 0));
        let mut y: usize = 0;
        while y < found.len()
            invariant
                y <= found.len() < isize::MAX,
                text == rows(found@),
                text == lines_of(bytes_of(input@)),
                base_map@ == tiles_before(text, y as int, 0),
                forall|r: int| 0 <= r < y ==> (#[trigger] text[r]).len() < isize::MAX,
                forall|r: int, c: int|
                    0 <= r < y && 0 <= c < text[r].len() ==> tile_of(#[trigger] text[r][c]).is_some(),
                match deer {
                    Some(d) => base_map@.contains_key((d.loc.x, d.loc.y)) && base_map@[(d.loc.x, d.loc.y)]
                        == Tile::Deer && d.dir == Direction::East,
                    None => forall|p: (isize, isize)| #[trigger]
                        base_map@.contains_key(p) ==> base_map@[p] != Tile::Deer,
                },
                match goal {
                    Some(g) => base_map@.contains_key((g.x, g.y)) && base_map@[(g.x, g.y)] == Tile::Goal,
                    None => forall|p: (isize, isize)| #[trigger]
                        base_map@.contains_key(p) ==> base_map@[p] != Tile::Goal,
                },
            decreases found.len() - y,
        {
            let line = &found[y];
            assert(text[y as int] == line@);
            if line.len() >= isize::MAX as usize {
                return None;
            }
            let mut x: usize = 0;
            while x < line.len()
                invariant
                    y < found.len() < isize::MAX,
                    x <= line.len() < isize::MAX,
                    text == rows(found@),
                    text == lines_of(bytes_of(input@)),
                    text[y as int] == line@,
                    base_map@ == tiles_before(text, y as int, x as int),
                    forall|c: int| 0 <= c < x ==> tile_of(#[trigger] line[c]).is_some(),
                    match deer {
                        Some(d) => base_map@.contains_key((d.loc.x, d.loc.y)) && base_map@[(
                            d.loc.x,
                            d.loc.y,
                        )] == Tile::Deer && d.dir == Direction::East,
                        None => forall|p: (isize, isize)| #[trigger]
                            base_map@.contains_key(p) ==> base_map@[p] != Tile::Deer,
                    },
                    match goal {
                        Some(g) => base_map@.contains_key((g.x, g.y)) && base_map@[(g.x, g.y)]
                            == Tile::Goal,
                        None => forall|p: (isize, isize)| #[trigger]
                            base_map@.contains_key(p) ==> base_map@[p] != Tile::Goal,
                    },
                decreases line.len() - x,
            {
                let c = line[x];
                let loc = Loc::from_u(x, y);
                let tile = if c == 35 {
                    Tile::Wall
                } else if c == 46 {
                    Tile::Empty
                } else if c == 83 {
                    Tile::Deer
                } else if c == 69 {
                    Tile::Goal
                } else {
                    assert(tile_of(text[y as int][x as int]).is_none());
                    return None;
                };
                let ghost before = base_map@;
                tally_insert(&mut base_map, (loc.x, loc.y), tile);
                proof {
                    assert(!before.contains_key((loc.x, loc.y)));
                    assert(base_map@ =~= tiles_before(text, y as int, x + 1));
                }
                if c == 83 {
                    deer = Some(Deer { dir: Direction::East, loc });
                }
                if c == 69 {
                    goal = Some(loc);
                }
                x += 1;
            }
            proof {
                assert(tiles_before(text, y as int, line.len() as int) =~= tiles_before(text, y + 1, 0));
            }
            y += 1;
        }
        proof {
            assert(tiles_before(text, found.len() as int, 0) =~= tiles_of(text));
        }
        match (deer, goal) {
            (Some(deer_start), Some(goal)) => {
                proof {
                    assert(tiles_of(text).contains_key((deer_start.loc.x, deer_start.loc.y)));
                    assert(tiles_of(text).contains_key((goal.x, goal.y)));
                }
                let dim_x = found[0].len() as isize;
                Some(Maze { base_map, deer_start, goal, dim_x, dim_y: found.len() as isize })
            },
            _ => None,
        }
    }

    /// The move of `src_deer` that begins with the turn `r`, if there is
    /// one, and goes on with a step ahead: a step costs 1, a turn 1000 more.
    /// No move where the reindeer does not stand on an open tile, or would
    /// not step onto one.
    pub fn can_move(&self, src_deer: &Deer, r: Option<&Rotation>) -> (mv: Option<Move>)
        ensures
            match mv {
                Some(m) => {
                    &&& moved(self.tiles(), *src_deer, rotation_of(r)) == Some(m.dest_deer)
                    &&& m.src_deer == *src_deer
                    &&& m.cost == cost_with(rotation_of(r))
                    &&& m.actions@ == actions_of(*src_deer, m.dest_deer, rotation_of(r))
                },
                None => moved(self.tiles(), *src_deer, rotation_of(r)).is_none(),
            },
    {
        proof {
            use_type_invariant(self);
        }
        let mut dest_deer = *src_deer;
        let mut cost = COST_MOVE;
        let mut actions: Vec<Action> = Vec::new();
        match r {
            Some(Rotation::Right90) => {
                dest_deer = src_deer.turn_right();
                cost += COST_TURN;
                actions.push(Action::Turn(Rotation::Right90));
            },
            Some(Rotation::Left90) => {
                dest_deer = src_deer.turn_left();
                cost += COST_TURN;
                actions.push(Action::Turn(Rotation::Left90));
            },
            None => (),
        }
        match tally_get(&self.base_map, (src_deer.loc.x, src_deer.loc.y)) {
            Some(Tile::Wall) => None,
            Some(_) => {
                let to = match dest_deer.dir {
                    Direction::East => (src_deer.loc.x + 1, src_deer.loc.y),
                    Direction::West => (src_deer.loc.x - 1, src_deer.loc.y),
                    Direction::South => (src_deer.loc.x, src_deer.loc.y + 1),
                    Direction::North => (src_deer.loc.x, src_deer.loc.y - 1),
                };
                match tally_get(&self.base_map, to) {
                    Some(Tile::Wall) => None,
                    Some(_) => {
                        dest_deer.loc = Loc { x: to.0, y: to.1 };
                        actions.push(Action::Move(*src_deer, dest_deer));
                        assert(actions@ =~= actions_of(*src_deer, dest_deer, rotation_of(r)));
                        Some(Move { src_deer: *src_deer, dest_deer, cost, actions })
                    },
                    None => None,
                }
            },
            None => None,
        }
    }

    /// The moves that `deer_src` can make: straight on, after a turn to the
    /// left, after a turn to the right, in this order.
    pub fn get_valid_moves(&self, deer_src: &Deer) -> (moves: Vec<Move>)
        ensures
            dests(moves@) == moves_upto(self.tiles(), *deer_src, 3),
            forall|i: int|
                0 <= i < moves.len() ==> (#[trigger] moves[i]).src_deer == *deer_src && (moves[i].cost == 1
                    || moves[i].cost == 1001),
    {
        let mut moves: Vec<Move> = Vec::new();
        let mut k: usize = 0;
        assert(dests(moves@) =~= moves_upto(self.tiles(), *deer_src, 0));
        while k < 3
            invariant
                k <= 3,
                dests(moves@) == moves_upto(self.tiles(), *deer_src, k as int),
                forall|i: int|
                    0 <= i < moves.len() ==> (#[trigger] moves[i]).src_deer == *deer_src && (moves[i].cost
                        == 1 || moves[i].cost == 1001),
            decreases 3 - k,
        {
            let left = Rotation::Left90;
            let right = Rotation::Right90;
            let r: Option<&Rotation> = if k == 0 {
                None
            } else if k == 1 {
                Some(&left)
            } else {
                Some(&right)
            };
            assert(rotation_of(r) == rotation_at(k as int));
            let ghost before = dests(moves@);
            match self.can_move(deer_src, r) {
                Some(_move) => {
                    let ghost dest = _move.dest_deer;
                    let ghost cost = _move.cost;
                    moves.push(_move);
                    assert(dests(moves@) =~= before.push((dest, cost)));
                },
                None => (),
            }
            k += 1;
        }
        moves
    }
}

/// The rotation that `r` points to, if it points to one.
pub open spec fn rotation_of(r: Option<&Rotation>) -> Option<Rotation> {
    match r {
        Some(turn) => Some(*turn),
        None => None,
    }
}

/// Where each of the moves leads, and what it costs.
pub open spec fn dests(moves: Seq<Move>) -> Seq<(Deer, isize)> {
    Seq::new(moves.len(), |i: int| (moves[i].dest_deer, moves[i].cost))
}

/// Where the moves lead that `src` can make by one of the first `k`
/// rotations, and what they cost.
pub open spec fn moves_upto(tiles: Map<(isize, isize), Tile>, src: Deer, k: int) -> Seq<(Deer, isize)>
    decreases k,
{
    if k <= 0 {
        Seq::empty()
    } else {
        let before = moves_upto(tiles, src, k - 1);
        match moved(tiles, src, rotation_at(k - 1)) {
            Some(dest) => before.push((dest, cost_with(rotation_at(k - 1)))),
            None => before,
        }
    }
}

/// The number that stands for a direction in the state of a reindeer.
pub open spec fn dir_code(dir: Direction) -> isize {
    match dir {
        Direction::North => 0,
        Direction::South => 1,
        Direction::East => 2,
        Direction::West => 3,
    }
}

/// The state of a reindeer: its column, its row and its direction.
pub open spec fn state_of(deer: Deer) -> (isize, isize, isize) {
    (deer.loc.x, deer.loc.y, dir_code(deer.dir))
}

/// The state of `deer`.
pub fn state(deer: &Deer) -> (s: (isize, isize, isize))
    ensures
        s == state_of(*deer),
{
    let code: isize = match deer.dir {
        Direction::North => 0,
        Direction::South => 1,
        Direction::East => 2,
        Direction::West => 3,
    };
    (deer.loc.x, deer.loc.y, code)
}

/// One move takes the reindeer `s` to `t`.
pub open spec fn hops(tiles: Map<(isize, isize), Tile>, s: Deer, t: Deer) -> bool {
    exists|k: int| 0 <= k < 3 && #[trigger] moved(tiles, s, rotation_at(k)) == Some(t)
}

/// What the move from `s` to `t` costs: 1, and 1000 more where the reindeer
/// turns.
pub open spec fn hop_cost(s: Deer, t: Deer) -> int {
    if s.dir == t.dir {
        1
    } else {
        1001
    }
}

/// A way through the maze: each reindeer of the list comes from the one
/// before it by one move, and none but the last stands on the goal.
pub open spec fn is_way(tiles: Map<(isize, isize), Tile>, goal: Loc, way: Seq<Deer>) -> bool {
    &&& way.len() >= 1
    &&& forall|i: int|
        0 <= i < way.len() - 1 ==> (#[trigger] way[i]).loc != goal && hops(tiles, way[i], way[i + 1])
}

/// What the way costs.
pub open spec fn way_cost(way: Seq<Deer>) -> int
    decreases way.len(),
{
    if way.len() <= 1 {
        0
    } else {
        way_cost(way.drop_last()) + hop_cost(way[way.len() - 2], way[way.len() - 1])
    }
}

/// A way from `start` to the goal.
pub open spec fn goal_way(tiles: Map<(isize, isize), Tile>, goal: Loc, start: Deer, way: Seq<Deer>) -> bool {
    is_way(tiles, goal, way) && way[0] == start && way.last().loc == goal
}

/// `m` is what the cheapest way from `start` to the goal costs; the largest
/// machine integer where there is no way, or none that cheap.
pub open spec fn least_cost(tiles: Map<(isize, isize), Tile>, goal: Loc, start: Deer, m: isize) -> bool {
    &&& forall|way: Seq<Deer>| #[trigger] goal_way(tiles, goal, start, way) ==> m <= way_cost(way)
    &&& m == isize::MAX || exists|way: Seq<Deer>| #[trigger]
        goal_way(tiles, goal, start, way) && way_cost(way) == m
}

/// No way costs less than nothing.
pub proof fn lemma_way_cost_positive(way: Seq<Deer>)
    ensures
        way_cost(way) >= 0,
    decreases way.len(),
{
    if way.len() > 1 {
        lemma_way_cost_positive(way.drop_last());
    }
}

/// A way and one more move make a way.
pub proof fn lemma_way_grows(tiles: Map<(isize, isize), Tile>, goal: Loc, way: Seq<Deer>, t: Deer)
    requires
        is_way(tiles, goal, way),
        way.last().loc != goal,
        hops(tiles, way.last(), t),
    ensures
        is_way(tiles, goal, way.push(t)),
        way_cost(way.push(t)) == way_cost(way) + hop_cost(way.last(), t),
        way.push(t)[0] == way[0],
        way.push(t).last() == t,
{
    let more = way.push(t);
    assert(more.drop_last() =~= way);
    assert forall|i: int| 0 <= i < more.len() - 1 implies (#[trigger] more[i]).loc != goal && hops(
        tiles,
        more[i],
        more[i + 1],
    ) by {
        if i < way.len() - 1 {
            assert(way[i].loc != goal && hops(tiles, way[i], way[i + 1]));
        }
    }
}

/// What a state counts for: its cost, or more than any cost where it has
/// none yet.
pub open spec fn term(best: Map<(isize, isize, isize), isize>, k: (isize, isize, isize)) -> int {
    if best.contains_key(k) {
        best[k] as int
    } else {
        isize::MAX + 1
    }
}

/// What the four states of a place count for.
pub open spec fn term4(best: Map<(isize, isize, isize), isize>, p: (isize, isize)) -> int {
    term(best, (p.0, p.1, 0isize)) + term(best, (p.0, p.1, 1isize)) + term(best, (p.0, p.1, 2isize)) + term(
        best,
        (p.0, p.1, 3isize),
    )
}

/// What the states of the first `n` places count for, together.
pub open spec fn pot(best: Map<(isize, isize, isize), isize>, places: Seq<(isize, isize)>, n: int) -> int
    decreases n,
{
    if n <= 0 {
        0
    } else {
        pot(best, places, n - 1) + term4(best, places[n - 1])
    }
}

/// No cost is negative.
pub open spec fn positive(best: Map<(isize, isize, isize), isize>) -> bool {
    forall|k: (isize, isize, isize)| #[trigger] best.contains_key(k) ==> best[k] >= 0
}

proof fn lemma_pot_positive(best: Map<(isize, isize, isize), isize>, places: Seq<(isize, isize)>, n: int)
    requires
        positive(best),
    ensures
        pot(best, places, n) >= 0,
    decreases n,
{
    if n > 0 {
        lemma_pot_positive(best, places, n - 1);
        let p = places[n - 1];
        assert(term(best, (p.0, p.1, 0isize)) >= 0);
        assert(term(best, (p.0, p.1, 1isize)) >= 0);
        assert(term(best, (p.0, p.1, 2isize)) >= 0);
        assert(term(best, (p.0, p.1, 3isize)) >= 0);
    }
}

proof fn lemma_pot_lower(
    best: Map<(isize, isize, isize), isize>,
    places: Seq<(isize, isize)>,
    n: int,
    at: int,
    k: (isize, isize, isize),
    v: isize,
)
    requires
        places.no_duplicates(),
        0 <= at < places.len(),
        0 <= n <= places.len(),
        places[at] == (k.0, k.1),
        0 <= k.2 < 4,
    ensures
        pot(best.insert(k, v), places, n) == pot(best, places, n) - (if at < n {
            term(best, k) - v
        } else {
            0
        }),
    decreases n,
{
    if n > 0 {
        lemma_pot_lower(best, places, n - 1, at, k, v);
        let after = best.insert(k, v);
        let p = places[n - 1];
        if n - 1 == at {
            assert(term4(after, p) == term4(best, p) - (term(best, k) - v));
        } else {
            assert(p != (k.0, k.1));
            assert(term4(after, p) == term4(best, p));
        }
    }
}

/// The cheapest of the costs that `best_costs` has for the states of
/// `end_deer`; the largest machine integer where there is no such state.
pub fn get_best_goal_cost(
    best_costs: &FxHashMap<(isize, isize, isize), isize>,
    end_deer: &FxHashSet<(isize, isize, isize)>,
) -> (least: Option<isize>)
    requires
        forall|e: (isize, isize, isize)| #[trigger] end_deer@.contains(e) ==> best_costs@.contains_key(e),
    ensures
        least.is_some(),
        forall|e: (isize, isize, isize)| #[trigger] end_deer@.contains(e) ==> least.unwrap() <= best_costs@[e],
        least.unwrap() == isize::MAX || exists|e: (isize, isize, isize)| #[trigger]
            end_deer@.contains(e) && best_costs@[e] == least.unwrap(),
{
    let ends = set_keys(end_deer);
    let mut min_cost = isize::MAX;
    let mut i: usize = 0;
    while i < ends.len()
        invariant
            i <= ends.len(),
            forall|e: (isize, isize, isize)| ends@.contains(e) ==> end_deer@.contains(e),
            forall|e: (isize, isize, isize)| #[trigger] end_deer@.contains(e) ==> best_costs@.contains_key(e),
            forall|k: int| 0 <= k < i ==> min_cost <= best_costs@[#[trigger] ends[k]],
            min_cost == isize::MAX || exists|k: int| 0 <= k < i && best_costs@[#[trigger] ends[k]] == min_cost,
        decreases ends.len() - i,
    {
        assert(ends@.contains(ends[i as int]));
        let kept = tally_get(best_costs, ends[i]);
        let best = kept.unwrap();
        if best < min_cost {
            min_cost = best;
        }
        i += 1;
    }
    proof {
        assert forall|e: (isize, isize, isize)| #[trigger] end_deer@.contains(e) implies min_cost
            <= best_costs@[e] by {
            assert(ends@.contains(e));
            let k = choose|k: int| 0 <= k < ends.len() && ends[k] == e;
            assert(min_cost <= best_costs@[ends[k]]);
        }
        if min_cost != isize::MAX {
            let k = choose|k: int| 0 <= k < i && best_costs@[#[trigger] ends[k]] == min_cost;
            assert(ends@.contains(ends[k]));
            assert(end_deer@.contains(ends[k]));
        }
    }
    Some(min_cost)
}

/// The reindeer whose state is `k`.
pub open spec fn deer_at(k: (isize, isize, isize)) -> Deer {
    Deer {
        loc: Loc { x: k.0, y: k.1 },
        dir: if k.2 == 0 {
            Direction::North
        } else if k.2 == 1 {
            Direction::South
        } else if k.2 == 2 {
            Direction::East
        } else {
            Direction::West
        },
    }
}

/// A reindeer with the state `k` waits at or after place `head` of the
/// queue.
pub open spec fn pending(queue: Seq<Deer>, head: int, k: (isize, isize, isize)) -> bool {
    exists|i: int| head <= i < queue.len() && state_of(#[trigger] queue[i]) == k
}

/// Each move of `s` leads to a state whose cost is no more than the cost of
/// `s` and of the move, as far as a machine integer holds that.
pub open spec fn relaxed(tiles: Map<(isize, isize), Tile>, best: Map<(isize, isize, isize), isize>, s: Deer) -> bool {
    forall|k: int|
        0 <= k < 3 ==> match #[trigger] moved(tiles, s, rotation_at(k)) {
            Some(t) => best[state_of(s)] + cost_with(rotation_at(k)) <= isize::MAX ==> best.contains_key(
                state_of(t),
            ) && best[state_of(t)] <= best[state_of(s)] + cost_with(rotation_at(k)),
            None => true,
        }
}

/// `way` leads from `start` to the reindeer with the state `k`, at the cost
/// that `best` has for it.
pub open spec fn leads(
    tiles: Map<(isize, isize), Tile>,
    goal: Loc,
    start: Deer,
    best: Map<(isize, isize, isize), isize>,
    k: (isize, isize, isize),
    way: Seq<Deer>,
) -> bool {
    &&& is_way(tiles, goal, way)
    &&& way[0] == start
    &&& way.last() == deer_at(k)
    &&& state_of(way.last()) == k
    &&& way_cost(way) == best[k]
}

/// What a search from `start` has found: `best` has, for each state that a
/// way reaches at a cost within the machine integers, the cost of the
/// cheapest way to it, and `ends` holds those of the states that are on the
/// goal.
pub open spec fn searched(
    tiles: Map<(isize, isize), Tile>,
    goal: Loc,
    start: Deer,
    best: Map<(isize, isize, isize), isize>,
    ends: Set<(isize, isize, isize)>,
) -> bool {
    &&& forall|k: (isize, isize, isize)| #[trigger]
        best.contains_key(k) ==> exists|way: Seq<Deer>| #[trigger] leads(tiles, goal, start, best, k, way)
    &&& forall|e: (isize, isize, isize)| #[trigger]
        ends.contains(e) ==> best.contains_key(e) && deer_at(e).loc == goal
    &&& forall|way: Seq<Deer>|
        #![trigger is_way(tiles, goal, way)]
        is_way(tiles, goal, way) && way[0] == start && way_cost(way) <= isize::MAX ==> {
            &&& best.contains_key(state_of(way.last()))
            &&& best[state_of(way.last())] <= way_cost(way)
            &&& way.last().loc == goal ==> ends.contains(state_of(way.last()))
        }
}

/// The moves listed for `s` are all its moves.
proof fn lemma_moves_cover(tiles: Map<(isize, isize), Tile>, s: Deer, k: int)
    requires
        0 <= k < 3,
        moved(tiles, s, rotation_at(k)).is_some(),
    ensures
        moves_upto(tiles, s, 3).contains((moved(tiles, s, rotation_at(k)).unwrap(), cost_with(rotation_at(k)))),
{
    reveal_with_fuel(moves_upto, 4);
    let all = moves_upto(tiles, s, 3);
    let m1 = moves_upto(tiles, s, 1);
    let m2 = moves_upto(tiles, s, 2);
    let e = (moved(tiles, s, rotation_at(k)).unwrap(), cost_with(rotation_at(k)));
    if k == 0 {
        assert(m1[m1.len() - 1] == e);
        assert(m2[m1.len() - 1] == e);
        assert(all[m1.len() - 1] == e);
    } else if k == 1 {
        assert(m2[m2.len() - 1] == e);
        assert(all[m2.len() - 1] == e);
    } else {
        assert(all[all.len() - 1] == e);
    }
}

/// Each listed move of `s` is a move of `s`, at its cost.
proof fn lemma_moves_are_hops(tiles: Map<(isize, isize), Tile>, s: Deer, i: int)
    requires
        0 <= i < moves_upto(tiles, s, 3).len(),
    ensures
        hops(tiles, s, moves_upto(tiles, s, 3)[i].0),
        hop_cost(s, moves_upto(tiles, s, 3)[i].0) == moves_upto(tiles, s, 3)[i].1,
        moves_upto(tiles, s, 3)[i].0.loc != s.loc,
        open_at(tiles, moves_upto(tiles, s, 3)[i].0.loc.x as int, moves_upto(tiles, s, 3)[i].0.loc.y as int),
        state_of(deer_at(state_of(moves_upto(tiles, s, 3)[i].0))) == state_of(moves_upto(tiles, s, 3)[i].0),
        deer_at(state_of(moves_upto(tiles, s, 3)[i].0)) == moves_upto(tiles, s, 3)[i].0,
{
    reveal_with_fuel(moves_upto, 4);
    let all = moves_upto(tiles, s, 3);
    let m1 = moves_upto(tiles, s, 1);
    let m2 = moves_upto(tiles, s, 2);
    let e = all[i];
    if i < m1.len() {
        assert(m1[i] == e);
        assert(moved(tiles, s, rotation_at(0)) == Some(e.0));
    } else if i < m2.len() {
        assert(m2[i] == e);
        assert(moved(tiles, s, rotation_at(1)) == Some(e.0));
    } else {
        assert(moved(tiles, s, rotation_at(2)) == Some(e.0));
    }
}

/// Once every state is settled, no way is cheaper than the cost found for
/// its end.
proof fn lemma_settled_is_least(
    tiles: Map<(isize, isize), Tile>,
    goal: Loc,
    start: Deer,
    best: Map<(isize, isize, isize), isize>,
    ends: Set<(isize, isize, isize)>,
    way: Seq<Deer>,
)
    requires
        is_way(tiles, goal, way),
        way[0] == start,
        way_cost(way) <= isize::MAX,
        best.contains_key(state_of(start)),
        best[state_of(start)] == 0,
        positive(best),
        forall|k: (isize, isize, isize)| #[trigger]
            best.contains_key(k) ==> deer_at(k).loc == goal || relaxed(tiles, best, deer_at(k)),
        forall|k: (isize, isize, isize)| #[trigger]
            best.contains_key(k) ==> state_of(deer_at(k)) == k,
    ensures
        best.contains_key(state_of(way.last())),
        best[state_of(way.last())] <= way_cost(way),
    decreases way.len(),
{
    if way.len() > 1 {
        let before = way.drop_last();
        let s = before.last();
        let t = way.last();
        assert forall|i: int| 0 <= i < before.len() - 1 implies (#[trigger] before[i]).loc != goal && hops(
            tiles,
            before[i],
            before[i + 1],
        ) by {
            assert(way[i].loc != goal && hops(tiles, way[i], way[i + 1]));
        }
        lemma_way_cost_positive(before);
        lemma_settled_is_least(tiles, goal, start, best, ends, before);
        assert(way[way.len() - 2] == s);
        assert(s.loc != goal && hops(tiles, s, t));
        let k = choose|k: int| 0 <= k < 3 && #[trigger] moved(tiles, s, rotation_at(k)) == Some(t);
        assert(best.contains_key(state_of(s)));
        assert(state_of(deer_at(state_of(s))) == state_of(s));
        assert(deer_at(state_of(s)) == s);
        assert(relaxed(tiles, best, s));
        assert(hop_cost(s, t) == cost_with(rotation_at(k)));
    }
}

/// Searches the ways from `deer` through the maze: the cost of the cheapest
/// way to each state that can be reached, and the states reached on the goal.
/// A state is a column, a row and the number of a direction.
pub fn _compute_best_costs(maze: &Maze, deer: &Deer) -> (found: (
    FxHashMap<(isize, isize, isize), isize>,
    FxHashSet<(isize, isize, isize)>,
))
    ensures
        searched(maze.tiles(), maze.target(), *deer, found.0@, found.1@),
{
    proof {
        use_type_invariant(maze);
    }
    let ghost tiles = maze.base_map@;
    let ghost goal = maze.goal;
    let ghost start = *deer;
    let places = tally_keys(&maze.base_map);
    let mut to_process: Vec<Deer> = Vec::new();
    to_process.push(*deer);
    let mut head: usize = 0;
    let mut best_costs: FxHashMap<(isize, isize, isize), isize> = tally_new();
    let mut end_deer: FxHashSet<(isize, isize, isize)> = set_new();
    tally_insert(&mut best_costs, state(deer), 0);
    let ghost mut ways: Map<(isize, isize, isize), Seq<Deer>> = Map::empty().insert(
        state_of(start),
        seq![start],
    );
    proof {
        assert(best_costs@.dom() =~= set![state_of(start)]);
        assert(deer_at(state_of(start)) == start);
        assert(is_way(tiles, goal, seq![start]));
        assert(pending(to_process@, 0, state_of(start))) by {
            assert(state_of(to_process@[0]) == state_of(start));
        }
    }
    while head < to_process.len()
        invariant
            tiles == maze.base_map@,
            tiles == maze.tiles(),
            goal == maze.goal,
            goal == maze.target(),
            start == *deer,
            places@.no_duplicates(),
            forall|p: (isize, isize)| places@.contains(p) <==> tiles.contains_key(p),
            head <= to_process.len(),
            forall|k: (isize, isize, isize)| #[trigger]
                best_costs@.contains_key(k) ==> leads(tiles, goal, start, best_costs@, k, ways[k]),
            best_costs@.contains_key(state_of(start)),
            best_costs@[state_of(start)] == 0,
            positive(best_costs@),
            forall|i: int|
                head <= i < to_process.len() ==> best_costs@.contains_key(state_of(#[trigger] to_process[i])),
            forall|k: (isize, isize, isize)| #[trigger]
                best_costs@.contains_key(k) && !pending(to_process@, head as int, k) && deer_at(k).loc
                    != goal ==> relaxed(tiles, best_costs@, deer_at(k)),
            forall|k: (isize, isize, isize)| #[trigger]
                best_costs@.contains_key(k) && !pending(to_process@, head as int, k) && deer_at(k).loc
                    == goal ==> end_deer@.contains(k),
            forall|e: (isize, isize, isize)| #[trigger]
                end_deer@.contains(e) ==> best_costs@.contains_key(e) && deer_at(e).loc == goal,
            forall|k: (isize, isize, isize)| #[trigger]
                best_costs@.contains_key(k) ==> k == state_of(start) || tiles.contains_key((k.0, k.1)),
        decreases pot(best_costs@, places@, places.len() as int), to_process.len() - head,
    {
        let ghost pot0 = pot(best_costs@, places@, places.len() as int);
        let ghost len0 = to_process.len();
        let ghost queue0 = to_process@;
        let processing = to_process[head];
        let here = state(&processing);
        proof {
            lemma_pot_positive(best_costs@, places@, places.len() as int);
            assert(leads(tiles, goal, start, best_costs@, here, ways[here]));
            assert(deer_at(here) == processing);
            assert forall|k: (isize, isize, isize)| pending(queue0, head as int, k) && k != here implies pending(
                queue0,
                head + 1,
                k,
            ) by {
                let i = choose|i: int| head <= i < queue0.len() && state_of(#[trigger] queue0[i]) == k;
                assert(head + 1 <= i);
            }
        }
        head += 1;
        if processing.loc.x == maze.goal.x && processing.loc.y == maze.goal.y {
            set_insert(&mut end_deer, here);
        } else {
            let moves = maze.get_valid_moves(&processing);
            let kept = tally_get(&best_costs, here);
            let src_cost = kept.unwrap();
            let mut j: usize = 0;
            while j < moves.len()
                invariant
                    tiles == maze.base_map@,
                    tiles == maze.tiles(),
                    goal == maze.goal,
                    start == *deer,
                    places@.no_duplicates(),
                    forall|p: (isize, isize)| places@.contains(p) <==> tiles.contains_key(p),
                    1 <= head <= len0 <= to_process.len(),
                    j <= moves.len(),
                    dests(moves@) == moves_upto(tiles, processing, 3),
                    here == state_of(processing),
                    deer_at(here) == processing,
                    processing.loc != goal,
                    best_costs@.contains_key(here),
                    best_costs@[here] == src_cost,
                    forall|k: (isize, isize, isize)| #[trigger]
                        best_costs@.contains_key(k) ==> leads(tiles, goal, start, best_costs@, k, ways[k]),
                    best_costs@.contains_key(state_of(start)),
                    best_costs@[state_of(start)] == 0,
                    positive(best_costs@),
                    forall|i: int|
                        head <= i < to_process.len() ==> best_costs@.contains_key(
                            state_of(#[trigger] to_process[i]),
                        ),
                    forall|k: (isize, isize, isize)| #[trigger]
                        best_costs@.contains_key(k) && !pending(to_process@, head as int, k) && deer_at(
                            k,
                        ).loc != goal && k != here ==> relaxed(tiles, best_costs@, deer_at(k)),
                    forall|i: int|
                        0 <= i < j && src_cost + (#[trigger] dests(moves@)[i]).1 <= isize::MAX
                            ==> best_costs@.contains_key(state_of(dests(moves@)[i].0)) && best_costs@[state_of(
                            dests(moves@)[i].0,
                        )] <= src_cost + dests(moves@)[i].1,
                    forall|k: (isize, isize, isize)| #[trigger]
                        best_costs@.contains_key(k) && !pending(to_process@, head as int, k) && deer_at(
                            k,
                        ).loc == goal ==> end_deer@.contains(k),
                    forall|e: (isize, isize, isize)| #[trigger]
                        end_deer@.contains(e) ==> best_costs@.contains_key(e) && deer_at(e).loc == goal,
                    forall|k: (isize, isize, isize)| #[trigger]
                        best_costs@.contains_key(k) ==> k == state_of(start) || tiles.contains_key(
                            (k.0, k.1),
                        ),
                    pot(best_costs@, places@, places.len() as int) <= pot0,
                    pot(best_costs@, places@, places.len() as int) < pot0 || to_process.len() == len0,
                decreases moves.len() - j,
            {
                let dest = moves[j].dest_deer;
                let cost = moves[j].cost;
                let ghost before = best_costs@;
                let ghost queue = to_process@;
                proof {
                    assert(dests(moves@)[j as int] == (dest, cost));
                    lemma_moves_are_hops(tiles, processing, j as int);
                }
                if src_cost <= isize::MAX - cost {
                    let dest_cost = src_cost + cost;
                    let there = state(&dest);
                    let better = match tally_get(&best_costs, there) {
                        Some(existing) => dest_cost < existing,
                        None => true,
                    };
                    if better {
                        proof {
                            assert(places@.contains((there.0, there.1)));
                            let at = choose|at: int| 0 <= at < places.len() && places[at] == (there.0, there.1);
                            lemma_pot_lower(before, places@, places.len() as int, at, there, dest_cost);
                            assert(leads(tiles, goal, start, before, here, ways[here]));
                            lemma_way_grows(tiles, goal, ways[here], dest);
                        }
                        tally_insert(&mut best_costs, there, dest_cost);
                        to_process.push(dest);
                        proof {
                            let grown = ways[here].push(dest);
                            ways = ways.insert(there, grown);
                            assert(there != here);
                            assert(there != state_of(start));
                            assert(pending(to_process@, head as int, there)) by {
                                assert(state_of(to_process@[queue.len() as int]) == there);
                            }
                            assert forall|k: (isize, isize, isize)| pending(queue, head as int, k) implies pending(
                                to_process@,
                                head as int,
                                k,
                            ) by {
                                let i = choose|i: int| head <= i < queue.len() && state_of(#[trigger] queue[i]) == k;
                                assert(state_of(to_process@[i]) == k);
                            }
                            assert forall|k: (isize, isize, isize)| #[trigger]
                                best_costs@.contains_key(k) implies leads(
                                tiles,
                                goal,
                                start,
                                best_costs@,
                                k,
                                ways[k],
                            ) by {
                                if k != there {
                                    assert(before.contains_key(k));
                                    assert(leads(tiles, goal, start, before, k, ways[k]));
                                }
                            }
                            assert forall|i: int|
                                head <= i < to_process.len() implies best_costs@.contains_key(
                                state_of(#[trigger] to_process[i]),
                            ) by {
                                if i < queue.len() {
                                    assert(before.contains_key(state_of(queue[i])));
                                }
                            }
                            assert forall|k: (isize, isize, isize)| #[trigger]
                                best_costs@.contains_key(k) && !pending(to_process@, head as int, k) && deer_at(
                                    k,
                                ).loc != goal && k != here implies relaxed(tiles, best_costs@, deer_at(k)) by {
                                assert(k != there);
                                assert(before.contains_key(k));
                                assert(!pending(queue, head as int, k));
                                assert(relaxed(tiles, before, deer_at(k)));
                                assert(leads(tiles, goal, start, before, k, ways[k]));
                                assert(state_of(deer_at(k)) == k);
                                assert forall|r: int| 0 <= r < 3 implies match #[trigger] moved(
                                    tiles,
                                    deer_at(k),
                                    rotation_at(r),
                                ) {
                                    Some(t) => best_costs@[state_of(deer_at(k))] + cost_with(rotation_at(r))
                                        <= isize::MAX ==> best_costs@.contains_key(state_of(t))
                                        && best_costs@[state_of(t)] <= best_costs@[state_of(deer_at(k))]
                                        + cost_with(rotation_at(r)),
                                    None => true,
                                } by {
                                    match moved(tiles, deer_at(k), rotation_at(r)) {
                                        Some(t) => {
                                            if before[k] + cost_with(rotation_at(r)) <= isize::MAX {
                                                assert(before.contains_key(state_of(t)));
                                                assert(before[state_of(t)] <= before[k] + cost_with(
                                                    rotation_at(r),
                                                ));
                                            }
                                        },
                                        None => {},
                                    }
                                }
                            }
                            assert forall|i: int|
                                0 <= i < j + 1 && src_cost + (#[trigger] dests(moves@)[i]).1
                                    <= isize::MAX implies best_costs@.contains_key(
                                state_of(dests(moves@)[i].0),
                            ) && best_costs@[state_of(dests(moves@)[i].0)] <= src_cost + dests(moves@)[i].1 by {
                                if i < j {
                                    assert(before.contains_key(state_of(dests(moves@)[i].0)));
                                }
                            }
                            assert forall|k: (isize, isize, isize)| #[trigger]
                                best_costs@.contains_key(k) && !pending(to_process@, head as int, k) && deer_at(
                                    k,
                                ).loc == goal implies end_deer@.contains(k) by {
                                assert(k != there);
                                assert(before.contains_key(k));
                                assert(!pending(queue, head as int, k));
                            }
                            assert forall|k: (isize, isize, isize)| #[trigger]
                                best_costs@.contains_key(k) implies k == state_of(start) || tiles.contains_key(
                                (k.0, k.1),
                            ) by {
                                if k != there {
                                    assert(before.contains_key(k));
                                }
                            }
                            assert(positive(best_costs@)) by {
                                assert forall|k: (isize, isize, isize)| #[trigger]
                                    best_costs@.contains_key(k) implies best_costs@[k] >= 0 by {
                                    if k != there {
                                        assert(before.contains_key(k));
                                    }
                                }
                            }
                        }
                    }
                }
                j += 1;
            }
            proof {
                assert(relaxed(tiles, best_costs@, processing)) by {
                    assert forall|r: int| 0 <= r < 3 implies match #[trigger] moved(
                        tiles,
                        processing,
                        rotation_at(r),
                    ) {
                        Some(t) => best_costs@[state_of(processing)] + cost_with(rotation_at(r))
                            <= isize::MAX ==> best_costs@.contains_key(state_of(t)) && best_costs@[state_of(
                            t,
                        )] <= best_costs@[state_of(processing)] + cost_with(rotation_at(r)),
                        None => true,
                    } by {
                        if moved(tiles, processing, rotation_at(r)).is_some() {
                            lemma_moves_cover(tiles, processing, r);
                            let e = (
                                moved(tiles, processing, rotation_at(r)).unwrap(),
                                cost_with(rotation_at(r)),
                            );
                            let all = dests(moves@);
                            let i = choose|i: int| 0 <= i < all.len() && all[i] == e;
                            assert(dests(moves@)[i] == e);
                        }
                    }
                }
            }
        }
        proof {
            lemma_pot_positive(best_costs@, places@, places.len() as int);
        }
    }
    proof {
        let best = best_costs@;
        let ends = end_deer@;
        assert forall|k: (isize, isize, isize)| #[trigger] best.contains_key(k) implies deer_at(k).loc == goal
            || relaxed(tiles, best, deer_at(k)) by {
            assert(!pending(to_process@, head as int, k));
        }
        assert forall|k: (isize, isize, isize)| #[trigger] best.contains_key(k) implies state_of(deer_at(k))
            == k by {
            assert(leads(tiles, goal, start, best, k, ways[k]));
        }
        assert forall|way: Seq<Deer>|
            #![trigger is_way(tiles, goal, way)]
            is_way(tiles, goal, way) && way[0] == start && way_cost(way) <= isize::MAX implies {
                &&& best.contains_key(state_of(way.last()))
                &&& best[state_of(way.last())] <= way_cost(way)
                &&& way.last().loc == goal ==> ends.contains(state_of(way.last()))
            } by {
            lemma_settled_is_least(tiles, goal, start, best, ends, way);
            let k = state_of(way.last());
            assert(leads(tiles, goal, start, best, k, ways[k]));
            assert(!pending(to_process@, head as int, k));
        }
        assert forall|k: (isize, isize, isize)| #[trigger] best.contains_key(k) implies exists|way: Seq<Deer>| #[trigger]
            leads(tiles, goal, start, best, k, way) by {
            assert(leads(tiles, goal, start, best, k, ways[k]));
        }
    }
    (best_costs, end_deer)
}

/// What the cheapest way from `deer` to the goal of the maze costs; the
/// largest machine integer where there is no way, or none that cheap.
pub fn solve_for_min(maze: &Maze, deer: &Deer) -> (least: Option<isize>)
    ensures
        least.is_some(),
        least_cost(maze.tiles(), maze.target(), *deer, least.unwrap()),
{
    let (best_costs, end_deer) = _compute_best_costs(maze, deer);
    let least = get_best_goal_cost(&best_costs, &end_deer);
    proof {
        let tiles = maze.tiles();
        let goal = maze.target();
        let m = least.unwrap();
        assert forall|way: Seq<Deer>| #[trigger] goal_way(tiles, goal, *deer, way) implies m <= way_cost(
            way,
        ) by {
            if way_cost(way) <= isize::MAX {
                assert(is_way(tiles, goal, way));
                assert(end_deer@.contains(state_of(way.last())));
            }
        }
        if m != isize::MAX {
            let e = choose|e: (isize, isize, isize)| #[trigger] end_deer@.contains(e) && best_costs@[e] == m;
            assert(best_costs@.contains_key(e));
            let way = choose|way: Seq<Deer>| #[trigger] leads(tiles, goal, *deer, best_costs@, e, way);
            assert(goal_way(tiles, goal, *deer, way) && way_cost(way) == m);
        }
    }
    least
}

/// What the cheapest way costs through the maze drawn in `input`, from the
/// reindeer, who looks east, to the goal; `None` where `input` draws no
/// maze.
pub fn _solution1(input: &String) -> (least: Option<isize>)
    ensures
        match least {
            Some(m) => {
                &&& draws_maze(lines_of(bytes_of(input@)))
                &&& exists|from: (isize, isize), to: (isize, isize)|
                    {
                        &&& #[trigger] tiles_of(lines_of(bytes_of(input@))).contains_key(from)
                        &&& tiles_of(lines_of(bytes_of(input@)))[from] == Tile::Deer
                        &&& #[trigger] tiles_of(lines_of(bytes_of(input@))).contains_key(to)
                        &&& tiles_of(lines_of(bytes_of(input@)))[to] == Tile::Goal
                        &&& least_cost(
                            tiles_of(lines_of(bytes_of(input@))),
                            Loc { x: to.0, y: to.1 },
                            Deer { loc: Loc { x: from.0, y: from.1 }, dir: Direction::East },
                            m,
                        )
                    }
            },
            None => !draws_maze(lines_of(bytes_of(input@))),
        },
{
    match Maze::from(input) {
        Some(maze) => {
            let deer = maze.deer_start();
            let least = solve_for_min(&maze, &deer);
            proof {
                let from = (deer.loc.x, deer.loc.y);
                let to = (maze.target().x, maze.target().y);
                assert(tiles_of(lines_of(bytes_of(input@))).contains_key(from));
                assert(tiles_of(lines_of(bytes_of(input@))).contains_key(to));
            }
            least
        },
        None => None,
    }
}

} // verus!
