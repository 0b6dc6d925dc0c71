//! A warehouse in which a robot pushes boxes, as it is drawn and as it is
//! drawn at twice the width.

use vstd::prelude::*;
use rustc_hash::FxHashMap;
use rustc_hash::FxHashSet;
use crate::tally::set_contains;
use crate::tally::set_insert;
use crate::tally::set_new;
use crate::tally::tally_get;
use crate::tally::tally_insert;
use crate::tally::tally_new;
use crate::text::bytes_of;
use crate::text::lines;
use crate::text::lines_of;
use crate::text::rows;
use crate::text::text_bytes;

verus! {

pub const CHAR_LEFT: u8 = 60;

pub const CHAR_RIGHT: u8 = 62;

pub const CHAR_UP: u8 = 94;

pub const CHAR_DOWN: u8 = 118;

pub const CHAR_ROBOT: u8 = 64;

pub const CHAR_BOX: u8 = 79;

pub const CHAR_WALL: u8 = 35;

pub const CHAR_EMPTY: u8 = 46;

pub const CHAR_BOX_LEFT: u8 = 91;

pub const CHAR_BOX_RIGHT: u8 = 93;

#[derive(Debug, PartialEq, Eq, Hash, Clone, Copy, Structural)]
pub struct Loc {
    pub x: isize,
    pub y: isize,
}

#[derive(Debug, Clone, Copy, PartialEq, Eq, Structural)]
pub struct Dimensions {
    pub x: isize,
    pub y: isize,
}

#[derive(Debug, Clone, Copy, PartialEq, Eq, Structural)]
pub enum Entity {
    Robot,
    Wall,
    Box,
    BoxLeft,
    BoxRight,
}

#[derive(Debug, Clone, Copy, PartialEq, Eq, Structural)]
pub enum Movement {
    Left,
    Right,
    Up,
    Down,
}

pub fn _loc_u(x: usize, y: usize) -> (loc: Loc)
    requires
        x <= isize::MAX,
        y <= isize::MAX,
    ensures
        loc.x == x,
        loc.y == y,
{
    Loc { x: x as isize, y: y as isize }
}

pub fn _loc_i(x: isize, y: isize) -> (loc: Loc)
    ensures
        loc == (Loc { x, y }),
{
    Loc { x, y }
}

/// The movement that a byte asks for.
pub open spec fn movement_of(byte: u8) -> Option<Movement> {
    if byte == CHAR_LEFT {
        Some(Movement::Left)
    } else if byte == CHAR_RIGHT {
        Some(Movement::Right)
    } else if byte == CHAR_UP {
        Some(Movement::Up)
    } else if byte == CHAR_DOWN {
        Some(Movement::Down)
    } else {
        None
    }
}

/// What has been read of the movements: those read so far, and whether the
/// empty line that comes before them has gone by.
pub struct Moves {
    pub movements: Seq<Movement>,
    pub started: bool,
}

/// The movements that a line writes, one for each byte.
pub open spec fn line_moves(line: Seq<u8>) -> Option<Seq<Movement>> {
    if forall|i: int| 0 <= i < line.len() ==> movement_of(#[trigger] line[i]).is_some() {
        Some(Seq::new(line.len(), |i: int| movement_of(line[i]).unwrap()))
    } else {
        None
    }
}

/// The movements that the lines after the first empty line write.
pub open spec fn moves_in(lines: Seq<Seq<u8>>) -> Option<Moves>
    decreases lines.len(),
{
    if lines.len() == 0 {
        Some(Moves { movements: Seq::empty(), started: false })
    } else {
        match moves_in(lines.drop_last()) {
            None => None,
            Some(before) => if !before.started {
                Some(Moves { started: lines.last().len() == 0, ..before })
            } else {
                match line_moves(lines.last()) {
                    Some(more) => Some(Moves { movements: before.movements + more, ..before }),
                    None => None,
                }
            },
        }
    }
}

pub fn parse_movements(input: &String) -> (movements: Option<Vec<Movement>>)
    ensures
        match movements {
            Some(read) => moves_in(lines_of(bytes_of(input@))).is_some() && moves_in(
                lines_of(bytes_of(input@)),
            ).unwrap().movements == read@,
            None => moves_in(lines_of(bytes_of(input@))).is_none(),
        },
{
    let found = lines(text_bytes(input));
    let mut movements: Vec<Movement> = Vec::new();
    let mut started = false;
    let mut i: usize = 0;
    assert(rows(found@).take(0) =~~= Seq::<Seq<u8>>::empty());
    while i < found.len()
        invariant
            i <= found.len(),
            rows(found@) == lines_of(bytes_of(input@)),
            moves_in(rows(found@).take(i as int)) == Some(Moves { movements: movements@, started }),
        decreases found.len() - i,
    {
        assert(rows(found@).take(i + 1).drop_last() =~~= rows(found@).take(i as int));
        assert(rows(found@).take(i + 1).last() == found[i as int]@);
        let line = &found[i];
        if !started {
            started = line.len() == 0;
        } else {
            let ghost before = movements@;
            let mut j: usize = 0;
            while j < line.len()
                invariant
                    j <= line.len(),
                    i < found.len(),
                    line == &found[i as int],
                    rows(found@) == lines_of(bytes_of(input@)),
                    moves_in(rows(found@).take(i as int)) == Some(
                        Moves { movements: before, started: true },
                    ),
                    rows(found@).take(i + 1).drop_last() == rows(found@).take(i as int),
                    rows(found@).take(i + 1).last() == line@,
                    forall|k: int| 0 <= k < j ==> movement_of(#[trigger] line[k]).is_some(),
                    movements@ == before + Seq::new(j as nat, |k: int| movement_of(line[k]).unwrap()),
                decreases line.len() - j,
            {
                let c = line[j];
                let movement = if c == CHAR_LEFT {
                    Movement::Left
                } else if c == CHAR_RIGHT {
                    Movement::Right
                } else if c == CHAR_UP {
                    Movement::Up
                } else if c == CHAR_DOWN {
                    Movement::Down
                } else {
                    proof {
                        assert(movement_of(line@[j as int]).is_none());
                        assert(line_moves(line@).is_none());
                        assert(moves_in(rows(found@).take(i + 1)).is_none());
                        lemma_moves_fail(rows(found@), (i + 1) as nat);
                    }
                    return None;
                };
                movements.push(movement);
                assert(movements@ =~= before + Seq::new(
                    (j + 1) as nat,
                    |k: int| movement_of(line[k]).unwrap(),
                ));
                j += 1;
            }
            assert(movements@ =~= before + line_moves(line@).unwrap());
        }
        i += 1;
    }
    assert(rows(found@).take(i as int) =~~= rows(found@));
    Some(movements)
}

/// Once the movements cannot be read, more lines do not mend them.
proof fn lemma_moves_fail(lines: Seq<Seq<u8>>, count: nat)
    requires
        count <= lines.len(),
        moves_in(lines.take(count as int)).is_none(),
    ensures
        moves_in(lines).is_none(),
    decreases lines.len() - count,
{
    if count < lines.len() {
        assert(lines.take(count + 1 as int).drop_last() =~~= lines.take(count as int));
        lemma_moves_fail(lines, count + 1);
    } else {
        assert(lines.take(count as int) =~~= lines);
    }
}

/// What a byte of the drawing becomes at twice the width: a box its two
/// halves, the robot itself and an empty place, a wall or an empty place
/// two of the kind, anything else itself.
pub open spec fn widened(byte: u8) -> Seq<u8> {
    if byte == CHAR_ROBOT {
        seq![CHAR_ROBOT, CHAR_EMPTY]
    } else if byte == CHAR_WALL {
        seq![CHAR_WALL, CHAR_WALL]
    } else if byte == CHAR_EMPTY {
        seq![CHAR_EMPTY, CHAR_EMPTY]
    } else if byte == CHAR_BOX {
        seq![CHAR_BOX_LEFT, CHAR_BOX_RIGHT]
    } else {
        seq![byte]
    }
}

/// The drawing `bytes` at twice the width.
pub open spec fn expanded(bytes: Seq<u8>) -> Seq<u8>
    decreases bytes.len(),
{
    if bytes.len() == 0 {
        Seq::empty()
    } else {
        expanded(bytes.drop_last()) + widened(bytes.last())
    }
}

/// The bytes of the drawing `input` at twice the width.
pub fn expand_warehouse(input: &String) -> (wide: Vec<u8>)
    ensures
        wide@ == expanded(bytes_of(input@)),
{
    let bytes = text_bytes(input);
    let mut wide: Vec<u8> = Vec::new();
    let mut i: usize = 0;
    assert(bytes@.take(0) =~= Seq::<u8>::empty());
    while i < bytes.len()
        invariant
            i <= bytes.len(),
            bytes@ == bytes_of(input@),
            wide@ == expanded(bytes@.take(i as int)),
        decreases bytes.len() - i,
    {
        assert(bytes@.take(i + 1).drop_last() =~= bytes@.take(i as int));
        let ghost before = wide@;
        let c = bytes[i];
        if c == CHAR_ROBOT {
            wide.push(CHAR_ROBOT);
            wide.push(CHAR_EMPTY);
        } else if c == CHAR_WALL {
            wide.push(CHAR_WALL);
            wide.push(CHAR_WALL);
        } else if c == CHAR_EMPTY {
            wide.push(CHAR_EMPTY);
            wide.push(CHAR_EMPTY);
        } else if c == CHAR_BOX {
            wide.push(CHAR_BOX_LEFT);
            wide.push(CHAR_BOX_RIGHT);
        } else {
            wide.push(c);
        }
        assert(wide@ =~= before + widened(c));
        i += 1;
    }
    assert(bytes@.take(i as int) =~= bytes@);
    wide
}

/// A warehouse as a value: what stands on each place, where the robot is,
/// and how many columns and rows there are.
pub ghost struct Floor {
    pub cells: Map<(isize, isize), Option<Entity>>,
    pub robot: Loc,
    pub dims: Dimensions,
}

/// Why the robot did not move: something that does not move stood in the
/// way, or the warehouse is not in order (a place is missing, or a move
/// would take nothing, or would go where something stands).
#[derive(Debug, Clone, Copy, PartialEq, Eq, Structural)]
pub enum PushErr {
    Blocked,
    Broken,
}

/// The place in column `x` and row `y` is inside the warehouse.
pub open spec fn in_grid(dims: Dimensions, x: int, y: int) -> bool {
    0 <= x < dims.x && 0 <= y < dims.y
}

/// The place one step from `src` in the direction `dir`.
pub open spec fn step_to(src: Loc, dir: Movement) -> (int, int) {
    match dir {
        Movement::Up => (src.x as int, src.y - 1),
        Movement::Down => (src.x as int, src.y + 1),
        Movement::Left => (src.x - 1, src.y as int),
        Movement::Right => (src.x + 1, src.y as int),
    }
}

/// How many steps in the direction `dir` lead from `src` to the first place
/// outside the warehouse.
pub open spec fn room(dims: Dimensions, src: Loc, dir: Movement) -> nat {
    let steps = match dir {
        Movement::Up => src.y + 1,
        Movement::Down => dims.y - src.y,
        Movement::Left => src.x + 1,
        Movement::Right => dims.x - src.x,
    };
    if steps >= 0 {
        steps as nat
    } else {
        0
    }
}

/// The pushes listed so far, each from a place to the next with whether it
/// can be made, and whether the push asked for can be made; `ok` is `None`
/// where a place is missing.
pub ghost struct Plan {
    pub pushes: Seq<(Loc, Loc, bool)>,
    pub ok: Option<bool>,
}

/// What comes of a push of what stands on `src` in the direction `dir`,
/// after the pushes `pushes`. Nothing stands in the way on an empty place; a
/// wall does; a box, or the robot, is pushed on in turn, and half a wide box
/// that is pushed up or down takes its other half along. Each push is
/// listed behind those that it brings about.
pub open spec fn plan(
    cells: Map<(isize, isize), Option<Entity>>,
    dims: Dimensions,
    src: Loc,
    dir: Movement,
    pushes: Seq<(Loc, Loc, bool)>,
) -> Plan
    decreases room(dims, src, dir),
{
    let d = step_to(src, dir);
    let dest = Loc { x: d.0 as isize, y: d.1 as isize };
    if !in_grid(dims, src.x as int, src.y as int) || !cells.contains_key((src.x, src.y)) || !in_grid(
        dims,
        d.0,
        d.1,
    ) || !cells.contains_key((dest.x, dest.y)) {
        Plan { pushes, ok: None }
    } else {
        match cells[(dest.x, dest.y)] {
            None => Plan { pushes: pushes.push((src, dest, true)), ok: Some(true) },
            Some(Entity::Wall) => Plan { pushes: pushes.push((src, dest, false)), ok: Some(false) },
            Some(entity) => {
                if (dir == Movement::Up || dir == Movement::Down) && (entity == Entity::BoxLeft || entity
                    == Entity::BoxRight) {
                    let box_l = if entity == Entity::BoxLeft {
                        dest
                    } else {
                        Loc { x: (dest.x - 1) as isize, y: dest.y }
                    };
                    let box_r = if entity == Entity::BoxLeft {
                        Loc { x: (dest.x + 1) as isize, y: dest.y }
                    } else {
                        dest
                    };
                    let left = plan(cells, dims, box_l, dir, pushes);
                    if left.ok.is_none() {
                        left
                    } else {
                        let right = plan(cells, dims, box_r, dir, left.pushes);
                        if right.ok.is_none() {
                            right
                        } else {
                            let both = left.ok == Some(true) && right.ok == Some(true);
                            Plan { pushes: right.pushes.push((src, dest, both)), ok: Some(both) }
                        }
                    }
                } else {
                    let next = plan(cells, dims, dest, dir, pushes);
                    match next.ok {
                        None => next,
                        Some(can) => Plan { pushes: next.pushes.push((src, dest, can)), ok: Some(can) },
                    }
                }
            },
        }
    }
}

/// The places once what stands on `src` has gone to the empty place `dest`;
/// nothing where `dest` is missing or taken, or nothing stands on `src`.
pub open spec fn moved_cells(cells: Map<(isize, isize), Option<Entity>>, src: Loc, dest: Loc) -> Option<
    Map<(isize, isize), Option<Entity>>,
> {
    if cells.contains_key((dest.x, dest.y)) && cells[(dest.x, dest.y)].is_none() && cells.contains_key(
        (src.x, src.y),
    ) && cells[(src.x, src.y)].is_some() {
        Some(cells.insert((src.x, src.y), None).insert((dest.x, dest.y), cells[(src.x, src.y)]))
    } else {
        None
    }
}

/// The key under which a push from `src` to `dest` is remembered.
pub open spec fn push_key(src: Loc, dest: Loc) -> (isize, isize, isize, isize) {
    (src.x, src.y, dest.x, dest.y)
}

/// The places once the first `n` pushes have been carried out, one after
/// the other and none twice, with the pushes made; nothing where one of
/// them cannot be made.
pub open spec fn carried(cells: Map<(isize, isize), Option<Entity>>, pushes: Seq<(Loc, Loc, bool)>, n: int) -> Option<
    (Map<(isize, isize), Option<Entity>>, Set<(isize, isize, isize, isize)>),
>
    decreases n,
{
    if n <= 0 {
        Some((cells, Set::empty()))
    } else {
        match carried(cells, pushes, n - 1) {
            None => None,
            Some((now, made)) => {
                let p = pushes[n - 1];
                if made.contains(push_key(p.0, p.1)) {
                    Some((now, made))
                } else {
                    match moved_cells(now, p.0, p.1) {
                        Some(next) => Some((next, made.insert(push_key(p.0, p.1)))),
                        None => None,
                    }
                }
            },
        }
    }
}

/// The warehouse after the robot has tried to go one step in the direction
/// `dir`, pushing what it can: the same where something stands in the way;
/// nothing where the warehouse is not in order.
pub open spec fn pushed(floor: Floor, dir: Movement) -> Option<Floor> {
    let tried = plan(floor.cells, floor.dims, floor.robot, dir, Seq::empty());
    match tried.ok {
        None => None,
        Some(false) => Some(floor),
        Some(true) => match carried(floor.cells, tried.pushes, tried.pushes.len() as int) {
            None => None,
            Some((cells, made)) => Some(Floor { cells, robot: tried.pushes.last().1, dims: floor.dims }),
        },
    }
}

/// Once a push cannot be made, more pushes do not mend it.
pub proof fn lemma_carried_fails(
    cells: Map<(isize, isize), Option<Entity>>,
    pushes: Seq<(Loc, Loc, bool)>,
    n: int,
    all: int,
)
    requires
        0 <= n <= all,
        carried(cells, pushes, n).is_none(),
    ensures
        carried(cells, pushes, all).is_none(),
    decreases all,
{
    if n < all {
        lemma_carried_fails(cells, pushes, n, all - 1);
    }
}

/// A warehouse: a robot among boxes and walls.
pub struct Warehouse {
    robot_loc: Loc,
    map: FxHashMap<(isize, isize), Option<Entity>>,
    dimensions: Dimensions,
}

impl Warehouse {
    /// The warehouse has a place for each column of each row, and no other.
    pub closed spec fn wf(&self) -> bool {
        &&& 0 <= self.dimensions.x < isize::MAX
        &&& 0 <= self.dimensions.y < isize::MAX
        &&& forall|p: (isize, isize)| #[trigger]
            self.map@.contains_key(p) <==> in_grid(self.dimensions, p.0 as int, p.1 as int)
    }

    /// The warehouse as a value.
    pub closed spec fn view(&self) -> Floor {
        Floor { cells: self.map@, robot: self.robot_loc, dims: self.dimensions }
    }

    /// Where the robot is.
    pub fn robot_loc(&self) -> (loc: Loc)
        ensures
            loc == self@.robot,
    {
        self.robot_loc
    }

    /// What stands on `loc`: `None` outside the warehouse, `Some(None)` on
    /// an empty place.
    pub fn at(&self, loc: &Loc) -> (entity: Option<Option<Entity>>)
        ensures
            entity == (if self@.cells.contains_key((loc.x, loc.y)) {
                Some(self@.cells[(loc.x, loc.y)])
            } else {
                None
            }),
    {
        tally_get(&self.map, (loc.x, loc.y))
    }

    /// The place one step from `src` in the direction `dir`.
    pub fn _get_push_dest(&self, src: &Loc, dir: &Movement) -> (dest: Loc)
        requires
            isize::MIN < src.x < isize::MAX,
            isize::MIN < src.y < isize::MAX,
        ensures
            (dest.x as int, dest.y as int) == step_to(*src, *dir),
    {
        match dir {
            Movement::Up => Loc { x: src.x, y: src.y - 1 },
            Movement::Down => Loc { x: src.x, y: src.y + 1 },
            Movement::Left => Loc { x: src.x - 1, y: src.y },
            Movement::Right => Loc { x: src.x + 1, y: src.y },
        }
    }

    /// Finds out whether what stands on `src` can be pushed in the
    /// direction `dir`, and lists the pushes that this takes in `pushes`.
    pub fn _try_push(&self, src: &Loc, dir: &Movement, pushes: &mut Vec<(Loc, Loc, bool)>) -> (can: Option<
        bool,
    >)
        requires
            self.wf(),
        ensures
            plan(self@.cells, self@.dims, *src, *dir, old(pushes)@) == (Plan { pushes: final(pushes)@, ok: can }),
            can.is_some() ==> final(pushes).len() > 0 && final(pushes)@.last().0 == *src && in_grid(
                self@.dims,
                final(pushes)@.last().1.x as int,
                final(pushes)@.last().1.y as int,
            ),
        decreases room(self@.dims, *src, *dir),
    {
        if tally_get(&self.map, (src.x, src.y)).is_none() {
            return None;
        }
        let dest = self._get_push_dest(src, dir);
        let dest_entity = match tally_get(&self.map, (dest.x, dest.y)) {
            Some(entity) => entity,
            None => {
                return None;
            },
        };
        let up_or_down = match dir {
            Movement::Up => true,
            Movement::Down => true,
            _ => false,
        };
        match dest_entity {
            None => {
                pushes.push((*src, dest, true));
                Some(true)
            },
            Some(Entity::Wall) => {
                pushes.push((*src, dest, false));
                Some(false)
            },
            Some(entity) => {
                let left_half = match entity {
                    Entity::BoxLeft => true,
                    _ => false,
                };
                let right_half = match entity {
                    Entity::BoxRight => true,
                    _ => false,
                };
                if up_or_down && (left_half || right_half) {
                    let box_l_src = if left_half {
                        dest
                    } else {
                        self._get_push_dest(&dest, &Movement::Left)
                    };
                    let box_r_src = if left_half {
                        self._get_push_dest(&dest, &Movement::Right)
                    } else {
                        dest
                    };
                    let push_left = match self._try_push(&box_l_src, dir, pushes) {
                        Some(can) => can,
                        None => {
                            return None;
                        },
                    };
                    let push_right = match self._try_push(&box_r_src, dir, pushes) {
                        Some(can) => can,
                        None => {
                            return None;
                        },
                    };
                    let both = push_left && push_right;
                    pushes.push((*src, dest, both));
                    Some(both)
                } else {
                    match self._try_push(&dest, dir, pushes) {
                        Some(can) => {
                            pushes.push((*src, dest, can));
                            Some(can)
                        },
                        None => None,
                    }
                }
            },
        }
    }

    /// Takes what stands on `src` to the empty place `dest`. Nothing
    /// changes, and the answer is `false`, where `dest` is missing or
    /// taken, or nothing stands on `src`.
    pub fn _mv(&mut self, src: &Loc, dest: &Loc) -> (done: bool)
        requires
            old(self).wf(),
        ensures
            final(self).wf(),
            final(self)@.dims == old(self)@.dims,
            final(self)@.robot == old(self)@.robot,
            match moved_cells(old(self)@.cells, *src, *dest) {
                Some(cells) => done && final(self)@.cells == cells,
                None => !done && final(self)@.cells == old(self)@.cells,
            },
    {
        match tally_get(&self.map, (dest.x, dest.y)) {
            Some(None) => match tally_get(&self.map, (src.x, src.y)) {
                Some(Some(entity)) => {
                    let ghost before = self.map@;
                    tally_insert(&mut self.map, (src.x, src.y), None);
                    tally_insert(&mut self.map, (dest.x, dest.y), Some(entity));
                    proof {
                        assert forall|p: (isize, isize)| #[trigger]
                            self.map@.contains_key(p) <==> in_grid(self.dimensions, p.0 as int, p.1 as int) by {
                            assert(before.contains_key(p) <==> in_grid(
                                self.dimensions,
                                p.0 as int,
                                p.1 as int,
                            ));
                        }
                    }
                    true
                },
                _ => false,
            },
            _ => false,
        }
    }

    /// Lets the robot try to go one step in the direction `dir`, pushing
    /// what it can, and says where the robot is then.
    pub fn try_push_robot(&mut self, dir: &Movement) -> (moved: Result<Loc, PushErr>)
        requires
            old(self).wf(),
        ensures
            final(self).wf(),
            final(self)@.dims == old(self)@.dims,
            match moved {
                Ok(loc) => pushed(old(self)@, *dir) == Some(final(self)@) && loc == final(self)@.robot && plan(
                    old(self)@.cells,
                    old(self)@.dims,
                    old(self)@.robot,
                    *dir,
                    Seq::empty(),
                ).ok == Some(true),
                Err(PushErr::Blocked) => pushed(old(self)@, *dir) == Some(old(self)@) && final(self)@ == old(
                    self,
                )@ && plan(old(self)@.cells, old(self)@.dims, old(self)@.robot, *dir, Seq::empty()).ok
                    == Some(false),
                Err(PushErr::Broken) => pushed(old(self)@, *dir).is_none(),
            },
    {
        let mut pushes: Vec<(Loc, Loc, bool)> = Vec::new();
        let robot = self.robot_loc;
        let ghost start = self.map@;
        match self._try_push(&robot, dir, &mut pushes) {
            Some(true) => {
                let mut push_history: FxHashSet<(isize, isize, isize, isize)> = set_new();
                let mut i: usize = 0;
                while i < pushes.len()
                    invariant
                        i <= pushes.len(),
                        self.dimensions == old(self).dimensions,
                        self.robot_loc == old(self).robot_loc,
                        self.wf(),
                        start == old(self)@.cells,
                        robot == old(self)@.robot,
                        plan(start, old(self)@.dims, robot, *dir, Seq::empty()) == (Plan {
                            pushes: pushes@,
                            ok: Some(true),
                        }),
                        carried(start, pushes@, i as int) == Some((self.map@, push_history@)),
                    decreases pushes.len() - i,
                {
                    let p = pushes[i];
                    let key = (p.0.x, p.0.y, p.1.x, p.1.y);
                    proof {
                        if carried(start, pushes@, i + 1).is_none() {
                            lemma_carried_fails(start, pushes@, i + 1, pushes.len() as int);
                        }
                    }
                    if set_contains(&push_history, key) {
                    } else {
                        if !self._mv(&p.0, &p.1) {
                            return Err(PushErr::Broken);
                        }
                        set_insert(&mut push_history, key);
                    }
                    i += 1;
                }
                let last_push = pushes[pushes.len() - 1];
                self.robot_loc = last_push.1;
                Ok(self.robot_loc)
            },
            Some(false) => Err(PushErr::Blocked),
            None => Err(PushErr::Broken),
        }
    }

    /// Puts `entity` on the place `loc` of the warehouse, unless the place
    /// holds something, or nothing, already; the robot is said to be at
    /// `loc` where `entity` is the robot.
    pub fn insert(&mut self, loc: &Loc, entity: Option<Entity>)
        requires
            old(self).wf(),
            in_grid(old(self)@.dims, loc.x as int, loc.y as int),
        ensures
            final(self).wf(),
            final(self)@.dims == old(self)@.dims,
            final(self)@.cells == old(self)@.cells,
            final(self)@.robot == (if entity == Some(Entity::Robot) {
                *loc
            } else {
                old(self)@.robot
            }),
    {
        match entity {
            Some(Entity::Robot) => {
                self.robot_loc = *loc;
            },
            _ => {},
        }
    }
}

/// What a character of the drawing puts on its place: nothing for an empty
/// place; `None` where the character is not known.
pub open spec fn entity_of(byte: u8) -> Option<Option<Entity>> {
    if byte == CHAR_ROBOT {
        Some(Some(Entity::Robot))
    } else if byte == CHAR_WALL {
        Some(Some(Entity::Wall))
    } else if byte == CHAR_BOX {
        Some(Some(Entity::Box))
    } else if byte == CHAR_BOX_LEFT {
        Some(Some(Entity::BoxLeft))
    } else if byte == CHAR_BOX_RIGHT {
        Some(Some(Entity::BoxRight))
    } else if byte == CHAR_EMPTY {
        Some(None)
    } else {
        None
    }
}

/// The number of lines before the first empty one.
pub open spec fn head_len(lines: Seq<Seq<u8>>) -> nat
    decreases lines.len(),
{
    if lines.len() == 0 || lines[0].len() == 0 {
        0
    } else {
        1 + head_len(lines.skip(1))
    }
}

/// The lines that draw the warehouse: those before the first empty one.
pub open spec fn drawn_rows(lines: Seq<Seq<u8>>) -> Seq<Seq<u8>> {
    lines.take(head_len(lines) as int)
}

/// What the rows put on the places of the warehouse.
pub open spec fn cells_of(rows: Seq<Seq<u8>>) -> Map<(isize, isize), Option<Entity>> {
    Map::new(
        |p: (isize, isize)| 0 <= p.1 < rows.len() && 0 <= p.0 < rows[p.1 as int].len(),
        |p: (isize, isize)| entity_of(rows[p.1 as int][p.0 as int]).unwrap(),
    )
}

/// What the rows put on the places before row `y`, and on those of row `y`
/// before column `x`.
pub open spec fn cells_before(rows: Seq<Seq<u8>>, y: int, x: int) -> Map<(isize, isize), Option<Entity>> {
    Map::new(
        |p: (isize, isize)|
            0 <= p.1 < rows.len() && 0 <= p.0 < rows[p.1 as int].len() && (p.1 < y || (p.1 == y && p.0 < x)),
        |p: (isize, isize)| entity_of(rows[p.1 as int][p.0 as int]).unwrap(),
    )
}

/// The rows draw the robot at `loc`, and not again between there and
/// column `x` of row `y`.
pub open spec fn robot_last(rows: Seq<Seq<u8>>, loc: Loc, y: int, x: int) -> bool {
    &&& 0 <= loc.y < rows.len()
    &&& 0 <= loc.x < rows[loc.y as int].len()
    &&& rows[loc.y as int][loc.x as int] == CHAR_ROBOT
    &&& forall|r: int, c: int|
        0 <= r < rows.len() && 0 <= c < rows[r].len() && (r > loc.y || (r == loc.y && c > loc.x)) && (r < y
            || (r == y && c < x)) ==> #[trigger] rows[r][c] != CHAR_ROBOT
}

/// The rows draw no robot before column `x` of row `y`.
pub open spec fn no_robot(rows: Seq<Seq<u8>>, y: int, x: int) -> bool {
    forall|r: int, c: int|
        0 <= r < rows.len() && 0 <= c < rows[r].len() && (r < y || (r == y && c < x)) ==> #[trigger] rows[r][c]
            != CHAR_ROBOT
}

/// The rows draw a warehouse: there is a row, the rows are equally long,
/// each character is known, a robot is among them, and machine integers
/// count the rows and the columns.
pub open spec fn drawn(rows: Seq<Seq<u8>>) -> bool {
    &&& 0 < rows.len() < isize::MAX
    &&& rows[0].len() < isize::MAX
    &&& forall|y: int| 0 <= y < rows.len() ==> (#[trigger] rows[y]).len() == rows[0].len()
    &&& forall|y: int, x: int|
        0 <= y < rows.len() && 0 <= x < rows[y].len() ==> entity_of(#[trigger] rows[y][x]).is_some()
    &&& !no_robot(rows, rows.len() as int, 0)
}

/// `floor` is the warehouse that the rows draw; the robot is where the rows
/// draw it last.
pub open spec fn floor_of(rows: Seq<Seq<u8>>, floor: Floor) -> bool {
    &&& floor.cells == cells_of(rows)
    &&& floor.dims == (Dimensions { x: rows[0].len() as isize, y: rows.len() as isize })
    &&& robot_last(rows, floor.robot, rows.len() as int, 0)
}

/// What the boxes of kind `kind` count for in the first `x` columns of row
/// `y`: a hundred times the row and the column of each.
pub open spec fn gps_row(cells: Map<(isize, isize), Option<Entity>>, kind: Entity, y: int, x: int) -> int
    decreases x,
{
    if x <= 0 {
        0
    } else {
        gps_row(cells, kind, y, x - 1) + (if cells[((x - 1) as isize, y as isize)] == Some(kind) {
            100 * y + (x - 1)
        } else {
            0
        })
    }
}

/// What the boxes of kind `kind` count for in the first `y` rows.
pub open spec fn gps(cells: Map<(isize, isize), Option<Entity>>, dims: Dimensions, kind: Entity, y: int) -> int
    decreases y,
{
    if y <= 0 {
        0
    } else {
        gps(cells, dims, kind, y - 1) + gps_row(cells, kind, y - 1, dims.x as int)
    }
}

proof fn lemma_gps_row_grows(cells: Map<(isize, isize), Option<Entity>>, kind: Entity, y: int, x: int, all: int)
    requires
        0 <= y,
        0 <= x <= all,
    ensures
        0 <= gps_row(cells, kind, y, x) <= gps_row(cells, kind, y, all),
    decreases all,
{
    if x < all {
        lemma_gps_row_grows(cells, kind, y, x, all - 1);
    } else if x > 0 {
        lemma_gps_row_grows(cells, kind, y, x - 1, x - 1);
    }
}

proof fn lemma_gps_grows(cells: Map<(isize, isize), Option<Entity>>, dims: Dimensions, kind: Entity, y: int, all: int)
    requires
        0 <= y <= all,
        0 <= dims.x,
    ensures
        0 <= gps(cells, dims, kind, y) <= gps(cells, dims, kind, all),
    decreases all,
{
    if y < all {
        lemma_gps_grows(cells, dims, kind, y, all - 1);
        lemma_gps_row_grows(cells, kind, all - 1, 0, dims.x as int);
    } else if y > 0 {
        lemma_gps_grows(cells, dims, kind, y - 1, y - 1);
        lemma_gps_row_grows(cells, kind, y - 1, 0, dims.x as int);
    }
}

/// The warehouse after the robot has tried the first `n` movements, one
/// after the other; nothing where the warehouse was found not to be in
/// order.
pub open spec fn after_moves(floor: Floor, moves: Seq<Movement>, n: int) -> Option<Floor>
    decreases n,
{
    if n <= 0 {
        Some(floor)
    } else {
        match after_moves(floor, moves, n - 1) {
            Some(before) => pushed(before, moves[n - 1]),
            None => None,
        }
    }
}

/// Once the warehouse is out of order, more movements do not mend it.
pub proof fn lemma_after_moves_fails(floor: Floor, moves: Seq<Movement>, n: int, all: int)
    requires
        0 <= n <= all,
        after_moves(floor, moves, n).is_none(),
    ensures
        after_moves(floor, moves, all).is_none(),
    decreases all,
{
    if n < all {
        lemma_after_moves_fails(floor, moves, n, all - 1);
    }
}

/// `out` is what the boxes of kind `kind` count for once the robot has
/// tried the movements `moves` in the warehouse that the rows draw; nothing
/// where the rows draw none, the movements are not all known, the warehouse
/// gets out of order, or the count is more than a machine integer holds.
pub open spec fn answer(rows: Seq<Seq<u8>>, moves: Option<Moves>, kind: Entity, out: Option<isize>) -> bool {
    if drawn(rows) && moves.is_some() {
        exists|floor: Floor| #[trigger]
            floor_of(rows, floor) && match after_moves(
                floor,
                moves.unwrap().movements,
                moves.unwrap().movements.len() as int,
            ) {
                Some(end) => out == (if gps(end.cells, end.dims, kind, end.dims.y as int) <= isize::MAX {
                    Some(gps(end.cells, end.dims, kind, end.dims.y as int) as isize)
                } else {
                    None
                }),
                None => out.is_none(),
            }
    } else {
        out.is_none()
    }
}

impl Warehouse {
    /// The warehouse that the lines before the first empty line draw.
    pub fn from_lines(found: &Vec<Vec<u8>>) -> (warehouse: Option<Warehouse>)
        ensures
            match warehouse {
                Some(w) => drawn(drawn_rows(rows(found@))) && floor_of(drawn_rows(rows(found@)), w@) && w.wf(),
                None => !drawn(drawn_rows(rows(found@))),
            },
    {
        let ghost text = rows(found@);
        let mut y_tiles: usize = 0;
        proof {
            assert(text.skip(0) =~= text);
        }
        while y_tiles < found.len() && found[y_tiles].len() > 0
            invariant
                y_tiles <= found.len(),
                text == rows(found@),
                head_len(text) == y_tiles + head_len(text.skip(y_tiles as int)),
            decreases found.len() - y_tiles,
        {
            proof {
                assert(text[y_tiles as int] == found[y_tiles as int]@);
                assert(text.skip(y_tiles as int)[0] == text[y_tiles as int]);
                assert(text.skip(y_tiles as int).skip(1) =~= text.skip(y_tiles + 1));
            }
            y_tiles += 1;
        }
        proof {
            if y_tiles < found.len() {
                assert(text[y_tiles as int] == found[y_tiles as int]@);
                assert(text.skip(y_tiles as int)[0] == text[y_tiles as int]);
            }
            assert(head_len(text) == y_tiles);
        }
        let ghost drawing = drawn_rows(text);
        assert(drawing.len() == y_tiles);
        if y_tiles == 0 || y_tiles >= isize::MAX as usize {
            return None;
        }
        let x_tiles = found[0].len();
        assert(text[0] == found[0]@);
        assert(drawing[0] == found[0]@);
        if x_tiles >= isize::MAX as usize {
            return None;
        }
        let mut map: FxHashMap<(isize, isize), Option<Entity>> = tally_new();
        let mut robot: Option<Loc> = None;
        assert(map@ =~= cells_before(drawing, 0, 0));
        let mut y: usize = 0;
        while y < y_tiles
            invariant
                y <= y_tiles <= found.len(),
                0 < y_tiles < isize::MAX,
                x_tiles < isize::MAX,
                text == rows(found@),
                drawing == drawn_rows(text),
                head_len(text) == y_tiles,
                drawing.len() == y_tiles,
                x_tiles == drawing[0].len(),
                map@ == cells_before(drawing, y as int, 0),
                forall|r: int| 0 <= r < y ==> (#[trigger] drawing[r]).len() == x_tiles,
                forall|r: int, c: int|
                    0 <= r < y && 0 <= c < drawing[r].len() ==> entity_of(#[trigger] drawing[r][c]).is_some(),
                match robot {
                    Some(loc) => robot_last(drawing, loc, y as int, 0),
                    None => no_robot(drawing, y as int, 0),
                },
            decreases y_tiles - y,
        {
            let line = &found[y];
            assert(text[y as int] == line@);
            assert(drawing[y as int] == line@);
            if line.len() != x_tiles {
                return None;
            }
            let mut x: usize = 0;
            while x < line.len()
                invariant
                    y < y_tiles < isize::MAX,
                    x <= line.len(),
                    line.len() == x_tiles < isize::MAX,
                    text == rows(found@),
                    drawing == drawn_rows(text),
                    drawing.len() == y_tiles,
                    drawing[y as int] == line@,
                    map@ == cells_before(drawing, y as int, x as int),
                    forall|c: int| 0 <= c < x ==> entity_of(#[trigger] line[c]).is_some(),
                    match robot {
                        Some(loc) => robot_last(drawing, loc, y as int, x as int),
                        None => no_robot(drawing, y as int, x as int),
                    },
                decreases line.len() - x,
            {
                let c = line[x];
                let loc = _loc_u(x, y);
                let entity = if c == CHAR_ROBOT {
                    Some(Entity::Robot)
                } else if c == CHAR_WALL {
                    Some(Entity::Wall)
                } else if c == CHAR_BOX {
                    Some(Entity::Box)
                } else if c == CHAR_BOX_LEFT {
                    Some(Entity::BoxLeft)
                } else if c == CHAR_BOX_RIGHT {
                    Some(Entity::BoxRight)
                } else if c == CHAR_EMPTY {
                    None
                } else {
                    assert(entity_of(drawing[y as int][x as int]).is_none());
                    return None;
                };
                let ghost before = map@;
                tally_insert(&mut map, (loc.x, loc.y), entity);
                proof {
                    assert(!before.contains_key((loc.x, loc.y)));
                    assert(map@ =~= cells_before(drawing, y as int, x + 1));
                }
                if c == CHAR_ROBOT {
                    robot = Some(loc);
                }
                x += 1;
            }
            proof {
                assert(cells_before(drawing, y as int, line.len() as int) =~= cells_before(drawing, y + 1, 0));
            }
            y += 1;
        }
        proof {
            assert(cells_before(drawing, y_tiles as int, 0) =~= cells_of(drawing));
        }
        match robot {
            Some(robot_loc) => {
                let dimensions = Dimensions { x: x_tiles as isize, y: y_tiles as isize };
                proof {
                    assert(drawing[robot_loc.y as int][robot_loc.x as int] == CHAR_ROBOT);
                    assert forall|p: (isize, isize)| #[trigger] map@.contains_key(p) <==> in_grid(
                        dimensions,
                        p.0 as int,
                        p.1 as int,
                    ) by {
                        if 0 <= p.1 < y_tiles {
                            assert(drawing[p.1 as int].len() == x_tiles);
                        }
                    }
                }
                Some(Warehouse { robot_loc, map, dimensions })
            },
            None => None,
        }
    }

    /// The warehouse drawn in `input`, on the lines before the first empty
    /// line.
    pub fn from(input: &String) -> (warehouse: Option<Warehouse>)
        ensures
            match warehouse {
                Some(w) => drawn(drawn_rows(lines_of(bytes_of(input@)))) && floor_of(
                    drawn_rows(lines_of(bytes_of(input@))),
                    w@,
                ) && w.wf(),
                None => !drawn(drawn_rows(lines_of(bytes_of(input@)))),
            },
    {
        let found = lines(text_bytes(input));
        Warehouse::from_lines(&found)
    }

    /// What the boxes of kind `kind` count for: a hundred times its row and
    /// its column for each; `None` where that is more than a machine
    /// integer holds.
    pub fn compute_sum(&self, kind: Entity) -> (sum: Option<isize>)
        requires
            self.wf(),
        ensures
            sum == (if gps(self@.cells, self@.dims, kind, self@.dims.y as int) <= isize::MAX {
                Some(gps(self@.cells, self@.dims, kind, self@.dims.y as int) as isize)
            } else {
                None
            }),
    {
        let ghost cells = self.map@;
        let ghost dims = self.dimensions;
        let mut sum: isize = 0;
        let mut y: isize = 0;
        while y < self.dimensions.y
            invariant
                self.wf(),
                cells == self.map@,
                dims == self.dimensions,
                0 <= y <= dims.y,
                sum == gps(cells, dims, kind, y as int),
            decreases self.dimensions.y - y,
        {
            let mut x: isize = 0;
            proof {
                lemma_gps_grows(cells, dims, kind, y as int, y as int);
                lemma_gps_grows(cells, dims, kind, y + 1, dims.y as int);
            }
            while x < self.dimensions.x
                invariant
                    self.wf(),
                    cells == self.map@,
                    dims == self.dimensions,
                    0 <= y < dims.y,
                    0 <= x <= dims.x,
                    0 <= gps(cells, dims, kind, y as int),
                    gps(cells, dims, kind, y + 1) <= gps(cells, dims, kind, dims.y as int),
                    sum == gps(cells, dims, kind, y as int) + gps_row(cells, kind, y as int, x as int),
                decreases self.dimensions.x - x,
            {
                proof {
                    lemma_gps_row_grows(cells, kind, y as int, x as int, x as int);
                    lemma_gps_row_grows(cells, kind, y as int, x + 1, dims.x as int);
                }
                let on = tally_get(&self.map, (x, y));
                let counts = match on {
                    Some(Some(entity)) => entity == kind,
                    _ => false,
                };
                if counts {
                    let term = match y.checked_mul(100) {
                        Some(rows) => rows.checked_add(x),
                        None => None,
                    };
                    match term {
                        Some(t) => match sum.checked_add(t) {
                            Some(more) => {
                                sum = more;
                            },
                            None => {
                                return None;
                            },
                        },
                        None => {
                            return None;
                        },
                    }
                }
                x += 1;
            }
            y += 1;
        }
        Some(sum)
    }

    /// What the boxes count for.
    pub fn compute_gps_sum(&self) -> (sum: Option<isize>)
        requires
            self.wf(),
        ensures
            sum == (if gps(self@.cells, self@.dims, Entity::Box, self@.dims.y as int) <= isize::MAX {
                Some(gps(self@.cells, self@.dims, Entity::Box, self@.dims.y as int) as isize)
            } else {
                None
            }),
    {
        self.compute_sum(Entity::Box)
    }

    /// What the left halves of the wide boxes count for.
    pub fn compute_scaled_gps_sum(&self) -> (sum: Option<isize>)
        requires
            self.wf(),
        ensures
            sum == (if gps(self@.cells, self@.dims, Entity::BoxLeft, self@.dims.y as int) <= isize::MAX {
                Some(gps(self@.cells, self@.dims, Entity::BoxLeft, self@.dims.y as int) as isize)
            } else {
                None
            }),
    {
        self.compute_sum(Entity::BoxLeft)
    }

    /// Lets the robot try each of `moves` in turn; `false` as soon as the
    /// warehouse is found not to be in order.
    pub fn run_moves(&mut self, moves: &Vec<Movement>) -> (fine: bool)
        requires
            old(self).wf(),
        ensures
            final(self).wf(),
            match after_moves(old(self)@, moves@, moves.len() as int) {
                Some(end) => fine && final(self)@ == end,
                None => !fine,
            },
    {
        let mut i: usize = 0;
        while i < moves.len()
            invariant
                i <= moves.len(),
                self.wf(),
                after_moves(old(self)@, moves@, i as int) == Some(self@),
            decreases moves.len() - i,
        {
            proof {
                if after_moves(old(self)@, moves@, i + 1).is_none() {
                    lemma_after_moves_fails(old(self)@, moves@, i + 1, moves.len() as int);
                }
            }
            match self.try_push_robot(&moves[i]) {
                Err(PushErr::Broken) => {
                    return false;
                },
                _ => {},
            }
            i += 1;
        }
        true
    }
}

/// What the boxes count for once the robot has tried all its movements in
/// the warehouse drawn in `input`.
pub fn _solution1(input: &String) -> (sum: Option<isize>)
    ensures
        answer(
            drawn_rows(lines_of(bytes_of(input@))),
            moves_in(lines_of(bytes_of(input@))),
            Entity::Box,
            sum,
        ),
{
    let mut wh = match Warehouse::from(input) {
        Some(wh) => wh,
        None => {
            return None;
        },
    };
    let moves = match parse_movements(input) {
        Some(moves) => moves,
        None => {
            return None;
        },
    };
    let ghost floor = wh@;
    if !wh.run_moves(&moves) {
        assert(floor_of(drawn_rows(lines_of(bytes_of(input@))), floor));
        return None;
    }
    let sum = wh.compute_gps_sum();
    assert(floor_of(drawn_rows(lines_of(bytes_of(input@))), floor));
    sum
}

/// What the left halves of the wide boxes count for once the robot has
/// tried all its movements in the warehouse drawn in `input`, at twice the
/// width.
pub fn _solution2(input: &String) -> (sum: Option<isize>)
    ensures
        answer(
            drawn_rows(lines_of(expanded(bytes_of(input@)))),
            moves_in(lines_of(bytes_of(input@))),
            Entity::BoxLeft,
            sum,
        ),
{
    let expanded_input = expand_warehouse(input);
    let found = lines(expanded_input.as_slice());
    let mut wh = match Warehouse::from_lines(&found) {
        Some(wh) => wh,
        None => {
            return None;
        },
    };
    let moves = match parse_movements(input) {
        Some(moves) => moves,
        None => {
            return None;
        },
    };
    let ghost floor = wh@;
    if !wh.run_moves(&moves) {
        assert(floor_of(drawn_rows(lines_of(expanded(bytes_of(input@)))), floor));
        return None;
    }
    let sum = wh.compute_scaled_gps_sum();
    assert(floor_of(drawn_rows(lines_of(expanded(bytes_of(input@)))), floor));
    sum
}

} // verus!
