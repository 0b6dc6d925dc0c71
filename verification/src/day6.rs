//! A guard on patrol in a lab: she walks straight on, turns right in front
//! of an obstacle, and leaves the lab sooner or later, or never.

use vstd::prelude::*;
use crate::places::contains_place;
use crate::places::distinct;
use crate::text::bytes_of;
use crate::text::lines;
use crate::text::lines_of;
use crate::text::rows;
use crate::text::text_bytes;

verus! {

pub type Pos = (usize, usize);

pub type IPos = (isize, isize);

#[derive(Copy, Clone, Debug, Eq, Hash, PartialEq, Structural)]
pub enum Orientation {
    Up,
    Down,
    Left,
    Right,
}

/// The orientation a quarter turn to the right of `o`.
pub open spec fn right_of(o: Orientation) -> Orientation {
    match o {
        Orientation::Left => Orientation::Up,
        Orientation::Right => Orientation::Down,
        Orientation::Up => Orientation::Right,
        Orientation::Down => Orientation::Left,
    }
}

#[derive(Copy, Clone, Debug, Eq, PartialEq, Structural)]
pub struct Guard {
    pub orientation: Orientation,
}

impl Guard {
    pub fn turn_right(&mut self)
        ensures
            final(self).orientation == right_of(old(self).orientation),
    {
        let new_orientation = match self.orientation {
            Orientation::Left => Orientation::Up,
            Orientation::Right => Orientation::Down,
            Orientation::Up => Orientation::Right,
            Orientation::Down => Orientation::Left,
        };
        self.orientation = new_orientation;
    }

    pub fn symbol(&self) -> (sign: char)
        ensures
            sign == (match self.orientation {
                Orientation::Up => '^',
                Orientation::Down => 'v',
                Orientation::Left => '<',
                Orientation::Right => '>',
            }),
    {
        match self.orientation {
            Orientation::Up => '^',
            Orientation::Down => 'v',
            Orientation::Left => '<',
            Orientation::Right => '>',
        }
    }
}

#[derive(Copy, Clone, Debug, Eq, PartialEq, Structural)]
pub struct Obstacle {}

impl Obstacle {
    pub fn symbol(&self) -> (sign: char)
        ensures
            sign == '#',
    {
        '#'
    }
}

#[derive(Copy, Clone, Debug, Eq, PartialEq, Structural)]
pub struct CustomObstacle {}

impl CustomObstacle {
    pub fn symbol(&self) -> (sign: char)
        ensures
            sign == 'O',
    {
        'O'
    }
}

/// Where the guard is and which way she looks.
#[derive(Copy, Clone, Debug, Eq, PartialEq)]
pub struct GuardState {
    pub pos: IPos,
    pub orientation: Orientation,
}

/// A lab as a value: the characters of its rows, and where the guard
/// starts.
pub ghost struct Lab {
    pub grid: Seq<Seq<u8>>,
    pub start: IPos,
}

/// The place in column `x` of row `y` is in the lab.
pub open spec fn inside(grid: Seq<Seq<u8>>, x: int, y: int) -> bool {
    0 <= y < grid.len() && 0 <= x < grid[y].len()
}

/// The place one step ahead of the guard.
pub open spec fn forward(s: GuardState) -> (int, int) {
    match s.orientation {
        Orientation::Left => (s.pos.0 - 1, s.pos.1 as int),
        Orientation::Right => (s.pos.0 + 1, s.pos.1 as int),
        Orientation::Up => (s.pos.0 as int, s.pos.1 - 1),
        Orientation::Down => (s.pos.0 as int, s.pos.1 + 1),
    }
}

/// Something stands on the place in column `x` of row `y`: an obstacle of
/// the lab, a guard drawn there who is not the one on patrol, or the
/// obstacle `extra`.
pub open spec fn taken(lab: Lab, extra: Option<IPos>, x: int, y: int) -> bool {
    ||| lab.grid[y][x] == 35
    ||| (lab.grid[y][x] == 94 && (x, y) != (lab.start.0 as int, lab.start.1 as int))
    ||| (extra.is_some() && (x, y) == (extra.unwrap().0 as int, extra.unwrap().1 as int))
}

/// The guard after her next step: she goes ahead where nothing stands, and
/// turns right where something does; `None` where she leaves the lab.
pub open spec fn next_state(lab: Lab, extra: Option<IPos>, s: GuardState) -> Option<GuardState> {
    let ahead = forward(s);
    if !inside(lab.grid, ahead.0, ahead.1) {
        None
    } else if taken(lab, extra, ahead.0, ahead.1) {
        Some(GuardState { pos: s.pos, orientation: right_of(s.orientation) })
    } else {
        Some(GuardState { pos: (ahead.0 as isize, ahead.1 as isize), orientation: s.orientation })
    }
}

/// The patrol of a guard who starts as `s`: the states she is in, one after
/// the other, until she leaves the lab or has made `fuel` steps, and whether
/// she has left.
pub open spec fn patrol(lab: Lab, extra: Option<IPos>, s: GuardState, fuel: nat) -> (Seq<GuardState>, bool)
    decreases fuel,
{
    match next_state(lab, extra, s) {
        None => (seq![s], true),
        Some(t) => if fuel == 0 {
            (seq![s], false)
        } else {
            let rest = patrol(lab, extra, t, (fuel - 1) as nat);
            (seq![s] + rest.0, rest.1)
        },
    }
}

/// The places of the states.
pub open spec fn places_of(states: Seq<GuardState>) -> Seq<IPos> {
    Seq::new(states.len(), |i: int| states[i].pos)
}

/// The guard has been at the place of state `i` before.
pub open spec fn been_before(trail: Seq<GuardState>, i: int) -> bool {
    places_of(trail).take(i).contains(trail[i].pos)
}

/// An obstacle on the place of state `i`, which the guard had not been at
/// before, keeps her in the lab for `fuel` steps and more from where she was
/// just before.
pub open spec fn traps(lab: Lab, trail: Seq<GuardState>, fuel: nat, i: int) -> bool {
    !been_before(trail, i) && !patrol(lab, Some(trail[i].pos), trail[i - 1], fuel).1
}

/// How many of the states after the first and before state `n` are at
/// places where an obstacle traps the guard.
pub open spec fn trap_count(lab: Lab, trail: Seq<GuardState>, fuel: nat, n: int) -> nat
    decreases n,
{
    if n <= 1 {
        0
    } else {
        trap_count(lab, trail, fuel, n - 1) + (if traps(lab, trail, fuel, n - 1) {
            1nat
        } else {
            0nat
        })
    }
}

/// The rows draw a lab: there is a row, the rows are equally long, each
/// character is a free place, an obstacle or a guard, a guard is among them,
/// and machine integers count the rows and the columns.
pub open spec fn draws_lab(grid: Seq<Seq<u8>>) -> bool {
    &&& 0 < grid.len() < isize::MAX
    &&& grid[0].len() < isize::MAX
    &&& forall|y: int| 0 <= y < grid.len() ==> (#[trigger] grid[y]).len() == grid[0].len()
    &&& forall|y: int, x: int|
        0 <= y < grid.len() && 0 <= x < grid[y].len() ==> {
            let c = #[trigger] grid[y][x];
            c == 46 || c == 35 || c == 94
        }
    &&& exists|y: int, x: int| 0 <= y < grid.len() && 0 <= x < grid[y].len() && #[trigger] grid[y][x] == 94
}

/// The rows draw the guard at `p`, and not again between there and column
/// `x` of row `y`.
pub open spec fn guard_last(grid: Seq<Seq<u8>>, p: IPos, y: int, x: int) -> bool {
    &&& inside(grid, p.0 as int, p.1 as int)
    &&& grid[p.1 as int][p.0 as int] == 94
    &&& forall|r: int, c: int|
        0 <= r < grid.len() && 0 <= c < grid[r].len() && (r > p.1 || (r == p.1 && c > p.0)) && (r < y || (r
            == y && c < x)) ==> #[trigger] grid[r][c] != 94
}

/// The rows draw no guard before column `x` of row `y`.
pub open spec fn no_guard(grid: Seq<Seq<u8>>, y: int, x: int) -> bool {
    forall|r: int, c: int|
        0 <= r < grid.len() && 0 <= c < grid[r].len() && (r < y || (r == y && c < x)) ==> #[trigger] grid[r][c]
            != 94
}

/// The place as a pair of signed numbers.
pub fn to_ipos(pos: Pos) -> (ipos: IPos)
    requires
        pos.0 <= isize::MAX,
        pos.1 <= isize::MAX,
    ensures
        ipos.0 == pos.0,
        ipos.1 == pos.1,
{
    (pos.0 as isize, pos.1 as isize)
}

/// The place as a pair of unsigned numbers.
pub fn to_pos(ipos: IPos) -> (pos: Pos)
    requires
        ipos.0 >= 0,
        ipos.1 >= 0,
    ensures
        pos.0 == ipos.0,
        pos.1 == ipos.1,
{
    (ipos.0 as usize, ipos.1 as usize)
}

/// The place one step ahead of a guard at `guard_pos`.
pub fn get_forward_step_pos(guard_pos: Pos, guard: &Guard) -> (ahead: IPos)
    requires
        guard_pos.0 < isize::MAX,
        guard_pos.1 < isize::MAX,
    ensures
        (ahead.0 as int, ahead.1 as int) == forward(
            GuardState { pos: (guard_pos.0 as isize, guard_pos.1 as isize), orientation: guard.orientation },
        ),
{
    let ipos = to_ipos(guard_pos);
    let (offset_x, offset_y): (isize, isize) = match guard.orientation {
        Orientation::Left => (-1, 0),
        Orientation::Right => (1, 0),
        Orientation::Up => (0, -1),
        Orientation::Down => (0, 1),
    };
    (ipos.0 + offset_x, ipos.1 + offset_y)
}

/// A lab: its rows of free places and obstacles, and the place where the
/// guard starts her patrol, looking up.
pub struct LabMap {
    tiles: Vec<Vec<u8>>,
    num_rows: usize,
    num_cols: usize,
    guard_pos: Pos,
}

impl LabMap {
    #[verifier::type_invariant]
    spec fn walled(&self) -> bool {
        &&& self.num_rows == self.tiles.len()
        &&& 0 < self.num_rows < isize::MAX
        &&& self.num_cols < isize::MAX
        &&& forall|y: int| 0 <= y < self.tiles.len() ==> (#[trigger] self.tiles[y]).len() == self.num_cols
        &&& self.guard_pos.0 < self.num_cols
        &&& self.guard_pos.1 < self.num_rows
    }

    /// The lab as a value.
    pub closed spec fn view(&self) -> Lab {
        Lab { grid: rows(self.tiles@), start: (self.guard_pos.0 as isize, self.guard_pos.1 as isize) }
    }

    /// The guard as she starts her patrol.
    pub open spec fn first(&self) -> GuardState {
        GuardState { pos: self@.start, orientation: Orientation::Up }
    }

    /// The lab drawn in `input`: `.` for a free place, `#` for an obstacle,
    /// `^` for the guard, and for her the one drawn last. `None` where the
    /// lines draw no lab.
    pub fn from_str(input: &String) -> (lab: Option<LabMap>)
        ensures
            match lab {
                Some(map) => {
                    &&& draws_lab(lines_of(bytes_of(input@)))
                    &&& map@.grid == lines_of(bytes_of(input@))
                    &&& guard_last(map@.grid, map@.start, map@.grid.len() as int, 0)
                },
                None => !draws_lab(lines_of(bytes_of(input@))),
            },
    {
        let found = lines(text_bytes(input));
        let ghost grid = rows(found@);
        if found.len() == 0 || found.len() >= isize::MAX as usize {
            return None;
        }
        let num_cols = found[0].len();
        assert(grid[0] == found[0]@);
        if num_cols >= isize::MAX as usize {
            return None;
        }
        let mut guard_pos: Option<Pos> = None;
        let mut y: usize = 0;
        while y < found.len()
            invariant
                y <= found.len(),
                0 < found.len() < isize::MAX,
                grid == rows(found@),
                grid == lines_of(bytes_of(input@)),
                num_cols == grid[0].len(),
                num_cols < isize::MAX,
                forall|r: int| 0 <= r < y ==> (#[trigger] grid[r]).len() == num_cols,
                forall|r: int| 0 <= r < y ==> (#[trigger] found[r]).len() == num_cols,
                forall|r: int, c: int|
                    0 <= r < y && 0 <= c < grid[r].len() ==> {
                        let b = #[trigger] grid[r][c];
                        b == 46 || b == 35 || b == 94
                    },
                match guard_pos {
                    Some(p) => guard_last(grid, (p.0 as isize, p.1 as isize), y as int, 0) && p.0 < num_cols
                        && p.1 < y,
                    None => no_guard(grid, y as int, 0),
                },
            decreases found.len() - y,
        {
            let line = &found[y];
            assert(grid[y as int] == line@);
            if line.len() != num_cols {
                return None;
            }
            let mut x: usize = 0;
            while x < line.len()
                invariant
                    y < found.len() < isize::MAX,
                    x <= line.len(),
                    line.len() == num_cols < isize::MAX,
                    grid == rows(found@),
                    grid == lines_of(bytes_of(input@)),
                    grid[y as int] == line@,
                    forall|c: int|
                        0 <= c < x ==> {
                            let b = #[trigger] line[c];
                            b == 46 || b == 35 || b == 94
                        },
                    match guard_pos {
                        Some(p) => guard_last(grid, (p.0 as isize, p.1 as isize), y as int, x as int) && p.0
                            < num_cols && p.1 <= y,
                        None => no_guard(grid, y as int, x as int),
                    },
                decreases line.len() - x,
            {
                let byte = line[x];
                if byte == 94 {
                    guard_pos = Some((x, y));
                } else if byte == 46 || byte == 35 {
                } else {
                    assert(grid[y as int][x as int] == byte);
                    return None;
                }
                x += 1;
            }
            y += 1;
        }
        match guard_pos {
            Some(p) => {
                proof {
                    assert(grid[p.1 as int][p.0 as int] == 94);
                }
                let num_rows = found.len();
                Some(LabMap { tiles: found, num_rows, num_cols, guard_pos: p })
            },
            None => None,
        }
    }

    /// Whether the place `ipos` is in the lab.
    pub fn in_bounds_at(&self, ipos: IPos) -> (within: bool)
        ensures
            within == inside(self@.grid, ipos.0 as int, ipos.1 as int),
    {
        proof {
            use_type_invariant(self);
            if 0 <= ipos.1 < self.tiles.len() {
                assert(self@.grid[ipos.1 as int] == self.tiles[ipos.1 as int]@);
            }
        }
        let (num_cols, num_rows) = to_ipos((self.num_cols, self.num_rows));
        let x_in_bounds = ipos.0 >= 0 && ipos.0 < num_cols;
        let y_in_bounds = ipos.1 >= 0 && ipos.1 < num_rows;
        x_in_bounds && y_in_bounds
    }

    /// Whether nothing stands on the place `pos`, with `extra` as one more
    /// obstacle.
    pub fn vacant_at(&self, pos: Pos, extra: Option<IPos>) -> (vacant: bool)
        requires
            inside(self@.grid, pos.0 as int, pos.1 as int),
        ensures
            vacant == !taken(self@, extra, pos.0 as int, pos.1 as int),
    {
        proof {
            use_type_invariant(self);
            assert(self@.grid[pos.1 as int] == self.tiles[pos.1 as int]@);
        }
        let byte = self.tiles[pos.1][pos.0];
        let other_guard = byte == 94 && !(pos.0 == self.guard_pos.0 && pos.1 == self.guard_pos.1);
        let added = match extra {
            Some(p) => p.0 >= 0 && p.1 >= 0 && p.0 as usize == pos.0 && p.1 as usize == pos.1,
            None => false,
        };
        !(byte == 35 || other_guard || added)
    }

    /// The guard after her next step; `None` where she leaves the lab.
    pub fn step(&self, s: &GuardState, extra: Option<IPos>) -> (next: Option<GuardState>)
        requires
            inside(self@.grid, s.pos.0 as int, s.pos.1 as int),
        ensures
            next == next_state(self@, extra, *s),
            next.is_some() ==> inside(self@.grid, next.unwrap().pos.0 as int, next.unwrap().pos.1 as int),
    {
        proof {
            use_type_invariant(self);
            assert(self@.grid[s.pos.1 as int] == self.tiles[s.pos.1 as int]@);
        }
        let mut guard = Guard { orientation: s.orientation };
        let next_ipos = get_forward_step_pos(to_pos(s.pos), &guard);
        if self.in_bounds_at(next_ipos) {
            let next_pos = to_pos(next_ipos);
            if self.vacant_at(next_pos, extra) {
                Some(GuardState { pos: next_ipos, orientation: guard.orientation })
            } else {
                guard.turn_right();
                Some(GuardState { pos: s.pos, orientation: guard.orientation })
            }
        } else {
            None
        }
    }

    /// The patrol of a guard who starts as `start`, with `extra` as one more
    /// obstacle: her states until she leaves the lab or has made
    /// `max_steps` steps, and whether she has left.
    pub fn resume_walk(&self, start: &GuardState, extra: Option<IPos>, max_steps: usize) -> (walk: (
        Vec<GuardState>,
        bool,
    ))
        requires
            inside(self@.grid, start.pos.0 as int, start.pos.1 as int),
        ensures
            (walk.0@, walk.1) == patrol(self@, extra, *start, max_steps as nat),
            walk.0.len() >= 1,
            forall|i: int|
                0 <= i < walk.0.len() ==> inside(
                    self@.grid,
                    (#[trigger] walk.0[i]).pos.0 as int,
                    walk.0[i].pos.1 as int,
                ),
    {
        let mut states: Vec<GuardState> = Vec::new();
        let mut current = *start;
        let mut steps: usize = 0;
        assert(states@ + patrol(self@, extra, current, max_steps as nat).0 =~= patrol(
            self@,
            extra,
            *start,
            max_steps as nat,
        ).0);
        loop
            invariant
                steps <= max_steps,
                inside(self@.grid, current.pos.0 as int, current.pos.1 as int),
                forall|i: int|
                    0 <= i < states.len() ==> inside(
                        self@.grid,
                        (#[trigger] states[i]).pos.0 as int,
                        states[i].pos.1 as int,
                    ),
                patrol(self@, extra, *start, max_steps as nat).0 == states@ + patrol(
                    self@,
                    extra,
                    current,
                    (max_steps - steps) as nat,
                ).0,
                patrol(self@, extra, *start, max_steps as nat).1 == patrol(
                    self@,
                    extra,
                    current,
                    (max_steps - steps) as nat,
                ).1,
            decreases max_steps - steps,
        {
            let ghost before = states@;
            states.push(current);
            match self.step(&current, extra) {
                None => {
                    assert(states@ =~= before + seq![current]);
                    return (states, true);
                },
                Some(next) => {
                    if steps >= max_steps {
                        assert(states@ =~= before + seq![current]);
                        return (states, false);
                    }
                    proof {
                        let rest = patrol(self@, extra, next, (max_steps - steps - 1) as nat);
                        assert(before + (seq![current] + rest.0) =~= states@ + rest.0);
                    }
                    current = next;
                    steps += 1;
                },
            }
        }
    }

    /// More steps than a guard who leaves the lab can make: four for each
    /// place, and as many as a machine integer holds where that is more.
    pub fn enough_steps(&self) -> (steps: usize)
        ensures
            steps == enough(self@.grid),
    {
        proof {
            use_type_invariant(self);
            assert(self@.grid[0] == self.tiles[0]@);
            assert(self.num_rows * self.num_cols >= 0) by (nonlinear_arith)
                requires
                    self.num_rows >= 0,
                    self.num_cols >= 0,
            ;
        }
        match self.num_rows.checked_mul(self.num_cols) {
            Some(places) => match places.checked_mul(4) {
                Some(states) => states,
                None => usize::MAX,
            },
            None => usize::MAX,
        }
    }

    /// The guard as she starts her patrol.
    pub fn guard_start(&self) -> (s: GuardState)
        ensures
            s == self.first(),
            inside(self@.grid, s.pos.0 as int, s.pos.1 as int),
    {
        proof {
            use_type_invariant(self);
            assert(self@.grid[self.guard_pos.1 as int] == self.tiles[self.guard_pos.1 as int]@);
        }
        GuardState { pos: to_ipos(self.guard_pos), orientation: Orientation::Up }
    }

    /// On how many places the guard is on her patrol; `None` where she has
    /// not left the lab after `max_steps` steps.
    pub fn count_visited(&self, max_steps: usize) -> (count: Option<usize>)
        ensures
            count == visited(self@, self.first(), max_steps as nat),
    {
        let start = self.guard_start();
        let (states, left) = self.resume_walk(&start, None, max_steps);
        if !left {
            return None;
        }
        let places = places_in(&states);
        Some(distinct(&places).len())
    }

    /// On how many places of her patrol one more obstacle traps the guard:
    /// the places that she comes to for the first time on which an obstacle
    /// keeps her in the lab for `max_steps` steps and more from where she
    /// was just before. `None` where she has not left the lab after
    /// `max_steps` steps without any such obstacle.
    pub fn count_traps(&self, max_steps: usize) -> (count: Option<usize>)
        ensures
            count == trapped(self@, self.first(), max_steps as nat),
    {
        let start = self.guard_start();
        let (trail, left) = self.resume_walk(&start, None, max_steps);
        if !left {
            return None;
        }
        let mut invalid_placements: Vec<IPos> = Vec::new();
        invalid_placements.push(trail[0].pos);
        let mut num_cycles: usize = 0;
        let mut i: usize = 1;
        assert(invalid_placements@ =~= places_of(trail@).take(1));
        while i < trail.len()
            invariant
                1 <= i <= trail.len(),
                forall|k: int|
                    0 <= k < trail.len() ==> inside(
                        self@.grid,
                        (#[trigger] trail[k]).pos.0 as int,
                        trail[k].pos.1 as int,
                    ),
                invalid_placements@ == places_of(trail@).take(i as int),
                num_cycles == trap_count(self@, trail@, max_steps as nat, i as int),
                num_cycles < i,
            decreases trail.len() - i,
        {
            let obs_pos = trail[i].pos;
            if !contains_place(&invalid_placements, obs_pos) {
                let (_rest, gone) = self.resume_walk(&trail[i - 1], Some(obs_pos), max_steps);
                if !gone {
                    num_cycles += 1;
                }
            }
            invalid_placements.push(obs_pos);
            assert(invalid_placements@ =~= places_of(trail@).take(i + 1));
            i += 1;
        }
        Some(num_cycles)
    }
}

/// On how many places the guard is on her patrol from `s`; `None` where she
/// has not left the lab after `fuel` steps.
pub open spec fn visited(lab: Lab, s: GuardState, fuel: nat) -> Option<usize> {
    let walk = patrol(lab, None, s, fuel);
    if walk.1 {
        Some(places_of(walk.0).to_set().len() as usize)
    } else {
        None
    }
}

/// On how many places of her patrol from `s` one more obstacle traps the
/// guard; `None` where she has not left the lab after `fuel` steps without
/// any such obstacle.
pub open spec fn trapped(lab: Lab, s: GuardState, fuel: nat) -> Option<usize> {
    let walk = patrol(lab, None, s, fuel);
    if walk.1 {
        Some(trap_count(lab, walk.0, fuel, walk.0.len() as int) as usize)
    } else {
        None
    }
}

/// The places of the states.
pub fn places_in(states: &Vec<GuardState>) -> (places: Vec<IPos>)
    ensures
        places@ == places_of(states@),
{
    let mut places: Vec<IPos> = Vec::new();
    let mut i: usize = 0;
    while i < states.len()
        invariant
            i <= states.len(),
            places.len() == i,
            forall|k: int| 0 <= k < i ==> places[k] == states[k].pos,
        decreases states.len() - i,
    {
        places.push(states[i].pos);
        i += 1;
    }
    assert(places@ =~= places_of(states@));
    places
}

/// Four steps for each place of the lab, or as many as a machine integer
/// holds where that is more: more steps than a guard who leaves the lab can
/// make.
pub open spec fn enough(grid: Seq<Seq<u8>>) -> nat {
    if 4 * (grid.len() * grid[0].len()) <= usize::MAX {
        4 * (grid.len() * grid[0].len())
    } else {
        usize::MAX as nat
    }
}

/// `count` is the answer for the lab that the rows draw, with a guard who
/// is given `fuel` steps: the number of places she is on, or, where `traps`
/// is set, the number of places where one more obstacle traps her; nothing
/// where the rows draw no lab, or she has not left it after `fuel` steps.
pub open spec fn patrol_answer(grid: Seq<Seq<u8>>, fuel: nat, traps: bool, count: Option<usize>) -> bool {
    if draws_lab(grid) {
        exists|start: IPos| #[trigger]
            guard_last(grid, start, grid.len() as int, 0) && count == (if traps {
                trapped(Lab { grid, start }, GuardState { pos: start, orientation: Orientation::Up }, fuel)
            } else {
                visited(Lab { grid, start }, GuardState { pos: start, orientation: Orientation::Up }, fuel)
            })
    } else {
        count.is_none()
    }
}

/// On how many places the guard is on her patrol through the lab drawn in
/// `input`; `None` where the lines draw no lab, or she has not left it
/// after `max_steps` steps.
pub fn _solution1_within(input: &String, max_steps: usize) -> (count: Option<usize>)
    ensures
        patrol_answer(lines_of(bytes_of(input@)), max_steps as nat, false, count),
{
    match LabMap::from_str(input) {
        Some(map) => {
            let count = map.count_visited(max_steps);
            proof {
                assert(guard_last(map@.grid, map@.start, map@.grid.len() as int, 0));
                assert(map@ == (Lab { grid: lines_of(bytes_of(input@)), start: map@.start }));
            }
            count
        },
        None => None,
    }
}

/// On how many places of her patrol through the lab drawn in `input` one
/// more obstacle traps the guard; `None` where the lines draw no lab, or
/// she has not left it after `max_steps` steps without any such obstacle.
pub fn _solution2_within(input: &String, max_steps: usize) -> (count: Option<usize>)
    ensures
        patrol_answer(lines_of(bytes_of(input@)), max_steps as nat, true, count),
{
    match LabMap::from_str(input) {
        Some(map) => {
            let count = map.count_traps(max_steps);
            proof {
                assert(guard_last(map@.grid, map@.start, map@.grid.len() as int, 0));
                assert(map@ == (Lab { grid: lines_of(bytes_of(input@)), start: map@.start }));
            }
            count
        },
        None => None,
    }
}

/// On how many places the guard is on her patrol through the lab drawn in
/// `input`, given four steps for each of its places.
pub fn _solution1(input: &String) -> (count: Option<usize>)
    ensures
        patrol_answer(lines_of(bytes_of(input@)), enough(lines_of(bytes_of(input@))), false, count),
{
    match LabMap::from_str(input) {
        Some(map) => {
            let count = map.count_visited(map.enough_steps());
            proof {
                assert(guard_last(map@.grid, map@.start, map@.grid.len() as int, 0));
                assert(map@ == (Lab { grid: lines_of(bytes_of(input@)), start: map@.start }));
            }
            count
        },
        None => None,
    }
}

/// On how many places of her patrol through the lab drawn in `input` one
/// more obstacle traps the guard, given four steps for each of its places.
pub fn _solution2(input: &String) -> (count: Option<usize>)
    ensures
        patrol_answer(lines_of(bytes_of(input@)), enough(lines_of(bytes_of(input@))), true, count),
{
    match LabMap::from_str(input) {
        Some(map) => {
            let count = map.count_traps(map.enough_steps());
            proof {
                assert(guard_last(map@.grid, map@.start, map@.grid.len() as int, 0));
                assert(map@ == (Lab { grid: lines_of(bytes_of(input@)), start: map@.start }));
            }
            count
        },
        None => None,
    }
}

} // verus!
