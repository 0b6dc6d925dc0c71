//! Robots that walk a lobby whose edges wrap around, and the quadrants in
//! which they are counted.

use vstd::prelude::*;
use crate::pattern::all_match_groups;
use crate::pattern::regex_matches;
use crate::pattern::texts;
use crate::text::bytes_of;
use crate::text::parse_isize;
use crate::text::signed_value;
use crate::text::string_lines;
use crate::text::text_bytes;
use crate::text::text_lines;

verus! {

#[derive(Debug, Eq, PartialEq, Hash, Clone, Copy, Structural)]
pub struct Location {
    pub x: isize,
    pub y: isize,
}

#[derive(Debug, Clone, Copy, PartialEq, Eq, Structural)]
pub struct Dimensions {
    pub x: isize,
    pub y: isize,
}

#[derive(Debug, Clone, Copy, PartialEq, Eq, Structural)]
pub struct Velocity {
    pub x: isize,
    pub y: isize,
}

#[derive(Debug, Clone, Copy, PartialEq, Eq, Structural)]
pub struct Robot {
    pub loc: Location,
    pub vel: Velocity,
}

pub struct Lobby {
    pub dimensions: Dimensions,
    pub robots: Vec<Robot>,
}

#[derive(Debug, Eq, PartialEq, Clone, Copy, Structural)]
pub struct BoundingBox {
    pub upper_left: Location,
    pub lower_right: Location,
}

#[derive(Debug, Hash, Eq, PartialEq, Copy, Clone, Structural)]
pub enum Quadrant {
    One,
    Two,
    Three,
    Four,
}

/// `l` lies in `bb`, its edges included.
pub open spec fn inside(l: Location, bb: BoundingBox) -> bool {
    &&& bb.upper_left.x <= l.x <= bb.lower_right.x
    &&& bb.upper_left.y <= l.y <= bb.lower_right.y
}

pub fn in_bounds(l: &Location, bb: &BoundingBox) -> (within: bool)
    ensures
        within == inside(*l, *bb),
{
    l.x >= bb.upper_left.x && l.x <= bb.lower_right.x && l.y >= bb.upper_left.y && l.y
        <= bb.lower_right.y
}

/// The distance of `v` from the last multiple of `size` toward zero.
pub open spec fn overshoot(v: int, size: int) -> int
    recommends
        size != 0,
{
    if v >= 0 {
        v % size
    } else {
        (-v) % size
    }
}

/// Where a coordinate `v` comes to lie in a lobby of `size`: counted from
/// the near edge where `v` is not negative, from the far edge where it is.
pub open spec fn wrapped(v: int, size: int) -> int
    recommends
        size != 0,
{
    if v >= 0 {
        overshoot(v, size)
    } else {
        size - overshoot(v, size)
    }
}

/// The coordinate `from + by` can be wrapped into `size` in machine
/// integers.
pub open spec fn can_wrap(from: isize, by: isize, size: isize) -> bool {
    &&& isize::MIN <= from + by <= isize::MAX
    &&& size != 0
    &&& !(from + by == isize::MIN && size == -1)
    &&& isize::MIN <= wrapped(from + by, size as int) <= isize::MAX
}

/// The quadrant `q` of a lobby of `dimensions`. The middle row and the
/// middle column belong to no quadrant.
pub open spec fn quadrant_box(dimensions: Dimensions, q: Quadrant) -> BoundingBox {
    let max_x = dimensions.x - 1;
    let max_y = dimensions.y - 1;
    let mid_x = half(dimensions.x as int);
    let mid_y = half(dimensions.y as int);
    match q {
        Quadrant::One => BoundingBox {
            upper_left: Location { x: 0, y: 0 },
            lower_right: Location { x: (mid_x - 1) as isize, y: (mid_y - 1) as isize },
        },
        Quadrant::Two => BoundingBox {
            upper_left: Location { x: 0, y: (mid_y + 1) as isize },
            lower_right: Location { x: (mid_x - 1) as isize, y: max_y as isize },
        },
        Quadrant::Three => BoundingBox {
            upper_left: Location { x: (mid_x + 1) as isize, y: 0 },
            lower_right: Location { x: max_x as isize, y: (mid_y - 1) as isize },
        },
        Quadrant::Four => BoundingBox {
            upper_left: Location { x: (mid_x + 1) as isize, y: (mid_y + 1) as isize },
            lower_right: Location { x: max_x as isize, y: max_y as isize },
        },
    }
}

/// Half of `v`, rounded toward zero.
pub open spec fn half(v: int) -> int {
    if v >= 0 {
        v / 2
    } else {
        -((-v) / 2)
    }
}

/// How many of `robots` stand in `bb`.
pub open spec fn count_inside(robots: Seq<Robot>, bb: BoundingBox) -> nat
    decreases robots.len(),
{
    if robots.len() == 0 {
        0
    } else {
        count_inside(robots.drop_last(), bb) + (if inside(robots.last().loc, bb) {
            1nat
        } else {
            0nat
        })
    }
}

/// No more robots stand in a box than there are.
pub proof fn lemma_count_inside_bound(robots: Seq<Robot>, bb: BoundingBox)
    ensures
        count_inside(robots, bb) <= robots.len(),
    decreases robots.len(),
{
    if robots.len() > 0 {
        lemma_count_inside_bound(robots.drop_last(), bb);
    }
}

impl Lobby {
    pub fn new(dimensions: Dimensions) -> (lobby: Lobby)
        ensures
            lobby.dimensions == dimensions,
            lobby.robots@.len() == 0,
    {
        Lobby { dimensions, robots: Vec::new() }
    }

    /// Where `robot` stands after one step.
    pub open spec fn next_loc(&self, robot: Robot) -> Location {
        Location {
            x: wrapped(robot.loc.x + robot.vel.x, self.dimensions.x as int) as isize,
            y: wrapped(robot.loc.y + robot.vel.y, self.dimensions.y as int) as isize,
        }
    }

    /// One step of `robot` can be computed in machine integers.
    pub open spec fn can_step(&self, robot: Robot) -> bool {
        &&& can_wrap(robot.loc.x, robot.vel.x, self.dimensions.x)
        &&& can_wrap(robot.loc.y, robot.vel.y, self.dimensions.y)
    }

    pub fn get_next_loc(&self, robot: &Robot) -> (next: Location)
        requires
            self.can_step(*robot),
        ensures
            next == self.next_loc(*robot),
    {
        let try_next_x = robot.loc.x + robot.vel.x;
        let try_next_y = robot.loc.y + robot.vel.y;
        let next_x;
        let next_y;
        if try_next_x >= 0 {
            next_x = try_next_x % self.dimensions.x;
        } else {
            next_x = self.dimensions.x - (-(try_next_x % self.dimensions.x));
        }
        if try_next_y >= 0 {
            next_y = try_next_y % self.dimensions.y;
        } else {
            next_y = self.dimensions.y - (-(try_next_y % self.dimensions.y));
        }
        Location { x: next_x, y: next_y }
    }

    /// The box of quadrant `q`.
    pub fn quadrant_bounds(&self, q: Quadrant) -> (bb: BoundingBox)
        requires
            isize::MIN + 2 <= self.dimensions.x,
            isize::MIN + 2 <= self.dimensions.y,
        ensures
            bb == quadrant_box(self.dimensions, q),
    {
        let max_x = self.dimensions.x - 1;
        let max_y = self.dimensions.y - 1;
        let mid_x = self.dimensions.x / 2;
        let mid_y = self.dimensions.y / 2;
        match q {
            Quadrant::One => BoundingBox {
                upper_left: Location { x: 0, y: 0 },
                lower_right: Location { x: mid_x - 1, y: mid_y - 1 },
            },
            Quadrant::Two => BoundingBox {
                upper_left: Location { x: 0, y: mid_y + 1 },
                lower_right: Location { x: mid_x - 1, y: max_y },
            },
            Quadrant::Three => BoundingBox {
                upper_left: Location { x: mid_x + 1, y: 0 },
                lower_right: Location { x: max_x, y: mid_y - 1 },
            },
            Quadrant::Four => BoundingBox {
                upper_left: Location { x: mid_x + 1, y: mid_y + 1 },
                lower_right: Location { x: max_x, y: max_y },
            },
        }
    }

    /// How many robots stand in quadrant `q`.
    pub fn quadrant_score(&self, q: Quadrant) -> (score: usize)
        requires
            isize::MIN + 2 <= self.dimensions.x,
            isize::MIN + 2 <= self.dimensions.y,
        ensures
            score == count_inside(self.robots@, quadrant_box(self.dimensions, q)),
    {
        let bb = self.quadrant_bounds(q);
        let mut score: usize = 0;
        let mut i: usize = 0;
        assert(self.robots@.take(0) =~= Seq::<Robot>::empty());
        while i < self.robots.len()
            invariant
                i <= self.robots.len(),
                score == count_inside(self.robots@.take(i as int), bb),
            decreases self.robots.len() - i,
        {
            proof {
                assert(self.robots@.take(i + 1).drop_last() =~= self.robots@.take(i as int));
                lemma_count_inside_bound(self.robots@.take(i as int), bb);
            }
            if in_bounds(&self.robots[i].loc, &bb) {
                score += 1;
            }
            i += 1;
        }
        assert(self.robots@.take(i as int) =~= self.robots@);
        score
    }

    pub fn step_all_robots(&mut self)
        requires
            forall|i: int|
                0 <= i < old(self).robots.len() ==> old(self).can_step(
                    #[trigger] old(self).robots[i],
                ),
        ensures
            final(self).dimensions == old(self).dimensions,
            final(self).robots.len() == old(self).robots.len(),
            forall|i: int|
                0 <= i < old(self).robots.len() ==> {
                    &&& (#[trigger] final(self).robots[i]).loc == old(self).next_loc(
                        old(self).robots[i],
                    )
                    &&& final(self).robots[i].vel == old(self).robots[i].vel
                },
    {
        let mut i: usize = 0;
        while i < self.robots.len()
            invariant
                i <= self.robots.len(),
                self.dimensions == old(self).dimensions,
                self.robots.len() == old(self).robots.len(),
                forall|j: int|
                    i <= j < self.robots.len() ==> #[trigger] self.robots[j] == old(
                        self,
                    ).robots[j],
                forall|j: int|
                    0 <= j < old(self).robots.len() ==> old(self).can_step(
                        #[trigger] old(self).robots[j],
                    ),
                forall|j: int|
                    0 <= j < i ==> {
                        &&& (#[trigger] self.robots[j]).loc == old(self).next_loc(
                            old(self).robots[j],
                        )
                        &&& self.robots[j].vel == old(self).robots[j].vel
                    },
            decreases self.robots.len() - i,
        {
            self._step_robot_at(i);
            i += 1;
        }
    }

    pub fn _step_robot_at(&mut self, robot_idx: usize)
        requires
            robot_idx < old(self).robots.len(),
            old(self).can_step(old(self).robots[robot_idx as int]),
        ensures
            final(self).dimensions == old(self).dimensions,
            final(self).robots@ == old(self).robots@.update(
                robot_idx as int,
                Robot {
                    loc: old(self).next_loc(old(self).robots[robot_idx as int]),
                    vel: old(self).robots[robot_idx as int].vel,
                },
            ),
    {
        let robot = self.robots[robot_idx];
        let next_loc = self.get_next_loc(&robot);
        self.robots.set(robot_idx, Robot { loc: next_loc, vel: robot.vel });
    }

    pub fn add_robot(&mut self, robot: Robot)
        ensures
            final(self).dimensions == old(self).dimensions,
            final(self).robots@ == old(self).robots@.push(robot),
    {
        self.robots.push(robot);
    }

    /// The product of the four quadrants' scores, a quadrant without a robot
    /// counting as 1.
    pub open spec fn safety_factor(&self) -> int {
        final_factor(self.dimensions, self.robots@)
    }
}

/// `robot` stands in a lobby of `dimensions`, or on its far edges, and can
/// take a step from anywhere there.
pub open spec fn at_home(dimensions: Dimensions, robot: Robot) -> bool {
    &&& 0 <= robot.loc.x <= dimensions.x
    &&& 0 <= robot.loc.y <= dimensions.y
    &&& robot.vel.x + dimensions.x <= isize::MAX
    &&& robot.vel.y + dimensions.y <= isize::MAX
}

/// `robot` after `count` steps in a lobby of `dimensions`.
pub open spec fn robot_after(dimensions: Dimensions, robot: Robot, count: nat) -> Robot
    decreases count,
{
    if count == 0 {
        robot
    } else {
        let before = robot_after(dimensions, robot, (count - 1) as nat);
        Robot {
            loc: Location {
                x: wrapped(before.loc.x + before.vel.x, dimensions.x as int) as isize,
                y: wrapped(before.loc.y + before.vel.y, dimensions.y as int) as isize,
            },
            vel: before.vel,
        }
    }
}

/// A robot at home stays at home, step after step.
pub proof fn lemma_stays_at_home(dimensions: Dimensions, robot: Robot, count: nat)
    requires
        dimensions.x > 0,
        dimensions.y > 0,
        at_home(dimensions, robot),
    ensures
        at_home(dimensions, robot_after(dimensions, robot, count)),
        robot_after(dimensions, robot, count).vel == robot.vel,
        can_wrap(
            robot_after(dimensions, robot, count).loc.x,
            robot.vel.x,
            dimensions.x,
        ),
        can_wrap(
            robot_after(dimensions, robot, count).loc.y,
            robot.vel.y,
            dimensions.y,
        ),
    decreases count,
{
    if count > 0 {
        lemma_stays_at_home(dimensions, robot, (count - 1) as nat);
    }
}

impl Lobby {
    /// Every robot takes `count` steps.
    pub fn step_many(&mut self, count: usize)
        requires
            old(self).dimensions.x > 0,
            old(self).dimensions.y > 0,
            forall|i: int|
                0 <= i < old(self).robots.len() ==> at_home(
                    old(self).dimensions,
                    #[trigger] old(self).robots[i],
                ),
        ensures
            final(self).dimensions == old(self).dimensions,
            final(self).robots.len() == old(self).robots.len(),
            forall|i: int|
                0 <= i < old(self).robots.len() ==> #[trigger] final(self).robots[i]
                    == robot_after(old(self).dimensions, old(self).robots[i], count as nat),
    {
        let mut done: usize = 0;
        while done < count
            invariant
                done <= count,
                self.dimensions == old(self).dimensions,
                self.dimensions.x > 0,
                self.dimensions.y > 0,
                self.robots.len() == old(self).robots.len(),
                forall|i: int|
                    0 <= i < old(self).robots.len() ==> at_home(
                        old(self).dimensions,
                        #[trigger] old(self).robots[i],
                    ),
                forall|i: int|
                    0 <= i < old(self).robots.len() ==> #[trigger] self.robots[i]
                        == robot_after(old(self).dimensions, old(self).robots[i], done as nat),
            decreases count - done,
        {
            proof {
                assert forall|i: int| 0 <= i < self.robots.len() implies self.can_step(
                    #[trigger] self.robots[i],
                ) by {
                    lemma_stays_at_home(old(self).dimensions, old(self).robots[i], done as nat);
                }
            }
            self.step_all_robots();
            done += 1;
        }
    }

    /// The product of the four quadrants' scores, a quadrant without a robot
    /// counting as 1; `None` where the product is no machine integer.
    pub fn get_safety_factor(&self) -> (product: Option<isize>)
        requires
            isize::MIN + 2 <= self.dimensions.x,
            isize::MIN + 2 <= self.dimensions.y,
        ensures
            match product {
                Some(p) => p == self.safety_factor(),
                None => self.safety_factor() > isize::MAX,
            },
    {
        let one = self.quadrant_score(Quadrant::One);
        let two = self.quadrant_score(Quadrant::Two);
        let three = self.quadrant_score(Quadrant::Three);
        let four = self.quadrant_score(Quadrant::Four);
        let f1: usize = if one == 0 { 1 } else { one };
        let f2: usize = if two == 0 { 1 } else { two };
        let f3: usize = if three == 0 { 1 } else { three };
        let f4: usize = if four == 0 { 1 } else { four };
        let ghost (g1, g2, g3, g4) = (f1 as int, f2 as int, f3 as int, f4 as int);
        match f1.checked_mul(f2) {
            None => {
                assert(g1 * g2 * g3 * g4 > isize::MAX) by (nonlinear_arith)
                    requires
                        g1 * g2 > usize::MAX,
                        g3 >= 1,
                        g4 >= 1,
                        usize::MAX >= isize::MAX,
                ;
                None
            },
            Some(p12) => match p12.checked_mul(f3) {
                None => {
                    assert(g1 * g2 * g3 * g4 > isize::MAX) by (nonlinear_arith)
                        requires
                            g1 * g2 * g3 > usize::MAX,
                            g4 >= 1,
                            usize::MAX >= isize::MAX,
                    ;
                    None
                },
                Some(p123) => match p123.checked_mul(f4) {
                    None => None,
                    Some(p) => if p <= isize::MAX as usize {
                        Some(p as isize)
                    } else {
                        None
                    },
                },
            },
        }
    }
}

/// A score as a factor: 1 in place of 0.
pub open spec fn factor(score: nat) -> int {
    if score == 0 {
        1
    } else {
        score as int
    }
}

/// The pattern of a robot's line: its place behind `p=`, its velocity
/// behind `v=`.
pub open spec fn robot_pattern() -> Seq<char> {
    r"p=(\d+),(\d+)\s+v=(-?\d+),(-?\d+)"@
}

/// The robot that the four groups of a match write, behind the text of the
/// whole match.
pub open spec fn robot_of(groups: Seq<Seq<char>>) -> Option<Robot> {
    if groups.len() != 5 {
        None
    } else {
        match (
            signed_value(bytes_of(groups[1])),
            signed_value(bytes_of(groups[2])),
            signed_value(bytes_of(groups[3])),
            signed_value(bytes_of(groups[4])),
        ) {
            (Some(px), Some(py), Some(vx), Some(vy)) if isize::MIN <= px <= isize::MAX
                && isize::MIN <= py <= isize::MAX && isize::MIN <= vx <= isize::MAX
                && isize::MIN <= vy <= isize::MAX => Some(
                Robot {
                    loc: Location { x: px as isize, y: py as isize },
                    vel: Velocity { x: vx as isize, y: vy as isize },
                },
            ),
            _ => None,
        }
    }
}

/// The robot that the four groups of a match write; `None` where there are
/// not four behind the whole match, or one of them is no number.
pub fn robot_from_groups(groups: &Vec<String>) -> (robot: Option<Robot>)
    ensures
        robot == robot_of(texts(groups@)),
{
    if groups.len() != 5 {
        return None;
    }
    match (
        parse_isize(text_bytes(&groups[1])),
        parse_isize(text_bytes(&groups[2])),
        parse_isize(text_bytes(&groups[3])),
        parse_isize(text_bytes(&groups[4])),
    ) {
        (Some(px), Some(py), Some(vx), Some(vy)) => Some(
            Robot { loc: Location { x: px, y: py }, vel: Velocity { x: vx, y: vy } },
        ),
        _ => None,
    }
}

/// The robots that `matches` write, in order; `None` where one of them
/// writes none.
pub open spec fn robots_of(matches: Seq<Seq<Seq<char>>>) -> Option<Seq<Robot>>
    decreases matches.len(),
{
    if matches.len() == 0 {
        Some(Seq::empty())
    } else {
        match (robots_of(matches.drop_last()), robot_of(matches.last())) {
            (Some(before), Some(robot)) => Some(before.push(robot)),
            _ => None,
        }
    }
}

/// The robots written on the lines `lines`, in order.
pub open spec fn robots_in(lines: Seq<Seq<char>>) -> Option<Seq<Robot>>
    decreases lines.len(),
{
    if lines.len() == 0 {
        Some(Seq::empty())
    } else {
        match (
            robots_in(lines.drop_last()),
            robots_of(regex_matches(robot_pattern(), lines.last())),
        ) {
            (Some(before), Some(more)) => Some(before + more),
            _ => None,
        }
    }
}

/// The robots written on one line.
pub fn parse_line(line: &str) -> (robots: Option<Vec<Robot>>)
    ensures
        match robots {
            Some(read) => robots_of(regex_matches(robot_pattern(), line@)) == Some(read@),
            None => robots_of(regex_matches(robot_pattern(), line@)).is_none(),
        },
{
    let matches = all_match_groups(r"p=(\d+),(\d+)\s+v=(-?\d+),(-?\d+)", line);
    let ghost found = regex_matches(robot_pattern(), line@);
    let mut robots: Vec<Robot> = Vec::new();
    let mut ok = true;
    let mut i: usize = 0;
    assert(found.take(0) =~= Seq::<Seq<Seq<char>>>::empty());
    while i < matches.len()
        invariant
            i <= matches.len(),
            found == crate::pattern::match_texts(matches@),
            ok ==> robots_of(found.take(i as int)) == Some(robots@),
            !ok ==> robots_of(found.take(i as int)).is_none(),
        decreases matches.len() - i,
    {
        assert(found.take(i + 1).drop_last() =~= found.take(i as int));
        assert(found.take(i + 1).last() == texts(matches[i as int]@));
        match robot_from_groups(&matches[i]) {
            Some(robot) => {
                if ok {
                    robots.push(robot);
                }
            },
            None => {
                ok = false;
            },
        }
        i += 1;
    }
    assert(found.take(i as int) =~= found);
    if ok {
        Some(robots)
    } else {
        None
    }
}

/// The robots written on `lines`.
pub fn robots_from_lines(lines: &Vec<String>) -> (robots: Option<Vec<Robot>>)
    ensures
        match robots {
            Some(read) => robots_in(texts(lines@)) == Some(read@),
            None => robots_in(texts(lines@)).is_none(),
        },
{
    let mut robots: Vec<Robot> = Vec::new();
    let mut ok = true;
    let mut i: usize = 0;
    assert(texts(lines@).take(0) =~= Seq::<Seq<char>>::empty());
    while i < lines.len()
        invariant
            i <= lines.len(),
            ok ==> robots_in(texts(lines@).take(i as int)) == Some(robots@),
            !ok ==> robots_in(texts(lines@).take(i as int)).is_none(),
        decreases lines.len() - i,
    {
        assert(texts(lines@).take(i + 1).drop_last() =~= texts(lines@).take(i as int));
        assert(texts(lines@).take(i + 1).last() == lines[i as int]@);
        match parse_line(lines[i].as_str()) {
            Some(more) => {
                if ok {
                    robots.extend_from_slice(more.as_slice());
                }
            },
            None => {
                ok = false;
            },
        }
        i += 1;
    }
    assert(texts(lines@).take(i as int) =~= texts(lines@));
    if ok {
        Some(robots)
    } else {
        None
    }
}

/// The robots written in `input`, one to a line as a rule.
pub fn parse_input(input: &String) -> (robots: Option<Vec<Robot>>)
    ensures
        exists|lines: Seq<Seq<char>>| #[trigger]
            text_lines(input@, lines) && match robots {
                Some(read) => robots_in(lines) == Some(read@),
                None => robots_in(lines).is_none(),
            },
{
    let found = string_lines(input.as_str());
    let robots = robots_from_lines(&found);
    assert(text_lines(input@, texts(found@)));
    robots
}

/// The safety factor of the lobby after 100 steps of the robots written in
/// `input`. `None` where the text is malformed, the lobby has no positive
/// size, a robot does not start inside it (or cannot step in machine
/// integers), or the factor is no machine integer.
pub fn _solution1(input: &String, map_dimensions: Dimensions) -> (answer: Option<isize>)
    ensures
        exists|lines: Seq<Seq<char>>| #[trigger]
            text_lines(input@, lines) && answer == solution1_of(lines, map_dimensions),
{
    let found = string_lines(input.as_str());
    assert(text_lines(input@, texts(found@)));
    match robots_from_lines(&found) {
        None => None,
        Some(robots) => {
            if map_dimensions.x <= 0 || map_dimensions.y <= 0 {
                return None;
            }
            let mut i: usize = 0;
            while i < robots.len()
                invariant
                    i <= robots.len(),
                    map_dimensions.x > 0,
                    map_dimensions.y > 0,
                    text_lines(input@, texts(found@)),
                    robots_in(texts(found@)) == Some(robots@),
                    forall|j: int| 0 <= j < i ==> at_home(map_dimensions, #[trigger] robots[j]),
                decreases robots.len() - i,
            {
                let r = robots[i];
                if !(0 <= r.loc.x && r.loc.x <= map_dimensions.x && 0 <= r.loc.y && r.loc.y
                    <= map_dimensions.y && r.vel.x <= isize::MAX - map_dimensions.x && r.vel.y
                    <= isize::MAX - map_dimensions.y) {
                    assert(!at_home(map_dimensions, robots[i as int]));
                    assert(solution1_of(texts(found@), map_dimensions).is_none());
                    return None;
                }
                i += 1;
            }
            let mut l = Lobby { dimensions: map_dimensions, robots };
            let ghost start = l.robots@;
            l.step_many(100);
            assert(l.robots@ =~= after_steps(map_dimensions, start, 100));
            l.get_safety_factor()
        },
    }
}

/// Every robot of `robots` after `count` steps.
pub open spec fn after_steps(dimensions: Dimensions, robots: Seq<Robot>, count: nat) -> Seq<
    Robot,
> {
    Seq::new(robots.len(), |i: int| robot_after(dimensions, robots[i], count))
}

/// What `_solution1` returns for a text with the lines `lines`.
pub open spec fn solution1_of(lines: Seq<Seq<char>>, dimensions: Dimensions) -> Option<isize> {
    match robots_in(lines) {
        None => None,
        Some(robots) => {
            if dimensions.x > 0 && dimensions.y > 0 && (forall|i: int|
                0 <= i < robots.len() ==> at_home(dimensions, #[trigger] robots[i]))
                && final_factor(dimensions, after_steps(dimensions, robots, 100)) <= isize::MAX {
                Some(final_factor(dimensions, after_steps(dimensions, robots, 100)) as isize)
            } else {
                None
            }
        },
    }
}

/// The product of the four quadrants' scores, a quadrant without a robot
/// counting as 1.
pub open spec fn final_factor(dimensions: Dimensions, robots: Seq<Robot>) -> int {
    factor(count_inside(robots, quadrant_box(dimensions, Quadrant::One))) * factor(
        count_inside(robots, quadrant_box(dimensions, Quadrant::Two)),
    ) * factor(count_inside(robots, quadrant_box(dimensions, Quadrant::Three))) * factor(
        count_inside(robots, quadrant_box(dimensions, Quadrant::Four)),
    )
}

} // verus!
