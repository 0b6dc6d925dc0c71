//! Claw machines: two buttons that each move the claw by a fixed offset, and
//! a prize to reach at the least cost.

use vstd::prelude::*;
use crate::pattern::all_match_groups;
use crate::pattern::regex_groups;
use crate::pattern::texts;
use crate::text::bytes_of;
use crate::text::lines;
use crate::text::lines_of;
use crate::text::parse_isize;
use crate::text::signed_value;
use crate::text::string_lines;
use crate::text::text_bytes;
use crate::text::text_lines;

verus! {

pub const A_BTN_COST: isize = 3;

pub const B_BTN_COST: isize = 1;

pub const MAX_PRESSES: isize = 100;

#[derive(Debug, PartialEq, Eq, Clone, Copy, Structural)]
pub struct Offset {
    pub x: isize,
    pub y: isize,
}

#[derive(Debug, PartialEq, Eq, Clone, Copy, Structural)]
pub struct Loc {
    pub x: isize,
    pub y: isize,
}

#[derive(Debug, Clone, Copy)]
pub struct ClawConf {
    pub a_offset: Offset,
    pub b_offset: Offset,
    pub prize_location: Loc,
}

#[derive(Clone, Copy)]
pub struct SolutionState<'a> {
    pub num_a_presses: isize,
    pub num_b_presses: isize,
    pub conf: &'a ClawConf,
}

/// `v` is a machine integer.
pub open spec fn fits(v: int) -> bool {
    isize::MIN <= v <= isize::MAX
}

/// The quotient of `a` by `b`, rounded toward zero.
pub open spec fn quot(a: int, b: int) -> int
    recommends
        b != 0,
{
    if a >= 0 {
        a / b
    } else {
        -((-a) / b)
    }
}

/// The remainder that goes with `quot`: it has the sign of `a`.
pub open spec fn rem(a: int, b: int) -> int
    recommends
        b != 0,
{
    if a >= 0 {
        a % b
    } else {
        -((-a) % b)
    }
}

/// `a` can be divided by `b` in machine integers.
pub open spec fn divides_safely(a: int, b: int) -> bool {
    b != 0 && !(a == isize::MIN && b == -1)
}

impl<'a> SolutionState<'a> {
    /// What the presses so far cost.
    pub open spec fn spec_cost(&self) -> int {
        A_BTN_COST * self.num_a_presses + B_BTN_COST * self.num_b_presses
    }

    /// Where the presses so far have brought the claw, on one axis each.
    pub open spec fn spec_x(&self) -> int {
        self.num_a_presses * self.conf.a_offset.x + self.num_b_presses * self.conf.b_offset.x
    }

    pub open spec fn spec_y(&self) -> int {
        self.num_a_presses * self.conf.a_offset.y + self.num_b_presses * self.conf.b_offset.y
    }

    /// The position can be computed in machine integers.
    pub open spec fn loc_fits(&self) -> bool {
        &&& fits(self.num_a_presses * self.conf.a_offset.x)
        &&& fits(self.num_b_presses * self.conf.b_offset.x)
        &&& fits(self.num_a_presses * self.conf.a_offset.y)
        &&& fits(self.num_b_presses * self.conf.b_offset.y)
        &&& fits(self.spec_x())
        &&& fits(self.spec_y())
    }

    /// The cost can be computed in machine integers.
    pub open spec fn cost_fits(&self) -> bool {
        fits(A_BTN_COST * self.num_a_presses) && fits(self.spec_cost())
    }

    /// What is left to cover on each axis once the B presses are taken off.
    pub open spec fn left_x(&self) -> int {
        self.conf.prize_location.x - self.num_b_presses * self.conf.b_offset.x
    }

    pub open spec fn left_y(&self) -> int {
        self.conf.prize_location.y - self.num_b_presses * self.conf.b_offset.y
    }

    pub fn cost(&self) -> (cost: isize)
        requires
            self.cost_fits(),
        ensures
            cost == self.spec_cost(),
    {
        A_BTN_COST * self.num_a_presses + B_BTN_COST * self.num_b_presses
    }

    pub fn loc(&self) -> (loc: Loc)
        requires
            self.loc_fits(),
        ensures
            loc.x == self.spec_x(),
            loc.y == self.spec_y(),
    {
        let x = self.num_a_presses * self.conf.a_offset.x + self.num_b_presses
            * self.conf.b_offset.x;
        let y = self.num_a_presses * self.conf.a_offset.y + self.num_b_presses
            * self.conf.b_offset.y;
        Loc { x, y }
    }

    pub fn press_b(&mut self)
        requires
            old(self).num_b_presses < isize::MAX,
        ensures
            final(self).num_b_presses == old(self).num_b_presses + 1,
            final(self).num_a_presses == old(self).num_a_presses,
            final(self).conf == old(self).conf,
    {
        self.num_b_presses += 1;
    }

    pub fn unpress_b(&mut self)
        requires
            old(self).num_b_presses > isize::MIN,
        ensures
            final(self).num_b_presses == old(self).num_b_presses - 1,
            final(self).num_a_presses == old(self).num_a_presses,
            final(self).conf == old(self).conf,
    {
        self.num_b_presses -= 1;
    }

    pub fn press_a(&mut self)
        requires
            old(self).num_a_presses < isize::MAX,
        ensures
            final(self).num_a_presses == old(self).num_a_presses + 1,
            final(self).num_b_presses == old(self).num_b_presses,
            final(self).conf == old(self).conf,
    {
        self.num_a_presses += 1;
    }

    pub fn unpress_a(&mut self)
        requires
            old(self).num_a_presses > isize::MIN,
        ensures
            final(self).num_a_presses == old(self).num_a_presses - 1,
            final(self).num_b_presses == old(self).num_b_presses,
            final(self).conf == old(self).conf,
    {
        self.num_a_presses -= 1;
    }

    /// Whether A presses alone can cover what is left on both axes.
    pub fn a_divisible(&self) -> (divisible: bool)
        requires
            fits(self.num_b_presses * self.conf.b_offset.x),
            fits(self.num_b_presses * self.conf.b_offset.y),
            fits(self.left_x()),
            fits(self.left_y()),
            divides_safely(self.left_x(), self.conf.a_offset.x as int),
            divides_safely(self.left_y(), self.conf.a_offset.y as int),
        ensures
            divisible == (rem(self.left_x(), self.conf.a_offset.x as int) == 0 && rem(
                self.left_y(),
                self.conf.a_offset.y as int,
            ) == 0),
    {
        let x = self.conf.prize_location.x - self.num_b_presses * self.conf.b_offset.x;
        let y = self.conf.prize_location.y - self.num_b_presses * self.conf.b_offset.y;
        x % self.conf.a_offset.x == 0 && y % self.conf.a_offset.y == 0
    }

    /// The number of A presses that covers what is left on the first axis,
    /// rounded toward zero.
    pub fn get_a_presses_needed(&self) -> (presses: isize)
        requires
            fits(self.num_b_presses * self.conf.b_offset.x),
            fits(self.left_x()),
            divides_safely(self.left_x(), self.conf.a_offset.x as int),
        ensures
            presses == quot(self.left_x(), self.conf.a_offset.x as int),
    {
        let x = self.conf.prize_location.x - self.num_b_presses * self.conf.b_offset.x;
        proof {
            lemma_quot_rem_fit(x as int, self.conf.a_offset.x as int);
        }
        x / self.conf.a_offset.x
    }

    pub fn at_target(&self) -> (there: bool)
        requires
            self.loc_fits(),
        ensures
            there == (self.spec_x() == self.conf.prize_location.x && self.spec_y()
                == self.conf.prize_location.y),
    {
        let loc = self.loc();
        loc.x == self.conf.prize_location.x && loc.y == self.conf.prize_location.y
    }

    pub fn beyond_target(&self) -> (beyond: bool)
        requires
            self.loc_fits(),
        ensures
            beyond == (self.spec_x() > self.conf.prize_location.x || self.spec_y()
                > self.conf.prize_location.y),
    {
        let loc = self.loc();
        loc.x > self.conf.prize_location.x || loc.y > self.conf.prize_location.y
    }
}

/// The two numbers that the groups of a match write, behind the text of
/// the whole match.
pub open spec fn offset_of(groups: Seq<Seq<char>>) -> Option<Offset> {
    if groups.len() != 3 {
        None
    } else {
        match (signed_value(bytes_of(groups[1])), signed_value(bytes_of(groups[2]))) {
            (Some(x), Some(y)) if fits(x) && fits(y) => Some(Offset { x: x as isize, y: y as isize }),
            _ => None,
        }
    }
}

/// The offset that the two groups of a match write; `None` where there are
/// not two behind the whole match, or one of them is no number.
pub fn offset_from_groups(groups: &Vec<String>) -> (offset: Option<Offset>)
    ensures
        offset == offset_of(texts(groups@)),
{
    if groups.len() != 3 {
        return None;
    }
    match (parse_isize(text_bytes(&groups[1])), parse_isize(text_bytes(&groups[2]))) {
        (Some(x), Some(y)) => Some(Offset { x, y }),
        _ => None,
    }
}

/// The pattern of a button's line.
pub open spec fn offset_pattern() -> Seq<char> {
    r"X\+(\d+), Y\+(\d+)"@
}

/// The pattern of a prize's line.
pub open spec fn loc_pattern() -> Seq<char> {
    r"X=(\d+), Y=(\d+)"@
}

/// The offset written on a button's line, where the line holds one.
pub fn parse_offset(line: &str) -> (offset: Option<Offset>)
    ensures
        offset == (match regex_groups(offset_pattern(), line@) {
            Some(groups) => offset_of(groups),
            None => None,
        }),
{
    let matches = all_match_groups(r"X\+(\d+), Y\+(\d+)", line);
    if matches.len() > 0 {
        offset_from_groups(&matches[0])
    } else {
        None
    }
}

/// The place written on a prize's line, where the line holds one.
pub fn parse_loc(line: &str) -> (loc: Option<Loc>)
    ensures
        loc == (match regex_groups(loc_pattern(), line@) {
            Some(groups) => match offset_of(groups) {
                Some(at) => Some(Loc { x: at.x, y: at.y }),
                None => None,
            },
            None => None,
        }),
{
    let matches = all_match_groups(r"X=(\d+), Y=(\d+)", line);
    if matches.len() > 0 {
        match offset_from_groups(&matches[0]) {
            Some(at) => Some(Loc { x: at.x, y: at.y }),
            None => None,
        }
    } else {
        None
    }
}

/// The configuration that the three lines from `first` on describe.
pub open spec fn conf_at(lines: Seq<Seq<char>>, first: int) -> Option<ClawConf> {
    match (
        regex_groups(offset_pattern(), lines[first]),
        regex_groups(offset_pattern(), lines[first + 1]),
        regex_groups(loc_pattern(), lines[first + 2]),
    ) {
        (Some(a), Some(b), Some(p)) => match (offset_of(a), offset_of(b), offset_of(p)) {
            (Some(a_offset), Some(b_offset), Some(at)) => Some(
                ClawConf { a_offset, b_offset, prize_location: Loc { x: at.x, y: at.y } },
            ),
            _ => None,
        },
        _ => None,
    }
}

/// The first `count` configurations of `lines`, each on three lines with one
/// line between it and the next.
pub open spec fn confs_upto(lines: Seq<Seq<char>>, count: nat) -> Option<Seq<ClawConf>>
    decreases count,
{
    if count == 0 {
        Some(Seq::empty())
    } else {
        match (confs_upto(lines, (count - 1) as nat), conf_at(lines, 4 * (count - 1))) {
            (Some(before), Some(conf)) => Some(before.push(conf)),
            _ => None,
        }
    }
}

/// The configurations that `lines` describe; `None` where the lines do not
/// end with the third line of a configuration, or one of them is malformed.
pub open spec fn confs_in(lines: Seq<Seq<char>>) -> Option<Seq<ClawConf>> {
    if lines.len() % 4 == 3 {
        confs_upto(lines, ((lines.len() + 1) / 4) as nat)
    } else {
        None
    }
}

/// The configurations written on the lines `found`.
pub fn confs_from_lines(found: &Vec<String>) -> (confs: Option<Vec<ClawConf>>)
    ensures
        match confs {
            Some(read) => confs_in(texts(found@)) == Some(read@),
            None => confs_in(texts(found@)).is_none(),
        },
{
    if found.len() % 4 != 3 {
        return None;
    }
    let count: usize = found.len() / 4 + 1;
    let mut confs: Vec<ClawConf> = Vec::new();
    let mut ok = true;
    let mut k: usize = 0;
    while k < count
        invariant
            k <= count,
            found.len() == 4 * (count - 1) + 3,
            ok ==> confs_upto(texts(found@), k as nat) == Some(confs@),
            !ok ==> confs_upto(texts(found@), k as nat).is_none(),
        decreases count - k,
    {
        let first: usize = 4 * k;
        let a = parse_offset(found[first].as_str());
        let b = parse_offset(found[first + 1].as_str());
        let p = parse_loc(found[first + 2].as_str());
        match (a, b, p) {
            (Some(a_offset), Some(b_offset), Some(prize_location)) => {
                if ok {
                    confs.push(ClawConf { a_offset, b_offset, prize_location });
                }
            },
            _ => {
                ok = false;
            },
        }
        k += 1;
    }
    if ok {
        Some(confs)
    } else {
        None
    }
}

/// The configurations written in `input`, three lines each and a line
/// between one and the next.
pub fn parse_conf(input: &String) -> (confs: Option<Vec<ClawConf>>)
    ensures
        exists|lines: Seq<Seq<char>>| #[trigger]
            text_lines(input@, lines) && match confs {
                Some(read) => confs_in(lines) == Some(read@),
                None => confs_in(lines).is_none(),
            },
{
    let found = string_lines(input.as_str());
    let confs = confs_from_lines(&found);
    assert(text_lines(input@, texts(found@)));
    confs
}

/// Whether the search from `current` can be given up: a button was pressed
/// more than `max_press_count` times, the claw is beyond the prize, or the
/// presses cost no less than `best`.
pub fn stop_search(
    current: &SolutionState,
    best: &SolutionState,
    max_press_count: isize,
) -> (stop: bool)
    requires
        current.loc_fits(),
        current.cost_fits(),
        best.cost_fits(),
    ensures
        stop == (current.num_a_presses > max_press_count || current.num_b_presses
            > max_press_count || current.spec_x() > current.conf.prize_location.x
            || current.spec_y() > current.conf.prize_location.y || current.spec_cost()
            >= best.spec_cost()),
{
    if current.num_a_presses > max_press_count || current.num_b_presses > max_press_count {
        true
    } else if current.beyond_target() {
        true
    } else if current.cost() >= best.cost() {
        true
    } else {
        false
    }
}

/// Takes over the presses of `current` as the best so far, where they reach
/// the prize and cost less.
pub fn update_if_at_target(current: &SolutionState, best: &mut SolutionState)
    requires
        current.loc_fits(),
        current.cost_fits(),
        old(best).cost_fits(),
    ensures
        final(best).conf == old(best).conf,
        current.spec_x() == current.conf.prize_location.x && current.spec_y()
            == current.conf.prize_location.y && current.spec_cost() < old(best).spec_cost() ==> {
            &&& final(best).num_a_presses == current.num_a_presses
            &&& final(best).num_b_presses == current.num_b_presses
        },
        !(current.spec_x() == current.conf.prize_location.x && current.spec_y()
            == current.conf.prize_location.y && current.spec_cost() < old(best).spec_cost()) ==> {
            &&& final(best).num_a_presses == old(best).num_a_presses
            &&& final(best).num_b_presses == old(best).num_b_presses
        },
{
    if current.at_target() {
        if current.cost() < best.cost() {
            best.num_a_presses = current.num_a_presses;
            best.num_b_presses = current.num_b_presses;
        }
    }
}

/// The absolute value of `v`.
pub open spec fn magnitude(v: int) -> nat {
    if v < 0 {
        (-v) as nat
    } else {
        v as nat
    }
}

/// What Euclid's algorithm, carried on with coefficients, gives for `a` and
/// `b`: the last remainder that is not zero and two numbers `x`, `y` with
/// `a * x + b * y` equal to it.
pub open spec fn bezout(a: int, b: int) -> (int, int, int)
    decreases magnitude(b),
{
    if b == 0 {
        (a, 1, 0)
    } else {
        let (g, x1, y1) = bezout(b, rem(a, b));
        (g, y1, x1 - quot(a, b) * y1)
    }
}

/// Every number that the algorithm meets on the way is a machine integer.
pub open spec fn bezout_fits(a: int, b: int) -> bool
    decreases magnitude(b),
{
    if b == 0 {
        true
    } else {
        let (g, x1, y1) = bezout(b, rem(a, b));
        &&& divides_safely(a, b)
        &&& bezout_fits(b, rem(a, b))
        &&& fits(quot(a, b) * y1)
        &&& fits(x1 - quot(a, b) * y1)
    }
}

/// Where the division can be done in machine integers, quotient and
/// remainder are machine integers.
pub proof fn lemma_quot_rem_fit(a: int, b: int)
    requires
        fits(a),
        divides_safely(a, b),
    ensures
        fits(quot(a, b)),
        fits(rem(a, b)),
{
    let m = if a >= 0 {
        a
    } else {
        -a
    };
    assert(-m <= m / b <= m) by (nonlinear_arith)
        requires
            m >= 0,
            b != 0,
    ;
    assert(0 <= m % b <= m) by (nonlinear_arith)
        requires
            m >= 0,
            b != 0,
    ;
    if b != -1 && m > 0 {
        assert(m / b > -m) by (nonlinear_arith)
            requires
                m > 0,
                b != 0,
                b != -1,
        ;
    }
}

/// The remainder is smaller than the divisor.
pub proof fn lemma_rem_smaller(a: int, b: int)
    requires
        b != 0,
    ensures
        magnitude(rem(a, b)) < magnitude(b),
        a == b * quot(a, b) + rem(a, b),
{
    if a >= 0 {
        vstd::arithmetic::div_mod::lemma_fundamental_div_mod(a, b);
        if b > 0 {
            vstd::arithmetic::div_mod::lemma_mod_bound(a, b);
        } else {
            lemma_mod_by_negative(a, b);
        }
    } else {
        vstd::arithmetic::div_mod::lemma_fundamental_div_mod(-a, b);
        if b > 0 {
            vstd::arithmetic::div_mod::lemma_mod_bound(-a, b);
        } else {
            lemma_mod_by_negative(-a, b);
        }
        assert(b * (-((-a) / b)) == -(b * ((-a) / b))) by (nonlinear_arith);
    }
}

proof fn lemma_mod_by_negative(a: int, b: int)
    requires
        b < 0,
    ensures
        0 <= a % b < -b,
{
    assert(0 <= a % b < -b) by (nonlinear_arith)
        requires
            b < 0,
    ;
}

/// The three numbers of `bezout` satisfy Bezout's identity.
pub proof fn lemma_bezout_identity(a: int, b: int)
    ensures
        a * bezout(a, b).1 + b * bezout(a, b).2 == bezout(a, b).0,
    decreases magnitude(b),
{
    if b != 0 {
        let r = rem(a, b);
        let q = quot(a, b);
        lemma_rem_smaller(a, b);
        lemma_bezout_identity(b, r);
        let (g, x1, y1) = bezout(b, r);
        assert(a * y1 + b * (x1 - q * y1) == b * x1 + r * y1) by (nonlinear_arith)
            requires
                a == b * q + r,
        ;
    }
}

/// Euclid's algorithm with coefficients. `None` where a number on the way
/// is no machine integer.
pub fn ext_gcd(a: isize, b: isize) -> (found: Option<(isize, isize, isize)>)
    ensures
        match found {
            Some((g, x, y)) => bezout_fits(a as int, b as int) && bezout(a as int, b as int) == (
                g as int,
                x as int,
                y as int,
            ) && a * x + b * y == g,
            None => !bezout_fits(a as int, b as int),
        },
    decreases magnitude(b as int),
{
    proof {
        lemma_bezout_identity(a as int, b as int);
    }
    if b == 0 {
        Some((a, 1, 0))
    } else if a == isize::MIN && b == -1 {
        None
    } else {
        proof {
            lemma_rem_smaller(a as int, b as int);
            lemma_quot_rem_fit(a as int, b as int);
        }
        match ext_gcd(b, a % b) {
            None => None,
            Some((gcd, x1, y1)) => {
                let x = y1;
                match (a / b).checked_mul(y1) {
                    None => None,
                    Some(product) => match x1.checked_sub(product) {
                        None => None,
                        Some(y) => Some((gcd, x, y)),
                    },
                }
            },
        }
    }
}

/// One way to reach `prize_loc` on one axis, if there is any and it can be
/// computed: the divisor `g` that `ext_gcd` finds for the two offsets, and
/// numbers of presses `x`, `y` (of either sign) with
/// `a_offset * x + b_offset * y == prize_loc`.
pub open spec fn solve_spec(a_offset: int, b_offset: int, prize_loc: int) -> Option<
    (int, int, int),
> {
    let (g, x0, y0) = bezout(a_offset, b_offset);
    if bezout_fits(a_offset, b_offset) && divides_safely(prize_loc, g) && rem(prize_loc, g) == 0
        && fits(x0 * quot(prize_loc, g)) && fits(y0 * quot(prize_loc, g)) {
        Some((g, x0 * quot(prize_loc, g), y0 * quot(prize_loc, g)))
    } else {
        None
    }
}

/// What `solve_spec` gives does reach the prize.
pub proof fn lemma_solve_reaches_prize(a_offset: int, b_offset: int, prize_loc: int)
    requires
        solve_spec(a_offset, b_offset, prize_loc).is_some(),
    ensures
        a_offset * solve_spec(a_offset, b_offset, prize_loc).unwrap().1 + b_offset * solve_spec(
            a_offset,
            b_offset,
            prize_loc,
        ).unwrap().2 == prize_loc,
{
    let (g, x0, y0) = bezout(a_offset, b_offset);
    let f = quot(prize_loc, g);
    lemma_bezout_identity(a_offset, b_offset);
    lemma_rem_smaller(prize_loc, g);
    assert(a_offset * (x0 * f) + b_offset * (y0 * f) == g * f) by (nonlinear_arith)
        requires
            a_offset * x0 + b_offset * y0 == g,
    ;
}

pub fn solve(a_offset: isize, b_offset: isize, prize_loc: isize) -> (found: Option<
    (isize, isize, isize),
>)
    ensures
        match found {
            Some((g, x, y)) => solve_spec(a_offset as int, b_offset as int, prize_loc as int)
                == Some((g as int, x as int, y as int)) && a_offset * x + b_offset * y
                == prize_loc,
            None => solve_spec(a_offset as int, b_offset as int, prize_loc as int).is_none(),
        },
{
    proof {
        if solve_spec(a_offset as int, b_offset as int, prize_loc as int).is_some() {
            lemma_solve_reaches_prize(a_offset as int, b_offset as int, prize_loc as int);
        }
    }
    match ext_gcd(a_offset, b_offset) {
        None => None,
        Some((gcd, ao_0, bo_0)) => {
            if gcd == 0 || (prize_loc == isize::MIN && gcd == -1) {
                return None;
            }
            proof {
                lemma_quot_rem_fit(prize_loc as int, gcd as int);
            }
            if prize_loc % gcd != 0 {
                return None;
            }
            let factor = prize_loc / gcd;
            match (ao_0.checked_mul(factor), bo_0.checked_mul(factor)) {
                (Some(x), Some(y)) => Some((gcd, x, y)),
                _ => None,
            }
        },
    }
}

} // verus!
