//! A square of memory on which bytes fall and corrupt places, and the
//! shortest way from one corner to the opposite one.

use vstd::prelude::*;
use rustc_hash::FxHashMap;
use rustc_hash::FxHashSet;
use crate::tally::set_contains;
use crate::tally::set_insert;
use crate::tally::set_new;
use crate::tally::tally_get;
use crate::tally::tally_insert;
use crate::tally::tally_new;
use crate::text::bytes_of;
use crate::text::lines;
use crate::text::lines_of;
use crate::text::parse_isize;
use crate::text::rows;
use crate::text::signed_value;
use crate::text::split;
use crate::text::split_on;
use crate::text::string_lines;
use crate::text::text_bytes;

verus! {

pub const X_MAX: isize = 70;

pub const Y_MAX: isize = 70;

pub const BYTES_FALLEN: isize = 1024;

#[derive(Clone, Copy, Debug, Eq, PartialEq, Structural)]
pub enum Tile {
    Safe,
    Corrupt,
}

#[derive(Clone, Copy, Debug, Eq, Hash, PartialEq, Structural)]
pub struct Loc {
    pub x: isize,
    pub y: isize,
}

pub struct MemMap {
    pub m: FxHashMap<(isize, isize), Tile>,
    pub x_max: isize,
    pub y_max: isize,
    pub start: Loc,
    pub goal: Loc,
}

/// The place `p` lies in the square, in a column before `x` or in column `x`
/// in a row before `y`.
pub open spec fn laid_before(p: (isize, isize), x_max: isize, y_max: isize, x: int, y: int) -> bool {
    &&& 0 <= p.0 <= x_max
    &&& 0 <= p.1 <= y_max
    &&& p.0 < x || (p.0 == x && p.1 < y)
}

/// The tiles of the places laid before row `y` of column `x`.
pub open spec fn tiles_before(
    corrupt: Set<(isize, isize)>,
    x_max: isize,
    y_max: isize,
    x: int,
    y: int,
) -> Map<(isize, isize), Tile> {
    Map::new(
        |p: (isize, isize)| laid_before(p, x_max, y_max, x, y),
        |p: (isize, isize)|
            if corrupt.contains(p) {
                Tile::Corrupt
            } else {
                Tile::Safe
            },
    )
}

/// The square as the contracts see it.
pub struct Square {
    pub tiles: Map<(isize, isize), Tile>,
    pub x_max: isize,
    pub y_max: isize,
    pub start: (isize, isize),
    pub goal: (isize, isize),
}

/// The square from (0, 0) to (`x_max`, `y_max`) with the places of `corrupt`
/// corrupt; the way leads from the first corner to the last.
pub open spec fn square_of(corrupt: Set<(isize, isize)>, x_max: isize, y_max: isize) -> Square {
    Square {
        tiles: tiles_before(corrupt, x_max, y_max, x_max + 1, 0),
        x_max,
        y_max,
        start: (0, 0),
        goal: (x_max, y_max),
    }
}

impl View for MemMap {
    type V = Square;

    open spec fn view(&self) -> Square {
        Square {
            tiles: self.m@,
            x_max: self.x_max,
            y_max: self.y_max,
            start: (self.start.x, self.start.y),
            goal: (self.goal.x, self.goal.y),
        }
    }
}

impl MemMap {
    /// The square from (0, 0) to (`x_max`, `y_max`) with the places of
    /// `corrupt_locs` corrupt; the way leads from the first corner to the
    /// last.
    pub fn new(x_max: isize, y_max: isize, corrupt_locs: &FxHashSet<(isize, isize)>) -> (map: MemMap)
        ensures
            map@ == square_of(corrupt_locs@, x_max, y_max),
    {
        let mut m: FxHashMap<(isize, isize), Tile> = tally_new();
        let ghost corrupt = corrupt_locs@;
        assert(m@ =~= tiles_before(corrupt, x_max, y_max, 0, 0));
        if x_max >= 0 && y_max >= 0 {
            let mut x: isize = 0;
            loop
                invariant_except_break
                    m@ == tiles_before(corrupt, x_max, y_max, x as int, 0),
                invariant
                    0 <= x <= x_max,
                    0 <= y_max,
                    corrupt == corrupt_locs@,
                ensures
                    m@ == tiles_before(corrupt, x_max, y_max, x_max + 1, 0),
                decreases x_max - x,
            {
                let mut y: isize = 0;
                loop
                    invariant_except_break
                        m@ == tiles_before(corrupt, x_max, y_max, x as int, y as int),
                    invariant
                        0 <= x <= x_max,
                        0 <= y <= y_max,
                        corrupt == corrupt_locs@,
                    ensures
                        m@ == tiles_before(corrupt, x_max, y_max, x + 1, 0),
                    decreases y_max - y,
                {
                    let tile = if set_contains(corrupt_locs, (x, y)) {
                        Tile::Corrupt
                    } else {
                        Tile::Safe
                    };
                    tally_insert(&mut m, (x, y), tile);
                    assert(m@ =~= tiles_before(corrupt, x_max, y_max, x as int, y + 1));
                    if y == y_max {
                        assert(m@ =~= tiles_before(corrupt, x_max, y_max, x + 1, 0));
                        break;
                    }
                    y += 1;
                }
                if x == x_max {
                    break;
                }
                x += 1;
            }
        } else {
            assert(m@ =~= tiles_before(corrupt, x_max, y_max, x_max + 1, 0));
        }
        MemMap { m, x_max, y_max, start: Loc { x: 0, y: 0 }, goal: Loc { x: x_max, y: y_max } }
    }

}

impl Square {
    /// The place `p` lies in the square and is safe.
    pub open spec fn safe(&self, p: (isize, isize)) -> bool {
        &&& 0 <= p.0 <= self.x_max
        &&& 0 <= p.1 <= self.y_max
        &&& self.tiles.contains_key(p)
        &&& self.tiles[p] == Tile::Safe
    }

    /// `found` with the place `offset` away from `loc`, if it is safe.
    pub open spec fn with_move(&self, found: Seq<(isize, isize)>, loc: (isize, isize), offset: (int, int)) -> Seq<
        (isize, isize),
    > {
        let x = loc.0 + offset.0;
        let y = loc.1 + offset.1;
        if isize::MIN <= x <= isize::MAX && isize::MIN <= y <= isize::MAX && self.safe(
            (x as isize, y as isize),
        ) {
            found.push((x as isize, y as isize))
        } else {
            found
        }
    }

    /// The safe places next to `loc`: below, above, right, left.
    pub open spec fn moves(&self, loc: (isize, isize)) -> Seq<(isize, isize)> {
        self.with_move(
            self.with_move(
                self.with_move(self.with_move(Seq::empty(), loc, (0, 1)), loc, (0, -1)),
                loc,
                (1, 0),
            ),
            loc,
            (-1, 0),
        )
    }

}

impl MemMap {
    fn add_move(&self, found: &mut Vec<(isize, isize)>, loc: (isize, isize), dx: isize, dy: isize)
        requires
            -1 <= dx <= 1,
            -1 <= dy <= 1,
        ensures
            final(found)@ == self@.with_move(old(found)@, loc, (dx as int, dy as int)),
    {
        if (dx < 0 && loc.0 == isize::MIN) || (dx > 0 && loc.0 == isize::MAX) || (dy < 0 && loc.1
            == isize::MIN) || (dy > 0 && loc.1 == isize::MAX) {
            return;
        }
        let next = (loc.0 + dx, loc.1 + dy);
        if next.0 < 0 || next.1 < 0 || next.0 > self.x_max || next.1 > self.y_max {
            return;
        }
        match tally_get(&self.m, next) {
            Some(Tile::Safe) => found.push(next),
            _ => {},
        }
    }
}

/// The safe places next to `loc`.
pub fn get_valid_moves(loc: &Loc, mmap: &MemMap) -> (moves: Vec<(isize, isize)>)
    ensures
        moves@ == mmap@.moves((loc.x, loc.y)),
{
    let mut result: Vec<(isize, isize)> = Vec::new();
    let at = (loc.x, loc.y);
    mmap.add_move(&mut result, at, 0, 1);
    mmap.add_move(&mut result, at, 0, -1);
    mmap.add_move(&mut result, at, 1, 0);
    mmap.add_move(&mut result, at, -1, 0);
    result
}

/// The place written on a line as `x,y`; `None` where the line has fewer
/// than two parts, or one of the first two is no number.
pub open spec fn place_of(line: Seq<u8>) -> Option<(isize, isize)> {
    let parts = split_on(line, 44);
    if parts.len() < 2 {
        None
    } else {
        match (signed_value(parts[0]), signed_value(parts[1])) {
            (Some(x), Some(y)) if isize::MIN <= x <= isize::MAX && isize::MIN <= y <= isize::MAX => Some(
                (x as isize, y as isize),
            ),
            _ => None,
        }
    }
}

/// How many of `count` lines are read when `bytes_fallen` bytes fall: so
/// many, or all where that number is not positive.
pub open spec fn lines_read(count: nat, bytes_fallen: isize) -> nat {
    if bytes_fallen >= 1 && bytes_fallen < count {
        bytes_fallen as nat
    } else {
        count
    }
}

/// The places written on the first `count` of `lines`; `None` where a line
/// writes none.
pub open spec fn places_upto(lines: Seq<Seq<u8>>, count: nat) -> Option<Set<(isize, isize)>>
    decreases count,
{
    if count == 0 || count > lines.len() {
        Some(Set::empty())
    } else {
        match (places_upto(lines, (count - 1) as nat), place_of(lines[count - 1])) {
            (Some(before), Some(p)) => Some(before.insert(p)),
            _ => None,
        }
    }
}

fn parse_place(line: &[u8]) -> (place: Option<(isize, isize)>)
    ensures
        place == place_of(line@),
{
    let parts = split(line, 44);
    if parts.len() < 2 {
        return None;
    }
    assert(rows(parts@)[0] == parts[0]@);
    assert(rows(parts@)[1] == parts[1]@);
    match (parse_isize(parts[0].as_slice()), parse_isize(parts[1].as_slice())) {
        (Some(x), Some(y)) => Some((x, y)),
        _ => None,
    }
}

/// The places on which the first `bytes_fallen` bytes of `input` fall, or
/// all of them where that number is not positive.
pub fn parse_corrupt_locs(input: &String, bytes_fallen: isize) -> (places: Option<
    FxHashSet<(isize, isize)>,
>)
    ensures
        match places {
            Some(found) => places_upto(
                lines_of(bytes_of(input@)),
                lines_read(lines_of(bytes_of(input@)).len(), bytes_fallen),
            ) == Some(found@),
            None => places_upto(
                lines_of(bytes_of(input@)),
                lines_read(lines_of(bytes_of(input@)).len(), bytes_fallen),
            ).is_none(),
        },
{
    let found = lines(text_bytes(input));
    let ghost text = rows(found@);
    let limit: usize = if bytes_fallen >= 1 && (bytes_fallen as usize) < found.len() {
        bytes_fallen as usize
    } else {
        found.len()
    };
    let mut result: FxHashSet<(isize, isize)> = set_new();
    let mut i: usize = 0;
    while i < limit
        invariant
            i <= limit <= found.len(),
            text == rows(found@),
            text == lines_of(bytes_of(input@)),
            limit == lines_read(text.len(), bytes_fallen),
            places_upto(text, i as nat) == Some(result@),
        decreases limit - i,
    {
        assert(text[i as int] == found[i as int]@);
        match parse_place(found[i].as_slice()) {
            Some(p) => set_insert(&mut result, p),
            None => {
                proof {
                    lemma_places_fail(text, (i + 1) as nat, limit as nat);
                }
                return None;
            },
        }
        i += 1;
    }
    Some(result)
}

proof fn lemma_places_fail(lines: Seq<Seq<u8>>, count: nat, all: nat)
    requires
        count <= all <= lines.len(),
        places_upto(lines, count).is_none(),
    ensures
        places_upto(lines, all).is_none(),
    decreases all,
{
    if all > count {
        lemma_places_fail(lines, count, (all - 1) as nat);
    }
}


impl Square {
    /// The place `q` is one move away from a place of `from`.
    pub open spec fn next_to(&self, from: Set<(isize, isize)>, q: (isize, isize)) -> bool {
        exists|p: (isize, isize)| from.contains(p) && #[trigger] self.moves(p).contains(q)
    }

    /// The places that `n` moves at most lead to from the start.
    pub open spec fn reach(&self, n: nat) -> Set<(isize, isize)>
        decreases n,
    {
        if n == 0 {
            set![self.start]
        } else {
            let before = self.reach((n - 1) as nat);
            Set::new(|q: (isize, isize)| before.contains(q) || self.next_to(before, q))
        }
    }

    /// `n` moves lead to the place `q`, and fewer do not.
    pub open spec fn first_at(&self, q: (isize, isize), n: nat) -> bool {
        self.reach(n).contains(q) && (n == 0 || !self.reach((n - 1) as nat).contains(q))
    }

    /// The greatest number of moves that a search looks at: as many as the
    /// square has places, or as machine integers count.
    pub open spec fn most_moves(&self) -> nat {
        if self.x_max < 0 || self.y_max < 0 {
            0
        } else if (self.x_max + 1) * (self.y_max + 1) <= usize::MAX {
            ((self.x_max + 1) * (self.y_max + 1)) as nat
        } else {
            usize::MAX as nat
        }
    }

    /// One of the first `i` places of `frontier` leads to `q` in one move.
    pub open spec fn from_first(&self, frontier: Seq<(isize, isize)>, i: int, q: (isize, isize)) -> bool {
        exists|a: int| 0 <= a < i && a < frontier.len() && (#[trigger] self.moves(frontier[a])).contains(q)
    }
}

/// Where one more move leads to nothing new, no number of moves does.
pub proof fn lemma_reach_settles(map: Square, k: nat, n: nat)
    requires
        map.reach(k + 1) == map.reach(k),
        k <= n,
    ensures
        map.reach(n) == map.reach(k),
    decreases n,
{
    if n > k {
        lemma_reach_settles(map, k, (n - 1) as nat);
        assert(map.reach(n) =~= map.reach(k + 1));
    }
}

/// What the places of one layer lead to, together with what was reached
/// before, is what one more move reaches.
proof fn lemma_layer_done(
    map: Square,
    k: nat,
    frontier: Seq<(isize, isize)>,
    visited: Set<(isize, isize)>,
)
    requires
        forall|q: (isize, isize)| #[trigger] frontier.contains(q) <==> map.first_at(q, k),
        forall|q: (isize, isize)|
            #[trigger] visited.contains(q) <==> seen(
                map,
                map.reach(k),
                frontier,
                frontier.len() as int,
                Seq::empty(),
                q,
            ),
    ensures
        visited == map.reach(k + 1),
{
    let before = map.reach(k);
    assert forall|q: (isize, isize)| visited.contains(q) <==> map.reach(k + 1).contains(q) by {
        if map.from_first(frontier, frontier.len() as int, q) {
            let a = choose|a: int|
                0 <= a < frontier.len() && a < frontier.len() && (#[trigger] map.moves(
                    frontier[a],
                )).contains(q);
            assert(frontier.contains(frontier[a]));
            assert(map.first_at(frontier[a], k));
            assert(map.next_to(before, q));
        }
        if map.next_to(before, q) && !before.contains(q) {
            let p = choose|p: (isize, isize)|
                before.contains(p) && #[trigger] map.moves(p).contains(q);
            if map.first_at(p, k) {
                assert(frontier.contains(p));
                let a = choose|a: int| 0 <= a < frontier.len() && frontier[a] == p;
                assert(map.moves(frontier[a]).contains(q));
                assert(map.from_first(frontier, frontier.len() as int, q));
            } else {
                assert(map.reach((k - 1) as nat).contains(p));
                assert(map.next_to(map.reach((k - 1) as nat), q));
                assert(before.contains(q));
            }
        }
    }
    assert(visited =~= map.reach(k + 1));
}

/// A sequence that has grown by one holds what it held and the new entry.
proof fn lemma_push_contains(before: Seq<(isize, isize)>, added: (isize, isize), q: (isize, isize))
    ensures
        before.push(added).contains(q) <==> before.contains(q) || q == added,
{
    let now = before.push(added);
    if before.contains(q) {
        let b = choose|b: int| 0 <= b < before.len() && before[b] == q;
        assert(now[b] == q);
    }
    if q == added {
        assert(now[before.len() as int] == q);
    }
    if now.contains(q) {
        let b = choose|b: int| 0 <= b < now.len() && now[b] == q;
        if b < before.len() {
            assert(before[b] == q);
        }
    }
}

/// The place `q` was reached before, or one of the first `i` places of
/// `frontier` or one of the moves `extra` leads to it.
pub open spec fn seen(
    mmap: Square,
    before: Set<(isize, isize)>,
    frontier: Seq<(isize, isize)>,
    i: int,
    extra: Seq<(isize, isize)>,
    q: (isize, isize),
) -> bool {
    before.contains(q) || mmap.from_first(frontier, i, q) || extra.contains(q)
}

/// The place `q` is in `visited` and was not in `before`.
pub open spec fn is_new(
    visited: Set<(isize, isize)>,
    before: Set<(isize, isize)>,
    q: (isize, isize),
) -> bool {
    visited.contains(q) && !before.contains(q)
}

/// The places that the moves from the places of `frontier` lead to and that
/// are not in `visited` yet, each once; `visited` takes them in.
fn expand(mmap: &MemMap, frontier: &Vec<(isize, isize)>, visited: &mut FxHashSet<(isize, isize)>) -> (next:
    Vec<(isize, isize)>)
    ensures
        forall|q: (isize, isize)|
            #[trigger] final(visited)@.contains(q) <==> seen(
                mmap@,
                old(visited)@,
                frontier@,
                frontier@.len() as int,
                Seq::empty(),
                q,
            ),
        forall|q: (isize, isize)|
            #[trigger] next@.contains(q) <==> is_new(final(visited)@, old(visited)@, q),
        next@.no_duplicates(),
{
    let ghost before = visited@;
    let ghost none = Seq::<(isize, isize)>::empty();
    let mut next: Vec<(isize, isize)> = Vec::new();
    let mut i: usize = 0;
    proof {
        assert forall|q: (isize, isize)| #[trigger] visited@.contains(q) <==> seen(
            mmap@,
            before,
            frontier@,
            0,
            none,
            q,
        ) by {}
    }
    while i < frontier.len()
        invariant
            i <= frontier.len(),
            before == old(visited)@,
            none == Seq::<(isize, isize)>::empty(),
            forall|q: (isize, isize)|
                #[trigger] visited@.contains(q) <==> seen(mmap@, before, frontier@, i as int, none, q),
            forall|q: (isize, isize)| #[trigger] next@.contains(q) <==> is_new(visited@, before, q),
            next@.no_duplicates(),
        decreases frontier.len() - i,
    {
        let at = frontier[i];
        let next_locs = get_valid_moves(&Loc { x: at.0, y: at.1 }, mmap);
        let mut j: usize = 0;
        proof {
            assert(next_locs@.take(0) =~= none);
        }
        while j < next_locs.len()
            invariant
                j <= next_locs.len(),
                i < frontier.len(),
                next_locs@ == mmap@.moves(frontier@[i as int]),
                before == old(visited)@,
                forall|q: (isize, isize)|
                    #[trigger] visited@.contains(q) <==> seen(
                        mmap@,
                        before,
                        frontier@,
                        i as int,
                        next_locs@.take(j as int),
                        q,
                    ),
                forall|q: (isize, isize)|
                    #[trigger] next@.contains(q) <==> is_new(visited@, before, q),
                next@.no_duplicates(),
            decreases next_locs.len() - j,
        {
            let nl = next_locs[j];
            let ghost visited_then = visited@;
            let ghost next_then = next@;
            let ghost taken = next_locs@.take(j as int);
            let known = set_contains(visited, nl);
            proof {
                assert(next_then.contains(nl) <==> is_new(visited_then, before, nl));
            }
            if !known {
                set_insert(visited, nl);
                next.push(nl);
            }
            proof {
                assert(next_locs@.take(j + 1) =~= taken.push(nl));
                assert forall|q: (isize, isize)| #[trigger] visited@.contains(q) <==> seen(
                    mmap@,
                    before,
                    frontier@,
                    i as int,
                    next_locs@.take(j + 1),
                    q,
                ) by {
                    lemma_push_contains(taken, nl, q);
                    assert(visited_then.contains(q) <==> seen(
                        mmap@,
                        before,
                        frontier@,
                        i as int,
                        taken,
                        q,
                    ));
                }
                assert forall|q: (isize, isize)| #[trigger] next@.contains(q) <==> is_new(
                    visited@,
                    before,
                    q,
                ) by {
                    lemma_push_contains(next_then, nl, q);
                    assert(next_then.contains(q) <==> is_new(visited_then, before, q));
                    if q == nl {
                        assert(visited_then.contains(nl) <==> seen(
                            mmap@,
                            before,
                            frontier@,
                            i as int,
                            taken,
                            nl,
                        ));
                    }
                }
            }
            j += 1;
        }
        proof {
            assert(next_locs@.take(j as int) =~= next_locs@);
            assert forall|q: (isize, isize)| #[trigger] visited@.contains(q) <==> seen(
                mmap@,
                before,
                frontier@,
                i + 1,
                none,
                q,
            ) by {
                assert(visited@.contains(q) <==> seen(
                    mmap@,
                    before,
                    frontier@,
                    i as int,
                    next_locs@,
                    q,
                ));
                if mmap@.from_first(frontier@, i + 1, q) && !mmap@.from_first(frontier@, i as int, q) {
                    let a = choose|a: int|
                        0 <= a < i + 1 && a < frontier@.len() && (#[trigger] mmap@.moves(
                            frontier@[a],
                        )).contains(q);
                    assert(a == i);
                }
                if next_locs@.contains(q) {
                    assert(mmap@.moves(frontier@[i as int]).contains(q));
                }
                if mmap@.from_first(frontier@, i as int, q) {
                    let a = choose|a: int|
                        0 <= a < i && a < frontier@.len() && (#[trigger] mmap@.moves(
                            frontier@[a],
                        )).contains(q);
                    assert(0 <= a < i + 1);
                }
            }
        }
        i += 1;
    }
    next
}

/// The number of moves of the shortest way from the start to the goal
/// over safe places, if there is a way of one move at least. `None` where
/// there is none of as many moves as the square has places.
pub fn shortest_path(mmap: &MemMap) -> (moves: Option<usize>)
    ensures
        match moves {
            Some(n) => 1 <= n <= mmap@.most_moves() && mmap@.first_at(mmap@.goal, n as nat),
            None => forall|n: nat|
                1 <= n <= mmap@.most_moves() ==> !mmap@.first_at(mmap@.goal, n),
        },
{
    let fuel: usize = if mmap.x_max < 0 || mmap.y_max < 0 {
        0
    } else {
        let width: u128 = mmap.x_max as u128 + 1;
        let height: u128 = mmap.y_max as u128 + 1;
        assert(width * height == (mmap.x_max + 1) * (mmap.y_max + 1)) by (nonlinear_arith)
            requires
                width == mmap.x_max + 1,
                height == mmap.y_max + 1,
        ;
        assert(width * height <= 0x8000_0000_0000_0000 * 0x8000_0000_0000_0000)
            by (nonlinear_arith)
            requires
                0 <= width <= 0x8000_0000_0000_0000,
                0 <= height <= 0x8000_0000_0000_0000,
        ;
        let cells = width * height;
        if cells <= usize::MAX as u128 {
            cells as usize
        } else {
            usize::MAX
        }
    };
    let goal = (mmap.goal.x, mmap.goal.y);
    let start = (mmap.start.x, mmap.start.y);
    let mut visited: FxHashSet<(isize, isize)> = set_new();
    set_insert(&mut visited, start);
    let mut frontier: Vec<(isize, isize)> = Vec::new();
    frontier.push(start);
    let mut k: usize = 0;
    proof {
        assert(visited@ =~= mmap@.reach(0));
        assert forall|q: (isize, isize)| #[trigger] frontier@.contains(q) <==> mmap@.first_at(q, 0) by {
            if q == start {
                assert(frontier@[0] == q);
            }
        }
    }
    while k < fuel
        invariant
            k <= fuel,
            fuel == mmap@.most_moves(),
            goal == (mmap.goal.x, mmap.goal.y),
            visited@ == mmap@.reach(k as nat),
            forall|q: (isize, isize)| #[trigger] frontier@.contains(q) <==> mmap@.first_at(q, k as nat),
            forall|n: nat| 1 <= n <= k ==> !mmap@.first_at(goal, n),
        decreases fuel - k,
    {
        let ghost before = mmap@.reach(k as nat);
        let next = expand(mmap, &frontier, &mut visited);
        proof {
            lemma_layer_done(mmap@, k as nat, frontier@, visited@);
        }
        k += 1;
        let mut goal_reached = false;
        let mut i: usize = 0;
        while i < next.len()
            invariant
                i <= next.len(),
                goal_reached == next@.take(i as int).contains(goal),
            decreases next.len() - i,
        {
            proof {
                assert(next@.take(i + 1) =~= next@.take(i as int).push(next@[i as int]));
                lemma_push_contains(next@.take(i as int), next@[i as int], goal);
            }
            if next[i].0 == goal.0 && next[i].1 == goal.1 {
                goal_reached = true;
            }
            i += 1;
        }
        assert(next@.take(i as int) =~= next@);
        if goal_reached {
            return Some(k);
        }
        proof {
            assert forall|q: (isize, isize)| #[trigger] next@.contains(q) <==> mmap@.first_at(
                q,
                k as nat,
            ) by {
                assert(next@.contains(q) <==> is_new(visited@, before, q));
            }
        }
        if next.len() == 0 {
            proof {
                assert(mmap@.reach(k as nat) =~= before) by {
                    assert forall|q: (isize, isize)|
                        mmap@.reach(k as nat).contains(q) implies before.contains(q) by {
                        if !before.contains(q) {
                            assert(is_new(visited@, before, q));
                            assert(next@.contains(q));
                        }
                    }
                }
                assert forall|n: nat| 1 <= n <= mmap@.most_moves() implies !mmap@.first_at(
                    goal,
                    n,
                ) by {
                    if n > k {
                        lemma_reach_settles(mmap@, (k - 1) as nat, n);
                        lemma_reach_settles(mmap@, (k - 1) as nat, (n - 1) as nat);
                    }
                }
            }
            return None;
        }
        frontier = next;
    }
    None
}


/// The square once `bytes_fallen` bytes of `lines` have fallen; `None`
/// where one of the lines read writes no place.
pub open spec fn square_after(lines: Seq<Seq<u8>>, x_max: isize, y_max: isize, bytes_fallen: isize) -> Option<
    Square,
> {
    match places_upto(lines, lines_read(lines.len(), bytes_fallen)) {
        Some(corrupt) => Some(square_of(corrupt, x_max, y_max)),
        None => None,
    }
}

impl Square {
    /// The shortest way from the start to the goal has `n` moves.
    pub open spec fn shortest_is(&self, n: nat) -> bool {
        1 <= n <= self.most_moves() && self.first_at(self.goal, n)
    }

    /// No way of as many moves as the square has places leads from the
    /// start to the goal.
    pub open spec fn no_way(&self) -> bool {
        forall|n: nat| 1 <= n <= self.most_moves() ==> !self.first_at(self.goal, n)
    }
}

/// The number of moves of the shortest way across the square once
/// `bytes_fallen` bytes of `input` have fallen.
pub fn _solution1(input: &String, x_max: isize, y_max: isize, bytes_fallen: isize) -> (moves: Option<
    usize,
>)
    ensures
        match square_after(lines_of(bytes_of(input@)), x_max, y_max, bytes_fallen) {
            None => moves.is_none(),
            Some(square) => match moves {
                Some(n) => square.shortest_is(n as nat),
                None => square.no_way(),
            },
        },
{
    match parse_corrupt_locs(input, bytes_fallen) {
        None => None,
        Some(corrupt_locs) => {
            let mmap = MemMap::new(x_max, y_max, &corrupt_locs);
            shortest_path(&mmap)
        },
    }
}

/// The way across the square is cut once `b` bytes have fallen, and is
/// not with any number from `from` up to `b`.
pub open spec fn first_cut(lines: Seq<Seq<u8>>, x_max: isize, y_max: isize, from: isize, b: isize) -> bool {
    &&& from <= b
    &&& match square_after(lines, x_max, y_max, b) {
        Some(square) => square.no_way(),
        None => false,
    }
    &&& forall|earlier: isize|
        from <= earlier < b ==> match #[trigger] square_after(lines, x_max, y_max, earlier) {
            Some(square) => !square.no_way(),
            None => false,
        }
}

/// With every number of bytes from `from` up to, but not including, `b` a
/// way across the square is left.
pub open spec fn ways_until(lines: Seq<Seq<u8>>, x_max: isize, y_max: isize, from: isize, b: isize) -> bool {
    forall|earlier: isize|
        from <= earlier < b ==> match #[trigger] square_after(lines, x_max, y_max, earlier) {
            Some(square) => !square.no_way(),
            None => false,
        }
}

/// The search for the byte that cuts the way ends at `b` without a line:
/// `b` is beyond the lines, a line read writes no place, the way is cut
/// before any byte has fallen, or a way is left with the largest number.
pub open spec fn search_ends(lines: Seq<Seq<u8>>, x_max: isize, y_max: isize, b: isize) -> bool {
    b > lines.len() || match square_after(lines, x_max, y_max, b) {
        None => true,
        Some(square) => if square.no_way() {
            b < 1
        } else {
            b == isize::MAX
        },
    }
}

/// Where the search ends without a line, no line is that of a first cut.
pub proof fn lemma_no_cut(lines: Seq<Seq<u8>>, x_max: isize, y_max: isize, from: isize, b: isize)
    requires
        from <= b,
        ways_until(lines, x_max, y_max, from, b),
        search_ends(lines, x_max, y_max, b),
    ensures
        forall|c: isize|
            !(#[trigger] first_cut(lines, x_max, y_max, from, c) && 1 <= c <= lines.len()),
{
    assert forall|c: isize| !(#[trigger] first_cut(lines, x_max, y_max, from, c) && 1 <= c
        <= lines.len()) by {
        if first_cut(lines, x_max, y_max, from, c) && 1 <= c <= lines.len() {
            let at_c = square_after(lines, x_max, y_max, c);
            assert(at_c.is_some() && at_c.unwrap().no_way());
            if c < b {
                assert(match square_after(lines, x_max, y_max, c) {
                    Some(square) => !square.no_way(),
                    None => false,
                });
                assert(false);
            } else if c > b {
                assert(match square_after(lines, x_max, y_max, b) {
                    Some(square) => !square.no_way(),
                    None => false,
                });
                assert(false);
            } else {
                assert(false);
            }
        }
    }
}

/// The line of the byte that cuts the way across the square, looking from
/// `bytes_fallen` bytes on: the line of the first number of bytes, from
/// `bytes_fallen` on, with which no way is left. `None` where there is no
/// such line: a line read before then writes no place, no number of bytes
/// of the text cuts the way, or the way is cut before any byte has fallen.
pub fn _solution2(input: &String, x_max: isize, y_max: isize, bytes_fallen: isize) -> (line: Option<
    String,
>)
    ensures
        match line {
            Some(text) => exists|b: isize|
                {
                    &&& #[trigger] first_cut(lines_of(bytes_of(input@)), x_max, y_max, bytes_fallen, b)
                    &&& 1 <= b <= lines_of(bytes_of(input@)).len()
                    &&& bytes_of(text@) == lines_of(bytes_of(input@))[b - 1]
                },
            None => forall|b: isize|
                !(#[trigger] first_cut(lines_of(bytes_of(input@)), x_max, y_max, bytes_fallen, b) && 1 <= b
                    <= lines_of(bytes_of(input@)).len()),
        },
{
    let found = string_lines(input.as_str());
    let ghost text = lines_of(bytes_of(input@));
    let mut b = bytes_fallen;
    loop
        invariant
            bytes_fallen <= b,
            text == lines_of(bytes_of(input@)),
            found.len() == text.len(),
            forall|i: int| 0 <= i < found.len() ==> bytes_of(#[trigger] found[i]@) == text[i],
            ways_until(text, x_max, y_max, bytes_fallen, b),
        decreases found.len() + 1 - b,
    {
        if b > 0 && b as usize > found.len() {
            proof {
                lemma_no_cut(text, x_max, y_max, bytes_fallen, b);
            }
            return None;
        }
        match parse_corrupt_locs(input, b) {
            None => {
                proof {
                    assert(square_after(text, x_max, y_max, b).is_none());
                    lemma_no_cut(text, x_max, y_max, bytes_fallen, b);
                }
                return None;
            },
            Some(corrupt_locs) => {
                let mmap = MemMap::new(x_max, y_max, &corrupt_locs);
                let ghost square = square_after(text, x_max, y_max, b).unwrap();
                match shortest_path(&mmap) {
                    None => {
                        proof {
                            assert(square.no_way());
                        }
                        if b < 1 {
                            proof {
                                lemma_no_cut(text, x_max, y_max, bytes_fallen, b);
                            }
                            return None;
                        }
                        proof {
                            assert(first_cut(text, x_max, y_max, bytes_fallen, b));
                        }
                        let line_idx = (b - 1) as usize;
                        let line = found[line_idx].clone();
                        return Some(line);
                    },
                    Some(n) => {
                        proof {
                            assert(square.first_at(square.goal, n as nat));
                            assert(!square.no_way());
                        }
                        if b == isize::MAX {
                            proof {
                                lemma_no_cut(text, x_max, y_max, bytes_fallen, b);
                            }
                            return None;
                        }
                        proof {
                            lemma_ways_until_grows(text, x_max, y_max, bytes_fallen, b);
                        }
                        b += 1;
                    },
                }
            },
        }
    }
}

/// A way left with `b` bytes carries `ways_until` on by one.
proof fn lemma_ways_until_grows(lines: Seq<Seq<u8>>, x_max: isize, y_max: isize, from: isize, b: isize)
    requires
        b < isize::MAX,
        ways_until(lines, x_max, y_max, from, b),
        match square_after(lines, x_max, y_max, b) {
            Some(square) => !square.no_way(),
            None => false,
        },
    ensures
        ways_until(lines, x_max, y_max, from, (b + 1) as isize),
{
}

} // verus!
