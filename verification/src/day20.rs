//! A race track between walls, walked from its end to its start, and the
//! time that is saved by passing through walls.

use vstd::prelude::*;
use rustc_hash::FxHashMap;
use rustc_hash::FxHashSet;
use crate::tally::set_insert;
use crate::tally::set_new;
use crate::tally::tally_get;
use crate::tally::tally_insert;
use crate::tally::tally_keys;
use crate::tally::tally_new;
use crate::text::bytes_of;
use crate::text::lines;
use crate::text::lines_of;
use crate::text::rows;
use crate::text::text_bytes;

verus! {

#[derive(Clone, Copy, Debug, Eq, Hash, PartialEq, Structural)]
pub struct Loc {
    pub x: isize,
    pub y: isize,
}

#[derive(Clone, Copy, Debug, Eq, PartialEq, Structural)]
pub struct Dimensions {
    pub width: isize,
    pub height: isize,
}

#[derive(Clone, Copy, Debug, Eq, PartialEq, Structural)]
pub enum Tile {
    Vacant,
    Wall,
}

/// A track: what is at each place, where the race starts and ends, and how
/// long each row is.
pub struct Track {
    pub m: FxHashMap<(isize, isize), Tile>,
    pub start: Loc,
    pub end: Loc,
    pub dim: Dimensions,
    pub lens: Vec<usize>,
}

/// The tile that a byte draws.
pub open spec fn tile_of(byte: u8) -> Tile {
    if byte == 35 {
        Tile::Wall
    } else {
        Tile::Vacant
    }
}

/// The place `p` lies in one of the first `y` rows, or in row `y` before
/// column `x`.
pub open spec fn drawn_before(grid: Seq<Seq<u8>>, p: (isize, isize), y: int, x: int) -> bool {
    &&& 0 <= p.1 < grid.len()
    &&& 0 <= p.0 < grid[p.1 as int].len()
    &&& p.1 < y || (p.1 == y && p.0 < x)
}

/// The tiles of the places drawn before column `x` of row `y`.
pub open spec fn tiles_before(grid: Seq<Seq<u8>>, y: int, x: int) -> Map<(isize, isize), Tile> {
    Map::new(
        |p: (isize, isize)| drawn_before(grid, p, y, x),
        |p: (isize, isize)| tile_of(grid[p.1 as int][p.0 as int]),
    )
}

/// The tiles of all places of the grid.
pub open spec fn tiles_of(grid: Seq<Seq<u8>>) -> Map<(isize, isize), Tile> {
    tiles_before(grid, grid.len() as int, 0)
}

/// The last place drawn before column `x` of row `y` that holds `mark`;
/// the place (-1, -1) where none does.
pub open spec fn last_mark(grid: Seq<Seq<u8>>, mark: u8, y: int, x: int) -> Loc
    decreases y, x,
{
    if y < 0 || x < 0 || (y == 0 && x == 0) {
        Loc { x: -1isize, y: -1isize }
    } else if x == 0 {
        if y - 1 < grid.len() {
            last_mark(grid, mark, y - 1, grid[y - 1].len() as int)
        } else {
            Loc { x: -1isize, y: -1isize }
        }
    } else if y < grid.len() && x - 1 < grid[y].len() && grid[y][x - 1] == mark {
        Loc { x: (x - 1) as isize, y: y as isize }
    } else {
        last_mark(grid, mark, y, x - 1)
    }
}

/// The grid has rows, and no more rows or columns than a quarter of the
/// machine integers count.
pub open spec fn fits_track(grid: Seq<Seq<u8>>) -> bool {
    &&& 0 < grid.len() <= isize::MAX / 4
    &&& forall|y: int| 0 <= y < grid.len() ==> (#[trigger] grid[y]).len() <= isize::MAX / 4
}

impl Track {
    /// The track is the one that `grid` draws.
    pub open spec fn draws(&self, grid: Seq<Seq<u8>>) -> bool {
        &&& self.m@ == tiles_of(grid)
        &&& self.start == last_mark(grid, 83, grid.len() as int, 0)
        &&& self.end == last_mark(grid, 69, grid.len() as int, 0)
        &&& self.dim.height == grid.len()
        &&& self.dim.width == grid[0].len()
        &&& self.lens@.len() == grid.len()
        &&& forall|y: int| 0 <= y < grid.len() ==> #[trigger] self.lens@[y] == grid[y].len()
    }

    /// The track drawn in `input`: `#` is a wall, anything else is free, `S`
    /// is the start and `E` the end. `None` where the text has no line or is
    /// too large.
    pub fn from(input: &String) -> (track: Option<Track>)
        ensures
            match track {
                Some(read) => fits_track(lines_of(bytes_of(input@))) && read.draws(
                    lines_of(bytes_of(input@)),
                ),
                None => !fits_track(lines_of(bytes_of(input@))),
            },
    {
        let found = lines(text_bytes(input));
        let ghost grid = rows(found@);
        let bound: usize = isize::MAX as usize / 4;
        if found.len() == 0 || found.len() > bound {
            return None;
        }
        let mut m: FxHashMap<(isize, isize), Tile> = tally_new();
        let mut start = Loc { x: -1, y: -1 };
        let mut end = Loc { x: -1, y: -1 };
        let mut lens: Vec<usize> = Vec::new();
        let mut y: usize = 0;
        assert(m@ =~= tiles_before(grid, 0, 0));
        while y < found.len()
            invariant
                y <= found.len() <= bound,
                bound == isize::MAX / 4,
                grid == rows(found@),
                grid == lines_of(bytes_of(input@)),
                forall|r: int| 0 <= r < y ==> (#[trigger] grid[r]).len() <= bound,
                m@ == tiles_before(grid, y as int, 0),
                start == last_mark(grid, 83, y as int, 0),
                end == last_mark(grid, 69, y as int, 0),
                lens@.len() == y,
                forall|r: int| 0 <= r < y ==> #[trigger] lens@[r] == grid[r].len(),
            decreases found.len() - y,
        {
            let row = &found[y];
            if row.len() > bound {
                assert(grid[y as int].len() > isize::MAX / 4);
                return None;
            }
            let mut x: usize = 0;
            while x < row.len()
                invariant
                    x <= row.len() <= bound,
                    y < found.len() <= bound,
                    bound == isize::MAX / 4,
                    grid == rows(found@),
                    row@ == grid[y as int],
                    m@ == tiles_before(grid, y as int, x as int),
                    start == last_mark(grid, 83, y as int, x as int),
                    end == last_mark(grid, 69, y as int, x as int),
                decreases row.len() - x,
            {
                let c = row[x];
                let loc = (x as isize, y as isize);
                let tile = if c == 35 {
                    Tile::Wall
                } else {
                    Tile::Vacant
                };
                tally_insert(&mut m, loc, tile);
                if c == 83 {
                    start = Loc { x: x as isize, y: y as isize };
                }
                if c == 69 {
                    end = Loc { x: x as isize, y: y as isize };
                }
                assert(m@ =~= tiles_before(grid, y as int, x + 1));
                x += 1;
            }
            lens.push(row.len());
            assert(m@ =~= tiles_before(grid, y + 1, 0));
            y += 1;
        }
        let width = found[0].len() as isize;
        let height = found.len() as isize;
        Some(Track { m, start, end, dim: Dimensions { width, height }, lens })
    }

    /// The tile at `pos`, where the track has that place.
    pub fn tile_at(&self, pos: &Loc) -> (tile: Option<Tile>)
        ensures
            tile == (if self.m@.contains_key((pos.x, pos.y)) {
                Some(self.m@[(pos.x, pos.y)])
            } else {
                None::<Tile>
            }),
    {
        tally_get(&self.m, (pos.x, pos.y))
    }
}

/// `found` with the place `offset` away from `pos`, if it is free.
pub open spec fn with_move(
    tiles: Map<(isize, isize), Tile>,
    found: Seq<Loc>,
    pos: Loc,
    offset: (int, int),
) -> Seq<Loc> {
    let x = pos.x + offset.0;
    let y = pos.y + offset.1;
    if isize::MIN <= x <= isize::MAX && isize::MIN <= y <= isize::MAX && tiles.contains_key(
        (x as isize, y as isize),
    ) && tiles[(x as isize, y as isize)] == Tile::Vacant {
        found.push(Loc { x: x as isize, y: y as isize })
    } else {
        found
    }
}

/// The free places next to `pos`: above, below, left, right.
pub open spec fn next_moves(tiles: Map<(isize, isize), Tile>, pos: Loc) -> Seq<Loc> {
    with_move(
        tiles,
        with_move(tiles, with_move(tiles, with_move(tiles, Seq::empty(), pos, (0, -1)), pos, (0, 1)), pos, (-1, 0)),
        pos,
        (1, 0),
    )
}

fn add_move(track: &Track, found: &mut Vec<Loc>, pos: &Loc, dx: isize, dy: isize)
    requires
        -1 <= dx <= 1,
        -1 <= dy <= 1,
    ensures
        final(found)@ == with_move(track.m@, old(found)@, *pos, (dx as int, dy as int)),
{
    if (dx < 0 && pos.x == isize::MIN) || (dx > 0 && pos.x == isize::MAX) || (dy < 0 && pos.y
        == isize::MIN) || (dy > 0 && pos.y == isize::MAX) {
        return;
    }
    let l = Loc { x: pos.x + dx, y: pos.y + dy };
    match track.tile_at(&l) {
        Some(Tile::Vacant) => found.push(l),
        Some(Tile::Wall) => {},
        None => {},
    }
}

pub fn get_next_moves(track: &Track, pos: &Loc) -> (moves: Vec<Loc>)
    ensures
        moves@ == next_moves(track.m@, *pos),
{
    let mut result: Vec<Loc> = Vec::new();
    add_move(track, &mut result, pos, 0, -1);
    add_move(track, &mut result, pos, 0, 1);
    add_move(track, &mut result, pos, -1, 0);
    add_move(track, &mut result, pos, 1, 0);
    result
}

/// The moves of `moves` to places that have no distance yet.
pub open spec fn fresh_moves(dists: Map<(isize, isize), isize>, moves: Seq<Loc>) -> Seq<Loc> {
    moves.filter(|m: Loc| !dists.contains_key((m.x, m.y)))
}

/// The distances from the end of the track, walking from `pos`, which is
/// `dist` away from it, toward `start` in `fuel` steps at most. `None` where
/// the way forks, comes to a dead end, or is longer than that.
pub open spec fn walk(
    tiles: Map<(isize, isize), Tile>,
    start: Loc,
    dists: Map<(isize, isize), isize>,
    pos: Loc,
    dist: isize,
    fuel: nat,
) -> Option<Map<(isize, isize), isize>>
    decreases fuel,
{
    let noted = if dists.contains_key((pos.x, pos.y)) {
        dists
    } else {
        dists.insert((pos.x, pos.y), dist)
    };
    if pos == start {
        Some(noted)
    } else if fuel == 0 || dist == isize::MAX {
        None
    } else {
        let moves = next_moves(tiles, pos);
        let fresh = fresh_moves(noted, moves);
        if fresh.len() != 1 || moves.len() - fresh.len() > 1 {
            None
        } else {
            walk(tiles, start, noted, fresh[0], (dist + 1) as isize, (fuel - 1) as nat)
        }
    }
}

/// How many places the rows of the lengths `lens` have together.
pub open spec fn cells(lens: Seq<usize>) -> nat
    decreases lens.len(),
{
    if lens.len() == 0 {
        0
    } else {
        cells(lens.drop_last()) + lens.last() as nat
    }
}

/// The number of places of the track; `None` where there are more than
/// machine integers count.
fn count_cells(track: &Track) -> (count: Option<usize>)
    ensures
        match count {
            Some(n) => n == cells(track.lens@),
            None => cells(track.lens@) > usize::MAX,
        },
{
    let mut count: usize = 0;
    let mut i: usize = 0;
    assert(track.lens@.take(0) =~= Seq::<usize>::empty());
    while i < track.lens.len()
        invariant
            i <= track.lens.len(),
            count == cells(track.lens@.take(i as int)),
        decreases track.lens.len() - i,
    {
        assert(track.lens@.take(i + 1).drop_last() =~= track.lens@.take(i as int));
        match count.checked_add(track.lens[i]) {
            Some(n) => {
                count = n;
            },
            None => {
                proof {
                    lemma_cells_grow(track.lens@, i + 1);
                }
                return None;
            },
        }
        i += 1;
    }
    assert(track.lens@.take(i as int) =~= track.lens@);
    Some(count)
}

proof fn lemma_cells_grow(lens: Seq<usize>, n: int)
    requires
        0 <= n <= lens.len(),
    ensures
        cells(lens.take(n)) <= cells(lens),
    decreases lens.len() - n,
{
    if n < lens.len() {
        assert(lens.take(n + 1).drop_last() =~= lens.take(n));
        lemma_cells_grow(lens, n + 1);
    } else {
        assert(lens.take(n) =~= lens);
    }
}

/// The distance of each place of the way from the end of the track, walking
/// back to the start. `None` where the way forks or comes to a dead end.
pub fn compute_goal_distances(track: &Track) -> (dists: Option<FxHashMap<(isize, isize), isize>>)
    ensures
        match dists {
            Some(found) => cells(track.lens@) <= usize::MAX && walk(
                track.m@,
                track.start,
                Map::empty(),
                track.end,
                0,
                cells(track.lens@),
            ) == Some(found@),
            None => cells(track.lens@) > usize::MAX || walk(
                track.m@,
                track.start,
                Map::empty(),
                track.end,
                0,
                cells(track.lens@),
            ).is_none(),
        },
{
    let total = match count_cells(track) {
        Some(n) => n,
        None => {
            return None;
        },
    };
    let mut result: FxHashMap<(isize, isize), isize> = tally_new();
    assert(result@ =~= Map::empty());
    let mut pos = track.end;
    let mut dist: isize = 0;
    let mut fuel: usize = total;
    loop
        invariant
            walk(track.m@, track.start, result@, pos, dist, fuel as nat) == walk(
                track.m@,
                track.start,
                Map::empty(),
                track.end,
                0,
                total as nat,
            ),
            total == cells(track.lens@),
        decreases fuel,
    {
        if tally_get(&result, (pos.x, pos.y)).is_none() {
            tally_insert(&mut result, (pos.x, pos.y), dist);
        }
        if pos.x == track.start.x && pos.y == track.start.y {
            return Some(result);
        }
        if fuel == 0 || dist == isize::MAX {
            return None;
        }
        let moves = get_next_moves(track, &pos);
        let ghost keep = |m: Loc| !result@.contains_key((m.x, m.y));
        let mut fresh: Vec<Loc> = Vec::new();
        let mut i: usize = 0;
        assert(moves@.take(0) =~= Seq::<Loc>::empty());
        while i < moves.len()
            invariant
                i <= moves.len(),
                keep == |m: Loc| !result@.contains_key((m.x, m.y)),
                fresh@ == moves@.take(i as int).filter(keep),
            decreases moves.len() - i,
        {
            proof {
                assert(moves@.take(i + 1) =~= moves@.take(i as int).push(moves@[i as int]));
                moves@.take(i as int).lemma_filter_push(moves@[i as int], keep);
            }
            if tally_get(&result, (moves[i].x, moves[i].y)).is_none() {
                fresh.push(moves[i]);
            }
            i += 1;
        }
        assert(moves@.take(i as int) =~= moves@);
        if fresh.len() != 1 || moves.len() - fresh.len() > 1 {
            proof {
                moves@.lemma_filter_len(keep);
            }
            return None;
        }
        proof {
            moves@.lemma_filter_len(keep);
        }
        pos = fresh[0];
        dist += 1;
        fuel -= 1;
    }
}


/// How far the place `o` lies from (0, 0), in steps along the grid.
pub open spec fn span(o: (isize, isize)) -> int {
    (if o.0 < 0 {
        -o.0
    } else {
        o.0 as int
    }) + (if o.1 < 0 {
        -o.1
    } else {
        o.1 as int
    })
}

/// The offset `o` is one of a cheat of `pico_s` steps: of exactly so many
/// (`exact`), or of so many at most.
pub open spec fn is_offset(o: (isize, isize), pico_s: int, exact: bool) -> bool {
    &&& -pico_s <= o.0 <= pico_s
    &&& -pico_s <= o.1 <= pico_s
    &&& if exact {
        span(o) == pico_s
    } else {
        span(o) <= pico_s
    }
}

/// The offsets of a cheat of `pico_s` steps whose first part is below `x`, or
/// is `x` with the second part below `y`: by their first part, then by their
/// second.
pub open spec fn offsets_before(pico_s: int, exact: bool, x: int, y: int) -> Seq<(isize, isize)>
    decreases x + pico_s + 1, y + pico_s + 1,
{
    if pico_s < 0 || pico_s > isize::MAX / 2 || x < -pico_s || x > pico_s + 1 || y < -pico_s || y
        > pico_s + 1 {
        Seq::empty()
    } else if y == -pico_s {
        if x == -pico_s {
            Seq::empty()
        } else {
            offsets_before(pico_s, exact, x - 1, pico_s + 1)
        }
    } else if x == pico_s + 1 {
        Seq::empty()
    } else {
        let before = offsets_before(pico_s, exact, x, y - 1);
        if is_offset((x as isize, (y - 1) as isize), pico_s, exact) {
            before.push((x as isize, (y - 1) as isize))
        } else {
            before
        }
    }
}

/// All offsets of a cheat of `pico_s` steps.
pub open spec fn cheat_offsets(pico_s: int, exact: bool) -> Seq<(isize, isize)> {
    if pico_s < 0 || pico_s > isize::MAX / 2 {
        Seq::empty()
    } else {
        offsets_before(pico_s, exact, pico_s, pico_s + 1)
    }
}

/// The offsets of a cheat of `pico_s` steps, by their first part, then by
/// their second.
pub fn offsets_in_order(pico_s: isize, exact: bool) -> (offsets: Vec<(isize, isize)>)
    ensures
        offsets@ == cheat_offsets(pico_s as int, exact),
{
    let mut offsets: Vec<(isize, isize)> = Vec::new();
    if pico_s < 0 || pico_s > isize::MAX / 2 {
        return offsets;
    }
    let ghost p = pico_s as int;
    let mut x: isize = -pico_s;
    assert(offsets@ =~= offsets_before(p, exact, -p, -p));
    loop
        invariant_except_break
            offsets@ == offsets_before(p, exact, x as int, -p),
        invariant
            0 <= pico_s <= isize::MAX / 2,
            p == pico_s,
            -pico_s <= x <= pico_s,
        ensures
            offsets@ == offsets_before(p, exact, p, p + 1),
        decreases pico_s - x,
    {
        let mut y: isize = -pico_s;
        loop
            invariant_except_break
                offsets@ == offsets_before(p, exact, x as int, y as int),
            invariant
                0 <= pico_s <= isize::MAX / 2,
                p == pico_s,
                -pico_s <= x <= pico_s,
                -pico_s <= y <= pico_s,
            ensures
                offsets@ == offsets_before(p, exact, x as int, p + 1),
            decreases pico_s - y,
        {
            let ax = if x < 0 {
                -x
            } else {
                x
            };
            let ay = if y < 0 {
                -y
            } else {
                y
            };
            if (exact && ax + ay == pico_s) || (!exact && ax + ay <= pico_s) {
                offsets.push((x, y));
            }
            assert(offsets@ == offsets_before(p, exact, x as int, y + 1));
            if y == pico_s {
                break;
            }
            y += 1;
        }
        if x == pico_s {
            break;
        }
        x += 1;
        assert(offsets@ == offsets_before(p, exact, x as int, -p));
    }
    offsets
}

/// The set of the places of `offsets`.
fn offsets_set(offsets: &Vec<(isize, isize)>) -> (set: FxHashSet<(isize, isize)>)
    ensures
        set@ == offsets@.to_set(),
{
    let mut set: FxHashSet<(isize, isize)> = set_new();
    let mut i: usize = 0;
    assert(set@ =~= offsets@.take(0).to_set());
    while i < offsets.len()
        invariant
            i <= offsets.len(),
            set@ == offsets@.take(i as int).to_set(),
        decreases offsets.len() - i,
    {
        set_insert(&mut set, offsets[i]);
        proof {
            let before = offsets@.take(i as int);
            let now = offsets@.take(i + 1);
            assert(now =~= before.push(offsets@[i as int]));
            assert forall|o: (isize, isize)| now.contains(o) <==> before.contains(o) || o
                == offsets@[i as int] by {
                if before.contains(o) {
                    let at = choose|at: int| 0 <= at < before.len() && before[at] == o;
                    assert(now[at] == o);
                }
                if o == offsets@[i as int] {
                    assert(now[i as int] == o);
                }
                if now.contains(o) {
                    let at = choose|at: int| 0 <= at < now.len() && now[at] == o;
                    if at < i {
                        assert(before[at] == o);
                    }
                }
            }
            assert(set@ =~= now.to_set());
        }
        i += 1;
    }
    assert(offsets@.take(i as int) =~= offsets@);
    set
}

/// The offsets by which a cheat of exactly `pico_s` steps can move.
pub fn get_cheat_offsets(pico_s: isize) -> (offsets: FxHashSet<(isize, isize)>)
    ensures
        offsets@ == cheat_offsets(pico_s as int, true).to_set(),
{
    offsets_set(&offsets_in_order(pico_s, true))
}

/// The offsets by which a cheat of `pico_s` steps at most can move.
pub fn get_cheat_offsets2(pico_s: isize) -> (offsets: FxHashSet<(isize, isize)>)
    ensures
        offsets@ == cheat_offsets(pico_s as int, false).to_set(),
{
    offsets_set(&offsets_in_order(pico_s, false))
}

/// What a cheat from `pos` by the offset `o` saves, where it ends on a free
/// place: the distance of `pos` less that of the place where it ends and the
/// steps that it takes itself. `Some(None)` where it ends on no free place,
/// `None` where it ends on a free place without a distance.
pub open spec fn saving(
    tiles: Map<(isize, isize), Tile>,
    dists: Map<(isize, isize), isize>,
    pos: (isize, isize),
    o: (isize, isize),
    cost: int,
) -> Option<Option<int>> {
    let x = pos.0 + o.0;
    let y = pos.1 + o.1;
    if isize::MIN <= x <= isize::MAX && isize::MIN <= y <= isize::MAX && tiles.contains_key(
        (x as isize, y as isize),
    ) && tiles[(x as isize, y as isize)] == Tile::Vacant {
        if dists.contains_key((x as isize, y as isize)) && dists.contains_key(pos) {
            Some(Some(dists[pos] - dists[(x as isize, y as isize)] - cost))
        } else {
            None
        }
    } else {
        Some(None)
    }
}

/// What a cheat by the offset `o` costs: `cheat_ps` steps where cheats take
/// a fixed time, else as many steps as it is long.
pub open spec fn cheat_cost(o: (isize, isize), cheat_ps: int, exact: bool) -> int {
    if exact {
        cheat_ps
    } else {
        span(o)
    }
}

/// `counts` with one more cheat that saves `saved`, where that is more than
/// nothing; `None` where the count is no machine integer.
pub open spec fn counted(counts: Map<isize, isize>, saved: int) -> Option<Map<isize, isize>> {
    if saved <= 0 {
        Some(counts)
    } else if saved > isize::MAX {
        None
    } else if !counts.contains_key(saved as isize) {
        Some(counts.insert(saved as isize, 1))
    } else if counts[saved as isize] == isize::MAX {
        None
    } else {
        Some(counts.insert(saved as isize, (counts[saved as isize] + 1) as isize))
    }
}

/// The counts once the cheats from `pos` by the first `count` of `offsets`
/// are taken in.
pub open spec fn cheats_from(
    counts: Map<isize, isize>,
    tiles: Map<(isize, isize), Tile>,
    dists: Map<(isize, isize), isize>,
    pos: (isize, isize),
    offsets: Seq<(isize, isize)>,
    count: nat,
    cheat_ps: int,
    exact: bool,
) -> Option<Map<isize, isize>>
    decreases count,
{
    if count == 0 || count > offsets.len() {
        Some(counts)
    } else {
        let o = offsets[count - 1];
        match cheats_from(counts, tiles, dists, pos, offsets, (count - 1) as nat, cheat_ps, exact) {
            None => None,
            Some(before) => match saving(tiles, dists, pos, o, cheat_cost(o, cheat_ps, exact)) {
                None => None,
                Some(None) => Some(before),
                Some(Some(saved)) => counted(before, saved),
            },
        }
    }
}

/// The places of the first `y` rows and of the first `x` columns of row `y`
/// that have a distance, row by row.
pub open spec fn places_before(
    dists: Map<(isize, isize), isize>,
    lens: Seq<usize>,
    y: int,
    x: int,
) -> Seq<(isize, isize)>
    decreases y, x,
{
    if y < 0 || x < 0 || (y == 0 && x == 0) || y > lens.len() {
        Seq::empty()
    } else if x == 0 {
        places_before(dists, lens, y - 1, lens[y - 1] as int)
    } else if y == lens.len() || x > lens[y] {
        Seq::empty()
    } else {
        let before = places_before(dists, lens, y, x - 1);
        if dists.contains_key(((x - 1) as isize, y as isize)) {
            before.push(((x - 1) as isize, y as isize))
        } else {
            before
        }
    }
}

/// The counts once the cheats from the first `count` of `places` are taken
/// in.
pub open spec fn cheats_upto(
    tiles: Map<(isize, isize), Tile>,
    dists: Map<(isize, isize), isize>,
    places: Seq<(isize, isize)>,
    count: nat,
    offsets: Seq<(isize, isize)>,
    cheat_ps: int,
    exact: bool,
) -> Option<Map<isize, isize>>
    decreases count,
{
    if count == 0 || count > places.len() {
        Some(Map::empty())
    } else {
        match cheats_upto(tiles, dists, places, (count - 1) as nat, offsets, cheat_ps, exact) {
            None => None,
            Some(before) => cheats_from(
                before,
                tiles,
                dists,
                places[count - 1],
                offsets,
                offsets.len(),
                cheat_ps,
                exact,
            ),
        }
    }
}

/// For every saving, how many cheats of a track save as much: a cheat
/// begins at a place of the way, moves by one of the offsets of `cheat_ps`
/// steps, and ends on a free place. `None` where the start of the track or
/// the end of a cheat has no distance, or a count is no machine integer.
pub open spec fn cheats_of(
    tiles: Map<(isize, isize), Tile>,
    dists: Map<(isize, isize), isize>,
    lens: Seq<usize>,
    start: Loc,
    cheat_ps: int,
    exact: bool,
) -> Option<Map<isize, isize>> {
    let places = places_before(dists, lens, lens.len() as int, 0);
    if !dists.contains_key((start.x, start.y)) {
        None
    } else {
        cheats_upto(
            tiles,
            dists,
            places,
            places.len(),
            cheat_offsets(cheat_ps, exact),
            cheat_ps,
            exact,
        )
    }
}

/// The places of the track that have a distance, row by row.
pub fn places_in_order(track: &Track, dists: &FxHashMap<(isize, isize), isize>) -> (places: Vec<
    (isize, isize),
>)
    requires
        track.lens@.len() <= isize::MAX,
        forall|y: int| 0 <= y < track.lens@.len() ==> #[trigger] track.lens@[y] <= isize::MAX,
    ensures
        places@ == places_before(dists@, track.lens@, track.lens@.len() as int, 0),
{
    let mut places: Vec<(isize, isize)> = Vec::new();
    let mut y: usize = 0;
    assert(places@ =~= places_before(dists@, track.lens@, 0, 0));
    while y < track.lens.len()
        invariant
            y <= track.lens.len() <= isize::MAX,
            forall|r: int| 0 <= r < track.lens@.len() ==> #[trigger] track.lens@[r] <= isize::MAX,
            places@ == places_before(dists@, track.lens@, y as int, 0),
        decreases track.lens.len() - y,
    {
        let len = track.lens[y];
        let mut x: usize = 0;
        proof {
            if y == 0 {
                assert(places@ =~= places_before(dists@, track.lens@, 0, 0));
            }
        }
        while x < len
            invariant
                x <= len <= isize::MAX,
                y < track.lens.len() <= isize::MAX,
                len == track.lens@[y as int],
                places@ == (if x == 0 {
                    places_before(dists@, track.lens@, y as int, 0)
                } else {
                    places_before(dists@, track.lens@, y as int, x as int)
                }),
            decreases len - x,
        {
            if tally_get(dists, (x as isize, y as isize)).is_some() {
                places.push((x as isize, y as isize));
            }
            proof {
                if x == 0 {
                    lemma_row_start(dists@, track.lens@, y as int);
                }
            }
            x += 1;
        }
        proof {
            if len == 0 {
                assert(places_before(dists@, track.lens@, y + 1, 0) == places_before(
                    dists@,
                    track.lens@,
                    y as int,
                    0,
                ));
            }
        }
        y += 1;
    }
    places
}

/// Before the first column of a row lie the places of the rows before it.
proof fn lemma_row_start(dists: Map<(isize, isize), isize>, lens: Seq<usize>, y: int)
    requires
        0 <= y < lens.len(),
        lens[y] >= 1,
    ensures
        places_before(dists, lens, y, 1) == (if dists.contains_key((0isize, y as isize)) {
            places_before(dists, lens, y, 0).push((0isize, y as isize))
        } else {
            places_before(dists, lens, y, 0)
        }),
{
    if y == 0 {
        assert(places_before(dists, lens, 0, 0) =~= Seq::<(isize, isize)>::empty());
    }
}

/// Takes one cheat that saves `saved` into `counts`.
fn count_saving(counts: &mut FxHashMap<isize, isize>, saved: i128) -> (ok: bool)
    ensures
        match counted(old(counts)@, saved as int) {
            Some(after) => ok && final(counts)@ == after,
            None => !ok,
        },
{
    if saved <= 0 {
        return true;
    }
    if saved > isize::MAX as i128 {
        return false;
    }
    let key = saved as isize;
    match tally_get(counts, key) {
        None => {
            tally_insert(counts, key, 1);
            true
        },
        Some(n) => {
            if n == isize::MAX {
                return false;
            }
            tally_insert(counts, key, n + 1);
            true
        },
    }
}

fn cheats_in(
    track: &Track,
    dists: &FxHashMap<(isize, isize), isize>,
    cheat_ps: isize,
    exact: bool,
) -> (counts: Option<FxHashMap<isize, isize>>)
    requires
        track.lens@.len() <= isize::MAX,
        forall|y: int| 0 <= y < track.lens@.len() ==> #[trigger] track.lens@[y] <= isize::MAX,
    ensures
        match counts {
            Some(found) => cheats_of(
                track.m@,
                dists@,
                track.lens@,
                track.start,
                cheat_ps as int,
                exact,
            ) == Some(found@),
            None => cheats_of(
                track.m@,
                dists@,
                track.lens@,
                track.start,
                cheat_ps as int,
                exact,
            ).is_none(),
        },
{
    if tally_get(dists, (track.start.x, track.start.y)).is_none() {
        return None;
    }
    let offsets = offsets_in_order(cheat_ps, exact);
    let places = places_in_order(track, dists);
    let mut result: FxHashMap<isize, isize> = tally_new();
    assert(result@ =~= Map::empty());
    let mut ok = true;
    let mut i: usize = 0;
    while i < places.len()
        invariant
            i <= places.len(),
            offsets@ == cheat_offsets(cheat_ps as int, exact),
            places@ == places_before(dists@, track.lens@, track.lens@.len() as int, 0),
            ok ==> cheats_upto(
                track.m@,
                dists@,
                places@,
                i as nat,
                offsets@,
                cheat_ps as int,
                exact,
            ) == Some(result@),
            !ok ==> cheats_upto(
                track.m@,
                dists@,
                places@,
                i as nat,
                offsets@,
                cheat_ps as int,
                exact,
            ).is_none(),
        decreases places.len() - i,
    {
        let pos = places[i];
        let ghost before = result@;
        let ghost started_ok = ok;
        let mut j: usize = 0;
        while j < offsets.len()
            invariant
                j <= offsets.len(),
                i < places.len(),
                pos == places[i as int],
                !started_ok ==> !ok,
                started_ok ==> cheats_upto(
                    track.m@,
                    dists@,
                    places@,
                    i as nat,
                    offsets@,
                    cheat_ps as int,
                    exact,
                ) == Some(before),
                ok ==> cheats_from(
                    before,
                    track.m@,
                    dists@,
                    pos,
                    offsets@,
                    j as nat,
                    cheat_ps as int,
                    exact,
                ) == Some(result@),
                !ok ==> cheats_upto(
                    track.m@,
                    dists@,
                    places@,
                    i as nat,
                    offsets@,
                    cheat_ps as int,
                    exact,
                ).is_none() || cheats_from(
                    before,
                    track.m@,
                    dists@,
                    pos,
                    offsets@,
                    j as nat,
                    cheat_ps as int,
                    exact,
                ).is_none(),
            decreases offsets.len() - j,
        {
            if ok {
                let o = offsets[j];
                match cheat_saving(track, dists, pos, o, cheat_ps, exact) {
                    None => {
                        ok = false;
                    },
                    Some(None) => {},
                    Some(Some(saved)) => {
                        if !count_saving(&mut result, saved) {
                            ok = false;
                        }
                    },
                }
            }
            j += 1;
        }
        i += 1;
    }
    if ok {
        Some(result)
    } else {
        None
    }
}

/// What the cheat from `pos` by `o` saves.
fn cheat_saving(
    track: &Track,
    dists: &FxHashMap<(isize, isize), isize>,
    pos: (isize, isize),
    o: (isize, isize),
    cheat_ps: isize,
    exact: bool,
) -> (saved: Option<Option<i128>>)
    ensures
        match saving(track.m@, dists@, pos, o, cheat_cost(o, cheat_ps as int, exact)) {
            None => saved.is_none(),
            Some(None) => saved == Some(None::<i128>),
            Some(Some(v)) => saved == Some(Some(v as i128)),
        },
{
    let x: i128 = pos.0 as i128 + o.0 as i128;
    let y: i128 = pos.1 as i128 + o.1 as i128;
    if x < isize::MIN as i128 || x > isize::MAX as i128 || y < isize::MIN as i128 || y
        > isize::MAX as i128 {
        return Some(None);
    }
    let dest = (x as isize, y as isize);
    match tally_get(&track.m, dest) {
        Some(Tile::Vacant) => {
            match (tally_get(dists, dest), tally_get(dists, pos)) {
                (Some(dest_left), Some(pos_left)) => {
                    let cost: i128 = if exact {
                        cheat_ps as i128
                    } else {
                        (if o.0 < 0 {
                            -(o.0 as i128)
                        } else {
                            o.0 as i128
                        }) + (if o.1 < 0 {
                            -(o.1 as i128)
                        } else {
                            o.1 as i128
                        })
                    };
                    Some(Some(pos_left as i128 - dest_left as i128 - cost))
                },
                _ => None,
            }
        },
        _ => Some(None),
    }
}


impl Track {
    /// Rows and columns can be counted in machine integers.
    pub open spec fn countable(&self) -> bool {
        &&& self.lens@.len() <= isize::MAX
        &&& forall|y: int| 0 <= y < self.lens@.len() ==> #[trigger] self.lens@[y] <= isize::MAX
    }
}

/// For every saving, how many cheats of exactly `cheat_ps` steps save as
/// much.
pub fn get_cheats(track: &Track, dists: &FxHashMap<(isize, isize), isize>, cheat_ps: isize) -> (counts:
    Option<FxHashMap<isize, isize>>)
    requires
        track.countable(),
    ensures
        match counts {
            Some(found) => cheats_of(
                track.m@,
                dists@,
                track.lens@,
                track.start,
                cheat_ps as int,
                true,
            ) == Some(found@),
            None => cheats_of(
                track.m@,
                dists@,
                track.lens@,
                track.start,
                cheat_ps as int,
                true,
            ).is_none(),
        },
{
    cheats_in(track, dists, cheat_ps, true)
}

/// For every saving, how many cheats of `cheat_ps` steps at most save as
/// much, a cheat taking as long as it is.
pub fn get_cheats2(track: &Track, dists: &FxHashMap<(isize, isize), isize>, cheat_ps: isize) -> (counts:
    Option<FxHashMap<isize, isize>>)
    requires
        track.countable(),
    ensures
        match counts {
            Some(found) => cheats_of(
                track.m@,
                dists@,
                track.lens@,
                track.start,
                cheat_ps as int,
                false,
            ) == Some(found@),
            None => cheats_of(
                track.m@,
                dists@,
                track.lens@,
                track.start,
                cheat_ps as int,
                false,
            ).is_none(),
        },
{
    cheats_in(track, dists, cheat_ps, false)
}

/// The sum of the counts kept under those of the first `count` of `keys`
/// that are `min` at least; `None` where the sum leaves the machine integers
/// on the way.
pub open spec fn sum_within(counts: Map<isize, isize>, keys: Seq<isize>, count: nat, min: isize) -> Option<
    isize,
>
    decreases count,
{
    if count == 0 || count > keys.len() {
        Some(0)
    } else {
        match sum_within(counts, keys, (count - 1) as nat, min) {
            None => None,
            Some(before) => if keys[count - 1] >= min && counts.contains_key(keys[count - 1]) {
                if isize::MIN <= before + counts[keys[count - 1]] <= isize::MAX {
                    Some((before + counts[keys[count - 1]]) as isize)
                } else {
                    None
                }
            } else {
                Some(before)
            },
        }
    }
}

/// Once a sum has left the machine integers, more counts do not mend it.
pub proof fn lemma_sum_within_fails(counts: Map<isize, isize>, keys: Seq<isize>, count: nat, all: nat, min: isize)
    requires
        count <= all <= keys.len(),
        sum_within(counts, keys, count, min).is_none(),
    ensures
        sum_within(counts, keys, all, min).is_none(),
    decreases all,
{
    if count < all {
        lemma_sum_within_fails(counts, keys, count, (all - 1) as nat, min);
    }
}

/// `total` is the sum of the counts of `counts` for the savings of `min` at
/// least, the savings taken in some order, each once; nothing where the sum
/// leaves the machine integers on the way.
pub open spec fn is_count(counts: Map<isize, isize>, min: isize, total: Option<isize>) -> bool {
    exists|keys: Seq<isize>|
        {
            &&& keys.no_duplicates()
            &&& keys.to_set() == counts.dom()
            &&& #[trigger] sum_within(counts, keys, keys.len(), min) == total
        }
}

/// How many cheats save `min_savings_ps` at least: the sum of the counts
/// kept under the savings that are as large; `None` where the sum leaves
/// the machine integers on the way.
pub fn count_savings(counts: &FxHashMap<isize, isize>, min_savings_ps: isize) -> (total: Option<
    isize,
>)
    ensures
        is_count(counts@, min_savings_ps, total),
{
    let keys = tally_keys(counts);
    let mut result: isize = 0;
    let mut i: usize = 0;
    proof {
        assert(keys@.to_set() =~= counts@.dom());
    }
    while i < keys.len()
        invariant
            i <= keys.len(),
            keys@.no_duplicates(),
            keys@.to_set() == counts@.dom(),
            forall|key: isize| keys@.contains(key) ==> counts@.contains_key(key),
            sum_within(counts@, keys@, i as nat, min_savings_ps) == Some(result),
        decreases keys.len() - i,
    {
        let ps = keys[i];
        if ps >= min_savings_ps {
            assert(keys@.contains(ps));
            match tally_get(counts, ps) {
                Some(count) => match result.checked_add(count) {
                    Some(sum) => {
                        result = sum;
                    },
                    None => {
                        proof {
                            assert(sum_within(counts@, keys@, (i + 1) as nat, min_savings_ps).is_none());
                            lemma_sum_within_fails(
                                counts@,
                                keys@,
                                (i + 1) as nat,
                                keys@.len(),
                                min_savings_ps,
                            );
                        }
                        return None;
                    },
                },
                None => {},
            }
        }
        i += 1;
    }
    Some(result)
}

/// The lengths of the rows of `grid`.
pub open spec fn row_lens(grid: Seq<Seq<u8>>) -> Seq<usize> {
    Seq::new(grid.len(), |y: int| grid[y].len() as usize)
}

/// `total` is the number of cheats of `cheat_ps` steps (of exactly as many
/// where `exact` is set, else of as many at most) that save `min` at least
/// on the track that `grid` draws. It is nothing where the grid is too
/// large, where the way from the end to the start forks or comes to a dead
/// end, or where a number leaves the machine integers on the way.
pub open spec fn answers(grid: Seq<Seq<u8>>, cheat_ps: int, exact: bool, min: isize, total: Option<isize>) -> bool {
    let start = last_mark(grid, 83, grid.len() as int, 0);
    let end = last_mark(grid, 69, grid.len() as int, 0);
    if !fits_track(grid) || cells(row_lens(grid)) > usize::MAX {
        total.is_none()
    } else {
        match walk(tiles_of(grid), start, Map::empty(), end, 0, cells(row_lens(grid))) {
            None => total.is_none(),
            Some(dists) => match cheats_of(tiles_of(grid), dists, row_lens(grid), start, cheat_ps, exact) {
                None => total.is_none(),
                Some(counts) => is_count(counts, min, total),
            },
        }
    }
}

fn solve(input: &String, min_savings_ps: isize, cheat_ps: isize, exact: bool) -> (total: Option<
    isize,
>)
    ensures
        answers(lines_of(bytes_of(input@)), cheat_ps as int, exact, min_savings_ps, total),
{
    match Track::from(input) {
        None => None,
        Some(track) => {
            proof {
                assert(track.lens@ =~= row_lens(lines_of(bytes_of(input@))));
            }
            match compute_goal_distances(&track) {
                None => None,
                Some(dists) => {
                    match cheats_in(&track, &dists, cheat_ps, exact) {
                        None => None,
                        Some(cheats) => count_savings(&cheats, min_savings_ps),
                    }
                },
            }
        },
    }
}

/// How many cheats of exactly two steps save `min_savings_ps` at least on
/// the track drawn in `input`; `None` where the text draws no track with
/// one way from its end to its start, or a number leaves the machine
/// integers.
pub fn _solution1(input: &String, min_savings_ps: isize) -> (total: Option<isize>)
    ensures
        answers(lines_of(bytes_of(input@)), 2, true, min_savings_ps, total),
{
    solve(input, min_savings_ps, 2, true)
}

/// How many cheats of twenty steps at most save `min_savings_ps` at least
/// on the track drawn in `input`; `None` where the text draws no track with
/// one way from its end to its start, or a number leaves the machine
/// integers.
pub fn _solution2(input: &String, min_savings_ps: isize) -> (total: Option<isize>)
    ensures
        answers(lines_of(bytes_of(input@)), 20, false, min_savings_ps, total),
{
    solve(input, min_savings_ps, 20, false)
}

} // verus!
