//! A map of heights and the hiking trails on it: paths that rise by one at
//! every step.

use vstd::prelude::*;
use crate::places::distinct;
use crate::text::bytes_of;
use crate::text::is_digit;
use crate::text::lines;
use crate::text::lines_of;
use crate::text::rows;
use crate::text::text_bytes;

verus! {

/// The heights of a map, row by row.
pub struct TopoMap {
    heights: Vec<Vec<usize>>,
    trailheads: Vec<(isize, isize)>,
}

/// The height at column `pos.0` of row `pos.1`, where the grid has that place.
pub open spec fn height_at(grid: Seq<Seq<usize>>, pos: (isize, isize)) -> Option<usize> {
    if 0 <= pos.1 < grid.len() && 0 <= pos.0 < grid[pos.1 as int].len() {
        Some(grid[pos.1 as int][pos.0 as int])
    } else {
        None
    }
}

/// The place `pos` moved by `offset`, where that is a place in machine
/// integers.
pub open spec fn shifted(pos: (isize, isize), offset: (int, int)) -> Option<(isize, isize)> {
    if isize::MIN <= pos.0 + offset.0 <= isize::MAX && isize::MIN <= pos.1 + offset.1
        <= isize::MAX {
        Some(((pos.0 + offset.0) as isize, (pos.1 + offset.1) as isize))
    } else {
        None
    }
}

/// `found` with the place next to `pos` at `offset`, if the grid has it.
pub open spec fn with_neighbor(
    grid: Seq<Seq<usize>>,
    found: Seq<(isize, isize)>,
    pos: (isize, isize),
    offset: (int, int),
) -> Seq<(isize, isize)> {
    match shifted(pos, offset) {
        Some(next) if height_at(grid, next).is_some() => found.push(next),
        _ => found,
    }
}

/// The places of the grid next to `pos`: left, right, above, below.
pub open spec fn neighbors_of(grid: Seq<Seq<usize>>, pos: (isize, isize)) -> Seq<(isize, isize)> {
    with_neighbor(
        grid,
        with_neighbor(
            grid,
            with_neighbor(grid, with_neighbor(grid, Seq::empty(), pos, (-1, 0)), pos, (1, 0)),
            pos,
            (0, -1),
        ),
        pos,
        (0, 1),
    )
}

/// The neighbours of `pos` that lie one higher than `pos`.
pub open spec fn steps_up(grid: Seq<Seq<usize>>, pos: (isize, isize)) -> Seq<(isize, isize)> {
    neighbors_of(grid, pos).filter(
        |next: (isize, isize)| height_at(grid, next) == Some((height_at(grid, pos).unwrap() + 1) as usize),
    )
}

/// How far `pos` lies below the height 10.
pub open spec fn climb_left(grid: Seq<Seq<usize>>, pos: (isize, isize)) -> nat {
    match height_at(grid, pos) {
        Some(h) if h < 10 => (10 - h) as nat,
        _ => 0,
    }
}

/// Each of `trails` with `pos` before it.
pub open spec fn led_by(pos: (isize, isize), trails: Seq<Seq<(isize, isize)>>) -> Seq<
    Seq<(isize, isize)>,
> {
    Seq::new(trails.len(), |i: int| seq![pos] + trails[i])
}

/// The trails that begin with a step from `pos` to one of the first
/// `count` of `nexts`.
pub open spec fn trails_through(
    grid: Seq<Seq<usize>>,
    pos: (isize, isize),
    nexts: Seq<(isize, isize)>,
    count: nat,
) -> Seq<Seq<(isize, isize)>>
    decreases climb_left(grid, pos), 0nat, count,
{
    if count == 0 || count > nexts.len() {
        Seq::empty()
    } else {
        let next = nexts[count - 1];
        trails_through(grid, pos, nexts, (count - 1) as nat) + (if climb_left(grid, next)
            < climb_left(grid, pos) {
            led_by(pos, trails_from(grid, next))
        } else {
            Seq::empty()
        })
    }
}

/// All trails from `pos`: the paths that rise by one at every step until no
/// neighbour lies one higher.
pub open spec fn trails_from(grid: Seq<Seq<usize>>, pos: (isize, isize)) -> Seq<
    Seq<(isize, isize)>,
>
    decreases climb_left(grid, pos), 1nat, 0nat,
{
    let nexts = steps_up(grid, pos);
    if nexts.len() == 0 {
        seq![seq![pos]]
    } else {
        trails_through(grid, pos, nexts, nexts.len())
    }
}

/// The heights that the lines write, a digit for each place; `None` where a
/// byte is no digit.
pub open spec fn grid_of(lines: Seq<Seq<u8>>) -> Option<Seq<Seq<usize>>> {
    if forall|y: int, x: int|
        0 <= y < lines.len() && 0 <= x < lines[y].len() ==> is_digit(#[trigger] lines[y][x]) {
        Some(
            Seq::new(
                lines.len(),
                |y: int| Seq::new(lines[y].len(), |x: int| (lines[y][x] - 48) as usize),
            ),
        )
    } else {
        None
    }
}

/// There are more lines, or more bytes on a line, than machine integers
/// count.
pub open spec fn too_large(lines: Seq<Seq<u8>>) -> bool {
    lines.len() > isize::MAX || exists|y: int|
        0 <= y < lines.len() && (#[trigger] lines[y]).len() > isize::MAX
}

/// The places of height 0 in the first `count` places of row `y`.
pub open spec fn heads_in_row(row: Seq<usize>, y: int, count: nat) -> Seq<(isize, isize)>
    decreases count,
{
    if count == 0 || count > row.len() {
        Seq::empty()
    } else {
        let before = heads_in_row(row, y, (count - 1) as nat);
        if row[count - 1] == 0 {
            before.push(((count - 1) as isize, y as isize))
        } else {
            before
        }
    }
}

/// The places of height 0 in the first `count` rows, row by row.
pub open spec fn heads_of(grid: Seq<Seq<usize>>, count: nat) -> Seq<(isize, isize)>
    decreases count,
{
    if count == 0 || count > grid.len() {
        Seq::empty()
    } else {
        heads_of(grid, (count - 1) as nat) + heads_in_row(
            grid[count - 1],
            count - 1,
            grid[count - 1].len(),
        )
    }
}

impl TopoMap {
    /// The heights, row by row.
    pub closed spec fn grid(&self) -> Seq<Seq<usize>> {
        Seq::new(self.heights.len() as nat, |y: int| self.heights[y]@)
    }

    /// The places of height 0.
    pub closed spec fn heads(&self) -> Seq<(isize, isize)> {
        self.trailheads@
    }

    /// Rows and columns can be counted in machine integers, no height is
    /// above 9, and the trailheads are the places of height 0.
    #[verifier::type_invariant]
    closed spec fn wf(&self) -> bool {
        &&& self.heights.len() <= isize::MAX
        &&& forall|y: int| 0 <= y < self.heights.len() ==> (#[trigger] self.heights[y]).len() <= isize::MAX
        &&& forall|y: int, x: int|
            0 <= y < self.heights.len() && 0 <= x < self.heights[y].len()
                ==> #[trigger] self.heights[y][x] <= 9
        &&& self.trailheads@ == heads_of(self.grid(), self.heights.len() as nat)
    }

    /// The map written in `input`, a digit for each place; `None` where a
    /// character is no digit, or there are more rows or columns than machine
    /// integers count.
    pub fn from(input: &String) -> (map: Option<TopoMap>)
        ensures
            match map {
                Some(read) => {
                    &&& grid_of(lines_of(bytes_of(input@))) == Some(read.grid())
                    &&& read.heads() == heads_of(read.grid(), read.grid().len())
                    &&& !too_large(lines_of(bytes_of(input@)))
                },
                None => too_large(lines_of(bytes_of(input@))) || grid_of(
                    lines_of(bytes_of(input@)),
                ).is_none(),
            },
    {
        let found = lines(text_bytes(input));
        let ghost text = rows(found@);
        if found.len() > isize::MAX as usize {
            return None;
        }
        let mut heights: Vec<Vec<usize>> = Vec::new();
        let mut trailheads: Vec<(isize, isize)> = Vec::new();
        let mut y: usize = 0;
        while y < found.len()
            invariant
                y <= found.len() <= isize::MAX,
                text == rows(found@),
                text == lines_of(bytes_of(input@)),
                heights.len() == y,
                forall|r: int, c: int|
                    0 <= r < y && 0 <= c < text[r].len() ==> is_digit(#[trigger] text[r][c]),
                forall|r: int| 0 <= r < y ==> (#[trigger] heights[r]).len() == text[r].len(),
                forall|r: int| 0 <= r < y ==> (#[trigger] text[r]).len() <= isize::MAX,
                forall|r: int, c: int|
                    0 <= r < y && 0 <= c < text[r].len() ==> #[trigger] heights[r][c] == (text[r][c]
                        - 48) as usize,
                trailheads@ == heads_of(
                    Seq::new(heights.len() as nat, |r: int| heights[r]@),
                    y as nat,
                ),
            decreases found.len() - y,
        {
            let line = &found[y];
            if line.len() > isize::MAX as usize {
                assert(text[y as int].len() > isize::MAX);
                return None;
            }
            let mut row: Vec<usize> = Vec::new();
            let ghost heads_before = trailheads@;
            let mut x: usize = 0;
            while x < line.len()
                invariant
                    x <= line.len() <= isize::MAX,
                    y < found.len() <= isize::MAX,
                    text.len() == found.len(),
                    text == lines_of(bytes_of(input@)),
                    line@ == text[y as int],
                    row.len() == x,
                    forall|c: int| 0 <= c < x ==> is_digit(#[trigger] line[c]),
                    forall|c: int| 0 <= c < x ==> #[trigger] row[c] == (line[c] - 48) as usize,
                    trailheads@ == heads_before + heads_in_row(row@, y as int, x as nat),
                decreases line.len() - x,
            {
                let b = line[x];
                if b < 48 || b > 57 {
                    assert(!is_digit(text[y as int][x as int]));
                    return None;
                }
                let elevation = (b - 48) as usize;
                let ghost row_before = row@;
                row.push(elevation);
                if elevation == 0 {
                    trailheads.push((x as isize, y as isize));
                }
                proof {
                    lemma_heads_in_row_prefix(row_before, row@, y as int, x as nat);
                    assert(trailheads@ =~= heads_before + heads_in_row(
                        row@,
                        y as int,
                        (x + 1) as nat,
                    ));
                }
                x += 1;
            }
            let ghost grid_before = Seq::new(heights.len() as nat, |r: int| heights[r]@);
            heights.push(row);
            proof {
                let grid_now = Seq::new(heights.len() as nat, |r: int| heights[r]@);
                assert(grid_now.take(y as int) =~= grid_before);
                lemma_heads_of_prefix(grid_before, grid_now, y as nat);
            }
            y += 1;
        }
        assert(grid_of(text).is_some());
        assert(Seq::new(heights.len() as nat, |r: int| heights[r]@) =~~= grid_of(text).unwrap());
        let map = TopoMap { heights, trailheads };
        assert(map.grid() =~~= grid_of(text).unwrap());
        Some(map)
    }

    pub fn get_trailheads(&self) -> (heads: &Vec<(isize, isize)>)
        ensures
            heads@ == self.heads(),
            self.heads() == heads_of(self.grid(), self.grid().len()),
    {
        proof {
            use_type_invariant(self);
        }
        &self.trailheads
    }

    pub fn elevation_at(&self, pos: (isize, isize)) -> (height: Option<usize>)
        ensures
            height == height_at(self.grid(), pos),
            height.is_some() ==> height.unwrap() <= 9,
    {
        proof {
            use_type_invariant(self);
        }
        if pos.1 < 0 || pos.0 < 0 {
            return None;
        }
        let y = pos.1 as usize;
        let x = pos.0 as usize;
        if y >= self.heights.len() {
            return None;
        }
        if x >= self.heights[y].len() {
            return None;
        }
        Some(self.heights[y][x])
    }

    fn add_neighbor(&self, found: &mut Vec<(isize, isize)>, pos: (isize, isize), dx: isize, dy: isize)
        requires
            -1 <= dx <= 1,
            -1 <= dy <= 1,
        ensures
            final(found)@ == with_neighbor(self.grid(), old(found)@, pos, (dx as int, dy as int)),
    {
        if (dx < 0 && pos.0 == isize::MIN) || (dx > 0 && pos.0 == isize::MAX) || (dy < 0 && pos.1
            == isize::MIN) || (dy > 0 && pos.1 == isize::MAX) {
            return;
        }
        let next = (pos.0 + dx, pos.1 + dy);
        match self.elevation_at(next) {
            Some(_) => found.push(next),
            None => {},
        }
    }

    pub fn get_neighbors(&self, pos: (isize, isize)) -> (found: Vec<(isize, isize)>)
        ensures
            found@ == neighbors_of(self.grid(), pos),
    {
        let mut result: Vec<(isize, isize)> = Vec::new();
        self.add_neighbor(&mut result, pos, -1, 0);
        self.add_neighbor(&mut result, pos, 1, 0);
        self.add_neighbor(&mut result, pos, 0, -1);
        self.add_neighbor(&mut result, pos, 0, 1);
        result
    }

    /// The neighbours of `start` that lie one higher.
    pub fn get_steps_up(&self, start: (isize, isize)) -> (nexts: Vec<(isize, isize)>)
        requires
            height_at(self.grid(), start).is_some(),
        ensures
            nexts@ == steps_up(self.grid(), start),
    {
        let start_elevation = match self.elevation_at(start) {
            Some(h) => h,
            None => 0,
        };
        let neighbors = self.get_neighbors(start);
        let ghost higher = |next: (isize, isize)|
            height_at(self.grid(), next) == Some(
                (height_at(self.grid(), start).unwrap() + 1) as usize,
            );
        let mut nexts: Vec<(isize, isize)> = Vec::new();
        let mut i: usize = 0;
        assert(neighbors@.take(0) =~= Seq::<(isize, isize)>::empty());
        while i < neighbors.len()
            invariant
                i <= neighbors.len(),
                start_elevation <= 9,
                height_at(self.grid(), start) == Some(start_elevation),
                higher == |next: (isize, isize)|
                    height_at(self.grid(), next) == Some(
                        (height_at(self.grid(), start).unwrap() + 1) as usize,
                    ),
                nexts@ == neighbors@.take(i as int).filter(higher),
            decreases neighbors.len() - i,
        {
            proof {
                assert(neighbors@.take(i + 1) =~= neighbors@.take(i as int).push(
                    neighbors@[i as int],
                ));
                neighbors@.take(i as int).lemma_filter_push(neighbors@[i as int], higher);
            }
            match self.elevation_at(neighbors[i]) {
                Some(h) => {
                    if h == start_elevation + 1 {
                        nexts.push(neighbors[i]);
                    }
                },
                None => {},
            }
            i += 1;
        }
        assert(neighbors@.take(i as int) =~= neighbors@);
        nexts
    }

    /// All trails from `start`.
    pub fn get_trails(&self, start: (isize, isize)) -> (trails: Vec<Vec<(isize, isize)>>)
        requires
            height_at(self.grid(), start).is_some(),
        ensures
            paths(trails@) == trails_from(self.grid(), start),
        decreases climb_left(self.grid(), start),
    {
        let mut trails: Vec<Vec<(isize, isize)>> = Vec::new();
        let here = self.elevation_at(start);
        let nexts = self.get_steps_up(start);
        if nexts.len() == 0 {
            let mut end_of_trail: Vec<(isize, isize)> = Vec::new();
            end_of_trail.push(start);
            trails.push(end_of_trail);
            assert(paths(trails@) =~~= seq![seq![start]]);
            return trails;
        }
        let mut i: usize = 0;
        assert(paths(trails@) =~~= Seq::<Seq<(isize, isize)>>::empty());
        while i < nexts.len()
            invariant
                i <= nexts.len(),
                here == height_at(self.grid(), start),
                here.is_some(),
                here.unwrap() <= 9,
                nexts@ == steps_up(self.grid(), start),
                paths(trails@) == trails_through(self.grid(), start, nexts@, i as nat),
            decreases nexts.len() - i,
        {
            let next = nexts[i];
            proof {
                let higher = |next: (isize, isize)|
                    height_at(self.grid(), next) == Some(
                        (height_at(self.grid(), start).unwrap() + 1) as usize,
                    );
                neighbors_of(self.grid(), start).lemma_filter_pred(higher, i as int);
                assert(higher(next));
            }
            let neighbor_trails = self.get_trails(next);
            let ghost before = paths(trails@);
            let mut j: usize = 0;
            while j < neighbor_trails.len()
                invariant
                    j <= neighbor_trails.len(),
                    paths(trails@) == before + led_by(start, paths(neighbor_trails@)).take(
                        j as int,
                    ),
                decreases neighbor_trails.len() - j,
            {
                let trail = led(start, &neighbor_trails[j]);
                let ghost so_far = paths(trails@);
                trails.push(trail);
                assert(paths(trails@) =~~= so_far.push(seq![start] + neighbor_trails[j as int]@));
                assert(paths(trails@) =~~= before + led_by(start, paths(neighbor_trails@)).take(
                    j + 1,
                ));
                j += 1;
            }
            assert(led_by(start, paths(neighbor_trails@)).take(j as int) =~~= led_by(
                start,
                paths(neighbor_trails@),
            ));
            i += 1;
        }
        trails
    }
}

/// `trail` with `start` before it.
fn led(start: (isize, isize), trail: &Vec<(isize, isize)>) -> (longer: Vec<(isize, isize)>)
    ensures
        longer@ == seq![start] + trail@,
{
    let mut longer: Vec<(isize, isize)> = Vec::new();
    longer.push(start);
    let mut k: usize = 0;
    while k < trail.len()
        invariant
            k <= trail.len(),
            longer@ == seq![start] + trail@.take(k as int),
        decreases trail.len() - k,
    {
        longer.push(trail[k]);
        assert(longer@ =~= seq![start] + trail@.take(k + 1));
        k += 1;
    }
    assert(trail@.take(k as int) =~= trail@);
    longer
}

/// The paths that `trails` hold.
pub open spec fn paths(trails: Seq<Vec<(isize, isize)>>) -> Seq<Seq<(isize, isize)>> {
    Seq::new(trails.len(), |i: int| trails[i]@)
}

proof fn lemma_heads_in_row_prefix(short: Seq<usize>, long: Seq<usize>, y: int, count: nat)
    requires
        count <= short.len() <= long.len(),
        forall|i: int| 0 <= i < count ==> short[i] == long[i],
    ensures
        heads_in_row(short, y, count) == heads_in_row(long, y, count),
    decreases count,
{
    if count > 0 {
        lemma_heads_in_row_prefix(short, long, y, (count - 1) as nat);
    }
}

proof fn lemma_heads_of_prefix(short: Seq<Seq<usize>>, long: Seq<Seq<usize>>, count: nat)
    requires
        count <= short.len() <= long.len(),
        forall|i: int| 0 <= i < count ==> short[i] == long[i],
    ensures
        heads_of(short, count) == heads_of(long, count),
    decreases count,
{
    if count > 0 {
        lemma_heads_of_prefix(short, long, (count - 1) as nat);
    }
}


/// The trails of `trails` that climb all the way: ten places long.
pub open spec fn full_trails(trails: Seq<Seq<(isize, isize)>>) -> Seq<Seq<(isize, isize)>> {
    trails.filter(|trail: Seq<(isize, isize)>| trail.len() == 10)
}

/// Where each of `trails` ends.
pub open spec fn endings(trails: Seq<Seq<(isize, isize)>>) -> Seq<(isize, isize)> {
    Seq::new(trails.len(), |i: int| trails[i].last())
}

/// What a trailhead counts for: the number of places where its full trails
/// end (`rated` false), or the number of its full trails (`rated` true). A
/// place that is not on the map counts for nothing.
pub open spec fn head_value(grid: Seq<Seq<usize>>, head: (isize, isize), rated: bool) -> nat {
    if height_at(grid, head).is_none() {
        0
    } else if rated {
        full_trails(trails_from(grid, head)).len()
    } else {
        endings(full_trails(trails_from(grid, head))).to_set().len()
    }
}

/// What the first `count` of `heads` count for together.
pub open spec fn heads_value(
    grid: Seq<Seq<usize>>,
    heads: Seq<(isize, isize)>,
    count: nat,
    rated: bool,
) -> nat
    decreases count,
{
    if count == 0 || count > heads.len() {
        0
    } else {
        heads_value(grid, heads, (count - 1) as nat, rated) + head_value(
            grid,
            heads[count - 1],
            rated,
        )
    }
}

proof fn lemma_heads_value_grows(
    grid: Seq<Seq<usize>>,
    heads: Seq<(isize, isize)>,
    count: nat,
    all: nat,
    rated: bool,
)
    requires
        count <= all <= heads.len(),
    ensures
        heads_value(grid, heads, count, rated) <= heads_value(grid, heads, all, rated),
    decreases all,
{
    if all > count {
        lemma_heads_value_grows(grid, heads, count, (all - 1) as nat, rated);
    }
}

impl TopoMap {
    /// The full trails among `trails`.
    fn keep_full(trails: &Vec<Vec<(isize, isize)>>) -> (full: Vec<Vec<(isize, isize)>>)
        ensures
            paths(full@) == full_trails(paths(trails@)),
            forall|k: int| 0 <= k < full.len() ==> (#[trigger] full[k]).len() == 10,
    {
        let ghost is_full = |trail: Seq<(isize, isize)>| trail.len() == 10;
        let mut full: Vec<Vec<(isize, isize)>> = Vec::new();
        let mut i: usize = 0;
        assert(paths(trails@).take(0) =~~= Seq::<Seq<(isize, isize)>>::empty());
        assert(paths(full@) =~~= paths(trails@).take(0).filter(is_full));
        while i < trails.len()
            invariant
                i <= trails.len(),
                is_full == |trail: Seq<(isize, isize)>| trail.len() == 10,
                paths(full@) == paths(trails@).take(i as int).filter(is_full),
                forall|k: int| 0 <= k < full.len() ==> (#[trigger] full[k]).len() == 10,
            decreases trails.len() - i,
        {
            proof {
                assert(paths(trails@).take(i + 1) =~~= paths(trails@).take(i as int).push(
                    trails[i as int]@,
                ));
                paths(trails@).take(i as int).lemma_filter_push(trails[i as int]@, is_full);
            }
            if trails[i].len() == 10 {
                let ghost before = paths(full@);
                full.push(led_copy(&trails[i]));
                assert(paths(full@) =~~= before.push(trails[i as int]@));
            }
            i += 1;
        }
        assert(paths(trails@).take(i as int) =~~= paths(trails@));
        full
    }

    /// What the trailhead `head` counts for.
    pub fn head_score(&self, head: (isize, isize), rated: bool) -> (value: usize)
        ensures
            value == head_value(self.grid(), head, rated),
    {
        if self.elevation_at(head).is_none() {
            return 0;
        }
        let trails = self.get_trails(head);
        let full = TopoMap::keep_full(&trails);
        if rated {
            return full.len();
        }
        let mut ends: Vec<(isize, isize)> = Vec::new();
        let mut i: usize = 0;
        while i < full.len()
            invariant
                i <= full.len(),
                forall|k: int| 0 <= k < full.len() ==> (#[trigger] full[k]).len() == 10,
                ends@ == endings(paths(full@)).take(i as int),
            decreases full.len() - i,
        {
            ends.push(full[i][9]);
            assert(ends@ =~= endings(paths(full@)).take(i + 1));
            i += 1;
        }
        assert(endings(paths(full@)).take(i as int) =~= endings(paths(full@)));
        distinct(&ends).len()
    }

    /// What all trailheads count for together; `None` where that is no
    /// machine integer.
    pub fn total_score(&self, rated: bool) -> (sum: Option<usize>)
        ensures
            match sum {
                Some(total) => total == heads_value(
                    self.grid(),
                    self.heads(),
                    self.heads().len(),
                    rated,
                ),
                None => heads_value(self.grid(), self.heads(), self.heads().len(), rated)
                    > usize::MAX,
            },
    {
        let heads = self.get_trailheads();
        let mut result: usize = 0;
        let mut i: usize = 0;
        while i < heads.len()
            invariant
                i <= heads.len(),
                heads@ == self.heads(),
                result == heads_value(self.grid(), heads@, i as nat, rated),
            decreases heads.len() - i,
        {
            match result.checked_add(self.head_score(heads[i], rated)) {
                Some(total) => {
                    result = total;
                },
                None => {
                    proof {
                        lemma_heads_value_grows(
                            self.grid(),
                            heads@,
                            (i + 1) as nat,
                            heads@.len(),
                            rated,
                        );
                    }
                    return None;
                },
            }
            i += 1;
        }
        Some(result)
    }
}

/// A copy of `trail`.
fn led_copy(trail: &Vec<(isize, isize)>) -> (copy: Vec<(isize, isize)>)
    ensures
        copy@ == trail@,
{
    let mut copy: Vec<(isize, isize)> = Vec::new();
    let mut k: usize = 0;
    while k < trail.len()
        invariant
            k <= trail.len(),
            copy@ == trail@.take(k as int),
        decreases trail.len() - k,
    {
        copy.push(trail[k]);
        assert(copy@ =~= trail@.take(k + 1));
        k += 1;
    }
    assert(trail@.take(k as int) =~= trail@);
    copy
}

/// What `_solution1` (`rated` false) and `_solution2` (`rated` true) return
/// for a text with the lines `lines`: `None` where the lines write no map,
/// the map is too large, or the sum is no machine integer.
pub open spec fn solution_of(lines: Seq<Seq<u8>>, rated: bool) -> Option<usize> {
    match grid_of(lines) {
        Some(grid) if !too_large(lines) => {
            let sum = heads_value(grid, heads_of(grid, grid.len()), heads_of(grid, grid.len()).len(), rated);
            if sum <= usize::MAX {
                Some(sum as usize)
            } else {
                None
            }
        },
        _ => None,
    }
}

/// The sum, over the places of height 0, of the number of places of height
/// 9 that a trail reaches from there.
pub fn _solution1(input: &String) -> (sum: Option<usize>)
    ensures
        sum == solution_of(lines_of(bytes_of(input@)), false),
{
    match TopoMap::from(input) {
        None => None,
        Some(topo_map) => topo_map.total_score(false),
    }
}

/// The sum, over the places of height 0, of the number of trails that reach
/// a place of height 9 from there.
pub fn _solution2(input: &String) -> (sum: Option<usize>)
    ensures
        sum == solution_of(lines_of(bytes_of(input@)), true),
{
    match TopoMap::from(input) {
        None => None,
        Some(topo_map) => topo_map.total_score(true),
    }
}

} // verus!
