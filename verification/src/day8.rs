//! A city map with antennas on it, and the places where antennas of one
//! kind line up.

use vstd::prelude::*;
use crate::places::distinct;
use crate::text::bytes_of;
use crate::text::lines;
use crate::text::lines_of;
use crate::text::rows;
use crate::text::text_bytes;

verus! {

/// The sign of a place without an antenna.
pub const EMPTY: u8 = 46;

/// The signs of a map, row by row.
pub struct CityMap {
    signs: Vec<Vec<u8>>,
}

/// The sign at column `pos.0` of row `pos.1`, where the map has that place.
pub open spec fn sign_at(grid: Seq<Seq<u8>>, pos: (isize, isize)) -> Option<u8> {
    if 0 <= pos.1 < grid.len() && 0 <= pos.0 < grid[pos.1 as int].len() {
        Some(grid[pos.1 as int][pos.0 as int])
    } else {
        None
    }
}

/// The places of the first `count` columns of row `y` that hold `antenna`.
pub open spec fn in_row(row: Seq<u8>, y: int, count: nat, antenna: u8) -> Seq<(isize, isize)>
    decreases count,
{
    if count == 0 || count > row.len() {
        Seq::empty()
    } else {
        let before = in_row(row, y, (count - 1) as nat, antenna);
        if row[count - 1] == antenna {
            before.push(((count - 1) as isize, y as isize))
        } else {
            before
        }
    }
}

/// The places of the first `count` rows that hold `antenna`, row by row.
pub open spec fn places_of(grid: Seq<Seq<u8>>, count: nat, antenna: u8) -> Seq<(isize, isize)>
    decreases count,
{
    if count == 0 || count > grid.len() {
        Seq::empty()
    } else {
        places_of(grid, (count - 1) as nat, antenna) + in_row(
            grid[count - 1],
            count - 1,
            grid[count - 1].len(),
            antenna,
        )
    }
}

/// All pairs of two of `coords`, the earlier one first: those of the first
/// with each later one, then those of the second, and so on.
pub open spec fn pairs_upto(coords: Seq<(isize, isize)>, i: nat, j: nat) -> Seq<
    ((isize, isize), (isize, isize)),
>
    decreases i, j,
{
    if i >= coords.len() {
        Seq::empty()
    } else if j <= i + 1 || j > coords.len() {
        if i == 0 {
            Seq::empty()
        } else {
            pairs_upto(coords, (i - 1) as nat, coords.len())
        }
    } else {
        pairs_upto(coords, i, (j - 1) as nat).push((coords[i as int], coords[j - 1]))
    }
}

/// The place `steps` times `diff` away from `from`.
pub open spec fn moved(from: (isize, isize), diff: (int, int), steps: int) -> (int, int) {
    (from.0 + steps * diff.0, from.1 + steps * diff.1)
}

/// The place `pos` is one in machine integers, and the map has it.
pub open spec fn on_map(grid: Seq<Seq<u8>>, pos: (int, int)) -> bool {
    isize::MIN <= pos.0 <= isize::MAX && isize::MIN <= pos.1 <= isize::MAX && sign_at(
        grid,
        (pos.0 as isize, pos.1 as isize),
    ).is_some()
}

/// The first `count` places on the way from `from` in steps of `diff`.
pub open spec fn ray(from: (isize, isize), diff: (int, int), count: nat) -> Seq<(isize, isize)> {
    Seq::new(
        count,
        |k: int| (moved(from, diff, k + 1).0 as isize, moved(from, diff, k + 1).1 as isize),
    )
}

/// How many steps of `diff` from `from` stay on the map: every one of the
/// first `count` does, and the next does not.
pub open spec fn reach(grid: Seq<Seq<u8>>, from: (isize, isize), diff: (int, int), count: nat) -> bool {
    &&& forall|k: int| 1 <= k <= count ==> on_map(grid, #[trigger] moved(from, diff, k))
    &&& !on_map(grid, moved(from, diff, count + 1 as int))
}

/// The kinds of antenna below `bound` that are on the map, in ascending
/// order.
pub open spec fn kinds_upto(grid: Seq<Seq<u8>>, bound: nat) -> Seq<u8>
    decreases bound,
{
    if bound == 0 || bound > 256 {
        Seq::empty()
    } else {
        let kind = (bound - 1) as u8;
        let before = kinds_upto(grid, (bound - 1) as nat);
        if kind != EMPTY && places_of(grid, grid.len(), kind).len() > 0 {
            before.push(kind)
        } else {
            before
        }
    }
}

/// How many steps of `diff` from `from` stay on the map.
pub open spec fn reach_of(grid: Seq<Seq<u8>>, from: (isize, isize), diff: (int, int)) -> nat {
    choose|count: nat| reach(grid, from, diff, count)
}

/// There is one such number at most.
pub proof fn lemma_reach_unique(
    grid: Seq<Seq<u8>>,
    from: (isize, isize),
    diff: (int, int),
    a: nat,
    b: nat,
)
    requires
        reach(grid, from, diff, a),
        reach(grid, from, diff, b),
    ensures
        a == b,
{
    if a < b {
        assert(on_map(grid, moved(from, diff, a + 1 as int)));
    } else if b < a {
        assert(on_map(grid, moved(from, diff, b + 1 as int)));
    }
}

/// The two antennas of `pair`, then the places in line beyond the second
/// one on the map, then those beyond the first.
pub open spec fn line_of(grid: Seq<Seq<u8>>, pair: ((isize, isize), (isize, isize))) -> Seq<
    (isize, isize),
> {
    let diff = (pair.1.0 - pair.0.0, pair.1.1 - pair.0.1);
    let back = (-diff.0, -diff.1);
    seq![pair.0, pair.1] + ray(pair.1, diff, reach_of(grid, pair.1, diff)) + ray(
        pair.0,
        back,
        reach_of(grid, pair.0, back),
    )
}

/// The two places that lie as far beyond each antenna of `pair` as the
/// antennas are apart, the one beyond the second first.
pub open spec fn beyond_of(pair: ((isize, isize), (isize, isize))) -> Seq<(isize, isize)> {
    seq![
        ((2 * pair.1.0 - pair.0.0) as isize, (2 * pair.1.1 - pair.0.1) as isize),
        ((2 * pair.0.0 - pair.1.0) as isize, (2 * pair.0.1 - pair.1.1) as isize),
    ]
}

/// The places of `places` that are on the map.
pub open spec fn on_grid(grid: Seq<Seq<u8>>, places: Seq<(isize, isize)>) -> Seq<(isize, isize)> {
    places.filter(|p: (isize, isize)| sign_at(grid, p).is_some())
}

/// The antinodes on the map that the first `count` of `pairs` give rise
/// to: those in line with a pair at any distance (`resonant`), or the two
/// just beyond it.
pub open spec fn pair_nodes(
    grid: Seq<Seq<u8>>,
    pairs: Seq<((isize, isize), (isize, isize))>,
    count: nat,
    resonant: bool,
) -> Seq<(isize, isize)>
    decreases count,
{
    if count == 0 || count > pairs.len() {
        Seq::empty()
    } else {
        let pair = pairs[count - 1];
        pair_nodes(grid, pairs, (count - 1) as nat, resonant) + on_grid(
            grid,
            if resonant {
                line_of(grid, pair)
            } else {
                beyond_of(pair)
            },
        )
    }
}

/// The antinodes on the map that the antennas of the first `count` of
/// `kinds` give rise to.
pub open spec fn kind_nodes(grid: Seq<Seq<u8>>, kinds: Seq<u8>, count: nat, resonant: bool) -> Seq<
    (isize, isize),
>
    decreases count,
{
    if count == 0 || count > kinds.len() {
        Seq::empty()
    } else {
        let coords = places_of(grid, grid.len(), kinds[count - 1]);
        let before = kind_nodes(grid, kinds, (count - 1) as nat, resonant);
        if coords.len() < 2 {
            before
        } else {
            let pairs = pairs_upto(coords, (coords.len() - 2) as nat, coords.len());
            before + pair_nodes(grid, pairs, pairs.len(), resonant)
        }
    }
}

/// `found` holds the two antennas of the pair, then the `beyond` places
/// that lie in line beyond the second one on the map, then the `before`
/// places that lie in line beyond the first one.
pub open spec fn lined_up(
    grid: Seq<Seq<u8>>,
    pair: ((isize, isize), (isize, isize)),
    found: Seq<(isize, isize)>,
    beyond: nat,
    before: nat,
) -> bool {
    let diff = (pair.1.0 - pair.0.0, pair.1.1 - pair.0.1);
    let back = (-diff.0, -diff.1);
    &&& reach(grid, pair.1, diff, beyond)
    &&& reach(grid, pair.0, back, before)
    &&& found == seq![pair.0, pair.1] + ray(pair.1, diff, beyond) + ray(pair.0, back, before)
}

impl CityMap {
    /// The signs, row by row.
    pub closed spec fn grid(&self) -> Seq<Seq<u8>> {
        rows(self.signs@)
    }

    /// Rows and columns can be counted with room to step off the map.
    #[verifier::type_invariant]
    closed spec fn wf(&self) -> bool {
        &&& self.signs.len() <= isize::MAX / 4
        &&& forall|y: int| 0 <= y < self.signs.len() ==> (#[trigger] self.signs[y]).len() <= isize::MAX / 4
    }

    /// The map written in `input`; `None` where it has more rows or columns
    /// than a quarter of the machine integers.
    pub fn from(input: &String) -> (map: Option<CityMap>)
        ensures
            match map {
                Some(read) => read.grid() == lines_of(bytes_of(input@)),
                None => lines_of(bytes_of(input@)).len() > isize::MAX / 4 || exists|y: int|
                    0 <= y < lines_of(bytes_of(input@)).len() && (#[trigger] lines_of(
                        bytes_of(input@),
                    )[y]).len() > isize::MAX / 4,
            },
    {
        let found = lines(text_bytes(input));
        if found.len() > isize::MAX as usize / 4 {
            return None;
        }
        let mut y: usize = 0;
        while y < found.len()
            invariant
                y <= found.len(),
                rows(found@) == lines_of(bytes_of(input@)),
                forall|r: int| 0 <= r < y ==> (#[trigger] found[r]).len() <= isize::MAX / 4,
            decreases found.len() - y,
        {
            if found[y].len() > isize::MAX as usize / 4 {
                assert(rows(found@)[y as int].len() > isize::MAX / 4);
                return None;
            }
            y += 1;
        }
        Some(CityMap { signs: found })
    }

    pub fn contains(&self, pos: (isize, isize)) -> (inside: bool)
        ensures
            inside == sign_at(self.grid(), pos).is_some(),
            inside ==> 0 <= pos.0 <= isize::MAX / 4 && 0 <= pos.1 <= isize::MAX / 4,
    {
        proof {
            use_type_invariant(self);
        }
        if pos.0 < 0 || pos.1 < 0 {
            return false;
        }
        let y = pos.1 as usize;
        let x = pos.0 as usize;
        y < self.signs.len() && x < self.signs[y].len()
    }

    /// The places that hold `antenna`, row by row.
    pub fn coords_for_antenna(&self, antenna: &u8) -> (coords: Option<Vec<(isize, isize)>>)
        ensures
            match coords {
                Some(found) => found@ == places_of(self.grid(), self.grid().len(), *antenna)
                    && found.len() > 0 && *antenna != EMPTY,
                None => *antenna == EMPTY || places_of(self.grid(), self.grid().len(), *antenna).len()
                    == 0,
            },
    {
        proof {
            use_type_invariant(self);
        }
        if *antenna == EMPTY {
            return None;
        }
        let ghost grid = self.grid();
        let mut found: Vec<(isize, isize)> = Vec::new();
        let mut y: usize = 0;
        while y < self.signs.len()
            invariant
                y <= self.signs.len() <= isize::MAX / 4,
                grid == self.grid(),
                forall|r: int| 0 <= r < self.signs.len() ==> (#[trigger] self.signs[r]).len() <= isize::MAX / 4,
                found@ == places_of(grid, y as nat, *antenna),
            decreases self.signs.len() - y,
        {
            let row = &self.signs[y];
            let ghost before = found@;
            let mut x: usize = 0;
            while x < row.len()
                invariant
                    x <= row.len() <= isize::MAX / 4,
                    y < self.signs.len() <= isize::MAX / 4,
                    row@ == grid[y as int],
                    found@ == before + in_row(row@, y as int, x as nat, *antenna),
                decreases row.len() - x,
            {
                if row[x] == *antenna {
                    found.push((x as isize, y as isize));
                }
                assert(found@ =~= before + in_row(row@, y as int, (x + 1) as nat, *antenna));
                x += 1;
            }
            y += 1;
        }
        if found.len() == 0 {
            None
        } else {
            Some(found)
        }
    }

    /// The kinds of antenna on the map, each once, in ascending order.
    pub fn antenna_iter(&self) -> (kinds: Vec<u8>)
        ensures
            kinds@ == kinds_upto(self.grid(), 256),
            forall|i: int, j: int| 0 <= i < j < kinds.len() ==> kinds[i] < kinds[j],
            forall|kind: u8|
                kinds@.contains(kind) <==> kind != EMPTY && places_of(
                    self.grid(),
                    self.grid().len(),
                    kind,
                ).len() > 0,
    {
        let mut kinds: Vec<u8> = Vec::new();
        let mut kind: u8 = 0;
        loop
            invariant_except_break
                kinds@ == kinds_upto(self.grid(), kind as nat),
                forall|i: int| 0 <= i < kinds.len() ==> kinds[i] < kind,
                forall|k: u8|
                    kinds@.contains(k) <==> k < kind && k != EMPTY && places_of(
                        self.grid(),
                        self.grid().len(),
                        k,
                    ).len() > 0,
            invariant
                forall|i: int, j: int| 0 <= i < j < kinds.len() ==> kinds[i] < kinds[j],
            ensures
                kinds@ == kinds_upto(self.grid(), 256),
                forall|i: int, j: int| 0 <= i < j < kinds.len() ==> kinds[i] < kinds[j],
                forall|k: u8|
                    kinds@.contains(k) <==> k != EMPTY && places_of(
                        self.grid(),
                        self.grid().len(),
                        k,
                    ).len() > 0,
            decreases 255 - kind,
        {
            let ghost before = kinds@;
            let present = self.coords_for_antenna(&kind).is_some();
            if present {
                kinds.push(kind);
            }
            assert(kinds@ == kinds_upto(self.grid(), (kind + 1) as nat));
            proof {
                assert forall|k: u8|
                    kinds@.contains(k) <==> k <= kind && k != EMPTY && places_of(
                        self.grid(),
                        self.grid().len(),
                        k,
                    ).len() > 0 by {
                    if before.contains(k) {
                        let at = choose|at: int| 0 <= at < before.len() && before[at] == k;
                        assert(kinds@[at] == k);
                    }
                    if present && k == kind {
                        assert(kinds@[before.len() as int] == k);
                    }
                    if kinds@.contains(k) {
                        let at = choose|at: int| 0 <= at < kinds.len() && kinds[at] == k;
                        if at < before.len() {
                            assert(before[at] == k);
                            assert(before.contains(k));
                        }
                    }
                }
            }
            if kind == 255 {
                break;
            }
            kind += 1;
        }
        kinds
    }

    /// All pairs of two places that hold `antenna`; `None` where fewer than
    /// two places do.
    pub fn coord_pairs_for_antenna(&self, antenna: &u8) -> (pairs: Option<
        Vec<((isize, isize), (isize, isize))>,
    >)
        ensures
            match pairs {
                Some(found) => {
                    let coords = places_of(self.grid(), self.grid().len(), *antenna);
                    *antenna != EMPTY && coords.len() >= 2 && found@ == pairs_upto(
                        coords,
                        (coords.len() - 2) as nat,
                        coords.len(),
                    )
                },
                None => *antenna == EMPTY || places_of(self.grid(), self.grid().len(), *antenna).len()
                    < 2,
            },
    {
        match self.coords_for_antenna(antenna) {
            None => None,
            Some(coords) => {
                let n = coords.len();
                if n < 2 {
                    return None;
                }
                let mut result: Vec<((isize, isize), (isize, isize))> = Vec::new();
                let mut i: usize = 0;
                assert(result@ =~= pairs_upto(coords@, 0, 0));
                while i < n - 1
                    invariant
                        n == coords.len(),
                        n >= 2,
                        i <= n - 1,
                        result@ == (if i == 0 {
                            Seq::<((isize, isize), (isize, isize))>::empty()
                        } else {
                            pairs_upto(coords@, (i - 1) as nat, n as nat)
                        }),
                    decreases n - i,
                {
                    let mut j: usize = i + 1;
                    assert(result@ =~= pairs_upto(coords@, i as nat, (i + 1) as nat));
                    while j < n
                        invariant
                            n == coords.len(),
                            i + 1 <= j <= n,
                            i < n - 1,
                            result@ == pairs_upto(coords@, i as nat, j as nat),
                        decreases n - j,
                    {
                        result.push((coords[i], coords[j]));
                        j += 1;
                    }
                    i += 1;
                }
                Some(result)
            },
        }
    }

    /// The two places that lie as far beyond each antenna of the pair as
    /// the antennas are apart: the one beyond the second first.
    pub fn antinode_locations_1(&self, coord_pair: ((isize, isize), (isize, isize))) -> (found: (
        (isize, isize),
        (isize, isize),
    ))
        requires
            sign_at(self.grid(), coord_pair.0).is_some(),
            sign_at(self.grid(), coord_pair.1).is_some(),
        ensures
            found.0 == (
                (2 * coord_pair.1.0 - coord_pair.0.0) as isize,
                (2 * coord_pair.1.1 - coord_pair.0.1) as isize,
            ),
            found.1 == (
                (2 * coord_pair.0.0 - coord_pair.1.0) as isize,
                (2 * coord_pair.0.1 - coord_pair.1.1) as isize,
            ),
    {
        let first = coord_pair.0;
        let second = coord_pair.1;
        let in_first = self.contains(first);
        let in_second = self.contains(second);
        let x_diff = second.0 - first.0;
        let y_diff = second.1 - first.1;
        let loc_1 = (second.0 + x_diff, second.1 + y_diff);
        let loc_2 = (first.0 - x_diff, first.1 - y_diff);
        (loc_1, loc_2)
    }

    /// The places from `from` on in steps of `diff`, as long as they are on
    /// the map.
    fn walk(&self, from: (isize, isize), diff: (isize, isize)) -> (found: Vec<(isize, isize)>)
        requires
            sign_at(self.grid(), from).is_some(),
            diff != (0isize, 0isize),
            -(isize::MAX / 4) <= diff.0 <= isize::MAX / 4,
            -(isize::MAX / 4) <= diff.1 <= isize::MAX / 4,
        ensures
            reach(self.grid(), from, (diff.0 as int, diff.1 as int), found.len() as nat),
            found@ == ray(from, (diff.0 as int, diff.1 as int), found.len() as nat),
    {
        let in_from = self.contains(from);
        let ghost d = (diff.0 as int, diff.1 as int);
        let ghost grid = self.grid();
        let mut found: Vec<(isize, isize)> = Vec::new();
        let mut at = from;
        let bound: isize = isize::MAX / 4;
        assert(0 * d.0 == 0 && 0 * d.1 == 0);
        assert(found@ =~= ray(from, d, 0));
        loop
            invariant
                grid == self.grid(),
                d == (diff.0 as int, diff.1 as int),
                diff != (0isize, 0isize),
                bound == isize::MAX / 4,
                -bound <= diff.0 <= bound,
                -bound <= diff.1 <= bound,
                0 <= at.0 <= bound,
                0 <= at.1 <= bound,
                0 <= from.0 <= bound,
                0 <= from.1 <= bound,
                (at.0 as int, at.1 as int) == moved(from, d, found.len() as int),
                forall|k: int| 1 <= k <= found.len() ==> on_map(grid, #[trigger] moved(from, d, k)),
                found@ == ray(from, d, found.len() as nat),
                found.len() <= (if diff.0 > 0 {
                    at.0 - from.0
                } else if diff.0 < 0 {
                    from.0 - at.0
                } else if diff.1 > 0 {
                    at.1 - from.1
                } else {
                    from.1 - at.1
                }),
            ensures
                reach(grid, from, d, found.len() as nat),
                found@ == ray(from, d, found.len() as nat),
            decreases
                    (if diff.0 > 0 {
                        bound - at.0
                    } else if diff.0 < 0 {
                        at.0 as int
                    } else if diff.1 > 0 {
                        bound - at.1
                    } else {
                        at.1 as int
                    }),
        {
            let next = (at.0 + diff.0, at.1 + diff.1);
            proof {
                let n = found.len() as int;
                assert((n + 1) * d.0 == n * d.0 + d.0) by (nonlinear_arith);
                assert((n + 1) * d.1 == n * d.1 + d.1) by (nonlinear_arith);
                assert((next.0 as int, next.1 as int) == moved(from, d, n + 1));
            }
            if !self.contains(next) {
                break;
            }
            let ghost before = found@;
            found.push(next);
            assert(found@ =~= ray(from, d, found.len() as nat));
            at = next;
        }
        found
    }

    /// The two antennas of the pair and every place in line with them, at
    /// equal steps, on the map: those beyond the second antenna first, then
    /// those beyond the first.
    pub fn antinode_locations_2(&self, coord_pair: ((isize, isize), (isize, isize))) -> (found: Vec<
        (isize, isize),
    >)
        requires
            sign_at(self.grid(), coord_pair.0).is_some(),
            sign_at(self.grid(), coord_pair.1).is_some(),
            coord_pair.0 != coord_pair.1,
        ensures
            found@ == line_of(self.grid(), coord_pair),
            exists|beyond: nat, before: nat| #[trigger]
                lined_up(self.grid(), coord_pair, found@, beyond, before),
    {
        let first = coord_pair.0;
        let second = coord_pair.1;
        let in_first = self.contains(first);
        let in_second = self.contains(second);
        let x_diff = second.0 - first.0;
        let y_diff = second.1 - first.1;
        let mut locations: Vec<(isize, isize)> = Vec::new();
        locations.push(first);
        locations.push(second);
        let beyond = self.walk(second, (x_diff, y_diff));
        let before = self.walk(first, (-x_diff, -y_diff));
        append(&mut locations, &beyond);
        append(&mut locations, &before);
        proof {
            let diff = (coord_pair.1.0 - coord_pair.0.0, coord_pair.1.1 - coord_pair.0.1);
            let back = (-diff.0, -diff.1);
            assert(reach(self.grid(), coord_pair.1, diff, beyond.len() as nat));
            assert(reach(self.grid(), coord_pair.0, back, before.len() as nat));
            assert(locations@ =~= seq![coord_pair.0, coord_pair.1] + ray(
                coord_pair.1,
                diff,
                beyond.len() as nat,
            ) + ray(coord_pair.0, back, before.len() as nat));
            assert(lined_up(
                self.grid(),
                coord_pair,
                locations@,
                beyond.len() as nat,
                before.len() as nat,
            ));
            lemma_reach_unique(
                self.grid(),
                coord_pair.1,
                diff,
                beyond.len() as nat,
                reach_of(self.grid(), coord_pair.1, diff),
            );
            lemma_reach_unique(
                self.grid(),
                coord_pair.0,
                back,
                before.len() as nat,
                reach_of(self.grid(), coord_pair.0, back),
            );
        }
        locations
    }
}

fn append(to: &mut Vec<(isize, isize)>, more: &Vec<(isize, isize)>)
    ensures
        final(to)@ == old(to)@ + more@,
{
    let mut i: usize = 0;
    while i < more.len()
        invariant
            i <= more.len(),
            to@ == old(to)@ + more@.take(i as int),
        decreases more.len() - i,
    {
        to.push(more[i]);
        assert(to@ =~= old(to)@ + more@.take(i + 1));
        i += 1;
    }
    assert(more@.take(i as int) =~= more@);
}


impl CityMap {
    /// Adds to `found` the places of `places` that are on the map.
    fn keep_on_map(&self, found: &mut Vec<(isize, isize)>, places: &Vec<(isize, isize)>)
        ensures
            final(found)@ == old(found)@ + on_grid(self.grid(), places@),
    {
        let ghost on = |p: (isize, isize)| sign_at(self.grid(), p).is_some();
        let mut i: usize = 0;
        assert(places@.take(0) =~= Seq::<(isize, isize)>::empty());
        assert(found@ =~= old(found)@ + places@.take(0).filter(on));
        while i < places.len()
            invariant
                i <= places.len(),
                on == |p: (isize, isize)| sign_at(self.grid(), p).is_some(),
                found@ == old(found)@ + places@.take(i as int).filter(on),
            decreases places.len() - i,
        {
            proof {
                assert(places@.take(i + 1) =~= places@.take(i as int).push(places@[i as int]));
                places@.take(i as int).lemma_filter_push(places@[i as int], on);
            }
            if self.contains(places[i]) {
                found.push(places[i]);
            }
            assert(found@ =~= old(found)@ + places@.take(i + 1).filter(on));
            i += 1;
        }
        assert(places@.take(i as int) =~= places@);
    }

    /// The antinodes on the map, in the order in which the kinds of antenna
    /// and their pairs give rise to them; one place can come more than once.
    pub fn antinodes(&self, resonant: bool) -> (found: Vec<(isize, isize)>)
        ensures
            found@ == kind_nodes(
                self.grid(),
                kinds_upto(self.grid(), 256),
                kinds_upto(self.grid(), 256).len(),
                resonant,
            ),
    {
        let kinds = self.antenna_iter();
        let ghost grid = self.grid();
        proof {
            use_type_invariant(self);
            assert forall|y: int| 0 <= y < grid.len() implies (#[trigger] grid[y]).len()
                <= isize::MAX by {
                assert(self.signs[y].len() <= isize::MAX / 4);
            }
        }
        let mut found: Vec<(isize, isize)> = Vec::new();
        let mut k: usize = 0;
        while k < kinds.len()
            invariant
                k <= kinds.len(),
                grid == self.grid(),
                grid.len() <= isize::MAX,
                forall|y: int| 0 <= y < grid.len() ==> (#[trigger] grid[y]).len() <= isize::MAX,
                forall|kind: u8| kinds@.contains(kind) ==> kind != EMPTY,
                found@ == kind_nodes(grid, kinds@, k as nat, resonant),
            decreases kinds.len() - k,
        {
            match self.coord_pairs_for_antenna(&kinds[k]) {
                None => {
                    assert(kinds[k as int] != EMPTY) by {
                        assert(kinds@.contains(kinds[k as int]));
                    }
                },
                Some(pairs) => {
                    let ghost before = found@;
                    let ghost coords = places_of(grid, grid.len(), kinds[k as int]);
                    let mut m: usize = 0;
                    assert(found@ =~= before + pair_nodes(grid, pairs@, 0, resonant));
                    while m < pairs.len()
                        invariant
                            m <= pairs.len(),
                            k < kinds.len(),
                            grid == self.grid(),
                            grid.len() <= isize::MAX,
                            forall|y: int|
                                0 <= y < grid.len() ==> (#[trigger] grid[y]).len() <= isize::MAX,
                            coords == places_of(grid, grid.len(), kinds[k as int]),
                            coords.len() >= 2,
                            pairs@ == pairs_upto(coords, (coords.len() - 2) as nat, coords.len()),
                            found@ == before + pair_nodes(grid, pairs@, m as nat, resonant),
                        decreases pairs.len() - m,
                    {
                        let pair = pairs[m];
                        proof {
                            lemma_pairs_on_map(grid, kinds[k as int], coords, (coords.len() - 2) as nat, coords.len(), m as int);
                        }
                        let nodes = if resonant {
                            if pair.0.0 == pair.1.0 && pair.0.1 == pair.1.1 {
                                proof {
                                    lemma_pairs_differ(grid, kinds[k as int], coords, (coords.len() - 2) as nat, coords.len(), m as int);
                                }
                                Vec::new()
                            } else {
                                self.antinode_locations_2(pair)
                            }
                        } else {
                            let (beyond, before_first) = self.antinode_locations_1(pair);
                            let mut two: Vec<(isize, isize)> = Vec::new();
                            two.push(beyond);
                            two.push(before_first);
                            assert(two@ =~= beyond_of(pair));
                            two
                        };
                        let ghost so_far = found@;
                        self.keep_on_map(&mut found, &nodes);
                        assert(found@ =~= before + pair_nodes(
                            grid,
                            pairs@,
                            (m + 1) as nat,
                            resonant,
                        ));
                        m += 1;
                    }
                },
            }
            k += 1;
        }
        found
    }

    /// At how many places of the map there is an antinode.
    pub fn count_antinodes(&self, resonant: bool) -> (count: usize)
        ensures
            count == kind_nodes(
                self.grid(),
                kinds_upto(self.grid(), 256),
                kinds_upto(self.grid(), 256).len(),
                resonant,
            ).to_set().len(),
    {
        let found = self.antinodes(resonant);
        distinct(&found).len()
    }
}

/// The places of `in_row` lie in the row `y` and hold `antenna`.
proof fn lemma_in_row(row: Seq<u8>, y: int, count: nat, antenna: u8, at: int)
    requires
        0 <= at < in_row(row, y, count, antenna).len(),
        count <= row.len(),
        0 <= y <= isize::MAX,
        row.len() <= isize::MAX,
    ensures
        in_row(row, y, count, antenna)[at].1 == y,
        0 <= in_row(row, y, count, antenna)[at].0 < count,
        row[in_row(row, y, count, antenna)[at].0 as int] == antenna,
        forall|other: int|
            0 <= other < at ==> in_row(row, y, count, antenna)[other].0 < in_row(
                row,
                y,
                count,
                antenna,
            )[at].0,
    decreases count,
{
    if count > 0 {
        let before = in_row(row, y, (count - 1) as nat, antenna);
        if at < before.len() {
            lemma_in_row(row, y, (count - 1) as nat, antenna, at);
        } else {
            assert forall|other: int| 0 <= other < at implies in_row(row, y, count, antenna)[other].0
                < in_row(row, y, count, antenna)[at].0 by {
                lemma_in_row(row, y, (count - 1) as nat, antenna, other);
            }
        }
    }
}

/// The places of `places_of` are on the map, hold `antenna`, and come row
/// by row.
proof fn lemma_places(grid: Seq<Seq<u8>>, count: nat, antenna: u8, at: int)
    requires
        0 <= at < places_of(grid, count, antenna).len(),
        count <= grid.len() <= isize::MAX,
        forall|y: int| 0 <= y < grid.len() ==> (#[trigger] grid[y]).len() <= isize::MAX,
    ensures
        sign_at(grid, places_of(grid, count, antenna)[at]) == Some(antenna),
        places_of(grid, count, antenna)[at].1 < count,
        forall|other: int|
            0 <= other < at ==> places_of(grid, count, antenna)[other] != places_of(
                grid,
                count,
                antenna,
            )[at],
    decreases count,
{
    if count > 0 {
        let before = places_of(grid, (count - 1) as nat, antenna);
        let row = grid[count - 1];
        let last = in_row(row, count - 1, row.len(), antenna);
        if at < before.len() {
            lemma_places(grid, (count - 1) as nat, antenna, at);
            assert forall|other: int| 0 <= other < at implies places_of(grid, count, antenna)[other]
                != places_of(grid, count, antenna)[at] by {
                assert(places_of(grid, count, antenna)[other] == before[other]);
            }
        } else {
            lemma_in_row(row, count - 1, row.len(), antenna, at - before.len());
            assert forall|other: int| 0 <= other < at implies places_of(grid, count, antenna)[other]
                != places_of(grid, count, antenna)[at] by {
                if other < before.len() {
                    lemma_places(grid, (count - 1) as nat, antenna, other);
                } else {
                    assert(last[other - before.len()].0 < last[at - before.len()].0);
                }
            }
        }
    }
}

/// Each pair of `pairs_upto` is made of two places of `coords`, the earlier
/// one first.
proof fn lemma_pair_indices(coords: Seq<(isize, isize)>, i: nat, j: nat, at: int) -> (found: (
    int,
    int,
))
    requires
        0 <= at < pairs_upto(coords, i, j).len(),
    ensures
        0 <= found.0 < found.1 < coords.len(),
        pairs_upto(coords, i, j)[at] == (coords[found.0], coords[found.1]),
    decreases i, j,
{
    if i >= coords.len() {
        (0, 0)
    } else if j <= i + 1 || j > coords.len() {
        lemma_pair_indices(coords, (i - 1) as nat, coords.len(), at)
    } else {
        let before = pairs_upto(coords, i, (j - 1) as nat);
        if at < before.len() {
            lemma_pair_indices(coords, i, (j - 1) as nat, at)
        } else {
            (i as int, j - 1)
        }
    }
}

proof fn lemma_pairs_on_map(
    grid: Seq<Seq<u8>>,
    antenna: u8,
    coords: Seq<(isize, isize)>,
    i: nat,
    j: nat,
    at: int,
)
    requires
        coords == places_of(grid, grid.len(), antenna),
        0 <= at < pairs_upto(coords, i, j).len(),
        grid.len() <= isize::MAX,
        forall|y: int| 0 <= y < grid.len() ==> (#[trigger] grid[y]).len() <= isize::MAX,
    ensures
        sign_at(grid, pairs_upto(coords, i, j)[at].0).is_some(),
        sign_at(grid, pairs_upto(coords, i, j)[at].1).is_some(),
{
    let (a, b) = lemma_pair_indices(coords, i, j, at);
    lemma_places(grid, grid.len(), antenna, a);
    lemma_places(grid, grid.len(), antenna, b);
}

proof fn lemma_pairs_differ(
    grid: Seq<Seq<u8>>,
    antenna: u8,
    coords: Seq<(isize, isize)>,
    i: nat,
    j: nat,
    at: int,
)
    requires
        coords == places_of(grid, grid.len(), antenna),
        0 <= at < pairs_upto(coords, i, j).len(),
        grid.len() <= isize::MAX,
        forall|y: int| 0 <= y < grid.len() ==> (#[trigger] grid[y]).len() <= isize::MAX,
    ensures
        pairs_upto(coords, i, j)[at].0 != pairs_upto(coords, i, j)[at].1,
{
    let (a, b) = lemma_pair_indices(coords, i, j, at);
    lemma_places(grid, grid.len(), antenna, b);
}

/// At how many places of the map written in `input` there is an antinode
/// just beyond a pair of antennas.
pub fn _solution1(input: &String) -> (count: Option<usize>)
    ensures
        match count {
            Some(n) => {
                let grid = lines_of(bytes_of(input@));
                n == kind_nodes(grid, kinds_upto(grid, 256), kinds_upto(grid, 256).len(), false).to_set().len()
            },
            None => lines_of(bytes_of(input@)).len() > isize::MAX / 4 || exists|y: int|
                0 <= y < lines_of(bytes_of(input@)).len() && (#[trigger] lines_of(
                    bytes_of(input@),
                )[y]).len() > isize::MAX / 4,
        },
{
    match CityMap::from(input) {
        None => None,
        Some(city_map) => Some(city_map.count_antinodes(false)),
    }
}

/// At how many places of the map written in `input` there is an antinode
/// in line with a pair of antennas.
pub fn _solution2(input: &String) -> (count: Option<usize>)
    ensures
        match count {
            Some(n) => {
                let grid = lines_of(bytes_of(input@));
                n == kind_nodes(grid, kinds_upto(grid, 256), kinds_upto(grid, 256).len(), true).to_set().len()
            },
            None => lines_of(bytes_of(input@)).len() > isize::MAX / 4 || exists|y: int|
                0 <= y < lines_of(bytes_of(input@)).len() && (#[trigger] lines_of(
                    bytes_of(input@),
                )[y]).len() > isize::MAX / 4,
        },
{
    match CityMap::from(input) {
        None => None,
        Some(city_map) => Some(city_map.count_antinodes(true)),
    }
}

} // verus!
