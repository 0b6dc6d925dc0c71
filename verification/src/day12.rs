//! A garden of plots: its regions of plots that grow the same plant and
//! hang together, and the price of the fences around them.

use vstd::prelude::*;
use rustc_hash::FxHashMap;
use rustc_hash::FxHashSet;
use crate::tally::set_contains;
use crate::tally::set_insert;
use crate::tally::set_keys;
use crate::tally::set_new;
use crate::tally::tally_get;
use crate::tally::tally_insert;
use crate::tally::tally_new;
use crate::text::bytes_of;
use crate::text::lines;
use crate::text::lines_of;
use crate::text::rows;
use crate::text::text_bytes;

verus! {

#[derive(Debug, Hash, PartialEq, Eq, Clone, Copy, Structural)]
pub struct Icoord {
    pub x: isize,
    pub y: isize,
}

impl Icoord {
    pub fn new(x: isize, y: isize) -> (coord: Icoord)
        ensures
            coord == (Icoord { x, y }),
    {
        Icoord { x, y }
    }
}

/// The place one row up from `c`.
pub fn get_up_coord(c: &Icoord) -> (up: Icoord)
    requires
        c.y < isize::MAX,
    ensures
        up == (Icoord { x: c.x, y: (c.y + 1) as isize }),
{
    Icoord { x: c.x, y: c.y + 1 }
}

/// The four places next to `c`: above, below, right, left.
pub fn get_neighboring_coords(c: &Icoord) -> (around: Vec<Icoord>)
    requires
        isize::MIN < c.x < isize::MAX,
        isize::MIN < c.y < isize::MAX,
    ensures
        around@ == seq![
            Icoord { x: c.x, y: (c.y + 1) as isize },
            Icoord { x: c.x, y: (c.y - 1) as isize },
            Icoord { x: (c.x + 1) as isize, y: c.y },
            Icoord { x: (c.x - 1) as isize, y: c.y },
        ],
{
    let mut around: Vec<Icoord> = Vec::new();
    around.push(Icoord { x: c.x, y: c.y + 1 });
    around.push(Icoord { x: c.x, y: c.y - 1 });
    around.push(Icoord { x: c.x + 1, y: c.y });
    around.push(Icoord { x: c.x - 1, y: c.y });
    assert(around@ =~= seq![
        Icoord { x: c.x, y: (c.y + 1) as isize },
        Icoord { x: c.x, y: (c.y - 1) as isize },
        Icoord { x: (c.x + 1) as isize, y: c.y },
        Icoord { x: (c.x - 1) as isize, y: c.y },
    ]);
    around
}

/// The place next to `p` on side `d`: above, below, right, left.
pub open spec fn next_to(p: (isize, isize), d: int) -> (int, int) {
    if d == 0 {
        (p.0 as int, p.1 + 1)
    } else if d == 1 {
        (p.0 as int, p.1 - 1)
    } else if d == 2 {
        (p.0 + 1, p.1 as int)
    } else {
        (p.0 - 1, p.1 as int)
    }
}

/// Whether `plots` holds the place in column `x` and row `y`.
pub open spec fn planted(plots: Set<(isize, isize)>, x: int, y: int) -> bool {
    isize::MIN <= x <= isize::MAX && isize::MIN <= y <= isize::MAX && plots.contains(
        (x as isize, y as isize),
    )
}

/// Every coordinate of `plots` has a neighbour on both sides, and so has its
/// negative.
pub open spec fn roomy(plots: Set<(isize, isize)>) -> bool {
    forall|p: (isize, isize)| #[trigger]
        plots.contains(p) ==> -isize::MAX < p.0 < isize::MAX && -isize::MAX < p.1 < isize::MAX
}

/// A stretch of fence: side `e.1` of the plot `e.0`, where no plot of
/// `plots` lies beyond it.
pub open spec fn fence(plots: Set<(isize, isize)>, e: ((isize, isize), int)) -> bool {
    plots.contains(e.0) && 0 <= e.1 < 4 && !planted(plots, next_to(e.0, e.1).0, next_to(e.0, e.1).1)
}

/// All the stretches of fence around `plots`.
pub open spec fn fences(plots: Set<(isize, isize)>) -> Set<((isize, isize), int)> {
    Set::new(|e: ((isize, isize), int)| fence(plots, e))
}

/// The stretches of fence on the first `i` plots of `keys`, and on the sides
/// before `j` of the next one.
pub open spec fn fences_before(plots: Set<(isize, isize)>, keys: Seq<(isize, isize)>, i: int, j: int) -> Set<
    ((isize, isize), int),
> {
    Set::new(
        |e: ((isize, isize), int)|
            fence(plots, e) && (keys.take(i).contains(e.0) || (0 <= i < keys.len() && keys[i] == e.0
                && e.1 < j)),
    )
}

/// The plot in column `x` and row `y` has no plot above it.
pub open spec fn exposed(plots: Set<(isize, isize)>, x: int, y: int) -> bool {
    planted(plots, x, y) && !planted(plots, x, y + 1)
}

/// A straight side above the plots begins at `p`: `p` has no plot above it,
/// and the place to its left is no such plot.
pub open spec fn starts_side(plots: Set<(isize, isize)>, p: (isize, isize)) -> bool {
    exposed(plots, p.0 as int, p.1 as int) && !exposed(plots, p.0 - 1, p.1 as int)
}

/// The plots at which a straight side above the plots begins.
pub open spec fn side_starts(plots: Set<(isize, isize)>) -> Set<(isize, isize)> {
    Set::new(|p: (isize, isize)| starts_side(plots, p))
}

/// The number of straight sides above the plots.
pub open spec fn upper_sides(plots: Set<(isize, isize)>) -> nat {
    side_starts(plots).len()
}

/// The side starts in the rows before `y`, and in row `y` before column `x`.
pub open spec fn scanned(plots: Set<(isize, isize)>, y: int, x: int) -> Set<(isize, isize)> {
    Set::new(|p: (isize, isize)| starts_side(plots, p) && (p.1 < y || (p.1 == y && p.0 < x)))
}

/// Where `p` goes under the map `(x, y) -> (t.0 x + t.1 y, t.2 x + t.3 y)`.
pub open spec fn turn(t: (isize, isize, isize, isize), p: (isize, isize)) -> (int, int) {
    (t.0 * p.0 + t.1 * p.1, t.2 * p.0 + t.3 * p.1)
}

/// `t` takes `p` to a place whose coordinates are machine integers, and each
/// product on the way is one.
pub open spec fn turns_within(t: (isize, isize, isize, isize), p: (isize, isize)) -> bool {
    &&& isize::MIN <= t.0 * p.0 <= isize::MAX
    &&& isize::MIN <= t.1 * p.1 <= isize::MAX
    &&& isize::MIN <= t.2 * p.0 <= isize::MAX
    &&& isize::MIN <= t.3 * p.1 <= isize::MAX
    &&& isize::MIN <= turn(t, p).0 <= isize::MAX
    &&& isize::MIN <= turn(t, p).1 <= isize::MAX
}

/// The places to which `t` takes the plots.
pub open spec fn turned(plots: Set<(isize, isize)>, t: (isize, isize, isize, isize)) -> Set<(isize, isize)> {
    Set::new(
        |q: (isize, isize)|
            exists|p: (isize, isize)| #[trigger]
                plots.contains(p) && turn(t, p) == (q.0 as int, q.1 as int),
    )
}

/// The smallest box around the plots, from its corner `lo` to its corner
/// `hi`; around no plots, the box that is inside out.
pub open spec fn boxed(plots: Set<(isize, isize)>, lo: Icoord, hi: Icoord) -> bool {
    if plots =~= Set::empty() {
        lo == (Icoord { x: isize::MAX, y: isize::MAX }) && hi == (Icoord { x: isize::MIN, y: isize::MIN })
    } else {
        &&& forall|p: (isize, isize)| #[trigger]
            plots.contains(p) ==> lo.x <= p.0 <= hi.x && lo.y <= p.1 <= hi.y
        &&& exists|p: (isize, isize)| #[trigger] plots.contains(p) && p.0 == lo.x
        &&& exists|p: (isize, isize)| #[trigger] plots.contains(p) && p.0 == hi.x
        &&& exists|p: (isize, isize)| #[trigger] plots.contains(p) && p.1 == lo.y
        &&& exists|p: (isize, isize)| #[trigger] plots.contains(p) && p.1 == hi.y
    }
}

/// A list that names each member of a set once has the set's size.
pub proof fn lemma_keys_count(keys: Seq<(isize, isize)>, plots: Set<(isize, isize)>)
    requires
        keys.no_duplicates(),
        forall|p: (isize, isize)| keys.contains(p) <==> plots.contains(p),
    ensures
        plots.finite(),
        plots.len() == keys.len(),
        keys.to_set() == plots,
{
    keys.unique_seq_to_set();
    vstd::seq_lib::seq_to_set_is_finite(keys);
    assert(keys.to_set() =~= plots);
}

/// What the first `i + 1` entries of a list hold: what the first `i` hold,
/// and entry `i`.
pub proof fn lemma_take_one_more(keys: Seq<(isize, isize)>, i: int)
    requires
        0 <= i < keys.len(),
    ensures
        forall|p: (isize, isize)|
            keys.take(i + 1).contains(p) <==> keys.take(i).contains(p) || keys[i] == p,
        keys.no_duplicates() ==> !keys.take(i).contains(keys[i]),
{
    let more = keys.take(i + 1);
    let fewer = keys.take(i);
    assert forall|p: (isize, isize)| more.contains(p) <==> fewer.contains(p) || keys[i] == p by {
        if more.contains(p) {
            let at = choose|at: int| 0 <= at < more.len() && more[at] == p;
            if at < i {
                assert(fewer[at] == p);
            }
        }
        if fewer.contains(p) {
            let at = choose|at: int| 0 <= at < fewer.len() && fewer[at] == p;
            assert(more[at] == p);
        }
        if keys[i] == p {
            assert(more[i] == p);
        }
    }
    if keys.no_duplicates() && fewer.contains(keys[i]) {
        let at = choose|at: int| 0 <= at < fewer.len() && fewer[at] == keys[i];
        assert(keys[at] == keys[i]);
    }
}

/// A turn by quarters keeps roomy plots roomy.
pub proof fn lemma_quarter_turn(plots: Set<(isize, isize)>, t: (isize, isize, isize, isize))
    requires
        roomy(plots),
        -1 <= t.0 <= 1 && -1 <= t.1 <= 1 && -1 <= t.2 <= 1 && -1 <= t.3 <= 1,
        t.0 == 0 || t.1 == 0,
        t.2 == 0 || t.3 == 0,
    ensures
        forall|p: (isize, isize)| #[trigger] plots.contains(p) ==> turns_within(t, p),
        roomy(turned(plots, t)),
{
    assert forall|p: (isize, isize)| #[trigger] plots.contains(p) implies turns_within(t, p) && -isize::MAX
        < turn(t, p).0 < isize::MAX && -isize::MAX < turn(t, p).1 < isize::MAX by {
        lemma_unit_product(t.0, p.0);
        lemma_unit_product(t.1, p.1);
        lemma_unit_product(t.2, p.0);
        lemma_unit_product(t.3, p.1);
    }
    assert forall|q: (isize, isize)| #[trigger] turned(plots, t).contains(q) implies -isize::MAX < q.0
        < isize::MAX && -isize::MAX < q.1 < isize::MAX by {
        let p = choose|p: (isize, isize)| #[trigger]
            plots.contains(p) && turn(t, p) == (q.0 as int, q.1 as int);
        assert(turns_within(t, p));
    }
}

/// The product of `v` with 1, 0 or -1.
pub proof fn lemma_unit_product(u: isize, v: isize)
    requires
        -1 <= u <= 1,
    ensures
        u == 1 ==> u * v == v,
        u == 0 ==> u * v == 0,
        u == -1 ==> u * v == -v,
{
    assert(1 * v == v);
    assert(0 * v == 0);
    assert((-1) * v == -v);
}

/// The plots of one plant that hang together.
pub struct Region {
    plant_type: u8,
    plots: FxHashSet<(isize, isize)>,
}

impl Region {
    #[verifier::type_invariant]
    spec fn fitting(&self) -> bool {
        &&& self.plots@.finite()
        &&& 4 * self.plots@.len() <= usize::MAX
        &&& roomy(self.plots@)
    }

    /// The plots of the region.
    pub closed spec fn view(&self) -> Set<(isize, isize)> {
        self.plots@
    }

    /// The plant that grows on the region.
    pub closed spec fn plant(&self) -> u8 {
        self.plant_type
    }

    /// The plant that grows on the region.
    pub fn plant_type(&self) -> (plant: u8)
        ensures
            plant == self.plant(),
    {
        self.plant_type
    }

    /// The number of plots.
    pub fn get_area(&self) -> (area: usize)
        ensures
            area == self@.len(),
    {
        proof {
            use_type_invariant(self);
        }
        let keys = set_keys(&self.plots);
        proof {
            lemma_keys_count(keys@, self.plots@);
        }
        keys.len()
    }

    /// The number of stretches of fence around the region: the sides of its
    /// plots beyond which no plot of the region lies.
    pub fn get_perimeter(&self) -> (perimeter: usize)
        ensures
            perimeter == fences(self@).len(),
            perimeter <= 4 * self@.len(),
    {
        proof {
            use_type_invariant(self);
        }
        let keys = set_keys(&self.plots);
        proof {
            lemma_keys_count(keys@, self.plots@);
            assert(fences_before(self.plots@, keys@, 0, 0) =~= Set::empty());
        }
        let mut perimeter: usize = 0;
        let mut i: usize = 0;
        while i < keys.len()
            invariant
                i <= keys.len(),
                keys@.no_duplicates(),
                forall|p: (isize, isize)| keys@.contains(p) <==> self.plots@.contains(p),
                4 * keys.len() <= usize::MAX,
                roomy(self.plots@),
                fences_before(self.plots@, keys@, i as int, 0).finite(),
                perimeter == fences_before(self.plots@, keys@, i as int, 0).len(),
                perimeter <= 4 * i,
            decreases keys.len() - i,
        {
            let place = keys[i];
            assert(keys@.contains(place));
            let around = get_neighboring_coords(&Icoord { x: place.0, y: place.1 });
            let mut j: usize = 0;
            while j < 4
                invariant
                    j <= 4,
                    i < keys.len(),
                    place == keys[i as int],
                    keys@.no_duplicates(),
                    self.plots@.contains(place),
                    4 * keys.len() <= usize::MAX,
                    around.len() == 4,
                    forall|d: int|
                        0 <= d < 4 ==> ((#[trigger] around[d]).x as int, around[d].y as int) == next_to(
                            place,
                            d,
                        ),
                    fences_before(self.plots@, keys@, i as int, j as int).finite(),
                    perimeter == fences_before(self.plots@, keys@, i as int, j as int).len(),
                    perimeter <= 4 * i + j,
                decreases 4 - j,
            {
                let n = around[j];
                let ghost before = fences_before(self.plots@, keys@, i as int, j as int);
                let ghost after = fences_before(self.plots@, keys@, i as int, j + 1);
                proof {
                    lemma_take_one_more(keys@, i as int);
                }
                if !set_contains(&self.plots, (n.x, n.y)) {
                    proof {
                        assert(fence(self.plots@, (place, j as int)));
                        assert(!before.contains((place, j as int)));
                        assert(after =~= before.insert((place, j as int)));
                    }
                    perimeter += 1;
                } else {
                    proof {
                        assert(!fence(self.plots@, (place, j as int)));
                        assert(after =~= before);
                    }
                }
                j += 1;
            }
            proof {
                lemma_take_one_more(keys@, i as int);
                assert(fences_before(self.plots@, keys@, i as int, 4) =~= fences_before(
                    self.plots@,
                    keys@,
                    i + 1,
                    0,
                ));
            }
            i += 1;
        }
        proof {
            assert(keys@.take(keys.len() as int) =~= keys@);
            assert(fences_before(self.plots@, keys@, keys.len() as int, 0) =~= fences(self.plots@));
        }
        perimeter
    }

    /// The price of the fence by its length: area times perimeter; `None`
    /// where that is more than a machine integer holds.
    pub fn get_cost(&self) -> (cost: Option<usize>)
        ensures
            cost == (if self@.len() * fences(self@).len() <= usize::MAX {
                Some((self@.len() * fences(self@).len()) as usize)
            } else {
                None
            }),
    {
        self.get_area().checked_mul(self.get_perimeter())
    }

    /// The price of the fence by its straight sides: area times number of
    /// sides; `None` where that is more than a machine integer holds.
    pub fn get_reduced_cost(&self) -> (cost: Option<usize>)
        ensures
            cost == (if self@.len() * sides(self@) <= usize::MAX {
                Some((self@.len() * sides(self@)) as usize)
            } else {
                None
            }),
    {
        self.get_area().checked_mul(self.get_num_sides())
    }

    /// The corners of the smallest box around `plots`.
    pub fn _get_min_max_corners(&self, plots: &FxHashSet<(isize, isize)>) -> (corners: (Icoord, Icoord))
        ensures
            boxed(plots@, corners.0, corners.1),
    {
        let keys = set_keys(plots);
        let mut min_x = isize::MAX;
        let mut max_x = isize::MIN;
        let mut min_y = isize::MAX;
        let mut max_y = isize::MIN;
        let mut i: usize = 0;
        while i < keys.len()
            invariant
                i <= keys.len(),
                i == 0 ==> min_x == isize::MAX && min_y == isize::MAX && max_x == isize::MIN && max_y
                    == isize::MIN,
                forall|k: int|
                    0 <= k < i ==> min_x <= (#[trigger] keys[k]).0 <= max_x && min_y <= keys[k].1
                        <= max_y,
                i > 0 ==> exists|k: int| 0 <= k < i && (#[trigger] keys[k]).0 == min_x,
                i > 0 ==> exists|k: int| 0 <= k < i && (#[trigger] keys[k]).0 == max_x,
                i > 0 ==> exists|k: int| 0 <= k < i && (#[trigger] keys[k]).1 == min_y,
                i > 0 ==> exists|k: int| 0 <= k < i && (#[trigger] keys[k]).1 == max_y,
            decreases keys.len() - i,
        {
            let plot = keys[i];
            if i > 0 {
                let ghost a = choose|k: int| 0 <= k < i && (#[trigger] keys[k]).0 == min_x;
                let ghost b = choose|k: int| 0 <= k < i && (#[trigger] keys[k]).0 == max_x;
                let ghost c = choose|k: int| 0 <= k < i && (#[trigger] keys[k]).1 == min_y;
                let ghost d = choose|k: int| 0 <= k < i && (#[trigger] keys[k]).1 == max_y;
                assert(keys[a].0 == min_x && keys[b].0 == max_x && keys[c].1 == min_y && keys[d].1 == max_y);
            }
            if plot.0 < min_x {
                min_x = plot.0;
            }
            if plot.0 > max_x {
                max_x = plot.0;
            }
            if plot.1 < min_y {
                min_y = plot.1;
            }
            if plot.1 > max_y {
                max_y = plot.1;
            }
            assert(keys[i as int] == plot);
            i += 1;
        }
        let lo = Icoord { x: min_x, y: min_y };
        let hi = Icoord { x: max_x, y: max_y };
        proof {
            if keys.len() == 0 {
                assert forall|p: (isize, isize)| !plots@.contains(p) by {
                    if plots@.contains(p) {
                        assert(keys@.contains(p));
                    }
                }
                assert(plots@ =~= Set::empty());
            } else {
                assert(keys@.contains(keys[0]));
                assert(plots@.contains(keys[0]));
                assert(!(plots@ =~= Set::empty()));
                assert forall|p: (isize, isize)| #[trigger] plots@.contains(p) implies lo.x <= p.0 <= hi.x
                    && lo.y <= p.1 <= hi.y by {
                    assert(keys@.contains(p));
                    let at = choose|at: int| 0 <= at < keys.len() && keys[at] == p;
                    assert(min_x <= keys[at].0);
                }
                let a = choose|k: int| 0 <= k < i && (#[trigger] keys[k]).0 == min_x;
                let b = choose|k: int| 0 <= k < i && (#[trigger] keys[k]).0 == max_x;
                let c = choose|k: int| 0 <= k < i && (#[trigger] keys[k]).1 == min_y;
                let d = choose|k: int| 0 <= k < i && (#[trigger] keys[k]).1 == max_y;
                assert(keys@.contains(keys[a]) && keys@.contains(keys[b]) && keys@.contains(keys[c])
                    && keys@.contains(keys[d]));
                assert(plots@.contains(keys[a]) && keys[a].0 == lo.x);
                assert(plots@.contains(keys[b]) && keys[b].0 == hi.x);
                assert(plots@.contains(keys[c]) && keys[c].1 == lo.y);
                assert(plots@.contains(keys[d]) && keys[d].1 == hi.y);
            }
        }
        (lo, hi)
    }

    /// The number of straight sides above `plots`.
    pub fn _get_upper_sides(&self, plots: &FxHashSet<(isize, isize)>) -> (count: usize)
        requires
            roomy(plots@),
        ensures
            count == upper_sides(plots@),
            plots@.finite(),
            count <= plots@.len(),
    {
        let keys = set_keys(plots);
        proof {
            lemma_keys_count(keys@, plots@);
        }
        let (min_corner, max_corner) = self._get_min_max_corners(plots);
        let mut count: usize = 0;
        if keys.len() == 0 {
            proof {
                assert(plots@ =~= Set::empty());
                assert(side_starts(plots@) =~= Set::empty());
            }
            return 0;
        }
        proof {
            assert(keys@.contains(keys[0]));
            assert(plots@.contains(keys[0]));
            assert(!(plots@ =~= Set::empty()));
            assert(scanned(plots@, min_corner.y as int, min_corner.x as int) =~= Set::empty());
        }
        let mut y = min_corner.y;
        while y <= max_corner.y
            invariant
                roomy(plots@),
                plots@.finite(),
                plots@.len() == keys.len(),
                boxed(plots@, min_corner, max_corner),
                !(plots@ =~= Set::empty()),
                min_corner.y <= y <= max_corner.y + 1,
                count == scanned(plots@, y as int, min_corner.x as int).len(),
                scanned(plots@, y as int, min_corner.x as int).finite(),
                count <= plots@.len(),
            decreases max_corner.y + 1 - y,
        {
            let mut tracking_side = false;
            let mut x = min_corner.x;
            while x <= max_corner.x
                invariant
                    roomy(plots@),
                    plots@.finite(),
                    plots@.len() == keys.len(),
                    boxed(plots@, min_corner, max_corner),
                    !(plots@ =~= Set::empty()),
                    min_corner.y <= y <= max_corner.y,
                    min_corner.x <= x <= max_corner.x + 1,
                    tracking_side == exposed(plots@, x - 1, y as int),
                    count == scanned(plots@, y as int, x as int).len(),
                    scanned(plots@, y as int, x as int).finite(),
                    count <= plots@.len(),
                decreases max_corner.x + 1 - x,
            {
                let c = Icoord { x, y };
                let ghost before = scanned(plots@, y as int, x as int);
                let ghost after = scanned(plots@, y as int, x + 1);
                proof {
                    assert(after.subset_of(plots@));
                    vstd::set_lib::lemma_len_subset(after, plots@);
                    if starts_side(plots@, (x, y)) {
                        assert(after =~= before.insert((x, y)));
                        assert(!before.contains((x, y)));
                    } else {
                        assert(after =~= before);
                    }
                }
                if set_contains(plots, (x, y)) {
                    let up = get_up_coord(&c);
                    if tracking_side {
                        if set_contains(plots, (up.x, up.y)) {
                            tracking_side = false
                        } else {
                        }
                    } else {
                        if set_contains(plots, (up.x, up.y)) {
                        } else {
                            count += 1;
                            tracking_side = true;
                        }
                    }
                } else {
                    if tracking_side {
                        tracking_side = false;
                    } else {
                    }
                }
                x += 1;
            }
            proof {
                assert(scanned(plots@, y as int, max_corner.x + 1) =~= scanned(
                    plots@,
                    y + 1,
                    min_corner.x as int,
                ));
            }
            y += 1;
        }
        proof {
            assert(scanned(plots@, max_corner.y + 1, min_corner.x as int) =~= side_starts(plots@));
        }
        count
    }

    /// The plots of the region, each taken to where `transform` sends it.
    pub fn transform_plots(&self, transform: (isize, isize, isize, isize)) -> (plots: FxHashSet<(isize, isize)>)
        requires
            forall|p: (isize, isize)| #[trigger] self@.contains(p) ==> turns_within(transform, p),
        ensures
            plots@ == turned(self@, transform),
            plots@.finite(),
            plots@.len() <= self@.len(),
    {
        proof {
            use_type_invariant(self);
        }
        let keys = set_keys(&self.plots);
        proof {
            lemma_keys_count(keys@, self.plots@);
            assert forall|p: (isize, isize)| #[trigger] self.plots@.contains(p) implies turns_within(
                transform,
                p,
            ) by {
                assert(self@.contains(p));
            }
        }
        let mut result: FxHashSet<(isize, isize)> = set_new();
        let mut i: usize = 0;
        while i < keys.len()
            invariant
                i <= keys.len(),
                forall|p: (isize, isize)| keys@.contains(p) <==> self.plots@.contains(p),
                forall|p: (isize, isize)| #[trigger] self.plots@.contains(p) ==> turns_within(transform, p),
                result@.finite(),
                result@.len() <= i,
                forall|q: (isize, isize)|
                    result@.contains(q) <==> exists|k: int|
                        0 <= k < i && turn(transform, #[trigger] keys[k]) == (q.0 as int, q.1 as int),
            decreases keys.len() - i,
        {
            let c = keys[i];
            assert(keys@.contains(c));
            assert(turns_within(transform, c));
            let transformed_c = (transform.0 * c.0 + transform.1 * c.1, transform.2 * c.0 + transform.3 * c.1);
            let ghost before = result@;
            set_insert(&mut result, transformed_c);
            proof {
                assert forall|q: (isize, isize)|
                    result@.contains(q) <==> exists|k: int|
                        0 <= k < i + 1 && turn(transform, #[trigger] keys[k]) == (q.0 as int, q.1 as int) by {
                    if before.contains(q) {
                        let k = choose|k: int|
                            0 <= k < i && turn(transform, #[trigger] keys[k]) == (q.0 as int, q.1 as int);
                        assert(0 <= k < i + 1);
                    }
                    if q == transformed_c {
                        assert(turn(transform, keys[i as int]) == (q.0 as int, q.1 as int));
                    }
                }
            }
            i += 1;
        }
        proof {
            assert forall|q: (isize, isize)| result@.contains(q) <==> turned(self.plots@, transform).contains(
                q,
            ) by {
                if result@.contains(q) {
                    let k = choose|k: int|
                        0 <= k < i && turn(transform, #[trigger] keys[k]) == (q.0 as int, q.1 as int);
                    assert(keys@.contains(keys[k]));
                    assert(self.plots@.contains(keys[k]));
                }
                if turned(self.plots@, transform).contains(q) {
                    let p = choose|p: (isize, isize)| #[trigger]
                        self.plots@.contains(p) && turn(transform, p) == (q.0 as int, q.1 as int);
                    assert(keys@.contains(p));
                    let k = choose|k: int| 0 <= k < keys.len() && keys[k] == p;
                    assert(turn(transform, keys[k]) == (q.0 as int, q.1 as int));
                }
            }
            assert(result@ =~= turned(self.plots@, transform));
        }
        result
    }

    /// The number of straight sides above the region.
    pub fn get_upper_sides(&self) -> (count: usize)
        ensures
            count == upper_sides(self@),
            count <= self@.len(),
    {
        proof {
            use_type_invariant(self);
        }
        self._get_upper_sides(&self.plots)
    }

    /// The number of straight sides below the region: those above it once
    /// it is turned upside down.
    pub fn get_lower_sides(&self) -> (count: usize)
        ensures
            count == upper_sides(turned(self@, (-1isize, 0isize, 0isize, -1isize))),
            count <= self@.len(),
    {
        proof {
            use_type_invariant(self);
            lemma_quarter_turn(self.plots@, (-1isize, 0isize, 0isize, -1isize));
        }
        let plots = self.transform_plots((-1, 0, 0, -1));
        self._get_upper_sides(&plots)
    }

    /// The number of straight sides left of the region: those above it once
    /// it is turned by a quarter.
    pub fn get_left_sides(&self) -> (count: usize)
        ensures
            count == upper_sides(turned(self@, (0isize, 1isize, -1isize, 0isize))),
            count <= self@.len(),
    {
        proof {
            use_type_invariant(self);
            lemma_quarter_turn(self.plots@, (0isize, 1isize, -1isize, 0isize));
        }
        let plots = self.transform_plots((0, 1, -1, 0));
        self._get_upper_sides(&plots)
    }

    /// The number of straight sides right of the region: those above it once
    /// it is turned by a quarter the other way.
    pub fn get_right_sides(&self) -> (count: usize)
        ensures
            count == upper_sides(turned(self@, (0isize, -1isize, 1isize, 0isize))),
            count <= self@.len(),
    {
        proof {
            use_type_invariant(self);
            lemma_quarter_turn(self.plots@, (0isize, -1isize, 1isize, 0isize));
        }
        let plots = self.transform_plots((0, -1, 1, 0));
        self._get_upper_sides(&plots)
    }

    /// The number of straight sides of the region.
    pub fn get_num_sides(&self) -> (count: usize)
        ensures
            count == sides(self@),
    {
        proof {
            use_type_invariant(self);
        }
        let upper = self.get_upper_sides();
        let lower = self.get_lower_sides();
        let left = self.get_left_sides();
        let right = self.get_right_sides();
        upper + lower + left + right
    }
}

/// The number of straight sides of the plots: above, below, left and right.
pub open spec fn sides(plots: Set<(isize, isize)>) -> nat {
    upper_sides(plots) + upper_sides(turned(plots, (-1isize, 0isize, 0isize, -1isize))) + upper_sides(
        turned(plots, (0isize, 1isize, -1isize, 0isize)),
    ) + upper_sides(turned(plots, (0isize, -1isize, 1isize, 0isize)))
}

/// The number of characters on all the lines together.
pub open spec fn cells(lines: Seq<Seq<u8>>) -> nat
    decreases lines.len(),
{
    if lines.len() == 0 {
        0
    } else {
        cells(lines.drop_last()) + lines.last().len()
    }
}

/// The garden that the lines draw: the plant in column `x` of row `y` is
/// character `x` of line `y`.
pub open spec fn plan_of(lines: Seq<Seq<u8>>) -> Map<(isize, isize), u8> {
    Map::new(
        |p: (isize, isize)| 0 <= p.1 < lines.len() && 0 <= p.0 < lines[p.1 as int].len(),
        |p: (isize, isize)| lines[p.1 as int][p.0 as int],
    )
}

/// The part of the garden on the lines before `y`, and on line `y` before
/// column `x`.
pub open spec fn plan_before(lines: Seq<Seq<u8>>, y: int, x: int) -> Map<(isize, isize), u8> {
    Map::new(
        |p: (isize, isize)|
            0 <= p.1 < lines.len() && 0 <= p.0 < lines[p.1 as int].len() && (p.1 < y || (p.1 == y && p.0
                < x)),
        |p: (isize, isize)| lines[p.1 as int][p.0 as int],
    )
}

/// The lines draw a garden: there is a line, no line is shorter than the
/// first, and machine integers count the rows and four times the plots.
pub open spec fn readable(lines: Seq<Seq<u8>>) -> bool {
    &&& 0 < lines.len() <= isize::MAX
    &&& 4 * cells(lines) <= usize::MAX
    &&& forall|y: int| 0 <= y < lines.len() ==> (#[trigger] lines[y]).len() >= lines[0].len()
}

/// The first lines of a text hold no more characters than all of them.
pub proof fn lemma_cells_grow(lines: Seq<Seq<u8>>, n: int)
    requires
        0 <= n <= lines.len(),
    ensures
        cells(lines.take(n)) <= cells(lines),
        n < lines.len() ==> cells(lines.take(n + 1)) == cells(lines.take(n)) + lines[n].len(),
    decreases lines.len(),
{
    if n < lines.len() {
        assert(lines.take(n + 1).drop_last() =~= lines.take(n));
        assert(lines.drop_last().take(n) =~= lines.take(n));
        lemma_cells_grow(lines.drop_last(), n);
    } else {
        assert(lines.take(n) =~= lines);
    }
}

/// Two plots that lie side by side and grow the same plant.
pub open spec fn joined(plan: Map<(isize, isize), u8>, a: (isize, isize), b: (isize, isize)) -> bool {
    &&& plan.contains_key(a)
    &&& plan.contains_key(b)
    &&& plan[a] == plan[b]
    &&& exists|d: int| 0 <= d < 4 && #[trigger] next_to(a, d) == (b.0 as int, b.1 as int)
}

/// Of the first `n` places around `p`, those with the plant of `p`.
pub open spec fn matching_upto(plan: Map<(isize, isize), u8>, p: (isize, isize), n: int) -> Seq<(isize, isize)>
    decreases n,
{
    if n <= 0 {
        Seq::empty()
    } else {
        let found = matching_upto(plan, p, n - 1);
        let q = next_to(p, n - 1);
        if planted(plan.dom(), q.0, q.1) && plan[(q.0 as isize, q.1 as isize)] == plan[p] {
            found.push((q.0 as isize, q.1 as isize))
        } else {
            found
        }
    }
}

/// The plots around `p` with the plant of `p`: above, below, right, left.
pub open spec fn matching(plan: Map<(isize, isize), u8>, p: (isize, isize)) -> Seq<(isize, isize)> {
    matching_upto(plan, p, 4)
}

/// The plots that at most `n` steps between joined plots reach from
/// `start`.
pub open spec fn within(plan: Map<(isize, isize), u8>, start: (isize, isize), n: nat) -> Set<(isize, isize)>
    decreases n,
{
    if n == 0 {
        set![start]
    } else {
        Set::new(
            |q: (isize, isize)|
                within(plan, start, (n - 1) as nat).contains(q) || exists|p: (isize, isize)|
                    within(plan, start, (n - 1) as nat).contains(p) && #[trigger] joined(plan, p, q),
        )
    }
}

/// The plots that hang together with `start`.
pub open spec fn patch(plan: Map<(isize, isize), u8>, start: (isize, isize)) -> Set<(isize, isize)> {
    Set::new(|q: (isize, isize)| exists|n: nat| #[trigger] within(plan, start, n).contains(q))
}

/// Every plot joined to `p` is in `region`.
pub open spec fn settled(plan: Map<(isize, isize), u8>, region: Set<(isize, isize)>, p: (isize, isize)) -> bool {
    forall|q: (isize, isize)| #[trigger] joined(plan, p, q) ==> region.contains(q)
}

/// The plots joined to `p` are those that `matching` lists.
pub proof fn lemma_matching(plan: Map<(isize, isize), u8>, p: (isize, isize))
    requires
        plan.contains_key(p),
    ensures
        forall|q: (isize, isize)| matching(plan, p).contains(q) <==> joined(plan, p, q),
        matching(plan, p).len() <= 4,
{
    reveal_with_fuel(matching_upto, 5);
    let found = matching(plan, p);
    assert forall|q: (isize, isize)| found.contains(q) <==> joined(plan, p, q) by {
        if found.contains(q) {
            let at = choose|at: int| 0 <= at < found.len() && found[at] == q;
            let d = choose|d: int|
                0 <= d < 4 && next_to(p, d) == (q.0 as int, q.1 as int) && planted(
                    plan.dom(),
                    next_to(p, d).0,
                    next_to(p, d).1,
                ) && plan[q] == plan[p];
            assert(next_to(p, d) == (q.0 as int, q.1 as int));
        }
        if joined(plan, p, q) {
            let d = choose|d: int| 0 <= d < 4 && #[trigger] next_to(p, d) == (q.0 as int, q.1 as int);
            assert(planted(plan.dom(), next_to(p, d).0, next_to(p, d).1));
            let m1 = matching_upto(plan, p, 1);
            let m2 = matching_upto(plan, p, 2);
            let m3 = matching_upto(plan, p, 3);
            if d == 0 {
                assert(m1[m1.len() - 1] == q);
                assert(m2[m1.len() - 1] == q);
                assert(m3[m1.len() - 1] == q);
                assert(found[m1.len() - 1] == q);
            } else if d == 1 {
                assert(m2[m2.len() - 1] == q);
                assert(m3[m2.len() - 1] == q);
                assert(found[m2.len() - 1] == q);
            } else if d == 2 {
                assert(m3[m3.len() - 1] == q);
                assert(found[m3.len() - 1] == q);
            } else {
                assert(found[found.len() - 1] == q);
            }
        }
    }
}

/// A plot joined to one of the patch is in the patch.
pub proof fn lemma_patch_step(plan: Map<(isize, isize), u8>, start: (isize, isize), p: (isize, isize), q: (
    isize,
    isize,
))
    requires
        patch(plan, start).contains(p),
        joined(plan, p, q),
    ensures
        patch(plan, start).contains(q),
{
    let n = choose|n: nat| #[trigger] within(plan, start, n).contains(p);
    assert(within(plan, start, n + 1).contains(q));
}

/// The patch of `start` holds `start`; its plots are plots of the garden
/// and grow what `start` grows.
pub proof fn lemma_patch_plant(plan: Map<(isize, isize), u8>, start: (isize, isize))
    requires
        plan.contains_key(start),
    ensures
        patch(plan, start).contains(start),
        forall|q: (isize, isize)| #[trigger]
            patch(plan, start).contains(q) ==> plan.contains_key(q) && plan[q] == plan[start],
{
    assert(within(plan, start, 0).contains(start));
    assert forall|q: (isize, isize)| #[trigger] patch(plan, start).contains(q) implies plan.contains_key(q)
        && plan[q] == plan[start] by {
        let n = choose|n: nat| #[trigger] within(plan, start, n).contains(q);
        lemma_within_plant(plan, start, n, q);
    }
}

proof fn lemma_within_plant(plan: Map<(isize, isize), u8>, start: (isize, isize), n: nat, q: (isize, isize))
    requires
        plan.contains_key(start),
        within(plan, start, n).contains(q),
    ensures
        plan.contains_key(q),
        plan[q] == plan[start],
    decreases n,
{
    if n > 0 {
        if within(plan, start, (n - 1) as nat).contains(q) {
            lemma_within_plant(plan, start, (n - 1) as nat, q);
        } else {
            let p = choose|p: (isize, isize)|
                within(plan, start, (n - 1) as nat).contains(p) && #[trigger] joined(plan, p, q);
            lemma_within_plant(plan, start, (n - 1) as nat, p);
        }
    }
}

/// A set that holds `start` and, with each plot, the plots joined to it
/// holds all that any number of steps reach from `start`.
pub proof fn lemma_closed(plan: Map<(isize, isize), u8>, start: (isize, isize), region: Set<(isize, isize)>, n: nat)
    requires
        region.contains(start),
        forall|p: (isize, isize)| #[trigger] region.contains(p) ==> settled(plan, region, p),
    ensures
        forall|q: (isize, isize)| #[trigger] within(plan, start, n).contains(q) ==> region.contains(q),
    decreases n,
{
    if n > 0 {
        lemma_closed(plan, start, region, (n - 1) as nat);
        assert forall|q: (isize, isize)| within(plan, start, n).contains(q) implies region.contains(q) by {
            if !within(plan, start, (n - 1) as nat).contains(q) {
                let p = choose|p: (isize, isize)|
                    within(plan, start, (n - 1) as nat).contains(p) && #[trigger] joined(plan, p, q);
                assert(region.contains(p));
                assert(settled(plan, region, p));
            }
        }
    }
}

/// A garden: a plant on each plot of a grid.
pub struct Garden {
    plots: FxHashMap<(isize, isize), u8>,
    width: isize,
    height: isize,
}

impl Garden {
    #[verifier::type_invariant]
    spec fn laid(&self) -> bool {
        &&& 0 <= self.width
        &&& 0 <= self.height
        &&& self.plots@.dom().finite()
        &&& 4 * self.plots@.dom().len() <= usize::MAX
        &&& forall|p: (isize, isize)| #[trigger]
            self.plots@.contains_key(p) ==> 0 <= p.0 < isize::MAX && 0 <= p.1 < isize::MAX
        &&& forall|x: isize, y: isize|
            0 <= x < self.width && 0 <= y < self.height ==> #[trigger] self.plots@.contains_key((x, y))
    }

    /// The plant on each plot.
    pub closed spec fn view(&self) -> Map<(isize, isize), u8> {
        self.plots@
    }

    /// The number of columns that are searched for regions.
    pub closed spec fn spec_width(&self) -> int {
        self.width as int
    }

    /// The number of rows.
    pub closed spec fn spec_height(&self) -> int {
        self.height as int
    }

    /// The garden drawn in `input`, a character for each plot; `None` where
    /// the lines draw none.
    pub fn from(input: &String) -> (garden: Option<Garden>)
        ensures
            match garden {
                Some(read) => {
                    &&& readable(lines_of(bytes_of(input@)))
                    &&& read@ == plan_of(lines_of(bytes_of(input@)))
                    &&& read.spec_width() == lines_of(bytes_of(input@))[0].len()
                    &&& read.spec_height() == lines_of(bytes_of(input@)).len()
                },
                None => !readable(lines_of(bytes_of(input@))),
            },
    {
        let found = lines(text_bytes(input));
        let ghost text = rows(found@);
        if found.len() == 0 || found.len() > isize::MAX as usize {
            return None;
        }
        assert(text == lines_of(bytes_of(input@)));
        let limit = usize::MAX / 4;
        let width = found[0].len();
        assert(text[0] == found[0]@);
        let mut total: usize = 0;
        let mut y: usize = 0;
        while y < found.len()
            invariant
                y <= found.len(),
                text == rows(found@),
                text == lines_of(bytes_of(input@)),
                limit == usize::MAX / 4,
                width == text[0].len(),
                total == cells(text.take(y as int)),
                total <= limit,
                forall|r: int| 0 <= r < y ==> width <= (#[trigger] text[r]).len() <= limit,
            decreases found.len() - y,
        {
            let n = found[y].len();
            assert(text[y as int] == found[y as int]@);
            proof {
                lemma_cells_grow(text, y as int);
                lemma_cells_grow(text, y + 1);
            }
            if n < width {
                return None;
            }
            if n > limit - total {
                return None;
            }
            total += n;
            y += 1;
        }
        proof {
            assert(text.take(found.len() as int) =~= text);
            assert(plan_before(text, 0, 0) =~= Map::<(isize, isize), u8>::empty());
            assert(text.take(0) =~= Seq::<Seq<u8>>::empty());
        }
        let mut plots: FxHashMap<(isize, isize), u8> = tally_new();
        assert(plots@ =~= Map::<(isize, isize), u8>::empty());
        let mut y: usize = 0;
        while y < found.len()
            invariant
                0 < found.len(),
                y <= found.len() <= isize::MAX,
                text == rows(found@),
                text == lines_of(bytes_of(input@)),
                limit == usize::MAX / 4,
                cells(text) <= limit,
                forall|r: int| 0 <= r < text.len() ==> (#[trigger] text[r]).len() >= text[0].len(),
                forall|r: int| 0 <= r < text.len() ==> (#[trigger] text[r]).len() <= limit,
                plots@ == plan_before(text, y as int, 0),
                plots@.dom().finite(),
                plots@.dom().len() == cells(text.take(y as int)),
            decreases found.len() - y,
        {
            let line = &found[y];
            assert(text[y as int] == line@);
            let mut x: usize = 0;
            while x < line.len()
                invariant
                    y < found.len() <= isize::MAX,
                    x <= line.len() <= limit,
                    limit == usize::MAX / 4,
                    text == rows(found@),
                    text[y as int] == line@,
                    plots@ == plan_before(text, y as int, x as int),
                    plots@.dom().finite(),
                    plots@.dom().len() == cells(text.take(y as int)) + x,
                decreases line.len() - x,
            {
                let ghost before = plots@;
                tally_insert(&mut plots, (x as isize, y as isize), line[x]);
                proof {
                    assert(!before.contains_key((x as isize, y as isize)));
                    assert(plots@.dom() =~= before.dom().insert((x as isize, y as isize)));
                    assert(plots@ =~= plan_before(text, y as int, x + 1));
                }
                x += 1;
            }
            proof {
                lemma_cells_grow(text, y as int);
                assert(plan_before(text, y as int, line.len() as int) =~= plan_before(text, y + 1, 0));
            }
            y += 1;
        }
        proof {
            assert(text.take(found.len() as int) =~= text);
            assert(plan_before(text, found.len() as int, 0) =~= plan_of(text));
        }
        Some(Garden { plots, width: width as isize, height: found.len() as isize })
    }

    /// The plots around `coord` that grow what `coord` grows.
    pub fn _get_matching_neighbors(&self, coord: (isize, isize)) -> (found: Vec<(isize, isize)>)
        requires
            self@.contains_key(coord),
        ensures
            found@ == matching(self@, coord),
    {
        proof {
            use_type_invariant(self);
            reveal_with_fuel(matching_upto, 5);
        }
        let mut result: Vec<(isize, isize)> = Vec::new();
        let kept = tally_get(&self.plots, coord);
        let plot = kept.unwrap();
        let around = get_neighboring_coords(&Icoord { x: coord.0, y: coord.1 });
        let mut d: usize = 0;
        while d < 4
            invariant
                d <= 4,
                around.len() == 4,
                self.plots@.contains_key(coord),
                plot == self.plots@[coord],
                forall|k: int|
                    0 <= k < 4 ==> ((#[trigger] around[k]).x as int, around[k].y as int) == next_to(
                        coord,
                        k,
                    ),
                result@ == matching_upto(self.plots@, coord, d as int),
            decreases 4 - d,
        {
            let n = around[d];
            match tally_get(&self.plots, (n.x, n.y)) {
                Some(neighbor) => {
                    if neighbor == plot {
                        result.push((n.x, n.y))
                    }
                },
                None => (),
            }
            d += 1;
        }
        result
    }

    /// The plots that hang together with `coord`, each once.
    pub fn _get_region_plots(&self, coord: (isize, isize)) -> (plots: Vec<(isize, isize)>)
        requires
            self@.contains_key(coord),
        ensures
            plots@.no_duplicates(),
            forall|q: (isize, isize)| plots@.contains(q) <==> patch(self@, coord).contains(q),
    {
        proof {
            use_type_invariant(self);
            lemma_patch_plant(self.plots@, coord);
        }
        let ghost plan = self.plots@;
        let mut in_region: FxHashSet<(isize, isize)> = set_new();
        let mut to_examine: Vec<(isize, isize)> = Vec::new();
        to_examine.push(coord);
        assert(to_examine@[0] == coord);
        while to_examine.len() != 0
            invariant
                plan == self.plots@,
                plan == self@,
                plan.dom().finite(),
                in_region@.finite(),
                forall|q: (isize, isize)| #[trigger]
                    in_region@.contains(q) ==> patch(plan, coord).contains(q) && plan.contains_key(q),
                forall|k: int|
                    0 <= k < to_examine.len() ==> patch(plan, coord).contains(#[trigger] to_examine[k])
                        && plan.contains_key(to_examine[k]),
                forall|p: (isize, isize)| #[trigger]
                    in_region@.contains(p) && !to_examine@.contains(p) ==> settled(plan, in_region@, p),
                in_region@.contains(coord) || to_examine@.contains(coord),
            decreases 2 * (plan.dom().len() - in_region@.len()) + to_examine.len(),
        {
            let ghost pending = to_examine@;
            let ghost region = in_region@;
            proof {
                assert(region.subset_of(plan.dom()));
                vstd::set_lib::lemma_len_subset(region, plan.dom());
            }
            let cur = to_examine.pop().unwrap();
            set_insert(&mut in_region, cur);
            proof {
                assert(to_examine@ =~= pending.drop_last());
                assert(cur == pending[pending.len() - 1]);
                assert forall|p: (isize, isize)| pending.contains(p) implies to_examine@.contains(p) || p
                    == cur by {
                    let at = choose|at: int| 0 <= at < pending.len() && pending[at] == p;
                    if at < pending.len() - 1 {
                        assert(to_examine@[at] == p);
                    }
                }
                lemma_matching(plan, cur);
            }
            let neighbor_coords = self._get_matching_neighbors(cur);
            let mut j: usize = 0;
            while j < neighbor_coords.len()
                invariant
                    j <= neighbor_coords.len(),
                    neighbor_coords@ == matching(plan, cur),
                    forall|q: (isize, isize)| matching(plan, cur).contains(q) <==> joined(plan, cur, q),
                    plan == self.plots@,
                    plan.dom().finite(),
                    in_region@.finite(),
                    in_region@.contains(cur),
                    forall|q: (isize, isize)| #[trigger]
                        in_region@.contains(q) ==> patch(plan, coord).contains(q) && plan.contains_key(q),
                    forall|k: int|
                        0 <= k < to_examine.len() ==> patch(plan, coord).contains(#[trigger] to_examine[k])
                            && plan.contains_key(to_examine[k]),
                    forall|p: (isize, isize)| #[trigger]
                        in_region@.contains(p) && !to_examine@.contains(p) && p != cur ==> settled(
                            plan,
                            in_region@,
                            p,
                        ),
                    forall|k: int| 0 <= k < j ==> in_region@.contains(#[trigger] neighbor_coords[k]),
                    in_region@.contains(coord) || to_examine@.contains(coord),
                    2 * (plan.dom().len() - in_region@.len()) + to_examine.len() < 2 * (plan.dom().len()
                        - region.len()) + pending.len(),
                decreases neighbor_coords.len() - j,
            {
                let nc = neighbor_coords[j];
                let ghost listed = to_examine@;
                let ghost held = in_region@;
                proof {
                    assert(matching(plan, cur).contains(nc));
                    assert(joined(plan, cur, nc));
                    assert(patch(plan, coord).contains(cur));
                    lemma_patch_step(plan, coord, cur, nc);
                }
                if !set_contains(&in_region, nc) {
                    to_examine.push(nc);
                    set_insert(&mut in_region, nc);
                    proof {
                        assert forall|p: (isize, isize)| listed.contains(p) implies to_examine@.contains(
                            p,
                        ) by {
                            let at = choose|at: int| 0 <= at < listed.len() && listed[at] == p;
                            assert(to_examine@[at] == p);
                        }
                        assert(to_examine@[listed.len() as int] == nc);
                        assert(to_examine@.contains(nc));
                    }
                }
                proof {
                    assert forall|p: (isize, isize)| #[trigger]
                        in_region@.contains(p) && !to_examine@.contains(p) && p != cur implies settled(
                        plan,
                        in_region@,
                        p,
                    ) by {
                        assert(held.contains(p));
                        assert(!listed.contains(p));
                        assert(settled(plan, held, p));
                    }
                }
                j += 1;
            }
            proof {
                assert forall|q: (isize, isize)| #[trigger] joined(plan, cur, q) implies in_region@.contains(
                    q,
                ) by {
                    assert(neighbor_coords@.contains(q));
                    let at = choose|at: int| 0 <= at < neighbor_coords.len() && neighbor_coords[at] == q;
                    assert(in_region@.contains(neighbor_coords[at]));
                }
                assert(settled(plan, in_region@, cur));
                assert(in_region@.subset_of(plan.dom()));
                vstd::set_lib::lemma_len_subset(in_region@, plan.dom());
            }
        }
        let plots = set_keys(&in_region);
        proof {
            assert(in_region@.contains(coord));
            assert forall|p: (isize, isize)| in_region@.contains(p) implies settled(plan, in_region@, p) by {
                assert(!to_examine@.contains(p));
            }
            assert forall|q: (isize, isize)| plots@.contains(q) <==> patch(plan, coord).contains(q) by {
                if patch(plan, coord).contains(q) {
                    let n = choose|n: nat| #[trigger] within(plan, coord, n).contains(q);
                    lemma_closed(plan, coord, in_region@, n);
                }
            }
        }
        plots
    }
}

/// The plots of each region of `regions`.
pub open spec fn patches(regions: Seq<Region>) -> Seq<Set<(isize, isize)>> {
    Seq::new(regions.len(), |k: int| regions[k]@)
}

/// One of the sets of `found` holds `p`.
pub open spec fn claimed(found: Seq<Set<(isize, isize)>>, p: (isize, isize)) -> bool {
    exists|k: int| 0 <= k < found.len() && (#[trigger] found[k]).contains(p)
}

/// The regions met on a walk down the columns before `x`, one after the
/// other, and down column `x` as far as row `y`: each plot that no earlier
/// region holds adds the patch that hangs together with it.
pub open spec fn regions_before(plan: Map<(isize, isize), u8>, height: int, x: int, y: int) -> Seq<
    Set<(isize, isize)>,
>
    decreases x, y,
{
    if x >= 0 && y > 0 {
        let found = regions_before(plan, height, x, y - 1);
        let p = (x as isize, (y - 1) as isize);
        if claimed(found, p) {
            found
        } else {
            found.push(patch(plan, p))
        }
    } else if x > 0 && height >= 0 {
        regions_before(plan, height, x - 1, height)
    } else {
        Seq::empty()
    }
}

/// The regions of a garden, in the order in which a walk down its columns
/// meets them.
pub open spec fn regions_of(plan: Map<(isize, isize), u8>, width: int, height: int) -> Seq<Set<(isize, isize)>> {
    regions_before(plan, height, width, 0)
}

/// Adding a set to a list adds its members to what the list claims.
pub proof fn lemma_claimed_push(found: Seq<Set<(isize, isize)>>, added: Set<(isize, isize)>)
    ensures
        forall|q: (isize, isize)|
            claimed(found.push(added), q) <==> claimed(found, q) || added.contains(q),
{
    let more = found.push(added);
    assert forall|q: (isize, isize)| claimed(more, q) <==> claimed(found, q) || added.contains(q) by {
        if claimed(more, q) {
            let k = choose|k: int| 0 <= k < more.len() && (#[trigger] more[k]).contains(q);
            if k < found.len() {
                assert(found[k].contains(q));
            }
        }
        if claimed(found, q) {
            let k = choose|k: int| 0 <= k < found.len() && (#[trigger] found[k]).contains(q);
            assert(more[k].contains(q));
        }
        if added.contains(q) {
            assert(more[found.len() as int].contains(q));
        }
    }
}

/// A set with the plots of `plots`.
fn collect_plots(plots: &Vec<(isize, isize)>) -> (members: FxHashSet<(isize, isize)>)
    ensures
        forall|q: (isize, isize)| members@.contains(q) <==> plots@.contains(q),
{
    let mut members: FxHashSet<(isize, isize)> = set_new();
    let mut i: usize = 0;
    while i < plots.len()
        invariant
            i <= plots.len(),
            forall|q: (isize, isize)| members@.contains(q) <==> plots@.take(i as int).contains(q),
        decreases plots.len() - i,
    {
        let ghost was = members@;
        set_insert(&mut members, plots[i]);
        proof {
            lemma_take_one_more(plots@, i as int);
            assert forall|q: (isize, isize)| members@.contains(q) <==> plots@.take(i + 1).contains(q) by {
                assert(members@.contains(q) <==> was.contains(q) || q == plots[i as int]);
                assert(was.contains(q) <==> plots@.take(i as int).contains(q));
            }
        }
        i += 1;
    }
    assert(plots@.take(plots.len() as int) =~= plots@);
    members
}

impl Garden {
    /// The regions of the garden, in the order in which a walk down its
    /// columns meets them.
    pub fn get_regions(&self) -> (regions: Vec<Region>)
        ensures
            patches(regions@) == regions_of(self@, self.spec_width(), self.spec_height()),
            forall|k: int, p: (isize, isize)|
                0 <= k < regions.len() && #[trigger] regions[k]@.contains(p) ==> self@.contains_key(p)
                    && self@[p] == regions[k].plant(),
    {
        proof {
            use_type_invariant(self);
        }
        let ghost plan = self.plots@;
        let ghost height = self.height as int;
        let mut result: Vec<Region> = Vec::new();
        let mut in_region: FxHashSet<(isize, isize)> = set_new();
        let mut x: isize = 0;
        proof {
            assert(patches(result@) =~= regions_before(plan, height, 0, 0));
        }
        while x < self.width
            invariant
                self.laid(),
                plan == self.plots@,
                height == self.height,
                0 <= x <= self.width,
                patches(result@) == regions_before(plan, height, x as int, 0),
                forall|q: (isize, isize)| in_region@.contains(q) <==> claimed(patches(result@), q),
                forall|k: int, p: (isize, isize)|
                    0 <= k < result.len() && #[trigger] result[k]@.contains(p) ==> plan.contains_key(p)
                        && plan[p] == result[k].plant(),
            decreases self.width - x,
        {
            let mut y: isize = 0;
            while y < self.height
                invariant
                    self.laid(),
                    plan == self.plots@,
                    height == self.height,
                    0 <= x < self.width,
                    0 <= y <= self.height,
                    patches(result@) == regions_before(plan, height, x as int, y as int),
                    forall|q: (isize, isize)| in_region@.contains(q) <==> claimed(patches(result@), q),
                    forall|k: int, p: (isize, isize)|
                        0 <= k < result.len() && #[trigger] result[k]@.contains(p) ==> plan.contains_key(p)
                            && plan[p] == result[k].plant(),
                decreases self.height - y,
            {
                let coord = (x, y);
                let ghost before = result@;
                let ghost held = in_region@;
                assert(plan.contains_key(coord));
                if !set_contains(&in_region, coord) {
                    set_insert(&mut in_region, coord);
                    let plots = self._get_region_plots(coord);
                    let mut i: usize = 0;
                    while i < plots.len()
                        invariant
                            i <= plots.len(),
                            forall|q: (isize, isize)|
                                #![trigger in_region@.contains(q)]
                                in_region@.contains(q) <==> held.contains(q) || q == coord || plots@.take(
                                    i as int,
                                ).contains(q),
                        decreases plots.len() - i,
                    {
                        let ghost was = in_region@;
                        set_insert(&mut in_region, plots[i]);
                        proof {
                            lemma_take_one_more(plots@, i as int);
                            assert forall|q: (isize, isize)|
                                in_region@.contains(q) <==> held.contains(q) || q == coord || plots@.take(
                                    i + 1,
                                ).contains(q) by {
                                assert(in_region@.contains(q) <==> was.contains(q) || q == plots[i as int]);
                                assert(was.contains(q) <==> held.contains(q) || q == coord || plots@.take(
                                    i as int,
                                ).contains(q));
                            }
                        }
                        i += 1;
                    }
                    let members = collect_plots(&plots);
                    let kept = tally_get(&self.plots, coord);
                    let plant = kept.unwrap();
                    proof {
                        assert(plots@.take(plots.len() as int) =~= plots@);
                        lemma_patch_plant(plan, coord);
                        lemma_keys_count(plots@, members@);
                        assert(members@ =~= patch(plan, coord));
                        assert(members@.subset_of(plan.dom()));
                        vstd::set_lib::lemma_len_subset(members@, plan.dom());
                        assert(roomy(members@));
                    }
                    let region = Region { plots: members, plant_type: plant };
                    result.push(region);
                    proof {
                        assert(patches(result@) =~= patches(before).push(patch(plan, coord)));
                        lemma_claimed_push(patches(before), patch(plan, coord));
                        assert forall|q: (isize, isize)| in_region@.contains(q) <==> claimed(
                            patches(result@),
                            q,
                        ) by {
                            assert(in_region@.contains(q) <==> held.contains(q) || q == coord
                                || plots@.contains(q));
                            assert(plots@.contains(q) <==> patch(plan, coord).contains(q));
                            assert(held.contains(q) <==> claimed(patches(before), q));
                            assert(claimed(patches(before).push(patch(plan, coord)), q) <==> claimed(
                                patches(before),
                                q,
                            ) || patch(plan, coord).contains(q));
                        }
                        assert forall|k: int, p: (isize, isize)|
                            0 <= k < result.len() && #[trigger] result[k]@.contains(p) implies plan.contains_key(
                            p,
                        ) && plan[p] == result[k].plant() by {
                            if k < before.len() {
                                assert(result[k] == before[k]);
                                assert(before[k]@.contains(p));
                            }
                        }
                    }
                }
                y += 1;
            }
            x += 1;
        }
        result
    }
}

/// The price of the fence around `plots` by its length.
pub open spec fn price(plots: Set<(isize, isize)>) -> nat {
    plots.len() * fences(plots).len()
}

/// The price of the fence around `plots` by its straight sides.
pub open spec fn reduced_price(plots: Set<(isize, isize)>) -> nat {
    plots.len() * sides(plots)
}

/// The prices of the first `n` regions together.
pub open spec fn total_price(found: Seq<Set<(isize, isize)>>, n: int, reduced: bool) -> nat
    decreases n,
{
    if n <= 0 {
        0
    } else {
        total_price(found, n - 1, reduced) + (if reduced {
            reduced_price(found[n - 1])
        } else {
            price(found[n - 1])
        })
    }
}

/// More regions cost no less.
pub proof fn lemma_total_grows(found: Seq<Set<(isize, isize)>>, n: int, m: int, reduced: bool)
    requires
        0 <= n <= m,
    ensures
        total_price(found, n, reduced) <= total_price(found, m, reduced),
    decreases m,
{
    if n < m {
        lemma_total_grows(found, n, m - 1, reduced);
    }
}

/// The regions of the garden that the lines draw.
pub open spec fn regions_in(lines: Seq<Seq<u8>>) -> Seq<Set<(isize, isize)>> {
    regions_of(plan_of(lines), lines[0].len() as int, lines.len() as int)
}

/// The price of all the fences of the garden that the lines draw; `None`
/// where they draw none, or the price is more than a machine integer holds.
pub open spec fn cost_of(lines: Seq<Seq<u8>>, reduced: bool) -> Option<usize> {
    if readable(lines) && total_price(regions_in(lines), regions_in(lines).len() as int, reduced)
        <= usize::MAX {
        Some(total_price(regions_in(lines), regions_in(lines).len() as int, reduced) as usize)
    } else {
        None
    }
}

/// The prices of `regions` together, if a machine integer holds them.
pub fn sum_costs(regions: &Vec<Region>, reduced: bool) -> (cost: Option<usize>)
    ensures
        cost == (if total_price(patches(regions@), regions.len() as int, reduced) <= usize::MAX {
            Some(total_price(patches(regions@), regions.len() as int, reduced) as usize)
        } else {
            None
        }),
{
    let ghost found = patches(regions@);
    let mut cost: usize = 0;
    let mut i: usize = 0;
    while i < regions.len()
        invariant
            i <= regions.len(),
            found == patches(regions@),
            cost == total_price(found, i as int, reduced),
        decreases regions.len() - i,
    {
        let region = &regions[i];
        assert(found[i as int] == region@);
        proof {
            lemma_total_grows(found, i + 1, regions.len() as int, reduced);
        }
        let one = if reduced {
            region.get_reduced_cost()
        } else {
            region.get_cost()
        };
        match one {
            Some(amount) => match cost.checked_add(amount) {
                Some(sum) => {
                    cost = sum;
                },
                None => {
                    return None;
                },
            },
            None => {
                return None;
            },
        }
        i += 1;
    }
    Some(cost)
}

/// The price by length of all the fences of the garden drawn in `input`.
pub fn _solution1(input: &String) -> (cost: Option<usize>)
    ensures
        cost == cost_of(lines_of(bytes_of(input@)), false),
{
    match Garden::from(input) {
        Some(garden) => sum_costs(&garden.get_regions(), false),
        None => None,
    }
}

/// The price by straight sides of all the fences of the garden drawn in
/// `input`.
pub fn _solution2(input: &String) -> (cost: Option<usize>)
    ensures
        cost == cost_of(lines_of(bytes_of(input@)), true),
{
    match Garden::from(input) {
        Some(garden) => sum_costs(&garden.get_regions(), true),
        None => None,
    }
}

} // verus!
