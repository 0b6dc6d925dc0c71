//! Places on a grid, as pairs of a column and a row.

use vstd::prelude::*;

verus! {

/// Whether `place` is among `places`.
pub fn contains_place(places: &Vec<(isize, isize)>, place: (isize, isize)) -> (found: bool)
    ensures
        found == places@.contains(place),
{
    let mut i: usize = 0;
    while i < places.len()
        invariant
            i <= places.len(),
            forall|j: int| 0 <= j < i ==> places[j] != place,
        decreases places.len() - i,
    {
        if places[i].0 == place.0 && places[i].1 == place.1 {
            return true;
        }
        i += 1;
    }
    false
}

/// The places of `places`, each once, in the order in which they first
/// appear.
pub fn distinct(places: &Vec<(isize, isize)>) -> (once: Vec<(isize, isize)>)
    ensures
        once@.no_duplicates(),
        once@.to_set() == places@.to_set(),
        once.len() == places@.to_set().len(),
{
    let mut once: Vec<(isize, isize)> = Vec::new();
    let mut i: usize = 0;
    while i < places.len()
        invariant
            i <= places.len(),
            once@.no_duplicates(),
            forall|p: (isize, isize)| once@.contains(p) <==> places@.take(i as int).contains(p),
        decreases places.len() - i,
    {
        let place = places[i];
        let ghost before = once@;
        let ghost seen = places@.take(i as int);
        let known = contains_place(&once, place);
        if !known {
            once.push(place);
        }
        proof {
            let now = places@.take(i + 1);
            assert(now =~= seen.push(place));
            assert forall|p: (isize, isize)| once@.contains(p) <==> now.contains(p) by {
                if before.contains(p) {
                    let at = choose|at: int| 0 <= at < before.len() && before[at] == p;
                    assert(once@[at] == p);
                }
                if seen.contains(p) {
                    let at = choose|at: int| 0 <= at < seen.len() && seen[at] == p;
                    assert(now[at] == p);
                }
                if p == place {
                    assert(now[i as int] == p);
                    if !known {
                        assert(once@[before.len() as int] == p);
                    }
                }
                if once@.contains(p) && p != place {
                    let at = choose|at: int| 0 <= at < once@.len() && once@[at] == p;
                    assert(before[at] == p);
                }
                if now.contains(p) && p != place {
                    let at = choose|at: int| 0 <= at < now.len() && now[at] == p;
                    assert(seen[at] == p);
                }
            }
        }
        i += 1;
    }
    proof {
        assert(places@.take(i as int) =~= places@);
        assert(once@.to_set() =~= places@.to_set());
        once@.unique_seq_to_set();
    }
    once
}

} // verus!
