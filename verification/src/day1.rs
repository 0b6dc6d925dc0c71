//! Two lists of places: how far apart they are when each is put in order,
//! and how alike they are.

use vstd::prelude::*;
use std::collections::HashMap;
use crate::pattern::regex_pieces;
use crate::pattern::split_at_matches;
use crate::pattern::texts;
use crate::text::bytes_of;
use crate::text::parse_u64;
use crate::text::string_lines;
use crate::text::text_bytes;
use crate::text::text_lines;
use crate::text::unsigned_value;

verus! {

broadcast use vstd::std_specs::hash::group_hash_axioms;

/// The pattern at whose matches a line is cut into its two places.
pub open spec fn gap_pattern() -> Seq<char> {
    r"\s+"@
}

/// The two places that the pieces of a line write in their first two;
/// `None` where there are not two or one of them is no number.
pub open spec fn places_of(pieces: Seq<Seq<char>>) -> Option<(u64, u64)> {
    if pieces.len() < 2 {
        None
    } else {
        match (unsigned_value(bytes_of(pieces[0])), unsigned_value(bytes_of(pieces[1]))) {
            (Some(a), Some(b)) if a <= u64::MAX && b <= u64::MAX => Some((a as u64, b as u64)),
            _ => None,
        }
    }
}

/// The two columns that `lines` write, a place of each on every line.
pub open spec fn columns_in(lines: Seq<Seq<char>>) -> Option<(Seq<u64>, Seq<u64>)>
    decreases lines.len(),
{
    if lines.len() == 0 {
        Some((Seq::empty(), Seq::empty()))
    } else {
        match (columns_in(lines.drop_last()), places_of(regex_pieces(gap_pattern(), lines.last()))) {
            (Some((first, second)), Some((a, b))) => Some((first.push(a), second.push(b))),
            _ => None,
        }
    }
}

/// The two places written in `pieces`.
pub fn places_from_pieces(pieces: &Vec<String>) -> (places: Option<(u64, u64)>)
    ensures
        places == places_of(texts(pieces@)),
{
    if pieces.len() < 2 {
        return None;
    }
    match (parse_u64(text_bytes(&pieces[0])), parse_u64(text_bytes(&pieces[1]))) {
        (Some(a), Some(b)) => Some((a, b)),
        _ => None,
    }
}

/// The two columns written on `lines`.
pub fn _read_columns(lines: &Vec<String>) -> (columns: Option<(Vec<u64>, Vec<u64>)>)
    ensures
        match columns {
            Some((first, second)) => columns_in(texts(lines@)) == Some((first@, second@)),
            None => columns_in(texts(lines@)).is_none(),
        },
{
    let mut col1: Vec<u64> = Vec::new();
    let mut col2: Vec<u64> = Vec::new();
    let mut ok = true;
    let mut i: usize = 0;
    assert(texts(lines@).take(0) =~~= Seq::<Seq<char>>::empty());
    while i < lines.len()
        invariant
            i <= lines.len(),
            ok ==> columns_in(texts(lines@).take(i as int)) == Some((col1@, col2@)),
            !ok ==> columns_in(texts(lines@).take(i as int)).is_none(),
        decreases lines.len() - i,
    {
        assert(texts(lines@).take(i + 1).drop_last() =~~= texts(lines@).take(i as int));
        assert(texts(lines@).take(i + 1).last() == lines[i as int]@);
        let pieces = split_at_matches(r"\s+", lines[i].as_str());
        match places_from_pieces(&pieces) {
            Some((a, b)) => {
                if ok {
                    col1.push(a);
                    col2.push(b);
                }
            },
            None => {
                ok = false;
            },
        }
        i += 1;
    }
    assert(texts(lines@).take(i as int) =~~= texts(lines@));
    if ok {
        Some((col1, col2))
    } else {
        None
    }
}

/// No place of `places` is greater than the one that follows it.
pub open spec fn ascending(places: Seq<u64>) -> bool {
    forall|i: int, j: int| 0 <= i <= j < places.len() ==> places[i] <= places[j]
}

/// Where `place` goes among the ascending `places`: behind the last one
/// that is not greater.
pub open spec fn slot_of(places: Seq<u64>, place: u64, at: nat) -> nat
    decreases at,
{
    if at == 0 || at > places.len() {
        0
    } else if places[at - 1] > place {
        slot_of(places, place, (at - 1) as nat)
    } else {
        at
    }
}

/// `places` put in ascending order.
pub open spec fn in_order(places: Seq<u64>) -> Seq<u64>
    decreases places.len(),
{
    if places.len() == 0 {
        places
    } else {
        let before = in_order(places.drop_last());
        before.insert(slot_of(before, places.last(), before.len()) as int, places.last())
    }
}

/// `places` in ascending order.
pub fn sorted(places: &Vec<u64>) -> (ordered: Vec<u64>)
    ensures
        ordered@ == in_order(places@),
        ascending(ordered@),
        ordered@.to_multiset() == places@.to_multiset(),
{
    let mut ordered: Vec<u64> = Vec::new();
    let mut i: usize = 0;
    assert(places@.take(0) =~= ordered@);
    while i < places.len()
        invariant
            i <= places.len(),
            ordered@ == in_order(places@.take(i as int)),
            ascending(ordered@),
            ordered@.to_multiset() == places@.take(i as int).to_multiset(),
        decreases places.len() - i,
    {
        let place = places[i];
        let ghost before = ordered@;
        let mut at: usize = ordered.len();
        while at > 0 && ordered[at - 1] > place
            invariant
                at <= ordered.len(),
                ordered@ == before,
                slot_of(before, place, at as nat) == slot_of(before, place, before.len()),
                forall|k: int| at <= k < before.len() ==> before[k] > place,
            decreases at,
        {
            at -= 1;
        }
        ordered.insert(at, place);
        proof {
            assert(places@.take(i + 1).drop_last() =~= places@.take(i as int));
            assert(places@.take(i + 1) =~= places@.take(i as int).push(place));
            assert(ordered@ =~= before.insert(at as int, place));
            vstd::seq_lib::to_multiset_insert(before, at as int, place);
            lemma_push_entries(places@.take(i as int), place);
            assert forall|a: int, b: int| 0 <= a <= b < ordered.len() implies ordered[a]
                <= ordered[b] by {
                if a < at && b > at {
                    assert(ordered[a] == before[a]);
                    assert(ordered[b] == before[b - 1]);
                } else if a < at && b < at {
                    assert(ordered[a] == before[a] && ordered[b] == before[b]);
                } else if a > at {
                    assert(ordered[a] == before[a - 1] && ordered[b] == before[b - 1]);
                } else if a == at && b > at {
                    assert(ordered[b] == before[b - 1]);
                } else if b == at && a < at {
                    assert(ordered[a] == before[a]);
                    assert(before[a] <= before[at - 1]);
                }
            }
        }
        i += 1;
    }
    assert(places@.take(i as int) =~= places@);
    ordered
}

proof fn lemma_push_entries(before: Seq<u64>, place: u64)
    ensures
        before.push(place).to_multiset() == before.to_multiset().insert(place),
{
    broadcast use vstd::seq_lib::group_to_multiset_ensures;

}

/// How far two places are apart.
pub open spec fn apart(a: u64, b: u64) -> nat {
    if a < b {
        (b - a) as nat
    } else {
        (a - b) as nat
    }
}

/// The sum of the distances between the first `count` places of `first`
/// and those of `second`, place by place.
pub open spec fn distance_sum(first: Seq<u64>, second: Seq<u64>, count: nat) -> nat
    decreases count,
{
    if count == 0 || count > first.len() || count > second.len() {
        0
    } else {
        distance_sum(first, second, (count - 1) as nat) + apart(first[count - 1], second[count - 1])
    }
}

proof fn lemma_distance_sum_grows(first: Seq<u64>, second: Seq<u64>, count: nat, all: nat)
    requires
        count <= all <= first.len(),
        all <= second.len(),
    ensures
        distance_sum(first, second, count) <= distance_sum(first, second, all),
    decreases all,
{
    if all > count {
        lemma_distance_sum_grows(first, second, count, (all - 1) as nat);
    }
}

/// The shorter of two lengths.
pub open spec fn shorter(a: nat, b: nat) -> nat {
    if a <= b {
        a
    } else {
        b
    }
}

/// The sum of the distances between the places of the two columns, each
/// column put in order and the columns read side by side as far as the
/// shorter one reaches; `None` where the sum does not fit 64 bits.
pub fn total_distance(col1: &Vec<u64>, col2: &Vec<u64>) -> (sum: Option<u64>)
    ensures
        match sum {
            Some(total) => total == distance_sum(
                in_order(col1@),
                in_order(col2@),
                shorter(col1@.len(), col2@.len()),
            ),
            None => distance_sum(
                in_order(col1@),
                in_order(col2@),
                shorter(col1@.len(), col2@.len()),
            ) > u64::MAX,
        },
{
    let first = sorted(col1);
    let second = sorted(col2);
    proof {
        first@.to_multiset_ensures();
        second@.to_multiset_ensures();
        col1@.to_multiset_ensures();
        col2@.to_multiset_ensures();
    }
    let n = if first.len() <= second.len() {
        first.len()
    } else {
        second.len()
    };
    let mut result: u64 = 0;
    let mut i: usize = 0;
    while i < n
        invariant
            i <= n,
            n == shorter(col1@.len(), col2@.len()),
            n <= first.len(),
            n <= second.len(),
            first@ == in_order(col1@),
            second@ == in_order(col2@),
            result == distance_sum(first@, second@, i as nat),
        decreases n - i,
    {
        let gap = if first[i] < second[i] {
            second[i] - first[i]
        } else {
            first[i] - second[i]
        };
        match result.checked_add(gap) {
            Some(total) => {
                result = total;
            },
            None => {
                proof {
                    lemma_distance_sum_grows(first@, second@, (i + 1) as nat, n as nat);
                }
                return None;
            },
        }
        i += 1;
    }
    Some(result)
}

/// How often `place` stands among `places`.
pub open spec fn occurrences(places: Seq<u64>, place: u64) -> nat
    decreases places.len(),
{
    if places.len() == 0 {
        0
    } else {
        occurrences(places.drop_last(), place) + (if places.last() == place {
            1nat
        } else {
            0nat
        })
    }
}

proof fn lemma_occurrences_bound(places: Seq<u64>, place: u64)
    ensures
        occurrences(places, place) <= places.len(),
    decreases places.len(),
{
    if places.len() > 0 {
        lemma_occurrences_bound(places.drop_last(), place);
    }
}

/// A place times the number of times it was seen.
pub open spec fn weight(place: u64, times: nat) -> nat {
    (place * times) as nat
}

/// The sum, over the first `count` places of `first`, of the place times
/// how often it stands in `second`.
pub open spec fn similarity(first: Seq<u64>, second: Seq<u64>, count: nat) -> nat
    decreases count,
{
    if count == 0 || count > first.len() {
        0
    } else {
        similarity(first, second, (count - 1) as nat) + weight(
            first[count - 1],
            occurrences(second, first[count - 1]),
        )
    }
}

proof fn lemma_similarity_grows(first: Seq<u64>, second: Seq<u64>, count: nat, all: nat)
    requires
        count <= all <= first.len(),
    ensures
        similarity(first, second, count) <= similarity(first, second, all),
    decreases all,
{
    if all > count {
        lemma_similarity_grows(first, second, count, (all - 1) as nat);
    }
}

/// How often each place stands in `places`.
pub fn count_places(places: &Vec<u64>) -> (counts: HashMap<u64, u64>)
    requires
        places.len() <= u64::MAX,
    ensures
        forall|place: u64|
            #[trigger] counts@.contains_key(place) <==> occurrences(places@, place) > 0,
        forall|place: u64|
            #[trigger] counts@.contains_key(place) ==> counts@[place] == occurrences(
                places@,
                place,
            ),
{
    let mut counts: HashMap<u64, u64> = HashMap::new();
    let mut i: usize = 0;
    assert(places@.take(0) =~= Seq::<u64>::empty());
    while i < places.len()
        invariant
            i <= places.len() <= u64::MAX,
            forall|place: u64|
                #[trigger] counts@.contains_key(place) <==> occurrences(
                    places@.take(i as int),
                    place,
                ) > 0,
            forall|place: u64|
                #[trigger] counts@.contains_key(place) ==> counts@[place] == occurrences(
                    places@.take(i as int),
                    place,
                ),
        decreases places.len() - i,
    {
        let loc = places[i];
        proof {
            assert(places@.take(i + 1).drop_last() =~= places@.take(i as int));
            lemma_occurrences_bound(places@.take(i as int), loc);
        }
        let so_far: u64 = match counts.get(&loc) {
            Some(n) => *n,
            None => 0,
        };
        counts.insert(loc, so_far + 1);
        i += 1;
    }
    assert(places@.take(i as int) =~= places@);
    counts
}

/// The sum, over the places of the first column, of the place times how
/// often it stands in the second; `None` where the sum does not fit 64
/// bits.
pub fn similarity_score(col1: &Vec<u64>, col2: &Vec<u64>) -> (sum: Option<u64>)
    ensures
        match sum {
            Some(total) => total == similarity(col1@, col2@, col1@.len()),
            None => similarity(col1@, col2@, col1@.len()) > u64::MAX,
        },
{
    if col2.len() as u128 > u64::MAX as u128 {
        return None;
    }
    let col2_counts = count_places(col2);
    let mut result: u64 = 0;
    let mut i: usize = 0;
    while i < col1.len()
        invariant
            i <= col1.len(),
            forall|place: u64|
                #[trigger] col2_counts@.contains_key(place) <==> occurrences(col2@, place) > 0,
            forall|place: u64|
                #[trigger] col2_counts@.contains_key(place) ==> col2_counts@[place] == occurrences(
                    col2@,
                    place,
                ),
            result == similarity(col1@, col2@, i as nat),
        decreases col1.len() - i,
    {
        let loc = col1[i];
        let multiplier: u64 = match col2_counts.get(&loc) {
            Some(n) => *n,
            None => 0,
        };
        assert(multiplier == occurrences(col2@, loc));
        let added = match loc.checked_mul(multiplier) {
            Some(product) => result.checked_add(product),
            None => None,
        };
        match added {
            Some(total) => {
                result = total;
            },
            None => {
                proof {
                    lemma_similarity_grows(col1@, col2@, (i + 1) as nat, col1@.len());
                }
                return None;
            },
        }
        i += 1;
    }
    Some(result)
}

/// What `result_from_file` returns for a text with the lines `lines`.
pub open spec fn distance_of(lines: Seq<Seq<char>>) -> Option<u64> {
    match columns_in(lines) {
        Some((first, second)) => {
            let sum = distance_sum(
                in_order(first),
                in_order(second),
                shorter(first.len(), second.len()),
            );
            if sum <= u64::MAX {
                Some(sum as u64)
            } else {
                None
            }
        },
        None => None,
    }
}

/// What `compute_similarity_score` returns for a text with the lines
/// `lines`.
pub open spec fn similarity_of(lines: Seq<Seq<char>>) -> Option<u64> {
    match columns_in(lines) {
        Some((first, second)) => {
            let sum = similarity(first, second, first.len());
            if sum <= u64::MAX {
                Some(sum as u64)
            } else {
                None
            }
        },
        None => None,
    }
}

/// How far the two columns written in `input` are apart.
pub fn result_from_file(input: &String) -> (sum: Option<u64>)
    ensures
        exists|lines: Seq<Seq<char>>| #[trigger]
            text_lines(input@, lines) && sum == distance_of(lines),
{
    let found = string_lines(input.as_str());
    assert(text_lines(input@, texts(found@)));
    match _read_columns(&found) {
        Some((col1, col2)) => total_distance(&col1, &col2),
        None => None,
    }
}

/// How alike the two columns written in `input` are.
pub fn compute_similarity_score(input: &String) -> (sum: Option<u64>)
    ensures
        exists|lines: Seq<Seq<char>>| #[trigger]
            text_lines(input@, lines) && sum == similarity_of(lines),
{
    let found = string_lines(input.as_str());
    assert(text_lines(input@, texts(found@)));
    match _read_columns(&found) {
        Some((col1, col2)) => similarity_score(&col1, &col2),
        None => None,
    }
}

} // verus!
