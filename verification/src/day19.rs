//! Towels and the designs laid out with them.

use vstd::prelude::*;
use vstd::slice::slice_subrange;
use vstd::slice::slice_to_vec;
use rustc_hash::FxHashSet;
use crate::tally::byte_strings;
use crate::tally::strings_all;
use crate::tally::strings_contains;
use crate::tally::strings_insert;
use crate::tally::strings_new;
use crate::tally::strings_of;
use crate::text::ascii;
use crate::text::bytes_of;
use crate::text::find;
use crate::text::first_occurrence;
use crate::text::lines;
use crate::text::lines_of;
use crate::text::literal;
use crate::text::rows;
use crate::text::text_bytes;

verus! {

/// Every pair of one text of `a` and one of `b`, each pair followed by the
/// same two the other way round: the pairs of the first text of `a` first.
pub open spec fn combinations(a: Seq<Seq<char>>, b: Seq<Seq<char>>) -> Seq<
    (Seq<char>, Seq<char>),
> {
    Seq::new(
        2 * a.len() * b.len(),
        |k: int|
            if b.len() == 0 {
                (Seq::empty(), Seq::empty())
            } else if k % 2 == 0 {
                (a[(k / 2) / (b.len() as int)], b[(k / 2) % (b.len() as int)])
            } else {
                (b[(k / 2) % (b.len() as int)], a[(k / 2) / (b.len() as int)])
            },
    )
}

/// The texts of each pair of `pairs`.
pub open spec fn pair_texts(pairs: Seq<(String, String)>) -> Seq<(Seq<char>, Seq<char>)> {
    Seq::new(pairs.len(), |i: int| (pairs[i].0@, pairs[i].1@))
}

pub fn get_all_combinations(a: &Vec<String>, b: &Vec<String>) -> (pairs: Vec<(String, String)>)
    ensures
        pair_texts(pairs@) == combinations(
            crate::pattern::texts(a@),
            crate::pattern::texts(b@),
        ),
{
    let ghost at = crate::pattern::texts(a@);
    let ghost bt = crate::pattern::texts(b@);
    let ghost want = combinations(at, bt);
    let mut result: Vec<(String, String)> = Vec::new();
    let mut i: usize = 0;
    while i < a.len()
        invariant
            i <= a.len(),
            at == crate::pattern::texts(a@),
            bt == crate::pattern::texts(b@),
            want == combinations(at, bt),
            result.len() == 2 * i * b.len(),
            result.len() <= want.len(),
            forall|k: int| 0 <= k < result.len() ==> #[trigger] pair_texts(result@)[k] == want[k],
        decreases a.len() - i,
    {
        let mut j: usize = 0;
        while j < b.len()
            invariant
                i < a.len(),
                j <= b.len(),
                at == crate::pattern::texts(a@),
                bt == crate::pattern::texts(b@),
                want == combinations(at, bt),
                result.len() == 2 * i * b.len() + 2 * j,
                result.len() <= want.len(),
                forall|k: int|
                    0 <= k < result.len() ==> #[trigger] pair_texts(result@)[k] == want[k],
            decreases b.len() - j,
        {
            let ghost n = b.len() as int;
            let ghost base = 2 * i * n + 2 * j;
            proof {
                assert(i * n + j < a.len() * n) by (nonlinear_arith)
                    requires
                        0 <= i < a.len(),
                        0 <= j < n,
                ;
                assert(2 * i * n == 2 * (i * n)) by (nonlinear_arith);
                assert(2 * a.len() * b.len() == 2 * (a.len() * n)) by (nonlinear_arith)
                    requires
                        n == b.len(),
                ;
                assert((i * n + j) / n == i && (i * n + j) % n == j) by (nonlinear_arith)
                    requires
                        0 <= j < n,
                        0 <= i,
                ;
                assert(base / 2 == i * n + j);
                assert((base + 1) / 2 == i * n + j);
            }
            let ghost before = result@;
            result.push((a[i].clone(), b[j].clone()));
            result.push((b[j].clone(), a[i].clone()));
            proof {
                assert(base + 1 < want.len());
                assert forall|k: int| 0 <= k < base implies #[trigger] pair_texts(result@)[k]
                    == want[k] by {
                    assert(result@[k] == before[k]);
                    assert(pair_texts(before)[k] == want[k]);
                }
                assert(pair_texts(result@)[base] == (at[i as int], bt[j as int]));
                assert(pair_texts(result@)[base + 1] == (bt[j as int], at[i as int]));
                assert(want[base] == (at[i as int], bt[j as int]));
                assert(want[base + 1] == (bt[j as int], at[i as int]));
                assert(2 * i * n + 2 * (j + 1) == base + 2);
            }
            j += 1;
        }
        proof {
            assert(2 * i * b.len() + 2 * b.len() == 2 * (i + 1) * b.len()) by (nonlinear_arith);
            assert(2 * (i + 1) * b.len() <= 2 * a.len() * b.len()) by (nonlinear_arith)
                requires
                    i + 1 <= a.len(),
            ;
        }
        i += 1;
    }
    assert(pair_texts(result@) =~~= want);
    result
}


/// What stands between one towel and the next.
pub open spec fn towel_sep() -> Seq<u8> {
    ascii(", "@)
}

/// The pieces of `line` between occurrences of `, `, from left to right.
pub open spec fn towels_on(line: Seq<u8>) -> Set<Seq<u8>>
    decreases line.len(),
{
    match first_occurrence(line, towel_sep()) {
        Some(at) if 0 <= at && at + 2 <= line.len() => towels_on(line.skip(at + 2)).insert(
            line.take(at),
        ),
        _ => set![line],
    }
}

/// The towels written on the first line of the text; `None` where it has no
/// line.
pub open spec fn towels_in(lines: Seq<Seq<u8>>) -> Option<Set<Seq<u8>>> {
    if lines.len() == 0 {
        None
    } else {
        Some(towels_on(lines[0]))
    }
}

fn towels_from_line(line: &[u8]) -> (towels: FxHashSet<Vec<u8>>)
    ensures
        byte_strings(towels) == towels_on(line@),
{
    proof {
        reveal_strlit(", ");
    }
    let sep = literal(", ");
    let mut towels = strings_new();
    let mut from: usize = 0;
    let ghost mut collected: Set<Seq<u8>> = Set::empty();
    proof {
        assert(line@.skip(0) =~= line@);
        assert(towels_on(line@) =~= towels_on(line@.skip(0)).union(collected));
    }
    loop
        invariant
            from <= line.len(),
            sep@ == towel_sep(),
            sep@.len() == 2,
            byte_strings(towels) == collected,
            towels_on(line@) == towels_on(line@.skip(from as int)).union(collected),
        decreases line.len() - from,
    {
        let end = line.len();
        let rest = slice_subrange(line, from, end);
        assert(rest@ =~= line@.skip(from as int));
        match find(rest, sep) {
            Some(at) => {
                let piece = slice_to_vec(slice_subrange(rest, 0, at));
                assert(piece@ =~= rest@.take(at as int));
                strings_insert(&mut towels, piece);
                proof {
                    assert(rest@.skip(at + 2) =~= line@.skip(from + at + 2));
                    assert(towels_on(rest@) == towels_on(rest@.skip(at + 2)).insert(
                        rest@.take(at as int),
                    ));
                    assert(towels_on(line@) =~= towels_on(line@.skip(from + at + 2)).union(
                        collected.insert(rest@.take(at as int)),
                    ));
                    collected = collected.insert(rest@.take(at as int));
                }
                from = from + at + 2;
            },
            None => {
                let piece = slice_to_vec(rest);
                strings_insert(&mut towels, piece);
                proof {
                    assert(towels_on(rest@) == set![rest@]);
                    assert(towels_on(line@) =~= collected.insert(rest@));
                }
                return towels;
            },
        }
    }
}

/// The towels written on the first line of `input`.
pub fn parse_towels(input: &String) -> (towels: Option<FxHashSet<Vec<u8>>>)
    ensures
        match towels {
            Some(found) => towels_in(lines_of(bytes_of(input@))) == Some(byte_strings(found)),
            None => towels_in(lines_of(bytes_of(input@))).is_none(),
        },
{
    let found = lines(text_bytes(input));
    if found.len() == 0 {
        return None;
    }
    assert(rows(found@)[0] == found[0]@);
    Some(towels_from_line(found[0].as_slice()))
}

/// The designs among `lines`: the lines from the third on.
pub open spec fn designs_in(lines: Seq<Seq<u8>>) -> Seq<Seq<u8>> {
    if lines.len() >= 2 {
        lines.skip(2)
    } else {
        Seq::empty()
    }
}

/// The designs written in the text: its lines from the third on.
pub fn parse_designs(input: &String) -> (designs: Vec<Vec<u8>>)
    ensures
        strings_of(designs@) == designs_in(lines_of(bytes_of(input@))),
{
    let found = lines(text_bytes(input));
    let mut designs: Vec<Vec<u8>> = Vec::new();
    let mut i: usize = 2;
    if found.len() < 2 {
        assert(strings_of(designs@) =~~= Seq::<Seq<u8>>::empty());
        return designs;
    }
    assert(strings_of(designs@) =~~= rows(found@).subrange(2, 2));
    while i < found.len()
        invariant
            2 <= i <= found.len(),
            strings_of(designs@) == rows(found@).subrange(2, i as int),
        decreases found.len() - i,
    {
        let ghost before = strings_of(designs@);
        let design = slice_to_vec(found[i].as_slice());
        assert(design@ == found[i as int]@);
        designs.push(design);
        assert(strings_of(designs@) =~~= before.push(found[i as int]@));
        assert(rows(found@).subrange(2, i + 1) =~~= rows(found@).subrange(2, i as int).push(
            found[i as int]@,
        ));
        i += 1;
    }
    assert(rows(found@).subrange(2, i as int) =~~= rows(found@).skip(2));
    designs
}

/// The lesser of two numbers.
pub open spec fn lesser(a: int, b: int) -> int {
    if a <= b {
        a
    } else {
        b
    }
}

/// `design` can be laid out with towels of `towels` of `max_len` bytes at
/// most, its last `i` bytes or fewer being the last towel.
pub open spec fn ends_with_towel(towels: Set<Seq<u8>>, design: Seq<u8>, max_len: int, i: int) -> bool
    decreases design.len(), 0nat, i,
{
    if i <= 0 || i > design.len() || i > max_len {
        false
    } else {
        (towels.contains(design.skip(design.len() - i)) && can_lay(
            towels,
            design.take(design.len() - i),
            max_len,
        )) || ends_with_towel(towels, design, max_len, i - 1)
    }
}

/// `design` can be laid out with towels of `towels` of `max_len` bytes at
/// most, one after another. (No towel of a layout is longer than the design,
/// so the bound can shrink with the design.)
pub open spec fn can_lay(towels: Set<Seq<u8>>, design: Seq<u8>, max_len: int) -> bool
    decreases design.len(), 1nat, 0nat,
{
    design.len() == 0 || ends_with_towel(
        towels,
        design,
        lesser(design.len() as int, max_len),
        lesser(design.len() as int, max_len),
    )
}

/// In how many ways `design` can be laid out with towels of `towels` of
/// `max_len` bytes at most, the last towel having `i` bytes or fewer.
pub open spec fn ways_ending(towels: Set<Seq<u8>>, design: Seq<u8>, max_len: int, i: int) -> nat
    decreases design.len(), 0nat, i,
{
    if i <= 0 || i > design.len() || i > max_len {
        0
    } else {
        (if towels.contains(design.skip(design.len() - i)) {
            ways(towels, design.take(design.len() - i), max_len)
        } else {
            0
        }) + ways_ending(towels, design, max_len, i - 1)
    }
}

/// In how many ways `design` can be laid out with towels of `towels` of
/// `max_len` bytes at most.
pub open spec fn ways(towels: Set<Seq<u8>>, design: Seq<u8>, max_len: int) -> nat
    decreases design.len(), 1nat, 0nat,
{
    if design.len() == 0 {
        1
    } else {
        ways_ending(
            towels,
            design,
            lesser(design.len() as int, max_len),
            lesser(design.len() as int, max_len),
        )
    }
}

/// Whether `design` can be laid out with towels of `max_len` bytes at most.
pub fn can_build(towels: &FxHashSet<Vec<u8>>, design: &[u8], max_len: usize) -> (possible: bool)
    ensures
        possible == can_lay(byte_strings(*towels), design@, max_len as int),
    decreases design@.len(),
{
    if design.len() == 0 {
        return true;
    }
    let bound = if design.len() < max_len {
        design.len()
    } else {
        max_len
    };
    let n = design.len();
    let ghost set = byte_strings(*towels);
    assert(can_lay(set, design@, max_len as int) == ends_with_towel(
        set,
        design@,
        bound as int,
        bound as int,
    ));
    let mut i: usize = bound;
    while i >= 1
        invariant
            i <= bound <= n,
            n == design.len(),
            n > 0,
            set == byte_strings(*towels),
            can_lay(set, design@, max_len as int) == ends_with_towel(
                set,
                design@,
                bound as int,
                bound as int,
            ),
            ends_with_towel(set, design@, bound as int, bound as int) == ends_with_towel(
                set,
                design@,
                bound as int,
                i as int,
            ),
        decreases i,
    {
        let tail = slice_subrange(design, n - i, n);
        assert(tail@ =~= design@.skip(n - i));
        let ghost rest = ends_with_towel(set, design@, bound as int, i - 1);
        assert(ends_with_towel(set, design@, bound as int, i as int) == ((set.contains(
            design@.skip(n - i),
        ) && can_lay(set, design@.take(n - i), bound as int)) || rest));
        if strings_contains(towels, tail) {
            let head = slice_subrange(design, 0, n - i);
            assert(head@ =~= design@.take(n - i));
            if can_build(towels, head, bound) {
                return true;
            }
        }
        i -= 1;
    }
    assert(!ends_with_towel(set, design@, bound as int, 0));
    false
}

/// In how many ways `design` can be laid out with towels of `max_len`
/// bytes at most; `None` where they are more than machine integers count.
pub fn count_combos(towels: &FxHashSet<Vec<u8>>, design: &[u8], max_len: usize) -> (count: Option<
    isize,
>)
    ensures
        match count {
            Some(n) => n == ways(byte_strings(*towels), design@, max_len as int),
            None => ways(byte_strings(*towels), design@, max_len as int) > isize::MAX,
        },
    decreases design@.len(),
{
    if design.len() == 0 {
        return Some(1);
    }
    let bound = if design.len() < max_len {
        design.len()
    } else {
        max_len
    };
    let n = design.len();
    let ghost set = byte_strings(*towels);
    let ghost total = ways(set, design@, max_len as int);
    assert(total == ways_ending(set, design@, bound as int, bound as int));
    let mut count: isize = 0;
    let mut i: usize = bound;
    while i >= 1
        invariant
            i <= bound <= n,
            n == design.len(),
            n > 0,
            count >= 0,
            set == byte_strings(*towels),
            total == ways(set, design@, max_len as int),
            total == count + ways_ending(set, design@, bound as int, i as int),
        decreases i,
    {
        let tail = slice_subrange(design, n - i, n);
        assert(tail@ =~= design@.skip(n - i));
        let ghost rest = ways_ending(set, design@, bound as int, i - 1);
        assert(ways_ending(set, design@, bound as int, i as int) == (if set.contains(
            design@.skip(n - i),
        ) {
            ways(set, design@.take(n - i), bound as int)
        } else {
            0
        }) + rest);
        if strings_contains(towels, tail) {
            let next_des = slice_subrange(design, 0, n - i);
            assert(next_des@ =~= design@.take(n - i));
            match count_combos(towels, next_des, bound) {
                None => {
                    assert(total > isize::MAX);
                    return None;
                },
                Some(more) => match count.checked_add(more) {
                    None => {
                        assert(total > isize::MAX);
                        return None;
                    },
                    Some(sum) => {
                        count = sum;
                    },
                },
            }
        }
        i -= 1;
    }
    assert(ways_ending(set, design@, bound as int, 0) == 0);
    Some(count)
}

/// The greatest length of a towel of the set.
pub fn longest_towel(towels: &FxHashSet<Vec<u8>>) -> (max_len: usize)
    ensures
        forall|towel: Seq<u8>| byte_strings(*towels).contains(towel) ==> towel.len() <= max_len,
        max_len == 0 || exists|towel: Seq<u8>|
            byte_strings(*towels).contains(towel) && #[trigger] towel.len() == max_len,
        is_longest(byte_strings(*towels), max_len as int),
{
    let all = strings_all(towels);
    let mut max_len: usize = 0;
    let mut i: usize = 0;
    while i < all.len()
        invariant
            i <= all.len(),
            strings_of(all@).to_set() == byte_strings(*towels),
            forall|k: int| 0 <= k < i ==> (#[trigger] all[k]).len() <= max_len,
            max_len == 0 || exists|k: int| 0 <= k < i && (#[trigger] all[k]).len() == max_len,
        decreases all.len() - i,
    {
        if all[i].len() > max_len {
            max_len = all[i].len();
        }
        i += 1;
    }
    proof {
        assert forall|towel: Seq<u8>| byte_strings(*towels).contains(towel) implies towel.len()
            <= max_len by {
            assert(strings_of(all@).contains(towel));
            let k = choose|k: int| 0 <= k < strings_of(all@).len() && strings_of(all@)[k] == towel;
            assert(all[k].len() <= max_len);
        }
        if max_len != 0 {
            let k = choose|k: int| 0 <= k < i && (#[trigger] all[k]).len() == max_len;
            assert(strings_of(all@)[k] == all[k]@);
            assert(strings_of(all@).contains(all[k]@));
            assert(byte_strings(*towels).contains(all[k]@));
        }
    }
    max_len
}

/// How many of the first `count` of `designs` can be laid out.
pub open spec fn possible_upto(towels: Set<Seq<u8>>, designs: Seq<Seq<u8>>, count: nat, max_len: int) -> nat
    decreases count,
{
    if count == 0 || count > designs.len() {
        0
    } else {
        possible_upto(towels, designs, (count - 1) as nat, max_len) + (if can_lay(
            towels,
            designs[count - 1],
            max_len,
        ) {
            1nat
        } else {
            0nat
        })
    }
}

proof fn lemma_possible_bound(towels: Set<Seq<u8>>, designs: Seq<Seq<u8>>, count: nat, max_len: int)
    ensures
        possible_upto(towels, designs, count, max_len) <= count,
    decreases count,
{
    if count > 0 && count <= designs.len() {
        lemma_possible_bound(towels, designs, (count - 1) as nat, max_len);
    }
}

/// `max_len` is the length of the longest towel of `towels`, or 0 where
/// there is no towel longer than nothing.
pub open spec fn is_longest(towels: Set<Seq<u8>>, max_len: int) -> bool {
    &&& forall|towel: Seq<u8>| towels.contains(towel) ==> towel.len() <= max_len
    &&& max_len == 0 || exists|towel: Seq<u8>|
        towels.contains(towel) && #[trigger] towel.len() == max_len
}

/// `count` of the designs of `lines` can be laid out with the towels of
/// `lines`.
pub open spec fn is_possible_count(lines: Seq<Seq<u8>>, count: int) -> bool {
    exists|max_len: int|
        {
            &&& #[trigger] is_longest(towels_in(lines).unwrap(), max_len)
            &&& possible_upto(
                towels_in(lines).unwrap(),
                designs_in(lines),
                designs_in(lines).len(),
                max_len,
            ) == count
        }
}

/// How many of the designs of `input` can be laid out with its towels;
/// `None` where the text has no line.
pub fn _solution1(input: &String) -> (num_possible: Option<usize>)
    ensures
        match towels_in(lines_of(bytes_of(input@))) {
            None => num_possible.is_none(),
            Some(towels) => num_possible.is_some() && is_possible_count(
                lines_of(bytes_of(input@)),
                num_possible.unwrap() as int,
            ),
        },
{
    match parse_towels(input) {
        None => None,
        Some(towels) => {
            let designs = parse_designs(input);
            let max_len = longest_towel(&towels);
            let ghost set = byte_strings(towels);
            let mut num_possible: usize = 0;
            let mut i: usize = 0;
            while i < designs.len()
                invariant
                    i <= designs.len(),
                    set == byte_strings(towels),
                    num_possible == possible_upto(
                        set,
                        strings_of(designs@),
                        i as nat,
                        max_len as int,
                    ),
                decreases designs.len() - i,
            {
                proof {
                    lemma_possible_bound(set, strings_of(designs@), i as nat, max_len as int);
                    assert(strings_of(designs@)[i as int] == designs[i as int]@);
                }
                if can_build(&towels, designs[i].as_slice(), max_len) {
                    num_possible += 1;
                }
                i += 1;
            }
            proof {
                let text = lines_of(bytes_of(input@));
                assert(towels_in(text).unwrap() == set);
                assert(strings_of(designs@) == designs_in(text));
                assert(is_longest(set, max_len as int));
                assert(is_possible_count(text, num_possible as int));
            }
            Some(num_possible)
        },
    }
}


/// A towel that lies across the middle of a design: where it begins, and
/// how long it is.
pub struct Crossing {
    pub base: int,
    pub len: int,
}

/// The towels among the first `count` of `all` that lie in `design` from
/// `base` on and reach beyond the middle, being `min_len` long at least.
/// `None` where such a towel is longer than what is left of the design.
pub open spec fn crossing_at(
    all: Seq<Seq<u8>>,
    count: nat,
    design: Seq<u8>,
    base: int,
    min_len: int,
) -> Option<Seq<Crossing>>
    decreases count,
{
    if count == 0 || count > all.len() {
        Some(Seq::empty())
    } else {
        let towel = all[count - 1];
        match crossing_at(all, (count - 1) as nat, design, base, min_len) {
            None => None,
            Some(before) => if towel.len() < min_len {
                Some(before)
            } else if base + towel.len() > design.len() {
                None
            } else if design.subrange(base, base + towel.len()) == towel {
                Some(before.push(Crossing { base, len: towel.len() as int }))
            } else {
                Some(before)
            },
        }
    }
}

/// The towels of `all` that lie across the middle `midpt` of `design` and
/// begin fewer than `steps` bytes before it, those that begin nearest
/// first.
pub open spec fn crossings(
    all: Seq<Seq<u8>>,
    design: Seq<u8>,
    midpt: int,
    steps: nat,
) -> Option<Seq<Crossing>>
    decreases steps,
{
    if steps <= 1 {
        Some(Seq::empty())
    } else {
        let i = steps - 1;
        match (
            crossings(all, design, midpt, (steps - 1) as nat),
            crossing_at(all, all.len(), design, midpt - i, i + 1),
        ) {
            (Some(before), Some(more)) => Some(before + more),
            _ => None,
        }
    }
}

/// The sum, over the first `count` of `found`, of the ways to lay out what
/// lies before the towel times the ways to lay out what lies behind it.
pub open spec fn crossing_ways(
    towels: Set<Seq<u8>>,
    design: Seq<u8>,
    found: Seq<Crossing>,
    count: nat,
    max_len: int,
) -> nat
    decreases count,
{
    if count == 0 || count > found.len() {
        0
    } else {
        let c = found[count - 1];
        crossing_ways(towels, design, found, (count - 1) as nat, max_len) + ways(
            towels,
            design.take(c.base),
            max_len,
        ) * ways(towels, design.skip(c.base + c.len), max_len)
    }
}

/// Every count that goes into the sum over the first `count` of `found`
/// is one that a machine integer holds.
pub open spec fn crossing_counts_fit(
    towels: Set<Seq<u8>>,
    design: Seq<u8>,
    found: Seq<Crossing>,
    count: nat,
    max_len: int,
) -> bool
    decreases count,
{
    if count == 0 || count > found.len() {
        true
    } else {
        let c = found[count - 1];
        &&& crossing_counts_fit(towels, design, found, (count - 1) as nat, max_len)
        &&& ways(towels, design.take(c.base), max_len) <= isize::MAX
        &&& ways(towels, design.skip(c.base + c.len), max_len) <= isize::MAX
    }
}

/// The ways to lay out `design` counted by halves: the ways to lay out the
/// one half times the ways to lay out the other, and for every towel of
/// `all` across the middle the ways to lay out what lies before it times
/// the ways to lay out what lies behind it. `None` where a towel reaches
/// beyond the end of the design, or one of these counts or the sum is more
/// than a machine integer holds.
pub open spec fn split_count(towels: Set<Seq<u8>>, all: Seq<Seq<u8>>, design: Seq<u8>, biggest: int) -> Option<
    isize,
> {
    let midpt = design.len() as int / 2;
    let max_len = lesser(biggest, midpt + 1);
    match crossings(
        all,
        design,
        midpt,
        (if max_len < 0 {
            0
        } else {
            max_len
        }) as nat,
    ) {
        None => None,
        Some(found) => {
            let left = ways(towels, design.take(midpt), max_len);
            let right = ways(towels, design.skip(midpt), max_len);
            let total = left * right + crossing_ways(towels, design, found, found.len(), max_len);
            if left <= isize::MAX && right <= isize::MAX && crossing_counts_fit(
                towels,
                design,
                found,
                found.len(),
                max_len,
            ) && total <= isize::MAX {
                Some(total as isize)
            } else {
                None
            }
        },
    }
}

/// Once a towel reaches beyond the design, more steps do not mend it.
pub proof fn lemma_crossings_fails(all: Seq<Seq<u8>>, design: Seq<u8>, midpt: int, steps: nat, more: nat)
    requires
        steps <= more,
        crossings(all, design, midpt, steps).is_none(),
    ensures
        crossings(all, design, midpt, more).is_none(),
    decreases more,
{
    if steps < more {
        lemma_crossings_fails(all, design, midpt, steps, (more - 1) as nat);
    }
}

/// More crossings make the sum no smaller.
pub proof fn lemma_crossing_ways_grows(
    towels: Set<Seq<u8>>,
    design: Seq<u8>,
    found: Seq<Crossing>,
    count: nat,
    more: nat,
    max_len: int,
)
    requires
        count <= more <= found.len(),
    ensures
        crossing_ways(towels, design, found, count, max_len) <= crossing_ways(
            towels,
            design,
            found,
            more,
            max_len,
        ),
    decreases more,
{
    if count < more {
        lemma_crossing_ways_grows(towels, design, found, count, (more - 1) as nat, max_len);
    }
}

/// Once a count does not fit, more crossings do not mend it.
pub proof fn lemma_counts_fit_fails(
    towels: Set<Seq<u8>>,
    design: Seq<u8>,
    found: Seq<Crossing>,
    count: nat,
    more: nat,
    max_len: int,
)
    requires
        count <= more <= found.len(),
        !crossing_counts_fit(towels, design, found, count, max_len),
    ensures
        !crossing_counts_fit(towels, design, found, more, max_len),
    decreases more,
{
    if count < more {
        lemma_counts_fit_fails(towels, design, found, count, (more - 1) as nat, max_len);
    }
}

fn gather_at(
    all: &Vec<Vec<u8>>,
    design: &[u8],
    base: usize,
    min_len: usize,
    found: &mut Vec<(usize, usize)>,
) -> (ok: bool)
    requires
        base <= design.len(),
    ensures
        match crossing_at(strings_of(all@), all@.len(), design@, base as int, min_len as int) {
            Some(more) => ok && pairs(final(found)@) == pairs(old(found)@) + more,
            None => !ok,
        },
{
    let ghost texts = strings_of(all@);
    let ghost start = pairs(found@);
    let mut k: usize = 0;
    assert(pairs(found@) =~= start + Seq::<Crossing>::empty());
    while k < all.len()
        invariant
            k <= all.len(),
            base <= design.len(),
            texts == strings_of(all@),
            start == pairs(old(found)@),
            crossing_at(texts, k as nat, design@, base as int, min_len as int).is_some(),
            pairs(found@) == start + crossing_at(
                texts,
                k as nat,
                design@,
                base as int,
                min_len as int,
            ).unwrap(),
        decreases all.len() - k,
    {
        let t = &all[k];
        assert(texts[k as int] == t@);
        if t.len() >= min_len {
            if t.len() > design.len() - base {
                proof {
                    lemma_crossing_fails(
                        texts,
                        (k + 1) as nat,
                        all@.len(),
                        design@,
                        base as int,
                        min_len as int,
                    );
                }
                return false;
            }
            let piece = slice_subrange(design, base, base + t.len());
            if crate::text::equal(piece, t.as_slice()) {
                let ghost before = pairs(found@);
                found.push((base, t.len()));
                assert(pairs(found@) =~= before.push(
                    Crossing { base: base as int, len: t.len() as int },
                ));
            }
        }
        assert(pairs(found@) =~= start + crossing_at(
            texts,
            (k + 1) as nat,
            design@,
            base as int,
            min_len as int,
        ).unwrap());
        k += 1;
    }
    true
}

proof fn lemma_crossing_fails(
    all: Seq<Seq<u8>>,
    count: nat,
    total: nat,
    design: Seq<u8>,
    base: int,
    min_len: int,
)
    requires
        count <= total <= all.len(),
        crossing_at(all, count, design, base, min_len).is_none(),
    ensures
        crossing_at(all, total, design, base, min_len).is_none(),
    decreases total,
{
    if total > count {
        lemma_crossing_fails(all, count, (total - 1) as nat, design, base, min_len);
    }
}

/// The crossings that `found` holds.
pub open spec fn pairs(found: Seq<(usize, usize)>) -> Seq<Crossing> {
    Seq::new(found.len(), |i: int| Crossing { base: found[i].0 as int, len: found[i].1 as int })
}

/// `all` holds each towel of `towels` once.
pub open spec fn lists(all: Seq<Seq<u8>>, towels: Set<Seq<u8>>) -> bool {
    all.no_duplicates() && all.to_set() == towels
}

/// In how many ways `design` can be laid out, counted by halves, the
/// towels being taken in the order in which the set hands them out.
pub fn count_design_combos(towels: &FxHashSet<Vec<u8>>, design: &[u8], biggest_towel_len: usize) -> (count:
    Option<isize>)
    ensures
        exists|all: Seq<Seq<u8>>|
            {
                &&& #[trigger] lists(all, byte_strings(*towels))
                &&& count == split_count(byte_strings(*towels), all, design@, biggest_towel_len as int)
            },
{
    let all = strings_all(towels);
    let count = count_with(towels, &all, design, biggest_towel_len);
    proof {
        assert(lists(strings_of(all@), byte_strings(*towels)));
    }
    count
}

/// In how many ways `design` can be laid out, counted by halves, the
/// towels being taken in the order of `all`.
pub fn count_with(
    towels: &FxHashSet<Vec<u8>>,
    all: &Vec<Vec<u8>>,
    design: &[u8],
    biggest_towel_len: usize,
) -> (count: Option<isize>)
    requires
        lists(strings_of(all@), byte_strings(*towels)),
    ensures
        count == split_count(byte_strings(*towels), strings_of(all@), design@, biggest_towel_len as int),
{
    let midpt = design.len() / 2;
    let max_towel_len = if biggest_towel_len < midpt + 1 {
        biggest_towel_len
    } else {
        midpt + 1
    };
    let ghost texts = strings_of(all@);
    let ghost set = byte_strings(*towels);
    let ghost max_len = max_towel_len as int;
    assert(lesser(biggest_towel_len as int, midpt + 1) == max_towel_len);
    let mut found: Vec<(usize, usize)> = Vec::new();
    let mut i: usize = 1;
    assert(pairs(found@) =~= Seq::<Crossing>::empty());
    while i < max_towel_len
        invariant
            1 <= i,
            max_towel_len >= 1 ==> i <= max_towel_len,
            max_towel_len <= midpt + 1,
            midpt == design.len() / 2,
            lesser(biggest_towel_len as int, midpt + 1) == max_towel_len,
            texts == strings_of(all@),
            crossings(texts, design@, midpt as int, i as nat) == Some(pairs(found@)),
            max_towel_len == 0 ==> found.len() == 0,
            forall|k: int|
                0 <= k < found.len() ==> (#[trigger] found[k]).0 + found[k].1 <= design.len(),
        decreases max_towel_len - i,
    {
        let base_idx = midpt - i;
        let min_len = i + 1;
        let ghost before = found@;
        if !gather_at(all, design, base_idx, min_len, &mut found) {
            proof {
                assert(crossings(texts, design@, midpt as int, (i + 1) as nat).is_none());
                lemma_crossings_fails(texts, design@, midpt as int, (i + 1) as nat, max_towel_len as nat);
            }
            return None;
        }
        proof {
            assert forall|k: int| 0 <= k < found.len() implies (#[trigger] found[k]).0
                + found[k].1 <= design.len() by {
                if k >= before.len() {
                    let more = crossing_at(
                        texts,
                        all@.len(),
                        design@,
                        base_idx as int,
                        min_len as int,
                    ).unwrap();
                    assert(pairs(found@) == pairs(before) + more);
                    assert(pairs(before).len() == before.len());
                    assert(pairs(found@).len() == found@.len());
                    assert(pairs(found@)[k] == more[k - before.len()]);
                    lemma_crossing_fits(
                        texts,
                        all@.len(),
                        design@,
                        base_idx as int,
                        min_len as int,
                        k - before.len(),
                    );
                } else {
                    assert(pairs(found@)[k] == pairs(before)[k]);
                }
            }
        }
        i += 1;
    }
    let ghost crossed = pairs(found@);
    proof {
        assert(crossings(texts, design@, midpt as int, max_towel_len as nat) == Some(crossed)) by {
            if max_towel_len == 0 {
                assert(crossings(texts, design@, midpt as int, 0) == Some(Seq::<Crossing>::empty()));
                assert(crossed =~= Seq::<Crossing>::empty());
            }
        }
        assert(design@.subrange(0, midpt as int) =~= design@.take(midpt as int));
        assert(design@.subrange(midpt as int, design@.len() as int) =~= design@.skip(midpt as int));
    }
    let ghost left_ways = ways(set, design@.take(midpt as int), max_len);
    let ghost right_ways = ways(set, design@.skip(midpt as int), max_len);
    let ghost all_crossing = crossing_ways(set, design@, crossed, crossed.len(), max_len);
    let left = count_combos(towels, slice_subrange(design, 0, midpt), max_towel_len);
    let right = count_combos(
        towels,
        slice_subrange(design, midpt, design.len()),
        max_towel_len,
    );
    let mut sum: isize = match (left, right) {
        (Some(l), Some(r)) => {
            assert(l * r >= 0) by (nonlinear_arith)
                requires
                    l >= 0,
                    r >= 0,
            ;
            match l.checked_mul(r) {
                Some(product) => product,
                None => {
                    return None;
                },
            }
        },
        _ => {
            return None;
        },
    };
    let mut k: usize = 0;
    while k < found.len()
        invariant
            k <= found.len(),
            set == byte_strings(*towels),
            crossed == pairs(found@),
            max_len == max_towel_len,
            midpt == design.len() / 2,
            lesser(biggest_towel_len as int, midpt + 1) == max_towel_len,
            texts == strings_of(all@),
            crossings(texts, design@, midpt as int, max_towel_len as nat) == Some(crossed),
            left_ways == ways(set, design@.take(midpt as int), max_len),
            right_ways == ways(set, design@.skip(midpt as int), max_len),
            left_ways <= isize::MAX,
            right_ways <= isize::MAX,
            forall|j: int|
                0 <= j < found.len() ==> (#[trigger] found[j]).0 + found[j].1 <= design.len(),
            crossing_counts_fit(set, design@, crossed, k as nat, max_len),
            sum == left_ways * right_ways + crossing_ways(set, design@, crossed, k as nat, max_len),
        decreases found.len() - k,
    {
        let (base, len) = found[k];
        assert(found[k as int].0 + found[k as int].1 <= design.len());
        let before = count_combos(towels, slice_subrange(design, 0, base), max_towel_len);
        let after = count_combos(
            towels,
            slice_subrange(design, base + len, design.len()),
            max_towel_len,
        );
        proof {
            assert(design@.subrange(0, base as int) =~= design@.take(base as int));
            assert(design@.subrange(base + len, design@.len() as int) =~= design@.skip(
                base + len,
            ));
            assert(crossed[k as int] == Crossing { base: base as int, len: len as int });
            assert(crossed.len() == found.len());
            lemma_crossing_ways_grows(set, design@, crossed, (k + 1) as nat, crossed.len(), max_len);
            if !crossing_counts_fit(set, design@, crossed, (k + 1) as nat, max_len) {
                lemma_counts_fit_fails(set, design@, crossed, (k + 1) as nat, crossed.len(), max_len);
            }
        }
        let product = match (before, after) {
            (Some(b), Some(a)) => {
                assert(b * a >= 0) by (nonlinear_arith)
                    requires
                        b >= 0,
                        a >= 0,
                ;
                b.checked_mul(a)
            },
            _ => {
                return None;
            },
        };
        let total = match product {
            Some(p) => sum.checked_add(p),
            None => {
                return None;
            },
        };
        match total {
            Some(t) => {
                sum = t;
            },
            None => {
                return None;
            },
        }
        k += 1;
    }
    Some(sum)
}

/// A towel that `crossing_at` finds does not reach beyond the design.
proof fn lemma_crossing_fits(
    all: Seq<Seq<u8>>,
    count: nat,
    design: Seq<u8>,
    base: int,
    min_len: int,
    at: int,
)
    requires
        count <= all.len(),
        0 <= base,
        crossing_at(all, count, design, base, min_len).is_some(),
        0 <= at < crossing_at(all, count, design, base, min_len).unwrap().len(),
    ensures
        crossing_at(all, count, design, base, min_len).unwrap()[at].base == base,
        base + crossing_at(all, count, design, base, min_len).unwrap()[at].len <= design.len(),
        crossing_at(all, count, design, base, min_len).unwrap()[at].len >= 0,
    decreases count,
{
    if count > 0 {
        let before = crossing_at(all, (count - 1) as nat, design, base, min_len).unwrap();
        if at < before.len() {
            lemma_crossing_fits(all, (count - 1) as nat, design, base, min_len, at);
        }
    }
}


/// The sum of the ways, counted by halves, to lay out the first `count` of
/// `designs`; `None` where one of them has no such count, or the sum is more
/// than a machine integer holds.
pub open spec fn all_count(
    towels: Set<Seq<u8>>,
    all: Seq<Seq<u8>>,
    designs: Seq<Seq<u8>>,
    count: nat,
    biggest: int,
) -> Option<isize>
    decreases count,
{
    if count == 0 || count > designs.len() {
        Some(0)
    } else {
        match (
            all_count(towels, all, designs, (count - 1) as nat, biggest),
            split_count(towels, all, designs[count - 1], biggest),
        ) {
            (Some(before), Some(more)) if before + more <= isize::MAX => Some((before + more) as isize),
            _ => None,
        }
    }
}

/// Once a design has no count, more designs do not mend it.
pub proof fn lemma_all_count_fails(
    towels: Set<Seq<u8>>,
    all: Seq<Seq<u8>>,
    designs: Seq<Seq<u8>>,
    count: nat,
    more: nat,
    biggest: int,
)
    requires
        count <= more <= designs.len(),
        all_count(towels, all, designs, count, biggest).is_none(),
    ensures
        all_count(towels, all, designs, more, biggest).is_none(),
    decreases more,
{
    if count < more {
        lemma_all_count_fails(towels, all, designs, count, (more - 1) as nat, biggest);
    }
}

/// `total` is the number of ways to lay out the designs of `lines` with
/// the towels of `lines`, counted by halves, a towel being as long as the
/// text at most and the towels taken in some order, each once. It is
/// nothing where the text has no line, or a design has no such count, or
/// the sum is more than a machine integer holds.
pub open spec fn is_ways_total(lines: Seq<Seq<u8>>, text_len: int, total: Option<isize>) -> bool {
    match towels_in(lines) {
        None => total.is_none(),
        Some(towels) => exists|all: Seq<Seq<u8>>, longest: int|
            {
                &&& #[trigger] lists(all, towels)
                &&& #[trigger] is_longest(towels, longest)
                &&& total == all_count(
                    towels,
                    all,
                    designs_in(lines),
                    designs_in(lines).len(),
                    lesser(longest, text_len),
                )
            },
    }
}

/// In how many ways the designs of `input` can be laid out with its
/// towels, all designs together.
pub fn _solution2(input: &String) -> (total: Option<isize>)
    ensures
        is_ways_total(lines_of(bytes_of(input@)), bytes_of(input@).len() as int, total),
{
    match parse_towels(input) {
        None => None,
        Some(towels) => {
            let designs = parse_designs(input);
            let longest = longest_towel(&towels);
            let text_len = text_bytes(input).len();
            let max_towel_len = if longest < text_len {
                longest
            } else {
                text_len
            };
            let all = strings_all(&towels);
            let ghost set = byte_strings(towels);
            let ghost text = lines_of(bytes_of(input@));
            let mut sum: isize = 0;
            let mut i: usize = 0;
            proof {
                assert(towels_in(text) == Some(set));
                assert(strings_of(designs@) == designs_in(text));
                assert(lists(strings_of(all@), set));
                assert(is_longest(set, longest as int));
                assert(lesser(longest as int, text_len as int) == max_towel_len);
            }
            while i < designs.len()
                invariant
                    i <= designs.len(),
                    sum >= 0,
                    set == byte_strings(towels),
                    text == lines_of(bytes_of(input@)),
                    text_len == bytes_of(input@).len(),
                    towels_in(text) == Some(set),
                    strings_of(designs@) == designs_in(text),
                    lists(strings_of(all@), set),
                    is_longest(set, longest as int),
                    lesser(longest as int, text_len as int) == max_towel_len,
                    all_count(
                        set,
                        strings_of(all@),
                        strings_of(designs@),
                        i as nat,
                        max_towel_len as int,
                    ) == Some(sum),
                decreases designs.len() - i,
            {
                assert(strings_of(designs@)[i as int] == designs[i as int]@);
                proof {
                    if all_count(
                        set,
                        strings_of(all@),
                        strings_of(designs@),
                        (i + 1) as nat,
                        max_towel_len as int,
                    ).is_none() {
                        lemma_all_count_fails(
                            set,
                            strings_of(all@),
                            strings_of(designs@),
                            (i + 1) as nat,
                            designs@.len(),
                            max_towel_len as int,
                        );
                    }
                }
                let added = match count_with(&towels, &all, designs[i].as_slice(), max_towel_len) {
                    Some(more) => sum.checked_add(more),
                    None => None,
                };
                match added {
                    Some(t) => {
                        sum = t;
                    },
                    None => {
                        return None;
                    },
                }
                i += 1;
            }
            Some(sum)
        },
    }
}

} // verus!
