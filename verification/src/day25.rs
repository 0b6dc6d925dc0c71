//! Locks and keys drawn as columns of `#`: which key fits which lock.

use vstd::prelude::*;
use crate::text::bytes_of;
use crate::text::lines;
use crate::text::lines_of;
use crate::text::rows;
use crate::text::text_bytes;

verus! {

/// How far a key and a lock may reach into each other together.
pub const ROOM: isize = 5;

#[derive(Debug, PartialEq, Eq)]
pub struct Lock {
    pub pin_heights: Vec<isize>,
}

#[derive(Debug, PartialEq, Eq)]
pub struct Key {
    pub tooth_heights: Vec<isize>,
}

/// What the lines read so far belong to.
#[derive(Debug, Clone, Copy, PartialEq, Eq, Structural)]
pub enum ParseStage {
    Lock,
    Key,
    Nothing,
}

/// `heights` with one more for each `#` of `line`; `None` where the line is
/// longer than `heights`, holds something other than `#` and `.`, or a
/// height would be no machine integer.
pub open spec fn combined(line: Seq<u8>, heights: Seq<isize>) -> Option<Seq<isize>> {
    if line.len() <= heights.len() && (forall|i: int|
        0 <= i < line.len() ==> (#[trigger] line[i] == 35 && heights[i] < isize::MAX) || line[i]
            == 46) {
        Some(
            Seq::new(
                heights.len(),
                |i: int|
                    if i < line.len() && line[i] == 35 {
                        (heights[i] + 1) as isize
                    } else {
                        heights[i]
                    },
            ),
        )
    } else {
        None
    }
}

/// Adds one to the height of each column in which `line` has a `#`.
/// Returns whether the line could be read; where not, `heights` may have
/// changed in the columns before the fault.
pub fn combine_heights(line: &[u8], heights: &mut Vec<isize>) -> (ok: bool)
    ensures
        final(heights).len() == old(heights).len(),
        match combined(line@, old(heights)@) {
            Some(raised) => ok && final(heights)@ == raised,
            None => !ok,
        },
{
    if line.len() > heights.len() {
        return false;
    }
    let mut i: usize = 0;
    while i < line.len()
        invariant
            i <= line.len() <= heights.len(),
            heights.len() == old(heights).len(),
            forall|j: int|
                0 <= j < i ==> (#[trigger] line[j] == 35 && old(heights)[j] < isize::MAX) || line[j]
                    == 46,
            forall|j: int|
                0 <= j < i ==> #[trigger] heights[j] == (if line[j] == 35 {
                    (old(heights)[j] + 1) as isize
                } else {
                    old(heights)[j]
                }),
            forall|j: int| i <= j < heights.len() ==> #[trigger] heights[j] == old(heights)[j],
        decreases line.len() - i,
    {
        let c = line[i];
        if c == 35 {
            if heights[i] == isize::MAX {
                assert(!(line[i as int] == 35 && old(heights)[i as int] < isize::MAX));
                return false;
            }
            let raised = heights[i] + 1;
            heights.set(i, raised);
        } else if c != 46 {
            assert(!(line[i as int] == 35) && line[i as int] != 46);
            return false;
        }
        i += 1;
    }
    assert(heights@ =~= combined(line@, old(heights)@).unwrap());
    true
}

/// What has been read: the keys and locks that are complete, the heights of
/// the one that is being read, and what it is.
pub struct Reading {
    pub keys: Seq<Seq<isize>>,
    pub locks: Seq<Seq<isize>>,
    pub current: Seq<isize>,
    pub stage: ParseStage,
}

/// The reading after one more line. A drawing begins with its first line,
/// whose `#` at the front makes it a lock; each later line raises its
/// columns; an empty line ends it.
pub open spec fn read_line(before: Reading, line: Seq<u8>) -> Option<Reading> {
    match before.stage {
        ParseStage::Nothing => if line.len() > 0 && line[0] == 35 {
            Some(
                Reading {
                    current: Seq::new(line.len(), |i: int| 0isize),
                    stage: ParseStage::Lock,
                    ..before
                },
            )
        } else {
            Some(
                Reading {
                    current: Seq::new(line.len(), |i: int| -1isize),
                    stage: ParseStage::Key,
                    ..before
                },
            )
        },
        ParseStage::Key => if line.len() == 0 {
            Some(
                Reading {
                    keys: before.keys.push(before.current),
                    current: Seq::empty(),
                    stage: ParseStage::Nothing,
                    ..before
                },
            )
        } else {
            match combined(line, before.current) {
                Some(raised) => Some(Reading { current: raised, ..before }),
                None => None,
            }
        },
        ParseStage::Lock => if line.len() == 0 {
            Some(
                Reading {
                    locks: before.locks.push(before.current),
                    current: Seq::empty(),
                    stage: ParseStage::Nothing,
                    ..before
                },
            )
        } else {
            match combined(line, before.current) {
                Some(raised) => Some(Reading { current: raised, ..before }),
                None => None,
            }
        },
    }
}

/// The reading after all of `lines`.
pub open spec fn read_lines(lines: Seq<Seq<u8>>) -> Option<Reading>
    decreases lines.len(),
{
    if lines.len() == 0 {
        Some(
            Reading {
                keys: Seq::empty(),
                locks: Seq::empty(),
                current: Seq::empty(),
                stage: ParseStage::Nothing,
            },
        )
    } else {
        match read_lines(lines.drop_last()) {
            Some(before) => read_line(before, lines.last()),
            None => None,
        }
    }
}

/// The keys and the locks that `lines` draw; `None` where a line cannot be
/// read or the last drawing has ended with an empty line.
pub open spec fn drawings_in(lines: Seq<Seq<u8>>) -> Option<(Seq<Seq<isize>>, Seq<Seq<isize>>)> {
    match read_lines(lines) {
        Some(read) => match read.stage {
            ParseStage::Key => Some((read.keys.push(read.current), read.locks)),
            ParseStage::Lock => Some((read.keys, read.locks.push(read.current))),
            ParseStage::Nothing => None,
        },
        None => None,
    }
}

/// The heights of each of `keys`.
pub open spec fn teeth(keys: Seq<Key>) -> Seq<Seq<isize>> {
    Seq::new(keys.len(), |i: int| keys[i].tooth_heights@)
}

/// The heights of each of `locks`.
pub open spec fn pins(locks: Seq<Lock>) -> Seq<Seq<isize>> {
    Seq::new(locks.len(), |i: int| locks[i].pin_heights@)
}

fn filled(len: usize, value: isize) -> (heights: Vec<isize>)
    ensures
        heights@ == Seq::new(len as nat, |i: int| value),
{
    let mut heights: Vec<isize> = Vec::new();
    let mut i: usize = 0;
    while i < len
        invariant
            i <= len,
            heights@ == Seq::new(i as nat, |j: int| value),
        decreases len - i,
    {
        heights.push(value);
        assert(heights@ =~= Seq::new((i + 1) as nat, |j: int| value));
        i += 1;
    }
    heights
}

pub fn parse(input: &String) -> (drawn: Option<(Vec<Key>, Vec<Lock>)>)
    ensures
        match drawn {
            Some((keys, locks)) => drawings_in(lines_of(bytes_of(input@))) == Some(
                (teeth(keys@), pins(locks@)),
            ),
            None => drawings_in(lines_of(bytes_of(input@))).is_none(),
        },
{
    let found = lines(text_bytes(input));
    let mut keys: Vec<Key> = Vec::new();
    let mut locks: Vec<Lock> = Vec::new();
    let mut current: Vec<isize> = Vec::new();
    let mut parse_stage = ParseStage::Nothing;
    let mut ok = true;
    let mut i: usize = 0;
    assert(rows(found@).take(0) =~~= Seq::<Seq<u8>>::empty());
    assert(teeth(keys@) =~~= Seq::<Seq<isize>>::empty());
    assert(pins(locks@) =~~= Seq::<Seq<isize>>::empty());
    assert(current@ =~= Seq::<isize>::empty());
    while i < found.len()
        invariant
            i <= found.len(),
            rows(found@) == lines_of(bytes_of(input@)),
            ok ==> read_lines(rows(found@).take(i as int)) == Some(
                Reading {
                    keys: teeth(keys@),
                    locks: pins(locks@),
                    current: current@,
                    stage: parse_stage,
                },
            ),
            !ok ==> read_lines(rows(found@).take(i as int)).is_none(),
        decreases found.len() - i,
    {
        assert(rows(found@).take(i + 1).drop_last() =~~= rows(found@).take(i as int));
        assert(rows(found@).take(i + 1).last() == found[i as int]@);
        let l = found[i].as_slice();
        if ok {
            match parse_stage {
                ParseStage::Key => {
                    if l.len() == 0 {
                        parse_stage = ParseStage::Nothing;
                        let ghost before = teeth(keys@);
                        let ghost done = current@;
                        keys.push(Key { tooth_heights: current });
                        current = Vec::new();
                        assert(teeth(keys@) =~~= before.push(done));
                        assert(current@ =~= Seq::<isize>::empty());
                    } else {
                        if !combine_heights(l, &mut current) {
                            ok = false;
                        }
                    }
                },
                ParseStage::Lock => {
                    if l.len() == 0 {
                        parse_stage = ParseStage::Nothing;
                        let ghost before = pins(locks@);
                        let ghost done = current@;
                        locks.push(Lock { pin_heights: current });
                        current = Vec::new();
                        assert(pins(locks@) =~~= before.push(done));
                        assert(current@ =~= Seq::<isize>::empty());
                    } else {
                        if !combine_heights(l, &mut current) {
                            ok = false;
                        }
                    }
                },
                ParseStage::Nothing => {
                    if l.len() > 0 && l[0] == 35 {
                        parse_stage = ParseStage::Lock;
                        current = filled(l.len(), 0);
                    } else {
                        parse_stage = ParseStage::Key;
                        current = filled(l.len(), -1);
                    }
                },
            }
        }
        i += 1;
    }
    assert(rows(found@).take(i as int) =~~= rows(found@));
    if !ok {
        return None;
    }
    match parse_stage {
        ParseStage::Key => {
            let ghost before = teeth(keys@);
            let ghost done = current@;
            keys.push(Key { tooth_heights: current });
            assert(teeth(keys@) =~~= before.push(done));
            Some((keys, locks))
        },
        ParseStage::Lock => {
            let ghost before = pins(locks@);
            let ghost done = current@;
            locks.push(Lock { pin_heights: current });
            assert(pins(locks@) =~~= before.push(done));
            Some((keys, locks))
        },
        ParseStage::Nothing => None,
    }
}

/// In every column the tooth and the pin leave each other room.
pub open spec fn fits(key: Seq<isize>, lock: Seq<isize>) -> bool {
    forall|t: int| 0 <= t < key.len() ==> #[trigger] key[t] + lock[t] <= ROOM
}

/// Whether the key fits the lock: `None` where the lock has fewer columns
/// than the key.
pub fn key_fits(key: &Key, lock: &Lock) -> (fit: Option<bool>)
    ensures
        match fit {
            Some(f) => key.tooth_heights.len() <= lock.pin_heights.len() && f == fits(
                key.tooth_heights@,
                lock.pin_heights@,
            ),
            None => key.tooth_heights.len() > lock.pin_heights.len(),
        },
{
    if key.tooth_heights.len() > lock.pin_heights.len() {
        return None;
    }
    let mut fit = true;
    let mut t: usize = 0;
    while t < key.tooth_heights.len()
        invariant
            t <= key.tooth_heights.len() <= lock.pin_heights.len(),
            fit == (forall|k: int|
                0 <= k < t ==> #[trigger] key.tooth_heights[k] + lock.pin_heights[k] <= ROOM),
        decreases key.tooth_heights.len() - t,
    {
        let together: i128 = key.tooth_heights[t] as i128 + lock.pin_heights[t] as i128;
        if together > ROOM as i128 {
            fit = false;
        }
        t += 1;
    }
    Some(fit)
}

/// How many of the first `count` locks the key fits; `None` where one of
/// them has fewer columns than the key.
pub open spec fn fitting_locks(key: Seq<isize>, locks: Seq<Seq<isize>>, count: nat) -> Option<nat>
    decreases count,
{
    if count == 0 || count > locks.len() {
        Some(0)
    } else {
        match fitting_locks(key, locks, (count - 1) as nat) {
            None => None,
            Some(before) => if key.len() > locks[count - 1].len() {
                None
            } else if fits(key, locks[count - 1]) {
                Some(before + 1)
            } else {
                Some(before)
            },
        }
    }
}

/// How many pairs of one of the first `count` keys and a lock fit.
pub open spec fn fitting_pairs(keys: Seq<Seq<isize>>, locks: Seq<Seq<isize>>, count: nat) -> Option<
    nat,
>
    decreases count,
{
    if count == 0 || count > keys.len() {
        Some(0)
    } else {
        match (
            fitting_pairs(keys, locks, (count - 1) as nat),
            fitting_locks(keys[count - 1], locks, locks.len()),
        ) {
            (Some(before), Some(more)) => Some(before + more),
            _ => None,
        }
    }
}

proof fn lemma_fitting_locks_fails(key: Seq<isize>, locks: Seq<Seq<isize>>, count: nat, all: nat)
    requires
        count <= all <= locks.len(),
        fitting_locks(key, locks, count).is_none(),
    ensures
        fitting_locks(key, locks, all).is_none(),
    decreases all,
{
    if all > count {
        lemma_fitting_locks_fails(key, locks, count, (all - 1) as nat);
    }
}

proof fn lemma_fitting_pairs_fails(keys: Seq<Seq<isize>>, locks: Seq<Seq<isize>>, count: nat, all: nat)
    requires
        count <= all <= keys.len(),
        fitting_pairs(keys, locks, count).is_none(),
    ensures
        fitting_pairs(keys, locks, all).is_none(),
    decreases all,
{
    if all > count {
        lemma_fitting_pairs_fails(keys, locks, count, (all - 1) as nat);
    }
}

proof fn lemma_fitting_pairs_grows(keys: Seq<Seq<isize>>, locks: Seq<Seq<isize>>, count: nat, all: nat)
    requires
        count <= all <= keys.len(),
        fitting_pairs(keys, locks, count).is_some(),
    ensures
        match fitting_pairs(keys, locks, all) {
            Some(total) => total >= fitting_pairs(keys, locks, count).unwrap(),
            None => true,
        },
    decreases all,
{
    if all > count {
        lemma_fitting_pairs_grows(keys, locks, count, (all - 1) as nat);
    }
}

/// How many of `locks` the key fits.
pub fn count_fitting_locks(key: &Key, locks: &Vec<Lock>) -> (count: Option<usize>)
    ensures
        match count {
            Some(n) => fitting_locks(key.tooth_heights@, pins(locks@), locks.len() as nat) == Some(
                n as nat,
            ),
            None => fitting_locks(key.tooth_heights@, pins(locks@), locks.len() as nat).is_none(),
        },
{
    let mut count: usize = 0;
    let mut i: usize = 0;
    while i < locks.len()
        invariant
            i <= locks.len(),
            count <= i,
            fitting_locks(key.tooth_heights@, pins(locks@), i as nat) == Some(count as nat),
        decreases locks.len() - i,
    {
        assert(pins(locks@)[i as int] == locks[i as int].pin_heights@);
        match key_fits(key, &locks[i]) {
            None => {
                proof {
                    lemma_fitting_locks_fails(
                        key.tooth_heights@,
                        pins(locks@),
                        (i + 1) as nat,
                        locks.len() as nat,
                    );
                }
                return None;
            },
            Some(fit) => {
                if fit {
                    count += 1;
                }
            },
        }
        i += 1;
    }
    Some(count)
}

/// How many pairs of a key and a lock drawn in `input` fit; `None` where
/// the text cannot be read, a lock has fewer columns than a key, or there
/// are more pairs than can be counted.
pub fn _solution1(input: &String) -> (fit_count: Option<usize>)
    ensures
        match drawings_in(lines_of(bytes_of(input@))) {
            None => fit_count.is_none(),
            Some((keys, locks)) => match fitting_pairs(keys, locks, keys.len()) {
                Some(total) => if total <= usize::MAX {
                    fit_count == Some(total as usize)
                } else {
                    fit_count.is_none()
                },
                None => fit_count.is_none(),
            },
        },
{
    match parse(input) {
        None => None,
        Some((keys, locks)) => {
            let mut fit_count: usize = 0;
            let mut i: usize = 0;
            while i < keys.len()
                invariant
                    i <= keys.len(),
                    drawings_in(lines_of(bytes_of(input@))) == Some((teeth(keys@), pins(locks@))),
                    fitting_pairs(teeth(keys@), pins(locks@), i as nat) == Some(fit_count as nat),
                decreases keys.len() - i,
            {
                assert(teeth(keys@)[i as int] == keys[i as int].tooth_heights@);
                let more = count_fitting_locks(&keys[i], &locks);
                let added = match more {
                    Some(n) => fit_count.checked_add(n),
                    None => None,
                };
                match added {
                    Some(total) => {
                        fit_count = total;
                    },
                    None => {
                        proof {
                            if more.is_none() {
                                lemma_fitting_pairs_fails(
                                    teeth(keys@),
                                    pins(locks@),
                                    (i + 1) as nat,
                                    keys.len() as nat,
                                );
                            } else {
                                lemma_fitting_pairs_grows(
                                    teeth(keys@),
                                    pins(locks@),
                                    (i + 1) as nat,
                                    keys.len() as nat,
                                );
                            }
                        }
                        return None;
                    },
                }
                i += 1;
            }
            Some(fit_count)
        },
    }
}

} // verus!
