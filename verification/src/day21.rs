//! Keypads, the keys on them, the moves of the arm that presses them, and
//! the fewest presses that get a code typed through a row of robots.

use vstd::prelude::*;
use vstd::string::StringExecFns;
use rustc_hash::FxHashMap;
use crate::tally::byte_table;
use crate::tally::table_get;
use crate::tally::table_keep;
use crate::tally::table_new;
use crate::text::bytes_of;
use crate::text::text_bytes;

verus! {

#[derive(Debug, Clone, Copy, Hash, Eq, PartialEq, Structural)]
pub enum Key {
    A,
    Zero,
    One,
    Two,
    Three,
    Four,
    Five,
    Six,
    Seven,
    Eight,
    Nine,
    Up,
    Down,
    Left,
    Right,
}

#[derive(Debug, Hash, Eq, Clone, Copy, PartialEq, Structural)]
pub enum ArmOp {
    Up,
    Down,
    Left,
    Right,
    Press,
}

/// A sequence of moves and the depth at which it is to be typed.
#[derive(Hash, Eq, PartialEq, Debug, Clone)]
pub struct ContenderKey(pub Vec<ArmOp>, pub isize);

/// The key of a directional keypad that asks for `op`.
pub open spec fn key_for(op: ArmOp) -> Key {
    match op {
        ArmOp::Up => Key::Up,
        ArmOp::Down => Key::Down,
        ArmOp::Left => Key::Left,
        ArmOp::Right => Key::Right,
        ArmOp::Press => Key::A,
    }
}

pub fn op_to_key(op: &ArmOp) -> (key: Key)
    ensures
        key == key_for(*op),
{
    match op {
        ArmOp::Up => Key::Up,
        ArmOp::Down => Key::Down,
        ArmOp::Left => Key::Left,
        ArmOp::Right => Key::Right,
        ArmOp::Press => Key::A,
    }
}

/// The digit that a key of the numeric keypad shows.
pub open spec fn digit_of(key: Key) -> Option<int> {
    match key {
        Key::Zero => Some(0),
        Key::One => Some(1),
        Key::Two => Some(2),
        Key::Three => Some(3),
        Key::Four => Some(4),
        Key::Five => Some(5),
        Key::Six => Some(6),
        Key::Seven => Some(7),
        Key::Eight => Some(8),
        Key::Nine => Some(9),
        _ => None,
    }
}

/// The key that a byte of a code names: a digit or `A`.
pub open spec fn key_of(byte: u8) -> Option<Key> {
    if byte == 48 {
        Some(Key::Zero)
    } else if byte == 49 {
        Some(Key::One)
    } else if byte == 50 {
        Some(Key::Two)
    } else if byte == 51 {
        Some(Key::Three)
    } else if byte == 52 {
        Some(Key::Four)
    } else if byte == 53 {
        Some(Key::Five)
    } else if byte == 54 {
        Some(Key::Six)
    } else if byte == 55 {
        Some(Key::Seven)
    } else if byte == 56 {
        Some(Key::Eight)
    } else if byte == 57 {
        Some(Key::Nine)
    } else if byte == 65 {
        Some(Key::A)
    } else {
        None
    }
}

fn key_from_byte(byte: u8) -> (key: Option<Key>)
    ensures
        key == key_of(byte),
{
    if byte == 48 {
        Some(Key::Zero)
    } else if byte == 49 {
        Some(Key::One)
    } else if byte == 50 {
        Some(Key::Two)
    } else if byte == 51 {
        Some(Key::Three)
    } else if byte == 52 {
        Some(Key::Four)
    } else if byte == 53 {
        Some(Key::Five)
    } else if byte == 54 {
        Some(Key::Six)
    } else if byte == 55 {
        Some(Key::Seven)
    } else if byte == 56 {
        Some(Key::Eight)
    } else if byte == 57 {
        Some(Key::Nine)
    } else if byte == 65 {
        Some(Key::A)
    } else {
        None
    }
}

/// The keys that `code` names, one for each of its characters; `None` where
/// a character is neither a digit nor `A`.
pub fn parse_keys(code: &String) -> (keys: Option<Vec<Key>>)
    ensures
        match keys {
            Some(named) => {
                &&& named.len() == bytes_of(code@).len()
                &&& forall|i: int|
                    0 <= i < named.len() ==> key_of(bytes_of(code@)[i]) == Some(#[trigger] named[i])
            },
            None => exists|i: int|
                0 <= i < bytes_of(code@).len() && key_of(#[trigger] bytes_of(code@)[i]).is_none(),
        },
{
    let bytes = text_bytes(code);
    let mut result: Vec<Key> = Vec::new();
    let mut i: usize = 0;
    while i < bytes.len()
        invariant
            i <= bytes.len(),
            bytes@ == bytes_of(code@),
            result.len() == i,
            forall|j: int| 0 <= j < i ==> key_of(bytes[j]) == Some(#[trigger] result[j]),
        decreases bytes.len() - i,
    {
        match key_from_byte(bytes[i]) {
            Some(k) => result.push(k),
            None => {
                assert(key_of(bytes_of(code@)[i as int]).is_none());
                return None;
            },
        }
        i += 1;
    }
    Some(result)
}

/// The number that the first three keys of a code write.
pub fn numeric_complexity_component(code: &Vec<Key>) -> (number: isize)
    requires
        code.len() >= 3,
        digit_of(code[0]).is_some(),
        digit_of(code[1]).is_some(),
        digit_of(code[2]).is_some(),
    ensures
        number == 100 * digit_of(code[0]).unwrap() + 10 * digit_of(code[1]).unwrap() + digit_of(
            code[2],
        ).unwrap(),
{
    let mut mult: isize = 100;
    let mut result: isize = 0;
    let mut i: usize = 0;
    while i < 3
        invariant
            i <= 3,
            code.len() >= 3,
            digit_of(code[0]).is_some(),
            digit_of(code[1]).is_some(),
            digit_of(code[2]).is_some(),
            mult == (if i == 0 {
                100isize
            } else if i == 1 {
                10isize
            } else if i == 2 {
                1isize
            } else {
                0isize
            }),
            result == (if i == 0 {
                0
            } else if i == 1 {
                100 * digit_of(code[0]).unwrap()
            } else if i == 2 {
                100 * digit_of(code[0]).unwrap() + 10 * digit_of(code[1]).unwrap()
            } else {
                100 * digit_of(code[0]).unwrap() + 10 * digit_of(code[1]).unwrap() + digit_of(
                    code[2],
                ).unwrap()
            }),
        decreases 3 - i,
    {
        let factor: isize = match code[i] {
            Key::Zero => 0,
            Key::One => 1,
            Key::Two => 2,
            Key::Three => 3,
            Key::Four => 4,
            Key::Five => 5,
            Key::Six => 6,
            Key::Seven => 7,
            Key::Eight => 8,
            Key::Nine => 9,
            _ => 0,
        };
        result += mult * factor;
        mult = mult / 10;
        i += 1;
    }
    result
}

/// The sign that stands for `op`.
pub open spec fn sign_of(op: ArmOp) -> char {
    match op {
        ArmOp::Up => '^',
        ArmOp::Down => 'v',
        ArmOp::Left => '<',
        ArmOp::Right => '>',
        ArmOp::Press => 'A',
    }
}

/// The moves `ops` as a text, a sign for each.
pub fn render_one(ops: &Vec<ArmOp>) -> (text: String)
    ensures
        text@ == ops@.map_values(|op: ArmOp| sign_of(op)),
{
    let mut result = String::new();
    let mut i: usize = 0;
    proof {
        reveal_strlit("^");
        reveal_strlit("v");
        reveal_strlit("<");
        reveal_strlit(">");
        reveal_strlit("A");
    }
    while i < ops.len()
        invariant
            i <= ops.len(),
            "^"@ == seq!['^'],
            "v"@ == seq!['v'],
            "<"@ == seq!['<'],
            ">"@ == seq!['>'],
            "A"@ == seq!['A'],
            result@ == ops@.take(i as int).map_values(|op: ArmOp| sign_of(op)),
        decreases ops.len() - i,
    {
        let sign = match ops[i] {
            ArmOp::Up => "^",
            ArmOp::Down => "v",
            ArmOp::Left => "<",
            ArmOp::Right => ">",
            ArmOp::Press => "A",
        };
        result.append(sign);
        assert(result@ =~= ops@.take(i + 1).map_values(|op: ArmOp| sign_of(op)));
        i += 1;
    }
    assert(ops@.take(i as int) =~= ops@);
    result
}

/// Where `op` takes the arm from `key` on the numeric keypad:
///
/// ```text
/// 7 8 9
/// 4 5 6
/// 1 2 3
///   0 A
/// ```
pub open spec fn numeric_link(key: Key, op: ArmOp) -> Option<Key> {
    match (key, op) {
        (Key::A, ArmOp::Up) => Some(Key::Three),
        (Key::A, ArmOp::Left) => Some(Key::Zero),
        (Key::Zero, ArmOp::Up) => Some(Key::Two),
        (Key::Zero, ArmOp::Right) => Some(Key::A),
        (Key::One, ArmOp::Up) => Some(Key::Four),
        (Key::One, ArmOp::Right) => Some(Key::Two),
        (Key::Two, ArmOp::Up) => Some(Key::Five),
        (Key::Two, ArmOp::Left) => Some(Key::One),
        (Key::Two, ArmOp::Right) => Some(Key::Three),
        (Key::Two, ArmOp::Down) => Some(Key::Zero),
        (Key::Three, ArmOp::Up) => Some(Key::Six),
        (Key::Three, ArmOp::Left) => Some(Key::Two),
        (Key::Three, ArmOp::Down) => Some(Key::A),
        (Key::Four, ArmOp::Up) => Some(Key::Seven),
        (Key::Four, ArmOp::Down) => Some(Key::One),
        (Key::Four, ArmOp::Right) => Some(Key::Five),
        (Key::Five, ArmOp::Up) => Some(Key::Eight),
        (Key::Five, ArmOp::Down) => Some(Key::Two),
        (Key::Five, ArmOp::Left) => Some(Key::Four),
        (Key::Five, ArmOp::Right) => Some(Key::Six),
        (Key::Six, ArmOp::Up) => Some(Key::Nine),
        (Key::Six, ArmOp::Down) => Some(Key::Three),
        (Key::Six, ArmOp::Left) => Some(Key::Five),
        (Key::Seven, ArmOp::Down) => Some(Key::Four),
        (Key::Seven, ArmOp::Right) => Some(Key::Eight),
        (Key::Eight, ArmOp::Down) => Some(Key::Five),
        (Key::Eight, ArmOp::Left) => Some(Key::Seven),
        (Key::Eight, ArmOp::Right) => Some(Key::Nine),
        (Key::Nine, ArmOp::Down) => Some(Key::Six),
        (Key::Nine, ArmOp::Left) => Some(Key::Eight),
        _ => None,
    }
}

/// Where `op` takes the arm from `key` on the directional keypad:
///
/// ```text
///   ^ A
/// < v >
/// ```
pub open spec fn directional_link(key: Key, op: ArmOp) -> Option<Key> {
    match (key, op) {
        (Key::A, ArmOp::Left) => Some(Key::Up),
        (Key::A, ArmOp::Down) => Some(Key::Right),
        (Key::Up, ArmOp::Down) => Some(Key::Down),
        (Key::Up, ArmOp::Right) => Some(Key::A),
        (Key::Right, ArmOp::Left) => Some(Key::Down),
        (Key::Right, ArmOp::Up) => Some(Key::A),
        (Key::Down, ArmOp::Left) => Some(Key::Left),
        (Key::Down, ArmOp::Right) => Some(Key::Right),
        (Key::Down, ArmOp::Up) => Some(Key::Up),
        (Key::Left, ArmOp::Right) => Some(Key::Down),
        _ => None,
    }
}

/// A keypad: the numeric one, or the directional one.
pub struct Keypad {
    pub numeric: bool,
}

impl Keypad {
    /// Whether this is the numeric keypad.
    pub open spec fn numeric(&self) -> bool {
        self.numeric
    }

    /// Where `op` takes the arm from `key`, if anywhere.
    pub open spec fn next(&self, key: Key, op: ArmOp) -> Option<Key> {
        if self.numeric() {
            numeric_link(key, op)
        } else {
            directional_link(key, op)
        }
    }

    pub fn is_numeric(&self) -> (numeric: bool)
        ensures
            numeric == self.numeric(),
    {
        self.numeric
    }

    pub fn create_numeric() -> (keypad: Keypad)
        ensures
            keypad.numeric(),
    {
        Keypad { numeric: true }
    }

    pub fn create_directional() -> (keypad: Keypad)
        ensures
            !keypad.numeric(),
    {
        Keypad { numeric: false }
    }

    /// Where `op` takes the arm from `key`, if anywhere.
    pub fn link(&self, key: Key, op: ArmOp) -> (to: Option<Key>)
        ensures
            to == self.next(key, op),
    {
        if self.numeric {
            match (key, op) {
                (Key::A, ArmOp::Up) => Some(Key::Three),
                (Key::A, ArmOp::Left) => Some(Key::Zero),
                (Key::Zero, ArmOp::Up) => Some(Key::Two),
                (Key::Zero, ArmOp::Right) => Some(Key::A),
                (Key::One, ArmOp::Up) => Some(Key::Four),
                (Key::One, ArmOp::Right) => Some(Key::Two),
                (Key::Two, ArmOp::Up) => Some(Key::Five),
                (Key::Two, ArmOp::Left) => Some(Key::One),
                (Key::Two, ArmOp::Right) => Some(Key::Three),
                (Key::Two, ArmOp::Down) => Some(Key::Zero),
                (Key::Three, ArmOp::Up) => Some(Key::Six),
                (Key::Three, ArmOp::Left) => Some(Key::Two),
                (Key::Three, ArmOp::Down) => Some(Key::A),
                (Key::Four, ArmOp::Up) => Some(Key::Seven),
                (Key::Four, ArmOp::Down) => Some(Key::One),
                (Key::Four, ArmOp::Right) => Some(Key::Five),
                (Key::Five, ArmOp::Up) => Some(Key::Eight),
                (Key::Five, ArmOp::Down) => Some(Key::Two),
                (Key::Five, ArmOp::Left) => Some(Key::Four),
                (Key::Five, ArmOp::Right) => Some(Key::Six),
                (Key::Six, ArmOp::Up) => Some(Key::Nine),
                (Key::Six, ArmOp::Down) => Some(Key::Three),
                (Key::Six, ArmOp::Left) => Some(Key::Five),
                (Key::Seven, ArmOp::Down) => Some(Key::Four),
                (Key::Seven, ArmOp::Right) => Some(Key::Eight),
                (Key::Eight, ArmOp::Down) => Some(Key::Five),
                (Key::Eight, ArmOp::Left) => Some(Key::Seven),
                (Key::Eight, ArmOp::Right) => Some(Key::Nine),
                (Key::Nine, ArmOp::Down) => Some(Key::Six),
                (Key::Nine, ArmOp::Left) => Some(Key::Eight),
                _ => None,
            }
        } else {
            match (key, op) {
                (Key::A, ArmOp::Left) => Some(Key::Up),
                (Key::A, ArmOp::Down) => Some(Key::Right),
                (Key::Up, ArmOp::Down) => Some(Key::Down),
                (Key::Up, ArmOp::Right) => Some(Key::A),
                (Key::Right, ArmOp::Left) => Some(Key::Down),
                (Key::Right, ArmOp::Up) => Some(Key::A),
                (Key::Down, ArmOp::Left) => Some(Key::Left),
                (Key::Down, ArmOp::Right) => Some(Key::Right),
                (Key::Down, ArmOp::Up) => Some(Key::Up),
                (Key::Left, ArmOp::Right) => Some(Key::Down),
                _ => None,
            }
        }
    }
}

/// The longest way that is looked for between two keys.
pub const MAX_WALK: usize = 5;

/// The moves in the order in which they are tried from a key.
pub open spec fn walk_op(j: int) -> ArmOp {
    if j == 0 {
        ArmOp::Up
    } else if j == 1 {
        ArmOp::Right
    } else if j == 2 {
        ArmOp::Left
    } else {
        ArmOp::Down
    }
}

fn op_at(j: usize) -> (op: ArmOp)
    ensures
        op == walk_op(j as int),
{
    if j == 0 {
        ArmOp::Up
    } else if j == 1 {
        ArmOp::Right
    } else if j == 2 {
        ArmOp::Left
    } else {
        ArmOp::Down
    }
}

/// The lists of moves in `paths`.
pub open spec fn ways(paths: Seq<Vec<ArmOp>>) -> Seq<Seq<ArmOp>> {
    Seq::new(paths.len(), |i: int| paths[i]@)
}

/// The walks in `layer`: the moves of each and the key where it ends.
pub open spec fn walks_of(layer: Seq<(Vec<ArmOp>, Key)>) -> Seq<(Seq<ArmOp>, Key)> {
    Seq::new(layer.len(), |i: int| (layer[i].0@, layer[i].1))
}

/// The walks that go on from `walk` by one of the first `j` moves.
pub open spec fn steps_upto(pad: Keypad, walk: (Seq<ArmOp>, Key), j: int) -> Seq<(Seq<ArmOp>, Key)>
    decreases j,
{
    if j <= 0 {
        Seq::empty()
    } else {
        let before = steps_upto(pad, walk, j - 1);
        match pad.next(walk.1, walk_op(j - 1)) {
            Some(to) => before.push((walk.0.push(walk_op(j - 1)), to)),
            None => before,
        }
    }
}

/// The walks that go on by one move from the first `i` walks of `layer`.
pub open spec fn extended(pad: Keypad, layer: Seq<(Seq<ArmOp>, Key)>, i: int) -> Seq<(Seq<ArmOp>, Key)>
    decreases i,
{
    if i <= 0 {
        Seq::empty()
    } else {
        extended(pad, layer, i - 1) + steps_upto(pad, layer[i - 1], 4)
    }
}

/// All the walks of `n` moves from `src`.
pub open spec fn walks(pad: Keypad, src: Key, n: nat) -> Seq<(Seq<ArmOp>, Key)>
    decreases n,
{
    if n == 0 {
        seq![(Seq::empty(), src)]
    } else {
        extended(pad, walks(pad, src, (n - 1) as nat), walks(pad, src, (n - 1) as nat).len() as int)
    }
}

/// The moves of those of the first `i` walks that end at `dest`.
pub open spec fn arrivals(layer: Seq<(Seq<ArmOp>, Key)>, dest: Key, i: int) -> Seq<Seq<ArmOp>>
    decreases i,
{
    if i <= 0 {
        Seq::empty()
    } else if layer[i - 1].1 == dest {
        arrivals(layer, dest, i - 1).push(layer[i - 1].0)
    } else {
        arrivals(layer, dest, i - 1)
    }
}

/// How often, among the first `n` moves of `p`, a move differs from the one
/// before it.
pub open spec fn changes(p: Seq<ArmOp>, n: int) -> nat
    decreases n,
{
    if n <= 1 {
        0
    } else {
        changes(p, n - 1) + (if p[n - 1] != p[n - 2] {
            1nat
        } else {
            0nat
        })
    }
}

/// How often a move of `p` differs from the one before it.
pub open spec fn turns(p: Seq<ArmOp>) -> nat {
    changes(p, p.len() as int)
}

/// The fewest turns that one of the first `n` paths takes.
pub open spec fn least_turns(paths: Seq<Seq<ArmOp>>, n: int) -> nat
    decreases n,
{
    if n <= 0 {
        0
    } else if n == 1 {
        turns(paths[0])
    } else if turns(paths[n - 1]) < least_turns(paths, n - 1) {
        turns(paths[n - 1])
    } else {
        least_turns(paths, n - 1)
    }
}

/// The paths of `paths` that take no more turns than any other of them.
pub open spec fn smoothest(paths: Seq<Seq<ArmOp>>) -> Seq<Seq<ArmOp>> {
    paths.filter(|p: Seq<ArmOp>| turns(p) == least_turns(paths, paths.len() as int))
}

/// The ways of `n` moves from `src` to `dest`.
pub open spec fn ways_of_len(pad: Keypad, src: Key, dest: Key, n: nat) -> Seq<Seq<ArmOp>> {
    arrivals(walks(pad, src, n), dest, walks(pad, src, n).len() as int)
}

/// The shortest ways from `src` to `dest` that take `n` moves or more and no
/// more than `MAX_WALK`; of these, those with the fewest turns.
pub open spec fn shortest_from(pad: Keypad, src: Key, dest: Key, n: nat) -> Seq<Seq<ArmOp>>
    decreases MAX_WALK + 1 - n,
{
    if n > MAX_WALK {
        Seq::empty()
    } else if ways_of_len(pad, src, dest, n).len() > 0 {
        smoothest(ways_of_len(pad, src, dest, n))
    } else {
        shortest_from(pad, src, dest, n + 1)
    }
}

/// The shortest ways from `src` to `dest`, as long as they take no more than
/// `MAX_WALK` moves; of these, those with the fewest turns. They come in the
/// order of their moves, a move up before one to the right, that before one
/// to the left, and that before one down.
pub open spec fn shortest(pad: Keypad, src: Key, dest: Key) -> Seq<Seq<ArmOp>> {
    shortest_from(pad, src, dest, 0)
}

/// Where the moves of `path` take the arm from `src`, if each of them can be
/// made on the keypad.
pub open spec fn lands(pad: Keypad, src: Key, path: Seq<ArmOp>) -> Option<Key>
    decreases path.len(),
{
    if path.len() == 0 {
        Some(src)
    } else {
        match lands(pad, src, path.drop_last()) {
            Some(at) => pad.next(at, path.last()),
            None => None,
        }
    }
}

/// `p` is a way from `src` to `dest` of no more than `MAX_WALK` moves, no
/// way between the two is shorter, and none as short takes fewer turns.
pub open spec fn best_way(pad: Keypad, src: Key, dest: Key, p: Seq<ArmOp>) -> bool {
    &&& lands(pad, src, p) == Some(dest)
    &&& p.len() <= MAX_WALK
    &&& forall|q: Seq<ArmOp>| #[trigger]
        lands(pad, src, q) == Some(dest) ==> p.len() < q.len() || (p.len() == q.len() && turns(p) <= turns(q))
}

proof fn lemma_steps_land(pad: Keypad, walk: (Seq<ArmOp>, Key), j: int, e: (Seq<ArmOp>, Key))
    requires
        steps_upto(pad, walk, j).contains(e),
    ensures
        e.0.len() == walk.0.len() + 1,
        e.0.drop_last() == walk.0,
        pad.next(walk.1, e.0.last()) == Some(e.1),
    decreases j,
{
    if j > 0 {
        let before = steps_upto(pad, walk, j - 1);
        let all = steps_upto(pad, walk, j);
        let at = choose|at: int| 0 <= at < all.len() && all[at] == e;
        if at < before.len() {
            assert(before[at] == e);
            lemma_steps_land(pad, walk, j - 1, e);
        } else {
            assert(e.0 == walk.0.push(walk_op(j - 1)));
            assert(e.0.drop_last() =~= walk.0);
        }
    }
}

proof fn lemma_extended_land(pad: Keypad, layer: Seq<(Seq<ArmOp>, Key)>, i: int, e: (Seq<ArmOp>, Key)) -> (k:
    int)
    requires
        extended(pad, layer, i).contains(e),
    ensures
        0 <= k < i,
        steps_upto(pad, layer[k], 4).contains(e),
    decreases i,
{
    if i > 0 {
        let before = extended(pad, layer, i - 1);
        let all = extended(pad, layer, i);
        let at = choose|at: int| 0 <= at < all.len() && all[at] == e;
        if at < before.len() {
            assert(before[at] == e);
            lemma_extended_land(pad, layer, i - 1, e)
        } else {
            assert(steps_upto(pad, layer[i - 1], 4)[at - before.len()] == e);
            i - 1
        }
    } else {
        0
    }
}

/// A walk of `walks(pad, src, n)` has `n` moves and ends where they lead.
pub proof fn lemma_walks_land(pad: Keypad, src: Key, n: nat, e: (Seq<ArmOp>, Key))
    requires
        walks(pad, src, n).contains(e),
    ensures
        e.0.len() == n,
        lands(pad, src, e.0) == Some(e.1),
    decreases n,
{
    if n == 0 {
        assert(walks(pad, src, 0)[0] == e);
    } else {
        let layer = walks(pad, src, (n - 1) as nat);
        let k = lemma_extended_land(pad, layer, layer.len() as int, e);
        lemma_steps_land(pad, layer[k], 4, e);
        assert(layer.contains(layer[k]));
        lemma_walks_land(pad, src, (n - 1) as nat, layer[k]);
    }
}

proof fn lemma_steps_hold(pad: Keypad, walk: (Seq<ArmOp>, Key), j: int, k: int)
    requires
        0 <= k < j,
        pad.next(walk.1, walk_op(k)).is_some(),
    ensures
        steps_upto(pad, walk, j).contains((walk.0.push(walk_op(k)), pad.next(walk.1, walk_op(k)).unwrap())),
    decreases j,
{
    let e = (walk.0.push(walk_op(k)), pad.next(walk.1, walk_op(k)).unwrap());
    let before = steps_upto(pad, walk, j - 1);
    let all = steps_upto(pad, walk, j);
    if k < j - 1 {
        lemma_steps_hold(pad, walk, j - 1, k);
        let at = choose|at: int| 0 <= at < before.len() && before[at] == e;
        assert(all[at] == e);
    } else {
        assert(all[all.len() - 1] == e);
    }
}

proof fn lemma_extended_holds(pad: Keypad, layer: Seq<(Seq<ArmOp>, Key)>, i: int, k: int, e: (Seq<ArmOp>, Key))
    requires
        0 <= k < i,
        steps_upto(pad, layer[k], 4).contains(e),
    ensures
        extended(pad, layer, i).contains(e),
    decreases i,
{
    let before = extended(pad, layer, i - 1);
    let all = extended(pad, layer, i);
    if k < i - 1 {
        lemma_extended_holds(pad, layer, i - 1, k, e);
        let at = choose|at: int| 0 <= at < before.len() && before[at] == e;
        assert(all[at] == e);
    } else {
        let steps = steps_upto(pad, layer[k], 4);
        let at = choose|at: int| 0 <= at < steps.len() && steps[at] == e;
        assert(all[before.len() + at] == e);
    }
}

/// A way of `n` moves is among the walks of `n` moves.
pub proof fn lemma_walks_hold(pad: Keypad, src: Key, path: Seq<ArmOp>, dest: Key)
    requires
        lands(pad, src, path) == Some(dest),
    ensures
        walks(pad, src, path.len()).contains((path, dest)),
    decreases path.len(),
{
    if path.len() == 0 {
        assert(path =~= Seq::empty());
        assert(walks(pad, src, 0)[0] == (path, dest));
    } else {
        let at = lands(pad, src, path.drop_last()).unwrap();
        lemma_walks_hold(pad, src, path.drop_last(), at);
        let layer = walks(pad, src, (path.len() - 1) as nat);
        let walk = (path.drop_last(), at);
        let i = choose|i: int| 0 <= i < layer.len() && layer[i] == walk;
        let op = path.last();
        let k = if op == ArmOp::Up {
            0int
        } else if op == ArmOp::Right {
            1int
        } else if op == ArmOp::Left {
            2int
        } else {
            3int
        };
        assert(walk_op(k) == op);
        lemma_steps_hold(pad, walk, 4, k);
        assert(path.drop_last().push(op) =~= path);
        lemma_extended_holds(pad, layer, layer.len() as int, i, (path, dest));
    }
}

proof fn lemma_arrivals_land(layer: Seq<(Seq<ArmOp>, Key)>, dest: Key, i: int, p: Seq<ArmOp>)
    requires
        0 <= i <= layer.len(),
        arrivals(layer, dest, i).contains(p),
    ensures
        layer.contains((p, dest)),
    decreases i,
{
    if i > 0 {
        let before = arrivals(layer, dest, i - 1);
        let all = arrivals(layer, dest, i);
        let at = choose|at: int| 0 <= at < all.len() && all[at] == p;
        if at < before.len() {
            assert(before[at] == p);
            lemma_arrivals_land(layer, dest, i - 1, p);
        } else {
            assert(layer[i - 1] == (p, dest));
        }
    }
}

proof fn lemma_arrivals_hold(layer: Seq<(Seq<ArmOp>, Key)>, dest: Key, i: int, k: int)
    requires
        0 <= k < i <= layer.len(),
        layer[k].1 == dest,
    ensures
        arrivals(layer, dest, i).contains(layer[k].0),
    decreases i,
{
    let before = arrivals(layer, dest, i - 1);
    let all = arrivals(layer, dest, i);
    if k < i - 1 {
        lemma_arrivals_hold(layer, dest, i - 1, k);
        let at = choose|at: int| 0 <= at < before.len() && before[at] == layer[k].0;
        assert(all[at] == layer[k].0);
    } else {
        assert(all[all.len() - 1] == layer[k].0);
    }
}

/// The ways of `n` moves from `src` to `dest` are the lists of `n` moves
/// that lead from the one to the other.
pub proof fn lemma_ways_of_len(pad: Keypad, src: Key, dest: Key, n: nat, p: Seq<ArmOp>)
    ensures
        ways_of_len(pad, src, dest, n).contains(p) <==> p.len() == n && lands(pad, src, p) == Some(dest),
{
    let layer = walks(pad, src, n);
    if ways_of_len(pad, src, dest, n).contains(p) {
        lemma_arrivals_land(layer, dest, layer.len() as int, p);
        lemma_walks_land(pad, src, n, (p, dest));
    }
    if p.len() == n && lands(pad, src, p) == Some(dest) {
        lemma_walks_hold(pad, src, p, dest);
        let k = choose|k: int| 0 <= k < layer.len() && layer[k] == (p, dest);
        lemma_arrivals_hold(layer, dest, layer.len() as int, k);
    }
}

/// No path among the first `n` takes fewer turns than `least_turns` says,
/// and one of them takes as many.
pub proof fn lemma_least_turns(paths: Seq<Seq<ArmOp>>, n: int)
    requires
        0 < n <= paths.len(),
    ensures
        forall|k: int| 0 <= k < n ==> least_turns(paths, n) <= turns(#[trigger] paths[k]),
        exists|k: int| 0 <= k < n && turns(#[trigger] paths[k]) == least_turns(paths, n),
    decreases n,
{
    if n > 1 {
        lemma_least_turns(paths, n - 1);
        let k = choose|k: int| 0 <= k < n - 1 && turns(#[trigger] paths[k]) == least_turns(paths, n - 1);
        if turns(paths[n - 1]) < least_turns(paths, n - 1) {
            assert(turns(paths[n - 1]) == least_turns(paths, n));
        } else {
            assert(turns(paths[k]) == least_turns(paths, n));
        }
    } else {
        assert(turns(paths[0]) == least_turns(paths, n));
    }
}

/// What `shortest` lists are the best ways from `src` to `dest`: the ways of
/// no more than `MAX_WALK` moves than which none is shorter, and none as
/// short has fewer turns.
pub proof fn lemma_shortest_are_best(pad: Keypad, src: Key, dest: Key, p: Seq<ArmOp>)
    ensures
        shortest(pad, src, dest).contains(p) <==> best_way(pad, src, dest, p),
{
    lemma_shortest_from(pad, src, dest, 0, p);
}

proof fn lemma_shortest_from(pad: Keypad, src: Key, dest: Key, n: nat, p: Seq<ArmOp>)
    requires
        forall|q: Seq<ArmOp>| #[trigger] lands(pad, src, q) == Some(dest) ==> q.len() >= n,
    ensures
        shortest_from(pad, src, dest, n).contains(p) <==> best_way(pad, src, dest, p),
    decreases MAX_WALK + 1 - n,
{
    let found = ways_of_len(pad, src, dest, n);
    if n > MAX_WALK {
        if best_way(pad, src, dest, p) {
            assert(lands(pad, src, p) == Some(dest));
        }
    } else if found.len() > 0 {
        let least = least_turns(found, found.len() as int);
        let fewest = |w: Seq<ArmOp>| turns(w) == least_turns(found, found.len() as int);
        lemma_least_turns(found, found.len() as int);
        if smoothest(found).contains(p) {
            found.lemma_filter_contains_rev(fewest, p);
            let at = choose|at: int| 0 <= at < smoothest(found).len() && smoothest(found)[at] == p;
            found.lemma_filter_pred(fewest, at);
            lemma_ways_of_len(pad, src, dest, n, p);
            assert forall|q: Seq<ArmOp>| #[trigger] lands(pad, src, q) == Some(dest) implies p.len() < q.len()
                || (p.len() == q.len() && turns(p) <= turns(q)) by {
                if q.len() == n {
                    lemma_ways_of_len(pad, src, dest, n, q);
                    let k = choose|k: int| 0 <= k < found.len() && found[k] == q;
                    assert(least <= turns(found[k]));
                }
            }
        }
        if best_way(pad, src, dest, p) {
            let first = found[0];
            assert(found.contains(first));
            lemma_ways_of_len(pad, src, dest, n, first);
            assert(lands(pad, src, first) == Some(dest));
            assert(lands(pad, src, p) == Some(dest));
            assert(p.len() == n);
            lemma_ways_of_len(pad, src, dest, n, p);
            let k = choose|k: int| 0 <= k < found.len() && found[k] == p;
            let m = choose|m: int| 0 <= m < found.len() && turns(#[trigger] found[m]) == least;
            assert(found.contains(found[m]));
            lemma_ways_of_len(pad, src, dest, n, found[m]);
            assert(lands(pad, src, found[m]) == Some(dest));
            assert(least <= turns(found[k]));
            assert(fewest(found[k]));
            found.lemma_filter_contains(fewest, k);
        }
    } else {
        assert forall|q: Seq<ArmOp>| #[trigger] lands(pad, src, q) == Some(dest) implies q.len() >= n + 1 by {
            if q.len() == n {
                lemma_ways_of_len(pad, src, dest, n, q);
            }
        }
        lemma_shortest_from(pad, src, dest, n + 1, p);
    }
}

/// A copy of `ops`.
pub fn copy_ops(ops: &Vec<ArmOp>) -> (copy: Vec<ArmOp>)
    ensures
        copy@ == ops@,
{
    let mut copy: Vec<ArmOp> = Vec::new();
    let mut i: usize = 0;
    while i < ops.len()
        invariant
            i <= ops.len(),
            copy@ == ops@.take(i as int),
        decreases ops.len() - i,
    {
        copy.push(ops[i]);
        assert(copy@ =~= ops@.take(i + 1));
        i += 1;
    }
    assert(ops@.take(ops.len() as int) =~= ops@);
    copy
}

/// The walks that go on by one move from the walks of `layer`.
fn extend(keypad: &Keypad, layer: &Vec<(Vec<ArmOp>, Key)>) -> (next: Vec<(Vec<ArmOp>, Key)>)
    ensures
        walks_of(next@) == extended(*keypad, walks_of(layer@), layer.len() as int),
{
    let mut next: Vec<(Vec<ArmOp>, Key)> = Vec::new();
    let mut i: usize = 0;
    assert(walks_of(next@) =~= extended(*keypad, walks_of(layer@), 0));
    while i < layer.len()
        invariant
            i <= layer.len(),
            walks_of(next@) == extended(*keypad, walks_of(layer@), i as int),
        decreases layer.len() - i,
    {
        let ghost done = walks_of(next@);
        let ghost walk = walks_of(layer@)[i as int];
        let mut j: usize = 0;
        assert(walks_of(next@) =~= done + steps_upto(*keypad, walk, 0));
        while j < 4
            invariant
                j <= 4,
                i < layer.len(),
                walk == walks_of(layer@)[i as int],
                walks_of(next@) == done + steps_upto(*keypad, walk, j as int),
            decreases 4 - j,
        {
            let op = op_at(j);
            let ghost before = walks_of(next@);
            match keypad.link(layer[i].1, op) {
                Some(to) => {
                    let mut ops = copy_ops(&layer[i].0);
                    ops.push(op);
                    next.push((ops, to));
                    assert(walks_of(next@) =~= before.push((walk.0.push(op), to)));
                    assert(walks_of(next@) =~= done + steps_upto(*keypad, walk, j + 1));
                },
                None => {},
            }
            j += 1;
        }
        i += 1;
    }
    next
}

/// The moves of the walks of `layer` that end at `dest`.
fn arrivals_in(layer: &Vec<(Vec<ArmOp>, Key)>, dest: Key) -> (found: Vec<Vec<ArmOp>>)
    ensures
        ways(found@) == arrivals(walks_of(layer@), dest, layer.len() as int),
{
    let mut found: Vec<Vec<ArmOp>> = Vec::new();
    let mut i: usize = 0;
    assert(ways(found@) =~= arrivals(walks_of(layer@), dest, 0));
    while i < layer.len()
        invariant
            i <= layer.len(),
            ways(found@) == arrivals(walks_of(layer@), dest, i as int),
        decreases layer.len() - i,
    {
        if layer[i].1 == dest {
            let ghost before = ways(found@);
            found.push(copy_ops(&layer[i].0));
            assert(ways(found@) =~= before.push(layer[i as int].0@));
        }
        i += 1;
    }
    found
}

/// How often a move of `path` differs from the one before it.
pub fn count_turns(path: &Vec<ArmOp>) -> (count: usize)
    ensures
        count == turns(path@),
{
    let mut count: usize = 0;
    let mut i: usize = 1;
    while i < path.len()
        invariant
            1 <= i,
            i <= path.len() || (path.len() == 0 && i == 1),
            count == changes(path@, i as int),
            count < i,
        decreases path.len() - i,
    {
        if path[i] != path[i - 1] {
            count += 1;
        }
        i += 1;
    }
    proof {
        assert(changes(path@, 0) == 0);
        assert(changes(path@, 1) == 0);
    }
    count
}

/// The paths of `paths` that take no more turns than any other of them.
pub fn smoothest_of(paths: &Vec<Vec<ArmOp>>) -> (best: Vec<Vec<ArmOp>>)
    ensures
        ways(best@) == smoothest(ways(paths@)),
{
    let mut least: usize = 0;
    let mut i: usize = 0;
    while i < paths.len()
        invariant
            i <= paths.len(),
            least == least_turns(ways(paths@), i as int),
        decreases paths.len() - i,
    {
        let count = count_turns(&paths[i]);
        if i == 0 || count < least {
            least = count;
        }
        i += 1;
    }
    let ghost least_of = |p: Seq<ArmOp>| turns(p) == least_turns(ways(paths@), ways(paths@).len() as int);
    let mut best: Vec<Vec<ArmOp>> = Vec::new();
    let mut i: usize = 0;
    assert(ways(paths@).take(0) =~~= Seq::<Seq<ArmOp>>::empty());
    assert(ways(best@) =~~= ways(paths@).take(0).filter(least_of));
    while i < paths.len()
        invariant
            i <= paths.len(),
            least == least_turns(ways(paths@), paths.len() as int),
            least_of == |p: Seq<ArmOp>| turns(p) == least_turns(ways(paths@), ways(paths@).len() as int),
            ways(best@) == ways(paths@).take(i as int).filter(least_of),
        decreases paths.len() - i,
    {
        proof {
            assert(ways(paths@).take(i + 1) =~~= ways(paths@).take(i as int).push(paths[i as int]@));
            ways(paths@).take(i as int).lemma_filter_push(paths[i as int]@, least_of);
        }
        if count_turns(&paths[i]) == least {
            let ghost before = ways(best@);
            best.push(copy_ops(&paths[i]));
            assert(ways(best@) =~~= before.push(paths[i as int]@));
        }
        i += 1;
    }
    assert(ways(paths@).take(i as int) =~~= ways(paths@));
    best
}

/// The shortest ways from `src_key` to `dest_key` on `keypad`, and of these
/// the ones with the fewest turns.
pub fn shortest_paths(keypad: &Keypad, src_key: &Key, dest_key: &Key) -> (paths: Vec<Vec<ArmOp>>)
    ensures
        ways(paths@) == shortest(*keypad, *src_key, *dest_key),
{
    let mut layer: Vec<(Vec<ArmOp>, Key)> = Vec::new();
    layer.push((Vec::new(), *src_key));
    assert(walks_of(layer@) =~= walks(*keypad, *src_key, 0));
    let mut n: usize = 0;
    loop
        invariant
            n <= MAX_WALK,
            walks_of(layer@) == walks(*keypad, *src_key, n as nat),
            shortest(*keypad, *src_key, *dest_key) == shortest_from(*keypad, *src_key, *dest_key, n as nat),
        decreases MAX_WALK - n,
    {
        let arrived = arrivals_in(&layer, *dest_key);
        if arrived.len() > 0 {
            return smoothest_of(&arrived);
        }
        if n >= MAX_WALK {
            assert(shortest_from(*keypad, *src_key, *dest_key, (n + 1) as nat) =~= Seq::empty());
            return Vec::new();
        }
        layer = extend(keypad, &layer);
        n += 1;
    }
}

/// Each of `paths` with a press of the key at its end.
pub open spec fn pressed(paths: Seq<Seq<ArmOp>>) -> Seq<Seq<ArmOp>> {
    Seq::new(paths.len(), |i: int| paths[i].push(ArmOp::Press))
}

/// The ways to press `to` with an arm that is at `from`.
pub open spec fn moves(pad: Keypad, from: Key, to: Key) -> Seq<Seq<ArmOp>> {
    pressed(shortest(pad, from, to))
}

/// Where the arm is before it goes for key `i` of `keys`: at `A` first, then
/// at the key before.
pub open spec fn arm_at(keys: Seq<Key>, i: int) -> Key {
    if i <= 0 {
        Key::A
    } else {
        keys[i - 1]
    }
}

/// For each key of `keys`, the ways to press it after the key before.
pub open spec fn typed_keys(pad: Keypad, keys: Seq<Key>) -> Seq<Seq<Seq<ArmOp>>> {
    Seq::new(keys.len(), |i: int| moves(pad, arm_at(keys, i), keys[i]))
}

/// The choice among `path` followed by each of the first `j` ways of `sp`,
/// after the choice `start`: a way with fewer turns than the choice so far
/// takes its place.
pub open spec fn pick_in_row(path: Seq<ArmOp>, sp: Seq<Seq<ArmOp>>, j: int, start: (Seq<Seq<ArmOp>>, int)) -> (
    Seq<Seq<ArmOp>>,
    int,
)
    decreases j,
{
    if j <= 0 {
        start
    } else {
        let before = pick_in_row(path, sp, j - 1, start);
        let kp = path + sp[j - 1];
        if turns(kp) < before.1 {
            (seq![kp], turns(kp) as int)
        } else {
            before
        }
    }
}

/// Of the ways that one of the first `i` ways of `prev` and then one of `sp`
/// make, the first with the fewest turns, as a list of one, and the number
/// of its turns.
pub open spec fn pick(prev: Seq<Seq<ArmOp>>, sp: Seq<Seq<ArmOp>>, i: int) -> (Seq<Seq<ArmOp>>, int)
    decreases i,
{
    if i <= 0 {
        (Seq::empty(), isize::MAX as int)
    } else {
        pick_in_row(prev[i - 1], sp, sp.len() as int, pick(prev, sp, i - 1))
    }
}

/// The ways to ask, on the keypad `pad`, for the first `n` moves of `path`:
/// all the ways to the first; from then on the one way that `pick` makes of
/// the ways so far and the ways to the next key.
pub open spec fn typed_upto(pad: Keypad, path: Seq<ArmOp>, n: int) -> Seq<Seq<ArmOp>>
    decreases n,
{
    if n <= 0 {
        Seq::empty()
    } else {
        let prev = typed_upto(pad, path, n - 1);
        let pos = if n == 1 {
            Key::A
        } else {
            key_for(path[n - 2])
        };
        let sp = moves(pad, pos, key_for(path[n - 1]));
        if prev.len() > 0 {
            pick(prev, sp, prev.len() as int).0
        } else {
            sp
        }
    }
}

/// The ways to ask for the moves of `path` on the keypad `pad`.
pub open spec fn typed(pad: Keypad, path: Seq<ArmOp>) -> Seq<Seq<ArmOp>> {
    typed_upto(pad, path, path.len() as int)
}

/// The ways to ask for each of the first `i` paths of `group`, one after the
/// other.
pub open spec fn group_typed(pad: Keypad, group: Seq<Seq<ArmOp>>, i: int) -> Seq<Seq<ArmOp>>
    decreases i,
{
    if i <= 0 {
        Seq::empty()
    } else {
        group_typed(pad, group, i - 1) + typed(pad, group[i - 1])
    }
}

/// The lists of moves in each group of `groups`.
pub open spec fn groups_of(groups: Seq<Vec<Vec<ArmOp>>>) -> Seq<Seq<Seq<ArmOp>>> {
    Seq::new(groups.len(), |g: int| ways(groups[g]@))
}

/// `first` and then `second`.
pub fn join(first: &Vec<ArmOp>, second: &Vec<ArmOp>) -> (both: Vec<ArmOp>)
    ensures
        both@ == first@ + second@,
{
    let mut both = copy_ops(first);
    let mut i: usize = 0;
    while i < second.len()
        invariant
            i <= second.len(),
            both@ == first@ + second@.take(i as int),
        decreases second.len() - i,
    {
        both.push(second[i]);
        assert(both@ =~= first@ + second@.take(i + 1));
        i += 1;
    }
    assert(second@.take(second.len() as int) =~= second@);
    both
}

/// The ways to press `to` with an arm that is at `from`.
pub fn moves_between(keypad: &Keypad, from: Key, to: Key) -> (found: Vec<Vec<ArmOp>>)
    ensures
        ways(found@) == moves(*keypad, from, to),
{
    let paths = shortest_paths(keypad, &from, &to);
    let mut found: Vec<Vec<ArmOp>> = Vec::new();
    let mut i: usize = 0;
    while i < paths.len()
        invariant
            i <= paths.len(),
            found.len() == i,
            forall|k: int| 0 <= k < i ==> (#[trigger] found[k])@ == paths[k]@.push(ArmOp::Press),
        decreases paths.len() - i,
    {
        let mut path = copy_ops(&paths[i]);
        path.push(ArmOp::Press);
        found.push(path);
        i += 1;
    }
    assert(ways(found@) =~= pressed(ways(paths@)));
    found
}

/// Of the ways that one of `prev` and then one of `sp` make, the first with
/// the fewest turns, as a list of one; no way where there is none.
pub fn pick_first_least(prev: &Vec<Vec<ArmOp>>, sp: &Vec<Vec<ArmOp>>) -> (chosen: Vec<Vec<ArmOp>>)
    ensures
        ways(chosen@) == pick(ways(prev@), ways(sp@), prev.len() as int).0,
{
    let mut next_key_path_results: Vec<Vec<ArmOp>> = Vec::new();
    let mut best_directional_changes: usize = isize::MAX as usize;
    let mut i: usize = 0;
    assert(ways(next_key_path_results@) =~= Seq::<Seq<ArmOp>>::empty());
    while i < prev.len()
        invariant
            i <= prev.len(),
            (ways(next_key_path_results@), best_directional_changes as int) == pick(
                ways(prev@),
                ways(sp@),
                i as int,
            ),
        decreases prev.len() - i,
    {
        let ghost start = pick(ways(prev@), ways(sp@), i as int);
        let mut j: usize = 0;
        while j < sp.len()
            invariant
                j <= sp.len(),
                i < prev.len(),
                (ways(next_key_path_results@), best_directional_changes as int) == pick_in_row(
                    prev[i as int]@,
                    ways(sp@),
                    j as int,
                    start,
                ),
            decreases sp.len() - j,
        {
            let kp = join(&prev[i], &sp[j]);
            let dir_changes = count_turns(&kp);
            if dir_changes < best_directional_changes {
                next_key_path_results = Vec::new();
                next_key_path_results.push(kp);
                best_directional_changes = dir_changes;
                assert(ways(next_key_path_results@) =~= seq![kp@]);
            }
            j += 1;
        }
        i += 1;
    }
    next_key_path_results
}

/// The ways to ask for the moves of `key_path` on `keypad`.
pub fn type_path(keypad: &Keypad, key_path: &Vec<ArmOp>) -> (found: Vec<Vec<ArmOp>>)
    ensures
        ways(found@) == typed(*keypad, key_path@),
{
    let mut pos = Key::A;
    let mut key_path_results: Vec<Vec<ArmOp>> = Vec::new();
    let mut n: usize = 0;
    assert(ways(key_path_results@) =~= typed_upto(*keypad, key_path@, 0));
    while n < key_path.len()
        invariant
            n <= key_path.len(),
            pos == (if n == 0 {
                Key::A
            } else {
                key_for(key_path[n - 1])
            }),
            ways(key_path_results@) == typed_upto(*keypad, key_path@, n as int),
        decreases key_path.len() - n,
    {
        let k = op_to_key(&key_path[n]);
        let shortest_paths = moves_between(keypad, pos, k);
        if key_path_results.len() > 0 {
            key_path_results = pick_first_least(&key_path_results, &shortest_paths);
        } else {
            key_path_results = shortest_paths;
        }
        pos = k;
        n += 1;
    }
    key_path_results
}

/// The ways to ask for each path of `group` on `keypad`, one after the
/// other.
pub fn type_group(keypad: &Keypad, group: &Vec<Vec<ArmOp>>) -> (found: Vec<Vec<ArmOp>>)
    ensures
        ways(found@) == group_typed(*keypad, ways(group@), group.len() as int),
{
    let mut key_group_results: Vec<Vec<ArmOp>> = Vec::new();
    let mut i: usize = 0;
    assert(ways(key_group_results@) =~= group_typed(*keypad, ways(group@), 0));
    while i < group.len()
        invariant
            i <= group.len(),
            ways(key_group_results@) == group_typed(*keypad, ways(group@), i as int),
        decreases group.len() - i,
    {
        let ghost before = ways(key_group_results@);
        let mut key_path_results = type_path(keypad, &group[i]);
        let ghost added = ways(key_path_results@);
        key_group_results.append(&mut key_path_results);
        assert(ways(key_group_results@) =~= before + added);
        i += 1;
    }
    key_group_results
}

/// A robot at a keypad. The robot below it, if there is one, is at the
/// keypad whose keys are to be pressed in the end; this robot's arm is moved
/// by whoever is above.
pub struct RobotController {
    pub keypad: Keypad,
    pub child: Option<Box<RobotController>>,
}

impl RobotController {
    /// For each key of `keys`, the ways in which the one above this robot
    /// makes it press what is needed. The robot at the bottom offers, for
    /// each key, all the ways to it. Each robot above asks for every offered
    /// way, move by move, on its own keypad.
    pub open spec fn solved(&self, keys: Seq<Key>) -> Seq<Seq<Seq<ArmOp>>>
        decreases self,
    {
        match self.child {
            None => typed_keys(self.keypad, keys),
            Some(below) => {
                let asked = below.solved(keys);
                Seq::new(asked.len(), |g: int| group_typed(self.keypad, asked[g], asked[g].len() as int))
            },
        }
    }

    pub fn solve_root_seq(&self, key_seq: &Vec<Key>) -> (found: Vec<Vec<Vec<ArmOp>>>)
        ensures
            groups_of(found@) == self.solved(key_seq@),
        decreases self,
    {
        match &self.child {
            Some(controller) => {
                let key_paths_to_solve = controller.solve_root_seq(key_seq);
                let mut result: Vec<Vec<Vec<ArmOp>>> = Vec::new();
                let mut g: usize = 0;
                while g < key_paths_to_solve.len()
                    invariant
                        g <= key_paths_to_solve.len(),
                        result.len() == g,
                        forall|k: int|
                            0 <= k < g ==> ways((#[trigger] result[k])@) == group_typed(
                                self.keypad,
                                ways(key_paths_to_solve[k]@),
                                key_paths_to_solve[k].len() as int,
                            ),
                    decreases key_paths_to_solve.len() - g,
                {
                    let key_group_results = type_group(&self.keypad, &key_paths_to_solve[g]);
                    result.push(key_group_results);
                    g += 1;
                }
                assert(groups_of(result@) =~= self.solved(key_seq@));
                result
            },
            None => {
                let mut result: Vec<Vec<Vec<ArmOp>>> = Vec::new();
                let mut pos = Key::A;
                let mut i: usize = 0;
                while i < key_seq.len()
                    invariant
                        i <= key_seq.len(),
                        result.len() == i,
                        pos == arm_at(key_seq@, i as int),
                        forall|k: int|
                            0 <= k < i ==> ways((#[trigger] result[k])@) == moves(
                                self.keypad,
                                arm_at(key_seq@, k),
                                key_seq[k],
                            ),
                    decreases key_seq.len() - i,
                {
                    let k = key_seq[i];
                    let shortest_paths = moves_between(&self.keypad, pos, k);
                    result.push(shortest_paths);
                    pos = k;
                    i += 1;
                }
                assert(groups_of(result@) =~= self.solved(key_seq@));
                result
            },
        }
    }
}

/// The length of the shortest of the first `n` paths of `group`.
pub open spec fn shortest_in(group: Seq<Seq<ArmOp>>, n: int) -> nat
    decreases n,
{
    if n <= 1 {
        group[0].len()
    } else if group[n - 1].len() < shortest_in(group, n - 1) {
        group[n - 1].len()
    } else {
        shortest_in(group, n - 1)
    }
}

/// The lengths of the shortest path of each of the first `n` groups,
/// together.
pub open spec fn total_presses(groups: Seq<Seq<Seq<ArmOp>>>, n: int) -> nat
    decreases n,
{
    if n <= 0 {
        0
    } else {
        total_presses(groups, n - 1) + shortest_in(groups[n - 1], groups[n - 1].len() as int)
    }
}

/// Each of the groups offers a path.
pub open spec fn all_offer(groups: Seq<Seq<Seq<ArmOp>>>) -> bool {
    forall|g: int| 0 <= g < groups.len() ==> (#[trigger] groups[g]).len() > 0
}

/// More groups take no fewer presses.
pub proof fn lemma_total_presses_grows(groups: Seq<Seq<Seq<ArmOp>>>, n: int, m: int)
    requires
        0 <= n <= m,
    ensures
        total_presses(groups, n) <= total_presses(groups, m),
    decreases m,
{
    if n < m {
        lemma_total_presses_grows(groups, n, m - 1);
    }
}

/// The fewest presses that get `code` typed through `controller` and the
/// robots below it.
pub open spec fn shortest_seq(controller: RobotController, code: Seq<Key>) -> Option<isize> {
    let groups = controller.solved(code);
    if all_offer(groups) && total_presses(groups, groups.len() as int) <= isize::MAX {
        Some(total_presses(groups, groups.len() as int) as isize)
    } else {
        None
    }
}

/// The fewest presses that get `code` typed through `controller` and the
/// robots below it: for each key the shortest of the ways found, all
/// together. `None` where a key cannot be reached, or the number is more
/// than a machine integer holds.
pub fn compute_shortest_seq(controller: &RobotController, code: &Vec<Key>) -> (presses: Option<isize>)
    ensures
        presses == shortest_seq(*controller, code@),
{
    let key_solutions = controller.solve_root_seq(code);
    let ghost groups = groups_of(key_solutions@);
    let mut total_best: usize = 0;
    let mut i: usize = 0;
    while i < key_solutions.len()
        invariant
            i <= key_solutions.len(),
            groups == groups_of(key_solutions@),
            groups == controller.solved(code@),
            total_best == total_presses(groups, i as int),
            forall|g: int| 0 <= g < i ==> (#[trigger] groups[g]).len() > 0,
        decreases key_solutions.len() - i,
    {
        proof {
            assert(groups[i as int] == ways(key_solutions[i as int]@));
            lemma_total_presses_grows(groups, i + 1, groups.len() as int);
        }
        if key_solutions[i].len() == 0 {
            return None;
        }
        let mut best = key_solutions[i][0].len();
        let mut j: usize = 1;
        assert(ways(key_solutions[i as int]@)[0] == key_solutions[i as int][0]@);
        while j < key_solutions[i].len()
            invariant
                1 <= j <= key_solutions[i as int].len(),
                i < key_solutions.len(),
                best == shortest_in(ways(key_solutions[i as int]@), j as int),
            decreases key_solutions[i as int].len() - j,
        {
            assert(ways(key_solutions[i as int]@)[j as int] == key_solutions[i as int][j as int]@);
            if key_solutions[i][j].len() < best {
                best = key_solutions[i][j].len();
            }
            j += 1;
        }
        match total_best.checked_add(best) {
            Some(sum) => {
                total_best = sum;
            },
            None => {
                return None;
            },
        }
        i += 1;
    }
    if total_best > isize::MAX as usize {
        None
    } else {
        Some(total_best as isize)
    }
}

/// The code begins with three digits.
pub open spec fn numbered(code: Seq<Key>) -> bool {
    code.len() >= 3 && digit_of(code[0]).is_some() && digit_of(code[1]).is_some() && digit_of(
        code[2],
    ).is_some()
}

/// The number that the first three keys of a code write.
pub open spec fn number_of(code: Seq<Key>) -> int {
    100 * digit_of(code[0]).unwrap() + 10 * digit_of(code[1]).unwrap() + digit_of(code[2]).unwrap()
}

/// Whether `code` begins with three digits.
pub fn has_number(code: &Vec<Key>) -> (yes: bool)
    ensures
        yes == numbered(code@),
{
    code.len() >= 3 && is_digit_key(code[0]) && is_digit_key(code[1]) && is_digit_key(code[2])
}

fn is_digit_key(key: Key) -> (yes: bool)
    ensures
        yes == digit_of(key).is_some(),
{
    match key {
        Key::Zero | Key::One | Key::Two | Key::Three | Key::Four | Key::Five | Key::Six | Key::Seven
        | Key::Eight | Key::Nine => true,
        _ => false,
    }
}

/// The complexities of the first `n` codes together, a code's complexity
/// being its fewest presses times its number; `None` where a code has no
/// number or no fewest presses, or a machine integer does not hold a
/// product or a sum on the way.
pub open spec fn complexity(controller: RobotController, codes: Seq<Seq<Key>>, n: int) -> Option<isize>
    decreases n,
{
    if n <= 0 {
        Some(0)
    } else {
        match (complexity(controller, codes, n - 1), shortest_seq(controller, codes[n - 1])) {
            (Some(before), Some(presses)) if numbered(codes[n - 1]) && presses * number_of(codes[n - 1])
                <= isize::MAX && before + presses * number_of(codes[n - 1]) <= isize::MAX => Some(
                (before + presses * number_of(codes[n - 1])) as isize,
            ),
            _ => None,
        }
    }
}

/// Once a code has no complexity, more codes do not mend it.
pub proof fn lemma_complexity_fails(controller: RobotController, codes: Seq<Seq<Key>>, n: int, all: int)
    requires
        0 <= n <= all,
        complexity(controller, codes, n).is_none(),
    ensures
        complexity(controller, codes, all).is_none(),
    decreases all,
{
    if n < all {
        lemma_complexity_fails(controller, codes, n, all - 1);
    }
}

/// The codes as lists of keys.
pub open spec fn codes_of(codes: Seq<Vec<Key>>) -> Seq<Seq<Key>> {
    Seq::new(codes.len(), |i: int| codes[i]@)
}

/// The complexities of the codes together.
pub fn compute_complexity(controller: &RobotController, codes: &Vec<Vec<Key>>) -> (total: Option<isize>)
    ensures
        total == complexity(*controller, codes_of(codes@), codes.len() as int),
{
    let mut total_complexity: isize = 0;
    let mut i: usize = 0;
    while i < codes.len()
        invariant
            i <= codes.len(),
            0 <= total_complexity,
            complexity(*controller, codes_of(codes@), i as int) == Some(total_complexity),
        decreases codes.len() - i,
    {
        let code = &codes[i];
        proof {
            assert(codes_of(codes@)[i as int] == code@);
            if complexity(*controller, codes_of(codes@), i + 1).is_none() {
                lemma_complexity_fails(*controller, codes_of(codes@), i + 1, codes.len() as int);
            }
        }
        if !has_number(code) {
            return None;
        }
        let numeric = numeric_complexity_component(code);
        match compute_shortest_seq(controller, code) {
            Some(shortest_seq_len) => {
                assert(0 <= shortest_seq_len);
                match shortest_seq_len.checked_mul(numeric) {
                    Some(product) => match total_complexity.checked_add(product) {
                        Some(sum) => {
                            assert(0 <= product) by (nonlinear_arith)
                                requires
                                    product == shortest_seq_len * numeric,
                                    0 <= shortest_seq_len,
                                    0 <= numeric,
                            ;
                            total_complexity = sum;
                        },
                        None => {
                            return None;
                        },
                    },
                    None => {
                        return None;
                    },
                }
            },
            None => {
                return None;
            },
        }
        i += 1;
    }
    Some(total_complexity)
}

/// The two robots at directional keypads above the robot at the numeric
/// keypad.
pub fn three_robots() -> (top: RobotController)
    ensures
        top == chain(),
{
    let numeric_controller = RobotController { keypad: Keypad::create_numeric(), child: None };
    let dir_controller1 = RobotController {
        keypad: Keypad::create_directional(),
        child: Some(Box::new(numeric_controller)),
    };
    RobotController { keypad: Keypad::create_directional(), child: Some(Box::new(dir_controller1)) }
}

/// The two robots at directional keypads above the robot at the numeric
/// keypad.
pub open spec fn chain() -> RobotController {
    RobotController {
        keypad: Keypad { numeric: false },
        child: Some(
            Box::new(
                RobotController {
                    keypad: Keypad { numeric: false },
                    child: Some(Box::new(RobotController { keypad: Keypad { numeric: true }, child: None })),
                },
            ),
        ),
    }
}

/// The complexities of the codes together, typed through two robots at
/// directional keypads and one at the numeric keypad.
pub fn _solution1(codes: &Vec<Vec<Key>>) -> (total: Option<isize>)
    ensures
        total == complexity(chain(), codes_of(codes@), codes.len() as int),
{
    let dir_controller2 = three_robots();
    compute_complexity(&dir_controller2, codes)
}

/// The keys that ask for the moves of `ops`.
pub open spec fn keys_for(ops: Seq<ArmOp>) -> Seq<Key> {
    Seq::new(ops.len(), |i: int| key_for(ops[i]))
}

/// The directional keypad.
pub open spec fn directional() -> Keypad {
    Keypad { numeric: false }
}

/// The fewest presses among the first `n` contenders of `group`, each typed
/// through `depth - 1` robots; the largest machine integer where there is no
/// contender, and nothing where one of them has no count.
pub open spec fn min_presses(group: Seq<Seq<ArmOp>>, depth: nat, n: int) -> Option<isize>
    decreases depth, 0int, n,
{
    if n <= 0 || depth == 0 {
        Some(isize::MAX)
    } else {
        match (min_presses(group, depth, n - 1), presses(group[n - 1], (depth - 1) as nat)) {
            (Some(least), Some(count)) => Some(
                if count < least {
                    count
                } else {
                    least
                },
            ),
            _ => None,
        }
    }
}

/// The fewest presses of each of the first `n` groups, together; nothing
/// where a group has no count, or a machine integer does not hold the sum.
pub open spec fn score(groups: Seq<Seq<Seq<ArmOp>>>, depth: nat, n: int) -> Option<isize>
    decreases depth, 1int, n,
{
    if n <= 0 || depth == 0 {
        Some(0)
    } else {
        match (score(groups, depth, n - 1), min_presses(groups[n - 1], depth, groups[n - 1].len() as int)) {
            (Some(before), Some(least)) if before + least <= isize::MAX => Some((before + least) as isize),
            _ => None,
        }
    }
}

/// The fewest presses on the outermost keypad that get `contender` typed
/// through `depth` robots at directional keypads: its own length where there
/// is no robot; else, for each of its moves, the fewest presses of a way to
/// ask for it, through one robot less, all together.
pub open spec fn presses(contender: Seq<ArmOp>, depth: nat) -> Option<isize>
    decreases depth, 2int, 0int,
{
    if depth == 0 {
        if contender.len() <= isize::MAX {
            Some(contender.len() as isize)
        } else {
            None
        }
    } else {
        let groups = typed_keys(directional(), keys_for(contender));
        score(groups, depth, groups.len() as int)
    }
}

/// Once a contender has no count, more contenders do not mend it.
pub proof fn lemma_min_presses_fails(group: Seq<Seq<ArmOp>>, depth: nat, n: int, all: int)
    requires
        0 <= n <= all,
        depth > 0,
        min_presses(group, depth, n).is_none(),
    ensures
        min_presses(group, depth, all).is_none(),
    decreases all,
{
    if n < all {
        lemma_min_presses_fails(group, depth, n, all - 1);
    }
}

/// Once a group has no count, more groups do not mend it.
pub proof fn lemma_score_fails(groups: Seq<Seq<Seq<ArmOp>>>, depth: nat, n: int, all: int)
    requires
        0 <= n <= all,
        depth > 0,
        score(groups, depth, n).is_none(),
    ensures
        score(groups, depth, all).is_none(),
    decreases all,
{
    if n < all {
        lemma_score_fails(groups, depth, n, all - 1);
    }
}

/// The byte that stands for `op` in a key of the cache.
pub open spec fn op_byte(op: ArmOp) -> u8 {
    match op {
        ArmOp::Up => 0,
        ArmOp::Down => 1,
        ArmOp::Left => 2,
        ArmOp::Right => 3,
        ArmOp::Press => 4,
    }
}

/// The key under which the cache keeps the count of `contender` at `depth`:
/// the byte 5 as often as `depth` says, then a byte for each move.
pub open spec fn cache_key(contender: Seq<ArmOp>, depth: nat) -> Seq<u8> {
    Seq::new(depth, |i: int| 5u8) + Seq::new(contender.len(), |i: int| op_byte(contender[i]))
}

/// Two contenders at two depths have two keys.
pub proof fn lemma_cache_key_apart(c1: Seq<ArmOp>, d1: nat, c2: Seq<ArmOp>, d2: nat)
    requires
        cache_key(c1, d1) == cache_key(c2, d2),
    ensures
        c1 == c2,
        d1 == d2,
{
    let k1 = cache_key(c1, d1);
    let k2 = cache_key(c2, d2);
    assert(k1.len() == d1 + c1.len());
    assert(k2.len() == d2 + c2.len());
    if d1 < d2 {
        assert(k2[d1 as int] == 5u8);
        if c1.len() > 0 {
            assert(k1[d1 as int] == op_byte(c1[0]));
        }
        assert(false);
    }
    if d2 < d1 {
        assert(k1[d2 as int] == 5u8);
        if c2.len() > 0 {
            assert(k2[d2 as int] == op_byte(c2[0]));
        }
        assert(false);
    }
    assert(c1.len() == c2.len());
    assert forall|i: int| 0 <= i < c1.len() implies c1[i] == c2[i] by {
        assert(k1[d1 + i] == op_byte(c1[i]));
        assert(k2[d2 + i] == op_byte(c2[i]));
    }
    assert(c1 =~= c2);
}

fn byte_of_op(op: ArmOp) -> (byte: u8)
    ensures
        byte == op_byte(op),
{
    match op {
        ArmOp::Up => 0,
        ArmOp::Down => 1,
        ArmOp::Left => 2,
        ArmOp::Right => 3,
        ArmOp::Press => 4,
    }
}

/// The key under which the cache keeps the count of `contender` at `depth`.
fn key_bytes(contender: &Vec<ArmOp>, depth: isize) -> (key: Vec<u8>)
    requires
        depth >= 0,
    ensures
        key@ == cache_key(contender@, depth as nat),
{
    let mut key: Vec<u8> = Vec::new();
    let mut d: isize = 0;
    while d < depth
        invariant
            0 <= d <= depth,
            key@ == Seq::new(d as nat, |i: int| 5u8),
        decreases depth - d,
    {
        key.push(5);
        d += 1;
        assert(key@ =~= Seq::new(d as nat, |i: int| 5u8));
    }
    let mut i: usize = 0;
    while i < contender.len()
        invariant
            i <= contender.len(),
            key@ == Seq::new(depth as nat, |k: int| 5u8) + Seq::new(
                i as nat,
                |k: int| op_byte(contender[k]),
            ),
        decreases contender.len() - i,
    {
        key.push(byte_of_op(contender[i]));
        i += 1;
        assert(key@ =~= Seq::new(depth as nat, |k: int| 5u8) + Seq::new(
            i as nat,
            |k: int| op_byte(contender[k]),
        ));
    }
    assert(key@ =~= cache_key(contender@, depth as nat));
    key
}

/// The counts found so far, each under the key of its contender and depth.
pub struct ScoreCache {
    scores: FxHashMap<Vec<u8>, isize>,
}

impl ScoreCache {
    /// Each count that the cache keeps is the count of its contender at its
    /// depth.
    pub closed spec fn wf(&self) -> bool {
        forall|c: Seq<ArmOp>, d: nat| #[trigger]
            byte_table(self.scores).contains_key(cache_key(c, d)) ==> presses(c, d) == Some(
                byte_table(self.scores)[cache_key(c, d)],
            )
    }

    /// The count that the cache keeps for `contender` at `depth`, if it
    /// keeps one.
    pub closed spec fn kept(&self, contender: Seq<ArmOp>, depth: nat) -> Option<isize> {
        if byte_table(self.scores).contains_key(cache_key(contender, depth)) {
            Some(byte_table(self.scores)[cache_key(contender, depth)])
        } else {
            None
        }
    }

    /// A cache that keeps nothing yet.
    pub fn new() -> (cache: ScoreCache)
        ensures
            cache.wf(),
            forall|c: Seq<ArmOp>, d: nat| cache.kept(c, d).is_none(),
    {
        let scores = table_new();
        assert forall|c: Seq<ArmOp>, d: nat| !byte_table(scores).contains_key(cache_key(c, d)) by {
            assert(!byte_table(scores).dom().contains(cache_key(c, d)));
        }
        ScoreCache { scores }
    }

    fn keep(&mut self, contender: &Vec<ArmOp>, depth: isize, key: Vec<u8>, count: isize)
        requires
            old(self).wf(),
            depth >= 0,
            key@ == cache_key(contender@, depth as nat),
            presses(contender@, depth as nat) == Some(count),
        ensures
            final(self).wf(),
            final(self).kept(contender@, depth as nat) == Some(count),
            forall|c: Seq<ArmOp>, d: nat|
                (c, d) != (contender@, depth as nat) ==> #[trigger] final(self).kept(c, d) == old(self).kept(
                    c,
                    d,
                ),
    {
        let ghost before = byte_table(self.scores);
        table_keep(&mut self.scores, key, count);
        proof {
            if before.contains_key(cache_key(contender@, depth as nat)) {
                assert(presses(contender@, depth as nat) == Some(before[cache_key(contender@, depth as nat)]));
            }
            assert forall|c: Seq<ArmOp>, d: nat| (c, d) != (contender@, depth as nat) implies #[trigger] self.kept(
                c,
                d,
            ) == old(self).kept(c, d) by {
                if cache_key(c, d) == cache_key(contender@, depth as nat) {
                    lemma_cache_key_apart(c, d, contender@, depth as nat);
                }
            }
            assert forall|c: Seq<ArmOp>, d: nat| #[trigger]
                byte_table(self.scores).contains_key(cache_key(c, d)) implies presses(c, d) == Some(
                byte_table(self.scores)[cache_key(c, d)],
            ) by {
                if cache_key(c, d) == cache_key(contender@, depth as nat) {
                    lemma_cache_key_apart(c, d, contender@, depth as nat);
                    if before.contains_key(cache_key(c, d)) {
                        assert(presses(c, d) == Some(before[cache_key(c, d)]));
                    }
                } else {
                    assert(before.contains_key(cache_key(c, d)));
                }
            }
        }
    }
}

/// The keys that ask for the moves of `ops`.
pub fn keys_of_ops(ops: &Vec<ArmOp>) -> (keys: Vec<Key>)
    ensures
        keys@ == keys_for(ops@),
{
    let mut keys: Vec<Key> = Vec::new();
    let mut i: usize = 0;
    while i < ops.len()
        invariant
            i <= ops.len(),
            keys.len() == i,
            forall|k: int| 0 <= k < i ==> keys[k] == key_for(ops[k]),
        decreases ops.len() - i,
    {
        keys.push(op_to_key(&ops[i]));
        i += 1;
    }
    assert(keys@ =~= keys_for(ops@));
    keys
}

/// The fewest presses among the contenders of `group`, each typed through
/// `depth - 1` robots.
fn group_min(group: &Vec<Vec<ArmOp>>, depth: isize, score_cache: &mut ScoreCache) -> (least: Option<isize>)
    requires
        old(score_cache).wf(),
        depth > 0,
    ensures
        final(score_cache).wf(),
        least == min_presses(ways(group@), depth as nat, group.len() as int),
    decreases depth, 0int,
{
    let mut min_presses_so_far = isize::MAX;
    let mut i: usize = 0;
    while i < group.len()
        invariant
            i <= group.len(),
            depth > 0,
            score_cache.wf(),
            min_presses(ways(group@), depth as nat, i as int) == Some(min_presses_so_far),
        decreases group.len() - i,
    {
        proof {
            assert(ways(group@)[i as int] == group[i as int]@);
            if min_presses(ways(group@), depth as nat, i + 1).is_none() {
                lemma_min_presses_fails(ways(group@), depth as nat, i + 1, group.len() as int);
            }
        }
        match find_min_presses(&group[i], depth - 1, score_cache) {
            Some(count) => {
                if count < min_presses_so_far {
                    min_presses_so_far = count;
                }
            },
            None => {
                return None;
            },
        }
        i += 1;
    }
    Some(min_presses_so_far)
}

/// The fewest presses of each group of `groups`, together.
fn groups_score(groups: &Vec<Vec<Vec<ArmOp>>>, depth: isize, score_cache: &mut ScoreCache) -> (total: Option<
    isize,
>)
    requires
        old(score_cache).wf(),
        depth > 0,
    ensures
        final(score_cache).wf(),
        total == score(groups_of(groups@), depth as nat, groups.len() as int),
    decreases depth, 1int,
{
    let mut total: isize = 0;
    let mut g: usize = 0;
    while g < groups.len()
        invariant
            g <= groups.len(),
            depth > 0,
            score_cache.wf(),
            0 <= total,
            score(groups_of(groups@), depth as nat, g as int) == Some(total),
        decreases groups.len() - g,
    {
        proof {
            assert(groups_of(groups@)[g as int] == ways(groups[g as int]@));
            lemma_min_presses_positive(ways(groups[g as int]@), depth as nat, groups[g as int].len() as int);
            if score(groups_of(groups@), depth as nat, g + 1).is_none() {
                lemma_score_fails(groups_of(groups@), depth as nat, g + 1, groups.len() as int);
            }
        }
        match group_min(&groups[g], depth, score_cache) {
            Some(least) => match total.checked_add(least) {
                Some(sum) => {
                    total = sum;
                },
                None => {
                    return None;
                },
            },
            None => {
                return None;
            },
        }
        g += 1;
    }
    Some(total)
}

/// The fewest presses on the outermost keypad that get `contender` typed
/// through `depth` robots at directional keypads. What is found is kept in
/// `score_cache` and taken from there the next time.
pub fn find_min_presses(contender: &Vec<ArmOp>, depth: isize, score_cache: &mut ScoreCache) -> (count: Option<
    isize,
>)
    requires
        old(score_cache).wf(),
        depth >= 0,
    ensures
        final(score_cache).wf(),
        count == presses(contender@, depth as nat),
        count.is_some() ==> final(score_cache).kept(contender@, depth as nat) == count,
    decreases depth, 2int,
{
    let key = key_bytes(contender, depth);
    match table_get(&score_cache.scores, key.as_slice()) {
        Some(kept) => {
            return Some(kept);
        },
        None => {},
    }
    if depth == 0 {
        if contender.len() > isize::MAX as usize {
            return None;
        }
        let count = contender.len() as isize;
        score_cache.keep(contender, depth, key, count);
        return Some(count);
    }
    let controller = RobotController { keypad: Keypad::create_directional(), child: None };
    let keys = keys_of_ops(contender);
    let contenders = controller.solve_root_seq(&keys);
    assert(controller.keypad == directional());
    match groups_score(&contenders, depth, score_cache) {
        Some(total) => {
            score_cache.keep(contender, depth, key, total);
            Some(total)
        },
        None => None,
    }
}

/// The numeric keypad.
pub open spec fn numeric_pad() -> Keypad {
    Keypad { numeric: true }
}

/// The complexities of the first `n` codes together, each typed through
/// `robots` robots at directional keypads and one at the numeric keypad.
pub open spec fn robots_total(codes: Seq<Seq<Key>>, robots: nat, n: int) -> Option<isize>
    decreases n,
{
    if n <= 0 {
        Some(0)
    } else {
        let groups = typed_keys(numeric_pad(), codes[n - 1]);
        match (robots_total(codes, robots, n - 1), score(groups, robots + 1, groups.len() as int)) {
            (Some(before), Some(sum)) if numbered(codes[n - 1]) && sum * number_of(codes[n - 1])
                <= isize::MAX && before + sum * number_of(codes[n - 1]) <= isize::MAX => Some(
                (before + sum * number_of(codes[n - 1])) as isize,
            ),
            _ => None,
        }
    }
}

/// Once a code has no complexity, more codes do not mend it.
pub proof fn lemma_robots_total_fails(codes: Seq<Seq<Key>>, robots: nat, n: int, all: int)
    requires
        0 <= n <= all,
        robots_total(codes, robots, n).is_none(),
    ensures
        robots_total(codes, robots, all).is_none(),
    decreases all,
{
    if n < all {
        lemma_robots_total_fails(codes, robots, n, all - 1);
    }
}

/// A count is never negative.
pub proof fn lemma_presses_positive(contender: Seq<ArmOp>, depth: nat)
    ensures
        presses(contender, depth).is_some() ==> presses(contender, depth).unwrap() >= 0,
    decreases depth, 2int, 0int,
{
    if depth > 0 {
        let groups = typed_keys(directional(), keys_for(contender));
        lemma_score_positive(groups, depth, groups.len() as int);
    }
}

/// A least count is never negative.
pub proof fn lemma_min_presses_positive(group: Seq<Seq<ArmOp>>, depth: nat, n: int)
    ensures
        min_presses(group, depth, n).is_some() ==> min_presses(group, depth, n).unwrap() >= 0,
    decreases depth, 0int, n,
{
    if n > 0 && depth > 0 {
        lemma_min_presses_positive(group, depth, n - 1);
        lemma_presses_positive(group[n - 1], (depth - 1) as nat);
    }
}

/// A sum of least counts is never negative.
pub proof fn lemma_score_positive(groups: Seq<Seq<Seq<ArmOp>>>, depth: nat, n: int)
    ensures
        score(groups, depth, n).is_some() ==> score(groups, depth, n).unwrap() >= 0,
    decreases depth, 1int, n,
{
    if n > 0 && depth > 0 {
        lemma_score_positive(groups, depth, n - 1);
        lemma_min_presses_positive(groups[n - 1], depth, groups[n - 1].len() as int);
    }
}

/// The complexities of the codes together, each typed through
/// `directional_robots` robots at directional keypads and one at the
/// numeric keypad.
pub fn solution_for_robots(codes: &Vec<Vec<Key>>, directional_robots: isize) -> (total: Option<isize>)
    requires
        0 <= directional_robots < isize::MAX,
    ensures
        total == robots_total(codes_of(codes@), directional_robots as nat, codes.len() as int),
{
    let controller = RobotController { keypad: Keypad::create_numeric(), child: None };
    let mut press_cache = ScoreCache::new();
    let mut result: isize = 0;
    let mut i: usize = 0;
    while i < codes.len()
        invariant
            i <= codes.len(),
            0 <= directional_robots < isize::MAX,
            controller.keypad == numeric_pad(),
            controller.child.is_none(),
            press_cache.wf(),
            0 <= result,
            robots_total(codes_of(codes@), directional_robots as nat, i as int) == Some(result),
        decreases codes.len() - i,
    {
        let ghost all = codes_of(codes@);
        proof {
            assert(all[i as int] == codes[i as int]@);
            if robots_total(all, directional_robots as nat, i + 1).is_none() {
                lemma_robots_total_fails(all, directional_robots as nat, i + 1, codes.len() as int);
            }
        }
        let key_contender_groups = controller.solve_root_seq(&codes[i]);
        proof {
            lemma_score_positive(
                groups_of(key_contender_groups@),
                (directional_robots + 1) as nat,
                key_contender_groups.len() as int,
            );
        }
        match groups_score(&key_contender_groups, directional_robots + 1, &mut press_cache) {
            Some(code_sum) => {
                if !has_number(&codes[i]) {
                    return None;
                }
                let numeric = numeric_complexity_component(&codes[i]);
                match code_sum.checked_mul(numeric) {
                    Some(product) => match result.checked_add(product) {
                        Some(sum) => {
                            assert(0 <= product) by (nonlinear_arith)
                                requires
                                    product == code_sum * numeric,
                                    0 <= code_sum,
                                    0 <= numeric,
                            ;
                            result = sum;
                        },
                        None => {
                            return None;
                        },
                    },
                    None => {
                        return None;
                    },
                }
            },
            None => {
                return None;
            },
        }
        i += 1;
    }
    Some(result)
}

/// The number of robots at directional keypads in the long row.
pub const MANY_ROBOTS: isize = 25;

/// The complexities of the codes together, each typed through 25 robots at
/// directional keypads and one at the numeric keypad.
pub fn _solution2(codes: &Vec<Vec<Key>>) -> (total: Option<isize>)
    ensures
        total == robots_total(codes_of(codes@), MANY_ROBOTS as nat, codes.len() as int),
{
    solution_for_robots(codes, MANY_ROBOTS)
}

} // verus!
