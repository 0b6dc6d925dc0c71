//! A device of wires and gates: each gate combines the values of two wires
//! into the value of a third, and the wires named `z00`, `z01`, ... spell
//! the number that the device puts out.

use vstd::prelude::*;
use vstd::slice::slice_subrange;
use vstd::slice::slice_to_vec;
use rustc_hash::FxHashMap;
use rustc_hash::FxHashSet;
use crate::tally::byte_strings;
use crate::tally::byte_table;
use crate::tally::strings_all;
use crate::tally::strings_contains;
use crate::tally::strings_insert;
use crate::tally::strings_new;
use crate::tally::strings_of;
use crate::tally::table_get;
use crate::tally::table_keep;
use crate::tally::table_names;
use crate::tally::table_new;
use crate::text::ascii;
use crate::text::bytes_of;
use crate::text::equal;
use crate::text::find;
use crate::text::first_occurrence;
use crate::text::lines;
use crate::text::lines_of;
use crate::text::literal;
use crate::text::parse_isize;
use crate::text::rows;
use crate::text::signed_value;
use crate::text::split;
use crate::text::split_on;
use crate::text::text_bytes;

verus! {

/// What is reported in place of a number by a device that has not come to
/// rest.
pub const UNSETTLED: isize = 99999;

/// The number of rounds after which a device is given up.
pub const MAX_ROUNDS: usize = 100000;

/// The number of wires that spell each number put into a device.
pub const INPUT_BITS: usize = 45;

/// A wire that has its value from the start.
#[derive(Debug)]
pub struct Wire {
    pub id: Vec<u8>,
    pub output_val: isize,
}

#[derive(Clone, Copy, Debug, Eq, Hash, PartialEq)]
pub enum GateKind {
    XOR,
    OR,
    AND,
}

/// A gate: it reads the wires `input1` and `input2` and feeds `output`.
#[derive(Clone, Debug, Eq, Hash, PartialEq)]
pub struct Gate {
    pub input1: Vec<u8>,
    pub input2: Vec<u8>,
    pub output: Vec<u8>,
    pub kind: GateKind,
}

/// A gate, with the names of its wires as plain byte strings.
pub ghost struct Link {
    pub input1: Seq<u8>,
    pub input2: Seq<u8>,
    pub output: Seq<u8>,
    pub kind: GateKind,
}

/// The gates as links.
pub open spec fn links_of(gates: Seq<Gate>) -> Seq<Link> {
    Seq::new(
        gates.len(),
        |i: int|
            Link {
                input1: gates[i].input1@,
                input2: gates[i].input2@,
                output: gates[i].output@,
                kind: gates[i].kind,
            },
    )
}

/// The wires as pairs of a name and a value.
pub open spec fn leads_of(wires: Seq<Wire>) -> Seq<(Seq<u8>, isize)> {
    Seq::new(wires.len(), |i: int| (wires[i].id@, wires[i].output_val))
}

/// The values with `v` under `id`, unless `id` has a value already.
pub open spec fn kept(vals: Map<Seq<u8>, isize>, id: Seq<u8>, v: isize) -> Map<Seq<u8>, isize> {
    if vals.contains_key(id) {
        vals
    } else {
        vals.insert(id, v)
    }
}

/// The values once each of the first `n` wires, in turn, has kept its own.
pub open spec fn seeded(vals: Map<Seq<u8>, isize>, wires: Seq<(Seq<u8>, isize)>, n: int) -> Map<Seq<u8>, isize>
    decreases n,
{
    if n <= 0 {
        vals
    } else {
        kept(seeded(vals, wires, n - 1), wires[n - 1].0, wires[n - 1].1)
    }
}

/// What a gate of `kind` makes of `a` and `b`.
pub open spec fn gate_output(kind: GateKind, a: isize, b: isize) -> isize {
    match kind {
        GateKind::OR => a | b,
        GateKind::XOR => a ^ b,
        GateKind::AND => a & b,
    }
}

/// Gate `g` reads a wire that got its value in the round before, and both
/// its wires have a value.
pub open spec fn fires(g: Link, vals: Map<Seq<u8>, isize>, fresh: Set<Seq<u8>>) -> bool {
    (fresh.contains(g.input1) || fresh.contains(g.input2)) && vals.contains_key(g.input1)
        && vals.contains_key(g.input2)
}

/// One round as far as the first `n` gates: each gate that fires, in turn,
/// has its output keep what it makes of its inputs. The result is the
/// values and the outputs of the gates that fired.
pub open spec fn round(gates: Seq<Link>, vals: Map<Seq<u8>, isize>, fresh: Set<Seq<u8>>, n: int) -> (
    Map<Seq<u8>, isize>,
    Set<Seq<u8>>,
)
    decreases n,
{
    if n <= 0 {
        (vals, Set::empty())
    } else {
        let before = round(gates, vals, fresh, n - 1);
        let g = gates[n - 1];
        if fires(g, before.0, fresh) {
            (
                kept(before.0, g.output, gate_output(g.kind, before.0[g.input1], before.0[g.input2])),
                before.1.insert(g.output),
            )
        } else {
            before
        }
    }
}

/// The values and the fresh wires after rounds go on until no gate fired,
/// but for no more than `rounds` rounds.
pub open spec fn run(gates: Seq<Link>, vals: Map<Seq<u8>, isize>, fresh: Set<Seq<u8>>, rounds: nat) -> (
    Map<Seq<u8>, isize>,
    Set<Seq<u8>>,
)
    decreases rounds,
{
    if fresh =~= Set::empty() || rounds == 0 {
        (vals, fresh)
    } else {
        let next = round(gates, vals, fresh, gates.len() as int);
        run(gates, next.0, next.1, (rounds - 1) as nat)
    }
}

/// The name of wire `n` of the group `letter`: the letter and two digits.
pub open spec fn wire_name(letter: u8, n: int) -> Seq<u8>
    recommends
        0 <= n < 100,
{
    seq![letter, (48 + n / 10) as u8, (48 + n % 10) as u8]
}

/// The wires `z00` up to, but not including, wire `n` of that group have a
/// value, and wire `n` has none.
pub open spec fn spelled(vals: Map<Seq<u8>, isize>, n: int) -> bool {
    &&& forall|k: int| 0 <= k < n ==> vals.contains_key(#[trigger] wire_name(122, k))
    &&& !vals.contains_key(wire_name(122, n))
}

/// What the first `n` wires of the group `z` spell: the value of wire `k`,
/// shifted left by `k`, for each of them, all combined by exclusive or.
pub open spec fn z_value(vals: Map<Seq<u8>, isize>, n: int) -> isize
    decreases n,
{
    if n <= 0 {
        0
    } else {
        z_value(vals, n - 1) ^ (vals[wire_name(122, n - 1)] << ((n - 1) as usize))
    }
}

/// `x` halved `i` times, rounding down each time.
pub open spec fn halved(x: int, i: nat) -> int
    decreases i,
{
    if i == 0 {
        x
    } else {
        halved(x, (i - 1) as nat) / 2
    }
}

/// Bit `i` of `x`.
pub open spec fn bit_of(x: int, i: nat) -> isize {
    if halved(x, i) % 2 == 0 {
        0
    } else {
        1
    }
}

/// The wire of a number put in: wire `k` of the group `x` with bit `k` of
/// `x` for `k` under 45, then the same for `y`.
pub open spec fn sum_lead(x: isize, y: isize, k: int) -> (Seq<u8>, isize) {
    if k < INPUT_BITS {
        (wire_name(120, k), bit_of(x as int, k as nat))
    } else {
        (wire_name(121, k - INPUT_BITS), bit_of(y as int, (k - INPUT_BITS) as nat))
    }
}

/// The name of wire `n` of the group `letter`.
pub fn name_of(letter: u8, n: usize) -> (name: Vec<u8>)
    requires
        n < 100,
    ensures
        name@ == wire_name(letter, n as int),
{
    let mut name: Vec<u8> = Vec::new();
    name.push(letter);
    name.push((48 + n / 10) as u8);
    name.push((48 + n % 10) as u8);
    assert(name@ =~= wire_name(letter, n as int));
    name
}

/// What a gate of `kind` makes of `a` and `b`.
pub fn combine(kind: GateKind, a: isize, b: isize) -> (out: isize)
    ensures
        out == gate_output(kind, a, b),
{
    match kind {
        GateKind::OR => a | b,
        GateKind::XOR => a ^ b,
        GateKind::AND => a & b,
    }
}

/// Appends to `wires` the 45 wires of the group `letter` that spell `x`.
fn push_bits(wires: &mut Vec<Wire>, letter: u8, x: isize)
    ensures
        final(wires).len() == old(wires).len() + INPUT_BITS,
        forall|k: int| 0 <= k < old(wires).len() ==> final(wires)[k] == old(wires)[k],
        forall|k: int|
            0 <= k < INPUT_BITS ==> (#[trigger] final(wires)[old(wires).len() + k]).id@ == wire_name(
                letter,
                k,
            ) && final(wires)[old(wires).len() + k].output_val == bit_of(x as int, k as nat),
{
    let ghost start = wires.len();
    let mut rest = x;
    let mut i: usize = 0;
    while i < INPUT_BITS
        invariant
            i <= INPUT_BITS,
            start == old(wires).len(),
            rest == halved(x as int, i as nat),
            wires.len() == start + i,
            forall|k: int| 0 <= k < start ==> wires[k] == old(wires)[k],
            forall|k: int|
                0 <= k < i ==> (#[trigger] wires[start + k]).id@ == wire_name(letter, k)
                    && wires[start + k].output_val == bit_of(x as int, k as nat),
        decreases INPUT_BITS - i,
    {
        let odd = rest % 2 != 0;
        let output: isize = if odd {
            1
        } else {
            0
        };
        let half = rest / 2;
        wires.push(Wire { id: name_of(letter, i), output_val: output });
        rest = if rest < 0 && odd {
            half - 1
        } else {
            half
        };
        i += 1;
    }
}

/// A device with its wires, its gates and the values that its wires have.
pub struct Device {
    wires: Vec<Wire>,
    gates: Vec<Gate>,
    output_vals: FxHashMap<Vec<u8>, isize>,
}

impl Device {
    /// The wires that have their values from the start.
    pub closed spec fn leads(&self) -> Seq<(Seq<u8>, isize)> {
        leads_of(self.wires@)
    }

    /// The gates.
    pub closed spec fn links(&self) -> Seq<Link> {
        links_of(self.gates@)
    }

    /// The value of each wire that has one.
    pub closed spec fn vals(&self) -> Map<Seq<u8>, isize> {
        byte_table(self.output_vals)
    }

    /// A device of `wires` and `gates` in which no wire has a value yet.
    pub fn new(wires: Vec<Wire>, gates: Vec<Gate>) -> (device: Device)
        ensures
            device.leads() == leads_of(wires@),
            device.links() == links_of(gates@),
            device.vals() == Map::<Seq<u8>, isize>::empty(),
    {
        let output_vals = table_new();
        assert(byte_table(output_vals) =~= Map::<Seq<u8>, isize>::empty());
        Device { wires, gates, output_vals }
    }

    /// The value of the wire `id`, if it has one.
    pub fn output_of(&self, id: &[u8]) -> (value: Option<isize>)
        ensures
            value == (if self.vals().contains_key(id@) {
                Some(self.vals()[id@])
            } else {
                None::<isize>
            }),
    {
        table_get(&self.output_vals, id)
    }

    /// Gives each wire that has no value yet the value it has from the
    /// start, the wires taken in turn.
    pub fn seed_wire_outputs(&mut self)
        ensures
            final(self).leads() == old(self).leads(),
            final(self).links() == old(self).links(),
            final(self).vals() == seeded(old(self).vals(), old(self).leads(), old(self).leads().len() as int),
    {
        let mut i: usize = 0;
        while i < self.wires.len()
            invariant
                i <= self.wires.len(),
                self.wires == old(self).wires,
                self.gates == old(self).gates,
                byte_table(self.output_vals) == seeded(
                    byte_table(old(self).output_vals),
                    leads_of(self.wires@),
                    i as int,
                ),
            decreases self.wires.len() - i,
        {
            let id = slice_to_vec(self.wires[i].id.as_slice());
            let value = self.wires[i].output_val;
            table_keep(&mut self.output_vals, id, value);
            i += 1;
        }
    }

    /// The device with `gates` into which the numbers `x` and `y` are put:
    /// its wires spell `x` and `y` in two groups of 45, and none has a value
    /// yet.
    pub fn from_sum(gates: Vec<Gate>, x: isize, y: isize) -> (device: Device)
        requires
            x <= 17592186044416,
            y <= 17592186044416,
        ensures
            device.links() == links_of(gates@),
            device.vals() == Map::<Seq<u8>, isize>::empty(),
            device.leads() == Seq::new(2 * INPUT_BITS as nat, |k: int| sum_lead(x, y, k)),
    {
        let mut wires: Vec<Wire> = Vec::new();
        push_bits(&mut wires, 120, x);
        push_bits(&mut wires, 121, y);
        assert(leads_of(wires@) =~= Seq::new(2 * INPUT_BITS as nat, |k: int| sum_lead(x, y, k))) by {
            assert forall|k: int| 0 <= k < 2 * INPUT_BITS implies leads_of(wires@)[k] == sum_lead(x, y, k) by {
                if k >= INPUT_BITS {
                    assert(wires[INPUT_BITS + (k - INPUT_BITS)].id@ == wire_name(121, k - INPUT_BITS));
                } else {
                    assert(wires[0 + k].id@ == wire_name(120, k));
                }
            }
        }
        Device::new(wires, gates)
    }
}

/// `out` is what is read off a device that ended with the values `end.0`
/// and the fresh wires `end.1`: `UNSETTLED` where a wire is fresh still;
/// else the number that the wires of the group `z` spell, or nothing where
/// there are more of them than a machine integer has bits.
pub open spec fn reads(out: Option<isize>, end: (Map<Seq<u8>, isize>, Set<Seq<u8>>)) -> bool {
    match out {
        Some(v) => if end.1 =~= Set::<Seq<u8>>::empty() {
            exists|n: int| 0 <= n <= isize::BITS && #[trigger] spelled(end.0, n) && v == z_value(end.0, n)
        } else {
            v == UNSETTLED
        },
        None => end.1 =~= Set::<Seq<u8>>::empty() && forall|n: int|
            0 <= n <= isize::BITS ==> end.0.contains_key(#[trigger] wire_name(122, n)),
    }
}

/// The set with the byte strings of `names`.
fn strings_from(names: &Vec<Vec<u8>>) -> (set: FxHashSet<Vec<u8>>)
    ensures
        byte_strings(set) == strings_of(names@).to_set(),
{
    let mut set = strings_new();
    let mut i: usize = 0;
    while i < names.len()
        invariant
            i <= names.len(),
            forall|s: Seq<u8>|
                byte_strings(set).contains(s) <==> exists|k: int| 0 <= k < i && (#[trigger] names[k])@ == s,
        decreases names.len() - i,
    {
        let ghost before = byte_strings(set);
        strings_insert(&mut set, slice_to_vec(names[i].as_slice()));
        proof {
            assert forall|s: Seq<u8>|
                byte_strings(set).contains(s) <==> exists|k: int|
                    0 <= k < i + 1 && (#[trigger] names[k])@ == s by {
                if before.contains(s) {
                    let k = choose|k: int| 0 <= k < i && (#[trigger] names[k])@ == s;
                    assert(0 <= k < i + 1);
                }
                if s == names[i as int]@ {
                    assert(byte_strings(set).contains(s));
                }
            }
        }
        i += 1;
    }
    proof {
        let all = strings_of(names@);
        assert forall|s: Seq<u8>| byte_strings(set).contains(s) <==> all.to_set().contains(s) by {
            if byte_strings(set).contains(s) {
                let k = choose|k: int| 0 <= k < i && (#[trigger] names[k])@ == s;
                assert(all[k] == s);
            }
            if all.contains(s) {
                let k = choose|k: int| 0 <= k < all.len() && all[k] == s;
                assert(names[k]@ == s);
            }
        }
        assert(byte_strings(set) =~= all.to_set());
    }
    set
}

/// Lets the gates work until the device is at rest, and reads the number
/// that the wires of the group `z` spell.
///
/// First each wire gets the value it has from the start. Then rounds follow:
/// in a round, a gate fires if one of its wires got its value in the round
/// before (in the first round: has a value) and both have one. After
/// `MAX_ROUNDS` rounds an unsettled device is given up, with `UNSETTLED` as
/// the result. `None` where more wires of the group `z` have a value than a
/// machine integer has bits.
pub fn compute_z_output(device: &mut Device) -> (out: Option<isize>)
    ensures
        final(device).leads() == old(device).leads(),
        final(device).links() == old(device).links(),
        ({
            let start = seeded(old(device).vals(), old(device).leads(), old(device).leads().len() as int);
            let end = run(old(device).links(), start, start.dom(), MAX_ROUNDS as nat);
            &&& final(device).vals() == end.0
            &&& reads(out, end)
        }),
{
    device.seed_wire_outputs();
    let names = table_names(&device.output_vals);
    let mut new_outputs = strings_from(&names);
    let ghost links = device.links();
    let ghost start = device.vals();
    let ghost end = run(links, start, start.dom(), MAX_ROUNDS as nat);
    let mut ct: usize = 0;
    loop
        invariant_except_break
            ct <= MAX_ROUNDS,
            start == seeded(old(device).vals(), old(device).leads(), old(device).leads().len() as int),
            end == run(links, start, start.dom(), MAX_ROUNDS as nat),
            device.leads() == old(device).leads(),
            device.links() == links,
            links == old(device).links(),
            run(links, start, start.dom(), MAX_ROUNDS as nat) == run(
                links,
                device.vals(),
                byte_strings(new_outputs),
                (MAX_ROUNDS - ct) as nat,
            ),
        ensures
            device.leads() == old(device).leads(),
            device.links() == links,
            run(links, start, start.dom(), MAX_ROUNDS as nat) == (device.vals(), byte_strings(new_outputs)),
            byte_strings(new_outputs) =~= Set::<Seq<u8>>::empty(),
        decreases MAX_ROUNDS - ct,
    {
        let pending = strings_all(&new_outputs);
        let ghost fresh = byte_strings(new_outputs);
        if pending.len() == 0 {
            proof {
                assert(strings_of(pending@) =~= Seq::<Seq<u8>>::empty());
                assert(fresh =~= Set::<Seq<u8>>::empty());
            }
            break;
        }
        proof {
            assert(strings_of(pending@)[0] == pending[0]@);
            assert(strings_of(pending@).to_set().contains(pending[0]@));
            assert(fresh.contains(pending[0]@));
            assert(!(fresh =~= Set::<Seq<u8>>::empty()));
        }
        if ct >= MAX_ROUNDS {
            proof {
                assert(run(links, device.vals(), fresh, 0) == (device.vals(), fresh));
                assert(end.1 == fresh);
            }
            return Some(UNSETTLED);
        }
        ct += 1;
        let ghost before = device.vals();
        let mut next_new_outputs = strings_new();
        let mut i: usize = 0;
        while i < device.gates.len()
            invariant
                i <= device.gates.len(),
                device.leads() == old(device).leads(),
                device.links() == links,
                fresh == byte_strings(new_outputs),
                (device.vals(), byte_strings(next_new_outputs)) == round(links, before, fresh, i as int),
            decreases device.gates.len() - i,
        {
            assert(links[i as int].input1 == device.gates[i as int].input1@);
            let in1 = strings_contains(&new_outputs, device.gates[i].input1.as_slice());
            let in2 = strings_contains(&new_outputs, device.gates[i].input2.as_slice());
            if in1 || in2 {
                let input1_o = table_get(&device.output_vals, device.gates[i].input1.as_slice());
                let input2_o = table_get(&device.output_vals, device.gates[i].input2.as_slice());
                match (input1_o, input2_o) {
                    (Some(a), Some(b)) => {
                        let new_output = combine(device.gates[i].kind, a, b);
                        let id = slice_to_vec(device.gates[i].output.as_slice());
                        table_keep(&mut device.output_vals, id, new_output);
                        strings_insert(&mut next_new_outputs, slice_to_vec(device.gates[i].output.as_slice()));
                    },
                    _ => (),
                }
            }
            i += 1;
        }
        new_outputs = next_new_outputs;
    }
    let mut z_count: usize = 0;
    let mut result: isize = 0;
    let ghost vals = device.vals();
    loop
        invariant
            z_count <= isize::BITS,
            vals == device.vals(),
            device.leads() == old(device).leads(),
            device.links() == old(device).links(),
            links == old(device).links(),
            start == seeded(old(device).vals(), old(device).leads(), old(device).leads().len() as int),
            end == run(links, start, start.dom(), MAX_ROUNDS as nat),
            end.0 == vals,
            end.1 =~= Set::<Seq<u8>>::empty(),
            forall|k: int| 0 <= k < z_count ==> vals.contains_key(#[trigger] wire_name(122, k)),
            result == z_value(vals, z_count as int),
        decreases isize::BITS - z_count,
    {
        match table_get(&device.output_vals, name_of(122, z_count).as_slice()) {
            Some(output) => {
                if z_count >= isize::BITS as usize {
                    proof {
                        assert forall|n: int| 0 <= n <= isize::BITS implies vals.contains_key(
                            #[trigger] wire_name(122, n),
                        ) by {}
                    }
                    return None;
                }
                result = result ^ (output << z_count);
                z_count += 1;
            },
            None => {
                assert(spelled(vals, z_count as int));
                return Some(result);
            },
        }
    }
}

/// A space, a tab, a line feed, a vertical tab, a form feed or a carriage
/// return.
pub open spec fn is_space(b: u8) -> bool {
    (9 <= b <= 13) || b == 32
}

/// `s` with a space in place of each byte of white space.
pub open spec fn spaced(s: Seq<u8>) -> Seq<u8> {
    Seq::new(s.len(), |i: int| if is_space(s[i]) { 32u8 } else { s[i] })
}

/// The words of `s`: what stands between stretches of white space.
pub open spec fn words_of(s: Seq<u8>) -> Seq<Seq<u8>> {
    split_on(spaced(s), 32).filter(|w: Seq<u8>| w.len() > 0)
}

/// The words of `line`.
pub fn words(line: &[u8]) -> (found: Vec<Vec<u8>>)
    ensures
        rows(found@) == words_of(line@),
{
    let mut plain: Vec<u8> = Vec::new();
    let mut i: usize = 0;
    while i < line.len()
        invariant
            i <= line.len(),
            plain.len() == i,
            forall|k: int| 0 <= k < i ==> plain[k] == spaced(line@)[k],
        decreases line.len() - i,
    {
        let b = line[i];
        if (9 <= b && b <= 13) || b == 32 {
            plain.push(32);
        } else {
            plain.push(b);
        }
        i += 1;
    }
    assert(plain@ =~= spaced(line@));
    let parts = split(plain.as_slice(), 32);
    let ghost full = |w: Seq<u8>| w.len() > 0;
    let mut found: Vec<Vec<u8>> = Vec::new();
    let mut i: usize = 0;
    assert(rows(parts@).take(0) =~~= Seq::<Seq<u8>>::empty());
    assert(rows(found@) =~~= rows(parts@).take(0).filter(full));
    while i < parts.len()
        invariant
            i <= parts.len(),
            full == |w: Seq<u8>| w.len() > 0,
            rows(found@) == rows(parts@).take(i as int).filter(full),
        decreases parts.len() - i,
    {
        proof {
            assert(rows(parts@).take(i + 1) =~~= rows(parts@).take(i as int).push(parts[i as int]@));
            rows(parts@).take(i as int).lemma_filter_push(parts[i as int]@, full);
        }
        if parts[i].len() > 0 {
            let ghost before = rows(found@);
            found.push(slice_to_vec(parts[i].as_slice()));
            assert(rows(found@) =~~= before.push(parts[i as int]@));
        }
        i += 1;
    }
    assert(rows(parts@).take(i as int) =~~= rows(parts@));
    found
}

/// The number of lines before the first empty one.
pub open spec fn head_len(lines: Seq<Seq<u8>>) -> nat
    decreases lines.len(),
{
    if lines.len() == 0 || lines[0].len() == 0 {
        0
    } else {
        1 + head_len(lines.skip(1))
    }
}

/// The number of lines after the last empty one.
pub open spec fn tail_len(lines: Seq<Seq<u8>>) -> nat
    decreases lines.len(),
{
    if lines.len() == 0 || lines.last().len() == 0 {
        0
    } else {
        1 + tail_len(lines.drop_last())
    }
}

/// The wire that `line` writes: a name, a colon and a space, and a value.
pub open spec fn lead_of(line: Seq<u8>) -> Option<(Seq<u8>, isize)> {
    match first_occurrence(line, ascii(": "@)) {
        Some(at) if 0 <= at && at + 2 <= line.len() => match signed_value(line.skip(at + 2)) {
            Some(v) if isize::MIN <= v <= isize::MAX => Some((line.take(at), v as isize)),
            _ => None,
        },
        _ => None,
    }
}

/// The wires that the first `n` lines write, if each writes one.
pub open spec fn leads_in(lines: Seq<Seq<u8>>, n: int) -> Option<Seq<(Seq<u8>, isize)>>
    decreases n,
{
    if n <= 0 {
        Some(Seq::empty())
    } else {
        match (leads_in(lines, n - 1), lead_of(lines[n - 1])) {
            (Some(before), Some(lead)) => Some(before.push(lead)),
            _ => None,
        }
    }
}

/// The kind of gate that `word` names.
pub open spec fn kind_of(word: Seq<u8>) -> Option<GateKind> {
    if word == ascii("XOR"@) {
        Some(GateKind::XOR)
    } else if word == ascii("OR"@) {
        Some(GateKind::OR)
    } else if word == ascii("AND"@) {
        Some(GateKind::AND)
    } else {
        None
    }
}

/// A gate as `line` writes it in five words: a wire, a kind, a wire, an
/// arrow and the wire that is fed.
pub open spec fn link_of(line: Seq<u8>) -> Option<Link> {
    let w = words_of(line);
    if w.len() >= 5 {
        match kind_of(w[1]) {
            Some(kind) => Some(Link { input1: w[0], input2: w[2], output: w[4], kind }),
            None => None,
        }
    } else {
        None
    }
}

/// The gates that the last `m` lines write, the last line first, if each
/// writes one.
pub open spec fn links_in(lines: Seq<Seq<u8>>, m: int) -> Option<Seq<Link>>
    decreases m,
{
    if m <= 0 {
        Some(Seq::empty())
    } else {
        match (links_in(lines, m - 1), link_of(lines[lines.len() - m])) {
            (Some(before), Some(link)) => Some(before.push(link)),
            _ => None,
        }
    }
}

/// Once a line writes no wire, more lines do not mend it.
pub proof fn lemma_leads_fail(lines: Seq<Seq<u8>>, n: int, all: int)
    requires
        0 <= n <= all,
        leads_in(lines, n).is_none(),
    ensures
        leads_in(lines, all).is_none(),
    decreases all,
{
    if n < all {
        lemma_leads_fail(lines, n, all - 1);
    }
}

/// Once a line writes no gate, more lines do not mend it.
pub proof fn lemma_links_fail(lines: Seq<Seq<u8>>, m: int, all: int)
    requires
        0 <= m <= all,
        links_in(lines, m).is_none(),
    ensures
        links_in(lines, all).is_none(),
    decreases all,
{
    if m < all {
        lemma_links_fail(lines, m, all - 1);
    }
}

/// The wire that `line` writes.
pub fn parse_wire(line: &[u8]) -> (wire: Option<Wire>)
    ensures
        match wire {
            Some(w) => lead_of(line@) == Some((w.id@, w.output_val)),
            None => lead_of(line@).is_none(),
        },
{
    proof {
        reveal_strlit(": ");
    }
    match find(line, literal(": ")) {
        Some(at) => {
            let end = line.len();
            assert(ascii(": "@).len() == 2);
            let id = slice_to_vec(slice_subrange(line, 0, at));
            let rest = slice_subrange(line, at + 2, end);
            assert(id@ =~= line@.take(at as int));
            assert(rest@ =~= line@.skip(at + 2));
            match parse_isize(rest) {
                Some(output_val) => Some(Wire { id, output_val }),
                None => None,
            }
        },
        None => None,
    }
}

/// A gate as `line` writes it.
pub fn parse_gate(line: &[u8]) -> (gate: Option<Gate>)
    ensures
        match gate {
            Some(g) => link_of(line@) == Some(
                Link { input1: g.input1@, input2: g.input2@, output: g.output@, kind: g.kind },
            ),
            None => link_of(line@).is_none(),
        },
{
    proof {
        reveal_strlit("XOR");
        reveal_strlit("OR");
        reveal_strlit("AND");
    }
    let components = words(line);
    if components.len() < 5 {
        return None;
    }
    assert(rows(components@)[0] == components[0]@);
    assert(rows(components@)[1] == components[1]@);
    assert(rows(components@)[2] == components[2]@);
    assert(rows(components@)[4] == components[4]@);
    let op = components[1].as_slice();
    let kind = if equal(op, literal("XOR")) {
        GateKind::XOR
    } else if equal(op, literal("OR")) {
        GateKind::OR
    } else if equal(op, literal("AND")) {
        GateKind::AND
    } else {
        return None;
    };
    Some(
        Gate {
            input1: slice_to_vec(components[0].as_slice()),
            input2: slice_to_vec(components[2].as_slice()),
            output: slice_to_vec(components[4].as_slice()),
            kind,
        },
    )
}

/// The device written in `input`: its wires on the lines before the first
/// empty line, its gates on the lines after the last one, the last line
/// first. No wire has a value yet. `None` where one of those lines writes
/// no wire, or no gate.
pub fn parse(input: &String) -> (device: Option<Device>)
    ensures
        match device {
            Some(d) => {
                &&& leads_in(lines_of(bytes_of(input@)), head_len(lines_of(bytes_of(input@))) as int)
                    == Some(d.leads())
                &&& links_in(lines_of(bytes_of(input@)), tail_len(lines_of(bytes_of(input@))) as int)
                    == Some(d.links())
                &&& d.vals() == Map::<Seq<u8>, isize>::empty()
            },
            None => leads_in(lines_of(bytes_of(input@)), head_len(lines_of(bytes_of(input@))) as int).is_none()
                || links_in(
                lines_of(bytes_of(input@)),
                tail_len(lines_of(bytes_of(input@))) as int,
            ).is_none(),
        },
{
    let found = lines(text_bytes(input));
    let ghost text = rows(found@);
    let mut wires: Vec<Wire> = Vec::new();
    let mut i: usize = 0;
    proof {
        assert(text.skip(0) =~= text);
    }
    while i < found.len() && found[i].len() > 0
        invariant
            i <= found.len(),
            text == rows(found@),
            text == lines_of(bytes_of(input@)),
            head_len(text) == i + head_len(text.skip(i as int)),
            leads_in(text, i as int) == Some(leads_of(wires@)),
        decreases found.len() - i,
    {
        proof {
            assert(text[i as int] == found[i as int]@);
            assert(text.skip(i as int)[0] == text[i as int]);
            assert(text.skip(i as int).skip(1) =~= text.skip(i + 1));
        }
        match parse_wire(found[i].as_slice()) {
            Some(wire) => {
                let ghost before = leads_of(wires@);
                wires.push(wire);
                assert(leads_of(wires@) =~= before.push((wire.id@, wire.output_val)));
            },
            None => {
                proof {
                    assert(leads_in(text, i + 1).is_none());
                    lemma_leads_fail(text, i + 1, head_len(text) as int);
                }
                return None;
            },
        }
        i += 1;
    }
    proof {
        if i < found.len() {
            assert(text[i as int] == found[i as int]@);
            assert(text.skip(i as int)[0] == text[i as int]);
        }
        assert(head_len(text) == i);
    }
    let mut gates: Vec<Gate> = Vec::new();
    let mut m: usize = 0;
    proof {
        assert(text.take(text.len() as int) =~= text);
    }
    while m < found.len() && found[found.len() - 1 - m].len() > 0
        invariant
            m <= found.len(),
            text == rows(found@),
            text == lines_of(bytes_of(input@)),
            head_len(text) == i,
            leads_in(text, i as int) == Some(leads_of(wires@)),
            tail_len(text) == m + tail_len(text.take(found.len() - m)),
            links_in(text, m as int) == Some(links_of(gates@)),
        decreases found.len() - m,
    {
        let at = found.len() - 1 - m;
        proof {
            assert(text[at as int] == found[at as int]@);
            assert(text.take(found.len() - m).last() == text[at as int]);
            assert(text.take(found.len() - m).drop_last() =~= text.take(found.len() - m - 1));
        }
        match parse_gate(found[at].as_slice()) {
            Some(gate) => {
                let ghost before = links_of(gates@);
                gates.push(gate);
                assert(links_of(gates@) =~= before.push(
                    Link {
                        input1: gate.input1@,
                        input2: gate.input2@,
                        output: gate.output@,
                        kind: gate.kind,
                    },
                ));
            },
            None => {
                proof {
                    assert(links_in(text, m + 1).is_none());
                    lemma_links_fail(text, m + 1, tail_len(text) as int);
                }
                return None;
            },
        }
        m += 1;
    }
    proof {
        if m < found.len() {
            let at = found.len() - 1 - m;
            assert(text[at] == found[at]@);
            assert(text.take(found.len() - m).last() == text[at]);
        }
        assert(tail_len(text) == m);
    }
    Some(Device::new(wires, gates))
}

/// The number that the device written in `input` puts out.
pub fn _solution1(input: &String) -> (out: Option<isize>)
    ensures
        match (
            leads_in(lines_of(bytes_of(input@)), head_len(lines_of(bytes_of(input@))) as int),
            links_in(lines_of(bytes_of(input@)), tail_len(lines_of(bytes_of(input@))) as int),
        ) {
            (Some(leads), Some(links)) => reads(
                out,
                run(
                    links,
                    seeded(Map::empty(), leads, leads.len() as int),
                    seeded(Map::empty(), leads, leads.len() as int).dom(),
                    MAX_ROUNDS as nat,
                ),
            ),
            _ => out.is_none(),
        },
{
    match parse(input) {
        Some(device) => {
            let mut device = device;
            compute_z_output(&mut device)
        },
        None => None,
    }
}

} // verus!
