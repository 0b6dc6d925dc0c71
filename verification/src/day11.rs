//! Stones that change each time one blinks: a tree whose leaves are the
//! stones, and the rule by which a stone gives way to one or two others.

use vstd::prelude::*;
use crate::text::bytes_of;
use crate::text::decimal;
use crate::text::is_trimmed;
use crate::text::parse_usize;
use crate::text::rows;
use crate::text::split;
use crate::text::split_on;
use crate::text::text_bytes;
use crate::text::trim;
use crate::text::unsigned_value;

verus! {

broadcast use vstd::std_specs::vec::axiom_vec_index_decreases;

/// The stone `value`, and below it the stones that it has become.
pub struct StoneTree {
    pub value: usize,
    pub children: Vec<StoneTree>,
}

/// Ten to the power `k`.
pub open spec fn pow10(k: nat) -> nat
    decreases k,
{
    if k == 0 {
        1
    } else {
        10 * pow10((k - 1) as nat)
    }
}

/// How many decimal digits `num` has.
pub open spec fn digits(num: usize) -> nat {
    decimal(num as nat).len()
}

/// A number lies between the powers of ten that its digits give.
pub proof fn lemma_digits_bounds(n: nat)
    ensures
        decimal(n).len() >= 1,
        n < pow10(decimal(n).len()),
        n >= 1 ==> pow10((decimal(n).len() - 1) as nat) <= n,
    decreases n,
{
    if n >= 10 {
        lemma_digits_bounds(n / 10);
        assert(pow10(1) == 10) by {
            reveal_with_fuel(pow10, 2);
        }
    } else {
        assert(pow10(1) == 10) by {
            reveal_with_fuel(pow10, 2);
        }
    }
}

proof fn lemma_pow10_grows(a: nat, b: nat)
    requires
        a <= b,
    ensures
        1 <= pow10(a) <= pow10(b),
    decreases b,
{
    if b > 0 {
        if a < b {
            lemma_pow10_grows(a, (b - 1) as nat);
        } else {
            lemma_pow10_grows((a - 1) as nat, (b - 1) as nat);
        }
    }
}

pub fn count_digits(num: usize) -> (count: usize)
    ensures
        count == digits(num),
        1 <= count,
{
    let mut count: usize = 1;
    let mut rest: usize = num;
    proof {
        lemma_digits_bounds(num as nat);
    }
    while rest >= 10
        invariant
            1 <= count,
            count + decimal(rest as nat).len() == 1 + decimal(num as nat).len(),
            count + rest <= num + 1,
        decreases rest,
    {
        proof {
            lemma_digits_bounds((rest / 10) as nat);
        }
        rest = rest / 10;
        count += 1;
    }
    count
}

/// `num` cut between the upper and the lower half of its digits.
pub open spec fn halves(num: usize) -> (usize, usize) {
    let p = pow10(digits(num) / 2) as int;
    ((num as int / p) as usize, (num as int % p) as usize)
}

pub fn split_in_half(num: usize) -> (parts: (usize, usize))
    requires
        digits(num) % 2 == 0,
    ensures
        parts == halves(num),
{
    let d = count_digits(num);
    let mut p: usize = 1;
    let mut k: usize = 0;
    proof {
        lemma_digits_bounds(num as nat);
        assert(num >= 1) by {
            if num == 0 {
                assert(decimal(0).len() == 1);
            }
        }
    }
    while k < d / 2
        invariant
            k <= d / 2,
            d == digits(num),
            d >= 2,
            num >= 1,
            pow10((d - 1) as nat) <= num,
            p == pow10(k as nat),
        decreases d / 2 - k,
    {
        proof {
            lemma_pow10_grows((k + 1) as nat, (d - 1) as nat);
        }
        p = p * 10;
        k += 1;
    }
    proof {
        lemma_pow10_grows(0, (d / 2) as nat);
    }
    (num / p, num % p)
}

/// The stones that a stone becomes when one blinks: 0 becomes 1; a stone
/// with an even number of digits is cut in two; any other is multiplied by
/// 2024.
pub open spec fn child_values(val: usize) -> (usize, Option<usize>) {
    if val == 0 {
        (1, None)
    } else if digits(val) % 2 == 0 {
        (halves(val).0, Some(halves(val).1))
    } else {
        ((val * 2024) as usize, None)
    }
}

/// The stone can change in machine integers.
pub open spec fn can_change(val: usize) -> bool {
    val == 0 || digits(val) % 2 == 0 || val * 2024 <= usize::MAX
}

/// The stones of `values`, as a sequence.
pub open spec fn stones(values: (usize, Option<usize>)) -> Seq<usize> {
    match values.1 {
        Some(second) => seq![values.0, second],
        None => seq![values.0],
    }
}

/// The stones after one blink.
pub open spec fn blink(values: Seq<usize>) -> Seq<usize>
    decreases values.len(),
{
    if values.len() == 0 {
        Seq::empty()
    } else {
        blink(values.drop_last()) + stones(child_values(values.last()))
    }
}

/// Blinking at two rows of stones is blinking at each.
pub proof fn lemma_blink_concat(a: Seq<usize>, b: Seq<usize>)
    ensures
        blink(a + b) == blink(a) + blink(b),
    decreases b.len(),
{
    if b.len() == 0 {
        assert(a + b =~= a);
    } else {
        lemma_blink_concat(a, b.drop_last());
        assert((a + b).drop_last() =~= a + b.drop_last());
        assert(blink(a + b) =~= blink(a) + blink(b));
    }
}

impl StoneTree {
    /// The stones at the leaves below the first `count` children, from
    /// left to right.
    pub open spec fn leaves_upto(self, count: nat) -> Seq<usize>
        decreases self, count,
    {
        if count == 0 || count > self.children.len() {
            Seq::empty()
        } else {
            self.leaves_upto((count - 1) as nat) + self.children[count - 1].leaves()
        }
    }

    /// The stones at the leaves of the tree, from left to right.
    pub open spec fn leaves(self) -> Seq<usize>
        decreases self, self.children.len() + 1,
    {
        if self.children.len() == 0 {
            seq![self.value]
        } else {
            self.leaves_upto(self.children.len() as nat)
        }
    }

    /// Every stone at a leaf can change in machine integers.
    pub open spec fn can_step(self) -> bool {
        forall|i: int| 0 <= i < self.leaves().len() ==> can_change(#[trigger] self.leaves()[i])
    }

    pub fn compute_child_values(&self, val: usize) -> (values: (usize, Option<usize>))
        requires
            can_change(val),
        ensures
            values == child_values(val),
    {
        if val == 0 {
            (1, None)
        } else if count_digits(val) % 2 == 0 {
            let (child_val1, child_val2) = split_in_half(val);
            (child_val1, Some(child_val2))
        } else {
            (val * 2024, None)
        }
    }

    /// Hangs below the stone the stones that it becomes.
    pub fn build_children(&mut self)
        requires
            can_change(old(self).value),
        ensures
            final(self).value == old(self).value,
            final(self).children.len() >= old(self).children.len() + 1,
            old(self).children.len() == 0 ==> final(self).leaves() == stones(
                child_values(old(self).value),
            ),
    {
        let child_vals = self.compute_child_values(self.value);
        self.children.push(StoneTree { value: child_vals.0, children: Vec::new() });
        match child_vals.1 {
            Some(v) => {
                self.children.push(StoneTree { value: v, children: Vec::new() });
            },
            None => {},
        }
        proof {
            if old(self).children.len() == 0 {
                assert(self.children[0].leaves() == seq![child_vals.0]);
                assert(self.leaves_upto(0) =~= Seq::<usize>::empty());
                assert(self.leaves_upto(1) =~= seq![child_vals.0]);
                if child_vals.1.is_some() {
                    assert(self.children[1].leaves() == seq![child_vals.1.unwrap()]);
                    assert(self.leaves_upto(2) =~= seq![child_vals.0, child_vals.1.unwrap()]);
                    assert(self.leaves() =~= stones(child_values(old(self).value)));
                } else {
                    assert(self.leaves() =~= stones(child_values(old(self).value)));
                }
            }
        }
    }

    /// The stones at the leaves of the tree, from left to right.
    pub fn get_leaf_nodes(&self) -> (leaves: Vec<usize>)
        ensures
            leaves@ == self.leaves(),
    {
        let mut leaves: Vec<usize> = Vec::new();
        self._get_leaf_nodes(&mut leaves);
        leaves
    }

    pub fn _get_leaf_nodes(&self, leaves: &mut Vec<usize>)
        ensures
            final(leaves)@ == old(leaves)@ + self.leaves(),
        decreases self,
    {
        if self.children.len() == 0 {
            leaves.push(self.value);
            assert(leaves@ =~= old(leaves)@ + self.leaves());
        } else {
            let mut i: usize = 0;
            assert(leaves@ =~= old(leaves)@ + self.leaves_upto(0));
            while i < self.children.len()
                invariant
                    i <= self.children.len(),
                    leaves@ == old(leaves)@ + self.leaves_upto(i as nat),
                decreases self.children.len() - i,
            {
                let ghost before = leaves@;
                self.children[i]._get_leaf_nodes(leaves);
                assert(leaves@ =~= old(leaves)@ + self.leaves_upto((i + 1) as nat));
                i += 1;
            }
        }
    }
}


/// How many stones lie below the first `count` children of `tree`.
pub open spec fn count_upto(tree: StoneTree, count: nat) -> nat
    decreases tree, count,
{
    if count == 0 || count > tree.children.len() {
        0
    } else {
        count_upto(tree, (count - 1) as nat) + count_of(tree.children[count - 1])
    }
}

/// How many stones the tree holds: its leaves, but for a leaf that stands
/// for no stone, which holds the greatest machine integer.
pub open spec fn count_of(tree: StoneTree) -> nat
    decreases tree, tree.children.len() + 1,
{
    if tree.children.len() == 0 {
        if tree.value == usize::MAX {
            0
        } else {
            1
        }
    } else {
        count_upto(tree, tree.children.len() as nat)
    }
}

proof fn lemma_count_upto_grows(tree: StoneTree, count: nat, all: nat)
    requires
        count <= all <= tree.children.len(),
    ensures
        count_upto(tree, count) <= count_upto(tree, all),
    decreases all,
{
    if all > count {
        lemma_count_upto_grows(tree, count, (all - 1) as nat);
    }
}

impl StoneTree {
    /// How many stones the tree holds; `None` where they are more than
    /// machine integers count.
    pub fn count_leaf_nodes(&self) -> (count: Option<usize>)
        ensures
            match count {
                Some(n) => n == count_of(*self),
                None => count_of(*self) > usize::MAX,
            },
        decreases self,
    {
        if self.children.len() == 0 {
            if self.value == usize::MAX {
                Some(0)
            } else {
                Some(1)
            }
        } else {
            let mut result: usize = 0;
            let mut i: usize = 0;
            while i < self.children.len()
                invariant
                    i <= self.children.len(),
                    result == count_upto(*self, i as nat),
                decreases self.children.len() - i,
            {
                let added = match self.children[i].count_leaf_nodes() {
                    Some(n) => result.checked_add(n),
                    None => None,
                };
                match added {
                    Some(total) => {
                        result = total;
                    },
                    None => {
                        proof {
                            lemma_count_upto_grows(
                                *self,
                                (i + 1) as nat,
                                self.children.len() as nat,
                            );
                        }
                        return None;
                    },
                }
                i += 1;
            }
            Some(result)
        }
    }

    /// One blink: every stone at a leaf gets below it the stones that it
    /// becomes.
    pub fn step(&mut self)
        requires
            old(self).can_step(),
        ensures
            final(self).leaves() == blink(old(self).leaves()),
            final(self).children.len() > 0,
        decreases *old(self),
    {
        if self.children.len() == 0 {
            proof {
                assert(self.leaves()[0] == self.value);
                assert(blink(seq![self.value]) =~= stones(child_values(self.value))) by {
                    assert(seq![self.value].drop_last() =~= Seq::<usize>::empty());
                    reveal_with_fuel(blink, 2);
                }
            }
            self.build_children();
        } else {
            let mut i: usize = 0;
            while i < self.children.len()
                invariant
                    i <= self.children.len(),
                    self.children.len() == old(self).children.len(),
                    self.children.len() > 0,
                    old(self).can_step(),
                    forall|k: int|
                        i <= k < self.children.len() ==> self.children[k] == old(self).children[k],
                    self.leaves_upto(i as nat) == blink(old(self).leaves_upto(i as nat)),
                decreases self.children.len() - i,
            {
                let ghost before = *self;
                proof {
                    lemma_child_can_step(*old(self), i as int);
                }
                self.children[i].step();
                proof {
                    lemma_leaves_upto_same(*self, before, i as nat);
                    lemma_blink_concat(
                        old(self).leaves_upto(i as nat),
                        old(self).children[i as int].leaves(),
                    );
                }
                i += 1;
            }
            proof {
                assert(old(self).leaves() == old(self).leaves_upto(old(self).children.len() as nat));
            }
        }
    }
}

/// The leaves below the first children are the same in two trees whose
/// first children are the same.
pub proof fn lemma_leaves_upto_same(a: StoneTree, b: StoneTree, count: nat)
    requires
        count <= a.children.len(),
        count <= b.children.len(),
        forall|k: int| 0 <= k < count ==> a.children[k] == b.children[k],
    ensures
        a.leaves_upto(count) == b.leaves_upto(count),
    decreases count,
{
    if count > 0 {
        lemma_leaves_upto_same(a, b, (count - 1) as nat);
    }
}

/// The leaves below a child are leaves of the tree.
pub proof fn lemma_child_leaves(tree: StoneTree, child: int, count: nat)
    requires
        0 <= child < count <= tree.children.len(),
    ensures
        forall|i: int|
            0 <= i < tree.children[child].leaves().len() ==> tree.leaves_upto(count).contains(
                #[trigger] tree.children[child].leaves()[i],
            ),
    decreases count,
{
    let below = tree.children[child].leaves();
    let before = tree.leaves_upto((count - 1) as nat);
    let last = tree.children[count - 1].leaves();
    if child < count - 1 {
        lemma_child_leaves(tree, child, (count - 1) as nat);
        assert forall|i: int| 0 <= i < below.len() implies tree.leaves_upto(count).contains(
            #[trigger] below[i],
        ) by {
            let at = choose|at: int| 0 <= at < before.len() && before[at] == below[i];
            assert((before + last)[at] == below[i]);
        }
    } else {
        assert forall|i: int| 0 <= i < below.len() implies tree.leaves_upto(count).contains(
            #[trigger] below[i],
        ) by {
            assert((before + last)[before.len() + i] == below[i]);
        }
    }
}

/// Where every stone of a tree can change, every stone below a child can.
pub proof fn lemma_child_can_step(tree: StoneTree, child: int)
    requires
        0 <= child < tree.children.len(),
        tree.can_step(),
    ensures
        tree.children[child].can_step(),
{
    lemma_child_leaves(tree, child, tree.children.len() as nat);
    let below = tree.children[child].leaves();
    assert forall|i: int| 0 <= i < below.len() implies can_change(#[trigger] below[i]) by {
        assert(tree.leaves().contains(below[i]));
        let at = choose|at: int| 0 <= at < tree.leaves().len() && tree.leaves()[at] == below[i];
        assert(can_change(tree.leaves()[at]));
    }
}


/// The numbers that `fields` write, if each writes one that fits a machine
/// word.
pub open spec fn values_of(fields: Seq<Seq<u8>>) -> Option<Seq<usize>>
    decreases fields.len(),
{
    if fields.len() == 0 {
        Some(Seq::empty())
    } else {
        match (values_of(fields.drop_last()), unsigned_value(fields.last())) {
            (Some(before), Some(v)) if v <= usize::MAX => Some(before.push(v as usize)),
            _ => None,
        }
    }
}

/// The stones written in `inner`, with a blank between one and the next.
pub open spec fn stones_in(inner: Seq<char>) -> Option<Seq<usize>> {
    values_of(split_on(bytes_of(inner), 32))
}

/// The values of `trees`.
pub open spec fn values(trees: Seq<StoneTree>) -> Seq<usize> {
    Seq::new(trees.len(), |i: int| trees[i].value)
}

impl StoneTree {
    /// The tree whose children are the stones written in `inner`, each a
    /// leaf; the root stands for no stone.
    pub fn from_trimmed(inner: &String) -> (tree: Option<StoneTree>)
        ensures
            match tree {
                Some(read) => {
                    &&& stones_in(inner@) == Some(values(read.children@))
                    &&& read.value == usize::MAX
                    &&& read.children.len() >= 1
                    &&& forall|i: int|
                        0 <= i < read.children.len() ==> (#[trigger] read.children[i]).children.len()
                            == 0
                },
                None => stones_in(inner@).is_none(),
            },
    {
        let fields = split(text_bytes(inner), 32);
        let mut children: Vec<StoneTree> = Vec::new();
        let mut ok = true;
        let mut i: usize = 0;
        assert(rows(fields@).take(0) =~~= Seq::<Seq<u8>>::empty());
        assert(values(children@) =~= Seq::<usize>::empty());
        while i < fields.len()
            invariant
                i <= fields.len(),
                rows(fields@) == split_on(bytes_of(inner@), 32),
                ok ==> values_of(rows(fields@).take(i as int)) == Some(values(children@)),
                ok ==> children.len() == i,
                !ok ==> values_of(rows(fields@).take(i as int)).is_none(),
                forall|k: int|
                    0 <= k < children.len() ==> (#[trigger] children[k]).children.len() == 0,
            decreases fields.len() - i,
        {
            assert(rows(fields@).take(i + 1).drop_last() =~~= rows(fields@).take(i as int));
            assert(rows(fields@).take(i + 1).last() == fields[i as int]@);
            match parse_usize(fields[i].as_slice()) {
                Some(val) => {
                    if ok {
                        let ghost before = values(children@);
                        children.push(StoneTree { value: val, children: Vec::new() });
                        assert(values(children@) =~= before.push(val));
                    }
                },
                None => {
                    ok = false;
                },
            }
            i += 1;
        }
        assert(rows(fields@).take(i as int) =~~= rows(fields@));
        if ok {
            Some(StoneTree { value: usize::MAX, children })
        } else {
            None
        }
    }

    /// The tree whose children are the stones written in `input`, white
    /// space at the two ends of the text left aside.
    pub fn from(input: &String) -> (tree: Option<StoneTree>)
        ensures
            exists|inner: Seq<char>| #[trigger]
                is_trimmed(input@, inner) && match tree {
                    Some(read) => stones_in(inner) == Some(values(read.children@)) && read.value
                        == usize::MAX,
                    None => stones_in(inner).is_none(),
                },
    {
        let inner = trim(input.as_str());
        StoneTree::from_trimmed(&inner)
    }
}


/// Every stone of `values` can change in machine integers.
pub open spec fn all_can_change(values: Seq<usize>) -> bool {
    forall|i: int| 0 <= i < values.len() ==> can_change(#[trigger] values[i])
}

/// The stones after `count` blinks.
pub open spec fn blink_many(values: Seq<usize>, count: nat) -> Seq<usize>
    decreases count,
{
    if count == 0 {
        values
    } else {
        blink(blink_many(values, (count - 1) as nat))
    }
}

/// How many blinks can be done in machine integers, `count` at most.
pub open spec fn blinks_possible(values: Seq<usize>, count: nat) -> nat
    decreases count,
{
    if count == 0 {
        0
    } else {
        let before = blinks_possible(values, (count - 1) as nat);
        if before == count - 1 && all_can_change(blink_many(values, (count - 1) as nat)) {
            count
        } else {
            before
        }
    }
}

/// How many of `values` are stones: all but the greatest machine integer,
/// which stands for none.
pub open spec fn stone_count(values: Seq<usize>) -> nat
    decreases values.len(),
{
    if values.len() == 0 {
        0
    } else {
        stone_count(values.drop_last()) + (if values.last() == usize::MAX {
            0nat
        } else {
            1nat
        })
    }
}

proof fn lemma_stone_count_concat(a: Seq<usize>, b: Seq<usize>)
    ensures
        stone_count(a + b) == stone_count(a) + stone_count(b),
    decreases b.len(),
{
    if b.len() == 0 {
        assert(a + b =~= a);
    } else {
        lemma_stone_count_concat(a, b.drop_last());
        assert((a + b).drop_last() =~= a + b.drop_last());
    }
}

/// A tree with children holds as many stones as its leaves are stones.
pub proof fn lemma_count_of_leaves(tree: StoneTree)
    requires
        tree.children.len() > 0,
    ensures
        count_of(tree) == stone_count(tree.leaves()),
    decreases tree, tree.children.len() + 1,
{
    lemma_count_upto_leaves(tree, tree.children.len() as nat);
}

proof fn lemma_count_upto_leaves(tree: StoneTree, count: nat)
    requires
        count <= tree.children.len(),
    ensures
        count_upto(tree, count) == stone_count(tree.leaves_upto(count)),
    decreases tree, count,
{
    if count > 0 {
        lemma_count_upto_leaves(tree, (count - 1) as nat);
        let child = tree.children[count - 1];
        if child.children.len() > 0 {
            lemma_count_of_leaves(child);
        } else {
            assert(child.leaves() =~= seq![child.value]);
            assert(seq![child.value].drop_last() =~= Seq::<usize>::empty());
            assert(stone_count(seq![child.value]) == count_of(child)) by {
                reveal_with_fuel(stone_count, 2);
            }
        }
        lemma_stone_count_concat(tree.leaves_upto((count - 1) as nat), child.leaves());
    }
}

/// Whether the stone `val` can change in machine integers.
pub fn stone_can_change(val: usize) -> (ok: bool)
    ensures
        ok == can_change(val),
{
    val == 0 || count_digits(val) % 2 == 0 || val.checked_mul(2024).is_some()
}

impl StoneTree {
    /// Whether every stone at a leaf can change in machine integers.
    pub fn can_blink(&self) -> (ok: bool)
        ensures
            ok == self.can_step(),
    {
        let leaves = self.get_leaf_nodes();
        let mut i: usize = 0;
        while i < leaves.len()
            invariant
                i <= leaves.len(),
                leaves@ == self.leaves(),
                forall|k: int| 0 <= k < i ==> can_change(#[trigger] leaves[k]),
            decreases leaves.len() - i,
        {
            if !stone_can_change(leaves[i]) {
                return false;
            }
            i += 1;
        }
        true
    }

    /// Blinks `count` times, or as often as machine integers allow, and
    /// returns how often.
    pub fn blink_times(&mut self, count: usize) -> (done: usize)
        ensures
            done == blinks_possible(old(self).leaves(), count as nat),
            done <= count,
            final(self).leaves() == blink_many(old(self).leaves(), done as nat),
            old(self).children.len() > 0 ==> final(self).children.len() > 0,
    {
        let mut done: usize = 0;
        while done < count
            invariant
                done <= count,
                done == blinks_possible(old(self).leaves(), done as nat),
                self.leaves() == blink_many(old(self).leaves(), done as nat),
                old(self).children.len() > 0 ==> self.children.len() > 0,
            decreases count - done,
        {
            if !self.can_blink() {
                proof {
                    lemma_blinks_stop(old(self).leaves(), done as nat, count as nat);
                }
                return done;
            }
            self.step();
            done += 1;
        }
        done
    }
}

/// Once a blink cannot be done, no later one is.
proof fn lemma_blinks_stop(values: Seq<usize>, done: nat, count: nat)
    requires
        done < count,
        done == blinks_possible(values, done),
        !all_can_change(blink_many(values, done)),
    ensures
        blinks_possible(values, count) == done,
    decreases count,
{
    if count > done + 1 {
        lemma_blinks_stop(values, done, (count - 1) as nat);
    }
}

/// How many stones there are after `blinks` blinks at the stones written
/// in `inner`; `None` where the text is malformed, a stone outgrows the
/// machine integers on the way, or there are more stones than machine
/// integers count.
pub open spec fn stones_after(inner: Seq<char>, blinks: nat) -> Option<usize> {
    match stones_in(inner) {
        Some(first) if blinks_possible(first, blinks) == blinks && stone_count(
            blink_many(first, blinks),
        ) <= usize::MAX => Some(stone_count(blink_many(first, blinks)) as usize),
        _ => None,
    }
}

/// How many stones there are after `blinks` blinks at the stones written in
/// `input`.
pub fn count_after(input: &String, blinks: usize) -> (count: Option<usize>)
    ensures
        exists|inner: Seq<char>| #[trigger]
            is_trimmed(input@, inner) && count == stones_after(inner, blinks as nat),
{
    let inner = trim(input.as_str());
    match StoneTree::from_trimmed(&inner) {
        None => None,
        Some(tree) => {
            let mut tree = tree;
            proof {
                lemma_children_are_leaves(tree, tree.children.len() as nat);
            }
            let ghost first = tree.leaves();
            assert(first =~= values(tree.children@));
            let done = tree.blink_times(blinks);
            if done < blinks {
                return None;
            }
            proof {
                lemma_count_of_leaves(tree);
            }
            tree.count_leaf_nodes()
        },
    }
}

/// The leaves of a tree whose first children are leaves are the values of
/// those children.
proof fn lemma_children_are_leaves(tree: StoneTree, count: nat)
    requires
        count <= tree.children.len(),
        forall|i: int| 0 <= i < tree.children.len() ==> (#[trigger] tree.children[i]).children.len()
            == 0,
    ensures
        tree.leaves_upto(count) == values(tree.children@).take(count as int),
    decreases count,
{
    if count > 0 {
        lemma_children_are_leaves(tree, (count - 1) as nat);
        assert(tree.children[count - 1].leaves() =~= seq![tree.children[count - 1].value]);
        assert(tree.leaves_upto(count) =~= values(tree.children@).take(count as int));
    } else {
        assert(tree.leaves_upto(0) =~= values(tree.children@).take(0));
    }
}


pub const NUM_BLINKS_PT1: usize = 25;

/// How many stones there are after 25 blinks at the stones written in
/// `input`.
pub fn _solution1(input: &String) -> (count: Option<usize>)
    ensures
        exists|inner: Seq<char>| #[trigger]
            is_trimmed(input@, inner) && count == stones_after(inner, NUM_BLINKS_PT1 as nat),
{
    count_after(input, NUM_BLINKS_PT1)
}

} // verus!
