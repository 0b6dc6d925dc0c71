//! Rules that say which page is printed before which, and updates put in
//! the order that the rules ask for.

use vstd::prelude::*;
use crate::text::bytes_of;
use crate::text::lines;
use crate::text::lines_of;
use crate::text::parse_usize;
use crate::text::rows;
use crate::text::split;
use crate::text::split_on;
use crate::text::text_bytes;
use crate::text::unsigned_value;

verus! {

/// The page `before` is printed before the page `after`.
#[derive(Debug, Clone, Copy, PartialEq, Eq, Structural)]
pub struct OrderRule {
    pub before: usize,
    pub after: usize,
}

/// The rules, in the order in which they were given. Of two rules on the
/// same two pages the first one counts.
pub struct OrderingRules {
    pub rules: Vec<OrderRule>,
}

pub struct Update {
    pub page_numbers: Vec<usize>,
}

pub struct PrintUpdates {
    pub updates: Vec<Update>,
}

pub struct PrintInstructions {
    pub rules: OrderingRules,
    pub updates: PrintUpdates,
}

/// The smaller of two pages first.
pub open spec fn pair_of(a: usize, b: usize) -> (usize, usize) {
    if a <= b {
        (a, b)
    } else {
        (b, a)
    }
}

/// The first of the first `count` rules that speaks of the two pages of
/// `key`.
pub open spec fn rule_for(rules: Seq<OrderRule>, key: (usize, usize), count: nat) -> Option<
    OrderRule,
>
    decreases count,
{
    if count == 0 || count > rules.len() {
        None
    } else {
        match rule_for(rules, key, (count - 1) as nat) {
            Some(rule) => Some(rule),
            None => if pair_of(rules[count - 1].before, rules[count - 1].after) == key {
                Some(rules[count - 1])
            } else {
                None
            },
        }
    }
}

/// The rule found for a pair speaks of that pair.
pub proof fn lemma_rule_for_speaks_of_key(rules: Seq<OrderRule>, key: (usize, usize), count: nat)
    requires
        rule_for(rules, key, count).is_some(),
    ensures
        pair_of(rule_for(rules, key, count).unwrap().before, rule_for(rules, key, count).unwrap().after)
            == key,
    decreases count,
{
    if count > 0 && count <= rules.len() && rule_for(rules, key, (count - 1) as nat).is_some() {
        lemma_rule_for_speaks_of_key(rules, key, (count - 1) as nat);
    }
}

/// How two pages stand to each other by the rules that speak of both.
#[derive(Debug, Clone, Copy, PartialEq, Eq, Structural)]
pub enum PageOrder {
    Before,
    Same,
    After,
}

/// How `a` stands to `b`: the same page, or after it where the rule on the
/// two says so, else before it.
pub open spec fn page_order(rules: Seq<OrderRule>, a: usize, b: usize) -> PageOrder
    recommends
        rule_for(rules, pair_of(a, b), rules.len()).is_some(),
{
    if a == b {
        PageOrder::Same
    } else if rule_for(rules, pair_of(a, b), rules.len()).unwrap().after == a {
        PageOrder::After
    } else {
        PageOrder::Before
    }
}

/// Where a rule speaks of two different pages, one of them comes before the
/// other and not the other way round.
pub proof fn lemma_page_order_antisymmetric(rules: Seq<OrderRule>, a: usize, b: usize)
    requires
        a != b,
        rule_for(rules, pair_of(a, b), rules.len()).is_some(),
    ensures
        (page_order(rules, a, b) == PageOrder::After) == (page_order(rules, b, a)
            == PageOrder::Before),
        (page_order(rules, a, b) == PageOrder::Before) == (page_order(rules, b, a)
            == PageOrder::After),
{
    lemma_rule_for_speaks_of_key(rules, pair_of(a, b), rules.len());
    assert(pair_of(a, b) == pair_of(b, a));
}

/// The rule that a line `before|after` writes.
pub open spec fn rule_of(line: Seq<u8>) -> Option<OrderRule> {
    let parts = split_on(line, 124);
    if parts.len() < 2 {
        None
    } else {
        match (numbers_of(parts)) {
            Some(pages) => Some(OrderRule { before: pages[0], after: pages[1] }),
            None => None,
        }
    }
}

/// The numbers that `fields` write, if each writes one that fits a machine
/// word.
pub open spec fn numbers_of(fields: Seq<Seq<u8>>) -> Option<Seq<usize>>
    decreases fields.len(),
{
    if fields.len() == 0 {
        Some(Seq::empty())
    } else {
        match (numbers_of(fields.drop_last()), unsigned_value(fields.last())) {
            (Some(before), Some(v)) if v <= usize::MAX => Some(before.push(v as usize)),
            _ => None,
        }
    }
}

/// Reads every field as a number.
pub fn parse_fields(fields: &Vec<Vec<u8>>) -> (values: Option<Vec<usize>>)
    ensures
        match values {
            Some(v) => numbers_of(rows(fields@)) == Some(v@),
            None => numbers_of(rows(fields@)).is_none(),
        },
{
    let mut values: Vec<usize> = Vec::new();
    let mut ok = true;
    let mut i: usize = 0;
    assert(rows(fields@).take(0) =~~= Seq::<Seq<u8>>::empty());
    while i < fields.len()
        invariant
            i <= fields.len(),
            ok ==> numbers_of(rows(fields@).take(i as int)) == Some(values@),
            !ok ==> numbers_of(rows(fields@).take(i as int)).is_none(),
        decreases fields.len() - i,
    {
        assert(rows(fields@).take(i + 1).drop_last() =~~= rows(fields@).take(i as int));
        assert(rows(fields@).take(i + 1).last() == fields[i as int]@);
        match parse_usize(fields[i].as_slice()) {
            Some(v) => {
                if ok {
                    values.push(v);
                }
            },
            None => {
                ok = false;
            },
        }
        i += 1;
    }
    assert(rows(fields@).take(i as int) =~~= rows(fields@));
    if ok {
        Some(values)
    } else {
        None
    }
}

proof fn lemma_numbers_of_len(fields: Seq<Seq<u8>>)
    requires
        numbers_of(fields).is_some(),
    ensures
        numbers_of(fields).unwrap().len() == fields.len(),
    decreases fields.len(),
{
    if fields.len() > 0 {
        lemma_numbers_of_len(fields.drop_last());
    }
}

impl OrderingRules {
    pub fn new() -> (rules: OrderingRules)
        ensures
            rules.rules@.len() == 0,
    {
        OrderingRules { rules: Vec::new() }
    }

    /// Adds the rule written on `line` as `before|after`. Returns whether
    /// the line wrote one; where it did not, nothing changes.
    pub fn from_str(&mut self, line: &[u8]) -> (added: bool)
        ensures
            match rule_of(line@) {
                Some(rule) => added && final(self).rules@ == old(self).rules@.push(rule),
                None => !added && final(self).rules@ == old(self).rules@,
            },
    {
        let parts = split(line, 124);
        if parts.len() < 2 {
            return false;
        }
        match parse_fields(&parts) {
            Some(page_numbers) => {
                proof {
                    lemma_numbers_of_len(rows(parts@));
                }
                self.rules.push(OrderRule { before: page_numbers[0], after: page_numbers[1] });
                true
            },
            None => false,
        }
    }

    /// The rules, in the order in which they were given.
    pub fn iter(&self) -> (rules: &Vec<OrderRule>)
        ensures
            rules@ == self.rules@,
    {
        &self.rules
    }

    /// The rule that counts for the two pages of `key`, the smaller page
    /// first.
    pub fn find(&self, key: (usize, usize)) -> (found: Option<OrderRule>)
        ensures
            found == rule_for(self.rules@, key, self.rules.len() as nat),
    {
        let mut i: usize = 0;
        while i < self.rules.len()
            invariant
                i <= self.rules.len(),
                rule_for(self.rules@, key, i as nat).is_none(),
            decreases self.rules.len() - i,
        {
            let rule = self.rules[i];
            let low = if rule.before <= rule.after {
                rule.before
            } else {
                rule.after
            };
            let high = if rule.before <= rule.after {
                rule.after
            } else {
                rule.before
            };
            if low == key.0 && high == key.1 {
                proof {
                    lemma_rule_for_stays(self.rules@, key, (i + 1) as nat, self.rules.len() as nat);
                }
                return Some(rule);
            }
            i += 1;
        }
        None
    }

    /// Whether a rule speaks of the two pages of `key`, the smaller page
    /// first.
    pub fn contains(&self, key: (usize, usize)) -> (known: bool)
        ensures
            known == rule_for(self.rules@, key, self.rules.len() as nat).is_some(),
    {
        self.find(key).is_some()
    }

    /// How `a` stands to `b` by the rules, for two pages that a rule speaks
    /// of or that are the same.
    pub fn get_comparator(&self, a: &usize, b: &usize) -> (order: PageOrder)
        requires
            *a == *b || rule_for(self.rules@, pair_of(*a, *b), self.rules.len() as nat).is_some(),
        ensures
            order == page_order(self.rules@, *a, *b),
    {
        if *a == *b {
            return PageOrder::Same;
        }
        let key = if *a <= *b {
            (*a, *b)
        } else {
            (*b, *a)
        };
        match self.find(key) {
            Some(order_rule) => {
                if order_rule.after == *a {
                    PageOrder::After
                } else {
                    PageOrder::Before
                }
            },
            None => PageOrder::Same,
        }
    }
}

/// A rule found among the first rules is the rule found among all.
pub proof fn lemma_rule_for_stays(rules: Seq<OrderRule>, key: (usize, usize), count: nat, all: nat)
    requires
        count <= all <= rules.len(),
        rule_for(rules, key, count).is_some(),
    ensures
        rule_for(rules, key, all) == rule_for(rules, key, count),
    decreases all,
{
    if all > count {
        lemma_rule_for_stays(rules, key, count, (all - 1) as nat);
    }
}

/// The pairs of pages of `pages`, the smaller page first in each: those of
/// the first page with each later one, then those of the second, and so on.
pub open spec fn pairs_upto(pages: Seq<usize>, i: nat, j: nat) -> Seq<(usize, usize)>
    decreases i, j,
{
    if i >= pages.len() {
        Seq::empty()
    } else if j <= i + 1 || j > pages.len() {
        if i == 0 {
            Seq::empty()
        } else {
            pairs_upto(pages, (i - 1) as nat, pages.len())
        }
    } else {
        pairs_upto(pages, i, (j - 1) as nat).push(pair_of(pages[i as int], pages[j - 1]))
    }
}

/// All pairs of pages of `pages`.
pub open spec fn all_pairs(pages: Seq<usize>) -> Seq<(usize, usize)> {
    if pages.len() < 2 {
        Seq::empty()
    } else {
        pairs_upto(pages, (pages.len() - 2) as nat, pages.len())
    }
}

impl Update {
    pub fn get_pairs(&self) -> (pairs: Vec<(usize, usize)>)
        ensures
            pairs@ == all_pairs(self.page_numbers@),
    {
        let mut pairs: Vec<(usize, usize)> = Vec::new();
        let n = self.page_numbers.len();
        if n < 2 {
            return pairs;
        }
        let mut i: usize = 0;
        assert(pairs@ =~= pairs_upto(self.page_numbers@, 0, 0));
        while i < n - 1
            invariant
                n == self.page_numbers.len(),
                n >= 2,
                i <= n - 1,
                pairs@ == (if i == 0 {
                    Seq::<(usize, usize)>::empty()
                } else {
                    pairs_upto(self.page_numbers@, (i - 1) as nat, n as nat)
                }),
            decreases n - i,
        {
            let mut j: usize = i + 1;
            assert(pairs@ =~= pairs_upto(self.page_numbers@, i as nat, (i + 1) as nat));
            while j < n
                invariant
                    n == self.page_numbers.len(),
                    i + 1 <= j <= n,
                    i < n - 1,
                    pairs@ == pairs_upto(self.page_numbers@, i as nat, j as nat),
                decreases n - j,
            {
                let first = self.page_numbers[i];
                let second = self.page_numbers[j];
                let pair = if first <= second {
                    (first, second)
                } else {
                    (second, first)
                };
                pairs.push(pair);
                j += 1;
            }
            i += 1;
        }
        pairs
    }
}

impl PrintUpdates {
    pub fn new() -> (updates: PrintUpdates)
        ensures
            updates.updates@.len() == 0,
    {
        PrintUpdates { updates: Vec::new() }
    }

    /// Adds the update written on `line` as pages with commas between
    /// them. Returns whether the line wrote one.
    pub fn from_str(&mut self, line: &[u8]) -> (added: bool)
        ensures
            match numbers_of(split_on(line@, 44)) {
                Some(pages) => {
                    &&& added
                    &&& final(self).updates.len() == old(self).updates.len() + 1
                    &&& final(self).updates@.last().page_numbers@ == pages
                    &&& final(self).updates@.drop_last() == old(self).updates@
                },
                None => !added && final(self).updates@ == old(self).updates@,
            },
    {
        let parts = split(line, 44);
        match parse_fields(&parts) {
            Some(page_numbers) => {
                self.updates.push(Update { page_numbers });
                assert(self.updates@.drop_last() =~= old(self).updates@);
                true
            },
            None => false,
        }
    }

    pub fn add(&mut self, update: Update)
        ensures
            final(self).updates@ == old(self).updates@.push(update),
    {
        self.updates.push(update);
    }

    pub fn iter(&self) -> (updates: &Vec<Update>)
        ensures
            updates@ == self.updates@,
    {
        &self.updates
    }

    pub fn at(&self, idx: usize) -> (update: &Update)
        requires
            idx < self.updates.len(),
        ensures
            *update == self.updates[idx as int],
    {
        &self.updates[idx]
    }
}

/// A rule speaks of every two different pages of `pages`.
pub open spec fn all_ruled(rules: Seq<OrderRule>, pages: Seq<usize>) -> bool {
    forall|i: int, j: int|
        0 <= i < pages.len() && 0 <= j < pages.len() && pages[i] != pages[j] ==> rule_for(
            rules,
            #[trigger] pair_of(pages[i], pages[j]),
            rules.len(),
        ).is_some()
}

/// The page at `i` does not stand before the page in front of it.
pub open spec fn ordered_at(rules: Seq<OrderRule>, pages: Seq<usize>, i: int) -> bool {
    page_order(rules, pages[i - 1], pages[i]) != PageOrder::After
}

/// No page of `pages` stands after the page that follows it.
pub open spec fn in_order(rules: Seq<OrderRule>, pages: Seq<usize>) -> bool {
    forall|i: int| 0 < i < pages.len() ==> #[trigger] ordered_at(rules, pages, i)
}

/// A rule speaks of `page` and each page of `pages` that differs from it.
pub open spec fn ruled_with(rules: Seq<OrderRule>, pages: Seq<usize>, page: usize) -> bool {
    forall|k: int|
        0 <= k < pages.len() && pages[k] != page ==> rule_for(
            rules,
            #[trigger] pair_of(pages[k], page),
            rules.len(),
        ).is_some()
}

/// Every entry of a sequence with the same entries as the first `count` of
/// `all` is an entry of `all`.
proof fn lemma_same_entries(part: Seq<usize>, all: Seq<usize>, count: int)
    requires
        0 <= count <= all.len(),
        part.to_multiset() == all.take(count).to_multiset(),
    ensures
        forall|k: int| 0 <= k < part.len() ==> all.contains(#[trigger] part[k]),
{
    broadcast use vstd::seq_lib::group_to_multiset_ensures;

    assert forall|k: int| 0 <= k < part.len() implies all.contains(#[trigger] part[k]) by {
        assert(part.contains(part[k]));
        assert(part.to_multiset().count(part[k]) > 0);
        assert(all.take(count).contains(part[k]));
        let j = choose|j: int| 0 <= j < all.take(count).len() && all.take(count)[j] == part[k];
        assert(all[j] == part[k]);
    }
}

/// Putting a page into a sequence adds it to the entries.
proof fn lemma_insert_entries(before: Seq<usize>, at: int, page: usize)
    requires
        0 <= at <= before.len(),
    ensures
        before.insert(at, page).to_multiset() == before.to_multiset().insert(page),
{
    vstd::seq_lib::to_multiset_insert(before, at, page);
}

/// The entries of a sequence that has grown by one at the end.
proof fn lemma_push_entries(before: Seq<usize>, page: usize)
    ensures
        before.push(page).to_multiset() == before.to_multiset().insert(page),
{
    broadcast use vstd::seq_lib::group_to_multiset_ensures;

}

/// Where `page` goes among `pages`, looking from `at` toward the front:
/// before the last run of pages that stand after it.
pub open spec fn place_of(rules: Seq<OrderRule>, pages: Seq<usize>, page: usize, at: nat) -> nat
    decreases at,
{
    if at == 0 || at > pages.len() {
        0
    } else if page_order(rules, pages[at - 1], page) == PageOrder::After {
        place_of(rules, pages, page, (at - 1) as nat)
    } else {
        at
    }
}

/// `pages` with `page` put in its place.
pub open spec fn placed(rules: Seq<OrderRule>, pages: Seq<usize>, page: usize) -> Seq<usize> {
    pages.insert(place_of(rules, pages, page, pages.len()) as int, page)
}

/// `pages` put in order one after another, each in its place among those
/// before it.
pub open spec fn sorted_pages(rules: Seq<OrderRule>, pages: Seq<usize>) -> Seq<usize>
    decreases pages.len(),
{
    if pages.len() == 0 {
        pages
    } else {
        placed(rules, sorted_pages(rules, pages.drop_last()), pages.last())
    }
}

impl OrderingRules {
    /// Puts `page` into the ordered `pages`, before the last run of pages
    /// that stand after it.
    pub fn place(&self, pages: &mut Vec<usize>, page: usize)
        requires
            in_order(self.rules@, old(pages)@),
            ruled_with(self.rules@, old(pages)@, page),
        ensures
            final(pages)@ == placed(self.rules@, old(pages)@, page),
            in_order(self.rules@, final(pages)@),
            final(pages)@.to_multiset() == old(pages)@.to_multiset().insert(page),
    {
        let ghost rules = self.rules@;
        let ghost before = pages@;
        let mut at: usize = pages.len();
        while at > 0
            invariant
                at <= pages.len(),
                pages@ == before,
                rules == self.rules@,
                ruled_with(rules, before, page),
                at < pages.len() ==> page_order(rules, page, pages[at as int]) != PageOrder::After,
                place_of(rules, before, page, at as nat) == place_of(
                    rules,
                    before,
                    page,
                    before.len(),
                ),
            ensures
                at > 0 ==> page_order(rules, pages[at - 1], page) != PageOrder::After,
                at == place_of(rules, before, page, before.len()),
            decreases at,
        {
            let prev = pages[at - 1];
            proof {
                if prev != page {
                    assert(rule_for(rules, pair_of(before[at - 1], page), rules.len()).is_some());
                    lemma_page_order_antisymmetric(rules, prev, page);
                }
            }
            match self.get_comparator(&prev, &page) {
                PageOrder::After => {
                    at -= 1;
                },
                _ => {
                    break;
                },
            }
        }
        pages.insert(at, page);
        proof {
            assert(pages@ =~= before.insert(at as int, page));
            lemma_insert_entries(before, at as int, page);
            assert forall|k: int| 0 < k < pages.len() implies #[trigger] ordered_at(
                rules,
                pages@,
                k,
            ) by {
                if k < at {
                    assert(pages[k] == before[k]);
                    assert(pages[k - 1] == before[k - 1]);
                    assert(ordered_at(rules, before, k));
                } else if k == at {
                    assert(pages[k - 1] == before[k - 1]);
                } else if k == at + 1 {
                    assert(pages[k] == before[k - 1]);
                } else {
                    assert(pages[k] == before[k - 1]);
                    assert(pages[k - 1] == before[k - 2]);
                    assert(ordered_at(rules, before, k - 1));
                }
            }
        }
    }
}

impl PrintInstructions {
    /// The pages of `update` in an order in which no page stands after the
    /// page that follows it.
    pub fn get_ordered_update(&self, update: &Update) -> (ordered: Update)
        requires
            all_ruled(self.rules.rules@, update.page_numbers@),
        ensures
            ordered.page_numbers@ == sorted_pages(self.rules.rules@, update.page_numbers@),
            ordered.page_numbers@.to_multiset() == update.page_numbers@.to_multiset(),
            in_order(self.rules.rules@, ordered.page_numbers@),
    {
        let ghost rules = self.rules.rules@;
        let mut pages: Vec<usize> = Vec::new();
        let mut i: usize = 0;
        assert(update.page_numbers@.take(0) =~= pages@);
        while i < update.page_numbers.len()
            invariant
                i <= update.page_numbers.len(),
                rules == self.rules.rules@,
                all_ruled(rules, update.page_numbers@),
                pages@.to_multiset() == update.page_numbers@.take(i as int).to_multiset(),
                pages@ == sorted_pages(rules, update.page_numbers@.take(i as int)),
                in_order(rules, pages@),
            decreases update.page_numbers.len() - i,
        {
            let page = update.page_numbers[i];
            proof {
                lemma_same_entries(pages@, update.page_numbers@, i as int);
                assert forall|k: int| 0 <= k < pages.len() && pages[k] != page implies rule_for(
                    rules,
                    #[trigger] pair_of(pages[k], page),
                    rules.len(),
                ).is_some() by {
                    let j = choose|j: int|
                        0 <= j < update.page_numbers.len() && update.page_numbers[j] == pages[k];
                    assert(rule_for(
                        rules,
                        pair_of(update.page_numbers[j], update.page_numbers[i as int]),
                        rules.len(),
                    ).is_some());
                }
                assert(update.page_numbers@.take(i + 1) =~= update.page_numbers@.take(
                    i as int,
                ).push(page));
                assert(update.page_numbers@.take(i + 1).drop_last() =~= update.page_numbers@.take(
                    i as int,
                ));
                lemma_push_entries(update.page_numbers@.take(i as int), page);
            }
            self.rules.place(&mut pages, page);
            i += 1;
        }
        assert(update.page_numbers@.take(i as int) =~= update.page_numbers@);
        Update { page_numbers: pages }
    }
}


/// What the lines up to the first empty one and the lines after it write:
/// rules before, updates after.
pub struct Instructions {
    pub rules: Seq<OrderRule>,
    pub updates: Seq<Seq<usize>>,
    pub past_break: bool,
}

/// The instructions that `lines` write; `None` where a line before the
/// empty one writes no rule, or a line after it no update.
pub open spec fn instructions_in(lines: Seq<Seq<u8>>) -> Option<Instructions>
    decreases lines.len(),
{
    if lines.len() == 0 {
        Some(Instructions { rules: Seq::empty(), updates: Seq::empty(), past_break: false })
    } else {
        let line = lines.last();
        match instructions_in(lines.drop_last()) {
            None => None,
            Some(before) => if line.len() == 0 {
                Some(Instructions { past_break: true, ..before })
            } else if before.past_break {
                match numbers_of(split_on(line, 44)) {
                    Some(pages) => Some(
                        Instructions { updates: before.updates.push(pages), ..before },
                    ),
                    None => None,
                }
            } else {
                match rule_of(line) {
                    Some(rule) => Some(Instructions { rules: before.rules.push(rule), ..before }),
                    None => None,
                }
            },
        }
    }
}

/// The pages of each of `updates`.
pub open spec fn pages_of(updates: Seq<Update>) -> Seq<Seq<usize>> {
    Seq::new(updates.len(), |i: int| updates[i].page_numbers@)
}

impl PrintInstructions {
    /// The rules and the updates written in `raw_details`: rules up to the
    /// first empty line, updates after it.
    pub fn from(raw_details: &String) -> (read: Option<PrintInstructions>)
        ensures
            match read {
                Some(instructions) => {
                    &&& instructions_in(lines_of(bytes_of(raw_details@))).is_some()
                    &&& instructions.rules.rules@ == instructions_in(
                        lines_of(bytes_of(raw_details@)),
                    ).unwrap().rules
                    &&& pages_of(instructions.updates.updates@) == instructions_in(
                        lines_of(bytes_of(raw_details@)),
                    ).unwrap().updates
                },
                None => instructions_in(lines_of(bytes_of(raw_details@))).is_none(),
            },
    {
        let found = lines(text_bytes(raw_details));
        let mut rules = OrderingRules::new();
        let mut updates = PrintUpdates::new();
        let mut break_encountered = false;
        let mut ok = true;
        let mut i: usize = 0;
        assert(rows(found@).take(0) =~~= Seq::<Seq<u8>>::empty());
        assert(pages_of(updates.updates@) =~~= Seq::<Seq<usize>>::empty());
        assert(rules.rules@ =~= Seq::<OrderRule>::empty());
        while i < found.len()
            invariant
                i <= found.len(),
                rows(found@) == lines_of(bytes_of(raw_details@)),
                ok ==> instructions_in(rows(found@).take(i as int)) == Some(
                    Instructions {
                        rules: rules.rules@,
                        updates: pages_of(updates.updates@),
                        past_break: break_encountered,
                    },
                ),
                !ok ==> instructions_in(rows(found@).take(i as int)).is_none(),
            decreases found.len() - i,
        {
            assert(rows(found@).take(i + 1).drop_last() =~~= rows(found@).take(i as int));
            assert(rows(found@).take(i + 1).last() == found[i as int]@);
            let line = found[i].as_slice();
            if ok {
                if line.len() == 0 {
                    break_encountered = true;
                } else if break_encountered {
                    let ghost before = pages_of(updates.updates@);
                    if !updates.from_str(line) {
                        ok = false;
                    } else {
                        assert(pages_of(updates.updates@) =~~= before.push(
                            updates.updates@.last().page_numbers@,
                        )) by {
                            assert(updates.updates@.drop_last().len() == before.len());
                            assert forall|k: int| 0 <= k < before.len() implies pages_of(
                                updates.updates@,
                            )[k] == before[k] by {
                                assert(updates.updates@[k] == updates.updates@.drop_last()[k]);
                            }
                        }
                    }
                } else {
                    if !rules.from_str(line) {
                        ok = false;
                    }
                }
            }
            i += 1;
        }
        assert(rows(found@).take(i as int) =~~= rows(found@));
        if ok {
            Some(PrintInstructions { rules, updates })
        } else {
            None
        }
    }

    /// Whether a rule speaks of every two different pages of `update`.
    pub fn is_ruled(&self, update: &Update) -> (ruled: bool)
        ensures
            ruled == all_ruled(self.rules.rules@, update.page_numbers@),
    {
        let pages = &update.page_numbers;
        let ghost rules = self.rules.rules@;
        let mut i: usize = 0;
        while i < pages.len()
            invariant
                i <= pages.len(),
                rules == self.rules.rules@,
                pages == &update.page_numbers,
                forall|a: int, b: int|
                    0 <= a < i && 0 <= b < pages.len() && pages[a] != pages[b] ==> rule_for(
                        rules,
                        #[trigger] pair_of(pages[a], pages[b]),
                        rules.len(),
                    ).is_some(),
            decreases pages.len() - i,
        {
            let mut j: usize = 0;
            while j < pages.len()
                invariant
                    i < pages.len(),
                    j <= pages.len(),
                    rules == self.rules.rules@,
                    pages == &update.page_numbers,
                    forall|b: int|
                        0 <= b < j && pages[i as int] != pages[b] ==> rule_for(
                            rules,
                            #[trigger] pair_of(pages[i as int], pages[b]),
                            rules.len(),
                        ).is_some(),
                decreases pages.len() - j,
            {
                if pages[i] != pages[j] {
                    let key = if pages[i] <= pages[j] {
                        (pages[i], pages[j])
                    } else {
                        (pages[j], pages[i])
                    };
                    if !self.rules.contains(key) {
                        assert(pair_of(pages[i as int], pages[j as int]) == key);
                        return false;
                    }
                }
                j += 1;
            }
            i += 1;
        }
        assert forall|a: int, b: int|
            0 <= a < pages.len() && 0 <= b < pages.len() && pages[a] != pages[b] implies rule_for(
            rules,
            #[trigger] pair_of(pages[a], pages[b]),
            rules.len(),
        ).is_some() by {}
        true
    }

    /// Whether no page of `update` stands after the page that follows it.
    pub fn is_ordered(&self, update: &Update) -> (ordered: bool)
        requires
            all_ruled(self.rules.rules@, update.page_numbers@),
        ensures
            ordered == in_order(self.rules.rules@, update.page_numbers@),
    {
        let pages = &update.page_numbers;
        let ghost rules = self.rules.rules@;
        let mut i: usize = 1;
        while i < pages.len()
            invariant
                1 <= i,
                pages.len() > 0 ==> i <= pages.len(),
                rules == self.rules.rules@,
                pages == &update.page_numbers,
                all_ruled(rules, pages@),
                forall|k: int| 0 < k < i ==> #[trigger] ordered_at(rules, pages@, k),
            decreases pages.len() - i,
        {
            proof {
                if pages[i - 1] != pages[i as int] {
                    assert(rule_for(
                        rules,
                        pair_of(pages[i - 1], pages[i as int]),
                        rules.len(),
                    ).is_some());
                }
            }
            match self.rules.get_comparator(&pages[i - 1], &pages[i]) {
                PageOrder::After => {
                    assert(!ordered_at(rules, pages@, i as int));
                    return false;
                },
                _ => {},
            }
            i += 1;
        }
        true
    }
}

/// The page in the middle of `pages`; of an even number of pages, the one
/// behind the middle.
pub open spec fn middle(pages: Seq<usize>) -> int
    recommends
        pages.len() > 0,
{
    pages[pages.len() as int / 2] as int
}

/// The sum of the middle pages of those of the first `count` updates that
/// are in order (`fixed` false), or of the others once put in order (`fixed`
/// true). `None` where no rule speaks of two pages of an update, or an
/// update has no page.
pub open spec fn middle_sum(
    rules: Seq<OrderRule>,
    updates: Seq<Seq<usize>>,
    count: nat,
    fixed: bool,
) -> Option<int>
    decreases count,
{
    if count == 0 || count > updates.len() {
        Some(0)
    } else {
        let pages = updates[count - 1];
        match middle_sum(rules, updates, (count - 1) as nat, fixed) {
            None => None,
            Some(before) => if !all_ruled(rules, pages) || pages.len() == 0 {
                None
            } else if in_order(rules, pages) == fixed {
                Some(before)
            } else if fixed {
                Some(before + middle(sorted_pages(rules, pages)))
            } else {
                Some(before + middle(pages))
            },
        }
    }
}

fn sum_middles(instructions: &PrintInstructions, fixed: bool) -> (sum: Option<usize>)
    ensures
        match sum {
            Some(total) => middle_sum(
                instructions.rules.rules@,
                pages_of(instructions.updates.updates@),
                instructions.updates.updates.len() as nat,
                fixed,
            ) == Some(total as int),
            None => match middle_sum(
                instructions.rules.rules@,
                pages_of(instructions.updates.updates@),
                instructions.updates.updates.len() as nat,
                fixed,
            ) {
                Some(total) => total > usize::MAX,
                None => true,
            },
        },
{
    let ghost rules = instructions.rules.rules@;
    let ghost all = pages_of(instructions.updates.updates@);
    let mut result: usize = 0;
    let mut i: usize = 0;
    while i < instructions.updates.updates.len()
        invariant
            i <= instructions.updates.updates.len(),
            rules == instructions.rules.rules@,
            all == pages_of(instructions.updates.updates@),
            middle_sum(rules, all, i as nat, fixed) == Some(result as int),
        decreases instructions.updates.updates.len() - i,
    {
        let update = instructions.updates.at(i);
        assert(all[i as int] == update.page_numbers@);
        if update.page_numbers.len() == 0 || !instructions.is_ruled(update) {
            proof {
                lemma_middle_sum_fails(rules, all, (i + 1) as nat, all.len(), fixed);
            }
            return None;
        }
        let ordered = instructions.is_ordered(update);
        if ordered != fixed {
            let page = if fixed {
                let sorted = instructions.get_ordered_update(update);
                proof {
                    sorted.page_numbers@.to_multiset_ensures();
                    update.page_numbers@.to_multiset_ensures();
                    assert(sorted.page_numbers@.len() == update.page_numbers@.len());
                }
                sorted.page_numbers[sorted.page_numbers.len() / 2]
            } else {
                update.page_numbers[update.page_numbers.len() / 2]
            };
            match result.checked_add(page) {
                Some(total) => {
                    result = total;
                },
                None => {
                    proof {
                        lemma_middle_sum_grows(rules, all, (i + 1) as nat, all.len(), fixed);
                    }
                    return None;
                },
            }
        }
        i += 1;
    }
    Some(result)
}

/// Once the sum fails, it fails for every greater number of updates.
proof fn lemma_middle_sum_fails(
    rules: Seq<OrderRule>,
    updates: Seq<Seq<usize>>,
    count: nat,
    all: nat,
    fixed: bool,
)
    requires
        count <= all <= updates.len(),
        middle_sum(rules, updates, count, fixed).is_none(),
    ensures
        middle_sum(rules, updates, all, fixed).is_none(),
    decreases all,
{
    if all > count {
        lemma_middle_sum_fails(rules, updates, count, (all - 1) as nat, fixed);
    }
}

/// The sum does not shrink as more updates are taken in.
proof fn lemma_middle_sum_grows(
    rules: Seq<OrderRule>,
    updates: Seq<Seq<usize>>,
    count: nat,
    all: nat,
    fixed: bool,
)
    requires
        count <= all <= updates.len(),
        middle_sum(rules, updates, count, fixed).is_some(),
    ensures
        match middle_sum(rules, updates, all, fixed) {
            Some(total) => total >= middle_sum(rules, updates, count, fixed).unwrap(),
            None => true,
        },
    decreases all,
{
    if all > count {
        lemma_middle_sum_grows(rules, updates, count, (all - 1) as nat, fixed);
    }
}

/// The sum of the middle pages of the updates that are in order.
pub fn _compute_part1_solution(raw_details: &String) -> (sum: Option<usize>)
    ensures
        match instructions_in(lines_of(bytes_of(raw_details@))) {
            None => sum.is_none(),
            Some(read) => match middle_sum(read.rules, read.updates, read.updates.len(), false) {
                Some(total) => if total <= usize::MAX {
                    sum == Some(total as usize)
                } else {
                    sum.is_none()
                },
                None => sum.is_none(),
            },
        },
{
    match PrintInstructions::from(raw_details) {
        None => None,
        Some(instructions) => sum_middles(&instructions, false),
    }
}

/// The sum of the middle pages of the updates that are not in order, once
/// they are put in order.
pub fn _compute_part2_solution(raw_details: &String) -> (sum: Option<usize>)
    ensures
        match instructions_in(lines_of(bytes_of(raw_details@))) {
            None => sum.is_none(),
            Some(read) => match middle_sum(read.rules, read.updates, read.updates.len(), true) {
                Some(total) => if total <= usize::MAX {
                    sum == Some(total as usize)
                } else {
                    sum.is_none()
                },
                None => sum.is_none(),
            },
        },
{
    match PrintInstructions::from(raw_details) {
        None => None,
        Some(instructions) => sum_middles(&instructions, true),
    }
}

} // verus!
