//! Pseudorandom secrets, the prices they stand for, and how prices change.

use vstd::prelude::*;
use rustc_hash::FxHashMap;
use crate::tally::tally_get;
use crate::tally::tally_insert;
use crate::tally::tally_new;
use crate::tally::tally_values;
use crate::tally::Changes;

verus! {

/// Secrets are kept below this number.
pub const MODULUS: isize = 16777216;

/// The remainder of `v` by the positive `m`, with the sign of `v`.
pub open spec fn rem(v: int, m: int) -> int
    recommends
        m > 0,
{
    if v >= 0 {
        v % m
    } else {
        -((-v) % m)
    }
}

/// The quotient of `v` by the positive `m`, rounded toward zero.
pub open spec fn quot(v: int, m: int) -> int
    recommends
        m > 0,
{
    if v >= 0 {
        v / m
    } else {
        -((-v) / m)
    }
}

/// Mixes `value` into `secret` and prunes the result.
pub open spec fn mix_prune(secret: isize, value: isize) -> isize {
    rem((secret ^ value) as int, MODULUS as int) as isize
}

/// The secret that follows `secret`: it is mixed with 64 times itself, then
/// with a 32nd of itself, then with 2048 times itself, and pruned each time.
pub open spec fn next_secret(secret: isize) -> isize {
    let first = mix_prune(secret, (secret * 64) as isize);
    let second = mix_prune(first, quot(first as int, 32) as isize);
    mix_prune(second, (second * 2048) as isize)
}

/// The secret after `count` steps from `init`.
pub open spec fn secret_after(init: isize, count: nat) -> isize
    decreases count,
{
    if count == 0 {
        init
    } else {
        next_secret(secret_after(init, (count - 1) as nat))
    }
}

/// Machine integers are wide enough for a pruned secret times 2048, and
/// `init` times 64 is one.
pub open spec fn can_step(init: isize) -> bool {
    &&& MODULUS * 2048 <= isize::MAX
    &&& isize::MIN <= init * 64 <= isize::MAX
}

fn step(secret: isize) -> (next: isize)
    requires
        can_step(secret),
    ensures
        next == next_secret(secret),
        -MODULUS < next < MODULUS,
{
    let a = secret * 64;
    let first = (secret ^ a) % 16777216;
    let b = first / 32;
    let second = (first ^ b) % 16777216;
    let c = second * 2048;
    (second ^ c) % 16777216
}

pub fn get_secret(init: isize, iterations: isize) -> (secret: isize)
    requires
        iterations > 0 ==> can_step(init),
    ensures
        secret == secret_after(
            init,
            if iterations > 0 {
                iterations as nat
            } else {
                0
            },
        ),
{
    let mut secret = init;
    let mut i: isize = 0;
    while i < iterations
        invariant
            0 <= i,
            iterations > 0 ==> i <= iterations,
            iterations <= 0 ==> i == 0,
            iterations > 0 ==> can_step(init),
            i > 0 ==> -MODULUS < secret < MODULUS,
            i == 0 ==> secret == init,
            secret == secret_after(init, i as nat),
        decreases iterations - i,
    {
        secret = step(secret);
        i += 1;
    }
    secret
}

pub fn get_all_secrets(init: isize, iterations: isize) -> (secrets: Vec<isize>)
    requires
        iterations >= 0,
        iterations > 0 ==> can_step(init),
    ensures
        secrets.len() == iterations + 1,
        forall|i: int| 0 <= i <= iterations ==> secrets[i] == secret_after(init, i as nat),
{
    let mut result: Vec<isize> = Vec::new();
    result.push(init);
    let mut secret = init;
    let mut i: isize = 0;
    while i < iterations
        invariant
            0 <= i <= iterations,
            iterations > 0 ==> can_step(init),
            i > 0 ==> -MODULUS < secret < MODULUS,
            i == 0 ==> secret == init,
            secret == secret_after(init, i as nat),
            result.len() == i + 1,
            forall|j: int| 0 <= j <= i ==> result[j] == secret_after(init, j as nat),
        decreases iterations - i,
    {
        secret = step(secret);
        result.push(secret);
        i += 1;
    }
    result
}

/// The price that a secret stands for: its last decimal digit, with the
/// secret's sign.
pub open spec fn price_of(secret: isize) -> isize {
    rem(secret as int, 10) as isize
}

pub fn secrets_to_prices(secrets: &Vec<isize>) -> (prices: Vec<isize>)
    ensures
        prices.len() == secrets.len(),
        forall|i: int| 0 <= i < secrets.len() ==> prices[i] == price_of(secrets[i]),
{
    let mut prices: Vec<isize> = Vec::new();
    let mut i: usize = 0;
    while i < secrets.len()
        invariant
            i <= secrets.len(),
            prices.len() == i,
            forall|j: int| 0 <= j < i ==> prices[j] == price_of(secrets[j]),
        decreases secrets.len() - i,
    {
        prices.push(secrets[i] % 10);
        i += 1;
    }
    prices
}

/// From each price to the next, how much it rose.
pub fn price_diffs(prices: &Vec<isize>) -> (diffs: Vec<isize>)
    requires
        forall|i: int|
            0 < i < prices.len() ==> isize::MIN <= #[trigger] prices[i] - prices[i - 1]
                <= isize::MAX,
    ensures
        diffs.len() == (if prices.len() == 0 {
            0
        } else {
            prices.len() - 1
        }),
        forall|i: int| 0 <= i < diffs.len() ==> diffs[i] == prices[i + 1] - prices[i],
{
    let mut result: Vec<isize> = Vec::new();
    let mut i: usize = 1;
    while i < prices.len()
        invariant
            1 <= i,
            prices.len() > 0 ==> i <= prices.len(),
            prices.len() == 0 ==> i == 1,
            result.len() == i - 1,
            forall|j: int|
                0 < j < prices.len() ==> isize::MIN <= #[trigger] prices[j] - prices[j - 1]
                    <= isize::MAX,
            forall|j: int| 0 <= j < result.len() ==> result[j] == prices[j + 1] - prices[j],
        decreases prices.len() - i,
    {
        assert(isize::MIN <= prices[i as int] - prices[i - 1] <= isize::MAX);
        result.push(prices[i] - prices[i - 1]);
        i += 1;
    }
    result
}

/// The sum of the secrets that the `init` of `input` have after 2000 steps.
pub open spec fn secrets_sum(input: Seq<isize>) -> int
    decreases input.len(),
{
    if input.len() == 0 {
        0
    } else {
        secrets_sum(input.drop_last()) + secret_after(input.last(), 2000)
    }
}

proof fn lemma_secret_pruned(init: isize, count: nat)
    requires
        count > 0,
    ensures
        -MODULUS < secret_after(init, count) < MODULUS,
{
}

proof fn lemma_secrets_sum_bounds(input: Seq<isize>)
    ensures
        -MODULUS * input.len() <= secrets_sum(input) <= MODULUS * input.len(),
    decreases input.len(),
{
    if input.len() > 0 {
        lemma_secrets_sum_bounds(input.drop_last());
        lemma_secret_pruned(input.last(), 2000);
    }
}

pub fn _solution1(input: &Vec<isize>) -> (sum: isize)
    requires
        forall|i: int| 0 <= i < input.len() ==> can_step(#[trigger] input[i]),
        MODULUS * input.len() <= isize::MAX,
    ensures
        sum == secrets_sum(input@),
{
    let mut result: isize = 0;
    let mut i: usize = 0;
    assert(input@.take(0) =~= Seq::<isize>::empty());
    while i < input.len()
        invariant
            i <= input.len(),
            forall|j: int| 0 <= j < input.len() ==> can_step(#[trigger] input[j]),
            MODULUS * input.len() <= isize::MAX,
            result == secrets_sum(input@.take(i as int)),
        decreases input.len() - i,
    {
        proof {
            assert(input@.take(i + 1).drop_last() =~= input@.take(i as int));
            lemma_secrets_sum_bounds(input@.take(i as int));
            lemma_secret_pruned(input[i as int], 2000);
        }
        result = result + get_secret(input[i], 2000);
        i += 1;
    }
    assert(input@.take(i as int) =~= input@);
    result
}


/// The four changes that end with the change at `i`.
pub open spec fn window(diffs: Seq<isize>, i: int) -> Changes
    recommends
        3 <= i < diffs.len(),
{
    (diffs[i - 3], diffs[i - 2], diffs[i - 1], diffs[i])
}

/// The same four changes end at one of the places from 3 up to `i`, `i` left
/// out.
pub open spec fn seen_before(diffs: Seq<isize>, i: int, key: Changes) -> bool {
    exists|j: int| 3 <= j < i && #[trigger] window(diffs, j) == key
}

/// What is kept under `key`, nothing counting as 0.
pub open spec fn kept(totals: Map<Changes, isize>, key: Changes) -> int {
    if totals.contains_key(key) {
        totals[key] as int
    } else {
        0
    }
}

/// `totals` after one buyer has sold at the windows from 3 up to `upto`,
/// `upto` left out: at the first window of each kind, the price behind that
/// window is added to what is kept under its four changes.
pub open spec fn after_buyer(
    totals: Map<Changes, isize>,
    prices: Seq<isize>,
    diffs: Seq<isize>,
    upto: nat,
) -> Map<Changes, isize>
    decreases upto,
{
    if upto <= 3 {
        totals
    } else {
        let i = upto - 1;
        let before = after_buyer(totals, prices, diffs, i as nat);
        let key = window(diffs, i);
        if seen_before(diffs, i, key) {
            before
        } else {
            before.insert(key, (kept(before, key) + prices[i + 1]) as isize)
        }
    }
}

/// The prices of a buyer who starts from `init`: those of the first 2001
/// secrets.
pub open spec fn buyer_prices(init: isize) -> Seq<isize> {
    Seq::new(2001, |i: int| price_of(secret_after(init, i as nat)))
}

/// From each price of the buyer to the next, how much it rose.
pub open spec fn buyer_diffs(init: isize) -> Seq<isize> {
    Seq::new(2000, |i: int| (buyer_prices(init)[i + 1] - buyer_prices(init)[i]) as isize)
}

/// What is kept once the first `count` of the buyers have sold.
pub open spec fn after_buyers(inits: Seq<isize>, count: nat) -> Map<Changes, isize>
    decreases count,
{
    if count == 0 || count > inits.len() {
        Map::empty()
    } else {
        let init = inits[count - 1];
        after_buyer(
            after_buyers(inits, (count - 1) as nat),
            buyer_prices(init),
            buyer_diffs(init),
            2000,
        )
    }
}

/// `best` is the greatest number kept in `totals`, or 0 where none is
/// greater.
pub open spec fn is_best(totals: Map<Changes, isize>, best: isize) -> bool {
    &&& best >= 0
    &&& forall|key: Changes| #[trigger] totals.contains_key(key) ==> totals[key] <= best
    &&& best == 0 || exists|key: Changes| #[trigger] totals.contains_key(key) && totals[key] == best
}

/// No number kept in `totals` is further from 0 than `bound`.
pub open spec fn within(totals: Map<Changes, isize>, bound: int) -> bool {
    forall|key: Changes| #[trigger] totals.contains_key(key) ==> -bound <= totals[key] <= bound
}

/// The greatest number in `values`, or 0 where none is greater.
pub fn best_of(values: &Vec<isize>) -> (best: isize)
    ensures
        best >= 0,
        forall|i: int| 0 <= i < values.len() ==> values[i] <= best,
        best == 0 || values@.contains(best),
{
    let mut best: isize = 0;
    let mut i: usize = 0;
    while i < values.len()
        invariant
            i <= values.len(),
            best >= 0,
            forall|j: int| 0 <= j < i ==> values[j] <= best,
            best == 0 || values@.contains(best),
        decreases values.len() - i,
    {
        if values[i] > best {
            best = values[i];
        }
        i += 1;
    }
    best
}

/// Lets one buyer sell: `totals` gets, for each kind of window in `diffs`,
/// the price behind the first window of that kind.
fn sell(totals: &mut FxHashMap<Changes, isize>, prices: &Vec<isize>, diffs: &Vec<isize>, Ghost(
    bound,
): Ghost<int>)
    requires
        prices.len() == diffs.len() + 1,
        forall|i: int| 0 <= i < prices.len() ==> -9 <= #[trigger] prices[i] <= 9,
        within(old(totals)@, bound),
        0 <= bound,
        bound + 9 <= isize::MAX,
    ensures
        final(totals)@ == after_buyer(old(totals)@, prices@, diffs@, diffs.len() as nat),
        within(final(totals)@, bound + 9),
{
    let mut seen = tally_new();
    let mut i: usize = 3;
    assert(after_buyer(totals@, prices@, diffs@, 3) == totals@);
    if diffs.len() < 3 {
        assert(after_buyer(totals@, prices@, diffs@, diffs.len() as nat) == totals@);
        return;
    }
    while i < diffs.len()
        invariant
            3 <= i,
            diffs.len() >= 3 ==> i <= diffs.len(),
            prices.len() == diffs.len() + 1,
            forall|j: int| 0 <= j < prices.len() ==> -9 <= #[trigger] prices[j] <= 9,
            0 <= bound,
            bound + 9 <= isize::MAX,
            forall|key: Changes| #[trigger] seen@.contains_key(key) <==> seen_before(diffs@, i as int, key),
            totals@ == after_buyer(old(totals)@, prices@, diffs@, i as nat),
            forall|key: Changes| #[trigger]
                totals@.contains_key(key) ==> if seen@.contains_key(key) {
                    -bound - 9 <= totals@[key] <= bound + 9
                } else {
                    -bound <= totals@[key] <= bound
                },
        decreases diffs.len() - i,
    {
        let k: Changes = (diffs[i - 3], diffs[i - 2], diffs[i - 1], diffs[i]);
        assert(k == window(diffs@, i as int));
        let ghost seen_then = seen@;
        if tally_get(&seen, k).is_none() {
            let price = prices[i + 1];
            tally_insert(&mut seen, k, price);
            let so_far: isize = match tally_get(totals, k) {
                Some(total) => total,
                None => 0,
            };
            tally_insert(totals, k, so_far + price);
        }
        proof {
            assert forall|key: Changes| #[trigger] seen@.contains_key(key) <==> seen_before(
                diffs@,
                i + 1,
                key,
            ) by {
                if seen_before(diffs@, i + 1, key) {
                    let j = choose|j: int| 3 <= j < i + 1 && #[trigger] window(diffs@, j) == key;
                    if j < i {
                        assert(seen_before(diffs@, i as int, key));
                    }
                }
                if seen@.contains_key(key) {
                    if seen_then.contains_key(key) {
                        assert(seen_before(diffs@, i as int, key));
                        let j = choose|j: int| 3 <= j < i && #[trigger] window(diffs@, j) == key;
                        assert(3 <= j < i + 1 && window(diffs@, j) == key);
                    } else {
                        assert(window(diffs@, i as int) == key);
                    }
                }
            }
        }
        i += 1;
    }
}

/// The most that one sequence of four price changes brings in when every
/// buyer sells at its first occurrence; 0 where no sequence brings in more.
pub fn _solution2(init_secrets: &Vec<isize>) -> (most: isize)
    requires
        forall|i: int| 0 <= i < init_secrets.len() ==> can_step(#[trigger] init_secrets[i]),
        9 * init_secrets.len() <= isize::MAX,
    ensures
        is_best(after_buyers(init_secrets@, init_secrets.len() as nat), most),
{
    let mut totals = tally_new();
    let mut b: usize = 0;
    while b < init_secrets.len()
        invariant
            b <= init_secrets.len(),
            forall|i: int| 0 <= i < init_secrets.len() ==> can_step(#[trigger] init_secrets[i]),
            9 * init_secrets.len() <= isize::MAX,
            totals@ == after_buyers(init_secrets@, b as nat),
            within(totals@, 9 * b),
        decreases init_secrets.len() - b,
    {
        let secrets = get_all_secrets(init_secrets[b], 2000);
        let prices = secrets_to_prices(&secrets);
        let diffs = price_diffs(&prices);
        assert(prices@ =~= buyer_prices(init_secrets[b as int]));
        assert(diffs@ =~= buyer_diffs(init_secrets[b as int]));
        sell(&mut totals, &prices, &diffs, Ghost(9 * b));
        b += 1;
    }
    let values = tally_values(&totals);
    let most = best_of(&values);
    proof {
        assert forall|key: Changes| #[trigger] totals@.contains_key(key) implies totals@[key]
            <= most by {
            assert(values@.contains(totals@[key]));
        }
    }
    most
}

} // verus!
