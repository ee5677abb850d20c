//! A seedable generator and a reservoir sampler.
//!
//! Sampling a stream of unknown length without holding it in memory is
//! Algorithm R: keep the first `k` items, then let the `n`th item replace a
//! uniformly chosen slot with probability `k/n`. [`SplitMix64`] supplies the
//! randomness. It is defined by its arithmetic alone, so that one seed gives
//! one sequence on every platform.

use vstd::arithmetic::div_mod::{
    lemma_add_mod_noop_right, lemma_fundamental_div_mod, lemma_fundamental_div_mod_converse,
    lemma_mod_multiples_vanish, lemma_mul_mod_noop_left, lemma_small_mod,
};
use vstd::prelude::*;

verus! {

/// What the generator's state advances by with each draw.
pub const GAMMA: u64 = 0x9E37_79B9_7F4A_7C15;

/// The number of 64-bit words.
pub open spec fn word_count() -> int {
    0x1_0000_0000_0000_0000
}

/// The output function: two rounds of xor-shift and multiply, then one more
/// xor-shift.
pub open spec fn mix(state: u64) -> u64 {
    let a = (state ^ (state >> 30)).wrapping_mul(0xBF58_476D_1CE4_E5B9);
    let b = (a ^ (a >> 27)).wrapping_mul(0x94D0_49BB_1331_11EB);
    b ^ (b >> 31)
}

/// The generator's state after `n` draws from `state`.
pub open spec fn state_after(state: u64, n: nat) -> u64 {
    ((state + n * GAMMA) % word_count()) as u64
}

/// The `n`th output of a generator in `state`, counting from 1.
pub open spec fn output(state: u64, n: nat) -> u64 {
    mix(state_after(state, n))
}

/// A word scaled to the bound: the high half of their product.
pub open spec fn scaled(word: u64, bound: u64) -> u64 {
    ((word * bound) / word_count()) as u64
}

/// A word is used, not rejected, when the low half of its product with the
/// bound leaves the bound's remainder of all words aside.
pub open spec fn accepted(word: u64, bound: u64) -> bool {
    (word * bound) % word_count() >= word_count() % bound as int
}

/// The `n`th output is the first one that is not rejected.
pub open spec fn first_accepted(state: u64, bound: u64, n: nat) -> bool {
    &&& n >= 1
    &&& accepted(output(state, n), bound)
    &&& forall|k: nat| 1 <= k < n ==> !accepted(#[trigger] output(state, k), bound)
}

/// How many outputs `below` takes: up to the first accepted one.
pub open spec fn draws(state: u64, bound: u64) -> nat {
    choose|n: nat| first_accepted(state, bound, n)
}

/// What `below` returns from the given state.
pub open spec fn drawn(state: u64, bound: u64) -> u64 {
    scaled(output(state, draws(state, bound)), bound)
}

/// The state that the output function takes to `word`.
pub open spec fn unmix(word: u64) -> u64 {
    let b = word ^ (word >> 31) ^ (word >> 62);
    let a = b.wrapping_mul(0x3196_42B2_D24D_8EC3);
    let c = a ^ (a >> 27) ^ (a >> 54);
    let d = c.wrapping_mul(0x96DE_1B17_3F11_9089);
    d ^ (d >> 30) ^ (d >> 60)
}

proof fn lemma_mul_inverse(word: u64, inverse: u64, factor: u64, quotient: int)
    requires
        inverse * factor == 1 + quotient * word_count(),
    ensures
        word.wrapping_mul(inverse).wrapping_mul(factor) == word,
{
    let r = word_count();
    lemma_mul_mod_noop_left(word * inverse, factor as int, r);
    assert((word * inverse) * factor == r * (word * quotient) + word) by (nonlinear_arith)
        requires
            inverse * factor == 1 + quotient * r,
    ;
    lemma_mod_multiples_vanish(word * quotient, word as int, r);
    lemma_small_mod(word as nat, r as nat);
}

proof fn lemma_unmix(word: u64)
    ensures
        mix(unmix(word)) == word,
{
    let b = word ^ (word >> 31) ^ (word >> 62);
    let a = b.wrapping_mul(0x3196_42B2_D24D_8EC3);
    let c = a ^ (a >> 27) ^ (a >> 54);
    let d = c.wrapping_mul(0x96DE_1B17_3F11_9089);
    let s = d ^ (d >> 30) ^ (d >> 60);
    assert(s ^ (s >> 30) == d) by (bit_vector)
        requires
            s == d ^ (d >> 30) ^ (d >> 60),
    ;
    lemma_mul_inverse(c, 0x96DE_1B17_3F11_9089, 0xBF58_476D_1CE4_E5B9, 8125545580553827436);
    assert(c ^ (c >> 27) == a) by (bit_vector)
        requires
            c == a ^ (a >> 27) ^ (a >> 54),
    ;
    lemma_mul_inverse(b, 0x3196_42B2_D24D_8EC3, 0x94D0_49BB_1331_11EB, 2077064247507883091);
    assert(b ^ (b >> 31) == word) by (bit_vector)
        requires
            b == word ^ (word >> 31) ^ (word >> 62),
    ;
}

/// Some draw puts the generator into any given state.
proof fn lemma_reaches_state(state: u64, target: u64) -> (n: nat)
    ensures
        n >= 1,
        state_after(state, n) == target,
{
    let r = word_count();
    let gap = (target - state) % r;
    let inverse = 0xF1DE_83E1_9937_733Dint;
    let n = gap * inverse + r;
    assert(n * GAMMA == r * (gap * 10771413168148108919 + GAMMA) + gap) by (nonlinear_arith)
        requires
            n == gap * inverse + r,
            inverse * GAMMA == 1 + 10771413168148108919 * r,
    ;
    assert(gap * inverse >= 0) by (nonlinear_arith)
        requires
            gap >= 0,
            inverse >= 0,
    ;
    lemma_mod_multiples_vanish(gap * 10771413168148108919 + GAMMA, state + gap, r);
    lemma_add_mod_noop_right(state as int, target - state, r);
    lemma_small_mod(target as nat, r as nat);
    n as nat
}

/// Rejection ends: some output is accepted.
proof fn lemma_some_output_accepted(state: u64, bound: u64) -> (n: nat)
    requires
        bound > 0,
    ensures
        n >= 1,
        accepted(output(state, n), bound),
{
    let r = word_count();
    let b = bound as int;
    let left = r % b;
    let word: u64 = if left == 0 {
        0
    } else {
        (r / b) as u64
    };
    lemma_fundamental_div_mod(r, b);
    if left != 0 {
        assert(b > 1) by {
            if b == 1 {
                assert(r % 1 == 0);
            }
        }
        assert(1 <= r / b < r) by (nonlinear_arith)
            requires
                1 < b < r,
        ;
        assert(word * bound == r - left) by (nonlinear_arith)
            requires
                word == r / b,
                bound == b,
                r == b * (r / b) + left,
        ;
        assert(2 * left <= r) by (nonlinear_arith)
            requires
                0 <= left < b,
                r == b * (r / b) + left,
                1 <= r / b,
        ;
        lemma_small_mod((r - left) as nat, r as nat);
    } else {
        assert(word * bound == 0) by (nonlinear_arith)
            requires
                word == 0,
        ;
        lemma_small_mod(0, r as nat);
    }
    lemma_unmix(word);
    lemma_reaches_state(state, unmix(word))
}

proof fn lemma_least_accepted(state: u64, bound: u64, n: nat) -> (least: nat)
    requires
        n >= 1,
        accepted(output(state, n), bound),
    ensures
        first_accepted(state, bound, least),
    decreases n,
{
    if exists|k: nat| 1 <= k < n && accepted(#[trigger] output(state, k), bound) {
        let k = choose|k: nat| 1 <= k < n && accepted(#[trigger] output(state, k), bound);
        lemma_least_accepted(state, bound, k)
    } else {
        n
    }
}

/// Every draw comes to an end: exactly one output is the first accepted one.
pub proof fn law_draw_ends(state: u64, bound: u64)
    requires
        bound > 0,
    ensures
        first_accepted(state, bound, draws(state, bound)),
        forall|n: nat| #[trigger] first_accepted(state, bound, n) ==> n == draws(state, bound),
{
    let some = lemma_some_output_accepted(state, bound);
    let least = lemma_least_accepted(state, bound, some);
    let n = draws(state, bound);
    assert(first_accepted(state, bound, n));
    assert forall|m: nat| #[trigger] first_accepted(state, bound, m) implies m == n by {
        if m < n {
            assert(!accepted(output(state, m), bound));
        }
        if n < m {
            assert(!accepted(output(state, n), bound));
        }
    }
}

/// A splitmix64 pseudorandom generator: eight bytes of state, one addition and
/// a fixed sequence of xor-shifts and multiplies per output.
#[derive(Debug, Clone)]
pub struct SplitMix64 {
    state: u64,
}

impl SplitMix64 {
    /// The generator's state.
    pub closed spec fn state(&self) -> u64 {
        self.state
    }

    /// Creates a generator from a 64-bit seed. Every seed is valid.
    pub fn new(seed: u64) -> (rng: Self)
        ensures
            rng.state() == seed,
    {
        SplitMix64 { state: seed }
    }

    /// Returns the next pseudorandom `u64`.
    pub fn next_u64(&mut self) -> (word: u64)
        ensures
            final(self).state() == state_after(old(self).state(), 1),
            word == output(old(self).state(), 1),
    {
        self.state = self.state.wrapping_add(GAMMA);
        let s: u64 = self.state;
        let a: u64 = (s ^ (s >> 30)).wrapping_mul(0xBF58_476D_1CE4_E5B9);
        let b: u64 = (a ^ (a >> 27)).wrapping_mul(0x94D0_49BB_1331_11EB);
        b ^ (b >> 31)
    }

    /// Returns a pseudorandom integer in `[0, bound)`, by Lemire's rejection
    /// method: every result comes from the same number of words, where
    /// `next_u64() % bound` would favour small results.
    pub fn below(&mut self, bound: u64) -> (value: u64)
        requires
            bound > 0,
        ensures
            value == drawn(old(self).state(), bound),
            value < bound,
            final(self).state() == state_after(
                old(self).state(),
                draws(old(self).state(), bound),
            ),
    {
        let ghost start = self.state();
        let ghost mut n: nat = 1;
        proof {
            law_draw_ends(start, bound);
        }
        let mut word: u64 = self.next_u64();
        let mut low: u64 = product_low(word, bound);
        if low < bound {
            let threshold: u64 = 0u64.wrapping_sub(bound) % bound;
            proof {
                lemma_mod_multiples_vanish(-1, word_count(), bound as int);
            }
            while low < threshold
                invariant
                    bound > 0,
                    n >= 1,
                    threshold == word_count() % bound as int,
                    first_accepted(start, bound, draws(start, bound)),
                    self.state() == state_after(start, n),
                    word == output(start, n),
                    low == (word * bound) % word_count(),
                    forall|k: nat| 1 <= k < n ==> !accepted(#[trigger] output(start, k), bound),
                    n <= draws(start, bound),
                decreases draws(start, bound) - n,
            {
                assert(!accepted(output(start, n), bound));
                proof {
                    lemma_state_step(start, n);
                }
                word = self.next_u64();
                low = product_low(word, bound);
                proof {
                    n = n + 1;
                }
            }
        }
        proof {
            vstd::arithmetic::div_mod::lemma_mod_bound(word_count(), bound as int);
            assert(accepted(output(start, n), bound));
            assert(first_accepted(start, bound, n));
        }
        product_high(word, bound)
    }
}

proof fn lemma_state_step(state: u64, n: nat)
    ensures
        state_after(state_after(state, n), 1) == state_after(state, n + 1),
        output(state_after(state, n), 1) == output(state, n + 1),
{
    let total = state + n * GAMMA;
    vstd::arithmetic::div_mod::lemma_mod_bound(total, word_count());
    lemma_add_mod_noop_right(GAMMA as int, total, word_count());
    assert(total + GAMMA == state + (n + 1) * GAMMA) by (nonlinear_arith)
        requires
            total == state + n * GAMMA,
    ;
}

proof fn lemma_product_bound(word: u64, bound: u64)
    ensures
        0 <= word * bound <= bound * (word_count() - 1),
        word * bound < word_count() * word_count(),
{
    assert(0 <= word * bound <= bound * (word_count() - 1)) by (nonlinear_arith)
        requires
            0 <= word <= word_count() - 1,
            0 <= bound,
    ;
    assert(bound * (word_count() - 1) < word_count() * word_count()) by (nonlinear_arith)
        requires
            bound < word_count(),
            word_count() > 0,
    ;
}

/// The low half of a 128-bit product.
fn product_low(word: u64, bound: u64) -> (low: u64)
    ensures
        low == (word * bound) % word_count(),
{
    proof {
        lemma_product_bound(word, bound);
    }
    let product: u128 = (word as u128) * (bound as u128);
    assert((product as u64) as u128 == product % 0x1_0000_0000_0000_0000u128) by (bit_vector);
    #[verifier::truncate]
    (product as u64)
}

/// The high half of a 128-bit product.
fn product_high(word: u64, bound: u64) -> (high: u64)
    requires
        bound > 0,
    ensures
        high == scaled(word, bound),
        high < bound,
{
    proof {
        lemma_product_bound(word, bound);
    }
    let product: u128 = (word as u128) * (bound as u128);
    assert(product >> 64 == product / 0x1_0000_0000_0000_0000u128) by (bit_vector);
    assert((word * bound) / word_count() < bound) by (nonlinear_arith)
        requires
            0 <= word * bound <= bound * (word_count() - 1),
            bound > 0,
            word_count() == 0x1_0000_0000_0000_0000,
    ;
    (product >> 64) as u64
}

/// The words that `below` accepts and takes to `value`.
pub open spec fn words_for(value: u64, bound: u64) -> Set<int> {
    Set::new(
        |word: int|
            0 <= word < word_count() && accepted(word as u64, bound) && scaled(word as u64, bound)
                == value,
    )
}

/// `below` is exactly uniform: every value under the bound is the result for
/// the same number of words.
pub proof fn law_below_is_uniform(value: u64, bound: u64)
    requires
        value < bound,
    ensures
        words_for(value, bound).finite(),
        words_for(value, bound).len() == word_count() / bound as int,
{
    let r = word_count();
    let b = bound as int;
    let left = r % b;
    let share = r / b;
    lemma_fundamental_div_mod(r, b);
    let from = value * r + left;
    let first = (from + b - 1) / b;
    lemma_fundamental_div_mod(from + b - 1, b);
    assert(share * b + left == r) by (nonlinear_arith)
        requires
            r == b * share + left,
    ;
    assert(value * r + r <= b * r) by (nonlinear_arith)
        requires
            value + 1 <= b,
            r > 0,
    ;
    assert(value * r >= 0) by (nonlinear_arith)
        requires
            r > 0,
            value >= 0,
    ;
    assert forall|word: int| words_for(value, bound).contains(word) <==> #[trigger]
    vstd::set_lib::set_int_range(first, first + share).contains(word) by {
        let product = word * b;
        assert(word >= first <==> product >= from) by (nonlinear_arith)
            requires
                b > 0,
                product == word * b,
                from + b - 1 == b * first + (from + b - 1) % b,
                0 <= (from + b - 1) % b < b,
        ;
        assert(word < first + share <==> product < from + share * b) by (nonlinear_arith)
            requires
                b > 0,
                product == word * b,
                from + b - 1 == b * first + (from + b - 1) % b,
                0 <= (from + b - 1) % b < b,
        ;
        if first <= word < first + share {
            assert(0 <= word < r) by (nonlinear_arith)
                requires
                    b > 0,
                    0 <= product < b * r,
                    product == word * b,
            ;
            lemma_fundamental_div_mod_converse(product, r, value as int, product - value * r);
        }
        if words_for(value, bound).contains(word) {
            lemma_fundamental_div_mod(product, r);
            lemma_product_bound(word as u64, bound);
            assert(product / r < r) by (nonlinear_arith)
                requires
                    0 <= product < r * r,
                    r > 0,
            ;
            assert(r * (product / r) == value * r) by (nonlinear_arith)
                requires
                    product / r == value,
            ;
        }
    }
    assert(words_for(value, bound) =~= vstd::set_lib::set_int_range(first, first + share));
    vstd::set_lib::lemma_int_range(first, first + share);
}

/// What the reservoir holds after one more item, given the slot that was
/// drawn for it: the first `capacity` items are kept, and after that an item
/// takes the drawn slot if there is such a slot.
pub open spec fn kept<T>(slots: Seq<T>, capacity: nat, item: T, draw: nat) -> Seq<T> {
    if slots.len() < capacity {
        slots.push(item)
    } else if draw < capacity {
        slots.update(draw as int, item)
    } else {
        slots
    }
}

/// The generator's state after the `seen`-th item was offered: a full
/// reservoir that can hold anything draws once.
pub open spec fn rng_after(held: nat, capacity: nat, seen: u64, state: u64) -> u64 {
    if held < capacity || capacity == 0 {
        state
    } else {
        state_after(state, draws(state, seen))
    }
}

/// What a reservoir of the given capacity holds after a stream of items, and
/// the generator's state, when it starts from `seed`.
pub open spec fn sampled<T>(items: Seq<T>, capacity: nat, seed: u64) -> (Seq<T>, u64)
    decreases items.len(),
{
    if items.len() == 0 {
        (Seq::empty(), seed)
    } else {
        let (slots, state) = sampled(items.drop_last(), capacity, seed);
        let seen = items.len() as u64;
        (
            kept(slots, capacity, items.last(), drawn(state, seen) as nat),
            rng_after(slots.len(), capacity, seen, state),
        )
    }
}

/// A fixed-capacity uniform random sample of a stream (Algorithm R).
///
/// Feed it every item exactly once, in order, with [`Reservoir::add`]. The
/// sample is in whatever order the replacements left it; a caller that needs
/// input order keeps enough of each item to sort by.
#[derive(Debug, Clone)]
pub struct Reservoir<T> {
    capacity: usize,
    seen: u64,
    slots: Vec<T>,
}

impl<T> View for Reservoir<T> {
    type V = Seq<T>;

    closed spec fn view(&self) -> Seq<T> {
        self.slots@
    }
}

impl<T> Reservoir<T> {
    /// The most items the reservoir holds.
    pub closed spec fn limit(&self) -> nat {
        self.capacity as nat
    }

    /// How many items the reservoir has been offered.
    pub closed spec fn offered(&self) -> nat {
        self.seen as nat
    }

    /// The reservoir holds everything offered, up to its capacity.
    pub open spec fn wf(&self) -> bool {
        self@.len() == if self.offered() < self.limit() {
            self.offered()
        } else {
            self.limit()
        }
    }

    /// Creates an empty reservoir that holds at most `capacity` items.
    pub fn new(capacity: usize) -> (reservoir: Self)
        ensures
            reservoir.wf(),
            reservoir.limit() == capacity,
            reservoir.offered() == 0,
            reservoir@ == Seq::<T>::empty(),
    {
        Reservoir { capacity, seen: 0, slots: Vec::new() }
    }

    /// The reservoir's capacity, as given to [`Reservoir::new`].
    pub fn capacity(&self) -> (n: usize)
        ensures
            n == self.limit(),
    {
        self.capacity
    }

    /// How many items have been passed to [`Reservoir::add`] so far.
    pub fn seen(&self) -> (n: u64)
        ensures
            n == self.offered(),
    {
        self.seen
    }

    /// Offers one more item from the stream.
    ///
    /// The first `capacity` items are kept. Each item after that replaces a
    /// uniformly chosen slot with probability `capacity / seen`.
    pub fn add(&mut self, item: T, rng: &mut SplitMix64)
        requires
            old(self).wf(),
            old(self).offered() < u64::MAX,
        ensures
            final(self).wf(),
            final(self).limit() == old(self).limit(),
            final(self).offered() == old(self).offered() + 1,
            final(self)@ == kept(
                old(self)@,
                old(self).limit(),
                item,
                drawn(old(rng).state(), (old(self).offered() + 1) as u64) as nat,
            ),
            final(rng).state() == rng_after(
                old(self)@.len(),
                old(self).limit(),
                (old(self).offered() + 1) as u64,
                old(rng).state(),
            ),
    {
        self.seen = self.seen + 1;
        if self.slots.len() < self.capacity {
            self.slots.push(item);
            return;
        }
        if self.capacity == 0 {
            return;
        }
        let slot: u64 = rng.below(self.seen);
        if slot < self.capacity as u64 {
            self.slots.set(slot as usize, item);
        }
    }

    /// Borrows the sample collected so far.
    pub fn as_slice(&self) -> (sample: &[T])
        ensures
            sample@ == self@,
    {
        self.slots.as_slice()
    }

    /// Consumes the reservoir, returning the sample collected so far.
    pub fn into_vec(self) -> (sample: Vec<T>)
        ensures
            sample@ == self@,
    {
        self.slots
    }
}

/// A reservoir that covers the whole stream keeps every item, in order.
pub proof fn law_covering_reservoir_keeps_everything<T>(
    items: Seq<T>,
    capacity: nat,
    seed: u64,
)
    requires
        items.len() <= capacity,
    ensures
        sampled(items, capacity, seed) == (items, seed),
    decreases items.len(),
{
    if items.len() > 0 {
        law_covering_reservoir_keeps_everything(items.drop_last(), capacity, seed);
        assert(items.drop_last().push(items.last()) =~= items);
    } else {
        assert(items =~= Seq::empty());
    }
}

/// `places` says where in the stream each sampled item stood: at places that
/// are all different.
pub open spec fn drawn_from<T>(sample: Seq<T>, items: Seq<T>, places: Seq<int>) -> bool {
    &&& places.len() == sample.len()
    &&& places.no_duplicates()
    &&& forall|i: int|
        0 <= i < places.len() ==> 0 <= #[trigger] places[i] < items.len() && sample[i]
            == items[places[i]]
}

/// A sample never exceeds its capacity, is as large as the stream allows, and
/// holds items of the stream, none of them taken twice.
pub proof fn law_sample_is_taken_from_the_stream<T>(
    items: Seq<T>,
    capacity: nat,
    seed: u64,
) -> (places: Seq<int>)
    ensures
        sampled(items, capacity, seed).0.len() == if items.len() < capacity {
            items.len()
        } else {
            capacity
        },
        drawn_from(sampled(items, capacity, seed).0, items, places),
    decreases items.len(),
{
    if items.len() == 0 {
        Seq::empty()
    } else {
        let rest = items.drop_last();
        let before = law_sample_is_taken_from_the_stream(rest, capacity, seed);
        let (slots, state) = sampled(rest, capacity, seed);
        let draw = drawn(state, items.len() as u64) as nat;
        let newest = items.len() - 1;
        let places = kept(before, capacity, newest, draw);
        assert forall|i: int| 0 <= i < places.len() implies 0 <= #[trigger] places[i] < items.len()
            && sampled(items, capacity, seed).0[i] == items[places[i]] by {
            if i < before.len() && places[i] != newest {
                assert(before[i] == places[i]);
                assert(rest[before[i]] == items[before[i]]);
            }
        }
        assert(places.no_duplicates()) by {
            assert forall|i: int, j: int|
                0 <= i < places.len() && 0 <= j < places.len() && i != j implies places[i]
                != places[j] by {
                if i < before.len() {
                    assert(before[i] < rest.len());
                }
                if j < before.len() {
                    assert(before[j] < rest.len());
                }
            }
        }
        places
    }
}

/// In how many of all ways to draw slots the stream's item `j` is in the
/// sample once `n` items were offered, from a reservoir that has been offered
/// the items `0..seen` and holds `slots`. The item at position `seen` draws
/// one of `seen + 1` slots if the reservoir is full, and none before that.
pub open spec fn ways_to_survive(
    slots: Seq<nat>,
    capacity: nat,
    seen: nat,
    n: nat,
    j: nat,
) -> nat
    decreases n - seen, seen + 2,
{
    if seen >= n {
        if slots.contains(j) {
            1
        } else {
            0
        }
    } else if slots.len() < capacity {
        ways_to_survive(kept(slots, capacity, seen, 0), capacity, seen + 1, n, j)
    } else {
        ways_over_draws(slots, capacity, seen, n, j, seen + 1)
    }
}

/// The same count, summed over the draws `0..bound` for the item at position
/// `seen`.
pub open spec fn ways_over_draws(
    slots: Seq<nat>,
    capacity: nat,
    seen: nat,
    n: nat,
    j: nat,
    bound: nat,
) -> nat
    decreases n - seen, bound,
{
    if seen >= n || bound == 0 {
        0
    } else {
        let draw = (bound - 1) as nat;
        ways_over_draws(slots, capacity, seen, n, j, draw) + ways_to_survive(
            kept(slots, capacity, seen, draw),
            capacity,
            seen + 1,
            n,
            j,
        )
    }
}

/// In how many ways slots can be drawn for the items at `seen` up to `n - 1`.
pub open spec fn ways_to_draw(seen: nat, n: nat) -> nat
    decreases n - seen,
{
    if seen >= n {
        1
    } else {
        (seen + 1) * ways_to_draw(seen + 1, n)
    }
}

/// In how many ways slots can be drawn for the items at `seen` up to `n - 1`
/// without touching one given slot.
spec fn ways_to_spare(seen: nat, n: nat) -> nat
    decreases n - seen,
{
    if seen >= n {
        1
    } else {
        seen * ways_to_spare(seen + 1, n)
    }
}

/// The count for one draw of the item at position `seen`.
spec fn ways_with(slots: Seq<nat>, capacity: nat, seen: nat, n: nat, j: nat, draw: nat) -> nat {
    ways_to_survive(kept(slots, capacity, seen, draw), capacity, seen + 1, n, j)
}

proof fn lemma_over_draws_prefix(
    slots: Seq<nat>,
    capacity: nat,
    seen: nat,
    n: nat,
    j: nat,
    bound: nat,
    len: nat,
    each: nat,
)
    requires
        seen < n,
        len <= bound,
        forall|d: nat| d < len ==> #[trigger] ways_with(slots, capacity, seen, n, j, d) == each,
        forall|d: nat|
            len <= d < bound ==> #[trigger] ways_with(slots, capacity, seen, n, j, d) == 0,
    ensures
        ways_over_draws(slots, capacity, seen, n, j, bound) == len * each,
    decreases bound,
{
    if bound > 0 {
        let last = (bound - 1) as nat;
        let w = ways_with(slots, capacity, seen, n, j, last);
        if len == bound {
            lemma_over_draws_prefix(slots, capacity, seen, n, j, last, last, each);
            assert(w == each);
            assert(last * each + each == len * each) by (nonlinear_arith)
                requires
                    len == last + 1,
            ;
        } else {
            lemma_over_draws_prefix(slots, capacity, seen, n, j, last, len, each);
            assert(w == 0);
        }
    } else {
        assert(len * each == 0) by (nonlinear_arith)
            requires
                len == 0,
        ;
    }
}

proof fn lemma_over_draws_hole(
    slots: Seq<nat>,
    capacity: nat,
    seen: nat,
    n: nat,
    j: nat,
    bound: nat,
    hole: nat,
    each: nat,
)
    requires
        seen < n,
        hole < bound,
        ways_with(slots, capacity, seen, n, j, hole) == 0,
        forall|d: nat|
            d < bound && d != hole ==> #[trigger] ways_with(slots, capacity, seen, n, j, d)
                == each,
    ensures
        ways_over_draws(slots, capacity, seen, n, j, bound) == (bound - 1) * each,
    decreases bound,
{
    let last = (bound - 1) as nat;
    let w = ways_with(slots, capacity, seen, n, j, last);
    if hole == last {
        lemma_over_draws_prefix(slots, capacity, seen, n, j, last, last, each);
    } else {
        lemma_over_draws_hole(slots, capacity, seen, n, j, last, hole, each);
        assert(w == each);
        assert((last - 1) * each + each == (bound - 1) * each) by (nonlinear_arith)
            requires
                bound == last + 1,
        ;
    }
}

/// A full reservoir after the items `0..seen`.
spec fn full(slots: Seq<nat>, capacity: nat, seen: nat) -> bool {
    &&& 1 <= capacity <= seen
    &&& slots.len() == capacity
    &&& slots.no_duplicates()
    &&& forall|i: int| 0 <= i < slots.len() ==> #[trigger] slots[i] < seen
}

proof fn lemma_full_step(slots: Seq<nat>, capacity: nat, seen: nat, draw: nat)
    requires
        full(slots, capacity, seen),
    ensures
        full(kept(slots, capacity, seen, draw), capacity, seen + 1),
{
    let next = kept(slots, capacity, seen, draw);
    assert forall|i: int, k: int|
        0 <= i < next.len() && 0 <= k < next.len() && i != k implies next[i] != next[k] by {
        assert(slots[i] < seen && slots[k] < seen);
    }
}

proof fn lemma_ways_gone(slots: Seq<nat>, capacity: nat, seen: nat, n: nat, j: nat)
    requires
        full(slots, capacity, seen),
        j < seen,
        !slots.contains(j),
    ensures
        ways_to_survive(slots, capacity, seen, n, j) == 0,
    decreases n - seen,
{
    if seen < n {
        assert forall|d: nat| d < seen + 1 implies #[trigger] ways_with(slots, capacity, seen, n, j, d) == 0 by {
            let next = kept(slots, capacity, seen, d);
            lemma_full_step(slots, capacity, seen, d);
            assert(!next.contains(j)) by {
                if next.contains(j) {
                    let i = choose|i: int| 0 <= i < next.len() && next[i] == j;
                    assert(slots[i] == j);
                }
            }
            lemma_ways_gone(next, capacity, seen + 1, n, j);
        }
        lemma_over_draws_prefix(slots, capacity, seen, n, j, seen + 1, seen + 1, 0);
        assert((seen + 1) * 0 == 0);
    }
}

proof fn lemma_ways_resident(
    slots: Seq<nat>,
    capacity: nat,
    seen: nat,
    n: nat,
    j: nat,
    slot: nat,
)
    requires
        full(slots, capacity, seen),
        slot < capacity,
        slots[slot as int] == j,
    ensures
        ways_to_survive(slots, capacity, seen, n, j) == ways_to_spare(seen, n),
    decreases n - seen,
{
    if seen < n {
        let each = ways_to_spare(seen + 1, n);
        assert forall|d: nat| d < seen + 1 && d != slot implies #[trigger] ways_with(slots, capacity, seen, n, j, d) == each by {
            let next = kept(slots, capacity, seen, d);
            lemma_full_step(slots, capacity, seen, d);
            lemma_ways_resident(next, capacity, seen + 1, n, j, slot);
        }
        assert(ways_with(slots, capacity, seen, n, j, slot) == 0) by {
            let next = kept(slots, capacity, seen, slot);
            lemma_full_step(slots, capacity, seen, slot);
            assert(!next.contains(j)) by {
                if next.contains(j) {
                    let i = choose|i: int| 0 <= i < next.len() && next[i] == j;
                    assert(slots[i] == j || i == slot);
                }
            }
            lemma_ways_gone(next, capacity, seen + 1, n, j);
        }
        lemma_over_draws_hole(slots, capacity, seen, n, j, seen + 1, slot, each);
    } else {
        assert(slots.contains(j));
    }
}

proof fn lemma_ways_future(slots: Seq<nat>, capacity: nat, seen: nat, n: nat, j: nat)
    requires
        full(slots, capacity, seen),
        seen <= j < n,
    ensures
        ways_to_survive(slots, capacity, seen, n, j) * n == capacity * ways_to_draw(seen, n),
    decreases n - seen,
{
    if j == seen {
        let each = ways_to_spare(seen + 1, n);
        assert forall|d: nat| d < capacity implies #[trigger] ways_with(slots, capacity, seen, n, j, d) == each by {
            lemma_full_step(slots, capacity, seen, d);
            lemma_ways_resident(
                kept(slots, capacity, seen, d),
                capacity,
                seen + 1,
                n,
                j,
                d,
            );
        }
        assert forall|d: nat| capacity <= d < seen + 1 implies #[trigger] ways_with(slots, capacity, seen, n, j, d) == 0 by {
            lemma_full_step(slots, capacity, seen, d);
            lemma_ways_gone(slots, capacity, seen + 1, n, j);
        }
        lemma_over_draws_prefix(slots, capacity, seen, n, j, seen + 1, capacity, each);
        lemma_spare_against_draw(seen + 1, n);
        assert(capacity * each * n == capacity * ((seen + 1) * ways_to_draw(seen + 1, n)))
            by (nonlinear_arith)
            requires
                each * n == (seen + 1) * ways_to_draw(seen + 1, n),
        ;
    } else {
        let each = ways_with(slots, capacity, seen, n, j, 0);
        assert forall|d: nat| d < seen + 1 implies #[trigger] ways_with(slots, capacity, seen, n, j, d) == each by {
            lemma_full_step(slots, capacity, seen, d);
            lemma_full_step(slots, capacity, seen, 0);
            lemma_ways_future(kept(slots, capacity, seen, d), capacity, seen + 1, n, j);
            lemma_ways_future(kept(slots, capacity, seen, 0), capacity, seen + 1, n, j);
            assert(ways_with(slots, capacity, seen, n, j, d) == each) by (nonlinear_arith)
                requires
                    ways_with(slots, capacity, seen, n, j, d) * n == each * n,
                    n > 0,
            ;
        }
        lemma_full_step(slots, capacity, seen, 0);
        lemma_ways_future(kept(slots, capacity, seen, 0), capacity, seen + 1, n, j);
        lemma_over_draws_prefix(slots, capacity, seen, n, j, seen + 1, seen + 1, each);
        let rest = ways_to_draw(seen + 1, n);
        assert((seen + 1) * each * n == capacity * ((seen + 1) * rest)) by (nonlinear_arith)
            requires
                each * n == capacity * rest,
        ;
    }
}

proof fn lemma_spare_against_draw(seen: nat, n: nat)
    requires
        seen <= n,
    ensures
        ways_to_spare(seen, n) * n == seen * ways_to_draw(seen, n),
    decreases n - seen,
{
    if seen < n {
        lemma_spare_against_draw(seen + 1, n);
        let spare = ways_to_spare(seen + 1, n);
        let draw = ways_to_draw(seen + 1, n);
        assert(seen * spare * n == seen * ((seen + 1) * draw)) by (nonlinear_arith)
            requires
                spare * n == (seen + 1) * draw,
        ;
    } else {
        let spare = ways_to_spare(seen, n);
        let draw = ways_to_draw(seen, n);
        assert(spare * n == seen * draw) by (nonlinear_arith)
            requires
                spare == 1,
                draw == 1,
                seen == n,
        ;
    }
}

proof fn lemma_ways_while_filling(slots: Seq<nat>, capacity: nat, seen: nat, n: nat, j: nat)
    requires
        1 <= capacity <= n,
        seen <= capacity,
        slots == Seq::new(seen, |i: int| i as nat),
        j < n,
    ensures
        ways_to_survive(slots, capacity, seen, n, j) * n == capacity * ways_to_draw(capacity, n),
    decreases capacity - seen,
{
    if seen < capacity {
        let next = kept(slots, capacity, seen, 0);
        assert(next =~= Seq::new(seen + 1, |i: int| i as nat));
        lemma_ways_while_filling(next, capacity, seen + 1, n, j);
    } else if j < capacity {
        assert(full(slots, capacity, seen));
        lemma_ways_resident(slots, capacity, seen, n, j, j);
        lemma_spare_against_draw(seen, n);
    } else {
        assert(full(slots, capacity, seen));
        lemma_ways_future(slots, capacity, seen, n, j);
    }
}

/// No item is favoured: over all ways to draw slots for a stream of `n` items,
/// each item of the stream is in the final sample in the same share of them,
/// `capacity` out of `n`.
pub proof fn law_every_item_is_equally_likely(capacity: nat, n: nat, j: nat)
    requires
        1 <= capacity <= n,
        j < n,
    ensures
        ways_to_survive(Seq::empty(), capacity, 0, n, j) * n == capacity * ways_to_draw(
            capacity,
            n,
        ),
{
    assert(Seq::<nat>::empty() =~= Seq::new(0, |i: int| i as nat));
    lemma_ways_while_filling(Seq::empty(), capacity, 0, n, j);
}

/// A draw scales its word down to the bound: the result is to the bound what the
/// word is to the number of words, rounded down.
pub proof fn law_draws_scale_their_word(state: u64, bound: u64)
    requires
        bound > 0,
    ensures
        ({
            let word = output(state, draws(state, bound));
            let value = drawn(state, bound);
            &&& value * 0x1_0000_0000_0000_0000 <= word * bound
            &&& word * bound < (value + 1) * 0x1_0000_0000_0000_0000
        }),
{
    let word = output(state, draws(state, bound));
    let product = word * bound;
    let r = word_count();
    lemma_product_bound(word, bound);
    lemma_fundamental_div_mod(product, r);
    assert(0 <= product / r < r) by (nonlinear_arith)
        requires
            0 <= product < r * r,
            r > 0,
    ;
    assert(r * (product / r) == (product / r) * r) by (nonlinear_arith);
    vstd::arithmetic::div_mod::lemma_mod_bound(product, r);
}

/// The word of a draw is the first output that is not in the first, uneven part
/// of its share; the outputs before it were.
pub proof fn law_draws_take_the_first_even_word(state: u64, bound: u64)
    requires
        bound > 0,
    ensures
        draws(state, bound) >= 1,
        (output(state, draws(state, bound)) * bound) % 0x1_0000_0000_0000_0000
            >= 0x1_0000_0000_0000_0000int % bound as int,
        forall|k: nat|
            1 <= k < draws(state, bound) ==> (#[trigger] output(state, k) * bound)
                % 0x1_0000_0000_0000_0000 < 0x1_0000_0000_0000_0000int % bound as int,
{
    law_draw_ends(state, bound);
    assert forall|k: nat| 1 <= k < draws(state, bound) implies (#[trigger] output(state, k) * bound)
        % 0x1_0000_0000_0000_0000 < 0x1_0000_0000_0000_0000int % bound as int by {
        assert(!accepted(output(state, k), bound));
    }
}

/// The generator counts up by one odd step, whatever its seed, and each output is
/// a state seen through a mixing that can be undone, so that no two states give
/// the same output.
pub proof fn law_outputs_tell_states_apart(state: u64, word: u64, m: nat, n: nat)
    ensures
        state_after(state, 0) == state,
        state_after(state_after(state, m), n) == state_after(state, m + n),
        (state_after(state, 1) - state - 0x9E37_79B9_7F4A_7C15) % 0x1_0000_0000_0000_0000 == 0,
        mix(unmix(word)) == word,
{
    let r = word_count();
    lemma_unmix(word);
    lemma_small_mod(state as nat, r as nat);
    let moved = state + m * GAMMA;
    assert(m * GAMMA >= 0) by (nonlinear_arith);
    vstd::arithmetic::div_mod::lemma_mod_bound(moved, r);
    assert((m + n) * GAMMA == m * GAMMA + n * GAMMA) by (nonlinear_arith);
    vstd::arithmetic::div_mod::lemma_add_mod_noop(moved, n * GAMMA, r);
    vstd::arithmetic::div_mod::lemma_add_mod_noop(moved % r, n * GAMMA, r);
    vstd::arithmetic::div_mod::lemma_mod_twice(moved, r);
    lemma_fundamental_div_mod(state + GAMMA, r);
    vstd::arithmetic::div_mod::lemma_mod_bound(state + GAMMA, r);
    let q = (state + GAMMA) / r;
    assert((state_after(state, 1) - state - 0x9E37_79B9_7F4A_7C15) == r * (-q)) by {
        assert(r * (-q) == -(r * q)) by (nonlinear_arith);
    }
    lemma_mod_multiples_vanish(-q, 0, r);
    lemma_small_mod(0, r as nat);
}

/// What one more item does to a sample: a reservoir with room left takes it in
/// last. One without any room stays empty. Any other draws a number below how many
/// items there were so far, and the item takes the place of that number if there
/// is such a place; nothing else moves.
pub proof fn law_one_more_item<T>(items: Seq<T>, item: T, capacity: nat, seed: u64)
    requires
        items.len() < u64::MAX,
    ensures
        ({
            let (before, state) = sampled(items, capacity, seed);
            let (after, next) = sampled(items.push(item), capacity, seed);
            let drawn_place = drawn(state, (items.len() + 1) as u64);
            &&& items.len() < capacity ==> after == before.push(item) && next == state
            &&& capacity == 0 ==> after.len() == 0 && next == state
            &&& 0 < capacity <= items.len() ==> {
                &&& drawn_place <= items.len()
                &&& after.len() == before.len() == capacity
                &&& next == state_after(state, draws(state, (items.len() + 1) as u64))
                &&& forall|i: int|
                    0 <= i < capacity ==> #[trigger] after[i] == if i == drawn_place {
                        item
                    } else {
                        before[i]
                    }
            }
        }),
{
    let before = law_sample_is_taken_from_the_stream(items, capacity, seed);
    let after = law_sample_is_taken_from_the_stream(items.push(item), capacity, seed);
    assert(items.push(item).drop_last() =~= items);
    let (slots, state) = sampled(items, capacity, seed);
    let bound = (items.len() + 1) as u64;
    law_draws_scale_their_word(state, bound);
    let word = output(state, draws(state, bound));
    assert(word * bound < bound * 0x1_0000_0000_0000_0000) by (nonlinear_arith)
        requires
            word < 0x1_0000_0000_0000_0000,
            bound > 0,
    ;
}

} // verus!
