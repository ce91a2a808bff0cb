//! Seeded pseudo-random filling.
//!
//! The generator is `rand`'s `StdRng`. It yields 64-bit words; what element a
//! word becomes is the caller's choice.

use vstd::prelude::*;
use rand::rngs::StdRng;
use rand::RngCore;
use rand::SeedableRng;
use crate::grid::{Grid, gives_one};
use crate::mat::Mat;

verus! {

/// `rand::rngs::StdRng`, carried as an opaque value.
#[verifier::external_type_specification]
#[verifier::external_body]
pub struct ExStdRng(StdRng);

/// The words that a generator has yet to give: key `i` holds the word that it
/// returns after `i` other draws. A generator is a state machine without
/// outside input, so its state fixes every word to come.
pub uninterp spec fn pending(rng: StdRng) -> Map<nat, u64>;

/// The words that a generator gives when it starts from `seed`: key `i` holds
/// the word of its draw number `i`, counted from zero. The stream is that of
/// the `rand` release that the crate is built with; another release may give
/// another stream for the same seed.
pub uninterp spec fn seeded(seed: u64) -> Map<nat, u64>;

/// `<StdRng as SeedableRng>::seed_from_u64`. Believed, not proved: the
/// generator that it returns depends on `seed` alone, so the words that it has
/// yet to give are the stream named `seeded(seed)`.
#[verifier::external_body]
fn seed_rng(seed: u64) -> (rng: StdRng)
    ensures
        pending(rng) == seeded(seed),
{
    StdRng::seed_from_u64(seed)
}

/// `<StdRng as RngCore>::next_u64`. Believed, not proved: it returns the first
/// word that the generator had yet to give, and afterwards the generator has
/// yet to give the words that came after that one, in the same order.
#[verifier::external_body]
fn next_word(rng: &mut StdRng) -> (word: u64)
    ensures
        word == pending(*old(rng))[0],
        forall|i: nat| #[trigger] pending(*final(rng))[i] == pending(*old(rng))[(i + 1) as nat],
{
    rng.next_u64()
}

/// The first `count` words of the stream that belongs to `seed`.
pub open spec fn seeded_words(seed: u64, count: nat) -> Seq<u64> {
    Seq::new(count, |i: int| seeded(seed)[i as nat])
}

/// `out` holds one cell for each word, in the same order, and each cell is what
/// `unit` may make of its word.
pub open spec fn is_word_image<T, U: Fn(u64) -> T>(words: Seq<u64>, out: Grid<T>, unit: U) -> bool {
    &&& out.wf()
    &&& out.cells.len() == words.len()
    &&& forall|i: int|
        0 <= i < words.len() ==> call_ensures(unit, (words[i],), #[trigger] out.cells[i])
}

/// The first `count` words that a generator seeded with `seed` yields, in the
/// order in which it yields them.
pub fn random_words(count: usize, seed: u64) -> (words: Vec<u64>)
    ensures
        words@ == seeded_words(seed, count as nat),
{
    let mut rng = seed_rng(seed);
    let mut words: Vec<u64> = Vec::with_capacity(count);
    let mut n: usize = 0;
    while n < count
        invariant
            n <= count,
            words@.len() == n,
            forall|i: int| 0 <= i < n ==> #[trigger] words@[i] == seeded(seed)[i as nat],
            forall|i: nat| #[trigger] pending(rng)[i] == seeded(seed)[(i + n) as nat],
        decreases count - n,
    {
        let ghost before = pending(rng);
        let word = next_word(&mut rng);
        words.push(word);
        proof {
            assert forall|i: nat| #[trigger] pending(rng)[i] == seeded(seed)[(i + n + 1) as nat] by {
                assert(pending(rng)[i] == before[(i + 1) as nat]);
                assert(before[(i + 1) as nat] == seeded(seed)[((i + 1) as nat + n) as nat]);
            }
        }
        n += 1;
    }
    proof {
        assert(words@ =~= seeded_words(seed, count as nat));
    }
    words
}

/// Two fills of one shape from one seed are equal cell by cell, where `unit`
/// makes one element of each word.
pub proof fn law_same_seed_same_fill<T, U: Fn(u64) -> T>(
    first: Grid<T>,
    second: Grid<T>,
    rows: nat,
    cols: nat,
    seed: u64,
    unit: U,
)
    requires
        first.rows == rows,
        first.cols == cols,
        is_word_image(seeded_words(seed, rows * cols), first, unit),
        second.rows == rows,
        second.cols == cols,
        is_word_image(seeded_words(seed, rows * cols), second, unit),
        gives_one(unit),
    ensures
        first == second,
{
    let words = seeded_words(seed, rows * cols);
    assert forall|i: int| 0 <= i < first.cells.len() implies first.cells[i] == second.cells[i] by {
        assert(call_ensures(unit, (words[i],), first.cells[i]));
        assert(call_ensures(unit, (words[i],), second.cells[i]));
    }
    assert(first.cells =~= second.cells);
}

impl<T: Copy> Mat<T> {
    /// A matrix of the given shape whose cells, in row-major order, are what
    /// `unit` makes of `words`, one word for each cell.
    pub fn from_words<U: Fn(u64) -> T>(rows: usize, cols: usize, words: &Vec<u64>, unit: U) -> (m:
        Mat<T>)
        requires
            words@.len() == rows * cols,
            forall|w: u64| call_requires(unit, (w,)),
        ensures
            m@.rows == rows,
            m@.cols == cols,
            is_word_image(words@, m@, unit),
    {
        let mut data: Vec<T> = Vec::with_capacity(words.len());
        let mut n: usize = 0;
        while n < words.len()
            invariant
                n <= words@.len(),
                data@.len() == n,
                forall|w: u64| call_requires(unit, (w,)),
                forall|i: int| 0 <= i < n ==> call_ensures(unit, (words@[i],), #[trigger] data@[i]),
            decreases words@.len() - n,
        {
            data.push(unit(words[n]));
            n += 1;
        }
        Mat::new(rows, cols, data)
    }

    /// A matrix of the given shape filled from the generator seeded with `seed`:
    /// the generator's words are taken in the order in which it yields them, one
    /// for each cell in row-major order, and `unit` makes the element of each.
    pub fn new_random<U: Fn(u64) -> T>(rows: usize, cols: usize, seed: u64, unit: U) -> (m: Mat<T>)
        requires
            rows * cols <= usize::MAX,
            forall|w: u64| call_requires(unit, (w,)),
        ensures
            m@.rows == rows,
            m@.cols == cols,
            is_word_image(seeded_words(seed, (rows * cols) as nat), m@, unit),
    {
        let words = random_words(rows * cols, seed);
        Mat::from_words(rows, cols, &words, unit)
    }
}

} // verus!
