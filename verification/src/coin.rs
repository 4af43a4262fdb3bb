//! Fair coins, and one that serves the bits of 64-bit random words.

use vstd::prelude::*;
use rand::RngCore;
use rand::rngs::ThreadRng;

verus! {

/// A source of fair coin flips: each call of `flip` returns `true` or
/// `false` with equal probability, whatever came before.
pub trait FairCoin {
    /// Flips the coin once.
    fn flip(&mut self) -> bool;
}

/// A source of random 64-bit words, each bit of which is a fair coin flip.
pub trait WordSource {
    /// Draws the next word.
    fn next_word(&mut self) -> u64;
}

/// `rand::rngs::ThreadRng`, the handle to the calling thread's generator.
/// Nothing inside it is visible here.
#[verifier::external_type_specification]
#[verifier::external_body]
pub struct ExThreadRng(rand::rngs::ThreadRng);

/// Calls `ThreadRng::default`, that is `rand::rng`, which hands out the
/// calling thread's generator. Nothing is claimed of the handle. The call
/// panics if the operating system cannot seed the generator.
#[verifier::external_body]
fn thread_rng() -> ThreadRng {
    ThreadRng::default()
}

/// Calls `next_u64` of `rand::RngCore` on the thread's generator. Nothing is
/// claimed of the word that comes back, nor of what the call does to the
/// generator.
#[verifier::external_body]
fn thread_rng_word(rng: &mut ThreadRng) -> u64 {
    rng.next_u64()
}

impl WordSource for ThreadRng {
    fn next_word(&mut self) -> u64 {
        thread_rng_word(self)
    }
}

/// Whether `word` has a one at position `k`, position zero being the least
/// significant.
pub open spec fn bit_at(word: u64, k: int) -> bool {
    (word >> (k as u64)) & 1 == 1
}

/// The 64 bits of `word` as coin flips, the least significant first.
pub open spec fn bits_of(word: u64) -> Seq<bool> {
    Seq::new(64, |k: int| bit_at(word, k))
}

/// A fair coin that draws 64 bits at a time from a source of random words
/// and hands them out one by one.
pub struct RngCoin<R: WordSource> {
    rng: R,
    random_bits: u64,
    bits_read: u32,
}

impl<R: WordSource> RngCoin<R> {
    /// The flips that the coin will serve before it draws the next word, in
    /// the order in which they come.
    pub closed spec fn pending(&self) -> Seq<bool> {
        if self.bits_read <= 64 {
            Seq::new((64 - self.bits_read) as nat, |k: int| bit_at(self.random_bits, k))
        } else {
            Seq::empty()
        }
    }

    /// The source from which the coin draws.
    pub closed spec fn source(&self) -> R {
        self.rng
    }

    /// A coin that holds the bits of `word` and draws from `rng` once they
    /// are used up.
    fn holding(rng: R, word: u64) -> (coin: Self)
        ensures
            coin.pending() == bits_of(word),
            coin.source() == rng,
    {
        let coin = RngCoin { rng, random_bits: word, bits_read: 0 };
        assert(coin.pending() =~= bits_of(word));
        coin
    }

    /// Puts the bits of `word` in the place of those that the coin holds.
    fn refill(&mut self, word: u64)
        ensures
            final(self).pending() == bits_of(word),
            final(self).source() == old(self).source(),
    {
        self.random_bits = word;
        self.bits_read = 0;
        assert(self.pending() =~= bits_of(word));
    }

    /// Serves the next of the bits that the coin holds.
    fn serve(&mut self) -> (toss: bool)
        requires
            old(self).pending().len() > 0,
        ensures
            toss == old(self).pending()[0],
            final(self).pending() == old(self).pending().skip(1),
            final(self).source() == old(self).source(),
    {
        proof {
            lemma_shifted_bits(self.random_bits);
        }
        let toss = self.random_bits & 1 > 0;
        self.bits_read += 1;
        self.random_bits = self.random_bits >> 1;
        assert(self.pending() =~= old(self).pending().skip(1));
        toss
    }

    /// Makes a coin that draws from `rng`, and draws its first word.
    #[must_use]
    pub fn new(rng: R) -> (coin: Self)
        ensures
            exists|word: u64| coin.pending() == bits_of(word),
    {
        let mut rng = rng;
        let word = rng.next_word();
        Self::holding(rng, word)
    }
}

impl Default for RngCoin<ThreadRng> {
    /// A coin that draws from the calling thread's generator.
    fn default() -> (coin: Self)
        ensures
            exists|word: u64| coin.pending() == bits_of(word),
    {
        RngCoin::new(thread_rng())
    }
}

/// The lowest bit of a word is its first flip, and shifting the word down
/// by one moves every other bit one place ahead.
proof fn lemma_shifted_bits(word: u64)
    ensures
        (word & 1 > 0) == bit_at(word, 0),
        forall|k: int| 0 <= k < 63 ==> #[trigger] bit_at(word >> 1, k) == bit_at(word, k + 1),
{
    assert((word & 1 > 0) == ((word >> 0u64) & 1 == 1)) by (bit_vector);
    assert forall|k: int| 0 <= k < 63 implies #[trigger] bit_at(word >> 1, k) == bit_at(
        word,
        k + 1,
    ) by {
        let low = k as u64;
        let high = (k + 1) as u64;
        assert(((word >> 1) >> low) & 1 == (word >> high) & 1) by (bit_vector)
            requires
                low < 63,
                high == low + 1,
        ;
    }
}

impl<R: WordSource> FairCoin for RngCoin<R> {
    /// Serves the next pending flip; when none is pending, draws a word from
    /// the source first and serves its lowest bit.
    fn flip(&mut self) -> (toss: bool)
        ensures
            old(self).pending().len() > 0 ==> {
                &&& toss == old(self).pending()[0]
                &&& final(self).pending() == old(self).pending().skip(1)
                &&& final(self).source() == old(self).source()
            },
            old(self).pending().len() == 0 ==> exists|word: u64|
                {
                    &&& toss == bits_of(word)[0]
                    &&& final(self).pending() == bits_of(word).skip(1)
                },
    {
        if self.bits_read >= u64::BITS {
            let word = self.rng.next_word();
            self.refill(word);
        }
        self.serve()
    }
}

} // verus!
