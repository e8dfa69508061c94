//! Hashing with `rustc_hash`: every item gets a hasher of its own, is fed to it
//! word by word, and the digest is read once.

use rustc_hash::FxHasher;
use std::hash::Hasher;
use vstd::prelude::*;

verus! {

/// The hasher of `rustc_hash`. Its state is hidden; contracts speak of the
/// words that were fed to it.
#[verifier::external_type_specification]
#[verifier::external_body]
pub struct ExFxHasher(FxHasher);

/// The words written to `hasher` since it was made, oldest first.
pub uninterp spec fn fx_written(hasher: FxHasher) -> Seq<u64>;

/// What `FxHasher::finish` returns once exactly `words` have been written, in
/// this order, to a hasher that started out from `FxHasher::default()`. The
/// value is fixed for a given pointer width of the target.
pub uninterp spec fn fx_digest(words: Seq<u64>) -> u64;

/// `FxHasher::default()`: a hasher to which nothing has been written yet.
#[verifier::external_body]
pub(crate) fn fx_new() -> (hasher: FxHasher)
    ensures
        fx_written(hasher) == Seq::<u64>::empty(),
{
    FxHasher::default()
}

/// `FxHasher::write_u64`: feeds one more word to the hasher.
#[verifier::external_body]
pub(crate) fn fx_write_u64(hasher: &mut FxHasher, word: u64)
    ensures
        fx_written(*final(hasher)) == fx_written(*old(hasher)).push(word),
{
    hasher.write_u64(word)
}

/// `FxHasher::finish`: reads the digest of the words written so far. The
/// hasher is left as it was.
#[verifier::external_body]
pub(crate) fn fx_finish(hasher: &FxHasher) -> (digest: u64)
    ensures
        digest == fx_digest(fx_written(*hasher)),
{
    hasher.finish()
}

/// The digest of a sequence of words, written in order to a hasher of their
/// own.
pub fn hash_words(words: &[u64]) -> (digest: u64)
    ensures
        digest == fx_digest(words@),
{
    let n: usize = words.len();
    let mut hasher = fx_new();
    let mut i: usize = 0;
    while i < n
        invariant
            n == words@.len(),
            i <= n,
            fx_written(hasher) == words@.take(i as int),
        decreases n - i,
    {
        fx_write_u64(&mut hasher, words[i]);
        proof {
            assert(words@.take(i + 1) =~= words@.take(i as int).push(words@[i as int]));
        }
        i += 1;
    }
    proof {
        assert(words@.take(n as int) =~= words@);
    }
    fx_finish(&hasher)
}

/// The digest of a single word.
pub fn hash_word(word: u64) -> (digest: u64)
    ensures
        digest == fx_digest(seq![word]),
{
    let mut hasher = fx_new();
    fx_write_u64(&mut hasher, word);
    proof {
        assert(Seq::<u64>::empty().push(word) =~= seq![word]);
    }
    fx_finish(&hasher)
}

} // verus!
