//! Winnowing fingerprints of hashed token streams.
//!
//! A stream of hashed tokens is cut into k-grams, every k-gram is hashed, and
//! from every window of consecutive k-gram hashes the smallest one is kept.

use crate::hashing::{fx_digest, fx_finish, fx_new, fx_write_u64, fx_written};
use crate::sequences::ordered;
use crate::text::{decimal_digits, push_decimal};
use std::ops::Range;
use vstd::prelude::*;
use vstd::string::StringExecFns;

verus! {

/// The fingerprint of one file: the selected k-gram hashes, each with the
/// bytes its k-gram covers, in the order of their windows.
pub struct Fingerprint {
    pub spanned_hashes: Vec<(u64, Range<usize>)>,
}

/// Why a file has no fingerprint: it holds fewer tokens than one k-gram.
#[derive(Debug, PartialEq, Eq, Structural, Clone, Copy)]
pub struct FingerprintError {
    pub num_tokens: usize,
    pub noise_threshold: usize,
}

/// What the error says of a file of `num_tokens` tokens.
pub open spec fn error_message(num_tokens: nat, noise_threshold: nat) -> Seq<char> {
    "File could not be fingerprinted because it contains "@ + decimal_digits(num_tokens)
        + " tokens, which is less than the noise threshold of "@ + decimal_digits(
        noise_threshold,
    ) + "."@
}

impl FingerprintError {
    /// The error in words.
    pub fn message(&self) -> (text: String)
        ensures
            text@ == error_message(self.num_tokens as nat, self.noise_threshold as nat),
    {
        let mut text = String::new();
        text.append("File could not be fingerprinted because it contains ");
        push_decimal(&mut text, self.num_tokens);
        text.append(" tokens, which is less than the noise threshold of ");
        push_decimal(&mut text, self.noise_threshold);
        text.append(".");
        proof {
            assert(text@ =~= error_message(
                self.num_tokens as nat,
                self.noise_threshold as nat,
            ));
        }
        text
    }
}

/// The hash codes of a stream, without the spans.
pub open spec fn codes(tokens: Seq<(u64, Range<usize>)>) -> Seq<u64> {
    tokens.map_values(|t: (u64, Range<usize>)| t.0)
}

/// The hash of the `k` tokens that start at index `i`.
pub open spec fn kgram_code(tokens: Seq<(u64, Range<usize>)>, i: int, k: int) -> u64 {
    fx_digest(codes(tokens.subrange(i, i + k)))
}

/// From the start of the first span to the end of the last one.
pub open spec fn combined_span(tokens: Seq<(u64, Range<usize>)>, from: int, to: int) -> Range<
    usize,
> {
    Range { start: tokens[from].1.start, end: tokens[to - 1].1.end }
}

/// The k-gram that starts at token `i`: its hash and the bytes it covers.
pub open spec fn kgram(tokens: Seq<(u64, Range<usize>)>, i: int, k: int) -> (u64, Range<usize>) {
    (kgram_code(tokens, i, k), combined_span(tokens, i, i + k))
}

/// All k-grams of a stream, by starting token. Empty when the stream is
/// shorter than `k`.
pub open spec fn kgrams(tokens: Seq<(u64, Range<usize>)>, k: int) -> Seq<(u64, Range<usize>)> {
    if 1 <= k <= tokens.len() {
        Seq::new((tokens.len() - k + 1) as nat, |i: int| kgram(tokens, i, k))
    } else {
        Seq::empty()
    }
}

/// The index in `lo..hi` of the smallest hash; of several equal ones the
/// rightmost.
pub open spec fn rightmost_min(hashes: Seq<(u64, Range<usize>)>, lo: int, hi: int) -> int
    decreases hi - lo,
{
    if hi - lo <= 1 {
        lo
    } else {
        let before = rightmost_min(hashes, lo, hi - 1);
        if hashes[hi - 1].0 <= hashes[before].0 {
            hi - 1
        } else {
            before
        }
    }
}

/// What each window of `w` consecutive hashes selects, one entry per window.
pub open spec fn window_picks(hashes: Seq<(u64, Range<usize>)>, w: int) -> Seq<
    (u64, Range<usize>),
> {
    if 1 <= w <= hashes.len() {
        Seq::new(
            (hashes.len() - w + 1) as nat,
            |i: int| hashes[rightmost_min(hashes, i, i + w)],
        )
    } else {
        Seq::empty()
    }
}

/// Drops every entry whose hash equals that of the entry just before it.
pub open spec fn suppress_repeats(picks: Seq<(u64, Range<usize>)>) -> Seq<(u64, Range<usize>)>
    decreases picks.len(),
{
    if picks.len() == 0 {
        Seq::empty()
    } else {
        let rest = suppress_repeats(picks.drop_last());
        if picks.len() >= 2 && picks[picks.len() - 2].0 == picks.last().0 {
            rest
        } else {
            rest.push(picks.last())
        }
    }
}

/// Winnowing: the selections of all windows, a run of equal hashes counted
/// once.
pub open spec fn winnow(hashes: Seq<(u64, Range<usize>)>, w: int) -> Seq<(u64, Range<usize>)> {
    suppress_repeats(window_picks(hashes, w))
}

/// The window size for noise threshold `k`, guarantee threshold `t` and
/// largest relative offset `m`.
pub open spec fn window_size(k: int, t: int, m: int) -> int {
    t - m - k + 1
}

/// The span that reaches from the first of the tokens `from..to` to the last.
fn combine_spans(tokens: &[(u64, Range<usize>)], from: usize, to: usize) -> (span: Range<usize>)
    requires
        from < to <= tokens@.len(),
    ensures
        span == combined_span(tokens@, from as int, to as int),
{
    let mut result: Range<usize> = tokens[from].1.start..tokens[from].1.end;
    let mut i: usize = from + 1;
    while i < to
        invariant
            from < i <= to <= tokens@.len(),
            result.start == tokens@[from as int].1.start,
            result.end == tokens@[i - 1].1.end,
        decreases to - i,
    {
        result.end = tokens[i].1.end;
        i += 1;
    }
    result
}

/// Hashes the `k` tokens that start at `from` with a hasher of their own and
/// joins their spans.
fn hash_window(tokens: &[(u64, Range<usize>)], from: usize, k: usize) -> (hashed: (
    u64,
    Range<usize>,
))
    requires
        k >= 1,
        from + k <= tokens@.len(),
    ensures
        hashed == kgram(tokens@, from as int, k as int),
{
    let n: usize = tokens.len();
    let mut hasher = fx_new();
    let mut j: usize = 0;
    while j < k
        invariant
            j <= k,
            from + k <= n,
            n == tokens@.len(),
            fx_written(hasher) == codes(tokens@.subrange(from as int, from + j)),
        decreases k - j,
    {
        fx_write_u64(&mut hasher, tokens[from + j].0);
        proof {
            assert(codes(tokens@.subrange(from as int, from + j + 1)) =~= codes(
                tokens@.subrange(from as int, from + j),
            ).push(tokens@[from + j].0));
        }
        j += 1;
    }
    let hash = fx_finish(&hasher);
    let span = combine_spans(tokens, from, from + k);
    (hash, span)
}

/// Selects from every window of `w` hashes the smallest, rightmost among
/// equals, and keeps a run of equal selections once.
pub fn choose_fingerprint(spanned_hashes: &[(u64, Range<usize>)], w: usize) -> (fingerprint:
    Fingerprint)
    requires
        w >= 1,
    ensures
        fingerprint.spanned_hashes@ == winnow(spanned_hashes@, w as int),
{
    let n: usize = spanned_hashes.len();
    let mut picked: Vec<(u64, Range<usize>)> = Vec::new();
    if n < w {
        return Fingerprint { spanned_hashes: picked };
    }
    let windows: usize = n - w + 1;
    let ghost picks = window_picks(spanned_hashes@, w as int);
    let mut previous: Option<u64> = None;
    let mut i: usize = 0;
    proof {
        assert(picks.take(0) =~= Seq::empty());
    }
    while i < windows
        invariant
            n == spanned_hashes@.len(),
            1 <= w <= n,
            windows == n - w + 1,
            i <= windows,
            picks == window_picks(spanned_hashes@, w as int),
            picks.len() == windows,
            picked@ == suppress_repeats(picks.take(i as int)),
            i == 0 ==> previous is None,
            i > 0 ==> previous == Some(picks[i - 1].0),
        decreases windows - i,
    {
        let mut best: usize = i;
        let mut j: usize = i + 1;
        while j < i + w
            invariant
                n == spanned_hashes@.len(),
                i + w <= n,
                i < j <= i + w,
                i <= best < j,
                best == rightmost_min(spanned_hashes@, i as int, j as int),
            decreases i + w - j,
        {
            if spanned_hashes[j].0 <= spanned_hashes[best].0 {
                best = j;
            }
            j += 1;
        }
        let min_hash: u64 = spanned_hashes[best].0;
        let repeated: bool = match previous {
            Some(p) => p == min_hash,
            None => false,
        };
        proof {
            let upto = picks.take(i + 1);
            assert(upto.drop_last() =~= picks.take(i as int));
            assert(upto.last() == picks[i as int]);
            assert(picks[i as int] == spanned_hashes@[best as int]);
            if i > 0 {
                assert(upto[upto.len() - 2] == picks[i - 1]);
            }
        }
        if !repeated {
            previous = Some(min_hash);
            picked.push((min_hash, spanned_hashes[best].1.start..spanned_hashes[best].1.end));
        }
        i += 1;
    }
    proof {
        assert(picks.take(windows as int) =~= picks);
    }
    Fingerprint { spanned_hashes: picked }
}

/// Fingerprints a stream of hashed tokens by winnowing.
///
/// `k` is the noise threshold, `t` the guarantee threshold and `m` the largest
/// offset a relative token may hold. A stream of fewer than `k` tokens has no
/// fingerprint.
pub fn fingerprint(k: usize, t: usize, m: usize, tokens: &[(u64, Range<usize>)]) -> (result:
    Result<Fingerprint, FingerprintError>)
    requires
        k != 0,
        t >= k + m,
    ensures
        match result {
            Ok(fingerprint) => tokens@.len() >= k && fingerprint.spanned_hashes@ == winnow(
                kgrams(tokens@, k as int),
                window_size(k as int, t as int, m as int),
            ),
            Err(e) => tokens@.len() < k && e == (FingerprintError {
                num_tokens: tokens@.len() as usize,
                noise_threshold: k,
            }),
        },
{
    let num_tokens: usize = tokens.len();
    if num_tokens < k {
        return Err(FingerprintError { num_tokens, noise_threshold: k });
    }
    let w: usize = t - m - k + 1;
    let count: usize = num_tokens - k + 1;
    let mut hashes: Vec<(u64, Range<usize>)> = Vec::new();
    let mut i: usize = 0;
    while i < count
        invariant
            1 <= k <= num_tokens,
            num_tokens == tokens@.len(),
            count == num_tokens - k + 1,
            i <= count,
            hashes@.len() == i,
            forall|j: int| 0 <= j < i ==> hashes@[j] == kgram(tokens@, j, k as int),
        decreases count - i,
    {
        let hashed = hash_window(tokens, i, k);
        hashes.push(hashed);
        i += 1;
    }
    proof {
        assert(hashes@ =~= kgrams(tokens@, k as int));
    }
    Ok(choose_fingerprint(hashes.as_slice(), w))
}

/// `rightmost_min` names an index of the window that holds its smallest
/// hash, and no later index of the window holds a hash as small.
pub proof fn lemma_rightmost_min(hashes: Seq<(u64, Range<usize>)>, lo: int, hi: int)
    requires
        0 <= lo < hi <= hashes.len(),
    ensures
        lo <= rightmost_min(hashes, lo, hi) < hi,
        forall|i: int|
            lo <= i < hi ==> hashes[rightmost_min(hashes, lo, hi)].0 <= (#[trigger] hashes[i]).0,
        forall|i: int|
            rightmost_min(hashes, lo, hi) < i < hi ==> hashes[rightmost_min(hashes, lo, hi)].0 < (
            #[trigger] hashes[i]).0,
    decreases hi - lo,
{
    if hi - lo > 1 {
        lemma_rightmost_min(hashes, lo, hi - 1);
    }
}

/// Two windows that hold the same hashes in the same order select the same
/// place.
pub proof fn lemma_rightmost_min_of_equal_windows(
    a: Seq<(u64, Range<usize>)>,
    b: Seq<(u64, Range<usize>)>,
    la: int,
    lb: int,
    n: int,
)
    requires
        n >= 1,
        0 <= la,
        la + n <= a.len(),
        0 <= lb,
        lb + n <= b.len(),
        forall|j: int| 0 <= j < n ==> (#[trigger] a[la + j]).0 == b[lb + j].0,
    ensures
        rightmost_min(a, la, la + n) - la == rightmost_min(b, lb, lb + n) - lb,
    decreases n,
{
    if n > 1 {
        lemma_rightmost_min_of_equal_windows(a, b, la, lb, n - 1);
        lemma_rightmost_min(a, la, la + n - 1);
        lemma_rightmost_min(b, lb, lb + n - 1);
        let ra = rightmost_min(a, la, la + n - 1);
        assert(a[la + (ra - la)].0 == b[lb + (ra - la)].0);
        assert(a[la + (n - 1)].0 == b[lb + (n - 1)].0);
    }
}

/// `suppress_repeats` never lengthens, and it ends on the hash its input ends
/// on.
pub proof fn lemma_suppress_repeats_last(picks: Seq<(u64, Range<usize>)>)
    ensures
        suppress_repeats(picks).len() <= picks.len(),
        picks.len() > 0 ==> suppress_repeats(picks).len() > 0 && suppress_repeats(
            picks,
        ).last().0 == picks.last().0,
    decreases picks.len(),
{
    if picks.len() > 0 {
        lemma_suppress_repeats_last(picks.drop_last());
        if picks.len() >= 2 {
            assert(picks.drop_last().last() == picks[picks.len() - 2]);
        }
    }
}

/// Every entry that `suppress_repeats` keeps is an entry of its input.
pub proof fn lemma_suppress_repeats_member(picks: Seq<(u64, Range<usize>)>, j: int)
    requires
        0 <= j < suppress_repeats(picks).len(),
    ensures
        picks.contains(suppress_repeats(picks)[j]),
    decreases picks.len(),
{
    let shorter = picks.drop_last();
    let rest = suppress_repeats(shorter);
    if j < rest.len() {
        lemma_suppress_repeats_member(shorter, j);
        let i = choose|i: int| 0 <= i < shorter.len() && shorter[i] == rest[j];
        assert(picks[i] == suppress_repeats(picks)[j]);
    } else {
        assert(picks[picks.len() - 1] == suppress_repeats(picks)[j]);
    }
}

/// The hash of every entry of the input is the hash of an entry that
/// `suppress_repeats` keeps; the result is the place of such an entry.
pub proof fn lemma_suppress_repeats_keeps_hash(picks: Seq<(u64, Range<usize>)>, i: int) -> (j:
    int)
    requires
        0 <= i < picks.len(),
    ensures
        0 <= j < suppress_repeats(picks).len(),
        suppress_repeats(picks)[j].0 == picks[i].0,
    decreases picks.len(),
{
    let shorter = picks.drop_last();
    lemma_suppress_repeats_last(picks);
    if i < shorter.len() {
        let j = lemma_suppress_repeats_keeps_hash(shorter, i);
        j
    } else {
        suppress_repeats(picks).len() - 1
    }
}

/// No two neighbours in what `suppress_repeats` keeps have the same hash.
pub proof fn lemma_suppress_repeats_neighbours(picks: Seq<(u64, Range<usize>)>, j: int)
    requires
        0 < j < suppress_repeats(picks).len(),
    ensures
        suppress_repeats(picks)[j - 1].0 != suppress_repeats(picks)[j].0,
    decreases picks.len(),
{
    let shorter = picks.drop_last();
    let rest = suppress_repeats(shorter);
    if j < rest.len() {
        lemma_suppress_repeats_neighbours(shorter, j);
    } else {
        lemma_suppress_repeats_last(shorter);
        assert(shorter.last() == picks[picks.len() - 2]);
    }
}

/// A sequence in which no hash stands twice in a row is left as it is.
pub proof fn lemma_suppress_repeats_fixed(picks: Seq<(u64, Range<usize>)>)
    requires
        forall|j: int| 0 < j < picks.len() ==> picks[j - 1].0 != (#[trigger] picks[j]).0,
    ensures
        suppress_repeats(picks) == picks,
    decreases picks.len(),
{
    if picks.len() > 0 {
        let shorter = picks.drop_last();
        assert forall|j: int| 0 < j < shorter.len() implies shorter[j - 1].0 != (
        #[trigger] shorter[j]).0 by {
            assert(picks[j - 1].0 != picks[j].0);
        }
        lemma_suppress_repeats_fixed(shorter);
        if picks.len() >= 2 {
            assert(picks[picks.len() - 2].0 != picks[picks.len() - 1].0);
        }
        assert(shorter.push(picks.last()) =~= picks);
    }
}

/// With windows of one hash every hash is selected.
pub proof fn lemma_window_of_one(hashes: Seq<(u64, Range<usize>)>)
    ensures
        window_picks(hashes, 1) == hashes,
{
    assert(window_picks(hashes, 1) =~= hashes);
}

/// Winnowing a winnowed sequence once more with windows of one hash changes
/// nothing: with such windows winnowing only drops repeated hashes, and a
/// winnowed sequence holds none.
pub proof fn lemma_winnow_idempotent(hashes: Seq<(u64, Range<usize>)>, w: int)
    ensures
        winnow(hashes, 1) == suppress_repeats(hashes),
        winnow(winnow(hashes, w), 1) == winnow(hashes, w),
{
    lemma_window_of_one(hashes);
    lemma_window_of_one(winnow(hashes, w));
    assert forall|j: int| 0 < j < winnow(hashes, w).len() implies winnow(hashes, w)[j - 1].0 != (
    #[trigger] winnow(hashes, w)[j]).0 by {
        lemma_suppress_repeats_neighbours(window_picks(hashes, w), j);
    }
    lemma_suppress_repeats_fixed(winnow(hashes, w));
}

/// Every entry of a winnowed sequence is an entry of the sequence it was
/// taken from.
pub proof fn lemma_winnow_selects(hashes: Seq<(u64, Range<usize>)>, w: int)
    ensures
        forall|j: int|
            0 <= j < winnow(hashes, w).len() ==> hashes.contains(#[trigger] winnow(hashes, w)[j]),
{
    let picks = window_picks(hashes, w);
    assert forall|j: int| 0 <= j < winnow(hashes, w).len() implies hashes.contains(
        #[trigger] winnow(hashes, w)[j],
    ) by {
        let entry = winnow(hashes, w)[j];
        lemma_suppress_repeats_member(picks, j);
        let i = choose|i: int| 0 <= i < picks.len() && picks[i] == entry;
        lemma_rightmost_min(hashes, i, i + w);
        assert(hashes[rightmost_min(hashes, i, i + w)] == entry);
    }
}

/// Every entry of a fingerprint is a k-gram of the stream: its hash is the
/// hash of `k` consecutive tokens and its span reaches from the first of them
/// to the last.
pub proof fn lemma_fingerprint_of_kgrams(tokens: Seq<(u64, Range<usize>)>, k: int, w: int)
    ensures
        forall|j: int|
            0 <= j < winnow(kgrams(tokens, k), w).len() ==> exists|i: int|
                0 <= i && i + k <= tokens.len() && (#[trigger] winnow(kgrams(tokens, k), w)[j])
                    == kgram(tokens, i, k),
{
    let grams = kgrams(tokens, k);
    lemma_winnow_selects(grams, w);
    assert forall|j: int| 0 <= j < winnow(grams, w).len() implies exists|i: int|
        0 <= i && i + k <= tokens.len() && (#[trigger] winnow(grams, w)[j]) == kgram(
            tokens,
            i,
            k,
        ) by {
        let entry = winnow(grams, w)[j];
        assert(grams.contains(entry));
        let i = choose|i: int| 0 <= i < grams.len() && grams[i] == entry;
        assert(entry == kgram(tokens, i, k));
    }
}

/// The guarantee of winnowing. Two streams that share a run of `k + w - 1`
/// tokens with equal hash codes have an entry with one and the same hash in
/// their fingerprints.
pub proof fn lemma_shared_run_shares_hash(
    a: Seq<(u64, Range<usize>)>,
    b: Seq<(u64, Range<usize>)>,
    k: int,
    w: int,
    ia: int,
    ib: int,
)
    requires
        k >= 1,
        w >= 1,
        0 <= ia,
        ia + k + w - 1 <= a.len(),
        0 <= ib,
        ib + k + w - 1 <= b.len(),
        codes(a.subrange(ia, ia + k + w - 1)) == codes(b.subrange(ib, ib + k + w - 1)),
    ensures
        exists|x: int, y: int|
            0 <= x < winnow(kgrams(a, k), w).len() && 0 <= y < winnow(kgrams(b, k), w).len()
                && (#[trigger] winnow(kgrams(a, k), w)[x]).0 == (#[trigger] winnow(
                kgrams(b, k),
                w,
            )[y]).0,
{
    let ga = kgrams(a, k);
    let gb = kgrams(b, k);
    let run_a = a.subrange(ia, ia + k + w - 1);
    let run_b = b.subrange(ib, ib + k + w - 1);
    assert forall|j: int| 0 <= j < w implies (#[trigger] ga[ia + j]).0 == gb[ib + j].0 by {
        assert(a.subrange(ia + j, ia + j + k) =~= run_a.subrange(j, j + k));
        assert(b.subrange(ib + j, ib + j + k) =~= run_b.subrange(j, j + k));
        assert(codes(run_a.subrange(j, j + k)) =~= codes(run_a).subrange(j, j + k));
        assert(codes(run_b.subrange(j, j + k)) =~= codes(run_b).subrange(j, j + k));
    }
    lemma_rightmost_min_of_equal_windows(ga, gb, ia, ib, w);
    lemma_rightmost_min(ga, ia, ia + w);
    lemma_rightmost_min(gb, ib, ib + w);
    let pa = window_picks(ga, w);
    let pb = window_picks(gb, w);
    let ra = rightmost_min(ga, ia, ia + w);
    assert(ga[ia + (ra - ia)].0 == gb[ib + (ra - ia)].0);
    assert(pa[ia].0 == pb[ib].0);
    let x = lemma_suppress_repeats_keeps_hash(pa, ia);
    let y = lemma_suppress_repeats_keeps_hash(pb, ib);
    assert(winnow(ga, w)[x].0 == winnow(gb, w)[y].0);
}

/// The noise floor of winnowing. Where equal k-gram hashes only come from
/// equal k-grams, two streams that share no run of `k` tokens with equal hash
/// codes have no hash in common in their fingerprints.
pub proof fn lemma_no_shared_run_no_shared_hash(
    a: Seq<(u64, Range<usize>)>,
    b: Seq<(u64, Range<usize>)>,
    k: int,
    wa: int,
    wb: int,
)
    requires
        forall|i: int, j: int|
            0 <= i && i + k <= a.len() && 0 <= j && j + k <= b.len() && kgram_code(a, i, k)
                == kgram_code(b, j, k) ==> codes(#[trigger] a.subrange(i, i + k)) == codes(
                #[trigger] b.subrange(j, j + k),
            ),
        forall|i: int, j: int|
            0 <= i && i + k <= a.len() && 0 <= j && j + k <= b.len() ==> codes(
                #[trigger] a.subrange(i, i + k),
            ) != codes(#[trigger] b.subrange(j, j + k)),
    ensures
        forall|x: int, y: int|
            0 <= x < winnow(kgrams(a, k), wa).len() && 0 <= y < winnow(kgrams(b, k), wb).len()
                ==> (#[trigger] winnow(kgrams(a, k), wa)[x]).0 != (#[trigger] winnow(
                kgrams(b, k),
                wb,
            )[y]).0,
{
    lemma_fingerprint_of_kgrams(a, k, wa);
    lemma_fingerprint_of_kgrams(b, k, wb);
    assert forall|x: int, y: int|
        0 <= x < winnow(kgrams(a, k), wa).len() && 0 <= y < winnow(
            kgrams(b, k),
            wb,
        ).len() implies (#[trigger] winnow(kgrams(a, k), wa)[x]).0 != (#[trigger] winnow(
        kgrams(b, k),
        wb,
    )[y]).0 by {
        let ea = winnow(kgrams(a, k), wa)[x];
        let eb = winnow(kgrams(b, k), wb)[y];
        let i = choose|i: int| 0 <= i && i + k <= a.len() && ea == kgram(a, i, k);
        let j = choose|j: int| 0 <= j && j + k <= b.len() && eb == kgram(b, j, k);
        if ea.0 == eb.0 {
            assert(kgram_code(a, i, k) == kgram_code(b, j, k));
            assert(codes(a.subrange(i, i + k)) == codes(b.subrange(j, j + k)));
        }
    }
}

/// The k-grams of tokens that stand in the order of the text stand in the
/// order of the text.
pub proof fn lemma_kgrams_ordered(tokens: Seq<(u64, Range<usize>)>, k: int)
    requires
        ordered(tokens),
    ensures
        ordered(kgrams(tokens, k)),
{
    let grams = kgrams(tokens, k);
    assert forall|i: int, j: int| 0 <= i < j < grams.len() implies (#[trigger] grams[i]).1.start < (
    #[trigger] grams[j]).1.start && grams[i].1.end < grams[j].1.end by {
        assert(tokens[i].1.start < tokens[j].1.start);
        assert(tokens[i + k - 1].1.end < tokens[j + k - 1].1.end);
    }
}

/// The window one place further on never selects an earlier hash.
pub proof fn lemma_rightmost_min_moves_on(hashes: Seq<(u64, Range<usize>)>, i: int, w: int)
    requires
        w >= 1,
        0 <= i,
        i + 1 + w <= hashes.len(),
    ensures
        rightmost_min(hashes, i, i + w) <= rightmost_min(hashes, i + 1, i + 1 + w),
{
    lemma_rightmost_min(hashes, i, i + w);
    lemma_rightmost_min(hashes, i + 1, i + 1 + w);
    let here = rightmost_min(hashes, i, i + w);
    let next = rightmost_min(hashes, i + 1, i + 1 + w);
    if next < here {
        assert(hashes[here].0 <= hashes[next].0);
        assert(hashes[next].0 < hashes[here].0);
    }
}

/// Whether `x` is one of the hashes up to place `bound`.
pub open spec fn stands_up_to(
    hashes: Seq<(u64, Range<usize>)>,
    x: (u64, Range<usize>),
    bound: int,
) -> bool {
    exists|q: int| 0 <= q <= bound && q < hashes.len() && #[trigger] hashes[q] == x
}

/// What the first `n` windows contribute to the fingerprint stands in the
/// order of the text, and none of it stands behind what window `n - 1`
/// selects.
pub proof fn lemma_first_windows_ordered(hashes: Seq<(u64, Range<usize>)>, w: int, n: int)
    requires
        ordered(hashes),
        1 <= w <= hashes.len(),
        0 <= n <= window_picks(hashes, w).len(),
    ensures
        ordered(suppress_repeats(window_picks(hashes, w).take(n))),
        forall|j: int|
            0 <= j < suppress_repeats(window_picks(hashes, w).take(n)).len() ==> stands_up_to(
                hashes,
                #[trigger] suppress_repeats(window_picks(hashes, w).take(n))[j],
                rightmost_min(hashes, n - 1, n - 1 + w),
            ),
    decreases n,
{
    let picks = window_picks(hashes, w);
    if n > 0 {
        let shorter = picks.take(n - 1);
        let longer = picks.take(n);
        assert(longer.drop_last() =~= shorter);
        assert(longer.last() == picks[n - 1]);
        lemma_first_windows_ordered(hashes, w, n - 1);
        let rest = suppress_repeats(shorter);
        let out = suppress_repeats(longer);
        let here = rightmost_min(hashes, n - 1, n - 1 + w);
        lemma_rightmost_min(hashes, n - 1, n - 1 + w);
        if n > 1 {
            lemma_rightmost_min_moves_on(hashes, n - 2, w);
            lemma_rightmost_min(hashes, n - 2, n - 2 + w);
            assert(longer[longer.len() - 2] == picks[n - 2]);
        }
        let before = rightmost_min(hashes, n - 2, n - 2 + w);
        assert forall|j: int| 0 <= j < out.len() implies stands_up_to(
            hashes,
            #[trigger] out[j],
            here,
        ) by {
            if j < rest.len() {
                assert(stands_up_to(hashes, rest[j], before));
                let q = choose|q: int|
                    0 <= q <= before && q < hashes.len() && #[trigger] hashes[q] == rest[j];
                assert(hashes[q] == out[j]);
            } else {
                assert(hashes[here] == out[j]);
            }
        }
        assert forall|a: int, b: int| 0 <= a < b < out.len() implies (#[trigger] out[a]).1.start < (
        #[trigger] out[b]).1.start && out[a].1.end < out[b].1.end by {
            if b < rest.len() {
                assert(rest[a].1.start < rest[b].1.start);
            } else {
                // the last one was added: its hash is not that of the window before
                assert(stands_up_to(hashes, rest[a], before));
                let q = choose|q: int|
                    0 <= q <= before && q < hashes.len() && #[trigger] hashes[q] == rest[a];
                assert(picks[n - 2] == hashes[before]);
                assert(before != here);
                assert(hashes[q].1.start < hashes[here].1.start);
            }
        }
    }
}

/// The entries of a fingerprint stand in the order of the text: each starts
/// behind the start of the one before.
pub proof fn lemma_fingerprint_ordered(tokens: Seq<(u64, Range<usize>)>, k: int, w: int)
    requires
        ordered(tokens),
    ensures
        ordered(winnow(kgrams(tokens, k), w)),
{
    let grams = kgrams(tokens, k);
    lemma_kgrams_ordered(tokens, k);
    let picks = window_picks(grams, w);
    if 1 <= w <= grams.len() {
        lemma_first_windows_ordered(grams, w, picks.len() as int);
        assert(picks.take(picks.len() as int) =~= picks);
    }
}

} // verus!
