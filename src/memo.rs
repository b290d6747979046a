//! The memoization call protocol and eviction.

use vstd::prelude::*;
use crate::cache::{Cache, Entry, holds, slot, stored, swept, stale};
use crate::laws::law_eviction_count;
use crate::track::{Track, KeyHasher, digest_of};

verus! {

/// Whether a call with `input` is answered from the entries `s`: an entry is
/// stored under the input's digest and the input satisfies its constraint.
pub open spec fn hits<I: Track, O>(s: Seq<Entry<O, I::Constraint>>, input: &I) -> bool {
    let d = digest_of(input);
    holds(s, d) && input.accepts(&s[slot(s, d)].constraint)
}

/// The stored output that a hit returns.
pub open spec fn hit_output<I: Track, O>(s: Seq<Entry<O, I::Constraint>>, input: &I) -> O {
    s[slot(s, digest_of(input))].output
}

/// The entries after a hit: the entry that answered has age zero again.
pub open spec fn after_hit<I: Track, O>(s: Seq<Entry<O, I::Constraint>>, input: &I) -> Seq<
    Entry<O, I::Constraint>,
> {
    let k = slot(s, digest_of(input));
    s.update(k, s[k].refreshed())
}

/// What a memoized call on the entries `s` with `input` and `f` may lead to:
/// the entries afterwards, `s2`, and the output handed back, `v`. A hit
/// refreshes the answering entry and yields its output without calling `f`;
/// a miss yields what `f` produced and stores it under the input's digest.
pub open spec fn outcome<I: Track, O, F: Fn(I) -> (O, I::Constraint)>(
    s: Seq<Entry<O, I::Constraint>>,
    input: I,
    f: F,
    s2: Seq<Entry<O, I::Constraint>>,
    v: O,
) -> bool {
    if hits(s, &input) {
        s2 == after_hit(s, &input) && v == hit_output(s, &input)
    } else {
        exists|out: (O, I::Constraint)|
            #[trigger] f.ensures((input,), out) && s2 == stored(s, digest_of(&input), out.0, out.1)
                && v == out.0
    }
}

/// The digest of an input's key.
fn digest<I: Track>(input: &I) -> (r: u64)
    ensures
        r == digest_of(input),
{
    let mut hasher = KeyHasher::new();
    input.key(&mut hasher);
    assert(hasher@ =~= input.key_words());
    hasher.finish()
}

/// Execute a memoized function call and hand a reference to its output to
/// `g`.
///
/// On a hit the stored output goes to `g` and its entry's age is reset. On a
/// miss `f` computes the output and its constraint, `g` sees the fresh
/// output, and the result is stored under the input's digest, overwriting
/// any entry there. `f` must be pure; `g` need not be.
pub fn memoized_ref<I, O, F, G, R>(
    cache: &mut Cache<O, I::Constraint>,
    input: I,
    f: F,
    g: G,
) -> (r: R) where I: Track, F: Fn(I) -> (O, I::Constraint), G: Fn(&O) -> R
    requires
        old(cache).wf(),
        f.requires((input,)),
        forall|o: &O| #[trigger] g.requires((o,)),
    ensures
        final(cache).wf(),
        exists|v: O|
            #[trigger] outcome(old(cache)@, input, f, final(cache)@, v) && g.ensures((&v,), r),
{
    let ghost s = cache@;
    let d = digest(&input);
    match cache.find(d) {
        Some(k) => {
            if input.matches(&cache.entry_at(k).constraint) {
                cache.refresh(k);
                let r = g(&cache.entry_at(k).output);
                assert(outcome(s, input, f, cache@, hit_output(s, &input)));
                return r;
            }
        },
        None => {},
    }
    let out = f(input);
    let r = g(&out.0);
    cache.store(d, out.0, out.1);
    assert(outcome(s, input, f, cache@, out.0));
    r
}

/// Execute a memoized function call.
///
/// The input's digest selects a stored entry; if the input satisfies its
/// constraint, a copy of the stored output is returned and the entry's age is
/// reset. Otherwise `f` computes the output and its constraint, which are
/// stored under the digest, and a copy of the output is returned. `f` must
/// be pure.
pub fn memoized<I, O, F>(cache: &mut Cache<O, I::Constraint>, input: I, f: F) -> (r: O) where
    I: Track,
    O: Clone,
    F: Fn(I) -> (O, I::Constraint),

    requires
        old(cache).wf(),
        f.requires((input,)),
    ensures
        final(cache).wf(),
        exists|v: O| #[trigger] outcome(old(cache)@, input, f, final(cache)@, v) && cloned(v, r),
{
    let copy = |o: &O| -> (c: O)
        ensures
            cloned(*o, c),
        { o.clone() };
    memoized_ref(cache, input, f, copy)
}

/// Details about a cache eviction.
#[derive(Clone, Copy, Debug, PartialEq, Eq)]
pub struct Eviction {
    /// The number of items in the cache before the eviction.
    pub before: usize,
    /// The number of items in the cache after the eviction.
    pub after: usize,
}

impl Eviction {
    /// The number of items that the eviction removed.
    pub fn evicted(&self) -> (r: usize)
        requires
            self.after <= self.before,
        ensures
            r == self.before - self.after,
    {
        self.before - self.after
    }
}

/// Garbage-collect the cache.
///
/// Every entry ages by one sweep; those that have gone more than `MAX_AGE`
/// sweeps without a hit are deleted. Returns the entry counts before and
/// after.
pub fn evict<O, C>(cache: &mut Cache<O, C>) -> (r: Eviction)
    requires
        old(cache).wf(),
    ensures
        final(cache).wf(),
        final(cache)@ == swept(old(cache)@),
        r.before == old(cache)@.len(),
        r.after == final(cache)@.len(),
        r.before - r.after == stale(old(cache)@).len(),
{
    let before = cache.len();
    cache.sweep();
    proof {
        law_eviction_count(old(cache)@);
    }
    Eviction { before, after: cache.len() }
}

} // verus!
