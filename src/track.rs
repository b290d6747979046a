//! Inputs that take part in memoization.

use vstd::prelude::*;

verus! {

/// The digest of a sequence of key words, as computed by fxhash.
pub uninterp spec fn fx_digest(words: Seq<u64>) -> u64;

/// Relies on `fxhash::hash64` on a `[u64]` slice: FxHasher64 starts from a
/// fixed state with no per-process seed, so the digest depends on the words
/// alone.
#[verifier::external_body]
fn hash_words(words: &Vec<u64>) -> (r: u64)
    ensures
        r == fx_digest(words@),
{
    fxhash::hash64(words.as_slice())
}

/// Accumulates the key words of an input before they are digested.
pub struct KeyHasher {
    words: Vec<u64>,
}

impl View for KeyHasher {
    type V = Seq<u64>;

    closed spec fn view(&self) -> Seq<u64> {
        self.words@
    }
}

impl KeyHasher {
    /// A hasher that has been fed nothing.
    pub fn new() -> (r: KeyHasher)
        ensures
            r@ == Seq::<u64>::empty(),
    {
        KeyHasher { words: Vec::new() }
    }

    /// Feed one word of key material.
    pub fn write_u64(&mut self, word: u64)
        ensures
            final(self)@ == old(self)@.push(word),
    {
        self.words.push(word);
    }

    /// The digest of everything fed so far.
    pub fn finish(&self) -> (r: u64)
        ensures
            r == fx_digest(self@),
    {
        hash_words(&self.words)
    }
}

/// Tracks the input dependencies of a memoized function.
///
/// An input is split into a key, whose digest addresses the cache, and the
/// rest, which is checked against the constraint that the memoized function
/// produced together with its output.
pub trait Track {
    /// The type of constraint generated for this input.
    type Constraint;

    /// The key words that this input feeds into a hasher.
    spec fn key_words(&self) -> Seq<u64>;

    /// Whether this input satisfies a stored constraint.
    spec fn accepts(&self, constraint: &Self::Constraint) -> bool;

    /// Feed the key portion of the input into a hasher.
    fn key(&self, hasher: &mut KeyHasher)
        ensures
            final(hasher)@ == old(hasher)@ + self.key_words(),
    ;

    /// Whether this input matches the given constraint.
    fn matches(&self, constraint: &Self::Constraint) -> (r: bool)
        ensures
            r == self.accepts(constraint),
    ;
}

/// The digest under which an input is cached.
pub open spec fn digest_of<I: Track>(input: &I) -> u64 {
    fx_digest(input.key_words())
}

impl<T: Track> Track for &T {
    type Constraint = T::Constraint;

    open spec fn key_words(&self) -> Seq<u64> {
        (**self).key_words()
    }

    open spec fn accepts(&self, constraint: &Self::Constraint) -> bool {
        (**self).accepts(constraint)
    }

    fn key(&self, hasher: &mut KeyHasher) {
        (**self).key(hasher)
    }

    fn matches(&self, constraint: &Self::Constraint) -> (r: bool) {
        (**self).matches(constraint)
    }
}

/// A field that never affects the output: it adds nothing to the key and
/// always matches.
pub struct Ignored<T>(pub T);

impl<T> Track for Ignored<T> {
    type Constraint = ();

    open spec fn key_words(&self) -> Seq<u64> {
        Seq::empty()
    }

    open spec fn accepts(&self, constraint: &()) -> bool {
        true
    }

    fn key(&self, hasher: &mut KeyHasher) {
        assert(old(hasher)@ + Seq::<u64>::empty() =~= old(hasher)@);
    }

    fn matches(&self, constraint: &()) -> (r: bool) {
        true
    }
}

/// A value that is not hashed but recorded in the constraint: a stored
/// output stays valid for any input that carries the recorded value.
#[derive(Clone, Copy, Debug, PartialEq, Eq)]
pub struct Observed(pub u64);

impl Track for Observed {
    type Constraint = u64;

    open spec fn key_words(&self) -> Seq<u64> {
        Seq::empty()
    }

    open spec fn accepts(&self, constraint: &u64) -> bool {
        self.0 == *constraint
    }

    fn key(&self, hasher: &mut KeyHasher) {
        assert(old(hasher)@ + Seq::<u64>::empty() =~= old(hasher)@);
    }

    fn matches(&self, constraint: &u64) -> (r: bool) {
        self.0 == *constraint
    }
}

impl Track for u64 {
    type Constraint = ();

    open spec fn key_words(&self) -> Seq<u64> {
        seq![*self]
    }

    open spec fn accepts(&self, constraint: &()) -> bool {
        true
    }

    fn key(&self, hasher: &mut KeyHasher) {
        hasher.write_u64(*self);
        assert(old(hasher)@.push(*self) =~= old(hasher)@ + seq![*self]);
    }

    fn matches(&self, constraint: &()) -> (r: bool) {
        true
    }
}

impl Track for u32 {
    type Constraint = ();

    open spec fn key_words(&self) -> Seq<u64> {
        seq![*self as u64]
    }

    open spec fn accepts(&self, constraint: &()) -> bool {
        true
    }

    fn key(&self, hasher: &mut KeyHasher) {
        hasher.write_u64(*self as u64);
        assert(old(hasher)@.push(*self as u64) =~= old(hasher)@ + seq![*self as u64]);
    }

    fn matches(&self, constraint: &()) -> (r: bool) {
        true
    }
}

impl Track for usize {
    type Constraint = ();

    open spec fn key_words(&self) -> Seq<u64> {
        seq![*self as u64]
    }

    open spec fn accepts(&self, constraint: &()) -> bool {
        true
    }

    fn key(&self, hasher: &mut KeyHasher) {
        hasher.write_u64(*self as u64);
        assert(old(hasher)@.push(*self as u64) =~= old(hasher)@ + seq![*self as u64]);
    }

    fn matches(&self, constraint: &()) -> (r: bool) {
        true
    }
}

impl Track for i64 {
    type Constraint = ();

    open spec fn key_words(&self) -> Seq<u64> {
        seq![*self as u64]
    }

    open spec fn accepts(&self, constraint: &()) -> bool {
        true
    }

    fn key(&self, hasher: &mut KeyHasher) {
        hasher.write_u64(*self as u64);
        assert(old(hasher)@.push(*self as u64) =~= old(hasher)@ + seq![*self as u64]);
    }

    fn matches(&self, constraint: &()) -> (r: bool) {
        true
    }
}

impl Track for bool {
    type Constraint = ();

    open spec fn key_words(&self) -> Seq<u64> {
        seq![if *self { 1u64 } else { 0u64 }]
    }

    open spec fn accepts(&self, constraint: &()) -> bool {
        true
    }

    fn key(&self, hasher: &mut KeyHasher) {
        let word: u64 = if *self { 1 } else { 0 };
        hasher.write_u64(word);
        assert(old(hasher)@.push(word) =~= old(hasher)@ + self.key_words());
    }

    fn matches(&self, constraint: &()) -> (r: bool) {
        true
    }
}

/// The empty product: a constant key that always matches.
impl Track for () {
    type Constraint = ();

    open spec fn key_words(&self) -> Seq<u64> {
        Seq::empty()
    }

    open spec fn accepts(&self, constraint: &()) -> bool {
        true
    }

    fn key(&self, hasher: &mut KeyHasher) {
        assert(old(hasher)@ + Seq::<u64>::empty() =~= old(hasher)@);
    }

    fn matches(&self, constraint: &()) -> (r: bool) {
        true
    }
}

impl<A: Track> Track for (A,) {
    type Constraint = (A::Constraint,);

    open spec fn key_words(&self) -> Seq<u64> {
        self.0.key_words()
    }

    open spec fn accepts(&self, constraint: &Self::Constraint) -> bool {
        self.0.accepts(&constraint.0)
    }

    fn key(&self, hasher: &mut KeyHasher) {
        self.0.key(hasher);
    }

    fn matches(&self, constraint: &Self::Constraint) -> (r: bool) {
        self.0.matches(&constraint.0)
    }
}

impl<A: Track, B: Track> Track for (A, B) {
    type Constraint = (A::Constraint, B::Constraint);

    open spec fn key_words(&self) -> Seq<u64> {
        self.0.key_words() + self.1.key_words()
    }

    open spec fn accepts(&self, constraint: &Self::Constraint) -> bool {
        self.0.accepts(&constraint.0) && self.1.accepts(&constraint.1)
    }

    fn key(&self, hasher: &mut KeyHasher) {
        self.0.key(hasher);
        self.1.key(hasher);
        assert(old(hasher)@ + self.0.key_words() + self.1.key_words() =~= old(hasher)@
            + self.key_words());
    }

    fn matches(&self, constraint: &Self::Constraint) -> (r: bool) {
        self.0.matches(&constraint.0) && self.1.matches(&constraint.1)
    }
}

impl<A: Track, B: Track, C: Track> Track for (A, B, C) {
    type Constraint = (A::Constraint, B::Constraint, C::Constraint);

    open spec fn key_words(&self) -> Seq<u64> {
        self.0.key_words() + self.1.key_words() + self.2.key_words()
    }

    open spec fn accepts(&self, constraint: &Self::Constraint) -> bool {
        self.0.accepts(&constraint.0) && self.1.accepts(&constraint.1) && self.2.accepts(
            &constraint.2,
        )
    }

    fn key(&self, hasher: &mut KeyHasher) {
        self.0.key(hasher);
        self.1.key(hasher);
        self.2.key(hasher);
        assert(old(hasher)@ + self.0.key_words() + self.1.key_words() + self.2.key_words()
            =~= old(hasher)@ + self.key_words());
    }

    fn matches(&self, constraint: &Self::Constraint) -> (r: bool) {
        self.0.matches(&constraint.0) && self.1.matches(&constraint.1) && self.2.matches(
            &constraint.2,
        )
    }
}

impl<A: Track, B: Track, C: Track, D: Track> Track for (A, B, C, D) {
    type Constraint = (A::Constraint, B::Constraint, C::Constraint, D::Constraint);

    open spec fn key_words(&self) -> Seq<u64> {
        self.0.key_words() + self.1.key_words() + self.2.key_words() + self.3.key_words()
    }

    open spec fn accepts(&self, constraint: &Self::Constraint) -> bool {
        self.0.accepts(&constraint.0) && self.1.accepts(&constraint.1) && self.2.accepts(
            &constraint.2,
        ) && self.3.accepts(&constraint.3)
    }

    fn key(&self, hasher: &mut KeyHasher) {
        self.0.key(hasher);
        self.1.key(hasher);
        self.2.key(hasher);
        self.3.key(hasher);
        assert(old(hasher)@ + self.0.key_words() + self.1.key_words() + self.2.key_words()
            + self.3.key_words() =~= old(hasher)@ + self.key_words());
    }

    fn matches(&self, constraint: &Self::Constraint) -> (r: bool) {
        self.0.matches(&constraint.0) && self.1.matches(&constraint.1) && self.2.matches(
            &constraint.2,
        ) && self.3.matches(&constraint.3)
    }
}

} // verus!
