//! Properties of memoized calls and eviction sweeps.

use vstd::prelude::*;
use crate::cache::{
    Entry,
    MAX_AGE,
    holds,
    slot,
    stored,
    swept,
    stale,
    well_formed,
    kept_entry,
    lemma_slot,
    lemma_swept,
};
use crate::memo::{hits, hit_output, after_hit, outcome};
use crate::track::{Track, digest_of, fx_digest};

verus! {

/// The entries after `n` sweeps.
pub open spec fn swept_times<O, C>(s: Seq<Entry<O, C>>, n: nat) -> Seq<Entry<O, C>>
    decreases n,
{
    if n == 0 {
        s
    } else {
        swept(swept_times(s, (n - 1) as nat))
    }
}

/// An entry `n` sweeps younger than the threshold is still there after `n`
/// sweeps, `n` sweeps older and otherwise unchanged.
proof fn lemma_sweeps_keep<O, C>(s: Seq<Entry<O, C>>, k: int, n: nat)
    requires
        well_formed(s),
        0 <= k < s.len(),
        s[k].age + n <= MAX_AGE,
    ensures
        well_formed(swept_times(s, n)),
        holds(swept_times(s, n), s[k].digest),
        ({
            let t = swept_times(s, n);
            let e = t[slot(t, s[k].digest)];
            &&& e.digest == s[k].digest
            &&& e.output == s[k].output
            &&& e.constraint == s[k].constraint
            &&& e.age == s[k].age + n
        }),
    decreases n,
{
    if n == 0 {
        lemma_slot(s, k);
    } else {
        let m = (n - 1) as nat;
        lemma_sweeps_keep(s, k, m);
        let t = swept_times(s, m);
        let j = slot(t, s[k].digest);
        lemma_swept(t);
        assert(t[j].digest == s[k].digest);
        assert(kept_entry(t, j));
    }
}

/// After a call, the entry answering for the input: its position, and the
/// input's digest, output and constraint there.
proof fn lemma_after_call<I: Track, O, F: Fn(I) -> (O, I::Constraint)>(
    s: Seq<Entry<O, I::Constraint>>,
    input: I,
    f: F,
    s2: Seq<Entry<O, I::Constraint>>,
    v: O,
) -> (k: int)
    requires
        well_formed(s),
        outcome(s, input, f, s2, v),
        forall|out: (O, I::Constraint)| #[trigger] f.ensures((input,), out) ==> input.accepts(&out.1),
    ensures
        well_formed(s2),
        0 <= k < s2.len(),
        s2[k].digest == digest_of(&input),
        s2[k].output == v,
        s2[k].age == 0,
        input.accepts(&s2[k].constraint),
{
    let d = digest_of(&input);
    if hits(s, &input) {
        let k = slot(s, d);
        assert(s[k].digest == d);
        assert(well_formed(s2));
        k
    } else {
        let out = choose|out: (O, I::Constraint)|
            #[trigger] f.ensures((input,), out) && s2 == stored(s, d, out.0, out.1) && v == out.0;
        if holds(s, d) {
            let k = slot(s, d);
            assert(s[k].digest == d);
            assert(well_formed(s2));
            k
        } else {
            let k = s.len() as int;
            assert forall|i: int| 0 <= i < s.len() implies #[trigger] s[i].digest != d by {
                if s[i].digest == d {
                    assert(holds(s, d));
                }
            }
            assert(well_formed(s2));
            k
        }
    }
}

/// A call hits again after it: when `f`'s constraint accepts the input it
/// was computed for, a second call with that input, after at most `MAX_AGE`
/// sweeps, is answered from the cache with the output of the first call and
/// without calling `f`.
pub proof fn law_repeat_call_hits<I: Track, O, F: Fn(I) -> (O, I::Constraint)>(
    s: Seq<Entry<O, I::Constraint>>,
    input: I,
    f: F,
    s2: Seq<Entry<O, I::Constraint>>,
    v: O,
    n: nat,
)
    requires
        well_formed(s),
        outcome(s, input, f, s2, v),
        forall|out: (O, I::Constraint)| #[trigger] f.ensures((input,), out) ==> input.accepts(&out.1),
        n <= MAX_AGE,
    ensures
        hits(swept_times(s2, n), &input),
        hit_output(swept_times(s2, n), &input) == v,
        forall|s3: Seq<Entry<O, I::Constraint>>, w: O|
            #[trigger] outcome(swept_times(s2, n), input, f, s3, w) ==> w == v,
{
    let k = lemma_after_call(s, input, f, s2, v);
    lemma_sweeps_keep(s2, k, n);
}

/// An entry that no call hits survives `MAX_AGE` sweeps and is gone after
/// one more.
pub proof fn law_unused_entry_lifetime<O, C>(s: Seq<Entry<O, C>>, k: int)
    requires
        well_formed(s),
        0 <= k < s.len(),
        s[k].age == 0,
    ensures
        holds(swept_times(s, MAX_AGE as nat), s[k].digest),
        !holds(swept_times(s, (MAX_AGE + 1) as nat), s[k].digest),
{
    let d = s[k].digest;
    lemma_sweeps_keep(s, k, MAX_AGE as nat);
    let t = swept_times(s, MAX_AGE as nat);
    let i = slot(t, d);
    lemma_swept(t);
    assert(swept_times(s, (MAX_AGE + 1) as nat) == swept(t));
    if holds(swept(t), d) {
        let j = slot(swept(t), d);
        let b = choose|b: int| 0 <= b < t.len() && swept(t)[j] == t[b].aged();
        assert(t[b].digest == d);
        lemma_slot(t, b);
        assert(swept(t)[j].age <= MAX_AGE);
    }
}

/// An entry hit between every two sweeps is never evicted: after a hit and a
/// sweep the input still hits, with the same output.
pub proof fn law_hit_entry_survives<I: Track, O>(s: Seq<Entry<O, I::Constraint>>, input: I)
    requires
        well_formed(s),
        hits(s, &input),
    ensures
        well_formed(swept(after_hit(s, &input))),
        hits(swept(after_hit(s, &input)), &input),
        hit_output(swept(after_hit(s, &input)), &input) == hit_output(s, &input),
{
    let d = digest_of(&input);
    let k = slot(s, d);
    let s2 = after_hit(s, &input);
    assert(s[k].digest == d);
    assert(well_formed(s2));
    lemma_sweeps_keep(s2, k, 1);
    lemma_slot(s2, k);
    assert(swept_times(s2, 1) == swept(swept_times(s2, 0)));
}

/// A sweep removes exactly the entries that had already reached the
/// threshold.
pub proof fn law_eviction_count<O, C>(s: Seq<Entry<O, C>>)
    requires
        well_formed(s),
    ensures
        s.len() - swept(s).len() == stale(s).len(),
{
    lemma_swept(s);
}

/// The copying and the by-reference entry points agree: both end in an
/// outcome of the call, and for a pure `f` any two outcomes of one call
/// leave the same entries and hand back the same output.
pub proof fn law_outcome_unique<I: Track, O, F: Fn(I) -> (O, I::Constraint)>(
    s: Seq<Entry<O, I::Constraint>>,
    input: I,
    f: F,
    s1: Seq<Entry<O, I::Constraint>>,
    v1: O,
    s2: Seq<Entry<O, I::Constraint>>,
    v2: O,
)
    requires
        outcome(s, input, f, s1, v1),
        outcome(s, input, f, s2, v2),
        forall|a: (O, I::Constraint), b: (O, I::Constraint)|
            #[trigger] f.ensures((input,), a) && #[trigger] f.ensures((input,), b) ==> a == b,
    ensures
        s1 == s2,
        v1 == v2,
{
    if !hits(s, &input) {
        let d = digest_of(&input);
        let a = choose|a: (O, I::Constraint)|
            #[trigger] f.ensures((input,), a) && s1 == stored(s, d, a.0, a.1) && v1 == a.0;
        let b = choose|b: (O, I::Constraint)|
            #[trigger] f.ensures((input,), b) && s2 == stored(s, d, b.0, b.1) && v2 == b.0;
        assert(a == b);
    }
}

/// A pair is keyed by its fields' keys in order, and hits exactly when an
/// entry is stored under its digest and both fields accept their part of
/// the stored constraint.
pub proof fn law_pair_hits<A: Track, B: Track, O>(
    s: Seq<Entry<O, (A::Constraint, B::Constraint)>>,
    a: A,
    b: B,
)
    ensures
        digest_of(&(a, b)) == fx_digest(a.key_words() + b.key_words()),
        hits(s, &(a, b)) == (holds(s, digest_of(&(a, b))) && a.accepts(
            &s[slot(s, digest_of(&(a, b)))].constraint.0,
        ) && b.accepts(&s[slot(s, digest_of(&(a, b)))].constraint.1)),
{
}

} // verus!
