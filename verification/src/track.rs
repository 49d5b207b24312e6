//! Keeping a recorded track in step with the wall clock.

use vstd::prelude::*;

verus! {

/// `s` cut, or filled up with `silence`, to `expected` samples.
pub open spec fn fitted<T>(s: Seq<T>, expected: nat, silence: T) -> Seq<T> {
    if expected <= s.len() {
        s.take(expected as int)
    } else {
        s + Seq::new((expected - s.len()) as nat, |i: int| silence)
    }
}

/// Truncates the track, or pads it with silence, to the sample count that the
/// wall clock expects.
pub fn fit_to_length<T: Copy>(samples: &mut Vec<T>, expected: usize, silence: T)
    ensures
        final(samples)@ == fitted(old(samples)@, expected as nat, silence),
{
    let ghost before = samples@;
    if expected <= samples.len() {
        samples.truncate(expected);
        return ;
    }
    while samples.len() < expected
        invariant
            before.len() <= samples@.len() <= expected,
            samples@ == fitted(before, samples@.len(), silence),
        decreases expected - samples@.len(),
    {
        let ghost n = samples@.len();
        samples.push(silence);
        assert(samples@ == fitted(before, n + 1, silence));
    }
}

/// Whether a track of `len` samples is more than 5 % off the `expected` count.
pub open spec fn drifted(len: int, expected: int) -> bool {
    let off = if len < expected {
        expected - len
    } else {
        len - expected
    };
    20 * off > if expected < 1 {
        1
    } else {
        expected
    }
}

/// Fits a track that has drifted more than 5 % off the wall clock, and says
/// whether it had.
pub fn normalise_track<T: Copy>(samples: &mut Vec<T>, expected: usize, silence: T) -> (r: bool)
    ensures
        r == drifted(old(samples)@.len() as int, expected as int),
        final(samples)@ == if r {
            fitted(old(samples)@, expected as nat, silence)
        } else {
            old(samples)@
        },
{
    let len: usize = samples.len();
    let off: usize = if len < expected {
        expected - len
    } else {
        len - expected
    };
    let base: usize = if expected < 1 {
        1
    } else {
        expected
    };
    let far = 20 * (off as u128) > base as u128;
    if far {
        fit_to_length(samples, expected, silence);
    }
    far
}

/// Adds the samples of a stream that was stopped to those salvaged before, and
/// fits the whole to the wall clock, so that a gap becomes silence.
pub fn salvage<T: Copy>(prefix: &mut Vec<T>, mut partial: Vec<T>, expected: usize, silence: T)
    ensures
        final(prefix)@ == fitted(old(prefix)@ + partial@, expected as nat, silence),
{
    prefix.append(&mut partial);
    fit_to_length(prefix, expected, silence);
}

/// A track that was fitted has exactly the expected length, keeps every sample
/// that it had before that point, and is silent behind them.
pub proof fn law_fitting_aligns<T>(s: Seq<T>, expected: nat, silence: T)
    ensures
        fitted(s, expected, silence).len() == expected,
        forall|i: int|
            0 <= i < expected ==> #[trigger] fitted(s, expected, silence)[i] == if i < s.len() {
                s[i]
            } else {
                silence
            },
        !drifted(expected as int, expected as int),
        fitted(fitted(s, expected, silence), expected, silence) == fitted(s, expected, silence),
{
}

/// A track has drifted where it is off by more than a twentieth of what the clock
/// expects, in either direction; one that is off by less is left alone.
pub proof fn law_drift_is_a_twentieth(len: int, expected: int)
    requires
        len >= 0,
        expected >= 0,
    ensures
        expected > 0 ==> (drifted(len, expected) <==> 20 * len > 21 * expected || 20 * len < 19
            * expected),
        expected == 0 ==> (drifted(len, expected) <==> len > 0),
{
}

/// Wherever the track goes, it ends up within a twentieth of the clock: fitted where it
/// drifted, and as it was where it did not.
pub proof fn law_tracks_keep_time<T>(s: Seq<T>, expected: nat, silence: T)
    ensures
        ({
            let r = if drifted(s.len() as int, expected as int) {
                fitted(s, expected, silence)
            } else {
                s
            };
            &&& expected > 0 ==> 19 * expected <= 20 * r.len() <= 21 * expected
            &&& forall|i: int| 0 <= i < r.len() && i < s.len() ==> #[trigger] r[i] == s[i]
            &&& forall|i: int| s.len() <= i < r.len() ==> #[trigger] r[i] == silence
        }),
{
}

} // verus!
