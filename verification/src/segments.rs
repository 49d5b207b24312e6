//! Speech segmentation of a recorded track, frame by frame.
//!
//! A track is 16 kHz mono audio, cut into frames of 30 ms. Frames louder than
//! the track's own noise floor are active; active frames close together make
//! one utterance, and each utterance is transcribed in pieces of at most 30 s.

use vstd::prelude::*;

verus! {

/// Samples per second on every track.
pub const SAMPLE_RATE: usize = 16_000;

/// Samples in one frame: 30 ms.
pub const FRAME: usize = 480;

/// This many silent frames in a row, about 1 s, end an utterance.
pub const MERGE_GAP_FRAMES: usize = 33;

/// Frames of context kept on either side of an utterance, about 300 ms.
pub const PAD_FRAMES: usize = 10;

/// Utterances with fewer frames, under about 400 ms, are dropped.
pub const MIN_REGION_FRAMES: usize = 13;

/// The longest piece that is transcribed at once: 30 s.
pub const MAX_REGION_SAMPLES: usize = 480_000;

/// How many frames cover `samples` samples; the last may be short.
pub open spec fn frame_count(samples: nat) -> nat {
    (samples + FRAME as nat - 1) as nat / FRAME as nat
}

/// The utterances among the frames, as half-open frame ranges: an active frame
/// extends the last utterance when fewer than `MERGE_GAP_FRAMES` silent frames
/// lie between, and otherwise begins a new one.
pub open spec fn utterances(active: Seq<bool>) -> Seq<(int, int)>
    decreases active.len(),
{
    if active.len() == 0 {
        Seq::empty()
    } else {
        let earlier = utterances(active.drop_last());
        let i = active.len() - 1;
        if !active.last() {
            earlier
        } else if earlier.len() > 0 && i - earlier.last().1 < MERGE_GAP_FRAMES {
            earlier.drop_last().push((earlier.last().0, i + 1))
        } else {
            earlier.push((i, i + 1))
        }
    }
}

/// The sample range of the frames `u`, padded on both sides and cut to the track.
pub open spec fn padded(u: (int, int), samples: int) -> (int, int) {
    let from = if u.0 >= PAD_FRAMES {
        (u.0 - PAD_FRAMES) * FRAME
    } else {
        0
    };
    let to = (u.1 + PAD_FRAMES) * FRAME;
    (from, if to < samples {
        to
    } else {
        samples
    })
}

/// `from..to` cut into pieces of `MAX_REGION_SAMPLES`, the last one shorter.
pub open spec fn pieces(from: int, to: int) -> Seq<(int, int)>
    decreases to - from,
{
    if from >= to {
        Seq::empty()
    } else if to - from <= MAX_REGION_SAMPLES {
        seq![(from, to)]
    } else {
        seq![(from, from + MAX_REGION_SAMPLES)] + pieces(from + MAX_REGION_SAMPLES, to)
    }
}

/// The pieces that utterance `u` is transcribed in: none if it is too short.
pub open spec fn pieces_of(u: (int, int), samples: int) -> Seq<(int, int)> {
    if u.1 - u.0 < MIN_REGION_FRAMES {
        Seq::empty()
    } else {
        pieces(padded(u, samples).0, padded(u, samples).1)
    }
}

/// The pieces of all the utterances, in order.
pub open spec fn all_pieces(us: Seq<(int, int)>, samples: int) -> Seq<(int, int)>
    decreases us.len(),
{
    if us.len() == 0 {
        Seq::empty()
    } else {
        all_pieces(us.drop_last(), samples) + pieces_of(us.last(), samples)
    }
}

/// The sample ranges to transcribe on a track of `samples` samples whose frames
/// are `active`: none on a track shorter than one frame.
pub open spec fn segments_spec(active: Seq<bool>, samples: int) -> Seq<(int, int)> {
    if samples < FRAME {
        Seq::empty()
    } else {
        all_pieces(utterances(active), samples)
    }
}

/// A list of ranges over mathematical integers.
pub open spec fn ranges(v: Seq<(usize, usize)>) -> Seq<(int, int)> {
    v.map_values(|r: (usize, usize)| (r.0 as int, r.1 as int))
}

fn find_utterances(active: &[bool]) -> (r: Vec<(usize, usize)>)
    requires
        active@.len() < usize::MAX,
    ensures
        ranges(r@) == utterances(active@),
{
    let mut regions: Vec<(usize, usize)> = Vec::new();
    let mut current: Option<(usize, usize)> = None;
    let mut silence_run: usize = 0;
    let mut i: usize = 0;
    assert(ranges(regions@) == utterances(active@.take(0)));
    while i < active.len()
        invariant
            i <= active@.len() < usize::MAX,
            silence_run < MERGE_GAP_FRAMES,
            match current {
                Some(c) => {
                    &&& utterances(active@.take(i as int)) == ranges(regions@).push(
                        (c.0 as int, c.1 as int),
                    )
                    &&& c.1 + silence_run == i
                },
                None => {
                    &&& utterances(active@.take(i as int)) == ranges(regions@)
                    &&& regions@.len() > 0 ==> i - regions@.last().1 >= MERGE_GAP_FRAMES
                    &&& silence_run == 0
                },
            },
        decreases active@.len() - i,
    {
        let ghost done = active@.take(i as int);
        let ghost next = active@.take(i + 1);
        assert(next.drop_last() == done);
        assert(next.last() == active@[i as int]);
        if active[i] {
            silence_run = 0;
            current = match current {
                None => Some((i, i + 1)),
                Some((s, e)) => {
                    assert(ranges(regions@).push((s as int, e as int)).drop_last() == ranges(
                        regions@,
                    ));
                    Some((s, i + 1))
                },
            };
        } else if let Some((s, e)) = current {
            silence_run += 1;
            if silence_run >= MERGE_GAP_FRAMES {
                let ghost before = ranges(regions@);
                regions.push((s, e));
                assert(ranges(regions@) == before.push((s as int, e as int)));
                current = None;
                silence_run = 0;
            }
        }
        i += 1;
    }
    assert(active@.take(i as int) == active@);
    if let Some((s, e)) = current {
        let ghost before = ranges(regions@);
        regions.push((s, e));
        assert(ranges(regions@) == before.push((s as int, e as int)));
    }
    regions
}

/// The sample ranges of speech on a track of `samples` samples, given which of
/// its frames are active: padded, without blips, in pieces of at most 30 s.
pub fn segment_active_regions(active: &[bool], samples: usize) -> (r: Vec<(usize, usize)>)
    requires
        active@.len() == frame_count(samples as nat),
        samples + MAX_REGION_SAMPLES <= usize::MAX,
    ensures
        ranges(r@) == segments_spec(active@, samples as int),
{
    let mut out: Vec<(usize, usize)> = Vec::new();
    if samples < FRAME {
        assert(ranges(out@) == Seq::<(int, int)>::empty());
        return out;
    }
    let regions = find_utterances(active);
    proof {
        law_utterances_spaced(active@);
    }
    let ghost us = utterances(active@);
    let mut i: usize = 0;
    assert(ranges(out@) == all_pieces(us.take(0), samples as int));
    while i < regions.len()
        invariant
            i <= regions@.len(),
            ranges(regions@) == us,
            us == utterances(active@),
            active@.len() == frame_count(samples as nat),
            samples + MAX_REGION_SAMPLES <= usize::MAX,
            well_spaced(us, active@.len() as int),
            ranges(out@) == all_pieces(us.take(i as int), samples as int),
        decreases regions@.len() - i,
    {
        let (s, e) = regions[i];
        let ghost u = us[i as int];
        assert(u == (s as int, e as int));
        assert(us.take(i + 1).drop_last() == us.take(i as int));
        let ghost before = ranges(out@);
        if e - s >= MIN_REGION_FRAMES {
            let start: usize = s.saturating_sub(PAD_FRAMES) * FRAME;
            let wanted: usize = (e + PAD_FRAMES) * FRAME;
            let end: usize = if wanted < samples {
                wanted
            } else {
                samples
            };
            assert(padded(u, samples as int) == (start as int, end as int));
            let mut chunk_start: usize = start;
            assert(before + pieces(chunk_start as int, end as int) == before + pieces_of(
                u,
                samples as int,
            ));
            while chunk_start < end
                invariant
                    end <= samples,
                    samples + MAX_REGION_SAMPLES <= usize::MAX,
                    ranges(out@) + pieces(chunk_start as int, end as int) == before + pieces_of(
                        u,
                        samples as int,
                    ),
                decreases end - chunk_start,
            {
                let chunk_end: usize = if end - chunk_start <= MAX_REGION_SAMPLES {
                    end
                } else {
                    chunk_start + MAX_REGION_SAMPLES
                };
                let ghost sofar = ranges(out@);
                let ghost piece = (chunk_start as int, chunk_end as int);
                out.push((chunk_start, chunk_end));
                assert(ranges(out@) == sofar.push(piece));
                assert(sofar + (seq![piece] + pieces(chunk_end as int, end as int)) == sofar.push(
                    piece,
                ) + pieces(chunk_end as int, end as int));
                assert(sofar + seq![piece] == sofar.push(piece) + pieces(
                    chunk_end as int,
                    chunk_end as int,
                ));
                chunk_start = chunk_end;
            }
            assert(pieces(chunk_start as int, end as int) == Seq::<(int, int)>::empty());
            assert(ranges(out@) == before + pieces_of(u, samples as int));
        } else {
            assert(before + pieces_of(u, samples as int) == before);
        }
        i += 1;
    }
    assert(us.take(i as int) == us);
    out
}

/// Whether the ranges lie among the first `frames` frames, each nonempty and at
/// least `MERGE_GAP_FRAMES` behind the one before it.
pub open spec fn well_spaced(us: Seq<(int, int)>, frames: int) -> bool {
    &&& forall|k: int| 0 <= k < us.len() ==> 0 <= (#[trigger] us[k]).0 < us[k].1 <= frames
    &&& forall|k: int, l: int|
        0 <= k < l < us.len() ==> (#[trigger] us[k]).1 + MERGE_GAP_FRAMES <= (
        #[trigger] us[l]).0
}

/// Utterances are nonempty and lie at least `MERGE_GAP_FRAMES` apart.
pub proof fn law_utterances_spaced(active: Seq<bool>)
    ensures
        well_spaced(utterances(active), active.len() as int),
    decreases active.len(),
{
    if active.len() > 0 {
        let earlier = utterances(active.drop_last());
        let us = utterances(active);
        law_utterances_spaced(active.drop_last());
        if active.last() {
            assert forall|k: int, l: int| 0 <= k < l < us.len() implies (#[trigger] us[k]).1
                + MERGE_GAP_FRAMES <= (#[trigger] us[l]).0 by {
                assert(us[k] == earlier[k]);
                if l < earlier.len() {
                    assert(us[l].0 == earlier[l].0);
                } else if k < earlier.len() - 1 {
                    assert(earlier[k].1 + MERGE_GAP_FRAMES <= earlier.last().0);
                }
            }
        }
    }
}

/// An utterance begins and ends with an active frame, and holds no run of
/// `MERGE_GAP_FRAMES` silent frames.
pub proof fn law_utterances_hold_together(active: Seq<bool>, k: int)
    requires
        0 <= k < utterances(active).len(),
    ensures
        active[utterances(active)[k].0],
        active[utterances(active)[k].1 - 1],
        forall|a: int|
            utterances(active)[k].0 <= a && a + MERGE_GAP_FRAMES <= utterances(active)[k].1
                ==> #[trigger] has_active(active, a),
    decreases active.len(),
{
    let earlier = utterances(active.drop_last());
    let u = utterances(active)[k];
    let i = active.len() - 1;
    law_utterances_spaced(active);
    law_utterances_spaced(active.drop_last());
    if k < earlier.len() {
        law_utterances_hold_together(active.drop_last(), k);
        let old_u = earlier[k];
        assert(u.0 == old_u.0);
        assert forall|a: int| u.0 <= a && a + MERGE_GAP_FRAMES <= u.1 implies #[trigger] has_active(
            active,
            a,
        ) by {
            if a + MERGE_GAP_FRAMES <= old_u.1 {
                assert(has_active(active.drop_last(), a));
                let f = choose|f: int|
                    a <= f < a + MERGE_GAP_FRAMES && #[trigger] active.drop_last()[f];
                assert(active[f]);
            } else if a + MERGE_GAP_FRAMES == i + 1 {
                assert(active[i]);
            } else {
                assert(active.drop_last()[old_u.1 - 1]);
                assert(active[old_u.1 - 1]);
            }
        }
    }
}

/// Whether one of the `MERGE_GAP_FRAMES` frames from `a` on is active.
pub open spec fn has_active(active: Seq<bool>, a: int) -> bool {
    exists|f: int| a <= f < a + MERGE_GAP_FRAMES && #[trigger] active[f]
}

/// Every active frame lies in an utterance.
pub proof fn law_active_frames_are_in_utterances(active: Seq<bool>, f: int) -> (k: int)
    requires
        0 <= f < active.len(),
        active[f],
    ensures
        0 <= k < utterances(active).len(),
        utterances(active)[k].0 <= f < utterances(active)[k].1,
    decreases active.len(),
{
    let earlier = utterances(active.drop_last());
    law_utterances_spaced(active.drop_last());
    if f < active.len() - 1 {
        let k = law_active_frames_are_in_utterances(active.drop_last(), f);
        assert(utterances(active)[k].0 == earlier[k].0);
        assert(utterances(active)[k].1 >= earlier[k].1);
        k
    } else {
        utterances(active).len() - 1
    }
}

/// Whether the ranges lie in `from..to`, nonempty, of at most 30 s, and each
/// behind the one before it.
pub open spec fn pieces_between(ps: Seq<(int, int)>, from: int, to: int) -> bool {
    &&& forall|k: int|
        0 <= k < ps.len() ==> from <= (#[trigger] ps[k]).0 < ps[k].1 <= to && ps[k].1 - ps[k].0
            <= MAX_REGION_SAMPLES
    &&& forall|k: int, l: int|
        0 <= k < l < ps.len() ==> (#[trigger] ps[k]).1 <= (#[trigger] ps[l]).0
}

proof fn lemma_pieces(from: int, to: int)
    ensures
        pieces_between(pieces(from, to), from, to),
    decreases to - from,
{
    if to - from > MAX_REGION_SAMPLES {
        let next = from + MAX_REGION_SAMPLES;
        lemma_pieces(next, to);
        let ps = pieces(from, to);
        let rest = pieces(next, to);
        assert forall|k: int| 0 <= k < ps.len() implies from <= (#[trigger] ps[k]).0 < ps[k].1 <= to
            && ps[k].1 - ps[k].0 <= MAX_REGION_SAMPLES by {
            if k > 0 {
                assert(ps[k] == rest[k - 1]);
            }
        }
        assert forall|k: int, l: int| 0 <= k < l < ps.len() implies (#[trigger] ps[k]).1 <= (
        #[trigger] ps[l]).0 by {
            assert(ps[l] == rest[l - 1]);
            if k > 0 {
                assert(ps[k] == rest[k - 1]);
            }
        }
    }
}

proof fn lemma_pieces_cover(from: int, to: int, p: int) -> (k: int)
    requires
        from <= p < to,
    ensures
        0 <= k < pieces(from, to).len(),
        pieces(from, to)[k].0 <= p < pieces(from, to)[k].1,
    decreases to - from,
{
    if to - from <= MAX_REGION_SAMPLES || p < from + MAX_REGION_SAMPLES {
        0
    } else {
        let k = lemma_pieces_cover(from + MAX_REGION_SAMPLES, to, p);
        assert(pieces(from, to)[k + 1] == pieces(from + MAX_REGION_SAMPLES, to)[k]);
        k + 1
    }
}

proof fn lemma_all_pieces(us: Seq<(int, int)>, frames: int, samples: int)
    requires
        well_spaced(us, frames),
        samples >= 0,
    ensures
        pieces_between(
            all_pieces(us, samples),
            0,
            if us.len() > 0 {
                padded(us.last(), samples).1
            } else {
                0
            },
        ),
    decreases us.len(),
{
    if us.len() > 0 {
        let head = us.drop_last();
        let u = us.last();
        assert(well_spaced(head, frames)) by {
            assert forall|k: int| 0 <= k < head.len() implies 0 <= (#[trigger] head[k]).0
                < head[k].1 <= frames by {
                assert(head[k] == us[k]);
            }
            assert forall|k: int, l: int| 0 <= k < l < head.len() implies (#[trigger] head[k]).1
                + MERGE_GAP_FRAMES <= (#[trigger] head[l]).0 by {
                assert(head[k] == us[k] && head[l] == us[l]);
            }
        }
        lemma_all_pieces(head, frames, samples);
        assert(0 <= us[us.len() - 1].0 < us[us.len() - 1].1);
        lemma_pieces(padded(u, samples).0, padded(u, samples).1);
        if head.len() > 0 {
            assert(us[head.len() - 1].1 + MERGE_GAP_FRAMES <= us[us.len() - 1].0);
            assert(padded(head.last(), samples).1 <= padded(u, samples).0
                || padded(head.last(), samples).1 == samples);
        }
        let ps = all_pieces(head, samples);
        let qs = pieces_of(u, samples);
        let all = all_pieces(us, samples);
        assert forall|k: int, l: int| 0 <= k < l < all.len() implies (#[trigger] all[k]).1 <= (
        #[trigger] all[l]).0 by {
            if l < ps.len() {
                assert(all[k] == ps[k] && all[l] == ps[l]);
            } else if k >= ps.len() {
                assert(all[k] == qs[k - ps.len()] && all[l] == qs[l - ps.len()]);
            } else {
                assert(all[k] == ps[k] && all[l] == qs[l - ps.len()]);
            }
        }
        assert forall|k: int| 0 <= k < all.len() implies 0 <= (#[trigger] all[k]).0 < all[k].1
            <= padded(u, samples).1 && all[k].1 - all[k].0 <= MAX_REGION_SAMPLES by {
            if k < ps.len() {
                assert(all[k] == ps[k]);
            } else {
                assert(all[k] == qs[k - ps.len()]);
            }
        }
    }
}

/// The segments lie on the track, in order and apart from each other; none is
/// empty and none longer than 30 s.
pub proof fn law_segments_in_order(active: Seq<bool>, samples: int)
    requires
        samples >= 0,
    ensures
        pieces_between(segments_spec(active, samples), 0, samples),
{
    if samples >= FRAME {
        law_utterances_spaced(active);
        lemma_all_pieces(utterances(active), active.len() as int, samples);
    }
}

proof fn lemma_all_pieces_hold(us: Seq<(int, int)>, samples: int, k: int, j: int) -> (n: int)
    requires
        0 <= k < us.len(),
        0 <= j < pieces_of(us[k], samples).len(),
    ensures
        0 <= n < all_pieces(us, samples).len(),
        all_pieces(us, samples)[n] == pieces_of(us[k], samples)[j],
    decreases us.len(),
{
    let before = all_pieces(us.drop_last(), samples);
    if k == us.len() - 1 {
        before.len() + j
    } else {
        let n = lemma_all_pieces_hold(us.drop_last(), samples, k, j);
        assert(all_pieces(us, samples)[n] == before[n]);
        n
    }
}

/// No speech is lost: each sample of an utterance that is long enough lies in a
/// segment.
pub proof fn law_segments_cover_speech(active: Seq<bool>, samples: int, k: int, p: int) -> (n: int)
    requires
        samples >= FRAME,
        0 <= k < utterances(active).len(),
        utterances(active)[k].1 - utterances(active)[k].0 >= MIN_REGION_FRAMES,
        utterances(active)[k].0 * FRAME <= p < utterances(active)[k].1 * FRAME,
        p < samples,
    ensures
        0 <= n < segments_spec(active, samples).len(),
        segments_spec(active, samples)[n].0 <= p < segments_spec(active, samples)[n].1,
{
    law_utterances_spaced(active);
    let u = utterances(active)[k];
    let j = lemma_pieces_cover(padded(u, samples).0, padded(u, samples).1, p);
    lemma_all_pieces_hold(utterances(active), samples, k, j)
}

/// How many of the levels are below `v`.
pub open spec fn count_below(levels: Seq<u32>, v: int) -> nat
    decreases levels.len(),
{
    if levels.len() == 0 {
        0
    } else {
        count_below(levels.drop_last(), v) + if levels.last() < v {
            1nat
        } else {
            0nat
        }
    }
}

/// Whether `v` stands at position `rank` once the levels are sorted.
pub open spec fn stands_at(levels: Seq<u32>, v: int, rank: int) -> bool {
    count_below(levels, v) <= rank < count_below(levels, v + 1)
}

proof fn lemma_count_below_limits(levels: Seq<u32>)
    ensures
        count_below(levels, 0) == 0,
        count_below(levels, u32::MAX + 1) == levels.len(),
    decreases levels.len(),
{
    if levels.len() > 0 {
        lemma_count_below_limits(levels.drop_last());
    }
}

proof fn lemma_count_below_monotone(levels: Seq<u32>, v: int, w: int)
    requires
        v <= w,
    ensures
        count_below(levels, v) <= count_below(levels, w),
    decreases levels.len(),
{
    if levels.len() > 0 {
        lemma_count_below_monotone(levels.drop_last(), v, w);
    }
}

/// Only one level stands at a given position.
pub proof fn law_position_is_unique(levels: Seq<u32>, v: int, w: int, rank: int)
    requires
        stands_at(levels, v, rank),
        stands_at(levels, w, rank),
    ensures
        v == w,
{
    if v < w {
        lemma_count_below_monotone(levels, v + 1, w);
    } else if w < v {
        lemma_count_below_monotone(levels, w + 1, v);
    }
}

fn count_at_most(levels: &[u32], v: u32) -> (n: usize)
    ensures
        n == count_below(levels@, v + 1),
{
    let mut n: usize = 0;
    let mut i: usize = 0;
    while i < levels.len()
        invariant
            i <= levels@.len(),
            n <= i,
            n == count_below(levels@.take(i as int), v + 1),
        decreases levels@.len() - i,
    {
        assert(levels@.take(i + 1).drop_last() == levels@.take(i as int));
        if levels[i] <= v {
            n += 1;
        }
        i += 1;
    }
    assert(levels@.take(i as int) == levels@);
    n
}

/// The noise floor of a track: the level a fifth of the way up its sorted frame
/// levels. A level is any number that grows with the loudness of its frame.
pub fn noise_floor(levels: &[u32]) -> (v: u32)
    requires
        levels@.len() > 0,
    ensures
        stands_at(levels@, v as int, levels@.len() as int / 5),
        forall|sorted: Seq<u32>|
            #![trigger sorted.to_multiset()]
            sorted.to_multiset() == levels@.to_multiset() && (forall|i: int, j: int|
                0 <= i < j < sorted.len() ==> sorted[i] <= sorted[j]) ==> v == sorted[levels@.len()
                as int / 5],
{
    let rank: usize = levels.len() / 5;
    let mut low: u32 = 0;
    let mut high: u32 = u32::MAX;
    proof {
        lemma_count_below_limits(levels@);
    }
    while low < high
        invariant
            low <= high,
            count_below(levels@, low as int) <= rank < count_below(levels@, high + 1),
        decreases high - low,
    {
        let mid: u32 = low + (high - low) / 2;
        if count_at_most(levels, mid) > rank {
            high = mid;
        } else {
            low = mid + 1;
        }
    }
    proof {
        assert forall|sorted: Seq<u32>|
            #![trigger sorted.to_multiset()]
            sorted.to_multiset() == levels@.to_multiset() && (forall|i: int, j: int|
                0 <= i < j < sorted.len() ==> sorted[i] <= sorted[j]) implies low == sorted[rank
            as int] by {
            lemma_count_of_rearranged(levels@, sorted, low as int);
            lemma_count_of_rearranged(levels@, sorted, low + 1);
            sorted.to_multiset_ensures();
            levels@.to_multiset_ensures();
            lemma_count_of_sorted(sorted, low as int, rank as int);
            lemma_count_of_sorted(sorted, low + 1, rank as int);
        }
    }
    low
}

proof fn lemma_count_without(levels: Seq<u32>, v: int, i: int)
    requires
        0 <= i < levels.len(),
    ensures
        count_below(levels, v) == count_below(levels.remove(i), v) + if levels[i] < v {
            1nat
        } else {
            0nat
        },
    decreases levels.len(),
{
    if i == levels.len() - 1 {
        assert(levels.remove(i) == levels.drop_last());
    } else {
        lemma_count_without(levels.drop_last(), v, i);
        assert(levels.remove(i).drop_last() == levels.drop_last().remove(i));
        assert(levels.remove(i).last() == levels.last());
    }
}

/// How many levels are below `v` does not depend on their order.
proof fn lemma_count_of_rearranged(a: Seq<u32>, b: Seq<u32>, v: int)
    requires
        a.to_multiset() == b.to_multiset(),
    ensures
        count_below(a, v) == count_below(b, v),
    decreases a.len(),
{
    broadcast use vstd::seq_lib::group_to_multiset_ensures;

    assert(a.len() == a.to_multiset().len());
    assert(b.len() == b.to_multiset().len());
    if a.len() > 0 {
        let x = a.last();
        assert(a.contains(x));
        assert(b.to_multiset().count(x) > 0);
        assert(b.contains(x));
        let i = choose|i: int| 0 <= i < b.len() && b[i] == x;
        assert(a.remove(a.len() - 1) == a.drop_last());
        assert(a.drop_last().to_multiset() == a.to_multiset().remove(x));
        assert(b.remove(i).to_multiset() == b.to_multiset().remove(x));
        lemma_count_without(b, v, i);
        lemma_count_of_rearranged(a.drop_last(), b.remove(i), v);
    }
}

proof fn lemma_count_of_sorted(t: Seq<u32>, v: int, r: int)
    requires
        forall|i: int, j: int| 0 <= i < j < t.len() ==> t[i] <= t[j],
        0 <= r < t.len(),
    ensures
        t[r] < v <==> r < count_below(t, v),
        count_below(t, v) <= t.len(),
    decreases t.len(),
{
    let head = t.drop_last();
    assert forall|i: int, j: int| 0 <= i < j < head.len() implies head[i] <= head[j] by {
        assert(t[i] <= t[j]);
    }
    if head.len() > 0 {
        if r < head.len() {
            lemma_count_of_sorted(head, v, r);
            assert(t[r] <= t[t.len() - 1]);
        }
        lemma_count_of_sorted(head, v, head.len() - 1);
        assert(t[head.len() - 1] <= t[t.len() - 1]);
    } else {
        assert(count_below(head, v) == 0);
    }
}

/// Whether the 33 frames from `a` on are silent.
pub open spec fn a_second_of_silence(active: Seq<bool>, a: int) -> bool {
    forall|f: int| a <= f < a + 33 ==> !#[trigger] active[f]
}

/// Whether somebody speaks from frame `s` up to frame `e` without a second of silence,
/// and the second before and the second after are silent, as far as they are recorded.
pub open spec fn spoken_through(active: Seq<bool>, s: int, e: int) -> bool {
    &&& 0 <= s < e <= active.len()
    &&& active[s] && active[e - 1]
    &&& forall|a: int| s <= a && a + 33 <= e ==> !#[trigger] a_second_of_silence(active, a)
    &&& forall|f: int| 0 <= f && s - 33 <= f < s ==> !#[trigger] active[f]
    &&& forall|f: int| e <= f < e + 33 && f < active.len() ==> !#[trigger] active[f]
}

proof fn lemma_utterance_is_found(active: Seq<bool>, s: int, e: int) -> (k: int)
    requires
        spoken_through(active, s, e),
    ensures
        0 <= k < utterances(active).len(),
        utterances(active)[k] == (s, e),
{
    let k = law_active_frames_are_in_utterances(active, s);
    let u = utterances(active)[k];
    law_utterances_spaced(active);
    law_utterances_hold_together(active, k);
    if u.0 < s {
        assert(active[u.0]);
        assert(u.0 < s - 33);
        assert(has_active(active, s - 33));
        let f = choose|f: int| s - 33 <= f < s - 33 + MERGE_GAP_FRAMES && #[trigger] active[f];
        assert(!active[f]);
    }
    if u.1 > e {
        assert(active[u.1 - 1]);
        assert(u.1 - 1 >= e + 33);
        assert(has_active(active, e));
        let f = choose|f: int| e <= f < e + MERGE_GAP_FRAMES && #[trigger] active[f];
        assert(!active[f]);
    } else if u.1 < e {
        let l = law_active_frames_are_in_utterances(active, e - 1);
        let v = utterances(active)[l];
        assert(l != k);
        if l < k {
            assert(v.1 + MERGE_GAP_FRAMES <= u.0);
        }
        assert(u.1 + MERGE_GAP_FRAMES <= v.0);
        assert(!a_second_of_silence(active, u.1));
        let f = choose|f: int| u.1 <= f < u.1 + 33 && #[trigger] active[f];
        let m = law_active_frames_are_in_utterances(active, f);
        let w = utterances(active)[m];
        if m < k {
            assert(w.1 + MERGE_GAP_FRAMES <= u.0);
        } else if m > k {
            assert(u.1 + MERGE_GAP_FRAMES <= w.0);
        }
        assert(false);
    }
    k
}

proof fn lemma_utterance_is_spoken(active: Seq<bool>, k: int)
    requires
        0 <= k < utterances(active).len(),
    ensures
        spoken_through(active, utterances(active)[k].0, utterances(active)[k].1),
{
    let u = utterances(active)[k];
    law_utterances_spaced(active);
    law_utterances_hold_together(active, k);
    assert forall|a: int| u.0 <= a && a + 33 <= u.1 implies !#[trigger] a_second_of_silence(
        active,
        a,
    ) by {
        assert(has_active(active, a));
        let f = choose|f: int| a <= f < a + MERGE_GAP_FRAMES && #[trigger] active[f];
        assert(active[f]);
    }
    assert forall|f: int|
        0 <= f < active.len() && (u.0 - 33 <= f < u.0 || u.1 <= f < u.1 + 33) implies !#[trigger]
    active[f] by {
        if active[f] {
            let m = law_active_frames_are_in_utterances(active, f);
            let w = utterances(active)[m];
            if m < k {
                assert(w.1 + MERGE_GAP_FRAMES <= u.0);
            } else if m > k {
                assert(u.1 + MERGE_GAP_FRAMES <= w.0);
            }
        }
    }
}

/// Where what is transcribed of the frames from `s` on begins: ten frames before, or
/// with the track.
pub open spec fn heard_from(s: int) -> int {
    if s >= 10 {
        (s - 10) * 480
    } else {
        0
    }
}

/// Where what is transcribed of the frames up to `e` ends: ten frames behind, or with
/// the track.
pub open spec fn heard_to(e: int, samples: int) -> int {
    if (e + 10) * 480 < samples {
        (e + 10) * 480
    } else {
        samples
    }
}

/// The end of stretch `j` of 30 s of what is heard from `from` to `to`.
pub open spec fn stretch_end(from: int, to: int, j: int) -> int {
    if from + (j + 1) * (30 * 16_000) < to {
        from + (j + 1) * (30 * 16_000)
    } else {
        to
    }
}

proof fn lemma_piece_at(from: int, to: int, j: int)
    requires
        0 <= j,
    ensures
        j < pieces(from, to).len() <==> from + j * 480_000 < to,
        j < pieces(from, to).len() ==> pieces(from, to)[j] == (
            from + j * 480_000,
            stretch_end(from, to, j),
        ),
    decreases j,
{
    if from < to && to - from > 480_000 && j > 0 {
        lemma_piece_at(from + 480_000, to, j - 1);
        let ps = pieces(from, to);
        let rest = pieces(from + 480_000, to);
        assert(ps.len() == rest.len() + 1);
        if j < ps.len() {
            assert(ps[j] == rest[j - 1]);
            assert(stretch_end(from + 480_000, to, j - 1) == stretch_end(from, to, j));
        }
    } else if from < to && j == 0 {
        assert(pieces(from, to)[0] == (from, stretch_end(from, to, 0)));
    }
}

/// Each utterance of at least 13 frames goes to the model whole, with ten frames around
/// it: as one segment where that is no more than 30 s, and otherwise in stretches of
/// exactly 30 s, each beginning where the one before ends, with the rest in the last.
pub proof fn law_utterances_go_whole(active: Seq<bool>, samples: int, s: int, e: int, j: int) -> (n:
    int)
    requires
        samples >= 480,
        spoken_through(active, s, e),
        e - s >= 13,
        j >= 0,
        heard_from(s) + j * (30 * 16_000) < heard_to(e, samples),
    ensures
        0 <= n < segments_spec(active, samples).len(),
        segments_spec(active, samples)[n] == (
            heard_from(s) + j * (30 * 16_000),
            stretch_end(heard_from(s), heard_to(e, samples), j),
        ),
        j == 0 && heard_to(e, samples) - heard_from(s) <= 30 * 16_000 ==> segments_spec(
            active,
            samples,
        )[n] == (heard_from(s), heard_to(e, samples)),
{
    let k = lemma_utterance_is_found(active, s, e);
    let (from, to) = padded((s, e), samples);
    assert(from == heard_from(s) && to == heard_to(e, samples));
    lemma_piece_at(from, to, j);
    lemma_all_pieces_hold(utterances(active), samples, k, j)
}

proof fn lemma_all_pieces_come_from(us: Seq<(int, int)>, samples: int, n: int) -> (r: (int, int))
    requires
        0 <= n < all_pieces(us, samples).len(),
    ensures
        0 <= r.0 < us.len(),
        0 <= r.1 < pieces_of(us[r.0], samples).len(),
        all_pieces(us, samples)[n] == pieces_of(us[r.0], samples)[r.1],
    decreases us.len(),
{
    let before = all_pieces(us.drop_last(), samples);
    if n < before.len() {
        let r = lemma_all_pieces_come_from(us.drop_last(), samples, n);
        assert(us.drop_last()[r.0] == us[r.0]);
        r
    } else {
        (us.len() - 1, n - before.len())
    }
}

/// Nothing else goes to the model: each segment is a stretch of 30 s, or the rest, of an
/// utterance of at least 13 frames with ten frames around it. Blips make none, and a
/// track shorter than one frame has none.
pub proof fn law_segments_are_speech(active: Seq<bool>, samples: int, n: int) -> (r: (int, int, int))
    requires
        0 <= n < segments_spec(active, samples).len(),
    ensures
        samples >= 480,
        spoken_through(active, r.0, r.1),
        r.1 - r.0 >= 13,
        r.2 >= 0,
        heard_from(r.0) + r.2 * (30 * 16_000) < heard_to(r.1, samples),
        segments_spec(active, samples)[n] == (
            heard_from(r.0) + r.2 * (30 * 16_000),
            stretch_end(heard_from(r.0), heard_to(r.1, samples), r.2),
        ),
{
    let us = utterances(active);
    let (k, j) = lemma_all_pieces_come_from(us, samples, n);
    let u = us[k];
    lemma_utterance_is_spoken(active, k);
    let (from, to) = padded(u, samples);
    lemma_piece_at(from, to, j);
    (u.0, u.1, j)
}

/// Segments lie on the track one behind the other, so that nothing is heard twice.
pub proof fn law_nothing_is_heard_twice(active: Seq<bool>, samples: int, m: int, n: int)
    requires
        samples >= 0,
        0 <= m < segments_spec(active, samples).len(),
        m < n < segments_spec(active, samples).len(),
    ensures
        0 <= segments_spec(active, samples)[m].0 < segments_spec(active, samples)[m].1,
        segments_spec(active, samples)[m].1 <= segments_spec(active, samples)[n].0,
        segments_spec(active, samples)[n].1 <= samples,
{
    law_segments_in_order(active, samples);
}

} // verus!
