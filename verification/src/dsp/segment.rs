//! Finding the measurement bursts inside a recording.
//!
//! The tool does not play anything, so it has no idea when the user hit play.
//! What it does know is the shape of the track it generated: loud bursts of
//! equal length separated by silence. Short-term RMS turns that into a
//! threshold problem; once every analysis frame is marked loud or quiet, what
//! is left is the integer problem solved here: group the loud frames into
//! bursts, bridging short quiet gaps, and turn frame ranges into sample ranges.

use vstd::prelude::*;

verus! {

/// A detected burst, as a half-open sample range.
#[derive(Debug, Clone, Copy, PartialEq, Eq, Structural)]
pub struct Burst {
    pub start: usize,
    pub end: usize,
}

impl Burst {
    /// Number of samples in the burst; an inverted range has none.
    pub open spec fn length(self) -> nat {
        if self.end >= self.start {
            (self.end - self.start) as nat
        } else {
            0
        }
    }

    pub fn len(&self) -> (r: usize)
        ensures
            r == self.length(),
    {
        self.end.saturating_sub(self.start)
    }

    pub fn is_empty(&self) -> (r: bool)
        ensures
            r == (self.length() == 0),
    {
        self.len() == 0
    }

    /// Drops `margin` samples from both ends, which removes the fade ramps and
    /// any slop in the detected edges. `None` when nothing would be left.
    pub fn trimmed_by(&self, margin: usize) -> (r: Option<Burst>)
        requires
            self.start + margin <= usize::MAX,
        ensures
            r == (if self.end >= margin && self.end - margin > self.start + margin {
                Some(Burst { start: (self.start + margin) as usize, end: (self.end - margin) as usize })
            } else {
                None
            }),
    {
        let start = self.start + margin;
        let end = match self.end.checked_sub(margin) {
            Some(e) => e,
            None => return None,
        };
        if end <= start {
            return None;
        }
        Some(Burst { start, end })
    }
}

/// The sample range covered by frames `start_frame .. end_frame`, where frame
/// `k` starts at `k * hop` and is `frame` samples long, clipped to `total`.
pub open spec fn frame_range_burst(start_frame: int, end_frame: int, hop: int, frame: int, total: int) -> Burst {
    Burst {
        start: (if start_frame * hop < total { start_frame * hop } else { total }) as usize,
        end: (if end_frame * hop + frame < total { end_frame * hop + frame } else { total }) as usize,
    }
}

pub fn frames_to_burst(start_frame: usize, end_frame: usize, hop: usize, frame: usize, total: usize) -> (b: Burst)
    requires
        start_frame * hop <= usize::MAX,
        end_frame * hop + frame <= usize::MAX,
    ensures
        b == frame_range_burst(start_frame as int, end_frame as int, hop as int, frame as int, total as int),
{
    let s = start_frame * hop;
    let e = end_frame * hop + frame;
    Burst {
        start: if s < total { s } else { total },
        end: if e < total { e } else { total },
    }
}

/// Some frame in the window `[a, a + bridge]` is loud.
pub open spec fn window_has_loud(loud: Seq<bool>, a: int, bridge: int) -> bool {
    exists|k: int| a <= k <= a + bridge && 0 <= k < loud.len() && loud[k]
}

/// No run of more than `bridge` quiet frames lies inside `[s, e)`.
pub open spec fn chained(loud: Seq<bool>, s: int, e: int, bridge: int) -> bool {
    forall|j: int| s <= j && j + bridge < e ==> #[trigger] window_has_loud(loud, j, bridge)
}

/// Every frame of `[a, b)` that exists is quiet.
pub open spec fn quiet_between(loud: Seq<bool>, a: int, b: int) -> bool {
    forall|k: int| a <= k < b && 0 <= k < loud.len() ==> !#[trigger] loud[k]
}

/// `[s, e)` is one burst: it starts and ends on a loud frame, no quiet gap
/// inside it is longer than `bridge` frames, and it is separated from any
/// other loud frame by more than `bridge` quiet frames on both sides.
pub open spec fn is_span(loud: Seq<bool>, bridge: int, s: int, e: int) -> bool {
    &&& 0 <= s < e <= loud.len()
    &&& loud[s]
    &&& loud[e - 1]
    &&& chained(loud, s, e, bridge)
    &&& quiet_between(loud, s - bridge - 1, s)
    &&& quiet_between(loud, e, e + bridge + 1)
}

/// `spans` are the bursts of `loud`: each is a span, they come in order, and
/// together they cover every loud frame.
pub open spec fn is_segmentation(loud: Seq<bool>, bridge: int, spans: Seq<(usize, usize)>) -> bool {
    &&& forall|i: int| 0 <= i < spans.len() ==> is_span(loud, bridge, #[trigger] spans[i].0 as int, spans[i].1 as int)
    &&& forall|i: int, j: int| 0 <= i < j < spans.len() ==> #[trigger] spans[i].1 < #[trigger] spans[j].0
    &&& forall|k: int| 0 <= k < loud.len() && #[trigger] loud[k] ==> exists|i: int| #![trigger spans[i]] 0 <= i < spans.len() && spans[i].0 <= k < spans[i].1
}

/// The bursts of `loud`, as frame ranges. `segment_frames` shows that a
/// segmentation exists and `lemma_segmentation_unique` that there is only one.
pub open spec fn segmentation(loud: Seq<bool>, bridge: int) -> Seq<(usize, usize)> {
    choose|r: Seq<(usize, usize)>| is_segmentation(loud, bridge, r)
}

/// Groups the loud frames into bursts. Quiet gaps of at most `bridge_frames`
/// frames inside a burst are bridged; a longer one ends it.
pub fn segment_frames(loud: &Vec<bool>, bridge_frames: usize) -> (spans: Vec<(usize, usize)>)
    ensures
        is_segmentation(loud@, bridge_frames as int, spans@),
        spans@ == segmentation(loud@, bridge_frames as int),
{
    let ghost l = loud@;
    let ghost b = bridge_frames as int;
    let n = loud.len();
    let mut spans: Vec<(usize, usize)> = Vec::new();
    let mut open: Option<usize> = None;
    let mut quiet_since: Option<usize> = None;
    let mut i: usize = 0;
    while i < n
        invariant
            n == l.len(),
            l == loud@,
            b == bridge_frames as int,
            i <= n,
            forall|a: int| 0 <= a < spans.len() ==> is_span(l, b, #[trigger] spans@[a].0 as int, spans@[a].1 as int),
            forall|a: int, c: int| 0 <= a < c < spans.len() ==> #[trigger] spans@[a].1 < #[trigger] spans@[c].0,
            forall|a: int| 0 <= a < spans.len() ==> #[trigger] spans@[a].1 + b < (match open { Some(s) => s as int, None => i as int }),
            open is None ==> quiet_since is None,
            open matches Some(s) ==> {
                &&& s < i
                &&& l[s as int]
                &&& quiet_between(l, s - b - 1, s as int)
                &&& match quiet_since {
                    Some(q) => {
                        &&& s < q < i
                        &&& l[q - 1]
                        &&& quiet_between(l, q as int, i as int)
                        &&& i - q <= b
                        &&& chained(l, s as int, q as int, b)
                    },
                    None => {
                        &&& l[i - 1]
                        &&& chained(l, s as int, i as int, b)
                    },
                }
            },
            forall|k: int| 0 <= k < i && #[trigger] l[k] ==> (
                (exists|a: int| #![trigger spans@[a]] 0 <= a < spans.len() && spans@[a].0 <= k < spans@[a].1)
                || (open matches Some(s) && s <= k)),
        decreases n - i,
    {
        let ghost old_spans = spans@;
        let ghost old_open = open;
        let ghost old_quiet = quiet_since;
        if loud[i] {
            match open {
                Some(s) => {
                    proof {
                        let last: int = match quiet_since { Some(q) => q as int, None => i as int };
                        assert forall|j: int| s <= j && j + b < i + 1 implies #[trigger] window_has_loud(l, j, b) by {
                            if j + b == i {
                                assert(l[i as int]);
                            } else if j + b < last {
                                assert(window_has_loud(l, j, b));
                            } else {
                                assert(l[last - 1]);
                            }
                        }
                    }
                },
                None => {
                    proof {
                        assert forall|k: int| i - b - 1 <= k < i && 0 <= k < l.len() implies !#[trigger] l[k] by {
                            if l[k] {
                                let a = choose|a: int| #![trigger spans@[a]] 0 <= a < spans.len() && spans@[a].0 <= k < spans@[a].1;
                                assert(spans@[a].1 + b < i);
                            }
                        }
                    }
                    open = Some(i);
                },
            }
            quiet_since = None;
        } else if let Some(start_frame) = open {
            let quiet_start = match quiet_since {
                Some(q) => q,
                None => {
                    quiet_since = Some(i);
                    i
                },
            };
            if i - quiet_start >= bridge_frames {
                proof {
                    assert(is_span(l, b, start_frame as int, quiet_start as int));
                }
                spans.push((start_frame, quiet_start));
                open = None;
                quiet_since = None;
                proof {
                    let last = spans.len() - 1;
                    assert(spans@[last as int] == (start_frame, quiet_start));
                    assert forall|k: int| 0 <= k < i + 1 && #[trigger] l[k] implies
                        (exists|a: int| #![trigger spans@[a]] 0 <= a < spans.len() && spans@[a].0 <= k < spans@[a].1) by {
                        if k >= start_frame {
                            assert(k < quiet_start);
                            assert(spans@[last as int].0 <= k < spans@[last as int].1);
                        } else {
                            let a = choose|a: int| #![trigger old_spans[a]] 0 <= a < old_spans.len() && old_spans[a].0 <= k < old_spans[a].1;
                            assert(spans@[a] == old_spans[a]);
                        }
                    }
                }
            }
        }
        proof {
            assert forall|k: int| 0 <= k < i + 1 && #[trigger] l[k] implies (
                (exists|a: int| #![trigger spans@[a]] 0 <= a < spans.len() && spans@[a].0 <= k < spans@[a].1)
                || (open matches Some(s) && s <= k)) by {
                if k < i {
                    if exists|a: int| #![trigger old_spans[a]] 0 <= a < old_spans.len() && old_spans[a].0 <= k < old_spans[a].1 {
                        let a = choose|a: int| #![trigger old_spans[a]] 0 <= a < old_spans.len() && old_spans[a].0 <= k < old_spans[a].1;
                        assert(spans@[a] == old_spans[a]);
                    }
                }
            }
        }
        i += 1;
    }
    if let Some(start_frame) = open {
        let end_frame = match quiet_since {
            Some(q) => q,
            None => n,
        };
        let ghost old_spans = spans@;
        spans.push((start_frame, end_frame));
        proof {
            let last = spans.len() - 1;
            assert forall|k: int| 0 <= k < n && #[trigger] l[k] implies
                (exists|a: int| #![trigger spans@[a]] 0 <= a < spans.len() && spans@[a].0 <= k < spans@[a].1) by {
                if k >= start_frame {
                    assert(spans@[last as int].0 <= k < spans@[last as int].1);
                } else {
                    let a = choose|a: int| #![trigger old_spans[a]] 0 <= a < old_spans.len() && old_spans[a].0 <= k < old_spans[a].1;
                    assert(spans@[a] == old_spans[a]);
                }
            }
        }
    }
    proof {
        assert(is_segmentation(l, b, spans@));
        lemma_segmentation_unique(l, b, spans@, segmentation(l, b));
    }
    spans
}

/// How long the shortest burst must be, in percent of the longest, for the
/// bursts of one track to count as the same signal played again.
pub const LENGTH_AGREEMENT_PERCENT: usize = 75;

/// Every burst is at least `LENGTH_AGREEMENT_PERCENT` percent as long as
/// every other.
pub open spec fn lengths_agree_spec(bursts: Seq<Burst>) -> bool {
    forall|i: int, j: int| 0 <= i < bursts.len() && 0 <= j < bursts.len() ==>
        100 * (#[trigger] bursts[i]).length() >= LENGTH_AGREEMENT_PERCENT * (#[trigger] bursts[j]).length()
}

/// Whether the detected bursts agree about how long they are. The track
/// plays the same burst each time, so bursts of clearly different length mean
/// that something else was picked up, and the analysis refuses to guess.
pub fn lengths_agree(bursts: &Vec<Burst>) -> (r: bool)
    ensures
        r == lengths_agree_spec(bursts@),
{
    if bursts.len() == 0 {
        return true;
    }
    let mut shortest: usize = bursts[0].len();
    let mut longest: usize = bursts[0].len();
    let ghost mut at_shortest: int = 0;
    let ghost mut at_longest: int = 0;
    let mut i: usize = 1;
    while i < bursts.len()
        invariant
            1 <= i <= bursts.len(),
            0 <= at_shortest < i,
            0 <= at_longest < i,
            shortest == bursts@[at_shortest].length(),
            longest == bursts@[at_longest].length(),
            forall|k: int| 0 <= k < i ==> shortest <= (#[trigger] bursts@[k]).length() <= longest,
        decreases bursts.len() - i,
    {
        let len = bursts[i].len();
        if len < shortest {
            shortest = len;
            proof {
                at_shortest = i as int;
            }
        }
        if len > longest {
            longest = len;
            proof {
                at_longest = i as int;
            }
        }
        i += 1;
    }
    let pct: u128 = LENGTH_AGREEMENT_PERCENT as u128;
    let long: u128 = longest as u128;
    let short: u128 = shortest as u128;
    assert(long * pct <= 0xffff_ffff_ffff_ffff * 75 && short * 100 <= 0xffff_ffff_ffff_ffff * 100) by (nonlinear_arith)
        requires
            long <= 0xffff_ffff_ffff_ffff,
            short <= 0xffff_ffff_ffff_ffff,
            pct == 75,
    ;
    let r = short * 100 >= long * pct;
    proof {
        if !r {
            assert(!(100 * bursts@[at_shortest].length() >= LENGTH_AGREEMENT_PERCENT * bursts@[at_longest].length()));
        }
    }
    r
}

/// The sample ranges of the bursts among `spans` that are at least `min_len`
/// samples long, in order.
pub open spec fn long_bursts(spans: Seq<(usize, usize)>, hop: int, frame: int, total: int, min_len: int) -> Seq<Burst>
    decreases spans.len(),
{
    if spans.len() == 0 {
        seq![]
    } else {
        let rest = long_bursts(spans.drop_last(), hop, frame, total, min_len);
        let b = frame_range_burst(spans.last().0 as int, spans.last().1 as int, hop, frame, total);
        if b.length() >= min_len {
            rest.push(b)
        } else {
            rest
        }
    }
}

/// Every burst that survives the length filter is at least `min_len` samples
/// long: short blips are never reported as bursts.
pub proof fn lemma_long_bursts_are_long(spans: Seq<(usize, usize)>, hop: int, frame: int, total: int, min_len: int)
    ensures
        forall|i: int| 0 <= i < long_bursts(spans, hop, frame, total, min_len).len() ==>
            (#[trigger] long_bursts(spans, hop, frame, total, min_len)[i]).length() >= min_len,
    decreases spans.len(),
{
    if spans.len() > 0 {
        let rest = long_bursts(spans.drop_last(), hop, frame, total, min_len);
        lemma_long_bursts_are_long(spans.drop_last(), hop, frame, total, min_len);
        let all = long_bursts(spans, hop, frame, total, min_len);
        assert forall|i: int| 0 <= i < all.len() implies (#[trigger] all[i]).length() >= min_len by {
            if i < rest.len() {
                assert(all[i] == rest[i]);
            }
        }
    }
}

/// Frame spans that lie inside `n` frames, each non-empty, in order, and each
/// separated from the next by more than `bridge` frames.
pub open spec fn spans_separated(spans: Seq<(usize, usize)>, n: int, bridge: int) -> bool {
    &&& forall|i: int| 0 <= i < spans.len() ==> #[trigger] spans[i].0 < spans[i].1 <= n
    &&& forall|i: int, j: int| 0 <= i < j < spans.len() ==> #[trigger] spans[i].1 + bridge + 1 <= #[trigger] spans[j].0
}

/// The bursts of a segmentation lie inside the frames and are separated by
/// more than `bridge` quiet frames.
proof fn lemma_segmentation_separated(loud: Seq<bool>, bridge: int, spans: Seq<(usize, usize)>)
    requires
        bridge >= 0,
        is_segmentation(loud, bridge, spans),
    ensures
        spans_separated(spans, loud.len() as int, bridge),
{
    assert forall|i: int| 0 <= i < spans.len() implies #[trigger] spans[i].0 < spans[i].1 <= loud.len() by {
        assert(is_span(loud, bridge, spans[i].0 as int, spans[i].1 as int));
    }
    assert forall|i: int, j: int| 0 <= i < j < spans.len() implies #[trigger] spans[i].1 + bridge + 1 <= #[trigger] spans[j].0 by {
        assert(is_span(loud, bridge, spans[i].0 as int, spans[i].1 as int));
        assert(is_span(loud, bridge, spans[j].0 as int, spans[j].1 as int));
        let sj = spans[j].0 as int;
        assert(loud[sj]);
        if sj < spans[i].1 + bridge + 1 {
            assert(spans[i].1 < spans[j].0);
            assert(!loud[sj]);
        }
    }
}

/// Sample ranges cut from separated frame spans come in order, do not
/// overlap and are not empty, provided every frame starts inside the
/// recording and the bridged gap is at least one frame long.
pub proof fn lemma_long_bursts_in_order(
    spans: Seq<(usize, usize)>,
    n: int,
    bridge: int,
    hop: int,
    frame: int,
    total: int,
    min_len: int,
)
    requires
        hop >= 1,
        bridge >= 0,
        0 <= frame <= (bridge + 1) * hop,
        0 <= total <= usize::MAX,
        n == 0 || (n - 1) * hop < total,
        spans_separated(spans, n, bridge),
    ensures
        forall|i: int| 0 <= i < long_bursts(spans, hop, frame, total, min_len).len() ==>
            (#[trigger] long_bursts(spans, hop, frame, total, min_len)[i]).start
                < long_bursts(spans, hop, frame, total, min_len)[i].end <= total,
        forall|i: int, j: int| 0 <= i < j < long_bursts(spans, hop, frame, total, min_len).len() ==>
            (#[trigger] long_bursts(spans, hop, frame, total, min_len)[i]).end
                <= (#[trigger] long_bursts(spans, hop, frame, total, min_len)[j]).start,
        spans.len() > 0 ==> forall|i: int| 0 <= i < long_bursts(spans, hop, frame, total, min_len).len() ==>
            (#[trigger] long_bursts(spans, hop, frame, total, min_len)[i]).end
                <= frame_range_burst(spans.last().0 as int, spans.last().1 as int, hop, frame, total).end,
    decreases spans.len(),
{
    if spans.len() > 0 {
        let front = spans.drop_last();
        assert forall|i: int, j: int| 0 <= i < j < front.len() implies #[trigger] front[i].1 + bridge + 1 <= #[trigger] front[j].0 by {
            assert(front[i] == spans[i] && front[j] == spans[j]);
        }
        assert forall|i: int| 0 <= i < front.len() implies #[trigger] front[i].0 < front[i].1 <= n by {
            assert(front[i] == spans[i]);
        }
        lemma_long_bursts_in_order(front, n, bridge, hop, frame, total, min_len);
        let rest = long_bursts(front, hop, frame, total, min_len);
        let all = long_bursts(spans, hop, frame, total, min_len);
        let x = spans.last();
        let k = spans.len() - 1;
        assert(spans[k] == x);
        let s = x.0 as int;
        let e = x.1 as int;
        let b = frame_range_burst(s, e, hop, frame, total);
        assert(s < e <= n);
        assert(s * hop <= (n - 1) * hop) by (nonlinear_arith)
            requires s <= n - 1, hop >= 1;
        assert(e * hop >= s * hop + hop) by (nonlinear_arith)
            requires e >= s + 1, hop >= 1;
        assert(b.start == s * hop);
        assert(b.start < b.end <= total);
        if front.len() > 0 {
            let y = front.last();
            assert(front[front.len() - 1] == y);
            assert(spans[front.len() - 1] == y);
            assert(y.1 + bridge + 1 <= x.0);
            let ey = y.1 as int;
            assert(ey * hop + frame <= s * hop) by (nonlinear_arith)
                requires s >= ey + bridge + 1, frame <= (bridge + 1) * hop, hop >= 1;
            let by_ = frame_range_burst(y.0 as int, ey, hop, frame, total);
            assert(by_.end <= b.start);
            assert forall|i: int| 0 <= i < rest.len() implies (#[trigger] rest[i]).end <= b.start by {
                assert(rest[i].end <= by_.end);
            }
        }
        assert forall|i: int| 0 <= i < all.len() implies (#[trigger] all[i]).start < all[i].end <= total by {
            if i < rest.len() {
                assert(all[i] == rest[i]);
            }
        }
        assert forall|i: int, j: int| 0 <= i < j < all.len() implies (#[trigger] all[i]).end <= (#[trigger] all[j]).start by {
            if j < rest.len() {
                assert(all[i] == rest[i] && all[j] == rest[j]);
            } else {
                assert(all[i] == rest[i]);
                assert(all[j] == b);
            }
        }
        assert forall|i: int| 0 <= i < all.len() implies (#[trigger] all[i]).end <= b.end by {
            if i < rest.len() {
                assert(all[i] == rest[i]);
            }
        }
    }
}

/// The bursts found in a recording come in order, do not overlap, are not
/// empty and lie inside the recording, provided every analysis frame starts
/// inside the recording and the bridged gap is at least one frame long.
pub proof fn lemma_segmented_bursts_in_order(
    loud: Seq<bool>,
    bridge: int,
    spans: Seq<(usize, usize)>,
    hop: int,
    frame: int,
    total: int,
    min_len: int,
)
    requires
        hop >= 1,
        bridge >= 0,
        0 <= frame <= (bridge + 1) * hop,
        0 <= total <= usize::MAX,
        loud.len() == 0 || (loud.len() - 1) * hop < total,
        is_segmentation(loud, bridge, spans),
    ensures
        forall|i: int| 0 <= i < long_bursts(spans, hop, frame, total, min_len).len() ==>
            (#[trigger] long_bursts(spans, hop, frame, total, min_len)[i]).start
                < long_bursts(spans, hop, frame, total, min_len)[i].end <= total,
        forall|i: int, j: int| 0 <= i < j < long_bursts(spans, hop, frame, total, min_len).len() ==>
            (#[trigger] long_bursts(spans, hop, frame, total, min_len)[i]).end
                <= (#[trigger] long_bursts(spans, hop, frame, total, min_len)[j]).start,
{
    lemma_segmentation_separated(loud, bridge, spans);
    lemma_long_bursts_in_order(spans, loud.len() as int, bridge, hop, frame, total, min_len);
}

/// The sample ranges the recording is analysed in: frame `k` starts at
/// `k * hop` and spans `frame` samples, cut off at the end of the recording;
/// there is one frame per `hop` samples, the last one possibly short.
pub fn analysis_frames(total: usize, hop: usize, frame: usize) -> (frames: Vec<(usize, usize)>)
    requires
        hop >= 1,
        total + frame <= usize::MAX,
    ensures
        frames.len() * hop >= total,
        frames.len() == 0 || (frames.len() - 1) * hop < total,
        forall|k: int| 0 <= k < frames.len() ==> #[trigger] frames@[k] == (
            (k * hop) as usize,
            (if k * hop + frame < total { k * hop + frame } else { total as int }) as usize,
        ),
{
    let mut frames: Vec<(usize, usize)> = Vec::new();
    let mut start: usize = 0;
    proof {
        assert(0 * hop == 0) by (nonlinear_arith);
    }
    while start < total
        invariant
            hop >= 1,
            total + frame <= usize::MAX,
            start <= total,
            start < total ==> start == frames.len() * hop,
            start == total ==> frames.len() * hop >= total,
            frames.len() == 0 || (frames.len() - 1) * hop < total,
            forall|k: int| 0 <= k < frames.len() ==> #[trigger] frames@[k] == (
                (k * hop) as usize,
                (if k * hop + frame < total { k * hop + frame } else { total as int }) as usize,
            ),
        decreases total - start,
    {
        let ghost m = frames.len() as int;
        let end = if start + frame < total { start + frame } else { total };
        frames.push((start, end));
        proof {
            assert((m + 1) * hop == m * hop + hop) by (nonlinear_arith);
        }
        if total - start <= hop {
            start = total;
        } else {
            start = start + hop;
        }
    }
    frames
}

proof fn lemma_segmentation_within(loud: Seq<bool>, bridge: int, spans: Seq<(usize, usize)>)
    requires
        is_segmentation(loud, bridge, spans),
    ensures
        forall|k: int| 0 <= k < spans.len() ==> #[trigger] spans[k].0 <= loud.len() && spans[k].1 <= loud.len(),
{
    assert forall|k: int| 0 <= k < spans.len() implies #[trigger] spans[k].0 <= loud.len() && spans[k].1 <= loud.len() by {
        assert(is_span(loud, bridge, spans[k].0 as int, spans[k].1 as int));
    }
}

/// The sample ranges of the frame spans, keeping those of at least `min_len`.
fn spans_to_bursts(spans: &Vec<(usize, usize)>, n: usize, hop: usize, frame: usize, total: usize, min_len: usize) -> (bursts: Vec<Burst>)
    requires
        n * hop + frame <= usize::MAX,
        forall|k: int| 0 <= k < spans.len() ==> #[trigger] spans@[k].0 <= n && spans@[k].1 <= n,
    ensures
        bursts@ == long_bursts(spans@, hop as int, frame as int, total as int, min_len as int),
{
    let mut bursts: Vec<Burst> = Vec::new();
    let mut i: usize = 0;
    while i < spans.len()
        invariant
            i <= spans.len(),
            forall|k: int| 0 <= k < spans.len() ==> #[trigger] spans@[k].0 <= n && spans@[k].1 <= n,
            n * hop + frame <= usize::MAX,
            bursts@ == long_bursts(spans@.subrange(0, i as int), hop as int, frame as int, total as int, min_len as int),
        decreases spans.len() - i,
    {
        let (s, e) = spans[i];
        proof {
            assert(spans@[i as int].0 <= n && spans@[i as int].1 <= n);
            assert(s * hop <= n * hop) by (nonlinear_arith)
                requires s <= n, hop >= 0;
            assert(e * hop <= n * hop) by (nonlinear_arith)
                requires e <= n, hop >= 0;
        }
        let b = frames_to_burst(s, e, hop, frame, total);
        if b.len() >= min_len {
            bursts.push(b);
        }
        proof {
            assert(spans@.subrange(0, i + 1).drop_last() =~= spans@.subrange(0, i as int));
        }
        i += 1;
    }
    proof {
        assert(spans@.subrange(0, spans.len() as int) =~= spans@);
    }
    bursts
}

/// The bursts of a recording whose analysis frames are marked `loud`: frame
/// `k` starts at sample `k * hop` and is `frame` samples long, the recording
/// has `total` samples, quiet gaps of up to `bridge_frames` frames are
/// bridged, and bursts shorter than `min_len` samples are dropped.
pub fn bursts_from_frames(
    loud: &Vec<bool>,
    bridge_frames: usize,
    hop: usize,
    frame: usize,
    total: usize,
    min_len: usize,
) -> (bursts: Vec<Burst>)
    requires
        loud.len() * hop + frame <= usize::MAX,
    ensures
        bursts@ == long_bursts(segmentation(loud@, bridge_frames as int), hop as int, frame as int, total as int, min_len as int),
        hop >= 1 && frame <= (bridge_frames + 1) * hop && (loud.len() == 0 || (loud.len() - 1) * hop < total) ==> {
            &&& forall|i: int| 0 <= i < bursts.len() ==> (#[trigger] bursts@[i]).start < bursts@[i].end <= total
            &&& forall|i: int, j: int| 0 <= i < j < bursts.len() ==> (#[trigger] bursts@[i]).end <= (#[trigger] bursts@[j]).start
        },
{
    let spans = segment_frames(loud, bridge_frames);
    proof {
        lemma_segmentation_within(loud@, bridge_frames as int, spans@);
        if hop >= 1 && frame <= (bridge_frames + 1) * hop && (loud.len() == 0 || (loud.len() - 1) * hop < total) {
            lemma_segmented_bursts_in_order(loud@, bridge_frames as int, spans@, hop as int, frame as int, total as int, min_len as int);
        }
    }
    spans_to_bursts(&spans, loud.len(), hop, frame, total, min_len)
}

/// Two bursts that share a frame are the same burst.
proof fn lemma_spans_sharing_a_frame_agree(l: Seq<bool>, b: int, s1: int, e1: int, s2: int, e2: int, k: int)
    requires
        b >= 0,
        is_span(l, b, s1, e1),
        is_span(l, b, s2, e2),
        s1 <= k < e1,
        s2 <= k < e2,
    ensures
        s1 == s2,
        e1 == e2,
{
    assert forall|x: int, y: int, f: int, g: int|
        is_span(l, b, x, f) && is_span(l, b, y, g) && x <= k < f && y <= k < g && x < y implies false by {
        if y - b - 1 >= x {
            assert(window_has_loud(l, y - b - 1, b));
            let w = choose|w: int| y - b - 1 <= w <= y - b - 1 + b && 0 <= w < l.len() && l[w];
            assert(!l[w]);
        } else {
            assert(!l[x]);
        }
    }
    assert forall|x: int, y: int, f: int, g: int|
        is_span(l, b, x, f) && is_span(l, b, y, g) && x <= k < f && y <= k < g && f < g implies false by {
        if f + b < g {
            assert(window_has_loud(l, f, b));
            let w = choose|w: int| f <= w <= f + b && 0 <= w < l.len() && l[w];
            assert(!l[w]);
        } else {
            assert(!l[g - 1]);
        }
    }
}

/// The bursts of a recording are uniquely determined: two segmentations of
/// the same frames with the same bridge are identical.
pub proof fn lemma_segmentation_unique(loud: Seq<bool>, bridge: int, r1: Seq<(usize, usize)>, r2: Seq<(usize, usize)>)
    requires
        bridge >= 0,
        is_segmentation(loud, bridge, r1),
        is_segmentation(loud, bridge, r2),
    ensures
        r1 == r2,
{
    lemma_segmentation_prefix_agrees(loud, bridge, r1, r2, if r1.len() < r2.len() { r1.len() as int } else { r2.len() as int });
    if r1.len() <= r2.len() {
        lemma_extra_span_impossible(loud, bridge, r1, r2);
    } else {
        lemma_extra_span_impossible(loud, bridge, r2, r1);
    }
    assert(r1 =~= r2);
}

/// The span of `r2` that covers the start of `r1[i]` equals `r1[i]`.
proof fn lemma_cover_of_start(loud: Seq<bool>, bridge: int, r1: Seq<(usize, usize)>, r2: Seq<(usize, usize)>, i: int) -> (j: int)
    requires
        bridge >= 0,
        is_segmentation(loud, bridge, r1),
        is_segmentation(loud, bridge, r2),
        0 <= i < r1.len(),
    ensures
        0 <= j < r2.len(),
        r2[j] == r1[i],
{
    let s = r1[i].0 as int;
    assert(is_span(loud, bridge, r1[i].0 as int, r1[i].1 as int));
    assert(loud[s]);
    let j = choose|j: int| #![trigger r2[j]] 0 <= j < r2.len() && r2[j].0 <= s < r2[j].1;
    assert(is_span(loud, bridge, r2[j].0 as int, r2[j].1 as int));
    lemma_spans_sharing_a_frame_agree(loud, bridge, r1[i].0 as int, r1[i].1 as int, r2[j].0 as int, r2[j].1 as int, s);
    j
}

#[verifier::rlimit(60)]
proof fn lemma_segmentation_prefix_agrees(loud: Seq<bool>, bridge: int, r1: Seq<(usize, usize)>, r2: Seq<(usize, usize)>, m: int)
    requires
        bridge >= 0,
        is_segmentation(loud, bridge, r1),
        is_segmentation(loud, bridge, r2),
        0 <= m <= r1.len(),
        m <= r2.len(),
    ensures
        forall|i: int| 0 <= i < m ==> r1[i] == r2[i],
    decreases m,
{
    if m > 0 {
        lemma_segmentation_prefix_agrees(loud, bridge, r1, r2, m - 1);
        let i = m - 1;
        let j = lemma_cover_of_start(loud, bridge, r1, r2, i);
        if j < i {
            assert(r1[j] == r2[j]);
            assert(r1[j].1 < r1[i].0);
        } else if j > i {
            let i2 = lemma_cover_of_start(loud, bridge, r2, r1, i);
            if i2 < i {
                assert(r1[i2] == r2[i2]);
                assert(r2[i2].1 < r2[i].0);
            } else if i2 > i {
                assert(r1[i].1 < r1[i2].0);
                assert(r2[i].1 < r2[j].0);
            } else {
                assert(r2[i].1 < r2[j].0);
            }
        }
    }
}

/// A segmentation cannot have a span beyond those of another one that agrees
/// with it on a prefix of its whole length.
proof fn lemma_extra_span_impossible(loud: Seq<bool>, bridge: int, r1: Seq<(usize, usize)>, r2: Seq<(usize, usize)>)
    requires
        bridge >= 0,
        is_segmentation(loud, bridge, r1),
        is_segmentation(loud, bridge, r2),
        r1.len() <= r2.len(),
        forall|i: int| 0 <= i < r1.len() ==> r1[i] == r2[i],
    ensures
        r1.len() == r2.len(),
{
    if r1.len() < r2.len() {
        let i = r1.len() as int;
        let j = lemma_cover_of_start(loud, bridge, r2, r1, i);
        assert(r1[j] == r2[j]);
        assert(r2[j].1 < r2[i].0);
    }
}

} // verus!
