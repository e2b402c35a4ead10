//! The map from device frames to source time.
//!
//! "One device frame played is one source frame of musical time" holds until an
//! effect changes time. From then on the chain records markers, and a position
//! is found by going on from the last marker at the pace it gives.
//!
//! Source time is counted in ticks. The chain makes one second of
//! `rate * 2^32` of them, so that the pace of a marker, in ticks per device
//! frame, is the time ratio in thirty-two bits behind the point, and nothing
//! is ever rounded.
use std::collections::VecDeque;

use vstd::prelude::*;

verus! {

/// A run at one pace that still projects within this many milliseconds of the
/// exact source time goes on under the marker it has.
pub const COALESCE_MS: u128 = 2;

/// The latest source time that can be recorded, in ticks.
pub const SOURCE_LIMIT: u128 = 0x4000_0000_0000_0000_0000_0000_0000_0000;

/// The fastest pace a timeline holds, in ticks per frame.
pub const PACE_LIMIT: u64 = 0x4000_0000_0000_0000;

/// The most ticks that make a second.
pub const SECOND_LIMIT: u128 = 0x1_0000_0000_0000_0000;

/// One point of the map. Audio from `device_frame` on advances source time by
/// `pace` ticks a frame, until the next marker says otherwise.
#[derive(Clone, Copy, Debug)]
pub struct Marker {
    pub device_frame: u64,
    pub source: u128,
    pub pace: u64,
}

/// Source time at `frame`, going by marker `m`.
pub open spec fn projected(m: Marker, frame: int) -> int {
    m.source + (frame - m.device_frame) * m.pace
}

/// Source time at `frame`: that of the last marker at or before it.
pub open spec fn lookup(markers: Seq<Marker>, frame: int) -> Option<int>
    decreases markers.len(),
{
    if markers.len() == 0 {
        None
    } else if markers.last().device_frame <= frame {
        Some(projected(markers.last(), frame))
    } else {
        lookup(markers.drop_last(), frame)
    }
}

/// Markers come in order, each later than the one before it and at no earlier
/// source time.
pub open spec fn ordered(markers: Seq<Marker>) -> bool {
    forall|i: int, j: int|
        0 <= i < j < markers.len() ==> {
            &&& (#[trigger] markers[i]).device_frame < (#[trigger] markers[j]).device_frame
            &&& markers[i].source <= markers[j].source
        }
}

/// Whether two source times lie within the coalescing tolerance.
pub open spec fn close(a: int, b: int, second: int) -> bool {
    (if a >= b {
        a - b
    } else {
        b - a
    }) * 1000 < COALESCE_MS * second
}

/// Each marker takes over at or past the source time that the one before it
/// has got to.
pub open spec fn continuous(markers: Seq<Marker>) -> bool {
    forall|i: int, j: int|
        0 <= i < j < markers.len() && j == i + 1 ==> projected(
            #[trigger] markers[i],
            (#[trigger] markers[j]).device_frame as int,
        ) <= markers[j].source
}

/// No marker lies past what the latest source time and the fastest pace allow.
pub open spec fn bounded(markers: Seq<Marker>) -> bool {
    forall|i: int|
        0 <= i < markers.len() ==> {
            &&& (#[trigger] markers[i]).source <= SOURCE_LIMIT + markers[i].device_frame
                * PACE_LIMIT
            &&& markers[i].pace <= PACE_LIMIT
        }
}

/// What holds of the markers of every timeline.
pub open spec fn sound(markers: Seq<Marker>) -> bool {
    &&& ordered(markers)
    &&& continuous(markers)
    &&& bounded(markers)
}

/// `source`, raised to where the last marker has got to by `device_frame`.
pub open spec fn raised(markers: Seq<Marker>, device_frame: u64, source: u128) -> int {
    if markers.len() > 0 && projected(markers.last(), device_frame as int) > source {
        projected(markers.last(), device_frame as int)
    } else {
        source as int
    }
}

/// The markers after output written at `device_frame` was noted to sit at
/// `source` and to advance by `pace`. A record from behind the last marker is
/// dropped, source time is held to what the last marker has got to, and a
/// steady run adds nothing.
pub open spec fn recorded(
    markers: Seq<Marker>,
    second: int,
    device_frame: u64,
    source: u128,
    pace: u64,
) -> Seq<Marker> {
    if markers.len() == 0 {
        seq![Marker { device_frame, source, pace }]
    } else {
        let last = markers.last();
        let held = raised(markers, device_frame, source);
        let marker = Marker { device_frame, source: held as u128, pace };
        if device_frame < last.device_frame {
            markers
        } else if device_frame == last.device_frame {
            markers.drop_last().push(marker)
        } else if last.pace == pace && close(
            projected(last, device_frame as int),
            held,
            second,
        ) {
            markers
        } else {
            markers.push(marker)
        }
    }
}

/// The markers left when nothing before `keep_from` will be looked up again.
pub open spec fn pruned(markers: Seq<Marker>, keep_from: u64) -> Seq<Marker>
    decreases markers.len(),
{
    if markers.len() > 1 && markers[1].device_frame <= keep_from {
        pruned(markers.skip(1), keep_from)
    } else {
        markers
    }
}

/// The device-frame to source-time map. It is empty until a time-changing
/// effect produces audio.
#[derive(Debug)]
pub struct Timeline {
    markers: VecDeque<Marker>,
    second: u128,
}

impl Timeline {
    /// The markers, in order.
    pub closed spec fn markers(&self) -> Seq<Marker> {
        self.markers@
    }

    /// How many ticks make a second.
    pub closed spec fn second(&self) -> nat {
        self.second as nat
    }

    /// What holds between calls.
    pub closed spec fn wf(&self) -> bool {
        &&& sound(self.markers@)
        &&& self.second <= SECOND_LIMIT
    }

    /// The markers of a timeline are sound, which is what the laws of this
    /// module ask for.
    pub proof fn markers_are_sound(&self)
        requires
            self.wf(),
        ensures
            sound(self.markers()),
            self.second() <= SECOND_LIMIT,
    {
    }

    /// An empty map that counts `second` ticks to a second.
    pub fn new(second: u128) -> (timeline: Self)
        requires
            second <= SECOND_LIMIT,
        ensures
            timeline.wf(),
            timeline.second() == second,
            timeline.markers() == Seq::<Marker>::empty(),
    {
        Timeline { markers: VecDeque::new(), second }
    }

    /// How many markers there are.
    pub fn len(&self) -> (n: usize)
        ensures
            n == self.markers().len(),
    {
        self.markers.len()
    }

    /// Forgets every marker.
    pub fn clear(&mut self)
        requires
            old(self).wf(),
        ensures
            final(self).wf(),
            final(self).second() == old(self).second(),
            final(self).markers() == Seq::<Marker>::empty(),
    {
        self.markers.clear();
    }

    /// Notes that output written at `device_frame` sits at `source` and
    /// advances by `pace`. What would go back is held where the map has got to.
    pub fn record(&mut self, device_frame: u64, source: u128, pace: u64)
        requires
            old(self).wf(),
            source <= SOURCE_LIMIT,
            pace <= PACE_LIMIT,
        ensures
            final(self).wf(),
            final(self).second() == old(self).second(),
            final(self).markers() == recorded(
                old(self).markers(),
                old(self).second() as int,
                device_frame,
                source,
                pace,
            ),
    {
        let n: usize = self.markers.len();
        if n == 0 {
            self.markers.push_back(Marker { device_frame, source, pace });
            return ;
        }
        let last: Marker = self.markers[n - 1];
        if device_frame < last.device_frame {
            return ;
        }
        let ahead: u128 = project(last, device_frame);
        let held: u128 = if source >= ahead {
            source
        } else {
            ahead
        };
        let marker = Marker { device_frame, source: held, pace };
        proof {
            recording_keeps_the_map_sound(
                self.markers@,
                self.second as int,
                device_frame,
                source,
                pace,
            );
        }
        if device_frame == last.device_frame {
            self.markers.pop_back();
            self.markers.push_back(marker);
            return ;
        }
        if last.pace == pace {
            let off: u128 = held - ahead;
            if off < (COALESCE_MS * self.second + 999) / 1000 {
                return ;
            }
        }
        self.markers.push_back(marker);
    }

    /// Source time at `device_frame` in ticks, or `None` where no marker
    /// covers it: there every device frame was one source frame.
    pub fn stream_secs(&self, device_frame: u64) -> (found: Option<u128>)
        requires
            self.wf(),
        ensures
            match lookup(self.markers(), device_frame as int) {
                Some(at) => found is Some && found->0 == at,
                None => found is None,
            },
    {
        let mut i: usize = self.markers.len();
        assert(self.markers@.take(i as int) =~= self.markers@);
        while i > 0
            invariant
                i <= self.markers@.len(),
                self.wf(),
                lookup(self.markers@, device_frame as int) == lookup(
                    self.markers@.take(i as int),
                    device_frame as int,
                ),
            decreases i,
        {
            let marker: Marker = self.markers[i - 1];
            assert(self.markers@.take(i as int).last() == marker);
            assert(self.markers@.take(i as int).drop_last() =~= self.markers@.take(i - 1));
            if marker.device_frame <= device_frame {
                return Some(project(marker, device_frame));
            }
            i -= 1;
        }
        None
    }

    /// Drops the markers wholly behind `keep_from`, keeping the one in force.
    pub fn prune(&mut self, keep_from: u64)
        requires
            old(self).wf(),
        ensures
            final(self).wf(),
            final(self).second() == old(self).second(),
            final(self).markers() == pruned(old(self).markers(), keep_from),
    {
        while self.markers.len() > 1 && self.markers[1].device_frame <= keep_from
            invariant
                self.wf(),
                self.second == old(self).second,
                pruned(self.markers@, keep_from) == pruned(old(self).markers@, keep_from),
            decreases self.markers@.len(),
        {
            let ghost before = self.markers@;
            self.markers.pop_front();
            assert(self.markers@ =~= before.skip(1));
            proof {
                lemma_skipping_keeps_sound(before);
            }
        }
    }
}

/// Source time at `frame`, going by `marker`.
fn project(marker: Marker, frame: u64) -> (ticks: u128)
    requires
        marker.device_frame <= frame,
        marker.source <= SOURCE_LIMIT + marker.device_frame * PACE_LIMIT,
        marker.pace <= PACE_LIMIT,
    ensures
        ticks == projected(marker, frame as int),
        ticks <= SOURCE_LIMIT + frame * PACE_LIMIT,
{
    let frames: u128 = (frame - marker.device_frame) as u128;
    assert(frames * marker.pace <= frames * PACE_LIMIT) by (nonlinear_arith)
        requires
            marker.pace <= PACE_LIMIT,
    ;
    marker.source + frames * marker.pace as u128
}

/// The bound on a marker holds of all it projects.
proof fn lemma_projected_is_bounded(marker: Marker, frame: int)
    requires
        marker.device_frame <= frame,
        marker.source <= SOURCE_LIMIT + marker.device_frame * PACE_LIMIT,
        marker.pace <= PACE_LIMIT,
    ensures
        marker.source <= projected(marker, frame) <= SOURCE_LIMIT + frame * PACE_LIMIT,
        frame == marker.device_frame ==> projected(marker, frame) == marker.source,
{
    let frames = frame - marker.device_frame;
    assert(0 <= frames * marker.pace <= frames * PACE_LIMIT) by (nonlinear_arith)
        requires
            marker.pace <= PACE_LIMIT,
            0 <= frames,
    ;
    assert(frames == 0 ==> frames * marker.pace == 0) by (nonlinear_arith);
}

/// A map without its first marker is as sound as before.
proof fn lemma_skipping_keeps_sound(markers: Seq<Marker>)
    requires
        sound(markers),
        markers.len() > 0,
    ensures
        sound(markers.skip(1)),
{
    let rest = markers.skip(1);
    assert forall|i: int, j: int| 0 <= i < j < rest.len() && j == i + 1 implies projected(
        #[trigger] rest[i],
        (#[trigger] rest[j]).device_frame as int,
    ) <= rest[j].source by {
        assert(rest[i] == markers[i + 1]);
        assert(projected(markers[i + 1], markers[i + 2].device_frame as int)
            <= markers[i + 2].source);
    }
}

/// Source time is known from the first marker on, and only there.
pub proof fn covered_from_the_first_marker_on(markers: Seq<Marker>, frame: int)
    requires
        ordered(markers),
    ensures
        lookup(markers, frame) is Some <==> markers.len() > 0 && markers[0].device_frame <= frame,
    decreases markers.len(),
{
    if markers.len() > 0 {
        covered_from_the_first_marker_on(markers.drop_last(), frame);
        if markers.len() > 1 {
            assert(markers[0].device_frame < markers[markers.len() - 1].device_frame);
        }
    }
}

/// Dropping the first marker changes nothing from the second one on.
proof fn lemma_lookup_skips_first(markers: Seq<Marker>, frame: int)
    requires
        ordered(markers),
        markers.len() > 1,
        markers[1].device_frame <= frame,
    ensures
        lookup(markers.skip(1), frame) == lookup(markers, frame),
    decreases markers.len(),
{
    assert(markers.skip(1).last() == markers.last());
    if markers.last().device_frame > frame {
        assert(markers.len() > 2);
        assert(markers.skip(1).drop_last() =~= markers.drop_last().skip(1));
        lemma_lookup_skips_first(markers.drop_last(), frame);
    }
}

/// Pruning changes no answer from `keep_from` on.
pub proof fn pruning_keeps_what_can_be_looked_up(
    markers: Seq<Marker>,
    keep_from: u64,
    frame: int,
)
    requires
        sound(markers),
        keep_from <= frame,
    ensures
        lookup(pruned(markers, keep_from), frame) == lookup(markers, frame),
        sound(pruned(markers, keep_from)),
    decreases markers.len(),
{
    if markers.len() > 1 && markers[1].device_frame <= keep_from {
        lemma_lookup_skips_first(markers, frame);
        lemma_skipping_keeps_sound(markers);
        pruning_keeps_what_can_be_looked_up(markers.skip(1), keep_from, frame);
    }
}

/// A record changes no answer for audio written before it.
pub proof fn recording_keeps_the_past(
    markers: Seq<Marker>,
    second: int,
    device_frame: u64,
    source: u128,
    pace: u64,
    frame: int,
)
    requires
        frame < device_frame,
    ensures
        lookup(recorded(markers, second, device_frame, source, pace), frame) == lookup(
            markers,
            frame,
        ),
{
    let after = recorded(markers, second, device_frame, source, pace);
    if markers.len() > 0 && after != markers {
        if device_frame == markers.last().device_frame {
            assert(after.drop_last() =~= markers.drop_last());
        } else {
            assert(after.drop_last() =~= markers);
        }
    } else if markers.len() == 0 {
        assert(after.drop_last() =~= markers);
    }
}

/// Whatever is recorded, the map stays sound.
pub proof fn recording_keeps_the_map_sound(
    markers: Seq<Marker>,
    second: int,
    device_frame: u64,
    source: u128,
    pace: u64,
)
    requires
        sound(markers),
        source <= SOURCE_LIMIT,
        pace <= PACE_LIMIT,
    ensures
        sound(recorded(markers, second, device_frame, source, pace)),
{
    let after = recorded(markers, second, device_frame, source, pace);
    let n = markers.len() as int;
    if n > 0 && device_frame >= markers.last().device_frame {
        let held = raised(markers, device_frame, source);
        lemma_projected_is_bounded(markers.last(), device_frame as int);
        assert(held <= SOURCE_LIMIT + device_frame * PACE_LIMIT);
        assert(held as u128 == held);
        assert forall|i: int, j: int| 0 <= i < j < after.len() && j == i + 1 implies projected(
            #[trigger] after[i],
            (#[trigger] after[j]).device_frame as int,
        ) <= after[j].source by {
            assert(after[i] == markers[i]);
            if i + 1 < n {
                assert(projected(markers[i], markers[i + 1].device_frame as int)
                    <= markers[i + 1].source);
            }
        }
        assert(ordered(after)) by {
            assert forall|i: int, j: int| 0 <= i < j < after.len() implies {
                &&& (#[trigger] after[i]).device_frame < (#[trigger] after[j]).device_frame
                &&& after[i].source <= after[j].source
            } by {
                assert(after[i] == markers[i]);
                if i < n - 1 {
                    assert(markers[i].device_frame < markers[n - 1].device_frame);
                }
                if j < n {
                    assert(markers[i].device_frame < markers[j].device_frame);
                }
            }
        }
    }
}

/// A record in order is answered with the source time it gave, raised to what
/// the map had got to where it fell behind, to within the tolerance.
pub proof fn a_record_is_answered(
    markers: Seq<Marker>,
    second: int,
    device_frame: u64,
    source: u128,
    pace: u64,
)
    requires
        sound(markers),
        source <= SOURCE_LIMIT,
        second > 0,
        markers.len() > 0 ==> markers.last().device_frame <= device_frame,
    ensures
        lookup(
            recorded(markers, second, device_frame, source, pace),
            device_frame as int,
        ) matches Some(at) && close(at, raised(markers, device_frame, source), second),
{
    let after = recorded(markers, second, device_frame, source, pace);
    if markers.len() > 0 {
        lemma_projected_is_bounded(markers.last(), device_frame as int);
    }
    let same = projected(after.last(), device_frame as int);
    if after.last().device_frame == device_frame {
        assert(same == after.last().source) by {
            assert((device_frame - after.last().device_frame) * after.last().pace == 0)
                by (nonlinear_arith)
                requires
                    device_frame == after.last().device_frame,
            ;
        }
    }
}

/// The marker in force at `frame` is the last one at or before it.
proof fn lemma_lookup_at(markers: Seq<Marker>, k: int, frame: int)
    requires
        ordered(markers),
        0 <= k < markers.len(),
        markers[k].device_frame <= frame,
        k + 1 < markers.len() ==> frame < markers[k + 1].device_frame,
    ensures
        lookup(markers, frame) == Some(projected(markers[k], frame)),
    decreases markers.len(),
{
    if k + 1 < markers.len() {
        let last = markers.len() - 1;
        if k + 1 < last {
            assert(markers[k + 1].device_frame < markers[last].device_frame);
        }
        lemma_lookup_at(markers.drop_last(), k, frame);
    }
}

/// Source time never goes back while device frames go forward: the map of
/// every timeline is monotonic.
pub proof fn positions_never_go_back(markers: Seq<Marker>, earlier: int, later: int)
    requires
        sound(markers),
        earlier <= later,
        lookup(markers, earlier) is Some,
    ensures
        lookup(markers, later) is Some,
        lookup(markers, earlier)->0 <= lookup(markers, later)->0,
    decreases markers.len(),
{
    let last = markers.last();
    if last.device_frame <= earlier {
        assert((earlier - last.device_frame) * last.pace <= (later - last.device_frame) * last.pace)
            by (nonlinear_arith)
            requires
                earlier <= later,
        ;
    } else {
        let rest = markers.drop_last();
        assert(continuous(rest)) by {
            assert forall|i: int, j: int| 0 <= i < j < rest.len() && j == i + 1 implies projected(
                #[trigger] rest[i],
                (#[trigger] rest[j]).device_frame as int,
            ) <= rest[j].source by {
                assert(rest[i] == markers[i]);
            }
        }
        if last.device_frame > later {
            positions_never_go_back(rest, earlier, later);
        } else {
            positions_never_go_back(rest, earlier, last.device_frame as int);
            let n = markers.len();
            covered_from_the_first_marker_on(rest, earlier);
            assert(n >= 2);
            assert(markers[n - 2].device_frame < last.device_frame);
            lemma_lookup_at(rest, n - 2, last.device_frame as int);
            assert(projected(markers[n - 2], last.device_frame as int) <= last.source);
            lemma_projected_is_bounded(last, later);
        }
    }
}

} // verus!
