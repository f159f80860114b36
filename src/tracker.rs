//! The tracker: greedy association of each frame's detections with the live
//! tracks, creation of tracks for what is left, and removal of stale tracks.
use vstd::prelude::*;
use crate::detection::{corners_of, Detection};
use crate::geometry::{
    intersection_area, lemma_positive_overlap, overlap_height, overlap_width, ratio_greater,
    union_area, EPSILON_AREA, IOU_ONE,
};
use crate::track::{describes, matched, missed, stale, started, Track, TrackView};

verus! {

/// One object of a frame's output, in millionths of the frame side.
#[derive(Clone, Copy, Debug, PartialEq, Eq, Structural)]
pub struct TrackedObject {
    pub id: u32,
    pub x: i32,
    pub y: i32,
    pub width: i32,
    pub height: i32,
}

/// What one call of `Tracker::update` reports for its frame.
#[derive(Debug)]
pub struct FrameOutput {
    pub frame_id: u32,
    pub timestamp: String,
    pub tracked_objects: Vec<TrackedObject>,
}

pub struct Tracker {
    tracks: Vec<Track>,
    next_id: u32,
    max_missing: u32,
    iou_threshold: u32,
}

/// What a tracker holds, as mathematical values.
pub struct TrackerView {
    /// Live tracks, oldest first.
    pub tracks: Seq<TrackView>,
    /// Identity that the next new track receives.
    pub next_id: int,
    pub max_missing: int,
    /// Least intersection over union, in millionths, that a match must exceed.
    pub iou_threshold: int,
}

pub open spec fn track_views(v: Seq<Track>) -> Seq<TrackView> {
    v.map_values(|t: Track| t@)
}

impl View for Tracker {
    type V = TrackerView;

    closed spec fn view(&self) -> TrackerView {
        TrackerView {
            tracks: track_views(self.tracks@),
            next_id: self.next_id as int,
            max_missing: self.max_missing as int,
            iou_threshold: self.iou_threshold as int,
        }
    }
}

/// Identities strictly increase along the sequence.
pub open spec fn ids_increasing(v: Seq<TrackView>) -> bool {
    forall|i: int, j: int| 0 <= i < j < v.len() ==> #[trigger] v[i].id < #[trigger] v[j].id
}

/// Live identities are positive, strictly increasing from the oldest track
/// on, and below the identity that the next track will receive.
pub open spec fn ids_fresh(s: TrackerView) -> bool {
    &&& 1 <= s.next_id
    &&& ids_increasing(s.tracks)
    &&& forall|i: int| 0 <= i < s.tracks.len() ==> 1 <= #[trigger] s.tracks[i].id < s.next_id
}

/// The settings and the next identity fit their machine types, no live
/// track has been missed more often than the tracker allows, and identities
/// are fresh.
pub open spec fn tracker_wf(s: TrackerView) -> bool {
    &&& 0 <= s.max_missing <= u32::MAX
    &&& 0 <= s.iou_threshold <= u32::MAX
    &&& s.next_id <= u32::MAX
    &&& forall|i: int| 0 <= i < s.tracks.len() ==> !#[trigger] stale(s.tracks[i], s.max_missing)
    &&& ids_fresh(s)
}

/// Intersection area of track `t`'s box with detection `d`'s box.
pub open spec fn overlap_num(t: TrackView, d: Detection) -> int {
    intersection_area(t.bbox, corners_of(d))
}

/// Union area of the two boxes plus `EPSILON_AREA`: the overlap of `t` with
/// `d` is `overlap_num(t, d) / overlap_den(t, d)`.
pub open spec fn overlap_den(t: TrackView, d: Detection) -> int {
    union_area(t.bbox, corners_of(d)) + EPSILON_AREA
}

/// The overlap of `t` with `d` exceeds `thr` millionths.
pub open spec fn qualifies(t: TrackView, d: Detection, thr: int) -> bool {
    overlap_den(t, d) > 0 && overlap_num(t, d) * IOU_ONE > thr * overlap_den(t, d)
}

/// The overlap of `t` with `d1` is strictly greater than with `d2`.
pub open spec fn overlaps_more(t: TrackView, d1: Detection, d2: Detection) -> bool {
    overlap_num(t, d1) * overlap_den(t, d2) > overlap_num(t, d2) * overlap_den(t, d1)
}

/// At threshold zero a detection qualifies exactly when its box overlaps the
/// track's box with a positive area, however small.
pub proof fn lemma_qualifies_at_zero(t: TrackView, d: Detection)
    ensures
        qualifies(t, d, 0) <==> overlap_num(t, d) > 0,
{
    lemma_positive_overlap(t.bbox, corners_of(d));
    let n = overlap_num(t, d);
    assert(n >= 0) by {
        let w = overlap_width(t.bbox, corners_of(d));
        let h = overlap_height(t.bbox, corners_of(d));
        assert(w * h >= 0) by (nonlinear_arith)
            requires w >= 0, h >= 0;
    }
}

/// Among the first `n` detections, the one not yet `taken` whose overlap with
/// `t` exceeds `thr` and is greatest; of equal overlaps the earliest.
pub open spec fn best_among(
    t: TrackView,
    dets: Seq<Detection>,
    taken: Seq<bool>,
    thr: int,
    n: int,
) -> Option<int>
    decreases n,
{
    if n <= 0 {
        None
    } else {
        let prev = best_among(t, dets, taken, thr, n - 1);
        let better = match prev {
            Some(j) => overlaps_more(t, dets[n - 1], dets[j]),
            None => true,
        };
        if !taken[n - 1] && qualifies(t, dets[n - 1], thr) && better {
            Some(n - 1)
        } else {
            prev
        }
    }
}

/// Each track in turn, oldest first, takes its best detection among those that
/// earlier tracks left, or counts a miss. Gives the tracks after that and which
/// detections were taken.
pub open spec fn associate(
    tracks: Seq<TrackView>,
    dets: Seq<Detection>,
    taken: Seq<bool>,
    frame: int,
    thr: int,
) -> (Seq<TrackView>, Seq<bool>)
    decreases tracks.len(),
{
    if tracks.len() == 0 {
        (Seq::empty(), taken)
    } else {
        let (done, now_taken) = associate(tracks.drop_last(), dets, taken, frame, thr);
        let t = tracks.last();
        match best_among(t, dets, now_taken, thr, dets.len() as int) {
            Some(i) => (done.push(matched(t, dets[i], frame)), now_taken.update(i, true)),
            None => (done.push(missed(t)), now_taken),
        }
    }
}

/// New tracks for the detections among the first `n` that are not `taken`, in
/// their order, numbered from `next_id` on.
pub open spec fn spawned(
    dets: Seq<Detection>,
    taken: Seq<bool>,
    next_id: int,
    frame: int,
    n: int,
) -> Seq<TrackView>
    decreases n,
{
    if n <= 0 {
        Seq::empty()
    } else {
        let prev = spawned(dets, taken, next_id, frame, n - 1);
        if !taken[n - 1] {
            prev.push(started(next_id + prev.len(), dets[n - 1], frame))
        } else {
            prev
        }
    }
}

pub open spec fn none_taken(n: int) -> Seq<bool> {
    Seq::new(n as nat, |i: int| false)
}

/// The tracks after association on a frame, then the tracks it starts.
pub open spec fn associated_and_spawned(
    s: TrackerView,
    frame: int,
    dets: Seq<Detection>,
) -> Seq<TrackView> {
    let (done, taken) = associate(s.tracks, dets, none_taken(dets.len() as int), frame, s.iou_threshold);
    done + spawned(dets, taken, s.next_id, frame, dets.len() as int)
}

/// The number of tracks that frame `frame` with detections `dets` starts.
pub open spec fn spawn_count(s: TrackerView, frame: int, dets: Seq<Detection>) -> int {
    let (done, taken) = associate(s.tracks, dets, none_taken(dets.len() as int), frame, s.iou_threshold);
    spawned(dets, taken, s.next_id, frame, dets.len() as int).len() as int
}

pub open spec fn not_stale(max: int) -> spec_fn(TrackView) -> bool {
    |t: TrackView| !stale(t, max)
}

pub open spec fn seen_on(frame: int) -> spec_fn(TrackView) -> bool {
    |t: TrackView| t.last_seen == frame
}

/// The tracker after one update with detections `dets` on frame `frame`.
pub open spec fn after_update(s: TrackerView, frame: int, dets: Seq<Detection>) -> TrackerView {
    TrackerView {
        tracks: associated_and_spawned(s, frame, dets).filter(not_stale(s.max_missing)),
        next_id: s.next_id + spawn_count(s, frame, dets),
        ..s
    }
}

/// The tracks that an update on frame `frame` reports, given the tracker
/// after it.
pub open spec fn reported(after: TrackerView, frame: int) -> Seq<TrackView> {
    after.tracks.filter(seen_on(frame))
}

pub open spec fn opt_index(o: Option<usize>) -> Option<int> {
    match o {
        Some(i) => Some(i as int),
        None => None,
    }
}

/// The detection that `track` takes on this frame, if any.
pub fn best_match(track: &Track, dets: &[Detection], assigned: &Vec<bool>, thr: u32) -> (r:
    Option<usize>)
    requires
        assigned@.len() == dets@.len(),
    ensures
        opt_index(r) == best_among(track@, dets@, assigned@, thr as int, dets@.len() as int),
        match r {
            Some(i) => {
                &&& i < dets@.len()
                &&& !assigned@[i as int]
                &&& qualifies(track@, dets@[i as int], thr as int)
                &&& forall|j: int|
                    0 <= j < dets@.len() && !assigned@[j] && qualifies(
                        track@,
                        #[trigger] dets@[j],
                        thr as int,
                    ) ==> !overlaps_more(track@, dets@[j], dets@[i as int]) && (j < i
                        ==> overlaps_more(track@, dets@[i as int], dets@[j]))
            },
            None => forall|j: int|
                0 <= j < dets@.len() && !assigned@[j] ==> !qualifies(
                    track@,
                    #[trigger] dets@[j],
                    thr as int,
                ),
        },
{
    let mut best: Option<usize> = None;
    let mut best_num: i128 = 0;
    let mut best_den: i128 = 1;
    let n = dets.len();
    let mut i: usize = 0;
    while i < n
        invariant
            n == dets@.len(),
            assigned@.len() == n,
            i <= n,
            opt_index(best) == best_among(track@, dets@, assigned@, thr as int, i as int),
            0 <= best_num <= 0x40_0000_0000_0000_0000,
            0 < best_den <= 0x200_0000_0000_0000_0000,
            match best {
                Some(j) => j < i && best_num as int == overlap_num(track@, dets@[j as int])
                    && best_den as int == overlap_den(track@, dets@[j as int]),
                None => true,
            },
        decreases n - i,
    {
        if !assigned[i] {
            let (num, den) = track.overlap(&dets[i]);
            proof {
                let t = thr as int;
                let dd = den as int;
                assert(-(0x1_0000_0000 * 0x200_0000_0000_0000_0000) <= t * dd <= 0x1_0000_0000
                    * 0x200_0000_0000_0000_0000) by (nonlinear_arith)
                    requires
                        0 <= t < 0x1_0000_0000,
                        -0x200_0000_0000_0000_0000 <= dd <= 0x200_0000_0000_0000_0000;
                assert(0 <= num * IOU_ONE <= 0x40_0000_0000_0000_0000 * 1_000_000) by (nonlinear_arith)
                    requires 0 <= num <= 0x40_0000_0000_0000_0000;
            }
            if den > 0 && num * IOU_ONE > (thr as i128) * den {
                let more = match best {
                    Some(_) => ratio_greater(num as u128, den as u128, best_num as u128, best_den as u128),
                    None => true,
                };
                if more {
                    best_num = num;
                    best_den = den;
                    best = Some(i);
                }
            }
        }
        i = i + 1;
    }
    proof {
        lemma_best_characterized(track@, dets@, assigned@, thr as int, n as int);
    }
    best
}

proof fn lemma_more_transitive(nj: int, dj: int, np: int, dp: int, ns: int, ds: int)
    requires
        0 < dj,
        0 < dp,
        0 < ds,
        nj * dp <= np * dj,
        np * ds < ns * dp,
    ensures
        nj * ds < ns * dj,
{
    assert(nj * dp * ds <= np * dj * ds) by (nonlinear_arith)
        requires nj * dp <= np * dj, 0 < ds;
    assert(np * ds * dj < ns * dp * dj) by (nonlinear_arith)
        requires np * ds < ns * dp, 0 < dj;
    assert(nj * ds * dp < ns * dj * dp) by (nonlinear_arith)
        requires nj * dp * ds <= np * dj * ds, np * ds * dj < ns * dp * dj;
    assert(nj * ds < ns * dj) by (nonlinear_arith)
        requires nj * ds * dp < ns * dj * dp, 0 < dp;
}

/// The choice of `best_among`, stated directly: a detection not taken whose
/// overlap exceeds the threshold, whose overlap no other such detection
/// exceeds, and which strictly exceeds those before it; or none when no
/// detection left exceeds the threshold.
pub proof fn lemma_best_characterized(
    t: TrackView,
    dets: Seq<Detection>,
    taken: Seq<bool>,
    thr: int,
    n: int,
)
    requires
        0 <= n,
    ensures
        match best_among(t, dets, taken, thr, n) {
            Some(i) => {
                &&& 0 <= i < n
                &&& !taken[i]
                &&& qualifies(t, dets[i], thr)
                &&& forall|j: int|
                    0 <= j < n && !taken[j] && qualifies(t, #[trigger] dets[j], thr)
                        ==> !overlaps_more(t, dets[j], dets[i]) && (j < i ==> overlaps_more(
                        t,
                        dets[i],
                        dets[j],
                    ))
            },
            None => forall|j: int| 0 <= j < n && !taken[j] ==> !qualifies(t, #[trigger] dets[j], thr),
        },
    decreases n,
{
    if n > 0 {
        lemma_best_characterized(t, dets, taken, thr, n - 1);
        let s = dets[n - 1];
        match best_among(t, dets, taken, thr, n - 1) {
            Some(p) => {
                let dp = dets[p];
                if !taken[n - 1] && qualifies(t, s, thr) && overlaps_more(t, s, dp) {
                    assert forall|j: int|
                        0 <= j < n && !taken[j] && qualifies(t, #[trigger] dets[j], thr)
                            implies !overlaps_more(t, dets[j], s) && (j < n - 1 ==> overlaps_more(
                            t,
                            s,
                            dets[j],
                        )) by {
                        if j < n - 1 {
                            lemma_more_transitive(
                                overlap_num(t, dets[j]),
                                overlap_den(t, dets[j]),
                                overlap_num(t, dp),
                                overlap_den(t, dp),
                                overlap_num(t, s),
                                overlap_den(t, s),
                            );
                        }
                    }
                }
            },
            None => {},
        }
    }
}


/// Association keeps each track's place and identity; with no detections it
/// counts a miss for every track.
proof fn lemma_associate_ids(
    tracks: Seq<TrackView>,
    dets: Seq<Detection>,
    taken: Seq<bool>,
    frame: int,
    thr: int,
)
    ensures
        associate(tracks, dets, taken, frame, thr).0.len() == tracks.len(),
        forall|k: int|
            0 <= k < tracks.len() ==> (#[trigger] associate(tracks, dets, taken, frame, thr).0[k]).id
                == tracks[k].id,
        dets.len() == 0 ==> associate(tracks, dets, taken, frame, thr).0 =~= tracks.map_values(
            |t: TrackView| missed(t),
        ),
    decreases tracks.len(),
{
    if tracks.len() > 0 {
        lemma_associate_ids(tracks.drop_last(), dets, taken, frame, thr);
        let (done, now) = associate(tracks.drop_last(), dets, taken, frame, thr);
        assert(best_among(tracks.last(), dets, now, thr, 0) is None);
    }
}

/// Tracks started on a frame are numbered on from `next_id`, one each.
proof fn lemma_spawned_ids(dets: Seq<Detection>, taken: Seq<bool>, next_id: int, frame: int, n: int)
    requires
        0 <= n,
    ensures
        spawned(dets, taken, next_id, frame, n).len() <= n,
        forall|k: int|
            0 <= k < spawned(dets, taken, next_id, frame, n).len() ==> (#[trigger] spawned(
                dets,
                taken,
                next_id,
                frame,
                n,
            )[k]).id == next_id + k,
    decreases n,
{
    if n > 0 {
        lemma_spawned_ids(dets, taken, next_id, frame, n - 1);
    }
}

/// Filtering keeps identities increasing, and keeps only elements of the
/// sequence.
proof fn lemma_filter_ids(v: Seq<TrackView>, p: spec_fn(TrackView) -> bool)
    requires
        ids_increasing(v),
    ensures
        ids_increasing(v.filter(p)),
        forall|i: int|
            0 <= i < v.filter(p).len() ==> exists|j: int|
                0 <= j < v.len() && v[j] == #[trigger] v.filter(p)[i],
    decreases v.len(),
{
    reveal(Seq::filter);
    if v.len() > 0 {
        let w = v.drop_last();
        assert(ids_increasing(w));
        lemma_filter_ids(w, p);
        let f = w.filter(p);
        assert forall|i: int| 0 <= i < f.len() implies #[trigger] f[i].id < v.last().id by {
            let j = choose|j: int| 0 <= j < w.len() && w[j] == f[i];
            assert(w[j] == v[j]);
        }
        if p(v.last()) {
            assert forall|i: int| 0 <= i < v.filter(p).len() implies exists|j: int|
                0 <= j < v.len() && v[j] == #[trigger] v.filter(p)[i] by {
                if i == f.len() {
                    assert(v[v.len() - 1] == v.filter(p)[i]);
                } else {
                    let j = choose|j: int| 0 <= j < w.len() && w[j] == f[i];
                    assert(v[j] == v.filter(p)[i]);
                }
            }
        } else {
            assert forall|i: int| 0 <= i < v.filter(p).len() implies exists|j: int|
                0 <= j < v.len() && v[j] == #[trigger] v.filter(p)[i] by {
                let j = choose|j: int| 0 <= j < w.len() && w[j] == f[i];
                assert(v[j] == v.filter(p)[i]);
            }
        }
    }
}

/// With fresh identities, the tracks after association keep their
/// identities and the started ones follow them, numbered on from `next_id`.
pub proof fn lemma_all_ids(s: TrackerView, frame: int, dets: Seq<Detection>)
    requires
        ids_fresh(s),
    ensures
        associated_and_spawned(s, frame, dets).len() == s.tracks.len() + spawn_count(s, frame, dets),
        0 <= spawn_count(s, frame, dets) <= dets.len(),
        ids_increasing(associated_and_spawned(s, frame, dets)),
        forall|k: int|
            0 <= k < s.tracks.len() ==> (#[trigger] associated_and_spawned(s, frame, dets)[k]).id
                == s.tracks[k].id,
        forall|k: int|
            s.tracks.len() <= k < associated_and_spawned(s, frame, dets).len() ==> (
            #[trigger] associated_and_spawned(s, frame, dets)[k]).id == s.next_id + k
                - s.tracks.len(),
{
    let (done, taken) = associate(s.tracks, dets, none_taken(dets.len() as int), frame, s.iou_threshold);
    let born = spawned(dets, taken, s.next_id, frame, dets.len() as int);
    lemma_associate_ids(s.tracks, dets, none_taken(dets.len() as int), frame, s.iou_threshold);
    lemma_spawned_ids(dets, taken, s.next_id, frame, dets.len() as int);
    let all = done + born;
    assert(all == associated_and_spawned(s, frame, dets));
    assert forall|k: int| 0 <= k < s.tracks.len() implies (#[trigger] all[k]).id == s.tracks[k].id by {
        assert(all[k] == done[k]);
    }
    assert forall|k: int| s.tracks.len() <= k < all.len() implies (#[trigger] all[k]).id == s.next_id + k
        - s.tracks.len() by {
        assert(all[k] == born[k - s.tracks.len()]);
    }
    assert forall|i: int, j: int| 0 <= i < j < all.len() implies #[trigger] all[i].id < #[trigger] all[j].id by {
        if j < s.tracks.len() {
            assert(s.tracks[i].id < s.tracks[j].id);
        } else if i < s.tracks.len() {
            assert(s.tracks[i].id < s.next_id);
        }
    }
}

/// An update keeps the tracker well formed: the tracks it keeps are within
/// their miss allowance, identities stay strictly increasing and below
/// `next_id`, and the started tracks are numbered on from the old `next_id`,
/// so that no identity is ever given twice.
pub proof fn lemma_update_keeps_wf(s: TrackerView, frame: int, dets: Seq<Detection>)
    requires
        tracker_wf(s),
        s.next_id + dets.len() <= u32::MAX,
    ensures
        tracker_wf(after_update(s, frame, dets)),
        after_update(s, frame, dets).next_id == s.next_id + spawn_count(s, frame, dets),
        forall|k: int|
            0 <= k < spawn_count(s, frame, dets) ==> (#[trigger] associated_and_spawned(
                s,
                frame,
                dets,
            )[s.tracks.len() + k]).id == s.next_id + k,
{
    let all = associated_and_spawned(s, frame, dets);
    let p = not_stale(s.max_missing);
    let a = after_update(s, frame, dets);
    lemma_all_ids(s, frame, dets);
    lemma_filter_ids(all, p);
    broadcast use vstd::seq_lib::group_filter_ensures;
    assert forall|i: int| 0 <= i < a.tracks.len() implies 1 <= #[trigger] a.tracks[i].id < a.next_id
        && !stale(a.tracks[i], a.max_missing) by {
        let j = choose|j: int| 0 <= j < all.len() && all[j] == a.tracks[i];
        assert(p(a.tracks[i]));
        if j < s.tracks.len() {
            assert(1 <= s.tracks[j].id < s.next_id);
        }
    }
    assert forall|k: int| 0 <= k < spawn_count(s, frame, dets) implies (#[trigger] all[s.tracks.len()
        + k]).id == s.next_id + k by {
        assert(all[s.tracks.len() + k].id == s.next_id + (s.tracks.len() + k) - s.tracks.len());
    }
}

/// The view of a tracker just made, with no tracks and `next_id` 1.
pub open spec fn fresh(max_missing: int, iou_threshold: int) -> TrackerView {
    TrackerView { tracks: Seq::empty(), next_id: 1, max_missing, iou_threshold }
}

proof fn lemma_spawned_none_taken(dets: Seq<Detection>, next_id: int, frame: int, n: int)
    requires
        0 <= n <= dets.len(),
    ensures
        spawned(dets, none_taken(dets.len() as int), next_id, frame, n).len() == n,
    decreases n,
{
    if n > 0 {
        lemma_spawned_none_taken(dets, next_id, frame, n - 1);
    }
}

/// On a tracker just made, the first update starts one track per detection,
/// in their order, numbered 1, 2, and so on; the tracker stays well formed.
pub proof fn lemma_fresh_numbers_from_one(
    max_missing: int,
    iou_threshold: int,
    frame: int,
    dets: Seq<Detection>,
)
    requires
        0 <= max_missing <= u32::MAX,
        0 <= iou_threshold <= u32::MAX,
        dets.len() < u32::MAX,
    ensures
        tracker_wf(fresh(max_missing, iou_threshold)),
        spawn_count(fresh(max_missing, iou_threshold), frame, dets) == dets.len(),
        forall|k: int|
            0 <= k < dets.len() ==> (#[trigger] associated_and_spawned(
                fresh(max_missing, iou_threshold),
                frame,
                dets,
            )[k]).id == 1 + k,
{
    let s = fresh(max_missing, iou_threshold);
    let n = dets.len() as int;
    assert(associate(s.tracks, dets, none_taken(n), frame, iou_threshold) == (
    Seq::<TrackView>::empty(), none_taken(n)));
    lemma_spawned_none_taken(dets, 1, frame, n);
    lemma_update_keeps_wf(s, frame, dets);
    assert forall|k: int| 0 <= k < dets.len() implies (#[trigger] associated_and_spawned(s, frame, dets)[k]).id
        == 1 + k by {
        assert(associated_and_spawned(s, frame, dets)[0 + k].id == 1 + k);
    }
}

/// A tracker with one track, given one detection whose overlap with it
/// exceeds the threshold, reports exactly that track, matched with it: the
/// identity carries over to the new frame.
pub proof fn lemma_match_keeps_identity(s: TrackerView, frame: int, d: Detection)
    requires
        tracker_wf(s),
        s.tracks.len() == 1,
        qualifies(s.tracks[0], d, s.iou_threshold),
    ensures
        reported(after_update(s, frame, seq![d]), frame) == seq![matched(s.tracks[0], d, frame)],
        reported(after_update(s, frame, seq![d]), frame)[0].id == s.tracks[0].id,
        after_update(s, frame, seq![d]).tracks == seq![matched(s.tracks[0], d, frame)],
        after_update(s, frame, seq![d]).next_id == s.next_id,
{
    let dets = seq![d];
    let t = s.tracks[0];
    let m = matched(t, d, frame);
    assert(s.tracks.drop_last() =~= Seq::<TrackView>::empty());
    assert(none_taken(1) =~= seq![false]);
    assert(dets[0] == d);
    assert(!none_taken(1)[0]);
    assert(best_among(t, dets, none_taken(1), s.iou_threshold, 0) is None);
    assert(best_among(t, dets, none_taken(1), s.iou_threshold, 1) == Some(0int));
    assert(none_taken(1).update(0, true) =~= seq![true]);
    assert(associate(s.tracks.drop_last(), dets, none_taken(1), frame, s.iou_threshold) == (
    Seq::<TrackView>::empty(), none_taken(1)));
    assert(s.tracks.last() == t);
    let (done, taken) = associate(s.tracks, dets, none_taken(1), frame, s.iou_threshold);
    assert(done =~= seq![m]);
    assert(taken =~= seq![true]);
    assert(taken[0]);
    assert(spawned(dets, taken, s.next_id, frame, 0) =~= Seq::<TrackView>::empty());
    assert(spawned(dets, taken, s.next_id, frame, 1) =~= Seq::<TrackView>::empty());
    let all = associated_and_spawned(s, frame, dets);
    assert(all =~= seq![m]);
    assert(seq![m] =~= Seq::<TrackView>::empty().push(m));
    Seq::<TrackView>::empty().lemma_filter_push(m, not_stale(s.max_missing));
    reveal_with_fuel(Seq::filter, 1);
    let a = after_update(s, frame, dets);
    assert(a.tracks =~= seq![m]);
    assert(spawn_count(s, frame, dets) == 0);
    Seq::<TrackView>::empty().lemma_filter_push(m, seen_on(frame));
}

/// A track whose miss count, after association on a frame, exceeds what the
/// tracker allows is gone after that update: no live track, and so no
/// reported object, carries its identity.
pub proof fn lemma_stale_track_removed(s: TrackerView, frame: int, dets: Seq<Detection>, k: int)
    requires
        tracker_wf(s),
        s.next_id + dets.len() <= u32::MAX,
        0 <= k < s.tracks.len(),
        stale(associated_and_spawned(s, frame, dets)[k], s.max_missing),
    ensures
        forall|i: int|
            0 <= i < after_update(s, frame, dets).tracks.len() ==> (#[trigger] after_update(
                s,
                frame,
                dets,
            ).tracks[i]).id != s.tracks[k].id,
        forall|i: int|
            0 <= i < reported(after_update(s, frame, dets), frame).len() ==> (#[trigger] reported(
                after_update(s, frame, dets),
                frame,
            )[i]).id != s.tracks[k].id,
        s.tracks[k].id < after_update(s, frame, dets).next_id,
{
    let all = associated_and_spawned(s, frame, dets);
    let a = after_update(s, frame, dets);
    lemma_all_ids(s, frame, dets);
    lemma_filter_ids(all, not_stale(s.max_missing));
    lemma_update_keeps_wf(s, frame, dets);
    broadcast use vstd::seq_lib::group_filter_ensures;
    assert forall|i: int| 0 <= i < a.tracks.len() implies (#[trigger] a.tracks[i]).id != s.tracks[k].id by {
        let j = choose|j: int| 0 <= j < all.len() && all[j] == a.tracks[i];
        assert(not_stale(s.max_missing)(a.tracks[i]));
        if j < k {
            assert(all[j].id < all[k].id);
        } else if j > k {
            assert(all[k].id < all[j].id);
        }
    }
    lemma_filter_ids(a.tracks, seen_on(frame));
    let r = reported(a, frame);
    assert forall|i: int| 0 <= i < r.len() implies (#[trigger] r[i]).id != s.tracks[k].id by {
        let j = choose|j: int| 0 <= j < a.tracks.len() && a.tracks[j] == r[i];
    }
}

/// An identity below `next_id` that no live track carries is retired: after
/// an update still no live track, and so no reported object, carries it.
pub proof fn lemma_retired_identity_stays_retired(
    s: TrackerView,
    frame: int,
    dets: Seq<Detection>,
    id: int,
)
    requires
        tracker_wf(s),
        s.next_id + dets.len() <= u32::MAX,
        id < s.next_id,
        forall|i: int| 0 <= i < s.tracks.len() ==> (#[trigger] s.tracks[i]).id != id,
    ensures
        forall|i: int|
            0 <= i < after_update(s, frame, dets).tracks.len() ==> (#[trigger] after_update(
                s,
                frame,
                dets,
            ).tracks[i]).id != id,
        forall|i: int|
            0 <= i < reported(after_update(s, frame, dets), frame).len() ==> (#[trigger] reported(
                after_update(s, frame, dets),
                frame,
            )[i]).id != id,
{
    let all = associated_and_spawned(s, frame, dets);
    let a = after_update(s, frame, dets);
    lemma_all_ids(s, frame, dets);
    lemma_filter_ids(all, not_stale(s.max_missing));
    lemma_update_keeps_wf(s, frame, dets);
    assert forall|i: int| 0 <= i < a.tracks.len() implies (#[trigger] a.tracks[i]).id != id by {
        let j = choose|j: int| 0 <= j < all.len() && all[j] == a.tracks[i];
        if j < s.tracks.len() {
            assert(all[j].id == s.tracks[j].id);
        }
    }
    lemma_filter_ids(a.tracks, seen_on(frame));
    let r = reported(a, frame);
    assert forall|i: int| 0 <= i < r.len() implies (#[trigger] r[i]).id != id by {
        let j = choose|j: int| 0 <= j < a.tracks.len() && a.tracks[j] == r[i];
    }
}

/// The tracker after one update per frame of `frames`, in order; each frame
/// is its frame id and its detections.
pub open spec fn after_updates(s: TrackerView, frames: Seq<(int, Seq<Detection>)>) -> TrackerView
    decreases frames.len(),
{
    if frames.len() == 0 {
        s
    } else {
        after_updates(after_update(s, frames[0].0, frames[0].1), frames.skip(1))
    }
}

/// The number of detections over all of `frames`.
pub open spec fn total_detections(frames: Seq<(int, Seq<Detection>)>) -> int
    decreases frames.len(),
{
    if frames.len() == 0 {
        0
    } else {
        frames[0].1.len() + total_detections(frames.skip(1))
    }
}

/// A retired identity (below `next_id`, carried by no live track) never
/// comes back: after any sequence of later updates no live track carries it,
/// and the last of those updates reports no object with it.
pub proof fn lemma_retired_identity_never_returns(
    s: TrackerView,
    frames: Seq<(int, Seq<Detection>)>,
    id: int,
)
    requires
        tracker_wf(s),
        id < s.next_id,
        forall|i: int| 0 <= i < s.tracks.len() ==> (#[trigger] s.tracks[i]).id != id,
        s.next_id + total_detections(frames) <= u32::MAX,
    ensures
        tracker_wf(after_updates(s, frames)),
        forall|i: int|
            0 <= i < after_updates(s, frames).tracks.len() ==> (#[trigger] after_updates(
                s,
                frames,
            ).tracks[i]).id != id,
        frames.len() > 0 ==> forall|i: int|
            0 <= i < reported(after_updates(s, frames), frames.last().0).len() ==> (
            #[trigger] reported(after_updates(s, frames), frames.last().0)[i]).id != id,
    decreases frames.len(),
{
    if frames.len() > 0 {
        let (f0, d0) = frames[0];
        let rest = frames.skip(1);
        let s1 = after_update(s, f0, d0);
        assert(total_detections(frames) == d0.len() + total_detections(rest));
        assert(total_detections(rest) >= 0) by {
            lemma_total_detections_nonnegative(rest);
        }
        lemma_update_keeps_wf(s, f0, d0);
        lemma_all_ids(s, f0, d0);
        lemma_retired_identity_stays_retired(s, f0, d0, id);
        lemma_retired_identity_never_returns(s1, rest, id);
        if frames.len() > 1 {
            assert(rest.last() == frames.last());
        }
    }
}

proof fn lemma_total_detections_nonnegative(frames: Seq<(int, Seq<Detection>)>)
    ensures
        total_detections(frames) >= 0,
    decreases frames.len(),
{
    if frames.len() > 0 {
        lemma_total_detections_nonnegative(frames.skip(1));
    }
}

/// An update with no detections starts no track, leaves every track's box,
/// history and last frame as they were, and only adds one to each miss count
/// (then removes the tracks that this makes stale).
pub proof fn lemma_empty_frame_only_counts_misses(s: TrackerView, frame: int)
    ensures
        after_update(s, frame, Seq::empty()) == (TrackerView {
            tracks: s.tracks.map_values(|t: TrackView| missed(t)).filter(not_stale(s.max_missing)),
            ..s
        }),
{
    let dets = Seq::<Detection>::empty();
    lemma_associate_ids(s.tracks, dets, none_taken(0), frame, s.iou_threshold);
    let (done, taken) = associate(s.tracks, dets, none_taken(0), frame, s.iou_threshold);
    assert(done + spawned(dets, taken, s.next_id, frame, 0) =~= done);
}

proof fn lemma_views_remove_first(v: Seq<Track>)
    requires
        v.len() > 0,
    ensures
        track_views(v)[0] == v[0]@,
        track_views(v.remove(0)) =~= track_views(v).skip(1),
{
}

/// Filtering a prefix one element longer adds at most that element.
pub proof fn lemma_filter_take_step(v: Seq<TrackView>, p: spec_fn(TrackView) -> bool, q: int)
    requires
        0 <= q < v.len(),
    ensures
        v.take(q + 1).filter(p) == (if p(v[q]) {
            v.take(q).filter(p).push(v[q])
        } else {
            v.take(q).filter(p)
        }),
{
    assert(v.take(q + 1) =~= v.take(q).push(v[q]));
    v.take(q).lemma_filter_push(v[q], p);
}

impl Tracker {
    pub open spec fn wf(&self) -> bool {
        tracker_wf(self@)
    }

    /// A tracker with no tracks, whose first track will be numbered 1.
    /// `iou_threshold` is in millionths.
    pub fn new(max_missing: u32, iou_threshold: u32) -> (r: Tracker)
        ensures
            r@ == (TrackerView {
                tracks: Seq::empty(),
                next_id: 1,
                max_missing: max_missing as int,
                iou_threshold: iou_threshold as int,
            }),
            r.wf(),
    {
        let r = Tracker { tracks: Vec::new(), next_id: 1, max_missing, iou_threshold };
        assert(r@.tracks =~= Seq::<TrackView>::empty());
        r
    }

    /// Number of live tracks.
    pub fn track_count(&self) -> (r: usize)
        ensures
            r == self@.tracks.len(),
    {
        self.tracks.len()
    }

    /// Identity that the next new track will receive.
    pub fn next_id(&self) -> (r: u32)
        ensures
            r as int == self@.next_id,
    {
        self.next_id
    }

    /// Processes the detections of frame `frame_id`: matches them with the
    /// live tracks, starts tracks for the rest, removes tracks missed too
    /// often, and reports the tracks matched or started on this frame.
    pub fn update(&mut self, frame_id: u32, timestamp: &str, detections: &[Detection]) -> (out:
        FrameOutput)
        requires
            old(self).wf(),
            old(self)@.next_id + detections@.len() <= u32::MAX,
        ensures
            final(self).wf(),
            final(self)@ == after_update(old(self)@, frame_id as int, detections@),
            out.frame_id == frame_id,
            out.timestamp@ == timestamp@,
            out.tracked_objects@.len() == reported(final(self)@, frame_id as int).len(),
            forall|i: int|
                0 <= i < out.tracked_objects@.len() ==> describes(
                    #[trigger] out.tracked_objects@[i],
                    reported(final(self)@, frame_id as int)[i],
                ),
    {
        let ghost s = self@;
        let ghost dets = detections@;
        let ghost frame = frame_id as int;
        let n = detections.len();
        let mut assigned: Vec<bool> = Vec::new();
        let mut k: usize = 0;
        while k < n
            invariant
                k <= n,
                assigned@ == none_taken(k as int),
            decreases n - k,
        {
            assigned.push(false);
            k = k + 1;
            assert(assigned@ =~= none_taken(k as int));
        }

        // Each track in turn, oldest first, claims its best remaining detection.
        let mut rest: Vec<Track> = Vec::new();
        std::mem::swap(&mut rest, &mut self.tracks);
        let ghost old_tracks = s.tracks;
        assert(track_views(rest@) == old_tracks);
        let m = rest.len();
        let mut done: Vec<Track> = Vec::new();
        let mut i: usize = 0;
        while i < m
            invariant
                m == old_tracks.len(),
                i <= m,
                n == dets.len(),
                dets == detections@,
                frame == frame_id as int,
                assigned@.len() == n,
                rest@.len() == m - i,
                track_views(rest@) == old_tracks.skip(i as int),
                tracker_wf(s),
                self.next_id as int == s.next_id,
                self.max_missing as int == s.max_missing,
                s.next_id + n <= u32::MAX,
                s.tracks == old_tracks,
                s.max_missing == self.max_missing as int,
                s.iou_threshold == self.iou_threshold as int,
                (track_views(done@), assigned@) == associate(
                    old_tracks.take(i as int),
                    dets,
                    none_taken(n as int),
                    frame,
                    s.iou_threshold,
                ),
            decreases m - i,
        {
            let ghost rv = rest@;
            proof {
                lemma_views_remove_first(rv);
            }
            let mut t = rest.remove(0);
            assert(t@ == old_tracks[i as int]);
            assert(old_tracks.skip(i as int).skip(1) =~= old_tracks.skip(i + 1));
            assert(old_tracks.take(i + 1).drop_last() =~= old_tracks.take(i as int));
            assert(old_tracks.take(i + 1).last() == old_tracks[i as int]);
            assert(!stale(old_tracks[i as int], s.max_missing));
            let ghost before = done@;
            let ghost before_taken = assigned@;
            let ghost t0 = t@;
            let choice = best_match(&t, detections, &assigned, self.iou_threshold);
            match choice {
                Some(j) => {
                    t.update(&detections[j], frame_id);
                    assigned.set(j, true);
                },
                None => {
                    t.mark_missing();
                },
            }
            done.push(t);
            assert(track_views(done@) =~= track_views(before).push(t@));
            assert((track_views(done@), assigned@) == associate(
                old_tracks.take(i + 1),
                dets,
                none_taken(n as int),
                frame,
                s.iou_threshold,
            ));
            i = i + 1;
        }
        let ghost after_assoc = track_views(done@);
        let ghost taken = assigned@;
        assert(old_tracks.take(m as int) =~= old_tracks);

        // Detections that no track claimed start new tracks.
        assert(after_assoc + spawned(dets, taken, s.next_id, frame, 0) =~= after_assoc);
        let mut j: usize = 0;
        while j < n
            invariant
                j <= n,
                n == dets.len(),
                dets == detections@,
                frame == frame_id as int,
                assigned@ == taken,
                taken.len() == n,
                s.next_id + n <= u32::MAX,
                track_views(done@) == after_assoc + spawned(dets, taken, s.next_id, frame, j as int),
                self.next_id == s.next_id + spawned(dets, taken, s.next_id, frame, j as int).len(),
                spawned(dets, taken, s.next_id, frame, j as int).len() <= j,
                self.max_missing as int == s.max_missing,
                self.iou_threshold as int == s.iou_threshold,
            decreases n - j,
        {
            let ghost before = track_views(done@);
            let ghost prev = spawned(dets, taken, s.next_id, frame, j as int);
            assert(spawned(dets, taken, s.next_id, frame, j + 1) == (if !taken[j as int] {
                prev.push(started(s.next_id + prev.len(), dets[j as int], frame))
            } else {
                prev
            }));
            if !assigned[j] {
                let t = Track::new(self.next_id, &detections[j], frame_id);
                done.push(t);
                self.next_id = self.next_id + 1;
                assert(track_views(done@) =~= before.push(t@));
                assert(t@ == started(s.next_id + prev.len(), dets[j as int], frame));
                assert(before.push(t@) =~= after_assoc + prev.push(t@));
            }
            j = j + 1;
            assert(track_views(done@) =~= after_assoc + spawned(dets, taken, s.next_id, frame, j as int));
            assert(self.next_id == s.next_id + spawned(dets, taken, s.next_id, frame, j as int).len());
        }
        let ghost all = track_views(done@);
        assert(all == associated_and_spawned(s, frame, dets));
        assert(self@.next_id == after_update(s, frame, dets).next_id);

        // Tracks missed more often than allowed are removed.
        let total = done.len();
        let mut live: Vec<Track> = Vec::new();
        let mut p: usize = 0;
        while p < total
            invariant
                p <= total,
                total == all.len(),
                done@.len() == total - p,
                track_views(done@) == all.skip(p as int),
                track_views(live@) == all.take(p as int).filter(not_stale(s.max_missing)),
                s.max_missing == self.max_missing as int,
            decreases total - p,
        {
            proof {
                lemma_views_remove_first(done@);
            }
            let t = done.remove(0);
            assert(t@ == all[p as int]);
            assert(all.skip(p as int).skip(1) =~= all.skip(p + 1));
            proof {
                lemma_filter_take_step(all, not_stale(s.max_missing), p as int);
            }
            let ghost before = live@;
            if !t.is_missing_too_long(self.max_missing) {
                live.push(t);
                assert(track_views(live@) =~= track_views(before).push(all[p as int]));
            }
            p = p + 1;
        }
        assert(all.take(total as int) =~= all);
        self.tracks = live;
        proof {
            lemma_update_keeps_wf(s, frame, dets);
        }

        // Report the tracks matched or started on this frame.
        assert(self@ == after_update(s, frame, dets));
        let ghost fin = self@;
        let mut objects: Vec<TrackedObject> = Vec::new();
        let mut q: usize = 0;
        let count = self.tracks.len();
        while q < count
            invariant
                q <= count,
                count == fin.tracks.len(),
                fin == self@,
                frame == frame_id as int,
                objects@.len() == fin.tracks.take(q as int).filter(seen_on(frame)).len(),
                forall|r: int|
                    0 <= r < objects@.len() ==> describes(
                        #[trigger] objects@[r],
                        fin.tracks.take(q as int).filter(seen_on(frame))[r],
                    ),
            decreases count - q,
        {
            let t = &self.tracks[q];
            assert(t@ == fin.tracks[q as int]);
            proof {
                lemma_filter_take_step(fin.tracks, seen_on(frame), q as int);
            }
            if t.last_seen_frame() == frame_id {
                objects.push(t.to_output());
            }
            q = q + 1;
        }
        assert(fin.tracks.take(count as int) =~= fin.tracks);
        FrameOutput {
            frame_id,
            timestamp: String::from_str(timestamp),
            tracked_objects: objects,
        }
    }
}

} // verus!
