//! One tracked object: its identity, its current box, when it was last
//! matched, how many frames in a row it has been missed, and where it was seen.
use vstd::prelude::*;
use crate::detection::{center_of, corners_of, lemma_corners_exact, Detection};
use crate::geometry::{
    intersection_area, iou, iou_of, overlap_fraction, union_area, Corners, EPSILON_AREA, IOU_ONE,
};
use crate::tracker::TrackedObject;

verus! {

#[derive(Debug, Clone)]
pub struct Track {
    id: u32,
    /// The detection last matched; the current box is its corner form.
    current: Detection,
    last_seen: u32,
    missing: u64,
    history: Vec<(i32, i32)>,
}

/// What a track holds, as mathematical values.
pub struct TrackView {
    pub id: int,
    /// Current box in corner form.
    pub bbox: Corners,
    pub last_seen: int,
    /// Frames in a row without a match.
    pub missing: int,
    /// Every center matched so far, oldest first.
    pub history: Seq<(i32, i32)>,
}

impl View for Track {
    type V = TrackView;

    closed spec fn view(&self) -> TrackView {
        TrackView {
            id: self.id as int,
            bbox: corners_of(self.current),
            last_seen: self.last_seen as int,
            missing: self.missing as int,
            history: self.history@,
        }
    }
}

/// A track started from detection `d` on frame `frame`.
pub open spec fn started(id: int, d: Detection, frame: int) -> TrackView {
    TrackView {
        id,
        bbox: corners_of(d),
        last_seen: frame,
        missing: 0,
        history: seq![center_of(d)],
    }
}

/// Track `t` after it was matched with detection `d` on frame `frame`.
pub open spec fn matched(t: TrackView, d: Detection, frame: int) -> TrackView {
    TrackView {
        bbox: corners_of(d),
        last_seen: frame,
        missing: 0,
        history: t.history.push(center_of(d)),
        ..t
    }
}

/// Track `t` after a frame without a match.
pub open spec fn missed(t: TrackView) -> TrackView {
    TrackView { missing: t.missing + 1, ..t }
}

/// The track has been missed more often in a row than `max` allows.
pub open spec fn stale(t: TrackView, max: int) -> bool {
    t.missing > max
}

/// `o` reports track `t`: its identity, and the center and size of its
/// current box, in millionths.
pub open spec fn describes(o: TrackedObject, t: TrackView) -> bool {
    &&& o.id as int == t.id
    &&& o.x as int == (t.bbox.0 + t.bbox.2) / 4
    &&& o.y as int == (t.bbox.1 + t.bbox.3) / 4
    &&& o.width as int == (t.bbox.2 - t.bbox.0) / 2
    &&& o.height as int == (t.bbox.3 - t.bbox.1) / 2
}

impl Track {
    pub fn new(id: u32, det: &Detection, frame_id: u32) -> (r: Track)
        ensures
            r@ == started(id as int, *det, frame_id as int),
    {
        let history = vec![det.center()];
        assert(history@ =~= seq![center_of(*det)]);
        Track { id, current: *det, last_seen: frame_id, missing: 0, history }
    }

    /// Takes `det` as the track's current box, matched on frame `frame_id`.
    pub fn update(&mut self, det: &Detection, frame_id: u32)
        ensures
            final(self)@ == matched(old(self)@, *det, frame_id as int),
    {
        self.current = *det;
        self.last_seen = frame_id;
        self.missing = 0;
        self.history.push(det.center());
    }

    /// Counts one more frame without a match.
    pub fn mark_missing(&mut self)
        requires
            old(self)@.missing < u64::MAX,
        ensures
            final(self)@ == missed(old(self)@),
    {
        self.missing = self.missing + 1;
    }

    /// Intersection over union, in millionths, of the track's current box and
    /// the box of `det`.
    pub fn iou(&self, det: &Detection) -> (r: u32)
        ensures
            r as int == iou_of(self@.bbox, corners_of(*det)),
            r <= IOU_ONE,
    {
        let a = self.current.bbox();
        let b = det.bbox();
        iou(a, b)
    }

    /// The overlap with the box of `det` as an exact fraction: intersection
    /// area, and union area plus `EPSILON_AREA`.
    pub fn overlap(&self, det: &Detection) -> (r: (i128, i128))
        ensures
            r.0 == intersection_area(self@.bbox, corners_of(*det)),
            r.1 == union_area(self@.bbox, corners_of(*det)) + EPSILON_AREA,
            0 <= r.0 <= 0x40_0000_0000_0000_0000,
            -0x200_0000_0000_0000_0000 <= r.1 <= 0x200_0000_0000_0000_0000,
            r.0 > 0 ==> r.0 < r.1,
    {
        let a = self.current.bbox();
        let b = det.bbox();
        overlap_fraction(a, b)
    }

    pub fn to_output(&self) -> (r: TrackedObject)
        ensures
            describes(r, self@),
    {
        proof {
            lemma_corners_exact(self.current);
        }
        TrackedObject {
            id: self.id,
            x: self.current.x,
            y: self.current.y,
            width: self.current.width,
            height: self.current.height,
        }
    }

    pub fn last_seen_frame(&self) -> (r: u32)
        ensures
            r as int == self@.last_seen,
    {
        self.last_seen
    }

    pub fn is_missing_too_long(&self, max: u32) -> (r: bool)
        ensures
            r == stale(self@, max as int),
    {
        self.missing > max as u64
    }

    pub fn id(&self) -> (r: u32)
        ensures
            r as int == self@.id,
    {
        self.id
    }

    pub fn missing(&self) -> (r: u64)
        ensures
            r as int == self@.missing,
    {
        self.missing
    }
}

} // verus!
