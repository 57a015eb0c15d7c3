//! Linear undo/redo over full snapshots of an image.
use vstd::prelude::*;

use crate::canvas::{Image, ImageView};

verus! {

/// What a history holds, as plain values: the snapshots, oldest first, and
/// the position of the current one (`-1` while there is none).
pub struct HistoryView {
    pub snapshots: Seq<ImageView>,
    pub cursor: int,
}

impl HistoryView {
    pub open spec fn empty() -> HistoryView {
        HistoryView { snapshots: Seq::empty(), cursor: -1 }
    }

    /// The cursor names a snapshot, or is `-1` with no snapshot taken.
    pub open spec fn wf(self) -> bool {
        &&& -1 <= self.cursor < self.snapshots.len()
        &&& (self.cursor == -1 <==> self.snapshots.len() == 0)
    }

    /// Taking a snapshot drops every snapshot after the cursor, appends the
    /// image and makes it current.
    pub open spec fn snapshot(self, image: ImageView) -> HistoryView {
        HistoryView {
            snapshots: self.snapshots.subrange(0, self.cursor + 1).push(image),
            cursor: self.cursor + 1,
        }
    }

    /// Undo steps back to the previous snapshot and yields it; at the first
    /// snapshot, or with none, it keeps the history and yields `current`.
    pub open spec fn undo(self, current: ImageView) -> (HistoryView, ImageView) {
        if self.cursor > 0 {
            (
                HistoryView { cursor: self.cursor - 1, ..self },
                self.snapshots[self.cursor - 1],
            )
        } else {
            (self, current)
        }
    }

    /// Redo steps forward to the next snapshot and yields it; at the last
    /// snapshot it keeps the history and yields `current`.
    pub open spec fn redo(self, current: ImageView) -> (HistoryView, ImageView) {
        if self.cursor + 1 < self.snapshots.len() {
            (
                HistoryView { cursor: self.cursor + 1, ..self },
                self.snapshots[self.cursor + 1],
            )
        } else {
            (self, current)
        }
    }

    /// The history after taking each image of `images` in turn.
    pub open spec fn snapshots_of(self, images: Seq<ImageView>) -> HistoryView
        decreases images.len(),
    {
        if images.len() == 0 {
            self
        } else {
            self.snapshots_of(images.drop_last()).snapshot(images.last())
        }
    }

    /// The history and image after `n` undos starting from `current`.
    pub open spec fn undo_times(self, current: ImageView, n: nat) -> (HistoryView, ImageView)
        decreases n,
    {
        if n == 0 {
            (self, current)
        } else {
            let (h, c) = self.undo_times(current, (n - 1) as nat);
            h.undo(c)
        }
    }

    /// The history and image after `n` redos starting from `current`.
    pub open spec fn redo_times(self, current: ImageView, n: nat) -> (HistoryView, ImageView)
        decreases n,
    {
        if n == 0 {
            (self, current)
        } else {
            let (h, c) = self.redo_times(current, (n - 1) as nat);
            h.redo(c)
        }
    }
}

/// Taking snapshots one after another from an empty history keeps them all,
/// in order, with the last one current.
pub proof fn lemma_snapshots_from_empty(images: Seq<ImageView>)
    ensures
        HistoryView::empty().snapshots_of(images) == (HistoryView {
            snapshots: images,
            cursor: images.len() - 1,
        }),
    decreases images.len(),
{
    if images.len() > 0 {
        lemma_snapshots_from_empty(images.drop_last());
        let h = HistoryView::empty().snapshots_of(images.drop_last());
        assert(h.snapshots.subrange(0, h.cursor + 1) =~= images.drop_last());
        assert(images.drop_last().push(images.last()) =~= images);
    } else {
        assert(images =~= Seq::<ImageView>::empty());
    }
}

/// `k` undos from cursor `c` move the cursor to `c - k` and yield the snapshot
/// there.
pub proof fn lemma_undo_times(h: HistoryView, current: ImageView, k: nat)
    requires
        h.wf(),
        k <= h.cursor,
    ensures
        h.undo_times(current, k) == (
            HistoryView { cursor: h.cursor - k, ..h },
            if k == 0 {
                current
            } else {
                h.snapshots[h.cursor - k]
            },
        ),
    decreases k,
{
    if k > 0 {
        lemma_undo_times(h, current, (k - 1) as nat);
    }
}

/// `k` redos from cursor `c` move the cursor to `c + k` and yield the snapshot
/// there.
pub proof fn lemma_redo_times(h: HistoryView, current: ImageView, k: nat)
    requires
        h.wf(),
        h.cursor + k < h.snapshots.len(),
    ensures
        h.redo_times(current, k) == (
            HistoryView { cursor: h.cursor + k, ..h },
            if k == 0 {
                current
            } else {
                h.snapshots[h.cursor + k]
            },
        ),
    decreases k,
{
    if k > 0 {
        lemma_redo_times(h, current, (k - 1) as nat);
    }
}

/// After `n` snapshots, `n - 1` undos reach the first snapshot, where one
/// more undo changes nothing; then `n - 1` redos give back the last snapshot
/// and the history as it was, where one more redo changes nothing.
pub proof fn lemma_history_round_trip(images: Seq<ImageView>, other: ImageView)
    requires
        images.len() >= 1,
    ensures
        ({
            let n = (images.len() - 1) as nat;
            let h = HistoryView::empty().snapshots_of(images);
            let (h1, c1) = h.undo_times(images.last(), n);
            let (h2, c2) = h1.redo_times(c1, n);
            &&& c1 == images[0]
            &&& h1.undo(c1) == (h1, c1)
            &&& h1.undo(other) == (h1, other)
            &&& c2 == images.last()
            &&& h2 == h
            &&& h2.redo(c2) == (h2, c2)
            &&& h2.redo(other) == (h2, other)
        }),
{
    let n = (images.len() - 1) as nat;
    lemma_snapshots_from_empty(images);
    let h = HistoryView::empty().snapshots_of(images);
    lemma_undo_times(h, images.last(), n);
    let (h1, c1) = h.undo_times(images.last(), n);
    lemma_redo_times(h1, c1, n);
}

/// Right after a snapshot there is nothing to redo: whatever came after the
/// cursor before it is gone.
pub proof fn lemma_snapshot_ends_redo(h: HistoryView, image: ImageView, current: ImageView)
    requires
        h.wf(),
    ensures
        h.snapshot(image).wf(),
        h.snapshot(image).snapshots == h.snapshots.subrange(0, h.cursor + 1).push(image),
        h.snapshot(image).redo(current) == (h.snapshot(image), current),
{
}

/// After `n >= 3` snapshots, two undos and a new snapshot, the history holds
/// the first `n - 2` snapshots and the new one, and redo brings back none of
/// the two that were undone.
pub proof fn lemma_history_truncation(images: Seq<ImageView>, fresh: ImageView, current: ImageView)
    requires
        images.len() >= 3,
    ensures
        ({
            let h = HistoryView::empty().snapshots_of(images);
            let (h1, c1) = h.undo_times(images.last(), 2);
            let h2 = h1.snapshot(fresh);
            &&& c1 == images[images.len() - 3]
            &&& h2.snapshots == images.subrange(0, images.len() - 2).push(fresh)
            &&& h2.redo(current) == (h2, current)
            &&& h2.redo_times(current, 2) == (h2, current)
        }),
{
    lemma_snapshots_from_empty(images);
    let h = HistoryView::empty().snapshots_of(images);
    lemma_undo_times(h, images.last(), 2);
    let (h1, c1) = h.undo_times(images.last(), 2);
    let h2 = h1.snapshot(fresh);
    assert(h2.snapshots =~= images.subrange(0, images.len() - 2).push(fresh));
    assert(h2.redo_times(current, 0) == (h2, current));
    assert(h2.redo(current) == (h2, current));
    assert(h2.redo_times(current, 1) == (h2, current));
}

/// Snapshots of an image, oldest first, with a cursor on the current one.
pub struct ImageHistory {
    snapshots: Vec<Image>,
    idx: i64,
}

impl View for ImageHistory {
    type V = HistoryView;

    closed spec fn view(&self) -> HistoryView {
        HistoryView {
            snapshots: self.snapshots@.map_values(|i: Image| i@),
            cursor: self.idx as int,
        }
    }
}

impl ImageHistory {
    /// The cursor names a snapshot, or there is none, and every snapshot is
    /// a well-formed image.
    pub closed spec fn wf(&self) -> bool {
        &&& self@.wf()
        &&& self.snapshots@.len() < i64::MAX
        &&& forall|i: int| 0 <= i < self.snapshots@.len() ==> (#[trigger] self.snapshots@[i]).wf()
    }

    /// The number of snapshots held.
    pub open spec fn len(&self) -> nat {
        self@.snapshots.len()
    }

    /// A history with no snapshot.
    pub fn new() -> (h: ImageHistory)
        ensures
            h.wf(),
            h@ == HistoryView::empty(),
    {
        let h = ImageHistory { snapshots: Vec::new(), idx: -1 };
        assert(h@.snapshots =~= Seq::<ImageView>::empty());
        h
    }

    /// How many snapshots are held.
    pub fn snapshot_count(&self) -> (n: usize)
        ensures
            n == self@.snapshots.len(),
    {
        self.snapshots.len()
    }

    /// The position of the current snapshot, `-1` while there is none.
    pub fn cursor(&self) -> (c: i64)
        ensures
            c == self@.cursor,
    {
        self.idx
    }

    /// Whether an undo would step back.
    pub fn can_undo(&self) -> (r: bool)
        ensures
            r == (self@.cursor > 0),
    {
        self.idx > 0
    }

    /// Whether a redo would step forward.
    pub fn can_redo(&self) -> (r: bool)
        requires
            self.wf(),
        ensures
            r == (self@.cursor + 1 < self@.snapshots.len()),
    {
        self.idx + 1 < self.snapshots.len() as i64
    }

    /// Drops the snapshots after the cursor and appends a copy of `image`
    /// as the current one.
    pub fn take_snapshot(&mut self, image: &Image)
        requires
            old(self).wf(),
            image.wf(),
            old(self).len() + 1 < i64::MAX,
        ensures
            final(self).wf(),
            final(self)@ == old(self)@.snapshot(image@),
    {
        let keep: usize = (self.idx + 1) as usize;
        self.snapshots.truncate(keep);
        self.snapshots.push(image.copy());
        self.idx = self.idx + 1;
        assert(self@.snapshots =~= old(self)@.snapshots.subrange(0, old(self)@.cursor + 1).push(image@));
        assert forall|i: int| 0 <= i < self.snapshots@.len() implies (#[trigger] self.snapshots@[i]).wf() by {
            if i < keep {
                assert(self.snapshots@[i] == old(self).snapshots@[i]);
            }
        }
    }

    /// Steps back to the previous snapshot and returns a copy of it; at the
    /// first snapshot, or with none, returns a copy of `current`.
    pub fn undo(&mut self, current: &Image) -> (r: Image)
        requires
            old(self).wf(),
            current.wf(),
        ensures
            final(self).wf(),
            r.wf(),
            (final(self)@, r@) == old(self)@.undo(current@),
    {
        if self.idx > 0 {
            self.idx = self.idx - 1;
            let n = self.snapshots.len();
            assert(self@.snapshots.len() == n);
            let i: usize = self.idx as usize;
            assert(self.snapshots@[i as int].wf());
            assert(self@.snapshots[i as int] == self.snapshots@[i as int]@);
            let r = self.snapshots[i].copy();
            r
        } else {
            current.copy()
        }
    }

    /// Steps forward to the next snapshot and returns a copy of it; at the
    /// last snapshot returns a copy of `current`.
    pub fn redo(&mut self, current: &Image) -> (r: Image)
        requires
            old(self).wf(),
            current.wf(),
        ensures
            final(self).wf(),
            r.wf(),
            (final(self)@, r@) == old(self)@.redo(current@),
    {
        if self.idx + 1 < self.snapshots.len() as i64 {
            self.idx = self.idx + 1;
            let n = self.snapshots.len();
            assert(self@.snapshots.len() == n);
            let i: usize = self.idx as usize;
            assert(self.snapshots@[i as int].wf());
            assert(self@.snapshots[i as int] == self.snapshots@[i as int]@);
            self.snapshots[i].copy()
        } else {
            current.copy()
        }
    }

    /// Forgets every snapshot and starts over from `image` alone.
    pub fn reset(&mut self, image: &Image)
        requires
            image.wf(),
        ensures
            final(self).wf(),
            final(self)@ == HistoryView::empty().snapshot(image@),
    {
        self.snapshots.clear();
        self.snapshots.push(image.copy());
        self.idx = 0;
        assert(self@.snapshots =~= Seq::<ImageView>::empty().subrange(0, 0).push(image@));
    }
}

impl Image {
    /// Records a copy of this image in `history` as its current snapshot.
    pub fn take_snapshot(&self, history: &mut ImageHistory)
        requires
            self.wf(),
            old(history).wf(),
            old(history).len() + 1 < i64::MAX,
        ensures
            final(history).wf(),
            final(history)@ == old(history)@.snapshot(self@),
    {
        history.take_snapshot(self);
    }

    /// Replaces this image by the previous snapshot of `history`, if any.
    pub fn undo(&mut self, history: &mut ImageHistory)
        requires
            old(self).wf(),
            old(history).wf(),
        ensures
            final(self).wf(),
            final(history).wf(),
            (final(history)@, final(self)@) == old(history)@.undo(old(self)@),
    {
        let r = history.undo(self);
        *self = r;
    }

    /// Replaces this image by the next snapshot of `history`, if any.
    pub fn redo(&mut self, history: &mut ImageHistory)
        requires
            old(self).wf(),
            old(history).wf(),
        ensures
            final(self).wf(),
            final(history).wf(),
            (final(history)@, final(self)@) == old(history)@.redo(old(self)@),
    {
        let r = history.redo(self);
        *self = r;
    }
}

} // verus!
