//! The decisions of the object walk behind a pack: which commits, trees and
//! blobs the pack holds, in which order, each at most once and none that the
//! client already has. Reading objects is left to the caller, which is asked
//! for one tree at a time.
use vstd::prelude::*;
use crate::oid::{ObjectId, ids_view, find_id, oid_from_bytes};

verus! {

/// What a tree entry points at.
#[derive(Clone, Copy, Debug)]
pub enum EntryKind {
    /// A subtree.
    Tree,
    /// A commit of another repository (a submodule link).
    Submodule,
    /// A blob (file or symbolic link).
    Blob,
}

/// One entry of a tree object.
#[derive(Clone, Copy, Debug)]
pub struct TreeEntry {
    pub kind: EntryKind,
    pub oid: ObjectId,
}

/// The entries of a tree, as kinds and ids.
pub open spec fn entries_view(es: Seq<TreeEntry>) -> Seq<(EntryKind, Seq<u8>)> {
    es.map_values(|e: TreeEntry| (e.kind, e.oid@))
}

/// A tree being walked: the entries read from it, the index of the next
/// one, and the error that stopped the reading after them, if one did.
pub struct TreeFrame {
    entries: Vec<TreeEntry>,
    next: usize,
    error: Option<String>,
}

/// The entries of a tree as read, the cursor, and the error after them.
pub type FrameView = (Seq<(EntryKind, Seq<u8>)>, int, Option<Seq<char>>);

/// The walk's state: ids already seen, ids collected for the pack (in pack
/// order), and the trees being walked (innermost last).
pub struct CollectorState {
    pub haves: Seq<Seq<u8>>,
    pub seen: Seq<Seq<u8>>,
    pub oids: Seq<Seq<u8>>,
    pub frames: Seq<FrameView>,
}

/// What the walk asks of its caller next.
pub enum Step {
    /// Read this tree and hand its entries back.
    ReadTree(ObjectId),
    /// Nothing is pending; give the next commit.
    Idle,
    /// The walk reached the point where a tree could not be read further;
    /// the walk fails with this message.
    Failed(String),
}

/// What the walk asks of its caller next, as a spec value.
pub enum Next {
    Read(Seq<u8>),
    Idle,
    Failed(Seq<char>),
}

/// The entries not yet looked at, plus one per tree being walked.
pub open spec fn pending_work(frames: Seq<FrameView>) -> nat
    decreases frames.len(),
{
    if frames.len() == 0 {
        0
    } else {
        pending_work(frames.drop_last()) + 1 + (frames.last().0.len() - frames.last().1) as nat
    }
}

/// Walk on from state `s` until a tree must be read (`Read` with its id),
/// no tree is being walked (`Idle`), or the walk reaches the end of what
/// could be read of a tree that failed to read further (`Failed`).
///
/// An entry whose id was seen before is skipped. A new subtree is marked
/// seen and must be read before the walk goes on. A new blob is marked seen
/// and collected; a new submodule link is marked seen but not collected.
pub open spec fn walk(s: CollectorState) -> (CollectorState, Next)
    decreases pending_work(s.frames),
{
    if s.frames.len() == 0 {
        (s, Next::Idle)
    } else {
        let top = s.frames.last();
        let rest = s.frames.drop_last();
        if top.1 < 0 || top.1 >= top.0.len() {
            proof {
                assert(pending_work(s.frames) == pending_work(rest) + 1 + (top.0.len() - top.1) as nat);
            }
            match top.2 {
                Some(m) => (CollectorState { frames: rest, ..s }, Next::Failed(m)),
                None => walk(CollectorState { frames: rest, ..s }),
            }
        } else {
            let e = top.0[top.1];
            let frames2 = rest.push((top.0, top.1 + 1, top.2));
            proof {
                assert(frames2.drop_last() =~= rest);
                assert(pending_work(frames2) == pending_work(rest) + 1 + (top.0.len() - (top.1 + 1)) as nat);
            }
            if s.seen.contains(e.1) {
                walk(CollectorState { frames: frames2, ..s })
            } else {
                match e.0 {
                    EntryKind::Tree => (
                        CollectorState { seen: s.seen.push(e.1), frames: frames2, ..s },
                        Next::Read(e.1),
                    ),
                    EntryKind::Submodule => walk(
                        CollectorState { seen: s.seen.push(e.1), frames: frames2, ..s },
                    ),
                    EntryKind::Blob => walk(
                        CollectorState {
                            seen: s.seen.push(e.1),
                            oids: s.oids.push(e.1),
                            frames: frames2,
                            ..s
                        },
                    ),
                }
            }
        }
    }
}

/// No id occurs twice.
pub open spec fn distinct(ids: Seq<Seq<u8>>) -> bool {
    forall|i: int, j: int| 0 <= i < j < ids.len() ==> ids[i] != ids[j]
}

/// The walk's invariant: collected ids are distinct and seen, the client's
/// ids are seen and never collected, and each tree frame's cursor is in range.
pub open spec fn walk_invariant(s: CollectorState) -> bool {
    &&& distinct(s.oids)
    &&& forall|i: int| 0 <= i < s.oids.len() ==> s.seen.contains(#[trigger] s.oids[i])
    &&& forall|i: int| 0 <= i < s.haves.len() ==> s.seen.contains(#[trigger] s.haves[i])
    &&& forall|i: int| 0 <= i < s.oids.len() ==> !s.haves.contains(#[trigger] s.oids[i])
    &&& forall|i: int| 0 <= i < s.frames.len() ==>
        0 <= (#[trigger] s.frames[i]).1 <= s.frames[i].0.len()
}

/// Collects the ids of the objects that a pack must hold.
pub struct OidCollector {
    haves: Vec<ObjectId>,
    seen: Vec<ObjectId>,
    oids: Vec<ObjectId>,
    frames: Vec<TreeFrame>,
}

/// An optional string as text.
pub open spec fn opt_text(o: Option<String>) -> Option<Seq<char>> {
    match o {
        Some(m) => Some(m@),
        None => None,
    }
}

impl View for OidCollector {
    type V = CollectorState;

    closed spec fn view(&self) -> CollectorState {
        CollectorState {
            haves: ids_view(self.haves@),
            seen: ids_view(self.seen@),
            oids: ids_view(self.oids@),
            frames: self.frames@.map_values(|f: TreeFrame| (entries_view(f.entries@), f.next as int, opt_text(f.error))),
        }
    }
}


/// Looking at a commit of the walk: it is taken (and marked seen) unless the
/// client has it or it was seen before.
pub open spec fn visit(s: CollectorState, c: Seq<u8>) -> (CollectorState, bool) {
    if s.haves.contains(c) || s.seen.contains(c) {
        (s, false)
    } else {
        (CollectorState { seen: s.seen.push(c), ..s }, true)
    }
}

/// A taken commit has been read: it is collected, and its root tree must be
/// read unless it was seen before.
pub open spec fn commit_step(s: CollectorState, c: Seq<u8>, tree: Seq<u8>) -> (CollectorState, Next) {
    let s1 = CollectorState { oids: s.oids.push(c), ..s };
    if s1.seen.contains(tree) {
        (s1, Next::Idle)
    } else {
        (CollectorState { seen: s1.seen.push(tree), ..s1 }, Next::Read(tree))
    }
}

/// A tree has been read (its entries, and the error that stopped the
/// reading after them, if any): it is collected, its entries are walked in
/// order, and the walk goes on.
pub open spec fn tree_step(
    s: CollectorState,
    tree: Seq<u8>,
    entries: Seq<(EntryKind, Seq<u8>)>,
    error: Option<Seq<char>>,
) -> (CollectorState, Next) {
    walk(CollectorState { oids: s.oids.push(tree), frames: s.frames.push((entries, 0, error)), ..s })
}

/// The id `t` is seen but neither collected nor one the client has: the
/// state of an id that the walk has just asked to be read.
pub open spec fn fresh(s: CollectorState, t: Seq<u8>) -> bool {
    &&& s.seen.contains(t)
    &&& !s.oids.contains(t)
    &&& !s.haves.contains(t)
}

/// What a step of the walk hands back, as a spec value.
pub open spec fn step_view(r: Step) -> Next {
    match r {
        Step::ReadTree(t) => Next::Read(t@),
        Step::Idle => Next::Idle,
        Step::Failed(m) => Next::Failed(m@),
    }
}

proof fn lemma_push_seen_keeps(s: CollectorState, t: Seq<u8>)
    requires
        walk_invariant(s),
    ensures
        walk_invariant(CollectorState { seen: s.seen.push(t), ..s }),
{
    let s2 = CollectorState { seen: s.seen.push(t), ..s };
    assert forall|i: int| 0 <= i < s2.oids.len() implies s2.seen.contains(#[trigger] s2.oids[i]) by {
        let k = choose|k: int| 0 <= k < s.seen.len() && s.seen[k] == s.oids[i];
        assert(s2.seen[k] == s.oids[i]);
    }
    assert forall|i: int| 0 <= i < s2.haves.len() implies s2.seen.contains(#[trigger] s2.haves[i]) by {
        let k = choose|k: int| 0 <= k < s.seen.len() && s.seen[k] == s.haves[i];
        assert(s2.seen[k] == s.haves[i]);
    }
}

proof fn lemma_collect_fresh_keeps(s: CollectorState, t: Seq<u8>)
    requires
        walk_invariant(s),
        fresh(s, t),
    ensures
        walk_invariant(CollectorState { oids: s.oids.push(t), ..s }),
{
    let s2 = CollectorState { oids: s.oids.push(t), ..s };
    assert forall|i: int, j: int| 0 <= i < j < s2.oids.len() implies s2.oids[i] != s2.oids[j] by {
        if j == s.oids.len() {
            assert(s.oids[i] == s2.oids[i]);
        }
    }
    assert forall|i: int| 0 <= i < s2.oids.len() implies s2.seen.contains(#[trigger] s2.oids[i]) by {
        if i < s.oids.len() {
            assert(s2.oids[i] == s.oids[i]);
        }
    }
    assert forall|i: int| 0 <= i < s2.oids.len() implies !s2.haves.contains(#[trigger] s2.oids[i]) by {
        if i < s.oids.len() {
            assert(s2.oids[i] == s.oids[i]);
        }
    }
}

/// Walking keeps the invariant, and a tree that the walk asks for is fresh.
pub proof fn lemma_walk_keeps_invariant(s: CollectorState)
    requires
        walk_invariant(s),
    ensures
        walk_invariant(walk(s).0),
        walk(s).1 matches Next::Read(t) ==> fresh(walk(s).0, t),
    decreases pending_work(s.frames),
{
    if s.frames.len() == 0 {
    } else {
        let top = s.frames.last();
        let rest = s.frames.drop_last();
        assert(pending_work(s.frames) == pending_work(rest) + 1 + (top.0.len() - top.1) as nat);
        if top.1 < 0 || top.1 >= top.0.len() {
            let s2 = CollectorState { frames: rest, ..s };
            assert forall|i: int| 0 <= i < s2.frames.len() implies
                0 <= (#[trigger] s2.frames[i]).1 <= s2.frames[i].0.len() by {
                assert(s2.frames[i] == s.frames[i]);
            }
            lemma_walk_keeps_invariant(s2);
        } else {
            let e = top.0[top.1];
            let frames2 = rest.push((top.0, top.1 + 1, top.2));
            assert(frames2.drop_last() =~= rest);
            assert(pending_work(frames2) == pending_work(rest) + 1 + (top.0.len() - (top.1 + 1)) as nat);
            let s2 = CollectorState { frames: frames2, ..s };
            assert forall|i: int| 0 <= i < s2.frames.len() implies
                0 <= (#[trigger] s2.frames[i]).1 <= s2.frames[i].0.len() by {
                if i < rest.len() {
                    assert(s2.frames[i] == s.frames[i]);
                }
            }
            assert(walk_invariant(s2));
            if s.seen.contains(e.1) {
                lemma_walk_keeps_invariant(s2);
            } else {
                let s3 = CollectorState { seen: s2.seen.push(e.1), ..s2 };
                lemma_push_seen_keeps(s2, e.1);
                assert(s3.seen[s2.seen.len() as int] == e.1);
                match e.0 {
                    EntryKind::Tree => {
                        assert(!s.oids.contains(e.1)) by {
                            if s.oids.contains(e.1) {
                                let k = choose|k: int| 0 <= k < s.oids.len() && s.oids[k] == e.1;
                                assert(s.seen.contains(s.oids[k]));
                            }
                        }
                        assert(!s.haves.contains(e.1)) by {
                            if s.haves.contains(e.1) {
                                let k = choose|k: int| 0 <= k < s.haves.len() && s.haves[k] == e.1;
                                assert(s.seen.contains(s.haves[k]));
                            }
                        }
                    },
                    EntryKind::Submodule => {
                        lemma_walk_keeps_invariant(s3);
                    },
                    EntryKind::Blob => {
                        assert(!s.oids.contains(e.1)) by {
                            if s.oids.contains(e.1) {
                                let k = choose|k: int| 0 <= k < s.oids.len() && s.oids[k] == e.1;
                                assert(s.seen.contains(s.oids[k]));
                            }
                        }
                        assert(!s.haves.contains(e.1)) by {
                            if s.haves.contains(e.1) {
                                let k = choose|k: int| 0 <= k < s.haves.len() && s.haves[k] == e.1;
                                assert(s.seen.contains(s.haves[k]));
                            }
                        }
                        lemma_collect_fresh_keeps(s3, e.1);
                        lemma_walk_keeps_invariant(CollectorState { oids: s3.oids.push(e.1), ..s3 });
                    },
                }
            }
        }
    }
}


/// Entry `k` of frame `i` is still to be walked.
pub open spec fn is_pending(frames: Seq<FrameView>, i: int, k: int) -> bool {
    &&& 0 <= i < frames.len()
    &&& frames[i].1 <= k < frames[i].0.len()
    &&& 0 <= k
}

/// Entries still to be walked that share an id are of one kind (as in a
/// repository, where an id names one object).
pub open spec fn one_kind(frames: Seq<FrameView>) -> bool {
    forall|i1: int, k1: int, i2: int, k2: int|
        is_pending(frames, i1, k1) && is_pending(frames, i2, k2)
            && (#[trigger] frames[i1].0[k1]).1 == (#[trigger] frames[i2].0[k2]).1
            ==> frames[i1].0[k1].0 == frames[i2].0[k2].0
}

/// `b` extends `a`.
pub open spec fn grows(a: Seq<Seq<u8>>, b: Seq<Seq<u8>>) -> bool {
    a.len() <= b.len() && b.subrange(0, a.len() as int) == a
}

proof fn lemma_grows_contains(a: Seq<Seq<u8>>, b: Seq<Seq<u8>>, x: Seq<u8>)
    requires
        grows(a, b),
        a.contains(x),
    ensures
        b.contains(x),
{
    let k = choose|k: int| 0 <= k < a.len() && a[k] == x;
    assert(b.subrange(0, a.len() as int)[k] == x);
}

proof fn lemma_grows_trans(a: Seq<Seq<u8>>, b: Seq<Seq<u8>>, c: Seq<Seq<u8>>)
    requires
        grows(a, b),
        grows(b, c),
    ensures
        grows(a, c),
{
    assert(c.subrange(0, a.len() as int) =~= b.subrange(0, a.len() as int));
}

proof fn lemma_grows_push(a: Seq<Seq<u8>>, x: Seq<u8>)
    ensures
        grows(a, a.push(x)),
        grows(a, a),
{
    assert(a.push(x).subrange(0, a.len() as int) =~= a);
    assert(a.subrange(0, a.len() as int) =~= a);
}

/// The walk only adds to what is seen and collected; when it runs to the
/// end (`Idle`), every entry that was still to be walked has been seen, and
/// every such blob entry whose id was not seen before is collected (given
/// that entries sharing an id are of one kind). Subtrees are read and
/// walked through `tree_step` before the walk goes on, so over a whole walk
/// every blob and subtree below a collected tree is seen, and collected
/// unless the client has it or it is a submodule link.
pub proof fn lemma_walk_complete(s: CollectorState)
    requires
        walk_invariant(s),
    ensures
        grows(s.seen, walk(s).0.seen),
        grows(s.oids, walk(s).0.oids),
        walk(s).0.haves == s.haves,
        walk(s).1 is Idle ==> forall|i: int, k: int| is_pending(s.frames, i, k)
            ==> walk(s).0.seen.contains(#[trigger] s.frames[i].0[k].1),
        walk(s).1 is Idle && one_kind(s.frames) ==> forall|i: int, k: int|
            is_pending(s.frames, i, k) && (#[trigger] s.frames[i].0[k]).0 == EntryKind::Blob
                && !s.seen.contains(s.frames[i].0[k].1)
            ==> walk(s).0.oids.contains(s.frames[i].0[k].1),
    decreases pending_work(s.frames),
{
    lemma_grows_push(s.seen, seq![]);
    lemma_grows_push(s.oids, seq![]);
    if s.frames.len() == 0 {
    } else {
        let last = s.frames.len() - 1;
        let top = s.frames.last();
        let rest = s.frames.drop_last();
        assert(pending_work(s.frames) == pending_work(rest) + 1 + (top.0.len() - top.1) as nat);
        assert(0 <= s.frames[last].1);
        if top.1 >= top.0.len() {
            if top.2 is None {
                let s2 = CollectorState { frames: rest, ..s };
                assert forall|i: int| 0 <= i < s2.frames.len() implies
                    0 <= (#[trigger] s2.frames[i]).1 <= s2.frames[i].0.len() by {
                    assert(s2.frames[i] == s.frames[i]);
                }
                lemma_walk_complete(s2);
                assert forall|i: int, k: int| is_pending(s.frames, i, k) implies is_pending(s2.frames, i, k)
                    && s2.frames[i].0[k] == s.frames[i].0[k] by {
                    assert(s2.frames[i] == s.frames[i]);
                }
                if one_kind(s.frames) {
                    assert forall|i1: int, k1: int, i2: int, k2: int|
                        is_pending(s2.frames, i1, k1) && is_pending(s2.frames, i2, k2)
                            && (#[trigger] s2.frames[i1].0[k1]).1 == (#[trigger] s2.frames[i2].0[k2]).1
                        implies s2.frames[i1].0[k1].0 == s2.frames[i2].0[k2].0 by {
                        assert(s2.frames[i1] == s.frames[i1]);
                        assert(s2.frames[i2] == s.frames[i2]);
                        assert(is_pending(s.frames, i1, k1) && is_pending(s.frames, i2, k2));
                        assert(s.frames[i1].0[k1].1 == s.frames[i2].0[k2].1);
                    }
                }
            }
        } else {
            let e = top.0[top.1];
            let frames2 = rest.push((top.0, top.1 + 1, top.2));
            assert(frames2.drop_last() =~= rest);
            assert(pending_work(frames2) == pending_work(rest) + 1 + (top.0.len() - (top.1 + 1)) as nat);
            let s2 = CollectorState { frames: frames2, ..s };
            assert forall|i: int| 0 <= i < s2.frames.len() implies
                0 <= (#[trigger] s2.frames[i]).1 <= s2.frames[i].0.len() by {
                if i < rest.len() {
                    assert(s2.frames[i] == s.frames[i]);
                }
            }
            assert(walk_invariant(s2));
            // entries still pending after this step were pending before it
            assert forall|i: int, k: int| is_pending(s2.frames, i, k) implies is_pending(s.frames, i, k)
                && s2.frames[i].0[k] == s.frames[i].0[k] by {
                if i < rest.len() {
                    assert(s2.frames[i] == s.frames[i]);
                }
            }
            // every entry pending before is this one or still pending
            assert forall|i: int, k: int| is_pending(s.frames, i, k) implies (i == last && k == top.1)
                || (is_pending(s2.frames, i, k) && s2.frames[i].0[k] == s.frames[i].0[k]) by {
                if i < rest.len() {
                    assert(s2.frames[i] == s.frames[i]);
                }
            }
            assert(s.frames[last].0[top.1] == e);
            let s3 = if s.seen.contains(e.1) {
                s2
            } else {
                match e.0 {
                    EntryKind::Tree => CollectorState { seen: s2.seen.push(e.1), ..s2 },
                    EntryKind::Submodule => CollectorState { seen: s2.seen.push(e.1), ..s2 },
                    EntryKind::Blob => CollectorState { seen: s2.seen.push(e.1), oids: s2.oids.push(e.1), ..s2 },
                }
            };
            lemma_grows_push(s.seen, e.1);
            lemma_grows_push(s.oids, e.1);
            assert(s3.seen.contains(e.1)) by {
                if !s.seen.contains(e.1) {
                    assert(s3.seen[s.seen.len() as int] == e.1);
                }
            }
            assert(grows(s.seen, s3.seen));
            assert(grows(s.oids, s3.oids));
            assert(e.0 == EntryKind::Blob && !s.seen.contains(e.1) ==> s3.oids.contains(e.1)) by {
                if e.0 == EntryKind::Blob && !s.seen.contains(e.1) {
                    assert(s3.oids[s.oids.len() as int] == e.1);
                }
            }
            if s.seen.contains(e.1) || e.0 != EntryKind::Tree {
                assert(walk(s) == walk(s3));
                // the invariant carries over to s3
                if s.seen.contains(e.1) {
                } else {
                    lemma_push_seen_keeps(s2, e.1);
                    let s4 = CollectorState { seen: s2.seen.push(e.1), ..s2 };
                    assert(s4.seen[s2.seen.len() as int] == e.1);
                    if e.0 == EntryKind::Blob {
                        assert(!s.oids.contains(e.1)) by {
                            if s.oids.contains(e.1) {
                                let k = choose|k: int| 0 <= k < s.oids.len() && s.oids[k] == e.1;
                                assert(s.seen.contains(s.oids[k]));
                            }
                        }
                        assert(!s.haves.contains(e.1)) by {
                            if s.haves.contains(e.1) {
                                let k = choose|k: int| 0 <= k < s.haves.len() && s.haves[k] == e.1;
                                assert(s.seen.contains(s.haves[k]));
                            }
                        }
                        lemma_collect_fresh_keeps(s4, e.1);
                    }
                }
                assert(walk_invariant(s3));
                assert(s3.frames == s2.frames);
                lemma_walk_complete(s3);
                let f = walk(s).0;
                lemma_grows_trans(s.seen, s3.seen, f.seen);
                lemma_grows_trans(s.oids, s3.oids, f.oids);
                if walk(s).1 is Idle {
                    assert forall|i: int, k: int| is_pending(s.frames, i, k)
                        implies f.seen.contains(#[trigger] s.frames[i].0[k].1) by {
                        if i == last && k == top.1 {
                            lemma_grows_contains(s3.seen, f.seen, e.1);
                        } else {
                            assert(s2.frames[i].0[k] == s.frames[i].0[k]);
                            assert(f.seen.contains(s3.frames[i].0[k].1));
                        }
                    }
                    if one_kind(s.frames) {
                        assert forall|i1: int, k1: int, i2: int, k2: int|
                            is_pending(s3.frames, i1, k1) && is_pending(s3.frames, i2, k2)
                                && (#[trigger] s3.frames[i1].0[k1]).1 == (#[trigger] s3.frames[i2].0[k2]).1
                            implies s3.frames[i1].0[k1].0 == s3.frames[i2].0[k2].0 by {
                            assert(is_pending(s.frames, i1, k1) && is_pending(s.frames, i2, k2));
                            assert(s.frames[i1].0[k1] == s3.frames[i1].0[k1]);
                            assert(s.frames[i2].0[k2] == s3.frames[i2].0[k2]);
                        }
                        assert forall|i: int, k: int|
                            is_pending(s.frames, i, k) && (#[trigger] s.frames[i].0[k]).0 == EntryKind::Blob
                                && !s.seen.contains(s.frames[i].0[k].1)
                            implies f.oids.contains(s.frames[i].0[k].1) by {
                            let x = s.frames[i].0[k];
                            if i == last && k == top.1 {
                                lemma_grows_contains(s3.oids, f.oids, e.1);
                            } else {
                                assert(s3.frames[i].0[k] == x);
                                if s3.seen.contains(x.1) {
                                    // seen in this step: it is this entry's id, of the same kind
                                    assert(s3.seen.len() == s.seen.len() + 1);
                                    let j = choose|j: int| 0 <= j < s3.seen.len() && s3.seen[j] == x.1;
                                    if j < s.seen.len() {
                                        assert(s3.seen[j] == s.seen[j]);
                                    }
                                    assert(x.1 == e.1);
                                    assert(s.frames[last].0[top.1] == e);
                                    assert(x.0 == e.0);
                                    lemma_grows_contains(s3.oids, f.oids, e.1);
                                } else {
                                }
                            }
                        }
                    }
                }
            } else {
                assert(walk(s).1 == Next::Read(e.1));
            }
        }
    }
}

/// Looking at a commit keeps the invariant, and a taken commit is fresh.
pub proof fn lemma_visit_keeps_invariant(s: CollectorState, c: Seq<u8>)
    requires
        walk_invariant(s),
    ensures
        walk_invariant(visit(s, c).0),
        visit(s, c).1 ==> fresh(visit(s, c).0, c),
{
    if !(s.haves.contains(c) || s.seen.contains(c)) {
        lemma_push_seen_keeps(s, c);
        let s2 = visit(s, c).0;
        assert(s2.seen[s.seen.len() as int] == c);
        assert(!s.oids.contains(c)) by {
            if s.oids.contains(c) {
                let k = choose|k: int| 0 <= k < s.oids.len() && s.oids[k] == c;
                assert(s.seen.contains(s.oids[k]));
            }
        }
    }
}

/// Collecting a fresh commit keeps the invariant, and a root tree that must
/// be read is fresh.
pub proof fn lemma_commit_step_keeps_invariant(s: CollectorState, c: Seq<u8>, tree: Seq<u8>)
    requires
        walk_invariant(s),
        fresh(s, c),
    ensures
        walk_invariant(commit_step(s, c, tree).0),
        commit_step(s, c, tree).1 matches Next::Read(t) ==> fresh(commit_step(s, c, tree).0, t),
{
    lemma_collect_fresh_keeps(s, c);
    let s1 = CollectorState { oids: s.oids.push(c), ..s };
    if !s1.seen.contains(tree) {
        lemma_push_seen_keeps(s1, tree);
        let s2 = commit_step(s, c, tree).0;
        assert(s2.seen[s1.seen.len() as int] == tree);
        assert(!s1.oids.contains(tree)) by {
            if s1.oids.contains(tree) {
                let k = choose|k: int| 0 <= k < s1.oids.len() && s1.oids[k] == tree;
                assert(s1.seen.contains(s1.oids[k]));
            }
        }
        assert(!s1.haves.contains(tree)) by {
            if s1.haves.contains(tree) {
                let k = choose|k: int| 0 <= k < s1.haves.len() && s1.haves[k] == tree;
                assert(s1.seen.contains(s1.haves[k]));
            }
        }
    }
}

/// Collecting a fresh tree and walking its entries keeps the invariant, and
/// the next tree asked for is fresh.
pub proof fn lemma_tree_step_keeps_invariant(
    s: CollectorState,
    tree: Seq<u8>,
    entries: Seq<(EntryKind, Seq<u8>)>,
    error: Option<Seq<char>>,
)
    requires
        walk_invariant(s),
        fresh(s, tree),
    ensures
        walk_invariant(tree_step(s, tree, entries, error).0),
        tree_step(s, tree, entries, error).1 matches Next::Read(t) ==> fresh(tree_step(s, tree, entries, error).0, t),
{
    lemma_collect_fresh_keeps(s, tree);
    let s1 = CollectorState { oids: s.oids.push(tree), ..s };
    let s2 = CollectorState { frames: s1.frames.push((entries, 0, error)), ..s1 };
    assert forall|i: int| 0 <= i < s2.frames.len() implies
        0 <= (#[trigger] s2.frames[i]).1 <= s2.frames[i].0.len() by {
        if i < s1.frames.len() {
            assert(s2.frames[i] == s1.frames[i]);
        }
    }
    lemma_walk_keeps_invariant(s2);
}

fn copy_ids(ids: &Vec<ObjectId>) -> (r: Vec<ObjectId>)
    ensures
        ids_view(r@) == ids_view(ids@),
{
    let mut r: Vec<ObjectId> = Vec::new();
    let mut i: usize = 0;
    while i < ids.len()
        invariant
            i <= ids.len(),
            ids_view(r@) == ids_view(ids@.subrange(0, i as int)),
        decreases ids.len() - i,
    {
        let ghost r0 = r@;
        r.push(ids[i]);
        proof {
            lemma_ids_push(r0, ids@[i as int]);
            assert(ids@.subrange(0, i + 1) =~= ids@.subrange(0, i as int).push(ids@[i as int]));
            lemma_ids_push(ids@.subrange(0, i as int), ids@[i as int]);
        }
        i = i + 1;
    }
    assert(ids@.subrange(0, ids@.len() as int) =~= ids@);
    r
}

proof fn lemma_ids_push(ids: Seq<ObjectId>, id: ObjectId)
    ensures
        ids_view(ids.push(id)) == ids_view(ids).push(id@),
{
    assert(ids_view(ids.push(id)) =~= ids_view(ids).push(id@));
}

impl OidCollector {
    /// A walk that has seen nothing but the client's ids.
    pub fn new(haves: &Vec<ObjectId>) -> (c: OidCollector)
        ensures
            c@ == (CollectorState {
                haves: ids_view(haves@),
                seen: ids_view(haves@),
                oids: Seq::empty(),
                frames: Seq::empty(),
            }),
            walk_invariant(c@),
    {
        let c = OidCollector {
            haves: copy_ids(haves),
            seen: copy_ids(haves),
            oids: Vec::new(),
            frames: Vec::new(),
        };
        proof {
            assert(ids_view(c.oids@) =~= Seq::<Seq<u8>>::empty());
            assert(c@.frames =~= Seq::<FrameView>::empty());
            assert forall|i: int| 0 <= i < c@.haves.len() implies c@.seen.contains(#[trigger] c@.haves[i]) by {
                assert(c@.seen[i] == c@.haves[i]);
            }
        }
        c
    }

    /// The ids collected so far, in pack order.
    pub fn collected(&self) -> (r: &Vec<ObjectId>)
        ensures
            ids_view(r@) == self@.oids,
    {
        &self.oids
    }

    /// Looks at the next commit of the revision walk; `true` when it is to
    /// be read and collected.
    pub fn visit_commit(&mut self, commit: &ObjectId) -> (take: bool)
        ensures
            (final(self)@, take) == visit(old(self)@, commit@),
    {
        if find_id(&self.haves, commit) || find_id(&self.seen, commit) {
            return false;
        }
        self.seen.push(*commit);
        proof {
            lemma_ids_push(old(self).seen@, *commit);
        }
        true
    }

    /// A taken commit was read and its root tree is `tree`.
    pub fn commit_read(&mut self, commit: &ObjectId, tree: &ObjectId) -> (r: Step)
        ensures
            (final(self)@, step_view(r)) == commit_step(old(self)@, commit@, tree@),
    {
        self.oids.push(*commit);
        proof {
            lemma_ids_push(old(self).oids@, *commit);
        }
        if find_id(&self.seen, tree) {
            return Step::Idle;
        }
        let ghost before = self.seen@;
        self.seen.push(*tree);
        proof {
            lemma_ids_push(before, *tree);
        }
        Step::ReadTree(*tree)
    }

    /// The tree `tree` was read: these entries, then the error that stopped
    /// the reading, if one did. It is collected and the walk goes on.
    pub fn tree_read(&mut self, tree: &ObjectId, entries: Vec<TreeEntry>, error: Option<String>) -> (r: Step)
        ensures
            (final(self)@, step_view(r)) == tree_step(old(self)@, tree@, entries_view(entries@), opt_text(error)),
    {
        self.oids.push(*tree);
        proof {
            lemma_ids_push(old(self).oids@, *tree);
        }
        let ghost ev = entries_view(entries@);
        let ghost et = opt_text(error);
        let ghost before = self.frames@;
        self.frames.push(TreeFrame { entries, next: 0, error });
        proof {
            assert(self@.frames =~= old(self)@.frames.push((ev, 0, et)));
        }
        self.walk_on()
    }

    fn walk_on(&mut self) -> (r: Step)
        ensures
            (final(self)@, step_view(r)) == walk(old(self)@),
    {
        loop
            invariant
                walk(self@) == walk(old(self)@),
            decreases pending_work(self@.frames),
        {
            let ghost s = self@;
            match self.frames.pop() {
                None => {
                    assert(self@.frames =~= Seq::<FrameView>::empty());
                    return Step::Idle;
                },
                Some(mut f) => {
                    let ghost rest = self@.frames;
                    proof {
                        assert(rest =~= s.frames.drop_last());
                        assert(pending_work(s.frames) == pending_work(rest) + 1 + (s.frames.last().0.len() - s.frames.last().1) as nat);
                    }
                    if f.next >= f.entries.len() {
                        proof {
                            assert(self@ == (CollectorState { frames: rest, ..s }));
                        }
                        match f.error {
                            Some(m) => {
                                return Step::Failed(m);
                            },
                            None => {},
                        }
                    } else {
                        let e = f.entries[f.next];
                        f.next = f.next + 1;
                        let ghost fv = (entries_view(f.entries@), f.next as int, opt_text(f.error));
                        self.frames.push(f);
                        proof {
                            assert(self@.frames =~= rest.push(fv));
                            assert(rest.push(fv).drop_last() =~= rest);
                            assert(pending_work(rest.push(fv)) == pending_work(rest) + 1 + (fv.0.len() - fv.1) as nat);
                            assert(s.frames.last().0[s.frames.last().1] == (e.kind, e.oid@));
                        }
                        if find_id(&self.seen, &e.oid) {
                        } else {
                            let ghost seen0 = self.seen@;
                            self.seen.push(e.oid);
                            proof {
                                lemma_ids_push(seen0, e.oid);
                            }
                            match e.kind {
                                EntryKind::Tree => {
                                    return Step::ReadTree(e.oid);
                                },
                                EntryKind::Submodule => {},
                                EntryKind::Blob => {
                                    let ghost oids0 = self.oids@;
                                    self.oids.push(e.oid);
                                    proof {
                                        lemma_ids_push(oids0, e.oid);
                                    }
                                },
                            }
                        }
                    }
                },
            }
        }
    }
}


/// What gix reads from the bytes of a tree object: the entries it decodes,
/// each as (the mode is a tree, the mode is a submodule commit, the 20-byte
/// id), up to the first decoding error, and that error's message if one
/// stops the reading.
pub uninterp spec fn tree_entries_of(data: Seq<u8>) -> (Seq<(bool, bool, Seq<u8>)>, Option<Seq<char>>);

/// The root-tree id that gix reads from the bytes of a commit object, or the
/// message of the error that reading it gives.
pub uninterp spec fn commit_tree_of(data: Seq<u8>) -> Result<Seq<u8>, Seq<char>>;

/// `gix::objs::TreeRefIter::from_bytes` (SHA-1 ids) read entry by entry:
/// each entry's `mode.is_tree()`, `mode.is_commit()` and 20-byte id, until
/// the iterator yields an error (whose message is kept; after an error it
/// yields nothing more) or ends.
#[verifier::external_body]
fn gix_tree_entries(data: &[u8]) -> (r: (Vec<(bool, bool, Vec<u8>)>, Option<String>))
    ensures
        r.0@.len() == tree_entries_of(data@).0.len(),
        forall|i: int| 0 <= i < r.0@.len() ==> {
            let e = #[trigger] r.0@[i];
            let f = tree_entries_of(data@).0[i];
            &&& e.0 == f.0
            &&& e.1 == f.1
            &&& e.2@ == f.2
            &&& f.2.len() == 20
        },
        opt_text(r.1) == tree_entries_of(data@).1,
{
    let mut entries = Vec::new();
    for entry in gix::objs::TreeRefIter::from_bytes(data, gix::hash::Kind::Sha1) {
        match entry {
            Ok(e) => entries.push((e.mode.is_tree(), e.mode.is_commit(), e.oid.as_bytes().to_vec())),
            Err(e) => return (entries, Some(e.to_string())),
        }
    }
    (entries, None)
}

/// `gix::objs::CommitRefIter::from_bytes(..).tree_id()` (SHA-1 ids): the
/// 20-byte id of the commit's tree, or the message of the error it gives.
#[verifier::external_body]
fn gix_commit_tree(data: &[u8]) -> (r: Result<Vec<u8>, String>)
    ensures
        match commit_tree_of(data@) {
            Ok(t) => r matches Ok(v) && v@ == t && t.len() == 20,
            Err(m) => r matches Err(e) && e@ == m,
        },
{
    match gix::objs::CommitRefIter::from_bytes(data, gix::hash::Kind::Sha1).tree_id() {
        Ok(id) => Ok(id.as_bytes().to_vec()),
        Err(e) => Err(e.to_string()),
    }
}

/// How a tree entry is walked, from its mode: a tree, else a submodule
/// commit, else a blob.
pub open spec fn classify(e: (bool, bool, Seq<u8>)) -> (EntryKind, Seq<u8>) {
    (if e.0 { EntryKind::Tree } else if e.1 { EntryKind::Submodule } else { EntryKind::Blob }, e.2)
}

/// Reads the entries of a tree object: those that decode, in order, and
/// the message of the decoding error that stops the reading, if any.
pub fn parse_tree(data: &[u8]) -> (r: (Vec<TreeEntry>, Option<String>))
    ensures
        entries_view(r.0@) == tree_entries_of(data@).0.map_values(|e: (bool, bool, Seq<u8>)| classify(e)),
        opt_text(r.1) == tree_entries_of(data@).1,
{
    let (raw, error) = gix_tree_entries(data);
    let ghost es = tree_entries_of(data@).0;
    let mut out: Vec<TreeEntry> = Vec::new();
    let mut i: usize = 0;
    while i < raw.len()
        invariant
            i <= raw@.len(),
            raw@.len() == es.len(),
            forall|k: int| 0 <= k < raw@.len() ==> {
                let e = #[trigger] raw@[k];
                let f = es[k];
                &&& e.0 == f.0
                &&& e.1 == f.1
                &&& e.2@ == f.2
                &&& f.2.len() == 20
            },
            entries_view(out@) == es.subrange(0, i as int).map_values(|e: (bool, bool, Seq<u8>)| classify(e)),
        decreases raw.len() - i,
    {
        let (is_tree, is_commit, ref bytes) = raw[i];
        let kind = if is_tree {
            EntryKind::Tree
        } else if is_commit {
            EntryKind::Submodule
        } else {
            EntryKind::Blob
        };
        let ghost out0 = out@;
        out.push(TreeEntry { kind, oid: oid_from_bytes(bytes.as_slice()) });
        proof {
            assert(raw@[i as int] == (is_tree, is_commit, *bytes));
            assert(entries_view(out@) =~= entries_view(out0).push(classify(es[i as int])));
            assert(es.subrange(0, i + 1) =~= es.subrange(0, i as int).push(es[i as int]));
            assert(es.subrange(0, i + 1).map_values(|e: (bool, bool, Seq<u8>)| classify(e))
                =~= es.subrange(0, i as int).map_values(|e: (bool, bool, Seq<u8>)| classify(e)).push(classify(es[i as int])));
        }
        i = i + 1;
    }
    assert(es.subrange(0, es.len() as int) =~= es);
    (out, error)
}

/// Reads the id of a commit object's root tree, or the message of the
/// error that reading it gives.
pub fn commit_tree(data: &[u8]) -> (r: Result<ObjectId, String>)
    ensures
        match commit_tree_of(data@) {
            Ok(t) => r matches Ok(id) && id@ == t,
            Err(m) => r matches Err(e) && e@ == m,
        },
{
    match gix_commit_tree(data) {
        Ok(v) => Ok(oid_from_bytes(v.as_slice())),
        Err(e) => Err(e),
    }
}

} // verus!
