use vstd::prelude::*;

use crate::line::SuperCover;

verus! {

/// The total number of cells the listed streams have yet to report.
pub open spec fn total_len(streams: Seq<Seq<(i32, i32)>>) -> nat
    decreases streams.len(),
{
    if streams.len() == 0 {
        0
    } else {
        streams[0].len() + total_len(streams.skip(1))
    }
}

/// The first index at or after `from` whose stream still has cells, or -1
/// when every stream from `from` on is drained.
pub open spec fn first_live(streams: Seq<Seq<(i32, i32)>>, from: int) -> int
    decreases streams.len() - from,
    when 0 <= from
{
    if from >= streams.len() {
        -1
    } else if streams[from].len() > 0 {
        from
    } else {
        first_live(streams, from + 1)
    }
}

/// The sub-traversal that reports next: the first live one at or after
/// `cursor`, wrapping around once, or -1 when every one is drained.
pub open spec fn pick_live(streams: Seq<Seq<(i32, i32)>>, cursor: int) -> int {
    if first_live(streams, cursor) >= 0 {
        first_live(streams, cursor)
    } else {
        first_live(streams, 0)
    }
}

/// A nonnegative pick is a valid index of a live stream.
pub proof fn lemma_first_live_valid(streams: Seq<Seq<(i32, i32)>>, from: int)
    requires
        0 <= from,
        first_live(streams, from) >= 0,
    ensures
        from <= first_live(streams, from) < streams.len(),
        streams[first_live(streams, from)].len() > 0,
    decreases streams.len() - from,
{
    if from < streams.len() && streams[from].len() == 0 {
        lemma_first_live_valid(streams, from + 1);
    }
}

/// Once every stream is drained, no live one can be found.
pub proof fn lemma_first_live_none(streams: Seq<Seq<(i32, i32)>>, from: int)
    requires
        0 <= from,
        forall|i: int| 0 <= i < streams.len() ==> (#[trigger] streams[i]).len() == 0,
    ensures
        first_live(streams, from) == -1,
    decreases streams.len() - from,
{
    if from < streams.len() {
        lemma_first_live_none(streams, from + 1);
    }
}

/// The cells a round-robin merge of `streams`, starting at `cursor`,
/// reports from here on: the head of the picked stream, then the merge of
/// what is left with the turn handed onward, until every stream is
/// drained.
pub open spec fn merge_seq(streams: Seq<Seq<(i32, i32)>>, cursor: int) -> Seq<(i32, i32)>
    decreases total_len(streams),
    when 0 <= cursor
{
    let j = pick_live(streams, cursor);
    if j < 0 {
        Seq::empty()
    } else {
        proof {
            if first_live(streams, cursor) >= 0 {
                lemma_first_live_valid(streams, cursor);
            } else {
                lemma_first_live_valid(streams, 0);
            }
            lemma_total_len_update(streams, j);
        }
        seq![streams[j][0]] + merge_seq(streams.update(j, streams[j].skip(1)), j + 1)
    }
}

/// Merge of several supercover traversals into one stream of cells.
///
/// The merge drains its sub-traversals round-robin: each call reports the
/// next cell of the first traversal, at or cyclically after the one that
/// reported last, that still has cells. No sub-traversal is skipped and
/// each sub-traversal's own order is kept, so the merged stream presents
/// every vertex's path in near-to-far order, and it ends only when every
/// sub-traversal is exhausted.
pub struct MultiTraversal {
    covers: Vec<SuperCover>,
    cursor: usize,
}

impl MultiTraversal {
    /// The cells each sub-traversal has yet to report, in order.
    pub closed spec fn streams(self) -> Seq<Seq<(i32, i32)>> {
        self.covers@.map(|i: int, sc: SuperCover| sc.remaining())
    }

    /// The index of the sub-traversal the next call looks at first.
    pub closed spec fn spec_cursor(self) -> int {
        self.cursor as int
    }

    /// The total number of cells yet to be reported.
    pub open spec fn spec_total(self) -> nat {
        total_len(self.streams())
    }

    /// The index of the sub-traversal that will report next: the first
    /// live one at or after the cursor, wrapping around once, or -1 when
    /// every sub-traversal is exhausted.
    pub open spec fn spec_pick(self) -> int {
        pick_live(self.streams(), self.spec_cursor())
    }

    /// Every cell the merge has yet to report, in order.
    pub open spec fn spec_merged(self) -> Seq<(i32, i32)> {
        merge_seq(self.streams(), self.spec_cursor())
    }

    /// Every sub-traversal is in a consistent state and the cursor points
    /// at a sub-traversal or just past the last one. [`MultiTraversal::new`]
    /// establishes this and every operation preserves it.
    pub closed spec fn well_formed(self) -> bool {
        &&& self.cursor <= self.covers@.len()
        &&& forall|i: int|
            0 <= i < self.covers@.len() ==> (#[trigger] self.covers@[i]).well_formed()
    }

    /// Create a merge with no sub-traversals.
    pub fn new() -> (r: MultiTraversal)
        ensures
            r.well_formed(),
            r.streams() == Seq::<Seq<(i32, i32)>>::empty(),
            r.spec_cursor() == 0,
    {
        let r = MultiTraversal { covers: Vec::new(), cursor: 0 };
        proof {
            assert(r.streams() =~= Seq::<Seq<(i32, i32)>>::empty());
        }
        r
    }

    /// Add one sub-traversal to the merge.
    pub fn push(&mut self, cover: SuperCover)
        requires
            old(self).well_formed(),
        ensures
            final(self).well_formed(),
            final(self).streams() == old(self).streams().push(cover.remaining()),
            final(self).spec_cursor() == old(self).spec_cursor(),
    {
        proof {
            use_type_invariant(&cover);
        }
        self.covers.push(cover);
        proof {
            assert(self.streams() =~= old(self).streams().push(cover.remaining()));
        }
    }

    /// Report the next cell of the merge: the head of the first live
    /// sub-traversal at or cyclically after the cursor, which then hands
    /// the turn onward; the end of the stream only once every
    /// sub-traversal is exhausted.
    pub fn next(&mut self) -> (r: Option<(i32, i32)>)
        requires
            old(self).well_formed(),
        ensures
            final(self).well_formed(),
            r is None ==> {
                &&& *final(self) == *old(self)
                &&& old(self).spec_total() == 0
                &&& old(self).spec_merged() == Seq::<(i32, i32)>::empty()
                &&& forall|i: int|
                    0 <= i < old(self).streams().len()
                        ==> (#[trigger] old(self).streams()[i]).len() == 0
            },
            r is Some ==> {
                &&& 0 <= old(self).spec_pick() < old(self).streams().len()
                &&& old(self).streams()[old(self).spec_pick()].len() > 0
                &&& r == Some(old(self).streams()[old(self).spec_pick()][0])
                &&& final(self).streams() == old(self).streams().update(
                    old(self).spec_pick(),
                    old(self).streams()[old(self).spec_pick()].skip(1),
                )
                &&& final(self).spec_total() + 1 == old(self).spec_total()
                &&& final(self).spec_cursor() == old(self).spec_pick() + 1
                &&& old(self).spec_merged() == seq![
                    old(self).streams()[old(self).spec_pick()][0],
                ] + final(self).spec_merged()
                &&& r == Some(old(self).spec_merged()[0])
            },
    {
        let n = self.covers.len();
        let mut j = self.cursor;
        let mut live = false;
        while j < n
            invariant_except_break
                !live,
            invariant
                self.cursor <= j <= n,
                n == self.covers@.len(),
                *self == *old(self),
                first_live(self.streams(), self.cursor as int) == first_live(
                    self.streams(),
                    j as int,
                ),
            ensures
                self.cursor <= j <= n,
                n == self.covers@.len(),
                *self == *old(self),
                live ==> j < n && self.streams()[j as int].len() > 0 && first_live(
                    self.streams(),
                    self.cursor as int,
                ) == j,
                !live ==> j == n,
            decreases n - j,
        {
            proof {
                assert(self.streams()[j as int] == self.covers@[j as int].remaining());
            }
            if !self.covers[j].is_exhausted() {
                live = true;
                break ;
            }
            j = j + 1;
        }
        if !live {
            let mut j2: usize = 0;
            while j2 < n
                invariant_except_break
                    !live,
                invariant
                    j2 <= n,
                    n == self.covers@.len(),
                    *self == *old(self),
                    first_live(self.streams(), 0) == first_live(self.streams(), j2 as int),
                    forall|i: int| 0 <= i < j2 ==> (#[trigger] self.streams()[i]).len() == 0,
                ensures
                    j2 <= n,
                    n == self.covers@.len(),
                    *self == *old(self),
                    live ==> j2 < n && self.streams()[j2 as int].len() > 0 && first_live(
                        self.streams(),
                        0,
                    ) == j2,
                    !live ==> j2 == n && forall|i: int|
                        0 <= i < n ==> (#[trigger] self.streams()[i]).len() == 0,
                decreases n - j2,
            {
                proof {
                    assert(self.streams()[j2 as int] == self.covers@[j2 as int].remaining());
                }
                if !self.covers[j2].is_exhausted() {
                    live = true;
                    break ;
                }
                j2 = j2 + 1;
            }
            if !live {
                proof {
                    lemma_total_len_all_empty(self.streams());
                    lemma_first_live_none(self.streams(), self.cursor as int);
                    lemma_first_live_none(self.streams(), 0);
                }
                return None;
            }
            j = j2;
        }
        proof {
            assert(j == old(self).spec_pick());
            assert(self.streams()[j as int] == self.covers@[j as int].remaining());
        }
        let mut sc = self.covers[j];
        let cell = sc.next();
        self.covers[j] = sc;
        self.cursor = j + 1;
        proof {
            use_type_invariant(&sc);
            assert(self.streams() =~= old(self).streams().update(
                j as int,
                old(self).streams()[j as int].skip(1),
            ));
            lemma_total_len_update(old(self).streams(), j as int);
            assert(old(self).spec_merged() == seq![old(self).streams()[j as int][0]]
                + self.spec_merged());
        }
        cell
    }

    /// Drain the merge into a list of cells: exactly the merged stream, as
    /// many cells as all the sub-traversals together still held.
    pub fn into_tiles(self) -> (r: Vec<(i32, i32)>)
        requires
            self.well_formed(),
        ensures
            r@ == self.spec_merged(),
            r@.len() == self.spec_total(),
    {
        let mut tiles: Vec<(i32, i32)> = Vec::new();
        let mut merge = self;
        loop
            invariant
                merge.well_formed(),
                tiles@.len() + merge.spec_total() == self.spec_total(),
                tiles@ + merge.spec_merged() == self.spec_merged(),
            ensures
                tiles@.len() == self.spec_total(),
                tiles@ == self.spec_merged(),
            decreases merge.spec_total(),
        {
            let ghost before = merge;
            match merge.next() {
                Some(cell) => {
                    tiles.push(cell);
                    proof {
                        assert(tiles@ + merge.spec_merged() =~= self.spec_merged());
                    }
                },
                None => {
                    proof {
                        assert(tiles@ + merge.spec_merged() =~= tiles@);
                    }
                    break ;
                },
            }
        }
        tiles
    }
}

/// Taking the head of one live stream shortens the total by exactly one.
pub proof fn lemma_total_len_update(streams: Seq<Seq<(i32, i32)>>, j: int)
    requires
        0 <= j < streams.len(),
        streams[j].len() > 0,
    ensures
        total_len(streams.update(j, streams[j].skip(1))) + 1 == total_len(streams),
    decreases j,
{
    let updated = streams.update(j, streams[j].skip(1));
    if j == 0 {
        assert(updated.skip(1) =~= streams.skip(1));
    } else {
        assert(updated.skip(1) =~= streams.skip(1).update(j - 1, streams.skip(1)[j - 1].skip(1)));
        lemma_total_len_update(streams.skip(1), j - 1);
    }
}

/// When every stream is drained the total is zero.
proof fn lemma_total_len_all_empty(streams: Seq<Seq<(i32, i32)>>)
    requires
        forall|i: int| 0 <= i < streams.len() ==> (#[trigger] streams[i]).len() == 0,
    ensures
        total_len(streams) == 0,
    decreases streams.len(),
{
    if streams.len() > 0 {
        lemma_total_len_all_empty(streams.skip(1));
    }
}

} // verus!
