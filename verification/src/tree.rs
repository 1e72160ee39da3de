//! Generic document-tree engine.
//!
//! A `Builder` appends nodes during a single forward pass over the block
//! structure; `finish` freezes the result into a `Tree`, which doubles as a
//! cursor replaying the stored nodes as a depth-first event stream.
//!
//! The tree is stored as the flat depth-first event sequence itself, with a
//! parallel array `mat` that links each `Enter` event to the index of its
//! matching `Exit`.  The arena is reference-counted, so independent cursors
//! over the same finished tree share one immutable store.

use crate::span::Span;
use std::rc::Rc;
use vstd::assert_seqs_equal;
use vstd::prelude::*;

verus! {

/// One step of a depth-first replay of the tree.
#[derive(Debug, Clone, Copy, PartialEq, Eq)]
pub enum EventKind<C, A> {
    Enter(C),
    Inline,
    Exit(C),
    Atom(A),
}

/// A direct child of the current position, seen without descending into it.
#[derive(Debug, Clone, Copy, PartialEq, Eq)]
pub enum Element<C, A> {
    Container(C),
    Atom(A),
    Inline,
}

/// An event of the replayed stream, tagged with its source span.
#[derive(Debug, Clone, Copy, PartialEq, Eq)]
pub struct Event<C, A> {
    pub kind: EventKind<C, A>,
    pub span: Span,
}

/// The events in `[i, j)` form a well-nested forest: every `Enter` at `x`
/// is matched by the `Exit` at `mat[x]` (same container, same span), the
/// region strictly between them is itself well nested, and no unmatched
/// `Exit` occurs.
pub open spec fn bal<C, A>(evs: Seq<Event<C, A>>, mat: Seq<usize>, i: int, j: int) -> bool
    decreases j - i,
{
    if i >= j {
        i == j
    } else {
        match evs[i].kind {
            EventKind::Exit(_) => false,
            EventKind::Enter(c) => {
                let m = mat[i] as int;
                &&& i < m < j
                &&& evs[m].kind == EventKind::<C, A>::Exit(c)
                &&& evs[m].span == evs[i].span
                &&& bal(evs, mat, i + 1, m)
                &&& bal(evs, mat, m + 1, j)
            },
            _ => bal(evs, mat, i + 1, j),
        }
    }
}

/// `bal` only reads the events and match links inside `[i, j)`, so it is
/// stable under any change outside that window (in particular appends).
pub proof fn lemma_bal_frame<C, A>(
    evs1: Seq<Event<C, A>>,
    mat1: Seq<usize>,
    evs2: Seq<Event<C, A>>,
    mat2: Seq<usize>,
    i: int,
    j: int,
)
    requires
        bal(evs1, mat1, i, j),
        0 <= i,
        j <= evs1.len(),
        j <= evs2.len(),
        j <= mat1.len(),
        j <= mat2.len(),
        forall|x: int| i <= x < j ==> #[trigger] evs2[x] == evs1[x],
        forall|x: int| i <= x < j ==> #[trigger] mat2[x] == mat1[x],
    ensures
        bal(evs2, mat2, i, j),
    decreases j - i,
{
    if i < j {
        match evs1[i].kind {
            EventKind::Enter(_c) => {
                let m = mat1[i] as int;
                assert(i < m < j);
                lemma_bal_frame(evs1, mat1, evs2, mat2, i + 1, m);
                lemma_bal_frame(evs1, mat1, evs2, mat2, m + 1, j);
            },
            EventKind::Exit(_) => {},
            _ => {
                lemma_bal_frame(evs1, mat1, evs2, mat2, i + 1, j);
            },
        }
    }
}

/// The `Exit` event that closing the container opened at index `o` emits:
/// same container, same span as its `Enter`.
pub open spec fn exit_event_of<C, A>(evs: Seq<Event<C, A>>, o: int) -> Event<C, A> {
    Event { kind: EventKind::Exit(evs[o].kind->Enter_0), span: evs[o].span }
}

/// Append-only construction of a tree during a single forward pass.
///
/// `atom`, `inline` and `enter` append one node each; `exit` closes the
/// container opened by the matching `enter`.  Unbalanced use is excluded by
/// the contracts: `exit` demands an open container and `finish` demands that
/// every container has been closed.
pub struct Builder<C, A> {
    events: Vec<Event<C, A>>,
    mat: Vec<usize>,
    opens: Vec<usize>,
}

impl<C: Copy, A: Copy> Builder<C, A> {
    /// The events appended so far, in call order (with each `exit` recorded
    /// as the `Exit` event of the container it closed).
    pub closed spec fn events_s(self) -> Seq<Event<C, A>> {
        self.events@
    }

    /// The currently open containers, outermost first: for each, the
    /// container and the span its `Enter` was appended with.
    pub closed spec fn open_stack(self) -> Seq<(C, Span)> {
        Seq::new(
            self.opens@.len(),
            |x: int|
                (
                    self.events@[self.opens@[x] as int].kind->Enter_0,
                    self.events@[self.opens@[x] as int].span,
                ),
        )
    }

    /// How many containers are currently open.
    pub open spec fn depth_s(self) -> int {
        self.open_stack().len() as int
    }

    /// Start of the builder's root-level segment that follows open enter `x`.
    pub closed spec fn blo(self, x: int) -> int {
        if x == 0 {
            0
        } else {
            self.opens@[x - 1] + 1
        }
    }

    /// End of the builder's segment that precedes open enter `x`.
    pub closed spec fn bhi(self, x: int) -> int {
        if x == self.opens@.len() {
            self.events@.len() as int
        } else {
            self.opens@[x] as int
        }
    }

    /// The builder's internal invariant: the events between consecutive
    /// still-open `Enter`s form well-nested regions.
    pub closed spec fn wf(self) -> bool {
        let evs = self.events@;
        let mat = self.mat@;
        let k = self.opens@.len() as int;
        &&& mat.len() == evs.len()
        &&& forall|x: int|
            0 <= x < k ==> (#[trigger] self.opens@[x]) < evs.len() && evs[self.opens@[x] as int].kind is Enter
        &&& forall|x: int, y: int|
            0 <= x < y < k ==> (#[trigger] self.opens@[x]) < (#[trigger] self.opens@[y])
        &&& forall|x: int| 0 <= x <= k ==> bal(evs, mat, self.blo(x), #[trigger] self.bhi(x))
    }

    pub fn new() -> (r: Self)
        ensures
            r.wf(),
            r.events_s().len() == 0,
            r.open_stack().len() == 0,
    {
        Builder { events: Vec::new(), mat: Vec::new(), opens: Vec::new() }
    }

    /// Append a leaf node and reestablish the invariant: the last open
    /// segment grows by one leaf event.
    fn push_leaf(&mut self, ev: Event<C, A>)
        requires
            old(self).wf(),
            !(ev.kind is Enter),
            !(ev.kind is Exit),
        ensures
            final(self).wf(),
            final(self).events_s() == old(self).events_s().push(ev),
            final(self).open_stack() == old(self).open_stack(),
            final(self).opens@ == old(self).opens@,
    {
        let ghost old_evs = self.events@;
        let ghost old_mat = self.mat@;
        let ghost n = self.events@.len() as int;
        self.events.push(ev);
        self.mat.push(0);
        proof {
            let evs = self.events@;
            let mat = self.mat@;
            let k = self.opens@.len() as int;
            assert_seqs_equal!(self.open_stack(), old(self).open_stack());
            assert forall|x: int| 0 <= x <= k implies bal(evs, mat, self.blo(x), #[trigger] self.bhi(x)) by {
                assert(old(self).bhi(x) == self.bhi(x) || x == k);
                assert(bal(old_evs, old_mat, self.blo(x), old(self).bhi(x)));
                lemma_bal_frame(old_evs, old_mat, evs, mat, self.blo(x), old(self).bhi(x));
                if x == k {
                    assert(bal(evs, mat, n + 1, n + 1));
                    assert(bal(evs, mat, n, n + 1));
                    lemma_bal_append(evs, mat, self.blo(x), n, n + 1);
                }
            }
        }
    }

    /// Append an atom leaf.
    pub fn atom(&mut self, a: A, span: Span)
        requires
            old(self).wf(),
        ensures
            final(self).wf(),
            final(self).events_s() == old(self).events_s().push(
                Event { kind: EventKind::Atom(a), span },
            ),
            final(self).open_stack() == old(self).open_stack(),
    {
        self.push_leaf(Event { kind: EventKind::Atom(a), span });
    }

    /// Append an inline placeholder leaf, to be resolved by a later pass.
    pub fn inline(&mut self, span: Span)
        requires
            old(self).wf(),
        ensures
            final(self).wf(),
            final(self).events_s() == old(self).events_s().push(
                Event { kind: EventKind::Inline, span },
            ),
            final(self).open_stack() == old(self).open_stack(),
    {
        self.push_leaf(Event { kind: EventKind::Inline, span });
    }

    /// Open a container; its children are the nodes appended before the
    /// matching `exit`.
    pub fn enter(&mut self, c: C, span: Span)
        requires
            old(self).wf(),
        ensures
            final(self).wf(),
            final(self).events_s() == old(self).events_s().push(
                Event { kind: EventKind::Enter(c), span },
            ),
            final(self).open_stack() == old(self).open_stack().push((c, span)),
    {
        let ghost old_evs = self.events@;
        let ghost old_mat = self.mat@;
        let ghost n = self.events@.len() as int;
        let idx = self.events.len();
        self.events.push(Event { kind: EventKind::Enter(c), span });
        self.mat.push(0);
        self.opens.push(idx);
        proof {
            let evs = self.events@;
            let mat = self.mat@;
            let k = self.opens@.len() as int;
            assert_seqs_equal!(self.open_stack(), old(self).open_stack().push((c, span)));
            assert forall|x: int| 0 <= x <= k implies bal(evs, mat, self.blo(x), #[trigger] self.bhi(x)) by {
                if x < k {
                    assert(self.blo(x) == old(self).blo(x));
                    assert(self.bhi(x) == old(self).bhi(x));
                    assert(bal(old_evs, old_mat, self.blo(x), self.bhi(x)));
                    lemma_bal_frame(old_evs, old_mat, evs, mat, self.blo(x), self.bhi(x));
                } else {
                    assert(self.blo(x) == n + 1 && self.bhi(x) == n + 1);
                }
            }
        }
    }

    /// Close the innermost open container: append its `Exit` event and link
    /// the pair through `mat`.
    pub fn exit(&mut self)
        requires
            old(self).wf(),
            old(self).depth_s() > 0,
        ensures
            final(self).wf(),
            final(self).open_stack() == old(self).open_stack().drop_last(),
            final(self).events_s() == old(self).events_s().push(
                (Event {
                    kind: EventKind::Exit(old(self).open_stack().last().0),
                    span: old(self).open_stack().last().1,
                }),
            ),
    {
        let ghost old_self = *old(self);
        let ghost old_evs = self.events@;
        let ghost old_mat = self.mat@;
        let ghost n = self.events@.len() as int;
        let ghost k = self.opens@.len() as int;
        let o = self.opens[self.opens.len() - 1];
        let ghost oi = o as int;
        let ev = self.events[o];
        match ev.kind {
            EventKind::Enter(c) => {
                let idx = self.events.len();
                self.mat.set(o, idx);
                self.events.push(Event { kind: EventKind::Exit(c), span: ev.span });
                self.mat.push(0);
                let _ = self.opens.pop();
                proof {
                    let evs = self.events@;
                    let mat = self.mat@;
                    let k2 = self.opens@.len() as int;
                    assert(k2 == k - 1);
                    assert(old_self.open_stack().last() == (c, ev.span));
                    assert_seqs_equal!(self.open_stack(), old_self.open_stack().drop_last());
                    assert forall|x: int| 0 <= x <= k2 implies bal(
                        evs,
                        mat,
                        self.blo(x),
                        #[trigger] self.bhi(x),
                    ) by {
                        if x < k2 {
                            assert(self.blo(x) == old_self.blo(x));
                            assert(self.bhi(x) == old_self.bhi(x) && old_self.bhi(x) == old_self.opens@[x]);
                            assert(old_self.opens@[x] < oi);
                            assert(bal(old_evs, old_mat, self.blo(x), self.bhi(x)));
                            lemma_bal_frame(old_evs, old_mat, evs, mat, self.blo(x), self.bhi(x));
                        } else {
                            // the last two old segments, the reopened enter and
                            // the new exit merge into one well-nested region
                            assert(self.blo(x) == old_self.blo(k - 1));
                            assert(self.bhi(x) == n + 1);
                            assert(old_self.bhi(k - 1) == oi);
                            assert(bal(old_evs, old_mat, old_self.blo(k - 1), old_self.bhi(k - 1)));
                            assert(bal(old_evs, old_mat, old_self.blo(k - 1), oi));
                            lemma_bal_frame(old_evs, old_mat, evs, mat, old_self.blo(k - 1), oi);
                            assert(old_self.blo(k) == oi + 1 && old_self.bhi(k) == n);
                            assert(bal(old_evs, old_mat, old_self.blo(k), old_self.bhi(k)));
                            assert(bal(old_evs, old_mat, oi + 1, n));
                            lemma_bal_frame(old_evs, old_mat, evs, mat, oi + 1, n);
                            assert(evs[oi].kind == EventKind::<C, A>::Enter(c));
                            assert(mat[oi] == n);
                            assert(evs[n].kind == EventKind::<C, A>::Exit(c));
                            assert(evs[n].span == evs[oi].span);
                            assert(bal(evs, mat, n + 1, n + 1));
                            assert(bal(evs, mat, oi, n + 1));
                            lemma_bal_append(evs, mat, old_self.blo(k - 1), oi, n + 1);
                        }
                    }
                }
            },
            _ => {
                proof {
                    assert(false);
                }
            },
        }
    }

    /// How many containers are currently open.
    pub fn depth(&self) -> (r: usize)
        ensures
            r == self.depth_s(),
    {
        self.opens.len()
    }

    /// Freeze the builder into an immutable tree whose cursor starts at the
    /// first appended node.  Replaying that cursor with `next` reproduces
    /// exactly the appended event sequence, in order: the build and the
    /// replay are a round trip.
    pub fn finish(self) -> (r: Tree<C, A>)
        requires
            self.wf(),
            self.depth_s() == 0,
        ensures
            r.wf(),
            r.events_s() == self.events_s(),
            r.remaining() == self.events_s(),
            bal(r.events_s(), r.mat_s(), 0, r.events_s().len() as int),
            r.pos_s() == 0,
            r.end_s() == r.events_s().len(),
            r.opens_s().len() == 0,
    {
        let ghost b = self;
        let n = self.events.len();
        let r = Tree {
            events: Rc::new(self.events),
            mat: Rc::new(self.mat),
            pos: 0,
            end: n,
            opens: Vec::new(),
        };
        proof {
            assert(b.blo(0) == 0 && b.bhi(0) == n);
            assert(bal(r.events_s(), r.mat_s(), b.blo(0), b.bhi(0)));
            assert_seqs_equal!(r.remaining(), r.events_s());
        }
        r
    }
}

/// A finished tree together with a cursor over it.
///
/// The node store is immutable and reference-counted, so cursors produced by
/// `take_branch` or `linear_containers` share it without copying.  The cursor
/// replays `events` from `pos` up to `end`; `opens` holds the indices of the
/// `Enter` events whose subtrees the cursor is currently inside.
pub struct Tree<C, A> {
    events: Rc<Vec<Event<C, A>>>,
    mat: Rc<Vec<usize>>,
    pos: usize,
    end: usize,
    opens: Vec<usize>,
}

impl<C: Copy, A: Copy> Tree<C, A> {
    /// The whole stored event sequence.
    pub closed spec fn events_s(self) -> Seq<Event<C, A>> {
        self.events@
    }

    /// The match links of the stored event sequence.
    pub closed spec fn mat_s(self) -> Seq<usize> {
        self.mat@
    }

    /// The events the cursor has yet to produce.
    pub closed spec fn remaining(self) -> Seq<Event<C, A>> {
        self.events@.subrange(self.pos as int, self.end as int)
    }

    pub closed spec fn pos_s(self) -> int {
        self.pos as int
    }

    /// Indices of the `Enter` events whose subtrees the cursor is inside.
    pub closed spec fn opens_s(self) -> Seq<usize> {
        self.opens@
    }

    pub closed spec fn end_s(self) -> int {
        self.end as int
    }

    /// Where the current nesting level ends: the position of the `Exit` of
    /// the innermost open container, or the end of the cursor's range.
    pub closed spec fn level_end(self) -> int {
        if self.opens@.len() == 0 {
            self.end as int
        } else {
            self.mat@[self.opens@.last() as int] as int
        }
    }

    /// The cursor invariant: the remaining range splits, at the `Exit`
    /// positions of the currently open containers, into well-nested regions.
    pub closed spec fn wf(self) -> bool {
        let evs = self.events@;
        let mat = self.mat@;
        let k = self.opens@.len() as int;
        &&& mat.len() == evs.len()
        &&& self.pos <= self.end <= evs.len()
        &&& forall|x: int|
            0 <= x < k ==> {
                let m = mat[#[trigger] self.opens@[x] as int] as int;
                &&& self.opens@[x] < evs.len()
                &&& evs[self.opens@[x] as int].kind is Enter
                &&& self.pos <= m < self.end
                &&& evs[m] == exit_event_of(evs, self.opens@[x] as int)
            }
        &&& forall|x: int, y: int|
            0 <= x < y < k ==> mat[#[trigger] self.opens@[y] as int] < mat[#[trigger] self.opens@[x] as int]
        &&& bal(evs, mat, self.pos as int, self.level_end())
        &&& forall|x: int|
            1 <= x < k ==> bal(
                evs,
                mat,
                mat[self.opens@[x] as int] as int + 1,
                mat[#[trigger] self.opens@[x - 1] as int] as int,
            )
        &&& k > 0 ==> bal(evs, mat, mat[self.opens@[0] as int] as int + 1, self.end as int)
    }

    /// A tree with no nodes at all.
    pub fn empty() -> (r: Self)
        ensures
            r.wf(),
            r.events_s().len() == 0,
            r.mat_s().len() == 0,
            r.pos_s() == 0,
            r.end_s() == 0,
            r.opens_s().len() == 0,
            r.remaining().len() == 0,
    {
        Tree {
            events: Rc::new(Vec::new()),
            mat: Rc::new(Vec::new()),
            pos: 0,
            end: 0,
            opens: Vec::new(),
        }
    }

    /// Produce the next event of the depth-first replay, or `None` once the
    /// cursor's range is exhausted.  The replay yields exactly the remaining
    /// events in stored order.
    pub fn next(&mut self) -> (r: Option<Event<C, A>>)
        requires
            old(self).wf(),
        ensures
            final(self).wf(),
            final(self).events_s() == old(self).events_s(),
            final(self).mat_s() == old(self).mat_s(),
            final(self).end_s() == old(self).end_s(),
            r is Some <==> old(self).pos_s() < old(self).end_s(),
            (r matches Some(ev) ==> ev == old(self).events_s()[old(self).pos_s()]
                && final(self).pos_s() == old(self).pos_s() + 1),
            (r matches Some(ev) ==> old(self).remaining() == seq![ev] + final(self).remaining()),
            (r matches Some(ev) ==> match ev.kind {
                EventKind::Enter(_) => final(self).opens_s() == old(self).opens_s().push(
                    old(self).pos_s() as usize,
                ),
                EventKind::Exit(_) => old(self).opens_s().len() > 0 && ev == exit_event_of(
                    old(self).events_s(),
                    old(self).opens_s().last() as int,
                ) && final(self).opens_s() == old(self).opens_s().drop_last(),
                _ => final(self).opens_s() == old(self).opens_s(),
            }),
            r is None ==> old(self).opens_s().len() == 0 && *final(self) == *old(self),
    {
        if self.pos < self.end {
            let ev = (*self.events)[self.pos];
            proof {
                if self.pos as int == self.level_end() {
                    assert(self.opens@.len() > 0);
                    assert(self.events@[self.pos as int].kind is Exit);
                }
            }
            match ev.kind {
                EventKind::Enter(_) => {
                    let ghost old_self = *self;
                    proof {
                        assert(self.pos < self.level_end());
                    }
                    self.opens.push(self.pos);
                    self.pos = self.pos + 1;
                    proof {
                        lemma_next_enter(old_self, *self);
                    }
                },
                EventKind::Exit(_) => {
                    let ghost old_self = *self;
                    proof {
                        if self.pos < self.level_end() {
                            assert(!bal(self.events@, self.mat@, self.pos as int, self.level_end()));
                        }
                        assert(self.pos as int == self.level_end());
                        assert(self.opens@.len() > 0);
                    }
                    let _ = self.opens.pop();
                    self.pos = self.pos + 1;
                    proof {
                        lemma_pop_level(old_self, *self);
                    }
                },
                _ => {
                    let ghost old_self = *self;
                    proof {
                        assert(self.pos < self.level_end());
                    }
                    self.pos = self.pos + 1;
                    proof {
                        assert(bal(
                            self.events@,
                            self.mat@,
                            old_self.pos as int,
                            old_self.level_end(),
                        ));
                        assert(bal(self.events@, self.mat@, self.pos as int, self.level_end()));
                    }
                },
            }
            proof {
                assert_seqs_equal!(old(self).remaining(), seq![ev] + self.remaining());
            }
            Some(ev)
        } else {
            None
        }
    }

    /// Split off the remainder of the current nesting level.  The returned
    /// tree continues on this level, up to (excluding) the first `Exit` at
    /// the current depth (`level_split_at`); this cursor skips past the
    /// whole level (and past the `Exit` of the container enclosing it, if
    /// any) and resumes after it.  Draining the returned tree and then this
    /// cursor yields every remaining event except that single enclosing
    /// `Exit`: the split is a lossless partition of the depth-first replay.
    pub fn take_branch(&mut self) -> (r: Self)
        requires
            old(self).wf(),
        ensures
            final(self).wf(),
            r.wf(),
            r.events_s() == old(self).events_s(),
            r.mat_s() == old(self).mat_s(),
            r.opens_s().len() == 0,
            r.pos_s() == old(self).pos_s(),
            final(self).events_s() == old(self).events_s(),
            final(self).mat_s() == old(self).mat_s(),
            final(self).end_s() == old(self).end_s(),
            (old(self).opens_s().len() == 0 ==> r.end_s() == old(self).end_s()
                && final(self).pos_s() == old(self).end_s()
                && final(self).opens_s() == old(self).opens_s()),
            (old(self).opens_s().len() > 0 ==> r.end_s() == level_split_at(
                old(self).events_s(),
                old(self).pos_s(),
                old(self).end_s(),
                0,
            ) && final(self).pos_s() == r.end_s() + 1
                && final(self).opens_s() == old(self).opens_s().drop_last()),
            (old(self).opens_s().len() == 0 ==> r.remaining() == old(self).remaining()
                && final(self).remaining().len() == 0),
            (old(self).opens_s().len() > 0 ==> old(self).remaining() == r.remaining() + seq![
                old(self).events_s()[old(self).level_end()],
            ] + final(self).remaining() && old(self).events_s()[old(
                self,
            ).level_end()].kind is Exit),
    {
        if self.opens.len() == 0 {
            let r = Tree {
                events: Rc::clone(&self.events),
                mat: Rc::clone(&self.mat),
                pos: self.pos,
                end: self.end,
                opens: Vec::new(),
            };
            self.pos = self.end;
            proof {
                assert(bal(self.events_s(), self.mat_s(), self.pos as int, self.level_end()));
            }
            r
        } else {
            let ghost old_self = *old(self);
            let o = self.opens[self.opens.len() - 1];
            let x = (*self.mat)[o];
            let r = Tree {
                events: Rc::clone(&self.events),
                mat: Rc::clone(&self.mat),
                pos: self.pos,
                end: x,
                opens: Vec::new(),
            };
            let _ = self.opens.pop();
            self.pos = x + 1;
            proof {
                lemma_pop_level(old_self, *self);
                assert(r.level_end() == x);
                assert(bal(r.events_s(), r.mat_s(), r.pos_s(), r.level_end()));
                lemma_split_balanced(
                    old_self.events_s(),
                    old_self.mat_s(),
                    old_self.pos_s(),
                    x as int,
                    old_self.end_s(),
                    0,
                );
                assert(level_split_at(old_self.events_s(), x as int, old_self.end_s(), 0)
                    == x as int);
                assert_seqs_equal!(
                    old(self).remaining(),
                    r.remaining() + seq![old(self).events_s()[old(self).level_end()]]
                        + self.remaining()
                );
            }
            r
        }
    }

    /// Collect the spans of the maximal run of consecutive `Inline` leaves
    /// at the cursor's position, advancing the cursor past the run: it stops
    /// at the first sibling that is not an inline placeholder, or at the end
    /// of the current nesting level.  The node at the cursor's position must
    /// be an inline placeholder, unless the level is exhausted (the next
    /// event is an `Exit`, or nothing remains).
    pub fn take_inlines(&mut self) -> (r: Vec<Span>)
        requires
            old(self).wf(),
            old(self).pos_s() < old(self).end_s() ==> (old(self).events_s()[old(
                self,
            ).pos_s()].kind is Inline || old(self).events_s()[old(self).pos_s()].kind is Exit),
        ensures
            final(self).wf(),
            final(self).events_s() == old(self).events_s(),
            final(self).mat_s() == old(self).mat_s(),
            final(self).end_s() == old(self).end_s(),
            final(self).opens_s() == old(self).opens_s(),
            final(self).pos_s() == inline_run_end(
                old(self).events_s(),
                old(self).pos_s(),
                old(self).end_s(),
            ),
            r@.len() == final(self).pos_s() - old(self).pos_s(),
            forall|x: int|
                0 <= x < r@.len() ==> r@[x] == old(self).events_s()[old(self).pos_s() + x].span,
    {
        let ghost evs = self.events_s();
        let ghost pos0 = self.pos_s();
        let le = if self.opens.len() == 0 {
            self.end
        } else {
            (*self.mat)[self.opens[self.opens.len() - 1]]
        };
        proof {
            assert(le == self.level_end());
        }
        let mut spans: Vec<Span> = Vec::new();
        let mut i = self.pos;
        let mut done = false;
        while !done && i < le
            invariant
                self.wf(),
                self == old(self),
                evs == self.events_s(),
                pos0 == self.pos_s(),
                le == self.level_end(),
                self.pos <= i <= le,
                le <= evs.len(),
                bal(evs, self.mat_s(), i as int, le as int),
                inline_run_end(evs, pos0, le as int) == inline_run_end(evs, i as int, le as int),
                done ==> inline_run_end(evs, i as int, le as int) == i,
                spans@.len() == i - self.pos,
                forall|x: int| 0 <= x < spans@.len() ==> spans@[x] == evs[pos0 + x].span,
            decreases le - i, 1int - (if done { 1int } else { 0int }),
        {
            let ev = (*self.events)[i];
            match ev.kind {
                EventKind::Inline => {
                    spans.push(ev.span);
                    i = i + 1;
                },
                _ => {
                    done = true;
                },
            }
        }
        self.pos = i;
        proof {
            assert(inline_run_end(evs, i as int, le as int) == i);
            assert(bal(self.events_s(), self.mat_s(), self.pos as int, self.level_end()));
            if (le as int) < old(self).end_s() {
                assert(evs[le as int].kind is Exit);
            }
            lemma_run_end_stop(evs, pos0, le as int, old(self).end_s());
        }
        spans
    }

    /// Count the direct children of the current position, without
    /// descending into them: exactly the `Enter`, `Atom` and `Inline`
    /// events a fork of this cursor would produce at the top level while
    /// draining, descendants and `Exit`s ignored.
    pub fn count_children(&self) -> (r: usize)
        requires
            self.wf(),
        ensures
            r == n_children(self.events_s(), self.mat_s(), self.pos_s(), self.level_end()),
            r == drained_top_level(self.events_s(), self.pos_s(), self.end_s(), 0),
    {
        proof {
            self.lemma_count_children_drained();
        }
        let ghost evs = self.events_s();
        let ghost mat = self.mat_s();
        let le = if self.opens.len() == 0 {
            self.end
        } else {
            (*self.mat)[self.opens[self.opens.len() - 1]]
        };
        proof {
            assert(le == self.level_end());
        }
        let mut count: usize = 0;
        let mut i = self.pos;
        while i < le
            invariant
                self.wf(),
                le == self.level_end(),
                evs == self.events_s(),
                mat == self.mat_s(),
                self.pos <= i <= le,
                le <= evs.len(),
                bal(evs, mat, i as int, le as int),
                count <= i,
                count + n_children(evs, mat, i as int, le as int) == n_children(
                    evs,
                    mat,
                    self.pos_s(),
                    le as int,
                ),
            decreases le - i,
        {
            let ev = (*self.events)[i];
            match ev.kind {
                EventKind::Enter(_) => {
                    proof {
                        assert(i < mat[i as int] < le);
                    }
                    i = (*self.mat)[i] + 1;
                },
                _ => {
                    i = i + 1;
                },
            }
            count = count + 1;
        }
        count
    }

    /// The direct children of the current position, each reported as a bare
    /// element, without descending into containers.
    pub fn linear(&self) -> (r: Vec<Element<C, A>>)
        requires
            self.wf(),
        ensures
            r@ == level_elems(self.events_s(), self.mat_s(), self.pos_s(), self.level_end()),
    {
        let ghost evs = self.events_s();
        let ghost mat = self.mat_s();
        let le = if self.opens.len() == 0 {
            self.end
        } else {
            (*self.mat)[self.opens[self.opens.len() - 1]]
        };
        proof {
            assert(le == self.level_end());
        }
        let mut out: Vec<Element<C, A>> = Vec::new();
        let mut i = self.pos;
        while i < le
            invariant
                self.wf(),
                le == self.level_end(),
                evs == self.events_s(),
                mat == self.mat_s(),
                self.pos <= i <= le,
                le <= evs.len(),
                bal(evs, mat, i as int, le as int),
                out@ + level_elems(evs, mat, i as int, le as int) == level_elems(
                    evs,
                    mat,
                    self.pos_s(),
                    le as int,
                ),
            decreases le - i,
        {
            let ghost prev = out@;
            let ghost gi = i as int;
            let ev = (*self.events)[i];
            match ev.kind {
                EventKind::Enter(c) => {
                    proof {
                        assert(i < mat[i as int] < le);
                    }
                    out.push(Element::Container(c));
                    i = (*self.mat)[i] + 1;
                },
                EventKind::Atom(a) => {
                    out.push(Element::Atom(a));
                    i = i + 1;
                },
                _ => {
                    out.push(Element::Inline);
                    i = i + 1;
                },
            }
            proof {
                let el = out@.last();
                assert_seqs_equal!(
                    prev.push(el) + level_elems(evs, mat, i as int, le as int),
                    prev + (seq![el] + level_elems(evs, mat, i as int, le as int))
                );
                assert(seq![el] + level_elems(evs, mat, i as int, le as int) == level_elems(
                    evs,
                    mat,
                    gi,
                    le as int,
                ));
            }
        }
        out
    }

    /// The upcoming container children of the current position, each paired
    /// with an independent cursor over that child's content.  All returned
    /// cursors share this tree's node store.
    pub fn linear_containers(&self) -> (r: Vec<(C, Tree<C, A>)>)
        requires
            self.wf(),
        ensures
            r@.len() == level_containers(self.events_s(), self.mat_s(), self.pos_s(), self.level_end()).len(),
            forall|x: int|
                0 <= x < r@.len() ==> {
                    let lc = level_containers(
                        self.events_s(),
                        self.mat_s(),
                        self.pos_s(),
                        self.level_end(),
                    );
                    &&& (#[trigger] r@[x]).0 == lc[x].0
                    &&& r@[x].1.wf()
                    &&& r@[x].1.events_s() == self.events_s()
                    &&& r@[x].1.remaining() == self.events_s().subrange(
                        lc[x].1 + 1,
                        self.mat_s()[lc[x].1] as int,
                    )
                },
    {
        let ghost evs = self.events_s();
        let ghost mat = self.mat_s();
        let ghost lc = level_containers(evs, mat, self.pos_s(), self.level_end());
        let le = if self.opens.len() == 0 {
            self.end
        } else {
            (*self.mat)[self.opens[self.opens.len() - 1]]
        };
        proof {
            assert(le == self.level_end());
        }
        let mut out: Vec<(C, Tree<C, A>)> = Vec::new();
        let mut i = self.pos;
        while i < le
            invariant
                self.wf(),
                le == self.level_end(),
                evs == self.events_s(),
                mat == self.mat_s(),
                lc == level_containers(evs, mat, self.pos_s(), le as int),
                self.pos <= i <= le,
                le <= evs.len(),
                bal(evs, mat, i as int, le as int),
                out@.len() + level_containers(evs, mat, i as int, le as int).len() == lc.len(),
                forall|x: int|
                    0 <= x < out@.len() ==> (#[trigger] out@[x]).0 == lc[x].0 && out@[x].1.wf()
                        && out@[x].1.events_s() == evs && out@[x].1.remaining() == evs.subrange(
                        lc[x].1 + 1,
                        mat[lc[x].1] as int,
                    ),
                forall|x: int|
                    0 <= x < level_containers(evs, mat, i as int, le as int).len()
                        ==> #[trigger] level_containers(evs, mat, i as int, le as int)[x] == lc[x
                        + out@.len()],
            decreases le - i,
        {
            let ghost gi = i as int;
            let ev = (*self.events)[i];
            match ev.kind {
                EventKind::Enter(c) => {
                    proof {
                        assert(i < mat[i as int] < le);
                    }
                    let m = (*self.mat)[i];
                    let sub = Tree {
                        events: Rc::clone(&self.events),
                        mat: Rc::clone(&self.mat),
                        pos: i + 1,
                        end: m,
                        opens: Vec::new(),
                    };
                    proof {
                        assert(sub.level_end() == m);
                        assert(bal(sub.events_s(), sub.mat_s(), sub.pos_s(), sub.level_end()));
                    }
                    let ghost prevlen = out@.len() as int;
                    out.push((c, sub));
                    i = m + 1;
                    proof {
                        let lci = level_containers(evs, mat, gi, le as int);
                        let lci2 = level_containers(evs, mat, i as int, le as int);
                        assert(lci == seq![(c, gi)] + lci2);
                        assert(lci[0] == (c, gi));
                        assert(lc[prevlen] == lci[0]);
                        assert forall|x: int| 0 <= x < lci2.len() implies #[trigger] lci2[x] == lc[x
                            + out@.len()] by {
                            assert(lci2[x] == lci[x + 1]);
                            assert(lci[x + 1] == lc[x + 1 + prevlen]);
                        }
                        assert(out@[prevlen].1.remaining() == evs.subrange(gi + 1, m as int));
                        assert(out@[prevlen].0 == lc[prevlen].0);
                    }
                },
                _ => {
                    i = i + 1;
                    proof {
                        assert(level_containers(evs, mat, gi, le as int) == level_containers(
                            evs,
                            mat,
                            i as int,
                            le as int,
                        ));
                    }
                },
            }
        }
        out
    }
}

/// The number of direct children of the level `[i, j)`: its top-level
/// `Enter`, `Atom` and `Inline` events, not counting anything nested inside
/// a container.
pub open spec fn n_children<C, A>(evs: Seq<Event<C, A>>, mat: Seq<usize>, i: int, j: int) -> int
    decreases j - i,
{
    if i >= j {
        0
    } else {
        match evs[i].kind {
            EventKind::Enter(_) => {
                let m = mat[i] as int;
                if i < m < j {
                    1 + n_children(evs, mat, m + 1, j)
                } else {
                    0
                }
            },
            EventKind::Exit(_) => 0,
            _ => 1 + n_children(evs, mat, i + 1, j),
        }
    }
}

/// The direct children of the level `[i, j)`, as bare elements.
pub open spec fn level_elems<C, A>(evs: Seq<Event<C, A>>, mat: Seq<usize>, i: int, j: int) -> Seq<
    Element<C, A>,
>
    decreases j - i,
{
    if i >= j {
        seq![]
    } else {
        match evs[i].kind {
            EventKind::Enter(c) => {
                let m = mat[i] as int;
                if i < m < j {
                    seq![Element::Container(c)] + level_elems(evs, mat, m + 1, j)
                } else {
                    seq![]
                }
            },
            EventKind::Exit(_) => seq![],
            EventKind::Atom(a) => seq![Element::Atom(a)] + level_elems(evs, mat, i + 1, j),
            EventKind::Inline => seq![Element::Inline] + level_elems(evs, mat, i + 1, j),
        }
    }
}

/// The direct container children of the level `[i, j)`, each with the index
/// of its `Enter` event.
pub open spec fn level_containers<C, A>(
    evs: Seq<Event<C, A>>,
    mat: Seq<usize>,
    i: int,
    j: int,
) -> Seq<(C, int)>
    decreases j - i,
{
    if i >= j {
        seq![]
    } else {
        match evs[i].kind {
            EventKind::Enter(c) => {
                let m = mat[i] as int;
                if i < m < j {
                    seq![(c, i)] + level_containers(evs, mat, m + 1, j)
                } else {
                    seq![]
                }
            },
            EventKind::Exit(_) => seq![],
            _ => level_containers(evs, mat, i + 1, j),
        }
    }
}

/// Where the run of consecutive `Inline` leaves starting at `i` ends: the
/// first position in `[i, j)` holding anything else, or `j`.
pub open spec fn inline_run_end<C, A>(evs: Seq<Event<C, A>>, i: int, j: int) -> int
    decreases j - i,
{
    if i < j && evs[i].kind is Inline {
        inline_run_end(evs, i + 1, j)
    } else {
        i
    }
}

/// A run of `Inline` leaves halted by a non-`Inline` event at `le` (or by
/// the end of the events) ends at the same place however far the bound lies.
proof fn lemma_run_end_stop<C, A>(evs: Seq<Event<C, A>>, i: int, le: int, j: int)
    requires
        i <= le <= j,
        le < j ==> !(evs[le].kind is Inline),
    ensures
        inline_run_end(evs, i, le) == inline_run_end(evs, i, j),
    decreases le - i,
{
    if i < le && evs[i].kind is Inline {
        lemma_run_end_stop(evs, i + 1, le, j);
    }
}

/// Where the current nesting level of a replay starting at `i` ends: the
/// position of the first `Exit` at relative depth zero in `[i, j)`, or `j`.
pub open spec fn level_split_at<C, A>(evs: Seq<Event<C, A>>, i: int, j: int, d: int) -> int
    decreases j - i,
{
    if i >= j {
        j
    } else {
        match evs[i].kind {
            EventKind::Exit(_) => if d == 0 {
                i
            } else {
                level_split_at(evs, i + 1, j, d - 1)
            },
            EventKind::Enter(_) => level_split_at(evs, i + 1, j, d + 1),
            _ => level_split_at(evs, i + 1, j, d),
        }
    }
}

/// A well-nested region read at any non-negative depth contains no `Exit`
/// at relative depth zero: the split point lies beyond it.
proof fn lemma_split_balanced<C, A>(
    evs: Seq<Event<C, A>>,
    mat: Seq<usize>,
    a: int,
    b: int,
    j: int,
    d: int,
)
    requires
        bal(evs, mat, a, b),
        b <= j,
        d >= 0,
    ensures
        level_split_at(evs, a, j, d) == level_split_at(evs, b, j, d),
    decreases b - a,
{
    if a < b {
        match evs[a].kind {
            EventKind::Enter(_) => {
                let m = mat[a] as int;
                lemma_split_balanced(evs, mat, a + 1, m, j, d + 1);
                lemma_split_balanced(evs, mat, m + 1, b, j, d);
            },
            EventKind::Exit(_) => {},
            _ => {
                lemma_split_balanced(evs, mat, a + 1, b, j, d);
            },
        }
    }
}

/// How many events of `[i, j)` a depth-first reader starting at relative
/// depth `d` sees at depth zero, stopping at the `Exit` of the level it
/// started in.  `Exit` events are never counted.
pub open spec fn drained_top_level<C, A>(evs: Seq<Event<C, A>>, i: int, j: int, d: int) -> int
    decreases j - i,
{
    if i >= j {
        0
    } else {
        match evs[i].kind {
            EventKind::Exit(_) => if d == 0 {
                0
            } else {
                drained_top_level(evs, i + 1, j, d - 1)
            },
            EventKind::Enter(_) => (
            if d == 0 {
                1int
            } else {
                0int
            }) + drained_top_level(evs, i + 1, j, d + 1),
            _ => (
            if d == 0 {
                1int
            } else {
                0int
            }) + drained_top_level(evs, i + 1, j, d),
        }
    }
}

/// A well-nested region read at depth one or more contributes nothing to
/// the top-level count and returns the reader to the same depth.
proof fn lemma_dtl_balanced<C, A>(
    evs: Seq<Event<C, A>>,
    mat: Seq<usize>,
    a: int,
    b: int,
    j: int,
    d: int,
)
    requires
        bal(evs, mat, a, b),
        b <= j,
        d >= 1,
    ensures
        drained_top_level(evs, a, j, d) == drained_top_level(evs, b, j, d),
    decreases b - a,
{
    if a < b {
        match evs[a].kind {
            EventKind::Enter(_) => {
                let m = mat[a] as int;
                lemma_dtl_balanced(evs, mat, a + 1, m, j, d + 1);
                lemma_dtl_balanced(evs, mat, m + 1, b, j, d);
            },
            EventKind::Exit(_) => {},
            _ => {
                lemma_dtl_balanced(evs, mat, a + 1, b, j, d);
            },
        }
    }
}

/// Reading a well-nested region `[a, b)` at depth zero sees exactly its
/// direct children, then continues at `b` still at depth zero.
proof fn lemma_dtl_level<C, A>(evs: Seq<Event<C, A>>, mat: Seq<usize>, a: int, b: int, j: int)
    requires
        bal(evs, mat, a, b),
        b <= j,
    ensures
        drained_top_level(evs, a, j, 0) == n_children(evs, mat, a, b) + drained_top_level(
            evs,
            b,
            j,
            0,
        ),
    decreases b - a,
{
    if a < b {
        match evs[a].kind {
            EventKind::Enter(_) => {
                let m = mat[a] as int;
                lemma_dtl_balanced(evs, mat, a + 1, m, j, 1);
                lemma_dtl_level(evs, mat, m + 1, b, j);
            },
            EventKind::Exit(_) => {},
            _ => {
                lemma_dtl_level(evs, mat, a + 1, b, j);
            },
        }
    }
}

impl<C: Copy, A: Copy> Tree<C, A> {
    /// The count law: `count_children` equals the number of `Enter`, `Atom`
    /// and `Inline` events a fork of this cursor would produce at the top
    /// level while draining, descendants and `Exit`s ignored.
    pub proof fn lemma_count_children_drained(self)
        requires
            self.wf(),
        ensures
            n_children(self.events_s(), self.mat_s(), self.pos_s(), self.level_end())
                == drained_top_level(self.events_s(), self.pos_s(), self.end_s(), 0),
    {
        let evs = self.events_s();
        let mat = self.mat_s();
        let le = self.level_end();
        assert(bal(evs, mat, self.pos_s(), le));
        lemma_dtl_level(evs, mat, self.pos_s(), le, self.end_s());
        if le < self.end_s() {
            assert(self.opens@.len() > 0);
            assert(evs[le].kind is Exit);
            assert(drained_top_level(evs, le, self.end_s(), 0) == 0);
        }
    }
}

/// Invariant preservation for `next` when it descends into a container.
proof fn lemma_next_enter<C: Copy, A: Copy>(pre: Tree<C, A>, post: Tree<C, A>)
    requires
        pre.wf(),
        pre.pos_s() < pre.end_s(),
        pre.events_s()[pre.pos_s()].kind is Enter,
        pre.pos_s() < pre.level_end(),
        post.events_s() == pre.events_s(),
        post.mat_s() == pre.mat_s(),
        post.end_s() == pre.end_s(),
        post.pos_s() == pre.pos_s() + 1,
        post.opens_s() == pre.opens_s().push(pre.pos_s() as usize),
    ensures
        post.wf(),
{
    let evs = pre.events_s();
    let mat = pre.mat_s();
    let i = pre.pos_s();
    let le = pre.level_end();
    assert(bal(evs, mat, i, le));
    let m = mat[i] as int;
    assert(i < m < le);
    assert(bal(evs, mat, i + 1, m));
    assert(bal(evs, mat, m + 1, le));
    assert(post.level_end() == m);
}

/// Invariant preservation for popping the innermost open container and
/// resuming just after its `Exit` event.
proof fn lemma_pop_level<C: Copy, A: Copy>(pre: Tree<C, A>, post: Tree<C, A>)
    requires
        pre.wf(),
        pre.opens_s().len() > 0,
        post.events_s() == pre.events_s(),
        post.mat_s() == pre.mat_s(),
        post.end_s() == pre.end_s(),
        post.pos_s() == pre.mat_s()[pre.opens_s().last() as int] + 1,
        post.opens_s() == pre.opens_s().drop_last(),
    ensures
        post.wf(),
{
    let evs = pre.events_s();
    let mat = pre.mat_s();
    let k = pre.opens_s().len() as int;
    if k == 1 {
        assert(post.level_end() == pre.end_s());
        assert(bal(evs, mat, mat[pre.opens_s()[0] as int] as int + 1, pre.end_s()));
    } else {
        assert(post.level_end() == mat[pre.opens_s()[k - 2] as int]);
        assert(bal(
            evs,
            mat,
            mat[pre.opens_s()[k - 1] as int] as int + 1,
            mat[pre.opens_s()[k - 2] as int] as int,
        ));
    }
}

/// Two adjacent well-nested regions concatenate to a well-nested region.
pub proof fn lemma_bal_append<C, A>(evs: Seq<Event<C, A>>, mat: Seq<usize>, i: int, j: int, k: int)
    requires
        bal(evs, mat, i, j),
        bal(evs, mat, j, k),
    ensures
        bal(evs, mat, i, k),
    decreases j - i,
{
    if i < j {
        match evs[i].kind {
            EventKind::Enter(_c) => {
                let m = mat[i] as int;
                lemma_bal_append(evs, mat, m + 1, j, k);
            },
            EventKind::Exit(_) => {},
            _ => {
                lemma_bal_append(evs, mat, i + 1, j, k);
            },
        }
    }
}

} // verus!
