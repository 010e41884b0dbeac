use vstd::prelude::*;

use crate::event::{ChunkIdentifier, EmptyChunk, Event, Gap, LinkedChunkError, Position};

verus! {

/// What a chunk holds, mathematically.
pub enum ChunkContentView {
    Items(Seq<Event>),
    Gap(Gap),
}

/// A chunk, mathematically: its identifier and its content.
pub struct ChunkView {
    pub id: nat,
    pub content: ChunkContentView,
}

/// A diff over the flat sequence of items, mathematically.
pub enum DiffView {
    Append(Seq<Event>),
    Insert(nat, Event),
    SetAt(nat, Event),
    Remove(nat),
    Clear,
}

/// The items held by a chunk (none for a gap).
pub open spec fn items_of(c: ChunkView) -> Seq<Event> {
    match c.content {
        ChunkContentView::Items(s) => s,
        ChunkContentView::Gap(_) => Seq::empty(),
    }
}

pub open spec fn is_gap(c: ChunkView) -> bool {
    c.content is Gap
}

pub open spec fn is_items(c: ChunkView) -> bool {
    c.content is Items
}

/// The items of all chunks, in chain order.
pub open spec fn flatten(cs: Seq<ChunkView>) -> Seq<Event>
    decreases cs.len(),
{
    if cs.len() == 0 {
        Seq::empty()
    } else {
        flatten(cs.drop_last()) + items_of(cs.last())
    }
}

/// The flat index of the first item of chunk `ci`.
pub open spec fn offset(cs: Seq<ChunkView>, ci: int) -> nat {
    flatten(cs.take(ci)).len()
}

/// The effect of one diff on a sequence.
pub open spec fn apply_diff(v: Seq<Event>, d: DiffView) -> Seq<Event> {
    match d {
        DiffView::Append(xs) => v + xs,
        DiffView::Insert(i, e) => if i <= v.len() {
            v.insert(i as int, e)
        } else {
            v
        },
        DiffView::SetAt(i, e) => if i < v.len() {
            v.update(i as int, e)
        } else {
            v
        },
        DiffView::Remove(i) => if i < v.len() {
            v.remove(i as int)
        } else {
            v
        },
        DiffView::Clear => Seq::empty(),
    }
}

/// The effect of a stream of diffs, applied in order, on a sequence.
pub open spec fn apply_diffs(v: Seq<Event>, ds: Seq<DiffView>) -> Seq<Event>
    decreases ds.len(),
{
    if ds.len() == 0 {
        v
    } else {
        apply_diff(apply_diffs(v, ds.drop_last()), ds.last())
    }
}

/// One `Insert` per item of `xs`, the first one at flat index `at`.
pub open spec fn insert_diffs(at: nat, xs: Seq<Event>) -> Seq<DiffView> {
    Seq::new(xs.len(), |k: int| DiffView::Insert(at + k as nat, xs[k]))
}

/// The diffs that put `xs` at flat index `at` of a sequence of length `len`:
/// an `Append` at the end, `Insert`s elsewhere, nothing when `xs` is empty.
pub open spec fn placement_diffs(len: nat, at: nat, xs: Seq<Event>) -> Seq<DiffView> {
    if xs.len() == 0 {
        Seq::empty()
    } else if at == len {
        seq![DiffView::Append(xs)]
    } else {
        insert_diffs(at, xs)
    }
}

/// Push one item after the last chunk: into it when it is an items-chunk with
/// room left, else into a new items-chunk with identifier `next`.
pub open spec fn push_one(cs: Seq<ChunkView>, e: Event, cap: nat, next: nat) -> (Seq<ChunkView>, nat) {
    if cs.len() > 0 && is_items(cs.last()) && items_of(cs.last()).len() < cap {
        (
            cs.update(
                cs.len() - 1,
                ChunkView { id: cs.last().id, content: ChunkContentView::Items(items_of(cs.last()).push(e)) },
            ),
            next,
        )
    } else {
        (cs.push(ChunkView { id: next, content: ChunkContentView::Items(seq![e]) }), next + 1)
    }
}

/// Push the items one after the other; also gives the next free identifier.
pub open spec fn push_all(cs: Seq<ChunkView>, es: Seq<Event>, cap: nat, next: nat) -> (Seq<ChunkView>, nat)
    decreases es.len(),
{
    if es.len() == 0 {
        (cs, next)
    } else {
        let (c2, n2) = push_all(cs, es.drop_last(), cap, next);
        push_one(c2, es.last(), cap, n2)
    }
}

/// Each items-chunk holds at most `cap` items.
pub open spec fn within_capacity(cs: Seq<ChunkView>, cap: nat) -> bool {
    forall|i: int| 0 <= i < cs.len() ==> #[trigger] items_of(cs[i]).len() <= cap
}

/// No two neighbouring chunks are both gaps.
pub open spec fn no_adjacent_gaps(cs: Seq<ChunkView>) -> bool {
    forall|i: int| 0 <= i < cs.len() - 1 ==> !(#[trigger] is_gap(cs[i]) && is_gap(cs[i + 1]))
}

/// Every identifier is below `next`.
pub open spec fn ids_below(cs: Seq<ChunkView>, next: nat) -> bool {
    forall|i: int| 0 <= i < cs.len() ==> #[trigger] cs[i].id < next
}

/// No two chunks share an identifier.
pub open spec fn ids_distinct(cs: Seq<ChunkView>) -> bool {
    forall|i: int, j: int| 0 <= i < cs.len() && 0 <= j < cs.len() && i != j ==> #[trigger] cs[i].id != #[trigger] cs[j].id
}

/// The shape that every container keeps.
pub open spec fn chunks_wf(cs: Seq<ChunkView>, cap: nat, next: nat) -> bool {
    &&& within_capacity(cs, cap)
    &&& no_adjacent_gaps(cs)
    &&& ids_below(cs, next)
    &&& ids_distinct(cs)
}

/// The index in `cs` of the chunk with identifier `id`, if any.
pub open spec fn chunk_index(cs: Seq<ChunkView>, id: nat) -> Option<int> {
    if exists|i: int| 0 <= i < cs.len() && cs[i].id == id {
        Some(choose|i: int| 0 <= i < cs.len() && cs[i].id == id)
    } else {
        None
    }
}

/// A whole linked chunk, mathematically: its chunks in chain order, the
/// capacity of its items-chunks, the next identifier it will issue, the diffs
/// not drained yet, and the flat sequence as an observer saw it at the last
/// drain.
pub struct LinkedChunkView {
    pub chunks: Seq<ChunkView>,
    pub capacity: nat,
    pub next_id: nat,
    pub pending: Seq<DiffView>,
    pub observed: Seq<Event>,
}

pub open spec fn gap_chunk(id: nat, g: Gap) -> ChunkView {
    ChunkView { id, content: ChunkContentView::Gap(g) }
}

pub open spec fn items_chunk(id: nat, s: Seq<Event>) -> ChunkView {
    ChunkView { id, content: ChunkContentView::Items(s) }
}

pub open spec fn position_at(id: nat, index: nat) -> Position {
    Position { chunk_identifier: ChunkIdentifier(id as u64), index: index as usize }
}

impl LinkedChunkView {
    /// A fresh container: one empty items-chunk with identifier 0.
    pub open spec fn empty(capacity: nat) -> Self {
        LinkedChunkView {
            chunks: seq![items_chunk(0, Seq::empty())],
            capacity,
            next_id: 1,
            pending: Seq::empty(),
            observed: Seq::empty(),
        }
    }

    /// The items of all chunks, in order.
    pub open spec fn items(self) -> Seq<Event> {
        flatten(self.chunks)
    }

    /// The invariant of every linked chunk. Its last clause says that
    /// replaying the diffs not drained yet over what an observer saw last
    /// yields the current items.
    pub open spec fn wf(self) -> bool {
        &&& 0 < self.capacity <= usize::MAX
        &&& chunks_wf(self.chunks, self.capacity, self.next_id)
        &&& self.next_id <= u64::MAX
        &&& self.items().len() <= usize::MAX
        &&& apply_diffs(self.observed, self.pending) == self.items()
    }

    /// Room for `k` more items and for the chunks that they may need.
    pub open spec fn can_grow(self, k: nat) -> bool {
        &&& self.next_id + k + self.capacity + 2 <= u64::MAX
        &&& self.items().len() + k <= usize::MAX
    }

    /// Room for `k` more chunk identifiers.
    pub open spec fn ids_left(self, k: nat) -> bool {
        self.next_id + k <= u64::MAX
    }

    pub open spec fn index_of(self, id: ChunkIdentifier) -> Option<int> {
        chunk_index(self.chunks, id.0 as nat)
    }

    pub open spec fn with_chunks(self, cs: Seq<ChunkView>, next: nat, pending: Seq<DiffView>) -> Self {
        LinkedChunkView { chunks: cs, capacity: self.capacity, next_id: next, pending, observed: self.observed }
    }

    /// Pushing items after the last chunk.
    pub open spec fn push_items_back(self, es: Seq<Event>) -> Self {
        let (cs, n) = push_all(self.chunks, es, self.capacity, self.next_id);
        self.with_chunks(cs, n, self.pending + placement_diffs(self.items().len(), self.items().len(), es))
    }

    /// Pushing a gap is refused after a gap.
    pub open spec fn push_gap_back_result(self) -> Result<(), LinkedChunkError> {
        if self.chunks.len() > 0 && is_gap(self.chunks.last()) {
            Err(LinkedChunkError::InvalidOperation)
        } else {
            Ok(())
        }
    }

    pub open spec fn push_gap_back(self, g: Gap) -> Self {
        if self.push_gap_back_result() is Ok {
            self.with_chunks(self.chunks.push(gap_chunk(self.next_id, g)), self.next_id + 1, self.pending)
        } else {
            self
        }
    }

    /// Where an operation on the item at, or the insertion point before, `pos`
    /// is refused; `end_ok` admits the index just past the last item.
    pub open spec fn position_error(self, pos: Position, end_ok: bool) -> Option<LinkedChunkError> {
        match self.index_of(pos.chunk_identifier) {
            None => Some(LinkedChunkError::InvalidPosition),
            Some(ci) => if is_gap(self.chunks[ci]) {
                Some(LinkedChunkError::NotAnItemsChunk)
            } else if pos.index > items_of(self.chunks[ci]).len() || (!end_ok && pos.index
                == items_of(self.chunks[ci]).len()) {
                Some(LinkedChunkError::InvalidPosition)
            } else {
                None
            },
        }
    }

    pub open spec fn insert_items_at_result(self, pos: Position) -> Result<(), LinkedChunkError> {
        match self.position_error(pos, true) {
            Some(e) => Err(e),
            None => Ok(()),
        }
    }

    /// Inserting items before `pos`: the chunk keeps what stands before the
    /// index, then takes the new items and the rest of its own, and what does
    /// not fit spills into new items-chunks right after it.
    pub open spec fn insert_items_at(self, es: Seq<Event>, pos: Position) -> Self {
        if self.insert_items_at_result(pos) is Ok {
            let ci = self.index_of(pos.chunk_identifier).unwrap();
            let c = self.chunks[ci];
            let s = items_of(c);
            let idx = pos.index as int;
            let (mid, n) = push_all(seq![items_chunk(c.id, s.take(idx))], es + s.skip(idx), self.capacity, self.next_id);
            self.with_chunks(
                self.chunks.take(ci) + mid + self.chunks.skip(ci + 1),
                n,
                self.pending + placement_diffs(self.items().len(), offset(self.chunks, ci) + idx as nat, es),
            )
        } else {
            self
        }
    }

    pub open spec fn insert_gap_at_result(self, pos: Position) -> Result<(), LinkedChunkError> {
        match self.index_of(pos.chunk_identifier) {
            None => Err(LinkedChunkError::InvalidPosition),
            Some(ci) => if is_gap(self.chunks[ci]) {
                Err(LinkedChunkError::NotAnItemsChunk)
            } else if pos.index == 0 {
                if ci > 0 && is_gap(self.chunks[ci - 1]) {
                    Err(LinkedChunkError::InvalidOperation)
                } else {
                    Ok(())
                }
            } else if pos.index >= items_of(self.chunks[ci]).len() {
                Err(LinkedChunkError::InvalidPosition)
            } else {
                Ok(())
            },
        }
    }

    /// Inserting a gap: before the chunk at index 0, else between the two
    /// halves of the split chunk.
    pub open spec fn insert_gap_at(self, g: Gap, pos: Position) -> Self {
        if self.insert_gap_at_result(pos) is Ok {
            let ci = self.index_of(pos.chunk_identifier).unwrap();
            let c = self.chunks[ci];
            let s = items_of(c);
            let idx = pos.index as int;
            if idx == 0 {
                self.with_chunks(
                    self.chunks.take(ci) + seq![gap_chunk(self.next_id, g)] + self.chunks.skip(ci),
                    self.next_id + 1,
                    self.pending,
                )
            } else {
                self.with_chunks(
                    self.chunks.take(ci) + seq![
                        items_chunk(c.id, s.take(idx)),
                        gap_chunk(self.next_id, g),
                        items_chunk(self.next_id + 1, s.skip(idx)),
                    ] + self.chunks.skip(ci + 1),
                    self.next_id + 2,
                    self.pending,
                )
            }
        } else {
            self
        }
    }

    pub open spec fn gap_error(self, id: ChunkIdentifier) -> Option<LinkedChunkError> {
        match self.index_of(id) {
            None => Some(LinkedChunkError::ChunkNotFound),
            Some(ci) => if is_items(self.chunks[ci]) {
                Some(LinkedChunkError::NotAGap)
            } else {
                None
            },
        }
    }

    /// Removing a gap gives the first position of the chunk after it.
    pub open spec fn remove_gap_at_result(self, id: ChunkIdentifier) -> Result<Option<Position>, LinkedChunkError> {
        match self.gap_error(id) {
            Some(e) => Err(e),
            None => {
                let ci = self.index_of(id).unwrap();
                if ci + 1 < self.chunks.len() {
                    Ok(Some(position_at(self.chunks[ci + 1].id, 0)))
                } else {
                    Ok(None)
                }
            },
        }
    }

    pub open spec fn remove_gap_at(self, id: ChunkIdentifier) -> Self {
        if self.gap_error(id) is None {
            let ci = self.index_of(id).unwrap();
            self.with_chunks(self.chunks.remove(ci), self.next_id, self.pending)
        } else {
            self
        }
    }

    /// Replacing a gap by items gives the first position of the new run; by no
    /// items, it is removing the gap.
    pub open spec fn replace_gap_at_result(self, es: Seq<Event>, id: ChunkIdentifier) -> Result<Option<Position>, LinkedChunkError> {
        if es.len() == 0 {
            self.remove_gap_at_result(id)
        } else {
            match self.gap_error(id) {
                Some(e) => Err(e),
                None => Ok(Some(position_at(self.next_id, 0))),
            }
        }
    }

    pub open spec fn replace_gap_at(self, es: Seq<Event>, id: ChunkIdentifier) -> Self {
        if es.len() == 0 {
            self.remove_gap_at(id)
        } else if self.gap_error(id) is None {
            let ci = self.index_of(id).unwrap();
            let (mid, n) = push_all(Seq::empty(), es, self.capacity, self.next_id);
            self.with_chunks(
                self.chunks.take(ci) + mid + self.chunks.skip(ci + 1),
                n,
                self.pending + placement_diffs(self.items().len(), offset(self.chunks, ci), es),
            )
        } else {
            self
        }
    }

    pub open spec fn replace_item_at_result(self, pos: Position) -> Result<(), LinkedChunkError> {
        match self.position_error(pos, false) {
            Some(e) => Err(e),
            None => Ok(()),
        }
    }

    /// Overwriting the item at `pos`, which shows as a `SetAt` diff.
    pub open spec fn replace_item_at(self, pos: Position, e: Event) -> Self {
        if self.replace_item_at_result(pos) is Ok {
            let ci = self.index_of(pos.chunk_identifier).unwrap();
            let c = self.chunks[ci];
            self.with_chunks(
                self.chunks.update(ci, items_chunk(c.id, items_of(c).update(pos.index as int, e))),
                self.next_id,
                self.pending.push(DiffView::SetAt(offset(self.chunks, ci) + pos.index as nat, e)),
            )
        } else {
            self
        }
    }

    /// Whether removing the item at `pos` empties a chunk that the policy lets go:
    /// never the first chunk.
    pub open spec fn drops_chunk(self, pos: Position, policy: EmptyChunk) -> bool {
        let ci = self.index_of(pos.chunk_identifier).unwrap();
        &&& policy == EmptyChunk::Remove
        &&& items_of(self.chunks[ci]).len() == 1
        &&& ci > 0
    }

    pub open spec fn remove_item_at_result(self, pos: Position, policy: EmptyChunk) -> Result<Event, LinkedChunkError> {
        match self.position_error(pos, false) {
            Some(e) => Err(e),
            None => {
                let ci = self.index_of(pos.chunk_identifier).unwrap();
                if self.drops_chunk(pos, policy) && is_gap(self.chunks[ci - 1]) && ci + 1 < self.chunks.len()
                    && is_gap(self.chunks[ci + 1]) {
                    Err(LinkedChunkError::InvalidOperation)
                } else {
                    Ok(items_of(self.chunks[ci])[pos.index as int])
                }
            },
        }
    }

    /// Removing the item at `pos`, which shows as a `Remove` diff.
    pub open spec fn remove_item_at(self, pos: Position, policy: EmptyChunk) -> Self {
        if self.remove_item_at_result(pos, policy) is Ok {
            let ci = self.index_of(pos.chunk_identifier).unwrap();
            let c = self.chunks[ci];
            let d = DiffView::Remove(offset(self.chunks, ci) + pos.index as nat);
            if self.drops_chunk(pos, policy) {
                self.with_chunks(self.chunks.remove(ci), self.next_id, self.pending.push(d))
            } else {
                self.with_chunks(
                    self.chunks.update(ci, items_chunk(c.id, items_of(c).remove(pos.index as int))),
                    self.next_id,
                    self.pending.push(d),
                )
            }
        } else {
            self
        }
    }

    /// Dropping everything: one fresh empty items-chunk, and a `Clear` diff.
    pub open spec fn clear(self) -> Self {
        self.with_chunks(seq![items_chunk(self.next_id, Seq::empty())], self.next_id + 1, self.pending.push(DiffView::Clear))
    }

    /// Draining the diffs: the observer is now up to date.
    pub open spec fn drain(self) -> Self {
        LinkedChunkView {
            chunks: self.chunks,
            capacity: self.capacity,
            next_id: self.next_id,
            pending: Seq::empty(),
            observed: self.items(),
        }
    }
}

/// Whether `pos` addresses an item, and which one.
pub open spec fn item_at(cs: Seq<ChunkView>, pos: Position) -> Option<Event> {
    match chunk_index(cs, pos.chunk_identifier.0 as nat) {
        Some(ci) => if pos.index < items_of(cs[ci]).len() {
            Some(items_of(cs[ci])[pos.index as int])
        } else {
            None
        },
        None => None,
    }
}

// ---------------------------------------------------------------------------
// Lemmas

pub proof fn lemma_chunk_index(cs: Seq<ChunkView>, i: int)
    requires
        ids_distinct(cs),
        0 <= i < cs.len(),
    ensures
        chunk_index(cs, cs[i].id) == Some(i),
{
    let id = cs[i].id;
    assert(exists|k: int| 0 <= k < cs.len() && cs[k].id == id);
    let j = choose|k: int| 0 <= k < cs.len() && cs[k].id == id;
    assert(cs[j].id == cs[i].id);
}
pub proof fn lemma_flatten_concat(a: Seq<ChunkView>, b: Seq<ChunkView>)
    ensures
        flatten(a + b) == flatten(a) + flatten(b),
    decreases b.len(),
{
    if b.len() == 0 {
        assert(a + b =~= a);
        assert(flatten(b) =~= Seq::<Event>::empty());
        assert(flatten(a) + flatten(b) =~= flatten(a));
    } else {
        lemma_flatten_concat(a, b.drop_last());
        assert((a + b).drop_last() =~= a + b.drop_last());
        assert((a + b).last() == b.last());
        assert(flatten(a + b) == flatten(a + b.drop_last()) + items_of(b.last()));
        assert(flatten(a) + flatten(b) =~= flatten(a) + flatten(b.drop_last()) + items_of(b.last()));
    }
}

pub proof fn lemma_flatten_one(c: ChunkView)
    ensures
        flatten(seq![c]) == items_of(c),
{
    assert(seq![c].drop_last() =~= Seq::<ChunkView>::empty());
    assert(flatten(Seq::<ChunkView>::empty()) + items_of(c) =~= items_of(c));
}

/// The flat sequence, split around chunk `i`.
pub proof fn lemma_flatten_split(cs: Seq<ChunkView>, i: int)
    requires
        0 <= i < cs.len(),
    ensures
        flatten(cs) == flatten(cs.take(i)) + items_of(cs[i]) + flatten(cs.skip(i + 1)),
{
    assert(cs =~= cs.take(i) + seq![cs[i]] + cs.skip(i + 1));
    lemma_flatten_concat(cs.take(i) + seq![cs[i]], cs.skip(i + 1));
    lemma_flatten_concat(cs.take(i), seq![cs[i]]);
    lemma_flatten_one(cs[i]);
}

/// Replacing chunk `i` by the chunks `mid`.
pub proof fn lemma_flatten_splice(cs: Seq<ChunkView>, i: int, mid: Seq<ChunkView>)
    requires
        0 <= i < cs.len(),
    ensures
        flatten(cs.take(i) + mid + cs.skip(i + 1)) == flatten(cs.take(i)) + flatten(mid) + flatten(cs.skip(i + 1)),
{
    lemma_flatten_concat(cs.take(i) + mid, cs.skip(i + 1));
    lemma_flatten_concat(cs.take(i), mid);
}

pub proof fn lemma_apply_diffs_push(v: Seq<Event>, ds: Seq<DiffView>, d: DiffView)
    ensures
        apply_diffs(v, ds.push(d)) == apply_diff(apply_diffs(v, ds), d),
{
    assert(ds.push(d).drop_last() =~= ds);
}

pub proof fn lemma_apply_diffs_concat(v: Seq<Event>, ds: Seq<DiffView>, es: Seq<DiffView>)
    ensures
        apply_diffs(v, ds + es) == apply_diffs(apply_diffs(v, ds), es),
    decreases es.len(),
{
    if es.len() == 0 {
        assert(ds + es =~= ds);
    } else {
        lemma_apply_diffs_concat(v, ds, es.drop_last());
        assert((ds + es).drop_last() =~= ds + es.drop_last());
        assert((ds + es).last() == es.last());
    }
}

/// Applying the `Insert`s of `insert_diffs` inserts the whole run.
pub proof fn lemma_insert_diffs(v: Seq<Event>, at: nat, xs: Seq<Event>)
    requires
        at <= v.len(),
    ensures
        apply_diffs(v, insert_diffs(at, xs)) == v.take(at as int) + xs + v.skip(at as int),
    decreases xs.len(),
{
    if xs.len() == 0 {
        assert(insert_diffs(at, xs) =~= Seq::<DiffView>::empty());
        assert(v.take(at as int) + xs + v.skip(at as int) =~= v);
    } else {
        let ys = xs.drop_last();
        lemma_insert_diffs(v, at, ys);
        assert(insert_diffs(at, xs).drop_last() =~= insert_diffs(at, ys));
        let w = v.take(at as int) + ys + v.skip(at as int);
        assert(insert_diffs(at, xs).last() == DiffView::Insert(at + ys.len(), xs.last()));
        assert(w.insert(at + ys.len() as int, xs.last()) =~= v.take(at as int) + xs + v.skip(at as int));
    }
}

pub proof fn lemma_placement_diffs(v: Seq<Event>, at: nat, xs: Seq<Event>)
    requires
        at <= v.len(),
    ensures
        apply_diffs(v, placement_diffs(v.len(), at, xs)) == v.take(at as int) + xs + v.skip(at as int),
{
    if xs.len() == 0 {
        assert(placement_diffs(v.len(), at, xs).len() == 0);
        assert(v.take(at as int) + xs + v.skip(at as int) =~= v);
    } else if at == v.len() {
        let ds = seq![DiffView::Append(xs)];
        assert(ds.drop_last() =~= Seq::<DiffView>::empty());
        assert(apply_diffs(v, ds.drop_last()) == v);
        assert(apply_diffs(v, ds) == apply_diff(v, DiffView::Append(xs)));
        assert(v.take(at as int) + xs + v.skip(at as int) =~= v + xs);
    } else {
        lemma_insert_diffs(v, at, xs);
    }
}

/// What pushing items does to the flat sequence and to the identifiers.
pub proof fn lemma_push_all(cs: Seq<ChunkView>, es: Seq<Event>, cap: nat, next: nat)
    requires
        cap > 0,
        chunks_wf(cs, cap, next),
    ensures
        ({
            let (r, n) = push_all(cs, es, cap, next);
            &&& flatten(r) == flatten(cs) + es
            &&& chunks_wf(r, cap, n)
            &&& next <= n <= next + es.len()
            &&& cs.len() <= r.len()
            &&& forall|i: int| 0 <= i < cs.len() - 1 ==> r[i] == cs[i]
            &&& cs.len() > 0 ==> r[cs.len() - 1].id == cs.last().id
            &&& cs.len() > 0 && is_items(cs.last()) ==> is_items(r[cs.len() - 1])
            &&& cs.len() > 0 && is_gap(cs.last()) ==> r[cs.len() - 1] == cs.last()
            &&& forall|i: int| cs.len() <= i < r.len() ==> is_items(#[trigger] r[i]) && next <= r[i].id
            &&& es.len() > 0 ==> r.len() > 0 && is_items(r.last())
        }),
    decreases es.len(),
{
    if es.len() > 0 {
        let (c2, n2) = push_all(cs, es.drop_last(), cap, next);
        lemma_push_all(cs, es.drop_last(), cap, next);
        let e = es.last();
        let (r, n) = push_one(c2, e, cap, n2);
        assert(es.drop_last() + seq![e] =~= es);
        if c2.len() > 0 && is_items(c2.last()) && items_of(c2.last()).len() < cap {
            let last = c2.len() - 1;
            lemma_flatten_split(c2, last);
            lemma_flatten_split(r, last);
            assert(r.take(last) =~= c2.take(last));
            assert(r.skip(last + 1) =~= c2.skip(last + 1));
            assert(items_of(r[last]) =~= items_of(c2[last]).push(e));
            assert(flatten(r) =~= flatten(c2) + seq![e]);
            assert forall|i: int| 0 <= i < r.len() - 1 implies !(#[trigger] is_gap(r[i]) && is_gap(r[i + 1])) by {
                assert(is_gap(c2[i]) == is_gap(r[i]));
                assert(is_gap(c2[i + 1]) == is_gap(r[i + 1]));
            }
            assert forall|i: int| 0 <= i < r.len() implies #[trigger] items_of(r[i]).len() <= cap by {
                if i != last {
                    assert(r[i] == c2[i]);
                }
            }
            assert forall|i: int, j: int| 0 <= i < r.len() && 0 <= j < r.len() && i != j implies #[trigger] r[i].id != #[trigger] r[j].id by {
                assert(r[i].id == c2[i].id);
                assert(r[j].id == c2[j].id);
            }
        } else {
            assert(r.drop_last() =~= c2);
            assert(r.last() == ChunkView { id: n2, content: ChunkContentView::Items(seq![e]) });
            assert(flatten(r) =~= flatten(c2) + seq![e]);
            assert forall|i: int| 0 <= i < r.len() - 1 implies !(#[trigger] is_gap(r[i]) && is_gap(r[i + 1])) by {
                if i + 1 < c2.len() {
                    assert(r[i] == c2[i]);
                    assert(r[i + 1] == c2[i + 1]);
                }
            }
            assert forall|i: int| 0 <= i < r.len() implies #[trigger] items_of(r[i]).len() <= cap by {
                if i < c2.len() {
                    assert(r[i] == c2[i]);
                }
            }
            assert forall|i: int, j: int| 0 <= i < r.len() && 0 <= j < r.len() && i != j implies #[trigger] r[i].id != #[trigger] r[j].id by {
                if i < c2.len() {
                    assert(r[i] == c2[i]);
                }
                if j < c2.len() {
                    assert(r[j] == c2[j]);
                }
            }
            assert forall|i: int| 0 <= i < r.len() implies #[trigger] r[i].id < n by {
                if i < c2.len() {
                    assert(r[i] == c2[i]);
                }
            }
        }
    }
}


/// The shape is kept when chunk `ci` is replaced by the chunks `mid`, whose
/// identifiers are the replaced one's or fresh ones.
pub proof fn lemma_wf_splice(cs: Seq<ChunkView>, ci: int, mid: Seq<ChunkView>, cap: nat, next: nat, n: nat)
    requires
        chunks_wf(cs, cap, next),
        0 <= ci < cs.len(),
        chunks_wf(mid, cap, n),
        next <= n,
        mid.len() > 0,
        forall|j: int| 0 <= j < mid.len() ==> #[trigger] mid[j].id == cs[ci].id || mid[j].id >= next,
        is_gap(mid[0]) ==> !(ci > 0 && is_gap(cs[ci - 1])),
        is_gap(mid.last()) ==> !(ci + 1 < cs.len() && is_gap(cs[ci + 1])),
    ensures
        chunks_wf(cs.take(ci) + mid + cs.skip(ci + 1), cap, n),
{
    let r = cs.take(ci) + mid + cs.skip(ci + 1);
    let m = mid.len() as int;
    assert(r.len() == cs.len() + m - 1);
    assert forall|i: int| 0 <= i < r.len() implies #[trigger] r[i] == (if i < ci {
        cs[i]
    } else if i < ci + m {
        mid[i - ci]
    } else {
        cs[i - m + 1]
    }) by {}
    assert forall|i: int| 0 <= i < r.len() implies #[trigger] items_of(r[i]).len() <= cap by {
        if i < ci {
        } else if i < ci + m {
            assert(items_of(mid[i - ci]).len() <= cap);
        } else {
            assert(items_of(cs[i - m + 1]).len() <= cap);
        }
    }
    assert forall|i: int| 0 <= i < r.len() - 1 implies !(#[trigger] is_gap(r[i]) && is_gap(r[i + 1])) by {
        if i + 1 < ci {
            assert(!(is_gap(cs[i]) && is_gap(cs[i + 1])));
        } else if i + 1 == ci {
        } else if i + 1 < ci + m {
            assert(!(is_gap(mid[i - ci]) && is_gap(mid[i - ci + 1])));
        } else if i + 1 == ci + m {
            assert(mid.last() == mid[m - 1]);
        } else {
            assert(!(is_gap(cs[i - m + 1]) && is_gap(cs[i - m + 2])));
        }
    }
    assert forall|i: int| 0 <= i < r.len() implies #[trigger] r[i].id < n by {
        if i < ci {
            assert(cs[i].id < next);
        } else if i < ci + m {
            assert(mid[i - ci].id < n);
        } else {
            assert(cs[i - m + 1].id < next);
        }
    }
    assert forall|i: int, j: int| 0 <= i < r.len() && 0 <= j < r.len() && i != j implies #[trigger] r[i].id
        != #[trigger] r[j].id by {
        let oi = if i < ci {
            i
        } else {
            i - m + 1
        };
        let oj = if j < ci {
            j
        } else {
            j - m + 1
        };
        let in_i = ci <= i < ci + m;
        let in_j = ci <= j < ci + m;
        if in_i && in_j {
            assert(mid[i - ci].id != mid[j - ci].id);
        } else if in_i {
            assert(cs[oj].id < next);
            assert(cs[oj].id != cs[ci].id);
            assert(mid[i - ci].id == cs[ci].id || mid[i - ci].id >= next);
        } else if in_j {
            assert(cs[oi].id < next);
            assert(cs[oi].id != cs[ci].id);
            assert(mid[j - ci].id == cs[ci].id || mid[j - ci].id >= next);
        } else {
            assert(cs[oi].id != cs[oj].id);
        }
    }
}

/// The shape is kept when chunk `ci` is dropped, unless that would bring two
/// gaps together.
pub proof fn lemma_wf_remove(cs: Seq<ChunkView>, ci: int, cap: nat, next: nat)
    requires
        chunks_wf(cs, cap, next),
        0 <= ci < cs.len(),
        !(ci > 0 && ci + 1 < cs.len() && is_gap(cs[ci - 1]) && is_gap(cs[ci + 1])),
    ensures
        chunks_wf(cs.remove(ci), cap, next),
        flatten(cs.remove(ci)) == flatten(cs.take(ci)) + flatten(cs.skip(ci + 1)),
{
    let r = cs.remove(ci);
    assert forall|i: int| 0 <= i < r.len() implies #[trigger] r[i] == (if i < ci {
        cs[i]
    } else {
        cs[i + 1]
    }) by {}
    assert forall|i: int| 0 <= i < r.len() implies #[trigger] items_of(r[i]).len() <= cap by {
        if i >= ci {
            assert(items_of(cs[i + 1]).len() <= cap);
        }
    }
    assert forall|i: int| 0 <= i < r.len() - 1 implies !(#[trigger] is_gap(r[i]) && is_gap(r[i + 1])) by {
        if i + 1 < ci {
            assert(!(is_gap(cs[i]) && is_gap(cs[i + 1])));
        } else if i + 1 == ci {
        } else {
            assert(!(is_gap(cs[i + 1]) && is_gap(cs[i + 2])));
        }
    }
    assert forall|i: int| 0 <= i < r.len() implies #[trigger] r[i].id < next by {
        if i >= ci {
            assert(cs[i + 1].id < next);
        }
    }
    assert forall|i: int, j: int| 0 <= i < r.len() && 0 <= j < r.len() && i != j implies #[trigger] r[i].id
        != #[trigger] r[j].id by {
        let oi = if i < ci {
            i
        } else {
            i + 1
        };
        let oj = if j < ci {
            j
        } else {
            j + 1
        };
        assert(cs[oi].id != cs[oj].id);
    }
    assert(r =~= cs.take(ci) + cs.skip(ci + 1));
    lemma_flatten_concat(cs.take(ci), cs.skip(ci + 1));
}

/// The shape is kept when chunk `ci` gets other items, as many as fit.
pub proof fn lemma_wf_update(cs: Seq<ChunkView>, ci: int, s: Seq<Event>, cap: nat, next: nat)
    requires
        chunks_wf(cs, cap, next),
        0 <= ci < cs.len(),
        is_items(cs[ci]),
        s.len() <= cap,
    ensures
        chunks_wf(cs.update(ci, items_chunk(cs[ci].id, s)), cap, next),
        flatten(cs.update(ci, items_chunk(cs[ci].id, s))) == flatten(cs.take(ci)) + s + flatten(cs.skip(ci + 1)),
{
    let r = cs.update(ci, items_chunk(cs[ci].id, s));
    assert forall|i: int| 0 <= i < r.len() - 1 implies !(#[trigger] is_gap(r[i]) && is_gap(r[i + 1])) by {
        assert(!(is_gap(cs[i]) && is_gap(cs[i + 1])));
    }
    assert forall|i: int, j: int| 0 <= i < r.len() && 0 <= j < r.len() && i != j implies #[trigger] r[i].id
        != #[trigger] r[j].id by {
        assert(cs[i].id != cs[j].id);
    }
    assert forall|i: int| 0 <= i < r.len() implies #[trigger] items_of(r[i]).len() <= cap by {
        if i != ci {
            assert(items_of(cs[i]).len() <= cap);
        }
    }
    assert forall|i: int| 0 <= i < r.len() implies #[trigger] r[i].id < next by {
        assert(cs[i].id < next);
    }
    lemma_flatten_split(r, ci);
    assert(r.take(ci) =~= cs.take(ci));
    assert(r.skip(ci + 1) =~= cs.skip(ci + 1));
}

/// Where the items of chunk `ci` stand in the flat sequence.
pub proof fn lemma_offset(cs: Seq<ChunkView>, ci: int)
    requires
        0 <= ci < cs.len(),
    ensures
        offset(cs, ci) + items_of(cs[ci]).len() <= flatten(cs).len(),
        forall|k: int| 0 <= k < items_of(cs[ci]).len() ==> flatten(cs)[offset(cs, ci) + k] == #[trigger] items_of(cs[ci])[k],
{
    lemma_flatten_split(cs, ci);
}


pub proof fn lemma_push_all_concat(cs: Seq<ChunkView>, a: Seq<Event>, b: Seq<Event>, cap: nat, next: nat)
    ensures
        push_all(cs, a + b, cap, next) == push_all(push_all(cs, a, cap, next).0, b, cap, push_all(cs, a, cap, next).1),
    decreases b.len(),
{
    if b.len() == 0 {
        assert(a + b =~= a);
    } else {
        lemma_push_all_concat(cs, a, b.drop_last(), cap, next);
        assert((a + b).drop_last() =~= a + b.drop_last());
        assert((a + b).last() == b.last());
    }
}

} // verus!
