use vstd::prelude::*;

use crate::event::{ChunkIdentifier, EmptyChunk, Event, Gap, LinkedChunkError, Position};
use crate::preservation::{
    lemma_clear_wf, lemma_insert_gap_at_wf, lemma_insert_items_at_wf, lemma_push_gap_back_wf, lemma_push_items_back_wf,
    lemma_remove_gap_at_wf, lemma_remove_item_at_wf, lemma_replace_gap_at_wf, lemma_replace_item_at_wf,
};
use crate::model::{
    chunk_index, chunks_wf, flatten, gap_chunk, is_gap, item_at, is_items, items_chunk, items_of, lemma_chunk_index,
    lemma_flatten_concat, lemma_flatten_one, lemma_flatten_split, lemma_offset, lemma_push_all,
    lemma_push_all_concat, insert_diffs, offset, placement_diffs, position_at, push_all, push_one, ChunkContentView,
    ChunkView, DiffView, LinkedChunkView
};

verus! {

/// What a chunk holds: a bounded run of items, or one gap.
pub enum ChunkContent {
    Items(Vec<Event>),
    Gap(Gap),
}

/// A segment of a linked chunk.
pub struct Chunk {
    pub identifier: ChunkIdentifier,
    pub content: ChunkContent,
}

impl View for Chunk {
    type V = ChunkView;

    open spec fn view(&self) -> ChunkView {
        ChunkView {
            id: self.identifier.0 as nat,
            content: match self.content {
                ChunkContent::Items(v) => ChunkContentView::Items(v@),
                ChunkContent::Gap(g) => ChunkContentView::Gap(g),
            },
        }
    }
}

/// The chunks of a vector, mathematically.
pub open spec fn chunk_views(v: Seq<Chunk>) -> Seq<ChunkView> {
    v.map_values(|c: Chunk| c@)
}

impl Chunk {
    pub fn identifier(&self) -> (r: ChunkIdentifier)
        ensures
            r == self.identifier,
    {
        self.identifier
    }

    pub fn content(&self) -> (r: &ChunkContent)
        ensures
            r == &self.content,
    {
        &self.content
    }

    pub fn is_items(&self) -> (r: bool)
        ensures
            r == is_items(self@),
    {
        match &self.content {
            ChunkContent::Items(_) => true,
            ChunkContent::Gap(_) => false,
        }
    }

    pub fn is_gap(&self) -> (r: bool)
        ensures
            r == is_gap(self@),
    {
        !self.is_items()
    }

    pub fn num_items(&self) -> (r: usize)
        ensures
            r == items_of(self@).len(),
    {
        match &self.content {
            ChunkContent::Items(v) => v.len(),
            ChunkContent::Gap(_) => 0,
        }
    }

    /// The position of the first item of this chunk, or of where it would be.
    pub fn first_position(&self) -> (r: Position)
        ensures
            r == position_at(self@.id, 0),
    {
        Position::new(self.identifier, 0)
    }

    fn has_room(&self, cap: usize) -> (r: bool)
        ensures
            r == (is_items(self@) && items_of(self@).len() < cap),
    {
        match &self.content {
            ChunkContent::Items(v) => v.len() < cap,
            ChunkContent::Gap(_) => false,
        }
    }

    fn into_items(self) -> (r: Vec<Event>)
        requires
            is_items(self@),
        ensures
            r@ == items_of(self@),
    {
        match self.content {
            ChunkContent::Items(v) => v,
            ChunkContent::Gap(_) => {
                proof {
                    assert(false);
                }
                Vec::new()
            },
        }
    }

    fn take_item(&mut self, idx: usize) -> (r: Event)
        requires
            is_items(old(self)@),
            idx < items_of(old(self)@).len(),
        ensures
            r == items_of(old(self)@)[idx as int],
            final(self)@ == items_chunk(old(self)@.id, items_of(old(self)@).remove(idx as int)),
    {
        match &mut self.content {
            ChunkContent::Items(v) => v.remove(idx),
            ChunkContent::Gap(_) => {
                proof {
                    assert(false);
                }
                Event::new(None, String::new())
            },
        }
    }

    fn set_item(&mut self, idx: usize, e: Event)
        requires
            is_items(old(self)@),
            idx < items_of(old(self)@).len(),
        ensures
            final(self)@ == items_chunk(old(self)@.id, items_of(old(self)@).update(idx as int, e)),
    {
        match &mut self.content {
            ChunkContent::Items(v) => {
                v.set(idx, e);
            },
            ChunkContent::Gap(_) => {},
        }
    }

    fn push_item(&mut self, e: Event)
        requires
            is_items(old(self)@),
        ensures
            final(self)@ == items_chunk(old(self)@.id, items_of(old(self)@).push(e)),
    {
        match &mut self.content {
            ChunkContent::Items(v) => v.push(e),
            ChunkContent::Gap(_) => {},
        }
    }
}

/// Pushes one item after the last chunk; gives the next free identifier.
fn push_item(chunks: &mut Vec<Chunk>, e: Event, cap: usize, next: u64) -> (r: u64)
    requires
        next < u64::MAX,
    ensures
        (chunk_views(final(chunks)@), r as nat) == push_one(chunk_views(old(chunks)@), e, cap as nat, next as nat),
{
    let ghost cs = chunk_views(chunks@);
    let n = chunks.len();
    if n > 0 && chunks[n - 1].has_room(cap) {
        let mut last = chunks.pop().unwrap();
        last.push_item(e);
        chunks.push(last);
        assert(chunk_views(chunks@) =~= cs.update(n - 1, items_chunk(cs.last().id, items_of(cs.last()).push(e))));
        next
    } else {
        let mut v: Vec<Event> = Vec::new();
        v.push(e);
        chunks.push(Chunk { identifier: ChunkIdentifier(next), content: ChunkContent::Items(v) });
        assert(v@ =~= seq![e]);
        assert(chunk_views(chunks@) =~= cs.push(items_chunk(next as nat, seq![e])));
        next + 1
    }
}

/// Pushes the items of `es` one after the other; gives the next free identifier.
fn push_items(chunks: &mut Vec<Chunk>, es: &Vec<Event>, cap: usize, next: u64) -> (r: u64)
    requires
        cap > 0,
        chunks_wf(chunk_views(old(chunks)@), cap as nat, next as nat),
        next + es@.len() <= u64::MAX,
    ensures
        (chunk_views(final(chunks)@), r as nat) == push_all(chunk_views(old(chunks)@), es@, cap as nat, next as nat),
{
    let ghost cs = chunk_views(chunks@);
    let mut n = next;
    let mut i: usize = 0;
    while i < es.len()
        invariant
            cap > 0,
            chunks_wf(cs, cap as nat, next as nat),
            next + es@.len() <= u64::MAX,
            i <= es@.len(),
            (chunk_views(chunks@), n as nat) == push_all(cs, es@.take(i as int), cap as nat, next as nat),
        decreases es@.len() - i,
    {
        proof {
            lemma_push_all(cs, es@.take(i as int), cap as nat, next as nat);
            assert(es@.take(i + 1).drop_last() =~= es@.take(i as int));
        }
        n = push_item(chunks, es[i].clone(), cap, n);
        i = i + 1;
    }
    assert(es@.take(i as int) =~= es@);
    n
}

/// The diffs that put `items` at flat index `at` of a sequence of `total`
/// items.
fn placement(total: usize, at: usize, items: Vec<Event>) -> (r: Vec<VectorDiff>)
    requires
        at <= total,
        total + items@.len() <= usize::MAX,
    ensures
        diff_views(r@) == placement_diffs(total as nat, at as nat, items@),
{
    let mut r: Vec<VectorDiff> = Vec::new();
    if items.len() == 0 {
        assert(diff_views(r@) =~= Seq::<DiffView>::empty());
        return r;
    }
    if at == total {
        let ghost xs = items@;
        r.push(VectorDiff::Append { values: items });
        assert(diff_views(r@) =~= seq![DiffView::Append(xs)]);
        return r;
    }
    let mut k: usize = 0;
    while k < items.len()
        invariant
            at <= total,
            total + items@.len() <= usize::MAX,
            k <= items@.len(),
            r@.len() == k,
            forall|j: int| 0 <= j < k ==> (#[trigger] r@[j])@ == DiffView::Insert((at + j) as nat, items@[j]),
        decreases items@.len() - k,
    {
        r.push(VectorDiff::Insert { index: at + k, value: items[k].clone() });
        k = k + 1;
    }
    assert(diff_views(r@) =~= insert_diffs(at as nat, items@));
    r
}

/// The diffs handed to observers: each is applied, in order, to the flat
/// sequence of items.
pub enum VectorDiff {
    Append { values: Vec<Event> },
    Insert { index: usize, value: Event },
    SetAt { index: usize, value: Event },
    Remove { index: usize },
    Clear,
}

impl View for VectorDiff {
    type V = DiffView;

    open spec fn view(&self) -> DiffView {
        match self {
            VectorDiff::Append { values } => DiffView::Append(values@),
            VectorDiff::Insert { index, value } => DiffView::Insert(*index as nat, *value),
            VectorDiff::SetAt { index, value } => DiffView::SetAt(*index as nat, *value),
            VectorDiff::Remove { index } => DiffView::Remove(*index as nat),
            VectorDiff::Clear => DiffView::Clear,
        }
    }
}

pub open spec fn diff_views(v: Seq<VectorDiff>) -> Seq<DiffView> {
    v.map_values(|d: VectorDiff| d@)
}

/// An ordered sequence of items in chunks of bounded size, separated where
/// history is missing by gaps, with a live stream of diffs over its items.
pub struct LinkedChunk {
    chunks: Vec<Chunk>,
    capacity: usize,
    next_id: u64,
    diffs: Vec<VectorDiff>,
    observed: Ghost<Seq<Event>>,
}

impl View for LinkedChunk {
    type V = LinkedChunkView;

    closed spec fn view(&self) -> LinkedChunkView {
        LinkedChunkView {
            chunks: chunk_views(self.chunks@),
            capacity: self.capacity as nat,
            next_id: self.next_id as nat,
            pending: diff_views(self.diffs@),
            observed: self.observed@,
        }
    }
}

impl LinkedChunk {
    /// An empty linked chunk: one empty items-chunk, with identifier 0.
    pub fn new(capacity: usize) -> (r: Self)
        requires
            capacity > 0,
        ensures
            r@.wf(),
            r@ == LinkedChunkView::empty(capacity as nat),
    {
        let mut chunks: Vec<Chunk> = Vec::new();
        chunks.push(Chunk { identifier: ChunkIdentifier(0), content: ChunkContent::Items(Vec::new()) });
        let r = LinkedChunk { chunks, capacity, next_id: 1, diffs: Vec::new(), observed: Ghost(Seq::empty()) };
        proof {
            let cs = chunk_views(r.chunks@);
            assert(cs =~= seq![items_chunk(0, Seq::empty())]);
            lemma_flatten_one(cs[0]);
            assert(diff_views(r.diffs@) =~= Seq::<DiffView>::empty());
            assert(r@ =~= LinkedChunkView::empty(capacity as nat));
        }
        r
    }

    /// Pushes items after the last chunk: into it while it is an items-chunk
    /// with room, then into new items-chunks. Pushing nothing does nothing.
    pub fn push_items_back(&mut self, items: Vec<Event>)
        requires
            old(self)@.wf(),
            items@.len() == 0 || old(self)@.can_grow(items@.len()),
        ensures
            final(self)@.wf(),
            final(self)@ == old(self)@.push_items_back(items@),
    {
        if items.len() == 0 {
            proof {
                assert(self@.pending + Seq::<DiffView>::empty() =~= self@.pending);
            }
            return;
        }
        let ghost v0 = self@;
        self.next_id = push_items(&mut self.chunks, &items, self.capacity, self.next_id);
        let ghost len = v0.items().len();
        self.diffs.push(VectorDiff::Append { values: items });
        proof {
            assert(placement_diffs(len, len, items@) == seq![DiffView::Append(items@)]);
            assert(diff_views(self.diffs@) =~= v0.pending.push(DiffView::Append(items@)));
            assert(diff_views(self.diffs@) =~= v0.pending + placement_diffs(len, len, items@));
            lemma_push_items_back_wf(v0, items@);
        }
    }

    /// The chunks themselves, in chain order.
    pub closed spec fn chunk_list(&self) -> Seq<Chunk> {
        self.chunks@
    }

    /// The index of the chunk with identifier `id`, if any.
    fn find_chunk(&self, id: ChunkIdentifier) -> (r: Option<usize>)
        requires
            self@.wf(),
        ensures
            match r {
                Some(i) => self@.index_of(id) == Some(i as int) && i < self@.chunks.len(),
                None => self@.index_of(id) is None,
            },
    {
        let ghost cs = self@.chunks;
        let mut i: usize = 0;
        while i < self.chunks.len()
            invariant
                cs == self@.chunks,
                self@.wf(),
                i <= cs.len(),
                forall|k: int| 0 <= k < i ==> cs[k].id != id.0 as nat,
            decreases cs.len() - i,
        {
            if self.chunks[i].identifier.0 == id.0 {
                proof {
                    lemma_chunk_index(cs, i as int);
                }
                return Some(i);
            }
            i = i + 1;
        }
        None
    }

    /// The flat index of the first item of chunk `ci`.
    fn offset_of(&self, ci: usize) -> (r: usize)
        requires
            self@.wf(),
            ci < self@.chunks.len(),
        ensures
            r == offset(self@.chunks, ci as int),
    {
        let ghost cs = self@.chunks;
        let mut sum: usize = 0;
        let mut k: usize = 0;
        while k < ci
            invariant
                cs == self@.chunks,
                self@.wf(),
                k <= ci < cs.len(),
                sum == flatten(cs.take(k as int)).len(),
            decreases ci - k,
        {
            proof {
                assert(cs.take(k + 1).drop_last() =~= cs.take(k as int));
                lemma_flatten_concat(cs.take(k + 1), cs.skip(k + 1));
                assert(cs.take(k + 1) + cs.skip(k + 1) =~= cs);
            }
            sum = sum + self.chunks[k].num_items();
            k = k + 1;
        }
        sum
    }

    pub fn capacity(&self) -> (r: usize)
        ensures
            r == self@.capacity,
    {
        self.capacity
    }

    /// The chunks, in chain order.
    pub fn chunks(&self) -> (r: &Vec<Chunk>)
        ensures
            chunk_views(r@) == self@.chunks,
    {
        &self.chunks
    }

    /// The chunks, last first.
    pub fn rchunks(&self) -> (r: Vec<&Chunk>)
        ensures
            r@.len() == self@.chunks.len(),
            forall|i: int| 0 <= i < r@.len() ==> (#[trigger] r@[i])@ == self@.chunks[self@.chunks.len() - 1 - i],
    {
        let mut r: Vec<&Chunk> = Vec::new();
        let n = self.chunks.len();
        let mut i: usize = 0;
        while i < n
            invariant
                n == self.chunks@.len(),
                i <= n,
                r@.len() == i,
                forall|k: int| 0 <= k < i ==> (#[trigger] r@[k])@ == self@.chunks[n - 1 - k],
            decreases n - i,
        {
            r.push(&self.chunks[n - 1 - i]);
            i = i + 1;
        }
        r
    }

    /// The first chunk, in chain order, that satisfies `predicate`.
    pub fn chunk_identifier<P: Fn(&Chunk) -> bool>(&self, predicate: P) -> (r: Option<ChunkIdentifier>)
        requires
            forall|c: &Chunk| predicate.requires((c,)),
        ensures
            match r {
                Some(id) => exists|i: int|
                    0 <= i < self@.chunks.len() && self@.chunks[i].id == id.0 && predicate.ensures((&self.chunk_list()[i],), true)
                        && forall|k: int| 0 <= k < i ==> predicate.ensures((&self.chunk_list()[k],), false),
                None => forall|k: int| 0 <= k < self@.chunks.len() ==> predicate.ensures((&self.chunk_list()[k],), false),
            },
    {
        let mut i: usize = 0;
        while i < self.chunks.len()
            invariant
                i <= self.chunks@.len(),
                forall|c: &Chunk| predicate.requires((c,)),
                forall|k: int| 0 <= k < i ==> predicate.ensures((&self.chunks@[k],), false),
            decreases self.chunks@.len() - i,
        {
            if predicate(&self.chunks[i]) {
                proof {
                    assert(self@.chunks[i as int] == self.chunks@[i as int]@);
                }
                return Some(self.chunks[i].identifier);
            }
            i = i + 1;
        }
        None
    }

    /// The number of items in all chunks.
    pub fn num_items(&self) -> (r: usize)
        requires
            self@.wf(),
        ensures
            r == self@.items().len(),
    {
        let n = self.chunks.len();
        if n == 0 {
            return 0;
        }
        proof {
            lemma_flatten_split(self@.chunks, n - 1);
            assert(self@.chunks.skip(n as int) =~= Seq::<ChunkView>::empty());
            assert(flatten(Seq::<ChunkView>::empty()) =~= Seq::<Event>::empty());
        }
        self.offset_of(n - 1) + self.chunks[n - 1].num_items()
    }

    /// The items with their positions, in order.
    pub fn items(&self) -> (r: Vec<(Position, &Event)>)
        requires
            self@.wf(),
        ensures
            r@.len() == self@.items().len(),
            forall|i: int| 0 <= i < r@.len() ==> (#[trigger] r@[i]).1 == self@.items()[i] && item_at(self@.chunks, r@[i].0) == Some(self@.items()[i]),
    {
        let ghost cs = self@.chunks;
        let mut r: Vec<(Position, &Event)> = Vec::new();
        let mut ci: usize = 0;
        while ci < self.chunks.len()
            invariant
                cs == self@.chunks,
                self@.wf(),
                ci <= cs.len(),
                r@.len() == flatten(cs.take(ci as int)).len(),
                forall|i: int| 0 <= i < r@.len() ==> (#[trigger] r@[i]).1 == flatten(cs.take(ci as int))[i] && item_at(cs, r@[i].0) == Some(flatten(cs.take(ci as int))[i]),
            decreases cs.len() - ci,
        {
            let c = &self.chunks[ci];
            let ghost before = flatten(cs.take(ci as int));
            proof {
                assert(cs.take(ci + 1).drop_last() =~= cs.take(ci as int));
                lemma_chunk_index(cs, ci as int);
            }
            match &c.content {
                ChunkContent::Items(v) => {
                    let mut k: usize = 0;
                    while k < v.len()
                        invariant
                            cs == self@.chunks,
                            self@.wf(),
                            ci < cs.len(),
                            cs[ci as int] == c@,
                            c.content == ChunkContent::Items(*v),
                            chunk_index(cs, cs[ci as int].id) == Some(ci as int),
                            k <= v@.len(),
                            r@.len() == before.len() + k,
                            forall|i: int| 0 <= i < r@.len() ==> (#[trigger] r@[i]).1 == (before + v@)[i] && item_at(cs, r@[i].0) == Some((before + v@)[i]),
                        decreases v@.len() - k,
                    {
                        r.push((Position::new(c.identifier, k), &v[k]));
                        k = k + 1;
                    }
                },
                ChunkContent::Gap(_) => {},
            }
            ci = ci + 1;
        }
        assert(cs.take(cs.len() as int) =~= cs);
        r
    }

    /// Hands out the diffs made since the last call, in order; each diff is
    /// handed out once.
    pub fn updates_as_vector_diffs(&mut self) -> (r: Vec<VectorDiff>)
        requires
            old(self)@.wf(),
        ensures
            final(self)@.wf(),
            final(self)@ == old(self)@.drain(),
            diff_views(r@) == old(self)@.pending,
    {
        let mut r: Vec<VectorDiff> = Vec::new();
        std::mem::swap(&mut r, &mut self.diffs);
        self.observed = Ghost(flatten(chunk_views(self.chunks@)));
        proof {
            assert(diff_views(self.diffs@) =~= Seq::<DiffView>::empty());
        }
        r
    }

    /// Drops all chunks for one fresh empty items-chunk; observers see a
    /// `Clear`.
    pub fn clear(&mut self)
        requires
            old(self)@.wf(),
            old(self)@.ids_left(1),
        ensures
            final(self)@.wf(),
            final(self)@ == old(self)@.clear(),
    {
        let ghost v0 = self@;
        let mut chunks: Vec<Chunk> = Vec::new();
        chunks.push(Chunk { identifier: ChunkIdentifier(self.next_id), content: ChunkContent::Items(Vec::new()) });
        self.chunks = chunks;
        self.next_id = self.next_id + 1;
        self.diffs.push(VectorDiff::Clear);
        proof {
            assert(self@.chunks =~= seq![items_chunk(v0.next_id, Seq::empty())]);
            assert(diff_views(self.diffs@) =~= v0.pending.push(DiffView::Clear));
            lemma_clear_wf(v0);
        }
    }

    /// Pushes a gap after the last chunk; refused right after another gap.
    pub fn push_gap_back(&mut self, gap: Gap) -> (r: Result<(), LinkedChunkError>)
        requires
            old(self)@.wf(),
            old(self)@.ids_left(1),
        ensures
            final(self)@.wf(),
            r == old(self)@.push_gap_back_result(),
            final(self)@ == old(self)@.push_gap_back(gap),
    {
        let ghost v0 = self@;
        let n = self.chunks.len();
        if n > 0 && self.chunks[n - 1].is_gap() {
            return Err(LinkedChunkError::InvalidOperation);
        }
        self.chunks.push(Chunk { identifier: ChunkIdentifier(self.next_id), content: ChunkContent::Gap(gap) });
        self.next_id = self.next_id + 1;
        proof {
            assert(self@.chunks =~= v0.chunks.push(gap_chunk(v0.next_id, gap)));
            lemma_push_gap_back_wf(v0, gap);
        }
        Ok(())
    }

    /// Overwrites the item at `pos`; observers see a `SetAt`.
    pub fn replace_item_at(&mut self, pos: Position, item: Event) -> (r: Result<(), LinkedChunkError>)
        requires
            old(self)@.wf(),
        ensures
            final(self)@.wf(),
            r == old(self)@.replace_item_at_result(pos),
            final(self)@ == old(self)@.replace_item_at(pos, item),
    {
        let ghost v0 = self@;
        let ci = match self.find_chunk(pos.chunk_identifier) {
            None => return Err(LinkedChunkError::InvalidPosition),
            Some(ci) => ci,
        };
        if self.chunks[ci].is_gap() {
            return Err(LinkedChunkError::NotAnItemsChunk);
        }
        if pos.index >= self.chunks[ci].num_items() {
            return Err(LinkedChunkError::InvalidPosition);
        }
        let off = self.offset_of(ci);
        proof {
            lemma_offset(v0.chunks, ci as int);
        }
        let ghost s = items_of(v0.chunks[ci as int]);
        self.chunks[ci].set_item(pos.index, item.clone());
        self.diffs.push(VectorDiff::SetAt { index: off + pos.index, value: item });
        proof {
            let d = DiffView::SetAt((off + pos.index) as nat, item);
            assert(self@.chunks =~= v0.chunks.update(ci as int, items_chunk(v0.chunks[ci as int].id, s.update(pos.index as int, item))));
            assert(diff_views(self.diffs@) =~= v0.pending.push(d));
            lemma_replace_item_at_wf(v0, pos, item);
        }
        Ok(())
    }

    /// Removes the item at `pos`; observers see a `Remove`. An items-chunk
    /// left empty goes if the policy says so and it is not the first chunk,
    /// and the removal is refused where that would bring two gaps together.
    pub fn remove_item_at(&mut self, pos: Position, policy: EmptyChunk) -> (r: Result<Event, LinkedChunkError>)
        requires
            old(self)@.wf(),
        ensures
            final(self)@.wf(),
            r == old(self)@.remove_item_at_result(pos, policy),
            final(self)@ == old(self)@.remove_item_at(pos, policy),
    {
        let ghost v0 = self@;
        let ci = match self.find_chunk(pos.chunk_identifier) {
            None => return Err(LinkedChunkError::InvalidPosition),
            Some(ci) => ci,
        };
        if self.chunks[ci].is_gap() {
            return Err(LinkedChunkError::NotAnItemsChunk);
        }
        let len = self.chunks[ci].num_items();
        if pos.index >= len {
            return Err(LinkedChunkError::InvalidPosition);
        }
        let drop = policy == EmptyChunk::Remove && len == 1 && ci > 0;
        assert(drop == v0.drops_chunk(pos, policy));
        if drop && self.chunks[ci - 1].is_gap() && ci < self.chunks.len() - 1 && self.chunks[ci + 1].is_gap() {
            return Err(LinkedChunkError::InvalidOperation);
        }
        let off = self.offset_of(ci);
        proof {
            lemma_offset(v0.chunks, ci as int);
        }
        let ghost s = items_of(v0.chunks[ci as int]);
        let item;
        if drop {
            let mut c = self.chunks.remove(ci);
            item = c.take_item(pos.index);
            proof {
                assert(self@.chunks =~= v0.chunks.remove(ci as int));
            }
        } else {
            item = self.chunks[ci].take_item(pos.index);
            proof {
                assert(self@.chunks =~= v0.chunks.update(ci as int, items_chunk(v0.chunks[ci as int].id, s.remove(pos.index as int))));
            }
        }
        self.diffs.push(VectorDiff::Remove { index: off + pos.index });
        proof {
            let d = DiffView::Remove((off + pos.index) as nat);
            assert(diff_views(self.diffs@) =~= v0.pending.push(d));
            lemma_remove_item_at_wf(v0, pos, policy);
        }
        Ok(item)
    }

    /// Appends the diffs of `ds` to those not drained yet.
    fn record(&mut self, ds: Vec<VectorDiff>)
        ensures
            final(self)@ == old(self)@.with_chunks(old(self)@.chunks, old(self)@.next_id, old(self)@.pending + diff_views(ds@)),
    {
        let mut ds = ds;
        let ghost d0 = diff_views(ds@);
        let ghost before = diff_views(self.diffs@);
        self.diffs.append(&mut ds);
        assert(diff_views(self.diffs@) =~= before + d0);
    }

    /// Inserts items right before `pos`; an index equal to the chunk's length
    /// means the end of that chunk. What does not fit spills into new
    /// items-chunks that follow it; every other chunk stays as it was.
    #[verifier::rlimit(60)]
    pub fn insert_items_at(&mut self, items: Vec<Event>, pos: Position) -> (r: Result<(), LinkedChunkError>)
        requires
            old(self)@.wf(),
            old(self)@.can_grow(items@.len()),
        ensures
            final(self)@.wf(),
            r == old(self)@.insert_items_at_result(pos),
            final(self)@ == old(self)@.insert_items_at(items@, pos),
    {
        let ghost v0 = self@;
        let ci = match self.find_chunk(pos.chunk_identifier) {
            None => return Err(LinkedChunkError::InvalidPosition),
            Some(ci) => ci,
        };
        if self.chunks[ci].is_gap() {
            return Err(LinkedChunkError::NotAnItemsChunk);
        }
        if pos.index > self.chunks[ci].num_items() {
            return Err(LinkedChunkError::InvalidPosition);
        }
        let off = self.offset_of(ci);
        let total = self.num_items();
        proof {
            lemma_offset(v0.chunks, ci as int);
        }
        let ghost c = v0.chunks[ci as int];
        let ghost s = items_of(c);
        let idx = pos.index;
        let nch = self.chunks.len();
        assert(ci < nch);
        let mut tail = self.chunks.split_off(ci + 1);
        let x = self.chunks.pop().unwrap();
        let id = x.identifier;
        let mut v = x.into_items();
        let suffix = v.split_off(idx);
        let mut mid: Vec<Chunk> = Vec::new();
        mid.push(Chunk { identifier: id, content: ChunkContent::Items(v) });
        let ghost head = chunk_views(mid@);
        proof {
            assert(head =~= seq![items_chunk(c.id, s.take(idx as int))]);
            assert(s.take(idx as int).len() <= v0.capacity);
        }
        let n1 = push_items(&mut mid, &items, self.capacity, self.next_id);
        proof {
            lemma_push_all(head, items@, v0.capacity, v0.next_id);
            lemma_push_all_concat(head, items@, suffix@, v0.capacity, v0.next_id);
            lemma_push_all(head, items@ + suffix@, v0.capacity, v0.next_id);
        }
        let n2 = push_items(&mut mid, &suffix, self.capacity, n1);
        let ghost mv = chunk_views(mid@);
        self.chunks.append(&mut mid);
        self.chunks.append(&mut tail);
        self.next_id = n2;
        proof {
            assert(self@.chunks =~= v0.chunks.take(ci as int) + mv + v0.chunks.skip(ci + 1));
            assert forall|j: int| 0 <= j < mv.len() implies #[trigger] mv[j].id == v0.chunks[ci as int].id || mv[j].id
                >= v0.next_id by {
                if j >= 1 {
                    assert(mv[j].id >= v0.next_id);
                }
            }
            lemma_insert_items_at_wf(v0, items@, pos);
        }
        let ds = placement(total, off + idx, items);
        self.record(ds);
        Ok(())
    }

    /// Inserts a gap at `pos`: before the chunk at index 0, else between the
    /// two halves of the chunk split there.
    pub fn insert_gap_at(&mut self, gap: Gap, pos: Position) -> (r: Result<(), LinkedChunkError>)
        requires
            old(self)@.wf(),
            old(self)@.ids_left(2),
        ensures
            final(self)@.wf(),
            r == old(self)@.insert_gap_at_result(pos),
            final(self)@ == old(self)@.insert_gap_at(gap, pos),
    {
        let ghost v0 = self@;
        let ci = match self.find_chunk(pos.chunk_identifier) {
            None => return Err(LinkedChunkError::InvalidPosition),
            Some(ci) => ci,
        };
        if self.chunks[ci].is_gap() {
            return Err(LinkedChunkError::NotAnItemsChunk);
        }
        let ghost c = v0.chunks[ci as int];
        let ghost s = items_of(c);
        let next = self.next_id;
        if pos.index == 0 {
            if ci > 0 && self.chunks[ci - 1].is_gap() {
                return Err(LinkedChunkError::InvalidOperation);
            }
            self.chunks.insert(ci, Chunk { identifier: ChunkIdentifier(next), content: ChunkContent::Gap(gap) });
            self.next_id = next + 1;
            proof {
                assert(self@.chunks =~= v0.chunks.take(ci as int) + seq![gap_chunk(next as nat, gap)] + v0.chunks.skip(ci as int));
                lemma_insert_gap_at_wf(v0, gap, pos);
            }
            return Ok(());
        }
        if pos.index >= self.chunks[ci].num_items() {
            return Err(LinkedChunkError::InvalidPosition);
        }
        let idx = pos.index;
        let nch = self.chunks.len();
        assert(ci < nch);
        let mut tail = self.chunks.split_off(ci + 1);
        let x = self.chunks.pop().unwrap();
        let id = x.identifier;
        let mut v = x.into_items();
        let suffix = v.split_off(idx);
        let ghost left = v@;
        let ghost right = suffix@;
        self.chunks.push(Chunk { identifier: id, content: ChunkContent::Items(v) });
        self.chunks.push(Chunk { identifier: ChunkIdentifier(next), content: ChunkContent::Gap(gap) });
        self.chunks.push(Chunk { identifier: ChunkIdentifier(next + 1), content: ChunkContent::Items(suffix) });
        self.chunks.append(&mut tail);
        self.next_id = next + 2;
        proof {
            let mid = seq![items_chunk(c.id, left), gap_chunk(next as nat, gap), items_chunk((next + 1) as nat, right)];
            assert(left =~= s.take(idx as int));
            assert(right =~= s.skip(idx as int));
            assert(self@.chunks =~= v0.chunks.take(ci as int) + mid + v0.chunks.skip(ci + 1));
            lemma_insert_gap_at_wf(v0, gap, pos);
        }
        Ok(())
    }

    /// Removes a gap; gives the first position of the chunk after it, if any.
    pub fn remove_gap_at(&mut self, id: ChunkIdentifier) -> (r: Result<Option<Position>, LinkedChunkError>)
        requires
            old(self)@.wf(),
        ensures
            final(self)@.wf(),
            r == old(self)@.remove_gap_at_result(id),
            final(self)@ == old(self)@.remove_gap_at(id),
    {
        let ghost v0 = self@;
        let ci = match self.find_chunk(id) {
            None => return Err(LinkedChunkError::ChunkNotFound),
            Some(ci) => ci,
        };
        if self.chunks[ci].is_items() {
            return Err(LinkedChunkError::NotAGap);
        }
        let next_pos = if ci < self.chunks.len() - 1 {
            Some(self.chunks[ci + 1].first_position())
        } else {
            None
        };
        self.chunks.remove(ci);
        proof {
            assert(self@.chunks =~= v0.chunks.remove(ci as int));
            lemma_remove_gap_at_wf(v0, id);
        }
        Ok(next_pos)
    }

    /// Replaces a gap by items in new items-chunks; gives the first position
    /// of the new run. With no items, removes the gap instead.
    pub fn replace_gap_at(&mut self, items: Vec<Event>, id: ChunkIdentifier) -> (r: Result<Option<Position>, LinkedChunkError>)
        requires
            old(self)@.wf(),
            old(self)@.can_grow(items@.len()),
        ensures
            final(self)@.wf(),
            r == old(self)@.replace_gap_at_result(items@, id),
            final(self)@ == old(self)@.replace_gap_at(items@, id),
    {
        if items.len() == 0 {
            return self.remove_gap_at(id);
        }
        let ghost v0 = self@;
        let ci = match self.find_chunk(id) {
            None => return Err(LinkedChunkError::ChunkNotFound),
            Some(ci) => ci,
        };
        if self.chunks[ci].is_items() {
            return Err(LinkedChunkError::NotAGap);
        }
        let off = self.offset_of(ci);
        let total = self.num_items();
        proof {
            lemma_offset(v0.chunks, ci as int);
        }
        let next = self.next_id;
        let mut mid: Vec<Chunk> = Vec::new();
        proof {
            assert(chunk_views(mid@) =~= Seq::<ChunkView>::empty());
            lemma_push_all(Seq::empty(), items@, v0.capacity, v0.next_id);
        }
        let n = push_items(&mut mid, &items, self.capacity, next);
        let ghost mv = chunk_views(mid@);
        let nch = self.chunks.len();
        assert(ci < nch);
        let mut tail = self.chunks.split_off(ci + 1);
        self.chunks.pop();
        self.chunks.append(&mut mid);
        self.chunks.append(&mut tail);
        self.next_id = n;
        proof {
            assert(self@.chunks =~= v0.chunks.take(ci as int) + mv + v0.chunks.skip(ci + 1));
            lemma_replace_gap_at_wf(v0, items@, id);
        }
        let ds = placement(total, off, items);
        self.record(ds);
        Ok(Some(Position::new(ChunkIdentifier(next), 0)))
    }

    /// The item at `pos`, if `pos` addresses one.
    pub fn event_at(&self, pos: Position) -> (r: Option<&Event>)
        requires
            self@.wf(),
        ensures
            match r {
                Some(e) => item_at(self@.chunks, pos) == Some(*e),
                None => item_at(self@.chunks, pos) is None,
            },
    {
        let ci = match self.find_chunk(pos.chunk_identifier) {
            None => return None,
            Some(ci) => ci,
        };
        match &self.chunks[ci].content {
            ChunkContent::Items(v) => if pos.index < v.len() {
                Some(&v[pos.index])
            } else {
                None
            },
            ChunkContent::Gap(_) => None,
        }
    }
}

} // verus!
