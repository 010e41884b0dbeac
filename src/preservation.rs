use vstd::prelude::*;

use crate::event::{ChunkIdentifier, EmptyChunk, Event, Gap, Position};
use crate::model::{
    apply_diff, apply_diffs, chunks_wf, flatten, gap_chunk, is_gap, items_chunk, items_of, lemma_apply_diffs_concat,
    lemma_apply_diffs_push, lemma_flatten_one, lemma_flatten_splice, lemma_flatten_split, lemma_offset,
    lemma_placement_diffs, lemma_push_all, lemma_wf_remove, lemma_wf_splice, lemma_wf_update,
    offset, placement_diffs, push_all, ChunkView, DiffView, LinkedChunkView,
};

verus! {

/// Placing `es` at flat index `at` keeps the replay clause.
proof fn lemma_placement_replay(v: LinkedChunkView, at: nat, es: Seq<Event>, items: Seq<Event>)
    requires
        apply_diffs(v.observed, v.pending) == v.items(),
        at <= v.items().len(),
        items == v.items().take(at as int) + es + v.items().skip(at as int),
    ensures
        apply_diffs(v.observed, v.pending + placement_diffs(v.items().len(), at, es)) == items,
{
    lemma_placement_diffs(v.items(), at, es);
    lemma_apply_diffs_concat(v.observed, v.pending, placement_diffs(v.items().len(), at, es));
}

pub proof fn lemma_push_items_back_wf(v: LinkedChunkView, es: Seq<Event>)
    requires
        v.wf(),
        es.len() == 0 || v.can_grow(es.len()),
    ensures
        v.push_items_back(es).wf(),
{
    if es.len() == 0 {
        assert(v.pending + placement_diffs(v.items().len(), v.items().len(), es) =~= v.pending);
        assert(v.push_items_back(es) =~= v);
    } else {
        lemma_push_all(v.chunks, es, v.capacity, v.next_id);
        let len = v.items().len();
        assert(v.items().take(len as int) + es + v.items().skip(len as int) =~= v.items() + es);
        lemma_placement_replay(v, len, es, v.items() + es);
    }
}

pub proof fn lemma_push_gap_back_wf(v: LinkedChunkView, g: Gap)
    requires
        v.wf(),
        v.ids_left(1),
    ensures
        v.push_gap_back(g).wf(),
{
    if v.push_gap_back_result() is Ok {
        let n = v.chunks.len();
        let cs = v.chunks.push(gap_chunk(v.next_id, g));
        assert(cs.drop_last() =~= v.chunks);
        assert forall|i: int| 0 <= i < cs.len() - 1 implies !(#[trigger] is_gap(cs[i]) && is_gap(cs[i + 1])) by {
            if i + 1 < n {
                assert(!(is_gap(v.chunks[i]) && is_gap(v.chunks[i + 1])));
            }
        }
        assert forall|i: int, j: int| 0 <= i < cs.len() && 0 <= j < cs.len() && i != j implies #[trigger] cs[i].id
            != #[trigger] cs[j].id by {
            if i < n && j < n {
                assert(v.chunks[i].id != v.chunks[j].id);
            } else if i < n {
                assert(v.chunks[i].id < v.next_id);
            } else if j < n {
                assert(v.chunks[j].id < v.next_id);
            }
        }
        assert forall|i: int| 0 <= i < cs.len() implies #[trigger] cs[i].id < v.next_id + 1 by {
            if i < n {
                assert(v.chunks[i].id < v.next_id);
            }
        }
        assert forall|i: int| 0 <= i < cs.len() implies #[trigger] items_of(cs[i]).len() <= v.capacity by {
            if i < n {
                assert(items_of(v.chunks[i]).len() <= v.capacity);
            }
        }
        assert(flatten(cs) =~= flatten(v.chunks));
    }
}

#[verifier::rlimit(40)]
pub proof fn lemma_insert_items_at_wf(v: LinkedChunkView, es: Seq<Event>, pos: Position)
    requires
        v.wf(),
        v.can_grow(es.len()),
    ensures
        v.insert_items_at(es, pos).wf(),
{
    if v.insert_items_at_result(pos) is Ok {
        let ci = v.index_of(pos.chunk_identifier).unwrap();
        let c = v.chunks[ci];
        let s = items_of(c);
        let idx = pos.index as int;
        let head = seq![items_chunk(c.id, s.take(idx))];
        lemma_offset(v.chunks, ci);
        assert(s.take(idx).len() <= v.capacity);
        lemma_push_all(head, es + s.skip(idx), v.capacity, v.next_id);
        let (mid, n) = push_all(head, es + s.skip(idx), v.capacity, v.next_id);
        assert forall|j: int| 0 <= j < mid.len() implies #[trigger] mid[j].id == v.chunks[ci].id || mid[j].id
            >= v.next_id by {
            if j >= 1 {
                assert(mid[j].id >= v.next_id);
            }
        }
        lemma_wf_splice(v.chunks, ci, mid, v.capacity, v.next_id, n);
        lemma_flatten_splice(v.chunks, ci, mid);
        lemma_flatten_one(head[0]);
        lemma_flatten_split(v.chunks, ci);
        assert(flatten(mid) =~= s.take(idx) + es + s.skip(idx));
        let at = offset(v.chunks, ci) + idx;
        let w = v.insert_items_at(es, pos);
        assert(w.items() =~= v.items().take(at) + es + v.items().skip(at));
        lemma_placement_replay(v, at as nat, es, w.items());
    }
}

pub proof fn lemma_insert_gap_at_wf(v: LinkedChunkView, g: Gap, pos: Position)
    requires
        v.wf(),
        v.ids_left(2),
    ensures
        v.insert_gap_at(g, pos).wf(),
{
    if v.insert_gap_at_result(pos) is Ok {
        let ci = v.index_of(pos.chunk_identifier).unwrap();
        let c = v.chunks[ci];
        let s = items_of(c);
        let idx = pos.index as int;
        let next = v.next_id;
        assert(c.id < next);
        if idx == 0 {
            let mid = seq![gap_chunk(next, g), c];
            assert(v.chunks.take(ci) + seq![gap_chunk(next, g)] + v.chunks.skip(ci) =~= v.chunks.take(ci) + mid
                + v.chunks.skip(ci + 1));
            assert(mid.last() == c);
            lemma_wf_splice(v.chunks, ci, mid, v.capacity, next, next + 1);
            lemma_flatten_splice(v.chunks, ci, mid);
            lemma_flatten_split(v.chunks, ci);
            assert(mid.drop_last() =~= seq![gap_chunk(next, g)]);
            lemma_flatten_one(gap_chunk(next, g));
            assert(flatten(mid) =~= s);
        } else {
            let left = s.take(idx);
            let right = s.skip(idx);
            let mid = seq![items_chunk(c.id, left), gap_chunk(next, g), items_chunk(next + 1, right)];
            assert(mid.last() == items_chunk(next + 1, right));
            assert(chunks_wf(mid, v.capacity, next + 2));
            lemma_wf_splice(v.chunks, ci, mid, v.capacity, next, next + 2);
            lemma_flatten_splice(v.chunks, ci, mid);
            lemma_flatten_split(v.chunks, ci);
            let m1 = mid.drop_last();
            assert(m1.drop_last() =~= seq![items_chunk(c.id, left)]);
            lemma_flatten_one(items_chunk(c.id, left));
            assert(m1.last() == gap_chunk(next, g));
            assert(flatten(m1) == flatten(m1.drop_last()) + items_of(m1.last()));
            assert(flatten(mid) == flatten(m1) + items_of(mid.last()));
            assert(s =~= left + right);
            assert(flatten(mid) =~= s);
        }
    }
}

pub proof fn lemma_remove_gap_at_wf(v: LinkedChunkView, id: ChunkIdentifier)
    requires
        v.wf(),
    ensures
        v.remove_gap_at(id).wf(),
{
    if v.gap_error(id) is None {
        let ci = v.index_of(id).unwrap();
        if ci > 0 && ci + 1 < v.chunks.len() {
            assert(!(is_gap(v.chunks[ci - 1]) && is_gap(v.chunks[ci])));
        }
        lemma_wf_remove(v.chunks, ci, v.capacity, v.next_id);
        lemma_flatten_split(v.chunks, ci);
        assert(v.remove_gap_at(id).items() =~= v.items());
    }
}

pub proof fn lemma_replace_gap_at_wf(v: LinkedChunkView, es: Seq<Event>, id: ChunkIdentifier)
    requires
        v.wf(),
        v.can_grow(es.len()),
    ensures
        v.replace_gap_at(es, id).wf(),
{
    if es.len() == 0 {
        lemma_remove_gap_at_wf(v, id);
    } else if v.gap_error(id) is None {
        let ci = v.index_of(id).unwrap();
        lemma_offset(v.chunks, ci);
        lemma_push_all(Seq::empty(), es, v.capacity, v.next_id);
        let (mid, n) = push_all(Seq::empty(), es, v.capacity, v.next_id);
        assert(mid[0].id >= v.next_id);
        assert(mid.last() == mid[mid.len() - 1]);
        lemma_wf_splice(v.chunks, ci, mid, v.capacity, v.next_id, n);
        lemma_flatten_splice(v.chunks, ci, mid);
        lemma_flatten_split(v.chunks, ci);
        assert(flatten(Seq::<ChunkView>::empty()) =~= Seq::<Event>::empty());
        let at = offset(v.chunks, ci);
        let w = v.replace_gap_at(es, id);
        assert(w.items() =~= v.items().take(at as int) + es + v.items().skip(at as int));
        lemma_placement_replay(v, at, es, w.items());
    }
}

pub proof fn lemma_replace_item_at_wf(v: LinkedChunkView, pos: Position, e: Event)
    requires
        v.wf(),
    ensures
        v.replace_item_at(pos, e).wf(),
{
    if v.replace_item_at_result(pos) is Ok {
        let ci = v.index_of(pos.chunk_identifier).unwrap();
        let s = items_of(v.chunks[ci]);
        let at = offset(v.chunks, ci) + pos.index;
        lemma_offset(v.chunks, ci);
        lemma_wf_update(v.chunks, ci, s.update(pos.index as int, e), v.capacity, v.next_id);
        lemma_flatten_split(v.chunks, ci);
        let d = DiffView::SetAt(at as nat, e);
        lemma_apply_diffs_push(v.observed, v.pending, d);
        assert(apply_diff(v.items(), d) =~= v.replace_item_at(pos, e).items());
    }
}

pub proof fn lemma_remove_item_at_wf(v: LinkedChunkView, pos: Position, policy: EmptyChunk)
    requires
        v.wf(),
    ensures
        v.remove_item_at(pos, policy).wf(),
{
    if v.remove_item_at_result(pos, policy) is Ok {
        let ci = v.index_of(pos.chunk_identifier).unwrap();
        let s = items_of(v.chunks[ci]);
        let at = offset(v.chunks, ci) + pos.index;
        lemma_offset(v.chunks, ci);
        lemma_flatten_split(v.chunks, ci);
        if v.drops_chunk(pos, policy) {
            lemma_wf_remove(v.chunks, ci, v.capacity, v.next_id);
            assert(s.remove(0) =~= Seq::<Event>::empty());
        } else {
            lemma_wf_update(v.chunks, ci, s.remove(pos.index as int), v.capacity, v.next_id);
        }
        let d = DiffView::Remove(at as nat);
        lemma_apply_diffs_push(v.observed, v.pending, d);
        assert(apply_diff(v.items(), d) =~= v.remove_item_at(pos, policy).items());
    }
}

pub proof fn lemma_clear_wf(v: LinkedChunkView)
    requires
        v.wf(),
        v.ids_left(1),
    ensures
        v.clear().wf(),
{
    let w = v.clear();
    lemma_flatten_one(w.chunks[0]);
    lemma_apply_diffs_push(v.observed, v.pending, DiffView::Clear);
}

pub proof fn lemma_drain_wf(v: LinkedChunkView)
    requires
        v.wf(),
    ensures
        v.drain().wf(),
{
}

} // verus!
