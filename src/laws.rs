use vstd::arithmetic::div_mod::{lemma_fundamental_div_mod, lemma_fundamental_div_mod_converse};
use vstd::prelude::*;

use crate::event::{has_id, ChunkIdentifier, EmptyChunk, Event, Gap, Position};
use crate::room_events::{
    holds_id, is_last_with_id, is_redacted, last_position_of, later, lemma_chunk_index_same_ids,
    lemma_last_unique, lemma_last_with_id_same_layout, lemma_replace_same_layout, redaction_position, redaction_step,
    remove_all,
    remove_tracking, remove_tracking_one, shift_position, with_raw,
};
use crate::preservation::{
    lemma_clear_wf, lemma_drain_wf, lemma_insert_gap_at_wf, lemma_insert_items_at_wf, lemma_push_gap_back_wf,
    lemma_push_items_back_wf, lemma_remove_gap_at_wf, lemma_remove_item_at_wf, lemma_replace_gap_at_wf,
    lemma_replace_item_at_wf,
};
use crate::model::{lemma_apply_diffs_concat, 
    apply_diffs, chunk_index, chunks_wf, gap_chunk, ChunkView, item_at, lemma_chunk_index, lemma_flatten_split, lemma_push_all,
    lemma_wf_remove, lemma_wf_update, offset, position_at, flatten, is_items, items_chunk, items_of, lemma_flatten_one, no_adjacent_gaps,
    placement_diffs, push_all, push_one, within_capacity, DiffView, LinkedChunkView,
};

verus! {

/// Pushing no item changes nothing and makes no diff.
pub proof fn law_push_nothing(v: LinkedChunkView)
    ensures
        v.push_items_back(Seq::empty()) == v,
{
    assert(v.pending + placement_diffs(v.items().len(), v.items().len(), Seq::<Event>::empty()) =~= v.pending);
}

/// Replacing a gap by no items is removing it, in result, state and diffs.
pub proof fn law_replace_gap_with_nothing(v: LinkedChunkView, gap: ChunkIdentifier)
    ensures
        v.replace_gap_at(Seq::empty(), gap) == v.remove_gap_at(gap),
        v.replace_gap_at_result(Seq::empty(), gap) == v.remove_gap_at_result(gap),
{
}

/// After a drain, clearing and pushing items makes a diff stream that starts
/// with `Clear`, followed by one `Append` of the items (if any).
pub proof fn law_clear_then_push(v: LinkedChunkView, xs: Seq<Event>)
    requires
        v.pending.len() == 0,
    ensures
        v.clear().push_items_back(xs).pending[0] == DiffView::Clear,
        v.clear().push_items_back(xs).pending == if xs.len() == 0 {
            seq![DiffView::Clear]
        } else {
            seq![DiffView::Clear, DiffView::Append(xs)]
        },
{
    let c = v.clear();
    lemma_flatten_one(c.chunks[0]);
    assert(c.items().len() == 0);
    assert(c.pending =~= seq![DiffView::Clear]);
    if xs.len() == 0 {
        assert(c.pending + placement_diffs(0, 0, xs) =~= seq![DiffView::Clear]);
    } else {
        assert(c.pending + placement_diffs(0, 0, xs) =~= seq![DiffView::Clear, DiffView::Append(xs)]);
    }
}

proof fn lemma_push_all_fits(id: nat, s: Seq<Event>, es: Seq<Event>, cap: nat, next: nat)
    requires
        s.len() + es.len() <= cap,
    ensures
        push_all(seq![items_chunk(id, s)], es, cap, next) == (seq![items_chunk(id, s + es)], next),
    decreases es.len(),
{
    if es.len() == 0 {
        assert(s + es =~= s);
    } else {
        lemma_push_all_fits(id, s, es.drop_last(), cap, next);
        let c2 = seq![items_chunk(id, s + es.drop_last())];
        assert(c2.last() == items_chunk(id, s + es.drop_last()));
        assert(is_items(c2.last()));
        assert(push_one(c2, es.last(), cap, next).0 =~= seq![items_chunk(id, (s + es.drop_last()).push(es.last()))]);
        assert((s + es.drop_last()).push(es.last()) =~= s + es);
    }
}

/// Inserting at the index equal to a chunk's length appends within that
/// chunk, when the items fit: no other chunk changes and none is created.
pub proof fn law_insert_at_chunk_end(v: LinkedChunkView, es: Seq<Event>, pos: Position)
    requires
        v.wf(),
        v.insert_items_at_result(pos) is Ok,
        pos.index == items_of(v.chunks[v.index_of(pos.chunk_identifier).unwrap()]).len(),
        pos.index + es.len() <= v.capacity,
    ensures
        ({
            let ci = v.index_of(pos.chunk_identifier).unwrap();
            let c = v.chunks[ci];
            &&& v.insert_items_at(es, pos).chunks == v.chunks.update(ci, items_chunk(c.id, items_of(c) + es))
            &&& v.insert_items_at(es, pos).next_id == v.next_id
        }),
{
    let ci = v.index_of(pos.chunk_identifier).unwrap();
    let c = v.chunks[ci];
    let s = items_of(c);
    let idx = pos.index as int;
    assert(s.take(idx) =~= s);
    assert(s.skip(idx) =~= Seq::<Event>::empty());
    assert(es + s.skip(idx) =~= es);
    lemma_push_all_fits(c.id, s, es, v.capacity, v.next_id);
    assert(v.chunks.take(ci) + seq![items_chunk(c.id, s + es)] + v.chunks.skip(ci + 1) =~= v.chunks.update(
        ci,
        items_chunk(c.id, s + es),
    ));
}

proof fn lemma_redaction_after_replace(v: LinkedChunkView, version: Seq<char>, raw: Seq<char>, redacted: String)
    requires
        v.wf(),
        redaction_position(v, version, raw) is Some,
    ensures
        ({
            let pos = redaction_position(v, version, raw).unwrap();
            let target = item_at(v.chunks, pos).unwrap();
            let w = v.replace_item_at(pos, with_raw(target, redacted));
            &&& item_at(w.chunks, pos) == Some(with_raw(target, redacted))
            &&& redaction_position(w, version, raw) == if is_redacted(redacted@) {
                None
            } else {
                Some(pos)
            }
        }),
{
    let pos = redaction_position(v, version, raw).unwrap();
    let target = item_at(v.chunks, pos).unwrap();
    let e = with_raw(target, redacted);
    lemma_replace_same_layout(v, pos, e);
    let w = v.replace_item_at(pos, e);
    let id = crate::room_events::redaction_target(version, raw).unwrap();
    lemma_last_with_id_same_layout(v, w, id);
    let ci = v.index_of(pos.chunk_identifier).unwrap();
    lemma_chunk_index_same_ids(v.chunks, w.chunks, pos.chunk_identifier.0 as nat);
    assert(items_of(w.chunks[ci])[pos.index as int] == e);
}

/// Applying a redaction whose payload reads as redacted leaves nothing for
/// the same redaction to do: a second application changes nothing and makes
/// no diff.
pub proof fn law_redaction_idempotent(v: LinkedChunkView, version: Seq<char>, raw: Seq<char>, redacted: String)
    requires
        v.wf(),
        redaction_position(v, version, raw) is Some,
        is_redacted(redacted@),
    ensures
        ({
            let pos = redaction_position(v, version, raw).unwrap();
            let target = item_at(v.chunks, pos).unwrap();
            redaction_position(v.replace_item_at(pos, with_raw(target, redacted)), version, raw) is None
        }),
{
    lemma_redaction_after_replace(v, version, raw, redacted);
}

/// The redaction algorithm depends on its arguments alone.
pub open spec fn redactor_is_pure<F: Fn(&String, &String, &String) -> Option<String>>(f: F) -> bool {
    forall|a: &String, b: &String, c: &String, r1: Option<String>, r2: Option<String>|
        #[trigger] f.ensures((a, b, c), r1) && #[trigger] f.ensures((a, b, c), r2) ==> r1 == r2
}

/// The redaction algorithm gives `None` for a redaction that is already
/// applied: on a payload that it made, with the same redaction and room
/// version.
pub open spec fn redactor_settles<F: Fn(&String, &String, &String) -> Option<String>>(f: F) -> bool {
    forall|a: &String, b: &String, c: &String, r: String|
        #[trigger] f.ensures((a, b, c), Some(r)) ==> f.ensures((&r, b, c), None)
}

/// Applying the same redaction twice, with a redaction algorithm that is
/// pure and gives `None` once a redaction is applied, leaves the room as the
/// first application left it: the same payloads and no second `SetAt`.
pub proof fn law_redaction_twice<F: Fn(&String, &String, &String) -> Option<String>>(
    v: LinkedChunkView,
    first: LinkedChunkView,
    second: LinkedChunkView,
    version: &String,
    event: &Event,
    apply_redaction: F,
)
    requires
        v.wf(),
        redactor_is_pure(apply_redaction),
        redactor_settles(apply_redaction),
        redaction_step(v, first, version, event, apply_redaction),
        redaction_step(first, second, version, event, apply_redaction),
    ensures
        second == first,
{
    if let Some(pos) = redaction_position(v, version@, event.raw@) {
        let target = item_at(v.chunks, pos).unwrap();
        let args = (&target.raw, &event.raw, version);
        if first == v && apply_redaction.ensures(args, None) {
            if second != first {
                let r2 = choose|r2: String|
                    apply_redaction.ensures(args, Some(r2)) && second == v.replace_item_at(pos, with_raw(target, r2));
                assert(apply_redaction.ensures(args, Some(r2)));
            }
        } else {
            let r = choose|r: String|
                apply_redaction.ensures(args, Some(r)) && first == v.replace_item_at(pos, with_raw(target, r));
            lemma_redaction_after_replace(v, version@, event.raw@, r);
            if !is_redacted(r@) && second != first {
                let t2 = with_raw(target, r);
                assert(item_at(first.chunks, pos).unwrap() == t2);
                let args2 = (&t2.raw, &event.raw, version);
                assert(apply_redaction.ensures((&r, &event.raw, version), None));
                let r2 = choose|r2: String|
                    apply_redaction.ensures(args2, Some(r2)) && second == first.replace_item_at(pos, with_raw(t2, r2));
                assert(apply_redaction.ensures(args2, Some(r2)));
            }
        }
    }
}

/// Pushing one event and then removing by its identifier gives back the
/// same items; the net diffs are an `Append` of it and its `Remove`.
pub proof fn law_push_then_remove(v: LinkedChunkView, e: Event)
    requires
        v.wf(),
        v.can_grow(1),
        e.event_id is Some,
    ensures
        ({
            let id = e.event_id.unwrap()@;
            let w = remove_all(v.push_items_back(seq![e]), seq![id], EmptyChunk::Remove);
            &&& w.items() == v.items()
            &&& w.pending == v.pending.push(DiffView::Append(seq![e])).push(DiffView::Remove(v.items().len()))
        }),
{
    let id = e.event_id.unwrap()@;
    let cs = v.chunks;
    let u = v.push_items_back(seq![e]);
    assert(seq![e].drop_last() =~= Seq::<Event>::empty());
    lemma_push_all(cs, seq![e], v.capacity, v.next_id);
    assert(push_all(cs, Seq::<Event>::empty(), v.capacity, v.next_id) == (cs, v.next_id));
    assert(push_all(cs, seq![e], v.capacity, v.next_id) == push_one(cs, seq![e].last(), v.capacity, v.next_id));
    assert(u.chunks == push_one(cs, e, v.capacity, v.next_id).0);
    let ci = u.chunks.len() - 1;
    let s = items_of(u.chunks[ci]);
    assert(s.len() >= 1 && s.last() == e);
    let k = s.len() - 1;
    assert(has_id(s[k], id));
    assert(holds_id(u.chunks, id, ci, k));
    assert forall|cj: int, kj: int| #[trigger] holds_id(u.chunks, id, cj, kj) implies !later(ci, k, cj, kj) by {}
    assert(is_last_with_id(u.chunks, id, ci, k));
    lemma_last_unique(u.chunks, id, ci, k);
    let pos = position_at(u.chunks[ci].id, k as nat);
    assert(u.chunks[ci].id < u.next_id);
    lemma_chunk_index(u.chunks, ci);
    assert(u.index_of(pos.chunk_identifier) == Some(ci));
    assert(seq![id].drop_last() =~= Seq::<Seq<char>>::empty());
    assert(remove_all(u, Seq::<Seq<char>>::empty(), EmptyChunk::Remove) == u);
    assert(remove_all(u, seq![id], EmptyChunk::Remove) == crate::room_events::remove_one(u, id, EmptyChunk::Remove));
    lemma_flatten_split(u.chunks, ci);
    assert(u.chunks.skip(ci + 1) =~= Seq::<crate::model::ChunkView>::empty());
    assert(flatten(Seq::<crate::model::ChunkView>::empty()) =~= Seq::<Event>::empty());
    let a = flatten(u.chunks.take(ci));
    assert(u.items() =~= a + s);
    assert(u.items() =~= v.items() + seq![e]);
    assert(offset(u.chunks, ci) == a.len());
    assert(a.len() + k == v.items().len());
    assert(u.pending =~= v.pending.push(DiffView::Append(seq![e])));
    let w = remove_all(u, seq![id], EmptyChunk::Remove);
    let policy = if u.remove_item_at_result(pos, EmptyChunk::Remove) is Ok {
        EmptyChunk::Remove
    } else {
        EmptyChunk::Keep
    };
    assert(w == u.remove_item_at(pos, policy));
    assert(u.remove_item_at_result(pos, policy) is Ok);
    if u.drops_chunk(pos, policy) {
        lemma_wf_remove(u.chunks, ci, u.capacity, u.next_id);
        assert(s.len() == 1);
        assert(a + s =~= v.items() + seq![e]);
        assert(a.len() == v.items().len());
        assert forall|i: int| 0 <= i < a.len() implies a[i] == v.items()[i] by {
            assert((a + s)[i] == a[i]);
            assert((v.items() + seq![e])[i] == v.items()[i]);
        }
        assert(a =~= v.items());
    } else {
        lemma_wf_update(u.chunks, ci, s.remove(k), u.capacity, u.next_id);
        assert(a + s.remove(k) =~= (a + s).drop_last());
        assert((v.items() + seq![e]).drop_last() =~= v.items());
    }
}

/// Identifiers that are distinct and fit in a `u64`.
pub open spec fn ids_fit(cs: Seq<crate::model::ChunkView>) -> bool {
    &&& crate::model::ids_distinct(cs)
    &&& forall|i: int| 0 <= i < cs.len() ==> #[trigger] cs[i].id <= u64::MAX
    &&& forall|i: int| 0 <= i < cs.len() ==> #[trigger] items_of(cs[i]).len() <= usize::MAX
}

proof fn lemma_tracking_one(w: LinkedChunkView, p: Position, id: Seq<char>, e: Event)
    requires
        ids_fit(w.chunks),
        item_at(w.chunks, p) == Some(e),
        !has_id(e, id),
    ensures
        ids_fit(remove_tracking_one(w, p, id).0.chunks),
        item_at(remove_tracking_one(w, p, id).0.chunks, remove_tracking_one(w, p, id).1) == Some(e),
{
    let cs = w.chunks;
    if let Some(rp) = last_position_of(cs, id) {
        let (ci, k) = crate::room_events::last_with_id(cs, id).unwrap();
        assert(is_last_with_id(cs, id, ci, k));
        assert(cs[ci].id <= u64::MAX);
        lemma_chunk_index(cs, ci);
        assert(w.index_of(rp.chunk_identifier) == Some(ci));
        let s = items_of(cs[ci]);
        assert(w.remove_item_at_result(rp, EmptyChunk::Keep) is Ok);
        let w2 = w.remove_item_at(rp, EmptyChunk::Keep);
        assert(w2.chunks == cs.update(ci, items_chunk(cs[ci].id, s.remove(k))));
        let pi = chunk_index(cs, p.chunk_identifier.0 as nat).unwrap();
        assert(cs[pi].id == p.chunk_identifier.0 as nat);
        lemma_chunk_index_same_ids(cs, w2.chunks, p.chunk_identifier.0 as nat);
        assert forall|i: int| 0 <= i < w2.chunks.len() implies #[trigger] w2.chunks[i].id <= u64::MAX by {
            assert(w2.chunks[i].id == cs[i].id);
        }
        assert forall|i: int| 0 <= i < w2.chunks.len() implies #[trigger] items_of(w2.chunks[i]).len() <= usize::MAX by {
            assert(items_of(cs[i]).len() <= usize::MAX);
        }
        let shifted = shift_position(p, rp);
        if pi != ci {
            assert(rp.chunk_identifier != p.chunk_identifier);
            assert(shifted == p);
        } else {
            assert(rp.chunk_identifier == p.chunk_identifier);
            assert(k != p.index);
            if k < p.index {
                assert(s.remove(k)[p.index - 1] == s[p.index as int]);
            } else {
                assert(s.remove(k)[p.index as int] == s[p.index as int]);
            }
        }
    }
}

proof fn lemma_tracking(v: LinkedChunkView, pos: Position, ids: Seq<Seq<char>>, e: Event)
    requires
        ids_fit(v.chunks),
        item_at(v.chunks, pos) == Some(e),
        forall|j: int| 0 <= j < ids.len() ==> !has_id(e, #[trigger] ids[j]),
    ensures
        ids_fit(remove_tracking(v, pos, ids).0.chunks),
        item_at(remove_tracking(v, pos, ids).0.chunks, remove_tracking(v, pos, ids).1) == Some(e),
    decreases ids.len(),
{
    if ids.len() > 0 {
        lemma_tracking(v, pos, ids.drop_last(), e);
        let (w, p) = remove_tracking(v, pos, ids.drop_last());
        assert(!has_id(e, ids[ids.len() - 1]));
        lemma_tracking_one(w, p, ids.last(), e);
    }
}

/// Removing events by identifier while tracking a position keeps the
/// position on its item, as long as that item is not one of those removed.
pub proof fn law_position_follows_item(v: LinkedChunkView, pos: Position, ids: Seq<Seq<char>>)
    requires
        v.wf(),
        item_at(v.chunks, pos) is Some,
        forall|j: int| 0 <= j < ids.len() ==> !has_id(item_at(v.chunks, pos).unwrap(), #[trigger] ids[j]),
    ensures
        item_at(remove_tracking(v, pos, ids).0.chunks, remove_tracking(v, pos, ids).1) == item_at(v.chunks, pos),
{
    assert forall|i: int| 0 <= i < v.chunks.len() implies #[trigger] v.chunks[i].id <= u64::MAX by {
        assert(v.chunks[i].id < v.next_id);
    }
    assert forall|i: int| 0 <= i < v.chunks.len() implies #[trigger] items_of(v.chunks[i]).len() <= usize::MAX by {
        assert(items_of(v.chunks[i]).len() <= v.capacity);
    }
    lemma_tracking(v, pos, ids, item_at(v.chunks, pos).unwrap());
}

/// One mutation of a linked chunk.
pub enum Mutation {
    PushItems(Seq<Event>),
    PushGap(Gap),
    InsertItems(Seq<Event>, Position),
    InsertGap(Gap, Position),
    RemoveGap(ChunkIdentifier),
    ReplaceGap(Seq<Event>, ChunkIdentifier),
    ReplaceItem(Position, Event),
    RemoveItem(Position, EmptyChunk),
    Clear,
    Drain,
}

pub open spec fn apply_mutation(v: LinkedChunkView, m: Mutation) -> LinkedChunkView {
    match m {
        Mutation::PushItems(es) => v.push_items_back(es),
        Mutation::PushGap(g) => v.push_gap_back(g),
        Mutation::InsertItems(es, pos) => v.insert_items_at(es, pos),
        Mutation::InsertGap(g, pos) => v.insert_gap_at(g, pos),
        Mutation::RemoveGap(id) => v.remove_gap_at(id),
        Mutation::ReplaceGap(es, id) => v.replace_gap_at(es, id),
        Mutation::ReplaceItem(pos, e) => v.replace_item_at(pos, e),
        Mutation::RemoveItem(pos, policy) => v.remove_item_at(pos, policy),
        Mutation::Clear => v.clear(),
        Mutation::Drain => v.drain(),
    }
}

/// Every chunk of `b` either was in `a`, by identifier, or has an
/// identifier at least `next`.
pub open spec fn fresh_chunks(a: Seq<ChunkView>, next: nat, b: Seq<ChunkView>) -> bool {
    forall|i: int|
        0 <= i < b.len() ==> (#[trigger] b[i]).id >= next || exists|j: int| 0 <= j < a.len() && a[j].id == b[i].id
}

/// Going from `a` to `b` issues identifiers from `a`'s counter on only.
pub open spec fn issues_fresh_ids(a: LinkedChunkView, b: LinkedChunkView) -> bool {
    &&& a.next_id <= b.next_id
    &&& fresh_chunks(a.chunks, a.next_id, b.chunks)
}

pub open spec fn holds_chunk(v: LinkedChunkView, id: nat) -> bool {
    exists|c: int| 0 <= c < v.chunks.len() && v.chunks[c].id == id
}

proof fn lemma_fresh_splice(cs: Seq<ChunkView>, ci: int, mid: Seq<ChunkView>, next: nat)
    requires
        0 <= ci < cs.len(),
        forall|j: int| 0 <= j < mid.len() ==> #[trigger] mid[j].id == cs[ci].id || mid[j].id >= next,
    ensures
        fresh_chunks(cs, next, cs.take(ci) + mid + cs.skip(ci + 1)),
{
    let r = cs.take(ci) + mid + cs.skip(ci + 1);
    let m = mid.len() as int;
    assert forall|i: int| 0 <= i < r.len() implies (#[trigger] r[i]).id >= next || exists|j: int|
        0 <= j < cs.len() && cs[j].id == r[i].id by {
        if i < ci {
            assert(cs[i].id == r[i].id);
        } else if i < ci + m {
            assert(r[i] == mid[i - ci]);
            if mid[i - ci].id == cs[ci].id {
                assert(cs[ci].id == r[i].id);
            }
        } else {
            assert(r[i] == cs[i - m + 1]);
        }
    }
}

proof fn lemma_fresh_update(cs: Seq<ChunkView>, ci: int, c: ChunkView, next: nat)
    requires
        0 <= ci < cs.len(),
        c.id == cs[ci].id,
    ensures
        fresh_chunks(cs, next, cs.update(ci, c)),
{
    let r = cs.update(ci, c);
    assert forall|i: int| 0 <= i < r.len() implies (#[trigger] r[i]).id >= next || exists|j: int|
        0 <= j < cs.len() && cs[j].id == r[i].id by {
        assert(cs[i].id == r[i].id);
    }
}

proof fn lemma_fresh_remove(cs: Seq<ChunkView>, ci: int, next: nat)
    requires
        0 <= ci < cs.len(),
    ensures
        fresh_chunks(cs, next, cs.remove(ci)),
{
    let r = cs.remove(ci);
    assert forall|i: int| 0 <= i < r.len() implies (#[trigger] r[i]).id >= next || exists|j: int|
        0 <= j < cs.len() && cs[j].id == r[i].id by {
        if i < ci {
            assert(cs[i].id == r[i].id);
        } else {
            assert(cs[i + 1].id == r[i].id);
        }
    }
}

proof fn lemma_fresh_push_all(cs: Seq<ChunkView>, es: Seq<Event>, cap: nat, next: nat)
    requires
        cap > 0,
        chunks_wf(cs, cap, next),
    ensures
        fresh_chunks(cs, next, push_all(cs, es, cap, next).0),
        next <= push_all(cs, es, cap, next).1,
{
    lemma_push_all(cs, es, cap, next);
    let r = push_all(cs, es, cap, next).0;
    assert forall|i: int| 0 <= i < r.len() implies (#[trigger] r[i]).id >= next || exists|j: int|
        0 <= j < cs.len() && cs[j].id == r[i].id by {
        if i < cs.len() - 1 {
            assert(cs[i].id == r[i].id);
        } else if i == cs.len() - 1 {
            assert(cs[cs.len() - 1].id == r[i].id);
        }
    }
}

/// No mutation hands out an identifier below the counter: every chunk after
/// it was there before, by identifier, or is new with a fresh identifier.
pub proof fn law_fresh_ids(v: LinkedChunkView, m: Mutation)
    requires
        v.wf(),
    ensures
        issues_fresh_ids(v, apply_mutation(v, m)),
{
    let cs = v.chunks;
    let next = v.next_id;
    match m {
        Mutation::PushItems(es) => {
            lemma_fresh_push_all(cs, es, v.capacity, next);
        },
        Mutation::PushGap(g) => {
            if v.push_gap_back_result() is Ok {
                let r = cs.push(gap_chunk(next, g));
                assert forall|i: int| 0 <= i < r.len() implies (#[trigger] r[i]).id >= next || exists|j: int|
                    0 <= j < cs.len() && cs[j].id == r[i].id by {
                    if i < cs.len() {
                        assert(cs[i].id == r[i].id);
                    }
                }
            } else {
                lemma_fresh_remove(cs.push(cs[0]), cs.len() as int, next);
                assert(cs.push(cs[0]).remove(cs.len() as int) =~= cs);
            }
        },
        Mutation::InsertItems(es, pos) => {
            if v.insert_items_at_result(pos) is Ok {
                let ci = v.index_of(pos.chunk_identifier).unwrap();
                let c = cs[ci];
                let s = items_of(c);
                let idx = pos.index as int;
                let head = seq![items_chunk(c.id, s.take(idx))];
                assert(chunks_wf(head, v.capacity, next));
                lemma_push_all(head, es + s.skip(idx), v.capacity, next);
                let mid = push_all(head, es + s.skip(idx), v.capacity, next).0;
                assert forall|j: int| 0 <= j < mid.len() implies #[trigger] mid[j].id == cs[ci].id || mid[j].id >= next by {
                    if j >= 1 {
                        assert(mid[j].id >= next);
                    }
                }
                lemma_fresh_splice(cs, ci, mid, next);
            } else {
                lemma_fresh_remove(cs.push(cs[0]), cs.len() as int, next);
                assert(cs.push(cs[0]).remove(cs.len() as int) =~= cs);
            }
        },
        Mutation::InsertGap(g, pos) => {
            if v.insert_gap_at_result(pos) is Ok {
                let ci = v.index_of(pos.chunk_identifier).unwrap();
                let c = cs[ci];
                let s = items_of(c);
                let idx = pos.index as int;
                if idx == 0 {
                    let mid = seq![gap_chunk(next, g), c];
                    assert(cs.take(ci) + seq![gap_chunk(next, g)] + cs.skip(ci) =~= cs.take(ci) + mid + cs.skip(ci + 1));
                    lemma_fresh_splice(cs, ci, mid, next);
                } else {
                    let mid = seq![items_chunk(c.id, s.take(idx)), gap_chunk(next, g), items_chunk(next + 1, s.skip(idx))];
                    lemma_fresh_splice(cs, ci, mid, next);
                }
            } else {
                lemma_fresh_remove(cs.push(cs[0]), cs.len() as int, next);
                assert(cs.push(cs[0]).remove(cs.len() as int) =~= cs);
            }
        },
        Mutation::RemoveGap(id) => {
            if v.gap_error(id) is None {
                lemma_fresh_remove(cs, v.index_of(id).unwrap(), next);
            } else {
                lemma_fresh_remove(cs.push(cs[0]), cs.len() as int, next);
                assert(cs.push(cs[0]).remove(cs.len() as int) =~= cs);
            }
        },
        Mutation::ReplaceGap(es, id) => {
            if es.len() == 0 {
                if v.gap_error(id) is None {
                    lemma_fresh_remove(cs, v.index_of(id).unwrap(), next);
                } else {
                    lemma_fresh_remove(cs.push(cs[0]), cs.len() as int, next);
                    assert(cs.push(cs[0]).remove(cs.len() as int) =~= cs);
                }
            } else if v.gap_error(id) is None {
                let ci = v.index_of(id).unwrap();
                lemma_push_all(Seq::empty(), es, v.capacity, next);
                let mid = push_all(Seq::empty(), es, v.capacity, next).0;
                assert forall|j: int| 0 <= j < mid.len() implies #[trigger] mid[j].id == cs[ci].id || mid[j].id >= next by {}
                lemma_fresh_splice(cs, ci, mid, next);
            } else {
                lemma_fresh_remove(cs.push(cs[0]), cs.len() as int, next);
                assert(cs.push(cs[0]).remove(cs.len() as int) =~= cs);
            }
        },
        Mutation::ReplaceItem(pos, e) => {
            if v.replace_item_at_result(pos) is Ok {
                let ci = v.index_of(pos.chunk_identifier).unwrap();
                let c = cs[ci];
                lemma_fresh_update(cs, ci, items_chunk(c.id, items_of(c).update(pos.index as int, e)), next);
            } else {
                lemma_fresh_remove(cs.push(cs[0]), cs.len() as int, next);
                assert(cs.push(cs[0]).remove(cs.len() as int) =~= cs);
            }
        },
        Mutation::RemoveItem(pos, policy) => {
            if v.remove_item_at_result(pos, policy) is Ok {
                let ci = v.index_of(pos.chunk_identifier).unwrap();
                let c = cs[ci];
                if v.drops_chunk(pos, policy) {
                    lemma_fresh_remove(cs, ci, next);
                } else {
                    lemma_fresh_update(cs, ci, items_chunk(c.id, items_of(c).remove(pos.index as int)), next);
                }
            } else {
                lemma_fresh_remove(cs.push(cs[0]), cs.len() as int, next);
                assert(cs.push(cs[0]).remove(cs.len() as int) =~= cs);
            }
        },
        Mutation::Clear => {},
        Mutation::Drain => {
            lemma_fresh_remove(cs.push(cs[0]), cs.len() as int, next);
            assert(cs.push(cs[0]).remove(cs.len() as int) =~= cs);
        },
    }
}

proof fn lemma_counter_grows(states: Seq<LinkedChunkView>, a: int, b: int)
    requires
        0 <= a <= b < states.len(),
        forall|t: int| 0 <= t < states.len() - 1 ==> issues_fresh_ids(#[trigger] states[t], states[t + 1]),
    ensures
        states[a].next_id <= states[b].next_id,
    decreases b - a,
{
    if a < b {
        lemma_counter_grows(states, a, b - 1);
        assert(issues_fresh_ids(states[b - 1], states[b]));
    }
}

/// Over a run of states, each well formed and each reached from the one
/// before by issuing fresh identifiers only (as every mutation does), an
/// identifier that has left never comes back: identifiers are never reused.
pub proof fn law_ids_never_reused(states: Seq<LinkedChunkView>, id: nat, i: int, j: int, k: int)
    requires
        forall|t: int| 0 <= t < states.len() ==> (#[trigger] states[t]).wf(),
        forall|t: int| 0 <= t < states.len() - 1 ==> issues_fresh_ids(#[trigger] states[t], states[t + 1]),
        0 <= i < j <= k < states.len(),
        holds_chunk(states[i], id),
        !holds_chunk(states[j], id),
    ensures
        !holds_chunk(states[k], id),
    decreases k - j,
{
    if k > j {
        law_ids_never_reused(states, id, i, j, k - 1);
        if holds_chunk(states[k], id) {
            let c = choose|c: int| 0 <= c < states[k].chunks.len() && states[k].chunks[c].id == id;
            assert(issues_fresh_ids(states[k - 1], states[k]));
            let ci = choose|c: int| 0 <= c < states[i].chunks.len() && states[i].chunks[c].id == id;
            assert(states[i].wf());
            assert(states[i].chunks[ci].id < states[i].next_id);
            lemma_counter_grows(states, i, k - 1);
            assert(fresh_chunks(states[k - 1].chunks, states[k - 1].next_id, states[k].chunks));
            assert(states[k].chunks[c].id >= states[k - 1].next_id || holds_chunk(states[k - 1], id));
        }
    }
}

/// `a / c`, rounded up.
pub open spec fn ceil_div(a: nat, c: nat) -> int {
    (a + c - 1) / (c as int)
}

/// How many items the last chunk holds when it is an items-chunk.
pub open spec fn last_fill(cs: Seq<ChunkView>) -> nat {
    if cs.len() > 0 && is_items(cs.last()) {
        items_of(cs.last()).len()
    } else {
        0
    }
}

proof fn lemma_ceil_step(t: nat, c: nat)
    requires
        c > 0,
        t >= 1,
    ensures
        t % c != 0 ==> ceil_div(t + 1, c) == ceil_div(t, c) && t % c == ((t - 1) as nat) % c + 1,
        t % c == 0 ==> ceil_div(t + 1, c) == ceil_div(t, c) + 1,
        (((t - 1) as nat) % c + 1 < c) == (t % c != 0),
{
    let ci = c as int;
    let ti = t as int;
    lemma_fundamental_div_mod(ti - 1, ci);
    let q = (ti - 1) / ci;
    let r = (ti - 1) % ci;
    assert(ti - 1 == ci * q + r);
    assert(0 <= r < ci);
    assert(ci * q == q * ci) by (nonlinear_arith);
    assert((q + 1) * ci == q * ci + ci) by (nonlinear_arith);
    assert((q + 2) * ci == q * ci + 2 * ci) by (nonlinear_arith);
    if r + 1 < ci {
        lemma_fundamental_div_mod_converse(ti, ci, q, r + 1);
        lemma_fundamental_div_mod_converse(ti + ci - 1, ci, q + 1, r);
        lemma_fundamental_div_mod_converse(ti + ci, ci, q + 1, r + 1);
    } else {
        lemma_fundamental_div_mod_converse(ti, ci, q + 1, 0);
        lemma_fundamental_div_mod_converse(ti + ci - 1, ci, q + 1, r);
        lemma_fundamental_div_mod_converse(ti + ci, ci, q + 2, 0);
    }
    assert(ceil_div(t, c) == (ti + ci - 1) / ci);
    assert(ceil_div(t + 1, c) == (ti + ci) / ci);
}

proof fn lemma_push_count(cs: Seq<ChunkView>, es: Seq<Event>, cap: nat, next: nat)
    requires
        cap > 0,
        within_capacity(cs, cap),
        last_fill(cs) > 0 || cs.len() == 0 || !is_items(cs.last()),
    ensures
        ({
            let r = push_all(cs, es, cap, next).0;
            let t = last_fill(cs) + es.len();
            &&& r.len() - cs.len() == ceil_div(t, cap) - ceil_div(last_fill(cs), cap)
            &&& cs.len() <= r.len()
            &&& t >= 1 ==> r.len() >= 1 && is_items(r.last()) && items_of(r.last()).len() == ((t - 1) as nat) % cap + 1
        }),
    decreases es.len(),
{
    let l = last_fill(cs);
    let ci = cap as int;
    if es.len() == 0 {
        if l > 0 {
            assert(items_of(cs[cs.len() - 1]).len() <= cap);
            lemma_fundamental_div_mod_converse(l - 1, ci, 0, l - 1);
        }
    } else {
        let e2 = es.drop_last();
        lemma_push_count(cs, e2, cap, next);
        let (r2, n2) = push_all(cs, e2, cap, next);
        let t2 = l + e2.len();
        if t2 >= 1 {
            lemma_ceil_step(t2, cap);
        } else {
            assert(r2 == cs);
            lemma_fundamental_div_mod_converse(ci - 1, ci, 0, ci - 1);
            lemma_fundamental_div_mod_converse(ci, ci, 1, 0);
            lemma_fundamental_div_mod_converse(0, ci, 0, 0);
            assert(ceil_div(0, cap) == 0);
            assert(ceil_div(1, cap) == 1);
        }
    }
}

/// Pushing `n` items after a last chunk that holds `len` items (none for a
/// gap, or when there is no chunk) creates exactly
/// `ceil((len + n) / C) - ceil(len / C)` new items-chunks. An empty last
/// items-chunk is left out: it takes the first items itself.
pub proof fn law_overflow_chunk_count(v: LinkedChunkView, es: Seq<Event>)
    requires
        v.wf(),
        last_fill(v.chunks) > 0 || v.chunks.len() == 0 || !is_items(v.chunks.last()),
    ensures
        v.push_items_back(es).chunks.len() - v.chunks.len() == ceil_div(last_fill(v.chunks) + es.len(), v.capacity)
            - ceil_div(last_fill(v.chunks), v.capacity),
{
    lemma_push_count(v.chunks, es, v.capacity, v.next_id);
}

/// Whether `m` stays within the machine's limits on `v`.
pub open spec fn admissible(v: LinkedChunkView, m: Mutation) -> bool {
    match m {
        Mutation::PushItems(es) => es.len() == 0 || v.can_grow(es.len()),
        Mutation::InsertItems(es, _) => v.can_grow(es.len()),
        Mutation::ReplaceGap(es, _) => v.can_grow(es.len()),
        Mutation::PushGap(_) => v.ids_left(1),
        Mutation::InsertGap(_, _) => v.ids_left(2),
        Mutation::Clear => v.ids_left(1),
        _ => true,
    }
}

/// The state after the mutations, in order.
pub open spec fn run(v: LinkedChunkView, ms: Seq<Mutation>) -> LinkedChunkView
    decreases ms.len(),
{
    if ms.len() == 0 {
        v
    } else {
        apply_mutation(run(v, ms.drop_last()), ms.last())
    }
}

/// Every diff that the drains among the mutations handed out, in order.
pub open spec fn drained(v: LinkedChunkView, ms: Seq<Mutation>) -> Seq<DiffView>
    decreases ms.len(),
{
    if ms.len() == 0 {
        Seq::empty()
    } else if ms.last() is Drain {
        drained(v, ms.drop_last()) + run(v, ms.drop_last()).pending
    } else {
        drained(v, ms.drop_last())
    }
}

pub open spec fn run_admissible(v: LinkedChunkView, ms: Seq<Mutation>) -> bool {
    forall|i: int| 0 <= i < ms.len() ==> admissible(run(v, ms.take(i)), #[trigger] ms[i])
}

/// Every mutation keeps the invariant, and only a drain moves what the
/// observer saw: to the current items.
pub proof fn law_mutation_keeps_invariant(v: LinkedChunkView, m: Mutation)
    requires
        v.wf(),
        admissible(v, m),
    ensures
        apply_mutation(v, m).wf(),
        apply_mutation(v, m).observed == if m is Drain {
            v.items()
        } else {
            v.observed
        },
{
    match m {
        Mutation::PushItems(es) => lemma_push_items_back_wf(v, es),
        Mutation::PushGap(g) => lemma_push_gap_back_wf(v, g),
        Mutation::InsertItems(es, pos) => lemma_insert_items_at_wf(v, es, pos),
        Mutation::InsertGap(g, pos) => lemma_insert_gap_at_wf(v, g, pos),
        Mutation::RemoveGap(id) => lemma_remove_gap_at_wf(v, id),
        Mutation::ReplaceGap(es, id) => lemma_replace_gap_at_wf(v, es, id),
        Mutation::ReplaceItem(pos, e) => lemma_replace_item_at_wf(v, pos, e),
        Mutation::RemoveItem(pos, policy) => lemma_remove_item_at_wf(v, pos, policy),
        Mutation::Clear => lemma_clear_wf(v),
        Mutation::Drain => lemma_drain_wf(v),
    }
}

proof fn lemma_run(v: LinkedChunkView, ms: Seq<Mutation>)
    requires
        v.wf(),
        v.observed.len() == 0,
        run_admissible(v, ms),
    ensures
        run(v, ms).wf(),
        run(v, ms).observed == apply_diffs(Seq::empty(), drained(v, ms)),
    decreases ms.len(),
{
    if ms.len() == 0 {
        assert(v.observed =~= Seq::<Event>::empty());
    } else {
        let prefix = ms.drop_last();
        assert forall|i: int| 0 <= i < prefix.len() implies admissible(run(v, prefix.take(i)), #[trigger] prefix[i]) by {
            assert(prefix.take(i) =~= ms.take(i));
            assert(admissible(run(v, ms.take(i)), ms[i]));
        }
        lemma_run(v, prefix);
        assert(ms.take(ms.len() - 1) =~= prefix);
        assert(admissible(run(v, ms.take(ms.len() - 1)), ms[ms.len() - 1]));
        law_mutation_keeps_invariant(run(v, prefix), ms.last());
        if ms.last() is Drain {
            lemma_apply_diffs_concat(Seq::empty(), drained(v, prefix), run(v, prefix).pending);
        }
    }
}

/// For any sequence of mutations applied to an empty container, replaying
/// every diff handed out, then those not drained yet, over an empty vector
/// yields the items; along the way no two neighbouring chunks are both gaps
/// and no items-chunk holds more than the capacity.
pub proof fn law_replay_after_mutations(capacity: nat, ms: Seq<Mutation>)
    requires
        0 < capacity <= usize::MAX,
        run_admissible(LinkedChunkView::empty(capacity), ms),
    ensures
        ({
            let w = run(LinkedChunkView::empty(capacity), ms);
            &&& w.wf()
            &&& apply_diffs(Seq::empty(), drained(LinkedChunkView::empty(capacity), ms) + w.pending) == w.items()
            &&& no_adjacent_gaps(w.chunks)
            &&& within_capacity(w.chunks, capacity)
        }),
{
    let e = LinkedChunkView::empty(capacity);
    lemma_flatten_one(e.chunks[0]);
    assert(e.chunks.drop_last() =~= Seq::<ChunkView>::empty());
    lemma_run(e, ms);
    let w = run(e, ms);
    lemma_apply_diffs_concat(Seq::empty(), drained(e, ms), w.pending);
    lemma_capacity_kept(e, ms);
}

proof fn lemma_capacity_kept(v: LinkedChunkView, ms: Seq<Mutation>)
    ensures
        run(v, ms).capacity == v.capacity,
    decreases ms.len(),
{
    if ms.len() > 0 {
        lemma_capacity_kept(v, ms.drop_last());
    }
}

} // verus!
