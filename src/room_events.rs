use vstd::prelude::*;

use crate::event::{has_id, str_eq, ChunkIdentifier, EmptyChunk, Event, Gap, LinkedChunkError, Position};
use crate::json::{json_lookup, lookup};
use crate::linked_chunk::{chunk_views, Chunk, ChunkContent, LinkedChunk, VectorDiff};
use crate::laws::{issues_fresh_ids, law_fresh_ids, Mutation};
use crate::text::{chunk_debug_line, chunk_line};
use crate::model::{chunk_index, item_at, items_of, lemma_chunk_index, position_at, ChunkView, LinkedChunkView};

verus! {

/// How many events an items-chunk of a room holds at most.
pub const DEFAULT_CHUNK_CAPACITY: usize = 128;

/// Whether (`cj`, `kj`) comes after (`ci`, `k`) in chain order.
pub open spec fn later(ci: int, k: int, cj: int, kj: int) -> bool {
    cj > ci || (cj == ci && kj > k)
}

/// Whether item `k` of chunk `ci` exists and carries identifier `id`.
pub open spec fn holds_id(cs: Seq<ChunkView>, id: Seq<char>, ci: int, k: int) -> bool {
    &&& 0 <= ci < cs.len()
    &&& 0 <= k < items_of(cs[ci]).len()
    &&& has_id(items_of(cs[ci])[k], id)
}

/// Whether item `k` of chunk `ci` is the newest one with identifier `id`.
pub open spec fn is_last_with_id(cs: Seq<ChunkView>, id: Seq<char>, ci: int, k: int) -> bool {
    &&& holds_id(cs, id, ci, k)
    &&& forall|cj: int, kj: int| #[trigger] holds_id(cs, id, cj, kj) ==> !later(ci, k, cj, kj)
}

/// The chunk index and offset of the newest item with identifier `id`.
pub open spec fn last_with_id(cs: Seq<ChunkView>, id: Seq<char>) -> Option<(int, int)> {
    if exists|ci: int, k: int| is_last_with_id(cs, id, ci, k) {
        Some(choose|ci: int, k: int| is_last_with_id(cs, id, ci, k))
    } else {
        None
    }
}

/// The position of the newest item with identifier `id`.
pub open spec fn last_position_of(cs: Seq<ChunkView>, id: Seq<char>) -> Option<Position> {
    match last_with_id(cs, id) {
        Some((ci, k)) => Some(position_at(cs[ci].id, k as nat)),
        None => None,
    }
}

pub proof fn lemma_last_unique(cs: Seq<ChunkView>, id: Seq<char>, ci: int, k: int)
    requires
        is_last_with_id(cs, id, ci, k),
    ensures
        last_with_id(cs, id) == Some((ci, k)),
{
    let (a, b) = choose|a: int, b: int| is_last_with_id(cs, id, a, b);
    assert(holds_id(cs, id, a, b));
    assert(holds_id(cs, id, ci, k));
}

/// Removing the newest item with identifier `id`, if any; where the policy
/// is refused, the emptied chunk is kept.
pub open spec fn remove_one(v: LinkedChunkView, id: Seq<char>, policy: EmptyChunk) -> LinkedChunkView {
    match last_position_of(v.chunks, id) {
        None => v,
        Some(pos) => if v.remove_item_at_result(pos, policy) is Ok {
            v.remove_item_at(pos, policy)
        } else {
            v.remove_item_at(pos, EmptyChunk::Keep)
        },
    }
}

/// Removing the items of all the identifiers, in order.
pub open spec fn remove_all(v: LinkedChunkView, ids: Seq<Seq<char>>, policy: EmptyChunk) -> LinkedChunkView
    decreases ids.len(),
{
    if ids.len() == 0 {
        v
    } else {
        remove_one(remove_all(v, ids.drop_last(), policy), ids.last(), policy)
    }
}

/// Where `pos` goes when the item at `removed` is taken out: one step left
/// when an item before it in its own chunk went.
pub open spec fn shift_position(pos: Position, removed: Position) -> Position {
    if removed.chunk_identifier == pos.chunk_identifier && removed.index < pos.index {
        Position { chunk_identifier: pos.chunk_identifier, index: (pos.index - 1) as usize }
    } else {
        pos
    }
}

pub open spec fn remove_tracking_one(v: LinkedChunkView, pos: Position, id: Seq<char>) -> (LinkedChunkView, Position) {
    match last_position_of(v.chunks, id) {
        None => (v, pos),
        Some(rp) => (v.remove_item_at(rp, EmptyChunk::Keep), shift_position(pos, rp)),
    }
}

/// Removing the items of all the identifiers, in order, keeping emptied
/// chunks, while `pos` follows its item.
pub open spec fn remove_tracking(v: LinkedChunkView, pos: Position, ids: Seq<Seq<char>>) -> (LinkedChunkView, Position)
    decreases ids.len(),
{
    if ids.len() == 0 {
        (v, pos)
    } else {
        let (w, p) = remove_tracking(v, pos, ids.drop_last());
        remove_tracking_one(w, p, ids.last())
    }
}

pub open spec fn string_views(ids: Seq<String>) -> Seq<Seq<char>> {
    ids.map_values(|s: String| s@)
}

/// Room versions 1 to 10 name the redacted event at the top level of a
/// redaction; later ones in its content.
pub open spec fn uses_top_level_redacts(version: Seq<char>) -> bool {
    ||| version == "1"@
    ||| version == "2"@
    ||| version == "3"@
    ||| version == "4"@
    ||| version == "5"@
    ||| version == "6"@
    ||| version == "7"@
    ||| version == "8"@
    ||| version == "9"@
    ||| version == "10"@
}

/// The identifier of the event that `raw` redacts, when `raw` is a redaction
/// that names one.
pub open spec fn redaction_target(version: Seq<char>, raw: Seq<char>) -> Option<Seq<char>> {
    if json_lookup(raw, "/type"@) != Some(Some("m.room.redaction"@)) {
        None
    } else {
        let at = if uses_top_level_redacts(version) {
            "/redacts"@
        } else {
            "/content/redacts"@
        };
        match json_lookup(raw, at) {
            Some(Some(id)) => Some(id),
            _ => None,
        }
    }
}

/// Whether the event `raw` has been redacted already.
pub open spec fn is_redacted(raw: Seq<char>) -> bool {
    json_lookup(raw, "/unsigned/redacted_because"@) is Some
}

/// The position of the event that the redaction `raw` is to rewrite: a known
/// event, not redacted yet.
pub open spec fn redaction_position(v: LinkedChunkView, version: Seq<char>, raw: Seq<char>) -> Option<Position> {
    match redaction_target(version, raw) {
        None => None,
        Some(id) => match last_position_of(v.chunks, id) {
            None => None,
            Some(pos) => if is_redacted(item_at(v.chunks, pos).unwrap().raw@) {
                None
            } else {
                Some(pos)
            },
        },
    }
}

pub open spec fn with_raw(e: Event, raw: String) -> Event {
    Event { event_id: e.event_id, raw }
}

/// One step of applying the event `event` as a redaction, from `a` to `b`,
/// with `apply_redaction` as the redaction algorithm. Where `event` redacts
/// nothing that `a` holds unredacted, nothing changes. Otherwise the target's
/// raw payload, the redaction's and the room version go to
/// `apply_redaction`: on `None` nothing changes; on `Some(r)` the target
/// takes `r` as its payload in place, with one `SetAt` at its flat index.
pub open spec fn redaction_step<F: Fn(&String, &String, &String) -> Option<String>>(
    a: LinkedChunkView,
    b: LinkedChunkView,
    version: &String,
    event: &Event,
    apply_redaction: F,
) -> bool {
    match redaction_position(a, version@, event.raw@) {
        None => b == a,
        Some(pos) => {
            let target = item_at(a.chunks, pos).unwrap();
            ||| (b == a && apply_redaction.ensures((&target.raw, &event.raw, version), None))
            ||| exists|r: String|
                apply_redaction.ensures((&target.raw, &event.raw, version), Some(r)) && b == a.replace_item_at(
                    pos,
                    with_raw(target, r),
                )
        },
    }
}

/// The states that applying the redactions among `events`, one after the
/// other, goes through: `states[i + 1]` follows `states[i]` by the step of
/// `events[i]`.
pub open spec fn redaction_run<F: Fn(&String, &String, &String) -> Option<String>>(
    states: Seq<LinkedChunkView>,
    version: &String,
    events: Seq<Event>,
    apply_redaction: F,
) -> bool {
    &&& states.len() == events.len() + 1
    &&& forall|i: int|
        0 <= i < events.len() ==> #[trigger] redaction_step(
            states[i],
            states[i + 1],
            version,
            &events[i],
            apply_redaction,
        )
}

/// The same chunks with the same identifiers and the same items by
/// identifier; only payloads may differ.
pub open spec fn same_layout(a: LinkedChunkView, b: LinkedChunkView) -> bool {
    &&& a.capacity == b.capacity
    &&& a.next_id == b.next_id
    &&& a.observed == b.observed
    &&& a.chunks.len() == b.chunks.len()
    &&& forall|i: int| 0 <= i < a.chunks.len() ==> {
        &&& (#[trigger] a.chunks[i]).id == b.chunks[i].id
        &&& a.chunks[i].content is Gap <==> b.chunks[i].content is Gap
        &&& a.chunks[i].content is Gap ==> a.chunks[i] == b.chunks[i]
        &&& items_of(a.chunks[i]).len() == items_of(b.chunks[i]).len()
        &&& forall|k: int| 0 <= k < items_of(a.chunks[i]).len() ==> (#[trigger] items_of(a.chunks[i])[k]).event_id
            == items_of(b.chunks[i])[k].event_id
    }
}

pub proof fn lemma_same_layout_trans(a: LinkedChunkView, b: LinkedChunkView, c: LinkedChunkView)
    requires
        same_layout(a, b),
        same_layout(b, c),
    ensures
        same_layout(a, c),
{
    assert forall|i: int| 0 <= i < a.chunks.len() implies {
        &&& (#[trigger] a.chunks[i]).id == c.chunks[i].id
        &&& a.chunks[i].content is Gap <==> c.chunks[i].content is Gap
        &&& a.chunks[i].content is Gap ==> a.chunks[i] == c.chunks[i]
        &&& items_of(a.chunks[i]).len() == items_of(c.chunks[i]).len()
        &&& forall|k: int| 0 <= k < items_of(a.chunks[i]).len() ==> (#[trigger] items_of(a.chunks[i])[k]).event_id
            == items_of(c.chunks[i])[k].event_id
    } by {
        assert(b.chunks[i].id == a.chunks[i].id);
        assert forall|k: int| 0 <= k < items_of(a.chunks[i]).len() implies (#[trigger] items_of(a.chunks[i])[k]).event_id
            == items_of(c.chunks[i])[k].event_id by {
            assert(items_of(a.chunks[i])[k].event_id == items_of(b.chunks[i])[k].event_id);
            assert(items_of(b.chunks[i])[k].event_id == items_of(c.chunks[i])[k].event_id);
        }
    }
}

/// Two chunk sequences with the same identifiers, place by place, find a
/// chunk at the same index.
pub proof fn lemma_chunk_index_same_ids(a: Seq<ChunkView>, b: Seq<ChunkView>, id: nat)
    requires
        crate::model::ids_distinct(a),
        a.len() == b.len(),
        forall|i: int| 0 <= i < a.len() ==> (#[trigger] a[i]).id == b[i].id,
    ensures
        chunk_index(a, id) == chunk_index(b, id),
        crate::model::ids_distinct(b),
{
    assert forall|i: int, j: int| 0 <= i < b.len() && 0 <= j < b.len() && i != j implies #[trigger] b[i].id
        != #[trigger] b[j].id by {
        assert(a[i].id != a[j].id);
    }
    if exists|i: int| 0 <= i < a.len() && a[i].id == id {
        let i = choose|i: int| 0 <= i < a.len() && a[i].id == id;
        lemma_chunk_index(a, i);
        lemma_chunk_index(b, i);
    } else {
        assert forall|i: int| 0 <= i < b.len() implies b[i].id != id by {
            assert(a[i].id == b[i].id);
        }
    }
}

/// Overwriting an item by one with the same identifier keeps the layout.
pub proof fn lemma_replace_same_layout(v: LinkedChunkView, pos: Position, e: Event)
    requires
        v.wf(),
        item_at(v.chunks, pos) is Some,
        item_at(v.chunks, pos).unwrap().event_id == e.event_id,
    ensures
        v.replace_item_at_result(pos) is Ok,
        same_layout(v, v.replace_item_at(pos, e)),
{
    let ci = v.index_of(pos.chunk_identifier).unwrap();
    let w = v.replace_item_at(pos, e);
    assert forall|i: int| 0 <= i < v.chunks.len() implies {
        &&& (#[trigger] v.chunks[i]).id == w.chunks[i].id
        &&& v.chunks[i].content is Gap <==> w.chunks[i].content is Gap
        &&& v.chunks[i].content is Gap ==> v.chunks[i] == w.chunks[i]
        &&& items_of(v.chunks[i]).len() == items_of(w.chunks[i]).len()
        &&& forall|k: int| 0 <= k < items_of(v.chunks[i]).len() ==> (#[trigger] items_of(v.chunks[i])[k]).event_id
            == items_of(w.chunks[i])[k].event_id
    } by {
        if i == ci {
            assert forall|k: int| 0 <= k < items_of(v.chunks[i]).len() implies (#[trigger] items_of(v.chunks[i])[k]).event_id
                == items_of(w.chunks[i])[k].event_id by {
                if k == pos.index {
                } else {
                }
            }
        }
    }
}

/// Items that carry the same identifiers at the same places have the same
/// newest item of each identifier.
pub proof fn lemma_last_with_id_same_layout(a: LinkedChunkView, b: LinkedChunkView, id: Seq<char>)
    requires
        same_layout(a, b),
    ensures
        last_with_id(a.chunks, id) == last_with_id(b.chunks, id),
        last_position_of(a.chunks, id) == last_position_of(b.chunks, id),
{
    assert forall|ci: int, k: int| holds_id(a.chunks, id, ci, k) == holds_id(b.chunks, id, ci, k) by {
        if 0 <= ci < a.chunks.len() && 0 <= k < items_of(a.chunks[ci]).len() {
            assert(items_of(a.chunks[ci])[k].event_id == items_of(b.chunks[ci])[k].event_id);
        }
    }
    if exists|ci: int, k: int| is_last_with_id(a.chunks, id, ci, k) {
        let (ci, k) = choose|ci: int, k: int| is_last_with_id(a.chunks, id, ci, k);
        assert forall|cj: int, kj: int| #[trigger] holds_id(b.chunks, id, cj, kj) implies !later(ci, k, cj, kj) by {
            assert(holds_id(a.chunks, id, cj, kj));
        }
        lemma_last_unique(a.chunks, id, ci, k);
        lemma_last_unique(b.chunks, id, ci, k);
    } else if exists|ci: int, k: int| is_last_with_id(b.chunks, id, ci, k) {
        let (ci, k) = choose|ci: int, k: int| is_last_with_id(b.chunks, id, ci, k);
        assert forall|cj: int, kj: int| #[trigger] holds_id(a.chunks, id, cj, kj) implies !later(ci, k, cj, kj) by {
            assert(holds_id(b.chunks, id, cj, kj));
        }
        assert(is_last_with_id(a.chunks, id, ci, k));
    }
}

fn uses_top_level_redacts_exec(version: &str) -> (r: bool)
    ensures
        r == uses_top_level_redacts(version@),
{
    str_eq(version, "1") || str_eq(version, "2") || str_eq(version, "3") || str_eq(version, "4") || str_eq(version, "5")
        || str_eq(version, "6") || str_eq(version, "7") || str_eq(version, "8") || str_eq(version, "9") || str_eq(
        version,
        "10",
    )
}

pub open spec fn opt_string_view(r: Option<String>) -> Option<Seq<char>> {
    match r {
        Some(s) => Some(s@),
        None => None,
    }
}

/// The identifier of the event that the event `raw` redacts, when it is a
/// redaction that names one under the rules of `room_version`.
pub fn redaction_target_of(room_version: &str, raw: &str) -> (r: Option<String>)
    ensures
        opt_string_view(r) == redaction_target(room_version@, raw@),
{
    match lookup(raw, "/type") {
        Some(Some(t)) => {
            if !str_eq(t.as_str(), "m.room.redaction") {
                return None;
            }
        },
        _ => {
            return None;
        },
    }
    let at = if uses_top_level_redacts_exec(room_version) {
        "/redacts"
    } else {
        "/content/redacts"
    };
    match lookup(raw, at) {
        Some(Some(id)) => Some(id),
        _ => None,
    }
}

/// Whether the event `raw` says that it has been redacted.
pub fn is_redacted_event(raw: &str) -> (r: bool)
    ensures
        r == is_redacted(raw@),
{
    lookup(raw, "/unsigned/redacted_because").is_some()
}

/// All events of one room, in chunks, with the diffs that mirror them.
pub struct RoomEvents {
    chunks: LinkedChunk,
}

impl View for RoomEvents {
    type V = LinkedChunkView;

    closed spec fn view(&self) -> LinkedChunkView {
        self.chunks@
    }
}

impl Default for RoomEvents {
    fn default() -> (r: Self)
        ensures
            r@.wf(),
            r@ == LinkedChunkView::empty(DEFAULT_CHUNK_CAPACITY as nat),
    {
        RoomEvents::new()
    }
}

impl RoomEvents {
    /// An empty room: one empty items-chunk, with identifier 0.
    pub fn new() -> (r: Self)
        ensures
            r@.wf(),
            r@ == LinkedChunkView::empty(DEFAULT_CHUNK_CAPACITY as nat),
    {
        RoomEvents { chunks: LinkedChunk::new(DEFAULT_CHUNK_CAPACITY) }
    }

    /// A room over chunks known from before, or an empty one.
    pub fn with_initial_chunks(chunks: Option<LinkedChunk>) -> (r: Self)
        requires
            chunks matches Some(c) ==> c@.wf() && c@.capacity == DEFAULT_CHUNK_CAPACITY,
        ensures
            r@.wf(),
            r@.capacity == DEFAULT_CHUNK_CAPACITY,
            match chunks {
                Some(c) => r@ == c@,
                None => r@ == LinkedChunkView::empty(DEFAULT_CHUNK_CAPACITY as nat),
            },
    {
        match chunks {
            Some(c) => RoomEvents { chunks: c },
            None => RoomEvents::new(),
        }
    }

    /// Whether the room holds no event.
    pub fn is_empty(&self) -> (r: bool)
        requires
            self@.wf(),
        ensures
            r == (self@.items().len() == 0),
    {
        self.chunks.num_items() == 0
    }

    /// Drops all events and gaps.
    pub fn reset(&mut self)
        requires
            old(self)@.wf(),
            old(self)@.ids_left(1),
        ensures
            final(self)@.wf(),
            final(self)@ == old(self)@.clear(),
            issues_fresh_ids(old(self)@, final(self)@),
    {
        let ghost v0 = self@;
        self.chunks.clear();
        proof {
            law_fresh_ids(v0, Mutation::Clear);
        }
    }

    /// Pushes events after all events and gaps; the last one is the newest.
    pub fn push_events(&mut self, events: Vec<Event>)
        requires
            old(self)@.wf(),
            events@.len() == 0 || old(self)@.can_grow(events@.len()),
        ensures
            final(self)@.wf(),
            final(self)@ == old(self)@.push_items_back(events@),
            issues_fresh_ids(old(self)@, final(self)@),
    {
        let ghost v0 = self@;
        let ghost es = events@;
        self.chunks.push_items_back(events);
        proof {
            law_fresh_ids(v0, Mutation::PushItems(es));
        }
    }

    /// Pushes a gap after all events and gaps; refused right after a gap.
    pub fn push_gap(&mut self, gap: Gap) -> (r: Result<(), LinkedChunkError>)
        requires
            old(self)@.wf(),
            old(self)@.ids_left(1),
        ensures
            final(self)@.wf(),
            r == old(self)@.push_gap_back_result(),
            final(self)@ == old(self)@.push_gap_back(gap),
            issues_fresh_ids(old(self)@, final(self)@),
    {
        let ghost v0 = self@;
        let ghost g = gap;
        let r = self.chunks.push_gap_back(gap);
        proof {
            law_fresh_ids(v0, Mutation::PushGap(g));
        }
        r
    }

    /// Inserts events right before `position`.
    pub fn insert_events_at(&mut self, events: Vec<Event>, position: Position) -> (r: Result<(), LinkedChunkError>)
        requires
            old(self)@.wf(),
            old(self)@.can_grow(events@.len()),
        ensures
            final(self)@.wf(),
            r == old(self)@.insert_items_at_result(position),
            final(self)@ == old(self)@.insert_items_at(events@, position),
            issues_fresh_ids(old(self)@, final(self)@),
    {
        let ghost v0 = self@;
        let ghost es = events@;
        let r = self.chunks.insert_items_at(events, position);
        proof {
            law_fresh_ids(v0, Mutation::InsertItems(es, position));
        }
        r
    }

    /// Inserts a gap at `position`.
    pub fn insert_gap_at(&mut self, gap: Gap, position: Position) -> (r: Result<(), LinkedChunkError>)
        requires
            old(self)@.wf(),
            old(self)@.ids_left(2),
        ensures
            final(self)@.wf(),
            r == old(self)@.insert_gap_at_result(position),
            final(self)@ == old(self)@.insert_gap_at(gap, position),
            issues_fresh_ids(old(self)@, final(self)@),
    {
        let ghost v0 = self@;
        let ghost g = gap;
        let r = self.chunks.insert_gap_at(gap, position);
        proof {
            law_fresh_ids(v0, Mutation::InsertGap(g, position));
        }
        r
    }

    /// Removes a gap; gives the first position of the chunk after it.
    pub fn remove_gap_at(&mut self, gap: ChunkIdentifier) -> (r: Result<Option<Position>, LinkedChunkError>)
        requires
            old(self)@.wf(),
        ensures
            final(self)@.wf(),
            r == old(self)@.remove_gap_at_result(gap),
            final(self)@ == old(self)@.remove_gap_at(gap),
            issues_fresh_ids(old(self)@, final(self)@),
    {
        let ghost v0 = self@;
        let r = self.chunks.remove_gap_at(gap);
        proof {
            law_fresh_ids(v0, Mutation::RemoveGap(gap));
        }
        r
    }

    /// Replaces a gap by events; gives the first position of the new events,
    /// or, with no events, the first position after the removed gap.
    pub fn replace_gap_at(&mut self, events: Vec<Event>, gap_identifier: ChunkIdentifier) -> (r: Result<
        Option<Position>,
        LinkedChunkError,
    >)
        requires
            old(self)@.wf(),
            old(self)@.can_grow(events@.len()),
        ensures
            final(self)@.wf(),
            r == old(self)@.replace_gap_at_result(events@, gap_identifier),
            final(self)@ == old(self)@.replace_gap_at(events@, gap_identifier),
            issues_fresh_ids(old(self)@, final(self)@),
    {
        let ghost v0 = self@;
        let ghost es = events@;
        let r = self.chunks.replace_gap_at(events, gap_identifier);
        proof {
            law_fresh_ids(v0, Mutation::ReplaceGap(es, gap_identifier));
        }
        r
    }

    /// The chunk index and offset of the newest event with identifier `id`.
    fn find_last(&self, id: &String) -> (r: Option<(usize, usize)>)
        requires
            self@.wf(),
        ensures
            match r {
                Some((ci, k)) => last_with_id(self@.chunks, id@) == Some((ci as int, k as int)) && ci
                    < self@.chunks.len(),
                None => last_with_id(self@.chunks, id@) is None,
            },
    {
        let chunks = self.chunks.chunks();
        let ghost cs = self@.chunks;
        let mut ci = chunks.len();
        while ci > 0
            invariant
                cs == chunk_views(chunks@),
                cs == self@.chunks,
                ci <= cs.len(),
                forall|cj: int, kj: int| cj >= ci ==> !#[trigger] holds_id(cs, id@, cj, kj),
            decreases ci,
        {
            let c = &chunks[ci - 1];
            assert(cs[ci - 1] == c@);
            match &c.content {
                ChunkContent::Items(v) => {
                    let mut k = v.len();
                    while k > 0
                        invariant
                            cs == chunk_views(chunks@),
                            cs == self@.chunks,
                            0 < ci <= cs.len(),
                            items_of(cs[ci - 1]) == v@,
                            k <= v@.len(),
                            forall|cj: int, kj: int| (cj >= ci || (cj == ci - 1 && kj >= k)) ==> !#[trigger] holds_id(cs, id@, cj, kj),
                        decreases k,
                    {
                        if v[k - 1].has_event_id(id) {
                            proof {
                                assert(holds_id(cs, id@, ci - 1, k - 1));
                                assert forall|cj: int, kj: int| #[trigger] holds_id(cs, id@, cj, kj) implies !later(
                                    ci - 1,
                                    k - 1,
                                    cj,
                                    kj,
                                ) by {
                                    if later(ci - 1, k - 1, cj, kj) {
                                        assert(cj >= ci || (cj == ci - 1 && kj >= k));
                                    }
                                }
                                assert(is_last_with_id(cs, id@, ci - 1, k - 1));
                                lemma_last_unique(cs, id@, ci - 1, k - 1);
                            }
                            return Some((ci - 1, k - 1));
                        }
                        k = k - 1;
                    }
                },
                ChunkContent::Gap(_) => {},
            }
            ci = ci - 1;
        }
        proof {
            if exists|a: int, b: int| is_last_with_id(cs, id@, a, b) {
                let (a, b) = choose|a: int, b: int| is_last_with_id(cs, id@, a, b);
                assert(holds_id(cs, id@, a, b));
            }
        }
        None
    }

    /// The position of the newest event with identifier `id`.
    fn find_last_position(&self, id: &String) -> (r: Option<Position>)
        requires
            self@.wf(),
        ensures
            r == last_position_of(self@.chunks, id@),
            r matches Some(pos) ==> item_at(self@.chunks, pos) is Some,
    {
        match self.find_last(id) {
            None => None,
            Some((ci, k)) => {
                let c = &self.chunks.chunks()[ci];
                proof {
                    lemma_chunk_index(self@.chunks, ci as int);
                    assert(self@.chunks[ci as int] == c@);
                }
                Some(Position::new(c.identifier, k))
            },
        }
    }

    /// Removes the newest event of each identifier, in order; an emptied
    /// items-chunk goes where that is allowed. Unknown identifiers are
    /// skipped.
    pub fn remove_events_by_id(&mut self, event_ids: Vec<String>)
        requires
            old(self)@.wf(),
        ensures
            final(self)@.wf(),
            final(self)@ == remove_all(old(self)@, string_views(event_ids@), EmptyChunk::Remove),
    {
        let ghost v0 = self@;
        let ghost ids = string_views(event_ids@);
        let mut i: usize = 0;
        while i < event_ids.len()
            invariant
                self@.wf(),
                ids == string_views(event_ids@),
                i <= event_ids@.len(),
                self@ == remove_all(v0, ids.take(i as int), EmptyChunk::Remove),
            decreases event_ids@.len() - i,
        {
            proof {
                assert(ids.take(i + 1).drop_last() =~= ids.take(i as int));
            }
            let id = &event_ids[i];
            match self.find_last_position(id) {
                None => {},
                Some(pos) => {
                    match self.chunks.remove_item_at(pos, EmptyChunk::Remove) {
                        Ok(_) => {},
                        Err(_) => {
                            let _ = self.chunks.remove_item_at(pos, EmptyChunk::Keep);
                        },
                    }
                },
            }
            i = i + 1;
        }
        assert(ids.take(i as int) =~= ids);
    }

    /// Removes the newest event of each identifier, in order, keeping
    /// emptied chunks, and moves `position` so that it stays on its item.
    pub fn remove_events_and_update_insert_position(&mut self, event_ids: Vec<String>, position: &mut Position)
        requires
            old(self)@.wf(),
        ensures
            final(self)@.wf(),
            (final(self)@, *final(position)) == remove_tracking(old(self)@, *old(position), string_views(event_ids@)),
    {
        let ghost v0 = self@;
        let ghost start = *position;
        let ghost ids = string_views(event_ids@);
        let mut i: usize = 0;
        while i < event_ids.len()
            invariant
                self@.wf(),
                ids == string_views(event_ids@),
                i <= event_ids@.len(),
                (self@, *position) == remove_tracking(v0, start, ids.take(i as int)),
            decreases event_ids@.len() - i,
        {
            proof {
                assert(ids.take(i + 1).drop_last() =~= ids.take(i as int));
            }
            let id = &event_ids[i];
            match self.find_last_position(id) {
                None => {},
                Some(pos) => {
                    let _ = self.chunks.remove_item_at(pos, EmptyChunk::Keep);
                    if pos.chunk_identifier == position.chunk_identifier && pos.index < position.index {
                        position.decrement_index();
                    }
                },
            }
            i = i + 1;
        }
        assert(ids.take(i as int) =~= ids);
    }

    /// The position of the event that the redaction `raw` is to rewrite, if
    /// `raw` is a redaction of a known event that is not redacted yet.
    pub fn redaction_position(&self, room_version: &str, raw: &str) -> (r: Option<Position>)
        requires
            self@.wf(),
        ensures
            r == redaction_position(self@, room_version@, raw@),
    {
        let target = match redaction_target_of(room_version, raw) {
            None => return None,
            Some(id) => id,
        };
        let pos = match self.find_last_position(&target) {
            None => return None,
            Some(pos) => pos,
        };
        let e = self.chunks.event_at(pos).unwrap();
        if is_redacted_event(e.raw.as_str()) {
            None
        } else {
            Some(pos)
        }
    }

    /// If `event` is a redaction of a known event that is not redacted yet,
    /// rewrites that event, in place, into the payload that `apply_redaction`
    /// makes of it; observers see a `SetAt`. Otherwise nothing changes.
    pub fn maybe_apply_new_redaction<F: Fn(&String, &String, &String) -> Option<String>>(
        &mut self,
        room_version: &String,
        event: &Event,
        apply_redaction: &F,
    )
        requires
            old(self)@.wf(),
            forall|a: &String, b: &String, c: &String| apply_redaction.requires((a, b, c)),
        ensures
            final(self)@.wf(),
            redaction_step(old(self)@, final(self)@, room_version, event, *apply_redaction),
    {
        let pos = match self.redaction_position(room_version.as_str(), event.raw.as_str()) {
            None => return ,
            Some(pos) => pos,
        };
        let target = self.chunks.event_at(pos).unwrap().clone();
        match apply_redaction(&target.raw, &event.raw, room_version) {
            None => {},
            Some(redacted) => {
                let ghost r = redacted;
                let mut copy = target;
                copy.replace_raw(redacted);
                proof {
                    lemma_replace_same_layout(self@, pos, copy);
                    assert(copy == with_raw(target, r));
                }
                let _ = self.chunks.replace_item_at(pos, copy);
            },
        }
    }

    /// Applies, in order, every redaction among `events` to the events that
    /// the room holds: each event takes one `redaction_step`. Chunks,
    /// identifiers and positions stay as they are; only payloads of redacted
    /// events change. Where no event redacts anything the room holds
    /// unredacted, the room and its diffs stay as they were.
    pub fn on_new_events<F: Fn(&String, &String, &String) -> Option<String>>(
        &mut self,
        room_version: &String,
        events: &Vec<Event>,
        apply_redaction: &F,
    )
        requires
            old(self)@.wf(),
            forall|a: &String, b: &String, c: &String| apply_redaction.requires((a, b, c)),
        ensures
            final(self)@.wf(),
            exists|states: Seq<LinkedChunkView>|
                redaction_run(states, room_version, events@, *apply_redaction) && states[0] == old(self)@
                    && states.last() == final(self)@,
            events@.len() == 1 ==> redaction_step(old(self)@, final(self)@, room_version, &events@[0], *apply_redaction),
            same_layout(old(self)@, final(self)@),
            (forall|i: int|
                0 <= i < events@.len() ==> redaction_position(old(self)@, room_version@, #[trigger] events@[i].raw@) is None)
                ==> final(self)@ == old(self)@,
    {
        let ghost v0 = self@;
        let ghost mut states: Seq<LinkedChunkView> = seq![v0];
        let mut i: usize = 0;
        while i < events.len()
            invariant
                self@.wf(),
                i <= events@.len(),
                forall|a: &String, b: &String, c: &String| apply_redaction.requires((a, b, c)),
                same_layout(v0, self@),
                states.len() == i + 1,
                states[0] == v0,
                states.last() == self@,
                forall|j: int|
                    0 <= j < i ==> #[trigger] redaction_step(
                        states[j],
                        states[j + 1],
                        room_version,
                        &events@[j],
                        *apply_redaction,
                    ),
                (forall|j: int|
                    0 <= j < events@.len() ==> redaction_position(v0, room_version@, #[trigger] events@[j].raw@) is None)
                    ==> self@ == v0,
            decreases events@.len() - i,
        {
            let ghost before = self@;
            self.maybe_apply_new_redaction(room_version, &events[i], apply_redaction);
            proof {
                let old_states = states;
                states = states.push(self@);
                assert forall|j: int| 0 <= j < i + 1 implies #[trigger] redaction_step(
                    states[j],
                    states[j + 1],
                    room_version,
                    &events@[j],
                    *apply_redaction,
                ) by {
                    if j < i {
                        assert(states[j] == old_states[j] && states[j + 1] == old_states[j + 1]);
                    } else {
                        assert(states[j] == before);
                    }
                }
                if forall|j: int|
                    0 <= j < events@.len() ==> redaction_position(v0, room_version@, #[trigger] events@[j].raw@) is None {
                    assert(redaction_position(v0, room_version@, events@[i as int].raw@) is None);
                }
                match redaction_position(before, room_version@, events@[i as int].raw@) {
                    None => {},
                    Some(pos) => {
                        let target = item_at(before.chunks, pos).unwrap();
                        if self@ != before {
                            let r = choose|r: String|
                                apply_redaction.ensures((&target.raw, &events@[i as int].raw, room_version), Some(r))
                                    && self@ == before.replace_item_at(pos, with_raw(target, r));
                            lemma_replace_same_layout(before, pos, with_raw(target, r));
                        }
                    },
                }
                if self@ == before {
                    assert(same_layout(before, self@));
                }
                lemma_same_layout_trans(v0, before, self@);
            }
            i = i + 1;
        }
        proof {
            if events@.len() == 1 {
                assert(redaction_step(states[0], states[1], room_version, &events@[0], *apply_redaction));
            }
        }
    }

    /// The chunks themselves, in chain order.
    pub closed spec fn chunk_list(&self) -> Seq<Chunk> {
        self.chunks.chunk_list()
    }

    /// The first chunk, in chain order, that satisfies `predicate`.
    pub fn chunk_identifier<P: Fn(&Chunk) -> bool>(&self, predicate: P) -> (r: Option<ChunkIdentifier>)
        requires
            forall|c: &Chunk| predicate.requires((c,)),
        ensures
            match r {
                Some(id) => exists|i: int|
                    0 <= i < self@.chunks.len() && self@.chunks[i].id == id.0 && predicate.ensures((&self.chunk_list()[i],), true)
                        && forall|k: int| 0 <= k < i ==> predicate.ensures((&self.chunk_list()[k],), false),
                None => forall|k: int| 0 <= k < self@.chunks.len() ==> predicate.ensures((&self.chunk_list()[k],), false),
            },
    {
        let ghost p = predicate;
        let r = self.chunks.chunk_identifier(predicate);
        proof {
            assert(self.chunk_list() == self.chunks.chunk_list());
            assert(self@ == self.chunks@);
            if let Some(id) = r {
                let i = choose|i: int|
                    0 <= i < self.chunks@.chunks.len() && self.chunks@.chunks[i].id == id.0 && p.ensures(
                        (&self.chunks.chunk_list()[i],),
                        true,
                    ) && forall|k: int| 0 <= k < i ==> p.ensures((&self.chunks.chunk_list()[k],), false);
                assert(0 <= i < self@.chunks.len() && self@.chunks[i].id == id.0 && p.ensures((&self.chunk_list()[i],), true)
                    && forall|k: int| 0 <= k < i ==> p.ensures((&self.chunk_list()[k],), false));
            }
        }
        r
    }

    /// The chunks, oldest first.
    pub fn chunks(&self) -> (r: &Vec<Chunk>)
        ensures
            chunk_views(r@) == self@.chunks,
    {
        self.chunks.chunks()
    }

    /// The chunks, newest first.
    pub fn rchunks(&self) -> (r: Vec<&Chunk>)
        ensures
            r@.len() == self@.chunks.len(),
            forall|i: int| 0 <= i < r@.len() ==> (#[trigger] r@[i])@ == self@.chunks[self@.chunks.len() - 1 - i],
    {
        self.chunks.rchunks()
    }

    /// The events with their positions, oldest first.
    pub fn events(&self) -> (r: Vec<(Position, &Event)>)
        requires
            self@.wf(),
        ensures
            r@.len() == self@.items().len(),
            forall|i: int|
                0 <= i < r@.len() ==> (#[trigger] r@[i]).1 == self@.items()[i] && item_at(self@.chunks, r@[i].0) == Some(
                    self@.items()[i],
                ),
    {
        self.chunks.items()
    }

    /// The events with their positions, newest first.
    pub fn revents(&self) -> (r: Vec<(Position, &Event)>)
        requires
            self@.wf(),
        ensures
            r@.len() == self@.items().len(),
            forall|i: int|
                0 <= i < r@.len() ==> (#[trigger] r@[i]).1 == self@.items()[self@.items().len() - 1 - i] && item_at(
                    self@.chunks,
                    r@[i].0,
                ) == Some(self@.items()[self@.items().len() - 1 - i]),
    {
        let forward = self.chunks.items();
        let n = forward.len();
        let mut r: Vec<(Position, &Event)> = Vec::new();
        let mut i: usize = 0;
        while i < n
            invariant
                n == forward@.len(),
                i <= n,
                r@.len() == i,
                forall|k: int| 0 <= k < i ==> (#[trigger] r@[k]) == forward@[n - 1 - k],
            decreases n - i,
        {
            r.push(forward[n - 1 - i]);
            i = i + 1;
        }
        r
    }

    /// One line per chunk, oldest first: `chunk #<identifier>: <content>`,
    /// where the content lists the event identifiers, or shows the gap's
    /// token.
    pub fn debug_string(&self) -> (r: Vec<String>)
        ensures
            r@.len() == self@.chunks.len(),
            forall|i: int| 0 <= i < r@.len() ==> (#[trigger] r@[i])@ == chunk_line(self@.chunks[i]),
    {
        let chunks = self.chunks.chunks();
        let mut r: Vec<String> = Vec::new();
        let mut i: usize = 0;
        while i < chunks.len()
            invariant
                chunk_views(chunks@) == self@.chunks,
                i <= chunks@.len(),
                r@.len() == i,
                forall|k: int| 0 <= k < i ==> (#[trigger] r@[k])@ == chunk_line(self@.chunks[k]),
            decreases chunks@.len() - i,
        {
            r.push(chunk_debug_line(&chunks[i]));
            i = i + 1;
        }
        r
    }

    /// Hands out the diffs made since the last call, in order; each diff is
    /// handed out once.
    pub fn updates_as_vector_diffs(&mut self) -> (r: Vec<VectorDiff>)
        requires
            old(self)@.wf(),
        ensures
            final(self)@.wf(),
            final(self)@ == old(self)@.drain(),
            crate::linked_chunk::diff_views(r@) == old(self)@.pending,
    {
        self.chunks.updates_as_vector_diffs()
    }
}

} // verus!
