use vstd::prelude::*;

verus! {

/// An event of the room, as the cache holds it: an optional identifier and
/// the raw serialized form.
pub struct Event {
    pub event_id: Option<String>,
    pub raw: String,
}

impl Clone for Event {
    fn clone(&self) -> (r: Self)
        ensures
            r == *self,
    {
        let event_id = match &self.event_id {
            Some(id) => Some(id.clone()),
            None => None,
        };
        Event { event_id, raw: self.raw.clone() }
    }
}

/// Whether `e` carries exactly the identifier `id`.
pub open spec fn has_id(e: Event, id: Seq<char>) -> bool {
    match e.event_id {
        Some(s) => s@ == id,
        None => false,
    }
}

impl Event {
    pub fn new(event_id: Option<String>, raw: String) -> (r: Self)
        ensures
            r.event_id == event_id,
            r.raw == raw,
    {
        Event { event_id, raw }
    }

    pub fn event_id(&self) -> (r: Option<String>)
        ensures
            r == self.event_id,
    {
        match &self.event_id {
            Some(id) => Some(id.clone()),
            None => None,
        }
    }

    pub fn raw(&self) -> (r: &String)
        ensures
            r == &self.raw,
    {
        &self.raw
    }

    pub fn replace_raw(&mut self, raw: String)
        ensures
            final(self).raw == raw,
            final(self).event_id == old(self).event_id,
    {
        self.raw = raw;
    }

    /// Whether this event carries the identifier `id`.
    pub fn has_event_id(&self, id: &String) -> (r: bool)
        ensures
            r == has_id(*self, id@),
    {
        match &self.event_id {
            Some(s) => *s == *id,
            None => false,
        }
    }
}

/// Character-wise equality of two strings.
pub fn str_eq(a: &str, b: &str) -> (r: bool)
    ensures
        r == (a@ == b@),
{
    let n = a.unicode_len();
    if n != b.unicode_len() {
        return false;
    }
    let mut i: usize = 0;
    while i < n
        invariant
            n == a@.len(),
            n == b@.len(),
            i <= n,
            forall|k: int| 0 <= k < i ==> a@[k] == b@[k],
        decreases n - i,
    {
        if a.get_char(i) != b.get_char(i) {
            return false;
        }
        i = i + 1;
    }
    assert(a@ =~= b@);
    true
}

/// A marker for history that has not been fetched yet.
pub struct Gap {
    /// The token to give the server to fetch the page before this gap.
    pub prev_token: String,
}

impl Clone for Gap {
    fn clone(&self) -> (r: Self)
        ensures
            r == *self,
    {
        Gap { prev_token: self.prev_token.clone() }
    }
}

/// The identifier of a chunk. Identifiers are never reused by a container.
#[derive(Clone, Copy, Debug, PartialEq, Eq, Structural)]
pub struct ChunkIdentifier(pub u64);

impl ChunkIdentifier {
    pub fn new(value: u64) -> (r: Self)
        ensures
            r.0 == value,
    {
        ChunkIdentifier(value)
    }

    pub fn index(&self) -> (r: u64)
        ensures
            r == self.0,
    {
        self.0
    }
}

/// The address of an item: the chunk that holds it and its offset in there.
#[derive(Clone, Copy, Debug, PartialEq, Eq, Structural)]
pub struct Position {
    pub chunk_identifier: ChunkIdentifier,
    pub index: usize,
}

impl Position {
    pub fn new(chunk_identifier: ChunkIdentifier, index: usize) -> (r: Self)
        ensures
            r.chunk_identifier == chunk_identifier,
            r.index == index,
    {
        Position { chunk_identifier, index }
    }

    pub fn chunk_identifier(&self) -> (r: ChunkIdentifier)
        ensures
            r == self.chunk_identifier,
    {
        self.chunk_identifier
    }

    pub fn index(&self) -> (r: usize)
        ensures
            r == self.index,
    {
        self.index
    }

    /// Moves the position one item to the left.
    pub fn decrement_index(&mut self)
        requires
            old(self).index > 0,
        ensures
            final(self).chunk_identifier == old(self).chunk_identifier,
            final(self).index == old(self).index - 1,
    {
        self.index = self.index - 1;
    }
}

/// Why an operation on a linked chunk was refused. A refused operation changes
/// nothing.
#[derive(Clone, Copy, Debug, PartialEq, Eq, Structural)]
pub enum LinkedChunkError {
    /// No chunk has the given identifier.
    ChunkNotFound,
    /// The chunk is an items-chunk where a gap was expected.
    NotAGap,
    /// The chunk is a gap where an items-chunk was expected.
    NotAnItemsChunk,
    /// The position addresses no chunk, or an index out of range.
    InvalidPosition,
    /// The operation would put two gaps next to each other.
    InvalidOperation,
}

/// What to do with an items-chunk that a removal leaves empty.
#[derive(Clone, Copy, Debug, PartialEq, Eq, Structural)]
pub enum EmptyChunk {
    Keep,
    Remove,
}

} // verus!
