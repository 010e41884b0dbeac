use vstd::prelude::*;

use crate::event::Event;
use crate::linked_chunk::{Chunk, ChunkContent};
use crate::model::{ChunkContentView, ChunkView};

verus! {

/// Relies on `String::push_str`: appends `t` to `s`.
#[verifier::external_body]
fn push_str(s: &mut String, t: &str)
    ensures
        final(s)@ == old(s)@ + t@,
{
    s.push_str(t)
}

/// Relies on `String::push`: appends `c` to `s`.
#[verifier::external_body]
fn push_char(s: &mut String, c: char)
    ensures
        final(s)@ == old(s)@.push(c),
{
    s.push(c)
}

pub open spec fn digit_char(d: nat) -> char {
    if d == 0 {
        '0'
    } else if d == 1 {
        '1'
    } else if d == 2 {
        '2'
    } else if d == 3 {
        '3'
    } else if d == 4 {
        '4'
    } else if d == 5 {
        '5'
    } else if d == 6 {
        '6'
    } else if d == 7 {
        '7'
    } else if d == 8 {
        '8'
    } else {
        '9'
    }
}

/// The decimal digits of `n`.
pub open spec fn decimal(n: nat) -> Seq<char>
    decreases n,
{
    if n < 10 {
        seq![digit_char(n)]
    } else {
        decimal(n / 10).push(digit_char(n % 10))
    }
}

/// How an event shows in a chunk's line: its identifier.
pub open spec fn event_label(e: Event) -> Seq<char> {
    match e.event_id {
        Some(id) => id@,
        None => "<no event id>"@,
    }
}

/// The labels of the events, separated by `, `.
pub open spec fn join_labels(s: Seq<Event>) -> Seq<char>
    decreases s.len(),
{
    if s.len() == 0 {
        Seq::empty()
    } else if s.len() == 1 {
        event_label(s[0])
    } else {
        join_labels(s.drop_last()) + ", "@ + event_label(s.last())
    }
}

pub open spec fn content_text(c: ChunkView) -> Seq<char> {
    match c.content {
        ChunkContentView::Items(s) => join_labels(s),
        ChunkContentView::Gap(g) => "gap('"@ + g.prev_token@ + "')"@,
    }
}

/// The line that describes a chunk: `chunk #<identifier>: <content>`.
pub open spec fn chunk_line(c: ChunkView) -> Seq<char> {
    "chunk #"@ + decimal(c.id) + ": "@ + content_text(c)
}

fn push_decimal(s: &mut String, n: u64)
    ensures
        final(s)@ == old(s)@ + decimal(n as nat),
    decreases n,
{
    if n >= 10 {
        push_decimal(s, n / 10);
    }
    let d = n % 10;
    let c = if d == 0 {
        '0'
    } else if d == 1 {
        '1'
    } else if d == 2 {
        '2'
    } else if d == 3 {
        '3'
    } else if d == 4 {
        '4'
    } else if d == 5 {
        '5'
    } else if d == 6 {
        '6'
    } else if d == 7 {
        '7'
    } else if d == 8 {
        '8'
    } else {
        '9'
    };
    push_char(s, c);
    proof {
        if n >= 10 {
            assert(old(s)@ + decimal(n as nat) =~= old(s)@ + decimal((n / 10) as nat) + seq![c]);
        } else {
            assert(old(s)@ + decimal(n as nat) =~= old(s)@.push(c));
        }
    }
}

fn push_label(s: &mut String, e: &Event)
    ensures
        final(s)@ == old(s)@ + event_label(*e),
{
    match &e.event_id {
        Some(id) => push_str(s, id.as_str()),
        None => push_str(s, "<no event id>"),
    }
}

/// The line that describes `c`.
pub fn chunk_debug_line(c: &Chunk) -> (r: String)
    ensures
        r@ == chunk_line(c@),
{
    let mut s = String::new();
    push_str(&mut s, "chunk #");
    push_decimal(&mut s, c.identifier.0);
    push_str(&mut s, ": ");
    let ghost head = s@;
    match &c.content {
        ChunkContent::Items(v) => {
            let mut k: usize = 0;
            while k < v.len()
                invariant
                    k <= v@.len(),
                    s@ == head + join_labels(v@.take(k as int)),
                decreases v@.len() - k,
            {
                proof {
                    assert(v@.take(k + 1).drop_last() =~= v@.take(k as int));
                }
                if k > 0 {
                    push_str(&mut s, ", ");
                }
                push_label(&mut s, &v[k]);
                proof {
                    if k == 0 {
                        assert(join_labels(Seq::<Event>::empty()) == Seq::<char>::empty());
                        assert(s@ =~= head + join_labels(v@.take(1)));
                    } else {
                        assert(s@ =~= head + join_labels(v@.take(k + 1)));
                    }
                }
                k = k + 1;
            }
            assert(v@.take(k as int) =~= v@);
        },
        ChunkContent::Gap(g) => {
            push_str(&mut s, "gap('");
            push_str(&mut s, g.prev_token.as_str());
            push_str(&mut s, "')");
        },
    }
    proof {
        assert(s@ =~= chunk_line(c@));
    }
    s
}

} // verus!
