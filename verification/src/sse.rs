//! Decoding of a server-sent-event stream, one line at a time.
//!
//! Following the HTML event-stream rules: an empty line dispatches the
//! pending event if it accumulated any data; a line starting with `:`
//! is a comment (the server's keepalives); otherwise the text before
//! the first `:` names a field and the rest, with one leading space
//! dropped, is its value.  `data` lines concatenate with newlines;
//! `event` sets the dispatch type; unknown fields are ignored.

use vstd::prelude::*;

use crate::strops::{str_eq, until_char};

verus! {

/// One event decoded from the stream.
#[derive(Clone, Debug)]
pub struct ServerSentEvent {
    pub event: String,
    pub data: String,
}

impl Default for ServerSentEvent {
    /// The type an event has until an `event` field names one.
    fn default() -> (r: ServerSentEvent)
        ensures
            r.event@ == "message"@,
            r.data@ == Seq::<char>::empty(),
    {
        ServerSentEvent { event: "message".to_owned(), data: String::new() }
    }
}

/// The field value of a line: everything after the first `:`, with one
/// leading space dropped; empty when the line has no `:`.
pub open spec fn field_value(line: Seq<char>, k: int) -> Seq<char> {
    if k == line.len() {
        Seq::empty()
    } else {
        let raw = line.skip(k + 1);
        if raw.len() > 0 && raw[0] == ' ' {
            raw.skip(1)
        } else {
            raw
        }
    }
}

/// One step of the decoder: the pending `(event, data)` pair and a
/// line give the next pending pair and possibly a dispatched event.
pub open spec fn sse_step(ev: Seq<char>, data: Seq<char>, line: Seq<char>) -> (
    Seq<char>,
    Seq<char>,
    Option<(Seq<char>, Seq<char>)>,
) {
    if line.len() == 0 {
        if data.len() > 0 {
            ("message"@, Seq::empty(), Some((ev, data)))
        } else {
            ("message"@, Seq::empty(), None)
        }
    } else if line[0] == ':' {
        (ev, data, None)
    } else {
        let k = until_char(line, ':');
        let field = line.take(k);
        let value = field_value(line, k);
        if field == "event"@ {
            (value, data, None)
        } else if field == "data"@ {
            (ev, if data.len() > 0 {
                data + seq!['\n'] + value
            } else {
                value
            }, None)
        } else {
            (ev, data, None)
        }
    }
}

/// Feeds one line of the stream into the pending event; returns the
/// new pending event and the dispatched one, if this line completed it.
pub fn sse_line(pending: ServerSentEvent, line: &str) -> (r: (
    ServerSentEvent,
    Option<ServerSentEvent>,
))
    ensures
        r.0.event@ == sse_step(pending.event@, pending.data@, line@).0,
        r.0.data@ == sse_step(pending.event@, pending.data@, line@).1,
        r.1 is Some <==> sse_step(pending.event@, pending.data@, line@).2 is Some,
        r.1 matches Some(e) ==> sse_step(pending.event@, pending.data@, line@).2 == Some(
            (e.event@, e.data@),
        ),
{
    let len = line.unicode_len();
    if len == 0 {
        let fresh = ServerSentEvent::default();
        if pending.data.as_str().unicode_len() > 0 {
            return (fresh, Some(pending));
        }
        return (fresh, None);
    }
    if line.get_char(0) == ':' {
        return (pending, None);
    }
    let k = crate::strops::find_char(line, ':');
    let field = line.substring_char(0, k);
    proof {
        assert(field@ =~= line@.take(k as int));
    }
    let value: String = if k == len {
        String::new()
    } else {
        let raw = line.substring_char(k + 1, len);
        proof {
            assert(raw@ =~= line@.skip(k as int + 1));
        }
        let rlen = raw.unicode_len();
        if rlen > 0 && raw.get_char(0) == ' ' {
            let trimmed = raw.substring_char(1, rlen);
            proof {
                assert(trimmed@ =~= raw@.skip(1));
            }
            trimmed.to_owned()
        } else {
            raw.to_owned()
        }
    };
    proof {
        assert(value@ == field_value(line@, k as int));
    }
    if str_eq(field, "event") {
        (ServerSentEvent { event: value, data: pending.data }, None)
    } else if str_eq(field, "data") {
        let ghost data0 = pending.data@;
        let mut data = pending.data;
        if data.as_str().unicode_len() > 0 {
            data.append("\n");
            proof {
                reveal_strlit("\n");
                assert("\n"@ =~= seq!['\n']);
            }
        }
        data.append(value.as_str());
        proof {
            if data0.len() > 0 {
                assert(data@ =~= data0 + seq!['\n'] + value@);
            } else {
                assert(data@ =~= value@);
            }
        }
        (ServerSentEvent { event: pending.event, data }, None)
    } else {
        (pending, None)
    }
}

} // verus!
