use vstd::prelude::*;

use crate::command::{dispatch, reply_to};
use crate::connection::Conn;
use crate::resp::{ParseResult, ParseView, lemma_parse_len, parse_checked, serialize_spec, spec_parse};

verus! {

/// A connection's buffers and close flag, as mathematics.
pub struct ServeView {
    pub incoming: Seq<u8>,
    pub outgoing: Seq<u8>,
    pub want_close: bool,
    /// False where an array header declared a negative element count.
    pub sound: bool,
}

/// What answering every complete message at the front of `incoming` leaves:
/// each message is taken off the input and its reply appended to the output;
/// a malformed message marks the connection for closing and stops; so does
/// running out of input.
pub open spec fn serve_spec(incoming: Seq<u8>, outgoing: Seq<u8>, want_close: bool) -> ServeView
    decreases incoming.len(),
{
    let stay = ServeView { incoming, outgoing, want_close, sound: true };
    if incoming.len() == 0 {
        stay
    } else {
        match spec_parse(incoming) {
            ParseView::Complete(cmd, n) => if 0 < n <= incoming.len() {
                serve_spec(
                    incoming.subrange(n as int, incoming.len() as int),
                    outgoing + serialize_spec(reply_to(cmd)),
                    want_close,
                )
            } else {
                stay
            },
            ParseView::Malformed => ServeView { want_close: true, ..stay },
            ParseView::Incomplete => stay,
            ParseView::NegativeCount => ServeView { sound: false, ..stay },
        }
    }
}

/// Answers every complete message at the front of the connection's input.
/// Returns false, having stopped there, where an array header declared a
/// negative element count.
pub fn serve_input(conn: &mut Conn) -> (ok: bool)
    ensures
        ({
            let v = serve_spec(old(conn).incoming@, old(conn).outgoing@, old(conn).want_close);
            &&& ok == v.sound
            &&& final(conn).incoming@ == v.incoming
            &&& final(conn).outgoing@ == v.outgoing
            &&& final(conn).want_close == v.want_close
        }),
        final(conn).current_interest == old(conn).current_interest,
{
    let ghost target = serve_spec(conn.incoming@, conn.outgoing@, conn.want_close);
    while conn.incoming.len() > 0
        invariant
            target == serve_spec(old(conn).incoming@, old(conn).outgoing@, old(conn).want_close),
            serve_spec(conn.incoming@, conn.outgoing@, conn.want_close) == target,
            conn.current_interest == old(conn).current_interest,
        decreases conn.incoming@.len(),
    {
        match parse_checked(conn.incoming.as_slice()) {
            None => {
                return false;
            },
            Some(ParseResult::Complete(cmd, n)) => {
                let rest = conn.incoming.split_off(n);
                conn.incoming = rest;
                dispatch(cmd, &mut conn.outgoing);
            },
            Some(ParseResult::Malformed) => {
                conn.want_close = true;
                return true;
            },
            Some(ParseResult::Incomplete) => {
                return true;
            },
        }
    }
    true
}

/// Answering does not depend on the close flag nor on replies already queued:
/// the input left, the replies added and whether a negative count was met are
/// the same whatever the flag and the queued replies; the queued replies stay
/// in front, and the flag, once set, stays set.
pub proof fn lemma_serve_independent(incoming: Seq<u8>, outgoing: Seq<u8>, want_close: bool)
    ensures
        ({
            let v = serve_spec(incoming, outgoing, want_close);
            let base = serve_spec(incoming, Seq::empty(), false);
            &&& v.incoming == base.incoming
            &&& v.outgoing == outgoing + base.outgoing
            &&& v.sound == base.sound
            &&& v.want_close == (want_close || base.want_close)
        }),
    decreases incoming.len(),
{
    if incoming.len() > 0 {
        if let ParseView::Complete(cmd, n) = spec_parse(incoming) {
            if 0 < n <= incoming.len() {
                let tail = incoming.subrange(n as int, incoming.len() as int);
                let r = serialize_spec(reply_to(cmd));
                lemma_serve_independent(tail, outgoing + r, want_close);
                lemma_serve_independent(tail, Seq::<u8>::empty() + r, false);
                lemma_serve_independent(tail, Seq::<u8>::empty(), false);
                assert(outgoing + r + serve_spec(tail, Seq::empty(), false).outgoing =~= outgoing
                    + (Seq::<u8>::empty() + r + serve_spec(tail, Seq::empty(), false).outgoing));
            }
        }
    } else {
        assert(outgoing + Seq::<u8>::empty() =~= outgoing);
    }
}

/// A complete message at the front of the input is answered: its reply
/// follows the replies already queued, whatever the close flag.
pub proof fn lemma_front_message_answered(incoming: Seq<u8>, outgoing: Seq<u8>, want_close: bool)
    requires
        spec_parse(incoming) is Complete,
    ensures
        ({
            let front = outgoing + serialize_spec(reply_to(spec_parse(incoming)->Complete_0));
            let out = serve_spec(incoming, outgoing, want_close).outgoing;
            front.len() <= out.len() && out.subrange(0, front.len() as int) == front
        }),
{
    lemma_parse_len(incoming);
    if let ParseView::Complete(cmd, n) = spec_parse(incoming) {
        let tail = incoming.subrange(n as int, incoming.len() as int);
        let front = outgoing + serialize_spec(reply_to(cmd));
        lemma_serve_independent(tail, front, want_close);
        let out = serve_spec(incoming, outgoing, want_close).outgoing;
        assert(out.subrange(0, front.len() as int) =~= front);
    }
}

/// Input that does not start with a well-formed message is left as it is, no
/// reply is added, and the connection is marked for closing.
pub proof fn lemma_malformed_closes(incoming: Seq<u8>, outgoing: Seq<u8>, want_close: bool)
    requires
        spec_parse(incoming) is Malformed,
    ensures
        serve_spec(incoming, outgoing, want_close).incoming == incoming,
        serve_spec(incoming, outgoing, want_close).outgoing == outgoing,
        serve_spec(incoming, outgoing, want_close).want_close,
        serve_spec(incoming, outgoing, want_close).sound,
{
}

} // verus!
