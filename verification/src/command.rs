use vstd::prelude::*;
use vstd::utf8::{encode_utf8, is_ascii_chars, is_ascii_chars_encode_utf8};

use crate::resp::{Resp, RespView, serialize_spec, spells};

verus! {

/// The bytes of the word `ping`.
pub open spec fn ping_word() -> Seq<u8> {
    seq![112u8, 105u8, 110u8, 103u8]
}

/// A command whose first element is a bulk string that equals `PING` in any
/// letter case, as `str::eq_ignore_ascii_case` compares.
pub open spec fn is_ping(cmd: RespView) -> bool {
    match cmd {
        RespView::Array(_, elems) => elems.len() > 0 && match elems[0] {
            RespView::BulkString(_, s) => spells(encode_utf8(s), ping_word()),
            _ => false,
        },
        _ => false,
    }
}

/// What the server answers to a command.
pub open spec fn reply_to(cmd: RespView) -> RespView {
    if is_ping(cmd) {
        RespView::String("PONG"@)
    } else {
        RespView::Error("ERR unknown command"@)
    }
}

/// A `PING` in any letter case as an array's first element is answered with
/// `PONG`, whatever else the array holds and whatever counts it declares.
pub proof fn lemma_ping_answered(n: i64, m: i64, s: Seq<char>, rest: Seq<RespView>)
    requires
        s.len() == 4,
        s[0] == 'p' || s[0] == 'P',
        s[1] == 'i' || s[1] == 'I',
        s[2] == 'n' || s[2] == 'N',
        s[3] == 'g' || s[3] == 'G',
    ensures
        reply_to(RespView::Array(n, seq![RespView::BulkString(m, s)] + rest)) == RespView::String(
            "PONG"@,
        ),
{
    assert(is_ascii_chars(s));
    is_ascii_chars_encode_utf8(s);
    let e = encode_utf8(s);
    assert(e[0] == s[0] as u8 && e[1] == s[1] as u8 && e[2] == s[2] as u8 && e[3] == s[3] as u8);
    assert(spells(e, ping_word()));
    let elems = seq![RespView::BulkString(m, s)] + rest;
    assert(elems[0] == RespView::BulkString(m, s));
}

/// The answer to an array depends on its first element alone.
pub proof fn lemma_reply_by_first_element(
    n1: i64,
    e1: Seq<RespView>,
    n2: i64,
    e2: Seq<RespView>,
)
    requires
        e1.len() > 0,
        e2.len() > 0,
        e1[0] == e2[0],
    ensures
        reply_to(RespView::Array(n1, e1)) == reply_to(RespView::Array(n2, e2)),
{
}

/// Anything other than an array whose first element is a bulk string is
/// answered with the unknown-command error.
pub proof fn lemma_not_a_command(cmd: RespView)
    requires
        !(cmd matches RespView::Array(_, elems) && elems.len() > 0 && elems[0] is BulkString),
    ensures
        reply_to(cmd) == RespView::Error("ERR unknown command"@),
{
}

/// A command whose name is not four bytes long is not `PING`: it is answered
/// with the unknown-command error.
pub proof fn lemma_other_names_unknown(n: i64, m: i64, s: Seq<char>, rest: Seq<RespView>)
    requires
        encode_utf8(s).len() != 4,
    ensures
        reply_to(RespView::Array(n, seq![RespView::BulkString(m, s)] + rest)) == RespView::Error(
            "ERR unknown command"@,
        ),
{
    let elems = seq![RespView::BulkString(m, s)] + rest;
    assert(elems[0] == RespView::BulkString(m, s));
}

/// Whether `name` equals `PING` in any letter case.
fn names_ping(name: &std::string::String) -> (r: bool)
    ensures
        r == spells(encode_utf8(name@), ping_word()),
{
    let bytes = name.as_str().as_bytes();
    if bytes.len() != 4 {
        return false;
    }
    let word: [u8; 4] = [112, 105, 110, 103];
    let mut i: usize = 0;
    proof {
        assert(word@ =~= ping_word());
    }
    while i < 4
        invariant
            bytes@.len() == 4,
            bytes@ == encode_utf8(name@),
            word@ == ping_word(),
            i <= 4,
            forall|j: int| 0 <= j < i ==> crate::resp::ascii_lower(bytes@[j]) == ping_word()[j],
        decreases 4 - i,
    {
        let b = bytes[i];
        let lower = if 65 <= b && b <= 90 {
            b + 32
        } else {
            b
        };
        if lower != word[i] {
            return false;
        }
        i = i + 1;
    }
    true
}

/// Answers one command, appending the reply to `out`: `+PONG` to a `PING`,
/// an error to anything else.
pub fn dispatch(cmd: Resp, out: &mut Vec<u8>)
    ensures
        final(out)@ == old(out)@ + serialize_spec(reply_to(cmd@)),
{
    let ping = match &cmd {
        Resp::Array(_, elements) => {
            if elements.len() > 0 {
                proof {
                    crate::resp::lemma_resps_view_index(elements@);
                }
                match &elements[0] {
                    Resp::BulkString(_, s) => names_ping(s),
                    _ => false,
                }
            } else {
                false
            }
        },
        _ => false,
    };
    if ping {
        let reply = Resp::String("PONG".to_owned());
        reply.serialize(out);
    } else {
        let reply = Resp::Error("ERR unknown command".to_owned());
        reply.serialize(out);
    }
}

} // verus!
