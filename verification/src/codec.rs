//! The outbound wire format: every server-to-client message is one JSON
//! object with the tag under "type" and the payload under "data", and
//! the text a message encodes to is pinned exactly.

use vstd::prelude::*;
use vstd::string::StringExecFns;
use crate::messages::ServerMessage;
use crate::outside::push_char;

verus! {

/// The hexadecimal digit for a value below sixteen.
pub open spec fn hex_digit(n: int) -> char {
    if n == 0 {
        '0'
    } else if n == 1 {
        '1'
    } else if n == 2 {
        '2'
    } else if n == 3 {
        '3'
    } else if n == 4 {
        '4'
    } else if n == 5 {
        '5'
    } else if n == 6 {
        '6'
    } else if n == 7 {
        '7'
    } else if n == 8 {
        '8'
    } else if n == 9 {
        '9'
    } else if n == 10 {
        'a'
    } else if n == 11 {
        'b'
    } else if n == 12 {
        'c'
    } else if n == 13 {
        'd'
    } else if n == 14 {
        'e'
    } else {
        'f'
    }
}

/// One payload character as it stands inside a JSON string literal:
/// quotes and backslashes take a backslash, control characters take the
/// four-digit escape, everything else stands as itself.
pub open spec fn json_escaped_char(c: char) -> Seq<char> {
    if c == '"' {
        seq!['\\', '"']
    } else if c == '\\' {
        seq!['\\', '\\']
    } else if (c as u32) < 32 {
        seq![
            '\\',
            'u',
            '0',
            '0',
            hex_digit((c as u32 / 16) as int),
            hex_digit((c as u32 % 16) as int),
        ]
    } else {
        seq![c]
    }
}

/// A payload with every character escaped.
pub open spec fn json_escaped(s: Seq<char>) -> Seq<char>
    decreases s.len(),
{
    if s.len() == 0 {
        Seq::empty()
    } else {
        json_escaped(s.drop_last()) + json_escaped_char(s.last())
    }
}

/// A payload as a quoted JSON string literal.
pub open spec fn json_string(s: Seq<char>) -> Seq<char> {
    seq!['"'] + json_escaped(s) + seq!['"']
}

/// The comma-separated items of a JSON array of string literals.
pub open spec fn json_string_items(v: Seq<Seq<char>>) -> Seq<char>
    decreases v.len(),
{
    if v.len() == 0 {
        Seq::empty()
    } else if v.len() == 1 {
        json_string(v[0])
    } else {
        json_string_items(v.drop_last()) + seq![','] + json_string(v.last())
    }
}

/// A JSON array of string literals.
pub open spec fn json_string_array(v: Seq<Seq<char>>) -> Seq<char> {
    seq!['['] + json_string_items(v) + seq![']']
}

/// The exact wire text of a server-to-client message.
pub open spec fn server_message_text(m: ServerMessage) -> Seq<char> {
    match m {
        ServerMessage::NearbyPeers(v) => "{\"type\":\"NearbyPeers\",\"data\":"@
            + json_string_array(v.deep_view()) + "}"@,
        ServerMessage::ReceiveOffer { sender_id, offer } => {
            "{\"type\":\"ReceiveOffer\",\"data\":{\"sender_id\":"@ + json_string(sender_id@)
                + ",\"offer\":"@ + json_string(offer@) + "}}"@
        },
        ServerMessage::ReceiveAnswer { sender_id, answer } => {
            "{\"type\":\"ReceiveAnswer\",\"data\":{\"sender_id\":"@ + json_string(sender_id@)
                + ",\"answer\":"@ + json_string(answer@) + "}}"@
        },
        ServerMessage::ReceiveIceCandidate { sender_id, candidate } => {
            "{\"type\":\"ReceiveIceCandidate\",\"data\":{\"sender_id\":"@ + json_string(
                sender_id@,
            ) + ",\"candidate\":"@ + json_string(candidate@) + "}}"@
        },
        ServerMessage::Error(e) => "{\"type\":\"Error\",\"data\":"@ + json_string(e@) + "}"@,
    }
}

/// The hexadecimal digit, executably.
fn hex_digit_char(n: u32) -> (r: char)
    requires
        n < 16,
    ensures
        r == hex_digit(n as int),
{
    match n {
        0 => '0',
        1 => '1',
        2 => '2',
        3 => '3',
        4 => '4',
        5 => '5',
        6 => '6',
        7 => '7',
        8 => '8',
        9 => '9',
        10 => 'a',
        11 => 'b',
        12 => 'c',
        13 => 'd',
        14 => 'e',
        _ => 'f',
    }
}

/// Append a payload, escaped for the inside of a JSON string literal.
fn append_escaped(out: &mut String, s: &str)
    ensures
        final(out)@ == old(out)@ + json_escaped(s@),
{
    let n = s.unicode_len();
    let mut i: usize = 0;
    while i < n
        invariant
            n == s@.len(),
            i <= n,
            out@ == old(out)@ + json_escaped(s@.take(i as int)),
        decreases n - i,
    {
        let ghost prefix = out@;
        let c = s.get_char(i);
        if c == '"' {
            push_char(out, '\\');
            push_char(out, '"');
        } else if c == '\\' {
            push_char(out, '\\');
            push_char(out, '\\');
        } else if (c as u32) < 32 {
            push_char(out, '\\');
            push_char(out, 'u');
            push_char(out, '0');
            push_char(out, '0');
            push_char(out, hex_digit_char(c as u32 / 16));
            push_char(out, hex_digit_char(c as u32 % 16));
        } else {
            push_char(out, c);
        }
        proof {
            assert(out@ =~= prefix + json_escaped_char(s@[i as int]));
            assert(s@.take(i as int + 1).drop_last() =~= s@.take(i as int));
            assert(s@.take(i as int + 1).last() == s@[i as int]);
            assert(out@ =~= old(out)@ + json_escaped(s@.take(i as int + 1)));
        }
        i = i + 1;
    }
    proof {
        assert(s@.take(n as int) =~= s@);
    }
}

/// Append a payload as a quoted JSON string literal.
fn append_json_string(out: &mut String, s: &str)
    ensures
        final(out)@ == old(out)@ + json_string(s@),
{
    push_char(out, '"');
    append_escaped(out, s);
    push_char(out, '"');
    proof {
        assert(out@ =~= old(out)@ + json_string(s@));
    }
}

/// Append a JSON array of string literals.
fn append_json_string_array(out: &mut String, v: &Vec<String>)
    ensures
        final(out)@ == old(out)@ + json_string_array(v.deep_view()),
{
    push_char(out, '[');
    let ghost base = out@;
    let mut i: usize = 0;
    while i < v.len()
        invariant
            i <= v@.len(),
            out@ == base + json_string_items(v.deep_view().take(i as int)),
        decreases v@.len() - i,
    {
        let ghost prefix = out@;
        if i > 0 {
            push_char(out, ',');
        }
        append_json_string(out, v[i].as_str());
        proof {
            let dv = v.deep_view();
            assert(dv.take(i as int + 1).drop_last() =~= dv.take(i as int));
            assert(dv.take(i as int + 1).last() == dv[i as int]);
            if i == 0 {
                assert(dv.take(1)[0] == dv[0]);
                assert(out@ =~= base + json_string_items(dv.take(1)));
            } else {
                assert(out@ =~= base + (json_string_items(dv.take(i as int)) + seq![',']
                    + json_string(dv[i as int])));
                assert(out@ =~= base + json_string_items(dv.take(i as int + 1)));
            }
        }
        i = i + 1;
    }
    push_char(out, ']');
    proof {
        assert(v.deep_view().take(v.deep_view().len() as int) =~= v.deep_view());
        assert(out@ =~= old(out)@ + json_string_array(v.deep_view()));
    }
}

/// Encode a server-to-client message to its exact wire text.
pub fn encode_server_message(m: &ServerMessage) -> (r: String)
    ensures
        r@ == server_message_text(*m),
{
    let mut out = String::new();
    match m {
        ServerMessage::NearbyPeers(v) => {
            out.append("{\"type\":\"NearbyPeers\",\"data\":");
            append_json_string_array(&mut out, v);
            out.append("}");
        },
        ServerMessage::ReceiveOffer { sender_id, offer } => {
            out.append("{\"type\":\"ReceiveOffer\",\"data\":{\"sender_id\":");
            append_json_string(&mut out, sender_id.as_str());
            out.append(",\"offer\":");
            append_json_string(&mut out, offer.as_str());
            out.append("}}");
        },
        ServerMessage::ReceiveAnswer { sender_id, answer } => {
            out.append("{\"type\":\"ReceiveAnswer\",\"data\":{\"sender_id\":");
            append_json_string(&mut out, sender_id.as_str());
            out.append(",\"answer\":");
            append_json_string(&mut out, answer.as_str());
            out.append("}}");
        },
        ServerMessage::ReceiveIceCandidate { sender_id, candidate } => {
            out.append("{\"type\":\"ReceiveIceCandidate\",\"data\":{\"sender_id\":");
            append_json_string(&mut out, sender_id.as_str());
            out.append(",\"candidate\":");
            append_json_string(&mut out, candidate.as_str());
            out.append("}}");
        },
        ServerMessage::Error(e) => {
            out.append("{\"type\":\"Error\",\"data\":");
            append_json_string(&mut out, e.as_str());
            out.append("}");
        },
    }
    proof {
        assert(out@ =~= server_message_text(*m));
    }
    out
}

} // verus!
