//! Executable codec for the wire envelope and the chat-message payload.
//!
//! The codec is specified against the canonical text form defined in
//! [`crate::wire`]: `encode_envelope` returns exactly that form, and
//! `decode_envelope` accepts exactly the canonical encodings and nothing
//! else. Together the two contracts give the round trip: decoding an encoded
//! envelope returns the envelope itself, and a text that no envelope encodes
//! to is rejected as malformed.

use vstd::prelude::*;

use crate::wire::enc_array;
use crate::wire::enc_chat_message;
use crate::wire::enc_envelope;
use crate::wire::enc_items;
use crate::wire::enc_opt_string;
use crate::wire::enc_tag;
use crate::wire::esc_char;
use crate::wire::escseq;
use crate::wire::hex_digit;
use crate::wire::quoted;
use crate::wire::ChatMessage;
use crate::wire::ChatMessageView;
use crate::wire::EnvelopeView;
use crate::wire::Envelope;
use crate::wire::MsgTypes;
use crate::wire::SessionError;

verus! {

/// Relies on `String::push` of std: appends the given character to the end
/// of the string.
pub assume_specification[ String::push ](s: &mut String, c: char)
    ensures
        final(s)@ == old(s)@.push(c),
;

/// Escaping distributes over concatenation.
proof fn lemma_escseq_concat(a: Seq<char>, b: Seq<char>)
    ensures
        escseq(a + b) == escseq(a) + escseq(b),
    decreases a.len(),
{
    if a.len() == 0 {
        assert(a + b =~= b);
        assert(escseq(a) + escseq(b) =~= escseq(b));
    } else {
        assert((a + b).drop_first() =~= a.drop_first() + b);
        lemma_escseq_concat(a.drop_first(), b);
        assert(escseq(a + b) =~= escseq(a) + escseq(b));
    }
}

/// Escaping one more character appends that character's escape.
proof fn lemma_escseq_push(t: Seq<char>, c: char)
    ensures
        escseq(t.push(c)) == escseq(t) + esc_char(c),
{
    assert(t.push(c) =~= t + seq![c]);
    lemma_escseq_concat(t, seq![c]);
    assert(seq![c].drop_first() =~= Seq::<char>::empty());
    assert(escseq(seq![c]) == esc_char(c) + escseq(seq![c].drop_first()));
    assert(esc_char(c) + Seq::<char>::empty() =~= esc_char(c));
}

/// The lower-case hex digit of a value below 16.
fn hex_digit_exec(v: u32) -> (c: char)
    requires
        v < 16,
    ensures
        c == hex_digit(v),
{
    if v == 0 { '0' }
    else if v == 1 { '1' }
    else if v == 2 { '2' }
    else if v == 3 { '3' }
    else if v == 4 { '4' }
    else if v == 5 { '5' }
    else if v == 6 { '6' }
    else if v == 7 { '7' }
    else if v == 8 { '8' }
    else if v == 9 { '9' }
    else if v == 10 { 'a' }
    else if v == 11 { 'b' }
    else if v == 12 { 'c' }
    else if v == 13 { 'd' }
    else if v == 14 { 'e' }
    else { 'f' }
}

/// Appends the canonical escape of one character.
fn push_escaped(out: &mut String, c: char)
    ensures
        final(out)@ == old(out)@ + esc_char(c),
{
    if c == '"' {
        out.push('\\');
        out.push('"');
        assert(out@ =~= old(out)@ + esc_char(c));
    } else if c == '\\' {
        out.push('\\');
        out.push('\\');
        assert(out@ =~= old(out)@ + esc_char(c));
    } else if c == '\u{8}' {
        out.push('\\');
        out.push('b');
        assert(out@ =~= old(out)@ + esc_char(c));
    } else if c == '\t' {
        out.push('\\');
        out.push('t');
        assert(out@ =~= old(out)@ + esc_char(c));
    } else if c == '\n' {
        out.push('\\');
        out.push('n');
        assert(out@ =~= old(out)@ + esc_char(c));
    } else if c == '\u{c}' {
        out.push('\\');
        out.push('f');
        assert(out@ =~= old(out)@ + esc_char(c));
    } else if c == '\r' {
        out.push('\\');
        out.push('r');
        assert(out@ =~= old(out)@ + esc_char(c));
    } else if (c as u32) < 32 {
        let u = c as u32;
        out.push('\\');
        out.push('u');
        out.push('0');
        out.push('0');
        out.push(hex_digit_exec(u / 16));
        out.push(hex_digit_exec(u % 16));
        assert(out@ =~= old(out)@ + esc_char(c));
    } else {
        out.push(c);
        assert(out@ =~= old(out)@ + esc_char(c));
    }
}

/// Appends the canonical quoted form of a string.
fn push_quoted(out: &mut String, s: &str)
    ensures
        final(out)@ == old(out)@ + quoted(s@),
{
    out.push('"');
    let n = s.unicode_len();
    let mut i: usize = 0;
    while i < n
        invariant
            n == s@.len(),
            i <= n,
            out@ == old(out)@ + seq!['"'] + escseq(s@.take(i as int)),
        decreases n - i,
    {
        let c = s.get_char(i);
        push_escaped(out, c);
        proof {
            lemma_escseq_push(s@.take(i as int), c);
            assert(s@.take(i as int).push(c) =~= s@.take(i + 1 as int));
            assert(out@ =~= old(out)@ + seq!['"'] + escseq(s@.take(i + 1 as int)));
        }
        i = i + 1;
    }
    out.push('"');
    proof {
        assert(s@.take(n as int) =~= s@);
        assert(out@ =~= old(out)@ + quoted(s@));
    }
}

/// One step of the comma-separated item list: encoding one more item appends
/// a separator (after the first) and the item's quoted form.
proof fn lemma_enc_items_take_succ(v: Seq<Seq<char>>, i: int)
    requires
        0 <= i < v.len(),
    ensures
        enc_items(v.take(i + 1)) == if i == 0 {
            quoted(v[0])
        } else {
            enc_items(v.take(i)) + seq![','] + quoted(v[i])
        },
    decreases i,
{
    if i == 0 {
        assert(v.take(1).len() == 1);
        assert(v.take(1)[0] == v[0]);
        assert(enc_items(v.take(1)) == quoted(v[0]));
    } else {
        let w = v.drop_first();
        lemma_enc_items_take_succ(w, i - 1);
        assert(v.take(i + 1).drop_first() =~= w.take(i));
        assert(v.take(i).drop_first() =~= w.take(i - 1));
        assert(v.take(i + 1).len() == i + 1);
        assert(v.take(i)[0] == v[0]);
        assert(v.take(i + 1)[0] == v[0]);
        if i == 1 {
            assert(enc_items(v.take(2)) == quoted(v[0]) + seq![','] + enc_items(w.take(1)));
            assert(enc_items(w.take(1)) == quoted(w[0]));
            assert(w[0] == v[1]);
            assert(enc_items(v.take(1)) == quoted(v[0]));
        } else {
            assert(enc_items(v.take(i + 1)) == quoted(v[0]) + seq![','] + enc_items(w.take(i)));
            assert(enc_items(w.take(i)) == enc_items(w.take(i - 1)) + seq![','] + quoted(w[i - 1]));
            assert(enc_items(v.take(i)) == quoted(v[0]) + seq![','] + enc_items(w.take(i - 1)));
            assert(w[i - 1] == v[i]);
            assert(quoted(v[0]) + seq![','] + (enc_items(w.take(i - 1)) + seq![','] + quoted(v[i]))
                =~= (quoted(v[0]) + seq![','] + enc_items(w.take(i - 1))) + seq![','] + quoted(v[i]));
        }
    }
}

/// Encodes an envelope into its canonical text form.
pub fn encode_envelope(e: &Envelope) -> (r: String)
    ensures
        r@ == enc_envelope(e@),
{
    let mut out = String::new();
    out.append("{\"messageType\":\"");
    match e.message_type {
        MsgTypes::Users => out.append("users"),
        MsgTypes::Register => out.append("register"),
        MsgTypes::Message => out.append("message"),
    }
    out.append("\",\"dataArray\":");
    assert(out@ =~= "{\"messageType\":\""@ + enc_tag(e@.message_type) + "\",\"dataArray\":"@);
    let ghost base: Seq<char> = out@;
    match &e.data_array {
        Option::None => {
            out.append("null");
        },
        Option::Some(v) => {
            let ghost items: Seq<Seq<char>> = v@.map_values(|s: String| s@);
            out.push('[');
            let n = v.len();
            let mut i: usize = 0;
            while i < n
                invariant
                    n == v.len(),
                    i <= n,
                    items == v@.map_values(|s: String| s@),
                    items.len() == n,
                    out@ == base + seq!['['] + enc_items(items.take(i as int)),
                decreases n - i,
            {
                if i > 0 {
                    out.push(',');
                }
                push_quoted(&mut out, v[i].as_str());
                proof {
                    lemma_enc_items_take_succ(items, i as int);
                    assert(items[i as int] == v@[i as int]@);
                    assert(out@ =~= base + seq!['['] + enc_items(items.take(i + 1 as int)));
                }
                i = i + 1;
            }
            out.push(']');
            proof {
                assert(items.take(n as int) =~= items);
                assert(out@ =~= base + (seq!['['] + enc_items(items) + seq![']']));
                assert(enc_array(e@.data_array) == seq!['['] + enc_items(items) + seq![']']);
            }
        },
    }
    assert(out@ =~= base + enc_array(e@.data_array));
    out.append(",\"data\":");
    let ghost base2: Seq<char> = out@;
    match &e.data {
        Option::None => {
            out.append("null");
        },
        Option::Some(s) => {
            push_quoted(&mut out, s.as_str());
        },
    }
    assert(out@ =~= base2 + enc_opt_string(e@.data));
    out.append("}");
    proof {
        assert(out@ =~= enc_envelope(e@));
    }
    out
}

/// Encodes a chat message into its canonical text form: the payload string
/// of a `Message` envelope.
pub fn encode_chat_message(m: &ChatMessage) -> (r: String)
    ensures
        r@ == enc_chat_message(m@),
{
    let mut out = String::new();
    out.append("{\"from\":");
    push_quoted(&mut out, m.from.as_str());
    out.append(",\"message\":");
    push_quoted(&mut out, m.text.as_str());
    out.append("}");
    proof {
        assert(out@ =~= enc_chat_message(m@));
    }
    out
}

// ---------------------------------------------------------------------------
// Decoding. The decoder accepts exactly the canonical encodings: every parse
// step states both soundness (what was consumed is the canonical form of the
// result) and completeness (any value whose canonical form stands here is
// that result), so the public contracts pin the decoder down completely.
// ---------------------------------------------------------------------------

/// The literal `lit` stands in `s` at position `i`.
pub open spec fn lit_at(s: Seq<char>, i: int, lit: Seq<char>) -> bool {
    0 <= i && i + lit.len() <= s.len() && s.subrange(i, i + lit.len()) == lit
}

/// A subrange equal to a concatenation splits into its two parts.
proof fn lemma_split_parts(s: Seq<char>, i: int, a: Seq<char>, b: Seq<char>)
    requires
        0 <= i,
        i + a.len() + b.len() <= s.len(),
        s.subrange(i, i + a.len() + b.len()) == a + b,
    ensures
        s.subrange(i, i + a.len()) == a,
        s.subrange(i + a.len(), i + a.len() + b.len()) == b,
{
    let w = s.subrange(i, i + a.len() + b.len());
    assert(s.subrange(i, i + a.len()) =~= a) by {
        assert forall|k: int| 0 <= k < a.len() implies s.subrange(i, i + a.len())[k] == a[k] by {
            assert(w[k] == (a + b)[k]);
        }
    }
    assert(s.subrange(i + a.len(), i + a.len() + b.len()) =~= b) by {
        assert forall|k: int|
            0 <= k < b.len() implies s.subrange(i + a.len(), i + a.len() + b.len())[k] == b[k] by {
            assert(w[a.len() + k] == (a + b)[a.len() + k]);
        }
    }
}

/// Adjacent subranges join into one.
proof fn lemma_join_parts(s: Seq<char>, i: int, m: int, j: int)
    requires
        0 <= i <= m <= j <= s.len(),
    ensures
        s.subrange(i, j) == s.subrange(i, m) + s.subrange(m, j),
{
    assert(s.subrange(i, j) =~= s.subrange(i, m) + s.subrange(m, j));
}

/// Shape facts about a single canonical escape unit.
proof fn lemma_esc_char_facts(c: char)
    ensures
        1 <= esc_char(c).len() <= 6,
        esc_char(c)[0] != '"',
        (esc_char(c)[0] == '\\') <==> (esc_char(c).len() != 1),
        esc_char(c).len() == 1 ==> esc_char(c)[0] == c && c != '"' && c != '\\' && (c as u32)
            >= 32,
{
}

/// Distinct characters have distinct code points.
proof fn lemma_char_cast_inj(a: char, b: char)
    requires
        a as u32 == b as u32,
    ensures
        a == b,
{
}

/// The lower-case hex digits name distinct values.
proof fn lemma_hex_digit_inj(x: u32, y: u32)
    requires
        x < 16,
        y < 16,
        hex_digit(x) == hex_digit(y),
    ensures
        x == y,
{
}

/// Two escape units standing at the same position encode the same character:
/// the canonical escapes form a prefix code.
proof fn lemma_esc_prefix_unique(s: Seq<char>, i: int, a: char, b: char)
    requires
        0 <= i,
        i + esc_char(a).len() <= s.len(),
        i + esc_char(b).len() <= s.len(),
        s.subrange(i, i + esc_char(a).len()) == esc_char(a),
        s.subrange(i, i + esc_char(b).len()) == esc_char(b),
    ensures
        a == b,
{
    lemma_esc_char_facts(a);
    lemma_esc_char_facts(b);
    let ea = esc_char(a);
    let eb = esc_char(b);
    assert(ea[0] == s[i]);
    assert(eb[0] == s[i]);
    if ea.len() == 1 {
        assert(eb[0] != '\\');
        assert(b == s[i]);
    } else if eb.len() == 1 {
        assert(ea[0] != '\\');
        assert(a == s[i]);
    } else {
        assert(ea[1] == s[i + 1]);
        assert(eb[1] == s[i + 1]);
        if ea.len() == 6 && eb.len() == 6 {
            assert(ea[4] == s[i + 4] && ea[5] == s[i + 5]);
            assert(eb[4] == s[i + 4] && eb[5] == s[i + 5]);
            let ua = a as u32;
            let ub = b as u32;
            lemma_hex_digit_inj(ua / 16, ub / 16);
            lemma_hex_digit_inj(ua % 16, ub % 16);
            assert(ua == ub);
        } else {
            assert(a == b);
        }
    }
}

/// The escaped body of a wire string, closed by a quote, stands at `i`.
pub open spec fn body_at(s: Seq<char>, i: int, t: Seq<char>) -> bool {
    0 <= i && i + escseq(t).len() + 1 <= s.len() && s.subrange(i, i + escseq(t).len() + 1)
        == escseq(t) + seq!['"']
}

/// A non-empty body starts with its first character's escape unit, and the
/// rest of the body stands right after it.
proof fn lemma_body_at_head(s: Seq<char>, i: int, t: Seq<char>)
    requires
        body_at(s, i, t),
        t.len() > 0,
    ensures
        i + esc_char(t[0]).len() <= s.len(),
        escseq(t).len() >= esc_char(t[0]).len(),
        s.subrange(i, i + esc_char(t[0]).len()) == esc_char(t[0]),
        body_at(s, i + esc_char(t[0]).len(), t.drop_first()),
{
    let u = esc_char(t[0]);
    let rest = t.drop_first();
    assert(escseq(t) == u + escseq(rest));
    assert(escseq(t) + seq!['"'] =~= u + (escseq(rest) + seq!['"']));
    lemma_split_parts(s, i, u, escseq(rest) + seq!['"']);
}

/// The value of a lower-case hex digit character, if it is one.
fn hex_val_exec(c: char) -> (r: Option<u32>)
    ensures
        match r {
            Option::Some(v) => v < 16 && hex_digit(v) == c,
            Option::None => forall|v: u32| v < 16 ==> hex_digit(v) != c,
        },
{
    if c == '0' { Option::Some(0) }
    else if c == '1' { Option::Some(1) }
    else if c == '2' { Option::Some(2) }
    else if c == '3' { Option::Some(3) }
    else if c == '4' { Option::Some(4) }
    else if c == '5' { Option::Some(5) }
    else if c == '6' { Option::Some(6) }
    else if c == '7' { Option::Some(7) }
    else if c == '8' { Option::Some(8) }
    else if c == '9' { Option::Some(9) }
    else if c == 'a' { Option::Some(10) }
    else if c == 'b' { Option::Some(11) }
    else if c == 'c' { Option::Some(12) }
    else if c == 'd' { Option::Some(13) }
    else if c == 'e' { Option::Some(14) }
    else if c == 'f' { Option::Some(15) }
    else { Option::None }
}

/// Parses the body of a quoted string, the opening quote already consumed,
/// up to and including the closing quote. Strictly canonical: any escape the
/// canonical encoder would not produce is rejected.
#[verifier::rlimit(50)]
fn parse_string_body(s: &str, i: usize) -> (r: Option<(String, usize)>)
    requires
        i <= s@.len(),
    ensures
        match r {
            Option::Some(p) => {
                &&& i < p.1 <= s@.len()
                &&& p.1 == i + escseq(p.0@).len() + 1
                &&& s@.subrange(i as int, p.1 as int) == escseq(p.0@) + seq!['"']
                &&& forall|t2: Seq<char>| body_at(s@, i as int, t2) ==> t2 == p.0@
            },
            Option::None => forall|t2: Seq<char>| !body_at(s@, i as int, t2),
        },
    decreases s@.len() - i,
{
    let sn = s.unicode_len();
    if i >= sn {
        return Option::None;
    }
    let c0 = s.get_char(i);
    if c0 == '"' {
        let t = String::new();
        proof {
            assert(s@.subrange(i as int, i + 1 as int) =~= escseq(t@) + seq!['"']);
            assert forall|t2: Seq<char>| body_at(s@, i as int, t2) implies t2 == t@ by {
                if t2.len() > 0 {
                    lemma_body_at_head(s@, i as int, t2);
                    lemma_esc_char_facts(t2[0]);
                    assert(esc_char(t2[0])[0] == s@[i as int]);
                }
                assert(t2 =~= t@);
            }
        }
        return Option::Some((t, i + 1));
    }
    let c_unit: char;
    let ulen: usize;
    if c0 == '\\' {
        if i + 1 >= sn {
            proof {
                assert forall|t2: Seq<char>| !body_at(s@, i as int, t2) by {
                    if body_at(s@, i as int, t2) {
                        if t2.len() == 0 {
                            assert(s@.subrange(i as int, i + 1 as int)[0] == '"');
                        } else {
                            lemma_body_at_head(s@, i as int, t2);
                            lemma_esc_char_facts(t2[0]);
                            assert(esc_char(t2[0])[0] == s@[i as int]);
                            assert(esc_char(t2[0]).len() >= 2);
                        }
                    }
                }
            }
            return Option::None;
        }
        let c1 = s.get_char(i + 1);
        if c1 == '"' {
            c_unit = '"';
            ulen = 2;
        } else if c1 == '\\' {
            c_unit = '\\';
            ulen = 2;
        } else if c1 == 'b' {
            c_unit = '\u{8}';
            ulen = 2;
        } else if c1 == 't' {
            c_unit = '\t';
            ulen = 2;
        } else if c1 == 'n' {
            c_unit = '\n';
            ulen = 2;
        } else if c1 == 'f' {
            c_unit = '\u{c}';
            ulen = 2;
        } else if c1 == 'r' {
            c_unit = '\r';
            ulen = 2;
        } else if c1 == 'u' {
            if sn - i < 6 {
                proof {
                    assert forall|t2: Seq<char>| !body_at(s@, i as int, t2) by {
                        if body_at(s@, i as int, t2) {
                            if t2.len() == 0 {
                                assert(s@.subrange(i as int, i + 1 as int)[0] == '"');
                            } else {
                                lemma_body_at_head(s@, i as int, t2);
                                lemma_esc_char_facts(t2[0]);
                                let u = esc_char(t2[0]);
                                assert(u[0] == s@[i as int]);
                                assert(u[1] == s@[i + 1]);
                                assert(u.len() == 6);
                            }
                        }
                    }
                }
                return Option::None;
            }
            let c2 = s.get_char(i + 2);
            let c3 = s.get_char(i + 3);
            let c4 = s.get_char(i + 4);
            let c5 = s.get_char(i + 5);
            if c2 != '0' || c3 != '0' {
                proof {
                    assert forall|t2: Seq<char>| !body_at(s@, i as int, t2) by {
                        if body_at(s@, i as int, t2) {
                            if t2.len() == 0 {
                                assert(s@.subrange(i as int, i + 1 as int)[0] == '"');
                            } else {
                                lemma_body_at_head(s@, i as int, t2);
                                lemma_esc_char_facts(t2[0]);
                                let u = esc_char(t2[0]);
                                assert(u[0] == s@[i as int]);
                                assert(u[1] == s@[i + 1]);
                                assert(u.len() == 6);
                                assert(u[2] == s@[i + 2] && u[3] == s@[i + 3]);
                            }
                        }
                    }
                }
                return Option::None;
            }
            let hiv: u32;
            if c4 == '0' {
                hiv = 0;
            } else if c4 == '1' {
                hiv = 1;
            } else {
                proof {
                    assert forall|t2: Seq<char>| !body_at(s@, i as int, t2) by {
                        if body_at(s@, i as int, t2) {
                            if t2.len() == 0 {
                                assert(s@.subrange(i as int, i + 1 as int)[0] == '"');
                            } else {
                                lemma_body_at_head(s@, i as int, t2);
                                lemma_esc_char_facts(t2[0]);
                                let u = esc_char(t2[0]);
                                assert(u[0] == s@[i as int]);
                                assert(u[1] == s@[i + 1]);
                                assert(u.len() == 6);
                                assert(u[4] == s@[i + 4]);
                                assert((t2[0] as u32) / 16 < 2);
                            }
                        }
                    }
                }
                return Option::None;
            }
            let lov: u32;
            match hex_val_exec(c5) {
                Option::Some(v) => {
                    lov = v;
                },
                Option::None => {
                    proof {
                        assert forall|t2: Seq<char>| !body_at(s@, i as int, t2) by {
                            if body_at(s@, i as int, t2) {
                                if t2.len() == 0 {
                                    assert(s@.subrange(i as int, i + 1 as int)[0] == '"');
                                } else {
                                    lemma_body_at_head(s@, i as int, t2);
                                    lemma_esc_char_facts(t2[0]);
                                    let u = esc_char(t2[0]);
                                    assert(u[0] == s@[i as int]);
                                    assert(u[1] == s@[i + 1]);
                                    assert(u.len() == 6);
                                    assert(u[5] == s@[i + 5]);
                                    assert((t2[0] as u32) % 16 < 16);
                                }
                            }
                        }
                    }
                    return Option::None;
                },
            }
            let code: u32 = hiv * 16 + lov;
            if code == 8 || code == 9 || code == 10 || code == 12 || code == 13 {
                proof {
                    assert forall|t2: Seq<char>| !body_at(s@, i as int, t2) by {
                        if body_at(s@, i as int, t2) {
                            if t2.len() == 0 {
                                assert(s@.subrange(i as int, i + 1 as int)[0] == '"');
                            } else {
                                lemma_body_at_head(s@, i as int, t2);
                                lemma_esc_char_facts(t2[0]);
                                let u = esc_char(t2[0]);
                                assert(u[0] == s@[i as int]);
                                assert(u[1] == s@[i + 1]);
                                assert(u.len() == 6);
                                assert(u[4] == s@[i + 4] && u[5] == s@[i + 5]);
                                let uc = t2[0] as u32;
                                assert(uc < 32);
                                assert(u[4] == hex_digit(uc / 16) && u[5] == hex_digit(uc % 16));
                                lemma_hex_digit_inj(uc / 16, hiv);
                                lemma_hex_digit_inj(uc % 16, lov);
                                assert(uc == 16 * (uc / 16) + uc % 16);
                                assert(uc == code);
                                if code == 8 {
                                    lemma_char_cast_inj(t2[0], '\u{8}');
                                }
                                if code == 9 {
                                    lemma_char_cast_inj(t2[0], '\t');
                                }
                                if code == 10 {
                                    lemma_char_cast_inj(t2[0], '\n');
                                }
                                if code == 12 {
                                    lemma_char_cast_inj(t2[0], '\u{c}');
                                }
                                if code == 13 {
                                    lemma_char_cast_inj(t2[0], '\r');
                                }
                                assert(false);
                            }
                        }
                    }
                }
                return Option::None;
            }
            c_unit = (code as u8) as char;
            ulen = 6;
            proof {
                assert(c_unit as u32 == code);
                assert(esc_char(c_unit).len() == 6);
                assert(esc_char(c_unit)[4] == c4 && esc_char(c_unit)[5] == c5);
                assert(s@.subrange(i as int, i + 6 as int) =~= esc_char(c_unit));
            }
        } else {
            proof {
                assert forall|t2: Seq<char>| !body_at(s@, i as int, t2) by {
                    if body_at(s@, i as int, t2) {
                        if t2.len() == 0 {
                            assert(s@.subrange(i as int, i + 1 as int)[0] == '"');
                        } else {
                            lemma_body_at_head(s@, i as int, t2);
                            lemma_esc_char_facts(t2[0]);
                            let u = esc_char(t2[0]);
                            assert(u[0] == s@[i as int]);
                            assert(u[1] == s@[i + 1]);
                        }
                    }
                }
            }
            return Option::None;
        }
    } else {
        if (c0 as u32) < 32 {
            proof {
                assert forall|t2: Seq<char>| !body_at(s@, i as int, t2) by {
                    if body_at(s@, i as int, t2) {
                        if t2.len() == 0 {
                            assert(s@.subrange(i as int, i + 1 as int)[0] == '"');
                        } else {
                            lemma_body_at_head(s@, i as int, t2);
                            lemma_esc_char_facts(t2[0]);
                            let u = esc_char(t2[0]);
                            assert(u[0] == s@[i as int]);
                            assert(u.len() == 1);
                        }
                    }
                }
            }
            return Option::None;
        }
        c_unit = c0;
        ulen = 1;
        proof {
            assert(s@.subrange(i as int, i + 1 as int) =~= esc_char(c_unit));
        }
    }
    proof {
        if ulen == 2 {
            assert(s@.subrange(i as int, i + 2 as int) =~= esc_char(c_unit));
        }
        assert(s@.subrange(i as int, i + ulen as int) == esc_char(c_unit));
        assert(i + ulen <= sn);
    }
    match parse_string_body(s, i + ulen) {
        Option::None => {
            proof {
                assert forall|t2: Seq<char>| !body_at(s@, i as int, t2) by {
                    if body_at(s@, i as int, t2) {
                        if t2.len() == 0 {
                            assert(s@.subrange(i as int, i + 1 as int)[0] == '"');
                        } else {
                            lemma_body_at_head(s@, i as int, t2);
                            lemma_esc_prefix_unique(s@, i as int, t2[0], c_unit);
                        }
                    }
                }
            }
            Option::None
        },
        Option::Some((rest, j)) => {
            let mut t = String::new();
            t.push(c_unit);
            t.append(rest.as_str());
            proof {
                assert(t@ =~= seq![c_unit] + rest@);
                assert(t@.drop_first() =~= rest@);
                assert(t@[0] == c_unit);
                assert(escseq(t@) == esc_char(c_unit) + escseq(rest@));
                lemma_join_parts(s@, i as int, i + ulen as int, j as int);
                assert(s@.subrange(i as int, j as int) =~= escseq(t@) + seq!['"']);
                assert forall|t2: Seq<char>| body_at(s@, i as int, t2) implies t2 == t@ by {
                    if t2.len() == 0 {
                        assert(s@.subrange(i as int, i + 1 as int)[0] == '"');
                    } else {
                        lemma_body_at_head(s@, i as int, t2);
                        lemma_esc_prefix_unique(s@, i as int, t2[0], c_unit);
                        assert(body_at(s@, i + ulen as int, t2.drop_first()));
                        assert(t2.drop_first() == rest@);
                        assert(t2 =~= t@);
                    }
                }
            }
            Option::Some((t, j))
        },
    }
}

/// Matches a fixed literal at position `i`: `Some` exactly when the literal
/// stands there, returning the position just after it.
fn expect_lit(s: &str, i: usize, lit: &str) -> (r: Option<usize>)
    requires
        i <= s@.len(),
    ensures
        match r {
            Option::Some(j) => i + lit@.len() == j && j <= s@.len() && lit_at(s@, i as int, lit@),
            Option::None => !lit_at(s@, i as int, lit@),
        },
{
    let sn = s.unicode_len();
    let ln = lit.unicode_len();
    if sn - i < ln {
        return Option::None;
    }
    let mut k: usize = 0;
    while k < ln
        invariant
            sn == s@.len(),
            ln == lit@.len(),
            i + ln <= sn,
            k <= ln,
            forall|m: int| 0 <= m < k ==> s@[i + m] == lit@[m],
        decreases ln - k,
    {
        if s.get_char(i + k) != lit.get_char(k) {
            proof {
                if lit_at(s@, i as int, lit@) {
                    assert(s@.subrange(i as int, i + ln as int)[k as int] == lit@[k as int]);
                }
            }
            return Option::None;
        }
        k = k + 1;
    }
    proof {
        assert(s@.subrange(i as int, i + ln as int) =~= lit@);
    }
    Option::Some(i + ln)
}

/// A quoted wire string stands at `i`.
pub open spec fn quoted_at(s: Seq<char>, i: int, t: Seq<char>) -> bool {
    0 <= i && i + quoted(t).len() <= s.len() && s.subrange(i, i + quoted(t).len()) == quoted(t)
}

/// A quoted string at `i` opens with a quote and its body stands at `i + 1`.
proof fn lemma_quoted_to_body(s: Seq<char>, i: int, t: Seq<char>)
    requires
        quoted_at(s, i, t),
    ensures
        s[i] == '"',
        body_at(s, i + 1, t),
{
    assert(quoted(t) =~= seq!['"'] + (escseq(t) + seq!['"']));
    lemma_split_parts(s, i, seq!['"'], escseq(t) + seq!['"']);
    assert(s.subrange(i, i + 1)[0] == '"');
}

/// Parses a quoted wire string, both quotes included: strictly canonical.
fn parse_quoted(s: &str, i: usize) -> (r: Option<(String, usize)>)
    requires
        i <= s@.len(),
    ensures
        match r {
            Option::Some(p) => {
                &&& i < p.1 <= s@.len()
                &&& p.1 == i + quoted(p.0@).len()
                &&& s@.subrange(i as int, p.1 as int) == quoted(p.0@)
                &&& forall|t2: Seq<char>| quoted_at(s@, i as int, t2) ==> t2 == p.0@
            },
            Option::None => forall|t2: Seq<char>| !quoted_at(s@, i as int, t2),
        },
{
    let sn = s.unicode_len();
    if i >= sn {
        proof {
            assert forall|t2: Seq<char>| !quoted_at(s@, i as int, t2) by {
                if quoted_at(s@, i as int, t2) {
                    lemma_quoted_to_body(s@, i as int, t2);
                }
            }
        }
        return Option::None;
    }
    let c = s.get_char(i);
    if c != '"' {
        proof {
            assert forall|t2: Seq<char>| !quoted_at(s@, i as int, t2) by {
                if quoted_at(s@, i as int, t2) {
                    lemma_quoted_to_body(s@, i as int, t2);
                }
            }
        }
        return Option::None;
    }
    match parse_string_body(s, i + 1) {
        Option::None => {
            proof {
                assert forall|t2: Seq<char>| !quoted_at(s@, i as int, t2) by {
                    if quoted_at(s@, i as int, t2) {
                        lemma_quoted_to_body(s@, i as int, t2);
                    }
                }
            }
            Option::None
        },
        Option::Some((t, j)) => {
            proof {
                lemma_join_parts(s@, i as int, i + 1 as int, j as int);
                assert(s@.subrange(i as int, i + 1 as int) =~= seq!['"']);
                assert(s@.subrange(i as int, j as int) =~= quoted(t@));
                assert forall|t2: Seq<char>| quoted_at(s@, i as int, t2) implies t2 == t@ by {
                    lemma_quoted_to_body(s@, i as int, t2);
                }
            }
            Option::Some((t, j))
        },
    }
}

/// The views of a vector of strings.
pub open spec fn str_views(v: Seq<String>) -> Seq<Seq<char>> {
    v.map_values(|x: String| x@)
}

/// A non-empty item list, closed by `]`, stands at `i`.
pub open spec fn items_at(s: Seq<char>, i: int, v: Seq<Seq<char>>) -> bool {
    v.len() > 0 && 0 <= i && i + enc_items(v).len() + 1 <= s.len() && s.subrange(
        i,
        i + enc_items(v).len() + 1,
    ) == enc_items(v) + seq![']']
}

/// A non-empty item list starts with its first item's quoted form; after it
/// stands `,` and the remaining items, or the closing `]`.
proof fn lemma_items_at_head(s: Seq<char>, i: int, v: Seq<Seq<char>>)
    requires
        items_at(s, i, v),
    ensures
        quoted_at(s, i, v[0]),
        v.len() == 1 ==> s[i + quoted(v[0]).len()] == ']',
        v.len() > 1 ==> s[i + quoted(v[0]).len()] == ',' && items_at(
            s,
            i + quoted(v[0]).len() + 1,
            v.drop_first(),
        ),
{
    if v.len() == 1 {
        assert(enc_items(v) == quoted(v[0]));
        assert(enc_items(v) + seq![']'] =~= quoted(v[0]) + seq![']']);
        lemma_split_parts(s, i, quoted(v[0]), seq![']']);
        assert(s.subrange(i + quoted(v[0]).len(), i + quoted(v[0]).len() + 1)[0] == ']');
    } else {
        let q0 = quoted(v[0]);
        let rest = enc_items(v.drop_first());
        assert(enc_items(v) == q0 + seq![','] + rest);
        assert(enc_items(v) + seq![']'] =~= q0 + (seq![','] + (rest + seq![']'])));
        lemma_split_parts(s, i, q0, seq![','] + (rest + seq![']']));
        lemma_split_parts(s, i + q0.len(), seq![','], rest + seq![']']);
        assert(s.subrange(i + q0.len(), i + q0.len() + 1)[0] == ',');
    }
}

/// Parses a non-empty comma-separated list of quoted strings up to and
/// including the closing `]`.
#[verifier::rlimit(50)]
fn parse_items(s: &str, i: usize) -> (r: Option<(Vec<String>, usize)>)
    requires
        i <= s@.len(),
    ensures
        match r {
            Option::Some(p) => {
                &&& i < p.1 <= s@.len()
                &&& p.0@.len() > 0
                &&& p.1 == i + enc_items(str_views(p.0@)).len() + 1
                &&& s@.subrange(i as int, p.1 as int) == enc_items(str_views(p.0@)) + seq![']']
                &&& forall|v2: Seq<Seq<char>>| items_at(s@, i as int, v2) ==> v2 == str_views(
                    p.0@,
                )
            },
            Option::None => forall|v2: Seq<Seq<char>>| !items_at(s@, i as int, v2),
        },
    decreases s@.len() - i,
{
    let sn = s.unicode_len();
    match parse_quoted(s, i) {
        Option::None => {
            proof {
                assert forall|v2: Seq<Seq<char>>| !items_at(s@, i as int, v2) by {
                    if items_at(s@, i as int, v2) {
                        lemma_items_at_head(s@, i as int, v2);
                    }
                }
            }
            Option::None
        },
        Option::Some((t0, j)) => {
            if j >= sn {
                proof {
                    assert forall|v2: Seq<Seq<char>>| !items_at(s@, i as int, v2) by {
                        if items_at(s@, i as int, v2) {
                            lemma_items_at_head(s@, i as int, v2);
                            assert(v2[0] == t0@);
                            if v2.len() == 1 {
                                assert(i + enc_items(v2).len() < s@.len());
                            } else {
                                assert(enc_items(v2).len() >= quoted(v2[0]).len() + 1);
                            }
                        }
                    }
                }
                return Option::None;
            }
            let c = s.get_char(j);
            if c == ']' {
                let mut out: Vec<String> = Vec::new();
                out.push(t0);
                proof {
                    assert(out@ =~= seq![out@[0]]);
                    assert(str_views(out@) =~= seq![out@[0]@]);
                    assert(enc_items(str_views(out@)) == quoted(out@[0]@));
                    lemma_join_parts(s@, i as int, j as int, j + 1 as int);
                    assert(s@.subrange(j as int, j + 1 as int) =~= seq![']']);
                    assert(s@.subrange(i as int, j + 1 as int) =~= enc_items(str_views(out@))
                        + seq![']']);
                    assert forall|v2: Seq<Seq<char>>|
                        items_at(s@, i as int, v2) implies v2 == str_views(out@) by {
                        lemma_items_at_head(s@, i as int, v2);
                        assert(v2[0] == t0@);
                        if v2.len() > 1 {
                            assert(s@[j as int] == ',');
                        }
                        assert(v2 =~= str_views(out@));
                    }
                }
                return Option::Some((out, j + 1));
            }
            if c == ',' {
                match parse_items(s, j + 1) {
                    Option::None => {
                        proof {
                            assert forall|v2: Seq<Seq<char>>| !items_at(s@, i as int, v2) by {
                                if items_at(s@, i as int, v2) {
                                    lemma_items_at_head(s@, i as int, v2);
                                    assert(v2[0] == t0@);
                                    if v2.len() == 1 {
                                        assert(s@[j as int] == ']');
                                    }
                                }
                            }
                        }
                        Option::None
                    },
                    Option::Some((rest, j2)) => {
                        let ghost restv: Seq<String> = rest@;
                        let mut out = rest;
                        out.insert(0, t0);
                        proof {
                            assert(out@ == restv.insert(0, t0));
                            assert(out@.drop_first() =~= restv);
                            assert(out@ =~= seq![t0] + restv);
                            let sv = str_views(out@);
                            assert(sv =~= seq![t0@] + str_views(restv));
                            assert(sv.drop_first() =~= str_views(restv));
                            assert(sv.len() >= 2);
                            assert(sv[0] == t0@);
                            assert(enc_items(sv) == quoted(t0@) + seq![','] + enc_items(
                                sv.drop_first(),
                            ));
                            lemma_join_parts(s@, i as int, j as int, j + 1 as int);
                            lemma_join_parts(s@, i as int, j + 1 as int, j2 as int);
                            assert(s@.subrange(j as int, j + 1 as int) =~= seq![',']);
                            assert(s@.subrange(j + 1 as int, j2 as int) == enc_items(
                                str_views(restv),
                            ) + seq![']']);
                            assert(s@.subrange(i as int, j2 as int) =~= enc_items(sv) + seq![']']);
                            assert forall|v2: Seq<Seq<char>>|
                                items_at(s@, i as int, v2) implies v2 == sv by {
                                lemma_items_at_head(s@, i as int, v2);
                                assert(v2[0] == t0@);
                                if v2.len() == 1 {
                                    assert(s@[j as int] == ']');
                                }
                                assert(items_at(s@, j + 1 as int, v2.drop_first()));
                                assert(v2.drop_first() == sv.drop_first());
                                assert(v2 =~= sv);
                            }
                        }
                        Option::Some((out, j2))
                    },
                }
            } else {
                proof {
                    assert forall|v2: Seq<Seq<char>>| !items_at(s@, i as int, v2) by {
                        if items_at(s@, i as int, v2) {
                            lemma_items_at_head(s@, i as int, v2);
                            assert(v2[0] == t0@);
                            if v2.len() == 1 {
                                assert(s@[j as int] == ']');
                            } else {
                                assert(s@[j as int] == ',');
                            }
                        }
                    }
                }
                Option::None
            }
        },
    }
}

/// Decomposition of a canonical chat-message text into its five segments.
proof fn lemma_enc_chat_message_parts(s: Seq<char>, m: ChatMessageView)
    requires
        s == enc_chat_message(m),
    ensures
        s.len() == "{\"from\":"@.len() + quoted(m.from).len() + ",\"message\":"@.len() + quoted(
            m.text,
        ).len() + 1,
        lit_at(s, 0, "{\"from\":"@),
        quoted_at(s, "{\"from\":"@.len() as int, m.from),
        lit_at(s, ("{\"from\":"@.len() + quoted(m.from).len()) as int, ",\"message\":"@),
        quoted_at(s, ("{\"from\":"@.len() + quoted(m.from).len() + ",\"message\":"@.len()) as int, m.text),
        s[s.len() - 1] == '}',
{
    let p0 = "{\"from\":"@;
    let q1 = quoted(m.from);
    let p1 = ",\"message\":"@;
    let q2 = quoted(m.text);
    let p2 = "}"@;
    reveal_strlit("}");
    assert(p2.len() == 1);
    assert(s =~= p0 + (q1 + (p1 + (q2 + p2))));
    assert(s.subrange(0, s.len() as int) =~= s);
    lemma_split_parts(s, 0, p0, q1 + (p1 + (q2 + p2)));
    lemma_split_parts(s, p0.len() as int, q1, p1 + (q2 + p2));
    lemma_split_parts(s, (p0.len() + q1.len()) as int, p1, q2 + p2);
    lemma_split_parts(s, (p0.len() + q1.len() + p1.len()) as int, q2, p2);
    assert(s.subrange(s.len() - 1, s.len() as int)[0] == '}');
}

/// Decodes the payload string of a `Message` envelope. Accepts exactly the
/// canonical encodings of chat messages: decoding succeeds, with the one
/// chat message that encodes to the input, if and only if some chat message
/// does; every other input is `MalformedPayload`.
#[verifier::rlimit(50)]
pub fn decode_chat_message(s: &str) -> (r: Result<ChatMessage, SessionError>)
    ensures
        match r {
            Result::Ok(m) => s@ == enc_chat_message(m@) && (forall|m2: ChatMessageView|
                s@ == enc_chat_message(m2) ==> m2 == m@),
            Result::Err(e) => e == SessionError::MalformedPayload && (forall|m2: ChatMessageView|
                s@ != enc_chat_message(m2)),
        },
{
    let sn = s.unicode_len();
    let i0 = match expect_lit(s, 0, "{\"from\":") {
        Option::Some(j) => j,
        Option::None => {
            proof {
                assert forall|m2: ChatMessageView| s@ != enc_chat_message(m2) by {
                    if s@ == enc_chat_message(m2) {
                        lemma_enc_chat_message_parts(s@, m2);
                    }
                }
            }
            return Result::Err(SessionError::MalformedPayload);
        },
    };
    let from_s: String;
    let i1: usize;
    match parse_quoted(s, i0) {
        Option::Some(p) => {
            from_s = p.0;
            i1 = p.1;
        },
        Option::None => {
            proof {
                assert forall|m2: ChatMessageView| s@ != enc_chat_message(m2) by {
                    if s@ == enc_chat_message(m2) {
                        lemma_enc_chat_message_parts(s@, m2);
                    }
                }
            }
            return Result::Err(SessionError::MalformedPayload);
        },
    }
    let i2 = match expect_lit(s, i1, ",\"message\":") {
        Option::Some(j) => j,
        Option::None => {
            proof {
                assert forall|m2: ChatMessageView| s@ != enc_chat_message(m2) by {
                    if s@ == enc_chat_message(m2) {
                        lemma_enc_chat_message_parts(s@, m2);
                        assert(m2.from == from_s@);
                    }
                }
            }
            return Result::Err(SessionError::MalformedPayload);
        },
    };
    let text_s: String;
    let i3: usize;
    match parse_quoted(s, i2) {
        Option::Some(p) => {
            text_s = p.0;
            i3 = p.1;
        },
        Option::None => {
            proof {
                assert forall|m2: ChatMessageView| s@ != enc_chat_message(m2) by {
                    if s@ == enc_chat_message(m2) {
                        lemma_enc_chat_message_parts(s@, m2);
                        assert(m2.from == from_s@);
                    }
                }
            }
            return Result::Err(SessionError::MalformedPayload);
        },
    }
    if i3 >= sn {
        proof {
            assert forall|m2: ChatMessageView| s@ != enc_chat_message(m2) by {
                if s@ == enc_chat_message(m2) {
                    lemma_enc_chat_message_parts(s@, m2);
                    assert(m2.from == from_s@);
                    assert(m2.text == text_s@);
                }
            }
        }
        return Result::Err(SessionError::MalformedPayload);
    }
    let cb = s.get_char(i3);
    if cb != '}' || i3 + 1 != sn {
        proof {
            assert forall|m2: ChatMessageView| s@ != enc_chat_message(m2) by {
                if s@ == enc_chat_message(m2) {
                    lemma_enc_chat_message_parts(s@, m2);
                    assert(m2.from == from_s@);
                    assert(m2.text == text_s@);
                    assert(s@.len() == i3 + 1);
                }
            }
        }
        return Result::Err(SessionError::MalformedPayload);
    }
    let m = ChatMessage { from: from_s, text: text_s };
    proof {
        lemma_join_parts(s@, 0, i0 as int, i1 as int);
        lemma_join_parts(s@, 0, i1 as int, i2 as int);
        lemma_join_parts(s@, 0, i2 as int, i3 as int);
        lemma_join_parts(s@, 0, i3 as int, sn as int);
        reveal_strlit("}");
        assert(s@.subrange(i3 as int, sn as int) =~= "}"@);
        assert(s@.subrange(0, sn as int) =~= s@);
        assert(s@ =~= "{\"from\":"@ + quoted(m@.from) + ",\"message\":"@ + quoted(m@.text)
            + "}"@);
        assert forall|m2: ChatMessageView| s@ == enc_chat_message(m2) implies m2 == m@ by {
            lemma_enc_chat_message_parts(s@, m2);
            assert(m2.from == from_s@);
            assert(m2.text == text_s@);
        }
    }
    Result::Ok(m)
}

/// The position of the `dataArray` value inside a canonical envelope text.
pub open spec fn arr_pos(e: EnvelopeView) -> int {
    ("{\"messageType\":\""@.len() + enc_tag(e.message_type).len() + "\",\"dataArray\":"@.len())
        as int
}

/// The position of the `data` value inside a canonical envelope text.
pub open spec fn data_pos(e: EnvelopeView) -> int {
    arr_pos(e) + enc_array(e.data_array).len() + ",\"data\":"@.len()
}

/// The three tag values, each taken together with the text that follows it
/// up to the `dataArray` value.
proof fn lemma_tag_literals()
    ensures
        enc_tag(MsgTypes::Users) + "\",\"dataArray\":"@ == "users\",\"dataArray\":"@,
        enc_tag(MsgTypes::Register) + "\",\"dataArray\":"@ == "register\",\"dataArray\":"@,
        enc_tag(MsgTypes::Message) + "\",\"dataArray\":"@ == "message\",\"dataArray\":"@,
        "users\",\"dataArray\":"@[0] == 'u',
        "register\",\"dataArray\":"@[0] == 'r',
        "message\",\"dataArray\":"@[0] == 'm',
        "users\",\"dataArray\":"@.len() == 19,
        "register\",\"dataArray\":"@.len() == 22,
        "message\",\"dataArray\":"@.len() == 21,
{
    reveal_strlit("users");
    reveal_strlit("register");
    reveal_strlit("message");
    reveal_strlit("\",\"dataArray\":");
    reveal_strlit("users\",\"dataArray\":");
    reveal_strlit("register\",\"dataArray\":");
    reveal_strlit("message\",\"dataArray\":");
    assert(enc_tag(MsgTypes::Users) + "\",\"dataArray\":"@ =~= "users\",\"dataArray\":"@);
    assert(enc_tag(MsgTypes::Register) + "\",\"dataArray\":"@ =~= "register\",\"dataArray\":"@);
    assert(enc_tag(MsgTypes::Message) + "\",\"dataArray\":"@ =~= "message\",\"dataArray\":"@);
}

/// Decomposition of a canonical envelope text into its segments.
proof fn lemma_enc_envelope_parts(s: Seq<char>, e: EnvelopeView)
    requires
        s == enc_envelope(e),
    ensures
        s.len() == data_pos(e) + enc_opt_string(e.data).len() + 1,
        lit_at(s, 0, "{\"messageType\":\""@),
        lit_at(
            s,
            "{\"messageType\":\""@.len() as int,
            enc_tag(e.message_type) + "\",\"dataArray\":"@,
        ),
        s.subrange(arr_pos(e), arr_pos(e) + enc_array(e.data_array).len()) == enc_array(
            e.data_array,
        ),
        lit_at(s, arr_pos(e) + enc_array(e.data_array).len(), ",\"data\":"@),
        s.subrange(data_pos(e), data_pos(e) + enc_opt_string(e.data).len()) == enc_opt_string(
            e.data,
        ),
        s[s.len() - 1] == '}',
        enc_array(e.data_array).len() >= 2 || e.data_array is None,
        e.data_array is None ==> enc_array(e.data_array).len() == 4,
{
    let p0 = "{\"messageType\":\""@;
    let tg = enc_tag(e.message_type) + "\",\"dataArray\":"@;
    let ar = enc_array(e.data_array);
    let p3 = ",\"data\":"@;
    let dt = enc_opt_string(e.data);
    let p4 = "}"@;
    reveal_strlit("}");
    reveal_strlit("null");
    assert(p4.len() == 1);
    assert(s =~= p0 + (tg + (ar + (p3 + (dt + p4)))));
    assert(s.subrange(0, s.len() as int) =~= s);
    lemma_split_parts(s, 0, p0, tg + (ar + (p3 + (dt + p4))));
    lemma_split_parts(s, p0.len() as int, tg, ar + (p3 + (dt + p4)));
    lemma_split_parts(s, (p0.len() + tg.len()) as int, ar, p3 + (dt + p4));
    lemma_split_parts(s, (p0.len() + tg.len() + ar.len()) as int, p3, dt + p4);
    lemma_split_parts(s, (p0.len() + tg.len() + ar.len() + p3.len()) as int, dt, p4);
    assert(s.subrange(s.len() - 1, s.len() as int)[0] == '}');
    match e.data_array {
        Option::None => {
            assert(ar =~= "null"@);
        },
        Option::Some(v) => {
            assert(ar.len() == 2 + enc_items(v).len());
        },
    }
}


/// Pins the tag: a combined tag literal standing at the tag position of a
/// canonical envelope text determines the envelope's tag.
proof fn lemma_env_tag_pin(s: Seq<char>, e2: EnvelopeView, tag: MsgTypes, lit: Seq<char>)
    requires
        s == enc_envelope(e2),
        lit == enc_tag(tag) + "\",\"dataArray\":"@,
        lit_at(s, "{\"messageType\":\""@.len() as int, lit),
    ensures
        e2.message_type == tag,
        arr_pos(e2) == "{\"messageType\":\""@.len() + lit.len(),
{
    lemma_tag_literals();
    lemma_enc_envelope_parts(s, e2);
    let i0 = "{\"messageType\":\""@.len() as int;
    let tg2 = enc_tag(e2.message_type) + "\",\"dataArray\":"@;
    match e2.message_type {
        MsgTypes::Users => {
            assert(tg2 == "users\",\"dataArray\":"@);
            assert(tg2[0] == 'u');
        },
        MsgTypes::Register => {
            assert(tg2 == "register\",\"dataArray\":"@);
            assert(tg2[0] == 'r');
        },
        MsgTypes::Message => {
            assert(tg2 == "message\",\"dataArray\":"@);
            assert(tg2[0] == 'm');
        },
    }
    match tag {
        MsgTypes::Users => {
            assert(lit[0] == 'u');
        },
        MsgTypes::Register => {
            assert(lit[0] == 'r');
        },
        MsgTypes::Message => {
            assert(lit[0] == 'm');
        },
    }
    assert(s.subrange(i0, i0 + tg2.len())[0] == s[i0]);
    assert(s.subrange(i0, i0 + lit.len())[0] == s[i0]);
    assert(tg2[0] == lit[0]);
}

/// Stitches the parsed segments back together: a text made of the canonical
/// segments of an envelope is that envelope's canonical text.
proof fn lemma_env_assemble(
    s: Seq<char>,
    env: EnvelopeView,
    i0: int,
    i1: int,
    i2: int,
    i3: int,
    i4: int,
)
    requires
        0 <= i0 <= i1 <= i2 <= i3 <= i4 < s.len(),
        i4 + 1 == s.len(),
        s.subrange(0, i0) == "{\"messageType\":\""@,
        s.subrange(i0, i1) == enc_tag(env.message_type) + "\",\"dataArray\":"@,
        s.subrange(i1, i2) == enc_array(env.data_array),
        s.subrange(i2, i3) == ",\"data\":"@,
        s.subrange(i3, i4) == enc_opt_string(env.data),
        s[i4] == '}',
    ensures
        s == enc_envelope(env),
{
    lemma_join_parts(s, 0, i0, i1);
    lemma_join_parts(s, 0, i1, i2);
    lemma_join_parts(s, 0, i2, i3);
    lemma_join_parts(s, 0, i3, i4);
    lemma_join_parts(s, 0, i4, s.len() as int);
    reveal_strlit("}");
    assert(s.subrange(i4, s.len() as int) =~= "}"@);
    assert(s.subrange(0, s.len() as int) =~= s);
    assert(s =~= enc_envelope(env));
}


/// The wire form of a `dataArray` value stands at `i`.
pub open spec fn arr_at(s: Seq<char>, i: int, a: Option<Seq<Seq<char>>>) -> bool {
    0 <= i && i + enc_array(a).len() <= s.len() && s.subrange(i, i + enc_array(a).len())
        == enc_array(a)
}

/// The wire form of a `data` value stands at `i`.
pub open spec fn optstr_at(s: Seq<char>, i: int, d: Option<Seq<char>>) -> bool {
    0 <= i && i + enc_opt_string(d).len() <= s.len() && s.subrange(i, i + enc_opt_string(d).len())
        == enc_opt_string(d)
}

/// What an array value standing at `i` looks like from the text side.
proof fn lemma_arr_at_facts(s: Seq<char>, i: int, a: Option<Seq<Seq<char>>>)
    requires
        arr_at(s, i, a),
    ensures
        i + 2 <= s.len(),
        a is None ==> s[i] == 'n' && lit_at(s, i, "null"@) && enc_array(a).len() == 4,
        a is Some ==> s[i] == '[' && (a->0.len() == 0 <==> s[i + 1] == ']') && (a->0.len() == 0
            ==> enc_array(a).len() == 2) && (a->0.len() > 0 ==> items_at(s, i + 1, a->0)),
{
    reveal_strlit("null");
    let ar = enc_array(a);
    assert(s.subrange(i, i + ar.len())[0] == s[i]);
    match a {
        Option::None => {
            assert(ar == "null"@);
            assert(ar[0] == 'n');
        },
        Option::Some(v) => {
            assert(ar == seq!['['] + enc_items(v) + seq![']']);
            assert(ar[0] == '[');
            assert(s.subrange(i, i + ar.len())[1] == s[i + 1]);
            if v.len() == 0 {
                assert(ar =~= seq!['[', ']']);
                assert(s[i + 1] == ']');
            } else {
                assert(enc_items(v)[0] == quoted(v[0])[0]);
                assert(quoted(v[0])[0] == '"');
                assert(ar[1] == enc_items(v)[0]);
                assert(s[i + 1] == '"');
                assert(ar =~= seq!['['] + (enc_items(v) + seq![']']));
                lemma_split_parts(s, i, seq!['['], enc_items(v) + seq![']']);
            }
        },
    }
}

/// What a data value standing at `i` looks like from the text side.
proof fn lemma_optstr_at_facts(s: Seq<char>, i: int, d: Option<Seq<char>>)
    requires
        optstr_at(s, i, d),
    ensures
        i + 2 <= s.len(),
        d is None ==> s[i] == 'n' && lit_at(s, i, "null"@) && enc_opt_string(d).len() == 4,
        d is Some ==> s[i] == '"' && quoted_at(s, i, d->0),
{
    reveal_strlit("null");
    let dt = enc_opt_string(d);
    assert(s.subrange(i, i + dt.len())[0] == s[i]);
    match d {
        Option::None => {
            assert(dt == "null"@);
            assert(dt[0] == 'n');
        },
        Option::Some(t) => {
            assert(dt == quoted(t));
            assert(dt[0] == '"');
        },
    }
}

/// The views of an optional vector of strings.
pub open spec fn opt_str_views(v: Option<Vec<String>>) -> Option<Seq<Seq<char>>> {
    match v {
        Option::None => Option::None,
        Option::Some(vec) => Option::Some(str_views(vec@)),
    }
}

/// Parses the `dataArray` value: `null` or a bracketed list of quoted
/// strings, strictly canonical.
#[verifier::rlimit(50)]
fn parse_array_value(s: &str, i: usize) -> (r: Option<(Option<Vec<String>>, usize)>)
    requires
        i <= s@.len(),
    ensures
        match r {
            Option::Some(p) => {
                &&& i <= p.1 <= s@.len()
                &&& p.1 == i + enc_array(opt_str_views(p.0)).len()
                &&& s@.subrange(i as int, p.1 as int) == enc_array(opt_str_views(p.0))
                &&& forall|a2: Option<Seq<Seq<char>>>| arr_at(s@, i as int, a2) ==> a2
                    == opt_str_views(p.0)
            },
            Option::None => forall|a2: Option<Seq<Seq<char>>>| !arr_at(s@, i as int, a2),
        },
{
    let sn = s.unicode_len();
    if i >= sn {
        proof {
            assert forall|a2: Option<Seq<Seq<char>>>| !arr_at(s@, i as int, a2) by {
                if arr_at(s@, i as int, a2) {
                    lemma_arr_at_facts(s@, i as int, a2);
                }
            }
        }
        return Option::None;
    }
    let c = s.get_char(i);
    if c == 'n' {
        match expect_lit(s, i, "null") {
            Option::Some(j) => {
                proof {
                    reveal_strlit("null");
                    assert(s@.subrange(i as int, j as int) == enc_array(Option::None));
                    assert forall|a2: Option<Seq<Seq<char>>>|
                        arr_at(s@, i as int, a2) implies a2 == opt_str_views(
                        Option::<Vec<String>>::None,
                    ) by {
                        lemma_arr_at_facts(s@, i as int, a2);
                    }
                }
                Option::Some((Option::None, j))
            },
            Option::None => {
                proof {
                    reveal_strlit("null");
                    assert forall|a2: Option<Seq<Seq<char>>>| !arr_at(s@, i as int, a2) by {
                        if arr_at(s@, i as int, a2) {
                            lemma_arr_at_facts(s@, i as int, a2);
                        }
                    }
                }
                Option::None
            },
        }
    } else if c == '[' {
        if i + 1 >= sn {
            proof {
                reveal_strlit("null");
                assert forall|a2: Option<Seq<Seq<char>>>| !arr_at(s@, i as int, a2) by {
                    if arr_at(s@, i as int, a2) {
                        lemma_arr_at_facts(s@, i as int, a2);
                    }
                }
            }
            return Option::None;
        }
        let c2 = s.get_char(i + 1);
        if c2 == ']' {
            let out: Option<Vec<String>> = Option::Some(Vec::new());
            proof {
                reveal_strlit("null");
                assert(opt_str_views(out) == Option::Some(str_views(Seq::<String>::empty())));
                assert(str_views(Seq::<String>::empty()) =~= Seq::<Seq<char>>::empty());
                assert(enc_array(opt_str_views(out)) =~= seq!['[', ']']);
                assert(s@.subrange(i as int, i + 2 as int) =~= seq!['[', ']']);
                assert forall|a2: Option<Seq<Seq<char>>>|
                    arr_at(s@, i as int, a2) implies a2 == opt_str_views(out) by {
                    lemma_arr_at_facts(s@, i as int, a2);
                    assert(a2->0 =~= Seq::<Seq<char>>::empty());
                }
            }
            Option::Some((out, i + 2))
        } else {
            match parse_items(s, i + 1) {
                Option::Some(p) => {
                    let ghost itemsv: Seq<String> = p.0@;
                    let j = p.1;
                    let out: Option<Vec<String>> = Option::Some(p.0);
                    proof {
                        reveal_strlit("null");
                        assert(opt_str_views(out) == Option::Some(str_views(itemsv)));
                        lemma_join_parts(s@, i as int, i + 1 as int, j as int);
                        assert(s@.subrange(i as int, i + 1 as int) =~= seq!['[']);
                        assert(enc_array(opt_str_views(out)) =~= seq!['['] + (enc_items(
                            str_views(itemsv),
                        ) + seq![']']));
                        assert(s@.subrange(i as int, j as int) == enc_array(opt_str_views(out)));
                        assert forall|a2: Option<Seq<Seq<char>>>|
                            arr_at(s@, i as int, a2) implies a2 == opt_str_views(out) by {
                            lemma_arr_at_facts(s@, i as int, a2);
                            assert(a2 is Some);
                            assert(a2->0.len() > 0);
                            assert(items_at(s@, i + 1 as int, a2->0));
                            assert(a2->0 == str_views(itemsv));
                        }
                    }
                    Option::Some((out, j))
                },
                Option::None => {
                    proof {
                        reveal_strlit("null");
                        assert forall|a2: Option<Seq<Seq<char>>>| !arr_at(s@, i as int, a2) by {
                            if arr_at(s@, i as int, a2) {
                                lemma_arr_at_facts(s@, i as int, a2);
                                assert(a2 is Some);
                                assert(a2->0.len() > 0);
                                assert(items_at(s@, i + 1 as int, a2->0));
                            }
                        }
                    }
                    Option::None
                },
            }
        }
    } else {
        proof {
            reveal_strlit("null");
            assert forall|a2: Option<Seq<Seq<char>>>| !arr_at(s@, i as int, a2) by {
                if arr_at(s@, i as int, a2) {
                    lemma_arr_at_facts(s@, i as int, a2);
                }
            }
        }
        Option::None
    }
}

/// The view of an optional string.
pub open spec fn opt_str_view(v: Option<String>) -> Option<Seq<char>> {
    match v {
        Option::None => Option::None,
        Option::Some(t) => Option::Some(t@),
    }
}

/// Parses the `data` value: `null` or a quoted string, strictly canonical.
#[verifier::rlimit(50)]
fn parse_opt_string(s: &str, i: usize) -> (r: Option<(Option<String>, usize)>)
    requires
        i <= s@.len(),
    ensures
        match r {
            Option::Some(p) => {
                &&& i <= p.1 <= s@.len()
                &&& p.1 == i + enc_opt_string(opt_str_view(p.0)).len()
                &&& s@.subrange(i as int, p.1 as int) == enc_opt_string(opt_str_view(p.0))
                &&& forall|d2: Option<Seq<char>>| optstr_at(s@, i as int, d2) ==> d2
                    == opt_str_view(p.0)
            },
            Option::None => forall|d2: Option<Seq<char>>| !optstr_at(s@, i as int, d2),
        },
{
    let sn = s.unicode_len();
    if i >= sn {
        proof {
            assert forall|d2: Option<Seq<char>>| !optstr_at(s@, i as int, d2) by {
                if optstr_at(s@, i as int, d2) {
                    lemma_optstr_at_facts(s@, i as int, d2);
                }
            }
        }
        return Option::None;
    }
    let c = s.get_char(i);
    if c == 'n' {
        match expect_lit(s, i, "null") {
            Option::Some(j) => {
                proof {
                    reveal_strlit("null");
                    assert(s@.subrange(i as int, j as int) == enc_opt_string(Option::None));
                    assert forall|d2: Option<Seq<char>>|
                        optstr_at(s@, i as int, d2) implies d2 == opt_str_view(
                        Option::<String>::None,
                    ) by {
                        lemma_optstr_at_facts(s@, i as int, d2);
                    }
                }
                Option::Some((Option::None, j))
            },
            Option::None => {
                proof {
                    reveal_strlit("null");
                    assert forall|d2: Option<Seq<char>>| !optstr_at(s@, i as int, d2) by {
                        if optstr_at(s@, i as int, d2) {
                            lemma_optstr_at_facts(s@, i as int, d2);
                        }
                    }
                }
                Option::None
            },
        }
    } else if c == '"' {
        match parse_quoted(s, i) {
            Option::Some(p) => {
                let j = p.1;
                let out: Option<String> = Option::Some(p.0);
                proof {
                    reveal_strlit("null");
                    assert forall|d2: Option<Seq<char>>|
                        optstr_at(s@, i as int, d2) implies d2 == opt_str_view(out) by {
                        lemma_optstr_at_facts(s@, i as int, d2);
                        assert(d2 is Some);
                        assert(quoted_at(s@, i as int, d2->0));
                    }
                }
                Option::Some((out, j))
            },
            Option::None => {
                proof {
                    reveal_strlit("null");
                    assert forall|d2: Option<Seq<char>>| !optstr_at(s@, i as int, d2) by {
                        if optstr_at(s@, i as int, d2) {
                            lemma_optstr_at_facts(s@, i as int, d2);
                            assert(quoted_at(s@, i as int, d2->0));
                        }
                    }
                }
                Option::None
            },
        }
    } else {
        proof {
            reveal_strlit("null");
            assert forall|d2: Option<Seq<char>>| !optstr_at(s@, i as int, d2) by {
                if optstr_at(s@, i as int, d2) {
                    lemma_optstr_at_facts(s@, i as int, d2);
                }
            }
        }
        Option::None
    }
}

/// Every segment of a canonical envelope text stands at its place.
proof fn lemma_env_pins(s: Seq<char>, e2: EnvelopeView)
    requires
        s == enc_envelope(e2),
    ensures
        lit_at(s, 0, "{\"messageType\":\""@),
        lit_at(
            s,
            "{\"messageType\":\""@.len() as int,
            enc_tag(e2.message_type) + "\",\"dataArray\":"@,
        ),
        arr_at(s, arr_pos(e2), e2.data_array),
        lit_at(s, arr_pos(e2) + enc_array(e2.data_array).len(), ",\"data\":"@),
        optstr_at(s, data_pos(e2), e2.data),
        s.len() == data_pos(e2) + enc_opt_string(e2.data).len() + 1,
        s[s.len() - 1] == '}',
{
    lemma_enc_envelope_parts(s, e2);
}

/// Only one string body can stand at a position: the escapes form a prefix
/// code and the closing quote is unmistakable.
proof fn lemma_body_unique(s: Seq<char>, i: int, t1: Seq<char>, t2: Seq<char>)
    requires
        body_at(s, i, t1),
        body_at(s, i, t2),
    ensures
        t1 == t2,
    decreases t1.len(), t2.len(),
{
    assert(s[i] == (escseq(t1) + seq!['"'])[0]) by {
        assert(s.subrange(i, i + escseq(t1).len() + 1)[0] == s[i]);
    }
    assert(s[i] == (escseq(t2) + seq!['"'])[0]) by {
        assert(s.subrange(i, i + escseq(t2).len() + 1)[0] == s[i]);
    }
    if t1.len() == 0 {
        if t2.len() > 0 {
            lemma_body_at_head(s, i, t2);
            lemma_esc_char_facts(t2[0]);
            assert(s[i] == '"');
            assert((escseq(t2) + seq!['"'])[0] == esc_char(t2[0])[0]);
        }
        assert(t1 =~= t2);
    } else if t2.len() == 0 {
        lemma_body_unique(s, i, t2, t1);
    } else {
        lemma_body_at_head(s, i, t1);
        lemma_body_at_head(s, i, t2);
        lemma_esc_prefix_unique(s, i, t1[0], t2[0]);
        assert(esc_char(t1[0]).len() == esc_char(t2[0]).len());
        lemma_body_unique(s, i + esc_char(t1[0]).len(), t1.drop_first(), t2.drop_first());
        assert(t1.len() == t2.len());
        assert forall|k: int| 0 <= k < t1.len() implies t1[k] == t2[k] by {
            if k > 0 {
                assert(t1[k] == t1.drop_first()[k - 1]);
                assert(t2[k] == t2.drop_first()[k - 1]);
            }
        }
        assert(t1 =~= t2);
    }
}

/// Only one quoted string can stand at a position.
proof fn lemma_quoted_unique(s: Seq<char>, i: int, t1: Seq<char>, t2: Seq<char>)
    requires
        quoted_at(s, i, t1),
        quoted_at(s, i, t2),
    ensures
        t1 == t2,
{
    lemma_quoted_to_body(s, i, t1);
    lemma_quoted_to_body(s, i, t2);
    lemma_body_unique(s, i + 1, t1, t2);
}

/// Only one item list can stand at a position.
proof fn lemma_items_unique(s: Seq<char>, i: int, v1: Seq<Seq<char>>, v2: Seq<Seq<char>>)
    requires
        items_at(s, i, v1),
        items_at(s, i, v2),
    ensures
        v1 == v2,
    decreases v1.len(),
{
    lemma_items_at_head(s, i, v1);
    lemma_items_at_head(s, i, v2);
    lemma_quoted_unique(s, i, v1[0], v2[0]);
    let q = quoted(v1[0]).len() as int;
    assert(quoted(v2[0]).len() == q);
    if v1.len() == 1 && v2.len() == 1 {
        assert(v1 =~= v2);
    } else if v1.len() == 1 {
        assert(v2.len() > 1);
        assert(s[i + q] == ']');
        assert(s[i + q] == ',');
    } else if v2.len() == 1 {
        assert(v1.len() > 1);
        assert(s[i + q] == ']');
        assert(s[i + q] == ',');
    } else {
        lemma_items_unique(s, i + q + 1, v1.drop_first(), v2.drop_first());
        assert(v1.len() == v2.len());
        assert forall|k: int| 0 <= k < v1.len() implies v1[k] == v2[k] by {
            if k > 0 {
                assert(v1[k] == v1.drop_first()[k - 1]);
                assert(v2[k] == v2.drop_first()[k - 1]);
            }
        }
        assert(v1 =~= v2);
    }
}

/// Only one array value can stand at a position.
proof fn lemma_arr_unique(
    s: Seq<char>,
    i: int,
    a1: Option<Seq<Seq<char>>>,
    a2: Option<Seq<Seq<char>>>,
)
    requires
        arr_at(s, i, a1),
        arr_at(s, i, a2),
    ensures
        a1 == a2,
{
    lemma_arr_at_facts(s, i, a1);
    lemma_arr_at_facts(s, i, a2);
    if a1 is Some && a2 is Some {
        let v1 = a1->0;
        let v2 = a2->0;
        if s[i + 1] == ']' {
            assert(v1 =~= v2);
        } else {
            lemma_items_unique(s, i + 1, v1, v2);
        }
        assert(a1 == a2);
    }
}

/// Only one data value can stand at a position.
proof fn lemma_optstr_unique(s: Seq<char>, i: int, d1: Option<Seq<char>>, d2: Option<Seq<char>>)
    requires
        optstr_at(s, i, d1),
        optstr_at(s, i, d2),
    ensures
        d1 == d2,
{
    lemma_optstr_at_facts(s, i, d1);
    lemma_optstr_at_facts(s, i, d2);
    if d1 is Some && d2 is Some {
        lemma_quoted_unique(s, i, d1->0, d2->0);
        assert(d1 == d2);
    }
}

/// The canonical encoding is injective: two envelopes with the same
/// canonical text are the same envelope.
pub proof fn lemma_enc_envelope_injective(a: EnvelopeView, b: EnvelopeView)
    requires
        enc_envelope(a) == enc_envelope(b),
    ensures
        a == b,
{
    let s = enc_envelope(a);
    lemma_env_pins(s, a);
    lemma_env_pins(s, b);
    lemma_tag_literals();
    lemma_env_tag_pin(s, b, a.message_type, enc_tag(a.message_type) + "\",\"dataArray\":"@);
    assert(arr_pos(a) == arr_pos(b));
    lemma_arr_unique(s, arr_pos(a), a.data_array, b.data_array);
    assert(data_pos(a) == data_pos(b));
    lemma_optstr_unique(s, data_pos(a), a.data, b.data);
}

/// Decodes a wire envelope. Accepts exactly the canonical encodings:
/// decoding succeeds, with the one envelope that encodes to the input, if
/// and only if some envelope does; every other input is `MalformedEnvelope`.
/// Together with [`encode_envelope`] this pins the round trip down: decoding
/// an encoded envelope yields that envelope back.
#[verifier::rlimit(100)]
pub fn decode_envelope(s: &str) -> (r: Result<Envelope, SessionError>)
    ensures
        match r {
            Result::Ok(env) => s@ == enc_envelope(env@) && (forall|e2: EnvelopeView|
                s@ == enc_envelope(e2) ==> e2 == env@),
            Result::Err(er) => er == SessionError::MalformedEnvelope && (forall|e2: EnvelopeView|
                s@ != enc_envelope(e2)),
        },
{
    let sn = s.unicode_len();
    let i0 = match expect_lit(s, 0, "{\"messageType\":\"") {
        Option::Some(j) => j,
        Option::None => {
            proof {
                assert forall|e2: EnvelopeView| s@ != enc_envelope(e2) by {
                    if s@ == enc_envelope(e2) {
                        lemma_env_pins(s@, e2);
                    }
                }
            }
            return Result::Err(SessionError::MalformedEnvelope);
        },
    };
    let tag: MsgTypes;
    let i1: usize;
    let r_users = expect_lit(s, i0, "users\",\"dataArray\":");
    let r_register = expect_lit(s, i0, "register\",\"dataArray\":");
    let r_message = expect_lit(s, i0, "message\",\"dataArray\":");
    match (r_users, r_register, r_message) {
        (Option::Some(j), _, _) => {
            tag = MsgTypes::Users;
            i1 = j;
        },
        (_, Option::Some(j), _) => {
            tag = MsgTypes::Register;
            i1 = j;
        },
        (_, _, Option::Some(j)) => {
            tag = MsgTypes::Message;
            i1 = j;
        },
        _ => {
            proof {
                lemma_tag_literals();
                assert forall|e2: EnvelopeView| s@ != enc_envelope(e2) by {
                    if s@ == enc_envelope(e2) {
                        lemma_env_pins(s@, e2);
                    }
                }
            }
            return Result::Err(SessionError::MalformedEnvelope);
        },
    }
    let ghost tlit: Seq<char> = if tag == MsgTypes::Users {
        "users\",\"dataArray\":"@
    } else if tag == MsgTypes::Register {
        "register\",\"dataArray\":"@
    } else {
        "message\",\"dataArray\":"@
    };
    proof {
        lemma_tag_literals();
        assert(lit_at(s@, i0 as int, tlit));
        assert(i1 == i0 + tlit.len());
        assert forall|e2: EnvelopeView|
            s@ == enc_envelope(e2) implies e2.message_type == tag && i1 == arr_pos(e2) by {
            lemma_env_tag_pin(s@, e2, tag, tlit);
        }
    }
    let arr_parsed = parse_array_value(s, i1);
    let data_array: Option<Vec<String>>;
    let i2: usize;
    match arr_parsed {
        Option::Some(p) => {
            data_array = p.0;
            i2 = p.1;
            proof {
                assert forall|e2: EnvelopeView|
                    s@ == enc_envelope(e2) implies e2.data_array == opt_str_views(data_array) && i2
                    == arr_pos(e2) + enc_array(e2.data_array).len() by {
                    lemma_env_pins(s@, e2);
                }
            }
        },
        Option::None => {
            proof {
                assert forall|e2: EnvelopeView| s@ != enc_envelope(e2) by {
                    if s@ == enc_envelope(e2) {
                        lemma_env_pins(s@, e2);
                    }
                }
            }
            return Result::Err(SessionError::MalformedEnvelope);
        },
    }
    let i3 = match expect_lit(s, i2, ",\"data\":") {
        Option::Some(j) => j,
        Option::None => {
            proof {
                assert forall|e2: EnvelopeView| s@ != enc_envelope(e2) by {
                    if s@ == enc_envelope(e2) {
                        lemma_env_pins(s@, e2);
                    }
                }
            }
            return Result::Err(SessionError::MalformedEnvelope);
        },
    };
    proof {
        assert forall|e2: EnvelopeView| s@ == enc_envelope(e2) implies i3 == data_pos(e2) by {
            lemma_env_pins(s@, e2);
        }
    }
    let data_parsed = parse_opt_string(s, i3);
    let data: Option<String>;
    let i4: usize;
    match data_parsed {
        Option::Some(p) => {
            data = p.0;
            i4 = p.1;
            proof {
                assert forall|e2: EnvelopeView|
                    s@ == enc_envelope(e2) implies e2.data == opt_str_view(data) && i4 == data_pos(
                    e2,
                ) + enc_opt_string(e2.data).len() by {
                    lemma_env_pins(s@, e2);
                }
            }
        },
        Option::None => {
            proof {
                assert forall|e2: EnvelopeView| s@ != enc_envelope(e2) by {
                    if s@ == enc_envelope(e2) {
                        lemma_env_pins(s@, e2);
                    }
                }
            }
            return Result::Err(SessionError::MalformedEnvelope);
        },
    }
    if i4 >= sn {
        proof {
            assert forall|e2: EnvelopeView| s@ != enc_envelope(e2) by {
                if s@ == enc_envelope(e2) {
                    lemma_env_pins(s@, e2);
                }
            }
        }
        return Result::Err(SessionError::MalformedEnvelope);
    }
    let cb = s.get_char(i4);
    if cb != '}' || i4 + 1 != sn {
        proof {
            assert forall|e2: EnvelopeView| s@ != enc_envelope(e2) by {
                if s@ == enc_envelope(e2) {
                    lemma_env_pins(s@, e2);
                    assert(s@.len() == i4 + 1);
                }
            }
        }
        return Result::Err(SessionError::MalformedEnvelope);
    }
    let env = Envelope { message_type: tag, data_array, data };
    proof {
        assert(env@.data_array == opt_str_views(env.data_array)) by {
            match env.data_array {
                Option::None => {
                },
                Option::Some(v) => {
                    assert(env@.data_array->0 =~= str_views(v@));
                },
            }
        }
        assert(env@.data == opt_str_view(env.data));
        lemma_env_assemble(s@, env@, i0 as int, i1 as int, i2 as int, i3 as int, i4 as int);
        assert forall|e2: EnvelopeView| s@ == enc_envelope(e2) implies e2 == env@ by {
            assert(e2.message_type == env@.message_type);
            assert(e2.data_array == env@.data_array);
            assert(e2.data == env@.data);
        }
    }
    Result::Ok(env)
}

} // verus!
