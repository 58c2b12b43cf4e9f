use vstd::prelude::*;
use vstd::string::StrSliceExecFns;
use vstd::string::StringExecFns;

use crate::storage::{Entry, EntryModel};
use crate::value::{MetricValue, ValueModel};

verus! {

/// The code point of `c`.
pub open spec fn code(c: char) -> int {
    (c as u32) as int
}

/// The character with code point `n`.
pub open spec fn char_of(n: int) -> char {
    choose|c: char| #[trigger] code(c) == n
}

pub proof fn lemma_char_of_code(c: char)
    ensures
        char_of(code(c)) == c,
{
    assert(code(c) == (c as u32) as int);
}

/// Digit `d` (below 16) in lower-case hexadecimal.
pub open spec fn hex_digit(d: int) -> char {
    if d < 10 {
        char_of(48 + d)
    } else {
        char_of(87 + d)
    }
}

/// One character as it stands inside a JSON string.
pub open spec fn escape_char(c: char) -> Seq<char> {
    if c == '"' {
        seq!['\\', '"']
    } else if c == '\\' {
        seq!['\\', '\\']
    } else if code(c) < 32 {
        seq!['\\', 'u', '0', '0', hex_digit(code(c) / 16), hex_digit(code(c) % 16)]
    } else {
        seq![c]
    }
}

/// A text as it stands inside a JSON string.
pub open spec fn escape(s: Seq<char>) -> Seq<char>
    decreases s.len(),
{
    if s.len() == 0 {
        Seq::empty()
    } else {
        escape_char(s[0]) + escape(s.drop_first())
    }
}

/// Escaping works piece by piece.
pub proof fn lemma_escape_concat(a: Seq<char>, b: Seq<char>)
    ensures
        escape(a + b) == escape(a) + escape(b),
    decreases a.len(),
{
    if a.len() == 0 {
        assert(a + b =~= b);
        assert(escape(a) + escape(b) =~= escape(b));
    } else {
        lemma_escape_concat(a.drop_first(), b);
        assert((a + b).drop_first() =~= a.drop_first() + b);
        assert(escape(a + b) =~= escape(a) + escape(b));
    }
}

pub proof fn lemma_escape_one(c: char)
    ensures
        escape(seq![c]) == escape_char(c),
{
    let rest = seq![c].drop_first();
    assert(rest =~= Seq::<char>::empty());
    assert(escape(rest) == Seq::<char>::empty());
    assert(escape(seq![c]) == escape_char(c) + escape(rest));
    assert(escape(seq![c]) =~= escape_char(c));
}

/// `n` in decimal, without leading zeros.
pub open spec fn decimal(n: nat) -> Seq<char>
    decreases n,
{
    if n < 10 {
        seq![hex_digit(n as int)]
    } else {
        decimal(n / 10) + seq![hex_digit((n % 10) as int)]
    }
}

/// The section a value is listed under: 0 boolean, 1 counter, 2 string.
pub open spec fn kind_of(v: ValueModel) -> int {
    match v {
        ValueModel::Boolean(_) => 0,
        ValueModel::Counter(_) => 1,
        ValueModel::Text(_) => 2,
    }
}

/// A value in JSON.
pub open spec fn value_text(v: ValueModel) -> Seq<char> {
    match v {
        ValueModel::Boolean(b) => if b {
            "true"@
        } else {
            "false"@
        },
        ValueModel::Counter(n) => decimal(n as nat),
        ValueModel::Text(t) => "\""@ + escape(t) + "\""@,
    }
}

/// One metric in JSON: `"category.name":value`.
pub open spec fn item_text(e: EntryModel) -> Seq<char> {
    "\""@ + escape(e.category) + "."@ + escape(e.name) + "\":"@ + value_text(e.value)
}

/// The members of one section: the entries of kind `kind`, comma-separated,
/// in order.
pub open spec fn section(es: Seq<EntryModel>, kind: int) -> Seq<char>
    decreases es.len(),
{
    if es.len() == 0 {
        Seq::empty()
    } else {
        let rest = section(es.drop_first(), kind);
        if kind_of(es[0].value) != kind {
            rest
        } else if rest.len() == 0 {
            item_text(es[0])
        } else {
            item_text(es[0]) + ","@ + rest
        }
    }
}

/// Appending an entry appends its item, after a comma when the section
/// already has one.
pub proof fn lemma_section_push(es: Seq<EntryModel>, e: EntryModel, kind: int)
    ensures
        section(es.push(e), kind) == if kind_of(e.value) != kind {
            section(es, kind)
        } else if section(es, kind).len() == 0 {
            item_text(e)
        } else {
            section(es, kind) + ","@ + item_text(e)
        },
    decreases es.len(),
{
    reveal_strlit("\"");
    assert(item_text(e).len() > 0);
    let t = es.push(e);
    if es.len() == 0 {
        assert(t.drop_first() =~= Seq::<EntryModel>::empty());
        assert(section(t.drop_first(), kind) == Seq::<char>::empty());
        assert(t[0] == e);
        assert(section(es, kind) == Seq::<char>::empty());
    } else {
        let es1 = es.drop_first();
        lemma_section_push(es1, e, kind);
        assert(t.drop_first() =~= es1.push(e));
        assert(t[0] == es[0]);
        let rest = section(es1, kind);
        let rest2 = section(es1.push(e), kind);
        assert(item_text(es[0]).len() > 0);
        if kind_of(es[0].value) == kind {
            assert(section(t, kind) == if rest2.len() == 0 {
                item_text(es[0])
            } else {
                item_text(es[0]) + ","@ + rest2
            });
            assert(section(es, kind) == if rest.len() == 0 {
                item_text(es[0])
            } else {
                item_text(es[0]) + ","@ + rest
            });
            if kind_of(e.value) == kind {
                if rest.len() == 0 {
                    assert(section(t, kind) =~= section(es, kind) + ","@ + item_text(e));
                } else {
                    assert(section(t, kind) =~= section(es, kind) + ","@ + item_text(e));
                }
            }
        } else {
            assert(section(t, kind) == rest2);
            assert(section(es, kind) == rest);
        }
    }
}

/// The serialized ping `name` with sequence number `seq`, collection time
/// `time`, the client's identifier `client_id` and metrics `es`.
pub open spec fn ping_text(
    name: Seq<char>,
    seq: u64,
    time: u64,
    client_id: Seq<char>,
    es: Seq<EntryModel>,
) -> Seq<char> {
    "{\"ping_info\":{\"ping_name\":\""@ + (escape(name) + ("\""@ + (",\"seq\":"@ + (decimal(seq as nat)
        + (",\"time\":"@ + (decimal(time as nat) + (",\"client_id\":\""@ + (escape(client_id) + ("\""@
        + ("},\"metrics\":{\"boolean\":{"@ + (section(es, 0) + ("}"@ + (",\"counter\":{"@ + (section(es, 1)
        + ("}"@ + (",\"string\":{"@ + (section(es, 2) + ("}"@ + "}}"@))))))))))))))))))
}

/// Relies on `String::push`: appends the one character.
#[verifier::external_body]
pub(crate) fn push_char(out: &mut String, c: char)
    ensures
        final(out)@ == old(out)@.push(c),
{
    out.push(c)
}

fn hex_char(d: u32) -> (c: char)
    requires
        d < 16,
    ensures
        c == hex_digit(d as int),
{
    let b: u8 = if d < 10 {
        48 + d as u8
    } else {
        87 + d as u8
    };
    let c = b as char;
    proof {
        lemma_char_of_code(c);
    }
    c
}

/// Appends `escape(s@)`.
pub fn push_escaped(out: &mut String, s: &str)
    ensures
        final(out)@ == old(out)@ + escape(s@),
{
    let n = s.unicode_len();
    let mut i: usize = 0;
    while i < n
        invariant
            i <= n,
            n == s@.len(),
            out@ == old(out)@ + escape(s@.take(i as int)),
        decreases n - i,
    {
        let c = s.get_char(i);
        proof {
            assert(s@.take(i + 1) =~= s@.take(i as int) + seq![c]);
            lemma_escape_concat(s@.take(i as int), seq![c]);
            lemma_escape_one(c);
        }
        let ghost before = out@;
        if c == '"' {
            push_char(out, '\\');
            push_char(out, '"');
        } else if c == '\\' {
            push_char(out, '\\');
            push_char(out, '\\');
        } else if (c as u32) < 32 {
            push_char(out, '\\');
            push_char(out, 'u');
            push_char(out, '0');
            push_char(out, '0');
            push_char(out, hex_char((c as u32) / 16));
            push_char(out, hex_char((c as u32) % 16));
        } else {
            push_char(out, c);
        }
        assert(out@ =~= before + escape_char(c));
        i += 1;
        assert(out@ =~= old(out)@ + escape(s@.take(i as int)));
    }
    assert(s@.take(i as int) =~= s@);
}

/// Appends `decimal(n)`.
pub fn push_decimal(out: &mut String, n: u64)
    ensures
        final(out)@ == old(out)@ + decimal(n as nat),
    decreases n,
{
    if n >= 10 {
        push_decimal(out, n / 10);
    }
    push_char(out, hex_char((n % 10) as u32));
    assert(out@ =~= old(out)@ + decimal(n as nat));
}

/// Appends `value_text(v@)`.
pub fn push_value(out: &mut String, v: &MetricValue)
    ensures
        final(out)@ == old(out)@ + value_text(v@),
{
    match v {
        MetricValue::Boolean(b) => {
            if *b {
                out.append("true");
            } else {
                out.append("false");
            }
        },
        MetricValue::Counter(n) => push_decimal(out, *n),
        MetricValue::String(t) => {
            out.append("\"");
            push_escaped(out, t.as_str());
            out.append("\"");
            assert(out@ =~= old(out)@ + value_text(v@));
        },
    }
}

fn kind_code(v: &MetricValue) -> (r: u8)
    ensures
        r as int == kind_of(v@),
{
    match v {
        MetricValue::Boolean(_) => 0,
        MetricValue::Counter(_) => 1,
        MetricValue::String(_) => 2,
    }
}

/// Appends `section(es@, kind)`.
pub fn push_section(out: &mut String, es: &Vec<Entry>, kind: u8)
    ensures
        final(out)@ == old(out)@ + section(es@.map_values(|e: Entry| e@), kind as int),
{
    let ghost ms = es@.map_values(|e: Entry| e@);
    let mut first = true;
    let mut i: usize = 0;
    while i < es.len()
        invariant
            i <= es.len(),
            ms == es@.map_values(|e: Entry| e@),
            out@ == old(out)@ + section(ms.take(i as int), kind as int),
            first == (section(ms.take(i as int), kind as int).len() == 0),
        decreases es.len() - i,
    {
        let e = &es[i];
        proof {
            assert(ms.take(i + 1) =~= ms.take(i as int).push(e@));
            lemma_section_push(ms.take(i as int), e@, kind as int);
        }
        if kind_code(&e.value) == kind {
            if !first {
                out.append(",");
            }
            out.append("\"");
            push_escaped(out, e.category.as_str());
            out.append(".");
            push_escaped(out, e.name.as_str());
            out.append("\":");
            push_value(out, &e.value);
            first = false;
            proof {
                reveal_strlit("\"");
            }
        }
        i += 1;
        assert(out@ =~= old(out)@ + section(ms.take(i as int), kind as int));
    }
    assert(ms.take(i as int) =~= ms);
}

/// `ping_text` written as the pieces are appended.
pub open spec fn ping_text_flat(
    name: Seq<char>,
    seq: u64,
    time: u64,
    client_id: Seq<char>,
    es: Seq<EntryModel>,
) -> Seq<char> {
    "{\"ping_info\":{\"ping_name\":\""@ + escape(name) + "\""@ + ",\"seq\":"@ + decimal(seq as nat)
        + ",\"time\":"@ + decimal(time as nat) + ",\"client_id\":\""@ + escape(client_id) + "\""@
        + "},\"metrics\":{\"boolean\":{"@ + section(es, 0) + "}"@ + ",\"counter\":{"@ + section(es, 1)
        + "}"@ + ",\"string\":{"@ + section(es, 2) + "}"@ + "}}"@
}

proof fn lemma_assoc(a: Seq<char>, b: Seq<char>, c: Seq<char>)
    ensures
        a + b + c == a + (b + c),
{
    assert(a + b + c =~= a + (b + c));
}

proof fn lemma_ping_text_flat(
    name: Seq<char>,
    seq: u64,
    time: u64,
    client_id: Seq<char>,
    es: Seq<EntryModel>,
)
    ensures
        ping_text_flat(name, seq, time, client_id, es) == ping_text(name, seq, time, client_id, es),
{
    let x1 = "{\"ping_info\":{\"ping_name\":\""@;
    let x2 = escape(name);
    let x3 = "\""@;
    let x4 = ",\"seq\":"@;
    let x5 = decimal(seq as nat);
    let x6 = ",\"time\":"@;
    let x7 = decimal(time as nat);
    let y1 = ",\"client_id\":\""@;
    let y2 = escape(client_id);
    let y3 = "\""@;
    let x8 = "},\"metrics\":{\"boolean\":{"@;
    let x9 = section(es, 0);
    let x10 = "}"@;
    let x11 = ",\"counter\":{"@;
    let x12 = section(es, 1);
    let x13 = "}"@;
    let x14 = ",\"string\":{"@;
    let x15 = section(es, 2);
    let x16 = "}"@;
    let x17 = "}}"@;
    let r16 = x16 + x17;
    let r15 = x15 + r16;
    let r14 = x14 + r15;
    let r13 = x13 + r14;
    let r12 = x12 + r13;
    let r11 = x11 + r12;
    let r10 = x10 + r11;
    let r9 = x9 + r10;
    let r8 = x8 + r9;
    let s3 = y3 + r8;
    let s2 = y2 + s3;
    let s1 = y1 + s2;
    let r7 = x7 + s1;
    let r6 = x6 + r7;
    let r5 = x5 + r6;
    let r4 = x4 + r5;
    let r3 = x3 + r4;
    let r2 = x2 + r3;
    let l2 = x1 + x2;
    let l3 = l2 + x3;
    let l4 = l3 + x4;
    let l5 = l4 + x5;
    let l6 = l5 + x6;
    let l7 = l6 + x7;
    let m1 = l7 + y1;
    let m2 = m1 + y2;
    let m3 = m2 + y3;
    let l8 = m3 + x8;
    let l9 = l8 + x9;
    let l10 = l9 + x10;
    let l11 = l10 + x11;
    let l12 = l11 + x12;
    let l13 = l12 + x13;
    let l14 = l13 + x14;
    let l15 = l14 + x15;
    let l16 = l15 + x16;
    lemma_assoc(l15, x16, x17);
    lemma_assoc(l14, x15, r16);
    lemma_assoc(l13, x14, r15);
    lemma_assoc(l12, x13, r14);
    lemma_assoc(l11, x12, r13);
    lemma_assoc(l10, x11, r12);
    lemma_assoc(l9, x10, r11);
    lemma_assoc(l8, x9, r10);
    lemma_assoc(m3, x8, r9);
    lemma_assoc(m2, y3, r8);
    lemma_assoc(m1, y2, s3);
    lemma_assoc(l7, y1, s2);
    lemma_assoc(l6, x7, s1);
    lemma_assoc(l5, x6, r7);
    lemma_assoc(l4, x5, r6);
    lemma_assoc(l3, x4, r5);
    lemma_assoc(l2, x3, r4);
    lemma_assoc(x1, x2, r3);
}

/// The serialized ping: `ping_text(name@, seq, time, client_id@, es@)`.
pub fn render_ping(name: &String, seq: u64, time: u64, client_id: &String, es: &Vec<Entry>) -> (r:
    String)
    ensures
        r@ == ping_text(name@, seq, time, client_id@, es@.map_values(|e: Entry| e@)),
{
    let mut out = String::new();
    out.append("{\"ping_info\":{\"ping_name\":\"");
    push_escaped(&mut out, name.as_str());
    out.append("\"");
    out.append(",\"seq\":");
    push_decimal(&mut out, seq);
    out.append(",\"time\":");
    push_decimal(&mut out, time);
    out.append(",\"client_id\":\"");
    push_escaped(&mut out, client_id.as_str());
    out.append("\"");
    out.append("},\"metrics\":{\"boolean\":{");
    push_section(&mut out, es, 0);
    out.append("}");
    out.append(",\"counter\":{");
    push_section(&mut out, es, 1);
    out.append("}");
    out.append(",\"string\":{");
    push_section(&mut out, es, 2);
    out.append("}");
    out.append("}}");
    proof {
        lemma_ping_text_flat(name@, seq, time, client_id@, es@.map_values(|e: Entry| e@));
    }
    assert(out@ == ping_text_flat(name@, seq, time, client_id@, es@.map_values(|e: Entry| e@)));
    out
}

} // verus!
