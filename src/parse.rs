use vstd::prelude::*;

use crate::payload::{
    char_of, code, decimal, escape, escape_char, hex_digit, item_text, kind_of,
    lemma_char_of_code, lemma_escape_concat, lemma_escape_one, ping_text, section, value_text,
};
use crate::storage::EntryModel;
use crate::value::ValueModel;

verus! {

/// A metric as read back from a payload: `category.name` and its value.
pub type Pair = (Seq<char>, ValueModel);

/// The value of a lower-case hexadecimal digit, or -1.
pub open spec fn hex_value(c: char) -> int {
    if 48 <= code(c) <= 57 {
        code(c) - 48
    } else if 97 <= code(c) <= 102 {
        code(c) - 87
    } else {
        -1
    }
}

/// Reads the rest of a JSON string (after its opening quote): the decoded
/// text and how many characters were read, closing quote included.
pub open spec fn read_string(t: Seq<char>) -> Option<(Seq<char>, int)>
    decreases t.len(),
{
    if t.len() == 0 {
        None
    } else if t[0] == '"' {
        Some((Seq::empty(), 1))
    } else if t[0] == '\\' {
        if t.len() >= 2 && (t[1] == '"' || t[1] == '\\') {
            match read_string(t.subrange(2, t.len() as int)) {
                Some((s, n)) => Some((seq![t[1]] + s, n + 2)),
                None => None,
            }
        } else if t.len() >= 6 && t[1] == 'u' && t[2] == '0' && t[3] == '0' && hex_value(t[4]) >= 0
            && hex_value(t[5]) >= 0 {
            match read_string(t.subrange(6, t.len() as int)) {
                Some((s, n)) => Some(
                    (seq![char_of(16 * hex_value(t[4]) + hex_value(t[5]))] + s, n + 6),
                ),
                None => None,
            }
        } else {
            None
        }
    } else {
        match read_string(t.drop_first()) {
            Some((s, n)) => Some((seq![t[0]] + s, n + 1)),
            None => None,
        }
    }
}

pub open spec fn is_digit(c: char) -> bool {
    48 <= code(c) <= 57
}

/// The number that a run of decimal digits spells.
pub open spec fn digits_value(s: Seq<char>) -> nat
    decreases s.len(),
{
    if s.len() == 0 {
        0
    } else {
        digits_value(s.drop_last()) * 10 + (code(s.last()) - 48) as nat
    }
}

/// How many decimal digits `t` starts with.
pub open spec fn digit_run(t: Seq<char>) -> nat
    decreases t.len(),
{
    if t.len() > 0 && is_digit(t[0]) {
        1 + digit_run(t.drop_first())
    } else {
        0
    }
}

/// Reads a decimal `u64`, and how many characters it took.
pub open spec fn read_number(t: Seq<char>) -> Option<(u64, int)> {
    let k = digit_run(t);
    if k == 0 || digits_value(t.take(k as int)) > u64::MAX {
        None
    } else {
        Some((digits_value(t.take(k as int)) as u64, k as int))
    }
}

/// Reads `true` or `false`.
pub open spec fn read_bool(t: Seq<char>) -> Option<(bool, int)> {
    if t.len() >= 4 && t.take(4) == "true"@ {
        Some((true, 4))
    } else if t.len() >= 5 && t.take(5) == "false"@ {
        Some((false, 5))
    } else {
        None
    }
}

/// Reads a value of the section `kind`.
pub open spec fn read_value(t: Seq<char>, kind: int) -> Option<(ValueModel, int)> {
    if kind == 0 {
        match read_bool(t) {
            Some((b, n)) => Some((ValueModel::Boolean(b), n)),
            None => None,
        }
    } else if kind == 1 {
        match read_number(t) {
            Some((v, n)) => Some((ValueModel::Counter(v), n)),
            None => None,
        }
    } else if t.len() > 0 && t[0] == '"' {
        match read_string(t.drop_first()) {
            Some((s, n)) => Some((ValueModel::Text(s), n + 1)),
            None => None,
        }
    } else {
        None
    }
}

/// Reads one member `"key":value` of section `kind`.
pub open spec fn read_member(t: Seq<char>, kind: int) -> Option<(Pair, int)> {
    if t.len() > 0 && t[0] == '"' {
        match read_string(t.drop_first()) {
            Some((key, n)) => {
                let u = t.subrange(n + 1, t.len() as int);
                if u.len() > 0 && u[0] == ':' {
                    match read_value(u.drop_first(), kind) {
                        Some((v, m)) => Some(((key, v), n + 2 + m)),
                        None => None,
                    }
                } else {
                    None
                }
            },
            None => None,
        }
    } else {
        None
    }
}

/// Reads the members of a section up to and including its closing brace.
pub open spec fn read_members(t: Seq<char>, kind: int) -> Option<(Seq<Pair>, int)>
    decreases t.len(),
{
    if t.len() > 0 && t[0] == '}' {
        Some((Seq::empty(), 1))
    } else {
        match read_member(t, kind) {
            Some((m, n)) => if 0 < n < t.len() && t[n] == '}' {
                Some((seq![m], n + 1))
            } else if 0 < n < t.len() && t[n] == ',' {
                match read_members(t.subrange(n + 1, t.len() as int), kind) {
                    Some((ms, k)) => Some((seq![m] + ms, n + 1 + k)),
                    None => None,
                }
            } else {
                None
            },
            None => None,
        }
    }
}

/// `t` without its prefix `lit`, if it has it.
pub open spec fn skip_lit(t: Seq<char>, lit: Seq<char>) -> Option<Seq<char>> {
    if t.len() >= lit.len() && t.take(lit.len() as int) == lit {
        Some(t.skip(lit.len() as int))
    } else {
        None
    }
}

/// What a payload says: the ping's name, its sequence number, its collection
/// time, the client's identifier, and the members of its three sections.
pub struct PingContent {
    pub name: Seq<char>,
    pub seq: u64,
    pub time: u64,
    pub client_id: Seq<char>,
    pub booleans: Seq<Pair>,
    pub counters: Seq<Pair>,
    pub strings: Seq<Pair>,
}

/// Reads the three sections and the closing braces.
pub open spec fn read_sections(t5: Seq<char>) -> Option<(Seq<Pair>, Seq<Pair>, Seq<Pair>)> {
    match read_members(t5, 0) {
        None => None,
        Some((bs, n5)) => match skip_lit(t5.skip(n5), ",\"counter\":{"@) {
            None => None,
            Some(t7) => match read_members(t7, 1) {
                None => None,
                Some((cs, n7)) => match skip_lit(t7.skip(n7), ",\"string\":{"@) {
                    None => None,
                    Some(t9) => match read_members(t9, 2) {
                        None => None,
                        Some((ss, n9)) => if t9.skip(n9) == "}}"@ {
                            Some((bs, cs, ss))
                        } else {
                            None
                        },
                    },
                },
            },
        },
    }
}

/// Reads the client identifier and what follows it.
pub open spec fn read_after_time(t: Seq<char>) -> Option<(Seq<char>, Seq<Pair>, Seq<Pair>, Seq<Pair>)> {
    match skip_lit(t, ",\"client_id\":\""@) {
        None => None,
        Some(u) => match read_string(u) {
            None => None,
            Some((cid, n)) => match skip_lit(u.skip(n), "},\"metrics\":{\"boolean\":{"@) {
                None => None,
                Some(t5) => match read_sections(t5) {
                    None => None,
                    Some((bs, cs, ss)) => Some((cid, bs, cs, ss)),
                },
            },
        },
    }
}

/// Reads the sequence number, the time and what follows them.
pub open spec fn read_after_seq(t3: Seq<char>) -> Option<
    (u64, u64, Seq<char>, Seq<Pair>, Seq<Pair>, Seq<Pair>),
> {
    match read_number(t3) {
        None => None,
        Some((seq, n3)) => match skip_lit(t3.skip(n3), ",\"time\":"@) {
            None => None,
            Some(t4) => match read_number(t4) {
                None => None,
                Some((time, n4)) => match read_after_time(t4.skip(n4)) {
                    None => None,
                    Some((cid, bs, cs, ss)) => Some((seq, time, cid, bs, cs, ss)),
                },
            },
        },
    }
}

/// Reads a whole payload.
pub open spec fn read_ping(t: Seq<char>) -> Option<PingContent> {
    match skip_lit(t, "{\"ping_info\":{\"ping_name\":\""@) {
        None => None,
        Some(t1) => match read_string(t1) {
            None => None,
            Some((name, n1)) => match skip_lit(t1.skip(n1), ",\"seq\":"@) {
                None => None,
                Some(t3) => match read_after_seq(t3) {
                    None => None,
                    Some((seq, time, client_id, bs, cs, ss)) => Some(
                        PingContent {
                            name,
                            seq,
                            time,
                            client_id,
                            booleans: bs,
                            counters: cs,
                            strings: ss,
                        },
                    ),
                },
            },
        },
    }
}

/// The members that section `kind` should hold for entries `es`.
pub open spec fn pairs(es: Seq<EntryModel>, kind: int) -> Seq<Pair>
    decreases es.len(),
{
    if es.len() == 0 {
        Seq::empty()
    } else if kind_of(es[0].value) == kind {
        seq![(es[0].category + "."@ + es[0].name, es[0].value)] + pairs(es.drop_first(), kind)
    } else {
        pairs(es.drop_first(), kind)
    }
}

pub proof fn lemma_code_exists(n: int)
    requires
        0 <= n < 128,
    ensures
        code(char_of(n)) == n,
{
    let c: char = (n as u8) as char;
    assert(code(c) == n);
}

pub proof fn lemma_hex_digit(d: int)
    requires
        0 <= d < 16,
    ensures
        hex_value(hex_digit(d)) == d,
        d < 10 ==> is_digit(hex_digit(d)) && code(hex_digit(d)) == 48 + d,
{
    if d < 10 {
        lemma_code_exists(48 + d);
    } else {
        lemma_code_exists(87 + d);
    }
}

/// Reading an escaped text back gives the text.
pub proof fn lemma_read_escaped(s: Seq<char>, rest: Seq<char>)
    ensures
        read_string(escape(s) + (seq!['"'] + rest)) == Some((s, escape(s).len() + 1 as int)),
    decreases s.len(),
{
    let t = escape(s) + (seq!['"'] + rest);
    if s.len() == 0 {
        assert(escape(s) =~= Seq::<char>::empty());
        assert(t[0] == '"');
    } else {
        let c = s[0];
        let s1 = s.drop_first();
        let u = escape(s1) + (seq!['"'] + rest);
        lemma_read_escaped(s1, rest);
        assert(t =~= escape_char(c) + u);
        let k = escape_char(c).len() as int;
        assert(t.subrange(k, t.len() as int) =~= u);
        if c == '"' || c == '\\' {
            assert(seq![c] + s1 =~= s);
        } else if code(c) < 32 {
            lemma_hex_digit(code(c) / 16);
            lemma_hex_digit(code(c) % 16);
            lemma_char_of_code(c);
            assert(16 * (code(c) / 16) + code(c) % 16 == code(c));
            assert(seq![c] + s1 =~= s);
        } else {
            assert(t.drop_first() =~= u);
            assert(seq![c] + s1 =~= s);
        }
    }
}

/// `decimal(n)` is a non-empty run of digits that spells `n`.
pub proof fn lemma_decimal(n: nat)
    ensures
        decimal(n).len() > 0,
        forall|i: int| 0 <= i < decimal(n).len() ==> is_digit(#[trigger] decimal(n)[i]),
        digits_value(decimal(n)) == n,
    decreases n,
{
    if n < 10 {
        lemma_hex_digit(n as int);
        assert(decimal(n).drop_last() =~= Seq::<char>::empty());
        assert(digits_value(Seq::<char>::empty()) == 0);
        assert(decimal(n).last() == hex_digit(n as int));
    } else {
        lemma_decimal(n / 10);
        lemma_hex_digit((n % 10) as int);
        let d = decimal(n);
        assert(d.drop_last() =~= decimal(n / 10));
        assert(d.last() == hex_digit((n % 10) as int));
        assert(digits_value(d) == digits_value(decimal(n / 10)) * 10 + (n % 10));
        assert forall|i: int| 0 <= i < d.len() implies is_digit(#[trigger] d[i]) by {
            if i < d.len() - 1 {
                assert(d[i] == decimal(n / 10)[i]);
            }
        }
    }
}

/// A digit run ends where the digits end.
pub proof fn lemma_digit_run(a: Seq<char>, b: Seq<char>)
    requires
        forall|i: int| 0 <= i < a.len() ==> is_digit(#[trigger] a[i]),
        b.len() == 0 || !is_digit(b[0]),
    ensures
        digit_run(a + b) == a.len(),
        (a + b).take(a.len() as int) == a,
    decreases a.len(),
{
    assert((a + b).take(a.len() as int) =~= a);
    if a.len() > 0 {
        lemma_digit_run(a.drop_first(), b);
        assert((a + b).drop_first() =~= a.drop_first() + b);
    } else {
        assert(a + b =~= b);
    }
}

/// A value reads back as itself when a comma or a brace follows it.
pub proof fn lemma_read_value(v: ValueModel, more: Seq<char>)
    requires
        more.len() > 0,
        more[0] == ',' || more[0] == '}',
    ensures
        read_value(value_text(v) + more, kind_of(v)) == Some((v, value_text(v).len() as int)),
{
    let t = value_text(v) + more;
    match v {
        ValueModel::Boolean(b) => {
            reveal_strlit("true");
            reveal_strlit("false");
            if b {
                assert(t.take(4) =~= "true"@);
            } else {
                assert(t.take(4) != "true"@) by {
                    assert(t.take(4)[0] == 'f');
                }
                assert(t.take(5) =~= "false"@);
            }
        },
        ValueModel::Counter(n) => {
            lemma_decimal(n as nat);
            assert(code(more[0]) == 44 || code(more[0]) == 125);
            lemma_digit_run(decimal(n as nat), more);
        },
        ValueModel::Text(s) => {
            reveal_strlit("\"");
            assert(t.drop_first() =~= escape(s) + (seq!['"'] + more));
            lemma_read_escaped(s, more);
        },
    }
}

/// A member reads back as `(category.name, value)`.
pub proof fn lemma_read_member(e: EntryModel, more: Seq<char>)
    requires
        more.len() > 0,
        more[0] == ',' || more[0] == '}',
    ensures
        read_member(item_text(e) + more, kind_of(e.value)) == Some(
            ((e.category + "."@ + e.name, e.value), item_text(e).len() as int),
        ),
{
    reveal_strlit("\"");
    reveal_strlit(".");
    reveal_strlit("\":");
    let key = e.category + "."@ + e.name;
    lemma_escape_concat(e.category, "."@);
    lemma_escape_concat(e.category + "."@, e.name);
    lemma_escape_one('.');
    assert("."@ =~= seq!['.']);
    assert(escape(key) =~= escape(e.category) + "."@ + escape(e.name));
    let t = item_text(e) + more;
    let tail = seq![':'] + value_text(e.value) + more;
    assert(t.drop_first() =~= escape(key) + (seq!['"'] + tail));
    lemma_read_escaped(key, tail);
    let n = escape(key).len() + 1 as int;
    assert(t.subrange(n + 1, t.len() as int) =~= tail);
    assert(tail.drop_first() =~= value_text(e.value) + more);
    lemma_read_value(e.value, more);
}

/// Items are never empty, so an empty section holds no member.
pub proof fn lemma_empty_section(es: Seq<EntryModel>, kind: int)
    ensures
        section(es, kind).len() == 0 ==> pairs(es, kind).len() == 0,
    decreases es.len(),
{
    reveal_strlit("\"");
    if es.len() > 0 {
        lemma_empty_section(es.drop_first(), kind);
        assert(item_text(es[0]).len() > 0);
    }
}

/// A section reads back as the members of its kind, in order.
pub proof fn lemma_read_section(es: Seq<EntryModel>, kind: int, rest: Seq<char>)
    ensures
        read_members(section(es, kind) + ("}"@ + rest), kind) == Some(
            (pairs(es, kind), section(es, kind).len() + 1 as int),
        ),
    decreases es.len(),
{
    reveal_strlit("}");
    reveal_strlit(",");
    reveal_strlit("\"");
    let t = section(es, kind) + ("}"@ + rest);
    if es.len() == 0 {
        assert(t[0] == '}');
    } else {
        let e = es[0];
        let es1 = es.drop_first();
        let r = section(es1, kind);
        lemma_read_section(es1, kind, rest);
        if kind_of(e.value) == kind {
            let n = item_text(e).len() as int;
            assert(t[0] == '"');
            if r.len() == 0 {
                lemma_empty_section(es1, kind);
                assert(pairs(es1, kind) =~= Seq::<Pair>::empty());
                assert(t =~= item_text(e) + ("}"@ + rest));
                lemma_read_member(e, "}"@ + rest);
                assert(t[n] == '}');
                assert(pairs(es, kind) =~= seq![(e.category + "."@ + e.name, e.value)]);
            } else {
                assert(t =~= item_text(e) + (","@ + (r + ("}"@ + rest))));
                lemma_read_member(e, ","@ + (r + ("}"@ + rest)));
                assert(t[n] == ',');
                assert(t.subrange(n + 1, t.len() as int) =~= r + ("}"@ + rest));
            }
        }
    }
}

/// A literal prefix is skipped exactly.
pub proof fn lemma_skip_lit(lit: Seq<char>, x: Seq<char>)
    ensures
        skip_lit(lit + x, lit) == Some(x),
{
    assert((lit + x).take(lit.len() as int) =~= lit);
    assert((lit + x).skip(lit.len() as int) =~= x);
}

/// Skipping a text and the one character after it.
pub proof fn lemma_skip_one(a: Seq<char>, b: Seq<char>, x: Seq<char>)
    requires
        b.len() == 1,
    ensures
        (a + (b + x)).skip(a.len() + 1 as int) == x,
{
    assert((a + (b + x)).skip(a.len() + 1 as int) =~= x);
}

pub proof fn lemma_read_sections(es: Seq<EntryModel>)
    ensures
        read_sections(
            section(es, 0) + ("}"@ + (",\"counter\":{"@ + (section(es, 1) + ("}"@ + (",\"string\":{"@
                + (section(es, 2) + ("}"@ + "}}"@)))))))
        ) == Some((pairs(es, 0), pairs(es, 1), pairs(es, 2))),
{
    let p3 = ",\"counter\":{"@;
    let p4 = ",\"string\":{"@;
    let b = "}"@;
    let z = "}}"@;
    reveal_strlit("}");
    let s0 = section(es, 0);
    let s1 = section(es, 1);
    let s2 = section(es, 2);
    let t9 = s2 + (b + z);
    let t7 = s1 + (b + (p4 + t9));
    let t5 = s0 + (b + (p3 + t7));
    lemma_read_section(es, 0, p3 + t7);
    lemma_skip_one(s0, b, p3 + t7);
    lemma_skip_lit(p3, t7);
    lemma_read_section(es, 1, p4 + t9);
    lemma_skip_one(s1, b, p4 + t9);
    lemma_skip_lit(p4, t9);
    lemma_read_section(es, 2, z);
    lemma_skip_one(s2, b, z);
}

/// A number reads back as itself when a non-digit follows it.
pub proof fn lemma_read_number(n: u64, rest: Seq<char>)
    requires
        rest.len() > 0,
        !is_digit(rest[0]),
    ensures
        read_number(decimal(n as nat) + rest) == Some((n, decimal(n as nat).len() as int)),
        (decimal(n as nat) + rest).skip(decimal(n as nat).len() as int) == rest,
{
    let d = decimal(n as nat);
    lemma_decimal(n as nat);
    lemma_digit_run(d, rest);
    assert((d + rest).skip(d.len() as int) =~= rest);
}

pub proof fn lemma_read_after_time(cid: Seq<char>, t5: Seq<char>)
    requires
        read_sections(t5) is Some,
    ensures
        read_after_time(
            ",\"client_id\":\""@ + (escape(cid) + ("\""@ + ("},\"metrics\":{\"boolean\":{"@ + t5))),
        ) == Some(
            (
                cid,
                read_sections(t5)->Some_0.0,
                read_sections(t5)->Some_0.1,
                read_sections(t5)->Some_0.2,
            ),
        ),
{
    let pc = ",\"client_id\":\""@;
    let q = "\""@;
    let p2 = "},\"metrics\":{\"boolean\":{"@;
    reveal_strlit("\"");
    assert(q =~= seq!['"']);
    let u = escape(cid) + (q + (p2 + t5));
    lemma_skip_lit(pc, u);
    lemma_read_escaped(cid, p2 + t5);
    lemma_skip_one(escape(cid), q, p2 + t5);
    lemma_skip_lit(p2, t5);
}

pub proof fn lemma_read_after_seq(seq: u64, time: u64, cid: Seq<char>, t5: Seq<char>)
    requires
        read_sections(t5) is Some,
    ensures
        read_after_seq(
            decimal(seq as nat) + (",\"time\":"@ + (decimal(time as nat) + (",\"client_id\":\""@ + (
            escape(cid) + ("\""@ + ("},\"metrics\":{\"boolean\":{"@ + t5)))))),
        ) == Some(
            (
                seq,
                time,
                cid,
                read_sections(t5)->Some_0.0,
                read_sections(t5)->Some_0.1,
                read_sections(t5)->Some_0.2,
            ),
        ),
{
    let pt = ",\"time\":"@;
    let pc = ",\"client_id\":\""@;
    reveal_strlit(",\"time\":");
    reveal_strlit(",\"client_id\":\"");
    let t6 = pc + (escape(cid) + ("\""@ + ("},\"metrics\":{\"boolean\":{"@ + t5)));
    let t4 = decimal(time as nat) + t6;
    assert((pt + t4)[0] == ',');
    assert(code((pt + t4)[0]) == 44);
    lemma_read_number(seq, pt + t4);
    lemma_skip_lit(pt, t4);
    assert(t6[0] == ',');
    assert(code(t6[0]) == 44);
    lemma_read_number(time, t6);
    lemma_read_after_time(cid, t5);
}

/// Reading a serialized ping back gives its name, its sequence number, its
/// time, the client's identifier and, section by section, exactly the
/// `(category.name, value)` pairs of the snapshot it was made from, in
/// snapshot order.
pub proof fn lemma_payload_round_trip(
    name: Seq<char>,
    seq: u64,
    time: u64,
    client_id: Seq<char>,
    es: Seq<EntryModel>,
)
    ensures
        read_ping(ping_text(name, seq, time, client_id, es)) == Some(
            PingContent {
                name,
                seq,
                time,
                client_id,
                booleans: pairs(es, 0),
                counters: pairs(es, 1),
                strings: pairs(es, 2),
            },
        ),
{
    let p0 = "{\"ping_info\":{\"ping_name\":\""@;
    let p1 = ",\"seq\":"@;
    let pt = ",\"time\":"@;
    let pc = ",\"client_id\":\""@;
    let p2 = "},\"metrics\":{\"boolean\":{"@;
    let q = "\""@;
    reveal_strlit("\"");
    assert(q =~= seq!['"']);
    let t5 = section(es, 0) + ("}"@ + (",\"counter\":{"@ + (section(es, 1) + ("}"@ + (",\"string\":{"@
        + (section(es, 2) + ("}"@ + "}}"@)))))));
    lemma_read_sections(es);
    lemma_read_after_seq(seq, time, client_id, t5);
    let t3 = decimal(seq as nat) + (pt + (decimal(time as nat) + (pc + (escape(client_id) + (q + (p2
        + t5))))));
    let t1 = escape(name) + (q + (p1 + t3));
    assert(ping_text(name, seq, time, client_id, es) == p0 + t1);
    lemma_skip_lit(p0, t1);
    lemma_read_escaped(name, p1 + t3);
    lemma_skip_one(escape(name), q, p1 + t3);
    lemma_skip_lit(p1, t3);
}

} // verus!
