use vstd::prelude::*;
use vstd::string::StrSliceExecFns;

use crate::parse::{
    digit_run, digits_value, hex_value, is_digit, read_after_seq, read_after_time, read_bool, read_member,
    read_members, read_number, read_ping, read_sections, read_string, read_value, skip_lit, Pair,
    PingContent,
};
use crate::payload::{code, lemma_char_of_code, push_char};
use crate::value::MetricValue;

verus! {

/// A metric read back from a payload.
#[derive(Debug)]
pub struct ParsedMetric {
    /// `category.name`
    pub key: String,
    pub value: MetricValue,
}

impl View for ParsedMetric {
    type V = Pair;

    open spec fn view(&self) -> Pair {
        (self.key@, self.value@)
    }
}

/// A payload read back: the ping's name, sequence number, collection time
/// and client identifier, and the members of its boolean, counter and string sections.
#[derive(Debug)]
pub struct ParsedPing {
    pub name: String,
    pub seq: u64,
    pub time: u64,
    pub client_id: String,
    pub booleans: Vec<ParsedMetric>,
    pub counters: Vec<ParsedMetric>,
    pub strings: Vec<ParsedMetric>,
}

impl View for ParsedPing {
    type V = PingContent;

    open spec fn view(&self) -> PingContent {
        PingContent {
            name: self.name@,
            seq: self.seq,
            time: self.time,
            client_id: self.client_id@,
            booleans: self.booleans@.map_values(|m: ParsedMetric| m@),
            counters: self.counters@.map_values(|m: ParsedMetric| m@),
            strings: self.strings@.map_values(|m: ParsedMetric| m@),
        }
    }
}

/// The characters of `s`, in order.
pub fn chars_of(s: &str) -> (r: Vec<char>)
    ensures
        r@ == s@,
{
    let n = s.unicode_len();
    let mut r: Vec<char> = Vec::new();
    let mut i: usize = 0;
    while i < n
        invariant
            i <= n,
            n == s@.len(),
            r@ == s@.take(i as int),
        decreases n - i,
    {
        r.push(s.get_char(i));
        i += 1;
        assert(r@ =~= s@.take(i as int));
    }
    assert(s@.take(i as int) =~= s@);
    r
}

/// Whether `t` holds `lit` from position `i` on.
fn matches_lit(t: &Vec<char>, i: usize, lit: &str) -> (r: bool)
    requires
        i <= t@.len(),
    ensures
        r == skip_lit(t@.skip(i as int), lit@) is Some,
{
    let n = lit.unicode_len();
    let tl = t.len();
    if tl - i < n {
        return false;
    }
    let ghost u = t@.skip(i as int);
    let mut j: usize = 0;
    while j < n
        invariant
            j <= n,
            n == lit@.len(),
            i <= t@.len(),
            tl == t@.len(),
            i + n <= t@.len(),
            u == t@.skip(i as int),
            forall|k: int| 0 <= k < j ==> u[k] == lit@[k],
        decreases n - j,
    {
        assert(i + j < t@.len());
        if t[i + j] != lit.get_char(j) {
            assert(u.take(n as int)[j as int] != lit@[j as int]);
            return false;
        }
        j += 1;
    }
    assert(u.take(n as int) =~= lit@);
    true
}

fn hex_val(c: char) -> (r: i32)
    ensures
        r == hex_value(c),
{
    let v = c as u32;
    if 48 <= v && v <= 57 {
        (v - 48) as i32
    } else if 97 <= v && v <= 102 {
        (v - 87) as i32
    } else {
        -1
    }
}

pub open spec fn after_text(acc: Seq<char>, k: int, r: Option<(Seq<char>, int)>) -> Option<
    (Seq<char>, int),
> {
    match r {
        Some((s, n)) => Some((acc + s, n + k)),
        None => None,
    }
}

/// Reads a JSON string whose opening quote stands before `start`; gives the
/// text and the position after the closing quote.
fn parse_string(t: &Vec<char>, start: usize) -> (r: Option<(String, usize)>)
    requires
        start <= t@.len(),
    ensures
        match r {
            Some((s, e)) => start < e <= t@.len() && read_string(t@.skip(start as int)) == Some(
                (s@, e - start),
            ),
            None => read_string(t@.skip(start as int)) is None,
        },
{
    let mut acc = String::new();
    let mut i = start;
    while i <= t.len()
        invariant
            start <= i <= t@.len(),
            read_string(t@.skip(start as int)) == after_text(
                acc@,
                i - start,
                read_string(t@.skip(i as int)),
            ),
        decreases t@.len() - i,
    {
        let ghost u = t@.skip(i as int);
        let ghost acc0 = acc@;
        if i == t.len() {
            return None;
        }
        let c = t[i];
        assert(u[0] == c);
        if c == '"' {
            assert(acc@ + Seq::<char>::empty() =~= acc@);
            return Some((acc, i + 1));
        }
        if c == '\\' {
            if t.len() - i > 1 && (t[i + 1] == '"' || t[i + 1] == '\\') {
                let c1 = t[i + 1];
                assert(u[1] == c1);
                assert(u.subrange(2, u.len() as int) =~= t@.skip(i + 2));
                push_char(&mut acc, c1);
                proof {
                    match read_string(t@.skip(i + 2)) {
                        Some((s2, n2)) => {
                            assert(acc0 + (seq![c1] + s2) =~= acc@ + s2);
                        },
                        None => {},
                    }
                }
                i += 2;
            } else if t.len() - i > 5 && t[i + 1] == 'u' && t[i + 2] == '0' && t[i + 3] == '0'
                && hex_val(t[i + 4]) >= 0 && hex_val(t[i + 5]) >= 0 {
                assert(u[1] == t@[i + 1] && u[2] == t@[i + 2] && u[3] == t@[i + 3]);
                assert(u[4] == t@[i + 4] && u[5] == t@[i + 5]);
                let v: u32 = (16 * hex_val(t[i + 4]) + hex_val(t[i + 5])) as u32;
                let d = (v as u8) as char;
                proof {
                    lemma_char_of_code(d);
                    assert(code(d) == v);
                }
                assert(u.subrange(6, u.len() as int) =~= t@.skip(i + 6));
                push_char(&mut acc, d);
                proof {
                    match read_string(t@.skip(i + 6)) {
                        Some((s2, n2)) => {
                            assert(acc0 + (seq![d] + s2) =~= acc@ + s2);
                        },
                        None => {},
                    }
                }
                i += 6;
            } else {
                return None;
            }
        } else {
            assert(u.drop_first() =~= t@.skip(i + 1));
            push_char(&mut acc, c);
            proof {
                match read_string(t@.skip(i + 1)) {
                    Some((s2, n2)) => {
                        assert(acc0 + (seq![c] + s2) =~= acc@ + s2);
                    },
                    None => {},
                }
            }
            i += 1;
        }
    }
    None
}

/// The first `digit_run(u)` characters of `u` are digits.
proof fn lemma_digit_run_digits(u: Seq<char>)
    ensures
        digit_run(u) <= u.len(),
        forall|j: int| 0 <= j < digit_run(u) ==> is_digit(#[trigger] u[j]),
    decreases u.len(),
{
    if u.len() > 0 && is_digit(u[0]) {
        lemma_digit_run_digits(u.drop_first());
        assert forall|j: int| 0 <= j < digit_run(u) implies is_digit(#[trigger] u[j]) by {
            if j > 0 {
                assert(u[j] == u.drop_first()[j - 1]);
            }
        }
    }
}

/// Over digits, a longer prefix spells no smaller number.
proof fn lemma_digits_grow(u: Seq<char>, j: int, k: int)
    requires
        0 <= j <= k <= u.len(),
        forall|m: int| 0 <= m < k ==> is_digit(#[trigger] u[m]),
    ensures
        digits_value(u.take(j)) <= digits_value(u.take(k)),
    decreases k - j,
{
    if j < k {
        lemma_digits_grow(u, j, k - 1);
        assert(u.take(k).drop_last() =~= u.take(k - 1));
        assert(u.take(k).last() == u[k - 1]);
    }
}

/// Reads a decimal `u64` from `start`; gives it and the position after it.
fn parse_number(t: &Vec<char>, start: usize) -> (r: Option<(u64, usize)>)
    requires
        start <= t@.len(),
    ensures
        match r {
            Some((v, e)) => start < e <= t@.len() && read_number(t@.skip(start as int)) == Some(
                (v, e - start),
            ),
            None => read_number(t@.skip(start as int)) is None,
        },
{
    let ghost u = t@.skip(start as int);
    proof {
        lemma_digit_run_digits(u);
    }
    let mut acc: u64 = 0;
    let mut i = start;
    while i < t.len() && (t[i] as u32) >= 48 && (t[i] as u32) <= 57
        invariant
            start <= i <= t@.len(),
            u == t@.skip(start as int),
            digit_run(u) == (i - start) + digit_run(t@.skip(i as int)),
            acc == digits_value(u.take(i - start)),
            forall|j: int| 0 <= j < digit_run(u) ==> is_digit(#[trigger] u[j]),
            digit_run(u) <= u.len(),
        decreases t@.len() - i,
    {
        let ghost w = t@.skip(i as int);
        assert(w[0] == t@[i as int]);
        assert(w.drop_first() =~= t@.skip(i + 1));
        let d = (t[i] as u32 - 48) as u64;
        let ghost k = i - start;
        assert(u.take(k + 1).drop_last() =~= u.take(k));
        assert(u.take(k + 1).last() == t@[i as int]);
        assert(digits_value(u.take(k + 1)) == acc * 10 + d);
        if acc > (u64::MAX - d) / 10 {
            proof {
                lemma_digits_grow(u, k + 1, digit_run(u) as int);
            }
            return None;
        }
        acc = acc * 10 + d;
        i += 1;
    }
    proof {
        let w = t@.skip(i as int);
        if i < t@.len() {
            assert(w[0] == t@[i as int]);
        }
        assert(digit_run(w) == 0);
    }
    if i == start {
        return None;
    }
    Some((acc, i))
}

/// Reads `true` or `false` from `start`.
fn parse_bool(t: &Vec<char>, start: usize) -> (r: Option<(bool, usize)>)
    requires
        start <= t@.len(),
    ensures
        match r {
            Some((b, e)) => start < e <= t@.len() && read_bool(t@.skip(start as int)) == Some(
                (b, e - start),
            ),
            None => read_bool(t@.skip(start as int)) is None,
        },
{
    let ghost u = t@.skip(start as int);
    let tl = t.len();
    if matches_lit(t, start, "true") {
        proof {
            reveal_strlit("true");
        }
        assert(u.len() >= 4);
        Some((true, start + 4))
    } else if matches_lit(t, start, "false") {
        proof {
            reveal_strlit("true");
            reveal_strlit("false");
        }
        assert(u.len() >= 5);
        Some((false, start + 5))
    } else {
        proof {
            reveal_strlit("true");
            reveal_strlit("false");
        }
        None
    }
}

/// Reads a value of section `kind` from `start`.
fn parse_value(t: &Vec<char>, start: usize, kind: u8) -> (r: Option<(MetricValue, usize)>)
    requires
        start <= t@.len(),
    ensures
        match r {
            Some((v, e)) => start < e <= t@.len() && read_value(t@.skip(start as int), kind as int)
                == Some((v@, e - start)),
            None => read_value(t@.skip(start as int), kind as int) is None,
        },
{
    if kind == 0 {
        match parse_bool(t, start) {
            Some((b, e)) => Some((MetricValue::Boolean(b), e)),
            None => None,
        }
    } else if kind == 1 {
        match parse_number(t, start) {
            Some((v, e)) => Some((MetricValue::Counter(v), e)),
            None => None,
        }
    } else if start < t.len() && t[start] == '"' {
        assert(t@.skip(start as int).drop_first() =~= t@.skip(start + 1));
        match parse_string(t, start + 1) {
            Some((s, e)) => Some((MetricValue::String(s), e)),
            None => None,
        }
    } else {
        None
    }
}

/// Reads one member `"key":value` of section `kind` from `start`.
fn parse_member(t: &Vec<char>, start: usize, kind: u8) -> (r: Option<(ParsedMetric, usize)>)
    requires
        start <= t@.len(),
    ensures
        match r {
            Some((m, e)) => start < e <= t@.len() && read_member(t@.skip(start as int), kind as int)
                == Some((m@, e - start)),
            None => read_member(t@.skip(start as int), kind as int) is None,
        },
{
    let ghost u = t@.skip(start as int);
    if !(start < t.len() && t[start] == '"') {
        return None;
    }
    assert(u.drop_first() =~= t@.skip(start + 1));
    let (key, e1) = match parse_string(t, start + 1) {
        Some(p) => p,
        None => return None,
    };
    let ghost n = e1 - (start + 1);
    assert(u.subrange(n + 1, u.len() as int) =~= t@.skip(e1 as int));
    if !(e1 < t.len() && t[e1] == ':') {
        return None;
    }
    assert(t@.skip(e1 as int).drop_first() =~= t@.skip(e1 + 1));
    match parse_value(t, e1 + 1, kind) {
        Some((v, e)) => Some((ParsedMetric { key, value: v }, e)),
        None => None,
    }
}

pub open spec fn after_members(acc: Seq<Pair>, k: int, r: Option<(Seq<Pair>, int)>) -> Option<
    (Seq<Pair>, int),
> {
    match r {
        Some((ms, n)) => Some((acc + ms, n + k)),
        None => None,
    }
}

/// Reads the members of section `kind` from `start` through its closing
/// brace; gives them and the position after the brace.
fn parse_members(t: &Vec<char>, start: usize, kind: u8) -> (r: Option<(Vec<ParsedMetric>, usize)>)
    requires
        start <= t@.len(),
    ensures
        match r {
            Some((ms, e)) => start < e <= t@.len() && read_members(t@.skip(start as int), kind as int)
                == Some((ms@.map_values(|m: ParsedMetric| m@), e - start)),
            None => read_members(t@.skip(start as int), kind as int) is None,
        },
{
    let mut out: Vec<ParsedMetric> = Vec::new();
    let mut i = start;
    assert(out@.map_values(|m: ParsedMetric| m@) + Seq::<Pair>::empty() =~= Seq::<Pair>::empty());
    while i <= t.len()
        invariant
            start <= i <= t@.len(),
            read_members(t@.skip(start as int), kind as int) == after_members(
                out@.map_values(|m: ParsedMetric| m@),
                i - start,
                read_members(t@.skip(i as int), kind as int),
            ),
        decreases t@.len() - i,
    {
        let ghost u = t@.skip(i as int);
        let ghost acc0 = out@.map_values(|m: ParsedMetric| m@);
        if i < t.len() && t[i] == '}' {
            assert(u[0] == '}');
            assert(acc0 + Seq::<Pair>::empty() =~= acc0);
            return Some((out, i + 1));
        }
        if i < t.len() {
            assert(u[0] == t@[i as int]);
        }
        let (m, e) = match parse_member(t, i, kind) {
            Some(p) => p,
            None => return None,
        };
        let ghost mv = m@;
        let ghost n = e - i;
        if !(i < e && e < t.len()) {
            return None;
        }
        assert(u[n] == t@[e as int]);
        if t[e] == '}' {
            out.push(m);
            assert(out@.map_values(|m: ParsedMetric| m@) =~= acc0 + seq![mv]);
            return Some((out, e + 1));
        } else if t[e] == ',' {
            assert(u.subrange(n + 1, u.len() as int) =~= t@.skip(e + 1));
            out.push(m);
            assert(out@.map_values(|m: ParsedMetric| m@) =~= acc0 + seq![mv]);
            proof {
                match read_members(t@.skip(e + 1), kind as int) {
                    Some((ms, k)) => {
                        assert(acc0 + (seq![mv] + ms) =~= (acc0 + seq![mv]) + ms);
                    },
                    None => {},
                }
            }
            i = e + 1;
        } else {
            return None;
        }
    }
    None
}

proof fn lemma_skip_skip(t: Seq<char>, a: int, b: int)
    requires
        0 <= a,
        0 <= b,
        a + b <= t.len(),
    ensures
        t.skip(a).skip(b) == t.skip(a + b),
{
    assert(t.skip(a).skip(b) =~= t.skip(a + b));
}

/// Reads the three sections and the closing braces from `i5`.
#[verifier::rlimit(100)]
fn parse_sections(t: &Vec<char>, i5: usize) -> (r: Option<
    (Vec<ParsedMetric>, Vec<ParsedMetric>, Vec<ParsedMetric>),
>)
    requires
        i5 <= t@.len(),
    ensures
        match r {
            Some((bs, cs, ss)) => read_sections(t@.skip(i5 as int)) == Some(
                (
                    bs@.map_values(|m: ParsedMetric| m@),
                    cs@.map_values(|m: ParsedMetric| m@),
                    ss@.map_values(|m: ParsedMetric| m@),
                ),
            ),
            None => read_sections(t@.skip(i5 as int)) is None,
        },
{
    let ghost s = t@;
    let tl = t.len();
    let (booleans, i6) = match parse_members(t, i5, 0) {
        Some(x) => x,
        None => return None,
    };
    proof {
        lemma_skip_skip(s, i5 as int, i6 - i5);
    }
    let p3 = ",\"counter\":{";
    if !matches_lit(t, i6, p3) {
        return None;
    }
    let i7 = i6 + p3.unicode_len();
    proof {
        lemma_skip_skip(s, i6 as int, i7 - i6);
    }
    let (counters, i8) = match parse_members(t, i7, 1) {
        Some(x) => x,
        None => return None,
    };
    proof {
        lemma_skip_skip(s, i7 as int, i8 - i7);
    }
    let p4 = ",\"string\":{";
    if !matches_lit(t, i8, p4) {
        return None;
    }
    let i9 = i8 + p4.unicode_len();
    proof {
        lemma_skip_skip(s, i8 as int, i9 - i8);
    }
    let (strings, i10) = match parse_members(t, i9, 2) {
        Some(x) => x,
        None => return None,
    };
    proof {
        lemma_skip_skip(s, i9 as int, i10 - i9);
        reveal_strlit("}}");
    }
    let ghost w = s.skip(i10 as int);
    if !(tl - i10 == 2 && t[i10] == '}' && t[i10 + 1] == '}') {
        proof {
            if w.len() == 2 {
                assert(w[0] == s[i10 as int] && w[1] == s[i10 + 1]);
            }
        }
        return None;
    }
    assert(w =~= "}}"@);
    Some((booleans, counters, strings))
}

/// Reads the client identifier and what follows it, from `i`.
fn parse_after_time(t: &Vec<char>, i: usize) -> (r: Option<
    (String, Vec<ParsedMetric>, Vec<ParsedMetric>, Vec<ParsedMetric>),
>)
    requires
        i <= t@.len(),
    ensures
        match r {
            Some((cid, bs, cs, ss)) => read_after_time(t@.skip(i as int)) == Some(
                (
                    cid@,
                    bs@.map_values(|m: ParsedMetric| m@),
                    cs@.map_values(|m: ParsedMetric| m@),
                    ss@.map_values(|m: ParsedMetric| m@),
                ),
            ),
            None => read_after_time(t@.skip(i as int)) is None,
        },
{
    let ghost s = t@;
    let tl = t.len();
    let pc = ",\"client_id\":\"";
    if !matches_lit(t, i, pc) {
        return None;
    }
    let i1 = i + pc.unicode_len();
    proof {
        lemma_skip_skip(s, i as int, i1 - i);
    }
    let (cid, i2) = match parse_string(t, i1) {
        Some(x) => x,
        None => return None,
    };
    proof {
        lemma_skip_skip(s, i1 as int, i2 - i1);
    }
    let p2 = "},\"metrics\":{\"boolean\":{";
    if !matches_lit(t, i2, p2) {
        return None;
    }
    let i3 = i2 + p2.unicode_len();
    proof {
        lemma_skip_skip(s, i2 as int, i3 - i2);
    }
    match parse_sections(t, i3) {
        Some((bs, cs, ss)) => Some((cid, bs, cs, ss)),
        None => None,
    }
}

/// Reads the sequence number, the time and what follows them, from `i3`.
fn parse_after_seq(t: &Vec<char>, i3: usize) -> (r: Option<
    (u64, u64, String, Vec<ParsedMetric>, Vec<ParsedMetric>, Vec<ParsedMetric>),
>)
    requires
        i3 <= t@.len(),
    ensures
        match r {
            Some((seq, time, cid, bs, cs, ss)) => read_after_seq(t@.skip(i3 as int)) == Some(
                (
                    seq,
                    time,
                    cid@,
                    bs@.map_values(|m: ParsedMetric| m@),
                    cs@.map_values(|m: ParsedMetric| m@),
                    ss@.map_values(|m: ParsedMetric| m@),
                ),
            ),
            None => read_after_seq(t@.skip(i3 as int)) is None,
        },
{
    let ghost s = t@;
    let tl = t.len();
    let (seq, i4) = match parse_number(t, i3) {
        Some(x) => x,
        None => return None,
    };
    proof {
        lemma_skip_skip(s, i3 as int, i4 - i3);
    }
    let pt = ",\"time\":";
    if !matches_lit(t, i4, pt) {
        return None;
    }
    let i5 = i4 + pt.unicode_len();
    proof {
        lemma_skip_skip(s, i4 as int, i5 - i4);
    }
    let (time, i6) = match parse_number(t, i5) {
        Some(x) => x,
        None => return None,
    };
    proof {
        lemma_skip_skip(s, i5 as int, i6 - i5);
    }
    match parse_after_time(t, i6) {
        Some((cid, bs, cs, ss)) => Some((seq, time, cid, bs, cs, ss)),
        None => None,
    }
}

/// Where the first `.` of `k` stands, or -1.
pub open spec fn first_dot(k: Seq<char>) -> int
    decreases k.len(),
{
    if k.len() == 0 {
        -1
    } else if k[0] == '.' {
        0
    } else if first_dot(k.drop_first()) < 0 {
        -1
    } else {
        first_dot(k.drop_first()) + 1
    }
}

/// A member key `category.name` cut at its first dot.
pub open spec fn split_key(k: Seq<char>) -> Option<(Seq<char>, Seq<char>)> {
    let i = first_dot(k);
    if i < 0 {
        None
    } else {
        Some((k.take(i), k.skip(i + 1)))
    }
}

proof fn lemma_first_dot(k: Seq<char>, i: int)
    requires
        0 <= i <= k.len(),
        forall|j: int| 0 <= j < i ==> k[j] != '.',
    ensures
        first_dot(k) == if first_dot(k.skip(i)) < 0 {
            -1
        } else {
            first_dot(k.skip(i)) + i
        },
    decreases i,
{
    if i > 0 {
        lemma_first_dot(k.drop_first(), i - 1);
        assert(k.drop_first().skip(i - 1) =~= k.skip(i));
    } else {
        assert(k.skip(0) =~= k);
    }
}

/// Cuts `k` at its first dot.
pub fn split_member_key(k: &String) -> (r: Option<(String, String)>)
    ensures
        match r {
            Some((c, n)) => split_key(k@) == Some((c@, n@)),
            None => split_key(k@) is None,
        },
{
    let st = k.as_str();
    let len = st.unicode_len();
    let mut i: usize = 0;
    while i < len
        invariant
            i <= len,
            len == k@.len(),
            st@ == k@,
            forall|j: int| 0 <= j < i ==> k@[j] != '.',
        decreases len - i,
    {
        if st.get_char(i) == '.' {
            proof {
                lemma_first_dot(k@, i as int);
                assert(k@.skip(i as int)[0] == '.');
            }
            let c = st.substring_char(0, i).to_owned();
            let n = st.substring_char(i + 1, len).to_owned();
            return Some((c, n));
        }
        i += 1;
    }
    proof {
        lemma_first_dot(k@, i as int);
        assert(k@.skip(i as int).len() == 0);
    }
    None
}

/// Cuts a saved store into the client identifier and the saved lines after
/// it; `None` when `text` does not start with `store_prefix` of an
/// identifier without a newline.
pub fn split_store(text: &String) -> (r: Option<(String, String)>)
    ensures
        match r {
            Some((id, rest)) => !id@.contains('\n') && text@ == crate::glean::store_prefix(id@)
                + rest@,
            None => forall|id: Seq<char>, rest: Seq<char>|
                !id.contains('\n') ==> text@ != #[trigger] (crate::glean::store_prefix(id) + rest),
        },
{
    let st = text.as_str();
    let t = chars_of(st);
    let ghost s = t@;
    let head = "glean-store 1\nclient ";
    let n = head.unicode_len();
    proof {
        reveal_strlit("\n");
    }
    assert(s.skip(0) =~= s);
    if !matches_lit(&t, 0, head) {
        proof {
            assert forall|id: Seq<char>, rest: Seq<char>|
                !id.contains('\n') implies text@ != #[trigger] (crate::glean::store_prefix(id) + rest) by {
                if text@ == crate::glean::store_prefix(id) + rest {
                    assert(s.take(head@.len() as int) =~= head@);
                }
            }
        }
        return None;
    }
    let tl = t.len();
    let mut i = n;
    while i < tl && t[i] != '\n'
        invariant
            n <= i <= tl,
            s == t@,
            tl == s.len(),
            n == head@.len(),
            s.take(n as int) == head@,
            forall|j: int| n <= j < i ==> s[j] != '\n',
        decreases tl - i,
    {
        i += 1;
    }
    if i == tl {
        proof {
            assert forall|id: Seq<char>, rest: Seq<char>|
                !id.contains('\n') implies text@ != #[trigger] (crate::glean::store_prefix(id) + rest) by {
                if text@ == crate::glean::store_prefix(id) + rest {
                    let k = n + id.len();
                    assert(s[k as int] == '\n');
                }
            }
        }
        return None;
    }
    let id = st.substring_char(n, i).to_owned();
    let rest = st.substring_char(i + 1, tl).to_owned();
    proof {
        assert(!id@.contains('\n')) by {
            if id@.contains('\n') {
                let j = choose|j: int| 0 <= j < id@.len() && id@[j] == '\n';
                assert(s[n + j] == '\n');
            }
        }
        assert(s =~= s.take(n as int) + id@ + seq!['\n'] + rest@);
        assert("\n"@ =~= seq!['\n']);
        assert(text@ =~= crate::glean::store_prefix(id@) + rest@);
    }
    Some((id, rest))
}

/// Reads a payload back; see `read_ping`.
#[verifier::rlimit(100)]
pub fn parse_ping(text: &String) -> (r: Option<ParsedPing>)
    ensures
        match r {
            Some(p) => read_ping(text@) == Some(p@),
            None => read_ping(text@) is None,
        },
{
    let t = chars_of(text.as_str());
    let tl = t.len();
    let ghost s = t@;
    assert(s.skip(0) =~= s);
    let p0 = "{\"ping_info\":{\"ping_name\":\"";
    if !matches_lit(&t, 0, p0) {
        return None;
    }
    let i1 = p0.unicode_len();
    let (name, i2) = match parse_string(&t, i1) {
        Some(x) => x,
        None => return None,
    };
    proof {
        lemma_skip_skip(s, i1 as int, i2 - i1);
    }
    let p1 = ",\"seq\":";
    if !matches_lit(&t, i2, p1) {
        return None;
    }
    let i3 = i2 + p1.unicode_len();
    proof {
        lemma_skip_skip(s, i2 as int, i3 - i2);
    }
    match parse_after_seq(&t, i3) {
        Some((seq, time, client_id, booleans, counters, strings)) => Some(
            ParsedPing { name, seq, time, client_id, booleans, counters, strings },
        ),
        None => None,
    }
}

} // verus!
