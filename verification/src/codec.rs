//! The persisted wire format: one JSON object
//! `{"uncommitted_todo": <string>, "todos": [{"id": <uint32>, "text": <string>,
//! "bucket": "Todo" | "Done"}, ...]}` as a single string.
//!
//! `spec_serialize` is the canonical serialization of a state; the parser
//! functions define exactly which strings decode, and to what. The executable
//! `serialize` and `deserialize` are proved against them, and
//! `lemma_serialize_round_trip` shows that every state decodes back from its
//! own serialization.

use crate::state::{AppState, AppStateView, Bucket, Todo, TodoView};
use vstd::prelude::*;
use vstd::string::StrSliceExecFns;
use vstd::string::StringExecFns;

verus! {

// ---------------------------------------------------------------------------
// Fixed pieces of the wire format.
// ---------------------------------------------------------------------------
pub open spec fn lit_head() -> Seq<char> {
    "{\"uncommitted_todo\":\""@
}

pub open spec fn lit_mid() -> Seq<char> {
    ",\"todos\":["@
}

pub open spec fn lit_item_head() -> Seq<char> {
    "{\"id\":"@
}

pub open spec fn lit_item_text() -> Seq<char> {
    ",\"text\":\""@
}

pub open spec fn lit_bucket_key() -> Seq<char> {
    ",\"bucket\":\""@
}

pub open spec fn lit_item_close() -> Seq<char> {
    "\"}"@
}

/// The word that names `bucket` on the wire.
pub open spec fn bucket_word(bucket: Bucket) -> Seq<char> {
    match bucket {
        Bucket::Todo => "Todo"@,
        Bucket::Done => "Done"@,
    }
}

// ---------------------------------------------------------------------------
// Characters and digits.
// ---------------------------------------------------------------------------
pub open spec fn is_digit(c: char) -> bool {
    48 <= c as int <= 57
}

pub open spec fn digit_val(c: char) -> nat {
    (c as int - 48) as nat
}

/// The decimal digit character for `n < 10`.
pub open spec fn digit_char(n: nat) -> char {
    (48 + n) as char
}

/// The lowercase hexadecimal digit character for `n < 16`.
pub open spec fn hex_char(n: nat) -> char {
    if n < 10 {
        (48 + n) as char
    } else {
        (87 + n) as char
    }
}

pub open spec fn is_hex_digit(c: char) -> bool {
    is_digit(c) || 97 <= c as int <= 102
}

pub open spec fn hex_val(c: char) -> nat {
    if is_digit(c) {
        digit_val(c)
    } else {
        (c as int - 87) as nat
    }
}

/// The canonical decimal digits of `n`, most significant first, no leading
/// zeros (a single `'0'` for zero).
pub open spec fn u32_digits(n: nat) -> Seq<char>
    decreases n,
{
    if n < 10 {
        seq![digit_char(n)]
    } else {
        u32_digits(n / 10).push(digit_char(n % 10))
    }
}

/// The numeric value of a digit string.
pub open spec fn digits_val(d: Seq<char>) -> nat
    decreases d.len(),
{
    if d.len() == 0 {
        0
    } else {
        digits_val(d.drop_last()) * 10 + digit_val(d.last())
    }
}

// ---------------------------------------------------------------------------
// String escaping.
// ---------------------------------------------------------------------------
/// How one character is written inside a JSON string: quote and backslash are
/// escaped, the named control characters use their short escapes, the other
/// control characters use `\u00..`, everything else stands as itself.
pub open spec fn escape_char(c: char) -> Seq<char> {
    if c == '"' {
        seq!['\\', '"']
    } else if c == '\\' {
        seq!['\\', '\\']
    } else if c == '\u{8}' {
        seq!['\\', 'b']
    } else if c == '\t' {
        seq!['\\', 't']
    } else if c == '\n' {
        seq!['\\', 'n']
    } else if c == '\u{c}' {
        seq!['\\', 'f']
    } else if c == '\r' {
        seq!['\\', 'r']
    } else if (c as u32) < 0x20 {
        seq!['\\', 'u', '0', '0', hex_char((c as u32 / 16) as nat), hex_char((c as u32 % 16) as nat)]
    } else {
        seq![c]
    }
}

pub open spec fn escape_string(s: Seq<char>) -> Seq<char>
    decreases s.len(),
{
    if s.len() == 0 {
        Seq::empty()
    } else {
        escape_char(s[0]) + escape_string(s.skip(1))
    }
}

// ---------------------------------------------------------------------------
// Serialization.
// ---------------------------------------------------------------------------
/// One item on the wire.
pub open spec fn serialize_item(t: TodoView) -> Seq<char> {
    lit_item_head() + u32_digits(t.id as nat) + lit_item_text() + escape_string(t.text) + seq!['"']
        + lit_bucket_key() + bucket_word(t.bucket) + lit_item_close()
}

/// The items after the first: each preceded by a comma.
pub open spec fn serialize_items_rest(ts: Seq<TodoView>) -> Seq<char>
    decreases ts.len(),
{
    if ts.len() == 0 {
        Seq::empty()
    } else {
        seq![','] + serialize_item(ts[0]) + serialize_items_rest(ts.skip(1))
    }
}

/// The comma-separated item list (without the surrounding brackets).
pub open spec fn serialize_items(ts: Seq<TodoView>) -> Seq<char> {
    if ts.len() == 0 {
        Seq::empty()
    } else {
        serialize_item(ts[0]) + serialize_items_rest(ts.skip(1))
    }
}

/// The canonical serialization of a whole state.
pub open spec fn spec_serialize(v: AppStateView) -> Seq<char> {
    lit_head() + escape_string(v.uncommitted_todo) + seq!['"'] + lit_mid() + serialize_items(
        v.todos,
    ) + seq![']'] + seq!['}']
}

// ---------------------------------------------------------------------------
// Parsing. Each function takes a position and returns the parsed value with
// the position just past it, or `None` when the input does not match.
// ---------------------------------------------------------------------------
pub open spec fn parse_lit(s: Seq<char>, i: int, lit: Seq<char>) -> Option<int> {
    if 0 <= i && i + lit.len() <= s.len() && s.subrange(i, i + lit.len() as int) == lit {
        Some(i + lit.len() as int)
    } else {
        None
    }
}

/// The character named by a short escape, if any.
pub open spec fn unescape_char(e: char) -> Option<char> {
    if e == '"' {
        Some('"')
    } else if e == '\\' {
        Some('\\')
    } else if e == 'b' {
        Some('\u{8}')
    } else if e == 't' {
        Some('\t')
    } else if e == 'n' {
        Some('\n')
    } else if e == 'f' {
        Some('\u{c}')
    } else if e == 'r' {
        Some('\r')
    } else {
        None
    }
}

/// Parses the body of a JSON string up to and including the closing quote,
/// starting just after the opening quote. Unescaped control characters are
/// rejected; `\u` escapes are accepted for the control characters only, which
/// is all the canonical form ever writes.
pub open spec fn parse_string_body(s: Seq<char>, i: int) -> Option<(Seq<char>, int)>
    decreases s.len() - i,
{
    if i < 0 || i >= s.len() {
        None
    } else if s[i] == '"' {
        Some((Seq::empty(), i + 1))
    } else if s[i] == '\\' {
        if i + 1 < s.len() {
            if s[i + 1] == 'u' {
                if i + 5 < s.len() && is_hex_digit(s[i + 2]) && is_hex_digit(s[i + 3])
                    && is_hex_digit(s[i + 4]) && is_hex_digit(s[i + 5]) {
                    let v = hex_val(s[i + 2]) * 4096 + hex_val(s[i + 3]) * 256 + hex_val(
                        s[i + 4],
                    ) * 16 + hex_val(s[i + 5]);
                    if v < 0x20 {
                        match parse_string_body(s, i + 6) {
                            Some((t, j)) => Some((seq![v as char] + t, j)),
                            None => None,
                        }
                    } else {
                        None
                    }
                } else {
                    None
                }
            } else {
                match unescape_char(s[i + 1]) {
                    Some(c) => match parse_string_body(s, i + 2) {
                        Some((t, j)) => Some((seq![c] + t, j)),
                        None => None,
                    },
                    None => None,
                }
            }
        } else {
            None
        }
    } else if (s[i] as u32) < 0x20 {
        None
    } else {
        match parse_string_body(s, i + 1) {
            Some((t, j)) => Some((seq![s[i]] + t, j)),
            None => None,
        }
    }
}

/// The longest run of digit characters from `i`, with the position after it.
pub open spec fn scan_digits(s: Seq<char>, i: int) -> (Seq<char>, int)
    decreases s.len() - i,
{
    if 0 <= i < s.len() && is_digit(s[i]) {
        let (d, j) = scan_digits(s, i + 1);
        (seq![s[i]] + d, j)
    } else {
        (Seq::empty(), i)
    }
}

/// A decimal number that fits in `u32`; at least one digit, greedy.
pub open spec fn parse_u32(s: Seq<char>, i: int) -> Option<(u32, int)> {
    let (d, j) = scan_digits(s, i);
    if d.len() == 0 {
        None
    } else if digits_val(d) <= u32::MAX {
        Some((digits_val(d) as u32, j))
    } else {
        None
    }
}

pub open spec fn parse_bucket(s: Seq<char>, i: int) -> Option<(Bucket, int)> {
    match parse_lit(s, i, "Todo"@) {
        Some(j) => Some((Bucket::Todo, j)),
        None => match parse_lit(s, i, "Done"@) {
            Some(j) => Some((Bucket::Done, j)),
            None => None,
        },
    }
}

pub open spec fn parse_item(s: Seq<char>, i: int) -> Option<(TodoView, int)> {
    match parse_lit(s, i, lit_item_head()) {
        None => None,
        Some(j1) => match parse_u32(s, j1) {
            None => None,
            Some((id, j2)) => match parse_lit(s, j2, lit_item_text()) {
                None => None,
                Some(j3) => match parse_string_body(s, j3) {
                    None => None,
                    Some((text, j4)) => match parse_lit(s, j4, lit_bucket_key()) {
                        None => None,
                        Some(j5) => match parse_bucket(s, j5) {
                            None => None,
                            Some((bucket, j6)) => match parse_lit(s, j6, lit_item_close()) {
                                None => None,
                                Some(j7) => Some((TodoView { id, text, bucket }, j7)),
                            },
                        },
                    },
                },
            },
        },
    }
}

/// A successful item parse moves the position strictly forward and stays
/// within the input.
pub proof fn lemma_parse_item_advances(s: Seq<char>, i: int)
    ensures
        parse_item(s, i) matches Some(p) ==> i < p.1 <= s.len(),
{
    if parse_item(s, i) matches Some(p) {
        let j1 = parse_lit(s, i, lit_item_head()).unwrap();
        lemma_scan_digits_bounds(s, j1);
        let j2 = parse_u32(s, j1).unwrap().1;
        let j3 = parse_lit(s, j2, lit_item_text()).unwrap();
        lemma_parse_string_body_bounds(s, j3);
        reveal_strlit("{\"id\":");
    }
}

/// `scan_digits` never moves backwards nor past the end.
pub proof fn lemma_scan_digits_bounds(s: Seq<char>, i: int)
    requires
        0 <= i <= s.len(),
    ensures
        i <= scan_digits(s, i).1 <= s.len(),
        scan_digits(s, i).0.len() == scan_digits(s, i).1 - i,
    decreases s.len() - i,
{
    if 0 <= i < s.len() && is_digit(s[i]) {
        lemma_scan_digits_bounds(s, i + 1);
    }
}

/// A successful string-body parse moves the position strictly forward and
/// stays within the input.
pub proof fn lemma_parse_string_body_bounds(s: Seq<char>, i: int)
    ensures
        parse_string_body(s, i) matches Some(p) ==> i < p.1 <= s.len(),
    decreases s.len() - i,
{
    if 0 <= i < s.len() {
        if s[i] == '"' {
        } else if s[i] == '\\' {
            if i + 1 < s.len() {
                if s[i + 1] == 'u' {
                    if i + 5 < s.len() {
                        lemma_parse_string_body_bounds(s, i + 6);
                    }
                } else {
                    lemma_parse_string_body_bounds(s, i + 2);
                }
            }
        } else {
            lemma_parse_string_body_bounds(s, i + 1);
        }
    }
}

/// The item list after the opening bracket: empty up to `]`, or items
/// separated by commas up to `]`. The returned position is just past the `]`.
pub open spec fn parse_items(s: Seq<char>, i: int) -> Option<(Seq<TodoView>, int)> {
    if 0 <= i < s.len() && s[i] == ']' {
        Some((Seq::empty(), i + 1))
    } else {
        match parse_item(s, i) {
            None => None,
            Some((t, j)) => match parse_items_rest(s, j) {
                None => None,
                Some((ts, k)) => Some((seq![t] + ts, k)),
            },
        }
    }
}

/// After one parsed item: either the closing `]`, or a comma and another item.
pub open spec fn parse_items_rest(s: Seq<char>, i: int) -> Option<(Seq<TodoView>, int)>
    decreases s.len() - i,
{
    if 0 <= i < s.len() && s[i] == ']' {
        Some((Seq::empty(), i + 1))
    } else if 0 <= i < s.len() && s[i] == ',' {
        match parse_item(s, i + 1) {
            None => None,
            Some((t, j)) => {
                proof {
                    lemma_parse_item_advances(s, i + 1);
                }
                match parse_items_rest(s, j) {
                    None => None,
                    Some((ts, k)) => Some((seq![t] + ts, k)),
                }
            },
        }
    } else {
        None
    }
}

/// The strings that decode, and what they decode to: the exact meaning of
/// `deserialize`. The whole input must be consumed.
pub open spec fn spec_parse_state(s: Seq<char>) -> Option<AppStateView> {
    match parse_lit(s, 0, lit_head()) {
        None => None,
        Some(j1) => match parse_string_body(s, j1) {
            None => None,
            Some((scratch, j2)) => match parse_lit(s, j2, lit_mid()) {
                None => None,
                Some(j3) => match parse_items(s, j3) {
                    None => None,
                    Some((ts, j4)) => match parse_lit(s, j4, "}"@) {
                        None => None,
                        Some(j5) => if j5 == s.len() {
                            Some(AppStateView { uncommitted_todo: scratch, todos: ts })
                        } else {
                            None
                        },
                    },
                },
            },
        },
    }
}

// ---------------------------------------------------------------------------
// Executable serialization.
// ---------------------------------------------------------------------------
/// Relies on `String::push`: appends exactly one character at the end.
#[verifier::external_body]
fn push_char(out: &mut String, c: char)
    ensures
        final(out)@ == old(out)@.push(c),
{
    out.push(c);
}

/// Appends the canonical decimal digits of `n`.
fn append_u32(out: &mut String, n: u32)
    ensures
        final(out)@ == old(out)@ + u32_digits(n as nat),
    decreases n,
{
    if n < 10 {
        push_char(out, (48 + n as u8) as char);
        proof {
            assert(old(out)@.push(digit_char(n as nat)) =~= old(out)@ + u32_digits(n as nat));
        }
    } else {
        let ghost mid = old(out)@ + u32_digits((n / 10) as nat);
        append_u32(out, n / 10);
        push_char(out, (48 + (n % 10) as u8) as char);
        proof {
            assert(mid.push(digit_char((n % 10) as nat)) =~= old(out)@ + u32_digits(n as nat));
        }
    }
}

/// Appends `s` with every character escaped as the wire format asks.
fn append_escaped(out: &mut String, s: &str)
    ensures
        final(out)@ == old(out)@ + escape_string(s@),
{
    let n = s.unicode_len();
    let mut k: usize = 0;
    proof {
        assert(s@.skip(0) =~= s@);
    }
    while k < n
        invariant
            n == s@.len(),
            0 <= k <= n,
            out@ + escape_string(s@.skip(k as int)) == old(out)@ + escape_string(s@),
        decreases n - k,
    {
        let ghost pre = out@;
        let ghost tail = s@.skip(k as int);
        proof {
            assert(tail[0] == s@[k as int]);
            assert(tail.skip(1) =~= s@.skip(k + 1 as int));
            assert(escape_string(tail) == escape_char(s@[k as int]) + escape_string(
                s@.skip(k + 1 as int),
            ));
        }
        let c = s.get_char(k);
        if c == '"' {
            push_char(out, '\\');
            push_char(out, '"');
        } else if c == '\\' {
            push_char(out, '\\');
            push_char(out, '\\');
        } else if (c as u32) < 0x20 {
            push_char(out, '\\');
            if c == '\u{8}' {
                push_char(out, 'b');
            } else if c == '\t' {
                push_char(out, 't');
            } else if c == '\n' {
                push_char(out, 'n');
            } else if c == '\u{c}' {
                push_char(out, 'f');
            } else if c == '\r' {
                push_char(out, 'r');
            } else {
                push_char(out, 'u');
                push_char(out, '0');
                push_char(out, '0');
                let v = c as u32;
                let hi = (v / 16) as u8;
                let lo = (v % 16) as u8;
                push_char(out, (48 + hi) as char);
                if lo < 10 {
                    push_char(out, (48 + lo) as char);
                } else {
                    push_char(out, (87 + lo) as char);
                }
            }
        } else {
            push_char(out, c);
        }
        proof {
            assert(out@ =~= pre + escape_char(s@[k as int]));
            assert(pre + (escape_char(s@[k as int]) + escape_string(s@.skip(k + 1 as int))) =~= (
            pre + escape_char(s@[k as int])) + escape_string(s@.skip(k + 1 as int)));
        }
        k += 1;
    }
    proof {
        assert(s@.skip(n as int) =~= Seq::<char>::empty());
        assert(out@ + escape_string(s@.skip(n as int)) =~= out@);
    }
}

/// Appends one item in the wire form.
fn append_item(out: &mut String, t: &Todo)
    ensures
        final(out)@ == old(out)@ + serialize_item(t@),
{
    out.append("{\"id\":");
    append_u32(out, t.id);
    out.append(",\"text\":\"");
    append_escaped(out, t.text.as_str());
    push_char(out, '"');
    out.append(",\"bucket\":\"");
    match t.bucket {
        Bucket::Todo => out.append("Todo"),
        Bucket::Done => out.append("Done"),
    }
    out.append("\"}");
    proof {
        assert(out@ =~= old(out)@ + serialize_item(t@));
    }
}

/// Serializes `state` into the wire format.
pub fn serialize(state: &AppState) -> (r: String)
    ensures
        r@ == spec_serialize(state@),
{
    let ghost ts = state@.todos;
    let mut out = String::new();
    out.append("{\"uncommitted_todo\":\"");
    append_escaped(&mut out, state.uncommitted_todo.as_str());
    push_char(&mut out, '"');
    out.append(",\"todos\":[");
    let ghost base = out@;
    let n = state.todos.len();
    if n > 0 {
        append_item(&mut out, &state.todos[0]);
        proof {
            assert(ts[0] == state.todos@.map_values(|t: Todo| t@)[0]);
        }
        let mut k: usize = 1;
        while k < n
            invariant
                1 <= k <= n,
                n == state.todos.len(),
                ts == state@.todos,
                ts.len() == n,
                out@ + serialize_items_rest(ts.skip(k as int)) == base + serialize_items(ts),
            decreases n - k,
        {
            let ghost pre = out@;
            let ghost tail = ts.skip(k as int);
            proof {
                assert(tail[0] == ts[k as int]);
                assert(tail.skip(1) =~= ts.skip(k + 1 as int));
                assert(serialize_items_rest(tail) == seq![','] + serialize_item(ts[k as int])
                    + serialize_items_rest(ts.skip(k + 1 as int)));
            }
            push_char(&mut out, ',');
            append_item(&mut out, &state.todos[k]);
            proof {
                assert(state.todos@[k as int]@ == ts[k as int]);
                assert(out@ =~= pre + (seq![','] + serialize_item(ts[k as int])));
                assert(pre + (seq![','] + serialize_item(ts[k as int]) + serialize_items_rest(
                    ts.skip(k + 1 as int),
                )) =~= (pre + (seq![','] + serialize_item(ts[k as int]))) + serialize_items_rest(
                    ts.skip(k + 1 as int),
                ));
            }
            k += 1;
        }
        proof {
            assert(ts.skip(n as int) =~= Seq::<TodoView>::empty());
            assert(out@ + serialize_items_rest(ts.skip(n as int)) =~= out@);
        }
    } else {
        proof {
            assert(serialize_items(ts) =~= Seq::<char>::empty());
            assert(base + serialize_items(ts) =~= base);
        }
    }
    push_char(&mut out, ']');
    push_char(&mut out, '}');
    proof {
        assert(out@ =~= spec_serialize(state@));
    }
    out
}

// ---------------------------------------------------------------------------
// Executable parsing, proved equal to the parsing functions above.
// ---------------------------------------------------------------------------
fn is_digit_char(c: char) -> (r: bool)
    ensures
        r == is_digit(c),
{
    let u = c as u32;
    48 <= u && u <= 57
}

/// The value of a hexadecimal digit character, `None` for any other character.
fn hex_digit_val(c: char) -> (r: Option<u32>)
    ensures
        is_hex_digit(c) ==> (r matches Some(v) && v == hex_val(c)),
        !is_hex_digit(c) ==> r is None,
{
    let u = c as u32;
    if 48 <= u && u <= 57 {
        Some(u - 48)
    } else if 97 <= u && u <= 102 {
        Some(u - 87)
    } else {
        None
    }
}

/// Matches `lit` at position `i` of `s`, returning the position after it.
fn exec_match_lit(s: &str, i: usize, lit: &str) -> (r: Option<usize>)
    ensures
        ({
            match parse_lit(s@, i as int, lit@) {
                Some(j) => r matches Some(x) && x == j,
                None => r is None,
            }
        }),
{
    let sl = s.unicode_len();
    let ll = lit.unicode_len();
    if i > sl || ll > sl - i {
        return None;
    }
    let mut k: usize = 0;
    while k < ll
        invariant
            sl == s@.len(),
            ll == lit@.len(),
            i + ll <= sl,
            0 <= k <= ll,
            forall|m: int| 0 <= m < k ==> s@[i + m] == lit@[m],
        decreases ll - k,
    {
        if s.get_char(i + k) != lit.get_char(k) {
            proof {
                if parse_lit(s@, i as int, lit@) is Some {
                    assert(s@.subrange(i as int, i + ll as int)[k as int] == s@[i + k]);
                }
            }
            return None;
        }
        k += 1;
    }
    proof {
        assert(s@.subrange(i as int, i + ll as int) =~= lit@);
    }
    Some(i + ll)
}

/// Parses a JSON string body (after the opening quote, through the closing
/// quote), unescaping as `parse_string_body` says.
fn exec_parse_string_body(s: &str, i: usize) -> (r: Option<(String, usize)>)
    ensures
        ({
            match parse_string_body(s@, i as int) {
                Some(p) => r matches Some(q) && q.0@ == p.0 && q.1 == p.1,
                None => r is None,
            }
        }),
{
    let sl = s.unicode_len();
    if i > sl {
        return None;
    }
    let mut out = String::new();
    let mut j: usize = i;
    proof {
        if parse_string_body(s@, i as int) is Some {
            let p = parse_string_body(s@, i as int).unwrap();
            assert(Seq::<char>::empty() + p.0 =~= p.0);
        }
    }
    while j < sl
        invariant
            sl == s@.len(),
            i <= j <= sl,
            ({
                match parse_string_body(s@, j as int) {
                    Some(p) => parse_string_body(s@, i as int) matches Some(q) && q.0 == out@ + p.0
                        && q.1 == p.1,
                    None => parse_string_body(s@, i as int) is None,
                }
            }),
        decreases sl - j,
    {
        let ghost pre = out@;
        let c = s.get_char(j);
        if c == '"' {
            proof {
                assert(parse_string_body(s@, j as int) == Some((Seq::<char>::empty(), j + 1 as int)));
                assert(out@ + Seq::<char>::empty() =~= out@);
            }
            return Some((out, j + 1));
        } else if c == '\\' {
            if j + 1 == sl {
                proof {
                    assert(parse_string_body(s@, j as int) is None);
                }
                return None;
            }
            let e = s.get_char(j + 1);
            if e == 'u' {
                if sl - j <= 5 {
                    proof {
                        assert(parse_string_body(s@, j as int) is None);
                    }
                    return None;
                }
                let h2 = hex_digit_val(s.get_char(j + 2));
                let h3 = hex_digit_val(s.get_char(j + 3));
                let h4 = hex_digit_val(s.get_char(j + 4));
                let h5 = hex_digit_val(s.get_char(j + 5));
                let (v2, v3, v4, v5) = match (h2, h3, h4, h5) {
                    (Some(v2), Some(v3), Some(v4), Some(v5)) => (v2, v3, v4, v5),
                    _ => {
                        proof {
                            assert(parse_string_body(s@, j as int) is None);
                        }
                        return None;
                    },
                };
                let v = v2 * 4096 + v3 * 256 + v4 * 16 + v5;
                if v >= 0x20 {
                    proof {
                        assert(parse_string_body(s@, j as int) is None);
                    }
                    return None;
                }
                let ghost sv = hex_val(s@[j + 2]) * 4096 + hex_val(s@[j + 3]) * 256 + hex_val(
                    s@[j + 4],
                ) * 16 + hex_val(s@[j + 5]);
                let c2 = (v as u8) as char;
                push_char(&mut out, c2);
                proof {
                    assert(v == sv);
                    assert(c2 == sv as char);
                    if parse_string_body(s@, j + 6 as int) is Some {
                        let p = parse_string_body(s@, j + 6 as int).unwrap();
                        assert(parse_string_body(s@, j as int) == Some(
                            (seq![sv as char] + p.0, p.1),
                        ));
                        assert(pre + (seq![c2] + p.0) =~= pre.push(c2) + p.0);
                    } else {
                        assert(parse_string_body(s@, j as int) is None);
                    }
                }
                j += 6;
            } else {
                let c2 = if e == '"' {
                    '"'
                } else if e == '\\' {
                    '\\'
                } else if e == 'b' {
                    '\u{8}'
                } else if e == 't' {
                    '\t'
                } else if e == 'n' {
                    '\n'
                } else if e == 'f' {
                    '\u{c}'
                } else if e == 'r' {
                    '\r'
                } else {
                    proof {
                        assert(unescape_char(s@[j + 1 as int]) is None);
                        assert(parse_string_body(s@, j as int) is None);
                    }
                    return None;
                };
                push_char(&mut out, c2);
                proof {
                    assert(unescape_char(s@[j + 1 as int]) == Some(c2));
                    if parse_string_body(s@, j + 2 as int) is Some {
                        let p = parse_string_body(s@, j + 2 as int).unwrap();
                        assert(parse_string_body(s@, j as int) == Some((seq![c2] + p.0, p.1)));
                        assert(pre + (seq![c2] + p.0) =~= pre.push(c2) + p.0);
                    } else {
                        assert(parse_string_body(s@, j as int) is None);
                    }
                }
                j += 2;
            }
        } else if (c as u32) < 0x20 {
            proof {
                assert(parse_string_body(s@, j as int) is None);
            }
            return None;
        } else {
            push_char(&mut out, c);
            proof {
                if parse_string_body(s@, j + 1 as int) is Some {
                    let p = parse_string_body(s@, j + 1 as int).unwrap();
                    assert(parse_string_body(s@, j as int) == Some((seq![c] + p.0, p.1)));
                    assert(pre + (seq![c] + p.0) =~= pre.push(c) + p.0);
                } else {
                    assert(parse_string_body(s@, j as int) is None);
                }
            }
            j += 1;
        }
    }
    proof {
        assert(parse_string_body(s@, j as int) is None);
    }
    None
}

/// `scan_digits` at a position whose digit run ends exactly at `j`.
proof fn lemma_scan_digits_exact(s: Seq<char>, i: int, j: int)
    requires
        0 <= i <= j <= s.len(),
        forall|m: int| i <= m < j ==> is_digit(s[m]),
        j == s.len() || !is_digit(s[j]),
    ensures
        scan_digits(s, i) == (s.subrange(i, j), j),
    decreases j - i,
{
    if i == j {
        assert(s.subrange(i, j) =~= Seq::<char>::empty());
    } else {
        lemma_scan_digits_exact(s, i + 1, j);
        assert(seq![s[i]] + s.subrange(i + 1, j) =~= s.subrange(i, j));
    }
}

/// Parses a decimal `u32` greedily at position `i`.
fn exec_parse_u32(s: &str, i: usize) -> (r: Option<(u32, usize)>)
    ensures
        ({
            match parse_u32(s@, i as int) {
                Some(p) => r matches Some(q) && q.0 == p.0 && q.1 == p.1,
                None => r is None,
            }
        }),
{
    let sl = s.unicode_len();
    if i > sl {
        proof {
            assert(scan_digits(s@, i as int).0.len() == 0);
        }
        return None;
    }
    let mut j: usize = i;
    let mut acc: u64 = 0;
    let mut too_big = false;
    proof {
        assert(s@.subrange(i as int, i as int) =~= Seq::<char>::empty());
    }
    loop
        invariant
            sl == s@.len(),
            i <= j <= sl,
            forall|m: int| i <= m < j ==> is_digit(s@[m]),
            !too_big ==> acc == digits_val(s@.subrange(i as int, j as int)) && acc <= u32::MAX
                as u64,
            too_big ==> digits_val(s@.subrange(i as int, j as int)) > u32::MAX,
        ensures
            i <= j <= sl,
            forall|m: int| i <= m < j ==> is_digit(s@[m]),
            j == sl || !is_digit(s@[j as int]),
            !too_big ==> acc == digits_val(s@.subrange(i as int, j as int)) && acc <= u32::MAX
                as u64,
            too_big ==> digits_val(s@.subrange(i as int, j as int)) > u32::MAX,
        decreases sl - j,
    {
        if j == sl {
            break ;
        }
        let c = s.get_char(j);
        if !is_digit_char(c) {
            break ;
        }
        let ghost dpre = s@.subrange(i as int, j as int);
        proof {
            assert(s@.subrange(i as int, j + 1 as int).drop_last() =~= dpre);
            assert(s@.subrange(i as int, j + 1 as int).last() == s@[j as int]);
            assert(digits_val(s@.subrange(i as int, j + 1 as int)) == digits_val(dpre) * 10
                + digit_val(s@[j as int]));
        }
        let d = (c as u32 - 48) as u64;
        if !too_big {
            let na = acc * 10 + d;
            if na > u32::MAX as u64 {
                too_big = true;
                proof {
                    assert(digits_val(s@.subrange(i as int, j + 1 as int)) == na);
                }
            } else {
                acc = na;
            }
        } else {
            proof {
                assert(digits_val(dpre) * 10 >= digits_val(dpre));
            }
        }
        j += 1;
    }
    proof {
        lemma_scan_digits_exact(s@, i as int, j as int);
    }
    if j == i {
        return None;
    }
    if too_big {
        return None;
    }
    Some((acc as u32, j))
}

fn exec_parse_bucket(s: &str, i: usize) -> (r: Option<(Bucket, usize)>)
    ensures
        ({
            match parse_bucket(s@, i as int) {
                Some(p) => r matches Some(q) && q.0 == p.0 && q.1 == p.1,
                None => r is None,
            }
        }),
{
    match exec_match_lit(s, i, "Todo") {
        Some(j) => Some((Bucket::Todo, j)),
        None => match exec_match_lit(s, i, "Done") {
            Some(j) => Some((Bucket::Done, j)),
            None => None,
        },
    }
}

/// Parses one item object at position `i`.
fn exec_parse_item(s: &str, i: usize) -> (r: Option<(Todo, usize)>)
    ensures
        ({
            match parse_item(s@, i as int) {
                Some(p) => r matches Some(q) && q.0@ == p.0 && q.1 == p.1,
                None => r is None,
            }
        }),
{
    let j1 = match exec_match_lit(s, i, "{\"id\":") {
        Some(j) => j,
        None => {
            return None;
        },
    };
    let (id, j2) = match exec_parse_u32(s, j1) {
        Some(p) => p,
        None => {
            return None;
        },
    };
    let j3 = match exec_match_lit(s, j2, ",\"text\":\"") {
        Some(j) => j,
        None => {
            return None;
        },
    };
    let (text, j4) = match exec_parse_string_body(s, j3) {
        Some(p) => p,
        None => {
            return None;
        },
    };
    let j5 = match exec_match_lit(s, j4, ",\"bucket\":\"") {
        Some(j) => j,
        None => {
            return None;
        },
    };
    let (bucket, j6) = match exec_parse_bucket(s, j5) {
        Some(p) => p,
        None => {
            return None;
        },
    };
    let j7 = match exec_match_lit(s, j6, "\"}") {
        Some(j) => j,
        None => {
            return None;
        },
    };
    Some((Todo { id, text, bucket }, j7))
}

/// Parses the item list at position `i` (just after the opening bracket),
/// through the closing bracket.
fn exec_parse_items(s: &str, i: usize) -> (r: Option<(Vec<Todo>, usize)>)
    ensures
        ({
            match parse_items(s@, i as int) {
                Some(p) => r matches Some(q) && q.0@.map_values(|t: Todo| t@) == p.0 && q.1 == p.1,
                None => r is None,
            }
        }),
{
    let sl = s.unicode_len();
    if i < sl && s.get_char(i) == ']' {
        let empty: Vec<Todo> = Vec::new();
        proof {
            assert(empty@.map_values(|t: Todo| t@) =~= Seq::<TodoView>::empty());
        }
        return Some((empty, i + 1));
    }
    let (t0, j0) = match exec_parse_item(s, i) {
        Some(p) => p,
        None => {
            return None;
        },
    };
    proof {
        lemma_parse_item_advances(s@, i as int);
    }
    let mut acc: Vec<Todo> = Vec::new();
    acc.push(t0);
    let mut j = j0;
    proof {
        let tv = parse_item(s@, i as int).unwrap().0;
        assert(acc@.map_values(|t: Todo| t@) =~= seq![tv]);
        if parse_items_rest(s@, j as int) is Some {
            let p = parse_items_rest(s@, j as int).unwrap();
            assert(parse_items(s@, i as int) == Some((seq![tv] + p.0, p.1)));
        }
    }
    loop
        invariant
            sl == s@.len(),
            j <= sl,
            ({
                match parse_items_rest(s@, j as int) {
                    Some(p) => parse_items(s@, i as int) matches Some(q) && q.0 == acc@.map_values(
                        |t: Todo| t@,
                    ) + p.0 && q.1 == p.1,
                    None => parse_items(s@, i as int) is None,
                }
            }),
        decreases sl - j,
    {
        if j == sl {
            proof {
                assert(parse_items_rest(s@, j as int) is None);
            }
            return None;
        }
        let c = s.get_char(j);
        if c == ']' {
            proof {
                assert(parse_items_rest(s@, j as int) == Some(
                    (Seq::<TodoView>::empty(), j + 1 as int),
                ));
                assert(acc@.map_values(|t: Todo| t@) + Seq::<TodoView>::empty() =~= acc@.map_values(
                    |t: Todo| t@,
                ));
            }
            return Some((acc, j + 1));
        }
        if c != ',' {
            proof {
                assert(parse_items_rest(s@, j as int) is None);
            }
            return None;
        }
        let (t, k) = match exec_parse_item(s, j + 1) {
            Some(p) => p,
            None => {
                proof {
                    assert(parse_items_rest(s@, j as int) is None);
                }
                return None;
            },
        };
        proof {
            lemma_parse_item_advances(s@, j + 1 as int);
        }
        let ghost accpre = acc@.map_values(|t: Todo| t@);
        let ghost tv = parse_item(s@, j + 1 as int).unwrap().0;
        acc.push(t);
        proof {
            assert(acc@.map_values(|t: Todo| t@) =~= accpre.push(tv));
            if parse_items_rest(s@, k as int) is Some {
                let p = parse_items_rest(s@, k as int).unwrap();
                assert(parse_items_rest(s@, j as int) == Some((seq![tv] + p.0, p.1)));
                assert(accpre + (seq![tv] + p.0) =~= accpre.push(tv) + p.0);
            } else {
                assert(parse_items_rest(s@, j as int) is None);
            }
        }
        j = k;
    }
}

/// Decodes a stored string into a state, `None` when the string is not a
/// well-formed encoding. Equals `spec_parse_state` on every input.
pub fn deserialize(s: &str) -> (r: Option<AppState>)
    ensures
        ({
            match spec_parse_state(s@) {
                Some(v) => r matches Some(st) && st@ == v,
                None => r is None,
            }
        }),
{
    let j1 = match exec_match_lit(s, 0, "{\"uncommitted_todo\":\"") {
        Some(j) => j,
        None => {
            return None;
        },
    };
    let (scratch, j2) = match exec_parse_string_body(s, j1) {
        Some(p) => p,
        None => {
            return None;
        },
    };
    let j3 = match exec_match_lit(s, j2, ",\"todos\":[") {
        Some(j) => j,
        None => {
            return None;
        },
    };
    let (todos, j4) = match exec_parse_items(s, j3) {
        Some(p) => p,
        None => {
            return None;
        },
    };
    let j5 = match exec_match_lit(s, j4, "}") {
        Some(j) => j,
        None => {
            return None;
        },
    };
    if j5 != s.unicode_len() {
        return None;
    }
    let st = AppState { uncommitted_todo: scratch, todos };
    proof {
        let v = spec_parse_state(s@).unwrap();
        assert(st@.todos =~= v.todos);
    }
    Some(st)
}

// ---------------------------------------------------------------------------
// The round-trip law: every state decodes back from its own serialization.
// ---------------------------------------------------------------------------
/// Splits knowledge of a concatenation inside `s` into its two halves.
proof fn lemma_subrange_cat(s: Seq<char>, i: int, a: Seq<char>, b: Seq<char>)
    requires
        0 <= i,
        i + a.len() + b.len() <= s.len(),
        s.subrange(i, i + a.len() + b.len()) == a + b,
    ensures
        s.subrange(i, i + a.len() as int) == a,
        s.subrange(i + a.len() as int, i + a.len() + b.len()) == b,
{
    let n = a.len() as int;
    let m = b.len() as int;
    assert forall|k: int| 0 <= k < n implies s.subrange(i, i + n)[k] == a[k] by {
        assert(s.subrange(i, i + n + m)[k] == (a + b)[k]);
    }
    assert(s.subrange(i, i + n) =~= a);
    assert forall|k: int| 0 <= k < m implies s.subrange(i + n, i + n + m)[k] == b[k] by {
        assert(s.subrange(i, i + n + m)[n + k] == (a + b)[n + k]);
    }
    assert(s.subrange(i + n, i + n + m) =~= b);
}

/// The `\u00..` escape of a control character reads back as that character.
proof fn lemma_hex_of_control(c: char)
    requires
        (c as u32) < 0x20,
    ensures
        is_hex_digit('0'),
        is_hex_digit(hex_char(((c as u32) / 16) as nat)),
        is_hex_digit(hex_char(((c as u32) % 16) as nat)),
        hex_val('0') * 4096 + hex_val('0') * 256 + hex_val(hex_char(((c as u32) / 16) as nat))
            * 16 + hex_val(hex_char(((c as u32) % 16) as nat)) < 0x20,
        (hex_val('0') * 4096 + hex_val('0') * 256 + hex_val(hex_char(((c as u32) / 16) as nat))
            * 16 + hex_val(hex_char(((c as u32) % 16) as nat))) as char == c,
{
    let v = c as u32;
    let hi = (v / 16) as nat;
    let lo = (v % 16) as nat;
    assert(hi < 2 && lo < 16);
    assert(hex_val('0') == 0);
    assert(hex_val(hex_char(hi)) == hi);
    assert(hex_val(hex_char(lo)) == lo);
    assert(hi * 16 + lo == v) by (nonlinear_arith)
        requires
            hi == (v / 16) as nat,
            lo == (v % 16) as nat,
    ;
    assert((v as int) as char == c);
}

/// Parsing a string body over the escaped form of `t` (with its closing
/// quote) yields `t` back.
proof fn lemma_parse_string_body_at(s: Seq<char>, i: int, t: Seq<char>)
    requires
        0 <= i,
        i + escape_string(t).len() + 1 <= s.len(),
        s.subrange(i, i + escape_string(t).len() + 1) == escape_string(t) + seq!['"'],
    ensures
        parse_string_body(s, i) == Some((t, i + escape_string(t).len() + 1)),
    decreases t.len(),
{
    let et = escape_string(t);
    let full = et + seq!['"'];
    assert forall|k: int| 0 <= k < et.len() + 1 implies s[i + k] == full[k] by {
        assert(s.subrange(i, i + et.len() + 1)[k] == s[i + k]);
    }
    if t.len() == 0 {
        assert(s[i] == full[0]);
        assert(t =~= Seq::<char>::empty());
    } else {
        let c = t[0];
        let e0 = escape_char(c);
        let rest = escape_string(t.skip(1));
        assert(et == e0 + rest);
        assert(full =~= e0 + (rest + seq!['"']));
        lemma_subrange_cat(s, i, e0, rest + seq!['"']);
        let i2 = i + e0.len() as int;
        lemma_parse_string_body_at(s, i2, t.skip(1));
        assert(seq![c] + t.skip(1) =~= t);
        if c == '"' || c == '\\' || c == '\u{8}' || c == '\t' || c == '\n' || c == '\u{c}' || c
            == '\r' {
            let x = e0[1];
            assert(s[i] == '\\');
            assert(s[i + 1] == x);
            assert(unescape_char(x) == Some(c));
            assert(parse_string_body(s, i) == Some((t, i + et.len() + 1)));
        } else if (c as u32) < 0x20 {
            let v = c as u32;
            assert(s[i] == '\\');
            assert(s[i + 1] == 'u');
            assert(s[i + 2] == '0');
            assert(s[i + 3] == '0');
            assert(s[i + 4] == hex_char((v / 16) as nat));
            assert(s[i + 5] == hex_char((v % 16) as nat));
            lemma_hex_of_control(c);
            assert(parse_string_body(s, i) == Some((t, i + et.len() + 1)));
        } else {
            assert(s[i] == c);
            assert(parse_string_body(s, i) == Some((t, i + et.len() + 1)));
        }
    }
}

/// The canonical digits of `n` are digits, nonempty, and read back as `n`.
proof fn lemma_u32_digits_props(n: nat)
    ensures
        u32_digits(n).len() >= 1,
        forall|k: int| 0 <= k < u32_digits(n).len() ==> is_digit(#[trigger] u32_digits(n)[k]),
        digits_val(u32_digits(n)) == n,
    decreases n,
{
    if n < 10 {
        let d = u32_digits(n);
        assert(d.last() == digit_char(n));
        assert(d.drop_last() =~= Seq::<char>::empty());
        assert(digits_val(Seq::<char>::empty()) == 0);
        assert(digit_val(digit_char(n)) == n);
    } else {
        lemma_u32_digits_props(n / 10);
        let p = u32_digits(n / 10);
        let d = u32_digits(n);
        assert(d == p.push(digit_char(n % 10)));
        assert(d.drop_last() =~= p);
        assert(d.last() == digit_char(n % 10));
        assert(digit_val(digit_char(n % 10)) == n % 10);
        assert(digits_val(d) == (n / 10) * 10 + n % 10);
        assert((n / 10) * 10 + n % 10 == n) by (nonlinear_arith);
    }
}

/// Parsing a number over the canonical digits of `n` (followed by a
/// non-digit) yields `n` back.
proof fn lemma_parse_u32_at(s: Seq<char>, i: int, n: u32)
    requires
        0 <= i,
        i + u32_digits(n as nat).len() <= s.len(),
        s.subrange(i, i + u32_digits(n as nat).len()) == u32_digits(n as nat),
        i + u32_digits(n as nat).len() == s.len() || !is_digit(
            s[i + u32_digits(n as nat).len()],
        ),
    ensures
        parse_u32(s, i) == Some((n, i + u32_digits(n as nat).len())),
{
    let d = u32_digits(n as nat);
    let j = i + d.len() as int;
    lemma_u32_digits_props(n as nat);
    assert forall|m: int| i <= m < j implies is_digit(s[m]) by {
        assert(s.subrange(i, j)[m - i] == s[m]);
        assert(is_digit(d[m - i]));
    }
    lemma_scan_digits_exact(s, i, j);
}

/// Parsing an item over the serialized form of `t` yields `t` back.
proof fn lemma_parse_item_at(s: Seq<char>, i: int, t: TodoView)
    requires
        0 <= i,
        i + serialize_item(t).len() <= s.len(),
        s.subrange(i, i + serialize_item(t).len()) == serialize_item(t),
    ensures
        parse_item(s, i) == Some((t, i + serialize_item(t).len())),
{
    let a = lit_item_head();
    let b = u32_digits(t.id as nat);
    let cseg = lit_item_text();
    let d = escape_string(t.text);
    let q = seq!['"'];
    let f = lit_bucket_key();
    let g = bucket_word(t.bucket);
    let h = lit_item_close();
    let ser = serialize_item(t);
    let r1 = b + (cseg + ((d + q) + (f + (g + h))));
    assert(ser =~= a + r1);
    lemma_subrange_cat(s, i, a, r1);
    let i1 = i + a.len() as int;
    let r2 = cseg + ((d + q) + (f + (g + h)));
    lemma_subrange_cat(s, i1, b, r2);
    let i2 = i1 + b.len() as int;
    // the character after the digits is the comma that opens the text key
    assert(s.subrange(i2, i2 + r2.len() as int)[0] == s[i2]);
    reveal_strlit(",\"text\":\"");
    assert(!is_digit(s[i2]));
    lemma_parse_u32_at(s, i1, t.id);
    let r3 = (d + q) + (f + (g + h));
    lemma_subrange_cat(s, i2, cseg, r3);
    let i3 = i2 + cseg.len() as int;
    lemma_subrange_cat(s, i3, d + q, f + (g + h));
    lemma_parse_string_body_at(s, i3, t.text);
    let i4 = i3 + d.len() + 1 as int;
    lemma_subrange_cat(s, i4, f, g + h);
    let i5 = i4 + f.len() as int;
    lemma_subrange_cat(s, i5, g, h);
    let i6 = i5 + g.len() as int;
    reveal_strlit("Todo");
    reveal_strlit("Done");
    match t.bucket {
        Bucket::Todo => {
            assert(parse_bucket(s, i5) == Some((Bucket::Todo, i6)));
        },
        Bucket::Done => {
            assert(parse_lit(s, i5, "Todo"@) is None) by {
                if parse_lit(s, i5, "Todo"@) is Some {
                    assert(s.subrange(i5, i5 + 4)[0] == "Todo"@[0]);
                    assert(s.subrange(i5, i5 + 4)[0] == "Done"@[0]);
                }
            }
            assert(parse_bucket(s, i5) == Some((Bucket::Done, i6)));
        },
    }
    let i7 = i6 + h.len() as int;
    assert(parse_lit(s, i6, h) == Some(i7));
    assert(TodoView { id: t.id, text: t.text, bucket: t.bucket } =~= t);
    assert(parse_item(s, i) == Some((t, i7)));
}

/// Parsing the tail of an item list over its serialized form (with the
/// closing bracket) yields the items back.
proof fn lemma_parse_items_rest_at(s: Seq<char>, i: int, ts: Seq<TodoView>)
    requires
        0 <= i,
        i + serialize_items_rest(ts).len() + 1 <= s.len(),
        s.subrange(i, i + serialize_items_rest(ts).len() + 1) == serialize_items_rest(ts) + seq![
            ']',
        ],
    ensures
        parse_items_rest(s, i) == Some((ts, i + serialize_items_rest(ts).len() + 1)),
    decreases ts.len(),
{
    let r = serialize_items_rest(ts);
    let full = r + seq![']'];
    assert forall|k: int| 0 <= k < r.len() + 1 implies s[i + k] == full[k] by {
        assert(s.subrange(i, i + r.len() + 1)[k] == s[i + k]);
    }
    if ts.len() == 0 {
        assert(r.len() == 0);
        assert(s[i + 0] == full[0]);
        assert(s[i] == ']');
        assert(ts =~= Seq::<TodoView>::empty());
    } else {
        let item = serialize_item(ts[0]);
        let rest = serialize_items_rest(ts.skip(1));
        assert(r == seq![','] + item + rest);
        assert(full =~= seq![','] + (item + (rest + seq![']'])));
        lemma_subrange_cat(s, i, seq![','], item + (rest + seq![']']));
        lemma_subrange_cat(s, i + 1, item, rest + seq![']']);
        assert(s[i + 0] == full[0]);
        assert(full[0] == ',');
        assert(s[i] == ',');
        lemma_parse_item_at(s, i + 1, ts[0]);
        let j = i + 1 + item.len() as int;
        lemma_parse_items_rest_at(s, j, ts.skip(1));
        assert(seq![ts[0]] + ts.skip(1) =~= ts);
        assert(parse_items_rest(s, i) == Some((ts, i + r.len() + 1)));
    }
}

/// Parsing an item list over its serialized form (with the closing bracket)
/// yields the items back.
proof fn lemma_parse_items_at(s: Seq<char>, i: int, ts: Seq<TodoView>)
    requires
        0 <= i,
        i + serialize_items(ts).len() + 1 <= s.len(),
        s.subrange(i, i + serialize_items(ts).len() + 1) == serialize_items(ts) + seq![']'],
    ensures
        parse_items(s, i) == Some((ts, i + serialize_items(ts).len() + 1)),
{
    let r = serialize_items(ts);
    let full = r + seq![']'];
    assert forall|k: int| 0 <= k < r.len() + 1 implies s[i + k] == full[k] by {
        assert(s.subrange(i, i + r.len() + 1)[k] == s[i + k]);
    }
    if ts.len() == 0 {
        assert(r.len() == 0);
        assert(s[i + 0] == full[0]);
        assert(s[i] == ']');
        assert(ts =~= Seq::<TodoView>::empty());
    } else {
        let item = serialize_item(ts[0]);
        let rest = serialize_items_rest(ts.skip(1));
        assert(r == item + rest);
        assert(full =~= item + (rest + seq![']']));
        lemma_subrange_cat(s, i, item, rest + seq![']']);
        reveal_strlit("{\"id\":");
        assert(item[0] == lit_item_head()[0]);
        assert(s[i + 0] == full[0]);
        assert(full[0] == item[0]);
        assert(s[i] == '{');
        lemma_parse_item_at(s, i, ts[0]);
        let j = i + item.len() as int;
        lemma_parse_items_rest_at(s, j, ts.skip(1));
        assert(seq![ts[0]] + ts.skip(1) =~= ts);
        assert(parse_items(s, i) == Some((ts, i + r.len() + 1)));
    }
}

/// The round-trip law: decoding the canonical serialization of any state
/// gives exactly that state back.
#[verifier::rlimit(100)]
pub proof fn lemma_serialize_round_trip(v: AppStateView)
    ensures
        spec_parse_state(spec_serialize(v)) == Some(v),
{
    let s = spec_serialize(v);
    let a = lit_head();
    let d = escape_string(v.uncommitted_todo);
    let q = seq!['"'];
    let m = lit_mid();
    let items = serialize_items(v.todos);
    let br = seq![']'];
    let cb = seq!['}'];
    assert(s.subrange(0, s.len() as int) =~= s);
    assert(s =~= a + ((d + q) + (m + ((items + br) + cb))));
    lemma_subrange_cat(s, 0, a, (d + q) + (m + ((items + br) + cb)));
    let i1 = a.len() as int;
    lemma_subrange_cat(s, i1, d + q, m + ((items + br) + cb));
    lemma_parse_string_body_at(s, i1, v.uncommitted_todo);
    let i2 = i1 + d.len() + 1 as int;
    lemma_subrange_cat(s, i2, m, (items + br) + cb);
    let i3 = i2 + m.len() as int;
    lemma_subrange_cat(s, i3, items + br, cb);
    lemma_parse_items_at(s, i3, v.todos);
    let i4 = i3 + items.len() + 1 as int;
    reveal_strlit("}");
    assert("}"@ =~= cb);
    assert(s.subrange(i4, i4 + 1)[0] == s[i4]);
    assert(s.subrange(i4, i4 + 1) =~= "}"@);
    assert(parse_lit(s, i4, "}"@) == Some(i4 + 1));
    assert(i4 + 1 == s.len());
    assert(AppStateView { uncommitted_todo: v.uncommitted_todo, todos: v.todos } =~= v);
}

} // verus!
