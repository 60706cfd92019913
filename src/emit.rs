//! Writing a table out as Rust constants or as JSON.
use vstd::prelude::*;
use crate::row::copy_range;
use crate::table::{Table, banks_wf};

verus! {

/// One character as it stands inside a Rust string literal.
pub open spec fn escape_char(c: char) -> Seq<char> {
    if c == '"' {
        seq!['\\', '"']
    } else if c == '\\' {
        seq!['\\', '\\']
    } else if c == '\r' {
        seq!['\\', 'r']
    } else {
        seq![c]
    }
}

/// A text with `"`, `\` and carriage returns escaped, to stand between the
/// quotes of a Rust string literal.
pub open spec fn rust_escape(s: Seq<char>) -> Seq<char>
    decreases s.len(),
{
    if s.len() == 0 {
        Seq::empty()
    } else {
        escape_char(s[0]) + rust_escape(s.skip(1))
    }
}

/// What may stand between the quotes of a Rust string literal, as far as
/// this writer uses it: no bare quote or carriage return, and each backslash
/// followed by `\`, `"` or `r`.
pub open spec fn is_literal_body(t: Seq<char>) -> bool
    decreases t.len(),
{
    if t.len() == 0 {
        true
    } else if t[0] == '\\' {
        t.len() >= 2 && (t[1] == '\\' || t[1] == '"' || t[1] == 'r') && is_literal_body(t.skip(2))
    } else {
        t[0] != '"' && t[0] != '\r' && is_literal_body(t.skip(1))
    }
}

/// The text that a literal body stands for.
pub open spec fn rust_unescape(t: Seq<char>) -> Seq<char>
    decreases t.len(),
{
    if t.len() == 0 {
        Seq::empty()
    } else if t[0] == '\\' && t.len() >= 2 {
        seq![if t[1] == 'r' { '\r' } else { t[1] }] + rust_unescape(t.skip(2))
    } else {
        seq![t[0]] + rust_unescape(t.skip(1))
    }
}

proof fn lemma_escape_append(a: Seq<char>, b: Seq<char>)
    ensures
        rust_escape(a + b) == rust_escape(a) + rust_escape(b),
    decreases a.len(),
{
    if a.len() > 0 {
        assert((a + b).skip(1) =~= a.skip(1) + b);
        lemma_escape_append(a.skip(1), b);
        assert(rust_escape(a + b) =~= rust_escape(a) + rust_escape(b));
    } else {
        assert(a + b =~= b);
    }
}

/// Escaping keeps a name intact: the escaped text is a valid literal body
/// and reads back as the name.
pub proof fn lemma_escape_round_trip(s: Seq<char>)
    ensures
        is_literal_body(rust_escape(s)),
        rust_unescape(rust_escape(s)) == s,
    decreases s.len(),
{
    if s.len() > 0 {
        lemma_escape_round_trip(s.skip(1));
        let e = escape_char(s[0]);
        let r = rust_escape(s.skip(1));
        assert((e + r).skip(e.len() as int) =~= r);
        assert(rust_unescape(e + r) =~= seq![s[0]] + rust_unescape(r));
        assert(s =~= seq![s[0]] + s.skip(1));
    }
}

pub open spec fn digit_char(d: int) -> char {
    seq!['0', '1', '2', '3', '4', '5', '6', '7', '8', '9'][d]
}

/// A number in decimal, without leading zeros.
pub open spec fn decimal(n: nat) -> Seq<char>
    decreases n,
{
    if n < 10 {
        seq![digit_char(n as int)]
    } else {
        decimal(n / 10).push(digit_char((n % 10) as int))
    }
}

/// One slot of a bank in the Rust format.
pub open spec fn rust_slot(e: Option<Seq<char>>) -> Seq<char> {
    match e {
        Some(n) => "Some(\""@ + rust_escape(n) + "\"),"@,
        None => "None,"@,
    }
}

pub open spec fn rust_slots(b: Seq<Option<Seq<char>>>) -> Seq<char>
    decreases b.len(),
{
    if b.len() == 0 {
        Seq::empty()
    } else {
        rust_slots(b.drop_last()) + rust_slot(b.last())
    }
}

pub open spec fn rust_banks(t: Seq<Seq<Option<Seq<char>>>>) -> Seq<char>
    decreases t.len(),
{
    if t.len() == 0 {
        Seq::empty()
    } else {
        rust_banks(t.drop_last()) + "["@ + rust_slots(t.last()) + "],"@
    }
}

/// The opening of the Rust format, up to the number of banks.
pub open spec fn rust_head() -> Seq<char> {
    "pub(crate) static CODES: [[Option<&'static str>; 128]; "@
}

/// The accessor for the version that ends the Rust format.
pub open spec fn rust_version(v: Seq<char>) -> Seq<char> {
    "\n        /// Returns the JEP106 specification version code.\n        pub const fn version() -> &'static str {\n            \""@
        + rust_escape(v) + "\"\n        }\n    "@
}

/// The table as a Rust array of banks of 128 slots, each `Some("name")` or
/// `None`, followed by a function that returns the version.
pub open spec fn rust_text(t: Seq<Seq<Option<Seq<char>>>>, v: Seq<char>) -> Seq<char> {
    rust_head() + decimal(t.len()) + "] = ["@ + rust_banks(t) + "];"@ + rust_version(v)
}

fn push_str(out: &mut Vec<char>, s: &str)
    ensures
        final(out)@ == old(out)@ + s@,
{
    let n = s.unicode_len();
    let mut i: usize = 0;
    while i < n
        invariant
            i <= n == s@.len(),
            out@ == old(out)@ + s@.subrange(0, i as int),
        decreases n - i,
    {
        out.push(s.get_char(i));
        i = i + 1;
        assert(out@ =~= old(out)@ + s@.subrange(0, i as int));
    }
    assert(s@.subrange(0, n as int) =~= s@);
}

fn push_escaped(out: &mut Vec<char>, s: &Vec<char>)
    ensures
        final(out)@ == old(out)@ + rust_escape(s@),
{
    let mut i: usize = 0;
    while i < s.len()
        invariant
            i <= s@.len(),
            out@ == old(out)@ + rust_escape(s@.subrange(0, i as int)),
        decreases s@.len() - i,
    {
        let c = s[i];
        if c == '"' {
            out.push('\\');
            out.push('"');
        } else if c == '\\' {
            out.push('\\');
            out.push('\\');
        } else if c == '\r' {
            out.push('\\');
            out.push('r');
        } else {
            out.push(c);
        }
        proof {
            let one = seq![c];
            assert(s@.subrange(0, i + 1) =~= s@.subrange(0, i as int) + one);
            lemma_escape_append(s@.subrange(0, i as int), one);
            assert(rust_escape(one) =~= escape_char(c) + rust_escape(one.skip(1)));
            assert(rust_escape(one) =~= escape_char(c));
        }
        i = i + 1;
        assert(out@ =~= old(out)@ + rust_escape(s@.subrange(0, i as int)));
    }
    assert(s@.subrange(0, i as int) =~= s@);
}

fn push_decimal(out: &mut Vec<char>, n: usize)
    ensures
        final(out)@ == old(out)@ + decimal(n as nat),
    decreases n,
{
    let d: usize = n % 10;
    let c = if d == 0 {
        '0'
    } else if d == 1 {
        '1'
    } else if d == 2 {
        '2'
    } else if d == 3 {
        '3'
    } else if d == 4 {
        '4'
    } else if d == 5 {
        '5'
    } else if d == 6 {
        '6'
    } else if d == 7 {
        '7'
    } else if d == 8 {
        '8'
    } else {
        '9'
    };
    assert(c == digit_char(d as int));
    if n >= 10 {
        push_decimal(out, n / 10);
    }
    out.push(c);
    assert(out@ =~= old(out)@ + decimal(n as nat));
}

/// The table and its version in the Rust format.
pub fn make_rust(table: &Table, version: &Vec<char>) -> (r: Vec<char>)
    ensures
        r@ == rust_text(table@, version@),
{
    let mut out: Vec<char> = Vec::new();
    push_str(&mut out, "pub(crate) static CODES: [[Option<&'static str>; 128]; ");
    push_decimal(&mut out, table.banks.len());
    push_str(&mut out, "] = [");
    let ghost start = out@;
    let mut b: usize = 0;
    while b < table.banks.len()
        invariant
            b <= table@.len(),
            out@ == start + rust_banks(table@.subrange(0, b as int)),
        decreases table@.len() - b,
    {
        let bank = &table.banks[b];
        let ghost before = out@;
        push_str(&mut out, "[");
        let ghost open = out@;
        let mut j: usize = 0;
        while j < bank.len()
            invariant
                j <= bank@.len(),
                bank.deep_view() == table@[b as int],
                out@ == open + rust_slots(table@[b as int].subrange(0, j as int)),
            decreases bank@.len() - j,
        {
            match &bank[j] {
                Some(name) => {
                    push_str(&mut out, "Some(\"");
                    push_escaped(&mut out, name);
                    push_str(&mut out, "\"),");
                    assert(name.deep_view() =~= name@);
                },
                None => {
                    push_str(&mut out, "None,");
                },
            }
            assert(table@[b as int].subrange(0, j + 1).drop_last() =~= table@[b as int].subrange(
                0,
                j as int,
            ));
            j = j + 1;
            assert(out@ =~= open + rust_slots(table@[b as int].subrange(0, j as int)));
        }
        push_str(&mut out, "],");
        assert(table@[b as int].subrange(0, j as int) =~= table@[b as int]);
        assert(table@.subrange(0, b + 1).drop_last() =~= table@.subrange(0, b as int));
        b = b + 1;
        assert(out@ =~= start + rust_banks(table@.subrange(0, b as int)));
    }
    assert(table@.subrange(0, b as int) =~= table@);
    push_str(&mut out, "];");
    push_str(
        &mut out,
        "\n        /// Returns the JEP106 specification version code.\n        pub const fn version() -> &'static str {\n            \"",
    );
    push_escaped(&mut out, version);
    push_str(&mut out, "\"\n        }\n    ");
    assert(out@ =~= rust_text(table@, version@));
    out
}

/// All slots of all banks, bank after bank, each bank in slot order.
pub open spec fn flatten(t: Seq<Seq<Option<Seq<char>>>>) -> Seq<Option<Seq<char>>>
    decreases t.len(),
{
    if t.len() == 0 {
        Seq::empty()
    } else {
        flatten(t.drop_last()) + t.last()
    }
}

/// Flattening banks of 128 slots gives 128 entries per bank, slot `s` of
/// bank `b` at position `128 * b + s`.
pub proof fn lemma_flatten(t: Seq<Seq<Option<Seq<char>>>>)
    requires
        banks_wf(t),
    ensures
        flatten(t).len() == 128 * t.len(),
        forall|b: int, s: int|
            0 <= b < t.len() && 0 <= s < 128 ==> #[trigger] flatten(t)[128 * b + s] == t[b][s],
    decreases t.len(),
{
    if t.len() > 0 {
        let u = t.drop_last();
        assert(banks_wf(u));
        lemma_flatten(u);
        assert(t.last().len() == 128);
        assert forall|b: int, s: int| 0 <= b < t.len() && 0 <= s < 128 implies #[trigger] flatten(
            t,
        )[128 * b + s] == t[b][s] by {
            if b < t.len() - 1 {
                assert(128 * b + s < 128 * u.len()) by (nonlinear_arith)
                    requires
                        b < u.len(),
                        s < 128,
                ;
                assert(u[b] == t[b]);
            } else {
                assert(128 * b + s - 128 * u.len() == s) by (nonlinear_arith)
                    requires
                        b == u.len(),
                ;
            }
        }
    }
}

/// The slots of a table in the order that `flatten` gives.
pub fn flatten_table(table: &Table) -> (r: Vec<Option<Vec<char>>>)
    ensures
        r.deep_view() == flatten(table@),
{
    let mut r: Vec<Option<Vec<char>>> = Vec::new();
    let mut b: usize = 0;
    while b < table.banks.len()
        invariant
            b <= table@.len(),
            r.deep_view() == flatten(table@.subrange(0, b as int)),
        decreases table@.len() - b,
    {
        let bank = &table.banks[b];
        let ghost before = r.deep_view();
        assert(bank@.len() == table@[b as int].len());
        let mut j: usize = 0;
        while j < bank.len()
            invariant
                j <= bank@.len(),
                bank.deep_view() == table@[b as int],
                r.deep_view() == before + table@[b as int].subrange(0, j as int),
            decreases bank@.len() - j,
        {
            let e = match &bank[j] {
                Some(name) => {
                    let c = copy_range(name, 0, name.len());
                    assert(c.deep_view() =~= name.deep_view());
                    Some(c)
                },
                None => None,
            };
            assert(e.deep_view() == table@[b as int][j as int]);
            let ghost prev = r.deep_view();
            let ghost ev = e.deep_view();
            r.push(e);
            assert(r.deep_view() =~= prev.push(ev));
            assert(table@[b as int].subrange(0, j + 1) =~= table@[b as int].subrange(0, j as int).push(ev));
            j = j + 1;
            assert(r.deep_view() =~= before + table@[b as int].subrange(0, j as int));
        }
        assert(table@[b as int].subrange(0, j as int) =~= table@[b as int]);
        assert(table@.subrange(0, b + 1).drop_last() =~= table@.subrange(0, b as int));
        b = b + 1;
    }
    assert(table@.subrange(0, b as int) =~= table@);
    r
}

pub open spec fn lower_hex(d: int) -> char {
    seq!['0', '1', '2', '3', '4', '5', '6', '7', '8', '9', 'a', 'b', 'c', 'd', 'e', 'f'][d]
}

/// One character as it stands inside a JSON string: `"` and `\` and the
/// control characters below 0x20 escaped, the short form where JSON has
/// one, else `\u00` and two lower-case hex digits.
pub open spec fn json_escape_char(c: char) -> Seq<char> {
    let u = c as u32 as int;
    if c == '"' {
        seq!['\\', '"']
    } else if c == '\\' {
        seq!['\\', '\\']
    } else if u == 0x8 {
        seq!['\\', 'b']
    } else if u == 0x9 {
        seq!['\\', 't']
    } else if u == 0xa {
        seq!['\\', 'n']
    } else if u == 0xc {
        seq!['\\', 'f']
    } else if u == 0xd {
        seq!['\\', 'r']
    } else if u < 0x20 {
        seq!['\\', 'u', '0', '0', lower_hex(u / 16), lower_hex(u % 16)]
    } else {
        seq![c]
    }
}

pub open spec fn json_escape(s: Seq<char>) -> Seq<char>
    decreases s.len(),
{
    if s.len() == 0 {
        Seq::empty()
    } else {
        json_escape_char(s[0]) + json_escape(s.skip(1))
    }
}

/// A text as a JSON string: between quotes, escaped.
pub open spec fn json_quoted(s: Seq<char>) -> Seq<char> {
    seq!['"'] + json_escape(s) + seq!['"']
}

pub open spec fn hex_digit_value(c: char) -> int {
    if '0' <= c && c <= '9' {
        c as int - '0' as int
    } else if 'a' <= c && c <= 'f' {
        c as int - 'a' as int + 10
    } else {
        c as int - 'A' as int + 10
    }
}

/// The character of a short escape `\x`.
pub open spec fn json_short_escape(x: char) -> char {
    if x == 'b' {
        '\u{8}'
    } else if x == 't' {
        '\u{9}'
    } else if x == 'n' {
        '\u{a}'
    } else if x == 'f' {
        '\u{c}'
    } else if x == 'r' {
        '\u{d}'
    } else {
        x
    }
}

pub open spec fn code_point(c: char) -> int {
    c as u32 as int
}

/// The character with the code point `v`.
pub open spec fn char_of(v: int) -> char {
    (v as u32) as char
}

/// The text that the inside of a JSON string stands for, as a JSON reader
/// decodes it.
pub open spec fn json_unescape(t: Seq<char>) -> Seq<char>
    decreases t.len(),
{
    if t.len() == 0 {
        Seq::empty()
    } else if t[0] == '\\' && t.len() >= 6 && t[1] == 'u' {
        let v = 4096 * hex_digit_value(t[2]) + 256 * hex_digit_value(t[3]) + 16 * hex_digit_value(
            t[4],
        ) + hex_digit_value(t[5]);
        seq![char_of(v)] + json_unescape(t.skip(6))
    } else if t[0] == '\\' && t.len() >= 2 {
        seq![json_short_escape(t[1])] + json_unescape(t.skip(2))
    } else {
        seq![t[0]] + json_unescape(t.skip(1))
    }
}

/// The inside of a JSON string that a text is written as.
pub open spec fn json_body(q: Seq<char>) -> Seq<char> {
    q.subrange(1, q.len() - 1)
}

/// A text written as a JSON string reads back as the same text: names and
/// the version survive the JSON format.
pub proof fn lemma_json_round_trip(s: Seq<char>)
    ensures
        json_quoted(s).len() >= 2,
        json_quoted(s)[0] == '"',
        json_quoted(s).last() == '"',
        json_unescape(json_body(json_quoted(s))) == s,
{
    assert(json_body(json_quoted(s)) =~= json_escape(s));
    lemma_json_unescape(s);
}

proof fn lemma_json_unescape(s: Seq<char>)
    ensures
        json_unescape(json_escape(s)) == s,
    decreases s.len(),
{
    if s.len() > 0 {
        lemma_json_unescape(s.skip(1));
        let c = s[0];
        let e = json_escape_char(c);
        let r = json_escape(s.skip(1));
        assert((e + r).skip(e.len() as int) =~= r);
        let u = c as u32 as int;
        if u < 0x20 && u != 0x8 && u != 0x9 && u != 0xa && u != 0xc && u != 0xd {
            assert(0 <= u);
            let hi = u / 16;
            let lo = u % 16;
            assert(hex_digit_value(lower_hex(hi)) == hi) by {
                assert(0 <= hi < 2);
            }
            assert(hex_digit_value(lower_hex(lo)) == lo) by {
                assert(0 <= lo < 16);
                lemma_lower_hex(lo);
            }
            let v = 16 * hi + lo;
            vstd::arithmetic::div_mod::lemma_fundamental_div_mod(u, 16);
            assert(v == u);
            assert(code_point(c) == v);
            vstd::utf8::char_u32_cast(c, c as u32);
            assert(char_of(v) == c);
            assert(json_unescape(e + r) =~= seq![c] + json_unescape(r));
        } else {
            vstd::utf8::char_u32_cast(c, c as u32);
            if u == 0x8 {
                vstd::utf8::char_u32_cast('\u{8}', '\u{8}' as u32);
                assert(c == '\u{8}');
            } else if u == 0x9 {
                vstd::utf8::char_u32_cast('\u{9}', '\u{9}' as u32);
                assert(c == '\u{9}');
            } else if u == 0xa {
                vstd::utf8::char_u32_cast('\u{a}', '\u{a}' as u32);
                assert(c == '\u{a}');
            } else if u == 0xc {
                vstd::utf8::char_u32_cast('\u{c}', '\u{c}' as u32);
                assert(c == '\u{c}');
            } else if u == 0xd {
                vstd::utf8::char_u32_cast('\u{d}', '\u{d}' as u32);
                assert(c == '\u{d}');
            }
            assert(json_unescape(e + r) =~= seq![c] + json_unescape(r));
        }
        assert(s =~= seq![c] + s.skip(1));
    }
}

proof fn lemma_lower_hex(d: int)
    requires
        0 <= d < 16,
    ensures
        hex_digit_value(lower_hex(d)) == d,
{
    let h = seq!['0', '1', '2', '3', '4', '5', '6', '7', '8', '9', 'a', 'b', 'c', 'd', 'e', 'f'];
    assert(h[d] == lower_hex(d));
    if d < 10 {
        assert(h[d] as int == '0' as int + d);
    } else {
        assert(h[d] as int == 'a' as int + d - 10);
    }
}

/// Relies on `serde_json::to_string` on a `str`: it writes the text into a
/// `Vec` as a JSON string, escaped as `json_quoted` states, and cannot fail
/// there.
#[verifier::external_body]
fn json_quote(s: &Vec<char>) -> (r: Vec<char>)
    ensures
        r@ == json_quoted(s@),
{
    let text: String = s.iter().collect();
    serde_json::to_string(text.as_str()).unwrap_or_default().chars().collect()
}

/// An entry of the manufacturer list with its name quoted.
pub open spec fn quote_entry(e: Option<Seq<char>>) -> Option<Seq<char>> {
    match e {
        Some(n) => Some(json_quoted(n)),
        None => None,
    }
}

/// One entry of the list: the quoted name, or `null`.
pub open spec fn json_item(q: Option<Seq<char>>) -> Seq<char> {
    match q {
        Some(t) => t,
        None => "null"@,
    }
}

/// The entries of the list, each on a line of its own indented by four.
pub open spec fn json_items(qs: Seq<Option<Seq<char>>>) -> Seq<char>
    decreases qs.len(),
{
    if qs.len() == 0 {
        Seq::empty()
    } else {
        json_items(qs.drop_last()) + (if qs.len() > 1 {
            ",\n    "@
        } else {
            "\n    "@
        }) + json_item(qs.last())
    }
}

/// The JSON document, laid out as serde_json's pretty printer lays it out:
/// an object with the list of manufacturers and the version, keys in order.
/// `qv` is the quoted version, `qs` the entries with their names quoted.
pub open spec fn json_text(qv: Seq<char>, qs: Seq<Option<Seq<char>>>) -> Seq<char> {
    "{\n  \"manufacturers\": ["@ + json_items(qs) + (if qs.len() == 0 {
        "]"@
    } else {
        "\n  ]"@
    }) + ",\n  \"version\": "@ + qv + "\n}"@
}

fn push_chars(out: &mut Vec<char>, s: &Vec<char>)
    ensures
        final(out)@ == old(out)@ + s@,
{
    let mut i: usize = 0;
    while i < s.len()
        invariant
            i <= s@.len(),
            out@ == old(out)@ + s@.subrange(0, i as int),
        decreases s@.len() - i,
    {
        out.push(s[i]);
        i = i + 1;
        assert(out@ =~= old(out)@ + s@.subrange(0, i as int));
    }
    assert(s@.subrange(0, i as int) =~= s@);
}

/// Lays out the JSON document from the quoted version and the entries with
/// their names quoted.
pub fn frame_json(quoted_version: &Vec<char>, quoted: &Vec<Option<Vec<char>>>) -> (r: Vec<char>)
    ensures
        r@ == json_text(quoted_version@, quoted.deep_view()),
{
    let mut out: Vec<char> = Vec::new();
    push_str(&mut out, "{\n  \"manufacturers\": [");
    let ghost start = out@;
    let mut i: usize = 0;
    while i < quoted.len()
        invariant
            i <= quoted@.len(),
            out@ == start + json_items(quoted.deep_view().subrange(0, i as int)),
        decreases quoted@.len() - i,
    {
        if i > 0 {
            push_str(&mut out, ",\n    ");
        } else {
            push_str(&mut out, "\n    ");
        }
        match &quoted[i] {
            Some(q) => {
                push_chars(&mut out, q);
                assert(q.deep_view() =~= q@);
            },
            None => {
                push_str(&mut out, "null");
            },
        }
        assert(quoted.deep_view().subrange(0, i + 1).drop_last() =~= quoted.deep_view().subrange(
            0,
            i as int,
        ));
        i = i + 1;
        assert(out@ =~= start + json_items(quoted.deep_view().subrange(0, i as int)));
    }
    assert(quoted.deep_view().subrange(0, i as int) =~= quoted.deep_view());
    if quoted.len() == 0 {
        push_str(&mut out, "]");
    } else {
        push_str(&mut out, "\n  ]");
    }
    push_str(&mut out, ",\n  \"version\": ");
    push_chars(&mut out, quoted_version);
    push_str(&mut out, "\n}");
    assert(out@ =~= json_text(quoted_version@, quoted.deep_view()));
    out
}

/// The table and its version in the JSON format: the version, and every
/// slot of every bank in one list, bank after bank.
pub fn make_json(table: &Table, version: &Vec<char>) -> (r: Vec<char>)
    ensures
        r@ == json_text(
            json_quoted(version@),
            flatten(table@).map_values(|e: Option<Seq<char>>| quote_entry(e)),
        ),
{
    let entries = flatten_table(table);
    let qv = json_quote(version);
    let mut quoted: Vec<Option<Vec<char>>> = Vec::new();
    let mut i: usize = 0;
    while i < entries.len()
        invariant
            i <= entries@.len(),
            entries.deep_view() == flatten(table@),
            quoted.deep_view() =~= entries.deep_view().subrange(0, i as int).map_values(
                |e: Option<Seq<char>>| quote_entry(e),
            ),
        decreases entries@.len() - i,
    {
        let q = match &entries[i] {
            Some(name) => {
                assert(name.deep_view() =~= name@);
                let q = json_quote(name);
                assert(q.deep_view() =~= q@);
                Some(q)
            },
            None => None,
        };
        assert(q.deep_view() == quote_entry(entries.deep_view()[i as int]));
        let ghost prev = quoted.deep_view();
        let ghost qv2 = q.deep_view();
        quoted.push(q);
        assert(quoted.deep_view() =~= prev.push(qv2));
        i = i + 1;
        assert(quoted.deep_view() =~= entries.deep_view().subrange(0, i as int).map_values(
            |e: Option<Seq<char>>| quote_entry(e),
        ));
    }
    assert(entries.deep_view().subrange(0, i as int) =~= entries.deep_view());
    frame_json(&qv, &quoted)
}

/// A table with no banks gives an empty outer array and the accessor for the
/// version in the Rust format, and an empty list and the version in JSON.
pub proof fn lemma_empty_table(v: Seq<char>)
    ensures
        rust_text(Seq::empty(), v) == rust_head() + seq!['0'] + "] = ["@ + "];"@ + rust_version(v),
        json_text(
            json_quoted(v),
            flatten(Seq::empty()).map_values(|e: Option<Seq<char>>| quote_entry(e)),
        ) == "{\n  \"manufacturers\": ["@ + "]"@ + ",\n  \"version\": "@ + json_quoted(v)
            + "\n}"@,
{
    assert(decimal(0) =~= seq!['0']);
    assert(rust_banks(Seq::empty()) =~= Seq::<char>::empty());
    let qs = flatten(Seq::<Seq<Option<Seq<char>>>>::empty()).map_values(
        |e: Option<Seq<char>>| quote_entry(e),
    );
    assert(qs.len() == 0);
    assert(json_items(qs) =~= Seq::<char>::empty());
    assert(rust_text(Seq::empty(), v) =~= rust_head() + seq!['0'] + "] = ["@ + "];"@ + rust_version(v));
    assert(json_text(json_quoted(v), qs) =~= "{\n  \"manufacturers\": ["@ + "]"@ + ",\n  \"version\": "@
        + json_quoted(v) + "\n}"@);
}

/// The JSON list holds 128 entries per bank, bank after bank: `null` for an
/// empty slot, and for a name a JSON string that reads back as the name.
pub proof fn lemma_json_entries(t: Seq<Seq<Option<Seq<char>>>>)
    requires
        banks_wf(t),
    ensures
        flatten(t).map_values(|e: Option<Seq<char>>| quote_entry(e)).len() == 128 * t.len(),
        forall|b: int, s: int|
            0 <= b < t.len() && 0 <= s < 128 ==> match #[trigger] t[b][s] {
                None => flatten(t).map_values(|e: Option<Seq<char>>| quote_entry(e))[128 * b
                    + s] is None,
                Some(n) => flatten(t).map_values(|e: Option<Seq<char>>| quote_entry(e))[128 * b
                    + s] == Some(json_quoted(n)) && json_unescape(json_body(json_quoted(n)))
                    == n,
            },
{
    lemma_flatten(t);
    assert forall|b: int, s: int| 0 <= b < t.len() && 0 <= s < 128 implies match #[trigger] t[b][s] {
        None => flatten(t).map_values(|e: Option<Seq<char>>| quote_entry(e))[128 * b + s] is None,
        Some(n) => flatten(t).map_values(|e: Option<Seq<char>>| quote_entry(e))[128 * b + s]
            == Some(json_quoted(n)) && json_unescape(json_body(json_quoted(n))) == n,
    } by {
        assert(flatten(t)[128 * b + s] == t[b][s]);
        assert(0 <= 128 * b + s < 128 * t.len()) by (nonlinear_arith)
            requires
                0 <= b < t.len(),
                0 <= s < 128,
        ;
        if let Some(n) = t[b][s] {
            lemma_json_round_trip(n);
        }
    }
}

} // verus!
