//! Recognising one row of the manufacturer table in extracted text.
//!
//! A row is a whole line of the form
//! `^[0-9]+\s+(.*?)\s+([01]\s+){8}([0-9A-F]{2})\s+$`:
//! a decimal number, a name (the shortest that lets the line match), eight
//! binary flags and a code of two upper-case hexadecimal digits, with
//! whitespace between the parts and at the end.
use vstd::prelude::*;

verus! {

/// The Unicode White_Space characters, the `\s` class of the row pattern.
pub open spec fn is_space(c: char) -> bool {
    let u = c as u32;
    (0x9 <= u && u <= 0xd) || u == 0x20 || u == 0x85 || u == 0xa0 || u == 0x1680 || (0x2000 <= u
        && u <= 0x200a) || u == 0x2028 || u == 0x2029 || u == 0x202f || u == 0x205f || u == 0x3000
}

pub open spec fn is_digit(c: char) -> bool {
    '0' <= c && c <= '9'
}

/// An upper-case hexadecimal digit.
pub open spec fn is_hex(c: char) -> bool {
    is_digit(c) || ('A' <= c && c <= 'F')
}

pub open spec fn is_flag(c: char) -> bool {
    c == '0' || c == '1'
}

/// The end of the run of digits that starts at `i`.
pub open spec fn digit_run(s: Seq<char>, i: int) -> int
    decreases s.len() - i,
{
    if 0 <= i < s.len() && is_digit(s[i]) {
        digit_run(s, i + 1)
    } else {
        i
    }
}

/// The end of the run of whitespace that starts at `i`.
pub open spec fn space_run(s: Seq<char>, i: int) -> int
    decreases s.len() - i,
{
    if 0 <= i < s.len() && is_space(s[i]) {
        space_run(s, i + 1)
    } else {
        i
    }
}

/// Where `s[i..]` is `k` flags, each followed by whitespace, then two hex
/// digits and whitespace up to the end: the position of the two hex digits.
pub open spec fn code_at(s: Seq<char>, i: int, k: nat) -> Option<int>
    decreases k,
{
    if k == 0 {
        if 0 <= i && i + 2 < s.len() && is_hex(s[i]) && is_hex(s[i + 1]) && space_run(s, i + 2)
            == s.len() {
            Some(i)
        } else {
            None
        }
    } else if 0 <= i < s.len() && is_flag(s[i]) && space_run(s, i + 1) > i + 1 {
        code_at(s, space_run(s, i + 1), (k - 1) as nat)
    } else {
        None
    }
}

/// `s[p..]` is whitespace, then the eight flags and the code.
pub open spec fn tail_at(s: Seq<char>, p: int) -> bool {
    space_run(s, p) > p && code_at(s, space_run(s, p), 8) is Some
}

/// The first end `p >= i` of a name that lets the rest of the line match;
/// a name holds no line feed.
pub open spec fn first_tail(s: Seq<char>, i: int) -> Option<int>
    decreases s.len() + 1 - i,
{
    if i < 0 || i > s.len() {
        None
    } else if tail_at(s, i) {
        Some(i)
    } else if i < s.len() && s[i] != '\n' {
        first_tail(s, i + 1)
    } else {
        None
    }
}

/// The name and the two-digit code of a line that is a row, or `None`.
///
/// The number and the whitespace after it are as long as they can be, the
/// name as short as it can be. Only where no name after all of that
/// whitespace fits does the name start inside it, and it is then empty.
pub open spec fn row_of(s: Seq<char>) -> Option<(Seq<char>, Seq<char>)> {
    let d = digit_run(s, 0);
    let q = space_run(s, d);
    if d == 0 || q == d {
        None
    } else {
        match first_tail(s, q) {
            Some(p) => {
                let h = code_at(s, space_run(s, p), 8)->Some_0;
                Some((s.subrange(q, p), s.subrange(h, h + 2)))
            },
            None => if q - d >= 2 && code_at(s, q, 8) is Some {
                let h = code_at(s, q, 8)->Some_0;
                Some((Seq::empty(), s.subrange(h, h + 2)))
            } else {
                None
            },
        }
    }
}

/// A code as the row pattern admits it: two upper-case hex digits.
pub open spec fn is_code(code: Seq<char>) -> bool {
    code.len() == 2 && is_hex(code[0]) && is_hex(code[1])
}

proof fn lemma_code_at(s: Seq<char>, i: int, k: nat)
    ensures
        code_at(s, i, k) matches Some(h) ==> 0 <= h && h + 2 < s.len() && is_code(
            s.subrange(h, h + 2),
        ),
    decreases k,
{
    if k > 0 && 0 <= i < s.len() && is_flag(s[i]) && space_run(s, i + 1) > i + 1 {
        lemma_code_at(s, space_run(s, i + 1), (k - 1) as nat);
    }
}

proof fn lemma_first_tail(s: Seq<char>, i: int)
    ensures
        first_tail(s, i) matches Some(p) ==> tail_at(s, p),
    decreases s.len() + 1 - i,
{
    if 0 <= i <= s.len() && !tail_at(s, i) && i < s.len() && s[i] != '\n' {
        lemma_first_tail(s, i + 1);
    }
}

/// The code of every row is two hex digits.
pub proof fn lemma_row_code(s: Seq<char>)
    ensures
        row_of(s) is Some ==> is_code(row_of(s)->Some_0.1),
{
    let d = digit_run(s, 0);
    let q = space_run(s, d);
    match first_tail(s, q) {
        Some(p) => {
            lemma_first_tail(s, q);
            lemma_code_at(s, space_run(s, p), 8);
        },
        None => lemma_code_at(s, q, 8),
    }
}

/// One row of the table: the manufacturer's name and its code as written.
pub struct Row {
    pub name: Vec<char>,
    pub code_hex: Vec<char>,
}

impl View for Row {
    type V = (Seq<char>, Seq<char>);

    open spec fn view(&self) -> (Seq<char>, Seq<char>) {
        (self.name@, self.code_hex@)
    }
}

pub fn is_space_char(c: char) -> (r: bool)
    ensures
        r == is_space(c),
{
    let u = c as u32;
    (0x9 <= u && u <= 0xd) || u == 0x20 || u == 0x85 || u == 0xa0 || u == 0x1680 || (0x2000 <= u
        && u <= 0x200a) || u == 0x2028 || u == 0x2029 || u == 0x202f || u == 0x205f || u == 0x3000
}

fn skip_digits(s: &Vec<char>, i: usize) -> (r: usize)
    requires
        i <= s@.len(),
    ensures
        r as int == digit_run(s@, i as int),
        i <= r <= s@.len(),
{
    let mut j: usize = i;
    while j < s.len() && '0' <= s[j] && s[j] <= '9'
        invariant
            i <= j <= s@.len(),
            digit_run(s@, i as int) == digit_run(s@, j as int),
        decreases s@.len() - j,
    {
        j = j + 1;
    }
    j
}

fn skip_spaces(s: &Vec<char>, i: usize) -> (r: usize)
    requires
        i <= s@.len(),
    ensures
        r as int == space_run(s@, i as int),
        i <= r <= s@.len(),
{
    let mut j: usize = i;
    while j < s.len() && is_space_char(s[j])
        invariant
            i <= j <= s@.len(),
            space_run(s@, i as int) == space_run(s@, j as int),
        decreases s@.len() - j,
    {
        j = j + 1;
    }
    j
}

fn is_hex_char(c: char) -> (r: bool)
    ensures
        r == is_hex(c),
{
    ('0' <= c && c <= '9') || ('A' <= c && c <= 'F')
}

/// The position of the code after eight flags that start at `i`.
fn find_code(s: &Vec<char>, i: usize) -> (r: Option<usize>)
    requires
        i <= s@.len(),
    ensures
        match r {
            Some(h) => code_at(s@, i as int, 8) == Some(h as int),
            None => code_at(s@, i as int, 8) is None,
        },
        r matches Some(h) ==> h + 2 < s@.len(),
{
    let mut j: usize = i;
    let mut k: usize = 8;
    while k > 0
        invariant
            i <= j <= s@.len(),
            k <= 8,
            code_at(s@, i as int, 8) == code_at(s@, j as int, k as nat),
        decreases k,
    {
        if j < s.len() && (s[j] == '0' || s[j] == '1') {
            let e = skip_spaces(s, j + 1);
            if e > j + 1 {
                j = e;
                k = k - 1;
            } else {
                return None;
            }
        } else {
            return None;
        }
    }
    if s.len() > 2 && j < s.len() - 2 && is_hex_char(s[j]) && is_hex_char(s[j + 1]) && skip_spaces(s, j + 2)
        == s.len() {
        Some(j)
    } else {
        None
    }
}

/// Whether the rest of the line from `p` is whitespace, the flags and the
/// code; the position of the code if so.
fn tail_code(s: &Vec<char>, p: usize) -> (r: Option<usize>)
    requires
        p <= s@.len(),
    ensures
        r is Some <==> tail_at(s@, p as int),
        r matches Some(h) ==> code_at(s@, space_run(s@, p as int), 8) == Some(h as int),
        r matches Some(h) ==> h + 2 < s@.len(),
{
    let e = skip_spaces(s, p);
    if e > p {
        find_code(s, e)
    } else {
        None
    }
}

pub(crate) fn copy_range(s: &Vec<char>, lo: usize, hi: usize) -> (r: Vec<char>)
    requires
        lo <= hi <= s@.len(),
    ensures
        r@ == s@.subrange(lo as int, hi as int),
{
    let mut r: Vec<char> = Vec::new();
    let mut j: usize = lo;
    while j < hi
        invariant
            lo <= j <= hi <= s@.len(),
            r@ == s@.subrange(lo as int, j as int),
        decreases hi - j,
    {
        r.push(s[j]);
        j = j + 1;
    }
    r
}

/// Recognises a row; `None` for every line that does not match the pattern.
pub fn parse_row(line: &Vec<char>) -> (r: Option<Row>)
    ensures
        r is None <==> row_of(line@) is None,
        r matches Some(row) ==> row_of(line@) == Some(row@),
{
    let n = line.len();
    let d = skip_digits(line, 0);
    let q = skip_spaces(line, d);
    if d == 0 || q == d {
        return None;
    }
    let mut p: usize = q;
    loop
        invariant
            0 < d < q <= p <= line@.len() == n,
            d as int == digit_run(line@, 0),
            q as int == space_run(line@, d as int),
            first_tail(line@, q as int) == first_tail(line@, p as int),
        ensures
            first_tail(line@, q as int) is None,
        decreases line@.len() - p,
    {
        match tail_code(line, p) {
            Some(h) => {
                assert(first_tail(line@, p as int) == Some(p as int));
                let row = Row { name: copy_range(line, q, p), code_hex: copy_range(line, h, h + 2) };
                return Some(row);
            },
            None => {
                if p < line.len() && line[p] != '\n' {
                    p = p + 1;
                } else {
                    assert(first_tail(line@, p as int) is None);
                    break ;
                }
            },
        }
    }
    if q - d >= 2 {
        match find_code(line, q) {
            Some(h) => Some(Row { name: Vec::new(), code_hex: copy_range(line, h, h + 2) }),
            None => None,
        }
    } else {
        None
    }
}

} // verus!
