//! Folding the rows of a document into banks of 128 slots.
use vstd::prelude::*;
use crate::row::{is_digit, is_hex, is_code, row_of, parse_row, copy_range, lemma_row_code, Row};

verus! {

/// The number of slots in a bank: codes are seven bits wide.
pub const BANK_SIZE: usize = 128;

/// A bank as a sequence of slots, each empty or holding a name.
pub open spec fn empty_bank() -> Seq<Option<Seq<char>>> {
    Seq::new(128, |i: int| None)
}

/// Every bank holds exactly 128 slots.
pub open spec fn banks_wf(banks: Seq<Seq<Option<Seq<char>>>>) -> bool {
    forall|i: int| 0 <= i < banks.len() ==> #[trigger] banks[i].len() == 128
}

pub open spec fn hex_value(c: char) -> int {
    if is_digit(c) {
        c as int - '0' as int
    } else {
        c as int - 'A' as int + 10
    }
}

/// The value of a two-digit code.
pub open spec fn code_value(code: Seq<char>) -> int {
    16 * hex_value(code[0]) + hex_value(code[1])
}

/// The slot that a code writes: its value folded to seven bits.
pub open spec fn slot_of(code: Seq<char>) -> int {
    ((code_value(code) as u8) & 0x7f) as int
}

/// A new bank starts at the code written exactly `01`.
pub open spec fn starts_bank(code: Seq<char>) -> bool {
    code == seq!['0', '1']
}

/// Why a document cannot be folded into a table.
#[derive(Debug, Clone, Copy, PartialEq, Eq)]
pub enum BuildError {
    /// A row came before any row that starts a bank.
    NoCurrentBank,
}

/// The banks after one row: a new bank first if the code starts one, then
/// the name in the current bank at the code's slot.
pub open spec fn apply_row(banks: Seq<Seq<Option<Seq<char>>>>, name: Seq<char>, code: Seq<char>) -> Result<
    Seq<Seq<Option<Seq<char>>>>,
    BuildError,
> {
    let b = if starts_bank(code) {
        banks.push(empty_bank())
    } else {
        banks
    };
    if b.len() == 0 {
        Err(BuildError::NoCurrentBank)
    } else {
        Ok(b.update(b.len() - 1, b.last().update(slot_of(code), Some(name))))
    }
}

/// The banks after one line of text: lines that are not rows change nothing.
pub open spec fn feed(banks: Seq<Seq<Option<Seq<char>>>>, line: Seq<char>) -> Result<
    Seq<Seq<Option<Seq<char>>>>,
    BuildError,
> {
    match row_of(line) {
        None => Ok(banks),
        Some((name, code)) => apply_row(banks, name, code),
    }
}

/// The end of the line that starts at `i`: the next line feed, or the end.
pub open spec fn line_end(t: Seq<char>, i: int) -> int
    decreases t.len() - i,
{
    if 0 <= i < t.len() && t[i] != '\n' {
        line_end(t, i + 1)
    } else {
        i
    }
}

proof fn lemma_line_end(t: Seq<char>, i: int)
    requires
        0 <= i <= t.len(),
    ensures
        i <= line_end(t, i) <= t.len(),
        line_end(t, i) < t.len() ==> t[line_end(t, i)] == '\n',
    decreases t.len() - i,
{
    if i < t.len() && t[i] != '\n' {
        lemma_line_end(t, i + 1);
    }
}

/// A line without the carriage return of a `\r\n` ending.
pub open spec fn strip_cr(l: Seq<char>) -> Seq<char> {
    if l.len() > 0 && l.last() == '\r' {
        l.drop_last()
    } else {
        l
    }
}

/// The line that starts at `i`, without its ending: `\n`, or `\r\n`. The
/// last line needs no ending, and keeps a lone `\r`.
pub open spec fn line_at(t: Seq<char>, i: int) -> Seq<char> {
    let e = line_end(t, i);
    if e < t.len() {
        strip_cr(t.subrange(i, e))
    } else {
        t.subrange(i, e)
    }
}

/// A line starts at `i`.
pub open spec fn is_line_start(t: Seq<char>, i: int) -> bool {
    0 <= i < t.len() && (i == 0 || t[i - 1] == '\n')
}

/// The banks after the lines of `t` from position `i` on, in order, stopping
/// at the first error.
pub open spec fn run_lines(banks: Seq<Seq<Option<Seq<char>>>>, t: Seq<char>, i: int) -> Result<
    Seq<Seq<Option<Seq<char>>>>,
    BuildError,
>
    decreases t.len() - i,
    via run_lines_decreases
{
    if i < 0 || i >= t.len() {
        Ok(banks)
    } else {
        match feed(banks, line_at(t, i)) {
            Ok(b) => if line_end(t, i) < t.len() {
                run_lines(b, t, line_end(t, i) + 1)
            } else {
                Ok(b)
            },
            Err(x) => Err(x),
        }
    }
}

#[via_fn]
proof fn run_lines_decreases(banks: Seq<Seq<Option<Seq<char>>>>, t: Seq<char>, i: int) {
    if 0 <= i < t.len() {
        lemma_line_end(t, i);
    }
}

/// A table of manufacturers: banks of 128 slots, in the order in which the
/// document starts them.
pub struct Table {
    pub banks: Vec<Vec<Option<Vec<char>>>>,
}

impl View for Table {
    type V = Seq<Seq<Option<Seq<char>>>>;

    open spec fn view(&self) -> Seq<Seq<Option<Seq<char>>>> {
        self.banks.deep_view()
    }
}

fn new_bank() -> (r: Vec<Option<Vec<char>>>)
    ensures
        r.deep_view() == empty_bank(),
{
    let mut r: Vec<Option<Vec<char>>> = Vec::new();
    let mut i: usize = 0;
    while i < BANK_SIZE
        invariant
            i <= 128,
            r@.len() == i,
            forall|j: int| 0 <= j < i ==> r@[j] is None,
        decreases 128 - i,
    {
        r.push(None);
        i = i + 1;
    }
    assert(r.deep_view() =~= empty_bank());
    r
}

fn hex_digit_value(c: char) -> (r: u8)
    requires
        is_hex(c),
    ensures
        r as int == hex_value(c),
        r < 16,
{
    if '0' <= c && c <= '9' {
        (c as u32 - '0' as u32) as u8
    } else {
        (c as u32 - 'A' as u32 + 10) as u8
    }
}

impl Table {
    /// A table with no banks.
    pub fn new() -> (r: Table)
        ensures
            r@ == Seq::<Seq<Option<Seq<char>>>>::empty(),
    {
        Table { banks: Vec::new() }
    }

    /// Every bank holds exactly 128 slots.
    pub open spec fn wf(&self) -> bool {
        banks_wf(self@)
    }

    /// The number of banks.
    pub fn num_banks(&self) -> (r: usize)
        ensures
            r == self@.len(),
    {
        self.banks.len()
    }

    fn add_row(&mut self, row: &Row) -> (r: Result<(), BuildError>)
        requires
            old(self).wf(),
            is_code(row.code_hex@),
        ensures
            final(self).wf(),
            match apply_row(old(self)@, row.name@, row.code_hex@) {
                Ok(b) => r is Ok && final(self)@ == b,
                Err(e) => r == Err::<(), BuildError>(e) && final(self)@ == old(self)@,
            },
    {
        let c0 = row.code_hex[0];
        let c1 = row.code_hex[1];
        if c0 == '0' && c1 == '1' {
            assert(row.code_hex@ =~= seq!['0', '1']);
            let nb = new_bank();
            self.banks.push(nb);
            assert(self@ =~= old(self)@.push(empty_bank()));
        } else {
            assert(!starts_bank(row.code_hex@));
        }
        let ghost b = self@;
        assert(banks_wf(b));
        let n = self.banks.len();
        if n == 0 {
            return Err(BuildError::NoCurrentBank);
        }
        let v: u8 = 16 * hex_digit_value(c0) + hex_digit_value(c1);
        let slot: u8 = v & 0x7f;
        assert(v & 0x7f < 128) by (bit_vector);
        let mut last = self.banks.pop().unwrap();
        assert(last.deep_view() == b[n - 1]);
        assert(self@ =~= b.drop_last());
        let name = copy_range(&row.name, 0, row.name.len());
        assert(name.deep_view() =~= row.name@);
        last.set(slot as usize, Some(name));
        assert(last.deep_view() =~= b[n - 1].update(slot as int, Some(row.name@)));
        self.banks.push(last);
        assert(self@ =~= b.update(b.len() - 1, b.last().update(slot as int, Some(row.name@))));
        Ok(())
    }

    /// Takes one line of text: a row is added, any other line is skipped.
    pub fn feed_line(&mut self, line: &Vec<char>) -> (r: Result<(), BuildError>)
        requires
            old(self).wf(),
        ensures
            final(self).wf(),
            match feed(old(self)@, line@) {
                Ok(b) => r is Ok && final(self)@ == b,
                Err(e) => r == Err::<(), BuildError>(e) && final(self)@ == old(self)@,
            },
            row_of(line@) is None ==> r is Ok && final(self)@ == old(self)@,
    {
        match parse_row(line) {
            None => Ok(()),
            Some(row) => {
                proof {
                    lemma_row_code(line@);
                }
                self.add_row(&row)
            },
        }
    }
}

/// Folds the lines of a document into a table, in order.
///
/// Fails only where a row comes before the first row that starts a bank.
pub fn build_table(text: &Vec<char>) -> (r: Result<Table, BuildError>)
    ensures
        run_lines(Seq::empty(), text@, 0) is Ok <==> r is Ok,
        r matches Ok(t) ==> t.wf() && run_lines(Seq::empty(), text@, 0) == Ok::<
            Seq<Seq<Option<Seq<char>>>>,
            BuildError,
        >(t@),
        r matches Err(e) ==> run_lines(Seq::empty(), text@, 0) == Err::<
            Seq<Seq<Option<Seq<char>>>>,
            BuildError,
        >(e),
{
    let mut table = Table::new();
    let n = text.len();
    let mut i: usize = 0;
    while i < n
        invariant
            i <= n == text@.len(),
            table.wf(),
            run_lines(Seq::empty(), text@, 0) == run_lines(table@, text@, i as int),
        decreases n - i,
    {
        let mut e: usize = i;
        while e < n && text[e] != '\n'
            invariant
                i <= e <= n == text@.len(),
                line_end(text@, i as int) == line_end(text@, e as int),
            decreases n - e,
        {
            e = e + 1;
        }
        let line = if e < n && e > i && text[e - 1] == '\r' {
            copy_range(text, i, e - 1)
        } else {
            copy_range(text, i, e)
        };
        assert(line@ =~= line_at(text@, i as int));
        match table.feed_line(&line) {
            Ok(()) => {},
            Err(x) => {
                return Err(x);
            },
        }
        if e < n {
            i = e + 1;
        } else {
            i = n;
        }
    }
    Ok(table)
}

/// Lines that are not rows leave the banks as they are: a document with no
/// row gives back the banks it started from, and no banks from none.
pub proof fn lemma_no_rows(banks: Seq<Seq<Option<Seq<char>>>>, t: Seq<char>)
    requires
        forall|i: int| #[trigger] is_line_start(t, i) ==> row_of(line_at(t, i)) is None,
    ensures
        run_lines(banks, t, 0) == Ok::<Seq<Seq<Option<Seq<char>>>>, BuildError>(banks),
{
    lemma_no_rows_from(banks, t, 0);
}

proof fn lemma_no_rows_from(banks: Seq<Seq<Option<Seq<char>>>>, t: Seq<char>, i: int)
    requires
        forall|j: int| #[trigger] is_line_start(t, j) ==> row_of(line_at(t, j)) is None,
        i == 0 || (0 < i <= t.len() && t[i - 1] == '\n'),
    ensures
        run_lines(banks, t, i) == Ok::<Seq<Seq<Option<Seq<char>>>>, BuildError>(banks),
    decreases t.len() - i,
{
    if 0 <= i < t.len() {
        assert(is_line_start(t, i));
        lemma_line_end(t, i);
        if line_end(t, i) < t.len() {
            lemma_no_rows_from(banks, t, line_end(t, i) + 1);
        }
    }
}

/// A row with the code `01` appends a bank of 128 empty slots, then writes
/// its name in that bank at slot 1.
pub proof fn lemma_bank_start(banks: Seq<Seq<Option<Seq<char>>>>, name: Seq<char>)
    ensures
        empty_bank().len() == 128,
        forall|i: int| 0 <= i < 128 ==> #[trigger] empty_bank()[i] is None,
        apply_row(banks, name, seq!['0', '1']) == Ok::<Seq<Seq<Option<Seq<char>>>>, BuildError>(
            banks.push(empty_bank().update(1, Some(name))),
        ),
{
    assert(1u8 & 0x7f == 1) by (bit_vector);
    assert(slot_of(seq!['0', '1']) == 1);
    let b = banks.push(empty_bank());
    assert(b.update(b.len() - 1, b.last().update(1, Some(name))) =~= banks.push(
        empty_bank().update(1, Some(name)),
    ));
}

/// The slot of a code is its value folded to seven bits: codes that differ
/// only in the top bit, such as `81` and `01`, write the same slot of the
/// current bank, and `81` starts no bank.
pub proof fn lemma_code_fold(banks: Seq<Seq<Option<Seq<char>>>>, name: Seq<char>, code: Seq<char>)
    requires
        is_code(code),
    ensures
        slot_of(code) == code_value(code) % 128,
        slot_of(seq!['8', '1']) == slot_of(seq!['0', '1']),
        slot_of(seq!['0', '1']) == 1,
        banks.len() > 0 ==> apply_row(banks, name, seq!['8', '1']) == Ok::<
            Seq<Seq<Option<Seq<char>>>>,
            BuildError,
        >(banks.update(banks.len() - 1, banks.last().update(1, Some(name)))),
{
    let v = code_value(code);
    assert(0 <= v < 256);
    let w = v as u8;
    assert(w & 0x7f == w % 128) by (bit_vector);
    assert(129u8 & 0x7f == 1) by (bit_vector);
    assert(1u8 & 0x7f == 1) by (bit_vector);
    assert(code_value(seq!['8', '1']) == 129);
    assert(seq!['8', '1'] != seq!['0', '1']) by {
        assert(seq!['8', '1'][0] != seq!['0', '1'][0]);
    }
}

} // verus!
