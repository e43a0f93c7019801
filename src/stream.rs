//! A cursor over the source bytes that keeps the row, the column and the
//! start of the current line for diagnostics.

use vstd::prelude::*;
use crate::combinator::{
    is_int, is_kw_or_var, is_op, is_quote, is_register_name, is_ws, push_decimal, spec_is_int,
    spec_is_kw_or_var, spec_is_op, spec_is_quote, spec_is_register_name, spec_is_ws, decimal,
    BACKSLASH, NEWLINE,
};

verus! {

/// The runs of bytes that `take_while` consumes.
#[derive(Debug, Clone, Copy, PartialEq, Eq, Structural)]
pub enum CharClass {
    Whitespace,
    Digit,
    Word,
    OperatorChar,
    RegisterName,
    /// The inside of a string literal: anything but a quote that does not
    /// follow a backslash.
    StringBody,
}

/// Whether the byte at `k` continues a run of `class`.
pub open spec fn accepts(class: CharClass, s: Seq<u8>, k: int) -> bool {
    match class {
        CharClass::Whitespace => spec_is_ws(s[k]),
        CharClass::Digit => spec_is_int(s[k]),
        CharClass::Word => spec_is_kw_or_var(s[k]),
        CharClass::OperatorChar => spec_is_op(s[k]),
        CharClass::RegisterName => spec_is_register_name(s[k]),
        CharClass::StringBody => !spec_is_quote(s[k]) || (k > 0 && s[k - 1] == BACKSLASH),
    }
}

/// Where a maximal run of `class` that starts at `k` ends.
pub open spec fn run_end(class: CharClass, s: Seq<u8>, k: nat) -> nat
    decreases s.len() - k,
{
    if k < s.len() && accepts(class, s, k as int) {
        run_end(class, s, k + 1)
    } else {
        k
    }
}

/// The first position at or after `k` that holds `c`, or the end.
pub open spec fn find_byte(s: Seq<u8>, k: nat, c: u8) -> nat
    decreases s.len() - k,
{
    if k < s.len() && s[k as int] != c {
        find_byte(s, k + 1, c)
    } else {
        k
    }
}

/// The number of line breaks among the first `i` bytes.
pub open spec fn rows_before(s: Seq<u8>, i: nat) -> nat
    decreases i,
{
    if i == 0 || i > s.len() {
        0
    } else {
        rows_before(s, (i - 1) as nat) + if s[i - 1] == NEWLINE {
            1nat
        } else {
            0nat
        }
    }
}

/// Where the line that holds position `i` starts.
pub open spec fn line_start(s: Seq<u8>, i: nat) -> nat
    decreases i,
{
    if i == 0 || i > s.len() {
        0
    } else if s[i - 1] == NEWLINE {
        i
    } else {
        line_start(s, (i - 1) as nat)
    }
}

pub proof fn lemma_run_end_bounds(class: CharClass, s: Seq<u8>, k: nat)
    requires
        k <= s.len(),
    ensures
        k <= run_end(class, s, k) <= s.len(),
    decreases s.len() - k,
{
    if k < s.len() && accepts(class, s, k as int) {
        lemma_run_end_bounds(class, s, k + 1);
    }
}

/// A run ends at the end of the input or at a byte outside its class.
pub proof fn lemma_run_end_stops(class: CharClass, s: Seq<u8>, k: nat)
    requires
        k <= s.len(),
    ensures
        run_end(class, s, k) < s.len() ==> !accepts(class, s, run_end(class, s, k) as int),
    decreases s.len() - k,
{
    if k < s.len() && accepts(class, s, k as int) {
        lemma_run_end_stops(class, s, k + 1);
    }
}

/// A run over `s` is the run over its prefix `u` when the run ends inside `u`,
/// or when the byte of `s` just past `u` does not continue it.
pub proof fn lemma_run_end_prefix(class: CharClass, s: Seq<u8>, u: Seq<u8>, k: nat)
    requires
        u.len() <= s.len(),
        forall|x: int| 0 <= x < u.len() ==> #[trigger] s[x] == u[x],
        k <= u.len(),
        run_end(class, u, k) < u.len() || u.len() == s.len() || !accepts(class, s, u.len() as int),
    ensures
        run_end(class, s, k) == run_end(class, u, k),
    decreases u.len() - k,
{
    if k < u.len() {
        assert(accepts(class, s, k as int) == accepts(class, u, k as int));
        if accepts(class, u, k as int) {
            lemma_run_end_prefix(class, s, u, k + 1);
        }
    }
}

/// `find_byte` over `s` is `find_byte` over its prefix `u` when it finds the
/// byte inside `u`.
pub proof fn lemma_find_byte_prefix(s: Seq<u8>, u: Seq<u8>, k: nat, c: u8)
    requires
        u.len() <= s.len(),
        forall|x: int| 0 <= x < u.len() ==> #[trigger] s[x] == u[x],
        k <= u.len(),
        find_byte(u, k, c) < u.len(),
    ensures
        find_byte(s, k, c) == find_byte(u, k, c),
    decreases u.len() - k,
{
    if k < u.len() && u[k as int] != c {
        lemma_find_byte_prefix(s, u, k + 1, c);
    }
}

/// Runs over two inputs with equal suffixes, from `i` in `s` and `j` in `t`,
/// end at matching places once past the first byte of the suffix.
pub proof fn lemma_run_end_shift(class: CharClass, s: Seq<u8>, t: Seq<u8>, i: nat, j: nat, k: nat)
    requires
        i <= s.len(),
        j <= t.len(),
        s.subrange(i as int, s.len() as int) == t.subrange(j as int, t.len() as int),
        i < k <= s.len(),
    ensures
        run_end(class, t, (k - i + j) as nat) == run_end(class, s, k) - i + j,
    decreases s.len() - k,
{
    let k2 = (k - i + j) as nat;
    assert(s.len() - i == t.len() - j) by {
        let a = s.subrange(i as int, s.len() as int);
        let b = t.subrange(j as int, t.len() as int);
        assert(a.len() == s.len() - i);
        assert(b.len() == t.len() - j);
        assert(a.len() == b.len());
    }
    if k < s.len() {
        assert(s[k as int] == s.subrange(i as int, s.len() as int)[k - i]);
        assert(t[k2 as int] == t.subrange(j as int, t.len() as int)[k - i]);
        assert(s[k - 1] == s.subrange(i as int, s.len() as int)[k - 1 - i]);
        assert(t[k2 - 1] == t.subrange(j as int, t.len() as int)[k - 1 - i]);
        assert(accepts(class, s, k as int) == accepts(class, t, k2 as int));
        if accepts(class, s, k as int) {
            lemma_run_end_shift(class, s, t, i, j, k + 1);
        }
    }
}

/// `find_byte` over two inputs with equal suffixes finds matching places.
pub proof fn lemma_find_byte_shift(s: Seq<u8>, t: Seq<u8>, i: nat, j: nat, k: nat, c: u8)
    requires
        i <= s.len(),
        j <= t.len(),
        s.subrange(i as int, s.len() as int) == t.subrange(j as int, t.len() as int),
        i <= k <= s.len(),
    ensures
        find_byte(t, (k - i + j) as nat, c) == find_byte(s, k, c) - i + j,
    decreases s.len() - k,
{
    let k2 = (k - i + j) as nat;
    assert(s.len() - i == t.len() - j) by {
        let a = s.subrange(i as int, s.len() as int);
        let b = t.subrange(j as int, t.len() as int);
        assert(a.len() == s.len() - i);
        assert(b.len() == t.len() - j);
        assert(a.len() == b.len());
    }
    if k < s.len() {
        assert(s[k as int] == s.subrange(i as int, s.len() as int)[k - i]);
        assert(t[k2 as int] == t.subrange(j as int, t.len() as int)[k - i]);
        if s[k as int] != c {
            lemma_find_byte_shift(s, t, i, j, k + 1, c);
        }
    }
}

/// Every byte of a run belongs to its class.
pub proof fn lemma_run_end_accepts(class: CharClass, s: Seq<u8>, k: nat, j: int)
    requires
        k <= j < run_end(class, s, k),
    ensures
        accepts(class, s, j),
    decreases s.len() - k,
{
    if k < s.len() && accepts(class, s, k as int) && j > k {
        lemma_run_end_accepts(class, s, k + 1, j);
    }
}

pub proof fn lemma_find_byte_bounds(s: Seq<u8>, k: nat, c: u8)
    requires
        k <= s.len(),
    ensures
        k <= find_byte(s, k, c) <= s.len(),
        find_byte(s, k, c) < s.len() ==> s[find_byte(s, k, c) as int] == c,
    decreases s.len() - k,
{
    if k < s.len() && s[k as int] != c {
        lemma_find_byte_bounds(s, k + 1, c);
    }
}

proof fn lemma_line_start_le(s: Seq<u8>, i: nat)
    ensures
        line_start(s, i) <= i,
    decreases i,
{
    if i > 0 && i <= s.len() && s[i - 1] != NEWLINE {
        lemma_line_start_le(s, (i - 1) as nat);
    }
}

proof fn lemma_rows_before_le(s: Seq<u8>, i: nat)
    ensures
        rows_before(s, i) <= i,
    decreases i,
{
    if i > 0 && i <= s.len() {
        lemma_rows_before_le(s, (i - 1) as nat);
    }
}

/// The text that reports a position: the label, the row and the line, then a
/// caret under the column.
pub open spec fn diagnostic(label: Seq<u8>, row: nat, line: Seq<u8>, col: nat) -> Seq<u8> {
    let head = seq![0x43u8, 0x6f, 0x75, 0x6c, 0x64, 0x20, 0x6e, 0x6f, 0x74, 0x20, 0x70, 0x61, 0x72, 0x73, 0x65, 0x3a, 0x20];
    let numeral = decimal(row);
    head + label + seq![NEWLINE] + numeral + seq![0x3au8, 0x20] + line + seq![NEWLINE]
        + spaces(col + numeral.len() + 2) + seq![0x5eu8, NEWLINE]
}

pub open spec fn spaces(n: nat) -> Seq<u8> {
    Seq::new(n, |k: int| 0x20u8)
}

fn push_spaces(out: &mut Vec<u8>, n: usize)
    ensures
        final(out)@ == old(out)@ + spaces(n as nat),
{
    let mut k: usize = 0;
    while k < n
        invariant
            k <= n,
            out@ == old(out)@ + spaces(k as nat),
        decreases n - k,
    {
        out.push(0x20);
        k = k + 1;
        assert(out@ =~= old(out)@ + spaces(k as nat));
    }
}

/// A cursor over the input, with the row, the column and the start of the
/// current line of the next byte.
pub struct IStream<'a> {
    pub file_name: &'a Vec<u8>,
    pub input: &'a Vec<u8>,
    pub row: usize,
    pub col: usize,
    pub idx: usize,
    pub line_idx: usize,
    pub empty: bool,
}

impl<'a> IStream<'a> {
    /// The whole input.
    pub open spec fn bytes(&self) -> Seq<u8> {
        self.input@
    }

    /// The label that diagnostics name.
    pub open spec fn label(&self) -> Seq<u8> {
        self.file_name@
    }

    /// The position of the next byte to read.
    pub open spec fn pos(&self) -> nat {
        self.idx as nat
    }

    pub open spec fn line_pos(&self) -> nat {
        self.line_idx as nat
    }

    pub open spec fn wf(&self) -> bool {
        &&& self.pos() <= self.bytes().len()
        &&& self.line_pos() == line_start(self.bytes(), self.pos())
        &&& self.row == rows_before(self.bytes(), self.pos())
        &&& self.col == self.pos() - self.line_pos()
        &&& self.empty ==> self.pos() == self.bytes().len()
    }

    pub fn new(input: &'a Vec<u8>, file_name: &'a Vec<u8>) -> (r: IStream<'a>)
        ensures
            r.wf(),
            r.bytes() == input@,
            r.label() == file_name@,
            r.pos() == 0,
            !r.empty,
    {
        IStream { file_name, input, row: 0, col: 0, idx: 0, line_idx: 0, empty: false }
    }

    /// Consumes one byte and returns it.
    pub fn next(&mut self) -> (r: u8)
        requires
            old(self).wf(),
            old(self).pos() < old(self).bytes().len(),
        ensures
            final(self).wf(),
            final(self).bytes() == old(self).bytes(),
            final(self).label() == old(self).label(),
            final(self).pos() == old(self).pos() + 1,
            final(self).empty == old(self).empty,
            r == old(self).bytes()[old(self).pos() as int],
    {
        let n: usize = self.input.len();
        let nchar: u8 = self.input[self.idx];
        proof {
            lemma_rows_before_le(self.input@, self.idx as nat);
            lemma_line_start_le(self.input@, self.idx as nat);
        }
        self.idx = self.idx + 1;
        if nchar == NEWLINE {
            self.row = self.row + 1;
            self.col = 0;
            self.line_idx = self.idx;
        } else {
            self.col = self.col + 1;
        }
        nchar
    }

    pub fn len(&self) -> (r: usize)
        ensures
            r == self.bytes().len(),
    {
        self.input.len()
    }

    /// The byte `amount` places from the cursor, if there is one.
    pub fn peek(&self, amount: isize) -> (r: Option<u8>)
        requires
            self.wf(),
        ensures
            (0 <= self.pos() + amount < self.bytes().len()) ==> r == Some(
                self.bytes()[self.pos() + amount],
            ),
            !(0 <= self.pos() + amount < self.bytes().len()) ==> r is None,
    {
        if amount < 0 {
            let back: u128 = (0i128 - amount as i128) as u128;
            if back > self.idx as u128 {
                None
            } else {
                Some(self.input[self.idx - back as usize])
            }
        } else {
            let ahead: usize = amount as usize;
            if ahead >= self.input.len() - self.idx {
                None
            } else {
                Some(self.input[self.idx + ahead])
            }
        }
    }

    /// The bytes of the line that holds the cursor, without its line break.
    pub fn get_current_line(&self) -> (r: Vec<u8>)
        requires
            self.wf(),
        ensures
            r@ == self.bytes().subrange(
                self.line_pos() as int,
                find_byte(self.bytes(), self.line_pos(), NEWLINE) as int,
            ),
    {
        proof {
            lemma_line_start_le(self.input@, self.idx as nat);
        }
        let mut line: Vec<u8> = Vec::new();
        let mut i: usize = self.line_idx;
        while i < self.input.len() && self.input[i] != NEWLINE
            invariant
                self.line_idx <= i <= self.input@.len(),
                find_byte(self.input@, self.line_idx as nat, NEWLINE) == find_byte(
                    self.input@,
                    i as nat,
                    NEWLINE,
                ),
                line@ == self.input@.subrange(self.line_idx as int, i as int),
            decreases self.input@.len() - i,
        {
            line.push(self.input[i]);
            i = i + 1;
            assert(line@ =~= self.input@.subrange(self.line_idx as int, i as int));
        }
        line
    }

    /// Consumes everything up to and including the next byte equal to `c`,
    /// or to the end when there is none. Returns whether `c` was found.
    pub fn take_to_c(&mut self, c: u8) -> (found: bool)
        requires
            old(self).wf(),
        ensures
            final(self).wf(),
            final(self).bytes() == old(self).bytes(),
            final(self).label() == old(self).label(),
            found == (find_byte(old(self).bytes(), old(self).pos(), c) < old(self).bytes().len()),
            found ==> final(self).pos() == find_byte(old(self).bytes(), old(self).pos(), c) + 1,
            !found ==> final(self).pos() == old(self).bytes().len(),
            final(self).empty == (final(self).pos() == final(self).bytes().len()),
    {
        while self.idx < self.input.len() && self.input[self.idx] != c
            invariant
                self.wf(),
                self.bytes() == old(self).bytes(),
                self.label() == old(self).label(),
                find_byte(self.bytes(), self.pos(), c) == find_byte(
                    old(self).bytes(),
                    old(self).pos(),
                    c,
                ),
            decreases self.bytes().len() - self.pos(),
        {
            self.next();
        }
        let found = self.idx < self.input.len();
        if found {
            self.next();
        }
        self.empty = self.idx == self.input.len();
        found
    }

    /// Whether the byte under the cursor continues a run of `class`.
    fn accepts_next(&self, class: CharClass) -> (r: bool)
        requires
            self.wf(),
            self.pos() < self.bytes().len(),
        ensures
            r == accepts(class, self.bytes(), self.pos() as int),
    {
        let c = self.input[self.idx];
        match class {
            CharClass::Whitespace => is_ws(c),
            CharClass::Digit => is_int(c),
            CharClass::Word => is_kw_or_var(c),
            CharClass::OperatorChar => is_op(c),
            CharClass::RegisterName => is_register_name(c),
            CharClass::StringBody => !is_quote(c) || (self.idx > 0 && self.input[self.idx - 1]
                == BACKSLASH),
        }
    }

    /// Consumes a maximal run of `class` and returns it.
    pub fn take_while(&mut self, class: CharClass) -> (r: Vec<u8>)
        requires
            old(self).wf(),
        ensures
            final(self).wf(),
            final(self).bytes() == old(self).bytes(),
            final(self).label() == old(self).label(),
            final(self).pos() == run_end(class, old(self).bytes(), old(self).pos()),
            final(self).pos() >= old(self).pos(),
            final(self).empty == (final(self).pos() == final(self).bytes().len()),
            r@ == old(self).bytes().subrange(old(self).pos() as int, final(self).pos() as int),
    {
        let mut chars: Vec<u8> = Vec::new();
        let ghost start = self.pos();
        while self.idx < self.input.len() && self.accepts_next(class)
            invariant
                self.wf(),
                self.bytes() == old(self).bytes(),
                self.label() == old(self).label(),
                start == old(self).pos(),
                start <= self.pos(),
                run_end(class, self.bytes(), self.pos()) == run_end(class, self.bytes(), start),
                chars@ == self.bytes().subrange(start as int, self.pos() as int),
            decreases self.bytes().len() - self.pos(),
        {
            let c = self.next();
            chars.push(c);
            assert(chars@ =~= self.bytes().subrange(start as int, self.pos() as int));
        }
        self.empty = self.idx == self.input.len();
        chars
    }

    /// The report for the cursor's position: the label, the row, the current
    /// line and a caret under the column.
    pub fn err(&self) -> (r: Vec<u8>)
        requires
            self.wf(),
        ensures
            r@ == diagnostic(
                self.label(),
                self.row as nat,
                self.bytes().subrange(
                    self.line_pos() as int,
                    find_byte(self.bytes(), self.line_pos(), NEWLINE) as int,
                ),
                self.col as nat,
            ),
    {
        let mut out: Vec<u8> = Vec::new();
        out.extend_from_slice(
            &[0x43u8, 0x6f, 0x75, 0x6c, 0x64, 0x20, 0x6e, 0x6f, 0x74, 0x20, 0x70, 0x61, 0x72, 0x73, 0x65, 0x3a, 0x20],
        );
        out.extend_from_slice(self.file_name.as_slice());
        out.push(NEWLINE);
        let mut numeral: Vec<u8> = Vec::new();
        push_decimal(&mut numeral, self.row as u64);
        out.extend_from_slice(numeral.as_slice());
        out.extend_from_slice(&[0x3au8, 0x20]);
        let line = self.get_current_line();
        out.extend_from_slice(line.as_slice());
        out.push(NEWLINE);
        let ghost before = out@;
        push_spaces(&mut out, self.col);
        push_spaces(&mut out, numeral.len());
        push_spaces(&mut out, 2);
        assert(out@ =~= before + spaces((self.col + numeral@.len() + 2) as nat));
        out.extend_from_slice(&[0x5eu8, NEWLINE]);
        out
    }
}

} // verus!
