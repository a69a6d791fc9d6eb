//! Reading numbers and lines from input that is held in memory.

use vstd::prelude::*;
use vstd::slice::slice_subrange;
use vstd::string::StrSliceExecFns;
use vstd::utf8::{decode_utf8, encode_utf8, valid_utf8};
use core::marker::PhantomData;

verus! {

pub const NEWLINE: u8 = 0x0A;

pub const SPACE: u8 = 0x20;

pub const MINUS: u8 = 0x2d;

pub const DIGIT_0: u8 = 0x30;

pub const DIGIT_9: u8 = 0x39;

/// Input that is read from the front: the first `pos` bytes are consumed.
pub struct Input {
    pub bytes: Vec<u8>,
    pub pos: usize,
}

pub open spec fn is_digit(c: u8) -> bool {
    DIGIT_0 <= c <= DIGIT_9
}

pub open spec fn is_blank(c: u8) -> bool {
    c == NEWLINE || c == SPACE
}

pub open spec fn is_space(c: u8) -> bool {
    c == SPACE
}

/// Length of the longest prefix of `s` whose bytes all meet `f`.
pub open spec fn run(s: Seq<u8>, f: spec_fn(u8) -> bool) -> nat
    decreases s.len(),
{
    if s.len() == 0 || !f(s[0]) {
        0
    } else {
        1 + run(s.skip(1), f)
    }
}

/// The number that the decimal digits `digits` write.
pub open spec fn number(digits: Seq<u8>) -> nat
    decreases digits.len(),
{
    if digits.len() == 0 {
        0
    } else {
        number(digits.drop_last()) * 10 + (digits.last() - DIGIT_0) as nat
    }
}

/// The number that the digits at the front of `s` write.
pub open spec fn leading_number(s: Seq<u8>) -> nat {
    number(s.take(run(s, |c: u8| is_digit(c)) as int))
}

/// A run ends within the bytes, at the first byte that does not meet `f`.
pub proof fn lemma_run(s: Seq<u8>, f: spec_fn(u8) -> bool)
    ensures
        run(s, f) <= s.len(),
        forall|i: int| 0 <= i < run(s, f) ==> f(#[trigger] s[i]),
        run(s, f) < s.len() ==> !f(s[run(s, f) as int]),
    decreases s.len(),
{
    if !(s.len() == 0 || !f(s[0])) {
        lemma_run(s.skip(1), f);
        assert forall|i: int| 0 <= i < run(s, f) implies f(#[trigger] s[i]) by {
            if i > 0 {
                assert(s[i] == s.skip(1)[i - 1]);
            }
        }
    }
}

/// A prefix of `k` bytes that meet `f`, with a byte behind it that does not
/// or with nothing behind it, is the run.
pub proof fn lemma_run_is(s: Seq<u8>, f: spec_fn(u8) -> bool, k: int)
    requires
        0 <= k <= s.len(),
        forall|i: int| 0 <= i < k ==> f(#[trigger] s[i]),
        k < s.len() ==> !f(s[k]),
    ensures
        run(s, f) == k,
    decreases k,
{
    if k > 0 {
        assert forall|i: int| 0 <= i < k - 1 implies f(#[trigger] s.skip(1)[i]) by {
            assert(s.skip(1)[i] == s[i + 1]);
        }
        lemma_run_is(s.skip(1), f, k - 1);
    }
}

impl Input {
    pub open spec fn wf(&self) -> bool {
        self.pos <= self.bytes.len()
    }

    /// The bytes that have not been consumed.
    pub open spec fn rest(&self) -> Seq<u8> {
        self.bytes@.skip(self.pos as int)
    }

    pub fn new(bytes: Vec<u8>) -> (input: Input)
        ensures
            input.wf(),
            input.bytes@ == bytes@,
            input.pos == 0,
            input.rest() == bytes@,
    {
        let input = Input { bytes, pos: 0 };
        assert(input.rest() =~= bytes@);
        input
    }

    /// The bytes that have not been consumed.
    pub fn fill_buf(&self) -> (buf: &[u8])
        requires
            self.wf(),
        ensures
            buf@ == self.rest(),
    {
        let buf = slice_subrange(self.bytes.as_slice(), self.pos, self.bytes.len());
        assert(buf@ =~= self.rest());
        buf
    }

    /// Marks the next `amount` bytes as consumed.
    pub fn consume(&mut self, amount: usize)
        requires
            old(self).wf(),
            amount <= old(self).rest().len(),
        ensures
            final(self).wf(),
            final(self).bytes@ == old(self).bytes@,
            final(self).pos == old(self).pos + amount,
            final(self).rest() == old(self).rest().skip(amount as int),
    {
        self.pos = self.pos + amount;
        assert(self.rest() =~= old(self).rest().skip(amount as int));
    }
}

pub fn digit_to_num(c: u8) -> (digit: Option<u64>)
    ensures
        match digit {
            Some(k) => is_digit(c) && k == c - DIGIT_0,
            None => !is_digit(c),
        },
{
    if DIGIT_0 <= c && c <= DIGIT_9 {
        Some((c - DIGIT_0) as u64)
    } else {
        None
    }
}

pub fn is_whitespace(c: u8) -> (blank: bool)
    ensures
        blank == is_blank(c),
{
    c == NEWLINE || c == SPACE
}

/// Consumes the spaces and newlines at the front.
pub fn drop_whitespace(reader: &mut Input)
    requires
        old(reader).wf(),
    ensures
        final(reader).wf(),
        final(reader).bytes@ == old(reader).bytes@,
        final(reader).pos == old(reader).pos + run(old(reader).rest(), |c: u8| is_blank(c)),
        final(reader).rest() == old(reader).rest().skip(
            run(old(reader).rest(), |c: u8| is_blank(c)) as int,
        ),
{
    let ghost rest = reader.rest();
    let ghost start = reader.pos;
    while reader.pos < reader.bytes.len() && is_whitespace(reader.bytes[reader.pos])
        invariant
            reader.wf(),
            reader.bytes@ == old(reader).bytes@,
            start == old(reader).pos,
            rest == old(reader).rest(),
            start <= reader.pos,
            forall|i: int| 0 <= i < reader.pos - start ==> is_blank(#[trigger] rest[i]),
        decreases reader.bytes.len() - reader.pos,
    {
        reader.pos = reader.pos + 1;
    }
    proof {
        lemma_run_is(rest, |c: u8| is_blank(c), reader.pos - start);
        assert(reader.rest() =~= rest.skip(reader.pos - start));
    }
}

/// Consumes the spaces at the front.
pub fn drop_spaces(reader: &mut Input)
    requires
        old(reader).wf(),
    ensures
        final(reader).wf(),
        final(reader).bytes@ == old(reader).bytes@,
        final(reader).pos == old(reader).pos + run(old(reader).rest(), |c: u8| is_space(c)),
        final(reader).rest() == old(reader).rest().skip(
            run(old(reader).rest(), |c: u8| is_space(c)) as int,
        ),
{
    let ghost rest = reader.rest();
    let ghost start = reader.pos;
    while reader.pos < reader.bytes.len() && reader.bytes[reader.pos] == SPACE
        invariant
            reader.wf(),
            reader.bytes@ == old(reader).bytes@,
            start == old(reader).pos,
            rest == old(reader).rest(),
            start <= reader.pos,
            forall|i: int| 0 <= i < reader.pos - start ==> is_space(#[trigger] rest[i]),
        decreases reader.bytes.len() - reader.pos,
    {
        reader.pos = reader.pos + 1;
    }
    proof {
        lemma_run_is(rest, |c: u8| is_space(c), reader.pos - start);
        assert(reader.rest() =~= rest.skip(reader.pos - start));
    }
}

/// Tells whether the input is at the end of a line: nothing is left, or a
/// newline comes next.
pub fn is_eol(reader: &Input) -> (eol: bool)
    requires
        reader.wf(),
    ensures
        eol == (reader.rest().len() == 0 || reader.rest()[0] == NEWLINE),
{
    reader.pos >= reader.bytes.len() || reader.bytes[reader.pos] == NEWLINE
}

/// More digits write no smaller number.
pub proof fn lemma_number_monotone(digits: Seq<u8>, i: int, j: int)
    requires
        0 <= i <= j <= digits.len(),
        forall|k: int| 0 <= k < digits.len() ==> is_digit(#[trigger] digits[k]),
    ensures
        number(digits.take(i)) <= number(digits.take(j)),
        j > 0 ==> number(digits.take(j)) == number(digits.take(j - 1)) * 10 + (digits[j - 1]
            - DIGIT_0),
    decreases j - i,
{
    if j > 0 {
        assert(digits.take(j).drop_last() =~= digits.take(j - 1));
        assert(digits.take(j).last() == digits[j - 1]);
    }
    if i < j {
        lemma_number_monotone(digits, i, j - 1);
    }
}

/// A type whose values can be read from the front of the input.
pub trait InPlaceRead: Sized {
    /// The front of the input holds a value that fits the type.
    spec fn readable(rest: Seq<u8>) -> bool;

    /// `value` is the value that the front of the input holds.
    spec fn reads(rest: Seq<u8>, value: Self) -> bool;

    /// Number of bytes that the value at the front of the input takes.
    spec fn taken(rest: Seq<u8>) -> nat;

    /// Reads the value at the front of the input and consumes its bytes.
    fn read_in_place(reader: &mut Input) -> (value: Self)
        requires
            old(reader).wf(),
            Self::readable(old(reader).rest()),
        ensures
            final(reader).wf(),
            final(reader).bytes@ == old(reader).bytes@,
            final(reader).pos == old(reader).pos + Self::taken(old(reader).rest()),
            Self::reads(old(reader).rest(), value),
    ;
}

impl InPlaceRead for u64 {
    /// The digits at the front write a number within the type.
    open spec fn readable(rest: Seq<u8>) -> bool {
        leading_number(rest) <= u64::MAX
    }

    /// The number that the digits at the front write; zero without a digit.
    open spec fn reads(rest: Seq<u8>, value: u64) -> bool {
        value == leading_number(rest)
    }

    open spec fn taken(rest: Seq<u8>) -> nat {
        run(rest, |c: u8| is_digit(c))
    }

    fn read_in_place(reader: &mut Input) -> (value: u64) {
        let ghost rest = reader.rest();
        let ghost start = reader.pos;
        let ghost len = run(rest, |c: u8| is_digit(c)) as int;
        let ghost digits = rest.take(len);
        proof {
            lemma_run(rest, |c: u8| is_digit(c));
        }
        let mut r: u64 = 0;
        let mut more = true;
        while more && reader.pos < reader.bytes.len()
            invariant
                reader.wf(),
                reader.bytes@ == old(reader).bytes@,
                start == old(reader).pos,
                rest == old(reader).rest(),
                len == run(rest, |c: u8| is_digit(c)),
                digits == rest.take(len),
                len <= rest.len(),
                forall|k: int| 0 <= k < len ==> is_digit(#[trigger] rest[k]),
                len < rest.len() ==> !is_digit(rest[len]),
                number(digits) <= u64::MAX,
                start <= reader.pos <= start + len,
                r == number(digits.take(reader.pos - start)),
                !more ==> reader.pos == start + len,
            decreases reader.bytes.len() - reader.pos, (if more { 1int } else { 0int }),
        {
            let c = reader.bytes[reader.pos];
            assert(c == rest[reader.pos - start]);
            match digit_to_num(c) {
                Some(k) => {
                    proof {
                        let i = reader.pos - start;
                        assert(i < len);
                        lemma_number_monotone(digits, i + 1, len);
                        lemma_number_monotone(digits, i, i + 1);
                        assert(digits.take(len) =~= digits);
                        assert(digits[i] == c);
                    }
                    r = r * 10;
                    r = r + k;
                    reader.pos = reader.pos + 1;
                },
                None => {
                    more = false;
                },
            }
        }
        proof {
            assert(reader.pos == start + len);
            assert(digits.take(len) =~= digits);
        }
        r
    }
}

impl InPlaceRead for i64 {
    /// There is input left, and the digits at the front, behind a minus
    /// sign if there is one, write a number within the type.
    open spec fn readable(rest: Seq<u8>) -> bool {
        rest.len() > 0 && leading_number(
            if rest[0] == MINUS {
                rest.skip(1)
            } else {
                rest
            },
        ) <= i64::MAX
    }

    /// The number that the digits write, negative behind a minus sign.
    open spec fn reads(rest: Seq<u8>, value: i64) -> bool {
        value == if rest[0] == MINUS {
            -(leading_number(rest.skip(1)) as int)
        } else {
            leading_number(rest) as int
        }
    }

    open spec fn taken(rest: Seq<u8>) -> nat {
        if rest[0] == MINUS {
            1 + run(rest.skip(1), |c: u8| is_digit(c))
        } else {
            run(rest, |c: u8| is_digit(c))
        }
    }

    fn read_in_place(reader: &mut Input) -> (value: i64) {
        let sign: i64;
        let negative = reader.fill_buf()[0] == MINUS;
        if negative {
            reader.consume(1);
            sign = -1;
        } else {
            sign = 1;
        }
        u64::read_in_place(reader) as i64 * sign
    }
}

/// Calls `String::from_utf8`: the text that the bytes encode in UTF-8, or
/// `None` if they do not encode any.
#[verifier::external_body]
fn text_of(bytes: Vec<u8>) -> (text: Option<String>)
    ensures
        match text {
            Some(s) => valid_utf8(bytes@) && s@ == decode_utf8(bytes@),
            None => !valid_utf8(bytes@),
        },
{
    String::from_utf8(bytes).ok()
}

pub open spec fn is_text(c: u8) -> bool {
    c != NEWLINE
}

/// The bytes at the front of `rest` up to the end of the line.
pub open spec fn line(rest: Seq<u8>) -> Seq<u8> {
    rest.take(run(rest, |c: u8| is_text(c)) as int)
}

impl InPlaceRead for String {
    /// The line at the front is text in UTF-8.
    open spec fn readable(rest: Seq<u8>) -> bool {
        valid_utf8(line(rest))
    }

    /// The text of the line at the front, without the newline that ends it.
    open spec fn reads(rest: Seq<u8>, value: String) -> bool {
        value@ == decode_utf8(line(rest))
    }

    /// The line and the newline that ends it, if there is one.
    open spec fn taken(rest: Seq<u8>) -> nat {
        if line(rest).len() < rest.len() {
            line(rest).len() + 1
        } else {
            line(rest).len()
        }
    }

    fn read_in_place(reader: &mut Input) -> (value: String) {
        let ghost rest = reader.rest();
        let ghost start = reader.pos;
        let mut text: Vec<u8> = Vec::new();
        while reader.pos < reader.bytes.len() && reader.bytes[reader.pos] != NEWLINE
            invariant
                reader.wf(),
                reader.bytes@ == old(reader).bytes@,
                start == old(reader).pos,
                rest == old(reader).rest(),
                start <= reader.pos,
                text@ == rest.take(reader.pos - start),
                forall|i: int| 0 <= i < reader.pos - start ==> is_text(#[trigger] rest[i]),
            decreases reader.bytes.len() - reader.pos,
        {
            text.push(reader.bytes[reader.pos]);
            reader.pos = reader.pos + 1;
            assert(text@ =~= rest.take(reader.pos - start));
        }
        proof {
            lemma_run_is(rest, |c: u8| is_text(c), reader.pos - start);
        }
        if reader.pos < reader.bytes.len() {
            reader.pos = reader.pos + 1;
        }
        match text_of(text) {
            Some(s) => s,
            None => String::new(),
        }
    }
}

/// Reads the values of one line.
pub struct ProblemLineReader<'a, T>(pub &'a mut Input, pub PhantomData<T>);

impl<'a, T: InPlaceRead> ProblemLineReader<'a, T> {
    /// The next value of the line; `None` at the end of the line.
    pub fn next(&mut self) -> (item: Option<T>)
        requires
            old(self).0.wf(),
            ({
                let rest = old(self).0.rest();
                let after = rest.skip(run(rest, |c: u8| is_space(c)) as int);
                after.len() == 0 || after[0] == NEWLINE || T::readable(after)
            }),
        ensures
            final(self).0.wf(),
            final(self).0.bytes@ == old(self).0.bytes@,
            *final(final(self).0) == *final(old(self).0),
            ({
                let rest = old(self).0.rest();
                let spaces = run(rest, |c: u8| is_space(c));
                let after = rest.skip(spaces as int);
                match item {
                    Some(value) => after.len() > 0 && after[0] != NEWLINE && T::reads(after, value)
                        && final(self).0.pos == old(self).0.pos + spaces + T::taken(after),
                    None => (after.len() == 0 || after[0] == NEWLINE) && final(self).0.pos == old(self).0.pos + spaces,
                }
            }),
    {
        proof {
            lemma_run(old(self).0.rest(), |c: u8| is_space(c));
        }
        drop_spaces(self.0);
        if is_eol(self.0) {
            None
        } else {
            Some(T::read_in_place(self.0))
        }
    }
}

/// Reads a given number of values, whatever lines they stand on.
pub struct ProblemCountReader<'a, T>(pub &'a mut Input, pub usize, pub PhantomData<T>);

impl<'a, T: InPlaceRead> ProblemCountReader<'a, T> {
    /// The next value; `None` when the given number of values has been
    /// read.
    pub fn next(&mut self) -> (item: Option<T>)
        requires
            old(self).0.wf(),
            ({
                let rest = old(self).0.rest();
                old(self).1 > 0 ==> T::readable(rest.skip(run(rest, |c: u8| is_blank(c)) as int))
            }),
        ensures
            final(self).0.wf(),
            final(self).0.bytes@ == old(self).0.bytes@,
            *final(final(self).0) == *final(old(self).0),
            ({
                let rest = old(self).0.rest();
                let blanks = run(rest, |c: u8| is_blank(c));
                let after = rest.skip(blanks as int);
                match item {
                    Some(value) => old(self).1 > 0 && final(self).1 == old(self).1 - 1 && T::reads(
                        after,
                        value,
                    ) && final(self).0.pos == old(self).0.pos + blanks + T::taken(after),
                    None => old(self).1 == 0 && final(self).1 == 0 && final(self).0.pos == old(self).0.pos,
                }
            }),
    {
        if self.1 > 0 {
            proof {
                lemma_run(old(self).0.rest(), |c: u8| is_blank(c));
            }
            drop_whitespace(self.0);
            self.1 -= 1;
            Some(T::read_in_place(self.0))
        } else {
            None
        }
    }
}

/// Reads the values of a problem's input.
pub struct ProblemReader(pub Input);

impl ProblemReader {
    /// Skips spaces and newlines and reads the value behind them.
    pub fn read<T: InPlaceRead>(&mut self) -> (value: T)
        requires
            old(self).0.wf(),
            ({
                let rest = old(self).0.rest();
                T::readable(rest.skip(run(rest, |c: u8| is_blank(c)) as int))
            }),
        ensures
            final(self).0.wf(),
            final(self).0.bytes@ == old(self).0.bytes@,
            ({
                let rest = old(self).0.rest();
                let blanks = run(rest, |c: u8| is_blank(c));
                let after = rest.skip(blanks as int);
                T::reads(after, value) && final(self).0.pos == old(self).0.pos + blanks + T::taken(
                    after,
                )
            }),
    {
        proof {
            lemma_run(old(self).0.rest(), |c: u8| is_blank(c));
        }
        drop_whitespace(&mut self.0);
        T::read_in_place(&mut self.0)
    }

    /// Skips spaces and newlines and hands out a reader for the values of
    /// the line behind them.
    pub fn read_line<T: InPlaceRead>(&mut self) -> (line: ProblemLineReader<'_, T>)
        requires
            old(self).0.wf(),
        ensures
            line.0.wf(),
            line.0.bytes@ == old(self).0.bytes@,
            line.0.pos == old(self).0.pos + run(old(self).0.rest(), |c: u8| is_blank(c)),
            *final(self) == ProblemReader(*final(line.0)),
    {
        drop_whitespace(&mut self.0);
        ProblemLineReader(&mut self.0, PhantomData)
    }

    /// Hands out a reader for the next `n` values.
    pub fn read_count<T: InPlaceRead>(&mut self, n: usize) -> (values: ProblemCountReader<'_, T>)
        ensures
            *values.0 == old(self).0,
            values.1 == n,
            *final(self) == ProblemReader(*final(values.0)),
    {
        ProblemCountReader(&mut self.0, n, PhantomData)
    }

    /// A reader of the bytes of `s`.
    pub fn from_string(s: String) -> (reader: Self)
        ensures
            reader.0.wf(),
            reader.0.pos == 0,
            reader.0.bytes@ == encode_utf8(s@),
    {
        ProblemReader(Input::new(s.as_str().as_bytes_vec()))
    }
}

} // verus!
