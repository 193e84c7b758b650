use vstd::prelude::*;

verus! {

/// `c` is one of the ten ASCII decimal digits.
pub open spec fn is_decimal_digit(c: char) -> bool {
    '0' <= c && c <= '9'
}

/// The value of an ASCII decimal digit.
pub open spec fn digit_value(c: char) -> nat {
    (c as int - '0' as int) as nat
}

/// The characters that have the Unicode `White_Space` property.
pub open spec fn is_white_space(c: char) -> bool {
    ||| '\u{9}' <= c && c <= '\u{d}'
    ||| c == ' '
    ||| c == '\u{85}'
    ||| c == '\u{a0}'
    ||| c == '\u{1680}'
    ||| '\u{2000}' <= c && c <= '\u{200a}'
    ||| c == '\u{2028}'
    ||| c == '\u{2029}'
    ||| c == '\u{202f}'
    ||| c == '\u{205f}'
    ||| c == '\u{3000}'
}

/// Whether `char::is_numeric` holds of `c` (Unicode general categories Nd, Nl, No).
pub uninterp spec fn char_is_numeric(c: char) -> bool;

/// An ASCII character that is not a decimal digit.
pub open spec fn ascii_non_digit(c: char) -> bool {
    c <= '\u{7f}' && !is_decimal_digit(c)
}

/// The value of `c` as a decimal digit, as `char::to_digit(10)` gives it:
/// `Some` exactly for the ASCII digits `'0'..='9'`.
fn decimal_digit(c: char) -> (r: Option<u32>)
    ensures
        is_decimal_digit(c) ==> r == Some(digit_value(c) as u32),
        !is_decimal_digit(c) ==> r is None,
{
    if '0' <= c && c <= '9' {
        Some((c as u32) - ('0' as u32))
    } else {
        None
    }
}

/// `char::is_numeric`: whether `c` is in one of the Unicode general categories
/// for numbers. Which characters those are is not stated; the result is named
/// `char_is_numeric`. The one fact stated beside it: among the ASCII
/// characters, exactly the digits `'0'..='9'` are numeric (std answers those
/// itself and consults the Unicode tables only above `'\u{7f}'`).
#[verifier::external_body]
fn is_numeric(c: char) -> (r: bool)
    ensures
        r == char_is_numeric(c),
        c <= '\u{7f}' ==> (r <==> is_decimal_digit(c)),
{
    c.is_numeric()
}

/// Whether `c` has the Unicode `White_Space` property, as
/// `char::is_whitespace` tells.
fn is_whitespace(c: char) -> (r: bool)
    ensures
        r == is_white_space(c),
{
    ('\u{9}' <= c && c <= '\u{d}') || c == ' ' || c == '\u{85}' || c == '\u{a0}' || c
        == '\u{1680}' || ('\u{2000}' <= c && c <= '\u{200a}') || c == '\u{2028}' || c
        == '\u{2029}' || c == '\u{202f}' || c == '\u{205f}' || c == '\u{3000}'
}

/// The end of the run of ASCII decimal digits that starts at index `i`.
pub open spec fn digits_end(s: Seq<char>, i: int) -> int
    decreases s.len() - i,
{
    if 0 <= i < s.len() && is_decimal_digit(s[i]) {
        digits_end(s, i + 1)
    } else {
        i
    }
}

/// The decimal value of the digits `s[i..j]`, without any bound.
pub open spec fn digits_value(s: Seq<char>, i: int, j: int) -> nat
    decreases j - i,
{
    if j <= i {
        0
    } else {
        digits_value(s, i, j - 1) * 10 + digit_value(s[j - 1])
    }
}

/// What reading a number at `pos + offset` gives: `None` when no numeric
/// character stands there; otherwise the value of the ASCII digits that
/// follow (an error when it does not fit in a `u16`), and the offset, relative
/// to `pos`, just past those digits.
pub open spec fn number_at(s: Seq<char>, pos: int, offset: int) -> Option<(Result<u16, ()>, int)> {
    let p = pos + offset;
    if p < 0 || p >= s.len() || !char_is_numeric(s[p]) {
        None
    } else {
        let e = digits_end(s, p);
        let v = digits_value(s, p, e);
        Some((if v <= u16::MAX { Ok(v as u16) } else { Err(()) }, e - pos))
    }
}

/// The offset, relative to `pos`, of the first character at or after
/// `pos + offset` that is not white space (or of the end of input).
pub open spec fn skip_white_space(s: Seq<char>, pos: int, offset: int) -> int
    decreases s.len() - (pos + offset),
{
    if 0 <= pos + offset < s.len() && is_white_space(s[pos + offset]) {
        skip_white_space(s, pos, offset + 1)
    } else {
        offset
    }
}

/// The characters from `pos` on, at most `limit` of them.
pub open spec fn window(s: Seq<char>, pos: int, limit: int) -> Seq<char> {
    if pos >= s.len() {
        Seq::empty()
    } else if pos + limit <= s.len() {
        s.subrange(pos, pos + limit)
    } else {
        s.subrange(pos, s.len() as int)
    }
}

/// The character at `pos + offset`, if there is one.
pub open spec fn char_at(s: Seq<char>, pos: int, offset: int) -> Option<char> {
    if 0 <= pos + offset < s.len() {
        Some(s[pos + offset])
    } else {
        None
    }
}

proof fn lemma_digits_end(s: Seq<char>, j: int, k: int)
    requires
        j <= k <= s.len(),
        forall|m: int| j <= m < k ==> is_decimal_digit(#[trigger] s[m]),
        0 <= j,
        k == s.len() || !is_decimal_digit(s[k]),
    ensures
        digits_end(s, j) == k,
    decreases k - j,
{
    if j < k {
        lemma_digits_end(s, j + 1, k);
    }
}


/// A cursor over the characters (Unicode scalar values) of a pattern.
pub struct Cursor {
    input: Vec<char>,
    pos: usize,
}

/// A number read by the cursor: its value (an error when it overflows a
/// `u16`) and the offset just past its last digit.
pub struct OverFlowResult {
    pub result: Result<u16, ()>,
    pub offset: usize,
}

impl OverFlowResult {
    pub fn is_err(&self) -> (r: bool)
        ensures
            r == self.result is Err,
    {
        self.result.is_err()
    }

    pub fn unwrap(&self) -> (r: u16)
        requires
            self.result is Ok,
        ensures
            r == self.result->Ok_0,
    {
        match &self.result {
            Ok(v) => *v,
            Err(_) => 0,
        }
    }
}

impl Cursor {
    /// The characters of the input.
    pub closed spec fn chars(&self) -> Seq<char> {
        self.input@
    }

    /// The current position, an index into `chars()` (it may lie past the end).
    pub closed spec fn pos(&self) -> int {
        self.pos as int
    }

    /// The input's length fits in a `usize`.
    pub proof fn lemma_len_fits(&self)
        ensures
            self.chars().len() <= usize::MAX,
    {
        assert(self.input@.len() == self.input.len());
    }

    pub fn new(input: &str) -> (c: Self)
        ensures
            c.chars() == input@,
            c.pos() == 0,
    {
        let mut v: Vec<char> = Vec::new();
        for ch in it: input.chars()
            invariant
                v@ == it.seq().take(it.index() as int),
        {
            v.push(ch);
        }
        Cursor { input: v, pos: 0 }
    }

    pub fn move_to(&mut self, offset: usize)
        requires
            old(self).pos() + offset <= usize::MAX,
        ensures
            final(self).chars() == old(self).chars(),
            final(self).pos() == old(self).pos() + offset,
    {
        self.pos += offset;
    }

    pub fn peek(&self) -> (r: Option<char>)
        ensures
            r == char_at(self.chars(), self.pos(), 0),
    {
        if self.pos >= self.input.len() {
            return None;
        }
        Some(self.input[self.pos])
    }

    pub fn peek_at(&self, offset: usize) -> (r: Option<char>)
        ensures
            r == char_at(self.chars(), self.pos(), offset as int),
    {
        if self.pos >= self.input.len() || offset >= self.input.len() - self.pos {
            return None;
        }
        Some(self.input[self.pos + offset])
    }

    pub fn peek_number(&self) -> (r: Option<OverFlowResult>)
        ensures
            match number_at(self.chars(), self.pos(), 0) {
                None => r is None,
                Some((v, off)) => r matches Some(o) && o.result == v && o.offset == off,
            },
            self.pos() < self.chars().len() && is_decimal_digit(self.chars()[self.pos()])
                ==> r is Some,
            self.pos() < self.chars().len() && ascii_non_digit(self.chars()[self.pos()])
                ==> r is None,
    {
        self.peek_number_at(0)
    }

    /// The next `limit` characters from the current position, fewer where the
    /// input ends first.
    pub fn string_offset(&self, limit: usize) -> (r: String)
        ensures
            r@ == window(self.chars(), self.pos(), limit as int),
    {
        let mut result = String::new();
        let mut i: usize = 0;
        while i < limit
            invariant
                i <= limit,
                0 <= self.pos(),
                i > 0 ==> self.pos() + i <= self.chars().len(),
                result@ == window(self.chars(), self.pos(), i as int),
            ensures
                result@ == window(self.chars(), self.pos(), limit as int),
            decreases limit - i,
        {
            match self.peek_at(i) {
                None => {
                    assert(window(self.chars(), self.pos(), limit as int) =~= window(
                        self.chars(),
                        self.pos(),
                        i as int,
                    ));
                    break;
                },
                Some(c) => {
                    string_push(&mut result, c);
                    i += 1;
                    proof {
                        assert(result@ =~= window(self.chars(), self.pos(), i as int));
                    }
                },
            }
        }
        result
    }

    pub fn peek_number_at(&self, offset: usize) -> (r: Option<OverFlowResult>)
        ensures
            match number_at(self.chars(), self.pos(), offset as int) {
                None => r is None,
                Some((v, off)) => r matches Some(o) && o.result == v && o.offset == off,
            },
            self.pos() + offset < self.chars().len() && is_decimal_digit(
                self.chars()[self.pos() + offset],
            ) ==> r is Some,
            self.pos() + offset < self.chars().len() && ascii_non_digit(
                self.chars()[self.pos() + offset],
            ) ==> r is None,
    {
        let at_digit = self.at_digit(offset);
        if !at_digit {
            return None;
        }
        let ghost s = self.chars();
        let ghost start = self.pos() + offset;
        let len = self.input.len();
        let mut i = offset;
        let mut result: u16 = 0;
        let mut error_state = false;
        loop
            invariant
                s == self.chars(),
                s.len() == len,
                start == self.pos() + offset,
                start < s.len(),
                offset <= i,
                self.pos() + i <= s.len(),
                forall|m: int| start <= m < self.pos() + i ==> is_decimal_digit(#[trigger] s[m]),
                error_state == (digits_value(s, start, self.pos() + i) > u16::MAX),
                !error_state ==> result == digits_value(s, start, self.pos() + i),
            ensures
                self.pos() + i == digits_end(s, start),
                error_state == (digits_value(s, start, self.pos() + i) > u16::MAX),
                !error_state ==> result == digits_value(s, start, self.pos() + i),
            decreases s.len() - (self.pos() + i),
        {
            let c = match self.peek_at(i) {
                None => {
                    proof {
                        lemma_digits_end(s, start, self.pos() + i);
                    }
                    break;
                },
                Some(c) => c,
            };
            let n = match decimal_digit(c) {
                None => {
                    proof {
                        lemma_digits_end(s, start, self.pos() + i);
                    }
                    break;
                },
                Some(n) => n as u16,
            };
            let ghost old_value = digits_value(s, start, self.pos() + i);
            result = match result.checked_mul(10) {
                None => {
                    error_state = true;
                    0
                },
                Some(r) => r,
            };
            result = match result.checked_add(n) {
                None => {
                    error_state = true;
                    0
                },
                Some(r) => r,
            };
            i += 1;
            proof {
                assert(digits_value(s, start, self.pos() + i) == old_value * 10 + n);
            }
        }
        if error_state {
            return Some(OverFlowResult { result: Err(()), offset: i });
        }
        Some(OverFlowResult { result: Ok(result), offset: i })
    }

    /// Reads a number at the current position and moves the position to the
    /// returned offset (which is counted from the position where the number
    /// was read, not from the start of the input).
    pub fn next_number(&mut self) -> (r: Option<OverFlowResult>)
        ensures
            final(self).chars() == old(self).chars(),
            match number_at(old(self).chars(), old(self).pos(), 0) {
                None => r is None && final(self).pos() == old(self).pos(),
                Some((v, off)) => r matches Some(o) && o.result == v && o.offset == off
                    && final(self).pos() == off,
            },
            old(self).pos() < old(self).chars().len() && is_decimal_digit(
                old(self).chars()[old(self).pos()],
            ) ==> r is Some,
            old(self).pos() < old(self).chars().len() && ascii_non_digit(
                old(self).chars()[old(self).pos()],
            ) ==> r is None,
    {
        let result = match self.peek_number() {
            None => return None,
            Some(r) => r,
        };
        self.pos = result.offset;
        Some(result)
    }

    pub fn offset_whitespace_at(&self, offset: usize) -> (r: usize)
        ensures
            r == skip_white_space(self.chars(), self.pos(), offset as int),
    {
        let mut i = offset;
        let len = self.input.len();
        loop
            invariant
                self.chars().len() == len,
                offset <= i,
                skip_white_space(self.chars(), self.pos(), i as int) == skip_white_space(
                    self.chars(),
                    self.pos(),
                    offset as int,
                ),
            ensures
                i == skip_white_space(self.chars(), self.pos(), offset as int),
            decreases self.chars().len() - (self.pos() + i),
        {
            match self.peek_at(i) {
                None => break,
                Some(c) => {
                    if !is_whitespace(c) {
                        break;
                    }
                    i += 1;
                },
            }
        }
        i
    }

    pub fn rewind(&mut self, steps: usize)
        ensures
            final(self).chars() == old(self).chars(),
            final(self).pos() == if steps > old(self).pos() {
                0
            } else {
                old(self).pos() - steps
            },
    {
        if steps > self.pos {
            self.pos = 0;
        } else {
            self.pos -= steps;
        }
    }

    pub fn offset(&self) -> (r: usize)
        ensures
            r == self.pos(),
    {
        self.pos
    }

    pub fn is_eof(&self) -> (r: bool)
        ensures
            r == (self.pos() >= self.chars().len()),
    {
        self.peek().is_none()
    }

    /// Consumes `c` when it is the next character.
    pub fn eat(&mut self, c: char) -> (r: bool)
        ensures
            final(self).chars() == old(self).chars(),
            r == (char_at(old(self).chars(), old(self).pos(), 0) == Some(c)),
            final(self).pos() == if r {
                old(self).pos() + 1
            } else {
                old(self).pos()
            },
    {
        if self.peek() == Some(c) {
            self.next();
            return true;
        }
        false
    }

    /// Returns the next character and moves past it; `None` at the end of input.
    pub fn next(&mut self) -> (r: Option<char>)
        ensures
            final(self).chars() == old(self).chars(),
            r == char_at(old(self).chars(), old(self).pos(), 0),
            final(self).pos() == if r is Some {
                old(self).pos() + 1
            } else {
                old(self).pos()
            },
    {
        if self.pos >= self.input.len() {
            return None;
        }
        let c = self.input[self.pos];
        self.pos += 1;
        Some(c)
    }

    fn at_digit(&self, offset: usize) -> (r: bool)
        ensures
            r == (self.pos() + offset < self.chars().len() && char_is_numeric(
                self.chars()[self.pos() + offset],
            )),
            0 <= self.pos() && self.pos() + offset < self.chars().len() && is_decimal_digit(
                self.chars()[self.pos() + offset],
            ) ==> r,
            0 <= self.pos() && self.pos() + offset < self.chars().len() && ascii_non_digit(
                self.chars()[self.pos() + offset],
            ) ==> !r,
    {
        match self.peek_at(offset) {
            None => false,
            Some(c) => is_numeric(c),
        }
    }
}

/// `String::push`: appends `c`.
#[verifier::external_body]
pub(crate) fn string_push(s: &mut String, c: char)
    ensures
        final(s)@ == old(s)@.push(c),
{
    s.push(c);
}

} // verus!
