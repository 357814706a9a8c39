//! Character ranges in shorthands: `{a-c}` expands to the inclusive
//! run of characters between its two single-character bounds.

use vstd::prelude::*;

use crate::errors::GrammarError;
use crate::errors::LineColLocation;
use crate::errors::ParseError;
use crate::token::KeyRepr;
use crate::text::string_of_chars;

verus! {

/// The inclusive run of characters from `lo` to `hi`.
pub open spec fn char_range(lo: char, hi: char) -> Seq<char> {
    Seq::new((hi as int - lo as int + 1) as nat, |i: int| (lo as int + i) as char)
}

/// A range expands to one character per code point, in strictly
/// increasing order: `hi - lo + 1` characters for ASCII `lo <= hi`.
pub proof fn lemma_char_range_strictly_increasing(lo: char, hi: char)
    requires
        lo as u32 <= 127,
        hi as u32 <= 127,
        lo as u32 <= hi as u32,
    ensures
        char_range(lo, hi).len() == hi as int - lo as int + 1,
        forall|i: int, j: int|
            #![trigger char_range(lo, hi)[i], char_range(lo, hi)[j]]
            0 <= i < j < char_range(lo, hi).len() ==> (char_range(lo, hi)[i] as u32) < (char_range(
                lo,
                hi,
            )[j] as u32),
{
    assert forall|i: int, j: int|
        #![trigger char_range(lo, hi)[i], char_range(lo, hi)[j]]
        0 <= i < j < char_range(lo, hi).len() implies (char_range(lo, hi)[i] as u32) < (char_range(
        lo,
        hi,
    )[j] as u32) by {
        assert(char_range(lo, hi)[i] == (lo as int + i) as char);
        assert(char_range(lo, hi)[j] == (lo as int + j) as char);
    }
}

proof fn lemma_low_u32_fits_u8(c: u32)
    requires
        c <= 127,
    ensures
        (c as u8) as u32 == c,
{
    assert((c as u8) as u32 == c) by (bit_vector)
        requires
            c <= 127,
    ;
}

/// Exec expansion of an ASCII character range.
pub fn expand_range(lo: char, hi: char) -> (r: Vec<char>)
    requires
        lo as u32 <= 127,
        hi as u32 <= 127,
        lo as u32 <= hi as u32,
    ensures
        r@ == char_range(lo, hi),
        lo as int <= hi as int,
        r@.len() == hi as int - lo as int + 1,
{
    proof {
        vstd::utf8::char_u32_cast(lo, lo as u32);
        vstd::utf8::char_u32_cast(hi, hi as u32);
    }
    let lo32 = lo as u32;
    let hi32 = hi as u32;
    let mut r: Vec<char> = Vec::new();
    let mut c: u32 = lo32;
    while c <= hi32
        invariant
            lo32 == lo as u32,
            hi32 == hi as u32,
            hi32 <= 127,
            lo32 <= c <= hi32 + 1,
            r@.len() == c - lo32,
            forall|i: int| 0 <= i < r@.len() ==> r@[i] == (lo as int + i) as char,
        decreases hi32 + 1 - c,
    {
        proof {
            lemma_low_u32_fits_u8(c);
        }
        let c8 = c as u8;
        r.push(c8 as char);
        c = c + 1;
    }
    proof {
        assert(r@ =~= char_range(lo, hi));
    }
    r
}

/// The message a bound failure carries: which bound is not ASCII, or
/// that the bounds are out of order.
pub open spec fn bound_err_message(lo: char, hi: char) -> Seq<char> {
    if lo as u32 > 127 {
        "shorthand lower bound `"@ + seq![lo] + "` is not an ASCII character"@
    } else if hi as u32 > 127 {
        "shorthand upper bound `"@ + seq![hi] + "` is not an ASCII character"@
    } else {
        "shorthand lower bound `"@ + seq![lo] + "` is greater than upper bound `"@ + seq![hi]
            + "`"@
    }
}

/// The two bounds of a range shorthand, with the span of the range in
/// the source (start and end as line and column pairs) for error
/// reporting.
#[derive(Debug)]
pub struct Bounds {
    pub lower: KeyRepr,
    pub upper: KeyRepr,
    pub span_start: (usize, usize),
    pub span_end: (usize, usize),
}

impl Bounds {
    pub fn new(lower: KeyRepr, upper: KeyRepr, span_start: (usize, usize), span_end: (
        usize,
        usize,
    )) -> (b: Bounds)
        ensures
            b.lower == lower,
            b.upper == upper,
            b.span_start == span_start,
            b.span_end == span_end,
    {
        Bounds { lower, upper, span_start, span_end }
    }

    /// A grammar error spanning this range.
    fn spanned_error(&self, message: String) -> (e: ParseError)
        ensures
            e matches ParseError::Grammar(g) && g.line_col == LineColLocation::Span(
                self.span_start,
                self.span_end,
            ) && g.message == message,
    {
        ParseError::Grammar(
            GrammarError {
                line_col: LineColLocation::Span(self.span_start, self.span_end),
                message,
                path: String::new(),
            },
        )
    }

    /// Both bounds must be ASCII and ordered.
    fn verify_range_bounds(&self, lower_bound: char, upper_bound: char) -> (r: Result<
        (),
        ParseError,
    >)
        ensures
            match r {
                Ok(()) => lower_bound as u32 <= 127 && upper_bound as u32 <= 127 && lower_bound
                    as u32 <= upper_bound as u32,
                Err(e) => (lower_bound as u32 > 127 || upper_bound as u32 > 127 || lower_bound
                    as u32 > upper_bound as u32) && (e matches ParseError::Grammar(g)
                    && g.line_col == LineColLocation::Span(self.span_start, self.span_end)
                    && g.message@ == bound_err_message(lower_bound, upper_bound)),
            },
    {
        if lower_bound as u32 > 127 {
            let mut m = String::from_str("shorthand lower bound `");
            let mut cv: Vec<char> = Vec::new();
            cv.push(lower_bound);
            m.append(string_of_chars(&cv).as_str());
            m.append("` is not an ASCII character");
            proof {
                assert(cv@ =~= seq![lower_bound]);
            }
            return Err(self.spanned_error(m));
        }
        if upper_bound as u32 > 127 {
            let mut m = String::from_str("shorthand upper bound `");
            let mut cv: Vec<char> = Vec::new();
            cv.push(upper_bound);
            m.append(string_of_chars(&cv).as_str());
            m.append("` is not an ASCII character");
            proof {
                assert(cv@ =~= seq![upper_bound]);
            }
            return Err(self.spanned_error(m));
        }
        if lower_bound as u32 > upper_bound as u32 {
            let mut m = String::from_str("shorthand lower bound `");
            let mut cv: Vec<char> = Vec::new();
            cv.push(lower_bound);
            m.append(string_of_chars(&cv).as_str());
            m.append("` is greater than upper bound `");
            let mut cv2: Vec<char> = Vec::new();
            cv2.push(upper_bound);
            m.append(string_of_chars(&cv2).as_str());
            m.append("`");
            proof {
                assert(cv@ =~= seq![lower_bound]);
                assert(cv2@ =~= seq![upper_bound]);
            }
            return Err(self.spanned_error(m));
        }
        Ok(())
    }

    /// Bounds of a key-side range: the two timing attributes must agree
    /// and the bound characters must be ASCII and ordered. Callers
    /// guarantee single-character bounds; the grammar admits no others.
    pub fn expand_keys(&self) -> (r: Result<(char, char), ParseError>)
        requires
            self.lower.key@.len() == 1,
            self.upper.key@.len() == 1,
        ensures
            match r {
                Ok((lo, hi)) => lo == self.lower.key@[0] && hi == self.upper.key@[0]
                    && self.lower.attribute == self.upper.attribute && lo as u32 <= 127 && hi
                    as u32 <= 127 && lo as u32 <= hi as u32,
                Err(e) => (self.lower.attribute != self.upper.attribute || self.lower.key@[0]
                    as u32 > 127 || self.upper.key@[0] as u32 > 127 || self.lower.key@[0] as u32
                    > self.upper.key@[0] as u32) && (e matches ParseError::Grammar(g)
                    && g.line_col == LineColLocation::Span(self.span_start, self.span_end)
                    && g.message@ == (if self.lower.attribute != self.upper.attribute {
                    "range bounds must have the same timing attributes"@
                } else {
                    bound_err_message(self.lower.key@[0], self.upper.key@[0])
                })),
            },
    {
        if self.lower.attribute != self.upper.attribute {
            return Err(
                self.spanned_error(
                    String::from_str("range bounds must have the same timing attributes"),
                ),
            );
        }
        let lower = self.lower.key.as_str().get_char(0);
        let upper = self.upper.key.as_str().get_char(0);
        match self.verify_range_bounds(lower, upper) {
            Ok(()) => Ok((lower, upper)),
            Err(e) => Err(e),
        }
    }

    /// Bounds of a command-side range: the bound characters must be
    /// ASCII and ordered. Callers guarantee single-character bounds.
    pub fn expand_commands(&self) -> (r: Result<(char, char), ParseError>)
        requires
            self.lower.key@.len() == 1,
            self.upper.key@.len() == 1,
        ensures
            match r {
                Ok((lo, hi)) => lo == self.lower.key@[0] && hi == self.upper.key@[0] && lo as u32
                    <= 127 && hi as u32 <= 127 && lo as u32 <= hi as u32,
                Err(e) => (self.lower.key@[0] as u32 > 127 || self.upper.key@[0] as u32 > 127
                    || self.lower.key@[0] as u32 > self.upper.key@[0] as u32) && (e
                    matches ParseError::Grammar(g) && g.line_col == LineColLocation::Span(
                    self.span_start,
                    self.span_end,
                ) && g.message@ == bound_err_message(self.lower.key@[0], self.upper.key@[0])),
            },
    {
        let lower = self.lower.key.as_str().get_char(0);
        let upper = self.upper.key.as_str().get_char(0);
        match self.verify_range_bounds(lower, upper) {
            Ok(()) => Ok((lower, upper)),
            Err(e) => Err(e),
        }
    }
}

} // verus!
