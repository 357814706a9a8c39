//! The grammar of the configuration language: a recursive-descent
//! reading of the line-oriented source. A grammar error reports the
//! deepest source position at which a token was expected and not
//! found, as (line, column) pairs counted from 1.

use vstd::prelude::*;

use crate::errors::GrammarError;
use crate::errors::LineColLocation;
use crate::errors::ParseError;
use crate::text::chars_of_str;
use crate::text::lower_char;
use crate::text::lower_seq;
use crate::text::lower_range;
use crate::text::spec_unescape;
use crate::text::string_of_chars;
use crate::text::to_lower_char;
use crate::text::unescape_range;
use crate::token::KeyAttribute;
use crate::token::KeyRepr;
use crate::token::Modifier;
use crate::token::classify;
use crate::token::spec_classify;
use crate::keymap::spec_name_code;

verus! {

/// Horizontal whitespace: a space or a tab.
pub open spec fn is_ws(c: char) -> bool {
    c == ' ' || c == '\t'
}

/// An ASCII letter or digit.
pub open spec fn is_alnum(c: char) -> bool {
    (97 <= c as u32 && c as u32 <= 122) || (65 <= c as u32 && c as u32 <= 90) || (48 <= c as u32
        && c as u32 <= 57)
}

fn ws_char(c: char) -> (r: bool)
    ensures
        r == is_ws(c),
{
    c == ' ' || c == '\t'
}

fn alnum_char(c: char) -> (r: bool)
    ensures
        r == is_alnum(c),
{
    let u = c as u32;
    (97 <= u && u <= 122) || (65 <= u && u <= 90) || (48 <= u && u <= 57)
}

/// Where the run of spaces and tabs starting at `p` ends.
pub open spec fn spec_skip_ws(s: Seq<char>, p: int) -> int
    decreases s.len() - p,
{
    if p < 0 || p >= s.len() {
        p
    } else if is_ws(s[p]) {
        spec_skip_ws(s, p + 1)
    } else {
        p
    }
}

/// Skip spaces and tabs.
pub fn skip_ws(s: &Vec<char>, pos: usize) -> (np: usize)
    requires
        pos <= s@.len(),
    ensures
        pos <= np <= s@.len(),
        forall|i: int| pos <= i < np ==> is_ws(s@[i]),
        np < s@.len() ==> !is_ws(s@[np as int]),
        np as int == spec_skip_ws(s@, pos as int),
{
    let mut p = pos;
    while p < s.len() && ws_char(s[p])
        invariant
            pos <= p <= s@.len(),
            forall|i: int| pos <= i < p ==> is_ws(s@[i]),
            spec_skip_ws(s@, pos as int) == spec_skip_ws(s@, p as int),
        decreases s@.len() - p,
    {
        p = p + 1;
    }
    p
}

/// Where the line holding `p` ends (the next line feed, or the end).
pub open spec fn spec_skip_to_eol(s: Seq<char>, p: int) -> int
    decreases s.len() - p,
{
    if p < 0 || p >= s.len() {
        p
    } else if s[p] != '\n' {
        spec_skip_to_eol(s, p + 1)
    } else {
        p
    }
}

/// Advance to the next line feed, or to the end of the text.
pub fn skip_to_eol(s: &Vec<char>, pos: usize) -> (np: usize)
    requires
        pos <= s@.len(),
    ensures
        pos <= np <= s@.len(),
        forall|i: int| pos <= i < np ==> s@[i] != '\n',
        np < s@.len() ==> s@[np as int] == '\n',
        np as int == spec_skip_to_eol(s@, pos as int),
{
    let mut p = pos;
    while p < s.len() && s[p] != '\n'
        invariant
            pos <= p <= s@.len(),
            forall|i: int| pos <= i < p ==> s@[i] != '\n',
            spec_skip_to_eol(s@, pos as int) == spec_skip_to_eol(s@, p as int),
        decreases s@.len() - p,
    {
        p = p + 1;
    }
    p
}

/// The whitespace run ends within the text.
pub proof fn lemma_skip_ws_bounds(s: Seq<char>, p: int)
    requires
        0 <= p <= s.len(),
    ensures
        p <= spec_skip_ws(s, p) <= s.len(),
    decreases s.len() - p,
{
    if p < s.len() && is_ws(s[p]) {
        lemma_skip_ws_bounds(s, p + 1);
    }
}

/// The line's end lies within the text.
pub proof fn lemma_skip_to_eol_bounds(s: Seq<char>, p: int)
    requires
        0 <= p <= s.len(),
    ensures
        p <= spec_skip_to_eol(s, p) <= s.len(),
    decreases s.len() - p,
{
    if p < s.len() && s[p] != '\n' {
        lemma_skip_to_eol_bounds(s, p + 1);
    }
}

/// Where the blank run starting at `p` ends: horizontal whitespace,
/// line feeds and comment lines are skipped.
pub open spec fn spec_skip_blank(s: Seq<char>, p: int) -> int
    decreases s.len() - p,
    via spec_skip_blank_dec
{
    if p < 0 || p > s.len() {
        p
    } else {
        let q = spec_skip_ws(s, p);
        if q < s.len() && s[q] == '\n' {
            spec_skip_blank(s, q + 1)
        } else if q < s.len() && s[q] == '#' {
            let e = spec_skip_to_eol(s, q);
            if e < s.len() {
                spec_skip_blank(s, e + 1)
            } else {
                e
            }
        } else {
            q
        }
    }
}

#[via_fn]
proof fn spec_skip_blank_dec(s: Seq<char>, p: int) {
    if 0 <= p <= s.len() {
        lemma_skip_ws_bounds(s, p);
        let q = spec_skip_ws(s, p);
        if q < s.len() && s[q] == '#' {
            lemma_skip_to_eol_bounds(s, q);
        }
    }
}

/// Skip blank lines, horizontal whitespace and comment lines between
/// declarations.
pub fn skip_blank(s: &Vec<char>, pos: usize) -> (np: usize)
    requires
        pos <= s@.len(),
    ensures
        pos <= np <= s@.len(),
        np as int == spec_skip_blank(s@, pos as int),
    decreases s@.len() - pos,
{
    let p = skip_ws(s, pos);
    if p < s.len() && s[p] == '\n' {
        skip_blank(s, p + 1)
    } else if p < s.len() && s[p] == '#' {
        let q = skip_to_eol(s, p);
        if q < s.len() {
            skip_blank(s, q + 1)
        } else {
            q
        }
    } else {
        p
    }
}

/// The line (from 1) that `off` lies on: one more than the number of
/// line feeds before it.
pub open spec fn spec_line(s: Seq<char>, off: int) -> int
    decreases off,
{
    if off <= 0 {
        1
    } else {
        spec_line(s, off - 1) + if s[off - 1] == '\n' {
            1int
        } else {
            0int
        }
    }
}

/// The offset at which the line holding `off` starts.
pub open spec fn spec_line_start(s: Seq<char>, off: int) -> int
    decreases off,
{
    if off <= 0 {
        0
    } else if s[off - 1] == '\n' {
        off
    } else {
        spec_line_start(s, off - 1)
    }
}

/// The column (from 1) of `off` within its line.
pub open spec fn spec_col(s: Seq<char>, off: int) -> int {
    off - spec_line_start(s, off) + 1
}

proof fn lemma_line_bounds(s: Seq<char>, off: int)
    requires
        0 <= off,
    ensures
        1 <= spec_line(s, off) <= off + 1,
        0 <= spec_line_start(s, off) <= off,
    decreases off,
{
    if off > 0 {
        lemma_line_bounds(s, off - 1);
    }
}

/// The (line, column) position of `off`, both counted from 1.
pub fn line_col(s: &Vec<char>, off: usize) -> (lc: (usize, usize))
    requires
        off <= s@.len(),
        s@.len() < usize::MAX,
    ensures
        lc.0 as int == spec_line(s@, off as int),
        lc.1 as int == spec_col(s@, off as int),
{
    let mut line: usize = 1;
    let mut start: usize = 0;
    let mut i: usize = 0;
    while i < off
        invariant
            i <= off <= s@.len() < usize::MAX,
            line as int == spec_line(s@, i as int),
            start as int == spec_line_start(s@, i as int),
        decreases off - i,
    {
        proof {
            lemma_line_bounds(s@, i as int);
        }
        if s[i] == '\n' {
            line = line + 1;
            start = i + 1;
        }
        i = i + 1;
    }
    proof {
        lemma_line_bounds(s@, off as int);
    }
    (line, off - start + 1)
}

/// A grammar error at one position.
pub fn grammar_error_at(s: &Vec<char>, off: usize, message: String) -> (e: ParseError)
    requires
        off <= s@.len(),
        s@.len() < usize::MAX,
    ensures
        e matches ParseError::Grammar(g) && g.line_col == LineColLocation::Pos(
            (spec_line(s@, off as int) as usize, spec_col(s@, off as int) as usize),
        ),
{
    proof {
        lemma_line_bounds(s@, off as int);
    }
    let lc = line_col(s, off);
    ParseError::Grammar(GrammarError { line_col: LineColLocation::Pos(lc), message, path: String::new() })
}

/// The timing attribute named by a run of prefix characters: `~` sets
/// `send`, `@` sets `on_release`, in any order and number.
pub open spec fn attr_of_prefixes(region: Seq<char>) -> KeyAttribute {
    KeyAttribute { send: region.contains('~'), on_release: region.contains('@') }
}

/// Law: the two prefix orders `~@` and `@~` name the same attribute,
/// with both flags set.
pub proof fn lemma_prefix_order_irrelevant()
    ensures
        attr_of_prefixes("~@"@) == (KeyAttribute { send: true, on_release: true }),
        attr_of_prefixes("@~"@) == (KeyAttribute { send: true, on_release: true }),
{
    reveal_strlit("~@");
    reveal_strlit("@~");
    assert("~@"@[0] == '~' && "~@"@[1] == '@');
    assert("@~"@[0] == '@' && "@~"@[1] == '~');
}

/// Where the run of `~` and `@` prefixes starting at `p` ends.
pub open spec fn spec_prefix_end(s: Seq<char>, p: int) -> int
    decreases s.len() - p,
{
    if p < 0 || p >= s.len() {
        p
    } else if s[p] == '~' || s[p] == '@' {
        spec_prefix_end(s, p + 1)
    } else {
        p
    }
}

/// The prefix run ends within the text.
pub proof fn lemma_prefix_end_bounds(s: Seq<char>, p: int)
    requires
        0 <= p <= s.len(),
    ensures
        p <= spec_prefix_end(s, p) <= s.len(),
    decreases s.len() - p,
{
    if p < s.len() && (s[p] == '~' || s[p] == '@') {
        lemma_prefix_end_bounds(s, p + 1);
    }
}

/// Ghost view of a key-token text: its resolved name and timing
/// attribute.
pub struct KeyReprView {
    pub key: Seq<char>,
    pub attribute: KeyAttribute,
}

/// The view of one key-token text.
pub open spec fn key_repr_view(k: KeyRepr) -> KeyReprView {
    KeyReprView { key: k.key@, attribute: k.attribute }
}

/// Ghost view of a range shorthand: its bounds and its source span,
/// as (line, column) pairs.
pub struct BoundsView {
    pub lower: KeyReprView,
    pub upper: KeyReprView,
    pub start: (int, int),
    pub end: (int, int),
}

/// The view of one range.
pub open spec fn bounds_view(b: crate::range::Bounds) -> BoundsView {
    BoundsView {
        lower: key_repr_view(b.lower),
        upper: key_repr_view(b.upper),
        start: (b.span_start.0 as int, b.span_start.1 as int),
        end: (b.span_end.0 as int, b.span_end.1 as int),
    }
}

/// Ghost view of a parse error: its kind and location (the message
/// text and the originating file are related separately).
pub enum ErrView {
    AtPos { line: int, col: int },
    AtSpan { start: (int, int), end: (int, int) },
    BadKey { name: Seq<char> },
    NoFile { path: Seq<char> },
}

/// Whether the exec error is the viewed one.
pub open spec fn err_matches(e: ParseError, v: ErrView) -> bool {
    match v {
        ErrView::AtPos { line, col } => e matches ParseError::Grammar(g) && g.line_col
            == LineColLocation::Pos((line as usize, col as usize)),
        ErrView::AtSpan { start, end } => e matches ParseError::Grammar(g) && g.line_col
            == LineColLocation::Span(
            (start.0 as usize, start.1 as usize),
            (end.0 as usize, end.1 as usize),
        ),
        ErrView::BadKey { name } => e matches ParseError::InvalidKey(n) && n@ == name,
        ErrView::NoFile { path } => e matches ParseError::ConfigRead(
            crate::errors::ConfigReadError::ReadingConfig(p),
        ) && p@ == path,
    }
}

/// The position error at an offset.
pub open spec fn pos_err(s: Seq<char>, off: int) -> ErrView {
    ErrView::AtPos { line: spec_line(s, off), col: spec_col(s, off) }
}

/// Read the `~` and `@` prefixes of a key token.
pub fn parse_prefixes(s: &Vec<char>, pos: usize) -> (r: (KeyAttribute, usize))
    requires
        pos <= s@.len(),
    ensures
        pos <= r.1 <= s@.len(),
        forall|i: int| pos <= i < r.1 ==> s@[i] == '~' || s@[i] == '@',
        r.1 < s@.len() ==> s@[r.1 as int] != '~' && s@[r.1 as int] != '@',
        r.0 == attr_of_prefixes(s@.subrange(pos as int, r.1 as int)),
        r.1 as int == spec_prefix_end(s@, pos as int),
{
    let mut p = pos;
    let mut attr = KeyAttribute::empty();
    while p < s.len() && (s[p] == '~' || s[p] == '@')
        invariant
            pos <= p <= s@.len(),
            forall|i: int| pos <= i < p ==> s@[i] == '~' || s@[i] == '@',
            attr == attr_of_prefixes(s@.subrange(pos as int, p as int)),
            spec_prefix_end(s@, pos as int) == spec_prefix_end(s@, p as int),
        decreases s@.len() - p,
    {
        let ghost before = s@.subrange(pos as int, p as int);
        if s[p] == '~' {
            attr = attr.union(KeyAttribute { send: true, on_release: false });
        } else {
            attr = attr.union(KeyAttribute { send: false, on_release: true });
        }
        p = p + 1;
        proof {
            let now = s@.subrange(pos as int, p as int);
            assert(now =~= before.push(s@[p - 1]));
            assert(now.contains('~') == (before.contains('~') || s@[p - 1] == '~')) by {
                if now.contains('~') {
                    let w = choose|w: int| 0 <= w < now.len() && now[w] == '~';
                    if w < before.len() {
                        assert(before[w] == '~');
                    }
                }
                if before.contains('~') {
                    let w = choose|w: int| 0 <= w < before.len() && before[w] == '~';
                    assert(now[w] == '~');
                }
                if s@[p - 1] == '~' {
                    assert(now[now.len() - 1] == '~');
                }
            }
            assert(now.contains('@') == (before.contains('@') || s@[p - 1] == '@')) by {
                if now.contains('@') {
                    let w = choose|w: int| 0 <= w < now.len() && now[w] == '@';
                    if w < before.len() {
                        assert(before[w] == '@');
                    }
                }
                if before.contains('@') {
                    let w = choose|w: int| 0 <= w < before.len() && before[w] == '@';
                    assert(now[w] == '@');
                }
                if s@[p - 1] == '@' {
                    assert(now[now.len() - 1] == '@');
                }
            }
        }
    }
    proof {
        assert(attr == attr_of_prefixes(s@.subrange(pos as int, p as int)));
    }
    (attr, p)
}

/// Whether the non-empty literal stands at `p`, compared
/// case-insensitively; the position after it when it does.
pub open spec fn spec_match_ci(s: Seq<char>, p: int, lit: Seq<char>) -> Option<int> {
    if lit.len() > 0 && p + lit.len() <= s.len() && lower_seq(s.subrange(p, p + lit.len()))
        == lower_seq(lit) {
        Some(p + lit.len())
    } else {
        None
    }
}

/// Match `lit` at `pos`, comparing characters case-insensitively.
/// An empty literal never matches.
pub fn match_ci(s: &Vec<char>, pos: usize, lit: &str) -> (r: Option<usize>)
    requires
        pos <= s@.len(),
    ensures
        r matches Some(np) ==> pos < np <= s@.len() && np - pos == lit@.len() && lower_seq(
            s@.subrange(pos as int, np as int),
        ) == lower_seq(lit@),
        r is Some <==> spec_match_ci(s@, pos as int, lit@) is Some,
        r matches Some(np) ==> Some(np as int) == spec_match_ci(s@, pos as int, lit@),
{
    let n = lit.unicode_len();
    let total = s.len();
    if n == 0 || n > total - pos {
        return None;
    }
    let mut i: usize = 0;
    while i < n
        invariant
            0 <= i <= n,
            n == lit@.len(),
            total == s@.len(),
            0 < n <= total - pos,
            pos <= s@.len(),
            forall|j: int| 0 <= j < i ==> lower_char(s@[pos + j]) == lower_char(lit@[j]),
        decreases n - i,
    {
        if to_lower_char(s[pos + i]) != to_lower_char(lit.get_char(i)) {
            proof {
                assert(lower_seq(s@.subrange(pos as int, pos + n as int))[i as int] == lower_char(
                    s@[pos + i],
                ));
                assert(lower_seq(lit@)[i as int] == lower_char(lit@[i as int]));
                assert(lower_seq(s@.subrange(pos as int, pos + n as int)) != lower_seq(lit@));
            }
            return None;
        }
        i = i + 1;
    }
    proof {
        assert(lower_seq(s@.subrange(pos as int, (pos + n) as int)) =~= lower_seq(lit@));
    }
    Some(pos + n)
}

/// Whether the non-empty literal stands at `p`; the position after it
/// when it does.
pub open spec fn spec_match_lit(s: Seq<char>, p: int, lit: Seq<char>) -> Option<int> {
    if lit.len() > 0 && p + lit.len() <= s.len() && s.subrange(p, p + lit.len()) == lit {
        Some(p + lit.len())
    } else {
        None
    }
}

/// Match `lit` at `pos` exactly.
pub fn match_lit(s: &Vec<char>, pos: usize, lit: &str) -> (r: Option<usize>)
    requires
        pos <= s@.len(),
    ensures
        r matches Some(np) ==> pos < np <= s@.len() && np - pos == lit@.len() && s@.subrange(
            pos as int,
            np as int,
        ) == lit@,
        r is Some <==> spec_match_lit(s@, pos as int, lit@) is Some,
        r matches Some(np) ==> Some(np as int) == spec_match_lit(s@, pos as int, lit@),
{
    let n = lit.unicode_len();
    let total = s.len();
    if n == 0 || n > total - pos {
        return None;
    }
    let mut i: usize = 0;
    while i < n
        invariant
            0 <= i <= n,
            n == lit@.len(),
            total == s@.len(),
            0 < n <= total - pos,
            pos <= s@.len(),
            forall|j: int| 0 <= j < i ==> s@[pos + j] == lit@[j],
        decreases n - i,
    {
        if s[pos + i] != lit.get_char(i) {
            proof {
                assert(s@.subrange(pos as int, pos + n as int)[i as int] == s@[pos + i]);
                assert(s@.subrange(pos as int, pos + n as int) != lit@);
            }
            return None;
        }
        i = i + 1;
    }
    proof {
        assert(s@.subrange(pos as int, (pos + n) as int) =~= lit@);
    }
    Some(pos + n)
}

/// Where the run of ASCII letters and digits starting at `p` ends.
pub open spec fn spec_scan_word(s: Seq<char>, p: int) -> int
    decreases s.len() - p,
{
    if p < 0 || p >= s.len() {
        p
    } else if is_alnum(s[p]) {
        spec_scan_word(s, p + 1)
    } else {
        p
    }
}

/// The word run ends within the text.
pub proof fn lemma_scan_word_bounds(s: Seq<char>, p: int)
    requires
        0 <= p <= s.len(),
    ensures
        p <= spec_scan_word(s, p) <= s.len(),
    decreases s.len() - p,
{
    if p < s.len() && is_alnum(s[p]) {
        lemma_scan_word_bounds(s, p + 1);
    }
}

/// The end of the run of ASCII letters and digits starting at `pos`.
pub fn scan_word(s: &Vec<char>, pos: usize) -> (np: usize)
    requires
        pos <= s@.len(),
    ensures
        pos <= np <= s@.len(),
        forall|i: int| pos <= i < np ==> is_alnum(s@[i]),
        np < s@.len() ==> !is_alnum(s@[np as int]),
        np as int == spec_scan_word(s@, pos as int),
{
    let mut p = pos;
    while p < s.len() && alnum_char(s[p])
        invariant
            pos <= p <= s@.len(),
            forall|i: int| pos <= i < p ==> is_alnum(s@[i]),
            spec_scan_word(s@, pos as int) == spec_scan_word(s@, p as int),
        decreases s@.len() - p,
    {
        p = p + 1;
    }
    p
}

/// The modifier standing at `p`, if the word there names one (the
/// omission sentinel does not, outside shorthand groups).
pub open spec fn spec_parse_modifier(s: Seq<char>, p: int) -> Option<(Modifier, int)> {
    let e = spec_scan_word(s, p);
    if e == p {
        None
    } else {
        match spec_classify(lower_seq(s.subrange(p, e))) {
            Some(m) => if m == Modifier::Omission {
                None
            } else {
                Some((m, e))
            },
            None => None,
        }
    }
}

/// Read one modifier name at `pos`: a run of letters and digits whose
/// lowercase form names a modifier. The omission sentinel `_` is not a
/// modifier name here; it is read only inside shorthand groups.
pub fn parse_modifier(s: &Vec<char>, pos: usize) -> (r: Option<(Modifier, usize)>)
    requires
        pos <= s@.len(),
    ensures
        r matches Some((m, np)) ==> pos < np <= s@.len() && spec_classify(
            lower_seq(s@.subrange(pos as int, np as int)),
        ) == Some(m) && m != Modifier::Omission,
        r is Some <==> spec_parse_modifier(s@, pos as int) is Some,
        r matches Some((m, np)) ==> Some((m, np as int)) == spec_parse_modifier(s@, pos as int),
{
    let np = scan_word(s, pos);
    if np == pos {
        return None;
    }
    let lowered = lower_range(s, pos, np);
    match classify(&lowered) {
        Some(m) => {
            if m == Modifier::Omission {
                None
            } else {
                Some((m, np))
            }
        },
        None => None,
    }
}

/// Unescaping leaves a backslash-free text unchanged.
proof fn lemma_unescape_id(t: Seq<char>)
    requires
        forall|i: int| 0 <= i < t.len() ==> t[i] != '\\',
    ensures
        spec_unescape(t) == t,
    decreases t.len(),
{
    if t.len() > 0 {
        assert forall|i: int| 0 <= i < t.skip(1).len() implies t.skip(1)[i] != '\\' by {
            assert(t.skip(1)[i] == t[i + 1]);
        }
        lemma_unescape_id(t.skip(1));
        assert(seq![t[0]] + t.skip(1) =~= t);
    }
}

/// Characters that cannot begin a key name outside a shorthand.
pub open spec fn reserved_key_char(c: char) -> bool {
    c == '\n' || c == '+' || c == '{' || c == '}' || c == '~' || c == '@' || c == '#' || is_ws(c)
}

fn reserved_key(c: char) -> (r: bool)
    ensures
        r == reserved_key_char(c),
{
    c == '\n' || c == '+' || c == '{' || c == '}' || c == '~' || c == '@' || c == '#' || ws_char(c)
}

/// The key name standing at `p` outside a shorthand, folded to
/// lowercase: a known multi-character name, a single (possibly
/// escaped) character, or the offset at which a name was expected.
pub open spec fn spec_parse_key_base(s: Seq<char>, p: int) -> Result<(Seq<char>, int), int> {
    if p < 0 || p >= s.len() {
        Err(p)
    } else {
        let e = spec_scan_word(s, p);
        if e > p {
            if e - p >= 2 && spec_name_code(lower_seq(s.subrange(p, e))) is Some {
                Ok((lower_seq(s.subrange(p, e)), e))
            } else {
                Ok((lower_seq(s.subrange(p, p + 1)), p + 1))
            }
        } else if s[p] == '\\' {
            if p + 1 < s.len() && s[p + 1] != '\n' {
                Ok((seq![lower_char(s[p + 1])], p + 2))
            } else {
                Err(p)
            }
        } else if reserved_key_char(s[p]) {
            Err(p)
        } else {
            Ok((lower_seq(s.subrange(p, p + 1)), p + 1))
        }
    }
}

/// Read one key name outside a shorthand: a multi-character name from
/// the key table, or a single (possibly escaped) character. The name
/// comes back folded to lowercase and unescaped. On failure, the
/// offset at which a key name was expected.
pub fn parse_key_base(s: &Vec<char>, pos: usize) -> (r: Result<(String, usize), usize>)
    requires
        pos <= s@.len(),
    ensures
        r matches Ok((name, np)) ==> pos < np <= s@.len() && name@ == spec_unescape(
            lower_seq(s@.subrange(pos as int, np as int)),
        ) && (np - pos >= 2 && s@[pos as int] != '\\' ==> spec_name_code(name@) is Some),
        r matches Err(off) ==> pos <= off <= s@.len(),
        match r {
            Ok((name, np)) => spec_parse_key_base(s@, pos as int) == Ok::<_, int>(
                (name@, np as int),
            ),
            Err(off) => spec_parse_key_base(s@, pos as int) == Err::<(Seq<char>, int), _>(
                off as int,
            ),
        },
{
    if pos >= s.len() {
        return Err(pos);
    }
    let run_end = scan_word(s, pos);
    if run_end > pos {
        if run_end - pos >= 2 {
            let lowered = lower_range(s, pos, run_end);
            if crate::keymap::known_name(&lowered) {
                proof {
                    lemma_unescape_id(lower_seq(s@.subrange(pos as int, run_end as int)));
                }
                return Ok((string_of_chars(&lowered), run_end));
            }
        }
        let lowered = lower_range(s, pos, pos + 1);
        proof {
            lemma_unescape_id(lower_seq(s@.subrange(pos as int, pos + 1)));
        }
        return Ok((string_of_chars(&lowered), pos + 1));
    }
    let c = s[pos];
    if c == '\\' {
        if pos + 1 < s.len() && s[pos + 1] != '\n' {
            let mut cv: Vec<char> = Vec::new();
            cv.push(to_lower_char(s[pos + 1]));
            proof {
                let region = s@.subrange(pos as int, pos + 2);
                let folded = lower_seq(region);
                assert(folded.len() == 2);
                assert(folded[0] == lower_char(s@[pos as int]));
                assert(folded[1] == lower_char(s@[pos + 1]));
                assert(folded[0] == '\\');
                assert(folded.skip(2) =~= Seq::<char>::empty());
                assert(spec_unescape(folded) == seq![folded[1]] + spec_unescape(folded.skip(2)));
                assert(spec_unescape(folded) =~= cv@);
            }
            return Ok((string_of_chars(&cv), pos + 2));
        }
        return Err(pos);
    }
    if reserved_key(c) {
        return Err(pos);
    }
    let lowered = lower_range(s, pos, pos + 1);
    proof {
        lemma_unescape_id(lower_seq(s@.subrange(pos as int, pos + 1)));
    }
    Ok((string_of_chars(&lowered), pos + 1))
}

/// The key token standing at `p` outside a shorthand: its attribute
/// comes from the `~`/`@` prefix run ending at `spec_prefix_end`, its
/// name from the key name that follows.
pub open spec fn spec_parse_key(s: Seq<char>, p: int) -> Result<(KeyReprView, int), int> {
    let m = spec_prefix_end(s, p);
    match spec_parse_key_base(s, m) {
        Ok((name, np)) => Ok(
            (KeyReprView { key: name, attribute: attr_of_prefixes(s.subrange(p, m)) }, np),
        ),
        Err(off) => Err(off),
    }
}

/// Read one key token outside a shorthand: its `~`/`@` prefixes and
/// its name, folded to lowercase and unescaped. On failure, the offset
/// at which a key was expected.
pub fn parse_key(s: &Vec<char>, pos: usize) -> (r: Result<(KeyRepr, usize), usize>)
    requires
        pos <= s@.len(),
    ensures
        r matches Ok((repr, np)) ==> pos < np <= s@.len(),
        r matches Err(off) ==> pos <= off <= s@.len(),
        match r {
            Ok((repr, np)) => spec_parse_key(s@, pos as int) == Ok::<_, int>(
                (key_repr_view(repr), np as int),
            ),
            Err(off) => spec_parse_key(s@, pos as int) == Err::<(KeyReprView, int), _>(off as int),
        },
{
    let (attr, q) = parse_prefixes(s, pos);
    match parse_key_base(s, q) {
        Ok((name, np)) => {
            proof {
                assert(attr == attr_of_prefixes(s@.subrange(pos as int, q as int)));
            }
            Ok((KeyRepr { key: name, attribute: attr }, np))
        },
        Err(off) => Err(off),
    }
}

/// The larger of two offsets.
pub open spec fn spec_max(a: int, b: int) -> int {
    if a >= b {
        a
    } else {
        b
    }
}

fn max_off(a: usize, b: usize) -> (r: usize)
    ensures
        r as int == spec_max(a as int, b as int),
        r == a || r == b,
        r >= a && r >= b,
{
    if a >= b {
        a
    } else {
        b
    }
}

/// The key-side range bound standing at `p`: optional prefixes and one
/// letter or digit, folded to lowercase.
pub open spec fn spec_key_range_bound(s: Seq<char>, p: int) -> Option<(KeyReprView, int)> {
    let q = spec_prefix_end(s, p);
    if q < s.len() && is_alnum(s[q]) {
        Some(
            (
                KeyReprView {
                    key: seq![lower_char(s[q])],
                    attribute: attr_of_prefixes(s.subrange(p, q)),
                },
                q + 1,
            ),
        )
    } else {
        None
    }
}

/// Read one range bound on the key side: optional `~`/`@` prefixes and
/// one letter or digit, folded to lowercase.
fn parse_key_range_bound(s: &Vec<char>, pos: usize) -> (r: Option<(KeyRepr, usize)>)
    requires
        pos <= s@.len(),
    ensures
        r matches Some((repr, np)) ==> pos < np <= s@.len() && repr.key@.len() == 1,
        r is Some <==> spec_key_range_bound(s@, pos as int) is Some,
        r matches Some((repr, np)) ==> Some((key_repr_view(repr), np as int))
            == spec_key_range_bound(s@, pos as int),
{
    let (attr, q) = parse_prefixes(s, pos);
    if q < s.len() && alnum_char(s[q]) {
        let mut cv: Vec<char> = Vec::new();
        cv.push(to_lower_char(s[q]));
        proof {
            assert(cv@ =~= seq![lower_char(s@[q as int])]);
        }
        Some((KeyRepr { key: string_of_chars(&cv), attribute: attr }, q + 1))
    } else {
        None
    }
}

/// The key-side range standing at `p`: bound, `-`, bound, with its
/// source span. On failure, the deepest offset at which a bound was
/// expected.
pub open spec fn spec_try_key_range(s: Seq<char>, p: int) -> Result<(BoundsView, int), int> {
    match spec_key_range_bound(s, p) {
        None => Err(p),
        Some((lo, q1)) => if !(q1 < s.len() && s[q1] == '-') {
            Err(p)
        } else {
            match spec_key_range_bound(s, q1 + 1) {
                None => Err(q1 + 1),
                Some((hi, q2)) => Ok(
                    (
                        BoundsView {
                            lower: lo,
                            upper: hi,
                            start: (spec_line(s, p), spec_col(s, p)),
                            end: (spec_line(s, q2), spec_col(s, q2)),
                        },
                        q2,
                    ),
                ),
            }
        },
    }
}

/// Try a key-side range at `pos`: bound, `-`, bound. On failure, the
/// deepest offset at which a bound was expected.
fn try_key_range(s: &Vec<char>, pos: usize) -> (r: Result<(crate::range::Bounds, usize), usize>)
    requires
        pos <= s@.len(),
        s@.len() < usize::MAX,
    ensures
        r matches Ok((b, np)) ==> pos < np <= s@.len() && b.lower.key@.len() == 1
            && b.upper.key@.len() == 1,
        r matches Err(off) ==> pos <= off <= s@.len(),
        match r {
            Ok((b, np)) => spec_try_key_range(s@, pos as int) == Ok::<_, int>(
                (bounds_view(b), np as int),
            ),
            Err(off) => spec_try_key_range(s@, pos as int) == Err::<(BoundsView, int), _>(
                off as int,
            ),
        },
{
    let (lower, q1) = match parse_key_range_bound(s, pos) {
        Some(b) => b,
        None => {
            return Err(pos);
        },
    };
    if !(q1 < s.len() && s[q1] == '-') {
        return Err(pos);
    }
    let (upper, q2) = match parse_key_range_bound(s, q1 + 1) {
        Some(b) => b,
        None => {
            return Err(q1 + 1);
        },
    };
    let start_lc = line_col(s, pos);
    let end_lc = line_col(s, q2);
    Ok((crate::range::Bounds::new(lower, upper, start_lc, end_lc), q2))
}

/// Ghost view of one key-shorthand item.
pub enum ShorthandItemView {
    SingleV(KeyReprView),
    RangeV(BoundsView),
}

/// The view of one key-shorthand item.
pub open spec fn shorthand_item_view(it: crate::definition::ShorthandItem) -> ShorthandItemView {
    match it {
        crate::definition::ShorthandItem::Single(k) => ShorthandItemView::SingleV(
            key_repr_view(k),
        ),
        crate::definition::ShorthandItem::Range(b) => ShorthandItemView::RangeV(bounds_view(b)),
    }
}

/// The views of a key-shorthand item list.
pub open spec fn sh_items_view(v: Seq<crate::definition::ShorthandItem>) -> Seq<
    ShorthandItemView,
> {
    v.map_values(|it: crate::definition::ShorthandItem| shorthand_item_view(it))
}

/// Characters a key name inside a shorthand may not hold unescaped.
pub open spec fn shorthand_key_stop(c: char) -> bool {
    c == ',' || c == '}' || c == '{' || c == '-' || c == '\n' || c == '\\' || c == '~' || c == '@'
        || is_ws(c)
}

fn shorthand_key_stop_char(c: char) -> (r: bool)
    ensures
        r == shorthand_key_stop(c),
{
    c == ',' || c == '}' || c == '{' || c == '-' || c == '\n' || c == '\\' || c == '~' || c == '@'
        || ws_char(c)
}

/// Where a key-name run inside a shorthand ends; a backslash takes
/// the next character along.
pub open spec fn spec_scan_key_run(s: Seq<char>, p: int) -> int
    decreases s.len() - p,
{
    if p < 0 || p >= s.len() {
        p
    } else if s[p] == '\\' {
        if p + 1 < s.len() {
            spec_scan_key_run(s, p + 2)
        } else {
            p + 1
        }
    } else if shorthand_key_stop(s[p]) {
        p
    } else {
        spec_scan_key_run(s, p + 1)
    }
}

/// The key-name run ends within the text.
pub proof fn lemma_scan_key_run_bounds(s: Seq<char>, p: int)
    requires
        0 <= p <= s.len(),
    ensures
        p <= spec_scan_key_run(s, p) <= s.len(),
    decreases s.len() - p,
{
    if p < s.len() {
        if s[p] == '\\' {
            if p + 1 < s.len() {
                lemma_scan_key_run_bounds(s, p + 2);
            }
        } else if !shorthand_key_stop(s[p]) {
            lemma_scan_key_run_bounds(s, p + 1);
        }
    }
}

/// The end of a key-name run inside a shorthand; a backslash takes the
/// next character along.
fn scan_shorthand_key_run(s: &Vec<char>, pos: usize) -> (np: usize)
    requires
        pos <= s@.len(),
    ensures
        pos <= np <= s@.len(),
        np as int == spec_scan_key_run(s@, pos as int),
{
    let mut p = pos;
    while p < s.len()
        invariant
            pos <= p <= s@.len(),
            spec_scan_key_run(s@, pos as int) == spec_scan_key_run(s@, p as int),
        decreases s@.len() - p,
    {
        if s[p] == '\\' {
            if p + 1 < s.len() {
                p = p + 2;
            } else {
                p = p + 1;
            }
        } else if shorthand_key_stop_char(s[p]) {
            return p;
        } else {
            p = p + 1;
        }
    }
    p
}

/// One key-shorthand item standing at `q`: a range, or a prefixed
/// name run; with it, where it ends and the deepest failed offset so
/// far.
pub open spec fn spec_ksh_component(s: Seq<char>, q: int, worst: int) -> Result<
    (ShorthandItemView, int, int),
    int,
> {
    match spec_try_key_range(s, q) {
        Ok((b, np)) => Ok((ShorthandItemView::RangeV(b), np, worst)),
        Err(off) => {
            let w2 = spec_max(worst, off);
            let q2 = spec_prefix_end(s, q);
            let re = spec_scan_key_run(s, q2);
            if re == q2 {
                Err(w2)
            } else {
                Ok(
                    (
                        ShorthandItemView::SingleV(
                            KeyReprView {
                                key: spec_unescape(lower_seq(s.subrange(q2, re))),
                                attribute: attr_of_prefixes(s.subrange(q, q2)),
                            },
                        ),
                        re,
                        w2,
                    ),
                )
            }
        },
    }
}

/// The items of a key shorthand from `p` (just after `{`) on: items
/// separated by commas, closed by `}`; a lone item passes only as a
/// range. On failure, the deepest offset at which the grammar expected
/// something.
pub open spec fn spec_ksh_loop(
    s: Seq<char>,
    p: int,
    worst: int,
    acc: Seq<ShorthandItemView>,
) -> Result<(Seq<ShorthandItemView>, int), int>
    decreases s.len() - p,
{
    if p < 0 || p > s.len() {
        Err(worst)
    } else {
        match spec_ksh_component(s, spec_skip_ws(s, p), worst) {
            Err(w) => Err(w),
            Ok((item, after, w2)) => {
                let q3 = spec_skip_ws(s, after);
                let acc2 = acc.push(item);
                if q3 < s.len() && s[q3] == ',' {
                    if q3 + 1 > p {
                        spec_ksh_loop(s, q3 + 1, w2, acc2)
                    } else {
                        Err(w2)
                    }
                } else if q3 < s.len() && s[q3] == '}' {
                    if acc2.len() >= 2 || acc2[0] is RangeV {
                        Ok((acc2, q3 + 1))
                    } else {
                        Err(w2)
                    }
                } else {
                    Err(w2)
                }
            },
        }
    }
}

/// The key shorthand standing at `p`: `{`, its items, `}`.
pub open spec fn spec_parse_key_shorthand(s: Seq<char>, p: int) -> Result<
    (Seq<ShorthandItemView>, int),
    int,
> {
    if p < 0 || p >= s.len() || s[p] != '{' {
        Err(p)
    } else {
        spec_ksh_loop(s, p + 1, p, Seq::empty())
    }
}

/// Read a key shorthand at `pos` (which holds `{`): comma-separated
/// items, each a key or a range; a lone item is allowed only when it
/// is a range (which expands to its own alternatives). On failure, the
/// deepest offset at which the grammar expected something.
#[verifier::loop_isolation(false)]
pub fn parse_key_shorthand(s: &Vec<char>, pos: usize) -> (r: Result<
    (Vec<crate::definition::ShorthandItem>, usize),
    usize,
>)
    requires
        pos < s@.len(),
        s@.len() < usize::MAX,
    ensures
        r matches Ok((items, np)) ==> pos < np <= s@.len() && items@.len() >= 1 && (forall|j: int|
            0 <= j < items@.len() ==> (#[trigger] items@[j]
                matches crate::definition::ShorthandItem::Range(b) ==> (b.lower.key@.len() == 1
                && b.upper.key@.len() == 1))),
        r matches Err(off) ==> pos <= off <= s@.len(),
        match r {
            Ok((items, np)) => spec_parse_key_shorthand(s@, pos as int) == Ok::<_, int>(
                (sh_items_view(items@), np as int),
            ),
            Err(off) => spec_parse_key_shorthand(s@, pos as int) == Err::<
                (Seq<ShorthandItemView>, int),
                _,
            >(off as int),
        },
{
    if s[pos] != '{' {
        return Err(pos);
    }
    let mut items: Vec<crate::definition::ShorthandItem> = Vec::new();
    let mut worst: usize = pos;
    let mut p = pos + 1;
    proof {
        assert(sh_items_view(items@) =~= Seq::<ShorthandItemView>::empty());
    }
    loop
        invariant
            pos < p <= s@.len(),
            pos <= worst <= s@.len(),
            forall|j: int|
                0 <= j < items@.len() ==> (#[trigger] items@[j]
                    matches crate::definition::ShorthandItem::Range(b) ==> (b.lower.key@.len() == 1
                    && b.upper.key@.len() == 1)),
            spec_parse_key_shorthand(s@, pos as int) == spec_ksh_loop(
                s@,
                p as int,
                worst as int,
                sh_items_view(items@),
            ),
        decreases s@.len() - p,
    {
        let ghost items0 = sh_items_view(items@);
        let ghost w0 = worst as int;
        let ghost p0 = p as int;
        let q = skip_ws(s, p);
        let cs = q;
        let mut after: usize;
        match try_key_range(s, cs) {
            Ok((b, np)) => {
                items.push(crate::definition::ShorthandItem::Range(b));
                proof {
                    assert(spec_ksh_component(s@, cs as int, w0) == Ok::<_, int>(
                        (shorthand_item_view(items@.last()), np as int, worst as int),
                    ));
                }
                after = np;
            },
            Err(off) => {
                worst = max_off(worst, off);
                let (attr, q2) = parse_prefixes(s, cs);
                let rend = scan_shorthand_key_run(s, q2);
                if rend == q2 {
                    proof {
                        assert(spec_ksh_component(s@, cs as int, w0) == Err::<
                            (ShorthandItemView, int, int),
                            _,
                        >(worst as int));
                        assert(spec_ksh_loop(s@, p0, w0, items0) == Err::<
                            (Seq<ShorthandItemView>, int),
                            _,
                        >(worst as int));
                    }
                    return Err(worst);
                }
                let lowered = lower_range(s, q2, rend);
                let name = unescape_range(&lowered, 0, lowered.len());
                proof {
                    assert(lowered@.subrange(0, lowered@.len() as int) =~= lowered@);
                }
                let repr = KeyRepr { key: string_of_chars(&name), attribute: attr };
                items.push(crate::definition::ShorthandItem::Single(repr));
                proof {
                    assert(spec_ksh_component(s@, cs as int, w0) == Ok::<_, int>(
                        (shorthand_item_view(items@.last()), rend as int, worst as int),
                    ));
                }
                after = rend;
            },
        }
        proof {
            assert(sh_items_view(items@) =~= items0.push(shorthand_item_view(items@.last())));
        }
        let q3 = skip_ws(s, after);
        proof {
            assert(q3 + 1 > p0);
        }
        if q3 < s.len() && s[q3] == ',' {
            proof {
                assert(spec_ksh_loop(s@, p0, w0, items0) == spec_ksh_loop(
                    s@,
                    q3 + 1,
                    worst as int,
                    sh_items_view(items@),
                ));
            }
            p = q3 + 1;
        } else if q3 < s.len() && s[q3] == '}' {
            if items.len() >= 2 {
                proof {
                    assert(spec_ksh_loop(s@, p0, w0, items0) == Ok::<_, int>(
                        (sh_items_view(items@), q3 + 1),
                    ));
                }
                return Ok((items, q3 + 1));
            }
            if items.len() == 1 {
                let lone_range = match &items[0] {
                    crate::definition::ShorthandItem::Range(_) => true,
                    crate::definition::ShorthandItem::Single(_) => false,
                };
                if lone_range {
                    proof {
                        assert(sh_items_view(items@)[0] is RangeV);
                        assert(spec_ksh_loop(s@, p0, w0, items0) == Ok::<_, int>(
                            (sh_items_view(items@), q3 + 1),
                        ));
                    }
                    return Ok((items, q3 + 1));
                }
                proof {
                    assert(!(sh_items_view(items@)[0] is RangeV));
                    assert(spec_ksh_loop(s@, p0, w0, items0) == Err::<
                        (Seq<ShorthandItemView>, int),
                        _,
                    >(worst as int));
                }
            }
            return Err(worst);
        } else {
            proof {
                assert(spec_ksh_loop(s@, p0, w0, items0) == Err::<
                    (Seq<ShorthandItemView>, int),
                    _,
                >(worst as int));
            }
            return Err(worst);
        }
    }
}

/// One item of a command shorthand: literal text (still escaped) or a
/// range.
#[derive(Debug)]
pub enum CommandShItem {
    Text(String),
    Range(crate::range::Bounds),
}

/// Characters command-shorthand text may not hold unescaped.
pub open spec fn shorthand_cmd_stop(c: char) -> bool {
    c == ',' || c == '}' || c == '{' || c == '-' || c == '\n' || c == '\\'
}

fn shorthand_cmd_stop_char(c: char) -> (r: bool)
    ensures
        r == shorthand_cmd_stop(c),
{
    c == ',' || c == '}' || c == '{' || c == '-' || c == '\n' || c == '\\'
}

/// Where a text run inside a command shorthand ends; a backslash
/// takes the next character along.
pub open spec fn spec_scan_cmd_run(s: Seq<char>, p: int) -> int
    decreases s.len() - p,
{
    if p < 0 || p >= s.len() {
        p
    } else if s[p] == '\\' {
        if p + 1 < s.len() {
            spec_scan_cmd_run(s, p + 2)
        } else {
            p + 1
        }
    } else if shorthand_cmd_stop(s[p]) {
        p
    } else {
        spec_scan_cmd_run(s, p + 1)
    }
}

/// The command-text run ends within the text.
pub proof fn lemma_scan_cmd_run_bounds(s: Seq<char>, p: int)
    requires
        0 <= p <= s.len(),
    ensures
        p <= spec_scan_cmd_run(s, p) <= s.len(),
    decreases s.len() - p,
{
    if p < s.len() {
        if s[p] == '\\' {
            if p + 1 < s.len() {
                lemma_scan_cmd_run_bounds(s, p + 2);
            }
        } else if !shorthand_cmd_stop(s[p]) {
            lemma_scan_cmd_run_bounds(s, p + 1);
        }
    }
}

fn scan_shorthand_cmd_run(s: &Vec<char>, pos: usize) -> (np: usize)
    requires
        pos <= s@.len(),
    ensures
        pos <= np <= s@.len(),
        np as int == spec_scan_cmd_run(s@, pos as int),
{
    let mut p = pos;
    while p < s.len()
        invariant
            pos <= p <= s@.len(),
            spec_scan_cmd_run(s@, pos as int) == spec_scan_cmd_run(s@, p as int),
        decreases s@.len() - p,
    {
        if s[p] == '\\' {
            if p + 1 < s.len() {
                p = p + 2;
            } else {
                p = p + 1;
            }
        } else if shorthand_cmd_stop_char(s[p]) {
            return p;
        } else {
            p = p + 1;
        }
    }
    p
}

/// The command-side range bound standing at `p`: one letter or digit,
/// kept as written, with no timing attribute.
pub open spec fn spec_cmd_range_bound(s: Seq<char>, p: int) -> Option<(KeyReprView, int)> {
    if 0 <= p < s.len() && is_alnum(s[p]) {
        Some(
            (
                KeyReprView {
                    key: seq![s[p]],
                    attribute: KeyAttribute { send: false, on_release: false },
                },
                p + 1,
            ),
        )
    } else {
        None
    }
}

/// The command-side range standing at `p`: bound, `-`, bound, with its
/// source span.
pub open spec fn spec_try_cmd_range(s: Seq<char>, p: int) -> Result<(BoundsView, int), int> {
    match spec_cmd_range_bound(s, p) {
        None => Err(p),
        Some((lo, q1)) => if !(q1 < s.len() && s[q1] == '-') {
            Err(p)
        } else {
            match spec_cmd_range_bound(s, q1 + 1) {
                None => Err(q1 + 1),
                Some((hi, q2)) => Ok(
                    (
                        BoundsView {
                            lower: lo,
                            upper: hi,
                            start: (spec_line(s, p), spec_col(s, p)),
                            end: (spec_line(s, q2), spec_col(s, q2)),
                        },
                        q2,
                    ),
                ),
            }
        },
    }
}

/// Read one range bound on the command side: a single letter or digit,
/// kept as written.
fn parse_cmd_range_bound(s: &Vec<char>, pos: usize) -> (r: Option<(KeyRepr, usize)>)
    requires
        pos <= s@.len(),
    ensures
        r matches Some((repr, np)) ==> pos < np <= s@.len() && repr.key@.len() == 1,
        r is Some <==> spec_cmd_range_bound(s@, pos as int) is Some,
        r matches Some((repr, np)) ==> Some((key_repr_view(repr), np as int))
            == spec_cmd_range_bound(s@, pos as int),
{
    if pos < s.len() && alnum_char(s[pos]) {
        let mut cv: Vec<char> = Vec::new();
        cv.push(s[pos]);
        proof {
            assert(cv@ =~= seq![s@[pos as int]]);
        }
        Some((KeyRepr { key: string_of_chars(&cv), attribute: KeyAttribute::empty() }, pos + 1))
    } else {
        None
    }
}

fn try_cmd_range(s: &Vec<char>, pos: usize) -> (r: Result<(crate::range::Bounds, usize), usize>)
    requires
        pos <= s@.len(),
        s@.len() < usize::MAX,
    ensures
        r matches Ok((b, np)) ==> pos < np <= s@.len() && b.lower.key@.len() == 1
            && b.upper.key@.len() == 1,
        r matches Err(off) ==> pos <= off <= s@.len(),
        match r {
            Ok((b, np)) => spec_try_cmd_range(s@, pos as int) == Ok::<_, int>(
                (bounds_view(b), np as int),
            ),
            Err(off) => spec_try_cmd_range(s@, pos as int) == Err::<(BoundsView, int), _>(
                off as int,
            ),
        },
{
    let (lower, q1) = match parse_cmd_range_bound(s, pos) {
        Some(b) => b,
        None => {
            return Err(pos);
        },
    };
    if !(q1 < s.len() && s[q1] == '-') {
        return Err(pos);
    }
    let (upper, q2) = match parse_cmd_range_bound(s, q1 + 1) {
        Some(b) => b,
        None => {
            return Err(q1 + 1);
        },
    };
    let start_lc = line_col(s, pos);
    let end_lc = line_col(s, q2);
    Ok((crate::range::Bounds::new(lower, upper, start_lc, end_lc), q2))
}

/// Ghost view of one command-shorthand item.
pub enum CommandShItemView {
    TextV(Seq<char>),
    CRangeV(BoundsView),
}

/// The view of one command-shorthand item.
pub open spec fn csh_item_view(it: CommandShItem) -> CommandShItemView {
    match it {
        CommandShItem::Text(t) => CommandShItemView::TextV(t@),
        CommandShItem::Range(b) => CommandShItemView::CRangeV(bounds_view(b)),
    }
}

/// The views of a command-shorthand item list.
pub open spec fn csh_items_view(v: Seq<CommandShItem>) -> Seq<CommandShItemView> {
    v.map_values(|it: CommandShItem| csh_item_view(it))
}

/// One command-shorthand item standing at `q`: a range, or a raw text
/// run; with it, where it ends and the deepest failed offset so far.
pub open spec fn spec_csh_component(s: Seq<char>, q: int, worst: int) -> Result<
    (CommandShItemView, int, int),
    int,
> {
    match spec_try_cmd_range(s, q) {
        Ok((b, np)) => Ok((CommandShItemView::CRangeV(b), np, worst)),
        Err(off) => {
            let w2 = spec_max(worst, off);
            let re = spec_scan_cmd_run(s, q);
            if re == q {
                Err(w2)
            } else {
                Ok((CommandShItemView::TextV(s.subrange(q, re)), re, w2))
            }
        },
    }
}

/// The items of a command shorthand from `p` (just after `{`) on.
pub open spec fn spec_csh_loop(
    s: Seq<char>,
    p: int,
    worst: int,
    acc: Seq<CommandShItemView>,
) -> Result<(Seq<CommandShItemView>, int), int>
    decreases s.len() - p,
{
    if p < 0 || p > s.len() {
        Err(worst)
    } else {
        match spec_csh_component(s, spec_skip_ws(s, p), worst) {
            Err(w) => Err(w),
            Ok((item, after, w2)) => {
                let q3 = spec_skip_ws(s, after);
                let acc2 = acc.push(item);
                if q3 < s.len() && s[q3] == ',' {
                    if q3 + 1 > p {
                        spec_csh_loop(s, q3 + 1, w2, acc2)
                    } else {
                        Err(w2)
                    }
                } else if q3 < s.len() && s[q3] == '}' {
                    if acc2.len() >= 2 || acc2[0] is CRangeV {
                        Ok((acc2, q3 + 1))
                    } else {
                        Err(w2)
                    }
                } else {
                    Err(w2)
                }
            },
        }
    }
}

/// The command shorthand standing at `p`: `{`, its items, `}`.
pub open spec fn spec_parse_csh_syntax(s: Seq<char>, p: int) -> Result<
    (Seq<CommandShItemView>, int),
    int,
> {
    if p < 0 || p >= s.len() || s[p] != '{' {
        Err(p)
    } else {
        spec_csh_loop(s, p + 1, p, Seq::empty())
    }
}

/// Read a command shorthand at `pos` (which holds `{`): comma-separated
/// items, each literal text or a range; a lone item is allowed only
/// when it is a range.
#[verifier::loop_isolation(false)]
pub fn parse_command_shorthand_syntax(s: &Vec<char>, pos: usize) -> (r: Result<
    (Vec<CommandShItem>, usize),
    usize,
>)
    requires
        pos < s@.len(),
        s@.len() < usize::MAX,
    ensures
        r matches Ok((items, np)) ==> pos < np <= s@.len() && items@.len() >= 1 && (forall|j: int|
            0 <= j < items@.len() ==> (#[trigger] items@[j] matches CommandShItem::Range(b) ==> (
            b.lower.key@.len() == 1 && b.upper.key@.len() == 1))),
        r matches Err(off) ==> pos <= off <= s@.len(),
        match r {
            Ok((items, np)) => spec_parse_csh_syntax(s@, pos as int) == Ok::<_, int>(
                (csh_items_view(items@), np as int),
            ),
            Err(off) => spec_parse_csh_syntax(s@, pos as int) == Err::<
                (Seq<CommandShItemView>, int),
                _,
            >(off as int),
        },
{
    if s[pos] != '{' {
        return Err(pos);
    }
    let mut items: Vec<CommandShItem> = Vec::new();
    let mut worst: usize = pos;
    let mut p = pos + 1;
    proof {
        assert(csh_items_view(items@) =~= Seq::<CommandShItemView>::empty());
    }
    loop
        invariant
            pos < p <= s@.len(),
            pos <= worst <= s@.len(),
            forall|j: int|
                0 <= j < items@.len() ==> (#[trigger] items@[j] matches CommandShItem::Range(b)
                    ==> (b.lower.key@.len() == 1 && b.upper.key@.len() == 1)),
            spec_parse_csh_syntax(s@, pos as int) == spec_csh_loop(
                s@,
                p as int,
                worst as int,
                csh_items_view(items@),
            ),
        decreases s@.len() - p,
    {
        let ghost items0 = csh_items_view(items@);
        let ghost w0 = worst as int;
        let ghost p0 = p as int;
        let q = skip_ws(s, p);
        let cs = q;
        let mut after: usize;
        match try_cmd_range(s, cs) {
            Ok((b, np)) => {
                items.push(CommandShItem::Range(b));
                proof {
                    assert(spec_csh_component(s@, cs as int, w0) == Ok::<_, int>(
                        (csh_item_view(items@.last()), np as int, worst as int),
                    ));
                }
                after = np;
            },
            Err(off) => {
                worst = max_off(worst, off);
                let rend = scan_shorthand_cmd_run(s, cs);
                if rend == cs {
                    proof {
                        assert(spec_csh_component(s@, cs as int, w0) == Err::<
                            (CommandShItemView, int, int),
                            _,
                        >(worst as int));
                        assert(spec_csh_loop(s@, p0, w0, items0) == Err::<
                            (Seq<CommandShItemView>, int),
                            _,
                        >(worst as int));
                    }
                    return Err(worst);
                }
                let raw = crate::text::copy_range(s, cs, rend);
                items.push(CommandShItem::Text(string_of_chars(&raw)));
                proof {
                    assert(spec_csh_component(s@, cs as int, w0) == Ok::<_, int>(
                        (csh_item_view(items@.last()), rend as int, worst as int),
                    ));
                }
                after = rend;
            },
        }
        proof {
            assert(csh_items_view(items@) =~= items0.push(csh_item_view(items@.last())));
        }
        let q3 = skip_ws(s, after);
        proof {
            assert(q3 + 1 > p0);
        }
        if q3 < s.len() && s[q3] == ',' {
            proof {
                assert(spec_csh_loop(s@, p0, w0, items0) == spec_csh_loop(
                    s@,
                    q3 + 1,
                    worst as int,
                    csh_items_view(items@),
                ));
            }
            p = q3 + 1;
        } else if q3 < s.len() && s[q3] == '}' {
            if items.len() >= 2 {
                proof {
                    assert(spec_csh_loop(s@, p0, w0, items0) == Ok::<_, int>(
                        (csh_items_view(items@), q3 + 1),
                    ));
                }
                return Ok((items, q3 + 1));
            }
            if items.len() == 1 {
                let lone_range = match &items[0] {
                    CommandShItem::Range(_) => true,
                    CommandShItem::Text(_) => false,
                };
                if lone_range {
                    proof {
                        assert(csh_items_view(items@)[0] is CRangeV);
                        assert(spec_csh_loop(s@, p0, w0, items0) == Ok::<_, int>(
                            (csh_items_view(items@), q3 + 1),
                        ));
                    }
                    return Ok((items, q3 + 1));
                }
                proof {
                    assert(!(csh_items_view(items@)[0] is CRangeV));
                    assert(spec_csh_loop(s@, p0, w0, items0) == Err::<
                        (Seq<CommandShItemView>, int),
                        _,
                    >(worst as int));
                }
            }
            return Err(worst);
        } else {
            proof {
                assert(spec_csh_loop(s@, p0, w0, items0) == Err::<
                    (Seq<CommandShItemView>, int),
                    _,
                >(worst as int));
            }
            return Err(worst);
        }
    }
}

/// Whether a command-shorthand item can expand: text always can, a
/// range when its bounds are ASCII and ordered.
pub open spec fn csh_item_ok(it: &CommandShItem) -> bool {
    match it {
        CommandShItem::Text(_) => true,
        CommandShItem::Range(b) => b.lower.key@[0] as u32 <= 127 && b.upper.key@[0] as u32 <= 127
            && b.lower.key@[0] as u32 <= b.upper.key@[0] as u32,
    }
}

/// What one command-shorthand item expands to.
pub open spec fn csh_item_variants(it: &CommandShItem) -> Seq<Seq<char>> {
    match it {
        CommandShItem::Text(t) => seq![spec_unescape(t@)],
        CommandShItem::Range(b) => crate::range::char_range(
            b.lower.key@[0],
            b.upper.key@[0],
        ).map_values(|c: char| seq![c]),
    }
}

/// What a whole command shorthand expands to, in order.
pub open spec fn csh_variants(items: Seq<CommandShItem>) -> Seq<Seq<char>>
    decreases items.len(),
{
    if items.len() == 0 {
        Seq::empty()
    } else {
        csh_variants(items.drop_last()) + csh_item_variants(&items.last())
    }
}

/// Whether a viewed command-shorthand item can expand.
pub open spec fn csh_ok_v(it: CommandShItemView) -> bool {
    match it {
        CommandShItemView::TextV(_) => true,
        CommandShItemView::CRangeV(b) => b.lower.key[0] as u32 <= 127 && b.upper.key[0] as u32
            <= 127 && b.lower.key[0] as u32 <= b.upper.key[0] as u32,
    }
}

/// What one viewed command-shorthand item expands to.
pub open spec fn csh_vars_v(it: CommandShItemView) -> Seq<Seq<char>> {
    match it {
        CommandShItemView::TextV(t) => seq![spec_unescape(t)],
        CommandShItemView::CRangeV(b) => crate::range::char_range(
            b.lower.key[0],
            b.upper.key[0],
        ).map_values(|c: char| seq![c]),
    }
}

/// What a whole command shorthand expands to: the variants of its
/// items in order, or the spanned error of the first bad range.
pub open spec fn spec_csh_expand(items: Seq<CommandShItemView>) -> Result<Seq<Seq<char>>, ErrView>
    decreases items.len(),
{
    if items.len() == 0 {
        Ok(Seq::empty())
    } else {
        match spec_csh_expand(items.drop_last()) {
            Err(e) => Err(e),
            Ok(vs) => {
                if csh_ok_v(items.last()) {
                    Ok(vs + csh_vars_v(items.last()))
                } else {
                    match items.last() {
                        CommandShItemView::CRangeV(b) => Err(
                            ErrView::AtSpan { start: b.start, end: b.end },
                        ),
                        CommandShItemView::TextV(t) => Ok(vs + csh_vars_v(items.last())),
                    }
                }
            },
        }
    }
}

/// When every item is expandable, expansion succeeds with the item
/// variants in order.
proof fn lemma_csh_expand_ok(items: Seq<CommandShItem>)
    requires
        forall|j: int| 0 <= j < items.len() ==> csh_item_ok(&items[j]),
    ensures
        spec_csh_expand(csh_items_view(items)) == Ok::<_, ErrView>(csh_variants(items)),
    decreases items.len(),
{
    if items.len() > 0 {
        lemma_csh_expand_ok(items.drop_last());
        assert(csh_items_view(items).drop_last() =~= csh_items_view(items.drop_last()));
        assert(csh_items_view(items).last() == csh_item_view(items.last()));
        assert(csh_ok_v(csh_item_view(items.last())));
        assert(csh_vars_v(csh_item_view(items.last())) == csh_item_variants(&items.last()));
    }
}

/// When the items before `i` are expandable and item `i` is a bad
/// range, expansion fails with that range's span.
proof fn lemma_csh_expand_err(items: Seq<CommandShItem>, i: int)
    requires
        0 <= i < items.len(),
        forall|j: int| 0 <= j < i ==> csh_item_ok(&items[j]),
        !csh_item_ok(&items[i]),
        items[i] matches CommandShItem::Range(b),
    ensures
        items[i] matches CommandShItem::Range(b) && spec_csh_expand(csh_items_view(items))
            == Err::<Seq<Seq<char>>, _>(
            ErrView::AtSpan { start: bounds_view(b).start, end: bounds_view(b).end },
        ),
    decreases items.len(),
{
    assert(csh_items_view(items).drop_last() =~= csh_items_view(items.drop_last()));
    assert(csh_items_view(items).last() == csh_item_view(items.last()));
    if i < items.len() - 1 {
        assert forall|j: int| 0 <= j < i implies csh_item_ok(&items.drop_last()[j]) by {
            assert(items.drop_last()[j] == items[j]);
        }
        assert(items.drop_last()[i] == items[i]);
        lemma_csh_expand_err(items.drop_last(), i);
    } else {
        lemma_csh_expand_ok(items.drop_last());
        assert(!csh_ok_v(csh_item_view(items.last())));
    }
}

/// Expand the items of one command shorthand into its variant list:
/// text is unescaped, each range yields one single-character variant
/// per code point. A malformed range is the spanned grammar error.
#[verifier::loop_isolation(false)]
pub fn parse_command_shorthand(items: Vec<CommandShItem>) -> (r: Result<Vec<String>, ParseError>)
    requires
        forall|j: int|
            0 <= j < items@.len() ==> (#[trigger] items@[j] matches CommandShItem::Range(b) ==> (
            b.lower.key@.len() == 1 && b.upper.key@.len() == 1)),
    ensures
        r is Ok <==> (forall|j: int| 0 <= j < items@.len() ==> csh_item_ok(&items@[j])),
        r matches Ok(v) ==> crate::product::strs_view(v) == csh_variants(items@),
        r matches Err(e) ==> e matches ParseError::Grammar(g),
        match r {
            Ok(v) => spec_csh_expand(csh_items_view(items@)) == Ok::<_, ErrView>(
                crate::product::strs_view(v),
            ),
            Err(e) => spec_csh_expand(csh_items_view(items@)) matches Err(ev) && err_matches(
                e,
                ev,
            ),
        },
{
    let mut out: Vec<String> = Vec::new();
    let mut i: usize = 0;
    proof {
        assert(items@.take(0) =~= Seq::<CommandShItem>::empty());
        assert(crate::product::strs_view(out) =~= csh_variants(items@.take(0)));
    }
    while i < items.len()
        invariant
            i <= items@.len(),
            crate::product::strs_view(out) == csh_variants(items@.take(i as int)),
            forall|j: int| 0 <= j < i ==> csh_item_ok(&items@[j]),
        decreases items@.len() - i,
    {
        let ghost pre = crate::product::strs_view(out);
        proof {
            assert(items@.take(i + 1).drop_last() =~= items@.take(i as int));
            assert(items@.take(i + 1).last() == items@[i as int]);
        }
        match &items[i] {
            CommandShItem::Text(t) => {
                out.push(crate::text::unescape(t.as_str()));
                proof {
                    assert(crate::product::strs_view(out) =~= pre + csh_item_variants(
                        &items@[i as int],
                    ));
                }
            },
            CommandShItem::Range(b) => {
                let (lo, hi) = match b.expand_commands() {
                    Ok(x) => x,
                    Err(e) => {
                        proof {
                            assert(!csh_item_ok(&items@[i as int]));
                            lemma_csh_expand_err(items@, i as int);
                        }
                        return Err(e);
                    },
                };
                let chars = crate::range::expand_range(lo, hi);
                let ghost block = csh_item_variants(&items@[i as int]);
                let mut k: usize = 0;
                while k < chars.len()
                    invariant
                        k <= chars@.len(),
                        crate::product::strs_view(out) == pre + block.take(k as int),
                    decreases chars@.len() - k,
                {
                    let mut cv: Vec<char> = Vec::new();
                    cv.push(chars[k]);
                    let ghost out_before = crate::product::strs_view(out);
                    let one = string_of_chars(&cv);
                    out.push(one);
                    proof {
                        assert(cv@ =~= seq![chars@[k as int]]);
                        assert(block[k as int] == seq![chars@[k as int]]);
                        assert(block.take(k + 1) =~= block.take(k as int).push(block[k as int]));
                        assert(crate::product::strs_view(out) =~= out_before.push(one@));
                        assert(out_before.push(one@) =~= pre + block.take(k + 1));
                        assert(crate::product::strs_view(out) == pre + block.take(k + 1));
                    }
                    k = k + 1;
                }
                proof {
                    assert(block.take(chars@.len() as int) =~= block);
                }
            },
        }
        i = i + 1;
    }
    proof {
        assert(items@.take(items@.len() as int) =~= items@);
        lemma_csh_expand_ok(items@);
    }
    Ok(out)
}

/// The alternatives of a plain modifier shorthand from `p` (just
/// after `{`) on: modifier names separated by commas, closed by `}`,
/// two or more of them.
pub open spec fn spec_mod_plain_loop(s: Seq<char>, p: int, worst: int, acc: Seq<Modifier>) -> Result<
    (Seq<Modifier>, int),
    int,
>
    decreases s.len() - p,
{
    if p < 0 || p > s.len() {
        Err(worst)
    } else {
        let q = spec_skip_ws(s, p);
        match spec_parse_modifier(s, q) {
            None => Err(spec_max(worst, q)),
            Some((m, after)) => {
                let q3 = spec_skip_ws(s, after);
                let acc2 = acc.push(m);
                if q3 < s.len() && s[q3] == ',' {
                    if q3 + 1 > p {
                        spec_mod_plain_loop(s, q3 + 1, worst, acc2)
                    } else {
                        Err(worst)
                    }
                } else if q3 < s.len() && s[q3] == '}' {
                    if acc2.len() >= 2 {
                        Ok((acc2, q3 + 1))
                    } else {
                        Err(worst)
                    }
                } else {
                    Err(worst)
                }
            },
        }
    }
}

/// The plain modifier shorthand standing at `p`.
pub open spec fn spec_parse_mod_plain(s: Seq<char>, p: int) -> Result<(Seq<Modifier>, int), int> {
    if p < 0 || p >= s.len() || s[p] != '{' {
        Err(p)
    } else {
        spec_mod_plain_loop(s, p + 1, p, Seq::empty())
    }
}

/// Read a plain modifier shorthand at `pos` (which holds `{`): two or
/// more comma-separated modifier names. The outer `+` is the caller's
/// to demand.
#[verifier::loop_isolation(false)]
fn parse_mod_shorthand_plain(s: &Vec<char>, pos: usize) -> (r: Result<(Vec<Modifier>, usize), usize>)
    requires
        pos < s@.len(),
        s@.len() < usize::MAX,
    ensures
        r matches Ok((g, np)) ==> pos < np <= s@.len() && g@.len() >= 2,
        r matches Err(off) ==> pos <= off <= s@.len(),
        match r {
            Ok((g, np)) => spec_parse_mod_plain(s@, pos as int) == Ok::<_, int>((g@, np as int)),
            Err(off) => spec_parse_mod_plain(s@, pos as int) == Err::<(Seq<Modifier>, int), _>(
                off as int,
            ),
        },
{
    if s[pos] != '{' {
        return Err(pos);
    }
    let mut alts: Vec<Modifier> = Vec::new();
    let mut worst: usize = pos;
    let mut p = pos + 1;
    loop
        invariant
            pos < p <= s@.len(),
            pos <= worst <= s@.len(),
            spec_parse_mod_plain(s@, pos as int) == spec_mod_plain_loop(
                s@,
                p as int,
                worst as int,
                alts@,
            ),
        decreases s@.len() - p,
    {
        let ghost alts0 = alts@;
        let ghost w0 = worst as int;
        let ghost p0 = p as int;
        let q = skip_ws(s, p);
        let after: usize;
        match parse_modifier(s, q) {
            Some((m, np)) => {
                alts.push(m);
                after = np;
            },
            None => {
                return Err(max_off(worst, q));
            },
        }
        let q3 = skip_ws(s, after);
        proof {
            assert(q3 + 1 > p0);
            assert(alts@ =~= alts0.push(alts@.last()));
        }
        if q3 < s.len() && s[q3] == ',' {
            p = q3 + 1;
        } else if q3 < s.len() && s[q3] == '}' {
            if alts.len() >= 2 {
                return Ok((alts, q3 + 1));
            }
            return Err(worst);
        } else {
            return Err(worst);
        }
    }
}

/// One alternative of an omission-capable shorthand standing at `q`:
/// the omission sentinel `_`, or a modifier name with its trailing
/// `+`.
pub open spec fn spec_omit_alt(s: Seq<char>, q: int, worst: int) -> Result<(Modifier, int), int> {
    if q < s.len() && 0 <= q && s[q] == '_' {
        Ok((Modifier::Omission, q + 1))
    } else {
        match spec_parse_modifier(s, q) {
            Some((m, np)) => {
                let q2 = spec_skip_ws(s, np);
                if q2 < s.len() && s[q2] == '+' {
                    Ok((m, q2 + 1))
                } else {
                    Err(spec_max(worst, q))
                }
            },
            None => Err(spec_max(worst, q)),
        }
    }
}

/// The alternatives of an omission-capable shorthand from `p` (just
/// after `{`) on: two or more, separated by commas, closed by `}`.
pub open spec fn spec_mod_omit_loop(s: Seq<char>, p: int, worst: int, acc: Seq<Modifier>) -> Result<
    (Seq<Modifier>, int),
    int,
>
    decreases s.len() - p,
{
    if p < 0 || p > s.len() {
        Err(worst)
    } else {
        match spec_omit_alt(s, spec_skip_ws(s, p), worst) {
            Err(w) => Err(w),
            Ok((m, after)) => {
                let q3 = spec_skip_ws(s, after);
                let acc2 = acc.push(m);
                if q3 < s.len() && s[q3] == ',' {
                    if q3 + 1 > p {
                        spec_mod_omit_loop(s, q3 + 1, worst, acc2)
                    } else {
                        Err(worst)
                    }
                } else if q3 < s.len() && s[q3] == '}' {
                    if acc2.len() >= 2 {
                        Ok((acc2, q3 + 1))
                    } else {
                        Err(worst)
                    }
                } else {
                    Err(worst)
                }
            },
        }
    }
}

/// The omission-capable modifier shorthand standing at `p`.
pub open spec fn spec_parse_mod_omit(s: Seq<char>, p: int) -> Result<(Seq<Modifier>, int), int> {
    if p < 0 || p >= s.len() || s[p] != '{' {
        Err(p)
    } else {
        spec_mod_omit_loop(s, p + 1, p, Seq::empty())
    }
}

/// Read an omission-capable modifier shorthand at `pos` (which holds
/// `{`): two or more comma-separated alternatives, each the omission
/// sentinel `_` or a modifier name carrying its own trailing `+`. No
/// outer `+` follows this form.
#[verifier::loop_isolation(false)]
fn parse_mod_shorthand_omit(s: &Vec<char>, pos: usize) -> (r: Result<(Vec<Modifier>, usize), usize>)
    requires
        pos < s@.len(),
        s@.len() < usize::MAX,
    ensures
        r matches Ok((g, np)) ==> pos < np <= s@.len() && g@.len() >= 2,
        r matches Err(off) ==> pos <= off <= s@.len(),
        match r {
            Ok((g, np)) => spec_parse_mod_omit(s@, pos as int) == Ok::<_, int>((g@, np as int)),
            Err(off) => spec_parse_mod_omit(s@, pos as int) == Err::<(Seq<Modifier>, int), _>(
                off as int,
            ),
        },
{
    if s[pos] != '{' {
        return Err(pos);
    }
    let mut alts: Vec<Modifier> = Vec::new();
    let mut worst: usize = pos;
    let mut p = pos + 1;
    loop
        invariant
            pos < p <= s@.len(),
            pos <= worst <= s@.len(),
            spec_parse_mod_omit(s@, pos as int) == spec_mod_omit_loop(
                s@,
                p as int,
                worst as int,
                alts@,
            ),
        decreases s@.len() - p,
    {
        let ghost alts0 = alts@;
        let ghost w0 = worst as int;
        let ghost p0 = p as int;
        let q = skip_ws(s, p);
        let after: usize;
        if q < s.len() && s[q] == '_' {
            alts.push(Modifier::Omission);
            after = q + 1;
        } else {
            match parse_modifier(s, q) {
                Some((m, np)) => {
                    let q2 = skip_ws(s, np);
                    if q2 < s.len() && s[q2] == '+' {
                        alts.push(m);
                        after = q2 + 1;
                    } else {
                        return Err(max_off(worst, q));
                    }
                },
                None => {
                    return Err(max_off(worst, q));
                },
            }
        }
        proof {
            assert(spec_omit_alt(s@, q as int, w0) == Ok::<_, int>(
                (alts@.last(), after as int),
            ));
            assert(alts@ =~= alts0.push(alts@.last()));
        }
        let q3 = skip_ws(s, after);
        proof {
            assert(q3 + 1 > p0);
        }
        if q3 < s.len() && s[q3] == ',' {
            p = q3 + 1;
        } else if q3 < s.len() && s[q3] == '}' {
            if alts.len() >= 2 {
                return Ok((alts, q3 + 1));
            }
            return Err(worst);
        } else {
            return Err(worst);
        }
    }
}

/// The key a resolved key-name text stands for.
pub open spec fn spec_key_of(kr: KeyReprView) -> Result<crate::token::Key, ErrView> {
    match crate::keymap::spec_key_code(kr.key) {
        Some(c) => Ok(crate::token::Key { key: c, attribute: kr.attribute }),
        None => Err(ErrView::BadKey { name: kr.key }),
    }
}

/// Whether a range's bounds let it expand: equal timing attributes
/// (when asked), ASCII bound characters, in order.
pub open spec fn spec_expand_bounds(b: BoundsView, check_attr: bool) -> Result<
    (char, char),
    ErrView,
> {
    if check_attr && b.lower.attribute != b.upper.attribute {
        Err(ErrView::AtSpan { start: b.start, end: b.end })
    } else {
        let lo = b.lower.key[0];
        let hi = b.upper.key[0];
        if lo as u32 > 127 || hi as u32 > 127 || lo as u32 > hi as u32 {
            Err(ErrView::AtSpan { start: b.start, end: b.end })
        } else {
            Ok((lo, hi))
        }
    }
}

/// The keys of one code-point range, each with no timing attribute;
/// the first point naming no key is the error.
pub open spec fn spec_range_keys(lo: int, hi: int) -> Result<Seq<crate::token::Key>, ErrView>
    decreases hi - lo + 1,
{
    if lo > hi {
        Ok(Seq::empty())
    } else {
        match crate::keymap::spec_char_code(lo as char) {
            None => Err(ErrView::BadKey { name: seq![lo as char] }),
            Some(c) => match spec_range_keys(lo + 1, hi) {
                Err(e) => Err(e),
                Ok(rest) => Ok(
                    seq![
                        crate::token::Key {
                            key: c,
                            attribute: KeyAttribute { send: false, on_release: false },
                        },
                    ] + rest,
                ),
            },
        }
    }
}

/// The keys one shorthand item contributes.
pub open spec fn spec_item_keys(it: ShorthandItemView) -> Result<Seq<crate::token::Key>, ErrView> {
    match it {
        ShorthandItemView::SingleV(kr) => match spec_key_of(kr) {
            Ok(k) => Ok(seq![k]),
            Err(e) => Err(e),
        },
        ShorthandItemView::RangeV(b) => match spec_expand_bounds(b, true) {
            Err(e) => Err(e),
            Ok((lo, hi)) => spec_range_keys(lo as int, hi as int),
        },
    }
}

/// The keys a whole shorthand contributes, in order; the first item
/// that cannot resolve is the error.
pub open spec fn spec_items_keys(items: Seq<ShorthandItemView>) -> Result<
    Seq<crate::token::Key>,
    ErrView,
>
    decreases items.len(),
{
    if items.len() == 0 {
        Ok(Seq::empty())
    } else {
        match spec_item_keys(items[0]) {
            Err(e) => Err(e),
            Ok(ks) => match spec_items_keys(items.drop_first()) {
                Err(e) => Err(e),
                Ok(rest) => Ok(ks + rest),
            },
        }
    }
}

/// The modifier groups and key alternatives a component list gathers,
/// in order; the first component that cannot resolve is the error.
pub open spec fn spec_gather(comps: Seq<CompView>) -> Result<
    (Seq<Seq<Modifier>>, Seq<crate::token::Key>),
    ErrView,
>
    decreases comps.len(),
{
    if comps.len() == 0 {
        Ok((Seq::empty(), Seq::empty()))
    } else {
        match comps[0] {
            CompView::ModsV(g) => match spec_gather(comps.drop_first()) {
                Err(e) => Err(e),
                Ok((gs, ks)) => Ok((seq![g] + gs, ks)),
            },
            CompView::KeyVc(kr) => match spec_key_of(kr) {
                Err(e) => Err(e),
                Ok(k) => match spec_gather(comps.drop_first()) {
                    Err(e) => Err(e),
                    Ok((gs, ks)) => Ok((gs, seq![k] + ks)),
                },
            },
            CompView::ShV(items) => match spec_items_keys(items) {
                Err(e) => Err(e),
                Ok(more) => match spec_gather(comps.drop_first()) {
                    Err(e) => Err(e),
                    Ok((gs, ks)) => Ok((gs, more + ks)),
                },
            },
        }
    }
}

/// The definitions compiled from gathered groups and keys: the
/// cartesian product, earlier groups varying slowest and the key
/// fastest, each modifier choice de-duplicated and sorted; with no
/// groups, one definition per key.
pub open spec fn spec_defs_of(
    groups: Seq<Seq<Modifier>>,
    keys: Seq<crate::token::Key>,
) -> Seq<crate::definition::DefView> {
    if groups.len() == 0 {
        Seq::new(
            keys.len(),
            |i: int|
                crate::definition::DefView { modifiers: Seq::empty(), key: keys[i] },
        )
    } else {
        Seq::new(
            crate::product::multi_product(groups).len() * keys.len(),
            |i: int|
                crate::definition::DefView {
                    modifiers: crate::definition::sorted_dedup(
                        crate::product::multi_product(groups)[i / keys.len() as int],
                    ),
                    key: keys[i % keys.len() as int],
                },
        )
    }
}

/// What a whole definition expression compiles to.
pub open spec fn spec_compile(comps: Seq<CompView>) -> Result<
    Seq<crate::definition::DefView>,
    ErrView,
> {
    match spec_gather(comps) {
        Err(e) => Err(e),
        Ok((gs, ks)) => Ok(spec_defs_of(gs, ks)),
    }
}

/// Whether every shorthand component is well formed (each range bound
/// a single character), as `ingest` demands.
pub open spec fn components_wf(comps: Seq<crate::definition::DefinitionComponent>) -> bool {
    forall|i: int|
        0 <= i < comps.len() ==> (#[trigger] comps[i]
            matches crate::definition::DefinitionComponent::Shorthand(items) ==> (forall|j: int|
            0 <= j < items.len() ==> (#[trigger] items[j]
                matches crate::definition::ShorthandItem::Range(b) ==> (b.lower.key@.len() == 1
                && b.upper.key@.len() == 1))))
}

/// Ghost view of one definition component.
pub enum CompView {
    ModsV(Seq<Modifier>),
    KeyVc(KeyReprView),
    ShV(Seq<ShorthandItemView>),
}

/// The view of one definition component.
pub open spec fn comp_view(c: crate::definition::DefinitionComponent) -> CompView {
    match c {
        crate::definition::DefinitionComponent::Modifiers(g) => CompView::ModsV(g@),
        crate::definition::DefinitionComponent::Key(k) => CompView::KeyVc(key_repr_view(k)),
        crate::definition::DefinitionComponent::Shorthand(items) => CompView::ShV(
            sh_items_view(items@),
        ),
    }
}

/// The views of a component list.
pub open spec fn comps_view(v: Seq<crate::definition::DefinitionComponent>) -> Seq<CompView> {
    v.map_values(|c: crate::definition::DefinitionComponent| comp_view(c))
}

/// The key position of a definition expression: a key shorthand when a
/// brace stands at `p`, else a single key token.
pub open spec fn spec_def_key(s: Seq<char>, p: int, worst: int, acc: Seq<CompView>) -> Result<
    (Seq<CompView>, int),
    int,
> {
    if 0 <= p < s.len() && s[p] == '{' {
        match spec_parse_key_shorthand(s, p) {
            Ok((items, np)) => Ok((acc.push(CompView::ShV(items)), np)),
            Err(off) => Err(spec_max(worst, off)),
        }
    } else {
        match spec_parse_key(s, p) {
            Ok((kr, np)) => Ok((acc.push(CompView::KeyVc(kr)), np)),
            Err(off) => Err(spec_max(worst, off)),
        }
    }
}

/// The modifier groups of a definition expression from `p` on, then
/// its key position: a modifier closed by `+`, a plain shorthand
/// closed by `+`, or an omission-capable shorthand, repeated; whatever
/// ends the repetition is read as the key.
pub open spec fn spec_def_loop(s: Seq<char>, p: int, worst: int, acc: Seq<CompView>) -> Result<
    (Seq<CompView>, int),
    int,
>
    decreases s.len() - p,
{
    if p < 0 || p > s.len() {
        Err(worst)
    } else {
        match spec_parse_modifier(s, p) {
            Some((m, np)) => {
                let q2 = spec_skip_ws(s, np);
                if q2 < s.len() && s[q2] == '+' {
                    let pn = spec_skip_ws(s, q2 + 1);
                    if p < pn <= s.len() {
                        spec_def_loop(s, pn, worst, acc.push(CompView::ModsV(seq![m])))
                    } else {
                        Err(worst)
                    }
                } else {
                    spec_def_key(s, p, worst, acc)
                }
            },
            None => {
                let w2 = spec_max(worst, p);
                if 0 <= p < s.len() && s[p] == '{' {
                    match spec_parse_mod_plain(s, p) {
                        Ok((g, np)) => {
                            let q2 = spec_skip_ws(s, np);
                            if q2 < s.len() && s[q2] == '+' {
                                let pn = spec_skip_ws(s, q2 + 1);
                                if p < pn <= s.len() {
                                    spec_def_loop(s, pn, w2, acc.push(CompView::ModsV(g)))
                                } else {
                                    Err(w2)
                                }
                            } else {
                                match spec_parse_mod_omit(s, p) {
                                    Ok((g2, np2)) => {
                                        let pn = spec_skip_ws(s, np2);
                                        if p < pn <= s.len() {
                                            spec_def_loop(s, pn, w2, acc.push(CompView::ModsV(g2)))
                                        } else {
                                            Err(w2)
                                        }
                                    },
                                    Err(off2) => spec_def_key(s, p, spec_max(w2, off2), acc),
                                }
                            }
                        },
                        Err(off) => {
                            let w3 = spec_max(w2, off);
                            match spec_parse_mod_omit(s, p) {
                                Ok((g2, np2)) => {
                                    let pn = spec_skip_ws(s, np2);
                                    if p < pn <= s.len() {
                                        spec_def_loop(s, pn, w3, acc.push(CompView::ModsV(g2)))
                                    } else {
                                        Err(w3)
                                    }
                                },
                                Err(off2) => spec_def_key(s, p, spec_max(w3, off2), acc),
                            }
                        },
                    }
                } else {
                    spec_def_key(s, p, w2, acc)
                }
            },
        }
    }
}

/// The definition expression standing at `p`.
pub open spec fn spec_parse_definition(s: Seq<char>, p: int) -> Result<(Seq<CompView>, int), int> {
    spec_def_loop(s, p, p, Seq::empty())
}

/// Read a definition expression at `pos`: modifier groups, each
/// closed by `+` (or an omission-capable shorthand closed by its inner
/// `+`s), then one key token or key shorthand. On failure, the deepest
/// offset at which the grammar expected something.
#[verifier::loop_isolation(false)]
pub fn parse_definition(s: &Vec<char>, pos: usize) -> (r: Result<
    (Vec<crate::definition::DefinitionComponent>, usize),
    usize,
>)
    requires
        pos <= s@.len(),
        s@.len() < usize::MAX,
    ensures
        r matches Ok((comps, np)) ==> pos < np <= s@.len() && components_wf(comps@),
        r matches Err(off) ==> pos <= off <= s@.len(),
        match r {
            Ok((comps, np)) => spec_parse_definition(s@, pos as int) == Ok::<_, int>(
                (comps_view(comps@), np as int),
            ),
            Err(off) => spec_parse_definition(s@, pos as int) == Err::<(Seq<CompView>, int), _>(
                off as int,
            ),
        },
{
    let mut comps: Vec<crate::definition::DefinitionComponent> = Vec::new();
    let mut worst: usize = pos;
    let mut p = pos;
    proof {
        assert(comps_view(comps@) =~= Seq::<CompView>::empty());
    }
    loop
        invariant
            pos <= p <= s@.len(),
            pos <= worst <= s@.len(),
            components_wf(comps@),
            spec_parse_definition(s@, pos as int) == spec_def_loop(
                s@,
                p as int,
                worst as int,
                comps_view(comps@),
            ),
        decreases s@.len() - p,
    {
        let ghost comps0 = comps_view(comps@);
        let ghost w0 = worst as int;
        let ghost p0 = p as int;
        match parse_modifier(s, p) {
            Some((m, np)) => {
                let q2 = skip_ws(s, np);
                if q2 < s.len() && s[q2] == '+' {
                    let mut g: Vec<Modifier> = Vec::new();
                    g.push(m);
                    proof {
                        assert(g@ =~= seq![m]);
                    }
                    comps.push(crate::definition::DefinitionComponent::Modifiers(g));
                    proof {
                        assert(comps_view(comps@) =~= comps0.push(CompView::ModsV(seq![m])));
                    }
                    p = skip_ws(s, q2 + 1);
                    proof {
                        assert(spec_def_loop(s@, p0, w0, comps0) == spec_def_loop(
                            s@,
                            p as int,
                            w0,
                            comps_view(comps@),
                        ));
                    }
                    continue ;
                }
                proof {
                    assert(spec_def_loop(s@, p0, w0, comps0) == spec_def_key(s@, p0, w0, comps0));
                }
                return finish_definition_key(s, pos, p, worst, comps);
            },
            None => {
                worst = max_off(worst, p);
            },
        }
        let ghost w2 = worst as int;
        if p < s.len() && s[p] == '{' {
            match parse_mod_shorthand_plain(s, p) {
                Ok((g, np)) => {
                    let q2 = skip_ws(s, np);
                    if q2 < s.len() && s[q2] == '+' {
                        let ghost gv = g@;
                        comps.push(crate::definition::DefinitionComponent::Modifiers(g));
                        proof {
                            assert(comps_view(comps@) =~= comps0.push(CompView::ModsV(gv)));
                        }
                        p = skip_ws(s, q2 + 1);
                        proof {
                            assert(spec_def_loop(s@, p0, w0, comps0) == spec_def_loop(
                                s@,
                                p as int,
                                w2,
                                comps_view(comps@),
                            ));
                        }
                        continue ;
                    }
                    match parse_mod_shorthand_omit(s, p) {
                        Ok((g2, np2)) => {
                            let ghost gv2 = g2@;
                            comps.push(crate::definition::DefinitionComponent::Modifiers(g2));
                            proof {
                                assert(comps_view(comps@) =~= comps0.push(CompView::ModsV(gv2)));
                            }
                            p = skip_ws(s, np2);
                            proof {
                                assert(spec_def_loop(s@, p0, w0, comps0) == spec_def_loop(
                                    s@,
                                    p as int,
                                    w2,
                                    comps_view(comps@),
                                ));
                            }
                            continue ;
                        },
                        Err(off2) => {
                            worst = max_off(worst, off2);
                            proof {
                                assert(spec_def_loop(s@, p0, w0, comps0) == spec_def_key(
                                    s@,
                                    p0,
                                    worst as int,
                                    comps0,
                                ));
                            }
                            return finish_definition_key(s, pos, p, worst, comps);
                        },
                    }
                },
                Err(off) => {
                    worst = max_off(worst, off);
                    let ghost w3 = worst as int;
                    match parse_mod_shorthand_omit(s, p) {
                        Ok((g2, np2)) => {
                            let ghost gv2 = g2@;
                            comps.push(crate::definition::DefinitionComponent::Modifiers(g2));
                            proof {
                                assert(comps_view(comps@) =~= comps0.push(CompView::ModsV(gv2)));
                            }
                            p = skip_ws(s, np2);
                            proof {
                                assert(spec_def_loop(s@, p0, w0, comps0) == spec_def_loop(
                                    s@,
                                    p as int,
                                    w3,
                                    comps_view(comps@),
                                ));
                            }
                            continue ;
                        },
                        Err(off2) => {
                            worst = max_off(worst, off2);
                            proof {
                                assert(spec_def_loop(s@, p0, w0, comps0) == spec_def_key(
                                    s@,
                                    p0,
                                    worst as int,
                                    comps0,
                                ));
                            }
                            return finish_definition_key(s, pos, p, worst, comps);
                        },
                    }
                },
            }
        } else {
            proof {
                assert(spec_def_loop(s@, p0, w0, comps0) == spec_def_key(s@, p0, w2, comps0));
            }
            return finish_definition_key(s, pos, p, worst, comps);
        }
    }
}

/// Read the key position that ends a definition expression, closing
/// out the whole expression's result.
#[verifier::loop_isolation(false)]
fn finish_definition_key(
    s: &Vec<char>,
    pos: usize,
    p: usize,
    worst: usize,
    comps: Vec<crate::definition::DefinitionComponent>,
) -> (r: Result<(Vec<crate::definition::DefinitionComponent>, usize), usize>)
    requires
        pos <= p <= s@.len(),
        pos <= worst <= s@.len(),
        s@.len() < usize::MAX,
        components_wf(comps@),
        spec_parse_definition(s@, pos as int) == spec_def_key(
            s@,
            p as int,
            worst as int,
            comps_view(comps@),
        ),
    ensures
        r matches Ok((cs, np)) ==> pos < np <= s@.len() && components_wf(cs@),
        r matches Err(off) ==> pos <= off <= s@.len(),
        match r {
            Ok((cs, np)) => spec_parse_definition(s@, pos as int) == Ok::<_, int>(
                (comps_view(cs@), np as int),
            ),
            Err(off) => spec_parse_definition(s@, pos as int) == Err::<(Seq<CompView>, int), _>(
                off as int,
            ),
        },
{
    let ghost comps0 = comps_view(comps@);
    let mut comps = comps;
    if p < s.len() && s[p] == '{' {
        match parse_key_shorthand(s, p) {
            Ok((items, np)) => {
                let ghost iv = sh_items_view(items@);
                comps.push(crate::definition::DefinitionComponent::Shorthand(items));
                proof {
                    assert(comps_view(comps@) =~= comps0.push(CompView::ShV(iv)));
                }
                Ok((comps, np))
            },
            Err(off) => Err(max_off(worst, off)),
        }
    } else {
        match parse_key(s, p) {
            Ok((repr, np)) => {
                let ghost kv = key_repr_view(repr);
                comps.push(crate::definition::DefinitionComponent::Key(repr));
                proof {
                    assert(comps_view(comps@) =~= comps0.push(CompView::KeyVc(kv)));
                }
                Ok((comps, np))
            },
            Err(off) => Err(max_off(worst, off)),
        }
    }
}

/// What one command expression parses to: the variant lists of its
/// segments, the mode instructions met along the way, the offset just
/// past its last character, and the offset where the next line starts.
pub struct CommandParse {
    pub comm: Vec<Vec<String>>,
    pub enters: Vec<crate::bindings::ModeInstruction>,
    pub escapes: Vec<crate::bindings::ModeInstruction>,
    pub end: usize,
    pub next: usize,
}

/// Ghost view of one parsed command expression.
pub struct CommandView {
    pub comm: Seq<Seq<Seq<char>>>,
    pub enters: Seq<Seq<char>>,
    pub escapes: int,
    pub end: int,
    pub next: int,
}

/// The mode names carried by a list of enter instructions.
pub open spec fn enters_names(v: Seq<crate::bindings::ModeInstruction>) -> Seq<Seq<char>> {
    v.map_values(
        |mi: crate::bindings::ModeInstruction|
            match mi {
                crate::bindings::ModeInstruction::Enter(n) => n@,
                crate::bindings::ModeInstruction::Escape => Seq::<char>::empty(),
            },
    )
}

/// The view of one parsed command expression.
pub open spec fn command_view(cp: CommandParse) -> CommandView {
    CommandView {
        comm: crate::product::segs_view(cp.comm),
        enters: enters_names(cp.enters@),
        escapes: cp.escapes@.len() as int,
        end: cp.end as int,
        next: cp.next as int,
    }
}

/// One pass over a command expression from `p` on, with the text run,
/// segments, mode instructions and `&&` state gathered so far: mirrors
/// the scan character by character until the line (or text) ends.
pub open spec fn spec_cmd_loop(
    s: Seq<char>,
    p: int,
    text: Seq<char>,
    comm: Seq<Seq<Seq<char>>>,
    enters: Seq<Seq<char>>,
    escapes: int,
    last_amp: bool,
) -> Result<CommandView, ErrView>
    decreases s.len() - p,
{
    if p < 0 || p > s.len() {
        Err(pos_err(s, p))
    } else if p >= s.len() || s[p] == '\n' {
        let comm2 = if text.len() > 0 {
            comm.push(seq![text])
        } else {
            comm
        };
        let la2 = if text.len() > 0 {
            false
        } else {
            last_amp
        };
        let comm3 = if la2 && comm2.len() > 0 {
            comm2.drop_last()
        } else {
            comm2
        };
        Ok(
            CommandView {
                comm: comm3,
                enters,
                escapes,
                end: p,
                next: if p < s.len() {
                    p + 1
                } else {
                    p
                },
            },
        )
    } else {
        let c = s[p];
        if c == '\\' {
            if p + 1 < s.len() && s[p + 1] == '\n' {
                let pn = spec_skip_ws(s, p + 2);
                if p < pn <= s.len() {
                    spec_cmd_loop(s, pn, text, comm, enters, escapes, last_amp)
                } else {
                    Err(pos_err(s, p))
                }
            } else if p + 1 < s.len() {
                spec_cmd_loop(
                    s,
                    p + 2,
                    text.push('\\').push(s[p + 1]),
                    comm,
                    enters,
                    escapes,
                    last_amp,
                )
            } else {
                spec_cmd_loop(s, p + 1, text.push('\\'), comm, enters, escapes, last_amp)
            }
        } else if c == '&' && p + 1 < s.len() && s[p + 1] == '&' {
            if text.len() > 0 {
                spec_cmd_loop(
                    s,
                    p + 2,
                    Seq::empty(),
                    comm.push(seq![text]).push(seq!["&&"@]),
                    enters,
                    escapes,
                    true,
                )
            } else if !last_amp {
                spec_cmd_loop(s, p + 2, text, comm.push(seq!["&&"@]), enters, escapes, true)
            } else {
                spec_cmd_loop(s, p + 2, text, comm, enters, escapes, true)
            }
        } else if c == '{' {
            let comm2 = if text.len() > 0 {
                comm.push(seq![text])
            } else {
                comm
            };
            match spec_parse_csh_syntax(s, p) {
                Err(off) => Err(pos_err(s, off)),
                Ok((items, np)) => match spec_csh_expand(items) {
                    Err(ev) => Err(ev),
                    Ok(vars) => {
                        if p < np <= s.len() {
                            spec_cmd_loop(s, np, Seq::empty(), comm2.push(vars), enters, escapes, false)
                        } else {
                            Err(pos_err(s, p))
                        }
                    },
                },
            }
        } else if c == '@' {
            let me = spec_match_lit(s, p, "@enter"@);
            if me is Some && me->Some_0 < s.len() && is_ws(s[me->Some_0]) && spec_scan_modename(
                s,
                spec_skip_ws(s, me->Some_0),
            ) > spec_skip_ws(s, me->Some_0) {
                let qq = spec_skip_ws(s, me->Some_0);
                let ne = spec_scan_modename(s, qq);
                if p < ne <= s.len() {
                    spec_cmd_loop(
                        s,
                        ne,
                        text,
                        comm,
                        enters.push(s.subrange(qq, ne)),
                        escapes,
                        last_amp,
                    )
                } else {
                    Err(pos_err(s, p))
                }
            } else {
                let msc = spec_match_lit(s, p, "@escape"@);
                if msc is Some {
                    let q = msc->Some_0;
                    if p < q <= s.len() {
                        if enters.len() > 0 {
                            spec_cmd_loop(s, q, text, comm, enters.drop_last(), escapes, last_amp)
                        } else {
                            spec_cmd_loop(s, q, text, comm, enters, escapes + 1, last_amp)
                        }
                    } else {
                        Err(pos_err(s, p))
                    }
                } else {
                    spec_cmd_loop(s, p + 1, text.push('@'), comm, enters, escapes, last_amp)
                }
            }
        } else {
            spec_cmd_loop(s, p + 1, text.push(c), comm, enters, escapes, last_amp)
        }
    }
}

/// The command expression starting on the line at `p`: its leading
/// whitespace is skipped, and an immediate line end is the error
/// demanding a command.
pub open spec fn spec_parse_command(s: Seq<char>, pos: int) -> Result<CommandView, ErrView> {
    let p0 = spec_skip_ws(s, pos);
    if p0 >= s.len() || s[p0] == '\n' {
        Err(pos_err(s, p0))
    } else {
        spec_cmd_loop(s, p0, Seq::empty(), Seq::empty(), Seq::empty(), 0, false)
    }
}

/// Read one command expression starting on the line at `pos`:
/// leading whitespace is skipped; literal text, shorthands and `&&`
/// delimiters become segments; a trailing `\` joins the next line with
/// its leading whitespace dropped; `@enter name` and `@escape` become
/// mode instructions (an escape cancels the latest pending enter). Two
/// `&&` segments never sit side by side and none ends the command.
#[verifier::loop_isolation(false)]
pub fn parse_command(s: &Vec<char>, pos: usize) -> (r: Result<CommandParse, ParseError>)
    requires
        pos <= s@.len(),
        s@.len() < usize::MAX,
    ensures
        r matches Ok(cp) ==> pos <= cp.end <= cp.next <= s@.len(),
        match r {
            Ok(cp) => spec_parse_command(s@, pos as int) == Ok::<_, ErrView>(command_view(cp)) && (
            forall|i: int| 0 <= i < cp.enters@.len() ==> #[trigger] cp.enters@[i] is Enter) && (
            forall|i: int| 0 <= i < cp.escapes@.len() ==> #[trigger] cp.escapes@[i] is Escape),
            Err(e) => spec_parse_command(s@, pos as int) matches Err(ev) && err_matches(e, ev),
        },
{
    let p0 = skip_ws(s, pos);
    if p0 >= s.len() || s[p0] == '\n' {
        return Err(grammar_error_at(s, p0, String::from_str("expected a command")));
    }
    let mut comm: Vec<Vec<String>> = Vec::new();
    let mut enters: Vec<crate::bindings::ModeInstruction> = Vec::new();
    let mut escapes: Vec<crate::bindings::ModeInstruction> = Vec::new();
    let mut text: Vec<char> = Vec::new();
    let mut last_amp = false;
    let mut p = p0;
    proof {
        assert(crate::product::segs_view(comm) =~= Seq::<Seq<Seq<char>>>::empty());
        assert(enters_names(enters@) =~= Seq::<Seq<char>>::empty());
        assert(text@ =~= Seq::<char>::empty());
    }
    while p < s.len() && s[p] != '\n'
        invariant
            p0 <= p <= s@.len(),
            spec_parse_command(s@, pos as int) == spec_cmd_loop(
                s@,
                p as int,
                text@,
                crate::product::segs_view(comm),
                enters_names(enters@),
                escapes@.len() as int,
                last_amp,
            ),
            forall|i: int| 0 <= i < enters@.len() ==> #[trigger] enters@[i] is Enter,
            forall|i: int| 0 <= i < escapes@.len() ==> #[trigger] escapes@[i] is Escape,
        decreases s@.len() - p,
    {
        let ghost text0 = text@;
        let ghost comm0 = crate::product::segs_view(comm);
        let ghost enters0 = enters_names(enters@);
        let ghost esc0 = escapes@.len() as int;
        let ghost la0 = last_amp;
        let ghost p_at = p as int;
        let c = s[p];
        if c == '\\' {
            if p + 1 < s.len() && s[p + 1] == '\n' {
                p = skip_ws(s, p + 2);
                proof {
                    assert(spec_cmd_loop(s@, p_at, text0, comm0, enters0, esc0, la0)
                        == spec_cmd_loop(s@, p as int, text0, comm0, enters0, esc0, la0));
                }
            } else if p + 1 < s.len() {
                text.push('\\');
                text.push(s[p + 1]);
                proof {
                    assert(text@ =~= text0.push('\\').push(s@[p_at + 1]));
                    assert(spec_cmd_loop(s@, p_at, text0, comm0, enters0, esc0, la0)
                        == spec_cmd_loop(s@, p_at + 2, text@, comm0, enters0, esc0, la0));
                }
                p = p + 2;
            } else {
                text.push('\\');
                proof {
                    assert(text@ =~= text0.push('\\'));
                    assert(spec_cmd_loop(s@, p_at, text0, comm0, enters0, esc0, la0)
                        == spec_cmd_loop(s@, p_at + 1, text@, comm0, enters0, esc0, la0));
                }
                p = p + 1;
            }
        } else if c == '&' && p + 1 < s.len() && s[p + 1] == '&' {
            if text.len() > 0 {
                let mut seg: Vec<String> = Vec::new();
                seg.push(string_of_chars(&text));
                comm.push(seg);
                proof {
                    assert(crate::product::strs_view(comm@.last()) =~= seq![text0]);
                    assert(crate::product::segs_view(comm) =~= comm0.push(seq![text0]));
                }
                text = Vec::new();
                proof {
                    assert(text@ =~= Seq::<char>::empty());
                }
                last_amp = false;
            }
            if !last_amp {
                let ghost commf = crate::product::segs_view(comm);
                let mut seg: Vec<String> = Vec::new();
                seg.push(String::from_str("&&"));
                comm.push(seg);
                proof {
                    assert(crate::product::strs_view(comm@.last()) =~= seq!["&&"@]);
                    assert(crate::product::segs_view(comm) =~= commf.push(seq!["&&"@]));
                }
                last_amp = true;
            }
            p = p + 2;
            proof {
                assert(spec_cmd_loop(s@, p_at, text0, comm0, enters0, esc0, la0)
                    == spec_cmd_loop(
                    s@,
                    p as int,
                    text@,
                    crate::product::segs_view(comm),
                    enters0,
                    esc0,
                    last_amp,
                ));
            }
        } else if c == '{' {
            if text.len() > 0 {
                let mut seg: Vec<String> = Vec::new();
                seg.push(string_of_chars(&text));
                comm.push(seg);
                proof {
                    assert(crate::product::strs_view(comm@.last()) =~= seq![text0]);
                    assert(crate::product::segs_view(comm) =~= comm0.push(seq![text0]));
                }
                text = Vec::new();
                proof {
                    assert(text@ =~= Seq::<char>::empty());
                }
                last_amp = false;
            }
            match parse_command_shorthand_syntax(s, p) {
                Ok((items, np)) => {
                    let ghost commf = crate::product::segs_view(comm);
                    let ghost itemsv = csh_items_view(items@);
                    match parse_command_shorthand(items) {
                        Ok(vars) => {
                            let ghost varsv = crate::product::strs_view(vars);
                            comm.push(vars);
                            proof {
                                assert(crate::product::segs_view(comm) =~= commf.push(varsv));
                            }
                            last_amp = false;
                            p = np;
                            proof {
                                assert(spec_cmd_loop(s@, p_at, text0, comm0, enters0, esc0, la0)
                                    == spec_cmd_loop(
                                    s@,
                                    p as int,
                                    Seq::<char>::empty(),
                                    crate::product::segs_view(comm),
                                    enters0,
                                    esc0,
                                    false,
                                ));
                                assert(text@ =~= Seq::<char>::empty());
                            }
                        },
                        Err(e) => {
                            return Err(e);
                        },
                    }
                },
                Err(off) => {
                    return Err(
                        grammar_error_at(
                            s,
                            off,
                            String::from_str("expected a command shorthand item"),
                        ),
                    );
                },
            }
        } else if c == '@' {
            let mut handled = false;
            match match_lit(s, p, "@enter") {
                Some(q) => {
                    if q < s.len() && ws_char(s[q]) {
                        let qq = skip_ws(s, q);
                        let name_end = scan_modename(s, qq);
                        if name_end > qq {
                            let raw = crate::text::copy_range(s, qq, name_end);
                            enters.push(
                                crate::bindings::ModeInstruction::Enter(string_of_chars(&raw)),
                            );
                            proof {
                                assert(enters_names(enters@) =~= enters0.push(
                                    s@.subrange(qq as int, name_end as int),
                                ));
                            }
                            p = name_end;
                            handled = true;
                            proof {
                                assert(spec_cmd_loop(s@, p_at, text0, comm0, enters0, esc0, la0)
                                    == spec_cmd_loop(
                                    s@,
                                    p as int,
                                    text0,
                                    comm0,
                                    enters_names(enters@),
                                    esc0,
                                    la0,
                                ));
                            }
                        }
                    }
                },
                None => {
                },
            }
            if !handled {
                match match_lit(s, p, "@escape") {
                    Some(q) => {
                        if enters.pop().is_none() {
                            escapes.push(crate::bindings::ModeInstruction::Escape);
                            proof {
                                assert(enters_names(enters@) =~= enters0);
                                assert(enters0.len() == 0);
                            }
                        } else {
                            proof {
                                assert(enters_names(enters@) =~= enters0.drop_last());
                                assert(enters0.len() > 0);
                            }
                        }
                        p = q;
                        handled = true;
                        proof {
                            assert(spec_cmd_loop(s@, p_at, text0, comm0, enters0, esc0, la0)
                                == spec_cmd_loop(
                                s@,
                                p as int,
                                text0,
                                comm0,
                                enters_names(enters@),
                                escapes@.len() as int,
                                la0,
                            ));
                        }
                    },
                    None => {
                    },
                }
            }
            if !handled {
                text.push('@');
                proof {
                    assert(text@ =~= text0.push('@'));
                    assert(spec_cmd_loop(s@, p_at, text0, comm0, enters0, esc0, la0)
                        == spec_cmd_loop(s@, p_at + 1, text@, comm0, enters0, esc0, la0));
                }
                p = p + 1;
            }
        } else {
            text.push(c);
            proof {
                assert(text@ =~= text0.push(c));
                assert(spec_cmd_loop(s@, p_at, text0, comm0, enters0, esc0, la0)
                    == spec_cmd_loop(s@, p_at + 1, text@, comm0, enters0, esc0, la0));
            }
            p = p + 1;
        }
    }
    let ghost textf = text@;
    let ghost commf = crate::product::segs_view(comm);
    if text.len() > 0 {
        let mut seg: Vec<String> = Vec::new();
        seg.push(string_of_chars(&text));
        comm.push(seg);
        proof {
            assert(crate::product::strs_view(comm@.last()) =~= seq![textf]);
            assert(crate::product::segs_view(comm) =~= commf.push(seq![textf]));
        }
        last_amp = false;
    }
    if last_amp && comm.len() > 0 {
        let ghost commg = crate::product::segs_view(comm);
        let _ = comm.pop();
        proof {
            assert(crate::product::segs_view(comm) =~= commg.drop_last());
        }
    }
    let next = if p < s.len() {
        p + 1
    } else {
        p
    };
    Ok(CommandParse { comm, enters, escapes, end: p, next })
}

/// A character a mode name may hold.
pub open spec fn is_modename_char(c: char) -> bool {
    is_alnum(c) || c == '_' || c == '-'
}

/// Where the mode name starting at `p` ends.
pub open spec fn spec_scan_modename(s: Seq<char>, p: int) -> int
    decreases s.len() - p,
{
    if p < 0 || p >= s.len() {
        p
    } else if is_modename_char(s[p]) {
        spec_scan_modename(s, p + 1)
    } else {
        p
    }
}

/// The mode name ends within the text.
pub proof fn lemma_scan_modename_bounds(s: Seq<char>, p: int)
    requires
        0 <= p <= s.len(),
    ensures
        p <= spec_scan_modename(s, p) <= s.len(),
    decreases s.len() - p,
{
    if p < s.len() && is_modename_char(s[p]) {
        lemma_scan_modename_bounds(s, p + 1);
    }
}

/// The end of a mode name: letters, digits, `_` and `-`.
fn scan_modename(s: &Vec<char>, pos: usize) -> (np: usize)
    requires
        pos <= s@.len(),
    ensures
        pos <= np <= s@.len(),
        np as int == spec_scan_modename(s@, pos as int),
{
    let mut p = pos;
    while p < s.len() && (alnum_char(s[p]) || s[p] == '_' || s[p] == '-')
        invariant
            pos <= p <= s@.len(),
            spec_scan_modename(s@, pos as int) == spec_scan_modename(s@, p as int),
        decreases s@.len() - p,
    {
        p = p + 1;
    }
    p
}

/// No omission sentinel among these modifiers.
pub open spec fn no_omission(ms: Seq<Modifier>) -> bool {
    forall|k: int| 0 <= k < ms.len() ==> ms[k] != Modifier::Omission
}

/// No binding carries the omission sentinel.
pub open spec fn omission_free(bs: Seq<crate::bindings::Binding>) -> bool {
    forall|i: int| 0 <= i < bs.len() ==> no_omission((#[trigger] bs[i]).definition.modifiers@)
}

/// Feed the parsed components of one definition expression through
/// resolution and take the cartesian product.
#[verifier::loop_isolation(false)]
fn compile_components(comps: Vec<crate::definition::DefinitionComponent>) -> (r: Result<
    Vec<crate::definition::Definition>,
    ParseError,
>)
    requires
        components_wf(comps@),
    ensures
        match r {
            Ok(defs) => spec_compile(comps_view(comps@)) == Ok::<_, ErrView>(
                crate::definition::defs_view(defs@),
            ),
            Err(e) => spec_compile(comps_view(comps@)) matches Err(ev) && err_matches(e, ev),
        },
{
    let ghost all = comps_view(comps@);
    let mut unc = crate::definition::DefinitionUncompiled::default();
    let mut comps = comps;
    let ghost mut gacc: Seq<Seq<Modifier>> = Seq::empty();
    let ghost mut kacc: Seq<crate::token::Key> = Seq::empty();
    proof {
        assert(crate::product::mods_view(unc.modifiers) =~= gacc);
        assert(unc.keys@ =~= kacc);
    }
    while comps.len() > 0
        invariant
            components_wf(comps@),
            crate::product::mods_view(unc.modifiers) == gacc,
            unc.keys@ == kacc,
            spec_gather(all) == (match spec_gather(comps_view(comps@)) {
                Ok((gs, ks)) => Ok::<_, ErrView>((gacc + gs, kacc + ks)),
                Err(e) => Err(e),
            }),
        decreases comps@.len(),
    {
        let ghost before = comps@;
        let ghost rem = comps_view(comps@);
        let c = comps.remove(0);
        proof {
            assert(c == before[0]);
            assert(rem[0] == comp_view(c));
            assert(comps_view(comps@) =~= rem.drop_first());
            assert forall|i: int| 0 <= i < comps@.len() implies (#[trigger] comps@[i]
                matches crate::definition::DefinitionComponent::Shorthand(items) ==> (forall|
                j: int,
            |
                0 <= j < items.len() ==> (#[trigger] items[j]
                    matches crate::definition::ShorthandItem::Range(b) ==> (b.lower.key@.len() == 1
                    && b.upper.key@.len() == 1)))) by {
                assert(comps@[i] == before[i + 1]);
            }
        }
        let ghost gacc0 = gacc;
        let ghost kacc0 = kacc;
        let ghost cv = comp_view(c);
        match unc.ingest(c) {
            Ok(()) => {
                proof {
                    match cv {
                        CompView::ModsV(g) => {
                            gacc = gacc.push(g);
                            assert(crate::product::mods_view(unc.modifiers) =~= gacc);
                            if spec_gather(rem.drop_first()) is Ok {
                                let (gs, ks) = spec_gather(rem.drop_first())->Ok_0;
                                assert(gacc0 + (seq![g] + gs) =~= gacc + gs);
                            }
                        },
                        CompView::KeyVc(kr) => {
                            let k = spec_key_of(kr)->Ok_0;
                            kacc = kacc.push(k);
                            assert(unc.keys@ =~= kacc);
                            if spec_gather(rem.drop_first()) is Ok {
                                let (gs, ks) = spec_gather(rem.drop_first())->Ok_0;
                                assert(kacc0 + (seq![k] + ks) =~= kacc + ks);
                            }
                        },
                        CompView::ShV(items) => {
                            let pl = spec_items_keys(items)->Ok_0;
                            kacc = kacc + pl;
                            assert(unc.keys@ =~= kacc);
                            if spec_gather(rem.drop_first()) is Ok {
                                let (gs, ks) = spec_gather(rem.drop_first())->Ok_0;
                                assert(kacc0 + (pl + ks) =~= kacc + ks);
                            }
                        },
                    }
                }
            },
            Err(e) => {
                proof {
                    assert(spec_gather(all) matches Err(ev) && err_matches(e, ev));
                }
                return Err(e);
            },
        }
    }
    proof {
        assert(comps_view(comps@).len() == 0);
        assert(spec_gather(comps_view(comps@)) == Ok::<_, ErrView>(
            (Seq::<Seq<Modifier>>::empty(), Seq::<crate::token::Key>::empty()),
        ));
        assert(gacc + Seq::<Seq<Modifier>>::empty() =~= gacc);
        assert(kacc + Seq::<crate::token::Key>::empty() =~= kacc);
        assert(spec_gather(all) == Ok::<_, ErrView>((gacc, kacc)));
    }
    let defs = unc.compile();
    proof {
        let dv = crate::definition::defs_view(defs@);
        let sv = spec_defs_of(gacc, kacc);
        if gacc.len() == 0 {
            assert(dv =~= sv);
        } else {
            let prod = crate::product::multi_product(gacc);
            let plen = prod.len() as int;
            let klen = kacc.len() as int;
            if klen == 0 {
                assert(dv =~= sv);
            } else {
                assert forall|i: int| 0 <= i < dv.len() implies dv[i] == sv[i] by {
                    let a = i / klen;
                    let b = i % klen;
                    vstd::arithmetic::div_mod::lemma_fundamental_div_mod(i, klen);
                    vstd::arithmetic::div_mod::lemma_mod_division_less_than_divisor(i, klen);
                    vstd::arithmetic::div_mod::lemma_div_pos_is_pos(i, klen);
                    assert(a < plen) by (nonlinear_arith)
                        requires
                            klen * a + b == i && 0 <= b && i < plen * klen && klen > 0 && 0 <= a,
                    ;
                    assert(a * klen + b == i) by (nonlinear_arith)
                        requires
                            klen * a + b == i,
                    ;
                    assert(defs@[a * klen + b].modifiers@ == crate::definition::sorted_dedup(
                        prod[a],
                    ));
                }
                assert(dv =~= sv);
            }
        }
    }
    Ok(defs)
}

/// The mode instructions a binding carries: its enters in order, then
/// its unmatched escapes.
pub open spec fn spec_instrs(enters: Seq<Seq<char>>, escapes: int) -> Seq<
    crate::bindings::InstructionView,
> {
    enters.map_values(|n: Seq<char>| crate::bindings::InstructionView::Enter(n)) + Seq::new(
        escapes as nat,
        |i: int| crate::bindings::InstructionView::Escape,
    )
}

/// The bindings of one binding declaration standing at `pos`: its
/// definition expression compiled, its command expression enumerated,
/// the two zipped by index under the parity rule (the spanned error
/// otherwise), the omission sentinel stripped.
pub open spec fn spec_binding_parser(s: Seq<char>, pos: int) -> Result<
    (Seq<crate::bindings::BindingView>, int),
    ErrView,
> {
    match spec_parse_definition(s, pos) {
        Err(off) => Err(pos_err(s, off)),
        Ok((comps, p1)) => {
            let p2 = spec_skip_ws(s, p1);
            let p3 = if p2 < s.len() && s[p2] == '#' {
                spec_skip_to_eol(s, p2)
            } else {
                p2
            };
            if !(p3 < s.len() && s[p3] == '\n') {
                Err(pos_err(s, p3))
            } else {
                match spec_parse_command(s, p3 + 1) {
                    Err(ev) => Err(ev),
                    Ok(cv) => match spec_compile(comps) {
                        Err(ev) => Err(ev),
                        Ok(defs) => {
                            let cmds = crate::product::command_variants(cv.comm);
                            if defs.len() != cmds.len() {
                                Err(
                                    ErrView::AtSpan {
                                        start: (spec_line(s, pos), spec_col(s, pos)),
                                        end: (spec_line(s, cv.end), spec_col(s, cv.end)),
                                    },
                                )
                            } else {
                                Ok(
                                    (
                                        Seq::new(
                                            defs.len(),
                                            |i: int|
                                                crate::bindings::BindingView {
                                                    modifiers: crate::bindings::without_omission(
                                                        defs[i].modifiers,
                                                    ),
                                                    key: defs[i].key,
                                                    command: cmds[i],
                                                    instructions: spec_instrs(cv.enters, cv.escapes),
                                                },
                                        ),
                                        cv.next,
                                    ),
                                )
                            }
                        },
                    },
                }
            }
        },
    }
}

/// Read one binding declaration at `pos`: a definition expression, an
/// optional trailing comment, a line feed, and the command expression
/// on the following line. The shorthand products are compiled, the
/// parity rule enforced, and the omission sentinel stripped from every
/// produced binding.
pub fn binding_parser(s: &Vec<char>, pos: usize) -> (r: Result<
    (Vec<crate::bindings::Binding>, usize),
    ParseError,
>)
    requires
        pos <= s@.len(),
        s@.len() < usize::MAX,
    ensures
        r matches Ok((v, np)) ==> pos < np <= s@.len() && omission_free(v@),
        match r {
            Ok((v, np)) => spec_binding_parser(s@, pos as int) == Ok::<_, ErrView>(
                (crate::bindings::bindings_view(v@), np as int),
            ),
            Err(e) => spec_binding_parser(s@, pos as int) matches Err(ev) && err_matches(e, ev),
        },
{
    let (comps, p1) = match parse_definition(s, pos) {
        Ok(x) => x,
        Err(off) => {
            return Err(
                grammar_error_at(s, off, String::from_str("expected a modifier or a key")),
            );
        },
    };
    let mut p = skip_ws(s, p1);
    if p < s.len() && s[p] == '#' {
        p = skip_to_eol(s, p);
    }
    if !(p < s.len() && s[p] == '\n') {
        return Err(
            grammar_error_at(
                s,
                p,
                String::from_str("expected a newline followed by an indented command"),
            ),
        );
    }
    let cp = match parse_command(s, p + 1) {
        Ok(x) => x,
        Err(e) => {
            return Err(e);
        },
    };
    let start_lc = line_col(s, pos);
    let end_lc = line_col(s, cp.end);
    let defs = match compile_components(comps) {
        Ok(d) => d,
        Err(e) => {
            return Err(e);
        },
    };
    let cmds = crate::product::product_commands(&cp.comm);
    let ghost dv = crate::definition::defs_view(defs@);
    let ghost cmdv = crate::product::strs_view(cmds);
    let ghost cv = command_view(cp);
    let mut instructions = cp.enters;
    let mut escapes = cp.escapes;
    let ghost en0 = instructions@;
    let ghost es0 = escapes@;
    instructions.append(&mut escapes);
    proof {
        assert(crate::bindings::instructions_view(instructions@) =~= spec_instrs(
            cv.enters,
            cv.escapes,
        ));
    }
    match crate::bindings::assemble_bindings(defs, cmds, instructions, start_lc, end_lc) {
        Ok(v) => {
            proof {
                assert forall|i: int| 0 <= i < v@.len() implies no_omission(
                    (#[trigger] v@[i]).definition.modifiers@,
                ) by {
                    crate::bindings::lemma_without_omission_free(defs@[i].modifiers@);
                }
                assert(crate::bindings::bindings_view(v@) =~= spec_binding_parser(
                    s@,
                    pos as int,
                )->Ok_0.0);
            }
            Ok((v, cp.next))
        },
        Err(e) => Err(e),
    }
}

/// The unbound definitions of one `ignore` declaration standing at
/// `pos` (after the keyword): its definition expression compiled, kept
/// as bare definitions.
pub open spec fn spec_unbind_parser(s: Seq<char>, pos: int) -> Result<
    (Seq<crate::definition::DefView>, int),
    ErrView,
> {
    match spec_parse_definition(s, pos) {
        Err(off) => Err(pos_err(s, off)),
        Ok((comps, p1)) => {
            let p2 = spec_skip_ws(s, p1);
            let p3 = if p2 < s.len() && s[p2] == '#' {
                spec_skip_to_eol(s, p2)
            } else {
                p2
            };
            if p3 < s.len() && s[p3] != '\n' {
                Err(pos_err(s, p3))
            } else {
                let np = if p3 < s.len() {
                    p3 + 1
                } else {
                    p3
                };
                match spec_compile(comps) {
                    Err(ev) => Err(ev),
                    Ok(defs) => Ok((defs, np)),
                }
            }
        },
    }
}

/// Read one unbind declaration: the definition expression after the
/// `ignore` keyword, compiled like a binding's but kept as bare
/// definitions.
pub fn unbind_parser(s: &Vec<char>, pos: usize) -> (r: Result<
    (Vec<crate::definition::Definition>, usize),
    ParseError,
>)
    requires
        pos <= s@.len(),
        s@.len() < usize::MAX,
    ensures
        r matches Ok((v, np)) ==> pos < np <= s@.len(),
        match r {
            Ok((v, np)) => spec_unbind_parser(s@, pos as int) == Ok::<_, ErrView>(
                (crate::definition::defs_view(v@), np as int),
            ),
            Err(e) => spec_unbind_parser(s@, pos as int) matches Err(ev) && err_matches(e, ev),
        },
{
    let (comps, p1) = match parse_definition(s, pos) {
        Ok(x) => x,
        Err(off) => {
            return Err(
                grammar_error_at(s, off, String::from_str("expected a modifier or a key")),
            );
        },
    };
    let mut p = skip_ws(s, p1);
    if p < s.len() && s[p] == '#' {
        p = skip_to_eol(s, p);
    }
    if p < s.len() && s[p] != '\n' {
        return Err(grammar_error_at(s, p, String::from_str("expected the end of the line")));
    }
    let np = if p < s.len() {
        p + 1
    } else {
        p
    };
    let defs = match compile_components(comps) {
        Ok(d) => d,
        Err(e) => {
            return Err(e);
        },
    };
    Ok((defs, np))
}

/// The verbatim path tokens of one `include` declaration from `p` on:
/// whitespace-separated non-empty tokens up to the end of the line.
pub open spec fn spec_import_loop(s: Seq<char>, p: int, acc: Seq<Seq<char>>) -> Result<
    (Seq<Seq<char>>, int),
    ErrView,
>
    decreases s.len() - p,
{
    if p < 0 || p > s.len() {
        Err(pos_err(s, p))
    } else {
        let e = spec_scan_path(s, p);
        if e == p {
            Err(pos_err(s, p))
        } else {
            let acc2 = acc.push(s.subrange(p, e));
            let q = spec_skip_ws(s, e);
            if q >= s.len() {
                Ok((acc2, q))
            } else if s[q] == '\n' {
                Ok((acc2, q + 1))
            } else {
                if p < q <= s.len() {
                    spec_import_loop(s, q, acc2)
                } else {
                    Err(pos_err(s, p))
                }
            }
        }
    }
}

/// The paths of one `include` declaration standing at `pos` (after
/// the keyword).
pub open spec fn spec_import_parser(s: Seq<char>, pos: int) -> Result<
    (Seq<Seq<char>>, int),
    ErrView,
> {
    spec_import_loop(s, pos, Seq::empty())
}

/// Read the file paths of one `include` declaration: one or more
/// whitespace-separated paths, taken verbatim, up to the end of the
/// line.
#[verifier::loop_isolation(false)]
pub fn import_parser(s: &Vec<char>, pos: usize) -> (r: Result<(Vec<String>, usize), ParseError>)
    requires
        pos <= s@.len(),
        s@.len() < usize::MAX,
    ensures
        r matches Ok((v, np)) ==> pos < np <= s@.len() && v@.len() >= 1,
        match r {
            Ok((v, np)) => spec_import_parser(s@, pos as int) == Ok::<_, ErrView>(
                (crate::imports::paths_view(v@), np as int),
            ),
            Err(e) => spec_import_parser(s@, pos as int) matches Err(ev) && err_matches(e, ev),
        },
{
    let mut paths: Vec<String> = Vec::new();
    let mut p = pos;
    proof {
        assert(crate::imports::paths_view(paths@) =~= Seq::<Seq<char>>::empty());
    }
    loop
        invariant
            pos <= p <= s@.len(),
            paths@.len() >= 1 || p == pos,
            spec_import_parser(s@, pos as int) == spec_import_loop(
                s@,
                p as int,
                crate::imports::paths_view(paths@),
            ),
        decreases s@.len() - p,
    {
        let ghost acc0 = crate::imports::paths_view(paths@);
        let ghost p_at = p as int;
        let end = scan_path(s, p);
        if end == p {
            return Err(grammar_error_at(s, p, String::from_str("expected a file path")));
        }
        let raw = crate::text::copy_range(s, p, end);
        paths.push(string_of_chars(&raw));
        proof {
            assert(crate::imports::paths_view(paths@) =~= acc0.push(
                s@.subrange(p_at, end as int),
            ));
        }
        let q = skip_ws(s, end);
        if q >= s.len() {
            return Ok((paths, q));
        }
        if s[q] == '\n' {
            return Ok((paths, q + 1));
        }
        p = q;
    }
}

/// Where the file-path token starting at `p` ends: anything but
/// whitespace or a line feed belongs to the path.
pub open spec fn spec_scan_path(s: Seq<char>, p: int) -> int
    decreases s.len() - p,
{
    if p < 0 || p >= s.len() {
        p
    } else if !is_ws(s[p]) && s[p] != '\n' {
        spec_scan_path(s, p + 1)
    } else {
        p
    }
}

/// The path token ends within the text.
pub proof fn lemma_scan_path_bounds(s: Seq<char>, p: int)
    requires
        0 <= p <= s.len(),
    ensures
        p <= spec_scan_path(s, p) <= s.len(),
    decreases s.len() - p,
{
    if p < s.len() && !is_ws(s[p]) && s[p] != '\n' {
        lemma_scan_path_bounds(s, p + 1);
    }
}

/// The end of a file-path token: anything but whitespace or a line
/// feed.
fn scan_path(s: &Vec<char>, pos: usize) -> (np: usize)
    requires
        pos <= s@.len(),
    ensures
        pos <= np <= s@.len(),
        np as int == spec_scan_path(s@, pos as int),
{
    let mut p = pos;
    while p < s.len() && !ws_char(s[p]) && s[p] != '\n'
        invariant
            pos <= p <= s@.len(),
            spec_scan_path(s@, pos as int) == spec_scan_path(s@, p as int),
        decreases s@.len() - p,
    {
        p = p + 1;
    }
    p
}

/// Where a keyword followed by whitespace ends (past the whitespace),
/// if it stands at `p`.
pub open spec fn spec_keyword(s: Seq<char>, p: int, lit: Seq<char>) -> Option<int> {
    match spec_match_lit(s, p, lit) {
        Some(q) => if q < s.len() && is_ws(s[q]) {
            Some(spec_skip_ws(s, q))
        } else {
            None
        },
        None => None,
    }
}

/// Match a keyword at `pos` that must be followed by horizontal
/// whitespace; the returned offset sits past that whitespace.
fn keyword(s: &Vec<char>, pos: usize, lit: &str) -> (r: Option<usize>)
    requires
        pos <= s@.len(),
    ensures
        r matches Some(np) ==> pos < np <= s@.len(),
        r is Some <==> spec_keyword(s@, pos as int, lit@) is Some,
        r matches Some(np) ==> Some(np as int) == spec_keyword(s@, pos as int, lit@),
{
    match match_lit(s, pos, lit) {
        Some(q) => {
            if q < s.len() && ws_char(s[q]) {
                Some(skip_ws(s, q))
            } else {
                None
            }
        },
        None => None,
    }
}

/// Read one mode block: `mode`, its name, optional `oneoff` and
/// `swallow` attributes, then bindings and unbinds of its own until
/// `endmode`.
/// The attribute words after a mode's name: `oneoff` and `swallow`,
/// each optional, whitespace-separated; where they end, with the flags
/// they set.
pub open spec fn spec_mode_attrs(s: Seq<char>, p: int, one: bool, swa: bool) -> (int, bool, bool)
    decreases s.len() - p,
{
    if p < 0 || p > s.len() {
        (p, one, swa)
    } else {
        match spec_match_lit(s, p, "oneoff"@) {
            Some(q) => {
                let pn = spec_skip_ws(s, q);
                if p < pn <= s.len() {
                    spec_mode_attrs(s, pn, true, swa)
                } else {
                    (p, one, swa)
                }
            },
            None => match spec_match_lit(s, p, "swallow"@) {
                Some(q) => {
                    let pn = spec_skip_ws(s, q);
                    if p < pn <= s.len() {
                        spec_mode_attrs(s, pn, one, true)
                    } else {
                        (p, one, swa)
                    }
                },
                None => (p, one, swa),
            },
        }
    }
}

/// The body of a mode block from `p` on: bindings and unbinds of its
/// own, closed by `endmode`.
pub open spec fn spec_mode_body(
    s: Seq<char>,
    p: int,
    name: Seq<char>,
    one: bool,
    swa: bool,
    bacc: Seq<crate::bindings::BindingView>,
    uacc: Seq<crate::definition::DefView>,
) -> Result<(crate::ModeView, int), ErrView>
    decreases s.len() - p,
{
    if p < 0 || p > s.len() {
        Err(pos_err(s, p))
    } else {
        let q = spec_skip_blank(s, p);
        if q >= s.len() {
            Err(pos_err(s, q))
        } else {
            match spec_match_lit(s, q, "endmode"@) {
                Some(np) => Ok(
                    (
                        crate::ModeView {
                            name,
                            oneoff: one,
                            swallow: swa,
                            bindings: bacc,
                            unbinds: uacc,
                        },
                        np,
                    ),
                ),
                None => match spec_keyword(s, q, "ignore"@) {
                    Some(after) => match spec_unbind_parser(s, after) {
                        Err(ev) => Err(ev),
                        Ok((ds, np)) => {
                            if p < np <= s.len() {
                                spec_mode_body(s, np, name, one, swa, bacc, uacc + ds)
                            } else {
                                Err(pos_err(s, p))
                            }
                        },
                    },
                    None => match spec_binding_parser(s, q) {
                        Err(ev) => Err(ev),
                        Ok((bs, np)) => {
                            if p < np <= s.len() {
                                spec_mode_body(s, np, name, one, swa, bacc + bs, uacc)
                            } else {
                                Err(pos_err(s, p))
                            }
                        },
                    },
                },
            }
        }
    }
}

/// The mode block standing at `pos` (after the `mode` keyword): its
/// name, attribute words, and body.
pub open spec fn spec_mode_parser(s: Seq<char>, pos: int) -> Result<(crate::ModeView, int), ErrView> {
    let ne = spec_scan_modename(s, pos);
    if ne == pos {
        Err(pos_err(s, pos))
    } else {
        let (p1, one, swa) = spec_mode_attrs(s, spec_skip_ws(s, ne), false, false);
        if !(p1 < s.len() && s[p1] == '\n') {
            Err(pos_err(s, p1))
        } else {
            spec_mode_body(s, p1 + 1, s.subrange(pos, ne), one, swa, Seq::empty(), Seq::empty())
        }
    }
}

#[verifier::loop_isolation(false)]
pub fn mode_parser(s: &Vec<char>, pos: usize) -> (r: Result<(crate::Mode, usize), ParseError>)
    requires
        pos <= s@.len(),
        s@.len() < usize::MAX,
    ensures
        r matches Ok((m, np)) ==> pos < np <= s@.len() && omission_free(m.bindings@),
        match r {
            Ok((m, np)) => spec_mode_parser(s@, pos as int) == Ok::<_, ErrView>(
                (crate::mode_view(&m), np as int),
            ),
            Err(e) => spec_mode_parser(s@, pos as int) matches Err(ev) && err_matches(e, ev),
        },
{
    let name_end = scan_modename(s, pos);
    if name_end == pos {
        return Err(grammar_error_at(s, pos, String::from_str("expected a mode name")));
    }
    let raw = crate::text::copy_range(s, pos, name_end);
    let mut mode = crate::Mode::default();
    mode.name = string_of_chars(&raw);
    let ghost namev = s@.subrange(pos as int, name_end as int);
    let mut p = skip_ws(s, name_end);
    let ghost p_init = p as int;
    loop
        invariant
            pos < p <= s@.len(),
            mode.bindings@.len() == 0,
            mode.unbinds@.len() == 0,
            mode.name@ == namev,
            spec_mode_attrs(s@, p_init, false, false) == spec_mode_attrs(
                s@,
                p as int,
                mode.oneoff,
                mode.swallow,
            ),
        decreases s@.len() - p,
    {
        if let Some(q) = match_lit(s, p, "oneoff") {
            mode.oneoff = true;
            p = skip_ws(s, q);
        } else if let Some(q) = match_lit(s, p, "swallow") {
            mode.swallow = true;
            p = skip_ws(s, q);
        } else {
            break ;
        }
    }
    proof {
        assert(omission_free(mode.bindings@));
        assert(spec_mode_attrs(s@, p_init, false, false) == (
            p as int,
            mode.oneoff,
            mode.swallow,
        ));
    }
    if !(p < s.len() && s[p] == '\n') {
        return Err(grammar_error_at(s, p, String::from_str("expected the mode body")));
    }
    p = p + 1;
    let ghost body0 = p as int;
    let ghost one = mode.oneoff;
    let ghost swa = mode.swallow;
    proof {
        assert(crate::bindings::bindings_view(mode.bindings@) =~= Seq::<
            crate::bindings::BindingView,
        >::empty());
        assert(crate::definition::defs_view(mode.unbinds@) =~= Seq::<
            crate::definition::DefView,
        >::empty());
    }
    loop
        invariant
            pos < p <= s@.len(),
            omission_free(mode.bindings@),
            mode.name@ == namev,
            mode.oneoff == one,
            mode.swallow == swa,
            spec_mode_body(
                s@,
                body0,
                namev,
                one,
                swa,
                Seq::empty(),
                Seq::empty(),
            ) == spec_mode_body(
                s@,
                p as int,
                namev,
                one,
                swa,
                crate::bindings::bindings_view(mode.bindings@),
                crate::definition::defs_view(mode.unbinds@),
            ),
        decreases s@.len() - p,
    {
        let ghost p_at = p as int;
        let ghost bacc0 = crate::bindings::bindings_view(mode.bindings@);
        let ghost uacc0 = crate::definition::defs_view(mode.unbinds@);
        let q = skip_blank(s, p);
        if q >= s.len() {
            return Err(grammar_error_at(s, q, String::from_str("expected endmode")));
        }
        if let Some(np) = match_lit(s, q, "endmode") {
            return Ok((mode, np));
        }
        if let Some(after) = keyword(s, q, "ignore") {
            let (defs, np) = match unbind_parser(s, after) {
                Ok(x) => x,
                Err(e) => {
                    return Err(e);
                },
            };
            let ghost dsv = crate::definition::defs_view(defs@);
            let mut defs = defs;
            mode.unbinds.append(&mut defs);
            proof {
                assert(crate::definition::defs_view(mode.unbinds@) =~= uacc0 + dsv);
            }
            p = np;
        } else {
            let (bs, np) = match binding_parser(s, q) {
                Ok(x) => x,
                Err(e) => {
                    return Err(e);
                },
            };
            let ghost bsv = crate::bindings::bindings_view(bs@);
            let ghost pre = mode.bindings@;
            let mut bs = bs;
            mode.bindings.append(&mut bs);
            proof {
                assert(crate::bindings::bindings_view(mode.bindings@) =~= bacc0 + bsv);
                assert forall|i: int| 0 <= i < mode.bindings@.len() implies no_omission(
                    (#[trigger] mode.bindings@[i]).definition.modifiers@,
                ) by {
                    if i < pre.len() {
                        assert(mode.bindings@[i] == pre[i]);
                    }
                }
            }
            p = np;
        }
    }
}

/// Ghost view of a parsed configuration: bindings, unbinds, import
/// paths and modes.
pub struct ConfigView {
    pub bindings: Seq<crate::bindings::BindingView>,
    pub unbinds: Seq<crate::definition::DefView>,
    pub imports: Seq<Seq<char>>,
    pub modes: Seq<crate::ModeView>,
}

/// The view of one parsed configuration.
pub open spec fn config_view(pf: &crate::SwhkdParser) -> ConfigView {
    ConfigView {
        bindings: crate::bindings::bindings_view(pf.bindings@),
        unbinds: crate::definition::defs_view(pf.unbinds@),
        imports: crate::imports::paths_view(pf.imports@),
        modes: crate::modes_view(pf.modes@),
    }
}

/// Paths inserted one by one into an ordered import list.
pub open spec fn spec_insert_paths(q: Seq<Seq<char>>, ps: Seq<Seq<char>>) -> Seq<Seq<char>>
    decreases ps.len(),
{
    if ps.len() == 0 {
        q
    } else {
        spec_insert_paths(crate::imports::insert_path(q, ps[0]), ps.drop_first())
    }
}

/// The declarations of a configuration text from `p` on: bindings,
/// unbinds, imports and modes in document order, blank and comment
/// lines skipped, until the text ends.
pub open spec fn spec_decls(s: Seq<char>, p: int, acc: ConfigView) -> Result<ConfigView, ErrView>
    decreases s.len() - p,
{
    if p < 0 || p > s.len() {
        Err(pos_err(s, p))
    } else {
        let q = spec_skip_blank(s, p);
        if q >= s.len() {
            Ok(acc)
        } else {
            match spec_keyword(s, q, "include"@) {
                Some(after) => match spec_import_parser(s, after) {
                    Err(ev) => Err(ev),
                    Ok((paths, np)) => {
                        if p < np <= s.len() {
                            spec_decls(
                                s,
                                np,
                                ConfigView {
                                    imports: spec_insert_paths(acc.imports, paths),
                                    ..acc
                                },
                            )
                        } else {
                            Err(pos_err(s, p))
                        }
                    },
                },
                None => match spec_keyword(s, q, "ignore"@) {
                    Some(after) => match spec_unbind_parser(s, after) {
                        Err(ev) => Err(ev),
                        Ok((ds, np)) => {
                            if p < np <= s.len() {
                                spec_decls(s, np, ConfigView { unbinds: acc.unbinds + ds, ..acc })
                            } else {
                                Err(pos_err(s, p))
                            }
                        },
                    },
                    None => match spec_keyword(s, q, "mode"@) {
                        Some(after) => match spec_mode_parser(s, after) {
                            Err(ev) => Err(ev),
                            Ok((mv, np)) => {
                                if p < np <= s.len() {
                                    spec_decls(
                                        s,
                                        np,
                                        ConfigView { modes: acc.modes.push(mv), ..acc },
                                    )
                                } else {
                                    Err(pos_err(s, p))
                                }
                            },
                        },
                        None => match spec_binding_parser(s, q) {
                            Err(ev) => Err(ev),
                            Ok((bs, np)) => {
                                if p < np <= s.len() {
                                    spec_decls(
                                        s,
                                        np,
                                        ConfigView { bindings: acc.bindings + bs, ..acc },
                                    )
                                } else {
                                    Err(pos_err(s, p))
                                }
                            },
                        },
                    },
                },
            }
        }
    }
}

/// What a whole configuration text parses to.
pub open spec fn spec_parse_text(s: Seq<char>) -> Result<ConfigView, ErrView> {
    spec_decls(
        s,
        0,
        ConfigView {
            bindings: Seq::empty(),
            unbinds: Seq::empty(),
            imports: Seq::empty(),
            modes: Seq::empty(),
        },
    )
}

/// The grammar's entry point.
pub struct SwhkdGrammar;

impl SwhkdGrammar {
    /// Parse one configuration text into its declarations: bindings,
    /// unbinds, imports (an ordered, de-duplicated path list) and
    /// modes, in document order. No produced binding carries the
    /// omission sentinel.
    #[verifier::loop_isolation(false)]
    #[verifier::rlimit(100)]
    #[verifier::spinoff_prover]
    pub fn parse(source: &str) -> (r: Result<crate::SwhkdParser, ParseError>)
        requires
            source@.len() < usize::MAX,
        ensures
            r matches Ok(pf) ==> omission_free(pf.bindings@) && (forall|i: int|
                0 <= i < pf.modes@.len() ==> omission_free(
                    (#[trigger] pf.modes@[i]).bindings@,
                )),
            match r {
                Ok(pf) => spec_parse_text(source@) == Ok::<_, ErrView>(config_view(&pf)),
                Err(e) => spec_parse_text(source@) matches Err(ev) && err_matches(e, ev),
            },
    {
        let s = chars_of_str(source);
        let mut bindings: Vec<crate::bindings::Binding> = Vec::new();
        let mut unbinds: Vec<crate::definition::Definition> = Vec::new();
        let mut imports: Vec<String> = Vec::new();
        let mut modes: Vec<crate::Mode> = Vec::new();
        proof {
            assert(crate::bindings::bindings_view(bindings@) =~= Seq::<
                crate::bindings::BindingView,
            >::empty());
            assert(crate::definition::defs_view(unbinds@) =~= Seq::<
                crate::definition::DefView,
            >::empty());
            assert(crate::imports::paths_view(imports@) =~= Seq::<Seq<char>>::empty());
            assert(crate::modes_view(modes@) =~= Seq::<crate::ModeView>::empty());
        }
        let ghost mut pg: int = 0;
        let mut p = skip_blank(&s, 0);
        while p < s.len()
            invariant
                p <= s@.len(),
                0 <= pg <= s@.len(),
                pg <= p as int,
                p as int == spec_skip_blank(s@, pg),
                omission_free(bindings@),
                forall|i: int|
                    0 <= i < modes@.len() ==> omission_free((#[trigger] modes@[i]).bindings@),
                spec_parse_text(s@) == spec_decls(
                    s@,
                    pg,
                    ConfigView {
                        bindings: crate::bindings::bindings_view(bindings@),
                        unbinds: crate::definition::defs_view(unbinds@),
                        imports: crate::imports::paths_view(imports@),
                        modes: crate::modes_view(modes@),
                    },
                ),
            decreases s@.len() - p,
        {
            let ghost acc0 = ConfigView {
                bindings: crate::bindings::bindings_view(bindings@),
                unbinds: crate::definition::defs_view(unbinds@),
                imports: crate::imports::paths_view(imports@),
                modes: crate::modes_view(modes@),
            };
            let ghost pg0 = pg;
            if let Some(after) = keyword(&s, p, "include") {
                let (paths, np) = match import_parser(&s, after) {
                    Ok(x) => x,
                    Err(e) => {
                        return Err(e);
                    },
                };
                let ghost pathsv = crate::imports::paths_view(paths@);
                let mut paths = paths;
                proof {
                    assert(crate::imports::paths_view(paths@) =~= pathsv);
                }
                while paths.len() > 0
                    invariant
                        spec_insert_paths(acc0.imports, pathsv) == spec_insert_paths(
                            crate::imports::paths_view(imports@),
                            crate::imports::paths_view(paths@),
                        ),
                    decreases paths@.len(),
                {
                    let ghost remv = crate::imports::paths_view(paths@);
                    let path = paths.remove(0);
                    proof {
                        assert(remv[0] == path@);
                        assert(crate::imports::paths_view(paths@) =~= remv.drop_first());
                    }
                    crate::imports::insert_import(&mut imports, path);
                }
                proof {
                    assert(crate::imports::paths_view(paths@).len() == 0);
                    assert(crate::imports::paths_view(imports@) == spec_insert_paths(
                        acc0.imports,
                        pathsv,
                    ));
                    assert(spec_decls(s@, pg0, acc0) == spec_decls(
                        s@,
                        np as int,
                        (ConfigView { imports: spec_insert_paths(acc0.imports, pathsv), ..acc0 }),
                    ));
                    pg = np as int;
                }
                p = skip_blank(&s, np);
            } else if let Some(after) = keyword(&s, p, "ignore") {
                let (defs, np) = match unbind_parser(&s, after) {
                    Ok(x) => x,
                    Err(e) => {
                        return Err(e);
                    },
                };
                let ghost dsv = crate::definition::defs_view(defs@);
                let mut defs = defs;
                unbinds.append(&mut defs);
                proof {
                    assert(crate::definition::defs_view(unbinds@) =~= acc0.unbinds + dsv);
                    assert(spec_decls(s@, pg0, acc0) == spec_decls(
                        s@,
                        np as int,
                        (ConfigView { unbinds: acc0.unbinds + dsv, ..acc0 }),
                    ));
                    pg = np as int;
                }
                p = skip_blank(&s, np);
            } else if let Some(after) = keyword(&s, p, "mode") {
                let (mode, np) = match mode_parser(&s, after) {
                    Ok(x) => x,
                    Err(e) => {
                        return Err(e);
                    },
                };
                let ghost mv = crate::mode_view(&mode);
                modes.push(mode);
                proof {
                    assert(crate::modes_view(modes@) =~= acc0.modes.push(mv));
                    assert(spec_decls(s@, pg0, acc0) == spec_decls(
                        s@,
                        np as int,
                        (ConfigView { modes: acc0.modes.push(mv), ..acc0 }),
                    ));
                    pg = np as int;
                }
                p = skip_blank(&s, np);
            } else {
                let (bs, np) = match binding_parser(&s, p) {
                    Ok(x) => x,
                    Err(e) => {
                        return Err(e);
                    },
                };
                let ghost bsv = crate::bindings::bindings_view(bs@);
                let ghost pre = bindings@;
                let mut bs = bs;
                bindings.append(&mut bs);
                proof {
                    assert(crate::bindings::bindings_view(bindings@) =~= acc0.bindings + bsv);
                    assert forall|i: int| 0 <= i < bindings@.len() implies no_omission(
                        (#[trigger] bindings@[i]).definition.modifiers@,
                    ) by {
                        if i < pre.len() {
                            assert(bindings@[i] == pre[i]);
                        }
                    }
                    assert(spec_decls(s@, pg0, acc0) == spec_decls(
                        s@,
                        np as int,
                        (ConfigView { bindings: acc0.bindings + bsv, ..acc0 }),
                    ));
                    pg = np as int;
                }
                p = skip_blank(&s, np);
            }
        }
        let pf = crate::SwhkdParser { bindings, unbinds, imports, modes };
        proof {
            assert(spec_parse_text(s@) == Ok::<_, ErrView>(config_view(&pf)));
        }
        Ok(pf)
    }
}

} // verus!
