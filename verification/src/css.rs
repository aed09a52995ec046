//! The CSS syntax the inliner reads: stylesheets made of qualified rules and at-rules, and
//! declaration lists such as the content of a rule's block or of a `style` attribute.
//!
//! Positions are indexes into a sequence of characters. A scan walks the text one unit at a
//! time (a character, an escape, the start or end of a comment or string), tracking the
//! blocks it is inside, so that delimiters inside strings, comments and nested blocks are not
//! taken for delimiters of the enclosing construct.
use vstd::prelude::*;
use crate::text::{is_css_ws, css_ws, push_str, push_range, string_push};

verus! {

/// What the scanner is inside of.
#[derive(Clone, Copy, PartialEq, Eq, Structural, Debug)]
pub enum Mode {
    Normal,
    Comment,
    Quoted(char),
}

pub open spec fn closer_of(c: char) -> char {
    if c == '(' {
        ')'
    } else if c == '[' {
        ']'
    } else {
        '}'
    }
}

pub open spec fn is_opener(c: char) -> bool {
    c == '(' || c == '[' || c == '{'
}

/// Scans `s` from `j`. In the normal mode with no open block, a character equal to `d1` or
/// `d2` stops the scan at its position. When `stop_on_close` holds and the closer of the
/// outermost open block is met, the scan stops right after it. Otherwise the scan runs to the
/// end; the result is then `s.len()`, or `s.len() + 1` when `stop_on_close` holds (the block
/// is unclosed).
pub open spec fn scan(
    s: Seq<char>,
    j: int,
    mode: Mode,
    stack: Seq<char>,
    d1: char,
    d2: char,
    stop_on_close: bool,
) -> int
    decreases s.len() - j,
{
    if j < 0 || j >= s.len() {
        if stop_on_close { s.len() + 1int } else { s.len() as int }
    } else {
        let c = s[j];
        match mode {
            Mode::Comment => {
                if c == '*' && j + 1 < s.len() && s[j + 1] == '/' {
                    scan(s, j + 2, Mode::Normal, stack, d1, d2, stop_on_close)
                } else {
                    scan(s, j + 1, Mode::Comment, stack, d1, d2, stop_on_close)
                }
            },
            Mode::Quoted(q) => {
                if c == q || c == '\n' {
                    scan(s, j + 1, Mode::Normal, stack, d1, d2, stop_on_close)
                } else if c == '\\' && j + 1 < s.len() {
                    scan(s, j + 2, Mode::Quoted(q), stack, d1, d2, stop_on_close)
                } else {
                    scan(s, j + 1, Mode::Quoted(q), stack, d1, d2, stop_on_close)
                }
            },
            Mode::Normal => {
                if stack.len() == 0 && (c == d1 || c == d2) {
                    j
                } else if c == '/' && j + 1 < s.len() && s[j + 1] == '*' {
                    scan(s, j + 2, Mode::Comment, stack, d1, d2, stop_on_close)
                } else if c == '"' || c == '\'' {
                    scan(s, j + 1, Mode::Quoted(c), stack, d1, d2, stop_on_close)
                } else if c == '\\' && j + 1 < s.len() {
                    scan(s, j + 2, Mode::Normal, stack, d1, d2, stop_on_close)
                } else if is_opener(c) {
                    scan(s, j + 1, Mode::Normal, stack.push(closer_of(c)), d1, d2, stop_on_close)
                } else if stack.len() > 0 && c == stack.last() {
                    if stack.len() == 1 && stop_on_close {
                        j + 1
                    } else {
                        scan(s, j + 1, Mode::Normal, stack.drop_last(), d1, d2, stop_on_close)
                    }
                } else {
                    scan(s, j + 1, Mode::Normal, stack, d1, d2, stop_on_close)
                }
            },
        }
    }
}

pub proof fn lemma_scan_bounds(
    s: Seq<char>,
    j: int,
    mode: Mode,
    stack: Seq<char>,
    d1: char,
    d2: char,
    stop_on_close: bool,
)
    requires
        0 <= j <= s.len(),
    ensures
        j <= scan(s, j, mode, stack, d1, d2, stop_on_close) <= s.len() + 1,
        !stop_on_close ==> scan(s, j, mode, stack, d1, d2, stop_on_close) <= s.len(),
        stop_on_close && j < s.len() && stack.len() > 0 ==> j < scan(s, j, mode, stack, d1, d2, stop_on_close),
        !stop_on_close && scan(s, j, mode, stack, d1, d2, stop_on_close) < s.len() ==> (s[scan(s, j, mode, stack, d1, d2, stop_on_close)] == d1 || s[scan(s, j, mode, stack, d1, d2, stop_on_close)] == d2),
    decreases s.len() - j,
{
    if j < s.len() {
        let c = s[j];
        match mode {
            Mode::Comment => {
                if c == '*' && j + 1 < s.len() && s[j + 1] == '/' {
                    lemma_scan_bounds(s, j + 2, Mode::Normal, stack, d1, d2, stop_on_close);
                } else {
                    lemma_scan_bounds(s, j + 1, Mode::Comment, stack, d1, d2, stop_on_close);
                }
            },
            Mode::Quoted(q) => {
                if c == q || c == '\n' {
                    lemma_scan_bounds(s, j + 1, Mode::Normal, stack, d1, d2, stop_on_close);
                } else if c == '\\' && j + 1 < s.len() {
                    lemma_scan_bounds(s, j + 2, Mode::Quoted(q), stack, d1, d2, stop_on_close);
                } else {
                    lemma_scan_bounds(s, j + 1, Mode::Quoted(q), stack, d1, d2, stop_on_close);
                }
            },
            Mode::Normal => {
                if stack.len() == 0 && (c == d1 || c == d2) {
                } else if c == '/' && j + 1 < s.len() && s[j + 1] == '*' {
                    lemma_scan_bounds(s, j + 2, Mode::Comment, stack, d1, d2, stop_on_close);
                } else if c == '"' || c == '\'' {
                    lemma_scan_bounds(s, j + 1, Mode::Quoted(c), stack, d1, d2, stop_on_close);
                } else if c == '\\' && j + 1 < s.len() {
                    lemma_scan_bounds(s, j + 2, Mode::Normal, stack, d1, d2, stop_on_close);
                } else if is_opener(c) {
                    lemma_scan_bounds(s, j + 1, Mode::Normal, stack.push(closer_of(c)), d1, d2, stop_on_close);
                } else if stack.len() > 0 && c == stack.last() {
                    if stack.len() == 1 && stop_on_close {
                    } else {
                        lemma_scan_bounds(s, j + 1, Mode::Normal, stack.drop_last(), d1, d2, stop_on_close);
                    }
                } else {
                    lemma_scan_bounds(s, j + 1, Mode::Normal, stack, d1, d2, stop_on_close);
                }
            },
        }
    }
}

/// Executable `scan`.
pub fn scan_exec(
    s: &Vec<char>,
    start: usize,
    start_mode: Mode,
    start_stack: Vec<char>,
    d1: char,
    d2: char,
    stop_on_close: bool,
) -> (r: usize)
    requires
        start <= s.len(),
        s.len() < usize::MAX,
    ensures
        r == scan(s@, start as int, start_mode, start_stack@, d1, d2, stop_on_close),
{
    let mut j = start;
    let mut mode = start_mode;
    let mut stack = start_stack;
    let n = s.len();
    while j < n
        invariant
            n == s.len() < usize::MAX,
            j <= n + 1,
            scan(s@, start as int, start_mode, start_stack@, d1, d2, stop_on_close)
                == scan(s@, j as int, mode, stack@, d1, d2, stop_on_close),
        decreases n + 1 - j,
    {
        let c = s[j];
        match mode {
            Mode::Comment => {
                if c == '*' && j + 1 < n && s[j + 1] == '/' {
                    mode = Mode::Normal;
                    j += 2;
                } else {
                    j += 1;
                }
            },
            Mode::Quoted(q) => {
                if c == q || c == '\n' {
                    mode = Mode::Normal;
                    j += 1;
                } else if c == '\\' && j + 1 < n {
                    j += 2;
                } else {
                    j += 1;
                }
            },
            Mode::Normal => {
                if stack.len() == 0 && (c == d1 || c == d2) {
                    return j;
                } else if c == '/' && j + 1 < n && s[j + 1] == '*' {
                    mode = Mode::Comment;
                    j += 2;
                } else if c == '"' || c == '\'' {
                    mode = Mode::Quoted(c);
                    j += 1;
                } else if c == '\\' && j + 1 < n {
                    j += 2;
                } else if c == '(' || c == '[' || c == '{' {
                    let closer = if c == '(' {
                        ')'
                    } else if c == '[' {
                        ']'
                    } else {
                        '}'
                    };
                    stack.push(closer);
                    j += 1;
                } else if stack.len() > 0 && c == stack[stack.len() - 1] {
                    if stack.len() == 1 && stop_on_close {
                        return j + 1;
                    } else {
                        stack.pop();
                        j += 1;
                    }
                } else {
                    j += 1;
                }
            },
        }
    }
    if stop_on_close {
        n + 1
    } else {
        n
    }
}

// ---------------------------------------------------------------------------------------
// Identifiers
// ---------------------------------------------------------------------------------------

pub open spec fn is_name_start(c: char) -> bool {
    ('a' <= c && c <= 'z') || ('A' <= c && c <= 'Z') || c == '_' || c >= '\u{80}'
}

pub open spec fn is_name_char(c: char) -> bool {
    is_name_start(c) || ('0' <= c && c <= '9') || c == '-'
}

/// An escape starts at `i`: a backslash not followed by a newline.
pub open spec fn escape_at(s: Seq<char>, i: int) -> bool {
    0 <= i && i + 1 < s.len() && s[i] == '\\' && s[i + 1] != '\n'
}

/// An identifier starts at `i`.
pub open spec fn ident_starts(s: Seq<char>, i: int) -> bool {
    0 <= i < s.len() && if s[i] == '-' {
        (i + 1 < s.len() && (is_name_start(s[i + 1]) || s[i + 1] == '-')) || escape_at(s, i + 1)
    } else {
        is_name_start(s[i]) || escape_at(s, i)
    }
}

/// The end of the name that starts at `i`.
pub open spec fn name_end(s: Seq<char>, i: int) -> int
    decreases s.len() - i,
{
    if 0 <= i < s.len() && is_name_char(s[i]) {
        name_end(s, i + 1)
    } else if escape_at(s, i) {
        name_end(s, i + 2)
    } else {
        i
    }
}

pub proof fn lemma_name_end(s: Seq<char>, i: int)
    requires
        0 <= i <= s.len(),
    ensures
        i <= name_end(s, i) <= s.len(),
        ident_starts(s, i) ==> i < name_end(s, i),
    decreases s.len() - i,
{
    if 0 <= i < s.len() && is_name_char(s[i]) {
        lemma_name_end(s, i + 1);
    } else if escape_at(s, i) {
        lemma_name_end(s, i + 2);
    }
}

pub fn name_char(c: char) -> (r: bool)
    ensures
        r == is_name_char(c),
{
    ('a' <= c && c <= 'z') || ('A' <= c && c <= 'Z') || c == '_' || c >= '\u{80}' || ('0' <= c
        && c <= '9') || c == '-'
}

pub fn name_start(c: char) -> (r: bool)
    ensures
        r == is_name_start(c),
{
    ('a' <= c && c <= 'z') || ('A' <= c && c <= 'Z') || c == '_' || c >= '\u{80}'
}

pub fn escape_at_exec(s: &Vec<char>, i: usize) -> (r: bool)
    requires
        s.len() < usize::MAX,
    ensures
        r == escape_at(s@, i as int),
{
    i < s.len() && i + 1 < s.len() && s[i] == '\\' && s[i + 1] != '\n'
}

pub fn ident_starts_exec(s: &Vec<char>, i: usize) -> (r: bool)
    requires
        s.len() < usize::MAX,
    ensures
        r == ident_starts(s@, i as int),
{
    if i >= s.len() {
        return false;
    }
    if s[i] == '-' {
        (i + 1 < s.len() && (name_start(s[i + 1]) || s[i + 1] == '-')) || escape_at_exec(s, i + 1)
    } else {
        name_start(s[i]) || escape_at_exec(s, i)
    }
}

pub fn name_end_exec(s: &Vec<char>, start: usize) -> (r: usize)
    requires
        start <= s.len() < usize::MAX,
    ensures
        r == name_end(s@, start as int),
{
    let mut i = start;
    while i < s.len() && (name_char(s[i]) || escape_at_exec(s, i))
        invariant
            start <= i <= s.len() < usize::MAX,
            name_end(s@, start as int) == name_end(s@, i as int),
        decreases s.len() - i,
    {
        if name_char(s[i]) {
            i += 1;
        } else {
            i += 2;
        }
    }
    i
}

// ---------------------------------------------------------------------------------------
// Whitespace and comments
// ---------------------------------------------------------------------------------------

pub open spec fn comment_at(s: Seq<char>, i: int) -> bool {
    0 <= i && i + 1 < s.len() && s[i] == '/' && s[i + 1] == '*'
}

/// The position after the comment that starts at `i`.
pub open spec fn comment_end(s: Seq<char>, i: int) -> int
    decreases s.len() - i,
{
    if i + 1 >= s.len() {
        s.len() as int
    } else if s[i] == '*' && s[i + 1] == '/' {
        i + 2
    } else {
        comment_end(s, i + 1)
    }
}

pub proof fn lemma_comment_end(s: Seq<char>, i: int)
    requires
        0 <= i,
    ensures
        i < comment_end(s, i) <= s.len() || (i >= s.len() && comment_end(s, i) == s.len()),
        i <= s.len() ==> comment_end(s, i) <= s.len(),
    decreases s.len() - i,
{
    if i + 1 < s.len() && !(s[i] == '*' && s[i + 1] == '/') {
        lemma_comment_end(s, i + 1);
    }
}

pub fn comment_end_exec(s: &Vec<char>, start: usize) -> (r: usize)
    requires
        start <= s.len() < usize::MAX,
    ensures
        r == comment_end(s@, start as int),
{
    let mut i = start;
    while i + 1 < s.len() && !(s[i] == '*' && s[i + 1] == '/')
        invariant
            start <= i <= s.len() < usize::MAX,
            comment_end(s@, start as int) == comment_end(s@, i as int),
        decreases s.len() - i,
    {
        i += 1;
    }
    if i + 1 >= s.len() {
        s.len()
    } else {
        i + 2
    }
}

/// Skips whitespace and comments.
pub open spec fn skip_ws(s: Seq<char>, i: int) -> int
    decreases s.len() - i,
{
    if 0 <= i < s.len() && is_css_ws(s[i]) {
        skip_ws(s, i + 1)
    } else if comment_at(s, i) {
        proof {
            lemma_comment_end(s, i + 2);
        }
        skip_ws(s, comment_end(s, i + 2))
    } else {
        i
    }
}

pub proof fn lemma_skip_ws(s: Seq<char>, i: int)
    requires
        0 <= i <= s.len(),
    ensures
        i <= skip_ws(s, i) <= s.len(),
    decreases s.len() - i,
{
    if 0 <= i < s.len() && is_css_ws(s[i]) {
        lemma_skip_ws(s, i + 1);
    } else if comment_at(s, i) {
        lemma_comment_end(s, i + 2);
        lemma_skip_ws(s, comment_end(s, i + 2));
    }
}

pub fn skip_ws_exec(s: &Vec<char>, start: usize) -> (r: usize)
    requires
        start <= s.len() < usize::MAX,
    ensures
        r == skip_ws(s@, start as int),
{
    let mut i = start;
    loop
        invariant
            start <= i <= s.len() < usize::MAX,
            skip_ws(s@, start as int) == skip_ws(s@, i as int),
        decreases s.len() - i,
    {
        if i < s.len() && css_ws(s[i]) {
            i += 1;
        } else if i + 1 < s.len() && s[i] == '/' && s[i + 1] == '*' {
            proof {
                lemma_comment_end(s@, i + 2);
            }
            i = comment_end_exec(s, i + 2);
        } else {
            return i;
        }
    }
}

/// `<!--` or `-->` starts at `i`.
pub open spec fn cdo_cdc_len(s: Seq<char>, i: int) -> int {
    if 0 <= i && i + 4 <= s.len() && s[i] == '<' && s[i + 1] == '!' && s[i + 2] == '-' && s[i + 3] == '-' {
        4
    } else if 0 <= i && i + 3 <= s.len() && s[i] == '-' && s[i + 1] == '-' && s[i + 2] == '>' {
        3
    } else {
        0
    }
}

/// Skips whitespace, comments, `<!--` and `-->` between the rules of a stylesheet.
pub open spec fn skip_top(s: Seq<char>, i: int) -> int
    decreases s.len() - i,
{
    let j = skip_ws(s, i);
    if 0 <= i <= s.len() && j < s.len() && cdo_cdc_len(s, j) > 0 {
        proof {
            lemma_skip_ws(s, i);
        }
        skip_top(s, j + cdo_cdc_len(s, j))
    } else {
        j
    }
}

pub proof fn lemma_skip_top(s: Seq<char>, i: int)
    requires
        0 <= i <= s.len(),
    ensures
        i <= skip_top(s, i) <= s.len(),
    decreases s.len() - i,
{
    lemma_skip_ws(s, i);
    let j = skip_ws(s, i);
    if j < s.len() && cdo_cdc_len(s, j) > 0 {
        lemma_skip_top(s, j + cdo_cdc_len(s, j));
    }
}

pub fn cdo_cdc_len_exec(s: &Vec<char>, i: usize) -> (r: usize)
    requires
        i <= s.len() < usize::MAX - 4,
    ensures
        r == cdo_cdc_len(s@, i as int),
{
    if i + 4 <= s.len() && s[i] == '<' && s[i + 1] == '!' && s[i + 2] == '-' && s[i + 3] == '-' {
        4
    } else if i + 3 <= s.len() && s[i] == '-' && s[i + 1] == '-' && s[i + 2] == '>' {
        3
    } else {
        0
    }
}

pub fn skip_top_exec(s: &Vec<char>, start: usize) -> (r: usize)
    requires
        start <= s.len() < usize::MAX - 4,
    ensures
        r == skip_top(s@, start as int),
{
    let mut i = start;
    loop
        invariant
            start <= i <= s.len() < usize::MAX - 4,
            skip_top(s@, start as int) == skip_top(s@, i as int),
        decreases s.len() - i,
    {
        proof {
            lemma_skip_ws(s@, i as int);
        }
        let j = skip_ws_exec(s, i);
        if j < s.len() && cdo_cdc_len_exec(s, j) > 0 {
            i = j + cdo_cdc_len_exec(s, j);
        } else {
            return j;
        }
    }
}


// ---------------------------------------------------------------------------------------
// Errors
// ---------------------------------------------------------------------------------------

/// Why a declaration could not be read.
#[derive(Debug)]
pub enum SyntaxError {
    /// A token that the grammar does not allow there, described as in `Debug` of the token.
    UnexpectedToken(String),
    /// The declaration ended before its value.
    EndOfInput,
    /// An at-rule where only declarations are read, with its name.
    AtRuleInvalid(String),
    /// A rule with a block where only declarations are read.
    QualifiedRuleInvalid,
}

pub enum SpecSyntaxError {
    UnexpectedToken(Seq<char>),
    EndOfInput,
    AtRuleInvalid(Seq<char>),
    QualifiedRuleInvalid,
}

impl View for SyntaxError {
    type V = SpecSyntaxError;

    open spec fn view(&self) -> SpecSyntaxError {
        match self {
            SyntaxError::UnexpectedToken(t) => SpecSyntaxError::UnexpectedToken(t@),
            SyntaxError::EndOfInput => SpecSyntaxError::EndOfInput,
            SyntaxError::AtRuleInvalid(n) => SpecSyntaxError::AtRuleInvalid(n@),
            SyntaxError::QualifiedRuleInvalid => SpecSyntaxError::QualifiedRuleInvalid,
        }
    }
}

/// `"` + `inner` + `"`, as `Debug` writes a string without special characters.
pub open spec fn quoted(inner: Seq<char>) -> Seq<char> {
    seq!['"'] + inner + seq!['"']
}

pub open spec fn is_digit(c: char) -> bool {
    '0' <= c && c <= '9'
}

/// The end of the run of digits that starts at `k`.
pub open spec fn digits_end(s: Seq<char>, k: int) -> int
    decreases s.len() - k,
{
    if 0 <= k < s.len() && is_digit(s[k]) {
        digits_end(s, k + 1)
    } else {
        k
    }
}

/// Digits without their leading zeros (a lone `0` stays).
pub open spec fn without_leading_zeros(d: Seq<char>) -> Seq<char>
    decreases d.len(),
{
    if d.len() > 1 && d[0] == '0' {
        without_leading_zeros(d.drop_first())
    } else {
        d
    }
}

/// A character that `Debug` writes as it is inside a quoted string: printable ASCII other
/// than `"` and `\`.
pub open spec fn plain_string_char(c: char) -> bool {
    ' ' <= c && c <= '~' && c != '"' && c != '\\'
}

/// The first position at or after `k` that holds the quote `q` or a character that is not
/// plain; the length when there is none.
pub open spec fn plain_string_end(s: Seq<char>, k: int, q: char) -> int
    decreases s.len() - k,
{
    if 0 <= k < s.len() && s[k] != q && plain_string_char(s[k]) {
        plain_string_end(s, k + 1, q)
    } else {
        k
    }
}

/// An exponent starts at `e`: `e` or `E`, then a digit, or a sign and a digit.
pub open spec fn exponent_at(s: Seq<char>, e: int) -> bool {
    0 <= e < s.len() && (s[e] == 'e' || s[e] == 'E') && ((e + 1 < s.len() && is_digit(s[e + 1])) || (e + 2
        < s.len() && (s[e + 1] == '+' || s[e + 1] == '-') && is_digit(s[e + 2])))
}

/// Where the digits of a whole number at `j` start: after its sign, if it has one.
pub open spec fn number_digits_start(s: Seq<char>, j: int) -> int {
    if s[j] == '+' || s[j] == '-' { j + 1 } else { j }
}

/// A whole number of at most seven digits starts at `j` (with no fraction, exponent or `%`),
/// so that its value is written exactly.
pub open spec fn whole_number_at(s: Seq<char>, j: int) -> bool {
    let d0 = number_digits_start(s, j);
    let e = digits_end(s, d0);
    &&& 0 <= j < s.len()
    &&& (is_digit(s[j]) || ((s[j] == '+' || s[j] == '-') && j + 1 < s.len() && is_digit(s[j + 1])))
    &&& e - d0 <= 7
    &&& !(e + 1 < s.len() && s[e] == '.' && is_digit(s[e + 1]))
    &&& !exponent_at(s, e)
    &&& !(e < s.len() && s[e] == '%')
}

/// The fields of a whole number token at `j`, as `Debug` writes them.
pub open spec fn number_fields(s: Seq<char>, j: int) -> Seq<char> {
    let d0 = number_digits_start(s, j);
    let v = without_leading_zeros(s.subrange(d0, digits_end(s, d0)));
    let neg = s[j] == '-';
    let value = if neg { seq!['-'] + v } else { v };
    let int_value = if neg && v != seq!['0'] { seq!['-'] + v } else { v };
    "has_sign: "@ + (if d0 > j { "true"@ } else { "false"@ }) + ", value: "@ + value + ".0, int_value: Some("@
        + int_value + ")"@
}

/// The `Debug` text of the token that starts at `j`.
pub open spec fn token_desc(s: Seq<char>, j: int) -> Seq<char> {
    let c = s[j];
    if c == '{' {
        "CurlyBracketBlock"@
    } else if c == '(' {
        "ParenthesisBlock"@
    } else if c == '[' {
        "SquareBracketBlock"@
    } else if c == ';' {
        "Semicolon"@
    } else if c == ',' {
        "Comma"@
    } else if c == ':' {
        "Colon"@
    } else if c == '}' {
        "CloseCurlyBracket"@
    } else if c == ')' {
        "CloseParenthesis"@
    } else if c == ']' {
        "CloseSquareBracket"@
    } else if ident_starts(s, j) {
        let e = name_end(s, j);
        if e < s.len() && s[e] == '(' {
            "Function("@ + quoted(s.subrange(j, e)) + ")"@
        } else {
            "Ident("@ + quoted(s.subrange(j, e)) + ")"@
        }
    } else if c == '@' && ident_starts(s, j + 1) {
        "AtKeyword("@ + quoted(s.subrange(j + 1, name_end(s, j + 1))) + ")"@
    } else if c == '#' && ident_starts(s, j + 1) {
        "IDHash("@ + quoted(s.subrange(j + 1, name_end(s, j + 1))) + ")"@
    } else if c == '#' && j + 1 < s.len() && (is_name_char(s[j + 1]) || escape_at(s, j + 1)) {
        "Hash("@ + quoted(s.subrange(j + 1, name_end(s, j + 1))) + ")"@
    } else if (c == '"' || c == '\'') && plain_string_end(s, j + 1, c) < s.len() && s[plain_string_end(
        s,
        j + 1,
        c,
    )] == c {
        "QuotedString("@ + quoted(s.subrange(j + 1, plain_string_end(s, j + 1, c))) + ")"@
    } else if whole_number_at(s, j) {
        let e = digits_end(s, number_digits_start(s, j));
        if ident_starts(s, e) {
            "Dimension { "@ + number_fields(s, j) + ", unit: "@ + quoted(s.subrange(e, name_end(s, e))) + " }"@
        } else {
            "Number { "@ + number_fields(s, j) + " }"@
        }
    } else {
        "Delim('"@ + seq![c] + "')"@
    }
}

pub fn push_quoted(out: &mut String, s: &Vec<char>, lo: usize, hi: usize)
    requires
        lo <= hi <= s.len(),
    ensures
        final(out)@ == old(out)@ + quoted(s@.subrange(lo as int, hi as int)),
{
    string_push(out, '"');
    push_range(out, s, lo, hi);
    string_push(out, '"');
    assert(final(out)@ =~= old(out)@ + quoted(s@.subrange(lo as int, hi as int)));
}

pub fn digits_end_exec(s: &Vec<char>, k: usize) -> (r: usize)
    requires
        k <= s.len(),
    ensures
        r == digits_end(s@, k as int),
        k <= r <= s.len(),
    decreases s.len() - k,
{
    if k < s.len() && '0' <= s[k] && s[k] <= '9' {
        digits_end_exec(s, k + 1)
    } else {
        k
    }
}

pub fn plain_string_end_exec(s: &Vec<char>, k: usize, q: char) -> (r: usize)
    requires
        k <= s.len(),
    ensures
        r == plain_string_end(s@, k as int, q),
        k <= r <= s.len(),
    decreases s.len() - k,
{
    if k < s.len() && s[k] != q && ' ' <= s[k] && s[k] <= '~' && s[k] != '"' && s[k] != '\\' {
        plain_string_end_exec(s, k + 1, q)
    } else {
        k
    }
}

pub fn exponent_at_exec(s: &Vec<char>, e: usize) -> (r: bool)
    requires
        s.len() < usize::MAX,
    ensures
        r == exponent_at(s@, e as int),
{
    e < s.len() && (s[e] == 'e' || s[e] == 'E') && ((e + 1 < s.len() && '0' <= s[e + 1] && s[e + 1] <= '9')
        || (e + 2 < s.len() && (s[e + 1] == '+' || s[e + 1] == '-') && '0' <= s[e + 2] && s[e + 2]
        <= '9'))
}

pub fn whole_number_at_exec(s: &Vec<char>, j: usize) -> (r: bool)
    requires
        j < s.len() < usize::MAX,
    ensures
        r == whole_number_at(s@, j as int),
{
    let c = s[j];
    let signed = (c == '+' || c == '-') && j + 1 < s.len() && '0' <= s[j + 1] && s[j + 1] <= '9';
    if !(('0' <= c && c <= '9') || signed) {
        return false;
    }
    let d0 = if c == '+' || c == '-' { j + 1 } else { j };
    let e = digits_end_exec(s, d0);
    e - d0 <= 7 && !(e + 1 < s.len() && s[e] == '.' && '0' <= s[e + 1] && s[e + 1] <= '9') && !exponent_at_exec(s, e)
        && !(e < s.len() && s[e] == '%')
}

/// Appends the digits `s[a..b]` without their leading zeros.
pub fn push_without_leading_zeros(out: &mut String, s: &Vec<char>, a: usize, b: usize)
    requires
        a <= b <= s.len(),
    ensures
        final(out)@ == old(out)@ + without_leading_zeros(s@.subrange(a as int, b as int)),
{
    let mut z = a;
    while b > 0 && z < b - 1 && s[z] == '0'
        invariant
            a <= z <= b <= s.len(),
            without_leading_zeros(s@.subrange(a as int, b as int)) == without_leading_zeros(
                s@.subrange(z as int, b as int),
            ),
        decreases b - z,
    {
        assert(s@.subrange(z as int, b as int).drop_first() =~= s@.subrange(z + 1, b as int));
        z += 1;
    }
    assert(without_leading_zeros(s@.subrange(z as int, b as int)) == s@.subrange(z as int, b as int));
    crate::text::push_range(out, s, z, b);
}

/// Appends the fields of the whole number token at `j`.
pub fn push_number_fields(out: &mut String, s: &Vec<char>, j: usize)
    requires
        whole_number_at(s@, j as int),
        s.len() < usize::MAX,
    ensures
        final(out)@ == old(out)@ + number_fields(s@, j as int),
{
    proof {
        reveal_strlit("true");
        reveal_strlit("false");
    }
    let c = s[j];
    let d0 = if c == '+' || c == '-' { j + 1 } else { j };
    let e = digits_end_exec(s, d0);
    let mut v = String::new();
    push_without_leading_zeros(&mut v, s, d0, e);
    let neg = c == '-';
    let zero = v.as_str().unicode_len() == 1 && v.as_str().get_char(0) == '0';
    assert(zero == (v@ == seq!['0'])) by {
        if v@.len() == 1 && v@[0] == '0' {
            assert(v@ =~= seq!['0']);
        }
    }
    let ghost start = out@;
    push_str(out, "has_sign: ");
    if d0 > j {
        push_str(out, "true");
    } else {
        push_str(out, "false");
    }
    push_str(out, ", value: ");
    if neg {
        string_push(out, '-');
    }
    push_str(out, v.as_str());
    push_str(out, ".0, int_value: Some(");
    if neg && !zero {
        string_push(out, '-');
    }
    push_str(out, v.as_str());
    push_str(out, ")");
    proof {
        let vs = v@;
        let value = if neg { seq!['-'] + vs } else { vs };
        let int_value = if neg && vs != seq!['0'] { seq!['-'] + vs } else { vs };
        assert(out@ =~= start + ("has_sign: "@ + (if d0 > j { "true"@ } else { "false"@ }) + ", value: "@
            + value + ".0, int_value: Some("@ + int_value + ")"@));
    }
}

pub fn token_desc_exec(s: &Vec<char>, j: usize) -> (r: String)
    requires
        j < s.len() < usize::MAX,
    ensures
        r@ == token_desc(s@, j as int),
{
    let c = s[j];
    let mut out = String::new();
    if c == '{' {
        push_str(&mut out, "CurlyBracketBlock");
    } else if c == '(' {
        push_str(&mut out, "ParenthesisBlock");
    } else if c == '[' {
        push_str(&mut out, "SquareBracketBlock");
    } else if c == ';' {
        push_str(&mut out, "Semicolon");
    } else if c == ',' {
        push_str(&mut out, "Comma");
    } else if c == ':' {
        push_str(&mut out, "Colon");
    } else if c == '}' {
        push_str(&mut out, "CloseCurlyBracket");
    } else if c == ')' {
        push_str(&mut out, "CloseParenthesis");
    } else if c == ']' {
        push_str(&mut out, "CloseSquareBracket");
    } else if ident_starts_exec(s, j) {
        let e = name_end_exec(s, j);
        proof {
            lemma_name_end(s@, j as int);
        }
        if e < s.len() && s[e] == '(' {
            push_str(&mut out, "Function(");
        } else {
            push_str(&mut out, "Ident(");
        }
        push_quoted(&mut out, s, j, e);
        push_str(&mut out, ")");
    } else if c == '@' && ident_starts_exec(s, j + 1) {
        let e = name_end_exec(s, j + 1);
        proof {
            lemma_name_end(s@, j + 1);
        }
        push_str(&mut out, "AtKeyword(");
        push_quoted(&mut out, s, j + 1, e);
        push_str(&mut out, ")");
    } else if c == '#' && ident_starts_exec(s, j + 1) {
        let e = name_end_exec(s, j + 1);
        proof {
            lemma_name_end(s@, j + 1);
        }
        push_str(&mut out, "IDHash(");
        push_quoted(&mut out, s, j + 1, e);
        push_str(&mut out, ")");
    } else if c == '#' && j + 1 < s.len() && (name_char(s[j + 1]) || escape_at_exec(s, j + 1)) {
        let e = name_end_exec(s, j + 1);
        proof {
            lemma_name_end(s@, j + 1);
        }
        push_str(&mut out, "Hash(");
        push_quoted(&mut out, s, j + 1, e);
        push_str(&mut out, ")");
    } else if (c == '"' || c == '\'') && plain_string_end_exec(s, j + 1, c) < s.len() && s[plain_string_end_exec(
        s,
        j + 1,
        c,
    )] == c {
        let k = plain_string_end_exec(s, j + 1, c);
        push_str(&mut out, "QuotedString(");
        push_quoted(&mut out, s, j + 1, k);
        push_str(&mut out, ")");
    } else if whole_number_at_exec(s, j) {
        let d0 = if c == '+' || c == '-' { j + 1 } else { j };
        let e = digits_end_exec(s, d0);
        if ident_starts_exec(s, e) {
            let u = name_end_exec(s, e);
            proof {
                lemma_name_end(s@, e as int);
            }
            push_str(&mut out, "Dimension { ");
            push_number_fields(&mut out, s, j);
            push_str(&mut out, ", unit: ");
            push_quoted(&mut out, s, e, u);
            push_str(&mut out, " }");
        } else {
            push_str(&mut out, "Number { ");
            push_number_fields(&mut out, s, j);
            push_str(&mut out, " }");
        }
    } else {
        push_str(&mut out, "Delim('");
        string_push(&mut out, c);
        push_str(&mut out, "')");
    }
    proof {
        assert(out@ =~= token_desc(s@, j as int));
    }
    out
}

// ---------------------------------------------------------------------------------------
// Declarations
// ---------------------------------------------------------------------------------------

/// A `name: value` declaration; the value is the raw text after the colon.
#[derive(Debug)]
pub struct Declaration {
    pub name: String,
    pub value: String,
}

impl View for Declaration {
    type V = (Seq<char>, Seq<char>);

    open spec fn view(&self) -> (Seq<char>, Seq<char>) {
        (self.name@, self.value@)
    }
}

/// One item of a declaration list.
#[derive(Debug)]
pub enum DeclItem {
    Decl(Declaration),
    Error(SyntaxError),
}

pub enum SpecDeclItem {
    Decl(Seq<char>, Seq<char>),
    Error(SpecSyntaxError),
}

impl View for DeclItem {
    type V = SpecDeclItem;

    open spec fn view(&self) -> SpecDeclItem {
        match self {
            DeclItem::Decl(d) => SpecDeclItem::Decl(d.name@, d.value@),
            DeclItem::Error(e) => SpecDeclItem::Error(e@),
        }
    }
}

/// Skips what separates declarations: whitespace, comments, `;` and stray `}`.
pub open spec fn skip_decl_sep(s: Seq<char>, i: int) -> int
    decreases s.len() - i,
{
    if 0 <= i < s.len() && (is_css_ws(s[i]) || s[i] == ';' || s[i] == '}') {
        skip_decl_sep(s, i + 1)
    } else if comment_at(s, i) {
        proof {
            lemma_comment_end(s, i + 2);
        }
        skip_decl_sep(s, comment_end(s, i + 2))
    } else {
        i
    }
}

/// A declaration-list item starts at `i`: it is in range and not a separator.
pub open spec fn decl_start(s: Seq<char>, i: int) -> bool {
    &&& 0 <= i < s.len()
    &&& !(is_css_ws(s[i]) || s[i] == ';' || s[i] == '}')
    &&& !comment_at(s, i)
}

pub proof fn lemma_skip_decl_sep(s: Seq<char>, i: int)
    requires
        0 <= i <= s.len(),
    ensures
        i <= skip_decl_sep(s, i) <= s.len(),
        skip_decl_sep(s, i) < s.len() ==> decl_start(s, skip_decl_sep(s, i)),
    decreases s.len() - i,
{
    if 0 <= i < s.len() && (is_css_ws(s[i]) || s[i] == ';' || s[i] == '}') {
        lemma_skip_decl_sep(s, i + 1);
    } else if comment_at(s, i) {
        lemma_comment_end(s, i + 2);
        lemma_skip_decl_sep(s, comment_end(s, i + 2));
    }
}

pub fn skip_decl_sep_exec(s: &Vec<char>, start: usize) -> (r: usize)
    requires
        start <= s.len() < usize::MAX,
    ensures
        r == skip_decl_sep(s@, start as int),
{
    let mut i = start;
    loop
        invariant
            start <= i <= s.len() < usize::MAX,
            skip_decl_sep(s@, start as int) == skip_decl_sep(s@, i as int),
        decreases s.len() - i,
    {
        if i < s.len() && (css_ws(s[i]) || s[i] == ';' || s[i] == '}') {
            i += 1;
        } else if i + 1 < s.len() && s[i] == '/' && s[i + 1] == '*' {
            proof {
                lemma_comment_end(s@, i + 2);
            }
            i = comment_end_exec(s, i + 2);
        } else {
            return i;
        }
    }
}

/// The position after the at-rule that starts at `i`: after its `;`, after its block, or
/// the end of the text.
pub open spec fn at_rule_end(s: Seq<char>, i: int) -> int {
    let p = scan(s, i + 1, Mode::Normal, seq![], ';', '{', false);
    if p < s.len() && s[p] == '{' {
        let q = scan(s, p + 1, Mode::Normal, seq!['}'], ';', '{', true);
        if q > s.len() { s.len() as int } else { q }
    } else if p < s.len() {
        p + 1
    } else {
        s.len() as int
    }
}

pub proof fn lemma_at_rule_end(s: Seq<char>, i: int)
    requires
        0 <= i < s.len(),
    ensures
        i < at_rule_end(s, i) <= s.len(),
{
    lemma_scan_bounds(s, i + 1, Mode::Normal, seq![], ';', '{', false);
    let p = scan(s, i + 1, Mode::Normal, seq![], ';', '{', false);
    if p < s.len() && s[p] == '{' {
        lemma_scan_bounds(s, p + 1, Mode::Normal, seq!['}'], ';', '{', true);
    }
}

pub fn at_rule_end_exec(s: &Vec<char>, i: usize) -> (r: usize)
    requires
        i < s.len() < usize::MAX,
    ensures
        r == at_rule_end(s@, i as int),
{
    proof {
        lemma_scan_bounds(s@, i + 1, Mode::Normal, seq![], ';', '{', false);
    }
    let p = scan_exec(s, i + 1, Mode::Normal, Vec::new(), ';', '{', false);
    if p < s.len() && s[p] == '{' {
        proof {
            lemma_scan_bounds(s@, p + 1, Mode::Normal, seq!['}'], ';', '{', true);
        }
        let mut st: Vec<char> = Vec::new();
        st.push('}');
        assert(st@ =~= seq!['}']);
        let q = scan_exec(s, p + 1, Mode::Normal, st, ';', '{', true);
        if q > s.len() {
            s.len()
        } else {
            q
        }
    } else if p < s.len() {
        p + 1
    } else {
        s.len()
    }
}

/// Reading a rule where only declarations are allowed, from `i`: the position after the
/// rule, and the error it gives when `i` does not start a declaration.
pub open spec fn rule_skip(s: Seq<char>, i: int) -> (int, SpecSyntaxError) {
    let p = scan(s, i, Mode::Normal, seq![], ';', '{', false);
    if p < s.len() && s[p] == '{' {
        let q = scan(s, p + 1, Mode::Normal, seq!['}'], ';', '{', true);
        (if q > s.len() { s.len() as int } else { q }, SpecSyntaxError::QualifiedRuleInvalid)
    } else if p < s.len() {
        (p, SpecSyntaxError::UnexpectedToken("Semicolon"@))
    } else {
        (s.len() as int, SpecSyntaxError::EndOfInput)
    }
}

pub proof fn lemma_rule_skip(s: Seq<char>, i: int)
    requires
        0 <= i < s.len(),
        s[i] != ';',
    ensures
        i < rule_skip(s, i).0 <= s.len(),
{
    lemma_scan_bounds(s, i, Mode::Normal, seq![], ';', '{', false);
    let p = scan(s, i, Mode::Normal, seq![], ';', '{', false);
    if p < s.len() && s[p] == '{' {
        lemma_scan_bounds(s, p + 1, Mode::Normal, seq!['}'], ';', '{', true);
    }
}

pub fn rule_skip_exec(s: &Vec<char>, i: usize) -> (r: (usize, SyntaxError))
    requires
        i < s.len() < usize::MAX,
    ensures
        r.0 == rule_skip(s@, i as int).0,
        r.1@ == rule_skip(s@, i as int).1,
{
    proof {
        lemma_scan_bounds(s@, i as int, Mode::Normal, seq![], ';', '{', false);
    }
    let p = scan_exec(s, i, Mode::Normal, Vec::new(), ';', '{', false);
    if p < s.len() && s[p] == '{' {
        proof {
            lemma_scan_bounds(s@, p + 1, Mode::Normal, seq!['}'], ';', '{', true);
        }
        let mut st: Vec<char> = Vec::new();
        st.push('}');
        assert(st@ =~= seq!['}']);
        let q = scan_exec(s, p + 1, Mode::Normal, st, ';', '{', true);
        (if q > s.len() { s.len() } else { q }, SyntaxError::QualifiedRuleInvalid)
    } else if p < s.len() {
        let mut t = String::new();
        push_str(&mut t, "Semicolon");
        (p, SyntaxError::UnexpectedToken(t))
    } else {
        (s.len(), SyntaxError::EndOfInput)
    }
}

/// The item read at `i`, which is not a separator, and the position after it.
pub open spec fn decl_step(s: Seq<char>, i: int) -> (SpecDeclItem, int) {
    if s[i] == '@' && ident_starts(s, i + 1) {
        (
            SpecDeclItem::Error(
                SpecSyntaxError::AtRuleInvalid(s.subrange(i + 1, name_end(s, i + 1))),
            ),
            at_rule_end(s, i),
        )
    } else if ident_starts(s, i) && !(name_end(s, i) < s.len() && s[name_end(s, i)] == '(') {
        let e = name_end(s, i);
        let j = skip_ws(s, e);
        if j < s.len() && s[j] == ':' {
            let v = scan(s, j + 1, Mode::Normal, seq![], ';', ';', false);
            (
                SpecDeclItem::Decl(s.subrange(i, e), s.subrange(j + 1, v)),
                if v < s.len() { v + 1 } else { s.len() as int },
            )
        } else if j >= s.len() || s[j] == ';' {
            (SpecDeclItem::Error(SpecSyntaxError::EndOfInput), rule_skip(s, i).0)
        } else {
            (
                SpecDeclItem::Error(SpecSyntaxError::UnexpectedToken(token_desc(s, j))),
                rule_skip(s, i).0,
            )
        }
    } else {
        (SpecDeclItem::Error(rule_skip(s, i).1), rule_skip(s, i).0)
    }
}

pub proof fn lemma_decl_step(s: Seq<char>, i: int)
    requires
        decl_start(s, i),
    ensures
        i < decl_step(s, i).1 <= s.len(),
{
    if s[i] == '@' && ident_starts(s, i + 1) {
        lemma_at_rule_end(s, i);
    } else if ident_starts(s, i) && !(name_end(s, i) < s.len() && s[name_end(s, i)] == '(') {
        lemma_name_end(s, i);
        let e = name_end(s, i);
        lemma_skip_ws(s, e);
        let j = skip_ws(s, e);
        if j < s.len() && s[j] == ':' {
            lemma_scan_bounds(s, j + 1, Mode::Normal, seq![], ';', ';', false);
        } else {
            lemma_rule_skip(s, i);
        }
    } else {
        lemma_rule_skip(s, i);
    }
}

/// The items of the declaration list `s` from `i`.
pub open spec fn parse_decls(s: Seq<char>, i: int) -> Seq<SpecDeclItem>
    decreases s.len() - i,
{
    if 0 <= i <= s.len() {
        let j = skip_decl_sep(s, i);
        if j < s.len() {
            proof {
                lemma_skip_decl_sep(s, i);
                lemma_decl_step(s, j);
            }
            seq![decl_step(s, j).0] + parse_decls(s, decl_step(s, j).1)
        } else {
            seq![]
        }
    } else {
        seq![]
    }
}

/// All the items of a declaration list.
pub open spec fn declaration_list(s: Seq<char>) -> Seq<SpecDeclItem> {
    parse_decls(s, 0)
}

pub fn decl_step_exec(s: &Vec<char>, i: usize) -> (r: (DeclItem, usize))
    requires
        i < s.len() < usize::MAX,
        decl_start(s@, i as int),
    ensures
        r.0@ == decl_step(s@, i as int).0,
        r.1 == decl_step(s@, i as int).1,
{
    proof {
        lemma_decl_step(s@, i as int);
    }
    if s[i] == '@' && ident_starts_exec(s, i + 1) {
        let e = name_end_exec(s, i + 1);
        proof {
            lemma_name_end(s@, i + 1);
        }
        let mut name = String::new();
        push_range(&mut name, s, i + 1, e);
        return (DeclItem::Error(SyntaxError::AtRuleInvalid(name)), at_rule_end_exec(s, i));
    }
    let is_ident = ident_starts_exec(s, i);
    let mut e = i;
    let mut is_function = false;
    if is_ident {
        e = name_end_exec(s, i);
        proof {
            lemma_name_end(s@, i as int);
        }
        is_function = e < s.len() && s[e] == '(';
    }
    if is_ident && !is_function {
        proof {
            lemma_skip_ws(s@, e as int);
        }
        let j = skip_ws_exec(s, e);
        if j < s.len() && s[j] == ':' {
            proof {
                lemma_scan_bounds(s@, j + 1, Mode::Normal, seq![], ';', ';', false);
            }
            let v = scan_exec(s, j + 1, Mode::Normal, Vec::new(), ';', ';', false);
            let mut name = String::new();
            push_range(&mut name, s, i, e);
            let mut value = String::new();
            push_range(&mut value, s, j + 1, v);
            let next = if v < s.len() {
                v + 1
            } else {
                s.len()
            };
            (DeclItem::Decl(Declaration { name, value }), next)
        } else if j >= s.len() || s[j] == ';' {
            let (next, _) = rule_skip_exec(s, i);
            (DeclItem::Error(SyntaxError::EndOfInput), next)
        } else {
            let (next, _) = rule_skip_exec(s, i);
            (DeclItem::Error(SyntaxError::UnexpectedToken(token_desc_exec(s, j))), next)
        }
    } else {
        let (next, err) = rule_skip_exec(s, i);
        (DeclItem::Error(err), next)
    }
}

/// Reads a declaration list, such as the value of a `style` attribute.
pub fn parse_declaration_list(s: &Vec<char>) -> (r: Vec<DeclItem>)
    requires
        s.len() < usize::MAX,
    ensures
        r@.map_values(|d: DeclItem| d@) == declaration_list(s@),
{
    let mut out: Vec<DeclItem> = Vec::new();
    let mut i: usize = 0;
    while i < s.len()
        invariant
            i <= s.len() < usize::MAX,
            declaration_list(s@) == out@.map_values(|d: DeclItem| d@) + parse_decls(s@, i as int),
        decreases s.len() - i,
    {
        proof {
            lemma_skip_decl_sep(s@, i as int);
        }
        let j = skip_decl_sep_exec(s, i);
        if j >= s.len() {
            proof {
                assert(parse_decls(s@, i as int) =~= seq![]);
                assert(parse_decls(s@, s.len() as int) =~= seq![]);
            }
            i = s.len();
        } else {
            proof {
                lemma_decl_step(s@, j as int);
            }
            let (item, next) = decl_step_exec(s, j);
            let ghost before = out@.map_values(|d: DeclItem| d@);
            out.push(item);
            proof {
                assert(out@.map_values(|d: DeclItem| d@) =~= before.push(decl_step(s@, j as int).0));
                assert(parse_decls(s@, i as int) == seq![decl_step(s@, j as int).0] + parse_decls(
                    s@,
                    next as int,
                ));
                assert(declaration_list(s@) =~= out@.map_values(|d: DeclItem| d@) + parse_decls(
                    s@,
                    next as int,
                ));
            }
            i = next;
        }
    }
    proof {
        assert(parse_decls(s@, i as int) =~= seq![]);
    }
    out
}
} // verus!
