use vstd::prelude::*;

use crate::span::Span;
use crate::text::chars_of;

verus! {

pub open spec fn is_space(c: char) -> bool {
    c == ' ' || c == '\t' || c == '\n' || c == '\r'
}

pub open spec fn is_inline_space(c: char) -> bool {
    c == ' ' || c == '\t'
}

pub open spec fn is_line_break(c: char) -> bool {
    c == '\n' || c == '\r'
}

pub open spec fn is_digit(c: char) -> bool {
    '0' <= c <= '9'
}

pub open spec fn is_ident_start(c: char) -> bool {
    ('a' <= c <= 'z') || ('A' <= c <= 'Z') || c == '_'
}

pub open spec fn is_ident_char(c: char) -> bool {
    is_ident_start(c) || is_digit(c)
}

/// The characters that operators are made of.
pub open spec fn is_operator_char(c: char) -> bool {
    c == '+' || c == '-' || c == '*' || c == '/' || c == '=' || c == '<' || c == '>' || c == '&'
        || c == '|' || c == '!' || c == '?' || c == '$' || c == '@'
}

pub fn space_char(c: char) -> (r: bool)
    ensures
        r == is_space(c),
{
    c == ' ' || c == '\t' || c == '\n' || c == '\r'
}

pub fn inline_space_char(c: char) -> (r: bool)
    ensures
        r == is_inline_space(c),
{
    c == ' ' || c == '\t'
}

pub fn digit_char(c: char) -> (r: bool)
    ensures
        r == is_digit(c),
{
    '0' <= c && c <= '9'
}

pub fn ident_start_char(c: char) -> (r: bool)
    ensures
        r == is_ident_start(c),
{
    ('a' <= c && c <= 'z') || ('A' <= c && c <= 'Z') || c == '_'
}

pub fn ident_char(c: char) -> (r: bool)
    ensures
        r == is_ident_char(c),
{
    ident_start_char(c) || digit_char(c)
}

pub fn operator_char(c: char) -> (r: bool)
    ensures
        r == is_operator_char(c),
{
    c == '+' || c == '-' || c == '*' || c == '/' || c == '=' || c == '<' || c == '>' || c == '&'
        || c == '|' || c == '!' || c == '?' || c == '$' || c == '@'
}

/// The characters of which operators are made, as a list.
pub fn accepted_operator_chars() -> (r: Vec<char>)
    ensures
        forall|c: char| is_operator_char(c) <==> r@.contains(c),
{
    let r = vec!['+', '-', '/', '*', '|', '<', '>', '=', '!', '$', '@', '&', '?'];
    proof {
        assert forall|c: char| is_operator_char(c) implies r@.contains(c) by {
            if c == '+' { assert(r@[0] == c); }
            else if c == '-' { assert(r@[1] == c); }
            else if c == '/' { assert(r@[2] == c); }
            else if c == '*' { assert(r@[3] == c); }
            else if c == '|' { assert(r@[4] == c); }
            else if c == '<' { assert(r@[5] == c); }
            else if c == '>' { assert(r@[6] == c); }
            else if c == '=' { assert(r@[7] == c); }
            else if c == '!' { assert(r@[8] == c); }
            else if c == '$' { assert(r@[9] == c); }
            else if c == '@' { assert(r@[10] == c); }
            else if c == '&' { assert(r@[11] == c); }
            else { assert(r@[12] == c); }
        }
    }
    r
}

/// The end of the line that `p` is on: the first line break at or after `p`.
pub open spec fn line_end(s: Seq<char>, p: int) -> int
    decreases s.len() - p,
{
    if p < 0 || p >= s.len() || is_line_break(s[p]) {
        p
    } else {
        line_end(s, p + 1)
    }
}

/// Where the blank run starting at `p` ends: whitespace and `#` comments
/// (which run to the end of their line) are blank.
pub open spec fn blank_end(s: Seq<char>, p: int) -> int
    decreases s.len() - p,
    via blank_end_decreases
{
    if p < 0 || p >= s.len() {
        p
    } else if is_space(s[p]) {
        blank_end(s, p + 1)
    } else if s[p] == '#' {
        if line_end(s, p + 1) < s.len() {
            blank_end(s, line_end(s, p + 1))
        } else {
            s.len() as int
        }
    } else {
        p
    }
}

/// Where the run of spaces and tabs that starts at `p` ends.
pub open spec fn spaces_end(s: Seq<char>, p: int) -> int
    decreases s.len() - p,
{
    if p < 0 || p >= s.len() || !is_inline_space(s[p]) {
        p
    } else {
        spaces_end(s, p + 1)
    }
}

/// Where the run of identifier characters that starts at `p` ends.
pub open spec fn ident_end(s: Seq<char>, p: int) -> int
    decreases s.len() - p,
{
    if p < 0 || p >= s.len() || !is_ident_char(s[p]) {
        p
    } else {
        ident_end(s, p + 1)
    }
}

pub proof fn lemma_ident_end_bounds(s: Seq<char>, p: int)
    requires
        0 <= p <= s.len(),
    ensures
        p <= ident_end(s, p) <= s.len(),
        p < s.len() && is_ident_char(s[p]) ==> p < ident_end(s, p),
    decreases s.len() - p,
{
    if p < s.len() && is_ident_char(s[p]) {
        lemma_ident_end_bounds(s, p + 1);
    }
}

pub proof fn lemma_digits_end_bounds(s: Seq<char>, p: int)
    requires
        0 <= p <= s.len(),
    ensures
        p <= digits_end(s, p) <= s.len(),
        p < s.len() && is_digit(s[p]) ==> p < digits_end(s, p),
    decreases s.len() - p,
{
    if p < s.len() && is_digit(s[p]) {
        lemma_digits_end_bounds(s, p + 1);
    }
}

/// Where the run of digits that starts at `p` ends.
pub open spec fn digits_end(s: Seq<char>, p: int) -> int
    decreases s.len() - p,
{
    if p < 0 || p >= s.len() || !is_digit(s[p]) {
        p
    } else {
        digits_end(s, p + 1)
    }
}

#[via_fn]
proof fn blank_end_decreases(s: Seq<char>, p: int) {
    if 0 <= p < s.len() {
        lemma_line_end_bounds(s, p + 1);
    }
}

pub proof fn lemma_line_end_bounds(s: Seq<char>, p: int)
    requires
        0 <= p <= s.len(),
    ensures
        p <= line_end(s, p) <= s.len(),
    decreases s.len() - p,
{
    if p < s.len() && !is_line_break(s[p]) {
        lemma_line_end_bounds(s, p + 1);
    }
}

pub proof fn lemma_blank_end_bounds(s: Seq<char>, p: int)
    requires
        0 <= p <= s.len(),
    ensures
        p <= blank_end(s, p) <= s.len(),
    decreases s.len() - p,
{
    if p < s.len() {
        if is_space(s[p]) {
            lemma_blank_end_bounds(s, p + 1);
        } else if s[p] == '#' {
            lemma_line_end_bounds(s, p + 1);
            if line_end(s, p + 1) < s.len() {
                lemma_blank_end_bounds(s, line_end(s, p + 1));
            }
        }
    }
}

/// Where a blank run ends, nothing blank starts.
pub proof fn lemma_blank_end_stops(s: Seq<char>, p: int)
    requires
        0 <= p <= s.len(),
    ensures
        blank_end(s, blank_end(s, p)) == blank_end(s, p),
    decreases s.len() - p,
{
    if p < s.len() {
        if is_space(s[p]) {
            lemma_blank_end_stops(s, p + 1);
        } else if s[p] == '#' {
            lemma_line_end_bounds(s, p + 1);
            if line_end(s, p + 1) < s.len() {
                lemma_blank_end_stops(s, line_end(s, p + 1));
            }
        }
    }
}

/// Skips whitespace and comments.
pub fn skip_blank(s: &Vec<char>, pos: usize) -> (r: usize)
    requires
        pos <= s@.len(),
    ensures
        r as int == blank_end(s@, pos as int),
        pos <= r <= s@.len(),
{
    let mut p = pos;
    proof {
        lemma_blank_end_bounds(s@, pos as int);
    }
    loop
        invariant
            pos <= p <= s@.len(),
            blank_end(s@, p as int) == blank_end(s@, pos as int),
        decreases s@.len() - p,
    {
        if p >= s.len() {
            return p;
        }
        let c = s[p];
        if space_char(c) {
            p = p + 1;
        } else if c == '#' {
            let mut q = p + 1;
            while q < s.len() && s[q] != '\n' && s[q] != '\r'
                invariant
                    p < q <= s@.len(),
                    line_end(s@, q as int) == line_end(s@, p as int + 1),
                decreases s@.len() - q,
            {
                q = q + 1;
            }
            if q >= s.len() {
                return q;
            }
            p = q;
        } else {
            return p;
        }
    }
}

/// Skips spaces and tabs.
pub fn skip_spaces(s: &Vec<char>, pos: usize) -> (r: usize)
    requires
        pos <= s@.len(),
    ensures
        r as int == spaces_end(s@, pos as int),
        pos <= r <= s@.len(),
{
    let mut p = pos;
    while p < s.len() && inline_space_char(s[p])
        invariant
            pos <= p <= s@.len(),
            spaces_end(s@, p as int) == spaces_end(s@, pos as int),
        decreases s@.len() - p,
    {
        p = p + 1;
    }
    p
}

/// Skips identifier characters.
pub fn skip_ident_chars(s: &Vec<char>, pos: usize) -> (r: usize)
    requires
        pos <= s@.len(),
    ensures
        r as int == ident_end(s@, pos as int),
        pos <= r <= s@.len(),
{
    let mut p = pos;
    while p < s.len() && ident_char(s[p])
        invariant
            pos <= p <= s@.len(),
            ident_end(s@, p as int) == ident_end(s@, pos as int),
        decreases s@.len() - p,
    {
        p = p + 1;
    }
    p
}

/// Skips digits.
pub fn skip_digits(s: &Vec<char>, pos: usize) -> (r: usize)
    requires
        pos <= s@.len(),
    ensures
        r as int == digits_end(s@, pos as int),
        pos <= r <= s@.len(),
{
    let mut p = pos;
    while p < s.len() && digit_char(s[p])
        invariant
            pos <= p <= s@.len(),
            digits_end(s@, p as int) == digits_end(s@, pos as int),
        decreases s@.len() - p,
    {
        p = p + 1;
    }
    p
}

/// Whether `lit` is written in `s` at `p`.
pub open spec fn matches_at(s: Seq<char>, p: int, lit: Seq<char>) -> bool {
    0 <= p && p + lit.len() <= s.len() && s.subrange(p, p + lit.len()) == lit
}

pub fn text_at(s: &Vec<char>, pos: usize, lit: &Vec<char>) -> (r: bool)
    requires
        pos <= s@.len(),
    ensures
        r == matches_at(s@, pos as int, lit@),
{
    let n = s.len();
    if lit.len() > n - pos {
        return false;
    }
    let mut i: usize = 0;
    while i < lit.len()
        invariant
            n == s@.len(),
            pos + lit@.len() <= s@.len(),
            i <= lit@.len(),
            forall|j: int| 0 <= j < i ==> s@[pos + j] == lit@[j],
        decreases lit@.len() - i,
    {
        if s[pos + i] != lit[i] {
            proof {
                assert(s@.subrange(pos as int, pos + lit@.len())[i as int] != lit@[i as int]);
            }
            return false;
        }
        i = i + 1;
    }
    proof {
        assert(s@.subrange(pos as int, pos + lit@.len()) =~= lit@);
    }
    true
}

/// The words that cannot name anything.
pub open spec fn is_keyword(w: Seq<char>) -> bool {
    w == seq!['a', 's'] || w == seq!['e', 'l', 's', 'e'] || w == seq!['e', 'x', 'p', 'o', 'r', 't']
        || w == seq!['f', 'o', 'r'] || w == seq!['f', 'o', 'r', 'e', 'i', 'g', 'n'] || w == seq![
        'i',
        'f',
    ] || w == seq!['i', 'n'] || w == seq!['i', 'm', 'p', 'o', 'r', 't'] || w == seq![
        't',
        'y',
        'p',
        'e',
    ]
}

fn word_is(s: &Vec<char>, from: usize, to: usize, w: &str) -> (r: bool)
    requires
        from <= to <= s@.len(),
    ensures
        r == (s@.subrange(from as int, to as int) == w@),
{
    let lit = chars_of(w);
    if lit.len() != to - from {
        proof {
            assert(s@.subrange(from as int, to as int).len() != w@.len());
        }
        return false;
    }
    text_at(s, from, &lit)
}

/// Whether `s[from..to]` is a keyword.
pub fn keyword_at(s: &Vec<char>, from: usize, to: usize) -> (r: bool)
    requires
        from <= to <= s@.len(),
    ensures
        r == is_keyword(s@.subrange(from as int, to as int)),
{
    proof {
        reveal_strlit("as");
        reveal_strlit("else");
        reveal_strlit("export");
        reveal_strlit("for");
        reveal_strlit("foreign");
        reveal_strlit("if");
        reveal_strlit("in");
        reveal_strlit("import");
        reveal_strlit("type");
        assert("as"@ =~= seq!['a', 's']);
        assert("else"@ =~= seq!['e', 'l', 's', 'e']);
        assert("export"@ =~= seq!['e', 'x', 'p', 'o', 'r', 't']);
        assert("for"@ =~= seq!['f', 'o', 'r']);
        assert("foreign"@ =~= seq!['f', 'o', 'r', 'e', 'i', 'g', 'n']);
        assert("if"@ =~= seq!['i', 'f']);
        assert("in"@ =~= seq!['i', 'n']);
        assert("import"@ =~= seq!['i', 'm', 'p', 'o', 'r', 't']);
        assert("type"@ =~= seq!['t', 'y', 'p', 'e']);
    }
    word_is(s, from, to, "as") || word_is(s, from, to, "else") || word_is(s, from, to, "export")
        || word_is(s, from, to, "for") || word_is(s, from, to, "foreign") || word_is(
        s,
        from,
        to,
        "if",
    ) || word_is(s, from, to, "in") || word_is(s, from, to, "import") || word_is(
        s,
        from,
        to,
        "type",
    )
}

/// Where the word `w` ends if it is written at `p` and is not the start of a
/// longer word.
pub open spec fn word_end(s: Seq<char>, p: int, w: Seq<char>) -> Option<int> {
    if matches_at(s, p, w) && !(p + w.len() < s.len() && is_ident_char(s[p + w.len()])) {
        Some(p + w.len())
    } else {
        None
    }
}

/// Matches the word `w` at `pos`, not followed by an identifier character.
pub fn word(s: &Vec<char>, pos: usize, w: &str) -> (r: Option<usize>)
    requires
        pos <= s@.len(),
    ensures
        match r {
            Some(p) => word_end(s@, pos as int, w@) == Some(p as int) && pos <= p <= s@.len(),
            None => word_end(s@, pos as int, w@).is_none(),
        },
{
    let n = s.len();
    let lit = chars_of(w);
    if !text_at(s, pos, &lit) {
        return None;
    }
    let end = pos + lit.len();
    if end < s.len() && ident_char(s[end]) {
        None
    } else {
        Some(end)
    }
}

/// The keyword `kw` after any blank: where it ends.
pub fn keyword(s: &Vec<char>, pos: usize, kw: &str) -> (r: Option<usize>)
    requires
        pos <= s@.len(),
    ensures
        match r {
            Some(p) => word_end(s@, blank_end(s@, pos as int), kw@) == Some(p as int) && pos <= p
                <= s@.len(),
            None => word_end(s@, blank_end(s@, pos as int), kw@).is_none(),
        },
{
    let q = skip_blank(s, pos);
    word(s, q, kw)
}

/// Where the sign `sg` ends if it is written at `p`. A sign made of operator
/// characters must not be followed by `=`, which would make it another operator.
pub open spec fn sign_end(s: Seq<char>, p: int, sg: Seq<char>) -> Option<int> {
    if matches_at(s, p, sg) && !(sg.len() > 0 && is_operator_char(sg.last()) && p + sg.len()
        < s.len() && s[p + sg.len()] == '=') {
        Some(p + sg.len())
    } else {
        None
    }
}

/// The sign `sg` after any blank: where it ends.
pub fn sign(s: &Vec<char>, pos: usize, sg: &str) -> (r: Option<usize>)
    requires
        pos <= s@.len(),
    ensures
        match r {
            Some(p) => sign_end(s@, blank_end(s@, pos as int), sg@) == Some(p as int) && pos <= p
                <= s@.len(),
            None => sign_end(s@, blank_end(s@, pos as int), sg@).is_none(),
        },
{
    let n = s.len();
    let q = skip_blank(s, pos);
    let lit = chars_of(sg);
    if !text_at(s, q, &lit) {
        return None;
    }
    let end = q + lit.len();
    if lit.len() > 0 && operator_char(lit[lit.len() - 1]) && end < s.len() && s[end] == '=' {
        None
    } else {
        Some(end)
    }
}

/// One line break, `\n` or `\r\n`: where it ends.
pub fn line_ending(s: &Vec<char>, pos: usize) -> (r: Option<usize>)
    requires
        pos <= s@.len(),
    ensures
        match r {
            Some(p) => (pos < s@.len() && s@[pos as int] == '\n' && p == pos + 1) || (pos + 1
                < s@.len() && s@[pos as int] == '\r' && s@[pos + 1] == '\n' && p == pos + 2),
            None => !(pos < s@.len() && s@[pos as int] == '\n') && !(pos + 1 < s@.len()
                && s@[pos as int] == '\r' && s@[pos + 1] == '\n'),
        },
{
    if pos < s.len() && s[pos] == '\n' {
        Some(pos + 1)
    } else if s.len() - pos >= 2 && s[pos] == '\r' && s[pos + 1] == '\n' {
        Some(pos + 2)
    } else {
        None
    }
}

/// The line break written at `q`, `\n` or `\r\n`: where it ends.
pub open spec fn line_break_at(s: Seq<char>, q: int) -> Option<int> {
    if 0 <= q < s.len() && s[q] == '\n' {
        Some(q + 1)
    } else if 0 <= q && q + 1 < s.len() && s[q] == '\r' && s[q + 1] == '\n' {
        Some(q + 2)
    } else {
        None
    }
}

/// Where one or more line breaks from `p`, with spaces and tabs between
/// them, end; `None` if no line break comes first.
pub open spec fn breaks_from(s: Seq<char>, p: int) -> Option<int>
    decreases s.len() - p,
{
    match line_break_at(s, spaces_end(s, p)) {
        Some(n) => if p < n <= s.len() {
            Some(
                match breaks_from(s, n) {
                    Some(m) => m,
                    None => n,
                },
            )
        } else {
            None
        },
        None => None,
    }
}

pub proof fn lemma_spaces_end_bounds(s: Seq<char>, p: int)
    requires
        0 <= p <= s.len(),
    ensures
        p <= spaces_end(s, p) <= s.len(),
    decreases s.len() - p,
{
    if p < s.len() && is_inline_space(s[p]) {
        lemma_spaces_end_bounds(s, p + 1);
    }
}

/// Skips one or more line breaks, with any spaces and tabs between them: the
/// position at the start of the next line that is not empty, or `None` if no
/// line break comes first.
pub fn line_breaks(s: &Vec<char>, pos: usize) -> (r: Option<usize>)
    requires
        pos <= s@.len(),
    ensures
        match r {
            Some(p) => pos < p <= s@.len() && (s@[p - 1] == '\n') && breaks_from(s@, pos as int) == Some(
                p as int,
            ),
            None => breaks_from(s@, pos as int) is None,
        },
{
    let q = skip_spaces(s, pos);
    proof {
        lemma_spaces_end_bounds(s@, pos as int);
    }
    let mut p = match line_ending(s, q) {
        Some(p) => p,
        None => return None,
    };
    loop
        invariant
            pos < p <= s@.len(),
            s@[p - 1] == '\n',
            breaks_from(s@, pos as int) == Some(
                match breaks_from(s@, p as int) {
                    Some(m) => m,
                    None => p as int,
                },
            ),
        decreases s@.len() - p,
    {
        proof {
            lemma_spaces_end_bounds(s@, p as int);
        }
        let q = skip_spaces(s, p);
        match line_ending(s, q) {
            Some(next) => {
                p = next;
            },
            None => {
                return Some(p);
            },
        }
    }
}

/// The number of line breaks (`\n`) in `s[..p]`.
pub open spec fn newlines_before(s: Seq<char>, p: int) -> nat
    decreases p,
{
    if p <= 0 || p > s.len() {
        0
    } else {
        newlines_before(s, p - 1) + if s[p - 1] == '\n' { 1nat } else { 0nat }
    }
}

/// Where the line that holds `s[p]` starts.
pub open spec fn line_start(s: Seq<char>, p: int) -> int
    decreases p,
{
    if p <= 0 || p > s.len() {
        0
    } else if s[p - 1] == '\n' {
        p
    } else {
        line_start(s, p - 1)
    }
}

/// The span of `s[start..end]`: its offsets, and the line and column (both
/// counted from 0) where it starts. A line number past `u32::MAX` is held at it.
pub fn span_at(s: &Vec<char>, start: usize, end: usize) -> (r: Span)
    requires
        start <= end <= s@.len(),
    ensures
        r.start == start,
        r.end == end,
        r.line as int == if newlines_before(s@, start as int) > u32::MAX {
            u32::MAX as int
        } else {
            newlines_before(s@, start as int) as int
        },
        r.column == start - line_start(s@, start as int),
{
    let mut i: usize = 0;
    let mut lines: usize = 0;
    let mut ls: usize = 0;
    while i < start
        invariant
            i <= start <= s@.len(),
            lines == newlines_before(s@, i as int),
            ls == line_start(s@, i as int),
            ls <= i,
            lines <= i,
        decreases start - i,
    {
        if s[i] == '\n' {
            lines = lines + 1;
            ls = i + 1;
        }
        i = i + 1;
    }
    let line: u32 = if lines > u32::MAX as usize {
        u32::MAX
    } else {
        lines as u32
    };
    Span { start, end, line, column: start - ls }
}

} // verus!
