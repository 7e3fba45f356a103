//! Glob patterns on entry names.
//!
//! A pattern is a sequence of tokens: `?` stands for any one character, `*`
//! for any run of characters (also the empty one), `[...]` for one character
//! out of a class and `[!...]` for one character outside it. Inside a class
//! `a-z` is a range; the first character of a class is taken as it stands,
//! so `[]]` holds the closing bracket. A bracket that is never closed makes
//! the pattern invalid. Every other character stands for itself.

use crate::text::{ascii_lower, ascii_upper, char_at, chars_of, to_lower, to_upper};
use vstd::prelude::*;

verus! {

/// An inclusive range of characters inside a class; a single character is
/// the range from itself to itself.
#[derive(Clone, Copy, Debug, PartialEq, Eq, Structural)]
pub struct CharRange {
    pub lo: char,
    pub hi: char,
}

/// One token of a compiled pattern.
#[derive(Debug)]
pub enum Token {
    Literal(char),
    AnyChar,
    AnySequence,
    AnyWithin(Vec<CharRange>),
    AnyExcept(Vec<CharRange>),
}

/// The mathematical value of a [`Token`].
pub enum TokenModel {
    Literal(char),
    AnyChar,
    AnySequence,
    AnyWithin(Seq<CharRange>),
    AnyExcept(Seq<CharRange>),
}

impl View for Token {
    type V = TokenModel;

    open spec fn view(&self) -> TokenModel {
        match self {
            Token::Literal(c) => TokenModel::Literal(*c),
            Token::AnyChar => TokenModel::AnyChar,
            Token::AnySequence => TokenModel::AnySequence,
            Token::AnyWithin(rs) => TokenModel::AnyWithin(rs@),
            Token::AnyExcept(rs) => TokenModel::AnyExcept(rs@),
        }
    }
}

/// Why a pattern was refused.
#[derive(Clone, Copy, Debug, PartialEq, Eq, Structural)]
pub enum PatternError {
    /// A `[` at this character position has no closing `]`.
    UnclosedClass(usize),
}

/// A compiled glob pattern.
#[derive(Debug)]
pub struct Pattern {
    tokens: Vec<Token>,
}

impl View for Pattern {
    type V = Seq<TokenModel>;

    closed spec fn view(&self) -> Seq<TokenModel> {
        Seq::new(self.tokens@.len(), |i: int| self.tokens@[i]@)
    }
}

/// Whether two characters are the same, up to ASCII case unless
/// `case_sensitive`.
pub open spec fn same_char(a: char, b: char, case_sensitive: bool) -> bool {
    a == b || (!case_sensitive && ascii_lower(a) == ascii_lower(b))
}

/// Whether `c` lies in the range, up to ASCII case unless `case_sensitive`.
pub open spec fn in_range(r: CharRange, c: char, case_sensitive: bool) -> bool {
    let plain = (r.lo as int) <= (c as int) && (c as int) <= (r.hi as int);
    let low = (r.lo as int) <= (ascii_lower(c) as int) && (ascii_lower(c) as int) <= (r.hi as int);
    let up = (r.lo as int) <= (ascii_upper(c) as int) && (ascii_upper(c) as int) <= (r.hi as int);
    plain || (!case_sensitive && (low || up))
}

/// Whether `c` lies in one of the ranges of a class.
pub open spec fn in_class(rs: Seq<CharRange>, c: char, case_sensitive: bool) -> bool {
    exists|k: int| 0 <= k < rs.len() && in_range(#[trigger] rs[k], c, case_sensitive)
}

/// Whether a token other than `*` accepts the character `c`.
pub open spec fn token_accepts(t: TokenModel, c: char, case_sensitive: bool) -> bool {
    match t {
        TokenModel::Literal(x) => same_char(x, c, case_sensitive),
        TokenModel::AnyChar => true,
        TokenModel::AnySequence => false,
        TokenModel::AnyWithin(rs) => in_class(rs, c, case_sensitive),
        TokenModel::AnyExcept(rs) => !in_class(rs, c, case_sensitive),
    }
}

/// Whether the tokens from position `i` on match the name from position `j`
/// on.
pub open spec fn matches_from(
    toks: Seq<TokenModel>,
    i: int,
    name: Seq<char>,
    j: int,
    case_sensitive: bool,
) -> bool
    decreases toks.len() - i, name.len() - j,
{
    if i < 0 || j < 0 || j > name.len() {
        false
    } else if i >= toks.len() {
        j == name.len()
    } else if toks[i] is AnySequence {
        matches_from(toks, i + 1, name, j, case_sensitive) || (j < name.len() && matches_from(
            toks,
            i,
            name,
            j + 1,
            case_sensitive,
        ))
    } else {
        j < name.len() && token_accepts(toks[i], name[j], case_sensitive) && matches_from(
            toks,
            i + 1,
            name,
            j + 1,
            case_sensitive,
        )
    }
}

/// Whether a compiled pattern matches a whole name.
pub open spec fn glob_matches(toks: Seq<TokenModel>, name: Seq<char>, case_sensitive: bool) -> bool {
    matches_from(toks, 0, name, 0, case_sensitive)
}

/// The position of the first `]` at or after `from`, if there is one.
pub open spec fn find_close(p: Seq<char>, from: int) -> Option<int>
    decreases p.len() - from,
{
    if from < 0 || from >= p.len() {
        None
    } else if p[from] == ']' {
        Some(from)
    } else {
        find_close(p, from + 1)
    }
}

/// The ranges written in `p[i..end]`, the inside of a class.
pub open spec fn class_ranges(p: Seq<char>, i: int, end: int) -> Seq<CharRange>
    decreases end - i,
{
    if i < 0 || i >= end || end > p.len() {
        Seq::empty()
    } else if i + 2 < end && p[i + 1] == '-' {
        seq![CharRange { lo: p[i], hi: p[i + 2] }] + class_ranges(p, i + 3, end)
    } else {
        seq![CharRange { lo: p[i], hi: p[i] }] + class_ranges(p, i + 1, end)
    }
}

/// Where the inside of the class that opens at `i` starts: behind the `[`
/// and behind a `!` that follows it.
pub open spec fn class_start(p: Seq<char>, i: int) -> int {
    if i + 1 < p.len() && p[i + 1] == '!' {
        i + 2
    } else {
        i + 1
    }
}

/// The tokens that `p[i..]` compiles to, or `Err` with the position of a
/// class that is never closed.
pub open spec fn compile_from(p: Seq<char>, i: int) -> Result<Seq<TokenModel>, int>
    decreases p.len() - i,
{
    if i < 0 || i >= p.len() {
        Ok(Seq::empty())
    } else if p[i] == '?' {
        prepend(TokenModel::AnyChar, compile_from(p, i + 1))
    } else if p[i] == '*' {
        prepend(TokenModel::AnySequence, compile_from(p, i + 1))
    } else if p[i] == '[' {
        let start = class_start(p, i);
        let close = find_close(p, start + 1);
        if close is Some && i < close->0 && close->0 < p.len() {
            let rs = class_ranges(p, start, close->0);
            if start == i + 1 {
                prepend(TokenModel::AnyWithin(rs), compile_from(p, close->0 + 1))
            } else {
                prepend(TokenModel::AnyExcept(rs), compile_from(p, close->0 + 1))
            }
        } else {
            Err(i)
        }
    } else {
        prepend(TokenModel::Literal(p[i]), compile_from(p, i + 1))
    }
}

/// `t` put in front of the tokens of `rest`; an error stays as it is.
pub open spec fn prepend(t: TokenModel, rest: Result<Seq<TokenModel>, int>) -> Result<
    Seq<TokenModel>,
    int,
> {
    match rest {
        Ok(ts) => Ok(seq![t] + ts),
        Err(e) => Err(e),
    }
}

/// The tokens that a pattern text compiles to.
pub open spec fn compile(p: Seq<char>) -> Result<Seq<TokenModel>, int> {
    compile_from(p, 0)
}

/// `acc` put in front of the tokens of `rest`.
pub open spec fn prefixed(acc: Seq<TokenModel>, rest: Result<Seq<TokenModel>, int>) -> Result<
    Seq<TokenModel>,
    int,
> {
    match rest {
        Ok(ts) => Ok(acc + ts),
        Err(e) => Err(e),
    }
}

proof fn lemma_find_close_bounds(p: Seq<char>, from: int)
    requires
        0 <= from,
    ensures
        match find_close(p, from) {
            Some(k) => from <= k < p.len() && p[k] == ']',
            None => true,
        },
    decreases p.len() - from,
{
    if from < p.len() && p[from] != ']' {
        lemma_find_close_bounds(p, from + 1);
    }
}

fn is_same_char(a: char, b: char, case_sensitive: bool) -> (r: bool)
    ensures
        r == same_char(a, b, case_sensitive),
{
    a == b || (!case_sensitive && to_lower(a) == to_lower(b))
}

fn is_in_range(r: &CharRange, c: char, case_sensitive: bool) -> (res: bool)
    ensures
        res == in_range(*r, c, case_sensitive),
{
    if r.lo <= c && c <= r.hi {
        true
    } else if case_sensitive {
        false
    } else {
        let l = to_lower(c);
        let u = to_upper(c);
        (r.lo <= l && l <= r.hi) || (r.lo <= u && u <= r.hi)
    }
}

fn is_in_class(rs: &Vec<CharRange>, c: char, case_sensitive: bool) -> (res: bool)
    ensures
        res == in_class(rs@, c, case_sensitive),
{
    let mut k: usize = 0;
    while k < rs.len()
        invariant
            k <= rs.len(),
            forall|x: int| 0 <= x < k ==> !in_range(#[trigger] rs@[x], c, case_sensitive),
        decreases rs.len() - k,
    {
        if is_in_range(&rs[k], c, case_sensitive) {
            return true;
        }
        k += 1;
    }
    false
}

fn accepts(t: &Token, c: char, case_sensitive: bool) -> (res: bool)
    ensures
        res == token_accepts(t@, c, case_sensitive),
{
    match t {
        Token::Literal(x) => is_same_char(*x, c, case_sensitive),
        Token::AnyChar => true,
        Token::AnySequence => false,
        Token::AnyWithin(rs) => is_in_class(rs, c, case_sensitive),
        Token::AnyExcept(rs) => !is_in_class(rs, c, case_sensitive),
    }
}

/// Reads the ranges of the class whose inside is `p[start..close]`.
fn read_class(p: &Vec<char>, start: usize, close: usize) -> (rs: Vec<CharRange>)
    requires
        start <= close <= p.len(),
    ensures
        rs@ == class_ranges(p@, start as int, close as int),
{
    let mut rs: Vec<CharRange> = Vec::new();
    let mut i: usize = start;
    while i < close
        invariant
            start <= i <= close <= p.len(),
            class_ranges(p@, start as int, close as int) == rs@ + class_ranges(
                p@,
                i as int,
                close as int,
            ),
        decreases close - i,
    {
        let ghost before = rs@;
        if close - i > 2 && char_at(p, i + 1) == '-' {
            let r = CharRange { lo: char_at(p, i), hi: char_at(p, i + 2) };
            rs.push(r);
            proof {
                let tail = class_ranges(p@, i + 3, close as int);
                assert(before + (seq![r] + tail) =~= before.push(r) + tail);
            }
            i += 3;
        } else {
            let r = CharRange { lo: char_at(p, i), hi: char_at(p, i) };
            rs.push(r);
            proof {
                let tail = class_ranges(p@, i + 1, close as int);
                assert(before + (seq![r] + tail) =~= before.push(r) + tail);
            }
            i += 1;
        }
    }
    proof {
        assert(rs@ + Seq::<CharRange>::empty() =~= rs@);
    }
    rs
}

impl Pattern {
    /// Compiles a pattern text. Fails exactly when a `[` is never closed, and
    /// then names the position of the first such bracket met.
    pub fn new(pattern: &str) -> (r: Result<Pattern, PatternError>)
        ensures
            match r {
                Ok(p) => compile(pattern@) == Ok::<Seq<TokenModel>, int>(p@),
                Err(PatternError::UnclosedClass(at)) => compile(pattern@) == Err::<
                    Seq<TokenModel>,
                    int,
                >(at as int),
            },
    {
        let p = chars_of(pattern);
        let mut tokens: Vec<Token> = Vec::new();
        let ghost mut acc: Seq<TokenModel> = Seq::empty();
        let mut i: usize = 0;
        proof {
            assert(prefixed(acc, compile_from(p@, 0)) =~= compile_from(p@, 0)) by {
                match compile_from(p@, 0) {
                    Ok(ts) => {
                        assert(acc + ts =~= ts);
                    },
                    Err(_) => {},
                }
            }
        }
        while i < p.len()
            invariant
                i <= p.len(),
                p@ == pattern@,
                acc.len() == tokens@.len(),
                forall|k: int| 0 <= k < acc.len() ==> acc[k] == (#[trigger] tokens@[k])@,
                compile(pattern@) == prefixed(acc, compile_from(p@, i as int)),
            decreases p.len() - i,
        {
            let c = char_at(&p, i);
            let ghost before = acc;
            if c == '?' {
                tokens.push(Token::AnyChar);
                proof {
                    acc = acc.push(TokenModel::AnyChar);
                    lemma_prefixed_step(before, TokenModel::AnyChar, compile_from(p@, i + 1));
                }
                i += 1;
            } else if c == '*' {
                tokens.push(Token::AnySequence);
                proof {
                    acc = acc.push(TokenModel::AnySequence);
                    lemma_prefixed_step(before, TokenModel::AnySequence, compile_from(p@, i + 1));
                }
                i += 1;
            } else if c == '[' {
                let negated = p.len() - i > 1 && char_at(&p, i + 1) == '!';
                let start: usize = if negated {
                    i + 2
                } else {
                    i + 1
                };
                assert(start as int == class_start(p@, i as int));
                // the first character of the class never closes it
                let mut k: usize = if start < p.len() {
                    start + 1
                } else {
                    start
                };
                proof {
                    if start >= p.len() {
                        assert(find_close(p@, start + 1) is None);
                        assert(find_close(p@, k as int) is None);
                    }
                }
                while k < p.len() && char_at(&p, k) != ']'
                    invariant
                        start <= k <= p.len(),
                        find_close(p@, start + 1) == find_close(p@, k as int),
                    decreases p.len() - k,
                {
                    k += 1;
                }
                if k >= p.len() {
                    return Err(PatternError::UnclosedClass(i));
                }
                let rs = read_class(&p, start, k);
                let ghost t = if negated {
                    TokenModel::AnyExcept(rs@)
                } else {
                    TokenModel::AnyWithin(rs@)
                };
                if negated {
                    tokens.push(Token::AnyExcept(rs));
                } else {
                    tokens.push(Token::AnyWithin(rs));
                }
                proof {
                    acc = acc.push(t);
                    lemma_prefixed_step(before, t, compile_from(p@, k + 1));
                }
                i = k + 1;
            } else {
                tokens.push(Token::Literal(c));
                proof {
                    acc = acc.push(TokenModel::Literal(c));
                    lemma_prefixed_step(before, TokenModel::Literal(c), compile_from(p@, i + 1));
                }
                i += 1;
            }
        }
        let r = Pattern { tokens };
        proof {
            assert(acc + Seq::<TokenModel>::empty() =~= acc);
            assert(r@ =~= acc);
        }
        Ok(r)
    }

    /// Whether the pattern matches the whole `name`.
    pub fn matches(&self, name: &str, case_sensitive: bool) -> (r: bool)
        ensures
            r == glob_matches(self@, name@, case_sensitive),
    {
        let s = chars_of(name);
        self.matches_chars(&s, case_sensitive)
    }

    /// Whether the pattern matches the whole name given by its characters.
    pub fn matches_chars(&self, s: &Vec<char>, case_sensitive: bool) -> (r: bool)
        ensures
            r == glob_matches(self@, s@, case_sensitive),
    {
        let n = s.len();
        let m = self.tokens.len();
        let ghost toks = self@;
        // row[j] tells whether the tokens from `i` on match the name from `j` on
        let mut row: Vec<bool> = Vec::new();
        let mut j: usize = 0;
        while j < n
            invariant
                j <= n,
                n == s.len(),
                m == self.tokens.len(),
                toks == self@,
                row.len() == j,
                forall|x: int| 0 <= x < j ==> #[trigger] row[x] == matches_from(toks, m as int, s@, x, case_sensitive),
            decreases n - j,
        {
            row.push(false);
            j += 1;
        }
        row.push(true);
        let mut i: usize = m;
        while i > 0
            invariant
                i <= m,
                n == s.len(),
                m == self.tokens.len(),
                toks == self@,
                toks.len() == m,
                row.len() == n + 1,
                forall|x: int| 0 <= x <= n ==> #[trigger] row[x] == matches_from(toks, i as int, s@, x, case_sensitive),
            decreases i,
        {
            i -= 1;
            let t = &self.tokens[i];
            assert(toks[i as int] == t@);
            let ghost prev = row@;
            if matches!(t, Token::AnySequence) {
                let mut j: usize = n;
                while j > 0
                    invariant
                        j <= n,
                        i < m,
                        n == s.len(),
                        toks.len() == m,
                        toks[i as int] is AnySequence,
                        row.len() == n + 1,
                        forall|x: int| 0 <= x < j ==> #[trigger] row[x] == prev[x],
                        forall|x: int| 0 <= x <= n ==> #[trigger] prev[x] == matches_from(toks, i + 1, s@, x, case_sensitive),
                        forall|x: int| j <= x <= n ==> #[trigger] row[x] == matches_from(toks, i as int, s@, x, case_sensitive),
                    decreases j,
                {
                    j -= 1;
                    let v = row[j] || row[j + 1];
                    row.set(j, v);
                }
            } else {
                let mut j: usize = 0;
                while j < n
                    invariant
                        j <= n,
                        i < m,
                        n == s.len(),
                        toks.len() == m,
                        toks[i as int] == t@,
                        !(toks[i as int] is AnySequence),
                        row.len() == n + 1,
                        forall|x: int| j <= x <= n ==> #[trigger] row[x] == prev[x],
                        forall|x: int| 0 <= x <= n ==> #[trigger] prev[x] == matches_from(toks, i + 1, s@, x, case_sensitive),
                        forall|x: int| 0 <= x < j ==> #[trigger] row[x] == matches_from(toks, i as int, s@, x, case_sensitive),
                    decreases n - j,
                {
                    let v = accepts(t, char_at(s, j), case_sensitive) && row[j + 1];
                    row.set(j, v);
                    j += 1;
                }
                row.set(n, false);
            }
        }
        row[0]
    }
}

proof fn lemma_prefixed_step(acc: Seq<TokenModel>, t: TokenModel, rest: Result<Seq<TokenModel>, int>)
    ensures
        prefixed(acc, prepend(t, rest)) == prefixed(acc.push(t), rest),
{
    match rest {
        Ok(ts) => {
            assert(acc + (seq![t] + ts) =~= acc.push(t) + ts);
        },
        Err(_) => {},
    }
}

} // verus!
