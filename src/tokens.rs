//! The tokenizer and the token-level optimizer.
use vstd::prelude::*;
use crate::text::chars_of;

verus! {

/// One lexical token. Words are held as a range of character positions
/// into the script they were read from.
#[derive(Debug, Clone, Copy, PartialEq, Eq, Structural)]
pub enum Token {
    Number(i32),
    Word(usize, usize),
    Ident(u8),
    BananaOpen,
    EndStatement,
    BananaClose,
    Comma,
    Loop,
    For,
    If,
    In,
    And,
    Or,
    Not,
    Equals,
    Assign,
    Colon,
    Multiply,
    Plus,
    Minus,
    LessThan,
    LessOrEqualTo,
    GreaterThan,
    GreaterOrEqualTo,
}

/// Why a script could not be tokenized.
#[derive(Debug, Clone, Copy, PartialEq, Eq, Structural)]
pub enum LexError {
    /// A delimiter character that no token stands for (a tab or a carriage
    /// return after the start of a line).
    UnknownToken(char),
    /// Indentation of more than 255 levels on one line.
    IndentTooDeep,
}

pub open spec fn is_delim(c: char) -> bool {
    c == '\t' || c == '\n' || c == '\r' || c == '(' || c == ')' || c == '=' || c == ':'
        || c == '*' || c == '>' || c == '<' || c == '+' || c == ',' || c == '-' || c == ' '
}

/// The characters that `str::trim` removes.
pub open spec fn is_white(c: char) -> bool {
    ('\u{9}' <= c && c <= '\u{d}') || c == ' ' || c == '\u{85}' || c == '\u{a0}'
        || c == '\u{1680}' || ('\u{2000}' <= c && c <= '\u{200a}') || c == '\u{2028}'
        || c == '\u{2029}' || c == '\u{202f}' || c == '\u{205f}' || c == '\u{3000}'
}

pub open spec fn is_digit(c: char) -> bool {
    '0' <= c && c <= '9'
}

/// How many four-space groups start at `i`.
pub open spec fn space_groups(s: Seq<char>, i: nat) -> nat
    decreases s.len() - i,
{
    if i + 4 <= s.len() && s[i as int] == ' ' && s[i + 1int] == ' ' && s[i + 2int] == ' ' && s[i + 3int] == ' ' {
        1 + space_groups(s, i + 4)
    } else {
        0
    }
}

/// How many tabs start at `i`.
pub open spec fn tab_run(s: Seq<char>, i: nat) -> nat
    decreases s.len() - i,
{
    if i < s.len() && s[i as int] == '\t' {
        1 + tab_run(s, i + 1)
    } else {
        0
    }
}

/// The first delimiter at or after `i`, or the end of `s`.
pub open spec fn word_end(s: Seq<char>, i: nat) -> nat
    decreases s.len() - i,
{
    if i < s.len() && !is_delim(s[i as int]) {
        word_end(s, i + 1)
    } else {
        i
    }
}

/// The first position in `i..e` that is not white space, or `e`.
pub open spec fn trim_start(s: Seq<char>, i: nat, e: nat) -> nat
    decreases e - i,
{
    if i < e && is_white(s[i as int]) {
        trim_start(s, i + 1, e)
    } else {
        i
    }
}

/// The end of `a..e` once trailing white space is removed.
pub open spec fn trim_end(s: Seq<char>, a: nat, e: nat) -> nat
    decreases e - a,
{
    if a < e && is_white(s[e - 1int]) {
        trim_end(s, a, (e - 1) as nat)
    } else {
        e
    }
}

pub open spec fn all_digits(w: Seq<char>) -> bool {
    forall|k: int| 0 <= k < w.len() ==> is_digit(#[trigger] w[k])
}

/// The decimal value of a run of digits.
pub open spec fn digits_value(w: Seq<char>) -> int
    decreases w.len(),
{
    if w.len() == 0 {
        0
    } else {
        digits_value(w.drop_last()) * 10 + (w.last() as int - '0' as int)
    }
}

/// What `i32::from_str` gives for a word that holds no sign character.
pub open spec fn number_of(w: Seq<char>) -> Option<i32> {
    if w.len() > 0 && all_digits(w) && digits_value(w) <= i32::MAX {
        Some(digits_value(w) as i32)
    } else {
        None
    }
}

pub open spec fn keyword_of(w: Seq<char>) -> Option<Token> {
    if w == seq!['l', 'o', 'o', 'p'] {
        Some(Token::Loop)
    } else if w == seq!['f', 'o', 'r'] {
        Some(Token::For)
    } else if w == seq!['i', 'n'] {
        Some(Token::In)
    } else if w == seq!['i', 'f'] {
        Some(Token::If)
    } else if w == seq!['a', 'n', 'd'] {
        Some(Token::And)
    } else if w == seq!['o', 'r'] {
        Some(Token::Or)
    } else if w == seq!['n', 'o', 't'] {
        Some(Token::Not)
    } else {
        None
    }
}

/// The token for the text between delimiters at `i..e`.
pub open spec fn word_token(s: Seq<char>, i: nat, e: nat) -> Token {
    let a = trim_start(s, i, e);
    let b = trim_end(s, a, e);
    let w = s.subrange(a as int, b as int);
    if number_of(w) is Some {
        Token::Number(number_of(w)->0)
    } else if keyword_of(w) is Some {
        keyword_of(w)->0
    } else {
        Token::Word(a as usize, b as usize)
    }
}

/// `p` followed by the tokens of `r`, or the error of `r`.
pub open spec fn cons(p: Seq<Token>, r: Result<Seq<Token>, LexError>) -> Result<Seq<Token>, LexError> {
    match r {
        Ok(t) => Ok(p + t),
        Err(e) => Err(e),
    }
}

/// The tokens of `s` from position `i`; `line_start` tells whether `i`
/// begins a physical line, where indentation is recognized.
pub open spec fn lex(s: Seq<char>, i: nat, line_start: bool) -> Result<Seq<Token>, LexError>
    decreases s.len() - i, if line_start { 1nat } else { 0nat },
    via lex_decreases
{
    if i >= s.len() {
        Ok(seq![])
    } else if line_start {
        let g = space_groups(s, i);
        let j = i + 4 * g;
        let t = tab_run(s, j);
        if g + t > 255 {
            Err(LexError::IndentTooDeep)
        } else {
            let ind_spaces = if g > 0 { seq![Token::Ident(g as u8)] } else { seq![] };
            let ind_tabs = if t > 0 { seq![Token::Ident(t as u8)] } else { seq![] };
            cons(ind_spaces + ind_tabs, lex(s, j + t, false))
        }
    } else {
        let c = s[i as int];
        let next_is_eq = i + 1 < s.len() && s[i + 1int] == '=';
        if c == ' ' {
            lex(s, i + 1, false)
        } else if c == '\n' {
            cons(seq![Token::EndStatement], lex(s, i + 1, true))
        } else if c == '=' || c == '>' || c == '<' {
            let tok = if c == '=' {
                if next_is_eq { Token::Equals } else { Token::Assign }
            } else if c == '>' {
                if next_is_eq { Token::GreaterOrEqualTo } else { Token::GreaterThan }
            } else {
                if next_is_eq { Token::LessOrEqualTo } else { Token::LessThan }
            };
            cons(seq![tok], lex(s, if next_is_eq { i + 2 } else { i + 1 }, false))
        } else if c == '(' || c == ')' || c == ',' || c == ':' || c == '*' || c == '+' || c == '-' {
            let tok = if c == '(' {
                Token::BananaOpen
            } else if c == ')' {
                Token::BananaClose
            } else if c == ',' {
                Token::Comma
            } else if c == ':' {
                Token::Colon
            } else if c == '*' {
                Token::Multiply
            } else if c == '+' {
                Token::Plus
            } else {
                Token::Minus
            };
            cons(seq![tok], lex(s, i + 1, false))
        } else if is_delim(c) {
            Err(LexError::UnknownToken(c))
        } else {
            let e = word_end(s, i);
            cons(seq![word_token(s, i, e)], lex(s, e, false))
        }
    }
}

#[via_fn]
proof fn lex_decreases(s: Seq<char>, i: nat, line_start: bool) {
    if i < s.len() {
        if line_start {
            lemma_space_groups_bound(s, i);
            lemma_tab_run_bound(s, i + 4 * space_groups(s, i));
        } else {
            lemma_word_end_bounds(s, i);
        }
    }
}

proof fn lemma_space_groups_bound(s: Seq<char>, i: nat)
    requires
        i <= s.len(),
    ensures
        i + 4 * space_groups(s, i) <= s.len(),
    decreases s.len() - i,
{
    if i + 4 <= s.len() && s[i as int] == ' ' && s[i + 1int] == ' ' && s[i + 2int] == ' ' && s[i + 3int] == ' ' {
        lemma_space_groups_bound(s, i + 4);
    }
}

proof fn lemma_tab_run_bound(s: Seq<char>, i: nat)
    requires
        i <= s.len(),
    ensures
        i + tab_run(s, i) <= s.len(),
    decreases s.len() - i,
{
    if i < s.len() && s[i as int] == '\t' {
        lemma_tab_run_bound(s, i + 1);
    }
}

/// The tokens of a whole script.
pub open spec fn lex_script(s: Seq<char>) -> Result<Seq<Token>, LexError> {
    lex(s, 0, true)
}

pub open spec fn tokens_result(r: Result<Vec<Token>, LexError>) -> Result<Seq<Token>, LexError> {
    match r {
        Ok(v) => Ok(v@),
        Err(e) => Err(e),
    }
}

proof fn lemma_cons_assoc(p: Seq<Token>, q: Seq<Token>, r: Result<Seq<Token>, LexError>)
    ensures
        cons(p + q, r) == cons(p, cons(q, r)),
{
    match r {
        Ok(t) => {
            assert((p + q) + t =~= p + (q + t));
        },
        Err(_) => {},
    }
}

proof fn lemma_cons_empty(r: Result<Seq<Token>, LexError>)
    ensures
        cons(seq![], r) == r,
{
    match r {
        Ok(t) => {
            assert(seq![] + t =~= t);
        },
        Err(_) => {},
    }
}

proof fn lemma_word_end_bounds(s: Seq<char>, i: nat)
    requires
        i <= s.len(),
    ensures
        i <= word_end(s, i) <= s.len(),
        forall|k: int| i <= k < word_end(s, i) ==> !is_delim(#[trigger] s[k]),
        word_end(s, i) < s.len() ==> is_delim(s[word_end(s, i) as int]),
    decreases s.len() - i,
{
    if i < s.len() && !is_delim(s[i as int]) {
        lemma_word_end_bounds(s, i + 1);
    }
}

proof fn lemma_digits_value_nonneg(w: Seq<char>)
    requires
        all_digits(w),
    ensures
        digits_value(w) >= 0,
    decreases w.len(),
{
    if w.len() > 0 {
        assert(all_digits(w.drop_last())) by {
            assert forall|k: int| 0 <= k < w.drop_last().len() implies is_digit(#[trigger] w.drop_last()[k]) by {
                assert(is_digit(w[k]));
            }
        }
        lemma_digits_value_nonneg(w.drop_last());
        assert(is_digit(w[w.len() - 1]));
    }
}

/// A run of digits is worth at least as much as any of its prefixes.
proof fn lemma_digits_value_prefix(w: Seq<char>, m: int)
    requires
        all_digits(w),
        0 <= m <= w.len(),
    ensures
        digits_value(w) >= digits_value(w.subrange(0, m)),
    decreases w.len(),
{
    if m < w.len() {
        let d = w.drop_last();
        assert(all_digits(d)) by {
            assert forall|k: int| 0 <= k < d.len() implies is_digit(#[trigger] d[k]) by {
                assert(is_digit(w[k]));
            }
        }
        lemma_digits_value_prefix(d, m);
        assert(d.subrange(0, m) =~= w.subrange(0, m));
        lemma_digits_value_nonneg(d);
        assert(is_digit(w[w.len() - 1]));
    } else {
        assert(w.subrange(0, m) =~= w);
    }
}

pub(crate) fn is_white_char(c: char) -> (r: bool)
    ensures
        r == is_white(c),
{
    ('\u{9}' <= c && c <= '\u{d}') || c == ' ' || c == '\u{85}' || c == '\u{a0}'
        || c == '\u{1680}' || ('\u{2000}' <= c && c <= '\u{200a}') || c == '\u{2028}'
        || c == '\u{2029}' || c == '\u{202f}' || c == '\u{205f}' || c == '\u{3000}'
}

fn is_delim_char(c: char) -> (r: bool)
    ensures
        r == is_delim(c),
{
    c == '\t' || c == '\n' || c == '\r' || c == '(' || c == ')' || c == '=' || c == ':'
        || c == '*' || c == '>' || c == '<' || c == '+' || c == ',' || c == '-' || c == ' '
}

fn count_space_groups(s: &Vec<char>, i: usize) -> (g: usize)
    requires
        i <= s@.len(),
    ensures
        g == space_groups(s@, i as nat),
        i + 4 * g <= s@.len(),
{
    let n = s.len();
    let mut j = i;
    let mut g: usize = 0;
    proof {
        lemma_space_groups_bound(s@, i as nat);
    }
    while 4 <= n - j && s[j] == ' ' && s[j + 1] == ' ' && s[j + 2] == ' ' && s[j + 3] == ' '
        invariant
            n == s@.len(),
            i <= j <= n,
            j == i + 4 * g,
            space_groups(s@, i as nat) == g + space_groups(s@, j as nat),
            j + 4 * space_groups(s@, j as nat) <= n,
        decreases n - j,
    {
        proof {
            lemma_space_groups_bound(s@, (j + 4) as nat);
        }
        j = j + 4;
        g = g + 1;
    }
    g
}

fn count_tabs(s: &Vec<char>, i: usize) -> (t: usize)
    requires
        i <= s@.len(),
    ensures
        t == tab_run(s@, i as nat),
        i + t <= s@.len(),
{
    let n = s.len();
    let mut j = i;
    while j < n && s[j] == '\t'
        invariant
            n == s@.len(),
            i <= j <= n,
            tab_run(s@, i as nat) == (j - i) + tab_run(s@, j as nat),
        decreases n - j,
    {
        j = j + 1;
    }
    j - i
}

fn find_word_end(s: &Vec<char>, i: usize) -> (e: usize)
    requires
        i <= s@.len(),
    ensures
        e == word_end(s@, i as nat),
{
    let n = s.len();
    let mut j = i;
    while j < n && !is_delim_char(s[j])
        invariant
            n == s@.len(),
            i <= j <= n,
            word_end(s@, i as nat) == word_end(s@, j as nat),
        decreases n - j,
    {
        j = j + 1;
    }
    j
}

pub(crate) fn trim_range(s: &Vec<char>, i: usize, e: usize) -> (r: (usize, usize))
    requires
        i <= e <= s@.len(),
    ensures
        r.0 == trim_start(s@, i as nat, e as nat),
        r.1 == trim_end(s@, r.0 as nat, e as nat),
        i <= r.0 <= r.1 <= e,
{
    let mut a = i;
    while a < e && is_white_char(s[a])
        invariant
            i <= a <= e <= s@.len(),
            trim_start(s@, i as nat, e as nat) == trim_start(s@, a as nat, e as nat),
        decreases e - a,
    {
        a = a + 1;
    }
    let mut b = e;
    while a < b && is_white_char(s[b - 1])
        invariant
            a <= b <= e <= s@.len(),
            trim_end(s@, a as nat, e as nat) == trim_end(s@, a as nat, b as nat),
        decreases b - a,
    {
        b = b - 1;
    }
    (a, b)
}

fn parse_number(s: &Vec<char>, a: usize, b: usize) -> (r: Option<i32>)
    requires
        a <= b <= s@.len(),
    ensures
        r == number_of(s@.subrange(a as int, b as int)),
{
    let ghost w = s@.subrange(a as int, b as int);
    if a == b {
        return None;
    }
    let mut v: u64 = 0;
    let mut k = a;
    while k < b
        invariant
            a <= k <= b <= s@.len(),
            w == s@.subrange(a as int, b as int),
            all_digits(w.subrange(0, k - a)),
            v == digits_value(w.subrange(0, k - a)),
            v <= i32::MAX,
        decreases b - k,
    {
        let c = s[k];
        if !('0' <= c && c <= '9') {
            assert(!is_digit(w[k - a]));
            return None;
        }
        let d = (c as u32 - '0' as u32) as u64;
        let ghost pre = w.subrange(0, k - a);
        let ghost next = w.subrange(0, k + 1 - a);
        assert(next.drop_last() =~= pre);
        assert(all_digits(next)) by {
            assert forall|q: int| 0 <= q < next.len() implies is_digit(#[trigger] next[q]) by {
                if q < pre.len() {
                    assert(next[q] == pre[q]);
                }
            }
        }
        let v2 = v * 10 + d;
        if v2 > 2147483647 {
            proof {
                if all_digits(w) {
                    lemma_digits_value_prefix(w, k + 1 - a);
                }
            }
            return None;
        }
        v = v2;
        k = k + 1;
    }
    assert(w.subrange(0, b - a) =~= w);
    Some(v as i32)
}

pub(crate) fn same_text(s: &Vec<char>, a: usize, b: usize, w: &Vec<char>) -> (r: bool)
    requires
        a <= b <= s@.len(),
    ensures
        r == (s@.subrange(a as int, b as int) == w@),
{
    if b - a != w.len() {
        return false;
    }
    let mut k: usize = 0;
    while k < w.len()
        invariant
            a <= b <= s@.len(),
            b - a == w@.len(),
            k <= w@.len(),
            forall|q: int| 0 <= q < k ==> s@[a + q] == w@[q],
        decreases w@.len() - k,
    {
        if s[a + k] != w[k] {
            assert(s@.subrange(a as int, b as int)[k as int] != w@[k as int]);
            return false;
        }
        k = k + 1;
    }
    assert(s@.subrange(a as int, b as int) =~= w@);
    true
}

fn keyword(s: &Vec<char>, a: usize, b: usize) -> (r: Option<Token>)
    requires
        a <= b <= s@.len(),
    ensures
        r == keyword_of(s@.subrange(a as int, b as int)),
{
    if same_text(s, a, b, &vec!['l', 'o', 'o', 'p']) {
        Some(Token::Loop)
    } else if same_text(s, a, b, &vec!['f', 'o', 'r']) {
        Some(Token::For)
    } else if same_text(s, a, b, &vec!['i', 'n']) {
        Some(Token::In)
    } else if same_text(s, a, b, &vec!['i', 'f']) {
        Some(Token::If)
    } else if same_text(s, a, b, &vec!['a', 'n', 'd']) {
        Some(Token::And)
    } else if same_text(s, a, b, &vec!['o', 'r']) {
        Some(Token::Or)
    } else if same_text(s, a, b, &vec!['n', 'o', 't']) {
        Some(Token::Not)
    } else {
        None
    }
}

fn classify_word(s: &Vec<char>, i: usize, e: usize) -> (t: Token)
    requires
        i <= e <= s@.len(),
    ensures
        t == word_token(s@, i as nat, e as nat),
{
    let (a, b) = trim_range(s, i, e);
    match parse_number(s, a, b) {
        Some(n) => Token::Number(n),
        None => match keyword(s, a, b) {
            Some(k) => k,
            None => Token::Word(a, b),
        },
    }
}

fn push_token(out: &mut Vec<Token>, t: Token)
    ensures
        final(out)@ == old(out)@ + seq![t],
{
    out.push(t);
    assert(final(out)@ =~= old(out)@ + seq![t]);
}

/// Tokenizes the characters of a script.
pub fn tokenize_chars(s: &Vec<char>) -> (r: Result<Vec<Token>, LexError>)
    ensures
        tokens_result(r) == lex_script(s@),
{
    let n = s.len();
    let mut i: usize = 0;
    let mut line_start = true;
    let mut out: Vec<Token> = Vec::new();
    proof {
        lemma_cons_empty(lex(s@, 0, true));
        assert(out@ =~= seq![]);
    }
    while i < n
        invariant
            n == s@.len(),
            i <= n,
            cons(out@, lex(s@, i as nat, line_start)) == lex_script(s@),
        decreases n - i, if line_start { 1nat } else { 0nat },
    {
        let ghost before = out@;
        if line_start {
            let g = count_space_groups(s, i);
            let j = i + 4 * g;
            let t = count_tabs(s, j);
            if g + t > 255 {
                return Err(LexError::IndentTooDeep);
            }
            let ghost ind_spaces = if g > 0 { seq![Token::Ident(g as u8)] } else { seq![] };
            let ghost ind_tabs = if t > 0 { seq![Token::Ident(t as u8)] } else { seq![] };
            if g > 0 {
                push_token(&mut out, Token::Ident(g as u8));
            }
            if t > 0 {
                push_token(&mut out, Token::Ident(t as u8));
            }
            proof {
                lemma_cons_assoc(before, ind_spaces + ind_tabs, lex(s@, (j + t) as nat, false));
                assert(out@ =~= before + (ind_spaces + ind_tabs));
            }
            i = j + t;
            line_start = false;
        } else {
            let c = s[i];
            let next_is_eq = i + 1 < n && s[i + 1] == '=';
            if c == ' ' {
                i = i + 1;
            } else if c == '\n' {
                proof {
                    lemma_cons_assoc(before, seq![Token::EndStatement], lex(s@, (i + 1) as nat, true));
                }
                push_token(&mut out, Token::EndStatement);
                i = i + 1;
                line_start = true;
            } else if c == '=' || c == '>' || c == '<' {
                let tok = if c == '=' {
                    if next_is_eq { Token::Equals } else { Token::Assign }
                } else if c == '>' {
                    if next_is_eq { Token::GreaterOrEqualTo } else { Token::GreaterThan }
                } else {
                    if next_is_eq { Token::LessOrEqualTo } else { Token::LessThan }
                };
                let ni = if next_is_eq { i + 2 } else { i + 1 };
                proof {
                    lemma_cons_assoc(before, seq![tok], lex(s@, ni as nat, false));
                }
                push_token(&mut out, tok);
                i = ni;
            } else if c == '(' || c == ')' || c == ',' || c == ':' || c == '*' || c == '+' || c == '-' {
                let tok = if c == '(' {
                    Token::BananaOpen
                } else if c == ')' {
                    Token::BananaClose
                } else if c == ',' {
                    Token::Comma
                } else if c == ':' {
                    Token::Colon
                } else if c == '*' {
                    Token::Multiply
                } else if c == '+' {
                    Token::Plus
                } else {
                    Token::Minus
                };
                proof {
                    lemma_cons_assoc(before, seq![tok], lex(s@, (i + 1) as nat, false));
                }
                push_token(&mut out, tok);
                i = i + 1;
            } else if is_delim_char(c) {
                return Err(LexError::UnknownToken(c));
            } else {
                let e = find_word_end(s, i);
                proof {
                    lemma_word_end_bounds(s@, i as nat);
                }
                let tok = classify_word(s, i, e);
                proof {
                    lemma_cons_assoc(before, seq![tok], lex(s@, e as nat, false));
                }
                push_token(&mut out, tok);
                i = e;
            }
        }
    }
    assert(out@ + seq![] =~= out@);
    Ok(out)
}

/// Tokenizes a script. Words are given as ranges of character positions
/// into `script`.
pub fn tokenize(script: &str) -> (r: Result<Vec<Token>, LexError>)
    ensures
        tokens_result(r) == lex_script(script@),
{
    let s = chars_of(script);
    tokenize_chars(&s)
}

pub open spec fn is_arith(t: Token) -> bool {
    t == Token::Multiply || t == Token::Minus || t == Token::Plus
}

/// The value of `l op r` for an arithmetic operator token.
pub open spec fn fold_value(op: Token, l: i32, r: i32) -> int {
    if op == Token::Multiply {
        l * r
    } else if op == Token::Minus {
        l - r
    } else {
        l + r
    }
}

pub open spec fn fits_i32(v: int) -> bool {
    i32::MIN <= v <= i32::MAX
}

/// Whether `t[idx]` is an operator between two numbers whose result fits.
pub open spec fn foldable_at(t: Seq<Token>, idx: int) -> bool {
    &&& 0 < idx
    &&& idx + 1 < t.len()
    &&& is_arith(t[idx])
    &&& t[idx - 1] is Number
    &&& t[idx + 1] is Number
    &&& fits_i32(fold_value(t[idx], t[idx - 1]->Number_0, t[idx + 1]->Number_0))
}

/// The rewriting sweep of the optimizer from position `idx`: constant
/// folding, collapse of repeated terminators, removal of indentation on
/// blank lines and merging of adjacent indentation (saturating at 255).
pub open spec fn opt_pass(t: Seq<Token>, idx: nat) -> Seq<Token>
    decreases 2 * t.len() - idx,
{
    if idx >= t.len() {
        t
    } else if foldable_at(t, idx as int) {
        let v = fold_value(t[idx as int], t[idx - 1]->Number_0, t[idx + 1int]->Number_0);
        opt_pass(t.update(idx - 1, Token::Number(v as i32)).remove(idx as int).remove(idx as int), idx)
    } else if t[idx as int] == Token::EndStatement && idx + 1 < t.len() && t[idx + 1int] == Token::EndStatement {
        opt_pass(t.remove(idx + 1int), idx)
    } else if t[idx as int] is Ident && idx + 1 < t.len() && t[idx + 1int] == Token::EndStatement {
        opt_pass(t.remove(idx as int), idx)
    } else if t[idx as int] is Ident && idx + 1 < t.len() && t[idx + 1int] is Ident {
        let sum = t[idx as int]->Ident_0 + t[idx + 1int]->Ident_0;
        let merged = if sum > 255 { 255u8 } else { sum as u8 };
        opt_pass(t.update(idx as int, Token::Ident(merged)).remove(idx + 1int), idx)
    } else {
        opt_pass(t, idx + 1)
    }
}

pub open spec fn strip_front(t: Seq<Token>) -> Seq<Token>
    decreases t.len(),
{
    if t.len() > 0 && t[0] == Token::EndStatement {
        strip_front(t.drop_first())
    } else {
        t
    }
}

pub open spec fn strip_back(t: Seq<Token>) -> Seq<Token>
    decreases t.len(),
{
    if t.len() > 0 && t.last() == Token::EndStatement {
        strip_back(t.drop_last())
    } else {
        t
    }
}

/// What the optimizer makes of a token sequence: the rewriting sweep,
/// leading and trailing terminators stripped, and one terminator appended.
pub open spec fn optimized(t: Seq<Token>) -> Seq<Token> {
    strip_back(strip_front(settle(t))).push(Token::EndStatement)
}

/// The sweep repeated until it changes nothing. A sweep that changes the
/// sequence makes it shorter.
pub open spec fn settle(t: Seq<Token>) -> Seq<Token>
    decreases t.len(),
{
    let u = opt_pass(t, 0);
    if u.len() < t.len() {
        settle(u)
    } else {
        u
    }
}

/// No rewriting applies at `k`: no foldable operator, no terminator after
/// a terminator, no indentation before a terminator or indentation.
pub open spec fn settled_at(t: Seq<Token>, k: int) -> bool {
    &&& !foldable_at(t, k)
    &&& !(k + 1 < t.len() && t[k] == Token::EndStatement && t[k + 1] == Token::EndStatement)
    &&& !(k + 1 < t.len() && t[k] is Ident && t[k + 1] == Token::EndStatement)
    &&& !(k + 1 < t.len() && t[k] is Ident && t[k + 1] is Ident)
}

/// The shape of an optimized sequence: it ends with its only trailing
/// terminator, does not start with one unless it is that one, holds no two
/// terminators side by side, no foldable operator between two numbers, and
/// no indentation followed by indentation or, but at the very end, by a
/// terminator.
pub open spec fn clean(r: Seq<Token>) -> bool {
    &&& r.len() >= 1
    &&& r.last() == Token::EndStatement
    &&& (r.len() == 1 || r[0] != Token::EndStatement)
    &&& forall|i: int| 0 <= i < r.len() - 1 ==> !(#[trigger] r[i] == Token::EndStatement && r[i + 1] == Token::EndStatement)
    &&& forall|i: int| 0 <= i < r.len() ==> !#[trigger] foldable_at(r, i)
    &&& forall|i: int| 0 <= i < r.len() - 1 ==> (#[trigger] r[i] is Ident ==> !(r[i + 1] is Ident))
    &&& forall|i: int| 0 <= i < r.len() - 2 ==> (#[trigger] r[i] is Ident ==> r[i + 1] != Token::EndStatement)
}

/// A sweep never lengthens the sequence, and one that keeps its length
/// changes nothing.
proof fn lemma_opt_pass_len(t: Seq<Token>, idx: nat)
    ensures
        opt_pass(t, idx).len() <= t.len(),
        opt_pass(t, idx).len() == t.len() ==> opt_pass(t, idx) == t,
    decreases 2 * t.len() - idx,
{
    if idx >= t.len() {
    } else if foldable_at(t, idx as int) {
        let v = fold_value(t[idx as int], t[idx - 1]->Number_0, t[idx + 1int]->Number_0);
        lemma_opt_pass_len(t.update(idx - 1, Token::Number(v as i32)).remove(idx as int).remove(idx as int), idx);
    } else if t[idx as int] == Token::EndStatement && idx + 1 < t.len() && t[idx + 1int] == Token::EndStatement {
        lemma_opt_pass_len(t.remove(idx + 1int), idx);
    } else if t[idx as int] is Ident && idx + 1 < t.len() && t[idx + 1int] == Token::EndStatement {
        lemma_opt_pass_len(t.remove(idx as int), idx);
    } else if t[idx as int] is Ident && idx + 1 < t.len() && t[idx + 1int] is Ident {
        let sum = t[idx as int]->Ident_0 + t[idx + 1int]->Ident_0;
        let merged = if sum > 255 { 255u8 } else { sum as u8 };
        lemma_opt_pass_len(t.update(idx as int, Token::Ident(merged)).remove(idx + 1int), idx);
    } else {
        lemma_opt_pass_len(t, idx + 1);
    }
}

/// What `settle` reaches is left alone by a sweep.
proof fn lemma_settle_fixed(t: Seq<Token>)
    ensures
        opt_pass(settle(t), 0) == settle(t),
    decreases t.len(),
{
    lemma_opt_pass_len(t, 0);
    let u = opt_pass(t, 0);
    if u.len() < t.len() {
        lemma_settle_fixed(u);
    } else {
        assert(u == t);
    }
}

/// A sequence that a sweep from `idx` leaves alone has no rewriting left
/// at `idx` or after.
proof fn lemma_fixed_no_pattern(t: Seq<Token>, idx: nat)
    requires
        opt_pass(t, idx) == t,
    ensures
        forall|k: int| idx <= k < t.len() ==> #[trigger] settled_at(t, k),
    decreases t.len() - idx,
{
    if idx < t.len() {
        if !settled_at(t, idx as int) {
            if foldable_at(t, idx as int) {
                let v = fold_value(t[idx as int], t[idx - 1]->Number_0, t[idx + 1int]->Number_0);
                lemma_opt_pass_len(t.update(idx - 1, Token::Number(v as i32)).remove(idx as int).remove(idx as int), idx);
            } else if t[idx as int] == Token::EndStatement {
                lemma_opt_pass_len(t.remove(idx + 1int), idx);
            } else if t[idx + 1int] == Token::EndStatement {
                lemma_opt_pass_len(t.remove(idx as int), idx);
            } else {
                let sum = t[idx as int]->Ident_0 + t[idx + 1int]->Ident_0;
                let merged = if sum > 255 { 255u8 } else { sum as u8 };
                lemma_opt_pass_len(t.update(idx as int, Token::Ident(merged)).remove(idx + 1int), idx);
            }
        } else {
            lemma_fixed_no_pattern(t, idx + 1);
        }
    }
}

proof fn lemma_strip_front_shape(t: Seq<Token>)
    ensures
        exists|a: int| 0 <= a <= t.len() && strip_front(t) == #[trigger] t.subrange(a, t.len() as int),
        strip_front(t).len() == 0 || strip_front(t)[0] != Token::EndStatement,
    decreases t.len(),
{
    if t.len() > 0 && t[0] == Token::EndStatement {
        lemma_strip_front_shape(t.drop_first());
        let a = choose|a: int| 0 <= a <= t.drop_first().len() && strip_front(t.drop_first()) == #[trigger] t.drop_first().subrange(a, t.drop_first().len() as int);
        assert(t.drop_first().subrange(a, t.drop_first().len() as int) =~= t.subrange(a + 1, t.len() as int));
    } else {
        assert(t.subrange(0, t.len() as int) =~= t);
    }
}

proof fn lemma_strip_back_shape(t: Seq<Token>)
    ensures
        exists|b: int| 0 <= b <= t.len() && strip_back(t) == #[trigger] t.subrange(0, b),
        strip_back(t).len() == 0 || strip_back(t).last() != Token::EndStatement,
    decreases t.len(),
{
    if t.len() > 0 && t.last() == Token::EndStatement {
        lemma_strip_back_shape(t.drop_last());
        let b = choose|b: int| 0 <= b <= t.drop_last().len() && strip_back(t.drop_last()) == #[trigger] t.drop_last().subrange(0, b);
        assert(t.drop_last().subrange(0, b) =~= t.subrange(0, b));
    } else {
        assert(t.subrange(0, t.len() as int) =~= t);
    }
}

/// The optimized form of a settled sequence has the shape `clean` states.
proof fn lemma_optimized_clean(u: Seq<Token>)
    requires
        forall|k: int| 0 <= k < u.len() ==> #[trigger] settled_at(u, k),
    ensures
        clean(strip_back(strip_front(u)).push(Token::EndStatement)),
{
    lemma_strip_front_shape(u);
    let f = strip_front(u);
    let a = choose|a: int| 0 <= a <= u.len() && f == #[trigger] u.subrange(a, u.len() as int);
    lemma_strip_back_shape(f);
    let w = strip_back(f);
    let b = choose|b: int| 0 <= b <= f.len() && w == #[trigger] f.subrange(0, b);
    assert(w =~= u.subrange(a, a + b));
    let r = w.push(Token::EndStatement);
    assert forall|i: int| 0 <= i < w.len() implies #[trigger] r[i] == u[a + i] by {}
    assert forall|i: int| 0 <= i < r.len() - 1 implies !(#[trigger] r[i] == Token::EndStatement && r[i + 1] == Token::EndStatement) by {
        if i + 1 < w.len() {
            assert(settled_at(u, a + i));
        }
    }
    assert forall|i: int| 0 <= i < r.len() implies !#[trigger] foldable_at(r, i) by {
        if 0 < i && i + 1 < w.len() {
            assert(settled_at(u, a + i));
        }
    }
    assert forall|i: int| 0 <= i < r.len() - 1 && #[trigger] r[i] is Ident implies !(r[i + 1] is Ident) by {
        if i + 1 < w.len() {
            assert(settled_at(u, a + i));
        }
    }
    assert forall|i: int| 0 <= i < r.len() - 2 && #[trigger] r[i] is Ident implies r[i + 1] != Token::EndStatement by {
        assert(settled_at(u, a + i));
    }
}

fn fold_tokens(op: Token, l: i32, r: i32) -> (v: Option<i32>)
    requires
        is_arith(op),
    ensures
        v is Some <==> fits_i32(fold_value(op, l, r)),
        v is Some ==> v->0 == fold_value(op, l, r),
{
    match op {
        Token::Multiply => l.checked_mul(r),
        Token::Minus => l.checked_sub(r),
        _ => l.checked_add(r),
    }
}

/// One rewriting sweep over `tokens`.
fn sweep(tokens: &mut Vec<Token>)
    ensures
        final(tokens)@ == opt_pass(old(tokens)@, 0),
{
    let ghost orig = tokens@;
    let mut idx: usize = 0;
    while idx < tokens.len()
        invariant
            idx <= tokens@.len(),
            opt_pass(tokens@, idx as nat) == opt_pass(orig, 0),
        decreases 2 * tokens@.len() - idx,
    {
        let cur = tokens[idx];
        if idx > 0 && is_arith_token(cur) && idx + 1 < tokens.len() {
            if let (Token::Number(left), Token::Number(right)) = (tokens[idx - 1], tokens[idx + 1]) {
                if let Some(v) = fold_tokens(cur, left, right) {
                    tokens.set(idx - 1, Token::Number(v));
                    tokens.remove(idx);
                    tokens.remove(idx);
                    continue;
                }
            }
        }
        if cur == Token::EndStatement && idx + 1 < tokens.len() && tokens[idx + 1] == Token::EndStatement {
            tokens.remove(idx + 1);
            continue;
        }
        if let Token::Ident(a) = cur {
            if idx + 1 < tokens.len() {
                match tokens[idx + 1] {
                    Token::EndStatement => {
                        tokens.remove(idx);
                        continue;
                    },
                    Token::Ident(b) => {
                        tokens.set(idx, Token::Ident(a.saturating_add(b)));
                        tokens.remove(idx + 1);
                        continue;
                    },
                    _ => {},
                }
            }
        }
        idx = idx + 1;
    }
}

/// Rewrites `tokens` into its optimized form: numbers joined by `*`, `-`
/// or `+` are folded, repeated terminators and blank-line indentation
/// dropped, sweeping until a sweep changes nothing; then leading and
/// trailing terminators are stripped and exactly one terminator ends the
/// sequence.
pub fn optimize(tokens: &mut Vec<Token>)
    ensures
        final(tokens)@ == optimized(old(tokens)@),
        clean(final(tokens)@),
{
    let ghost orig = tokens@;
    loop
        invariant_except_break
            settle(tokens@) == settle(orig),
        ensures
            tokens@ == settle(orig),
        decreases tokens@.len(),
    {
        let n0 = tokens.len();
        let ghost before = tokens@;
        sweep(tokens);
        proof {
            lemma_opt_pass_len(before, 0);
        }
        if tokens.len() == n0 {
            break;
        }
    }
    proof {
        lemma_settle_fixed(orig);
        lemma_fixed_no_pattern(settle(orig), 0);
    }
    while tokens.len() > 0 && tokens[0] == Token::EndStatement
        invariant
            strip_front(tokens@) == strip_front(settle(orig)),
        decreases tokens@.len(),
    {
        tokens.remove(0);
    }
    let ghost front = tokens@;
    while tokens.len() > 0 && tokens[tokens.len() - 1] == Token::EndStatement
        invariant
            strip_back(tokens@) == strip_back(front),
            front == strip_front(settle(orig)),
        decreases tokens@.len(),
    {
        tokens.pop();
    }
    tokens.push(Token::EndStatement);
    proof {
        lemma_optimized_clean(settle(orig));
    }
}

fn is_arith_token(t: Token) -> (r: bool)
    ensures
        r == is_arith(t),
{
    t == Token::Multiply || t == Token::Minus || t == Token::Plus
}

/// Every token is an indentation marker or a statement terminator.
pub open spec fn blank_tokens(t: Seq<Token>) -> bool {
    forall|k: int| 0 <= k < t.len() ==> (#[trigger] t[k] is Ident || t[k] == Token::EndStatement)
}

/// A script made of blank lines: spaces, tabs and newlines only, each line
/// ended by a newline.
pub open spec fn blank_script(s: Seq<char>) -> bool {
    &&& forall|k: int| 0 <= k < s.len() ==> (#[trigger] s[k] == ' ' || s[k] == '\t' || s[k] == '\n')
    &&& (s.len() == 0 || s.last() == '\n')
}

proof fn lemma_opt_pass_blank(t: Seq<Token>, idx: nat)
    requires
        idx <= t.len(),
        blank_tokens(t),
        t.len() == 0 || t.last() == Token::EndStatement,
        forall|p: int| 0 <= p < idx ==> #[trigger] t[p] == Token::EndStatement,
    ensures
        forall|k: int| 0 <= k < opt_pass(t, idx).len() ==> #[trigger] opt_pass(t, idx)[k] == Token::EndStatement,
    decreases 2 * t.len() - idx,
{
    if idx >= t.len() {
    } else if foldable_at(t, idx as int) {
        assert(t[idx as int] is Ident || t[idx as int] == Token::EndStatement);
    } else if t[idx as int] == Token::EndStatement && idx + 1 < t.len() && t[idx + 1int] == Token::EndStatement {
        let u = t.remove(idx + 1int);
        assert(blank_tokens(u)) by {
            assert forall|k: int| 0 <= k < u.len() implies (#[trigger] u[k] is Ident || u[k] == Token::EndStatement) by {
                if k <= idx { assert(u[k] == t[k]); } else { assert(u[k] == t[k + 1]); }
            }
        }
        assert(u.last() == Token::EndStatement) by {
            if idx + 1 == t.len() - 1 { assert(u.last() == t[idx as int]); } else { assert(u.last() == t.last()); }
        }
        assert forall|p: int| 0 <= p < idx implies #[trigger] u[p] == Token::EndStatement by {
            assert(u[p] == t[p]);
        }
        lemma_opt_pass_blank(u, idx);
    } else if t[idx as int] is Ident && idx + 1 < t.len() && t[idx + 1int] == Token::EndStatement {
        let u = t.remove(idx as int);
        assert(blank_tokens(u)) by {
            assert forall|k: int| 0 <= k < u.len() implies (#[trigger] u[k] is Ident || u[k] == Token::EndStatement) by {
                if k < idx { assert(u[k] == t[k]); } else { assert(u[k] == t[k + 1]); }
            }
        }
        assert(u.last() == t.last());
        assert forall|p: int| 0 <= p < idx implies #[trigger] u[p] == Token::EndStatement by {
            assert(u[p] == t[p]);
        }
        lemma_opt_pass_blank(u, idx);
    } else if t[idx as int] is Ident && idx + 1 < t.len() && t[idx + 1int] is Ident {
        let sum = t[idx as int]->Ident_0 + t[idx + 1int]->Ident_0;
        let merged = if sum > 255 { 255u8 } else { sum as u8 };
        let u = t.update(idx as int, Token::Ident(merged)).remove(idx + 1int);
        assert(blank_tokens(u)) by {
            assert forall|k: int| 0 <= k < u.len() implies (#[trigger] u[k] is Ident || u[k] == Token::EndStatement) by {
                if k < idx { assert(u[k] == t[k]); } else if k > idx { assert(u[k] == t[k + 1]); }
            }
        }
        assert(u.last() == t.last());
        assert forall|p: int| 0 <= p < idx implies #[trigger] u[p] == Token::EndStatement by {
            assert(u[p] == t[p]);
        }
        lemma_opt_pass_blank(u, idx);
    } else {
        assert(t[idx as int] is Ident || t[idx as int] == Token::EndStatement);
        if t[idx as int] is Ident {
            assert(idx + 1 < t.len());
            assert(t[idx + 1int] is Ident || t[idx + 1int] == Token::EndStatement);
        }
        lemma_opt_pass_blank(t, idx + 1);
    }
}

proof fn lemma_strip_front_terminators(t: Seq<Token>)
    requires
        forall|k: int| 0 <= k < t.len() ==> #[trigger] t[k] == Token::EndStatement,
    ensures
        strip_front(t).len() == 0,
    decreases t.len(),
{
    if t.len() > 0 {
        assert forall|k: int| 0 <= k < t.drop_first().len() implies #[trigger] t.drop_first()[k] == Token::EndStatement by {
            assert(t.drop_first()[k] == t[k + 1]);
        }
        lemma_strip_front_terminators(t.drop_first());
    }
}

proof fn lemma_settled_fixed(t: Seq<Token>, idx: nat)
    requires
        forall|k: int| idx <= k < t.len() ==> #[trigger] settled_at(t, k),
    ensures
        opt_pass(t, idx) == t,
    decreases t.len() - idx,
{
    if idx < t.len() {
        assert(settled_at(t, idx as int));
        lemma_settled_fixed(t, idx + 1);
    }
}

/// Optimizing an optimized sequence changes nothing, unless it ends with
/// indentation just before its terminator (that indentation then stands
/// before a terminator and is dropped).
pub proof fn lemma_optimize_idempotent(t: Seq<Token>)
    requires
        optimized(t).len() < 2 || !(optimized(t)[optimized(t).len() - 2] is Ident),
    ensures
        optimized(optimized(t)) == optimized(t),
{
    let r = optimized(t);
    lemma_settle_fixed(t);
    lemma_fixed_no_pattern(settle(t), 0);
    lemma_optimized_clean(settle(t));
    assert forall|k: int| 0 <= k < r.len() implies #[trigger] settled_at(r, k) by {
        assert(!foldable_at(r, k));
        if k + 1 < r.len() {
            assert(!(r[k] == Token::EndStatement && r[k + 1] == Token::EndStatement));
            if r[k] is Ident {
                assert(!(r[k + 1] is Ident));
                if k + 2 < r.len() {
                    assert(r[k + 1] != Token::EndStatement);
                }
            }
        }
    }
    lemma_settled_fixed(r, 0);
    lemma_opt_pass_len(r, 0);
    assert(settle(r) == r);
    if r.len() == 1 {
        assert(r.drop_first().len() == 0);
        assert(strip_front(r) == strip_front(r.drop_first()));
        assert(strip_back(strip_front(r)).push(Token::EndStatement) =~= r);
    } else {
        assert(strip_front(r) == r);
        let d = r.drop_last();
        assert(d.last() == r[r.len() - 2]);
        assert(strip_back(r) == strip_back(d));
        assert(strip_back(d) == d);
        assert(d.push(Token::EndStatement) =~= r);
    }
}

proof fn lemma_settle_blank(t: Seq<Token>)
    requires
        blank_tokens(t),
        t.len() == 0 || t.last() == Token::EndStatement,
    ensures
        forall|k: int| 0 <= k < settle(t).len() ==> #[trigger] settle(t)[k] == Token::EndStatement,
    decreases t.len(),
{
    lemma_opt_pass_blank(t, 0);
    let u = opt_pass(t, 0);
    if u.len() < t.len() {
        assert(blank_tokens(u)) by {
            assert forall|k: int| 0 <= k < u.len() implies (#[trigger] u[k] is Ident || u[k] == Token::EndStatement) by {
                assert(u[k] == Token::EndStatement);
            }
        }
        if u.len() > 0 {
            assert(u[u.len() - 1] == Token::EndStatement);
        }
        lemma_settle_blank(u);
    }
}

/// Indentation and terminators alone optimize to one terminator.
pub proof fn lemma_blank_tokens_optimize(t: Seq<Token>)
    requires
        blank_tokens(t),
        t.len() == 0 || t.last() == Token::EndStatement,
    ensures
        optimized(t) == seq![Token::EndStatement],
{
    lemma_settle_blank(t);
    lemma_strip_front_terminators(settle(t));
    let e: Seq<Token> = seq![];
    assert(strip_front(settle(t)) =~= e);
    assert(e.push(Token::EndStatement) =~= seq![Token::EndStatement]);
}

proof fn lemma_space_groups_chars(s: Seq<char>, i: nat)
    ensures
        forall|k: int| i <= k < i + 4 * space_groups(s, i) ==> #[trigger] s[k] == ' ',
    decreases s.len() - i,
{
    if i + 4 <= s.len() && s[i as int] == ' ' && s[i + 1int] == ' ' && s[i + 2int] == ' ' && s[i + 3int] == ' ' {
        lemma_space_groups_chars(s, i + 4);
    }
}

proof fn lemma_tab_run_chars(s: Seq<char>, i: nat)
    ensures
        forall|k: int| i <= k < i + tab_run(s, i) ==> #[trigger] s[k] == '\t',
    decreases s.len() - i,
{
    if i < s.len() && s[i as int] == '\t' {
        lemma_tab_run_chars(s, i + 1);
    }
}

proof fn lemma_lex_blank(s: Seq<char>, i: nat, line_start: bool)
    requires
        blank_script(s),
        i <= s.len(),
    ensures
        lex(s, i, line_start) is Ok ==> {
            let t = lex(s, i, line_start)->Ok_0;
            &&& blank_tokens(t)
            &&& (i < s.len() ==> t.len() > 0 && t.last() == Token::EndStatement)
        },
    decreases s.len() - i, if line_start { 1nat } else { 0nat },
{
    if i >= s.len() {
    } else if line_start {
        let g = space_groups(s, i);
        let j = i + 4 * g;
        let t = tab_run(s, j);
        lemma_space_groups_bound(s, i);
        lemma_tab_run_bound(s, j);
        lemma_space_groups_chars(s, i);
        lemma_tab_run_chars(s, j);
        if g + t <= 255 {
            lemma_lex_blank(s, j + t, false);
            if j + t == s.len() {
                assert(s[s.len() - 1] == ' ' || s[s.len() - 1] == '\t');
            }
            let ind_spaces = if g > 0 { seq![Token::Ident(g as u8)] } else { seq![] };
            let ind_tabs = if t > 0 { seq![Token::Ident(t as u8)] } else { seq![] };
            if lex(s, j + t, false) is Ok {
                let rest = lex(s, j + t, false)->Ok_0;
                let all = (ind_spaces + ind_tabs) + rest;
                assert(blank_tokens(all)) by {
                    assert forall|k: int| 0 <= k < all.len() implies (#[trigger] all[k] is Ident || all[k] == Token::EndStatement) by {
                        if k >= (ind_spaces + ind_tabs).len() { assert(all[k] == rest[k - (ind_spaces + ind_tabs).len()]); }
                    }
                }
                assert(all.last() == rest.last());
            }
        }
    } else {
        let c = s[i as int];
        assert(c == ' ' || c == '\t' || c == '\n');
        if c == ' ' {
            lemma_lex_blank(s, i + 1, false);
        } else if c == '\n' {
            lemma_lex_blank(s, i + 1, true);
            if lex(s, i + 1, true) is Ok {
                let rest = lex(s, i + 1, true)->Ok_0;
                let all = seq![Token::EndStatement] + rest;
                assert(blank_tokens(all)) by {
                    assert forall|k: int| 0 <= k < all.len() implies (#[trigger] all[k] is Ident || all[k] == Token::EndStatement) by {
                        if k >= 1 { assert(all[k] == rest[k - 1]); }
                    }
                }
                if i + 1 < s.len() {
                    assert(all.last() == rest.last());
                }
            }
        }
    }
}

/// A script of blank lines (spaces, tabs and newlines, each line ended by
/// a newline) that tokenizes, optimizes to a single statement terminator.
pub proof fn lemma_blank_script_optimizes(s: Seq<char>)
    requires
        blank_script(s),
        lex_script(s) is Ok,
    ensures
        optimized(lex_script(s)->Ok_0) == seq![Token::EndStatement],
{
    lemma_lex_blank(s, 0, true);
    lemma_blank_tokens_optimize(lex_script(s)->Ok_0);
}

} // verus!
