use vstd::prelude::*;
use super::token::Token;
use super::entry::Entry;
use crate::text::{to_chars, string_of};

verus! {

/// Letters and the underscore: the characters that start an identifier.
pub open spec fn is_ident_start(c: char) -> bool {
    ('a' <= c && c <= 'z') || ('A' <= c && c <= 'Z') || c == '_'
}

/// The characters that continue an identifier.
pub open spec fn is_ident_char(c: char) -> bool {
    is_ident_start(c) || ('0' <= c && c <= '9')
}

/// Space and tab.
pub open spec fn is_blank(c: char) -> bool {
    c == ' ' || c == '\t'
}

/// Line feed and carriage return.
pub open spec fn is_newline(c: char) -> bool {
    c == '\n' || c == '\r'
}

/// The single-character symbols.
pub open spec fn is_symbol(c: char) -> bool {
    c == '#' || c == '{' || c == '}' || c == '(' || c == ')' || c == ',' || c == '='
}

/// The end of the run of identifier characters that starts at `i`.
pub open spec fn ident_end(s: Seq<char>, i: int) -> int
    decreases s.len() - i,
{
    if 0 <= i < s.len() && is_ident_char(s[i]) {
        ident_end(s, i + 1)
    } else {
        i
    }
}

/// The end of the run of spaces and tabs that starts at `i`.
pub open spec fn blank_end(s: Seq<char>, i: int) -> int
    decreases s.len() - i,
{
    if 0 <= i < s.len() && is_blank(s[i]) {
        blank_end(s, i + 1)
    } else {
        i
    }
}

/// The position of the first line feed at or after `i`, or the end of `s`.
pub open spec fn line_end(s: Seq<char>, i: int) -> int
    decreases s.len() - i,
{
    if 0 <= i < s.len() && s[i] != '\n' {
        line_end(s, i + 1)
    } else {
        i
    }
}

/// Scans the inside of a string quoted by `q`, from position `i` on: a
/// backslash escapes the character after it, the first unescaped `q`
/// closes the string. The result is whether the string is closed, and where
/// the lexeme ends (the end of the input when it is not closed).
pub open spec fn string_end(s: Seq<char>, q: char, i: int) -> (bool, int)
    decreases s.len() - i,
{
    if i < 0 || i >= s.len() {
        (false, s.len() as int)
    } else if s[i] == '\\' {
        if i + 1 < s.len() {
            string_end(s, q, i + 2)
        } else {
            (false, s.len() as int)
        }
    } else if s[i] == q {
        (true, i + 1)
    } else {
        string_end(s, q, i + 1)
    }
}

/// The literal `until( \t)+?(.*)$`, a lexeme of its own.
pub open spec fn until_literal() -> Seq<char> {
    seq!['u', 'n', 't', 'i', 'l', '(', ' ', '\t', ')', '+', '?', '(', '.', '*', ')', '$']
}

/// Whether `w` occurs in `s` at position `i`.
pub open spec fn occurs_at(s: Seq<char>, i: int, w: Seq<char>) -> bool {
    0 <= i && i + w.len() <= s.len() && s.subrange(i, i + w.len()) == w
}

/// The kind of a word that is a keyword.
pub open spec fn keyword_kind(w: Seq<char>) -> Option<Token> {
    if w == seq!['e', 'n', 'd'] {
        Some(Token::End)
    } else if w == seq!['f', 'u', 'n', 'c', 't', 'i', 'o', 'n'] {
        Some(Token::Function)
    } else if w == seq!['l', 'o', 'c', 'a', 'l'] {
        Some(Token::Local)
    } else if w == seq!['e', 'l', 's', 'e'] || w == seq!['e', 'l', 's', 'e', 'i', 'f']
        || w == seq!['f', 'o', 'r'] || w == seq!['i', 'f']
        || w == seq!['r', 'e', 'p', 'e', 'a', 't'] || w == seq!['w', 'h', 'i', 'l', 'e'] {
        Some(Token::Block)
    } else if w == seq!['a', 'n', 'd'] || w == seq!['b', 'r', 'e', 'a', 'k']
        || w == seq!['d', 'o'] || w == seq!['f', 'a', 'l', 's', 'e']
        || w == seq!['i', 'n'] || w == seq!['n', 'i', 'l'] || w == seq!['n', 'o', 't']
        || w == seq!['o', 'r'] || w == seq!['r', 'e', 'q', 'u', 'i', 'r', 'e']
        || w == seq!['r', 'e', 't', 'u', 'r', 'n'] || w == seq!['t', 'h', 'e', 'n']
        || w == seq!['t', 'r', 'u', 'e'] || w == seq!['p', 'r', 'i', 'n', 't']
        || w == seq!['a', 'r', 'g', 'u', 'm', 'e', 'n', 't', 's'] {
        Some(Token::BuiltIn)
    } else if w == seq!['e', 'x', 'p', 'o', 'r', 't'] {
        Some(Token::Export)
    } else if w == seq!['t', 'a', 's', 'k'] {
        Some(Token::Task)
    } else if w == seq!['w', 'a', 't', 'c', 'h'] {
        Some(Token::Watch)
    } else {
        None
    }
}

/// The lexeme that starts at position `i` of `s`: its kind and its end.
/// This is the longest match among the lexeme definitions, a keyword
/// winning over an identifier of the same text.
pub open spec fn scan(s: Seq<char>, i: int) -> (Token, int) {
    let c = s[i];
    if is_newline(c) {
        (Token::Newline, i + 1)
    } else if is_blank(c) {
        (Token::Whitespace, blank_end(s, i))
    } else if c == '"' || c == '\'' {
        let (closed, e) = string_end(s, c, i + 1);
        (if closed { Token::LiteralString } else { Token::Error }, e)
    } else if is_ident_start(c) {
        if occurs_at(s, i, until_literal()) {
            (Token::Until, i + until_literal().len())
        } else {
            let e = ident_end(s, i);
            match keyword_kind(s.subrange(i, e)) {
                Some(t) => (t, e),
                None => (Token::Identifier, e),
            }
        }
    } else if is_symbol(c) {
        (Token::Symbols, i + 1)
    } else if c == '@' {
        (Token::Mute, i + 1)
    } else if c == '-' && i + 1 < s.len() && s[i + 1] == '-' {
        (Token::Comment, line_end(s, i + 2))
    } else {
        (Token::Error, i + 1)
    }
}

/// The lexemes of `s` from position `i` on.
pub open spec fn lex_from(s: Seq<char>, i: int) -> Seq<(Token, Seq<char>)>
    decreases s.len() - i,
{
    if i < 0 || i >= s.len() {
        Seq::empty()
    } else {
        let (t, e) = scan(s, i);
        if i < e <= s.len() {
            seq![(t, s.subrange(i, e))] + lex_from(s, e)
        } else {
            Seq::empty()
        }
    }
}

/// The lexemes of `s`.
pub open spec fn lex(s: Seq<char>) -> Seq<(Token, Seq<char>)> {
    lex_from(s, 0)
}

proof fn lemma_ident_end(s: Seq<char>, i: int)
    requires
        0 <= i <= s.len(),
    ensures
        i <= ident_end(s, i) <= s.len(),
    decreases s.len() - i,
{
    if i < s.len() && is_ident_char(s[i]) {
        lemma_ident_end(s, i + 1);
    }
}

proof fn lemma_blank_end(s: Seq<char>, i: int)
    requires
        0 <= i <= s.len(),
    ensures
        i <= blank_end(s, i) <= s.len(),
    decreases s.len() - i,
{
    if i < s.len() && is_blank(s[i]) {
        lemma_blank_end(s, i + 1);
    }
}

proof fn lemma_line_end(s: Seq<char>, i: int)
    requires
        0 <= i <= s.len(),
    ensures
        i <= line_end(s, i) <= s.len(),
    decreases s.len() - i,
{
    if i < s.len() && s[i] != '\n' {
        lemma_line_end(s, i + 1);
    }
}

proof fn lemma_string_end(s: Seq<char>, q: char, i: int)
    requires
        0 <= i <= s.len(),
    ensures
        i <= string_end(s, q, i).1 <= s.len(),
    decreases s.len() - i,
{
    if i < s.len() {
        if s[i] == '\\' {
            if i + 1 < s.len() {
                lemma_string_end(s, q, i + 2);
            }
        } else if s[i] != q {
            lemma_string_end(s, q, i + 1);
        }
    }
}

/// Each lexeme is at least one character long and ends within the input.
pub proof fn lemma_scan_advances(s: Seq<char>, i: int)
    requires
        0 <= i < s.len(),
    ensures
        i < scan(s, i).1 <= s.len(),
{
    let c = s[i];
    if is_blank(c) {
        lemma_blank_end(s, i + 1);
    }
    if is_ident_start(c) {
        lemma_ident_end(s, i + 1);
    }
    lemma_string_end(s, c, i + 1);
    if c == '-' && i + 1 < s.len() && s[i + 1] == '-' {
        lemma_line_end(s, i + 2);
    }
}


/// The end of the run of identifier characters from `i`.
fn ident_end_at(cs: &Vec<char>, i: usize) -> (r: usize)
    requires
        i <= cs@.len(),
    ensures
        r == ident_end(cs@, i as int),
{
    let mut j = i;
    while j < cs.len() && is_ident_char_exec(cs[j])
        invariant
            i <= j <= cs@.len(),
            ident_end(cs@, j as int) == ident_end(cs@, i as int),
        decreases cs@.len() - j,
    {
        j = j + 1;
    }
    j
}

/// The end of the run of spaces and tabs from `i`.
fn blank_end_at(cs: &Vec<char>, i: usize) -> (r: usize)
    requires
        i <= cs@.len(),
    ensures
        r == blank_end(cs@, i as int),
{
    let mut j = i;
    while j < cs.len() && (cs[j] == ' ' || cs[j] == '\t')
        invariant
            i <= j <= cs@.len(),
            blank_end(cs@, j as int) == blank_end(cs@, i as int),
        decreases cs@.len() - j,
    {
        j = j + 1;
    }
    j
}

/// The position of the first line feed at or after `i`, or the end.
fn line_end_at(cs: &Vec<char>, i: usize) -> (r: usize)
    requires
        i <= cs@.len(),
    ensures
        r == line_end(cs@, i as int),
{
    let mut j = i;
    while j < cs.len() && cs[j] != '\n'
        invariant
            i <= j <= cs@.len(),
            line_end(cs@, j as int) == line_end(cs@, i as int),
        decreases cs@.len() - j,
    {
        j = j + 1;
    }
    j
}

/// Scans a string quoted by `q` whose inside starts at `i`.
fn string_end_at(cs: &Vec<char>, q: char, i: usize) -> (r: (bool, usize))
    requires
        i <= cs@.len(),
    ensures
        (r.0, r.1 as int) == string_end(cs@, q, i as int),
{
    let mut j = i;
    while j < cs.len()
        invariant
            i <= j <= cs@.len(),
            string_end(cs@, q, j as int) == string_end(cs@, q, i as int),
        decreases cs@.len() - j,
    {
        if cs[j] == '\\' {
            if j + 1 < cs.len() {
                j = j + 2;
            } else {
                return (false, cs.len());
            }
        } else if cs[j] == q {
            return (true, j + 1);
        } else {
            j = j + 1;
        }
    }
    (false, j)
}

/// Whether `c` starts an identifier.
fn is_ident_start_exec(c: char) -> (r: bool)
    ensures
        r == is_ident_start(c),
{
    ('a' <= c && c <= 'z') || ('A' <= c && c <= 'Z') || c == '_'
}

/// Whether `c` continues an identifier.
fn is_ident_char_exec(c: char) -> (r: bool)
    ensures
        r == is_ident_char(c),
{
    is_ident_start_exec(c) || ('0' <= c && c <= '9')
}

/// Whether the characters `cs[from..to]` are the word `w`.
fn word_is(cs: &Vec<char>, from: usize, to: usize, w: &[char]) -> (r: bool)
    requires
        from <= to <= cs@.len(),
    ensures
        r == (cs@.subrange(from as int, to as int) == w@),
{
    if to - from != w.len() {
        return false;
    }
    let mut k: usize = 0;
    while k < w.len()
        invariant
            from <= to <= cs@.len(),
            to - from == w@.len(),
            k <= w@.len(),
            forall|m: int| 0 <= m < k ==> cs@[from + m] == w@[m],
        decreases w@.len() - k,
    {
        if cs[from + k] != w[k] {
            assert(cs@.subrange(from as int, to as int)[k as int] != w@[k as int]);
            return false;
        }
        k = k + 1;
    }
    assert(cs@.subrange(from as int, to as int) =~= w@);
    true
}

/// The kind of the word `cs[from..to]` if it is a keyword.
fn keyword_kind_of(cs: &Vec<char>, from: usize, to: usize) -> (r: Option<Token>)
    requires
        from <= to <= cs@.len(),
    ensures
        r == keyword_kind(cs@.subrange(from as int, to as int)),
{
    if word_is(cs, from, to, &['e', 'n', 'd']) {
        Some(Token::End)
    } else if word_is(cs, from, to, &['f', 'u', 'n', 'c', 't', 'i', 'o', 'n']) {
        Some(Token::Function)
    } else if word_is(cs, from, to, &['l', 'o', 'c', 'a', 'l']) {
        Some(Token::Local)
    } else if word_is(cs, from, to, &['e', 'l', 's', 'e']) || word_is(cs, from, to, &['e', 'l', 's', 'e', 'i', 'f']) || word_is(cs, from, to, &['f', 'o', 'r']) || word_is(cs, from, to, &['i', 'f']) || word_is(cs, from, to, &['r', 'e', 'p', 'e', 'a', 't']) || word_is(cs, from, to, &['w', 'h', 'i', 'l', 'e']) {
        Some(Token::Block)
    } else if word_is(cs, from, to, &['a', 'n', 'd']) || word_is(cs, from, to, &['b', 'r', 'e', 'a', 'k']) || word_is(cs, from, to, &['d', 'o']) || word_is(cs, from, to, &['f', 'a', 'l', 's', 'e']) || word_is(cs, from, to, &['i', 'n']) || word_is(cs, from, to, &['n', 'i', 'l']) || word_is(cs, from, to, &['n', 'o', 't']) || word_is(cs, from, to, &['o', 'r']) || word_is(cs, from, to, &['r', 'e', 'q', 'u', 'i', 'r', 'e']) || word_is(cs, from, to, &['r', 'e', 't', 'u', 'r', 'n']) || word_is(cs, from, to, &['t', 'h', 'e', 'n']) || word_is(cs, from, to, &['t', 'r', 'u', 'e']) || word_is(cs, from, to, &['p', 'r', 'i', 'n', 't']) || word_is(cs, from, to, &['a', 'r', 'g', 'u', 'm', 'e', 'n', 't', 's']) {
        Some(Token::BuiltIn)
    } else if word_is(cs, from, to, &['e', 'x', 'p', 'o', 'r', 't']) {
        Some(Token::Export)
    } else if word_is(cs, from, to, &['t', 'a', 's', 'k']) {
        Some(Token::Task)
    } else if word_is(cs, from, to, &['w', 'a', 't', 'c', 'h']) {
        Some(Token::Watch)
    } else {
        None
    }
}

/// The lexeme that starts at position `i`: its kind and its end.
pub fn scan_at(cs: &Vec<char>, i: usize) -> (r: (Token, usize))
    requires
        i < cs.len(),
    ensures
        (r.0, r.1 as int) == scan(cs@, i as int),
        i < r.1 <= cs@.len(),
{
    proof {
        lemma_scan_advances(cs@, i as int);
    }
    let c = cs[i];
    if c == '\n' || c == '\r' {
        (Token::Newline, i + 1)
    } else if c == ' ' || c == '\t' {
        (Token::Whitespace, blank_end_at(cs, i))
    } else if c == '"' || c == '\'' {
        let (closed, e) = string_end_at(cs, c, i + 1);
        (if closed { Token::LiteralString } else { Token::Error }, e)
    } else if is_ident_start_exec(c) {
        let until: &[char] = &['u', 'n', 't', 'i', 'l', '(', ' ', '\t', ')', '+', '?', '(', '.', '*', ')', '$'];
        assert(until@ == until_literal());
        if until.len() <= cs.len() - i && word_is(cs, i, i + until.len(), until) {
            (Token::Until, i + until.len())
        } else {
            let e = ident_end_at(cs, i);
            match keyword_kind_of(cs, i, e) {
                Some(t) => (t, e),
                None => (Token::Identifier, e),
            }
        }
    } else if c == '#' || c == '{' || c == '}' || c == '(' || c == ')' || c == ',' || c == '=' {
        (Token::Symbols, i + 1)
    } else if c == '@' {
        (Token::Mute, i + 1)
    } else if c == '-' && i + 1 < cs.len() && cs[i + 1] == '-' {
        (Token::Comment, line_end_at(cs, i + 2))
    } else {
        (Token::Error, i + 1)
    }
}

/// A lexer over the characters of a manifest.
pub struct Lexer {
    chars: Vec<char>,
    pos: usize,
}

impl Lexer {
    /// The characters being lexed.
    pub closed spec fn input(&self) -> Seq<char> {
        self.chars@
    }

    /// The position of the next lexeme.
    pub closed spec fn position(&self) -> int {
        self.pos as int
    }

    /// A lexer at the start of `input`.
    pub fn new(input: &str) -> (r: Lexer)
        ensures
            r.input() == input@,
            r.position() == 0,
    {
        Lexer { chars: to_chars(input), pos: 0 }
    }

    /// The next lexeme, as its text and its kind, or `None` at the end of
    /// the input.
    pub fn next_token(&mut self) -> (r: Option<(String, Token)>)
        requires
            0 <= old(self).position() <= old(self).input().len(),
        ensures
            final(self).input() == old(self).input(),
            0 <= final(self).position() <= final(self).input().len(),
            old(self).position() >= old(self).input().len() ==> r is None && final(self).position() == old(self).position(),
            old(self).position() < old(self).input().len() ==> {
                let (t, e) = scan(old(self).input(), old(self).position());
                &&& r matches Some((text, kind))
                &&& kind == t
                &&& text@ == old(self).input().subrange(old(self).position(), e)
                &&& final(self).position() == e
            },
    {
        if self.pos >= self.chars.len() {
            return None;
        }
        let (t, e) = scan_at(&self.chars, self.pos);
        let text = string_of(&self.chars, self.pos, e);
        self.pos = e;
        Some((text, t))
    }
}

/// The lexemes of `input`, in order.
pub fn tokenize(input: &str) -> (r: Vec<Entry>)
    ensures
        r.deep_view() == lex(input@),
{
    let cs = to_chars(input);
    let mut out: Vec<Entry> = Vec::new();
    let mut i: usize = 0;
    while i < cs.len()
        invariant
            cs@ == input@,
            i <= cs@.len(),
            out.deep_view() + lex_from(cs@, i as int) == lex(cs@),
        decreases cs@.len() - i,
    {
        let (t, e) = scan_at(&cs, i);
        let text = string_of(&cs, i, e);
        let ghost before = out.deep_view();
        out.push(Entry { token: t, text });
        assert(out.deep_view() =~= before.push((t, cs@.subrange(i as int, e as int))));
        assert(lex_from(cs@, i as int) == seq![(t, cs@.subrange(i as int, e as int))] + lex_from(cs@, e as int));
        assert(out.deep_view() + lex_from(cs@, e as int) =~= before + lex_from(cs@, i as int));
        i = e;
    }
    assert(lex_from(cs@, i as int) =~= Seq::<(Token, Seq<char>)>::empty());
    assert(out.deep_view() + Seq::<(Token, Seq<char>)>::empty() =~= out.deep_view());
    out
}

} // verus!
