pub mod token;
pub mod entry;
pub mod lexer;
pub mod spec;

use vstd::prelude::*;
use self::token::Token;
use self::entry::Entry;
use self::lexer::{lex, tokenize};
use self::spec::{
    after, walk, opens, closes, block_delta, nest_delta, is_line_break, skip_blanks, lua_follows,
    blank, carried, opens_block, starts_loop, block_from, lemma_block_from_bounds, add_line, closing_line,
    is_shell_start, line_end_index, command_words, words_from, word_piece, lua_escape, lua_string, exec_call, name_after, function_from,
    stmt_end, local_names, local_from, first_word, first_description, description_of, task_from,
    run_from, task_header, texts, banner, lemma_walk_bounds, lemma_line_end_index, lemma_stmt_end,
    lemma_task_from_bounds,
};
use crate::table::{StringTable, table_insert};
use crate::text::{contains_string, remove_all_of, trim_str, text_is, push_char, to_chars, string_of, join_strings};

verus! {

/// The translator of a manifest into Lua source.
pub struct Parser {
    entries: Vec<Entry>,
    pos: usize,
    pub functions: Vec<String>,
    pub tasks: StringTable,
    pub watches: StringTable,
    pub exports: StringTable,
    pub assignments: Vec<String>,
}

impl Parser {
    /// The lexemes of the manifest.
    pub closed spec fn lexemes(&self) -> Seq<(Token, Seq<char>)> {
        self.entries.deep_view()
    }

    /// The position of the next lexeme to read.
    pub closed spec fn position(&self) -> int {
        self.pos as int
    }

    /// The names of the functions collected so far.
    pub closed spec fn function_names(&self) -> Seq<Seq<char>> {
        self.functions.deep_view()
    }

    /// The tasks collected so far: name and description.
    pub closed spec fn task_table(&self) -> Seq<(Seq<char>, Seq<char>)> {
        self.tasks@
    }

    /// The watches collected so far.
    pub closed spec fn watch_table(&self) -> Seq<(Seq<char>, Seq<char>)> {
        self.watches@
    }

    /// The exports collected so far.
    pub closed spec fn export_table(&self) -> Seq<(Seq<char>, Seq<char>)> {
        self.exports@
    }

    /// The names assigned by local declarations so far.
    pub closed spec fn assignment_names(&self) -> Seq<Seq<char>> {
        self.assignments.deep_view()
    }

    /// Whether the position lies within the lexemes (or just after them).
    pub open spec fn well_placed(&self) -> bool {
        0 <= self.position() <= self.lexemes().len()
    }

    /// A parser at the start of the manifest `input`, with nothing collected.
    pub fn new(input: &str) -> (r: Parser)
        ensures
            r.lexemes() == lex(input@),
            r.position() == 0,
            r.function_names() == Seq::<Seq<char>>::empty(),
            r.task_table() == Seq::<(Seq<char>, Seq<char>)>::empty(),
            r.watch_table() == Seq::<(Seq<char>, Seq<char>)>::empty(),
            r.export_table() == Seq::<(Seq<char>, Seq<char>)>::empty(),
            r.assignment_names() == Seq::<Seq<char>>::empty(),
    {
        let r = Parser {
            entries: tokenize(input),
            pos: 0,
            functions: Vec::new(),
            tasks: StringTable::new(),
            watches: StringTable::new(),
            exports: StringTable::new(),
            assignments: Vec::new(),
        };
        assert(r.function_names() =~= Seq::<Seq<char>>::empty());
        assert(r.assignment_names() =~= Seq::<Seq<char>>::empty());
        r
    }

    /// The lexeme at the position, if there is one.
    fn peek(&self) -> (r: Option<Entry>)
        requires
            self.well_placed(),
        ensures
            self.position() < self.lexemes().len() ==> (r matches Some(e) && e@ == self.lexemes()[self.position()]),
            self.position() >= self.lexemes().len() ==> r is None,
    {
        if self.pos < self.entries.len() {
            let e = self.entries[self.pos].duplicate();
            assert(self.entries.deep_view()[self.pos as int] == self.entries@[self.pos as int]@);
            Some(e)
        } else {
            None
        }
    }

    /// Moves past the lexeme at the position, if there is one.
    fn chomp(&mut self)
        requires
            old(self).well_placed(),
        ensures
            final(self).position() == after(old(self).lexemes(), old(self).position()),
            final(self).entries == old(self).entries,
            final(self).functions == old(self).functions,
            final(self).tasks == old(self).tasks,
            final(self).watches == old(self).watches,
            final(self).exports == old(self).exports,
            final(self).assignments == old(self).assignments,
    {
        if self.pos < self.entries.len() {
            self.pos = self.pos + 1;
        }
    }

    /// The lexeme at `i`.
    fn at(&self, i: usize) -> (r: &Entry)
        requires
            i < self.lexemes().len(),
        ensures
            r@ == self.lexemes()[i as int],
    {
        assert(self.entries.deep_view()[i as int] == self.entries@[i as int]@);
        &self.entries[i]
    }

    /// Whether the lexeme at `i` is a line feed.
    fn line_break_at(&self, i: usize) -> (r: bool)
        requires
            i < self.lexemes().len(),
        ensures
            r == is_line_break(self.lexemes()[i as int]),
    {
        let e = self.at(i);
        e.token == Token::Newline && text_is(&e.text, "\n")
    }

    /// Whether the lexeme at `i` opens a block.
    fn opens_at(&self, i: usize) -> (r: bool)
        requires
            i < self.lexemes().len(),
        ensures
            r == opens(self.lexemes()[i as int]),
    {
        let e = self.at(i);
        e.token == Token::Function
            || (e.token == Token::Block && (text_is(&e.text, "if") || text_is(&e.text, "repeat")))
            || (e.token == Token::BuiltIn && text_is(&e.text, "do"))
    }

    /// Whether the lexeme at `i` closes a block.
    fn closes_at(&self, i: usize) -> (r: bool)
        requires
            i < self.lexemes().len(),
        ensures
            r == closes(self.lexemes()[i as int]),
    {
        let e = self.at(i);
        e.token == Token::End || (e.token == Token::Identifier && text_is(&e.text, "until"))
    }

    /// How the lexeme at `i` changes the depth of nesting of blocks and
    /// brackets.
    fn nest_delta_at(&self, i: usize) -> (r: i8)
        requires
            i < self.lexemes().len(),
        ensures
            r as int == nest_delta(self.lexemes()[i as int]),
            -1 <= r <= 1,
    {
        let e = self.at(i);
        if self.opens_at(i) {
            1
        } else if self.closes_at(i) {
            -1
        } else if (e.token == Token::Symbols && (text_is(&e.text, "(") || text_is(&e.text, "{")))
            || (e.token == Token::Error && text_is(&e.text, "[")) {
            1
        } else if (e.token == Token::Symbols && (text_is(&e.text, ")") || text_is(&e.text, "}")))
            || (e.token == Token::Error && text_is(&e.text, "]")) {
            -1
        } else {
            0
        }
    }

    /// The first position at or after `k` that is not white space.
    fn skip_blanks_from(&self, k: usize) -> (r: usize)
        requires
            k <= self.lexemes().len(),
        ensures
            r as int == skip_blanks(self.lexemes(), k as int),
            k <= r <= self.lexemes().len(),
    {
        let mut m = k;
        while m < self.entries.len() && self.at(m).token == Token::Whitespace
            invariant
                k <= m <= self.lexemes().len(),
                self.lexemes().len() == self.entries@.len(),
                skip_blanks(self.lexemes(), m as int) == skip_blanks(self.lexemes(), k as int),
            decreases self.lexemes().len() - m,
        {
            m = m + 1;
        }
        m
    }

    /// Whether a call, an assignment, a field or an index follows `k`.
    fn lua_follows_at(&self, k: usize) -> (r: bool)
        requires
            k <= self.lexemes().len(),
        ensures
            r == lua_follows(self.lexemes(), k as int),
    {
        let m = self.skip_blanks_from(k);
        if m < self.entries.len() {
            let x = &self.at(m).text;
            text_is(x, "(") || text_is(x, "=") || text_is(x, ".") || text_is(x, ":") || text_is(x, "[")
                || text_is(x, "{")
        } else {
            false
        }
    }

    /// Whether the line of a task that starts at `i` is a shell command.
    fn shell_start_at(&self, i: usize) -> (r: bool)
        requires
            i < self.lexemes().len(),
        ensures
            r == is_shell_start(self.lexemes(), i as int, self.function_names(), self.assignment_names()),
    {
        let n = self.entries.len();
        assert(i < n);
        let e = self.at(i);
        e.token == Token::Mute || e.token == Token::Error || (e.token == Token::Identifier
            && !self.closes_at(i) && !contains_string(&self.functions, &e.text)
            && !contains_string(&self.assignments, &e.text) && !self.lua_follows_at(i + 1))
    }

    /// The position of the first line feed at or after `k`, or the end.
    fn line_end_from(&self, k: usize) -> (r: usize)
        requires
            k <= self.lexemes().len(),
        ensures
            r as int == line_end_index(self.lexemes(), k as int),
    {
        let mut m = k;
        while m < self.entries.len() && !self.line_break_at(m)
            invariant
                k <= m <= self.lexemes().len(),
                self.lexemes().len() == self.entries@.len(),
                line_end_index(self.lexemes(), m as int) == line_end_index(self.lexemes(), k as int),
            decreases self.lexemes().len() - m,
        {
            m = m + 1;
        }
        m
    }

    /// The words of the shell command on the lexemes `k..e`.
    fn command_words_of(&self, k: usize, e: usize) -> (r: Vec<String>)
        requires
            k <= e <= self.lexemes().len(),
        ensures
            r.deep_view() == command_words(self.lexemes(), k as int, e as int),
    {
        let ghost es = self.lexemes();
        let mut words: Vec<String> = Vec::new();
        let mut cur = String::new();
        let mut started = false;
        let mut m = k;
        assert(words.deep_view() + words_from(es, k as int, e as int, cur@, started)
            =~= command_words(es, k as int, e as int));
        while m < e
            invariant
                k <= m <= e <= es.len(),
                es == self.lexemes(),
                words.deep_view() + words_from(es, m as int, e as int, cur@, started)
                    == command_words(es, k as int, e as int),
            decreases e - m,
        {
            let x = self.at(m);
            let ghost before = words.deep_view();
            let ghost before_cur = cur@;
            let ghost before_started = started;
            if x.token == Token::Whitespace {
                if started {
                    words.push(cur);
                }
                cur = String::new();
                started = false;
                assert(words.deep_view() + words_from(es, m + 1, e as int, cur@, started) =~= before
                    + words_from(es, m as int, e as int, before_cur, before_started));
            } else if x.token == Token::Comment || x.token == Token::Newline {
            } else {
                let piece = word_piece_of(&x);
                cur.append(piece.as_str());
                started = true;
            }
            m = m + 1;
        }
        let ghost before = words.deep_view();
        if started {
            words.push(cur);
        }
        assert(words.deep_view() =~= before + words_from(es, m as int, e as int, cur@, started));
        words
    }

    /// The text of `es[k..j]`.
    fn texts_of(&self, k: usize, j: usize) -> (r: String)
        requires
            k <= j <= self.lexemes().len(),
        ensures
            r@ == texts(self.lexemes(), k as int, j as int),
    {
        let ghost es = self.lexemes();
        let mut out = String::new();
        let mut m = k;
        assert(es.subrange(k as int, k as int).map_values(|e: (Token, Seq<char>)| e.1) =~= Seq::<Seq<char>>::empty());
        while m < j
            invariant
                k <= m <= j <= es.len(),
                es == self.lexemes(),
                out@ == texts(es, k as int, m as int),
            decreases j - m,
        {
            let x = self.at(m);
            out.append(x.text.as_str());
            assert(es.subrange(k as int, m + 1).map_values(|e: (Token, Seq<char>)| e.1).drop_last()
                =~= es.subrange(k as int, m as int).map_values(|e: (Token, Seq<char>)| e.1));
            m = m + 1;
        }
        out
    }

    /// The names declared from `k` on, after `local`.
    fn local_names_from(&self, k: usize) -> (r: Vec<String>)
        requires
            k <= self.lexemes().len(),
        ensures
            r.deep_view() == local_names(self.lexemes(), k as int),
    {
        let ghost es = self.lexemes();
        let mut names: Vec<String> = Vec::new();
        let mut m = k;
        assert(names.deep_view() + local_names(es, k as int) =~= local_names(es, k as int));
        loop
            invariant
                k <= m <= es.len(),
                es == self.lexemes(),
                names.deep_view() + local_names(es, m as int) == local_names(es, k as int),
            decreases es.len() - m,
        {
            if m >= self.entries.len() {
                assert(names.deep_view() + local_names(es, m as int) =~= names.deep_view());
                return names;
            }
            let x = self.at(m);
            if x.token == Token::Whitespace || (x.token == Token::Symbols && text_is(&x.text, ",")) {
                m = m + 1;
            } else if x.token == Token::Identifier {
                let ghost before = names.deep_view();
                names.push(x.text.clone());
                assert(names.deep_view() + local_names(es, m + 1) =~= before + local_names(es, m as int));
                m = m + 1;
            } else {
                assert(names.deep_view() + local_names(es, m as int) =~= names.deep_view());
                return names;
            }
        }
    }

    /// The first word of `es[k..e]`, or nothing.
    fn first_word_in(&self, k: usize, e: usize) -> (r: String)
        requires
            k <= e <= self.lexemes().len(),
        ensures
            r@ == first_word(self.lexemes(), k as int, e as int),
    {
        let mut m = k;
        while m < e
            invariant
                k <= m <= e <= self.lexemes().len(),
                first_word(self.lexemes(), m as int, e as int) == first_word(self.lexemes(), k as int, e as int),
            decreases e - m,
        {
            let x = self.at(m);
            if x.token == Token::Identifier {
                return x.text.clone();
            }
            m = m + 1;
        }
        String::new()
    }

    /// The description given by the first comment of `es[k..e]`, or nothing.
    fn first_description_in(&self, k: usize, e: usize) -> (r: String)
        requires
            k <= e <= self.lexemes().len(),
        ensures
            r@ == first_description(self.lexemes(), k as int, e as int),
    {
        let mut m = k;
        while m < e
            invariant
                k <= m <= e <= self.lexemes().len(),
                first_description(self.lexemes(), m as int, e as int) == first_description(self.lexemes(), k as int, e as int),
            decreases e - m,
        {
            let x = self.at(m);
            if x.token == Token::Comment {
                let stripped = remove_all_of(x.text.as_str(), "--");
                return trim_str(stripped.as_str());
            }
            m = m + 1;
        }
        String::new()
    }

    /// Lays out a block, a function or the body of a task from the
    /// position into `out`, the line in progress being `cur`, up to (not
    /// past) the lexeme that closes it; in a task, the first word becomes
    /// the header and shell lines become calls of `exec`.
    fn walk_block(&mut self, out0: String, cur0: String, aw0: bool, named0: bool, task: bool) -> (r: String)
        requires
            old(self).well_placed(),
        ensures
            final(self).well_placed(),
            final(self).entries == old(self).entries,
            final(self).functions == old(self).functions,
            final(self).tasks == old(self).tasks,
            final(self).watches == old(self).watches,
            final(self).exports == old(self).exports,
            final(self).assignments == old(self).assignments,
            (final(self).position(), r@) == walk(
                old(self).lexemes(),
                old(self).position(),
                Seq::empty(),
                Seq::empty(),
                aw0,
                false,
                named0,
                task,
                old(self).function_names(),
                old(self).assignment_names(),
                out0@,
                cur0@,
            ),
    {
        let ghost es = self.lexemes();
        let ghost funcs = self.function_names();
        let ghost asg = self.assignment_names();
        let ghost start = walk(es, self.position(), Seq::empty(), Seq::empty(), aw0, false, named0, task, funcs, asg, out0@, cur0@);
        let mut out = out0;
        let mut stack: Vec<String> = Vec::new();
        let mut aws: Vec<bool> = Vec::new();
        let mut cur = cur0;
        let mut aw = aw0;
        let mut named = named0;
        let mut ls = false;
        assert(stack.deep_view() =~= Seq::<Seq<char>>::empty());
        assert(aws@ =~= Seq::<bool>::empty());
        loop
            invariant
                self.well_placed(),
                es == old(self).lexemes(),
                self.lexemes() == es,
                funcs == self.function_names(),
                asg == self.assignment_names(),
                self.entries == old(self).entries,
                self.functions == old(self).functions,
                self.tasks == old(self).tasks,
                self.watches == old(self).watches,
                self.exports == old(self).exports,
                self.assignments == old(self).assignments,
                stack@.len() == aws@.len(),
                start == walk(es, old(self).position(), Seq::empty(), Seq::empty(), aw0, false, named0, task, funcs, asg, out0@, cur0@),
                walk(es, self.position(), stack.deep_view(), aws@, aw, ls, named, task, funcs, asg, out@, cur@) == start,
            decreases es.len() - self.position(),
        {
            if self.pos >= self.entries.len() {
                let ghost o0 = out@;
                if !is_empty_str(&cur) {
                    push_char(&mut out, '\n');
                    out.append(cur.as_str());
                    assert(out@ =~= add_line(o0, cur@));
                }
                return out;
            }
            let i = self.pos;
            let tok = self.at(i).token;
            if task && ls && tok == Token::Whitespace {
                cur.append(self.at(i).text.as_str());
                self.pos = i + 1;
            } else if task && ls && self.shell_start_at(i) {
                let e = self.line_end_from(i);
                proof {
                    lemma_line_end_index(es, i as int);
                }
                assert(!is_line_break(es[i as int]));
                let words = self.command_words_of(i, e);
                cur.append(exec_call_str(&words).as_str());
                self.pos = e;
                ls = false;
            } else if task && !named && tok == Token::Identifier {
                let header = task_header_str(self.at(i).text.as_str());
                cur.append(header.as_str());
                named = true;
                ls = false;
                self.pos = i + 1;
            } else if tok == Token::Newline {
                let ghost o0 = out@;
                if !is_empty_str(&cur) {
                    push_char(&mut out, '\n');
                    out.append(cur.as_str());
                    assert(out@ =~= add_line(o0, cur@));
                }
                cur = String::new();
                ls = true;
                named = true;
                self.pos = i + 1;
            } else if tok == Token::Comment {
                self.pos = i + 1;
            } else if self.closes_at(i) {
                let ghost o0 = out@;
                let ghost c0 = cur@;
                push_char(&mut out, '\n');
                if !is_blank_str(&cur) {
                    out.append(cur.as_str());
                }
                out.append(self.at(i).text.as_str());
                assert(out@ =~= add_line(o0, closing_line(c0, es[i as int].1)));
                if stack.len() == 0 {
                    return out;
                }
                let ghost sv = stack.deep_view();
                let ghost av = aws@;
                let deferred = stack.pop().unwrap();
                let a = aws.pop().unwrap();
                assert(stack.deep_view() =~= sv.drop_last());
                assert(aws@ =~= av.drop_last());
                cur = deferred;
                aw = a;
                ls = false;
                self.pos = i + 1;
            } else if self.opens_block_at(i, aw) {
                let ghost sv = stack.deep_view();
                let ghost av = aws@;
                let looped = self.starts_loop_at(i);
                if is_blank_str(&cur) {
                    let ghost c0 = cur@;
                    stack.push(cur);
                    assert(stack.deep_view() =~= sv.push(c0));
                    cur = self.at(i).text.clone();
                } else {
                    stack.push(String::new());
                    assert(stack.deep_view() =~= sv.push(Seq::<char>::empty()));
                    cur.append(self.at(i).text.as_str());
                }
                aws.push(aw);
                assert(aws@ =~= av.push(aw));
                aw = looped;
                ls = false;
                self.pos = i + 1;
            } else {
                if tok == Token::BuiltIn && text_is(&self.at(i).text, "do") {
                    aw = false;
                }
                cur.append(self.at(i).text.as_str());
                ls = false;
                self.pos = i + 1;
            }
        }
    }

    /// Whether the lexeme at `i` opens a nested block, `aw` telling that the
    /// innermost block awaits its `do`.
    fn opens_block_at(&self, i: usize, aw: bool) -> (r: bool)
        requires
            i < self.lexemes().len(),
        ensures
            r == opens_block(self.lexemes()[i as int], aw),
    {
        let e = self.at(i);
        e.token == Token::Function || (e.token == Token::Block && (text_is(&e.text, "if")
            || text_is(&e.text, "for") || text_is(&e.text, "while") || text_is(&e.text, "repeat")))
            || (e.token == Token::BuiltIn && text_is(&e.text, "do") && !aw)
    }

    /// Whether `for` or `while` is the lexeme at `i`.
    fn starts_loop_at(&self, i: usize) -> (r: bool)
        requires
            i < self.lexemes().len(),
        ensures
            r == starts_loop(self.lexemes()[i as int]),
    {
        let e = self.at(i);
        e.token == Token::Block && (text_is(&e.text, "for") || text_is(&e.text, "while"))
    }

    /// Lays out a function definition from its `function` keyword at the
    /// position, the line so far being `cur`, up to (not past) its closing
    /// `end`, and records its name.
    fn parse_function(&mut self, out: String, cur: String) -> (r: String)
        requires
            old(self).well_placed(),
            old(self).position() < old(self).lexemes().len(),
        ensures
            final(self).well_placed(),
            final(self).entries == old(self).entries,
            final(self).tasks == old(self).tasks,
            final(self).watches == old(self).watches,
            final(self).exports == old(self).exports,
            final(self).assignments == old(self).assignments,
            (final(self).position(), r@, final(self).functions.deep_view()) == function_from(
                old(self).lexemes(),
                old(self).position(),
                old(self).functions.deep_view(),
                old(self).assignments.deep_view(),
                out@,
                cur@,
            ),
    {
        let ghost es = self.lexemes();
        let ghost funcs = self.functions.deep_view();
        let start = self.pos;
        let n = self.entries.len();
        assert(start < n);
        let m = self.skip_blanks_from(start + 1);
        let name = if m < self.entries.len() && self.at(m).token == Token::Identifier {
            Some(self.at(m).text.clone())
        } else {
            None
        };
        let mut cur = cur;
        cur.append(self.at(start).text.as_str());
        self.pos = start + 1;
        let looped = self.starts_loop_at(start);
        let r = self.walk_block(out, cur, looped, true, false);
        match name {
            Some(n) => {
                self.functions.push(n);
            },
            None => {},
        }
        assert(self.functions.deep_view() =~= funcs + name_after(es, start + 1));
        r
    }

    /// Lays out a block from its keyword at the position, the line so far
    /// being `cur`, up to (not past) its closing lexeme.
    fn parse_block(&mut self, out: String, cur: String) -> (r: String)
        requires
            old(self).well_placed(),
            old(self).position() < old(self).lexemes().len(),
        ensures
            final(self).well_placed(),
            final(self).entries == old(self).entries,
            final(self).functions == old(self).functions,
            final(self).tasks == old(self).tasks,
            final(self).watches == old(self).watches,
            final(self).exports == old(self).exports,
            final(self).assignments == old(self).assignments,
            (final(self).position(), r@) == block_from(
                old(self).lexemes(),
                old(self).position(),
                old(self).function_names(),
                old(self).assignment_names(),
                out@,
                cur@ + old(self).lexemes()[old(self).position()].1,
            ),
    {
        let start = self.pos;
        let n = self.entries.len();
        assert(start < n);
        let mut cur = cur;
        cur.append(self.at(start).text.as_str());
        let looped = self.starts_loop_at(start);
        self.pos = start + 1;
        self.walk_block(out, cur, looped, true, false)
    }

    /// Reads a local declaration from the position: the whole statement, up
    /// to (not past) the line feed outside every block and bracket, and
    /// records the declared names as assignments.
    pub fn parse_local(&mut self) -> (r: String)
        requires
            old(self).well_placed(),
        ensures
            final(self).well_placed(),
            final(self).lexemes() == old(self).lexemes(),
            final(self).function_names() == old(self).function_names(),
            final(self).task_table() == old(self).task_table(),
            final(self).watch_table() == old(self).watch_table(),
            final(self).export_table() == old(self).export_table(),
            ({
                let (j, text, asg) = local_from(old(self).lexemes(), old(self).position(), old(self).assignment_names());
                &&& final(self).position() == j
                &&& r@ == text
                &&& final(self).assignment_names() == asg
            }),
    {
        let ghost es = self.lexemes();
        let ghost asg = self.assignments.deep_view();
        let start = self.pos;
        let mut m = start;
        let mut nest: i128 = 0;
        while m < self.entries.len() && !(self.line_break_at(m) && nest <= 0)
            invariant
                start <= m <= es.len(),
                es == self.lexemes(),
                es.len() == self.entries@.len(),
                -(m - start) <= nest <= m - start,
                m - start <= usize::MAX,
                stmt_end(es, m as int, nest as int) == stmt_end(es, start as int, 0),
            decreases es.len() - m,
        {
            let delta = self.nest_delta_at(m);
            nest = nest + delta as i128;
            m = m + 1;
        }
        let text = self.texts_of(start, m);
        let mut names = if start < self.entries.len() {
            self.local_names_from(start + 1)
        } else {
            Vec::new()
        };
        proof {
            if start >= es.len() {
                assert(names.deep_view() =~= local_names(es, start + 1));
            }
        }
        let ghost nv = names.deep_view();
        self.assignments.append(&mut names);
        assert(self.assignments.deep_view() =~= asg + nv);
        self.pos = m;
        text
    }

    /// Lays out a task from its `task` keyword at the position, the line so
    /// far being `cur`, up to (not past) its closing lexeme, and records it
    /// with its description.
    fn parse_task(&mut self, out: String, cur: String) -> (r: String)
        requires
            old(self).well_placed(),
            old(self).position() < old(self).lexemes().len(),
        ensures
            final(self).well_placed(),
            final(self).entries == old(self).entries,
            final(self).functions == old(self).functions,
            final(self).watches == old(self).watches,
            final(self).exports == old(self).exports,
            final(self).assignments == old(self).assignments,
            ({
                let (j, name, desc, o) = task_from(
                    old(self).lexemes(),
                    old(self).position(),
                    old(self).function_names(),
                    old(self).assignment_names(),
                    out@,
                    cur@,
                );
                &&& final(self).position() == j
                &&& r@ == o
                &&& final(self).tasks@ == table_insert(old(self).tasks@, name, desc)
            }),
    {
        let ghost es = self.lexemes();
        let p = self.pos;
        let e = self.line_end_from(p);
        proof {
            lemma_line_end_index(es, p as int);
        }
        let name = if p < e { self.first_word_in(p + 1, e) } else { String::new() };
        let n = self.entries.len();
        assert(p < n);
        proof {
            lemma_walk_bounds(es, p + 1, Seq::empty(), Seq::empty(), false, false, false, true,
                self.function_names(), self.assignment_names(), out@, cur@);
        }
        self.pos = p + 1;
        let r = self.walk_block(out, cur, false, false, true);
        let j = self.pos;
        let description = self.first_description_in(p + 1, j);
        self.tasks.insert(name, description);
        r
    }

    /// Translates the manifest from the current position into Lua source:
    /// the banner line, then the manifest's lines with each task made a
    /// function of the table `motive.tasks`. Collects the function names,
    /// the tasks and the assignments on the way.
    pub fn run(&mut self) -> (r: String)
        requires
            old(self).well_placed(),
        ensures
            final(self).well_placed(),
            final(self).lexemes() == old(self).lexemes(),
            final(self).position() >= final(self).lexemes().len(),
            final(self).watch_table() == old(self).watch_table(),
            final(self).export_table() == old(self).export_table(),
            ({
                let (out, funcs, tasks, asg) = run_from(
                    old(self).lexemes(),
                    old(self).position(),
                    banner(),
                    Seq::empty(),
                    old(self).function_names(),
                    old(self).task_table(),
                    old(self).assignment_names(),
                );
                &&& r@ == out
                &&& final(self).function_names() == funcs
                &&& final(self).task_table() == tasks
                &&& final(self).assignment_names() == asg
            }),
    {
        let ghost es = self.lexemes();
        let ghost start = run_from(es, self.position(), banner(), Seq::empty(), self.functions.deep_view(), self.tasks@, self.assignments.deep_view());
        let mut out = "-- Generated by Motive".to_owned();
        let mut cur = String::new();
        loop
            invariant
                self.well_placed(),
                es == old(self).lexemes(),
                self.lexemes() == es,
                self.watch_table() == old(self).watch_table(),
                self.export_table() == old(self).export_table(),
                start == run_from(es, old(self).position(), banner(), Seq::empty(), old(self).functions.deep_view(), old(self).tasks@, old(self).assignments.deep_view()),
                run_from(es, self.position(), out@, cur@, self.functions.deep_view(), self.tasks@, self.assignments.deep_view()) == start,
            decreases es.len() - self.position(),
        {
            if self.pos >= self.entries.len() {
                let ghost o0 = out@;
                if !is_blank_str(&cur) {
                    push_char(&mut out, '\n');
                    out.append(cur.as_str());
                    assert(out@ =~= add_line(o0, cur@));
                }
                return out;
            }
            let i = self.pos;
            let tok = self.at(i).token;
            if tok == Token::Task {
                let c = carried_str(cur);
                proof {
                    lemma_task_from_bounds(es, i as int, self.function_names(), self.assignment_names(), out@, c@);
                }
                out = self.parse_task(out, c);
                self.chomp();
                cur = String::new();
            } else if tok == Token::Function {
                let c = carried_str(cur);
                proof {
                    lemma_block_from_bounds(es, i as int, self.function_names(), self.assignment_names(), out@, c@ + es[i as int].1);
                }
                out = self.parse_function(out, c);
                self.chomp();
                cur = String::new();
            } else if tok == Token::Local {
                proof {
                    lemma_stmt_end(es, i as int, 0);
                    lemma_stmt_end(es, i + 1, nest_delta(es[i as int]));
                }
                let text = self.parse_local();
                let mut c = carried_str(cur);
                c.append(text.as_str());
                cur = c;
            } else if self.opens_block_at(i, false) {
                let c = carried_str(cur);
                proof {
                    lemma_block_from_bounds(es, i as int, self.function_names(), self.assignment_names(), out@, c@ + es[i as int].1);
                }
                out = self.parse_block(out, c);
                self.chomp();
                cur = String::new();
            } else if tok == Token::Newline {
                let ghost o0 = out@;
                if !is_blank_str(&cur) {
                    push_char(&mut out, '\n');
                    out.append(cur.as_str());
                    assert(out@ =~= add_line(o0, cur@));
                }
                cur = String::new();
                self.pos = i + 1;
            } else if tok == Token::Comment {
                self.pos = i + 1;
            } else {
                cur.append(self.at(i).text.as_str());
                self.pos = i + 1;
            }
        }
    }

    /// The collected function names, tasks, watches, exports and
    /// assignments.
    pub fn into_parts(self) -> (r: (Vec<String>, StringTable, StringTable, StringTable, Vec<String>))
        ensures
            r.0.deep_view() == self.function_names(),
            r.1@ == self.task_table(),
            r.2@ == self.watch_table(),
            r.3@ == self.export_table(),
            r.4.deep_view() == self.assignment_names(),
    {
        (self.functions, self.tasks, self.watches, self.exports, self.assignments)
    }
}

/// `s` in a Lua string: backslashes, double quotes and line breaks escaped.
fn lua_escape_str(s: &str) -> (r: String)
    ensures
        r@ == lua_escape(s@),
{
    let cs = to_chars(s);
    let mut out = String::new();
    let mut i: usize = 0;
    assert(cs@.skip(0) =~= cs@);
    while i < cs.len()
        invariant
            cs@ == s@,
            i <= cs@.len(),
            out@ + lua_escape(cs@.skip(i as int)) == lua_escape(cs@),
        decreases cs@.len() - i,
    {
        let c = cs[i];
        let ghost rest = cs@.skip(i as int);
        let ghost before = out@;
        if c == '\\' {
            push_char(&mut out, '\\');
            push_char(&mut out, '\\');
        } else if c == '"' {
            push_char(&mut out, '\\');
            push_char(&mut out, '"');
        } else if c == '\n' {
            push_char(&mut out, '\\');
            push_char(&mut out, 'n');
        } else if c == '\r' {
            push_char(&mut out, '\\');
            push_char(&mut out, 'r');
        } else {
            push_char(&mut out, c);
        }
        assert(rest.skip(1) =~= cs@.skip(i + 1));
        assert(out@ + lua_escape(cs@.skip(i + 1)) =~= before + lua_escape(rest));
        i = i + 1;
    }
    assert(cs@.skip(i as int) =~= Seq::<char>::empty());
    assert(out@ + Seq::<char>::empty() =~= out@);
    out
}

/// What a lexeme adds to the shell word it stands in.
fn word_piece_of(x: &Entry) -> (r: String)
    ensures
        r@ == word_piece((x.token, x.text@)),
{
    let cs = to_chars(x.text.as_str());
    if x.token == Token::LiteralString && cs.len() >= 2 {
        string_of(&cs, 1, cs.len() - 1)
    } else {
        x.text.clone()
    }
}

/// The Lua string literal that holds `s`.
fn lua_string_str(s: &str) -> (r: String)
    ensures
        r@ == lua_string(s@),
{
    let mut out = "\"".to_owned();
    let escaped = lua_escape_str(s);
    out.append(escaped.as_str());
    out.append("\"");
    out
}

/// The Lua call that runs the shell command made of `words`.
fn exec_call_str(words: &Vec<String>) -> (r: String)
    ensures
        r@ == exec_call(words.deep_view()),
{
    let mut quoted: Vec<String> = Vec::new();
    let mut i: usize = 0;
    while i < words.len()
        invariant
            i <= words@.len(),
            quoted.deep_view() == words.deep_view().take(i as int).map_values(|w: Seq<char>| lua_string(w)),
        decreases words@.len() - i,
    {
        let ghost before = quoted.deep_view();
        let q = lua_string_str(words[i].as_str());
        quoted.push(q);
        assert(quoted.deep_view() =~= before.push(lua_string(words@[i as int]@)));
        assert(words.deep_view().take(i + 1) =~= words.deep_view().take(i as int).push(words@[i as int]@));
        assert(quoted.deep_view() =~= words.deep_view().take(i + 1).map_values(|w: Seq<char>| lua_string(w)));
        i = i + 1;
    }
    assert(words.deep_view().take(i as int) =~= words.deep_view());
    let mut out = "exec(".to_owned();
    let args = join_strings(&quoted, ", ");
    out.append(args.as_str());
    out.append(")");
    out
}

/// Whether `s` is empty.
fn is_empty_str(s: &String) -> (r: bool)
    ensures
        r == (s@.len() == 0),
{
    let cs = to_chars(s.as_str());
    cs.len() == 0
}

/// Whether `s` is made of spaces and tabs only.
fn is_blank_str(s: &String) -> (r: bool)
    ensures
        r == blank(s@),
{
    let cs = to_chars(s.as_str());
    let mut i: usize = 0;
    while i < cs.len()
        invariant
            cs@ == s@,
            i <= cs@.len(),
            forall|k: int| 0 <= k < i ==> cs@[k] == ' ' || cs@[k] == '\t',
        decreases cs@.len() - i,
    {
        if cs[i] != ' ' && cs[i] != '\t' {
            return false;
        }
        i = i + 1;
    }
    true
}

/// What a top-level line in progress passes on to a construct.
fn carried_str(cur: String) -> (r: String)
    ensures
        r@ == carried(cur@),
{
    if is_blank_str(&cur) {
        String::new()
    } else {
        cur
    }
}

/// The header of the Lua function of the task `name`.
fn task_header_str(name: &str) -> (r: String)
    ensures
        r@ == task_header(name@),
{
    let mut text = "motive.tasks.".to_owned();
    text.append(name);
    text.append(" = function()");
    text
}

} // verus!
