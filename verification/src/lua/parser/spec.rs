use vstd::prelude::*;
use super::token::Token;
use crate::text::{concat, join, remove_all, trim};
use crate::table::table_insert;

verus! {

/// The first line of every translation.
pub open spec fn banner() -> Seq<char> {
    "-- Generated by Motive"@
}

/// The line that opens the Lua function of the task `name`.
pub open spec fn task_header(name: Seq<char>) -> Seq<char> {
    "motive.tasks."@ + name + " = function()"@
}

/// The description that a task takes from a comment: the comment without
/// its dashes and without white space at either end.
pub open spec fn description_of(comment: Seq<char>) -> Seq<char> {
    trim(remove_all(comment, "--"@))
}

/// The texts of the lexemes `es[i..j]`, one after another.
pub open spec fn texts(es: Seq<(Token, Seq<char>)>, i: int, j: int) -> Seq<char> {
    concat(es.subrange(i, j).map_values(|e: (Token, Seq<char>)| e.1))
}

/// A line feed lexeme: the end of a line.
pub open spec fn is_line_break(e: (Token, Seq<char>)) -> bool {
    e.0 == Token::Newline && e.1 == "\n"@
}

/// A lexeme that opens a block closed by `end` (or, for `repeat`, by
/// `until`): `function`, `if`, `repeat`, and `do` (which also opens the
/// bodies of `for` and `while`).
pub open spec fn opens(e: (Token, Seq<char>)) -> bool {
    e.0 == Token::Function
        || (e.0 == Token::Block && (e.1 == "if"@ || e.1 == "repeat"@))
        || (e.0 == Token::BuiltIn && e.1 == "do"@)
}

/// A lexeme that closes a block: `end`, or `until` after `repeat`.
pub open spec fn closes(e: (Token, Seq<char>)) -> bool {
    e.0 == Token::End || (e.0 == Token::Identifier && e.1 == "until"@)
}

/// How a lexeme changes the depth of block nesting.
pub open spec fn block_delta(e: (Token, Seq<char>)) -> int {
    if opens(e) {
        1
    } else if closes(e) {
        -1
    } else {
        0
    }
}

/// How a lexeme changes the depth of nesting of blocks and brackets.
pub open spec fn nest_delta(e: (Token, Seq<char>)) -> int {
    block_delta(e) + if (e.0 == Token::Symbols && (e.1 == "("@ || e.1 == "{"@)) || (e.0 == Token::Error
        && e.1 == "["@) {
        1int
    } else if (e.0 == Token::Symbols && (e.1 == ")"@ || e.1 == "}"@)) || (e.0 == Token::Error && e.1
        == "]"@) {
        -1int
    } else {
        0int
    }
}

/// The first position at or after `k` that is not white space.
pub open spec fn skip_blanks(es: Seq<(Token, Seq<char>)>, k: int) -> int
    decreases es.len() - k,
{
    if 0 <= k < es.len() && es[k].0 == Token::Whitespace {
        skip_blanks(es, k + 1)
    } else {
        k
    }
}

/// Whether the lexeme after the white space from `k` makes a Lua statement
/// of the word before it: a call, an assignment, a field or an index.
pub open spec fn lua_follows(es: Seq<(Token, Seq<char>)>, k: int) -> bool {
    let m = skip_blanks(es, k);
    0 <= m < es.len() && (es[m].1 == "("@ || es[m].1 == "="@ || es[m].1 == "."@ || es[m].1 == ":"@
        || es[m].1 == "["@ || es[m].1 == "{"@)
}

/// Whether the line of a task that starts (after white space) at `i` is a
/// shell command: it starts with `@`, with a character that no Lua
/// statement starts with, or with a word that is not a known function or
/// local and is not used as a call, an assignment, a field or an index.
pub open spec fn is_shell_start(
    es: Seq<(Token, Seq<char>)>,
    i: int,
    funcs: Seq<Seq<char>>,
    asg: Seq<Seq<char>>,
) -> bool {
    let (t, x) = es[i];
    t == Token::Mute || t == Token::Error || (t == Token::Identifier && !closes(es[i])
        && !funcs.contains(x) && !asg.contains(x) && !lua_follows(es, i + 1))
}

/// The position of the first line feed at or after `k`, or the end.
pub open spec fn line_end_index(es: Seq<(Token, Seq<char>)>, k: int) -> int
    decreases es.len() - k,
{
    if 0 <= k < es.len() && !is_line_break(es[k]) {
        line_end_index(es, k + 1)
    } else {
        k
    }
}

/// What a lexeme adds to the shell word it stands in: the inside of a
/// quoted string, the text of any other lexeme.
pub open spec fn word_piece(e: (Token, Seq<char>)) -> Seq<char> {
    if e.0 == Token::LiteralString && e.1.len() >= 2 {
        e.1.subrange(1, e.1.len() - 1)
    } else {
        e.1
    }
}

/// The words of the shell command on `es[k..e]`, `cur` being the word in
/// progress (`started` when one is): white space ends a word, comments and
/// line ends add nothing, any other lexeme adds its piece to the word.
pub open spec fn words_from(
    es: Seq<(Token, Seq<char>)>,
    k: int,
    e: int,
    cur: Seq<char>,
    started: bool,
) -> Seq<Seq<char>>
    decreases e - k,
{
    let done = if started {
        seq![cur]
    } else {
        Seq::<Seq<char>>::empty()
    };
    if k < 0 || k >= e || k >= es.len() {
        done
    } else if es[k].0 == Token::Whitespace {
        done + words_from(es, k + 1, e, Seq::empty(), false)
    } else if es[k].0 == Token::Comment || es[k].0 == Token::Newline {
        words_from(es, k + 1, e, cur, started)
    } else {
        words_from(es, k + 1, e, cur + word_piece(es[k]), true)
    }
}

/// The words of the shell command on `es[k..e]`: the program, then its
/// arguments.
pub open spec fn command_words(es: Seq<(Token, Seq<char>)>, k: int, e: int) -> Seq<Seq<char>> {
    words_from(es, k, e, Seq::empty(), false)
}

/// `s` in a Lua string: backslashes, double quotes, line feeds and
/// carriage returns escaped.
pub open spec fn lua_escape(s: Seq<char>) -> Seq<char>
    decreases s.len(),
{
    if s.len() == 0 {
        Seq::empty()
    } else {
        let c = s[0];
        let x = if c == '\\' {
            seq!['\\', '\\']
        } else if c == '"' {
            seq!['\\', '"']
        } else if c == '\n' {
            seq!['\\', 'n']
        } else if c == '\r' {
            seq!['\\', 'r']
        } else {
            seq![c]
        };
        x + lua_escape(s.skip(1))
    }
}

/// The Lua string literal that holds `s`.
pub open spec fn lua_string(s: Seq<char>) -> Seq<char> {
    "\""@ + lua_escape(s) + "\""@
}

/// The Lua call that runs the shell command made of `words`: each word is
/// one argument of `exec`.
pub open spec fn exec_call(words: Seq<Seq<char>>) -> Seq<char> {
    "exec("@ + join(words.map_values(|w: Seq<char>| lua_string(w)), ", "@) + ")"@
}

/// Whether `s` is made of spaces and tabs only (or is empty).
pub open spec fn blank(s: Seq<char>) -> bool {
    forall|k: int| 0 <= k < s.len() ==> s[k] == ' ' || s[k] == '\t'
}

/// The output `out` with the line `line` added: each line is written after
/// a line feed (the banner being the first line).
pub open spec fn add_line(out: Seq<char>, line: Seq<char>) -> Seq<char> {
    out + seq!['\n'] + line
}

/// The output with the line in progress `cur` added, when it holds anything.
pub open spec fn flush(out: Seq<char>, cur: Seq<char>) -> Seq<char> {
    if cur.len() > 0 {
        add_line(out, cur)
    } else {
        out
    }
}

/// The line that closes a block with the lexeme `x`: the line in progress
/// and `x` when the line holds more than white space, else `x` alone.
pub open spec fn closing_line(cur: Seq<char>, x: Seq<char>) -> Seq<char> {
    if blank(cur) {
        x
    } else {
        cur + x
    }
}

/// Whether `for` or `while` starts at the lexeme: its `do` belongs to it.
pub open spec fn starts_loop(e: (Token, Seq<char>)) -> bool {
    e.0 == Token::Block && (e.1 == "for"@ || e.1 == "while"@)
}

/// Whether a lexeme opens a nested block, `aw` telling that the innermost
/// block is a loop whose `do` has not come yet: `function`, `if`, `for`,
/// `while`, `repeat`, and a `do` that no loop owns.
pub open spec fn opens_block(e: (Token, Seq<char>), aw: bool) -> bool {
    e.0 == Token::Function || (e.0 == Token::Block && (e.1 == "if"@ || e.1 == "for"@ || e.1 == "while"@
        || e.1 == "repeat"@)) || (e.0 == Token::BuiltIn && e.1 == "do"@ && !aw)
}

/// The layout of a block, a function or a task, read from position `i`.
/// The text is written line by line into `out`: a line holds the lexemes
/// of a line of the manifest without its comments, and a line that holds
/// nothing is left out. `cur` is the line in progress. A block's closing
/// lexeme ends a line of its own (after the line's other content, when
/// there is more than white space). When a nested block opens after white
/// space only, that white space is kept back and goes on the line after
/// the nested block (`stack` holds what each open nested block kept back,
/// `aws` whether each enclosing block awaits its `do`, `aw` whether the
/// innermost one does). In a task (`task`), the first word of its first
/// line (until `named`) becomes the header of its Lua function, and a line
/// whose first word is a shell command becomes a call of `exec` (`ls` tells
/// that only white space precedes on the line). The reading stops at the
/// lexeme that closes the outermost block, which is not passed. The result
/// is the position where the reading stopped and the output.
pub open spec fn walk(
    es: Seq<(Token, Seq<char>)>,
    i: int,
    stack: Seq<Seq<char>>,
    aws: Seq<bool>,
    aw: bool,
    ls: bool,
    named: bool,
    task: bool,
    funcs: Seq<Seq<char>>,
    asg: Seq<Seq<char>>,
    out: Seq<char>,
    cur: Seq<char>,
) -> (int, Seq<char>)
    decreases es.len() - i,
{
    if i < 0 || i >= es.len() {
        (i, flush(out, cur))
    } else if task && ls && es[i].0 == Token::Whitespace {
        walk(es, i + 1, stack, aws, aw, true, named, task, funcs, asg, out, cur + es[i].1)
    } else if task && ls && is_shell_start(es, i, funcs, asg) {
        let e = line_end_index(es, i);
        if i < e <= es.len() {
            walk(es, e, stack, aws, aw, false, named, task, funcs, asg, out, cur + exec_call(command_words(es, i, e)))
        } else {
            (i, out)
        }
    } else if task && !named && es[i].0 == Token::Identifier {
        walk(es, i + 1, stack, aws, aw, false, true, task, funcs, asg, out, cur + task_header(es[i].1))
    } else if es[i].0 == Token::Newline {
        walk(es, i + 1, stack, aws, aw, true, true, task, funcs, asg, flush(out, cur), Seq::empty())
    } else if es[i].0 == Token::Comment {
        walk(es, i + 1, stack, aws, aw, ls, named, task, funcs, asg, out, cur)
    } else if closes(es[i]) {
        let o = add_line(out, closing_line(cur, es[i].1));
        if stack.len() == 0 {
            (i, o)
        } else {
            walk(es, i + 1, stack.drop_last(), aws.drop_last(), aws.last(), false, named, task, funcs, asg, o, stack.last())
        }
    } else if opens_block(es[i], aw) {
        if blank(cur) {
            walk(es, i + 1, stack.push(cur), aws.push(aw), starts_loop(es[i]), false, named, task, funcs, asg, out, es[i].1)
        } else {
            walk(es, i + 1, stack.push(Seq::empty()), aws.push(aw), starts_loop(es[i]), false, named, task, funcs, asg, out, cur + es[i].1)
        }
    } else if es[i].0 == Token::BuiltIn && es[i].1 == "do"@ {
        walk(es, i + 1, stack, aws, false, false, named, task, funcs, asg, out, cur + es[i].1)
    } else {
        walk(es, i + 1, stack, aws, aw, false, named, task, funcs, asg, out, cur + es[i].1)
    }
}

/// A block read from the lexeme after its opening keyword at `i`, whose
/// line so far is `cur` (the keyword included), into the output `out`.
pub open spec fn block_from(
    es: Seq<(Token, Seq<char>)>,
    i: int,
    funcs: Seq<Seq<char>>,
    asg: Seq<Seq<char>>,
    out: Seq<char>,
    cur: Seq<char>,
) -> (int, Seq<char>) {
    walk(es, i + 1, Seq::empty(), Seq::empty(), starts_loop(es[i]), false, true, false, funcs, asg, out, cur)
}

/// The name after `k` (past white space), if a word follows.
pub open spec fn name_after(es: Seq<(Token, Seq<char>)>, k: int) -> Seq<Seq<char>> {
    let m = skip_blanks(es, k);
    if 0 <= m < es.len() && es[m].0 == Token::Identifier {
        seq![es[m].1]
    } else {
        Seq::empty()
    }
}

/// A function definition read from its `function` keyword at `i`, the
/// line so far being `cur`, into the output `out`: the position of its
/// closing `end`, the output, and the function names with its own name
/// added.
pub open spec fn function_from(
    es: Seq<(Token, Seq<char>)>,
    i: int,
    funcs: Seq<Seq<char>>,
    asg: Seq<Seq<char>>,
    out: Seq<char>,
    cur: Seq<char>,
) -> (int, Seq<char>, Seq<Seq<char>>) {
    let (j, o) = block_from(es, i, funcs, asg, out, cur + es[i].1);
    (j, o, funcs + name_after(es, i + 1))
}

/// The end of the statement that goes on from `k` at nesting depth `nest`:
/// the first line feed outside every block and bracket, or the end.
pub open spec fn stmt_end(es: Seq<(Token, Seq<char>)>, k: int, nest: int) -> int
    decreases es.len() - k,
{
    if k < 0 || k >= es.len() {
        k
    } else if is_line_break(es[k]) && nest <= 0 {
        k
    } else {
        stmt_end(es, k + 1, nest + nest_delta(es[k]))
    }
}

/// The names declared after `local`: the words up to the first lexeme that
/// is neither a word, white space nor a comma.
pub open spec fn local_names(es: Seq<(Token, Seq<char>)>, k: int) -> Seq<Seq<char>>
    decreases es.len() - k,
{
    if k < 0 || k >= es.len() {
        Seq::empty()
    } else if es[k].0 == Token::Whitespace || (es[k].0 == Token::Symbols && es[k].1 == ","@) {
        local_names(es, k + 1)
    } else if es[k].0 == Token::Identifier {
        seq![es[k].1] + local_names(es, k + 1)
    } else {
        Seq::empty()
    }
}

/// A local declaration read from `i`: the end of the statement (the line
/// feed after it, not passed), its text, and the assignments with its
/// names added.
pub open spec fn local_from(
    es: Seq<(Token, Seq<char>)>,
    i: int,
    asg: Seq<Seq<char>>,
) -> (int, Seq<char>, Seq<Seq<char>>) {
    let j = stmt_end(es, i, 0);
    (j, texts(es, i, j), asg + local_names(es, i + 1))
}

/// The first word of `es[k..e]`, or nothing.
pub open spec fn first_word(es: Seq<(Token, Seq<char>)>, k: int, e: int) -> Seq<char>
    decreases e - k,
{
    if k < 0 || k >= e || k >= es.len() {
        Seq::empty()
    } else if es[k].0 == Token::Identifier {
        es[k].1
    } else {
        first_word(es, k + 1, e)
    }
}

/// The description given by the first comment of `es[k..e]`, or nothing.
pub open spec fn first_description(es: Seq<(Token, Seq<char>)>, k: int, e: int) -> Seq<char>
    decreases e - k,
{
    if k < 0 || k >= e || k >= es.len() {
        Seq::empty()
    } else if es[k].0 == Token::Comment {
        description_of(es[k].1)
    } else {
        first_description(es, k + 1, e)
    }
}

/// A task read from its `task` keyword at `p`, the line so far being
/// `cur`, into the output `out`. The first word after `task` on its line
/// names it, and becomes the header of the task's Lua function on that
/// line; the first comment of the task, up to its closing lexeme, gives its
/// description; the body follows, its shell lines made calls of `exec`.
/// The result is the position of the task's closing lexeme (or the end of
/// the input), the name, the description and the output.
pub open spec fn task_from(
    es: Seq<(Token, Seq<char>)>,
    p: int,
    funcs: Seq<Seq<char>>,
    asg: Seq<Seq<char>>,
    out: Seq<char>,
    cur: Seq<char>,
) -> (int, Seq<char>, Seq<char>, Seq<char>) {
    let name = first_word(es, p + 1, line_end_index(es, p));
    let (j, o) = walk(es, p + 1, Seq::empty(), Seq::empty(), false, false, false, true, funcs, asg, out, cur);
    (j, name, first_description(es, p + 1, j), o)
}

/// The position after consuming the lexeme at `j`, if there is one.
pub open spec fn after(es: Seq<(Token, Seq<char>)>, j: int) -> int {
    if j < es.len() {
        j + 1
    } else {
        j
    }
}

/// What a top-level line in progress passes on to a construct that starts
/// on it: nothing when it holds only white space.
pub open spec fn carried(cur: Seq<char>) -> Seq<char> {
    if blank(cur) {
        Seq::empty()
    } else {
        cur
    }
}

/// The output with the top-level line in progress added, when it holds
/// more than white space.
pub open spec fn flush_top(out: Seq<char>, cur: Seq<char>) -> Seq<char> {
    if blank(cur) {
        out
    } else {
        add_line(out, cur)
    }
}

/// The translation of a manifest from position `i`: the output `out` so
/// far, the line in progress `cur`, the function names, the tasks (name and
/// description) and the assignments. Every top-level statement is kept,
/// line by line, without comments and without lines of white space; tasks
/// become Lua functions of the table `motive.tasks`; the names of functions
/// and locals are collected on the way.
pub open spec fn run_from(
    es: Seq<(Token, Seq<char>)>,
    i: int,
    out: Seq<char>,
    cur: Seq<char>,
    funcs: Seq<Seq<char>>,
    tasks: Seq<(Seq<char>, Seq<char>)>,
    asg: Seq<Seq<char>>,
) -> (Seq<char>, Seq<Seq<char>>, Seq<(Seq<char>, Seq<char>)>, Seq<Seq<char>>)
    decreases es.len() - i,
{
    if i < 0 || i >= es.len() {
        (flush_top(out, cur), funcs, tasks, asg)
    } else if es[i].0 == Token::Task {
        let (j, name, desc, o) = task_from(es, i, funcs, asg, out, carried(cur));
        let next = after(es, j);
        if i < next <= es.len() {
            run_from(es, next, o, Seq::empty(), funcs, table_insert(tasks, name, desc), asg)
        } else {
            (out, funcs, tasks, asg)
        }
    } else if es[i].0 == Token::Function {
        let (j, o, funcs2) = function_from(es, i, funcs, asg, out, carried(cur));
        let next = after(es, j);
        if i < next <= es.len() {
            run_from(es, next, o, Seq::empty(), funcs2, tasks, asg)
        } else {
            (out, funcs, tasks, asg)
        }
    } else if es[i].0 == Token::Local {
        let (j, text, asg2) = local_from(es, i, asg);
        if i < j <= es.len() {
            run_from(es, j, out, carried(cur) + text, funcs, tasks, asg2)
        } else {
            (out, funcs, tasks, asg)
        }
    } else if opens_block(es[i], false) {
        let (j, o) = block_from(es, i, funcs, asg, out, carried(cur) + es[i].1);
        let next = after(es, j);
        if i < next <= es.len() {
            run_from(es, next, o, Seq::empty(), funcs, tasks, asg)
        } else {
            (out, funcs, tasks, asg)
        }
    } else if es[i].0 == Token::Newline {
        run_from(es, i + 1, flush_top(out, cur), Seq::empty(), funcs, tasks, asg)
    } else if es[i].0 == Token::Comment {
        run_from(es, i + 1, out, cur, funcs, tasks, asg)
    } else {
        run_from(es, i + 1, out, cur + es[i].1, funcs, tasks, asg)
    }
}

/// The translation of the lexemes `es`: the text (the banner line, then the
/// manifest's lines), the function names, the tasks and the assignments.
pub open spec fn translation(es: Seq<(Token, Seq<char>)>) -> (
    Seq<char>,
    Seq<Seq<char>>,
    Seq<(Seq<char>, Seq<char>)>,
    Seq<Seq<char>>,
) {
    run_from(es, 0, banner(), Seq::empty(), Seq::empty(), Seq::empty(), Seq::empty())
}

pub proof fn lemma_walk_bounds(
    es: Seq<(Token, Seq<char>)>,
    i: int,
    stack: Seq<Seq<char>>,
    aws: Seq<bool>,
    aw: bool,
    ls: bool,
    named: bool,
    task: bool,
    funcs: Seq<Seq<char>>,
    asg: Seq<Seq<char>>,
    out: Seq<char>,
    cur: Seq<char>,
)
    requires
        0 <= i <= es.len(),
        stack.len() == aws.len(),
    ensures
        i <= walk(es, i, stack, aws, aw, ls, named, task, funcs, asg, out, cur).0 <= es.len(),
        walk(es, i, stack, aws, aw, ls, named, task, funcs, asg, out, cur).0 < es.len() ==> closes(
            es[walk(es, i, stack, aws, aw, ls, named, task, funcs, asg, out, cur).0],
        ),
    decreases es.len() - i,
{
    if i < es.len() {
        if task && ls && es[i].0 == Token::Whitespace {
            lemma_walk_bounds(es, i + 1, stack, aws, aw, true, named, task, funcs, asg, out, cur + es[i].1);
        } else if task && ls && is_shell_start(es, i, funcs, asg) {
            let e = line_end_index(es, i);
            lemma_line_end_index(es, i);
            if i < e <= es.len() {
                lemma_walk_bounds(es, e, stack, aws, aw, false, named, task, funcs, asg, out, cur + exec_call(command_words(es, i, e)));
            }
        } else if task && !named && es[i].0 == Token::Identifier {
            lemma_walk_bounds(es, i + 1, stack, aws, aw, false, true, task, funcs, asg, out, cur + task_header(es[i].1));
        } else if es[i].0 == Token::Newline {
            lemma_walk_bounds(es, i + 1, stack, aws, aw, true, true, task, funcs, asg, flush(out, cur), Seq::empty());
        } else if es[i].0 == Token::Comment {
            lemma_walk_bounds(es, i + 1, stack, aws, aw, ls, named, task, funcs, asg, out, cur);
        } else if closes(es[i]) {
            let o = add_line(out, closing_line(cur, es[i].1));
            if stack.len() > 0 {
                lemma_walk_bounds(es, i + 1, stack.drop_last(), aws.drop_last(), aws.last(), false, named, task, funcs, asg, o, stack.last());
            }
        } else if opens_block(es[i], aw) {
            if blank(cur) {
                lemma_walk_bounds(es, i + 1, stack.push(cur), aws.push(aw), starts_loop(es[i]), false, named, task, funcs, asg, out, es[i].1);
            } else {
                lemma_walk_bounds(es, i + 1, stack.push(Seq::empty()), aws.push(aw), starts_loop(es[i]), false, named, task, funcs, asg, out, cur + es[i].1);
            }
        } else if es[i].0 == Token::BuiltIn && es[i].1 == "do"@ {
            lemma_walk_bounds(es, i + 1, stack, aws, false, false, named, task, funcs, asg, out, cur + es[i].1);
        } else {
            lemma_walk_bounds(es, i + 1, stack, aws, aw, false, named, task, funcs, asg, out, cur + es[i].1);
        }
    }
}

pub proof fn lemma_line_end_index(es: Seq<(Token, Seq<char>)>, k: int)
    requires
        0 <= k <= es.len(),
    ensures
        k <= line_end_index(es, k) <= es.len(),
        line_end_index(es, k) < es.len() ==> is_line_break(es[line_end_index(es, k)]),
    decreases es.len() - k,
{
    if k < es.len() && !is_line_break(es[k]) {
        lemma_line_end_index(es, k + 1);
    }
}

pub proof fn lemma_stmt_end(es: Seq<(Token, Seq<char>)>, k: int, nest: int)
    requires
        0 <= k <= es.len(),
    ensures
        k <= stmt_end(es, k, nest) <= es.len(),
    decreases es.len() - k,
{
    if k < es.len() && !(is_line_break(es[k]) && nest <= 0) {
        lemma_stmt_end(es, k + 1, nest + nest_delta(es[k]));
    }
}

pub proof fn lemma_task_from_bounds(
    es: Seq<(Token, Seq<char>)>,
    p: int,
    funcs: Seq<Seq<char>>,
    asg: Seq<Seq<char>>,
    out: Seq<char>,
    cur: Seq<char>,
)
    requires
        0 <= p < es.len(),
    ensures
        p < task_from(es, p, funcs, asg, out, cur).0 + 1,
        task_from(es, p, funcs, asg, out, cur).0 <= es.len(),
{
    lemma_walk_bounds(es, p + 1, Seq::empty(), Seq::empty(), false, false, false, true, funcs, asg, out, cur);
}

pub proof fn lemma_block_from_bounds(
    es: Seq<(Token, Seq<char>)>,
    i: int,
    funcs: Seq<Seq<char>>,
    asg: Seq<Seq<char>>,
    out: Seq<char>,
    cur: Seq<char>,
)
    requires
        0 <= i < es.len(),
    ensures
        i < block_from(es, i, funcs, asg, out, cur).0 + 1,
        block_from(es, i, funcs, asg, out, cur).0 <= es.len(),
        block_from(es, i, funcs, asg, out, cur).0 < es.len() ==> closes(es[block_from(es, i, funcs, asg, out, cur).0]),
{
    lemma_walk_bounds(es, i + 1, Seq::empty(), Seq::empty(), starts_loop(es[i]), false, true, false, funcs, asg, out, cur);
}

} // verus!
