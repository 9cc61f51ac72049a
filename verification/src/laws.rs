use vstd::prelude::*;
use crate::lua::parser::token::Token;
use crate::lua::parser::lexer::{lex, lex_from, scan, keyword_kind, lemma_scan_advances, ident_end, is_ident_char, is_ident_start};
use crate::lua::parser::spec::{
    run_from, translation, banner, after, function_from, local_from, task_from, walk, block_from,
    texts, closes, line_end_index, first_word, stmt_end, lemma_walk_bounds, lemma_stmt_end,
    lemma_task_from_bounds, lemma_block_from_bounds, lemma_line_end_index, is_shell_start,
    is_line_break, exec_call, command_words, name_after, nest_delta, add_line, flush, flush_top,
    closing_line, carried, opens_block, starts_loop, blank, task_header, lua_escape, lua_string,
};
use crate::lua::translated_source;
use crate::table::{table_get, table_insert, keys_distinct, index_of_key, lemma_index_of_key};
use crate::text::{concat, split};
use crate::lua::{command_of, has_char};
use crate::watch::{nearest_watched, first_match, first_match_from, path_equal, event_path, WatchEvent};

verus! {

/// The texts of lexemes, in order.
pub open spec fn lexeme_texts(es: Seq<(Token, Seq<char>)>) -> Seq<Seq<char>> {
    es.map_values(|e: (Token, Seq<char>)| e.1)
}

proof fn lemma_concat_prepend(x: Seq<char>, rest: Seq<Seq<char>>)
    ensures
        concat(seq![x] + rest) == x + concat(rest),
    decreases rest.len(),
{
    let whole = seq![x] + rest;
    if rest.len() == 0 {
        assert(whole =~= seq![x]);
        assert(whole.drop_last() =~= Seq::<Seq<char>>::empty());
        assert(concat(whole.drop_last()) == Seq::<char>::empty());
        assert(concat(whole) == concat(whole.drop_last()) + whole.last());
        assert(concat(whole) =~= x);
        assert(x + concat(rest) =~= x);
    } else {
        lemma_concat_prepend(x, rest.drop_last());
        assert(whole.drop_last() =~= seq![x] + rest.drop_last());
        assert(whole.last() == rest.last());
        assert(concat(whole) == concat(whole.drop_last()) + whole.last());
        assert(concat(rest) == concat(rest.drop_last()) + rest.last());
        assert(x + concat(rest) =~= x + concat(rest.drop_last()) + rest.last());
    }
}

proof fn lemma_lex_from_covers(s: Seq<char>, i: int)
    requires
        0 <= i <= s.len(),
    ensures
        concat(lexeme_texts(lex_from(s, i))) == s.skip(i),
        forall|k: int| 0 <= k < lex_from(s, i).len() ==> (#[trigger] lex_from(s, i)[k]).1.len() > 0,
    decreases s.len() - i,
{
    if i == s.len() {
        assert(lexeme_texts(lex_from(s, i)) =~= Seq::<Seq<char>>::empty());
        assert(s.skip(i) =~= Seq::<char>::empty());
    } else {
        lemma_scan_advances(s, i);
        let (t, e) = scan(s, i);
        lemma_lex_from_covers(s, e);
        let rest = lex_from(s, e);
        assert(lex_from(s, i) == seq![(t, s.subrange(i, e))] + rest);
        assert(lexeme_texts(lex_from(s, i)) =~= seq![s.subrange(i, e)] + lexeme_texts(rest));
        lemma_concat_prepend(s.subrange(i, e), lexeme_texts(rest));
        assert(s.subrange(i, e) + s.skip(e) =~= s.skip(i));
        assert forall|k: int| 0 <= k < lex_from(s, i).len() implies (#[trigger] lex_from(s, i)[k]).1.len() > 0 by {
            if k > 0 {
                assert(lex_from(s, i)[k] == rest[k - 1]);
            }
        }
    }
}

/// The lexer loses nothing: the texts of the lexemes of `s`, one after
/// another, give `s` back, and no lexeme is empty.
pub proof fn law_lexemes_cover_input(s: Seq<char>)
    ensures
        concat(lexeme_texts(lex(s))) == s,
        forall|k: int| 0 <= k < lex(s).len() ==> (#[trigger] lex(s)[k]).1.len() > 0,
{
    lemma_lex_from_covers(s, 0);
    assert(s.skip(0) =~= s);
}

proof fn lemma_identifiers_from(s: Seq<char>, i: int)
    requires
        0 <= i <= s.len(),
    ensures
        forall|k: int| 0 <= k < lex_from(s, i).len() && (#[trigger] lex_from(s, i)[k]).0 == Token::Identifier
            ==> keyword_kind(lex_from(s, i)[k].1) is None,
    decreases s.len() - i,
{
    if i < s.len() {
        lemma_scan_advances(s, i);
        let (t, e) = scan(s, i);
        lemma_identifiers_from(s, e);
        let rest = lex_from(s, e);
        assert(lex_from(s, i) == seq![(t, s.subrange(i, e))] + rest);
        assert forall|k: int| 0 <= k < lex_from(s, i).len() && (#[trigger] lex_from(s, i)[k]).0 == Token::Identifier
            implies keyword_kind(lex_from(s, i)[k].1) is None by {
            if k > 0 {
                assert(lex_from(s, i)[k] == rest[k - 1]);
            }
        }
    }
}

/// A keyword is never an identifier: the text of every identifier lexeme
/// is no keyword.
pub proof fn law_identifiers_are_not_keywords(s: Seq<char>)
    ensures
        forall|k: int| 0 <= k < lex(s).len() && (#[trigger] lex(s)[k]).0 == Token::Identifier
            ==> keyword_kind(lex(s)[k].1) is None,
{
    lemma_identifiers_from(s, 0);
}


/// Storing a value keeps the keys distinct.
pub proof fn law_insert_keeps_keys_distinct(t: Seq<(Seq<char>, Seq<char>)>, k: Seq<char>, v: Seq<char>)
    requires
        keys_distinct(t),
    ensures
        keys_distinct(table_insert(t, k, v)),
{
    lemma_index_of_key(t, k, 0);
}

/// What a read gives back of a write: after storing `v` under `k`, the
/// value under `k` is `v` and the value under any other key is unchanged.
pub proof fn law_read_after_insert(t: Seq<(Seq<char>, Seq<char>)>, k: Seq<char>, v: Seq<char>, other: Seq<char>)
    ensures
        table_get(table_insert(t, k, v), k) == Some(v),
        other != k ==> table_get(table_insert(t, k, v), other) == table_get(t, other),
{
    let t2 = table_insert(t, k, v);
    lemma_index_of_key(t, k, 0);
    lemma_index_of_key(t2, k, 0);
    lemma_index_of_key(t, other, 0);
    lemma_index_of_key(t2, other, 0);
    let i = index_of_key(t, k, 0);
    if i >= 0 {
        assert(t2[i].0 == k);
    } else {
        assert(t2[t.len() as int].0 == k);
    }
    if other != k {
        let a = index_of_key(t, other, 0);
        let b = index_of_key(t2, other, 0);
        if a >= 0 {
            assert(t2[a].0 == other);
            if b >= 0 && b < a {
                assert(t[b].0 == other);
            }
        } else if b >= 0 {
            if i >= 0 {
                assert(t[b].0 == other);
            } else {
                if b < t.len() {
                    assert(t[b].0 == other);
                }
            }
        }
    }
}


/// A leading `@` mutes a command and is all that is taken from it: the
/// program and the arguments of a muted command are those of the same
/// command written without that `@`; a command whose first argument does
/// not start with `@` is not muted, and one without spaces runs as written,
/// with the remaining arguments.
pub proof fn law_muted_commands(args: Seq<Seq<char>>)
    requires
        args.len() > 0,
    ensures
        command_of(args).2 == (args[0].len() > 0 && args[0][0] == '@'),
        command_of(args).2 && !(args[0].skip(1).len() > 0 && args[0].skip(1)[0] == '@') ==> command_of(args).0
            == command_of(seq![args[0].skip(1)] + args.skip(1)).0 && command_of(args).1 == command_of(
            seq![args[0].skip(1)] + args.skip(1)).1,
        !command_of(args).2 && !has_char(args[0], ' ') ==> command_of(args).0 == args[0]
            && command_of(args).1 == args.skip(1),
{
    let rest = args[0].skip(1);
    let b = seq![rest] + args.skip(1);
    assert(b[0] == rest);
    assert(b.skip(1) =~= args.skip(1));
}

proof fn lemma_first_match_from(p: Seq<char>, watched: Seq<Seq<char>>, i: int)
    requires
        0 <= i,
    ensures
        first_match_from(p, watched, i) matches Some(h) ==> watched.contains(h) && path_equal(h, p),
    decreases watched.len() - i,
{
    if i < watched.len() {
        if path_equal(watched[i], p) {
            assert(watched.contains(watched[i]));
        } else {
            lemma_first_match_from(p, watched, i + 1);
        }
    }
}

proof fn lemma_nearest_watched(p: Seq<char>, watched: Seq<Seq<char>>)
    ensures
        nearest_watched(p, watched) matches Some(h) ==> watched.contains(h) && exists|n: int|
            0 <= n <= p.len() && #[trigger] path_equal(h, p.take(n)),
    decreases p.len(),
{
    lemma_first_match_from(p, watched, 0);
    if let Some(h) = first_match(p, watched) {
        assert(p.take(p.len() as int) =~= p);
        assert(path_equal(h, p.take(p.len() as int)));
    } else {
        match crate::watch::path_parent(p) {
            Some(q) => if q.len() < p.len() && q == p.take(q.len() as int) {
                lemma_nearest_watched(q, watched);
                if let Some(h) = nearest_watched(q, watched) {
                    let n = choose|n: int| 0 <= n <= q.len() && #[trigger] path_equal(h, q.take(n));
                    assert(p.take(n) =~= q.take(n));
                    assert(path_equal(h, p.take(n)));
                }
            },
            None => {},
        }
    }
}

/// The handler that answers for a path is registered for a watched path
/// that names the path itself or one of its ancestors (a prefix of it); a
/// watched path that names the path itself answers before any ancestor.
pub proof fn law_handler_is_watched_ancestor(p: Seq<char>, watched: Seq<Seq<char>>)
    ensures
        nearest_watched(p, watched) matches Some(h) ==> watched.contains(h) && exists|n: int|
            0 <= n <= p.len() && #[trigger] path_equal(h, p.take(n)),
        first_match(p, watched) is Some ==> nearest_watched(p, watched) == first_match(p, watched),
{
    lemma_nearest_watched(p, watched);
}

proof fn lemma_texts_prepend(es: Seq<(Token, Seq<char>)>, i: int, j: int)
    requires
        0 <= i < j <= es.len(),
    ensures
        texts(es, i, j) == es[i].1 + texts(es, i + 1, j),
{
    let m = es.subrange(i, j).map_values(|e: (Token, Seq<char>)| e.1);
    let r = es.subrange(i + 1, j).map_values(|e: (Token, Seq<char>)| e.1);
    assert(m =~= seq![es[i].1] + r);
    lemma_concat_prepend(es[i].1, r);
}

proof fn lemma_texts_empty(es: Seq<(Token, Seq<char>)>, i: int)
    requires
        0 <= i <= es.len(),
    ensures
        texts(es, i, i) == Seq::<char>::empty(),
{
    assert(es.subrange(i, i).map_values(|e: (Token, Seq<char>)| e.1) =~= Seq::<Seq<char>>::empty());
}

proof fn lemma_texts_split(es: Seq<(Token, Seq<char>)>, i: int, k: int, j: int)
    requires
        0 <= i <= k <= j <= es.len(),
    ensures
        texts(es, i, j) == texts(es, i, k) + texts(es, k, j),
    decreases k - i,
{
    lemma_texts_empty(es, i);
    if i == k {
        assert(texts(es, i, j) =~= Seq::<char>::empty() + texts(es, k, j));
    } else {
        lemma_texts_prepend(es, i, j);
        lemma_texts_prepend(es, i, k);
        lemma_texts_split(es, i + 1, k, j);
        assert(texts(es, i, j) =~= texts(es, i, k) + texts(es, k, j));
    }
}

/// The sum of the changes of nesting (of blocks and brackets) of the
/// lexemes `es[i..k]`.
pub open spec fn nesting(es: Seq<(Token, Seq<char>)>, i: int, k: int) -> int
    decreases k - i,
{
    if k <= i {
        0
    } else {
        nesting(es, i, k - 1) + nest_delta(es[k - 1])
    }
}

proof fn lemma_stmt_end_nesting(es: Seq<(Token, Seq<char>)>, i: int, k: int)
    requires
        0 <= i <= k <= es.len(),
        forall|m: int| i <= m < k && is_line_break(#[trigger] es[m]) ==> nesting(es, i, m) > 0,
    ensures
        ({
            let j = stmt_end(es, k, nesting(es, i, k));
            &&& k <= j <= es.len()
            &&& j < es.len() ==> is_line_break(es[j]) && nesting(es, i, j) <= 0
            &&& forall|m: int| i <= m < j && is_line_break(#[trigger] es[m]) ==> nesting(es, i, m) > 0
        }),
    decreases es.len() - k,
{
    if k < es.len() && !(is_line_break(es[k]) && nesting(es, i, k) <= 0) {
        assert(nesting(es, i, k + 1) == nesting(es, i, k) + nest_delta(es[k]));
        lemma_stmt_end_nesting(es, i, k + 1);
    }
}

/// A local declaration is read as a whole statement: from `local` it runs
/// on over the line feeds inside open blocks and brackets (a table
/// constructor, a function, a call) and stops at the first line feed
/// outside all of them, or at the end of the manifest; its text is the text
/// of those lexemes.
/// A local declaration is read as a whole statement: from `local` it runs
/// on over the line feeds inside open blocks and brackets (a table
/// constructor, a function, a call) and stops at the first line feed
/// outside all of them, or at the end of the manifest; its text is the text
/// of those lexemes.
pub proof fn law_local_is_a_whole_statement(es: Seq<(Token, Seq<char>)>, i: int, asg: Seq<Seq<char>>)
    requires
        0 <= i < es.len(),
    ensures
        ({
            let (j, text, names) = local_from(es, i, asg);
            &&& i <= j <= es.len()
            &&& text == texts(es, i, j)
            &&& j < es.len() ==> is_line_break(es[j]) && nesting(es, i, j) <= 0
            &&& forall|m: int| i <= m < j && is_line_break(#[trigger] es[m]) ==> nesting(es, i, m) > 0
        }),
{
    assert(nesting(es, i, i) == 0);
    lemma_stmt_end_nesting(es, i, i);
}

/// `r` is `out` with lines added: each addition starts with a line feed.
pub open spec fn extends(r: Seq<char>, out: Seq<char>) -> bool {
    &&& r.len() >= out.len()
    &&& r.take(out.len() as int) == out
    &&& r.len() > out.len() ==> r[out.len() as int] == '\n'
}

proof fn lemma_extends_refl(o: Seq<char>)
    ensures
        extends(o, o),
{
    assert(o.take(o.len() as int) =~= o);
}

proof fn lemma_extends_line(out: Seq<char>, line: Seq<char>)
    ensures
        extends(add_line(out, line), out),
{
    let r = add_line(out, line);
    assert(r.take(out.len() as int) =~= out);
    assert(r[out.len() as int] == '\n');
}

proof fn lemma_extends_flush(out: Seq<char>, cur: Seq<char>)
    ensures
        extends(flush(out, cur), out),
        extends(flush_top(out, cur), out),
{
    lemma_extends_refl(out);
    lemma_extends_line(out, cur);
}

proof fn lemma_extends_trans(r: Seq<char>, m: Seq<char>, o: Seq<char>)
    requires
        extends(r, m),
        extends(m, o),
    ensures
        extends(r, o),
{
    assert(r.take(o.len() as int) =~= r.take(m.len() as int).take(o.len() as int));
    if r.len() > o.len() && m.len() > o.len() {
        assert(r[o.len() as int] == r.take(m.len() as int)[o.len() as int]);
    }
}

proof fn lemma_walk_extends(
    es: Seq<(Token, Seq<char>)>,
    i: int,
    stack: Seq<Seq<char>>,
    aws: Seq<bool>,
    aw: bool,
    ls: bool,
    named: bool,
    task: bool,
    funcs: Seq<Seq<char>>,
    asg: Seq<Seq<char>>,
    out: Seq<char>,
    cur: Seq<char>,
)
    requires
        0 <= i <= es.len(),
    ensures
        extends(walk(es, i, stack, aws, aw, ls, named, task, funcs, asg, out, cur).1, out),
    decreases es.len() - i,
{
    lemma_extends_refl(out);
    lemma_extends_flush(out, cur);
    if i < es.len() {
        let r = walk(es, i, stack, aws, aw, ls, named, task, funcs, asg, out, cur).1;
        if task && ls && es[i].0 == Token::Whitespace {
            lemma_walk_extends(es, i + 1, stack, aws, aw, true, named, task, funcs, asg, out, cur + es[i].1);
        } else if task && ls && is_shell_start(es, i, funcs, asg) {
            let e = line_end_index(es, i);
            lemma_line_end_index(es, i);
            if i < e <= es.len() {
                lemma_walk_extends(es, e, stack, aws, aw, false, named, task, funcs, asg, out, cur + exec_call(command_words(es, i, e)));
            }
        } else if task && !named && es[i].0 == Token::Identifier {
            lemma_walk_extends(es, i + 1, stack, aws, aw, false, true, task, funcs, asg, out, cur + task_header(es[i].1));
        } else if es[i].0 == Token::Newline {
            lemma_walk_extends(es, i + 1, stack, aws, aw, true, true, task, funcs, asg, flush(out, cur), Seq::empty());
            lemma_extends_trans(r, flush(out, cur), out);
        } else if es[i].0 == Token::Comment {
            lemma_walk_extends(es, i + 1, stack, aws, aw, ls, named, task, funcs, asg, out, cur);
        } else if closes(es[i]) {
            let o = add_line(out, closing_line(cur, es[i].1));
            lemma_extends_line(out, closing_line(cur, es[i].1));
            if stack.len() > 0 {
                lemma_walk_extends(es, i + 1, stack.drop_last(), aws.drop_last(), aws.last(), false, named, task, funcs, asg, o, stack.last());
                lemma_extends_trans(r, o, out);
            }
        } else if opens_block(es[i], aw) {
            if blank(cur) {
                lemma_walk_extends(es, i + 1, stack.push(cur), aws.push(aw), starts_loop(es[i]), false, named, task, funcs, asg, out, es[i].1);
            } else {
                lemma_walk_extends(es, i + 1, stack.push(Seq::empty()), aws.push(aw), starts_loop(es[i]), false, named, task, funcs, asg, out, cur + es[i].1);
            }
        } else if es[i].0 == Token::BuiltIn && es[i].1 == "do"@ {
            lemma_walk_extends(es, i + 1, stack, aws, false, false, named, task, funcs, asg, out, cur + es[i].1);
        } else {
            lemma_walk_extends(es, i + 1, stack, aws, aw, false, named, task, funcs, asg, out, cur + es[i].1);
        }
    }
}

proof fn lemma_walk_closer(
    es: Seq<(Token, Seq<char>)>,
    i: int,
    stack: Seq<Seq<char>>,
    aws: Seq<bool>,
    aw: bool,
    ls: bool,
    named: bool,
    task: bool,
    funcs: Seq<Seq<char>>,
    asg: Seq<Seq<char>>,
    out: Seq<char>,
    cur: Seq<char>,
)
    requires
        0 <= i <= es.len(),
    ensures
        ({
            let (j, o) = walk(es, i, stack, aws, aw, ls, named, task, funcs, asg, out, cur);
            j < es.len() ==> closes(es[j]) && o.len() >= es[j].1.len() && o.subrange(o.len() - es[j].1.len(), o.len() as int) == es[j].1
        }),
    decreases es.len() - i,
{
    if i < es.len() {
        if task && ls && es[i].0 == Token::Whitespace {
            lemma_walk_closer(es, i + 1, stack, aws, aw, true, named, task, funcs, asg, out, cur + es[i].1);
        } else if task && ls && is_shell_start(es, i, funcs, asg) {
            let e = line_end_index(es, i);
            lemma_line_end_index(es, i);
            if i < e <= es.len() {
                lemma_walk_closer(es, e, stack, aws, aw, false, named, task, funcs, asg, out, cur + exec_call(command_words(es, i, e)));
            }
        } else if task && !named && es[i].0 == Token::Identifier {
            lemma_walk_closer(es, i + 1, stack, aws, aw, false, true, task, funcs, asg, out, cur + task_header(es[i].1));
        } else if es[i].0 == Token::Newline {
            lemma_walk_closer(es, i + 1, stack, aws, aw, true, true, task, funcs, asg, flush(out, cur), Seq::empty());
        } else if es[i].0 == Token::Comment {
            lemma_walk_closer(es, i + 1, stack, aws, aw, ls, named, task, funcs, asg, out, cur);
        } else if closes(es[i]) {
            let o = add_line(out, closing_line(cur, es[i].1));
            if stack.len() > 0 {
                lemma_walk_closer(es, i + 1, stack.drop_last(), aws.drop_last(), aws.last(), false, named, task, funcs, asg, o, stack.last());
            } else {
                let x = es[i].1;
                assert(o.subrange(o.len() - x.len(), o.len() as int) =~= x);
            }
        } else if opens_block(es[i], aw) {
            if blank(cur) {
                lemma_walk_closer(es, i + 1, stack.push(cur), aws.push(aw), starts_loop(es[i]), false, named, task, funcs, asg, out, es[i].1);
            } else {
                lemma_walk_closer(es, i + 1, stack.push(Seq::empty()), aws.push(aw), starts_loop(es[i]), false, named, task, funcs, asg, out, cur + es[i].1);
            }
        } else if es[i].0 == Token::BuiltIn && es[i].1 == "do"@ {
            lemma_walk_closer(es, i + 1, stack, aws, false, false, named, task, funcs, asg, out, cur + es[i].1);
        } else {
            lemma_walk_closer(es, i + 1, stack, aws, aw, false, named, task, funcs, asg, out, cur + es[i].1);
        }
    }
}

/// A block or a function ends at a closing lexeme (`end`, or `until` for
/// `repeat`) whose text ends its text, the last line; what was written
/// before is left as it was, the block's lines being added after it.
pub proof fn law_block_ends_with_its_closer(
    es: Seq<(Token, Seq<char>)>,
    i: int,
    funcs: Seq<Seq<char>>,
    asg: Seq<Seq<char>>,
    out: Seq<char>,
    cur: Seq<char>,
)
    requires
        0 <= i < es.len(),
    ensures
        ({
            let (j, o) = block_from(es, i, funcs, asg, out, cur);
            &&& extends(o, out)
            &&& j < es.len() ==> closes(es[j]) && o.len() >= es[j].1.len()
                && o.subrange(o.len() - es[j].1.len(), o.len() as int) == es[j].1
        }),
{
    lemma_walk_extends(es, i + 1, Seq::empty(), Seq::empty(), starts_loop(es[i]), false, true, false, funcs, asg, out, cur);
    lemma_walk_closer(es, i + 1, Seq::empty(), Seq::empty(), starts_loop(es[i]), false, true, false, funcs, asg, out, cur);
}

/// A task ends at a closing lexeme (`end`, or `until`), whose text ends the
/// task's text: the function that the task opens is closed there; what was
/// written before is left as it was.
pub proof fn law_task_ends_at_its_end(
    es: Seq<(Token, Seq<char>)>,
    p: int,
    funcs: Seq<Seq<char>>,
    asg: Seq<Seq<char>>,
    out: Seq<char>,
    cur: Seq<char>,
)
    requires
        0 <= p < es.len(),
    ensures
        ({
            let (j, name, desc, o) = task_from(es, p, funcs, asg, out, cur);
            &&& extends(o, out)
            &&& j < es.len() ==> closes(es[j]) && o.len() >= es[j].1.len()
                && o.subrange(o.len() - es[j].1.len(), o.len() as int) == es[j].1
        }),
{
    lemma_walk_extends(es, p + 1, Seq::empty(), Seq::empty(), false, false, false, true, funcs, asg, out, cur);
    lemma_walk_closer(es, p + 1, Seq::empty(), Seq::empty(), false, false, false, true, funcs, asg, out, cur);
}

proof fn lemma_run_extends(
    es: Seq<(Token, Seq<char>)>,
    i: int,
    out: Seq<char>,
    cur: Seq<char>,
    funcs: Seq<Seq<char>>,
    tasks: Seq<(Seq<char>, Seq<char>)>,
    asg: Seq<Seq<char>>,
)
    requires
        0 <= i <= es.len(),
    ensures
        extends(run_from(es, i, out, cur, funcs, tasks, asg).0, out),
        keys_distinct(tasks) ==> keys_distinct(run_from(es, i, out, cur, funcs, tasks, asg).2),
    decreases es.len() - i,
{
    lemma_extends_refl(out);
    lemma_extends_flush(out, cur);
    let r = run_from(es, i, out, cur, funcs, tasks, asg).0;
    if i < es.len() {
        if es[i].0 == Token::Task {
            lemma_task_from_bounds(es, i, funcs, asg, out, carried(cur));
            let (j, name, desc, o) = task_from(es, i, funcs, asg, out, carried(cur));
            let t2 = table_insert(tasks, name, desc);
            lemma_walk_extends(es, i + 1, Seq::empty(), Seq::empty(), false, false, false, true, funcs, asg, out, carried(cur));
            if keys_distinct(tasks) {
                law_insert_keeps_keys_distinct(tasks, name, desc);
            }
            lemma_run_extends(es, after(es, j), o, Seq::empty(), funcs, t2, asg);
        } else if es[i].0 == Token::Function {
            lemma_block_from_bounds(es, i, funcs, asg, out, carried(cur) + es[i].1);
            let (j, o, funcs2) = function_from(es, i, funcs, asg, out, carried(cur));
            lemma_walk_extends(es, i + 1, Seq::empty(), Seq::empty(), starts_loop(es[i]), false, true, false, funcs, asg, out, carried(cur) + es[i].1);
            lemma_run_extends(es, after(es, j), o, Seq::empty(), funcs2, tasks, asg);
        } else if es[i].0 == Token::Local {
            lemma_stmt_end(es, i + 1, nest_delta(es[i]));
            let (j, text, asg2) = local_from(es, i, asg);
            lemma_run_extends(es, j, out, carried(cur) + text, funcs, tasks, asg2);
        } else if opens_block(es[i], false) {
            lemma_block_from_bounds(es, i, funcs, asg, out, carried(cur) + es[i].1);
            let (j, o) = block_from(es, i, funcs, asg, out, carried(cur) + es[i].1);
            lemma_walk_extends(es, i + 1, Seq::empty(), Seq::empty(), starts_loop(es[i]), false, true, false, funcs, asg, out, carried(cur) + es[i].1);
            lemma_run_extends(es, after(es, j), o, Seq::empty(), funcs, tasks, asg);
        } else if es[i].0 == Token::Newline {
            lemma_run_extends(es, i + 1, flush_top(out, cur), Seq::empty(), funcs, tasks, asg);
        } else if es[i].0 == Token::Comment {
            lemma_run_extends(es, i + 1, out, cur, funcs, tasks, asg);
        } else {
            lemma_run_extends(es, i + 1, out, cur + es[i].1, funcs, tasks, asg);
        }
    }
    if i < es.len() {
        if es[i].0 == Token::Task {
            let (j, name, desc, o) = task_from(es, i, funcs, asg, out, carried(cur));
            lemma_extends_trans(r, o, out);
        } else if es[i].0 == Token::Function {
            let (j, o, funcs2) = function_from(es, i, funcs, asg, out, carried(cur));
            lemma_extends_trans(r, o, out);
        } else if es[i].0 == Token::Local {
        } else if opens_block(es[i], false) {
            let (j, o) = block_from(es, i, funcs, asg, out, carried(cur) + es[i].1);
            lemma_extends_trans(r, o, out);
        } else if es[i].0 == Token::Newline {
            lemma_extends_trans(r, flush_top(out, cur), out);
        }
    }
}

/// The first line of every translation is `-- Generated by Motive`: the
/// text starts with it, and a line feed follows when anything follows; an
/// empty manifest gives that line alone. The tasks it collects have
/// distinct names.
pub proof fn law_translation_starts_with_banner(raw: Seq<char>)
    ensures
        translated_source(raw).len() >= banner().len(),
        translated_source(raw).take(banner().len() as int) == banner(),
        translated_source(raw).len() > banner().len() ==> translated_source(raw)[banner().len() as int] == '\n',
        raw.len() == 0 ==> translated_source(raw) == banner(),
        keys_distinct(translation(lex(raw)).2),
{
    let es = lex(raw);
    lemma_run_extends(es, 0, banner(), Seq::empty(), Seq::empty(), Seq::empty(), Seq::empty());
    if raw.len() == 0 {
        assert(es.len() == 0);
        assert(blank(Seq::<char>::empty()));
    }
}

/// In a task, a shell command line runs through `exec`: a line that starts
/// (after its white space) with `@`, with a character that starts no Lua
/// statement, or with a word that is neither a known function or local nor
/// used as a call, an assignment, a field or an index, is replaced, after
/// its white space, by a call of `exec` whose arguments are the line's
/// words (separated by white space, a quoted string giving its inside,
/// comments left out, a leading `@` kept for `exec` to mute the command);
/// the reading goes on from the line feed that ends the line.
pub proof fn law_shell_line_runs_through_exec(
    es: Seq<(Token, Seq<char>)>,
    i: int,
    stack: Seq<Seq<char>>,
    aws: Seq<bool>,
    aw: bool,
    named: bool,
    funcs: Seq<Seq<char>>,
    asg: Seq<Seq<char>>,
    out: Seq<char>,
    cur: Seq<char>,
)
    requires
        0 <= i < es.len(),
        is_shell_start(es, i, funcs, asg),
    ensures
        ({
            let e = line_end_index(es, i);
            &&& i < e <= es.len()
            &&& e < es.len() ==> is_line_break(es[e])
            &&& walk(es, i, stack, aws, aw, true, named, true, funcs, asg, out, cur) == walk(es, e, stack,
                aws, aw, false, named, true, funcs, asg, out, cur + exec_call(command_words(es, i, e)))
        }),
{
    lemma_line_end_index(es, i + 1);
    lemma_line_end_index(es, i);
}

/// A name recorded as a function name is the name of a function definition:
/// the word right after a `function` keyword.
pub open spec fn defines_function(es: Seq<(Token, Seq<char>)>, x: Seq<char>) -> bool {
    exists|i: int| 0 <= i < es.len() && es[i].0 == Token::Function && #[trigger] name_after(es, i + 1)
        == seq![x]
}

proof fn lemma_run_function_names(
    es: Seq<(Token, Seq<char>)>,
    i: int,
    out: Seq<char>,
    cur: Seq<char>,
    funcs: Seq<Seq<char>>,
    tasks: Seq<(Seq<char>, Seq<char>)>,
    asg: Seq<Seq<char>>,
)
    requires
        0 <= i <= es.len(),
        forall|k: int| 0 <= k < funcs.len() ==> defines_function(es, #[trigger] funcs[k]),
    ensures
        forall|k: int| 0 <= k < run_from(es, i, out, cur, funcs, tasks, asg).1.len()
            ==> defines_function(es, #[trigger] run_from(es, i, out, cur, funcs, tasks, asg).1[k]),
    decreases es.len() - i,
{
    if i < es.len() {
        if es[i].0 == Token::Task {
            lemma_task_from_bounds(es, i, funcs, asg, out, carried(cur));
            let (j, name, desc, o) = task_from(es, i, funcs, asg, out, carried(cur));
            let t2 = table_insert(tasks, name, desc);
            lemma_run_function_names(es, after(es, j), o, Seq::empty(), funcs, t2, asg);
            assert(run_from(es, i, out, cur, funcs, tasks, asg).1 == run_from(es, after(es, j), o, Seq::empty(), funcs, t2, asg).1);
        } else if es[i].0 == Token::Function {
            lemma_block_from_bounds(es, i, funcs, asg, out, carried(cur) + es[i].1);
            let (j, o, funcs2) = function_from(es, i, funcs, asg, out, carried(cur));
            let n = name_after(es, i + 1);
            assert forall|k: int| 0 <= k < funcs2.len() implies defines_function(es, #[trigger] funcs2[k]) by {
                if k < funcs.len() {
                    assert(funcs2[k] == funcs[k]);
                } else {
                    assert(n.len() == 1);
                    assert(funcs2[k] == n[0]);
                    assert(n =~= seq![funcs2[k]]);
                    assert(es[i].0 == Token::Function && name_after(es, i + 1) == seq![funcs2[k]]);
                }
            }
            lemma_run_function_names(es, after(es, j), o, Seq::empty(), funcs2, tasks, asg);
            assert(run_from(es, i, out, cur, funcs, tasks, asg).1 == run_from(es, after(es, j), o, Seq::empty(), funcs2, tasks, asg).1);
        } else if es[i].0 == Token::Local {
            lemma_stmt_end(es, i + 1, nest_delta(es[i]));
            let (j, text, asg2) = local_from(es, i, asg);
            lemma_run_function_names(es, j, out, carried(cur) + text, funcs, tasks, asg2);
            assert(run_from(es, i, out, cur, funcs, tasks, asg).1 == run_from(es, j, out, carried(cur) + text, funcs, tasks, asg2).1);
        } else if opens_block(es[i], false) {
            lemma_block_from_bounds(es, i, funcs, asg, out, carried(cur) + es[i].1);
            let (j, o) = block_from(es, i, funcs, asg, out, carried(cur) + es[i].1);
            lemma_run_function_names(es, after(es, j), o, Seq::empty(), funcs, tasks, asg);
            assert(run_from(es, i, out, cur, funcs, tasks, asg).1 == run_from(es, after(es, j), o, Seq::empty(), funcs, tasks, asg).1);
        } else if es[i].0 == Token::Newline {
            lemma_run_function_names(es, i + 1, flush_top(out, cur), Seq::empty(), funcs, tasks, asg);
            assert(run_from(es, i, out, cur, funcs, tasks, asg).1 == run_from(es, i + 1, flush_top(out, cur), Seq::empty(), funcs, tasks, asg).1);
        } else if es[i].0 == Token::Comment {
            lemma_run_function_names(es, i + 1, out, cur, funcs, tasks, asg);
            assert(run_from(es, i, out, cur, funcs, tasks, asg).1 == run_from(es, i + 1, out, cur, funcs, tasks, asg).1);
        } else {
            lemma_run_function_names(es, i + 1, out, cur + es[i].1, funcs, tasks, asg);
            assert(run_from(es, i, out, cur, funcs, tasks, asg).1 == run_from(es, i + 1, out, cur + es[i].1, funcs, tasks, asg).1);
        }
    }
}

/// Only function names are recorded as function names: each name that the
/// translation collects is the word right after a `function` keyword, never
/// a parameter or another word of the definition's line.
pub proof fn law_function_names_come_from_definitions(es: Seq<(Token, Seq<char>)>)
    ensures
        forall|k: int| 0 <= k < translation(es).1.len() ==> defines_function(es, #[trigger] translation(es).1[k]),
{
    lemma_run_function_names(es, 0, banner(), Seq::empty(), Seq::empty(), Seq::empty(), Seq::empty());
}

/// A name is declared as a task when it is the first word after a `task`
/// keyword, on that keyword's line.
pub open spec fn declares_task(es: Seq<(Token, Seq<char>)>, x: Seq<char>) -> bool {
    exists|i: int| 0 <= i < es.len() && es[i].0 == Token::Task && #[trigger] first_word(es, i + 1, line_end_index(es, i)) == x
}

proof fn lemma_run_task_names(
    es: Seq<(Token, Seq<char>)>,
    i: int,
    out: Seq<char>,
    cur: Seq<char>,
    funcs: Seq<Seq<char>>,
    tasks: Seq<(Seq<char>, Seq<char>)>,
    asg: Seq<Seq<char>>,
)
    requires
        0 <= i <= es.len(),
        forall|k: int| 0 <= k < tasks.len() ==> declares_task(es, #[trigger] tasks[k].0),
    ensures
        forall|k: int| 0 <= k < run_from(es, i, out, cur, funcs, tasks, asg).2.len()
            ==> declares_task(es, #[trigger] run_from(es, i, out, cur, funcs, tasks, asg).2[k].0),
    decreases es.len() - i,
{
    if i < es.len() {
        if es[i].0 == Token::Task {
            lemma_task_from_bounds(es, i, funcs, asg, out, carried(cur));
            let (j, name, desc, o) = task_from(es, i, funcs, asg, out, carried(cur));
            let t2 = table_insert(tasks, name, desc);
            lemma_index_of_key(tasks, name, 0);
            assert(declares_task(es, name));
            assert forall|k: int| 0 <= k < t2.len() implies declares_task(es, #[trigger] t2[k].0) by {
                if k < tasks.len() && t2[k].0 != name {
                    assert(t2[k] == tasks[k]);
                }
            }
            lemma_run_task_names(es, after(es, j), o, Seq::empty(), funcs, t2, asg);
            assert(run_from(es, i, out, cur, funcs, tasks, asg).2 == run_from(es, after(es, j), o, Seq::empty(), funcs, t2, asg).2);
        } else if es[i].0 == Token::Function {
            lemma_block_from_bounds(es, i, funcs, asg, out, carried(cur) + es[i].1);
            let (j, o, funcs2) = function_from(es, i, funcs, asg, out, carried(cur));
            lemma_run_task_names(es, after(es, j), o, Seq::empty(), funcs2, tasks, asg);
            assert(run_from(es, i, out, cur, funcs, tasks, asg).2 == run_from(es, after(es, j), o, Seq::empty(), funcs2, tasks, asg).2);
        } else if es[i].0 == Token::Local {
            lemma_stmt_end(es, i + 1, nest_delta(es[i]));
            let (j, text, asg2) = local_from(es, i, asg);
            lemma_run_task_names(es, j, out, carried(cur) + text, funcs, tasks, asg2);
            assert(run_from(es, i, out, cur, funcs, tasks, asg).2 == run_from(es, j, out, carried(cur) + text, funcs, tasks, asg2).2);
        } else if opens_block(es[i], false) {
            lemma_block_from_bounds(es, i, funcs, asg, out, carried(cur) + es[i].1);
            let (j, o) = block_from(es, i, funcs, asg, out, carried(cur) + es[i].1);
            lemma_run_task_names(es, after(es, j), o, Seq::empty(), funcs, tasks, asg);
            assert(run_from(es, i, out, cur, funcs, tasks, asg).2 == run_from(es, after(es, j), o, Seq::empty(), funcs, tasks, asg).2);
        } else if es[i].0 == Token::Newline {
            lemma_run_task_names(es, i + 1, flush_top(out, cur), Seq::empty(), funcs, tasks, asg);
            assert(run_from(es, i, out, cur, funcs, tasks, asg).2 == run_from(es, i + 1, flush_top(out, cur), Seq::empty(), funcs, tasks, asg).2);
        } else if es[i].0 == Token::Comment {
            lemma_run_task_names(es, i + 1, out, cur, funcs, tasks, asg);
            assert(run_from(es, i, out, cur, funcs, tasks, asg).2 == run_from(es, i + 1, out, cur, funcs, tasks, asg).2);
        } else {
            lemma_run_task_names(es, i + 1, out, cur + es[i].1, funcs, tasks, asg);
            assert(run_from(es, i, out, cur, funcs, tasks, asg).2 == run_from(es, i + 1, out, cur + es[i].1, funcs, tasks, asg).2);
        }
    }
}

/// Only declared tasks are tasks: the name of each task that the
/// translation collects is the first word after a `task` keyword.
pub proof fn law_tasks_come_from_declarations(es: Seq<(Token, Seq<char>)>)
    ensures
        forall|k: int| 0 <= k < translation(es).2.len() ==> declares_task(es, #[trigger] translation(es).2[k].0),
{
    lemma_run_task_names(es, 0, banner(), Seq::empty(), Seq::empty(), Seq::empty(), Seq::empty());
}

proof fn lemma_run_keeps_keys(
    es: Seq<(Token, Seq<char>)>,
    i: int,
    out: Seq<char>,
    cur: Seq<char>,
    funcs: Seq<Seq<char>>,
    tasks: Seq<(Seq<char>, Seq<char>)>,
    asg: Seq<Seq<char>>,
    key: Seq<char>,
)
    requires
        0 <= i <= es.len(),
        table_get(tasks, key) is Some,
    ensures
        table_get(run_from(es, i, out, cur, funcs, tasks, asg).2, key) is Some,
    decreases es.len() - i,
{
    if i < es.len() {
        if es[i].0 == Token::Task {
            lemma_task_from_bounds(es, i, funcs, asg, out, carried(cur));
            let (j, name, desc, o) = task_from(es, i, funcs, asg, out, carried(cur));
            let t2 = table_insert(tasks, name, desc);
            law_read_after_insert(tasks, name, desc, key);
            lemma_run_keeps_keys(es, after(es, j), o, Seq::empty(), funcs, t2, asg, key);
            assert(run_from(es, i, out, cur, funcs, tasks, asg).2 == run_from(es, after(es, j), o, Seq::empty(), funcs, t2, asg).2);
        } else if es[i].0 == Token::Function {
            lemma_block_from_bounds(es, i, funcs, asg, out, carried(cur) + es[i].1);
            let (j, o, funcs2) = function_from(es, i, funcs, asg, out, carried(cur));
            lemma_run_keeps_keys(es, after(es, j), o, Seq::empty(), funcs2, tasks, asg, key);
            assert(run_from(es, i, out, cur, funcs, tasks, asg).2 == run_from(es, after(es, j), o, Seq::empty(), funcs2, tasks, asg).2);
        } else if es[i].0 == Token::Local {
            lemma_stmt_end(es, i + 1, nest_delta(es[i]));
            let (j, text, asg2) = local_from(es, i, asg);
            lemma_run_keeps_keys(es, j, out, carried(cur) + text, funcs, tasks, asg2, key);
            assert(run_from(es, i, out, cur, funcs, tasks, asg).2 == run_from(es, j, out, carried(cur) + text, funcs, tasks, asg2).2);
        } else if opens_block(es[i], false) {
            lemma_block_from_bounds(es, i, funcs, asg, out, carried(cur) + es[i].1);
            let (j, o) = block_from(es, i, funcs, asg, out, carried(cur) + es[i].1);
            lemma_run_keeps_keys(es, after(es, j), o, Seq::empty(), funcs, tasks, asg, key);
            assert(run_from(es, i, out, cur, funcs, tasks, asg).2 == run_from(es, after(es, j), o, Seq::empty(), funcs, tasks, asg).2);
        } else if es[i].0 == Token::Newline {
            lemma_run_keeps_keys(es, i + 1, flush_top(out, cur), Seq::empty(), funcs, tasks, asg, key);
            assert(run_from(es, i, out, cur, funcs, tasks, asg).2 == run_from(es, i + 1, flush_top(out, cur), Seq::empty(), funcs, tasks, asg).2);
        } else if es[i].0 == Token::Comment {
            lemma_run_keeps_keys(es, i + 1, out, cur, funcs, tasks, asg, key);
            assert(run_from(es, i, out, cur, funcs, tasks, asg).2 == run_from(es, i + 1, out, cur, funcs, tasks, asg).2);
        } else {
            lemma_run_keeps_keys(es, i + 1, out, cur + es[i].1, funcs, tasks, asg, key);
            assert(run_from(es, i, out, cur, funcs, tasks, asg).2 == run_from(es, i + 1, out, cur + es[i].1, funcs, tasks, asg).2);
        }
    }
}

/// A task declared in the manifest is known to the translation: wherever
/// the translation reads a `task` keyword at the top level (whatever it
/// has read before and collected so far), the first word after `task` on
/// its line is among the tasks at the end, whatever follows.
pub proof fn law_declared_task_is_known(
    es: Seq<(Token, Seq<char>)>,
    p: int,
    out: Seq<char>,
    cur: Seq<char>,
    funcs: Seq<Seq<char>>,
    tasks: Seq<(Seq<char>, Seq<char>)>,
    asg: Seq<Seq<char>>,
)
    requires
        0 <= p < es.len(),
        es[p].0 == Token::Task,
    ensures
        table_get(run_from(es, p, out, cur, funcs, tasks, asg).2, first_word(es, p + 1, line_end_index(es, p))) is Some,
{
    lemma_task_from_bounds(es, p, funcs, asg, out, carried(cur));
    let (j, name, desc, o) = task_from(es, p, funcs, asg, out, carried(cur));
    law_read_after_insert(tasks, name, desc, name);
    lemma_run_keeps_keys(es, after(es, j), o, Seq::empty(), funcs, table_insert(tasks, name, desc), asg, name);
}

/// White space and line breaks.
pub open spec fn is_space(c: char) -> bool {
    c == ' ' || c == '\t' || c == '\n' || c == '\r'
}

/// `s` without its white space and line breaks.
pub open spec fn strip(s: Seq<char>) -> Seq<char>
    decreases s.len(),
{
    if s.len() == 0 {
        Seq::empty()
    } else {
        strip(s.drop_last()) + if is_space(s.last()) {
            Seq::<char>::empty()
        } else {
            seq![s.last()]
        }
    }
}

proof fn lemma_strip_add(a: Seq<char>, b: Seq<char>)
    ensures
        strip(a + b) == strip(a) + strip(b),
    decreases b.len(),
{
    if b.len() == 0 {
        assert(a + b =~= a);
        assert(strip(a) + strip(b) =~= strip(a));
    } else {
        lemma_strip_add(a, b.drop_last());
        assert((a + b).drop_last() =~= a + b.drop_last());
        assert((a + b).last() == b.last());
        let x = if is_space(b.last()) {
            Seq::<char>::empty()
        } else {
            seq![b.last()]
        };
        assert(strip(a) + strip(b.drop_last()) + x =~= strip(a) + (strip(b.drop_last()) + x));
    }
}

proof fn lemma_strip_blank(s: Seq<char>)
    requires
        blank(s),
    ensures
        strip(s) == Seq::<char>::empty(),
    decreases s.len(),
{
    if s.len() > 0 {
        assert(blank(s.drop_last()));
        lemma_strip_blank(s.drop_last());
    }
}

proof fn lemma_strip_line(out: Seq<char>, line: Seq<char>)
    ensures
        strip(add_line(out, line)) == strip(out) + strip(line),
        strip(flush(out, line)) == strip(out) + strip(line),
        strip(flush_top(out, line)) == strip(out) + strip(line),
        strip(carried(line)) == strip(line),
{
    lemma_strip_add(out, seq!['\n']);
    lemma_strip_add(out + seq!['\n'], line);
    assert(seq!['\n'].drop_last() =~= Seq::<char>::empty());
    assert(strip(Seq::<char>::empty()) =~= Seq::<char>::empty());
    assert(seq!['\n'].last() == '\n');
    assert(strip(seq!['\n']) =~= Seq::<char>::empty());
    assert(strip(out) + Seq::<char>::empty() =~= strip(out));
    if blank(line) {
        lemma_strip_blank(line);
        lemma_strip_blank(Seq::<char>::empty());
    }
    if line.len() == 0 {
        assert(strip(line) =~= Seq::<char>::empty());
    }
    assert(strip(out) + Seq::<char>::empty() =~= strip(out));
}

/// The manifest has no task, no comment, and its line breaks are white
/// space.
pub open spec fn plain_lua(es: Seq<(Token, Seq<char>)>) -> bool {
    forall|k: int| 0 <= k < es.len() ==> (#[trigger] es[k]).0 != Token::Task && es[k].0 != Token::Comment
        && (es[k].0 == Token::Newline ==> strip(es[k].1) == Seq::<char>::empty())
}

#[verifier::spinoff_prover]
#[verifier::rlimit(100)]
proof fn lemma_walk_strip(
    es: Seq<(Token, Seq<char>)>,
    i: int,
    stack: Seq<Seq<char>>,
    aws: Seq<bool>,
    aw: bool,
    ls: bool,
    named: bool,
    funcs: Seq<Seq<char>>,
    asg: Seq<Seq<char>>,
    out: Seq<char>,
    cur: Seq<char>,
)
    requires
        0 <= i <= es.len(),
        stack.len() == aws.len(),
        forall|k: int| 0 <= k < stack.len() ==> blank(#[trigger] stack[k]),
        plain_lua(es),
    ensures
        ({
            let (j, o) = walk(es, i, stack, aws, aw, ls, named, false, funcs, asg, out, cur);
            strip(o) == strip(out) + strip(cur) + strip(texts(es, i, after(es, j)))
        }),
    decreases es.len() - i,
{
    lemma_walk_bounds(es, i, stack, aws, aw, ls, named, false, funcs, asg, out, cur);
    let (j, o) = walk(es, i, stack, aws, aw, ls, named, false, funcs, asg, out, cur);
    lemma_strip_line(out, cur);
    if i == es.len() {
        lemma_texts_empty(es, i);
        assert(strip(out) + strip(cur) + Seq::<char>::empty() =~= strip(out) + strip(cur));
    } else {
        let x = es[i].1;
        assert(es[i].0 != Token::Comment);
        if es[i].0 == Token::Newline {
            lemma_walk_strip(es, i + 1, stack, aws, aw, true, true, funcs, asg, flush(out, cur), Seq::empty());
            lemma_walk_bounds(es, i + 1, stack, aws, aw, true, true, false, funcs, asg, flush(out, cur), Seq::empty());
            lemma_texts_prepend(es, i, after(es, j));
            lemma_strip_add(x, texts(es, i + 1, after(es, j)));
            assert(strip(Seq::<char>::empty()) =~= Seq::<char>::empty());
            assert(strip(out) + strip(cur) + strip(texts(es, i + 1, after(es, j))) =~= strip(out) + strip(cur) + Seq::<char>::empty() + strip(texts(es, i + 1, after(es, j))));
        } else if closes(es[i]) {
            let o1 = add_line(out, closing_line(cur, x));
            lemma_strip_line(out, closing_line(cur, x));
            if blank(cur) {
                lemma_strip_blank(cur);
            } else {
                lemma_strip_add(cur, x);
            }
            assert(strip(o1) =~= strip(out) + strip(cur) + strip(x));
            if stack.len() == 0 {
                lemma_texts_prepend(es, i, i + 1);
                lemma_texts_empty(es, i + 1);
                assert(x + Seq::<char>::empty() =~= x);
            } else {
                let st = stack.drop_last();
                assert(blank(stack[stack.len() - 1]));
                assert forall|k: int| 0 <= k < st.len() implies blank(#[trigger] st[k]) by {
                    assert(st[k] == stack[k]);
                }
                lemma_strip_blank(stack.last());
                lemma_walk_strip(es, i + 1, st, aws.drop_last(), aws.last(), false, named, funcs, asg, o1, stack.last());
                lemma_walk_bounds(es, i + 1, st, aws.drop_last(), aws.last(), false, named, false, funcs, asg, o1, stack.last());
                lemma_texts_prepend(es, i, after(es, j));
                lemma_strip_add(x, texts(es, i + 1, after(es, j)));
                assert(strip(o1) + strip(stack.last()) + strip(texts(es, i + 1, after(es, j))) =~= strip(out) + strip(cur) + strip(texts(es, i, after(es, j))));
            }
        } else if opens_block(es[i], aw) {
            if blank(cur) {
                let st = stack.push(cur);
                assert forall|k: int| 0 <= k < st.len() implies blank(#[trigger] st[k]) by {
                    if k < stack.len() {
                        assert(st[k] == stack[k]);
                    }
                }
                lemma_strip_blank(cur);
                lemma_walk_strip(es, i + 1, st, aws.push(aw), starts_loop(es[i]), false, named, funcs, asg, out, x);
                lemma_walk_bounds(es, i + 1, st, aws.push(aw), starts_loop(es[i]), false, named, false, funcs, asg, out, x);
                lemma_texts_prepend(es, i, after(es, j));
                lemma_strip_add(x, texts(es, i + 1, after(es, j)));
                assert(strip(out) + strip(x) + strip(texts(es, i + 1, after(es, j))) =~= strip(out) + strip(cur) + strip(texts(es, i, after(es, j))));
            } else {
                let st = stack.push(Seq::<char>::empty());
                assert forall|k: int| 0 <= k < st.len() implies blank(#[trigger] st[k]) by {
                    if k < stack.len() {
                        assert(st[k] == stack[k]);
                    }
                }
                lemma_walk_strip(es, i + 1, st, aws.push(aw), starts_loop(es[i]), false, named, funcs, asg, out, cur + x);
                lemma_walk_bounds(es, i + 1, st, aws.push(aw), starts_loop(es[i]), false, named, false, funcs, asg, out, cur + x);
                lemma_texts_prepend(es, i, after(es, j));
                lemma_strip_add(x, texts(es, i + 1, after(es, j)));
                lemma_strip_add(cur, x);
                assert(strip(out) + strip(cur + x) + strip(texts(es, i + 1, after(es, j))) =~= strip(out) + strip(cur) + strip(texts(es, i, after(es, j))));
            }
        } else {
            let aw2 = if es[i].0 == Token::BuiltIn && x == "do"@ { false } else { aw };
            lemma_walk_strip(es, i + 1, stack, aws, aw2, false, named, funcs, asg, out, cur + x);
            lemma_walk_bounds(es, i + 1, stack, aws, aw2, false, named, false, funcs, asg, out, cur + x);
            lemma_texts_prepend(es, i, after(es, j));
            lemma_strip_add(x, texts(es, i + 1, after(es, j)));
            lemma_strip_add(cur, x);
            assert(strip(out) + strip(cur + x) + strip(texts(es, i + 1, after(es, j))) =~= strip(out) + strip(cur) + strip(texts(es, i, after(es, j))));
        }
    }
}

#[verifier::spinoff_prover]
#[verifier::rlimit(100)]
proof fn lemma_run_strip(
    es: Seq<(Token, Seq<char>)>,
    i: int,
    out: Seq<char>,
    cur: Seq<char>,
    funcs: Seq<Seq<char>>,
    tasks: Seq<(Seq<char>, Seq<char>)>,
    asg: Seq<Seq<char>>,
)
    requires
        0 <= i <= es.len(),
        plain_lua(es),
    ensures
        strip(run_from(es, i, out, cur, funcs, tasks, asg).0) == strip(out) + strip(cur) + strip(texts(es, i, es.len() as int)),
    decreases es.len() - i,
{
    lemma_strip_line(out, cur);
    let n = es.len() as int;
    if i == es.len() {
        lemma_texts_empty(es, i);
        assert(strip(out) + strip(cur) + Seq::<char>::empty() =~= strip(out) + strip(cur));
    } else {
        let x = es[i].1;
        assert(es[i].0 != Token::Task && es[i].0 != Token::Comment);
        if es[i].0 == Token::Function || (es[i].0 != Token::Local && opens_block(es[i], false)) {
            let c = carried(cur) + x;
            lemma_block_from_bounds(es, i, funcs, asg, out, c);
            let (j, o) = block_from(es, i, funcs, asg, out, c);
            lemma_walk_strip(es, i + 1, Seq::empty(), Seq::empty(), starts_loop(es[i]), false, true, funcs, asg, out, c);
            let next = after(es, j);
            let f2 = if es[i].0 == Token::Function { funcs + name_after(es, i + 1) } else { funcs };
            assert(run_from(es, i, out, cur, funcs, tasks, asg) == run_from(es, next, o, Seq::empty(), f2, tasks, asg));
            lemma_run_strip(es, next, o, Seq::empty(), f2, tasks, asg);
            lemma_strip_line(o, Seq::empty());
            lemma_strip_add(carried(cur), x);
            lemma_texts_split(es, i + 1, next, n);
            lemma_texts_prepend(es, i, n);
            lemma_strip_add(texts(es, i + 1, next), texts(es, next, n));
            lemma_strip_add(x, texts(es, i + 1, n));
            assert(strip(Seq::<char>::empty()) =~= Seq::<char>::empty());
            assert(strip(o) + strip(Seq::<char>::empty()) + strip(texts(es, next, n)) =~= strip(out) + strip(cur) + strip(texts(es, i, n)));
        } else if es[i].0 == Token::Local {
            lemma_stmt_end(es, i + 1, nest_delta(es[i]));
            let (j, text, asg2) = local_from(es, i, asg);
            lemma_run_strip(es, j, out, carried(cur) + text, funcs, tasks, asg2);
            lemma_strip_add(carried(cur), text);
            lemma_texts_split(es, i, j, n);
            lemma_strip_add(texts(es, i, j), texts(es, j, n));
            assert(strip(out) + strip(carried(cur) + text) + strip(texts(es, j, n)) =~= strip(out) + strip(cur) + strip(texts(es, i, n)));
        } else if es[i].0 == Token::Newline {
            lemma_run_strip(es, i + 1, flush_top(out, cur), Seq::empty(), funcs, tasks, asg);
            lemma_texts_prepend(es, i, n);
            lemma_strip_add(x, texts(es, i + 1, n));
            assert(strip(Seq::<char>::empty()) =~= Seq::<char>::empty());
            assert(strip(flush_top(out, cur)) + strip(Seq::<char>::empty()) + strip(texts(es, i + 1, n)) =~= strip(out) + strip(cur) + strip(texts(es, i, n)));
        } else {
            lemma_run_strip(es, i + 1, out, cur + x, funcs, tasks, asg);
            lemma_texts_prepend(es, i, n);
            lemma_strip_add(x, texts(es, i + 1, n));
            lemma_strip_add(cur, x);
            assert(strip(out) + strip(cur + x) + strip(texts(es, i + 1, n)) =~= strip(out) + strip(cur) + strip(texts(es, i, n)));
        }
    }
}

proof fn lemma_newline_lexemes(s: Seq<char>, i: int)
    requires
        0 <= i <= s.len(),
    ensures
        forall|k: int| 0 <= k < lex_from(s, i).len() && (#[trigger] lex_from(s, i)[k]).0 == Token::Newline
            ==> strip(lex_from(s, i)[k].1) == Seq::<char>::empty(),
    decreases s.len() - i,
{
    if i < s.len() {
        lemma_scan_advances(s, i);
        let (t, e) = scan(s, i);
        lemma_newline_lexemes(s, e);
        let rest = lex_from(s, e);
        assert(lex_from(s, i) == seq![(t, s.subrange(i, e))] + rest);
        if t == Token::Newline {
            let x = s.subrange(i, e);
            assert(x.len() == 1);
            assert(x.drop_last() =~= Seq::<char>::empty());
            assert(crate::lua::parser::lexer::is_newline(s[i]));
            assert(x.last() == s[i]);
            assert(strip(Seq::<char>::empty()) =~= Seq::<char>::empty());
            assert(strip(x) =~= Seq::<char>::empty());
        }
        assert forall|k: int| 0 <= k < lex_from(s, i).len() && (#[trigger] lex_from(s, i)[k]).0 == Token::Newline
            implies strip(lex_from(s, i)[k].1) == Seq::<char>::empty() by {
            if k > 0 {
                assert(lex_from(s, i)[k] == rest[k - 1]);
            }
        }
    }
}

/// Outside tasks only white space and line breaks change: for a manifest
/// without tasks and comments, the translation without its white space is
/// the banner followed by the manifest without its white space. Every
/// character of every statement is kept, in order.
pub proof fn law_lua_outside_tasks_is_kept(raw: Seq<char>)
    requires
        forall|k: int| 0 <= k < lex(raw).len() ==> (#[trigger] lex(raw)[k]).0 != Token::Task
            && lex(raw)[k].0 != Token::Comment,
    ensures
        strip(translated_source(raw)) == strip(banner()) + strip(raw),
{
    let es = lex(raw);
    lemma_newline_lexemes(raw, 0);
    assert(plain_lua(es));
    lemma_run_strip(es, 0, banner(), Seq::empty(), Seq::empty(), Seq::empty(), Seq::empty());
    law_lexemes_cover_input(raw);
    assert(es.subrange(0, es.len() as int).map_values(|e: (Token, Seq<char>)| e.1) =~= lexeme_texts(es));
    assert(strip(Seq::<char>::empty()) =~= Seq::<char>::empty());
    assert(strip(banner()) + Seq::<char>::empty() + strip(raw) =~= strip(banner()) + strip(raw));
}

proof fn lemma_split_without_separator(s: Seq<char>, c: char)
    requires
        !has_char(s, c),
    ensures
        split(s, c) == seq![s],
    decreases s.len(),
{
    if s.len() > 0 {
        let d = s.drop_last();
        assert(!has_char(d, c)) by {
            if has_char(d, c) {
                let k = choose|k: int| 0 <= k < d.len() && d[k] == c;
                assert(s[k] == c);
            }
        }
        lemma_split_without_separator(d, c);
        assert(s.last() != c) by {
            if s.last() == c {
                assert(s[s.len() - 1] == c);
            }
        }
        assert(d.push(s.last()) =~= s);
        assert(seq![d].update(0, d.push(s.last())) =~= seq![s]);
    } else {
        assert(s =~= Seq::<char>::empty());
        assert(seq![Seq::<char>::empty()] =~= seq![s]);
    }
}

/// The words that `exec` runs are those that its arguments spell out, in
/// order: the program followed by the arguments is the first argument
/// (without a leading `@`) cut at each space, followed by the other
/// arguments as given.
pub proof fn law_command_keeps_the_order_of_words(args: Seq<Seq<char>>)
    requires
        args.len() > 0,
    ensures
        ({
            let first = args[0];
            let cmd = if first.len() > 0 && first[0] == '@' { first.skip(1) } else { first };
            let (program, rest, muted) = command_of(args);
            seq![program] + rest == split(cmd, ' ') + args.skip(1)
        }),
{
    let first = args[0];
    let cmd = if first.len() > 0 && first[0] == '@' { first.skip(1) } else { first };
    let (program, rest, muted) = command_of(args);
    crate::text::lemma_split_nonempty(cmd, ' ');
    if has_char(cmd, ' ') {
        let parts = split(cmd, ' ');
        assert(seq![parts[0]] + (parts.skip(1) + args.skip(1)) =~= parts + args.skip(1));
    } else {
        lemma_split_without_separator(cmd, ' ');
        assert(seq![cmd] + args.skip(1) =~= split(cmd, ' ') + args.skip(1));
    }
}

/// Every event that carries a path is looked up by that path: a notice of a
/// write or a removal, a creation, a write, a change of mode, a removal,
/// and a rename (by the path it renames); a rescan and an error carry none.
pub proof fn law_events_are_found_by_their_path(p: String, q: String, message: String, o: Option<String>)
    ensures
        event_path(&WatchEvent::NoticeWrite(p)) == Some(p@),
        event_path(&WatchEvent::NoticeRemove(p)) == Some(p@),
        event_path(&WatchEvent::Create(p)) == Some(p@),
        event_path(&WatchEvent::Write(p)) == Some(p@),
        event_path(&WatchEvent::Chmod(p)) == Some(p@),
        event_path(&WatchEvent::Remove(p)) == Some(p@),
        event_path(&WatchEvent::Rename(p, q)) == Some(p@),
        event_path(&WatchEvent::Rescan) is None,
        event_path(&WatchEvent::Error(message, o)) is None,
{
}

/// The characters of a word: letters, digits and the underscore.
pub open spec fn word_char(c: char) -> bool {
    ('a' <= c && c <= 'z') || ('A' <= c && c <= 'Z') || ('0' <= c && c <= '9') || c == '_'
}

/// The kinds of lexemes that are words: identifiers and keywords.
pub open spec fn is_word_kind(t: Token) -> bool {
    t == Token::Identifier || t == Token::End || t == Token::Function || t == Token::Local
        || t == Token::Block || t == Token::BuiltIn || t == Token::Export || t == Token::Task
        || t == Token::Watch
}

proof fn lemma_ident_run(s: Seq<char>, i: int)
    requires
        0 <= i <= s.len(),
    ensures
        i <= ident_end(s, i) <= s.len(),
        forall|q: int| i <= q < ident_end(s, i) ==> is_ident_char(#[trigger] s[q]),
        ident_end(s, i) < s.len() ==> !is_ident_char(s[ident_end(s, i)]),
    decreases s.len() - i,
{
    if i < s.len() && is_ident_char(s[i]) {
        lemma_ident_run(s, i + 1);
    }
}

proof fn lemma_words_from(s: Seq<char>, i: int)
    requires
        0 <= i <= s.len(),
    ensures
        lex_from(s, i).len() > 0 ==> lex_from(s, i)[0].1.len() > 0 && lex_from(s, i)[0].1[0] == s[i],
        forall|k: int| 0 <= k < lex_from(s, i).len() && is_word_kind((#[trigger] lex_from(s, i)[k]).0) ==> {
            let w = lex_from(s, i)[k].1;
            &&& w.len() > 0
            &&& !('0' <= w[0] && w[0] <= '9')
            &&& forall|q: int| 0 <= q < w.len() ==> word_char(#[trigger] w[q])
            &&& k + 1 < lex_from(s, i).len() ==> !word_char(lex_from(s, i)[k + 1].1[0])
        },
    decreases s.len() - i,
{
    if i < s.len() {
        lemma_scan_advances(s, i);
        let (t, e) = scan(s, i);
        lemma_words_from(s, e);
        let rest = lex_from(s, e);
        let w0 = s.subrange(i, e);
        assert(lex_from(s, i) == seq![(t, w0)] + rest);
        if is_word_kind(t) {
            assert(is_ident_start(s[i]));
            assert(e == ident_end(s, i));
            lemma_ident_run(s, i);
            assert forall|q: int| 0 <= q < w0.len() implies word_char(#[trigger] w0[q]) by {
                assert(w0[q] == s[i + q]);
                assert(is_ident_char(s[i + q]));
            }
            if rest.len() > 0 {
                assert(e < s.len());
                assert(!is_ident_char(s[e]));
            }
        }
        assert forall|k: int| 0 <= k < lex_from(s, i).len() && is_word_kind((#[trigger] lex_from(s, i)[k]).0) implies {
            let w = lex_from(s, i)[k].1;
            &&& w.len() > 0
            &&& !('0' <= w[0] && w[0] <= '9')
            &&& forall|q: int| 0 <= q < w.len() ==> word_char(#[trigger] w[q])
            &&& k + 1 < lex_from(s, i).len() ==> !word_char(lex_from(s, i)[k + 1].1[0])
        } by {
            if k > 0 {
                assert(lex_from(s, i)[k] == rest[k - 1]);
                if k + 1 < lex_from(s, i).len() {
                    assert(lex_from(s, i)[k + 1] == rest[k]);
                }
            } else {
                if k + 1 < lex_from(s, i).len() {
                    assert(lex_from(s, i)[1] == rest[0]);
                }
            }
        }
    }
}

/// Identifiers and keywords are whole words: each such lexeme is a run of
/// letters, digits and underscores that does not start with a digit, and
/// the lexeme after it never starts with one of those characters, so a
/// word is never cut (`deploy2` is one identifier).
pub proof fn law_words_are_whole(s: Seq<char>)
    ensures
        forall|k: int| 0 <= k < lex(s).len() && is_word_kind((#[trigger] lex(s)[k]).0) ==> {
            let w = lex(s)[k].1;
            &&& w.len() > 0
            &&& !('0' <= w[0] && w[0] <= '9')
            &&& forall|q: int| 0 <= q < w.len() ==> word_char(#[trigger] w[q])
            &&& k + 1 < lex(s).len() ==> !word_char(lex(s)[k + 1].1[0])
        },
{
    lemma_words_from(s, 0);
}

/// What the inside of a Lua string literal stands for, read up to its
/// closing double quote, which must end `t`: a backslash followed by a
/// backslash, a double quote, `n` or `r` stands for a backslash, a double
/// quote, a line feed or a carriage return; any other character stands for
/// itself, but a line break may not stand in the literal; an unescaped
/// double quote closes it. None when `t` is no such text.
pub open spec fn read_string_body(t: Seq<char>) -> Option<Seq<char>>
    decreases t.len(),
{
    if t.len() == 0 {
        None
    } else if t[0] == '"' {
        if t.len() == 1 {
            Some(Seq::empty())
        } else {
            None
        }
    } else if t[0] == '\n' || t[0] == '\r' {
        None
    } else if t[0] == '\\' {
        if t.len() < 2 {
            None
        } else {
            let c = if t[1] == 'n' {
                Some('\n')
            } else if t[1] == 'r' {
                Some('\r')
            } else if t[1] == '\\' || t[1] == '"' {
                Some(t[1])
            } else {
                None
            };
            match (c, read_string_body(t.skip(2))) {
                (Some(c), Some(r)) => Some(seq![c] + r),
                _ => None,
            }
        }
    } else {
        match read_string_body(t.skip(1)) {
            Some(r) => Some(seq![t[0]] + r),
            None => None,
        }
    }
}

/// What a double-quoted Lua string literal stands for, if `t` is one.
pub open spec fn read_lua_string(t: Seq<char>) -> Option<Seq<char>> {
    if t.len() >= 1 && t[0] == '"' {
        read_string_body(t.skip(1))
    } else {
        None
    }
}

proof fn lemma_read_escaped(w: Seq<char>)
    ensures
        read_string_body(lua_escape(w) + seq!['"']) == Some(w),
    decreases w.len(),
{
    let q = seq!['"'];
    if w.len() == 0 {
        assert(lua_escape(w) + q =~= q);
        assert(w =~= Seq::<char>::empty());
    } else {
        let c = w[0];
        let rest = w.skip(1);
        lemma_read_escaped(rest);
        let tail = lua_escape(rest) + q;
        let x = if c == '\\' {
            seq!['\\', '\\']
        } else if c == '"' {
            seq!['\\', '"']
        } else if c == '\n' {
            seq!['\\', 'n']
        } else if c == '\r' {
            seq!['\\', 'r']
        } else {
            seq![c]
        };
        let t = lua_escape(w) + q;
        assert(lua_escape(w) == x + lua_escape(rest));
        assert(t =~= x + tail);
        assert(t.skip(x.len() as int) =~= tail);
        assert(seq![c] + rest =~= w);
    }
}

/// The arguments of an `exec` call read back as the words: every word,
/// written as a Lua string literal, is a literal that Lua reads as exactly
/// that word (its backslashes, double quotes and line breaks escaped, no
/// quote ending it early).
pub proof fn law_exec_arguments_read_back(w: Seq<char>)
    ensures
        read_lua_string(lua_string(w)) == Some(w),
{
    reveal_strlit("\"");
    let t = lua_string(w);
    lemma_read_escaped(w);
    assert(t =~= seq!['"'] + (lua_escape(w) + seq!['"']));
    assert(t.skip(1) =~= lua_escape(w) + seq!['"']);
}

/// A word that closes a block: `end`, or `until` after `repeat`.
pub open spec fn closing_word(e: (Token, Seq<char>)) -> bool {
    e.0 == Token::End || (e.0 == Token::Identifier && e.1 == "until"@)
}

/// `for` and `while`: the loops whose `do` belongs to them.
pub open spec fn loop_word(e: (Token, Seq<char>)) -> bool {
    e.0 == Token::Block && (e.1 == "for"@ || e.1 == "while"@)
}

/// The keyword `do`.
pub open spec fn do_word(e: (Token, Seq<char>)) -> bool {
    e.0 == Token::BuiltIn && e.1 == "do"@
}

/// A keyword that starts a block construct: `function`, `if`, `for`,
/// `while`, `repeat`.
pub open spec fn construct_word(e: (Token, Seq<char>)) -> bool {
    e.0 == Token::Function || (e.0 == Token::Block && (e.1 == "if"@ || e.1 == "for"@ || e.1 == "while"@
        || e.1 == "repeat"@))
}

/// A keyword that bears on the nesting of blocks.
pub open spec fn block_word(e: (Token, Seq<char>)) -> bool {
    construct_word(e) || do_word(e) || closing_word(e)
}

/// Whether, after the lexemes `es[i..k]`, a loop awaits its `do`: the last
/// block keyword among them is `for` or `while`.
pub open spec fn awaits_do(es: Seq<(Token, Seq<char>)>, i: int, k: int) -> bool
    decreases k - i,
{
    if k <= i {
        false
    } else if block_word(es[k - 1]) {
        loop_word(es[k - 1])
    } else {
        awaits_do(es, i, k - 1)
    }
}

/// Whether the lexeme `es[k]` opens a block, read after `es[i..k]`: a
/// construct keyword, or a `do` that no loop awaits.
pub open spec fn opens_at(es: Seq<(Token, Seq<char>)>, i: int, k: int) -> bool {
    construct_word(es[k]) || (do_word(es[k]) && !awaits_do(es, i, k))
}

/// The number of blocks open after the lexemes `es[i..k]`.
pub open spec fn depth(es: Seq<(Token, Seq<char>)>, i: int, k: int) -> int
    decreases k - i,
{
    if k <= i {
        0
    } else {
        depth(es, i, k - 1) + if opens_at(es, i, k - 1) {
            1int
        } else if closing_word(es[k - 1]) {
            -1int
        } else {
            0int
        }
    }
}

/// Loop headers hold no block: after `for` or `while`, the next block
/// keyword is the loop's `do`.
pub open spec fn loops_own_their_do(es: Seq<(Token, Seq<char>)>, i: int) -> bool {
    forall|k: int| i <= k < es.len() && #[trigger] awaits_do(es, i, k) && block_word(es[k]) ==> do_word(es[k])
}

proof fn lemma_walk_depth(
    es: Seq<(Token, Seq<char>)>,
    i: int,
    k: int,
    stack: Seq<Seq<char>>,
    aws: Seq<bool>,
    aw: bool,
    ls: bool,
    named: bool,
    funcs: Seq<Seq<char>>,
    asg: Seq<Seq<char>>,
    out: Seq<char>,
    cur: Seq<char>,
)
    requires
        0 <= i < k <= es.len(),
        loops_own_their_do(es, i),
        stack.len() == aws.len(),
        stack.len() == depth(es, i, k) - 1,
        aw == awaits_do(es, i, k),
        forall|m: int| 0 <= m < aws.len() ==> !(#[trigger] aws[m]),
        forall|q: int| i < q <= k ==> #[trigger] depth(es, i, q) >= 1,
    ensures
        ({
            let j = walk(es, k, stack, aws, aw, ls, named, false, funcs, asg, out, cur).0;
            &&& forall|q: int| i < q <= j ==> #[trigger] depth(es, i, q) >= 1
            &&& j < es.len() ==> closing_word(es[j]) && depth(es, i, j + 1) == 0
        }),
    decreases es.len() - k,
{
    if k < es.len() {
        let e = es[k];
        assert(depth(es, i, k + 1) == depth(es, i, k) + if opens_at(es, i, k) {
            1int
        } else if closing_word(e) {
            -1int
        } else {
            0int
        });
        if e.0 == Token::Newline || e.0 == Token::Comment {
            assert(!block_word(e));
            assert(awaits_do(es, i, k + 1) == awaits_do(es, i, k));
            let ls2 = if e.0 == Token::Newline { true } else { ls };
            let named2 = if e.0 == Token::Newline { true } else { named };
            let out2 = if e.0 == Token::Newline { flush(out, cur) } else { out };
            let cur2 = if e.0 == Token::Newline { Seq::<char>::empty() } else { cur };
            lemma_walk_depth(es, i, k + 1, stack, aws, aw, ls2, named2, funcs, asg, out2, cur2);
        } else if closes(e) {
            assert(closing_word(e));
            assert(!opens_at(es, i, k));
            if stack.len() > 0 {
                assert(!aws[aws.len() - 1]);
                let ad = aws.drop_last();
                assert forall|m: int| 0 <= m < ad.len() implies !(#[trigger] ad[m]) by {
                    assert(ad[m] == aws[m]);
                }
                assert(awaits_do(es, i, k + 1) == false);
                lemma_walk_depth(es, i, k + 1, stack.drop_last(), ad, aws.last(), false, named, funcs, asg,
                    add_line(out, closing_line(cur, e.1)), stack.last());
            }
        } else if opens_block(e, aw) {
            assert(opens_at(es, i, k));
            assert(block_word(e));
            assert(!aw) by {
                if aw {
                    assert(awaits_do(es, i, k));
                    assert(do_word(e));
                }
            }
            assert(awaits_do(es, i, k + 1) == loop_word(e));
            let a2 = aws.push(aw);
            assert forall|m: int| 0 <= m < a2.len() implies !(#[trigger] a2[m]) by {
                if m < aws.len() {
                    assert(a2[m] == aws[m]);
                }
            }
            if blank(cur) {
                lemma_walk_depth(es, i, k + 1, stack.push(cur), a2, starts_loop(e), false, named, funcs, asg, out, e.1);
            } else {
                lemma_walk_depth(es, i, k + 1, stack.push(Seq::empty()), a2, starts_loop(e), false, named, funcs, asg, out, cur + e.1);
            }
        } else if e.0 == Token::BuiltIn && e.1 == "do"@ {
            assert(do_word(e) && aw);
            assert(!opens_at(es, i, k));
            assert(awaits_do(es, i, k + 1) == false);
            lemma_walk_depth(es, i, k + 1, stack, aws, false, false, named, funcs, asg, out, cur + e.1);
        } else {
            assert(!block_word(e));
            assert(!opens_at(es, i, k));
            assert(awaits_do(es, i, k + 1) == awaits_do(es, i, k));
            lemma_walk_depth(es, i, k + 1, stack, aws, aw, false, named, funcs, asg, out, cur + e.1);
        }
    }
}

/// A block ends at the `end` that balances it: read from its opening
/// keyword, it stops at the first closing keyword at which no block is open
/// any more, counting `function`, `if`, `for`, `while` and `repeat` and a
/// `do` of its own as openers, and `end` and `until` as closers; the `do`
/// of a `for` or `while` loop opens nothing of its own (the loop's single
/// `end` closes it), and `else` opens nothing.
pub proof fn law_block_ends_where_it_balances(
    es: Seq<(Token, Seq<char>)>,
    i: int,
    funcs: Seq<Seq<char>>,
    asg: Seq<Seq<char>>,
    out: Seq<char>,
    cur: Seq<char>,
)
    requires
        0 <= i < es.len(),
        opens_at(es, i, i),
        loops_own_their_do(es, i),
    ensures
        ({
            let j = block_from(es, i, funcs, asg, out, cur).0;
            &&& forall|q: int| i < q <= j ==> #[trigger] depth(es, i, q) >= 1
            &&& j < es.len() ==> closing_word(es[j]) && depth(es, i, j + 1) == 0
        }),
{
    assert(depth(es, i, i) == 0);
    assert(depth(es, i, i + 1) == 1);
    assert(block_word(es[i]));
    assert(awaits_do(es, i, i + 1) == loop_word(es[i]));
    assert forall|q: int| i < q <= i + 1 implies #[trigger] depth(es, i, q) >= 1 by {
        assert(q == i + 1);
    }
    lemma_walk_depth(es, i, i + 1, Seq::empty(), Seq::empty(), starts_loop(es[i]), false, true, funcs, asg, out, cur);
}

/// Whether the reading of a task's body, started at `s`, is at the start
/// of a line at `q`: only white space and comments stand between the last
/// line break and `q`.
pub open spec fn line_start(es: Seq<(Token, Seq<char>)>, s: int, q: int) -> bool
    decreases q - s,
{
    if q <= s {
        false
    } else if es[q - 1].0 == Token::Newline {
        true
    } else if es[q - 1].0 == Token::Whitespace || es[q - 1].0 == Token::Comment {
        line_start(es, s, q - 1)
    } else {
        false
    }
}

/// No line break stands in `es[s..q]`: `q` is on the first line.
pub open spec fn first_line(es: Seq<(Token, Seq<char>)>, s: int, q: int) -> bool {
    forall|m: int| s <= m < q ==> (#[trigger] es[m]).0 != Token::Newline
}

/// No block keyword stands in `es[q..e]`.
pub open spec fn no_block_word(es: Seq<(Token, Seq<char>)>, q: int, e: int) -> bool {
    forall|m: int| q <= m < e ==> !block_word(#[trigger] es[m])
}

/// A task body read from `s` is of plain form: its first line holds no
/// `until`, and no shell command line holds a block keyword.
pub open spec fn plain_task_body(
    es: Seq<(Token, Seq<char>)>,
    s: int,
    funcs: Seq<Seq<char>>,
    asg: Seq<Seq<char>>,
) -> bool {
    &&& forall|q: int| s <= q < es.len() && #[trigger] first_line(es, s, q) ==> !(es[q].0 == Token::Identifier
        && es[q].1 == "until"@)
    &&& forall|q: int| s <= q < es.len() && #[trigger] line_start(es, s, q) && is_shell_start(es, q, funcs, asg)
        ==> no_block_word(es, q, line_end_index(es, q))
}

proof fn lemma_no_block_word_keeps_depth(es: Seq<(Token, Seq<char>)>, s: int, k: int, e: int)
    requires
        s <= k <= e <= es.len(),
        no_block_word(es, k, e),
    ensures
        forall|q: int| k <= q <= e ==> #[trigger] depth(es, s, q) == depth(es, s, k) && awaits_do(es, s, q)
            == awaits_do(es, s, k),
    decreases e - k,
{
    if k < e {
        assert(!block_word(es[k]));
        assert(depth(es, s, k + 1) == depth(es, s, k));
        assert(awaits_do(es, s, k + 1) == awaits_do(es, s, k));
        lemma_no_block_word_keeps_depth(es, s, k + 1, e);
    }
}

#[verifier::spinoff_prover]
#[verifier::rlimit(100)]
proof fn lemma_task_walk_depth(
    es: Seq<(Token, Seq<char>)>,
    s: int,
    k: int,
    stack: Seq<Seq<char>>,
    aws: Seq<bool>,
    aw: bool,
    ls: bool,
    named: bool,
    funcs: Seq<Seq<char>>,
    asg: Seq<Seq<char>>,
    out: Seq<char>,
    cur: Seq<char>,
)
    requires
        0 <= s <= k <= es.len(),
        loops_own_their_do(es, s),
        plain_task_body(es, s, funcs, asg),
        stack.len() == aws.len(),
        stack.len() == depth(es, s, k),
        aw == awaits_do(es, s, k),
        ls ==> line_start(es, s, k) && named,
        !named ==> first_line(es, s, k),
        forall|m: int| 0 <= m < aws.len() ==> !(#[trigger] aws[m]),
        forall|q: int| s < q <= k ==> #[trigger] depth(es, s, q) >= 0,
    ensures
        ({
            let j = walk(es, k, stack, aws, aw, ls, named, true, funcs, asg, out, cur).0;
            &&& forall|q: int| s < q <= j ==> #[trigger] depth(es, s, q) >= 0
            &&& j < es.len() ==> closing_word(es[j]) && depth(es, s, j + 1) == -1
        }),
    decreases es.len() - k,
{
    if k < es.len() {
        let e = es[k];
        assert(depth(es, s, k + 1) == depth(es, s, k) + if opens_at(es, s, k) {
            1int
        } else if closing_word(e) {
            -1int
        } else {
            0int
        });
        assert(first_line(es, s, k) && e.0 != Token::Newline ==> first_line(es, s, k + 1));
        if ls && e.0 == Token::Whitespace {
            assert(!block_word(e));
            assert(awaits_do(es, s, k + 1) == awaits_do(es, s, k));
            assert(line_start(es, s, k + 1));
            lemma_task_walk_depth(es, s, k + 1, stack, aws, aw, true, named, funcs, asg, out, cur + e.1);
        } else if ls && is_shell_start(es, k, funcs, asg) {
            let le = line_end_index(es, k);
            lemma_line_end_index(es, k);
            assert(line_start(es, s, k));
            assert(no_block_word(es, k, le));
            if k < le <= es.len() {
                lemma_no_block_word_keeps_depth(es, s, k, le);
                assert forall|q: int| s < q <= le implies #[trigger] depth(es, s, q) >= 0 by {
                    if q > k {
                        assert(depth(es, s, q) == depth(es, s, k));
                    }
                }
                assert(depth(es, s, le) == depth(es, s, k) && awaits_do(es, s, le) == awaits_do(es, s, k));
                lemma_task_walk_depth(es, s, le, stack, aws, aw, false, named, funcs, asg, out, cur + exec_call(command_words(es, k, le)));
            }
        } else if !named && e.0 == Token::Identifier {
            assert(first_line(es, s, k));
            assert(!block_word(e));
            assert(awaits_do(es, s, k + 1) == awaits_do(es, s, k));
            lemma_task_walk_depth(es, s, k + 1, stack, aws, aw, false, true, funcs, asg, out, cur + task_header(e.1));
        } else if e.0 == Token::Newline {
            assert(!block_word(e));
            assert(awaits_do(es, s, k + 1) == awaits_do(es, s, k));
            assert(line_start(es, s, k + 1));
            lemma_task_walk_depth(es, s, k + 1, stack, aws, aw, true, true, funcs, asg, flush(out, cur), Seq::empty());
        } else if e.0 == Token::Comment {
            assert(!block_word(e));
            assert(awaits_do(es, s, k + 1) == awaits_do(es, s, k));
            assert(ls ==> line_start(es, s, k + 1));
            lemma_task_walk_depth(es, s, k + 1, stack, aws, aw, ls, named, funcs, asg, out, cur);
        } else if closes(e) {
            assert(closing_word(e));
            assert(!opens_at(es, s, k));
            if stack.len() > 0 {
                assert(!aws[aws.len() - 1]);
                let ad = aws.drop_last();
                assert forall|m: int| 0 <= m < ad.len() implies !(#[trigger] ad[m]) by {
                    assert(ad[m] == aws[m]);
                }
                assert(awaits_do(es, s, k + 1) == false);
                lemma_task_walk_depth(es, s, k + 1, stack.drop_last(), ad, aws.last(), false, named, funcs, asg,
                    add_line(out, closing_line(cur, e.1)), stack.last());
            }
        } else if opens_block(e, aw) {
            assert(opens_at(es, s, k));
            assert(block_word(e));
            assert(!aw) by {
                if aw {
                    assert(awaits_do(es, s, k));
                    assert(do_word(e));
                }
            }
            assert(awaits_do(es, s, k + 1) == loop_word(e));
            let a2 = aws.push(aw);
            assert forall|m: int| 0 <= m < a2.len() implies !(#[trigger] a2[m]) by {
                if m < aws.len() {
                    assert(a2[m] == aws[m]);
                }
            }
            if blank(cur) {
                lemma_task_walk_depth(es, s, k + 1, stack.push(cur), a2, starts_loop(e), false, named, funcs, asg, out, e.1);
            } else {
                lemma_task_walk_depth(es, s, k + 1, stack.push(Seq::empty()), a2, starts_loop(e), false, named, funcs, asg, out, cur + e.1);
            }
        } else if e.0 == Token::BuiltIn && e.1 == "do"@ {
            assert(do_word(e) && aw);
            assert(!opens_at(es, s, k));
            assert(awaits_do(es, s, k + 1) == false);
            lemma_task_walk_depth(es, s, k + 1, stack, aws, false, false, named, funcs, asg, out, cur + e.1);
        } else {
            assert(!block_word(e));
            assert(!opens_at(es, s, k));
            assert(awaits_do(es, s, k + 1) == awaits_do(es, s, k));
            lemma_task_walk_depth(es, s, k + 1, stack, aws, aw, false, named, funcs, asg, out, cur + e.1);
        }
    }
}

/// A task ends at the `end` that balances its own blocks, not at a later
/// one: its body, read after the `task` keyword, stops at the first closing
/// keyword at which none of its blocks is open (a `for` or `while` loop
/// owning its `do`, so that the loop's single `end` closes it). This holds
/// for a body whose first line holds no `until` and whose shell command
/// lines hold no block keyword.
pub proof fn law_task_ends_where_it_balances(
    es: Seq<(Token, Seq<char>)>,
    p: int,
    funcs: Seq<Seq<char>>,
    asg: Seq<Seq<char>>,
    out: Seq<char>,
    cur: Seq<char>,
)
    requires
        0 <= p < es.len(),
        loops_own_their_do(es, p + 1),
        plain_task_body(es, p + 1, funcs, asg),
    ensures
        ({
            let j = task_from(es, p, funcs, asg, out, cur).0;
            &&& forall|q: int| p + 1 < q <= j ==> #[trigger] depth(es, p + 1, q) >= 0
            &&& j < es.len() ==> closing_word(es[j]) && depth(es, p + 1, j + 1) == -1
        }),
{
    assert(depth(es, p + 1, p + 1) == 0);
    assert(first_line(es, p + 1, p + 1));
    lemma_task_walk_depth(es, p + 1, p + 1, Seq::empty(), Seq::empty(), false, false, false, funcs, asg, out, cur);
}

} // verus!
