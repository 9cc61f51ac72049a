pub mod parser;

use vstd::prelude::*;
use self::parser::Parser;
use self::parser::lexer::lex;
use self::parser::spec::translation;
use crate::table::{StringTable, table_get};
use crate::text::{join, split, lines, to_chars, string_of, split_on, split_lines, join_strings};

verus! {

/// What the translation of a manifest collects.
pub struct EngineContext {
    pub functions: Vec<String>,
    pub tasks: StringTable,
    pub watches: StringTable,
    pub exports: StringTable,
    pub assignments: Vec<String>,
}

impl Default for EngineContext {
    fn default() -> (r: Self)
        ensures
            r.functions@.len() == 0,
            r.tasks@.len() == 0,
            r.watches@.len() == 0,
            r.exports@.len() == 0,
            r.assignments@.len() == 0,
    {
        EngineContext {
            functions: Vec::new(),
            tasks: StringTable::new(),
            watches: StringTable::new(),
            exports: StringTable::new(),
            assignments: Vec::new(),
        }
    }
}

/// The Lua source of a manifest.
pub open spec fn translated_source(raw: Seq<char>) -> Seq<char> {
    translation(lex(raw)).0
}

/// Translates the manifest `raw` into Lua source, and collects its
/// function names, tasks and assignments.
pub fn translate(raw: &str) -> (r: (String, EngineContext))
    ensures
        r.0@ == translated_source(raw@),
        r.1.functions.deep_view() == translation(lex(raw@)).1,
        r.1.tasks@ == translation(lex(raw@)).2,
        r.1.assignments.deep_view() == translation(lex(raw@)).3,
        r.1.watches@.len() == 0,
        r.1.exports@.len() == 0,
{
    let mut parser = Parser::new(raw);
    let source = parser.run();
    let (functions, tasks, watches, exports, assignments) = parser.into_parts();
    (source, EngineContext { functions, tasks, watches, exports, assignments })
}

impl EngineContext {
    /// Whether the manifest declares a task called `name`.
    pub fn has_task(&self, name: String) -> (r: bool)
        ensures
            r == (table_get(self.tasks@, name@) is Some),
    {
        self.tasks.contains_key(&name)
    }
}


/// A shell command ready to run: the program, its arguments, and whether
/// its output is kept quiet.
pub struct ShellCommand {
    pub program: String,
    pub args: Vec<String>,
    pub muted: bool,
}

/// Whether `s` holds the character `c`.
pub open spec fn has_char(s: Seq<char>, c: char) -> bool {
    exists|i: int| 0 <= i < s.len() && s[i] == c
}

/// The command given by the arguments `args` of `exec`: a first argument
/// that starts with `@` mutes the output and loses that `@`; a first
/// argument with spaces holds the program and its leading arguments,
/// split at each space. The result is the program, the arguments and
/// whether the output is muted.
pub open spec fn command_of(args: Seq<Seq<char>>) -> (Seq<char>, Seq<Seq<char>>, bool) {
    let first = args[0];
    let rest = args.skip(1);
    let muted = first.len() > 0 && first[0] == '@';
    let cmd = if muted { first.skip(1) } else { first };
    if has_char(cmd, ' ') {
        let parts = split(cmd, ' ');
        (parts[0], parts.skip(1) + rest, muted)
    } else {
        (cmd, rest, muted)
    }
}

/// Whether `s` holds a space.
fn has_space(s: &str) -> (r: bool)
    ensures
        r == has_char(s@, ' '),
{
    let cs = to_chars(s);
    let mut i: usize = 0;
    while i < cs.len()
        invariant
            cs@ == s@,
            i <= cs@.len(),
            forall|j: int| 0 <= j < i ==> cs@[j] != ' ',
        decreases cs@.len() - i,
    {
        if cs[i] == ' ' {
            return true;
        }
        i = i + 1;
    }
    false
}

/// The command that `exec` runs for the arguments `args`.
pub fn command_line(args: Vec<String>) -> (r: ShellCommand)
    requires
        args@.len() > 0,
    ensures
        (r.program@, r.args.deep_view(), r.muted) == command_of(args.deep_view()),
{
    let ghost all = args.deep_view();
    let mut args = args;
    let first = args.remove(0);
    assert(args.deep_view() =~= all.skip(1));
    assert(first@ == all[0]);
    let first_chars = to_chars(first.as_str());
    let muted = first_chars.len() > 0 && first_chars[0] == '@';
    let cmd = if muted {
        string_of(&first_chars, 1, first_chars.len())
    } else {
        first
    };
    if has_space(cmd.as_str()) {
        let mut parts = split_on(cmd.as_str(), ' ');
        let ghost ps = parts.deep_view();
        proof {
            crate::text::lemma_split_nonempty(cmd@, ' ');
        }
        let program = parts.remove(0);
        assert(parts.deep_view() =~= ps.skip(1));
        let ghost leading = parts.deep_view();
        parts.append(&mut args);
        assert(parts.deep_view() =~= leading + all.skip(1));
        ShellCommand { program, args: parts, muted }
    } else {
        ShellCommand { program: cmd, args, muted }
    }
}

/// `s` with the bold code written again after each reset code (the
/// occurrences found from the left), so that the bold style goes on after
/// a reset inside the text.
pub open spec fn bold_after_resets(s: Seq<char>) -> Seq<char>
    decreases s.len(),
{
    let reset = seq!['\u{1b}', '[', '0', 'm'];
    if s.len() == 0 {
        Seq::empty()
    } else if 4 <= s.len() && s.take(4) == reset {
        reset + seq!['\u{1b}', '[', '1', 'm'] + bold_after_resets(s.skip(4))
    } else {
        seq![s[0]] + bold_after_resets(s.skip(1))
    }
}

/// What `bold` may give for `s`: the text itself when colouring is off,
/// the text between the bold code and the reset code when it is on.
pub open spec fn bold_outcome(s: Seq<char>, styled: Seq<char>) -> bool {
    styled == s || styled == seq!['\u{1b}', '[', '1', 'm'] + bold_after_resets(s)
        + seq!['\u{1b}', '[', '0', 'm']
}

/// `colored::Colorize::bold` on `s`, shown through `Display`. Whether the
/// terminal codes are written depends on the environment (`NO_COLOR`,
/// `CLICOLOR`, whether the output is a terminal), so the result is stated
/// as one of the two outcomes.
#[verifier::external_body]
fn bold(s: &str) -> (r: String)
    ensures
        bold_outcome(s@, r@),
{
    colored::Colorize::bold(s).to_string()
}

/// The line that lists a task: its (styled) name, then its description
/// after a tab and a dash when it has one.
pub open spec fn task_line(styled: Seq<char>, description: Seq<char>) -> Seq<char> {
    if description.len() > 0 {
        styled + "\t"@ + " - "@ + description
    } else {
        styled
    }
}

/// Whether `line` lists the task `name` with the description
/// `description`: it is the task line of one of the outcomes of bold.
pub open spec fn listed(name: Seq<char>, description: Seq<char>, line: Seq<char>) -> bool {
    exists|styled: Seq<char>| bold_outcome(name, styled) && line == #[trigger] task_line(styled, description)
}

/// The line that lists a task with the styled name `styled`.
pub fn format_task_line(styled: &str, description: &str) -> (r: String)
    ensures
        r@ == task_line(styled@, description@),
{
    let mut out: Vec<String> = Vec::new();
    out.push(styled.to_owned());
    if !description.is_empty() {
        let mut d = " - ".to_owned();
        d.append(description);
        out.push(d);
    }
    let r = join_strings(&out, "\t");
    proof {
        if description@.len() > 0 {
            assert(out.deep_view().drop_last() =~= seq![styled@]);
            assert(out.deep_view().last() == " - "@ + description@);
            assert(out.deep_view().len() == 2);
            assert(join(out.deep_view().drop_last(), "\t"@) == styled@);
            assert(r@ == styled@ + "\t"@ + (" - "@ + description@));
            assert(r@ =~= task_line(styled@, description@));
        } else {
            assert(out.deep_view() =~= seq![styled@]);
        }
    }
    r
}

impl EngineContext {
    /// The lines that list the tasks, one per task in the order of the
    /// table, each with the name in bold.
    pub fn task_listing(&self) -> (r: Vec<String>)
        ensures
            r@.len() == self.tasks@.len(),
            forall|i: int| 0 <= i < r@.len() ==> listed(self.tasks@[i].0, self.tasks@[i].1, #[trigger] r@[i]@),
    {
        let mut out: Vec<String> = Vec::new();
        let mut i: usize = 0;
        while i < self.tasks.len()
            invariant
                i <= self.tasks@.len(),
                out@.len() == i,
                forall|j: int| 0 <= j < i ==> listed(self.tasks@[j].0, self.tasks@[j].1, #[trigger] out@[j]@),
            decreases self.tasks@.len() - i,
        {
            let (name, description) = self.tasks.entry_at(i);
            let styled = bold(name.as_str());
            let line = format_task_line(styled.as_str(), description.as_str());
            out.push(line);
            assert(bold_outcome(self.tasks@[i as int].0, styled@) && out@[i as int]@ == task_line(styled@, self.tasks@[i as int].1));
            assert(listed(self.tasks@[i as int].0, self.tasks@[i as int].1, out@[i as int]@));
            i = i + 1;
        }
        out
    }
}

/// The pattern that finds the name of a function defined on a line.
pub open spec fn function_pattern() -> Seq<char> {
    "function[\\t|\\s]+(?P<fname>\\w+)\\s*\\(\\).*"@
}

/// The text of the group `group` in the leftmost match of the regular
/// expression `pattern` in `text`, as the regex crate finds it; `None`
/// where the pattern does not compile, does not match, or the group has
/// no part in the match.
pub uninterp spec fn regex_group(pattern: Seq<char>, group: Seq<char>, text: Seq<char>) -> Option<Seq<char>>;

#[verifier::external_type_specification]
#[verifier::external_body]
pub struct ExRegex(regex::Regex);

/// A regular expression compiled once, with the text it was compiled from.
pub struct CompiledPattern {
    regex: regex::Regex,
    source: String,
}

impl CompiledPattern {
    /// The text the expression was compiled from.
    pub closed spec fn source(&self) -> Seq<char> {
        self.source@
    }
}

/// `regex::Regex::new(pattern)`: the compiled expression, kept with its
/// text; none where the pattern does not compile, and then no text has a
/// group of it.
#[verifier::external_body]
fn compile_pattern(pattern: &str) -> (r: Option<CompiledPattern>)
    ensures
        r matches Some(c) ==> c.source() == pattern@,
        r is None ==> forall|group: Seq<char>, text: Seq<char>| #[trigger] regex_group(pattern@, group, text) is None,
{
    match regex::Regex::new(pattern) {
        Ok(regex) => Some(CompiledPattern { regex, source: pattern.to_string() }),
        Err(_) => None,
    }
}

/// `Regex::captures(text)`, then `Captures::name(group)`, on an expression
/// that `compile_pattern` compiled: the text of the named group of the
/// leftmost match. The result is named, as a function of the expression's
/// text, the group and the text searched.
#[verifier::external_body]
fn capture_group(pattern: &CompiledPattern, group: &str, text: &str) -> (r: Option<String>)
    ensures
        r matches Some(s) ==> regex_group(pattern.source(), group@, text@) == Some(s@),
        r is None ==> regex_group(pattern.source(), group@, text@) is None,
{
    match pattern.regex.captures(text) {
        Some(caps) => match caps.name(group) {
            Some(m) => Some(m.as_str().to_string()),
            None => None,
        },
        None => None,
    }
}

/// The names that the regular expression finds in the lines of `source`,
/// in order, one per line where it matches.
pub open spec fn function_names_in(source: Seq<char>) -> Seq<Seq<char>> {
    names_of_lines(lines(source))
}

/// The names found in each line of `ls`.
pub open spec fn names_of_lines(ls: Seq<Seq<char>>) -> Seq<Seq<char>>
    decreases ls.len(),
{
    if ls.len() == 0 {
        Seq::empty()
    } else {
        let found = regex_group(function_pattern(), "fname"@, ls.last());
        match found {
            Some(n) => names_of_lines(ls.drop_last()).push(n),
            None => names_of_lines(ls.drop_last()),
        }
    }
}

/// The names of the functions defined in `source`, one per line that
/// defines one.
pub fn function_names(source: &str) -> (r: Vec<String>)
    ensures
        r.deep_view() == function_names_in(source@),
{
    let ls = split_lines(source);
    let compiled = compile_pattern("function[\\t|\\s]+(?P<fname>\\w+)\\s*\\(\\).*");
    let pattern = match compiled {
        Some(c) => c,
        None => {
            proof {
                lemma_no_names_without_matches(lines(source@));
            }
            return Vec::new();
        },
    };
    let mut names: Vec<String> = Vec::new();
    let mut i: usize = 0;
    while i < ls.len()
        invariant
            pattern.source() == function_pattern(),
            i <= ls@.len(),
            ls.deep_view() == lines(source@),
            names.deep_view() == names_of_lines(ls.deep_view().take(i as int)),
        decreases ls@.len() - i,
    {
        let ghost before = names.deep_view();
        assert(ls.deep_view().take(i + 1).drop_last() =~= ls.deep_view().take(i as int));
        assert(ls.deep_view().take(i + 1).last() == ls@[i as int]@);
        match capture_group(&pattern, "fname", ls[i].as_str()) {
            Some(n) => {
                names.push(n);
                assert(names.deep_view() =~= before.push(n@));
            },
            None => {},
        }
        i = i + 1;
    }
    assert(ls.deep_view().take(i as int) =~= ls.deep_view());
    names
}

/// Where the pattern finds no name in any text, no line gives a name.
proof fn lemma_no_names_without_matches(ls: Seq<Seq<char>>)
    requires
        forall|group: Seq<char>, text: Seq<char>| #[trigger] regex_group(function_pattern(), group, text) is None,
    ensures
        names_of_lines(ls) == Seq::<Seq<char>>::empty(),
    decreases ls.len(),
{
    if ls.len() > 0 {
        assert(regex_group(function_pattern(), "fname"@, ls.last()) is None);
        lemma_no_names_without_matches(ls.drop_last());
    }
}

} // verus!
