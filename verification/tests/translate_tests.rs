use motive::lua::parser::Parser;
use motive::lua::{translate, EngineContext};

#[test]
fn task_translation() {
    let (source, context) = translate("task hi -- Say hi\n  print(\"hi\")\nend\n");
    assert_eq!(source, "-- Generated by Motive\n motive.tasks.hi = function() \n  print(\"hi\")\nend");
    assert_eq!(context.tasks.len(), 1);
    assert_eq!(context.tasks.get(&"hi".to_string()), Some("Say hi".to_string()));
    assert!(context.has_task("hi".to_string()));
    assert!(!context.has_task("ho".to_string()));
}

#[test]
fn task_header_keeps_the_white_space_of_its_line() {
    let (source, context) = translate("task hi -- say hi\nend");
    assert_eq!(source, "-- Generated by Motive\n motive.tasks.hi = function() \nend");
    assert_eq!(context.tasks.get(&"hi".to_string()), Some("say hi".to_string()));
    let (source, context) = translate("task build\n  make()\nend");
    assert_eq!(source, "-- Generated by Motive\n motive.tasks.build = function()\n  make()\nend");
    assert_eq!(context.tasks.get(&"build".to_string()), Some("".to_string()));
    assert!(context.functions.is_empty());
}

#[test]
fn function_translation() {
    let (source, context) = translate("function hello()\n  print(\"Hello\")\nend\n");
    assert_eq!(source, "-- Generated by Motive\nfunction hello()\n  print(\"Hello\")\nend");
    assert_eq!(context.functions, vec!["hello".to_string()]);
    assert_eq!(context.tasks.len(), 0);
}

#[test]
fn local_translation() {
    let (source, context) = translate("local x = 1\n");
    assert_eq!(source, "-- Generated by Motive\nlocal x = 1");
    assert_eq!(context.assignments, vec!["x".to_string()]);
}

#[test]
fn top_level_statements_are_kept() {
    let (source, context) = translate("x = 1\nprint(x)\n");
    assert_eq!(source, "-- Generated by Motive\nx = 1\nprint(x)");
    let lines: Vec<&str> = source.lines().collect();
    assert_eq!(lines, vec!["-- Generated by Motive", "x = 1", "print(x)"]);
    assert_eq!(context.tasks.len(), 0);
    assert!(context.functions.is_empty());
}

#[test]
fn comments_and_blank_lines_are_left_out() {
    let (source, context) = translate("-- comment\n\n   \nx = 1 -- one\n");
    assert_eq!(source, "-- Generated by Motive\nx = 1 ");
    assert_eq!(context.functions.len(), 0);
}

#[test]
fn function_parameters_are_not_function_names() {
    let (source, context) =
        translate("function greet(name)\n  print(name)\nend\ntask name\nend");
    assert_eq!(context.functions, vec!["greet".to_string()]);
    assert!(context.has_task("name".to_string()));
    assert_eq!(context.tasks.get(&"name".to_string()), Some("".to_string()));
    assert_eq!(context.tasks.len(), 1);
    assert_eq!(
        source,
        "-- Generated by Motive\nfunction greet(name)\n  print(name)\nend\n motive.tasks.name = function()\nend"
    );
}

#[test]
fn local_table_spans_lines() {
    let mut parser = Parser::new("local t = {\n  a = 1\n}\n");
    assert_eq!(parser.parse_local(), "local t = {\n  a = 1\n}");
    assert_eq!(parser.assignments, vec!["t".to_string()]);
    let (source, context) = translate("local t = {\n  a = 1\n}\nprint(t.a)\n");
    assert_eq!(source, "-- Generated by Motive\nlocal t = {\n  a = 1\n}\nprint(t.a)");
    assert_eq!(context.assignments, vec!["t".to_string()]);
}

#[test]
fn parse_local_reads_one_statement() {
    let mut parser = Parser::new("local a, b\nlocal c");
    assert_eq!(parser.parse_local(), "local a, b");
    assert_eq!(parser.assignments, vec!["a".to_string(), "b".to_string()]);
    let mut parser = Parser::new("local a, b\nlocal c");
    assert_eq!(parser.run(), "-- Generated by Motive\nlocal a, b\nlocal c");
    assert_eq!(parser.assignments, vec!["a".to_string(), "b".to_string(), "c".to_string()]);
}

#[test]
fn shell_lines_become_exec_calls() {
    let (source, context) = translate("task hi\n  ls -la\n  @ls -la\nend");
    assert_eq!(
        source,
        "-- Generated by Motive\n motive.tasks.hi = function()\n  exec(\"ls\", \"-la\")\n  exec(\"@ls\", \"-la\")\nend"
    );
    assert_eq!(context.tasks.len(), 1);
    assert_eq!(context.tasks.get(&"hi".to_string()), Some("".to_string()));
}

#[test]
fn shell_words_and_quotes() {
    let (source, _) = translate("task say\n  echo \"a\\b\" -- loud\nend\n");
    assert_eq!(
        source,
        "-- Generated by Motive\n motive.tasks.say = function()\n  exec(\"echo\", \"a\\\\b\")\nend"
    );
}

#[test]
fn quoted_strings_join_the_word_around_them() {
    let (source, _) = translate("task p\n  printf \"%s\" x\"y z\"\nend\n");
    assert_eq!(
        source,
        "-- Generated by Motive\n motive.tasks.p = function()\n  exec(\"printf\", \"%s\", \"xy z\")\nend"
    );
}

#[test]
fn calls_of_known_functions_stay_lua() {
    let (source, _) = translate("function go()\nend\ntask t\n  go\n  x.y = 2\nend\n");
    assert_eq!(
        source,
        "-- Generated by Motive\nfunction go()\nend\n motive.tasks.t = function()\n  go\n  x.y = 2\nend"
    );
}

#[test]
fn else_stays_in_its_if() {
    let (source, context) =
        translate("task t\n  if x then\n    a()\n  else\n    b()\n  end\nend\ntask u\nend\n");
    assert!(context.has_task("t".to_string()));
    assert!(context.has_task("u".to_string()));
    assert_eq!(context.tasks.len(), 2);
    assert_eq!(
        source,
        "-- Generated by Motive\n motive.tasks.t = function()\nif x then\n    a()\n  else\n    b()\nend\n  \nend\n motive.tasks.u = function()\nend"
    );
}

#[test]
fn if_block_at_top_level_is_kept_whole() {
    let (source, _) = translate("if x then\n  a()\nelse\n  b()\nend\nz");
    assert_eq!(source, "-- Generated by Motive\nif x then\n  a()\nelse\n  b()\nend\nz");
}

#[test]
fn nested_block_lines() {
    let (source, _) = translate("if x then\n  if y then\n    a()\n  end\nend");
    let lines: Vec<&str> = source.lines().collect();
    assert_eq!(lines, vec!["-- Generated by Motive", "if x then", "if y then", "    a()", "end", "  ", "end"]);
}

#[test]
fn function_ends_at_its_own_end() {
    let (source, context) = translate("function f()\n  if x then\n    y()\n  end\nend\ntask t\nend");
    assert_eq!(
        source,
        "-- Generated by Motive\nfunction f()\nif x then\n    y()\nend\n  \nend\n motive.tasks.t = function()\nend"
    );
    assert_eq!(context.functions, vec!["f".to_string()]);
    assert!(context.has_task("t".to_string()));
}

#[test]
fn loops_inside_a_task() {
    let (source, context) =
        translate("task t\n  for i = 1, 2 do\n    print(i)\n  end\n  repeat\n    n = n - 1\n  until n\nend\ntask u\nend\n");
    assert!(context.has_task("t".to_string()));
    assert!(context.has_task("u".to_string()));
    let lines: Vec<&str> = source.lines().collect();
    assert_eq!(
        lines,
        vec![
            "-- Generated by Motive", " motive.tasks.t = function()", "for i = 1, 2 do", "    print(i)", "end",
            "  ", "repeat", "    n = n - 1", "until", "   n", "end", " motive.tasks.u = function()", "end",
        ]
    );
}

#[test]
fn description_loses_dashes_and_white_space() {
    let (_, context) = translate("task a --  -- two -- dashes  \nend\n");
    assert_eq!(context.tasks.get(&"a".to_string()), Some("two  dashes".to_string()));
}

#[test]
fn description_may_come_from_the_body() {
    let (source, context) = translate("task t\n  -- does things\n  go()\n  -- more\nend");
    assert_eq!(context.tasks.get(&"t".to_string()), Some("does things".to_string()));
    assert_eq!(source, "-- Generated by Motive\n motive.tasks.t = function()\n  \n  go()\n  \nend");
}

#[test]
fn redeclared_task_keeps_one_entry() {
    let (_, context) = translate("task a -- first\nend\ntask a -- second\nend\ntask b\nend\n");
    assert_eq!(context.tasks.len(), 2);
    assert_eq!(context.tasks.get(&"a".to_string()), Some("second".to_string()));
    assert_eq!(context.tasks.get(&"b".to_string()), Some("".to_string()));
    assert_eq!(context.tasks.entry_at(0).0, "a");
}

#[test]
fn empty_manifest() {
    let (source, context) = translate("");
    assert_eq!(source, "-- Generated by Motive");
    assert_eq!(context.tasks.len(), 0);
    assert!(context.functions.is_empty());
    assert!(context.assignments.is_empty());
    let mut parser = Parser::new("");
    assert_eq!(parser.run(), "-- Generated by Motive");
    let default = EngineContext::default();
    assert_eq!(default.tasks.len(), 0);
}

#[test]
fn function_and_task_of_the_readme() {
    let mut parser = Parser::new("function hello() \n  print(\"Hello, world!\")\nend\n\ntask funcall -- Call a lua function\n  hello()\nend\n");
    assert_eq!(
        parser.run(),
        "-- Generated by Motive\nfunction hello() \n  print(\"Hello, world!\")\nend\n motive.tasks.funcall = function() \n  hello()\nend"
    );
    assert_eq!(parser.functions, vec!["hello".to_string()]);
    assert_eq!(parser.tasks.get(&"funcall".to_string()), Some("Call a lua function".to_string()));
}

#[test]
fn getting_started_manifest() {
    let manifest = "task taskname -- this will get printed when running: $ motive list\n  echo \"Hello world\"\n  @ls -la\nend\n\n-- This function cannot be called from the command line and only available\n-- in the manifest\nfunction hello() \n  print(\"Hello, world!\")\nend\n\n-- A task can call a lua function\ntask funcall -- Call a lua function\n  hello()\nend\n";
    let (source, context) = translate(manifest);
    assert_eq!(
        source,
        "-- Generated by Motive\n motive.tasks.taskname = function() \n  exec(\"echo\", \"Hello world\")\n  exec(\"@ls\", \"-la\")\nend\nfunction hello() \n  print(\"Hello, world!\")\nend\n motive.tasks.funcall = function() \n  hello()\nend"
    );
    assert!(context.has_task("taskname".to_string()));
    assert!(context.has_task("funcall".to_string()));
    assert!(!context.has_task("hello".to_string()));
    assert_eq!(
        context.tasks.get(&"taskname".to_string()),
        Some("this will get printed when running: $ motive list".to_string())
    );
    assert_eq!(context.functions, vec!["hello".to_string()]);
}

#[test]
fn lua_before_a_task_is_kept() {
    let (source, context) = translate("-- setup\nx = {1, 2}\nif x then y = 1 end\ntask t\n  go\nend\nz = 3\n");
    assert_eq!(
        source,
        "-- Generated by Motive\nx = {1, 2}\nif x then y = 1 end\n motive.tasks.t = function()\n  exec(\"go\")\nend\nz = 3"
    );
    assert!(context.has_task("t".to_string()));
}

fn without_white_space(s: &str) -> String {
    s.chars().filter(|c| !matches!(c, ' ' | '\t' | '\n' | '\r')).collect()
}

#[test]
fn lua_outside_tasks_keeps_every_character() {
    let manifests = [
        "a = 1\n  b = { 2,\n 3 }\nif c then d() end\n",
        "function f(x)\n  if x then\n    return 1\n  end\n  return 2\nend\n\n\nprint(f(true))",
        "local t = {\n  k = function() return 1 end,\n}\nwhile t do\n  t = nil\nend",
    ];
    for m in manifests.iter() {
        let (source, _) = translate(m);
        assert_eq!(without_white_space(&source), format!("{}{}", without_white_space("-- Generated by Motive"), without_white_space(m)));
    }
}
