use motive::cli::{dispatch, Action};
use motive::lua::{command_line, format_task_line, function_names, translate, EngineContext};
use motive::table::StringTable;
use motive::text::{remove_all_of, split_lines, split_on, trim_str};
use motive::watch::{find_handler, handler_for_event, WatchEvent};

fn strings(v: &[&str]) -> Vec<String> {
    v.iter().map(|s| s.to_string()).collect()
}

#[test]
fn muted_command() {
    let c = command_line(strings(&["@ls -la"]));
    assert_eq!(c.program, "ls");
    assert_eq!(c.args, strings(&["-la"]));
    assert!(c.muted);
    let c = command_line(strings(&["@ls", "-la"]));
    assert_eq!(c.program, "ls");
    assert_eq!(c.args, strings(&["-la"]));
    assert!(c.muted);
    let c = command_line(strings(&["@@x"]));
    assert_eq!(c.program, "@x");
    assert!(c.muted);
    let c = command_line(strings(&["@echo a@b"]));
    assert_eq!(c.program, "echo");
    assert_eq!(c.args, strings(&["a@b"]));
    assert!(c.muted);
}

#[test]
fn plain_command() {
    let c = command_line(strings(&["ls", "-la"]));
    assert_eq!(c.program, "ls");
    assert_eq!(c.args, strings(&["-la"]));
    assert!(!c.muted);
    let c = command_line(strings(&["a@b"]));
    assert_eq!(c.program, "a@b");
    assert!(c.args.is_empty());
    assert!(!c.muted);
}

#[test]
fn command_with_spaces_is_split_at_each_space() {
    let c = command_line(strings(&["echo a  b", "c"]));
    assert_eq!(c.program, "echo");
    assert_eq!(c.args, strings(&["a", "", "b", "c"]));
}

#[test]
fn task_lines() {
    assert_eq!(format_task_line("build", "Builds it"), "build\t - Builds it");
    assert_eq!(format_task_line("build", ""), "build");
}

#[test]
fn task_listing_has_one_line_per_task() {
    let (_, context) = translate("task a -- first\nend\ntask b\nend\n");
    let lines = context.task_listing();
    assert_eq!(lines.len(), 2);
    assert!(lines[0] == "a\t - first" || lines[0] == "\u{1b}[1ma\u{1b}[0m\t - first");
    assert!(lines[1] == "b" || lines[1] == "\u{1b}[1mb\u{1b}[0m");
}

#[test]
fn bold_goes_on_after_a_reset_in_the_name() {
    let mut tasks = StringTable::new();
    tasks.insert("a\u{1b}[0mb".to_string(), "".to_string());
    let context = EngineContext {
        functions: Vec::new(),
        tasks,
        watches: StringTable::new(),
        exports: StringTable::new(),
        assignments: Vec::new(),
    };
    let lines = context.task_listing();
    assert_eq!(lines.len(), 1);
    assert!(
        lines[0] == "a\u{1b}[0mb"
            || lines[0] == "\u{1b}[1ma\u{1b}[0m\u{1b}[1mb\u{1b}[0m"
    );
}

#[test]
fn function_names_by_pattern() {
    let names = function_names("function hello()\nfunction add(a)\n  function  go() -- x\r\nlocal y");
    assert_eq!(names, strings(&["hello", "go"]));
}

#[test]
fn dispatch_decisions() {
    let (_, context) = translate("task hi\nend\n");
    assert!(matches!(dispatch(None, Some(&context)), Action::Idle));
    assert!(matches!(dispatch(Some("init".to_string()), None), Action::Init));
    assert!(matches!(dispatch(Some("list".to_string()), Some(&context)), Action::List));
    assert!(matches!(dispatch(Some("list".to_string()), None), Action::MissingManifest));
    assert!(matches!(dispatch(Some("hi".to_string()), None), Action::MissingManifest));
    match dispatch(Some("hi".to_string()), Some(&context)) {
        Action::RunTask(t) => assert_eq!(t, "hi"),
        _ => panic!("expected the task to run"),
    }
    match dispatch(Some("ho".to_string()), Some(&context)) {
        Action::UnknownCommand(t) => assert_eq!(t, "ho"),
        _ => panic!("expected an unknown command"),
    }
}

#[test]
fn handler_of_nearest_watched_ancestor() {
    let watched = strings(&["/a", "/a/b/c"]);
    assert_eq!(find_handler("/a/b/c.txt".to_string(), &watched), Some("/a".to_string()));
    assert_eq!(find_handler("/a/b/c".to_string(), &watched), Some("/a/b/c".to_string()));
    assert_eq!(find_handler("/a/b/c/d".to_string(), &watched), Some("/a/b/c".to_string()));
    assert_eq!(find_handler("/x/y".to_string(), &watched), None);
    assert_eq!(find_handler("a".to_string(), &watched), None);
}

#[test]
fn watched_paths_match_by_components() {
    let watched = strings(&["/a/b/"]);
    assert_eq!(find_handler("/a/b".to_string(), &watched), Some("/a/b/".to_string()));
    assert_eq!(find_handler("/a//b/c".to_string(), &watched), Some("/a/b/".to_string()));
    assert_eq!(find_handler("/a/bc".to_string(), &watched), None);
    let watched = strings(&["/x", "/a/./b"]);
    assert_eq!(find_handler("/a/b/f".to_string(), &watched), Some("/a/./b".to_string()));
}

#[test]
fn handler_for_events() {
    let watched = strings(&["/a"]);
    let e = WatchEvent::Write("/a/f".to_string());
    assert_eq!(handler_for_event(&e, &watched), Some("/a".to_string()));
    let e = WatchEvent::Rename("/z/f".to_string(), "/a/f".to_string());
    assert_eq!(handler_for_event(&e, &watched), None);
    assert_eq!(handler_for_event(&WatchEvent::Rescan, &watched), None);
    let e = WatchEvent::Error("boom".to_string(), Some("/a".to_string()));
    assert_eq!(handler_for_event(&e, &watched), None);
}

#[test]
fn string_table_read_after_write() {
    let mut t = StringTable::new();
    t.insert("a".to_string(), "1".to_string());
    t.insert("b".to_string(), "2".to_string());
    t.insert("a".to_string(), "3".to_string());
    assert_eq!(t.len(), 2);
    assert_eq!(t.get(&"a".to_string()), Some("3".to_string()));
    assert_eq!(t.get(&"b".to_string()), Some("2".to_string()));
    assert_eq!(t.get(&"c".to_string()), None);
    assert!(t.contains_key(&"b".to_string()));
    assert_eq!(t.entry_at(0), ("a".to_string(), "3".to_string()));
}

#[test]
fn text_helpers() {
    assert_eq!(trim_str("  a b \t\u{3000}"), "a b");
    assert_eq!(remove_all_of("--a--b", "--"), "ab");
    assert_eq!(remove_all_of("---", "--"), "-");
    assert_eq!(split_lines("a\r\nb\n\nc\r"), strings(&["a", "b", "", "c\r"]));
    assert_eq!(split_lines("a\n"), strings(&["a"]));
    assert!(split_lines("").is_empty());
    assert_eq!(split_on("a b", ' '), strings(&["a", "b"]));
    assert_eq!(split_on("", ' '), strings(&[""]));
}
