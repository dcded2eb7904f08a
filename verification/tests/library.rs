use risc::call::{plan_arguments, ArgSource, FnParam};
use risc::cli::{Cli, Mode};
use risc::env::{Env, EnvRef};
use risc::error::{LangError, LangErrorKind, NativeError};
use risc::module::{anchor_path, module_failure, module_file, module_not_found, ModuleKind, Project};
use risc::strings::sort_strings;
use risc::repl::{validate, Validation};
use risc::source::{SourceMap, Span};
use risc::strings;
use risc::value::{json_layout, key_name, JsonLayout, TableKey};
use risc::ast::NodeId;
use risc::lexer::TokenizationError;

fn sample_map() -> (SourceMap, Span) {
    let mut map = SourceMap::new();
    let id = map.add("main.ri".to_string(), "let x = 1\nlet y = oops\nprint(y)\n".to_string()).id;
    (map, Span { source: id, start: 18, end: 22 })
}

#[test]
fn source_map_locations() {
    let (map, span) = sample_map();
    let loc = map.get_location(span);
    assert_eq!((loc.line, loc.col), (1, 8));
    assert_eq!(map.format_location(span), "main.ri:2:9");
    assert_eq!(map.extract_line(span).as_deref(), Some("let y = oops"));
    assert_eq!(map.get(span.source).name, "main.ri");
    assert_eq!(map.get(risc::source::SourceId::internal()).name, "<internal>");
}

#[test]
fn render_context_with_caret() {
    let (map, span) = sample_map();
    assert_eq!(
        map.render_span_context(span, 3, 1),
        "1 | let x = 1\n2 | let y = oops\n  |         ^^^^\n3 | print(y)"
    );
}

#[test]
fn render_context_pads_line_numbers() {
    let mut map = SourceMap::new();
    let text: String = (1..=12).map(|i| format!("l{i}\n")).collect();
    let id = map.add("f".to_string(), text).id;
    let start = "l1\nl2\nl3\nl4\nl5\nl6\nl7\nl8\nl9\n".len();
    let span = Span { source: id, start, end: start };
    assert_eq!(
        map.render_span_context(span, 1, 1),
        " 9 | l9\n10 | l10\n   | ^\n11 | l11"
    );
}

#[test]
fn extract_line_past_the_end() {
    let mut map = SourceMap::new();
    let id = map.add("f".to_string(), "a\n".to_string()).id;
    let span = Span { source: id, start: 2, end: 2 };
    assert_eq!(map.extract_line(span), None);
    let loc = map.get_location(span);
    assert_eq!((loc.line, loc.col), (1, 0));
}

#[test]
fn lines_strip_carriage_returns() {
    let mut map = SourceMap::new();
    let id = map.add("f".to_string(), "  a \r\nb".to_string()).id;
    let span = Span { source: id, start: 0, end: 1 };
    assert_eq!(map.extract_line(span).as_deref(), Some("a"));
}

#[test]
fn error_summary_and_report() {
    let (map, span) = sample_map();
    let e = LangError::runtime_error("definition error".to_string(), "get of undefined key 'oops' in this scope".to_string(), vec![span]);
    assert_eq!(e.extract(), "runtime error: definition error (get of undefined key 'oops' in this scope)");
    let report = e.display(&map);
    assert_eq!(
        report,
        "runtime error: definition error (get of undefined key 'oops' in this scope)\n\nat main.ri:2:9\n1 | let x = 1\n2 | let y = oops\n  |         ^^^^\n3 | print(y)"
    );
}

#[test]
fn error_report_with_stack_trace() {
    let (map, span) = sample_map();
    let outer = Span { source: span.source, start: 20, end: 28 };
    let first = Span { source: span.source, start: 0, end: 3 };
    let e = LangError::invalid_syntax("x", "m".to_string(), first).add_context(span).add_context(outer);
    let report = e.display(&map);
    assert!(report.ends_with("\n\nstack trace (most recent call last):\n  at main.ri:2:11  let y = oops\n  at main.ri:2:9  let y = oops"));
    assert!(report.starts_with("invalid syntax: x (m)\n\nat main.ri:1:1\n1 | let x = 1\n  | ^^^\n2 | let y = oops"));
}

#[test]
fn error_kinds_headlines() {
    let sp = Span::internal();
    let e = LangError::invalid_input("unexpected character", "got $".to_string(), sp);
    assert_eq!(e.extract(), "invalid input: unexpected character (got $)");
    let e = LangError::new(LangErrorKind::UnexpectedEOF { subkind: "expected token" }, "missing x".to_string(), vec![]);
    assert_eq!(e.extract(), "unexpected end of file: expected token (missing x)");
    let (map, _) = sample_map();
    assert_eq!(e.display(&map), "unexpected end of file: expected token (missing x)\n\n");
}

#[test]
fn native_error_messages() {
    let e = NativeError::operation_type_error("+", "string", "number");
    assert_eq!(e.kind, "type error");
    assert_eq!(e.message, "invalid operands for '+': string and number");
    let e = NativeError::new("math error", "division by zero".to_string());
    assert_eq!(e.message, "division by zero");
}

#[test]
fn tokenization_error_text() {
    let e = TokenizationError::new("bad".to_string(), Span::internal());
    assert_eq!(e.describe(), "bad (bytes 0..0)");
}

#[test]
fn span_merge_and_cover() {
    let (_, span) = sample_map();
    let other = Span { source: span.source, start: 2, end: 30 };
    let m = span.merge(other);
    assert_eq!((m.start, m.end), (2, 30));
    assert_eq!(Span::internal().cover(span), span);
    assert_eq!(span.cover(Span::internal()), span);
}

#[test]
fn env_define_get_set() {
    let mut env: Env<i32> = Env::new();
    let root = env.root();
    env.define(root, "a", 1).unwrap();
    let e = env.define(root, "a", 2).unwrap_err();
    assert_eq!(e.kind, "definition error");
    assert_eq!(e.message, "redefinition of key 'a' in this scope");
    let inner = env.inner(root);
    assert_eq!(*env.get(inner, "a").unwrap(), 1);
    env.define(inner, "a", 5).unwrap();
    assert_eq!(*env.get(inner, "a").unwrap(), 5);
    assert_eq!(*env.get(root, "a").unwrap(), 1);
    env.set(inner, "a", 7).unwrap();
    assert_eq!(*env.get(inner, "a").unwrap(), 7);
    assert_eq!(*env.get(root, "a").unwrap(), 1);
    let e = env.set(inner, "zz", 1).unwrap_err();
    assert_eq!(e.message, "set of undefined key 'zz' in this scope");
    let e = env.get(inner, "zz").unwrap_err();
    assert_eq!(e.message, "get of undefined key 'zz' in this scope");
    env.upsert(root, "a", 9);
    assert_eq!(*env.get(root, "a").unwrap(), 9);
    assert_eq!(EnvRef(0), root);
}

#[test]
fn set_reaches_the_owning_scope() {
    let mut env: Env<&str> = Env::new();
    let root = env.root();
    env.define(root, "x", "old").unwrap();
    let a = env.inner(root);
    let b = env.inner(a);
    env.set(b, "x", "new").unwrap();
    assert_eq!(*env.get(root, "x").unwrap(), "new");
}

fn params() -> Vec<FnParam> {
    vec![
        FnParam { name: "a".to_string(), default: None },
        FnParam { name: "b".to_string(), default: Some(NodeId(7)) },
        FnParam { name: "c".to_string(), default: None },
    ]
}

#[test]
fn argument_plans() {
    let plan = plan_arguments(&params(), 1, &["c".to_string()]).unwrap();
    assert_eq!(plan.sources, vec![ArgSource::Positional(0), ArgSource::Default(NodeId(7)), ArgSource::Named(0)]);
    assert!(plan.error.is_none());

    let e = plan_arguments(&params(), 4, &[]).unwrap_err();
    assert_eq!(e.message, "too many positional arguments: expected at most 3, got 4");

    let e = plan_arguments(&params(), 0, &["zz".to_string()]).unwrap_err();
    assert_eq!(e.message, "unknown named argument 'zz'");

    let plan = plan_arguments(&params(), 1, &["a".to_string()]).unwrap();
    assert!(plan.sources.is_empty());
    assert_eq!(plan.error.unwrap().message, "argument 'a' supplied both positionally and by name");

    let plan = plan_arguments(&params(), 2, &[]).unwrap();
    assert_eq!(plan.sources.len(), 2);
    assert_eq!(plan.error.unwrap().message, "missing required argument 'c'");
}

#[test]
fn string_search_split_replace() {
    assert_eq!(strings::find("héllo", "ll"), Some(2));
    assert_eq!(strings::find("abc", ""), Some(0));
    assert_eq!(strings::find("abc", "x"), None);
    assert!(strings::contains("abc", "bc"));
    assert!(strings::starts_with("abc", "ab"));
    assert!(!strings::ends_with("abc", "ab"));
    assert_eq!(strings::split("a,b,,c", ","), vec!["a", "b", "", "c"]);
    assert_eq!(strings::split("abc", ""), vec!["", "a", "b", "c", ""]);
    assert_eq!(strings::split("", ","), vec![""]);
    assert_eq!(strings::replace("aXbXc", "X", "--"), "a--b--c");
    assert_eq!(strings::replace("ab", "", "-"), "-a-b-");
    assert_eq!(strings::replace_first("aXbXc", "X", "-"), "a-bXc");
}

#[test]
fn string_slice_pad_trim() {
    assert_eq!(strings::slice("hello", Some(1), Some(3)), "el");
    assert_eq!(strings::slice("hello", Some(-3), None), "llo");
    assert_eq!(strings::slice("hello", Some(4), Some(1)), "ell");
    assert_eq!(strings::slice("hello", Some(-10), Some(99)), "hello");
    assert_eq!(strings::resolve_index(-2, 5), 3);
    assert_eq!(strings::apply_pad("7", 3, '0', true), "007");
    assert_eq!(strings::apply_pad("ab", 4, '.', false), "ab..");
    assert_eq!(strings::apply_pad("long", 2, '.', false), "long");
    assert_eq!(strings::trim_str("\t a b \n"), "a b");
    assert_eq!(strings::trim_start_str("  a "), "a ");
    assert_eq!(strings::trim_end_str("  a "), "  a");
    assert_eq!(strings::reverse("abé"), "éba");
    assert_eq!(strings::repeat_str("ab", 3), "ababab");
    assert_eq!(strings::char_at("héllo", 1), Some('é'));
    assert_eq!(strings::char_at("a", 1), None);
}

#[test]
fn json_strings_and_offsets() {
    assert_eq!(strings::json_escape_string("a\"b\\c\n\u{1}"), "\"a\\\"b\\\\c\\n\\u0001\"");
    assert_eq!(strings::byte_to_char("héllo", 3), 2);
}

#[test]
fn json_layouts() {
    let keys = vec![TableKey::Integer(1), TableKey::Integer(0)];
    match json_layout(&keys) {
        JsonLayout::Array(order) => assert_eq!(order, vec![1, 0]),
        _ => panic!("expected array"),
    }
    let keys = vec![TableKey::Integer(1), TableKey::String("x".to_string()), TableKey::Boolean(true)];
    match json_layout(&keys) {
        JsonLayout::Object(names) => assert_eq!(names, vec!["1", "x", "true"]),
        _ => panic!("expected object"),
    }
    match json_layout(&[]) {
        JsonLayout::Object(names) => assert!(names.is_empty()),
        _ => panic!("expected object"),
    }
    assert_eq!(key_name(&TableKey::Integer(-42)), "-42");
    assert_eq!(key_name(&TableKey::Integer(i64::MIN)), "-9223372036854775808");
}

#[test]
fn user_paths_resolve_to_absolute_module_files() {
    let project = Project::new("/p/main.ri".to_string());
    assert_eq!(ModuleKind::resolve("@/lib/util", &project, "/w"), ModuleKind::UserPath("/p/lib/util.ri".to_string()));
    assert_eq!(ModuleKind::resolve("/x/y.txt", &project, "/w"), ModuleKind::UserPath("/x/y.txt".to_string()));
    assert_eq!(ModuleKind::resolve("@core/json", &project, "/w"), ModuleKind::Core("json".to_string()));
}

#[test]
fn module_kinds() {
    assert_eq!(ModuleKind::from("@core/string"), ModuleKind::Core("string".to_string()));
    assert_eq!(ModuleKind::from("@std/iter"), ModuleKind::Std("iter".to_string()));
    assert_eq!(ModuleKind::from("lib/util"), ModuleKind::UserPath("lib/util".to_string()));
    let project = Project::with_includes(vec![("@/".to_string(), "/proj".to_string())], "/proj/main.ri".to_string());
    let (i, rest) = project.match_include("@/lib/x").unwrap();
    assert_eq!((i, rest.as_str()), (0, "lib/x"));
    assert_eq!(ModuleKind::resolve("@/lib/x", &project, "/cwd"), ModuleKind::UserPath("/proj/lib/x.ri".to_string()));
    assert_eq!(ModuleKind::resolve("@std/iter", &project, "/cwd"), ModuleKind::Std("iter".to_string()));
    assert_eq!(ModuleKind::resolve("lib/y", &project, "/cwd"), ModuleKind::UserPath("/cwd/lib/y.ri".to_string()));
    assert_eq!(ModuleKind::resolve_user_path("@/data.txt", &project, "/cwd"), "/proj/data.txt");
    let p = Project::new("/a/b/main.ri".to_string());
    assert_eq!(p.entrypoint(), "/a/b/main.ri");
    assert_eq!(p.includes()[0], ("@/".to_string(), "/a/b".to_string()));
}

#[test]
fn module_errors() {
    let e = module_not_found(&ModuleKind::Core("nope".to_string())).unwrap();
    assert_eq!(e.message, "core library module not found: nope");
    let e = module_not_found(&ModuleKind::Std("nope".to_string())).unwrap();
    assert_eq!(e.message, "standard library module not found: nope");
    assert!(module_not_found(&ModuleKind::UserPath("x".to_string())).is_none());
    let le = LangError::runtime_error("boom".to_string(), "msg".to_string(), vec![]);
    assert_eq!(module_failure(&le), ("boom".to_string(), "msg".to_string()));
    let le = LangError::invalid_syntax("unexpected token", "m".to_string(), Span::internal());
    assert_eq!(module_failure(&le), ("parse error".to_string(), "invalid syntax: unexpected token (m)".to_string()));
    assert_eq!(risc::module::module_source_name(&ModuleKind::Std("x".to_string())).unwrap(), "@std/x");
    assert_eq!(risc::module::module_unreadable("p", "no such file").message, "cannot read module 'p': no such file");
    assert_eq!(risc::module::loop_control_error(true).message, "control is a break");
}

#[test]
fn cli_modes() {
    let cli = Cli { file: Some("a.ri".to_string()), project: Some(".".to_string()), expr: None, args: vec!["x".to_string()] };
    let (mode, args) = cli.resolve_mode();
    assert!(matches!(mode, Mode::File(f) if f == "a.ri"));
    assert_eq!(args, vec!["x"]);
    let cli = Cli { file: None, project: Some(".".to_string()), expr: Some("1".to_string()), args: vec![] };
    assert!(matches!(cli.resolve_mode().0, Mode::Project { path, entrypoint: None } if path == "."));
    let cli = Cli { file: None, project: None, expr: Some("1".to_string()), args: vec![] };
    assert!(matches!(cli.resolve_mode().0, Mode::Expr(c) if c == "1"));
    let cli = Cli { file: None, project: None, expr: None, args: vec![] };
    assert!(matches!(cli.resolve_mode().0, Mode::Repl));
}

#[test]
fn repl_validation() {
    assert_eq!(validate("if x then"), Validation::Incomplete);
    assert_eq!(validate("if x then\n\n"), Validation::Complete);
    assert_eq!(validate("1 + 2"), Validation::Complete);
    assert_eq!(validate(")"), Validation::Complete);
    assert_eq!(validate("\"abc"), Validation::Complete);
    assert_eq!(validate(""), Validation::Complete);
    assert_eq!(validate("  # only a comment"), Validation::Complete);
    assert_eq!(validate("a = 1 +"), Validation::Incomplete);
    assert_eq!(validate("a = 1 + 2 b"), Validation::Complete);
    assert_eq!(validate("x |> f |>\n"), Validation::Incomplete);
}

#[test]
fn module_files_and_anchored_paths() {
    assert_eq!(module_file("lib/x", "/proj"), "/proj/lib/x.ri");
    assert_eq!(module_file("/abs/y.txt", "/proj"), "/abs/y.txt");
    assert_eq!(module_file("/abs/z", "/proj"), "/abs/z.ri");
    assert_eq!(anchor_path("/root", "main.ri"), "/root/main.ri");
    assert_eq!(anchor_path("/root", "/abs/main.ri"), "/abs/main.ri");
}

#[test]
fn strings_sort_by_codepoints() {
    let v: Vec<String> = ["b", "a", "é", "B", "", "ab"].iter().map(|s| s.to_string()).collect();
    assert_eq!(sort_strings(&v), vec!["", "B", "a", "ab", "b", "é"]);
}

#[test]
fn paths_join_in_turn() {
    let rest: Vec<String> = vec!["local".to_string(), "bin".to_string()];
    assert_eq!(risc::module::join_all("/usr", &rest), "/usr/local/bin");
    assert_eq!(risc::module::join_all("/usr", &["/etc".to_string()]), "/etc");
    assert_eq!(risc::module::join_all("a", &[]), "a");
    assert!(risc::module::is_absolute("/x"));
    assert!(!risc::module::is_absolute("x/y"));
}

#[test]
fn split_then_join_gives_the_string_back() {
    for (s, sep) in [("a,b,,c", ","), ("", ","), ("xyx", "x"), ("héllo wörld", "ö"), ("aaa", "aa")] {
        assert_eq!(strings::split(s, sep).join(sep), s);
    }
}

#[test]
fn padding_reaches_the_width() {
    for (s, w) in [("", 3), ("ab", 5), ("abcdef", 2), ("é", 1)] {
        let start = strings::apply_pad(s, w, '*', true);
        let end = strings::apply_pad(s, w, '*', false);
        let n = s.chars().count().max(w);
        assert_eq!(start.chars().count(), n);
        assert_eq!(end.chars().count(), n);
        assert!(start.ends_with(s));
        assert!(end.starts_with(s));
    }
}

#[test]
fn match_text_lies_between_its_offsets() {
    let re = risc::regex::compile("[éw]\\w+").ok().expect("compiles");
    let text = "héllo wörld";
    for m in risc::regex::find_all(&re, text) {
        let between: String = text.chars().skip(m.start).take(m.end - m.start).collect();
        assert_eq!(m.text, between);
    }
}

#[test]
fn integer_entries_in_key_order() {
    let keys = vec![
        TableKey::Integer(2),
        TableKey::String("x".to_string()),
        TableKey::Integer(-1),
        TableKey::Boolean(true),
        TableKey::Integer(0),
    ];
    assert_eq!(risc::value::integer_entries(&keys), vec![2, 4, 0]);
    assert!(risc::value::integer_entries(&[]).is_empty());
}

#[test]
fn misordered_lists_are_complete_input() {
    assert_eq!(validate("fn(a = 1, b) end"), Validation::Complete);
    assert_eq!(validate("f(.x = 1, 2)"), Validation::Complete);
    assert_eq!(validate("fn(a = 1,"), Validation::Incomplete);
}
