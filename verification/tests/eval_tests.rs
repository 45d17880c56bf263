//! The evaluator: the scenario programs, the primitive table, the poison
//! channel and the shape-keyed trace.

use zipvm::syntax::Expr;
use zipvm::editor::{Cursor, CursorShape};
use zipvm::value::Value;
use zipvm::eval::{VM, Trace, FileStore};
use zipvm::text::chars_of;

fn ident(s: &str) -> Expr {
    Expr::Ident(chars_of(s))
}

fn num(n: i64) -> Expr {
    Expr::NumLit(n)
}

fn strlit(s: &str) -> Expr {
    Expr::StrLit(chars_of(s))
}

fn run(prog: Vec<Expr>) -> VM {
    run_with(prog, FileStore::new()).0
}

fn run_with(prog: Vec<Expr>, files: FileStore) -> (VM, Trace) {
    let mut vm = VM::new();
    let mut trace = Trace::new();
    let mut fuel: usize = 1_000_000;
    let ok = vm.eval_cursor(&mut trace, &files, Cursor::initial(prog), &mut fuel);
    assert!(ok, "the step budget should cover every test program");
    (vm, trace)
}

fn tops(vm: &VM) -> Vec<Option<i64>> {
    vm.stack().iter().map(|v| v.as_i64()).collect()
}

fn string_of(v: &Value) -> String {
    v.as_string().expect("string value").into_iter().collect()
}

#[test]
fn adding_two_numbers() {
    let vm = run(vec![num(3), num(4), ident("+")]);
    assert_eq!(tops(&vm), vec![Some(7)]);
}

#[test]
fn replace_inside_a_string() {
    let vm = run(vec![strlit("ab"), strlit("b"), strlit("c"), ident("s")]);
    assert_eq!(vm.stack().len(), 1);
    assert_eq!(string_of(&vm.stack()[0]), "ac");
}

#[test]
fn inclusive_integer_range() {
    let vm = run(vec![num(1), num(5), ident("irange")]);
    let items = vm.stack()[0].as_list().unwrap();
    let nums: Vec<i64> = items.iter().map(|v| v.as_i64().unwrap()).collect();
    assert_eq!(nums, vec![1, 2, 3, 4, 5]);
}

#[test]
fn inclusive_character_range() {
    let vm = run(vec![strlit("ca"), ident("each"), ident("crange")]);
    let items = vm.stack()[0].as_list().unwrap();
    let ss: Vec<String> = items.iter().map(string_of).collect();
    assert_eq!(ss, vec!["a".to_string(), "b".to_string(), "c".to_string()]);
    let vm = run(vec![num(97), num(99), ident("crange")]);
    assert_eq!(vm.stack().len(), 3);
    assert!(matches!(vm.stack()[2], Value::Poison));
}

#[test]
fn dup_on_an_empty_stack_leaves_one_poison() {
    let vm = run(vec![ident("dup")]);
    assert_eq!(vm.stack().len(), 1);
    assert!(matches!(vm.stack()[0], Value::Poison));
}

#[test]
fn trace_records_each_mapped_element() {
    let (_, trace) = run_with(
        vec![num(3), ident("iota"), Expr::Quote(vec![ident("inc")]), ident("map")],
        FileStore::new(),
    );
    assert!(trace.len() > 0);
    let before = CursorShape::Quote(2, Box::new(CursorShape::Edge(0, 1)), 1);
    let snaps = trace.get(&before).expect("the position before the increment");
    assert_eq!(snaps.len(), 3);
    let seen: Vec<i64> = snaps.iter().map(|vm| vm.stack().last().unwrap().as_i64().unwrap()).collect();
    assert_eq!(seen, vec![0, 1, 2]);
    let after = CursorShape::Quote(2, Box::new(CursorShape::Edge(1, 0)), 1);
    let post = trace.get(&after).expect("the position after the increment");
    let seen_post: Vec<i64> =
        post.iter().map(|vm| vm.stack().last().unwrap().as_i64().unwrap()).collect();
    assert_eq!(seen_post, vec![1, 2, 3]);
}

#[test]
fn map_concatenates_child_stacks() {
    let vm = run(vec![
        num(3),
        ident("iota"),
        Expr::Quote(vec![ident("dup")]),
        ident("map"),
    ]);
    let items = vm.stack()[0].as_list().unwrap();
    let nums: Vec<i64> = items.iter().map(|v| v.as_i64().unwrap()).collect();
    assert_eq!(nums, vec![0, 0, 1, 1, 2, 2]);
}

#[test]
fn collect_gathers_a_quote_result() {
    let vm = run(vec![
        Expr::Quote(vec![num(1), num(2), ident("+")]),
        ident("collect"),
    ]);
    let items = vm.stack()[0].as_list().unwrap();
    let nums: Vec<i64> = items.iter().map(|v| v.as_i64().unwrap()).collect();
    assert_eq!(nums, vec![3]);
}

#[test]
fn under_hides_the_top_values() {
    let vm = run(vec![
        num(10),
        num(20),
        Expr::Quote(vec![num(5)]),
        num(1),
        ident("under"),
    ]);
    assert_eq!(tops(&vm), vec![Some(10), Some(5), Some(20)]);
}

#[test]
fn stack_shuffles() {
    let vm = run(vec![num(1), num(2), ident("flip")]);
    assert_eq!(tops(&vm), vec![Some(2), Some(1)]);
    let vm = run(vec![num(1), num(2), num(3), num(2), ident("copy")]);
    assert_eq!(tops(&vm), vec![Some(1), Some(2), Some(3), Some(1)]);
    let vm = run(vec![num(1), num(2), num(3), num(2), ident("move")]);
    assert_eq!(tops(&vm), vec![Some(2), Some(3), Some(1)]);
    let vm = run(vec![num(1), num(2), ident("del")]);
    assert_eq!(tops(&vm), vec![Some(1)]);
}

#[test]
fn substitute_when_equal() {
    let vm = run(vec![num(5), num(5), num(9), ident("sb")]);
    assert_eq!(tops(&vm), vec![Some(9)]);
    let vm = run(vec![num(4), num(5), num(9), ident("sb")]);
    assert_eq!(tops(&vm), vec![Some(4)]);
}

#[test]
fn arithmetic_and_comparisons() {
    let vm = run(vec![num(6), ident("inc")]);
    assert_eq!(tops(&vm), vec![Some(7)]);
    let vm = run(vec![num(6), num(7), ident("*")]);
    assert_eq!(tops(&vm), vec![Some(42)]);
    let vm = run(vec![num(-7), num(2), ident("/")]);
    assert_eq!(tops(&vm), vec![Some(-3)]);
    let vm = run(vec![num(3), num(3), ident("==")]);
    assert_eq!(tops(&vm), vec![Some(1)]);
    let vm = run(vec![num(3), num(4), ident("=<")]);
    assert_eq!(tops(&vm), vec![Some(1)]);
    let vm = run(vec![num(3), num(4), ident(">=")]);
    assert_eq!(tops(&vm), vec![Some(0)]);
    let vm = run(vec![num(1), num(0), ident("and")]);
    assert_eq!(tops(&vm), vec![Some(0)]);
    let vm = run(vec![num(1), num(0), ident("or")]);
    assert_eq!(tops(&vm), vec![Some(1)]);
}

#[test]
fn division_by_zero_is_poison() {
    let vm = run(vec![num(3), num(0), ident("/")]);
    assert_eq!(vm.stack().len(), 3);
    assert!(matches!(vm.stack()[2], Value::Poison));
}

#[test]
fn overflow_is_poison() {
    let vm = run(vec![num(i64::MAX), ident("inc")]);
    assert_eq!(vm.stack().len(), 2);
    assert!(matches!(vm.stack()[1], Value::Poison));
}

#[test]
fn unknown_identifier_is_poison() {
    let vm = run(vec![num(1), ident("no-such-rule")]);
    assert_eq!(tops(&vm), vec![Some(1), None]);
    assert!(matches!(vm.stack()[1], Value::Poison));
}

#[test]
fn wrong_operand_kind_restores_the_stack() {
    let vm = run(vec![strlit("x"), num(1), ident("+")]);
    assert_eq!(vm.stack().len(), 3);
    assert!(matches!(vm.stack()[2], Value::Poison));
    assert_eq!(vm.stack()[1].as_i64(), Some(1));
}

#[test]
fn string_literals_are_lists_of_characters() {
    let vm = run(vec![strlit("hi")]);
    let cs = vm.stack()[0].as_string().unwrap();
    assert_eq!(cs, vec!['h', 'i']);
}

#[test]
fn lines_split_drops_one_trailing_empty() {
    let vm = run(vec![strlit("a\nb\n"), ident("lines")]);
    let items = vm.stack()[0].as_list().unwrap();
    let ss: Vec<String> = items.iter().map(string_of).collect();
    assert_eq!(ss, vec!["a".to_string(), "b".to_string()]);
}

#[test]
fn words_split_on_separator_runs() {
    let vm = run(vec![strlit("one,,two three"), ident("words")]);
    let items = vm.stack()[0].as_list().unwrap();
    let ss: Vec<String> = items.iter().map(string_of).collect();
    assert_eq!(ss, vec!["one".to_string(), "two".to_string(), "three".to_string()]);
}

#[test]
fn parse_number_and_its_poison() {
    let vm = run(vec![strlit("-42"), ident("num")]);
    assert_eq!(tops(&vm), vec![Some(-42)]);
    let vm = run(vec![strlit("4x2"), ident("num")]);
    assert_eq!(vm.stack().len(), 1);
    assert!(matches!(vm.stack()[0], Value::Poison));
}

#[test]
fn list_splitting() {
    let vm = run(vec![num(5), ident("iota"), num(2), ident("splitat")]);
    let head = vm.stack()[1].as_list().unwrap();
    let tail = vm.stack()[0].as_list().unwrap();
    let h: Vec<i64> = head.iter().map(|v| v.as_i64().unwrap()).collect();
    let t: Vec<i64> = tail.iter().map(|v| v.as_i64().unwrap()).collect();
    assert_eq!(t, vec![2, 3, 4]);
    assert_eq!(h, vec![0, 1]);
    let vm = run(vec![num(5), ident("iota"), num(-2), ident("take")]);
    let kept = vm.stack()[0].as_list().unwrap();
    let k: Vec<i64> = kept.iter().map(|v| v.as_i64().unwrap()).collect();
    assert_eq!(k, vec![0, 1, 2]);
}

#[test]
fn split_on_a_separator_value() {
    let vm = run(vec![
        num(1),
        num(0),
        num(2),
        num(3),
        ident("del"),
        num(3),
        ident("iota"),
        ident("del"),
        num(4),
        ident("del"),
    ]);
    assert_eq!(vm.stack().len(), 3);
    let vm = run(vec![num(5), ident("iota"), num(2), ident("split")]);
    let pieces = vm.stack()[0].as_list().unwrap();
    assert_eq!(pieces.len(), 2);
    let a: Vec<i64> = pieces[0].as_list().unwrap().iter().map(|v| v.as_i64().unwrap()).collect();
    let b: Vec<i64> = pieces[1].as_list().unwrap().iter().map(|v| v.as_i64().unwrap()).collect();
    assert_eq!(a, vec![0, 1]);
    assert_eq!(b, vec![3, 4]);
}

#[test]
fn indexed_chunks_and_frames() {
    let vm = run(vec![num(3), ident("iota"), ident("indexed")]);
    let items = vm.stack()[0].as_list().unwrap();
    let pair: Vec<i64> = items[1].as_list().unwrap().iter().map(|v| v.as_i64().unwrap()).collect();
    assert_eq!(pair, vec![1, 1]);
    let vm = run(vec![num(5), ident("iota"), num(2), ident("chunks")]);
    let items = vm.stack()[0].as_list().unwrap();
    assert_eq!(items.len(), 3);
    let last: Vec<i64> = items[2].as_list().unwrap().iter().map(|v| v.as_i64().unwrap()).collect();
    assert_eq!(last, vec![4]);
    let vm = run(vec![num(5), ident("iota"), num(2), ident("frames")]);
    let items = vm.stack()[0].as_list().unwrap();
    assert_eq!(items.len(), 3);
    let w: Vec<i64> = items[1].as_list().unwrap().iter().map(|v| v.as_i64().unwrap()).collect();
    assert_eq!(w, vec![1, 2]);
}

#[test]
fn folds_and_sorting() {
    let vm = run(vec![num(5), ident("iota"), ident("len")]);
    assert_eq!(tops(&vm), vec![Some(5)]);
    let vm = run(vec![num(5), ident("iota"), ident("sum")]);
    assert_eq!(tops(&vm), vec![Some(10)]);
    let vm = run(vec![num(5), ident("iota"), ident("max")]);
    assert_eq!(tops(&vm), vec![Some(4)]);
    let vm = run(vec![num(4), ident("iota"), ident("rsort")]);
    let items = vm.stack()[0].as_list().unwrap();
    let nums: Vec<i64> = items.iter().map(|v| v.as_i64().unwrap()).collect();
    assert_eq!(nums, vec![3, 2, 1, 0]);
    let vm = run(vec![num(0), ident("iota"), ident("max")]);
    assert_eq!(tops(&vm), vec![Some(i64::MIN)]);
}

#[test]
fn append_each_and_find() {
    let vm = run(vec![num(2), ident("iota"), num(2), ident("iota"), ident("append")]);
    let items = vm.stack()[0].as_list().unwrap();
    assert_eq!(items.len(), 4);
    let vm = run(vec![num(3), ident("iota"), ident("each")]);
    assert_eq!(tops(&vm), vec![Some(2), Some(1), Some(0)]);
    let vm = run(vec![num(1), num(3), ident("iota"), ident("find")]);
    assert_eq!(tops(&vm), vec![Some(1)]);
    let vm = run(vec![num(9), num(3), ident("iota"), ident("find")]);
    assert!(matches!(vm.stack()[0], Value::Poison));
}

#[test]
fn sets_through_the_machine() {
    let vm = run(vec![
        num(3),
        ident("iota"),
        num(3),
        ident("iota"),
        ident("append"),
        ident("set"),
        ident("nub"),
    ]);
    let items = vm.stack()[0].as_list().unwrap();
    let nums: Vec<i64> = items.iter().map(|v| v.as_i64().unwrap()).collect();
    assert_eq!(nums, vec![0, 1, 2]);
    let vm = run(vec![
        num(2),
        ident("iota"),
        ident("set"),
        num(3),
        ident("iota"),
        ident("set"),
        ident("join"),
        ident("nub"),
    ]);
    let items = vm.stack()[0].as_list().unwrap();
    let nums: Vec<i64> = items.iter().map(|v| v.as_i64().unwrap()).collect();
    assert_eq!(nums, vec![0, 1]);
    let vm = run(vec![
        num(2),
        ident("iota"),
        ident("set"),
        num(3),
        ident("iota"),
        ident("set"),
        ident("union"),
        ident("nub"),
    ]);
    let items = vm.stack()[0].as_list().unwrap();
    let nums: Vec<i64> = items.iter().map(|v| v.as_i64().unwrap()).collect();
    assert_eq!(nums, vec![0, 1, 2]);
}

#[test]
fn reading_a_preloaded_file() {
    let mut files = FileStore::new();
    files.add(chars_of("notes.txt"), chars_of("hello"));
    let (vm, _) = run_with(vec![strlit("notes.txt"), ident("read")], files);
    assert_eq!(string_of(&vm.stack()[0]), "hello");
    let (vm, _) = run_with(vec![strlit("missing.txt"), ident("read")], FileStore::new());
    assert_eq!(vm.stack().len(), 2);
    assert!(matches!(vm.stack()[1], Value::Poison));
}

#[test]
fn quotes_stay_unevaluated_until_invoked() {
    let vm = run(vec![Expr::Quote(vec![num(1)])]);
    assert_eq!(vm.stack().len(), 1);
    assert!(vm.stack()[0].as_quote().is_some());
}

#[test]
fn out_of_fuel_reports_failure() {
    let mut vm = VM::new();
    let mut trace = Trace::new();
    let files = FileStore::new();
    let mut fuel: usize = 1;
    let ok = vm.eval_cursor(
        &mut trace,
        &files,
        Cursor::initial(vec![num(1), num(2), ident("+")]),
        &mut fuel,
    );
    assert!(!ok);
}
