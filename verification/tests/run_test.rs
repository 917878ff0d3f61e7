use maze_tui::builders::disjoint::DisjointSet;
use maze_tui::key::{num_colors, thread_color, thread_color_block, thread_color_code, BLOCK};
use maze_tui::maze::{MazeStyle, Offset};
use maze_tui::run::{err_string, set_arg, set_command_args, split_words, Dimension};
use maze_tui::tables::{
    match_builder, match_flag, match_modifier, match_solver, match_walls, search_table, str_equal,
    BuildHistoryType, FlagArg, HistoryRunner, ModificationHistoryType, SolveHistoryType, HISTORY_BUILDERS,
};

fn area(rows: i32, cols: i32) -> Dimension {
    Dimension { rows, cols, offset: Offset { add_rows: 0, add_cols: 0 } }
}

#[test]
fn split_words_drops_every_kind_of_space() {
    let words = split_words("  -b rdfs\t-s  bfs-hunt\n");
    assert_eq!(words, vec!["-b", "rdfs", "-s", "bfs-hunt"]);
    assert!(split_words("   ").is_empty());
    assert_eq!(split_words("one"), vec!["one"]);
}

#[test]
fn tables_find_their_entries() {
    assert!(match_builder("wilson-walls") == Some(BuildHistoryType::WilsonAdder));
    assert!(match_builder("rdfs") == Some(BuildHistoryType::RecursiveBacktracker));
    assert!(match_builder("nope").is_none());
    assert!(match_solver("runs") == Some(SolveHistoryType::Runs));
    assert!(match_modifier("x") == Some(ModificationHistoryType::X));
    assert!(match_walls("round") == Some(MazeStyle::Round));
    assert_eq!(match_flag("-sa"), Some("-sa"));
    assert!(match_flag("-q").is_none());
    assert!(search_table("grid", &HISTORY_BUILDERS) == Some(BuildHistoryType::Grid));
    assert!(str_equal("abc", "abc"));
    assert!(!str_equal("abc", "abd"));
}

#[test]
fn set_arg_applies_a_known_argument() {
    let mut run = HistoryRunner::new();
    assert!(set_arg(&mut run, &FlagArg { flag: "-b", arg: "prim" }).is_ok());
    assert!(run.build == BuildHistoryType::Prim);
    assert!(set_arg(&mut run, &FlagArg { flag: "-w", arg: "bold" }).is_ok());
    assert!(run.args.style == MazeStyle::Bold);
}

#[test]
fn set_arg_refuses_an_unknown_argument_and_keeps_the_run() {
    let mut run = HistoryRunner::new();
    let r = set_arg(&mut run, &FlagArg { flag: "-b", arg: "maze" });
    assert_eq!(r, Err("invalid flag[-b] arg[maze] combo".to_string()));
    assert!(run.build == BuildHistoryType::RecursiveBacktracker);
    assert_eq!(err_string(&FlagArg { flag: "-s", arg: "x" }), "invalid flag[-s] arg[x] combo");
}

#[test]
fn command_args_set_builder_solver_and_style() {
    let run = set_command_args("-b kruskal -s bfs-corner -w round -m cross", area(21, 41), area(31, 61)).ok().unwrap();
    assert!(run.build == BuildHistoryType::Kruskal);
    assert!(run.solve == SolveHistoryType::BfsCorner);
    assert!(run.args.style == MazeStyle::Round);
    assert!(run.modify == Some(ModificationHistoryType::Cross));
    assert_eq!(run.args.odd_rows, 21);
    assert_eq!(run.args.odd_cols, 41);
}

#[test]
fn command_args_refuse_an_unknown_flag() {
    let r = set_command_args("-q rdfs", area(21, 41), area(31, 61));
    assert!(r.is_err());
}

#[test]
fn empty_command_gives_a_random_run_of_the_random_area() {
    let run = set_command_args("", area(21, 41), area(31, 61)).ok().unwrap();
    let rows = if run.args.style == MazeStyle::Mini { 62 } else { 31 };
    assert_eq!(run.args.odd_rows, rows);
    assert_eq!(run.args.odd_cols, 61);
}

#[test]
fn key_colors_follow_the_table() {
    assert_eq!(num_colors(), 16);
    assert_eq!(thread_color_block(0), ' ');
    assert_eq!(thread_color_block(5), BLOCK);
    assert_eq!(thread_color_code(8), 183);
    let t = thread_color(15);
    assert_eq!(t.ansi, 231);
    assert_eq!(t.block, BLOCK);
}

#[test]
fn disjoint_sets_join_once() {
    let mut s = DisjointSet::new(5);
    assert_eq!(s.len(), 5);
    assert!(s.made_union(0, 1));
    assert!(s.made_union(1, 2));
    assert!(!s.made_union(0, 2));
    assert!(s.made_union(3, 4));
    assert!(s.made_union(4, 0));
    assert!(!s.made_union(2, 3));
}

#[test]
fn animation_speed_flags_take_a_speed() {
    let run = set_command_args("-b rdfs -ba 4", area(21, 41), area(31, 61)).ok().unwrap();
    assert!(run.build == BuildHistoryType::RecursiveBacktracker);
    assert_eq!((run.args.odd_rows, run.args.odd_cols), (21, 41));
    assert_eq!((run.build_speed, run.solve_speed), (4, 4));
    let run = set_command_args("-sa 7 -ba 1 -s bfs-hunt", area(21, 41), area(31, 61)).ok().unwrap();
    assert_eq!((run.build_speed, run.solve_speed), (1, 7));
    let r = set_command_args("-ba 9", area(21, 41), area(31, 61));
    assert_eq!(r.err().unwrap(), "invalid flag[-ba] arg[9] combo");
    let r = set_command_args("-sa", area(21, 41), area(31, 61));
    assert!(r.err().unwrap().starts_with("flag[-sa] with missing arg[?]"));
}
