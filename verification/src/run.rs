use vstd::prelude::*;
use vstd::string::{StrSliceExecFns, StringExecFns};
use crate::maze::{MazeStyle, Offset};
use crate::rng::{choose_one, random_ratio};
use crate::tables::{
    first_match, search_table, spec_search, str_equal, FlagArg, HistoryRunner, FLAGS, HISTORY_BUILDERS,
    HISTORY_MODIFICATIONS, HISTORY_SOLVERS, SPEEDS, WALL_STYLES,
};

verus! {

pub const VALID_FLAGS: &'static str = "VALID FLAGS:[-b][-ba][-s][-sa][-w][-m]";

pub const VALID_ARGS: [(&'static str, &'static str); 6] = [
    ("-b", "see BUILDER FLAG section"),
    ("-m", "see MODIFICATION FLAG section"),
    ("-w", "see WALL FLAG section"),
    ("-s", "see SOLVER FLAG section"),
    ("-sa", "see SOLVER ANIMATION section"),
    ("-ba", "see BUILDER ANIMATION section"),
];

/// A request to leave the program.
pub struct Quit {
    pub q: bool,
}

impl Quit {
    pub fn new() -> (r: Quit)
        ensures
            !r.q,
    {
        Quit { q: false }
    }
}

/// The size and position of the area a maze is drawn in.
#[derive(Clone, Copy, Debug)]
pub struct Dimension {
    pub rows: i32,
    pub cols: i32,
    pub offset: Offset,
}

/// The characters `char::is_whitespace` accepts: the Unicode White_Space set.
pub open spec fn is_space(c: char) -> bool {
    let u = c as u32;
    ||| 0x09 <= u <= 0x0D
    ||| u == 0x20
    ||| u == 0x85
    ||| u == 0xA0
    ||| u == 0x1680
    ||| 0x2000 <= u <= 0x200A
    ||| u == 0x2028
    ||| u == 0x2029
    ||| u == 0x202F
    ||| u == 0x205F
    ||| u == 0x3000
}

pub fn is_whitespace(c: char) -> (b: bool)
    ensures
        b == is_space(c),
{
    let u = c as u32;
    (0x09 <= u && u <= 0x0D) || u == 0x20 || u == 0x85 || u == 0xA0 || u == 0x1680 || (0x2000 <= u
        && u <= 0x200A) || u == 0x2028 || u == 0x2029 || u == 0x202F || u == 0x205F || u == 0x3000
}

/// The words of `s` from position `i` on, where `start` is the position the
/// word being read began at, or -1 between words.
pub open spec fn words_from(s: Seq<char>, i: int, start: int) -> Seq<Seq<char>>
    decreases s.len() - i,
{
    if i >= s.len() {
        if start >= 0 {
            seq![s.subrange(start, s.len() as int)]
        } else {
            seq![]
        }
    } else if is_space(s[i]) {
        if start >= 0 {
            seq![s.subrange(start, i)] + words_from(s, i + 1, -1)
        } else {
            words_from(s, i + 1, -1)
        }
    } else {
        words_from(s, i + 1, if start >= 0 { start } else { i })
    }
}

/// The maximal runs of characters that are not white space, in order: what
/// `str::split_whitespace` yields.
pub open spec fn spec_words(s: Seq<char>) -> Seq<Seq<char>> {
    words_from(s, 0, -1)
}

/// Splits `s` into its words.
pub fn split_words(s: &str) -> (words: Vec<&str>)
    ensures
        words@.len() == spec_words(s@).len(),
        forall|k: int| 0 <= k < words@.len() ==> #[trigger] words@[k]@ == spec_words(s@)[k],
{
    let n = s.unicode_len();
    let mut words: Vec<&str> = Vec::new();
    let mut i: usize = 0;
    let mut in_word = false;
    let mut start: usize = 0;
    let ghost mut seen: Seq<Seq<char>> = seq![];
    while i < n
        invariant
            n == s@.len(),
            i <= n,
            start <= i,
            words@.len() == seen.len(),
            forall|k: int| 0 <= k < words@.len() ==> #[trigger] words@[k]@ == seen[k],
            seen + words_from(s@, i as int, if in_word { start as int } else { -1 }) == spec_words(s@),
        decreases n - i,
    {
        let c = s.get_char(i);
        if is_whitespace(c) {
            if in_word {
                let w = s.substring_char(start, i);
                words.push(w);
                proof {
                    let ws = words_from(s@, i + 1, -1);
                    assert(seen + (seq![s@.subrange(start as int, i as int)] + ws) =~= seen.push(
                        s@.subrange(start as int, i as int),
                    ) + ws);
                    seen = seen.push(s@.subrange(start as int, i as int));
                }
                in_word = false;
            }
        } else {
            if !in_word {
                start = i;
                in_word = true;
            }
        }
        i = i + 1;
    }
    if in_word {
        let w = s.substring_char(start, n);
        words.push(w);
        proof {
            assert(seen + seq![s@.subrange(start as int, n as int)] =~= seen.push(
                s@.subrange(start as int, n as int),
            ));
            seen = seen.push(s@.subrange(start as int, n as int));
        }
    } else {
        assert(seen + seq![] =~= seen);
    }
    words
}

/// The message for a flag and argument that do not go together.
pub open spec fn err_text(flag: Seq<char>, arg: Seq<char>) -> Seq<char> {
    "invalid flag["@ + flag + "] arg["@ + arg + "] combo"@
}

pub fn err_string(args: &FlagArg) -> (s: String)
    ensures
        s@ == err_text(args.flag@, args.arg@),
{
    let mut s = String::from_str("invalid flag[");
    s.append(args.flag);
    s.append("] arg[");
    s.append(args.arg);
    s.append("] combo");
    s
}

/// The run after applying the argument `arg` to the flag `flag`.
pub open spec fn spec_set_arg(run: HistoryRunner, flag: Seq<char>, arg: Seq<char>) -> Result<HistoryRunner, Seq<char>> {
    if flag == "-b"@ {
        match spec_search(arg, HISTORY_BUILDERS@) {
            Some(b) => Ok(HistoryRunner { build: b, ..run }),
            None => Err(err_text(flag, arg)),
        }
    } else if flag == "-m"@ {
        match spec_search(arg, HISTORY_MODIFICATIONS@) {
            Some(m) => Ok(HistoryRunner { modify: Some(m), ..run }),
            None => Err(err_text(flag, arg)),
        }
    } else if flag == "-s"@ {
        match spec_search(arg, HISTORY_SOLVERS@) {
            Some(s) => Ok(HistoryRunner { solve: s, ..run }),
            None => Err(err_text(flag, arg)),
        }
    } else if flag == "-w"@ {
        match spec_search(arg, WALL_STYLES@) {
            Some(w) => Ok(HistoryRunner { args: crate::maze::MazeArgs { style: w, ..run.args }, ..run }),
            None => Err(err_text(flag, arg)),
        }
    } else if flag == "-ba"@ {
        match spec_search(arg, SPEEDS@) {
            Some(v) => Ok(HistoryRunner { build_speed: v, ..run }),
            None => Err(err_text(flag, arg)),
        }
    } else if flag == "-sa"@ {
        match spec_search(arg, SPEEDS@) {
            Some(v) => Ok(HistoryRunner { solve_speed: v, ..run }),
            None => Err(err_text(flag, arg)),
        }
    } else {
        Err(err_text(flag, arg))
    }
}

/// Applies one argument to its flag; an unknown combination is an error and
/// leaves the run as it was.
pub fn set_arg(run: &mut HistoryRunner, args: &FlagArg) -> (r: Result<(), String>)
    ensures
        match spec_set_arg(*old(run), args.flag@, args.arg@) {
            Ok(new_run) => r is Ok && *final(run) == new_run,
            Err(msg) => r matches Err(s) && s@ == msg && *final(run) == *old(run),
        },
{
    if str_equal(args.flag, "-b") {
        match search_table(args.arg, &HISTORY_BUILDERS) {
            Some(b) => {
                run.build = b;
                Ok(())
            },
            None => Err(err_string(args)),
        }
    } else if str_equal(args.flag, "-m") {
        match search_table(args.arg, &HISTORY_MODIFICATIONS) {
            Some(m) => {
                run.modify = Some(m);
                Ok(())
            },
            None => Err(err_string(args)),
        }
    } else if str_equal(args.flag, "-s") {
        match search_table(args.arg, &HISTORY_SOLVERS) {
            Some(s) => {
                run.solve = s;
                Ok(())
            },
            None => Err(err_string(args)),
        }
    } else if str_equal(args.flag, "-w") {
        match search_table(args.arg, &WALL_STYLES) {
            Some(w) => {
                run.args.style = w;
                Ok(())
            },
            None => Err(err_string(args)),
        }
    } else if str_equal(args.flag, "-ba") {
        match search_table(args.arg, &SPEEDS) {
            Some(v) => {
                run.build_speed = v;
                Ok(())
            },
            None => Err(err_string(args)),
        }
    } else if str_equal(args.flag, "-sa") {
        match search_table(args.arg, &SPEEDS) {
            Some(v) => {
                run.solve_speed = v;
                Ok(())
            },
            None => Err(err_string(args)),
        }
    } else {
        Err(err_string(args))
    }
}

/// The help line for a flag of `VALID_ARGS`.
pub fn get_arg_section(flag: &str) -> (s: &'static str)
    requires
        spec_search(flag@, VALID_ARGS@) is Some,
    ensures
        Some(s) == spec_search(flag@, VALID_ARGS@),
{
    match search_table(flag, &VALID_ARGS) {
        Some(s) => s,
        None => vstd::pervasive::unreached(),
    }
}


pub open spec fn unknown_flag_text(word: Seq<char>) -> Seq<char> {
    "unknown flag["@ + word + "].\n"@ + VALID_FLAGS@ + "\npress any key to continue"@
}

pub open spec fn missing_arg_text(flag: Seq<char>, section: Seq<char>) -> Seq<char> {
    "flag["@ + flag + "] with missing arg[?]\n"@ + section + "\npress any key to continue"@
}

/// A run for the mini style draws two rows per square, so it asks for twice the rows.
pub open spec fn finished(run: HistoryRunner) -> HistoryRunner {
    if run.args.style == MazeStyle::Mini {
        HistoryRunner { args: crate::maze::MazeArgs { odd_rows: (run.args.odd_rows * 2) as i32, ..run.args }, ..run }
    } else {
        run
    }
}

/// The help section of a flag of `FLAGS`.
pub open spec fn section_of(flag: Seq<char>) -> Seq<char> {
    match spec_search(flag, VALID_ARGS@) {
        Some(s) => s@,
        None => Seq::empty(),
    }
}

/// Reading the words from position `i` on, with `pending` the flag that waits
/// for its argument: each flag of `FLAGS` is followed by its argument, which
/// `spec_set_arg` applies; the first error ends the reading.
pub open spec fn parse_words(
    words: Seq<Seq<char>>,
    i: int,
    run: HistoryRunner,
    pending: Option<Seq<char>>,
) -> Result<HistoryRunner, Seq<char>>
    decreases words.len() - i,
{
    if i >= words.len() {
        match pending {
            Some(f) => Err(missing_arg_text(f, section_of(f))),
            None => Ok(finished(run)),
        }
    } else {
        match pending {
            Some(f) => match spec_set_arg(run, f, words[i]) {
                Ok(next) => parse_words(words, i + 1, next, None),
                Err(e) => Err(e),
            },
            None => match spec_search(words[i], FLAGS@) {
                Some(flag) => parse_words(words, i + 1, run, Some(flag@)),
                None => Err(unknown_flag_text(words[i])),
            },
        }
    }
}

/// The run a command starts from: the default run sized to the area given.
pub open spec fn base_run(dimensions: Dimension) -> HistoryRunner {
    HistoryRunner {
        args: crate::maze::MazeArgs {
            odd_rows: dimensions.rows,
            odd_cols: dimensions.cols,
            offset: dimensions.offset,
            style: MazeStyle::Sharp,
        },
        build: crate::tables::BuildHistoryType::RecursiveBacktracker,
        modify: None,
        solve: crate::tables::SolveHistoryType::DfsHunt,
        build_speed: 4,
        solve_speed: 4,
    }
}

proof fn lemma_flag_sections(flag: Seq<char>)
    requires
        spec_search(flag, FLAGS@) is Some,
    ensures
        spec_search(spec_search(flag, FLAGS@).unwrap()@, VALID_ARGS@) is Some,
{
    let i = lemma_first_match_range(flag, FLAGS@);
    let name = FLAGS@[i].1@;
    let j: int = if i == 2 { 3 } else if i == 3 { 2 } else { i };
    assert(VALID_ARGS@[j].0@ == name);
    lemma_first_match_some(name, VALID_ARGS@, j);
}

/// The first entry of a table named like its entry `j` exists.
pub proof fn lemma_first_match_some<T>(arg: Seq<char>, table: Seq<(&str, T)>, j: int)
    requires
        0 <= j < table.len(),
        table[j].0@ == arg,
    ensures
        first_match(arg, table) is Some,
    decreases j,
{
    if j > 0 && table[0].0@ != arg {
        lemma_first_match_some(arg, table.drop_first(), j - 1);
    }
}

/// A match is a position of the table, and the entry there has the name.
pub proof fn lemma_first_match_range<T>(arg: Seq<char>, table: Seq<(&str, T)>) -> (i: int)
    requires
        first_match(arg, table) is Some,
    ensures
        first_match(arg, table) == Some(i),
        0 <= i < table.len(),
        table[i].0@ == arg,
    decreases table.len(),
{
    if table[0].0@ == arg {
        0
    } else {
        let k = lemma_first_match_range(arg, table.drop_first());
        k + 1
    }
}

/// Reading words never changes the size of a run, but a run that ends in
/// the mini style, which draws two rows per square, asks for twice the rows.
pub proof fn lemma_parse_rows(words: Seq<Seq<char>>, i: int, run: HistoryRunner, pending: Option<Seq<char>>)
    requires
        -0x4000_0000 <= run.args.odd_rows < 0x4000_0000,
    ensures
        parse_words(words, i, run, pending) matches Ok(done) ==> {
            &&& done.args.odd_rows == (if done.args.style == MazeStyle::Mini {
                2 * run.args.odd_rows
            } else {
                run.args.odd_rows as int
            })
            &&& done.args.odd_cols == run.args.odd_cols
            &&& done.args.offset == run.args.offset
        },
    decreases words.len() - i,
{
    if i < words.len() {
        match pending {
            Some(f) => match spec_set_arg(run, f, words[i]) {
                Ok(next) => lemma_parse_rows(words, i + 1, next, None),
                Err(e) => {},
            },
            None => match spec_search(words[i], FLAGS@) {
                Some(flag) => lemma_parse_rows(words, i + 1, run, Some(flag@)),
                None => {},
            },
        }
    }
}

/// Reads a command of flags and arguments into a run sized to `dimensions`;
/// an empty command asks for a random run sized to `random_area`.
pub fn set_command_args(cmd: &str, dimensions: Dimension, random_area: Dimension) -> (r: Result<HistoryRunner, String>)
    requires
        -0x4000_0000 <= dimensions.rows < 0x4000_0000,
        -0x4000_0000 <= random_area.rows < 0x4000_0000,
    ensures
        cmd@.len() == 0 ==> (r matches Ok(run) && random_run(run, random_area)),
        cmd@.len() != 0 ==> match parse_words(spec_words(cmd@), 0, base_run(dimensions), None) {
            Ok(run) => r == Ok::<HistoryRunner, String>(run),
            Err(msg) => r matches Err(s) && s@ == msg,
        },
        r matches Ok(run) ==> run.args.odd_rows == (if run.args.style == MazeStyle::Mini {
            2 * (if cmd@.len() == 0 { random_area.rows } else { dimensions.rows })
        } else {
            (if cmd@.len() == 0 { random_area.rows } else { dimensions.rows }) as int
        }),
        r matches Ok(run) ==> run.args.odd_cols == (if cmd@.len() == 0 { random_area.cols } else { dimensions.cols }),
        r matches Ok(run) ==> run.args.offset == (if cmd@.len() == 0 { random_area.offset } else { dimensions.offset }),
{
    if cmd.unicode_len() == 0 {
        assert(cmd@.len() == 0);
        return Ok(set_random_args(random_area));
    }
    let mut run = HistoryRunner::new();
    run.args.odd_rows = dimensions.rows;
    run.args.odd_cols = dimensions.cols;
    run.args.offset = dimensions.offset;
    let words = split_words(cmd);
    let ghost ws = spec_words(cmd@);
    let mut prev_flag: &str = "";
    let mut process_current = false;
    let mut i: usize = 0;
    assert(run == base_run(dimensions));
    while i < words.len()
        invariant
            words@.len() == ws.len(),
            forall|k: int| 0 <= k < words@.len() ==> #[trigger] words@[k]@ == ws[k],
            i <= words@.len(),
            -0x4000_0000 <= run.args.odd_rows < 0x4000_0000,
            run.args.odd_rows == dimensions.rows,
            run.args.odd_cols == dimensions.cols,
            run.args.offset == dimensions.offset,
            parse_words(ws, i as int, run, if process_current { Some(prev_flag@) } else { None })
                == parse_words(ws, 0, base_run(dimensions), None),
            process_current ==> spec_search(prev_flag@, VALID_ARGS@) is Some,
            cmd@.len() != 0,
            ws == spec_words(cmd@),
        decreases words@.len() - i,
    {
        let a = words[i];
        if process_current {
            let flag_arg = FlagArg { flag: prev_flag, arg: a };
            let outcome = set_arg(&mut run, &flag_arg);
            match outcome {
                Err(msg) => {
                    return Err(msg);
                },
                Ok(_) => {},
            }
            process_current = false;
            i = i + 1;
            continue;
        }
        match search_table(a, &FLAGS) {
            Some(flag) => {
                proof { lemma_flag_sections(a@); }
                process_current = true;
                prev_flag = flag;
            },
            None => {
                let mut msg = String::from_str("unknown flag[");
                msg.append(a);
                msg.append("].\n");
                msg.append(VALID_FLAGS);
                msg.append("\npress any key to continue");
                return Err(msg);
            },
        }
        i = i + 1;
    }
    if process_current {
        let mut msg = String::from_str("flag[");
        msg.append(prev_flag);
        msg.append("] with missing arg[?]\n");
        msg.append(get_arg_section(prev_flag));
        msg.append("\npress any key to continue");
        return Err(msg);
    }
    if run.args.style == MazeStyle::Mini {
        run.args.odd_rows = run.args.odd_rows * 2;
    }
    Ok(run)
}

/// A run drawn at random for the area: every choice comes from its table, and
/// the mini style asks for twice the rows.
pub open spec fn random_run(run: HistoryRunner, area: Dimension) -> bool {
    &&& exists|i: int| 0 <= i < WALL_STYLES@.len() && WALL_STYLES@[i].1 == run.args.style
    &&& exists|i: int| 0 <= i < HISTORY_BUILDERS@.len() && HISTORY_BUILDERS@[i].1 == run.build
    &&& exists|i: int| 0 <= i < HISTORY_SOLVERS@.len() && HISTORY_SOLVERS@[i].1 == run.solve
    &&& run.modify matches Some(m) ==> exists|i: int|
        0 <= i < HISTORY_MODIFICATIONS@.len() && HISTORY_MODIFICATIONS@[i].1 == m
    &&& run.args.odd_cols == area.cols
    &&& run.args.offset == area.offset
    &&& run.args.odd_rows == (if run.args.style == MazeStyle::Mini { 2 * area.rows } else { area.rows as int })
    &&& run.build_speed == 4
    &&& run.solve_speed == 4
}

/// A random run for the area; a modification is added one time in five.
pub fn set_random_args(area: Dimension) -> (run: HistoryRunner)
    requires
        -0x4000_0000 <= area.rows < 0x4000_0000,
    ensures
        random_run(run, area),
{
    let mut run = HistoryRunner::new();
    run.args.odd_rows = area.rows;
    run.args.odd_cols = area.cols;
    run.args.offset = area.offset;
    let styles = WALL_STYLES;
    run.args.style = match choose_one(&styles) {
        Some(entry) => {
            proof {
                let k = choose|k: int| 0 <= k < styles@.len() && styles@[k] == entry;
                assert(styles@[k].1 == entry.1);
            }
            entry.1
        },
        None => vstd::pervasive::unreached(),
    };
    let builders = HISTORY_BUILDERS;
    run.build = match choose_one(&builders) {
        Some(entry) => {
            proof {
                let k = choose|k: int| 0 <= k < builders@.len() && builders@[k] == entry;
                assert(builders@[k].1 == entry.1);
            }
            entry.1
        },
        None => vstd::pervasive::unreached(),
    };
    let solvers = HISTORY_SOLVERS;
    run.solve = match choose_one(&solvers) {
        Some(entry) => {
            proof {
                let k = choose|k: int| 0 <= k < solvers@.len() && solvers@[k] == entry;
                assert(solvers@[k].1 == entry.1);
            }
            entry.1
        },
        None => vstd::pervasive::unreached(),
    };
    run.modify = None;
    if random_ratio(1, 5) {
        let mods = HISTORY_MODIFICATIONS;
        run.modify = match choose_one(&mods) {
            Some(entry) => {
                proof {
                    let k = choose|k: int| 0 <= k < mods@.len() && mods@[k] == entry;
                    assert(mods@[k].1 == entry.1);
                }
                Some(entry.1)
            },
            None => vstd::pervasive::unreached(),
        };
    }
    if run.args.style == MazeStyle::Mini {
        run.args.odd_rows = run.args.odd_rows * 2;
    }
    run
}

} // verus!
