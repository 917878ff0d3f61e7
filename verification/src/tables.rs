use vstd::prelude::*;
use vstd::string::StrSliceExecFns;
use crate::maze::{MazeArgs, MazeStyle, Offset};
use crate::rng::choose_one;

verus! {

/// A flag of the command line and the argument that follows it.
pub struct FlagArg<'a, 'b> {
    pub flag: &'a str,
    pub arg: &'b str,
}

#[derive(Clone, Copy, PartialEq, Eq, Structural)]
pub enum ViewingMode {
    StaticImage,
    AnimatedPlayback,
}

#[derive(Clone, Copy, PartialEq, Eq, Structural)]
pub enum BuildHistoryType {
    Arena,
    RecursiveBacktracker,
    HuntKill,
    RecursiveSubdivision,
    Prim,
    Kruskal,
    Eller,
    WilsonCarver,
    WilsonAdder,
    Grid,
}

#[derive(Clone, Copy, PartialEq, Eq, Structural)]
pub enum SolveHistoryType {
    DfsHunt,
    DfsGather,
    DfsCorner,
    RdfsHunt,
    RdfsGather,
    RdfsCorner,
    BfsHunt,
    BfsGather,
    BfsCorner,
    FdfsHunt,
    FdfsGather,
    FdfsCorner,
    Distance,
    Runs,
}

#[derive(Clone, Copy, PartialEq, Eq, Structural)]
pub enum ModificationHistoryType {
    Cross,
    X,
}

/// What one run of the program builds, modifies and solves.
#[derive(Clone, Copy)]
pub struct HistoryRunner {
    pub args: MazeArgs,
    pub build: BuildHistoryType,
    pub modify: Option<ModificationHistoryType>,
    pub solve: SolveHistoryType,
    /// The animation speed of the build, from 1 (slowest) to 7.
    pub build_speed: u8,
    /// The animation speed of the solve, from 1 (slowest) to 7.
    pub solve_speed: u8,
}

/// The animation speeds the `-ba` and `-sa` flags take.
pub const SPEEDS: [(&'static str, u8); 7] = [
    ("1", 1),
    ("2", 2),
    ("3", 3),
    ("4", 4),
    ("5", 5),
    ("6", 6),
    ("7", 7),
];

pub const FLAGS: [(&'static str, &'static str); 6] = [
    ("-b", "-b"),
    ("-m", "-m"),
    ("-s", "-s"),
    ("-w", "-w"),
    ("-sa", "-sa"),
    ("-ba", "-ba"),
];

pub const WALL_STYLES: [(&'static str, MazeStyle); 8] = [
    ("mini", MazeStyle::Mini),
    ("sharp", MazeStyle::Sharp),
    ("round", MazeStyle::Round),
    ("doubles", MazeStyle::Doubles),
    ("bold", MazeStyle::Bold),
    ("contrast", MazeStyle::Contrast),
    ("half", MazeStyle::Half),
    ("spikes", MazeStyle::Spikes),
];

pub const HISTORY_BUILDERS: [(&'static str, BuildHistoryType); 10] = [
    ("arena", BuildHistoryType::Arena),
    ("rdfs", BuildHistoryType::RecursiveBacktracker),
    ("hunt-kill", BuildHistoryType::HuntKill),
    ("fractal", BuildHistoryType::RecursiveSubdivision),
    ("prim", BuildHistoryType::Prim),
    ("kruskal", BuildHistoryType::Kruskal),
    ("eller", BuildHistoryType::Eller),
    ("wilson", BuildHistoryType::WilsonCarver),
    ("wilson-walls", BuildHistoryType::WilsonAdder),
    ("grid", BuildHistoryType::Grid),
];

pub const HISTORY_MODIFICATIONS: [(&'static str, ModificationHistoryType); 2] = [
    ("cross", ModificationHistoryType::Cross),
    ("x", ModificationHistoryType::X),
];

pub const HISTORY_SOLVERS: [(&'static str, SolveHistoryType); 14] = [
    ("dfs-hunt", SolveHistoryType::DfsHunt),
    ("dfs-gather", SolveHistoryType::DfsGather),
    ("dfs-corner", SolveHistoryType::DfsCorner),
    ("rdfs-hunt", SolveHistoryType::RdfsHunt),
    ("rdfs-gather", SolveHistoryType::RdfsGather),
    ("rdfs-corner", SolveHistoryType::RdfsCorner),
    ("bfs-hunt", SolveHistoryType::BfsHunt),
    ("bfs-gather", SolveHistoryType::BfsGather),
    ("bfs-corner", SolveHistoryType::BfsCorner),
    ("floodfs-hunt", SolveHistoryType::FdfsHunt),
    ("floodfs-gather", SolveHistoryType::FdfsGather),
    ("floodfs-corner", SolveHistoryType::FdfsCorner),
    ("distance", SolveHistoryType::Distance),
    ("runs", SolveHistoryType::Runs),
];

pub const ALL_BUILDER_TYPES: [BuildHistoryType; 10] = [
    BuildHistoryType::Arena,
    BuildHistoryType::RecursiveBacktracker,
    BuildHistoryType::HuntKill,
    BuildHistoryType::RecursiveSubdivision,
    BuildHistoryType::Prim,
    BuildHistoryType::Kruskal,
    BuildHistoryType::Eller,
    BuildHistoryType::WilsonCarver,
    BuildHistoryType::WilsonAdder,
    BuildHistoryType::Grid,
];

pub const ALL_MODIFICATION_TYPES: [ModificationHistoryType; 2] = [
    ModificationHistoryType::Cross,
    ModificationHistoryType::X,
];

pub const ALL_SOLVER_TYPES: [SolveHistoryType; 14] = [
    SolveHistoryType::DfsHunt,
    SolveHistoryType::DfsGather,
    SolveHistoryType::DfsCorner,
    SolveHistoryType::RdfsHunt,
    SolveHistoryType::RdfsGather,
    SolveHistoryType::RdfsCorner,
    SolveHistoryType::BfsHunt,
    SolveHistoryType::BfsGather,
    SolveHistoryType::BfsCorner,
    SolveHistoryType::FdfsHunt,
    SolveHistoryType::FdfsGather,
    SolveHistoryType::FdfsCorner,
    SolveHistoryType::Distance,
    SolveHistoryType::Runs,
];

/// Two strings hold the same characters.
pub fn str_equal(a: &str, b: &str) -> (r: bool)
    ensures
        r == (a@ == b@),
{
    let n = a.unicode_len();
    let m = b.unicode_len();
    if n != m {
        return false;
    }
    let mut i: usize = 0;
    while i < n
        invariant
            n == a@.len(),
            m == b@.len(),
            n == m,
            i <= n,
            forall|j: int| 0 <= j < i ==> a@[j] == b@[j],
        decreases n - i,
    {
        if a.get_char(i) != b.get_char(i) {
            return false;
        }
        i = i + 1;
    }
    assert(a@ =~= b@);
    true
}

/// The position of the first entry of `table` whose name is `arg`, if any.
pub open spec fn first_match<T>(arg: Seq<char>, table: Seq<(&str, T)>) -> Option<int>
    decreases table.len(),
{
    if table.len() == 0 {
        None
    } else if table[0].0@ == arg {
        Some(0)
    } else {
        match first_match(arg, table.drop_first()) {
            Some(i) => Some(i + 1),
            None => None,
        }
    }
}

/// The value of the first entry of `table` named `arg`, if any.
pub open spec fn spec_search<T>(arg: Seq<char>, table: Seq<(&str, T)>) -> Option<T> {
    match first_match(arg, table) {
        Some(i) => Some(table[i].1),
        None => None,
    }
}

proof fn lemma_first_match_step<T>(arg: Seq<char>, table: Seq<(&str, T)>, i: int)
    requires
        0 <= i < table.len(),
        forall|j: int| 0 <= j < i ==> table[j].0@ != arg,
    ensures
        table[i].0@ == arg ==> first_match(arg, table) == Some(i),
    decreases i,
{
    if i > 0 {
        lemma_first_match_step(arg, table.drop_first(), i - 1);
    }
}

proof fn lemma_first_match_none<T>(arg: Seq<char>, table: Seq<(&str, T)>)
    ensures
        (forall|j: int| 0 <= j < table.len() ==> table[j].0@ != arg) ==> first_match(arg, table) is None,
    decreases table.len(),
{
    if table.len() > 0 {
        lemma_first_match_none(arg, table.drop_first());
    }
}

/// The value of the first entry of `table` named `arg`, if any.
pub fn search_table<T: Copy>(arg: &str, table: &[(&str, T)]) -> (r: Option<T>)
    ensures
        r == spec_search(arg@, table@),
{
    let mut i: usize = 0;
    while i < table.len()
        invariant
            i <= table@.len(),
            forall|j: int| 0 <= j < i ==> table@[j].0@ != arg@,
        decreases table@.len() - i,
    {
        let (name, value) = table[i];
        if str_equal(name, arg) {
            proof { lemma_first_match_step(arg@, table@, i as int); }
            return Some(value);
        }
        i = i + 1;
    }
    proof { lemma_first_match_none(arg@, table@); }
    None
}

pub fn match_flag(arg: &str) -> (r: Option<&'static str>)
    ensures
        r == spec_search(arg@, FLAGS@),
{
    search_table(arg, &FLAGS)
}

pub fn match_builder(arg: &str) -> (r: Option<BuildHistoryType>)
    ensures
        r == spec_search(arg@, HISTORY_BUILDERS@),
{
    search_table(arg, &HISTORY_BUILDERS)
}

pub fn match_modifier(arg: &str) -> (r: Option<ModificationHistoryType>)
    ensures
        r == spec_search(arg@, HISTORY_MODIFICATIONS@),
{
    search_table(arg, &HISTORY_MODIFICATIONS)
}

pub fn match_solver(arg: &str) -> (r: Option<SolveHistoryType>)
    ensures
        r == spec_search(arg@, HISTORY_SOLVERS@),
{
    search_table(arg, &HISTORY_SOLVERS)
}

pub fn match_walls(arg: &str) -> (r: Option<MazeStyle>)
    ensures
        r == spec_search(arg@, WALL_STYLES@),
{
    search_table(arg, &WALL_STYLES)
}


impl HistoryRunner {
    /// The default run: a 33 by 111 maze with sharp walls, built by the
    /// recursive backtracker, unmodified, solved by a depth-first hunt, both
    /// animated at speed 4.
    pub fn new() -> (r: HistoryRunner)
        ensures
            r.args.odd_rows == 33,
            r.args.odd_cols == 111,
            r.args.offset == (Offset { add_rows: 0, add_cols: 0 }),
            r.args.style == MazeStyle::Sharp,
            r.build == BuildHistoryType::RecursiveBacktracker,
            r.modify is None,
            r.solve == SolveHistoryType::DfsHunt,
            r.build_speed == 4,
            r.solve_speed == 4,
    {
        HistoryRunner {
            args: MazeArgs {
                odd_rows: 33,
                odd_cols: 111,
                offset: Offset { add_rows: 0, add_cols: 0 },
                style: MazeStyle::Sharp,
            },
            build: BuildHistoryType::RecursiveBacktracker,
            modify: None,
            solve: SolveHistoryType::DfsHunt,
            build_speed: 4,
            solve_speed: 4,
        }
    }
}

impl Default for HistoryRunner {
    fn default() -> (r: HistoryRunner)
        ensures
            r.args.odd_rows == 33,
            r.args.odd_cols == 111,
            r.args.style == MazeStyle::Sharp,
            r.build == BuildHistoryType::RecursiveBacktracker,
            r.modify is None,
            r.solve == SolveHistoryType::DfsHunt,
            r.build_speed == 4,
            r.solve_speed == 4,
    {
        HistoryRunner::new()
    }
}

impl BuildHistoryType {
    /// The position of the builder in the tables of builders.
    pub fn index(&self) -> (i: usize)
        ensures
            i < 10,
            ALL_BUILDER_TYPES@[i as int] == *self,
            HISTORY_BUILDERS@[i as int].1 == *self,
    {
        match self {
            BuildHistoryType::Arena => 0,
            BuildHistoryType::RecursiveBacktracker => 1,
            BuildHistoryType::HuntKill => 2,
            BuildHistoryType::RecursiveSubdivision => 3,
            BuildHistoryType::Prim => 4,
            BuildHistoryType::Kruskal => 5,
            BuildHistoryType::Eller => 6,
            BuildHistoryType::WilsonCarver => 7,
            BuildHistoryType::WilsonAdder => 8,
            BuildHistoryType::Grid => 9,
        }
    }

    /// One of the builders, drawn at random.
    pub fn get_random() -> (b: BuildHistoryType)
        ensures
            ALL_BUILDER_TYPES@.contains(b),
    {
        let all = ALL_BUILDER_TYPES;
        match choose_one(&all) {
            Some(b) => b,
            None => vstd::pervasive::unreached(),
        }
    }
}

impl SolveHistoryType {
    /// The position of the solver in the tables of solvers.
    pub fn index(&self) -> (i: usize)
        ensures
            i < 14,
            ALL_SOLVER_TYPES@[i as int] == *self,
            HISTORY_SOLVERS@[i as int].1 == *self,
    {
        match self {
            SolveHistoryType::DfsHunt => 0,
            SolveHistoryType::DfsGather => 1,
            SolveHistoryType::DfsCorner => 2,
            SolveHistoryType::RdfsHunt => 3,
            SolveHistoryType::RdfsGather => 4,
            SolveHistoryType::RdfsCorner => 5,
            SolveHistoryType::BfsHunt => 6,
            SolveHistoryType::BfsGather => 7,
            SolveHistoryType::BfsCorner => 8,
            SolveHistoryType::FdfsHunt => 9,
            SolveHistoryType::FdfsGather => 10,
            SolveHistoryType::FdfsCorner => 11,
            SolveHistoryType::Distance => 12,
            SolveHistoryType::Runs => 13,
        }
    }

    /// One of the solvers, drawn at random.
    pub fn get_random() -> (s: SolveHistoryType)
        ensures
            ALL_SOLVER_TYPES@.contains(s),
    {
        let all = ALL_SOLVER_TYPES;
        match choose_one(&all) {
            Some(s) => s,
            None => vstd::pervasive::unreached(),
        }
    }
}

impl ModificationHistoryType {
    /// The position of the modification in the tables of modifications.
    pub fn index(&self) -> (i: usize)
        ensures
            i < 2,
            ALL_MODIFICATION_TYPES@[i as int] == *self,
            HISTORY_MODIFICATIONS@[i as int].1 == *self,
    {
        match self {
            ModificationHistoryType::Cross => 0,
            ModificationHistoryType::X => 1,
        }
    }

    /// One of the modifications, drawn at random.
    pub fn get_random() -> (m: ModificationHistoryType)
        ensures
            ALL_MODIFICATION_TYPES@.contains(m),
    {
        let all = ALL_MODIFICATION_TYPES;
        match choose_one(&all) {
            Some(m) => m,
            None => vstd::pervasive::unreached(),
        }
    }
}

} // verus!
