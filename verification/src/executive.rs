//! The executive: takes the command line, sets the walker and the searcher up
//! from it, and runs the search.

use crate::cli_parser::{
    lemma_with_value_kept, lookup, parse_outcome, table_report, with_value, CliParser, ParseError,
    ParserModel, Table,
};
use crate::dir_nav::{initial, visited, DirNav, NavModel, WalkError};
use crate::display::{Display, DisplayModel};
use crate::text_search::{SearchModel, TextSearch};
use crate::tree::{Location, TreeView};
use crate::walk::{walk, Fault};
use vstd::prelude::*;

verus! {

/// Why a command line was not taken.
#[derive(Debug, Clone, Copy, PartialEq, Eq, Structural)]
pub enum ConfigError {
    /// The tokens could not be parsed.
    Parse(ParseError),
    /// `--help` is among the tokens: the usage is asked for, not a search.
    Help,
    /// `recurse` has not exactly one value.
    RecurseArity,
    /// The value of `recurse` is neither `true` nor `false`.
    RecurseValue,
    /// No command line has been taken yet.
    NotConfigured,
}

/// Why a search ended early.
#[derive(Debug, PartialEq, Eq)]
pub enum RunError {
    /// No command line has been taken yet.
    NotConfigured,
    /// What was handed in to be walked are not the paths of the command line.
    Roots,
    /// A walk failed.
    Walk(WalkError),
}

/// How the program is to be called.
pub const USAGE: &'static str =
    "Usage:\n\
--path `path/to/target/dir`, default `./`\n\
--pattern `search/file/patterns`, default `empty`\n\
--text `text to search`, default `\"\"` (lists all files)\n\
--recurse `search recursively in sub directories`, default `false`";

/// What [`ConfigError::RecurseArity`] says.
pub const RECURSE_ARITY_MESSAGE: &'static str =
    "`recurse` takes one argument, valid value is either `true` or `false`";

/// What [`ConfigError::RecurseValue`] says.
pub const RECURSE_VALUE_MESSAGE: &'static str =
    "valid value for `recurse` is either `true` or `false`";

/// What is said where no command line has been taken.
pub const NOT_CONFIGURED_MESSAGE: &'static str = "no command line has been parsed";

/// What [`RunError::Roots`] says.
pub const ROOTS_MESSAGE: &'static str = "the roots are not the paths of the command line";

impl ConfigError {
    /// What the error says.
    pub open spec fn text(self) -> Seq<char> {
        match self {
            ConfigError::Parse(error) => error.text(),
            ConfigError::Help => USAGE@,
            ConfigError::RecurseArity => RECURSE_ARITY_MESSAGE@,
            ConfigError::RecurseValue => RECURSE_VALUE_MESSAGE@,
            ConfigError::NotConfigured => NOT_CONFIGURED_MESSAGE@,
        }
    }

    /// What the error says.
    pub fn message(&self) -> (message: String)
        ensures
            message@ == self.text(),
    {
        match self {
            ConfigError::Parse(error) => error.message(),
            ConfigError::Help => USAGE.to_owned(),
            ConfigError::RecurseArity => RECURSE_ARITY_MESSAGE.to_owned(),
            ConfigError::RecurseValue => RECURSE_VALUE_MESSAGE.to_owned(),
            ConfigError::NotConfigured => NOT_CONFIGURED_MESSAGE.to_owned(),
        }
    }
}

/// The mathematical form of a [`RunError`].
pub enum RunFault {
    NotConfigured,
    Roots,
    Walk(Fault),
}

impl View for RunError {
    type V = RunFault;

    open spec fn view(&self) -> RunFault {
        match self {
            RunError::NotConfigured => RunFault::NotConfigured,
            RunError::Roots => RunFault::Roots,
            RunError::Walk(error) => RunFault::Walk(error@),
        }
    }
}

impl RunFault {
    /// What the error says.
    pub open spec fn text(self) -> Seq<char> {
        match self {
            RunFault::NotConfigured => NOT_CONFIGURED_MESSAGE@,
            RunFault::Roots => ROOTS_MESSAGE@,
            RunFault::Walk(fault) => fault.text(),
        }
    }
}

impl RunError {
    /// What the error says.
    pub fn message(&self) -> (message: String)
        ensures
            message@ == self@.text(),
    {
        match self {
            RunError::NotConfigured => NOT_CONFIGURED_MESSAGE.to_owned(),
            RunError::Roots => ROOTS_MESSAGE.to_owned(),
            RunError::Walk(error) => error.message(),
        }
    }
}

/// The mathematical form of a walker that searches and displays.
pub type FinderModel = NavModel<SearchModel<DisplayModel>>;

/// The mathematical form of an executive.
pub struct ExecutiveModel {
    /// The argument store.
    pub parser: ParserModel,
    /// The walker, with the searcher and the display.
    pub nav: FinderModel,
}

impl ExecutiveModel {
    /// An executive with an empty argument store and a new walker.
    pub open spec fn initial() -> ExecutiveModel {
        ExecutiveModel { parser: ParserModel::empty(), nav: initial::<TextSearch<Display>>() }
    }
}

/// The executive. It holds the argument store and the walker, whose observer
/// is the searcher, whose observer is the display.
pub struct Executive {
    cli_parser: CliParser,
    dir_nav: DirNav<TextSearch<Display>>,
}

impl View for Executive {
    type V = ExecutiveModel;

    closed spec fn view(&self) -> ExecutiveModel {
        ExecutiveModel { parser: self.cli_parser@, nav: self.dir_nav@ }
    }
}

/// `table` with `value` stored under `key`, unless the key has an entry.
pub open spec fn with_default(table: Table, key: Seq<char>, value: Seq<char>) -> Table {
    if lookup(table, key) is None {
        with_value(table, key, value)
    } else {
        table
    }
}

/// What taking the command line `args` comes to: the error, if it is refused,
/// and the argument store afterwards. The tokens are parsed; `--help` among
/// them ends it there; else `path` gets the value `./` and `recurse` the value
/// `false` where they have no entry, `recurse` must then have one value, `true`
/// or `false`, and at last `text` gets the empty value where it has no entry.
pub open spec fn configured(before: ParserModel, args: Seq<Seq<char>>) -> (
    Option<ConfigError>,
    ParserModel,
) {
    let loaded = ParserModel { params: args, parsed: false, ..before };
    match parse_outcome(loaded) {
        Err(error) => (Some(ConfigError::Parse(error)), loaded),
        Ok(parsed) => {
            if args.contains("--help"@) {
                (Some(ConfigError::Help), parsed)
            } else {
                let with_path = with_default(parsed.table, "path"@, "./"@);
                let with_recurse = with_default(with_path, "recurse"@, "false"@);
                let settled = ParserModel { table: with_recurse, ..parsed };
                let recurse = lookup(with_recurse, "recurse"@)->0;
                if recurse.len() != 1 {
                    (Some(ConfigError::RecurseArity), settled)
                } else if recurse[0] != "true"@ && recurse[0] != "false"@ {
                    (Some(ConfigError::RecurseValue), settled)
                } else {
                    (
                        None,
                        ParserModel { table: with_default(with_recurse, "text"@, ""@), ..parsed },
                    )
                }
            }
        },
    }
}

/// The walker as the argument store sets it up: each value of `pattern` is
/// added to the patterns, and sub-directories are walked if the first value
/// of `recurse` is `true`. `None` where `recurse` has no value.
pub open spec fn initialized(before: ExecutiveModel) -> Option<FinderModel> {
    match lookup(before.parser.table, "recurse"@) {
        Some(recurse) if recurse.len() > 0 => Some(
            NavModel {
                patterns: before.nav.patterns + match lookup(before.parser.table, "pattern"@) {
                    Some(patterns) => patterns,
                    None => Seq::empty(),
                },
                recurse: before.nav.recurse || recurse[0] == "true"@,
                ..before.nav
            },
        ),
        _ => None,
    }
}

/// The walker with `text` as the text that its searcher looks for.
pub open spec fn with_text(nav: FinderModel, text: Seq<char>) -> FinderModel {
    NavModel { app: SearchModel { text, ..nav.app }, ..nav }
}

/// The walker after it was sent to each of `roots` in turn, up to the first
/// walk that fails, and why that walk failed.
pub open spec fn sweep(before: FinderModel, roots: Seq<TreeView>) -> (FinderModel, Option<Fault>)
    decreases roots.len(),
{
    if roots.len() == 0 {
        (before, None)
    } else {
        let fault = walk(roots[0], before.patterns, before.recurse).fault;
        let after = visited::<TextSearch<Display>>(before, roots[0]);
        if fault is Some {
            (after, fault)
        } else {
            sweep(after, roots.drop_first())
        }
    }
}

/// The walker after, for each of `texts` in turn, the text was set and the
/// walker was sent to each of `roots`, up to the first walk that fails, and
/// why that walk failed.
pub open spec fn campaign(before: FinderModel, texts: Seq<Seq<char>>, roots: Seq<TreeView>) -> (
    FinderModel,
    Option<Fault>,
)
    decreases texts.len(),
{
    if texts.len() == 0 {
        (before, None)
    } else {
        let swept = sweep(with_text(before, texts[0]), roots);
        if swept.1 is Some {
            swept
        } else {
            campaign(swept.0, texts.drop_first(), roots)
        }
    }
}

/// Each of `roots` is what was found at the path of the same place in
/// `paths`.
pub open spec fn roots_match(paths: Seq<Seq<char>>, roots: Seq<TreeView>) -> bool {
    &&& paths.len() == roots.len()
    &&& forall|i: int| 0 <= i < roots.len() ==> (#[trigger] roots[i]).path == paths[i]
}

/// What a search comes to: the error, if it ends early, and the walker
/// afterwards. Nothing happens where `path` has no entry or `roots` are not
/// what was found at its values. Else each value of `text` is looked for under
/// each of `roots`.
pub open spec fn searched(before: ExecutiveModel, roots: Seq<TreeView>) -> (
    Option<RunFault>,
    FinderModel,
) {
    match lookup(before.parser.table, "path"@) {
        None => (Some(RunFault::NotConfigured), before.nav),
        Some(paths) => if !roots_match(paths, roots) {
            (Some(RunFault::Roots), before.nav)
        } else {
            let texts = match lookup(before.parser.table, "text"@) {
                Some(texts) => texts,
                None => Seq::empty(),
            };
            let run = campaign(before.nav, texts, roots);
            (
                match run.1 {
                    Some(fault) => Some(RunFault::Walk(fault)),
                    None => None,
                },
                run.0,
            )
        },
    }
}

/// Whether `--help` is among the tokens.
fn asks_help(args: &[String]) -> (answer: bool)
    ensures
        answer == args.deep_view().contains("--help"@),
{
    let help = "--help".to_owned();
    let mut at: usize = 0;
    while at < args.len()
        invariant
            at <= args.len(),
            help@ == "--help"@,
            forall|i: int| 0 <= i < at ==> #[trigger] args.deep_view()[i] != "--help"@,
        decreases args.len() - at,
    {
        if args[at] == help {
            assert(args.deep_view()[at as int] == "--help"@);
            return true;
        }
        at = at + 1;
    }
    false
}

/// Whether each of `roots` is what was found at the path of the same place in
/// `paths`.
fn roots_fit(paths: &Vec<String>, roots: &[Location]) -> (answer: bool)
    ensures
        answer == roots_match(paths.deep_view(), roots.deep_view()),
{
    if paths.len() != roots.len() {
        return false;
    }
    let mut at: usize = 0;
    while at < roots.len()
        invariant
            at <= roots.len(),
            paths.len() == roots.len(),
            forall|i: int|
                0 <= i < at ==> (#[trigger] roots.deep_view()[i]).path == paths.deep_view()[i],
        decreases roots.len() - at,
    {
        if roots[at].path != paths[at] {
            assert(roots.deep_view()[at as int].path != paths.deep_view()[at as int]);
            return false;
        }
        at = at + 1;
    }
    true
}

impl Executive {
    /// An executive with an empty argument store and a new walker.
    pub fn new() -> (executive: Executive)
        ensures
            executive@ == ExecutiveModel::initial(),
    {
        Executive { cli_parser: CliParser::new(), dir_nav: DirNav::<TextSearch<Display>>::new() }
    }

    /// Takes the command line `args`, the program's name first: parses it and
    /// fills in what it leaves open. The walker is not touched.
    pub fn parse_cla(&mut self, args: &[String]) -> (outcome: Result<(), ConfigError>)
        ensures
            final(self)@.nav == old(self)@.nav,
            final(self)@.parser == configured(old(self)@.parser, args.deep_view()).1,
            match configured(old(self)@.parser, args.deep_view()).0 {
                None => outcome is Ok,
                Some(error) => outcome == Err::<(), ConfigError>(error),
            },
    {
        self.cli_parser.set_params(args);
        match self.cli_parser.parse_params() {
            Err(error) => {
                return Err(ConfigError::Parse(error));
            },
            Ok(()) => {},
        }
        if asks_help(args) {
            return Err(ConfigError::Help);
        }
        if self.cli_parser.get_valuesvec_for_key("path").is_none() {
            self.cli_parser.store("path", "./");
        }
        if self.cli_parser.get_valuesvec_for_key("recurse").is_none() {
            proof {
                lemma_with_value_kept(self.cli_parser@.table, "recurse"@, "false"@);
            }
            self.cli_parser.store("recurse", "false");
        }
        let recurse = self.cli_parser.get_valuesvec_for_key("recurse").unwrap();
        if recurse.len() != 1 {
            return Err(ConfigError::RecurseArity);
        }
        if recurse[0] != "true".to_owned() && recurse[0] != "false".to_owned() {
            return Err(ConfigError::RecurseValue);
        }
        if self.cli_parser.get_valuesvec_for_key("text").is_none() {
            self.cli_parser.store("text", "");
        }
        Ok(())
    }

    /// Sets the walker up from the argument store: its patterns and whether
    /// it walks sub-directories. Where no command line has been taken,
    /// nothing changes.
    pub fn initialize_dir_nav(&mut self) -> (outcome: Result<(), ConfigError>)
        ensures
            final(self)@.parser == old(self)@.parser,
            match initialized(old(self)@) {
                Some(nav) => outcome is Ok && final(self)@.nav == nav,
                None => outcome == Err::<(), ConfigError>(ConfigError::NotConfigured)
                    && final(self)@.nav == old(self)@.nav,
            },
    {
        let recursive = match self.cli_parser.get_valuesvec_for_key("recurse") {
            None => {
                return Err(ConfigError::NotConfigured);
            },
            Some(recurse) => {
                if recurse.len() == 0 {
                    return Err(ConfigError::NotConfigured);
                }
                recurse[0] == "true".to_owned()
            },
        };
        let ghost before = self.dir_nav@;
        match self.cli_parser.get_valuesvec_for_key("pattern") {
            None => {},
            Some(patterns) => {
                let mut at: usize = 0;
                while at < patterns.len()
                    invariant
                        at <= patterns.len(),
                        self.cli_parser@ == old(self).cli_parser@,
                        self.dir_nav@ == (FinderModel {
                            patterns: before.patterns + patterns.deep_view().take(at as int),
                            ..before
                        }),
                    decreases patterns.len() - at,
                {
                    self.dir_nav.add_patterns(patterns[at].as_str());
                    assert((before.patterns + patterns.deep_view().take(at as int)).push(
                        patterns[at as int]@,
                    ) =~= before.patterns + patterns.deep_view().take(at + 1));
                    at = at + 1;
                }
                assert(patterns.deep_view().take(at as int) =~= patterns.deep_view());
            },
        }
        if recursive {
            self.dir_nav.set_recursive_search();
        }
        Ok(())
    }

    /// Runs the search. `roots` is what was found at each value of `path`, in
    /// their order. For each value of `text` in turn the text is set and the
    /// walker is sent to each of the roots. The first walk that fails ends the
    /// search. The argument store is not touched.
    pub fn start_text_finder(&mut self, roots: &[Location]) -> (outcome: Result<(), RunError>)
        ensures
            final(self)@.parser == old(self)@.parser,
            final(self)@.nav == searched(old(self)@, roots.deep_view()).1,
            match searched(old(self)@, roots.deep_view()).0 {
                None => outcome is Ok,
                Some(fault) => outcome is Err && outcome->Err_0@ == fault,
            },
    {
        match self.cli_parser.get_valuesvec_for_key("path") {
            None => {
                return Err(RunError::NotConfigured);
            },
            Some(paths) => {
                if !roots_fit(paths, roots) {
                    return Err(RunError::Roots);
                }
            },
        }
        let texts = match self.cli_parser.get_valuesvec_for_key("text") {
            None => {
                return Ok(());
            },
            Some(texts) => texts,
        };
        let ghost start = self@;
        let ghost trees = roots.deep_view();
        let ghost goal = campaign(start.nav, texts.deep_view(), trees);
        let mut at: usize = 0;
        assert(texts.deep_view().skip(0) =~= texts.deep_view());
        while at < texts.len()
            invariant
                at <= texts.len(),
                start == old(self)@,
                self.cli_parser@ == start.parser,
                lookup(start.parser.table, "path"@) is Some,
                roots_match(lookup(start.parser.table, "path"@)->0, trees),
                trees == roots.deep_view(),
                lookup(start.parser.table, "text"@) == Some(texts.deep_view()),
                goal == campaign(start.nav, texts.deep_view(), trees),
                campaign(self.dir_nav@, texts.deep_view().skip(at as int), trees) == goal,
            decreases texts.len() - at,
        {
            let ghost rest = texts.deep_view().skip(at as int);
            assert(rest.drop_first() =~= texts.deep_view().skip(at + 1));
            self.dir_nav.get_app().set_search_text(texts[at].as_str());
            let ghost swept = sweep(self.dir_nav@, trees);
            let mut root: usize = 0;
            assert(trees.skip(0) =~= trees);
            while root < roots.len()
                invariant
                    root <= roots.len(),
                    start == old(self)@,
                    self.cli_parser@ == start.parser,
                    lookup(start.parser.table, "path"@) is Some,
                    roots_match(lookup(start.parser.table, "path"@)->0, trees),
                    trees == roots.deep_view(),
                    lookup(start.parser.table, "text"@) == Some(texts.deep_view()),
                    goal == campaign(start.nav, texts.deep_view(), trees),
                    sweep(self.dir_nav@, trees.skip(root as int)) == swept,
                    swept.1 is Some ==> goal == swept,
                    swept.1 is None ==> goal == campaign(
                        swept.0,
                        texts.deep_view().skip(at + 1),
                        trees,
                    ),
                decreases roots.len() - root,
            {
                assert(trees.skip(root as int).drop_first() =~= trees.skip(root + 1));
                match self.dir_nav.visit(&roots[root]) {
                    Err(error) => {
                        return Err(RunError::Walk(error));
                    },
                    Ok(()) => {},
                }
                root = root + 1;
            }
            at = at + 1;
        }
        Ok(())
    }

    /// The values stored for `key` in the argument store.
    pub fn get_valuesvec_for_key(&self, key: &str) -> (values: Option<&Vec<String>>)
        ensures
            values.deep_view() == lookup(self@.parser.table, key@),
    {
        self.cli_parser.get_valuesvec_for_key(key)
    }

    /// The lines that show the argument store, each to be printed on a line
    /// of its own.
    pub fn display_parsed_params(&self) -> (lines: Vec<String>)
        ensures
            lines.deep_view() == table_report(self@.parser.table),
    {
        self.cli_parser.display_parsed_params()
    }

    /// The walker, to read and to change.
    pub fn get_dir_nav(&mut self) -> (nav: &mut DirNav<TextSearch<Display>>)
        ensures
            nav@ == old(self)@.nav,
            final(self)@ == (ExecutiveModel { nav: final(nav)@, ..old(self)@ }),
    {
        &mut self.dir_nav
    }
}

impl Default for Executive {
    /// A new executive.
    fn default() -> (executive: Self)
        ensures
            executive@ == ExecutiveModel::initial(),
    {
        Self::new()
    }
}

} // verus!
