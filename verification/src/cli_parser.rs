//! The argument store: command line tokens turned into a table from option
//! name to the values given for it.

use crate::text::{
    comes_before, debug_form, debug_text, lemma_precedes_irreflexive, lemma_precedes_total,
    lemma_precedes_transitive, lowercase, precedes, to_lowercase,
};
use vstd::prelude::*;

verus! {

/// The mathematical form of the table: its entries in the order in which their
/// keys first came, each a key with the values stored under it.
pub type Table = Seq<(Seq<char>, Seq<Seq<char>>)>;

/// The mathematical form of a parser.
pub struct ParserModel {
    /// The tokens that are to be parsed, or what parsing left of them.
    pub params: Seq<Seq<char>>,
    /// The table from option name to values.
    pub table: Table,
    /// Whether `params` have been parsed into `table`.
    pub parsed: bool,
}

impl ParserModel {
    /// A parser without tokens and with an empty table.
    pub open spec fn empty() -> ParserModel {
        ParserModel { params: Seq::empty(), table: Seq::empty(), parsed: false }
    }
}

/// The place of the entry for `key` in `table`; negative where it has none.
pub open spec fn slot(table: Table, key: Seq<char>) -> int
    decreases table.len(),
{
    if table.len() == 0 {
        -1
    } else if table.last().0 == key {
        table.len() - 1
    } else {
        slot(table.drop_last(), key)
    }
}

/// The values stored under `key`, if the table has an entry for it.
pub open spec fn lookup(table: Table, key: Seq<char>) -> Option<Seq<Seq<char>>> {
    if slot(table, key) >= 0 {
        Some(table[slot(table, key)].1)
    } else {
        None
    }
}

/// No key has two entries.
pub open spec fn distinct_keys(table: Table) -> bool {
    forall|i: int, j: int|
        0 <= i < j < table.len() ==> (#[trigger] table[i]).0 != (#[trigger] table[j]).0
}

/// The list is in strictly ascending order, so nothing occurs twice in it.
pub open spec fn ascending(list: Seq<Seq<char>>) -> bool {
    forall|i: int, j: int|
        0 <= i < j < list.len() ==> precedes(#[trigger] list[i], #[trigger] list[j])
}

/// What holds of every table that a parser keeps.
pub open spec fn sound(table: Table) -> bool {
    &&& distinct_keys(table)
    &&& forall|i: int| 0 <= i < table.len() ==> ascending(#[trigger] table[i].1)
}

/// How many members of `list` come before `value`.
pub open spec fn rank(list: Seq<Seq<char>>, value: Seq<char>) -> int
    decreases list.len(),
{
    if list.len() == 0 {
        0
    } else {
        rank(list.drop_last(), value) + if precedes(list.last(), value) {
            1int
        } else {
            0int
        }
    }
}

/// `list` with `value` put at its place in the order, unless it is there
/// already.
pub open spec fn place(list: Seq<Seq<char>>, value: Seq<char>) -> Seq<Seq<char>> {
    if list.contains(value) {
        list
    } else {
        list.insert(rank(list, value), value)
    }
}

/// `table` with an entry for `key`: a new one without values at the end,
/// unless it has one already.
pub open spec fn with_key(table: Table, key: Seq<char>) -> Table {
    if slot(table, key) >= 0 {
        table
    } else {
        table.push((key, Seq::empty()))
    }
}

/// `table` with `value` among the values of `key`.
pub open spec fn with_value(table: Table, key: Seq<char>, value: Seq<char>) -> Table {
    let touched = with_key(table, key);
    let at = slot(touched, key);
    touched.update(at, (key, place(touched[at].1, value)))
}

/// The token names an option: it begins with `--`.
pub open spec fn is_key(token: Seq<char>) -> bool {
    token.len() >= 2 && token[0] == '-' && token[1] == '-'
}

/// The token is no option name and yet begins with `-`, which no value may.
pub open spec fn is_reserved(token: Seq<char>) -> bool {
    !is_key(token) && token.len() >= 1 && token[0] == '-'
}

/// One of the tokens is a value that begins with `-`.
pub open spec fn has_reserved(tokens: Seq<Seq<char>>) -> bool {
    exists|i: int| 0 <= i < tokens.len() && is_reserved(#[trigger] tokens[i])
}

/// The key that an option token stands for: what follows `--`, in lower case.
pub open spec fn key_of(token: Seq<char>) -> Seq<char> {
    lowercase(token.skip(2))
}

/// The tokens that are parsed: all but the first one, which names the
/// program, and but the second one where that is no option name.
pub open spec fn trimmed(params: Seq<Seq<char>>) -> Seq<Seq<char>> {
    if is_key(params[1]) {
        params.skip(1)
    } else {
        params.skip(2)
    }
}

/// `table` after the tokens have gone into it, one after the other: an option
/// name gets an entry and becomes the key under which the values after it are
/// stored. `key` is the key in force before the first token.
pub open spec fn absorb(table: Table, key: Seq<char>, tokens: Seq<Seq<char>>) -> Table
    decreases tokens.len(),
{
    if tokens.len() == 0 {
        table
    } else if is_key(tokens[0]) {
        absorb(with_key(table, key_of(tokens[0])), key_of(tokens[0]), tokens.drop_first())
    } else {
        absorb(with_value(table, key, tokens[0]), key, tokens.drop_first())
    }
}

/// Why a command line could not be parsed.
#[derive(Debug, Clone, Copy, PartialEq, Eq, Structural)]
pub enum ParseError {
    /// Neither of the first two tokens after the program's name names an
    /// option.
    Format,
    /// A value begins with `-`.
    ReservedValue,
}

/// What [`ParseError::Format`] says.
pub const FORMAT_MESSAGE: &'static str = "Arguments should be in the format `--key` `value`";

/// What [`ParseError::ReservedValue`] says.
pub const RESERVED_MESSAGE: &'static str = "Value cannot begin with reserved char `-`";

impl ParseError {
    /// What the error says.
    pub open spec fn text(self) -> Seq<char> {
        match self {
            ParseError::Format => FORMAT_MESSAGE@,
            ParseError::ReservedValue => RESERVED_MESSAGE@,
        }
    }

    /// What the error says.
    pub fn message(&self) -> (message: String)
        ensures
            message@ == self.text(),
    {
        match self {
            ParseError::Format => FORMAT_MESSAGE.to_owned(),
            ParseError::ReservedValue => RESERVED_MESSAGE.to_owned(),
        }
    }
}

/// What parsing makes of a parser: nothing new where it has parsed already or
/// has fewer than three tokens, else the tokens trimmed and absorbed into the
/// table, unless they are refused.
pub open spec fn parse_outcome(before: ParserModel) -> Result<ParserModel, ParseError> {
    if before.parsed || before.params.len() < 3 {
        Ok(before)
    } else if !is_key(before.params[1]) && !is_key(before.params[2]) {
        Err(ParseError::Format)
    } else if has_reserved(trimmed(before.params)) {
        Err(ParseError::ReservedValue)
    } else {
        Ok(
            ParserModel {
                params: trimmed(before.params),
                table: absorb(before.table, lowercase(Seq::empty()), trimmed(before.params)),
                parsed: true,
            },
        )
    }
}

/// The line above a report.
pub const RULE_ABOVE: &'static str = "\n=============================";

/// The line below a report.
pub const RULE_BELOW: &'static str = "=============================\n";

/// What stands before the tokens in their report.
pub const PARAMS_LABEL: &'static str = "Command line arguments = ";

/// The line under which the table is shown.
pub const TABLE_TITLE: &'static str = "Parsed command line arguments : \n";

/// What stands between a key and its values.
pub const ENTRY_SIGN: &'static str = " = ";

/// The lines that show the tokens.
pub open spec fn params_report(params: Seq<Seq<char>>) -> Seq<Seq<char>> {
    seq![RULE_ABOVE@, PARAMS_LABEL@ + debug_text(params), RULE_BELOW@]
}

/// The line that shows one entry of the table.
pub open spec fn entry_line(entry: (Seq<char>, Seq<Seq<char>>)) -> Seq<char> {
    entry.0 + ENTRY_SIGN@ + debug_text(entry.1)
}

/// The lines that show the table.
pub open spec fn table_report(table: Table) -> Seq<Seq<char>> {
    seq![RULE_ABOVE@, TABLE_TITLE@] + Seq::new(table.len(), |i: int| entry_line(table[i]))
        + seq![RULE_BELOW@]
}

/// Where `slot` finds an entry, it is one for the key; where it finds none,
/// there is none.
pub proof fn lemma_slot(table: Table, key: Seq<char>)
    ensures
        slot(table, key) < table.len(),
        slot(table, key) >= 0 ==> table[slot(table, key)].0 == key,
        slot(table, key) < 0 ==> forall|i: int|
            0 <= i < table.len() ==> (#[trigger] table[i]).0 != key,
    decreases table.len(),
{
    if table.len() > 0 && table.last().0 != key {
        lemma_slot(table.drop_last(), key);
        assert forall|i: int| slot(table, key) < 0 && 0 <= i < table.len() implies (
        #[trigger] table[i]).0 != key by {
            if i < table.len() - 1 {
                assert(table.drop_last()[i] == table[i]);
            }
        }
    }
}

/// In a table without double keys, `slot` gives the one entry of a key.
proof fn lemma_slot_is(table: Table, key: Seq<char>, at: int)
    requires
        distinct_keys(table),
        0 <= at < table.len(),
        table[at].0 == key,
    ensures
        slot(table, key) == at,
{
    lemma_slot(table, key);
}

/// In an ascending list, the members that come before `value` are the first
/// `rank` ones.
proof fn lemma_rank_splits(list: Seq<Seq<char>>, value: Seq<char>)
    requires
        ascending(list),
    ensures
        0 <= rank(list, value) <= list.len(),
        forall|i: int| 0 <= i < rank(list, value) ==> precedes(#[trigger] list[i], value),
        forall|i: int| rank(list, value) <= i < list.len() ==> !precedes(#[trigger] list[i], value),
    decreases list.len(),
{
    if list.len() > 0 {
        let front = list.drop_last();
        assert(ascending(front)) by {
            assert forall|i: int, j: int| 0 <= i < j < front.len() implies precedes(
                #[trigger] front[i],
                #[trigger] front[j],
            ) by {}
        }
        lemma_rank_splits(front, value);
        if precedes(list.last(), value) {
            assert forall|i: int| 0 <= i < front.len() implies precedes(
                #[trigger] front[i],
                value,
            ) by {
                lemma_precedes_transitive(list[i], list.last(), value);
            }
        }
        assert forall|i: int| 0 <= i < rank(list, value) implies precedes(
            #[trigger] list[i],
            value,
        ) by {
            if i < front.len() {
                assert(front[i] == list[i]);
            }
        }
        assert forall|i: int| rank(list, value) <= i < list.len() implies !precedes(
            #[trigger] list[i],
            value,
        ) by {
            if i < front.len() {
                assert(front[i] == list[i]);
            }
        }
    }
}

/// The place that splits a list into what comes before `value` and what does
/// not is the rank of `value`.
proof fn lemma_rank_is(list: Seq<Seq<char>>, value: Seq<char>, at: int)
    requires
        0 <= at <= list.len(),
        forall|i: int| 0 <= i < at ==> precedes(#[trigger] list[i], value),
        forall|i: int| at <= i < list.len() ==> !precedes(#[trigger] list[i], value),
    ensures
        rank(list, value) == at,
    decreases list.len(),
{
    if list.len() > 0 {
        let front = list.drop_last();
        assert forall|i: int| 0 <= i < front.len() implies front[i] == list[i] by {}
        if at == list.len() {
            lemma_rank_is(front, value, at - 1);
        } else {
            lemma_rank_is(front, value, at);
        }
    }
}

/// Putting a value at its place keeps a list ascending.
pub proof fn lemma_place_ascending(list: Seq<Seq<char>>, value: Seq<char>)
    requires
        ascending(list),
    ensures
        ascending(place(list, value)),
{
    if !list.contains(value) {
        let at = rank(list, value);
        let placed = list.insert(at, value);
        lemma_rank_splits(list, value);
        assert forall|i: int, j: int| 0 <= i < j < placed.len() implies precedes(
            #[trigger] placed[i],
            #[trigger] placed[j],
        ) by {
            if i == at {
                lemma_precedes_total(value, list[j - 1]);
            }
        }
    }
}

/// Adding a value keeps a table sound.
pub proof fn lemma_with_value_sound(table: Table, key: Seq<char>, value: Seq<char>)
    requires
        sound(table),
    ensures
        sound(with_key(table, key)),
        sound(with_value(table, key, value)),
        slot(with_key(table, key), key) >= 0,
{
    lemma_slot(table, key);
    let touched = with_key(table, key);
    lemma_slot(touched, key);
    lemma_place_ascending(touched[slot(touched, key)].1, value);
    let added = with_value(table, key, value);
    assert forall|i: int, j: int| 0 <= i < j < added.len() implies (#[trigger] added[i]).0 != (
    #[trigger] added[j]).0 by {}
}

/// Storing a value under a key that has an entry makes no second entry, and
/// giving a key an entry first changes nothing of what is stored then.
pub proof fn lemma_with_value_kept(table: Table, key: Seq<char>, value: Seq<char>)
    ensures
        with_value(with_key(table, key), key, value) == with_value(table, key, value),
        slot(with_value(table, key, value), key) >= 0,
{
    lemma_slot(table, key);
    let touched = with_key(table, key);
    lemma_slot(touched, key);
    let stored = with_value(table, key, value);
    lemma_slot(stored, key);
    if slot(stored, key) < 0 {
        assert(stored[slot(touched, key)].0 == key);
    }
}

/// Storing a value changes no key of the table.
proof fn lemma_with_value_keys(table: Table, key: Seq<char>, value: Seq<char>, other: Seq<char>)
    ensures
        slot(with_value(table, key, value), other) == slot(with_key(table, key), other),
        other != key ==> slot(with_key(table, key), other) == slot(table, other),
{
    let touched = with_key(table, key);
    let stored = with_value(table, key, value);
    lemma_slot(touched, key);
    if slot(table, key) < 0 {
        assert(touched.drop_last() =~= table);
    }
    lemma_slot_of_keys(touched, stored, other);
}

/// Two tables with the same keys in the same places have the same place for
/// each key.
proof fn lemma_slot_of_keys(first: Table, second: Table, key: Seq<char>)
    requires
        first.len() == second.len(),
        forall|i: int| 0 <= i < first.len() ==> (#[trigger] first[i]).0 == second[i].0,
    ensures
        slot(first, key) == slot(second, key),
    decreases first.len(),
{
    if first.len() > 0 {
        assert forall|i: int| 0 <= i < first.drop_last().len() implies (
        #[trigger] first.drop_last()[i]).0 == second.drop_last()[i].0 by {}
        lemma_slot_of_keys(first.drop_last(), second.drop_last(), key);
    }
}

/// What is stored under a key is found under it, in order and once, beside
/// what was there before; what is stored under the other keys stays.
pub proof fn lemma_lookup_stored(table: Table, key: Seq<char>, value: Seq<char>, other: Seq<char>)
    ensures
        lookup(with_value(table, key, value), key) == Some(
            place(
                match lookup(table, key) {
                    Some(values) => values,
                    None => Seq::empty(),
                },
                value,
            ),
        ),
        other != key ==> lookup(with_value(table, key, value), other) == lookup(table, other),
{
    let touched = with_key(table, key);
    lemma_slot(table, key);
    lemma_slot(table, other);
    lemma_slot(touched, key);
    lemma_with_value_keys(table, key, value, key);
    lemma_with_value_keys(table, key, value, other);
}

/// A list with a value put at its place holds the value, what it held before,
/// and nothing else.
pub proof fn lemma_place_members(list: Seq<Seq<char>>, value: Seq<char>, other: Seq<char>)
    ensures
        place(list, value).contains(other) <==> list.contains(other) || other == value,
{
    if !list.contains(value) {
        let at = rank(list, value);
        lemma_rank_bounds(list, value);
        let placed = list.insert(at, value);
        assert(placed[at] == value);
        if list.contains(other) {
            let i = choose|i: int| 0 <= i < list.len() && list[i] == other;
            let to = if i < at {
                i
            } else {
                i + 1
            };
            assert(placed[to] == other);
        }
    }
}

/// The rank of a value is a place of the list, or its end.
proof fn lemma_rank_bounds(list: Seq<Seq<char>>, value: Seq<char>)
    ensures
        0 <= rank(list, value) <= list.len(),
    decreases list.len(),
{
    if list.len() > 0 {
        lemma_rank_bounds(list.drop_last(), value);
    }
}

/// Putting a value at its place a second time changes nothing.
pub proof fn lemma_place_once(list: Seq<Seq<char>>, value: Seq<char>)
    ensures
        place(place(list, value), value) == place(list, value),
{
    lemma_place_members(list, value, value);
}

/// In an ascending list nothing occurs twice.
pub proof fn lemma_ascending_distinct(list: Seq<Seq<char>>, i: int, j: int)
    requires
        ascending(list),
        0 <= i < j < list.len(),
    ensures
        list[i] != list[j],
{
    lemma_precedes_irreflexive(list[i]);
}

/// The store of a command line: the tokens as they were given, and the table
/// that parsing them fills.
pub struct CliParser {
    args_vec: Vec<String>,
    args_dict: Vec<(String, Vec<String>)>,
    has_parsed: bool,
}

impl View for CliParser {
    type V = ParserModel;

    closed spec fn view(&self) -> ParserModel {
        ParserModel {
            params: self.args_vec.deep_view(),
            table: self.args_dict.deep_view(),
            parsed: self.has_parsed,
        }
    }
}

/// Looks for the entry of `key`.
fn find_key(dict: &Vec<(String, Vec<String>)>, key: &str) -> (found: Option<usize>)
    requires
        distinct_keys(dict.deep_view()),
    ensures
        match found {
            Some(at) => at as int == slot(dict.deep_view(), key@),
            None => slot(dict.deep_view(), key@) < 0,
        },
{
    let wanted = key.to_owned();
    let mut at: usize = 0;
    while at < dict.len()
        invariant
            at <= dict.len(),
            wanted@ == key@,
            distinct_keys(dict.deep_view()),
            forall|i: int| 0 <= i < at ==> (#[trigger] dict.deep_view()[i]).0 != key@,
        decreases dict.len() - at,
    {
        if dict[at].0 == wanted {
            proof {
                lemma_slot_is(dict.deep_view(), key@, at as int);
            }
            return Some(at);
        }
        at = at + 1;
    }
    proof {
        lemma_slot(dict.deep_view(), key@);
    }
    None
}

/// Looks for `value` in an ascending list: `Ok` with its place where it is
/// there, `Err` with the place where it belongs where it is not.
fn find_place(list: &Vec<String>, value: &str) -> (found: Result<usize, usize>)
    requires
        ascending(list.deep_view()),
    ensures
        match found {
            Ok(at) => at < list.len() && list.deep_view()[at as int] == value@,
            Err(at) => at <= list.len() && !list.deep_view().contains(value@) && at as int
                == rank(list.deep_view(), value@),
        },
{
    let ghost texts = list.deep_view();
    let mut low: usize = 0;
    let mut high: usize = list.len();
    while low < high
        invariant
            low <= high <= list.len(),
            texts == list.deep_view(),
            ascending(texts),
            forall|i: int| 0 <= i < low ==> precedes(#[trigger] texts[i], value@),
            forall|i: int| high <= i < texts.len() ==> precedes(value@, #[trigger] texts[i]),
        decreases high - low,
    {
        let middle: usize = low + (high - low) / 2;
        if comes_before(list[middle].as_str(), value) {
            proof {
                assert forall|i: int| 0 <= i < middle + 1 implies precedes(
                    #[trigger] texts[i],
                    value@,
                ) by {
                    if i < middle {
                        lemma_precedes_transitive(texts[i], texts[middle as int], value@);
                    }
                }
            }
            low = middle + 1;
        } else if comes_before(value, list[middle].as_str()) {
            proof {
                assert forall|i: int| middle <= i < texts.len() implies precedes(
                    value@,
                    #[trigger] texts[i],
                ) by {
                    if i > middle {
                        lemma_precedes_transitive(value@, texts[middle as int], texts[i]);
                    }
                }
            }
            high = middle;
        } else {
            proof {
                lemma_precedes_total(texts[middle as int], value@);
            }
            return Ok(middle);
        }
    }
    proof {
        assert forall|i: int| 0 <= i < texts.len() implies texts[i] != value@ && (low <= i
            ==> !precedes(#[trigger] texts[i], value@)) by {
            lemma_precedes_irreflexive(value@);
            if low <= i && precedes(texts[i], value@) {
                lemma_precedes_transitive(value@, texts[i], value@);
            }
        }
        lemma_rank_is(texts, value@, low as int);
    }
    Err(low)
}

/// Whether the token names an option.
fn names_option(token: &str) -> (answer: bool)
    ensures
        answer == is_key(token@),
{
    let length: usize = token.unicode_len();
    length >= 2 && token.get_char(0) == '-' && token.get_char(1) == '-'
}

/// Whether the token is a value that begins with `-`.
fn begins_reserved(token: &str) -> (answer: bool)
    ensures
        answer == is_reserved(token@),
{
    let length: usize = token.unicode_len();
    !names_option(token) && length >= 1 && token.get_char(0) == '-'
}

/// The key that an option token stands for.
fn key_name(token: &str) -> (key: String)
    requires
        is_key(token@),
    ensures
        key@ == key_of(token@),
{
    let length: usize = token.unicode_len();
    let name = token.substring_char(2, length);
    to_lowercase(name)
}

impl CliParser {
    #[verifier::type_invariant]
    spec fn table_is_sound(self) -> bool {
        sound(self.args_dict.deep_view())
    }

    /// A parser without tokens and with an empty table.
    pub fn new() -> (parser: Self)
        ensures
            parser@ == ParserModel::empty(),
    {
        let parser = CliParser { args_vec: Vec::new(), args_dict: Vec::new(), has_parsed: false };
        assert(parser.args_vec.deep_view() =~= Seq::empty());
        assert(parser.args_dict.deep_view() =~= Seq::empty());
        parser
    }

    /// Puts `value` among the values of `key`, which has an entry, unless it
    /// is there already.
    fn insert_if_not_exist(dict: &mut Vec<(String, Vec<String>)>, key: &str, value: &str)
        requires
            sound(old(dict).deep_view()),
            slot(old(dict).deep_view(), key@) >= 0,
        ensures
            final(dict).deep_view() == with_value(old(dict).deep_view(), key@, value@),
            sound(final(dict).deep_view()),
    {
        let ghost before = dict.deep_view();
        proof {
            lemma_slot(before, key@);
            lemma_with_value_sound(before, key@, value@);
        }
        match find_key(dict, key) {
            Some(at) => {
                match find_place(&dict[at].1, value) {
                    Ok(_) => {},
                    Err(to) => {
                        dict[at].1.insert(to, value.to_owned());
                        assert(dict[at as int].1.deep_view() =~= before[at as int].1.insert(
                            to as int,
                            value@,
                        ));
                    },
                }
            },
            None => {},
        }
    }

    /// Gives `key` an entry without values, unless it has one.
    fn ensure_key(dict: &mut Vec<(String, Vec<String>)>, key: &str)
        requires
            sound(old(dict).deep_view()),
        ensures
            final(dict).deep_view() == with_key(old(dict).deep_view(), key@),
            sound(final(dict).deep_view()),
            slot(final(dict).deep_view(), key@) >= 0,
    {
        let ghost before = dict.deep_view();
        proof {
            lemma_with_value_sound(before, key@, key@);
        }
        if find_key(dict, key).is_none() {
            dict.push((key.to_owned(), Vec::new()));
            assert(dict.deep_view().last().1 =~= Seq::empty());
        }
    }

    /// Lets the tokens go into the table, one after the other.
    fn absorb_tokens(dict: &mut Vec<(String, Vec<String>)>, tokens: &Vec<String>)
        requires
            sound(old(dict).deep_view()),
            tokens.len() > 0 ==> is_key(tokens.deep_view()[0]),
        ensures
            final(dict).deep_view() == absorb(
                old(dict).deep_view(),
                lowercase(Seq::empty()),
                tokens.deep_view(),
            ),
            sound(final(dict).deep_view()),
    {
        let ghost goal = absorb(dict.deep_view(), lowercase(Seq::empty()), tokens.deep_view());
        let mut current = to_lowercase("");
        proof {
            reveal_strlit("");
            assert(tokens.deep_view().skip(0) =~= tokens.deep_view());
        }
        let mut at: usize = 0;
        while at < tokens.len()
            invariant
                at <= tokens.len(),
                sound(dict.deep_view()),
                tokens.len() > 0 ==> is_key(tokens.deep_view()[0]),
                at > 0 ==> slot(dict.deep_view(), current@) >= 0,
                absorb(dict.deep_view(), current@, tokens.deep_view().skip(at as int)) == goal,
            decreases tokens.len() - at,
        {
            let ghost rest = tokens.deep_view().skip(at as int);
            assert(rest.drop_first() =~= tokens.deep_view().skip(at + 1));
            let ghost prior = dict.deep_view();
            let token = tokens[at].as_str();
            if names_option(token) {
                current = key_name(token);
                Self::ensure_key(dict, current.as_str());
            } else {
                Self::insert_if_not_exist(dict, current.as_str(), token);
                proof {
                    lemma_with_value_kept(prior, current@, token@);
                }
            }
            at = at + 1;
        }
    }

    /// Takes `params` as the tokens that are to be parsed. The table stays.
    pub fn set_params(&mut self, params: &[String])
        ensures
            final(self)@ == (ParserModel {
                params: params.deep_view(),
                parsed: false,
                ..old(self)@
            }),
    {
        proof {
            use_type_invariant(&*self);
        }
        let mut copy: Vec<String> = Vec::new();
        let mut at: usize = 0;
        while at < params.len()
            invariant
                at <= params.len(),
                copy.len() == at,
                forall|i: int| 0 <= i < at ==> (#[trigger] copy[i])@ == params[i]@,
            decreases params.len() - at,
        {
            copy.push(params[at].clone());
            at = at + 1;
        }
        assert(copy.deep_view() =~= params.deep_view());
        self.args_vec = copy;
        self.has_parsed = false;
    }

    /// The tokens that are to be parsed, or what parsing left of them.
    pub fn get_params(&mut self) -> (params: &Vec<String>)
        ensures
            params.deep_view() == old(self)@.params,
            final(self)@ == old(self)@,
    {
        &self.args_vec
    }

    /// Parses the tokens into the table, once: an option token `--key` opens
    /// the key, and each value after it is stored under that key. Where the
    /// tokens are refused, nothing changes.
    pub fn parse_params(&mut self) -> (outcome: Result<(), ParseError>)
        ensures
            match parse_outcome(old(self)@) {
                Ok(after) => outcome is Ok && final(self)@ == after,
                Err(error) => outcome == Err::<(), ParseError>(error) && final(self)@ == old(self)@,
            },
    {
        proof {
            use_type_invariant(&*self);
        }
        if self.has_parsed || self.args_vec.len() < 3 {
            return Ok(());
        }
        let ghost before = self@;
        let first_names = names_option(self.args_vec[1].as_str());
        if !first_names && !names_option(self.args_vec[2].as_str()) {
            return Err(ParseError::Format);
        }
        let start: usize = if first_names { 1 } else { 2 };
        let mut at: usize = start;
        while at < self.args_vec.len()
            invariant
                start <= at <= self.args_vec.len(),
                self@ == before,
                before == old(self)@,
                !before.parsed && before.params.len() >= 3,
                is_key(before.params[1]) || is_key(before.params[2]),
                trimmed(before.params) == before.params.skip(start as int),
                forall|i: int|
                    0 <= i < at - start ==> !is_reserved(#[trigger] trimmed(before.params)[i]),
            decreases self.args_vec.len() - at,
        {
            if begins_reserved(self.args_vec[at].as_str()) {
                assert(is_reserved(trimmed(before.params)[at - start]));
                return Err(ParseError::ReservedValue);
            }
            at = at + 1;
        }
        let mut tokens: Vec<String> = Vec::new();
        std::mem::swap(&mut tokens, &mut self.args_vec);
        tokens.remove(0);
        if !first_names {
            tokens.remove(0);
        }
        assert(tokens.deep_view() =~= trimmed(before.params));
        let mut table: Vec<(String, Vec<String>)> = Vec::new();
        std::mem::swap(&mut table, &mut self.args_dict);
        Self::absorb_tokens(&mut table, &tokens);
        self.args_vec = tokens;
        self.args_dict = table;
        self.has_parsed = true;
        Ok(())
    }

    /// The table from option name to values, an entry for each key.
    pub fn get_parsed_params(&mut self) -> (table: &Vec<(String, Vec<String>)>)
        ensures
            table.deep_view() == old(self)@.table,
            sound(table.deep_view()),
            final(self)@ == old(self)@,
    {
        proof {
            use_type_invariant(&*self);
        }
        &self.args_dict
    }

    /// Gives `key`, as it is written, an entry without values, unless it has
    /// an entry.
    pub fn open_key(&mut self, key: &str)
        ensures
            final(self)@ == (ParserModel {
                table: with_key(old(self)@.table, key@),
                ..old(self)@
            }),
    {
        proof {
            use_type_invariant(&*self);
        }
        let mut table: Vec<(String, Vec<String>)> = Vec::new();
        std::mem::swap(&mut table, &mut self.args_dict);
        Self::ensure_key(&mut table, key);
        self.args_dict = table;
    }

    /// Stores `value` under `key` as it is written, unless it is there
    /// already. A key that has no entry yet gets one.
    pub fn store(&mut self, key: &str, value: &str)
        ensures
            final(self)@ == (ParserModel {
                table: with_value(old(self)@.table, key@, value@),
                ..old(self)@
            }),
    {
        proof {
            use_type_invariant(&*self);
        }
        let mut table: Vec<(String, Vec<String>)> = Vec::new();
        std::mem::swap(&mut table, &mut self.args_dict);
        Self::ensure_key(&mut table, key);
        Self::insert_if_not_exist(&mut table, key, value);
        proof {
            lemma_with_value_kept(old(self)@.table, key@, value@);
        }
        self.args_dict = table;
    }

    /// Stores `value` under `key` in lower case, unless it is there already.
    pub fn add_params_key_value(&mut self, key: &str, value: &str)
        ensures
            final(self)@ == (ParserModel {
                table: with_value(old(self)@.table, lowercase(key@), value@),
                ..old(self)@
            }),
    {
        let lower = to_lowercase(key);
        self.store(lower.as_str(), value);
    }

    /// The values stored under `key`, which is taken as it is written.
    pub fn get_valuesvec_for_key(&self, key: &str) -> (values: Option<&Vec<String>>)
        ensures
            values.deep_view() == lookup(self@.table, key@),
    {
        proof {
            use_type_invariant(self);
            lemma_slot(self@.table, key@);
        }
        match find_key(&self.args_dict, key) {
            Some(at) => Some(&self.args_dict[at].1),
            None => None,
        }
    }

    /// The lines that show the tokens, each to be printed on a line of its
    /// own.
    pub fn display_params(&self) -> (lines: Vec<String>)
        ensures
            lines.deep_view() == params_report(self@.params),
    {
        let mut lines: Vec<String> = Vec::new();
        lines.push(RULE_ABOVE.to_owned());
        let mut line = PARAMS_LABEL.to_owned();
        line.append(debug_form(&self.args_vec).as_str());
        lines.push(line);
        lines.push(RULE_BELOW.to_owned());
        proof {
            let report = params_report(self@.params);
        }
        lines
    }

    /// The lines that show the table, each to be printed on a line of its
    /// own: one for each key, in the order in which the keys first came.
    pub fn display_parsed_params(&self) -> (lines: Vec<String>)
        ensures
            lines.deep_view() == table_report(self@.table),
    {
        let mut lines: Vec<String> = Vec::new();
        lines.push(RULE_ABOVE.to_owned());
        lines.push(TABLE_TITLE.to_owned());
        let ghost head = lines.deep_view();
        let mut at: usize = 0;
        while at < self.args_dict.len()
            invariant
                at <= self.args_dict.len(),
                lines.len() == at + 2,
                lines.deep_view().take(2) == head,
                forall|i: int|
                    0 <= i < at ==> #[trigger] lines.deep_view()[i + 2] == entry_line(
                        self@.table[i],
                    ),
            decreases self.args_dict.len() - at,
        {
            let mut line = self.args_dict[at].0.clone();
            line.append(ENTRY_SIGN);
            line.append(debug_form(&self.args_dict[at].1).as_str());
            let ghost before = lines.deep_view();
            lines.push(line);
            assert forall|i: int| 0 <= i < at + 1 implies #[trigger] lines.deep_view()[i + 2]
                == entry_line(self@.table[i]) by {
                if i < at {
                    assert(lines.deep_view()[i + 2] == before[i + 2]);
                }
            }
            at = at + 1;
        }
        let ghost body = lines.deep_view();
        lines.push(RULE_BELOW.to_owned());
        proof {
            let report = table_report(self@.table);
            assert forall|i: int| 0 <= i < lines.len() implies lines.deep_view()[i]
                == report[i] by {
                if i < 2 {
                    assert(lines.deep_view()[i] == body.take(2)[i]);
                } else if i < at + 2 {
                    assert(lines.deep_view()[i] == body[(i - 2) + 2]);
                }
            }
        }
        lines
    }
}

impl Default for CliParser {
    /// A parser without tokens and with an empty table.
    fn default() -> (parser: Self)
        ensures
            parser@ == ParserModel::empty(),
    {
        Self::new()
    }
}

} // verus!
