//! Commands, the turn scheduler, and the batch semantics.
//!
//! A batch runs one worker per command.  Workers are launched together, but
//! each blocks until the shared turn counter reaches its index, so the store
//! sees them strictly in index order; the caller supplies the blocking
//! primitive, while the counter itself and the order it enforces live here.
//! [`execute_batch`] is that order made explicit: it runs the commands one
//! turn at a time and pins down the store state, the audit trail and every
//! result.

use crate::hash_table::{
    delete_note, first_index, has_name, hash_of_name, insert_note, print_note, search_note,
    sort_by_hash, update_note, DeleteResult, HashRecord, HashTable, InsertResult, RecordView,
    SearchResult, UpdateResult,
};
use crate::logger::{
    count_acquires, count_releases, AuditRecord, LockType, LogMessage, MessageModel, ThreadLogger,
};
use vstd::prelude::*;
use vstd::string::{StrSliceExecFns, StringExecFns, StringSliceAdditionalSpecFns};

verus! {

// ---------------------------------------------------------------------------
// Commands
// ---------------------------------------------------------------------------
/// One store command, as the dispatcher hands it over.
pub enum Command {
    Insert { name: String, salary: u32 },
    Delete { name: String },
    Update { name: String, salary: u32 },
    Search { name: String },
    Print,
}

/// The mathematical value of a [`Command`].
pub ghost enum CommandModel {
    Insert { name: Seq<char>, salary: u32 },
    Delete { name: Seq<char> },
    Update { name: Seq<char>, salary: u32 },
    Search { name: Seq<char> },
    Print,
}

impl View for Command {
    type V = CommandModel;

    open spec fn view(&self) -> CommandModel {
        match self {
            Command::Insert { name, salary } => CommandModel::Insert {
                name: name@,
                salary: *salary,
            },
            Command::Delete { name } => CommandModel::Delete { name: name@ },
            Command::Update { name, salary } => CommandModel::Update {
                name: name@,
                salary: *salary,
            },
            Command::Search { name } => CommandModel::Search { name: name@ },
            Command::Print => CommandModel::Print,
        }
    }
}

impl Command {
    /// An independent copy of the command.
    pub fn duplicate(&self) -> (copy: Command)
        ensures
            copy@ == self@,
    {
        match self {
            Command::Insert { name, salary } => Command::Insert {
                name: name.clone(),
                salary: *salary,
            },
            Command::Delete { name } => Command::Delete { name: name.clone() },
            Command::Update { name, salary } => Command::Update {
                name: name.clone(),
                salary: *salary,
            },
            Command::Search { name } => Command::Search { name: name.clone() },
            Command::Print => Command::Print,
        }
    }
}

/// A command with the externally assigned priority that orders the batch.
pub struct CommandWithPriority {
    pub command: Command,
    pub priority: u32,
}

/// The mathematical value of a [`CommandWithPriority`].
pub ghost struct CommandModelWithPriority {
    pub command: CommandModel,
    pub priority: u32,
}

impl View for CommandWithPriority {
    type V = CommandModelWithPriority;

    open spec fn view(&self) -> CommandModelWithPriority {
        CommandModelWithPriority { command: self.command@, priority: self.priority }
    }
}

impl DeepView for CommandWithPriority {
    type V = CommandModelWithPriority;

    open spec fn deep_view(&self) -> CommandModelWithPriority {
        self@
    }
}

impl CommandWithPriority {
    /// An independent copy.
    pub fn duplicate(&self) -> (copy: CommandWithPriority)
        ensures
            copy@ == self@,
    {
        CommandWithPriority { command: self.command.duplicate(), priority: self.priority }
    }
}

// ---------------------------------------------------------------------------
// The command-line format
// ---------------------------------------------------------------------------
/// The position of the first comma of `s`, or its length if it has none.
pub open spec fn find_comma(s: Seq<char>) -> int
    decreases s.len(),
{
    if s.len() == 0 {
        0
    } else if s[0] == ',' {
        0
    } else {
        1 + find_comma(s.drop_first())
    }
}

/// `find_comma` is the least comma position, bounded by the length.
proof fn lemma_find_comma(s: Seq<char>)
    ensures
        0 <= find_comma(s) <= s.len(),
        find_comma(s) < s.len() ==> s[find_comma(s)] == ',',
        forall|k: int| 0 <= k < find_comma(s) ==> s[k] != ',',
    decreases s.len(),
{
    if s.len() > 0 && s[0] != ',' {
        let rest = s.drop_first();
        lemma_find_comma(rest);
        assert forall|k: int| 0 <= k < find_comma(s) implies s[k] != ',' by {
            if k > 0 {
                assert(s[k] == rest[k - 1]);
            }
        }
        if find_comma(s) < s.len() {
            assert(s[find_comma(s)] == rest[find_comma(rest)]);
        }
    }
}

/// The pieces of `s` between its commas, in order; a line without commas is
/// one piece, and every comma separates two (possibly empty) pieces.
pub open spec fn split_commas(s: Seq<char>) -> Seq<Seq<char>>
    decreases s.len(),
    via split_commas_decreases
{
    if find_comma(s) == s.len() {
        seq![s]
    } else {
        seq![s.take(find_comma(s))] + split_commas(s.skip(find_comma(s) + 1))
    }
}

#[via_fn]
proof fn split_commas_decreases(s: Seq<char>) {
    lemma_find_comma(s);
}

/// A split has at least the one piece.
proof fn lemma_split_commas_len(s: Seq<char>)
    ensures
        split_commas(s).len() >= 1,
{
    lemma_find_comma(s);
}

/// A blank that trimming removes at either end of a field.
pub open spec fn is_blank(c: char) -> bool {
    c == ' ' || c == '\t' || c == '\r'
}

/// `s` without its leading blanks.
pub open spec fn trim_front(s: Seq<char>) -> Seq<char>
    decreases s.len(),
{
    if s.len() > 0 && is_blank(s[0]) {
        trim_front(s.drop_first())
    } else {
        s
    }
}

/// `s` without its trailing blanks.
pub open spec fn trim_back(s: Seq<char>) -> Seq<char>
    decreases s.len(),
{
    if s.len() > 0 && is_blank(s.last()) {
        trim_back(s.drop_last())
    } else {
        s
    }
}

/// `s` without leading and trailing blanks.
pub open spec fn trim_blanks(s: Seq<char>) -> Seq<char> {
    trim_back(trim_front(s))
}

/// Dropping a wholly blank prefix is exactly `trim_front`.
proof fn lemma_trim_front_at(s: Seq<char>, j: int)
    requires
        0 <= j <= s.len(),
        forall|k: int| 0 <= k < j ==> is_blank(#[trigger] s[k]),
        j < s.len() ==> !is_blank(s[j]),
    ensures
        trim_front(s) == s.skip(j),
    decreases s.len(),
{
    if j == 0 {
        assert(s.skip(0) =~= s);
    } else {
        let rest = s.drop_first();
        assert(is_blank(s[0]));
        assert(forall|k: int| 0 <= k < j - 1 ==> rest[k] == s[k + 1]);
        lemma_trim_front_at(rest, j - 1);
        assert(rest.skip(j - 1) =~= s.skip(j));
    }
}

/// Dropping a wholly blank suffix is exactly `trim_back`.
proof fn lemma_trim_back_at(s: Seq<char>, e: int)
    requires
        0 <= e <= s.len(),
        forall|k: int| e <= k < s.len() ==> is_blank(#[trigger] s[k]),
        e > 0 ==> !is_blank(s[e - 1]),
    ensures
        trim_back(s) == s.take(e),
    decreases s.len(),
{
    if e == s.len() {
        if s.len() > 0 {
            assert(!is_blank(s.last()));
        }
        assert(s.take(e) =~= s);
    } else {
        assert(is_blank(s.last()));
        let front = s.drop_last();
        assert(forall|k: int| e <= k < front.len() ==> front[k] == s[k]);
        lemma_trim_back_at(front, e);
        assert(front.take(e) =~= s.take(e));
    }
}

/// A decimal digit.
pub open spec fn is_digit(c: char) -> bool {
    48 <= c as u32 <= 57
}

/// Whether every character of `s` is a decimal digit.
pub open spec fn all_digits(s: Seq<char>) -> bool {
    forall|k: int| 0 <= k < s.len() ==> is_digit(#[trigger] s[k])
}

/// The number the digits of `s` write, most significant first.
pub open spec fn digits_value(s: Seq<char>) -> int
    decreases s.len(),
{
    if s.len() == 0 {
        0
    } else {
        digits_value(s.drop_last()) * 10 + (s.last() as u32 - 48)
    }
}

/// A longer digit string writes at least as large a number.
proof fn lemma_digits_value_grows(s: Seq<char>, i: int)
    requires
        all_digits(s),
        0 <= i <= s.len(),
    ensures
        digits_value(s.take(i)) >= 0,
        digits_value(s) >= digits_value(s.take(i)),
    decreases s.len() - i,
{
    if i == s.len() {
        assert(s.take(i) =~= s);
        lemma_digits_value_nonneg(s);
    } else {
        lemma_digits_value_grows(s, i + 1);
        assert(s.take(i + 1).drop_last() =~= s.take(i));
        assert(s.take(i + 1).last() == s[i]);
        lemma_digits_value_nonneg(s.take(i));
    }
}

/// Digit strings write nonnegative numbers.
proof fn lemma_digits_value_nonneg(s: Seq<char>)
    requires
        all_digits(s),
    ensures
        digits_value(s) >= 0,
    decreases s.len(),
{
    if s.len() > 0 {
        assert(all_digits(s.drop_last())) by {
            assert(forall|k: int| 0 <= k < s.len() - 1 ==> s.drop_last()[k] == s[k]);
        }
        lemma_digits_value_nonneg(s.drop_last());
        assert(is_digit(s.last()));
    }
}

/// The number a field stands for: all digits, at least one, fitting a `u32`.
pub open spec fn parse_u32_spec(s: Seq<char>) -> Option<u32> {
    if s.len() > 0 && all_digits(s) && digits_value(s) <= u32::MAX {
        Some(digits_value(s) as u32)
    } else {
        None
    }
}

/// What a command line means, if anything: comma-separated fields, each
/// trimmed of blanks; the verb first, the priority last; `insert` and
/// `update` carry a name and a salary, `delete` and `search` a name, `print`
/// nothing.  A wrong verb, a wrong field count or an unreadable number make
/// the line meaningless, to be reported and skipped, never fatal.
pub open spec fn parse_command_spec(line: Seq<char>) -> Option<CommandModelWithPriority> {
    let parts = split_commas(line);
    let verb = trim_blanks(parts[0]);
    if verb == "insert"@ && parts.len() == 4 {
        match (parse_u32_spec(trim_blanks(parts[2])), parse_u32_spec(trim_blanks(parts[3]))) {
            (Some(salary), Some(priority)) => Some(
                (CommandModelWithPriority {
                    command: CommandModel::Insert { name: trim_blanks(parts[1]), salary: salary },
                    priority: priority,
                }),
            ),
            _ => None,
        }
    } else if verb == "update"@ && parts.len() == 4 {
        match (parse_u32_spec(trim_blanks(parts[2])), parse_u32_spec(trim_blanks(parts[3]))) {
            (Some(salary), Some(priority)) => Some(
                (CommandModelWithPriority {
                    command: CommandModel::Update { name: trim_blanks(parts[1]), salary: salary },
                    priority: priority,
                }),
            ),
            _ => None,
        }
    } else if verb == "delete"@ && parts.len() == 3 {
        match parse_u32_spec(trim_blanks(parts[2])) {
            Some(priority) => Some(
                (CommandModelWithPriority {
                    command: CommandModel::Delete { name: trim_blanks(parts[1]) },
                    priority: priority,
                }),
            ),
            None => None,
        }
    } else if verb == "search"@ && parts.len() == 3 {
        match parse_u32_spec(trim_blanks(parts[2])) {
            Some(priority) => Some(
                (CommandModelWithPriority {
                    command: CommandModel::Search { name: trim_blanks(parts[1]) },
                    priority: priority,
                }),
            ),
            None => None,
        }
    } else if verb == "print"@ && parts.len() == 2 {
        match parse_u32_spec(trim_blanks(parts[1])) {
            Some(priority) => Some(
                (CommandModelWithPriority {
                    command: CommandModel::Print,
                    priority: priority,
                }),
            ),
            None => None,
        }
    } else {
        None
    }
}

/// Whether two strings read the same.  Their UTF-8 bytes are compared;
/// encoding is injective, so equal bytes mean equal character sequences.
fn str_eq(a: &str, b: &str) -> (eq: bool)
    ensures
        eq == (a@ == b@),
{
    proof {
        vstd::utf8::encode_utf8_decode_utf8(a@);
        vstd::utf8::encode_utf8_decode_utf8(b@);
    }
    let abytes = a.as_bytes();
    let bbytes = b.as_bytes();
    if abytes.len() != bbytes.len() {
        return false;
    }
    let mut i: usize = 0;
    while i < abytes.len()
        invariant
            i <= abytes@.len(),
            abytes@.len() == bbytes@.len(),
            abytes@ == a.spec_bytes(),
            bbytes@ == b.spec_bytes(),
            forall|k: int| 0 <= k < i ==> abytes@[k] == bbytes@[k],
        decreases abytes@.len() - i,
    {
        if abytes[i] != bbytes[i] {
            return false;
        }
        i = i + 1;
    }
    proof {
        assert(abytes@ =~= bbytes@);
    }
    true
}

/// Whether `c` is the separating comma.
fn is_comma_exec(c: char) -> (comma: bool)
    ensures
        comma == (c == ','),
{
    let code = c as u32;
    let comma = code == 44;
    proof {
        assert(',' as u32 == 44);
        if comma {
            vstd::utf8::char_u32_cast(c, 44);
            vstd::utf8::char_u32_cast(',', 44);
        }
    }
    comma
}

/// Whether `c` is a blank that trimming removes.
fn is_blank_exec(c: char) -> (blank: bool)
    ensures
        blank == is_blank(c),
{
    let code = c as u32;
    let blank = code == 32 || code == 9 || code == 13;
    proof {
        assert(' ' as u32 == 32);
        assert('\t' as u32 == 9);
        assert('\r' as u32 == 13);
        if blank {
            vstd::utf8::char_u32_cast(c, code);
            if code == 32 {
                vstd::utf8::char_u32_cast(' ', 32);
            } else if code == 9 {
                vstd::utf8::char_u32_cast('\t', 9);
            } else {
                vstd::utf8::char_u32_cast('\r', 13);
            }
        }
    }
    blank
}

/// The fields of `line`, split on commas.
fn split_fields(line: &str) -> (fields: Vec<String>)
    ensures
        fields.deep_view() == split_commas(line@),
    decreases line@.len(),
{
    let n = line.unicode_len();
    let mut cut: usize = 0;
    while cut < n && !is_comma_exec(line.get_char(cut))
        invariant
            cut <= n,
            n == line@.len(),
            forall|k: int| 0 <= k < cut ==> line@[k] != ',',
        decreases n - cut,
    {
        cut = cut + 1;
    }
    proof {
        lemma_find_comma(line@);
        assert(find_comma(line@) == cut as int);
    }
    if cut == n {
        let mut fields: Vec<String> = Vec::new();
        fields.push(line.to_owned());
        proof {
            assert(fields.deep_view() =~= split_commas(line@));
        }
        fields
    } else {
        let head = line.substring_char(0, cut).to_owned();
        let rest = line.substring_char(cut + 1, n);
        let mut rest_fields = split_fields(rest);
        let mut fields: Vec<String> = Vec::new();
        fields.push(head);
        fields.append(&mut rest_fields);
        proof {
            assert(rest@ =~= line@.skip(cut + 1));
            assert(head@ =~= line@.take(cut as int));
            assert(fields.deep_view() =~= split_commas(line@));
        }
        fields
    }
}

/// An owned copy of `field` without leading and trailing blanks.
fn trim_field(field: &str) -> (trimmed: String)
    ensures
        trimmed@ == trim_blanks(field@),
{
    let n = field.unicode_len();
    let mut start: usize = 0;
    while start < n && is_blank_exec(field.get_char(start))
        invariant
            start <= n,
            n == field@.len(),
            forall|k: int| 0 <= k < start ==> is_blank(#[trigger] field@[k]),
        decreases n - start,
    {
        start = start + 1;
    }
    let mut end: usize = n;
    while end > start && is_blank_exec(field.get_char(end - 1))
        invariant
            start <= end <= n,
            n == field@.len(),
            forall|k: int| end <= k < n ==> is_blank(#[trigger] field@[k]),
        decreases end,
    {
        end = end - 1;
    }
    let trimmed = field.substring_char(start, end).to_owned();
    proof {
        lemma_trim_front_at(field@, start as int);
        let fronted = field@.skip(start as int);
        assert(forall|k: int|
            end - start <= k < fronted.len() ==> is_blank(#[trigger] fronted[k]));
        lemma_trim_back_at(fronted, end - start);
        assert(trimmed@ =~= trim_blanks(field@));
    }
    trimmed
}

/// The number `field` writes in decimal, if it is a well-formed `u32`.
fn parse_u32_field(field: &str) -> (value: Option<u32>)
    ensures
        value == parse_u32_spec(field@),
{
    let n = field.unicode_len();
    if n == 0 {
        return None;
    }
    let mut acc: u64 = 0;
    let mut i: usize = 0;
    proof {
        assert(field@.take(0) =~= Seq::<char>::empty());
    }
    while i < n
        invariant
            i <= n,
            n == field@.len(),
            n > 0,
            forall|k: int| 0 <= k < i ==> is_digit(#[trigger] field@[k]),
            acc == digits_value(field@.take(i as int)),
            acc <= u32::MAX,
        decreases n - i,
    {
        let c = field.get_char(i);
        let code = c as u32;
        if code < 48 || code > 57 {
            proof {
                assert(!is_digit(field@[i as int]));
            }
            return None;
        }
        acc = acc * 10 + ((code - 48) as u64);
        proof {
            assert(field@.take(i + 1).drop_last() =~= field@.take(i as int));
            assert(field@.take(i + 1).last() == field@[i as int]);
        }
        if acc > 0xffff_ffff {
            proof {
                if all_digits(field@) {
                    lemma_digits_value_grows(field@, i + 1);
                }
            }
            return None;
        }
        i = i + 1;
    }
    proof {
        assert(field@.take(n as int) =~= field@);
    }
    Some(acc as u32)
}

/// Reads one command line; a meaningless line is `None`, to be reported and
/// skipped by the caller.
pub fn parse_command(line: &str) -> (parsed: Option<CommandWithPriority>)
    ensures
        match parsed {
            None => parse_command_spec(line@) is None,
            Some(c) => parse_command_spec(line@) == Some(c@),
        },
{
    let fields = split_fields(line);
    proof {
        lemma_split_commas_len(line@);
    }
    let first = &fields[0];
    let verb = trim_field(first.as_str());
    if str_eq(verb.as_str(), "insert") && fields.len() == 4 {
        let name = trim_field(fields[1].as_str());
        let salary_field = trim_field(fields[2].as_str());
        let priority_field = trim_field(fields[3].as_str());
        match (parse_u32_field(salary_field.as_str()), parse_u32_field(priority_field.as_str())) {
            (Some(salary), Some(priority)) => Some(
                CommandWithPriority { command: Command::Insert { name, salary }, priority },
            ),
            _ => None,
        }
    } else if str_eq(verb.as_str(), "update") && fields.len() == 4 {
        let name = trim_field(fields[1].as_str());
        let salary_field = trim_field(fields[2].as_str());
        let priority_field = trim_field(fields[3].as_str());
        match (parse_u32_field(salary_field.as_str()), parse_u32_field(priority_field.as_str())) {
            (Some(salary), Some(priority)) => Some(
                CommandWithPriority { command: Command::Update { name, salary }, priority },
            ),
            _ => None,
        }
    } else if str_eq(verb.as_str(), "delete") && fields.len() == 3 {
        let name = trim_field(fields[1].as_str());
        let priority_field = trim_field(fields[2].as_str());
        match parse_u32_field(priority_field.as_str()) {
            Some(priority) => Some(
                CommandWithPriority { command: Command::Delete { name }, priority },
            ),
            None => None,
        }
    } else if str_eq(verb.as_str(), "search") && fields.len() == 3 {
        let name = trim_field(fields[1].as_str());
        let priority_field = trim_field(fields[2].as_str());
        match parse_u32_field(priority_field.as_str()) {
            Some(priority) => Some(
                CommandWithPriority { command: Command::Search { name }, priority },
            ),
            None => None,
        }
    } else if str_eq(verb.as_str(), "print") && fields.len() == 2 {
        let priority_field = trim_field(fields[1].as_str());
        match parse_u32_field(priority_field.as_str()) {
            Some(priority) => Some(
                CommandWithPriority { command: Command::Print, priority },
            ),
            None => None,
        }
    } else {
        None
    }
}

// ---------------------------------------------------------------------------
// The turn scheduler
// ---------------------------------------------------------------------------
/// The shared turn counter of one batch.  Turn values are consumed exactly
/// once, in increasing order, with no gaps: a worker proceeds only when the
/// counter equals its index, and advances it by exactly one.  The blocking
/// wait and the wake-all broadcast around it are the caller's.
pub struct TurnManager {
    pub current_turn: u32,
}

impl TurnManager {
    pub fn new(start_turn: u32) -> (manager: Self)
        ensures
            manager.current_turn == start_turn,
    {
        TurnManager { current_turn: start_turn }
    }

    /// Whether the worker with `index` may enter its critical section; a
    /// woken worker re-checks this to guard against spurious wakes.
    pub fn is_my_turn(&self, index: u32) -> (mine: bool)
        ensures
            mine == (self.current_turn == index),
    {
        self.current_turn == index
    }

    /// Hands the turn to the next index.  Called exactly once per turn, by
    /// the worker that held it.
    pub fn advance(&mut self)
        requires
            old(self).current_turn < u32::MAX,
        ensures
            final(self).current_turn == old(self).current_turn + 1,
    {
        self.current_turn = self.current_turn + 1;
    }
}

// ---------------------------------------------------------------------------
// Ordering a batch by priority
// ---------------------------------------------------------------------------
/// Whether the commands stand in ascending priority order.
pub open spec fn sorted_by_priority(s: Seq<CommandModelWithPriority>) -> bool {
    forall|i: int, j: int|
        0 <= i < j < s.len() ==> (#[trigger] s[i]).priority <= (#[trigger] s[j]).priority
}

/// Places `c` after every command whose priority is at most its own: a
/// stable insertion, ties keeping submission order.
pub open spec fn priority_insert(
    s: Seq<CommandModelWithPriority>,
    c: CommandModelWithPriority,
) -> Seq<CommandModelWithPriority>
    decreases s.len(),
{
    if s.len() == 0 {
        seq![c]
    } else if s.last().priority <= c.priority {
        s.push(c)
    } else {
        priority_insert(s.drop_last(), c).push(s.last())
    }
}

/// The stable sort of a batch by ascending priority, ties broken by
/// submission order.
pub open spec fn sort_by_priority(s: Seq<CommandModelWithPriority>) -> Seq<CommandModelWithPriority>
    decreases s.len(),
{
    if s.len() == 0 {
        Seq::empty()
    } else {
        priority_insert(sort_by_priority(s.drop_last()), s.last())
    }
}

/// Inserting at a position whose left neighbour is no larger and whose whole
/// suffix is larger is exactly `priority_insert`.
proof fn lemma_priority_insert_at(
    s: Seq<CommandModelWithPriority>,
    c: CommandModelWithPriority,
    pos: int,
)
    requires
        0 <= pos <= s.len(),
        forall|k: int| pos <= k < s.len() ==> (#[trigger] s[k]).priority > c.priority,
        pos > 0 ==> s[pos - 1].priority <= c.priority,
    ensures
        priority_insert(s, c) == s.insert(pos, c),
    decreases s.len(),
{
    if s.len() == 0 {
        assert(priority_insert(s, c) =~= s.insert(0, c));
    } else if pos == s.len() {
        assert(priority_insert(s, c) =~= s.insert(pos, c));
    } else {
        assert(s[s.len() - 1].priority > c.priority);
        lemma_priority_insert_at(s.drop_last(), c, pos);
        assert(s.drop_last().insert(pos, c).push(s.last()) =~= s.insert(pos, c));
    }
}

/// Stable insertion grows the batch by one.
proof fn lemma_priority_insert_len(s: Seq<CommandModelWithPriority>, c: CommandModelWithPriority)
    ensures
        priority_insert(s, c).len() == s.len() + 1,
    decreases s.len(),
{
    if s.len() > 0 && s.last().priority > c.priority {
        lemma_priority_insert_len(s.drop_last(), c);
    }
}

/// Every command of a stable insertion is the inserted one or one of the
/// original commands.
proof fn lemma_priority_insert_members(
    s: Seq<CommandModelWithPriority>,
    c: CommandModelWithPriority,
    i: int,
)
    requires
        0 <= i < priority_insert(s, c).len(),
    ensures
        priority_insert(s, c)[i] == c || exists|k: int|
            0 <= k < s.len() && (#[trigger] s[k]) == priority_insert(s, c)[i],
    decreases s.len(),
{
    lemma_priority_insert_len(s, c);
    if s.len() == 0 {
    } else if s.last().priority <= c.priority {
    } else {
        lemma_priority_insert_len(s.drop_last(), c);
        if i < priority_insert(s, c).len() - 1 {
            lemma_priority_insert_members(s.drop_last(), c, i);
            if priority_insert(s, c)[i] != c {
                let k = choose|k: int|
                    0 <= k < s.drop_last().len() && (#[trigger] s.drop_last()[k])
                        == priority_insert(s, c)[i];
                assert(s[k] == s.drop_last()[k]);
            }
        } else {
            assert(priority_insert(s, c)[i] == s.last());
            assert(s[s.len() - 1] == s.last());
        }
    }
}

/// Stable insertion keeps the priority order.
proof fn lemma_priority_insert_sorted(s: Seq<CommandModelWithPriority>, c: CommandModelWithPriority)
    requires
        sorted_by_priority(s),
    ensures
        sorted_by_priority(priority_insert(s, c)),
    decreases s.len(),
{
    if s.len() > 0 && s.last().priority > c.priority {
        assert(sorted_by_priority(s.drop_last())) by {
            assert(forall|i: int| 0 <= i < s.len() - 1 ==> s.drop_last()[i] == s[i]);
        }
        lemma_priority_insert_sorted(s.drop_last(), c);
        lemma_priority_insert_len(s.drop_last(), c);
        let inner = priority_insert(s.drop_last(), c);
        let grown = inner.push(s.last());
        assert forall|i: int, j: int| 0 <= i < j < grown.len() implies (
        #[trigger] grown[i]).priority <= (#[trigger] grown[j]).priority by {
            if j < inner.len() {
                assert(grown[i] == inner[i] && grown[j] == inner[j]);
            } else {
                assert(grown[j] == s.last());
                assert(grown[i] == inner[i]);
                lemma_priority_insert_members(s.drop_last(), c, i);
                if inner[i] != c {
                    let k = choose|k: int|
                        0 <= k < s.drop_last().len() && (#[trigger] s.drop_last()[k]) == inner[i];
                    assert(s.drop_last()[k] == s[k]);
                    assert(s[k].priority <= s.last().priority);
                }
            }
        }
        assert(priority_insert(s, c) == grown);
    }
}

/// The dispatcher's sort leaves the batch in ascending priority order.
pub proof fn lemma_sort_by_priority_sorted(s: Seq<CommandModelWithPriority>)
    ensures
        sorted_by_priority(sort_by_priority(s)),
    decreases s.len(),
{
    if s.len() > 0 {
        lemma_sort_by_priority_sorted(s.drop_last());
        lemma_priority_insert_sorted(sort_by_priority(s.drop_last()), s.last());
    }
}

/// Moves `cmd` into `ordered` at its stable position.
fn insert_by_priority(ordered: &mut Vec<CommandWithPriority>, cmd: CommandWithPriority)
    ensures
        final(ordered).deep_view() == priority_insert(old(ordered).deep_view(), cmd@),
{
    let mut pos = ordered.len();
    while pos > 0 && ordered[pos - 1].priority > cmd.priority
        invariant
            pos <= ordered.len(),
            forall|k: int|
                pos <= k < ordered.len() ==> (#[trigger] ordered.deep_view()[k]).priority
                    > cmd@.priority,
        decreases pos,
    {
        pos = pos - 1;
    }
    proof {
        lemma_priority_insert_at(ordered.deep_view(), cmd@, pos as int);
    }
    ordered.insert(pos, cmd);
    proof {
        assert(ordered.deep_view() =~= old(ordered).deep_view().insert(pos as int, cmd@));
    }
}

/// The batch in execution order: ascending priority, ties keeping submission
/// order.  The dispatcher runs this before assigning turn indices.
pub fn sort_commands(cmds: Vec<CommandWithPriority>) -> (ordered: Vec<CommandWithPriority>)
    ensures
        ordered.deep_view() == sort_by_priority(cmds.deep_view()),
{
    let mut remaining = cmds;
    let mut ordered: Vec<CommandWithPriority> = Vec::new();
    let ghost all = remaining.deep_view();
    let total = remaining.len();
    let mut i: usize = 0;
    proof {
        assert(all.take(0) =~= Seq::<CommandModelWithPriority>::empty());
        assert(all.len() == total);
    }
    while remaining.len() > 0
        invariant
            i <= all.len(),
            all.len() == total,
            remaining.deep_view() == all.skip(i as int),
            ordered.deep_view() == sort_by_priority(all.take(i as int)),
        decreases all.len() - i,
    {
        proof {
            assert(remaining.deep_view().len() == remaining@.len());
            assert(all.skip(i as int).len() == all.len() - i);
            assert(i < all.len());
        }
        let cmd = remaining.remove(0);
        proof {
            assert(all.skip(i as int)[0] == all[i as int]);
            assert(all.skip(i as int).drop_first() =~= all.skip(i + 1));
            assert(remaining.deep_view() =~= all.skip(i as int).drop_first());
        }
        insert_by_priority(&mut ordered, cmd);
        proof {
            let upto = all.take(i + 1);
            assert(upto.drop_last() =~= all.take(i as int));
            assert(upto.last() == all[i as int]);
        }
        i = i + 1;
    }
    proof {
        assert(remaining.deep_view().len() == remaining@.len());
        assert(all.skip(i as int).len() == 0);
        assert(all.skip(i as int).len() == all.len() - i);
        assert(i == all.len());
        assert(all.take(all.len() as int) =~= all);
    }
    ordered
}

// ---------------------------------------------------------------------------
// Batch semantics
// ---------------------------------------------------------------------------
/// The store state after one command: a fresh insert appends, a present
/// delete removes, a present update rewrites the salary in place; everything
/// else leaves the records as they are.
pub open spec fn apply_command(state: Seq<RecordView>, c: CommandModel) -> Seq<RecordView> {
    match c {
        CommandModel::Insert { name, salary } => {
            if has_name(state, name) {
                state
            } else {
                state.push((RecordView { hash: hash_of_name(name), name: name, salary: salary }))
            }
        },
        CommandModel::Delete { name } => {
            if has_name(state, name) {
                state.remove(first_index(state, name))
            } else {
                state
            }
        },
        CommandModel::Update { name, salary } => {
            if has_name(state, name) {
                let at = first_index(state, name);
                state.update(
                    at,
                    (RecordView { hash: state[at].hash, name: state[at].name, salary: salary }),
                )
            } else {
                state
            }
        },
        CommandModel::Search { .. } => state,
        CommandModel::Print => state,
    }
}

/// The store state after a whole batch, command by command.
pub open spec fn batch_apply(
    state: Seq<RecordView>,
    cmds: Seq<CommandModelWithPriority>,
) -> Seq<RecordView>
    decreases cmds.len(),
{
    if cmds.len() == 0 {
        state
    } else {
        batch_apply(apply_command(state, cmds[0].command), cmds.drop_first())
    }
}

/// Which lock a command takes: mutations write, lookups read.
pub open spec fn lock_kind(c: CommandModel) -> LockType {
    match c {
        CommandModel::Insert { .. } => LockType::Write,
        CommandModel::Delete { .. } => LockType::Write,
        CommandModel::Update { .. } => LockType::Write,
        CommandModel::Search { .. } => LockType::Read,
        CommandModel::Print => LockType::Read,
    }
}

/// The note a command's store operation logs before its critical section.
pub open spec fn note_of(c: CommandModel) -> Seq<char> {
    match c {
        CommandModel::Insert { name, salary } => insert_note(name, salary),
        CommandModel::Delete { name } => delete_note(name),
        CommandModel::Update { name, salary } => update_note(name, salary),
        CommandModel::Search { name } => search_note(name),
        CommandModel::Print => print_note(),
    }
}

/// The five audit entries one worker contributes: its two scheduling notes
/// under its index, then its operation's note and lock bracket under its
/// command's priority.
pub open spec fn worker_trace(index: u32, c: CommandModelWithPriority) -> Seq<AuditRecord> {
    seq![
        (AuditRecord { worker: index, message: MessageModel::Custom("WAITING FOR MY TURN"@) }),
        (AuditRecord { worker: index, message: MessageModel::Custom("AWAKENED FOR WORK"@) }),
        (AuditRecord { worker: c.priority, message: MessageModel::Custom(note_of(c.command)) }),
        (AuditRecord { worker: c.priority, message: MessageModel::Acquire(lock_kind(c.command)) }),
        (AuditRecord { worker: c.priority, message: MessageModel::Release(lock_kind(c.command)) }),
    ]
}

/// The audit trail of a whole batch whose first worker has index `first`:
/// each worker's five entries, in turn order.
pub open spec fn batch_trace(cmds: Seq<CommandModelWithPriority>, first: u32) -> Seq<AuditRecord>
    decreases cmds.len(),
{
    if cmds.len() == 0 {
        Seq::empty()
    } else {
        worker_trace(first, cmds[0]) + batch_trace(cmds.drop_first(), (first + 1) as u32)
    }
}

/// Appending a command appends its worker's five entries to the trace.
proof fn lemma_batch_trace_snoc(cmds: Seq<CommandModelWithPriority>, x: CommandModelWithPriority, first: u32)
    requires
        first + cmds.len() < u32::MAX,
    ensures
        batch_trace(cmds.push(x), first) == batch_trace(cmds, first) + worker_trace(
            (first + cmds.len()) as u32,
            x,
        ),
    decreases cmds.len(),
{
    if cmds.len() == 0 {
        assert(cmds.push(x)[0] == x);
        assert(cmds.push(x).drop_first() =~= Seq::<CommandModelWithPriority>::empty());
        assert(batch_trace(Seq::<CommandModelWithPriority>::empty(), (first + 1) as u32)
            =~= Seq::<AuditRecord>::empty());
        assert(batch_trace(cmds, first) =~= Seq::<AuditRecord>::empty());
        assert(batch_trace(cmds.push(x), first) =~= batch_trace(cmds, first) + worker_trace(
            first,
            x,
        ));
    } else {
        assert(cmds.push(x)[0] == cmds[0]);
        assert(cmds.push(x).drop_first() =~= cmds.drop_first().push(x));
        lemma_batch_trace_snoc(cmds.drop_first(), x, (first + 1) as u32);
        assert(batch_trace(cmds.push(x), first) =~= batch_trace(cmds, first) + worker_trace(
            (first + cmds.len()) as u32,
            x,
        ));
    }
}

/// Appending a command applies it after the rest of the batch.
proof fn lemma_batch_apply_snoc(
    state: Seq<RecordView>,
    cmds: Seq<CommandModelWithPriority>,
    x: CommandModelWithPriority,
)
    ensures
        batch_apply(state, cmds.push(x)) == apply_command(batch_apply(state, cmds), x.command),
    decreases cmds.len(),
{
    if cmds.len() == 0 {
        assert(cmds.push(x)[0] == x);
        assert(cmds.push(x).drop_first() =~= Seq::<CommandModelWithPriority>::empty());
        assert(batch_apply(state, cmds) == state);
        assert(batch_apply(state, cmds.push(x)) == batch_apply(
            apply_command(state, x.command),
            Seq::<CommandModelWithPriority>::empty(),
        ));
    } else {
        assert(cmds.push(x)[0] == cmds[0]);
        assert(cmds.push(x).drop_first() =~= cmds.drop_first().push(x));
        lemma_batch_apply_snoc(apply_command(state, cmds[0].command), cmds.drop_first(), x);
    }
}

/// Lock-transition counts add up over concatenated trails.
proof fn lemma_counts_concat(a: Seq<AuditRecord>, b: Seq<AuditRecord>)
    ensures
        count_acquires(a + b) == count_acquires(a) + count_acquires(b),
        count_releases(a + b) == count_releases(a) + count_releases(b),
    decreases b.len(),
{
    if b.len() == 0 {
        assert(a + b =~= a);
    } else {
        lemma_counts_concat(a, b.drop_last());
        assert((a + b).drop_last() =~= a + b.drop_last());
        assert((a + b).last() == b.last());
    }
}

/// One worker's five entries hold exactly one acquisition and one release.
proof fn lemma_worker_trace_counts(index: u32, c: CommandModelWithPriority)
    ensures
        count_acquires(worker_trace(index, c)) == 1,
        count_releases(worker_trace(index, c)) == 1,
{
    let e0 = AuditRecord { worker: index, message: MessageModel::Custom("WAITING FOR MY TURN"@) };
    let e1 = AuditRecord { worker: index, message: MessageModel::Custom("AWAKENED FOR WORK"@) };
    let e2 = AuditRecord { worker: c.priority, message: MessageModel::Custom(note_of(c.command)) };
    let e3 = AuditRecord { worker: c.priority, message: MessageModel::Acquire(lock_kind(c.command)) };
    let e4 = AuditRecord { worker: c.priority, message: MessageModel::Release(lock_kind(c.command)) };
    let t = worker_trace(index, c);
    assert(t == seq![e0, e1, e2, e3, e4]);
    assert(t.drop_last() =~= seq![e0, e1, e2, e3]);
    assert(seq![e0, e1, e2, e3].drop_last() =~= seq![e0, e1, e2]);
    assert(seq![e0, e1, e2].drop_last() =~= seq![e0, e1]);
    assert(seq![e0, e1].drop_last() =~= seq![e0]);
    assert(seq![e0].drop_last() =~= Seq::<AuditRecord>::empty());
    assert(t.last() == e4);
    assert(seq![e0, e1, e2, e3].last() == e3);
    assert(seq![e0, e1, e2].last() == e2);
    assert(seq![e0, e1].last() == e1);
    assert(seq![e0].last() == e0);
    assert(count_acquires(Seq::<AuditRecord>::empty()) == 0);
    assert(count_acquires(seq![e0]) == 0);
    assert(count_acquires(seq![e0, e1]) == 0);
    assert(count_acquires(seq![e0, e1, e2]) == 0);
    assert(count_acquires(seq![e0, e1, e2, e3]) == 1);
    assert(count_acquires(t) == 1);
    assert(count_releases(Seq::<AuditRecord>::empty()) == 0);
    assert(count_releases(seq![e0]) == 0);
    assert(count_releases(seq![e0, e1]) == 0);
    assert(count_releases(seq![e0, e1, e2]) == 0);
    assert(count_releases(seq![e0, e1, e2, e3]) == 0);
    assert(count_releases(t) == 1);
}

/// Audit completeness over a batch: the trail of `n` workers holds exactly
/// `n` acquisitions and `n` releases -- every lock taken is released.
pub proof fn lemma_batch_trace_balanced(cmds: Seq<CommandModelWithPriority>, first: u32)
    ensures
        count_acquires(batch_trace(cmds, first)) == cmds.len(),
        count_releases(batch_trace(cmds, first)) == cmds.len(),
    decreases cmds.len(),
{
    if cmds.len() > 0 {
        lemma_worker_trace_counts(first, cmds[0]);
        lemma_batch_trace_balanced(cmds.drop_first(), (first + 1) as u32);
        lemma_counts_concat(
            worker_trace(first, cmds[0]),
            batch_trace(cmds.drop_first(), (first + 1) as u32),
        );
    }
}

/// Audit completeness, at the logger: after a batch run on a logger whose
/// trail was balanced, the acquisition and release counts of the full trail
/// are equal, and the logger's own counters agree with them (exactly, as
/// long as they fit a `usize`).
pub proof fn lemma_audit_completeness(
    logger: ThreadLogger,
    initial: Seq<AuditRecord>,
    cmds: Seq<CommandModelWithPriority>,
    first: u32,
)
    requires
        logger.wf(),
        logger.history@ == initial + batch_trace(cmds, first),
        count_acquires(initial) == count_releases(initial),
    ensures
        count_acquires(logger.history@) == count_acquires(initial) + cmds.len(),
        count_releases(logger.history@) == count_releases(initial) + cmds.len(),
        count_acquires(logger.history@) == count_releases(logger.history@),
        logger.acquisitions == logger.releases,
        count_acquires(logger.history@) <= usize::MAX ==> logger.acquisitions
            == count_acquires(logger.history@),
{
    lemma_batch_trace_balanced(cmds, first);
    lemma_counts_concat(initial, batch_trace(cmds, first));
}

/// The length of a batch trail: five entries per worker.
pub proof fn lemma_batch_trace_len(cmds: Seq<CommandModelWithPriority>, first: u32)
    ensures
        batch_trace(cmds, first).len() == 5 * cmds.len(),
    decreases cmds.len(),
{
    if cmds.len() > 0 {
        lemma_batch_trace_len(cmds.drop_first(), (first + 1) as u32);
    }
}

/// Turn ordering, as the audit trail shows it: the `i`-th worker's entries
/// stand at positions `5i` to `5i + 4`, so the operation notes -- the
/// store-mutation side effects -- appear in strictly increasing index order,
/// each under its command's priority.
pub proof fn lemma_turn_ordering(cmds: Seq<CommandModelWithPriority>, first: u32, i: int)
    requires
        0 <= i < cmds.len(),
        first + cmds.len() <= u32::MAX,
    ensures
        batch_trace(cmds, first).len() == 5 * cmds.len(),
        batch_trace(cmds, first).subrange(5 * i, 5 * i + 5) == worker_trace(
            (first + i) as u32,
            cmds[i],
        ),
    decreases i,
{
    lemma_batch_trace_len(cmds, first);
    let t = batch_trace(cmds, first);
    let head = worker_trace(first, cmds[0]);
    let rest = batch_trace(cmds.drop_first(), (first + 1) as u32);
    lemma_batch_trace_len(cmds.drop_first(), (first + 1) as u32);
    if i == 0 {
        assert(t.subrange(0, 5) =~= head) by {
            assert(forall|j: int| 0 <= j < 5 ==> t[j] == head[j]);
        }
    } else {
        lemma_turn_ordering(cmds.drop_first(), (first + 1) as u32, i - 1);
        assert(cmds.drop_first()[i - 1] == cmds[i]);
        assert(((first + 1) as u32 + (i - 1)) as u32 == (first + i) as u32);
        assert(t.subrange(5 * i, 5 * i + 5) =~= rest.subrange(5 * (i - 1), 5 * (i - 1) + 5)) by {
            assert(forall|j: int|
                5 * i <= j < 5 * i + 5 ==> t[j] == rest[j - 5]);
        }
    }
}

// ---------------------------------------------------------------------------
// Running a batch
// ---------------------------------------------------------------------------
/// What one command's worker reports back.
pub enum CommandResult {
    Inserted(InsertResult),
    Deleted(DeleteResult),
    Updated(UpdateResult),
    Searched(SearchResult),
    Printed(Vec<HashRecord>),
}

/// Whether `r` is the right outcome of command `c` on a store holding
/// `state`.
pub open spec fn result_matches(state: Seq<RecordView>, c: CommandModel, r: CommandResult) -> bool {
    match c {
        CommandModel::Insert { name, salary } => match r {
            CommandResult::Inserted(inner) => {
                if has_name(state, name) {
                    match inner {
                        InsertResult::Duplicate { hash } => hash == hash_of_name(name),
                        _ => false,
                    }
                } else {
                    match inner {
                        InsertResult::Success { record } => record@ == (RecordView {
                            hash: hash_of_name(name),
                            name: name,
                            salary: salary,
                        }),
                        _ => false,
                    }
                }
            },
            _ => false,
        },
        CommandModel::Delete { name } => match r {
            CommandResult::Deleted(inner) => {
                if has_name(state, name) {
                    match inner {
                        DeleteResult::Success { record } => record@ == state[first_index(
                            state,
                            name,
                        )],
                        _ => false,
                    }
                } else {
                    match inner {
                        DeleteResult::NotFound { hash } => hash == hash_of_name(name),
                        _ => false,
                    }
                }
            },
            _ => false,
        },
        CommandModel::Update { name, salary } => match r {
            CommandResult::Updated(inner) => {
                if has_name(state, name) {
                    let at = first_index(state, name);
                    match inner {
                        UpdateResult::Success { old_record, new_record } => {
                            &&& old_record@ == state[at]
                            &&& new_record@ == (RecordView {
                                hash: state[at].hash,
                                name: state[at].name,
                                salary: salary,
                            })
                        },
                        _ => false,
                    }
                } else {
                    match inner {
                        UpdateResult::NotFound { hash } => hash == hash_of_name(name),
                        _ => false,
                    }
                }
            },
            _ => false,
        },
        CommandModel::Search { name } => match r {
            CommandResult::Searched(inner) => {
                if has_name(state, name) {
                    match inner {
                        SearchResult::Found { record } => record@ == state[first_index(
                            state,
                            name,
                        )],
                        _ => false,
                    }
                } else {
                    match inner {
                        SearchResult::NotFound { name: missing } => missing@ == name,
                        _ => false,
                    }
                }
            },
            _ => false,
        },
        CommandModel::Print => match r {
            CommandResult::Printed(records) => records.deep_view() == sort_by_hash(state),
            _ => false,
        },
    }
}

/// Runs a batch of commands, already in turn order, against the store: one
/// worker per command, each taking its turn in index order.  Pins down the
/// final store state, every result, the whole audit trail, and that the turn
/// counter was consumed once per worker with no gaps.
pub fn execute_batch(
    table: &mut HashTable,
    turn: &mut TurnManager,
    cmds: &Vec<CommandWithPriority>,
) -> (results: Vec<CommandResult>)
    requires
        old(table).wf(),
        old(turn).current_turn == 0,
        cmds@.len() <= u32::MAX,
    ensures
        final(table).wf(),
        final(table)@ == batch_apply(old(table)@, cmds.deep_view()),
        final(turn).current_turn == cmds@.len(),
        final(table).logger.history@ == old(table).logger.history@ + batch_trace(
            cmds.deep_view(),
            0,
        ),
        results@.len() == cmds@.len(),
        forall|j: int|
            0 <= j < cmds@.len() ==> result_matches(
                batch_apply(old(table)@, cmds.deep_view().take(j)),
                cmds.deep_view()[j].command,
                #[trigger] results@[j],
            ),
{
    let ghost init_state = old(table)@;
    let ghost init_hist = old(table).logger.history@;
    let mut results: Vec<CommandResult> = Vec::new();
    let mut i: usize = 0;
    proof {
        assert(cmds.deep_view().take(0) =~= Seq::<CommandModelWithPriority>::empty());
    }
    while i < cmds.len()
        invariant
            i <= cmds@.len(),
            cmds@.len() <= u32::MAX,
            table.wf(),
            turn.current_turn == i,
            table@ == batch_apply(init_state, cmds.deep_view().take(i as int)),
            table.logger.history@ == init_hist + batch_trace(cmds.deep_view().take(i as int), 0),
            results@.len() == i,
            forall|j: int|
                0 <= j < i ==> result_matches(
                    batch_apply(init_state, cmds.deep_view().take(j)),
                    cmds.deep_view()[j].command,
                    #[trigger] results@[j],
                ),
        decreases cmds@.len() - i,
    {
        let index = i as u32;
        let ghost l0 = table.logger;
        let ghost state_before = table@;
        table.logger.log_id(index, LogMessage::Custom(String::from_str("WAITING FOR MY TURN")));
        let ghost l1 = table.logger;
        proof {
            assert(turn.current_turn == index);
        }
        turn.advance();
        table.logger.log_id(index, LogMessage::Custom(String::from_str("AWAKENED FOR WORK")));
        let ghost l2 = table.logger;
        let current = &cmds[i];
        let priority = current.priority;
        let outcome = match &current.command {
            Command::Insert { name, salary } => CommandResult::Inserted(
                table.insert(name.as_str(), *salary, priority),
            ),
            Command::Delete { name } => CommandResult::Deleted(table.delete(name.as_str(), priority)),
            Command::Update { name, salary } => CommandResult::Updated(
                table.update_salary(name.as_str(), *salary, priority),
            ),
            Command::Search { name } => CommandResult::Searched(
                table.search(name.as_str(), priority),
            ),
            Command::Print => CommandResult::Printed(table.get_all_records(priority)),
        };
        proof {
            let here = cmds.deep_view()[i as int];
            assert(table.logger.history@ =~= l0.history@ + worker_trace(index, here));
            assert(table@ == apply_command(state_before, here.command));
            assert(result_matches(state_before, here.command, outcome));
            lemma_batch_trace_snoc(cmds.deep_view().take(i as int), here, 0);
            lemma_batch_apply_snoc(init_state, cmds.deep_view().take(i as int), here);
            assert(cmds.deep_view().take(i + 1) =~= cmds.deep_view().take(i as int).push(here));
            assert(init_hist + batch_trace(cmds.deep_view().take(i + 1), 0) =~= (init_hist
                + batch_trace(cmds.deep_view().take(i as int), 0)) + worker_trace(index, here));
        }
        results.push(outcome);
        i = i + 1;
    }
    proof {
        assert(cmds.deep_view().take(cmds@.len() as int) =~= cmds.deep_view());
    }
    results
}

} // verus!
