//! The prompt's language: meta commands, which start with a backslash, and
//! the first words of SQL statements.

use vstd::prelude::*;
use vstd::string::{StrSliceExecFns, StringExecFns, StringSliceAdditionalSpecFns};
use vstd::utf8::decode_utf8;

verus! {

/// A statement as far as the prompt understands it.
pub enum PreparedStatement {
    Select,
    Insert,
    Update,
    Delete,
    CreateTable(String),
    DropTable(String),
}

/// A statement, with the table names as sequences of characters.
pub enum PreparedView {
    Select,
    Insert,
    Update,
    Delete,
    CreateTable(Seq<char>),
    DropTable(Seq<char>),
}

impl View for PreparedStatement {
    type V = PreparedView;

    open spec fn view(&self) -> PreparedView {
        match self {
            PreparedStatement::Select => PreparedView::Select,
            PreparedStatement::Insert => PreparedView::Insert,
            PreparedStatement::Update => PreparedView::Update,
            PreparedStatement::Delete => PreparedView::Delete,
            PreparedStatement::CreateTable(name) => PreparedView::CreateTable(name@),
            PreparedStatement::DropTable(name) => PreparedView::DropTable(name@),
        }
    }
}

/// What a meta command asks for.
#[derive(Clone, Copy, PartialEq, Eq, Structural, Debug)]
pub enum MetaCommand {
    /// Show the overview of commands.
    Help,
    /// Leave the prompt.
    Quit,
    /// Anything else.
    Unrecognized,
}

/// The lower-case form of `s`, as `str::to_lowercase` gives it.
pub uninterp spec fn lowercase_of(s: Seq<char>) -> Seq<char>;

/// `str::to_lowercase` of the standard library: the lower-case form of `s`
/// by the Unicode rules, which depends on nothing but `s`. What that form is
/// for a given `s` is not stated here.
#[verifier::external_body]
fn to_lowercase(s: &str) -> (r: String)
    ensures
        r@ == lowercase_of(s@),
{
    s.to_lowercase()
}

/// Where the word that starts at `from` ends: at the next space, or at the
/// end of `s`.
pub open spec fn word_end(s: Seq<char>, from: int) -> int
    decreases s.len() - from,
{
    if from < 0 || from >= s.len() || s[from] == ' ' {
        from
    } else {
        word_end(s, from + 1)
    }
}

/// The first word of `sql`.
pub open spec fn command_word(sql: Seq<char>) -> Seq<char> {
    sql.subrange(0, word_end(sql, 0))
}

/// Whether a space follows the first word of `sql`, so that there is a
/// second word, if only an empty one.
pub open spec fn has_subcommand(sql: Seq<char>) -> bool {
    word_end(sql, 0) < sql.len()
}

/// The second word of `sql`.
pub open spec fn subcommand_word(sql: Seq<char>) -> Seq<char> {
    sql.subrange(word_end(sql, 0) + 1, word_end(sql, word_end(sql, 0) + 1))
}

/// What follows the first `at` bytes of `sql`, where `sql` can be cut there.
pub open spec fn tail_from(sql: &str, at: usize) -> Option<Seq<char>> {
    if at <= sql.len() && sql.is_char_boundary(at) {
        Some(decode_utf8(sql.spec_bytes().subrange(at as int, sql.spec_bytes().len() as int)))
    } else {
        None
    }
}

/// Number of bytes before the table's name in `create table <name>`.
pub const CREATE_PREFIX: usize = 13;

/// Number of bytes before the table's name in `drop table <name>`.
pub const DROP_PREFIX: usize = 11;

/// Whether the statement `sql`, whose first word in lower case is `command`,
/// names what its command needs: a table, for `create` and `drop`.
pub open spec fn names_table(command: Seq<char>, sql: &str) -> bool {
    &&& command == "create"@ ==> tail_from(sql, CREATE_PREFIX) is Some
    &&& command == "drop"@ ==> tail_from(sql, DROP_PREFIX) is Some
}

/// The statement that `sql` stands for, given its first two words in lower
/// case, or the reason why it stands for none.
pub open spec fn statement_of(command: Seq<char>, subcommand: Seq<char>, sql: &str) -> Result<
    PreparedView,
    Seq<char>,
> {
    if command == "select"@ {
        Ok(PreparedView::Select)
    } else if command == "insert"@ {
        if subcommand != "into"@ {
            Err("Syntax Error: 'insert' keyword needs to be followed by 'into'"@)
        } else {
            Ok(PreparedView::Insert)
        }
    } else if command == "update"@ {
        Ok(PreparedView::Update)
    } else if command == "delete"@ {
        Ok(PreparedView::Delete)
    } else if command == "create"@ {
        Ok(PreparedView::CreateTable(tail_from(sql, CREATE_PREFIX).unwrap()))
    } else if command == "drop"@ {
        Ok(PreparedView::DropTable(tail_from(sql, DROP_PREFIX).unwrap()))
    } else {
        Err("Unknown SQL command: "@ + command)
    }
}

/// A result of preparing a statement, with strings as sequences of
/// characters.
pub open spec fn prepared_view(r: Result<PreparedStatement, String>) -> Result<PreparedView, Seq<char>> {
    match r {
        Ok(statement) => Ok(statement@),
        Err(message) => Err(message@),
    }
}

/// Whether `a` and `b` hold the same characters.
fn same_text(a: &str, b: &str) -> (r: bool)
    ensures
        r == (a@ == b@),
{
    String::from_str(a) == String::from_str(b)
}

/// What follows the first `at` bytes of `sql`, where `sql` can be cut there.
fn tail(sql: &str, at: usize) -> (r: Option<String>)
    ensures
        match r {
            Some(t) => tail_from(sql, at) == Some(t@),
            None => tail_from(sql, at) is None,
        },
{
    if at <= sql.len() && sql.is_char_boundary(at) {
        let t = sql.split_at(at).1;
        proof {
            vstd::utf8::encode_utf8_decode_utf8(t@);
            assert(t.spec_bytes() == sql.spec_bytes().subrange(
                at as int,
                sql.spec_bytes().len() as int,
            ));
            assert(decode_utf8(t.spec_bytes()) == t@);
        }
        Some(String::from_str(t))
    } else {
        None
    }
}

/// The ends of the first two words of `sql`, counted in characters; the
/// second is `None` where no space follows the first word.
fn word_ends(sql: &str) -> (r: (usize, Option<usize>))
    ensures
        r.0 == word_end(sql@, 0),
        r.0 <= sql@.len(),
        r.1 is Some <==> has_subcommand(sql@),
        r.1 matches Some(e) ==> r.0 < e <= sql@.len() && e == word_end(sql@, r.0 + 1),
{
    let n = sql.unicode_len();
    let mut i: usize = 0;
    let mut first: Option<usize> = None;
    let mut second: Option<usize> = None;
    for c in it: sql.chars()
        invariant
            n == sql@.len(),
            i == it.index(),
            it.seq() == sql@,
            i <= n,
            first is None ==> second is None && word_end(sql@, 0) == word_end(sql@, i as int),
            first matches Some(e) ==> e < i && e == word_end(sql@, 0),
            first matches Some(e) ==> (second is None ==> word_end(sql@, e + 1) == word_end(
                sql@,
                i as int,
            )),
            first matches Some(e) ==> (second matches Some(f) ==> e < f < i && f == word_end(
                sql@,
                e + 1,
            )),
    {
        if c == ' ' {
            if first.is_none() {
                first = Some(i);
            } else if second.is_none() {
                second = Some(i);
            }
        }
        i += 1;
    }
    match first {
        None => (n, None),
        Some(e) => match second {
            None => (e, Some(n)),
            Some(f) => (e, Some(f)),
        },
    }
}

/// The statement that `sql` stands for, given its first two words in lower
/// case: `select`, `update` and `delete` stand for themselves, `insert` must
/// be followed by `into`, and `create` and `drop` name a table behind their
/// first thirteen and eleven bytes. Any other command is refused by name.
pub fn classify_statement(command: &str, subcommand: &str, sql: &str) -> (r: Result<
    PreparedStatement,
    String,
>)
    requires
        names_table(command@, sql),
    ensures
        prepared_view(r) == statement_of(command@, subcommand@, sql),
{
    if same_text(command, "select") {
        Ok(PreparedStatement::Select)
    } else if same_text(command, "insert") {
        if !same_text(subcommand, "into") {
            Err(String::from_str("Syntax Error: 'insert' keyword needs to be followed by 'into'"))
        } else {
            Ok(PreparedStatement::Insert)
        }
    } else if same_text(command, "update") {
        Ok(PreparedStatement::Update)
    } else if same_text(command, "delete") {
        Ok(PreparedStatement::Delete)
    } else if same_text(command, "create") {
        Ok(PreparedStatement::CreateTable(tail(sql, CREATE_PREFIX).unwrap()))
    } else if same_text(command, "drop") {
        Ok(PreparedStatement::DropTable(tail(sql, DROP_PREFIX).unwrap()))
    } else {
        Err(String::from_str("Unknown SQL command: ").concat(command))
    }
}

/// Whether `sql` can be prepared: it has a second word, and it names a
/// table where its command needs one.
pub open spec fn preparable(sql: &str) -> bool {
    &&& has_subcommand(sql@)
    &&& names_table(lowercase_of(command_word(sql@)), sql)
}

/// Prepares the statement `sql`: its first two words, cut at spaces and put
/// into lower case, decide what it stands for.
pub fn prepare_statement(sql: &str) -> (r: Result<PreparedStatement, String>)
    requires
        preparable(sql),
    ensures
        prepared_view(r) == statement_of(
            lowercase_of(command_word(sql@)),
            lowercase_of(subcommand_word(sql@)),
            sql,
        ),
{
    let (first, second) = word_ends(sql);
    let command = to_lowercase(sql.substring_char(0, first));
    let subcommand = match second {
        Some(end) => to_lowercase(sql.substring_char(first + 1, end)),
        None => String::new(),
    };
    classify_statement(command.as_str(), subcommand.as_str(), sql)
}

/// Prepares the statement `sql` where it can be prepared, and returns
/// `None` where it cannot.
pub fn try_prepare_statement(sql: &str) -> (r: Option<Result<PreparedStatement, String>>)
    ensures
        r is Some <==> preparable(sql),
        r matches Some(prepared) ==> prepared_view(prepared) == statement_of(
            lowercase_of(command_word(sql@)),
            lowercase_of(subcommand_word(sql@)),
            sql,
        ),
{
    let (first, second) = word_ends(sql);
    if second.is_none() {
        return None;
    }
    let command = to_lowercase(sql.substring_char(0, first));
    if same_text(command.as_str(), "create") && tail(sql, CREATE_PREFIX).is_none() {
        return None;
    }
    if same_text(command.as_str(), "drop") && tail(sql, DROP_PREFIX).is_none() {
        return None;
    }
    Some(prepare_statement(sql))
}

/// What the prompt says that it would do with `statement`.
pub open spec fn statement_text(statement: PreparedView) -> Seq<char> {
    match statement {
        PreparedView::Select => "This is where we would do a select."@,
        PreparedView::Insert => "This is where we would do an insert."@,
        PreparedView::Update => "This is where we would do an update."@,
        PreparedView::Delete => "This is where we would do a delete."@,
        PreparedView::CreateTable(tbl) => "This is where we would create table "@ + tbl,
        PreparedView::DropTable(tbl) => "This is where we would drop table "@ + tbl,
    }
}

/// Executes `statement` as far as the engine can: it says what it would do.
/// The caller prints the line.
pub fn execute_statement(statement: PreparedStatement) -> (line: String)
    ensures
        line@ == statement_text(statement@),
{
    match statement {
        PreparedStatement::Select => String::from_str("This is where we would do a select."),
        PreparedStatement::Insert => String::from_str("This is where we would do an insert."),
        PreparedStatement::Update => String::from_str("This is where we would do an update."),
        PreparedStatement::Delete => String::from_str("This is where we would do a delete."),
        PreparedStatement::CreateTable(tbl) => String::from_str(
            "This is where we would create table ",
        ).concat(tbl.as_str()),
        PreparedStatement::DropTable(tbl) => String::from_str("This is where we would drop table ").concat(
            tbl.as_str(),
        ),
    }
}

/// What the meta command `cmd`, given without its backslash, asks for.
pub fn perform_meta_command(cmd: &str) -> (r: MetaCommand)
    ensures
        r == if cmd@ == "?"@ || cmd@ == "help"@ {
            MetaCommand::Help
        } else if cmd@ == "q"@ || cmd@ == "quit"@ {
            MetaCommand::Quit
        } else {
            MetaCommand::Unrecognized
        },
{
    if same_text(cmd, "?") || same_text(cmd, "help") {
        MetaCommand::Help
    } else if same_text(cmd, "q") || same_text(cmd, "quit") {
        MetaCommand::Quit
    } else {
        MetaCommand::Unrecognized
    }
}

/// What the prompt answers to a meta command that it does not know.
pub fn unrecognized_text(cmd: &str) -> (line: String)
    ensures
        line@ == "Unrecognized command '"@ + cmd@ + "'."@,
{
    String::from_str("Unrecognized command '").concat(cmd).concat("'.")
}

/// The meta command that the line `line` holds: what follows its leading
/// backslash, or `None` where it does not start with one.
pub fn meta_command_of(line: &str) -> (r: Option<&str>)
    ensures
        match r {
            Some(cmd) => line@.len() > 0 && line@[0] == '\\' && cmd@ == line@.subrange(
                1,
                line@.len() as int,
            ),
            None => line@.len() == 0 || line@[0] != '\\',
        },
{
    let n = line.unicode_len();
    if n > 0 && line.get_char(0) == '\\' {
        Some(line.substring_char(1, n))
    } else {
        None
    }
}

} // verus!
