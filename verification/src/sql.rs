//! Parsing of SQL text into syntax trees, by the `sqlparser` crate.

use vstd::prelude::*;
use vstd::string::StringExecFns;

verus! {

/// A parsed SQL statement. What is inside is `sqlparser`'s business.
#[verifier::external_type_specification]
#[verifier::external_body]
pub struct ExStatement(sqlparser::ast::Statement);

/// Why a text is no SQL.
pub enum SqlError {
    /// The text could not be cut into tokens.
    Tokenizer(String),
    /// The tokens make no statement.
    Parser(String),
    /// The text is nested too deeply.
    RecursionLimitExceeded,
}

/// Why a text is no SQL, with the messages as sequences of characters.
pub enum SqlErrorView {
    Tokenizer(Seq<char>),
    Parser(Seq<char>),
    RecursionLimitExceeded,
}

impl View for SqlError {
    type V = SqlErrorView;

    open spec fn view(&self) -> SqlErrorView {
        match self {
            SqlError::Tokenizer(message) => SqlErrorView::Tokenizer(message@),
            SqlError::Parser(message) => SqlErrorView::Parser(message@),
            SqlError::RecursionLimitExceeded => SqlErrorView::RecursionLimitExceeded,
        }
    }
}

/// The error with which `sqlparser`, in its generic dialect, refuses the
/// text `sql`; `None` where it takes the text for SQL.
pub uninterp spec fn sql_error_of(sql: Seq<char>) -> Option<SqlErrorView>;

/// `sqlparser::parser::Parser::parse_sql` with `GenericDialect`: the
/// statements of `sql`, or the parser's error, variant by variant. Whether a
/// text is taken, and with which error it is refused, depends on the text
/// alone; which texts are taken is not stated here, nor what the statements
/// hold.
#[verifier::external_body]
fn parse_generic(sql: &str) -> (r: Result<Vec<sqlparser::ast::Statement>, SqlError>)
    ensures
        match r {
            Ok(_) => sql_error_of(sql@) is None,
            Err(e) => sql_error_of(sql@) == Some(e@),
        },
{
    match sqlparser::parser::Parser::parse_sql(&sqlparser::dialect::GenericDialect {}, sql) {
        Ok(ast) => Ok(ast),
        Err(sqlparser::parser::ParserError::TokenizerError(s)) => Err(SqlError::Tokenizer(s)),
        Err(sqlparser::parser::ParserError::ParserError(s)) => Err(SqlError::Parser(s)),
        Err(sqlparser::parser::ParserError::RecursionLimitExceeded) => Err(
            SqlError::RecursionLimitExceeded,
        ),
    }
}

/// The line that reports `e`.
pub open spec fn failure_text(e: SqlErrorView) -> Seq<char> {
    "Parsing failed: sql parser error: "@ + match e {
        SqlErrorView::Tokenizer(message) => message,
        SqlErrorView::Parser(message) => message,
        SqlErrorView::RecursionLimitExceeded => "recursion limit exceeded"@,
    }
}

/// Turns what the parser gave into what the engine works with: the
/// statements as they are, and an error as the line that reports it.
pub fn parse_outcome(parsed: Result<Vec<sqlparser::ast::Statement>, SqlError>) -> (r: Result<
    Vec<sqlparser::ast::Statement>,
    String,
>)
    ensures
        match parsed {
            Ok(ast) => r == Ok::<Vec<sqlparser::ast::Statement>, String>(ast),
            Err(e) => r matches Err(line) && line@ == failure_text(e@),
        },
{
    match parsed {
        Ok(ast) => Ok(ast),
        Err(err) => {
            let head = String::from_str("Parsing failed: sql parser error: ");
            let line = match err {
                SqlError::Tokenizer(message) => head.concat(message.as_str()),
                SqlError::Parser(message) => head.concat(message.as_str()),
                SqlError::RecursionLimitExceeded => head.concat("recursion limit exceeded"),
            };
            Err(line)
        },
    }
}

/// Parses `sql` into its statements. A text that is no SQL gives the line
/// that reports why.
pub fn parse_sql_statement(sql: &str) -> (r: Result<Vec<sqlparser::ast::Statement>, String>)
    ensures
        match sql_error_of(sql@) {
            None => r is Ok,
            Some(e) => r matches Err(line) && line@ == failure_text(e),
        },
{
    parse_outcome(parse_generic(sql))
}

} // verus!
