//! SQL text to syntax tree, through the sqlparser crate: text goes in, an
//! abstract statement or a parse error comes out. The parsing itself is
//! the outside crate's; this module fixes only which statement is returned
//! and exactly when each error is.

use vstd::prelude::*;

verus! {

#[verifier::external_type_specification]
#[verifier::external_body]
pub struct ExStatement(sqlparser::ast::Statement);

#[verifier::external_type_specification]
#[verifier::external_body]
pub struct ExParserError(sqlparser::parser::ParserError);

/// Why `parse_sql` returned no statement: the text did not parse, or it
/// parsed to an empty statement list.
#[derive(Debug)]
pub enum ParseSqlError {
    Syntax(sqlparser::parser::ParserError),
    Empty,
}

/// How many statements a piece of SQL text parses to under the generic
/// dialect: `None` when the text does not parse. The parser is a function
/// of the text alone, so the outcome is too.
pub uninterp spec fn sql_statement_count(text: Seq<char>) -> Option<nat>;

/// Parses SQL text into the list of statements it holds.
///
/// Relies on sqlparser's `Parser::parse_sql` with `GenericDialect`: it
/// deterministically returns the statements parsed from the text, or a
/// parse error; `sql_statement_count` names the outcome.
#[verifier::external_body]
fn parse_statements(query: &str) -> (r: Result<
    Vec<sqlparser::ast::Statement>,
    sqlparser::parser::ParserError,
>)
    ensures
        r is Ok <==> sql_statement_count(query@) is Some,
        r matches Ok(v) ==> sql_statement_count(query@) == Some(v@.len() as nat),
{
    sqlparser::parser::Parser::parse_sql(&sqlparser::dialect::GenericDialect {}, query)
}

/// Parses SQL text and returns its first statement. Text that parses to no
/// statement at all yields the explicit `Empty` error; text that does not
/// parse yields the parser's error.
pub fn parse_sql(query: &str) -> (r: Result<sqlparser::ast::Statement, ParseSqlError>)
    ensures
        r is Ok <==> (sql_statement_count(query@) matches Some(n) && n >= 1),
        (r matches Err(ParseSqlError::Empty)) <==> sql_statement_count(query@) == Some(0nat),
        (r matches Err(ParseSqlError::Syntax(_))) <==> sql_statement_count(query@) is None,
{
    match parse_statements(query) {
        Ok(mut v) => {
            if v.len() == 0 {
                Err(ParseSqlError::Empty)
            } else {
                Ok(v.remove(0))
            }
        },
        Err(e) => Err(ParseSqlError::Syntax(e)),
    }
}

} // verus!
