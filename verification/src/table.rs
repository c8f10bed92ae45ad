//! References to tables, as the query engine reads them from text.

use vstd::prelude::*;

verus! {

/// A path to a table, with or without its schema and catalog. `T` is the type of
/// text: `String` in running code, `Seq<char>` in contracts.
#[derive(Debug, PartialEq, Eq)]
pub enum TableReference<T> {
    Bare { table: T },
    Partial { schema: T, table: T },
    Full { catalog: T, schema: T, table: T },
}

impl View for TableReference<String> {
    type V = TableReference<Seq<char>>;

    open spec fn view(&self) -> TableReference<Seq<char>> {
        match *self {
            TableReference::Bare { table } => TableReference::Bare { table: table@ },
            TableReference::Partial { schema, table } => TableReference::Partial {
                schema: schema@,
                table: table@,
            },
            TableReference::Full { catalog, schema, table } => TableReference::Full {
                catalog: catalog@,
                schema: schema@,
                table: table@,
            },
        }
    }
}

/// A lower-case SQL identifier that needs no quotes: `a`-`z`, `_` and, after the
/// first character, digits.
pub open spec fn is_plain_name(s: Seq<char>) -> bool {
    &&& s.len() > 0
    &&& !('0' <= s[0] <= '9')
    &&& forall|i: int|
        0 <= i < s.len() ==> {
            let c = #[trigger] s[i];
            'a' <= c <= 'z' || c == '_' || '0' <= c <= '9'
        }
}

/// What `datafusion::common::TableReference::parse_str` makes of a text.
pub uninterp spec fn parsed_table_reference(text: Seq<char>) -> TableReference<Seq<char>>;

/// Calls `datafusion::common::TableReference::parse_str`, which reads `text` as a SQL
/// identifier of one to three parts and lowers the case of what is not quoted; a text
/// that is no such identifier becomes, as a whole, a bare table name. It depends on
/// `text` alone. A plain lower-case name is its own bare reference; the rest of the
/// SQL grammar is left to the name.
#[verifier::external_body]
pub(crate) fn parse_table_reference(text: &str) -> (r: TableReference<String>)
    ensures
        r@ == parsed_table_reference(text@),
        is_plain_name(text@) ==> r@ == (TableReference::Bare { table: text@ }),
{
    match datafusion::common::TableReference::parse_str(text) {
        datafusion::common::TableReference::Bare { table } => {
            TableReference::Bare { table: table.to_string() }
        },
        datafusion::common::TableReference::Partial { schema, table } => {
            TableReference::Partial { schema: schema.to_string(), table: table.to_string() }
        },
        datafusion::common::TableReference::Full { catalog, schema, table } => TableReference::Full {
            catalog: catalog.to_string(),
            schema: schema.to_string(),
            table: table.to_string(),
        },
    }
}

/// A reference is seen as it stands: as many parts, each with its own text.
pub proof fn law_references_seen_as_they_stand(reference: TableReference<String>)
    ensures
        match reference {
            TableReference::Bare { table } => reference@ == (TableReference::Bare {
                table: table@,
            }),
            TableReference::Partial { schema, table } => reference@ == (TableReference::Partial {
                schema: schema@,
                table: table@,
            }),
            TableReference::Full { catalog, schema, table } => reference@ == (
            TableReference::Full { catalog: catalog@, schema: schema@, table: table@ }),
        },
{
}

} // verus!
