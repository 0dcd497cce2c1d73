//! The table schema: column lists that direct the `dat` decoder. The
//! schema document itself arrives as a structured value; only the lookup
//! logic lives here.
use vstd::prelude::*;
use vstd::string::StringExecFns;

use crate::text::{lower_of, to_lowercase};

verus! {

/// The scalar or array element type a column declares.
#[derive(Debug, Clone, Copy, PartialEq, Eq, Structural)]
pub enum ColumnType {
    Bool,
    String,
    I16,
    I32,
    U16,
    U32,
    F32,
    Array,
    Row,
    ForeignRow,
    EnumRow,
}

/// What a column references: a table's rows, or a column within one.
#[derive(Debug, Clone)]
pub enum Reference {
    RefUsingRowIndex { table: String },
    RefUsingColumn { table: String, column: String },
}

/// One column of a table.
#[derive(Debug, Clone)]
pub struct TableColumn {
    pub name: Option<String>,
    pub description: Option<String>,
    pub array: bool,
    pub ttype: ColumnType,
    pub unique: bool,
    pub localized: bool,
    pub until: Option<String>,
    pub references: Option<Reference>,
    pub file: Option<String>,
    pub files: Option<Vec<String>>,
}

/// One table: its name, columns in declared order, and tags.
#[derive(Debug, Clone)]
pub struct SchemaTable {
    pub name: String,
    pub columns: Vec<TableColumn>,
    pub tags: Vec<String>,
}

/// One enumeration of the schema.
#[derive(Debug, Clone)]
pub struct SchemaEnumeration {
    pub name: String,
    pub indexing: u8,
    pub enumerators: Vec<Option<String>>,
}

/// The whole schema document.
#[derive(Debug, Clone)]
pub struct SchemaFile {
    pub version: u32,
    pub created_at: u32,
    pub tables: Vec<SchemaTable>,
    pub enumerations: Vec<SchemaEnumeration>,
}

impl SchemaFile {
    /// Finds the first table whose lowercased name equals `table_name`,
    /// or `None` when no table's lowercased name matches.
    pub fn find_table(&self, table_name: &str) -> (r: Option<&SchemaTable>)
        ensures
            r matches Some(t) ==> exists|i: int|
                0 <= i < self.tables@.len() && *t == self.tables@[i] && lower_of(
                    #[trigger] self.tables@[i].name@,
                ) == table_name@ && (forall|j: int|
                    0 <= j < i ==> lower_of(#[trigger] self.tables@[j].name@) != table_name@),
            r is None ==> forall|i: int|
                0 <= i < self.tables@.len() ==> lower_of(#[trigger] self.tables@[i].name@)
                    != table_name@,
    {
        let n = self.tables.len();
        let needle = String::from_str(table_name);
        let mut i: usize = 0;
        while i < n
            invariant
                n == self.tables@.len(),
                i <= n,
                needle@ == table_name@,
                forall|k: int|
                    0 <= k < i ==> lower_of(#[trigger] self.tables@[k].name@) != table_name@,
            decreases n - i,
        {
            let lowered = to_lowercase(self.tables[i].name.as_str());
            if lowered.eq(&needle) {
                return Some(&self.tables[i]);
            }
            i = i + 1;
        }
        None
    }
}

} // verus!
