//! The column schema that drives typed row decoding: tables of named,
//! typed columns, provided by an external schema source.

use crate::error::ArchiveError;
use crate::strutil::{eq_ignore_ascii_case, str_chars, str_eq_ignore_ascii_case};
use vstd::prelude::*;

verus! {

/// A whole schema: its version, creation time, and tables.
#[derive(Debug, Clone)]
pub struct Schema {
    pub version: u32,
    pub created_at: u64,
    pub tables: Vec<Table>,
    pub enumeration: Option<Vec<Enumeration>>,
}

/// One table: its name and ordered column descriptors.
#[derive(Debug, Clone)]
pub struct Table {
    pub name: String,
    pub columns: Vec<Column>,
    pub tags: Option<Vec<String>>,
    pub valid_for: Option<u32>,
}

/// One column: its declared type name decides the fixed width and the
/// decoding of its cells.
#[derive(Debug, Clone)]
pub struct Column {
    pub name: Option<String>,
    pub description: Option<String>,
    pub array: bool,
    pub column_type: String,
    pub unique: bool,
    pub localized: bool,
    pub references: Option<TableReference>,
}

/// A foreign-row reference: the referenced table, and the column within it
/// (or the row index when absent).
#[derive(Debug, Clone)]
pub struct TableReference {
    pub table: String,
    pub column: Option<String>,
}

/// A named enumeration of the schema.
#[derive(Debug, Clone)]
pub struct Enumeration {
    pub name: String,
    pub enumerators: Vec<String>,
}

/// True when table `t` answers to `name`, case-insensitively.
pub open spec fn table_matches(t: Table, name: Seq<char>) -> bool {
    eq_ignore_ascii_case(t.name@, name)
}

/// The version a table claims to be valid for; absent means zero.
pub open spec fn table_valid_for(t: Table) -> u32 {
    match t.valid_for {
        Some(v) => v,
        None => 0,
    }
}

/// The index of the best match for `name` among the first `k` tables: the
/// earliest matching table with the greatest `valid_for`.
pub open spec fn best_table_in_prefix(tables: Seq<Table>, name: Seq<char>, k: int) -> Option<int>
    decreases k,
{
    if k <= 0 {
        None
    } else {
        let prev = best_table_in_prefix(tables, name, k - 1);
        if !table_matches(tables[k - 1], name) {
            prev
        } else {
            match prev {
                None => Some(k - 1),
                Some(j) => if table_valid_for(tables[k - 1]) > table_valid_for(tables[j]) {
                    Some(k - 1)
                } else {
                    Some(j)
                },
            }
        }
    }
}

impl Schema {
    /// Looks `name` up among the tables, case-insensitively, preferring the
    /// highest `valid_for` and, among equals, the earliest table. Fails with
    /// `TableNotFound` exactly when no table matches.
    pub fn lookup_table(&self, name: &str) -> (r: Result<&Table, ArchiveError>)
        ensures
            match r {
                Ok(t) => {
                    &&& best_table_in_prefix(
                        self.tables@,
                        name@,
                        self.tables@.len() as int,
                    ) matches Some(k) && *t == self.tables@[k]
                },
                Err(e) => {
                    &&& e == ArchiveError::TableNotFound
                    &&& best_table_in_prefix(
                        self.tables@,
                        name@,
                        self.tables@.len() as int,
                    ) is None
                },
            },
    {
        let target = str_chars(name);
        let n = self.tables.len();
        let mut best: Option<usize> = None;
        let mut i: usize = 0;
        while i < n
            invariant
                n == self.tables@.len(),
                i <= n,
                target@ == name@,
                match best {
                    Some(b) => b < i && best_table_in_prefix(self.tables@, name@, i as int)
                        == Some(b as int),
                    None => best_table_in_prefix(self.tables@, name@, i as int) is None,
                },
            decreases n - i,
        {
            if str_eq_ignore_ascii_case(self.tables[i].name.as_str(), &target) {
                match best {
                    Some(b) => {
                        let vf_new = match self.tables[i].valid_for {
                            Some(v) => v,
                            None => 0,
                        };
                        let vf_old = match self.tables[b].valid_for {
                            Some(v) => v,
                            None => 0,
                        };
                        if vf_new > vf_old {
                            best = Some(i);
                        }
                    },
                    None => {
                        best = Some(i);
                    },
                }
            }
            i = i + 1;
        }
        match best {
            Some(b) => Ok(&self.tables[b]),
            None => Err(ArchiveError::TableNotFound),
        }
    }
}

} // verus!
