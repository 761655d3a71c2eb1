//! The table catalog: names mapped to schemas and index root pages.

use vstd::prelude::*;
use crate::page::PageId;

verus! {

/// Column type of a table column.
#[derive(Debug, Clone, Copy, PartialEq, Eq, Structural)]
pub enum DataType {
    Integer,
    Text,
    Boolean,
}

/// One column of a table.
#[derive(Debug, Clone)]
pub struct ColumnDef {
    pub name: String,
    pub data_type: DataType,
    pub nullable: bool,
}

/// A table: its name, columns, and the root page of its ordered index.
#[derive(Debug, Clone)]
pub struct TableSchema {
    pub name: String,
    pub columns: Vec<ColumnDef>,
    pub root_page_id: PageId,
}

/// The catalog: every known table, names unique.
pub struct Catalog {
    pub tables: Vec<TableSchema>,
}

impl Catalog {
    /// Whether a table of this name is recorded.
    pub open spec fn spec_contains(self, name: Seq<char>) -> bool {
        exists|i: int| 0 <= i < self.tables@.len() && (#[trigger] self.tables@[i]).name@ == name
    }

    /// Table names are unique.
    pub open spec fn wf(self) -> bool {
        forall|i: int, j: int|
            0 <= i < j < self.tables@.len() ==> (#[trigger] self.tables@[i]).name@ != (
            #[trigger] self.tables@[j]).name@
    }

    /// An empty catalog.
    pub fn new() -> (c: Catalog)
        ensures
            c.tables@.len() == 0,
            c.wf(),
            forall|n: Seq<char>| !c.spec_contains(n),
    {
        Catalog { tables: Vec::new() }
    }

    /// Position of the named table, if recorded.
    pub fn find_table(&self, name: &String) -> (r: Option<usize>)
        ensures
            match r {
                Some(i) => i < self.tables@.len() && self.tables@[i as int].name@ == name@
                    && self.spec_contains(name@),
                None => !self.spec_contains(name@),
            },
    {
        let n = self.tables.len();
        let mut i: usize = 0;
        while i < n
            invariant
                i <= n,
                n == self.tables@.len(),
                forall|j: int| 0 <= j < i ==> (#[trigger] self.tables@[j]).name@ != name@,
            decreases n - i,
        {
            if self.tables[i].name == *name {
                return Some(i);
            }
            i = i + 1;
        }
        None
    }

    /// Records a new table; the name must not be taken.
    pub fn add_table(&mut self, schema: TableSchema)
        requires
            old(self).wf(),
            !old(self).spec_contains(schema.name@),
        ensures
            final(self).wf(),
            final(self).tables@ == old(self).tables@.push(schema),
            final(self).spec_contains(schema.name@),
            forall|n: Seq<char>|
                n != schema.name@ ==> (#[trigger] final(self).spec_contains(n) <==> old(
                    self,
                ).spec_contains(n)),
    {
        self.tables.push(schema);
        proof {
            let ts = self.tables@;
            assert(ts[ts.len() - 1].name@ == schema.name@);
            assert forall|n: Seq<char>| n != schema.name@ && #[trigger] self.spec_contains(
                n,
            ) implies old(self).spec_contains(n) by {
                let i = choose|i: int| 0 <= i < ts.len() && (#[trigger] ts[i]).name@ == n;
                assert(i < old(self).tables@.len());
                assert(old(self).tables@[i].name@ == n);
            }
            assert forall|n: Seq<char>| #[trigger] old(self).spec_contains(n) implies self
                .spec_contains(n) by {
                let i = choose|i: int|
                    0 <= i < old(self).tables@.len() && (#[trigger] old(self).tables@[i]).name@
                        == n;
                assert(ts[i].name@ == n);
            }
        }
    }
}

} // verus!
