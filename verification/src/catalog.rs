//! The catalog: which tables exist, under which names and numbers.

use vstd::prelude::*;
use vstd::string::StringExecFns;

verus! {

/// The columns of a table. Nothing is recorded of them yet.
pub struct Schema {}

impl Clone for Schema {
    fn clone(&self) -> (r: Self)
        ensures
            r == *self,
    {
        Schema {  }
    }
}

/// What the catalog knows of one table.
pub struct TableMetadata {
    pub schema: Schema,
    pub name: String,
    pub id: usize,
}

impl Clone for TableMetadata {
    fn clone(&self) -> (r: Self)
        ensures
            r.schema == self.schema,
            r.name@ == self.name@,
            r.id == self.id,
    {
        TableMetadata { schema: self.schema.clone(), name: self.name.clone(), id: self.id }
    }
}

/// The tables of a database, each under its own name, numbered in the order
/// in which they were created.
pub struct Catalog {
    tables: Vec<TableMetadata>,
}

impl Catalog {
    /// The names of the tables, by table number.
    pub closed spec fn names(&self) -> Seq<Seq<char>> {
        Seq::new(self.tables@.len(), |i: int| self.tables@[i].name@)
    }

    /// The catalog's invariant: no two tables share a name, and every table
    /// knows its own number.
    pub closed spec fn wf(&self) -> bool {
        &&& self.names().no_duplicates()
        &&& forall|i: int| 0 <= i < self.tables@.len() ==> (#[trigger] self.tables@[i]).id == i
    }

    /// A catalog without tables.
    pub fn new() -> (c: Self)
        ensures
            c.wf(),
            c.names() == Seq::<Seq<char>>::empty(),
    {
        let c = Catalog { tables: Vec::new() };
        assert(c.names() =~= Seq::<Seq<char>>::empty());
        c
    }

    /// The number of the table called `name`, if there is one.
    fn find(&self, name: &str) -> (r: Option<usize>)
        requires
            self.wf(),
        ensures
            match r {
                Some(i) => i < self.names().len() && self.names()[i as int] == name@,
                None => !self.names().contains(name@),
            },
    {
        let wanted = String::from_str(name);
        let mut i: usize = 0;
        while i < self.tables.len()
            invariant
                i <= self.tables.len(),
                wanted@ == name@,
                forall|j: int| 0 <= j < i ==> self.names()[j] != name@,
            decreases self.tables.len() - i,
        {
            if self.tables[i].name == wanted {
                return Some(i);
            }
            i += 1;
        }
        None
    }

    /// Creates the table `name` and returns its number, which is the number
    /// of tables created before it. Refused, with nothing changed, where a
    /// table of that name exists.
    pub fn create_table(&mut self, name: &str, schema: &Schema) -> (r: Result<usize, &str>)
        requires
            old(self).wf(),
        ensures
            final(self).wf(),
            old(self).names().contains(name@) ==> (r matches Err(reason) && reason@ == ""@)
                && final(self).names() == old(self).names(),
            !old(self).names().contains(name@) ==> r == Ok::<usize, &str>(
                old(self).names().len() as usize,
            ) && final(self).names() == old(self).names().push(name@),
    {
        if self.find(name).is_some() {
            Err("")
        } else {
            let id = self.tables.len();
            self.tables.push(
                TableMetadata { schema: schema.clone(), name: String::from_str(name), id },
            );
            proof {
                assert(self.names() =~= old(self).names().push(name@));
                assert forall|i: int, j: int|
                    0 <= i < self.names().len() && 0 <= j < self.names().len() && i
                        != j implies self.names()[i] != self.names()[j] by {
                    if i < id {
                        assert(old(self).names().contains(old(self).names()[i]));
                    }
                    if j < id {
                        assert(old(self).names().contains(old(self).names()[j]));
                    }
                }
            }
            Ok(id)
        }
    }

    /// What the catalog knows of the table `name`, if there is one.
    pub fn get_table(&self, name: &str) -> (r: Option<TableMetadata>)
        requires
            self.wf(),
        ensures
            r is Some <==> self.names().contains(name@),
            r matches Some(table) ==> (table.name@ == name@ && table.id < self.names().len()
                && self.names()[table.id as int] == name@),
    {
        match self.find(name) {
            Some(id) => Some(self.tables[id].clone()),
            None => None,
        }
    }

    /// Indices are not kept yet: this does nothing.
    pub fn create_index(&self, name: &str, table: &str) {
    }

    /// Indices are not kept yet: this finds nothing and says nothing.
    pub fn get_index(&self, name: &str, table: &str) {
    }

    /// Indices are not kept yet: this finds nothing and says nothing.
    pub fn get_table_indices(&self, table: &str) {
    }
}

} // verus!
