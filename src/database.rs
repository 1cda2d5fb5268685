use vstd::prelude::*;

use crate::query::{Atom, AtomV, Query, Term, TermV};
use crate::table::{Table, TableV, strings_v};

verus! {

/// The five relations of the database.
pub open spec fn is_relation(name: Seq<char>) -> bool {
    name == "beers"@ || name == "breweries"@ || name == "categories"@ || name == "locations"@
        || name == "styles"@
}

/// The attribute names after renaming by an atom: a variable names its position, a constant
/// leaves the name as it was.
pub open spec fn renamed_schema(terms: Seq<TermV>, schema: Seq<Seq<char>>) -> Seq<Seq<char>> {
    Seq::new(
        schema.len(),
        |i: int|
            if i < terms.len() && terms[i] is Variable {
                terms[i]->Variable_0
            } else {
                schema[i]
            },
    )
}

/// The relations, by name; the evaluator replaces their contents, never their names.
#[derive(Debug)]
pub struct Database {
    pub beers: Table,
    pub breweries: Table,
    pub categories: Table,
    pub locations: Table,
    pub styles: Table,
}

/// Whether two strings hold the same characters.
pub fn same_text(a: &str, b: &str) -> (r: bool)
    ensures
        r == (a@ == b@),
{
    let n = a.unicode_len();
    if n != b.unicode_len() {
        return false;
    }
    let mut i: usize = 0;
    while i < n
        invariant
            n == a@.len(),
            n == b@.len(),
            i <= n,
            forall|k: int| 0 <= k < i ==> a@[k] == b@[k],
        decreases n - i,
    {
        if a.get_char(i) != b.get_char(i) {
            return false;
        }
        i = i + 1;
    }
    assert(a@ =~= b@);
    true
}

/// The five relation names are distinct.
pub proof fn lemma_relation_names()
    ensures
        "beers"@ != "breweries"@,
        "beers"@ != "categories"@,
        "beers"@ != "locations"@,
        "beers"@ != "styles"@,
        "breweries"@ != "categories"@,
        "breweries"@ != "locations"@,
        "breweries"@ != "styles"@,
        "categories"@ != "locations"@,
        "categories"@ != "styles"@,
        "locations"@ != "styles"@,
{
    reveal_strlit("beers");
    reveal_strlit("breweries");
    reveal_strlit("categories");
    reveal_strlit("locations");
    reveal_strlit("styles");
    assert("beers"@[1] != "breweries"@[1]);
    assert("beers"@[0] != "categories"@[0]);
    assert("beers"@[0] != "locations"@[0]);
    assert("beers"@[0] != "styles"@[0]);
    assert("breweries"@[0] != "categories"@[0]);
    assert("breweries"@[0] != "locations"@[0]);
    assert("breweries"@[0] != "styles"@[0]);
    assert("categories"@[0] != "locations"@[0]);
    assert("categories"@[0] != "styles"@[0]);
    assert("locations"@[0] != "styles"@[0]);
}

impl Database {
    /// The table of each relation.
    pub open spec fn view(&self) -> Map<Seq<char>, TableV> {
        map![
            "beers"@ => self.beers@,
            "breweries"@ => self.breweries@,
            "categories"@ => self.categories@,
            "locations"@ => self.locations@,
            "styles"@ => self.styles@,
        ]
    }

    pub open spec fn wf(&self) -> bool {
        &&& self.beers.wf()
        &&& self.breweries.wf()
        &&& self.categories.wf()
        &&& self.locations.wf()
        &&& self.styles.wf()
    }

    /// The table of the relation `name`.
    pub fn get_table(&self, name: &str) -> (r: &Table)
        requires
            is_relation(name@),
        ensures
            r@ == self@[name@],
            self@.dom().contains(name@),
            self.wf() ==> r.wf(),
    {
        proof {
            lemma_relation_names();
        }
        if same_text(name, "beers") {
            &self.beers
        } else if same_text(name, "breweries") {
            &self.breweries
        } else if same_text(name, "categories") {
            &self.categories
        } else if same_text(name, "locations") {
            &self.locations
        } else {
            &self.styles
        }
    }

    /// Replaces the attributes and rows of the relation `name` by those of `table`; the
    /// relation keeps its name.
    pub fn set_table(&mut self, name: &str, table: Table)
        requires
            is_relation(name@),
        ensures
            final(self)@ == old(self)@.insert(
                name@,
                TableV { name: old(self)@[name@].name, schema: table@.schema, rows: table@.rows },
            ),
            old(self).wf() && table.wf() ==> final(self).wf(),
    {
        proof {
            lemma_relation_names();
        }
        let Table { name: _, schema, rows } = table;
        if same_text(name, "beers") {
            self.beers.set_data(schema, rows);
        } else if same_text(name, "breweries") {
            self.breweries.set_data(schema, rows);
        } else if same_text(name, "categories") {
            self.categories.set_data(schema, rows);
        } else if same_text(name, "locations") {
            self.locations.set_data(schema, rows);
        } else {
            self.styles.set_data(schema, rows);
        }
        assert(self@ =~= old(self)@.insert(
            name@,
            TableV { name: old(self)@[name@].name, schema: table@.schema, rows: table@.rows },
        ));
    }
}

impl Clone for Database {
    fn clone(&self) -> (r: Self)
        ensures
            r@ == self@,
            self.wf() ==> r.wf(),
    {
        Database {
            beers: self.beers.clone(),
            breweries: self.breweries.clone(),
            categories: self.categories.clone(),
            locations: self.locations.clone(),
            styles: self.styles.clone(),
        }
    }
}

/// The database after renaming by each atom of `body` in turn.
pub open spec fn rename_v(db: Map<Seq<char>, TableV>, body: Seq<AtomV>) -> Map<Seq<char>, TableV>
    decreases body.len(),
{
    if body.len() == 0 {
        db
    } else {
        let d = rename_v(db, body.drop_last());
        let a = body.last();
        d.insert(a.name, TableV { schema: renamed_schema(a.terms, d[a.name].schema), ..d[a.name] })
    }
}

/// The attribute names of `table` renamed by `atom`.
fn renamed(atom: &Atom, table: &Table) -> (r: Vec<String>)
    ensures
        strings_v(r@) == renamed_schema(atom@.terms, table@.schema),
{
    let mut schema: Vec<String> = Vec::new();
    let mut i: usize = 0;
    while i < table.schema.len()
        invariant
            i <= table.schema.len(),
            schema.len() == i,
            forall|k: int| 0 <= k < i ==> (#[trigger] schema@[k])@ == renamed_schema(atom@.terms, table@.schema)[k],
        decreases table.schema.len() - i,
    {
        let name = if i < atom.terms.len() {
            assert(atom@.terms[i as int] == atom.terms@[i as int]@);
            match &atom.terms[i] {
                Term::Variable(v) => v.clone(),
                Term::Constant(_) => table.schema[i].clone(),
            }
        } else {
            table.schema[i].clone()
        };
        schema.push(name);
        i = i + 1;
    }
    assert(strings_v(schema@) =~= renamed_schema(atom@.terms, table@.schema));
    schema
}

impl Database {
    /// Renames, for each body atom in turn, the attributes of its relation: a variable gives
    /// its name to its position, a constant leaves the name as it was.
    pub fn rename(&mut self, query: &Query)
        requires
            forall|k: int| 0 <= k < query@.body.len() ==> is_relation((#[trigger] query@.body[k]).name),
        ensures
            final(self)@ == rename_v(old(self)@, query@.body),
            old(self).wf() ==> final(self).wf(),
    {
        let ghost body = query@.body;
        let mut i: usize = 0;
        while i < query.body.len()
            invariant
                body == query@.body,
                forall|k: int| 0 <= k < body.len() ==> is_relation((#[trigger] body[k]).name),
                i <= query.body.len(),
                self@ == rename_v(old(self)@, body.take(i as int)),
                old(self).wf() ==> self.wf(),
            decreases query.body.len() - i,
        {
            let atom = &query.body[i];
            assert(body[i as int] == atom@);
            let table = self.get_table(atom.relation_name.as_str());
            let schema = renamed(atom, table);
            let mut new_table = table.clone();
            let rows = crate::table::clone_rows(&table.rows);
            new_table.set_data(schema, rows);
            proof {
                let next = body.take(i + 1);
                assert(next.drop_last() =~= body.take(i as int));
                if old(self).wf() {
                    assert(table.wf());
                    assert forall|k: int| 0 <= k < new_table@.rows.len() implies (#[trigger] new_table@.rows[k]).len() == new_table@.schema.len() by {
                        assert(new_table@.rows[k] == table@.rows[k]);
                    }
                }
            }
            self.set_table(atom.relation_name.as_str(), new_table);
            i = i + 1;
        }
        assert(body.take(query.body.len() as int) =~= body);
    }
}

} // verus!
