use vstd::prelude::*;

use crate::database::{Database, is_relation, same_text};
use crate::evaluator::{EvalError, answer_v, boolean_answer_v};
use crate::hypergraph::query_is_acyclic;
use crate::query::Query;
use crate::table::{Table, TableV, strings_v};

verus! {

/// What the program reports for one query.
#[derive(Debug)]
pub struct Answer {
    pub query_id: usize,
    pub is_acyclic: bool,
    pub bool_answer: Option<bool>,
    pub x: Vec<Option<String>>,
    pub y: Vec<Option<String>>,
    pub z: Vec<Option<String>>,
    pub w: Vec<Option<String>>,
}

/// Whether the query is acyclic.
pub fn is_acyclic(query: &Query) -> (r: bool)
    ensures
        r == query_is_acyclic(query@.body),
{
    query.is_acyclic()
}

/// The answer of a boolean query; `None` for a query with head terms.
pub fn bool_answer(query: &Query, database: &Database) -> (r: Result<Option<bool>, EvalError>)
    requires
        database.wf(),
    ensures
        query@.head.terms.len() != 0 ==> r matches Ok(None),
        query@.head.terms.len() == 0 ==> !(r matches Ok(None)),
        query@.head.terms.len() == 0 && (forall|k: int|
            0 <= k < query@.body.len() ==> is_relation(#[trigger] query@.body[k].name))
            && !query_is_acyclic(query@.body) ==> r matches Ok(Some(false)),
        query@.head.terms.len() == 0 && (forall|k: int|
            0 <= k < query@.body.len() ==> is_relation(#[trigger] query@.body[k].name))
            && query_is_acyclic(query@.body) ==> match boolean_answer_v(query@, database@) {
            Some(b) => r == Ok::<Option<bool>, EvalError>(Some(b)),
            None => r is Err,
        },
{
    if query.is_boolean() {
        match query.yannakakis_boolean(database) {
            Ok(b) => Ok(Some(b)),
            Err(e) => Err(e),
        }
    } else {
        Ok(None)
    }
}

/// The cells of column `i` of a table, top to bottom; empty when there is no such column.
fn column_or_empty(table: &Table, i: usize) -> (r: Vec<Option<String>>)
    requires
        table.wf(),
    ensures
        i < table@.schema.len() ==> r@ == table@.rows.map_values(|row: Seq<Option<String>>| row[i as int]),
        i >= table@.schema.len() ==> r@.len() == 0,
{
    match table.get_column(&i) {
        Some(col) => col,
        None => Vec::new(),
    }
}

/// `col` is column `i` of `t`, top to bottom, or empty when `t` has no such column.
pub open spec fn columns_match(col: Seq<Option<String>>, t: TableV, i: int) -> bool {
    if 0 <= i < t.schema.len() {
        col == t.rows.map_values(|row: Seq<Option<String>>| row[i])
    } else {
        col.len() == 0
    }
}

/// The first four columns of the answer table of a query that is not boolean; four empty
/// columns for a boolean query.
pub fn answers_query(query: &Query, database: &Database) -> (r: Result<Vec<Vec<Option<String>>>, EvalError>)
    requires
        database.wf(),
    ensures
        r matches Ok(cols) ==> cols.len() == 4,
        query@.head.terms.len() == 0 ==> (r matches Ok(cols) && forall|i: int| 0 <= i < 4 ==> (#[trigger] cols[i]).len() == 0),
        query@.head.terms.len() != 0 && (forall|k: int|
            0 <= k < query@.body.len() ==> is_relation(#[trigger] query@.body[k].name))
            && query_is_acyclic(query@.body) ==> match answer_v(query@, database@) {
            Some(a) => r matches Ok(cols) && forall|i: int| 0 <= i < 4 ==> columns_match(#[trigger] cols[i]@, a, i),
            None => r is Err,
        },
{
    if query.is_boolean() {
        let r: Vec<Vec<Option<String>>> = vec![Vec::new(), Vec::new(), Vec::new(), Vec::new()];
        return Ok(r);
    }
    let table = match query.yannakakis(database) {
        Ok(t) => t,
        Err(e) => return Err(e),
    };
    let mut answer: Vec<Vec<Option<String>>> = Vec::new();
    let mut i: usize = 0;
    while i < 4
        invariant
            table.wf(),
            i <= 4,
            answer.len() == i,
            forall|j: int| 0 <= j < i ==> columns_match(#[trigger] answer@[j]@, table@, j),
        decreases 4 - i,
    {
        answer.push(column_or_empty(&table, i));
        i = i + 1;
    }
    Ok(answer)
}

/// The attributes of each relation, in order.
pub open spec fn attributes_of(name: Seq<char>) -> Seq<Seq<char>> {
    if name == "beers"@ {
        seq!["beer_id"@, "brew_id"@, "beer"@, "abv"@, "ibu"@, "ounces"@, "style"@, "style2"@]
    } else if name == "breweries"@ {
        seq![
            "brew_id"@,
            "brew_name"@,
            "address1"@,
            "address2"@,
            "city"@,
            "state"@,
            "code"@,
            "country"@,
            "phone"@,
            "website"@,
            "description"@,
        ]
    } else if name == "categories"@ {
        seq!["cat_id"@, "cat_name"@]
    } else if name == "locations"@ {
        seq!["loc_id"@, "brew_id"@, "latitude"@, "longitude"@, "accuracy"@]
    } else {
        seq!["style_id"@, "cat_id"@, "style"@]
    }
}

/// The attributes of a relation, in order; `None` for a name that is not a relation.
pub fn relation_attributes(name: &str) -> (r: Option<Vec<String>>)
    ensures
        r is Some <==> is_relation(name@),
        r matches Some(a) ==> strings_v(a@) == attributes_of(name@),
{
    proof {
        crate::database::lemma_relation_names();
    }
    let names: Vec<&str> = if same_text(name, "beers") {
        vec!["beer_id", "brew_id", "beer", "abv", "ibu", "ounces", "style", "style2"]
    } else if same_text(name, "breweries") {
        vec![
            "brew_id",
            "brew_name",
            "address1",
            "address2",
            "city",
            "state",
            "code",
            "country",
            "phone",
            "website",
            "description",
        ]
    } else if same_text(name, "categories") {
        vec!["cat_id", "cat_name"]
    } else if same_text(name, "locations") {
        vec!["loc_id", "brew_id", "latitude", "longitude", "accuracy"]
    } else if same_text(name, "styles") {
        vec!["style_id", "cat_id", "style"]
    } else {
        return None;
    };
    let ghost expected = attributes_of(name@);
    assert(names@.map_values(|s: &str| s@) =~= expected);
    let mut r: Vec<String> = Vec::new();
    let mut i: usize = 0;
    while i < names.len()
        invariant
            names@.map_values(|s: &str| s@) == expected,
            i <= names.len(),
            r.len() == i,
            forall|k: int| 0 <= k < i ==> (#[trigger] r@[k])@ == expected[k],
        decreases names.len() - i,
    {
        let s = String::from_str(names[i]);
        assert(names@.map_values(|s: &str| s@)[i as int] == names@[i as int]@);
        r.push(s);
        i = i + 1;
    }
    assert(strings_v(r@) =~= expected);
    Some(r)
}

/// A row of the styles relation.
#[derive(Debug)]
pub struct Styles {
    pub style_id: i32,
    pub cat_id: i32,
    pub style: String,
}

/// A row of the categories relation.
#[derive(Debug)]
pub struct Categories {
    pub cat_id: i32,
    pub cat_name: String,
}

/// A row of the breweries relation.
#[derive(Debug)]
pub struct Breweries {
    pub brew_id: i32,
    pub brew_name: String,
    pub address1: String,
    pub address2: String,
    pub city: String,
    pub state: String,
    pub code: String,
    pub country: String,
    pub phone: String,
    pub website: String,
    pub description: String,
}

} // verus!
