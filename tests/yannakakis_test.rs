use query_engine_acq::database::Database;
use query_engine_acq::engine::{answers_query, bool_answer, relation_attributes};
use query_engine_acq::evaluator::EvalError;
use query_engine_acq::parser::{get_query_2, parse_query, ParseError};
use query_engine_acq::query::Term;
use query_engine_acq::table::Table;

fn table(name: &str, rows: &[&[&str]]) -> Table {
    let schema = relation_attributes(name).unwrap();
    Table {
        name: name.to_string(),
        rows: rows
            .iter()
            .map(|r| {
                assert_eq!(r.len(), schema.len());
                r.iter()
                    .map(|c| if c.is_empty() { None } else { Some(c.to_string()) })
                    .collect()
            })
            .collect(),
        schema,
    }
}

fn database() -> Database {
    Database {
        beers: table(
            "beers",
            &[
                &["1", "100", "Snake River Lager", "0.05", "18", "12", "Vienna Lager", ""],
                &["2", "101", "Dark Night", "0.07", "60", "12", "Porter", ""],
                &["3", "100", "Pale One", "0.05", "18", "16", "Pale Ale", ""],
                &["4", "102", "Trappist", "0.07", "30", "11", "Dubbel", ""],
            ],
        ),
        breweries: table(
            "breweries",
            &[
                &["100", "Snake River", "Main St", "", "Jackson", "WY", "1", "US", "555", "", ""],
                &["101", "Night Brew", "Elm St", "", "Boise", "ID", "2", "US", "556", "", ""],
                &["102", "Westmalle Abbey", "Westmalle", "", "Malle", "", "3", "BE", "557", "", ""],
                &["103", "Echo", "Echo", "Echo", "Echo", "", "4", "US", "Echo", "Echo", "Echo"],
            ],
        ),
        categories: table("categories", &[&["5", "Lager"], &["6", "Ale"]]),
        locations: table(
            "locations",
            &[
                &["9", "100", "50.7428", "3.6875", "RANGE_INTERPOLATED"],
                &["10", "102", "51.2", "4.6", "ROOFTOP"],
                &["11", "102", "51.3", "4.7", "ROOFTOP"],
            ],
        ),
        styles: table(
            "styles",
            &[&["20", "5", "Vienna Lager"], &["21", "6", "Porter"], &["22", "6", "Dubbel"]],
        ),
    }
}

fn column(t: &Table, name: &str) -> Vec<Option<String>> {
    let i = t.schema.iter().position(|s| s == name).unwrap();
    t.get_column(&i).unwrap()
}

#[test]
fn example_query_4() {
    let query = parse_query(
        "Answer(x,y,z,w):-Beers(u1,v,x,'0.05','18',u2,'Vienna Lager',u3),Locations(u4,v,y,z,w).",
    )
    .unwrap();
    let answer = query.yannakakis(&database()).unwrap();
    let x = column(&answer, "x");
    let y = column(&answer, "y");
    let z = column(&answer, "z");
    let w = column(&answer, "w");
    assert_eq!(
        [x[0].as_deref(), y[0].as_deref(), z[0].as_deref(), w[0].as_deref()],
        [
            Some("Snake River Lager"),
            Some("50.7428"),
            Some("3.6875"),
            Some("RANGE_INTERPOLATED")
        ]
    );
    assert_eq!(answer.schema, vec!["x", "y", "z", "w"]);
    assert_eq!(answer.rows.len(), 1);
}

#[test]
fn westmalle_breweries_with_locations() {
    let query = get_query_2();
    let answer = query.yannakakis(&database()).unwrap();
    assert_eq!(answer.schema, vec!["x", "y", "z"]);
    let mut rows = answer.rows.clone();
    rows.sort();
    let expected: Vec<Vec<Option<String>>> = vec![
        vec!["Westmalle Abbey", "51.2", "4.6"],
        vec!["Westmalle Abbey", "51.3", "4.7"],
    ]
    .into_iter()
    .map(|r| r.into_iter().map(|c| Some(c.to_string())).collect())
    .collect();
    assert_eq!(rows, expected);
}

#[test]
fn boolean_query_is_answered_by_the_root() {
    let yes = parse_query(
        "Answer():-beers(u1,x,u2,'0.07',u3,u4,y,u5),styles(u6,z,y),categories(z,u7),locations(u8,x,u9,u10,u11).",
    )
    .unwrap();
    assert_eq!(bool_answer(&yes, &database()).unwrap(), Some(true));
    assert!(yes.yannakakis_boolean(&database()).unwrap());
    let sentinel = yes.yannakakis(&database()).unwrap();
    assert!(sentinel.is_empty());
    assert_eq!(sentinel.schema.len(), 0);
    let no = parse_query("Answer():-beers(u1,x,u2,'0.09',u3,u4,y,u5),styles(u6,z,y).").unwrap();
    assert_eq!(bool_answer(&no, &database()).unwrap(), Some(false));
    let not_boolean = get_query_2();
    assert_eq!(bool_answer(&not_boolean, &database()).unwrap(), None);
}

#[test]
fn repeated_variable_restricts_breweries() {
    let query = parse_query("Answer(x):-breweries(x,u1,y,y,y,u2,u3,u4,y,y,y).").unwrap();
    let answer = query.yannakakis(&database()).unwrap();
    assert_eq!(answer.rows, vec![vec![Some("103".to_string())]]);
    let pairs = parse_query("Answer(x):-breweries(x,x,u2,u3,u4,u5,u6,u7,u8,u9,u10).").unwrap();
    assert_eq!(pairs.yannakakis(&database()).unwrap().rows.len(), 0);
}

#[test]
fn missing_values_never_join() {
    let query = parse_query("Answer(x):-breweries(x,u1,u2,y,u3,u4,u5,u6,u7,u8,y).").unwrap();
    let answer = query.yannakakis(&database()).unwrap();
    assert_eq!(answer.rows, vec![vec![Some("103".to_string())]]);
}

#[test]
fn cyclic_query_gives_empty_answer() {
    let query = parse_query("Answer(x):-beers(x,b,u1,u2,u3,u4,s,u5),styles(u6,c,s),categories(c,b).").unwrap();
    assert!(!query.is_acyclic());
    let answer = query.yannakakis(&database()).unwrap();
    assert_eq!(answer.rows.len(), 0);
    assert_eq!(answer.name, "answer");
    let boolean = parse_query("Answer():-beers(x,b,u1,u2,u3,u4,s,u5),styles(u6,c,s),categories(c,b).").unwrap();
    assert_eq!(bool_answer(&boolean, &database()).unwrap(), Some(false));
}

#[test]
fn unknown_relation_is_reported() {
    let query = parse_query("Answer(x):-wines(x,y).").unwrap();
    assert!(matches!(query.yannakakis(&database()), Err(EvalError::TableNotFound(_))));
    let boolean = parse_query("Answer():-wines(x,y).").unwrap();
    assert!(matches!(bool_answer(&boolean, &database()), Err(EvalError::TableNotFound(_))));
}

#[test]
fn wrong_arity_is_reported() {
    let query = parse_query("Answer(x):-categories(x,y,z),styles(u,x,v).").unwrap();
    assert!(matches!(query.yannakakis(&database()), Err(EvalError::ColumnLookup(_))));
}

#[test]
fn evaluation_leaves_the_database_unchanged() {
    let db = database();
    let query = get_query_2();
    let _ = query.yannakakis(&db).unwrap();
    assert_eq!(db.breweries.schema[0], "brew_id");
    assert_eq!(db.locations.rows.len(), 3);
}

#[test]
fn answers_query_gives_four_columns() {
    let cols = answers_query(&get_query_2(), &database()).unwrap();
    assert_eq!(cols.len(), 4);
    assert_eq!(cols[0].len(), 2);
    assert_eq!(cols[3].len(), 0);
    let boolean = parse_query("Answer():-categories(x,y).").unwrap();
    let cols = answers_query(&boolean, &database()).unwrap();
    assert!(cols.iter().all(|c| c.is_empty()));
}

#[test]
fn rename_gives_variable_names_to_positions() {
    let mut db = database();
    let query = parse_query("Answer(x):-categories(x,'Ale').").unwrap();
    db.rename(&query);
    assert_eq!(db.categories.schema, vec!["x", "cat_name"]);
    assert_eq!(db.categories.name, "categories");
}

#[test]
fn set_table_keeps_the_relation_name() {
    let mut db = database();
    let t = Table {
        name: "other".to_string(),
        schema: vec!["a".to_string(), "b".to_string()],
        rows: vec![],
    };
    db.set_table("categories", t);
    assert_eq!(db.get_table("categories").name, "categories");
    assert_eq!(db.get_table("categories").schema, vec!["a", "b"]);
    assert!(db.get_table("categories").is_empty());
}

#[test]
fn parser_reads_the_grammar() {
    let q = parse_query("Answer(x,'c'):-Beers(x,'a b,c'),styles(y).").unwrap();
    assert_eq!(q.head.relation_name, "answer");
    assert_eq!(q.head.terms, vec![Term::Variable("x".to_string()), Term::Constant("c".to_string())]);
    assert_eq!(q.body.len(), 2);
    assert_eq!(q.body[0].relation_name, "beers");
    assert_eq!(q.body[0].terms[1], Term::Constant("a b,c".to_string()));
    assert_eq!(q.body[1].relation_name, "styles");
    let empty = parse_query("Answer():-r().").unwrap();
    assert!(empty.is_boolean());
    assert!(empty.body[0].terms.is_empty());
}

#[test]
fn parser_rejects_other_text() {
    for text in [
        "",
        "answer(x):-r(x).",
        "Answer(x):-r(x)",
        "Answer(x):-.",
        "Answer(x):-r(x).extra",
        "Answer(x):- r(x).",
        "Answer(x):-r(x,).",
        "Answer(x):-r('open).",
        "Answer(x):-(x).",
    ] {
        assert!(matches!(parse_query(text), Err(ParseError::Invalid(_))), "{}", text);
    }
}

#[test]
fn first_example_needs_matching_brewery_fields() {
    let query = query_engine_acq::parser::get_query_1();
    assert!(query.is_acyclic());
    assert_eq!(bool_answer(&query, &database()).unwrap(), Some(false));
    let mut db = database();
    db.beers.rows.push(
        ["5", "103", "Echo Ale", "0.07", "20", "12", "Porter", ""]
            .iter()
            .map(|c| if c.is_empty() { None } else { Some(c.to_string()) })
            .collect(),
    );
    assert_eq!(bool_answer(&query, &db).unwrap(), Some(true));
}

#[test]
fn beer_identifiers_with_style_and_category() {
    let query = query_engine_acq::parser::get_query();
    let answer = query.yannakakis(&database()).unwrap();
    assert_eq!(answer.schema, vec!["beer_id"]);
    let mut ids: Vec<Option<String>> = answer.rows.iter().map(|r| r[0].clone()).collect();
    ids.sort();
    assert_eq!(ids, vec![Some("1".to_string()), Some("2".to_string()), Some("4".to_string())]);
}

#[test]
fn atoms_sharing_no_variable_are_joined_as_a_product() {
    let boolean = parse_query("Answer():-categories(x,u1),styles(y,u2,u3).").unwrap();
    let tree = boolean.construct_join_tree().unwrap();
    let roots = tree.get_nodes().iter().filter(|n| tree.get_parent(n).is_none()).count();
    assert_eq!(roots, 1);
    assert_eq!(bool_answer(&boolean, &database()).unwrap(), Some(true));
    let mut no_styles = database();
    no_styles.styles.rows.clear();
    assert_eq!(bool_answer(&boolean, &no_styles).unwrap(), Some(false));
    let pairs = parse_query("Answer(x,y):-categories(x,u1),styles(y,u2,u3).").unwrap();
    let answer = pairs.yannakakis(&database()).unwrap();
    assert_eq!(answer.schema, vec!["x", "y"]);
    assert_eq!(answer.rows.len(), 6);
    assert_eq!(pairs.yannakakis(&no_styles).unwrap().rows.len(), 0);
}

#[test]
fn head_variable_without_column_is_reported() {
    let query = parse_query("Answer(q):-categories(x,y).").unwrap();
    assert!(matches!(query.yannakakis(&database()), Err(EvalError::ColumnLookup(_))));
}
