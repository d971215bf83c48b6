use ferrum_engine::functions::aggregators;
use ferrum_engine::functions::scalars::{get_runner, ScalarFunction};
use ferrum_engine::index::Index;
use ferrum_engine::row::Row;
use ferrum_engine::schema::parse_column_definition;
use ferrum_engine::table::Table;
use ferrum_engine::text::{compare_text, join_parts, parse_u64, split_words, u64_to_text};

fn table(defs: &[&str]) -> Table {
    Table::new("t".to_string(), defs.iter().map(|d| d.to_string()).collect()).unwrap()
}

fn filled() -> Table {
    let mut t = table(&["id num pk", "name txt"]);
    for (id, name) in [("1", "a"), ("2", "b"), ("3", "c"), ("4", "d")] {
        t.insert(vec![id.to_string(), name.to_string()]).unwrap();
    }
    t
}

#[test]
fn index_maps_each_key_to_its_row() {
    let t = filled();
    for (p, key) in ["1", "2", "3", "4"].iter().enumerate() {
        assert_eq!(t.index_lookup(key), Some(p));
    }
}

#[test]
fn rows_have_schema_width() {
    let t = filled();
    for row in t.reader().scan() {
        assert_eq!(row.0.len(), 2);
    }
}

#[test]
fn invalid_cells_are_refused() {
    let mut t = table(&["id num pk", "name txt"]);
    assert!(t.insert(vec!["x".to_string(), "a".to_string()]).is_err());
    assert!(t.insert(vec!["18446744073709551616".to_string(), "a".to_string()]).is_err());
    assert!(t.insert(vec!["18446744073709551615".to_string(), "a".to_string()]).is_ok());
    assert!(t.insert(vec!["2".to_string(), "x".repeat(51)]).is_err());
    assert!(t.insert(vec!["2".to_string(), "x".repeat(50)]).is_ok());
    assert!(t.insert(vec!["3".to_string(), "".to_string()]).is_err());
    assert!(t.insert(vec!["4".to_string()]).is_err());
}

#[test]
fn duplicate_primary_key_is_refused() {
    let mut t = filled();
    assert!(t.insert(vec!["2".to_string(), "z".to_string()]).is_err());
    assert_eq!(t.rows(), 4);
}

#[test]
fn delete_shifts_later_positions_down() {
    let mut t = filled();
    t.delete(vec!["2".to_string()]).unwrap();
    assert_eq!(t.index_lookup("1"), Some(0));
    assert_eq!(t.index_lookup("2"), None);
    assert_eq!(t.index_lookup("3"), Some(1));
    assert_eq!(t.index_lookup("4"), Some(2));
}

#[test]
fn delete_of_missing_key_or_wrong_arity_is_refused() {
    let mut t = filled();
    assert!(t.delete(vec!["9".to_string()]).is_err());
    assert!(t.delete(vec!["1".to_string(), "a".to_string()]).is_err());
    assert_eq!(t.rows(), 4);
}

#[test]
fn scan_len_is_row_count() {
    let t = filled();
    assert_eq!(t.reader().scan().len(), t.rows());
}

#[test]
fn select_all_columns_is_identity() {
    let t = filled();
    let all = t.reader().select(vec!["id".to_string(), "name".to_string()]).unwrap().scan();
    let rows: Vec<Vec<Option<String>>> = all.into_iter().map(|r| r.0).collect();
    let orig: Vec<Vec<Option<String>>> = t.reader().scan().into_iter().map(|r| r.0).collect();
    assert_eq!(rows, orig);
    assert!(t.reader().select(vec!["nope".to_string()]).is_err());
}

#[test]
fn filter_true_keeps_all_and_false_keeps_none() {
    let t = filled();
    assert_eq!(t.reader().filter(|_: &Row| true).unwrap().scan().len(), 4);
    assert_eq!(t.reader().filter(|_: &Row| false).unwrap().scan().len(), 0);
}

#[test]
fn limit_and_offset_none_are_identity_and_saturate() {
    let t = filled();
    assert_eq!(t.reader().limit(None).offset(None).scan().len(), 4);
    assert_eq!(t.reader().limit(Some(10)).scan().len(), 4);
    assert_eq!(t.reader().offset(Some(10)).scan().len(), 0);
    assert_eq!(t.reader().limit(Some(2)).scan()[1].0[0], Some("2".to_string()));
    assert_eq!(t.reader().offset(Some(3)).scan()[0].0[0], Some("4".to_string()));
}

#[test]
fn order_by_twice_equals_once() {
    let mut t = table(&["id num pk", "name txt"]);
    for (id, name) in [("1", "b"), ("2", "a"), ("3", "b"), ("4", "a")] {
        t.insert(vec![id.to_string(), name.to_string()]).unwrap();
    }
    let keys = vec![(1usize, true)];
    let once: Vec<Vec<Option<String>>> =
        t.reader().order_by(keys.clone()).unwrap().scan().into_iter().map(|r| r.0).collect();
    let twice: Vec<Vec<Option<String>>> =
        t.reader().order_by(keys.clone()).unwrap().order_by(keys).unwrap().scan().into_iter().map(|r| r.0).collect();
    assert_eq!(once, twice);
    let ids: Vec<String> = once.iter().map(|r| r[0].clone().unwrap()).collect();
    assert_eq!(ids, vec!["2", "4", "1", "3"]);
    assert!(t.reader().order_by(vec![(5, true)]).is_err());
}

#[test]
fn insert_then_delete_keeps_row_count() {
    let mut t = filled();
    let before = t.rows();
    t.insert(vec!["9".to_string(), "z".to_string()]).unwrap();
    t.delete(vec!["9".to_string()]).unwrap();
    assert_eq!(t.rows(), before);
}

#[test]
fn count_star_on_empty_table_is_zero() {
    let t = table(&["id num pk"]);
    let rows = t.reader().scan();
    assert_eq!(aggregators::run(&"COUNT".to_string(), &vec!["*".to_string()], &rows), Ok("0".to_string()));
    assert!(aggregators::run(&"MIN".to_string(), &vec!["0".to_string()], &rows).is_err());
}

#[test]
fn aggregators_compute() {
    let t = filled();
    let rows = t.reader().scan();
    assert_eq!(aggregators::run(&"count".to_string(), &vec!["1".to_string()], &rows), Ok("4".to_string()));
    assert_eq!(aggregators::run(&"Min".to_string(), &vec!["1".to_string()], &rows), Ok("a".to_string()));
    assert_eq!(aggregators::run(&"MAX".to_string(), &vec!["1".to_string()], &rows), Ok("d".to_string()));
    assert_eq!(
        aggregators::run(&"SUM".to_string(), &vec!["1".to_string()], &rows),
        Err("Unknown aggregate function: SUM".to_string())
    );
    assert!(aggregators::run(&"MAX".to_string(), &vec!["0".to_string(), "1".to_string()], &rows).is_err());
    assert!(aggregators::is_allowed(&"count".to_string()));
    assert!(!aggregators::is_allowed(&"add".to_string()));
}

#[test]
fn min_compares_text() {
    let mut t = table(&["id num pk"]);
    for id in ["10", "2"] {
        t.insert(vec![id.to_string()]).unwrap();
    }
    let rows = t.reader().scan();
    assert_eq!(aggregators::run(&"MIN".to_string(), &vec!["0".to_string()], &rows), Ok("10".to_string()));
}

#[test]
fn perform_aggregate_names_columns() {
    let t = filled();
    let calls = vec![ferrum_engine::functions::FunctionCall {
        name: "COUNT".to_string(),
        args: vec!["*".to_string()],
        alias: Some("n".to_string()),
    }];
    let r = t.perform_aggregate(&calls).unwrap();
    assert_eq!(r.schema.column_names(), vec!["n".to_string()]);
    assert_eq!(r.scan()[0].0, vec![Some("4".to_string())]);
}

#[test]
fn scalar_add() {
    let f = get_runner(&"add".to_string()).unwrap();
    assert_eq!(f, ScalarFunction::Add);
    let row = Row(vec![Some("40".to_string())]);
    assert_eq!(f.run(&vec!["0".to_string(), "2".to_string()], &row), Ok("42".to_string()));
    let big = Row(vec![Some("18446744073709551615".to_string())]);
    assert!(f.run(&vec!["0".to_string(), "1".to_string()], &big).is_err());
    assert_eq!(get_runner(&"mul".to_string()).err(), Some("Unknown scalar function: mul".to_string()));
}

#[test]
fn empty_definition_list_is_refused() {
    assert!(Table::new("t".to_string(), vec![]).is_err());
}

#[test]
fn reserved_words_are_refused_as_column_names() {
    for word in ["pk", "fk", "num", "txt"] {
        assert!(parse_column_definition(&format!("{} num", word)).is_err());
    }
    assert!(Table::new("t".to_string(), vec!["num num".to_string()]).is_err());
}

#[test]
fn malformed_definitions_are_refused() {
    assert!(parse_column_definition("id").is_err());
    assert!(parse_column_definition("id num pk extra").is_err());
    assert!(parse_column_definition("id num fk").is_err());
    assert!(parse_column_definition("id num fk nodot").is_err());
    assert!(parse_column_definition("id num fk a.b.c").is_err());
    assert!(parse_column_definition("id num xx").is_err());
    let d = parse_column_definition("pid num fk p.id").unwrap();
    let fk = d.info.foreign_key.unwrap();
    assert_eq!((fk.table_name.as_str(), fk.column_name.as_str()), ("p", "id"));
    assert!(Table::new("t".to_string(), vec!["a num".to_string(), "a txt".to_string()]).is_err());
}

#[test]
fn update_rejects_unknown_column() {
    let mut t = filled();
    assert!(t.update(vec!["1".to_string()], vec![("nope".to_string(), "x".to_string())]).is_err());
    assert_eq!(t.update_all(vec![("name".to_string(), "q".to_string())]), Ok(4));
    assert_eq!(t.reader().scan()[2].0[1], Some("q".to_string()));
}

#[test]
fn update_of_primary_key_moves_index_entry() {
    let mut t = filled();
    assert_eq!(t.update(vec!["1".to_string()], vec![("id".to_string(), "7".to_string())]), Ok(1));
    assert_eq!(t.index_lookup("1"), None);
    assert_eq!(t.index_lookup("7"), Some(0));
    assert_eq!(t.reader().scan()[0].0[0], Some("7".to_string()));
    // A key that another row holds is refused, and nothing changes.
    assert!(t.update(vec!["7".to_string()], vec![("id".to_string(), "2".to_string())]).is_err());
    assert_eq!(t.index_lookup("7"), Some(0));
    assert_eq!(t.index_lookup("2"), Some(1));
    // Setting every key to one value stops at the second row.
    assert!(t.update_all(vec![("id".to_string(), "9".to_string())]).is_err());
    assert_eq!(t.index_lookup("9"), Some(0));
    assert_eq!(t.reader().scan()[1].0[0], Some("2".to_string()));
}

#[test]
fn text_limit_counts_bytes() {
    let mut t = table(&["id num pk", "name txt"]);
    assert!(t.insert(vec!["1".to_string(), "\u{e9}".repeat(26)]).is_err());
    assert!(t.insert(vec!["2".to_string(), "\u{e9}".repeat(25)]).is_ok());
}

#[test]
fn datatype_errors_name_the_type() {
    let r = Table::from(vec![("id".to_string(), "num".to_string()), ("x".to_string(), "flt".to_string())]);
    assert_eq!(r.err(), Some("invalid datatype flt: not supported".to_string()));
    let r = Table::new("t".to_string(), vec!["id num".to_string(), "x flt".to_string()]);
    assert_eq!(r.err(), Some("invalid datatype flt: not supported".to_string()));
    assert!(Table::from(vec![("id".to_string(), "num".to_string())]).is_ok());
}

#[test]
fn foreign_keys_are_listed_in_column_order() {
    let mut db = ferrum_engine::database::Database::new("d".to_string());
    db.create_table("p".to_string(), vec!["id num pk".to_string()]).unwrap();
    db.create_table(
        "c".to_string(),
        vec!["id num pk".to_string(), "a num fk p.id".to_string(), "b num fk p.id".to_string()],
    )
    .unwrap();
    let fks = db.get_table("c").unwrap().schema().get_foreign_key_constraints();
    let cols: Vec<usize> = fks.iter().map(|(c, _)| *c).collect();
    assert_eq!(cols, vec![1, 2]);
    assert_eq!(fks[0].1.column_index, Some(0));
}

#[test]
fn delete_all_empties_table_and_index() {
    let mut t = filled();
    assert_eq!(t.delete_all(), 4);
    assert_eq!(t.rows(), 0);
    assert_eq!(t.index_lookup("1"), None);
    t.insert(vec!["1".to_string(), "a".to_string()]).unwrap();
    assert_eq!(t.index_lookup("1"), Some(0));
}

#[test]
fn index_operations() {
    let mut i = Index::new();
    i.insert("a".to_string(), 0);
    i.insert("b".to_string(), 1);
    i.insert("c".to_string(), 2);
    i.insert("a".to_string(), 5);
    assert_eq!(i.get("a"), Some(5));
    assert_eq!(i.remove("b"), Some(1));
    assert_eq!(i.remove("b"), None);
    i.shift_index_back(1);
    assert_eq!(i.get("a"), Some(4));
    assert_eq!(i.get("c"), Some(1));
}

#[test]
fn text_helpers() {
    assert_eq!(split_words("  id  num\tpk "), vec!["id".to_string(), "num".to_string(), "pk".to_string()]);
    assert_eq!(parse_u64("+12"), Some(12));
    assert_eq!(parse_u64(""), None);
    assert_eq!(parse_u64("+"), None);
    assert_eq!(parse_u64("-1"), None);
    assert_eq!(u64_to_text(0), "0");
    assert_eq!(u64_to_text(1234567890), "1234567890");
    assert_eq!(compare_text("10", "2"), -1);
    assert_eq!(compare_text("b", "ab"), 1);
    assert_eq!(compare_text("ab", "ab"), 0);
    assert_eq!(join_parts(&vec!["1".to_string(), "x".to_string()]), "1|x");
}
