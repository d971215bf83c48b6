use ferrum_engine::database::Database;

fn _prepare_database() -> Database {
    let db_name = "test_db".to_string();
    Database::new(db_name)
}

fn _create_table(
    database: &mut Database,
    name: String,
    column_definitions: Vec<String>,
    data: Vec<Vec<String>>,
) -> Result<(), String> {
    database
        .create_table(name.clone(), column_definitions)
        .expect("invalid column definitions or table exists already");
    database.insert_many_into_table(name.as_ref(), data)?;
    assert!(database.get_table(name.as_str()).is_some());
    Ok(())
}

fn _rows(values: Vec<(&str, &str)>) -> Vec<Vec<String>> {
    values.iter().map(|(a, b)| vec![a.to_string(), b.to_string()]).collect()
}

#[test]
fn database_create_table() {
    let mut database = _prepare_database();
    let columns = vec!["id num pk".to_string(), "name txt".to_string()];
    let values = _rows(vec![("1", "Jansen"), ("2", "Bonega"), ("3", "Maharashtra")]);

    let test_tb1 = _create_table(&mut database, "test_tb1".to_string(), columns, values);
    assert_eq!(test_tb1.is_ok(), true)
}

#[test]
fn database_create_table_with_fk() {
    let mut database = _prepare_database();
    let columns = vec!["id num pk".to_string(), "name txt".to_string()];
    let values = _rows(vec![("1", "Jansen"), ("2", "Bonega"), ("3", "Maharashtra")]);

    _create_table(&mut database, "test_tb1".to_string(), columns, values).unwrap();

    let columns = vec!["id num pk".to_string(), "t1_id num fk test_tb1.id".to_string()];
    let values = _rows(vec![("1", "1"), ("2", "2"), ("3", "3")]);

    _create_table(&mut database, "test_tb2".to_string(), columns, values).unwrap();
}

#[test]
fn database_create_table_with_fk_missing_referent() {
    let mut database = _prepare_database();
    let columns = vec!["id num pk".to_string(), "name txt".to_string()];
    let values = _rows(vec![("1", "Jansen"), ("2", "Bonega"), ("3", "Maharashtra")]);

    _create_table(&mut database, "test_tb1".to_string(), columns, values).unwrap();

    let columns = vec!["id num pk".to_string(), "t1_id num fk test_tb1.id".to_string()];
    let values = _rows(vec![("1", "1"), ("2", "2"), ("3", "7")]);

    let result = _create_table(&mut database, "test_tb2".to_string(), columns, values);
    assert_eq!(result, Err("does not exist: 7 in test_tb1.id".to_string()));
    // The rows before the refused one stay.
    assert_eq!(database.get_table("test_tb2").unwrap().rows(), 2);
}

#[test]
fn database_foreign_key_to_missing_table_is_refused() {
    let mut database = _prepare_database();
    let result = database.create_table("c".to_string(), vec!["id num pk".to_string(), "pid num fk p.id".to_string()]);
    assert_eq!(result, Err("invalid foreign key on p; column id doesn't exist".to_string()));
    assert!(!database.contains_table("c"));
}

#[test]
fn database_duplicate_table_is_refused() {
    let mut database = _prepare_database();
    database.create_table("t".to_string(), vec!["id num pk".to_string()]).unwrap();
    assert!(database.create_table("t".to_string(), vec!["id num pk".to_string()]).is_err());
    assert_eq!(database.get_table_names(), vec!["t".to_string()]);
}

#[test]
fn database_update_checks_foreign_keys() {
    let mut database = _prepare_database();
    database.create_table("p".to_string(), vec!["id num pk".to_string()]).unwrap();
    database.insert_into_table("p", vec!["1".to_string()]).unwrap();
    database
        .create_table("c".to_string(), vec!["id num pk".to_string(), "pid num fk p.id".to_string()])
        .unwrap();
    database.insert_into_table("c", vec!["10".to_string(), "1".to_string()]).unwrap();
    let refused = database.update_table_set("c", vec!["10".to_string()], vec![("pid".to_string(), "5".to_string())]);
    assert_eq!(refused, Err("does not exist: 5 in p.id".to_string()));
    let ok = database.update_table_set("c", vec!["10".to_string()], vec![("pid".to_string(), "1".to_string())]);
    assert_eq!(ok, Ok(1));
}
