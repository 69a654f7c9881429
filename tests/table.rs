use minidb::error::DbError;
use minidb::expr::WhereExpr;
use minidb::table::{admit_table, deserialize_row, serialize_row, Table};
use minidb::typ::Typ;
use minidb::util::{display_ivec, serialize_ivec};
use minidb::val::Val;

fn people(db: &mut sled::Db) -> Table {
    let columns = vec![
        ("nome".into(), Typ::String),
        ("cognome".into(), Typ::String),
        ("eta".into(), Typ::Number),
    ];
    Table::new(db, "people".into(), columns, vec!["nome".into(), "cognome".into()]).unwrap()
}

fn antonio() -> Vec<Val> {
    vec![
        Val::String("Antonio".into()),
        Val::String("Giunta".into()),
        Val::Number(60),
    ]
}

fn col(name: &str) -> Box<WhereExpr> {
    Box::new(WhereExpr::Column(name.into()))
}

fn lit(v: Val) -> Box<WhereExpr> {
    Box::new(WhereExpr::Literal(v))
}

fn eq(name: &str, v: Val) -> WhereExpr {
    WhereExpr::Equal(col(name), lit(v))
}

fn temp_db() -> sled::Db {
    sled::Config::new().temporary(true).open().unwrap()
}

#[test]
fn select_by_full_primary_key() {
    let mut db = temp_db();
    let mut table = people(&mut db);
    table.insert(antonio()).unwrap();
    let pred = WhereExpr::And(
        Box::new(eq("nome", Val::String("Antonio".into()))),
        Box::new(eq("cognome", Val::String("Giunta".into()))),
    );
    assert_eq!(table.select(pred), Ok(Some(antonio())));
}

#[test]
fn repeated_insert_is_a_key_conflict() {
    let mut db = temp_db();
    let mut table = people(&mut db);
    table.insert(antonio()).unwrap();
    let again = vec![
        Val::String("Antonio".into()),
        Val::String("Giunta".into()),
        Val::Number(61),
    ];
    assert_eq!(table.insert(again), Err(DbError::KeyConflict));
    assert_eq!(table.insert(antonio()), Err(DbError::KeyConflict));
    let pred = WhereExpr::And(
        Box::new(eq("nome", Val::String("Antonio".into()))),
        Box::new(eq("cognome", Val::String("Giunta".into()))),
    );
    assert_eq!(table.select(pred), Ok(Some(antonio())));
}

#[test]
fn select_through_secondary_index() {
    let mut db = temp_db();
    let mut table = people(&mut db);
    table.create_index(&db, vec!["cognome".into()]).unwrap();
    table.insert(antonio()).unwrap();
    let bound = vec![b"cognome".to_vec()];
    assert_eq!(table.match_index(&bound), Some(0));
    assert_eq!(table.select(eq("cognome", Val::String("Giunta".into()))), Ok(Some(antonio())));
    assert_eq!(table.select(eq("cognome", Val::String("Rossi".into()))), Ok(None));
}

#[test]
fn index_created_after_rows_is_filled() {
    let mut db = temp_db();
    let mut table = people(&mut db);
    table.insert(antonio()).unwrap();
    table.create_index(&db, vec!["cognome".into()]).unwrap();
    assert_eq!(table.select(eq("cognome", Val::String("Giunta".into()))), Ok(Some(antonio())));
}

#[test]
fn index_collision_is_rejected_and_nothing_is_written() {
    let mut db = temp_db();
    let mut table = people(&mut db);
    table.create_index(&db, vec!["cognome".into()]).unwrap();
    table.insert(antonio()).unwrap();
    let other = vec![
        Val::String("Maria".into()),
        Val::String("Giunta".into()),
        Val::Number(30),
    ];
    assert_eq!(table.insert(other), Err(DbError::IndexIntegrity));
    assert_eq!(table.select(eq("nome", Val::String("Maria".into()))), Ok(None));
}

#[test]
fn duplicate_rows_block_a_new_index() {
    let mut db = temp_db();
    let mut table = people(&mut db);
    table.insert(antonio()).unwrap();
    table
        .insert(vec![
            Val::String("Maria".into()),
            Val::String("Giunta".into()),
            Val::Number(30),
        ])
        .unwrap();
    assert_eq!(table.create_index(&db, vec!["cognome".into()]), Err(DbError::IndexIntegrity));
    assert_eq!(table.indexes.len(), 0);
}

#[test]
fn partially_bound_index_is_not_chosen() {
    let mut db = temp_db();
    let mut table = people(&mut db);
    table.create_index(&db, vec!["cognome".into(), "eta".into()]).unwrap();
    let bound = vec![b"cognome".to_vec()];
    assert_eq!(table.match_index(&bound), None);
    let bound = vec![b"eta".to_vec(), b"cognome".to_vec()];
    assert_eq!(table.match_index(&bound), Some(0));
}

#[test]
fn unknown_column_is_a_schema_error() {
    let mut db = temp_db();
    let mut table = people(&mut db);
    table.insert(antonio()).unwrap();
    assert_eq!(table.select(eq("citta", Val::String("Roma".into()))), Err(DbError::Schema));
}

#[test]
fn scan_fallback_finds_by_other_column() {
    let mut db = temp_db();
    let mut table = people(&mut db);
    table.insert(antonio()).unwrap();
    let pred = WhereExpr::Gt(col("eta"), lit(Val::Number(50)));
    assert_eq!(table.select(pred), Ok(Some(antonio())));
    let pred = WhereExpr::Lt(col("eta"), lit(Val::Number(50)));
    assert_eq!(table.select(pred), Ok(None));
}

#[test]
fn partial_primary_key_falls_back_to_scan() {
    let mut db = temp_db();
    let mut table = people(&mut db);
    table.insert(antonio()).unwrap();
    assert_eq!(table.select(eq("nome", Val::String("Antonio".into()))), Ok(Some(antonio())));
}

#[test]
fn select_on_empty_table_finds_nothing() {
    let mut db = temp_db();
    let table = people(&mut db);
    assert_eq!(table.select(eq("nome", Val::String("Antonio".into()))), Ok(None));
}

#[test]
fn non_boolean_predicate_is_a_type_error() {
    let mut db = temp_db();
    let mut table = people(&mut db);
    table.insert(antonio()).unwrap();
    let pred = WhereExpr::Sum(col("eta"), lit(Val::Number(1)));
    assert_eq!(table.select(pred), Err(DbError::Type));
}

#[test]
fn row_of_wrong_shape_is_a_schema_error() {
    let mut db = temp_db();
    let mut table = people(&mut db);
    let short = vec![Val::String("Antonio".into()), Val::String("Giunta".into())];
    assert_eq!(table.insert(short), Err(DbError::Schema));
    let wrong = vec![
        Val::String("Antonio".into()),
        Val::String("Giunta".into()),
        Val::String("sessanta".into()),
    ];
    assert_eq!(table.insert(wrong), Err(DbError::Schema));
}

#[test]
fn long_string_in_row_is_too_long() {
    let mut db = temp_db();
    let mut table = people(&mut db);
    let long: String = std::iter::repeat('x').take(300).collect();
    let row = vec![Val::String(long), Val::String("Giunta".into()), Val::Number(1)];
    assert_eq!(table.insert(row), Err(DbError::TooLong));
}

#[test]
fn duplicate_table_name_is_a_schema_error() {
    let mut db = temp_db();
    let _first = people(&mut db);
    let columns = vec![("nome".into(), Typ::String)];
    let second = Table::new(&mut db, "people".into(), columns, vec!["nome".into()]);
    assert_eq!(second.err(), Some(DbError::Schema));
}

#[test]
fn invalid_schemas_are_rejected() {
    let mut db = temp_db();
    let columns = vec![("a".into(), Typ::String), ("a".into(), Typ::Number)];
    let t = Table::new(&mut db, "t1".into(), columns, vec!["a".into()]);
    assert_eq!(t.err(), Some(DbError::Schema));
    let columns = vec![("a".into(), Typ::String)];
    let t = Table::new(&mut db, "t2".into(), columns, vec!["b".into()]);
    assert_eq!(t.err(), Some(DbError::Schema));
    let columns = vec![("a".into(), Typ::String)];
    let t = Table::new(&mut db, "t3".into(), columns, vec![]);
    assert_eq!(t.err(), Some(DbError::Schema));
    let columns = vec![("a".into(), Typ::String)];
    let t = Table::new(&mut db, "tables".into(), columns, vec!["a".into()]);
    assert_eq!(t.err(), Some(DbError::Schema));
}

#[test]
fn schema_record_layout() {
    let mut db = temp_db();
    let table = Table::new(
        &mut db,
        "t".into(),
        vec![("ab".into(), Typ::String), ("n".into(), Typ::Number)],
        vec!["ab".into()],
    )
    .unwrap();
    let mut out = vec![];
    table.serialize(&mut out).unwrap();
    assert_eq!(out, vec![0, 2, b'a', b'b', 1, 1, b'n', b';', 2, b'a', b'b']);
}

#[test]
fn row_encoding_round_trip() {
    let row = antonio();
    let bytes = serialize_row(&row).unwrap();
    assert_eq!(deserialize_row(&bytes), Ok(row));
    assert_eq!(deserialize_row(&bytes[..bytes.len() - 1]), Err(DbError::Decoding));
}

#[test]
fn ivec_helpers() {
    let mut out = vec![9];
    serialize_ivec(b"abc", &mut out).unwrap();
    assert_eq!(out, vec![9, 3, b'a', b'b', b'c']);
    assert_eq!(display_ivec(b"ciao"), Ok("ciao".to_string()));
    assert_eq!(display_ivec(&[0xff]), Err(DbError::Decoding));
}

#[test]
fn eval_and_is_both_sides() {
    let mut db = temp_db();
    let table = people(&mut db);
    let row = antonio();
    let t = || lit(Val::Boolean(true));
    let f = || lit(Val::Boolean(false));
    assert_eq!(WhereExpr::And(t(), t()).eval(&row, &table), Ok(Val::Boolean(true)));
    assert_eq!(WhereExpr::And(t(), f()).eval(&row, &table), Ok(Val::Boolean(false)));
    assert_eq!(WhereExpr::And(f(), t()).eval(&row, &table), Ok(Val::Boolean(false)));
    assert_eq!(WhereExpr::Or(f(), t()).eval(&row, &table), Ok(Val::Boolean(true)));
    assert_eq!(WhereExpr::Not(f()).eval(&row, &table), Ok(Val::Boolean(true)));
    assert_eq!(
        WhereExpr::And(f(), lit(Val::Number(1))).eval(&row, &table),
        Err(DbError::Type)
    );
}

#[test]
fn eval_arithmetic_and_comparison() {
    let mut db = temp_db();
    let table = people(&mut db);
    let row = antonio();
    let e = WhereExpr::Mul(col("eta"), lit(Val::Number(2)));
    assert_eq!(e.eval(&row, &table), Ok(Val::Number(120)));
    let e = WhereExpr::Div(col("eta"), lit(Val::Number(0)));
    assert_eq!(e.eval(&row, &table), Err(DbError::Arithmetic));
    let e = WhereExpr::Gte(col("eta"), lit(Val::Number(60)));
    assert_eq!(e.eval(&row, &table), Ok(Val::Boolean(true)));
    let e = WhereExpr::Lte(col("eta"), lit(Val::Number(59)));
    assert_eq!(e.eval(&row, &table), Ok(Val::Boolean(false)));
    let e = WhereExpr::Sum(col("nome"), col("cognome"));
    assert_eq!(e.eval(&row, &table), Ok(Val::String("AntonioGiunta".into())));
    let e = WhereExpr::Sub(col("eta"), lit(Val::Number(61)));
    assert_eq!(e.eval(&row, &table), Ok(Val::Number(-1)));
    let e = WhereExpr::Column("x".into());
    assert_eq!(e.eval(&row, &table), Err(DbError::Schema));
}

#[test]
fn bindings_are_extracted_from_conjunctions() {
    let mut db = temp_db();
    let table = people(&mut db);
    let pred = WhereExpr::And(
        Box::new(eq("nome", Val::String("Antonio".into()))),
        Box::new(WhereExpr::And(
            Box::new(eq("eta", Val::Number(60))),
            Box::new(WhereExpr::Or(
                Box::new(eq("cognome", Val::String("Giunta".into()))),
                Box::new(eq("cognome", Val::String("Rossi".into()))),
            )),
        )),
    );
    assert_eq!(
        pred.lookup_by_pk(&table),
        vec![(b"nome".to_vec(), Val::String("Antonio".into()))]
    );
    assert_eq!(
        pred.bindings(),
        vec![
            (b"nome".to_vec(), Val::String("Antonio".into())),
            (b"eta".to_vec(), Val::Number(60)),
        ]
    );
    let reversed = WhereExpr::Equal(lit(Val::Number(60)), col("eta"));
    assert!(reversed.bindings().is_empty());
}

#[test]
fn tree_with_data_cannot_become_a_table() {
    let mut db = temp_db();
    db.open_tree("raw").unwrap().insert(b"k", b"v".to_vec()).unwrap();
    let columns = vec![("a".into(), Typ::String)];
    let t = Table::new(&mut db, "raw".into(), columns, vec!["a".into()]);
    assert_eq!(t.err(), Some(DbError::Schema));
}

#[test]
fn schema_is_recorded_in_tables_collection() {
    let mut db = temp_db();
    let table = people(&mut db);
    let mut expected = vec![];
    table.serialize(&mut expected).unwrap();
    let stored = db.open_tree("tables").unwrap().get(b"people").unwrap().unwrap();
    assert_eq!(stored.to_vec(), expected);
}

#[test]
fn scan_returns_first_match_in_key_order() {
    let mut db = temp_db();
    let mut table = people(&mut db);
    let bruno = vec![Val::String("Bruno".into()), Val::String("Giunta".into()), Val::Number(60)];
    let andre = vec![Val::String("Andre".into()), Val::String("Giunta".into()), Val::Number(60)];
    table.insert(bruno).unwrap();
    table.insert(andre.clone()).unwrap();
    assert_eq!(table.select(eq("eta", Val::Number(60))), Ok(Some(andre.clone())));
    // A key starts with the encoded first column, whose length byte comes first:
    // "Antonio" is longer than "Andre", so its key is the larger.
    table.insert(antonio()).unwrap();
    assert_eq!(table.select(eq("eta", Val::Number(60))), Ok(Some(andre)));
}

#[test]
fn pinned_key_path_answers_for_that_row_only() {
    let mut db = temp_db();
    let mut table = people(&mut db);
    table.insert(antonio()).unwrap();
    // The pinned key is not stored; the row that is stored would fail the division.
    let pred = WhereExpr::And(
        Box::new(WhereExpr::And(
            Box::new(eq("nome", Val::String("Zeno".into()))),
            Box::new(eq("cognome", Val::String("Rossi".into()))),
        )),
        Box::new(WhereExpr::Equal(
            Box::new(WhereExpr::Div(col("eta"), lit(Val::Number(0)))),
            lit(Val::Number(1)),
        )),
    );
    assert_eq!(table.select(pred), Ok(None));
}

#[test]
fn duplicate_index_is_a_schema_error() {
    let mut db = temp_db();
    let mut table = people(&mut db);
    table.create_index(&db, vec!["cognome".into()]).unwrap();
    assert_eq!(table.create_index(&db, vec!["cognome".into()]), Err(DbError::Schema));
    assert_eq!(table.create_index(&db, vec![]), Err(DbError::Schema));
    assert_eq!(table.create_index(&db, vec!["citta".into()]), Err(DbError::Schema));
    table.create_index(&db, vec!["cognome".into(), "nome".into()]).unwrap();
    assert_eq!(table.indexes.len(), 2);
}

#[test]
fn failed_index_can_be_retried() {
    let mut db = temp_db();
    let mut table = people(&mut db);
    table.insert(antonio()).unwrap();
    table.insert(vec![Val::String("Maria".into()), Val::String("Giunta".into()), Val::Number(60)]).unwrap();
    assert_eq!(table.create_index(&db, vec!["cognome".into()]), Err(DbError::IndexIntegrity));
    assert_eq!(table.create_index(&db, vec!["cognome".into()]), Err(DbError::IndexIntegrity));
    table.create_index(&db, vec!["nome".into()]).unwrap();
    assert_eq!(table.select(eq("nome", Val::String("Maria".into()))).unwrap().unwrap()[0], Val::String("Maria".into()));
}

#[test]
fn admission_verdicts() {
    let cols = vec![(b"a".to_vec(), Typ::String)];
    let pk = vec![b"a".to_vec()];
    assert_eq!(admit_table(b"t", &cols, &pk, false, true), Ok(()));
    assert_eq!(admit_table(b"t", &cols, &pk, true, true), Err(DbError::Schema));
    assert_eq!(admit_table(b"t", &cols, &pk, false, false), Err(DbError::Schema));
    assert_eq!(admit_table(b"tables", &cols, &pk, false, true), Err(DbError::Schema));
    assert_eq!(admit_table(b"t", &cols, &vec![b"b".to_vec()], false, true), Err(DbError::Schema));
    let long = vec![(vec![b'x'; 256], Typ::String)];
    assert_eq!(admit_table(b"t", &long, &vec![vec![b'x'; 256]], false, true), Err(DbError::TooLong));
}

#[test]
fn table_name_with_zero_byte_is_refused() {
    let mut db = temp_db();
    let columns = vec![("c".into(), Typ::String)];
    let t = Table::new(&mut db, b"t\0\x01c".to_vec(), columns, vec!["c".into()]);
    assert_eq!(t.err(), Some(DbError::Schema));
    let cols = vec![(b"c".to_vec(), Typ::String)];
    assert_eq!(admit_table(b"a\0b", &cols, &vec![b"c".to_vec()], false, true), Err(DbError::Schema));
}

#[test]
fn index_tree_does_not_touch_other_tables() {
    let mut db = temp_db();
    let columns = vec![("c".into(), Typ::String)];
    let mut t = Table::new(&mut db, "t".into(), columns.clone(), vec!["c".into()]).unwrap();
    let mut u = Table::new(&mut db, "tc".into(), columns, vec!["c".into()]).unwrap();
    u.insert(vec![Val::String("x".into())]).unwrap();
    t.insert(vec![Val::String("y".into())]).unwrap();
    t.create_index(&db, vec!["c".into()]).unwrap();
    assert_eq!(u.select(eq("c", Val::String("x".into()))), Ok(Some(vec![Val::String("x".into())])));
    assert_eq!(t.select(eq("c", Val::String("y".into()))), Ok(Some(vec![Val::String("y".into())])));
}
