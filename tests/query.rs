use minidb::error::DbError;
use minidb::expr::WhereExpr;
use minidb::query::{DbScanner, Scan};
use minidb::table::Table;
use minidb::typ::Typ;
use minidb::val::Val;

fn people(db: &mut sled::Db, name: &str) -> Table {
    let columns = vec![
        ("nome".into(), Typ::String),
        ("cognome".into(), Typ::String),
        ("eta".into(), Typ::Number),
    ];
    Table::new(db, name.into(), columns, vec!["nome".into(), "cognome".into()]).unwrap()
}

fn person(nome: &str, eta: i64) -> Vec<Val> {
    vec![Val::String(nome.into()), Val::String("Giunta".into()), Val::Number(eta)]
}

fn eta_is(n: i64) -> WhereExpr {
    WhereExpr::Equal(
        Box::new(WhereExpr::Column("eta".into())),
        Box::new(WhereExpr::Literal(Val::Number(n))),
    )
}

#[test]
fn map_filter() {
    let mut db = sled::Config::new().temporary(true).open().unwrap();

    let columns = vec![
        ("nome".into(), Typ::String),
        ("cognome".into(), Typ::String),
        ("eta".into(), Typ::Number),
    ];
    let mut table = Table::new(
        &mut db,
        "sus".into(),
        columns,
        vec!["nome".into(), "cognome".into()],
    )
    .unwrap();

    table
        .insert(vec![
            Val::String("Antonio".into()),
            Val::String("Giunta".into()),
            Val::Number(60),
        ])
        .unwrap();

    assert_eq!(
        vec![
            Val::String("Antonio".into()),
            Val::String("Giunta".into()),
            Val::Number(120)
        ],
        Scan::new(&table)
            .unwrap()
            .filter_by(WhereExpr::Equal(
                Box::new(WhereExpr::Column("eta".into())),
                Box::new(WhereExpr::Literal(Val::Number(60))),
            ))
            .map_col(
                "eta".into(),
                WhereExpr::Mul(
                    Box::new(WhereExpr::Column("eta".into())),
                    Box::new(WhereExpr::Literal(Val::Number(2)))
                )
            )
            .next()
            .unwrap()
            .unwrap()
    );
}

#[test]
fn map_filter_then_end() {
    let mut db = sled::Config::new().temporary(true).open().unwrap();
    let mut table = people(&mut db, "sus");
    table.insert(person("Antonio", 60)).unwrap();
    let mut q = Scan::new(&table).unwrap().filter_by(eta_is(60)).map_col(
        "eta".into(),
        WhereExpr::Mul(
            Box::new(WhereExpr::Column("eta".into())),
            Box::new(WhereExpr::Literal(Val::Number(2))),
        ),
    );
    assert_eq!(q.next(), Ok(Some(person("Antonio", 120))));
    assert_eq!(q.next(), Ok(None));
    assert_eq!(q.next(), Ok(None));
}

#[test]
fn filter_skips_leading_non_matches() {
    let mut db = sled::Config::new().temporary(true).open().unwrap();
    let mut table = people(&mut db, "many");
    table.insert(person("A", 1)).unwrap();
    table.insert(person("B", 2)).unwrap();
    table.insert(person("C", 60)).unwrap();
    table.insert(person("D", 3)).unwrap();
    table.insert(person("E", 60)).unwrap();
    let mut q = Scan::new(&table).unwrap().filter_by(eta_is(60));
    assert_eq!(q.next(), Ok(Some(person("C", 60))));
    assert_eq!(q.next(), Ok(Some(person("E", 60))));
    assert_eq!(q.next(), Ok(None));
}

#[test]
fn filter_with_no_match_ends() {
    let mut db = sled::Config::new().temporary(true).open().unwrap();
    let mut table = people(&mut db, "none");
    table.insert(person("A", 1)).unwrap();
    table.insert(person("B", 2)).unwrap();
    let mut q = Scan::new(&table).unwrap().filter_by(eta_is(60));
    assert_eq!(q.next(), Ok(None));
}

#[test]
fn scan_yields_every_row_in_key_order() {
    let mut db = sled::Config::new().temporary(true).open().unwrap();
    let mut table = people(&mut db, "order");
    table.insert(person("B", 2)).unwrap();
    table.insert(person("A", 1)).unwrap();
    let mut s = Scan::new(&table).unwrap();
    assert_eq!(s.next(), Ok(Some(person("A", 1))));
    assert_eq!(s.next(), Ok(Some(person("B", 2))));
    assert_eq!(s.next(), Ok(None));
}

#[test]
fn map_keeps_other_columns() {
    let mut db = sled::Config::new().temporary(true).open().unwrap();
    let mut table = people(&mut db, "map");
    table.insert(person("A", 5)).unwrap();
    let mut q = Scan::new(&table).unwrap().map_col(
        "nome".into(),
        WhereExpr::Literal(Val::String("Z".into())),
    );
    assert_eq!(q.next(), Ok(Some(person("Z", 5))));
}

#[test]
fn map_of_unknown_column_is_a_schema_error() {
    let mut db = sled::Config::new().temporary(true).open().unwrap();
    let mut table = people(&mut db, "bad");
    table.insert(person("A", 5)).unwrap();
    let mut q = Scan::new(&table)
        .unwrap()
        .map_col("x".into(), WhereExpr::Literal(Val::Number(1)));
    assert_eq!(q.next(), Err(DbError::Schema));
}

#[test]
fn filter_reports_type_errors() {
    let mut db = sled::Config::new().temporary(true).open().unwrap();
    let mut table = people(&mut db, "typed");
    table.insert(person("A", 5)).unwrap();
    let mut q = Scan::new(&table)
        .unwrap()
        .filter_by(WhereExpr::Literal(Val::Number(1)));
    assert_eq!(q.next(), Err(DbError::Type));
}
