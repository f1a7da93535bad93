use socketdb::codec;
use socketdb::database::{Database, Notification, Query, Select};
use socketdb::evaluator::Evaluator;
use socketdb::expression::{Binary, Expression, Ident, Unary};
use socketdb::metacommands::MetaCommand;
use socketdb::table::{ColOption, ColumnDef, DataType, Literal};
use socketdb::view::ResultView;
use socketdb::Error;

fn coldef(name: &str, dt: DataType, pk: bool) -> ColumnDef {
    ColumnDef {
        name: name.to_string(),
        datatype: dt,
        options: if pk {
            vec![ColOption::Unique { is_primary: true }]
        } else {
            vec![]
        },
    }
}

fn create_t(db: &mut Database) {
    db.execute(Query::CreateTable {
        name: "t".to_string(),
        columns: vec![coldef("id", DataType::Int, true), coldef("name", DataType::Str, false)],
    })
    .unwrap();
}

fn insert_ab(db: &mut Database) {
    db.execute(Query::Insert {
        table: "t".to_string(),
        columns: vec![],
        sources: vec![
            vec![Literal::Int(1), Literal::Str("a".to_string())],
            vec![Literal::Int(2), Literal::Str("b".to_string())],
        ],
    })
    .unwrap();
}

fn select_t(db: &mut Database, projection: Vec<Expression>, selection: Vec<Expression>) -> ResultView {
    db.execute(Query::Select(Select { from: Some("t".to_string()), projection, selection }))
        .unwrap()
        .unwrap()
}

fn select_all(db: &mut Database) -> ResultView {
    select_t(
        db,
        vec![Expression::Ident(Ident::Wildcard)],
        vec![Expression::NoPredicate],
    )
}

fn rows_of(v: &ResultView) -> Vec<Vec<String>> {
    v.rows().iter().map(|r| r.items().clone()).collect()
}

fn where_id(op: Binary, n: i32) -> Expression {
    Expression::Binary {
        operator: op,
        left: Box::new(Expression::Ident(Ident::Named("id".to_string()))),
        right: Box::new(Expression::Literal(Literal::Int(n))),
    }
}

#[test]
fn create_insert_select_roundtrip() {
    let mut db = Database::new();
    create_t(&mut db);
    insert_ab(&mut db);
    let v = select_all(&mut db);
    assert_eq!(v.headers().clone(), vec!["id".to_string(), "name".to_string()]);
    assert_eq!(
        rows_of(&v),
        vec![
            vec!["1".to_string(), "a".to_string()],
            vec!["2".to_string(), "b".to_string()],
        ]
    );
}

#[test]
fn update_then_select() {
    let mut db = Database::new();
    create_t(&mut db);
    insert_ab(&mut db);
    db.execute(Query::Update {
        table: "t".to_string(),
        assignments: vec![("name".to_string(), Literal::Str("z".to_string()))],
        selection: Some(where_id(Binary::Eq, 1)),
    })
    .unwrap();
    let v = select_all(&mut db);
    assert_eq!(
        rows_of(&v),
        vec![
            vec!["1".to_string(), "z".to_string()],
            vec!["2".to_string(), "b".to_string()],
        ]
    );
}

#[test]
fn update_primary_key_refused() {
    let mut db = Database::new();
    create_t(&mut db);
    insert_ab(&mut db);
    let r = db.execute(Query::Update {
        table: "t".to_string(),
        assignments: vec![("id".to_string(), Literal::Int(9))],
        selection: Some(where_id(Binary::Eq, 1)),
    });
    assert!(matches!(r, Err(Error::InvalidOperation(_))));
}

#[test]
fn delete_then_select_and_fresh_ids() {
    let mut db = Database::new();
    create_t(&mut db);
    insert_ab(&mut db);
    db.execute(Query::Delete {
        table: "t".to_string(),
        selection: Some(where_id(Binary::Eq, 2)),
    })
    .unwrap();
    let v = select_all(&mut db);
    assert_eq!(rows_of(&v), vec![vec!["1".to_string(), "a".to_string()]]);
    // the freed row id is never reused: the next insert allocates past it
    db.execute(Query::Insert {
        table: "t".to_string(),
        columns: vec![],
        sources: vec![vec![Literal::Int(3), Literal::Str("c".to_string())]],
    })
    .unwrap();
    assert_eq!(db.tables()[0].next_row_id(), 3);
    let v2 = select_all(&mut db);
    assert_eq!(
        rows_of(&v2),
        vec![
            vec!["1".to_string(), "a".to_string()],
            vec!["3".to_string(), "c".to_string()],
        ]
    );
}

#[test]
fn compare_column_against_literal() {
    let mut db = Database::new();
    create_t(&mut db);
    db.execute(Query::Insert {
        table: "t".to_string(),
        columns: vec![],
        sources: vec![
            vec![Literal::Int(1), Literal::Str("a".to_string())],
            vec![Literal::Int(2), Literal::Str("b".to_string())],
            vec![Literal::Int(5), Literal::Str("c".to_string())],
        ],
    })
    .unwrap();
    // column {0:1, 1:2, 2:5} compared with > 1 gives {0:false, 1:true, 2:true}
    let v = select_t(&mut db, vec![where_id(Binary::Gt, 1)], vec![Expression::NoPredicate]);
    assert_eq!(v.headers().clone(), vec!["id".to_string()]);
    assert_eq!(
        rows_of(&v),
        vec![
            vec!["false".to_string()],
            vec!["true".to_string()],
            vec!["true".to_string()],
        ]
    );
}

#[test]
fn greater_or_equal_compares_correctly() {
    let mut db = Database::new();
    create_t(&mut db);
    insert_ab(&mut db);
    let v = select_t(&mut db, vec![where_id(Binary::GtEq, 2)], vec![Expression::NoPredicate]);
    assert_eq!(rows_of(&v), vec![vec!["false".to_string()], vec!["true".to_string()]]);
}

#[test]
fn truncate_preserves_watermark() {
    let mut db = Database::new();
    create_t(&mut db);
    insert_ab(&mut db);
    db.execute(Query::Truncate("t".to_string())).unwrap();
    let v = select_all(&mut db);
    assert_eq!(rows_of(&v).len(), 0);
    assert_eq!(db.tables()[0].next_row_id(), 2);
    db.execute(Query::Insert {
        table: "t".to_string(),
        columns: vec![],
        sources: vec![vec![Literal::Int(7), Literal::Str("q".to_string())]],
    })
    .unwrap();
    assert_eq!(db.tables()[0].next_row_id(), 3);
}

#[test]
fn delete_all_rows_equals_truncate() {
    let mut db1 = Database::new();
    create_t(&mut db1);
    insert_ab(&mut db1);
    let mut db2 = Database::new();
    create_t(&mut db2);
    insert_ab(&mut db2);
    // delete without a filter truncates the table
    db1.execute(Query::Delete { table: "t".to_string(), selection: None }).unwrap();
    db2.execute(Query::Truncate("t".to_string())).unwrap();
    let v1 = select_all(&mut db1);
    let v2 = select_all(&mut db2);
    assert_eq!(v1, v2);
    assert_eq!(rows_of(&v1).len(), 0);
    assert_eq!(db1.tables()[0].next_row_id(), db2.tables()[0].next_row_id());
}

#[test]
fn create_without_primary_key_fails() {
    let mut db = Database::new();
    let r = db.execute(Query::CreateTable {
        name: "t".to_string(),
        columns: vec![coldef("id", DataType::Int, false)],
    });
    assert!(matches!(r, Err(Error::InvalidOperation(_))));
    assert_eq!(db.tables().len(), 0);
}

#[test]
fn create_duplicate_name_fails_case_insensitively() {
    let mut db = Database::new();
    create_t(&mut db);
    let r = db.execute(Query::CreateTable {
        name: "T".to_string(),
        columns: vec![coldef("id", DataType::Int, true)],
    });
    assert!(matches!(r, Err(Error::TableAlreadyExists(_))));
}

#[test]
fn created_table_name_is_uppercased() {
    let mut db = Database::new();
    create_t(&mut db);
    assert_eq!(db.tables()[0].name, "T".to_string());
}

#[test]
fn missing_table_is_reported() {
    let mut db = Database::new();
    let r = db.execute(Query::Insert {
        table: "nowhere".to_string(),
        columns: vec![],
        sources: vec![],
    });
    assert!(matches!(r, Err(Error::TableNotFound(_))));
}

#[test]
fn missing_column_is_reported_with_table_name() {
    let mut db = Database::new();
    create_t(&mut db);
    let r = db.execute(Query::Select(Select {
        from: Some("t".to_string()),
        projection: vec![Expression::Ident(Ident::Named("nope".to_string()))],
        selection: vec![Expression::NoPredicate],
    }));
    match r {
        Err(Error::ColumnNotFound { col, table }) => {
            assert_eq!(col, "nope".to_string());
            assert_eq!(table, "T".to_string());
        }
        other => panic!("expected a column-not-found failure, got {:?}", other),
    }
}

#[test]
fn select_resolves_columns_case_insensitively() {
    let mut db = Database::new();
    create_t(&mut db);
    insert_ab(&mut db);
    let v = select_t(
        &mut db,
        vec![Expression::Ident(Ident::Named("ID".to_string()))],
        vec![Expression::NoPredicate],
    );
    assert_eq!(v.headers().clone(), vec!["id".to_string()]);
    assert_eq!(rows_of(&v), vec![vec!["1".to_string()], vec!["2".to_string()]]);
}

#[test]
fn insert_type_mismatch_moves_watermark_but_fails() {
    let mut db = Database::new();
    create_t(&mut db);
    let r = db.execute(Query::Insert {
        table: "t".to_string(),
        columns: vec![],
        sources: vec![vec![Literal::Str("oops".to_string()), Literal::Str("a".to_string())]],
    });
    assert!(matches!(r, Err(Error::InvalidQuery(_))));
    // the failed write already advanced the allocator: no rollback
    assert_eq!(db.tables()[0].next_row_id(), 1);
}

#[test]
fn update_without_filter_is_unsupported() {
    let mut db = Database::new();
    create_t(&mut db);
    let r = db.execute(Query::Update {
        table: "t".to_string(),
        assignments: vec![("name".to_string(), Literal::Str("z".to_string()))],
        selection: None,
    });
    assert!(matches!(r, Err(Error::Unsupported(_))));
}

#[test]
fn identifier_without_table_fails_evaluation() {
    let mut db = Database::new();
    let r = db.execute(Query::Select(Select {
        from: None,
        projection: vec![Expression::Ident(Ident::Named("id".to_string()))],
        selection: vec![Expression::NoPredicate],
    }));
    assert!(matches!(r, Err(Error::EvaluationError(_))));
}

#[test]
fn delete_with_non_boolean_filter_is_refused() {
    let mut db = Database::new();
    create_t(&mut db);
    insert_ab(&mut db);
    let r = db.execute(Query::Delete {
        table: "t".to_string(),
        selection: Some(Expression::Ident(Ident::Named("id".to_string()))),
    });
    assert!(matches!(r, Err(Error::InvalidOperation(_))));
}

#[test]
fn string_concatenation() {
    let mut db = Database::new();
    create_t(&mut db);
    insert_ab(&mut db);
    let expr = Expression::Binary {
        operator: Binary::Plus,
        left: Box::new(Expression::Ident(Ident::Named("name".to_string()))),
        right: Box::new(Expression::Ident(Ident::Named("name".to_string()))),
    };
    let v = select_t(&mut db, vec![expr], vec![Expression::NoPredicate]);
    assert_eq!(rows_of(&v), vec![vec!["aa".to_string()], vec!["bb".to_string()]]);
}

#[test]
fn arithmetic_overflow_is_refused() {
    let mut db = Database::new();
    create_t(&mut db);
    db.execute(Query::Insert {
        table: "t".to_string(),
        columns: vec![],
        sources: vec![vec![Literal::Int(2147483647), Literal::Str("x".to_string())]],
    })
    .unwrap();
    let expr = Expression::Binary {
        operator: Binary::Plus,
        left: Box::new(Expression::Ident(Ident::Named("id".to_string()))),
        right: Box::new(Expression::Ident(Ident::Named("id".to_string()))),
    };
    let r = db.execute(Query::Select(Select {
        from: Some("t".to_string()),
        projection: vec![expr],
        selection: vec![Expression::NoPredicate],
    }));
    assert!(matches!(r, Err(Error::InvalidOperation(_))));
}

#[test]
fn division_truncates_toward_zero() {
    let mut db = Database::new();
    create_t(&mut db);
    db.execute(Query::Insert {
        table: "t".to_string(),
        columns: vec![],
        sources: vec![vec![Literal::Int(-7), Literal::Str("x".to_string())]],
    })
    .unwrap();
    let div = Expression::Binary {
        operator: Binary::Div,
        left: Box::new(Expression::Ident(Ident::Named("id".to_string()))),
        right: Box::new(Expression::Literal(Literal::Int(2))),
    };
    let rem = Expression::Binary {
        operator: Binary::Rem,
        left: Box::new(Expression::Ident(Ident::Named("id".to_string()))),
        right: Box::new(Expression::Literal(Literal::Int(2))),
    };
    let v = select_t(&mut db, vec![div], vec![Expression::NoPredicate]);
    assert_eq!(rows_of(&v), vec![vec!["-3".to_string()]]);
    let v2 = select_t(&mut db, vec![rem], vec![Expression::NoPredicate]);
    assert_eq!(rows_of(&v2), vec![vec!["-1".to_string()]]);
}

#[test]
fn division_by_zero_is_refused() {
    let mut db = Database::new();
    create_t(&mut db);
    insert_ab(&mut db);
    let expr = Expression::Binary {
        operator: Binary::Div,
        left: Box::new(Expression::Ident(Ident::Named("id".to_string()))),
        right: Box::new(Expression::Literal(Literal::Int(0))),
    };
    let r = db.execute(Query::Select(Select {
        from: Some("t".to_string()),
        projection: vec![expr],
        selection: vec![Expression::NoPredicate],
    }));
    assert!(matches!(r, Err(Error::InvalidOperation(_))));
}

#[test]
fn unary_minus_on_column() {
    let mut db = Database::new();
    create_t(&mut db);
    insert_ab(&mut db);
    let expr = Expression::Unary {
        operator: Unary::Minus,
        expression: Box::new(Expression::Ident(Ident::Named("id".to_string()))),
    };
    let v = select_t(&mut db, vec![expr], vec![Expression::NoPredicate]);
    assert_eq!(rows_of(&v), vec![vec!["-1".to_string()], vec!["-2".to_string()]]);
}

#[test]
fn multiple_predicates_cross_product() {
    let mut db = Database::new();
    create_t(&mut db);
    insert_ab(&mut db);
    // two selection predicates yield one filtered copy per predicate, not
    // their conjunction
    let v = select_t(
        &mut db,
        vec![Expression::Ident(Ident::Named("name".to_string()))],
        vec![where_id(Binary::Gt, 0), where_id(Binary::Gt, 1)],
    );
    assert_eq!(v.headers().clone(), vec!["name".to_string(), "name".to_string()]);
    assert_eq!(
        rows_of(&v),
        vec![
            vec!["a".to_string(), "".to_string()],
            vec!["b".to_string(), "b".to_string()],
        ]
    );
}

#[test]
fn truth_test_filters_boolean_column() {
    let mut db = Database::new();
    db.execute(Query::CreateTable {
        name: "f".to_string(),
        columns: vec![coldef("id", DataType::Int, true), coldef("flag", DataType::Bool, false)],
    })
    .unwrap();
    db.execute(Query::Insert {
        table: "f".to_string(),
        columns: vec![],
        sources: vec![
            vec![Literal::Int(1), Literal::Bool(true)],
            vec![Literal::Int(2), Literal::Bool(false)],
        ],
    })
    .unwrap();
    let v = db
        .execute(Query::Select(Select {
            from: Some("f".to_string()),
            projection: vec![Expression::Ident(Ident::Named("id".to_string()))],
            selection: vec![Expression::IsTrue(Box::new(Expression::Ident(Ident::Named(
                "flag".to_string(),
            ))))],
        }))
        .unwrap()
        .unwrap();
    assert_eq!(rows_of(&v), vec![vec!["1".to_string()]]);
}

#[test]
fn null_literal_projects_no_columns() {
    let mut db = Database::new();
    create_t(&mut db);
    insert_ab(&mut db);
    let v = select_t(&mut db, vec![Expression::Literal(Literal::Null)], vec![
        Expression::NoPredicate,
    ]);
    assert_eq!(v.headers().len(), 0);
    assert_eq!(rows_of(&v).len(), 0);
}

#[test]
fn literal_projection_is_anonymous() {
    let mut db = Database::new();
    let v = db
        .execute(Query::Select(Select {
            from: None,
            projection: vec![Expression::Literal(Literal::Int(42))],
            selection: vec![Expression::NoPredicate],
        }))
        .unwrap()
        .unwrap();
    assert_eq!(v.headers().clone(), vec!["?column?".to_string()]);
    assert_eq!(rows_of(&v), vec![vec!["42".to_string()]]);
}

#[test]
fn persist_and_restore_reproduce_the_tables() {
    let mut db = Database::new();
    create_t(&mut db);
    insert_ab(&mut db);
    db.execute(Query::CreateTable {
        name: "f".to_string(),
        columns: vec![coldef("id", DataType::Int, true), coldef("flag", DataType::Bool, false)],
    })
    .unwrap();
    db.execute(Query::Insert {
        table: "f".to_string(),
        columns: vec![],
        sources: vec![vec![Literal::Int(-3), Literal::Bool(true)]],
    })
    .unwrap();
    db.execute(Query::Update {
        table: "t".to_string(),
        assignments: vec![("name".to_string(), Literal::Str("héllo wörld".to_string()))],
        selection: Some(where_id(Binary::Eq, 2)),
    })
    .unwrap();
    let blob = codec::persist_bytes(&db).unwrap();
    let mut restored = codec::restore_bytes(&blob).unwrap();
    assert_eq!(restored.tables().len(), db.tables().len());
    let v1 = select_all(&mut db);
    let v2 = select_all(&mut restored);
    assert_eq!(v1, v2);
    let f1 = db
        .execute(Query::Select(Select {
            from: Some("f".to_string()),
            projection: vec![Expression::Ident(Ident::Wildcard)],
            selection: vec![Expression::NoPredicate],
        }))
        .unwrap()
        .unwrap();
    let f2 = restored
        .execute(Query::Select(Select {
            from: Some("f".to_string()),
            projection: vec![Expression::Ident(Ident::Wildcard)],
            selection: vec![Expression::NoPredicate],
        }))
        .unwrap()
        .unwrap();
    assert_eq!(f1, f2);
    assert_eq!(restored.tables()[0].next_row_id(), db.tables()[0].next_row_id());
}

#[test]
fn restore_refuses_garbage() {
    let r = codec::restore_bytes(&vec![1u8, 2, 3, 4]);
    assert!(r.is_err());
}

#[test]
fn drop_removes_the_table_silently() {
    let mut db = Database::new();
    create_t(&mut db);
    db.execute(Query::Drop("T".to_string())).unwrap();
    assert_eq!(db.tables().len(), 0);
    // dropping an unknown table is a no-op
    db.execute(Query::Drop("ghost".to_string())).unwrap();
}

#[test]
fn notifications_are_left_in_the_outbox() {
    let mut db = Database::new();
    create_t(&mut db);
    insert_ab(&mut db);
    db.execute(Query::Truncate("t".to_string())).unwrap();
    let notes = db.take_notifications();
    assert_eq!(notes.len(), 2);
    match &notes[0] {
        Notification::Updated { table, view } => {
            assert_eq!(table, &"T".to_string());
            assert_eq!(view.rows().len(), 2);
        }
        other => panic!("expected an update notification, got {:?}", other),
    }
    match &notes[1] {
        Notification::Truncated { table } => assert_eq!(table, &"t".to_string()),
        other => panic!("expected a truncation notification, got {:?}", other),
    }
    assert_eq!(db.take_notifications().len(), 0);
}

#[test]
fn meta_commands_parse() {
    assert_eq!(MetaCommand::parse(".exit").unwrap(), MetaCommand::Exit);
    assert_eq!(MetaCommand::parse(".tables").unwrap(), MetaCommand::ListTables);
    assert_eq!(
        MetaCommand::parse(".persist /tmp/snap").unwrap(),
        MetaCommand::Persist("/tmp/snap".to_string())
    );
    assert_eq!(
        MetaCommand::parse(".restore snap.db").unwrap(),
        MetaCommand::Restore("snap.db".to_string())
    );
    assert!(matches!(MetaCommand::parse(".persist"), Err(Error::InvalidMetaCommand(_))));
    assert!(matches!(MetaCommand::parse("select 1"), Err(Error::InvalidMetaCommand(_))));
}

#[test]
fn evaluator_literal_without_table() {
    let cols = Evaluator::eval(None, Expression::Literal(Literal::Bool(true))).unwrap();
    assert_eq!(cols.len(), 1);
    assert_eq!(cols[0].name, "?column?".to_string());
}
