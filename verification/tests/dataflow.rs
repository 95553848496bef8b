use dataflow_types::connector::{
    HostAddr, KafkaSinkConnector, KafkaSourceConnector, LocalSourceConnector, NetAddr,
    SinkConnector, SourceConnector, TailChannel, TailSinkConnector,
};
use dataflow_types::{
    AsOfLoosened, ColumnType, Dataflow, Datum, RelationDesc, RelationExpr, RelationType, Row,
    ScalarExpr, ScalarType, Sink, SinkHasNoShape, Source, Update, View,
};
use url::Url;
use uuid::Uuid;

fn get(name: &str) -> RelationExpr {
    RelationExpr::Get {
        name: name.into(),
        typ: RelationType::new(vec![ColumnType::new(ScalarType::Int64)]),
    }
}

fn two_columns() -> RelationDesc {
    RelationDesc::empty()
        .add_column("name", ScalarType::String)
        .add_column("quantity", ScalarType::String)
}

fn local_source(name: &str) -> Dataflow {
    Dataflow::Source(Source {
        name: name.into(),
        connector: SourceConnector::Local(LocalSourceConnector { uuid: Uuid::from_u128(7) }),
        desc: two_columns(),
    })
}

fn kafka_sink(name: &str, from: &str) -> Dataflow {
    Dataflow::Sink(Sink {
        name: name.into(),
        from: (from.into(), two_columns()),
        connector: SinkConnector::Kafka(KafkaSinkConnector {
            addr: NetAddr { host: HostAddr::V4(0x7f00_0001), port: 9092 },
            topic: "out".into(),
            schema_id: 12,
        }),
    })
}

fn view(name: &str, relation_expr: RelationExpr) -> View {
    View {
        name: name.into(),
        raw_sql: "<none>".into(),
        relation_expr,
        desc: two_columns(),
        as_of: None,
    }
}

fn report() -> Dataflow {
    Dataflow::View(view(
        "report",
        RelationExpr::Project {
            outputs: vec![1, 2],
            input: Box::new(RelationExpr::Join {
                inputs: vec![
                    get("orders"),
                    RelationExpr::Union {
                        left: Box::new(get("customers2018")),
                        right: Box::new(get("customers2019")),
                    }
                    .distinct(),
                ],
                variables: vec![vec![(0, 0), (1, 0)]],
            }),
        },
    ))
}

fn sorted(mut names: Vec<&str>) -> Vec<&str> {
    names.sort();
    names
}

#[test]
fn name_is_reported_for_every_kind() {
    assert_eq!(local_source("orders").name(), "orders");
    assert_eq!(kafka_sink("export", "orders").name(), "export");
    assert_eq!(report().name(), "report");
}

#[test]
fn source_uses_nothing() {
    assert_eq!(local_source("orders").uses(), Vec::<&str>::new());
}

#[test]
fn sink_uses_what_it_reads() {
    assert_eq!(kafka_sink("export", "orders").uses(), vec!["orders"]);
}

#[test]
fn view_uses_every_relation_it_gets() {
    let joined = Dataflow::View(view(
        "joined",
        RelationExpr::Join {
            inputs: vec![
                get("orders"),
                RelationExpr::Union { left: Box::new(get("a")), right: Box::new(get("b")) },
            ],
            variables: vec![],
        },
    ));
    assert_eq!(sorted(joined.uses()), vec!["a", "b", "orders"]);
    assert_eq!(sorted(report().uses()), vec!["customers2018", "customers2019", "orders"]);
}

#[test]
fn view_uses_each_name_once_at_any_depth() {
    let nested = RelationExpr::Union {
        left: Box::new(RelationExpr::Filter {
            input: Box::new(get("orders").distinct()),
            predicates: vec![ScalarExpr::Literal(Datum::True)],
        }),
        right: Box::new(RelationExpr::Join {
            inputs: vec![get("a"), get("orders"), get("a"), get("b").distinct().distinct()],
            variables: vec![],
        }),
    };
    let flow = Dataflow::View(view("nested", nested));
    assert_eq!(sorted(flow.uses()), vec!["a", "b", "orders"]);
}

#[test]
fn view_does_not_use_what_it_binds() {
    let bound = RelationExpr::Let {
        name: "both".into(),
        value: Box::new(RelationExpr::Union {
            left: Box::new(get("a")),
            right: Box::new(get("b")),
        }),
        body: Box::new(RelationExpr::Join {
            inputs: vec![get("both"), get("orders"), get("both")],
            variables: vec![],
        }),
    };
    let flow = Dataflow::View(view("bound", bound));
    assert_eq!(sorted(flow.uses()), vec!["a", "b", "orders"]);
}

#[test]
fn binding_does_not_hide_a_name_in_its_own_value() {
    let shadow = RelationExpr::Let {
        name: "orders".into(),
        value: Box::new(get("orders")),
        body: Box::new(get("orders")),
    };
    let flow = Dataflow::View(view("shadow", shadow));
    assert_eq!(flow.uses(), vec!["orders"]);
    let unused = RelationExpr::Let {
        name: "x".into(),
        value: Box::new(get("a")),
        body: Box::new(get("x")),
    };
    assert_eq!(Dataflow::View(view("unused", unused)).uses(), vec!["a"]);
}

#[test]
fn unbound_uses_adds_a_name_for_each_place() {
    let expr = RelationExpr::Union { left: Box::new(get("a")), right: Box::new(get("a")) };
    let mut out = vec!["before"];
    expr.unbound_uses(&mut out);
    assert_eq!(out, vec!["before", "a", "a"]);
}

#[test]
fn unbound_uses_go_by_the_order_of_the_places() {
    let expr = RelationExpr::Let {
        name: "x".into(),
        value: Box::new(RelationExpr::Join {
            inputs: vec![get("c"), get("x"), get("a")],
            variables: vec![],
        }),
        body: Box::new(RelationExpr::Union {
            left: Box::new(get("x")),
            right: Box::new(RelationExpr::Project {
                input: Box::new(RelationExpr::Join {
                    inputs: vec![get("b"), get("x"), get("a")],
                    variables: vec![],
                }),
                outputs: vec![0],
            }),
        }),
    };
    let mut out = Vec::new();
    expr.unbound_uses(&mut out);
    assert_eq!(out, vec!["c", "x", "a", "b", "a"]);
}

#[test]
fn desc_and_typ_of_source_and_view() {
    let source = local_source("orders");
    assert_eq!(source.desc(), &two_columns());
    assert_eq!(
        source.typ(),
        &RelationType::new(vec![
            ColumnType::new(ScalarType::String),
            ColumnType::new(ScalarType::String)
        ])
    );
    assert_eq!(report().desc(), &two_columns());
    assert_eq!(report().typ().arity(), 2);
    assert_eq!(source.checked_desc(), Ok(&two_columns()));
    assert_eq!(report().checked_typ(), Ok(two_columns().typ()));
}

#[test]
fn sink_has_no_shape() {
    let sink = kafka_sink("export", "orders");
    assert_eq!(sink.checked_desc(), Err(SinkHasNoShape));
    assert_eq!(sink.checked_typ(), Err(SinkHasNoShape));
}

#[test]
fn description_grows_by_columns() {
    let desc = two_columns();
    assert_eq!(desc.names, vec![Some("name".to_string()), Some("quantity".to_string())]);
    assert_eq!(
        desc.typ.column_types,
        vec![
            ColumnType { scalar_type: ScalarType::String, nullable: false },
            ColumnType { scalar_type: ScalarType::String, nullable: false }
        ]
    );
    assert_eq!(RelationDesc::empty().typ().arity(), 0);
    assert_eq!(
        ColumnType::new(ScalarType::Int32).nullable(true),
        ColumnType { scalar_type: ScalarType::Int32, nullable: true }
    );
}

#[test]
fn dataflow_equals_its_clone() {
    let kafka = Dataflow::Source(Source {
        name: "events".into(),
        connector: SourceConnector::Kafka(KafkaSourceConnector {
            addr: NetAddr {
                host: HostAddr::V6 { addr: 1, flowinfo: 0, scope_id: 0 },
                port: 9092,
            },
            topic: "events".into(),
            raw_schema: "{}".into(),
            schema_registry_url: Some(Url::parse("http://localhost:8081/").unwrap()),
        }),
        desc: two_columns(),
    });
    assert_eq!(kafka.clone(), kafka);
    assert_eq!(report().clone(), report());
    assert_eq!(kafka_sink("export", "orders").clone(), kafka_sink("export", "orders"));
    assert_ne!(report(), local_source("report"));
    assert_ne!(local_source("a"), local_source("b"));
    assert_eq!(local_source("a").clone(), local_source("a"));
    let other_id = Dataflow::Source(Source {
        name: "a".into(),
        connector: SourceConnector::Local(LocalSourceConnector { uuid: Uuid::from_u128(8) }),
        desc: two_columns(),
    });
    assert_ne!(other_id.clone(), local_source("a"));
}

#[test]
fn as_of_may_be_set_and_tightened() {
    let mut v = view("v", get("orders"));
    assert_eq!(v.admits(0), None);
    assert_eq!(v.tighten_as_of(vec![5, 3]), Ok(()));
    assert_eq!(v.as_of, Some(vec![5, 3]));
    assert_eq!(v.admits(4), Some(false));
    assert_eq!(v.admits(5), Some(true));
    assert_eq!(v.tighten_as_of(vec![5]), Ok(()));
    assert_eq!(v.tighten_as_of(vec![2, 9]), Ok(()));
    assert_eq!(v.as_of, Some(vec![2, 9]));
    assert_eq!(v.admits(8), Some(false));
    assert_eq!(v.admits(9), Some(true));
}

#[test]
fn as_of_may_not_be_loosened() {
    let mut v = view("v", get("orders"));
    assert_eq!(v.tighten_as_of(vec![5, 3]), Ok(()));
    assert_eq!(v.tighten_as_of(vec![4, 4]), Err(AsOfLoosened));
    assert_eq!(v.as_of, Some(vec![5, 3]));
    assert_eq!(v.tighten_as_of(vec![]), Err(AsOfLoosened));
    assert_eq!(v.as_of, Some(vec![5, 3]));
    assert_eq!(v.name, "v");
    let mut at_zero = view("z", get("orders"));
    assert_eq!(at_zero.tighten_as_of(vec![0]), Ok(()));
    assert_eq!(at_zero.tighten_as_of(vec![]), Ok(()));
    assert_eq!(at_zero.admits(0), Some(true));
}

fn at(row: i64, timestamp: u64) -> Update {
    Update { row: Row { datums: vec![Datum::Int64(row)] }, timestamp, diff: 1 }
}

fn tail(since: u64) -> TailSinkConnector {
    TailSinkConnector { tx: TailChannel { uuid: Uuid::from_u128(1) }, since }
}

#[test]
fn tail_takes_batches_in_time_order() {
    let t = tail(3);
    assert!(t.admits_delivery(&vec![]));
    assert!(t.admits_delivery(&vec![vec![], vec![]]));
    assert!(t.admits_delivery(&vec![vec![at(1, 3), at(2, 3)], vec![at(3, 3), at(1, 4)]]));
    // within a batch the order is free
    assert!(t.admits_delivery(&vec![vec![at(1, 4), at(2, 3), at(3, 4)], vec![at(1, 4)]]));
    assert!(t.admits_delivery(&vec![vec![at(1, 5)], vec![], vec![at(1, 5), at(2, 9)]]));
}

#[test]
fn tail_refuses_updates_before_since_or_out_of_order() {
    let t = tail(3);
    assert!(!t.admits_delivery(&vec![vec![at(1, 2)]]));
    assert!(!t.admits_delivery(&vec![vec![at(1, 3)], vec![at(1, 7), at(2, 2)]]));
    assert!(!t.admits_delivery(&vec![vec![at(1, 5)], vec![at(1, 4)]]));
    assert!(!t.admits_delivery(&vec![vec![at(1, 4), at(1, 6)], vec![], vec![at(1, 5)]]));
    assert_eq!(SinkConnector::Tail(tail(3)), SinkConnector::Tail(tail(3)));
    assert_ne!(SinkConnector::Tail(tail(3)), SinkConnector::Tail(tail(4)));
}
