use risingwave_core::manager::database::{
    CatalogError, DatabaseManager, FunctionKey, GrantObject, ObjectKind, SchemaKey,
};
use risingwave_core::manager::objects::{
    Connection, CreateType, DataType, Database, Function, Index, LogicalView, RelationKey, Schema,
    Sink, Source, StreamJobStatus, Subscription, SubscriptionState, Table, TableType,
};

fn table(id: u32, name: &str, table_type: TableType, status: StreamJobStatus, create_type: CreateType) -> Table {
    Table {
        id,
        schema_id: 1,
        database_id: 1,
        name: name.to_string(),
        owner: 10,
        table_type,
        stream_job_status: status,
        create_type,
        dependent_relations: vec![],
        retention_seconds: Some(30),
        definition: format!("create {}", name),
    }
}

fn text() -> DataType {
    DataType {
        type_code: 7,
        precision: 0,
        scale: 0,
        is_nullable: true,
        interval_type: 0,
        field_type: vec![],
        field_names: vec![],
    }
}

fn key(name: &str) -> RelationKey {
    RelationKey { database_id: 1, schema_id: 1, name: name.to_string() }
}

fn manager() -> DatabaseManager {
    let mut mv = table(2, "mv", TableType::MaterializedView, StreamJobStatus::Created, CreateType::Foreground);
    mv.dependent_relations = vec![1, 1];
    DatabaseManager::new(
        vec![Database { id: 1, name: "dev".to_string(), owner: 20 }],
        vec![
            Schema { id: 1, database_id: 1, name: "public".to_string(), owner: 21 },
            Schema { id: 2, database_id: 1, name: "empty".to_string(), owner: 21 },
        ],
        vec![Source {
            id: 3,
            schema_id: 1,
            database_id: 1,
            name: "src".to_string(),
            owner: 22,
            connection_id: Some(9),
            is_shared: false,
        }],
        vec![Sink {
            id: 4,
            schema_id: 1,
            database_id: 1,
            name: "snk".to_string(),
            owner: 23,
            stream_job_status: StreamJobStatus::Created,
            dependent_relations: vec![2],
        }],
        vec![
            table(1, "t", TableType::Table, StreamJobStatus::Created, CreateType::Foreground),
            mv,
            table(11, "bg", TableType::MaterializedView, StreamJobStatus::Creating, CreateType::Background),
        ],
        vec![Index {
            id: 5,
            schema_id: 1,
            database_id: 1,
            name: "idx".to_string(),
            owner: 24,
            stream_job_status: StreamJobStatus::Created,
        }],
        vec![LogicalView {
            id: 6,
            schema_id: 1,
            database_id: 1,
            name: "v".to_string(),
            owner: 25,
            dependent_relations: vec![1],
        }],
        vec![Function {
            id: 7,
            schema_id: 1,
            database_id: 1,
            name: "f".to_string(),
            owner: 26,
            arg_types: vec![text()],
        }],
        vec![Connection { id: 9, schema_id: 1, database_id: 1, name: "con".to_string(), owner: 27 }],
        vec![Subscription {
            id: 8,
            schema_id: 1,
            database_id: 1,
            name: "sub".to_string(),
            owner: 28,
            subscription_state: SubscriptionState::Created,
            dependent_table_id: 2,
        }],
    )
}

#[test]
fn references_are_counted() {
    let mut m = manager();
    assert_eq!(m.relation_ref_count.get(&1), Some(&3));
    assert_eq!(m.relation_ref_count.get(&2), Some(&2));
    assert_eq!(m.relation_ref_count.get(&9), Some(&1));
    m.increase_ref_count(4);
    assert_eq!(m.relation_ref_count.get(&4), Some(&1));
    m.decrease_ref_count(4);
    assert_eq!(m.relation_ref_count.get(&4), None);
    m.decrease_ref_count(1);
    assert_eq!(m.relation_ref_count.get(&1), Some(&2));
}

#[test]
fn creations_are_marked() {
    let mut m = manager();
    assert!(!m.has_in_progress_creation(&key("new")));
    m.mark_creating(&key("new"));
    assert!(m.has_in_progress_creation(&key("new")));
    assert!(m.has_creation_in_database(1));
    assert!(!m.has_creation_in_database(2));
    assert!(m.has_creation_in_schema(1));
    m.unmark_creating(&key("new"));
    assert!(!m.has_in_progress_creation(&key("new")));
    m.mark_creating_streaming_job(30, key("job"));
    assert_eq!(m.find_creating_streaming_job_id(&key("job")), Some(30));
    assert_eq!(m.all_creating_streaming_jobs(), vec![30]);
    m.unmark_creating_streaming_job(30);
    assert_eq!(m.find_creating_streaming_job_id(&key("job")), None);
    assert_eq!(m.find_persisted_creating_table_id(&key("bg")), Some(11));
    m.mark_creating_tables(vec![table(
        40,
        "x",
        TableType::Internal,
        StreamJobStatus::Creating,
        CreateType::Foreground,
    )]);
    assert!(m.in_progress_creating_tables.contains_key(&40));
    m.unmark_creating_tables(&vec![40]);
    assert!(!m.in_progress_creating_tables.contains_key(&40));
}

#[test]
fn names_are_given_once() {
    let m = manager();
    for name in ["t", "src", "snk", "idx", "v", "sub"] {
        assert!(matches!(
            m.check_relation_name_duplicated(&key(name)),
            Err(CatalogError::Duplicated { .. })
        ));
    }
    assert!(matches!(
        m.check_relation_name_duplicated(&key("bg")),
        Err(CatalogError::TableCreating { table_id: 11 })
    ));
    assert!(m.check_relation_name_duplicated(&key("free")).is_ok());
    assert!(m.check_connection_name_duplicated(&key("con")).is_err());
    assert!(m.check_connection_name_duplicated(&key("t")).is_ok());
    let function = |args| FunctionKey { relation: key("f"), arg_types: args };
    assert!(m.check_function_duplicated(&function(vec![text()])).is_err());
    assert!(m.check_function_duplicated(&function(vec![])).is_ok());
    assert!(m.check_database_duplicated(&"dev".to_string()).is_err());
    assert!(m.check_database_duplicated(&"prod".to_string()).is_ok());
    let schema = |name: &str| SchemaKey { database_id: 1, name: name.to_string() };
    assert!(m.check_schema_duplicated(&schema("public")).is_err());
    assert!(m.check_schema_duplicated(&schema("other")).is_ok());
}

#[test]
fn objects_are_listed() {
    let m = manager();
    assert!(m.schema_is_empty(2));
    assert!(!m.schema_is_empty(1));
    assert_eq!(m.list_dml_table_ids(1), vec![1]);
    assert_eq!(m.list_readonly_table_ids(1), vec![2, 11]);
    assert_eq!(m.list_view_ids(1), vec![6]);
    assert_eq!(m.list_source_ids(1), vec![3]);
    assert_eq!(m.list_creating_background_mvs().len(), 1);
    assert_eq!(m.list_persisted_creating_tables().len(), 1);
    assert_eq!(m.get_all_table_options()[&1].retention_seconds, Some(30));
    let catalog = m.get_catalog();
    assert_eq!(catalog.databases.len(), 1);
    let shown: Vec<u32> = catalog.tables.iter().map(|t| t.id).collect();
    assert_eq!(shown, vec![1, 2]);
    assert_eq!(m.list_databases().len(), 1);
    assert_eq!(m.list_schemas().len(), 2);
    assert_eq!(m.list_tables().len(), 3);
    assert_eq!(m.list_sources().len(), 1);
    assert_eq!(m.list_sinks().len(), 1);
    assert_eq!(m.list_subscriptions().len(), 1);
    assert_eq!(m.list_views().len(), 1);
    assert_eq!(m.list_connections().len(), 1);
    assert_eq!(m.get_sink(4).unwrap().name, "snk");
    assert_eq!(m.get_subscription(8).unwrap().name, "sub");
    assert_eq!(m.get_connection(9).unwrap().name, "con");
    assert_eq!(m.list_stream_job_ids(), vec![1, 2, 11, 4, 5, 3]);
    assert_eq!(m.get_table(1).unwrap().name, "t");
    assert!(m.get_table(99).is_none());
    let names = m.get_table_name_and_type_mapping();
    assert_eq!(names[&2].0, "mv");
    assert_eq!(names[&2].1, TableType::MaterializedView);
}

#[test]
fn owners_are_found() {
    let m = manager();
    assert_eq!(m.get_object_owner(GrantObject::DatabaseId(1)).unwrap(), 20);
    assert_eq!(m.get_object_owner(GrantObject::SchemaId(1)).unwrap(), 21);
    assert_eq!(m.get_object_owner(GrantObject::TableId(1)).unwrap(), 10);
    assert_eq!(m.get_object_owner(GrantObject::SourceId(3)).unwrap(), 22);
    assert_eq!(m.get_object_owner(GrantObject::SinkId(4)).unwrap(), 23);
    assert_eq!(m.get_object_owner(GrantObject::ViewId(6)).unwrap(), 25);
    assert_eq!(m.get_object_owner(GrantObject::FunctionId(7)).unwrap(), 26);
    assert_eq!(m.get_object_owner(GrantObject::SubscriptionId(8)).unwrap(), 28);
    assert!(matches!(
        m.get_object_owner(GrantObject::TableId(99)),
        Err(CatalogError::IdNotFound { kind: ObjectKind::Table, id: 99 })
    ));
    assert!(m.ensure_table_view_or_source_id(6).is_ok());
    assert!(matches!(
        m.ensure_table_view_or_source_id(4),
        Err(CatalogError::IdNotFound { kind: ObjectKind::TableViewOrSource, id: 4 })
    ));
    assert!(m.ensure_sink_id(4).is_ok());
    assert!(m.ensure_index_id(4).is_err());
    assert!(m.ensure_database_id(1).is_ok());
    assert!(matches!(
        m.ensure_database_id(2),
        Err(CatalogError::IdNotFound { kind: ObjectKind::Database, id: 2 })
    ));
    assert!(m.ensure_schema_id(2).is_ok());
    assert!(m.ensure_view_id(6).is_ok());
    assert!(m.ensure_table_id(6).is_err());
    assert!(m.ensure_source_id(3).is_ok());
    assert!(m.ensure_subscription_id(8).is_ok());
    assert!(m.ensure_connection_id(9).is_ok());
    assert!(m.ensure_function_id(7).is_ok());
    assert!(m.ensure_function_id(8).is_err());
}
