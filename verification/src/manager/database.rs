//! The objects of all databases, what refers to them, and what is being created.
use crate::common::collections::{ascending_of, map_keys};
use crate::manager::objects::{any_in_schema, any_named, by_id, check_same_types, collect_by_id};
use crate::manager::objects::{ids_in_schema, list_ids_in_schema, list_shown, list_values, same_types};
use crate::manager::objects::{shown_of, some_in_schema, some_named, values_of};
use crate::manager::objects::{Connection, CreateType, DataType, Database, Function, Identified};
use crate::manager::objects::{Index, LogicalView, Named, RelationKey, RelationName, Schema, Sink};
use crate::manager::objects::{Source, StreamJobStatus, Subscription, Table, TableType};
use crate::manager::refs::{add_refs, is_ref_count, lemma_refs_start, refs_of};
use std::collections::BTreeMap;
use vstd::prelude::*;

verus! {

broadcast use {
    vstd::std_specs::btree::group_btree_axioms,
    vstd::laws_cmp::group_laws_cmp,
};

/// A kind of object.
#[derive(Clone, Copy, Debug, PartialEq, Eq, Structural)]
pub enum ObjectKind {
    Database,
    Schema,
    Table,
    Source,
    Index,
    Sink,
    Subscription,
    LogicalView,
    Function,
    Connection,
    TableViewOrSource,
}

/// Why a request about objects is refused.
#[derive(Clone, Copy, Debug, PartialEq, Eq, Structural)]
pub enum CatalogError {
    /// A table of that name is being created.
    TableCreating { table_id: u32 },
    /// There is an object of that name.
    Duplicated { kind: ObjectKind },
    /// There is no object of that id.
    IdNotFound { kind: ObjectKind, id: u32 },
}

/// The name of a function, with the types of its arguments.
#[derive(Debug)]
pub struct FunctionKey {
    pub relation: RelationKey,
    pub arg_types: Vec<DataType>,
}

/// The name of a schema.
#[derive(Debug)]
pub struct SchemaKey {
    pub database_id: u32,
    pub name: String,
}

/// An object that privileges are granted on.
#[derive(Clone, Copy, Debug, PartialEq, Eq, Structural)]
pub enum GrantObject {
    DatabaseId(u32),
    SchemaId(u32),
    TableId(u32),
    SourceId(u32),
    SinkId(u32),
    SubscriptionId(u32),
    ViewId(u32),
    FunctionId(u32),
}

/// How long the rows of a table are kept.
#[derive(Clone, Copy, Debug, PartialEq, Eq, Structural)]
pub struct TableOption {
    pub retention_seconds: Option<u32>,
}

/// Everything that is shown of the databases.
pub struct Catalog<'a> {
    pub databases: Vec<&'a Database>,
    pub schemas: Vec<&'a Schema>,
    pub tables: Vec<&'a Table>,
    pub sources: Vec<&'a Source>,
    pub sinks: Vec<&'a Sink>,
    pub subscriptions: Vec<&'a Subscription>,
    pub indexes: Vec<&'a Index>,
    pub views: Vec<&'a LogicalView>,
    pub functions: Vec<&'a Function>,
    pub connections: Vec<&'a Connection>,
}

/// A choice among the tables.
#[derive(Clone, Copy, Debug, PartialEq, Eq, Structural)]
pub enum TableChoice {
    /// Materialized views that are being created in the background.
    CreatingBackgroundMv,
    /// Tables that are being created.
    Creating,
    /// Tables of a schema that statements cannot change.
    Readonly(u32),
    /// Tables of a schema that statements can change.
    Dml(u32),
}

/// The table is among the chosen ones.
pub open spec fn is_chosen(t: Table, choice: TableChoice) -> bool {
    match choice {
        TableChoice::CreatingBackgroundMv => t.stream_job_status == StreamJobStatus::Creating
            && t.table_type == TableType::MaterializedView && t.create_type
            == CreateType::Background,
        TableChoice::Creating => t.stream_job_status == StreamJobStatus::Creating,
        TableChoice::Readonly(schema_id) => t.schema_id == schema_id && t.table_type
            != TableType::Table,
        TableChoice::Dml(schema_id) => t.schema_id == schema_id && t.table_type
            == TableType::Table,
    }
}

/// The chosen tables, by ascending key.
pub open spec fn chosen<'a>(ids: Seq<u32>, tables: Map<u32, Table>, choice: TableChoice) -> Seq<
    &'a Table,
>
    decreases ids.len(),
{
    if ids.len() == 0 {
        Seq::empty()
    } else if is_chosen(tables[ids.last()], choice) {
        chosen(ids.drop_last(), tables, choice).push(&tables[ids.last()])
    } else {
        chosen(ids.drop_last(), tables, choice)
    }
}

/// The ids of tables.
pub open spec fn table_ids(tables: Seq<&Table>) -> Seq<u32> {
    Seq::new(tables.len(), |i: int| tables[i].id)
}

/// The first table with the name, by ascending key.
pub open spec fn first_named(ids: Seq<u32>, tables: Map<u32, Table>, key: RelationName) -> Option<u32>
    decreases ids.len(),
{
    if ids.len() == 0 {
        None
    } else if tables[ids[0]].key() == key {
        Some(ids[0])
    } else {
        first_named(ids.skip(1), tables, key)
    }
}

/// The first table with the name that is being created, by ascending key.
pub open spec fn first_creating(ids: Seq<u32>, tables: Map<u32, Table>, key: RelationName) -> Option<
    u32,
>
    decreases ids.len(),
{
    if ids.len() == 0 {
        None
    } else if tables[ids[0]].stream_job_status == StreamJobStatus::Creating && tables[ids[0]].key()
        == key {
        Some(ids[0])
    } else {
        first_creating(ids.skip(1), tables, key)
    }
}

/// The first job with the name, by ascending key.
pub open spec fn first_job(ids: Seq<u32>, jobs: Map<u32, RelationKey>, key: RelationName) -> Option<u32>
    decreases ids.len(),
{
    if ids.len() == 0 {
        None
    } else if jobs[ids[0]]@ == key {
        Some(ids[0])
    } else {
        first_job(ids.skip(1), jobs, key)
    }
}

/// The sources that jobs share, by ascending key.
pub open spec fn shared_sources(ids: Seq<u32>, sources: Map<u32, Source>) -> Seq<u32>
    decreases ids.len(),
{
    if ids.len() == 0 {
        Seq::empty()
    } else if sources[ids.last()].is_shared {
        shared_sources(ids.drop_last(), sources).push(ids.last())
    } else {
        shared_sources(ids.drop_last(), sources)
    }
}

/// The count after one more reference.
pub open spec fn increased(counts: Map<u32, usize>, id: u32) -> Map<u32, usize> {
    counts.insert(
        id,
        (if counts.contains_key(id) {
            counts[id] + 1
        } else {
            1
        }) as usize,
    )
}

/// The count after one reference less; an object that nothing refers to is not counted.
pub open spec fn decreased(counts: Map<u32, usize>, id: u32) -> Map<u32, usize> {
    if counts[id] == 1 {
        counts.remove(id)
    } else {
        counts.insert(id, (counts[id] - 1) as usize)
    }
}

/// Taking back a reference undoes it.
pub proof fn lemma_ref_count_inverse(counts: Map<u32, usize>, id: u32)
    requires
        counts.contains_key(id) ==> 0 < counts[id] < usize::MAX,
    ensures
        decreased(increased(counts, id), id) == counts,
{
    assert(decreased(increased(counts, id), id) =~= counts);
}

/// The names of the list.
pub open spec fn names_in(list: Seq<RelationKey>) -> Set<RelationName> {
    Set::new(|k: RelationName| has_name(list, k))
}

/// Some database has the name.
pub open spec fn database_named(databases: Map<u32, Database>, name: Seq<char>) -> bool {
    exists|id: u32| #[trigger] databases.contains_key(id) && databases[id].name@ == name
}

/// Some schema of the database has the name.
pub open spec fn schema_named(schemas: Map<u32, Schema>, database_id: u32, name: Seq<char>) -> bool {
    exists|id: u32| #[trigger]
        schemas.contains_key(id) && schemas[id].database_id == database_id && schemas[id].name@
            == name
}

/// The list has the name.
pub open spec fn has_name(list: Seq<RelationKey>, k: RelationName) -> bool {
    exists|i: int| 0 <= i < list.len() && (#[trigger] list[i])@ == k
}

/// The tables are entered by id.
pub open spec fn with_tables(m: Map<u32, Table>, tables: Seq<Table>) -> Map<u32, Table>
    decreases tables.len(),
{
    if tables.len() == 0 {
        m
    } else {
        with_tables(m, tables.drop_last()).insert(tables.last().id, tables.last())
    }
}

/// The objects of all databases.
#[derive(Debug)]
pub struct DatabaseManager {
    pub databases: BTreeMap<u32, Database>,
    pub schemas: BTreeMap<u32, Schema>,
    pub sources: BTreeMap<u32, Source>,
    pub sinks: BTreeMap<u32, Sink>,
    pub subscriptions: BTreeMap<u32, Subscription>,
    pub indexes: BTreeMap<u32, Index>,
    pub tables: BTreeMap<u32, Table>,
    pub views: BTreeMap<u32, LogicalView>,
    pub functions: BTreeMap<u32, Function>,
    pub connections: BTreeMap<u32, Connection>,
    /// How many objects refer to each object.
    pub relation_ref_count: BTreeMap<u32, usize>,
    /// The names of objects that are being created.
    pub in_progress_creation_tracker: Vec<RelationKey>,
    /// The streaming jobs that are being created.
    pub in_progress_creation_streaming_job: BTreeMap<u32, RelationKey>,
    /// The tables that are being created, internal ones among them.
    pub in_progress_creating_tables: BTreeMap<u32, Table>,
}

/// All references among the stored objects.
pub open spec fn all_refs(
    sources: Seq<Source>,
    sinks: Seq<Sink>,
    subscriptions: Seq<Subscription>,
    tables: Seq<Table>,
    views: Seq<LogicalView>,
) -> Seq<u32> {
    refs_of(sources) + refs_of(sinks) + refs_of(subscriptions) + refs_of(tables) + refs_of(views)
}

impl DatabaseManager {
    /// An object that is counted is referred to.
    pub open spec fn wf(&self) -> bool {
        forall|id: u32| #[trigger]
            self.relation_ref_count@.contains_key(id) ==> self.relation_ref_count@[id] > 0
    }

    /// Only the part of the manager that records creations differs.
    pub open spec fn same_objects(&self, other: &DatabaseManager) -> bool {
        &&& self.databases == other.databases
        &&& self.schemas == other.schemas
        &&& self.sources == other.sources
        &&& self.sinks == other.sinks
        &&& self.subscriptions == other.subscriptions
        &&& self.indexes == other.indexes
        &&& self.tables == other.tables
        &&& self.views == other.views
        &&& self.functions == other.functions
        &&& self.connections == other.connections
    }

    /// The stored objects, with how often each is referred to.
    pub fn new(
        databases: Vec<Database>,
        schemas: Vec<Schema>,
        sources: Vec<Source>,
        sinks: Vec<Sink>,
        tables: Vec<Table>,
        indexes: Vec<Index>,
        views: Vec<LogicalView>,
        functions: Vec<Function>,
        connections: Vec<Connection>,
        subscriptions: Vec<Subscription>,
    ) -> (res: DatabaseManager)
        requires
            all_refs(sources@, sinks@, subscriptions@, tables@, views@).len() <= usize::MAX,
        ensures
            res.wf(),
            res.databases@ == by_id(databases@),
            res.schemas@ == by_id(schemas@),
            res.sources@ == by_id(sources@),
            res.sinks@ == by_id(sinks@),
            res.tables@ == by_id(tables@),
            res.indexes@ == by_id(indexes@),
            res.views@ == by_id(views@),
            res.functions@ == by_id(functions@),
            res.connections@ == by_id(connections@),
            res.subscriptions@ == by_id(subscriptions@),
            is_ref_count(
                res.relation_ref_count@,
                all_refs(sources@, sinks@, subscriptions@, tables@, views@),
            ),
            res.in_progress_creation_tracker@.len() == 0,
            res.in_progress_creation_streaming_job@ == Map::<u32, RelationKey>::empty(),
            res.in_progress_creating_tables@ == Map::<u32, Table>::empty(),
    {
        let mut relation_ref_count: BTreeMap<u32, usize> = BTreeMap::new();
        proof {
            lemma_refs_start(relation_ref_count@);
        }
        let ghost none = Seq::<u32>::empty();
        let ghost r1 = none + refs_of(sources@);
        let ghost r2 = r1 + refs_of(sinks@);
        let ghost r3 = r2 + refs_of(subscriptions@);
        let ghost r4 = r3 + refs_of(tables@);
        let ghost r5 = r4 + refs_of(views@);
        assert(r5 =~= all_refs(sources@, sinks@, subscriptions@, tables@, views@));
        add_refs(&mut relation_ref_count, &sources, Ghost(none));
        add_refs(&mut relation_ref_count, &sinks, Ghost(r1));
        add_refs(&mut relation_ref_count, &subscriptions, Ghost(r2));
        add_refs(&mut relation_ref_count, &tables, Ghost(r3));
        add_refs(&mut relation_ref_count, &views, Ghost(r4));
        let res = DatabaseManager {
            databases: collect_by_id(databases),
            schemas: collect_by_id(schemas),
            sources: collect_by_id(sources),
            sinks: collect_by_id(sinks),
            subscriptions: collect_by_id(subscriptions),
            indexes: collect_by_id(indexes),
            tables: collect_by_id(tables),
            views: collect_by_id(views),
            functions: collect_by_id(functions),
            connections: collect_by_id(connections),
            relation_ref_count,
            in_progress_creation_tracker: Vec::new(),
            in_progress_creation_streaming_job: BTreeMap::new(),
            in_progress_creating_tables: BTreeMap::new(),
        };
        assert(res.in_progress_creation_streaming_job@ =~= Map::<u32, RelationKey>::empty());
        assert(res.in_progress_creating_tables@ =~= Map::<u32, Table>::empty());
        res
    }

    /// Everything that is shown of the databases: jobs that are being created are not.
    pub fn get_catalog(&self) -> (res: Catalog)
        ensures
            res.databases@ == values_of(ascending_of(self.databases@.dom()), self.databases@),
            res.schemas@ == values_of(ascending_of(self.schemas@.dom()), self.schemas@),
            res.tables@ == shown_of(ascending_of(self.tables@.dom()), self.tables@),
            res.sources@ == values_of(ascending_of(self.sources@.dom()), self.sources@),
            res.sinks@ == shown_of(ascending_of(self.sinks@.dom()), self.sinks@),
            res.subscriptions@ == shown_of(
                ascending_of(self.subscriptions@.dom()),
                self.subscriptions@,
            ),
            res.indexes@ == shown_of(ascending_of(self.indexes@.dom()), self.indexes@),
            res.views@ == values_of(ascending_of(self.views@.dom()), self.views@),
            res.functions@ == values_of(ascending_of(self.functions@.dom()), self.functions@),
            res.connections@ == values_of(ascending_of(self.connections@.dom()), self.connections@),
    {
        Catalog {
            databases: list_values(&self.databases),
            schemas: list_values(&self.schemas),
            tables: list_shown(&self.tables),
            sources: list_values(&self.sources),
            sinks: list_shown(&self.sinks),
            subscriptions: list_shown(&self.subscriptions),
            indexes: list_shown(&self.indexes),
            views: list_values(&self.views),
            functions: list_values(&self.functions),
            connections: list_values(&self.connections),
        }
    }

    /// The name and the kind of each table.
    pub fn get_table_name_and_type_mapping(&self) -> (res: BTreeMap<u32, (&String, TableType)>)
        requires
            forall|id: u32| #[trigger]
                self.tables@.contains_key(id) ==> self.tables@[id].id == id,
        ensures
            res@.dom() == self.tables@.dom(),
            forall|id: u32| #[trigger]
                res@.contains_key(id) ==> res@[id].0@ == self.tables@[id].name@ && res@[id].1
                    == self.tables@[id].table_type,
    {
        let ids = map_keys(&self.tables);
        let mut res: BTreeMap<u32, (&String, TableType)> = BTreeMap::new();
        let mut i: usize = 0;
        assert(res@.dom() =~= ids@.take(0).to_set());
        while i < ids.len()
            invariant
                i <= ids.len(),
                ids@.to_set() == self.tables@.dom(),
                forall|id: u32| #[trigger]
                    self.tables@.contains_key(id) ==> self.tables@[id].id == id,
                res@.dom() == ids@.take(i as int).to_set(),
                forall|id: u32| #[trigger]
                    res@.contains_key(id) ==> res@[id].0@ == self.tables@[id].name@ && res@[id].1
                        == self.tables@[id].table_type,
            decreases ids.len() - i,
        {
            assert(ids@.to_set().contains(ids@[i as int]));
            assert(self.tables@.contains_key(ids@[i as int]));
            let table = self.tables.get(&ids[i]).unwrap();
            res.insert(table.id, (&table.name, table.table_type));
            proof {
                assert(ids@.take(i + 1) =~= ids@.take(i as int).push(ids@[i as int]));
                crate::common::collections::lemma_to_set_push(ids@.take(i as int), ids@[i as int]);
                assert(res@.dom() =~= ids@.take(i + 1).to_set());
            }
            i = i + 1;
        }
        assert(ids@.take(i as int) =~= ids@);
        res
    }

    /// The first table with the name.
    fn find_table_named(&self, key: &RelationKey) -> (res: Option<&Table>)
        ensures
            match res {
                Some(t) => first_named(
                    ascending_of(self.tables@.dom()),
                    self.tables@,
                    key@,
                ) matches Some(id) && *t == self.tables@[id],
                None => first_named(
                    ascending_of(self.tables@.dom()),
                    self.tables@,
                    key@,
                ) is None,
            },
    {
        let ids = map_keys(&self.tables);
        let mut i: usize = 0;
        assert(ids@.skip(0) =~= ids@);
        while i < ids.len()
            invariant
                i <= ids.len(),
                ids@ == ascending_of(self.tables@.dom()),
                ids@.to_set() == self.tables@.dom(),
                first_named(ids@, self.tables@, key@) == first_named(
                    ids@.skip(i as int),
                    self.tables@,
                    key@,
                ),
            decreases ids.len() - i,
        {
            assert(ids@.to_set().contains(ids@[i as int]));
            assert(ids@.skip(i as int)[0] == ids@[i as int]);
            assert(ids@.skip(i as int).skip(1) =~= ids@.skip(i + 1));
            let t = self.tables.get(&ids[i]).unwrap();
            if t.has_key(key) {
                return Some(t);
            }
            i = i + 1;
        }
        assert(ids@.skip(i as int) =~= Seq::<u32>::empty());
        None
    }

    /// Checks that no relation has the name.
    pub fn check_relation_name_duplicated(&self, relation_key: &RelationKey) -> (res: Result<
        (),
        CatalogError,
    >)
        ensures
            res == (match first_named(
                ascending_of(self.tables@.dom()),
                self.tables@,
                relation_key@,
            ) {
                Some(id) => if self.tables@[id].stream_job_status == StreamJobStatus::Creating {
                    Err(CatalogError::TableCreating { table_id: self.tables@[id].id })
                } else {
                    Err(CatalogError::Duplicated { kind: ObjectKind::Table })
                },
                None => if some_named(self.sources@, relation_key@) {
                    Err(CatalogError::Duplicated { kind: ObjectKind::Source })
                } else if some_named(self.indexes@, relation_key@) {
                    Err(CatalogError::Duplicated { kind: ObjectKind::Index })
                } else if some_named(self.sinks@, relation_key@) {
                    Err(CatalogError::Duplicated { kind: ObjectKind::Sink })
                } else if some_named(self.subscriptions@, relation_key@) {
                    Err(CatalogError::Duplicated { kind: ObjectKind::Subscription })
                } else if some_named(self.views@, relation_key@) {
                    Err(CatalogError::Duplicated { kind: ObjectKind::LogicalView })
                } else {
                    Ok(())
                },
            }),
    {
        if let Some(t) = self.find_table_named(relation_key) {
            if t.stream_job_status == StreamJobStatus::Creating {
                Err(CatalogError::TableCreating { table_id: t.id })
            } else {
                Err(CatalogError::Duplicated { kind: ObjectKind::Table })
            }
        } else if any_named(&self.sources, relation_key) {
            Err(CatalogError::Duplicated { kind: ObjectKind::Source })
        } else if any_named(&self.indexes, relation_key) {
            Err(CatalogError::Duplicated { kind: ObjectKind::Index })
        } else if any_named(&self.sinks, relation_key) {
            Err(CatalogError::Duplicated { kind: ObjectKind::Sink })
        } else if any_named(&self.subscriptions, relation_key) {
            Err(CatalogError::Duplicated { kind: ObjectKind::Subscription })
        } else if any_named(&self.views, relation_key) {
            Err(CatalogError::Duplicated { kind: ObjectKind::LogicalView })
        } else {
            Ok(())
        }
    }

    /// Checks that no function has the name and the argument types.
    pub fn check_function_duplicated(&self, function_key: &FunctionKey) -> (res: Result<
        (),
        CatalogError,
    >)
        ensures
            res == (if exists|id: u32| #[trigger]
                self.functions@.contains_key(id) && self.functions@[id].key()
                    == function_key.relation@ && same_types(
                    self.functions@[id].arg_types@,
                    function_key.arg_types@,
                ) {
                Err::<(), CatalogError>(CatalogError::Duplicated { kind: ObjectKind::Function })
            } else {
                Ok(())
            }),
    {
        let ids = map_keys(&self.functions);
        let mut i: usize = 0;
        while i < ids.len()
            invariant
                i <= ids.len(),
                ids@.to_set() == self.functions@.dom(),
                forall|j: int|
                    0 <= j < i ==> !(self.functions@[#[trigger] ids@[j]].key()
                        == function_key.relation@ && same_types(
                        self.functions@[ids@[j]].arg_types@,
                        function_key.arg_types@,
                    )),
            decreases ids.len() - i,
        {
            assert(ids@.to_set().contains(ids@[i as int]));
            let f = self.functions.get(&ids[i]).unwrap();
            if f.has_key(&function_key.relation) && check_same_types(
                &f.arg_types,
                &function_key.arg_types,
            ) {
                assert(self.functions@.contains_key(ids@[i as int]));
                return Err(CatalogError::Duplicated { kind: ObjectKind::Function });
            }
            i = i + 1;
        }
        assert forall|id: u32| #[trigger] self.functions@.contains_key(id) implies !(
        self.functions@[id].key() == function_key.relation@ && same_types(
            self.functions@[id].arg_types@,
            function_key.arg_types@,
        )) by {
            assert(ids@.to_set().contains(id));
            let j = choose|j: int| 0 <= j < ids@.len() && ids@[j] == id;
            assert(ids@[j] == id);
        }
        Ok(())
    }

    /// Checks that no connection has the name.
    pub fn check_connection_name_duplicated(&self, relation_key: &RelationKey) -> (res: Result<
        (),
        CatalogError,
    >)
        ensures
            res == (if some_named(self.connections@, relation_key@) {
                Err::<(), CatalogError>(CatalogError::Duplicated { kind: ObjectKind::Connection })
            } else {
                Ok(())
            }),
    {
        if any_named(&self.connections, relation_key) {
            Err(CatalogError::Duplicated { kind: ObjectKind::Connection })
        } else {
            Ok(())
        }
    }

    /// The chosen tables.
    fn choose_tables(&self, choice: TableChoice) -> (res: Vec<&Table>)
        ensures
            res@ == chosen(ascending_of(self.tables@.dom()), self.tables@, choice),
    {
        let ids = map_keys(&self.tables);
        let mut res: Vec<&Table> = Vec::new();
        let mut i: usize = 0;
        assert(ids@.take(0) =~= Seq::<u32>::empty());
        while i < ids.len()
            invariant
                i <= ids.len(),
                ids@.to_set() == self.tables@.dom(),
                res@ == chosen(ids@.take(i as int), self.tables@, choice),
            decreases ids.len() - i,
        {
            assert(ids@.to_set().contains(ids@[i as int]));
            assert(ids@.take(i + 1).drop_last() =~= ids@.take(i as int));
            assert(ids@.take(i + 1).last() == ids@[i as int]);
            let t = self.tables.get(&ids[i]).unwrap();
            let wanted: bool = match choice {
                TableChoice::CreatingBackgroundMv => t.stream_job_status
                    == StreamJobStatus::Creating && t.table_type == TableType::MaterializedView
                    && t.create_type == CreateType::Background,
                TableChoice::Creating => t.stream_job_status == StreamJobStatus::Creating,
                TableChoice::Readonly(schema_id) => t.schema_id == schema_id && t.table_type
                    != TableType::Table,
                TableChoice::Dml(schema_id) => t.schema_id == schema_id && t.table_type
                    == TableType::Table,
            };
            if wanted {
                res.push(t);
            }
            i = i + 1;
        }
        assert(ids@.take(i as int) =~= ids@);
        res
    }

    /// The ids of the chosen tables.
    fn choose_table_ids(&self, choice: TableChoice) -> (res: Vec<u32>)
        ensures
            res@ == table_ids(chosen(ascending_of(self.tables@.dom()), self.tables@, choice)),
    {
        let tables = self.choose_tables(choice);
        let mut res: Vec<u32> = Vec::new();
        let mut i: usize = 0;
        while i < tables.len()
            invariant
                i <= tables.len(),
                res@ == table_ids(tables@.take(i as int)),
            decreases tables.len() - i,
        {
            res.push(tables[i].id);
            i = i + 1;
            assert(res@ =~= table_ids(tables@.take(i as int)));
        }
        assert(tables@.take(i as int) =~= tables@);
        res
    }

    /// The materialized views that are being created in the background.
    pub fn list_creating_background_mvs(&self) -> (res: Vec<&Table>)
        ensures
            res@ == chosen(
                ascending_of(self.tables@.dom()),
                self.tables@,
                TableChoice::CreatingBackgroundMv,
            ),
    {
        self.choose_tables(TableChoice::CreatingBackgroundMv)
    }

    /// The stored tables that are being created.
    pub fn list_persisted_creating_tables(&self) -> (res: Vec<&Table>)
        ensures
            res@ == chosen(
                ascending_of(self.tables@.dom()),
                self.tables@,
                TableChoice::Creating,
            ),
    {
        self.choose_tables(TableChoice::Creating)
    }

    /// The tables of a schema that statements cannot change.
    pub fn list_readonly_table_ids(&self, schema_id: u32) -> (res: Vec<u32>)
        ensures
            res@ == table_ids(
                chosen(
                    ascending_of(self.tables@.dom()),
                    self.tables@,
                    TableChoice::Readonly(schema_id),
                ),
            ),
    {
        self.choose_table_ids(TableChoice::Readonly(schema_id))
    }

    /// The tables of a schema that statements can change.
    pub fn list_dml_table_ids(&self, schema_id: u32) -> (res: Vec<u32>)
        ensures
            res@ == table_ids(
                chosen(
                    ascending_of(self.tables@.dom()),
                    self.tables@,
                    TableChoice::Dml(schema_id),
                ),
            ),
    {
        self.choose_table_ids(TableChoice::Dml(schema_id))
    }

    /// How long the rows of each table are kept.
    pub fn get_all_table_options(&self) -> (res: BTreeMap<u32, TableOption>)
        ensures
            res@ == Map::new(
                |id: u32| self.tables@.contains_key(id),
                |id: u32| TableOption { retention_seconds: self.tables@[id].retention_seconds },
            ),
    {
        let ids = map_keys(&self.tables);
        let ghost all = Map::new(
            |id: u32| self.tables@.contains_key(id),
            |id: u32| TableOption { retention_seconds: self.tables@[id].retention_seconds },
        );
        let mut res: BTreeMap<u32, TableOption> = BTreeMap::new();
        let mut i: usize = 0;
        assert(res@ =~= all.restrict(ids@.take(0).to_set()));
        while i < ids.len()
            invariant
                i <= ids.len(),
                ids@.to_set() == self.tables@.dom(),
                all == Map::new(
                    |id: u32| self.tables@.contains_key(id),
                    |id: u32| TableOption { retention_seconds: self.tables@[id].retention_seconds },
                ),
                res@ == all.restrict(ids@.take(i as int).to_set()),
            decreases ids.len() - i,
        {
            assert(ids@.to_set().contains(ids@[i as int]));
            let table = self.tables.get(&ids[i]).unwrap();
            res.insert(ids[i], TableOption { retention_seconds: table.retention_seconds });
            proof {
                assert(ids@.take(i + 1) =~= ids@.take(i as int).push(ids@[i as int]));
                crate::common::collections::lemma_to_set_push(ids@.take(i as int), ids@[i as int]);
                assert(res@ =~= all.restrict(ids@.take(i + 1).to_set()));
            }
            i = i + 1;
        }
        assert(ids@.take(i as int) =~= ids@);
        assert(res@ =~= all);
        res
    }

    /// The logical views of a schema.
    pub fn list_view_ids(&self, schema_id: u32) -> (res: Vec<u32>)
        ensures
            res@ == ids_in_schema(ascending_of(self.views@.dom()), self.views@, schema_id),
    {
        list_ids_in_schema(&self.views, schema_id)
    }

    /// The sources of a schema.
    pub fn list_source_ids(&self, schema_id: u32) -> (res: Vec<u32>)
        ensures
            res@ == ids_in_schema(ascending_of(self.sources@.dom()), self.sources@, schema_id),
    {
        list_ids_in_schema(&self.sources, schema_id)
    }

    /// The ids of all streaming jobs: tables, sinks, indexes and sources, and the sources that jobs
    /// share once more.
    pub fn list_stream_job_ids(&self) -> (res: Vec<u32>)
        ensures
            res@ == ascending_of(self.tables@.dom()) + ascending_of(self.sinks@.dom())
                + ascending_of(self.indexes@.dom()) + ascending_of(self.sources@.dom())
                + shared_sources(ascending_of(self.sources@.dom()), self.sources@),
    {
        let mut res = map_keys(&self.tables);
        let mut sinks = map_keys(&self.sinks);
        let mut indexes = map_keys(&self.indexes);
        let ids = map_keys(&self.sources);
        let mut shared: Vec<u32> = Vec::new();
        let mut i: usize = 0;
        assert(ids@.take(0) =~= Seq::<u32>::empty());
        while i < ids.len()
            invariant
                i <= ids.len(),
                ids@.to_set() == self.sources@.dom(),
                shared@ == shared_sources(ids@.take(i as int), self.sources@),
            decreases ids.len() - i,
        {
            assert(ids@.to_set().contains(ids@[i as int]));
            assert(ids@.take(i + 1).drop_last() =~= ids@.take(i as int));
            assert(ids@.take(i + 1).last() == ids@[i as int]);
            if self.sources.get(&ids[i]).unwrap().is_shared {
                shared.push(ids[i]);
            }
            i = i + 1;
        }
        assert(ids@.take(i as int) =~= ids@);
        let mut sources = ids;
        res.append(&mut sinks);
        res.append(&mut indexes);
        res.append(&mut sources);
        res.append(&mut shared);
        res
    }

    /// Checks that no database has the name.
    pub fn check_database_duplicated(&self, database_key: &String) -> (res: Result<
        (),
        CatalogError,
    >)
        ensures
            res == (if database_named(self.databases@, database_key@) {
                Err::<(), CatalogError>(CatalogError::Duplicated { kind: ObjectKind::Database })
            } else {
                Ok(())
            }),
    {
        let ids = map_keys(&self.databases);
        let mut i: usize = 0;
        while i < ids.len()
            invariant
                i <= ids.len(),
                ids@.to_set() == self.databases@.dom(),
                forall|j: int|
                    0 <= j < i ==> self.databases@[#[trigger] ids@[j]].name@ != database_key@,
            decreases ids.len() - i,
        {
            assert(ids@.to_set().contains(ids@[i as int]));
            if self.databases.get(&ids[i]).unwrap().name == *database_key {
                assert(self.databases@.contains_key(ids@[i as int]));
                return Err(CatalogError::Duplicated { kind: ObjectKind::Database });
            }
            i = i + 1;
        }
        assert forall|id: u32| #[trigger] self.databases@.contains_key(
            id,
        ) implies self.databases@[id].name@ != database_key@ by {
            assert(ids@.to_set().contains(id));
            let j = choose|j: int| 0 <= j < ids@.len() && ids@[j] == id;
            assert(ids@[j] == id);
        }
        Ok(())
    }

    /// Checks that no schema of the database has the name.
    pub fn check_schema_duplicated(&self, schema_key: &SchemaKey) -> (res: Result<(), CatalogError>)
        ensures
            res == (if schema_named(self.schemas@, schema_key.database_id, schema_key.name@) {
                Err::<(), CatalogError>(CatalogError::Duplicated { kind: ObjectKind::Schema })
            } else {
                Ok(())
            }),
    {
        let ids = map_keys(&self.schemas);
        let mut i: usize = 0;
        while i < ids.len()
            invariant
                i <= ids.len(),
                ids@.to_set() == self.schemas@.dom(),
                forall|j: int|
                    0 <= j < i ==> !(self.schemas@[#[trigger] ids@[j]].database_id
                        == schema_key.database_id && self.schemas@[ids@[j]].name@
                        == schema_key.name@),
            decreases ids.len() - i,
        {
            assert(ids@.to_set().contains(ids@[i as int]));
            let schema = self.schemas.get(&ids[i]).unwrap();
            if schema.database_id == schema_key.database_id && schema.name == schema_key.name {
                assert(self.schemas@.contains_key(ids@[i as int]));
                return Err(CatalogError::Duplicated { kind: ObjectKind::Schema });
            }
            i = i + 1;
        }
        assert forall|id: u32| #[trigger] self.schemas@.contains_key(id) implies !(
        self.schemas@[id].database_id == schema_key.database_id && self.schemas@[id].name@
            == schema_key.name@) by {
            assert(ids@.to_set().contains(id));
            let j = choose|j: int| 0 <= j < ids@.len() && ids@[j] == id;
            assert(ids@[j] == id);
        }
        Ok(())
    }

    /// Whether no relation is in the schema.
    pub fn schema_is_empty(&self, schema_id: u32) -> (res: bool)
        ensures
            res == !(some_in_schema(self.tables@, schema_id) || some_in_schema(
                self.sources@,
                schema_id,
            ) || some_in_schema(self.sinks@, schema_id) || some_in_schema(
                self.subscriptions@,
                schema_id,
            ) || some_in_schema(self.indexes@, schema_id) || some_in_schema(
                self.views@,
                schema_id,
            )),
    {
        !any_in_schema(&self.tables, schema_id) && !any_in_schema(&self.sources, schema_id)
            && !any_in_schema(&self.sinks, schema_id) && !any_in_schema(
            &self.subscriptions,
            schema_id,
        ) && !any_in_schema(&self.indexes, schema_id) && !any_in_schema(&self.views, schema_id)
    }

    /// One more object refers to the relation.
    pub fn increase_ref_count(&mut self, relation_id: u32)
        requires
            old(self).wf(),
            old(self).relation_ref_count@.contains_key(relation_id)
                ==> old(self).relation_ref_count@[relation_id] < usize::MAX,
        ensures
            final(self).wf(),
            final(self).relation_ref_count@ == increased(
                old(self).relation_ref_count@,
                relation_id,
            ),
            final(self).same_objects(old(self)),
            final(self).same_creations(old(self)),
    {
        let count: usize = match self.relation_ref_count.get(&relation_id) {
            Some(count) => *count + 1,
            None => 1,
        };
        self.relation_ref_count.insert(relation_id, count);
    }

    /// One object less refers to the relation.
    pub fn decrease_ref_count(&mut self, relation_id: u32)
        requires
            old(self).wf(),
            old(self).relation_ref_count@.contains_key(relation_id),
        ensures
            final(self).wf(),
            final(self).relation_ref_count@ == decreased(
                old(self).relation_ref_count@,
                relation_id,
            ),
            final(self).same_objects(old(self)),
            final(self).same_creations(old(self)),
    {
        let count: usize = *self.relation_ref_count.get(&relation_id).unwrap();
        if count == 1 {
            self.relation_ref_count.remove(&relation_id);
        } else {
            self.relation_ref_count.insert(relation_id, count - 1);
        }
    }

    /// What is recorded of creations is the same.
    pub open spec fn same_creations(&self, other: &DatabaseManager) -> bool {
        &&& self.in_progress_creation_tracker == other.in_progress_creation_tracker
        &&& self.in_progress_creation_streaming_job == other.in_progress_creation_streaming_job
        &&& self.in_progress_creating_tables == other.in_progress_creating_tables
    }

    /// Whether something is being created in the database.
    pub fn has_creation_in_database(&self, database_id: u32) -> (res: bool)
        ensures
            res == exists|i: int|
                0 <= i < self.in_progress_creation_tracker@.len() && (
                #[trigger] self.in_progress_creation_tracker@[i]).database_id == database_id,
    {
        let list = &self.in_progress_creation_tracker;
        let mut i: usize = 0;
        while i < list.len()
            invariant
                i <= list.len(),
                list == self.in_progress_creation_tracker,
                forall|j: int| 0 <= j < i ==> (#[trigger] list@[j]).database_id != database_id,
            decreases list.len() - i,
        {
            if list[i].database_id == database_id {
                assert(self.in_progress_creation_tracker@[i as int].database_id == database_id);
                return true;
            }
            i = i + 1;
        }
        false
    }

    /// Whether something is being created in the schema.
    pub fn has_creation_in_schema(&self, schema_id: u32) -> (res: bool)
        ensures
            res == exists|i: int|
                0 <= i < self.in_progress_creation_tracker@.len() && (
                #[trigger] self.in_progress_creation_tracker@[i]).schema_id == schema_id,
    {
        let list = &self.in_progress_creation_tracker;
        let mut i: usize = 0;
        while i < list.len()
            invariant
                i <= list.len(),
                list == self.in_progress_creation_tracker,
                forall|j: int| 0 <= j < i ==> (#[trigger] list@[j]).schema_id != schema_id,
            decreases list.len() - i,
        {
            if list[i].schema_id == schema_id {
                assert(self.in_progress_creation_tracker@[i as int].schema_id == schema_id);
                return true;
            }
            i = i + 1;
        }
        false
    }

    /// Whether an object of the name is being created.
    pub fn has_in_progress_creation(&self, relation: &RelationKey) -> (res: bool)
        ensures
            res == names_in(self.in_progress_creation_tracker@).contains(relation@),
    {
        let list = &self.in_progress_creation_tracker;
        let mut i: usize = 0;
        while i < list.len()
            invariant
                i <= list.len(),
                list == self.in_progress_creation_tracker,
                forall|j: int| 0 <= j < i ==> (#[trigger] list@[j])@ != relation@,
            decreases list.len() - i,
        {
            if list[i].same_key(relation) {
                assert(has_name(list@, relation@));
                return true;
            }
            i = i + 1;
        }
        false
    }

    /// Records that an object of the name is being created.
    pub fn mark_creating(&mut self, relation: &RelationKey)
        ensures
            names_in(final(self).in_progress_creation_tracker@) == names_in(
                old(self).in_progress_creation_tracker@,
            ).insert(relation@),
            final(self).same_objects(old(self)),
            final(self).relation_ref_count == old(self).relation_ref_count,
            final(self).in_progress_creation_streaming_job == old(self).in_progress_creation_streaming_job,
            final(self).in_progress_creating_tables == old(self).in_progress_creating_tables,
    {
        let ghost before = self.in_progress_creation_tracker@;
        if !self.has_in_progress_creation(relation) {
            let key = relation.clone();
            self.in_progress_creation_tracker.push(key);
            proof {
                let after = self.in_progress_creation_tracker@;
                assert forall|k: RelationName| #[trigger] has_name(after, k) <==> has_name(
                    before,
                    k,
                ) || k == relation@ by {
                    if has_name(before, k) {
                        let i = choose|i: int| 0 <= i < before.len() && (#[trigger] before[i])@ == k;
                        assert(after[i]@ == k);
                    }
                    if k == relation@ {
                        assert(after[before.len() as int]@ == k);
                    }
                    if has_name(after, k) {
                        let i = choose|i: int| 0 <= i < after.len() && (#[trigger] after[i])@ == k;
                        if i < before.len() {
                            assert(before[i]@ == k);
                        }
                    }
                }
            }
        }
        assert(names_in(self.in_progress_creation_tracker@) =~= names_in(before).insert(
            relation@,
        ));
    }

    /// Records that a streaming job is being created.
    pub fn mark_creating_streaming_job(&mut self, table_id: u32, key: RelationKey)
        ensures
            final(self).in_progress_creation_streaming_job@ == old(self).in_progress_creation_streaming_job@.insert(table_id, key),
            final(self).same_objects(old(self)),
            final(self).relation_ref_count == old(self).relation_ref_count,
            final(self).in_progress_creation_tracker == old(self).in_progress_creation_tracker,
            final(self).in_progress_creating_tables == old(self).in_progress_creating_tables,
    {
        self.in_progress_creation_streaming_job.insert(table_id, key);
    }

    /// Records that no object of the name is being created any more.
    pub fn unmark_creating(&mut self, relation: &RelationKey)
        ensures
            names_in(final(self).in_progress_creation_tracker@) == names_in(
                old(self).in_progress_creation_tracker@,
            ).remove(relation@),
            final(self).same_objects(old(self)),
            final(self).relation_ref_count == old(self).relation_ref_count,
            final(self).in_progress_creation_streaming_job == old(self).in_progress_creation_streaming_job,
            final(self).in_progress_creating_tables == old(self).in_progress_creating_tables,
    {
        let ghost before = self.in_progress_creation_tracker@;
        let mut kept: Vec<RelationKey> = Vec::new();
        let mut i: usize = 0;
        while i < self.in_progress_creation_tracker.len()
            invariant
                i <= self.in_progress_creation_tracker.len(),
                self.in_progress_creation_tracker@ == before,
                self.same_objects(old(self)),
                self.relation_ref_count == old(self).relation_ref_count,
                self.in_progress_creation_streaming_job == old(self).in_progress_creation_streaming_job,
                self.in_progress_creating_tables == old(self).in_progress_creating_tables,
                forall|k: RelationName| #[trigger]
                    has_name(kept@, k) <==> k != relation@ && has_name(before.take(i as int), k),
            decreases self.in_progress_creation_tracker.len() - i,
        {
            let ghost kept0 = kept@;
            let ghost x = before[i as int]@;
            let ghost shorter = before.take(i as int);
            let ghost longer = before.take(i + 1);
            let keep: bool = !self.in_progress_creation_tracker[i].same_key(relation);
            if keep {
                let key = self.in_progress_creation_tracker[i].clone();
                kept.push(key);
            }
            proof {
                assert forall|k: RelationName| #[trigger] has_name(kept@, k) <==> k != relation@
                    && has_name(longer, k) by {
                    assert(longer =~= shorter.push(before[i as int]));
                    lemma_push_name(shorter, longer, before[i as int], k);
                    if keep {
                        lemma_push_name(kept0, kept@, kept@.last(), k);
                    }
                }
            }
            i = i + 1;
        }
        assert(before.take(i as int) =~= before);
        self.in_progress_creation_tracker = kept;
        assert(names_in(self.in_progress_creation_tracker@) =~= names_in(before).remove(
            relation@,
        ));
    }

    /// Records that a streaming job is not being created any more.
    pub fn unmark_creating_streaming_job(&mut self, table_id: u32)
        ensures
            final(self).in_progress_creation_streaming_job@ == old(self).in_progress_creation_streaming_job@.remove(table_id),
            final(self).same_objects(old(self)),
            final(self).relation_ref_count == old(self).relation_ref_count,
            final(self).in_progress_creation_tracker == old(self).in_progress_creation_tracker,
            final(self).in_progress_creating_tables == old(self).in_progress_creating_tables,
    {
        self.in_progress_creation_streaming_job.remove(&table_id);
    }

    /// The streaming job of the name that is being created.
    pub fn find_creating_streaming_job_id(&self, key: &RelationKey) -> (res: Option<u32>)
        ensures
            res == first_job(
                ascending_of(self.in_progress_creation_streaming_job@.dom()),
                self.in_progress_creation_streaming_job@,
                key@,
            ),
    {
        let jobs = &self.in_progress_creation_streaming_job;
        let ids = map_keys(jobs);
        let mut i: usize = 0;
        assert(ids@.skip(0) =~= ids@);
        while i < ids.len()
            invariant
                i <= ids.len(),
                ids@.to_set() == jobs@.dom(),
                first_job(ids@, jobs@, key@) == first_job(ids@.skip(i as int), jobs@, key@),
                jobs == self.in_progress_creation_streaming_job,
                ids@ == ascending_of(jobs@.dom()),
            decreases ids.len() - i,
        {
            assert(ids@.to_set().contains(ids@[i as int]));
            assert(ids@.skip(i as int)[0] == ids@[i as int]);
            assert(ids@.skip(i as int).skip(1) =~= ids@.skip(i + 1));
            if jobs.get(&ids[i]).unwrap().same_key(key) {
                return Some(ids[i]);
            }
            i = i + 1;
        }
        assert(ids@.skip(i as int) =~= Seq::<u32>::empty());
        None
    }

    /// The stored table of the name that is being created.
    pub fn find_persisted_creating_table_id(&self, key: &RelationKey) -> (res: Option<u32>)
        ensures
            res == first_creating(ascending_of(self.tables@.dom()), self.tables@, key@),
    {
        let ids = map_keys(&self.tables);
        let mut i: usize = 0;
        assert(ids@.skip(0) =~= ids@);
        while i < ids.len()
            invariant
                i <= ids.len(),
                ids@ == ascending_of(self.tables@.dom()),
                ids@.to_set() == self.tables@.dom(),
                first_creating(ids@, self.tables@, key@) == first_creating(
                    ids@.skip(i as int),
                    self.tables@,
                    key@,
                ),
            decreases ids.len() - i,
        {
            assert(ids@.to_set().contains(ids@[i as int]));
            assert(ids@.skip(i as int)[0] == ids@[i as int]);
            assert(ids@.skip(i as int).skip(1) =~= ids@.skip(i + 1));
            let t = self.tables.get(&ids[i]).unwrap();
            if t.stream_job_status == StreamJobStatus::Creating && t.has_key(key) {
                return Some(ids[i]);
            }
            i = i + 1;
        }
        assert(ids@.skip(i as int) =~= Seq::<u32>::empty());
        None
    }

    /// The streaming jobs that are being created.
    pub fn all_creating_streaming_jobs(&self) -> (res: Vec<u32>)
        ensures
            res@ == ascending_of(self.in_progress_creation_streaming_job@.dom()),
    {
        map_keys(&self.in_progress_creation_streaming_job)
    }

    /// Records that tables are being created.
    pub fn mark_creating_tables(&mut self, tables: Vec<Table>)
        ensures
            final(self).in_progress_creating_tables@ == with_tables(
                old(self).in_progress_creating_tables@,
                tables@,
            ),
            final(self).same_objects(old(self)),
            final(self).relation_ref_count == old(self).relation_ref_count,
            final(self).in_progress_creation_tracker == old(self).in_progress_creation_tracker,
            final(self).in_progress_creation_streaming_job == old(self).in_progress_creation_streaming_job,
    {
        let ghost m0 = self.in_progress_creating_tables@;
        let ghost all = tables@;
        assert(all.take(0) =~= Seq::<Table>::empty());
        for t in it: tables
            invariant
                it.seq() == all,
                self.in_progress_creating_tables@ == with_tables(
                    m0,
                    all.take(it.index() as int),
                ),
                self.same_objects(old(self)),
                self.relation_ref_count == old(self).relation_ref_count,
                self.in_progress_creation_tracker == old(self).in_progress_creation_tracker,
                self.in_progress_creation_streaming_job == old(self).in_progress_creation_streaming_job,
        {
            let ghost i: int = it.index() as int;
            assert(all.take(i + 1).drop_last() =~= all.take(i));
            assert(all.take(i + 1).last() == t);
            let id: u32 = t.id;
            self.in_progress_creating_tables.insert(id, t);
        }
        assert(all.take(all.len() as int) =~= all);
    }

    /// Records that tables are not being created any more.
    pub fn unmark_creating_tables(&mut self, table_ids: &Vec<u32>)
        ensures
            final(self).in_progress_creating_tables@ == old(self).in_progress_creating_tables@.remove_keys(table_ids@.to_set()),
            final(self).same_objects(old(self)),
            final(self).relation_ref_count == old(self).relation_ref_count,
            final(self).in_progress_creation_tracker == old(self).in_progress_creation_tracker,
            final(self).in_progress_creation_streaming_job == old(self).in_progress_creation_streaming_job,
    {
        let ghost m0 = self.in_progress_creating_tables@;
        let mut i: usize = 0;
        assert(m0 =~= m0.remove_keys(table_ids@.take(0).to_set()));
        while i < table_ids.len()
            invariant
                i <= table_ids.len(),
                self.in_progress_creating_tables@ == m0.remove_keys(
                    table_ids@.take(i as int).to_set(),
                ),
                self.same_objects(old(self)),
                self.relation_ref_count == old(self).relation_ref_count,
                self.in_progress_creation_tracker == old(self).in_progress_creation_tracker,
                self.in_progress_creation_streaming_job == old(self).in_progress_creation_streaming_job,
            decreases table_ids.len() - i,
        {
            self.in_progress_creating_tables.remove(&table_ids[i]);
            proof {
                let x = table_ids@[i as int];
                assert(table_ids@.take(i + 1) =~= table_ids@.take(i as int).push(x));
                crate::common::collections::lemma_to_set_push(table_ids@.take(i as int), x);
                assert(self.in_progress_creating_tables@ =~= m0.remove_keys(
                    table_ids@.take(i + 1).to_set(),
                ));
            }
            i = i + 1;
        }
        assert(table_ids@.take(i as int) =~= table_ids@);
    }

    /// Checks that a database has the id.
    pub fn ensure_database_id(&self, database_id: u32) -> (res: Result<(), CatalogError>)
        ensures
            res == (if self.databases@.contains_key(database_id) {
                Ok(())
            } else {
                Err::<(), CatalogError>(
                    CatalogError::IdNotFound { kind: ObjectKind::Database, id: database_id },
                )
            }),
    {
        if self.databases.contains_key(&database_id) {
            Ok(())
        } else {
            Err(CatalogError::IdNotFound { kind: ObjectKind::Database, id: database_id })
        }
    }

    /// Checks that a schema has the id.
    pub fn ensure_schema_id(&self, schema_id: u32) -> (res: Result<(), CatalogError>)
        ensures
            res == (if self.schemas@.contains_key(schema_id) {
                Ok(())
            } else {
                Err::<(), CatalogError>(
                    CatalogError::IdNotFound { kind: ObjectKind::Schema, id: schema_id },
                )
            }),
    {
        if self.schemas.contains_key(&schema_id) {
            Ok(())
        } else {
            Err(CatalogError::IdNotFound { kind: ObjectKind::Schema, id: schema_id })
        }
    }

    /// Checks that a view has the id.
    pub fn ensure_view_id(&self, view_id: u32) -> (res: Result<(), CatalogError>)
        ensures
            res == (if self.views@.contains_key(view_id) {
                Ok(())
            } else {
                Err::<(), CatalogError>(
                    CatalogError::IdNotFound { kind: ObjectKind::LogicalView, id: view_id },
                )
            }),
    {
        if self.views.contains_key(&view_id) {
            Ok(())
        } else {
            Err(CatalogError::IdNotFound { kind: ObjectKind::LogicalView, id: view_id })
        }
    }

    /// Checks that a table has the id.
    pub fn ensure_table_id(&self, table_id: u32) -> (res: Result<(), CatalogError>)
        ensures
            res == (if self.tables@.contains_key(table_id) {
                Ok(())
            } else {
                Err::<(), CatalogError>(
                    CatalogError::IdNotFound { kind: ObjectKind::Table, id: table_id },
                )
            }),
    {
        if self.tables.contains_key(&table_id) {
            Ok(())
        } else {
            Err(CatalogError::IdNotFound { kind: ObjectKind::Table, id: table_id })
        }
    }

    /// Checks that a source has the id.
    pub fn ensure_source_id(&self, source_id: u32) -> (res: Result<(), CatalogError>)
        ensures
            res == (if self.sources@.contains_key(source_id) {
                Ok(())
            } else {
                Err::<(), CatalogError>(
                    CatalogError::IdNotFound { kind: ObjectKind::Source, id: source_id },
                )
            }),
    {
        if self.sources.contains_key(&source_id) {
            Ok(())
        } else {
            Err(CatalogError::IdNotFound { kind: ObjectKind::Source, id: source_id })
        }
    }

    /// Checks that a sink has the id.
    pub fn ensure_sink_id(&self, sink_id: u32) -> (res: Result<(), CatalogError>)
        ensures
            res == (if self.sinks@.contains_key(sink_id) {
                Ok(())
            } else {
                Err::<(), CatalogError>(
                    CatalogError::IdNotFound { kind: ObjectKind::Sink, id: sink_id },
                )
            }),
    {
        if self.sinks.contains_key(&sink_id) {
            Ok(())
        } else {
            Err(CatalogError::IdNotFound { kind: ObjectKind::Sink, id: sink_id })
        }
    }

    /// Checks that a subscription has the id.
    pub fn ensure_subscription_id(&self, subscription_id: u32) -> (res: Result<(), CatalogError>)
        ensures
            res == (if self.subscriptions@.contains_key(subscription_id) {
                Ok(())
            } else {
                Err::<(), CatalogError>(
                    CatalogError::IdNotFound { kind: ObjectKind::Subscription, id: subscription_id },
                )
            }),
    {
        if self.subscriptions.contains_key(&subscription_id) {
            Ok(())
        } else {
            Err(CatalogError::IdNotFound { kind: ObjectKind::Subscription, id: subscription_id })
        }
    }

    /// Checks that an index has the id.
    pub fn ensure_index_id(&self, index_id: u32) -> (res: Result<(), CatalogError>)
        ensures
            res == (if self.indexes@.contains_key(index_id) {
                Ok(())
            } else {
                Err::<(), CatalogError>(
                    CatalogError::IdNotFound { kind: ObjectKind::Index, id: index_id },
                )
            }),
    {
        if self.indexes.contains_key(&index_id) {
            Ok(())
        } else {
            Err(CatalogError::IdNotFound { kind: ObjectKind::Index, id: index_id })
        }
    }

    /// Checks that a connection has the id.
    pub fn ensure_connection_id(&self, connection_id: u32) -> (res: Result<(), CatalogError>)
        ensures
            res == (if self.connections@.contains_key(connection_id) {
                Ok(())
            } else {
                Err::<(), CatalogError>(
                    CatalogError::IdNotFound { kind: ObjectKind::Connection, id: connection_id },
                )
            }),
    {
        if self.connections.contains_key(&connection_id) {
            Ok(())
        } else {
            Err(CatalogError::IdNotFound { kind: ObjectKind::Connection, id: connection_id })
        }
    }

    /// Checks that a function has the id.
    pub fn ensure_function_id(&self, function_id: u32) -> (res: Result<(), CatalogError>)
        ensures
            res == (if self.functions@.contains_key(function_id) {
                Ok(())
            } else {
                Err::<(), CatalogError>(
                    CatalogError::IdNotFound { kind: ObjectKind::Function, id: function_id },
                )
            }),
    {
        if self.functions.contains_key(&function_id) {
            Ok(())
        } else {
            Err(CatalogError::IdNotFound { kind: ObjectKind::Function, id: function_id })
        }
    }

    /// All databases, by ascending id.
    pub fn list_databases(&self) -> (res: Vec<&Database>)
        ensures
            res@ == values_of(ascending_of(self.databases@.dom()), self.databases@),
    {
        list_values(&self.databases)
    }

    /// All schemas, by ascending id.
    pub fn list_schemas(&self) -> (res: Vec<&Schema>)
        ensures
            res@ == values_of(ascending_of(self.schemas@.dom()), self.schemas@),
    {
        list_values(&self.schemas)
    }

    /// All tables, by ascending id.
    pub fn list_tables(&self) -> (res: Vec<&Table>)
        ensures
            res@ == values_of(ascending_of(self.tables@.dom()), self.tables@),
    {
        list_values(&self.tables)
    }

    /// All sources, by ascending id.
    pub fn list_sources(&self) -> (res: Vec<&Source>)
        ensures
            res@ == values_of(ascending_of(self.sources@.dom()), self.sources@),
    {
        list_values(&self.sources)
    }

    /// All sinks, by ascending id.
    pub fn list_sinks(&self) -> (res: Vec<&Sink>)
        ensures
            res@ == values_of(ascending_of(self.sinks@.dom()), self.sinks@),
    {
        list_values(&self.sinks)
    }

    /// All subscriptions, by ascending id.
    pub fn list_subscriptions(&self) -> (res: Vec<&Subscription>)
        ensures
            res@ == values_of(ascending_of(self.subscriptions@.dom()), self.subscriptions@),
    {
        list_values(&self.subscriptions)
    }

    /// All logical views, by ascending id.
    pub fn list_views(&self) -> (res: Vec<&LogicalView>)
        ensures
            res@ == values_of(ascending_of(self.views@.dom()), self.views@),
    {
        list_values(&self.views)
    }

    /// All connections, by ascending id.
    pub fn list_connections(&self) -> (res: Vec<&Connection>)
        ensures
            res@ == values_of(ascending_of(self.connections@.dom()), self.connections@),
    {
        list_values(&self.connections)
    }

    /// The table with the id.
    pub fn get_table(&self, table_id: u32) -> (res: Option<&Table>)
        ensures
            match res {
                Some(x) => self.tables@.contains_key(table_id) && *x == self.tables@[table_id],
                None => !self.tables@.contains_key(table_id),
            },
    {
        self.tables.get(&table_id)
    }

    /// The sink with the id.
    pub fn get_sink(&self, sink_id: u32) -> (res: Option<&Sink>)
        ensures
            match res {
                Some(x) => self.sinks@.contains_key(sink_id) && *x == self.sinks@[sink_id],
                None => !self.sinks@.contains_key(sink_id),
            },
    {
        self.sinks.get(&sink_id)
    }

    /// The subscription with the id.
    pub fn get_subscription(&self, subscription_id: u32) -> (res: Option<&Subscription>)
        ensures
            match res {
                Some(x) => self.subscriptions@.contains_key(subscription_id) && *x == self.subscriptions@[subscription_id],
                None => !self.subscriptions@.contains_key(subscription_id),
            },
    {
        self.subscriptions.get(&subscription_id)
    }

    /// The connection with the id.
    pub fn get_connection(&self, connection_id: u32) -> (res: Option<&Connection>)
        ensures
            match res {
                Some(x) => self.connections@.contains_key(connection_id) && *x == self.connections@[connection_id],
                None => !self.connections@.contains_key(connection_id),
            },
    {
        self.connections.get(&connection_id)
    }

    /// Checks that a table, a logical view or a source has the id.
    pub fn ensure_table_view_or_source_id(&self, table_id: u32) -> (res: Result<(), CatalogError>)
        ensures
            res == (if self.tables@.contains_key(table_id) || self.sources@.contains_key(table_id)
                || self.views@.contains_key(table_id) {
                Ok(())
            } else {
                Err::<(), CatalogError>(
                    CatalogError::IdNotFound { kind: ObjectKind::TableViewOrSource, id: table_id },
                )
            }),
    {
        if self.tables.contains_key(&table_id) || self.sources.contains_key(&table_id)
            || self.views.contains_key(&table_id) {
            Ok(())
        } else {
            Err(CatalogError::IdNotFound { kind: ObjectKind::TableViewOrSource, id: table_id })
        }
    }

    /// The owner of an object.
    pub open spec fn owner_of(&self, object: GrantObject) -> Result<u32, CatalogError> {
        match object {
            GrantObject::DatabaseId(id) => if self.databases@.contains_key(id) {
                Ok(self.databases@[id].owner)
            } else {
                Err(CatalogError::IdNotFound { kind: ObjectKind::Database, id })
            },
            GrantObject::SchemaId(id) => if self.schemas@.contains_key(id) {
                Ok(self.schemas@[id].owner)
            } else {
                Err(CatalogError::IdNotFound { kind: ObjectKind::Schema, id })
            },
            GrantObject::TableId(id) => if self.tables@.contains_key(id) {
                Ok(self.tables@[id].owner)
            } else {
                Err(CatalogError::IdNotFound { kind: ObjectKind::Table, id })
            },
            GrantObject::SourceId(id) => if self.sources@.contains_key(id) {
                Ok(self.sources@[id].owner)
            } else {
                Err(CatalogError::IdNotFound { kind: ObjectKind::Source, id })
            },
            GrantObject::SinkId(id) => if self.sinks@.contains_key(id) {
                Ok(self.sinks@[id].owner)
            } else {
                Err(CatalogError::IdNotFound { kind: ObjectKind::Sink, id })
            },
            GrantObject::SubscriptionId(id) => if self.subscriptions@.contains_key(id) {
                Ok(self.subscriptions@[id].owner)
            } else {
                Err(CatalogError::IdNotFound { kind: ObjectKind::Subscription, id })
            },
            GrantObject::ViewId(id) => if self.views@.contains_key(id) {
                Ok(self.views@[id].owner)
            } else {
                Err(CatalogError::IdNotFound { kind: ObjectKind::LogicalView, id })
            },
            GrantObject::FunctionId(id) => if self.functions@.contains_key(id) {
                Ok(self.functions@[id].owner)
            } else {
                Err(CatalogError::IdNotFound { kind: ObjectKind::Function, id })
            },
        }
    }

    /// The owner of an object.
    pub fn get_object_owner(&self, object: GrantObject) -> (res: Result<u32, CatalogError>)
        ensures
            res == self.owner_of(object),
    {
        match object {
            GrantObject::DatabaseId(id) => match self.databases.get(&id) {
                Some(x) => Ok(x.owner),
                None => Err(CatalogError::IdNotFound { kind: ObjectKind::Database, id }),
            },
            GrantObject::SchemaId(id) => match self.schemas.get(&id) {
                Some(x) => Ok(x.owner),
                None => Err(CatalogError::IdNotFound { kind: ObjectKind::Schema, id }),
            },
            GrantObject::TableId(id) => match self.tables.get(&id) {
                Some(x) => Ok(x.owner),
                None => Err(CatalogError::IdNotFound { kind: ObjectKind::Table, id }),
            },
            GrantObject::SourceId(id) => match self.sources.get(&id) {
                Some(x) => Ok(x.owner),
                None => Err(CatalogError::IdNotFound { kind: ObjectKind::Source, id }),
            },
            GrantObject::SinkId(id) => match self.sinks.get(&id) {
                Some(x) => Ok(x.owner),
                None => Err(CatalogError::IdNotFound { kind: ObjectKind::Sink, id }),
            },
            GrantObject::SubscriptionId(id) => match self.subscriptions.get(&id) {
                Some(x) => Ok(x.owner),
                None => Err(CatalogError::IdNotFound { kind: ObjectKind::Subscription, id }),
            },
            GrantObject::ViewId(id) => match self.views.get(&id) {
                Some(x) => Ok(x.owner),
                None => Err(CatalogError::IdNotFound { kind: ObjectKind::LogicalView, id }),
            },
            GrantObject::FunctionId(id) => match self.functions.get(&id) {
                Some(x) => Ok(x.owner),
                None => Err(CatalogError::IdNotFound { kind: ObjectKind::Function, id }),
            },
        }
    }
}

proof fn lemma_push_name(
    shorter: Seq<RelationKey>,
    longer: Seq<RelationKey>,
    x: RelationKey,
    k: RelationName,
)
    requires
        longer == shorter.push(x),
    ensures
        has_name(longer, k) <==> has_name(shorter, k) || x@ == k,
{
    if has_name(shorter, k) {
        let i = choose|i: int| 0 <= i < shorter.len() && (#[trigger] shorter[i])@ == k;
        assert(longer[i]@ == k);
    }
    if x@ == k {
        assert(longer[shorter.len() as int]@ == k);
    }
    if has_name(longer, k) {
        let i = choose|i: int| 0 <= i < longer.len() && (#[trigger] longer[i])@ == k;
        if i < shorter.len() {
            assert(shorter[i]@ == k);
        }
    }
}

/// What is recorded as being created and then not any more is recorded as it was before, if it was not
/// recorded already.
pub proof fn lemma_creating_inverse(before: Set<RelationName>, key: RelationName)
    requires
        !before.contains(key),
    ensures
        before.insert(key).remove(key) == before,
{
    assert(before.insert(key).remove(key) =~= before);
}

} // verus!
