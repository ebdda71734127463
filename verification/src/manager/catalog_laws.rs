//! What is shown, refused and counted of the objects of databases, said of the objects one by one.
use crate::common::collections::{ascending_of, lemma_ascending_exists};
use crate::manager::database::{all_refs, chosen, first_creating, first_job, first_named, shared_sources};
use crate::manager::database::{table_ids, with_tables, Catalog, CatalogError, DatabaseManager};
use crate::manager::database::{GrantObject, ObjectKind, SchemaKey, TableChoice};
use crate::manager::objects::{by_id, ids_in_schema, shown_of, some_named, values_of};
use crate::manager::objects::{CreateType, Identified, Named, RelationKey, RelationName, Shown, Source};
use crate::manager::objects::{Connection, Database, Function, Index, LogicalView, Schema, Sink};
use crate::manager::objects::{StreamJobStatus, Subscription, SubscriptionState, Table, TableType};
use crate::manager::refs::{occurrences, refs_of, Refers};
use vstd::prelude::*;

verus! {

broadcast use {vstd::std_specs::btree::group_btree_axioms, vstd::laws_cmp::group_laws_cmp};

proof fn lemma_shown_of<T: Shown>(ids: Seq<u32>, m: Map<u32, T>, x: T)
    ensures
        shown_of(ids, m).contains(&x) <==> x.shown() && exists|i: int|
            0 <= i < ids.len() && m[#[trigger] ids[i]] == x,
    decreases ids.len(),
{
    if ids.len() > 0 {
        let front = ids.drop_last();
        let n = ids.len() - 1;
        lemma_shown_of(front, m, x);
        let before = shown_of(front, m);
        let now = shown_of(ids, m);
        assert(ids[n] == ids.last());
        if before.contains(&x) {
            let i = choose|i: int| 0 <= i < front.len() && m[#[trigger] front[i]] == x;
            assert(ids[i] == front[i]);
        }
        if m[ids.last()].shown() {
            assert(now == before.push(&m[ids.last()]));
            assert(*now[before.len() as int] == m[ids[n]]);
            if before.contains(&x) {
                assert(now[before.index_of(&x)] == &x);
            }
            if now.contains(&x) && !before.contains(&x) {
                let k = now.index_of(&x);
                if k < before.len() {
                    assert(before[k] == &x);
                }
            }
        }
        if exists|i: int| 0 <= i < ids.len() && m[#[trigger] ids[i]] == x {
            let i = choose|i: int| 0 <= i < ids.len() && m[#[trigger] ids[i]] == x;
            if i < n {
                assert(front[i] == ids[i]);
            }
        }
    } else {
        assert(!shown_of(ids, m).contains(&x));
    }
}

proof fn lemma_shown_of_map<T: Shown>(m: Map<u32, T>, id: u32)
    requires
        m.dom().finite(),
        m.contains_key(id),
    ensures
        shown_of(ascending_of(m.dom()), m).contains(&m[id]) <==> m[id].shown(),
{
    lemma_ascending_exists(m.dom());
    let ids = ascending_of(m.dom());
    lemma_shown_of(ids, m, m[id]);
    assert(ids.to_set().contains(id));
    let i = ids.index_of(id);
    assert(m[ids[i]] == m[id]);
}

proof fn lemma_values_of_map<T>(m: Map<u32, T>, id: u32)
    requires
        m.dom().finite(),
    ensures
        m.contains_key(id) ==> values_of(ascending_of(m.dom()), m).contains(&m[id]),
        values_of(ascending_of(m.dom()), m).len() == m.dom().len(),
{
    lemma_ascending_exists(m.dom());
    let ids = ascending_of(m.dom());
    if m.contains_key(id) {
        assert(ids.to_set().contains(id));
        let i = ids.index_of(id);
        assert(values_of(ids, m)[i] == &m[id]);
    }
}

/// Of tables, sinks and indexes those are shown that are not being created, and of subscriptions those that are
/// created; everything else is shown.
pub proof fn lemma_catalog_shows(manager: &DatabaseManager, res: Catalog, id: u32)
    requires
        call_ensures(DatabaseManager::get_catalog, (manager,), res),
    ensures
        manager.tables@.contains_key(id) ==> (res.tables@.contains(&manager.tables@[id]) <==> !(
        manager.tables@[id].stream_job_status == StreamJobStatus::Creating)),
        manager.sinks@.contains_key(id) ==> (res.sinks@.contains(&manager.sinks@[id]) <==> !(
        manager.sinks@[id].stream_job_status == StreamJobStatus::Creating)),
        manager.indexes@.contains_key(id) ==> (res.indexes@.contains(&manager.indexes@[id]) <==> !(
        manager.indexes@[id].stream_job_status == StreamJobStatus::Creating)),
        manager.subscriptions@.contains_key(id) ==> (res.subscriptions@.contains(
            &manager.subscriptions@[id],
        ) <==> manager.subscriptions@[id].subscription_state == SubscriptionState::Created),
        manager.databases@.contains_key(id) ==> res.databases@.contains(&manager.databases@[id]),
        manager.schemas@.contains_key(id) ==> res.schemas@.contains(&manager.schemas@[id]),
        manager.sources@.contains_key(id) ==> res.sources@.contains(&manager.sources@[id]),
        manager.views@.contains_key(id) ==> res.views@.contains(&manager.views@[id]),
        manager.functions@.contains_key(id) ==> res.functions@.contains(&manager.functions@[id]),
        manager.connections@.contains_key(id) ==> res.connections@.contains(
            &manager.connections@[id],
        ),
        res.databases@.len() == manager.databases@.dom().len(),
        res.schemas@.len() == manager.schemas@.dom().len(),
        res.sources@.len() == manager.sources@.dom().len(),
        res.views@.len() == manager.views@.dom().len(),
        res.functions@.len() == manager.functions@.dom().len(),
        res.connections@.len() == manager.connections@.dom().len(),
{
    if manager.tables@.contains_key(id) {
        lemma_shown_of_map(manager.tables@, id);
    }
    if manager.sinks@.contains_key(id) {
        lemma_shown_of_map(manager.sinks@, id);
    }
    if manager.indexes@.contains_key(id) {
        lemma_shown_of_map(manager.indexes@, id);
    }
    if manager.subscriptions@.contains_key(id) {
        lemma_shown_of_map(manager.subscriptions@, id);
    }
    lemma_values_of_map(manager.databases@, id);
    lemma_values_of_map(manager.schemas@, id);
    lemma_values_of_map(manager.sources@, id);
    lemma_values_of_map(manager.views@, id);
    lemma_values_of_map(manager.functions@, id);
    lemma_values_of_map(manager.connections@, id);
}

proof fn lemma_first_named(ids: Seq<u32>, tables: Map<u32, Table>, key: RelationName)
    ensures
        match first_named(ids, tables, key) {
            Some(id) => ids.contains(id) && tables[id].key() == key,
            None => forall|i: int| 0 <= i < ids.len() ==> tables[#[trigger] ids[i]].key() != key,
        },
    decreases ids.len(),
{
    if ids.len() > 0 {
        let rest = ids.skip(1);
        lemma_first_named(rest, tables, key);
        if tables[ids[0]].key() != key {
            match first_named(rest, tables, key) {
                Some(id) => {
                    assert(ids[rest.index_of(id) + 1] == id);
                },
                None => {
                    assert forall|i: int| 0 <= i < ids.len() implies tables[
                    #[trigger] ids[i]].key() != key by {
                        if i > 0 {
                            assert(rest[i - 1] == ids[i]);
                        }
                    }
                },
            }
        } else {
            assert(ids.contains(ids[0]));
        }
    }
}

/// The name is that of the object.
pub open spec fn is_name(database_id: u32, schema_id: u32, name: Seq<char>, key: RelationKey) -> bool {
    database_id == key.database_id && schema_id == key.schema_id && name == key.name@
}

/// A name that some relation of the same schema and database has is refused; one that none has is not. It is
/// named what has it.
pub proof fn lemma_names_stay_apart(
    manager: &DatabaseManager,
    key: &RelationKey,
    res: Result<(), CatalogError>,
    id: u32,
)
    requires
        call_ensures(DatabaseManager::check_relation_name_duplicated, (manager, key), res),
    ensures
        ({
            let m = manager;
            let t = m.tables@.contains_key(id) && is_name(
                m.tables@[id].database_id,
                m.tables@[id].schema_id,
                m.tables@[id].name@,
                *key,
            );
            let s = m.sources@.contains_key(id) && is_name(
                m.sources@[id].database_id,
                m.sources@[id].schema_id,
                m.sources@[id].name@,
                *key,
            );
            let i = m.indexes@.contains_key(id) && is_name(
                m.indexes@[id].database_id,
                m.indexes@[id].schema_id,
                m.indexes@[id].name@,
                *key,
            );
            let k = m.sinks@.contains_key(id) && is_name(
                m.sinks@[id].database_id,
                m.sinks@[id].schema_id,
                m.sinks@[id].name@,
                *key,
            );
            let c = m.subscriptions@.contains_key(id) && is_name(
                m.subscriptions@[id].database_id,
                m.subscriptions@[id].schema_id,
                m.subscriptions@[id].name@,
                *key,
            );
            let v = m.views@.contains_key(id) && is_name(
                m.views@[id].database_id,
                m.views@[id].schema_id,
                m.views@[id].name@,
                *key,
            );
            &&& t || s || i || k || c || v ==> res is Err
            &&& res == Err::<(), CatalogError>(
                CatalogError::Duplicated { kind: ObjectKind::Source },
            ) ==> exists|x: u32| #[trigger]
                m.sources@.contains_key(x) && is_name(
                    m.sources@[x].database_id,
                    m.sources@[x].schema_id,
                    m.sources@[x].name@,
                    *key,
                )
            &&& res == Err::<(), CatalogError>(
                CatalogError::Duplicated { kind: ObjectKind::Index },
            ) ==> exists|x: u32| #[trigger]
                m.indexes@.contains_key(x) && is_name(
                    m.indexes@[x].database_id,
                    m.indexes@[x].schema_id,
                    m.indexes@[x].name@,
                    *key,
                )
            &&& res == Err::<(), CatalogError>(
                CatalogError::Duplicated { kind: ObjectKind::Sink },
            ) ==> exists|x: u32| #[trigger]
                m.sinks@.contains_key(x) && is_name(
                    m.sinks@[x].database_id,
                    m.sinks@[x].schema_id,
                    m.sinks@[x].name@,
                    *key,
                )
            &&& res == Err::<(), CatalogError>(
                CatalogError::Duplicated { kind: ObjectKind::Subscription },
            ) ==> exists|x: u32| #[trigger]
                m.subscriptions@.contains_key(x) && is_name(
                    m.subscriptions@[x].database_id,
                    m.subscriptions@[x].schema_id,
                    m.subscriptions@[x].name@,
                    *key,
                )
            &&& res == Err::<(), CatalogError>(
                CatalogError::Duplicated { kind: ObjectKind::LogicalView },
            ) ==> exists|x: u32| #[trigger]
                m.views@.contains_key(x) && is_name(
                    m.views@[x].database_id,
                    m.views@[x].schema_id,
                    m.views@[x].name@,
                    *key,
                )
            &&& res == Err::<(), CatalogError>(
                CatalogError::Duplicated { kind: ObjectKind::Table },
            ) ==> exists|x: u32| #[trigger]
                m.tables@.contains_key(x) && is_name(
                    m.tables@[x].database_id,
                    m.tables@[x].schema_id,
                    m.tables@[x].name@,
                    *key,
                ) && m.tables@[x].stream_job_status != StreamJobStatus::Creating
            &&& res matches Err(CatalogError::TableCreating { table_id }) ==> exists|x: u32|
                #[trigger] m.tables@.contains_key(x) && m.tables@[x].id == table_id && is_name(
                    m.tables@[x].database_id,
                    m.tables@[x].schema_id,
                    m.tables@[x].name@,
                    *key,
                ) && m.tables@[x].stream_job_status == StreamJobStatus::Creating
        }),
{
    let m = manager;
    lemma_ascending_exists(m.tables@.dom());
    let ids = ascending_of(m.tables@.dom());
    lemma_first_named(ids, m.tables@, key@);
    match first_named(ids, m.tables@, key@) {
        Some(x) => {
            assert(ids.to_set().contains(x));
            assert(m.tables@.contains_key(x));
        },
        None => {
            if m.tables@.contains_key(id) {
                assert(ids.to_set().contains(id));
                let i = ids.index_of(id);
                assert(m.tables@[ids[i]].key() != key@);
            }
            if m.sources@.contains_key(id) && m.sources@[id].key() == key@ {
                assert(some_named(m.sources@, key@));
            }
            if m.indexes@.contains_key(id) && m.indexes@[id].key() == key@ {
                assert(some_named(m.indexes@, key@));
            }
            if m.sinks@.contains_key(id) && m.sinks@[id].key() == key@ {
                assert(some_named(m.sinks@, key@));
            }
            if m.subscriptions@.contains_key(id) && m.subscriptions@[id].key() == key@ {
                assert(some_named(m.subscriptions@, key@));
            }
            if m.views@.contains_key(id) && m.views@[id].key() == key@ {
                assert(some_named(m.views@, key@));
            }
        },
    }
}

proof fn lemma_chosen(ids: Seq<u32>, tables: Map<u32, Table>, choice: TableChoice, x: Table)
    ensures
        chosen(ids, tables, choice).contains(&x) <==> crate::manager::database::is_chosen(x, choice)
            && exists|i: int| 0 <= i < ids.len() && tables[#[trigger] ids[i]] == x,
    decreases ids.len(),
{
    if ids.len() > 0 {
        let front = ids.drop_last();
        let n = ids.len() - 1;
        lemma_chosen(front, tables, choice, x);
        let before = chosen(front, tables, choice);
        let now = chosen(ids, tables, choice);
        assert(ids[n] == ids.last());
        if before.contains(&x) {
            let i = choose|i: int| 0 <= i < front.len() && tables[#[trigger] front[i]] == x;
            assert(ids[i] == front[i]);
        }
        if now.len() > before.len() {
            assert(*now[before.len() as int] == tables[ids[n]]);
            if before.contains(&x) {
                assert(now[before.index_of(&x)] == &x);
            }
            if now.contains(&x) && !before.contains(&x) {
                let k = now.index_of(&x);
                if k < before.len() {
                    assert(before[k] == &x);
                }
            }
        }
        if exists|i: int| 0 <= i < ids.len() && tables[#[trigger] ids[i]] == x {
            let i = choose|i: int| 0 <= i < ids.len() && tables[#[trigger] ids[i]] == x;
            if i < n {
                assert(front[i] == ids[i]);
            }
        }
    } else {
        assert(!chosen(ids, tables, choice).contains(&x));
    }
}

proof fn lemma_chosen_of(m: Map<u32, Table>, choice: TableChoice, id: u32, x: u32)
    requires
        m.dom().finite(),
    ensures
        ({
            let all = chosen(ascending_of(m.dom()), m, choice);
            &&& m.contains_key(id) ==> (all.contains(&m[id])
                <==> crate::manager::database::is_chosen(m[id], choice))
            &&& table_ids(all).contains(x) <==> exists|k: u32| #[trigger]
                m.contains_key(k) && m[k].id == x && crate::manager::database::is_chosen(
                    m[k],
                    choice,
                )
        }),
{
    lemma_ascending_exists(m.dom());
    let ids = ascending_of(m.dom());
    let all = chosen(ids, m, choice);
    if m.contains_key(id) {
        lemma_chosen(ids, m, choice, m[id]);
        assert(ids.to_set().contains(id));
        let i = ids.index_of(id);
        assert(m[ids[i]] == m[id]);
    }
    if table_ids(all).contains(x) {
        let i = table_ids(all).index_of(x);
        let t = *all[i];
        lemma_chosen(ids, m, choice, t);
        assert(all.contains(&t));
        let k = choose|k: int| 0 <= k < ids.len() && m[#[trigger] ids[k]] == t;
        assert(ids.to_set().contains(ids[k]));
        assert(m.contains_key(ids[k]));
    }
    if exists|k: u32| #[trigger]
        m.contains_key(k) && m[k].id == x && crate::manager::database::is_chosen(m[k], choice) {
        let k = choose|k: u32| #[trigger]
            m.contains_key(k) && m[k].id == x && crate::manager::database::is_chosen(m[k], choice);
        lemma_chosen(ids, m, choice, m[k]);
        assert(ids.to_set().contains(k));
        let i = ids.index_of(k);
        assert(m[ids[i]] == m[k]);
        let j = all.index_of(&m[k]);
        assert(table_ids(all)[j] == x);
    }
}

/// Which tables are listed: for changes the plain tables of a schema, as read-only all others of it, as being
/// created those that are, and in the background materialized views that are created there.
pub proof fn lemma_tables_listed(
    manager: &DatabaseManager,
    schema_id: u32,
    dml: Vec<u32>,
    readonly: Vec<u32>,
    creating: Vec<&Table>,
    background: Vec<&Table>,
    id: u32,
    x: u32,
)
    requires
        call_ensures(DatabaseManager::list_dml_table_ids, (manager, schema_id), dml),
        call_ensures(DatabaseManager::list_readonly_table_ids, (manager, schema_id), readonly),
        call_ensures(DatabaseManager::list_persisted_creating_tables, (manager,), creating),
        call_ensures(DatabaseManager::list_creating_background_mvs, (manager,), background),
    ensures
        dml@.contains(x) <==> exists|k: u32| #[trigger]
            manager.tables@.contains_key(k) && manager.tables@[k].id == x
                && manager.tables@[k].schema_id == schema_id && manager.tables@[k].table_type
                == TableType::Table,
        readonly@.contains(x) <==> exists|k: u32| #[trigger]
            manager.tables@.contains_key(k) && manager.tables@[k].id == x
                && manager.tables@[k].schema_id == schema_id && manager.tables@[k].table_type
                != TableType::Table,
        manager.tables@.contains_key(id) ==> (creating@.contains(&manager.tables@[id])
            <==> manager.tables@[id].stream_job_status == StreamJobStatus::Creating),
        manager.tables@.contains_key(id) ==> (background@.contains(&manager.tables@[id])
            <==> manager.tables@[id].stream_job_status == StreamJobStatus::Creating
            && manager.tables@[id].table_type == TableType::MaterializedView
            && manager.tables@[id].create_type == CreateType::Background),
{
    let m = manager.tables@;
    lemma_chosen_of(m, TableChoice::Dml(schema_id), id, x);
    lemma_chosen_of(m, TableChoice::Readonly(schema_id), id, x);
    lemma_chosen_of(m, TableChoice::Creating, id, x);
    lemma_chosen_of(m, TableChoice::CreatingBackgroundMv, id, x);
}

proof fn lemma_ids_in_schema<T: Named + Identified>(
    ids: Seq<u32>,
    m: Map<u32, T>,
    schema_id: u32,
    x: u32,
)
    ensures
        ids_in_schema(ids, m, schema_id).contains(x) <==> exists|i: int|
            0 <= i < ids.len() && m[#[trigger] ids[i]].ident() == x && m[ids[i]].key().schema_id
                == schema_id,
    decreases ids.len(),
{
    if ids.len() > 0 {
        let front = ids.drop_last();
        let n = ids.len() - 1;
        lemma_ids_in_schema(front, m, schema_id, x);
        let before = ids_in_schema(front, m, schema_id);
        let now = ids_in_schema(ids, m, schema_id);
        assert(ids[n] == ids.last());
        if before.contains(x) {
            let i = choose|i: int|
                0 <= i < front.len() && m[#[trigger] front[i]].ident() == x
                    && m[front[i]].key().schema_id == schema_id;
            assert(ids[i] == front[i]);
        }
        if now.len() > before.len() {
            assert(now[before.len() as int] == m[ids[n]].ident());
            if before.contains(x) {
                assert(now[before.index_of(x)] == x);
            }
            if now.contains(x) && !before.contains(x) {
                let k = now.index_of(x);
                if k < before.len() {
                    assert(before[k] == x);
                }
            }
        }
        if exists|i: int|
            0 <= i < ids.len() && m[#[trigger] ids[i]].ident() == x && m[ids[i]].key().schema_id
                == schema_id {
            let i = choose|i: int|
                0 <= i < ids.len() && m[#[trigger] ids[i]].ident() == x
                    && m[ids[i]].key().schema_id == schema_id;
            if i < n {
                assert(front[i] == ids[i]);
            }
        }
    } else {
        assert(!ids_in_schema(ids, m, schema_id).contains(x));
    }
}

/// The views and the sources of a schema are those that are in it.
pub proof fn lemma_listed_in_schema(
    manager: &DatabaseManager,
    schema_id: u32,
    views: Vec<u32>,
    sources: Vec<u32>,
    x: u32,
)
    requires
        call_ensures(DatabaseManager::list_view_ids, (manager, schema_id), views),
        call_ensures(DatabaseManager::list_source_ids, (manager, schema_id), sources),
    ensures
        views@.contains(x) <==> exists|k: u32| #[trigger]
            manager.views@.contains_key(k) && manager.views@[k].id == x
                && manager.views@[k].schema_id == schema_id,
        sources@.contains(x) <==> exists|k: u32| #[trigger]
            manager.sources@.contains_key(k) && manager.sources@[k].id == x
                && manager.sources@[k].schema_id == schema_id,
{
    lemma_ascending_exists(manager.views@.dom());
    lemma_ascending_exists(manager.sources@.dom());
    let a = ascending_of(manager.views@.dom());
    let b = ascending_of(manager.sources@.dom());
    lemma_ids_in_schema(a, manager.views@, schema_id, x);
    lemma_ids_in_schema(b, manager.sources@, schema_id, x);
    if views@.contains(x) {
        let i = choose|i: int|
            0 <= i < a.len() && manager.views@[#[trigger] a[i]].ident() == x
                && manager.views@[a[i]].key().schema_id == schema_id;
        assert(a.to_set().contains(a[i]));
        assert(manager.views@.contains_key(a[i]));
    }
    if exists|k: u32| #[trigger]
        manager.views@.contains_key(k) && manager.views@[k].id == x && manager.views@[k].schema_id
            == schema_id {
        let k = choose|k: u32| #[trigger]
            manager.views@.contains_key(k) && manager.views@[k].id == x
                && manager.views@[k].schema_id == schema_id;
        assert(a.to_set().contains(k));
        let i = a.index_of(k);
        assert(manager.views@[a[i]].ident() == x);
    }
    if sources@.contains(x) {
        let i = choose|i: int|
            0 <= i < b.len() && manager.sources@[#[trigger] b[i]].ident() == x
                && manager.sources@[b[i]].key().schema_id == schema_id;
        assert(b.to_set().contains(b[i]));
        assert(manager.sources@.contains_key(b[i]));
    }
    if exists|k: u32| #[trigger]
        manager.sources@.contains_key(k) && manager.sources@[k].id == x
            && manager.sources@[k].schema_id == schema_id {
        let k = choose|k: u32| #[trigger]
            manager.sources@.contains_key(k) && manager.sources@[k].id == x
                && manager.sources@[k].schema_id == schema_id;
        assert(b.to_set().contains(k));
        let i = b.index_of(k);
        assert(manager.sources@[b[i]].ident() == x);
    }
}

/// A schema is empty if no table, source, sink, subscription, index or view is in it.
pub proof fn lemma_empty_schema(manager: &DatabaseManager, schema_id: u32, res: bool, id: u32)
    requires
        call_ensures(DatabaseManager::schema_is_empty, (manager, schema_id), res),
    ensures
        res ==> {
            let m = manager;
            &&& m.tables@.contains_key(id) ==> m.tables@[id].schema_id != schema_id
            &&& m.sources@.contains_key(id) ==> m.sources@[id].schema_id != schema_id
            &&& m.sinks@.contains_key(id) ==> m.sinks@[id].schema_id != schema_id
            &&& m.subscriptions@.contains_key(id) ==> m.subscriptions@[id].schema_id != schema_id
            &&& m.indexes@.contains_key(id) ==> m.indexes@[id].schema_id != schema_id
            &&& m.views@.contains_key(id) ==> m.views@[id].schema_id != schema_id
        },
        !res ==> {
            let m = manager;
            ||| exists|k: u32| #[trigger]
                m.tables@.contains_key(k) && m.tables@[k].schema_id == schema_id
            ||| exists|k: u32| #[trigger]
                m.sources@.contains_key(k) && m.sources@[k].schema_id == schema_id
            ||| exists|k: u32| #[trigger]
                m.sinks@.contains_key(k) && m.sinks@[k].schema_id == schema_id
            ||| exists|k: u32| #[trigger]
                m.subscriptions@.contains_key(k) && m.subscriptions@[k].schema_id == schema_id
            ||| exists|k: u32| #[trigger]
                m.indexes@.contains_key(k) && m.indexes@[k].schema_id == schema_id
            ||| exists|k: u32| #[trigger]
                m.views@.contains_key(k) && m.views@[k].schema_id == schema_id
        },
{
}

/// Counting references: one more or one less for the object that is referred to, and none for any other. An object
/// is not counted any more when nothing refers to it.
pub proof fn lemma_references_counted(
    manager: &mut DatabaseManager,
    other: &mut DatabaseManager,
    relation_id: u32,
    id: u32,
)
    requires
        call_ensures(DatabaseManager::increase_ref_count, (manager, relation_id), ()),
        call_ensures(DatabaseManager::decrease_ref_count, (other, relation_id), ()),
        old(manager).relation_ref_count@.contains_key(relation_id) ==> old(
            manager
        ).relation_ref_count@[relation_id] < usize::MAX,
        old(other).relation_ref_count@.contains_key(relation_id),
        old(other).relation_ref_count@[relation_id] > 0,
    ensures
        ({
            let before = old(manager).relation_ref_count@;
            let after = final(manager).relation_ref_count@;
            &&& after.contains_key(relation_id)
            &&& after[relation_id] == (if before.contains_key(relation_id) {
                before[relation_id] as int
            } else {
                0
            }) + 1
            &&& id != relation_id ==> (after.contains_key(id) <==> before.contains_key(id))
            &&& id != relation_id && before.contains_key(id) ==> after[id] == before[id]
        }),
        ({
            let before = old(other).relation_ref_count@;
            let after = final(other).relation_ref_count@;
            &&& after.contains_key(relation_id) <==> before[relation_id] > 1
            &&& before[relation_id] > 1 ==> after[relation_id] == before[relation_id] - 1
            &&& id != relation_id ==> (after.contains_key(id) <==> before.contains_key(id))
            &&& id != relation_id && before.contains_key(id) ==> after[id] == before[id]
        }),
{
}

proof fn lemma_by_id<T: Identified>(list: Seq<T>, id: u32)
    ensures
        by_id(list).contains_key(id) <==> exists|i: int|
            0 <= i < list.len() && (#[trigger] list[i]).ident() == id,
        by_id(list).contains_key(id) ==> exists|i: int|
            0 <= i < list.len() && #[trigger] list[i] == by_id(list)[id] && list[i].ident() == id,
    decreases list.len(),
{
    if list.len() > 0 {
        let front = list.drop_last();
        let n = list.len() - 1;
        lemma_by_id(front, id);
        assert(list[n] == list.last());
        if by_id(front).contains_key(id) {
            let i = choose|i: int|
                0 <= i < front.len() && #[trigger] front[i] == by_id(front)[id]
                    && front[i].ident() == id;
            assert(list[i] == front[i]);
        }
        if list.last().ident() == id {
            assert(list[n] == by_id(list)[id]);
        }
        if exists|i: int| 0 <= i < list.len() && (#[trigger] list[i]).ident() == id {
            let i = choose|i: int| 0 <= i < list.len() && (#[trigger] list[i]).ident() == id;
            if i < n {
                assert(front[i] == list[i]);
            }
        }
    }
}

/// Every stored object is known under its id, and nothing else is.
pub proof fn lemma_stored_objects_known(
    databases: Vec<Database>,
    schemas: Vec<Schema>,
    sources: Vec<Source>,
    sinks: Vec<Sink>,
    tables: Vec<Table>,
    indexes: Vec<Index>,
    views: Vec<LogicalView>,
    functions: Vec<Function>,
    connections: Vec<Connection>,
    subscriptions: Vec<Subscription>,
    res: DatabaseManager,
    id: u32,
)
    requires
        call_ensures(
            DatabaseManager::new,
            (
                databases,
                schemas,
                sources,
                sinks,
                tables,
                indexes,
                views,
                functions,
                connections,
                subscriptions,
            ),
            res,
        ),
    ensures
        res.databases@.contains_key(id) <==> exists|i: int|
            0 <= i < databases@.len() && (#[trigger] databases@[i]).id == id,
        res.schemas@.contains_key(id) <==> exists|i: int|
            0 <= i < schemas@.len() && (#[trigger] schemas@[i]).id == id,
        res.sources@.contains_key(id) <==> exists|i: int|
            0 <= i < sources@.len() && (#[trigger] sources@[i]).id == id,
        res.sinks@.contains_key(id) <==> exists|i: int|
            0 <= i < sinks@.len() && (#[trigger] sinks@[i]).id == id,
        res.tables@.contains_key(id) <==> exists|i: int|
            0 <= i < tables@.len() && (#[trigger] tables@[i]).id == id,
        res.indexes@.contains_key(id) <==> exists|i: int|
            0 <= i < indexes@.len() && (#[trigger] indexes@[i]).id == id,
        res.views@.contains_key(id) <==> exists|i: int|
            0 <= i < views@.len() && (#[trigger] views@[i]).id == id,
        res.functions@.contains_key(id) <==> exists|i: int|
            0 <= i < functions@.len() && (#[trigger] functions@[i]).id == id,
        res.connections@.contains_key(id) <==> exists|i: int|
            0 <= i < connections@.len() && (#[trigger] connections@[i]).id == id,
        res.subscriptions@.contains_key(id) <==> exists|i: int|
            0 <= i < subscriptions@.len() && (#[trigger] subscriptions@[i]).id == id,
        res.tables@.contains_key(id) ==> tables@.contains(res.tables@[id]),
        res.sources@.contains_key(id) ==> sources@.contains(res.sources@[id]),
        res.sinks@.contains_key(id) ==> sinks@.contains(res.sinks@[id]),
{
    lemma_by_id(databases@, id);
    lemma_by_id(schemas@, id);
    lemma_by_id(sources@, id);
    lemma_by_id(sinks@, id);
    lemma_by_id(tables@, id);
    lemma_by_id(indexes@, id);
    lemma_by_id(views@, id);
    lemma_by_id(functions@, id);
    lemma_by_id(connections@, id);
    lemma_by_id(subscriptions@, id);
    lemma_ids_are_fields(databases@, schemas@, sources@, sinks@, tables@);
    lemma_more_ids_are_fields(indexes@, views@, functions@, connections@, subscriptions@);
}

proof fn lemma_ids_are_fields(
    databases: Seq<Database>,
    schemas: Seq<Schema>,
    sources: Seq<Source>,
    sinks: Seq<Sink>,
    tables: Seq<Table>,
)
    ensures
        forall|i: int| 0 <= i < databases.len() ==> (#[trigger] databases[i]).ident() == databases[i].id,
        forall|i: int| 0 <= i < schemas.len() ==> (#[trigger] schemas[i]).ident() == schemas[i].id,
        forall|i: int| 0 <= i < sources.len() ==> (#[trigger] sources[i]).ident() == sources[i].id,
        forall|i: int| 0 <= i < sinks.len() ==> (#[trigger] sinks[i]).ident() == sinks[i].id,
        forall|i: int| 0 <= i < tables.len() ==> (#[trigger] tables[i]).ident() == tables[i].id,
{
}

proof fn lemma_more_ids_are_fields(
    indexes: Seq<Index>,
    views: Seq<LogicalView>,
    functions: Seq<Function>,
    connections: Seq<Connection>,
    subscriptions: Seq<Subscription>,
)
    ensures
        forall|i: int| 0 <= i < indexes.len() ==> (#[trigger] indexes[i]).ident() == indexes[i].id,
        forall|i: int| 0 <= i < views.len() ==> (#[trigger] views[i]).ident() == views[i].id,
        forall|i: int| 0 <= i < functions.len() ==> (#[trigger] functions[i]).ident() == functions[i].id,
        forall|i: int|
            0 <= i < connections.len() ==> (#[trigger] connections[i]).ident() == connections[i].id,
        forall|i: int|
            0 <= i < subscriptions.len() ==> (#[trigger] subscriptions[i]).ident()
                == subscriptions[i].id,
{
}

proof fn lemma_occurrences(refs: Seq<u32>, id: u32)
    ensures
        occurrences(refs, id) == refs.to_multiset().count(id),
    decreases refs.len(),
{
    refs.to_multiset_ensures();
    if refs.len() > 0 {
        let front = refs.drop_last();
        lemma_occurrences(front, id);
        front.to_multiset_ensures();
        assert(front.push(refs.last()) =~= refs);
    }
}

proof fn lemma_refs_of<T: Refers>(list: Seq<T>, id: u32)
    ensures
        refs_of(list).contains(id) <==> exists|i: int|
            0 <= i < list.len() && (#[trigger] list[i]).refers().contains(id),
    decreases list.len(),
{
    if list.len() > 0 {
        let front = list.drop_last();
        let n = list.len() - 1;
        lemma_refs_of(front, id);
        assert(list[n] == list.last());
        let a = refs_of(front);
        let b = list.last().refers();
        let s = refs_of(list);
        if a.contains(id) {
            assert(s[a.index_of(id)] == id);
            let i = choose|i: int| 0 <= i < front.len() && (#[trigger] front[i]).refers().contains(id);
            assert(list[i] == front[i]);
        }
        if b.contains(id) {
            assert(s[a.len() + b.index_of(id)] == id);
        }
        if s.contains(id) {
            let k = s.index_of(id);
            if k < a.len() {
                assert(a[k] == id);
            } else {
                assert(b[k - a.len()] == id);
            }
        }
        if exists|i: int| 0 <= i < list.len() && (#[trigger] list[i]).refers().contains(id) {
            let i = choose|i: int| 0 <= i < list.len() && (#[trigger] list[i]).refers().contains(id);
            if i < n {
                assert(front[i] == list[i]);
            }
        }
    } else {
        assert(!refs_of(list).contains(id));
    }
}

/// An object is counted as often as it is referred to: by the tables, sinks and views that depend on it, by the
/// subscription of a table, and by the sources of a connection.
pub proof fn lemma_stored_references_counted(
    databases: Vec<Database>,
    schemas: Vec<Schema>,
    sources: Vec<Source>,
    sinks: Vec<Sink>,
    tables: Vec<Table>,
    indexes: Vec<Index>,
    views: Vec<LogicalView>,
    functions: Vec<Function>,
    connections: Vec<Connection>,
    subscriptions: Vec<Subscription>,
    res: DatabaseManager,
    i: int,
    k: int,
)
    requires
        call_ensures(
            DatabaseManager::new,
            (
                databases,
                schemas,
                sources,
                sinks,
                tables,
                indexes,
                views,
                functions,
                connections,
                subscriptions,
            ),
            res,
        ),
    ensures
        0 <= i < tables@.len() && 0 <= k < tables@[i].dependent_relations@.len()
            ==> res.relation_ref_count@.contains_key(tables@[i].dependent_relations@[k]),
        0 <= i < views@.len() && 0 <= k < views@[i].dependent_relations@.len()
            ==> res.relation_ref_count@.contains_key(views@[i].dependent_relations@[k]),
        0 <= i < sinks@.len() && 0 <= k < sinks@[i].dependent_relations@.len()
            ==> res.relation_ref_count@.contains_key(sinks@[i].dependent_relations@[k]),
        0 <= i < subscriptions@.len() ==> res.relation_ref_count@.contains_key(
            subscriptions@[i].dependent_table_id,
        ),
        0 <= i < sources@.len() && sources@[i].connection_id is Some
            ==> res.relation_ref_count@.contains_key(sources@[i].connection_id->Some_0),
        forall|id: u32| #[trigger]
            res.relation_ref_count@.contains_key(id) ==> res.relation_ref_count@[id] == all_refs(
                sources@,
                sinks@,
                subscriptions@,
                tables@,
                views@,
            ).to_multiset().count(id) && res.relation_ref_count@[id] > 0,
{
    let all = all_refs(sources@, sinks@, subscriptions@, tables@, views@);
    all.to_multiset_ensures();
    let (a, b, c, d, e) = (
        refs_of(sources@),
        refs_of(sinks@),
        refs_of(subscriptions@),
        refs_of(tables@),
        refs_of(views@),
    );
    assert forall|id: u32|
        a.contains(id) || b.contains(id) || c.contains(id) || d.contains(id) || e.contains(
            id,
        ) implies #[trigger] res.relation_ref_count@.contains_key(id) by {
        lemma_occurrences(all, id);
        if a.contains(id) {
            assert(all[a.index_of(id)] == id);
        } else if b.contains(id) {
            assert(all[a.len() + b.index_of(id)] == id);
        } else if c.contains(id) {
            assert(all[a.len() + b.len() + c.index_of(id)] == id);
        } else if d.contains(id) {
            assert(all[a.len() + b.len() + c.len() + d.index_of(id)] == id);
        } else {
            assert(all[a.len() + b.len() + c.len() + d.len() + e.index_of(id)] == id);
        }
        assert(all.contains(id));
    }
    assert forall|id: u32| #[trigger]
        res.relation_ref_count@.contains_key(id) implies res.relation_ref_count@[id]
        == all.to_multiset().count(id) && res.relation_ref_count@[id] > 0 by {
        lemma_occurrences(all, id);
    }
    if 0 <= i < tables@.len() && 0 <= k < tables@[i].dependent_relations@.len() {
        let id = tables@[i].dependent_relations@[k];
        lemma_refs_of(tables@, id);
        assert(tables@[i].refers().contains(id));
    }
    if 0 <= i < views@.len() && 0 <= k < views@[i].dependent_relations@.len() {
        let id = views@[i].dependent_relations@[k];
        lemma_refs_of(views@, id);
        assert(views@[i].refers().contains(id));
    }
    if 0 <= i < sinks@.len() && 0 <= k < sinks@[i].dependent_relations@.len() {
        let id = sinks@[i].dependent_relations@[k];
        lemma_refs_of(sinks@, id);
        assert(sinks@[i].refers().contains(id));
    }
    if 0 <= i < subscriptions@.len() {
        let id = subscriptions@[i].dependent_table_id;
        lemma_refs_of(subscriptions@, id);
        assert(subscriptions@[i].refers()[0] == id);
        assert(subscriptions@[i].refers().contains(id));
    }
    if 0 <= i < sources@.len() && sources@[i].connection_id is Some {
        let id = sources@[i].connection_id->Some_0;
        lemma_refs_of(sources@, id);
        assert(sources@[i].refers()[0] == id);
        assert(sources@[i].refers().contains(id));
    }
}

proof fn lemma_with_tables(m: Map<u32, Table>, tables: Seq<Table>, id: u32)
    ensures
        ({
            let after = with_tables(m, tables);
            let own = exists|i: int| 0 <= i < tables.len() && (#[trigger] tables[i]).id == id;
            &&& after.contains_key(id) <==> own || m.contains_key(id)
            &&& own ==> exists|i: int|
                0 <= i < tables.len() && #[trigger] tables[i] == after[id] && tables[i].id == id
            &&& !own && m.contains_key(id) ==> after[id] == m[id]
        }),
    decreases tables.len(),
{
    if tables.len() > 0 {
        let front = tables.drop_last();
        let n = tables.len() - 1;
        lemma_with_tables(m, front, id);
        assert(tables[n] == tables.last());
        if exists|i: int| 0 <= i < front.len() && (#[trigger] front[i]).id == id {
            let i = choose|i: int|
                0 <= i < front.len() && #[trigger] front[i] == with_tables(m, front)[id]
                    && front[i].id == id;
            assert(tables[i] == front[i]);
        }
        if exists|i: int| 0 <= i < tables.len() && (#[trigger] tables[i]).id == id {
            let i = choose|i: int| 0 <= i < tables.len() && (#[trigger] tables[i]).id == id;
            if i < n {
                assert(front[i] == tables[i]);
            }
        }
        if tables.last().id == id {
            assert(tables[n] == with_tables(m, tables)[id]);
        }
    }
}

/// Tables that are marked are being created afterwards, and those that are unmarked are not; of the others nothing
/// changes.
pub proof fn lemma_tables_marked(
    manager: &mut DatabaseManager,
    tables: Vec<Table>,
    other: &mut DatabaseManager,
    ids: &Vec<u32>,
    id: u32,
)
    requires
        call_ensures(DatabaseManager::mark_creating_tables, (manager, tables), ()),
        call_ensures(DatabaseManager::unmark_creating_tables, (other, ids), ()),
    ensures
        ({
            let before = old(manager).in_progress_creating_tables@;
            let after = final(manager).in_progress_creating_tables@;
            let own = exists|i: int| 0 <= i < tables@.len() && (#[trigger] tables@[i]).id == id;
            &&& after.contains_key(id) <==> own || before.contains_key(id)
            &&& own ==> after[id].id == id
            &&& !own && before.contains_key(id) ==> after[id] == before[id]
        }),
        ({
            let before = old(other).in_progress_creating_tables@;
            let after = final(other).in_progress_creating_tables@;
            &&& after.contains_key(id) <==> before.contains_key(id) && !ids@.contains(id)
            &&& after.contains_key(id) ==> after[id] == before[id]
        }),
{
    lemma_with_tables(old(manager).in_progress_creating_tables@, tables@, id);
}

proof fn lemma_first_job(ids: Seq<u32>, jobs: Map<u32, RelationKey>, key: RelationName)
    ensures
        match first_job(ids, jobs, key) {
            Some(id) => ids.contains(id) && jobs[id]@ == key,
            None => forall|i: int| 0 <= i < ids.len() ==> jobs[#[trigger] ids[i]]@ != key,
        },
    decreases ids.len(),
{
    if ids.len() > 0 {
        let rest = ids.skip(1);
        lemma_first_job(rest, jobs, key);
        if jobs[ids[0]]@ != key {
            match first_job(rest, jobs, key) {
                Some(id) => {
                    assert(ids[rest.index_of(id) + 1] == id);
                },
                None => {
                    assert forall|i: int| 0 <= i < ids.len() implies jobs[#[trigger] ids[i]]@
                        != key by {
                        if i > 0 {
                            assert(rest[i - 1] == ids[i]);
                        }
                    }
                },
            }
        } else {
            assert(ids.contains(ids[0]));
        }
    }
}

proof fn lemma_first_creating(ids: Seq<u32>, tables: Map<u32, Table>, key: RelationName)
    ensures
        match first_creating(ids, tables, key) {
            Some(id) => ids.contains(id) && tables[id].key() == key && tables[id].stream_job_status
                == StreamJobStatus::Creating,
            None => forall|i: int|
                0 <= i < ids.len() ==> !(tables[#[trigger] ids[i]].key() == key
                    && tables[ids[i]].stream_job_status == StreamJobStatus::Creating),
        },
    decreases ids.len(),
{
    if ids.len() > 0 {
        let rest = ids.skip(1);
        lemma_first_creating(rest, tables, key);
        if !(tables[ids[0]].key() == key && tables[ids[0]].stream_job_status
            == StreamJobStatus::Creating) {
            match first_creating(rest, tables, key) {
                Some(id) => {
                    assert(ids[rest.index_of(id) + 1] == id);
                },
                None => {
                    assert forall|i: int| 0 <= i < ids.len() implies !(tables[
                    #[trigger] ids[i]].key() == key && tables[ids[i]].stream_job_status
                        == StreamJobStatus::Creating) by {
                        if i > 0 {
                            assert(rest[i - 1] == ids[i]);
                        }
                    }
                },
            }
        } else {
            assert(ids.contains(ids[0]));
        }
    }
}

/// A job or a stored table that is being created is found by its name, if and only if there is one of that name.
pub proof fn lemma_creating_found(
    manager: &DatabaseManager,
    key: &RelationKey,
    job: Option<u32>,
    table: Option<u32>,
    id: u32,
)
    requires
        call_ensures(DatabaseManager::find_creating_streaming_job_id, (manager, key), job),
        call_ensures(DatabaseManager::find_persisted_creating_table_id, (manager, key), table),
    ensures
        ({
            let jobs = manager.in_progress_creation_streaming_job@;
            let tables = manager.tables@;
            &&& job matches Some(j) ==> jobs.contains_key(j) && is_name(
                jobs[j].database_id,
                jobs[j].schema_id,
                jobs[j].name@,
                *key,
            )
            &&& job is None && jobs.contains_key(id) ==> !is_name(
                jobs[id].database_id,
                jobs[id].schema_id,
                jobs[id].name@,
                *key,
            )
            &&& table matches Some(t) ==> tables.contains_key(t) && is_name(
                tables[t].database_id,
                tables[t].schema_id,
                tables[t].name@,
                *key,
            ) && tables[t].stream_job_status == StreamJobStatus::Creating
            &&& table is None && tables.contains_key(id) && tables[id].stream_job_status
                == StreamJobStatus::Creating ==> !is_name(
                tables[id].database_id,
                tables[id].schema_id,
                tables[id].name@,
                *key,
            )
        }),
{
    let jobs = manager.in_progress_creation_streaming_job@;
    let tables = manager.tables@;
    lemma_ascending_exists(jobs.dom());
    lemma_ascending_exists(tables.dom());
    let a = ascending_of(jobs.dom());
    let b = ascending_of(tables.dom());
    lemma_first_job(a, jobs, key@);
    lemma_first_creating(b, tables, key@);
    match job {
        Some(j) => {
            assert(a.to_set().contains(j));
        },
        None => {
            if jobs.contains_key(id) {
                assert(a.to_set().contains(id));
                let i = a.index_of(id);
                assert(jobs[a[i]]@ != key@);
            }
        },
    }
    match table {
        Some(t) => {
            assert(b.to_set().contains(t));
        },
        None => {
            if tables.contains_key(id) {
                assert(b.to_set().contains(id));
                let i = b.index_of(id);
                assert(tables[b[i]] == tables[id]);
            }
        },
    }
}

/// The owner of an object is the one that is stored with it, whatever the kind; of an object that is not there it
/// is an error, which names the kind and the id.
pub proof fn lemma_owner_is_stored(
    manager: &DatabaseManager,
    object: GrantObject,
    res: Result<u32, CatalogError>,
)
    requires
        call_ensures(DatabaseManager::get_object_owner, (manager, object), res),
    ensures
        ({
            let m = manager;
            match (object, res) {
                (GrantObject::DatabaseId(id), Ok(o)) => m.databases@.contains_key(id)
                    && m.databases@[id].owner == o,
                (GrantObject::SchemaId(id), Ok(o)) => m.schemas@.contains_key(id)
                    && m.schemas@[id].owner == o,
                (GrantObject::TableId(id), Ok(o)) => m.tables@.contains_key(id)
                    && m.tables@[id].owner == o,
                (GrantObject::SourceId(id), Ok(o)) => m.sources@.contains_key(id)
                    && m.sources@[id].owner == o,
                (GrantObject::SinkId(id), Ok(o)) => m.sinks@.contains_key(id) && m.sinks@[id].owner
                    == o,
                (GrantObject::SubscriptionId(id), Ok(o)) => m.subscriptions@.contains_key(id)
                    && m.subscriptions@[id].owner == o,
                (GrantObject::ViewId(id), Ok(o)) => m.views@.contains_key(id) && m.views@[id].owner
                    == o,
                (GrantObject::FunctionId(id), Ok(o)) => m.functions@.contains_key(id)
                    && m.functions@[id].owner == o,
                (GrantObject::DatabaseId(id), Err(e)) => !m.databases@.contains_key(id) && e == (
                CatalogError::IdNotFound { kind: ObjectKind::Database, id }),
                (GrantObject::SchemaId(id), Err(e)) => !m.schemas@.contains_key(id) && e == (
                CatalogError::IdNotFound { kind: ObjectKind::Schema, id }),
                (GrantObject::TableId(id), Err(e)) => !m.tables@.contains_key(id) && e == (
                CatalogError::IdNotFound { kind: ObjectKind::Table, id }),
                (GrantObject::SourceId(id), Err(e)) => !m.sources@.contains_key(id) && e == (
                CatalogError::IdNotFound { kind: ObjectKind::Source, id }),
                (GrantObject::SinkId(id), Err(e)) => !m.sinks@.contains_key(id) && e == (
                CatalogError::IdNotFound { kind: ObjectKind::Sink, id }),
                (GrantObject::SubscriptionId(id), Err(e)) => !m.subscriptions@.contains_key(id) && e
                    == (CatalogError::IdNotFound { kind: ObjectKind::Subscription, id }),
                (GrantObject::ViewId(id), Err(e)) => !m.views@.contains_key(id) && e == (
                CatalogError::IdNotFound { kind: ObjectKind::LogicalView, id }),
                (GrantObject::FunctionId(id), Err(e)) => !m.functions@.contains_key(id) && e == (
                CatalogError::IdNotFound { kind: ObjectKind::Function, id }),
            }
        }),
{
}

proof fn lemma_shared(ids: Seq<u32>, sources: Map<u32, Source>, x: u32)
    ensures
        shared_sources(ids, sources).contains(x) <==> ids.contains(x) && sources[x].is_shared,
    decreases ids.len(),
{
    if ids.len() > 0 {
        let front = ids.drop_last();
        lemma_shared(front, sources, x);
        let before = shared_sources(front, sources);
        let now = shared_sources(ids, sources);
        assert(ids[ids.len() - 1] == ids.last());
        if ids.contains(x) && x != ids.last() {
            let i = ids.index_of(x);
            assert(front[i] == x);
        }
        if front.contains(x) {
            assert(ids[front.index_of(x)] == x);
        }
        if sources[ids.last()].is_shared {
            assert(now[before.len() as int] == ids.last());
            if before.contains(x) {
                assert(now[before.index_of(x)] == x);
            }
        }
    } else {
        assert(!ids.contains(x));
        assert(!shared_sources(ids, sources).contains(x));
    }
}

/// The streaming jobs are the tables, sinks, indexes and sources; a source that jobs share is named twice.
pub proof fn lemma_stream_jobs(manager: &DatabaseManager, res: Vec<u32>, x: u32)
    requires
        call_ensures(DatabaseManager::list_stream_job_ids, (manager,), res),
    ensures
        res@.contains(x) <==> manager.tables@.contains_key(x) || manager.sinks@.contains_key(x)
            || manager.indexes@.contains_key(x) || manager.sources@.contains_key(x),
        manager.sources@.contains_key(x) && manager.sources@[x].is_shared ==> exists|i: int, j: int|
            0 <= i < j < res@.len() && #[trigger] res@[i] == x && #[trigger] res@[j] == x,
{
    lemma_ascending_exists(manager.tables@.dom());
    lemma_ascending_exists(manager.sinks@.dom());
    lemma_ascending_exists(manager.indexes@.dom());
    lemma_ascending_exists(manager.sources@.dom());
    let a = ascending_of(manager.tables@.dom());
    let b = ascending_of(manager.sinks@.dom());
    let c = ascending_of(manager.indexes@.dom());
    let d = ascending_of(manager.sources@.dom());
    let e = shared_sources(d, manager.sources@);
    lemma_shared(d, manager.sources@, x);
    assert(a.to_set().contains(x) <==> manager.tables@.contains_key(x));
    assert(b.to_set().contains(x) <==> manager.sinks@.contains_key(x));
    assert(c.to_set().contains(x) <==> manager.indexes@.contains_key(x));
    assert(d.to_set().contains(x) <==> manager.sources@.contains_key(x));
    let s = res@;
    assert(s == a + b + c + d + e);
    let (p, q, r, t) = (a.len() as int, b.len() as int, c.len() as int, d.len() as int);
    if a.contains(x) {
        assert(s[a.index_of(x)] == x);
    }
    if b.contains(x) {
        assert(s[p + b.index_of(x)] == x);
    }
    if c.contains(x) {
        assert(s[p + q + c.index_of(x)] == x);
    }
    if d.contains(x) {
        assert(s[p + q + r + d.index_of(x)] == x);
    }
    if e.contains(x) {
        assert(s[p + q + r + t + e.index_of(x)] == x);
    }
    if s.contains(x) {
        let k = s.index_of(x);
        if k < p {
            assert(a[k] == x);
        } else if k < p + q {
            assert(b[k - p] == x);
        } else if k < p + q + r {
            assert(c[k - p - q] == x);
        } else if k < p + q + r + t {
            assert(d[k - p - q - r] == x);
        } else {
            assert(e[k - p - q - r - t] == x);
        }
    }
}

/// The keys name the same object: in the same database and schema, by the same name.
pub open spec fn same_key(a: &RelationKey, b: &RelationKey) -> bool {
    a.database_id == b.database_id && a.schema_id == b.schema_id && a.name@ == b.name@
}

/// An object that is marked as being created is, until the mark is taken from it, and no other object is marked or
/// loses its mark by that.
pub proof fn lemma_marked_as_creating(
    marking: &mut DatabaseManager,
    unmarking: &mut DatabaseManager,
    key: &RelationKey,
    other: &RelationKey,
    before: bool,
    between: bool,
    after: bool,
)
    requires
        call_ensures(DatabaseManager::has_in_progress_creation, (old(marking), other), before),
        call_ensures(DatabaseManager::mark_creating, (marking, key), ()),
        call_ensures(DatabaseManager::has_in_progress_creation, (final(marking), other), between),
        *old(unmarking) == *final(marking),
        call_ensures(DatabaseManager::unmark_creating, (unmarking, key), ()),
        call_ensures(DatabaseManager::has_in_progress_creation, (final(unmarking), other), after),
    ensures
        between <==> before || same_key(key, other),
        after <==> before && !same_key(key, other),
{
    assert(same_key(key, other) <==> key@ == other@);
}

/// The schema is one of the database with the name.
pub open spec fn named_schema(manager: &DatabaseManager, id: u32, database_id: u32, name: Seq<char>) -> bool {
    manager.schemas@.contains_key(id) && manager.schemas@[id].database_id == database_id
        && manager.schemas@[id].name@ == name
}

/// A name of a database is free if and only if no database has it, and a name of a schema if no schema of the same
/// database has it.
pub proof fn lemma_free_names(
    manager: &DatabaseManager,
    database: &String,
    schema: &SchemaKey,
    a: Result<(), CatalogError>,
    b: Result<(), CatalogError>,
    id: u32,
)
    requires
        call_ensures(DatabaseManager::check_database_duplicated, (manager, database), a),
        call_ensures(DatabaseManager::check_schema_duplicated, (manager, schema), b),
    ensures
        a is Ok && manager.databases@.contains_key(id) ==> manager.databases@[id].name@ != database@,
        a is Err ==> exists|k: u32| #[trigger] manager.databases@.contains_key(k)
            && manager.databases@[k].name@ == database@,
        b is Ok ==> !named_schema(manager, id, schema.database_id, schema.name@),
        b is Err ==> exists|k: u32| named_schema(manager, k, schema.database_id, schema.name@),
{
    if b is Err {
        let k = choose|k: u32| #[trigger]
            manager.schemas@.contains_key(k) && manager.schemas@[k].database_id
                == schema.database_id && manager.schemas@[k].name@ == schema.name@;
        assert(named_schema(manager, k, schema.database_id, schema.name@));
    }
}

} // verus!
