//! The objects of a database.
use crate::common::collections::{ascending_of, map_keys};
use std::collections::BTreeMap;
use vstd::prelude::*;

verus! {

broadcast use {
    vstd::std_specs::btree::group_btree_axioms,
    vstd::laws_cmp::group_laws_cmp,
};

/// Whether a streaming job is there already.
#[derive(Clone, Copy, Debug, PartialEq, Eq, Structural)]
pub enum StreamJobStatus {
    Unspecified,
    Creating,
    Created,
}

/// Whether a subscription is there already.
#[derive(Clone, Copy, Debug, PartialEq, Eq, Structural)]
pub enum SubscriptionState {
    Unspecified,
    Init,
    Created,
}

/// What a table is.
#[derive(Clone, Copy, Debug, PartialEq, Eq, Structural)]
pub enum TableType {
    Unspecified,
    Table,
    MaterializedView,
    Index,
    Internal,
}

/// Whether the creation of a table is waited for.
#[derive(Clone, Copy, Debug, PartialEq, Eq, Structural)]
pub enum CreateType {
    Unspecified,
    Background,
    Foreground,
}

/// The type of a value.
#[derive(Debug)]
pub struct DataType {
    pub type_code: i32,
    pub precision: u32,
    pub scale: u32,
    pub is_nullable: bool,
    pub interval_type: i32,
    pub field_type: Vec<DataType>,
    pub field_names: Vec<String>,
}

/// The lists hold the same names.
pub open spec fn same_names(a: Seq<String>, b: Seq<String>) -> bool {
    a.len() == b.len() && forall|i: int| 0 <= i < a.len() ==> (#[trigger] a[i])@ == b[i]@
}

/// The types are the same.
pub open spec fn same_type(a: DataType, b: DataType) -> bool
    decreases a,
{
    &&& a.type_code == b.type_code
    &&& a.precision == b.precision
    &&& a.scale == b.scale
    &&& a.is_nullable == b.is_nullable
    &&& a.interval_type == b.interval_type
    &&& same_names(a.field_names@, b.field_names@)
    &&& a.field_type@.len() == b.field_type@.len()
    &&& forall|i: int|
        0 <= i < a.field_type@.len() ==> same_type(#[trigger] a.field_type@[i], b.field_type@[i])
}

/// The lists hold the same types.
pub open spec fn same_types(a: Seq<DataType>, b: Seq<DataType>) -> bool {
    a.len() == b.len() && forall|i: int| 0 <= i < a.len() ==> same_type(#[trigger] a[i], b[i])
}

/// Whether the lists hold the same names.
fn check_same_names(a: &Vec<String>, b: &Vec<String>) -> (res: bool)
    ensures
        res == same_names(a@, b@),
{
    if a.len() != b.len() {
        return false;
    }
    let mut i: usize = 0;
    while i < a.len()
        invariant
            i <= a.len(),
            a.len() == b.len(),
            forall|j: int| 0 <= j < i ==> (#[trigger] a@[j])@ == b@[j]@,
        decreases a.len() - i,
    {
        if a[i] != b[i] {
            assert(a@[i as int]@ != b@[i as int]@);
            return false;
        }
        i = i + 1;
    }
    true
}

impl DataType {
    /// Whether the types are the same.
    pub fn same_as(&self, other: &DataType) -> (res: bool)
        ensures
            res == same_type(*self, *other),
        decreases self,
    {
        if self.type_code != other.type_code || self.precision != other.precision || self.scale
            != other.scale || self.is_nullable != other.is_nullable || self.interval_type
            != other.interval_type || self.field_type.len() != other.field_type.len()
            || !check_same_names(&self.field_names, &other.field_names) {
            return false;
        }
        let mut i: usize = 0;
        while i < self.field_type.len()
            invariant
                i <= self.field_type.len(),
                self.field_type.len() == other.field_type.len(),
                forall|j: int|
                    0 <= j < i ==> same_type(
                        #[trigger] self.field_type@[j],
                        other.field_type@[j],
                    ),
            decreases self.field_type.len() - i,
        {
            let a = &self.field_type[i];
            let b = &other.field_type[i];
            if !a.same_as(b) {
                assert(!same_type(self.field_type@[i as int], other.field_type@[i as int]));
                return false;
            }
            i = i + 1;
        }
        true
    }
}

/// Whether the lists hold the same types.
pub fn check_same_types(a: &Vec<DataType>, b: &Vec<DataType>) -> (res: bool)
    ensures
        res == same_types(a@, b@),
{
    if a.len() != b.len() {
        return false;
    }
    let mut i: usize = 0;
    while i < a.len()
        invariant
            i <= a.len(),
            a.len() == b.len(),
            forall|j: int| 0 <= j < i ==> same_type(#[trigger] a@[j], b@[j]),
        decreases a.len() - i,
    {
        if !a[i].same_as(&b[i]) {
            assert(!same_type(a@[i as int], b@[i as int]));
            return false;
        }
        i = i + 1;
    }
    true
}

/// The name of an object in a schema.
#[derive(Debug)]
pub struct RelationKey {
    pub database_id: u32,
    pub schema_id: u32,
    pub name: String,
}

/// The name of an object in a schema, as plain values.
pub struct RelationName {
    pub database_id: u32,
    pub schema_id: u32,
    pub name: Seq<char>,
}

impl View for RelationKey {
    type V = RelationName;

    open spec fn view(&self) -> RelationName {
        RelationName {
            database_id: self.database_id,
            schema_id: self.schema_id,
            name: self.name@,
        }
    }
}

impl Clone for RelationKey {
    fn clone(&self) -> (res: RelationKey)
        ensures
            res@ == self@,
    {
        RelationKey {
            database_id: self.database_id,
            schema_id: self.schema_id,
            name: self.name.clone(),
        }
    }
}

impl RelationKey {
    /// Whether the names are the same.
    pub fn same_key(&self, other: &RelationKey) -> (res: bool)
        ensures
            res == (self@ == other@),
    {
        self.database_id == other.database_id && self.schema_id == other.schema_id && self.name
            == other.name
    }
}

#[derive(Debug)]
pub struct Database {
    pub id: u32,
    pub name: String,
    pub owner: u32,
}

#[derive(Debug)]
pub struct Schema {
    pub id: u32,
    pub database_id: u32,
    pub name: String,
    pub owner: u32,
}

#[derive(Debug)]
pub struct Table {
    pub id: u32,
    pub schema_id: u32,
    pub database_id: u32,
    pub name: String,
    pub owner: u32,
    pub table_type: TableType,
    pub stream_job_status: StreamJobStatus,
    pub create_type: CreateType,
    pub dependent_relations: Vec<u32>,
    pub retention_seconds: Option<u32>,
    pub definition: String,
}

#[derive(Debug)]
pub struct Source {
    pub id: u32,
    pub schema_id: u32,
    pub database_id: u32,
    pub name: String,
    pub owner: u32,
    pub connection_id: Option<u32>,
    /// Whether jobs that read the source share one reader.
    pub is_shared: bool,
}

#[derive(Debug)]
pub struct Sink {
    pub id: u32,
    pub schema_id: u32,
    pub database_id: u32,
    pub name: String,
    pub owner: u32,
    pub stream_job_status: StreamJobStatus,
    pub dependent_relations: Vec<u32>,
}

#[derive(Debug)]
pub struct Subscription {
    pub id: u32,
    pub schema_id: u32,
    pub database_id: u32,
    pub name: String,
    pub owner: u32,
    pub subscription_state: SubscriptionState,
    pub dependent_table_id: u32,
}

#[derive(Debug)]
pub struct Index {
    pub id: u32,
    pub schema_id: u32,
    pub database_id: u32,
    pub name: String,
    pub owner: u32,
    pub stream_job_status: StreamJobStatus,
}

/// A logical view.
#[derive(Debug)]
pub struct LogicalView {
    pub id: u32,
    pub schema_id: u32,
    pub database_id: u32,
    pub name: String,
    pub owner: u32,
    pub dependent_relations: Vec<u32>,
}

#[derive(Debug)]
pub struct Function {
    pub id: u32,
    pub schema_id: u32,
    pub database_id: u32,
    pub name: String,
    pub owner: u32,
    pub arg_types: Vec<DataType>,
}

#[derive(Debug)]
pub struct Connection {
    pub id: u32,
    pub schema_id: u32,
    pub database_id: u32,
    pub name: String,
    pub owner: u32,
}

/// An object with an id.
pub trait Identified {
    /// The id of the object.
    spec fn ident(&self) -> u32;

    /// The id of the object.
    fn get_id(&self) -> (res: u32)
        ensures
            res == self.ident(),
    ;
}

/// An object with a name in a schema.
pub trait Named {
    /// The name of the object.
    spec fn key(&self) -> RelationName;

    /// Whether the object has the name.
    fn has_key(&self, key: &RelationKey) -> (res: bool)
        ensures
            res == (self.key() == key@),
    ;

    /// Whether the object is in the schema.
    fn in_schema(&self, schema_id: u32) -> (res: bool)
        ensures
            res == (self.key().schema_id == schema_id),
    ;
}

/// An object that is not shown before it is there.
pub trait Shown {
    /// The object is there.
    spec fn shown(&self) -> bool;

    /// Whether the object is there.
    fn is_shown(&self) -> (res: bool)
        ensures
            res == self.shown(),
    ;
}

/// The job is not in creation.
pub open spec fn job_there(status: StreamJobStatus) -> bool {
    status == StreamJobStatus::Unspecified || status == StreamJobStatus::Created
}

impl Identified for Database {
    open spec fn ident(&self) -> u32 {
        self.id
    }

    fn get_id(&self) -> (res: u32) {
        self.id
    }
}

impl Identified for Schema {
    open spec fn ident(&self) -> u32 {
        self.id
    }

    fn get_id(&self) -> (res: u32) {
        self.id
    }
}

impl Identified for Table {
    open spec fn ident(&self) -> u32 {
        self.id
    }

    fn get_id(&self) -> (res: u32) {
        self.id
    }
}

impl Named for Table {
    open spec fn key(&self) -> RelationName {
        RelationName {
            database_id: self.database_id,
            schema_id: self.schema_id,
            name: self.name@,
        }
    }

    fn has_key(&self, key: &RelationKey) -> (res: bool) {
        self.database_id == key.database_id && self.schema_id == key.schema_id && self.name
            == key.name
    }

    fn in_schema(&self, schema_id: u32) -> (res: bool) {
        self.schema_id == schema_id
    }
}

impl Identified for Source {
    open spec fn ident(&self) -> u32 {
        self.id
    }

    fn get_id(&self) -> (res: u32) {
        self.id
    }
}

impl Named for Source {
    open spec fn key(&self) -> RelationName {
        RelationName {
            database_id: self.database_id,
            schema_id: self.schema_id,
            name: self.name@,
        }
    }

    fn has_key(&self, key: &RelationKey) -> (res: bool) {
        self.database_id == key.database_id && self.schema_id == key.schema_id && self.name
            == key.name
    }

    fn in_schema(&self, schema_id: u32) -> (res: bool) {
        self.schema_id == schema_id
    }
}

impl Identified for Sink {
    open spec fn ident(&self) -> u32 {
        self.id
    }

    fn get_id(&self) -> (res: u32) {
        self.id
    }
}

impl Named for Sink {
    open spec fn key(&self) -> RelationName {
        RelationName {
            database_id: self.database_id,
            schema_id: self.schema_id,
            name: self.name@,
        }
    }

    fn has_key(&self, key: &RelationKey) -> (res: bool) {
        self.database_id == key.database_id && self.schema_id == key.schema_id && self.name
            == key.name
    }

    fn in_schema(&self, schema_id: u32) -> (res: bool) {
        self.schema_id == schema_id
    }
}

impl Identified for Subscription {
    open spec fn ident(&self) -> u32 {
        self.id
    }

    fn get_id(&self) -> (res: u32) {
        self.id
    }
}

impl Named for Subscription {
    open spec fn key(&self) -> RelationName {
        RelationName {
            database_id: self.database_id,
            schema_id: self.schema_id,
            name: self.name@,
        }
    }

    fn has_key(&self, key: &RelationKey) -> (res: bool) {
        self.database_id == key.database_id && self.schema_id == key.schema_id && self.name
            == key.name
    }

    fn in_schema(&self, schema_id: u32) -> (res: bool) {
        self.schema_id == schema_id
    }
}

impl Identified for Index {
    open spec fn ident(&self) -> u32 {
        self.id
    }

    fn get_id(&self) -> (res: u32) {
        self.id
    }
}

impl Named for Index {
    open spec fn key(&self) -> RelationName {
        RelationName {
            database_id: self.database_id,
            schema_id: self.schema_id,
            name: self.name@,
        }
    }

    fn has_key(&self, key: &RelationKey) -> (res: bool) {
        self.database_id == key.database_id && self.schema_id == key.schema_id && self.name
            == key.name
    }

    fn in_schema(&self, schema_id: u32) -> (res: bool) {
        self.schema_id == schema_id
    }
}

impl Identified for LogicalView {
    open spec fn ident(&self) -> u32 {
        self.id
    }

    fn get_id(&self) -> (res: u32) {
        self.id
    }
}

impl Named for LogicalView {
    open spec fn key(&self) -> RelationName {
        RelationName {
            database_id: self.database_id,
            schema_id: self.schema_id,
            name: self.name@,
        }
    }

    fn has_key(&self, key: &RelationKey) -> (res: bool) {
        self.database_id == key.database_id && self.schema_id == key.schema_id && self.name
            == key.name
    }

    fn in_schema(&self, schema_id: u32) -> (res: bool) {
        self.schema_id == schema_id
    }
}

impl Identified for Function {
    open spec fn ident(&self) -> u32 {
        self.id
    }

    fn get_id(&self) -> (res: u32) {
        self.id
    }
}

impl Named for Function {
    open spec fn key(&self) -> RelationName {
        RelationName {
            database_id: self.database_id,
            schema_id: self.schema_id,
            name: self.name@,
        }
    }

    fn has_key(&self, key: &RelationKey) -> (res: bool) {
        self.database_id == key.database_id && self.schema_id == key.schema_id && self.name
            == key.name
    }

    fn in_schema(&self, schema_id: u32) -> (res: bool) {
        self.schema_id == schema_id
    }
}

impl Identified for Connection {
    open spec fn ident(&self) -> u32 {
        self.id
    }

    fn get_id(&self) -> (res: u32) {
        self.id
    }
}

impl Named for Connection {
    open spec fn key(&self) -> RelationName {
        RelationName {
            database_id: self.database_id,
            schema_id: self.schema_id,
            name: self.name@,
        }
    }

    fn has_key(&self, key: &RelationKey) -> (res: bool) {
        self.database_id == key.database_id && self.schema_id == key.schema_id && self.name
            == key.name
    }

    fn in_schema(&self, schema_id: u32) -> (res: bool) {
        self.schema_id == schema_id
    }
}

impl Shown for Table {
    open spec fn shown(&self) -> bool {
        job_there(self.stream_job_status)
    }

    fn is_shown(&self) -> (res: bool) {
        self.stream_job_status == StreamJobStatus::Unspecified || self.stream_job_status
            == StreamJobStatus::Created
    }
}

impl Shown for Sink {
    open spec fn shown(&self) -> bool {
        job_there(self.stream_job_status)
    }

    fn is_shown(&self) -> (res: bool) {
        self.stream_job_status == StreamJobStatus::Unspecified || self.stream_job_status
            == StreamJobStatus::Created
    }
}

impl Shown for Index {
    open spec fn shown(&self) -> bool {
        job_there(self.stream_job_status)
    }

    fn is_shown(&self) -> (res: bool) {
        self.stream_job_status == StreamJobStatus::Unspecified || self.stream_job_status
            == StreamJobStatus::Created
    }
}

impl Shown for Subscription {
    open spec fn shown(&self) -> bool {
        self.subscription_state == SubscriptionState::Created
    }

    fn is_shown(&self) -> (res: bool) {
        self.subscription_state == SubscriptionState::Created
    }
}

/// The values of a map, by ascending key.
pub open spec fn values_of<'a, T>(ids: Seq<u32>, m: Map<u32, T>) -> Seq<&'a T> {
    Seq::new(ids.len(), |i: int| &m[ids[i]])
}

/// The values of a map, by ascending key.
pub fn list_values<'a, T>(m: &'a BTreeMap<u32, T>) -> (res: Vec<&'a T>)
    ensures
        res@ == values_of(ascending_of(m@.dom()), m@),
{
    let ids = map_keys(m);
    let mut res: Vec<&'a T> = Vec::new();
    let mut i: usize = 0;
    while i < ids.len()
        invariant
            i <= ids.len(),
            ids@.to_set() == m@.dom(),
            res@ == values_of(ids@.take(i as int), m@),
        decreases ids.len() - i,
    {
        assert(ids@.to_set().contains(ids@[i as int]));
        res.push(m.get(&ids[i]).unwrap());
        i = i + 1;
        assert(res@ =~= values_of(ids@.take(i as int), m@));
    }
    assert(ids@.take(i as int) =~= ids@);
    res
}

/// The objects of a map that are there, by ascending key.
pub open spec fn shown_of<'a, T: Shown>(ids: Seq<u32>, m: Map<u32, T>) -> Seq<&'a T>
    decreases ids.len(),
{
    if ids.len() == 0 {
        Seq::empty()
    } else if m[ids.last()].shown() {
        shown_of(ids.drop_last(), m).push(&m[ids.last()])
    } else {
        shown_of(ids.drop_last(), m)
    }
}

/// The objects of a map that are there, by ascending key.
pub fn list_shown<'a, T: Shown>(m: &'a BTreeMap<u32, T>) -> (res: Vec<&'a T>)
    ensures
        res@ == shown_of(ascending_of(m@.dom()), m@),
{
    let ids = map_keys(m);
    let mut res: Vec<&'a T> = Vec::new();
    let mut i: usize = 0;
    assert(ids@.take(0) =~= Seq::<u32>::empty());
    while i < ids.len()
        invariant
            i <= ids.len(),
            ids@.to_set() == m@.dom(),
            res@ == shown_of(ids@.take(i as int), m@),
        decreases ids.len() - i,
    {
        assert(ids@.to_set().contains(ids@[i as int]));
        assert(ids@.take(i + 1).drop_last() =~= ids@.take(i as int));
        assert(ids@.take(i + 1).last() == ids@[i as int]);
        let x = m.get(&ids[i]).unwrap();
        if x.is_shown() {
            res.push(x);
        }
        i = i + 1;
    }
    assert(ids@.take(i as int) =~= ids@);
    res
}

/// Some object of the map has the name.
pub open spec fn some_named<T: Named>(m: Map<u32, T>, key: RelationName) -> bool {
    exists|id: u32| #[trigger] m.contains_key(id) && m[id].key() == key
}

/// Whether some object of the map has the name.
pub fn any_named<T: Named>(m: &BTreeMap<u32, T>, key: &RelationKey) -> (res: bool)
    ensures
        res == some_named(m@, key@),
{
    let ids = map_keys(m);
    let mut i: usize = 0;
    while i < ids.len()
        invariant
            i <= ids.len(),
            ids@.to_set() == m@.dom(),
            forall|j: int| 0 <= j < i ==> m@[#[trigger] ids@[j]].key() != key@,
        decreases ids.len() - i,
    {
        assert(ids@.to_set().contains(ids@[i as int]));
        if m.get(&ids[i]).unwrap().has_key(key) {
            assert(m@.contains_key(ids@[i as int]));
            return true;
        }
        i = i + 1;
    }
    assert forall|id: u32| #[trigger] m@.contains_key(id) implies m@[id].key() != key@ by {
        assert(ids@.to_set().contains(id));
        let j = choose|j: int| 0 <= j < ids@.len() && ids@[j] == id;
        assert(m@[ids@[j]].key() != key@);
    }
    false
}

/// Some object of the map is in the schema.
pub open spec fn some_in_schema<T: Named>(m: Map<u32, T>, schema_id: u32) -> bool {
    exists|id: u32| #[trigger] m.contains_key(id) && m[id].key().schema_id == schema_id
}

/// Whether some object of the map is in the schema.
pub fn any_in_schema<T: Named>(m: &BTreeMap<u32, T>, schema_id: u32) -> (res: bool)
    ensures
        res == some_in_schema(m@, schema_id),
{
    let ids = map_keys(m);
    let mut i: usize = 0;
    while i < ids.len()
        invariant
            i <= ids.len(),
            ids@.to_set() == m@.dom(),
            forall|j: int| 0 <= j < i ==> m@[#[trigger] ids@[j]].key().schema_id != schema_id,
        decreases ids.len() - i,
    {
        assert(ids@.to_set().contains(ids@[i as int]));
        if m.get(&ids[i]).unwrap().in_schema(schema_id) {
            assert(m@.contains_key(ids@[i as int]));
            return true;
        }
        i = i + 1;
    }
    assert forall|id: u32| #[trigger] m@.contains_key(id) implies m@[id].key().schema_id
        != schema_id by {
        assert(ids@.to_set().contains(id));
        let j = choose|j: int| 0 <= j < ids@.len() && ids@[j] == id;
        assert(m@[ids@[j]].key().schema_id != schema_id);
    }
    false
}

/// The ids of the objects in the schema, by ascending key.
pub open spec fn ids_in_schema<T: Named + Identified>(
    ids: Seq<u32>,
    m: Map<u32, T>,
    schema_id: u32,
) -> Seq<u32>
    decreases ids.len(),
{
    if ids.len() == 0 {
        Seq::empty()
    } else if m[ids.last()].key().schema_id == schema_id {
        ids_in_schema(ids.drop_last(), m, schema_id).push(m[ids.last()].ident())
    } else {
        ids_in_schema(ids.drop_last(), m, schema_id)
    }
}

/// The ids of the objects in the schema, by ascending key.
pub fn list_ids_in_schema<T: Named + Identified>(m: &BTreeMap<u32, T>, schema_id: u32) -> (res: Vec<
    u32,
>)
    ensures
        res@ == ids_in_schema(ascending_of(m@.dom()), m@, schema_id),
{
    let ids = map_keys(m);
    let mut res: Vec<u32> = Vec::new();
    let mut i: usize = 0;
    assert(ids@.take(0) =~= Seq::<u32>::empty());
    while i < ids.len()
        invariant
            i <= ids.len(),
            ids@.to_set() == m@.dom(),
            res@ == ids_in_schema(ids@.take(i as int), m@, schema_id),
        decreases ids.len() - i,
    {
        assert(ids@.to_set().contains(ids@[i as int]));
        assert(ids@.take(i + 1).drop_last() =~= ids@.take(i as int));
        assert(ids@.take(i + 1).last() == ids@[i as int]);
        let x = m.get(&ids[i]).unwrap();
        if x.in_schema(schema_id) {
            res.push(x.get_id());
        }
        i = i + 1;
    }
    assert(ids@.take(i as int) =~= ids@);
    res
}

/// The objects by id; of two with the same id, the later one.
pub open spec fn by_id<T: Identified>(list: Seq<T>) -> Map<u32, T>
    decreases list.len(),
{
    if list.len() == 0 {
        Map::empty()
    } else {
        by_id(list.drop_last()).insert(list.last().ident(), list.last())
    }
}

/// Collects objects by id.
pub fn collect_by_id<T: Identified>(list: Vec<T>) -> (res: BTreeMap<u32, T>)
    ensures
        res@ == by_id(list@),
{
    let ghost all = list@;
    let mut res: BTreeMap<u32, T> = BTreeMap::new();
    assert(all.take(0) =~= Seq::<T>::empty());
    for x in it: list
        invariant
            it.seq() == all,
            res@ == by_id(all.take(it.index() as int)),
    {
        let ghost i: int = it.index() as int;
        assert(all.take(i + 1).drop_last() =~= all.take(i));
        assert(all.take(i + 1).last() == x);
        let id: u32 = x.get_id();
        res.insert(id, x);
    }
    assert(all.take(all.len() as int) =~= all);
    res
}

} // verus!
