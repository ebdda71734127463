//! Altering a source whose columns come from a registry.
use crate::frontend::types::SqlType;
use vstd::prelude::*;

verus! {

/// The format of a source as it is stored.
#[derive(Clone, Copy, Debug, PartialEq, Eq, Structural)]
pub enum FormatType {
    Unspecified,
    Native,
    Debezium,
    DebeziumMongo,
    Maxwell,
    Canal,
    Upsert,
    Plain,
    Absent,
}

/// The format of a source as it is written.
#[derive(Clone, Copy, Debug, PartialEq, Eq, Structural)]
pub enum Format {
    Native,
    Debezium,
    DebeziumMongo,
    Maxwell,
    Canal,
    Upsert,
    Plain,
    Absent,
}

/// The encoding of a source as it is stored.
#[derive(Clone, Copy, Debug, PartialEq, Eq, Structural)]
pub enum EncodeType {
    Unspecified,
    Native,
    Avro,
    Csv,
    Protobuf,
    Json,
    Bytes,
    Template,
    Absent,
    Text,
}

/// The encoding of a source as it is written.
#[derive(Clone, Copy, Debug, PartialEq, Eq, Structural)]
pub enum Encode {
    Native,
    Avro,
    Csv,
    Protobuf,
    Json,
    Bytes,
    Template,
    Absent,
    Text,
}

/// The format as it is written.
pub open spec fn written_format(from: FormatType) -> Option<Format> {
    match from {
        FormatType::Unspecified => None,
        FormatType::Native => Some(Format::Native),
        FormatType::Debezium => Some(Format::Debezium),
        FormatType::DebeziumMongo => Some(Format::DebeziumMongo),
        FormatType::Maxwell => Some(Format::Maxwell),
        FormatType::Canal => Some(Format::Canal),
        FormatType::Upsert => Some(Format::Upsert),
        FormatType::Plain => Some(Format::Plain),
        FormatType::Absent => Some(Format::Absent),
    }
}

/// The format as it is written.
pub fn format_type_to_format(from: FormatType) -> (res: Option<Format>)
    ensures
        res == written_format(from),
{
    match from {
        FormatType::Unspecified => None,
        FormatType::Native => Some(Format::Native),
        FormatType::Debezium => Some(Format::Debezium),
        FormatType::DebeziumMongo => Some(Format::DebeziumMongo),
        FormatType::Maxwell => Some(Format::Maxwell),
        FormatType::Canal => Some(Format::Canal),
        FormatType::Upsert => Some(Format::Upsert),
        FormatType::Plain => Some(Format::Plain),
        FormatType::Absent => Some(Format::Absent),
    }
}

/// The encoding as it is written.
pub open spec fn written_encode(from: EncodeType) -> Option<Encode> {
    match from {
        EncodeType::Unspecified => None,
        EncodeType::Native => Some(Encode::Native),
        EncodeType::Avro => Some(Encode::Avro),
        EncodeType::Csv => Some(Encode::Csv),
        EncodeType::Protobuf => Some(Encode::Protobuf),
        EncodeType::Json => Some(Encode::Json),
        EncodeType::Bytes => Some(Encode::Bytes),
        EncodeType::Template => Some(Encode::Template),
        EncodeType::Absent => Some(Encode::Absent),
        EncodeType::Text => Some(Encode::Text),
    }
}

/// The encoding as it is written.
pub fn encode_type_to_encode(from: EncodeType) -> (res: Option<Encode>)
    ensures
        res == written_encode(from),
{
    match from {
        EncodeType::Unspecified => None,
        EncodeType::Native => Some(Encode::Native),
        EncodeType::Avro => Some(Encode::Avro),
        EncodeType::Csv => Some(Encode::Csv),
        EncodeType::Protobuf => Some(Encode::Protobuf),
        EncodeType::Json => Some(Encode::Json),
        EncodeType::Bytes => Some(Encode::Bytes),
        EncodeType::Template => Some(Encode::Template),
        EncodeType::Absent => Some(Encode::Absent),
        EncodeType::Text => Some(Encode::Text),
    }
}

/// A column of a source.
#[derive(Debug)]
pub struct ColumnCatalog {
    pub name: String,
    pub data_type: SqlType,
    pub is_hidden: bool,
}

/// A column as plain values.
pub struct Column {
    pub name: Seq<char>,
    pub data_type: SqlType,
    pub is_hidden: bool,
}

impl View for ColumnCatalog {
    type V = Column;

    open spec fn view(&self) -> Column {
        Column { name: self.name@, data_type: self.data_type, is_hidden: self.is_hidden }
    }
}

impl Clone for ColumnCatalog {
    fn clone(&self) -> (res: ColumnCatalog)
        ensures
            res@ == self@,
    {
        ColumnCatalog {
            name: self.name.clone(),
            data_type: self.data_type,
            is_hidden: self.is_hidden,
        }
    }
}

/// The columns as plain values.
pub open spec fn columns_of(columns: Seq<ColumnCatalog>) -> Seq<Column> {
    Seq::new(columns.len(), |i: int| columns[i]@)
}

/// The columns have the same name and type.
pub open spec fn alike(a: Column, b: Column) -> bool {
    a.name == b.name && a.data_type == b.data_type
}

/// A column like the given one is among the columns.
pub open spec fn has_alike(columns: Seq<Column>, column: Column) -> bool {
    exists|i: int| 0 <= i < columns.len() && alike(column, #[trigger] columns[i])
}

/// The column is not hidden and has none like it among the given ones.
pub open spec fn left_over(b: Seq<Column>) -> spec_fn(Column) -> bool {
    |c: Column| !c.is_hidden && !has_alike(b, c)
}

/// The columns of the first list that are not hidden and have none like them in the second.
pub open spec fn minus(a: Seq<Column>, b: Seq<Column>) -> Seq<Column> {
    a.filter(left_over(b))
}

/// Whether a column like the given one is among the columns.
fn contains_alike(columns: &Vec<ColumnCatalog>, column: &ColumnCatalog) -> (res: bool)
    ensures
        res == has_alike(columns_of(columns@), column@),
{
    let ghost all = columns_of(columns@);
    let mut i: usize = 0;
    while i < columns.len()
        invariant
            i <= columns.len(),
            all == columns_of(columns@),
            forall|j: int| 0 <= j < i ==> !alike(column@, #[trigger] all[j]),
        decreases columns.len() - i,
    {
        if column.name == columns[i].name && column.data_type == columns[i].data_type {
            assert(alike(column@, all[i as int]));
            return true;
        }
        i = i + 1;
    }
    false
}

/// The columns of the first list that are not hidden and have none like them in the second, in order.
pub fn columns_minus(columns_a: &Vec<ColumnCatalog>, columns_b: &Vec<ColumnCatalog>) -> (res: Vec<
    ColumnCatalog,
>)
    ensures
        columns_of(res@) == minus(columns_of(columns_a@), columns_of(columns_b@)),
{
    broadcast use vstd::seq_lib::group_filter_ensures;

    let ghost a = columns_of(columns_a@);
    let ghost b = columns_of(columns_b@);
    let mut res: Vec<ColumnCatalog> = Vec::new();
    let mut i: usize = 0;
    assert(columns_of(res@) =~= minus(a.take(0), b)) by {
        reveal(Seq::filter);
    }
    while i < columns_a.len()
        invariant
            i <= columns_a.len(),
            a == columns_of(columns_a@),
            b == columns_of(columns_b@),
            columns_of(res@) == minus(a.take(i as int), b),
        decreases columns_a.len() - i,
    {
        let column = &columns_a[i];
        let ghost before = res@;
        proof {
            assert(a.take(i + 1).drop_last() =~= a.take(i as int));
            assert(a.take(i + 1).last() == column@);
            reveal(Seq::filter);
        }
        if !column.is_hidden && !contains_alike(columns_b, column) {
            res.push(column.clone());
            assert(columns_of(res@) =~= columns_of(before).push(column@));
        }
        i = i + 1;
    }
    assert(a.take(i as int) =~= a);
    res
}

/// An option of a format.
#[derive(Debug)]
pub struct SqlOption {
    pub name: String,
    pub value: String,
}

/// The values by the names of the options. Of two options of one name the later counts.
pub open spec fn options_of(options: Seq<SqlOption>) -> Map<Seq<char>, Seq<char>>
    decreases options.len(),
{
    if options.len() == 0 {
        Map::empty()
    } else {
        options_of(options.drop_last()).insert(options.last().name@, options.last().value@)
    }
}

/// Adds copies of the options. An option that is there already gets the new value.
pub fn extend_options(options: &mut Vec<SqlOption>, added: &Vec<SqlOption>)
    ensures
        options_of(final(options)@) == options_of(old(options)@).union_prefer_right(
            options_of(added@),
        ),
{
    let mut i: usize = 0;
    assert(options_of(added@.take(0)) =~= Map::<Seq<char>, Seq<char>>::empty());
    assert(options_of(options@) =~= options_of(options@).union_prefer_right(
        options_of(added@.take(0)),
    ));
    while i < added.len()
        invariant
            i <= added.len(),
            options_of(options@) == options_of(old(options)@).union_prefer_right(
                options_of(added@.take(i as int)),
            ),
        decreases added.len() - i,
    {
        let ghost before = options@;
        options.push(SqlOption { name: added[i].name.clone(), value: added[i].value.clone() });
        i = i + 1;
        proof {
            assert(options@.drop_last() =~= before);
            assert(added@.take(i as int).drop_last() =~= added@.take(i - 1));
            assert(options_of(options@) =~= options_of(old(options)@).union_prefer_right(
                options_of(added@.take(i as int)),
            ));
        }
    }
    assert(added@.take(i as int) =~= added@);
}

/// How the rows of a source are encoded.
#[derive(Debug)]
pub struct StreamSourceInfo {
    pub format: FormatType,
    pub row_encode: EncodeType,
    pub format_encode_options: Vec<SqlOption>,
}

/// A source as it is stored.
#[derive(Debug)]
pub struct SourceCatalog {
    pub info: StreamSourceInfo,
    pub columns: Vec<ColumnCatalog>,
    pub definition: Definition,
    pub associated_table_id: Option<u32>,
    pub version: u64,
}

/// The format that a statement gives a source.
#[derive(Clone, Copy, Debug, PartialEq, Eq, Structural)]
pub struct ConnectorSchema {
    pub format: Format,
    pub row_encode: Encode,
}

/// Why a source cannot be altered.
#[derive(Debug)]
pub enum AlterSourceError {
    /// The source belongs to a table.
    AssociatedTable,
    /// The source was made without a format and an encoding.
    LegacySource,
    /// The format or the encoding is another.
    FormatChanged { format: Format, row_encode: Encode },
    /// The columns do not come from a registry.
    NoSchemaRegistry,
    /// The source follows the changes of a database.
    CdcSource,
    /// Columns are gone.
    DroppedColumns(Vec<ColumnCatalog>),
}

/// The format and the encoding of the source, if it was made with both.
pub open spec fn stored_schema(source: SourceCatalog) -> Option<ConnectorSchema> {
    match (written_format(source.info.format), written_encode(source.info.row_encode)) {
        (Some(format), Some(row_encode)) => Some(ConnectorSchema { format, row_encode }),
        _ => None,
    }
}

/// Checks that the source was made with a format and an encoding, and that a statement does not change them.
pub fn check_format_encode(original_source: &SourceCatalog, new_connector_schema: &ConnectorSchema) -> (res:
    Result<(), AlterSourceError>)
    ensures
        match stored_schema(*original_source) {
            None => res matches Err(AlterSourceError::LegacySource),
            Some(stored) => if stored == *new_connector_schema {
                res is Ok
            } else {
                res matches Err(AlterSourceError::FormatChanged { format, row_encode }) && stored
                    == (ConnectorSchema { format, row_encode })
            },
        },
{
    let (old_format, old_row_encode) = match (
        format_type_to_format(original_source.info.format),
        encode_type_to_encode(original_source.info.row_encode),
    ) {
        (Some(format), Some(row_encode)) => (format, row_encode),
        _ => {
            return Err(AlterSourceError::LegacySource);
        },
    };
    if new_connector_schema.format != old_format || new_connector_schema.row_encode
        != old_row_encode {
        return Err(
            AlterSourceError::FormatChanged { format: old_format, row_encode: old_row_encode },
        );
    }
    Ok(())
}

/// What is added and what is gone once the columns are read again.
#[derive(Debug)]
pub struct ColumnsDiff {
    pub added: Vec<ColumnCatalog>,
    pub dropped: Vec<ColumnCatalog>,
}

/// What is added and what is gone once the columns are read again from the registry.
pub fn columns_diff(original: &Vec<ColumnCatalog>, resolved: &Vec<ColumnCatalog>) -> (res: ColumnsDiff)
    ensures
        columns_of(res.added@) == minus(columns_of(resolved@), columns_of(original@)),
        columns_of(res.dropped@) == minus(columns_of(original@), columns_of(resolved@)),
{
    ColumnsDiff {
        added: columns_minus(resolved, original),
        dropped: columns_minus(original, resolved),
    }
}

/// Checks what can be checked before the registry is asked: the source has no table, its format is not
/// changed, its columns come from a registry, and it does not follow the changes of a database.
pub fn check_alter_source(
    source: &SourceCatalog,
    connector_schema: &ConnectorSchema,
    has_schema_registry: bool,
    is_cdc_connector: bool,
) -> (res: Result<(), AlterSourceError>)
    ensures
        if source.associated_table_id is Some {
            res matches Err(AlterSourceError::AssociatedTable)
        } else {
            match stored_schema(*source) {
                None => res matches Err(AlterSourceError::LegacySource),
                Some(stored) => if stored != *connector_schema {
                    res matches Err(AlterSourceError::FormatChanged { format, row_encode })
                        && stored == (ConnectorSchema { format, row_encode })
                } else if !has_schema_registry {
                    res matches Err(AlterSourceError::NoSchemaRegistry)
                } else if is_cdc_connector {
                    res matches Err(AlterSourceError::CdcSource)
                } else {
                    res is Ok
                },
            }
        },
{
    if source.associated_table_id.is_some() {
        return Err(AlterSourceError::AssociatedTable);
    }
    match check_format_encode(source, connector_schema) {
        Ok(_) => {},
        Err(e) => {
            return Err(e);
        },
    }
    if !has_schema_registry {
        return Err(AlterSourceError::NoSchemaRegistry);
    }
    if is_cdc_connector {
        return Err(AlterSourceError::CdcSource);
    }
    Ok(())
}

/// Gives the source the columns that the registry has more, the info that came with them, the options of the
/// statement and a new version: the definition has these options only, the info has them beside its own. It is
/// an error if columns are gone; the source then stays as it is.
pub fn apply_alter_source(
    source: &mut SourceCatalog,
    source_info: StreamSourceInfo,
    resolved: &Vec<ColumnCatalog>,
    row_options: Vec<SqlOption>,
) -> (res: Result<(), AlterSourceError>)
    requires
        has_options(old(source).definition),
        old(source).version < u64::MAX,
    ensures
        ({
            let columns = columns_of(old(source).columns@);
            let now = columns_of(resolved@);
            match res {
                Ok(_) => {
                    &&& minus(columns, now).len() == 0
                    &&& columns_of(final(source).columns@) == columns + minus(now, columns)
                    &&& final(source).info.format == source_info.format
                    &&& final(source).info.row_encode == source_info.row_encode
                    &&& options_of(final(source).info.format_encode_options@) == options_of(
                        source_info.format_encode_options@,
                    ).union_prefer_right(options_of(row_options@))
                    &&& final(source).definition == with_options(
                        old(source).definition,
                        row_options,
                    )
                    &&& final(source).version == old(source).version + 1
                    &&& final(source).associated_table_id == old(source).associated_table_id
                },
                Err(AlterSourceError::DroppedColumns(dropped)) => minus(columns, now).len() > 0
                    && columns_of(dropped@) == minus(columns, now) && *final(source) == *old(source),
                Err(_) => false,
            }
        }),
{
    let diff = columns_diff(&source.columns, resolved);
    assert(columns_of(diff.dropped@).len() == diff.dropped@.len());
    if diff.dropped.len() > 0 {
        return Err(AlterSourceError::DroppedColumns(diff.dropped));
    }
    let ghost before = source.columns@;
    let ghost added_columns = diff.added@;
    let mut info = source_info;
    extend_options(&mut info.format_encode_options, &row_options);
    source.info = info;
    let mut added = diff.added;
    source.columns.append(&mut added);
    assert(columns_of(source.columns@) =~= columns_of(before) + columns_of(added_columns));
    let mut definition = Definition::Other;
    std::mem::swap(&mut definition, &mut source.definition);
    source.definition = alter_definition_format_encode(definition, row_options);
    source.version = source.version + 1;
    Ok(())
}

/// How a definition says what a source holds.
#[derive(Debug)]
pub enum CompatibleSourceSchema {
    /// By a format and an encoding with options.
    V2 { schema: ConnectorSchema, row_options: Vec<SqlOption> },
    /// In an older way.
    RowFormat,
}

/// A definition.
#[derive(Debug)]
pub enum Definition {
    CreateSource { source_schema: CompatibleSourceSchema },
    CreateTable { table_schema: Option<CompatibleSourceSchema> },
    Other,
}

/// The definition is of a source or a table with a format and an encoding.
pub open spec fn has_options(definition: Definition) -> bool {
    match definition {
        Definition::CreateSource {
            source_schema: CompatibleSourceSchema::V2 { schema, row_options },
        } => true,
        Definition::CreateTable {
            table_schema: Some(CompatibleSourceSchema::V2 { schema, row_options }),
        } => true,
        _ => false,
    }
}

/// The definition with other options.
pub open spec fn with_options(definition: Definition, options: Vec<SqlOption>) -> Definition {
    match definition {
        Definition::CreateSource {
            source_schema: CompatibleSourceSchema::V2 { schema, row_options },
        } => Definition::CreateSource {
            source_schema: CompatibleSourceSchema::V2 { schema, row_options: options },
        },
        Definition::CreateTable {
            table_schema: Some(CompatibleSourceSchema::V2 { schema, row_options }),
        } => Definition::CreateTable {
            table_schema: Some(CompatibleSourceSchema::V2 { schema, row_options: options }),
        },
        other => other,
    }
}

/// Gives the definition other options.
pub fn alter_definition_format_encode(
    definition: Definition,
    format_encode_options: Vec<SqlOption>,
) -> (res: Definition)
    requires
        has_options(definition),
    ensures
        res == with_options(definition, format_encode_options),
{
    match definition {
        Definition::CreateSource {
            source_schema: CompatibleSourceSchema::V2 { schema, row_options: _ },
        } => Definition::CreateSource {
            source_schema: CompatibleSourceSchema::V2 {
                schema,
                row_options: format_encode_options,
            },
        },
        Definition::CreateTable {
            table_schema: Some(CompatibleSourceSchema::V2 { schema, row_options: _ }),
        } => Definition::CreateTable {
            table_schema: Some(
                CompatibleSourceSchema::V2 { schema, row_options: format_encode_options },
            ),
        },
        other => other,
    }
}

/// Every column that is left over is a visible one of the first list, and none like it is in the second.
pub proof fn lemma_minus(a: Seq<Column>, b: Seq<Column>, c: Column)
    ensures
        minus(a, b).contains(c) <==> a.contains(c) && !c.is_hidden && !has_alike(b, c),
{
    broadcast use vstd::seq_lib::group_filter_ensures;

    let keep = left_over(b);
    if minus(a, b).contains(c) {
        a.lemma_filter_contains_rev(keep, c);
        let i = choose|i: int| 0 <= i < minus(a, b).len() && minus(a, b)[i] == c;
        assert(keep(a.filter(keep)[i]));
    }
    if a.contains(c) && keep(c) {
        let i = choose|i: int| 0 <= i < a.len() && a[i] == c;
        assert(a.filter(keep).contains(a[i]));
    }
}

/// A list of columns loses nothing to itself: reading the same columns again adds none and drops none.
pub proof fn lemma_minus_same(a: Seq<Column>)
    ensures
        minus(a, a).len() == 0,
{
    if minus(a, a).len() > 0 {
        let c = minus(a, a)[0];
        assert(minus(a, a).contains(c));
        lemma_minus(a, a, c);
        let i = choose|i: int| 0 <= i < a.len() && a[i] == c;
        assert(alike(c, a[i]));
    }
}

} // verus!
