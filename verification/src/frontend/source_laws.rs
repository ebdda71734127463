//! Altering a source keeps its columns, adds those that are new, and changes neither format nor encoding.
use crate::frontend::alter_source::{
    alike, apply_alter_source, check_alter_source, columns_diff, columns_of, encode_type_to_encode,
    format_type_to_format, has_alike, has_options, lemma_minus, minus, options_of, AlterSourceError,
    Column, ColumnCatalog, ColumnsDiff, CompatibleSourceSchema, ConnectorSchema, Definition, Encode,
    EncodeType, Format, FormatType, SourceCatalog, SqlOption, StreamSourceInfo,
};
use vstd::prelude::*;

verus! {

/// The format as it is stored.
pub open spec fn stored_format(format: Format) -> FormatType {
    match format {
        Format::Native => FormatType::Native,
        Format::Debezium => FormatType::Debezium,
        Format::DebeziumMongo => FormatType::DebeziumMongo,
        Format::Maxwell => FormatType::Maxwell,
        Format::Canal => FormatType::Canal,
        Format::Upsert => FormatType::Upsert,
        Format::Plain => FormatType::Plain,
        Format::Absent => FormatType::Absent,
    }
}

/// The encoding as it is stored.
pub open spec fn stored_encode(encode: Encode) -> EncodeType {
    match encode {
        Encode::Native => EncodeType::Native,
        Encode::Avro => EncodeType::Avro,
        Encode::Csv => EncodeType::Csv,
        Encode::Protobuf => EncodeType::Protobuf,
        Encode::Json => EncodeType::Json,
        Encode::Bytes => EncodeType::Bytes,
        Encode::Template => EncodeType::Template,
        Encode::Absent => EncodeType::Absent,
        Encode::Text => EncodeType::Text,
    }
}

/// What is written for a stored format is stored as that format again, and only an unspecified one is not written.
pub proof fn lemma_format_and_back(from: FormatType, res: Option<Format>)
    requires
        call_ensures(format_type_to_format, (from,), res),
    ensures
        res is None <==> from == FormatType::Unspecified,
        res matches Some(format) ==> stored_format(format) == from,
{
}

/// What is written for a stored encoding is stored as that encoding again, and only an unspecified one is not
/// written.
pub proof fn lemma_encode_and_back(from: EncodeType, res: Option<Encode>)
    requires
        call_ensures(encode_type_to_encode, (from,), res),
    ensures
        res is None <==> from == EncodeType::Unspecified,
        res matches Some(encode) ==> stored_encode(encode) == from,
{
}

/// A source can be altered if and only if it has no table, the statement names the format and the encoding that it
/// is stored with, its columns come from a registry, and it does not follow the changes of a database. A statement
/// that names others is told those that are stored.
pub proof fn lemma_can_be_altered(
    source: &SourceCatalog,
    schema: &ConnectorSchema,
    has_schema_registry: bool,
    is_cdc_connector: bool,
    res: Result<(), AlterSourceError>,
)
    requires
        call_ensures(check_alter_source, (source, schema, has_schema_registry, is_cdc_connector), res),
    ensures
        res is Ok <==> source.associated_table_id is None && stored_format(schema.format)
            == source.info.format && stored_encode(schema.row_encode) == source.info.row_encode
            && has_schema_registry && !is_cdc_connector,
        source.associated_table_id is Some ==> (res matches Err(AlterSourceError::AssociatedTable)),
        (res matches Err(AlterSourceError::LegacySource)) <==> source.associated_table_id is None && (
        source.info.format == FormatType::Unspecified || source.info.row_encode
            == EncodeType::Unspecified),
        res matches Err(AlterSourceError::FormatChanged { format, row_encode }) ==> stored_format(
            format,
        ) == source.info.format && stored_encode(row_encode) == source.info.row_encode && (format
            != schema.format || row_encode != schema.row_encode),
        (res matches Err(AlterSourceError::NoSchemaRegistry)) ==> !has_schema_registry,
        (res matches Err(AlterSourceError::CdcSource)) ==> has_schema_registry && is_cdc_connector,
{
}

/// A column of that name and type is among the columns.
pub open spec fn known(columns: Seq<ColumnCatalog>, column: ColumnCatalog) -> bool {
    exists|i: int|
        0 <= i < columns.len() && (#[trigger] columns[i]).name@ == column.name@
            && columns[i].data_type == column.data_type
}

/// The columns say the same.
pub open spec fn same_column(a: ColumnCatalog, b: ColumnCatalog) -> bool {
    a.name@ == b.name@ && a.data_type == b.data_type && a.is_hidden == b.is_hidden
}

/// A column that says the same is among the columns.
pub open spec fn listed(columns: Seq<ColumnCatalog>, column: ColumnCatalog) -> bool {
    exists|i: int| 0 <= i < columns.len() && same_column(#[trigger] columns[i], column)
}

/// The columns are among the given ones, the first before the second.
pub open spec fn in_turn(columns: Seq<Column>, first: Column, second: Column) -> bool {
    exists|p: int, q: int|
        0 <= p < q < columns.len() && #[trigger] columns[p] == first && #[trigger] columns[q]
            == second
}

proof fn lemma_known(columns: Seq<ColumnCatalog>, column: ColumnCatalog)
    ensures
        known(columns, column) <==> has_alike(columns_of(columns), column@),
{
    let views = columns_of(columns);
    if known(columns, column) {
        let i = choose|i: int|
            0 <= i < columns.len() && (#[trigger] columns[i]).name@ == column.name@
                && columns[i].data_type == column.data_type;
        assert(alike(column@, views[i]));
    }
    if has_alike(views, column@) {
        let i = choose|i: int| 0 <= i < views.len() && alike(column@, #[trigger] views[i]);
        assert(columns[i].name@ == column.name@);
    }
}

proof fn lemma_left(a: Seq<ColumnCatalog>, b: Seq<ColumnCatalog>, left: Seq<ColumnCatalog>, c: ColumnCatalog)
    requires
        columns_of(left) == minus(columns_of(a), columns_of(b)),
    ensures
        listed(left, c) <==> listed(a, c) && !c.is_hidden && !known(b, c),
{
    lemma_minus(columns_of(a), columns_of(b), c@);
    lemma_known(b, c);
    lemma_listed_view(left, c);
    lemma_listed_view(a, c);
}

proof fn lemma_listed_view(columns: Seq<ColumnCatalog>, c: ColumnCatalog)
    ensures
        listed(columns, c) <==> columns_of(columns).contains(c@),
{
    let views = columns_of(columns);
    if listed(columns, c) {
        let i = choose|i: int| 0 <= i < columns.len() && same_column(#[trigger] columns[i], c);
        assert(views[i] == c@);
    }
    if views.contains(c@) {
        let i = choose|i: int| 0 <= i < views.len() && views[i] == c@;
        assert(same_column(columns[i], c));
    }
}

proof fn lemma_left_in_turn(a: Seq<Column>, b: Seq<Column>, i: int, j: int)
    requires
        0 <= i < j < minus(a, b).len(),
    ensures
        in_turn(a, minus(a, b)[i], minus(a, b)[j]),
    decreases a.len(),
{
    reveal(Seq::filter);
    if a.len() > 0 {
        let rest = a.drop_last();
        let left = minus(rest, b);
        if j < left.len() {
            lemma_left_in_turn(rest, b, i, j);
            let (p, q) = choose|p: int, q: int|
                0 <= p < q < rest.len() && #[trigger] rest[p] == left[i] && #[trigger] rest[q]
                    == left[j];
            assert(a[p] == left[i] && a[q] == left[j]);
        } else {
            lemma_minus(rest, b, left[i]);
            assert(left.contains(left[i]));
            let p = choose|p: int| 0 <= p < rest.len() && rest[p] == left[i];
            assert(a[p] == left[i]);
            assert(a[a.len() - 1] == minus(a, b)[j]);
        }
    }
}

/// What is added is what is read and not there yet, in the order in which it is read; what is dropped is what is
/// there and no longer read. Hidden columns are neither.
pub proof fn lemma_added_and_dropped(
    original: &Vec<ColumnCatalog>,
    resolved: &Vec<ColumnCatalog>,
    res: ColumnsDiff,
    c: ColumnCatalog,
    i: int,
    j: int,
)
    requires
        call_ensures(columns_diff, (original, resolved), res),
    ensures
        listed(res.added@, c) <==> listed(resolved@, c) && !c.is_hidden && !known(original@, c),
        listed(res.dropped@, c) <==> listed(original@, c) && !c.is_hidden && !known(resolved@, c),
        0 <= i < j < res.added@.len() ==> in_turn(
            columns_of(resolved@),
            res.added@[i]@,
            res.added@[j]@,
        ),
{
    lemma_left(resolved@, original@, res.added@, c);
    lemma_left(original@, resolved@, res.dropped@, c);
    if 0 <= i < j < res.added@.len() {
        lemma_left_in_turn(columns_of(resolved@), columns_of(original@), i, j);
        assert(columns_of(res.added@)[i] == res.added@[i]@);
        assert(columns_of(res.added@)[j] == res.added@[j]@);
    }
}

/// A source that is altered keeps all its columns in their places, and behind them stand the columns that were read
/// and that it did not have. Its version grows by one. If a visible column is no longer read, nothing changes.
pub proof fn lemma_columns_kept(
    source: &mut SourceCatalog,
    info: StreamSourceInfo,
    resolved: &Vec<ColumnCatalog>,
    row_options: Vec<SqlOption>,
    res: Result<(), AlterSourceError>,
    i: int,
    c: ColumnCatalog,
)
    requires
        call_ensures(apply_alter_source, (source, info, resolved, row_options), res),
    ensures
        ({
            let before = old(source).columns@;
            let after = final(source).columns@;
            match res {
                Ok(_) => {
                    &&& after.len() >= before.len()
                    &&& 0 <= i < before.len() ==> same_column(after[i], before[i])
                    &&& 0 <= i < before.len() && !before[i].is_hidden ==> known(resolved@, before[i])
                    &&& before.len() <= i < after.len() ==> listed(resolved@, after[i])
                        && !after[i].is_hidden && !known(before, after[i])
                    &&& listed(resolved@, c) && !c.is_hidden && !known(before, c) ==> listed(
                        after,
                        c,
                    )
                    &&& final(source).version == old(source).version + 1
                    &&& final(source).associated_table_id == old(source).associated_table_id
                    &&& final(source).info.format == info.format
                    &&& final(source).info.row_encode == info.row_encode
                },
                Err(AlterSourceError::DroppedColumns(dropped)) => {
                    &&& *final(source) == *old(source)
                    &&& dropped@.len() > 0
                    &&& listed(dropped@, c) <==> listed(before, c) && !c.is_hidden && !known(
                        resolved@,
                        c,
                    )
                },
                Err(_) => false,
            }
        }),
{
    let before = old(source).columns@;
    let after = final(source).columns@;
    let columns = columns_of(before);
    let now = columns_of(resolved@);
    match res {
        Ok(_) => {
            let added = minus(now, columns);
            assert(columns_of(after) == columns + added);
            assert(columns_of(after).len() == after.len());
            if 0 <= i < before.len() {
                assert(columns_of(after)[i] == columns[i]);
                lemma_minus(columns, now, before[i]@);
                assert(columns[i] == before[i]@);
                assert(columns.contains(before[i]@));
                lemma_known(resolved@, before[i]);
            }
            if before.len() <= i < after.len() {
                assert(columns_of(after)[i] == added[i - before.len()]);
                assert(after[i]@ == added[i - before.len()]);
                assert(added.contains(after[i]@));
                lemma_minus(now, columns, after[i]@);
                lemma_known(before, after[i]);
                lemma_listed_view(resolved@, after[i]);
            }
            if listed(resolved@, c) && !c.is_hidden && !known(before, c) {
                lemma_listed_view(resolved@, c);
                lemma_known(before, c);
                lemma_minus(now, columns, c@);
                let k = choose|k: int| 0 <= k < added.len() && added[k] == c@;
                assert(columns_of(after)[before.len() + k] == c@);
                lemma_listed_view(after, c);
            }
        },
        Err(AlterSourceError::DroppedColumns(dropped)) => {
            lemma_left(before, resolved@, dropped@, c);
            assert(columns_of(dropped@).len() == dropped@.len());
        },
        Err(_) => {},
    }
}

/// The option of that name has the value: it is that of the last one of the name.
pub open spec fn set_to(options: Seq<SqlOption>, name: Seq<char>, value: Seq<char>) -> bool {
    exists|k: int|
        0 <= k < options.len() && (#[trigger] options[k]).name@ == name && options[k].value@ == value
            && forall|l: int| k < l < options.len() ==> (#[trigger] options[l]).name@ != name
}

/// No option has that name.
pub open spec fn not_set(options: Seq<SqlOption>, name: Seq<char>) -> bool {
    forall|k: int| 0 <= k < options.len() ==> (#[trigger] options[k]).name@ != name
}

proof fn lemma_set_to(options: Seq<SqlOption>, name: Seq<char>, value: Seq<char>)
    ensures
        not_set(options, name) <==> !options_of(options).dom().contains(name),
        set_to(options, name, value) <==> options_of(options).dom().contains(name) && options_of(
            options,
        )[name] == value,
    decreases options.len(),
{
    if options.len() > 0 {
        let rest = options.drop_last();
        let n = options.len() - 1;
        lemma_set_to(rest, name, value);
        if options.last().name@ == name {
            assert(options[n].name@ == name);
            if options.last().value@ == value {
                assert(set_to(options, name, value));
            }
            if set_to(options, name, value) {
                let k = choose|k: int|
                    0 <= k < options.len() && (#[trigger] options[k]).name@ == name
                        && options[k].value@ == value && forall|l: int|
                        k < l < options.len() ==> (#[trigger] options[l]).name@ != name;
                assert(k == n);
            }
        } else {
            if not_set(rest, name) {
                assert forall|k: int| 0 <= k < options.len() implies (#[trigger] options[k]).name@
                    != name by {
                    if k < n {
                        assert(rest[k] == options[k]);
                    }
                }
            }
            if not_set(options, name) {
                assert forall|k: int| 0 <= k < rest.len() implies (#[trigger] rest[k]).name@
                    != name by {
                    assert(rest[k] == options[k]);
                }
            }
            if set_to(rest, name, value) {
                let k = choose|k: int|
                    0 <= k < rest.len() && (#[trigger] rest[k]).name@ == name && rest[k].value@
                        == value && forall|l: int|
                        k < l < rest.len() ==> (#[trigger] rest[l]).name@ != name;
                assert(options[k].name@ == name && options[k].value@ == value);
                assert forall|l: int| k < l < options.len() implies (#[trigger] options[l]).name@
                    != name by {
                    if l < n {
                        assert(rest[l] == options[l]);
                    }
                }
            }
            if set_to(options, name, value) {
                let k = choose|k: int|
                    0 <= k < options.len() && (#[trigger] options[k]).name@ == name
                        && options[k].value@ == value && forall|l: int|
                        k < l < options.len() ==> (#[trigger] options[l]).name@ != name;
                assert(k < n);
                assert(rest[k] == options[k]);
                assert forall|l: int| k < l < rest.len() implies (#[trigger] rest[l]).name@
                    != name by {
                    assert(rest[l] == options[l]);
                }
            }
        }
    }
}

/// After a source is altered an option has the value that the statement gives it, and, where the statement does not
/// name it, the value that came with the columns. The definition has the options of the statement and no others,
/// and says the same schema as before.
pub proof fn lemma_options_after(
    source: &mut SourceCatalog,
    info: StreamSourceInfo,
    resolved: &Vec<ColumnCatalog>,
    row_options: Vec<SqlOption>,
    res: Result<(), AlterSourceError>,
    name: Seq<char>,
    value: Seq<char>,
)
    requires
        has_options(old(source).definition),
        call_ensures(apply_alter_source, (source, info, resolved, row_options), res),
    ensures
        res is Ok ==> (set_to(final(source).info.format_encode_options@, name, value) <==> set_to(
            row_options@,
            name,
            value,
        ) || not_set(row_options@, name) && set_to(info.format_encode_options@, name, value)),
        res is Ok ==> match (old(source).definition, final(source).definition) {
            (
                Definition::CreateSource { source_schema: a },
                Definition::CreateSource { source_schema: b },
            ) => rewritten(a, b, row_options),
            (
                Definition::CreateTable { table_schema: Some(a) },
                Definition::CreateTable { table_schema: Some(b) },
            ) => rewritten(a, b, row_options),
            _ => false,
        },
{
    if res is Ok {
        lemma_set_to(final(source).info.format_encode_options@, name, value);
        lemma_set_to(row_options@, name, value);
        lemma_set_to(info.format_encode_options@, name, value);
    }
}

/// The second says the same schema as the first, with the given options.
pub open spec fn rewritten(
    a: CompatibleSourceSchema,
    b: CompatibleSourceSchema,
    options: Vec<SqlOption>,
) -> bool {
    match (a, b) {
        (
            CompatibleSourceSchema::V2 { schema: x, row_options: _ },
            CompatibleSourceSchema::V2 { schema: y, row_options },
        ) => x == y && row_options == options,
        _ => false,
    }
}

} // verus!
