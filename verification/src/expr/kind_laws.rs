//! Kinds of aggregate functions keep their names on the way to other nodes and back, and are combined as they can be.
use crate::expr::agg_kind::{
    lemma_kind_round_trip, lemma_names_differ, AggKind, PbType, UnrecognizedAgg,
};
use vstd::prelude::*;

verus! {

/// A kind that is sent is received as the same kind, and only what is not specified is not recognized.
pub proof fn lemma_sent_and_received(
    kind: AggKind,
    pb: PbType,
    back: Result<AggKind, UnrecognizedAgg>,
    other: PbType,
    received: Result<AggKind, UnrecognizedAgg>,
)
    requires
        call_ensures(AggKind::to_protobuf, (kind,), pb),
        call_ensures(AggKind::from_protobuf, (pb,), back),
        call_ensures(AggKind::from_protobuf, (other,), received),
    ensures
        back matches Ok(k) && k == kind,
        received is Err <==> other == PbType::Unspecified,
{
    lemma_kind_round_trip(kind, other);
}

/// The kind of a name is the one that has it.
pub proof fn lemma_named_and_found(kind: AggKind, name: &'static str, found: Option<AggKind>)
    requires
        call_ensures(AggKind::name, (kind,), name),
        call_ensures(AggKind::from_name, (name,), found),
    ensures
        found == Some(kind),
{
    match found {
        Some(k) => {
            lemma_names_differ(k, kind);
        },
        None => {},
    }
}

/// The results of counting over parts are combined by adding them up, from zero. Every other kind that has a kind
/// which combines its results combines them itself. There is none for what is rewritten nor for what cannot be
/// computed in two phases, and for all else there is one.
pub proof fn lemma_combined(
    kind: AggKind,
    total: Option<AggKind>,
    rewritten: bool,
    cannot: bool,
    in_order: bool,
)
    requires
        call_ensures(AggKind::partial_to_total, (kind,), total),
        call_ensures(AggKind::rewritten, (kind,), rewritten),
        call_ensures(AggKind::simply_cannot_two_phase, (kind,), cannot),
        call_ensures(AggKind::result_unaffected_by_order_by, (kind,), in_order),
    ensures
        kind == AggKind::Count ==> total == Some(AggKind::Sum0),
        total matches Some(t) ==> t == kind || kind == AggKind::Count,
        total is None <==> rewritten || cannot,
        !(rewritten && cannot),
        kind == AggKind::Min || kind == AggKind::Max || kind == AggKind::Sum || kind
            == AggKind::Sum0 || kind == AggKind::BitXor || kind == AggKind::InternalLastSeenValue
            ==> total == Some(kind),
        rewritten <==> kind == AggKind::Avg || kind == AggKind::StddevPop || kind
            == AggKind::StddevSamp || kind == AggKind::VarPop || kind == AggKind::VarSamp || kind
            == AggKind::Grouping,
        total is Some && kind != AggKind::InternalLastSeenValue ==> in_order,
{
}

/// A kind that needs an order is one whose result depends on it. Every kind of an ordered set needs one, and no
/// streaming job has it.
pub proof fn lemma_order_needed(
    kind: AggKind,
    must: bool,
    unaffected: bool,
    ordered_set: bool,
    no_stream: bool,
)
    requires
        call_ensures(AggKind::must_have_order_by, (kind,), must),
        call_ensures(AggKind::result_unaffected_by_order_by, (kind,), unaffected),
        call_ensures(AggKind::ordered_set, (kind,), ordered_set),
        call_ensures(AggKind::unimplemented_in_stream, (kind,), no_stream),
    ensures
        must ==> !unaffected,
        ordered_set ==> must,
        ordered_set <==> no_stream,
        must && !ordered_set <==> kind == AggKind::FirstValue || kind == AggKind::LastValue,
        ordered_set <==> kind == AggKind::PercentileCont || kind == AggKind::PercentileDisc || kind
            == AggKind::Mode,
        kind == AggKind::StringAgg || kind == AggKind::ArrayAgg || kind == AggKind::JsonbAgg || kind
            == AggKind::JsonbObjectAgg ==> !unaffected && !must,
        kind == AggKind::Sum || kind == AggKind::Count || kind == AggKind::Avg || kind == AggKind::Min
            || kind == AggKind::Max || kind == AggKind::Sum0 ==> unaffected,
{
}

/// Counting a value twice changes sums, counts and averages, and does not change the least, the greatest, nor what
/// holds of some or of all values.
pub proof fn lemma_duplicates(kind: AggKind, unaffected: bool)
    requires
        call_ensures(AggKind::result_unaffected_by_distinct, (kind,), unaffected),
    ensures
        unaffected <==> kind == AggKind::Min || kind == AggKind::Max || kind == AggKind::BitAnd || kind
            == AggKind::BitOr || kind == AggKind::BoolAnd || kind == AggKind::BoolOr || kind
            == AggKind::ApproxCountDistinct,
{
}

/// The least and the greatest value are kept as one value only where nothing is taken back, and no other kind is.
pub proof fn lemma_kept_as_one_value(kind: AggKind, always: bool, append_only: bool)
    requires
        call_ensures(AggKind::single_value_state, (kind,), always),
        call_ensures(AggKind::single_value_state_iff_in_append_only, (kind,), append_only),
    ensures
        append_only <==> kind == AggKind::Min || kind == AggKind::Max,
        !(always && append_only),
        always <==> kind == AggKind::Sum || kind == AggKind::Sum0 || kind == AggKind::Count || kind
            == AggKind::BitAnd || kind == AggKind::BitOr || kind == AggKind::BitXor || kind
            == AggKind::BoolAnd || kind == AggKind::BoolOr || kind == AggKind::ApproxCountDistinct
            || kind == AggKind::InternalLastSeenValue || kind == AggKind::UserDefined,
{
}

} // verus!
