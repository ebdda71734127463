//! The kinds of aggregate functions.
use vstd::prelude::*;

verus! {

/// A kind of aggregate function.
#[derive(Clone, Copy, Debug, PartialEq, Eq, Hash, Structural)]
pub enum AggKind {
    BitAnd,
    BitOr,
    BitXor,
    BoolAnd,
    BoolOr,
    Min,
    Max,
    Sum,
    Sum0,
    Count,
    Avg,
    StringAgg,
    ApproxCountDistinct,
    ArrayAgg,
    JsonbAgg,
    JsonbObjectAgg,
    FirstValue,
    LastValue,
    VarPop,
    VarSamp,
    StddevPop,
    StddevSamp,
    PercentileCont,
    PercentileDisc,
    Mode,
    Grouping,
    /// The value that was seen last.
    InternalLastSeenValue,
    UserDefined,
}

/// A kind of aggregate function as it is sent to other nodes.
#[derive(Clone, Copy, Debug, PartialEq, Eq, Structural)]
pub enum PbType {
    Unspecified,
    BitAnd,
    BitOr,
    BitXor,
    BoolAnd,
    BoolOr,
    Min,
    Max,
    Sum,
    Sum0,
    Count,
    Avg,
    StringAgg,
    ApproxCountDistinct,
    ArrayAgg,
    JsonbAgg,
    JsonbObjectAgg,
    FirstValue,
    LastValue,
    VarPop,
    VarSamp,
    StddevPop,
    StddevSamp,
    PercentileCont,
    PercentileDisc,
    Mode,
    Grouping,
    InternalLastSeenValue,
    UserDefined,
}

/// The aggregate function is not known.
#[derive(Clone, Copy, Debug, PartialEq, Eq, Structural)]
pub struct UnrecognizedAgg {}

/// The kind that was sent, if it is one.
pub open spec fn kind_of(pb_type: PbType) -> Option<AggKind> {
    match pb_type {
        PbType::Unspecified => None,
        PbType::BitAnd => Some(AggKind::BitAnd),
        PbType::BitOr => Some(AggKind::BitOr),
        PbType::BitXor => Some(AggKind::BitXor),
        PbType::BoolAnd => Some(AggKind::BoolAnd),
        PbType::BoolOr => Some(AggKind::BoolOr),
        PbType::Min => Some(AggKind::Min),
        PbType::Max => Some(AggKind::Max),
        PbType::Sum => Some(AggKind::Sum),
        PbType::Sum0 => Some(AggKind::Sum0),
        PbType::Count => Some(AggKind::Count),
        PbType::Avg => Some(AggKind::Avg),
        PbType::StringAgg => Some(AggKind::StringAgg),
        PbType::ApproxCountDistinct => Some(AggKind::ApproxCountDistinct),
        PbType::ArrayAgg => Some(AggKind::ArrayAgg),
        PbType::JsonbAgg => Some(AggKind::JsonbAgg),
        PbType::JsonbObjectAgg => Some(AggKind::JsonbObjectAgg),
        PbType::FirstValue => Some(AggKind::FirstValue),
        PbType::LastValue => Some(AggKind::LastValue),
        PbType::VarPop => Some(AggKind::VarPop),
        PbType::VarSamp => Some(AggKind::VarSamp),
        PbType::StddevPop => Some(AggKind::StddevPop),
        PbType::StddevSamp => Some(AggKind::StddevSamp),
        PbType::PercentileCont => Some(AggKind::PercentileCont),
        PbType::PercentileDisc => Some(AggKind::PercentileDisc),
        PbType::Mode => Some(AggKind::Mode),
        PbType::Grouping => Some(AggKind::Grouping),
        PbType::InternalLastSeenValue => Some(AggKind::InternalLastSeenValue),
        PbType::UserDefined => Some(AggKind::UserDefined),
    }
}

/// The kind as it is sent.
pub open spec fn sent_as(kind: AggKind) -> PbType {
    match kind {
        AggKind::BitAnd => PbType::BitAnd,
        AggKind::BitOr => PbType::BitOr,
        AggKind::BitXor => PbType::BitXor,
        AggKind::BoolAnd => PbType::BoolAnd,
        AggKind::BoolOr => PbType::BoolOr,
        AggKind::Min => PbType::Min,
        AggKind::Max => PbType::Max,
        AggKind::Sum => PbType::Sum,
        AggKind::Sum0 => PbType::Sum0,
        AggKind::Count => PbType::Count,
        AggKind::Avg => PbType::Avg,
        AggKind::StringAgg => PbType::StringAgg,
        AggKind::ApproxCountDistinct => PbType::ApproxCountDistinct,
        AggKind::ArrayAgg => PbType::ArrayAgg,
        AggKind::JsonbAgg => PbType::JsonbAgg,
        AggKind::JsonbObjectAgg => PbType::JsonbObjectAgg,
        AggKind::FirstValue => PbType::FirstValue,
        AggKind::LastValue => PbType::LastValue,
        AggKind::VarPop => PbType::VarPop,
        AggKind::VarSamp => PbType::VarSamp,
        AggKind::StddevPop => PbType::StddevPop,
        AggKind::StddevSamp => PbType::StddevSamp,
        AggKind::PercentileCont => PbType::PercentileCont,
        AggKind::PercentileDisc => PbType::PercentileDisc,
        AggKind::Mode => PbType::Mode,
        AggKind::Grouping => PbType::Grouping,
        AggKind::InternalLastSeenValue => PbType::InternalLastSeenValue,
        AggKind::UserDefined => PbType::UserDefined,
    }
}

/// A kind that is sent is the kind that is received, and every kind that is received was sent as what it is.
pub proof fn lemma_kind_round_trip(kind: AggKind, pb_type: PbType)
    ensures
        kind_of(sent_as(kind)) == Some(kind),
        kind_of(pb_type) matches Some(k) ==> sent_as(k) == pb_type,
{
}

/// The name of a kind.
pub open spec fn name_of(kind: AggKind) -> Seq<char> {
    match kind {
        AggKind::BitAnd => "bit_and"@,
        AggKind::BitOr => "bit_or"@,
        AggKind::BitXor => "bit_xor"@,
        AggKind::BoolAnd => "bool_and"@,
        AggKind::BoolOr => "bool_or"@,
        AggKind::Min => "min"@,
        AggKind::Max => "max"@,
        AggKind::Sum => "sum"@,
        AggKind::Sum0 => "sum0"@,
        AggKind::Count => "count"@,
        AggKind::Avg => "avg"@,
        AggKind::StringAgg => "string_agg"@,
        AggKind::ApproxCountDistinct => "approx_count_distinct"@,
        AggKind::ArrayAgg => "array_agg"@,
        AggKind::JsonbAgg => "jsonb_agg"@,
        AggKind::JsonbObjectAgg => "jsonb_object_agg"@,
        AggKind::FirstValue => "first_value"@,
        AggKind::LastValue => "last_value"@,
        AggKind::VarPop => "var_pop"@,
        AggKind::VarSamp => "var_samp"@,
        AggKind::StddevPop => "stddev_pop"@,
        AggKind::StddevSamp => "stddev_samp"@,
        AggKind::PercentileCont => "percentile_cont"@,
        AggKind::PercentileDisc => "percentile_disc"@,
        AggKind::Mode => "mode"@,
        AggKind::Grouping => "grouping"@,
        AggKind::InternalLastSeenValue => "internal_last_seen_value"@,
        AggKind::UserDefined => "user_defined"@,
    }
}

/// No kind has the name.
pub open spec fn is_no_name(name: Seq<char>) -> bool {
    forall|kind: AggKind| #[trigger] name_of(kind) != name
}

/// All kinds.
pub open spec fn all_kinds() -> Seq<AggKind> {
    seq![
        AggKind::BitAnd,
        AggKind::BitOr,
        AggKind::BitXor,
        AggKind::BoolAnd,
        AggKind::BoolOr,
        AggKind::Min,
        AggKind::Max,
        AggKind::Sum,
        AggKind::Sum0,
        AggKind::Count,
        AggKind::Avg,
        AggKind::StringAgg,
        AggKind::ApproxCountDistinct,
        AggKind::ArrayAgg,
        AggKind::JsonbAgg,
        AggKind::JsonbObjectAgg,
        AggKind::FirstValue,
        AggKind::LastValue,
        AggKind::VarPop,
        AggKind::VarSamp,
        AggKind::StddevPop,
        AggKind::StddevSamp,
        AggKind::PercentileCont,
        AggKind::PercentileDisc,
        AggKind::Mode,
        AggKind::Grouping,
        AggKind::InternalLastSeenValue,
        AggKind::UserDefined,
    ]
}

/// Every kind is among all kinds.
proof fn lemma_all_kinds(kind: AggKind)
    ensures
        exists|i: int| 0 <= i < all_kinds().len() && #[trigger] all_kinds()[i] == kind,
{
    let s = all_kinds();
    assert(s[0] == AggKind::BitAnd);
    assert(s[1] == AggKind::BitOr);
    assert(s[2] == AggKind::BitXor);
    assert(s[3] == AggKind::BoolAnd);
    assert(s[4] == AggKind::BoolOr);
    assert(s[5] == AggKind::Min);
    assert(s[6] == AggKind::Max);
    assert(s[7] == AggKind::Sum);
    assert(s[8] == AggKind::Sum0);
    assert(s[9] == AggKind::Count);
    assert(s[10] == AggKind::Avg);
    assert(s[11] == AggKind::StringAgg);
    assert(s[12] == AggKind::ApproxCountDistinct);
    assert(s[13] == AggKind::ArrayAgg);
    assert(s[14] == AggKind::JsonbAgg);
    assert(s[15] == AggKind::JsonbObjectAgg);
    assert(s[16] == AggKind::FirstValue);
    assert(s[17] == AggKind::LastValue);
    assert(s[18] == AggKind::VarPop);
    assert(s[19] == AggKind::VarSamp);
    assert(s[20] == AggKind::StddevPop);
    assert(s[21] == AggKind::StddevSamp);
    assert(s[22] == AggKind::PercentileCont);
    assert(s[23] == AggKind::PercentileDisc);
    assert(s[24] == AggKind::Mode);
    assert(s[25] == AggKind::Grouping);
    assert(s[26] == AggKind::InternalLastSeenValue);
    assert(s[27] == AggKind::UserDefined);
}

/// No two kinds have the same name.
pub proof fn lemma_names_differ(a: AggKind, b: AggKind)
    ensures
        name_of(a) == name_of(b) ==> a == b,
{
    reveal_strlit("bit_and");
    reveal_strlit("bit_or");
    reveal_strlit("bit_xor");
    reveal_strlit("bool_and");
    reveal_strlit("bool_or");
    reveal_strlit("min");
    reveal_strlit("max");
    reveal_strlit("sum");
    reveal_strlit("sum0");
    reveal_strlit("count");
    reveal_strlit("avg");
    reveal_strlit("string_agg");
    reveal_strlit("approx_count_distinct");
    reveal_strlit("array_agg");
    reveal_strlit("jsonb_agg");
    reveal_strlit("jsonb_object_agg");
    reveal_strlit("first_value");
    reveal_strlit("last_value");
    reveal_strlit("var_pop");
    reveal_strlit("var_samp");
    reveal_strlit("stddev_pop");
    reveal_strlit("stddev_samp");
    reveal_strlit("percentile_cont");
    reveal_strlit("percentile_disc");
    reveal_strlit("mode");
    reveal_strlit("grouping");
    reveal_strlit("internal_last_seen_value");
    reveal_strlit("user_defined");
    let x = name_of(a);
    let y = name_of(b);
    if x == y {
        assert(x.len() == y.len());
        assert(1 < x.len() ==> x[1] == y[1]);
        assert(4 < x.len() ==> x[4] == y[4]);
        assert(11 < x.len() ==> x[11] == y[11]);
    }
}

/// Aggregates that streaming jobs do not have.
pub open spec fn is_unimplemented_in_stream(kind: AggKind) -> bool {
    match kind {
        AggKind::PercentileCont | AggKind::PercentileDisc | AggKind::Mode => true,
        _ => false,
    }
}

/// Aggregates that are rewritten to others before a plan is made.
pub open spec fn is_rewritten(kind: AggKind) -> bool {
    match kind {
        AggKind::Avg | AggKind::StddevPop | AggKind::StddevSamp | AggKind::VarPop | AggKind::VarSamp | AggKind::Grouping => true,
        _ => false,
    }
}

/// Aggregates whose result does not depend on the order of their input.
pub open spec fn is_result_unaffected_by_order_by(kind: AggKind) -> bool {
    match kind {
        AggKind::BitAnd | AggKind::BitOr | AggKind::BitXor | AggKind::BoolAnd | AggKind::BoolOr | AggKind::Min | AggKind::Max | AggKind::Sum | AggKind::Sum0 | AggKind::Count | AggKind::Avg | AggKind::ApproxCountDistinct | AggKind::VarPop | AggKind::VarSamp | AggKind::StddevPop | AggKind::StddevSamp => true,
        _ => false,
    }
}

/// Aggregates that need the order of their input to be said.
pub open spec fn is_must_have_order_by(kind: AggKind) -> bool {
    match kind {
        AggKind::FirstValue | AggKind::LastValue | AggKind::PercentileCont | AggKind::PercentileDisc | AggKind::Mode => true,
        _ => false,
    }
}

/// Aggregates whose result is the same without duplicates.
pub open spec fn is_result_unaffected_by_distinct(kind: AggKind) -> bool {
    match kind {
        AggKind::BitAnd | AggKind::BitOr | AggKind::BoolAnd | AggKind::BoolOr | AggKind::Min | AggKind::Max | AggKind::ApproxCountDistinct => true,
        _ => false,
    }
}

/// Aggregates that cannot be computed in two phases.
pub open spec fn is_simply_cannot_two_phase(kind: AggKind) -> bool {
    match kind {
        AggKind::StringAgg | AggKind::ApproxCountDistinct | AggKind::ArrayAgg | AggKind::JsonbAgg | AggKind::JsonbObjectAgg | AggKind::FirstValue | AggKind::LastValue | AggKind::PercentileCont | AggKind::PercentileDisc | AggKind::Mode | AggKind::BoolAnd | AggKind::BoolOr | AggKind::BitAnd | AggKind::BitOr | AggKind::UserDefined => true,
        _ => false,
    }
}

/// Aggregates whose state is one value.
pub open spec fn is_single_value_state(kind: AggKind) -> bool {
    match kind {
        AggKind::Sum | AggKind::Sum0 | AggKind::Count | AggKind::BitAnd | AggKind::BitOr | AggKind::BitXor | AggKind::BoolAnd | AggKind::BoolOr | AggKind::ApproxCountDistinct | AggKind::InternalLastSeenValue | AggKind::UserDefined => true,
        _ => false,
    }
}

/// Aggregates whose state is one value if nothing is ever removed from their input.
pub open spec fn is_single_value_state_iff_in_append_only(kind: AggKind) -> bool {
    match kind {
        AggKind::Max | AggKind::Min => true,
        _ => false,
    }
}

/// Aggregates of an ordered set.
pub open spec fn is_ordered_set(kind: AggKind) -> bool {
    match kind {
        AggKind::PercentileCont | AggKind::PercentileDisc | AggKind::Mode => true,
        _ => false,
    }
}

/// The aggregate that combines the results of the given aggregate over parts of the input into the result
/// over all of it, if there is one.
pub open spec fn total_of(kind: AggKind) -> Option<AggKind> {
    if is_simply_cannot_two_phase(kind) || is_rewritten(kind) {
        None
    } else if kind == AggKind::Count {
        Some(AggKind::Sum0)
    } else {
        Some(kind)
    }
}

impl AggKind {
    /// The kind that was sent.
    pub fn from_protobuf(pb_type: PbType) -> (res: Result<AggKind, UnrecognizedAgg>)
        ensures
            match res {
                Ok(kind) => kind_of(pb_type) == Some(kind),
                Err(_) => kind_of(pb_type) is None,
            },
    {
        match pb_type {
            PbType::Unspecified => Err(UnrecognizedAgg {  }),
            PbType::BitAnd => Ok(AggKind::BitAnd),
            PbType::BitOr => Ok(AggKind::BitOr),
            PbType::BitXor => Ok(AggKind::BitXor),
            PbType::BoolAnd => Ok(AggKind::BoolAnd),
            PbType::BoolOr => Ok(AggKind::BoolOr),
            PbType::Min => Ok(AggKind::Min),
            PbType::Max => Ok(AggKind::Max),
            PbType::Sum => Ok(AggKind::Sum),
            PbType::Sum0 => Ok(AggKind::Sum0),
            PbType::Count => Ok(AggKind::Count),
            PbType::Avg => Ok(AggKind::Avg),
            PbType::StringAgg => Ok(AggKind::StringAgg),
            PbType::ApproxCountDistinct => Ok(AggKind::ApproxCountDistinct),
            PbType::ArrayAgg => Ok(AggKind::ArrayAgg),
            PbType::JsonbAgg => Ok(AggKind::JsonbAgg),
            PbType::JsonbObjectAgg => Ok(AggKind::JsonbObjectAgg),
            PbType::FirstValue => Ok(AggKind::FirstValue),
            PbType::LastValue => Ok(AggKind::LastValue),
            PbType::VarPop => Ok(AggKind::VarPop),
            PbType::VarSamp => Ok(AggKind::VarSamp),
            PbType::StddevPop => Ok(AggKind::StddevPop),
            PbType::StddevSamp => Ok(AggKind::StddevSamp),
            PbType::PercentileCont => Ok(AggKind::PercentileCont),
            PbType::PercentileDisc => Ok(AggKind::PercentileDisc),
            PbType::Mode => Ok(AggKind::Mode),
            PbType::Grouping => Ok(AggKind::Grouping),
            PbType::InternalLastSeenValue => Ok(AggKind::InternalLastSeenValue),
            PbType::UserDefined => Ok(AggKind::UserDefined),
        }
    }

    /// The kind as it is sent.
    pub fn to_protobuf(self) -> (res: PbType)
        ensures
            res == sent_as(self),
    {
        match self {
            AggKind::BitAnd => PbType::BitAnd,
            AggKind::BitOr => PbType::BitOr,
            AggKind::BitXor => PbType::BitXor,
            AggKind::BoolAnd => PbType::BoolAnd,
            AggKind::BoolOr => PbType::BoolOr,
            AggKind::Min => PbType::Min,
            AggKind::Max => PbType::Max,
            AggKind::Sum => PbType::Sum,
            AggKind::Sum0 => PbType::Sum0,
            AggKind::Count => PbType::Count,
            AggKind::Avg => PbType::Avg,
            AggKind::StringAgg => PbType::StringAgg,
            AggKind::ApproxCountDistinct => PbType::ApproxCountDistinct,
            AggKind::ArrayAgg => PbType::ArrayAgg,
            AggKind::JsonbAgg => PbType::JsonbAgg,
            AggKind::JsonbObjectAgg => PbType::JsonbObjectAgg,
            AggKind::FirstValue => PbType::FirstValue,
            AggKind::LastValue => PbType::LastValue,
            AggKind::VarPop => PbType::VarPop,
            AggKind::VarSamp => PbType::VarSamp,
            AggKind::StddevPop => PbType::StddevPop,
            AggKind::StddevSamp => PbType::StddevSamp,
            AggKind::PercentileCont => PbType::PercentileCont,
            AggKind::PercentileDisc => PbType::PercentileDisc,
            AggKind::Mode => PbType::Mode,
            AggKind::Grouping => PbType::Grouping,
            AggKind::InternalLastSeenValue => PbType::InternalLastSeenValue,
            AggKind::UserDefined => PbType::UserDefined,
        }
    }

    /// The name of the kind.
    pub fn name(self) -> (res: &'static str)
        ensures
            res@ == name_of(self),
    {
        match self {
            AggKind::BitAnd => "bit_and",
            AggKind::BitOr => "bit_or",
            AggKind::BitXor => "bit_xor",
            AggKind::BoolAnd => "bool_and",
            AggKind::BoolOr => "bool_or",
            AggKind::Min => "min",
            AggKind::Max => "max",
            AggKind::Sum => "sum",
            AggKind::Sum0 => "sum0",
            AggKind::Count => "count",
            AggKind::Avg => "avg",
            AggKind::StringAgg => "string_agg",
            AggKind::ApproxCountDistinct => "approx_count_distinct",
            AggKind::ArrayAgg => "array_agg",
            AggKind::JsonbAgg => "jsonb_agg",
            AggKind::JsonbObjectAgg => "jsonb_object_agg",
            AggKind::FirstValue => "first_value",
            AggKind::LastValue => "last_value",
            AggKind::VarPop => "var_pop",
            AggKind::VarSamp => "var_samp",
            AggKind::StddevPop => "stddev_pop",
            AggKind::StddevSamp => "stddev_samp",
            AggKind::PercentileCont => "percentile_cont",
            AggKind::PercentileDisc => "percentile_disc",
            AggKind::Mode => "mode",
            AggKind::Grouping => "grouping",
            AggKind::InternalLastSeenValue => "internal_last_seen_value",
            AggKind::UserDefined => "user_defined",
        }
    }

    /// The kind with the given name, if there is one.
    pub fn from_name(name: &str) -> (res: Option<AggKind>)
        ensures
            match res {
                Some(kind) => name_of(kind) == name@,
                None => is_no_name(name@),
            },
    {
        let wanted = name.to_owned();
        let kinds: Vec<AggKind> = vec![
            AggKind::BitAnd,
            AggKind::BitOr,
            AggKind::BitXor,
            AggKind::BoolAnd,
            AggKind::BoolOr,
            AggKind::Min,
            AggKind::Max,
            AggKind::Sum,
            AggKind::Sum0,
            AggKind::Count,
            AggKind::Avg,
            AggKind::StringAgg,
            AggKind::ApproxCountDistinct,
            AggKind::ArrayAgg,
            AggKind::JsonbAgg,
            AggKind::JsonbObjectAgg,
            AggKind::FirstValue,
            AggKind::LastValue,
            AggKind::VarPop,
            AggKind::VarSamp,
            AggKind::StddevPop,
            AggKind::StddevSamp,
            AggKind::PercentileCont,
            AggKind::PercentileDisc,
            AggKind::Mode,
            AggKind::Grouping,
            AggKind::InternalLastSeenValue,
            AggKind::UserDefined,
        ];
        assert(kinds@ =~= all_kinds());
        let mut i: usize = 0;
        while i < kinds.len()
            invariant
                i <= kinds.len(),
                kinds@ == all_kinds(),
                wanted@ == name@,
                forall|j: int| 0 <= j < i ==> name_of(#[trigger] all_kinds()[j]) != name@,
            decreases kinds.len() - i,
        {
            let kind = kinds[i];
            if kind.name().to_owned() == wanted {
                return Some(kind);
            }
            i = i + 1;
        }
        assert forall|kind: AggKind| #[trigger] name_of(kind) != name@ by {
            lemma_all_kinds(kind);
        }
        None
    }

    /// The aggregate that combines partial results of this one.
    pub fn partial_to_total(self) -> (res: Option<AggKind>)
        ensures
            res == total_of(self),
    {
        match self {
            AggKind::BitXor
            | AggKind::Min
            | AggKind::Max
            | AggKind::Sum
            | AggKind::InternalLastSeenValue => Some(self),
            AggKind::Sum0 | AggKind::Count => Some(AggKind::Sum0),
            _ => None,
        }
    }

    /// Aggregates that streaming jobs do not have.
    pub fn unimplemented_in_stream(self) -> (res: bool)
        ensures
            res == is_unimplemented_in_stream(self),
    {
        match self {
            AggKind::PercentileCont | AggKind::PercentileDisc | AggKind::Mode => true,
            _ => false,
        }
    }

    /// Aggregates that are rewritten to others before a plan is made.
    pub fn rewritten(self) -> (res: bool)
        ensures
            res == is_rewritten(self),
    {
        match self {
            AggKind::Avg | AggKind::StddevPop | AggKind::StddevSamp | AggKind::VarPop | AggKind::VarSamp | AggKind::Grouping => true,
            _ => false,
        }
    }

    /// Aggregates whose result does not depend on the order of their input.
    pub fn result_unaffected_by_order_by(self) -> (res: bool)
        ensures
            res == is_result_unaffected_by_order_by(self),
    {
        match self {
            AggKind::BitAnd | AggKind::BitOr | AggKind::BitXor | AggKind::BoolAnd | AggKind::BoolOr | AggKind::Min | AggKind::Max | AggKind::Sum | AggKind::Sum0 | AggKind::Count | AggKind::Avg | AggKind::ApproxCountDistinct | AggKind::VarPop | AggKind::VarSamp | AggKind::StddevPop | AggKind::StddevSamp => true,
            _ => false,
        }
    }

    /// Aggregates that need the order of their input to be said.
    pub fn must_have_order_by(self) -> (res: bool)
        ensures
            res == is_must_have_order_by(self),
    {
        match self {
            AggKind::FirstValue | AggKind::LastValue | AggKind::PercentileCont | AggKind::PercentileDisc | AggKind::Mode => true,
            _ => false,
        }
    }

    /// Aggregates whose result is the same without duplicates.
    pub fn result_unaffected_by_distinct(self) -> (res: bool)
        ensures
            res == is_result_unaffected_by_distinct(self),
    {
        match self {
            AggKind::BitAnd | AggKind::BitOr | AggKind::BoolAnd | AggKind::BoolOr | AggKind::Min | AggKind::Max | AggKind::ApproxCountDistinct => true,
            _ => false,
        }
    }

    /// Aggregates that cannot be computed in two phases.
    pub fn simply_cannot_two_phase(self) -> (res: bool)
        ensures
            res == is_simply_cannot_two_phase(self),
    {
        match self {
            AggKind::StringAgg | AggKind::ApproxCountDistinct | AggKind::ArrayAgg | AggKind::JsonbAgg | AggKind::JsonbObjectAgg | AggKind::FirstValue | AggKind::LastValue | AggKind::PercentileCont | AggKind::PercentileDisc | AggKind::Mode | AggKind::BoolAnd | AggKind::BoolOr | AggKind::BitAnd | AggKind::BitOr | AggKind::UserDefined => true,
            _ => false,
        }
    }

    /// Aggregates whose state is one value.
    pub fn single_value_state(self) -> (res: bool)
        ensures
            res == is_single_value_state(self),
    {
        match self {
            AggKind::Sum | AggKind::Sum0 | AggKind::Count | AggKind::BitAnd | AggKind::BitOr | AggKind::BitXor | AggKind::BoolAnd | AggKind::BoolOr | AggKind::ApproxCountDistinct | AggKind::InternalLastSeenValue | AggKind::UserDefined => true,
            _ => false,
        }
    }

    /// Aggregates whose state is one value if nothing is ever removed from their input.
    pub fn single_value_state_iff_in_append_only(self) -> (res: bool)
        ensures
            res == is_single_value_state_iff_in_append_only(self),
    {
        match self {
            AggKind::Max | AggKind::Min => true,
            _ => false,
        }
    }

    /// Aggregates of an ordered set.
    pub fn ordered_set(self) -> (res: bool)
        ensures
            res == is_ordered_set(self),
    {
        match self {
            AggKind::PercentileCont | AggKind::PercentileDisc | AggKind::Mode => true,
            _ => false,
        }
    }
}

/// Combining combined results changes nothing: the aggregate that combines is combined by itself.
pub proof fn lemma_total_is_total(kind: AggKind)
    ensures
        total_of(kind) matches Some(total) ==> total_of(total) == Some(total),
{
}

/// Aggregates that are not combined are exactly those that cannot be and those that are rewritten.
pub proof fn lemma_not_combined(kind: AggKind)
    ensures
        total_of(kind) is None <==> is_simply_cannot_two_phase(kind) || is_rewritten(kind),
{
}

/// Aggregates of an ordered set need the order to be said, and streaming jobs do not have them.
pub proof fn lemma_ordered_set(kind: AggKind)
    ensures
        is_ordered_set(kind) ==> is_must_have_order_by(kind) && is_unimplemented_in_stream(kind)
            && !is_result_unaffected_by_order_by(kind),
{
}

} // verus!
