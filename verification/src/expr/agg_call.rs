//! Calls of aggregate functions: as they are sent, and as they are written.
use crate::batch::row::{ColumnOrder, NullsAre};
use crate::expr::agg_kind::{kind_of, AggKind, PbType};
use crate::manager::objects::DataType;
use vstd::prelude::*;

verus! {

/// The arguments of an aggregate function.
#[derive(Debug)]
pub struct AggArgs {
    pub data_types: Vec<DataType>,
    pub val_indices: Vec<usize>,
}

impl AggArgs {
    /// The types of the arguments.
    pub fn arg_types(&self) -> (res: &Vec<DataType>)
        ensures
            *res == self.data_types,
    {
        &self.data_types
    }

    /// The columns of the arguments.
    pub fn val_indices(&self) -> (res: &Vec<usize>)
        ensures
            *res == self.val_indices,
    {
        &self.val_indices
    }

    /// The arguments with the given types and columns.
    pub fn from_pairs(pairs: Vec<(DataType, usize)>) -> (res: AggArgs)
        ensures
            res.data_types@ == Seq::new(pairs@.len(), |i: int| pairs@[i].0),
            res.val_indices@ == Seq::new(pairs@.len(), |i: int| pairs@[i].1),
    {
        let ghost all = pairs@;
        let mut data_types: Vec<DataType> = Vec::new();
        let mut val_indices: Vec<usize> = Vec::new();
        for pair in it: pairs
            invariant
                it.seq() == all,
                data_types@ == Seq::new(it.index() as nat, |i: int| all[i].0),
                val_indices@ == Seq::new(it.index() as nat, |i: int| all[i].1),
        {
            let ghost i: int = it.index() as int;
            val_indices.push(pair.1);
            data_types.push(pair.0);
            assert(data_types@ =~= Seq::new((i + 1) as nat, |i: int| all[i].0));
            assert(val_indices@ =~= Seq::new((i + 1) as nat, |i: int| all[i].1));
        }
        AggArgs { data_types, val_indices }
    }

    /// The arguments that were sent.
    pub fn from_protobuf(args: Vec<InputRef>) -> (res: AggArgs)
        ensures
            res.val_indices@ == indices_of(args@),
            res.data_types@ == types_of(args@),
    {
        let ghost all = args@;
        let mut data_types: Vec<DataType> = Vec::new();
        let mut val_indices: Vec<usize> = Vec::new();
        for arg in it: args
            invariant
                it.seq() == all,
                val_indices@ == indices_of(all.take(it.index() as int)),
                data_types@ == types_of(all.take(it.index() as int)),
        {
            let ghost i: int = it.index() as int;
            val_indices.push(arg.index as usize);
            data_types.push(arg.data_type);
            assert(val_indices@ =~= indices_of(all.take(i + 1)));
            assert(data_types@ =~= types_of(all.take(i + 1)));
        }
        assert(all.take(all.len() as int) =~= all);
        AggArgs { data_types, val_indices }
    }
}

/// An argument as it is sent.
#[derive(Debug)]
pub struct InputRef {
    pub index: u32,
    pub data_type: DataType,
}

/// The columns of arguments.
pub open spec fn indices_of(args: Seq<InputRef>) -> Seq<usize> {
    Seq::new(args.len(), |i: int| args[i].index as usize)
}

/// The types of arguments.
pub open spec fn types_of(args: Seq<InputRef>) -> Seq<DataType> {
    Seq::new(args.len(), |i: int| args[i].data_type)
}

/// An ordered column as it is sent.
#[derive(Clone, Copy, Debug, PartialEq, Eq, Structural)]
pub struct PbColumnOrder {
    pub column_index: u32,
    pub is_descending: bool,
    pub nulls_are: NullsAre,
}

/// An ordered column.
pub open spec fn order_of(order: PbColumnOrder) -> ColumnOrder {
    ColumnOrder {
        column_index: order.column_index as usize,
        is_descending: order.is_descending,
        nulls_are: order.nulls_are,
    }
}

/// Ordered columns.
pub open spec fn orders_of(orders: Seq<PbColumnOrder>) -> Seq<ColumnOrder> {
    Seq::new(orders.len(), |i: int| order_of(orders[i]))
}

/// A constant, in its encoded form.
#[derive(Debug)]
pub struct Literal {
    pub data_type: DataType,
    pub encoded: Vec<u8>,
}

/// A call as it is sent. A filter is given by the number under which it is known.
#[derive(Debug)]
pub struct PbAggCall {
    /// What is to be called; none if it is not one of the functions that there are.
    pub agg_type: Option<PbType>,
    pub args: Vec<InputRef>,
    pub return_type: Option<DataType>,
    pub distinct: bool,
    pub order_by: Vec<PbColumnOrder>,
    pub filter: Option<u64>,
    pub direct_args: Vec<Literal>,
    pub udf: Option<u64>,
}

/// A call of an aggregate function.
#[derive(Debug)]
pub struct AggCall {
    pub kind: AggKind,
    pub args: AggArgs,
    pub return_type: DataType,
    pub column_orders: Vec<ColumnOrder>,
    pub filter: Option<u64>,
    pub distinct: bool,
    pub direct_args: Vec<Literal>,
    pub user_defined: Option<u64>,
}

/// Why a call that was sent cannot be used.
#[derive(Clone, Copy, Debug, PartialEq, Eq, Structural)]
pub enum AggCallError {
    /// The function is not said, or not one of those that there are.
    UnknownType,
    /// The function is left open.
    UnrecognizedAgg,
    /// The filter cannot be built.
    BadFilter,
    /// The type of the result is not said.
    NoReturnType,
}

impl AggCall {
    /// The call that was sent. Whether its filter could be built is said by `filter_ok`.
    pub fn from_protobuf(agg_call: PbAggCall, filter_ok: bool) -> (res: Result<AggCall, AggCallError>)
        ensures
            match agg_call.agg_type {
                None => res matches Err(e) && e == AggCallError::UnknownType,
                Some(t) => match kind_of(t) {
                    None => res matches Err(e) && e == AggCallError::UnrecognizedAgg,
                    Some(kind) => if agg_call.filter is Some && !filter_ok {
                        res matches Err(e) && e == AggCallError::BadFilter
                    } else if agg_call.return_type is None {
                        res matches Err(e) && e == AggCallError::NoReturnType
                    } else {
                        res matches Ok(call) && call.kind == kind && call.args.val_indices@
                            == indices_of(agg_call.args@) && call.args.data_types@ == types_of(
                            agg_call.args@,
                        ) && Some(call.return_type) == agg_call.return_type
                            && call.column_orders@ == orders_of(agg_call.order_by@) && call.filter
                            == agg_call.filter && call.distinct == agg_call.distinct
                            && call.direct_args == agg_call.direct_args && call.user_defined
                            == agg_call.udf
                    },
                },
            },
    {
        let agg_type = match agg_call.agg_type {
            Some(t) => t,
            None => {
                return Err(AggCallError::UnknownType);
            },
        };
        let kind = match AggKind::from_protobuf(agg_type) {
            Ok(kind) => kind,
            Err(_) => {
                return Err(AggCallError::UnrecognizedAgg);
            },
        };
        let args = AggArgs::from_protobuf(agg_call.args);
        let mut column_orders: Vec<ColumnOrder> = Vec::new();
        let mut i: usize = 0;
        let ghost all = agg_call.order_by@;
        while i < agg_call.order_by.len()
            invariant
                i <= agg_call.order_by.len(),
                all == agg_call.order_by@,
                column_orders@ == orders_of(all.take(i as int)),
            decreases agg_call.order_by.len() - i,
        {
            let order = agg_call.order_by[i];
            column_orders.push(
                ColumnOrder {
                    column_index: order.column_index as usize,
                    is_descending: order.is_descending,
                    nulls_are: order.nulls_are,
                },
            );
            i = i + 1;
            assert(column_orders@ =~= orders_of(all.take(i as int)));
        }
        assert(all.take(i as int) =~= all);
        if agg_call.filter.is_some() && !filter_ok {
            return Err(AggCallError::BadFilter);
        }
        let return_type = match agg_call.return_type {
            Some(t) => t,
            None => {
                return Err(AggCallError::NoReturnType);
            },
        };
        Ok(
            AggCall {
                kind,
                args,
                return_type,
                column_orders,
                filter: agg_call.filter,
                distinct: agg_call.distinct,
                direct_args: agg_call.direct_args,
                user_defined: agg_call.udf,
            },
        )
    }

    /// The call that was written, with its function and its types looked up by their names.
    pub fn from_pretty(
        call: WrittenCall,
        function: PbType,
        return_type: DataType,
        arg_types: Vec<DataType>,
    ) -> (res: AggCall)
        requires
            kind_of(function) is Some,
            arg_types@.len() == call.args@.len(),
        ensures
            Some(res.kind) == kind_of(function),
            res.return_type == return_type,
            res.args.data_types == arg_types,
            res.args.val_indices@ == Seq::new(call.args@.len(), |i: int| call.args@[i].0),
            res.column_orders == call.column_orders,
            res.distinct == call.distinct,
            res.filter is None,
            res.direct_args@.len() == 0,
            res.user_defined is None,
    {
        let kind = AggKind::from_protobuf(function).unwrap();
        let mut val_indices: Vec<usize> = Vec::new();
        let mut i: usize = 0;
        while i < call.args.len()
            invariant
                i <= call.args.len(),
                val_indices@ == Seq::new(i as nat, |j: int| call.args@[j].0),
            decreases call.args.len() - i,
        {
            val_indices.push(call.args[i].0);
            i = i + 1;
            assert(val_indices@ =~= Seq::new(i as nat, |j: int| call.args@[j].0));
        }
        AggCall {
            kind,
            args: AggArgs { data_types: arg_types, val_indices },
            return_type,
            column_orders: call.column_orders,
            filter: None,
            distinct: call.distinct,
            direct_args: Vec::new(),
            user_defined: None,
        }
    }

    /// The call with a filter.
    pub fn with_filter(self, filter: u64) -> (res: AggCall)
        ensures
            res.filter == Some(filter),
            res.kind == self.kind,
            res.args == self.args,
            res.return_type == self.return_type,
            res.column_orders == self.column_orders,
            res.distinct == self.distinct,
            res.direct_args == self.direct_args,
            res.user_defined == self.user_defined,
    {
        AggCall {
            kind: self.kind,
            args: self.args,
            return_type: self.return_type,
            column_orders: self.column_orders,
            filter: Some(filter),
            distinct: self.distinct,
            direct_args: self.direct_args,
            user_defined: self.user_defined,
        }
    }
}

/// A part of a written call.
#[derive(Debug)]
pub enum Token {
    LParen,
    RParen,
    Colon,
    Index(usize),
    Literal(String),
}

/// A written call: the names of its function and types, and the places of its arguments.
#[derive(Debug)]
pub struct WrittenCall {
    pub function: String,
    pub return_type: String,
    pub args: Vec<(usize, String)>,
    pub distinct: bool,
    pub column_orders: Vec<ColumnOrder>,
}

/// An argument as plain values.
pub struct WrittenArg {
    pub index: usize,
    pub type_text: Seq<char>,
}

/// The arguments as plain values.
pub open spec fn written_args(args: Seq<(usize, String)>) -> Seq<WrittenArg> {
    Seq::new(args.len(), |i: int| WrittenArg { index: args[i].0, type_text: args[i].1@ })
}

/// The place holds a word.
pub open spec fn is_word(tokens: Seq<Token>, pos: int, word: Seq<char>) -> bool {
    0 <= pos < tokens.len() && (tokens[pos] matches Token::Literal(s) && s@ == word)
}

/// The place holds an argument or an ordered column: a number, a colon and a word.
pub open spec fn is_entry(tokens: Seq<Token>, pos: int) -> bool {
    &&& 0 <= pos && pos + 2 < tokens.len()
    &&& tokens[pos] is Index
    &&& tokens[pos + 1] is Colon
    &&& tokens[pos + 2] is Literal
}

/// The arguments from the given place on, and the place after them. None where what starts like an argument
/// is none.
pub open spec fn read_args(tokens: Seq<Token>, pos: int) -> Option<(Seq<WrittenArg>, int)>
    decreases tokens.len() - pos,
{
    if pos < 0 || pos >= tokens.len() || !(tokens[pos] is Index) {
        Some((Seq::empty(), pos))
    } else if !is_entry(tokens, pos) {
        None
    } else {
        match read_args(tokens, pos + 3) {
            None => None,
            Some((rest, end)) => Some(
                (
                    seq![
                        WrittenArg {
                            index: tokens[pos]->Index_0,
                            type_text: tokens[pos + 2]->Literal_0@,
                        },
                    ] + rest,
                    end,
                ),
            ),
        }
    }
}

/// The column that is ordered.
pub open spec fn read_order(index: usize, descending: bool) -> ColumnOrder {
    ColumnOrder {
        column_index: index,
        is_descending: descending,
        nulls_are: NullsAre::Largest,
    }
}

/// The ordered columns from the given place on. None where what starts like one is none.
pub open spec fn read_orders(tokens: Seq<Token>, pos: int) -> Option<Seq<ColumnOrder>>
    decreases tokens.len() - pos,
{
    if pos < 0 || pos >= tokens.len() || !(tokens[pos] is Index) {
        Some(Seq::empty())
    } else if !is_entry(tokens, pos) || !(is_word(tokens, pos + 2, "asc"@) || is_word(
        tokens,
        pos + 2,
        "desc"@,
    )) {
        None
    } else {
        match read_orders(tokens, pos + 3) {
            None => None,
            Some(rest) => Some(
                seq![
                    read_order(tokens[pos]->Index_0, !is_word(tokens, pos + 2, "asc"@)),
                ] + rest,
            ),
        }
    }
}

/// The call that the tokens write, as plain values.
pub struct Written {
    pub function: Seq<char>,
    pub return_type: Seq<char>,
    pub args: Seq<WrittenArg>,
    pub distinct: bool,
    pub column_orders: Seq<ColumnOrder>,
}

/// The call that the tokens write: `( name : type`, then arguments, then `distinct` or not, then ordered
/// columns after `orderby` or not. What follows is not looked at.
pub open spec fn read_call(tokens: Seq<Token>) -> Option<Written> {
    if !(tokens.len() >= 4 && tokens[0] is LParen && tokens[1] is Literal && tokens[2] is Colon
        && tokens[3] is Literal) {
        None
    } else {
        match read_args(tokens, 4) {
            None => None,
            Some((args, end)) => {
                let distinct = is_word(tokens, end, "distinct"@);
                let next = if distinct {
                    end + 1
                } else {
                    end
                };
                let orders = if is_word(tokens, next, "orderby"@) {
                    read_orders(tokens, next + 1)
                } else {
                    Some(Seq::empty())
                };
                match orders {
                    None => None,
                    Some(column_orders) => Some(
                        Written {
                            function: tokens[1]->Literal_0@,
                            return_type: tokens[3]->Literal_0@,
                            args,
                            distinct,
                            column_orders,
                        },
                    ),
                }
            },
        }
    }
}

impl View for WrittenCall {
    type V = Written;

    open spec fn view(&self) -> Written {
        Written {
            function: self.function@,
            return_type: self.return_type@,
            args: written_args(self.args@),
            distinct: self.distinct,
            column_orders: self.column_orders@,
        }
    }
}

/// Whether the place holds the word.
fn check_word(tokens: &Vec<Token>, pos: usize, word: &str) -> (res: bool)
    ensures
        res == is_word(tokens@, pos as int, word@),
{
    if pos >= tokens.len() {
        return false;
    }
    match &tokens[pos] {
        Token::Literal(s) => *s == word.to_owned(),
        _ => false,
    }
}

/// The number and the word of an entry at the given place.
fn read_entry(tokens: &Vec<Token>, pos: usize) -> (res: Option<(usize, String)>)
    requires
        pos < tokens@.len(),
    ensures
        match res {
            Some((index, word)) => is_entry(tokens@, pos as int) && index
                == tokens@[pos as int]->Index_0 && word@ == tokens@[pos + 2]->Literal_0@,
            None => !is_entry(tokens@, pos as int),
        },
{
    if tokens.len() - pos < 3 {
        return None;
    }
    match (&tokens[pos], &tokens[pos + 1], &tokens[pos + 2]) {
        (Token::Index(index), Token::Colon, Token::Literal(word)) => Some((*index, word.clone())),
        _ => None,
    }
}

/// Reads the tokens of a written call. None if they write none.
pub fn parse_aggregation(tokens: &Vec<Token>) -> (res: Option<WrittenCall>)
    ensures
        match res {
            Some(call) => read_call(tokens@) == Some(call@),
            None => read_call(tokens@) is None,
        },
{
    if tokens.len() < 4 {
        return None;
    }
    let (function, return_type) = match (&tokens[0], &tokens[1], &tokens[2], &tokens[3]) {
        (Token::LParen, Token::Literal(f), Token::Colon, Token::Literal(t)) => (
            f.clone(),
            t.clone(),
        ),
        _ => {
            return None;
        },
    };
    let ghost ts = tokens@;
    let mut args: Vec<(usize, String)> = Vec::new();
    let mut pos: usize = 4;
    assert(written_args(args@) =~= Seq::<WrittenArg>::empty());
    while pos < tokens.len() && is_index(&tokens[pos])
        invariant
            4 <= pos <= tokens.len(),
            ts == tokens@,
            ts[0] is LParen && ts[1] is Literal && ts[2] is Colon && ts[3] is Literal,
            read_args(ts, 4) == (match read_args(ts, pos as int) {
                None => None,
                Some((rest, end)) => Some((written_args(args@) + rest, end)),
            }),
        decreases tokens.len() - pos,
    {
        match read_entry(tokens, pos) {
            Some((index, word)) => {
                let ghost before = written_args(args@);
                let ghost arg = WrittenArg { index, type_text: word@ };
                args.push((index, word));
                proof {
                    assert(written_args(args@) =~= before.push(arg));
                    match read_args(ts, pos + 3) {
                        None => {},
                        Some((rest, end)) => {
                            assert(before + (seq![arg] + rest) =~= before.push(arg) + rest);
                        },
                    }
                }
                pos = pos + 3;
            },
            None => {
                return None;
            },
        }
    }
    proof {
        assert(written_args(args@) + Seq::<WrittenArg>::empty() =~= written_args(args@));
        assert(read_args(ts, 4) == Some((written_args(args@), pos as int)));
    }
    let distinct: bool = check_word(tokens, pos, "distinct");
    let mut next: usize = if distinct {
        pos + 1
    } else {
        pos
    };
    let mut column_orders: Vec<ColumnOrder> = Vec::new();
    if check_word(tokens, next, "orderby") {
        next = next + 1;
        let ghost start = next as int;
        assert(read_orders(ts, start) == (match read_orders(ts, next as int) {
            None => None,
            Some(rest) => Some(column_orders@ + rest),
        })) by {
            if let Some(rest) = read_orders(ts, start) {
                assert(column_orders@ + rest =~= rest);
            }
        }
        while next < tokens.len() && is_index(&tokens[next])
            invariant
                next <= tokens.len(),
                ts == tokens@,
                ts.len() >= 4,
                ts[0] is LParen && ts[1] is Literal && ts[2] is Colon && ts[3] is Literal,
                read_args(ts, 4) == Some((written_args(args@), pos as int)),
                distinct == is_word(ts, pos as int, "distinct"@),
                is_word(ts, start - 1, "orderby"@),
                start - 1 == (if distinct {
                    pos + 1
                } else {
                    pos as int
                }),
                read_orders(ts, start) == (match read_orders(ts, next as int) {
                    None => None,
                    Some(rest) => Some(column_orders@ + rest),
                }),
            decreases tokens.len() - next,
        {
            match read_entry(tokens, next) {
                Some((index, _)) => {
                    let ascending: bool = check_word(tokens, next + 2, "asc");
                    if !ascending && !check_word(tokens, next + 2, "desc") {
                        return None;
                    }
                    let order = ColumnOrder {
                        column_index: index,
                        is_descending: !ascending,
                        nulls_are: NullsAre::Largest,
                    };
                    let ghost before = column_orders@;
                    column_orders.push(order);
                    proof {
                        if let Some(rest) = read_orders(ts, next + 3) {
                            assert(before + (seq![order] + rest) =~= before.push(order) + rest);
                        }
                    }
                    next = next + 3;
                },
                None => {
                    return None;
                },
            }
        }
        assert(column_orders@ + Seq::<ColumnOrder>::empty() =~= column_orders@);
    } else {
        assert(column_orders@ =~= Seq::<ColumnOrder>::empty());
    }
    Some(WrittenCall { function, return_type, args, distinct, column_orders })
}

/// Whether the token is a number.
fn is_index(token: &Token) -> (res: bool)
    ensures
        res == (*token is Index),
{
    match token {
        Token::Index(_) => true,
        _ => false,
    }
}

} // verus!
