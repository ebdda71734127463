//! Reading a call of an aggregate function gives what was written or sent, part by part.
use crate::batch::row::NullsAre;
use crate::expr::agg_call::{is_entry, is_word, orders_of, parse_aggregation, read_args, read_orders};
use crate::expr::agg_call::{written_args, AggCall, AggCallError, PbAggCall, Token, WrittenCall};
use vstd::prelude::*;

verus! {

/// The place holds the word.
pub open spec fn says(tokens: Seq<Token>, pos: int, word: Seq<char>) -> bool {
    match tokens[pos] {
        Token::Literal(s) => s@ == word,
        _ => false,
    }
}

/// The place holds a number, a colon and the word.
pub open spec fn entry_at(tokens: Seq<Token>, pos: int, index: usize, word: Seq<char>) -> bool {
    tokens[pos] == Token::Index(index) && tokens[pos + 1] is Colon && says(tokens, pos + 2, word)
}

/// The word for a direction.
pub open spec fn direction(descending: bool) -> Seq<char> {
    if descending {
        "desc"@
    } else {
        "asc"@
    }
}

/// No entry starts at the place.
pub open spec fn no_entry_at(tokens: Seq<Token>, pos: int) -> bool {
    pos >= tokens.len() || !(tokens[pos] is Index)
}

/// The columns of an order are written from the place on, one entry each.
pub open spec fn writes_orders(tokens: Seq<Token>, pos: int, orders: Seq<(usize, bool)>) -> bool {
    forall|i: int|
        0 <= i < orders.len() ==> #[trigger] entry_at(
            tokens,
            pos + 3 * i,
            orders[i].0,
            direction(orders[i].1),
        )
}

/// The tokens write a call: a parenthesis, the name and the type of the result with a colon between them, the
/// arguments with their types, the word for distinct values if they are asked for, and, after the word for an
/// order, the columns with their directions.
pub open spec fn writes_call(
    tokens: Seq<Token>,
    function: Seq<char>,
    return_type: Seq<char>,
    args: Seq<(usize, Seq<char>)>,
    distinct: bool,
    ordered: bool,
    orders: Seq<(usize, bool)>,
) -> bool {
    let end: int = (4 + 3 * args.len()) as int;
    let next: int = if distinct {
        end + 1
    } else {
        end
    };
    &&& tokens.len() >= next
    &&& tokens[0] is LParen && says(tokens, 1, function) && tokens[2] is Colon && says(
        tokens,
        3,
        return_type,
    )
    &&& forall|i: int|
        0 <= i < args.len() ==> #[trigger] entry_at(tokens, 4 + 3 * i, args[i].0, args[i].1)
    &&& no_entry_at(tokens, end)
    &&& distinct ==> says(tokens, end, "distinct"@)
    &&& !distinct && end < tokens.len() ==> !says(tokens, end, "distinct"@)
    &&& ordered ==> {
        &&& tokens.len() >= next + 1 + 3 * orders.len()
        &&& next < tokens.len()
        &&& says(tokens, next, "orderby"@)
        &&& writes_orders(tokens, next + 1, orders)
        &&& no_entry_at(tokens, next + 1 + 3 * orders.len())
    }
    &&& !ordered ==> orders.len() == 0 && (next < tokens.len() ==> !says(
        tokens,
        next,
        "orderby"@,
    ))
}

proof fn lemma_args_read(tokens: Seq<Token>, args: Seq<(usize, Seq<char>)>, pos: int)
    requires
        0 <= pos,
        pos + 3 * args.len() <= tokens.len(),
        forall|i: int|
            0 <= i < args.len() ==> #[trigger] entry_at(tokens, pos + 3 * i, args[i].0, args[i].1),
        no_entry_at(tokens, pos + 3 * args.len()),
    ensures
        read_args(tokens, pos) matches Some((read, end)) && end == pos + 3 * args.len()
            && read.len() == args.len() && forall|i: int|
            0 <= i < args.len() ==> (#[trigger] read[i]).index == args[i].0 && read[i].type_text
                == args[i].1,
    decreases args.len(),
{
    if args.len() > 0 {
        let rest = args.skip(1);
        assert(entry_at(tokens, pos + 3 * 0, args[0].0, args[0].1));
        assert forall|i: int| 0 <= i < rest.len() implies #[trigger] entry_at(
            tokens,
            pos + 3 + 3 * i,
            rest[i].0,
            rest[i].1,
        ) by {
            assert(entry_at(tokens, pos + 3 * (i + 1), args[i + 1].0, args[i + 1].1));
            assert(pos + 3 * (i + 1) == pos + 3 + 3 * i);
        }
        lemma_args_read(tokens, rest, pos + 3);
        assert(is_entry(tokens, pos));
        let (read, end) = read_args(tokens, pos)->Some_0;
        let (tail, _) = read_args(tokens, pos + 3)->Some_0;
        assert forall|i: int| 0 <= i < args.len() implies (#[trigger] read[i]).index == args[i].0
            && read[i].type_text == args[i].1 by {
            if i > 0 {
                assert(read[i] == tail[i - 1]);
                assert(rest[i - 1] == args[i]);
            }
        }
    }
}

proof fn lemma_orders_read(tokens: Seq<Token>, orders: Seq<(usize, bool)>, pos: int)
    requires
        0 <= pos,
        pos + 3 * orders.len() <= tokens.len(),
        forall|i: int|
            0 <= i < orders.len() ==> #[trigger] entry_at(
                tokens,
                pos + 3 * i,
                orders[i].0,
                direction(orders[i].1),
            ),
        no_entry_at(tokens, pos + 3 * orders.len()),
    ensures
        read_orders(tokens, pos) matches Some(read) && read.len() == orders.len() && forall|i: int|
            0 <= i < orders.len() ==> (#[trigger] read[i]).column_index == orders[i].0
                && read[i].is_descending == orders[i].1 && read[i].nulls_are == NullsAre::Largest,
    decreases orders.len(),
{
    reveal_strlit("asc");
    reveal_strlit("desc");
    assert("asc"@ != "desc"@) by {
        assert("asc"@.len() != "desc"@.len());
    }
    if orders.len() > 0 {
        let rest = orders.skip(1);
        assert(entry_at(
            tokens,
            pos + 3 * 0,
            orders[0].0,
            direction(orders[0].1),
        ));
        assert forall|i: int| 0 <= i < rest.len() implies #[trigger] entry_at(
            tokens,
            pos + 3 + 3 * i,
            rest[i].0,
            direction(rest[i].1),
        ) by {
            assert(entry_at(
                tokens,
                pos + 3 * (i + 1),
                orders[i + 1].0,
                direction(orders[i + 1].1),
            ));
            assert(pos + 3 * (i + 1) == pos + 3 + 3 * i);
        }
        lemma_orders_read(tokens, rest, pos + 3);
        assert(is_entry(tokens, pos));
        let read = read_orders(tokens, pos)->Some_0;
        let tail = read_orders(tokens, pos + 3)->Some_0;
        assert forall|i: int| 0 <= i < orders.len() implies (#[trigger] read[i]).column_index
            == orders[i].0 && read[i].is_descending == orders[i].1 && read[i].nulls_are
            == NullsAre::Largest by {
            if i > 0 {
                assert(read[i] == tail[i - 1]);
                assert(rest[i - 1] == orders[i]);
            }
        }
    }
}

/// A call that is written is read as it is written: its name, its types, its arguments in their order, whether
/// distinct values count, and the columns of its order with their directions.
pub proof fn lemma_read_as_written(
    tokens: &Vec<Token>,
    res: Option<WrittenCall>,
    function: Seq<char>,
    return_type: Seq<char>,
    args: Seq<(usize, Seq<char>)>,
    distinct: bool,
    ordered: bool,
    orders: Seq<(usize, bool)>,
)
    requires
        call_ensures(parse_aggregation, (tokens,), res),
        writes_call(tokens@, function, return_type, args, distinct, ordered, orders),
    ensures
        match res {
            Some(call) => {
                &&& call.function@ == function
                &&& call.return_type@ == return_type
                &&& call.args@.len() == args.len()
                &&& forall|i: int|
                    0 <= i < args.len() ==> (#[trigger] call.args@[i]).0 == args[i].0
                        && call.args@[i].1@ == args[i].1
                &&& call.distinct == distinct
                &&& call.column_orders@.len() == orders.len()
                &&& forall|i: int|
                    0 <= i < orders.len() ==> (#[trigger] call.column_orders@[i]).column_index
                        == orders[i].0 && call.column_orders@[i].is_descending == orders[i].1
                        && call.column_orders@[i].nulls_are == NullsAre::Largest
            },
            None => false,
        },
{
    let ts = tokens@;
    lemma_args_read(ts, args, 4);
    let end: int = (4 + 3 * args.len()) as int;
    let next: int = if distinct {
        end + 1
    } else {
        end
    };
    if ordered {
        lemma_orders_read(ts, orders, next + 1);
    }
    assert(distinct == is_word(ts, end, "distinct"@));
    assert(ordered == is_word(ts, next, "orderby"@));
    match res {
        Some(call) => {
            let (read, _) = read_args(ts, 4)->Some_0;
            assert(written_args(call.args@) == read);
            assert forall|i: int| 0 <= i < args.len() implies (#[trigger] call.args@[i]).0
                == args[i].0 && call.args@[i].1@ == args[i].1 by {
                assert(written_args(call.args@)[i] == read[i]);
            }
        },
        None => {},
    }
}

/// A call that was sent is taken over as it was sent: every argument with its column and its type, every column of
/// the order with its direction and the place of missing values, and all the rest.
pub proof fn lemma_taken_as_sent(
    sent: PbAggCall,
    filter_ok: bool,
    res: Result<AggCall, AggCallError>,
    i: int,
)
    requires
        call_ensures(AggCall::from_protobuf, (sent, filter_ok), res),
    ensures
        sent.agg_type is None ==> res matches Err(AggCallError::UnknownType),
        sent.filter is Some && !filter_ok ==> res is Err,
        sent.return_type is None ==> res is Err,
        match res {
            Ok(call) => {
                &&& call.args.val_indices@.len() == sent.args@.len()
                &&& call.args.data_types@.len() == sent.args@.len()
                &&& 0 <= i < sent.args@.len() ==> call.args.val_indices@[i] == sent.args@[i].index
                    && call.args.data_types@[i] == sent.args@[i].data_type
                &&& call.column_orders@.len() == sent.order_by@.len()
                &&& 0 <= i < sent.order_by@.len() ==> call.column_orders@[i].column_index
                    == sent.order_by@[i].column_index && call.column_orders@[i].is_descending
                    == sent.order_by@[i].is_descending && call.column_orders@[i].nulls_are
                    == sent.order_by@[i].nulls_are
                &&& Some(call.return_type) == sent.return_type
                &&& call.filter == sent.filter && call.distinct == sent.distinct
                &&& call.direct_args == sent.direct_args && call.user_defined == sent.udf
            },
            Err(e) => e == AggCallError::BadFilter ==> sent.filter is Some && !filter_ok,
        },
{
    match res {
        Ok(call) => {
            if 0 <= i < sent.order_by@.len() {
                assert(orders_of(sent.order_by@)[i] == call.column_orders@[i]);
            }
        },
        Err(_) => {},
    }
}

} // verus!
