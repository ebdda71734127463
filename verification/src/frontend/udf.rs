//! What is known while the calls of functions written in SQL are bound.
use crate::frontend::types::NameMap;
use vstd::prelude::*;
use vstd::string::*;

verus! {

/// What is known while the calls of functions written in SQL are bound: the expressions that stand for the
/// parameters, given by the numbers under which they are known, and how deep the calls are nested.
#[derive(Debug)]
pub struct UdfContext {
    pub udf_param_context: NameMap,
    pub udf_global_counter: u32,
}

/// An item of a selection.
#[derive(Clone, Copy, Debug, PartialEq, Eq, Structural)]
pub enum SelectItem {
    /// An expression without a name.
    UnnamedExpr(u64),
    Other,
}

/// The body of a query.
#[derive(Debug)]
pub enum QueryBody {
    /// A selection of the given items.
    Select(Vec<SelectItem>),
    Other,
}

/// A statement.
#[derive(Debug)]
pub enum UdfStatement {
    Query(QueryBody),
    Other,
}

/// What an argument without a name is.
#[derive(Clone, Copy, Debug, PartialEq, Eq, Structural)]
pub enum UnnamedArg {
    Expr(u64),
    Other,
}

/// An argument of a call.
#[derive(Clone, Copy, Debug, PartialEq, Eq, Structural)]
pub enum FunctionArg {
    Unnamed(UnnamedArg),
    Named,
}

/// Why a function written in SQL cannot be bound.
#[derive(Clone, Copy, Debug, PartialEq, Eq, Structural)]
pub enum UdfError {
    /// There has to be one statement.
    NotOneStatement,
    /// The statement has to be a query.
    NotAQuery,
    /// The query has to be a selection.
    NotASelect,
    /// There has to be one item.
    NotOneItem,
    /// The item has to be an expression without a name.
    NotAnUnnamedExpr,
    /// The argument has to be an expression.
    NotAnExprArg,
    /// The argument may not have a name.
    NamedArg,
}

/// The digits of a number.
pub open spec fn decimal(n: nat) -> Seq<char>
    decreases n,
{
    if n < 10 {
        seq![digit(n)]
    } else {
        decimal(n / 10).push(digit(n % 10))
    }
}

/// One digit.
pub open spec fn digit(n: nat) -> char {
    if n == 0 {
        '0'
    } else if n == 1 {
        '1'
    } else if n == 2 {
        '2'
    } else if n == 3 {
        '3'
    } else if n == 4 {
        '4'
    } else if n == 5 {
        '5'
    } else if n == 6 {
        '6'
    } else if n == 7 {
        '7'
    } else if n == 8 {
        '8'
    } else {
        '9'
    }
}

/// One digit as a text.
fn digit_text(n: u64) -> (res: &'static str)
    requires
        n < 10,
    ensures
        res@ == seq![digit(n as nat)],
{
    proof {
        reveal_strlit("0");
        reveal_strlit("1");
        reveal_strlit("2");
        reveal_strlit("3");
        reveal_strlit("4");
        reveal_strlit("5");
        reveal_strlit("6");
        reveal_strlit("7");
        reveal_strlit("8");
        reveal_strlit("9");
    }
    let res = match n {
        0 => "0",
        1 => "1",
        2 => "2",
        3 => "3",
        4 => "4",
        5 => "5",
        6 => "6",
        7 => "7",
        8 => "8",
        _ => "9",
    };
    assert(res@ =~= seq![digit(n as nat)]);
    res
}

/// The digits of a number.
fn decimal_text(n: u64) -> (res: String)
    ensures
        res@ == decimal(n as nat),
    decreases n,
{
    if n < 10 {
        digit_text(n).to_owned()
    } else {
        let mut res = decimal_text(n / 10);
        let ghost head = res@;
        res.append(digit_text(n % 10));
        assert(res@ =~= head.push(digit((n % 10) as nat)));
        res
    }
}

/// The name of the parameter in the given place, if it has no name of its own.
pub open spec fn param_name(place: int) -> Seq<char> {
    seq!['$'] + decimal((place + 1) as nat)
}

/// The name of the parameter in the given place, if it has no name of its own.
fn place_name(place: usize) -> (res: String)
    requires
        place < usize::MAX,
    ensures
        res@ == param_name(place as int),
{
    let mut res = "$".to_owned();
    proof {
        reveal_strlit("$");
        assert(res@ =~= seq!['$']);
    }
    res.append(decimal_text((place + 1) as u64).as_str());
    res
}

/// The name of the parameter in the given place.
pub open spec fn name_at(names: Seq<String>, place: int) -> Seq<char> {
    if names[place]@.len() == 0 {
        param_name(place)
    } else {
        names[place]@
    }
}

/// What is wrong with an argument.
pub open spec fn bad_arg(arg: FunctionArg) -> Option<UdfError> {
    match arg {
        FunctionArg::Unnamed(UnnamedArg::Expr(_)) => None,
        FunctionArg::Unnamed(UnnamedArg::Other) => Some(UdfError::NotAnExprArg),
        FunctionArg::Named => Some(UdfError::NamedArg),
    }
}

/// What is wrong with the first bad argument.
pub open spec fn first_bad_arg(args: Seq<FunctionArg>) -> Option<UdfError>
    decreases args.len(),
{
    if args.len() == 0 {
        None
    } else if first_bad_arg(args.drop_last()) is Some {
        first_bad_arg(args.drop_last())
    } else {
        bad_arg(args.last())
    }
}

/// The expressions of the arguments under the names of the parameters.
pub open spec fn context_of(args: Seq<FunctionArg>, names: Seq<String>) -> Map<Seq<char>, u64>
    decreases args.len(),
{
    if args.len() == 0 {
        Map::empty()
    } else {
        context_of(args.drop_last(), names).insert(
            name_at(names, args.len() - 1),
            match args.last() {
                FunctionArg::Unnamed(UnnamedArg::Expr(e)) => e,
                _ => 0,
            },
        )
    }
}

/// An error among the first arguments is the first error of all.
proof fn lemma_first_bad_arg(args: Seq<FunctionArg>, k: int)
    requires
        0 <= k <= args.len(),
        first_bad_arg(args.take(k)) is Some,
    ensures
        first_bad_arg(args) == first_bad_arg(args.take(k)),
    decreases args.len(),
{
    if k < args.len() {
        assert(args.drop_last().take(k) =~= args.take(k));
        lemma_first_bad_arg(args.drop_last(), k);
    } else {
        assert(args.take(k) =~= args);
    }
}

impl UdfContext {
    /// Nothing is known, and no call is nested.
    pub fn new() -> (res: UdfContext)
        ensures
            res.udf_param_context@ == Map::<Seq<char>, u64>::empty(),
            res.udf_global_counter == 0,
    {
        UdfContext { udf_param_context: NameMap::new(), udf_global_counter: 0 }
    }

    /// How deep the calls are nested.
    pub fn global_count(&self) -> (res: u32)
        ensures
            res == self.udf_global_counter,
    {
        self.udf_global_counter
    }

    /// One more call is nested.
    pub fn incr_global_count(&mut self)
        requires
            old(self).udf_global_counter < u32::MAX,
        ensures
            final(self).udf_global_counter == old(self).udf_global_counter + 1,
            final(self).udf_param_context == old(self).udf_param_context,
    {
        self.udf_global_counter = self.udf_global_counter + 1;
    }

    /// One call less is nested.
    pub fn decr_global_count(&mut self)
        requires
            old(self).udf_global_counter > 0,
        ensures
            final(self).udf_global_counter == old(self).udf_global_counter - 1,
            final(self).udf_param_context == old(self).udf_param_context,
    {
        self.udf_global_counter = self.udf_global_counter - 1;
    }

    /// Whether no expression is known.
    pub fn _is_empty(&self) -> (res: bool)
        ensures
            res == (self.udf_param_context@ == Map::<Seq<char>, u64>::empty()),
    {
        self.udf_param_context.is_empty()
    }

    /// Only the given expressions are known.
    pub fn update_context(&mut self, context: NameMap)
        ensures
            final(self).udf_param_context == context,
            final(self).udf_global_counter == old(self).udf_global_counter,
    {
        self.udf_param_context = context;
    }

    /// Nothing is known, and no call is nested.
    pub fn _clear(&mut self)
        ensures
            final(self).udf_param_context@ == Map::<Seq<char>, u64>::empty(),
            final(self).udf_global_counter == 0,
    {
        self.udf_global_counter = 0;
        self.udf_param_context = NameMap::new();
    }

    /// The expression that stands for the parameter.
    pub fn get_expr(&self, name: &str) -> (res: Option<u64>)
        ensures
            res == (if self.udf_param_context@.dom().contains(name@) {
                Some(self.udf_param_context@[name@])
            } else {
                None
            }),
    {
        self.udf_param_context.get(name)
    }

    /// The expressions that stand for the parameters.
    pub fn get_context(&self) -> (res: NameMap)
        ensures
            res@ == self.udf_param_context@,
    {
        self.udf_param_context.clone()
    }

    /// The expression that a function is defined by.
    pub open spec fn expression_of(ast: Seq<UdfStatement>) -> Result<u64, UdfError> {
        if ast.len() != 1 {
            Err(UdfError::NotOneStatement)
        } else {
            match ast[0] {
                UdfStatement::Query(QueryBody::Select(items)) => if items@.len() != 1 {
                    Err(UdfError::NotOneItem)
                } else {
                    match items@[0] {
                        SelectItem::UnnamedExpr(e) => Ok(e),
                        SelectItem::Other => Err(UdfError::NotAnUnnamedExpr),
                    }
                },
                UdfStatement::Query(QueryBody::Other) => Err(UdfError::NotASelect),
                UdfStatement::Other => Err(UdfError::NotAQuery),
            }
        }
    }

    /// The expression that a function is defined by.
    pub fn extract_udf_expression(ast: &Vec<UdfStatement>) -> (res: Result<u64, UdfError>)
        ensures
            res == UdfContext::expression_of(ast@),
    {
        if ast.len() != 1 {
            return Err(UdfError::NotOneStatement);
        }
        match &ast[0] {
            UdfStatement::Query(QueryBody::Select(items)) => {
                if items.len() != 1 {
                    return Err(UdfError::NotOneItem);
                }
                match items[0] {
                    SelectItem::UnnamedExpr(e) => Ok(e),
                    SelectItem::Other => Err(UdfError::NotAnUnnamedExpr),
                }
            },
            UdfStatement::Query(QueryBody::Other) => Err(UdfError::NotASelect),
            UdfStatement::Other => Err(UdfError::NotAQuery),
        }
    }

    /// The expressions of the arguments of a call under the names of the parameters; a parameter without a
    /// name goes by its place.
    pub fn create_udf_context(args: &Vec<FunctionArg>, arg_names: &Vec<String>) -> (res: Result<
        NameMap,
        UdfError,
    >)
        requires
            forall|i: int|
                0 <= i < args@.len() && first_bad_arg(#[trigger] args@.take(i + 1)) is None ==> i
                    < arg_names@.len(),
        ensures
            match res {
                Ok(context) => first_bad_arg(args@) is None && context@ == context_of(
                    args@,
                    arg_names@,
                ),
                Err(e) => first_bad_arg(args@) == Some(e),
            },
    {
        let mut res = NameMap::new();
        let mut i: usize = 0;
        while i < args.len()
            invariant
                i <= args.len(),
                forall|k: int|
                    0 <= k < args@.len() && first_bad_arg(#[trigger] args@.take(k + 1)) is None ==> k
                        < arg_names@.len(),
                first_bad_arg(args@.take(i as int)) is None,
                res@ == context_of(args@.take(i as int), arg_names@),
            decreases args.len() - i,
        {
            let ghost next = args@.take(i + 1);
            proof {
                assert(next.drop_last() =~= args@.take(i as int));
                assert(next.last() == args@[i as int]);
                if bad_arg(args@[i as int]) is Some {
                    lemma_first_bad_arg(args@, i + 1);
                }
            }
            match args[i] {
                FunctionArg::Unnamed(UnnamedArg::Expr(e)) => {
                    let name = if arg_names[i].as_str().unicode_len() == 0 {
                        place_name(i)
                    } else {
                        arg_names[i].clone()
                    };
                    res.insert(name, e);
                },
                FunctionArg::Unnamed(UnnamedArg::Other) => {
                    return Err(UdfError::NotAnExprArg);
                },
                FunctionArg::Named => {
                    return Err(UdfError::NamedArg);
                },
            }
            i = i + 1;
        }
        assert(args@.take(i as int) =~= args@);
        Ok(res)
    }
}

} // verus!
