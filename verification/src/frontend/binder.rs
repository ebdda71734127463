//! Binding names to columns of relations: the contexts of nested queries.
use crate::frontend::parameters::{given, ParameterTypes};
use crate::frontend::types::{NameMap, SqlType};
use crate::frontend::udf::UdfContext;
use std::collections::{BTreeMap, BTreeSet};
use vstd::prelude::*;

verus! {

broadcast use {vstd::std_specs::btree::group_btree_axioms, vstd::laws_cmp::group_laws_cmp};

/// What a statement is bound for.
#[derive(Clone, Copy, Debug, PartialEq, Eq, Structural)]
pub enum BindFor {
    /// A job that runs on.
    Stream,
    /// A query that is answered once.
    Batch,
    /// The definition of something.
    Ddl,
    /// A question about the system.
    System,
}

/// A clause of a query.
#[derive(Clone, Copy, Debug, PartialEq, Eq, Structural)]
pub enum Clause {
    Where,
    Values,
    GroupBy,
    Having,
    Filter,
    From,
    GeneratedColumn,
    Insert,
}

/// The names that can be used in a query: columns and named queries, given by the numbers under which they
/// are known.
#[derive(Debug)]
pub struct BindContext {
    pub columns: NameMap,
    pub cte_to_relation: NameMap,
    pub clause: Option<Clause>,
}

/// The context of a table to the left, and whether it can be used.
#[derive(Debug)]
pub struct LateralBindContext {
    pub is_visible: bool,
    pub context: BindContext,
}

/// The context of an outer query with those of the tables to the left there.
#[derive(Debug)]
pub struct UpperContext {
    pub context: BindContext,
    pub lateral_contexts: Vec<LateralBindContext>,
}

/// Why contexts cannot be put back.
#[derive(Clone, Copy, Debug, PartialEq, Eq, Structural)]
pub enum ContextError {
    /// There is no context to go back to.
    NonExistent,
    /// The contexts cannot be merged.
    Unmergeable,
}

/// Binds the names of a statement.
#[derive(Debug)]
pub struct Binder {
    pub context: BindContext,
    pub upper_subquery_contexts: Vec<UpperContext>,
    pub lateral_contexts: Vec<LateralBindContext>,
    pub next_subquery_id: usize,
    pub next_values_id: usize,
    pub next_share_id: usize,
    pub bind_for: BindFor,
    pub shared_views: BTreeMap<u32, usize>,
    pub included_relations: BTreeSet<u32>,
    pub param_types: ParameterTypes,
    pub udf_context: UdfContext,
}

/// The context is fresh but for the named queries, which are those given.
pub open spec fn is_fresh(context: BindContext, ctes: Map<Seq<char>, u64>) -> bool {
    &&& context.columns@ == Map::<Seq<char>, u64>::empty()
    &&& context.cte_to_relation@ == ctes
    &&& context.clause is None
}

impl BindContext {
    /// No name can be used.
    pub fn new() -> (res: BindContext)
        ensures
            is_fresh(res, Map::empty()),
    {
        BindContext { columns: NameMap::new(), cte_to_relation: NameMap::new(), clause: None }
    }
}

impl Binder {
    /// What does not belong to the contexts is the same.
    pub open spec fn same_rest(&self, other: Binder) -> bool {
        &&& self.next_subquery_id == other.next_subquery_id
        &&& self.next_values_id == other.next_values_id
        &&& self.next_share_id == other.next_share_id
        &&& self.bind_for == other.bind_for
        &&& self.shared_views == other.shared_views
        &&& self.included_relations == other.included_relations
        &&& self.param_types == other.param_types
        &&& self.udf_context == other.udf_context
    }

    /// The contexts are the same.
    pub open spec fn same_contexts(&self, other: Binder) -> bool {
        &&& self.context == other.context
        &&& self.upper_subquery_contexts@ == other.upper_subquery_contexts@
        &&& self.lateral_contexts@ == other.lateral_contexts@
    }

    /// Nothing was bound yet.
    pub open spec fn is_new(&self, bind_for: BindFor, param_types: Seq<Option<SqlType>>) -> bool {
        &&& is_fresh(self.context, Map::empty())
        &&& self.upper_subquery_contexts@.len() == 0
        &&& self.lateral_contexts@.len() == 0
        &&& self.next_subquery_id == 0
        &&& self.next_values_id == 0
        &&& self.next_share_id == 0
        &&& self.bind_for == bind_for
        &&& self.shared_views@ == Map::<u32, usize>::empty()
        &&& self.included_relations@ == Set::<u32>::empty()
        &&& self.param_types@ == given(param_types)
        &&& self.udf_context.udf_param_context@ == Map::<Seq<char>, u64>::empty()
        &&& self.udf_context.udf_global_counter == 0
    }

    fn new_inner(bind_for: BindFor, param_types: Vec<Option<SqlType>>) -> (res: Binder)
        ensures
            res.is_new(bind_for, param_types@),
    {
        Binder {
            context: BindContext::new(),
            upper_subquery_contexts: Vec::new(),
            lateral_contexts: Vec::new(),
            next_subquery_id: 0,
            next_values_id: 0,
            next_share_id: 0,
            bind_for,
            shared_views: BTreeMap::new(),
            included_relations: BTreeSet::new(),
            param_types: ParameterTypes::new(param_types),
            udf_context: UdfContext::new(),
        }
    }

    /// For a query that is answered once.
    pub fn new() -> (res: Binder)
        ensures
            res.is_new(BindFor::Batch, Seq::empty()),
    {
        Binder::new_inner(BindFor::Batch, Vec::new())
    }

    /// For a query that is answered once, with parameters.
    pub fn new_with_param_types(param_types: Vec<Option<SqlType>>) -> (res: Binder)
        ensures
            res.is_new(BindFor::Batch, param_types@),
    {
        Binder::new_inner(BindFor::Batch, param_types)
    }

    /// For a job that runs on.
    pub fn new_for_stream() -> (res: Binder)
        ensures
            res.is_new(BindFor::Stream, Seq::empty()),
    {
        Binder::new_inner(BindFor::Stream, Vec::new())
    }

    /// For the definition of something.
    pub fn new_for_ddl() -> (res: Binder)
        ensures
            res.is_new(BindFor::Ddl, Seq::empty()),
    {
        Binder::new_inner(BindFor::Ddl, Vec::new())
    }

    /// For a question about the system.
    pub fn new_for_system() -> (res: Binder)
        ensures
            res.is_new(BindFor::System, Seq::empty()),
    {
        Binder::new_inner(BindFor::System, Vec::new())
    }

    /// For a job that runs on, with parameters.
    pub fn new_for_stream_with_param_types(param_types: Vec<Option<SqlType>>) -> (res: Binder)
        ensures
            res.is_new(BindFor::Stream, param_types@),
    {
        Binder::new_inner(BindFor::Stream, param_types)
    }

    /// Whether a job that runs on is bound.
    pub fn is_for_stream(&self) -> (res: bool)
        ensures
            res == (self.bind_for == BindFor::Stream),
    {
        matches!(self.bind_for, BindFor::Stream)
    }

    /// Whether a query that is answered once is bound.
    pub fn is_for_batch(&self) -> (res: bool)
        ensures
            res == (self.bind_for == BindFor::Batch),
    {
        matches!(self.bind_for, BindFor::Batch)
    }

    /// Whether the definition of something is bound.
    pub fn is_for_ddl(&self) -> (res: bool)
        ensures
            res == (self.bind_for == BindFor::Ddl),
    {
        matches!(self.bind_for, BindFor::Ddl)
    }

    /// The types of the parameters.
    pub fn export_param_types(&self) -> (res: Result<Vec<SqlType>, u64>)
        ensures
            match res {
                Ok(types) => crate::frontend::parameters::complete(self.param_types@) && types@.len()
                    == self.param_types@.dom().len() && forall|i: int|
                    0 <= i < types@.len() ==> (#[trigger] types@[i]) == (
                    match self.param_types@[(i + 1) as u64] {
                        Some(t) => t,
                        None => SqlType::Varchar,
                    }),
                Err(gap) => !crate::frontend::parameters::complete(self.param_types@)
                    && crate::frontend::parameters::first_gap(self.param_types@, gap),
            },
    {
        self.param_types.export()
    }

    /// The relations that were met.
    pub fn included_relations(&self) -> (res: &BTreeSet<u32>)
        ensures
            res@ == self.included_relations@,
    {
        &self.included_relations
    }

    /// Goes into a nested query: its context is fresh but for the named queries.
    pub fn push_context(&mut self)
        ensures
            is_fresh(final(self).context, old(self).context.cte_to_relation@),
            final(self).lateral_contexts@.len() == 0,
            final(self).upper_subquery_contexts@ == old(self).upper_subquery_contexts@.push(
                UpperContext {
                    context: old(self).context,
                    lateral_contexts: old(self).lateral_contexts,
                },
            ),
            final(self).same_rest(*old(self)),
    {
        let ctes = self.context.cte_to_relation.clone();
        let mut context = BindContext {
            columns: NameMap::new(),
            cte_to_relation: ctes,
            clause: None,
        };
        std::mem::swap(&mut self.context, &mut context);
        let mut lateral_contexts: Vec<LateralBindContext> = Vec::new();
        std::mem::swap(&mut self.lateral_contexts, &mut lateral_contexts);
        self.upper_subquery_contexts.push(UpperContext { context, lateral_contexts });
    }

    /// Goes back to the outer query.
    pub fn pop_context(&mut self) -> (res: Result<(), ContextError>)
        ensures
            old(self).upper_subquery_contexts@.len() == 0 ==> res == Err::<(), ContextError>(
                ContextError::NonExistent,
            ) && final(self).same_contexts(*old(self)),
            old(self).upper_subquery_contexts@.len() > 0 ==> res is Ok && final(self).context
                == old(self).upper_subquery_contexts@.last().context && final(self).lateral_contexts
                == old(self).upper_subquery_contexts@.last().lateral_contexts && final(self).upper_subquery_contexts@ == old(self).upper_subquery_contexts@.drop_last(),
            final(self).same_rest(*old(self)),
    {
        match self.upper_subquery_contexts.pop() {
            Some(upper) => {
                self.context = upper.context;
                self.lateral_contexts = upper.lateral_contexts;
                Ok(())
            },
            None => Err(ContextError::NonExistent),
        }
    }

    /// Goes to the right of a table: the context there is fresh but for the named queries.
    pub fn push_lateral_context(&mut self)
        ensures
            is_fresh(final(self).context, old(self).context.cte_to_relation@),
            final(self).lateral_contexts@ == old(self).lateral_contexts@.push(
                LateralBindContext { is_visible: false, context: old(self).context },
            ),
            final(self).upper_subquery_contexts == old(self).upper_subquery_contexts,
            final(self).same_rest(*old(self)),
    {
        let ctes = self.context.cte_to_relation.clone();
        let mut context = BindContext {
            columns: NameMap::new(),
            cte_to_relation: ctes,
            clause: None,
        };
        std::mem::swap(&mut self.context, &mut context);
        self.lateral_contexts.push(LateralBindContext { is_visible: false, context });
    }

    /// Goes back to a table to the left, with the context that both give together, if they can be merged.
    pub fn pop_and_merge_lateral_context(&mut self, merged: Option<BindContext>) -> (res: Result<
        (),
        ContextError,
    >)
        ensures
            old(self).lateral_contexts@.len() == 0 ==> res == Err::<(), ContextError>(
                ContextError::NonExistent,
            ) && final(self).same_contexts(*old(self)),
            old(self).lateral_contexts@.len() > 0 ==> final(self).lateral_contexts@ == old(self).lateral_contexts@.drop_last() && match merged {
                Some(context) => res is Ok && final(self).context == context,
                None => res == Err::<(), ContextError>(ContextError::Unmergeable) && final(self).context == old(self).context,
            },
            final(self).upper_subquery_contexts == old(self).upper_subquery_contexts,
            final(self).same_rest(*old(self)),
    {
        match self.lateral_contexts.pop() {
            Some(_) => match merged {
                Some(context) => {
                    self.context = context;
                    Ok(())
                },
                None => Err(ContextError::Unmergeable),
            },
            None => Err(ContextError::NonExistent),
        }
    }

    /// The contexts to the left with the last one marked.
    pub open spec fn marked(contexts: Seq<LateralBindContext>, visible: bool) -> Seq<
        LateralBindContext,
    > {
        if contexts.len() == 0 {
            contexts
        } else {
            contexts.update(
                contexts.len() - 1,
                LateralBindContext { is_visible: visible, context: contexts.last().context },
            )
        }
    }

    fn mark_lateral(&mut self, visible: bool)
        ensures
            final(self).lateral_contexts@ == Binder::marked(old(self).lateral_contexts@, visible),
            final(self).context == old(self).context,
            final(self).upper_subquery_contexts == old(self).upper_subquery_contexts,
            final(self).same_rest(*old(self)),
    {
        let ghost before = self.lateral_contexts@;
        match self.lateral_contexts.pop() {
            Some(ctx) => {
                self.lateral_contexts.push(
                    LateralBindContext { is_visible: visible, context: ctx.context },
                );
                assert(self.lateral_contexts@ =~= Binder::marked(before, visible));
            },
            None => {},
        }
    }

    /// The nearest table to the left, if there is one, can be used.
    pub fn try_mark_lateral_as_visible(&mut self)
        ensures
            final(self).lateral_contexts@ == Binder::marked(old(self).lateral_contexts@, true),
            final(self).context == old(self).context,
            final(self).upper_subquery_contexts == old(self).upper_subquery_contexts,
            final(self).same_rest(*old(self)),
    {
        self.mark_lateral(true);
    }

    /// The nearest table to the left, if there is one, cannot be used.
    pub fn try_mark_lateral_as_invisible(&mut self)
        ensures
            final(self).lateral_contexts@ == Binder::marked(old(self).lateral_contexts@, false),
            final(self).context == old(self).context,
            final(self).upper_subquery_contexts == old(self).upper_subquery_contexts,
            final(self).same_rest(*old(self)),
    {
        self.mark_lateral(false);
    }

    /// A number for a nested query that no other has.
    pub fn next_subquery_id(&mut self) -> (res: usize)
        requires
            old(self).next_subquery_id < usize::MAX,
        ensures
            res == old(self).next_subquery_id,
            *final(self) == (Binder {
                next_subquery_id: (old(self).next_subquery_id + 1) as usize,
                ..*old(self)
            }),
    {
        let id: usize = self.next_subquery_id;
        self.next_subquery_id = id + 1;
        id
    }

    /// A number for a list of values that no other has.
    pub fn next_values_id(&mut self) -> (res: usize)
        requires
            old(self).next_values_id < usize::MAX,
        ensures
            res == old(self).next_values_id,
            *final(self) == (Binder {
                next_values_id: (old(self).next_values_id + 1) as usize,
                ..*old(self)
            }),
    {
        let id: usize = self.next_values_id;
        self.next_values_id = id + 1;
        id
    }

    /// A number for a shared relation that no other has.
    pub fn next_share_id(&mut self) -> (res: usize)
        requires
            old(self).next_share_id < usize::MAX,
        ensures
            res == old(self).next_share_id,
            *final(self) == (Binder {
                next_share_id: (old(self).next_share_id + 1) as usize,
                ..*old(self)
            }),
    {
        let id: usize = self.next_share_id;
        self.next_share_id = id + 1;
        id
    }

    /// The clause that is bound.
    pub fn set_clause(&mut self, clause: Option<Clause>)
        ensures
            final(self).context.clause == clause,
            final(self).context.columns == old(self).context.columns,
            final(self).context.cte_to_relation == old(self).context.cte_to_relation,
            final(self).lateral_contexts == old(self).lateral_contexts,
            final(self).upper_subquery_contexts == old(self).upper_subquery_contexts,
            final(self).same_rest(*old(self)),
    {
        self.context.clause = clause;
    }

    /// What is known of functions written in SQL.
    pub fn udf_context_mut(&mut self) -> (res: &mut UdfContext)
        ensures
            *res == old(self).udf_context,
            *final(self) == (Binder { udf_context: *final(res), ..*old(self) }),
    {
        &mut self.udf_context
    }
}

/// Going into a nested query and back leaves all contexts as they were, whatever became of the context of the
/// nested query: `inside` is the state on the way back, which still has the outer contexts that `pushed` has.
pub proof fn lemma_push_pop(before: Binder, pushed: Binder, inside: Binder, after: Binder)
    requires
        pushed.upper_subquery_contexts@ == before.upper_subquery_contexts@.push(
            UpperContext { context: before.context, lateral_contexts: before.lateral_contexts },
        ),
        inside.upper_subquery_contexts@ == pushed.upper_subquery_contexts@,
        after.context == inside.upper_subquery_contexts@.last().context,
        after.lateral_contexts == inside.upper_subquery_contexts@.last().lateral_contexts,
        after.upper_subquery_contexts@ == inside.upper_subquery_contexts@.drop_last(),
    ensures
        after.same_contexts(before),
{
    assert(pushed.upper_subquery_contexts@.drop_last() =~= before.upper_subquery_contexts@);
}

/// Whether the nearest table to the left can be used is what was said last.
pub proof fn lemma_marked_last(contexts: Seq<LateralBindContext>, first: bool, second: bool)
    ensures
        Binder::marked(Binder::marked(contexts, first), second) == Binder::marked(contexts, second),
{
    assert(Binder::marked(Binder::marked(contexts, first), second) =~= Binder::marked(
        contexts,
        second,
    ));
}

/// The name of a column without one.
pub const UNNAMED_COLUMN: &'static str = "?column?";

} // verus!
