//! The function extractor: oversized bodies move into helper functions.
//!
//! A function whose body has more statements than the threshold keeps its
//! header and gets a body of one call. The statements move, unchanged and
//! in order, into a new function that is named after the split one with a
//! fixed suffix. The helper copies the visibility, the generic parameters
//! and the return marker, has no attributes and takes no parameters: names of parameters that the moved statements
//! mention are left unresolved. Helpers are collected while the
//! items are walked and appended after the last existing item.

use vstd::prelude::*;
use vstd::string::StringExecFns;
use crate::model::{
    Block, Expression, ExpressionView, Function, FunctionView, Item, ItemView, Program, Statement,
    StatementView,
};

verus! {

/// The number of statements a body may have before it is split.
pub const DEFAULT_THRESHOLD: usize = 10;

/// What is appended to a function's name to name its helper.
pub open spec fn helper_suffix() -> Seq<char> {
    "_extracted"@
}

/// The name of the helper of the function called `name`.
pub open spec fn helper_name(name: Seq<char>) -> Seq<char> {
    name + helper_suffix()
}

/// The function's body is longer than the threshold.
pub open spec fn is_oversized(function: FunctionView, threshold: nat) -> bool {
    function.body.len() > threshold
}

/// The item is a function with an oversized body.
pub open spec fn needs_split(item: ItemView, threshold: nat) -> bool {
    item matches ItemView::Function(function) && is_oversized(function, threshold)
}

/// A body that is one call of `callee`.
pub open spec fn call_body(callee: Seq<char>) -> Seq<StatementView> {
    seq![
        StatementView::ExpressionStatement(
            ExpressionView::Call { callee, arguments: Seq::<char>::empty() },
        ),
    ]
}

/// The function as the extractor leaves it: unchanged within the
/// threshold, otherwise with a body that calls the helper.
pub open spec fn truncated(function: FunctionView, threshold: nat) -> FunctionView {
    if is_oversized(function, threshold) {
        FunctionView { body: call_body(helper_name(function.name)), ..function }
    } else {
        function
    }
}

/// The helper that takes over the body of `function`.
pub open spec fn helper_of(function: FunctionView) -> FunctionView {
    FunctionView {
        attributes: Seq::<char>::empty(),
        visibility: function.visibility,
        name: helper_name(function.name),
        generics: function.generics,
        parameters: Seq::<char>::empty(),
        return_marker: function.return_marker,
        body: function.body,
    }
}

/// The item as the extractor leaves it at its position.
pub open spec fn truncated_item(item: ItemView, threshold: nat) -> ItemView {
    match item {
        ItemView::Function(function) => ItemView::Function(truncated(function, threshold)),
        ItemView::Opaque(_) => item,
    }
}

/// The helper of a function item, as an item.
pub open spec fn helper_item(item: ItemView) -> ItemView {
    match item {
        ItemView::Function(function) => ItemView::Function(helper_of(function)),
        ItemView::Opaque(_) => item,
    }
}

/// The helpers of the oversized functions, in the order of the functions
/// they are split from.
pub open spec fn helpers(program: Seq<ItemView>, threshold: nat) -> Seq<ItemView> {
    program.filter(|item: ItemView| needs_split(item, threshold)).map_values(
        |item: ItemView| helper_item(item),
    )
}

/// The program after extraction: every item in place, oversized functions
/// truncated, and the helpers behind them.
pub open spec fn extracted(program: Seq<ItemView>, threshold: nat) -> Seq<ItemView> {
    program.map_values(|item: ItemView| truncated_item(item, threshold)) + helpers(
        program,
        threshold,
    )
}

/// Splits oversized functions and buffers the helpers until the walk over
/// the items is done.
pub struct FunctionExtractor {
    threshold: usize,
    extracted_functions: Vec<Item>,
}

impl FunctionExtractor {
    /// The largest number of statements that a body may keep.
    pub closed spec fn threshold(&self) -> nat {
        self.threshold as nat
    }

    /// The helpers made so far and not yet appended to a program.
    pub closed spec fn pending(&self) -> Seq<ItemView> {
        self.extracted_functions@.map_values(|item: Item| item@)
    }

    /// An extractor with the default threshold.
    pub fn new() -> (result: FunctionExtractor)
        ensures
            result.threshold() == DEFAULT_THRESHOLD,
            result.pending() == Seq::<ItemView>::empty(),
    {
        FunctionExtractor::with_threshold(DEFAULT_THRESHOLD)
    }

    /// An extractor that splits bodies of more than `threshold` statements.
    pub fn with_threshold(threshold: usize) -> (result: FunctionExtractor)
        ensures
            result.threshold() == threshold,
            result.pending() == Seq::<ItemView>::empty(),
    {
        FunctionExtractor { threshold, extracted_functions: Vec::new() }
    }

    /// Splits `function` if its body is longer than the threshold, and
    /// buffers the helper. A function within the threshold is untouched.
    pub fn visit_function_mut(&mut self, function: &mut Function)
        ensures
            final(self).threshold() == old(self).threshold(),
            final(function)@ == truncated(old(function)@, old(self).threshold()),
            final(self).pending() == if is_oversized(old(function)@, old(self).threshold()) {
                old(self).pending().push(ItemView::Function(helper_of(old(function)@)))
            } else {
                old(self).pending()
            },
    {
        if function.body.statements.len() > self.threshold {
            let mut helper_name = function.name.clone();
            helper_name.append("_extracted");
            let call = Statement::ExpressionStatement(
                Expression::Call { callee: helper_name.clone(), arguments: String::new() },
            );
            let mut statements: Vec<Statement> = Vec::new();
            statements.push(call);
            std::mem::swap(&mut function.body.statements, &mut statements);
            let helper = Function {
                attributes: String::new(),
                visibility: function.visibility.clone(),
                name: helper_name,
                generics: function.generics.clone(),
                parameters: String::new(),
                return_marker: function.return_marker.clone(),
                body: Block { statements },
            };
            assert(function.body@ =~= call_body(helper_name@));
            proof {
                self.extracted_functions@.lemma_push_map_commute(
                    |item: Item| item@,
                    Item::Function(helper),
                );
            }
            self.extracted_functions.push(Item::Function(helper));
        }
    }

    /// Visits every function of the program and then appends the buffered
    /// helpers after the existing items.
    pub fn visit_program_mut(&mut self, program: &mut Program)
        ensures
            final(self).threshold() == old(self).threshold(),
            final(self).pending() == Seq::<ItemView>::empty(),
            final(program)@ == old(program)@.map_values(
                |item: ItemView| truncated_item(item, old(self).threshold()),
            ) + old(self).pending() + helpers(old(program)@, old(self).threshold()),
    {
        let ghost threshold = self.threshold();
        let ghost split = |item: ItemView| needs_split(item, threshold);
        let ghost to_helper = |item: ItemView| helper_item(item);
        let mut items: Vec<Item> = Vec::new();
        std::mem::swap(&mut program.items, &mut items);
        let ghost views = items@.map_values(|item: Item| item@);
        let mut visited: Vec<Item> = Vec::new();
        for item in iter: items
            invariant
                iter.seq() == items@,
                views == items@.map_values(|item: Item| item@),
                split == |item: ItemView| needs_split(item, threshold),
                to_helper == |item: ItemView| helper_item(item),
                self.threshold() == threshold,
                visited.len() == iter.index(),
                forall|j: int|
                    0 <= j < visited.len() ==> (#[trigger] visited[j])@ == truncated_item(
                        views[j],
                        threshold,
                    ),
                self.pending() == old(self).pending() + views.take(iter.index() as int).filter(
                    split,
                ).map_values(to_helper),
        {
            proof {
                let i = iter.index() as int;
                views.lemma_take_succ_push(i);
                views.take(i).lemma_filter_push(views[i], split);
                views.take(i).filter(split).lemma_push_map_commute(to_helper, views[i]);
            }
            match item {
                Item::Function(function) => {
                    let mut function = function;
                    self.visit_function_mut(&mut function);
                    visited.push(Item::Function(function));
                },
                other => {
                    visited.push(other);
                },
            }
        }
        assert(views.take(items@.len() as int) =~= views);
        let ghost visited_views = visited@.map_values(|item: Item| item@);
        assert(visited_views =~= views.map_values(
            |item: ItemView| truncated_item(item, threshold),
        ));
        let ghost pending = self.pending();
        visited.append(&mut self.extracted_functions);
        program.items = visited;
        assert(program@ =~= visited_views + pending);
    }
}

/// Splits every function of more than [`DEFAULT_THRESHOLD`] statements.
pub fn extract_functions(program: &mut Program)
    ensures
        final(program)@ == extracted(old(program)@, DEFAULT_THRESHOLD as nat),
{
    let mut extractor = FunctionExtractor::new();
    extractor.visit_program_mut(program);
}

/// A function whose body has at most `threshold` statements, exactly
/// `threshold` included, is untouched.
pub proof fn lemma_within_threshold_untouched(function: FunctionView, threshold: nat)
    requires
        function.body.len() <= threshold,
    ensures
        truncated(function, threshold) == function,
{
}

/// Extraction keeps every existing item at its position; what it adds
/// comes behind the last of them.
pub proof fn lemma_extract_keeps_positions(program: Seq<ItemView>, threshold: nat, i: int)
    requires
        0 <= i < program.len(),
    ensures
        extracted(program, threshold).len() >= program.len(),
        extracted(program, threshold)[i] == truncated_item(program[i], threshold),
{
}

/// A program without an oversized function is left as it is.
pub proof fn lemma_extract_nothing(program: Seq<ItemView>, threshold: nat)
    requires
        forall|i: int| 0 <= i < program.len() ==> !needs_split(#[trigger] program[i], threshold),
    ensures
        extracted(program, threshold) == program,
{
    let split = |item: ItemView| needs_split(item, threshold);
    program.lemma_all_neg_filter_empty(split);
}

/// A function with more than `threshold` statements, `threshold + 1`
/// included, is split: it stays at its position with a body of one call of
/// its helper, and the helper, which holds the statements it had, stands
/// behind all items that the program had.
pub proof fn lemma_oversized_is_split(program: Seq<ItemView>, threshold: nat, i: int) -> (k: int)
    requires
        0 <= i < program.len(),
        program[i] is Function,
        program[i]->Function_0.body.len() > threshold,
    ensures
        extracted(program, threshold)[i] == ItemView::Function(
            FunctionView {
                body: call_body(helper_name(program[i]->Function_0.name)),
                ..program[i]->Function_0
            },
        ),
        program.len() <= k < extracted(program, threshold).len(),
        extracted(program, threshold)[k] == ItemView::Function(helper_of(program[i]->Function_0)),
        extracted(program, threshold)[k]->Function_0.body == program[i]->Function_0.body,
{
    let split = |item: ItemView| needs_split(item, threshold);
    let oversized = program.filter(split);
    program.lemma_filter_contains(split, i);
    let j = choose|j: int| 0 <= j < oversized.len() && oversized[j] == program[i];
    program.len() + j
}

} // verus!
