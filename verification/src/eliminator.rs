//! Reachability marking and dead-code elimination.
//!
//! A function is used if its name is the callee of some call expression in
//! the program, or if it is the entry point. The used set is computed in a
//! single pass over all call sites; no closure over the call graph is taken.
//! Elimination keeps every item that is not a function, and every function
//! that is used.

use vstd::prelude::*;
use vstd::hash_set::StringHashSet;
use vstd::string::StringExecFns;
use crate::model::{
    Block, Expression, ExpressionView, FunctionView, Item, ItemView, Program, Statement,
    StatementView,
};

verus! {

/// The name of the function that is never eliminated.
pub open spec fn entry_point() -> Seq<char> {
    "main"@
}

/// The expression holds a call whose callee is `name`.
pub open spec fn expression_calls(expression: ExpressionView, name: Seq<char>) -> bool
    decreases expression,
{
    match expression {
        ExpressionView::Call { callee, arguments } => callee == name,
        ExpressionView::BinaryOp { op, left, right } => expression_calls(*left, name)
            || expression_calls(*right, name),
        _ => false,
    }
}

/// The statement holds a call whose callee is `name`.
pub open spec fn statement_calls(statement: StatementView, name: Seq<char>) -> bool {
    match statement {
        StatementView::ExpressionStatement(expression) => expression_calls(expression, name),
        StatementView::Opaque(_) => false,
    }
}

/// Some statement of the body holds a call whose callee is `name`.
pub open spec fn block_calls(body: Seq<StatementView>, name: Seq<char>) -> bool {
    exists|i: int| 0 <= i < body.len() && statement_calls(#[trigger] body[i], name)
}

/// The item is a function whose body holds a call whose callee is `name`.
pub open spec fn item_calls(item: ItemView, name: Seq<char>) -> bool {
    match item {
        ItemView::Function(function) => block_calls(function.body, name),
        ItemView::Opaque(_) => false,
    }
}

/// Some function of the program holds a call whose callee is `name`.
pub open spec fn program_calls(program: Seq<ItemView>, name: Seq<char>) -> bool {
    exists|i: int| 0 <= i < program.len() && item_calls(#[trigger] program[i], name)
}

/// The names that occur as a callee anywhere in the program.
pub open spec fn called_names(program: Seq<ItemView>) -> Set<Seq<char>> {
    Set::new(|name: Seq<char>| program_calls(program, name))
}

/// Whether elimination keeps `item`, given the names marked as used.
pub open spec fn is_retained(item: ItemView, used: Set<Seq<char>>) -> bool {
    match item {
        ItemView::Function(function) => function.name == entry_point() || used.contains(
            function.name,
        ),
        ItemView::Opaque(_) => true,
    }
}

/// The items that elimination keeps, in the order they stood in.
pub open spec fn retained(program: Seq<ItemView>, used: Set<Seq<char>>) -> Seq<ItemView> {
    program.filter(|item: ItemView| is_retained(item, used))
}

/// The program after marking and elimination.
pub open spec fn eliminated(program: Seq<ItemView>) -> Seq<ItemView> {
    retained(program, called_names(program))
}

proof fn lemma_block_calls_step(body: Seq<StatementView>, index: int, name: Seq<char>)
    requires
        0 <= index < body.len(),
    ensures
        block_calls(body.take(index + 1), name) <==> block_calls(body.take(index), name)
            || statement_calls(body[index], name),
{
    let shorter = body.take(index);
    let longer = body.take(index + 1);
    if block_calls(longer, name) {
        let i = choose|i: int| 0 <= i < longer.len() && statement_calls(#[trigger] longer[i], name);
        if i < index {
            assert(statement_calls(shorter[i], name));
        }
    }
    if block_calls(shorter, name) {
        let i = choose|i: int|
            0 <= i < shorter.len() && statement_calls(#[trigger] shorter[i], name);
        assert(statement_calls(longer[i], name));
    }
    if statement_calls(body[index], name) {
        assert(statement_calls(longer[index], name));
    }
}

proof fn lemma_program_calls_step(program: Seq<ItemView>, index: int, name: Seq<char>)
    requires
        0 <= index < program.len(),
    ensures
        program_calls(program.take(index + 1), name) <==> program_calls(program.take(index), name)
            || item_calls(program[index], name),
{
    let shorter = program.take(index);
    let longer = program.take(index + 1);
    if program_calls(longer, name) {
        let i = choose|i: int| 0 <= i < longer.len() && item_calls(#[trigger] longer[i], name);
        if i < index {
            assert(item_calls(shorter[i], name));
        }
    }
    if program_calls(shorter, name) {
        let i = choose|i: int| 0 <= i < shorter.len() && item_calls(#[trigger] shorter[i], name);
        assert(item_calls(longer[i], name));
    }
    if item_calls(program[index], name) {
        assert(item_calls(longer[index], name));
    }
}

/// Collects the names of called functions and filters the item list by
/// them.
pub struct DeadCodeRemover {
    used_functions: StringHashSet,
}

impl DeadCodeRemover {
    /// The names marked as used so far.
    pub closed spec fn used(&self) -> Set<Seq<char>> {
        self.used_functions@
    }

    /// A remover with nothing marked.
    pub fn new() -> (result: DeadCodeRemover)
        ensures
            result.used() == Set::<Seq<char>>::empty(),
    {
        DeadCodeRemover { used_functions: StringHashSet::new() }
    }

    /// Marks the callee of every call in `expression`.
    pub fn visit_expression(&mut self, expression: &Expression)
        ensures
            final(self).used() == old(self).used().union(
                Set::new(|name: Seq<char>| expression_calls(expression@, name)),
            ),
        decreases expression,
    {
        match expression {
            Expression::Call { callee, arguments } => {
                self.used_functions.insert(callee.clone());
            },
            Expression::BinaryOp { op, left, right } => {
                self.visit_expression(left);
                self.visit_expression(right);
            },
            _ => {},
        }
        assert(self.used() =~= old(self).used().union(
            Set::new(|name: Seq<char>| expression_calls(expression@, name)),
        ));
    }

    /// Marks the callee of every call in the statements of `block`.
    pub fn visit_block(&mut self, block: &Block)
        ensures
            final(self).used() == old(self).used().union(
                Set::new(|name: Seq<char>| block_calls(block@, name)),
            ),
    {
        let mut index: usize = 0;
        while index < block.statements.len()
            invariant
                index <= block.statements.len(),
                self.used() == old(self).used().union(
                    Set::new(|name: Seq<char>| block_calls(block@.take(index as int), name)),
                ),
            decreases block.statements.len() - index,
        {
            match &block.statements[index] {
                Statement::ExpressionStatement(expression) => {
                    self.visit_expression(expression);
                },
                Statement::Opaque(_) => {},
            }
            proof {
                let shorter = block@.take(index as int);
                let longer = block@.take(index + 1);
                assert forall|name: Seq<char>| #[trigger]
                    block_calls(longer, name) <==> block_calls(shorter, name) || statement_calls(
                        block@[index as int],
                        name,
                    ) by {
                    lemma_block_calls_step(block@, index as int, name);
                }
                assert(self.used() =~= old(self).used().union(
                    Set::new(|name: Seq<char>| block_calls(longer, name)),
                ));
            }
            index += 1;
        }
        assert(block@.take(index as int) =~= block@);
    }

    /// Marks every name that is the callee of a call somewhere in the
    /// program. Declaring a function does not mark it.
    pub fn mark_used_functions(&mut self, program: &Program)
        ensures
            final(self).used() == old(self).used().union(called_names(program@)),
    {
        let mut index: usize = 0;
        while index < program.items.len()
            invariant
                index <= program.items.len(),
                self.used() == old(self).used().union(
                    called_names(program@.take(index as int)),
                ),
            decreases program.items.len() - index,
        {
            match &program.items[index] {
                Item::Function(function) => {
                    self.visit_block(&function.body);
                },
                Item::Opaque(_) => {},
            }
            proof {
                let shorter = program@.take(index as int);
                let longer = program@.take(index + 1);
                assert forall|name: Seq<char>| #[trigger]
                    program_calls(longer, name) <==> program_calls(shorter, name) || item_calls(
                        program@[index as int],
                        name,
                    ) by {
                    lemma_program_calls_step(program@, index as int, name);
                }
                assert(self.used() =~= old(self).used().union(called_names(longer)));
            }
            index += 1;
        }
        assert(program@.take(index as int) =~= program@);
    }

    fn keeps(&self, item: &Item, entry: &String) -> (result: bool)
        requires
            entry@ == entry_point(),
        ensures
            result == is_retained(item@, self.used()),
    {
        match item {
            Item::Function(function) => function.name == *entry || self.used_functions.contains(
                function.name.as_str(),
            ),
            Item::Opaque(_) => true,
        }
    }

    /// Whether elimination keeps `item`.
    pub fn retains(&self, item: &Item) -> (result: bool)
        ensures
            result == is_retained(item@, self.used()),
    {
        let entry = String::from_str("main");
        self.keeps(item, &entry)
    }

    /// Drops every function that is neither marked nor the entry point.
    /// The items that stay keep their order and their contents.
    pub fn remove_unused_functions(&self, program: &mut Program)
        ensures
            final(program)@ == retained(old(program)@, self.used()),
    {
        let mut items: Vec<Item> = Vec::new();
        std::mem::swap(&mut program.items, &mut items);
        let ghost views = items@.map_values(|item: Item| item@);
        let ghost keep = |item: ItemView| is_retained(item, self.used());
        let entry = String::from_str("main");
        let mut kept: Vec<Item> = Vec::new();
        for item in iter: items
            invariant
                entry@ == entry_point(),
                iter.seq() == items@,
                views == items@.map_values(|item: Item| item@),
                keep == |item: ItemView| is_retained(item, self.used()),
                kept@.map_values(|item: Item| item@) == views.take(iter.index() as int).filter(
                    keep,
                ),
        {
            proof {
                let i = iter.index() as int;
                views.lemma_take_succ_push(i);
                views.take(i).lemma_filter_push(views[i], keep);
                kept@.lemma_push_map_commute(|item: Item| item@, item);
            }
            if self.keeps(&item, &entry) {
                kept.push(item);
            }
        }
        assert(views.take(items@.len() as int) =~= views);
        program.items = kept;
    }
}

/// Removes every function that no call names and that is not the entry
/// point.
pub fn eliminate_dead_code(program: &mut Program)
    ensures
        final(program)@ == eliminated(old(program)@),
{
    let mut remover = DeadCodeRemover::new();
    remover.mark_used_functions(program);
    assert(remover.used() =~= called_names(program@));
    remover.remove_unused_functions(program);
}

/// Whatever elimination keeps was an item of the program.
pub proof fn lemma_eliminated_items_are_members(program: Seq<ItemView>, item: ItemView)
    requires
        eliminated(program).contains(item),
    ensures
        program.contains(item),
{
    program.lemma_filter_contains_rev(
        |item: ItemView| is_retained(item, called_names(program)),
        item,
    );
}

/// Every function that is left is the entry point or the callee of a call
/// somewhere in the program.
pub proof fn lemma_eliminated_functions_are_used(program: Seq<ItemView>, k: int)
    requires
        0 <= k < eliminated(program).len(),
        eliminated(program)[k] is Function,
    ensures
        eliminated(program)[k]->Function_0.name == entry_point() || program_calls(
            program,
            eliminated(program)[k]->Function_0.name,
        ),
{
    program.lemma_filter_pred(|item: ItemView| is_retained(item, called_names(program)), k);
}

/// A function that no call names, and that is not the entry point, is
/// absent from the result.
pub proof fn lemma_unused_function_is_absent(program: Seq<ItemView>, function: FunctionView)
    requires
        function.name != entry_point(),
        !program_calls(program, function.name),
    ensures
        !eliminated(program).contains(ItemView::Function(function)),
{
    let keep = |item: ItemView| is_retained(item, called_names(program));
    if eliminated(program).contains(ItemView::Function(function)) {
        let i = choose|i: int|
            0 <= i < eliminated(program).len() && eliminated(program)[i] == ItemView::Function(
                function,
            );
        program.lemma_filter_pred(keep, i);
    }
}

/// A function that some call names survives, wherever the call stands:
/// also inside a function that is itself removed.
pub proof fn lemma_called_function_survives(program: Seq<ItemView>, i: int)
    requires
        0 <= i < program.len(),
        program[i] is Function,
        program_calls(program, program[i]->Function_0.name),
    ensures
        eliminated(program).contains(program[i]),
{
    program.lemma_filter_contains(|item: ItemView| is_retained(item, called_names(program)), i);
}

/// The entry point survives, called or not.
pub proof fn lemma_entry_point_survives(program: Seq<ItemView>, i: int)
    requires
        0 <= i < program.len(),
        program[i] is Function,
        program[i]->Function_0.name == entry_point(),
    ensures
        eliminated(program).contains(program[i]),
{
    program.lemma_filter_contains(|item: ItemView| is_retained(item, called_names(program)), i);
}

/// Every item that is not a function survives.
pub proof fn lemma_opaque_item_survives(program: Seq<ItemView>, i: int)
    requires
        0 <= i < program.len(),
        program[i] is Opaque,
    ensures
        eliminated(program).contains(program[i]),
{
    program.lemma_filter_contains(|item: ItemView| is_retained(item, called_names(program)), i);
}

/// Every call that is left names only functions that are left: if the
/// program declared a function under the callee's name, that function is
/// still there.
pub proof fn lemma_no_dangling_call(program: Seq<ItemView>, name: Seq<char>, i: int)
    requires
        program_calls(eliminated(program), name),
        0 <= i < program.len(),
        program[i] is Function,
        program[i]->Function_0.name == name,
    ensures
        eliminated(program).contains(program[i]),
{
    let after = eliminated(program);
    let k = choose|k: int| 0 <= k < after.len() && item_calls(#[trigger] after[k], name);
    // The calling item was an item of the program, so the program calls
    // `name` as well.
    assert(after.contains(after[k]));
    lemma_eliminated_items_are_members(program, after[k]);
    let j = choose|j: int| 0 <= j < program.len() && program[j] == after[k];
    assert(item_calls(program[j], name));
    lemma_called_function_survives(program, i);
}

} // verus!
