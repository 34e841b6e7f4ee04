//! The pipeline driver: the passes in their fixed order.
//!
//! One tree goes through the renamer, the extractor, the marker and
//! eliminator, the folder and the reorderer, in that order. Every per-run
//! structure lives inside the call, so equal inputs give equal outputs.

use vstd::prelude::*;
use crate::eliminator::{
    block_calls, called_names, eliminate_dead_code, eliminated, entry_point, expression_calls,
    is_retained, item_calls, lemma_called_function_survives, lemma_eliminated_items_are_members,
    program_calls, statement_calls,
};
use crate::extractor::{
    call_body, extract_functions, extracted, helper_name, helper_suffix, lemma_extract_nothing,
    lemma_oversized_is_split, needs_split, DEFAULT_THRESHOLD,
};
use crate::folder::{
    folded, folded_block, folded_item, folded_program, lemma_fold_item_idempotent,
    simplify_expressions,
};
use crate::model::{ExpressionView, ItemView, Program, StatementView};
use crate::parser::{parse_code, parsed_program, ParseError};
use crate::printer::{print_program, program_text};
use crate::renamer::{lemma_renamed_is_unchanged, rename_identifiers, renamed};
use crate::reorder::{
    lemma_reorder_idempotent, lemma_reordered_is_permutation, reorder_functions, reordered,
};

verus! {

/// The program after the whole pipeline.
pub open spec fn refactored(program: Seq<ItemView>) -> Seq<ItemView> {
    reordered(
        folded_program(eliminated(extracted(renamed(program), DEFAULT_THRESHOLD as nat))),
    )
}

/// Runs the passes over the program: rename, extract, eliminate, fold,
/// reorder.
pub fn refactor_program(program: &mut Program)
    ensures
        final(program)@ == refactored(old(program)@),
{
    rename_identifiers(program);
    extract_functions(program);
    eliminate_dead_code(program);
    simplify_expressions(program);
    reorder_functions(program);
}

/// The text that the pipeline makes of `source`, or the parser's message.
pub open spec fn refactored_text(source: Seq<char>) -> Result<Seq<char>, Seq<char>> {
    match parsed_program(source) {
        Ok(program) => Ok(program_text(refactored(program))),
        Err(message) => Err(message),
    }
}

/// Refactors source text: parse, run the passes, print.
///
/// If the text does not parse, the parser's error is handed on as it is
/// and no pass runs. The result depends on `code` alone.
pub fn refactor_code(code: &str) -> (result: Result<String, ParseError>)
    ensures
        match result {
            Ok(text) => refactored_text(code@) == Ok::<Seq<char>, Seq<char>>(text@),
            Err(error) => refactored_text(code@) == Err::<Seq<char>, Seq<char>>(error@),
        },
{
    match parse_code(code) {
        Ok(program) => {
            let mut program = program;
            refactor_program(&mut program);
            Ok(print_program(&program))
        },
        Err(error) => Err(error),
    }
}

/// No function of the program has more statements than the threshold.
pub open spec fn is_within_threshold(program: Seq<ItemView>, threshold: nat) -> bool {
    forall|i: int| 0 <= i < program.len() ==> !needs_split(#[trigger] program[i], threshold)
}

/// Every function of the program is the entry point or the callee of a
/// call in the program.
pub open spec fn every_function_is_used(program: Seq<ItemView>) -> bool {
    forall|i: int|
        0 <= i < program.len() ==> is_retained(#[trigger] program[i], called_names(program))
}

/// The program gives the extractor nothing to split, and what elimination
/// leaves of it calls every function that is left.
pub open spec fn is_settled(program: Seq<ItemView>) -> bool {
    &&& is_within_threshold(program, DEFAULT_THRESHOLD as nat)
    &&& every_function_is_used(eliminated(program))
}

proof fn lemma_filter_all<A>(items: Seq<A>, keep: spec_fn(A) -> bool)
    requires
        forall|i: int| 0 <= i < items.len() ==> keep(#[trigger] items[i]),
    ensures
        items.filter(keep) == items,
    decreases items.len(),
{
    if items.len() == 0 {
        assert(items.filter(keep) =~= items) by {
            items.lemma_filter_len(keep);
        }
    } else {
        let front = items.drop_last();
        assert forall|i: int| 0 <= i < front.len() implies keep(#[trigger] front[i]) by {
            assert(front[i] == items[i]);
        }
        lemma_filter_all(front, keep);
        front.lemma_filter_push(items.last(), keep);
        assert(front.push(items.last()) =~= items);
    }
}

proof fn lemma_fold_keeps_calls(expression: ExpressionView, name: Seq<char>)
    ensures
        expression_calls(folded(expression), name) == expression_calls(expression, name),
    decreases expression,
{
    match expression {
        ExpressionView::BinaryOp { op, left, right } => {
            lemma_fold_keeps_calls(*left, name);
            lemma_fold_keeps_calls(*right, name);
        },
        _ => {},
    }
}

proof fn lemma_fold_item_keeps_calls(item: ItemView, name: Seq<char>)
    ensures
        item_calls(folded_item(item), name) == item_calls(item, name),
{
    match item {
        ItemView::Function(function) => {
            let body = function.body;
            let after = folded_block(body);
            assert forall|i: int| 0 <= i < body.len() implies statement_calls(after[i], name)
                == statement_calls(body[i], name) by {
                match body[i] {
                    StatementView::ExpressionStatement(expression) => {
                        lemma_fold_keeps_calls(expression, name);
                    },
                    StatementView::Opaque(_) => {},
                }
            }
            if block_calls(body, name) {
                let i = choose|i: int|
                    0 <= i < body.len() && statement_calls(#[trigger] body[i], name);
                assert(statement_calls(after[i], name));
            }
            if block_calls(after, name) {
                let i = choose|i: int|
                    0 <= i < after.len() && statement_calls(#[trigger] after[i], name);
                assert(statement_calls(body[i], name));
            }
        },
        ItemView::Opaque(_) => {},
    }
}

/// Folding removes no call and adds none.
pub proof fn lemma_fold_program_keeps_calls(program: Seq<ItemView>, name: Seq<char>)
    ensures
        program_calls(folded_program(program), name) == program_calls(program, name),
{
    let after = folded_program(program);
    assert forall|i: int| 0 <= i < program.len() implies item_calls(after[i], name) == item_calls(
        program[i],
        name,
    ) by {
        lemma_fold_item_keeps_calls(program[i], name);
    }
    if program_calls(program, name) {
        let i = choose|i: int| 0 <= i < program.len() && item_calls(#[trigger] program[i], name);
        assert(item_calls(after[i], name));
    }
    if program_calls(after, name) {
        let i = choose|i: int| 0 <= i < after.len() && item_calls(#[trigger] after[i], name);
        assert(item_calls(program[i], name));
    }
}

proof fn lemma_reordered_members(program: Seq<ItemView>, item: ItemView)
    ensures
        reordered(program).contains(item) == program.contains(item),
{
    lemma_reordered_is_permutation(program);
    vstd::seq_lib::to_multiset_contains(program, item);
    vstd::seq_lib::to_multiset_contains(reordered(program), item);
}

/// Reordering removes no call and adds none.
pub proof fn lemma_reorder_keeps_calls(program: Seq<ItemView>, name: Seq<char>)
    ensures
        program_calls(reordered(program), name) == program_calls(program, name),
{
    let after = reordered(program);
    if program_calls(program, name) {
        let i = choose|i: int| 0 <= i < program.len() && item_calls(#[trigger] program[i], name);
        assert(program.contains(program[i]));
        lemma_reordered_members(program, program[i]);
        let j = choose|j: int| 0 <= j < after.len() && after[j] == program[i];
        assert(item_calls(after[j], name));
    }
    if program_calls(after, name) {
        let i = choose|i: int| 0 <= i < after.len() && item_calls(#[trigger] after[i], name);
        assert(after.contains(after[i]));
        lemma_reordered_members(program, after[i]);
        let j = choose|j: int| 0 <= j < program.len() && program[j] == after[i];
        assert(item_calls(program[j], name));
    }
}

/// On a settled program the pipeline reaches a fixed point at once: a
/// second run over the result of the first changes nothing.
pub proof fn lemma_refactor_idempotent(program: Seq<ItemView>)
    requires
        is_settled(program),
    ensures
        refactored(refactored(program)) == refactored(program),
{
    let threshold = DEFAULT_THRESHOLD as nat;
    let kept = eliminated(program);
    let reduced = folded_program(kept);
    let result = reordered(reduced);
    lemma_renamed_is_unchanged(program);
    lemma_extract_nothing(program, threshold);
    assert(refactored(program) == result);
    // Every item of the result is the folded form of an item that
    // elimination kept, which was an item of the program.
    assert forall|i: int| 0 <= i < result.len() implies exists|j: int|
        0 <= j < kept.len() && #[trigger] result[i] == folded_item(#[trigger] kept[j]) by {
        assert(result.contains(result[i]));
        lemma_reordered_members(reduced, result[i]);
        let j = choose|j: int| 0 <= j < reduced.len() && reduced[j] == result[i];
        assert(result[i] == folded_item(kept[j]));
    }
    lemma_renamed_is_unchanged(result);
    assert(is_within_threshold(result, threshold)) by {
        assert forall|i: int| 0 <= i < result.len() implies !needs_split(
            #[trigger] result[i],
            threshold,
        ) by {
            let j = choose|j: int| 0 <= j < kept.len() && result[i] == folded_item(kept[j]);
            assert(kept.contains(kept[j]));
            lemma_eliminated_items_are_members(program, kept[j]);
            let k = choose|k: int| 0 <= k < program.len() && program[k] == kept[j];
            assert(!needs_split(program[k], threshold));
        }
    }
    lemma_extract_nothing(result, threshold);
    let keep = |item: ItemView| is_retained(item, called_names(result));
    assert forall|i: int| 0 <= i < result.len() implies keep(#[trigger] result[i]) by {
        let j = choose|j: int| 0 <= j < kept.len() && result[i] == folded_item(kept[j]);
        assert(is_retained(kept[j], called_names(kept)));
        match kept[j] {
            ItemView::Function(function) => {
                if function.name != entry_point() {
                    lemma_fold_program_keeps_calls(kept, function.name);
                    lemma_reorder_keeps_calls(reduced, function.name);
                }
            },
            ItemView::Opaque(_) => {},
        }
    }
    lemma_filter_all(result, keep);
    assert(eliminated(result) == result);
    assert forall|i: int| 0 <= i < result.len() implies folded_item(result[i]) == result[i] by {
        let j = choose|j: int| 0 <= j < kept.len() && result[i] == folded_item(kept[j]);
        lemma_fold_item_idempotent(kept[j]);
    }
    assert(folded_program(result) =~= result);
    lemma_reorder_idempotent(reduced);
}

/// The length of the longest name among the oversized functions, zero if
/// there is none.
pub open spec fn longest_oversized_name(program: Seq<ItemView>, threshold: nat) -> nat
    decreases program.len(),
{
    if program.len() == 0 {
        0
    } else {
        let rest = longest_oversized_name(program.drop_last(), threshold);
        if needs_split(program.last(), threshold) && program.last()->Function_0.name.len()
            > rest {
            program.last()->Function_0.name.len()
        } else {
            rest
        }
    }
}

proof fn lemma_longest_bounds(program: Seq<ItemView>, threshold: nat, i: int)
    requires
        0 <= i < program.len(),
        needs_split(program[i], threshold),
    ensures
        program[i]->Function_0.name.len() <= longest_oversized_name(program, threshold),
    decreases program.len(),
{
    if i < program.len() - 1 {
        assert(program.drop_last()[i] == program[i]);
        lemma_longest_bounds(program.drop_last(), threshold, i);
    }
}

proof fn lemma_longest_is_attained(program: Seq<ItemView>, threshold: nat) -> (i: int)
    requires
        !is_within_threshold(program, threshold),
    ensures
        0 <= i < program.len(),
        needs_split(program[i], threshold),
        program[i]->Function_0.name.len() == longest_oversized_name(program, threshold),
    decreases program.len(),
{
    let front = program.drop_last();
    let rest = longest_oversized_name(front, threshold);
    if needs_split(program.last(), threshold) && program.last()->Function_0.name.len() > rest {
        program.len() - 1
    } else if is_within_threshold(front, threshold) {
        // Only the last item is oversized, and its name is empty.
        let j = choose|j: int| 0 <= j < program.len() && needs_split(program[j], threshold);
        if j < front.len() {
            assert(needs_split(front[j], threshold));
        }
        assert(rest == 0) by {
            lemma_longest_of_none(front, threshold);
        }
        program.len() - 1
    } else {
        let i = lemma_longest_is_attained(front, threshold);
        assert(front[i] == program[i]);
        i
    }
}

proof fn lemma_longest_of_none(program: Seq<ItemView>, threshold: nat)
    requires
        is_within_threshold(program, threshold),
    ensures
        longest_oversized_name(program, threshold) == 0,
    decreases program.len(),
{
    if program.len() > 0 {
        let front = program.drop_last();
        assert forall|i: int| 0 <= i < front.len() implies !needs_split(
            #[trigger] front[i],
            threshold,
        ) by {
            assert(front[i] == program[i]);
        }
        lemma_longest_of_none(front, threshold);
        assert(!needs_split(program[program.len() - 1], threshold));
    }
}

/// The helper of an oversized function is still there when the pipeline is
/// done, and it is as long as the function was.
pub proof fn lemma_helper_survives(program: Seq<ItemView>, i: int) -> (k: int)
    requires
        0 <= i < program.len(),
        needs_split(program[i], DEFAULT_THRESHOLD as nat),
    ensures
        0 <= k < refactored(program).len(),
        needs_split(refactored(program)[k], DEFAULT_THRESHOLD as nat),
        refactored(program)[k]->Function_0.name == helper_name(program[i]->Function_0.name),
{
    let threshold = DEFAULT_THRESHOLD as nat;
    let function = program[i]->Function_0;
    let name = helper_name(function.name);
    lemma_renamed_is_unchanged(program);
    let split = extracted(program, threshold);
    let at = lemma_oversized_is_split(program, threshold, i);
    assert(item_calls(split[i], name)) by {
        let body = call_body(name);
        assert(statement_calls(body[0], name));
    }
    lemma_called_function_survives(split, at);
    let kept = eliminated(split);
    let j = choose|j: int| 0 <= j < kept.len() && kept[j] == split[at];
    let reduced = folded_program(kept);
    assert(reduced[j] == folded_item(split[at]));
    assert(reduced.contains(reduced[j]));
    lemma_reordered_members(reduced, reduced[j]);
    let result = reordered(reduced);
    let k = choose|k: int| 0 <= k < result.len() && result[k] == reduced[j];
    k
}

/// A program with an oversized function never settles: each run leaves a
/// helper that the next run splits again.
proof fn lemma_oversized_is_not_fixed(program: Seq<ItemView>)
    requires
        !is_within_threshold(program, DEFAULT_THRESHOLD as nat),
    ensures
        refactored(refactored(program)) != refactored(program),
{
    let threshold = DEFAULT_THRESHOLD as nat;
    let i = choose|i: int|
        0 <= i < program.len() && needs_split(#[trigger] program[i], threshold);
    let once = refactored(program);
    // The first run leaves a helper that is oversized. Of the oversized
    // functions it leaves, take one with a longest name: the second run
    // leaves its helper, whose name is longer still.
    let k = lemma_helper_survives(program, i);
    assert(needs_split(once[k], threshold));
    let longest = lemma_longest_is_attained(once, threshold);
    let twice = refactored(once);
    let next = lemma_helper_survives(once, longest);
    if twice == once {
        lemma_longest_bounds(once, threshold, next);
        assert(helper_suffix().len() == 10) by {
            reveal_strlit("_extracted");
        }
    }
}

/// If elimination leaves a function that nothing left calls, the next run
/// removes it.
proof fn lemma_unused_survivor_is_not_fixed(program: Seq<ItemView>)
    requires
        is_within_threshold(program, DEFAULT_THRESHOLD as nat),
        !every_function_is_used(eliminated(program)),
    ensures
        refactored(refactored(program)) != refactored(program),
{
    let threshold = DEFAULT_THRESHOLD as nat;
    let kept = eliminated(program);
    let reduced = folded_program(kept);
    let once = reordered(reduced);
    lemma_renamed_is_unchanged(program);
    lemma_extract_nothing(program, threshold);
    assert(refactored(program) == once);
    let j = choose|j: int|
        0 <= j < kept.len() && !is_retained(#[trigger] kept[j], called_names(kept));
    let name = kept[j]->Function_0.name;
    lemma_fold_program_keeps_calls(kept, name);
    lemma_reorder_keeps_calls(reduced, name);
    assert(!program_calls(once, name));
    let gone = reduced[j];
    assert(gone == folded_item(kept[j]));
    assert(reduced.contains(gone));
    lemma_reordered_members(reduced, gone);
    assert(once.contains(gone));
    let twice = refactored(once);
    if twice == once {
        lemma_renamed_is_unchanged(once);
        lemma_within_threshold_is_kept(program);
        lemma_extract_nothing(once, threshold);
        let kept_again = eliminated(once);
        let reduced_again = folded_program(kept_again);
        lemma_reordered_members(reduced_again, gone);
        let a = choose|a: int| 0 <= a < reduced_again.len() && reduced_again[a] == gone;
        assert(gone == folded_item(kept_again[a]));
        once.lemma_filter_pred(|item: ItemView| is_retained(item, called_names(once)), a);
    }
}

/// The pipeline keeps every function within the threshold if every
/// function was within it.
proof fn lemma_within_threshold_is_kept(program: Seq<ItemView>)
    requires
        is_within_threshold(program, DEFAULT_THRESHOLD as nat),
    ensures
        is_within_threshold(refactored(program), DEFAULT_THRESHOLD as nat),
{
    let threshold = DEFAULT_THRESHOLD as nat;
    let kept = eliminated(program);
    let reduced = folded_program(kept);
    let result = reordered(reduced);
    lemma_renamed_is_unchanged(program);
    lemma_extract_nothing(program, threshold);
    assert forall|i: int| 0 <= i < result.len() implies !needs_split(
        #[trigger] result[i],
        threshold,
    ) by {
        assert(result.contains(result[i]));
        lemma_reordered_members(reduced, result[i]);
        let j = choose|j: int| 0 <= j < reduced.len() && reduced[j] == result[i];
        assert(result[i] == folded_item(kept[j]));
        assert(kept.contains(kept[j]));
        lemma_eliminated_items_are_members(program, kept[j]);
        let k = choose|k: int| 0 <= k < program.len() && program[k] == kept[j];
        assert(!needs_split(program[k], threshold));
    }
}

/// The pipeline reaches a fixed point with its first run exactly on the
/// settled programs: on every other program the second run changes the
/// result of the first.
pub proof fn lemma_fixed_point_iff_settled(program: Seq<ItemView>)
    ensures
        refactored(refactored(program)) == refactored(program) <==> is_settled(program),
{
    if is_settled(program) {
        lemma_refactor_idempotent(program);
    } else if !is_within_threshold(program, DEFAULT_THRESHOLD as nat) {
        lemma_oversized_is_not_fixed(program);
    } else {
        lemma_unused_survivor_is_not_fixed(program);
    }
}

} // verus!
