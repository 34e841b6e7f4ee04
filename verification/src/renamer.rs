//! The identifier renamer.
//!
//! Every distinct source name gets one generated name, and no generated
//! name is handed out twice. The first candidate for a name is the name
//! itself; while the candidate is taken, a numeric suffix is appended and
//! counted up: `x`, `x_1`, `x_2`, … Later occurrences of a name reuse what
//! its first occurrence got. Names are visited in a fixed order: items in
//! declaration order, a function's name before its body, statements in body
//! order, the left operand before the right.
//!
//! A run that starts with no name taken never meets a collision, since
//! every name is free when it is first seen; it leaves the program as it
//! is. Suffixes appear when names were taken before the run.

use vstd::prelude::*;
use vstd::hash_map::StringHashMap;
use vstd::hash_set::StringHashSet;
use vstd::string::StringExecFns;
use crate::model::{
    Block, Expression, ExpressionView, Function, FunctionView, Item, ItemView, Program, Statement,
    StatementView,
};
use crate::text::{append_decimal, decimal, lemma_decimal_injective, lemma_decimal_len};

verus! {

/// The `attempt`-th candidate for `base`: the name itself, then the name
/// with `_1`, `_2`, … appended.
pub open spec fn candidate(base: Seq<char>, attempt: nat) -> Seq<char> {
    if attempt == 0 {
        base
    } else {
        base + seq!['_'] + decimal(attempt)
    }
}

/// `attempt` is the first whose candidate is not in `used`.
pub open spec fn is_first_free(used: Set<Seq<char>>, base: Seq<char>, attempt: nat) -> bool {
    &&& !used.contains(candidate(base, attempt))
    &&& forall|earlier: nat| earlier < attempt ==> used.contains(#[trigger] candidate(base, earlier))
}

/// The first candidate for `base` that is not in `used`.
pub open spec fn fresh_name(used: Set<Seq<char>>, base: Seq<char>) -> Seq<char> {
    candidate(base, choose|attempt: nat| is_first_free(used, base, attempt))
}

/// Different attempts give different candidates.
pub proof fn lemma_candidate_injective(base: Seq<char>, a: nat, b: nat)
    requires
        candidate(base, a) == candidate(base, b),
    ensures
        a == b,
{
    lemma_decimal_len(a);
    lemma_decimal_len(b);
    if a != 0 && b != 0 {
        let prefix = base + seq!['_'];
        assert(candidate(base, a).skip(prefix.len() as int) =~= decimal(a));
        assert(candidate(base, b).skip(prefix.len() as int) =~= decimal(b));
        lemma_decimal_injective(a, b);
    }
}

/// If the first `count` candidates are all taken, the set has at least
/// `count` members.
pub proof fn lemma_taken_candidates_bound(used: Set<Seq<char>>, base: Seq<char>, count: nat)
    requires
        used.finite(),
        forall|attempt: nat| attempt < count ==> used.contains(#[trigger] candidate(base, attempt)),
    ensures
        count <= used.len(),
    decreases count,
{
    if count > 0 {
        let last = candidate(base, (count - 1) as nat);
        let rest = used.remove(last);
        assert forall|attempt: nat| attempt < count - 1 implies rest.contains(
            #[trigger] candidate(base, attempt),
        ) by {
            if candidate(base, attempt) == last {
                lemma_candidate_injective(base, attempt, (count - 1) as nat);
            }
        }
        lemma_taken_candidates_bound(rest, base, (count - 1) as nat);
    }
}

/// There is at most one first free attempt.
pub proof fn lemma_first_free_unique(used: Set<Seq<char>>, base: Seq<char>, a: nat, b: nat)
    requires
        is_first_free(used, base, a),
        is_first_free(used, base, b),
    ensures
        a == b,
{
    if a < b {
        assert(used.contains(candidate(base, a)));
    }
    if b < a {
        assert(used.contains(candidate(base, b)));
    }
}

/// The fresh name is the candidate of the first free attempt.
pub proof fn lemma_fresh_name(used: Set<Seq<char>>, base: Seq<char>, attempt: nat)
    requires
        is_first_free(used, base, attempt),
    ensures
        fresh_name(used, base) == candidate(base, attempt),
{
    let chosen = choose|attempt: nat| is_first_free(used, base, attempt);
    lemma_first_free_unique(used, base, attempt, chosen);
}

/// Either some attempt up to `limit` is the first free one, or every
/// candidate up to `limit` is taken.
proof fn lemma_search(used: Set<Seq<char>>, base: Seq<char>, limit: nat)
    ensures
        (exists|attempt: nat| attempt <= limit && is_first_free(used, base, attempt)) || (forall|
            attempt: nat,
        |
            attempt <= limit ==> used.contains(#[trigger] candidate(base, attempt))),
    decreases limit,
{
    if limit == 0 {
        if !used.contains(candidate(base, 0)) {
            assert(is_first_free(used, base, 0));
        }
    } else {
        lemma_search(used, base, (limit - 1) as nat);
        if exists|attempt: nat| attempt <= limit - 1 && is_first_free(used, base, attempt) {
            let found = choose|attempt: nat|
                attempt <= limit - 1 && is_first_free(used, base, attempt);
            assert(found <= limit && is_first_free(used, base, found));
        } else if !used.contains(candidate(base, limit)) {
            assert(is_first_free(used, base, limit));
        }
    }
}

/// In a finite set of names some candidate is free, so the fresh name is
/// not in the set.
pub proof fn lemma_fresh_name_is_free(used: Set<Seq<char>>, base: Seq<char>)
    requires
        used.finite(),
    ensures
        !used.contains(fresh_name(used, base)),
        exists|attempt: nat| is_first_free(used, base, attempt),
{
    let limit = used.len();
    lemma_search(used, base, limit);
    if forall|attempt: nat| attempt <= limit ==> used.contains(#[trigger] candidate(base, attempt)) {
        lemma_taken_candidates_bound(used, base, limit + 1);
    }
    let found = choose|attempt: nat| attempt <= limit && is_first_free(used, base, attempt);
    lemma_fresh_name(used, base, found);
}

/// With nothing taken, a name is its own fresh name.
pub proof fn lemma_fresh_name_of_free_base(used: Set<Seq<char>>, base: Seq<char>)
    requires
        !used.contains(base),
    ensures
        fresh_name(used, base) == base,
{
    assert(is_first_free(used, base, 0));
    lemma_fresh_name(used, base, 0);
}

/// What a renamer knows: the generated name of every source name seen so
/// far, and every name that has been handed out.
pub struct Renaming {
    pub mapping: Map<Seq<char>, Seq<char>>,
    pub used: Set<Seq<char>>,
}

impl Renaming {
    /// Nothing seen, nothing handed out.
    pub open spec fn empty() -> Renaming {
        Renaming { mapping: Map::empty(), used: Set::empty() }
    }

    /// Finitely many names are taken, every generated name is among them,
    /// and no two source names share a generated name.
    pub open spec fn wf(self) -> bool {
        &&& self.used.finite()
        &&& forall|name: Seq<char>| #[trigger]
            self.mapping.contains_key(name) ==> self.used.contains(self.mapping[name])
        &&& forall|a: Seq<char>, b: Seq<char>|
            #![trigger self.mapping[a], self.mapping[b]]
            self.mapping.contains_key(a) && self.mapping.contains_key(b) && self.mapping[a]
                == self.mapping[b] ==> a == b
    }
}

/// Renames one occurrence of `name`: a name seen before gets what it got
/// then; a new name gets its fresh name, which is recorded.
pub open spec fn rename_name(state: Renaming, name: Seq<char>) -> (Renaming, Seq<char>) {
    if state.mapping.contains_key(name) {
        (state, state.mapping[name])
    } else {
        let generated = fresh_name(state.used, name);
        (
            Renaming {
                mapping: state.mapping.insert(name, generated),
                used: state.used.insert(generated),
            },
            generated,
        )
    }
}

/// Renames the names of an expression, the left operand before the right.
pub open spec fn rename_expression(state: Renaming, expression: ExpressionView) -> (
    Renaming,
    ExpressionView,
)
    decreases expression,
{
    match expression {
        ExpressionView::Identifier(name) => {
            let (state, name) = rename_name(state, name);
            (state, ExpressionView::Identifier(name))
        },
        ExpressionView::Call { callee, arguments } => {
            let (state, callee) = rename_name(state, callee);
            (state, ExpressionView::Call { callee, arguments })
        },
        ExpressionView::BinaryOp { op, left, right } => {
            let (state, left) = rename_expression(state, *left);
            let (state, right) = rename_expression(state, *right);
            (state, ExpressionView::BinaryOp { op, left: Box::new(left), right: Box::new(right) })
        },
        _ => (state, expression),
    }
}

/// Renames the names of an expression statement; other statements pass
/// through.
pub open spec fn rename_statement(state: Renaming, statement: StatementView) -> (
    Renaming,
    StatementView,
) {
    match statement {
        StatementView::ExpressionStatement(expression) => {
            let (state, expression) = rename_expression(state, expression);
            (state, StatementView::ExpressionStatement(expression))
        },
        StatementView::Opaque(_) => (state, statement),
    }
}

/// Renames the statements of a body in order.
pub open spec fn rename_block(state: Renaming, body: Seq<StatementView>) -> (
    Renaming,
    Seq<StatementView>,
)
    decreases body.len(),
{
    if body.len() == 0 {
        (state, body)
    } else {
        let (state, front) = rename_block(state, body.drop_last());
        let (state, last) = rename_statement(state, body.last());
        (state, front.push(last))
    }
}

/// Renames a function's name, then its body.
pub open spec fn rename_function(state: Renaming, function: FunctionView) -> (
    Renaming,
    FunctionView,
) {
    let (state, name) = rename_name(state, function.name);
    let (state, body) = rename_block(state, function.body);
    (state, FunctionView { name, body, ..function })
}

/// Renames a function item; other items pass through.
pub open spec fn rename_item(state: Renaming, item: ItemView) -> (Renaming, ItemView) {
    match item {
        ItemView::Function(function) => {
            let (state, function) = rename_function(state, function);
            (state, ItemView::Function(function))
        },
        ItemView::Opaque(_) => (state, item),
    }
}

/// Renames the items of a program in declaration order.
pub open spec fn rename_items(state: Renaming, program: Seq<ItemView>) -> (
    Renaming,
    Seq<ItemView>,
)
    decreases program.len(),
{
    if program.len() == 0 {
        (state, program)
    } else {
        let (state, front) = rename_items(state, program.drop_last());
        let (state, last) = rename_item(state, program.last());
        (state, front.push(last))
    }
}

/// The program as a renamer that has seen nothing leaves it.
pub open spec fn renamed(program: Seq<ItemView>) -> Seq<ItemView> {
    rename_items(Renaming::empty(), program).1
}

/// Collects the generated names of one run.
pub struct IdentifierRenamer {
    rename_map: StringHashMap<String>,
    used_identifiers: StringHashSet,
}

impl View for IdentifierRenamer {
    type V = Renaming;

    closed spec fn view(&self) -> Renaming {
        Renaming {
            mapping: self.rename_map@.map_values(|generated: String| generated@),
            used: self.used_identifiers@,
        }
    }
}

impl IdentifierRenamer {
    /// A renamer that has seen no name.
    pub fn new() -> (result: IdentifierRenamer)
        ensures
            result@ == Renaming::empty(),
            result@.wf(),
    {
        let result = IdentifierRenamer {
            rename_map: StringHashMap::new(),
            used_identifiers: StringHashSet::new(),
        };
        assert(result@.mapping =~= Map::empty());
        result
    }

    /// Hands out the first candidate for `base_name` that has not been
    /// handed out before, and records it as taken.
    pub fn generate_unique_name(&mut self, base_name: &str) -> (name: String)
        requires
            old(self)@.wf(),
        ensures
            name@ == fresh_name(old(self)@.used, base_name@),
            !old(self)@.used.contains(name@),
            final(self)@.used == old(self)@.used.insert(name@),
            final(self)@.mapping == old(self)@.mapping,
            final(self)@.wf(),
    {
        let taken = self.used_identifiers.len();
        let mut name = String::from_str(base_name);
        let mut attempt: usize = 0;
        while self.used_identifiers.contains(name.as_str())
            invariant
                self == old(self),
                self@.used.finite(),
                taken == self@.used.len(),
                attempt <= taken,
                name@ == candidate(base_name@, attempt as nat),
                forall|earlier: nat|
                    earlier < attempt ==> self@.used.contains(
                        #[trigger] candidate(base_name@, earlier),
                    ),
            decreases taken - attempt,
        {
            proof {
                lemma_taken_candidates_bound(self@.used, base_name@, (attempt + 1) as nat);
            }
            attempt += 1;
            name = String::from_str(base_name);
            name.append("_");
            append_decimal(&mut name, attempt as u64);
            proof {
                reveal_strlit("_");
            }
        }
        proof {
            assert(is_first_free(self@.used, base_name@, attempt as nat));
            lemma_fresh_name(self@.used, base_name@, attempt as nat);
        }
        self.used_identifiers.insert(name.clone());
        proof {
            // The generated names were taken before and still are.
            let before = old(self)@;
            let after = self@;
            assert(after.mapping == before.mapping);
            assert forall|source: Seq<char>| #[trigger]
                after.mapping.contains_key(source) implies after.used.contains(
                after.mapping[source],
            ) by {
                assert(before.used.contains(before.mapping[source]));
            }
        }
        name
    }

    /// Replaces the name in `ident` by its generated name.
    pub fn visit_ident_mut(&mut self, ident: &mut String)
        requires
            old(self)@.wf(),
        ensures
            (final(self)@, final(ident)@) == rename_name(old(self)@, old(ident)@),
            final(self)@.wf(),
    {
        let known = match self.rename_map.get(ident.as_str()) {
            Some(generated) => Some(generated.clone()),
            None => None,
        };
        match known {
            Some(generated) => {
                *ident = generated;
            },
            None => {
                let generated = self.generate_unique_name(ident.as_str());
                let mut source = generated.clone();
                std::mem::swap(ident, &mut source);
                self.rename_map.insert(source, generated);
                proof {
                    let before = old(self)@;
                    let name = old(ident)@;
                    assert(self@.mapping =~= before.mapping.insert(name, ident@));
                    assert forall|a: Seq<char>, b: Seq<char>|
                        self@.mapping.contains_key(a) && self@.mapping.contains_key(b)
                            && self@.mapping[a] == self@.mapping[b] implies a == b by {
                        // The new name was free, and what `before` maps to
                        // was taken.
                        if a == name && b != name {
                            assert(before.used.contains(before.mapping[b]));
                        }
                        if b == name && a != name {
                            assert(before.used.contains(before.mapping[a]));
                        }
                    }
                }
            },
        }
    }

    /// Renames every name of `expression`.
    pub fn visit_expression_mut(&mut self, expression: &mut Expression)
        requires
            old(self)@.wf(),
        ensures
            (final(self)@, final(expression)@) == rename_expression(old(self)@, old(expression)@),
            final(self)@.wf(),
        decreases *old(expression),
    {
        match expression {
            Expression::Identifier(name) => {
                self.visit_ident_mut(name);
            },
            Expression::Call { callee, arguments } => {
                self.visit_ident_mut(callee);
            },
            Expression::BinaryOp { op, left, right } => {
                self.visit_expression_mut(left);
                self.visit_expression_mut(right);
            },
            _ => {},
        }
    }

    /// Renames the names of an expression statement; other statements
    /// pass through.
    pub fn visit_statement_mut(&mut self, statement: &mut Statement)
        requires
            old(self)@.wf(),
        ensures
            (final(self)@, final(statement)@) == rename_statement(old(self)@, old(statement)@),
            final(self)@.wf(),
    {
        match statement {
            Statement::ExpressionStatement(expression) => {
                self.visit_expression_mut(expression);
            },
            Statement::Opaque(_) => {},
        }
    }

    /// Renames the statements of `block` in order.
    pub fn visit_block_mut(&mut self, block: &mut Block)
        requires
            old(self)@.wf(),
        ensures
            (final(self)@, final(block)@) == rename_block(old(self)@, old(block)@),
            final(self)@.wf(),
    {
        let mut statements: Vec<Statement> = Vec::new();
        std::mem::swap(&mut block.statements, &mut statements);
        let ghost views = statements@.map_values(|statement: Statement| statement@);
        let mut visited: Vec<Statement> = Vec::new();
        for statement in iter: statements
            invariant
                iter.seq() == statements@,
                views == statements@.map_values(|statement: Statement| statement@),
                self@.wf(),
                (self@, visited@.map_values(|statement: Statement| statement@)) == rename_block(
                    old(self)@,
                    views.take(iter.index() as int),
                ),
        {
            let mut statement = statement;
            self.visit_statement_mut(&mut statement);
            proof {
                let i = iter.index() as int;
                assert(views.take(i + 1).drop_last() =~= views.take(i));
                visited@.lemma_push_map_commute(|statement: Statement| statement@, statement);
            }
            visited.push(statement);
        }
        assert(views.take(statements@.len() as int) =~= views);
        block.statements = visited;
    }

    /// Renames a function's name, then the names in its body.
    pub fn visit_function_mut(&mut self, function: &mut Function)
        requires
            old(self)@.wf(),
        ensures
            (final(self)@, final(function)@) == rename_function(old(self)@, old(function)@),
            final(self)@.wf(),
    {
        self.visit_ident_mut(&mut function.name);
        self.visit_block_mut(&mut function.body);
    }

    /// Renames every name of the program, items in declaration order.
    pub fn visit_program_mut(&mut self, program: &mut Program)
        requires
            old(self)@.wf(),
        ensures
            (final(self)@, final(program)@) == rename_items(old(self)@, old(program)@),
            final(self)@.wf(),
    {
        let mut items: Vec<Item> = Vec::new();
        std::mem::swap(&mut program.items, &mut items);
        let ghost views = items@.map_values(|item: Item| item@);
        let mut visited: Vec<Item> = Vec::new();
        for item in iter: items
            invariant
                iter.seq() == items@,
                views == items@.map_values(|item: Item| item@),
                self@.wf(),
                (self@, visited@.map_values(|item: Item| item@)) == rename_items(
                    old(self)@,
                    views.take(iter.index() as int),
                ),
        {
            let ghost i = iter.index() as int;
            proof {
                assert(views.take(i + 1).drop_last() =~= views.take(i));
            }
            match item {
                Item::Function(function) => {
                    let mut function = function;
                    self.visit_function_mut(&mut function);
                    proof {
                        visited@.lemma_push_map_commute(
                            |item: Item| item@,
                            Item::Function(function),
                        );
                    }
                    visited.push(Item::Function(function));
                },
                other => {
                    proof {
                        visited@.lemma_push_map_commute(|item: Item| item@, other);
                    }
                    visited.push(other);
                },
            }
        }
        assert(views.take(items@.len() as int) =~= views);
        program.items = visited;
    }
}

/// Renames the program with a renamer of its own, which is discarded
/// afterwards.
pub fn rename_identifiers(program: &mut Program)
    ensures
        final(program)@ == renamed(old(program)@),
{
    let mut renamer = IdentifierRenamer::new();
    renamer.visit_program_mut(program);
}

/// Renaming a name keeps the renaming well formed: the name it hands out
/// is new unless the source name was seen before.
pub proof fn lemma_rename_name_wf(state: Renaming, name: Seq<char>)
    requires
        state.wf(),
    ensures
        rename_name(state, name).0.wf(),
{
    if !state.mapping.contains_key(name) {
        lemma_fresh_name_is_free(state.used, name);
        let after = rename_name(state, name).0;
        assert forall|a: Seq<char>, b: Seq<char>|
            after.mapping.contains_key(a) && after.mapping.contains_key(b) && after.mapping[a]
                == after.mapping[b] implies a == b by {
            // The fresh name was free, and what `state` maps to was taken.
            if a == name && b != name {
                assert(state.used.contains(state.mapping[b]));
            }
            if b == name && a != name {
                assert(state.used.contains(state.mapping[a]));
            }
        }
        assert forall|source: Seq<char>| #[trigger]
            after.mapping.contains_key(source) implies after.used.contains(
            after.mapping[source],
        ) by {
            if source != name {
                assert(state.used.contains(state.mapping[source]));
            }
        }
    }
}

proof fn lemma_rename_expression_wf(state: Renaming, expression: ExpressionView)
    requires
        state.wf(),
    ensures
        rename_expression(state, expression).0.wf(),
    decreases expression,
{
    match expression {
        ExpressionView::Identifier(name) => lemma_rename_name_wf(state, name),
        ExpressionView::Call { callee, arguments } => lemma_rename_name_wf(state, callee),
        ExpressionView::BinaryOp { op, left, right } => {
            lemma_rename_expression_wf(state, *left);
            lemma_rename_expression_wf(rename_expression(state, *left).0, *right);
        },
        _ => {},
    }
}

proof fn lemma_rename_block_wf(state: Renaming, body: Seq<StatementView>)
    requires
        state.wf(),
    ensures
        rename_block(state, body).0.wf(),
    decreases body.len(),
{
    if body.len() > 0 {
        lemma_rename_block_wf(state, body.drop_last());
        match body.last() {
            StatementView::ExpressionStatement(expression) => {
                lemma_rename_expression_wf(rename_block(state, body.drop_last()).0, expression);
            },
            StatementView::Opaque(_) => {},
        }
    }
}

proof fn lemma_rename_item_wf(state: Renaming, item: ItemView)
    requires
        state.wf(),
    ensures
        rename_item(state, item).0.wf(),
{
    match item {
        ItemView::Function(function) => {
            lemma_rename_name_wf(state, function.name);
            lemma_rename_block_wf(rename_name(state, function.name).0, function.body);
        },
        ItemView::Opaque(_) => {},
    }
}

/// Whatever program a well-formed renamer visits, the generated names stay
/// free of duplicates: no two source names share a generated name.
pub proof fn lemma_rename_items_wf(state: Renaming, program: Seq<ItemView>)
    requires
        state.wf(),
    ensures
        rename_items(state, program).0.wf(),
    decreases program.len(),
{
    if program.len() > 0 {
        lemma_rename_items_wf(state, program.drop_last());
        lemma_rename_item_wf(rename_items(state, program.drop_last()).0, program.last());
    }
}

/// One run, started with nothing seen, generates no name twice.
pub proof fn lemma_generated_names_are_unique(program: Seq<ItemView>, a: Seq<char>, b: Seq<char>)
    requires
        rename_items(Renaming::empty(), program).0.mapping.contains_key(a),
        rename_items(Renaming::empty(), program).0.mapping.contains_key(b),
        a != b,
    ensures
        rename_items(Renaming::empty(), program).0.mapping[a] != rename_items(
            Renaming::empty(),
            program,
        ).0.mapping[b],
{
    lemma_rename_items_wf(Renaming::empty(), program);
}

impl Renaming {
    /// Every name seen so far was handed out as itself, and nothing else
    /// was handed out.
    pub open spec fn is_identity(self) -> bool {
        &&& self.used == self.mapping.dom()
        &&& forall|name: Seq<char>| #[trigger]
            self.mapping.contains_key(name) ==> self.mapping[name] == name
    }
}

proof fn lemma_identity_name(state: Renaming, name: Seq<char>)
    requires
        state.is_identity(),
    ensures
        rename_name(state, name).0.is_identity(),
        rename_name(state, name).1 == name,
{
    if !state.mapping.contains_key(name) {
        lemma_fresh_name_of_free_base(state.used, name);
    }
}

proof fn lemma_identity_expression(state: Renaming, expression: ExpressionView)
    requires
        state.is_identity(),
    ensures
        rename_expression(state, expression).0.is_identity(),
        rename_expression(state, expression).1 == expression,
    decreases expression,
{
    match expression {
        ExpressionView::Identifier(name) => lemma_identity_name(state, name),
        ExpressionView::Call { callee, arguments } => lemma_identity_name(state, callee),
        ExpressionView::BinaryOp { op, left, right } => {
            lemma_identity_expression(state, *left);
            lemma_identity_expression(rename_expression(state, *left).0, *right);
        },
        _ => {},
    }
}

proof fn lemma_identity_block(state: Renaming, body: Seq<StatementView>)
    requires
        state.is_identity(),
    ensures
        rename_block(state, body).0.is_identity(),
        rename_block(state, body).1 == body,
    decreases body.len(),
{
    if body.len() > 0 {
        lemma_identity_block(state, body.drop_last());
        match body.last() {
            StatementView::ExpressionStatement(expression) => {
                lemma_identity_expression(rename_block(state, body.drop_last()).0, expression);
            },
            StatementView::Opaque(_) => {},
        }
    }
}

proof fn lemma_identity_item(state: Renaming, item: ItemView)
    requires
        state.is_identity(),
    ensures
        rename_item(state, item).0.is_identity(),
        rename_item(state, item).1 == item,
{
    match item {
        ItemView::Function(function) => {
            lemma_identity_name(state, function.name);
            lemma_identity_block(rename_name(state, function.name).0, function.body);
        },
        ItemView::Opaque(_) => {},
    }
}

/// A renamer that has handed out every name as itself, and nothing else,
/// leaves every program as it is and stays such a renamer.
pub proof fn lemma_identity_items(state: Renaming, program: Seq<ItemView>)
    requires
        state.is_identity(),
    ensures
        rename_items(state, program).0.is_identity(),
        rename_items(state, program).1 == program,
    decreases program.len(),
{
    if program.len() > 0 {
        lemma_identity_items(state, program.drop_last());
        lemma_identity_item(rename_items(state, program.drop_last()).0, program.last());
    }
}

/// A run that starts with nothing seen meets no collision: the first
/// candidate of every name, the name itself, is free, and the program is
/// left as it is.
pub proof fn lemma_renamed_is_unchanged(program: Seq<ItemView>)
    ensures
        renamed(program) == program,
{
    lemma_identity_items(Renaming::empty(), program);
}

/// A second run over a tree that any run has renamed is the identity
/// relabeling: every name stays as it is, so equal names stay equal,
/// distinct names stay distinct, and no new name comes up.
pub proof fn lemma_second_run_is_unchanged(state: Renaming, program: Seq<ItemView>)
    ensures
        renamed(rename_items(state, program).1) == rename_items(state, program).1,
        rename_items(Renaming::empty(), rename_items(state, program).1).0.is_identity(),
{
    assert(Renaming::empty().used =~= Renaming::empty().mapping.dom());
    lemma_identity_items(Renaming::empty(), rename_items(state, program).1);
}

/// Renaming what has been renamed introduces no new name.
pub proof fn lemma_rename_idempotent(program: Seq<ItemView>)
    ensures
        renamed(renamed(program)) == renamed(program),
{
    lemma_renamed_is_unchanged(program);
}

/// `later` knows every name that `earlier` knows, under the same generated
/// name.
pub open spec fn extends(later: Map<Seq<char>, Seq<char>>, earlier: Map<Seq<char>, Seq<char>>)
    -> bool {
    forall|name: Seq<char>| #[trigger]
        earlier.contains_key(name) ==> later.contains_key(name) && later[name] == earlier[name]
}

/// Every name of the expression has a generated name in `mapping`.
pub open spec fn expression_is_known(mapping: Map<Seq<char>, Seq<char>>, expression: ExpressionView)
    -> bool
    decreases expression,
{
    match expression {
        ExpressionView::Identifier(name) => mapping.contains_key(name),
        ExpressionView::Call { callee, arguments } => mapping.contains_key(callee),
        ExpressionView::BinaryOp { op, left, right } => expression_is_known(mapping, *left)
            && expression_is_known(mapping, *right),
        _ => true,
    }
}

/// The expression with every name replaced by what `mapping` gives for it.
pub open spec fn relabel_expression(mapping: Map<Seq<char>, Seq<char>>, expression: ExpressionView)
    -> ExpressionView
    decreases expression,
{
    match expression {
        ExpressionView::Identifier(name) => ExpressionView::Identifier(mapping[name]),
        ExpressionView::Call { callee, arguments } => ExpressionView::Call {
            callee: mapping[callee],
            arguments,
        },
        ExpressionView::BinaryOp { op, left, right } => ExpressionView::BinaryOp {
            op,
            left: Box::new(relabel_expression(mapping, *left)),
            right: Box::new(relabel_expression(mapping, *right)),
        },
        _ => expression,
    }
}

/// Every name of the statement has a generated name in `mapping`.
pub open spec fn statement_is_known(mapping: Map<Seq<char>, Seq<char>>, statement: StatementView)
    -> bool {
    match statement {
        StatementView::ExpressionStatement(expression) => expression_is_known(mapping, expression),
        StatementView::Opaque(_) => true,
    }
}

/// The statement with every name replaced by what `mapping` gives for it.
pub open spec fn relabel_statement(mapping: Map<Seq<char>, Seq<char>>, statement: StatementView)
    -> StatementView {
    match statement {
        StatementView::ExpressionStatement(expression) => StatementView::ExpressionStatement(
            relabel_expression(mapping, expression),
        ),
        StatementView::Opaque(_) => statement,
    }
}

/// Every name of the body has a generated name in `mapping`.
pub open spec fn block_is_known(mapping: Map<Seq<char>, Seq<char>>, body: Seq<StatementView>)
    -> bool {
    forall|i: int| 0 <= i < body.len() ==> statement_is_known(mapping, #[trigger] body[i])
}

/// The body with every name replaced by what `mapping` gives for it.
pub open spec fn relabel_block(mapping: Map<Seq<char>, Seq<char>>, body: Seq<StatementView>)
    -> Seq<StatementView> {
    body.map_values(|statement: StatementView| relabel_statement(mapping, statement))
}

/// Every name of the item has a generated name in `mapping`.
pub open spec fn item_is_known(mapping: Map<Seq<char>, Seq<char>>, item: ItemView) -> bool {
    match item {
        ItemView::Function(function) => mapping.contains_key(function.name) && block_is_known(
            mapping,
            function.body,
        ),
        ItemView::Opaque(_) => true,
    }
}

/// The item with every name replaced by what `mapping` gives for it.
pub open spec fn relabel_item(mapping: Map<Seq<char>, Seq<char>>, item: ItemView) -> ItemView {
    match item {
        ItemView::Function(function) => ItemView::Function(
            FunctionView {
                name: mapping[function.name],
                body: relabel_block(mapping, function.body),
                ..function
            },
        ),
        ItemView::Opaque(_) => item,
    }
}

/// Every name of the program has a generated name in `mapping`.
pub open spec fn program_is_known(mapping: Map<Seq<char>, Seq<char>>, program: Seq<ItemView>)
    -> bool {
    forall|i: int| 0 <= i < program.len() ==> item_is_known(mapping, #[trigger] program[i])
}

/// The program with every name replaced by what `mapping` gives for it.
pub open spec fn relabel_program(mapping: Map<Seq<char>, Seq<char>>, program: Seq<ItemView>)
    -> Seq<ItemView> {
    program.map_values(|item: ItemView| relabel_item(mapping, item))
}

proof fn lemma_relabel_expression_stable(
    earlier: Map<Seq<char>, Seq<char>>,
    later: Map<Seq<char>, Seq<char>>,
    expression: ExpressionView,
)
    requires
        extends(later, earlier),
        expression_is_known(earlier, expression),
    ensures
        expression_is_known(later, expression),
        relabel_expression(later, expression) == relabel_expression(earlier, expression),
    decreases expression,
{
    match expression {
        ExpressionView::BinaryOp { op, left, right } => {
            lemma_relabel_expression_stable(earlier, later, *left);
            lemma_relabel_expression_stable(earlier, later, *right);
        },
        _ => {},
    }
}

proof fn lemma_relabel_block_stable(
    earlier: Map<Seq<char>, Seq<char>>,
    later: Map<Seq<char>, Seq<char>>,
    body: Seq<StatementView>,
)
    requires
        extends(later, earlier),
        block_is_known(earlier, body),
    ensures
        block_is_known(later, body),
        relabel_block(later, body) == relabel_block(earlier, body),
{
    assert forall|i: int| 0 <= i < body.len() implies statement_is_known(later, #[trigger] body[i])
        && relabel_statement(later, body[i]) == relabel_statement(earlier, body[i]) by {
        match body[i] {
            StatementView::ExpressionStatement(expression) => {
                lemma_relabel_expression_stable(earlier, later, expression);
            },
            StatementView::Opaque(_) => {},
        }
    }
}

proof fn lemma_relabel_program_stable(
    earlier: Map<Seq<char>, Seq<char>>,
    later: Map<Seq<char>, Seq<char>>,
    program: Seq<ItemView>,
)
    requires
        extends(later, earlier),
        program_is_known(earlier, program),
    ensures
        program_is_known(later, program),
        relabel_program(later, program) == relabel_program(earlier, program),
{
    assert forall|i: int| 0 <= i < program.len() implies item_is_known(
        later,
        #[trigger] program[i],
    ) && relabel_item(later, program[i]) == relabel_item(earlier, program[i]) by {
        match program[i] {
            ItemView::Function(function) => {
                lemma_relabel_block_stable(earlier, later, function.body);
            },
            ItemView::Opaque(_) => {},
        }
    }
}

proof fn lemma_relabel_expression(state: Renaming, expression: ExpressionView)
    ensures
        extends(rename_expression(state, expression).0.mapping, state.mapping),
        expression_is_known(rename_expression(state, expression).0.mapping, expression),
        rename_expression(state, expression).1 == relabel_expression(
            rename_expression(state, expression).0.mapping,
            expression,
        ),
    decreases expression,
{
    match expression {
        ExpressionView::BinaryOp { op, left, right } => {
            let middle = rename_expression(state, *left).0;
            let after = rename_expression(middle, *right).0;
            lemma_relabel_expression(state, *left);
            lemma_relabel_expression(middle, *right);
            lemma_relabel_expression_stable(middle.mapping, after.mapping, *left);
        },
        _ => {},
    }
}

proof fn lemma_relabel_block(state: Renaming, body: Seq<StatementView>)
    ensures
        extends(rename_block(state, body).0.mapping, state.mapping),
        block_is_known(rename_block(state, body).0.mapping, body),
        rename_block(state, body).1 == relabel_block(rename_block(state, body).0.mapping, body),
    decreases body.len(),
{
    if body.len() > 0 {
        let front = body.drop_last();
        let middle = rename_block(state, front).0;
        let after = rename_statement(middle, body.last()).0;
        lemma_relabel_block(state, front);
        match body.last() {
            StatementView::ExpressionStatement(expression) => {
                lemma_relabel_expression(middle, expression);
            },
            StatementView::Opaque(_) => {},
        }
        lemma_relabel_block_stable(middle.mapping, after.mapping, front);
        assert forall|i: int| 0 <= i < body.len() implies statement_is_known(
            after.mapping,
            #[trigger] body[i],
        ) by {
            if i < front.len() {
                assert(statement_is_known(after.mapping, front[i]));
            }
        }
    }
}

proof fn lemma_relabel_item(state: Renaming, item: ItemView)
    ensures
        extends(rename_item(state, item).0.mapping, state.mapping),
        item_is_known(rename_item(state, item).0.mapping, item),
        rename_item(state, item).1 == relabel_item(rename_item(state, item).0.mapping, item),
{
    match item {
        ItemView::Function(function) => {
            let middle = rename_name(state, function.name).0;
            let after = rename_block(middle, function.body).0;
            lemma_relabel_block(middle, function.body);
            assert(middle.mapping.contains_key(function.name));
            assert(extends(after.mapping, state.mapping)) by {
                assert forall|name: Seq<char>| #[trigger]
                    state.mapping.contains_key(name) implies after.mapping.contains_key(name)
                    && after.mapping[name] == state.mapping[name] by {
                    assert(middle.mapping.contains_key(name));
                }
            }
        },
        ItemView::Opaque(_) => {},
    }
}

/// Renaming is a consistent relabeling: the generated names of names seen
/// before stay as they were, every name of the program has a generated
/// name at the end, and the renamed program is the program that was
/// visited with each name replaced by its generated name.
pub proof fn lemma_rename_is_relabeling(state: Renaming, program: Seq<ItemView>)
    ensures
        extends(rename_items(state, program).0.mapping, state.mapping),
        program_is_known(rename_items(state, program).0.mapping, program),
        rename_items(state, program).1 == relabel_program(
            rename_items(state, program).0.mapping,
            program,
        ),
    decreases program.len(),
{
    if program.len() > 0 {
        let front = program.drop_last();
        let middle = rename_items(state, front).0;
        let after = rename_item(middle, program.last()).0;
        lemma_rename_is_relabeling(state, front);
        lemma_relabel_item(middle, program.last());
        lemma_relabel_program_stable(middle.mapping, after.mapping, front);
        assert forall|i: int| 0 <= i < program.len() implies item_is_known(
            after.mapping,
            #[trigger] program[i],
        ) by {
            if i < front.len() {
                assert(item_is_known(after.mapping, front[i]));
            }
        }
    }
}

} // verus!
