//! The reorderer: a stable sort of the items by a fixed key.
//!
//! Items whose name does not start with an underscore come first, the
//! others after them. Inside a group, functions are ordered by name,
//! ascending, character by character. An item that is not a function counts
//! as an item of the first group with an empty name, so it stands before
//! every named function. Items with equal keys keep their relative order.
//! Nothing is added, removed or changed.

use vstd::prelude::*;
use crate::model::{Item, ItemView, Program};

verus! {

/// The name starts with an underscore.
pub open spec fn is_underscored(name: Seq<char>) -> bool {
    name.len() > 0 && name[0] == '_'
}

/// `a` is not behind `b` in lexicographic order of the characters.
pub open spec fn name_le(a: Seq<char>, b: Seq<char>) -> bool
    decreases a.len(),
{
    if a.len() == 0 {
        true
    } else if b.len() == 0 {
        false
    } else if a[0] != b[0] {
        a[0] < b[0]
    } else {
        name_le(a.drop_first(), b.drop_first())
    }
}

/// The key of an item: whether it belongs to the underscore group, and the
/// name by which it is ordered inside its group.
pub open spec fn sort_key(item: ItemView) -> (bool, Seq<char>) {
    match item {
        ItemView::Function(function) => (is_underscored(function.name), function.name),
        ItemView::Opaque(_) => (false, Seq::<char>::empty()),
    }
}

/// Order of the keys: the group first, then the name.
pub open spec fn key_le(a: (bool, Seq<char>), b: (bool, Seq<char>)) -> bool {
    if a.0 != b.0 {
        !a.0
    } else {
        name_le(a.1, b.1)
    }
}

/// `a` may stand before `b`.
pub open spec fn item_le(a: ItemView, b: ItemView) -> bool {
    key_le(sort_key(a), sort_key(b))
}

/// `item` put into `items` behind the last item that may stand before it.
pub open spec fn inserted(items: Seq<ItemView>, item: ItemView) -> Seq<ItemView>
    decreases items.len(),
{
    if items.len() == 0 {
        seq![item]
    } else if item_le(items.last(), item) {
        items.push(item)
    } else {
        inserted(items.drop_last(), item).push(items.last())
    }
}

/// The items in order: each item, in declaration order, is inserted into
/// what the items before it have become.
pub open spec fn reordered(program: Seq<ItemView>) -> Seq<ItemView>
    decreases program.len(),
{
    if program.len() == 0 {
        program
    } else {
        inserted(reordered(program.drop_last()), program.last())
    }
}

/// Every item may stand before each item behind it.
pub open spec fn is_ordered(items: Seq<ItemView>) -> bool {
    forall|i: int, j: int| 0 <= i < j < items.len() ==> item_le(items[i], items[j])
}

struct SortKey {
    underscored: bool,
    name: Vec<char>,
}

impl View for SortKey {
    type V = (bool, Seq<char>);

    closed spec fn view(&self) -> (bool, Seq<char>) {
        (self.underscored, self.name@)
    }
}

fn characters(text: &str) -> (result: Vec<char>)
    ensures
        result@ == text@,
{
    let mut result: Vec<char> = Vec::new();
    for character in iter: text.chars()
        invariant
            iter.seq() == text@,
            result@ == text@.take(iter.index() as int),
    {
        proof {
            text@.lemma_take_succ_push(iter.index() as int);
        }
        result.push(character);
    }
    result
}

fn name_precedes(a: &Vec<char>, b: &Vec<char>) -> (result: bool)
    ensures
        result == name_le(a@, b@),
{
    let mut index: usize = 0;
    assert(a@.skip(0) =~= a@ && b@.skip(0) =~= b@);
    while index < a.len() && index < b.len() && a[index] == b[index]
        invariant
            index <= a.len(),
            index <= b.len(),
            name_le(a@, b@) == name_le(a@.skip(index as int), b@.skip(index as int)),
        decreases a.len() - index,
    {
        proof {
            let i = index as int;
            assert(a@.skip(i).drop_first() =~= a@.skip(i + 1));
            assert(b@.skip(i).drop_first() =~= b@.skip(i + 1));
        }
        index += 1;
    }
    proof {
        // What is left starts where the names differ, or one name is used
        // up.
        let rest_a = a@.skip(index as int);
        let rest_b = b@.skip(index as int);
        if index < a.len() && index < b.len() {
            assert(rest_a[0] == a[index as int] && rest_b[0] == b[index as int]);
        }
    }
    if index == a.len() {
        true
    } else if index == b.len() {
        false
    } else {
        a[index] < b[index]
    }
}

fn sort_key_of(item: &Item) -> (result: SortKey)
    ensures
        result@ == sort_key(item@),
{
    match item {
        Item::Function(function) => {
            let name = characters(function.name.as_str());
            let underscored = name.len() > 0 && name[0] == '_';
            SortKey { underscored, name }
        },
        Item::Opaque(_) => SortKey { underscored: false, name: Vec::new() },
    }
}

fn key_precedes(a: &SortKey, b: &SortKey) -> (result: bool)
    ensures
        result == key_le(a@, b@),
{
    if a.underscored != b.underscored {
        !a.underscored
    } else {
        name_precedes(&a.name, &b.name)
    }
}

proof fn lemma_inserted_at(items: Seq<ItemView>, item: ItemView, position: int)
    requires
        0 <= position <= items.len(),
        forall|j: int| position <= j < items.len() ==> !item_le(#[trigger] items[j], item),
        position > 0 ==> item_le(items[position - 1], item),
    ensures
        inserted(items, item) == items.insert(position, item),
    decreases items.len() - position,
{
    if position < items.len() {
        assert(!item_le(items.last(), item));
        lemma_inserted_at(items.drop_last(), item, position);
        assert(items.drop_last().insert(position, item).push(items.last()) =~= items.insert(
            position,
            item,
        ));
    }
}

/// Puts the items into their order.
///
/// The result is a permutation of the items that is ordered by the key, in
/// which items of equal key stand as they stood before.
pub fn reorder_functions(program: &mut Program)
    ensures
        final(program)@ == reordered(old(program)@),
{
    let mut items: Vec<Item> = Vec::new();
    std::mem::swap(&mut program.items, &mut items);
    let ghost views = items@.map_values(|item: Item| item@);
    let mut sorted: Vec<Item> = Vec::new();
    let mut keys: Vec<SortKey> = Vec::new();
    for item in iter: items
        invariant
            iter.seq() == items@,
            views == items@.map_values(|item: Item| item@),
            keys.len() == sorted.len(),
            forall|j: int| 0 <= j < keys.len() ==> (#[trigger] keys[j])@ == sort_key(sorted[j]@),
            sorted@.map_values(|item: Item| item@) == reordered(views.take(iter.index() as int)),
    {
        let ghost before = sorted@.map_values(|item: Item| item@);
        let key = sort_key_of(&item);
        let mut position: usize = sorted.len();
        while position > 0 && !key_precedes(&keys[position - 1], &key)
            invariant
                position <= sorted.len(),
                keys.len() == sorted.len(),
                key@ == sort_key(item@),
                before == sorted@.map_values(|item: Item| item@),
                forall|j: int|
                    0 <= j < keys.len() ==> (#[trigger] keys[j])@ == sort_key(sorted[j]@),
                forall|j: int|
                    position <= j < before.len() ==> !item_le(#[trigger] before[j], item@),
            decreases position,
        {
            position -= 1;
        }
        proof {
            let i = iter.index() as int;
            assert(views.take(i + 1).drop_last() =~= views.take(i));
            lemma_inserted_at(before, item@, position as int);
            assert(sorted@.insert(position as int, item).map_values(|item: Item| item@)
                =~= before.insert(position as int, item@));
        }
        sorted.insert(position, item);
        keys.insert(position, key);
    }
    assert(views.take(items@.len() as int) =~= views);
    program.items = sorted;
}

/// Every name may stand before itself.
pub proof fn lemma_name_le_reflexive(a: Seq<char>)
    ensures
        name_le(a, a),
    decreases a.len(),
{
    if a.len() > 0 {
        lemma_name_le_reflexive(a.drop_first());
    }
}

/// Of two names, one may stand before the other.
pub proof fn lemma_name_le_total(a: Seq<char>, b: Seq<char>)
    ensures
        name_le(a, b) || name_le(b, a),
    decreases a.len(),
{
    if a.len() > 0 && b.len() > 0 && a[0] == b[0] {
        lemma_name_le_total(a.drop_first(), b.drop_first());
    }
}

/// The order of names is transitive.
pub proof fn lemma_name_le_transitive(a: Seq<char>, b: Seq<char>, c: Seq<char>)
    requires
        name_le(a, b),
        name_le(b, c),
    ensures
        name_le(a, c),
    decreases a.len(),
{
    if a.len() > 0 && b.len() > 0 && c.len() > 0 && a[0] == b[0] && b[0] == c[0] {
        lemma_name_le_transitive(a.drop_first(), b.drop_first(), c.drop_first());
    }
}

/// The order of items is total.
pub proof fn lemma_item_le_total(a: ItemView, b: ItemView)
    ensures
        item_le(a, b) || item_le(b, a),
{
    lemma_name_le_total(sort_key(a).1, sort_key(b).1);
}

/// The order of items is transitive.
pub proof fn lemma_item_le_transitive(a: ItemView, b: ItemView, c: ItemView)
    requires
        item_le(a, b),
        item_le(b, c),
    ensures
        item_le(a, c),
{
    let (ka, kb, kc) = (sort_key(a), sort_key(b), sort_key(c));
    if ka.0 == kb.0 && kb.0 == kc.0 {
        lemma_name_le_transitive(ka.1, kb.1, kc.1);
    }
}

proof fn lemma_inserted_members(items: Seq<ItemView>, item: ItemView)
    ensures
        inserted(items, item).len() == items.len() + 1,
        inserted(items, item).to_multiset() == items.to_multiset().insert(item),
        forall|i: int|
            0 <= i < inserted(items, item).len() ==> #[trigger] inserted(items, item)[i] == item
                || items.contains(inserted(items, item)[i]),
    decreases items.len(),
{
    broadcast use vstd::seq_lib::to_multiset_build;

    let result = inserted(items, item);
    if items.len() == 0 {
        assert(items =~= Seq::<ItemView>::empty());
    } else if item_le(items.last(), item) {
        assert forall|i: int| 0 <= i < result.len() implies #[trigger] result[i] == item
            || items.contains(result[i]) by {
            if i < items.len() {
                assert(items[i] == result[i]);
            }
        }
    } else {
        let front = items.drop_last();
        let inner = inserted(front, item);
        lemma_inserted_members(front, item);
        assert(front.push(items.last()) =~= items);
        assert forall|i: int| 0 <= i < result.len() implies #[trigger] result[i] == item
            || items.contains(result[i]) by {
            if i == inner.len() {
                assert(items[items.len() - 1] == result[i]);
            } else if inner[i] != item {
                let j = choose|j: int| 0 <= j < front.len() && front[j] == inner[i];
                assert(items[j] == result[i]);
            }
        }
    }
}

proof fn lemma_inserted_is_ordered(items: Seq<ItemView>, item: ItemView)
    requires
        is_ordered(items),
    ensures
        is_ordered(inserted(items, item)),
    decreases items.len(),
{
    let result = inserted(items, item);
    if items.len() == 0 {
    } else if item_le(items.last(), item) {
        // The item goes to the end: all items stand before the last, and
        // the last before it.
        assert forall|i: int, j: int| 0 <= i < j < result.len() implies item_le(
            result[i],
            result[j],
        ) by {
            if j == items.len() && i < items.len() - 1 {
                lemma_item_le_transitive(items[i], items.last(), item);
            }
        }
    } else {
        // The item goes somewhere before the last item, which may stand
        // behind it and behind everything else.
        let front = items.drop_last();
        let inner = inserted(front, item);
        lemma_inserted_is_ordered(front, item);
        lemma_inserted_members(front, item);
        lemma_item_le_total(items.last(), item);
        assert forall|i: int, j: int| 0 <= i < j < result.len() implies item_le(
            result[i],
            result[j],
        ) by {
            if j == inner.len() {
                if inner[i] != item {
                    let k = choose|k: int| 0 <= k < front.len() && front[k] == inner[i];
                    assert(item_le(items[k], items[items.len() - 1]));
                }
            } else {
                assert(item_le(inner[i], inner[j]));
            }
        }
    }
}

/// The result is ordered: every item may stand before each item behind it.
pub proof fn lemma_reordered_is_ordered(program: Seq<ItemView>)
    ensures
        is_ordered(reordered(program)),
    decreases program.len(),
{
    if program.len() > 0 {
        lemma_reordered_is_ordered(program.drop_last());
        lemma_inserted_is_ordered(reordered(program.drop_last()), program.last());
    }
}

/// The result is a permutation: it holds the same items, each as often as
/// before, and nothing else.
pub proof fn lemma_reordered_is_permutation(program: Seq<ItemView>)
    ensures
        reordered(program).len() == program.len(),
        reordered(program).to_multiset() == program.to_multiset(),
    decreases program.len(),
{
    broadcast use vstd::seq_lib::to_multiset_build;

    if program.len() > 0 {
        lemma_reordered_is_permutation(program.drop_last());
        lemma_inserted_members(reordered(program.drop_last()), program.last());
        assert(program.drop_last().push(program.last()) =~= program);
    }
}

proof fn lemma_inserted_filter(
    items: Seq<ItemView>,
    item: ItemView,
    class: spec_fn(ItemView) -> bool,
)
    requires
        forall|a: ItemView, b: ItemView| #[trigger] class(a) && #[trigger] class(b) ==> item_le(a, b),
    ensures
        inserted(items, item).filter(class) == if class(item) {
            items.filter(class).push(item)
        } else {
            items.filter(class)
        },
    decreases items.len(),
{
    if items.len() == 0 {
        assert(inserted(items, item) =~= items.push(item));
        items.lemma_filter_push(item, class);
    } else if item_le(items.last(), item) {
        items.lemma_filter_push(item, class);
    } else {
        let front = items.drop_last();
        lemma_inserted_filter(front, item, class);
        inserted(front, item).lemma_filter_push(items.last(), class);
        front.lemma_filter_push(items.last(), class);
        assert(front.push(items.last()) =~= items);
    }
}

proof fn lemma_reordered_filter(program: Seq<ItemView>, class: spec_fn(ItemView) -> bool)
    requires
        forall|a: ItemView, b: ItemView| #[trigger] class(a) && #[trigger] class(b) ==> item_le(a, b),
    ensures
        reordered(program).filter(class) == program.filter(class),
    decreases program.len(),
{
    if program.len() > 0 {
        let front = program.drop_last();
        lemma_reordered_filter(front, class);
        lemma_inserted_filter(reordered(front), program.last(), class);
        front.lemma_filter_push(program.last(), class);
        assert(front.push(program.last()) =~= program);
    }
}

/// The sort is stable: the items of any one key stand in the result in
/// the order in which they stood before.
pub proof fn lemma_reorder_is_stable(program: Seq<ItemView>, key: (bool, Seq<char>))
    ensures
        reordered(program).filter(|item: ItemView| sort_key(item) == key) == program.filter(
            |item: ItemView| sort_key(item) == key,
        ),
{
    let class = |item: ItemView| sort_key(item) == key;
    assert forall|a: ItemView, b: ItemView| #[trigger] class(a) && #[trigger] class(b) implies item_le(
        a,
        b,
    ) by {
        lemma_name_le_reflexive(key.1);
    }
    lemma_reordered_filter(program, class);
}

/// The items that are not functions never change their relative order.
pub proof fn lemma_reorder_keeps_opaque_order(program: Seq<ItemView>)
    ensures
        reordered(program).filter(|item: ItemView| item is Opaque) == program.filter(
            |item: ItemView| item is Opaque,
        ),
{
    lemma_reordered_filter(program, |item: ItemView| item is Opaque);
}

/// Items that are in order already are left as they stand.
pub proof fn lemma_ordered_is_unchanged(program: Seq<ItemView>)
    requires
        is_ordered(program),
    ensures
        reordered(program) == program,
    decreases program.len(),
{
    if program.len() > 0 {
        let front = program.drop_last();
        lemma_ordered_is_unchanged(front);
        if front.len() > 0 {
            assert(item_le(program[front.len() - 1], program[program.len() - 1]));
        }
        assert(front.push(program.last()) =~= program);
    }
}

/// Reordering what has been reordered changes nothing.
pub proof fn lemma_reorder_idempotent(program: Seq<ItemView>)
    ensures
        reordered(reordered(program)) == reordered(program),
{
    lemma_reordered_is_ordered(program);
    lemma_ordered_is_unchanged(reordered(program));
}

} // verus!
