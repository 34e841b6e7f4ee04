//! The analyzer: how many items of each kind a source file declares.

use vstd::prelude::*;
use vstd::string::StringExecFns;
use crate::parser::{file_parts, parsed_file, ParseError};
use crate::text::{append_decimal, decimal};

verus! {

/// The kinds of item that the analyzer tells apart.
#[derive(Clone, Copy, Debug, PartialEq, Eq, Structural)]
pub enum ItemKind {
    Function,
    Struct,
    Enum,
    Impl,
    Other,
}

/// The counts of one source file.
#[derive(Clone, Copy, Debug, PartialEq, Eq, Structural)]
pub struct CodeAnalysis {
    pub num_functions: usize,
    pub num_structs: usize,
    pub num_enums: usize,
    pub num_impls: usize,
}

/// The test for being of kind `kind`.
pub open spec fn is_kind(kind: ItemKind) -> spec_fn(ItemKind) -> bool {
    |other: ItemKind| other == kind
}

/// How many of `kinds` are `kind`.
pub open spec fn count_of(kinds: Seq<ItemKind>, kind: ItemKind) -> nat {
    kinds.filter(is_kind(kind)).len()
}

/// The counts of functions, structs, enums and impl blocks among `kinds`.
pub open spec fn tallied(kinds: Seq<ItemKind>, analysis: CodeAnalysis) -> bool {
    &&& analysis.num_functions == count_of(kinds, ItemKind::Function)
    &&& analysis.num_structs == count_of(kinds, ItemKind::Struct)
    &&& analysis.num_enums == count_of(kinds, ItemKind::Enum)
    &&& analysis.num_impls == count_of(kinds, ItemKind::Impl)
}

/// The kinds of the items of a source file, or the parser's message.
pub open spec fn analyzed_kinds(source: Seq<char>) -> Result<Seq<ItemKind>, Seq<char>> {
    match parsed_file(source) {
        Ok(parts) => Ok(parts.items.map_values(|item: (ItemKind, Seq<char>)| item.0)),
        Err(message) => Err(message),
    }
}

/// The four lines of the summary, under their heading.
pub open spec fn summary_text(analysis: CodeAnalysis) -> Seq<char> {
    "Code Analysis:\n"@ + "Number of functions: "@ + decimal(analysis.num_functions as nat)
        + "\n"@ + "Number of structs: "@ + decimal(analysis.num_structs as nat) + "\n"@
        + "Number of enums: "@ + decimal(analysis.num_enums as nat) + "\n"@
        + "Number of impl blocks: "@ + decimal(analysis.num_impls as nat) + "\n"@
}

/// Counts the kinds.
pub fn tally(kinds: &Vec<ItemKind>) -> (result: CodeAnalysis)
    ensures
        tallied(kinds@, result),
{
    let mut result = CodeAnalysis { num_functions: 0, num_structs: 0, num_enums: 0, num_impls: 0 };
    let mut index: usize = 0;
    while index < kinds.len()
        invariant
            index <= kinds.len(),
            tallied(kinds@.take(index as int), result),
        decreases kinds.len() - index,
    {
        proof {
            let seen = kinds@.take(index as int);
            kinds@.lemma_take_succ_push(index as int);
            seen.lemma_filter_push(kinds[index as int], is_kind(ItemKind::Function));
            seen.lemma_filter_push(kinds[index as int], is_kind(ItemKind::Struct));
            seen.lemma_filter_push(kinds[index as int], is_kind(ItemKind::Enum));
            seen.lemma_filter_push(kinds[index as int], is_kind(ItemKind::Impl));
            seen.lemma_filter_len(is_kind(ItemKind::Function));
            seen.lemma_filter_len(is_kind(ItemKind::Struct));
            seen.lemma_filter_len(is_kind(ItemKind::Enum));
            seen.lemma_filter_len(is_kind(ItemKind::Impl));
        }
        match kinds[index] {
            ItemKind::Function => {
                result.num_functions = result.num_functions + 1;
            },
            ItemKind::Struct => {
                result.num_structs = result.num_structs + 1;
            },
            ItemKind::Enum => {
                result.num_enums = result.num_enums + 1;
            },
            ItemKind::Impl => {
                result.num_impls = result.num_impls + 1;
            },
            ItemKind::Other => {},
        }
        index += 1;
    }
    assert(kinds@.take(index as int) =~= kinds@);
    result
}

/// Counts the functions, structs, enums and impl blocks that `code`
/// declares at top level, or hands on the parser's error.
pub fn analyze_code(code: &str) -> (result: Result<CodeAnalysis, ParseError>)
    ensures
        match result {
            Ok(analysis) => analyzed_kinds(code@) matches Ok(kinds) && tallied(kinds, analysis),
            Err(error) => analyzed_kinds(code@) == Err::<Seq<ItemKind>, Seq<char>>(error@),
        },
{
    let parts = match file_parts(code) {
        Ok(parts) => parts,
        Err(message) => return Err(ParseError { message }),
    };
    let mut kinds: Vec<ItemKind> = Vec::new();
    let mut index: usize = 0;
    while index < parts.items.len()
        invariant
            index <= parts.items.len(),
            kinds.len() == index,
            forall|j: int| 0 <= j < index ==> #[trigger] kinds[j] == parts.items[j].0,
        decreases parts.items.len() - index,
    {
        kinds.push(parts.items[index].0);
        index += 1;
    }
    assert(kinds@ =~= parts@.items.map_values(|item: (ItemKind, Seq<char>)| item.0));
    Ok(tally(&kinds))
}

impl CodeAnalysis {
    /// The summary as text, one count on each line.
    pub fn summary(&self) -> (result: String)
        ensures
            result@ == summary_text(*self),
    {
        let mut result = String::from_str("Code Analysis:\n");
        result.append("Number of functions: ");
        append_decimal(&mut result, self.num_functions as u64);
        result.append("\n");
        result.append("Number of structs: ");
        append_decimal(&mut result, self.num_structs as u64);
        result.append("\n");
        result.append("Number of enums: ");
        append_decimal(&mut result, self.num_enums as u64);
        result.append("\n");
        result.append("Number of impl blocks: ");
        append_decimal(&mut result, self.num_impls as u64);
        result.append("\n");
        result
    }
}

} // verus!
