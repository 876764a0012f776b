//! Type graph descriptors for schema encoding.

use crate::entries::Entries;
use crate::number::Number;
use vstd::prelude::*;

verus! {

/// A type descriptor for platform-agnostic primitives and the types built from them.
#[derive(Debug, Clone)]
#[non_exhaustive]
pub enum Node {
    /// No value.
    Nothing,
    /// The unit type.
    Unit,
    /// A type without values.
    Never,
    /// A numeric primitive.
    Number(Number),
    /// A truth value.
    Bool,
    /// Variable length text.
    String,
    /// Optional value wrapping one subgraph.
    Option {
        /// Index of the subgraph root node within the type graph.
        subgraph: u32,
    },
    /// Fixed size tuple wrapping any number of subgraphs.
    Tuple {
        /// Index of each subgraph root node within the type graph.
        subgraphs: Vec<u8>,
    },
    /// Variable length sequence wrapping one subgraph.
    Sequence {
        /// Index of the subgraph root node within the type graph.
        subgraph: u32,
    },
    /// Named struct wrapping any number of named fields.
    Struct {
        /// Struct name.
        name: String,
        /// Field names mapped to subgraph root node indices within the type graph.
        fields: Entries<u32>,
    },
    /// Named enum wrapping any number of variants.
    Enum {
        /// Enum name.
        name: String,
        /// Variant names mapped to subgraph root node indices within the type graph.
        variants: Entries<u32>,
    },
}

impl Node {
    /// Whether `self` is the [`Node::Nothing`] variant.
    pub fn is_none(&self) -> (none: bool)
        ensures
            none == (self is Nothing),
    {
        matches!(self, Node::Nothing)
    }
}

impl Default for Node {
    fn default() -> (node: Self)
        ensures
            node is Nothing,
    {
        Node::Nothing
    }
}

impl PartialEq for Node {
    /// Nodes match where they are of the same variant and hold the same.
    fn eq(&self, other: &Self) -> (same: bool) {
        match (self, other) {
            (Node::Nothing, Node::Nothing) => true,
            (Node::Unit, Node::Unit) => true,
            (Node::Never, Node::Never) => true,
            (Node::Number(a), Node::Number(b)) => *a == *b,
            (Node::Bool, Node::Bool) => true,
            (Node::String, Node::String) => true,
            (Node::Option { subgraph: a }, Node::Option { subgraph: b }) => *a == *b,
            (Node::Tuple { subgraphs: a }, Node::Tuple { subgraphs: b }) => same_bytes(a, b),
            (Node::Sequence { subgraph: a }, Node::Sequence { subgraph: b }) => *a == *b,
            (Node::Struct { name: m, fields: a }, Node::Struct { name: n, fields: b }) => *m == *n
                && a.same(b),
            (Node::Enum { name: m, variants: a }, Node::Enum { name: n, variants: b }) => *m == *n
                && a.same(b),
            _ => false,
        }
    }
}

impl vstd::std_specs::cmp::PartialEqSpecImpl for Node {
    open spec fn obeys_eq_spec() -> bool {
        true
    }

    open spec fn eq_spec(&self, other: &Self) -> bool {
        match (*self, *other) {
            (Node::Nothing, Node::Nothing) => true,
            (Node::Unit, Node::Unit) => true,
            (Node::Never, Node::Never) => true,
            (Node::Number(a), Node::Number(b)) => a == b,
            (Node::Bool, Node::Bool) => true,
            (Node::String, Node::String) => true,
            (Node::Option { subgraph: a }, Node::Option { subgraph: b }) => a == b,
            (Node::Tuple { subgraphs: a }, Node::Tuple { subgraphs: b }) => a@ == b@,
            (Node::Sequence { subgraph: a }, Node::Sequence { subgraph: b }) => a == b,
            (Node::Struct { name: m, fields: a }, Node::Struct { name: n, fields: b }) => m@ == n@
                && a.held() == b.held(),
            (Node::Enum { name: m, variants: a }, Node::Enum { name: n, variants: b }) => m@ == n@
                && a.held() == b.held(),
            _ => false,
        }
    }
}

/// Whether `a` and `b` hold the same bytes.
fn same_bytes(a: &Vec<u8>, b: &Vec<u8>) -> (same: bool)
    ensures
        same == (a@ == b@),
{
    if a.len() != b.len() {
        return false;
    }
    let mut i: usize = 0;
    while i < a.len()
        invariant
            i <= a@.len() == b@.len(),
            forall|j: int| 0 <= j < i ==> #[trigger] a@[j] == b@[j],
        decreases a@.len() - i,
    {
        if a[i] != b[i] {
            return false;
        }
        i += 1;
    }
    assert(a@ =~= b@);
    true
}

// ---------------------------------------------------------------- laws

/// Nodes match where they are of one variant and hold the same, and then alone.
pub proof fn law_nodes_match_by_structure(a: Node, b: Node, same: bool, itself: bool)
    requires
        call_ensures(<Node as PartialEq>::eq, (&a, &b), same),
        call_ensures(<Node as PartialEq>::eq, (&a, &a), itself),
    ensures
        itself,
        same ==> ((a is Nothing) == (b is Nothing) && (a is Unit) == (b is Unit) && (a is Never) == (
        b is Never) && (a is Number) == (b is Number) && (a is Bool) == (b is Bool) && (a is String) == (
        b is String) && (a is Option) == (b is Option) && (a is Tuple) == (b is Tuple) && (
        a is Sequence) == (b is Sequence) && (a is Struct) == (b is Struct) && (a is Enum) == (
        b is Enum)),
        a matches Node::Number(x) ==> (b matches Node::Number(y) ==> same == (x == y)),
        a matches Node::Option { subgraph: x } ==> (b matches Node::Option { subgraph: y } ==> same == (
        x == y)),
        a matches Node::Sequence { subgraph: x } ==> (b matches Node::Sequence { subgraph: y } ==> same
            == (x == y)),
        a matches Node::Tuple { subgraphs: x } ==> (b matches Node::Tuple { subgraphs: y } ==> same == (
        x@ == y@)),
        a matches Node::Struct { name: m, fields: x } ==> (b matches Node::Struct { name: n, fields: y }
            ==> same == (m@ == n@ && x.held() == y.held())),
        a matches Node::Enum { name: m, variants: x } ==> (b matches Node::Enum { name: n, variants: y }
            ==> same == (m@ == n@ && x.held() == y.held())),
{
}

} // verus!
