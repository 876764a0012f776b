//! Expanding a composite type into its reader.
//!
//! The expansion is a reader that holds one boxed stream per field, the implementation that assembles
//! it from any combination of the columns, the one that pulls the streams in step, and the one that
//! combines every column without a filter. Fields are taken in the order of their names.

use crate::derive::field::{sort, sorted, unraw, unraw_text, viewed_fields, Field, FieldView};
use crate::derive::template::{
    ascent_last, ascent_last_text, ascent_next, ascent_next_text, block, block_text, boxed,
    boxed_text, build_bound, build_bound_text, combine_bound, combine_bound_text, composite_impl,
    composite_impl_text, conjunct, conjunct_text, conjunction, conjunction_text, failed, failed_text,
    fold, fold_text, inspected, inspected_text, iterator_impl, iterator_impl_text, listed, listed_text, opened,
    opened_text, pulled, pulled_text, reader, reader_field, reader_field_text, reader_text, source,
    source_text, stream_bound, stream_bound_text, unfiltered_impl, unfiltered_impl_text,
    unpack_last, unpack_last_text, unpack_next, unpack_next_text, unpack_only, unpack_only_text,
};
use crate::text::{decimal, digits, joined};
use vstd::prelude::*;

verus! {

/// The kind of a type, with the fields that it names.
#[derive(Debug)]
pub enum Body {
    /// A struct with named fields.
    Named(Vec<Field>),
    /// A struct with unnamed fields.
    Tuple,
    /// A struct without fields.
    Unit,
    /// An enumeration or a union.
    Other,
}

/// A type to expand.
#[derive(Debug)]
pub struct Input {
    /// The visibility, as it is written.
    pub vis: String,
    /// The name, as it is written.
    pub ident: String,
    /// The kind and the fields.
    pub body: Body,
}

/// Why a type cannot be expanded.
#[derive(Debug, Clone, Copy, PartialEq, Eq, Structural)]
pub enum Refusal {
    /// The type is no struct.
    Unsupported,
    /// The fields have no names.
    Unnamed,
    /// There are no fields.
    Empty,
}

/// The text of `n` pieces, one after the other.
pub open spec fn pieces(n: nat, piece: spec_fn(int) -> Seq<char>) -> Seq<char>
    decreases n,
{
    if n == 0 {
        Seq::empty()
    } else {
        pieces((n - 1) as nat, piece) + piece(n - 1)
    }
}

/// The parameter of an interior level of the resolved tree.
pub open spec fn node_text(level: nat) -> Seq<char> {
    "N"@ + decimal(level)
}

/// The parameter of an interior level of the resolved tree.
fn node(level: usize) -> (text: String)
    ensures
        text@ == node_text(level as nat),
{
    joined("N", digits(level as u64).as_str())
}

/// The parameter of a resolved leg.
pub open spec fn leg_text(index: nat) -> Seq<char> {
    "B"@ + decimal(index)
}

/// The parameter of a resolved leg.
fn leg(index: usize) -> (text: String)
    ensures
        text@ == leg_text(index as nat),
{
    joined("B", digits(index as u64).as_str())
}

/// What says whether a field keeps the item.
pub open spec fn keep_text(ident: Seq<char>) -> Seq<char> {
    "keep_"@ + unraw_text(ident)
}

/// What says whether a field keeps the item.
fn keep(ident: &str) -> (text: String)
    ensures
        text@ == keep_text(ident@),
{
    joined("keep_", unraw(ident).as_str())
}

/// The number of interior levels of a tree over `count` legs.
pub open spec fn interior(count: nat) -> nat {
    if count < 2 {
        0
    } else {
        (count - 2) as nat
    }
}

/// The text that `make` gives for each of `n` places, one after the other.
fn each<F: Fn(usize) -> String>(
    n: usize,
    Ghost(piece): Ghost<spec_fn(int) -> Seq<char>>,
    make: F,
) -> (text: String)
    requires
        forall|i: usize| i < n ==> #[trigger] make.requires((i,)),
        forall|i: usize, made: String| i < n && #[trigger] make.ensures((i,), made) ==> made@ == piece(
            i as int,
        ),
    ensures
        text@ == pieces(n as nat, piece),
{
    let mut text = String::new();
    let mut i: usize = 0;
    while i < n
        invariant
            i <= n,
            forall|i: usize| i < n ==> #[trigger] make.requires((i,)),
            forall|i: usize, made: String|
                i < n && #[trigger] make.ensures((i,), made) ==> made@ == piece(i as int),
            text@ == pieces(i as nat, piece),
        decreases n - i,
    {
        let made: String = make(i);
        text.append(made.as_str());
        i += 1;
    }
    text
}

/// The fields of the reader.
pub open spec fn reader_fields_piece(fields: Seq<FieldView>) -> spec_fn(int) -> Seq<char> {
    |i: int| reader_field_text(fields[i].ident, fields[i].ty)
}

/// The fields of the reader.
pub open spec fn reader_fields_text(fields: Seq<FieldView>) -> Seq<char> {
    pieces(fields.len(), reader_fields_piece(fields))
}

/// The fields of the reader.
fn reader_fields(fields: &Vec<Field>) -> (text: String)
    ensures
        text@ == reader_fields_text(viewed_fields(fields@)),
{
    let n: usize = fields.len();
    each(
        n,
        Ghost(reader_fields_piece(viewed_fields(fields@))),
        |i: usize| -> (piece: String)
            requires
                i < n,
            ensures
                piece@ == reader_fields_piece(viewed_fields(fields@))(i as int)
        {
            reader_field(fields[i].ident.as_str(), fields[i].ty.as_str())
        },
    )
}

/// The names of the fields as a list.
pub open spec fn idents_piece(fields: Seq<FieldView>) -> spec_fn(int) -> Seq<char> {
    |i: int| listed_text(fields[i].ident)
}

/// The names of the fields as a list.
pub open spec fn idents_text(fields: Seq<FieldView>) -> Seq<char> {
    pieces(fields.len(), idents_piece(fields))
}

/// The names of the fields as a list.
fn idents(fields: &Vec<Field>) -> (text: String)
    ensures
        text@ == idents_text(viewed_fields(fields@)),
{
    let n: usize = fields.len();
    each(
        n,
        Ghost(idents_piece(viewed_fields(fields@))),
        |i: usize| -> (piece: String)
            requires
                i < n,
            ensures
                piece@ == idents_piece(viewed_fields(fields@))(i as int)
        {
            listed(fields[i].ident.as_str())
        },
    )
}

/// The parameters of the interior levels as a list. The root is the resolved source itself.
pub open spec fn nodes_piece() -> spec_fn(int) -> Seq<char> {
    |i: int| listed_text(node_text((i + 1) as nat))
}

/// The parameters of the interior levels as a list. The root is the resolved source itself.
pub open spec fn nodes_text(count: nat) -> Seq<char> {
    pieces(interior(count), nodes_piece())
}

/// The parameters of the interior levels as a list. The root is the resolved source itself.
fn nodes(count: usize) -> (text: String)
    ensures
        text@ == nodes_text(count as nat),
{
    let n: usize = if count < 2 {
        0
    } else {
        count - 2
    };
    each(
        n,
        Ghost(nodes_piece()),
        |i: usize| -> (piece: String)
            requires
                i < n,
            ensures
                piece@ == nodes_piece()(i as int)
        {
            listed(node(i + 1).as_str())
        },
    )
}

/// The parameters of the resolved legs as a list. A single leg is the root and has none.
pub open spec fn builds_piece() -> spec_fn(int) -> Seq<char> {
    |i: int| listed_text(leg_text(i as nat))
}

/// The parameters of the resolved legs as a list. A single leg is the root and has none.
pub open spec fn builds_text(count: nat) -> Seq<char> {
    pieces(if count == 1 { 0 } else { count }, builds_piece())
}

/// The parameters of the resolved legs as a list. A single leg is the root and has none.
fn builds(count: usize) -> (text: String)
    ensures
        text@ == builds_text(count as nat),
{
    let n: usize = if count == 1 {
        0
    } else {
        count
    };
    each(
        n,
        Ghost(builds_piece()),
        |i: usize| -> (piece: String)
            requires
                i < n,
            ensures
                piece@ == builds_piece()(i as int)
        {
            listed(leg(i).as_str())
        },
    )
}

/// What owns everything below `depth` in the resolved tree: the interior node one level down, or the
/// first leg at the bottom.
pub open spec fn step_text(depth: nat) -> Seq<char> {
    if depth == 1 {
        leg_text(0)
    } else {
        node_text((depth - 1) as nat)
    }
}

/// What owns everything below `depth` in the resolved tree.
fn step(depth: usize) -> (text: String)
    requires
        depth >= 1,
    ensures
        text@ == step_text(depth as nat),
{
    if depth == 1 {
        leg(0)
    } else {
        node(depth - 1)
    }
}

/// The root of the resolved tree.
pub open spec fn root_text() -> Seq<char> {
    "< S as :: msca :: query :: Select < 'a > > :: Build"@
}

/// What owns the level that is `k` steps below the root of a tree over `count` legs.
pub open spec fn owner_text(count: nat, k: nat) -> Seq<char> {
    if k == 0 {
        root_text()
    } else {
        step_text((count - k) as nat)
    }
}

/// What owns the level that is `k` steps below the root of a tree over `count` legs.
fn owner(count: usize, k: usize) -> (text: String)
    requires
        k < count,
    ensures
        text@ == owner_text(count as nat, k as nat),
{
    if k == 0 {
        "< S as :: msca :: query :: Select < 'a > > :: Build".to_owned()
    } else {
        step(count - k)
    }
}

/// The bounds of the interior levels, from the root down.
pub open spec fn levels_piece(count: nat) -> spec_fn(int) -> Seq<char> {
    |i: int| {
        let depth = (count - 1 - i) as nat;
        combine_bound_text(owner_text(count, i as nat), step_text(depth), leg_text(depth))
    }
}

/// The bounds of the interior levels, from the root down.
pub open spec fn levels_text(count: nat) -> Seq<char> {
    pieces(if count == 0 { 0 } else { (count - 1) as nat }, levels_piece(count))
}

/// The bounds of the interior levels, from the root down.
fn levels(count: usize) -> (text: String)
    ensures
        text@ == levels_text(count as nat),
{
    let n: usize = if count == 0 {
        0
    } else {
        count - 1
    };
    each(
        n,
        Ghost(levels_piece(count as nat)),
        |i: usize| -> (piece: String)
            requires
                i < n,
            ensures
                piece@ == levels_piece(count as nat)(i as int)
        {
            let depth: usize = count - 1 - i;
            combine_bound(
                owner(count, i).as_str(),
                step(depth).as_str(),
                leg(depth).as_str(),
            )
        },
    )
}

/// The bounds of the legs.
pub open spec fn legs_piece(fields: Seq<FieldView>) -> spec_fn(int) -> Seq<char> {
    |i: int| build_bound_text(leg_text(i as nat), fields[i].ty)
}

/// The bounds of the legs.
pub open spec fn legs_text(fields: Seq<FieldView>) -> Seq<char> {
    pieces(fields.len(), legs_piece(fields))
}

/// The bounds of the legs.
fn legs(fields: &Vec<Field>) -> (text: String)
    ensures
        text@ == legs_text(viewed_fields(fields@)),
{
    let n: usize = fields.len();
    each(
        n,
        Ghost(legs_piece(viewed_fields(fields@))),
        |i: usize| -> (piece: String)
            requires
                i < n,
            ensures
                piece@ == legs_piece(viewed_fields(fields@))(i as int)
        {
            build_bound(leg(i).as_str(), fields[i].ty.as_str())
        },
    )
}

/// The bounds that descend the resolved tree: one for each interior level, then one for each leg that
/// fixes its item to the type of the field.
pub open spec fn descent_text(fields: Seq<FieldView>) -> Seq<char> {
    if fields.len() == 1 {
        build_bound_text(root_text(), fields[0].ty)
    } else {
        levels_text(fields.len()) + legs_text(fields)
    }
}

/// The bounds that descend the resolved tree.
fn descent(fields: &Vec<Field>) -> (text: String)
    ensures
        text@ == descent_text(viewed_fields(fields@)),
{
    if fields.len() == 1 {
        build_bound(
            "< S as :: msca :: query :: Select < 'a > > :: Build",
            fields[0].ty.as_str(),
        )
    } else {
        joined(levels(fields.len()).as_str(), legs(fields).as_str())
    }
}

/// The bindings of the legs of a tree, from the root down.
pub open spec fn bindings_piece(fields: Seq<FieldView>) -> spec_fn(int) -> Seq<char> {
    |i: int| {
        let depth = fields.len() - 1 - i;
        if depth == 1 {
            unpack_last_text(fields[0].ident, fields[1].ident)
        } else {
            unpack_next_text(fields[depth].ident)
        }
    }
}

/// The bindings of the legs of a tree, from the root down.
pub open spec fn bindings_text(fields: Seq<FieldView>) -> Seq<char> {
    pieces(if fields.len() == 0 { 0 } else { (fields.len() - 1) as nat }, bindings_piece(fields))
}

/// The bindings of the legs of a tree, from the root down.
fn bindings(fields: &Vec<Field>) -> (text: String)
    ensures
        text@ == bindings_text(viewed_fields(fields@)),
{
    let n: usize = if fields.len() == 0 {
        0
    } else {
        fields.len() - 1
    };
    each(
        n,
        Ghost(bindings_piece(viewed_fields(fields@))),
        |i: usize| -> (piece: String)
            requires
                i < n,
            ensures
                piece@ == bindings_piece(viewed_fields(fields@))(i as int)
        {
            let depth: usize = fields.len() - 1 - i;
            if depth == 1 {
                unpack_last(fields[0].ident.as_str(), fields[1].ident.as_str())
            } else {
                unpack_next(fields[depth].ident.as_str())
            }
        },
    )
}

/// The walk of the resolved tree from the root, which binds each leg to its field.
pub open spec fn unpack_text(fields: Seq<FieldView>) -> Seq<char> {
    if fields.len() == 1 {
        unpack_only_text(fields[0].ident)
    } else {
        bindings_text(fields)
    }
}

/// The walk of the resolved tree.
fn unpack(fields: &Vec<Field>) -> (text: String)
    ensures
        text@ == unpack_text(viewed_fields(fields@)),
{
    if fields.len() == 1 {
        unpack_only(fields[0].ident.as_str())
    } else {
        bindings(fields)
    }
}

/// The boxed stream of one leg. The mask is copied for every leg but the last.
pub open spec fn stream_text(ident: Seq<char>, last: bool) -> Seq<char> {
    boxed_text(
        ident,
        if last {
            "mask"@
        } else {
            ":: core :: clone :: Clone :: clone (& mask)"@
        },
    )
}

/// The boxed stream of one leg.
fn stream(ident: &str, last: bool) -> (text: String)
    ensures
        text@ == stream_text(ident@, last),
{
    if last {
        boxed(ident, "mask")
    } else {
        boxed(ident, ":: core :: clone :: Clone :: clone (& mask)")
    }
}

/// The boxed streams of the legs.
pub open spec fn build_piece(fields: Seq<FieldView>) -> spec_fn(int) -> Seq<char> {
    |i: int| stream_text(fields[i].ident, i == fields.len() - 1)
}

/// The boxed streams of the legs.
pub open spec fn build_text(fields: Seq<FieldView>) -> Seq<char> {
    pieces(fields.len(), build_piece(fields))
}

/// The boxed streams of the legs.
fn build(fields: &Vec<Field>) -> (text: String)
    ensures
        text@ == build_text(viewed_fields(fields@)),
{
    let n: usize = fields.len();
    each(
        n,
        Ghost(build_piece(viewed_fields(fields@))),
        |i: usize| -> (piece: String)
            requires
                i < n,
            ensures
                piece@ == build_piece(viewed_fields(fields@))(i as int)
        {
            stream(fields[i].ident.as_str(), i == n - 1)
        },
    )
}

/// The opening of every column.
pub open spec fn columns_piece(fields: Seq<FieldView>) -> spec_fn(int) -> Seq<char> {
    |i: int| opened_text(fields[i].ident, fields[i].ty, unraw_text(fields[i].ident))
}

/// The opening of every column.
pub open spec fn columns_text(fields: Seq<FieldView>) -> Seq<char> {
    pieces(fields.len(), columns_piece(fields))
}

/// The opening of every column.
fn columns(fields: &Vec<Field>) -> (text: String)
    ensures
        text@ == columns_text(viewed_fields(fields@)),
{
    let n: usize = fields.len();
    each(
        n,
        Ghost(columns_piece(viewed_fields(fields@))),
        |i: usize| -> (piece: String)
            requires
                i < n,
            ensures
                piece@ == columns_piece(viewed_fields(fields@))(i as int)
        {
            opened(
                fields[i].ident.as_str(),
                fields[i].ty.as_str(),
                unraw(fields[i].ident.as_str()).as_str(),
            )
        },
    )
}

/// The bounds that reading every column asks for.
pub open spec fn stream_bounds_piece(fields: Seq<FieldView>) -> spec_fn(int) -> Seq<char> {
    |i: int| stream_bound_text(fields[i].ty)
}

/// The bounds that reading every column asks for.
pub open spec fn stream_bounds_text(fields: Seq<FieldView>) -> Seq<char> {
    pieces(fields.len(), stream_bounds_piece(fields))
}

/// The bounds that reading every column asks for.
fn stream_bounds(fields: &Vec<Field>) -> (text: String)
    ensures
        text@ == stream_bounds_text(viewed_fields(fields@)),
{
    let n: usize = fields.len();
    each(
        n,
        Ghost(stream_bounds_piece(viewed_fields(fields@))),
        |i: usize| -> (piece: String)
            requires
                i < n,
            ensures
                piece@ == stream_bounds_piece(viewed_fields(fields@))(i as int)
        {
            stream_bound(fields[i].ty.as_str())
        },
    )
}

/// The pull of every stream.
pub open spec fn pulls_piece(fields: Seq<FieldView>) -> spec_fn(int) -> Seq<char> {
    |i: int| pulled_text(fields[i].ident)
}

/// The pull of every stream.
pub open spec fn pulls_text(fields: Seq<FieldView>) -> Seq<char> {
    pieces(fields.len(), pulls_piece(fields))
}

/// The pull of every stream.
fn pulls(fields: &Vec<Field>) -> (text: String)
    ensures
        text@ == pulls_text(viewed_fields(fields@)),
{
    let n: usize = fields.len();
    each(
        n,
        Ghost(pulls_piece(viewed_fields(fields@))),
        |i: usize| -> (piece: String)
            requires
                i < n,
            ensures
                piece@ == pulls_piece(viewed_fields(fields@))(i as int)
        {
            pulled(fields[i].ident.as_str())
        },
    )
}

/// The return of any error.
pub open spec fn failures_piece(fields: Seq<FieldView>) -> spec_fn(int) -> Seq<char> {
    |i: int| failed_text(fields[i].ident)
}

/// The return of any error.
pub open spec fn failures_text(fields: Seq<FieldView>) -> Seq<char> {
    pieces(fields.len(), failures_piece(fields))
}

/// The return of any error.
fn failures(fields: &Vec<Field>) -> (text: String)
    ensures
        text@ == failures_text(viewed_fields(fields@)),
{
    let n: usize = fields.len();
    each(
        n,
        Ghost(failures_piece(viewed_fields(fields@))),
        |i: usize| -> (piece: String)
            requires
                i < n,
            ensures
                piece@ == failures_piece(viewed_fields(fields@))(i as int)
        {
            failed(fields[i].ident.as_str())
        },
    )
}

/// The inspection of every outcome.
pub open spec fn inspections_piece(fields: Seq<FieldView>) -> spec_fn(int) -> Seq<char> {
    |i: int| inspected_text(keep_text(fields[i].ident), fields[i].ident)
}

/// The inspection of every outcome.
pub open spec fn inspections_text(fields: Seq<FieldView>) -> Seq<char> {
    pieces(fields.len(), inspections_piece(fields))
}

/// The inspection of every outcome.
fn inspections(fields: &Vec<Field>) -> (text: String)
    ensures
        text@ == inspections_text(viewed_fields(fields@)),
{
    let n: usize = fields.len();
    each(
        n,
        Ghost(inspections_piece(viewed_fields(fields@))),
        |i: usize| -> (piece: String)
            requires
                i < n,
            ensures
                piece@ == inspections_piece(viewed_fields(fields@))(i as int)
        {
            inspected(
                keep(fields[i].ident.as_str()).as_str(),
                fields[i].ident.as_str(),
            )
        },
    )
}

/// The intersection of every column.
pub open spec fn combined_upto(fields: Seq<FieldView>, n: nat) -> Seq<char>
    decreases n,
{
    if n <= 1 {
        fields[0].ident
    } else {
        conjunction_text(combined_upto(fields, (n - 1) as nat), fields[n - 1].ident)
    }
}

/// The intersection of every column.
pub open spec fn combined_text(fields: Seq<FieldView>) -> Seq<char> {
    combined_upto(fields, fields.len())
}

/// The intersection of every column.
fn combined(fields: &Vec<Field>) -> (text: String)
    requires
        fields@.len() > 0,
    ensures
        text@ == combined_text(viewed_fields(fields@)),
{
    let mut text = fields[0].ident.clone();
    let mut i: usize = 1;
    while i < fields.len()
        invariant
            1 <= i <= fields@.len(),
            text@ == combined_upto(viewed_fields(fields@), i as nat),
        decreases fields@.len() - i,
    {
        text = conjunction(text.as_str(), fields[i].ident.as_str());
        i += 1;
    }
    text
}

/// The type of that intersection, nested to the left.
pub open spec fn tree_upto(fields: Seq<FieldView>, n: nat) -> Seq<char>
    decreases n,
{
    if n <= 1 {
        source_text(fields[0].ty)
    } else {
        conjunct_text(tree_upto(fields, (n - 1) as nat), source_text(fields[n - 1].ty))
    }
}

/// The type of that intersection, nested to the left.
pub open spec fn tree_text(fields: Seq<FieldView>) -> Seq<char> {
    tree_upto(fields, fields.len())
}

/// The type of that intersection, nested to the left.
fn tree(fields: &Vec<Field>) -> (text: String)
    requires
        fields@.len() > 0,
    ensures
        text@ == tree_text(viewed_fields(fields@)),
{
    let mut text = source(fields[0].ty.as_str());
    let mut i: usize = 1;
    while i < fields.len()
        invariant
            1 <= i <= fields@.len(),
            text@ == tree_upto(viewed_fields(fields@), i as nat),
        decreases fields@.len() - i,
    {
        text = conjunct(text.as_str(), source(fields[i].ty.as_str()).as_str());
        i += 1;
    }
    text
}

/// The verdicts of every field, folded from the innermost pair by the operator of each node.
pub open spec fn verdict_upto(fields: Seq<FieldView>, n: nat) -> Seq<char>
    decreases n,
{
    if n <= 1 {
        keep_text(fields[0].ident)
    } else {
        fold_text(
            if n == fields.len() {
                "N"@
            } else {
                node_text((n - 1) as nat)
            },
            verdict_upto(fields, (n - 1) as nat),
            keep_text(fields[n - 1].ident),
        )
    }
}

/// The verdicts of every field, folded from the innermost pair by the operator of each node.
pub open spec fn verdict_text(fields: Seq<FieldView>) -> Seq<char> {
    verdict_upto(fields, fields.len())
}

/// The verdicts of every field, folded from the innermost pair by the operator of each node.
fn verdict(fields: &Vec<Field>) -> (text: String)
    requires
        fields@.len() > 0,
    ensures
        text@ == verdict_text(viewed_fields(fields@)),
{
    let mut text = keep(fields[0].ident.as_str());
    let mut i: usize = 1;
    while i < fields.len()
        invariant
            1 <= i <= fields@.len(),
            text@ == verdict_upto(viewed_fields(fields@), i as nat),
        decreases fields@.len() - i,
    {
        text = if i + 1 == fields.len() {
            fold("N", text.as_str(), keep(fields[i].ident.as_str()).as_str())
        } else {
            fold(node(i).as_str(), text.as_str(), keep(fields[i].ident.as_str()).as_str())
        };
        i += 1;
    }
    text
}

/// The node `k` steps below that of the reader, over `count` legs.
pub open spec fn parent_text(count: nat, k: nat) -> Seq<char> {
    if k == 0 {
        "N"@
    } else {
        node_text((count - k - 1) as nat)
    }
}

/// The node `k` steps below that of the reader, over `count` legs.
fn parent(count: usize, k: usize) -> (text: String)
    requires
        k + 1 <= count,
    ensures
        text@ == parent_text(count as nat, k as nat),
{
    if k == 0 {
        "N".to_owned()
    } else {
        node(count - k - 1)
    }
}

/// The bounds that ascend the tree of the reader: one for each node. A single field folds nothing.
pub open spec fn ascent_piece(count: nat) -> spec_fn(int) -> Seq<char> {
    |i: int| {
        let depth = (count - 1 - i) as nat;
        if depth == 1 {
            ascent_last_text(parent_text(count, i as nat))
        } else {
            ascent_next_text(parent_text(count, i as nat), node_text((depth - 1) as nat))
        }
    }
}

/// The bounds that ascend the tree of the reader: one for each node. A single field folds nothing.
pub open spec fn ascent_text(count: nat) -> Seq<char> {
    pieces(if count == 0 { 0 } else { (count - 1) as nat }, ascent_piece(count))
}

/// The bounds that ascend the tree of the reader: one for each node. A single field folds nothing.
fn ascent(count: usize) -> (text: String)
    ensures
        text@ == ascent_text(count as nat),
{
    let n: usize = if count == 0 {
        0
    } else {
        count - 1
    };
    each(
        n,
        Ghost(ascent_piece(count as nat)),
        |i: usize| -> (piece: String)
            requires
                i < n,
            ensures
                piece@ == ascent_piece(count as nat)(i as int)
        {
            let depth: usize = count - 1 - i;
            if depth == 1 {
                ascent_last(parent(count, i).as_str())
            } else {
                ascent_next(parent(count, i).as_str(), node(depth - 1).as_str())
            }
        },
    )
}

/// The reader: one boxed stream per field, as visible as the type.
pub open spec fn structure_text(
    vis: Seq<char>,
    reader_name: Seq<char>,
    fields: Seq<FieldView>,
) -> Seq<char> {
    reader_text(vis, reader_name, reader_fields_text(fields))
}

/// The reader: one boxed stream per field, as visible as the type.
fn structure(vis: &str, reader_name: &str, fields: &Vec<Field>) -> (text: String)
    ensures
        text@ == structure_text(vis@, reader_name@, viewed_fields(fields@)),
{
    reader(vis, reader_name, reader_fields(fields).as_str())
}

/// The implementation that assembles the reader from any combination of the columns.
pub open spec fn composite_text(
    name: Seq<char>,
    reader_name: Seq<char>,
    fields: Seq<FieldView>,
) -> Seq<char> {
    composite_impl_text(
        name,
        reader_name,
        nodes_text(fields.len()),
        builds_text(fields.len()),
        descent_text(fields),
        unpack_text(fields),
        build_text(fields),
        idents_text(fields),
    )
}

/// The implementation that assembles the reader from any combination of the columns.
fn composite(name: &str, reader_name: &str, fields: &Vec<Field>) -> (text: String)
    ensures
        text@ == composite_text(name@, reader_name@, viewed_fields(fields@)),
{
    composite_impl(
        name,
        reader_name,
        nodes(fields.len()).as_str(),
        builds(fields.len()).as_str(),
        descent(fields).as_str(),
        unpack(fields).as_str(),
        build(fields).as_str(),
        idents(fields).as_str(),
    )
}

/// The steps of one pull of the reader: every stream is pulled before any outcome is inspected, and any
/// error is returned before an absent item is.
pub open spec fn steps_text(fields: Seq<FieldView>) -> Seq<char> {
    pulls_text(fields) + failures_text(fields) + inspections_text(fields)
}

/// The steps of one pull of the reader.
fn steps(fields: &Vec<Field>) -> (text: String)
    ensures
        text@ == steps_text(viewed_fields(fields@)),
{
    let text: String = joined(pulls(fields).as_str(), failures(fields).as_str());
    joined(text.as_str(), inspections(fields).as_str())
}

/// The implementation that pulls every stream before it inspects any outcome, and rebuilds the item.
pub open spec fn iterate_text(
    name: Seq<char>,
    reader_name: Seq<char>,
    fields: Seq<FieldView>,
) -> Seq<char> {
    iterator_impl_text(
        name,
        reader_name,
        nodes_text(fields.len()),
        ascent_text(fields.len()),
        steps_text(fields),
        idents_text(fields),
        verdict_text(fields),
    )
}

/// The implementation that pulls every stream before it inspects any outcome, and rebuilds the item.
fn iterate(name: &str, reader_name: &str, fields: &Vec<Field>) -> (text: String)
    requires
        fields@.len() > 0,
    ensures
        text@ == iterate_text(name@, reader_name@, viewed_fields(fields@)),
{
    iterator_impl(
        name,
        reader_name,
        nodes(fields.len()).as_str(),
        ascent(fields.len()).as_str(),
        steps(fields).as_str(),
        idents(fields).as_str(),
        verdict(fields).as_str(),
    )
}

/// The implementation that opens every column, and hands their intersection to the one that assembles
/// the reader.
pub open spec fn unfiltered_text(
    name: Seq<char>,
    reader_name: Seq<char>,
    fields: Seq<FieldView>,
) -> Seq<char> {
    unfiltered_impl_text(
        name,
        reader_name,
        stream_bounds_text(fields),
        columns_text(fields),
        combined_text(fields),
        tree_text(fields),
    )
}

/// The implementation that opens every column.
fn unfiltered(name: &str, reader_name: &str, fields: &Vec<Field>) -> (text: String)
    requires
        fields@.len() > 0,
    ensures
        text@ == unfiltered_text(name@, reader_name@, viewed_fields(fields@)),
{
    unfiltered_impl(
        name,
        reader_name,
        stream_bounds(fields).as_str(),
        columns(fields).as_str(),
        combined(fields).as_str(),
        tree(fields).as_str(),
    )
}

/// The fields of a type in the order of their names.
pub open spec fn fields_of(body: Body) -> Result<Seq<FieldView>, Refusal> {
    match body {
        Body::Named(fields) => if fields@.len() == 0 {
            Err(Refusal::Empty)
        } else {
            Ok(sorted(viewed_fields(fields@)))
        },
        Body::Tuple => Err(Refusal::Unnamed),
        Body::Unit => Err(Refusal::Empty),
        Body::Other => Err(Refusal::Unsupported),
    }
}

/// The fields of a type in the order of their names.
pub fn fields(body: Body) -> (fields: Result<Vec<Field>, Refusal>)
    ensures
        match fields {
            Ok(f) => fields_of(body) == Ok::<_, Refusal>(viewed_fields(f@)) && f@.len() > 0,
            Err(e) => fields_of(body) == Err::<Seq<FieldView>, Refusal>(e),
        },
{
    match body {
        Body::Named(fields) => {
            if fields.len() == 0 {
                return Err(Refusal::Empty);
            }
            proof {
                crate::derive::field::law_sorted(viewed_fields(fields@));
            }
            let by_name: Vec<Field> = sort(fields);
            assert(viewed_fields(by_name@).len() == by_name@.len());
            Ok(by_name)
        },
        Body::Tuple => Err(Refusal::Unnamed),
        Body::Unit => Err(Refusal::Empty),
        Body::Other => Err(Refusal::Unsupported),
    }
}

/// The expansion of a type whose fields, in the order of their names, are `fields`.
pub open spec fn expansion(vis: Seq<char>, name: Seq<char>, fields: Seq<FieldView>) -> Seq<char> {
    let reader_name = unraw_text(name) + "Reader"@;
    block_text(
        structure_text(vis, reader_name, fields),
        composite_text(name, reader_name, fields),
        iterate_text(name, reader_name, fields),
        unfiltered_text(name, reader_name, fields),
    )
}

/// Expands a type.
pub fn expand(input: Input) -> (code: Result<String, Refusal>)
    ensures
        match code {
            Ok(text) => fields_of(input.body) is Ok && text@ == expansion(
                input.vis@,
                input.ident@,
                fields_of(input.body)->Ok_0,
            ),
            Err(e) => fields_of(input.body) == Err::<Seq<FieldView>, Refusal>(e),
        },
{
    let fields: Vec<Field> = match fields(input.body) {
        Ok(fields) => fields,
        Err(e) => return Err(e),
    };
    let reader_name: String = joined(unraw(input.ident.as_str()).as_str(), "Reader");
    let (vis, name) = (input.vis.as_str(), input.ident.as_str());
    let reader_name: &str = reader_name.as_str();
    Ok(
        block(
            structure(vis, reader_name, &fields).as_str(),
            composite(name, reader_name, &fields).as_str(),
            iterate(name, reader_name, &fields).as_str(),
            unfiltered(name, reader_name, &fields).as_str(),
        ),
    )
}

} // verus!
