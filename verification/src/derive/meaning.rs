//! What the generated code means.
//!
//! The methods of the expansion are given here as short programs: each has a text, which is what the
//! expansion writes, and a meaning, which is what running that text does. Fields are told apart by their
//! places.

use crate::derive::field::{sorted, unraw_text, viewed_fields, FieldView};
use crate::derive::read::{
    ascent_piece, ascent_text, bindings_piece, build_piece, builds_piece, builds_text, columns_piece,
    combined_upto, composite_text, descent_text, expand, failures_piece, idents_piece,
    inspections_piece, iterate_text, legs_piece, levels_piece, nodes_piece, nodes_text, pieces,
    pulls_piece, reader_fields_piece, stream_bounds_piece, stream_bounds_text, structure_text, tree_upto,
    unfiltered_text, unpack_text, verdict_upto, Body, Input, Refusal,
};
use crate::derive::lockstep::{first_error, heads_of};
use crate::read::outcome::Outcome;
use crate::text::decimal;
use vstd::prelude::*;

verus! {

// ---------------------------------------------------------------- types

/// A type that the code names.
pub enum Name {
    /// What the source resolves to.
    Source,
    /// What the reader was resolved from.
    Reader,
    /// An interior level of the combination.
    Node(nat),
    /// A leg of the combination.
    Leg(nat),
}

/// The text of such a name.
pub open spec fn name_text(name: Name) -> Seq<char> {
    match name {
        Name::Source => "< S as :: msca :: query :: Select < 'a > > :: Build"@,
        Name::Reader => "N"@,
        Name::Node(level) => "N"@ + decimal(level),
        Name::Leg(index) => "B"@ + decimal(index),
    }
}

/// The text of names as a list.
pub open spec fn parameters_text(names: Seq<Name>) -> Seq<char>
    decreases names.len(),
{
    if names.len() == 0 {
        Seq::empty()
    } else {
        parameters_text(names.drop_last()) + (name_text(names.last()) + " , "@)
    }
}

/// The interior levels of a combination of `n` legs.
pub open spec fn interior_names(n: nat) -> Seq<Name> {
    Seq::new(
        if n < 2 {
            0
        } else {
            (n - 2) as nat
        },
        |i: int| Name::Node((i + 1) as nat),
    )
}

/// The legs of a combination of `n` legs. A single leg is the whole.
pub open spec fn leg_names(n: nat) -> Seq<Name> {
    Seq::new(
        if n == 1 {
            0
        } else {
            n
        },
        |i: int| Name::Leg(i as nat),
    )
}

/// What the code asks of the types.
pub enum Ask {
    /// A combination has a left part and a last leg.
    Splits(Name, Name, Name),
    /// A leg builds the items of a field.
    Builds(Name, int),
    /// A node combines.
    Combines(Name),
    /// A node combines, and has a left part.
    Holds(Name, Name),
    /// A field can be read on its own.
    Reads(int),
}

/// The text of what is asked.
pub open spec fn ask_text(fields: Seq<FieldView>, ask: Ask) -> Seq<char> {
    match ask {
        Ask::Splits(node, left, last) => name_text(node) + " : :: msca :: Combine < L0 = "@ + name_text(
            left,
        ) + " , L1 = "@ + name_text(last) + " > , "@,
        Ask::Builds(leg, i) => name_text(leg) + " : :: msca :: query :: Build < 'a , Item = "@
            + fields[i].ty + " > , "@,
        Ask::Combines(node) => name_text(node) + " : :: msca :: Combine , "@,
        Ask::Holds(node, left) => name_text(node) + " : :: msca :: Combine < L0 = "@ + name_text(left)
            + " > , "@,
        Ask::Reads(i) => fields[i].ty
            + " : :: msca :: Read + :: core :: clone :: Clone + 'a , < "@ + fields[i].ty
            + " as :: msca :: Read > :: Src < 'a > : :: msca :: Deserialize < 'a , Ok = < "@
            + fields[i].ty + " as :: msca :: Read > :: Src < 'a > > + :: msca :: Reader < 'a , "@
            + fields[i].ty + " > , :: msca :: Schema : :: msca :: schema :: Unfolder < "@ + fields[i].ty
            + " > , "@,
    }
}

/// The text of everything that is asked.
pub open spec fn asks_text(fields: Seq<FieldView>, asks: Seq<Ask>) -> Seq<char>
    decreases asks.len(),
{
    if asks.len() == 0 {
        Seq::empty()
    } else {
        asks_text(fields, asks.drop_last()) + ask_text(fields, asks.last())
    }
}

/// What holds the first `depth` legs: the first leg alone, or the level that ends with the last of them.
pub open spec fn holder(depth: int) -> Name {
    if depth == 1 {
        Name::Leg(0)
    } else {
        Name::Node((depth - 1) as nat)
    }
}

/// What is asked of a combination of `n` legs: each level splits into the one below and its last leg.
pub open spec fn splits(n: nat) -> Seq<Ask> {
    Seq::new(
        if n == 0 {
            0
        } else {
            (n - 1) as nat
        },
        |i: int|
            Ask::Splits(
                if i == 0 {
                    Name::Source
                } else {
                    holder(n - i)
                },
                holder(n - 1 - i),
                Name::Leg((n - 1 - i) as nat),
            ),
    )
}

/// What is asked of the legs of a combination: each builds the items of its field.
pub open spec fn leg_asks(n: nat) -> Seq<Ask> {
    Seq::new(n, |i: int| Ask::Builds(Name::Leg(i as nat), i))
}

/// What assembling asks of the types.
pub open spec fn assembling_asks(n: nat) -> Seq<Ask> {
    if n == 1 {
        seq![Ask::Builds(Name::Source, 0)]
    } else {
        splits(n) + leg_asks(n)
    }
}

/// What pulling asks of the types: each level combines, and all but the innermost hold the one below.
pub open spec fn pulling_asks(n: nat) -> Seq<Ask> {
    Seq::new(
        if n == 0 {
            0
        } else {
            (n - 1) as nat
        },
        |i: int|
            {
                let node = if i == 0 {
                    Name::Reader
                } else {
                    Name::Node((n - i - 1) as nat)
                };
                if i == n - 2 {
                    Ask::Combines(node)
                } else {
                    Ask::Holds(node, Name::Node((n - 2 - i) as nat))
                }
            },
    )
}

/// What opening asks of the types.
pub open spec fn opening_asks(n: nat) -> Seq<Ask> {
    Seq::new(n, |i: int| Ask::Reads(i))
}

/// Pieces that are those of what is asked make up its text.
proof fn lemma_asks(fields: Seq<FieldView>, asks: Seq<Ask>, piece: spec_fn(int) -> Seq<char>)
    requires
        forall|i: int| 0 <= i < asks.len() ==> #[trigger] piece(i) == ask_text(fields, asks[i]),
    ensures
        pieces(asks.len(), piece) == asks_text(fields, asks),
    decreases asks.len(),
{
    if asks.len() > 0 {
        let fewer = asks.drop_last();
        assert forall|i: int| 0 <= i < fewer.len() implies #[trigger] piece(i) == ask_text(
            fields,
            fewer[i],
        ) by {
            assert(fewer[i] == asks[i]);
        }
        lemma_asks(fields, fewer, piece);
        assert(piece(asks.len() - 1) == ask_text(fields, asks.last()));
    }
}

/// The text of what is asked is that of the first and that of the rest.
proof fn lemma_asks_sum(fields: Seq<FieldView>, a: Seq<Ask>, b: Seq<Ask>)
    ensures
        asks_text(fields, a + b) == asks_text(fields, a) + asks_text(fields, b),
    decreases b.len(),
{
    if b.len() == 0 {
        assert(a + b =~= a);
        assert(asks_text(fields, a) + asks_text(fields, b) =~= asks_text(fields, a));
    } else {
        lemma_asks_sum(fields, a, b.drop_last());
        assert((a + b).drop_last() =~= a + b.drop_last());
        assert((a + b).last() == b.last());
        assert(asks_text(fields, a + b) =~= asks_text(fields, a) + asks_text(fields, b));
    }
}

/// Pieces that are those of names make up their list.
proof fn lemma_parameters(names: Seq<Name>, piece: spec_fn(int) -> Seq<char>)
    requires
        forall|i: int| 0 <= i < names.len() ==> #[trigger] piece(i) == name_text(names[i]) + " , "@,
    ensures
        pieces(names.len(), piece) == parameters_text(names),
    decreases names.len(),
{
    if names.len() > 0 {
        let fewer = names.drop_last();
        assert forall|i: int| 0 <= i < fewer.len() implies #[trigger] piece(i) == name_text(fewer[i])
            + " , "@ by {
            assert(fewer[i] == names[i]);
        }
        lemma_parameters(fewer, piece);
        assert(piece(names.len() - 1) == name_text(names.last()) + " , "@);
    }
}

/// The expansion writes the parameters and what it asks of them as above.
proof fn lemma_type_texts(fields: Seq<FieldView>)
    requires
        fields.len() > 0,
    ensures
        nodes_text(fields.len()) == parameters_text(interior_names(fields.len())),
        builds_text(fields.len()) == parameters_text(leg_names(fields.len())),
        descent_text(fields) == asks_text(fields, assembling_asks(fields.len())),
        ascent_text(fields.len()) == asks_text(fields, pulling_asks(fields.len())),
        stream_bounds_text(fields) == asks_text(fields, opening_asks(fields.len())),
{
    let n = fields.len();
    lemma_parameters(interior_names(n), nodes_piece());
    lemma_parameters(leg_names(n), builds_piece());
    lemma_asks(fields, pulling_asks(n), ascent_piece(n));
    lemma_asks(fields, opening_asks(n), stream_bounds_piece(fields));
    if n == 1 {
        let one = assembling_asks(1);
        reveal_with_fuel(asks_text, 2);
        assert(one.drop_last() =~= Seq::<Ask>::empty());
        assert(asks_text(fields, one) =~= descent_text(fields));
    } else {
        lemma_asks(fields, splits(n), levels_piece(n));
        lemma_asks(fields, leg_asks(n), legs_piece(fields));
        lemma_asks_sum(fields, splits(n), leg_asks(n));
    }
}

/// The part of a combination of `n` legs that a name stands for.
pub open spec fn part_of(n: nat, name: Name) -> Tree {
    match name {
        Name::Source => left_tree(n),
        Name::Reader => left_tree(n),
        Name::Node(level) => left_tree(level + 1),
        Name::Leg(index) => Tree::Leaf(index as int),
    }
}

/// Whether what is asked holds of a combination of `n` legs.
pub open spec fn granted(n: nat, ask: Ask) -> bool {
    match ask {
        Ask::Splits(node, left, last) => part_of(n, last) matches Tree::Leaf(k) && part_of(n, node)
            == Tree::Pair(Box::new(part_of(n, left)), k),
        Ask::Builds(leg, i) => part_of(n, leg) == Tree::Leaf(i),
        Ask::Combines(node) => part_of(n, node) is Pair,
        Ask::Holds(node, left) => part_of(n, node) matches Tree::Pair(rest, _) && *rest == part_of(
            n,
            left,
        ),
        Ask::Reads(i) => 0 <= i < n,
    }
}

/// Whatever the code asks of the types holds of the combination that it opens, so that each leg builds the
/// items of its own field.
pub proof fn law_what_is_asked_is_granted(n: nat, i: int)
    requires
        n > 0,
    ensures
        0 <= i < assembling_asks(n).len() ==> granted(n, assembling_asks(n)[i]),
        0 <= i < pulling_asks(n).len() ==> granted(n, pulling_asks(n)[i]),
        0 <= i < opening_asks(n).len() ==> granted(n, opening_asks(n)[i]),
{
    assert(left_tree(1) == Tree::Leaf(0));
    if 0 <= i < n - 1 {
        assert(left_tree((n - i) as nat) == Tree::Pair(
            Box::new(left_tree((n - i - 1) as nat)),
            n - i - 1,
        ));
    }
}

// ---------------------------------------------------------------- pulling

/// A statement of the method that pulls the reader.
pub enum Line {
    /// Pulls the stream of a field into a variable, and ends where the stream has ended.
    Pull {
        /// The variable.
        into: int,
        /// The stream.
        from: int,
    },
    /// Returns what a variable holds where it is an error.
    Guard {
        /// The variable.
        of: int,
    },
    /// Takes what a variable holds apart: the item of an included or excluded outcome, with whether it is
    /// included. Returns any other outcome.
    Inspect {
        /// The field that the item and its flag belong to.
        into: int,
        /// The variable.
        of: int,
    },
}

/// The text of a statement.
pub open spec fn line_text(fields: Seq<FieldView>, line: Line) -> Seq<char> {
    match line {
        Line::Pull { into, from } => "let "@ + fields[into].ident
            + " = :: core :: iter :: Iterator :: next (& mut self . "@ + fields[from].ident
            + ") ? ; "@,
        Line::Guard { of } => "if let :: msca :: Outcome :: Error (e) = "@ + fields[of].ident
            + " { return :: core :: convert :: Into :: into (:: msca :: Outcome :: Error (e)) ; } "@,
        Line::Inspect { into, of } => "let ("@ + ("keep_"@ + unraw_text(fields[into].ident)) + " , "@
            + fields[into].ident + ") = match "@ + fields[of].ident
            + " { :: msca :: Outcome :: Include (item) => (true , item) , :: msca :: Outcome :: Exclude (item) => (false , item) , :: msca :: Outcome :: Error (e) => { return :: core :: convert :: Into :: into (:: msca :: Outcome :: Error (e)) ; } :: msca :: Outcome :: Absent => { return :: core :: convert :: Into :: into (:: msca :: Outcome :: Absent) ; } } ; "@,
    }
}

/// The text of statements, one after the other.
pub open spec fn lines_text(fields: Seq<FieldView>, lines: Seq<Line>) -> Seq<char>
    decreases lines.len(),
{
    if lines.len() == 0 {
        Seq::empty()
    } else {
        lines_text(fields, lines.drop_last()) + line_text(fields, lines.last())
    }
}

/// How the flags of the fields are folded into a verdict.
pub enum Fold {
    /// The flag of a field.
    Flag(int),
    /// A verdict on some fields, combined with the flag of one more by the operator of a node: that of the
    /// reader, or that of an interior level.
    Node(Option<nat>, Box<Fold>, int),
}

/// The text of a fold.
pub open spec fn fold_words(fields: Seq<FieldView>, fold: Fold) -> Seq<char>
    decreases fold,
{
    match fold {
        Fold::Flag(i) => "keep_"@ + unraw_text(fields[i].ident),
        Fold::Node(node, rest, i) => "< "@ + (match node {
            None => "N"@,
            Some(level) => "N"@ + decimal(level),
        }) + " as :: msca :: Combine > :: combine ("@ + fold_words(fields, *rest) + " , "@ + ("keep_"@
            + unraw_text(fields[i].ident)) + ") "@,
    }
}

/// What is given for a rebuilt item.
pub enum Tail {
    /// The item is included where the verdict holds, and excluded where it does not.
    IncludeWhereTrue,
    /// The item is excluded where the verdict holds, and included where it does not.
    ExcludeWhereTrue,
}

/// The text of a tail.
pub open spec fn tail_text(tail: Tail) -> Seq<char> {
    match tail {
        Tail::IncludeWhereTrue => " { true => :: msca :: Outcome :: Include (item) , false => :: msca :: Outcome :: Exclude (item) , } ; :: core :: convert :: Into :: into (outcome) } } "@,
        Tail::ExcludeWhereTrue => " { true => :: msca :: Outcome :: Exclude (item) , false => :: msca :: Outcome :: Include (item) , } ; :: core :: convert :: Into :: into (outcome) } } "@,
    }
}

/// The method that pulls the reader.
pub struct Pulling {
    /// The statements that unpack the outcomes.
    pub lines: Seq<Line>,
    /// The fields that the item is rebuilt from.
    pub row: Seq<int>,
    /// The verdict on the item.
    pub verdict: Fold,
    /// What is given.
    pub tail: Tail,
}

/// The names of some fields as a list.
pub open spec fn names_text(fields: Seq<FieldView>, row: Seq<int>) -> Seq<char>
    decreases row.len(),
{
    if row.len() == 0 {
        Seq::empty()
    } else {
        names_text(fields, row.drop_last()) + (fields[row.last()].ident + " , "@)
    }
}

/// The text of the implementation that pulls the reader.
pub open spec fn pulling_text(
    name: Seq<char>,
    reader_name: Seq<char>,
    fields: Seq<FieldView>,
    method: Pulling,
) -> Seq<char> {
    "impl < 'a , N , "@ + parameters_text(interior_names(fields.len())) + " > :: core :: iter :: Iterator for "@ + reader_name
        + " < 'a , N > where "@ + asks_text(fields, pulling_asks(fields.len())) + " { type Item = :: msca :: Outcome < "@
        + name
        + " > ; fn next (& mut self) -> :: core :: option :: Option < :: msca :: Outcome < "@ + name
        + " > > { "@ + lines_text(fields, method.lines) + " let item = "@ + name + " { "@ + names_text(
        fields,
        method.row,
    ) + " } ; let outcome = match "@ + fold_words(fields, method.verdict) + tail_text(method.tail)
}

/// The places of `n` fields.
pub open spec fn places(n: nat) -> Seq<int> {
    Seq::new(n, |i: int| i)
}

/// The fold of the flags of the first `k` of `n` fields, from the innermost pair on.
pub open spec fn folded(n: nat, k: nat) -> Fold
    decreases k,
{
    if k <= 1 {
        Fold::Flag(0)
    } else {
        Fold::Node(
            if k == n {
                None
            } else {
                Some((k - 1) as nat)
            },
            Box::new(folded(n, (k - 1) as nat)),
            k - 1,
        )
    }
}

/// The pulls of the first `n` fields.
pub open spec fn pull_lines(n: nat) -> Seq<Line> {
    Seq::new(n, |i: int| Line::Pull { into: i, from: i })
}

/// The guards of the first `n` fields.
pub open spec fn guard_lines(n: nat) -> Seq<Line> {
    Seq::new(n, |i: int| Line::Guard { of: i })
}

/// The inspections of the first `n` fields.
pub open spec fn inspect_lines(n: nat) -> Seq<Line> {
    Seq::new(n, |i: int| Line::Inspect { into: i, of: i })
}

/// The method that pulls a reader of `n` fields.
pub open spec fn pulling(n: nat) -> Pulling {
    Pulling {
        lines: pull_lines(n) + guard_lines(n) + inspect_lines(n),
        row: places(n),
        verdict: folded(n, n),
        tail: Tail::IncludeWhereTrue,
    }
}

/// Pieces that are those of statements make up the text of the statements.
proof fn lemma_lines(fields: Seq<FieldView>, lines: Seq<Line>, piece: spec_fn(int) -> Seq<char>)
    requires
        forall|i: int| 0 <= i < lines.len() ==> #[trigger] piece(i) == line_text(fields, lines[i]),
    ensures
        pieces(lines.len(), piece) == lines_text(fields, lines),
    decreases lines.len(),
{
    if lines.len() > 0 {
        let fewer = lines.drop_last();
        assert forall|i: int| 0 <= i < fewer.len() implies #[trigger] piece(i) == line_text(
            fields,
            fewer[i],
        ) by {
            assert(fewer[i] == lines[i]);
        }
        lemma_lines(fields, fewer, piece);
        assert(piece(lines.len() - 1) == line_text(fields, lines.last()));
    }
}

/// The text of statements is that of the first ones and that of the rest.
proof fn lemma_lines_sum(fields: Seq<FieldView>, a: Seq<Line>, b: Seq<Line>)
    ensures
        lines_text(fields, a + b) == lines_text(fields, a) + lines_text(fields, b),
    decreases b.len(),
{
    if b.len() == 0 {
        assert(a + b =~= a);
        assert(lines_text(fields, a) + lines_text(fields, b) =~= lines_text(fields, a));
    } else {
        lemma_lines_sum(fields, a, b.drop_last());
        assert((a + b).drop_last() =~= a + b.drop_last());
        assert((a + b).last() == b.last());
        assert(lines_text(fields, a + b) =~= lines_text(fields, a) + lines_text(fields, b));
    }
}

/// The names of the fields are listed one after the other.
proof fn lemma_names(fields: Seq<FieldView>, n: nat)
    requires
        n <= fields.len(),
    ensures
        pieces(n, idents_piece(fields)) == names_text(fields, places(n)),
    decreases n,
{
    if n > 0 {
        lemma_names(fields, (n - 1) as nat);
        assert(places(n).drop_last() =~= places((n - 1) as nat));
        assert(idents_piece(fields)(n - 1) == fields[n - 1].ident + " , "@);
    }
}

/// The verdict is written as the fold of the flags.
proof fn lemma_folded(fields: Seq<FieldView>, k: nat)
    requires
        1 <= k <= fields.len(),
    ensures
        verdict_upto(fields, k) == fold_words(fields, folded(fields.len(), k)),
    decreases k,
{
    if k > 1 {
        lemma_folded(fields, (k - 1) as nat);
    }
}

/// The expansion pulls the reader by the program above.
proof fn lemma_pulling_text(name: Seq<char>, reader_name: Seq<char>, fields: Seq<FieldView>)
    requires
        fields.len() > 0,
    ensures
        iterate_text(name, reader_name, fields) == pulling_text(
            name,
            reader_name,
            fields,
            pulling(fields.len()),
        ),
{
    lemma_type_texts(fields);
    let n = fields.len();
    lemma_lines(fields, pull_lines(n), pulls_piece(fields));
    lemma_lines(fields, guard_lines(n), failures_piece(fields));
    lemma_lines(fields, inspect_lines(n), inspections_piece(fields));
    lemma_lines_sum(fields, pull_lines(n), guard_lines(n));
    lemma_lines_sum(fields, pull_lines(n) + guard_lines(n), inspect_lines(n));
    lemma_names(fields, n);
    lemma_folded(fields, n);
    assert(iterate_text(name, reader_name, fields) =~= pulling_text(
        name,
        reader_name,
        fields,
        pulling(n),
    ));
}

/// What the operator of a node makes of two verdicts.
pub type Operators = spec_fn(Option<nat>, bool, bool) -> bool;

/// What a fold makes of the flags.
pub open spec fn verdict_of(fold: Fold, flags: Seq<Option<bool>>, operators: Operators) -> bool
    decreases fold,
{
    match fold {
        Fold::Flag(i) => flags[i]->0,
        Fold::Node(node, rest, i) => operators(
            node,
            verdict_of(*rest, flags, operators),
            flags[i]->0,
        ),
    }
}

/// What is given for a rebuilt item.
pub open spec fn given<R>(tail: Tail, verdict: bool, item: R) -> Outcome<R> {
    match (tail, verdict) {
        (Tail::IncludeWhereTrue, true) => Outcome::Include(item),
        (Tail::IncludeWhereTrue, false) => Outcome::Exclude(item),
        (Tail::ExcludeWhereTrue, true) => Outcome::Exclude(item),
        (Tail::ExcludeWhereTrue, false) => Outcome::Include(item),
    }
}

/// What the method works on: the streams, the variables that hold outcomes, and the items and flags that
/// were taken apart.
#[verifier::ext_equal]
pub struct Frame<V> {
    /// The outcomes still to come of each stream.
    pub streams: Seq<Seq<Outcome<V>>>,
    /// What was pulled.
    pub held: Seq<Option<Outcome<V>>>,
    /// The items.
    pub items: Seq<Option<V>>,
    /// Whether the items are included.
    pub flags: Seq<Option<bool>>,
}

/// What the method does from statement `at` on: what is left of each stream, and what is given.
pub open spec fn ran<V>(method: Pulling, operators: Operators, at: nat, frame: Frame<V>) -> (
    Seq<Seq<Outcome<V>>>,
    Option<Outcome<Seq<V>>>,
)
    decreases method.lines.len() - at,
{
    if at >= method.lines.len() {
        (
            frame.streams,
            Some(
                given(
                    method.tail,
                    verdict_of(method.verdict, frame.flags, operators),
                    method.row.map_values(|i: int| frame.items[i]->0),
                ),
            ),
        )
    } else {
        match method.lines[at as int] {
            Line::Pull { into, from } => if frame.streams[from].len() == 0 {
                (frame.streams, None)
            } else {
                ran(
                    method,
                    operators,
                    at + 1,
                    Frame {
                        streams: frame.streams.update(from, frame.streams[from].skip(1)),
                        held: frame.held.update(into, Some(frame.streams[from][0])),
                        ..frame
                    },
                )
            },
            Line::Guard { of } => match frame.held[of] {
                Some(Outcome::Error(e)) => (frame.streams, Some(Outcome::Error(e))),
                _ => ran(method, operators, at + 1, frame),
            },
            Line::Inspect { into, of } => match frame.held[of] {
                Some(Outcome::Include(item)) => ran(
                    method,
                    operators,
                    at + 1,
                    Frame {
                        items: frame.items.update(into, Some(item)),
                        flags: frame.flags.update(into, Some(true)),
                        ..frame
                    },
                ),
                Some(Outcome::Exclude(item)) => ran(
                    method,
                    operators,
                    at + 1,
                    Frame {
                        items: frame.items.update(into, Some(item)),
                        flags: frame.flags.update(into, Some(false)),
                        ..frame
                    },
                ),
                Some(Outcome::Error(e)) => (frame.streams, Some(Outcome::Error(e))),
                _ => (frame.streams, Some(Outcome::Absent)),
            },
        }
    }
}

/// What one pull of the generated reader over `streams` does.
pub open spec fn next_of<V>(streams: Seq<Seq<Outcome<V>>>, operators: Operators) -> (
    Seq<Seq<Outcome<V>>>,
    Option<Outcome<Seq<V>>>,
) {
    let n = streams.len();
    ran(
        pulling(n),
        operators,
        0,
        Frame {
            streams,
            held: Seq::new(n, |i: int| None),
            items: Seq::new(n, |i: int| None),
            flags: Seq::new(n, |i: int| None),
        },
    )
}

/// The frame after the first `k` streams were pulled and the first `m` outcomes taken apart.
spec fn reached<V>(streams: Seq<Seq<Outcome<V>>>, k: nat, m: nat) -> Frame<V> {
    let n = streams.len();
    Frame {
        streams: Seq::new(
            n,
            |i: int|
                if i < k {
                    streams[i].skip(1)
                } else {
                    streams[i]
                },
        ),
        held: Seq::new(
            n,
            |i: int|
                if i < k {
                    Some(streams[i][0])
                } else {
                    None
                },
        ),
        items: Seq::new(
            n,
            |i: int|
                if i < m {
                    Some(item_in(streams[i][0]))
                } else {
                    None
                },
        ),
        flags: Seq::new(
            n,
            |i: int|
                if i < m {
                    Some(streams[i][0] is Include)
                } else {
                    None
                },
        ),
    }
}

/// The item of an included or excluded outcome.
pub open spec fn item_in<V>(outcome: Outcome<V>) -> V {
    match outcome {
        Outcome::Include(item) => item,
        Outcome::Exclude(item) => item,
        _ => arbitrary(),
    }
}

/// The first statements pull every stream.
proof fn lemma_ran_pulls<V>(streams: Seq<Seq<Outcome<V>>>, operators: Operators, k: nat)
    requires
        k <= streams.len(),
        forall|i: int| 0 <= i < streams.len() ==> (#[trigger] streams[i]).len() > 0,
    ensures
        ran(pulling(streams.len()), operators, k, reached(streams, k, 0)) == ran(
            pulling(streams.len()),
            operators,
            streams.len(),
            reached(streams, streams.len(), 0),
        ),
    decreases streams.len() - k,
{
    let n = streams.len();
    if k < n {
        let frame = reached(streams, k, 0);
        assert(pulling(n).lines[k as int] == (Line::Pull { into: k as int, from: k as int }));
        assert(streams[k as int].len() > 0);
        let next = Frame {
            streams: frame.streams.update(k as int, frame.streams[k as int].skip(1)),
            held: frame.held.update(k as int, Some(frame.streams[k as int][0])),
            ..frame
        };
        assert(next =~= reached(streams, k + 1, 0));
        lemma_ran_pulls(streams, operators, k + 1);
    }
}

/// The next statements return the first error.
proof fn lemma_ran_guards<V>(streams: Seq<Seq<Outcome<V>>>, operators: Operators, k: nat)
    requires
        k <= streams.len(),
    ensures
        ({
            let n = streams.len();
            let frame = reached(streams, n, 0);
            ran(pulling(n), operators, n + k, frame) == match first_error(heads_of(streams), k) {
                Some(e) => (frame.streams, Some(Outcome::Error(e))),
                None => ran(pulling(n), operators, 2 * n, frame),
            }
        }),
    decreases streams.len() - k,
{
    let n = streams.len();
    let frame = reached(streams, n, 0);
    if k < n {
        assert(pulling(n).lines[(n + k) as int] == (Line::Guard { of: k as int }));
        assert(frame.held[k as int] == Some(heads_of(streams)[k as int]));
        lemma_ran_guards(streams, operators, k + 1);
    }
}

/// The last statements return the first absent item, or take every outcome apart.
proof fn lemma_ran_inspections<V>(streams: Seq<Seq<Outcome<V>>>, operators: Operators, k: nat)
    requires
        k <= streams.len(),
        forall|i: int| 0 <= i < streams.len() ==> !((#[trigger] streams[i])[0] is Error),
    ensures
        ({
            let n = streams.len();
            let frame = reached(streams, n, k);
            let whole = reached(streams, n, n);
            ran(pulling(n), operators, 2 * n + k, frame) == (
                frame.streams,
                Some(
                    if exists|i: int| k <= i < n && (#[trigger] streams[i])[0] is Absent {
                        Outcome::Absent
                    } else {
                        given(
                            Tail::IncludeWhereTrue,
                            verdict_of(folded(n, n), whole.flags, operators),
                            Seq::new(n, |i: int| item_in(streams[i][0])),
                        )
                    },
                ),
            )
        }),
    decreases streams.len() - k,
{
    let n = streams.len();
    let frame = reached(streams, n, k);
    if k < n {
        assert(pulling(n).lines[(2 * n + k) as int] == (Line::Inspect {
            into: k as int,
            of: k as int,
        }));
        assert(frame.held[k as int] == Some(streams[k as int][0]));
        if !(streams[k as int][0] is Absent) {
            let next = Frame {
                items: frame.items.update(k as int, Some(item_in(streams[k as int][0]))),
                flags: frame.flags.update(k as int, Some(streams[k as int][0] is Include)),
                ..frame
            };
            assert(next =~= reached(streams, n, k + 1));
            lemma_ran_inspections(streams, operators, k + 1);
            if exists|i: int| k <= i < n && (#[trigger] streams[i])[0] is Absent {
                let i = choose|i: int| k <= i < n && (#[trigger] streams[i])[0] is Absent;
                assert(k + 1 <= i);
            }
        }
    } else {
        let row = pulling(n).row.map_values(|i: int| frame.items[i]->0);
        assert(row =~= Seq::new(n, |i: int| item_in(streams[i][0])));
    }
}

/// One pull of the generated reader, while no stream has ended, takes one outcome of every stream and gives
/// one: the first error if there is one, an absent item if a field has none and there is no error, and
/// otherwise the item of each field together, included if and only if the fold of their flags holds.
pub proof fn law_pulls_rebuild_rows<V>(streams: Seq<Seq<Outcome<V>>>, operators: Operators)
    requires
        forall|i: int| 0 <= i < streams.len() ==> (#[trigger] streams[i]).len() > 0,
    ensures
        ({
            let n = streams.len();
            let (left, outcome) = next_of(streams, operators);
            let flags = Seq::new(n, |i: int| Some(streams[i][0] is Include));
            let row = Seq::new(n, |i: int| item_in(streams[i][0]));
            &&& left == streams.map_values(|stream: Seq<Outcome<V>>| stream.skip(1))
            &&& outcome == Some(
                if exists|i: int| 0 <= i < n && (#[trigger] streams[i])[0] is Error {
                    Outcome::Error(first_error(heads_of(streams), 0)->0)
                } else if exists|i: int| 0 <= i < n && (#[trigger] streams[i])[0] is Absent {
                    Outcome::Absent
                } else if verdict_of(folded(n, n), flags, operators) {
                    Outcome::Include(row)
                } else {
                    Outcome::Exclude(row)
                },
            )
        }),
{
    let n = streams.len();
    let start = Frame::<V> {
        streams,
        held: Seq::new(n, |i: int| None),
        items: Seq::new(n, |i: int| None),
        flags: Seq::new(n, |i: int| None),
    };
    assert(start =~= reached(streams, 0, 0));
    let heads = heads_of(streams);
    lemma_ran_pulls(streams, operators, 0);
    lemma_ran_guards(streams, operators, 0);
    assert(reached(streams, n, 0).streams =~= streams.map_values(
        |stream: Seq<Outcome<V>>| stream.skip(1),
    ));
    lemma_first_error(heads, 0);
    assert forall|i: int| 0 <= i < n implies heads[i] == (#[trigger] streams[i])[0] by {}
    if exists|i: int| 0 <= i < n && (#[trigger] streams[i])[0] is Error {
        let i = choose|i: int| 0 <= i < n && (#[trigger] streams[i])[0] is Error;
        assert(heads[i] is Error);
    } else {
        assert forall|i: int| 0 <= i < n implies !((#[trigger] streams[i])[0] is Error) by {}
        if let Some(e) = first_error(heads, 0) {
            let i = choose|i: int| 0 <= i < n && #[trigger] heads[i] == Outcome::<V>::Error(e);
            assert(streams[i][0] is Error);
        }
        lemma_ran_inspections(streams, operators, 0);
        assert(reached(streams, n, n).flags =~= Seq::new(
            n,
            |i: int| Some(streams[i][0] is Include),
        ));
    }
}

/// There is a first error if and only if there is one.
proof fn lemma_first_error<V>(heads: Seq<Outcome<V>>, from: nat)
    ensures
        match first_error(heads, from) {
            None => forall|i: int| from <= i < heads.len() ==> !(#[trigger] heads[i] is Error),
            Some(e) => exists|i: int|
                from <= i < heads.len() && #[trigger] heads[i] == Outcome::<V>::Error(e),
        },
    decreases heads.len() - from,
{
    if from < heads.len() {
        match heads[from as int] {
            Outcome::Error(e) => {
                assert(heads[from as int] == Outcome::<V>::Error(e));
            },
            _ => {
                lemma_first_error(heads, from + 1);
            },
        }
    }
}

/// A reader ends with its first stream that ends, and gives nothing then.
pub proof fn law_readers_end_with_their_streams<V>(
    streams: Seq<Seq<Outcome<V>>>,
    operators: Operators,
    ended: int,
)
    requires
        0 <= ended < streams.len(),
        streams[ended].len() == 0,
    ensures
        next_of(streams, operators).1 is None,
{
    let n = streams.len();
    let start = Frame::<V> {
        streams,
        held: Seq::new(n, |i: int| None),
        items: Seq::new(n, |i: int| None),
        flags: Seq::new(n, |i: int| None),
    };
    assert(start =~= reached(streams, 0, 0));
    lemma_ran_ends(streams, operators, 0, ended);
}

/// The pulls end at a stream that has ended.
proof fn lemma_ran_ends<V>(
    streams: Seq<Seq<Outcome<V>>>,
    operators: Operators,
    k: nat,
    ended: int,
)
    requires
        k <= ended < streams.len(),
        streams[ended].len() == 0,
    ensures
        ran(pulling(streams.len()), operators, k, reached(streams, k, 0)).1 is None,
    decreases ended - k,
{
    let n = streams.len();
    let frame = reached(streams, k, 0);
    assert(pulling(n).lines[k as int] == (Line::Pull { into: k as int, from: k as int }));
    if streams[k as int].len() > 0 {
        let next = Frame {
            streams: frame.streams.update(k as int, frame.streams[k as int].skip(1)),
            held: frame.held.update(k as int, Some(frame.streams[k as int][0])),
            ..frame
        };
        assert(next =~= reached(streams, k + 1, 0));
        lemma_ran_ends(streams, operators, k + 1, ended);
    }
}

/// The flags of the first fields, folded by one operator.
proof fn lemma_verdicts(n: nat, k: nat, flags: Seq<Option<bool>>)
    requires
        1 <= k <= n == flags.len(),
        forall|i: int| 0 <= i < n ==> (#[trigger] flags[i]) is Some,
    ensures
        verdict_of(folded(n, k), flags, |node: Option<nat>, a: bool, b: bool| a && b) == (forall|i: int|
            0 <= i < k ==> #[trigger] flags[i] == Some(true)),
        verdict_of(folded(n, k), flags, |node: Option<nat>, a: bool, b: bool| a || b) == (exists|i: int|
            0 <= i < k && #[trigger] flags[i] == Some(true)),
    decreases k,
{
    if k > 1 {
        lemma_verdicts(n, (k - 1) as nat, flags);
        assert(flags[k - 1] is Some);
        if exists|i: int| 0 <= i < k && #[trigger] flags[i] == Some(true) {
            let i = choose|i: int| 0 <= i < k && #[trigger] flags[i] == Some(true);
            assert(i < k - 1 || flags[k - 1] == Some(true));
        }
        if forall|i: int| 0 <= i < k - 1 ==> #[trigger] flags[i] == Some(true) {
            if flags[k - 1] == Some(true) {
                assert forall|i: int| 0 <= i < k implies #[trigger] flags[i] == Some(true) by {}
            }
        }
    } else {
        assert(flags[0] is Some);
        assert(flags[0] == Some(true) ==> forall|i: int| 0 <= i < k ==> #[trigger] flags[i] == Some(true));
    }
}

/// Over an intersection a row is included if and only if every field is, and over a union if and only if
/// some field is. So a row all of whose fields are included is itself included.
pub proof fn law_rows_are_included_by_their_fields<V>(streams: Seq<Seq<Outcome<V>>>)
    requires
        streams.len() > 0,
        forall|i: int|
            0 <= i < streams.len() ==> (#[trigger] streams[i]).len() > 0 && (streams[i][0] is Include
                || streams[i][0] is Exclude),
    ensures
        ({
            let row = Seq::new(streams.len(), |i: int| item_in(streams[i][0]));
            let both = |node: Option<nat>, a: bool, b: bool| a && b;
            let either = |node: Option<nat>, a: bool, b: bool| a || b;
            &&& next_of(streams, both).1 == Some(
                if forall|i: int| 0 <= i < streams.len() ==> (#[trigger] streams[i])[0] is Include {
                    Outcome::Include(row)
                } else {
                    Outcome::Exclude(row)
                },
            )
            &&& next_of(streams, either).1 == Some(
                if exists|i: int| 0 <= i < streams.len() && (#[trigger] streams[i])[0] is Include {
                    Outcome::Include(row)
                } else {
                    Outcome::Exclude(row)
                },
            )
        }),
{
    let n = streams.len();
    let flags = Seq::new(n, |i: int| Some(streams[i][0] is Include));
    let both = |node: Option<nat>, a: bool, b: bool| a && b;
    let either = |node: Option<nat>, a: bool, b: bool| a || b;
    law_pulls_rebuild_rows(streams, both);
    law_pulls_rebuild_rows(streams, either);
    lemma_verdicts(n, n, flags);
    assert forall|i: int| 0 <= i < n implies (#[trigger] flags[i] == Some(true)) == (
    streams[i][0] is Include) by {}
    if forall|i: int| 0 <= i < n ==> #[trigger] flags[i] == Some(true) {
        assert forall|i: int| 0 <= i < n implies (#[trigger] streams[i])[0] is Include by {
            assert(flags[i] == Some(true));
        }
    }
    if exists|i: int| 0 <= i < n && (#[trigger] streams[i])[0] is Include {
        let i = choose|i: int| 0 <= i < n && (#[trigger] streams[i])[0] is Include;
        assert(flags[i] == Some(true));
    }
    if exists|i: int| 0 <= i < n && #[trigger] flags[i] == Some(true) {
        let i = choose|i: int| 0 <= i < n && #[trigger] flags[i] == Some(true);
        assert(streams[i][0] is Include);
    }
}

// ---------------------------------------------------------------- opening

/// A combination of columns, nested to the left.
pub enum Tree {
    /// One column.
    Leaf(int),
    /// A combination, and one more column.
    Pair(Box<Tree>, int),
}

/// The combination of the first `k` columns in their order.
pub open spec fn left_tree(k: nat) -> Tree
    decreases k,
{
    if k <= 1 {
        Tree::Leaf(0)
    } else {
        Tree::Pair(Box::new(left_tree((k - 1) as nat)), k - 1)
    }
}

/// A statement that opens a column for a field.
pub struct Open {
    /// The field.
    pub into: int,
    /// The name that the column is opened under.
    pub name: Seq<char>,
    /// The type that the column is opened as.
    pub ty: Seq<char>,
}

/// The text of the statements that open columns.
pub open spec fn opens_text(fields: Seq<FieldView>, opens: Seq<Open>) -> Seq<char>
    decreases opens.len(),
{
    if opens.len() == 0 {
        Seq::empty()
    } else {
        opens_text(fields, opens.drop_last()) + ("let "@ + fields[opens.last().into].ident
            + " = query . column :: < "@ + opens.last().ty + " > (\""@ + opens.last().name
            + "\") ? ; "@)
    }
}

/// The text of the intersection of columns.
pub open spec fn intersection_text(fields: Seq<FieldView>, tree: Tree) -> Seq<char>
    decreases tree,
{
    match tree {
        Tree::Leaf(i) => fields[i].ident,
        Tree::Pair(rest, i) => ":: msca :: Join :: and ("@ + intersection_text(fields, *rest) + " , "@
            + fields[i].ident + ") ? "@,
    }
}

/// The text of the type of that intersection.
pub open spec fn shape_text(fields: Seq<FieldView>, tree: Tree) -> Seq<char>
    decreases tree,
{
    match tree {
        Tree::Leaf(i) => ":: msca :: query :: Src < 'a , "@ + fields[i].ty + " > "@,
        Tree::Pair(rest, i) => ":: msca :: Conjunct < "@ + shape_text(fields, *rest) + " , "@ + (
        ":: msca :: query :: Src < 'a , "@ + fields[i].ty + " > "@) + " > "@,
    }
}

/// The text of the implementation that opens every column.
pub open spec fn opening_text(
    name: Seq<char>,
    reader_name: Seq<char>,
    fields: Seq<FieldView>,
    opens: Seq<Open>,
    tree: Tree,
) -> Seq<char> {
    "impl < 'a > :: msca :: Unfiltered < 'a > for "@ + name + " where "@ + asks_text(fields, opening_asks(fields.len()))
        + " { fn unfiltered (query : & 'a :: msca :: Query < 'a > ,) -> :: core :: result :: Result < Self :: Src < 'a > , :: msca :: query :: Error > { "@
        + opens_text(fields, opens) + " let combined = "@ + intersection_text(fields, tree) + " ; < "@
        + name + " as :: msca :: Composite < 'a , "@ + shape_text(fields, tree)
        + " > > :: new (combined) } } impl :: msca :: Read for "@ + name + " { type Src < 'a > = "@
        + reader_name + " < 'a , "@ + shape_text(fields, tree) + " > ; } "@
}

/// The statements that open the column of each field: under the name of the field and as its type.
pub open spec fn opening(fields: Seq<FieldView>, n: nat) -> Seq<Open> {
    Seq::new(n, |i: int| Open { into: i, name: unraw_text(fields[i].ident), ty: fields[i].ty })
}

/// The columns are opened one after the other.
proof fn lemma_opens(fields: Seq<FieldView>, n: nat)
    requires
        n <= fields.len(),
    ensures
        pieces(n, columns_piece(fields)) == opens_text(fields, opening(fields, n)),
    decreases n,
{
    if n > 0 {
        lemma_opens(fields, (n - 1) as nat);
        assert(opening(fields, n).drop_last() =~= opening(fields, (n - 1) as nat));
    }
}

/// The columns are combined in their order.
proof fn lemma_combined(fields: Seq<FieldView>, k: nat)
    requires
        1 <= k <= fields.len(),
    ensures
        combined_upto(fields, k) == intersection_text(fields, left_tree(k)),
        tree_upto(fields, k) == shape_text(fields, left_tree(k)),
    decreases k,
{
    if k > 1 {
        lemma_combined(fields, (k - 1) as nat);
    }
}

/// The expansion opens and combines the columns by the program above.
proof fn lemma_opening_text(name: Seq<char>, reader_name: Seq<char>, fields: Seq<FieldView>)
    requires
        fields.len() > 0,
    ensures
        unfiltered_text(name, reader_name, fields) == opening_text(
            name,
            reader_name,
            fields,
            opening(fields, fields.len()),
            left_tree(fields.len()),
        ),
{
    lemma_type_texts(fields);
    lemma_opens(fields, fields.len());
    lemma_combined(fields, fields.len());
    assert(unfiltered_text(name, reader_name, fields) =~= opening_text(
        name,
        reader_name,
        fields,
        opening(fields, fields.len()),
        left_tree(fields.len()),
    ));
}

// ---------------------------------------------------------------- assembling

/// A statement that takes the resolved combination apart.
pub enum Bind {
    /// Binds the only leg.
    Only(int),
    /// Binds the last leg, and goes on with the rest.
    Next(int),
    /// Binds both legs of the innermost pair.
    Both(int, int),
}

/// The text of such statements.
pub open spec fn binds_text(fields: Seq<FieldView>, binds: Seq<Bind>) -> Seq<char>
    decreases binds.len(),
{
    if binds.len() == 0 {
        Seq::empty()
    } else {
        binds_text(fields, binds.drop_last()) + match binds.last() {
            Bind::Only(i) => "let "@ + fields[i].ident + " = node ; "@,
            Bind::Next(i) => "let (node , "@ + fields[i].ident
                + ") = :: msca :: Combine :: unpack (node) ; "@,
            Bind::Both(i, j) => "let ("@ + fields[i].ident + " , "@ + fields[j].ident
                + ") = :: msca :: Combine :: unpack (node) ; "@,
        }
    }
}

/// A statement that builds the stream of a leg under the settled mask.
pub struct Build {
    /// The leg.
    pub leg: int,
    /// Whether the mask is given away rather than copied.
    pub gives: bool,
}

/// The text of such statements.
pub open spec fn builds_words(fields: Seq<FieldView>, builds: Seq<Build>) -> Seq<char>
    decreases builds.len(),
{
    if builds.len() == 0 {
        Seq::empty()
    } else {
        builds_words(fields, builds.drop_last()) + ("let "@ + fields[builds.last().leg].ident
            + " = :: std :: boxed :: Box :: new (:: msca :: query :: Build :: build ("@
            + fields[builds.last().leg].ident + " , "@ + (if builds.last().gives {
            "mask"@
        } else {
            ":: core :: clone :: Clone :: clone (& mask)"@
        }) + ") ?) ; "@)
    }
}

/// The text of the implementation that assembles the reader.
pub open spec fn assembling_text(
    name: Seq<char>,
    reader_name: Seq<char>,
    fields: Seq<FieldView>,
    binds: Seq<Bind>,
    builds: Seq<Build>,
    row: Seq<int>,
) -> Seq<char> {
    "impl < 'a , S , "@ + parameters_text(interior_names(fields.len())) + " "@ + parameters_text(leg_names(fields.len()))
        + " > :: msca :: Composite < 'a , S > for "@ + name
        + " where S : :: msca :: query :: Select < 'a > , "@ + asks_text(fields, assembling_asks(fields.len()))
        + " { type Reader = "@ + reader_name
        + " < 'a , < S as :: msca :: query :: Select < 'a > > :: Build > ; fn new (src : S) -> :: core :: result :: Result < Self :: Reader , :: msca :: query :: Error > { let query = :: msca :: query :: Select :: query (& src) ; let mut mask = query . mask () ; let node = :: msca :: query :: Select :: select (src , & mut mask) ? ; "@
        + binds_text(fields, binds) + " "@ + builds_words(fields, builds)
        + " let src = :: core :: marker :: PhantomData ; :: core :: result :: Result :: Ok ("@
        + reader_name + " { "@ + names_text(fields, row) + " src }) } } "@
}

/// The statements that take a combination of `n` legs apart, from the last leg on.
pub open spec fn binding(n: nat) -> Seq<Bind> {
    if n == 1 {
        seq![Bind::Only(0)]
    } else {
        Seq::new(
            (n - 1) as nat,
            |i: int|
                if i == n - 2 {
                    Bind::Both(0, 1)
                } else {
                    Bind::Next(n - 1 - i)
                },
        )
    }
}

/// The statements that build `n` legs: the mask is copied for every leg but the last.
pub open spec fn building(n: nat, k: nat) -> Seq<Build> {
    Seq::new(k, |i: int| Build { leg: i, gives: i == n - 1 })
}

/// The legs are bound one after the other.
proof fn lemma_binds(fields: Seq<FieldView>, binds: Seq<Bind>)
    requires
        fields.len() >= 2,
        binds.len() <= fields.len() - 1,
        binds =~= binding(fields.len()).take(binds.len() as int),
    ensures
        pieces(binds.len(), bindings_piece(fields)) == binds_text(fields, binds),
    decreases binds.len(),
{
    let n = fields.len();
    if binds.len() > 0 {
        let fewer = binds.drop_last();
        assert(fewer =~= binding(n).take(fewer.len() as int));
        lemma_binds(fields, fewer);
        let i = binds.len() - 1;
        assert(binds.last() == binding(n)[i]);
        assert(pieces(binds.len(), bindings_piece(fields)) =~= binds_text(fields, binds));
    }
}

/// The legs are built one after the other.
proof fn lemma_builds(fields: Seq<FieldView>, k: nat)
    requires
        k <= fields.len(),
    ensures
        pieces(k, build_piece(fields)) == builds_words(fields, building(fields.len(), k)),
    decreases k,
{
    let n = fields.len();
    if k > 0 {
        lemma_builds(fields, (k - 1) as nat);
        assert(building(n, k).drop_last() =~= building(n, (k - 1) as nat));
        assert(pieces(k, build_piece(fields)) =~= builds_words(fields, building(n, k)));
    }
}

/// The expansion assembles the reader by the program above.
proof fn lemma_assembling_text(name: Seq<char>, reader_name: Seq<char>, fields: Seq<FieldView>)
    requires
        fields.len() > 0,
    ensures
        composite_text(name, reader_name, fields) == assembling_text(
            name,
            reader_name,
            fields,
            binding(fields.len()),
            building(fields.len(), fields.len()),
            places(fields.len()),
        ),
{
    lemma_type_texts(fields);
    let n = fields.len();
    if n == 1 {
        let binds = binding(1);
        reveal_with_fuel(binds_text, 2);
        assert(binds.drop_last() =~= Seq::<Bind>::empty());
        assert(binds_text(fields, binds) =~= unpack_text(fields));
    } else {
        assert(binding(n).take(n - 1) =~= binding(n));
        lemma_binds(fields, binding(n));
    }
    lemma_builds(fields, n);
    lemma_names(fields, n);
    assert(composite_text(name, reader_name, fields) =~= assembling_text(
        name,
        reader_name,
        fields,
        binding(n),
        building(n, n),
        places(n),
    ));
}

/// What is bound to each field when a combination is taken apart: the statements from place `at` on, given
/// what is left of the combination.
pub open spec fn bound(binds: Seq<Bind>, at: nat, node: Tree, legs: Seq<Option<int>>) -> Option<
    Seq<Option<int>>,
>
    decreases binds.len() - at,
{
    if at >= binds.len() {
        Some(legs)
    } else {
        match (binds[at as int], node) {
            (Bind::Only(i), Tree::Leaf(k)) => bound(binds, at + 1, node, legs.update(i, Some(k))),
            (Bind::Next(i), Tree::Pair(rest, k)) => bound(
                binds,
                at + 1,
                *rest,
                legs.update(i, Some(k)),
            ),
            (Bind::Both(i, j), Tree::Pair(rest, k)) => match *rest {
                Tree::Leaf(l) => bound(
                    binds,
                    at + 1,
                    node,
                    legs.update(i, Some(l)).update(j, Some(k)),
                ),
                _ => None,
            },
            _ => None,
        }
    }
}

/// Taking apart goes on from the last leg to the first.
proof fn lemma_bound(n: nat, at: nat, legs: Seq<Option<int>>)
    requires
        n >= 2,
        at <= n - 2,
        legs.len() == n,
        forall|i: int| n - at <= i < n ==> #[trigger] legs[i] == Some(i),
    ensures
        bound(binding(n), at, left_tree((n - at) as nat), legs) matches Some(after) && {
            &&& after.len() == n
            &&& forall|i: int| 0 <= i < n ==> #[trigger] after[i] == Some(i)
        },
    decreases n - at,
{
    if at < n - 2 {
        assert(binding(n)[at as int] == Bind::Next(n - 1 - at));
        let more = legs.update(n - 1 - at, Some(n - 1 - at));
        lemma_bound(n, at + 1, more);
    } else {
        assert(binding(n)[at as int] == Bind::Both(0, 1));
        assert(left_tree(1) == Tree::Leaf(0));
        reveal_with_fuel(bound, 2);
    }
}

/// The stream of each field is that of its own column: the combination that the columns are put together in
/// is taken apart into the same columns again.
pub proof fn law_fields_read_their_own_columns(n: nat)
    requires
        n > 0,
    ensures
        bound(binding(n), 0, left_tree(n), Seq::new(n, |i: int| None)) == Some(
            Seq::new(n, |i: int| Some(i)),
        ),
{
    let none = Seq::new(n, |i: int| None::<int>);
    if n == 1 {
        reveal_with_fuel(bound, 2);
        assert(none.update(0, Some(0)) =~= Seq::new(1, |i: int| Some(i)));
    } else {
        lemma_bound(n, 0, none);
        let after = bound(binding(n), 0, left_tree(n), none)->0;
        assert(after =~= Seq::new(n, |i: int| Some(i)));
    }
}

/// Every leg is built once, under the mask, which is given away only when the last leg is built.
pub proof fn law_every_leg_is_built_under_the_mask(n: nat)
    ensures
        building(n, n).len() == n,
        forall|i: int| 0 <= i < n ==> (#[trigger] building(n, n)[i]).leg == i,
        forall|i: int| 0 <= i < n ==> (#[trigger] building(n, n)[i]).gives == (i == n - 1),
{
}

// ---------------------------------------------------------------- the expansion

/// The text of the streams of the reader: one for each of the fields, with the outcomes of its type.
pub open spec fn streams_text(fields: Seq<FieldView>, row: Seq<int>) -> Seq<char>
    decreases row.len(),
{
    if row.len() == 0 {
        Seq::empty()
    } else {
        streams_text(fields, row.drop_last()) + (fields[row.last()].ident
            + " : :: std :: boxed :: Box < dyn :: core :: iter :: Iterator < Item = :: msca :: Outcome < "@
            + fields[row.last()].ty + " > > + 'a > , "@)
    }
}

/// The text of the reader.
pub open spec fn holding_text(
    vis: Seq<char>,
    reader_name: Seq<char>,
    fields: Seq<FieldView>,
    row: Seq<int>,
) -> Seq<char> {
    "# [doc = \" Generated composite reader: one boxed column stream per field.\"] # [doc = \"\"] # [doc = \" The stream types differ per column and are opaque, so each field is type-erased. `S`\"] # [doc = \" carries the source shape, which is what lets the fold monomorphize.\"] "@
        + vis + " struct "@ + reader_name + " < 'a , S > { "@ + streams_text(fields, row)
        + " src : :: core :: marker :: PhantomData < S > , } "@
}

/// The streams are declared one after the other.
proof fn lemma_streams(fields: Seq<FieldView>, n: nat)
    requires
        n <= fields.len(),
    ensures
        pieces(n, reader_fields_piece(fields)) == streams_text(fields, places(n)),
    decreases n,
{
    if n > 0 {
        lemma_streams(fields, (n - 1) as nat);
        assert(places(n).drop_last() =~= places((n - 1) as nat));
    }
}

/// A type with named fields expands into a reader with a stream for each field, and into three
/// implementations with the meanings above: one assembles the reader from a combination of the columns,
/// one pulls it, and one opens and combines every column. Any other type is refused.
pub proof fn law_expansions_mean_their_programs(input: Input, code: Result<String, Refusal>)
    requires
        call_ensures(expand, (input,), code),
    ensures
        match input.body {
            Body::Named(list) => if list@.len() == 0 {
                code == Err::<String, Refusal>(Refusal::Empty)
            } else {
                code matches Ok(text) && ({
                    let fields = sorted(viewed_fields(list@));
                    let n = fields.len();
                    let (name, reader) = (input.ident@, unraw_text(input.ident@) + "Reader"@);
                    text@ == "const _ : () = { "@ + holding_text(input.vis@, reader, fields, places(n)) + " "@
                        + assembling_text(name, reader, fields, binding(n), building(n, n), places(n))
                        + " "@ + pulling_text(name, reader, fields, pulling(n)) + " "@ + opening_text(
                        name,
                        reader,
                        fields,
                        opening(fields, n),
                        left_tree(n),
                    ) + " } ; "@
                })
            },
            Body::Tuple => code == Err::<String, Refusal>(Refusal::Unnamed),
            Body::Unit => code == Err::<String, Refusal>(Refusal::Empty),
            Body::Other => code == Err::<String, Refusal>(Refusal::Unsupported),
        },
{
    if let Body::Named(list) = input.body {
        if list@.len() > 0 {
            crate::derive::field::law_sorted(viewed_fields(list@));
            let fields = sorted(viewed_fields(list@));
            let (name, reader) = (input.ident@, unraw_text(input.ident@) + "Reader"@);
            lemma_streams(fields, fields.len());
            assert(structure_text(input.vis@, reader, fields) =~= holding_text(
                input.vis@,
                reader,
                fields,
                places(fields.len()),
            ));
            lemma_assembling_text(name, reader, fields);
            lemma_pulling_text(name, reader, fields);
            lemma_opening_text(name, reader, fields);
        }
    }
}

} // verus!
