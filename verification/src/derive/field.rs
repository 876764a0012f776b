//! The fields of a type.

use crate::order::{
    lemma_precedes, lemma_text_chain, lemma_text_total, precedes, text_at_most, text_within,
};
use vstd::prelude::*;
use vstd::utf8::encode_utf8;

verus! {

/// An identifier without the prefix of a raw one.
pub open spec fn unraw_text(ident: Seq<char>) -> Seq<char> {
    if ident.len() >= 2 && ident[0] == 'r' && ident[1] == '#' {
        ident.skip(2)
    } else {
        ident
    }
}

/// An identifier without the prefix of a raw one.
pub fn unraw(ident: &str) -> (text: String)
    ensures
        text@ == unraw_text(ident@),
{
    let n: usize = ident.unicode_len();
    if n >= 2 && ident.get_char(0) == 'r' && ident.get_char(1) == '#' {
        let rest: &str = ident.substring_char(2, n);
        assert(rest@ =~= ident@.skip(2));
        rest.to_owned()
    } else {
        ident.to_owned()
    }
}

/// A field by its name and its type.
#[derive(Debug)]
pub struct Field {
    /// The name, as it is written.
    pub ident: String,
    /// The type, as it is written.
    pub ty: String,
}

/// What a field is.
pub struct FieldView {
    /// The name.
    pub ident: Seq<char>,
    /// The type.
    pub ty: Seq<char>,
}

impl View for Field {
    type V = FieldView;

    open spec fn view(&self) -> FieldView {
        FieldView { ident: self.ident@, ty: self.ty@ }
    }
}

impl FieldView {
    /// The name of the column that the field is read from.
    pub open spec fn name(self) -> Seq<char> {
        unraw_text(self.ident)
    }
}

/// What several fields are.
pub open spec fn viewed_fields(fields: Seq<Field>) -> Seq<FieldView> {
    fields.map_values(|field: Field| field@)
}

/// How many of `fields`, from the first on, have a name of at most `name`.
pub open spec fn rank(fields: Seq<FieldView>, name: Seq<char>) -> nat
    decreases fields.len(),
{
    if fields.len() == 0 || !text_within(fields[0].name(), name) {
        0
    } else {
        1 + rank(fields.skip(1), name)
    }
}

/// `fields` sorted by name, as the columns are. Fields of one name, which no type has, would keep their
/// order.
pub open spec fn sorted(fields: Seq<FieldView>) -> Seq<FieldView>
    decreases fields.len(),
{
    if fields.len() == 0 {
        fields
    } else {
        let before = sorted(fields.drop_last());
        before.insert(rank(before, fields.last().name()) as int, fields.last())
    }
}

/// Whether no name comes before an earlier one.
pub open spec fn in_name_order(fields: Seq<FieldView>) -> bool {
    forall|i: int, j: int|
        0 <= i <= j < fields.len() ==> text_within(
            (#[trigger] fields[i]).name(),
            (#[trigger] fields[j]).name(),
        )
}

/// What a rank says of each field.
proof fn lemma_rank(fields: Seq<FieldView>, name: Seq<char>)
    ensures
        rank(fields, name) <= fields.len(),
        forall|i: int|
            0 <= i < rank(fields, name) ==> text_within((#[trigger] fields[i]).name(), name),
        rank(fields, name) < fields.len() ==> !text_within(
            fields[rank(fields, name) as int].name(),
            name,
        ),
    decreases fields.len(),
{
    if fields.len() == 0 || !text_within(fields[0].name(), name) {
    } else {
        let rest = fields.skip(1);
        lemma_rank(rest, name);
        assert forall|i: int| 0 <= i < rank(fields, name) implies text_within(
            (#[trigger] fields[i]).name(),
            name,
        ) by {
            if i > 0 {
                assert(rest[i - 1] == fields[i]);
            }
        }
    }
}

/// Sorting keeps every field, as often as it occurs, and puts the names in order.
pub proof fn law_sorted(fields: Seq<FieldView>)
    ensures
        in_name_order(sorted(fields)),
        sorted(fields).to_multiset() == fields.to_multiset(),
        sorted(fields).len() == fields.len(),
    decreases fields.len(),
{
    broadcast use vstd::seq_lib::group_to_multiset_ensures;

    if fields.len() > 0 {
        let (less, last) = (fields.drop_last(), fields.last());
        let before = sorted(less);
        let at = rank(before, last.name()) as int;
        law_sorted(less);
        lemma_rank(before, last.name());
        let after = before.insert(at, last);
        assert forall|i: int, j: int| 0 <= i <= j < after.len() implies text_within(
            (#[trigger] after[i]).name(),
            (#[trigger] after[j]).name(),
        ) by {
            lemma_text_total(last.name(), last.name());
            if i < at && j > at {
                assert(after[j] == before[j - 1]);
            }
            if i == at && j > at {
                assert(after[j] == before[j - 1]);
                lemma_text_total(before[at].name(), last.name());
                lemma_text_chain(last.name(), before[at].name(), before[j - 1].name());
            }
            if i > at {
                assert(after[i] == before[i - 1]);
                assert(after[j] == before[j - 1]);
            }
        }
        assert(fields =~= less.push(last));
        vstd::seq_lib::to_multiset_insert(before, at, last);
    }
}

/// Whether fields of one name are the same.
pub open spec fn told_by_name(fields: Seq<FieldView>) -> bool {
    forall|a: FieldView, b: FieldView|
        fields.contains(a) && fields.contains(b) && a.name() == b.name() ==> a == b
}

/// Fields in the order of their names are determined by what fields they are.
proof fn lemma_order_unique(a: Seq<FieldView>, b: Seq<FieldView>)
    requires
        in_name_order(a),
        in_name_order(b),
        a.to_multiset() == b.to_multiset(),
        told_by_name(a),
    ensures
        a == b,
    decreases a.len(),
{
    broadcast use vstd::seq_lib::group_to_multiset_ensures;

    vstd::seq_lib::to_multiset_len(a);
    vstd::seq_lib::to_multiset_len(b);
    if a.len() > 0 {
        let (x, y) = (a.last(), b.last());
        assert(a.contains(x) && b.contains(y));
        assert(b.to_multiset().contains(x) && a.to_multiset().contains(y));
        assert(b.contains(x) && a.contains(y));
        let i = choose|i: int| 0 <= i < b.len() && b[i] == x;
        let j = choose|j: int| 0 <= j < a.len() && a[j] == y;
        assert(text_within(b[i].name(), b[b.len() - 1].name()));
        assert(text_within(a[j].name(), a[a.len() - 1].name()));
        lemma_text_total(x.name(), y.name());
        assert(x == y);
        let (less, fewer) = (a.drop_last(), b.drop_last());
        assert(a =~= less.push(x));
        assert(b =~= fewer.push(x));
        assert(less.to_multiset() =~= a.to_multiset().remove(x));
        assert(fewer.to_multiset() =~= b.to_multiset().remove(x));
        assert(told_by_name(less)) by {
            assert forall|p: FieldView, q: FieldView|
                less.contains(p) && less.contains(q) && p.name() == q.name() implies p == q by {
                let k = choose|k: int| 0 <= k < less.len() && less[k] == p;
                let l = choose|l: int| 0 <= l < less.len() && less[l] == q;
                assert(a.contains(a[k]) && a.contains(a[l]));
            }
        }
        lemma_order_unique(less, fewer);
    } else {
        assert(a =~= b);
    }
}

/// The order in which fields are declared does not matter.
pub proof fn law_declaration_order_is_irrelevant(a: Seq<FieldView>, b: Seq<FieldView>)
    requires
        a.to_multiset() == b.to_multiset(),
        told_by_name(a),
    ensures
        sorted(a) == sorted(b),
{
    broadcast use vstd::seq_lib::group_to_multiset_ensures;

    law_sorted(a);
    law_sorted(b);
    let by_name = sorted(a);
    assert forall|p: FieldView, q: FieldView|
        by_name.contains(p) && by_name.contains(q) && p.name() == q.name() implies p == q by {
        assert(by_name.to_multiset().contains(p) && by_name.to_multiset().contains(q));
        assert(a.contains(p) && a.contains(q));
    }
    lemma_order_unique(by_name, sorted(b));
}

/// Sorts fields by name.
pub fn sort(fields: Vec<Field>) -> (by_name: Vec<Field>)
    ensures
        viewed_fields(by_name@) == sorted(viewed_fields(fields@)),
{
    let ghost all = viewed_fields(fields@);
    let mut fields: Vec<Field> = fields;
    let mut by_name: Vec<Field> = Vec::new();
    let mut done: usize = 0;
    let n: usize = fields.len();
    assert(viewed_fields(by_name@) =~= sorted(all.take(0)));
    assert(viewed_fields(fields@) =~= all.skip(0));
    while done < n
        invariant
            done <= n == all.len(),
            viewed_fields(fields@) == all.skip(done as int),
            viewed_fields(by_name@) == sorted(all.take(done as int)),
        decreases n - done,
    {
        let ghost before = viewed_fields(by_name@);
        let ghost rest = viewed_fields(fields@);
        assert(rest.len() == fields@.len());
        let field: Field = fields.remove(0);
        assert(field@ == rest[0]);
        let name: String = unraw(field.ident.as_str());
        let at: usize = place(&by_name, name.as_str());
        by_name.insert(at, field);
        done += 1;
        proof {
            assert(viewed_fields(fields@) =~= rest.skip(1));
            assert(rest.skip(1) =~= all.skip(done as int));
            assert(all.take(done as int).drop_last() =~= all.take(done - 1));
            assert(all.take(done as int).last() == field@);
            assert(viewed_fields(by_name@) =~= before.insert(at as int, field@));
        }
    }
    assert(all.take(n as int) =~= all);
    by_name
}

/// The rank of `name` among `fields`.
fn place(fields: &Vec<Field>, name: &str) -> (at: usize)
    ensures
        at == rank(viewed_fields(fields@), name@),
        at <= fields@.len(),
{
    let ghost all = viewed_fields(fields@);
    let mut at: usize = 0;
    assert(all.skip(0) =~= all);
    while at < fields.len() && text_at_most(unraw(fields[at].ident.as_str()).as_str(), name)
        invariant
            at <= fields@.len(),
            all == viewed_fields(fields@),
            at + rank(all.skip(at as int), name@) == rank(all, name@),
        decreases fields@.len() - at,
    {
        assert(all.skip(at as int).skip(1) =~= all.skip(at + 1));
        at += 1;
    }
    at
}

/// An identifier is written without the prefix of a raw one, which is not part of its name, and otherwise
/// as it is.
pub proof fn law_raw_identifiers_lose_their_prefix(ident: &str, text: String, name: Seq<char>)
    requires
        call_ensures(unraw, (ident,), text),
    ensures
        ident@ == seq!['r', '#'] + name ==> text@ == name,
        !(ident@.len() >= 2 && ident@.take(2) == seq!['r', '#']) ==> text@ == ident@,
{
    if ident@ == seq!['r', '#'] + name {
        assert(ident@.skip(2) =~= name);
    }
    if ident@.len() >= 2 && ident@[0] == 'r' && ident@[1] == '#' {
        assert(ident@.take(2) =~= seq!['r', '#']);
    }
}

/// Sorting gives the same fields, each name before or with the later ones by the first byte that differs.
pub proof fn law_fields_are_sorted_by_name(given: Vec<Field>, by_name: Vec<Field>, i: int, j: int)
    requires
        call_ensures(sort, (given,), by_name),
        0 <= i < j < by_name@.len(),
    ensures
        viewed_fields(by_name@).to_multiset() == viewed_fields(given@).to_multiset(),
        by_name@.len() == given@.len(),
        ({
            let (a, b) = (unraw_text(by_name@[i].ident@), unraw_text(by_name@[j].ident@));
            a == b || precedes(encode_utf8(a), encode_utf8(b))
        }),
{
    let all = viewed_fields(by_name@);
    law_sorted(viewed_fields(given@));
    assert(all.len() == by_name@.len());
    assert(viewed_fields(given@).len() == given@.len());
    assert(text_within(all[i].name(), all[j].name()));
    lemma_precedes(encode_utf8(all[i].name()), encode_utf8(all[j].name()));
    vstd::utf8::encode_utf8_decode_utf8(all[i].name());
    vstd::utf8::encode_utf8_decode_utf8(all[j].name());
}

} // verus!
