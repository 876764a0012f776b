//! Combinations of the columns of one query.

use crate::io;
use crate::manifest::schema::Schema;
use crate::query::error::Error;
use crate::query::mask::{within_mask, Mask};
use crate::query::resolve::{Based, Resolve, Settled};
use crate::query::source::{Query, Src};
use vstd::prelude::*;

verus! {

/// [`core::ptr::eq`] says whether two references point to one place, where there is only one value.
/// Of references to different places, which may hold equal values, nothing is said.
#[verifier::external_body]
fn same_place(a: &Schema, b: &Schema) -> (same: bool)
    ensures
        same ==> *a == *b,
{
    core::ptr::eq(a, b)
}

impl<'d> Query<'d> {
    /// Whether two queries read the same schema, by its place in memory.
    pub fn same(&self, other: &Query<'d>) -> (same: bool)
        ensures
            same ==> *self.schema == *other.schema,
    {
        same_place(self.schema, other.schema)
    }
}

/// An intersection: what both parts retain.
#[non_exhaustive]
pub struct Conjunct<A, B> {
    /// The first part.
    pub a: A,
    /// The second part.
    pub b: B,
}

/// A union: what at least one of the parts retains.
#[non_exhaustive]
pub struct Disjunct<A, B> {
    /// The first part.
    pub a: A,
    /// The second part.
    pub b: B,
}

/// A symmetric difference: what exactly one of the parts retains.
#[non_exhaustive]
pub struct Adjunct<A, B> {
    /// The first part.
    pub a: A,
    /// The second part.
    pub b: B,
}

/// The buffers that one mask includes and another does not.
pub open spec fn differing(mask: Seq<bool>, other: Seq<bool>) -> Seq<bool> {
    Seq::new(mask.len(), |i: int| mask[i] != other[i])
}

/// The buffers that at least one of two masks includes.
pub open spec fn united(mask: Seq<bool>, other: Seq<bool>) -> Seq<bool> {
    Seq::new(mask.len(), |i: int| mask[i] || other[i])
}

/// What a union settles on: the first part narrows the whole mask, the second what the first
/// excluded, and the result is what either retains.
pub open spec fn united_settled<'d, A: Resolve<'d>, B: Resolve<'d>>(
    a: A,
    b: B,
    mask: Seq<bool>,
) -> Result<
    (Seq<bool>, (<A::Ok as Settled<'d>>::Model, <B::Ok as Settled<'d>>::Model)),
    io::error::Error,
> {
    match a.settled(mask) {
        Err(e) => Err(e),
        Ok((other, first)) => match b.settled(differing(mask, other)) {
            Err(e) => Err(e),
            Ok((rest, second)) => Ok((united(rest, other), (first, second))),
        },
    }
}

/// The mask that an error in a union leaves: an error in the first part, which narrows a copy, leaves it
/// as it was.
pub open spec fn united_abandoned<'d, A: Resolve<'d>, B: Resolve<'d>>(
    a: A,
    b: B,
    mask: Seq<bool>,
) -> Seq<bool> {
    match a.settled(mask) {
        Err(_) => mask,
        Ok((other, _)) => b.abandoned(differing(mask, other)),
    }
}

/// A union retains nothing that it was not offered.
pub proof fn law_union_retains_only_what_is_offered<'d, A: Resolve<'d>, B: Resolve<'d>>(
    a: A,
    b: B,
    mask: Seq<bool>,
)
    ensures
        united_settled(a, b, mask) matches Ok(left) ==> within_mask(left.0, mask),
{
    a.subtractive(mask);
    if let Ok((other, _)) = a.settled(mask) {
        b.subtractive(differing(mask, other));
        if let Ok((rest, _)) = b.settled(differing(mask, other)) {
            let left = united(rest, other);
            assert forall|i: int| 0 <= i < left.len() && #[trigger] left[i] implies mask[i] by {
                if rest[i] {
                    assert(differing(mask, other)[i]);
                }
            }
        }
    }
}

/// Narrows a mask to what at least one of two parts retains.
fn resolve_united<'d, A: Resolve<'d>, B: Resolve<'d>>(a: A, b: B, mask: &mut Mask) -> (settled:
    Result<(A::Ok, B::Ok), io::error::Error>)
    ensures
        within_mask(final(mask)@, old(mask)@),
        match settled {
            Ok((x, y)) => x.base() == a.base() && united_settled(a, b, old(mask)@) == Ok::<
                _,
                io::error::Error,
            >((final(mask)@, (x.model(), y.model()))),
            Err(e) => final(mask)@ == united_abandoned(a, b, old(mask)@) && united_settled(
                a,
                b,
                old(mask)@,
            ) == Err::<
                (Seq<bool>, (<A::Ok as Settled<'d>>::Model, <B::Ok as Settled<'d>>::Model)),
                io::error::Error,
            >(e),
        },
{
    let ghost all = mask@;
    let mut other: Mask = mask.duplicate();
    let first = match a.resolve(&mut other) {
        Ok(first) => first,
        Err(e) => return Err(e),
    };
    mask.differ(&other);
    assert(mask@ =~= differing(all, other@));
    let ghost rest = mask@;
    let second = match b.resolve(mask) {
        Ok(second) => second,
        Err(e) => {
            assert forall|i: int| 0 <= i < all.len() && #[trigger] mask@[i] implies all[i] by {
                assert(rest[i]);
            }
            return Err(e);
        },
    };
    let ghost left = mask@;
    mask.unite(&other);
    proof {
        assert(mask@ =~= united(left, other@));
        law_union_retains_only_what_is_offered(a, b, all);
    }
    Ok((first, second))
}

impl<'d, A: Based<'d>, B> Based<'d> for Conjunct<A, B> {
    open spec fn base(&self) -> Src<'d> {
        self.a.base()
    }

    fn src(&self) -> (src: Src<'d>) {
        self.a.src()
    }
}

impl<'d, A: Settled<'d>, B: Settled<'d>> Settled<'d> for Conjunct<A, B> {
    type Model = (A::Model, B::Model);

    open spec fn model(&self) -> Self::Model {
        (self.a.model(), self.b.model())
    }
}

impl<'d, A: Based<'d>, B> Based<'d> for Disjunct<A, B> {
    open spec fn base(&self) -> Src<'d> {
        self.a.base()
    }

    fn src(&self) -> (src: Src<'d>) {
        self.a.src()
    }
}

impl<'d, A: Settled<'d>, B: Settled<'d>> Settled<'d> for Disjunct<A, B> {
    type Model = (A::Model, B::Model);

    open spec fn model(&self) -> Self::Model {
        (self.a.model(), self.b.model())
    }
}

impl<'d, A: Based<'d>, B> Based<'d> for Adjunct<A, B> {
    open spec fn base(&self) -> Src<'d> {
        self.a.base()
    }

    fn src(&self) -> (src: Src<'d>) {
        self.a.src()
    }
}

impl<'d, A: Settled<'d>, B: Settled<'d>> Settled<'d> for Adjunct<A, B> {
    type Model = (A::Model, B::Model);

    open spec fn model(&self) -> Self::Model {
        (self.a.model(), self.b.model())
    }
}

impl<'d, A: Resolve<'d>, B: Resolve<'d>> Resolve<'d> for Conjunct<A, B> {
    type Ok = Conjunct<A::Ok, B::Ok>;

    /// The second part narrows what the first leaves.
    open spec fn settled(self, mask: Seq<bool>) -> Result<
        (Seq<bool>, (<A::Ok as Settled<'d>>::Model, <B::Ok as Settled<'d>>::Model)),
        io::error::Error,
    > {
        match self.a.settled(mask) {
            Err(e) => Err(e),
            Ok((left, first)) => match self.b.settled(left) {
                Err(e) => Err(e),
                Ok((rest, second)) => Ok((rest, (first, second))),
            },
        }
    }

    open spec fn abandoned(self, mask: Seq<bool>) -> Seq<bool> {
        match self.a.settled(mask) {
            Err(_) => self.a.abandoned(mask),
            Ok((left, _)) => self.b.abandoned(left),
        }
    }

    proof fn subtractive(self, mask: Seq<bool>) {
        self.a.subtractive(mask);
        if let Ok((left, _)) = self.a.settled(mask) {
            self.b.subtractive(left);
        }
    }

    fn resolve(self, mask: &mut Mask) -> (settled: Result<Self::Ok, io::error::Error>) {
        let a = match self.a.resolve(mask) {
            Ok(a) => a,
            Err(e) => return Err(e),
        };
        match self.b.resolve(mask) {
            Ok(b) => Ok(Conjunct { a, b }),
            Err(e) => Err(e),
        }
    }
}

impl<'d, A: Resolve<'d>, B: Resolve<'d>> Resolve<'d> for Disjunct<A, B> {
    type Ok = Disjunct<A::Ok, B::Ok>;

    open spec fn settled(self, mask: Seq<bool>) -> Result<
        (Seq<bool>, (<A::Ok as Settled<'d>>::Model, <B::Ok as Settled<'d>>::Model)),
        io::error::Error,
    > {
        united_settled(self.a, self.b, mask)
    }

    open spec fn abandoned(self, mask: Seq<bool>) -> Seq<bool> {
        united_abandoned(self.a, self.b, mask)
    }

    proof fn subtractive(self, mask: Seq<bool>) {
        law_union_retains_only_what_is_offered(self.a, self.b, mask);
    }

    fn resolve(self, mask: &mut Mask) -> (settled: Result<Self::Ok, io::error::Error>) {
        match resolve_united(self.a, self.b, mask) {
            Ok((a, b)) => Ok(Disjunct { a, b }),
            Err(e) => Err(e),
        }
    }
}

impl<'d, A: Resolve<'d>, B: Resolve<'d>> Resolve<'d> for Adjunct<A, B> {
    type Ok = Adjunct<A::Ok, B::Ok>;

    /// Which items exactly one part retains is decided item by item, so that the buffers are those of
    /// a union.
    open spec fn settled(self, mask: Seq<bool>) -> Result<
        (Seq<bool>, (<A::Ok as Settled<'d>>::Model, <B::Ok as Settled<'d>>::Model)),
        io::error::Error,
    > {
        united_settled(self.a, self.b, mask)
    }

    open spec fn abandoned(self, mask: Seq<bool>) -> Seq<bool> {
        united_abandoned(self.a, self.b, mask)
    }

    proof fn subtractive(self, mask: Seq<bool>) {
        law_union_retains_only_what_is_offered(self.a, self.b, mask);
    }

    fn resolve(self, mask: &mut Mask) -> (settled: Result<Self::Ok, io::error::Error>) {
        match resolve_united(self.a, self.b, mask) {
            Ok((a, b)) => Ok(Adjunct { a, b }),
            Err(e) => Err(e),
        }
    }
}

/// The intersection of two parts, where `same` says whether they belong to one query.
pub fn and_if<A, B>(a: A, b: B, same: bool) -> (joined: Result<Conjunct<A, B>, Error>)
    ensures
        same ==> joined == Ok::<Conjunct<A, B>, Error>(Conjunct { a, b }),
        !same ==> joined == Err::<Conjunct<A, B>, Error>(Error::Join),
{
    if same {
        Ok(Conjunct { a, b })
    } else {
        Err(Error::Join)
    }
}

/// The intersection of two parts of one query.
pub fn and<'d, A: Based<'d>, B: Based<'d>>(a: A, b: B) -> (joined: Result<Conjunct<A, B>, Error>)
    ensures
        match joined {
            Ok(j) => j == (Conjunct { a, b }) && *a.base().query.schema == *b.base().query.schema,
            Err(e) => e is Join,
        },
{
    let same: bool = a.src().query.same(&b.src().query);
    and_if(a, b, same)
}

/// The union of two parts, where `same` says whether they belong to one query.
pub fn or_if<A, B>(a: A, b: B, same: bool) -> (joined: Result<Disjunct<A, B>, Error>)
    ensures
        same ==> joined == Ok::<Disjunct<A, B>, Error>(Disjunct { a, b }),
        !same ==> joined == Err::<Disjunct<A, B>, Error>(Error::Join),
{
    if same {
        Ok(Disjunct { a, b })
    } else {
        Err(Error::Join)
    }
}

/// The union of two parts of one query.
pub fn or<'d, A: Based<'d>, B: Based<'d>>(a: A, b: B) -> (joined: Result<Disjunct<A, B>, Error>)
    ensures
        match joined {
            Ok(j) => j == (Disjunct { a, b }) && *a.base().query.schema == *b.base().query.schema,
            Err(e) => e is Join,
        },
{
    let same: bool = a.src().query.same(&b.src().query);
    or_if(a, b, same)
}

/// The symmetric difference of two parts, where `same` says whether they belong to one query.
pub fn xor_if<A, B>(a: A, b: B, same: bool) -> (joined: Result<Adjunct<A, B>, Error>)
    ensures
        same ==> joined == Ok::<Adjunct<A, B>, Error>(Adjunct { a, b }),
        !same ==> joined == Err::<Adjunct<A, B>, Error>(Error::Join),
{
    if same {
        Ok(Adjunct { a, b })
    } else {
        Err(Error::Join)
    }
}

/// The symmetric difference of two parts of one query.
pub fn xor<'d, A: Based<'d>, B: Based<'d>>(a: A, b: B) -> (joined: Result<Adjunct<A, B>, Error>)
    ensures
        match joined {
            Ok(j) => j == (Adjunct { a, b }) && *a.base().query.schema == *b.base().query.schema,
            Err(e) => e is Join,
        },
{
    let same: bool = a.src().query.same(&b.src().query);
    xor_if(a, b, same)
}

// ---------------------------------------------------------------- laws

/// A union includes every buffer that its first part retains of what is offered, every buffer that its
/// second part retains of what the first excluded, and nothing else. It fails where a part does.
pub proof fn law_unions_include_what_either_part_retains<'d, A: Resolve<'d>, B: Resolve<'d>>(
    a: A,
    b: B,
    joined: Result<Disjunct<A, B>, Error>,
    mask: Seq<bool>,
)
    requires
        call_ensures(or_if::<A, B>, (a, b, true), joined),
    ensures
        joined is Ok,
        match a.settled(mask) {
            Err(e) => joined->Ok_0.settled(mask) == Err::<
                (Seq<bool>, (<A::Ok as Settled<'d>>::Model, <B::Ok as Settled<'d>>::Model)),
                io::error::Error,
            >(e),
            Ok((first, _)) => match b.settled(
                Seq::new(mask.len(), |i: int| mask[i] && !first[i]),
            ) {
                Err(e) => joined->Ok_0.settled(mask) == Err::<
                    (Seq<bool>, (<A::Ok as Settled<'d>>::Model, <B::Ok as Settled<'d>>::Model)),
                    io::error::Error,
                >(e),
                Ok((second, _)) => joined->Ok_0.settled(mask) matches Ok((left, _)) && {
                    &&& left.len() == mask.len()
                    &&& forall|i: int|
                        0 <= i < mask.len() ==> #[trigger] left[i] == (first[i] || second[i])
                },
            },
        },
{
    a.subtractive(mask);
    if let Ok((first, _)) = a.settled(mask) {
        let rest = Seq::new(mask.len(), |i: int| mask[i] && !first[i]);
        assert forall|i: int| 0 <= i < mask.len() implies #[trigger] rest[i] == (mask[i] != first[i]) by {
            if first[i] {
                assert(mask[i]);
            }
        }
        assert(differing(mask, first) =~= rest);
        b.subtractive(rest);
    }
}

/// A symmetric difference includes every buffer that its first part retains of what is offered, every
/// buffer that its second part retains of what the first excluded, and nothing else. It fails where a part
/// does.
pub proof fn law_symmetric_differences_include_what_either_part_retains<'d, A: Resolve<'d>, B: Resolve<'d>>(
    a: A,
    b: B,
    joined: Result<Adjunct<A, B>, Error>,
    mask: Seq<bool>,
)
    requires
        call_ensures(xor_if::<A, B>, (a, b, true), joined),
    ensures
        joined is Ok,
        match a.settled(mask) {
            Err(e) => joined->Ok_0.settled(mask) == Err::<
                (Seq<bool>, (<A::Ok as Settled<'d>>::Model, <B::Ok as Settled<'d>>::Model)),
                io::error::Error,
            >(e),
            Ok((first, _)) => match b.settled(
                Seq::new(mask.len(), |i: int| mask[i] && !first[i]),
            ) {
                Err(e) => joined->Ok_0.settled(mask) == Err::<
                    (Seq<bool>, (<A::Ok as Settled<'d>>::Model, <B::Ok as Settled<'d>>::Model)),
                    io::error::Error,
                >(e),
                Ok((second, _)) => joined->Ok_0.settled(mask) matches Ok((left, _)) && {
                    &&& left.len() == mask.len()
                    &&& forall|i: int|
                        0 <= i < mask.len() ==> #[trigger] left[i] == (first[i] || second[i])
                },
            },
        },
{
    a.subtractive(mask);
    if let Ok((first, _)) = a.settled(mask) {
        let rest = Seq::new(mask.len(), |i: int| mask[i] && !first[i]);
        assert forall|i: int| 0 <= i < mask.len() implies #[trigger] rest[i] == (mask[i] != first[i]) by {
            if first[i] {
                assert(mask[i]);
            }
        }
        assert(differing(mask, first) =~= rest);
        b.subtractive(rest);
    }
}

/// An intersection includes the buffers that its second part retains of those that its first part retains
/// of what is offered, and so none that either excludes. It fails where a part does.
pub proof fn law_intersections_include_what_both_parts_retain<'d, A: Resolve<'d>, B: Resolve<'d>>(
    a: A,
    b: B,
    joined: Result<Conjunct<A, B>, Error>,
    mask: Seq<bool>,
)
    requires
        call_ensures(and_if::<A, B>, (a, b, true), joined),
    ensures
        joined is Ok,
        match a.settled(mask) {
            Err(e) => joined->Ok_0.settled(mask) == Err::<
                (Seq<bool>, (<A::Ok as Settled<'d>>::Model, <B::Ok as Settled<'d>>::Model)),
                io::error::Error,
            >(e),
            Ok((first, _)) => match b.settled(first) {
                Err(e) => joined->Ok_0.settled(mask) == Err::<
                    (Seq<bool>, (<A::Ok as Settled<'d>>::Model, <B::Ok as Settled<'d>>::Model)),
                    io::error::Error,
                >(e),
                Ok((second, _)) => joined->Ok_0.settled(mask) matches Ok((left, _)) && {
                    &&& left == second
                    &&& left.len() == mask.len()
                    &&& forall|i: int|
                        0 <= i < mask.len() && #[trigger] left[i] ==> mask[i] && first[i]
                },
            },
        },
{
    a.subtractive(mask);
    if let Ok((first, _)) = a.settled(mask) {
        b.subtractive(first);
        if let Ok((second, _)) = b.settled(first) {
            assert forall|i: int| 0 <= i < mask.len() && #[trigger] second[i] implies mask[i]
                && first[i] by {
                assert(first[i]);
            }
        }
    }
}

/// Each part of a combination becomes what it would become on its own of the mask that it is offered.
pub proof fn law_combinations_keep_their_parts<'d, A: Resolve<'d>, B: Resolve<'d>>(
    a: A,
    b: B,
    mask: Seq<bool>,
)
    ensures
        (Conjunct { a, b }).settled(mask) matches Ok((_, parts)) ==> {
            &&& a.settled(mask) matches Ok((first, x)) && parts.0 == x && (b.settled(
                first,
            ) matches Ok((_, y)) && parts.1 == y)
        },
        (Disjunct { a, b }).settled(mask) matches Ok((_, parts)) ==> {
            &&& a.settled(mask) matches Ok((first, x)) && parts.0 == x && (b.settled(
                Seq::new(mask.len(), |i: int| mask[i] && !first[i]),
            ) matches Ok((_, y)) && parts.1 == y)
        },
        (Adjunct { a, b }).settled(mask) == (Disjunct { a, b }).settled(mask),
        a.settled(mask) is Err ==> (Disjunct { a, b }).abandoned(mask) == mask && (Adjunct {
            a,
            b,
        }).abandoned(mask) == mask && (Conjunct { a, b }).abandoned(mask) == a.abandoned(mask),
{
    a.subtractive(mask);
    if let Ok((first, _)) = a.settled(mask) {
        let rest = Seq::new(mask.len(), |i: int| mask[i] && !first[i]);
        assert forall|i: int| 0 <= i < mask.len() implies #[trigger] rest[i] == (mask[i] != first[i]) by {
            if first[i] {
                assert(mask[i]);
            }
        }
        assert(differing(mask, first) =~= rest);
    }
}

/// Parts of different queries cannot be combined.
pub proof fn law_parts_of_different_queries_are_refused<A, B>(
    a: A,
    b: B,
    both: Result<Conjunct<A, B>, Error>,
    either: Result<Disjunct<A, B>, Error>,
    one: Result<Adjunct<A, B>, Error>,
)
    requires
        call_ensures(and_if::<A, B>, (a, b, false), both),
        call_ensures(or_if::<A, B>, (a, b, false), either),
        call_ensures(xor_if::<A, B>, (a, b, false), one),
    ensures
        both == Err::<Conjunct<A, B>, Error>(Error::Join),
        either == Err::<Disjunct<A, B>, Error>(Error::Join),
        one == Err::<Adjunct<A, B>, Error>(Error::Join),
{
}

} // verus!
