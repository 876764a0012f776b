//! The source of a column: its buffers, and the bytes that they describe.

use crate::io::error::Error;
use crate::io::region::{index, to_index};
use crate::manifest::buffer::Buffer;
use crate::manifest::column::Buffers;
use crate::manifest;
use crate::query::items::pointed;
use crate::query::mask::{every, within_mask, Mask};
use core::marker::PhantomData;
use vstd::prelude::*;

verus! {

/// A query over the columns of one schema.
#[derive(Debug, Clone, Copy)]
pub struct Query<'d> {
    /// The bytes of the segment region.
    pub mmap: &'d [u8],
    /// The schema.
    pub schema: &'d manifest::schema::Schema,
}

/// A query, by what it reads.
pub type Schema<'d> = Query<'d>;

/// The smaller of two lengths.
pub open spec fn least(a: nat, b: nat) -> nat {
    if a < b {
        a
    } else {
        b
    }
}

/// The buffers that `mask` includes.
pub open spec fn retained(buffers: Seq<Buffer>, mask: Seq<bool>) -> Seq<Buffer>
    decreases buffers.len(),
{
    if buffers.len() == 0 || mask.len() == 0 {
        Seq::empty()
    } else if mask[0] {
        seq![buffers[0]] + retained(buffers.skip(1), mask.skip(1))
    } else {
        retained(buffers.skip(1), mask.skip(1))
    }
}

/// How many of the first `n` bits are set.
pub open spec fn tally(mask: Seq<bool>, n: nat) -> nat
    decreases n,
{
    if n == 0 {
        0
    } else if mask[n - 1] {
        tally(mask, (n - 1) as nat) + 1
    } else {
        tally(mask, (n - 1) as nat)
    }
}

/// There are no more set bits than bits.
proof fn lemma_tally_bound(mask: Seq<bool>, n: nat)
    ensures
        tally(mask, n) <= n,
    decreases n,
{
    if n > 0 {
        lemma_tally_bound(mask, (n - 1) as nat);
    }
}

/// Bits past the first `n` do not count.
proof fn lemma_tally_local(a: Seq<bool>, b: Seq<bool>, n: nat)
    requires
        n <= a.len(),
        n <= b.len(),
        forall|i: int| 0 <= i < n ==> #[trigger] a[i] == b[i],
    ensures
        tally(a, n) == tally(b, n),
    decreases n,
{
    if n > 0 {
        lemma_tally_local(a, b, (n - 1) as nat);
    }
}

/// A test of whole buffers.
pub trait Probe<'d> {
    /// Whether a buffer may hold part of the result.
    spec fn verdict(&self, buffer: Buffer, map: Seq<u8>) -> Result<bool, Error>;

    /// Tests one buffer.
    fn probe(&self, buffer: &Buffer, map: &'d [u8]) -> (verdict: Result<bool, Error>)
        ensures
            verdict == self.verdict(*buffer, map@),
    ;
}

/// The verdicts on each of `buffers`.
pub open spec fn verdicts<'d, P: Probe<'d>>(buffers: Seq<Buffer>, map: Seq<u8>, probe: P) -> Seq<
    Result<bool, Error>,
> {
    Seq::new(buffers.len(), |i: int| probe.verdict(buffers[i], map))
}

/// The mask after the buffers from place `i` on were tested, and the error that ended the tests if
/// one did. Buffers that are excluded already are not tested, and neither are those past the end of
/// the mask.
pub open spec fn sieved(verdicts: Seq<Result<bool, Error>>, mask: Seq<bool>, i: nat) -> (
    Option<Error>,
    Seq<bool>,
)
    decreases verdicts.len() - i,
{
    if i >= least(verdicts.len(), mask.len()) {
        (None, mask)
    } else if !mask[i as int] {
        sieved(verdicts, mask, i + 1)
    } else {
        match verdicts[i as int] {
            Err(e) => (Some(e), mask),
            Ok(true) => sieved(verdicts, mask, i + 1),
            Ok(false) => sieved(verdicts, mask.update(i as int, false), i + 1),
        }
    }
}

/// What a sieve leaves: it only excludes and, where no test fails, excludes exactly the tested
/// buffers whose verdict is negative.
pub proof fn lemma_sieved(verdicts: Seq<Result<bool, Error>>, mask: Seq<bool>, i: nat)
    ensures
        within_mask(sieved(verdicts, mask, i).1, mask),
        sieved(verdicts, mask, i).0 is None ==> forall|j: int|
            0 <= j < mask.len() ==> #[trigger] sieved(verdicts, mask, i).1[j] == (mask[j] && (i <= j
                < verdicts.len() ==> verdicts[j] == Ok::<bool, Error>(true))),
    decreases verdicts.len() - i,
{
    if i >= least(verdicts.len(), mask.len()) {
    } else if !mask[i as int] {
        lemma_sieved(verdicts, mask, i + 1);
    } else {
        match verdicts[i as int] {
            Err(e) => {},
            Ok(true) => {
                lemma_sieved(verdicts, mask, i + 1);
            },
            Ok(false) => {
                let less = mask.update(i as int, false);
                lemma_sieved(verdicts, less, i + 1);
                let left = sieved(verdicts, mask, i).1;
                assert forall|j: int| 0 <= j < mask.len() && #[trigger] left[j] implies mask[j] by {
                    assert(less[j]);
                }
            },
        }
    }
}

/// The number of items that a buffer contributes: none where it is excluded.
pub open spec fn counted(buffer: Buffer, included: bool) -> Result<usize, Error> {
    if included {
        index(buffer.length())
    } else {
        Ok(0)
    }
}

/// The source of one column.
#[derive(Debug, Clone, Copy)]
pub struct Src<'d> {
    /// The query that the source belongs to.
    pub query: Query<'d>,
    /// The buffers in the order of their location, which is that of the segments.
    pub buffers: &'d Buffers,
}

impl<'d> Src<'d> {
    /// The buffers.
    pub open spec fn list(&self) -> Seq<Buffer> {
        self.buffers.held()
    }

    /// The bytes that the buffers describe.
    pub open spec fn bytes(&self) -> Seq<u8> {
        self.query.mmap@
    }

    /// The mask that includes every buffer.
    pub fn mask(&self) -> (mask: Mask)
        ensures
            mask@ == every(self.list().len()),
    {
        Mask::full(self.buffers.len())
    }

    /// The number of items that each buffer contributes.
    pub fn counts(&self, mask: &Mask) -> (counts: Vec<Result<usize, Error>>)
        ensures
            counts@ == Seq::new(
                least(self.list().len(), mask@.len()),
                |i: int| counted(self.list()[i], mask@[i]),
            ),
    {
        let mut counts: Vec<Result<usize, Error>> = Vec::new();
        let mut i: usize = 0;
        while i < self.buffers.len() && i < mask.len()
            invariant
                i <= least(self.list().len(), mask@.len()),
                counts@ == Seq::new(i as nat, |j: int| counted(self.list()[j], mask@[j])),
            decreases self.list().len() - i,
        {
            if mask.get(i) {
                counts.push(to_index(self.buffers.get(i).count()));
            } else {
                counts.push(Ok(0));
            }
            i += 1;
            assert(counts@ =~= Seq::new(i as nat, |j: int| counted(self.list()[j], mask@[j])));
        }
        counts
    }

    /// The buffers that the mask includes.
    pub fn retained(&self, mask: &Mask) -> (kept: Vec<&'d Buffer>)
        ensures
            pointed(kept@) == retained(self.list(), mask@),
    {
        let buffers: &'d Buffers = self.buffers;
        let mut kept: Vec<&'d Buffer> = Vec::new();
        let mut i: usize = 0;
        let ghost all = retained(self.list(), mask@);
        proof {
            assert(self.list().skip(0) =~= self.list());
            assert(mask@.skip(0) =~= mask@);
            assert(pointed(kept@) + all =~= all);
        }
        while i < buffers.len() && i < mask.len()
            invariant
                buffers == self.buffers,
                i <= least(self.list().len(), mask@.len()),
                pointed(kept@) + retained(self.list().skip(i as int), mask@.skip(i as int)) == all,
            decreases self.list().len() - i,
        {
            let ghost before = pointed(kept@);
            let ghost (rest, bits) = (self.list().skip(i as int), mask@.skip(i as int));
            proof {
                assert(rest.skip(1) =~= self.list().skip(i + 1));
                assert(bits.skip(1) =~= mask@.skip(i + 1));
            }
            if mask.get(i) {
                let buffer: &'d Buffer = buffers.get(i);
                kept.push(buffer);
                proof {
                    assert(pointed(kept@) =~= before.push(rest[0]));
                    assert(pointed(kept@) + retained(rest.skip(1), bits.skip(1)) =~= before
                        + retained(rest, bits));
                }
            }
            i += 1;
        }
        assert(pointed(kept@) =~= all);
        kept
    }

    /// Tests the buffers that the mask includes, and excludes those that hold no part of the result.
    /// Gives the number of buffers that are left.
    #[verifier::loop_isolation(false)]
    pub fn try_exclude<P: Probe<'d>>(&self, mask: &mut Mask, probe: &P) -> (left: Result<
        usize,
        Error,
    >)
        ensures
            final(mask)@ == sieved(
                verdicts(self.list(), self.bytes(), *probe),
                old(mask)@,
                0,
            ).1,
            match sieved(verdicts(self.list(), self.bytes(), *probe), old(mask)@, 0).0 {
                Some(e) => left == Err::<usize, Error>(e),
                None => left is Ok && left->Ok_0 == tally(
                    final(mask)@,
                    least(self.list().len(), old(mask)@.len()),
                ),
            },
    {
        let ghost given = verdicts(self.list(), self.bytes(), *probe);
        let ghost all = sieved(given, mask@, 0);
        let ghost length = mask@.len();
        let mut n: usize = 0;
        let mut i: usize = 0;
        while i < self.buffers.len() && i < mask.len()
            invariant
                mask@.len() == length,
                i <= least(self.list().len(), length),
                sieved(given, mask@, i as nat) == all,
                n == tally(mask@, i as nat),
            decreases self.list().len() - i,
        {
            proof {
                lemma_tally_bound(mask@, i as nat);
                lemma_sieved(given, mask@, i as nat + 1);
            }
            if mask.get(i) {
                match self.probe_at(i, probe) {
                    Err(e) => {
                        return Err(e);
                    },
                    Ok(true) => {
                        n += 1;
                    },
                    Ok(false) => {
                        let ghost before = mask@;
                        mask.exclude(i);
                        proof {
                            lemma_tally_local(before, mask@, i as nat);
                        }
                    },
                }
            }
            i += 1;
        }
        Ok(n)
    }

    /// Tests the buffer at place `i`.
    fn probe_at<P: Probe<'d>>(&self, i: usize, probe: &P) -> (verdict: Result<bool, Error>)
        requires
            i < self.list().len(),
        ensures
            verdict == verdicts(self.list(), self.bytes(), *probe)[i as int],
    {
        probe.probe(self.buffers.get(i), self.query.mmap)
    }
}

/// A column whose items are known to be of type `I`.
#[derive(Debug)]
pub struct Column<'d, I> {
    /// The source of the column.
    pub src: Src<'d>,
    /// The type of the items.
    pub item: PhantomData<I>,
}

impl<'d, I> From<Src<'d>> for Column<'d, I> {
    fn from(src: Src<'d>) -> (column: Self) {
        Column { src, item: PhantomData }
    }
}

impl<'d, I> vstd::std_specs::convert::FromSpecImpl<Src<'d>> for Column<'d, I> {
    open spec fn obeys_from_spec() -> bool {
        true
    }

    open spec fn from_spec(src: Src<'d>) -> Self {
        Column { src, item: PhantomData }
    }
}

/// Buffers that are excluded already are never tested: what their verdict would be does not matter.
pub proof fn law_excluded_buffers_are_not_tested(
    verdicts: Seq<Result<bool, Error>>,
    others: Seq<Result<bool, Error>>,
    mask: Seq<bool>,
    i: nat,
)
    requires
        verdicts.len() == others.len(),
        forall|j: int|
            0 <= j < verdicts.len() && j < mask.len() && mask[j] ==> #[trigger] verdicts[j]
                == others[j],
    ensures
        sieved(verdicts, mask, i) == sieved(others, mask, i),
    decreases verdicts.len() - i,
{
    if i < least(verdicts.len(), mask.len()) {
        if !mask[i as int] || verdicts[i as int] == Ok::<bool, Error>(true) {
            law_excluded_buffers_are_not_tested(verdicts, others, mask, i + 1);
        } else if verdicts[i as int] == Ok::<bool, Error>(false) {
            law_excluded_buffers_are_not_tested(
                verdicts,
                others,
                mask.update(i as int, false),
                i + 1,
            );
        }
    }
}

/// A mask retains the buffers that it includes, in their order, and no others.
pub proof fn law_masks_retain_what_they_include(
    buffers: Seq<Buffer>,
    mask: Seq<bool>,
    buffer: Buffer,
)
    requires
        mask.len() == buffers.len(),
    ensures
        retained(Seq::<Buffer>::empty(), Seq::<bool>::empty()) == Seq::<Buffer>::empty(),
        retained(buffers.push(buffer), mask.push(true)) == retained(buffers, mask).push(buffer),
        retained(buffers.push(buffer), mask.push(false)) == retained(buffers, mask),
        tally(mask.push(true), mask.len() + 1) == tally(mask, mask.len()) + 1,
        tally(mask.push(false), mask.len() + 1) == tally(mask, mask.len()),
        tally(mask, 0) == 0,
    decreases buffers.len(),
{
    reveal_with_fuel(retained, 2);
    lemma_tally_local(mask, mask.push(true), mask.len());
    lemma_tally_local(mask, mask.push(false), mask.len());
    let (a, b) = (buffers.push(buffer), mask.push(true));
    let c = mask.push(false);
    if buffers.len() > 0 {
        let (rest, bits) = (buffers.skip(1), mask.skip(1));
        law_masks_retain_what_they_include(rest, bits, buffer);
        assert(a.skip(1) =~= rest.push(buffer));
        assert(b.skip(1) =~= bits.push(true));
        assert(c.skip(1) =~= bits.push(false));
    } else {
        assert(a.skip(1) =~= Seq::<Buffer>::empty());
    }
    assert(retained(a, b) =~= retained(buffers, mask).push(buffer));
    assert(retained(a, c) =~= retained(buffers, mask));
}

/// The mask of a source includes every buffer, what it retains is what a mask includes, and each included
/// buffer counts with the number of its items.
pub proof fn law_sources_read_what_masks_include<'d>(
    src: Src<'d>,
    whole: Mask,
    mask: Mask,
    kept: Vec<&'d Buffer>,
    counts: Vec<Result<usize, Error>>,
    i: int,
)
    requires
        call_ensures(Src::mask, (&src,), whole),
        call_ensures(Src::retained, (&src, &mask), kept),
        call_ensures(Src::counts, (&src, &mask), counts),
        mask@.len() == src.list().len(),
        0 <= i < src.list().len(),
    ensures
        whole@.len() == src.list().len(),
        whole@[i],
        kept@.map_values(|buffer: &'d Buffer| *buffer) == retained(src.list(), mask@),
        counts@.len() == src.list().len(),
        !mask@[i] ==> counts@[i] == Ok::<usize, Error>(0),
        mask@[i] && src.list()[i].length() <= usize::MAX ==> counts@[i] == Ok::<usize, Error>(
            src.list()[i].length() as usize,
        ),
        mask@[i] && src.list()[i].length() > usize::MAX ==> counts@[i] is Err,
{
    assert(kept@.map_values(|buffer: &'d Buffer| *buffer) =~= pointed(kept@));
}

/// A sieve excludes the included buffers whose verdict is negative and no others, and ends at the first
/// test that fails.
pub proof fn law_sieves_exclude_by_verdict(
    verdicts: Seq<Result<bool, Error>>,
    mask: Seq<bool>,
    failed: int,
)
    requires
        mask.len() == verdicts.len(),
    ensures
        (forall|j: int| 0 <= j < mask.len() && mask[j] ==> (#[trigger] verdicts[j]) is Ok) ==> {
            &&& sieved(verdicts, mask, 0).0 is None
            &&& sieved(verdicts, mask, 0).1.len() == mask.len()
            &&& forall|j: int|
                0 <= j < mask.len() ==> #[trigger] sieved(verdicts, mask, 0).1[j] == (mask[j]
                    && verdicts[j]->Ok_0)
        },
        0 <= failed < mask.len() && mask[failed] && verdicts[failed] is Err && (forall|j: int|
            0 <= j < failed && mask[j] ==> (#[trigger] verdicts[j]) is Ok) ==> sieved(
            verdicts,
            mask,
            0,
        ).0 == Some(verdicts[failed]->Err_0),
{
    if forall|j: int| 0 <= j < mask.len() && mask[j] ==> (#[trigger] verdicts[j]) is Ok {
        lemma_no_failure(verdicts, mask, 0);
        lemma_sieved(verdicts, mask, 0);
        assert forall|j: int| 0 <= j < mask.len() implies #[trigger] sieved(verdicts, mask, 0).1[j]
            == (mask[j] && verdicts[j]->Ok_0) by {
            if mask[j] {
                assert(verdicts[j] is Ok);
            }
        }
    }
    if 0 <= failed < mask.len() && mask[failed] && verdicts[failed] is Err && (forall|j: int|
        0 <= j < failed && mask[j] ==> (#[trigger] verdicts[j]) is Ok) {
        lemma_failure(verdicts, mask, 0, failed);
    }
}

/// Where no test fails, there is no error.
proof fn lemma_no_failure(verdicts: Seq<Result<bool, Error>>, mask: Seq<bool>, i: nat)
    requires
        mask.len() == verdicts.len(),
        forall|j: int| i <= j < mask.len() && mask[j] ==> (#[trigger] verdicts[j]) is Ok,
    ensures
        sieved(verdicts, mask, i).0 is None,
    decreases verdicts.len() - i,
{
    if i < mask.len() {
        if !mask[i as int] {
            lemma_no_failure(verdicts, mask, i + 1);
        } else {
            assert(verdicts[i as int] is Ok);
            lemma_no_failure(verdicts, mask, i + 1);
            lemma_no_failure(verdicts, mask.update(i as int, false), i + 1);
        }
    }
}

/// The first test that fails gives the error.
proof fn lemma_failure(verdicts: Seq<Result<bool, Error>>, mask: Seq<bool>, i: nat, failed: int)
    requires
        mask.len() == verdicts.len(),
        i <= failed < mask.len(),
        mask[failed],
        verdicts[failed] is Err,
        forall|j: int| i <= j < failed && mask[j] ==> (#[trigger] verdicts[j]) is Ok,
    ensures
        sieved(verdicts, mask, i).0 == Some(verdicts[failed]->Err_0),
    decreases failed - i,
{
    if i < failed {
        if !mask[i as int] {
            lemma_failure(verdicts, mask, i + 1, failed);
        } else {
            assert(verdicts[i as int] is Ok);
            lemma_failure(verdicts, mask, i + 1, failed);
            lemma_failure(verdicts, mask.update(i as int, false), i + 1, failed);
        }
    }
}

} // verus!
