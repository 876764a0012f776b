//! What the generated reader does when it is pulled.
//!
//! The generated code is text. Its steps are given a meaning here, and what holds of every run of them
//! is proved of that meaning.

use crate::derive::field::FieldView;
use crate::derive::read::{
    failures_piece, inspections_piece, keep_text, pieces, pulls_piece, steps_text,
};
use crate::derive::template::{failed_text, inspected_text, pulled_text};
use crate::io::error::Error;
use crate::read::outcome::Outcome;
use vstd::prelude::*;

verus! {

/// One step of a pull of the reader.
pub enum Step {
    /// Pulls the stream of a field, and ends the reader where the stream has ended.
    Pull(int),
    /// Returns the outcome of a field where it is an error.
    Fail(int),
    /// Returns the outcome of a field where it is an error or absent, and unpacks it otherwise.
    Inspect(int),
}

/// The steps of one pull of a reader of `n` fields.
pub open spec fn program(n: nat) -> Seq<Step> {
    Seq::new(
        3 * n,
        |i: int|
            if i < n {
                Step::Pull(i)
            } else if i < 2 * n {
                Step::Fail(i - n)
            } else {
                Step::Inspect(i - 2 * n)
            },
    )
}

/// The text of a step.
pub open spec fn step_text(fields: Seq<FieldView>, step: Step) -> Seq<char> {
    match step {
        Step::Pull(i) => pulled_text(fields[i].ident),
        Step::Fail(i) => failed_text(fields[i].ident),
        Step::Inspect(i) => inspected_text(keep_text(fields[i].ident), fields[i].ident),
    }
}

/// The text of each step of one pull.
pub open spec fn program_piece(fields: Seq<FieldView>) -> spec_fn(int) -> Seq<char> {
    |i: int| step_text(fields, program(fields.len())[i])
}

/// Pieces that are those of one text and then those of another make up both texts.
proof fn lemma_pieces_sum(
    n: nat,
    m: nat,
    first: spec_fn(int) -> Seq<char>,
    second: spec_fn(int) -> Seq<char>,
    both: spec_fn(int) -> Seq<char>,
)
    requires
        forall|i: int| 0 <= i < n ==> #[trigger] both(i) == first(i),
        forall|i: int| 0 <= i < m ==> #[trigger] second(i) == both(n + i),
    ensures
        pieces(n + m, both) == pieces(n, first) + pieces(m, second),
    decreases n + m,
{
    if m > 0 {
        lemma_pieces_sum(n, (m - 1) as nat, first, second, both);
        assert(second(m - 1) == both(n + m - 1));
        assert(pieces(n + m, both) =~= pieces(n, first) + pieces(m, second));
    } else if n > 0 {
        lemma_pieces_sum((n - 1) as nat, 0, first, second, both);
        assert(both(n - 1) == first(n - 1));
        assert(pieces((n - 1) as nat, first) + pieces(0, second) =~= pieces((n - 1) as nat, first));
        assert(pieces(n, first) + pieces(0, second) =~= pieces(n, first));
    } else {
        assert(pieces(0, first) + pieces(0, second) =~= pieces(0, both));
    }
}

/// The generated steps are those of the program, in its order.
pub proof fn law_steps_are_the_program(fields: Seq<FieldView>)
    ensures
        steps_text(fields) == pieces(program(fields.len()).len(), program_piece(fields)),
{
    let n = fields.len();
    let all = program_piece(fields);
    let early = |i: int| all(i);
    lemma_pieces_sum(n, n, pulls_piece(fields), failures_piece(fields), early);
    lemma_pieces_sum(2 * n, n, early, inspections_piece(fields), all);
}

/// The streams of the fields, and what was pulled from each.
#[verifier::ext_equal]
pub struct Run<V> {
    /// The outcomes still to come of each stream.
    pub streams: Seq<Seq<Outcome<V>>>,
    /// What was pulled from each stream.
    pub held: Seq<Option<Outcome<V>>>,
}

/// What one pull of the reader gives.
pub enum Row<V> {
    /// The reader has ended.
    Ended,
    /// An error.
    Failed(Error),
    /// An absent item.
    Missing,
    /// The items of the fields, each with whether its field keeps it.
    Built(Seq<(bool, V)>),
}

/// Whether a field keeps its item, and the item.
pub open spec fn unpacked<V>(outcome: Outcome<V>) -> (bool, V) {
    match outcome {
        Outcome::Include(item) => (true, item),
        Outcome::Exclude(item) => (false, item),
        _ => arbitrary(),
    }
}

/// What the steps from place `at` on do: what is left of each stream, and what they give.
pub open spec fn performed<V>(steps: Seq<Step>, at: nat, run: Run<V>) -> (
    Seq<Seq<Outcome<V>>>,
    Row<V>,
)
    decreases steps.len() - at,
{
    if at >= steps.len() {
        (
            run.streams,
            Row::Built(Seq::new(run.held.len(), |i: int| unpacked(run.held[i]->0))),
        )
    } else {
        match steps[at as int] {
            Step::Pull(i) => if run.streams[i].len() == 0 {
                (run.streams, Row::Ended)
            } else {
                performed(
                    steps,
                    at + 1,
                    Run {
                        streams: run.streams.update(i, run.streams[i].skip(1)),
                        held: run.held.update(i, Some(run.streams[i][0])),
                    },
                )
            },
            Step::Fail(i) => match run.held[i] {
                Some(Outcome::Error(e)) => (run.streams, Row::Failed(e)),
                _ => performed(steps, at + 1, run),
            },
            Step::Inspect(i) => match run.held[i] {
                Some(Outcome::Error(e)) => (run.streams, Row::Failed(e)),
                Some(Outcome::Absent) => (run.streams, Row::Missing),
                _ => performed(steps, at + 1, run),
            },
        }
    }
}

/// What one pull of a reader over `streams` does.
pub open spec fn pulled_once<V>(streams: Seq<Seq<Outcome<V>>>) -> (Seq<Seq<Outcome<V>>>, Row<V>) {
    performed(
        program(streams.len()),
        0,
        Run { streams, held: Seq::new(streams.len(), |i: int| None) },
    )
}

/// The first error from place `from` on.
pub open spec fn first_error<V>(heads: Seq<Outcome<V>>, from: nat) -> Option<Error>
    decreases heads.len() - from,
{
    if from >= heads.len() {
        None
    } else {
        match heads[from as int] {
            Outcome::Error(e) => Some(e),
            _ => first_error(heads, from + 1),
        }
    }
}

/// What a reader makes of one outcome per field: an error if any field has one, an absent item if any
/// other field is absent, and the items of the fields otherwise.
pub open spec fn row_of<V>(heads: Seq<Outcome<V>>) -> Row<V> {
    match first_error(heads, 0) {
        Some(e) => Row::Failed(e),
        None => if exists|i: int| 0 <= i < heads.len() && (#[trigger] heads[i]) is Absent {
            Row::Missing
        } else {
            Row::Built(heads.map_values(|head: Outcome<V>| unpacked(head)))
        },
    }
}

/// The first outcome of each stream.
pub open spec fn heads_of<V>(streams: Seq<Seq<Outcome<V>>>) -> Seq<Outcome<V>> {
    streams.map_values(|stream: Seq<Outcome<V>>| stream[0])
}

/// Each stream without its first `k` outcomes.
pub open spec fn advanced<V>(streams: Seq<Seq<Outcome<V>>>, k: nat) -> Seq<Seq<Outcome<V>>> {
    streams.map_values(|stream: Seq<Outcome<V>>| stream.skip(k as int))
}

/// The run after the first `k` streams were pulled.
spec fn partly<V>(streams: Seq<Seq<Outcome<V>>>, k: nat) -> Run<V> {
    Run {
        streams: Seq::new(
            streams.len(),
            |i: int|
                if i < k {
                    streams[i].skip(1)
                } else {
                    streams[i]
                },
        ),
        held: Seq::new(
            streams.len(),
            |i: int|
                if i < k {
                    Some(streams[i][0])
                } else {
                    None
                },
        ),
    }
}

/// The first steps pull every stream.
proof fn lemma_pulls<V>(streams: Seq<Seq<Outcome<V>>>, k: nat)
    requires
        k <= streams.len(),
        forall|i: int| 0 <= i < streams.len() ==> (#[trigger] streams[i]).len() > 0,
    ensures
        performed(program(streams.len()), k, partly(streams, k)) == performed(
            program(streams.len()),
            streams.len(),
            partly(streams, streams.len()),
        ),
    decreases streams.len() - k,
{
    let n = streams.len();
    if k < n {
        let run = partly(streams, k);
        assert(program(n)[k as int] == Step::Pull(k as int));
        assert(streams[k as int].len() > 0);
        let next = Run {
            streams: run.streams.update(k as int, run.streams[k as int].skip(1)),
            held: run.held.update(k as int, Some(run.streams[k as int][0])),
        };
        assert(next.streams =~= partly(streams, k + 1).streams);
        assert(next.held =~= partly(streams, k + 1).held);
        lemma_pulls(streams, k + 1);
    }
}

/// The next steps return the first error.
proof fn lemma_failures<V>(streams: Seq<Seq<Outcome<V>>>, k: nat)
    requires
        k <= streams.len(),
    ensures
        ({
            let n = streams.len();
            let run = partly(streams, n);
            performed(program(n), n + k, run) == match first_error(heads_of(streams), k) {
                Some(e) => (run.streams, Row::Failed(e)),
                None => performed(program(n), 2 * n, run),
            }
        }),
    decreases streams.len() - k,
{
    let n = streams.len();
    let run = partly(streams, n);
    if k < n {
        assert(program(n)[(n + k) as int] == Step::Fail(k as int));
        assert(run.held[k as int] == Some(heads_of(streams)[k as int]));
        lemma_failures(streams, k + 1);
    }
}

/// No outcome is an error where there is no first one.
proof fn lemma_no_error<V>(heads: Seq<Outcome<V>>, from: nat, i: int)
    requires
        first_error(heads, from) is None,
        from <= i < heads.len(),
    ensures
        !(heads[i] is Error),
    decreases heads.len() - from,
{
    if from < i {
        lemma_no_error(heads, from + 1, i);
    }
}

/// The last steps return an absent item, or unpack them all.
proof fn lemma_inspections<V>(streams: Seq<Seq<Outcome<V>>>, k: nat)
    requires
        k <= streams.len(),
        first_error(heads_of(streams), 0) is None,
    ensures
        ({
            let n = streams.len();
            let run = partly(streams, n);
            let heads = heads_of(streams);
            performed(program(n), 2 * n + k, run) == (
                run.streams,
                if exists|i: int| k <= i < n && (#[trigger] heads[i]) is Absent {
                    Row::Missing
                } else {
                    Row::Built(heads.map_values(|head: Outcome<V>| unpacked(head)))
                },
            )
        }),
    decreases streams.len() - k,
{
    let n = streams.len();
    let run = partly(streams, n);
    let heads = heads_of(streams);
    if k < n {
        assert(program(n)[(2 * n + k) as int] == Step::Inspect(k as int));
        assert(run.held[k as int] == Some(heads[k as int]));
        lemma_no_error(heads, 0, k as int);
        lemma_inspections(streams, k + 1);
        if !(heads[k as int] is Absent) && exists|i: int|
            k <= i < n && (#[trigger] heads[i]) is Absent {
            let i = choose|i: int| k <= i < n && (#[trigger] heads[i]) is Absent;
            assert(k + 1 <= i);
        }
    } else {
        assert(Seq::new(run.held.len(), |i: int| unpacked(run.held[i]->0)) =~= heads.map_values(
            |head: Outcome<V>| unpacked(head),
        ));
    }
}

/// The reader stays in lockstep: while no stream has ended, one pull advances every stream by exactly one
/// outcome, whatever the outcomes are, and gives an error if any field has one.
pub proof fn law_one_pull_advances_every_stream<V>(streams: Seq<Seq<Outcome<V>>>)
    requires
        forall|i: int| 0 <= i < streams.len() ==> (#[trigger] streams[i]).len() > 0,
    ensures
        pulled_once(streams) == (advanced(streams, 1), row_of(heads_of(streams))),
{
    let n = streams.len();
    let start = Run { streams, held: Seq::new(n, |i: int| None) };
    assert(start.streams =~= partly(streams, 0).streams);
    assert(start.held =~= partly(streams, 0).held);
    assert(partly(streams, n).streams =~= advanced(streams, 1));
    lemma_pulls(streams, 0);
    lemma_failures(streams, 0);
    if first_error(heads_of(streams), 0) is None {
        lemma_inspections(streams, 0);
    }
}

/// What is left of the streams after `k` pulls of the reader.
pub open spec fn after_pulls<V>(streams: Seq<Seq<Outcome<V>>>, k: nat) -> Seq<Seq<Outcome<V>>>
    decreases k,
{
    if k == 0 {
        streams
    } else {
        pulled_once(after_pulls(streams, (k - 1) as nat)).0
    }
}

/// After `k` pulls, none of which met the end of a stream, every stream stands at slot `k`.
pub proof fn law_streams_stay_in_lockstep<V>(streams: Seq<Seq<Outcome<V>>>, k: nat)
    requires
        forall|i: int| 0 <= i < streams.len() ==> (#[trigger] streams[i]).len() >= k,
    ensures
        after_pulls(streams, k) == advanced(streams, k),
    decreases k,
{
    if k == 0 {
        assert forall|i: int| 0 <= i < streams.len() implies #[trigger] streams[i].skip(0)
            =~= streams[i] by {}
        assert(advanced(streams, 0) =~= streams);
    } else {
        let before = advanced(streams, (k - 1) as nat);
        law_streams_stay_in_lockstep(streams, (k - 1) as nat);
        assert forall|i: int| 0 <= i < before.len() implies (#[trigger] before[i]).len() > 0 by {
            assert(streams[i].len() >= k);
        }
        law_one_pull_advances_every_stream(before);
        assert forall|i: int| 0 <= i < streams.len() implies #[trigger] advanced(before, 1)[i]
            == advanced(streams, k)[i] by {
            assert(streams[i].len() >= k);
            assert(streams[i].skip(k - 1).skip(1) =~= streams[i].skip(k as int));
        }
        assert(advanced(before, 1) =~= advanced(streams, k));
    }
}

/// An error of any field is what the pull gives, whatever the other fields hold.
pub proof fn law_any_error_is_returned<V>(streams: Seq<Seq<Outcome<V>>>, i: int)
    requires
        forall|j: int| 0 <= j < streams.len() ==> (#[trigger] streams[j]).len() > 0,
        0 <= i < streams.len(),
        streams[i][0] is Error,
    ensures
        pulled_once(streams).1 is Failed,
{
    law_one_pull_advances_every_stream(streams);
    if first_error(heads_of(streams), 0) is None {
        lemma_no_error(heads_of(streams), 0, i);
    }
}

} // verus!
