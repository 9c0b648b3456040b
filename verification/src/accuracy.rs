//! The accuracy scorer: how often a predicate holds over a context stream.
//!
//! Accuracy is kept as the exact pair of hit count and total count; the
//! ratio `hits / total` is the accuracy figure, and turning it into a
//! floating-point number is left to callers. An empty context stream is a
//! reported error, never a silent `0 / 0`.

use vstd::prelude::*;

use crate::evaluate::{context_assignment, EvaluateIn, EvaluateVariableIn};
use crate::repository::{CharacterInWindow, RcRepository, Term};
use crate::truth_table::{is_table_for, lemma_table_agrees_with_term, TruthTable};

verus! {

/// An exact accuracy statistic: in how many of `total` contexts the
/// scored value evaluated to true.
#[derive(Debug, Clone, Copy, PartialEq, Eq, Structural)]
pub struct Accuracy {
    pub hits: usize,
    pub total: usize,
}

/// Scoring an empty context stream is a reported error: `0 / 0` is
/// undefined and must not pass silently.
#[derive(Debug, Clone, Copy, PartialEq, Eq, Structural)]
pub enum AccuracyError {
    NoContexts,
}

/// In how many of the contexts the value evaluates to true.
pub open spec fn count_true<Context, T: EvaluateIn<Context>>(t: T, contexts: Seq<Context>) -> int
    decreases contexts.len(),
{
    if contexts.len() == 0 {
        0
    } else {
        count_true(t, contexts.drop_last()) + (if t.spec_evaluate_in(&contexts.last()) {
            1int
        } else {
            0int
        })
    }
}

/// The hit count never exceeds the number of contexts.
pub proof fn lemma_count_true_bound<Context, T: EvaluateIn<Context>>(t: T, contexts: Seq<Context>)
    ensures
        0 <= count_true(t, contexts) <= contexts.len(),
    decreases contexts.len(),
{
    if contexts.len() > 0 {
        lemma_count_true_bound(t, contexts.drop_last());
    }
}

/// Score an evaluable value against a stream of contexts: in how many of
/// them it evaluates to true, over how many there are. The empty stream is
/// the one error.
pub fn compute_accuracy<Context, T: EvaluateIn<Context>>(t: &T, contexts: &Vec<Context>) -> (r:
    Result<Accuracy, AccuracyError>)
    requires
        forall|i: int|
            0 <= i < contexts@.len() ==> #[trigger] t.can_evaluate_in(&contexts@[i]),
    ensures
        match r {
            Ok(acc) => contexts@.len() > 0 && acc.total == contexts@.len() && acc.hits
                == count_true(*t, contexts@),
            Err(e) => contexts@.len() == 0 && e == AccuracyError::NoContexts,
        },
{
    if contexts.len() == 0 {
        return Err(AccuracyError::NoContexts);
    }
    let mut hits: usize = 0;
    let mut i: usize = 0;
    proof {
        assert(contexts@.take(0) =~= Seq::<Context>::empty());
    }
    while i < contexts.len()
        invariant
            i <= contexts@.len(),
            forall|j: int|
                0 <= j < contexts@.len() ==> #[trigger] t.can_evaluate_in(&contexts@[j]),
            hits as int == count_true(*t, contexts@.take(i as int)),
            hits <= i,
        decreases contexts@.len() - i,
    {
        let c = &contexts[i];
        let value = t.evaluate_in(c);
        proof {
            assert(contexts@.take(i as int + 1).drop_last() =~= contexts@.take(i as int));
            assert(contexts@.take(i as int + 1).last() == contexts@[i as int]);
        }
        if value {
            hits += 1;
        }
        i += 1;
    }
    proof {
        assert(contexts@.take(contexts@.len() as int) =~= contexts@);
    }
    Ok(Accuracy { hits, total: contexts.len() })
}

/// In how many of the contexts a term evaluates to true.
pub open spec fn count_term_true<Context>(
    repo: RcRepository,
    t: Term,
    contexts: Seq<Context>,
) -> int where CharacterInWindow: EvaluateVariableIn<Context>
    decreases contexts.len(),
{
    if contexts.len() == 0 {
        0
    } else {
        count_term_true(repo, t, contexts.drop_last()) + (if repo.sem(
            t,
            context_assignment(contexts.last()),
        ) {
            1int
        } else {
            0int
        })
    }
}

/// The term hit count never exceeds the number of contexts.
pub proof fn lemma_count_term_true_bound<Context>(
    repo: RcRepository,
    t: Term,
    contexts: Seq<Context>,
) where CharacterInWindow: EvaluateVariableIn<Context>
    ensures
        0 <= count_term_true(repo, t, contexts) <= contexts.len(),
    decreases contexts.len(),
{
    if contexts.len() > 0 {
        lemma_count_term_true_bound(repo, t, contexts.drop_last());
    }
}

/// Score a term against a stream of contexts, exactly as
/// [`compute_accuracy`] scores a truth table.
pub fn compute_term_accuracy<Context>(
    repo: &RcRepository,
    t: Term,
    contexts: &Vec<Context>,
) -> (r: Result<Accuracy, AccuracyError>) where CharacterInWindow: EvaluateVariableIn<Context>
    requires
        repo.wf(),
        repo.valid_term(t),
        forall|i: int, v: CharacterInWindow|
            0 <= i < contexts@.len() && repo.term_vars(t).contains(v)
                ==> #[trigger] v.can_evaluate_variable_in(&contexts@[i]),
    ensures
        match r {
            Ok(acc) => contexts@.len() > 0 && acc.total == contexts@.len() && acc.hits
                == count_term_true(*repo, t, contexts@),
            Err(e) => contexts@.len() == 0 && e == AccuracyError::NoContexts,
        },
{
    if contexts.len() == 0 {
        return Err(AccuracyError::NoContexts);
    }
    let mut hits: usize = 0;
    let mut i: usize = 0;
    proof {
        assert(contexts@.take(0) =~= Seq::<Context>::empty());
    }
    while i < contexts.len()
        invariant
            i <= contexts@.len(),
            repo.wf(),
            repo.valid_term(t),
            forall|j: int, v: CharacterInWindow|
                0 <= j < contexts@.len() && repo.term_vars(t).contains(v)
                    ==> #[trigger] v.can_evaluate_variable_in(&contexts@[j]),
            hits as int == count_term_true(*repo, t, contexts@.take(i as int)),
            hits <= i,
        decreases contexts@.len() - i,
    {
        let c = &contexts[i];
        let value = t.evaluate_in(repo, c);
        proof {
            assert(contexts@.take(i as int + 1).drop_last() =~= contexts@.take(i as int));
            assert(contexts@.take(i as int + 1).last() == contexts@[i as int]);
        }
        if value {
            hits += 1;
        }
        i += 1;
    }
    proof {
        assert(contexts@.take(contexts@.len() as int) =~= contexts@);
    }
    Ok(Accuracy { hits, total: contexts.len() })
}

/// A term and its truth table receive the same accuracy against any
/// context stream: scoring the canonical form loses nothing.
pub proof fn lemma_accuracy_consistent<Context>(
    repo: RcRepository,
    t: Term,
    table: TruthTable,
    contexts: Seq<Context>,
) where CharacterInWindow: EvaluateVariableIn<Context>
    requires
        repo.wf(),
        repo.valid_term(t),
        is_table_for(repo, t, table),
    ensures
        count_true(table, contexts) == count_term_true(repo, t, contexts),
    decreases contexts.len(),
{
    if contexts.len() > 0 {
        lemma_accuracy_consistent(repo, t, table, contexts.drop_last());
        lemma_table_agrees_with_term(repo, t, table, &contexts.last());
    }
}

} // verus!
