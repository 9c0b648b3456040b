//! Evaluation of variables and terms against contexts.
//!
//! A context is any environment in which a variable can answer "am I true
//! here?". The two context types of this crate are [`CharacterWindow`] (a
//! shared symbol sequence plus a cursor) and [`VariableAssignment`] (an
//! explicit mapping from variables to truth values); term evaluation is
//! generic over either through the [`EvaluateVariableIn`] capability.

use std::rc::Rc;
use vstd::prelude::*;

use crate::repository::{CharacterInWindow, Node, RcRepository, Term};

verus! {

/// The capability of a variable type to be evaluated in a context type.
pub trait EvaluateVariableIn<Context> {
    /// The contexts in which evaluation is defined (and so cannot panic).
    spec fn can_evaluate_variable_in(&self, context: &Context) -> bool;

    /// What evaluation returns.
    spec fn spec_evaluate_variable_in(&self, context: &Context) -> bool;

    fn evaluate_variable_in(&self, context: &Context) -> (r: bool)
        requires
            self.can_evaluate_variable_in(context),
        ensures
            r == self.spec_evaluate_variable_in(context),
    ;
}

/// The capability of a composite value (a truth table, say) to be
/// evaluated in a context type.
pub trait EvaluateIn<Context> {
    /// The contexts in which evaluation is defined (and so cannot panic).
    spec fn can_evaluate_in(&self, context: &Context) -> bool;

    /// What evaluation returns.
    spec fn spec_evaluate_in(&self, context: &Context) -> bool;

    fn evaluate_in(&self, context: &Context) -> (r: bool)
        requires
            self.can_evaluate_in(context),
        ensures
            r == self.spec_evaluate_in(context),
    ;
}

/// The truth assignment that a context induces on all variables.
pub open spec fn context_assignment<Context>(context: Context) -> spec_fn(CharacterInWindow) -> bool
    where CharacterInWindow: EvaluateVariableIn<Context>
{
    |v: CharacterInWindow| v.spec_evaluate_variable_in(&context)
}

/// A context over a shared symbol sequence: the variable "character c at
/// negative offset o" is true when the character `o` positions before the
/// cursor `index` exists and equals `c`.
#[derive(Debug)]
pub struct CharacterWindow {
    pub data: Rc<Vec<char>>,
    pub index: usize,
}

impl EvaluateVariableIn<CharacterWindow> for CharacterInWindow {
    /// Evaluation is defined whenever the probed position is in bounds or
    /// the offset reaches past the start of the data.
    open spec fn can_evaluate_variable_in(&self, context: &CharacterWindow) -> bool {
        ||| self.spec_negative_offset() > context.index
        ||| context.index - self.spec_negative_offset() < context.data@.len()
    }

    open spec fn spec_evaluate_variable_in(&self, context: &CharacterWindow) -> bool {
        &&& self.spec_negative_offset() <= context.index
        &&& context.data@[context.index - self.spec_negative_offset()] == self.spec_character()
    }

    fn evaluate_variable_in(&self, context: &CharacterWindow) -> (r: bool) {
        let offset = self.negative_offset();
        if offset > context.index {
            return false;
        }
        let d: &Vec<char> = &context.data;
        self.character() == d[context.index - offset]
    }
}

/// A variable whose offset reaches past the current cursor evaluates to
/// false; it does not err, even at the very first position of a sequence.
pub proof fn lemma_offset_past_cursor_is_false(v: CharacterInWindow, context: CharacterWindow)
    requires
        v.spec_negative_offset() > context.index,
    ensures
        v.can_evaluate_variable_in(&context),
        !v.spec_evaluate_variable_in(&context),
{
}

/// What a sequence of assignment entries, read back to front, says about a
/// variable: the value of the latest entry for it, if there is one.
pub open spec fn assignment_lookup(
    entries: Seq<(CharacterInWindow, bool)>,
    v: CharacterInWindow,
) -> Option<bool>
    decreases entries.len(),
{
    if entries.len() == 0 {
        Option::None
    } else if entries.last().0 == v {
        Option::Some(entries.last().1)
    } else {
        assignment_lookup(entries.drop_last(), v)
    }
}

/// An explicit mapping from variables to truth values, used to evaluate
/// terms and truth tables against named variables.
#[derive(Debug)]
pub struct VariableAssignment {
    entries: Vec<(CharacterInWindow, bool)>,
}

impl VariableAssignment {
    /// The recorded entries, oldest first.
    pub closed spec fn spec_entries(self) -> Seq<(CharacterInWindow, bool)> {
        self.entries@
    }

    /// Whether the assignment gives `v` a value.
    pub open spec fn contains_var(self, v: CharacterInWindow) -> bool {
        assignment_lookup(self.spec_entries(), v) is Some
    }

    /// The value the assignment gives `v`.
    pub open spec fn value_of(self, v: CharacterInWindow) -> bool {
        assignment_lookup(self.spec_entries(), v) == Option::Some(true)
    }

    /// An assignment that gives no variable a value.
    pub fn new() -> (r: Self)
        ensures
            forall|v: CharacterInWindow| !r.contains_var(v),
    {
        let r = VariableAssignment { entries: Vec::new() };
        proof {
            assert(forall|v: CharacterInWindow|
                assignment_lookup(r.spec_entries(), v) is None);
        }
        r
    }

    /// Give `v` the value `value`; other variables keep theirs.
    pub fn set(&mut self, v: CharacterInWindow, value: bool)
        ensures
            final(self).contains_var(v),
            final(self).value_of(v) == value,
            forall|w: CharacterInWindow|
                w != v ==> #[trigger] final(self).contains_var(w) == old(self).contains_var(w),
            forall|w: CharacterInWindow|
                w != v ==> #[trigger] final(self).value_of(w) == old(self).value_of(w),
    {
        self.entries.push((v, value));
        proof {
            assert(self.spec_entries().drop_last() =~= old(self).spec_entries());
            assert(self.spec_entries().last() == (v, value));
        }
    }

    /// Look up the value of `v`, the latest entry winning.
    pub fn get(&self, v: &CharacterInWindow) -> (r: Option<bool>)
        ensures
            r == assignment_lookup(self.spec_entries(), *v),
    {
        let mut i: usize = self.entries.len();
        proof {
            assert(self.entries@.take(i as int) =~= self.entries@);
        }
        while i > 0
            invariant
                i <= self.entries@.len(),
                assignment_lookup(self.entries@, *v) == assignment_lookup(
                    self.entries@.take(i as int),
                    *v,
                ),
            decreases i,
        {
            i = i - 1;
            let entry = self.entries[i];
            proof {
                assert(self.entries@.take(i as int + 1).last() == self.entries@[i as int]);
                assert(self.entries@.take(i as int + 1).drop_last() =~= self.entries@.take(
                    i as int,
                ));
            }
            if entry.0 == *v {
                return Some(entry.1);
            }
        }
        proof {
            assert(self.entries@.take(0) =~= Seq::<(CharacterInWindow, bool)>::empty());
        }
        None
    }
}

impl EvaluateVariableIn<VariableAssignment> for CharacterInWindow {
    /// Evaluation is defined for the variables the assignment names.
    open spec fn can_evaluate_variable_in(&self, context: &VariableAssignment) -> bool {
        context.contains_var(*self)
    }

    open spec fn spec_evaluate_variable_in(&self, context: &VariableAssignment) -> bool {
        context.value_of(*self)
    }

    fn evaluate_variable_in(&self, context: &VariableAssignment) -> (r: bool) {
        match context.get(self) {
            Some(b) => b,
            None => {
                proof {
                    assert(false);
                }
                false
            },
        }
    }
}

impl Term {
    /// Evaluate this term in `repo` against any context the variables can
    /// be evaluated in: a variable asks the context, `not` negates, `and`
    /// and `or` combine both children.
    pub fn evaluate_in<Context>(&self, repo: &RcRepository, context: &Context) -> (r: bool)
        where CharacterInWindow: EvaluateVariableIn<Context>
        requires
            repo.wf(),
            repo.valid_term(*self),
            forall|v: CharacterInWindow|
                repo.term_vars(*self).contains(v) ==> #[trigger] v.can_evaluate_variable_in(
                    context,
                ),
        ensures
            r == repo.sem(*self, context_assignment(*context)),
        decreases self.spec_id(),
    {
        proof {
            assert(crate::repository::node_wf(
                repo.term_node(*self),
                self.spec_id() as int,
                repo.var_count() as int,
            ));
        }
        let n = repo.node(*self);
        match n {
            Node::Var(v) => {
                let value = repo.variable_value(v);
                proof {
                    assert(repo.term_vars(*self) == set![repo.var_value(v)]);
                    assert(repo.term_vars(*self).contains(repo.var_value(v)));
                }
                value.evaluate_variable_in(context)
            },
            Node::Not(x) => {
                proof {
                    assert(repo.term_vars(*self) == repo.term_vars(x));
                }
                let rx = x.evaluate_in(repo, context);
                !rx
            },
            Node::And(x, y) => {
                proof {
                    assert(repo.term_vars(*self) == repo.term_vars(x).union(repo.term_vars(y)));
                    assert(forall|v: CharacterInWindow|
                        repo.term_vars(x).contains(v) ==> repo.term_vars(*self).contains(v));
                    assert(forall|v: CharacterInWindow|
                        repo.term_vars(y).contains(v) ==> repo.term_vars(*self).contains(v));
                }
                let rx = x.evaluate_in(repo, context);
                let ry = y.evaluate_in(repo, context);
                rx && ry
            },
            Node::Or(x, y) => {
                proof {
                    assert(repo.term_vars(*self) == repo.term_vars(x).union(repo.term_vars(y)));
                    assert(forall|v: CharacterInWindow|
                        repo.term_vars(x).contains(v) ==> repo.term_vars(*self).contains(v));
                    assert(forall|v: CharacterInWindow|
                        repo.term_vars(y).contains(v) ==> repo.term_vars(*self).contains(v));
                }
                let rx = x.evaluate_in(repo, context);
                let ry = y.evaluate_in(repo, context);
                rx || ry
            },
        }
    }
}

/// One context per position of the data, sharing the data itself.
pub fn contexts_from_data(data: Rc<Vec<char>>) -> (contexts: Vec<CharacterWindow>)
    ensures
        contexts@.len() == data@.len(),
        forall|i: int|
            0 <= i < contexts@.len() ==> (#[trigger] contexts@[i]).index == i && contexts@[i].data@
                == data@,
{
    let len = data.len();
    let mut contexts: Vec<CharacterWindow> = Vec::new();
    let mut i: usize = 0;
    while i < len
        invariant
            i <= len,
            len == data@.len(),
            contexts@.len() == i,
            forall|j: int|
                0 <= j < i ==> (#[trigger] contexts@[j]).index == j && contexts@[j].data@ == data@,
        decreases len - i,
    {
        contexts.push(CharacterWindow { data: data.clone(), index: i });
        i += 1;
    }
    contexts
}

} // verus!
