//! Truth tables: the semantic canonical form of a term.
//!
//! A truth table pairs the sorted, duplicate-free sequence of a term's free
//! variables with the vector of the term's values under all `2^k`
//! assignments, indexed so that bit `i` of the row number gives the value
//! of the `i`-th variable. Two terms receive the same table exactly when
//! they are semantically equivalent over the same variables, however they
//! are written.

use vstd::arithmetic::power2::{
    lemma2_to64, lemma_pow2_pos, lemma_pow2_strictly_increases, lemma_pow2_unfold, pow2,
};
use vstd::prelude::*;

use crate::evaluate::{context_assignment, EvaluateIn, EvaluateVariableIn};
use crate::repository::{
    lemma_var_order, lemma_var_order_transitive, var_lt, var_lt_exec, CharacterInWindow, Node,
    RcRepository, Term,
};

verus! {

/// A sequence of variables in strictly ascending order (hence without
/// duplicates).
pub open spec fn strictly_sorted(s: Seq<CharacterInWindow>) -> bool {
    forall|i: int, j: int| 0 <= i < j < s.len() ==> var_lt(#[trigger] s[i], #[trigger] s[j])
}

/// A strictly sorted sequence has no duplicates.
pub proof fn lemma_strictly_sorted_no_duplicates(s: Seq<CharacterInWindow>)
    requires
        strictly_sorted(s),
    ensures
        s.no_duplicates(),
{
    assert forall|i: int, j: int|
        0 <= i < s.len() && 0 <= j < s.len() && i != j implies s[i] != s[j] by {
        if i < j {
            lemma_var_order(s[i], s[j]);
        } else {
            lemma_var_order(s[j], s[i]);
        }
    }
}

/// Two strictly sorted sequences over the same set of variables are equal:
/// sorting makes the variable sequence of a truth table canonical.
pub proof fn lemma_strictly_sorted_unique(x: Seq<CharacterInWindow>, y: Seq<CharacterInWindow>)
    requires
        strictly_sorted(x),
        strictly_sorted(y),
        x.to_set() == y.to_set(),
    ensures
        x == y,
    decreases x.len(),
{
    if x.len() == 0 {
        if y.len() > 0 {
            assert(y.to_set().contains(y[0]));
            assert(x.contains(y[0]));
        }
        assert(x =~= y);
    } else if y.len() == 0 {
        assert(x.to_set().contains(x[0]));
        assert(y.contains(x[0]));
    } else {
        assert(x.to_set().contains(x[0]));
        assert(y.contains(x[0]));
        assert(y.to_set().contains(y[0]));
        assert(x.contains(y[0]));
        let jx = choose|j: int| 0 <= j < y.len() && y[j] == x[0];
        let jy = choose|j: int| 0 <= j < x.len() && x[j] == y[0];
        lemma_var_order(x[0], y[0]);
        if jx > 0 {
            assert(var_lt(y[0], y[jx]));
        }
        if jy > 0 {
            assert(var_lt(x[0], x[jy]));
        }
        assert(x[0] == y[0]);
        let xt = x.drop_first();
        let yt = y.drop_first();
        assert(strictly_sorted(xt)) by {
            assert(forall|i: int, j: int|
                0 <= i < j < xt.len() ==> xt[i] == x[i + 1] && xt[j] == x[j + 1]);
        }
        assert(strictly_sorted(yt)) by {
            assert(forall|i: int, j: int|
                0 <= i < j < yt.len() ==> yt[i] == y[i + 1] && yt[j] == y[j + 1]);
        }
        assert(xt.to_set() =~= x.to_set().remove(x[0])) by {
            assert forall|v: CharacterInWindow| #[trigger]
                xt.contains(v) implies x.contains(v) && v != x[0] by {
                let k = choose|k: int| 0 <= k < xt.len() && xt[k] == v;
                assert(x[k + 1] == v);
                assert(var_lt(x[0], x[k + 1]));
                lemma_var_order(x[0], v);
            }
            assert forall|v: CharacterInWindow|
                x.contains(v) && v != x[0] implies #[trigger] xt.contains(v) by {
                let k = choose|k: int| 0 <= k < x.len() && x[k] == v;
                assert(k > 0);
                assert(xt[k - 1] == v);
            }
        }
        assert(yt.to_set() =~= y.to_set().remove(y[0])) by {
            assert forall|v: CharacterInWindow| #[trigger]
                yt.contains(v) implies y.contains(v) && v != y[0] by {
                let k = choose|k: int| 0 <= k < yt.len() && yt[k] == v;
                assert(y[k + 1] == v);
                assert(var_lt(y[0], y[k + 1]));
                lemma_var_order(y[0], v);
            }
            assert forall|v: CharacterInWindow|
                y.contains(v) && v != y[0] implies #[trigger] yt.contains(v) by {
                let k = choose|k: int| 0 <= k < y.len() && y[k] == v;
                assert(k > 0);
                assert(yt[k - 1] == v);
            }
        }
        lemma_strictly_sorted_unique(xt, yt);
        assert(x =~= y) by {
            assert(forall|i: int| 1 <= i < x.len() ==> x[i] == xt[i - 1] && y[i] == yt[i - 1]);
        }
    }
}

/// Insert a variable into a sorted sequence, keeping it sorted and
/// duplicate-free.
fn insert_sorted(vars: &mut Vec<CharacterInWindow>, v: CharacterInWindow)
    requires
        strictly_sorted(old(vars)@),
    ensures
        strictly_sorted(final(vars)@),
        final(vars)@.to_set() == old(vars)@.to_set().insert(v),
{
    let ghost pre = vars@;
    let mut i: usize = 0;
    while i < vars.len()
        invariant
            pre == old(vars)@,
            vars@ == pre,
            strictly_sorted(pre),
            i <= pre.len(),
            forall|j: int| 0 <= j < i ==> var_lt(#[trigger] pre[j], v),
        decreases pre.len() - i,
    {
        let cur = vars[i];
        if cur == v {
            proof {
                assert(pre.contains(v)) by {
                    assert(pre[i as int] == v);
                }
                assert(pre.to_set() =~= pre.to_set().insert(v));
            }
            return;
        }
        if !var_lt_exec(&cur, &v) {
            proof {
                lemma_var_order(cur, v);
                assert(var_lt(v, cur));
            }
            vars.insert(i, v);
            proof {
                let post = vars@;
                assert(post == pre.insert(i as int, v));
                assert(post.len() == pre.len() + 1);
                assert(forall|j: int| 0 <= j < i ==> post[j] == pre[j]);
                assert(post[i as int] == v);
                assert(forall|j: int| i < j < post.len() ==> post[j] == pre[j - 1]);
                assert forall|j: int, k: int|
                    0 <= j < k < post.len() implies var_lt(post[j], post[k]) by {
                    if j < i && k < i {
                    } else if j < i && k == i {
                        assert(var_lt(pre[j], v));
                    } else if j < i && k > i {
                        assert(var_lt(pre[j], pre[k - 1]));
                    } else if j == i && k > i {
                        if k - 1 == i {
                            assert(var_lt(v, cur));
                        } else {
                            assert(var_lt(cur, pre[k - 1]));
                            lemma_var_order_transitive(v, cur, pre[k - 1]);
                        }
                    }
                }
                assert(post.to_set() =~= pre.to_set().insert(v)) by {
                    assert forall|w: CharacterInWindow| #[trigger]
                        post.contains(w) implies pre.contains(w) || w == v by {
                        let k = choose|k: int| 0 <= k < post.len() && post[k] == w;
                        if k < i {
                            assert(pre[k] == w);
                        } else if k > i {
                            assert(pre[k - 1] == w);
                        }
                    }
                    assert forall|w: CharacterInWindow|
                        pre.contains(w) || w == v implies #[trigger] post.contains(w) by {
                        if w == v {
                            assert(post[i as int] == w);
                        } else {
                            let k = choose|k: int| 0 <= k < pre.len() && pre[k] == w;
                            if k < i {
                                assert(post[k] == w);
                            } else {
                                assert(post[k + 1] == w);
                            }
                        }
                    }
                }
            }
            return;
        }
        proof {
            lemma_var_order(cur, v);
        }
        i += 1;
    }
    vars.push(v);
    proof {
        let post = vars@;
        assert(post == pre.push(v));
        assert(forall|j: int| 0 <= j < pre.len() ==> post[j] == pre[j]);
        assert(post[pre.len() as int] == v);
        assert forall|j: int, k: int| 0 <= j < k < post.len() implies var_lt(post[j], post[k]) by {
            if k == pre.len() {
                assert(var_lt(pre[j], v));
            }
        }
        assert(post.to_set() =~= pre.to_set().insert(v)) by {
            assert forall|w: CharacterInWindow| #[trigger]
                post.contains(w) implies pre.contains(w) || w == v by {
                let k = choose|k: int| 0 <= k < post.len() && post[k] == w;
                if k < pre.len() {
                    assert(pre[k] == w);
                }
            }
            assert forall|w: CharacterInWindow|
                pre.contains(w) || w == v implies #[trigger] post.contains(w) by {
                if w == v {
                    assert(post[pre.len() as int] == w);
                } else {
                    let k = choose|k: int| 0 <= k < pre.len() && pre[k] == w;
                    assert(post[k] == w);
                }
            }
        }
    }
}

impl Term {
    /// Collect the free variables of this term into a sorted,
    /// duplicate-free sequence.
    pub fn get_variables(&self, repo: &RcRepository) -> (vars: Vec<CharacterInWindow>)
        requires
            repo.wf(),
            repo.valid_term(*self),
        ensures
            strictly_sorted(vars@),
            vars@.to_set() == repo.term_vars(*self),
        decreases self.spec_id(),
    {
        proof {
            assert(crate::repository::node_wf(
                repo.term_node(*self),
                self.spec_id() as int,
                repo.var_count() as int,
            ));
        }
        let n = repo.node(*self);
        match n {
            Node::Var(v) => {
                let mut vars: Vec<CharacterInWindow> = Vec::new();
                vars.push(repo.variable_value(v));
                proof {
                    assert(repo.term_vars(*self) == set![repo.var_value(v)]);
                    assert(vars@.to_set() =~= set![repo.var_value(v)]) by {
                        assert(vars@[0] == repo.var_value(v));
                        assert forall|w: CharacterInWindow| #[trigger]
                            vars@.contains(w) implies w == repo.var_value(v) by {
                            let k = choose|k: int| 0 <= k < vars@.len() && vars@[k] == w;
                        }
                        assert(vars@.contains(repo.var_value(v)));
                    }
                }
                vars
            },
            Node::Not(x) => {
                proof {
                    assert(repo.term_vars(*self) == repo.term_vars(x));
                }
                x.get_variables(repo)
            },
            Node::And(x, y) => {
                proof {
                    assert(repo.term_vars(*self) == repo.term_vars(x).union(repo.term_vars(y)));
                }
                let mut vars = x.get_variables(repo);
                let right = y.get_variables(repo);
                merge_into_sorted(&mut vars, &right);
                proof {
                    assert(vars@.to_set() =~= repo.term_vars(*self));
                }
                vars
            },
            Node::Or(x, y) => {
                proof {
                    assert(repo.term_vars(*self) == repo.term_vars(x).union(repo.term_vars(y)));
                }
                let mut vars = x.get_variables(repo);
                let right = y.get_variables(repo);
                merge_into_sorted(&mut vars, &right);
                proof {
                    assert(vars@.to_set() =~= repo.term_vars(*self));
                }
                vars
            },
        }
    }
}

/// Insert every element of `right` into the sorted sequence `vars`.
fn merge_into_sorted(vars: &mut Vec<CharacterInWindow>, right: &Vec<CharacterInWindow>)
    requires
        strictly_sorted(old(vars)@),
    ensures
        strictly_sorted(final(vars)@),
        final(vars)@.to_set() == old(vars)@.to_set().union(right@.to_set()),
{
    let ghost pre = vars@;
    let mut j: usize = 0;
    proof {
        assert(pre.to_set() =~= pre.to_set().union(right@.take(0).to_set())) by {
            assert(forall|w: CharacterInWindow| !right@.take(0).contains(w));
        }
    }
    while j < right.len()
        invariant
            pre == old(vars)@,
            strictly_sorted(vars@),
            j <= right@.len(),
            vars@.to_set() == pre.to_set().union(right@.take(j as int).to_set()),
        decreases right@.len() - j,
    {
        let item = right[j];
        insert_sorted(vars, item);
        proof {
            assert(right@.take(j as int + 1) =~= right@.take(j as int).push(item));
            assert(right@.take(j as int + 1).to_set() =~= right@.take(j as int).to_set().insert(
                item,
            )) by {
                let s = right@.take(j as int);
                assert forall|w: CharacterInWindow| #[trigger]
                    s.push(item).contains(w) implies s.contains(w) || w == item by {
                    let k = choose|k: int| 0 <= k < s.push(item).len() && s.push(item)[k] == w;
                    if k < s.len() {
                        assert(s[k] == w);
                    }
                }
                assert forall|w: CharacterInWindow|
                    s.contains(w) || w == item implies #[trigger] s.push(item).contains(w) by {
                    if w == item {
                        assert(s.push(item)[s.len() as int] == w);
                    } else {
                        let k = choose|k: int| 0 <= k < s.len() && s[k] == w;
                        assert(s.push(item)[k] == w);
                    }
                }
            }
            assert(vars@.to_set() =~= pre.to_set().union(right@.take(j as int + 1).to_set()));
        }
        j += 1;
    }
    proof {
        assert(right@.take(right@.len() as int) =~= right@);
    }
}


/// Compute a power of two.
pub fn pow2_usize(k: usize) -> (r: usize)
    requires
        pow2(k as nat) <= usize::MAX,
    ensures
        r as nat == pow2(k as nat),
{
    proof {
        lemma2_to64();
    }
    let mut r: usize = 1;
    let mut i: usize = 0;
    while i < k
        invariant
            i <= k,
            r as nat == pow2(i as nat),
            pow2(k as nat) <= usize::MAX,
        decreases k - i,
    {
        proof {
            lemma_pow2_unfold((i + 1) as nat);
            if i + 1 < k {
                lemma_pow2_strictly_increases((i + 1) as nat, k as nat);
            }
        }
        r = r * 2;
        i += 1;
    }
    r
}

/// Bit `k` of a row index.
pub open spec fn nth_bit(ci: int, k: nat) -> bool {
    (ci / pow2(k) as int) % 2 == 1
}

/// The row index an assignment selects for a sequence of variables: bit
/// `i` of the result is set exactly when variable `i` is true.
pub open spec fn combination_of(
    vars: Seq<CharacterInWindow>,
    a: spec_fn(CharacterInWindow) -> bool,
) -> int
    decreases vars.len(),
{
    if vars.len() == 0 {
        0
    } else {
        (if a(vars[0]) {
            1int
        } else {
            0int
        }) + 2 * combination_of(vars.drop_first(), a)
    }
}

/// The assignment a row index denotes for a sequence of variables.
pub open spec fn row_assignment(vars: Seq<CharacterInWindow>, ci: int) -> spec_fn(
    CharacterInWindow,
) -> bool {
    |v: CharacterInWindow| vars.contains(v) && nth_bit(ci, vars.index_of(v) as nat)
}

/// A row index is always in range of the table.
pub proof fn lemma_combination_bound(
    vars: Seq<CharacterInWindow>,
    a: spec_fn(CharacterInWindow) -> bool,
)
    ensures
        0 <= combination_of(vars, a) < pow2(vars.len()),
    decreases vars.len(),
{
    lemma2_to64();
    if vars.len() > 0 {
        lemma_combination_bound(vars.drop_first(), a);
        lemma_pow2_unfold(vars.len());
    }
}

/// Bit `k` of the row index an assignment selects is the value the
/// assignment gives variable `k`.
pub proof fn lemma_combination_bit(
    vars: Seq<CharacterInWindow>,
    a: spec_fn(CharacterInWindow) -> bool,
    k: int,
)
    requires
        0 <= k < vars.len(),
    ensures
        nth_bit(combination_of(vars, a), k as nat) == a(vars[k]),
    decreases vars.len(),
{
    lemma2_to64();
    let c = combination_of(vars, a);
    let b: int = if a(vars[0]) {
        1
    } else {
        0
    };
    let c2 = combination_of(vars.drop_first(), a);
    lemma_combination_bound(vars.drop_first(), a);
    assert(c == b + 2 * c2);
    if k == 0 {
        assert(c / pow2(0) as int == c);
        assert((2 * c2 + b) % 2 == b % 2) by {
            vstd::arithmetic::div_mod::lemma_mod_multiples_vanish(c2, b, 2);
        }
        assert(b % 2 == b) by {
            vstd::arithmetic::div_mod::lemma_small_mod(b as nat, 2);
        }
    } else {
        lemma_pow2_unfold(k as nat);
        lemma_pow2_pos((k - 1) as nat);
        assert(c / 2 == c2) by {
            vstd::arithmetic::div_mod::lemma_div_multiples_vanish_fancy(c2, b, 2);
        }
        assert((c / 2) / pow2((k - 1) as nat) as int == c / (2 * pow2((k - 1) as nat) as int)) by {
            vstd::arithmetic::div_mod::lemma_div_denominator(
                c,
                2,
                pow2((k - 1) as nat) as int,
            );
        }
        lemma_combination_bit(vars.drop_first(), a, k - 1);
        assert(vars.drop_first()[k - 1] == vars[k]);
    }
}

/// Appending a variable to the sequence adds its bit above all others.
pub proof fn lemma_combination_push(
    s: Seq<CharacterInWindow>,
    v: CharacterInWindow,
    a: spec_fn(CharacterInWindow) -> bool,
)
    ensures
        combination_of(s.push(v), a) == combination_of(s, a) + (if a(v) {
            pow2(s.len()) as int
        } else {
            0
        }),
    decreases s.len(),
{
    lemma2_to64();
    if s.len() == 0 {
        assert(s.push(v)[0] == v);
        assert(s.push(v).drop_first() =~= Seq::<CharacterInWindow>::empty());
        assert(combination_of(s.push(v), a) == (if a(v) {
            1int
        } else {
            0int
        }) + 2 * combination_of(Seq::<CharacterInWindow>::empty(), a));
        assert(combination_of(Seq::<CharacterInWindow>::empty(), a) == 0);
        assert(combination_of(s, a) == 0);
    } else {
        assert(s.push(v)[0] == s[0]);
        assert(s.push(v).drop_first() =~= s.drop_first().push(v));
        assert(combination_of(s.push(v), a) == (if a(s[0]) {
            1int
        } else {
            0int
        }) + 2 * combination_of(s.drop_first().push(v), a));
        lemma_combination_push(s.drop_first(), v, a);
        lemma_pow2_unfold(s.len());
        assert(combination_of(s, a) == (if a(s[0]) {
            1int
        } else {
            0int
        }) + 2 * combination_of(s.drop_first(), a));
    }
}

/// The synthetic context used while a table is being built: variable `i`
/// of the sorted variable sequence is true exactly when bit `i` of the
/// row index is set.
struct TruthTableContext {
    variables: Vec<CharacterInWindow>,
    combination_index: usize,
}

impl EvaluateVariableIn<TruthTableContext> for CharacterInWindow {
    /// Evaluation is defined for the variables of the table.
    closed spec fn can_evaluate_variable_in(&self, context: &TruthTableContext) -> bool {
        &&& context.variables@.no_duplicates()
        &&& context.variables@.contains(*self)
        &&& pow2(context.variables@.len()) <= usize::MAX
    }

    closed spec fn spec_evaluate_variable_in(&self, context: &TruthTableContext) -> bool {
        nth_bit(
            context.combination_index as int,
            context.variables@.index_of(*self) as nat,
        )
    }

    fn evaluate_variable_in(&self, context: &TruthTableContext) -> (r: bool) {
        let n = context.variables.len();
        let mut p: usize = 0;
        while p < n
            invariant
                p <= n,
                n == context.variables@.len(),
                context.variables@.no_duplicates(),
                context.variables@.contains(*self),
                pow2(n as nat) <= usize::MAX,
                forall|j: int| 0 <= j < p ==> context.variables@[j] != *self,
            decreases n - p,
        {
            if context.variables[p] == *self {
                proof {
                    let k = context.variables@.index_of(*self);
                    assert(0 <= k < context.variables@.len() && context.variables@[k] == *self);
                    assert(k == p as int);
                    if p < n {
                        lemma_pow2_strictly_increases(p as nat, n as nat);
                    }
                    lemma_pow2_pos(p as nat);
                }
                let divisor = pow2_usize(p);
                return (context.combination_index / divisor) % 2 == 1;
            }
            p += 1;
        }
        proof {
            assert(false);
        }
        false
    }
}

/// The canonical fingerprint of a term: its sorted free variables and its
/// value under every assignment of them, indexed by bitmask.
#[derive(Debug)]
pub struct TruthTable {
    variables: Vec<CharacterInWindow>,
    results: Vec<bool>,
}

impl TruthTable {
    /// The table's variables, in ascending order.
    pub closed spec fn spec_variables(self) -> Seq<CharacterInWindow> {
        self.variables@
    }

    /// The table's rows: entry `ci` is the term's value under the
    /// assignment that row index denotes.
    pub closed spec fn spec_results(self) -> Seq<bool> {
        self.results@
    }

    /// Well-formed: variables sorted (hence canonical) and one row per
    /// assignment.
    pub open spec fn wf(self) -> bool {
        &&& strictly_sorted(self.spec_variables())
        &&& self.spec_results().len() == pow2(self.spec_variables().len())
    }

    /// How many variables the table ranges over.
    pub fn variable_count(&self) -> (n: usize)
        ensures
            n == self.spec_variables().len(),
    {
        self.variables.len()
    }

    /// The variable at a position of the sorted order.
    pub fn variable_at(&self, i: usize) -> (v: CharacterInWindow)
        requires
            i < self.spec_variables().len(),
        ensures
            v == self.spec_variables()[i as int],
    {
        self.variables[i]
    }

    /// How many rows the table has.
    pub fn row_count(&self) -> (n: usize)
        ensures
            n == self.spec_results().len(),
    {
        self.results.len()
    }

    /// The value of one row.
    pub fn result_at(&self, ci: usize) -> (b: bool)
        requires
            ci < self.spec_results().len(),
        ensures
            b == self.spec_results()[ci as int],
    {
        self.results[ci]
    }
}

/// What it is to be the truth table of a term: the variable sequence holds
/// exactly the term's free variables, sorted; and each row holds the
/// term's value under the assignment that the row index denotes.
pub open spec fn is_table_for(repo: RcRepository, t: Term, table: TruthTable) -> bool {
    &&& table.wf()
    &&& table.spec_variables().to_set() == repo.term_vars(t)
    &&& forall|ci: int|
        0 <= ci < table.spec_results().len() ==> #[trigger] table.spec_results()[ci] == repo.sem(
            t,
            row_assignment(table.spec_variables(), ci),
        )
}

impl Term {
    /// Build the truth table of this term: collect its free variables in
    /// sorted order, then evaluate the term under each of the `2^k`
    /// assignments, row by row. Semantically equivalent terms over the
    /// same variables receive equal tables, however they are written.
    pub fn compute_truth_table(&self, repo: &RcRepository) -> (table: TruthTable)
        requires
            repo.wf(),
            repo.valid_term(*self),
            pow2(repo.term_vars(*self).len()) <= usize::MAX,
        ensures
            is_table_for(*repo, *self, table),
    {
        let vars = self.get_variables(repo);
        proof {
            lemma_strictly_sorted_no_duplicates(vars@);
            vars@.unique_seq_to_set();
        }
        let combinations = pow2_usize(vars.len());
        let ghost gvars = vars@;
        let mut ctx = TruthTableContext { variables: vars, combination_index: 0 };
        let mut results: Vec<bool> = Vec::new();
        let mut ci: usize = 0;
        while ci < combinations
            invariant
                repo.wf(),
                repo.valid_term(*self),
                pow2(repo.term_vars(*self).len()) <= usize::MAX,
                ctx.variables@ == gvars,
                strictly_sorted(gvars),
                gvars.no_duplicates(),
                gvars.to_set() == repo.term_vars(*self),
                combinations as nat == pow2(gvars.len()),
                results@.len() == ci,
                ci <= combinations,
                forall|k: int|
                    0 <= k < ci ==> #[trigger] results@[k] == repo.sem(
                        *self,
                        row_assignment(gvars, k),
                    ),
            decreases combinations - ci,
        {
            ctx.combination_index = ci;
            proof {
                assert forall|v: CharacterInWindow|
                    repo.term_vars(*self).contains(v) implies #[trigger] v.can_evaluate_variable_in(
                    &ctx,
                ) by {
                    assert(gvars.contains(v));
                }
            }
            let b = self.evaluate_in(repo, &ctx);
            proof {
                let a1 = context_assignment(ctx);
                let a2 = row_assignment(gvars, ci as int);
                assert forall|v: CharacterInWindow|
                    repo.term_vars(*self).contains(v) implies #[trigger] a1(v) == #[trigger] a2(
                    v,
                ) by {
                    assert(gvars.contains(v));
                    assert(a1(v) == v.spec_evaluate_variable_in(&ctx));
                    assert(a1(v) == nth_bit(ci as int, gvars.index_of(v) as nat));
                    assert(a2(v) == (gvars.contains(v) && nth_bit(
                        ci as int,
                        gvars.index_of(v) as nat,
                    )));
                }
                repo.lemma_term_sem_agrees(*self, a1, a2);
                assert(b == repo.sem(*self, row_assignment(gvars, ci as int)));
            }
            results.push(b);
            ci += 1;
        }
        let table = TruthTable { variables: ctx.variables, results };
        proof {
            assert(table.spec_variables() == gvars);
            assert(table.wf());
            assert(table.spec_variables().to_set() == repo.term_vars(*self));
        }
        table
    }
}


impl<Context> EvaluateIn<Context> for TruthTable where CharacterInWindow: EvaluateVariableIn<
    Context,
> {
    /// Evaluation is defined when the table is well formed and each of its
    /// variables can be evaluated in the context.
    open spec fn can_evaluate_in(&self, context: &Context) -> bool {
        &&& self.wf()
        &&& forall|v: CharacterInWindow|
            self.spec_variables().contains(v) ==> #[trigger] v.can_evaluate_variable_in(context)
    }

    /// The row selected by the assignment the context induces.
    open spec fn spec_evaluate_in(&self, context: &Context) -> bool {
        self.spec_results()[combination_of(self.spec_variables(), context_assignment(*context))]
    }

    /// Ask the context for each variable's value, fold the answers into a
    /// row index, and look that row up.
    fn evaluate_in(&self, context: &Context) -> (r: bool) {
        let rows = self.results.len();
        let n = self.variables.len();
        let mut ci: usize = 0;
        let mut bit: usize = 1;
        let mut p: usize = 0;
        proof {
            lemma2_to64();
            assert(self.spec_variables().take(0) =~= Seq::<CharacterInWindow>::empty());
        }
        while p < n
            invariant
                p <= n,
                n == self.spec_variables().len(),
                rows == self.spec_results().len(),
                self.wf(),
                forall|v: CharacterInWindow|
                    self.spec_variables().contains(v) ==> #[trigger] v.can_evaluate_variable_in(
                        context,
                    ),
                bit as nat == pow2(p as nat),
                ci as int == combination_of(
                    self.spec_variables().take(p as int),
                    context_assignment(*context),
                ),
                (ci as nat) < pow2(p as nat),
            decreases n - p,
        {
            let v = self.variables[p];
            proof {
                assert(self.spec_variables().contains(v)) by {
                    assert(self.spec_variables()[p as int] == v);
                }
                lemma_pow2_unfold((p + 1) as nat);
                if p + 1 < n {
                    lemma_pow2_strictly_increases((p + 1) as nat, n as nat);
                }
            }
            let value = v.evaluate_variable_in(context);
            proof {
                lemma_combination_push(
                    self.spec_variables().take(p as int),
                    v,
                    context_assignment(*context),
                );
                assert(self.spec_variables().take(p as int + 1) =~= self.spec_variables().take(
                    p as int,
                ).push(v));
                assert((context_assignment(*context))(v) == v.spec_evaluate_variable_in(context));
            }
            if value {
                ci = ci + bit;
            }
            bit = bit * 2;
            p += 1;
        }
        proof {
            assert(self.spec_variables().take(n as int) =~= self.spec_variables());
        }
        self.results[ci]
    }
}

/// Looking a context up in a term's truth table returns exactly what
/// evaluating the term in that context returns: the table is a faithful
/// summary of the term's semantics.
pub proof fn lemma_table_agrees_with_term<Context>(
    repo: RcRepository,
    t: Term,
    table: TruthTable,
    context: &Context,
) where CharacterInWindow: EvaluateVariableIn<Context>
    requires
        repo.wf(),
        repo.valid_term(t),
        is_table_for(repo, t, table),
    ensures
        table.spec_evaluate_in(context) == repo.sem(t, context_assignment(*context)),
{
    let a = context_assignment(*context);
    let vars = table.spec_variables();
    let ci = combination_of(vars, a);
    lemma_combination_bound(vars, a);
    assert(table.spec_results()[ci] == repo.sem(t, row_assignment(vars, ci)));
    let a2 = row_assignment(vars, ci);
    assert forall|v: CharacterInWindow|
        repo.term_vars(t).contains(v) implies #[trigger] a(v) == #[trigger] a2(v) by {
        assert(vars.to_set().contains(v));
        assert(vars.contains(v));
        let k = vars.index_of(v);
        assert(0 <= k < vars.len() && vars[k] == v);
        lemma_combination_bit(vars, a, k);
        assert(a2(v) == (vars.contains(v) && nth_bit(ci, k as nat)));
    }
    repo.lemma_term_sem_agrees(t, a, a2);
}

/// Semantically equivalent terms over the same variables have equal truth
/// tables, however differently they are written: the table is a canonical
/// form.
pub proof fn lemma_truth_table_canonical(
    repo: RcRepository,
    t1: Term,
    t2: Term,
    tab1: TruthTable,
    tab2: TruthTable,
)
    requires
        repo.wf(),
        repo.valid_term(t1),
        repo.valid_term(t2),
        is_table_for(repo, t1, tab1),
        is_table_for(repo, t2, tab2),
        repo.term_vars(t1) == repo.term_vars(t2),
        forall|a: spec_fn(CharacterInWindow) -> bool| #[trigger]
            repo.sem(t1, a) == repo.sem(t2, a),
    ensures
        tab1.spec_variables() == tab2.spec_variables(),
        tab1.spec_results() == tab2.spec_results(),
{
    lemma_strictly_sorted_unique(tab1.spec_variables(), tab2.spec_variables());
    assert(tab1.spec_results().len() == tab2.spec_results().len());
    assert forall|ci: int|
        0 <= ci < tab1.spec_results().len() implies tab1.spec_results()[ci]
        == tab2.spec_results()[ci] by {
        assert(tab1.spec_results()[ci] == repo.sem(t1, row_assignment(tab1.spec_variables(), ci)));
        assert(tab2.spec_results()[ci] == repo.sem(t2, row_assignment(tab2.spec_variables(), ci)));
    }
    assert(tab1.spec_results() =~= tab2.spec_results());
}

/// The table of `and(x, x)` equals the table of `x`.
pub proof fn lemma_table_and_idempotent(
    repo: RcRepository,
    x: Term,
    t: Term,
    tab_t: TruthTable,
    tab_x: TruthTable,
)
    requires
        repo.wf(),
        repo.valid_term(x),
        repo.valid_term(t),
        repo.term_node(t) == Node::And(x, x),
        is_table_for(repo, t, tab_t),
        is_table_for(repo, x, tab_x),
    ensures
        tab_t.spec_variables() == tab_x.spec_variables(),
        tab_t.spec_results() == tab_x.spec_results(),
{
    assert(repo.term_vars(t) =~= repo.term_vars(x)) by {
        assert(repo.vars_at(t.spec_id() as int) == repo.vars_at(x.spec_id() as int).union(
            repo.vars_at(x.spec_id() as int),
        ));
    }
    assert forall|a: spec_fn(CharacterInWindow) -> bool| #[trigger]
        repo.sem(t, a) == repo.sem(x, a) by {
        assert(repo.sem_at(t.spec_id() as int, a) == (repo.sem_at(x.spec_id() as int, a)
            && repo.sem_at(x.spec_id() as int, a)));
    }
    lemma_truth_table_canonical(repo, t, x, tab_t, tab_x);
}

/// The table of `or(x, x)` equals the table of `x`.
pub proof fn lemma_table_or_idempotent(
    repo: RcRepository,
    x: Term,
    t: Term,
    tab_t: TruthTable,
    tab_x: TruthTable,
)
    requires
        repo.wf(),
        repo.valid_term(x),
        repo.valid_term(t),
        repo.term_node(t) == Node::Or(x, x),
        is_table_for(repo, t, tab_t),
        is_table_for(repo, x, tab_x),
    ensures
        tab_t.spec_variables() == tab_x.spec_variables(),
        tab_t.spec_results() == tab_x.spec_results(),
{
    assert(repo.term_vars(t) =~= repo.term_vars(x)) by {
        assert(repo.vars_at(t.spec_id() as int) == repo.vars_at(x.spec_id() as int).union(
            repo.vars_at(x.spec_id() as int),
        ));
    }
    assert forall|a: spec_fn(CharacterInWindow) -> bool| #[trigger]
        repo.sem(t, a) == repo.sem(x, a) by {
        assert(repo.sem_at(t.spec_id() as int, a) == (repo.sem_at(x.spec_id() as int, a)
            || repo.sem_at(x.spec_id() as int, a)));
    }
    lemma_truth_table_canonical(repo, t, x, tab_t, tab_x);
}

/// The table of `not(not(x))` equals the table of `x`.
pub proof fn lemma_table_double_negation(
    repo: RcRepository,
    x: Term,
    nx: Term,
    t: Term,
    tab_t: TruthTable,
    tab_x: TruthTable,
)
    requires
        repo.wf(),
        repo.valid_term(x),
        repo.valid_term(nx),
        repo.valid_term(t),
        repo.term_node(nx) == Node::Not(x),
        repo.term_node(t) == Node::Not(nx),
        is_table_for(repo, t, tab_t),
        is_table_for(repo, x, tab_x),
    ensures
        tab_t.spec_variables() == tab_x.spec_variables(),
        tab_t.spec_results() == tab_x.spec_results(),
{
    assert(repo.term_vars(t) == repo.term_vars(x)) by {
        assert(repo.vars_at(t.spec_id() as int) == repo.vars_at(nx.spec_id() as int));
        assert(repo.vars_at(nx.spec_id() as int) == repo.vars_at(x.spec_id() as int));
    }
    assert forall|a: spec_fn(CharacterInWindow) -> bool| #[trigger]
        repo.sem(t, a) == repo.sem(x, a) by {
        assert(repo.sem_at(t.spec_id() as int, a) == !repo.sem_at(nx.spec_id() as int, a));
        assert(repo.sem_at(nx.spec_id() as int, a) == !repo.sem_at(x.spec_id() as int, a));
    }
    lemma_truth_table_canonical(repo, t, x, tab_t, tab_x);
}

/// The tables of `and(x, y)` and `and(y, x)` are equal.
pub proof fn lemma_table_and_commutative(
    repo: RcRepository,
    x: Term,
    y: Term,
    t1: Term,
    t2: Term,
    tab1: TruthTable,
    tab2: TruthTable,
)
    requires
        repo.wf(),
        repo.valid_term(x),
        repo.valid_term(y),
        repo.valid_term(t1),
        repo.valid_term(t2),
        repo.term_node(t1) == Node::And(x, y),
        repo.term_node(t2) == Node::And(y, x),
        is_table_for(repo, t1, tab1),
        is_table_for(repo, t2, tab2),
    ensures
        tab1.spec_variables() == tab2.spec_variables(),
        tab1.spec_results() == tab2.spec_results(),
{
    assert(repo.term_vars(t1) =~= repo.term_vars(t2)) by {
        assert(repo.vars_at(t1.spec_id() as int) == repo.vars_at(x.spec_id() as int).union(
            repo.vars_at(y.spec_id() as int),
        ));
        assert(repo.vars_at(t2.spec_id() as int) == repo.vars_at(y.spec_id() as int).union(
            repo.vars_at(x.spec_id() as int),
        ));
    }
    assert forall|a: spec_fn(CharacterInWindow) -> bool| #[trigger]
        repo.sem(t1, a) == repo.sem(t2, a) by {
        assert(repo.sem_at(t1.spec_id() as int, a) == (repo.sem_at(x.spec_id() as int, a)
            && repo.sem_at(y.spec_id() as int, a)));
        assert(repo.sem_at(t2.spec_id() as int, a) == (repo.sem_at(y.spec_id() as int, a)
            && repo.sem_at(x.spec_id() as int, a)));
    }
    lemma_truth_table_canonical(repo, t1, t2, tab1, tab2);
}

/// The tables of `or(x, y)` and `or(y, x)` are equal.
pub proof fn lemma_table_or_commutative(
    repo: RcRepository,
    x: Term,
    y: Term,
    t1: Term,
    t2: Term,
    tab1: TruthTable,
    tab2: TruthTable,
)
    requires
        repo.wf(),
        repo.valid_term(x),
        repo.valid_term(y),
        repo.valid_term(t1),
        repo.valid_term(t2),
        repo.term_node(t1) == Node::Or(x, y),
        repo.term_node(t2) == Node::Or(y, x),
        is_table_for(repo, t1, tab1),
        is_table_for(repo, t2, tab2),
    ensures
        tab1.spec_variables() == tab2.spec_variables(),
        tab1.spec_results() == tab2.spec_results(),
{
    assert(repo.term_vars(t1) =~= repo.term_vars(t2)) by {
        assert(repo.vars_at(t1.spec_id() as int) == repo.vars_at(x.spec_id() as int).union(
            repo.vars_at(y.spec_id() as int),
        ));
        assert(repo.vars_at(t2.spec_id() as int) == repo.vars_at(y.spec_id() as int).union(
            repo.vars_at(x.spec_id() as int),
        ));
    }
    assert forall|a: spec_fn(CharacterInWindow) -> bool| #[trigger]
        repo.sem(t1, a) == repo.sem(t2, a) by {
        assert(repo.sem_at(t1.spec_id() as int, a) == (repo.sem_at(x.spec_id() as int, a)
            || repo.sem_at(y.spec_id() as int, a)));
        assert(repo.sem_at(t2.spec_id() as int, a) == (repo.sem_at(y.spec_id() as int, a)
            || repo.sem_at(x.spec_id() as int, a)));
    }
    lemma_truth_table_canonical(repo, t1, t2, tab1, tab2);
}

impl PartialEq for TruthTable {
    /// Truth tables are compared by value: same sorted variables, same
    /// rows.
    fn eq(&self, other: &Self) -> (r: bool) {
        if self.variables.len() != other.variables.len() || self.results.len()
            != other.results.len() {
            return false;
        }
        let mut i: usize = 0;
        while i < self.variables.len()
            invariant
                i <= self.variables@.len(),
                self.variables@.len() == other.variables@.len(),
                self.results@.len() == other.results@.len(),
                forall|j: int| 0 <= j < i ==> self.variables@[j] == other.variables@[j],
            decreases self.variables@.len() - i,
        {
            if self.variables[i] != other.variables[i] {
                return false;
            }
            i += 1;
        }
        proof {
            assert(self.variables@ =~= other.variables@);
        }
        let mut k: usize = 0;
        while k < self.results.len()
            invariant
                k <= self.results@.len(),
                self.variables@ == other.variables@,
                self.results@.len() == other.results@.len(),
                forall|j: int| 0 <= j < k ==> self.results@[j] == other.results@[j],
            decreases self.results@.len() - k,
        {
            if self.results[k] != other.results[k] {
                return false;
            }
            k += 1;
        }
        proof {
            assert(self.results@ =~= other.results@);
        }
        true
    }
}

impl vstd::std_specs::cmp::PartialEqSpecImpl for TruthTable {
    open spec fn obeys_eq_spec() -> bool {
        true
    }

    open spec fn eq_spec(&self, other: &Self) -> bool {
        self.spec_variables() == other.spec_variables() && self.spec_results()
            == other.spec_results()
    }
}

} // verus!
