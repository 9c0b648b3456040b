//! The level generator: the next complexity tier of a term set.
//!
//! From an existing set of terms, one round of synthesis interns the
//! negation of every term and the conjunction and disjunction of every
//! ordered pair. Construction goes through the repository, so results that
//! are structurally equal collapse to one canonical handle and the output
//! stays duplicate-free; its size is bounded by `n + 2 n^2`.

use vstd::prelude::*;

use crate::repository::{Node, RcRepository, Term};

verus! {

/// Whether some term of `terms` refers to the node `n` in `repo`.
pub open spec fn has_node(repo: RcRepository, terms: Seq<Term>, n: Node) -> bool {
    exists|k: int| 0 <= k < terms.len() && repo.term_node(#[trigger] terms[k]) == n
}

/// Whether `n` is one synthesis step over the terms of `existing`.
pub open spec fn is_level_node(n: Node, existing: Seq<Term>) -> bool {
    match n {
        Node::Var(_) => false,
        Node::Not(x) => existing.contains(x),
        Node::And(x, y) => existing.contains(x) && existing.contains(y),
        Node::Or(x, y) => existing.contains(x) && existing.contains(y),
    }
}

/// `has_node` facts survive growing the repository and the term list.
proof fn lemma_has_node_monotone(
    pre_repo: RcRepository,
    post_repo: RcRepository,
    pre_terms: Seq<Term>,
    post_terms: Seq<Term>,
    n: Node,
)
    requires
        post_repo.extends(pre_repo),
        pre_terms.is_prefix_of(post_terms),
        forall|k: int| 0 <= k < pre_terms.len() ==> pre_repo.valid_term(#[trigger] pre_terms[k]),
        has_node(pre_repo, pre_terms, n),
    ensures
        has_node(post_repo, post_terms, n),
{
    let k = choose|k: int| 0 <= k < pre_terms.len() && pre_repo.term_node(pre_terms[k]) == n;
    assert(post_terms[k] == pre_terms[k]);
    assert(post_repo.spec_nodes()[pre_terms[k].spec_id() as int] == pre_repo.spec_nodes()[
        pre_terms[k].spec_id() as int
    ]);
    assert(post_repo.term_node(post_terms[k]) == n);
}

/// Append a term unless an equal handle is already present.
fn push_unique(terms: &mut Vec<Term>, t: Term)
    requires
        old(terms)@.no_duplicates(),
    ensures
        final(terms)@.no_duplicates(),
        old(terms)@.is_prefix_of(final(terms)@),
        final(terms)@.contains(t),
        final(terms)@.len() <= old(terms)@.len() + 1,
        forall|x: Term| final(terms)@.contains(x) <==> (old(terms)@.contains(x) || x == t),
{
    let mut i: usize = 0;
    while i < terms.len()
        invariant
            i <= terms@.len(),
            terms@ == old(terms)@,
            terms@.no_duplicates(),
            forall|j: int| 0 <= j < i ==> terms@[j] != t,
        decreases terms@.len() - i,
    {
        if terms[i] == t {
            proof {
                assert(terms@.contains(t)) by {
                    assert(terms@[i as int] == t);
                }
                assert(terms@.is_prefix_of(terms@));
            }
            return;
        }
        i += 1;
    }
    let ghost pre = terms@;
    terms.push(t);
    proof {
        let post = terms@;
        assert(post == pre.push(t));
        assert(forall|j: int| 0 <= j < pre.len() ==> post[j] == pre[j]);
        assert(post[pre.len() as int] == t);
        assert forall|j: int, k: int|
            0 <= j < post.len() && 0 <= k < post.len() && j != k implies post[j] != post[k] by {
            if j < pre.len() && k < pre.len() {
                assert(pre[j] != pre[k]);
            }
        }
        assert(pre.is_prefix_of(post)) by {
            assert(pre =~= post.subrange(0, pre.len() as int));
        }
        assert forall|x: Term| post.contains(x) implies (pre.contains(x) || x == t) by {
            let k = choose|k: int| 0 <= k < post.len() && post[k] == x;
            if k < pre.len() {
                assert(pre[k] == x);
            }
        }
        assert forall|x: Term| (pre.contains(x) || x == t) implies post.contains(x) by {
            if x == t {
                assert(post[pre.len() as int] == x);
            } else {
                let k = choose|k: int| 0 <= k < pre.len() && pre[k] == x;
                assert(post[k] == x);
            }
        }
    }
}

/// Synthesize the next complexity tier: the negation of every existing
/// term, and the conjunction and disjunction of every ordered pair of
/// existing terms. The repository collapses structurally equal results to
/// their canonical handle, so the returned list is duplicate-free and at
/// most `n + 2 n^2` long, and at most that many nodes are newly interned.
///
/// Growth is combinatorial in the number of rounds; the generator does
/// not limit itself, so callers must keep the number of levels small.
#[verifier::rlimit(100)]
pub fn create_new_level_terms(repo: &mut RcRepository, existing_terms: &Vec<Term>) -> (new_terms:
    Vec<Term>)
    requires
        old(repo).wf(),
        forall|k: int|
            0 <= k < existing_terms@.len() ==> old(repo).valid_term(#[trigger] existing_terms@[k]),
    ensures
        final(repo).wf(),
        final(repo).extends(*old(repo)),
        new_terms@.no_duplicates(),
        forall|k: int|
            0 <= k < new_terms@.len() ==> final(repo).valid_term(#[trigger] new_terms@[k]),
        forall|k: int|
            0 <= k < new_terms@.len() ==> is_level_node(
                final(repo).term_node(#[trigger] new_terms@[k]),
                existing_terms@,
            ),
        forall|i: int|
            0 <= i < existing_terms@.len() ==> has_node(
                *final(repo),
                new_terms@,
                Node::Not(#[trigger] existing_terms@[i]),
            ),
        forall|i: int, j: int|
            0 <= i < existing_terms@.len() && 0 <= j < existing_terms@.len() ==> has_node(
                *final(repo),
                new_terms@,
                Node::And(#[trigger] existing_terms@[i], #[trigger] existing_terms@[j]),
            ) && has_node(
                *final(repo),
                new_terms@,
                Node::Or(existing_terms@[i], existing_terms@[j]),
            ),
        new_terms@.len() <= existing_terms@.len() + 2 * existing_terms@.len()
            * existing_terms@.len(),
        final(repo).term_count() <= old(repo).term_count() + existing_terms@.len() + 2
            * existing_terms@.len() * existing_terms@.len(),
{
    let ghost ex = existing_terms@;
    let ghost n = existing_terms@.len() as int;
    let mut new_terms: Vec<Term> = Vec::new();
    let n_exec = existing_terms.len();
    let mut i: usize = 0;
    while i < n_exec
        invariant
            n_exec == ex.len(),
            ex == existing_terms@,
            n == ex.len() as int,
            i <= n_exec,
            repo.wf(),
            repo.extends(*old(repo)),
            forall|k: int| 0 <= k < ex.len() ==> repo.valid_term(#[trigger] ex[k]),
            new_terms@.no_duplicates(),
            forall|k: int| 0 <= k < new_terms@.len() ==> repo.valid_term(#[trigger] new_terms@[k]),
            forall|k: int|
                0 <= k < new_terms@.len() ==> is_level_node(
                    repo.term_node(#[trigger] new_terms@[k]),
                    ex,
                ),
            forall|i0: int|
                0 <= i0 < i ==> has_node(*repo, new_terms@, Node::Not(#[trigger] ex[i0])),
            forall|i0: int, j0: int|
                0 <= i0 < i && 0 <= j0 < ex.len() ==> has_node(
                    *repo,
                    new_terms@,
                    Node::And(#[trigger] ex[i0], #[trigger] ex[j0]),
                ) && has_node(*repo, new_terms@, Node::Or(ex[i0], ex[j0])),
            new_terms@.len() <= i * (1 + 2 * n),
            repo.term_count() <= old(repo).term_count() + i * (1 + 2 * n),
        decreases n_exec - i,
    {
        let left = existing_terms[i];
        let ghost repo_i = *repo;
        let ghost terms_i = new_terms@;
        let not_left = repo.not(left);
        push_unique(&mut new_terms, not_left);
        proof {
            RcRepository::lemma_extends_transitive(*repo, repo_i, *old(repo));
            assert(ex.contains(left)) by {
                assert(ex[i as int] == left);
            }
            lemma_level_push_step(
                repo_i,
                *repo,
                terms_i,
                new_terms@,
                ex,
                not_left,
                Node::Not(left),
            );
            lemma_level_step(repo_i, *repo, terms_i, new_terms@, ex, i as int, i as int, 0);
            assert(has_node(*repo, new_terms@, Node::Not(ex[i as int]))) by {
                assert(new_terms@.contains(not_left));
                let k = choose|k: int| 0 <= k < new_terms@.len() && new_terms@[k] == not_left;
                assert(repo.term_node(new_terms@[k]) == Node::Not(left));
            }
        }
        let mut j: usize = 0;
        while j < n_exec
            invariant
                n_exec == ex.len(),
                ex == existing_terms@,
                n == ex.len() as int,
                i < n_exec,
                j <= n_exec,
                repo.wf(),
                repo.extends(*old(repo)),
                left == ex[i as int],
                forall|k: int| 0 <= k < ex.len() ==> repo.valid_term(#[trigger] ex[k]),
                new_terms@.no_duplicates(),
                forall|k: int|
                    0 <= k < new_terms@.len() ==> repo.valid_term(#[trigger] new_terms@[k]),
                forall|k: int|
                    0 <= k < new_terms@.len() ==> is_level_node(
                        repo.term_node(#[trigger] new_terms@[k]),
                        ex,
                    ),
                forall|i0: int|
                    0 <= i0 <= i ==> has_node(*repo, new_terms@, Node::Not(#[trigger] ex[i0])),
                forall|i0: int, j0: int|
                    0 <= i0 < i && 0 <= j0 < ex.len() ==> has_node(
                        *repo,
                        new_terms@,
                        Node::And(#[trigger] ex[i0], #[trigger] ex[j0]),
                    ) && has_node(*repo, new_terms@, Node::Or(ex[i0], ex[j0])),
                forall|j0: int|
                    0 <= j0 < j ==> has_node(
                        *repo,
                        new_terms@,
                        Node::And(ex[i as int], #[trigger] ex[j0]),
                    ) && has_node(*repo, new_terms@, Node::Or(ex[i as int], ex[j0])),
                new_terms@.len() <= i * (1 + 2 * n) + 1 + 2 * j,
                repo.term_count() <= old(repo).term_count() + i * (1 + 2 * n) + 1 + 2 * j,
            decreases n_exec - j,
        {
            let right = existing_terms[j];
            let ghost repo_j = *repo;
            let ghost terms_j = new_terms@;
            let and_term = repo.and(left, right);
            push_unique(&mut new_terms, and_term);
            proof {
                RcRepository::lemma_extends_transitive(*repo, repo_j, *old(repo));
                assert(ex.contains(left)) by {
                    assert(ex[i as int] == left);
                }
                assert(ex.contains(right)) by {
                    assert(ex[j as int] == right);
                }
                lemma_level_push_step(
                    repo_j,
                    *repo,
                    terms_j,
                    new_terms@,
                    ex,
                    and_term,
                    Node::And(left, right),
                );
                lemma_level_step(
                    repo_j,
                    *repo,
                    terms_j,
                    new_terms@,
                    ex,
                    i as int,
                    i as int + 1,
                    j as int,
                );
            }
            let ghost repo_j2 = *repo;
            let ghost terms_j2 = new_terms@;
            let or_term = repo.or(left, right);
            push_unique(&mut new_terms, or_term);
            proof {
                RcRepository::lemma_extends_transitive(*repo, repo_j2, *old(repo));
                assert(ex.contains(left)) by {
                    assert(ex[i as int] == left);
                }
                assert(ex.contains(right)) by {
                    assert(ex[j as int] == right);
                }
                lemma_level_push_step(
                    repo_j2,
                    *repo,
                    terms_j2,
                    new_terms@,
                    ex,
                    or_term,
                    Node::Or(left, right),
                );
                lemma_level_step(
                    repo_j2,
                    *repo,
                    terms_j2,
                    new_terms@,
                    ex,
                    i as int,
                    i as int + 1,
                    j as int,
                );
                assert(has_node(*repo, new_terms@, Node::And(ex[i as int], ex[j as int]))) by {
                    assert(terms_j2.contains(and_term));
                    assert(new_terms@.contains(and_term));
                    assert(repo_j2.term_node(and_term) == Node::And(left, right));
                    assert(repo.spec_nodes()[and_term.spec_id() as int] == repo_j2.spec_nodes()[
                        and_term.spec_id() as int
                    ]);
                    let k = choose|k: int|
                        0 <= k < new_terms@.len() && new_terms@[k] == and_term;
                    assert(repo.term_node(new_terms@[k]) == Node::And(left, right));
                }
                assert(has_node(*repo, new_terms@, Node::Or(ex[i as int], ex[j as int]))) by {
                    assert(new_terms@.contains(or_term));
                    assert(repo.term_node(or_term) == Node::Or(left, right));
                    let k = choose|k: int| 0 <= k < new_terms@.len() && new_terms@[k] == or_term;
                    assert(repo.term_node(new_terms@[k]) == Node::Or(left, right));
                }
            }
            j += 1;
        }
        proof {
            assert(i * (1 + 2 * n) + 1 + 2 * n == (i + 1) * (1 + 2 * n)) by (nonlinear_arith);
        }
        i += 1;
    }
    proof {
        assert(n * (1 + 2 * n) == n + 2 * n * n) by (nonlinear_arith);
    }
    new_terms
}

/// A pushed synthesis result keeps the per-element facts of the term list:
/// every element is a valid handle to a one-step node, before and after.
proof fn lemma_level_push_step(
    pre_repo: RcRepository,
    post_repo: RcRepository,
    pre_terms: Seq<Term>,
    post_terms: Seq<Term>,
    ex: Seq<Term>,
    t: Term,
    n: Node,
)
    requires
        post_repo.extends(pre_repo),
        post_repo.valid_term(t),
        post_repo.term_node(t) == n,
        is_level_node(n, ex),
        forall|x: Term| post_terms.contains(x) <==> (pre_terms.contains(x) || x == t),
        forall|k: int| 0 <= k < pre_terms.len() ==> pre_repo.valid_term(#[trigger] pre_terms[k]),
        forall|k: int|
            0 <= k < pre_terms.len() ==> is_level_node(
                pre_repo.term_node(#[trigger] pre_terms[k]),
                ex,
            ),
    ensures
        forall|k: int| 0 <= k < post_terms.len() ==> post_repo.valid_term(#[trigger] post_terms[k]),
        forall|k: int|
            0 <= k < post_terms.len() ==> is_level_node(
                post_repo.term_node(#[trigger] post_terms[k]),
                ex,
            ),
{
    assert forall|k: int|
        0 <= k < post_terms.len() implies post_repo.valid_term(#[trigger] post_terms[k])
        && is_level_node(post_repo.term_node(post_terms[k]), ex) by {
        let x = post_terms[k];
        assert(post_terms.contains(x));
        if x != t {
            assert(pre_terms.contains(x));
            let k0 = choose|k0: int| 0 <= k0 < pre_terms.len() && pre_terms[k0] == x;
            assert(pre_repo.valid_term(x));
            assert(post_repo.spec_nodes()[x.spec_id() as int] == pre_repo.spec_nodes()[x.spec_id()
                as int]);
        }
    }
}

/// One synthesis step keeps every fact of the loop invariants: facts about
/// nodes already recorded survive, because the repository and the term
/// list only grow.
proof fn lemma_level_step(
    pre_repo: RcRepository,
    post_repo: RcRepository,
    pre_terms: Seq<Term>,
    post_terms: Seq<Term>,
    ex: Seq<Term>,
    i: int,
    i_not: int,
    j: int,
)
    requires
        post_repo.extends(pre_repo),
        pre_terms.is_prefix_of(post_terms),
        forall|k: int| 0 <= k < pre_terms.len() ==> pre_repo.valid_term(#[trigger] pre_terms[k]),
        forall|i0: int|
            0 <= i0 < i_not ==> has_node(pre_repo, pre_terms, Node::Not(#[trigger] ex[i0])),
        forall|i0: int, j0: int|
            0 <= i0 < i && 0 <= j0 < ex.len() ==> has_node(
                pre_repo,
                pre_terms,
                Node::And(#[trigger] ex[i0], #[trigger] ex[j0]),
            ) && has_node(pre_repo, pre_terms, Node::Or(ex[i0], ex[j0])),
        forall|j0: int|
            0 <= j0 < j ==> has_node(pre_repo, pre_terms, Node::And(ex[i], #[trigger] ex[j0]))
                && has_node(pre_repo, pre_terms, Node::Or(ex[i], ex[j0])),
    ensures
        forall|i0: int|
            0 <= i0 < i_not ==> has_node(post_repo, post_terms, Node::Not(#[trigger] ex[i0])),
        forall|i0: int, j0: int|
            0 <= i0 < i && 0 <= j0 < ex.len() ==> has_node(
                post_repo,
                post_terms,
                Node::And(#[trigger] ex[i0], #[trigger] ex[j0]),
            ) && has_node(post_repo, post_terms, Node::Or(ex[i0], ex[j0])),
        forall|j0: int|
            0 <= j0 < j ==> has_node(post_repo, post_terms, Node::And(ex[i], #[trigger] ex[j0]))
                && has_node(post_repo, post_terms, Node::Or(ex[i], ex[j0])),
{
    assert forall|i0: int|
        0 <= i0 < i_not implies has_node(post_repo, post_terms, Node::Not(#[trigger] ex[i0])) by {
        lemma_has_node_monotone(pre_repo, post_repo, pre_terms, post_terms, Node::Not(ex[i0]));
    }
    assert forall|i0: int, j0: int|
        0 <= i0 < i && 0 <= j0 < ex.len() implies has_node(
        post_repo,
        post_terms,
        Node::And(#[trigger] ex[i0], #[trigger] ex[j0]),
    ) && has_node(post_repo, post_terms, Node::Or(ex[i0], ex[j0])) by {
        lemma_has_node_monotone(
            pre_repo,
            post_repo,
            pre_terms,
            post_terms,
            Node::And(ex[i0], ex[j0]),
        );
        lemma_has_node_monotone(
            pre_repo,
            post_repo,
            pre_terms,
            post_terms,
            Node::Or(ex[i0], ex[j0]),
        );
    }
    assert forall|j0: int|
        0 <= j0 < j implies has_node(post_repo, post_terms, Node::And(ex[i], #[trigger] ex[j0]))
        && has_node(post_repo, post_terms, Node::Or(ex[i], ex[j0])) by {
        lemma_has_node_monotone(
            pre_repo,
            post_repo,
            pre_terms,
            post_terms,
            Node::And(ex[i], ex[j0]),
        );
        lemma_has_node_monotone(
            pre_repo,
            post_repo,
            pre_terms,
            post_terms,
            Node::Or(ex[i], ex[j0]),
        );
    }
}


/// The distinct characters of a sequence, each kept at the position of
/// its first occurrence.
pub open spec fn distinct_in_order(data: Seq<char>) -> Seq<char>
    decreases data.len(),
{
    if data.len() == 0 {
        Seq::empty()
    } else {
        let prefix = distinct_in_order(data.drop_last());
        if prefix.contains(data.last()) {
            prefix
        } else {
            prefix.push(data.last())
        }
    }
}

/// The distinct characters of the data, in order of first occurrence.
pub fn derive_alphabet_from_data(data: &Vec<char>) -> (alphabet: Vec<char>)
    ensures
        alphabet@ == distinct_in_order(data@),
        alphabet@.no_duplicates(),
        alphabet@.to_set() == data@.to_set(),
{
    let mut alphabet: Vec<char> = Vec::new();
    let mut i: usize = 0;
    proof {
        assert(data@.take(0) =~= Seq::<char>::empty());
        assert(alphabet@.to_set() =~= data@.take(0).to_set());
        assert(alphabet@ =~= distinct_in_order(data@.take(0)));
    }
    while i < data.len()
        invariant
            i <= data@.len(),
            alphabet@.no_duplicates(),
            alphabet@.to_set() == data@.take(i as int).to_set(),
            alphabet@ == distinct_in_order(data@.take(i as int)),
        decreases data@.len() - i,
    {
        let c = data[i];
        let found = vec_contains_char(&alphabet, c);
        let ghost pre = alphabet@;
        if !found {
            alphabet.push(c);
            proof {
                let post = alphabet@;
                assert(forall|j: int| 0 <= j < pre.len() ==> post[j] == pre[j]);
                assert(post[pre.len() as int] == c);
                assert forall|j: int, k: int|
                    0 <= j < post.len() && 0 <= k < post.len() && j != k implies post[j]
                    != post[k] by {
                    if j < pre.len() && k < pre.len() {
                        assert(pre[j] != pre[k]);
                    }
                }
                assert(post.to_set() =~= pre.to_set().insert(c)) by {
                    assert forall|w: char| #[trigger]
                        post.contains(w) implies pre.contains(w) || w == c by {
                        let k = choose|k: int| 0 <= k < post.len() && post[k] == w;
                        if k < pre.len() {
                            assert(pre[k] == w);
                        }
                    }
                    assert forall|w: char|
                        pre.contains(w) || w == c implies #[trigger] post.contains(w) by {
                        if w == c {
                            assert(post[pre.len() as int] == w);
                        } else {
                            let k = choose|k: int| 0 <= k < pre.len() && pre[k] == w;
                            assert(post[k] == w);
                        }
                    }
                }
            }
        } else {
            proof {
                assert(pre.to_set() =~= pre.to_set().insert(c));
            }
        }
        proof {
            assert(data@.take(i as int + 1) =~= data@.take(i as int).push(c));
            assert(data@.take(i as int + 1).drop_last() =~= data@.take(i as int));
            assert(data@.take(i as int + 1).last() == c);
            let d = data@.take(i as int);
            assert(d.push(c).to_set() =~= d.to_set().insert(c)) by {
                assert forall|w: char| #[trigger]
                    d.push(c).contains(w) implies d.contains(w) || w == c by {
                    let k = choose|k: int| 0 <= k < d.push(c).len() && d.push(c)[k] == w;
                    if k < d.len() {
                        assert(d[k] == w);
                    }
                }
                assert forall|w: char|
                    d.contains(w) || w == c implies #[trigger] d.push(c).contains(w) by {
                    if w == c {
                        assert(d.push(c)[d.len() as int] == w);
                    } else {
                        let k = choose|k: int| 0 <= k < d.len() && d[k] == w;
                        assert(d.push(c)[k] == w);
                    }
                }
            }
        }
        i += 1;
    }
    proof {
        assert(data@.take(data@.len() as int) =~= data@);
    }
    alphabet
}

/// Whether a character occurs in a vector.
fn vec_contains_char(v: &Vec<char>, c: char) -> (r: bool)
    ensures
        r == v@.contains(c),
{
    let mut j: usize = 0;
    while j < v.len()
        invariant
            j <= v@.len(),
            forall|k: int| 0 <= k < j ==> v@[k] != c,
        decreases v@.len() - j,
    {
        if v[j] == c {
            proof {
                assert(v@.contains(c)) by {
                    assert(v@[j as int] == c);
                }
            }
            return true;
        }
        j += 1;
    }
    false
}

/// Whether some term of `terms` is the variable term for character `c` at
/// negative offset `o` in `repo`.
pub open spec fn has_input_variable(repo: RcRepository, terms: Seq<Term>, c: char, o: int) -> bool {
    exists|k: int|
        0 <= k < terms.len() && (repo.term_node(#[trigger] terms[k]) matches Node::Var(v)
            && repo.valid_variable(v) && repo.var_value(v).spec_character() == c && repo.var_value(
            v,
        ).spec_negative_offset() == o)
}

/// Whether `n` is a variable node over the given alphabet and window.
pub open spec fn is_input_node(
    repo: RcRepository,
    n: Node,
    alphabet: Seq<char>,
    window_size: int,
) -> bool {
    n matches Node::Var(v) && repo.valid_variable(v) && alphabet.contains(
        repo.var_value(v).spec_character(),
    ) && repo.var_value(v).spec_negative_offset() < window_size
}

/// `has_input_variable` facts survive growing the repository and the term
/// list.
proof fn lemma_has_input_variable_monotone(
    pre_repo: RcRepository,
    post_repo: RcRepository,
    pre_terms: Seq<Term>,
    post_terms: Seq<Term>,
    c: char,
    o: int,
)
    requires
        post_repo.extends(pre_repo),
        pre_terms.is_prefix_of(post_terms),
        forall|k: int| 0 <= k < pre_terms.len() ==> pre_repo.valid_term(#[trigger] pre_terms[k]),
        has_input_variable(pre_repo, pre_terms, c, o),
    ensures
        has_input_variable(post_repo, post_terms, c, o),
{
    let k = choose|k: int|
        0 <= k < pre_terms.len() && (pre_repo.term_node(#[trigger] pre_terms[k]) matches Node::Var(
            v,
        ) && pre_repo.valid_variable(v) && pre_repo.var_value(v).spec_character() == c
            && pre_repo.var_value(v).spec_negative_offset() == o);
    assert(post_terms[k] == pre_terms[k]);
    assert(post_repo.spec_nodes()[pre_terms[k].spec_id() as int] == pre_repo.spec_nodes()[
        pre_terms[k].spec_id() as int
    ]);
    let v = pre_repo.term_node(pre_terms[k])->Var_0;
    assert(post_repo.spec_variables()[v.spec_id() as int] == pre_repo.spec_variables()[v.spec_id()
        as int]);
}

/// A pushed input term keeps the per-element facts of the term list.
proof fn lemma_input_push_step(
    pre_repo: RcRepository,
    post_repo: RcRepository,
    pre_terms: Seq<Term>,
    post_terms: Seq<Term>,
    alphabet: Seq<char>,
    window_size: int,
    t: Term,
)
    requires
        post_repo.extends(pre_repo),
        post_repo.valid_term(t),
        is_input_node(post_repo, post_repo.term_node(t), alphabet, window_size),
        forall|x: Term| post_terms.contains(x) <==> (pre_terms.contains(x) || x == t),
        forall|k: int| 0 <= k < pre_terms.len() ==> pre_repo.valid_term(#[trigger] pre_terms[k]),
        forall|k: int|
            0 <= k < pre_terms.len() ==> is_input_node(
                pre_repo,
                pre_repo.term_node(#[trigger] pre_terms[k]),
                alphabet,
                window_size,
            ),
    ensures
        forall|k: int| 0 <= k < post_terms.len() ==> post_repo.valid_term(#[trigger] post_terms[k]),
        forall|k: int|
            0 <= k < post_terms.len() ==> is_input_node(
                post_repo,
                post_repo.term_node(#[trigger] post_terms[k]),
                alphabet,
                window_size,
            ),
{
    assert forall|k: int|
        0 <= k < post_terms.len() implies post_repo.valid_term(#[trigger] post_terms[k])
        && is_input_node(post_repo, post_repo.term_node(post_terms[k]), alphabet, window_size) by {
        let x = post_terms[k];
        assert(post_terms.contains(x));
        if x != t {
            assert(pre_terms.contains(x));
            let k0 = choose|k0: int| 0 <= k0 < pre_terms.len() && pre_terms[k0] == x;
            assert(pre_repo.valid_term(x));
            assert(post_repo.spec_nodes()[x.spec_id() as int] == pre_repo.spec_nodes()[x.spec_id()
                as int]);
            let n = pre_repo.term_node(x);
            assert(is_input_node(pre_repo, n, alphabet, window_size));
            let v = n->Var_0;
            assert(post_repo.spec_variables()[v.spec_id() as int] == pre_repo.spec_variables()[
                v.spec_id() as int
            ]);
        }
    }
}

/// Intern one variable term for every pairing of an alphabet character
/// with a negative offset below the window size, and return the distinct
/// handles.
#[verifier::rlimit(100)]
pub fn get_input_variables(
    repo: &mut RcRepository,
    alphabet: &Vec<char>,
    window_size: usize,
) -> (terms: Vec<Term>)
    requires
        old(repo).wf(),
    ensures
        final(repo).wf(),
        final(repo).extends(*old(repo)),
        terms@.no_duplicates(),
        forall|k: int| 0 <= k < terms@.len() ==> final(repo).valid_term(#[trigger] terms@[k]),
        forall|k: int|
            0 <= k < terms@.len() ==> is_input_node(
                *final(repo),
                final(repo).term_node(#[trigger] terms@[k]),
                alphabet@,
                window_size as int,
            ),
        forall|ci: int, o: int|
            0 <= ci < alphabet@.len() && 0 <= o < window_size ==> has_input_variable(
                *final(repo),
                terms@,
                alphabet@[ci],
                o,
            ),
{
    let ghost al = alphabet@;
    let mut terms: Vec<Term> = Vec::new();
    let mut ci: usize = 0;
    while ci < alphabet.len()
        invariant
            al == alphabet@,
            ci <= al.len(),
            repo.wf(),
            repo.extends(*old(repo)),
            terms@.no_duplicates(),
            forall|k: int| 0 <= k < terms@.len() ==> repo.valid_term(#[trigger] terms@[k]),
            forall|k: int|
                0 <= k < terms@.len() ==> is_input_node(
                    *repo,
                    repo.term_node(#[trigger] terms@[k]),
                    al,
                    window_size as int,
                ),
            forall|c0: int, o: int|
                0 <= c0 < ci && 0 <= o < window_size ==> has_input_variable(
                    *repo,
                    terms@,
                    al[c0],
                    o,
                ),
        decreases al.len() - ci,
    {
        let character = alphabet[ci];
        let mut o: usize = 0;
        while o < window_size
            invariant
                al == alphabet@,
                ci < al.len(),
                character == al[ci as int],
                o <= window_size,
                repo.wf(),
                repo.extends(*old(repo)),
                terms@.no_duplicates(),
                forall|k: int| 0 <= k < terms@.len() ==> repo.valid_term(#[trigger] terms@[k]),
                forall|k: int|
                    0 <= k < terms@.len() ==> is_input_node(
                        *repo,
                        repo.term_node(#[trigger] terms@[k]),
                        al,
                        window_size as int,
                    ),
                forall|c0: int, o0: int|
                    0 <= c0 < ci && 0 <= o0 < window_size ==> has_input_variable(
                        *repo,
                        terms@,
                        al[c0],
                        o0,
                    ),
                forall|o0: int|
                    0 <= o0 < o ==> has_input_variable(*repo, terms@, al[ci as int], o0),
            decreases window_size - o,
        {
            let ghost repo_0 = *repo;
            let ghost terms_0 = terms@;
            let v = repo.character_in_window(o, character);
            let ghost repo_1 = *repo;
            let t = repo.var(v);
            push_unique(&mut terms, t);
            proof {
                RcRepository::lemma_extends_transitive(*repo, repo_1, repo_0);
                RcRepository::lemma_extends_transitive(*repo, repo_0, *old(repo));
                assert(repo.term_node(t) == Node::Var(v));
                assert(repo.spec_variables()[v.spec_id() as int] == repo_1.spec_variables()[
                    v.spec_id() as int
                ]);
                assert(repo.var_value(v).spec_character() == character);
                assert(repo.var_value(v).spec_negative_offset() == o);
                assert(al.contains(character)) by {
                    assert(al[ci as int] == character);
                }
                assert(is_input_node(*repo, repo.term_node(t), al, window_size as int));
                lemma_input_push_step(
                    repo_0,
                    *repo,
                    terms_0,
                    terms@,
                    al,
                    window_size as int,
                    t,
                );
                assert forall|c0: int, o0: int|
                    0 <= c0 < ci && 0 <= o0 < window_size implies has_input_variable(
                    *repo,
                    terms@,
                    al[c0],
                    o0,
                ) by {
                    lemma_has_input_variable_monotone(
                        repo_0,
                        *repo,
                        terms_0,
                        terms@,
                        al[c0],
                        o0,
                    );
                }
                assert forall|o0: int| 0 <= o0 < o implies has_input_variable(
                    *repo,
                    terms@,
                    al[ci as int],
                    o0,
                ) by {
                    lemma_has_input_variable_monotone(
                        repo_0,
                        *repo,
                        terms_0,
                        terms@,
                        al[ci as int],
                        o0,
                    );
                }
                assert(has_input_variable(*repo, terms@, al[ci as int], o as int)) by {
                    assert(terms@.contains(t));
                    let k = choose|k: int| 0 <= k < terms@.len() && terms@[k] == t;
                    assert(repo.term_node(terms@[k]) == Node::Var(v));
                }
            }
            o += 1;
        }
        ci += 1;
    }
    terms
}

} // verus!

