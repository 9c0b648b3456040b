//! The interning repository: canonical instances of variables and terms.
//!
//! Variables and expression nodes are stored in append-only arenas without
//! duplicates, and are referred to by integer handles. Because the arenas
//! hold no duplicates, two terms are structurally equal exactly when their
//! handles are equal, which makes deduplication of composite terms a
//! comparison of handles.

use vstd::prelude::*;

verus! {

/// A domain variable: the claim that a particular character stands
/// `negative_offset` positions before the cursor of a context.
#[derive(Debug, Clone, Copy, PartialEq, Eq, Hash, Structural)]
pub struct CharacterInWindow {
    character: char,
    negative_offset: usize,
}

impl CharacterInWindow {
    /// The character this variable looks for.
    pub closed spec fn spec_character(self) -> char {
        self.character
    }

    /// How far before the cursor the character is expected.
    pub closed spec fn spec_negative_offset(self) -> nat {
        self.negative_offset as nat
    }

    /// Two variables are equal exactly when both fields are equal.
    pub proof fn lemma_eq(a: Self, b: Self)
        ensures
            (a == b) <==> (a.spec_character() == b.spec_character()
                && a.spec_negative_offset() == b.spec_negative_offset()),
    {
    }

    pub fn new(character: char, negative_offset: usize) -> (r: Self)
        ensures
            r.spec_character() == character,
            r.spec_negative_offset() == negative_offset,
    {
        CharacterInWindow { character, negative_offset }
    }

    pub fn character(&self) -> (c: char)
        ensures
            c == self.spec_character(),
    {
        self.character
    }

    pub fn negative_offset(&self) -> (o: usize)
        ensures
            o == self.spec_negative_offset(),
    {
        self.negative_offset
    }
}

/// The total order on variables used to sort the variable set of a truth
/// table: by character first, then by offset.
pub open spec fn var_lt(a: CharacterInWindow, b: CharacterInWindow) -> bool {
    ||| (a.spec_character() as u32) < (b.spec_character() as u32)
    ||| (a.spec_character() == b.spec_character()
        && a.spec_negative_offset() < b.spec_negative_offset())
}

/// `var_lt` is a strict total order: any two variables are comparable,
/// and comparability in both directions is impossible.
pub proof fn lemma_var_order(a: CharacterInWindow, b: CharacterInWindow)
    ensures
        var_lt(a, b) || var_lt(b, a) || a == b,
        var_lt(a, b) ==> !var_lt(b, a),
        var_lt(a, b) ==> a != b,
{
    if a.spec_character() as u32 == b.spec_character() as u32 {
        vstd::utf8::char_u32_cast(a.spec_character(), a.spec_character() as u32);
        vstd::utf8::char_u32_cast(b.spec_character(), b.spec_character() as u32);
        assert(a.spec_character() == b.spec_character());
    }
    CharacterInWindow::lemma_eq(a, b);
}

/// `var_lt` is transitive.
pub proof fn lemma_var_order_transitive(
    a: CharacterInWindow,
    b: CharacterInWindow,
    c: CharacterInWindow,
)
    requires
        var_lt(a, b),
        var_lt(b, c),
    ensures
        var_lt(a, c),
{
}

/// The executable comparison corresponding to [`var_lt`].
pub fn var_lt_exec(a: &CharacterInWindow, b: &CharacterInWindow) -> (r: bool)
    ensures
        r == var_lt(*a, *b),
{
    (a.character as u32) < (b.character as u32)
        || (a.character == b.character && a.negative_offset < b.negative_offset)
}

/// A handle to an interned [`CharacterInWindow`]. Handles are only
/// meaningful together with the repository that issued them.
#[derive(Debug, Clone, Copy, PartialEq, Eq, Hash, Structural)]
pub struct Variable {
    id: usize,
}

impl Variable {
    /// The arena index this handle refers to.
    pub closed spec fn spec_id(self) -> nat {
        self.id as nat
    }

    /// Two handles are equal exactly when their indices are equal.
    pub proof fn lemma_eq(a: Self, b: Self)
        ensures
            (a == b) <==> (a.spec_id() == b.spec_id()),
    {
    }
}

/// A handle to an interned expression node. Handles are only meaningful
/// together with the repository that issued them; they are created by the
/// repository's constructors alone.
#[derive(Debug, Clone, Copy, PartialEq, Eq, Hash, Structural)]
pub struct Term {
    id: usize,
}

impl Term {
    /// The arena index this handle refers to.
    pub closed spec fn spec_id(self) -> nat {
        self.id as nat
    }

    /// Two handles are equal exactly when their indices are equal.
    pub proof fn lemma_eq(a: Self, b: Self)
        ensures
            (a == b) <==> (a.spec_id() == b.spec_id()),
    {
    }
}

/// The shape of one expression node. Values of this type describe interned
/// nodes in contracts; terms themselves can only be created through the
/// repository.
#[derive(Debug, Clone, Copy, PartialEq, Eq, Structural)]
pub enum Node {
    Var(Variable),
    Not(Term),
    And(Term, Term),
    Or(Term, Term),
}

/// A node is well formed when its children point strictly below `bound` in
/// the node arena and its variable (if any) points into the variable arena.
pub open spec fn node_wf(n: Node, bound: int, n_vars: int) -> bool {
    match n {
        Node::Var(v) => v.spec_id() < n_vars,
        Node::Not(x) => x.spec_id() < bound,
        Node::And(x, y) => x.spec_id() < bound && y.spec_id() < bound,
        Node::Or(x, y) => x.spec_id() < bound && y.spec_id() < bound,
    }
}

/// The interning repository. It owns the canonical instance of every
/// variable and every term; `get_or_create` and the term constructors
/// return the existing handle whenever an equal value was interned before.
pub struct RcRepository {
    variables: Vec<CharacterInWindow>,
    nodes: Vec<Node>,
}

impl RcRepository {
    /// The interned variables, in insertion order.
    pub closed spec fn spec_variables(self) -> Seq<CharacterInWindow> {
        self.variables@
    }

    /// The interned nodes, in insertion order.
    pub closed spec fn spec_nodes(self) -> Seq<Node> {
        self.nodes@
    }

    /// How many distinct variables have been interned.
    pub open spec fn var_count(self) -> nat {
        self.spec_variables().len()
    }

    /// How many distinct terms have been interned.
    pub open spec fn term_count(self) -> nat {
        self.spec_nodes().len()
    }

    /// Whether `v` is a handle issued by this repository.
    pub open spec fn valid_variable(self, v: Variable) -> bool {
        v.spec_id() < self.var_count()
    }

    /// Whether `t` is a handle issued by this repository.
    pub open spec fn valid_term(self, t: Term) -> bool {
        t.spec_id() < self.term_count()
    }

    /// The variable value a handle refers to.
    pub open spec fn var_value(self, v: Variable) -> CharacterInWindow {
        self.spec_variables()[v.spec_id() as int]
    }

    /// The node a term handle refers to.
    pub open spec fn term_node(self, t: Term) -> Node {
        self.spec_nodes()[t.spec_id() as int]
    }

    /// The repository invariant: both arenas are duplicate-free and every
    /// node points strictly downwards, so the term graph is acyclic.
    pub open spec fn wf(self) -> bool {
        &&& self.spec_variables().no_duplicates()
        &&& self.spec_nodes().no_duplicates()
        &&& forall|i: int|
            0 <= i < self.spec_nodes().len() ==> node_wf(
                #[trigger] self.spec_nodes()[i],
                i,
                self.var_count() as int,
            )
    }

    /// The repository only ever grows: an extension keeps every existing
    /// variable and node at its index, so handles stay stable.
    pub open spec fn extends(self, pre: Self) -> bool {
        &&& pre.spec_variables().is_prefix_of(self.spec_variables())
        &&& pre.spec_nodes().is_prefix_of(self.spec_nodes())
    }

    /// `extends` is transitive.
    pub proof fn lemma_extends_transitive(post: Self, mid: Self, pre: Self)
        requires
            post.extends(mid),
            mid.extends(pre),
        ensures
            post.extends(pre),
    {
    }

    /// The semantics of node `i` under a truth assignment for variables.
    pub open spec fn sem_at(self, i: int, a: spec_fn(CharacterInWindow) -> bool) -> bool
        decreases i,
        when self.wf() && 0 <= i < self.spec_nodes().len()
    {
        match self.spec_nodes()[i] {
            Node::Var(v) => a(self.spec_variables()[v.spec_id() as int]),
            Node::Not(x) => !self.sem_at(x.spec_id() as int, a),
            Node::And(x, y) => self.sem_at(x.spec_id() as int, a) && self.sem_at(
                y.spec_id() as int,
                a,
            ),
            Node::Or(x, y) => self.sem_at(x.spec_id() as int, a) || self.sem_at(
                y.spec_id() as int,
                a,
            ),
        }
    }

    /// The semantics of a term under a truth assignment for variables.
    pub open spec fn sem(self, t: Term, a: spec_fn(CharacterInWindow) -> bool) -> bool {
        self.sem_at(t.spec_id() as int, a)
    }

    /// The set of free variables of node `i`.
    pub open spec fn vars_at(self, i: int) -> Set<CharacterInWindow>
        decreases i,
        when self.wf() && 0 <= i < self.spec_nodes().len()
    {
        match self.spec_nodes()[i] {
            Node::Var(v) => set![self.spec_variables()[v.spec_id() as int]],
            Node::Not(x) => self.vars_at(x.spec_id() as int),
            Node::And(x, y) => self.vars_at(x.spec_id() as int).union(
                self.vars_at(y.spec_id() as int),
            ),
            Node::Or(x, y) => self.vars_at(x.spec_id() as int).union(
                self.vars_at(y.spec_id() as int),
            ),
        }
    }

    /// The set of free variables of a term.
    pub open spec fn term_vars(self, t: Term) -> Set<CharacterInWindow> {
        self.vars_at(t.spec_id() as int)
    }

    pub fn new() -> (r: Self)
        ensures
            r.wf(),
            r.var_count() == 0,
            r.term_count() == 0,
    {
        RcRepository { variables: Vec::new(), nodes: Vec::new() }
    }

    fn find_variable(&self, item: &CharacterInWindow) -> (r: Option<usize>)
        ensures
            match r {
                Some(i) => i < self.spec_variables().len() && self.spec_variables()[i as int]
                    == *item,
                None => !self.spec_variables().contains(*item),
            },
    {
        let mut i: usize = 0;
        while i < self.variables.len()
            invariant
                i <= self.variables@.len(),
                forall|j: int| 0 <= j < i ==> self.variables@[j] != *item,
            decreases self.variables@.len() - i,
        {
            if self.variables[i] == *item {
                return Some(i);
            }
            i += 1;
        }
        None
    }
}

/// Exactly what interning a variable does: the node arena is untouched, the
/// returned handle refers to `item`, and either `item` was already interned
/// (then nothing changes and the existing handle comes back) or `item` is
/// appended and the fresh handle comes back.
pub open spec fn intern_var_post(
    pre: RcRepository,
    post: RcRepository,
    item: CharacterInWindow,
    v: Variable,
) -> bool {
    &&& post.spec_nodes() == pre.spec_nodes()
    &&& post.valid_variable(v)
    &&& post.var_value(v) == item
    &&& (pre.spec_variables().contains(item) ==> post == pre && v.spec_id()
        == pre.spec_variables().index_of(item))
    &&& (!pre.spec_variables().contains(item) ==> post.spec_variables()
        == pre.spec_variables().push(item) && v.spec_id() == pre.var_count())
}

impl RcRepository {
    /// Intern a variable value, returning the canonical handle for it.
    pub fn get_or_create(&mut self, item: CharacterInWindow) -> (v: Variable)
        requires
            old(self).wf(),
        ensures
            final(self).wf(),
            final(self).extends(*old(self)),
            intern_var_post(*old(self), *final(self), item, v),
    {
        match self.find_variable(&item) {
            Some(i) => {
                proof {
                    assert(self.spec_variables().contains(item)) by {
                        assert(self.spec_variables()[i as int] == item);
                    }
                    let k = self.spec_variables().index_of(item);
                    assert(0 <= k < self.spec_variables().len() && self.spec_variables()[k]
                        == item);
                    assert(k == i as int);
                    assert(self.spec_variables().is_prefix_of(self.spec_variables()));
                    assert(self.spec_nodes().is_prefix_of(self.spec_nodes()));
                }
                Variable { id: i }
            },
            None => {
                let id = self.variables.len();
                self.variables.push(item);
                proof {
                    let pre_vars = old(self).spec_variables();
                    let post_vars = self.spec_variables();
                    assert(post_vars == pre_vars.push(item));
                    assert forall|j: int, k: int|
                        0 <= j < post_vars.len() && 0 <= k < post_vars.len() && j
                            != k implies post_vars[j] != post_vars[k] by {
                        if j < pre_vars.len() && k < pre_vars.len() {
                            assert(pre_vars[j] != pre_vars[k]);
                        } else if k == pre_vars.len() {
                            assert(post_vars[k] == item && post_vars[j] == pre_vars[j]);
                            assert(pre_vars[j] != item);
                        } else {
                            assert(post_vars[j] == item && post_vars[k] == pre_vars[k]);
                            assert(pre_vars[k] != item);
                        }
                    }
                    assert(pre_vars.is_prefix_of(post_vars)) by {
                        assert(pre_vars =~= post_vars.subrange(0, pre_vars.len() as int));
                    }
                }
                Variable { id }
            },
        }
    }

    /// Intern the variable "this character at this negative offset" and
    /// return its canonical handle.
    pub fn character_in_window(&mut self, negative_offset: usize, character: char) -> (v: Variable)
        requires
            old(self).wf(),
        ensures
            final(self).wf(),
            final(self).extends(*old(self)),
            final(self).valid_variable(v),
            final(self).var_value(v).spec_character() == character,
            final(self).var_value(v).spec_negative_offset() == negative_offset,
            intern_var_post(*old(self), *final(self), final(self).var_value(v), v),
    {
        let item = CharacterInWindow::new(character, negative_offset);
        self.get_or_create(item)
    }
}

/// Interning is idempotent: once a value is present, interning it again
/// returns the very same handle and leaves the repository unchanged.
pub proof fn lemma_interning_idempotent(
    repo0: RcRepository,
    repo1: RcRepository,
    repo2: RcRepository,
    item: CharacterInWindow,
    v1: Variable,
    v2: Variable,
)
    requires
        repo1.wf(),
        intern_var_post(repo0, repo1, item, v1),
        intern_var_post(repo1, repo2, item, v2),
    ensures
        v2 == v1,
        repo2 == repo1,
{
    assert(repo1.spec_variables().contains(item)) by {
        assert(repo1.spec_variables()[v1.spec_id() as int] == item);
    }
    let k = repo1.spec_variables().index_of(item);
    assert(0 <= k < repo1.spec_variables().len() && repo1.spec_variables()[k] == item);
    Variable::lemma_eq(v1, v2);
}


/// Exactly what interning a node does: the variable arena is untouched,
/// the returned handle refers to `n`, and either `n` was already interned
/// (then nothing changes and the existing handle comes back) or `n` is
/// appended and the fresh handle comes back.
pub open spec fn intern_node_post(pre: RcRepository, post: RcRepository, n: Node, t: Term) -> bool {
    &&& post.spec_variables() == pre.spec_variables()
    &&& post.valid_term(t)
    &&& post.term_node(t) == n
    &&& (pre.spec_nodes().contains(n) ==> post == pre && t.spec_id()
        == pre.spec_nodes().index_of(n))
    &&& (!pre.spec_nodes().contains(n) ==> post.spec_nodes() == pre.spec_nodes().push(n)
        && t.spec_id() == pre.term_count())
}

impl RcRepository {
    fn find_node(&self, n: &Node) -> (r: Option<usize>)
        ensures
            match r {
                Some(i) => i < self.spec_nodes().len() && self.spec_nodes()[i as int] == *n,
                None => !self.spec_nodes().contains(*n),
            },
    {
        let mut i: usize = 0;
        while i < self.nodes.len()
            invariant
                i <= self.nodes@.len(),
                forall|j: int| 0 <= j < i ==> self.nodes@[j] != *n,
            decreases self.nodes@.len() - i,
        {
            if self.nodes[i] == *n {
                return Some(i);
            }
            i += 1;
        }
        None
    }

    fn intern_node(&mut self, n: Node) -> (t: Term)
        requires
            old(self).wf(),
            node_wf(n, old(self).term_count() as int, old(self).var_count() as int),
        ensures
            final(self).wf(),
            final(self).extends(*old(self)),
            intern_node_post(*old(self), *final(self), n, t),
    {
        match self.find_node(&n) {
            Some(i) => {
                proof {
                    assert(self.spec_nodes().contains(n)) by {
                        assert(self.spec_nodes()[i as int] == n);
                    }
                    let k = self.spec_nodes().index_of(n);
                    assert(0 <= k < self.spec_nodes().len() && self.spec_nodes()[k] == n);
                    assert(k == i as int);
                    assert(self.spec_variables().is_prefix_of(self.spec_variables()));
                    assert(self.spec_nodes().is_prefix_of(self.spec_nodes()));
                }
                Term { id: i }
            },
            None => {
                let id = self.nodes.len();
                self.nodes.push(n);
                proof {
                    let pre_nodes = old(self).spec_nodes();
                    let post_nodes = self.spec_nodes();
                    assert(post_nodes == pre_nodes.push(n));
                    assert forall|j: int, k: int|
                        0 <= j < post_nodes.len() && 0 <= k < post_nodes.len() && j
                            != k implies post_nodes[j] != post_nodes[k] by {
                        if j < pre_nodes.len() && k < pre_nodes.len() {
                            assert(pre_nodes[j] != pre_nodes[k]);
                        } else if k == pre_nodes.len() {
                            assert(post_nodes[k] == n && post_nodes[j] == pre_nodes[j]);
                            assert(pre_nodes[j] != n);
                        } else {
                            assert(post_nodes[j] == n && post_nodes[k] == pre_nodes[k]);
                            assert(pre_nodes[k] != n);
                        }
                    }
                    assert(pre_nodes.is_prefix_of(post_nodes)) by {
                        assert(pre_nodes =~= post_nodes.subrange(0, pre_nodes.len() as int));
                    }
                    assert forall|i: int|
                        0 <= i < post_nodes.len() implies node_wf(
                        #[trigger] post_nodes[i],
                        i,
                        self.var_count() as int,
                    ) by {
                        if i < pre_nodes.len() {
                            assert(node_wf(pre_nodes[i], i, old(self).var_count() as int));
                        }
                    }
                }
                Term { id }
            },
        }
    }

    /// Read back the node an interned term refers to.
    pub(crate) fn node(&self, t: Term) -> (n: Node)
        requires
            self.valid_term(t),
        ensures
            n == self.term_node(t),
    {
        self.nodes[t.id]
    }

    /// Read back the variable value an interned handle refers to.
    pub fn variable_value(&self, v: Variable) -> (c: CharacterInWindow)
        requires
            self.valid_variable(v),
        ensures
            c == self.var_value(v),
    {
        self.variables[v.id]
    }

    /// How many distinct variables are interned.
    pub fn num_variables(&self) -> (n: usize)
        ensures
            n == self.var_count(),
    {
        self.variables.len()
    }

    /// How many distinct terms are interned.
    pub fn num_terms(&self) -> (n: usize)
        ensures
            n == self.term_count(),
    {
        self.nodes.len()
    }
}

impl RcRepository {
    /// Semantics and free variables of an interned term do not change when
    /// the repository grows: handles are stable under extension.
    pub proof fn lemma_sem_stable(
        pre: Self,
        post: Self,
        i: int,
        a: spec_fn(CharacterInWindow) -> bool,
    )
        requires
            pre.wf(),
            post.wf(),
            post.extends(pre),
            0 <= i < pre.spec_nodes().len(),
        ensures
            post.sem_at(i, a) == pre.sem_at(i, a),
            post.vars_at(i) == pre.vars_at(i),
        decreases i,
    {
        assert(post.spec_nodes()[i] == pre.spec_nodes()[i]);
        assert(node_wf(pre.spec_nodes()[i], i, pre.var_count() as int));
        match pre.spec_nodes()[i] {
            Node::Var(v) => {
                assert(post.spec_variables()[v.spec_id() as int] == pre.spec_variables()[v.spec_id()
                    as int]);
            },
            Node::Not(x) => {
                Self::lemma_sem_stable(pre, post, x.spec_id() as int, a);
            },
            Node::And(x, y) => {
                Self::lemma_sem_stable(pre, post, x.spec_id() as int, a);
                Self::lemma_sem_stable(pre, post, y.spec_id() as int, a);
            },
            Node::Or(x, y) => {
                Self::lemma_sem_stable(pre, post, x.spec_id() as int, a);
                Self::lemma_sem_stable(pre, post, y.spec_id() as int, a);
            },
        }
    }

    /// Handle-level form of [`Self::lemma_sem_stable`].
    pub proof fn lemma_term_stable(pre: Self, post: Self, t: Term)
        requires
            pre.wf(),
            post.wf(),
            post.extends(pre),
            pre.valid_term(t),
        ensures
            forall|a: spec_fn(CharacterInWindow) -> bool| #[trigger]
                post.sem(t, a) == pre.sem(t, a),
            post.term_vars(t) == pre.term_vars(t),
    {
        assert forall|a: spec_fn(CharacterInWindow) -> bool| #[trigger]
            post.sem(t, a) == pre.sem(t, a) by {
            Self::lemma_sem_stable(pre, post, t.spec_id() as int, a);
        }
        Self::lemma_sem_stable(pre, post, t.spec_id() as int, |v: CharacterInWindow| true);
    }

    /// Hash-consing: two interned terms are structurally equal exactly when
    /// they are the very same handle.
    pub proof fn lemma_structural_equality_is_identity(self, t1: Term, t2: Term)
        requires
            self.wf(),
            self.valid_term(t1),
            self.valid_term(t2),
        ensures
            (self.term_node(t1) == self.term_node(t2)) <==> (t1 == t2),
    {
        Term::lemma_eq(t1, t2);
        if self.term_node(t1) == self.term_node(t2) && t1 != t2 {
            assert(self.spec_nodes()[t1.spec_id() as int] != self.spec_nodes()[t2.spec_id()
                as int]);
        }
    }

    /// Interning a node is idempotent: once it is present, interning it
    /// again returns the very same handle and leaves the repository
    /// unchanged.
    pub proof fn lemma_term_interning_idempotent(
        repo0: Self,
        repo1: Self,
        repo2: Self,
        n: Node,
        t1: Term,
        t2: Term,
    )
        requires
            repo1.wf(),
            intern_node_post(repo0, repo1, n, t1),
            intern_node_post(repo1, repo2, n, t2),
        ensures
            t2 == t1,
            repo2 == repo1,
    {
        assert(repo1.spec_nodes().contains(n)) by {
            assert(repo1.spec_nodes()[t1.spec_id() as int] == n);
        }
        let k = repo1.spec_nodes().index_of(n);
        assert(0 <= k < repo1.spec_nodes().len() && repo1.spec_nodes()[k] == n);
        Term::lemma_eq(t1, t2);
    }
}

impl RcRepository {
    /// An interned term keeps its node when the repository grows.
    pub proof fn lemma_term_node_stable(pre: Self, post: Self, t: Term)
        requires
            post.extends(pre),
            pre.valid_term(t),
        ensures
            post.valid_term(t),
            post.term_node(t) == pre.term_node(t),
    {
        assert(post.spec_nodes()[t.spec_id() as int] == pre.spec_nodes()[t.spec_id() as int]);
    }

    /// One interning step only grows the repository.
    pub proof fn lemma_intern_node_post_extends(pre: Self, post: Self, n: Node, t: Term)
        requires
            intern_node_post(pre, post, n, t),
        ensures
            post.extends(pre),
    {
        assert(pre.spec_nodes().is_prefix_of(post.spec_nodes())) by {
            assert(pre.spec_nodes() =~= post.spec_nodes().subrange(
                0,
                pre.spec_nodes().len() as int,
            ));
        }
        assert(pre.spec_variables().is_prefix_of(post.spec_variables())) by {
            assert(pre.spec_variables() =~= post.spec_variables().subrange(
                0,
                pre.spec_variables().len() as int,
            ));
        }
    }

    /// Interning a node that is already interned at handle `t0` returns
    /// that very handle and changes nothing.
    pub proof fn lemma_intern_finds_existing(pre: Self, post: Self, n: Node, t: Term, t0: Term)
        requires
            pre.wf(),
            intern_node_post(pre, post, n, t),
            pre.valid_term(t0),
            pre.term_node(t0) == n,
        ensures
            post == pre,
            t == t0,
    {
        assert(pre.spec_nodes().contains(n)) by {
            assert(pre.spec_nodes()[t0.spec_id() as int] == n);
        }
        let k = pre.spec_nodes().index_of(n);
        assert(0 <= k < pre.spec_nodes().len() && pre.spec_nodes()[k] == n);
        Term::lemma_eq(t, t0);
    }
}

/// Exactly what building `conditional(x, y)` does: `not(x)` is interned
/// first, then the `or` of that handle with `y`; each step follows
/// [`intern_node_post`], so the result is the canonical interned
/// `or(not(x), y)` and the repository grows by those two nodes alone.
pub open spec fn conditional_post(
    pre: RcRepository,
    post: RcRepository,
    x: Term,
    y: Term,
    t: Term,
) -> bool {
    exists|mid: RcRepository, nx: Term|
        #[trigger] intern_node_post(pre, mid, Node::Not(x), nx) && intern_node_post(
            mid,
            post,
            Node::Or(nx, y),
            t,
        )
}

/// Exactly what building `biconditional(x, y)` does: `and(x, y)`,
/// `not(x)`, `not(y)`, the `and` of the two negations, and the `or` of
/// the two conjunctions are interned in turn; each step follows
/// [`intern_node_post`], so the result is the canonical interned
/// `or(and(x, y), and(not(x), not(y)))` and the repository grows by
/// those five nodes alone.
pub open spec fn biconditional_post(
    pre: RcRepository,
    post: RcRepository,
    x: Term,
    y: Term,
    t: Term,
) -> bool {
    exists|
        s1: RcRepository,
        s2: RcRepository,
        s3: RcRepository,
        s4: RcRepository,
        axy: Term,
        nx: Term,
        ny: Term,
        ann: Term,
    |
        #![trigger intern_node_post(pre, s1, Node::And(x, y), axy),
            intern_node_post(s1, s2, Node::Not(x), nx),
            intern_node_post(s2, s3, Node::Not(y), ny),
            intern_node_post(s3, s4, Node::And(nx, ny), ann)]
        {
            &&& intern_node_post(pre, s1, Node::And(x, y), axy)
            &&& intern_node_post(s1, s2, Node::Not(x), nx)
            &&& intern_node_post(s2, s3, Node::Not(y), ny)
            &&& intern_node_post(s3, s4, Node::And(nx, ny), ann)
            &&& intern_node_post(s4, post, Node::Or(axy, ann), t)
        }
}

impl RcRepository {
    /// Intern the term that consists of a single variable.
    pub fn var(&mut self, x: Variable) -> (t: Term)
        requires
            old(self).wf(),
            old(self).valid_variable(x),
        ensures
            final(self).wf(),
            final(self).extends(*old(self)),
            final(self).valid_term(t),
            intern_node_post(*old(self), *final(self), Node::Var(x), t),
            final(self).term_vars(t) == set![final(self).var_value(x)],
            forall|a: spec_fn(CharacterInWindow) -> bool| #[trigger]
                final(self).sem(t, a) == a(final(self).var_value(x)),
    {
        let t = self.intern_node(Node::Var(x));
        proof {
            assert(self.term_node(t) == Node::Var(x));
            assert forall|a: spec_fn(CharacterInWindow) -> bool| #[trigger]
                self.sem(t, a) == a(self.var_value(x)) by {
                assert(self.sem_at(t.spec_id() as int, a) == a(self.spec_variables()[x.spec_id()
                    as int]));
            }
            assert(self.vars_at(t.spec_id() as int) == set![self.var_value(x)]);
        }
        t
    }

    /// Intern the negation of a term.
    pub fn not(&mut self, x: Term) -> (t: Term)
        requires
            old(self).wf(),
            old(self).valid_term(x),
        ensures
            final(self).wf(),
            final(self).extends(*old(self)),
            final(self).valid_term(t),
            intern_node_post(*old(self), *final(self), Node::Not(x), t),
            final(self).term_vars(t) == final(self).term_vars(x),
            forall|a: spec_fn(CharacterInWindow) -> bool| #[trigger]
                final(self).sem(t, a) == !final(self).sem(x, a),
    {
        let t = self.intern_node(Node::Not(x));
        proof {
            assert(self.term_node(t) == Node::Not(x));
            assert forall|a: spec_fn(CharacterInWindow) -> bool| #[trigger]
                self.sem(t, a) == !self.sem(x, a) by {
                assert(self.sem_at(t.spec_id() as int, a) == !self.sem_at(x.spec_id() as int, a));
            }
            assert(self.vars_at(t.spec_id() as int) == self.vars_at(x.spec_id() as int));
        }
        t
    }

    /// Intern the conjunction of two terms.
    pub fn and(&mut self, x: Term, y: Term) -> (t: Term)
        requires
            old(self).wf(),
            old(self).valid_term(x),
            old(self).valid_term(y),
        ensures
            final(self).wf(),
            final(self).extends(*old(self)),
            final(self).valid_term(t),
            intern_node_post(*old(self), *final(self), Node::And(x, y), t),
            final(self).term_vars(t) == final(self).term_vars(x).union(final(self).term_vars(y)),
            forall|a: spec_fn(CharacterInWindow) -> bool| #[trigger]
                final(self).sem(t, a) == (final(self).sem(x, a) && final(self).sem(y, a)),
    {
        let t = self.intern_node(Node::And(x, y));
        proof {
            assert(self.term_node(t) == Node::And(x, y));
            assert forall|a: spec_fn(CharacterInWindow) -> bool| #[trigger]
                self.sem(t, a) == (self.sem(x, a) && self.sem(y, a)) by {
                assert(self.sem_at(t.spec_id() as int, a) == (self.sem_at(x.spec_id() as int, a)
                    && self.sem_at(y.spec_id() as int, a)));
            }
            assert(self.vars_at(t.spec_id() as int) == self.vars_at(x.spec_id() as int).union(
                self.vars_at(y.spec_id() as int),
            ));
        }
        t
    }

    /// Intern the disjunction of two terms.
    pub fn or(&mut self, x: Term, y: Term) -> (t: Term)
        requires
            old(self).wf(),
            old(self).valid_term(x),
            old(self).valid_term(y),
        ensures
            final(self).wf(),
            final(self).extends(*old(self)),
            final(self).valid_term(t),
            intern_node_post(*old(self), *final(self), Node::Or(x, y), t),
            final(self).term_vars(t) == final(self).term_vars(x).union(final(self).term_vars(y)),
            forall|a: spec_fn(CharacterInWindow) -> bool| #[trigger]
                final(self).sem(t, a) == (final(self).sem(x, a) || final(self).sem(y, a)),
    {
        let t = self.intern_node(Node::Or(x, y));
        proof {
            assert(self.term_node(t) == Node::Or(x, y));
            assert forall|a: spec_fn(CharacterInWindow) -> bool| #[trigger]
                self.sem(t, a) == (self.sem(x, a) || self.sem(y, a)) by {
                assert(self.sem_at(t.spec_id() as int, a) == (self.sem_at(x.spec_id() as int, a)
                    || self.sem_at(y.spec_id() as int, a)));
            }
            assert(self.vars_at(t.spec_id() as int) == self.vars_at(x.spec_id() as int).union(
                self.vars_at(y.spec_id() as int),
            ));
        }
        t
    }

    /// Intern the conditional `x implies y`, expressed with the base
    /// constructors as `or(not(x), y)`.
    pub fn conditional(&mut self, x: Term, y: Term) -> (t: Term)
        requires
            old(self).wf(),
            old(self).valid_term(x),
            old(self).valid_term(y),
        ensures
            final(self).wf(),
            final(self).extends(*old(self)),
            final(self).valid_term(t),
            final(self).term_vars(t) == final(self).term_vars(x).union(final(self).term_vars(y)),
            conditional_post(*old(self), *final(self), x, y, t),
            forall|a: spec_fn(CharacterInWindow) -> bool| #[trigger]
                final(self).sem(t, a) == (final(self).sem(x, a) ==> final(self).sem(y, a)),
    {
        let ghost s0 = *self;
        let not_x = self.not(x);
        let ghost s1 = *self;
        let t = self.or(not_x, y);
        proof {
            Self::lemma_extends_transitive(*self, s1, s0);
            assert(conditional_post(s0, *self, x, y, t)) by {
                assert(intern_node_post(s0, s1, Node::Not(x), not_x) && intern_node_post(
                    s1,
                    *self,
                    Node::Or(not_x, y),
                    t,
                ));
            }
            Self::lemma_term_stable(s1, *self, not_x);
            Self::lemma_term_stable(s1, *self, x);
            assert forall|a: spec_fn(CharacterInWindow) -> bool| #[trigger]
                self.sem(t, a) == (self.sem(x, a) ==> self.sem(y, a)) by {
                assert(self.sem(t, a) == (self.sem(not_x, a) || self.sem(y, a)));
                assert(self.sem(not_x, a) == s1.sem(not_x, a));
                assert(s1.sem(not_x, a) == !s1.sem(x, a));
                assert(s1.sem(x, a) == self.sem(x, a));
            }
            assert(self.term_vars(t) == self.term_vars(x).union(self.term_vars(y))) by {
                assert(self.term_vars(not_x) == s1.term_vars(not_x));
                assert(s1.term_vars(not_x) == s1.term_vars(x));
                assert(s1.term_vars(x) == self.term_vars(x));
            }
        }
        t
    }

    /// Intern the biconditional `x if and only if y`, expressed with the
    /// base constructors as `or(and(x, y), and(not(x), not(y)))`.
    pub fn biconditional(&mut self, x: Term, y: Term) -> (t: Term)
        requires
            old(self).wf(),
            old(self).valid_term(x),
            old(self).valid_term(y),
        ensures
            final(self).wf(),
            final(self).extends(*old(self)),
            final(self).valid_term(t),
            final(self).term_vars(t) == final(self).term_vars(x).union(final(self).term_vars(y)),
            biconditional_post(*old(self), *final(self), x, y, t),
            forall|a: spec_fn(CharacterInWindow) -> bool| #[trigger]
                final(self).sem(t, a) == (final(self).sem(x, a) <==> final(self).sem(y, a)),
    {
        let ghost s0 = *self;
        let and_x_y = self.and(x, y);
        let ghost s1 = *self;
        let not_x = self.not(x);
        let ghost s2 = *self;
        let not_y = self.not(y);
        let ghost s3 = *self;
        let and_not_x_not_y = self.and(not_x, not_y);
        let ghost s4 = *self;
        let t = self.or(and_x_y, and_not_x_not_y);
        proof {
            assert(biconditional_post(s0, *self, x, y, t)) by {
                assert(intern_node_post(s0, s1, Node::And(x, y), and_x_y) && intern_node_post(
                    s1,
                    s2,
                    Node::Not(x),
                    not_x,
                ) && intern_node_post(s2, s3, Node::Not(y), not_y) && intern_node_post(
                    s3,
                    s4,
                    Node::And(not_x, not_y),
                    and_not_x_not_y,
                ) && intern_node_post(s4, *self, Node::Or(and_x_y, and_not_x_not_y), t));
            }
            Self::lemma_extends_transitive(s2, s1, s0);
            Self::lemma_extends_transitive(s3, s2, s1);
            Self::lemma_extends_transitive(s3, s2, s0);
            Self::lemma_extends_transitive(s4, s3, s1);
            Self::lemma_extends_transitive(s4, s3, s0);
            Self::lemma_extends_transitive(*self, s4, s1);
            Self::lemma_extends_transitive(*self, s4, s0);
            Self::lemma_term_stable(s1, *self, and_x_y);
            Self::lemma_term_stable(s2, *self, not_x);
            Self::lemma_term_stable(s3, *self, not_y);
            Self::lemma_term_stable(s4, *self, and_not_x_not_y);
            Self::lemma_term_stable(s1, *self, x);
            Self::lemma_term_stable(s1, *self, y);
            Self::lemma_term_stable(s1, s2, x);
            Self::lemma_term_stable(s1, s3, y);
            Self::lemma_term_stable(s2, s4, not_x);
            Self::lemma_term_stable(s3, s4, not_y);
            Self::lemma_term_stable(s1, s4, x);
            Self::lemma_term_stable(s1, s4, y);
            Self::lemma_term_stable(s2, s3, y);
            assert forall|a: spec_fn(CharacterInWindow) -> bool| #[trigger]
                self.sem(t, a) == (self.sem(x, a) <==> self.sem(y, a)) by {
                assert(self.sem(t, a) == (self.sem(and_x_y, a) || self.sem(and_not_x_not_y, a)));
                assert(self.sem(and_x_y, a) == s1.sem(and_x_y, a));
                assert(s1.sem(and_x_y, a) == (s1.sem(x, a) && s1.sem(y, a)));
                assert(self.sem(and_not_x_not_y, a) == s4.sem(and_not_x_not_y, a));
                assert(s4.sem(and_not_x_not_y, a) == (s4.sem(not_x, a) && s4.sem(not_y, a)));
                assert(s4.sem(not_x, a) == s2.sem(not_x, a));
                assert(s2.sem(not_x, a) == !s2.sem(x, a));
                assert(s2.sem(x, a) == s1.sem(x, a));
                assert(s4.sem(not_y, a) == s3.sem(not_y, a));
                assert(s3.sem(not_y, a) == !s3.sem(y, a));
                assert(s3.sem(y, a) == s2.sem(y, a));
                assert(s2.sem(y, a) == s1.sem(y, a));
                assert(s1.sem(x, a) == self.sem(x, a));
                assert(s1.sem(y, a) == self.sem(y, a));
            }
            assert(self.term_vars(t) == self.term_vars(and_x_y).union(
                self.term_vars(and_not_x_not_y),
            ));
            assert(self.term_vars(and_x_y) == s1.term_vars(and_x_y));
            assert(s1.term_vars(and_x_y) == s1.term_vars(x).union(s1.term_vars(y)));
            assert(self.term_vars(and_not_x_not_y) == s4.term_vars(and_not_x_not_y));
            assert(s4.term_vars(and_not_x_not_y) == s4.term_vars(not_x).union(s4.term_vars(not_y)));
            assert(s4.term_vars(not_x) == s2.term_vars(not_x));
            assert(s2.term_vars(not_x) == s2.term_vars(x));
            assert(s4.term_vars(not_y) == s3.term_vars(not_y));
            assert(s3.term_vars(not_y) == s3.term_vars(y));
            assert(s2.term_vars(x) == s1.term_vars(x));
            assert(s3.term_vars(y) == s2.term_vars(y));
            assert(s2.term_vars(y) == s1.term_vars(y));
            assert(s1.term_vars(x) == self.term_vars(x));
            assert(s1.term_vars(y) == self.term_vars(y));
            let vx = self.term_vars(x);
            let vy = self.term_vars(y);
            assert(self.term_vars(t) == (vx.union(vy)).union(vx.union(vy)));
            assert((vx.union(vy)).union(vx.union(vy)) =~= vx.union(vy));
        }
        t
    }
}

impl RcRepository {
    /// The semantics of a node depends only on the assignment's values on
    /// the node's free variables.
    pub proof fn lemma_sem_agrees(
        self,
        i: int,
        a1: spec_fn(CharacterInWindow) -> bool,
        a2: spec_fn(CharacterInWindow) -> bool,
    )
        requires
            self.wf(),
            0 <= i < self.spec_nodes().len(),
            forall|v: CharacterInWindow|
                self.vars_at(i).contains(v) ==> #[trigger] a1(v) == #[trigger] a2(v),
        ensures
            self.sem_at(i, a1) == self.sem_at(i, a2),
        decreases i,
    {
        assert(node_wf(self.spec_nodes()[i], i, self.var_count() as int));
        match self.spec_nodes()[i] {
            Node::Var(v) => {
                assert(self.vars_at(i).contains(self.spec_variables()[v.spec_id() as int]));
            },
            Node::Not(x) => {
                assert(self.vars_at(i) == self.vars_at(x.spec_id() as int));
                self.lemma_sem_agrees(x.spec_id() as int, a1, a2);
            },
            Node::And(x, y) => {
                assert(self.vars_at(i) == self.vars_at(x.spec_id() as int).union(
                    self.vars_at(y.spec_id() as int),
                ));
                self.lemma_sem_agrees(x.spec_id() as int, a1, a2);
                self.lemma_sem_agrees(y.spec_id() as int, a1, a2);
            },
            Node::Or(x, y) => {
                assert(self.vars_at(i) == self.vars_at(x.spec_id() as int).union(
                    self.vars_at(y.spec_id() as int),
                ));
                self.lemma_sem_agrees(x.spec_id() as int, a1, a2);
                self.lemma_sem_agrees(y.spec_id() as int, a1, a2);
            },
        }
    }

    /// Handle-level form of [`Self::lemma_sem_agrees`].
    pub proof fn lemma_term_sem_agrees(
        self,
        t: Term,
        a1: spec_fn(CharacterInWindow) -> bool,
        a2: spec_fn(CharacterInWindow) -> bool,
    )
        requires
            self.wf(),
            self.valid_term(t),
            forall|v: CharacterInWindow|
                self.term_vars(t).contains(v) ==> #[trigger] a1(v) == #[trigger] a2(v),
        ensures
            self.sem(t, a1) == self.sem(t, a2),
    {
        self.lemma_sem_agrees(t.spec_id() as int, a1, a2);
    }
}

/// Building the conditional of the same two terms twice returns the very
/// same handle and leaves the repository unchanged: the derived
/// constructors are as canonical as the base ones.
pub proof fn lemma_conditional_canonical(
    repo0: RcRepository,
    repo1: RcRepository,
    repo2: RcRepository,
    x: Term,
    y: Term,
    t1: Term,
    t2: Term,
)
    requires
        repo1.wf(),
        conditional_post(repo0, repo1, x, y, t1),
        conditional_post(repo1, repo2, x, y, t2),
    ensures
        t2 == t1,
        repo2 == repo1,
{
    let (mid1, nx1): (RcRepository, Term) = choose|mid: RcRepository, nx: Term|
        #[trigger] intern_node_post(repo0, mid, Node::Not(x), nx) && intern_node_post(
            mid,
            repo1,
            Node::Or(nx, y),
            t1,
        );
    let (mid2, nx2): (RcRepository, Term) = choose|mid: RcRepository, nx: Term|
        #[trigger] intern_node_post(repo1, mid, Node::Not(x), nx) && intern_node_post(
            mid,
            repo2,
            Node::Or(nx, y),
            t2,
        );
    RcRepository::lemma_intern_node_post_extends(mid1, repo1, Node::Or(nx1, y), t1);
    RcRepository::lemma_term_node_stable(mid1, repo1, nx1);
    RcRepository::lemma_intern_finds_existing(repo1, mid2, Node::Not(x), nx2, nx1);
    RcRepository::lemma_intern_finds_existing(mid2, repo2, Node::Or(nx2, y), t2, t1);
}

/// Building the biconditional of the same two terms twice returns the
/// very same handle and leaves the repository unchanged.
pub proof fn lemma_biconditional_canonical(
    repo0: RcRepository,
    repo1: RcRepository,
    repo2: RcRepository,
    x: Term,
    y: Term,
    t1: Term,
    t2: Term,
)
    requires
        repo1.wf(),
        biconditional_post(repo0, repo1, x, y, t1),
        biconditional_post(repo1, repo2, x, y, t2),
    ensures
        t2 == t1,
        repo2 == repo1,
{
    let (s11, s12, s13, s14, axy1, nx1, ny1, ann1): (
        RcRepository,
        RcRepository,
        RcRepository,
        RcRepository,
        Term,
        Term,
        Term,
        Term,
    ) = choose|
        s1: RcRepository,
        s2: RcRepository,
        s3: RcRepository,
        s4: RcRepository,
        axy: Term,
        nx: Term,
        ny: Term,
        ann: Term,
    |
        #![trigger intern_node_post(repo0, s1, Node::And(x, y), axy),
            intern_node_post(s1, s2, Node::Not(x), nx),
            intern_node_post(s2, s3, Node::Not(y), ny),
            intern_node_post(s3, s4, Node::And(nx, ny), ann)]
        {
            &&& intern_node_post(repo0, s1, Node::And(x, y), axy)
            &&& intern_node_post(s1, s2, Node::Not(x), nx)
            &&& intern_node_post(s2, s3, Node::Not(y), ny)
            &&& intern_node_post(s3, s4, Node::And(nx, ny), ann)
            &&& intern_node_post(s4, repo1, Node::Or(axy, ann), t1)
        };
    let (s21, s22, s23, s24, axy2, nx2, ny2, ann2): (
        RcRepository,
        RcRepository,
        RcRepository,
        RcRepository,
        Term,
        Term,
        Term,
        Term,
    ) = choose|
        s1: RcRepository,
        s2: RcRepository,
        s3: RcRepository,
        s4: RcRepository,
        axy: Term,
        nx: Term,
        ny: Term,
        ann: Term,
    |
        #![trigger intern_node_post(repo1, s1, Node::And(x, y), axy),
            intern_node_post(s1, s2, Node::Not(x), nx),
            intern_node_post(s2, s3, Node::Not(y), ny),
            intern_node_post(s3, s4, Node::And(nx, ny), ann)]
        {
            &&& intern_node_post(repo1, s1, Node::And(x, y), axy)
            &&& intern_node_post(s1, s2, Node::Not(x), nx)
            &&& intern_node_post(s2, s3, Node::Not(y), ny)
            &&& intern_node_post(s3, s4, Node::And(nx, ny), ann)
            &&& intern_node_post(s4, repo2, Node::Or(axy, ann), t2)
        };
    // every handle of the first chain keeps its node up to repo1
    RcRepository::lemma_intern_node_post_extends(s11, s12, Node::Not(x), nx1);
    RcRepository::lemma_intern_node_post_extends(s12, s13, Node::Not(y), ny1);
    RcRepository::lemma_intern_node_post_extends(s13, s14, Node::And(nx1, ny1), ann1);
    RcRepository::lemma_intern_node_post_extends(s14, repo1, Node::Or(axy1, ann1), t1);
    RcRepository::lemma_extends_transitive(s13, s12, s11);
    RcRepository::lemma_extends_transitive(s14, s13, s11);
    RcRepository::lemma_extends_transitive(repo1, s14, s11);
    RcRepository::lemma_extends_transitive(repo1, s14, s12);
    RcRepository::lemma_extends_transitive(repo1, s14, s13);
    RcRepository::lemma_term_node_stable(s11, repo1, axy1);
    RcRepository::lemma_term_node_stable(s12, repo1, nx1);
    RcRepository::lemma_term_node_stable(s13, repo1, ny1);
    RcRepository::lemma_term_node_stable(s14, repo1, ann1);
    // the second chain finds each node already interned
    RcRepository::lemma_intern_finds_existing(repo1, s21, Node::And(x, y), axy2, axy1);
    RcRepository::lemma_intern_finds_existing(s21, s22, Node::Not(x), nx2, nx1);
    RcRepository::lemma_intern_finds_existing(s22, s23, Node::Not(y), ny2, ny1);
    RcRepository::lemma_intern_finds_existing(s23, s24, Node::And(nx2, ny2), ann2, ann1);
    RcRepository::lemma_intern_finds_existing(s24, repo2, Node::Or(axy2, ann2), t2, t1);
}

} // verus!
