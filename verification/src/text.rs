//! Human-readable labels for variables and terms, fit for tabular reports.

use vstd::prelude::*;

use crate::repository::{CharacterInWindow, Node, RcRepository, Term};

verus! {

/// Relies on std's `String::push`: it appends the given character to the
/// end of the string.
pub assume_specification[ String::push ](s: &mut String, ch: char)
    ensures
        final(s)@ == old(s)@.push(ch),
;

/// The decimal digit character for a value below ten.
pub open spec fn digit_char(d: nat) -> char {
    if d == 0 {
        '0'
    } else if d == 1 {
        '1'
    } else if d == 2 {
        '2'
    } else if d == 3 {
        '3'
    } else if d == 4 {
        '4'
    } else if d == 5 {
        '5'
    } else if d == 6 {
        '6'
    } else if d == 7 {
        '7'
    } else if d == 8 {
        '8'
    } else {
        '9'
    }
}

/// The decimal digits of a number, most significant first.
pub open spec fn dec_digits(n: nat) -> Seq<char>
    decreases n,
{
    if n < 10 {
        seq![digit_char(n)]
    } else {
        dec_digits(n / 10).push(digit_char(n % 10))
    }
}

/// The decimal representation of a number.
pub fn usize_to_string(n: usize) -> (s: String)
    ensures
        s@ == dec_digits(n as nat),
{
    let ghost full = dec_digits(n as nat);
    let mut digits: Vec<char> = Vec::new();
    let mut rest: usize = n;
    while rest >= 10
        invariant
            full == dec_digits(n as nat),
            full.len() == dec_digits(rest as nat).len() + digits@.len(),
            full.subrange(0, dec_digits(rest as nat).len() as int) == dec_digits(rest as nat),
            forall|k: int|
                0 <= k < digits@.len() ==> full[full.len() - 1 - k] == #[trigger] digits@[k],
        decreases rest,
    {
        let d = rest % 10;
        let ghost pre_digits = digits@;
        let ghost pre_rest = rest as nat;
        digits.push(digit_char_exec(d));
        rest = rest / 10;
        proof {
            assert(dec_digits(pre_rest) == dec_digits(rest as nat).push(
                digit_char(pre_rest % 10),
            ));
            let lr = dec_digits(rest as nat).len() as int;
            assert(full.subrange(0, lr + 1) == dec_digits(pre_rest));
            assert(dec_digits(pre_rest)[lr] == digit_char(pre_rest % 10));
            assert(full.subrange(0, lr + 1)[lr] == full[lr]);
            assert(full.subrange(0, lr) =~= full.subrange(0, lr + 1).subrange(0, lr));
            assert(full[lr] == digit_char(pre_rest % 10));
            assert(full.len() - 1 - pre_digits.len() == lr);
        }
    }
    let mut s = String::new();
    proof {
        assert(dec_digits(rest as nat) == seq![digit_char(rest as nat)]);
        assert(full.subrange(0, 1) == dec_digits(rest as nat));
        assert(full.subrange(0, 1)[0] == full[0]);
        assert(full[0] == digit_char(rest as nat));
        assert(full.len() == 1 + digits@.len());
    }
    s.push(digit_char_exec(rest));
    proof {
        assert(s@ =~= full.subrange(0, 1));
    }
    let mut i: usize = digits.len();
    while i > 0
        invariant
            i <= digits@.len(),
            full.len() == 1 + digits@.len(),
            forall|k: int|
                0 <= k < digits@.len() ==> full[full.len() - 1 - k] == #[trigger] digits@[k],
            s@ == full.subrange(0, full.len() - i),
        decreases i,
    {
        i = i - 1;
        let c = digits[i];
        s.push(c);
        proof {
            assert(full[full.len() - 1 - i] == c);
            assert(s@ =~= full.subrange(0, full.len() - i));
        }
    }
    proof {
        assert(full.subrange(0, full.len() as int) =~= full);
    }
    s
}

/// The digit character of a value below ten.
fn digit_char_exec(d: usize) -> (c: char)
    requires
        d < 10,
    ensures
        c == digit_char(d as nat),
{
    if d == 0 {
        '0'
    } else if d == 1 {
        '1'
    } else if d == 2 {
        '2'
    } else if d == 3 {
        '3'
    } else if d == 4 {
        '4'
    } else if d == 5 {
        '5'
    } else if d == 6 {
        '6'
    } else if d == 7 {
        '7'
    } else if d == 8 {
        '8'
    } else {
        '9'
    }
}

/// A value that can present itself as text.
pub trait HumanReadable {
    /// The text, as a sequence of characters.
    spec fn spec_human_readable(&self) -> Seq<char>;

    fn human_readable(&self) -> (s: String)
        ensures
            s@ == self.spec_human_readable(),
    ;
}

impl HumanReadable for CharacterInWindow {
    /// The negative offset in decimal, then the character itself.
    open spec fn spec_human_readable(&self) -> Seq<char> {
        dec_digits(self.spec_negative_offset()).push(self.spec_character())
    }

    fn human_readable(&self) -> (s: String) {
        let mut s = usize_to_string(self.negative_offset());
        s.push(self.character());
        s
    }
}

impl RcRepository {
    /// The label of node `i`: a variable prints as its own label, a
    /// negation with a prefixed sign, a pair in parentheses around its
    /// connective.
    pub open spec fn label_at(self, i: int) -> Seq<char>
        decreases i,
        when self.wf() && 0 <= i < self.spec_nodes().len()
    {
        match self.spec_nodes()[i] {
            Node::Var(v) => self.spec_variables()[v.spec_id() as int].spec_human_readable(),
            Node::Not(x) => seq!['\u{ac}'] + self.label_at(x.spec_id() as int),
            Node::And(x, y) => seq!['('] + self.label_at(x.spec_id() as int) + seq![
                ' ',
                '\u{2227}',
                ' ',
            ] + self.label_at(y.spec_id() as int) + seq![')'],
            Node::Or(x, y) => seq!['('] + self.label_at(x.spec_id() as int) + seq![
                ' ',
                '\u{2228}',
                ' ',
            ] + self.label_at(y.spec_id() as int) + seq![')'],
        }
    }

    /// The label of a term.
    pub open spec fn term_label(self, t: Term) -> Seq<char> {
        self.label_at(t.spec_id() as int)
    }
}

impl Term {
    /// Render this term as text: `2a` for the variable "a two before the
    /// cursor", `\u{ac}x` for a negation, `(x \u{2227} y)` and
    /// `(x \u{2228} y)` for the pairs.
    pub fn human_readable(&self, repo: &RcRepository) -> (s: String)
        requires
            repo.wf(),
            repo.valid_term(*self),
        ensures
            s@ == repo.term_label(*self),
        decreases self.spec_id(),
    {
        proof {
            assert(crate::repository::node_wf(
                repo.term_node(*self),
                self.spec_id() as int,
                repo.var_count() as int,
            ));
        }
        let n = repo.node(*self);
        match n {
            Node::Var(v) => {
                let value = repo.variable_value(v);
                value.human_readable()
            },
            Node::Not(x) => {
                let mut s = String::new();
                s.push('\u{ac}');
                let inner = x.human_readable(repo);
                s.append(inner.as_str());
                proof {
                    assert(s@ =~= seq!['\u{ac}'] + repo.term_label(x));
                }
                s
            },
            Node::And(x, y) => {
                let mut s = String::new();
                s.push('(');
                let lx = x.human_readable(repo);
                s.append(lx.as_str());
                s.push(' ');
                s.push('\u{2227}');
                s.push(' ');
                let ly = y.human_readable(repo);
                s.append(ly.as_str());
                s.push(')');
                proof {
                    assert(s@ =~= seq!['('] + repo.term_label(x) + seq![' ', '\u{2227}', ' ']
                        + repo.term_label(y) + seq![')']);
                }
                s
            },
            Node::Or(x, y) => {
                let mut s = String::new();
                s.push('(');
                let lx = x.human_readable(repo);
                s.append(lx.as_str());
                s.push(' ');
                s.push('\u{2228}');
                s.push(' ');
                let ly = y.human_readable(repo);
                s.append(ly.as_str());
                s.push(')');
                proof {
                    assert(s@ =~= seq!['('] + repo.term_label(x) + seq![' ', '\u{2228}', ' ']
                        + repo.term_label(y) + seq![')']);
                }
                s
            },
        }
    }
}

} // verus!
