use std::rc::Rc;

use boolean_algebra::evaluate::{contexts_from_data, CharacterWindow, EvaluateVariableIn};
use boolean_algebra::level::{create_new_level_terms, derive_alphabet_from_data, get_input_variables};
use boolean_algebra::repository::{CharacterInWindow, RcRepository};
use boolean_algebra::text::HumanReadable;

#[test]
fn interning_is_idempotent() {
    let mut repo = RcRepository::new();
    let v1 = repo.get_or_create(CharacterInWindow::new('a', 0));
    let v2 = repo.get_or_create(CharacterInWindow::new('a', 0));
    assert_eq!(v1, v2);
    assert_eq!(repo.num_variables(), 1);
    let t1 = repo.var(v1);
    let t2 = repo.var(v2);
    assert_eq!(t1, t2);
    assert_eq!(repo.num_terms(), 1);
    let and1 = repo.and(t1, t2);
    let and2 = repo.and(t2, t1);
    assert_eq!(and1, and2);
    let not1 = repo.not(t1);
    let not2 = repo.not(t2);
    assert_eq!(not1, not2);
    assert_eq!(repo.num_terms(), 3);
    let other = repo.get_or_create(CharacterInWindow::new('a', 1));
    assert_ne!(v1, other);
    assert_eq!(repo.num_variables(), 2);
}

#[test]
fn level_generation_count_bound() {
    // From two distinct input variables, one level interns exactly one
    // negation each and a conjunction and disjunction per ordered pair:
    // 2 + 4 + 4 = 10 distinct new terms, which meets the n + 2 n^2 bound.
    let mut repo = RcRepository::new();
    let va = repo.character_in_window(0, 'a');
    let vb = repo.character_in_window(0, 'b');
    let a = repo.var(va);
    let b = repo.var(vb);
    let existing = vec![a, b];
    let terms_before = repo.num_terms();
    let new_terms = create_new_level_terms(&mut repo, &existing);
    assert_eq!(new_terms.len(), 10);
    assert!(new_terms.len() <= 2 + 2 * 2 * 2);
    assert_eq!(repo.num_terms(), terms_before + 10);
    // A second round over the same inputs interns nothing new.
    let again = create_new_level_terms(&mut repo, &existing);
    assert_eq!(again.len(), 10);
    assert_eq!(repo.num_terms(), terms_before + 10);
}

#[test]
fn input_variables_cover_alphabet_and_window() {
    let mut repo = RcRepository::new();
    let alphabet = vec!['a', 'b'];
    let terms = get_input_variables(&mut repo, &alphabet, 3);
    assert_eq!(terms.len(), 6);
    assert_eq!(repo.num_variables(), 6);
    assert_eq!(repo.num_terms(), 6);
}

#[test]
fn alphabet_is_distinct_characters_in_order() {
    let data: Vec<char> = "abab".chars().collect();
    let alphabet = derive_alphabet_from_data(&data);
    assert_eq!(alphabet, vec!['a', 'b']);
}

#[test]
fn offset_past_cursor_evaluates_to_false() {
    // A variable whose offset reaches past the start of the sequence is
    // false at the very first position; it does not err.
    let data: Rc<Vec<char>> = Rc::new("xy".chars().collect());
    let contexts = contexts_from_data(data.clone());
    let v = CharacterInWindow::new('x', 1);
    assert_eq!(v.evaluate_variable_in(&contexts[0]), false);
    // At index 1 the same variable looks at index 0 and finds its 'x'.
    assert_eq!(v.evaluate_variable_in(&contexts[1]), true);
    // An index beyond every offset in an explicit window.
    let far = CharacterWindow { data: data.clone(), index: 1 };
    assert_eq!(CharacterInWindow::new('y', 3).evaluate_variable_in(&far), false);
}

#[test]
fn human_readable_labels() {
    let mut repo = RcRepository::new();
    let va = repo.character_in_window(2, 'a');
    let a = repo.var(va);
    let vb = repo.character_in_window(0, 'b');
    let b = repo.var(vb);
    let not_a = repo.not(a);
    let a_and_b = repo.and(a, b);
    let a_or_b = repo.or(a, b);
    assert_eq!(CharacterInWindow::new('a', 2).human_readable(), "2a");
    assert_eq!(CharacterInWindow::new('q', 10).human_readable(), "10q");
    assert_eq!(a.human_readable(&repo), "2a");
    assert_eq!(not_a.human_readable(&repo), "\u{ac}2a");
    assert_eq!(a_and_b.human_readable(&repo), "(2a \u{2227} 0b)");
    assert_eq!(a_or_b.human_readable(&repo), "(2a \u{2228} 0b)");
}

#[test]
fn contexts_share_the_data() {
    let data: Rc<Vec<char>> = Rc::new("abc".chars().collect());
    let contexts = contexts_from_data(data.clone());
    assert_eq!(contexts.len(), 3);
    for (i, context) in contexts.iter().enumerate() {
        assert_eq!(context.index, i);
        assert_eq!(*context.data, *data);
    }
}

#[test]
fn derived_constructors_are_canonical() {
    // conditional and biconditional are built from the base constructors
    // alone, so calling them twice with the same terms returns the very
    // same handle and interns nothing new.
    let mut repo = RcRepository::new();
    let va = repo.character_in_window(0, 'a');
    let vb = repo.character_in_window(0, 'b');
    let a = repo.var(va);
    let b = repo.var(vb);
    let c1 = repo.conditional(a, b);
    let terms_after_first = repo.num_terms();
    // var a, var b, not(a), or(not(a), b)
    assert_eq!(terms_after_first, 4);
    let c2 = repo.conditional(a, b);
    assert_eq!(c1, c2);
    assert_eq!(repo.num_terms(), terms_after_first);
    let b1 = repo.biconditional(a, b);
    let terms_after_bicond = repo.num_terms();
    // adds and(a, b), not(b), and(not(a), not(b)), or of the two ands
    assert_eq!(terms_after_bicond, 8);
    let b2 = repo.biconditional(a, b);
    assert_eq!(b1, b2);
    assert_eq!(repo.num_terms(), terms_after_bicond);
}
