use std::rc::Rc;

use boolean_algebra::accuracy::{compute_accuracy, compute_term_accuracy, AccuracyError};
use boolean_algebra::evaluate::{contexts_from_data, CharacterWindow, VariableAssignment};
use boolean_algebra::level::derive_alphabet_from_data;
use boolean_algebra::repository::RcRepository;

#[test]
fn next_character_biconditional() {
    let text = "abababababababababababababababab";
    let data: Rc<Vec<char>> = Rc::new(text.chars().collect());
    let alphabet = derive_alphabet_from_data(&data);
    let mut repo = RcRepository::new();
    let mut accuracies: Vec<(char, char, f64)> = Vec::new();
    for &current_character in alphabet.iter() {
        for &previous_character in alphabet.iter() {
            let current_variable = repo.character_in_window(0, current_character);
            let current_term = repo.var(current_variable);
            let previous_variable = repo.character_in_window(1, previous_character);
            let previous_term = repo.var(previous_variable);
            let conditional = repo.biconditional(previous_term, current_term);
            let contexts = contexts_from_data(data.clone());
            let accuracy = compute_term_accuracy(&repo, conditional, &contexts).unwrap();
            accuracies.push((
                previous_character,
                current_character,
                accuracy.hits as f64 / accuracy.total as f64,
            ));
        }
    }
    println!("{:?}", accuracies);
}

#[test]
fn periodic_biconditional_accuracy() {
    // Over the repeating sequence "abab...", pairing "a one before the
    // cursor" with "b at the cursor" by biconditional is always right,
    // while pairing "a one before" with "a at the cursor" is always
    // wrong.
    let text = "abababababababab";
    let data: Rc<Vec<char>> = Rc::new(text.chars().collect());
    let mut repo = RcRepository::new();
    let a1 = repo.character_in_window(1, 'a');
    let a1_term = repo.var(a1);
    let b0 = repo.character_in_window(0, 'b');
    let b0_term = repo.var(b0);
    let a0 = repo.character_in_window(0, 'a');
    let a0_term = repo.var(a0);
    let perfect = repo.biconditional(a1_term, b0_term);
    let alternating = repo.biconditional(a1_term, a0_term);
    let contexts = contexts_from_data(data.clone());
    let perfect_accuracy = compute_term_accuracy(&repo, perfect, &contexts).unwrap();
    assert_eq!(perfect_accuracy.hits, perfect_accuracy.total);
    assert_eq!(perfect_accuracy.hits as f64 / perfect_accuracy.total as f64, 1.0);
    let alternating_accuracy = compute_term_accuracy(&repo, alternating, &contexts).unwrap();
    assert_eq!(alternating_accuracy.hits, 0);
    assert_eq!(alternating_accuracy.hits as f64 / alternating_accuracy.total as f64, 0.0);
}

#[test]
fn term_and_table_accuracy_agree() {
    // Scoring a term and scoring its truth table count the same hits.
    let text = "xx x";
    let data: Rc<Vec<char>> = Rc::new(text.chars().collect());
    let mut repo = RcRepository::new();
    let va = repo.character_in_window(0, 'x');
    let vb = repo.character_in_window(1, 'x');
    let a = repo.var(va);
    let b = repo.var(vb);
    let a_and_b = repo.and(a, b);
    let table = a_and_b.compute_truth_table(&repo);
    let contexts = contexts_from_data(data.clone());
    let term_accuracy = compute_term_accuracy(&repo, a_and_b, &contexts).unwrap();
    let table_accuracy = compute_accuracy(&table, &contexts).unwrap();
    assert_eq!(term_accuracy, table_accuracy);
    // Only index 1 of "xx x" has an 'x' both at the cursor and one
    // position before it.
    assert_eq!(term_accuracy.hits, 1);
    assert_eq!(term_accuracy.total, 4);
}

#[test]
fn empty_context_stream_is_an_error() {
    let mut repo = RcRepository::new();
    let va = repo.character_in_window(0, 'a');
    let a = repo.var(va);
    let table = a.compute_truth_table(&repo);
    let no_windows: Vec<CharacterWindow> = Vec::new();
    assert!(matches!(
        compute_term_accuracy(&repo, a, &no_windows),
        Err(AccuracyError::NoContexts)
    ));
    let no_assignments: Vec<VariableAssignment> = Vec::new();
    assert!(matches!(
        compute_accuracy(&table, &no_assignments),
        Err(AccuracyError::NoContexts)
    ));
}
