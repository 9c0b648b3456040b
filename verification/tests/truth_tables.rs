use boolean_algebra::evaluate::{EvaluateIn, VariableAssignment};
use boolean_algebra::repository::{CharacterInWindow, RcRepository};

#[test]
fn evaluation_and_table_agree_on_assignments() {
    // For every assignment of a term's free variables, evaluating the
    // term directly and looking the assignment up in its truth table
    // return the same answer.
    let mut repo = RcRepository::new();
    let va = repo.get_or_create(CharacterInWindow::new('a', 0));
    let vb = repo.get_or_create(CharacterInWindow::new('b', 1));
    let a = repo.var(va);
    let b = repo.var(vb);
    let not_b = repo.not(b);
    let term = repo.or(a, not_b);
    let table = term.compute_truth_table(&repo);
    let cw_a = CharacterInWindow::new('a', 0);
    let cw_b = CharacterInWindow::new('b', 1);
    for &a_value in &[false, true] {
        for &b_value in &[false, true] {
            let mut assignment = VariableAssignment::new();
            assignment.set(cw_a, a_value);
            assignment.set(cw_b, b_value);
            assert_eq!(
                term.evaluate_in(&repo, &assignment),
                table.evaluate_in(&assignment)
            );
            assert_eq!(term.evaluate_in(&repo, &assignment), a_value || !b_value);
        }
    }
}

#[test]
fn experiment7_test_truth_table_correctly_derived() {
    let mut repo = RcRepository::new();
    let va = repo.get_or_create(CharacterInWindow::new('a', 0));
    let vb = repo.get_or_create(CharacterInWindow::new('b', 0));
    let a = repo.var(va);
    let b = repo.var(vb);
    let a_and_b = repo.and(a, b);
    let a_and_a = repo.and(a, a);
    let b_and_a = repo.and(b, a);
    let a_or_a = repo.or(a, a);
    let a_or_b = repo.or(a, b);
    let b_or_a = repo.or(b, a);
    let not_a = repo.not(a);
    let not_not_a = repo.not(not_a);
    println!("a {:#?}", a.compute_truth_table(&repo));
    println!("a & a {:#?}", a_and_a.compute_truth_table(&repo));
    assert_eq!(a.compute_truth_table(&repo), a_and_a.compute_truth_table(&repo));
    println!("a & b {:#?}", a_and_b.compute_truth_table(&repo));
    println!("b & a {:#?}", b_and_a.compute_truth_table(&repo));
    assert_eq!(a_and_b.compute_truth_table(&repo), b_and_a.compute_truth_table(&repo));
    println!("a | a {:#?}", a_or_a.compute_truth_table(&repo));
    assert_eq!(a.compute_truth_table(&repo), a_or_a.compute_truth_table(&repo));
    println!("a | b {:#?}", a_or_b.compute_truth_table(&repo));
    println!("b | a {:#?}", b_or_a.compute_truth_table(&repo));
    assert_eq!(a_or_b.compute_truth_table(&repo), b_or_a.compute_truth_table(&repo));
    println!("!a {:#?}", not_a.compute_truth_table(&repo));
    println!("!!a {:#?}", not_not_a.compute_truth_table(&repo));
    assert_eq!(a.compute_truth_table(&repo), not_not_a.compute_truth_table(&repo));
}

#[test]
fn boolean_algebra_test_truth_table_correctly_derived() {
    let mut repo = RcRepository::new();
    let va = repo.get_or_create(CharacterInWindow::new('a', 0));
    let vb = repo.get_or_create(CharacterInWindow::new('b', 0));
    let a = repo.var(va);
    let b = repo.var(vb);
    let a_and_b = repo.and(a, b);
    let a_and_a = repo.and(a, a);
    let b_and_a = repo.and(b, a);
    let a_or_a = repo.or(a, a);
    let a_or_b = repo.or(a, b);
    let b_or_a = repo.or(b, a);
    let not_a = repo.not(a);
    let not_not_a = repo.not(not_a);
    println!("a {:#?}", a.compute_truth_table(&repo));
    println!("a & a {:#?}", a_and_a.compute_truth_table(&repo));
    assert_eq!(a.compute_truth_table(&repo), a_and_a.compute_truth_table(&repo));
    println!("a & b {:#?}", a_and_b.compute_truth_table(&repo));
    println!("b & a {:#?}", b_and_a.compute_truth_table(&repo));
    assert_eq!(a_and_b.compute_truth_table(&repo), b_and_a.compute_truth_table(&repo));
    println!("a | a {:#?}", a_or_a.compute_truth_table(&repo));
    assert_eq!(a.compute_truth_table(&repo), a_or_a.compute_truth_table(&repo));
    println!("a | b {:#?}", a_or_b.compute_truth_table(&repo));
    println!("b | a {:#?}", b_or_a.compute_truth_table(&repo));
    assert_eq!(a_or_b.compute_truth_table(&repo), b_or_a.compute_truth_table(&repo));
    println!("!a {:#?}", not_a.compute_truth_table(&repo));
    println!("!!a {:#?}", not_not_a.compute_truth_table(&repo));
    assert_eq!(a.compute_truth_table(&repo), not_not_a.compute_truth_table(&repo));
}

#[test]
fn experiment7_test_evaluate_truth_table() {
    let mut repo = RcRepository::new();
    let va = repo.get_or_create(CharacterInWindow::new('a', 0));
    let vb = repo.get_or_create(CharacterInWindow::new('b', 0));
    let a = repo.var(va);
    let b = repo.var(vb);
    let a_and_b = repo.and(a, b);
    let a_or_b = repo.or(a, b);
    let not_a = repo.not(a);
    let cw_a = CharacterInWindow::new('a', 0);
    let cw_b = CharacterInWindow::new('b', 0);
    let mut a_true = VariableAssignment::new();
    a_true.set(cw_a, true);
    let mut a_false = VariableAssignment::new();
    a_false.set(cw_a, false);
    let mut tt = VariableAssignment::new();
    tt.set(cw_a, true);
    tt.set(cw_b, true);
    let mut tf = VariableAssignment::new();
    tf.set(cw_a, true);
    tf.set(cw_b, false);
    let mut ft = VariableAssignment::new();
    ft.set(cw_a, false);
    ft.set(cw_b, true);
    let mut ff = VariableAssignment::new();
    ff.set(cw_a, false);
    ff.set(cw_b, false);
    assert_eq!(a.compute_truth_table(&repo).evaluate_in(&a_true), true);
    assert_eq!(a.compute_truth_table(&repo).evaluate_in(&a_false), false);
    assert_eq!(a_and_b.compute_truth_table(&repo).evaluate_in(&tt), true);
    assert_eq!(a_and_b.compute_truth_table(&repo).evaluate_in(&tf), false);
    assert_eq!(a_and_b.compute_truth_table(&repo).evaluate_in(&ft), false);
    assert_eq!(a_and_b.compute_truth_table(&repo).evaluate_in(&ff), false);
    assert_eq!(a_or_b.compute_truth_table(&repo).evaluate_in(&tt), true);
    assert_eq!(a_or_b.compute_truth_table(&repo).evaluate_in(&tf), true);
    assert_eq!(a_or_b.compute_truth_table(&repo).evaluate_in(&ft), true);
    assert_eq!(a_or_b.compute_truth_table(&repo).evaluate_in(&ff), false);
    assert_eq!(not_a.compute_truth_table(&repo).evaluate_in(&a_true), false);
    assert_eq!(not_a.compute_truth_table(&repo).evaluate_in(&a_false), true);
}

#[test]
fn boolean_algebra_test_evaluate_truth_table() {
    let mut repo = RcRepository::new();
    let va = repo.get_or_create(CharacterInWindow::new('a', 0));
    let vb = repo.get_or_create(CharacterInWindow::new('b', 0));
    let a = repo.var(va);
    let b = repo.var(vb);
    let a_and_b = repo.and(a, b);
    let a_or_b = repo.or(a, b);
    let not_a = repo.not(a);
    let cw_a = CharacterInWindow::new('a', 0);
    let cw_b = CharacterInWindow::new('b', 0);
    let mut a_true = VariableAssignment::new();
    a_true.set(cw_a, true);
    let mut a_false = VariableAssignment::new();
    a_false.set(cw_a, false);
    let mut tt = VariableAssignment::new();
    tt.set(cw_a, true);
    tt.set(cw_b, true);
    let mut tf = VariableAssignment::new();
    tf.set(cw_a, true);
    tf.set(cw_b, false);
    let mut ft = VariableAssignment::new();
    ft.set(cw_a, false);
    ft.set(cw_b, true);
    let mut ff = VariableAssignment::new();
    ff.set(cw_a, false);
    ff.set(cw_b, false);
    assert_eq!(a.compute_truth_table(&repo).evaluate_in(&a_true), true);
    assert_eq!(a.compute_truth_table(&repo).evaluate_in(&a_false), false);
    assert_eq!(a_and_b.compute_truth_table(&repo).evaluate_in(&tt), true);
    assert_eq!(a_and_b.compute_truth_table(&repo).evaluate_in(&tf), false);
    assert_eq!(a_and_b.compute_truth_table(&repo).evaluate_in(&ft), false);
    assert_eq!(a_and_b.compute_truth_table(&repo).evaluate_in(&ff), false);
    assert_eq!(a_or_b.compute_truth_table(&repo).evaluate_in(&tt), true);
    assert_eq!(a_or_b.compute_truth_table(&repo).evaluate_in(&tf), true);
    assert_eq!(a_or_b.compute_truth_table(&repo).evaluate_in(&ft), true);
    assert_eq!(a_or_b.compute_truth_table(&repo).evaluate_in(&ff), false);
    assert_eq!(not_a.compute_truth_table(&repo).evaluate_in(&a_true), false);
    assert_eq!(not_a.compute_truth_table(&repo).evaluate_in(&a_false), true);
}

#[test]
fn and_truth_table_rows_for_two_variables() {
    // Variables A = "x at offset 0" and B = "x at offset 1" over the
    // sequence "xx x": the table of and(A, B) has 4 rows, and only the
    // row where both variables are true holds.
    let mut repo = RcRepository::new();
    let va = repo.character_in_window(0, 'x');
    let vb = repo.character_in_window(1, 'x');
    let a = repo.var(va);
    let b = repo.var(vb);
    let a_and_b = repo.and(a, b);
    let table = a_and_b.compute_truth_table(&repo);
    assert_eq!(table.variable_count(), 2);
    assert_eq!(table.row_count(), 4);
    // Sorted by character then offset, A is variable 0 and B variable 1,
    // so the row with A = true and B = true has index 3.
    assert_eq!(table.result_at(0), false);
    assert_eq!(table.result_at(1), false);
    assert_eq!(table.result_at(2), false);
    assert_eq!(table.result_at(3), true);
}

#[test]
fn single_variable_table_has_two_rows() {
    // The smallest table this constructor set can produce: one free
    // variable, two rows, handled without any special case.
    let mut repo = RcRepository::new();
    let va = repo.character_in_window(0, 'q');
    let a = repo.var(va);
    let table = a.compute_truth_table(&repo);
    assert_eq!(table.variable_count(), 1);
    assert_eq!(table.row_count(), 2);
    assert_eq!(table.result_at(0), false);
    assert_eq!(table.result_at(1), true);
}

#[test]
fn derived_connectives_truth_tables() {
    // conditional(a, b) is or(not(a), b); biconditional(a, b) is
    // or(and(a, b), and(not(a), not(b))). With 'a' sorted before 'b',
    // bit 0 of the row index is a's value and bit 1 is b's.
    let mut repo = RcRepository::new();
    let va = repo.character_in_window(0, 'a');
    let vb = repo.character_in_window(0, 'b');
    let a = repo.var(va);
    let b = repo.var(vb);
    let a_implies_b = repo.conditional(a, b);
    let a_iff_b = repo.biconditional(a, b);
    let implies_table = a_implies_b.compute_truth_table(&repo);
    assert_eq!(implies_table.row_count(), 4);
    assert_eq!(implies_table.result_at(0), true);
    assert_eq!(implies_table.result_at(1), false);
    assert_eq!(implies_table.result_at(2), true);
    assert_eq!(implies_table.result_at(3), true);
    let iff_table = a_iff_b.compute_truth_table(&repo);
    assert_eq!(iff_table.row_count(), 4);
    assert_eq!(iff_table.result_at(0), true);
    assert_eq!(iff_table.result_at(1), false);
    assert_eq!(iff_table.result_at(2), false);
    assert_eq!(iff_table.result_at(3), true);
}
