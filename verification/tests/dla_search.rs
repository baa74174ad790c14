use gsim::{DlaBuilder, DlaStep};
use DlaStep::{Commutator as C, Generator as G};

/// Runs the search, answering the `k`-th step with `answers[k]` (`false` past the
/// end), and returns the steps asked for, the numbers handed out, and the outcome.
fn run(basis: usize, dim: usize, answers: &[bool]) -> (Vec<DlaStep>, Vec<usize>, Vec<usize>, bool) {
    let mut search = DlaBuilder::new(basis, dim);
    let mut asked = Vec::new();
    let mut handed = Vec::new();
    while let Some(step) = search.next_step() {
        let answer = answers.get(asked.len()).copied().unwrap_or(false);
        asked.push(step);
        if let Some(id) = search.report(answer) {
            handed.push(id);
        }
    }
    let (result, normalize) = search.result();
    (asked, handed, result.clone(), normalize)
}

#[test]
fn no_generators_give_an_empty_algebra() {
    let (asked, handed, result, normalize) = run(0, 2, &[]);
    assert!(asked.is_empty());
    assert!(handed.is_empty());
    assert!(result.is_empty());
    assert!(normalize);
}

#[test]
fn one_generator_is_its_own_algebra() {
    let (asked, handed, result, normalize) = run(1, 2, &[true]);
    assert_eq!(asked, vec![G(0)]);
    assert_eq!(handed, vec![0]);
    assert_eq!(result, vec![0]);
    assert!(normalize);
}

#[test]
fn a_zero_generator_is_dropped() {
    let (asked, handed, result, normalize) = run(1, 2, &[false]);
    assert_eq!(asked, vec![G(0)]);
    assert!(handed.is_empty());
    assert!(result.is_empty());
    assert!(normalize);
}

#[test]
fn su2_from_two_generators() {
    // [iX, iZ] gives iY; its commutators with iX and iZ fall back into the span.
    let (asked, handed, result, normalize) = run(2, 2, &[true, true, true, false, false]);
    assert_eq!(asked, vec![G(1), G(0), C(1, 0), C(1, 2), C(0, 2)]);
    assert_eq!(handed, vec![1, 0, 2]);
    assert_eq!(result, vec![1, 0, 2]);
    assert!(normalize);
}

#[test]
fn a_generator_already_in_the_algebra_is_dropped() {
    // X, Z, Y: the commutator of the first two already gives the direction of Y.
    let (asked, handed, result, normalize) = run(3, 2, &[true, true, true, false, false, false]);
    assert_eq!(asked, vec![G(2), G(1), C(2, 1), C(2, 3), C(1, 3), G(0)]);
    assert_eq!(handed, vec![2, 1, 3]);
    assert_eq!(result, vec![2, 1, 3]);
    assert_eq!(result.len(), 3);
    assert!(normalize);
}

#[test]
fn search_stops_at_the_largest_dimension() {
    let (asked, handed, result, normalize) = run(2, 2, &[true; 5]);
    assert_eq!(asked, vec![G(1), G(0), C(1, 0), C(1, 2), C(0, 2)]);
    assert_eq!(handed, vec![1, 0, 2, 3]);
    assert_eq!(result, vec![1, 0, 2, 3]);
    assert!(!normalize);
}

#[test]
fn more_generators_than_dimensions_stay_within_the_largest_dimension() {
    let (_, _, result, normalize) = run(4, 2, &[true; 20]);
    assert_eq!(result.len(), 4);
    assert!(!normalize);
    let (_, _, result, _) = run(1, 0, &[true]);
    assert!(result.is_empty());
}

#[test]
fn generators_are_taken_from_the_last_one_down() {
    let (asked, handed, result, normalize) = run(3, 2, &[true, true, false, true, false, false]);
    assert_eq!(asked, vec![G(2), G(1), C(2, 1), G(0), C(2, 0), C(1, 0)]);
    assert_eq!(handed, vec![2, 1, 0]);
    assert_eq!(result, vec![2, 1, 0]);
    assert!(normalize);
}

#[test]
fn elements_found_together_are_commuted_with_each_other() {
    let answers = [true, true, true, true, true];
    let (asked, handed, result, normalize) = run(2, 3, &answers);
    assert_eq!(
        asked,
        vec![
            G(1),
            G(0),
            C(1, 0),
            C(1, 2),
            C(0, 2),
            C(1, 3),
            C(0, 3),
            C(2, 3),
            C(1, 4),
            C(0, 4),
            C(2, 4),
            C(3, 4),
        ]
    );
    assert_eq!(handed, vec![1, 0, 2, 3, 4]);
    assert_eq!(result, vec![1, 0, 2, 3, 4]);
    assert!(normalize);
}

#[test]
fn every_pair_of_the_result_is_examined_exactly_once() {
    let answers = [true, true, true, true, false, true, false, false, true];
    let (asked, _, result, normalize) = run(3, 4, &answers);
    assert!(normalize);
    assert!(result.len() <= 16);
    for (a, &x) in result.iter().enumerate() {
        for &y in result.iter().skip(a + 1) {
            let n = asked.iter().filter(|&&s| s == C(x, y) || s == C(y, x)).count();
            assert_eq!(n, 1, "commutator of {} and {}", x, y);
        }
    }
}

#[test]
fn round_progress_and_groups_follow_the_search() {
    let mut search = DlaBuilder::new(2, 2);
    assert_eq!(search.next_step(), Some(G(1)));
    assert!(search.old_group().is_empty());
    assert_eq!(search.round_progress(), (0, 0));
    assert_eq!(search.report(true), Some(1));
    assert_eq!(search.next_step(), Some(G(0)));
    assert_eq!(search.old_group(), &vec![1]);
    assert_eq!(search.report(true), Some(0));
    assert_eq!(search.old_group(), &vec![1, 0]);
    assert!(search.new_group().is_empty());
    assert_eq!(search.round_progress(), (0, 1));
    assert_eq!(search.fresh_id(), 2);
    assert!(!search.is_finished());
    assert_eq!(search.report(true), Some(2));
    assert_eq!(search.old_group(), &vec![1, 0, 2]);
    assert_eq!(search.round_progress(), (0, 2));
    assert_eq!(search.fresh_id(), 3);
    assert_eq!(search.report(false), None);
    assert_eq!(search.round_progress(), (1, 2));
    assert_eq!(search.report(false), None);
    assert!(search.is_finished());
    assert_eq!(search.next_step(), None);
}

#[test]
fn reports_until_the_end_need_few_steps() {
    // Every report lowers the work left, so even all-independent answers stop.
    let (asked, _, result, _) = run(3, 3, &[true; 1000]);
    assert!(asked.len() < 100);
    assert_eq!(result.len(), 9);
}
