use lib::support::{Arena, NodeView, Operation, Status, Support, Work};

fn finish(arena: &mut Arena, operation: Operation) -> Support {
    let mut job = arena.job(operation);
    for _ in 0..10_000 {
        if let Status::Complete(result) = job.tick(arena) {
            return result;
        }
    }
    panic!("finite apply did not complete");
}

fn table(arena: &Arena, s: Support) -> u8 {
    let mut bits = 0;
    for row in 0..8 {
        let assignment = [row & 1 != 0, row & 2 != 0, row & 4 != 0];
        if arena.eval(s, &assignment) {
            bits |= 1 << row;
        }
    }
    bits
}

#[test]
fn canonical_reduction_and_complement_have_boolean_meaning() {
    let f = Support::false_handle();
    let t = Support::true_handle();
    let mut arena = Arena::new();
    let (x_id, x) = arena.fresh_variable();
    let (y_id, y) = arena.fresh_variable();
    assert_eq!(arena.mk(x_id, f, t), x);
    assert_eq!(arena.mk(x_id, y, y), y);
    let nx = finish(&mut arena, Operation::Not(x));
    assert_eq!(finish(&mut arena, Operation::And(x, nx)), f);
    assert_eq!(finish(&mut arena, Operation::Or(x, nx)), t);
    let ny = finish(&mut arena, Operation::Not(y));
    assert_eq!(
        finish(&mut arena, Operation::Difference(x, y)),
        finish(&mut arena, Operation::And(x, ny))
    );
    assert_eq!(arena.max_variable(nx), Some(x_id));
    let both = finish(&mut arena, Operation::And(x, y));
    assert_eq!(arena.max_variable(both), Some(y_id));
    assert!(!arena.eval(both, &[true, false]));
    assert!(arena.eval(both, &[true, true]));
}

#[test]
fn independent_jobs_interleave_and_finished_jobs_do_no_more_work() {
    let mut arena = Arena::new();
    let (_, x) = arena.fresh_variable();
    let (_, y) = arena.fresh_variable();
    let mut conjunction = arena.job(Operation::And(x, y));
    let mut disjunction = arena.job(Operation::Or(x, y));
    assert!(matches!(conjunction.tick(&mut arena), Status::Pending));
    assert!(matches!(disjunction.tick(&mut arena), Status::Pending));
    let mut and = None;
    let mut or = None;
    for _ in 0..100 {
        if let Status::Complete(value) = conjunction.tick(&mut arena) {
            and = Some(value);
        }
        if let Status::Complete(value) = disjunction.tick(&mut arena) {
            or = Some(value);
        }
        if and.is_some() && or.is_some() {
            break;
        }
    }
    let (and, or) = (and.unwrap(), or.unwrap());
    assert!(!arena.eval(and, &[false, true]));
    assert!(arena.eval(or, &[false, true]));
    let before = conjunction.work();
    assert_eq!(conjunction.tick(&mut arena), Status::Complete(and));
    assert_eq!(conjunction.work(), before);
}

#[test]
fn long_negation_yields_with_at_most_one_node_allocation_per_tick() {
    let mut arena = Arena::new();
    for _ in 0..64 {
        arena.fresh_variable();
    }
    let input = (0..64)
        .rev()
        .fold(Support::true_handle(), |tail, variable| {
            arena.mk(variable, Support::false_handle(), tail)
        });
    let mut job = arena.job(Operation::Not(input));
    let mut ticks = 0;
    let result = loop {
        let before = arena.node_count();
        let status = job.tick(&mut arena);
        ticks += 1;
        assert!(arena.node_count() - before <= 1);
        assert!(ticks < 1000);
        if let Status::Complete(result) = status {
            break result;
        }
    };
    assert!(ticks > 64, "the nontrivial traversal must remain resumable");
    assert!(!arena.eval(result, &[true; 64]));
    assert!(arena.eval(result, &[false; 64]));
    assert_eq!(arena.max_variable(result), Some(63));
    assert_eq!(job.work(), Work::default());
}

#[test]
fn every_three_variable_function_and_pair_matches_independent_truth_tables() {
    let mut arena = Arena::new();
    for _ in 0..3 {
        arena.fresh_variable();
    }
    // Build by Shannon branches directly; expected results use integer bit operations.
    let mut handles = vec![];
    for mask in 0u16..256 {
        let mut leaves: Vec<_> = (0..8)
            .map(|row| {
                if mask & (1 << row) != 0 {
                    Support::true_handle()
                } else {
                    Support::false_handle()
                }
            })
            .collect();
        for variable in (0..3).rev() {
            let half = leaves.len() / 2;
            leaves = (0..half)
                .map(|i| arena.mk(variable, leaves[i], leaves[i + half]))
                .collect();
        }
        handles.push(leaves[0]);
        assert_eq!(table(&arena, leaves[0]), mask as u8);
    }
    for (a, &left) in handles.iter().enumerate() {
        let neg = finish(&mut arena, Operation::Not(left));
        assert_eq!(table(&arena, neg), !(a as u8));
        for (b, &right) in handles.iter().enumerate() {
            for (op, expected) in [
                (Operation::And(left, right), (a & b) as u8),
                (Operation::Or(left, right), (a | b) as u8),
                (Operation::Difference(left, right), (a & !b) as u8),
            ] {
                let result = finish(&mut arena, op);
                assert_eq!(table(&arena, result), expected);
                assert_eq!(
                    result, handles[expected as usize],
                    "canonical result differs"
                );
            }
        }
    }
}

#[test]
fn cancelled_boolean_job_leaves_valid_nodes_for_interleaving_and_restart() {
    let mut arena = Arena::new();
    for _ in 0..6 {
        arena.fresh_variable();
    }
    let mut conjunction = Support::true_handle();
    for variable in (0..6).rev() {
        conjunction = arena.mk(variable, Support::false_handle(), conjunction);
    }
    let before = arena.node_count();
    let mut cancelled = arena.job(Operation::Not(conjunction));
    let mut reached = false;
    for _ in 0..100 {
        let state = cancelled.tick(&mut arena);
        if arena.node_count() > before && matches!(state, Status::Pending) {
            reached = true;
            break;
        }
    }
    assert!(
        reached,
        "exercise cancellation after real intermediate construction"
    );
    drop(cancelled);
    let unrelated = finish(&mut arena, Operation::Or(conjunction, Support::true_handle()));
    assert_eq!(unrelated, Support::true_handle());
    let restarted = finish(&mut arena, Operation::Not(conjunction));
    for row in 0..64 {
        let assignment: Vec<_> = (0..6).map(|bit| row & (1 << bit) != 0).collect();
        assert_eq!(arena.eval(restarted, &assignment), row != 63);
    }
}

#[test]
fn terminal_handles_have_fixed_indices_and_views() {
    let arena = Arena::new();
    assert_eq!(Support::false_handle().index(), 0);
    assert_eq!(Support::true_handle().index(), 1);
    assert_eq!(arena.inspect(Support::false_handle()), NodeView::False);
    assert_eq!(arena.inspect(Support::true_handle()), NodeView::True);
    assert_eq!(arena.node_count(), 2);
    assert_eq!(arena.variable_count(), 0);
    assert_eq!(arena.max_variable(Support::true_handle()), None);
}

#[test]
fn fresh_variable_is_its_projection_and_mk_reuses_nodes() {
    let mut arena = Arena::new();
    let (x_id, x) = arena.fresh_variable();
    let (y_id, y) = arena.fresh_variable();
    assert_eq!((x_id, y_id), (0, 1));
    assert_eq!(arena.variable_count(), 2);
    assert_eq!(
        arena.inspect(x),
        NodeView::Branch {
            variable: 0,
            low: Support::false_handle(),
            high: Support::true_handle()
        }
    );
    let count = arena.node_count();
    let again = arena.mk(y_id, Support::false_handle(), Support::true_handle());
    assert_eq!(again, y);
    assert_eq!(arena.node_count(), count);
    let fresh = arena.mk(x_id, y, Support::true_handle());
    assert_eq!(arena.node_count(), count + 1);
    assert_eq!(fresh.index(), count);
    // x or y: true unless both are false.
    assert!(!arena.eval(fresh, &[false, false]));
    assert!(arena.eval(fresh, &[false, true]));
    assert!(arena.eval(fresh, &[true, false]));
    // The path through a true `x` never reads `y`.
    assert!(arena.eval(fresh, &[true]));
}

#[test]
fn operations_on_terminals_complete_in_one_tick() {
    let mut arena = Arena::new();
    let f = Support::false_handle();
    let t = Support::true_handle();
    for (op, expected) in [
        (Operation::Not(f), t),
        (Operation::Not(t), f),
        (Operation::And(t, f), f),
        (Operation::Or(f, t), t),
        (Operation::Difference(t, f), t),
        (Operation::Difference(t, t), f),
    ] {
        let mut job = arena.job(op);
        assert_eq!(job.tick(&mut arena), Status::Complete(expected));
        assert_eq!(job.tick(&mut arena), Status::Complete(expected));
    }
    assert_eq!(arena.node_count(), 2);
}
