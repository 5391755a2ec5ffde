use lib::equality::{Context, Graph};

fn cube(literals: &[(usize, bool)]) -> Context {
    let mut c = Context::top();
    for &(label, arm) in literals {
        c = c.select(label, arm).unwrap();
    }
    c
}

/// Every world over `labels` labels, as arm vectors.
fn worlds(labels: usize) -> Vec<Vec<bool>> {
    (0..1usize << labels)
        .map(|bits| (0..labels).map(|i| bits & (1 << i) != 0).collect())
        .collect()
}

fn count_covering(regions: &[Context], world: &[bool]) -> usize {
    regions.iter().filter(|r| r.contains(world)).count()
}

#[test]
fn select_fixes_an_arm_once() {
    let c = cube(&[(0, true)]);
    assert_eq!(c.arm(0), Some(true));
    assert_eq!(c.arm(1), None);
    assert!(c.select(0, false).is_none());
    let same = c.select(0, true).unwrap();
    assert_eq!(same.arm(0), Some(true));
    assert!(c.contains(&[true, false]));
    assert!(!c.contains(&[false, true]));
}

#[test]
fn intersection_of_conflicting_cubes_is_empty() {
    let a = cube(&[(0, true), (1, false)]);
    let b = cube(&[(1, true)]);
    assert!(a.intersection(&b).is_none());
    let c = cube(&[(2, true)]);
    let both = a.intersection(&c).unwrap();
    for w in worlds(3) {
        assert_eq!(both.contains(&w), a.contains(&w) && c.contains(&w));
    }
}

#[test]
fn subtraction_partitions_the_difference() {
    let a = cube(&[(0, true)]);
    let b = cube(&[(1, true), (2, false)]);
    let parts = a.subtract(&b);
    assert_eq!(parts.len(), 2);
    for w in worlds(3) {
        let expected = a.contains(&w) && !b.contains(&w);
        assert_eq!(count_covering(&parts, &w), if expected { 1 } else { 0 });
    }
    // A cube inside the subtrahend leaves nothing.
    assert!(cube(&[(1, true), (2, false), (0, true)]).subtract(&b).is_empty());
}

#[test]
fn failure_regions_are_disjoint_and_live_regions_avoid_them() {
    let mut graph = Graph::new();
    graph.fail(&cube(&[(0, true)]));
    graph.fail(&cube(&[(1, true)]));
    graph.fail(&cube(&[(0, true), (1, true)]));
    assert_eq!(graph.failed_count(), 2);
    let everything = Context::top();
    let live = graph.live(&everything);
    for w in worlds(2) {
        let failed = w[0] || w[1];
        assert_eq!(count_covering(&live, &w), if failed { 0 } else { 1 });
    }
    let inside = graph.live(&cube(&[(1, false)]));
    for w in worlds(2) {
        let expected = !w[1] && !w[0];
        assert_eq!(count_covering(&inside, &w), if expected { 1 } else { 0 });
    }
}
