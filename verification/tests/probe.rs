use lib::probe::{prepare, Head, Template};

fn slot(s: usize) -> Template {
    Template::Slot(s)
}

fn app(name: &str, args: Vec<Template>) -> Template {
    Template::App(name.to_string(), args)
}

#[test]
fn heads_sharing_a_slot_probe_each_other_forward_only() {
    let heads = vec![
        Head { pred: 0, args: vec![slot(0), slot(1)] },
        Head { pred: 1, args: vec![slot(1), slot(2)] },
        Head { pred: 2, args: vec![slot(3)] },
        Head { pred: 3, args: vec![slot(0)] },
    ];
    assert_eq!(prepare(&heads), vec![vec![1, 3], vec![], vec![], vec![]]);
}

#[test]
fn slots_inside_constructors_count() {
    let heads = vec![
        Head { pred: 0, args: vec![app("f", vec![slot(4), app("g", vec![slot(5)])])] },
        Head { pred: 1, args: vec![app("h", vec![])] },
        Head { pred: 0, args: vec![slot(5)] },
    ];
    assert_eq!(prepare(&heads), vec![vec![2], vec![], vec![]]);
}

#[test]
fn no_heads_no_probes() {
    assert!(prepare(&[]).is_empty());
}

#[test]
fn ground_heads_share_nothing() {
    let heads = vec![
        Head { pred: 0, args: vec![app("a", vec![])] },
        Head { pred: 0, args: vec![app("a", vec![])] },
    ];
    assert_eq!(prepare(&heads), vec![Vec::<usize>::new(), vec![]]);
}
