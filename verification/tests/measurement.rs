use lib::measurement::{Category, ForkSegment, Interval, Memory, Reading, Segments, Traffic};

fn memory(start: usize, end: usize, peak: usize, calls: usize, delta: i128) -> Memory {
    Memory { start, end, peak, calls, bytes: calls * 8, frees: calls / 2, delta }
}

#[test]
fn a_reading_becomes_figures_with_the_net_change() {
    let r = Reading {
        live_start: 100,
        live_end: 40,
        peak_live: 250,
        allocation_calls: 3,
        requested_bytes: 96,
        deallocation_calls: 5,
    };
    let m = Memory::from(r);
    assert_eq!(m, Memory { start: 100, end: 40, peak: 250, calls: 3, bytes: 96, frees: 5, delta: -60 });
}

#[test]
fn memory_records_every_figure() {
    let m = Memory { start: 1, end: 22, peak: 333, calls: 0, bytes: 4096, frees: 7, delta: -21 };
    assert_eq!(
        m.json(),
        "{\"live_start\":1,\"live_end\":22,\"peak_live\":333,\"allocation_calls\":0,\"requested_bytes\":4096,\"deallocation_calls\":7,\"net_live_delta\":-21}"
    );
    let extreme = Memory { delta: i128::MIN, ..Memory::default() };
    assert!(extreme.json().ends_with(&format!("\"net_live_delta\":{}}}", i128::MIN)));
}

#[test]
fn appending_keeps_the_first_start_and_the_last_end() {
    let mut m = memory(10, 20, 30, 2, 10);
    m.append(memory(50, 60, 25, 3, -5), false);
    assert_eq!(m, Memory { start: 10, end: 60, peak: 30, calls: 5, bytes: 40, frees: 2, delta: 5 });
    let mut fresh = Memory::default();
    fresh.append(memory(50, 60, 70, 4, 10), true);
    assert_eq!(fresh, Memory { start: 50, end: 60, peak: 70, calls: 4, bytes: 32, frees: 2, delta: 10 });
}

#[test]
fn an_interval_without_a_meter_records_null() {
    assert_eq!(Interval { ns: 12345678901234567890123, memory: None }.json(), "{\"ns\":12345678901234567890123,\"memory\":null}");
    let m = memory(0, 8, 8, 1, 8);
    assert_eq!(Interval { ns: 0, memory: Some(m) }.json(), format!("{{\"ns\":0,\"memory\":{}}}", m.json()));
}

#[test]
fn a_category_adds_up_its_intervals() {
    let mut c = Category::default();
    c.add(Interval { ns: 5, memory: Some(memory(100, 120, 130, 2, 20)) });
    c.add(Interval { ns: 7, memory: None });
    c.add(Interval { ns: 1, memory: Some(memory(300, 290, 310, 1, -10)) });
    assert_eq!(c.count, 3);
    assert_eq!(c.interval.ns, 13);
    assert_eq!(c.interval.memory, Some(Memory { start: 100, end: 290, peak: 310, calls: 3, bytes: 24, frees: 1, delta: 10 }));
    assert_eq!(
        c.json(),
        "{\"count\":3,\"ns\":13,\"memory\":{\"peak_live\":310,\"allocation_calls\":3,\"requested_bytes\":24,\"deallocation_calls\":1,\"net_live_delta\":10}}"
    );
}

#[test]
fn a_category_first_metered_after_others_keeps_a_zero_start() {
    let mut c = Category::default();
    c.add(Interval { ns: 2, memory: None });
    c.add(Interval { ns: 3, memory: Some(memory(40, 50, 60, 1, 10)) });
    assert_eq!(c.interval.memory, Some(Memory { start: 0, end: 50, peak: 60, calls: 1, bytes: 8, frees: 0, delta: 10 }));
    assert_eq!(Category::default().json(), "{\"count\":0,\"ns\":0,\"memory\":null}");
}

#[test]
fn traffic_records_every_figure() {
    let t = Traffic { count: 2, ns: 900, calls: 4, bytes: 64, frees: 3 };
    assert_eq!(
        t.json(),
        "{\"count\":2,\"ns\":900,\"allocation_calls\":4,\"requested_bytes\":64,\"deallocation_calls\":3}"
    );
}

#[test]
fn segments_count_misses_and_mutation_free_segments() {
    let mut s = Segments::default();
    s.add(ForkSegment { inherited_nodes: 10, predicate_insertions: 0, first_miss_nodes: None, requests_before_first_miss: None });
    s.add(ForkSegment { inherited_nodes: 7, predicate_insertions: 2, first_miss_nodes: None, requests_before_first_miss: None });
    s.add(ForkSegment { inherited_nodes: 5, predicate_insertions: 1, first_miss_nodes: Some(3), requests_before_first_miss: Some(9) });
    assert_eq!(
        s,
        Segments {
            segments: 3,
            mutation_free_segments: 1,
            inherited_nodes: 22,
            mutation_free_inherited_nodes: 10,
            first_miss_segments: 1,
            first_miss_nodes: 3,
            first_miss_inherited_nodes: 5,
            predicate_insertions: 3,
            requests_before_first_miss: 9,
        }
    );
    assert_eq!(
        s.json(),
        "{\"segments\":3,\"mutation_free_segments\":1,\"inherited_nodes\":22,\"mutation_free_inherited_nodes\":10,\"first_miss_segments\":1,\"first_miss_nodes\":3,\"first_miss_inherited_nodes\":5,\"predicate_insertions\":3,\"requests_before_first_miss\":9}"
    );
}
