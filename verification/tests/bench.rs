use maple::bench::{fill_wait, summarize, FillWait, LatencySummary, Sighting};
use maple::types::Fill;

#[test]
fn latency_of_one_run() {
    assert_eq!(
        summarize(&vec![42]),
        LatencySummary { mean: 42, p50: 42, p99: 42, min: 42, max: 42 }
    );
}

#[test]
fn latency_of_a_few_runs() {
    assert_eq!(
        summarize(&vec![30, 10, 20, 41]),
        LatencySummary { mean: 25, p50: 30, p99: 41, min: 10, max: 41 }
    );
}

#[test]
fn latency_of_two_hundred_runs() {
    let samples: Vec<u128> = (0..200).map(|i| (i * 7) % 200 + 1).collect();
    assert_eq!(
        summarize(&samples),
        LatencySummary { mean: 100, p50: 101, p99: 199, min: 1, max: 200 }
    );
}

#[test]
fn equal_latencies() {
    assert_eq!(
        summarize(&vec![5, 5, 5]),
        LatencySummary { mean: 5, p50: 5, p99: 5, min: 5, max: 5 }
    );
}

#[test]
fn waiting_for_a_fill() {
    let fill = Fill { maker_order_id: 1, taker_order_id: 2, price: 100, qty: 5 };
    assert_eq!(fill_wait(Sighting::Text(Some(fill))), FillWait::Got(fill));
    assert_eq!(fill_wait(Sighting::Text(None)), FillWait::Wait);
    assert_eq!(fill_wait(Sighting::Other), FillWait::Wait);
    for end in [Sighting::Failed, Sighting::Closed, Sighting::TimedOut] {
        assert_eq!(fill_wait(end), FillWait::Lost(end));
    }
}
