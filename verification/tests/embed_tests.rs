use rag::embed::{batch_ranges, next_step, EmbedStep, MAX_RETRIES};

#[test]
fn success_ends_the_request() {
    assert_eq!(next_step(200, 0), EmbedStep::Done);
    assert_eq!(next_step(204, 3), EmbedStep::Done);
}

#[test]
fn rate_limits_and_server_errors_back_off_doubling() {
    assert_eq!(next_step(429, 0), EmbedStep::Retry { retries: 1, backoff_ms: 1000 });
    assert_eq!(next_step(503, 1), EmbedStep::Retry { retries: 2, backoff_ms: 2000 });
    assert_eq!(next_step(500, 4), EmbedStep::Retry { retries: 5, backoff_ms: 16000 });
}

#[test]
fn retries_stop_after_the_limit() {
    assert_eq!(next_step(503, MAX_RETRIES), EmbedStep::Fail);
    let mut retries = 0;
    let mut attempts = 1;
    while let EmbedStep::Retry { retries: r, .. } = next_step(429, retries) {
        retries = r;
        attempts += 1;
    }
    assert_eq!(attempts, 6);
}

#[test]
fn client_errors_fail_at_once() {
    assert_eq!(next_step(400, 0), EmbedStep::Fail);
    assert_eq!(next_step(404, 0), EmbedStep::Fail);
    assert_eq!(next_step(600, 0), EmbedStep::Fail);
}

#[test]
fn batches_cover_all_items_in_order() {
    assert_eq!(batch_ranges(5, 2), vec![(0, 2), (2, 4), (4, 5)]);
    assert_eq!(batch_ranges(4, 2), vec![(0, 2), (2, 4)]);
    assert_eq!(batch_ranges(0, 128), vec![]);
    assert_eq!(batch_ranges(3, 100), vec![(0, 3)]);
    assert_eq!(batch_ranges(250, 100), vec![(0, 100), (100, 200), (200, 250)]);
}
