use hyparview::backoff::{after_accept_failure, AcceptRetry};

#[test]
fn accept_backoff_doubles_up_to_a_minute_then_gives_up() {
    let mut backoff = 1;
    let mut waits = Vec::new();
    loop {
        match after_accept_failure(backoff) {
            AcceptRetry::Wait { seconds, next } => {
                waits.push(seconds);
                backoff = next;
            }
            AcceptRetry::GiveUp => break,
        }
    }
    assert_eq!(waits, vec![1, 2, 4, 8, 16, 32, 64]);
    assert_eq!(backoff, 128);
}

#[test]
fn backoff_of_exactly_sixty_four_still_waits() {
    assert_eq!(after_accept_failure(64), AcceptRetry::Wait { seconds: 64, next: 128 });
    assert_eq!(after_accept_failure(65), AcceptRetry::GiveUp);
}
