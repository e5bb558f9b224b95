use stormdrain::rate::RateLimit;

const MS: u128 = 1_000_000;

#[test]
fn no_cap_demands_no_pause() {
    let mut none = RateLimit::from_kilobytes(0);
    assert_eq!(none.on_transfer(u64::MAX, 0), 0);
    assert_eq!(none.on_transfer(u64::MAX, 0), 0);
}

#[test]
fn a_transfer_is_paused_for_what_it_is_worth() {
    let mut cap = RateLimit::from_kilobytes(2);
    assert_eq!(cap.on_transfer(0, 0), 0);
    assert_eq!(cap.on_transfer(2048, 0), 1000 * MS);
    // Time that another transfer takes up comes on top.
    assert_eq!(cap.on_transfer(1024, 250 * MS), 1250 * MS);
    assert_eq!(cap.on_transfer(1, 1500 * MS), 488282);
}

#[test]
fn a_burst_after_rest_is_paused_for_in_full() {
    let hour = 3600 * 1000 * MS;
    let mut cap = RateLimit::from_kilobytes(100);
    assert_eq!(cap.on_transfer(0, hour), 0);
    assert_eq!(cap.on_transfer(368640000, hour + MS), hour);
    let mut cap = RateLimit::from_kilobytes(2);
    assert_eq!(cap.on_transfer(4096, 5000 * MS), 2000 * MS);
}

#[test]
fn a_span_holds_no_more_than_the_cap_and_one_transfer_per_connection() {
    let cap = 64 * 1024;
    let block = 16384;
    let mut limit = RateLimit::from_kilobytes(64);
    // Three connections, each of which goes on as soon as its pause is over;
    // all of them rest for a minute in between.
    let mut ready = [0u128; 3];
    let mut passed = Vec::new();
    for round in 0..60 {
        let i = (0..3).min_by_key(|&i| ready[i]).unwrap();
        let now = ready[i];
        passed.push(now);
        ready[i] = now + limit.on_transfer(block, now) + 1;
        if round == 30 {
            for r in &mut ready {
                *r += 60_000 * MS;
            }
        }
    }
    for &a in &passed {
        for &b in passed.iter().filter(|&&b| b >= a) {
            let bytes = passed.iter().filter(|&&t| a <= t && t <= b).count() as u128 * block as u128;
            assert!(bytes * 1_000_000_000 <= cap * (b - a) + 3 * block as u128 * 1_000_000_000);
        }
    }
}

#[test]
fn caps_and_times_may_be_huge() {
    let mut cap = RateLimit::from_kilobytes(u64::MAX);
    assert_eq!(cap.on_transfer(1000, 0), 1);
    let mut low = RateLimit::from_kilobytes(1);
    assert_eq!(low.on_transfer(u64::MAX, 0), 18014398509481983999023438);
    assert_eq!(low.on_transfer(1, u128::MAX), 0);
}
