use multi_app::cleanup::removal_delay_ms;

#[test]
fn removal_is_retried_seven_times_with_backoff() {
    let delays: Vec<u64> = (0..10).filter_map(removal_delay_ms).collect();
    assert_eq!(delays, vec![0, 100, 250, 500, 1000, 1000, 1000]);
    assert_eq!(delays.iter().sum::<u64>(), 3850);
    assert_eq!(removal_delay_ms(7), None);
    assert_eq!(removal_delay_ms(usize::MAX), None);
}
