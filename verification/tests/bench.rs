use simple_nats::bench::msgs_per_client;

#[test]
fn bench_test() {}

#[test]
fn main_test() {}

#[test]
fn messages_are_shared_out_evenly() {
    assert_eq!(msgs_per_client(10, 3), vec![4, 3, 3]);
    assert_eq!(msgs_per_client(9, 3), vec![3, 3, 3]);
    assert_eq!(msgs_per_client(2, 5), vec![1, 1, 0, 0, 0]);
    assert_eq!(msgs_per_client(0, 4), vec![0, 0, 0, 0]);
    assert_eq!(msgs_per_client(7, 0), Vec::<usize>::new());
    assert_eq!(msgs_per_client(100000, 1), vec![100000]);
    assert_eq!(msgs_per_client(usize::MAX, 2), vec![usize::MAX / 2 + 1, usize::MAX / 2]);
    for (msgs, clients) in [(1000usize, 7usize), (5, 5), (1, 9), (123456, 13)] {
        let counts = msgs_per_client(msgs, clients);
        assert_eq!(counts.len(), clients);
        assert_eq!(counts.iter().sum::<usize>(), msgs);
        assert!(counts.iter().max().unwrap() - counts.iter().min().unwrap() <= 1);
    }
}
