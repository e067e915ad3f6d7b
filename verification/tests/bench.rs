use kvstore::bench::{
    after_batch,
    get_request, key_name, next_batch_size, next_connection, prepopulate_batch, set_request, value_template,
    workload_batch, workload_request,
};

#[test]
fn key_names() {
    assert_eq!(key_name(0), "key0");
    assert_eq!(key_name(42), "key42");
    assert_eq!(key_name(1000), "key1000");
}

#[test]
fn request_lines() {
    assert_eq!(get_request("key7"), "GET key7\r\n");
    assert_eq!(set_request("key7", "aaa"), "SET key7 aaa\r\n");
    assert_eq!(workload_request(3, 10, 50, "vv"), "GET key3\r\n");
    assert_eq!(workload_request(3, 50, 50, "vv"), "SET key3 vv\r\n");
    assert_eq!(workload_request(3, 99, 100, "vv"), "GET key3\r\n");
    assert_eq!(workload_request(3, 0, 0, "vv"), "SET key3 vv\r\n");
}

#[test]
fn value_templates() {
    assert_eq!(value_template(0), "");
    assert_eq!(value_template(5), "aaaaa");
}

#[test]
fn batches_have_their_size_and_shape() {
    let b = workload_batch(200, 10, 100, "x");
    assert_eq!(b.len(), 200);
    for r in &b {
        assert!(r.starts_with("GET key") && r.ends_with("\r\n"));
        let n: usize = r[7..r.len() - 2].parse().unwrap();
        assert!(n < 10);
    }
    let b = workload_batch(50, 3, 0, "val");
    for r in &b {
        assert!(r.starts_with("SET key") && r.ends_with(" val\r\n"));
    }
    let p = prepopulate_batch(30, 5, 8);
    assert_eq!(p.len(), 30);
    for r in &p {
        let parts: Vec<&str> = r.trim_end().split(' ').collect();
        assert_eq!(parts.len(), 3);
        assert_eq!(parts[0], "SET");
        let n: usize = parts[1][3..].parse().unwrap();
        assert!(n < 5);
        assert_eq!(parts[2].len(), 8);
        assert!(parts[2].chars().all(|c| c.is_ascii_alphanumeric()));
    }
}

#[test]
fn batch_sizes() {
    assert_eq!(next_batch_size(1000, 5000, 0), 1000);
    assert_eq!(next_batch_size(1000, 5000, 4500), 500);
    assert_eq!(next_batch_size(1000, 5000, 5000), 0);
}

#[test]
fn connections_take_turns() {
    assert_eq!(next_connection(0, 3), 1);
    assert_eq!(next_connection(2, 3), 0);
    assert_eq!(next_connection(0, 1), 0);
    let mut i = 2;
    for _ in 0..4 {
        i = next_connection(i, 4);
    }
    assert_eq!(i, 2);
}

#[test]
fn client_counts_answered_operations() {
    assert_eq!(after_batch(0, 10, 4, Some(4)), 4);
    assert_eq!(after_batch(4, 10, 4, Some(2)), 6);
    assert_eq!(after_batch(6, 10, 4, None), 6);
    let mut done = 0;
    while done < 10 {
        let n = kvstore::bench::next_batch_size(4, 10, done);
        done = after_batch(done, 10, n, Some(n));
    }
    assert_eq!(done, 10);
}
