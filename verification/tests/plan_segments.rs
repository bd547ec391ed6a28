use landsurvey::plan::{edge_keys, seg_key};

fn key(x1: f64, y1: f64, x2: f64, y2: f64) -> [u64; 4] {
    seg_key((x1.to_bits(), y1.to_bits()), (x2.to_bits(), y2.to_bits()))
}

#[test]
fn seg_key_is_direction_independent() {
    assert_eq!(key(1.0, 2.0, 3.0, 4.0), key(3.0, 4.0, 1.0, 2.0));
    assert_ne!(key(1.0, 2.0, 3.0, 4.0), key(1.0, 2.0, 3.0, 4.5));
    // Every flattened edge of a chain matches the chain's own edge keys.
    let chain: Vec<(u64, u64)> = [(0.0f64, 0.0f64), (10.5, 0.0), (10.5, 7.25), (0.0, 0.0)]
        .iter()
        .map(|&(x, y)| (x.to_bits(), y.to_bits()))
        .collect();
    let keys: std::collections::HashSet<[u64; 4]> = edge_keys(&chain).into_iter().collect();
    assert_eq!(keys.len(), 3);
    assert!(keys.contains(&key(10.5, 0.0, 0.0, 0.0))); // reversed line
    assert!(keys.contains(&key(10.5, 7.25, 0.0, 0.0))); // closing edge
    assert!(!keys.contains(&key(1.0, 1.0, 2.0, 2.0))); // unrelated segment
}

#[test]
fn seg_key_puts_the_smaller_endpoint_first() {
    assert_eq!(seg_key((5, 1), (2, 9)), [2, 9, 5, 1]);
    assert_eq!(seg_key((2, 9), (2, 3)), [2, 3, 2, 9]);
    assert_eq!(seg_key((2, 3), (2, 3)), [2, 3, 2, 3]);
}

#[test]
fn edge_keys_of_short_chains() {
    assert!(edge_keys(&[]).is_empty());
    assert!(edge_keys(&[(1, 2)]).is_empty());
    assert_eq!(edge_keys(&[(1, 2), (0, 7), (1, 2)]), vec![[0, 7, 1, 2], [0, 7, 1, 2]]);
}
