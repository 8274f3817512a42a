use heaps::bench_fn::pairing::{heapsort, heapsort_values};
use heaps::heap::pairing::PairingHeap;

fn drain(heap: &mut PairingHeap) -> Vec<i64> {
    let mut out = Vec::new();
    while let Some(v) = heap.delete_min() {
        out.push(v);
    }
    out
}

#[test]
fn it_works() {
    let mut heap = PairingHeap::new();
    heap.insert(100);
    heap.insert(200);
    heap.insert(250);
    assert_eq!(heap.len(), 3);
}

#[test]
fn clone_test() {
    let mut heap = PairingHeap::new();
    for i in 0..50 {
        heap.insert(i);
    }

    heap.delete_min().unwrap();
    heap.delete_min().unwrap();
    heap.delete_min().unwrap();
    heap.delete_min().unwrap();

    let mut cloned = heap.clone();
    assert_eq!(cloned.len(), heap.len());
    assert_eq!(drain(&mut cloned), (4..50).collect::<Vec<i64>>());
    assert_eq!(heap.len(), 46);
    assert_eq!(drain(&mut heap), (4..50).collect::<Vec<i64>>());
}

#[test]
fn three_values_come_out_in_order() {
    let mut heap = PairingHeap::new();
    heap.insert(100);
    heap.insert(200);
    heap.insert(250);
    assert_eq!(heap.delete_min(), Some(100));
    assert_eq!(heap.len(), 2);
    assert_eq!(heap.delete_min(), Some(200));
    assert_eq!(heap.len(), 1);
    assert_eq!(heap.delete_min(), Some(250));
    assert_eq!(heap.len(), 0);
    assert_eq!(heap.delete_min(), None);
    assert_eq!(heap.len(), 0);
}

#[test]
fn first_four_of_fifty() {
    let mut heap = PairingHeap::new();
    for i in 0..50 {
        heap.insert(i);
    }
    let firsts: Vec<i64> = (0..4).map(|_| heap.delete_min().unwrap()).collect();
    assert_eq!(firsts, vec![0, 1, 2, 3]);
    assert_eq!(heap.len(), 46);
    assert_eq!(drain(&mut heap), (4..50).collect::<Vec<i64>>());
}

#[test]
fn empty_heap_stays_empty() {
    let mut heap = PairingHeap::new();
    assert_eq!(heap.len(), 0);
    for _ in 0..5 {
        assert_eq!(heap.delete_min(), None);
        assert_eq!(heap.len(), 0);
    }
    heap.insert(-7);
    assert_eq!(heap.delete_min(), Some(-7));
    assert_eq!(heap.delete_min(), None);
    assert_eq!(heap.delete_min(), None);
}

#[test]
fn size_counts_inserts_minus_removals() {
    let mut heap = PairingHeap::new();
    for k in 0..20i64 {
        heap.insert((k * 37) % 11);
    }
    for m in 0..20usize {
        assert_eq!(heap.len(), 20 - m);
        assert!(heap.delete_min().is_some());
    }
    assert_eq!(heap.len(), 0);
}

#[test]
fn drain_is_non_decreasing_with_duplicates() {
    let mut heap = PairingHeap::new();
    let input = [5i64, -3, 9, 5, 0, i64::MAX, i64::MIN, 5, -3, 12, 7, 7];
    for v in input {
        heap.insert(v);
    }
    let out = drain(&mut heap);
    let mut expected = input.to_vec();
    expected.sort();
    assert_eq!(out, expected);
}

#[test]
fn interleaved_inserts_and_removals() {
    let mut heap = PairingHeap::new();
    heap.insert(30);
    heap.insert(10);
    heap.insert(20);
    assert_eq!(heap.delete_min(), Some(10));
    heap.insert(5);
    heap.insert(25);
    assert_eq!(heap.delete_min(), Some(5));
    assert_eq!(heap.delete_min(), Some(20));
    heap.insert(1);
    assert_eq!(drain(&mut heap), vec![1, 25, 30]);
}

#[test]
fn equal_values() {
    let mut heap = PairingHeap::new();
    for _ in 0..10 {
        heap.insert(4);
    }
    assert_eq!(drain(&mut heap), vec![4; 10]);
}

#[test]
fn clone_is_independent() {
    let mut heap = PairingHeap::new();
    for v in [8i64, 3, 6, 1, 9, 2] {
        heap.insert(v);
    }
    let mut copy = heap.clone();
    assert_eq!(copy.delete_min(), Some(1));
    copy.insert(0);
    assert_eq!(heap.len(), 6);
    assert_eq!(drain(&mut copy), vec![0, 2, 3, 6, 8, 9]);
    assert_eq!(drain(&mut heap), vec![1, 2, 3, 6, 8, 9]);
}

#[test]
fn clone_of_empty() {
    let heap = PairingHeap::new();
    let mut copy = heap.clone();
    assert_eq!(copy.len(), 0);
    assert_eq!(copy.delete_min(), None);
}

#[test]
fn large_heaps_are_dropped() {
    let mut rising = PairingHeap::new();
    for i in 0..1_000_000 {
        rising.insert(i);
    }
    assert_eq!(rising.len(), 1_000_000);
    drop(rising);

    let mut falling = PairingHeap::new();
    for i in (0..1_000_000).rev() {
        falling.insert(i);
    }
    assert_eq!(falling.delete_min(), Some(0));
    assert_eq!(falling.len(), 999_999);
    drop(falling);
}

#[test]
fn large_clone_and_drain() {
    let mut heap = PairingHeap::new();
    for i in (0..200_000).rev() {
        heap.insert(i);
    }
    let mut copy = heap.clone();
    assert_eq!(copy.len(), 200_000);
    let out = drain(&mut copy);
    assert_eq!(out.len(), 200_000);
    assert!(out.windows(2).all(|w| w[0] + 1 == w[1]));
    assert_eq!(heap.len(), 200_000);
}

#[test]
fn heapsort_values_sorts() {
    assert_eq!(heapsort_values(&vec![]), Vec::<i64>::new());
    assert_eq!(heapsort_values(&vec![3, 1, 2]), vec![1, 2, 3]);
    assert_eq!(heapsort_values(&vec![2, -5, 2, 0, -5]), vec![-5, -5, 0, 2, 2]);
}

#[test]
fn heapsort_runs() {
    heapsort(0);
    heapsort(1);
    heapsort(1000);
}

#[test]
fn render_draws_the_tree() {
    let mut heap = PairingHeap::new();
    assert_eq!(heap.render(), "");
    heap.insert(1);
    heap.insert(2);
    heap.insert(3);
    assert_eq!(heap.outline(), vec![(0, 1), (1, 3), (1, 2)]);
    assert_eq!(heap.render(), "1\n\t3\n\t2\n");
    assert_eq!(heap.delete_min(), Some(1));
    assert_eq!(heap.render(), "2\n\t3\n");
}

#[test]
fn render_of_a_chain_and_negative_values() {
    let mut heap = PairingHeap::new();
    for v in [4, 3, 2, 1] {
        heap.insert(v);
    }
    assert_eq!(heap.render(), "1\n\t2\n\t\t3\n\t\t\t4\n");
    let mut small = PairingHeap::new();
    small.insert(3);
    small.insert(-5);
    assert_eq!(small.render(), "-5\n\t3\n");
    let mut extremes = PairingHeap::new();
    extremes.insert(i64::MAX);
    extremes.insert(i64::MIN);
    assert_eq!(extremes.render(), "-9223372036854775808\n\t9223372036854775807\n");
}

#[test]
fn clone_keeps_the_shape() {
    let mut heap = PairingHeap::new();
    for i in 0..50 {
        heap.insert(i);
    }
    for _ in 0..4 {
        heap.delete_min().unwrap();
    }
    let copy = heap.clone();
    assert_eq!(copy.render(), heap.render());
    assert_eq!(copy.outline(), heap.outline());
}

#[test]
fn delete_min_consolidates_in_two_passes() {
    let mut heap = PairingHeap::new();
    for v in [1, 5, 4, 3, 2] {
        heap.insert(v);
    }
    assert_eq!(heap.render(), "1\n\t2\n\t3\n\t4\n\t5\n");
    assert_eq!(heap.delete_min(), Some(1));
    assert_eq!(heap.render(), "2\n\t4\n\t\t5\n\t3\n");
}
