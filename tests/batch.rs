use rustrast::batch::{CompletionBarrier, SlicePlan};

fn owners(p: &SlicePlan) -> Vec<u32> {
    let mut hits = vec![0u32; p.count];
    for i in 0..p.workers {
        let (a, b) = p.slice_range(i);
        for k in a..b {
            hits[k] += 1;
        }
    }
    let (a, b) = p.remainder();
    for k in a..b {
        hits[k] += 1;
    }
    hits
}

#[test]
fn unaligned_count_over_three_workers() {
    let p = SlicePlan::new(37, 3, 8);
    assert_eq!(p.slice_size, 8);
    assert_eq!(p.slice_range(0), (0, 8));
    assert_eq!(p.slice_range(1), (8, 16));
    assert_eq!(p.slice_range(2), (16, 24));
    assert_eq!(p.remainder(), (24, 37));
    assert_eq!(p.vectors_per_slice(), 1);
    assert!(owners(&p).iter().all(|&h| h == 1));
}

#[test]
fn cache_line_alignment_leaves_small_meshes_to_the_caller() {
    let p = SlicePlan::new(37, 3, 32);
    assert_eq!(p.slice_size, 0);
    assert_eq!(p.remainder(), (0, 37));
    assert!(owners(&p).iter().all(|&h| h == 1));
}

#[test]
fn large_mesh_is_covered_once() {
    let p = SlicePlan::new(100_003, 3, 32);
    assert_eq!(p.slice_size, 33_312);
    assert_eq!(p.remainder(), (99_936, 100_003));
    assert!(owners(&p).iter().all(|&h| h == 1));
}

#[test]
fn locate_finds_slice_and_offset() {
    let p = SlicePlan::new(37, 3, 8);
    assert_eq!(p.locate(0), (Some(0), 0));
    assert_eq!(p.locate(7), (Some(0), 7));
    assert_eq!(p.locate(8), (Some(1), 0));
    assert_eq!(p.locate(23), (Some(2), 7));
    assert_eq!(p.locate(24), (None, 0));
    assert_eq!(p.locate(36), (None, 12));
    let q = SlicePlan::new(5, 3, 8);
    assert_eq!(q.locate(4), (None, 4));
}

#[test]
fn empty_mesh() {
    let p = SlicePlan::new(0, 3, 8);
    assert_eq!(p.slice_size, 0);
    assert_eq!(p.remainder(), (0, 0));
}

#[test]
fn barrier_waits_for_every_signal() {
    let k = 5;
    let mut b = CompletionBarrier::new(k);
    for i in 0..k {
        assert!(!b.is_complete());
        assert_eq!(b.remaining(), k - i);
        b.record();
    }
    assert!(b.is_complete());
    assert_eq!(b.remaining(), 0);
}

#[test]
fn barrier_with_nothing_dispatched_is_complete() {
    assert!(CompletionBarrier::new(0).is_complete());
}
