use avl_tree::avl::AvlTree;

fn collect_lnr(t: AvlTree) -> Vec<u64> {
    let mut out = Vec::new();
    let mut it = t.into_iter_lnr();
    while let Some(v) = it.next() {
        out.push(v);
    }
    out
}

fn collect_nrl(t: AvlTree) -> Vec<u64> {
    let mut out = Vec::new();
    let mut it = t.into_iter_nrl();
    while let Some(v) = it.next() {
        out.push(v);
    }
    out
}

fn collect_rln(t: AvlTree) -> Vec<u64> {
    let mut out = Vec::new();
    let mut it = t.into_iter_rln();
    while let Some(v) = it.next() {
        out.push(v);
    }
    out
}

#[test]
fn lnr_mut() {
    let mut avl = AvlTree::new();
    for i in 0..10u64 {
        avl.insert(i);
    }
    assert_eq!(4, avl.depth());
    assert_eq!(true, avl.contains(9));
    assert_eq!(false, avl.contains(100));
    let mut it = avl.iter_lnr_mut();
    while let Some(v) = it.next(&avl) {
        it.set(&mut avl, v + 2);
    }
    assert_eq!(false, avl.contains(1));
    assert_eq!(true, avl.contains(10));
}

#[test]
fn lnr_order() {
    let mut avl = AvlTree::new();
    for i in 0..10u64 {
        avl.insert(i);
    }
    let mut it = avl.iter_lnr_mut();
    while let Some(v) = it.next(&avl) {
        it.set(&mut avl, v + 1);
    }
    assert_eq!(vec![1, 2, 3, 4, 5, 6, 7, 8, 9, 10], collect_lnr(avl));
}

#[test]
fn nrl_order() {
    let mut avl = AvlTree::new();
    for i in 0..10u64 {
        avl.insert(i);
    }
    assert_eq!(vec![3, 7, 8, 9, 5, 6, 4, 1, 2, 0], collect_nrl(avl));
}

#[test]
fn rln_order() {
    let mut avl = AvlTree::new();
    for i in 0..10u64 {
        avl.insert(i);
    }
    assert_eq!(vec![3, 1, 0, 2, 7, 5, 4, 6, 8, 9], collect_rln(avl));
}

#[test]
fn depth() {
    let mut avl = AvlTree::new();
    for i in 0..10u64 {
        avl.insert(i);
    }
    assert_eq!(4, avl.depth());
    for i in 10..100u64 {
        avl.insert(i);
    }
    assert_eq!(7, avl.depth());
}

#[test]
fn empty_tree_queries() {
    let avl = AvlTree::new();
    assert!(avl.is_empty());
    assert_eq!(0, avl.len());
    assert_eq!(0, avl.depth());
    assert_eq!(false, avl.contains(0));
}

#[test]
fn single_node() {
    let mut avl = AvlTree::new();
    let (inserted, grew) = avl.insert(42);
    assert!(inserted && grew);
    assert!(!avl.is_empty());
    assert_eq!(1, avl.len());
    assert_eq!(1, avl.depth());
    assert!(avl.contains(42));
    assert!(!avl.contains(41));
}

#[test]
fn duplicate_insert_is_noop() {
    let mut avl = AvlTree::new();
    for v in [5u64, 3, 8, 1, 9] {
        let (inserted, _) = avl.insert(v);
        assert!(inserted);
    }
    let before = collect_lnr_copy(&avl);
    let (inserted, grew) = avl.insert(8);
    assert!(!inserted && !grew);
    assert_eq!(5, avl.len());
    assert_eq!(before, collect_lnr_copy(&avl));
}

fn collect_lnr_copy(t: &AvlTree) -> Vec<u64> {
    let mut out = Vec::new();
    let mut it = t.iter_lnr();
    while let Some(v) = it.next() {
        out.push(*v);
    }
    out
}

#[test]
fn sorted_round_trip() {
    let mut avl = AvlTree::new();
    for v in [5u64, 3, 8, 3, 1, 9, 5, 0, 7] {
        avl.insert(v);
    }
    assert_eq!(vec![0, 1, 3, 5, 7, 8, 9], collect_lnr(avl));
}

#[test]
fn insert_reports_growth() {
    let mut avl = AvlTree::new();
    assert_eq!((true, true), avl.insert(1));
    assert_eq!((true, true), avl.insert(2));
    // the rotation absorbs the third insertion's growth
    assert_eq!((true, false), avl.insert(3));
    assert_eq!(2, avl.depth());
    assert_eq!((false, false), avl.insert(2));
}

#[test]
fn borrowing_iter_leaves_tree() {
    let mut avl = AvlTree::new();
    for i in [2u64, 1, 3] {
        avl.insert(i);
    }
    {
        let mut it = avl.iter_lnr();
        assert_eq!(Some(&1), it.next());
        assert_eq!(Some(&2), it.next());
        assert_eq!(Some(&3), it.next());
        assert_eq!(None, it.next());
        // a cursor stays exhausted
        assert_eq!(None, it.next());
    }
    assert_eq!(3, avl.len());
    assert!(avl.contains(2));
}

#[test]
fn consuming_iters_are_fused() {
    let avl = AvlTree::new();
    let mut lnr = avl.into_iter_lnr();
    assert_eq!(None, lnr.next());
    assert_eq!(None, lnr.next());
    let mut nrl = AvlTree::new().into_iter_nrl();
    assert_eq!(None, nrl.next());
    assert_eq!(None, nrl.next());
    let mut rln = AvlTree::new().into_iter_rln();
    assert_eq!(None, rln.next());
    assert_eq!(None, rln.next());
}

#[test]
fn take_empties_the_source() {
    let mut avl = AvlTree::new();
    avl.insert(4);
    avl.insert(6);
    let grabbed = avl.take();
    assert!(avl.is_empty());
    assert_eq!(0, avl.len());
    assert_eq!(2, grabbed.len());
    assert_eq!(vec![4, 6], collect_lnr(grabbed));
}

#[test]
fn node_gives_the_root() {
    let mut avl = AvlTree::new();
    for i in 0..10u64 {
        avl.insert(i);
    }
    assert_eq!(3, avl.node().val);
}

#[test]
fn mut_cursor_is_fused_and_bounded() {
    let mut avl = AvlTree::new();
    avl.insert(10);
    avl.insert(20);
    let mut it = avl.iter_lnr_mut();
    // writing before the first step changes nothing
    it.set(&mut avl, 99);
    assert_eq!(vec![10, 20], collect_lnr_copy(&avl));
    assert_eq!(Some(10), it.next(&avl));
    assert_eq!(Some(20), it.next(&avl));
    assert_eq!(None, it.next(&avl));
    assert_eq!(None, it.next(&avl));
}

#[test]
fn order_preserving_transform_reads_back_sorted() {
    let mut avl = AvlTree::new();
    for v in [4u64, 2, 7, 1, 3] {
        avl.insert(v);
    }
    let mut it = avl.iter_lnr_mut();
    while let Some(v) = it.next(&avl) {
        it.set(&mut avl, v * 2 + 1);
    }
    assert_eq!(vec![3, 5, 7, 9, 15], collect_lnr_copy(&avl));
    assert!(avl.contains(15));
    assert!(!avl.contains(4));
}

#[test]
fn depth_stays_logarithmic_for_descending_inserts() {
    let mut avl = AvlTree::new();
    for i in (0..100u64).rev() {
        avl.insert(i);
    }
    assert_eq!(100, avl.len());
    assert_eq!(7, avl.depth());
    for i in 0..100u64 {
        assert!(avl.contains(i));
    }
}

#[test]
fn extreme_values() {
    let mut avl = AvlTree::new();
    avl.insert(u64::MAX);
    avl.insert(0);
    avl.insert(u64::MAX / 2);
    assert_eq!(vec![0, u64::MAX / 2, u64::MAX], collect_lnr_copy(&avl));
    assert!(avl.contains(u64::MAX));
    assert!(avl.contains(0));
    assert!(!avl.contains(1));
}

#[test]
fn depth_bound_formula() {
    for n in [1u64, 10, 100, 500] {
        let mut avl = AvlTree::new();
        for i in 0..n {
            avl.insert(i);
        }
        let bound = (1.44 * ((n as f64) + 2.0).log2()).ceil() as usize;
        assert!(avl.depth() <= bound);
    }
}

#[test]
fn mixed_insertions_stay_sorted() {
    let mut avl = AvlTree::new();
    let mut expected: Vec<u64> = Vec::new();
    let mut x: u64 = 12345;
    for _ in 0..200 {
        x = x.wrapping_mul(6364136223846793005).wrapping_add(1442695040888963407);
        let v = (x >> 33) % 1000;
        let (inserted, _) = avl.insert(v);
        assert_eq!(inserted, !expected.contains(&v));
        if inserted {
            expected.push(v);
        }
    }
    expected.sort();
    assert_eq!(expected.len(), avl.len());
    assert_eq!(expected, collect_lnr_copy(&avl));
}
