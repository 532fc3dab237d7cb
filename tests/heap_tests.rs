use heaps::heap::{levels_from_len, Heap, HeapType, MaxHeap, MinHeap};

fn run_basic_suite<H>(is_min_heap: bool)
where
    H: Heap<Item = i32>,
{
    let mut h = H::new();
    assert!(h.is_empty());
    assert_eq!(h.len(), 0);
    assert_eq!(h.peek(), None);
    assert_eq!(h.pop(), None);

    for &x in &[3, 1, 4, 1, 5, 9, 2, 6, 5] {
        h.push(x);
    }
    assert!(!h.is_empty());
    assert_eq!(h.len(), 9);

    let top = h.peek().expect("peek must exist");
    if is_min_heap {
        assert_eq!(top, 1);
    } else {
        assert_eq!(top, 9);
    }

    let mut popped = Vec::new();
    while let Some(x) = h.pop() {
        popped.push(x);
    }
    assert!(h.is_empty());
    assert_eq!(h.len(), 0);

    let mut sorted = vec![3, 1, 4, 1, 5, 9, 2, 6, 5];
    sorted.sort();
    let expected = if is_min_heap {
        sorted.clone()
    } else {
        let mut r = sorted.clone();
        r.reverse();
        r
    };
    assert_eq!(popped, expected);

    let mut h2 = H::new();
    for &x in &[10, 20, 20, -1] {
        h2.push(x);
    }
    h2.clear();
    assert!(h2.is_empty());
    assert_eq!(h2.peek(), None);
    assert_eq!(h2.pop(), None);
}

fn run_string_check<H>()
where
    H: Heap<Item = &'static str>,
{
    let mut h = H::new();
    h.push("delta");
    h.push("alpha");
    h.push("charlie");
    h.push("bravo");

    let mut out = Vec::new();
    while let Some(s) = h.pop() {
        out.push(s);
    }

    let asc = vec!["alpha", "bravo", "charlie", "delta"];
    let mut desc = asc.clone();
    desc.reverse();
    assert!(out == asc || out == desc);
}

fn drain<H: Heap>(h: &mut H) -> Vec<H::Item> {
    let mut out = Vec::new();
    while let Some(x) = h.pop() {
        out.push(x);
    }
    out
}

#[test]
fn max_heap_basic() {
    run_basic_suite::<MaxHeap<i32>>(false);
    run_string_check::<MaxHeap<&'static str>>();
}

#[test]
fn min_heap_basic() {
    run_basic_suite::<MinHeap<i32>>(true);
    run_string_check::<MinHeap<&'static str>>();
}

#[test]
fn single_element_and_duplicates() {
    {
        let mut h: MaxHeap<i32> = MaxHeap::new();
        h.push(42);
        assert_eq!(h.peek(), Some(42));
        assert_eq!(h.pop(), Some(42));
        assert_eq!(h.pop(), None);

        for _ in 0..5 {
            h.push(7);
        }
        for _ in 0..5 {
            assert_eq!(h.pop(), Some(7));
        }
        assert!(h.is_empty());
    }
    {
        let mut h: MinHeap<i32> = MinHeap::new();
        h.push(42);
        assert_eq!(h.peek(), Some(42));
        assert_eq!(h.pop(), Some(42));
        assert_eq!(h.pop(), None);

        for _ in 0..5 {
            h.push(7);
        }
        for _ in 0..5 {
            assert_eq!(h.pop(), Some(7));
        }
        assert!(h.is_empty());
    }
}

#[test]
fn peek_is_non_destructive() {
    let mut maxh: MaxHeap<i32> = MaxHeap::new();
    let mut minh: MinHeap<i32> = MinHeap::new();
    for &x in &[2, 8, 3, 8] {
        maxh.push(x);
        minh.push(x);
    }

    assert_eq!(maxh.peek(), Some(8));
    assert_eq!(maxh.len(), 4);
    assert_eq!(maxh.pop(), Some(8));
    assert_eq!(maxh.pop(), Some(8));

    assert_eq!(minh.peek(), Some(2));
    assert_eq!(minh.len(), 4);
    assert_eq!(minh.pop(), Some(2));
    assert_eq!(minh.pop(), Some(3));
}

#[test]
fn many_elements_shape_check() {
    let mut maxh: MaxHeap<i32> = MaxHeap::new();
    let mut minh: MinHeap<i32> = MinHeap::new();

    for i in 0..1000 {
        let v = (i * 37) % 997;
        maxh.push(v as i32);
        minh.push(v as i32);
    }
    assert_eq!(maxh.len(), 1000);
    assert_eq!(minh.len(), 1000);

    let mut max_out = Vec::new();
    let mut min_out = Vec::new();
    while let Some(x) = maxh.pop() {
        max_out.push(x);
    }
    while let Some(x) = minh.pop() {
        min_out.push(x);
    }

    let mut sorted: Vec<i32> = (0..1000).map(|i| ((i * 37) % 997) as i32).collect();
    sorted.sort();

    let mut sorted_desc = sorted.clone();
    sorted_desc.reverse();

    assert_eq!(max_out, sorted_desc);
    assert_eq!(min_out, sorted);
}

#[test]
fn sorted_extraction_example() {
    let input = [3, 1, 4, 1, 5, 9, 2, 6, 5];
    let mut maxh: MaxHeap<i32> = MaxHeap::new();
    let mut minh: MinHeap<i32> = MinHeap::new();
    for &x in &input {
        maxh.push(x);
        minh.push(x);
    }
    assert_eq!(drain(&mut maxh), vec![9, 6, 5, 5, 4, 3, 2, 1, 1]);
    assert_eq!(drain(&mut minh), vec![1, 1, 2, 3, 4, 5, 5, 6, 9]);
}

#[test]
fn heap_property_holds_after_each_operation() {
    let mut h: MaxHeap<i32> = MaxHeap::new();
    let check = |v: &Vec<i32>| {
        for c in 1..v.len() {
            assert!(v[(c - 1) / 2] >= v[c]);
        }
    };
    for i in 0..200 {
        h.push((i * 53) % 101);
        check(h.item());
        if i % 3 == 0 {
            h.pop();
            check(h.item());
        }
    }
    let mut m: MinHeap<i32> = MinHeap::new();
    for i in 0..200 {
        m.push((i * 53) % 101);
        if i % 4 == 0 {
            m.pop();
        }
        let v = m.item();
        for c in 1..v.len() {
            assert!(v[(c - 1) / 2] <= v[c]);
        }
    }
}

#[test]
fn repeated_peek_changes_nothing() {
    let mut a: MinHeap<i32> = MinHeap::new();
    let mut b: MinHeap<i32> = MinHeap::new();
    for &x in &[5, 3, 8, 1, 9, 2] {
        a.push(x);
        b.push(x);
    }
    for _ in 0..4 {
        assert_eq!(a.peek(), Some(1));
        assert_eq!(a.len(), 6);
    }
    assert_eq!(a.item(), b.item());
    assert_eq!(a.pop(), Some(1));
    for _ in 0..3 {
        assert_eq!(a.peek(), Some(2));
    }
    assert_eq!(b.pop(), Some(1));
    assert_eq!(drain(&mut a), drain(&mut b));
}

#[test]
fn empty_heap_contract() {
    let mut fresh: MaxHeap<i32> = MaxHeap::new();
    assert_eq!(fresh.peek(), None);
    assert_eq!(fresh.pop(), None);
    assert_eq!(fresh.len(), 0);
    assert!(fresh.is_empty());

    let mut drained: MinHeap<i32> = MinHeap::new();
    drained.push(4);
    drained.push(-2);
    drained.pop();
    drained.pop();
    assert_eq!(drained.peek(), None);
    assert_eq!(drained.pop(), None);
    assert_eq!(drained.len(), 0);
    assert!(drained.is_empty());
}

#[test]
fn size_accounting() {
    let mut h: MaxHeap<i32> = MaxHeap::new();
    let mut pushes = 0usize;
    let mut pops = 0usize;
    for i in 0..50 {
        h.push(i % 7);
        pushes += 1;
        if i % 2 == 1 {
            assert!(h.pop().is_some());
            pops += 1;
        }
        assert_eq!(h.len(), pushes - pops);
    }
    assert_eq!(h.len(), 25);
}

#[test]
fn clear_resets_fully() {
    let mut h: MinHeap<i32> = MinHeap::new();
    for &x in &[10, 20, 20, -1] {
        h.push(x);
    }
    h.clear();
    assert!(h.is_empty());
    assert_eq!(h.len(), 0);
    assert_eq!(h.peek(), None);
    assert_eq!(h.pop(), None);
    h.push(6);
    h.push(3);
    h.push(9);
    let mut fresh: MinHeap<i32> = MinHeap::new();
    fresh.push(6);
    fresh.push(3);
    fresh.push(9);
    assert_eq!(h.item(), fresh.item());
    assert_eq!(drain(&mut h), vec![3, 6, 9]);
}

#[test]
fn duplicates_of_one_value() {
    let mut h: MinHeap<i32> = MinHeap::new();
    for _ in 0..5 {
        h.push(-3);
    }
    for _ in 0..5 {
        assert_eq!(h.pop(), Some(-3));
    }
    assert!(h.is_empty());
    assert_eq!(h.pop(), None);
}

#[test]
fn from_vec_round_trip() {
    let v = vec![3, 1, 4, 1, 5, 9, 2, 6, 5, 3, 5, 8, 9, 7, 9];
    let mut built: MaxHeap<i32> = MaxHeap::from_vec(&v);
    assert_eq!(built.len(), v.len());
    for c in 1..built.len() {
        assert!(built.item()[(c - 1) / 2] >= built.item()[c]);
    }
    let mut pushed: MaxHeap<i32> = MaxHeap::new();
    for &x in &v {
        pushed.push(x);
    }
    assert_eq!(drain(&mut built), drain(&mut pushed));

    let mut built_min: MinHeap<i32> = MinHeap::from_vec(&v);
    let mut pushed_min: MinHeap<i32> = MinHeap::new();
    for &x in &v {
        pushed_min.push(x);
    }
    let out = drain(&mut built_min);
    assert_eq!(out, drain(&mut pushed_min));
    assert_eq!(out, vec![1, 1, 2, 3, 3, 4, 5, 5, 5, 6, 7, 8, 9, 9, 9]);
}

#[test]
fn from_vec_builds_heap_bottom_up() {
    let v = vec![1, 2, 3, 4, 5, 6, 7];
    let h: MaxHeap<i32> = MaxHeap::from_vec(&v);
    assert_eq!(h.item(), &vec![7, 5, 6, 4, 2, 1, 3]);
    let e: MinHeap<i32> = MinHeap::from_vec(&[]);
    assert!(e.is_empty());
}

#[test]
fn levels_from_len_values() {
    assert_eq!(levels_from_len(0), 0);
    assert_eq!(levels_from_len(1), 1);
    assert_eq!(levels_from_len(2), 2);
    assert_eq!(levels_from_len(3), 2);
    assert_eq!(levels_from_len(4), 3);
    assert_eq!(levels_from_len(7), 3);
    assert_eq!(levels_from_len(8), 4);
    assert_eq!(levels_from_len(1000), 10);
    assert_eq!(levels_from_len(usize::MAX), 64);
}

#[test]
fn tree_view_rows() {
    let mut h: MaxHeap<i32> = MaxHeap::new();
    assert!(h.tree_view().is_empty());
    for x in 1..=5 {
        h.push(x);
    }
    assert_eq!(h.item(), &vec![5, 4, 2, 1, 3]);
    assert_eq!(h.tree_view(), vec![vec![5], vec![4, 2], vec![1, 3]]);
    let m: MinHeap<i32> = MinHeap::from_vec(&[1, 2, 3, 4, 5, 6, 7, 8]);
    let rows = m.tree_view();
    assert_eq!(rows.len(), levels_from_len(8));
    assert_eq!(rows, vec![vec![1], vec![2, 3], vec![4, 5, 6, 7], vec![8]]);
}

#[test]
fn heap_kind_of_each_variant() {
    assert!(matches!(MaxHeap::<i32>::kind(), HeapType::MaxHeap));
    assert!(matches!(MinHeap::<i32>::kind(), HeapType::MinHeap));
}

#[test]
fn equal_children_and_parent_min_heap() {
    let mut h: MinHeap<i32> = MinHeap::new();
    for &x in &[2, 2, 2, 1, 2] {
        h.push(x);
    }
    assert_eq!(h.peek(), Some(1));
    assert_eq!(drain(&mut h), vec![1, 2, 2, 2, 2]);
}

#[derive(Clone, Copy, Debug, PartialEq, Eq)]
struct Keyed {
    key: i32,
    tag: u8,
}

impl PartialOrd for Keyed {
    fn partial_cmp(&self, other: &Self) -> Option<std::cmp::Ordering> {
        Some(self.cmp(other))
    }
}

impl Ord for Keyed {
    fn cmp(&self, other: &Self) -> std::cmp::Ordering {
        self.key.cmp(&other.key)
    }
}

fn kd(key: i32, tag: u8) -> Keyed {
    Keyed { key, tag }
}

#[test]
fn ties_never_move() {
    let mut maxh: MaxHeap<Keyed> = MaxHeap::new();
    maxh.push(kd(5, 0));
    maxh.push(kd(5, 1));
    maxh.push(kd(5, 2));
    assert_eq!(maxh.item(), &vec![kd(5, 0), kd(5, 1), kd(5, 2)]);

    let mut minh: MinHeap<Keyed> = MinHeap::new();
    minh.push(kd(1, 0));
    minh.push(kd(1, 1));
    assert_eq!(minh.item(), &vec![kd(1, 0), kd(1, 1)]);
    assert_eq!(minh.pop(), Some(kd(1, 0)));

    let mut m2: MinHeap<Keyed> = MinHeap::new();
    for t in 0..4 {
        m2.push(kd(2, t));
    }
    assert_eq!(m2.pop(), Some(kd(2, 0)));
    assert_eq!(m2.item(), &vec![kd(2, 3), kd(2, 1), kd(2, 2)]);

    let built: MinHeap<Keyed> = MinHeap::from_vec(&[kd(3, 0), kd(3, 1), kd(3, 2)]);
    assert_eq!(built.item(), &vec![kd(3, 0), kd(3, 1), kd(3, 2)]);
}

#[test]
fn sift_down_moves_along_one_path() {
    let mut h: MaxHeap<i32> = MaxHeap::from_vec(&[9, 8, 7, 6, 5, 4, 3]);
    assert_eq!(h.pop(), Some(9));
    assert_eq!(h.item(), &vec![8, 6, 7, 3, 5, 4]);
    h.shift_down();
    assert_eq!(h.item(), &vec![8, 6, 7, 3, 5, 4]);
    let mut e: MinHeap<i32> = MinHeap::new();
    e.shift_down();
    e.shift_up();
    assert!(e.is_empty());
}
