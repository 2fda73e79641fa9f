use binheap::data_structures::Heap;
use binheap::data_structures::MaxFirst;
use binheap::data_structures::MinFirst;
use binheap::data_structures::Order;

#[test]
fn removing_items_from_heap_heapifies() {
    let mut heap: Heap<u32> = Heap::new_max();
    heap.add(14);
    heap.add(12);
    heap.add(13);
    heap.add(9);
    heap.add(9);
    heap.add(13);
    heap.add(12);

    println!("Current heap: {:?}", heap.items());

    let next = heap.next();
    // this will replace the root (14) with the last node (12)
    // the root (12) should be replaced with the greatest child (13)
    // then should be replaced with the greatest child (13)
    // Resulting in array rep. 0, 13, 12, 13, 9, 9, 12
    assert_eq!(Some(14), next);

    let expected_vals: Vec<u32> = vec![0, 13, 12, 13, 9, 9, 12];
    println!("Expected heap: {:?}", expected_vals);

    for (idx, expected) in expected_vals.iter().enumerate() {
        assert_eq!(expected, &heap.items()[idx]);
    }
}

#[test]
fn it_works() {
    let mut heap: Heap<u32> = Heap::new_max();
    heap.add(14);
    heap.add(12);

    let next = heap.next();
    assert_eq!(Some(14), next);
}

#[test]
fn two_values_then_nothing() {
    let mut heap: Heap<u32> = Heap::new_max();
    heap.add(14);
    heap.add(12);
    assert_eq!(Some(14), heap.next());
    assert_eq!(Some(12), heap.next());
    assert_eq!(None, heap.next());
    assert_eq!(None, heap.next());
    assert!(heap.is_empty());
}

#[test]
fn new_heap_is_empty() {
    let mut heap: Heap<i64> = Heap::new_max();
    assert_eq!(0, heap.len());
    assert!(heap.is_empty());
    assert_eq!(None, heap.next());
    assert_eq!(0, heap.len());
    assert_eq!(&vec![0i64], heap.items());
}

#[test]
fn len_counts_additions_and_extractions() {
    let mut heap: Heap<u32> = Heap::new_max();
    for (k, v) in [5u32, 3, 8, 1, 9, 2].iter().enumerate() {
        assert_eq!(k, heap.len());
        heap.add(*v);
        assert!(!heap.is_empty());
    }
    assert_eq!(6, heap.len());
    for m in 1..=6usize {
        assert!(heap.next().is_some());
        assert_eq!(6 - m, heap.len());
        assert_eq!(heap.len() == 0, heap.is_empty());
    }
    assert_eq!(None, heap.next());
    assert_eq!(0, heap.len());
}

#[test]
fn single_value_sifts_trivially() {
    let mut heap: Heap<u32> = Heap::new_max();
    heap.add(7);
    assert_eq!(&vec![0u32, 7], heap.items());
    assert_eq!(Some(7), heap.next());
    assert_eq!(&vec![0u32], heap.items());
    assert_eq!(None, heap.next());
}

#[test]
fn max_heap_gives_non_increasing_values() {
    let mut heap: Heap<i32> = Heap::new_max();
    let input = [3, -1, 4, 1, -5, 9, 2, 6, 5, 3, 5];
    for v in input.iter() {
        heap.add(*v);
    }
    let mut out: Vec<i32> = Vec::new();
    while let Some(v) = heap.next() {
        out.push(v);
    }
    assert_eq!(vec![9, 6, 5, 5, 4, 3, 3, 2, 1, -1, -5], out);
}

#[test]
fn min_heap_gives_non_decreasing_values() {
    let mut heap: Heap<i32, MinFirst> = Heap::new_min();
    let input = [3, -1, 4, 1, -5, 9, 2, 6, 5, 3, 5];
    for v in input.iter() {
        heap.add(*v);
    }
    let mut out: Vec<i32> = Vec::new();
    while let Some(v) = heap.next() {
        out.push(v);
    }
    assert_eq!(vec![-5, -1, 1, 2, 3, 3, 4, 5, 5, 6, 9], out);
}

#[test]
fn heap_property_holds_after_each_call() {
    let mut heap: Heap<u32> = Heap::new_max();
    let input = [10u32, 40, 30, 20, 50, 60, 5, 45, 45, 1];
    for (k, v) in input.iter().enumerate() {
        heap.add(*v);
        if k % 3 == 2 {
            heap.next();
        }
        let items = heap.items();
        assert_eq!(heap.len() + 1, items.len());
        for i in 2..items.len() {
            assert!(!(items[i] > items[i / 2]));
        }
    }
}

#[test]
fn add_lets_the_new_value_rise() {
    let mut heap: Heap<u32> = Heap::new_max();
    heap.add(1);
    heap.add(2);
    heap.add(3);
    // 2 rises over 1; 3 rises over 2
    assert_eq!(&vec![0u32, 3, 1, 2], heap.items());
    heap.add(4);
    // 4 rises over 1, then over 3
    assert_eq!(&vec![0u32, 4, 3, 2, 1], heap.items());
}

#[test]
fn min_heap_storage_after_additions() {
    let mut heap: Heap<u32, MinFirst> = Heap::new_min();
    heap.add(3);
    heap.add(2);
    heap.add(1);
    assert_eq!(&vec![0u32, 1, 3, 2], heap.items());
    assert_eq!(Some(1), heap.next());
    assert_eq!(&vec![0u32, 2, 3], heap.items());
}

#[test]
fn heap_with_an_order_object() {
    let mut heap: Heap<u8, MinFirst> = Heap::new(MinFirst);
    heap.add(200);
    heap.add(100);
    heap.add(150);
    assert_eq!(Some(100), heap.next());
    assert_eq!(Some(150), heap.next());
    assert_eq!(Some(200), heap.next());
    assert_eq!(None, heap.next());
}

#[test]
fn orders_decide_greater_and_less() {
    assert!(MaxFirst.precedes(&2u32, &1u32));
    assert!(!MaxFirst.precedes(&1u32, &2u32));
    assert!(!MaxFirst.precedes(&2u32, &2u32));
    assert!(MinFirst.precedes(&1u32, &2u32));
    assert!(!MinFirst.precedes(&2u32, &1u32));
    assert!(!MinFirst.precedes(&2u32, &2u32));
}
