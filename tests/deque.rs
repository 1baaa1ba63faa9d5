use token_deque::Deque;

#[test]
fn push_get_works() {
    let mut l = Deque::new();
    let t10 = l.push_front(10u8);

    let r = l.get(&t10);
    assert_eq!(Some(&10), r);
    let r = l.get_front();
    assert_eq!(Some(&10), r);
    let r = l.get_back();
    assert_eq!(Some(&10), r);

    let mut l = Deque::new();
    let t11 = l.push_back(11u8);

    let r = l.get(&t11);
    assert_eq!(Some(&11), r);
    let r = l.get_front();
    assert_eq!(Some(&11), r);
    let r = l.get_back();
    assert_eq!(Some(&11), r);
}

#[test]
fn push_remove_works() {
    let mut l = Deque::new();
    let t10 = l.push_front(10u8);

    let r = l.remove(&t10);
    assert_eq!(Some(10), r);
}

#[test]
fn push_remove_front_get_is_none() {
    let mut l = Deque::new();
    let t10 = l.push_front(10u8);

    let r = l.get_front();
    assert_eq!(Some(&10), r);

    let r = l.pop_front();
    assert_eq!(Some(10), r);

    let r = l.get(&t10);
    assert_eq!(None, r);
}

#[test]
fn push_remove_back_get_is_none() {
    let mut l = Deque::new();
    let t10 = l.push_front(10u8);

    let r = l.get_back();
    assert_eq!(Some(&10), r);

    let r = l.pop_back();
    assert_eq!(Some(10), r);

    let r = l.get(&t10);
    assert_eq!(None, r);
}

#[test]
fn push_back_works() {
    let mut l = Deque::new();
    let t10 = l.push_back(10u8);
    let t11 = l.push_back(11u8);

    let r = l.get(&t10);
    assert_eq!(Some(&10), r);
    let r = l.get(&t11);
    assert_eq!(Some(&11), r);

    let r = l.get_front();
    assert_eq!(Some(&10), r);
    let r = l.get_back();
    assert_eq!(Some(&11), r);
}

#[test]
fn counts_work_as_expected() {
    let mut l = Deque::new();
    l.push_front(10u8);
    l.push_front(11u8);
    assert_eq!(2, l.len());
    assert_eq!(0, l.len_freelist());

    l.pop_back();
    assert_eq!(1, l.len());
    assert_eq!(1, l.len_freelist());

    l.pop_back();
    assert_eq!(0, l.len());
    assert_eq!(2, l.len_freelist());

    l.push_front(12u8);
    assert_eq!(1, l.len());
    assert_eq!(1, l.len_freelist());

    l.push_front(13u8);
    assert_eq!(2, l.len());
    assert_eq!(0, l.len_freelist());
}

#[test]
fn get_mut_allows_values_to_be_replaced() {
    let mut l = Deque::new();
    l.push_front(10u8);
    let t = l.push_front(11u8);
    l.push_front(12u8);

    if let Some(v) = l.get_mut(&t) {
        *v = 20;
    }

    let r = l.pop_back();
    assert_eq!(Some(10), r);
    let r = l.pop_back();
    assert_eq!(Some(20), r);
    let r = l.pop_back();
    assert_eq!(Some(12), r);
}

#[test]
fn can_be_created_from_iterator() {
    let mut l = Deque::from_vec((0..5).collect());

    let r = l.pop_front();
    assert_eq!(Some(0), r);
    let r = l.pop_front();
    assert_eq!(Some(1), r);
    let r = l.pop_front();
    assert_eq!(Some(2), r);
    let r = l.pop_front();
    assert_eq!(Some(3), r);
    let r = l.pop_front();
    assert_eq!(Some(4), r);
}

#[test]
fn with_capacity_preallocates_free_list() {
    let mut l = Deque::with_capacity(3);
    assert_eq!(3, l.len_freelist());
    assert_eq!(0, l.len());

    l.push_front(());
    assert_eq!(2, l.len_freelist());
    assert_eq!(1, l.len());

    // The arena has not grown.
    assert_eq!(3, l.capacity());

    l.push_front(());
    l.push_front(());
    l.push_front(());

    assert_eq!(0, l.len_freelist());
    assert_eq!(4, l.len());

    // The arena has grown to hold the fourth element.
    assert!(3 < l.capacity());
}

#[test]
fn get_front_mut_allows_front_to_change_value() {
    let mut l = Deque::new();
    l.push_front(10u8);

    if let Some(r) = l.get_front_mut() {
        *r = 100;
    }

    assert_eq!(Some(&100), l.get_front());
}

#[test]
fn get_back_mut_allows_back_to_change_value() {
    let mut l = Deque::new();
    l.push_back(10u8);

    if let Some(r) = l.get_back_mut() {
        *r = 100;
    }

    assert_eq!(Some(&100), l.get_front());
}

#[test]
fn empty_list() {
    let mut l: Deque<u8> = Deque::new();
    let t = l.push_front(1);
    l.pop_front();

    assert!(l.is_empty());

    assert_eq!(None, l.get_front());
    assert_eq!(None, l.get_front_mut());

    assert_eq!(None, l.get_back());
    assert_eq!(None, l.get_back_mut());

    assert_eq!(None, l.pop_front());
    assert_eq!(None, l.pop_back());

    assert_eq!(None, l.get(&t));
}

#[test]
fn generation_protects_against_getting_wrong_item() {
    let mut l: Deque<u8> = Deque::new();

    // Push in a value, and make sure we can see it.
    let t0 = l.push_front(1);
    assert_eq!(Some(&1), l.get(&t0));
    assert_eq!(Some(&mut 1), l.get_mut(&t0));

    // Pop off the value, and make sure we can no longer see it.
    l.pop_front();
    assert_eq!(None, l.get(&t0));
    assert_eq!(None, l.get_mut(&t0));

    // Push in a new value, and make sure we can see it.
    let t1 = l.push_front(2);
    assert_eq!(Some(&2), l.get(&t1));
    assert_eq!(Some(&mut 2), l.get_mut(&t1));

    // Check the first token, and make sure it's still None.
    assert_eq!(None, l.get(&t0));
    assert_eq!(None, l.get_mut(&t0));
}

#[test]
fn reserve_increases_capacity() {
    let mut l: Deque<u8> = Deque::new();
    l.push_front(1);

    let cap = l.capacity();
    let res = cap + 16;

    l.reserve(res);

    assert!(l.capacity() >= res);
}

#[test]
fn debug_string() {
    let mut l: Deque<u8> = Deque::new();

    l.push_back(1);
    l.push_back(2);
    l.push_back(3);

    assert_eq!("[1, 2, 3]", l.debug_string());
}

#[test]
fn default_works() {
    let mut l: Deque<u8> = Default::default();

    l.push_back(1);
    l.push_back(2);
    l.push_back(3);

    assert_eq!(vec![1, 2, 3], l.drain_front().collect());
}

#[test]
fn move_to_front_then_swap_keeps_handles() {
    let mut l: Deque<u8> = Deque::new();
    let t1 = l.push_back(1);
    let t = l.push_back(2);
    let t3 = l.push_back(3);

    assert_eq!(Some(()), l.move_to_front(&t));
    let v: Vec<&u8> = l.iter_front().collect();
    assert_eq!(vec![&2, &1, &3], v);

    assert_eq!(Some(()), l.swap(&t1, &t3));
    let v: Vec<&u8> = l.iter_front().collect();
    assert_eq!(vec![&2, &3, &1], v);
    assert_eq!(Some(&1), l.get(&t1));
    assert_eq!(Some(&3), l.get(&t3));
    assert_eq!(Some(&2), l.get(&t));
}

#[test]
fn with_capacity_then_four_pushes_grows() {
    let mut l: Deque<u32> = Deque::with_capacity(3);
    assert_eq!(3, l.len_freelist());
    assert_eq!(0, l.len());
    for i in 0..4 {
        l.push_back(i);
    }
    assert_eq!(0, l.len_freelist());
    assert_eq!(4, l.len());
    assert!(l.capacity() > 3);
}

#[test]
fn with_capacity_zero_is_empty() {
    let l: Deque<u8> = Deque::with_capacity(0);
    assert_eq!(0, l.len_freelist());
    assert!(l.is_empty());
}

#[test]
fn reserve_leaves_free_list_alone() {
    let mut l: Deque<u8> = Deque::new();
    l.push_back(1);
    l.pop_back();
    assert_eq!(1, l.len_freelist());
    l.reserve(32);
    assert_eq!(1, l.len_freelist());
    assert_eq!(0, l.len());
    assert!(l.capacity() >= 33);
}

#[test]
fn capacity_covers_live_and_free_slots() {
    let mut l: Deque<u8> = Deque::new();
    assert_eq!(0, l.len());
    for i in 0..10 {
        l.push_back(i);
    }
    l.pop_front();
    l.pop_front();
    assert!(l.capacity() >= l.len() + l.len_freelist());
    assert_eq!(10, l.len() + l.len_freelist());
}

#[test]
fn removed_handle_stays_stale_after_slot_reuse() {
    let mut l: Deque<u8> = Deque::new();
    let a = l.push_back(1);
    assert_eq!(Some(1), l.remove(&a));
    assert_eq!(None, l.remove(&a));
    // The freed slot is reused by the next push.
    let b = l.push_back(2);
    assert_eq!(0, l.len_freelist());
    assert_eq!(None, l.get(&a));
    assert_eq!(None, l.remove(&a));
    assert_eq!(None, l.move_to_front(&a));
    assert_eq!(None, l.move_to_back(&a));
    assert_eq!(None, l.swap(&a, &b));
    assert_eq!(None, l.swap(&b, &a));
    assert_eq!(Some(&2), l.get(&b));
}

#[test]
fn remove_interior_element() {
    let mut l: Deque<u8> = Deque::from_vec(vec![1, 2, 3, 4]);
    let mut c = l.cursor_front().unwrap();
    c.move_back();
    c.move_back();
    let t = c.get_token();
    assert_eq!(Some(3), l.remove(&t));
    let v: Vec<&u8> = l.iter_front().collect();
    assert_eq!(vec![&1, &2, &4], v);
    let v: Vec<&u8> = l.iter_back().collect();
    assert_eq!(vec![&4, &2, &1], v);
    assert_eq!(1, l.len_freelist());
}

#[test]
fn move_to_front_of_front_is_a_no_op() {
    let mut l: Deque<u8> = Deque::new();
    let a = l.push_back(1);
    l.push_back(2);
    assert_eq!(Some(()), l.move_to_front(&a));
    let v: Vec<&u8> = l.iter_front().collect();
    assert_eq!(vec![&1, &2], v);
}

#[test]
fn move_to_front_twice_is_once() {
    let mut l: Deque<u8> = Deque::from_vec(vec![1, 2, 3]);
    let c = l.cursor_back().unwrap();
    let t = c.get_token();
    assert_eq!(Some(()), l.move_to_front(&t));
    let once: Vec<u8> = l.iter_front().collect().into_iter().copied().collect();
    assert_eq!(Some(()), l.move_to_front(&t));
    let twice: Vec<u8> = l.iter_front().collect().into_iter().copied().collect();
    assert_eq!(vec![3, 1, 2], once);
    assert_eq!(once, twice);
    assert_eq!(Some(&3), l.get(&t));
}

#[test]
fn move_to_back_moves_and_keeps_handle() {
    let mut l: Deque<u8> = Deque::new();
    let a = l.push_back(1);
    l.push_back(2);
    l.push_back(3);
    assert_eq!(Some(()), l.move_to_back(&a));
    let v: Vec<&u8> = l.iter_front().collect();
    assert_eq!(vec![&2, &3, &1], v);
    assert_eq!(Some(()), l.move_to_back(&a));
    let v: Vec<&u8> = l.iter_front().collect();
    assert_eq!(vec![&2, &3, &1], v);
    assert_eq!(Some(&1), l.get(&a));
    assert_eq!(Some(&1), l.get_back());
    assert_eq!(Some(&2), l.get_front());
}

#[test]
fn move_single_element_is_a_no_op() {
    let mut l: Deque<u8> = Deque::new();
    let a = l.push_back(7);
    assert_eq!(Some(()), l.move_to_front(&a));
    assert_eq!(Some(()), l.move_to_back(&a));
    assert_eq!(Some(&7), l.get_front());
    assert_eq!(Some(&7), l.get_back());
    assert_eq!(1, l.len());
}

#[test]
fn swap_twice_restores_order() {
    let mut l: Deque<u8> = Deque::new();
    let a = l.push_back(1);
    l.push_back(2);
    let c = l.push_back(3);
    l.push_back(4);
    assert_eq!(Some(()), l.swap(&a, &c));
    let v: Vec<&u8> = l.iter_front().collect();
    assert_eq!(vec![&3, &2, &1, &4], v);
    assert_eq!(Some(()), l.swap(&a, &c));
    let v: Vec<&u8> = l.iter_front().collect();
    assert_eq!(vec![&1, &2, &3, &4], v);
}

#[test]
fn swap_with_itself_is_a_no_op() {
    let mut l: Deque<u8> = Deque::from_vec(vec![1, 2, 3]);
    let t = l.cursor_front().unwrap().get_token();
    assert_eq!(Some(()), l.swap(&t, &t));
    let v: Vec<&u8> = l.iter_front().collect();
    assert_eq!(vec![&1, &2, &3], v);
}

#[test]
fn swap_neighbours_both_ways() {
    let mut l: Deque<u8> = Deque::new();
    let a = l.push_back(1);
    let b = l.push_back(2);
    let c = l.push_back(3);
    assert_eq!(Some(()), l.swap(&a, &b));
    let v: Vec<&u8> = l.iter_front().collect();
    assert_eq!(vec![&2, &1, &3], v);
    assert_eq!(Some(()), l.swap(&c, &a));
    let v: Vec<&u8> = l.iter_front().collect();
    assert_eq!(vec![&2, &3, &1], v);
    let v: Vec<&u8> = l.iter_back().collect();
    assert_eq!(vec![&1, &3, &2], v);
    assert_eq!(Some(&1), l.get_back());
    assert_eq!(Some(&2), l.get_front());
    assert_eq!(Some(1), l.remove(&a));
    assert_eq!(Some(2), l.remove(&b));
    assert_eq!(Some(3), l.remove(&c));
    assert!(l.is_empty());
}

#[test]
fn swap_ends_of_two() {
    let mut l: Deque<u8> = Deque::new();
    let a = l.push_back(1);
    let b = l.push_back(2);
    assert_eq!(Some(()), l.swap(&b, &a));
    assert_eq!(Some(&2), l.get_front());
    assert_eq!(Some(&1), l.get_back());
}

#[test]
fn from_vec_is_repeated_push_back() {
    let l = Deque::from_vec(vec![5u8, 6, 7]);
    assert_eq!(3, l.len());
    assert_eq!(0, l.len_freelist());
    assert_eq!(Some(&5), l.get_front());
    assert_eq!(Some(&7), l.get_back());
    let e: Deque<u8> = Deque::from_vec(Vec::new());
    assert!(e.is_empty());
}

#[test]
fn pops_come_from_their_own_end() {
    let mut l: Deque<u8> = Deque::new();
    l.push_back(10);
    l.push_back(20);
    l.push_front(5);
    assert_eq!(Some(5), l.pop_front());
    assert_eq!(Some(20), l.pop_back());
    assert_eq!(Some(10), l.pop_back());
    assert_eq!(None, l.pop_back());
    assert_eq!(3, l.len_freelist());
}
