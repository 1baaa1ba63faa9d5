use token_deque::Deque;

#[test]
fn filter_can_find_items() {
    let mut l = Deque::new();
    l.push_front(10u8);
    l.push_front(11u8);
    l.push_front(12u8);

    assert_eq!(Some(&10), l.iter_front().collect().into_iter().filter(|i| **i == 10).next());
    assert_eq!(Some(&11), l.iter_front().collect().into_iter().filter(|i| **i == 11).next());
    assert_eq!(Some(&12), l.iter_front().collect().into_iter().filter(|i| **i == 12).next());
    assert_eq!(None, l.iter_front().collect().into_iter().filter(|i| **i == 13).next());
}

#[test]
fn iterator_filter_can_find_duplicates() {
    let mut l = Deque::new();
    l.push_back(10u8);
    l.push_back(11u8);
    l.push_back(12u8);
    l.push_back(13u8);
    l.push_back(14u8);

    let mut s = l.iter_front().collect().into_iter().filter(|i| 0 == *i % 2);

    assert_eq!(Some(&10), s.next());
    assert_eq!(Some(&12), s.next());
    assert_eq!(Some(&14), s.next());
    assert_eq!(None, s.next());

    let mut s = l.iter_back().collect().into_iter().filter(|i| 0 == *i % 2);

    assert_eq!(Some(&14), s.next());
    assert_eq!(Some(&12), s.next());
    assert_eq!(Some(&10), s.next());
    assert_eq!(None, s.next());
}

#[test]
fn iters_finds_everything() {
    let mut l = Deque::new();
    l.push_front(10u8);
    let tok = l.push_front(11u8);
    l.push_front(12u8);

    let v: Vec<&u8> = l.iter_front().collect();
    assert_eq!(vec![&12, &11, &10], v);
    let v: Vec<&u8> = l.iter_back().collect();
    assert_eq!(vec![&10, &11, &12], v);

    l.remove(&tok);

    let v: Vec<&u8> = l.iter_front().collect();
    assert_eq!(vec![&12, &10], v);
    let v: Vec<&u8> = l.iter_back().collect();
    assert_eq!(vec![&10, &12], v);
}

#[test]
fn drains_find_everything_and_leave_slots_free() {
    let mut l = Deque::new();
    l.push_front(10u8);
    l.push_front(11u8);
    l.push_front(12u8);

    assert_eq!(0, l.len_freelist());
    let v: Vec<u8> = l.drain_front().collect();
    assert_eq!(vec![12, 11, 10], v);
    assert_eq!(3, l.len_freelist());

    let mut l = Deque::new();
    l.push_front(10u8);
    l.push_front(11u8);
    l.push_front(12u8);

    assert_eq!(0, l.len_freelist());
    let v: Vec<u8> = l.drain_back().collect();
    assert_eq!(vec![10, 11, 12], v);
    assert_eq!(3, l.len_freelist());
}

#[test]
fn drain_front_of_three_frees_all_slots() {
    let mut l: Deque<u8> = Deque::new();
    l.push_back(1);
    l.push_back(2);
    l.push_back(3);
    let v: Vec<u8> = l.drain_front().collect();
    assert_eq!(vec![1, 2, 3], v);
    assert_eq!(3, l.len_freelist());
    assert_eq!(0, l.len());
}

#[test]
fn drain_stepwise_keeps_the_deque_consistent() {
    let mut l: Deque<u8> = Deque::from_vec(vec![1, 2, 3, 4]);
    {
        let mut d = l.drain_front();
        assert_eq!(Some(1), d.next());
        let mut b = Vec::new();
        while let Some(x) = d.next() {
            b.push(x);
            if b.len() == 1 {
                break;
            }
        }
        assert_eq!(vec![2], b);
    }
    assert_eq!(2, l.len());
    assert_eq!(2, l.len_freelist());
    assert_eq!(Some(&3), l.get_front());
    {
        let mut d = l.drain_back();
        assert_eq!(Some(4), d.next());
    }
    assert_eq!(Some(&3), l.get_front());
    assert_eq!(Some(&3), l.get_back());
    l.push_front(9);
    let v: Vec<&u8> = l.iter_front().collect();
    assert_eq!(vec![&9, &3], v);
}

#[test]
fn walks_from_both_ends_agree() {
    let mut l: Deque<u8> = Deque::new();
    for i in 0..6 {
        if i % 2 == 0 {
            l.push_front(i);
        } else {
            l.push_back(i);
        }
    }
    l.pop_back();
    let t = l.cursor_front().unwrap().get_token();
    l.move_to_back(&t);
    let f: Vec<u8> = l.iter_front().collect().into_iter().copied().collect();
    let mut b: Vec<u8> = l.iter_back().collect().into_iter().copied().collect();
    b.reverse();
    assert_eq!(f, b);
    assert_eq!(l.len(), f.len());
    assert_eq!(vec![2, 0, 1, 3, 4], f);
}

#[test]
fn step_iterators_end_with_none() {
    let l: Deque<u8> = Deque::from_vec(vec![1, 2]);
    let mut f = l.iter_front();
    assert_eq!(Some(&1), f.next());
    assert_eq!(Some(&2), f.next());
    assert_eq!(None, f.next());
    assert_eq!(None, f.next());
    let mut b = l.iter_back();
    assert_eq!(Some(&2), b.next());
    assert_eq!(Some(&1), b.next());
    assert_eq!(None, b.next());
    let e: Deque<u8> = Deque::new();
    assert_eq!(None, e.iter_front().next());
    assert_eq!("[]", e.debug_string());
}
