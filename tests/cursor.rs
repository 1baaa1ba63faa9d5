use token_deque::Deque;

#[test]
fn cursor_can_navigate() {
    let mut l = Deque::new();
    l.push_back(1u8);
    let t = l.push_back(2u8);
    l.push_back(3u8);

    let mut c = l.cursor(&t).unwrap();
    assert_eq!(&2, c.get());

    assert_eq!(Some(&1), c.move_front());
    assert_eq!(&1, c.get());

    assert_eq!(None, c.move_front());
    assert_eq!(&1, c.get());

    assert_eq!(Some(&2), c.move_back());
    assert_eq!(&2, c.get());

    assert_eq!(Some(&3), c.move_back());
    assert_eq!(&3, c.get());

    assert_eq!(None, c.move_back());
    assert_eq!(&3, c.get());
}

#[test]
fn cursor_can_return_a_token() {
    let mut l = Deque::new();
    l.push_back(1u8);
    let t = l.push_back(2u8);
    l.push_back(3u8);

    let mut c = l.cursor(&t).unwrap();
    assert_eq!(&2, c.get());

    c.move_front();
    let t = c.get_token();
    assert_eq!(Some(&1), l.get(&t));
}

#[test]
fn cursormut_can_navigate() {
    let mut l = Deque::new();
    l.push_back(1u8);
    let t = l.push_back(2u8);
    l.push_back(3u8);

    let mut c = l.cursor_mut(&t).unwrap();
    assert_eq!(&2, c.get());

    assert_eq!(Some(&mut 1), c.move_front());
    assert_eq!(&1, c.get());

    assert_eq!(None, c.move_front());
    assert_eq!(&1, c.get());

    assert_eq!(Some(&mut 2), c.move_back());
    assert_eq!(&2, c.get());

    assert_eq!(Some(&mut 3), c.move_back());
    assert_eq!(&3, c.get());

    assert_eq!(None, c.move_back());
    assert_eq!(&3, c.get());
}

#[test]
fn cursormut_can_return_a_token() {
    let mut l = Deque::new();
    l.push_back(1u8);
    let t = l.push_back(2u8);
    l.push_back(3u8);

    let mut c = l.cursor_mut(&t).unwrap();
    assert_eq!(&2, c.get());

    c.move_back();
    let t = c.get_token();
    assert_eq!(Some(&3), l.get(&t));
}

#[test]
fn cursormut_push_front_and_push_back() {
    let mut l = Deque::new();
    l.push_back(1u8);
    let t = l.push_back(2u8);
    l.push_back(3u8);

    let mut c = l.cursor_mut(&t).unwrap();
    assert_eq!(&2, c.get());

    c.push_front(10);
    c.push_back(20);

    let v: Vec<&u8> = l.iter_front().collect();
    assert_eq!(vec![&1, &10, &2, &20, &3], v);
}

#[test]
fn cursormut_remove_front_and_remove_back() {
    let mut l = Deque::new();
    l.push_back(1u8);
    l.push_back(2u8);
    let t = l.push_back(3u8);
    l.push_back(4u8);
    l.push_back(5u8);

    let mut c = l.cursor_mut(&t).unwrap();
    assert_eq!(&3, c.get());

    assert_eq!(Some(2), c.remove_front());
    assert_eq!(Some(1), c.remove_front());
    assert_eq!(None, c.remove_front());
    assert_eq!(Some(4), c.remove_back());
    assert_eq!(Some(5), c.remove_back());
    assert_eq!(None, c.remove_back());
}

#[test]
fn cursor_front() {
    let mut l = Deque::new();
    l.push_back(1);
    l.push_back(2);
    l.push_back(3);

    let mut c = l.cursor_front().unwrap();
    assert_eq!(&1, c.get());
    c.move_back();
    assert_eq!(&2, c.get());
    c.move_back();
    assert_eq!(&3, c.get());

    assert_eq!(None, c.move_back());
    assert_eq!(&3, c.get());
}

#[test]
fn cursor_front_mut() {
    let mut l = Deque::new();
    l.push_front(1);

    let mut c = l.cursor_front_mut().unwrap();

    c.push_front(10);
    c.push_back(20);

    let v: Vec<&u8> = l.iter_front().collect();
    assert_eq!(vec![&10, &1, &20], v);
}

#[test]
fn cursor_back() {
    let mut l = Deque::new();
    l.push_back(1);
    l.push_back(2);
    l.push_back(3);

    let mut c = l.cursor_back().unwrap();
    assert_eq!(&3, c.get());
    c.move_front();
    assert_eq!(&2, c.get());
    c.move_front();
    assert_eq!(&1, c.get());

    assert_eq!(None, c.move_front());
    assert_eq!(&1, c.get());
}

#[test]
fn cursor_back_mut() {
    let mut l = Deque::new();
    l.push_front(1);

    let mut c = l.cursor_back_mut().unwrap();

    c.push_back(20);
    c.push_front(10);

    let v: Vec<&u8> = l.iter_front().collect();
    assert_eq!(vec![&10, &1, &20], v);
}

#[test]
fn cursor_on_stale_token_is_none() {
    let mut l: Deque<u8> = Deque::new();
    let t = l.push_back(1);
    l.remove(&t);
    assert!(l.cursor(&t).is_none());
    assert!(l.cursor_mut(&t).is_none());
    assert!(l.cursor_front().is_none());
    assert!(l.cursor_back().is_none());
    assert!(l.cursor_front_mut().is_none());
    assert!(l.cursor_back_mut().is_none());
}

#[test]
fn cursormut_get_writes_through() {
    let mut l: Deque<u8> = Deque::new();
    l.push_back(1);
    let t = l.push_back(2);
    l.push_back(3);
    {
        let mut c = l.cursor_mut(&t).unwrap();
        *c.get() = 20;
        if let Some(v) = c.move_back() {
            *v = 30;
        }
    }
    let v: Vec<&u8> = l.iter_front().collect();
    assert_eq!(vec![&1, &20, &30], v);
    assert_eq!(Some(&20), l.get(&t));
}

#[test]
fn cursormut_edits_at_the_ends_move_the_ends() {
    let mut l: Deque<u8> = Deque::new();
    let t = l.push_back(5);
    {
        let mut c = l.cursor_mut(&t).unwrap();
        let f = c.push_front(4);
        let b = c.push_back(6);
        assert_ne!(f, b);
        assert_eq!(&5, c.get());
    }
    assert_eq!(Some(&4), l.get_front());
    assert_eq!(Some(&6), l.get_back());
    assert_eq!(3, l.len());
    {
        let mut c = l.cursor_mut(&t).unwrap();
        assert_eq!(Some(4), c.remove_front());
        assert_eq!(Some(6), c.remove_back());
    }
    assert_eq!(Some(&5), l.get_front());
    assert_eq!(Some(&5), l.get_back());
    assert_eq!(1, l.len());
    assert_eq!(2, l.len_freelist());
}

#[test]
fn cursormut_token_of_pushed_element_is_live() {
    let mut l: Deque<u8> = Deque::new();
    let t = l.push_back(1);
    let n = {
        let mut c = l.cursor_mut(&t).unwrap();
        c.push_back(2)
    };
    assert_eq!(Some(&2), l.get(&n));
    assert_eq!(Some(2), l.remove(&n));
    assert_eq!(None, l.get(&n));
}
