use rust_monster::lists::fifth;
use rust_monster::lists::first;
use rust_monster::lists::fourth;
use rust_monster::lists::second;
use rust_monster::lists::third;

#[test]
fn first_new_is_empty() {
    let list = first::List::new();
    assert!(list.is_empty());
}

#[test]
fn empty_pop_fails() {
    let mut list = first::List::new();
    assert_eq!(list.pop(), None);
}

#[test]
fn first_push_is_not_empty() {
    let mut list = first::List::new();
    list.push(5);
    assert!(!list.is_empty());
}

#[test]
fn first_pop_gives_last_value() {
    let mut list = first::List::new();
    list.push(5);
    assert_eq!(list.pop(), Some(5));

    let mut list = first::List::new();
    list.push(3);
    list.push(5);
    assert_eq!(list.pop(), Some(5));
}

#[test]
fn first_pop_gives_prev_values() {
    let mut list = first::List::new();
    list.push(1);
    list.push(3);
    list.push(5);
    assert_eq!(list.pop(), Some(5));
    assert_eq!(list.pop(), Some(3));
    assert_eq!(list.pop(), Some(1));
    assert_eq!(list.pop(), None);
}

#[test]
fn first_default_is_empty() {
    let mut list = first::List::default();
    assert!(list.is_empty());
    assert_eq!(list.pop(), None);
}

#[test]
fn second_new_is_empty() {
    let list: second::List<i32> = second::List::new();
    assert!(list.is_empty());
}

#[test]
fn empty_pop_gives_none() {
    let mut list: second::List<i32> = second::List::new();
    assert_eq!(list.pop(), None);
}

#[test]
fn second_push_is_not_empty() {
    let mut list: second::List<i32> = second::List::new();
    list.push(5);
    assert!(!list.is_empty());
}

#[test]
fn second_pop_gives_last_value() {
    let mut list: second::List<i32> = second::List::new();
    list.push(5);
    assert_eq!(list.pop(), Some(5));

    let mut list: second::List<i32> = second::List::new();
    list.push(3);
    list.push(5);
    assert_eq!(list.pop(), Some(5));
}

#[test]
fn second_pop_gives_prev_values() {
    let mut list: second::List<i32> = second::List::new();
    list.push(1);
    list.push(3);
    list.push(5);
    assert_eq!(list.pop(), Some(5));
    assert_eq!(list.pop(), Some(3));
    assert_eq!(list.pop(), Some(1));
    assert_eq!(list.pop(), None);
}

#[test]
fn empty_peek_gives_none() {
    let list: second::List<i32> = second::List::new();
    assert_eq!(list.peek(), None);
}

#[test]
fn peek_gives_last_value() {
    let mut list: second::List<i32> = second::List::new();
    list.push(3);
    assert_eq!(list.peek().map(|c| *c), Some(3));
    list.push(5);
    assert_eq!(list.peek().map(|c| *c), Some(5));
}

#[test]
fn empty_peek_mut_gives_none() {
    let mut list: second::List<i32> = second::List::new();
    assert_eq!(list.peek_mut(), None);
}

#[test]
fn peek_mut_gives_last_value() {
    let mut list: second::List<i32> = second::List::new();
    list.push(3);
    if let Some(a) = list.peek_mut() {
        assert_eq!(*a, 3);
        *a = 5;
    } else {
        assert!(false);
    }
    assert_eq!(list.peek_mut().map(|c| *c), Some(5));
}

#[test]
fn into_iter_collect_backwards() {
    let mut list: second::List<i32> = second::List::new();
    list.push(3);
    list.push(2);
    list.push(1);

    assert_eq!(list.into_iter().collect(), vec![1, 2, 3]);
}

#[test]
fn iter_collect_backwards() {
    let mut list: second::List<i32> = second::List::new();
    list.push(3);
    list.push(2);
    list.push(1);

    let mut it = list.iter();
    assert_eq!(it.next(), Some(&1));
    assert_eq!(it.next(), Some(&2));
    assert_eq!(it.next(), Some(&3));
    assert_eq!(it.next(), None);

    // Ensure the data is still there.
    assert_eq!(list.into_iter().collect(), vec![1, 2, 3]);
}

#[test]
fn iter_mut_collect_backwards() {
    let mut list: second::List<i32> = second::List::new();
    list.push(3);
    list.push(2);
    list.push(1);

    let mut it = list.iter_mut();
    assert_eq!(it.next(), Some(&mut 1));
    assert_eq!(it.next(), Some(&mut 2));
    assert_eq!(it.next(), Some(&mut 3));
    assert_eq!(it.next(), None);

    // Ensure the data is still there.
    assert_eq!(list.into_iter().collect(), vec![1, 2, 3]);
}

#[test]
fn iter_mut_changes_reach_the_list() {
    let mut list: second::List<i32> = second::List::new();
    list.push(3);
    list.push(2);
    list.push(1);

    let mut it = list.iter_mut();
    while let Some(x) = it.next() {
        *x *= 10;
    }
    assert_eq!(list.into_iter().collect(), vec![10, 20, 30]);
}

#[test]
fn into_iter_next_takes_from_the_top() {
    let mut list: second::List<i32> = second::List::new();
    list.push(7);
    list.push(8);
    let mut it = list.into_iter();
    assert_eq!(it.next(), Some(8));
    assert_eq!(it.collect(), vec![7]);
}

#[test]
fn head_after_prepend() {
    let xs: third::List<i32> = third::List::new();
    assert_eq!(xs.head(), None);
    let xs = xs.prepend(1);
    assert_eq!(xs.head(), Some(&1));
    let xs = xs.prepend(3);
    assert_eq!(xs.head(), Some(&3));
}

#[test]
fn head_after_tail() {
    let xs: third::List<i32> = third::List::new();
    let xs = xs.prepend(1);
    let xs = xs.prepend(3);
    let xs = xs.tail();
    assert_eq!(xs.head(), Some(&1));
    let xs = xs.tail();
    assert_eq!(xs.head(), None);
    let xs = xs.tail();
    assert_eq!(xs.head(), None);
}

#[test]
fn iter() {
    let xs: third::List<i32> = third::List::new();
    let xs = xs.prepend(1);
    let xs = xs.prepend(3);
    assert_eq!(xs.iter().collect(), vec![&3, &1]);
}

#[test]
fn prepend_shares_the_tail() {
    let base: third::List<i32> = third::List::new().prepend(1);
    let left = base.prepend(2);
    let right = base.prepend(3);
    assert_eq!(left.iter().collect(), vec![&2, &1]);
    assert_eq!(right.iter().collect(), vec![&3, &1]);
    assert_eq!(base.iter().collect(), vec![&1]);
    assert_eq!(left.tail().head(), Some(&1));
}

#[test]
fn drop_nonempty() {
    let mut xs: fourth::List<i32> = fourth::List::new();
    for i in 0..5 {
        xs.push_back(i);
    }
    // check with valgrind that no memory was leaked
}

#[test]
fn push_pop_front() {
    let mut xs: fourth::List<i32> = fourth::List::new();
    assert_eq!(xs.pop_front(), None);
    xs.push_front(3);
    xs.push_front(5);
    assert_eq!(xs.pop_front(), Some(5));
    assert_eq!(xs.pop_front(), Some(3));
    assert_eq!(xs.pop_front(), None);
}

#[test]
fn push_back_pop_front() {
    let mut xs: fourth::List<i32> = fourth::List::new();
    assert_eq!(xs.pop_front(), None);
    xs.push_back(3);
    xs.push_back(5);
    assert_eq!(xs.pop_front(), Some(3));
    assert_eq!(xs.pop_front(), Some(5));
    assert_eq!(xs.pop_front(), None);
}

#[test]
fn push_peek_front() {
    let mut xs: fourth::List<i32> = fourth::List::new();
    assert_eq!(xs.peek_front().as_deref(), None);
    xs.push_front(3);
    assert_eq!(xs.peek_front().as_deref(), Some(&3));
    xs.push_front(5);
    assert_eq!(xs.peek_front().as_deref(), Some(&5));
}

#[test]
fn push_peek_mut_front() {
    let mut xs: fourth::List<i32> = fourth::List::new();
    assert_eq!(xs.peek_front_mut().as_deref(), None);
    xs.push_front(3);
    assert_eq!(xs.peek_front_mut().as_deref(), Some(&3));
    xs.push_front(5);
    assert_eq!(xs.peek_front_mut().as_deref(), Some(&5));
}

#[test]
fn collect_into_iter() {
    let mut xs: fourth::List<i32> = fourth::List::new();
    xs.push_back(1);
    xs.push_back(3);
    xs.push_back(5);
    assert_eq!(xs.into_iter().collect(), vec![1, 3, 5]);
}

#[test]
fn double_ended_iterator() {
    let mut xs: fourth::List<i32> = fourth::List::new();
    for i in 0..5 {
        xs.push_back(i);
    }
    let mut iter = xs.into_iter();
    assert_eq!(iter.next(), Some(0));
    assert_eq!(iter.next(), Some(1));
    assert_eq!(iter.next_back(), Some(4));
    assert_eq!(iter.next(), Some(2));
    assert_eq!(iter.next_back(), Some(3));
    assert_eq!(iter.next_back(), None);
    assert_eq!(iter.next(), None);
}

#[test]
fn pop_back_takes_the_last() {
    let mut xs: fourth::List<i32> = fourth::List::default();
    assert_eq!(xs.pop_back(), None);
    xs.push_front(1);
    xs.push_back(2);
    xs.push_front(0);
    assert_eq!(xs.pop_back(), Some(2));
    assert_eq!(xs.pop_back(), Some(1));
    assert_eq!(xs.pop_back(), Some(0));
    assert_eq!(xs.pop_back(), None);
}

#[test]
fn peek_front_mut_changes_the_front() {
    let mut xs: fourth::List<i32> = fourth::List::new();
    xs.push_back(1);
    xs.push_back(2);
    if let Some(front) = xs.peek_front_mut() {
        *front = 10;
    }
    assert_eq!(xs.into_iter().collect(), vec![10, 2]);
}

#[test]
fn pop_empty() {
    let mut xs: fifth::List<i32> = fifth::List::new();
    assert_eq!(xs.pop(), None);
}

#[test]
fn push_pop() {
    let mut xs: fifth::List<i32> = fifth::List::new();

    xs.push(1);
    xs.push(2);
    xs.push(3);

    assert_eq!(xs.pop(), Some(1));
    assert_eq!(xs.pop(), Some(2));
    assert_eq!(xs.pop(), Some(3));
    assert_eq!(xs.pop(), None);
}

#[test]
fn push_pop_push_pop() {
    let mut xs: fifth::List<i32> = fifth::List::new();

    xs.push(1);
    xs.push(2);

    assert_eq!(xs.pop(), Some(1));
    assert_eq!(xs.pop(), Some(2));
    assert_eq!(xs.pop(), None);

    xs.push(3);
    xs.push(4);

    assert_eq!(xs.pop(), Some(3));
    assert_eq!(xs.pop(), Some(4));
    assert_eq!(xs.pop(), None);
}

#[test]
fn into_iter_collect() {
    let mut list: fifth::List<i32> = fifth::List::new();
    list.push(1);
    list.push(2);
    list.push(3);

    assert_eq!(list.into_iter().collect(), vec![1, 2, 3]);
}

#[test]
fn iter_collect() {
    let mut list: fifth::List<i32> = fifth::List::new();
    list.push(1);
    list.push(2);
    list.push(3);

    let mut it = list.iter();
    assert_eq!(it.next(), Some(&1));
    assert_eq!(it.next(), Some(&2));
    assert_eq!(it.next(), Some(&3));
    assert_eq!(it.next(), None);

    // Ensure the data is still there.
    assert_eq!(list.into_iter().collect(), vec![1, 2, 3]);
}

#[test]
fn iter_mut_collect() {
    let mut list: fifth::List<i32> = fifth::List::new();
    list.push(1);
    list.push(2);
    list.push(3);

    let mut it = list.iter_mut();
    assert_eq!(it.next(), Some(&mut 1));
    assert_eq!(it.next(), Some(&mut 2));
    assert_eq!(it.next(), Some(&mut 3));
    assert_eq!(it.next(), None);

    // Ensure the data is still there.
    assert_eq!(list.into_iter().collect(), vec![1, 2, 3]);
}

#[test]
fn queue_elements_change_in_place() {
    let mut list: fifth::List<i32> = fifth::List::default();
    list.push(4);
    list.push(6);
    let mut it = list.iter_mut();
    while let Some(x) = it.next() {
        *x += 1;
    }
    assert_eq!(list.pop(), Some(5));
    assert_eq!(list.pop(), Some(7));
    assert_eq!(list.pop(), None);
}
