use structures::heap::{heapsort, BinaryHeap};
use structures::linked_list;
use structures::linked_list_fifth;
use structures::linked_list_fourth;
use structures::linked_list_third;
use structures::lis::longest_increasing_subsequence;
use structures::unefficient_queue::Queue;

#[test]
fn insert() {
    let mut h = BinaryHeap::new();
    h.insert(5);
    h.insert(4);
    h.insert(6);
    h.insert(3);

    assert_eq!(h.get_min(), 3);
}

#[test]
fn get_min() {
    let mut h = BinaryHeap::new();
    h.insert(-1);
    h.insert(4);
    h.insert(-6);
    h.insert(3);

    let m = h.get_min();
    assert_eq!(m, h.get_min());
    assert_eq!(m, -6);
}

#[test]
fn remove_min() {
    let mut h = BinaryHeap::new();
    h.insert(5);
    h.insert(4);
    h.insert(6);
    h.insert(3);
    h.remove_min();

    assert_eq!(h.get_min(), 4);
    assert_eq!(h.len(), 3);
}

#[test]
fn heap_sorting() {
    let mut h = BinaryHeap::new();
    h.insert(5);
    h.insert(4);
    h.insert(6);
    h.insert(3);

    assert_eq!(h.get_min(), 3);
    h.remove_min();
    assert_eq!(h.get_min(), 4);
    h.remove_min();
    assert_eq!(h.get_min(), 5);
    h.remove_min();
    assert_eq!(h.get_min(), 6);
    h.remove_min();
}

#[test]
fn is_empty() {
    let mut h = BinaryHeap::new();
    assert!(h.is_empty());
    h.insert(6);
    assert!(!h.is_empty());
    h.remove_min();
    assert!(h.is_empty());
}

#[test]
fn heapsort_vector() {
    let mut v = vec![3, 4, -1, 0, 192, 20];
    heapsort(&mut v);
    assert_eq!(v, [-1, 0, 3, 4, 20, 192]);
}

#[test]
fn heapsort_empty_vector() {
    let mut v: Vec<i64> = Vec::new();
    heapsort(&mut v);
    assert!(v.is_empty());
}

#[test]
fn heapsort_duplicates() {
    let mut v = vec![2, 1, 2, 1, 2];
    heapsort(&mut v);
    assert_eq!(v, [1, 1, 2, 2, 2]);
}

#[test]
fn create_list() {
    linked_list::List::<i32>::new();
}

#[test]
fn push() {
    let mut l = linked_list::List::new();
    l.push(2);
    assert_eq!(l.pop(), Some(2));
}

#[test]
fn peek() {
    let mut l = linked_list::List::new();
    l.push(2);
    assert_eq!(l.peek(), Some(&2));
    assert_eq!(l.pop(), Some(2));
    assert_eq!(l.peek(), None);
}

#[test]
fn push_and_pop() {
    let mut l = linked_list::List::new();
    l.push(1);
    l.push(2);
    assert_eq!(l.pop(), Some(2));
    assert_eq!(l.pop(), Some(1));
    assert_eq!(l.pop(), None);
    l.push(3);
    assert_eq!(l.pop(), Some(3));
}

#[test]
fn linked_list_into_iter() {
    let mut l = linked_list::List::new();
    l.push(1);
    l.push(2);
    l.push(3);
    l.push(4);
    let mut i = 4;
    let mut it = l.into_iter();
    while let Some(j) = it.next() {
        assert_eq!(j, i);
        i = i - 1;
    }
}

#[test]
fn linked_list_iter() {
    let mut l = linked_list::List::new();
    l.push(1);
    l.push(2);
    l.push(3);
    l.push(4);
    let mut i = 4;
    let mut it = l.iter();
    while let Some(&j) = it.next() {
        assert_eq!(j, i);
        i = i - 1;
    }
    l.push(5);
}

#[test]
fn linked_list_fifth_basics() {
    let mut list = linked_list_fifth::List::new();

    // Check empty list behaves right
    assert_eq!(list.pop(), None);

    // Populate list
    list.push(1);
    list.push(2);
    list.push(3);

    // Check normal removal
    assert_eq!(list.pop(), Some(1));
    assert_eq!(list.pop(), Some(2));

    // Push some more just to make sure nothing's corrupted
    list.push(4);
    list.push(5);

    // Check normal removal
    assert_eq!(list.pop(), Some(3));
    assert_eq!(list.pop(), Some(4));

    // Check exhaustion
    assert_eq!(list.pop(), Some(5));
    assert_eq!(list.pop(), None);

    // Check the exhaustion case left the list usable
    list.push(6);
    list.push(7);

    // Check normal removal
    assert_eq!(list.pop(), Some(6));
    assert_eq!(list.pop(), Some(7));
    assert_eq!(list.pop(), None);
}

#[test]
fn linked_list_fifth_into_iter() {
    let mut list = linked_list_fifth::List::new();
    list.push(1);
    list.push(2);
    list.push(3);

    let mut iter = list.into_iter();
    assert_eq!(iter.next(), Some(1));
    assert_eq!(iter.next(), Some(2));
    assert_eq!(iter.next(), Some(3));
    assert_eq!(iter.next(), None);
}

#[test]
fn linked_list_fifth_iter() {
    let mut list = linked_list_fifth::List::new();
    list.push(1);
    list.push(2);
    list.push(3);

    let mut iter = list.iter();
    assert_eq!(iter.next(), Some(&1));
    assert_eq!(iter.next(), Some(&2));
    assert_eq!(iter.next(), Some(&3));
    assert_eq!(iter.next(), None);
}

#[test]
fn linked_list_third_basics() {
    let list = linked_list_third::List::new();
    assert_eq!(list.head(), None);

    let list = list.append(1).append(2).append(3);
    assert_eq!(list.head(), Some(&3));

    let list = list.tail();
    assert_eq!(list.head(), Some(&2));

    let list = list.tail();
    assert_eq!(list.head(), Some(&1));

    let list = list.tail();
    assert_eq!(list.head(), None);

    let list = list.tail();
    assert_eq!(list.head(), None);
}

#[test]
fn linked_list_third_iter() {
    let list = linked_list_third::List::new();
    let list = list.append(1).append(2).append(3);

    let mut i = 3;
    let mut it = list.iter();
    while let Some(&j) = it.next() {
        assert_eq!(j, i);
        i = i - 1;
    }
}

#[test]
fn basics_front() {
    let mut l = linked_list_fourth::List::<i32>::new();
    assert_eq!(l.pop_front(), None);

    l.push_front(5);
    l.push_front(4);

    assert_eq!(l.pop_front(), Some(4));
    assert_eq!(l.pop_front(), Some(5));
    assert_eq!(l.pop_front(), None);

    l.push_front(5);
    l.push_front(4);

    assert_eq!(l.peek_front().unwrap(), &4);
    assert_eq!(l.pop_front(), Some(4));
    assert_eq!(l.pop_front(), Some(5));
    assert_eq!(l.pop_front(), None);
}

#[test]
fn basics_back() {
    let mut l = linked_list_fourth::List::<i32>::new();
    assert_eq!(l.pop_back(), None);

    l.push_back(5);
    l.push_back(4);

    assert_eq!(l.peek_back().unwrap(), &4);
    assert_eq!(l.pop_back(), Some(4));
    assert_eq!(l.pop_back(), Some(5));
    assert_eq!(l.pop_back(), None);

    l.push_back(5);
    l.push_back(4);

    assert_eq!(l.pop_back(), Some(4));
    assert_eq!(l.pop_back(), Some(5));
    assert_eq!(l.pop_back(), None);
}

#[test]
fn basics_front_back() {
    let mut l = linked_list_fourth::List::new();
    l.push_back(1);
    l.push_back(2);
    l.push_front(0);

    assert_eq!(l.pop_back(), Some(2));
    assert_eq!(l.pop_front(), Some(0));
    assert_eq!(l.pop_front(), Some(1));
}

#[test]
fn basics_mut() {
    let mut l = linked_list_fourth::List::new();

    l.push_back(1);
    l.push_back(2);
    {
        let k = l.peek_front_mut().unwrap();
        *k = 5;
    }
    {
        let k = l.peek_back_mut().unwrap();
        *k = 8;
    }
    assert_eq!(l.pop_front(), Some(5));
    assert_eq!(l.pop_front(), Some(8));
}

#[test]
fn fifth_peek_mut_changes_front() {
    let mut list = linked_list_fifth::List::new();
    list.push(1);
    list.push(2);
    {
        let k = list.peek_mut().unwrap();
        *k = 9;
    }
    assert_eq!(list.pop(), Some(9));
    assert_eq!(list.pop(), Some(2));
}

#[test]
fn linked_list_fourth_into_iter() {
    let mut list = linked_list_fourth::List::new();
    list.push_front(1);
    list.push_front(2);
    list.push_front(3);

    let mut iter = list.into_iter();
    assert_eq!(iter.next(), Some(3));
    assert_eq!(iter.next_back(), Some(1));
    assert_eq!(iter.next(), Some(2));
    assert_eq!(iter.next_back(), None);
    assert_eq!(iter.next(), None);
}

#[test]
fn basic() {
    let res: usize = longest_increasing_subsequence(&vec![2, 4, 3, 5, 1, 7, 6, 9, 8]);
    assert_eq!(5, res);
}

#[test]
fn empty_list() {
    let res: usize = longest_increasing_subsequence(&Vec::<i64>::new());
    assert_eq!(0, res);
}

#[test]
fn single_element_list() {
    let res: usize = longest_increasing_subsequence(&vec![5]);
    assert_eq!(1, res);
}

#[test]
fn decreasing_list() {
    let res: usize = longest_increasing_subsequence(&vec![9, 7, 5, 3, 1]);
    assert_eq!(1, res);
}

#[test]
fn unefficient_queue_basics() {
    let mut q = Queue::new();
    assert_eq!(q.dequeue(), None);

    q.enqueue(1);
    assert_eq!(q.dequeue(), Some(1));
    q.enqueue(2);
    q.enqueue(3);
    q.enqueue(4);
    assert_eq!(q.dequeue(), Some(2));
    assert_eq!(q.dequeue(), Some(3));
    assert_eq!(q.dequeue(), Some(4));
    assert_eq!(q.dequeue(), None);
    q.enqueue(5);
    q.enqueue(6);
    q.enqueue(7);

    assert_eq!(q.dequeue(), Some(5));
    assert_eq!(q.dequeue(), Some(6));
    assert_eq!(q.dequeue(), Some(7));
    assert_eq!(q.dequeue(), None);
}

#[test]
fn unefficient_queue_iter() {
    let mut q = Queue::new();

    q.enqueue(1);
    q.enqueue(2);
    q.enqueue(3);
    q.enqueue(4);
    q.enqueue(5);
    q.enqueue(6);

    let mut i = 1;
    let mut it = q.iter();
    while let Some(&k) = it.next() {
        assert_eq!(k, i);
        i = i + 1;
    }
}

#[test]
fn unefficient_queue_into_iter() {
    let mut q = Queue::new();

    q.enqueue(1);
    q.enqueue(2);
    q.enqueue(3);
    q.enqueue(4);
    q.enqueue(5);
    q.enqueue(6);

    let mut i = 1;
    let mut it = q.into_iter();
    while let Some(k) = it.next() {
        assert_eq!(k, i);
        i = i + 1;
    }
}

#[test]
fn queue_peek() {
    let mut q = Queue::new();
    assert_eq!(q.peek(), None);
    q.enqueue(8);
    q.enqueue(9);
    assert_eq!(q.peek(), Some(&8));
    q.dequeue();
    assert_eq!(q.peek(), Some(&9));
}
