use doubly_linked_list::LinkedList;

fn forward(list: &LinkedList<i32>) -> Vec<i32> {
    let mut out = Vec::new();
    let mut cur = list.head();
    while let Some(r) = cur {
        out.push(*list.data(r));
        cur = list.next(r);
    }
    out
}

fn backward(list: &LinkedList<i32>) -> Vec<i32> {
    let mut out = Vec::new();
    let mut cur = list.tail();
    while let Some(r) = cur {
        out.push(*list.data(r));
        cur = list.prev(r);
    }
    out
}

#[test]
fn push_front_sequence_is_reversed() {
    let mut list = LinkedList::new();
    for v in [10, 20, 30, 40, 50] {
        list.push_front(v);
    }
    assert_eq!(forward(&list), vec![50, 40, 30, 20, 10]);
    assert_eq!(backward(&list), vec![10, 20, 30, 40, 50]);
    assert_eq!(list.len(), 5);
}

#[test]
fn push_back_sequence_keeps_order() {
    let mut list = LinkedList::new();
    for v in [10, 20, 30, 40, 50] {
        list.push_back(v);
    }
    assert_eq!(forward(&list), vec![10, 20, 30, 40, 50]);
    assert_eq!(backward(&list), vec![50, 40, 30, 20, 10]);
}

#[test]
fn pop_front_drains_front_to_back_then_stays_absent() {
    let mut list = LinkedList::new();
    list.push_back(2);
    list.push_front(1);
    list.push_back(3);
    list.push_front(0);
    assert_eq!(list.pop_front(), Some(0));
    assert_eq!(list.pop_front(), Some(1));
    assert_eq!(list.pop_front(), Some(2));
    assert_eq!(list.pop_front(), Some(3));
    for _ in 0..5 {
        assert_eq!(list.pop_front(), None);
    }
    assert!(list.is_empty());
}

#[test]
fn pop_back_drains_back_to_front_then_stays_absent() {
    let mut list = LinkedList::new();
    list.push_back(2);
    list.push_front(1);
    list.push_back(3);
    list.push_front(0);
    assert_eq!(list.pop_back(), Some(3));
    assert_eq!(list.pop_back(), Some(2));
    assert_eq!(list.pop_back(), Some(1));
    assert_eq!(list.pop_back(), Some(0));
    for _ in 0..5 {
        assert_eq!(list.pop_back(), None);
    }
    assert!(list.is_empty());
}

#[test]
fn exhausted_list_stays_empty_at_both_ends() {
    let mut list = LinkedList::new();
    list.push_back(7);
    assert_eq!(list.pop_front(), Some(7));
    assert_eq!(list.pop_front(), None);
    assert_eq!(list.pop_back(), None);
    assert_eq!(list.pop_front(), None);
    assert_eq!(list.head(), None);
    assert_eq!(list.tail(), None);
    list.push_back(8);
    assert_eq!(list.head(), list.tail());
    assert_eq!(forward(&list), vec![8]);
    assert_eq!(backward(&list), vec![8]);
}

#[test]
fn from_array_then_pop_front_round_trip() {
    let mut list = LinkedList::from([4, 5, 6]);
    assert_eq!(list.pop_front(), Some(4));
    assert_eq!(list.pop_front(), Some(5));
    assert_eq!(list.pop_front(), Some(6));
    assert_eq!(list.pop_front(), None);
}

#[test]
fn scenario_push_front_then_pop_front() {
    let mut list = LinkedList::new();
    list.push_front(1);
    list.push_front(2);
    list.push_front(3);
    assert_eq!(forward(&list), vec![3, 2, 1]);
    assert_eq!(list.pop_front(), Some(3));
    assert_eq!(list.pop_front(), Some(2));
    assert_eq!(list.pop_front(), Some(1));
    assert_eq!(list.pop_front(), None);
}

#[test]
fn scenario_push_back_then_pop_back() {
    let mut list = LinkedList::new();
    list.push_back(1);
    list.push_back(2);
    list.push_back(3);
    assert_eq!(forward(&list), vec![1, 2, 3]);
    assert_eq!(list.pop_back(), Some(3));
    assert_eq!(list.pop_back(), Some(2));
    assert_eq!(list.pop_back(), Some(1));
    assert_eq!(list.pop_back(), None);
}

#[test]
fn scenario_single_push_front_then_pop_back() {
    let mut list = LinkedList::new();
    list.push_front(5);
    assert_eq!(list.head(), list.tail());
    assert_eq!(list.pop_back(), Some(5));
    assert_eq!(list.pop_front(), None);
    assert_eq!(list.head(), None);
    assert_eq!(list.tail(), None);
}

#[test]
fn scenario_from_array_then_pop_back() {
    let mut list = LinkedList::from([1, 2, 3]);
    assert_eq!(list.pop_back(), Some(3));
    assert_eq!(list.pop_back(), Some(2));
    assert_eq!(list.pop_back(), Some(1));
    assert_eq!(list.pop_back(), None);
}

#[test]
fn from_array_keeps_order_and_links() {
    let list = LinkedList::from([9, 8, 7, 6]);
    assert_eq!(forward(&list), vec![9, 8, 7, 6]);
    assert_eq!(backward(&list), vec![6, 7, 8, 9]);
    assert_eq!(list.len(), 4);
}

#[test]
fn from_empty_array_is_empty() {
    let list: LinkedList<i32> = LinkedList::from([]);
    assert!(list.is_empty());
    assert_eq!(list.len(), 0);
    assert_eq!(list.head(), None);
}

#[test]
fn default_is_empty() {
    let mut list: LinkedList<i32> = LinkedList::default();
    assert!(list.is_empty());
    assert_eq!(list.pop_front(), None);
    assert_eq!(list.pop_back(), None);
}

#[test]
fn removal_from_the_middle_of_the_arena_keeps_links() {
    // 1 sits in the arena's first slot; removing it moves the last slot into its place.
    let mut list = LinkedList::new();
    list.push_back(1);
    list.push_back(2);
    list.push_front(0);
    list.push_back(3);
    assert_eq!(list.pop_front(), Some(0));
    assert_eq!(forward(&list), vec![1, 2, 3]);
    assert_eq!(backward(&list), vec![3, 2, 1]);
    assert_eq!(list.pop_front(), Some(1));
    assert_eq!(forward(&list), vec![2, 3]);
    assert_eq!(backward(&list), vec![3, 2]);
    list.push_front(5);
    assert_eq!(list.pop_back(), Some(3));
    assert_eq!(forward(&list), vec![5, 2]);
    assert_eq!(backward(&list), vec![2, 5]);
    assert_eq!(list.len(), 2);
}

#[test]
fn mixed_operations_match_a_deque() {
    let mut list = LinkedList::new();
    let mut model = std::collections::VecDeque::new();
    let mut seed: u32 = 12345;
    for step in 0..400 {
        seed = seed.wrapping_mul(1103515245).wrapping_add(12345);
        match (seed >> 16) % 4 {
            0 => {
                list.push_front(step);
                model.push_front(step);
            }
            1 => {
                list.push_back(step);
                model.push_back(step);
            }
            2 => assert_eq!(list.pop_front(), model.pop_front()),
            _ => assert_eq!(list.pop_back(), model.pop_back()),
        }
        assert_eq!(list.len(), model.len());
    }
    let expected: Vec<i32> = model.iter().copied().collect();
    assert_eq!(forward(&list), expected);
    let mut reversed = expected.clone();
    reversed.reverse();
    assert_eq!(backward(&list), reversed);
}

#[test]
fn elements_need_not_be_copy() {
    let mut list = LinkedList::new();
    list.push_back(String::from("b"));
    list.push_front(String::from("a"));
    list.push_back(String::from("c"));
    assert_eq!(list.pop_front(), Some(String::from("a")));
    assert_eq!(list.pop_back(), Some(String::from("c")));
    assert_eq!(list.pop_back(), Some(String::from("b")));
    assert_eq!(list.pop_front(), None);
}

#[test]
fn equality_compares_elements_not_layout() {
    let built_from_array = LinkedList::from([1, 2, 3]);
    let mut built_by_pushes = LinkedList::new();
    built_by_pushes.push_front(2);
    built_by_pushes.push_back(3);
    built_by_pushes.push_front(1);
    assert!(built_from_array == built_by_pushes);

    let mut after_removals = LinkedList::new();
    after_removals.push_back(0);
    after_removals.push_back(1);
    after_removals.push_back(2);
    after_removals.push_back(3);
    assert_eq!(after_removals.pop_front(), Some(0));
    assert!(after_removals == built_from_array);
}

#[test]
fn equality_detects_differences() {
    let a = LinkedList::from([1, 2, 3]);
    assert!(a != LinkedList::from([1, 2]));
    assert!(a != LinkedList::from([1, 2, 4]));
    assert!(a != LinkedList::from([3, 2, 1]));
    let empty: LinkedList<i32> = LinkedList::new();
    assert!(empty == LinkedList::default());
    assert!(empty != a);
}
