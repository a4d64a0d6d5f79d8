use katas::list::List;

#[test]
fn creates_an_empty_list() {
    let list: List<i32> = List::empty();

    assert_eq!(list.head(), None);
}

#[test]
fn head_of_a_nonempty_list() {
    assert_eq!(List::from(vec![1, 2]).head(), Some(&2));
}

#[test]
fn tail_of_a_list() {
    assert_eq!(List::from(vec![1, 2, 3]).tail(), List::from(vec![1, 2]));
}

#[test]
fn drops_from_a_list() {
    assert_eq!(List::from(vec![1, 2, 3]).drop(2), List::single(1));
}

#[test]
fn drops_from_a_list_by_predicate() {
    assert_eq!(List::from(vec![1, 2, 3]).drop_while(|item| item > 2), List::from(vec![1, 2]));
}

#[test]
fn reverses_a_list() {
    assert_eq!(List::from(vec![1, 2, 3]).reverse(), List::from(vec![3, 2, 1]));
}

#[test]
fn takes_from_a_list() {
    assert_eq!(List::from(vec![1, 2, 3]).take(2), List::from(vec![2, 3]));
}

#[test]
fn takes_from_a_list_by_predicate() {
    assert_eq!(List::from(vec![1, 2, 3]).take_while(|item| item > 1), List::from(vec![2, 3]));
}

#[test]
fn maps_over_a_list() {
    assert_eq!(List::from(vec![1, 2, 3]).map(|item| item * item), List::from(vec![1, 4, 9]));
}

#[test]
fn operations_leave_the_original_intact() {
    let list = List::from(vec![1, 2, 3]);
    let longer = list.append(4);
    let shorter = list.tail();
    assert_eq!(longer, List::from(vec![1, 2, 3, 4]));
    assert_eq!(shorter, List::from(vec![1, 2]));
    assert_eq!(list, List::from(vec![1, 2, 3]));
}

#[test]
fn edges_of_the_empty_list() {
    let empty: List<i32> = List::empty();
    assert_eq!(empty.tail(), List::empty());
    assert_eq!(empty.drop(3), List::empty());
    assert_eq!(empty.take(3), List::empty());
    assert_eq!(empty.reverse(), List::empty());
    assert_eq!(empty.map(|x| x + 1), List::empty());
}

#[test]
fn counts_beyond_the_length() {
    let list = List::from(vec![1, 2, 3]);
    assert_eq!(list.drop(5), List::empty());
    assert_eq!(list.take(5), List::from(vec![1, 2, 3]));
    assert_eq!(list.drop(0), List::from(vec![1, 2, 3]));
    assert_eq!(list.take(0), List::empty());
}

#[test]
fn predicates_stop_at_the_first_failure() {
    let list = List::from(vec![5, 1, 9]);
    assert_eq!(list.take_while(|x| x > 2), List::single(9));
    assert_eq!(list.drop_while(|x| x > 2), List::from(vec![5, 1]));
    assert_eq!(list.take_while(|x| x > 0), List::from(vec![5, 1, 9]));
    assert_eq!(list.drop_while(|x| x > 0), List::empty());
}
