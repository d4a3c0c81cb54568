use worklist_tyck::error::TyckError;
use worklist_tyck::scope_list::ScopeList;

fn contents(list: &ScopeList<u32>) -> Vec<u32> {
    list.items().into_iter().copied().collect()
}

#[test]
fn new_list_is_empty() {
    let mut list: ScopeList<u32> = ScopeList::new();
    assert!(list.is_empty());
    assert_eq!(list.back(), None);
    assert_eq!(list.front(), None);
    assert_eq!(list.pop_back(), None);
    assert!(contents(&list).is_empty());
}

#[test]
fn push_back_appends_and_pop_back_takes_the_last() {
    let mut list = ScopeList::new();
    let a = list.push_back(10);
    let b = list.push_back(20);
    let c = list.push_back(30);
    assert!(!list.is_empty());
    assert_eq!(contents(&list), vec![10, 20, 30]);
    assert_eq!(list.front(), Some(a));
    assert_eq!(list.back(), Some(c));
    assert_eq!(list.pop_back(), Some((c, 30)));
    assert_eq!(list.pop_back(), Some((b, 20)));
    assert_eq!(contents(&list), vec![10]);
    assert_eq!(list.pop_back(), Some((a, 10)));
    assert_eq!(list.pop_back(), None);
    assert!(list.is_empty());
}

#[test]
fn push_front_puts_the_item_first() {
    let mut list = ScopeList::new();
    list.push_back(2);
    list.push_front(1);
    list.push_back(3);
    list.push_front(0);
    assert_eq!(contents(&list), vec![0, 1, 2, 3]);
}

#[test]
fn insert_before_a_position_keeps_the_order() {
    let mut list = ScopeList::new();
    let a = list.push_back(1);
    let c = list.push_back(3);
    let b = list.insert_before(c, 2).unwrap();
    let z = list.insert_before(a, 0).unwrap();
    assert_eq!(contents(&list), vec![0, 1, 2, 3]);
    assert_eq!(list.get(b), Some(&2));
    assert_eq!(list.get(z), Some(&0));
    assert_eq!(list.front(), Some(z));
}

#[test]
fn unlink_removes_a_known_position() {
    let mut list = ScopeList::new();
    let a = list.push_back(1);
    let b = list.push_back(2);
    let c = list.push_back(3);
    assert_eq!(list.unlink(b), Ok(2));
    assert_eq!(contents(&list), vec![1, 3]);
    assert!(list.contains_position(a));
    assert!(!list.contains_position(b));
    assert!(list.contains_position(c));
    assert_eq!(list.unlink(a), Ok(1));
    assert_eq!(list.unlink(c), Ok(3));
    assert!(list.is_empty());
}

#[test]
fn unlink_of_a_popped_position_is_an_invariant_violation() {
    let mut list = ScopeList::new();
    let a = list.push_back(1);
    let b = list.push_back(2);
    assert_eq!(list.pop_back(), Some((b, 2)));
    assert_eq!(list.unlink(b), Err(TyckError::InvariantViolation));
    assert_eq!(list.unlink(0), Err(TyckError::InvariantViolation));
    assert_eq!(list.unlink(99), Err(TyckError::InvariantViolation));
    assert_eq!(contents(&list), vec![1]);
    assert_eq!(list.unlink(a), Ok(1));
    assert_eq!(list.unlink(a), Err(TyckError::InvariantViolation));
}

#[test]
fn positions_are_never_handed_out_twice() {
    let mut list = ScopeList::new();
    let a = list.push_back(1);
    assert_eq!(list.unlink(a), Ok(1));
    let b = list.push_back(2);
    assert_ne!(a, b);
    assert_eq!(list.get(a), None);
    assert_eq!(list.get(b), Some(&2));
}

#[test]
fn replace_keeps_the_position() {
    let mut list = ScopeList::new();
    let a = list.push_back(1);
    let b = list.push_back(2);
    assert_eq!(list.replace(a, 7), Ok(1));
    assert_eq!(contents(&list), vec![7, 2]);
    assert_eq!(list.get(a), Some(&7));
    assert_eq!(list.unlink(b), Ok(2));
    assert_eq!(list.replace(b, 9), Err(TyckError::InvariantViolation));
    assert_eq!(contents(&list), vec![7]);
}

#[test]
fn insert_before_a_dead_position_is_refused() {
    let mut list = ScopeList::new();
    let a = list.push_back(1);
    assert_eq!(list.unlink(a), Ok(1));
    assert_eq!(list.insert_before(a, 5), Err(TyckError::InvariantViolation));
    assert!(list.is_empty());
}
