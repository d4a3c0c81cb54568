use worklist_tyck::error::TyckError;
use worklist_tyck::order_index::{Direction, OrderIndex};

fn check_against(index: &mut OrderIndex, order: &[usize]) {
    for (i, &a) in order.iter().enumerate() {
        assert!(index.contains(a));
        for (j, &b) in order.iter().enumerate() {
            let expected = if i == j {
                Err(TyckError::InvariantViolation)
            } else if i < j {
                Ok(Direction::Left)
            } else {
                Ok(Direction::Right)
            };
            assert_eq!(index.compare(a, b), expected);
        }
    }
}

#[test]
fn direction_not_flips() {
    assert_eq!(!Direction::Left, Direction::Right);
    assert_eq!(!Direction::Right, Direction::Left);
    assert_eq!(!!Direction::Left, Direction::Left);
}

#[test]
fn first_token_goes_between_nothing() {
    let mut index = OrderIndex::new();
    let a = index.insert_between(None, None).unwrap();
    assert!(index.contains(a));
    assert_eq!(index.insert_between(None, None), Err(TyckError::InvariantViolation));
    assert_eq!(index.compare(a, a), Err(TyckError::InvariantViolation));
}

#[test]
fn insert_between_neighbours() {
    let mut index = OrderIndex::new();
    let a = index.insert_between(None, None).unwrap();
    let c = index.insert_between(Some(a), None).unwrap();
    let b = index.insert_between(Some(a), Some(c)).unwrap();
    let z = index.insert_between(None, Some(a)).unwrap();
    check_against(&mut index, &[z, a, b, c]);
}

#[test]
fn insert_between_refuses_tokens_that_are_not_neighbours() {
    let mut index = OrderIndex::new();
    let a = index.insert_between(None, None).unwrap();
    let b = index.insert_after(a).unwrap();
    let c = index.insert_after(b).unwrap();
    assert_eq!(index.insert_between(Some(a), Some(c)), Err(TyckError::InvariantViolation));
    assert_eq!(index.insert_between(Some(b), Some(a)), Err(TyckError::InvariantViolation));
    assert_eq!(index.insert_between(Some(a), None), Err(TyckError::InvariantViolation));
    assert_eq!(index.insert_between(None, Some(b)), Err(TyckError::InvariantViolation));
    assert_eq!(index.insert_between(Some(77), None), Err(TyckError::InvariantViolation));
    check_against(&mut index, &[a, b, c]);
}

#[test]
fn insert_before_and_after() {
    let mut index = OrderIndex::new();
    let m = index.insert_between(None, None).unwrap();
    let r = index.insert_after(m).unwrap();
    let l = index.insert_before(m).unwrap();
    let lr = index.insert_after(l).unwrap();
    let rl = index.insert_before(r).unwrap();
    check_against(&mut index, &[l, lr, m, rl, r]);
    assert_eq!(index.insert_after(1000), Err(TyckError::InvariantViolation));
    assert_eq!(index.insert_before(1000), Err(TyckError::InvariantViolation));
}

#[test]
fn remove_takes_a_token_out() {
    let mut index = OrderIndex::new();
    let a = index.insert_between(None, None).unwrap();
    let b = index.insert_after(a).unwrap();
    let c = index.insert_after(b).unwrap();
    let d = index.insert_after(c).unwrap();
    assert_eq!(index.remove(b), Ok(()));
    assert!(!index.contains(b));
    check_against(&mut index, &[a, c, d]);
    assert_eq!(index.remove(b), Err(TyckError::InvariantViolation));
    assert_eq!(index.compare(a, b), Err(TyckError::InvariantViolation));
    assert_eq!(index.remove(a), Ok(()));
    assert_eq!(index.remove(d), Ok(()));
    check_against(&mut index, &[c]);
    assert_eq!(index.remove(c), Ok(()));
    let e = index.insert_between(None, None).unwrap();
    assert!(index.contains(e));
    assert_ne!(e, c);
}

#[test]
fn compare_agrees_with_a_plain_sequence_under_many_changes() {
    let mut index = OrderIndex::new();
    let mut order: Vec<usize> = Vec::new();
    let mut seed: u64 = 0x2545_f491_4f6c_dd1d;
    let mut next = |bound: usize| -> usize {
        seed ^= seed << 13;
        seed ^= seed >> 7;
        seed ^= seed << 17;
        (seed % (bound as u64)) as usize
    };
    for round in 0..400 {
        if order.is_empty() {
            let t = index.insert_between(None, None).unwrap();
            order.push(t);
            continue;
        }
        let at = next(order.len());
        match next(4) {
            0 => {
                let t = index.insert_after(order[at]).unwrap();
                order.insert(at + 1, t);
            }
            1 => {
                let t = index.insert_before(order[at]).unwrap();
                order.insert(at, t);
            }
            2 => {
                let after = order.get(at + 1).copied();
                let t = index.insert_between(Some(order[at]), after).unwrap();
                order.insert(at + 1, t);
            }
            _ => {
                assert_eq!(index.remove(order[at]), Ok(()));
                order.remove(at);
            }
        }
        if !order.is_empty() {
            let a = order[next(order.len())];
            let b = order[next(order.len())];
            let ia = order.iter().position(|&x| x == a).unwrap();
            let ib = order.iter().position(|&x| x == b).unwrap();
            let expected = if ia == ib {
                Err(TyckError::InvariantViolation)
            } else if ia < ib {
                Ok(Direction::Left)
            } else {
                Ok(Direction::Right)
            };
            assert_eq!(index.compare(a, b), expected);
        }
        if round % 50 == 0 {
            let snapshot = order.clone();
            check_against(&mut index, &snapshot);
        }
    }
    let snapshot = order.clone();
    check_against(&mut index, &snapshot);
}
