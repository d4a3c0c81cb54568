use worklist_tyck::error::TyckError;
use worklist_tyck::order_index::Direction;
use worklist_tyck::worklist::Worklist;

fn contents(list: &Worklist<char>) -> Vec<char> {
    list.items().into_iter().copied().collect()
}

#[test]
fn worklist_is_a_stack_at_the_back() {
    let mut work = Worklist::new();
    assert!(work.is_empty());
    work.push_back('a');
    work.push_back('b');
    let c = work.push_back('c');
    assert_eq!(contents(&work), vec!['a', 'b', 'c']);
    assert_eq!(work.pop_back(), Some((c, 'c')));
    assert_eq!(work.pop_back().map(|p| p.1), Some('b'));
    assert_eq!(work.pop_back().map(|p| p.1), Some('a'));
    assert_eq!(work.pop_back(), None);
    assert!(work.is_empty());
}

#[test]
fn compare_reads_the_order_of_the_list() {
    let mut work = Worklist::new();
    let b = work.push_back('b');
    let d = work.push_back('d');
    let a = work.push_front('a');
    let c = work.insert_before(d, 'c').unwrap();
    assert_eq!(contents(&work), vec!['a', 'b', 'c', 'd']);
    let order = [a, b, c, d];
    for i in 0..4 {
        for j in 0..4 {
            let expected = if i == j {
                Err(TyckError::InvariantViolation)
            } else if i < j {
                Ok(Direction::Left)
            } else {
                Ok(Direction::Right)
            };
            assert_eq!(work.compare(order[i], order[j]), expected);
        }
    }
    assert_eq!(contents(&work), vec!['a', 'b', 'c', 'd']);
}

#[test]
fn compare_follows_removals_and_replacements() {
    let mut work = Worklist::new();
    let a = work.push_back('a');
    let b = work.push_back('b');
    let c = work.push_back('c');
    assert_eq!(work.unlink(b), Ok('b'));
    assert_eq!(work.compare(a, b), Err(TyckError::InvariantViolation));
    assert_eq!(work.compare(a, c), Ok(Direction::Left));
    assert_eq!(work.replace(a, 'x'), Ok('a'));
    assert_eq!(work.get(a), Some(&'x'));
    assert_eq!(work.compare(c, a), Ok(Direction::Right));
    let d = work.insert_before(a, 'd').unwrap();
    assert_eq!(work.compare(d, a), Ok(Direction::Left));
    assert_eq!(work.compare(d, c), Ok(Direction::Left));
    assert_eq!(contents(&work), vec!['d', 'x', 'c']);
    assert_eq!(work.unlink(b), Err(TyckError::InvariantViolation));
    assert_eq!(work.replace(b, 'y'), Err(TyckError::InvariantViolation));
    assert_eq!(work.insert_before(b, 'y'), Err(TyckError::InvariantViolation));
    assert!(!work.contains_position(b));
    assert!(work.contains_position(d));
}

#[test]
fn index_and_list_agree_under_many_changes() {
    let mut work: Worklist<u32> = Worklist::new();
    let mut model: Vec<(usize, u32)> = Vec::new();
    let mut seed: u64 = 0x9e37_79b9_7f4a_7c15;
    let mut next = |bound: usize| -> usize {
        seed ^= seed << 13;
        seed ^= seed >> 7;
        seed ^= seed << 17;
        (seed % (bound as u64)) as usize
    };
    for round in 0..300u32 {
        match next(5) {
            0 => {
                let p = work.push_back(round);
                model.push((p, round));
            }
            1 => {
                let p = work.push_front(round);
                model.insert(0, (p, round));
            }
            2 if !model.is_empty() => {
                let at = next(model.len());
                let p = work.insert_before(model[at].0, round).unwrap();
                model.insert(at, (p, round));
            }
            3 if !model.is_empty() => {
                let at = next(model.len());
                assert_eq!(work.unlink(model[at].0), Ok(model[at].1));
                model.remove(at);
            }
            _ => {
                let expected = model.pop();
                assert_eq!(work.pop_back(), expected);
            }
        }
        if model.len() >= 2 {
            let i = next(model.len());
            let j = next(model.len());
            if i != j {
                let expected = if i < j { Direction::Left } else { Direction::Right };
                assert_eq!(work.compare(model[i].0, model[j].0), Ok(expected));
            }
        }
        let items: Vec<u32> = work.items().into_iter().copied().collect();
        let expected: Vec<u32> = model.iter().map(|p| p.1).collect();
        assert_eq!(items, expected);
    }
}
