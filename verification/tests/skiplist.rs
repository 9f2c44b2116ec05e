use cpkit::skiplist::SkipList;

fn collect(list: &SkipList<String>) -> Vec<String> {
    let mut out = Vec::new();
    let mut it = list.iter();
    while let Some(v) = it.next() {
        out.push(v.clone());
    }
    out
}

#[test]
fn insert_in_order_yields_sequence() {
    let mut sl: SkipList<String> = SkipList::new();
    sl.insert(0, "a".to_string());
    sl.insert(1, "b".to_string());
    sl.insert(2, "c".to_string());
    assert_eq!(sl.len(), 3);
    assert_eq!(collect(&sl), vec!["a".to_string(), "b".to_string(), "c".to_string()]);
}

#[test]
fn remove_middle_returns_value_and_shifts() {
    let mut sl: SkipList<String> = SkipList::new();
    sl.insert(0, "a".to_string());
    sl.insert(1, "b".to_string());
    sl.insert(2, "c".to_string());
    let removed = sl.remove(1);
    assert_eq!(removed, "b".to_string());
    assert_eq!(sl.len(), 2);
    assert_eq!(collect(&sl), vec!["a".to_string(), "c".to_string()]);
}

#[test]
fn pop_front_on_empty_then_round_trip() {
    let mut sl: SkipList<String> = SkipList::new();
    assert_eq!(sl.pop_front(), None);
    sl.push_back("x".to_string());
    assert_eq!(sl.pop_front(), Some("x".to_string()));
    assert_eq!(sl.len(), 0);
    assert_eq!(collect(&sl), Vec::<String>::new());
}

#[test]
fn insert_at_one_places_value_there() {
    let mut sl: SkipList<String> = SkipList::new();
    sl.insert(0, "a".to_string());
    sl.insert(1, "b".to_string());
    sl.insert(2, "c".to_string());
    sl.insert(1, "z".to_string());
    assert_eq!(
        collect(&sl),
        vec!["a".to_string(), "z".to_string(), "b".to_string(), "c".to_string()]
    );
}

#[test]
fn at_reads_by_position() {
    let mut sl: SkipList<String> = SkipList::new();
    sl.insert(0, "a".to_string());
    sl.insert(1, "z".to_string());
    sl.insert(2, "b".to_string());
    sl.insert(3, "c".to_string());
    assert_eq!(sl.at(2), &"b".to_string());
    assert_eq!(sl.at(0), &"a".to_string());
    assert_eq!(sl.at(3), &"c".to_string());
}

#[test]
fn insert_at_len_appends() {
    let mut sl: SkipList<String> = SkipList::new();
    sl.insert(0, "a".to_string());
    sl.insert(1, "z".to_string());
    sl.insert(2, "b".to_string());
    sl.insert(3, "c".to_string());
    sl.insert(4, "x".to_string());
    assert_eq!(sl.len(), 5);
    assert_eq!(sl.at(4), &"x".to_string());
}

#[test]
fn insert_then_remove_restores_state() {
    let mut sl: SkipList<i64> = SkipList::new();
    for i in 0..10 {
        sl.push_back(i);
    }
    let before: Vec<i64> = {
        let mut out = Vec::new();
        let mut it = sl.iter();
        while let Some(v) = it.next() {
            out.push(*v);
        }
        out
    };
    sl.insert(4, 999);
    assert_eq!(sl.at(4), &999);
    let got = sl.remove(4);
    assert_eq!(got, 999);
    let after: Vec<i64> = {
        let mut out = Vec::new();
        let mut it = sl.iter();
        while let Some(v) = it.next() {
            out.push(*v);
        }
        out
    };
    assert_eq!(before, after);
    assert_eq!(sl.len(), 10);
}

#[test]
fn len_matches_full_iteration() {
    let mut sl: SkipList<usize> = SkipList::new();
    for i in 0..50 {
        if i % 3 == 0 {
            sl.push_front(i);
        } else {
            sl.push_back(i);
        }
    }
    for _ in 0..7 {
        sl.remove(sl.len() / 2);
    }
    let mut count = 0;
    let mut it = sl.iter();
    while let Some(_) = it.next() {
        count += 1;
    }
    assert_eq!(count, sl.len());
    assert_eq!(sl.len(), 43);
}

#[test]
fn order_matches_reference_model_over_history() {
    let mut sl: SkipList<i64> = SkipList::new();
    let mut model: Vec<i64> = Vec::new();
    // a fixed, deterministic operation history with varied positions
    let ops: Vec<(bool, usize, i64)> = vec![
        (true, 0, 10),
        (true, 0, 20),
        (true, 1, 30),
        (true, 3, 40),
        (true, 2, 50),
        (false, 1, 0),
        (true, 4, 60),
        (true, 0, 70),
        (false, 5, 0),
        (true, 3, 80),
        (false, 0, 0),
        (true, 2, 90),
    ];
    for (is_insert, pos, val) in ops {
        if is_insert {
            sl.insert(pos, val);
            model.insert(pos, val);
        } else {
            let a = sl.remove(pos);
            let b = model.remove(pos);
            assert_eq!(a, b);
        }
        assert_eq!(sl.len(), model.len());
        for i in 0..model.len() {
            assert_eq!(sl.at(i), &model[i]);
        }
    }
}

#[test]
fn pop_back_returns_last() {
    let mut sl: SkipList<i64> = SkipList::new();
    assert_eq!(sl.pop_back(), None);
    sl.push_back(1);
    sl.push_back(2);
    sl.push_back(3);
    assert_eq!(sl.pop_back(), Some(3));
    assert_eq!(sl.pop_back(), Some(2));
    assert_eq!(sl.len(), 1);
    assert_eq!(sl.at(0), &1);
}

#[test]
fn iter_mut_updates_every_element() {
    let mut sl: SkipList<i64> = SkipList::new();
    for i in 0..20 {
        sl.push_back(i);
    }
    let mut cursor = sl.iter_mut();
    while cursor.has_next(&sl) {
        let v = cursor.next(&mut sl);
        *v *= 2;
    }
    for i in 0..20 {
        assert_eq!(*sl.at(i), 2 * (i as i64));
    }
    assert_eq!(sl.len(), 20);
}

#[test]
fn iteration_restarts_from_the_head() {
    let mut sl: SkipList<u64> = SkipList::new();
    sl.push_back(7);
    sl.push_back(8);
    let mut it1 = sl.iter();
    assert_eq!(it1.next(), Some(&7));
    let mut it2 = sl.iter();
    assert_eq!(it2.next(), Some(&7));
    assert_eq!(it1.next(), Some(&8));
    assert_eq!(it1.next(), None);
    assert_eq!(it2.next(), Some(&8));
}

#[test]
fn explicit_seed_makes_runs_reproducible() {
    let mut a: SkipList<i64> = SkipList::with_seed(12345);
    let mut b: SkipList<i64> = SkipList::with_seed(12345);
    for i in 0..60 {
        a.insert((i / 2) as usize, i);
        b.insert((i / 2) as usize, i);
    }
    for _ in 0..10 {
        assert_eq!(a.remove(3), b.remove(3));
    }
    assert_eq!(a.len(), b.len());
    for i in 0..a.len() {
        assert_eq!(a.at(i), b.at(i));
    }
}
