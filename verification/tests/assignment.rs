use rand::{rng, seq::SliceRandom};
use slotflow::{distribute, max_flow, Distribution, InitError, Spare, User};

#[test]
fn test_distribution_sample1() {
    let users = vec![User {
        id: 0,
        stamps: vec![],
    }];
    let spares = vec![Spare { day: 0, stamp: 0 }];
    let res = distribute(users, spares);
    println!("res: {:?}", res);
    assert_eq!(res.len(), 1, "期望结果长度为 1，但实际是 {}", res.len());
}

#[test]
fn test_distribution_sample2() {
    let users = vec![User {
        id: 0,
        stamps: vec![0],
    }];
    let spares = vec![Spare { day: 0, stamp: 0 }];
    let res = distribute(users, spares);
    assert_eq!(res.len(), 1, "期望结果长度为 1，但实际是 {}", res.len());
}

#[test]
fn test_distribution_sample3() {
    let users = vec![User {
        id: 0,
        stamps: vec![0, 1],
    }];
    let spares = vec![Spare { day: 0, stamp: 0 }, Spare { day: 0, stamp: 1 }];
    let res = distribute(users, spares);
    assert_eq!(res.len(), 1, "期望结果长度为 1，但实际是 {}", res.len());
}

#[test]
fn test_distribution_sample4() {
    let mut spares = Vec::new();
    for day in 0..7 {
        for slot in 0..2 {
            spares.push(Spare {
                stamp: (day * 2 + slot) as u64,
                day: day as u64,
            });
        }
    }

    let mut rng = rng();
    let all_slots: Vec<u64> = (0..14).collect();
    let users: Vec<User> = (0..10)
        .map(|i| {
            let mut picks = all_slots.clone();
            picks.shuffle(&mut rng);
            picks.truncate(5);
            User { id: i as u64, stamps: picks }
        })
        .collect();

    println!("初始");
    for user in &users {
        println!("  用户 {}: 时隙 {:?}", user.id, user.stamps);
    }
    let result = distribute(users.clone(), spares.clone());

    println!("分配结果：");
    for user in &result {
        println!("  用户 {}: 时隙 {:?}", user.id, user.stamps);
    }

    assert_eq!(result.len(), users.len(), "结果用户数量应与输入一致");
    for user in result {
        assert!(user.stamps.len() <= 5, "用户分配时隙不能超过 5");
        for &stamp in &user.stamps {
            assert!(stamp < 14, "时隙索引应在 0..14 范围内");
        }
    }
}

#[test]
fn empty_availability_leaves_the_slot_free() {
    let res = max_flow(vec![(7, vec![])], vec![0]);
    assert_eq!(res, vec![None]);
}

#[test]
fn single_wish_is_granted() {
    let res = max_flow(vec![(7, vec![0])], vec![0]);
    assert_eq!(res, vec![Some(7)]);
}

#[test]
fn two_slots_on_different_days_go_to_one_user() {
    let res = max_flow(vec![(7, vec![0, 1])], vec![0, 1]);
    assert_eq!(res, vec![Some(7), Some(7)]);
}

#[test]
fn two_slots_on_one_day_give_one_to_the_user() {
    let res = max_flow(vec![(7, vec![0, 1])], vec![3, 3]);
    assert_eq!(res.len(), 2);
    assert_eq!(res.iter().filter(|x| **x == Some(7)).count(), 1);
    assert_eq!(res.iter().filter(|x| x.is_none()).count(), 1);
}

#[test]
fn a_user_gets_at_most_three_slots() {
    let res = max_flow(vec![(1, vec![0, 1, 2, 3, 4])], vec![0, 1, 2, 3, 4]);
    assert_eq!(res.iter().filter(|x| **x == Some(1)).count(), 3);
}

#[test]
fn an_unserved_user_comes_before_a_third_slot() {
    // user 1 can take everything, user 2 only slot 2
    let res = max_flow(vec![(1, vec![0, 1, 2]), (2, vec![2])], vec![0, 1, 2]);
    assert_eq!(res, vec![Some(1), Some(1), Some(2)]);
}

#[test]
fn slots_are_spread_over_users() {
    // three slots, three users who can each take all of them
    let res = max_flow(
        vec![(10, vec![0, 1, 2]), (20, vec![0, 1, 2]), (30, vec![0, 1, 2])],
        vec![0, 1, 2],
    );
    let mut ids: Vec<i64> = res.iter().map(|x| x.unwrap()).collect();
    ids.sort();
    assert_eq!(ids, vec![10, 20, 30]);
}

#[test]
fn result_lists_slots_in_increasing_order() {
    let users = vec![User { id: 4, stamps: vec![2, 0, 1] }];
    let spares = vec![
        Spare { stamp: 0, day: 0 },
        Spare { stamp: 1, day: 1 },
        Spare { stamp: 2, day: 2 },
    ];
    let res = distribute(users, spares);
    assert_eq!(res.len(), 1);
    assert_eq!(res[0].id, 4);
    assert_eq!(res[0].stamps, vec![0, 1, 2]);
}

#[test]
fn negative_ids_come_back_unchanged() {
    let res = max_flow(vec![(-5, vec![0])], vec![6]);
    assert_eq!(res, vec![Some(-5)]);
}

#[test]
fn no_users_and_no_slots() {
    assert_eq!(max_flow(vec![], vec![]), Vec::<Option<i64>>::new());
    assert_eq!(max_flow(vec![], vec![0, 1]), vec![None, None]);
    assert_eq!(max_flow(vec![(1, vec![])], vec![]), Vec::<Option<i64>>::new());
}

#[test]
fn init_refuses_a_wrong_slot_count() {
    let mut d = Distribution::new();
    let users = vec![User { id: 1, stamps: vec![0] }];
    let spares = vec![Spare { stamp: 0, day: 0 }];
    let r = d.init(&users, &spares, 2);
    assert_eq!(r, Err(InitError::SpareSizeMismatch));
    assert_eq!(InitError::SpareSizeMismatch.message(), "spare_size != spares.len()");
    assert_eq!(d.init(&users, &spares, 1), Ok(()));
    let res = d.solve();
    assert_eq!(res.len(), 1);
    assert_eq!(res[0].stamps, vec![0]);
}

#[test]
fn distribution_can_be_used_again() {
    let mut d = Distribution::new();
    let users = vec![User { id: 1, stamps: vec![0] }, User { id: 2, stamps: vec![0] }];
    let spares = vec![Spare { stamp: 0, day: 0 }];
    assert_eq!(d.init(&users, &spares, 1), Ok(()));
    let first = d.solve();
    let second = d.solve();
    assert_eq!(first.len(), 2);
    for (a, b) in first.iter().zip(second.iter()) {
        assert_eq!(a.id, b.id);
        assert_eq!(a.stamps, b.stamps);
    }
    let total: usize = first.iter().map(|u| u.stamps.len()).sum();
    assert_eq!(total, 1);
}

#[test]
fn assignment_respects_every_rule() {
    let days: Vec<usize> = vec![0, 0, 1, 1, 2, 2, 3, 3, 4, 4, 5, 5, 6, 6];
    let entries: Vec<(i64, Vec<usize>)> = vec![
        (100, vec![0, 1, 2, 3, 4]),
        (101, vec![0, 2, 4, 6, 8]),
        (102, vec![1, 3, 5, 7, 9]),
        (103, vec![10, 11, 12, 13]),
        (104, vec![0, 13]),
        (105, vec![]),
    ];
    let res = max_flow(entries.clone(), days.clone());
    assert_eq!(res.len(), 14);
    for (id, wishes) in &entries {
        let got: Vec<usize> = (0..14).filter(|x| res[*x] == Some(*id)).collect();
        assert!(got.len() <= 3);
        for x in &got {
            assert!(wishes.contains(x));
        }
        for a in &got {
            for b in &got {
                if a != b {
                    assert_ne!(days[*a], days[*b]);
                }
            }
        }
    }
    // slots 10 and 11 are wanted by one user only and lie on one day: one of them stays free
    let served = res.iter().filter(|x| x.is_some()).count();
    assert_eq!(served, 13);
    let again = max_flow(entries, days);
    assert_eq!(res, again);
}

#[test]
fn random_wishes_fill_a_list_of_fourteen() {
    let days: Vec<usize> = (0..14).map(|x| x / 2).collect();
    let mut rng = rng();
    let all_slots: Vec<usize> = (0..14).collect();
    let entries: Vec<(i64, Vec<usize>)> = (0..10)
        .map(|i| {
            let mut picks = all_slots.clone();
            picks.shuffle(&mut rng);
            picks.truncate(5);
            (i as i64, picks)
        })
        .collect();
    let res = max_flow(entries.clone(), days.clone());
    assert_eq!(res.len(), 14);
    for (id, wishes) in &entries {
        let got: Vec<usize> = (0..14).filter(|x| res[*x] == Some(*id)).collect();
        assert!(got.len() <= 3);
        for x in &got {
            assert!(*x < 14);
            assert!(wishes.contains(x));
        }
        for a in &got {
            for b in &got {
                if a != b {
                    assert_ne!(days[*a], days[*b]);
                }
            }
        }
    }
    for x in res.iter().flatten() {
        assert!((0..10).contains(x));
    }
    assert_eq!(max_flow(entries, days), res);
}

#[test]
fn a_second_slot_waits_for_the_unserved() {
    // both users can take both slots: each gets one
    let res = max_flow(vec![(1, vec![0, 1]), (2, vec![0, 1])], vec![0, 1]);
    assert!(res == vec![Some(1), Some(2)] || res == vec![Some(2), Some(1)]);
}

#[test]
fn a_wish_named_twice_counts_once() {
    let res = max_flow(vec![(3, vec![0, 0, 0])], vec![2]);
    assert_eq!(res, vec![Some(3)]);
}

#[test]
fn users_with_one_id_are_told_apart_by_position() {
    let users = vec![User { id: 9, stamps: vec![0] }, User { id: 9, stamps: vec![1] }];
    let spares = vec![Spare { stamp: 0, day: 0 }, Spare { stamp: 1, day: 0 }];
    let res = distribute(users, spares);
    assert_eq!(res[0].stamps, vec![0]);
    assert_eq!(res[1].stamps, vec![1]);
}
