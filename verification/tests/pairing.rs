use slotflow::{dinic, max_flow, max_matching, Mcmf};

#[test]
fn dinic_finds_the_maximum_flow() {
    let mut mf = Mcmf::new();
    mf.n = 4;
    mf.set_n(4);
    mf.add_edge(4, 2, 0, 30, 2);
    mf.add_edge(4, 3, 0, 20, 3);
    mf.add_edge(2, 3, 0, 20, 1);
    mf.add_edge(2, 1, 0, 30, 9);
    mf.add_edge(1, 3, 0, 40, 5);
    mf.ss = 4;
    mf.tt = 3;
    assert_eq!(dinic(&mut mf), 50);
    // nothing more can be sent
    assert_eq!(dinic(&mut mf), 0);
    assert_eq!(mf.d[3], Mcmf::INF);
}

#[test]
fn dinic_undoes_a_poor_first_choice() {
    // 1 -> 2 -> 4 and 1 -> 3 -> 4 with a cross edge 2 -> 3 that tempts the first path
    let mut mf = Mcmf::new();
    mf.n = 4;
    mf.set_n(4);
    mf.add_edge(1, 2, 0, 1, 0);
    mf.add_edge(1, 3, 0, 1, 0);
    mf.add_edge(2, 3, 0, 1, 0);
    mf.add_edge(2, 4, 0, 1, 0);
    mf.add_edge(3, 4, 0, 1, 0);
    mf.ss = 1;
    mf.tt = 4;
    assert_eq!(dinic(&mut mf), 2);
}

#[test]
fn dinic_on_a_network_without_a_path() {
    let mut mf = Mcmf::new();
    mf.n = 3;
    mf.set_n(3);
    mf.add_edge(1, 2, 0, 5, 0);
    mf.ss = 1;
    mf.tt = 3;
    assert_eq!(dinic(&mut mf), 0);
}

#[test]
fn matching_knows_no_quota() {
    let entries = vec![(1, vec![0, 1, 2, 3, 4])];
    let days = vec![0, 1, 2, 3, 4];
    let res = max_matching(entries.clone(), days.clone());
    assert_eq!(res, vec![Some(1); 5]);
    let fair = max_flow(entries, days);
    assert_eq!(fair.iter().filter(|x| x.is_some()).count(), 3);
}

#[test]
fn matching_gives_one_slot_a_day() {
    let res = max_matching(vec![(7, vec![0, 1])], vec![3, 3]);
    assert_eq!(res.iter().filter(|x| **x == Some(7)).count(), 1);
    assert_eq!(res.iter().filter(|x| x.is_none()).count(), 1);
}

#[test]
fn matching_of_nothing() {
    assert_eq!(max_matching(vec![], vec![]), Vec::<Option<i64>>::new());
    assert_eq!(max_matching(vec![(1, vec![])], vec![0]), vec![None]);
    assert_eq!(max_matching(vec![], vec![0, 6]), vec![None, None]);
}

#[test]
fn matching_finds_the_way_round() {
    // user 1 can take both slots, user 2 only slot 0, both on one day:
    // both slots go out only if user 1 takes slot 1
    let res = max_matching(vec![(1, vec![0, 1]), (2, vec![0])], vec![2, 2]);
    assert_eq!(res, vec![Some(2), Some(1)]);
}

#[test]
fn matching_is_as_large_as_can_be() {
    let days: Vec<usize> = vec![0, 0, 1, 1, 2, 2, 3, 3, 4, 4, 5, 5, 6, 6];
    let entries: Vec<(i64, Vec<usize>)> = vec![
        (100, vec![0, 1, 2, 3, 4]),
        (101, vec![0, 2, 4, 6, 8]),
        (102, vec![1, 3, 5, 7, 9]),
        (103, vec![10, 11, 12, 13]),
        (104, vec![0, 13]),
        (105, vec![]),
    ];
    let res = max_matching(entries.clone(), days.clone());
    assert_eq!(res.len(), 14);
    for (id, wishes) in &entries {
        let got: Vec<usize> = (0..14).filter(|x| res[*x] == Some(*id)).collect();
        for x in &got {
            assert!(wishes.contains(x));
        }
        for a in &got {
            for b in &got {
                if a != b {
                    assert_ne!(days[*a], days[*b]);
                }
            }
        }
    }
    // slots 10 and 11 are wanted by one user only and lie on one day
    assert_eq!(res.iter().filter(|x| x.is_some()).count(), 13);
}

#[test]
fn matching_twice_gives_the_same() {
    let days: Vec<usize> = vec![0, 0, 1, 1, 2];
    let entries: Vec<(i64, Vec<usize>)> =
        vec![(1, vec![0, 1, 2]), (2, vec![1, 3, 4]), (3, vec![0, 4])];
    let first = max_matching(entries.clone(), days.clone());
    let second = max_matching(entries, days);
    assert_eq!(first, second);
    assert_eq!(first.iter().filter(|x| x.is_some()).count(), 5);
}
