use slotflow::Mcmf;

#[test]
fn test_mcmf_sample1() {
    let mut mf = Mcmf::new();
    mf.n = 4;
    mf.s = 4;
    mf.t = 3;
    mf.set_n(4);

    mf.add_signed(4, 2, 30, 2);
    mf.add_signed(4, 3, 20, 3);
    mf.add_signed(2, 3, 20, 1);
    mf.add_signed(2, 1, 30, 9);
    mf.add_signed(1, 3, 40, 5);

    mf.solve();

    assert_eq!(mf.a0, 50, "期望最大流 a0 = 50，但实际是 {}", mf.a0);
    assert_eq!(mf.a1, 280, "期望最小费用 a1 = 280，但实际是 {}", mf.a1);
}

#[test]
fn test_mcmf_sample2() {
    let mut mf = Mcmf::new();
    mf.n = 5;
    mf.s = 1;
    mf.t = 5;
    mf.set_n(5);

    mf.add_signed(1, 3, 2, 4);
    mf.add_signed(1, 2, 2, 3);
    mf.add_signed(3, 5, 2, 2);
    mf.add_signed(3, 2, 1, -1);
    mf.add_signed(2, 4, 2, -2);
    mf.add_signed(4, 3, 1, -1);
    mf.add_signed(4, 5, 1, 3);

    mf.solve();

    assert_eq!(mf.a0, 3, "期望最大流 a0 = 3，但实际是 {}", mf.a0);
    assert_eq!(mf.a1, 12, "期望最小费用 a1 = 12，但实际是 {}", mf.a1);
}

#[test]
fn new_solver_has_two_blank_edges() {
    let mf = Mcmf::new();
    assert_eq!(mf.e.len(), 2);
    assert_eq!(mf.e[0].w, 0);
    assert_eq!(mf.e[1].w, 0);
    assert_eq!(mf.d.len(), 0);
    assert_eq!(Mcmf::INF, 0x3f3f3f3f);
}

#[test]
fn set_n_sizes_every_array() {
    let mut mf = Mcmf::new();
    mf.set_n(4);
    assert_eq!(mf.d.len(), 7);
    assert_eq!(mf.incf.len(), 7);
    assert_eq!(mf.pre.len(), 7);
    assert_eq!(mf.head.len(), 7);
    assert_eq!(mf.a.len(), 7);
    assert_eq!(mf.vis.len(), 7);
    assert!(mf.head.iter().all(|&h| h == 0));
}

#[test]
fn add_edge_appends_a_mirrored_pair() {
    let mut mf = Mcmf::new();
    mf.n = 3;
    mf.set_n(3);
    mf.add_edge(1, 2, 0, 7, 4);
    assert_eq!(mf.e.len(), 4);
    assert_eq!((mf.e[2].u, mf.e[2].v, mf.e[2].w, mf.e[2].c), (1, 2, 7, 4));
    assert_eq!((mf.e[3].u, mf.e[3].v, mf.e[3].w, mf.e[3].c), (2, 1, 0, -4));
    assert_eq!(mf.head[1], 2);
    assert_eq!(mf.head[2], 3);
    assert_eq!(mf.e[2].next, 0);
    mf.add_edge(1, 3, 0, 1, 0);
    assert_eq!(mf.head[1], 4);
    assert_eq!(mf.e[4].next, 2);
}

#[test]
fn add_edge_books_the_lower_bound() {
    let mut mf = Mcmf::new();
    mf.n = 3;
    mf.set_n(3);
    mf.add_edge(1, 2, 3, 10, 5);
    assert_eq!(mf.a[2], 3);
    assert_eq!(mf.a[1], -3);
    assert_eq!(mf.e[2].w, 7);
}

#[test]
fn add_signed_turns_a_negative_cost_round() {
    let mut mf = Mcmf::new();
    mf.n = 3;
    mf.set_n(3);
    mf.add_signed(1, 2, 4, -3);
    assert_eq!((mf.e[2].u, mf.e[2].v, mf.e[2].w, mf.e[2].c), (2, 1, 4, 3));
    assert_eq!(mf.a[2], 4);
    assert_eq!(mf.a[1], -4);
    assert_eq!(mf.a1, -12);
}

#[test]
fn init_empties_the_solver() {
    let mut mf = Mcmf::new();
    mf.n = 3;
    mf.set_n(3);
    mf.add_edge(1, 2, 0, 7, 4);
    mf.a0 = 9;
    mf.init();
    assert_eq!(mf.e.len(), 2);
    assert_eq!(mf.d.len(), 0);
    assert_eq!(mf.n, 0);
    assert_eq!(mf.a0, 0);
}

#[test]
fn work_sends_the_cheapest_maximum_flow() {
    let mut mf = Mcmf::new();
    mf.n = 4;
    mf.s = 1;
    mf.t = 4;
    mf.set_n(4);
    mf.add_edge(1, 2, 0, 2, 1);
    mf.add_edge(1, 3, 0, 1, 5);
    mf.add_edge(2, 4, 0, 1, 1);
    mf.add_edge(2, 3, 0, 1, 1);
    mf.add_edge(3, 4, 0, 2, 1);
    mf.ss = 1;
    mf.tt = 4;
    mf.work();
    assert_eq!(mf.maxflow, 3);
    assert_eq!(mf.cost, 2 + 3 + 6);
}

#[test]
fn solve_meets_a_lower_bound_through_the_closing_edge() {
    let mut mf = Mcmf::new();
    mf.n = 3;
    mf.s = 1;
    mf.t = 3;
    mf.set_n(3);
    mf.add_edge(1, 2, 0, 5, 1);
    mf.add_edge(2, 3, 2, 5, 1);
    mf.solve();
    let supplied = mf.e[mf.e.len() - 4].w;
    assert_eq!(supplied, 0);
    assert_eq!(mf.a0, 3);
    assert_eq!(mf.a1, 2 + 3 + 3);
}

#[test]
fn solve_twice_on_equal_networks_agrees() {
    let build = || {
        let mut mf = Mcmf::new();
        mf.n = 4;
        mf.s = 4;
        mf.t = 3;
        mf.set_n(4);
        mf.add_signed(4, 2, 30, 2);
        mf.add_signed(4, 3, 20, 3);
        mf.add_signed(2, 3, 20, 1);
        mf.add_signed(2, 1, 30, 9);
        mf.add_signed(1, 3, 40, 5);
        mf.solve();
        mf
    };
    let a = build();
    let b = build();
    assert_eq!(a.a0, b.a0);
    assert_eq!(a.a1, b.a1);
    let wa: Vec<i32> = a.e.iter().map(|x| x.w).collect();
    let wb: Vec<i32> = b.e.iter().map(|x| x.w).collect();
    assert_eq!(wa, wb);
}

#[test]
fn add_edge_returns_the_index_of_the_forward_edge() {
    let mut mf = Mcmf::new();
    mf.n = 3;
    mf.set_n(3);
    let first = mf.add_edge(1, 2, 0, 7, 4);
    let second = mf.add_edge(2, 3, 1, 5, 0);
    assert_eq!(first, 2);
    assert_eq!(second, 4);
    assert_eq!(mf.e[first].v, 2);
    assert_eq!(mf.e[second].w, 4);
    assert_eq!(mf.e[second ^ 1].u, 3);
}

#[test]
fn solve_leaves_a_saturated_cut() {
    let mut mf = Mcmf::new();
    mf.n = 4;
    mf.s = 1;
    mf.t = 4;
    mf.set_n(4);
    mf.add_edge(1, 2, 0, 3, 2);
    mf.add_edge(1, 3, 0, 2, 1);
    mf.add_edge(2, 4, 0, 2, 1);
    mf.add_edge(3, 4, 0, 4, 3);
    mf.add_edge(2, 3, 0, 5, 0);
    mf.solve();
    // two units by 1-2-4 at 3 each, two by 1-3-4 at 4 each, one by 1-2-3-4 at 5
    assert_eq!(mf.a0, 5);
    assert_eq!(mf.a1, 2 * 3 + 2 * 4 + 5);
    // flow is conserved at the inner nodes
    for node in [2, 3] {
        let mut net = 0;
        for k in (2..mf.e.len()).step_by(2) {
            let flow = mf.e[k + 1].w;
            if mf.e[k].u == node {
                net += flow;
            }
            if mf.e[k].v == node {
                net -= flow;
            }
        }
        assert_eq!(net, 0);
    }
    // the sink is out of reach
    assert_eq!(mf.d[4], Mcmf::INF);
}
