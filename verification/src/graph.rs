//! The residual network: edges stored in forward/reverse pairs inside one
//! array, threaded into per-node adjacency lists by index.

use std::collections::VecDeque;
use vstd::prelude::*;

verus! {

/// One directed residual edge `u -> v` with residual capacity `w` and unit
/// cost `c`. `next` is the index of the next edge leaving `u`, or 0 at the
/// end of the list.
#[derive(Clone, Debug)]
pub struct Edge {
    pub u: i32,
    pub next: usize,
    pub v: i32,
    pub w: i32,
    pub c: i32,
}

/// Minimum-cost maximum-flow solver over a residual network with optional
/// lower bounds on edges.
pub struct Mcmf {
    pub n: i32,
    pub m: i32,
    pub s: i32,
    pub t: i32,
    pub maxflow: i32,
    pub cost: i32,
    pub in_field: i32,
    pub ss: i32,
    pub tt: i32,
    pub a0: i32,
    pub a1: i32,
    pub d: Vec<i32>,
    pub incf: Vec<i32>,
    pub pre: Vec<usize>,
    pub head: Vec<usize>,
    pub a: Vec<i32>,
    pub vis: Vec<bool>,
    pub e: Vec<Edge>,
    pub q: VecDeque<i32>,
}

/// The mathematical content of a solver: its scalars and the contents of its
/// arrays.
pub struct Net {
    pub n: i32,
    pub m: i32,
    pub s: i32,
    pub t: i32,
    pub maxflow: i32,
    pub cost: i32,
    pub in_field: i32,
    pub ss: i32,
    pub tt: i32,
    pub a0: i32,
    pub a1: i32,
    pub d: Seq<i32>,
    pub incf: Seq<i32>,
    pub pre: Seq<usize>,
    pub head: Seq<usize>,
    pub a: Seq<i32>,
    pub vis: Seq<bool>,
    pub e: Seq<Edge>,
    pub q: Seq<i32>,
}

impl View for Mcmf {
    type V = Net;

    open spec fn view(&self) -> Net {
        Net {
            n: self.n,
            m: self.m,
            s: self.s,
            t: self.t,
            maxflow: self.maxflow,
            cost: self.cost,
            in_field: self.in_field,
            ss: self.ss,
            tt: self.tt,
            a0: self.a0,
            a1: self.a1,
            d: self.d@,
            incf: self.incf@,
            pre: self.pre@,
            head: self.head@,
            a: self.a@,
            vis: self.vis@,
            e: self.e@,
            q: self.q@,
        }
    }
}

/// The placeholder that fills the two unused leading slots of the edge array.
pub open spec fn blank_edge() -> Edge {
    Edge { u: 0, next: 0, v: 0, w: 0, c: 0 }
}

/// Index of the edge paired with edge `i`: edges `2k` and `2k + 1` are each
/// other's reverse.
pub open spec fn mate(i: int) -> int {
    if i % 2 == 0 {
        i + 1
    } else {
        i - 1
    }
}

/// `s` cut or padded with `fill` to length `len`.
pub open spec fn resized<T>(s: Seq<T>, len: int, fill: T) -> Seq<T> {
    Seq::new(
        len as nat,
        |i: int|
            if i < s.len() {
                s[i]
            } else {
                fill
            },
    )
}

/// The contents of the empty network.
pub open spec fn empty_net() -> Net {
    Net {
        n: 0,
        m: 0,
        s: 0,
        t: 0,
        maxflow: 0,
        cost: 0,
        in_field: 0,
        ss: 0,
        tt: 0,
        a0: 0,
        a1: 0,
        d: Seq::empty(),
        incf: Seq::empty(),
        pre: Seq::empty(),
        head: Seq::empty(),
        a: Seq::empty(),
        vis: Seq::empty(),
        e: seq![blank_edge(), blank_edge()],
        q: Seq::empty(),
    }
}

/// Edge `i` of `e` joins two nodes below `sz`, has a non-negative residual
/// capacity, and is mirrored by its mate with the negated cost.
pub open spec fn edge_ok(e: Seq<Edge>, sz: int, i: int) -> bool {
    let x = e[i];
    let y = e[mate(i)];
    &&& 0 <= x.u < sz
    &&& 0 <= x.v < sz
    &&& 0 <= x.w
    &&& x.w + y.w <= i32::MAX
    &&& y.u == x.v
    &&& y.v == x.u
    &&& y.c == -x.c
}

/// The adjacency link of edge `i` points to the nearest earlier edge with
/// the same tail, or to 0 if there is none.
pub open spec fn link_ok(e: Seq<Edge>, i: int) -> bool {
    let x = e[i];
    &&& x.next < i
    &&& x.next != 1
    &&& x.next != 0 ==> e[x.next as int].u == x.u
    &&& forall|j: int| x.next < j < i && 2 <= j ==> (#[trigger] e[j]).u != x.u
}

/// The list head of node `u` points to the last edge with tail `u`, or to 0
/// if there is none.
pub open spec fn head_ok(e: Seq<Edge>, head: Seq<usize>, u: int) -> bool {
    let h = head[u];
    &&& h < e.len()
    &&& h != 1
    &&& h != 0 ==> e[h as int].u == u
    &&& forall|j: int| h < j < e.len() && 2 <= j ==> (#[trigger] e[j]).u != u
}

/// Edges in mirrored pairs after two blank slots, and adjacency lists that
/// reach every edge.
pub open spec fn edges_wf(e: Seq<Edge>, head: Seq<usize>, sz: int) -> bool {
    &&& head.len() == sz
    &&& e.len() >= 2
    &&& e.len() % 2 == 0
    &&& e[0].w == 0
    &&& e[1].w == 0
    &&& forall|i: int| 2 <= i < e.len() ==> #[trigger] edge_ok(e, sz, i)
    &&& forall|i: int| 2 <= i < e.len() ==> #[trigger] link_ok(e, i)
    &&& forall|u: int| 0 <= u < sz ==> #[trigger] head_ok(e, head, u)
}

impl Net {
    /// Number of node slots.
    pub open spec fn size(self) -> int {
        self.d.len() as int
    }

    /// Structural well-formedness: per-node arrays of one length, and a
    /// well-formed edge array.
    pub open spec fn wf(self) -> bool {
        &&& self.size() <= i32::MAX
        &&& self.incf.len() == self.size()
        &&& self.pre.len() == self.size()
        &&& self.a.len() == self.size()
        &&& self.vis.len() == self.size()
        &&& edges_wf(self.e, self.head, self.size())
    }

    /// The network after edge `u -> v` with residual capacity `w` and cost
    /// `c` has been appended and put at the front of `u`'s list.
    pub open spec fn with_edge(self, u: i32, v: i32, w: i32, c: i32) -> Net {
        Net {
            e: self.e.push(Edge { u, next: self.head[u as int], v, w, c }),
            head: self.head.update(u as int, self.e.len() as usize),
            ..self
        }
    }

    /// The network after the pair `u -> v` (capacity `w`, cost `c`) and
    /// `v -> u` (capacity 0, cost `-c`) has been appended.
    pub open spec fn with_pair(self, u: i32, v: i32, w: i32, c: i32) -> Net {
        self.with_edge(u, v, w, c).with_edge(v, u, 0, (-c) as i32)
    }

    /// The network after an edge `u -> v` with lower bound `l`, upper bound
    /// `d` and cost `c` has been added: the bound is booked as excess at `v`
    /// and deficit at `u`, and the pair carries the remaining `d - l`.
    pub open spec fn with_bounded(self, u: i32, v: i32, l: i32, d: i32, c: i32) -> Net {
        let a1 = self.a.update(v as int, (self.a[v as int] + l) as i32);
        let a2 = a1.update(u as int, (a1[u as int] - l) as i32);
        Net { a: a2, ..self }.with_pair(u, v, (d - l) as i32, c)
    }

    /// The network after an edge `u -> v` with capacity `w` and a cost `c`
    /// of either sign has been added. A negative cost is modelled as if the
    /// edge were used to the full from the start: `w` units are booked as
    /// excess at `v` and deficit at `u`, their cost `c * w` is added to the
    /// running total, and the stored pair runs backwards, `v -> u`, at cost
    /// `-c`, so that sending flow along it gives the booked units back.
    pub open spec fn with_signed(self, u: i32, v: i32, w: i32, c: i32) -> Net {
        if c >= 0 {
            self.with_bounded(u, v, 0, w, c)
        } else {
            let a1 = self.a.update(v as int, (self.a[v as int] + w) as i32);
            let a2 = a1.update(u as int, (a1[u as int] - w) as i32);
            Net { a: a2, a1: (self.a1 + c * w) as i32, ..self }.with_pair(v, u, w, (-c) as i32)
        }
    }
}

/// Appending a mirrored pair to a well-formed network keeps it well-formed.
pub proof fn lemma_with_pair_wf(net: Net, u: i32, v: i32, w: i32, c: i32)
    requires
        net.wf(),
        0 <= u < net.size(),
        0 <= v < net.size(),
        0 <= w,
        c > i32::MIN,
        net.e.len() + 2 <= usize::MAX,
    ensures
        net.with_pair(u, v, w, c).wf(),
        net.with_pair(u, v, w, c).e == net.e.push(
            Edge { u, next: net.head[u as int], v, w, c },
        ).push(
            Edge {
                u: v,
                next: if u == v {
                    net.e.len() as usize
                } else {
                    net.head[v as int]
                },
                v: u,
                w: 0,
                c: (-c) as i32,
            },
        ),
{
    let m = net.e.len() as int;
    let out = net.with_pair(u, v, w, c);
    let sz = net.size();
    assert(out.e.len() == m + 2);
    assert forall|i: int| 2 <= i < out.e.len() implies #[trigger] edge_ok(out.e, sz, i) by {
        if i < m {
            assert(edge_ok(net.e, sz, i));
            assert(out.e[i] == net.e[i]);
            assert(out.e[mate(i)] == net.e[mate(i)]);
        }
    }
    assert forall|i: int| 2 <= i < out.e.len() implies #[trigger] link_ok(out.e, i) by {
        if i < m {
            assert(link_ok(net.e, i));
            assert(out.e[i] == net.e[i]);
            assert forall|j: int| out.e[i].next < j < i && 2 <= j implies (#[trigger] out.e[j]).u
                != out.e[i].u by {
                assert(out.e[j] == net.e[j]);
            }
        } else if i == m {
            assert(head_ok(net.e, net.head, u as int));
            assert forall|j: int| out.e[i].next < j < i && 2 <= j implies (#[trigger] out.e[j]).u
                != out.e[i].u by {
                assert(out.e[j] == net.e[j]);
            }
        } else {
            assert(head_ok(net.e, net.head, v as int));
            assert forall|j: int| out.e[i].next < j < i && 2 <= j implies (#[trigger] out.e[j]).u
                != out.e[i].u by {
                if j < m {
                    assert(out.e[j] == net.e[j]);
                }
            }
        }
    }
    assert forall|x: int| 0 <= x < sz implies #[trigger] head_ok(out.e, out.head, x) by {
        assert(head_ok(net.e, net.head, x));
        if x != u && x != v {
            assert forall|j: int| out.head[x] < j < out.e.len() && 2 <= j implies (
            #[trigger] out.e[j]).u != x by {
                if j < m {
                    assert(out.e[j] == net.e[j]);
                }
            }
        }
    }
}

impl Mcmf {
    /// The distance label of a node that no path has reached.
    pub const INF: i32 = 0x3f3f3f3f;

    /// A solver over the empty network.
    pub fn new() -> (r: Self)
        ensures
            r@ == empty_net(),
    {
        let mut m = Mcmf {
            n: 0,
            m: 0,
            s: 0,
            t: 0,
            maxflow: 0,
            cost: 0,
            in_field: 0,
            ss: 0,
            tt: 0,
            a0: 0,
            a1: 0,
            d: Vec::new(),
            incf: Vec::new(),
            pre: Vec::new(),
            head: Vec::new(),
            a: Vec::new(),
            vis: Vec::new(),
            e: Vec::new(),
            q: VecDeque::new(),
        };
        m.e.push(Edge { u: 0, next: 0, v: 0, w: 0, c: 0 });
        m.e.push(Edge { u: 0, next: 0, v: 0, w: 0, c: 0 });
        assert(m.e@ =~= seq![blank_edge(), blank_edge()]);
        m
    }

    /// Empties the network for reuse: all scalars zero, no nodes, and no
    /// edges beyond the two leading slots.
    pub fn init(&mut self)
        ensures
            final(self)@ == (Net {
                e: if old(self)@.e.len() >= 2 {
                    old(self)@.e.subrange(0, 2)
                } else {
                    old(self)@.e
                },
                ..empty_net()
            }),
    {
        self.n = 0;
        self.m = 0;
        self.s = 0;
        self.t = 0;
        self.maxflow = 0;
        self.cost = 0;
        self.in_field = 0;
        self.ss = 0;
        self.tt = 0;
        self.a0 = 0;
        self.a1 = 0;
        self.d.clear();
        self.incf.clear();
        self.pre.clear();
        self.head.clear();
        self.a.clear();
        self.vis.clear();
        self.e.truncate(2);
        self.q.clear();
    }

    /// Sizes the per-node arrays for nodes `0..n + 3`: the nodes `1..=n` of the
    /// caller and the two that `solve` adds. Existing entries are kept, new
    /// ones are zero.
    pub fn set_n(&mut self, n: i32)
        requires
            -3 <= n <= i32::MAX - 3,
        ensures
            final(self)@ == (Net {
                d: resized(old(self)@.d, n + 3, 0i32),
                incf: resized(old(self)@.incf, n + 3, 0i32),
                pre: resized(old(self)@.pre, n + 3, 0usize),
                head: resized(old(self)@.head, n + 3, 0usize),
                a: resized(old(self)@.a, n + 3, 0i32),
                vis: resized(old(self)@.vis, n + 3, false),
                ..old(self)@
            }),
    {
        let sz = (n + 3) as usize;
        self.d.resize(sz, 0);
        self.incf.resize(sz, 0);
        self.pre.resize(sz, 0);
        self.head.resize(sz, 0);
        self.a.resize(sz, 0);
        self.vis.resize(sz, false);
        assert(self.d@ =~= resized(old(self)@.d, n + 3, 0i32));
        assert(self.incf@ =~= resized(old(self)@.incf, n + 3, 0i32));
        assert(self.pre@ =~= resized(old(self)@.pre, n + 3, 0usize));
        assert(self.head@ =~= resized(old(self)@.head, n + 3, 0usize));
        assert(self.a@ =~= resized(old(self)@.a, n + 3, 0i32));
        assert(self.vis@ =~= resized(old(self)@.vis, n + 3, false));
    }

    /// Appends one edge and makes it the head of `u`'s adjacency list.
    fn add(&mut self, u: i32, v: i32, w: i32, c: i32)
        requires
            0 <= u < old(self)@.head.len(),
        ensures
            final(self)@ == old(self)@.with_edge(u, v, w, c),
    {
        let idx = self.e.len();
        let next = self.head[u as usize];
        self.e.push(Edge { u, next, v, w, c });
        self.head.set(u as usize, idx);
    }

    /// Appends the pair `u -> v` with capacity `w` and cost `c`, and its
    /// reverse with capacity 0 and cost `-c`. Returns the index of the
    /// forward edge.
    fn add_e(&mut self, u: i32, v: i32, w: i32, c: i32) -> (at: usize)
        requires
            0 <= u < old(self)@.head.len(),
            0 <= v < old(self)@.head.len(),
            c > i32::MIN,
        ensures
            final(self)@ == old(self)@.with_pair(u, v, w, c),
            at == old(self)@.e.len(),
    {
        let at = self.e.len();
        self.add(u, v, w, c);
        self.add(v, u, 0, -c);
        at
    }

    /// Adds an edge `u -> v` that must carry at least `l` and at most `d`
    /// units at cost `c` each. The lower bound is booked in the excess
    /// array; the stored pair has capacity `d - l`. Returns the index of
    /// the forward edge of the pair.
    pub fn add_edge(&mut self, u: i32, v: i32, l: i32, d: i32, c: i32) -> (at: usize)
        requires
            old(self)@.wf(),
            0 <= u < old(self)@.size(),
            0 <= v < old(self)@.size(),
            0 <= l <= d,
            c > i32::MIN,
            i32::MIN <= old(self)@.a[v as int] + l <= i32::MAX,
            u != v ==> i32::MIN <= old(self)@.a[u as int] - l,
        ensures
            final(self)@ == old(self)@.with_bounded(u, v, l, d, c),
            final(self)@.wf(),
            at == old(self)@.e.len(),
            old(self)@.e.len() + 2 <= usize::MAX,
    {
        let av = self.a[v as usize];
        self.a.set(v as usize, av + l);
        let au = self.a[u as usize];
        self.a.set(u as usize, au - l);
        let ghost booked = self@;
        let at = self.add_e(u, v, d - l, c);
        proof {
            assert(self.e@.len() == self.e.len());
            lemma_with_pair_wf(booked, u, v, (d - l) as i32, c);
        }
        at
    }

    /// Adds an edge `u -> v` with capacity `w` whose cost `c` may be
    /// negative; see [`Net::with_signed`].
    pub fn add_signed(&mut self, u: i32, v: i32, w: i32, c: i32)
        requires
            old(self)@.wf(),
            0 <= u < old(self)@.size(),
            0 <= v < old(self)@.size(),
            0 <= w,
            c > i32::MIN,
            c < 0 ==> old(self)@.a[v as int] + w <= i32::MAX,
            c < 0 && u != v ==> i32::MIN <= old(self)@.a[u as int] - w,
            c < 0 ==> i32::MIN <= old(self)@.a1 + c * w,
        ensures
            final(self)@ == old(self)@.with_signed(u, v, w, c),
            final(self)@.wf(),
    {
        if c >= 0 {
            let _ = self.add_edge(u, v, 0, w, c);
            assert(self.a@ =~= old(self)@.a);
        } else {
            let av = self.a[v as usize];
            self.a.set(v as usize, av + w);
            let au = self.a[u as usize];
            self.a.set(u as usize, au - w);
            let ghost booked = self.a@;
            assert(c * w <= 0) by (nonlinear_arith)
                requires
                    c < 0,
                    w >= 0,
            ;
            let adjust: i64 = (c as i64) * (w as i64);
            let _ = self.add_edge(v, u, 0, w, -c);
            assert(self.a@ =~= booked);
            self.a1 = (self.a1 as i64 + adjust) as i32;
        }
    }
}

} // verus!
