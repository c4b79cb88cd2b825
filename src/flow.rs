use vstd::prelude::*;
use crate::workflow::{Workflow, Node};
use vstd::set_lib::{set_int_range, lemma_int_range, lemma_len_subset};

verus! {

/// The shape of a flow graph: node ids and types in declaration order, and
/// `adj[u][v]` when there is an edge from the `u`-th node to the `v`-th.
pub struct GraphModel {
    pub ids: Seq<u32>,
    pub types: Seq<Seq<char>>,
    pub adj: Seq<Seq<bool>>,
}

impl GraphModel {
    pub open spec fn n(self) -> int {
        self.ids.len() as int
    }

    pub open spec fn shaped(self) -> bool {
        &&& self.types.len() == self.ids.len()
        &&& self.adj.len() == self.ids.len()
        &&& forall|u: int| 0 <= u < self.adj.len() ==> #[trigger] self.adj[u].len() == self.ids.len()
    }

    pub open spec fn edge(self, u: int, v: int) -> bool {
        0 <= u < self.n() && 0 <= v < self.n() && self.adj[u][v]
    }
}

/// `v` is not yet in `o`, and every predecessor of `v` is.
pub open spec fn ready(g: GraphModel, o: Seq<usize>, v: int) -> bool {
    &&& 0 <= v < g.n()
    &&& !o.contains(v as usize)
    &&& forall|u: int| #[trigger] g.edge(u, v) ==> o.contains(u as usize)
}

/// Each entry of `o` is the smallest node that is ready after the entries before it.
pub open spec fn greedy(g: GraphModel, o: Seq<usize>) -> bool {
    forall|i: int|
        0 <= i < o.len() ==> #[trigger] ready(g, o.take(i), o[i] as int) && forall|w: int|
            0 <= w < o[i] ==> !ready(g, o.take(i), w)
}

/// No node is ready after `o`.
pub open spec fn maximal(g: GraphModel, o: Seq<usize>) -> bool {
    forall|w: int| !ready(g, o, w)
}

/// What the ordering step produces: the greedy sequence run until nothing is ready.
pub open spec fn scheduled(g: GraphModel, o: Seq<usize>) -> bool {
    greedy(g, o) && maximal(g, o)
}

pub open spec fn covers(g: GraphModel, o: Seq<usize>) -> bool {
    forall|v: usize| v < g.n() ==> #[trigger] o.contains(v)
}

/// `o` lists every node once, and the source of each edge before its target.
pub open spec fn is_topological(g: GraphModel, o: Seq<usize>) -> bool {
    &&& o.no_duplicates()
    &&& forall|i: int| 0 <= i < o.len() ==> o[i] < g.n()
    &&& covers(g, o)
    &&& forall|i: int, j: int|
        0 <= i < o.len() && 0 <= j < o.len() && #[trigger] g.edge(o[i] as int, o[j] as int) ==> i < j
}

pub open spec fn acyclic(g: GraphModel) -> bool {
    exists|o: Seq<usize>| is_topological(g, o)
}

/// A closed walk of at least one edge.
pub open spec fn is_cycle(g: GraphModel, c: Seq<usize>) -> bool {
    &&& c.len() >= 2
    &&& c[0] == c.last()
    &&& forall|k: int| 0 <= k < c.len() - 1 ==> #[trigger] g.edge(c[k] as int, c[k + 1] as int)
}

pub open spec fn has_cycle(g: GraphModel) -> bool {
    exists|c: Seq<usize>| is_cycle(g, c)
}

proof fn lemma_greedy_facts(g: GraphModel, o: Seq<usize>)
    requires
        greedy(g, o),
    ensures
        o.no_duplicates(),
        forall|i: int| 0 <= i < o.len() ==> o[i] < g.n(),
        forall|i: int, j: int|
            0 <= i < o.len() && 0 <= j < o.len() && #[trigger] g.edge(o[i] as int, o[j] as int) ==> i < j,
{
    assert forall|i: int| 0 <= i < o.len() implies o[i] < g.n() by {
        assert(ready(g, o.take(i), o[i] as int));
    }
    assert forall|i: int, j: int| 0 <= i < o.len() && 0 <= j < o.len() && i != j implies o[i] != o[j] by {
        if i < j {
            assert(ready(g, o.take(j), o[j] as int));
            assert(o.take(j)[i] == o[i]);
        } else {
            assert(ready(g, o.take(i), o[i] as int));
            assert(o.take(i)[j] == o[j]);
        }
    }
    assert forall|i: int, j: int|
        0 <= i < o.len() && 0 <= j < o.len() && #[trigger] g.edge(o[i] as int, o[j] as int) implies i < j by {
        assert(ready(g, o.take(j), o[j] as int));
        assert(o.take(j).contains(o[i]));
        let k = choose|k: int| 0 <= k < o.take(j).len() && o.take(j)[k] == o[i];
        assert(o[k] == o[i]);
    }
}

/// A scheduled sequence that covers every node is a topological order.
pub proof fn lemma_scheduled_covering_is_topological(g: GraphModel, o: Seq<usize>)
    requires
        greedy(g, o),
        covers(g, o),
    ensures
        is_topological(g, o),
{
    lemma_greedy_facts(g, o);
}

proof fn lemma_prefix_scheduled(g: GraphModel, o: Seq<usize>, p: Seq<usize>, j: int)
    requires
        maximal(g, o),
        is_topological(g, p),
        0 <= j < p.len(),
        g.n() <= usize::MAX,
    ensures
        forall|k: int| 0 <= k <= j ==> o.contains(#[trigger] p[k]),
    decreases j,
{
    if j > 0 {
        lemma_prefix_scheduled(g, o, p, j - 1);
    }
    if !o.contains(p[j]) {
        let v = p[j] as int;
        assert(!ready(g, o, v));
        let u = choose|u: int| #[trigger] g.edge(u, v) && !o.contains(u as usize);
        assert(p.contains(u as usize));
        let k = choose|k: int| 0 <= k < p.len() && p[k] == u as usize;
        assert(p[k] as int == u);
        assert(g.edge(p[k] as int, p[j] as int));
        assert(k < j);
    }
}

/// When the ordering step stops short of some node, no topological order exists.
pub proof fn lemma_stuck_means_no_order(g: GraphModel, o: Seq<usize>, p: Seq<usize>)
    requires
        maximal(g, o),
        !covers(g, o),
        g.n() <= usize::MAX,
    ensures
        !is_topological(g, p),
{
    if is_topological(g, p) {
        let v = choose|v: usize| v < g.n() && !o.contains(v);
        assert(p.contains(v));
        let j = choose|j: int| 0 <= j < p.len() && p[j] == v;
        lemma_prefix_scheduled(g, o, p, j);
        assert(o.contains(p[j]));
    }
}

proof fn lemma_walk_moves_forward(g: GraphModel, o: Seq<usize>, c: Seq<usize>, i0: int, k: int)
    requires
        is_topological(g, o),
        is_cycle(g, c),
        0 <= i0 < o.len(),
        o[i0] == c[0],
        1 <= k < c.len(),
    ensures
        forall|j: int| 0 <= j < o.len() && #[trigger] o[j] == c[k] ==> i0 < j,
    decreases k,
{
    let k1 = k - 1;
    assert(g.edge(c[k1] as int, c[k1 + 1] as int));
    assert(o.contains(c[k1]));
    assert(o.contains(c[k]));
    let a = choose|a: int| 0 <= a < o.len() && o[a] == c[k1];
    let b = choose|b: int| 0 <= b < o.len() && o[b] == c[k];
    assert(g.edge(o[a] as int, o[b] as int));
    if k > 1 {
        lemma_walk_moves_forward(g, o, c, i0, k - 1);
    }
}

/// A graph with a topological order has no cycle.
pub proof fn lemma_topological_excludes_cycle(g: GraphModel, o: Seq<usize>, c: Seq<usize>)
    requires
        is_topological(g, o),
    ensures
        !is_cycle(g, c),
{
    if is_cycle(g, c) {
        let z: int = 0;
        assert(g.edge(c[z] as int, c[z + 1] as int));
        assert(o.contains(c[0]));
        let i0 = choose|i: int| 0 <= i < o.len() && o[i] == c[0];
        lemma_walk_moves_forward(g, o, c, i0, c.len() - 1);
        assert(o[i0] == c[c.len() - 1]);
    }
}

/// Every cycle rules out every execution order: an acyclic graph has no cycle.
pub proof fn lemma_cycle_is_not_acyclic(g: GraphModel, c: Seq<usize>)
    requires
        is_cycle(g, c),
    ensures
        !acyclic(g),
{
    if acyclic(g) {
        let o = choose|o: Seq<usize>| is_topological(g, o);
        lemma_topological_excludes_cycle(g, o, c);
    }
}

/// The ordering step has one outcome: two scheduled sequences of one graph are equal.
pub proof fn lemma_schedule_is_unique(g: GraphModel, o1: Seq<usize>, o2: Seq<usize>)
    requires
        scheduled(g, o1),
        scheduled(g, o2),
    ensures
        o1 == o2,
{
    let m: int = if o1.len() < o2.len() { o1.len() as int } else { o2.len() as int };
    assert forall|i: int| 0 <= i <= m implies #[trigger] o1.take(i) == o2.take(i) by {
        lemma_common_prefix(g, o1, o2, i);
    }
    if o1.len() < o2.len() {
        assert(o1.take(m) == o1);
        assert(ready(g, o2.take(m), o2[m] as int));
    } else if o2.len() < o1.len() {
        assert(o2.take(m) == o2);
        assert(ready(g, o1.take(m), o1[m] as int));
    } else {
        assert(o1.take(m) == o1);
        assert(o2.take(m) == o2);
    }
}

/// Two graphs built from the same workflow run their nodes in the same order.
pub proof fn lemma_build_is_deterministic(
    w: &Workflow,
    g1: GraphModel,
    g2: GraphModel,
    o1: Seq<usize>,
    o2: Seq<usize>,
)
    requires
        g1 == model_of(w),
        g2 == model_of(w),
        scheduled(g1, o1),
        scheduled(g2, o2),
    ensures
        o1 == o2,
{
    lemma_schedule_is_unique(g1, o1, o2);
}

proof fn lemma_common_prefix(g: GraphModel, o1: Seq<usize>, o2: Seq<usize>, i: int)
    requires
        greedy(g, o1),
        greedy(g, o2),
        0 <= i <= o1.len(),
        i <= o2.len(),
    ensures
        o1.take(i) == o2.take(i),
    decreases i,
{
    if i > 0 {
        lemma_common_prefix(g, o1, o2, i - 1);
        let p = o1.take(i - 1);
        assert(ready(g, p, o1[i - 1] as int));
        assert(ready(g, o2.take(i - 1), o2[i - 1] as int));
        if o1[i - 1] < o2[i - 1] {
            assert(!ready(g, o2.take(i - 1), o1[i - 1] as int));
        } else if o2[i - 1] < o1[i - 1] {
            assert(!ready(g, o1.take(i - 1), o2[i - 1] as int));
        }
        assert(o1.take(i) == o1.take(i - 1).push(o1[i - 1]));
        assert(o2.take(i) == o2.take(i - 1).push(o2[i - 1]));
    }
}


proof fn lemma_distinct_bounded_len(o: Seq<usize>, n: int)
    requires
        o.no_duplicates(),
        forall|i: int| 0 <= i < o.len() ==> o[i] < n,
        0 <= n,
    ensures
        o.len() <= n,
{
    let m = o.map_values(|x: usize| x as int);
    assert(m.no_duplicates()) by {
        assert forall|i: int, j: int| 0 <= i < m.len() && 0 <= j < m.len() && i != j implies m[i] != m[j] by {
            assert(o[i] != o[j]);
        }
    }
    m.unique_seq_to_set();
    lemma_int_range(0, n);
    assert forall|x: int| m.to_set().contains(x) implies set_int_range(0, n).contains(x) by {
        let i = choose|i: int| 0 <= i < m.len() && m[i] == x;
        assert(o[i] < n);
    }
    lemma_len_subset(m.to_set(), set_int_range(0, n));
}

/// Walks back `k` edges from `v`, each time to some predecessor not in `o`.
spec fn walk_back(g: GraphModel, o: Seq<usize>, v: int, k: nat) -> int
    decreases k,
{
    if k == 0 {
        v
    } else {
        let x = walk_back(g, o, v, (k - 1) as nat);
        choose|u: int| #[trigger] g.edge(u, x) && !o.contains(u as usize)
    }
}

proof fn lemma_walk_back(g: GraphModel, o: Seq<usize>, v: int, k: nat)
    requires
        maximal(g, o),
        0 <= v < g.n(),
        !o.contains(v as usize),
        g.n() <= usize::MAX,
    ensures
        0 <= walk_back(g, o, v, k) < g.n(),
        !o.contains(walk_back(g, o, v, k) as usize),
        g.edge(walk_back(g, o, v, k + 1), walk_back(g, o, v, k)),
    decreases k,
{
    if k > 0 {
        lemma_walk_back(g, o, v, (k - 1) as nat);
        let p = walk_back(g, o, v, (k - 1) as nat);
        assert(!ready(g, o, p));
        assert(exists|u: int| #[trigger] g.edge(u, p) && !o.contains(u as usize));
        assert(walk_back(g, o, v, k) == choose|u: int| #[trigger] g.edge(u, p) && !o.contains(u as usize));
    }
    let x = walk_back(g, o, v, k);
    assert(0 <= x < g.n());
    assert(!ready(g, o, x));
    assert(exists|u: int| #[trigger] g.edge(u, x) && !o.contains(u as usize));
    let u = walk_back(g, o, v, k + 1);
    assert(g.edge(u, x) && !o.contains(u as usize));
    assert(0 <= u < g.n());
}

/// When the ordering step stops short of some node, the graph has a cycle.
pub proof fn lemma_stuck_means_cycle(g: GraphModel, o: Seq<usize>)
    requires
        maximal(g, o),
        !covers(g, o),
        g.n() <= usize::MAX,
    ensures
        has_cycle(g),
{
    let v0 = choose|v: usize| v < g.n() && !o.contains(v);
    let v = v0 as int;
    let n = g.n();
    let w = Seq::new((n + 1) as nat, |k: int| walk_back(g, o, v, k as nat) as usize);
    assert forall|k: int| 0 <= k < w.len() implies w[k] < n by {
        lemma_walk_back(g, o, v, k as nat);
    }
    if w.no_duplicates() {
        lemma_distinct_bounded_len(w, n);
    }
    let (i, j) = choose|i: int, j: int| 0 <= i < w.len() && 0 <= j < w.len() && i != j && w[i] == w[j];
    let (a, b) = if i < j { (i, j) } else { (j, i) };
    let c = Seq::new((b - a + 1) as nat, |k: int| w[b - k]);
    assert forall|k: int| 0 <= k < c.len() - 1 implies #[trigger] g.edge(c[k] as int, c[k + 1] as int) by {
        let m = b - k - 1;
        lemma_walk_back(g, o, v, m as nat);
        lemma_walk_back(g, o, v, (m + 1) as nat);
        assert(c[k] as int == walk_back(g, o, v, (m + 1) as nat));
        assert(c[k + 1] as int == walk_back(g, o, v, m as nat));
    }
    assert(is_cycle(g, c));
}

/// The decimal digits of a connection key.
pub open spec fn is_digit(c: char) -> bool {
    '0' <= c && c <= '9'
}

pub open spec fn digits_value(s: Seq<char>) -> int
    decreases s.len(),
{
    if s.len() == 0 {
        0
    } else {
        digits_value(s.drop_last()) * 10 + (s.last() as int - '0' as int)
    }
}

pub open spec fn key_digits(s: Seq<char>) -> Seq<char> {
    if s.len() > 0 && s[0] == '+' {
        s.drop_first()
    } else {
        s
    }
}

/// The node id a connection key names: an optional `+`, then one or more
/// decimal digits whose value fits in a `u32`.
pub open spec fn parsed_key(s: Seq<char>) -> Option<u32> {
    let d = key_digits(s);
    if d.len() > 0 && (forall|i: int| 0 <= i < d.len() ==> is_digit(#[trigger] d[i])) && digits_value(d)
        <= u32::MAX {
        Some(digits_value(d) as u32)
    } else {
        None
    }
}

/// Relies on `str::parse::<u32>`: it accepts an optional `+` followed by
/// decimal digits whose value fits in a `u32`, and rejects anything else.
#[verifier::external_body]
fn parse_key(s: &str) -> (r: Option<u32>)
    ensures
        r == parsed_key(s@),
{
    s.parse::<u32>().ok()
}

pub open spec fn group_source(w: &Workflow, gi: int) -> Option<u32> {
    parsed_key(w.connections@[gi].source@)
}

pub open spec fn has_node(w: &Workflow, x: u32) -> bool {
    exists|i: int| 0 <= i < w.nodes@.len() && #[trigger] w.nodes@[i].id == x
}

pub open spec fn unique_ids(w: &Workflow) -> bool {
    forall|i: int, j: int|
        0 <= i < j < w.nodes@.len() ==> #[trigger] w.nodes@[i].id != #[trigger] w.nodes@[j].id
}

/// A connection group whose key names a node of the workflow.
pub open spec fn group_ok(w: &Workflow, gi: int) -> bool {
    match group_source(w, gi) {
        Some(x) => has_node(w, x),
        None => false,
    }
}

pub open spec fn groups_ok(w: &Workflow) -> bool {
    forall|gi: int| 0 <= gi < w.connections@.len() ==> #[trigger] group_ok(w, gi)
}

/// The first connection group that does not name a node of the workflow.
pub open spec fn first_bad_group(w: &Workflow, gi: int) -> bool {
    &&& 0 <= gi < w.connections@.len()
    &&& !group_ok(w, gi)
    &&& forall|j: int| 0 <= j < gi ==> #[trigger] group_ok(w, j)
}

/// Some group keyed by `a` lists a link to `b`.
pub open spec fn links(w: &Workflow, a: u32, b: u32) -> bool {
    exists|gi: int, ti: int|
        0 <= gi < w.connections@.len() && 0 <= ti < w.connections@[gi].targets@.len()
            && #[trigger] group_source(w, gi) == Some(a) && #[trigger] w.connections@[gi].targets@[ti].to
            == b
}

/// The graph of a workflow: one vertex per node in declaration order, and an
/// edge wherever a connection links two nodes; links to unknown ids are dropped.
pub open spec fn model_of(w: &Workflow) -> GraphModel {
    let n = w.nodes@.len() as int;
    GraphModel {
        ids: w.nodes@.map_values(|x: Node| x.id),
        types: w.nodes@.map_values(|x: Node| x.node_type@),
        adj: Seq::new(
            n as nat,
            |u: int| Seq::new(n as nat, |v: int| links(w, w.nodes@[u].id, w.nodes@[v].id)),
        ),
    }
}

/// Why a workflow could not be turned into a graph.
pub enum ConfigError {
    DuplicateNodeId(u32),
    BadSourceKey(String),
    UnknownSource(u32),
}

spec fn adj_matches(g: GraphModel, adj: &Vec<Vec<bool>>) -> bool {
    &&& g.shaped()
    &&& g.n() == adj@.len()
    &&& g.n() <= usize::MAX
    &&& g.adj == adj@.map_values(|r: Vec<bool>| r@)
}

spec fn tracks(g: GraphModel, placed: Seq<bool>, o: Seq<usize>) -> bool {
    &&& placed.len() == g.n()
    &&& forall|x: usize| x < g.n() ==> placed[x as int] == #[trigger] o.contains(x)
}

proof fn lemma_greedy_push(g: GraphModel, o: Seq<usize>, w: usize)
    requires
        greedy(g, o),
        ready(g, o, w as int),
        forall|x: int| 0 <= x < w ==> !ready(g, o, x),
    ensures
        greedy(g, o.push(w)),
{
    let o2 = o.push(w);
    assert forall|i: int| 0 <= i < o2.len() implies #[trigger] ready(g, o2.take(i), o2[i] as int) && forall|x: int|
        0 <= x < o2[i] ==> !ready(g, o2.take(i), x) by {
        if i < o.len() {
            assert(o2.take(i) =~= o.take(i));
            assert(ready(g, o.take(i), o[i] as int));
        } else {
            assert(o2.take(i) =~= o);
        }
    }
}

fn preds_done(adj: &Vec<Vec<bool>>, placed: &Vec<bool>, v: usize, Ghost(g): Ghost<GraphModel>, Ghost(o): Ghost<Seq<usize>>) -> (r: bool)
    requires
        adj_matches(g, adj),
        tracks(g, placed@, o),
        v < g.n(),
    ensures
        r == (forall|u: int| #[trigger] g.edge(u, v as int) ==> o.contains(u as usize)),
{
    let n = adj.len();
    let mut u: usize = 0;
    while u < n
        invariant
            adj_matches(g, adj),
            tracks(g, placed@, o),
            v < g.n(),
            n == g.n(),
            u <= n,
            forall|x: int| 0 <= x < u && #[trigger] g.edge(x, v as int) ==> o.contains(x as usize),
        decreases n - u,
    {
        assert(g.adj[u as int] == adj@[u as int]@);
        if adj[u][v] && !placed[u] {
            assert(g.edge(u as int, v as int));
            return false;
        }
        u = u + 1;
    }
    true
}

fn first_ready(adj: &Vec<Vec<bool>>, placed: &Vec<bool>, Ghost(g): Ghost<GraphModel>, Ghost(o): Ghost<Seq<usize>>) -> (r: Option<usize>)
    requires
        adj_matches(g, adj),
        tracks(g, placed@, o),
    ensures
        r matches Some(w) ==> ready(g, o, w as int) && forall|x: int| 0 <= x < w ==> !ready(g, o, x),
        r is None ==> maximal(g, o),
{
    let n = adj.len();
    let mut w: usize = 0;
    while w < n
        invariant
            adj_matches(g, adj),
            tracks(g, placed@, o),
            n == g.n(),
            w <= n,
            forall|x: int| 0 <= x < w ==> !ready(g, o, x),
        decreases n - w,
    {
        if !placed[w] && preds_done(adj, placed, w, Ghost(g), Ghost(o)) {
            return Some(w);
        }
        w = w + 1;
    }
    None
}

/// Runs the greedy ordering until no node is ready; the flag tells whether every node was placed.
fn schedule(adj: &Vec<Vec<bool>>, Ghost(g): Ghost<GraphModel>) -> (r: (Vec<usize>, bool))
    requires
        adj_matches(g, adj),
    ensures
        scheduled(g, r.0@),
        r.1 == covers(g, r.0@),
{
    let n = adj.len();
    let mut placed: Vec<bool> = Vec::new();
    let mut i: usize = 0;
    while i < n
        invariant
            i <= n,
            placed@.len() == i,
            forall|k: int| 0 <= k < i ==> !placed@[k],
        decreases n - i,
    {
        placed.push(false);
        i = i + 1;
    }
    let mut order: Vec<usize> = Vec::new();
    let mut next = first_ready(adj, &placed, Ghost(g), Ghost(order@));
    while next.is_some()
        invariant
            adj_matches(g, adj),
            n == g.n(),
            tracks(g, placed@, order@),
            greedy(g, order@),
            order@.len() <= n,
            next matches Some(w) ==> ready(g, order@, w as int) && forall|x: int| 0 <= x < w ==> !ready(g, order@, x),
            next is None ==> maximal(g, order@),
        decreases n - order@.len(),
    {
        let w = match next {
            Some(w) => w,
            None => 0,
        };
        proof {
            lemma_greedy_push(g, order@, w);
        }
        let ghost old_order = order@;
        order.push(w);
        placed.set(w, true);
        proof {
            assert forall|x: usize| x < g.n() implies placed@[x as int] == #[trigger] order@.contains(x) by {
                if x == w {
                    assert(order@[order@.len() - 1] == x);
                } else if old_order.contains(x) {
                    let k = choose|k: int| 0 <= k < old_order.len() && old_order[k] == x;
                    assert(order@[k] == x);
                } else {
                    if order@.contains(x) {
                        let k = choose|k: int| 0 <= k < order@.len() && order@[k] == x;
                        assert(old_order[k] == x);
                    }
                }
            }
            lemma_greedy_facts(g, order@);
            lemma_distinct_bounded_len(order@, n as int);
        }
        next = first_ready(adj, &placed, Ghost(g), Ghost(order@));
    }
    let mut all = true;
    let mut v: usize = 0;
    while v < n
        invariant
            n == g.n(),
            tracks(g, placed@, order@),
            v <= n,
            all == (forall|x: usize| x < v ==> #[trigger] order@.contains(x)),
        decreases n - v,
    {
        assert(placed@[v as int] == order@.contains(v));
        if !placed[v] {
            all = false;
        }
        v = v + 1;
        assert(all == (forall|x: usize| x < v ==> #[trigger] order@.contains(x))) by {
            if !all {
                assert(exists|x: usize| x < v && !#[trigger] order@.contains(x));
            }
        }
    }
    (order, all)
}

fn find_node(w: &Workflow, x: u32) -> (r: Option<usize>)
    ensures
        r matches Some(i) ==> i < w.nodes@.len() && w.nodes@[i as int].id == x,
        r is None ==> !has_node(w, x),
{
    let mut i: usize = 0;
    while i < w.nodes.len()
        invariant
            i <= w.nodes@.len(),
            forall|k: int| 0 <= k < i ==> w.nodes@[k].id != x,
        decreases w.nodes@.len() - i,
    {
        if w.nodes[i].id == x {
            return Some(i);
        }
        i = i + 1;
    }
    None
}

fn has_link(w: &Workflow, a: u32, b: u32) -> (r: bool)
    ensures
        r == links(w, a, b),
{
    let mut gi: usize = 0;
    while gi < w.connections.len()
        invariant
            gi <= w.connections@.len(),
            forall|g2: int, ti: int|
                0 <= g2 < gi && 0 <= ti < w.connections@[g2].targets@.len() && group_source(w, g2) == Some(a)
                    ==> w.connections@[g2].targets@[ti].to != b,
        decreases w.connections@.len() - gi,
    {
        let group = &w.connections[gi];
        if parse_key(group.source.as_str()) == Some(a) {
            let mut ti: usize = 0;
            while ti < group.targets.len()
                invariant
                    gi < w.connections@.len(),
                    group == w.connections@[gi as int],
                    group_source(w, gi as int) == Some(a),
                    ti <= group.targets@.len(),
                    forall|t2: int| 0 <= t2 < ti ==> group.targets@[t2].to != b,
                decreases group.targets@.len() - ti,
            {
                if group.targets[ti].to == b {
                    assert(group_source(w, gi as int) == Some(a) && w.connections@[gi as int].targets@[ti as int].to == b);
                    return true;
                }
                ti = ti + 1;
            }
        }
        gi = gi + 1;
    }
    false
}

fn find_duplicate(w: &Workflow) -> (r: Option<u32>)
    ensures
        r is None <==> unique_ids(w),
        r matches Some(x) ==> exists|i: int, j: int|
            0 <= i < j < w.nodes@.len() && #[trigger] w.nodes@[i].id == x && #[trigger] w.nodes@[j].id == x,
{
    let mut j: usize = 0;
    while j < w.nodes.len()
        invariant
            j <= w.nodes@.len(),
            forall|a: int, b: int| 0 <= a < b < j ==> #[trigger] w.nodes@[a].id != #[trigger] w.nodes@[b].id,
        decreases w.nodes@.len() - j,
    {
        let mut i: usize = 0;
        while i < j
            invariant
                j < w.nodes@.len(),
                i <= j,
                forall|a: int, b: int| 0 <= a < b < j ==> #[trigger] w.nodes@[a].id != #[trigger] w.nodes@[b].id,
                forall|a: int| 0 <= a < i ==> #[trigger] w.nodes@[a].id != w.nodes@[j as int].id,
            decreases j - i,
        {
            if w.nodes[i].id == w.nodes[j].id {
                return Some(w.nodes[j].id);
            }
            i = i + 1;
        }
        j = j + 1;
    }
    None
}

fn check_groups(w: &Workflow) -> (r: Result<(), ConfigError>)
    ensures
        r is Ok <==> groups_ok(w),
        forall|gi: int| #[trigger] first_bad_group(w, gi) && group_source(w, gi) is None ==> (r matches Err(
            ConfigError::BadSourceKey(k),
        ) && k@ == w.connections@[gi].source@),
        forall|gi: int| #[trigger] first_bad_group(w, gi) && group_source(w, gi) is Some ==> r == Err::<(), ConfigError>(
            ConfigError::UnknownSource(group_source(w, gi)->0),
        ),
{
    let mut gi: usize = 0;
    while gi < w.connections.len()
        invariant
            gi <= w.connections@.len(),
            forall|j: int| 0 <= j < gi ==> #[trigger] group_ok(w, j),
        decreases w.connections@.len() - gi,
    {
        let group = &w.connections[gi];
        match parse_key(group.source.as_str()) {
            None => {
                assert(first_bad_group(w, gi as int));
                return Err(ConfigError::BadSourceKey(group.source.clone()));
            },
            Some(x) => {
                if find_node(w, x).is_none() {
                    assert(first_bad_group(w, gi as int));
                    return Err(ConfigError::UnknownSource(x));
                }
            },
        }
        gi = gi + 1;
    }
    Ok(())
}

fn adjacency(w: &Workflow) -> (adj: Vec<Vec<bool>>)
    ensures
        adj@.len() == w.nodes@.len(),
        forall|u: int| 0 <= u < adj@.len() ==> #[trigger] adj@[u]@ =~= model_of(w).adj[u],
{
    let n = w.nodes.len();
    let mut adj: Vec<Vec<bool>> = Vec::new();
    let mut u: usize = 0;
    while u < n
        invariant
            n == w.nodes@.len(),
            u <= n,
            adj@.len() == u,
            forall|x: int| 0 <= x < u ==> #[trigger] adj@[x]@ =~= model_of(w).adj[x],
        decreases n - u,
    {
        let mut row: Vec<bool> = Vec::new();
        let mut v: usize = 0;
        while v < n
            invariant
                n == w.nodes@.len(),
                u < n,
                v <= n,
                row@.len() == v,
                forall|y: int| 0 <= y < v ==> #[trigger] row@[y] == links(w, w.nodes@[u as int].id, w.nodes@[y].id),
            decreases n - v,
        {
            let e = has_link(w, w.nodes[u].id, w.nodes[v].id);
            row.push(e);
            v = v + 1;
        }
        adj.push(row);
        u = u + 1;
    }
    adj
}

/// A workflow's graph, with its execution order worked out once.
pub struct FlowGraph {
    ids: Vec<u32>,
    types: Vec<String>,
    adj: Vec<Vec<bool>>,
    order: Vec<usize>,
    valid: bool,
}

impl View for FlowGraph {
    type V = GraphModel;

    closed spec fn view(&self) -> GraphModel {
        GraphModel {
            ids: self.ids@,
            types: self.types@.map_values(|t: String| t@),
            adj: self.adj@.map_values(|r: Vec<bool>| r@),
        }
    }
}

impl FlowGraph {
    pub closed spec fn wf(&self) -> bool {
        &&& self@.shaped()
        &&& self@.n() <= usize::MAX
        &&& self.types@.len() == self.ids@.len()
        &&& scheduled(self@, self.order@)
        &&& self.valid == covers(self@, self.order@)
    }

    /// The graph of a workflow with no nodes.
    pub fn new() -> (r: FlowGraph)
        ensures
            r.wf(),
            r@.n() == 0,
    {
        let r = FlowGraph { ids: Vec::new(), types: Vec::new(), adj: Vec::new(), order: Vec::new(), valid: true };
        assert(r@.types =~= Seq::<Seq<char>>::empty());
        assert(r@.adj =~= Seq::<Seq<bool>>::empty());
        r
    }

    /// True iff the graph has no directed cycle, that is, iff it has a topological order.
    pub fn is_valid(&self) -> (r: bool)
        requires
            self.wf(),
        ensures
            r == acyclic(self@),
            r == !has_cycle(self@),
    {
        proof {
            if self.valid {
                lemma_scheduled_covering_is_topological(self@, self.order@);
                assert forall|c: Seq<usize>| !is_cycle(self@, c) by {
                    lemma_topological_excludes_cycle(self@, self.order@, c);
                }
            } else {
                lemma_stuck_means_cycle(self@, self.order@);
                assert forall|p: Seq<usize>| !is_topological(self@, p) by {
                    lemma_stuck_means_no_order(self@, self.order@, p);
                }
            }
        }
        self.valid
    }

    /// The execution order: a topological order that always takes the
    /// earliest-declared node among those whose predecessors have all run.
    pub fn get_execution_order(&self) -> (r: Vec<usize>)
        requires
            self.wf(),
            acyclic(self@),
        ensures
            is_topological(self@, r@),
            scheduled(self@, r@),
    {
        proof {
            if !self.valid {
                let p = choose|p: Seq<usize>| is_topological(self@, p);
                lemma_stuck_means_no_order(self@, self.order@, p);
            }
            lemma_scheduled_covering_is_topological(self@, self.order@);
        }
        self.order.clone()
    }

    /// Replaces this graph with the graph of `workflow`. A workflow whose node
    /// ids repeat, or whose connection key does not name one of its nodes, is
    /// refused and the graph is left as it was; links to unknown targets are dropped.
    pub fn build_graph(&mut self, workflow: &Workflow) -> (r: Result<(), ConfigError>)
        ensures
            r is Ok <==> unique_ids(workflow) && groups_ok(workflow),
            r is Ok ==> final(self).wf() && final(self)@ == model_of(workflow),
            r is Err ==> *final(self) == *old(self),
            !unique_ids(workflow) ==> (r matches Err(ConfigError::DuplicateNodeId(x)) && exists|i: int, j: int|
                0 <= i < j < workflow.nodes@.len() && #[trigger] workflow.nodes@[i].id == x
                    && #[trigger] workflow.nodes@[j].id == x),
            forall|gi: int| unique_ids(workflow) && #[trigger] first_bad_group(workflow, gi) && group_source(workflow, gi) is None
                ==> (r matches Err(ConfigError::BadSourceKey(k)) && k@ == workflow.connections@[gi].source@),
            forall|gi: int| unique_ids(workflow) && #[trigger] first_bad_group(workflow, gi) && group_source(workflow, gi) is Some
                ==> r == Err::<(), ConfigError>(ConfigError::UnknownSource(group_source(workflow, gi)->0)),
    {
        if let Some(x) = find_duplicate(workflow) {
            return Err(ConfigError::DuplicateNodeId(x));
        }
        let checked = check_groups(workflow);
        if checked.is_err() {
            return checked;
        }
        let n = workflow.nodes.len();
        let mut ids: Vec<u32> = Vec::new();
        let mut types: Vec<String> = Vec::new();
        let mut i: usize = 0;
        while i < n
            invariant
                n == workflow.nodes@.len(),
                i <= n,
                ids@.len() == i,
                types@.len() == i,
                forall|k: int| 0 <= k < i ==> #[trigger] ids@[k] == workflow.nodes@[k].id,
                forall|k: int| 0 <= k < i ==> #[trigger] types@[k]@ == workflow.nodes@[k].node_type@,
            decreases n - i,
        {
            ids.push(workflow.nodes[i].id);
            types.push(workflow.nodes[i].node_type.clone());
            i = i + 1;
        }
        let adj = adjacency(workflow);
        let ghost g = model_of(workflow);
        proof {
            assert(g.adj =~= adj@.map_values(|r: Vec<bool>| r@));
            assert forall|u: int| 0 <= u < g.adj.len() implies #[trigger] g.adj[u].len() == g.ids.len() by {}
        }
        let (order, valid) = schedule(&adj, Ghost(g));
        *self = FlowGraph { ids, types, adj, order, valid };
        proof {
            assert(self@.ids =~= g.ids);
            assert(self@.types =~= g.types);
            assert(self@.adj =~= g.adj);
        }
        Ok(())
    }

    pub fn node_count(&self) -> (r: usize)
        requires
            self.wf(),
        ensures
            r == self@.n(),
    {
        self.ids.len()
    }

    pub fn node_id(&self, v: usize) -> (r: u32)
        requires
            self.wf(),
            v < self@.n(),
        ensures
            r == self@.ids[v as int],
    {
        self.ids[v]
    }

    pub fn node_type(&self, v: usize) -> (r: &String)
        requires
            self.wf(),
            v < self@.n(),
        ensures
            r@ == self@.types[v as int],
    {
        &self.types[v]
    }

    pub fn has_edge(&self, u: usize, v: usize) -> (r: bool)
        requires
            self.wf(),
            u < self@.n(),
            v < self@.n(),
        ensures
            r == self@.edge(u as int, v as int),
    {
        assert(self@.adj[u as int] == self.adj@[u as int]@);
        assert(self@.adj[u as int].len() == self@.n());
        self.adj[u][v]
    }
}

} // verus!
