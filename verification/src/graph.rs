//! Reachability in small graphs over the nodes `0..n`: the classes of nodes
//! that a list of links joins, and strong connectivity of a digraph.
use vstd::prelude::*;
use vstd::set_lib::*;

verus! {

/// `j` can be reached from `i` in exactly `n` steps.
pub open spec fn reaches_in(step: spec_fn(int, int) -> bool, i: int, j: int, n: nat) -> bool
    decreases n,
{
    if n == 0 {
        i == j
    } else {
        exists|m: int| #[trigger] step(m, j) && reaches_in(step, i, m, (n - 1) as nat)
    }
}

/// `j` can be reached from `i` in any number of steps, none included.
pub open spec fn reaches(step: spec_fn(int, int) -> bool, i: int, j: int) -> bool {
    exists|n: nat| #[trigger] reaches_in(step, i, j, n)
}

/// Every node reaches itself.
pub proof fn reaches_reflexive(step: spec_fn(int, int) -> bool, i: int)
    ensures
        reaches(step, i, i),
{
    assert(reaches_in(step, i, i, 0));
}

/// A single step reaches.
pub proof fn reaches_step(step: spec_fn(int, int) -> bool, i: int, j: int)
    requires
        step(i, j),
    ensures
        reaches(step, i, j),
{
    assert(reaches_in(step, i, i, 0));
    assert(reaches_in(step, i, j, 1));
}

proof fn reaches_in_concat(
    step: spec_fn(int, int) -> bool,
    i: int,
    j: int,
    k: int,
    n: nat,
    m: nat,
)
    requires
        reaches_in(step, i, j, n),
        reaches_in(step, j, k, m),
    ensures
        reaches_in(step, i, k, n + m),
    decreases m,
{
    if m > 0 {
        let mid = choose|mid: int| #[trigger] step(mid, k) && reaches_in(step, j, mid, (m - 1) as nat);
        reaches_in_concat(step, i, j, mid, n, (m - 1) as nat);
        assert((n + m - 1) as nat == n + (m - 1) as nat);
    }
}

/// What is reached from a reached node is reached.
pub proof fn reaches_transitive(step: spec_fn(int, int) -> bool, i: int, j: int, k: int)
    requires
        reaches(step, i, j),
        reaches(step, j, k),
    ensures
        reaches(step, i, k),
{
    let n = choose|n: nat| #[trigger] reaches_in(step, i, j, n);
    let m = choose|m: nat| #[trigger] reaches_in(step, j, k, m);
    reaches_in_concat(step, i, j, k, n, m);
}

proof fn reaches_in_reversed(
    step: spec_fn(int, int) -> bool,
    back: spec_fn(int, int) -> bool,
    i: int,
    j: int,
    n: nat,
)
    requires
        forall|a: int, b: int| #[trigger] step(a, b) ==> back(b, a),
        reaches_in(step, i, j, n),
    ensures
        reaches(back, j, i),
    decreases n,
{
    if n == 0 {
        reaches_reflexive(back, i);
    } else {
        let mid = choose|mid: int| #[trigger] step(mid, j) && reaches_in(step, i, mid, (n - 1) as nat);
        reaches_in_reversed(step, back, i, mid, (n - 1) as nat);
        reaches_step(back, j, mid);
        reaches_transitive(back, j, mid, i);
    }
}

/// Reversing every step reverses what reaches what.
pub proof fn reaches_reversed(
    step: spec_fn(int, int) -> bool,
    back: spec_fn(int, int) -> bool,
    i: int,
    j: int,
)
    requires
        forall|a: int, b: int| #[trigger] step(a, b) ==> back(b, a),
        reaches(step, i, j),
    ensures
        reaches(back, j, i),
{
    let n = choose|n: nat| #[trigger] reaches_in(step, i, j, n);
    reaches_in_reversed(step, back, i, j, n);
}

proof fn reaches_in_monotone(
    fewer: spec_fn(int, int) -> bool,
    more: spec_fn(int, int) -> bool,
    i: int,
    j: int,
    n: nat,
)
    requires
        forall|a: int, b: int| #[trigger] fewer(a, b) ==> more(a, b),
        reaches_in(fewer, i, j, n),
    ensures
        reaches_in(more, i, j, n),
    decreases n,
{
    if n > 0 {
        let mid = choose|mid: int| #[trigger] fewer(mid, j) && reaches_in(fewer, i, mid, (n - 1) as nat);
        reaches_in_monotone(fewer, more, i, mid, (n - 1) as nat);
        assert(more(mid, j));
    }
}

/// With more steps at least as much is reached.
pub proof fn reaches_monotone(
    fewer: spec_fn(int, int) -> bool,
    more: spec_fn(int, int) -> bool,
    i: int,
    j: int,
)
    requires
        forall|a: int, b: int| #[trigger] fewer(a, b) ==> more(a, b),
        reaches(fewer, i, j),
    ensures
        reaches(more, i, j),
{
    let n = choose|n: nat| #[trigger] reaches_in(fewer, i, j, n);
    reaches_in_monotone(fewer, more, i, j, n);
}

proof fn reaches_in_stays(
    step: spec_fn(int, int) -> bool,
    inside: spec_fn(int) -> bool,
    i: int,
    j: int,
    n: nat,
)
    requires
        forall|a: int, b: int| inside(a) && #[trigger] step(a, b) ==> inside(b),
        inside(i),
        reaches_in(step, i, j, n),
    ensures
        inside(j),
    decreases n,
{
    if n > 0 {
        let mid = choose|mid: int| #[trigger] step(mid, j) && reaches_in(step, i, mid, (n - 1) as nat);
        reaches_in_stays(step, inside, i, mid, (n - 1) as nat);
    }
}

/// A set of nodes that no step leaves holds all that its nodes reach.
pub proof fn reaches_stays(
    step: spec_fn(int, int) -> bool,
    inside: spec_fn(int) -> bool,
    i: int,
    j: int,
)
    requires
        forall|a: int, b: int| inside(a) && #[trigger] step(a, b) ==> inside(b),
        inside(i),
        reaches(step, i, j),
    ensures
        inside(j),
{
    let n = choose|n: nat| #[trigger] reaches_in(step, i, j, n);
    reaches_in_stays(step, inside, i, j, n);
}

proof fn reaches_in_mapped(
    step: spec_fn(int, int) -> bool,
    image: spec_fn(int, int) -> bool,
    inside: spec_fn(int) -> bool,
    f: spec_fn(int) -> int,
    i: int,
    j: int,
    n: nat,
)
    requires
        forall|a: int, b: int|
            inside(a) && #[trigger] step(a, b) ==> inside(b) && image(f(a), f(b)),
        inside(i),
        reaches_in(step, i, j, n),
    ensures
        inside(j),
        reaches_in(image, f(i), f(j), n),
    decreases n,
{
    if n > 0 {
        let mid = choose|mid: int| #[trigger] step(mid, j) && reaches_in(step, i, mid, (n - 1) as nat);
        reaches_in_mapped(step, image, inside, f, i, mid, (n - 1) as nat);
        assert(image(f(mid), f(j)));
    }
}

/// A map of nodes that keeps the steps keeps what reaches what.
pub proof fn reaches_mapped(
    step: spec_fn(int, int) -> bool,
    image: spec_fn(int, int) -> bool,
    inside: spec_fn(int) -> bool,
    f: spec_fn(int) -> int,
    i: int,
    j: int,
)
    requires
        forall|a: int, b: int|
            inside(a) && #[trigger] step(a, b) ==> inside(b) && image(f(a), f(b)),
        inside(i),
        reaches(step, i, j),
    ensures
        reaches(image, f(i), f(j)),
{
    let n = choose|n: nat| #[trigger] reaches_in(step, i, j, n);
    reaches_in_mapped(step, image, inside, f, i, j, n);
}

/// Some link joins `i` and `j`, in either direction.
pub open spec fn is_linked(links: Seq<(usize, usize)>, i: int, j: int) -> bool {
    exists|k: int|
        0 <= k < links.len() && {
            ||| (#[trigger] links[k]).0 == i && links[k].1 == j
            ||| links[k].0 == j && links[k].1 == i
        }
}

/// The steps along links, in both directions.
pub open spec fn link_step(links: Seq<(usize, usize)>) -> spec_fn(int, int) -> bool {
    |i: int, j: int| is_linked(links, i, j)
}

/// A chain of links joins `i` and `j`, or they are one node.
pub open spec fn are_joined(links: Seq<(usize, usize)>, i: int, j: int) -> bool {
    reaches(link_step(links), i, j)
}

/// Being joined does not depend on the side it is read from.
pub proof fn joined_symmetric(links: Seq<(usize, usize)>, i: int, j: int)
    requires
        are_joined(links, i, j),
    ensures
        are_joined(links, j, i),
{
    assert forall|a: int, b: int| #[trigger] link_step(links)(a, b) implies link_step(links)(b, a) by {
        let k = choose|k: int|
            0 <= k < links.len() && {
                ||| (#[trigger] links[k]).0 == a && links[k].1 == b
                ||| links[k].0 == b && links[k].1 == a
            };
        assert(links[k].0 == links[k].0);
    }
    reaches_reversed(link_step(links), link_step(links), i, j);
}

/// A forest of parent pointers in which following parents ends at `class`:
/// `rank` grows along every pointer, which rules out cycles.
spec fn forest(parent: Seq<usize>, class: Seq<int>, rank: Seq<int>, bound: int) -> bool {
    &&& class.len() == parent.len()
    &&& rank.len() == parent.len()
    &&& forall|x: int|
        0 <= x < parent.len() ==> {
            &&& 0 <= #[trigger] parent[x] < parent.len()
            &&& class[parent[x] as int] == class[x]
            &&& parent[x] == x ==> class[x] == x
            &&& parent[x] != x ==> rank[parent[x] as int] > rank[x]
            &&& rank[x] <= bound
        }
}

/// The root of the tree that holds `start`; the pointers on the way are halved.
fn find(
    parent: &mut Vec<usize>,
    start: usize,
    Ghost(class): Ghost<Seq<int>>,
    Ghost(rank): Ghost<Seq<int>>,
    Ghost(bound): Ghost<int>,
) -> (root: usize)
    requires
        forest(old(parent)@, class, rank, bound),
        start < old(parent)@.len(),
    ensures
        forest(final(parent)@, class, rank, bound),
        final(parent)@.len() == old(parent)@.len(),
        root < final(parent)@.len(),
        root == class[start as int],
        final(parent)@[root as int] == root,
        class[root as int] == root,
{
    let mut x: usize = start;
    while parent[x] != x
        invariant
            forest(parent@, class, rank, bound),
            parent@.len() == old(parent)@.len(),
            x < parent@.len(),
            class[x as int] == class[start as int],
        decreases bound - rank[x as int],
    {
        let up: usize = parent[x];
        let above: usize = parent[up];
        proof {
            assert(parent@[up as int] < parent@.len());
            assert(rank[above as int] > rank[x as int]);
            assert(parent@[above as int] < parent@.len());
        }
        let ghost before = parent@;
        parent.set(x, above);
        proof {
            assert forall|y: int| 0 <= y < parent@.len() implies {
                &&& 0 <= #[trigger] parent@[y] < parent@.len()
                &&& class[parent@[y] as int] == class[y]
                &&& parent@[y] == y ==> class[y] == y
                &&& parent@[y] != y ==> rank[parent@[y] as int] > rank[y]
                &&& rank[y] <= bound
            } by {
                assert(0 <= before[y] < before.len());
                if y == x as int {
                    assert(before[up as int] == above);
                }
            }
        }
        x = above;
    }
    x
}

/// Gives every node of `0..n` the representative of its class: two nodes have
/// the same one exactly when a chain of links joins them.
pub fn classes(n: usize, links: &Vec<(usize, usize)>) -> (class: Vec<usize>)
    requires
        forall|k: int| 0 <= k < links@.len() ==> (#[trigger] links@[k]).0 < n && links@[k].1 < n,
    ensures
        class@.len() == n,
        forall|i: int| 0 <= i < n ==> (#[trigger] class@[i]) < n,
        forall|i: int, j: int|
            0 <= i < n && 0 <= j < n ==> ((#[trigger] class@[i]) == (#[trigger] class@[j])
                <==> are_joined(links@, i, j)),
{
    let mut parent: Vec<usize> = Vec::new();
    let mut i: usize = 0;
    while i < n
        invariant
            i <= n,
            parent@.len() == i,
            forall|x: int| 0 <= x < i ==> (#[trigger] parent@[x]) == x,
        decreases n - i,
    {
        parent.push(i);
        i += 1;
    }
    let ghost mut class: Seq<int> = Seq::new(n as nat, |x: int| x);
    let ghost mut rank: Seq<int> = Seq::new(n as nat, |x: int| 0);
    let ghost mut bound: int = 0;
    proof {
        assert forall|x: int| 0 <= x < n implies #[trigger] are_joined(
            links@.take(0),
            x,
            class[x],
        ) by {
            reaches_reflexive(link_step(links@.take(0)), x);
        }
    }
    let mut k: usize = 0;
    while k < links.len()
        invariant
            k <= links@.len(),
            parent@.len() == n,
            forall|t: int| 0 <= t < links@.len() ==> (#[trigger] links@[t]).0 < n && links@[t].1 < n,
            forest(parent@, class, rank, bound),
            forall|x: int| 0 <= x < n ==> #[trigger] are_joined(links@.take(k as int), x, class[x]),
            forall|t: int|
                0 <= t < k ==> class[(#[trigger] links@[t]).0 as int] == class[links@[t].1 as int],
        decreases links@.len() - k,
    {
        let a: usize = links[k].0;
        let b: usize = links[k].1;
        let pa: usize = find(&mut parent, a, Ghost(class), Ghost(rank), Ghost(bound));
        let pb: usize = find(&mut parent, b, Ghost(class), Ghost(rank), Ghost(bound));
        let ghost fewer = links@.take(k as int);
        let ghost more = links@.take(k + 1);
        proof {
            assert forall|x: int, y: int| are_joined(fewer, x, y) implies #[trigger] are_joined(
                more,
                x,
                y,
            ) by {
                assert forall|p: int, q: int| #[trigger] link_step(fewer)(p, q) implies link_step(
                    more,
                )(p, q) by {
                    let t = choose|t: int|
                        0 <= t < fewer.len() && {
                            ||| (#[trigger] fewer[t]).0 == p && fewer[t].1 == q
                            ||| fewer[t].0 == q && fewer[t].1 == p
                        };
                    assert(more[t] == fewer[t]);
                }
                reaches_monotone(link_step(fewer), link_step(more), x, y);
            }
        }
        if pa != pb {
            let ghost before = parent@;
            let ghost class0 = class;
            let ghost rank0 = rank;
            parent.set(pa, pb);
            proof {
                let top = if rank0[pb as int] > rank0[pa as int] {
                    rank0[pb as int]
                } else {
                    rank0[pa as int] + 1
                };
                rank = rank0.update(pb as int, top);
                bound = bound + 1;
                class =
                Seq::new(
                    n as nat,
                    |x: int|
                        if class0[x] == pa as int {
                            pb as int
                        } else {
                            class0[x]
                        },
                );
                assert(class0[pa as int] == pa as int && class0[pb as int] == pb as int);
                assert forall|y: int| 0 <= y < parent@.len() implies {
                    &&& 0 <= #[trigger] parent@[y] < parent@.len()
                    &&& class[parent@[y] as int] == class[y]
                    &&& parent@[y] == y ==> class[y] == y
                    &&& parent@[y] != y ==> rank[parent@[y] as int] > rank[y]
                    &&& rank[y] <= bound
                } by {
                    assert(0 <= before[y] < before.len());
                    assert(0 <= before[pa as int]);
                    assert(0 <= before[pb as int]);
                }
                assert forall|x: int| 0 <= x < n implies #[trigger] are_joined(
                    more,
                    x,
                    class[x],
                ) by {
                    assert(are_joined(fewer, x, class0[x]));
                    assert(are_joined(more, x, class0[x]));
                    if class0[x] == pa as int {
                        assert(are_joined(fewer, a as int, class0[a as int]));
                        assert(are_joined(fewer, b as int, class0[b as int]));
                        assert(are_joined(more, a as int, pa as int));
                        assert(are_joined(more, b as int, pb as int));
                        joined_symmetric(more, a as int, pa as int);
                        assert(more[k as int] == links@[k as int]);
                        assert(link_step(more)(a as int, b as int));
                        reaches_step(link_step(more), a as int, b as int);
                        reaches_transitive(link_step(more), x, pa as int, a as int);
                        reaches_transitive(link_step(more), x, a as int, b as int);
                        reaches_transitive(link_step(more), x, b as int, pb as int);
                    }
                }
            }
        } else {
            proof {
                assert forall|x: int| 0 <= x < n implies #[trigger] are_joined(
                    more,
                    x,
                    class[x],
                ) by {
                    assert(are_joined(fewer, x, class[x]));
                }
            }
        }
        k += 1;
    }
    proof {
        assert(links@.take(links@.len() as int) =~= links@);
    }
    let mut out: Vec<usize> = Vec::new();
    let mut j: usize = 0;
    while j < n
        invariant
            j <= n,
            parent@.len() == n,
            out@.len() == j,
            forest(parent@, class, rank, bound),
            forall|x: int| 0 <= x < j ==> (#[trigger] out@[x]) == class[x] && out@[x] < n,
        decreases n - j,
    {
        let root: usize = find(&mut parent, j, Ghost(class), Ghost(rank), Ghost(bound));
        out.push(root);
        j += 1;
    }
    proof {
        assert forall|x: int, y: int| 0 <= x < n && 0 <= y < n implies ((#[trigger] out@[x]) == (
        #[trigger] out@[y]) <==> are_joined(links@, x, y)) by {
            if out@[x] == out@[y] {
                assert(are_joined(links@, x, class[x]));
                assert(are_joined(links@, y, class[y]));
                joined_symmetric(links@, y, class[y]);
                reaches_transitive(link_step(links@), x, class[x], y);
            }
            if are_joined(links@, x, y) {
                let inside = |z: int| 0 <= z < n && class[z] == class[x];
                assert forall|p: int, q: int| inside(p) && #[trigger] link_step(links@)(
                    p,
                    q,
                ) implies inside(q) by {
                    let t = choose|t: int|
                        0 <= t < links@.len() && {
                            ||| (#[trigger] links@[t]).0 == p && links@[t].1 == q
                            ||| links@[t].0 == q && links@[t].1 == p
                        };
                    assert(class[links@[t].0 as int] == class[links@[t].1 as int]);
                }
                reaches_stays(link_step(links@), inside, x, y);
            }
        }
    }
    out
}

/// The digraph has an arc from `i` to `j`.
pub open spec fn is_arc(adj: Seq<Seq<usize>>, i: int, j: int) -> bool {
    0 <= i < adj.len() && exists|k: int| 0 <= k < adj[i].len() && #[trigger] adj[i][k] == j
}

/// The steps along arcs.
pub open spec fn arc_step(adj: Seq<Seq<usize>>) -> spec_fn(int, int) -> bool {
    |i: int, j: int| is_arc(adj, i, j)
}

/// The nodes that can be reached from `start`.
pub open spec fn reachable(adj: Seq<Seq<usize>>, start: int) -> Set<int> {
    Set::new(|v: int| 0 <= v < adj.len() && reaches(arc_step(adj), start, v))
}

/// Every node reaches every node.
pub open spec fn is_strongly_connected(adj: Seq<Seq<usize>>) -> bool {
    forall|i: int, j: int|
        0 <= i < adj.len() && 0 <= j < adj.len() ==> #[trigger] reaches(arc_step(adj), i, j)
}

/// Every arc ends at a node.
pub open spec fn arcs_inside(adj: Seq<Seq<usize>>) -> bool {
    forall|i: int, k: int|
        0 <= i < adj.len() && 0 <= k < adj[i].len() ==> (#[trigger] adj[i][k]) < adj.len()
}

/// The lists of arcs as sequences.
pub open spec fn arcs(adj: Seq<Vec<usize>>) -> Seq<Seq<usize>> {
    Seq::new(adj.len(), |i: int| adj[i]@)
}

/// Adds the arc from `from` to `to`, once, and never from a node to itself.
pub fn add_directed_edge(adj: &mut Vec<Vec<usize>>, from: usize, to: usize)
    requires
        from < old(adj)@.len(),
        to < old(adj)@.len(),
        arcs_inside(arcs(old(adj)@)),
    ensures
        final(adj)@.len() == old(adj)@.len(),
        arcs_inside(arcs(final(adj)@)),
        forall|i: int, j: int|
            #[trigger] is_arc(arcs(final(adj)@), i, j) <==> (is_arc(arcs(old(adj)@), i, j) || (i
                == from && j == to && from != to)),
{
    let ghost before = arcs(adj@);
    if from == to {
        return ;
    }
    let mut k: usize = 0;
    while k < adj[from].len()
        invariant
            from < adj@.len(),
            k <= adj@[from as int]@.len(),
            adj@ == old(adj)@,
            before == arcs(adj@),
            before.len() == adj@.len(),
            from != to,
            arcs_inside(arcs(old(adj)@)),
            forall|t: int| 0 <= t < k ==> adj@[from as int]@[t] != to,
        decreases adj@[from as int]@.len() - k,
    {
        if adj[from][k] == to {
            proof {
                assert(before[from as int][k as int] == to);
                assert(is_arc(before, from as int, to as int));
            }
            return ;
        }
        k += 1;
    }
    adj[from].push(to);
    proof {
        let after = arcs(adj@);
        assert(after[from as int] =~= before[from as int].push(to));
        assert forall|i: int| 0 <= i < after.len() && i != from implies after[i] == before[i] by {}
        assert forall|i: int, j: int| #[trigger] is_arc(after, i, j) <==> (is_arc(before, i, j) || (
        i == from && j == to)) by {
            if is_arc(before, i, j) {
                let t = choose|t: int| 0 <= t < before[i].len() && #[trigger] before[i][t] == j;
                assert(after[i][t] == j);
            }
            if i == from && j == to {
                assert(after[i][before[i].len() as int] == j);
            }
            if is_arc(after, i, j) && !(i == from && j == to) {
                let t = choose|t: int| 0 <= t < after[i].len() && #[trigger] after[i][t] == j;
                assert(before[i][t] == j);
            }
        }
        assert forall|i: int, t: int| 0 <= i < after.len() && 0 <= t < after[i].len() implies (
        #[trigger] after[i][t]) < after.len() by {
            if i == from && t == before[i].len() {
            } else {
                assert(before[i][t] < before.len());
            }
        }
    }
}

/// How many nodes can be reached from `start`, itself included.
pub fn reachable_count(adj: &Vec<Vec<usize>>, start: usize) -> (count: usize)
    requires
        start < adj@.len(),
        arcs_inside(arcs(adj@)),
    ensures
        count == reachable(arcs(adj@), start as int).len(),
        reachable(arcs(adj@), start as int).finite(),
{
    let n: usize = adj.len();
    let ghost g = arcs(adj@);
    let ghost nodes = set_int_range(0, n as int);
    let mut seen: Vec<bool> = Vec::new();
    let mut i: usize = 0;
    while i < n
        invariant
            i <= n,
            seen@.len() == i,
            forall|v: int| 0 <= v < i ==> !(#[trigger] seen@[v]),
        decreases n - i,
    {
        seen.push(false);
        i += 1;
    }
    let mut stack: Vec<usize> = Vec::new();
    stack.push(start);
    seen.set(start, true);
    let mut count: usize = 0;
    let ghost mut done: Set<int> = Set::empty();
    proof {
        reaches_reflexive(arc_step(g), start as int);
        lemma_int_range(0, n as int);
        assert(stack@[0] == start);
    }
    while stack.len() > 0
        invariant
            n == adj@.len(),
            g == arcs(adj@),
            arcs_inside(g),
            start < n,
            seen@.len() == n,
            seen@[start as int],
            nodes == set_int_range(0, n as int),
            nodes.finite(),
            nodes.len() == n,
            done.subset_of(nodes),
            done.finite(),
            count == done.len(),
            forall|t: int|
                0 <= t < stack@.len() ==> (#[trigger] stack@[t]) < n && seen@[stack@[t] as int]
                    && !done.contains(stack@[t] as int),
            forall|t: int, u: int| 0 <= t < u < stack@.len() ==> stack@[t] != stack@[u],
            forall|v: int|
                0 <= v < n && #[trigger] seen@[v] ==> done.contains(v) || stack@.contains(
                    v as usize,
                ),
            forall|v: int| #[trigger] done.contains(v) ==> 0 <= v < n && seen@[v],
            forall|v: int, w: int| done.contains(v) && #[trigger] is_arc(g, v, w) ==> seen@[w],
            forall|v: int| 0 <= v < n && #[trigger] seen@[v] ==> reaches(arc_step(g), start as int, v),
        decreases n - done.len(),
    {
        let ghost stack0 = stack@;
        let node: usize = stack.pop().unwrap();
        proof {
            assert(stack0[stack0.len() - 1] == node);
            assert(stack@ =~= stack0.drop_last());
            lemma_len_subset(done.insert(node as int), nodes);
            assert forall|v: int| 0 <= v < n && #[trigger] seen@[v] implies done.insert(
                node as int,
            ).contains(v) || stack@.contains(v as usize) by {
                if !done.contains(v) && v != node {
                    let t = choose|t: int| 0 <= t < stack0.len() && stack0[t] == v as usize;
                    assert(stack@[t] == v as usize);
                }
            }
        }
        count += 1;
        let ghost done0 = done;
        proof {
            done = done.insert(node as int);
        }
        let mut k: usize = 0;
        while k < adj[node].len()
            invariant
                n == adj@.len(),
                g == arcs(adj@),
                arcs_inside(g),
                node < n,
                start < n,
                k <= adj@[node as int]@.len(),
                seen@.len() == n,
                seen@[start as int],
                seen@[node as int],
                done == done0.insert(node as int),
                forall|t: int|
                    0 <= t < stack@.len() ==> (#[trigger] stack@[t]) < n && seen@[stack@[t] as int]
                        && !done.contains(stack@[t] as int),
                forall|t: int, u: int| 0 <= t < u < stack@.len() ==> stack@[t] != stack@[u],
                forall|v: int|
                    0 <= v < n && #[trigger] seen@[v] ==> done.contains(v) || stack@.contains(
                        v as usize,
                    ),
                forall|v: int| #[trigger] done.contains(v) ==> 0 <= v < n && seen@[v],
                forall|v: int, w: int|
                    done0.contains(v) && #[trigger] is_arc(g, v, w) ==> seen@[w],
                forall|t: int| 0 <= t < k ==> seen@[#[trigger] g[node as int][t] as int],
                forall|v: int|
                    0 <= v < n && #[trigger] seen@[v] ==> reaches(
                        arc_step(g),
                        start as int,
                        v,
                    ),
            decreases adj@[node as int]@.len() - k,
        {
            let next: usize = adj[node][k];
            proof {
                assert(g[node as int][k as int] == next);
                assert(is_arc(g, node as int, next as int));
            }
            if !seen[next] {
                let ghost seen0 = seen@;
                let ghost before = stack@;
                seen.set(next, true);
                stack.push(next);
                proof {
                    assert(arc_step(g)(node as int, next as int));
                    reaches_step(arc_step(g), node as int, next as int);
                    assert(seen0[node as int]);
                    reaches_transitive(arc_step(g), start as int, node as int, next as int);
                    assert forall|v: int| 0 <= v < n && #[trigger] seen@[v] implies done.contains(v)
                        || stack@.contains(v as usize) by {
                        if v == next {
                            assert(stack@[before.len() as int] == next);
                        } else {
                            assert(seen0[v]);
                            if !done.contains(v) {
                                let t = choose|t: int|
                                    0 <= t < before.len() && before[t] == v as usize;
                                assert(stack@[t] == v as usize);
                            }
                        }
                    }
                    assert forall|v: int, w: int| done0.contains(v) && #[trigger] is_arc(
                        g,
                        v,
                        w,
                    ) implies seen@[w] by {
                        assert(seen0[w]);
                    }
                }
            }
            k += 1;
        }
        proof {
            assert forall|v: int, w: int| done.contains(v) && #[trigger] is_arc(
                g,
                v,
                w,
            ) implies seen@[w] by {
                if v == node {
                    let t = choose|t: int| 0 <= t < g[v].len() && #[trigger] g[v][t] == w;
                    assert(seen@[g[node as int][t] as int]);
                }
            }
        }
    }
    proof {
        let inside = |v: int| done.contains(v);
        assert forall|v: int| 0 <= v < n && #[trigger] seen@[v] implies done.contains(v) by {
            if stack@.contains(v as usize) {
                assert(false);
            }
        }
        assert forall|a: int, b: int| inside(a) && #[trigger] arc_step(g)(a, b) implies inside(
            b,
        ) by {
            assert(is_arc(g, a, b));
            let t = choose|t: int| 0 <= t < g[a].len() && #[trigger] g[a][t] == b;
            assert(g[a][t] < g.len());
            assert(seen@[b]);
        }
        assert forall|v: int| reachable(g, start as int).contains(v) <==> done.contains(v) by {
            if reachable(g, start as int).contains(v) {
                reaches_stays(arc_step(g), inside, start as int, v);
            }
            if done.contains(v) {
                assert(nodes.contains(v));
                assert(seen@[v]);
            }
        }
        assert(reachable(g, start as int) =~= done);
    }
    count
}

/// The digraph with every arc reversed.
fn transposed(adj: &Vec<Vec<usize>>) -> (back: Vec<Vec<usize>>)
    requires
        arcs_inside(arcs(adj@)),
    ensures
        back@.len() == adj@.len(),
        arcs_inside(arcs(back@)),
        forall|i: int, j: int|
            #[trigger] is_arc(arcs(back@), i, j) <==> is_arc(arcs(adj@), j, i),
{
    let m: usize = adj.len();
    let ghost g = arcs(adj@);
    let mut back: Vec<Vec<usize>> = Vec::new();
    let mut i: usize = 0;
    while i < m
        invariant
            i <= m,
            back@.len() == i,
            forall|v: int| 0 <= v < i ==> (#[trigger] back@[v])@.len() == 0,
        decreases m - i,
    {
        back.push(Vec::new());
        i += 1;
    }
    let mut from: usize = 0;
    proof {
        assert forall|p: int, q: int| !(#[trigger] is_arc(arcs(back@), p, q)) by {
            if 0 <= p < back@.len() {
                assert(back@[p]@.len() == 0);
            }
        }
        assert forall|p: int, t: int| 0 <= p < back@.len() && 0 <= t < arcs(back@)[p].len() implies (
        #[trigger] arcs(back@)[p][t]) < arcs(back@).len() by {
            assert(back@[p]@.len() == 0);
        }
    }
    while from < m
        invariant
            m == adj@.len(),
            g == arcs(adj@),
            arcs_inside(g),
            from <= m,
            back@.len() == m,
            arcs_inside(arcs(back@)),
            forall|p: int, q: int|
                #[trigger] is_arc(arcs(back@), p, q) <==> (q < from && is_arc(g, q, p)),
        decreases m - from,
    {
        let mut k: usize = 0;
        while k < adj[from].len()
            invariant
                m == adj@.len(),
                g == arcs(adj@),
                arcs_inside(g),
                from < m,
                k <= adj@[from as int]@.len(),
                back@.len() == m,
                arcs_inside(arcs(back@)),
                forall|p: int, q: int|
                    #[trigger] is_arc(arcs(back@), p, q) <==> ((q < from && is_arc(g, q, p)) || (q
                        == from && exists|t: int| 0 <= t < k && #[trigger] g[from as int][t] == p)),
            decreases adj@[from as int]@.len() - k,
        {
            let to: usize = adj[from][k];
            proof {
                assert(g[from as int][k as int] == to);
            }
            let ghost before = arcs(back@);
            back[to].push(from);
            proof {
                let after = arcs(back@);
                assert(after[to as int] =~= before[to as int].push(from));
                assert forall|p: int| 0 <= p < after.len() && p != to implies after[p] == before[p] by {}
                assert forall|p: int, q: int|
                    #[trigger] is_arc(after, p, q) <==> ((q < from && is_arc(g, q, p)) || (q == from
                        && exists|t: int| 0 <= t < k + 1 && #[trigger] g[from as int][t] == p)) by {
                    if is_arc(before, p, q) {
                        let t = choose|t: int|
                            0 <= t < before[p].len() && #[trigger] before[p][t] == q;
                        assert(after[p][t] == q);
                    }
                    if p == to && q == from {
                        assert(after[p][before[p].len() as int] == q);
                        assert(g[from as int][k as int] == p);
                    }
                    if is_arc(after, p, q) && !(p == to && q == from) {
                        let t = choose|t: int|
                            0 <= t < after[p].len() && #[trigger] after[p][t] == q;
                        assert(before[p][t] == q);
                        assert(is_arc(before, p, q));
                    }
                    if q == from && exists|t: int|
                        0 <= t < k + 1 && #[trigger] g[from as int][t] == p {
                        let t = choose|t: int| 0 <= t < k + 1 && #[trigger] g[from as int][t] == p;
                        if t < k {
                            assert(is_arc(before, p, q));
                        }
                    }
                }
                assert forall|p: int, t: int| 0 <= p < after.len() && 0 <= t < after[p].len() implies (
                #[trigger] after[p][t]) < after.len() by {
                    if p == to && t == before[p].len() {
                    } else {
                        assert(before[p][t] < before.len());
                    }
                }
            }
            k += 1;
        }
        from += 1;
    }
    back
}

/// Whether every node reaches every node.
pub fn strongly_connected(adj: &Vec<Vec<usize>>) -> (r: bool)
    requires
        arcs_inside(arcs(adj@)),
    ensures
        r == is_strongly_connected(arcs(adj@)),
{
    let m: usize = adj.len();
    let ghost g = arcs(adj@);
    let ghost nodes = set_int_range(0, m as int);
    proof {
        lemma_int_range(0, m as int);
    }
    if m <= 1 {
        proof {
            assert forall|i: int, j: int| 0 <= i < g.len() && 0 <= j < g.len() implies #[trigger]
                reaches(arc_step(g), i, j) by {
                reaches_reflexive(arc_step(g), i);
            }
        }
        return true;
    }
    let forth: usize = reachable_count(adj, 0);
    if forth != m {
        proof {
            if is_strongly_connected(g) {
                assert forall|v: int| reachable(g, 0).contains(v) <==> nodes.contains(v) by {
                    if nodes.contains(v) {
                        assert(reaches(arc_step(g), 0, v));
                    }
                }
                assert(reachable(g, 0) =~= nodes);
            }
        }
        return false;
    }
    let back: Vec<Vec<usize>> = transposed(adj);
    let ghost h = arcs(back@);
    let count: usize = reachable_count(&back, 0);
    proof {
        assert forall|a: int, b: int| #[trigger] arc_step(g)(a, b) implies arc_step(h)(b, a) by {
            assert(is_arc(g, a, b));
            let t = choose|t: int| 0 <= t < g[a].len() && #[trigger] g[a][t] == b;
            assert(is_arc(h, b, a));
        }
        assert forall|a: int, b: int| #[trigger] arc_step(h)(a, b) implies arc_step(g)(b, a) by {
            assert(is_arc(h, a, b));
        }
        assert(reachable(g, 0).subset_of(nodes));
        assert(reachable(h, 0).subset_of(nodes));
        lemma_subset_equality(reachable(g, 0), nodes);
        if count == m {
            lemma_subset_equality(reachable(h, 0), nodes);
            assert forall|i: int, j: int| 0 <= i < g.len() && 0 <= j < g.len() implies #[trigger]
                reaches(arc_step(g), i, j) by {
                assert(nodes.contains(i) && nodes.contains(j));
                assert(reachable(h, 0).contains(i));
                assert(reachable(g, 0).contains(j));
                reaches_reversed(arc_step(h), arc_step(g), 0, i);
                reaches_transitive(arc_step(g), i, 0, j);
            }
        }
        if is_strongly_connected(g) {
            assert forall|v: int| reachable(h, 0).contains(v) <==> nodes.contains(v) by {
                if nodes.contains(v) {
                    assert(reaches(arc_step(g), v, 0));
                    reaches_reversed(arc_step(g), arc_step(h), v, 0);
                }
            }
            assert(reachable(h, 0) =~= nodes);
        }
    }
    count == m
}

/// Where `strongly_connected` says so, an arc leads across every divide of the
/// nodes; where it denies it, no arc leads out of some of the nodes to the
/// others. `r` gives these nodes, with one of them and one of the others.
pub proof fn strong_connections_cross_every_divide(
    adj: &Vec<Vec<usize>>,
    connected: bool,
    first: spec_fn(int) -> bool,
    x: int,
    y: int,
) -> (r: (spec_fn(int) -> bool, int, int))
    requires
        call_ensures(strongly_connected, (adj,), connected),
        0 <= x < adj@.len(),
        0 <= y < adj@.len(),
        first(x),
        !first(y),
    ensures
        connected ==> exists|i: int, k: int|
            {
                &&& 0 <= i < adj@.len()
                &&& 0 <= k < adj@[i]@.len()
                &&& first(i)
                &&& !first((#[trigger] adj@[i]@[k]) as int)
            },
        !connected ==> {
            &&& 0 <= r.1 < adj@.len() && 0 <= r.2 < adj@.len()
            &&& (r.0)(r.1) && !(r.0)(r.2)
            &&& forall|i: int, k: int|
                0 <= i < adj@.len() && 0 <= k < adj@[i]@.len() && (r.0)(i) ==> (r.0)(
                    (#[trigger] adj@[i]@[k]) as int,
                )
        },
{
    let lists = arcs(adj@);
    let step = arc_step(lists);
    if connected {
        if forall|i: int, k: int|
            0 <= i < adj@.len() && 0 <= k < adj@[i]@.len() && first(i) ==> first(
                (#[trigger] adj@[i]@[k]) as int,
            ) {
            assert forall|a: int, b: int| first(a) && #[trigger] step(a, b) implies first(b) by {
                let k = choose|k: int| 0 <= k < lists[a].len() && #[trigger] lists[a][k] == b;
                assert(adj@[a]@[k] == b);
            }
            assert(reaches(step, x, y));
            reaches_stays(step, first, x, y);
        }
        (first, x, y)
    } else {
        let (i, j) = choose|i: int, j: int|
            0 <= i < lists.len() && 0 <= j < lists.len() && !#[trigger] reaches(step, i, j);
        let from_i = |v: int| reaches(step, i, v);
        reaches_reflexive(step, i);
        assert forall|a: int, k: int|
            0 <= a < adj@.len() && 0 <= k < adj@[a]@.len() && from_i(a) implies from_i(
            (#[trigger] adj@[a]@[k]) as int,
        ) by {
            let b = adj@[a]@[k] as int;
            assert(lists[a][k] == b);
            assert(step(a, b));
            reaches_step(step, a, b);
            reaches_transitive(step, i, a, b);
        }
        (from_i, i, j)
    }
}

/// The classes that `classes` finds are held together by the links and by
/// nothing else: no link leads from one class to another, and a link leads
/// across every divide within a class.
pub proof fn classes_are_held_together(
    n: usize,
    links: &Vec<(usize, usize)>,
    class: Vec<usize>,
    first: spec_fn(int) -> bool,
    x: int,
    y: int,
)
    requires
        call_ensures(classes, (n, links), class),
        forall|k: int| 0 <= k < links@.len() ==> (#[trigger] links@[k]).0 < n && links@[k].1 < n,
        0 <= x < n,
        0 <= y < n,
        first(x),
        !first(y),
    ensures
        class@.len() == n,
        forall|k: int|
            0 <= k < links@.len() ==> class@[(#[trigger] links@[k]).0 as int]
                == class@[links@[k].1 as int],
        class@[x] == class@[y] ==> exists|k: int|
            0 <= k < links@.len() && first((#[trigger] links@[k]).0 as int) != first(
                links@[k].1 as int,
            ),
{
    let step = link_step(links@);
    assert forall|k: int| 0 <= k < links@.len() implies class@[(#[trigger] links@[k]).0 as int]
        == class@[links@[k].1 as int] by {
        let (a, b) = (links@[k].0 as int, links@[k].1 as int);
        assert(is_linked(links@, a, b));
        assert(step(a, b));
        reaches_step(step, a, b);
        assert(are_joined(links@, a, b));
    }
    if class@[x] == class@[y] {
        assert(are_joined(links@, x, y));
        if forall|k: int|
            0 <= k < links@.len() ==> first((#[trigger] links@[k]).0 as int) == first(
                links@[k].1 as int,
            ) {
            reaches_stays(step, first, x, y);
        }
    }
}

} // verus!
