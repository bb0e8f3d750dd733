use vstd::prelude::*;

verus! {

broadcast use vstd::seq_lib::seq_to_set_is_finite;

/// A uniformly drawn index below `bound`.
///
/// Calls `rand::random_range(0..bound)`, which panics on an empty range and
/// otherwise returns a value of the range; which value it returns depends on
/// the thread-local random generator and is not stated.
#[verifier::external_body]
fn random_below(bound: usize) -> (r: usize)
    requires
        bound > 0,
    ensures
        r < bound,
{
    rand::random_range(0..bound)
}

/// One more than the largest node of the edges `s` (0 when there is none).
pub open spec fn node_bound(s: Seq<(usize, usize)>) -> nat
    decreases s.len(),
{
    if s.len() == 0 {
        0
    } else {
        let b = node_bound(s.drop_last());
        let e = s.last();
        let m = (if e.0 >= e.1 { e.0 } else { e.1 }) as nat + 1;
        if b >= m { b } else { m }
    }
}

/// The endpoints of the edges `s`, two per edge, in order.
pub open spec fn endpoints(s: Seq<(usize, usize)>) -> Seq<usize>
    decreases s.len(),
{
    if s.len() == 0 {
        Seq::empty()
    } else {
        endpoints(s.drop_last()) + seq![s.last().0, s.last().1]
    }
}

/// Whether `x` is an endpoint of some edge of `s`.
pub open spec fn is_endpoint(s: Seq<(usize, usize)>, x: usize) -> bool {
    exists|k: int| #![trigger s[k]] 0 <= k < s.len() && (s[k].0 == x || s[k].1 == x)
}

/// Whether `x` is the first node of some edge in positions `lo..hi` of `s`.
pub open spec fn chosen_in(s: Seq<(usize, usize)>, lo: int, hi: int, x: usize) -> bool {
    exists|q: int| #![trigger s[q]] lo <= q < hi && s[q].0 == x
}

/// Position of the `j`-th edge of the `i`-th attached node.
pub open spec fn attach_pos(s_len: int, nu: int, i: int, j: int) -> int {
    s_len + nu * i + j
}

/// The endpoint occurrences of the edges in positions `0..k` of `edges`, two
/// per edge and in order, leaving out every occurrence of a node that is the
/// first node of an edge in positions `base..top`.
pub open spec fn free_occurrences(edges: Seq<(usize, usize)>, base: int, top: int, k: int) -> Seq<usize>
    decreases k,
{
    if k <= 0 {
        Seq::empty()
    } else {
        let e = edges[k - 1];
        let prev = free_occurrences(edges, base, top, k - 1);
        let with_first = if !chosen_in(edges, base, top, e.0) { prev.push(e.0) } else { prev };
        if !chosen_in(edges, base, top, e.1) { with_first.push(e.1) } else { with_first }
    }
}

/// The `j`-th edge of the `i`-th attached node links the new node `bound + i`
/// to one of the endpoint occurrences of the edges before the node's first
/// edge whose node none of its earlier edges links (so each node is weighted
/// by its degree among those edges); that node is an endpoint of an earlier
/// edge and differs from the nodes of the earlier edges of the new node.
pub open spec fn attaches(edges: Seq<(usize, usize)>, s_len: int, bound: int, nu: int, i: int, j: int) -> bool {
    let p = attach_pos(s_len, nu, i, j);
    let base = attach_pos(s_len, nu, i, 0);
    let free = free_occurrences(edges, base, p, base);
    &&& edges[p].1 == bound + i
    &&& exists|d: int| 0 <= d < free.len() && free[d] == edges[p].0
    &&& is_endpoint(edges.take(base), edges[p].0)
    &&& forall|j2: int| 0 <= j2 < j ==> edges[attach_pos(s_len, nu, i, j2)].0 != edges[p].0
}

proof fn lemma_free_occurrences_prefix(
    old: Seq<(usize, usize)>,
    new: Seq<(usize, usize)>,
    base: int,
    top: int,
    k: int,
)
    requires
        0 <= base <= top <= old.len() <= new.len(),
        k <= base,
        forall|q: int| 0 <= q < top ==> new[q] == old[q],
    ensures
        free_occurrences(new, base, top, k) == free_occurrences(old, base, top, k),
    decreases k,
{
    assert forall|x: usize| chosen_in(new, base, top, x) == chosen_in(old, base, top, x) by {
        if chosen_in(new, base, top, x) {
            let q = choose|q: int| #![trigger new[q]] base <= q < top && new[q].0 == x;
            assert(old[q] == new[q]);
        }
        if chosen_in(old, base, top, x) {
            let q = choose|q: int| #![trigger old[q]] base <= q < top && old[q].0 == x;
            assert(old[q] == new[q]);
        }
    }
    if k > 0 {
        lemma_free_occurrences_prefix(old, new, base, top, k - 1);
        assert(new[k - 1] == old[k - 1]);
    }
}

proof fn lemma_endpoints_contains(s: Seq<(usize, usize)>, x: usize)
    ensures
        endpoints(s).contains(x) <==> is_endpoint(s, x),
    decreases s.len(),
{
    if s.len() > 0 {
        let d = s.drop_last();
        lemma_endpoints_contains(d, x);
        let t = seq![s.last().0, s.last().1];
        assert(endpoints(s) == endpoints(d) + t);
        if endpoints(s).contains(x) {
            let w = choose|w: int| 0 <= w < endpoints(s).len() && endpoints(s)[w] == x;
            if w < endpoints(d).len() {
                assert(endpoints(d)[w] == x);
                assert(endpoints(d).contains(x));
                let k = choose|k: int| 0 <= k < d.len() && (d[k].0 == x || d[k].1 == x);
                assert(s[k] == d[k]);
            } else {
                assert(s[s.len() - 1].0 == x || s[s.len() - 1].1 == x);
            }
        }
        if is_endpoint(s, x) {
            let k = choose|k: int| 0 <= k < s.len() && (s[k].0 == x || s[k].1 == x);
            if k < d.len() {
                assert(d[k] == s[k]);
                assert(d[k].0 == x || d[k].1 == x);
                assert(is_endpoint(d, x));
                let w = choose|w: int| 0 <= w < endpoints(d).len() && endpoints(d)[w] == x;
                assert(endpoints(s)[w] == x);
            } else if s[k].0 == x {
                assert(endpoints(s)[endpoints(d).len() as int] == x);
            } else {
                assert(endpoints(s)[endpoints(d).len() as int + 1] == x);
            }
        }
    }
}

proof fn lemma_node_bound(s: Seq<(usize, usize)>)
    ensures
        forall|k: int| 0 <= k < s.len() ==> (#[trigger] s[k]).0 < node_bound(s) && s[k].1 < node_bound(s),
    decreases s.len(),
{
    if s.len() > 0 {
        lemma_node_bound(s.drop_last());
        assert forall|k: int| 0 <= k < s.len() implies (#[trigger] s[k]).0 < node_bound(s) && s[k].1 < node_bound(s) by {
            if k < s.len() - 1 {
                assert(s[k] == s.drop_last()[k]);
            }
        }
    }
}

proof fn lemma_attach_pos(s_len: int, nu: int, i: int, i2: int)
    requires
        0 <= nu,
        0 <= i2 < i,
    ensures
        attach_pos(s_len, nu, i2, nu) <= attach_pos(s_len, nu, i, 0),
        attach_pos(s_len, nu, i2, 0) <= attach_pos(s_len, nu, i, 0),
{
    assert(nu * i2 + nu <= nu * i) by (nonlinear_arith)
        requires
            0 <= nu,
            0 <= i2 < i,
    {
        assert(nu * (i2 + 1) <= nu * i);
    }
}

proof fn lemma_free_endpoint_exists(edges: Seq<(usize, usize)>, s: Seq<(usize, usize)>, base: int, top: int, nu: int)
    requires
        edges.take(s.len() as int) == s,
        s.len() <= base <= top <= edges.len(),
        top - base < nu,
        endpoints(s).to_set().len() >= nu,
        forall|q1: int, q2: int| base <= q1 < q2 < top ==> edges[q1].0 != edges[q2].0,
    ensures
        exists|x: usize| is_endpoint(edges.take(base), x) && !chosen_in(edges, base, top, x),
{
    let c = Seq::new((top - base) as nat, |q: int| edges[base + q].0);
    assert(c.no_duplicates()) by {
        assert forall|a: int, b: int| 0 <= a < c.len() && 0 <= b < c.len() && a != b implies c[a] != c[b] by {
            if a < b {
                assert(edges[base + a].0 != edges[base + b].0);
            } else {
                assert(edges[base + b].0 != edges[base + a].0);
            }
        }
    }
    c.unique_seq_to_set();
    let a = endpoints(s).to_set();
    let cs = c.to_set();
    if forall|x: usize| a.contains(x) ==> cs.contains(x) {
        assert(a.subset_of(cs));
        vstd::set_lib::lemma_len_subset(a, cs);
        assert(false);
    }
    let x = choose|x: usize| a.contains(x) && !cs.contains(x);
    lemma_endpoints_contains(s, x);
    let k = choose|k: int| 0 <= k < s.len() && (s[k].0 == x || s[k].1 == x);
    assert(edges.take(base)[k] == s[k]);
    if chosen_in(edges, base, top, x) {
        let q = choose|q: int| base <= q < top && edges[q].0 == x;
        assert(c[q - base] == x);
        assert(cs.contains(x));
    }
    assert(is_endpoint(edges.take(base), x));
}

/// Whether `x` is the first node of some edge in positions `lo..hi`.
fn is_chosen(edges: &Vec<(usize, usize)>, lo: usize, hi: usize, x: usize) -> (r: bool)
    requires
        lo <= hi <= edges@.len(),
    ensures
        r == chosen_in(edges@, lo as int, hi as int, x),
{
    let mut q = lo;
    while q < hi
        invariant
            lo <= q <= hi <= edges@.len(),
            forall|q2: int| lo <= q2 < q ==> (#[trigger] edges@[q2]).0 != x,
        decreases hi - q,
    {
        if edges[q].0 == x {
            return true;
        }
        q = q + 1;
    }
    false
}

/// Every endpoint occurrence among the edges before position `base` whose node is
/// not the first node of an edge in positions `base..top`, in order.
fn free_endpoints(edges: &Vec<(usize, usize)>, base: usize, top: usize) -> (r: Vec<usize>)
    requires
        base <= top <= edges@.len(),
    ensures
        r@ == free_occurrences(edges@, base as int, top as int, base as int),
        forall|x: usize| #[trigger] r@.contains(x) <==> is_endpoint(edges@.take(base as int), x) && !chosen_in(edges@, base as int, top as int, x),
{
    let mut r: Vec<usize> = Vec::new();
    let mut k: usize = 0;
    while k < base
        invariant
            base <= top <= edges@.len(),
            k <= base,
            r@ == free_occurrences(edges@, base as int, top as int, k as int),
            forall|x: usize| #[trigger] r@.contains(x) <==> is_endpoint(edges@.take(k as int), x) && !chosen_in(edges@, base as int, top as int, x),
        decreases base - k,
    {
        let (a, b) = edges[k];
        let ghost before = r@;
        if !is_chosen(edges, base, top, a) {
            r.push(a);
        }
        let ghost mid = r@;
        if !is_chosen(edges, base, top, b) {
            r.push(b);
        }
        proof {
            assert forall|x: usize| #[trigger] r@.contains(x) <==> is_endpoint(edges@.take(k + 1), x) && !chosen_in(edges@, base as int, top as int, x) by {
                if r@.contains(x) {
                    let w = choose|w: int| 0 <= w < r@.len() && r@[w] == x;
                    if w < before.len() {
                        assert(before[w] == x);
                        assert(before.contains(x));
                        let kk = choose|kk: int| #![trigger edges@.take(k as int)[kk]] 0 <= kk < k && (edges@.take(k as int)[kk].0 == x || edges@.take(k as int)[kk].1 == x);
                        assert(edges@.take(k + 1)[kk] == edges@.take(k as int)[kk]);
                    } else {
                        assert(edges@.take(k + 1)[k as int] == (a, b));
                    }
                }
                if is_endpoint(edges@.take(k + 1), x) && !chosen_in(edges@, base as int, top as int, x) {
                    let kk = choose|kk: int| #![trigger edges@.take(k + 1)[kk]] 0 <= kk < k + 1 && (edges@.take(k + 1)[kk].0 == x || edges@.take(k + 1)[kk].1 == x);
                    if kk < k {
                        assert(edges@.take(k as int)[kk] == edges@.take(k + 1)[kk]);
                        assert(is_endpoint(edges@.take(k as int), x));
                        assert(before.contains(x));
                        let w = choose|w: int| 0 <= w < before.len() && before[w] == x;
                        assert(r@[w] == x);
                    } else if a == x {
                        assert(mid.contains(x)) by {
                            assert(mid[mid.len() - 1] == x);
                        }
                        let w = choose|w: int| 0 <= w < mid.len() && mid[w] == x;
                        assert(r@[w] == x);
                    } else {
                        assert(r@[r@.len() - 1] == x);
                    }
                }
            }
        }
        k = k + 1;
    }
    r
}

/// Attaches the node `new_node` by one edge: to the entry `draw` of the endpoint
/// occurrences of the edges before position `base` whose node is not yet the
/// first node of an edge from position `base` on.
pub fn attach_step(edges: &mut Vec<(usize, usize)>, base: usize, new_node: usize, draw: usize)
    requires
        base <= old(edges)@.len(),
        draw < free_occurrences(old(edges)@, base as int, old(edges)@.len() as int, base as int).len(),
    ensures
        final(edges)@ == old(edges)@.push(
            (free_occurrences(old(edges)@, base as int, old(edges)@.len() as int, base as int)[draw as int], new_node),
        ),
{
    let top = edges.len();
    let free = free_endpoints(edges, base, top);
    let pick = free[draw];
    edges.push((pick, new_node));
}

/// Number of distinct nodes among the endpoints of the edges `s`.
pub open spec fn distinct_node_count(s: Seq<(usize, usize)>) -> nat {
    endpoints(s).to_set().len()
}

proof fn lemma_attaches_prefix(
    old: Seq<(usize, usize)>,
    new: Seq<(usize, usize)>,
    s_len: int,
    bound: int,
    nu: int,
    i: int,
    j: int,
)
    requires
        old.len() <= new.len(),
        forall|q: int| 0 <= q < old.len() ==> new[q] == old[q],
        0 <= attach_pos(s_len, nu, i, 0),
        0 <= j,
        attach_pos(s_len, nu, i, j) < old.len(),
        attaches(old, s_len, bound, nu, i, j),
    ensures
        attaches(new, s_len, bound, nu, i, j),
{
    let base = attach_pos(s_len, nu, i, 0);
    let p = attach_pos(s_len, nu, i, j);
    assert(new.take(base) =~= old.take(base));
    lemma_free_occurrences_prefix(old, new, base, p, base);
    assert forall|j2: int| 0 <= j2 < j implies new[attach_pos(s_len, nu, i, j2)].0 != new[attach_pos(s_len, nu, i, j)].0 by {
        assert(old[attach_pos(s_len, nu, i, j2)].0 != old[attach_pos(s_len, nu, i, j)].0);
    }
}

/// Extends a start graph by preferential attachment (Barabási-Albert model).
///
/// The start graph is the edge list `startedges` on the nodes `0..n_0`, where
/// `n_0` is one more than its largest node. Then `n_rand` new nodes
/// `n_0, n_0 + 1, ...` are added one after the other; the `i`-th of them gets
/// `param_nu` edges, each to a node drawn with probability proportional to its
/// degree among the edges present before that node was added, and all
/// different. Each edge is drawn uniformly among the endpoint occurrences whose
/// node the new node does not link yet, which is distributed as drawing among
/// all occurrences and drawing again on a repeat.
///
/// Returns the start edges followed by the new edges, grouped by new node, or
/// an error when `param_nu > n_0`.
pub fn ba_edgelist(n_rand: usize, param_nu: usize, startedges: &[(usize, usize)]) -> (r: Result<Vec<(usize, usize)>, &'static str>)
    requires
        startedges@.len() + n_rand * param_nu <= usize::MAX,
        forall|k: int| 0 <= k < startedges@.len() ==> (#[trigger] startedges@[k]).0 < usize::MAX && startedges@[k].1 < usize::MAX,
        0 < param_nu <= node_bound(startedges@) && n_rand > 0 ==> node_bound(startedges@) + n_rand - 1 <= usize::MAX,
        n_rand == 0 || param_nu == 0 || param_nu > node_bound(startedges@) || param_nu <= distinct_node_count(startedges@),
    ensures
        r is Err <==> param_nu > node_bound(startedges@),
        r matches Ok(edges) ==> {
            &&& edges@.len() == startedges@.len() + n_rand * param_nu
            &&& edges@.take(startedges@.len() as int) == startedges@
            &&& forall|i: int, j: int|
                0 <= i < n_rand && 0 <= j < param_nu ==> #[trigger] attaches(
                    edges@,
                    startedges@.len() as int,
                    node_bound(startedges@) as int,
                    param_nu as int,
                    i,
                    j,
                )
            &&& forall|p: int| startedges@.len() <= p < edges@.len() ==> (#[trigger] edges@[p]).0 < edges@[p].1
        },
{
    let s_len = startedges.len();
    let mut edges: Vec<(usize, usize)> = Vec::with_capacity(s_len + n_rand * param_nu);
    let mut start_node_count: usize = 0;
    let mut idx: usize = 0;
    while idx < s_len
        invariant
            s_len == startedges@.len(),
            idx <= s_len,
            forall|k: int| 0 <= k < startedges@.len() ==> (#[trigger] startedges@[k]).0 < usize::MAX && startedges@[k].1 < usize::MAX,
            edges@ == startedges@.take(idx as int),
            start_node_count == node_bound(startedges@.take(idx as int)),
        decreases s_len - idx,
    {
        let e = startedges[idx];
        let a = e.0 + 1;
        let b = e.1 + 1;
        let m = if a >= b { a } else { b };
        if m > start_node_count {
            start_node_count = m;
        }
        edges.push(e);
        proof {
            assert(startedges@.take(idx + 1).drop_last() =~= startedges@.take(idx as int));
            assert(edges@ =~= startedges@.take(idx + 1));
        }
        idx = idx + 1;
    }
    proof {
        assert(startedges@.take(s_len as int) =~= startedges@);
    }
    if param_nu > start_node_count {
        return Err("param_nu <= n_0 required, where n_0 is the number of nodes in the given starting graph.");
    }
    let ghost bound: int = start_node_count as int;
    let ghost nu: int = param_nu as int;
    proof {
        lemma_node_bound(startedges@);
    }
    let mut i: usize = 0;
    while i < n_rand
        invariant
            s_len == startedges@.len(),
            s_len + n_rand * param_nu <= usize::MAX,
            bound == start_node_count == node_bound(startedges@),
            nu == param_nu <= start_node_count,
            param_nu > 0 && n_rand > 0 ==> start_node_count + n_rand - 1 <= usize::MAX,
            n_rand == 0 || param_nu == 0 || param_nu <= distinct_node_count(startedges@),
            i <= n_rand,
            edges@.len() == attach_pos(s_len as int, nu, i as int, 0),
            edges@.take(s_len as int) == startedges@,
            forall|i2: int, j2: int|
                0 <= i2 < i && 0 <= j2 < param_nu ==> #[trigger] attaches(edges@, s_len as int, bound, nu, i2, j2),
            forall|q: int| 0 <= q < edges@.len() ==> (#[trigger] edges@[q]).0 < bound + i && edges@[q].1 < bound + i,
            forall|p: int| s_len <= p < edges@.len() ==> (#[trigger] edges@[p]).0 < edges@[p].1,
        decreases n_rand - i,
    {
        assert(param_nu * i + param_nu <= n_rand * param_nu) by (nonlinear_arith)
            requires
                i < n_rand,
        ;
        let base: usize = s_len + param_nu * i;
        let ghost prev = edges@;
        let mut j: usize = 0;
        while j < param_nu
            invariant
                s_len == startedges@.len(),
                bound == start_node_count == node_bound(startedges@),
                nu == param_nu <= start_node_count,
                param_nu > 0 ==> start_node_count + n_rand - 1 <= usize::MAX,
                n_rand > 0,
                param_nu == 0 || param_nu <= distinct_node_count(startedges@),
                i < n_rand,
                j <= param_nu,
                base == attach_pos(s_len as int, nu, i as int, 0),
                s_len <= base,
                base + param_nu <= usize::MAX,
                edges@.len() == base + j,
                prev.len() == base,
                forall|q: int| 0 <= q < base ==> #[trigger] edges@[q] == prev[q],
                edges@.take(s_len as int) == startedges@,
                forall|i2: int, j2: int|
                    0 <= i2 < i && 0 <= j2 < param_nu ==> #[trigger] attaches(edges@, s_len as int, bound, nu, i2, j2),
                forall|j2: int| 0 <= j2 < j ==> #[trigger] attaches(edges@, s_len as int, bound, nu, i as int, j2),
                forall|q: int| 0 <= q < base ==> (#[trigger] edges@[q]).0 < bound + i && edges@[q].1 < bound + i,
                forall|q: int| base <= q < edges@.len() ==> (#[trigger] edges@[q]).0 < bound + i && edges@[q].1 == bound + i,
                forall|p: int| s_len <= p < edges@.len() ==> (#[trigger] edges@[p]).0 < edges@[p].1,
            decreases param_nu - j,
        {
            let top: usize = base + j;
            let cands = free_endpoints(&edges, base, top);
            proof {
                assert(edges@.take(s_len as int) =~= startedges@);
                assert forall|q1: int, q2: int| base <= q1 < q2 < top implies edges@[q1].0 != edges@[q2].0 by {
                    assert(attaches(edges@, s_len as int, bound, nu, i as int, q2 - base));
                    assert(attach_pos(s_len as int, nu, i as int, q1 - base) == q1);
                    assert(attach_pos(s_len as int, nu, i as int, q2 - base) == q2);
                }
                lemma_free_endpoint_exists(edges@, startedges@, base as int, top as int, nu);
                let x = choose|x: usize| is_endpoint(edges@.take(base as int), x) && !chosen_in(edges@, base as int, top as int, x);
                assert(cands@.contains(x));
            }
            let draw = random_below(cands.len());
            let ghost old = edges@;
            let ghost pick = cands@[draw as int];
            proof {
                assert(cands@.contains(pick));
                let kk = choose|kk: int| #![trigger old.take(base as int)[kk]] 0 <= kk < base && (old.take(base as int)[kk].0 == pick || old.take(base as int)[kk].1 == pick);
                assert(old.take(base as int)[kk] == old[kk]);
            }
            attach_step(&mut edges, base, start_node_count + i, draw);
            proof {
                let new = edges@;
                assert forall|q: int| 0 <= q < old.len() implies new[q] == old[q] by {}
                assert forall|i2: int, j2: int|
                    0 <= i2 < i && 0 <= j2 < param_nu implies #[trigger] attaches(new, s_len as int, bound, nu, i2, j2) by {
                    lemma_attach_pos(s_len as int, nu, i as int, i2);
                    lemma_attaches_prefix(old, new, s_len as int, bound, nu, i2, j2);
                }
                assert forall|j2: int| 0 <= j2 < j + 1 implies #[trigger] attaches(new, s_len as int, bound, nu, i as int, j2) by {
                    if j2 < j {
                        lemma_attaches_prefix(old, new, s_len as int, bound, nu, i as int, j2);
                    } else {
                        assert(new.take(base as int) =~= old.take(base as int));
                        assert(new[attach_pos(s_len as int, nu, i as int, j2)] == (pick, (start_node_count + i) as usize));
                        lemma_free_occurrences_prefix(old, new, base as int, top as int, base as int);
                        let free = free_occurrences(new, base as int, top as int, base as int);
                        assert(0 <= draw < free.len() && free[draw as int] == pick);
                        assert forall|j3: int| 0 <= j3 < j2 implies new[attach_pos(s_len as int, nu, i as int, j3)].0 != pick by {
                            let q = attach_pos(s_len as int, nu, i as int, j3);
                            assert(q == base + j3);
                            if old[q].0 == pick {
                                assert(chosen_in(old, base as int, top as int, pick));
                            }
                        }
                    }
                }
            }
            j = j + 1;
        }
        proof {
            assert(s_len + param_nu * i + param_nu == s_len + param_nu * (i + 1)) by (nonlinear_arith);
            assert forall|i2: int, j2: int|
                0 <= i2 < i + 1 && 0 <= j2 < param_nu implies #[trigger] attaches(edges@, s_len as int, bound, nu, i2, j2) by {}
        }
        i = i + 1;
    }
    proof {
        assert(param_nu * n_rand == n_rand * param_nu) by (nonlinear_arith);
    }
    Ok(edges)
}

/// Flat position of the `m`-th entry off the diagonal of an `n` by `n` matrix,
/// counting the entries in storage order: every run of `n` such entries is
/// followed by one diagonal entry.
pub open spec fn off_diagonal_position(m: int, n: int) -> int {
    m + m / n + 1
}

/// The `m`-th entry off the diagonal lies inside the matrix and on no diagonal
/// position `i * (n + 1)`.
proof fn lemma_off_diagonal_position(m: int, n: int)
    requires
        n >= 2,
        0 <= m < n * n - n,
    ensures
        0 < off_diagonal_position(m, n) < n * n,
        forall|i: int| #[trigger] (i * (n + 1)) != off_diagonal_position(m, n),
{
    let q = m / n;
    let r = m % n;
    vstd::arithmetic::div_mod::lemma_fundamental_div_mod(m, n);
    assert(0 <= r < n);
    assert(q >= 0) by (nonlinear_arith)
        requires
            m == n * q + r,
            0 <= m,
            0 <= r < n,
    ;
    assert(q <= n - 2) by (nonlinear_arith)
        requires
            m == n * q + r,
            m < n * n - n,
            0 <= r < n,
            n >= 2,
    ;
    assert(off_diagonal_position(m, n) == q * (n + 1) + r + 1) by (nonlinear_arith)
        requires
            m == n * q + r,
            q == m / n,
    ;
    assert(q * (n + 1) + r + 1 < n * n) by (nonlinear_arith)
        requires
            0 <= q <= n - 2,
            0 <= r < n,
    ;
    assert forall|i: int| #[trigger] (i * (n + 1)) != off_diagonal_position(m, n) by {
        assert(i * (n + 1) != q * (n + 1) + r + 1) by (nonlinear_arith)
            requires
                0 <= r < n,
                n >= 2,
        {
            if i <= q {
                assert(i * (n + 1) <= q * (n + 1));
            } else {
                assert(i * (n + 1) >= (q + 1) * (n + 1));
            }
        }
    }
}

/// The diagonal entry of node `i` lies at flat position `i * (n + 1)`, inside the matrix.
proof fn lemma_diagonal_index(i: int, n: int)
    requires
        0 <= i < n,
    ensures
        0 <= i * (n + 1) < n * n,
        i * n + i == i * (n + 1),
{
    assert(0 <= i * (n + 1) < n * n) by (nonlinear_arith)
        requires
            0 <= i < n,
    {
        assert(i * (n + 1) <= (n - 1) * (n + 1));
    }
    assert(i * n + i == i * (n + 1)) by (nonlinear_arith);
}

/// Step-by-step construction of a directed Gilbert random graph G(n, p) without
/// loops, as a flat `n * n` adjacency matrix in column-major order.
///
/// The entries off the diagonal are walked in storage order; the gaps between
/// edges are geometric draws that the caller makes and feeds in with
/// [`GilbertSampler::advance`], until [`GilbertSampler::is_done`].
pub struct GilbertSampler {
    n: usize,
    passed: usize,
    adjacency: Vec<bool>,
    done: bool,
}

impl GilbertSampler {
    /// Number of nodes.
    pub closed spec fn nodes(&self) -> nat {
        self.n as nat
    }

    /// Number of entries off the diagonal that have been passed so far.
    pub closed spec fn passed_entries(&self) -> nat {
        self.passed as nat
    }

    /// The matrix built so far.
    pub closed spec fn cells(&self) -> Seq<bool> {
        self.adjacency@
    }

    /// Whether no further draw is taken.
    pub closed spec fn finished(&self) -> bool {
        self.done
    }

    /// The sampler's invariant: the matrix has `n * n` entries, every marked
    /// entry is an entry off the diagonal that has been passed, and no
    /// diagonal entry is marked.
    pub closed spec fn wf(&self) -> bool {
        &&& self.n * self.n <= usize::MAX
        &&& self.adjacency@.len() == self.n * self.n
        &&& (self.done || self.n > 1)
        &&& forall|p: int|
            0 <= p < self.adjacency@.len() && #[trigger] self.adjacency@[p] ==> exists|m: int|
                0 <= m < self.passed && m < self.n * self.n - self.n && p == #[trigger] off_diagonal_position(
                    m,
                    self.n as int,
                )
        &&& forall|i: int| 0 <= i < self.n ==> !#[trigger] self.adjacency@[i * (self.n + 1)]
    }

    /// Whether a skip of `l` can be applied without leaving the `usize` range.
    pub open spec fn step_fits(&self, l: usize) -> bool {
        self.finished() || l == usize::MAX || self.passed_entries() >= self.nodes() * self.nodes() - self.nodes()
            || self.passed_entries() + l + 1 <= usize::MAX
    }

    /// Law: no diagonal entry of the matrix is marked, so the graph has no loops.
    pub proof fn lemma_no_loops(&self)
        requires
            self.wf(),
        ensures
            forall|i: int| 0 <= i < self.nodes() ==> !#[trigger] self.cells()[i * self.nodes() + i],
    {
        assert forall|i: int| 0 <= i < self.nodes() implies !#[trigger] self.cells()[i * self.nodes() + i] by {
            lemma_diagonal_index(i, self.n as int);
            assert(!self.adjacency@[i * (self.n + 1)]);
        }
    }

    /// Starts a sampler on `n` nodes with an empty matrix; it is done at once
    /// when `n <= 1`.
    pub fn new(n: usize) -> (g: GilbertSampler)
        requires
            n * n <= usize::MAX,
        ensures
            g.wf(),
            g.nodes() == n,
            g.passed_entries() == 0,
            g.cells() == Seq::new((n * n) as nat, |i: int| false),
            g.finished() == (n <= 1),
    {
        let adjacency: Vec<bool> = vec![false; n * n];
        let g = GilbertSampler { n, passed: 0, adjacency, done: n <= 1 };
        assert(g.adjacency@ =~= Seq::new((n * n) as nat, |i: int| false));
        assert forall|i: int| 0 <= i < n implies !#[trigger] g.adjacency@[i * (n + 1)] by {
            lemma_diagonal_index(i, n as int);
        }
        g
    }

    /// Whether no further draw is taken.
    pub fn is_done(&self) -> (b: bool)
        ensures
            b == self.finished(),
    {
        self.done
    }

    /// Whether a skip of `l` can be applied without leaving the `usize` range.
    pub fn fits(&self, l: usize) -> (b: bool)
        requires
            self.wf(),
        ensures
            b == self.step_fits(l),
    {
        proof {
            if !self.done {
                assert(self.n * self.n >= self.n + 1) by (nonlinear_arith)
                    requires
                        self.n > 1,
                ;
            }
        }
        if self.done || l == usize::MAX || self.passed >= self.n * self.n - self.n {
            return true;
        }
        l <= usize::MAX - self.passed - 1
    }

    /// Feeds the next geometric draw `l` (`usize::MAX` standing for an infinite
    /// gap): the number of entries off the diagonal to leave empty before the
    /// next edge. A draw of `usize::MAX`, or one that comes when every entry off
    /// the diagonal has been passed, ends the sampling. Otherwise the `l`
    /// entries are skipped, and the entry after them, when there is one, becomes
    /// `true`.
    pub fn advance(&mut self, l: usize)
        requires
            old(self).wf(),
            old(self).step_fits(l),
        ensures
            final(self).wf(),
            final(self).nodes() == old(self).nodes(),
            forall|i: int| 0 <= i < final(self).nodes() ==> !#[trigger] final(self).cells()[i * (final(self).nodes() + 1)],
            old(self).finished() ==> *final(self) == *old(self),
            !old(self).finished() && (l == usize::MAX || old(self).passed_entries() >= old(self).nodes()
                * old(self).nodes() - old(self).nodes()) ==> final(self).finished() && final(self).passed_entries()
                == old(self).passed_entries() && final(self).cells() == old(self).cells(),
            !old(self).finished() && l < usize::MAX && old(self).passed_entries() < old(self).nodes()
                * old(self).nodes() - old(self).nodes() ==> {
                let m = old(self).passed_entries() + l;
                &&& !final(self).finished()
                &&& final(self).passed_entries() == m + 1
                &&& final(self).cells() == if m < old(self).nodes() * old(self).nodes() - old(self).nodes() {
                    old(self).cells().update(off_diagonal_position(m, old(self).nodes() as int), true)
                } else {
                    old(self).cells()
                }
            },
    {
        if self.done {
            return;
        }
        proof {
            assert(self.n * self.n >= self.n + 1) by (nonlinear_arith)
                requires
                    self.n > 1,
            ;
        }
        let total = self.n * self.n - self.n;
        if l == usize::MAX || self.passed >= total {
            self.done = true;
            return;
        }
        let m = self.passed + l;
        let ghost old_cells = self.adjacency@;
        let ghost old_passed = self.passed;
        if m < total {
            proof {
                lemma_off_diagonal_position(m as int, self.n as int);
            }
            let position = m + m / self.n + 1;
            self.adjacency.set(position, true);
            proof {
                let n = self.n as int;
                assert forall|i: int| 0 <= i < self.n implies !#[trigger] self.adjacency@[i * (self.n + 1)] by {
                    lemma_diagonal_index(i, n);
                    assert(i * (n + 1) != off_diagonal_position(m as int, n));
                    assert(!old_cells[i * (n + 1)]);
                }
            }
        }
        self.passed = m + 1;
        proof {
            let n = self.n as int;
            assert forall|p: int| 0 <= p < self.adjacency@.len() && #[trigger] self.adjacency@[p] implies exists|m2: int|
                0 <= m2 < self.passed && m2 < n * n - n && p == #[trigger] off_diagonal_position(m2, n) by {
                if m < total && p == off_diagonal_position(m as int, n) {
                    assert(off_diagonal_position(m as int, n) == p);
                } else {
                    assert(old_cells[p]);
                    let m2 = choose|m2: int| 0 <= m2 < old_passed && m2 < n * n - n && p == #[trigger] off_diagonal_position(m2, n);
                    assert(off_diagonal_position(m2, n) == p);
                }
            }
        }
    }

    /// The matrix built so far; no diagonal entry of it is marked.
    pub fn into_adjacency(self) -> (v: Vec<bool>)
        requires
            self.wf(),
        ensures
            v@ == self.cells(),
            v@.len() == self.nodes() * self.nodes(),
            forall|i: int| 0 <= i < self.nodes() ==> !#[trigger] v@[i * self.nodes() + i],
    {
        proof {
            self.lemma_no_loops();
        }
        let v = self.adjacency;
        assert forall|i: int| 0 <= i < self.nodes() implies !#[trigger] v@[i * self.nodes() + i] by {
            assert(!self.cells()[i * self.nodes() + i]);
        }
        v
    }
}

} // verus!
