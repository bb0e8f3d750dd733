use vstd::prelude::*;
use vstd::string::StringSliceAdditionalSpecFns;

verus! {

/// Flat position of the entry on row `i`, column `j` of an `n` by `n` matrix
/// stored row after row.
pub open spec fn flat_index(n: int, i: int, j: int) -> int {
    i * n + j
}

/// Whether the undirected edge `e` links `i` and `j`.
pub open spec fn edge_links(e: (usize, usize), i: int, j: int) -> bool {
    (e.0 == i && e.1 == j) || (e.0 == j && e.1 == i)
}

/// Whether some edge of `edges` links `i` and `j`.
pub open spec fn linked(edges: Seq<(usize, usize)>, i: int, j: int) -> bool {
    exists|k: int| 0 <= k < edges.len() && #[trigger] edge_links(edges[k], i, j)
}

/// Whether edge `e` puts a mark on flat position `p` of the `n` by `n` matrix.
pub open spec fn edge_marks(e: (usize, usize), n: int, p: int) -> bool {
    p == flat_index(n, e.0 as int, e.1 as int) || p == flat_index(n, e.1 as int, e.0 as int)
}

proof fn lemma_flat_index_injective(n: int, i: int, j: int, a: int, b: int)
    requires
        0 <= i < n,
        0 <= j < n,
        0 <= a < n,
        0 <= b < n,
        flat_index(n, i, j) == flat_index(n, a, b),
    ensures
        i == a && j == b,
{
    assert(i == a && j == b) by (nonlinear_arith)
        requires
            0 <= i < n,
            0 <= j < n,
            0 <= a < n,
            0 <= b < n,
            i * n + j == a * n + b,
    {
        if i < a {
            assert(i * n + n <= a * n);
        } else if a < i {
            assert(a * n + n <= i * n);
        }
    }
}

proof fn lemma_flat_index_bound(n: int, i: int, j: int)
    requires
        0 <= i < n,
        0 <= j < n,
    ensures
        0 <= flat_index(n, i, j) < n * n,
{
    assert(0 <= i * n + j < n * n) by (nonlinear_arith)
        requires
            0 <= i < n,
            0 <= j < n,
    {
        assert(i * n + n <= n * n);
    }
}

/// Converts an undirected edge list on the nodes `0..n` into an adjacency
/// matrix of `n * n` booleans, stored row after row.
///
/// Entry `(i, j)` is `true` exactly when some edge links `i` and `j` (in
/// either direction), so the matrix is symmetric.
pub fn edgelist_to_adjacency_vec(n: usize, edgevec: &[(usize, usize)]) -> (e: Vec<bool>)
    requires
        n * n <= usize::MAX,
        forall|k: int| 0 <= k < edgevec@.len() ==> (#[trigger] edgevec@[k]).0 < n && edgevec@[k].1 < n,
    ensures
        e@.len() == n * n,
        forall|i: int, j: int|
            0 <= i < n && 0 <= j < n ==> (#[trigger] e@[flat_index(n as int, i, j)] <==> linked(edgevec@, i, j)),
        forall|i: int, j: int|
            0 <= i < n && 0 <= j < n ==> #[trigger] e@[flat_index(n as int, i, j)] == e@[flat_index(n as int, j, i)],
{
    let mut e: Vec<bool> = vec![false; n * n];
    let mut idx: usize = 0;
    while idx < edgevec.len()
        invariant
            n * n <= usize::MAX,
            forall|k: int| 0 <= k < edgevec@.len() ==> (#[trigger] edgevec@[k]).0 < n && edgevec@[k].1 < n,
            idx <= edgevec@.len(),
            e@.len() == n * n,
            forall|p: int| 0 <= p < n * n ==> (#[trigger] e@[p] <==> exists|k: int| 0 <= k < idx && #[trigger] edge_marks(edgevec@[k], n as int, p)),
        decreases edgevec@.len() - idx,
    {
        let (u, v) = edgevec[idx];
        proof {
            lemma_flat_index_bound(n as int, u as int, v as int);
            lemma_flat_index_bound(n as int, v as int, u as int);
        }
        let a: usize = u * n + v;
        let b: usize = v * n + u;
        e.set(a, true);
        e.set(b, true);
        proof {
            assert forall|p: int| 0 <= p < n * n implies (#[trigger] e@[p] <==> exists|k: int| 0 <= k < idx + 1 && #[trigger] edge_marks(edgevec@[k], n as int, p)) by {
                if edge_marks(edgevec@[idx as int], n as int, p) {
                    assert(e@[p]);
                } else if e@[p] {
                    let k = choose|k: int| 0 <= k < idx && #[trigger] edge_marks(edgevec@[k], n as int, p);
                    assert(edge_marks(edgevec@[k], n as int, p));
                } else {
                    assert forall|k: int| 0 <= k < idx + 1 implies !#[trigger] edge_marks(edgevec@[k], n as int, p) by {
                        if k < idx {
                        }
                    }
                }
            }
        }
        idx = idx + 1;
    }
    proof {
        assert forall|i: int, j: int| 0 <= i < n && 0 <= j < n implies (#[trigger] e@[flat_index(n as int, i, j)] <==> linked(edgevec@, i, j)) by {
            lemma_flat_index_bound(n as int, i, j);
            let p = flat_index(n as int, i, j);
            if e@[p] {
                let k = choose|k: int| 0 <= k < edgevec@.len() && #[trigger] edge_marks(edgevec@[k], n as int, p);
                let ed = edgevec@[k];
                if p == flat_index(n as int, ed.0 as int, ed.1 as int) {
                    lemma_flat_index_injective(n as int, i, j, ed.0 as int, ed.1 as int);
                } else {
                    lemma_flat_index_injective(n as int, i, j, ed.1 as int, ed.0 as int);
                }
                assert(edge_links(ed, i, j));
            }
            if linked(edgevec@, i, j) {
                let k = choose|k: int| 0 <= k < edgevec@.len() && #[trigger] edge_links(edgevec@[k], i, j);
                assert(edge_marks(edgevec@[k], n as int, p));
            }
        }
        assert forall|i: int, j: int| 0 <= i < n && 0 <= j < n implies #[trigger] e@[flat_index(n as int, i, j)] == e@[flat_index(n as int, j, i)] by {
            if linked(edgevec@, i, j) {
                let k = choose|k: int| 0 <= k < edgevec@.len() && #[trigger] edge_links(edgevec@[k], i, j);
                assert(edge_links(edgevec@[k], j, i));
            }
            if linked(edgevec@, j, i) {
                let k = choose|k: int| 0 <= k < edgevec@.len() && #[trigger] edge_links(edgevec@[k], j, i);
                assert(edge_links(edgevec@[k], i, j));
            }
        }
    }
    e
}

/// First position in `lo..hi` that holds the byte `x`, or `hi` when there is none.
pub open spec fn find_in(b: Seq<u8>, lo: int, hi: int, x: u8) -> int
    decreases hi - lo,
{
    if lo >= hi {
        hi
    } else if b[lo] == x {
        lo
    } else {
        find_in(b, lo + 1, hi, x)
    }
}

/// Whether every byte in `lo..hi` is an ASCII digit.
pub open spec fn all_digits(b: Seq<u8>, lo: int, hi: int) -> bool {
    forall|k: int| lo <= k < hi ==> 48 <= #[trigger] b[k] <= 57
}

/// The number written in decimal by the digits in `lo..hi`.
pub open spec fn decimal_value(b: Seq<u8>, lo: int, hi: int) -> nat
    decreases hi - lo,
{
    if hi <= lo {
        0
    } else {
        decimal_value(b, lo, hi - 1) * 10 + (b[hi - 1] - 48) as nat
    }
}

/// Where the digits of the unsigned literal in `lo..hi` start (after an optional `+`).
pub open spec fn digits_start(b: Seq<u8>, lo: int, hi: int) -> int {
    if lo < hi && b[lo] == 43 {
        lo + 1
    } else {
        lo
    }
}

/// Whether `lo..hi` is an unsigned integer literal (an optional `+`, then at
/// least one decimal digit) whose value fits in a `usize`.
pub open spec fn is_usize_literal(b: Seq<u8>, lo: int, hi: int) -> bool {
    let d = digits_start(b, lo, hi);
    &&& d < hi
    &&& all_digits(b, d, hi)
    &&& decimal_value(b, d, hi) <= usize::MAX
}

/// The value of the literal in `lo..hi`.
pub open spec fn literal_value(b: Seq<u8>, lo: int, hi: int) -> nat {
    decimal_value(b, digits_start(b, lo, hi), hi)
}

/// The edge that the data line `lo..hi` describes: the first field ends at the
/// first separator, the second field at the next separator or at the end of the
/// line, and both are shifted down by `first`. `None` when the line is not of
/// that form, a field is below `first`, or the separator is not an ASCII character.
pub open spec fn line_edge(b: Seq<u8>, lo: int, hi: int, sep: char, first: usize) -> Option<(usize, usize)> {
    if (sep as u32) >= 128 {
        None
    } else {
        let s = (sep as u32) as u8;
        let i = find_in(b, lo, hi, s);
        let j = find_in(b, i + 1, hi, s);
        if i < hi && is_usize_literal(b, lo, i) && is_usize_literal(b, i + 1, j)
            && literal_value(b, lo, i) >= first && literal_value(b, i + 1, j) >= first {
            let u = literal_value(b, lo, i) - first;
            let v = literal_value(b, i + 1, j) - first;
            if u != v && (u >= usize::MAX || v >= usize::MAX) {
                None
            } else {
                Some((u as usize, v as usize))
            }
        } else {
            None
        }
    }
}

/// End of the text of the line that starts at `start`: the line stops before its
/// `\n`, and a `\r` just before that `\n` is not part of it.
pub open spec fn line_text_end(b: Seq<u8>, start: int) -> int {
    let end = find_in(b, start, b.len() as int, 10);
    if end < b.len() && end > start && b[end - 1] == 13 {
        end - 1
    } else {
        end
    }
}

/// Whether the line `lo..hi` holds an edge: it is not empty and does not start with `%`.
pub open spec fn is_data_line(b: Seq<u8>, lo: int, hi: int) -> bool {
    lo < hi && b[lo] != 37
}

/// Joins two partial parse results: edges one after the other, node count the larger.
pub open spec fn join_parsed(
    a: Option<(nat, Seq<(usize, usize)>)>,
    c: Option<(nat, Seq<(usize, usize)>)>,
) -> Option<(nat, Seq<(usize, usize)>)> {
    match (a, c) {
        (Some((n1, e1)), Some((n2, e2))) => Some((if n1 >= n2 { n1 } else { n2 }, e1 + e2)),
        _ => None,
    }
}

/// What the data line `lo..hi` contributes: nothing for a loop, else its edge and
/// the node count that it needs.
pub open spec fn line_contribution(b: Seq<u8>, lo: int, hi: int, sep: char, first: usize) -> Option<(nat, Seq<(usize, usize)>)> {
    if !is_data_line(b, lo, hi) {
        Some((0, Seq::empty()))
    } else {
        match line_edge(b, lo, hi, sep, first) {
            None => None,
            Some((u, v)) => if u == v {
                Some((0, Seq::empty()))
            } else {
                Some(((if u >= v { u } else { v }) as nat + 1, seq![(u, v)]))
            },
        }
    }
}

/// The node count and edge list described by the lines of `b` from `start` on;
/// `None` when one of them is malformed.
pub open spec fn parse_from(b: Seq<u8>, sep: char, first: usize, start: int) -> Option<(nat, Seq<(usize, usize)>)>
    decreases b.len() - start,
{
    if start >= b.len() || start < 0 {
        Some((0, Seq::empty()))
    } else {
        let end = find_in(b, start, b.len() as int, 10);
        proof {
            lemma_find_in_bounds(b, start, b.len() as int, 10);
        }
        let rest = if end < b.len() {
            parse_from(b, sep, first, end + 1)
        } else {
            Some((0, Seq::empty()))
        };
        join_parsed(line_contribution(b, start, line_text_end(b, start), sep, first), rest)
    }
}

pub proof fn lemma_find_in_bounds(b: Seq<u8>, lo: int, hi: int, x: u8)
    requires
        lo <= hi,
    ensures
        lo <= find_in(b, lo, hi, x) <= hi,
        find_in(b, lo, hi, x) < hi ==> b[find_in(b, lo, hi, x)] == x,
    decreases hi - lo,
{
    if lo < hi && b[lo] != x {
        lemma_find_in_bounds(b, lo + 1, hi, x);
    }
}

fn find_byte(b: &[u8], lo: usize, hi: usize, x: u8) -> (r: usize)
    requires
        lo <= hi <= b@.len(),
    ensures
        r == find_in(b@, lo as int, hi as int, x),
        lo <= r <= hi,
{
    proof {
        lemma_find_in_bounds(b@, lo as int, hi as int, x);
    }
    let mut k = lo;
    while k < hi
        invariant
            lo <= k <= hi <= b@.len(),
            find_in(b@, lo as int, hi as int, x) == find_in(b@, k as int, hi as int, x),
        decreases hi - k,
    {
        if b[k] == x {
            return k;
        }
        k = k + 1;
    }
    k
}

proof fn lemma_decimal_prefix_le(b: Seq<u8>, lo: int, k: int, hi: int)
    requires
        lo <= k <= hi,
        all_digits(b, lo, hi),
    ensures
        decimal_value(b, lo, k) <= decimal_value(b, lo, hi),
    decreases hi - k,
{
    if k < hi {
        lemma_decimal_prefix_le(b, lo, k, hi - 1);
        assert(48 <= b[hi - 1]);
    }
}

/// Reads the unsigned literal in `lo..hi`; `None` when it is not one that fits a `usize`.
fn parse_usize_literal(b: &[u8], lo: usize, hi: usize) -> (r: Option<usize>)
    requires
        lo <= hi <= b@.len(),
    ensures
        r is Some <==> is_usize_literal(b@, lo as int, hi as int),
        r is Some ==> r->0 == literal_value(b@, lo as int, hi as int),
{
    let d: usize = if lo < hi && b[lo] == 43u8 { lo + 1 } else { lo };
    if d >= hi {
        return None;
    }
    let mut acc: usize = 0;
    let mut k: usize = d;
    while k < hi
        invariant
            d <= k <= hi <= b@.len(),
            d < hi,
            d == digits_start(b@, lo as int, hi as int),
            all_digits(b@, d as int, k as int),
            acc == decimal_value(b@, d as int, k as int),
        decreases hi - k,
    {
        let c = b[k];
        if c < 48u8 || c > 57u8 {
            assert(!all_digits(b@, d as int, hi as int));
            return None;
        }
        let digit: usize = (c - 48u8) as usize;
        if acc > (usize::MAX - digit) / 10 {
            proof {
                if all_digits(b@, d as int, hi as int) {
                    lemma_decimal_prefix_le(b@, d as int, k as int + 1, hi as int);
                    assert(decimal_value(b@, d as int, k as int + 1) == acc * 10 + digit);
                    assert(acc * 10 + digit > usize::MAX) by (nonlinear_arith)
                        requires
                            acc > (usize::MAX - digit) / 10,
                            digit <= 9,
                    ;
                }
            }
            return None;
        }
        assert(acc * 10 + digit <= usize::MAX) by (nonlinear_arith)
            requires
                acc <= (usize::MAX - digit) / 10,
                digit <= 9,
        ;
        acc = acc * 10 + digit;
        k = k + 1;
    }
    Some(acc)
}

/// Reads the edge on the data line `lo..hi`.
fn parse_line_edge(b: &[u8], lo: usize, hi: usize, sep: char, first: usize) -> (r: Option<(usize, usize)>)
    requires
        lo <= hi <= b@.len(),
    ensures
        r == line_edge(b@, lo as int, hi as int, sep, first),
{
    let code: u32 = sep as u32;
    if code >= 128 {
        return None;
    }
    let s: u8 = code as u8;
    let i = find_byte(b, lo, hi, s);
    if i >= hi {
        return None;
    }
    let j = find_byte(b, i + 1, hi, s);
    let x = parse_usize_literal(b, lo, i);
    let y = parse_usize_literal(b, i + 1, j);
    match (x, y) {
        (Some(x), Some(y)) => {
            if x >= first && y >= first {
                let u = x - first;
                let v = y - first;
                if u != v && (u == usize::MAX || v == usize::MAX) {
                    None
                } else {
                    Some((u, v))
                }
            } else {
                None
            }
        },
        _ => None,
    }
}

proof fn lemma_join_assoc(
    a: Option<(nat, Seq<(usize, usize)>)>,
    c: Option<(nat, Seq<(usize, usize)>)>,
    d: Option<(nat, Seq<(usize, usize)>)>,
)
    ensures
        join_parsed(a, join_parsed(c, d)) == join_parsed(join_parsed(a, c), d),
{
    match (a, c, d) {
        (Some((n1, e1)), Some((n2, e2)), Some((n3, e3))) => {
            assert(e1 + (e2 + e3) =~= (e1 + e2) + e3);
        },
        _ => {},
    }
}

/// Whether every edge of `es` joins two different nodes below `n`.
pub open spec fn loopless_below(n: nat, es: Seq<(usize, usize)>) -> bool {
    forall|k: int| 0 <= k < es.len() ==> (#[trigger] es[k]).0 != es[k].1 && es[k].0 < n && es[k].1 < n
}

proof fn lemma_parse_from_loopless(b: Seq<u8>, sep: char, first: usize, start: int)
    ensures
        parse_from(b, sep, first, start) matches Some((n, es)) ==> loopless_below(n, es),
    decreases b.len() - start,
{
    if !(start >= b.len() || start < 0) {
        let end = find_in(b, start, b.len() as int, 10);
        lemma_find_in_bounds(b, start, b.len() as int, 10);
        if end < b.len() {
            lemma_parse_from_loopless(b, sep, first, end + 1);
        }
        let lc = line_contribution(b, start, line_text_end(b, start), sep, first);
        let rest = if end < b.len() {
            parse_from(b, sep, first, end + 1)
        } else {
            Some((0, Seq::empty()))
        };
        if let (Some((n1, e1)), Some((n2, e2))) = (lc, rest) {
            let n = if n1 >= n2 { n1 } else { n2 };
            assert(loopless_below(n1, e1));
            assert forall|k: int| 0 <= k < (e1 + e2).len() implies (#[trigger] (e1 + e2)[k]).0 != (e1 + e2)[k].1
                && (e1 + e2)[k].0 < n && (e1 + e2)[k].1 < n by {
                if k < e1.len() {
                    assert((e1 + e2)[k] == e1[k]);
                } else {
                    assert((e1 + e2)[k] == e2[k - e1.len()]);
                }
            }
        }
    }
}

/// Whether the bytes of `c` in `lo..hi` are those of `b` at the positions `o` further on.
pub open spec fn agree_shifted(b: Seq<u8>, c: Seq<u8>, o: int, lo: int, hi: int) -> bool {
    forall|k: int| lo <= k < hi ==> #[trigger] c[k] == b[k + o]
}

proof fn lemma_find_in_shift(b: Seq<u8>, c: Seq<u8>, o: int, lo: int, hi: int, x: u8)
    requires
        agree_shifted(b, c, o, lo, hi),
    ensures
        find_in(c, lo, hi, x) + o == find_in(b, lo + o, hi + o, x),
    decreases hi - lo,
{
    if lo < hi {
        assert(c[lo] == b[lo + o]);
        lemma_find_in_shift(b, c, o, lo + 1, hi, x);
        assert(lo + o + 1 == lo + 1 + o);
    }
}

proof fn lemma_find_in_at(b: Seq<u8>, lo: int, p: int, hi: int, x: u8)
    requires
        lo <= p < hi,
        b[p] == x,
        forall|k: int| lo <= k < p ==> b[k] != x,
    ensures
        find_in(b, lo, hi, x) == p,
    decreases p - lo,
{
    if lo < p {
        lemma_find_in_at(b, lo + 1, p, hi, x);
    }
}

proof fn lemma_decimal_value_shift(b: Seq<u8>, c: Seq<u8>, o: int, lo: int, hi: int)
    requires
        agree_shifted(b, c, o, lo, hi),
    ensures
        decimal_value(c, lo, hi) == decimal_value(b, lo + o, hi + o),
    decreases hi - lo,
{
    if lo < hi {
        assert(c[hi - 1] == b[hi - 1 + o]);
        lemma_decimal_value_shift(b, c, o, lo, hi - 1);
        assert(hi - 1 + o == hi + o - 1);
    }
}

proof fn lemma_literal_shift(b: Seq<u8>, c: Seq<u8>, o: int, lo: int, hi: int)
    requires
        agree_shifted(b, c, o, lo, hi),
    ensures
        is_usize_literal(c, lo, hi) == is_usize_literal(b, lo + o, hi + o),
        literal_value(c, lo, hi) == literal_value(b, lo + o, hi + o),
{
    if lo < hi {
        assert(c[lo] == b[lo + o]);
    }
    let d = digits_start(c, lo, hi);
    assert(digits_start(b, lo + o, hi + o) == d + o);
    lemma_decimal_value_shift(b, c, o, d, hi);
    if all_digits(c, d, hi) {
        assert forall|k: int| d + o <= k < hi + o implies 48 <= #[trigger] b[k] <= 57 by {
            assert(c[k - o] == b[k - o + o]);
        }
    }
    if all_digits(b, d + o, hi + o) {
        assert forall|k: int| d <= k < hi implies 48 <= #[trigger] c[k] <= 57 by {
            assert(c[k] == b[k + o]);
        }
    }
}

proof fn lemma_line_contribution_shift(b: Seq<u8>, c: Seq<u8>, o: int, lo: int, hi: int, sep: char, first: usize)
    requires
        agree_shifted(b, c, o, lo, hi),
        lo <= hi,
    ensures
        line_contribution(c, lo, hi, sep, first) == line_contribution(b, lo + o, hi + o, sep, first),
{
    if lo < hi {
        assert(c[lo] == b[lo + o]);
    }
    if (sep as u32) < 128 {
        let s = (sep as u32) as u8;
        let i = find_in(c, lo, hi, s);
        lemma_find_in_bounds(c, lo, hi, s);
        lemma_find_in_shift(b, c, o, lo, hi, s);
        if i < hi {
            let j = find_in(c, i + 1, hi, s);
            lemma_find_in_bounds(c, i + 1, hi, s);
            lemma_find_in_shift(b, c, o, i + 1, hi, s);
            assert(i + 1 + o == i + o + 1);
            lemma_literal_shift(b, c, o, lo, i);
            lemma_literal_shift(b, c, o, i + 1, j);
        }
        assert(line_edge(c, lo, hi, sep, first) == line_edge(b, lo + o, hi + o, sep, first));
    }
}

/// Reading the lines of `b` from position `s + o` on is reading its suffix from `o`
/// on from position `s`.
proof fn lemma_parse_from_shift(b: Seq<u8>, o: int, s: int, sep: char, first: usize)
    requires
        0 <= o <= b.len(),
        0 <= s,
    ensures
        parse_from(b.subrange(o, b.len() as int), sep, first, s) == parse_from(b, sep, first, s + o),
    decreases b.len() - o - s,
{
    let c = b.subrange(o, b.len() as int);
    let n = c.len() as int;
    if s < n {
        assert(agree_shifted(b, c, o, 0, n));
        lemma_find_in_shift(b, c, o, s, n, 10);
        lemma_find_in_bounds(c, s, n, 10);
        let end = find_in(c, s, n, 10);
        if end < n && end > s {
            assert(c[end - 1] == b[end - 1 + o]);
        }
        assert(line_text_end(c, s) + o == line_text_end(b, s + o));
        lemma_line_contribution_shift(b, c, o, s, line_text_end(c, s), sep, first);
        if end < n {
            lemma_parse_from_shift(b, o, end + 1, sep, first);
            assert(end + 1 + o == end + o + 1);
        }
    }
}

/// Whether `l` can stand as the text of one line: it holds no `\n` and does not end in `\r`.
pub open spec fn is_line_text(l: Seq<u8>) -> bool {
    &&& forall|k: int| 0 <= k < l.len() ==> #[trigger] l[k] != 10
    &&& l.len() > 0 ==> l[l.len() - 1] != 13
}

/// The text made of `lines`, each followed by `ending`.
pub open spec fn join_lines(lines: Seq<Seq<u8>>, ending: Seq<u8>) -> Seq<u8>
    decreases lines.len(),
{
    if lines.len() == 0 {
        Seq::empty()
    } else {
        lines[0] + ending + join_lines(lines.drop_first(), ending)
    }
}

/// The first line of a text ended by `\n` or by `\r\n` is read on its own, before the rest.
pub proof fn lemma_parse_first_line(l: Seq<u8>, ending: Seq<u8>, rest: Seq<u8>, sep: char, first: usize)
    requires
        is_line_text(l),
        ending == seq![10u8] || ending == seq![13u8, 10u8],
    ensures
        parse_from(l + ending + rest, sep, first, 0) == join_parsed(
            line_contribution(l, 0, l.len() as int, sep, first),
            parse_from(rest, sep, first, 0),
        ),
{
    let b = l + ending + rest;
    let n = l.len() as int;
    let m = n + ending.len() - 1;
    assert(b[m] == 10);
    assert forall|k: int| 0 <= k < m implies b[k] != 10 by {
        if k < n {
            assert(b[k] == l[k]);
        } else {
            assert(b[k] == 13);
        }
    }
    lemma_find_in_at(b, 0, m, b.len() as int, 10);
    if n > 0 {
        assert(b[n - 1] == l[n - 1]);
    }
    if m > n {
        assert(b[n] == 13);
    }
    assert(line_text_end(b, 0) == n);
    assert(agree_shifted(b, l, 0, 0, n));
    lemma_line_contribution_shift(b, l, 0, 0, n, sep, first);
    assert(b.subrange(m + 1, b.len() as int) =~= rest);
    lemma_parse_from_shift(b, m + 1, 0, sep, first);
}

/// A text whose lines end in `\r\n` is read exactly as the same lines ended by `\n`.
pub proof fn lemma_crlf_reads_as_lf(lines: Seq<Seq<u8>>, sep: char, first: usize)
    requires
        forall|i: int| 0 <= i < lines.len() ==> is_line_text(#[trigger] lines[i]),
    ensures
        parse_from(join_lines(lines, seq![13u8, 10u8]), sep, first, 0) == parse_from(
            join_lines(lines, seq![10u8]),
            sep,
            first,
            0,
        ),
    decreases lines.len(),
{
    if lines.len() > 0 {
        let rest = lines.drop_first();
        assert forall|i: int| 0 <= i < rest.len() implies is_line_text(#[trigger] rest[i]) by {
            assert(rest[i] == lines[i + 1]);
        }
        lemma_crlf_reads_as_lf(rest, sep, first);
        assert(is_line_text(lines[0]));
        lemma_parse_first_line(lines[0], seq![13u8, 10u8], join_lines(rest, seq![13u8, 10u8]), sep, first);
        lemma_parse_first_line(lines[0], seq![10u8], join_lines(rest, seq![10u8]), sep, first);
    }
}

/// Reads an undirected graph from the text of an edge-list file.
///
/// Lines are separated by `\n` (a `\r` before it is dropped). Empty lines and
/// lines starting with `%` are skipped. Every other line holds two unsigned
/// integers: the first ends at the first `separator`, the second at the next
/// `separator` or at the end of the line. Node `firstnode` becomes node 0.
/// Lines whose two nodes coincide (loops) are dropped.
///
/// Returns `Some((n, edges))`, where `n` is one more than the largest node of a
/// kept edge (0 if there is none), exactly when every line is well formed; `None`
/// when a line lacks the separator, holds a field that is not a literal that fits
/// a `usize`, a node below `firstnode`, or a node too large to count, or when the
/// separator is not an ASCII character while a data line exists.
pub fn parse_edgelist(content: &str, separator: char, firstnode: usize) -> (r: Option<(usize, Vec<(usize, usize)>)>)
    ensures
        match parse_from(content.spec_bytes(), separator, firstnode, 0) {
            None => r is None,
            Some((n, es)) => r matches Some((m, edges)) && m == n && edges@ == es,
        },
        r matches Some((n, edges)) ==> loopless_below(n as nat, edges@),
{
    let b: &[u8] = content.as_bytes();
    let len = b.len();
    let mut n: usize = 0;
    let mut edges: Vec<(usize, usize)> = Vec::new();
    let mut start: usize = 0;
    let ghost whole = parse_from(b@, separator, firstnode, 0);
    proof {
        assert(edges@ + Seq::<(usize, usize)>::empty() =~= edges@);
        match parse_from(b@, separator, firstnode, 0) {
            Some((n0, e0)) => {
                assert(Seq::<(usize, usize)>::empty() + e0 =~= e0);
            },
            None => {},
        }
    }
    while start < len
        invariant
            start <= len == b@.len(),
            b@ == content.spec_bytes(),
            whole == parse_from(b@, separator, firstnode, 0),
            whole == join_parsed(Some((n as nat, edges@)), parse_from(b@, separator, firstnode, start as int)),
        decreases len - start,
    {
        let end = find_byte(b, start, len, 10u8);
        let text_end: usize = if end < len && end > start && b[end - 1] == 13u8 { end - 1 } else { end };
        let ghost acc = Some((n as nat, edges@));
        let ghost lc = line_contribution(b@, start as int, text_end as int, separator, firstnode);
        let ghost rest = if end < len {
            parse_from(b@, separator, firstnode, end as int + 1)
        } else {
            Some((0, Seq::empty()))
        };
        assert(parse_from(b@, separator, firstnode, start as int) == join_parsed(lc, rest));
        proof {
            lemma_join_assoc(acc, lc, rest);
        }
        if text_end > start && b[start] != 37u8 {
            match parse_line_edge(b, start, text_end, separator, firstnode) {
                None => {
                    return None;
                },
                Some((u, v)) => {
                    if u != v {
                        edges.push((u, v));
                        let m: usize = if u >= v { u + 1 } else { v + 1 };
                        if m > n {
                            n = m;
                        }
                    }
                },
            }
        }
        assert(join_parsed(acc, lc) == Some((n as nat, edges@)));
        if end >= len {
            start = len;
        } else {
            start = end + 1;
        }
    }
    proof {
        assert(edges@ + Seq::<(usize, usize)>::empty() =~= edges@);
        lemma_parse_from_loopless(b@, separator, firstnode, 0);
    }
    Some((n, edges))
}

} // verus!
