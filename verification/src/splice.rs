//! Joining the wires of a face that touch one another into one wire, and
//! splitting that wire again at its repeated vertices into simple wires.
use vstd::prelude::*;
use crate::topology::{EdgeUse, wire_vertices, wire_vertex_list, copy_wire, is_simple, is_simple_wire};
use crate::open_loops::{is_closed_chain, closed_chain};
use crate::reach::{reachable, is_walk, reachable_from, adj_view, well_formed};
use crate::wire_repair::{wires_view, split_simple, split_wire_at_repeats};

verus! {

/// Two wires share a vertex.
pub open spec fn wires_meet(a: Seq<EdgeUse>, b: Seq<EdgeUse>) -> bool {
    exists|k: int, l: int|
        0 <= k < wire_vertices(a).len() && 0 <= l < wire_vertices(b).len() && #[trigger] wire_vertices(a)[k]
            == #[trigger] wire_vertices(b)[l]
}

/// The graph of the wires: wire `i` is joined to every other wire it meets
/// (the other entries of its row point back at `i` itself).
pub open spec fn meet_graph(ws: Seq<Seq<EdgeUse>>) -> Seq<Seq<usize>> {
    Seq::new(
        ws.len(),
        |i: int|
            Seq::new(ws.len(), |j: int| if j != i && wires_meet(ws[i], ws[j]) { j as usize } else { i as usize }),
    )
}

/// Wire `i` comes first in its group of touching wires: no earlier wire
/// reaches it.
pub open spec fn is_leader(g: Seq<Seq<usize>>, i: int) -> bool {
    forall|j: int| 0 <= j < i ==> !#[trigger] reachable(g, j, i)
}

/// The wires among the first `m` that wire `l` reaches, in order.
pub open spec fn members_upto(g: Seq<Seq<usize>>, l: int, m: int) -> Seq<int>
    decreases m,
{
    if m <= 0 {
        Seq::empty()
    } else if reachable(g, l, m - 1) {
        members_upto(g, l, m - 1).push(m - 1)
    } else {
        members_upto(g, l, m - 1)
    }
}

/// The starts of the uses of a wire.
pub open spec fn fronts(w: Seq<EdgeUse>) -> Seq<u64> {
    w.map_values(|u: EdgeUse| u.front)
}

/// Use `k` is the first use of `w` that starts where some use of `c` starts.
pub open spec fn is_first_shared(c: Seq<EdgeUse>, w: Seq<EdgeUse>, k: int) -> bool {
    &&& 0 <= k < w.len()
    &&& fronts(c).contains(w[k].front)
    &&& forall|j: int| 0 <= j < k ==> !fronts(c).contains(#[trigger] w[j].front)
}

/// Use `k` is the first use of `c` that starts at `v`.
pub open spec fn is_first_at(c: Seq<EdgeUse>, v: u64, k: int) -> bool {
    &&& 0 <= k < c.len()
    &&& c[k].front == v
    &&& forall|j: int| 0 <= j < k ==> #[trigger] c[j].front != v
}

/// The wire turned to start at use `k`.
pub open spec fn rotate(s: Seq<EdgeUse>, k: int) -> Seq<EdgeUse> {
    s.subrange(k, s.len() as int) + s.subrange(0, k)
}

/// Wire `w` spliced onto `c` at the first vertex they share: `c` turned to
/// start there, then `w` turned to start there; `None` when `w` starts no use
/// at a vertex where a use of `c` starts.
pub open spec fn splice(c: Seq<EdgeUse>, w: Seq<EdgeUse>) -> Option<Seq<EdgeUse>> {
    if exists|k: int| is_first_shared(c, w, k) {
        let k = choose|k: int| is_first_shared(c, w, k);
        let cp = choose|j: int| is_first_at(c, w[k].front, j);
        Some(rotate(c, cp) + rotate(w, k))
    } else {
        None
    }
}

/// The first `n` wires spliced one after the other onto the first.
pub open spec fn splice_all(parts: Seq<Seq<EdgeUse>>, n: int) -> Option<Seq<EdgeUse>>
    decreases n,
{
    if n <= 0 {
        None
    } else if n == 1 {
        Some(parts[0])
    } else {
        match splice_all(parts, n - 1) {
            Some(c) => splice(c, parts[n - 1]),
            None => None,
        }
    }
}

/// The first `n` pieces that have at least three uses, in order.
pub open spec fn long_pieces(ps: Seq<Seq<EdgeUse>>, n: int) -> Seq<Seq<EdgeUse>>
    decreases n,
{
    if n <= 0 {
        Seq::empty()
    } else if ps[n - 1].len() >= 3 {
        long_pieces(ps, n - 1).push(ps[n - 1])
    } else {
        long_pieces(ps, n - 1)
    }
}

/// The wires of the group led by wire `l`, in order.
pub open spec fn group_parts(ws: Seq<Seq<EdgeUse>>, l: int) -> Seq<Seq<EdgeUse>> {
    members_upto(meet_graph(ws), l, ws.len() as int).map_values(|j: int| ws[j])
}

/// What the group of touching wires led by wire `l` becomes: a lone wire
/// stays; otherwise the wires are spliced in order into one, which — when it
/// is a closed chain — is split at its repeated vertices, keeping the pieces
/// of three uses or more; when splicing fails or the result is not closed,
/// the wires stay as they are.
pub open spec fn group_result(ws: Seq<Seq<EdgeUse>>, l: int) -> Seq<Seq<EdgeUse>> {
    let parts = group_parts(ws, l);
    if parts.len() <= 1 {
        parts
    } else {
        match splice_all(parts, parts.len() as int) {
            Some(c) => if is_closed_chain(c) {
                long_pieces(split_simple(c), split_simple(c).len() as int)
            } else {
                parts
            },
            None => parts,
        }
    }
}

/// The results of the groups led by the first `i` wires, in order.
pub open spec fn merged_upto(ws: Seq<Seq<EdgeUse>>, i: int) -> Seq<Seq<EdgeUse>>
    decreases i,
{
    if i <= 0 {
        Seq::empty()
    } else if is_leader(meet_graph(ws), i - 1) {
        merged_upto(ws, i - 1) + group_result(ws, i - 1)
    } else {
        merged_upto(ws, i - 1)
    }
}

proof fn lemma_reach_self(g: Seq<Seq<usize>>, a: int)
    requires
        0 <= a < g.len(),
    ensures
        reachable(g, a, a),
{
    let p = seq![a];
    assert(is_walk(g, p));
}

proof fn lemma_reach_trans(g: Seq<Seq<usize>>, a: int, b: int, c: int)
    requires
        reachable(g, a, b),
        reachable(g, b, c),
    ensures
        reachable(g, a, c),
{
    let p1 = choose|p: Seq<int>| #[trigger] is_walk(g, p) && p[0] == a && p.last() == b;
    let p2 = choose|p: Seq<int>| #[trigger] is_walk(g, p) && p[0] == b && p.last() == c;
    let p = p1 + p2.drop_first();
    assert forall|k: int| 0 <= k < p.len() implies 0 <= #[trigger] p[k] < g.len() by {
        if k < p1.len() {
            assert(p[k] == p1[k]);
        } else {
            assert(p[k] == p2[k - p1.len() + 1]);
        }
    }
    assert forall|k: int| 0 <= k < p.len() - 1 implies g[#[trigger] p[k]].contains(p[k + 1] as usize) by {
        if k < p1.len() - 1 {
            assert(p[k] == p1[k] && p[k + 1] == p1[k + 1]);
        } else if k == p1.len() - 1 {
            assert(p[k] == p2[0]);
            assert(p[k + 1] == p2[1]);
        } else {
            let j = k - p1.len() + 1;
            assert(p[k] == p2[j] && p[k + 1] == p2[j + 1]);
        }
    }
    assert(is_walk(g, p));
    if p2.len() == 1 {
        assert(p =~= p1);
    } else {
        assert(p.last() == p2.last());
    }
}

proof fn lemma_members(g: Seq<Seq<usize>>, l: int, m: int)
    requires
        0 <= m,
    ensures
        forall|x: int| #[trigger] members_upto(g, l, m).contains(x) <==> 0 <= x < m && reachable(g, l, x),
        forall|a: int, b: int| 0 <= a < b < members_upto(g, l, m).len() ==> members_upto(g, l, m)[a] < members_upto(g, l, m)[b],
        forall|a: int| 0 <= a < members_upto(g, l, m).len() ==> 0 <= #[trigger] members_upto(g, l, m)[a] < m,
    decreases m,
{
    if m > 0 {
        lemma_members(g, l, m - 1);
        let s0 = members_upto(g, l, m - 1);
        if reachable(g, l, m - 1) {
            let s1 = s0.push(m - 1);
            assert(members_upto(g, l, m) == s1);
            assert forall|x: int| #[trigger] s1.contains(x) <==> 0 <= x < m && reachable(g, l, x) by {
                if s1.contains(x) {
                    let a = choose|a: int| 0 <= a < s1.len() && s1[a] == x;
                    if a < s0.len() {
                        assert(s0.contains(x));
                    }
                }
                if 0 <= x < m && reachable(g, l, x) && x != m - 1 {
                    assert(s0.contains(x));
                    let a = choose|a: int| 0 <= a < s0.len() && s0[a] == x;
                    assert(s1[a] == x);
                }
                if x == m - 1 {
                    assert(s1[s0.len() as int] == x);
                }
            }
        } else {
            assert(members_upto(g, l, m) == s0);
        }
    }
}

proof fn lemma_splice_all_none(parts: Seq<Seq<EdgeUse>>, k: int, n: int)
    requires
        1 <= k <= n,
        splice_all(parts, k) is None,
    ensures
        splice_all(parts, n) is None,
    decreases n - k,
{
    if k < n {
        lemma_splice_all_none(parts, k, n - 1);
    }
}

/// Whether two wires share a vertex (see `wires_meet`).
fn meet(a: &Vec<u64>, b: &Vec<u64>) -> (r: bool)
    ensures
        r <==> exists|k: int, l: int| 0 <= k < a@.len() && 0 <= l < b@.len() && #[trigger] a@[k] == #[trigger] b@[l],
{
    let mut k: usize = 0;
    while k < a.len()
        invariant
            k <= a@.len(),
            forall|x: int, y: int| 0 <= x < k && 0 <= y < b@.len() ==> #[trigger] a@[x] != #[trigger] b@[y],
        decreases a@.len() - k,
    {
        let mut l: usize = 0;
        while l < b.len()
            invariant
                k < a@.len(),
                l <= b@.len(),
                forall|x: int, y: int| 0 <= x < k && 0 <= y < b@.len() ==> #[trigger] a@[x] != #[trigger] b@[y],
                forall|y: int| 0 <= y < l ==> a@[k as int] != #[trigger] b@[y],
            decreases b@.len() - l,
        {
            if a[k] == b[l] {
                return true;
            }
            l = l + 1;
        }
        k = k + 1;
    }
    false
}

/// Whether some use of `c` starts at `v`, and the first that does.
fn first_at(c: &Vec<EdgeUse>, v: u64) -> (r: Option<usize>)
    ensures
        r matches Some(k) ==> is_first_at(c@, v, k as int),
        r is None ==> !fronts(c@).contains(v),
{
    let mut j: usize = 0;
    while j < c.len()
        invariant
            j <= c@.len(),
            forall|x: int| 0 <= x < j ==> #[trigger] c@[x].front != v,
        decreases c@.len() - j,
    {
        if c[j].front == v {
            return Some(j);
        }
        j = j + 1;
    }
    proof {
        if fronts(c@).contains(v) {
            let x = choose|x: int| 0 <= x < fronts(c@).len() && fronts(c@)[x] == v;
            assert(c@[x].front == v);
        }
    }
    None
}

/// The wire turned to start at use `k`.
fn rotated(s: &Vec<EdgeUse>, k: usize, out: &mut Vec<EdgeUse>)
    requires
        k <= s@.len(),
    ensures
        final(out)@ == old(out)@ + rotate(s@, k as int),
{
    let ghost o = out@;
    let mut j: usize = k;
    while j < s.len()
        invariant
            k <= j <= s@.len(),
            out@ == o + s@.subrange(k as int, j as int),
        decreases s@.len() - j,
    {
        out.push(s[j]);
        assert(out@ =~= o + s@.subrange(k as int, j + 1));
        j = j + 1;
    }
    let mut j: usize = 0;
    while j < k
        invariant
            j <= k <= s@.len(),
            out@ == o + s@.subrange(k as int, s@.len() as int) + s@.subrange(0, j as int),
        decreases k - j,
    {
        out.push(s[j]);
        assert(out@ =~= o + s@.subrange(k as int, s@.len() as int) + s@.subrange(0, j + 1));
        j = j + 1;
    }
    assert(out@ =~= o + rotate(s@, k as int));
}

/// `w` spliced onto `c` (see `splice`).
fn splice_exec(c: &Vec<EdgeUse>, w: &Vec<EdgeUse>) -> (r: Option<Vec<EdgeUse>>)
    ensures
        r matches Some(x) ==> splice(c@, w@) == Some(x@),
        r is None ==> splice(c@, w@) is None,
{
    let mut k: usize = 0;
    while k < w.len()
        invariant
            k <= w@.len(),
            forall|j: int| 0 <= j < k ==> !fronts(c@).contains(#[trigger] w@[j].front),
        decreases w@.len() - k,
    {
        match first_at(c, w[k].front) {
            Some(cp) => {
                proof {
                    assert(fronts(c@)[cp as int] == w@[k as int].front);
                    assert(is_first_shared(c@, w@, k as int));
                    let k2 = choose|k2: int| is_first_shared(c@, w@, k2);
                    if k2 < k {
                        assert(!fronts(c@).contains(w@[k2].front));
                    } else if k2 > k {
                        assert(!fronts(c@).contains(w@[k as int].front));
                    }
                    assert(is_first_at(c@, w@[k as int].front, cp as int));
                    let cp2 = choose|j: int| is_first_at(c@, w@[k as int].front, j);
                    if cp2 < cp {
                        assert(c@[cp2].front != w@[k as int].front);
                    } else if cp2 > cp {
                        assert(c@[cp as int].front != w@[k as int].front);
                    }
                }
                let mut out: Vec<EdgeUse> = Vec::new();
                rotated(c, cp, &mut out);
                rotated(w, k, &mut out);
                assert(out@ =~= rotate(c@, cp as int) + rotate(w@, k as int));
                return Some(out);
            },
            None => {},
        }
        k = k + 1;
    }
    None
}

/// Joins the wires of a face that touch one another and splits them again
/// into simple wires (see `merged_upto`): the wires fall into groups of
/// wires that touch, directly or through others; each group, led by its
/// first wire and taken in the order of the leaders, gives its result (see
/// `group_result`).
pub fn merge_splice_wires(wires: &Vec<Vec<EdgeUse>>) -> (r: Vec<Vec<EdgeUse>>)
    ensures
        wires_view(r@) == merged_upto(wires_view(wires@), wires@.len() as int),
{
    let ghost ws = wires_view(wires@);
    let ghost g = meet_graph(ws);
    let n = wires.len();
    let mut verts: Vec<Vec<u64>> = Vec::new();
    let mut i: usize = 0;
    while i < n
        invariant
            n == wires@.len(),
            ws == wires_view(wires@),
            i <= n,
            verts@.len() == i,
            forall|j: int| 0 <= j < i ==> (#[trigger] verts@[j])@ == wire_vertices(ws[j]),
        decreases n - i,
    {
        assert(wires@[i as int]@ == ws[i as int]);
        verts.push(wire_vertex_list(&wires[i]));
        i = i + 1;
    }
    let mut adj: Vec<Vec<usize>> = Vec::new();
    let mut i: usize = 0;
    while i < n
        invariant
            n == wires@.len(),
            ws == wires_view(wires@),
            g == meet_graph(ws),
            i <= n,
            verts@.len() == n,
            forall|j: int| 0 <= j < n ==> (#[trigger] verts@[j])@ == wire_vertices(ws[j]),
            adj@.len() == i,
            forall|j: int| 0 <= j < i ==> (#[trigger] adj@[j])@ == g[j],
        decreases n - i,
    {
        let mut row: Vec<usize> = Vec::new();
        let mut j: usize = 0;
        while j < n
            invariant
                n == wires@.len(),
                ws == wires_view(wires@),
                g == meet_graph(ws),
                i < n,
                j <= n,
                verts@.len() == n,
                forall|x: int| 0 <= x < n ==> (#[trigger] verts@[x])@ == wire_vertices(ws[x]),
                row@ == g[i as int].take(j as int),
            decreases n - j,
        {
            if j != i && meet(&verts[i], &verts[j]) {
                row.push(j);
            } else {
                row.push(i);
            }
            assert(row@ =~= g[i as int].take(j + 1));
            j = j + 1;
        }
        assert(row@ =~= g[i as int]);
        adj.push(row);
        i = i + 1;
    }
    assert(adj_view(adj@) =~= g);
    let mut assigned: Vec<bool> = Vec::new();
    let mut i: usize = 0;
    while i < n
        invariant
            i <= n,
            assigned@ == Seq::new(i as nat, |j: int| false),
        decreases n - i,
    {
        assigned.push(false);
        assert(assigned@ =~= Seq::new((i + 1) as nat, |j: int| false));
        i = i + 1;
    }
    let mut out: Vec<Vec<EdgeUse>> = Vec::new();
    let mut i: usize = 0;
    while i < n
        invariant
            n == wires@.len(),
            ws == wires_view(wires@),
            g == meet_graph(ws),
            g.len() == n,
            adj_view(adj@) == g,
            i <= n,
            assigned@.len() == n,
            forall|j: int| 0 <= j < n ==> (#[trigger] assigned@[j] <==> exists|l: int| 0 <= l < i && is_leader(g, l) && #[trigger] reachable(g, l, j)),
            forall|j: int| 0 <= j < i ==> #[trigger] assigned@[j],
            wires_view(out@) == merged_upto(ws, i as int),
        decreases n - i,
    {
        if assigned[i] {
            proof {
                let l = choose|l: int| 0 <= l < i && is_leader(g, l) && #[trigger] reachable(g, l, i as int);
                assert(!is_leader(g, i as int));
                assert(assigned@[i as int]);
                assert(merged_upto(ws, i + 1) == merged_upto(ws, i as int));
            }
        } else {
            proof {
                assert forall|j: int| 0 <= j < i implies !#[trigger] reachable(g, j, i as int) by {
                    if reachable(g, j, i as int) {
                        assert(assigned@[j]);
                        let l = choose|l: int| 0 <= l < i && is_leader(g, l) && #[trigger] reachable(g, l, j);
                        lemma_reach_trans(g, l, j, i as int);
                    }
                }
                assert(is_leader(g, i as int));
                assert forall|a: int, k: int| 0 <= a < g.len() && 0 <= k < g[a].len() implies #[trigger] g[a][k] < g.len() by {}
            }
            let (vis, _count) = reachable_from(&adj, i);
            let mut ms: Vec<usize> = Vec::new();
            let mut j: usize = 0;
            while j < n
                invariant
                    forall|x: int| 0 <= x < i ==> #[trigger] assigned@[x],
                    n == wires@.len(),
                    g.len() == n,
                    adj_view(adj@) == g,
                    i < n,
                    j <= n,
                    vis@.len() == n,
                    forall|v: int| 0 <= v < n ==> (#[trigger] vis@[v] <==> reachable(g, i as int, v)),
                    ms@.map_values(|x: usize| x as int) == members_upto(g, i as int, j as int),
                    assigned@.len() == n,
                    forall|x: int| 0 <= x < n ==> (#[trigger] assigned@[x] <==> (exists|l: int| 0 <= l < i && is_leader(g, l) && #[trigger] reachable(g, l, x))
                        || (x < j && reachable(g, i as int, x))),
                decreases n - j,
            {
                if vis[j] {
                    ms.push(j);
                    assigned.set(j, true);
                }
                assert(ms@.map_values(|x: usize| x as int) =~= members_upto(g, i as int, j + 1));
                j = j + 1;
            }
            proof {
                lemma_reach_self(g, i as int);
                assert forall|x: int| 0 <= x < n implies (#[trigger] assigned@[x] <==> exists|l: int| 0 <= l < i + 1 && is_leader(g, l) && #[trigger] reachable(g, l, x)) by {
                    if reachable(g, i as int, x) {
                        assert(0 <= i < i + 1 && is_leader(g, i as int) && reachable(g, i as int, x));
                    }
                    if exists|l: int| 0 <= l < i + 1 && is_leader(g, l) && #[trigger] reachable(g, l, x) {
                        let l = choose|l: int| 0 <= l < i + 1 && is_leader(g, l) && #[trigger] reachable(g, l, x);
                        if l < i {
                        }
                    }
                }
                assert(assigned@[i as int]);
            }
            let res = group_of(wires, &ms, Ghost(i as int));
            let mut res = res;
            let ghost before = wires_view(out@);
            out.append(&mut res);
            proof {
                assert(wires_view(out@) =~= before + group_result(ws, i as int));
            }
        }
        i = i + 1;
    }
    out
}

/// Copies of the wires listed in `ms`, in order.
fn copy_group(wires: &Vec<Vec<EdgeUse>>, ms: &Vec<usize>) -> (r: Vec<Vec<EdgeUse>>)
    requires
        forall|a: int| 0 <= a < ms@.len() ==> #[trigger] ms@[a] < wires@.len(),
    ensures
        wires_view(r@) == ms@.map_values(|x: usize| x as int).map_values(|j: int| wires_view(wires@)[j]),
{
    let ghost ws = wires_view(wires@);
    let ghost parts = ms@.map_values(|x: usize| x as int).map_values(|j: int| ws[j]);
    let mut pv: Vec<Vec<EdgeUse>> = Vec::new();
    let mut k: usize = 0;
    while k < ms.len()
        invariant
            ws == wires_view(wires@),
            parts == ms@.map_values(|x: usize| x as int).map_values(|j: int| ws[j]),
            forall|a: int| 0 <= a < ms@.len() ==> #[trigger] ms@[a] < wires@.len(),
            k <= ms@.len(),
            wires_view(pv@) == parts.take(k as int),
        decreases ms@.len() - k,
    {
        let ghost before = wires_view(pv@);
        let w = copy_wire(&wires[ms[k]]);
        assert(w@ == parts[k as int]);
        pv.push(w);
        assert(wires_view(pv@) =~= before.push(w@));
        assert(parts.take(k + 1) =~= parts.take(k as int).push(parts[k as int]));
        k = k + 1;
    }
    assert(parts.take(ms@.len() as int) =~= parts);
    pv
}

/// The wires spliced one after the other onto the first (see `splice_all`).
fn splice_group(pv: &Vec<Vec<EdgeUse>>) -> (r: Option<Vec<EdgeUse>>)
    requires
        pv@.len() >= 1,
    ensures
        r matches Some(c) ==> splice_all(wires_view(pv@), pv@.len() as int) == Some(c@),
        r is None ==> splice_all(wires_view(pv@), pv@.len() as int) is None,
{
    let ghost parts = wires_view(pv@);
    let mut c = copy_wire(&pv[0]);
    let mut k: usize = 1;
    while k < pv.len()
        invariant
            parts == wires_view(pv@),
            1 <= k <= pv@.len(),
            splice_all(parts, k as int) == Some(c@),
        decreases pv@.len() - k,
    {
        match splice_exec(&c, &pv[k]) {
            Some(x) => {
                c = x;
            },
            None => {
                proof {
                    lemma_splice_all_none(parts, k + 1, parts.len() as int);
                }
                return None;
            },
        }
        k = k + 1;
    }
    Some(c)
}

/// The pieces of three uses or more (see `long_pieces`).
fn keep_long(pieces: &Vec<Vec<EdgeUse>>) -> (r: Vec<Vec<EdgeUse>>)
    ensures
        wires_view(r@) == long_pieces(wires_view(pieces@), pieces@.len() as int),
{
    let ghost ps = wires_view(pieces@);
    let mut r: Vec<Vec<EdgeUse>> = Vec::new();
    let mut k: usize = 0;
    while k < pieces.len()
        invariant
            ps == wires_view(pieces@),
            k <= pieces@.len(),
            wires_view(r@) == long_pieces(ps, k as int),
        decreases pieces@.len() - k,
    {
        assert(pieces@[k as int]@ == ps[k as int]);
        if pieces[k].len() >= 3 {
            let w = copy_wire(&pieces[k]);
            r.push(w);
            assert(wires_view(r@) =~= long_pieces(ps, k as int).push(ps[k as int]));
        }
        k = k + 1;
    }
    r
}

/// The result of the group of touching wires led by wire `l`, whose members
/// are `ms` (see `group_result`).
fn group_of(wires: &Vec<Vec<EdgeUse>>, ms: &Vec<usize>, Ghost(l): Ghost<int>) -> (r: Vec<Vec<EdgeUse>>)
    requires
        ms@.map_values(|x: usize| x as int) == members_upto(meet_graph(wires_view(wires@)), l, wires@.len() as int),
    ensures
        wires_view(r@) == group_result(wires_view(wires@), l),
{
    let ghost ws = wires_view(wires@);
    proof {
        lemma_members(meet_graph(ws), l, ws.len() as int);
        let msi = ms@.map_values(|x: usize| x as int);
        assert forall|a: int| 0 <= a < ms@.len() implies #[trigger] ms@[a] < wires@.len() by {
            assert(msi[a] == ms@[a] as int);
        }
    }
    let pv = copy_group(wires, ms);
    let ghost parts = group_parts(ws, l);
    assert(wires_view(pv@) =~= parts);
    if ms.len() <= 1 {
        return pv;
    }
    match splice_group(&pv) {
        None => pv,
        Some(c) => {
            if !closed_chain(&c) {
                return pv;
            }
            let pieces = split_wire_at_repeats(&c);
            keep_long(&pieces)
        },
    }
}

/// The first `n` wires with every wire that is a closed chain but not simple
/// split at its repeated vertices (see `split_simple`); the others stay.
pub open spec fn split_non_simple_upto(ws: Seq<Seq<EdgeUse>>, n: int) -> Seq<Seq<EdgeUse>>
    decreases n,
{
    if n <= 0 {
        Seq::empty()
    } else if !is_simple_wire(ws[n - 1]) && is_closed_chain(ws[n - 1]) {
        split_non_simple_upto(ws, n - 1) + split_simple(ws[n - 1])
    } else {
        split_non_simple_upto(ws, n - 1).push(ws[n - 1])
    }
}

/// Splits every closed wire that visits a vertex twice into simple wires, in
/// order; the other wires are kept. Also tells whether any wire was split.
pub fn split_non_simple_wires(wires: &Vec<Vec<EdgeUse>>) -> (r: (Vec<Vec<EdgeUse>>, bool))
    ensures
        wires_view(r.0@) == split_non_simple_upto(wires_view(wires@), wires@.len() as int),
        r.1 <==> exists|i: int|
            0 <= i < wires@.len() && !is_simple_wire(#[trigger] wires_view(wires@)[i]) && is_closed_chain(wires_view(wires@)[i]),
{
    let ghost ws = wires_view(wires@);
    let mut out: Vec<Vec<EdgeUse>> = Vec::new();
    let mut any = false;
    let mut i: usize = 0;
    while i < wires.len()
        invariant
            ws == wires_view(wires@),
            i <= wires@.len(),
            wires_view(out@) == split_non_simple_upto(ws, i as int),
            any <==> exists|k: int| 0 <= k < i && !is_simple_wire(#[trigger] ws[k]) && is_closed_chain(ws[k]),
        decreases wires@.len() - i,
    {
        assert(wires@[i as int]@ == ws[i as int]);
        let ghost before = wires_view(out@);
        if !is_simple(&wires[i]) && closed_chain(&wires[i]) {
            let mut pieces = split_wire_at_repeats(&wires[i]);
            out.append(&mut pieces);
            any = true;
            assert(wires_view(out@) =~= before + split_simple(ws[i as int]));
        } else {
            let w = copy_wire(&wires[i]);
            out.push(w);
            assert(wires_view(out@) =~= before.push(ws[i as int]));
        }
        i = i + 1;
    }
    (out, any)
}

} // verus!
