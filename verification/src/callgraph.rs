//! The nodes of the call-graph explorer.
//!
//! A layered graph around one function: callees to the right, callers to the
//! left, imported symbols as leaves. The layout is deliberately simple --
//! breadth-first levels -- because a graph you can predict is easier to read
//! than a prettier one that moves every time the root changes. Where the
//! nodes are drawn is worked out around this, from the levels it gives.

use std::collections::HashSet;
use vstd::prelude::*;
use crate::nav::{address_text, lemma_address_round_trip, Addr, GraphDir, NavV};
use crate::order::{
    lemma_lex_asymmetric, lemma_lex_irreflexive, lemma_lex_total, lemma_lex_transitive, lex_lt, str_lt,
};
use crate::text::{
    decimal, decimal_padded, extend, extend_str, fmt_decimal, fmt_decimal_padded,
    fmt_hex_padded, hex_padded, string_of,
};

verus! {

/// What the explorer knows of one function of the module.
#[derive(Debug)]
pub struct GraphFn {
    pub addr: Addr,
    /// The name shown for it.
    pub label: String,
    /// The line under the name.
    pub sub: String,
    /// The functions it calls, as positions in the function list.
    pub callees: Vec<usize>,
    /// The imported symbols it calls.
    pub imports: Vec<String>,
    /// The functions that call it, as positions in the function list.
    pub callers: Vec<usize>,
}

/// A function as a value.
pub struct GraphFnV {
    pub addr: Addr,
    pub label: Seq<char>,
    pub sub: Seq<char>,
    pub callees: Seq<usize>,
    pub imports: Seq<Seq<char>>,
    pub callers: Seq<usize>,
}

impl View for GraphFn {
    type V = GraphFnV;

    open spec fn view(&self) -> GraphFnV {
        GraphFnV {
            addr: self.addr,
            label: self.label@,
            sub: self.sub@,
            callees: self.callees@,
            imports: self.imports@.map_values(|s: String| s@),
            callers: self.callers@,
        }
    }
}

/// The function list as values.
pub open spec fn fns_view(v: Seq<GraphFn>) -> Seq<GraphFnV> {
    v.map_values(|f: GraphFn| f@)
}

/// Every call and caller refers to a function in the list.
pub open spec fn graph_ok(g: Seq<GraphFnV>) -> bool {
    forall|i: int|
        0 <= i < g.len() ==> (forall|j: int|
            0 <= j < (#[trigger] g[i]).callees.len() ==> g[i].callees[j] < g.len()) && (forall|j: int|
            0 <= j < g[i].callers.len() ==> g[i].callers[j] < g.len())
}

/// A node of the graph.
#[derive(Debug)]
pub struct Node {
    /// Stable identity, used to remember where the user dragged it to.
    pub key: String,
    /// `None` for an imported symbol, which has no address in this module,
    /// and for an overflow marker.
    pub addr: Option<Addr>,
    pub label: String,
    pub sub: String,
    /// Horizontal level: negative for callers, positive for callees.
    pub level: i32,
    pub is_root: bool,
    pub is_import: bool,
    /// A stand-in for the entries a level did not have room for.
    pub is_overflow: bool,
}

/// A node as a value.
pub struct NodeV {
    pub key: Seq<char>,
    pub addr: Option<Addr>,
    pub label: Seq<char>,
    pub sub: Seq<char>,
    pub level: int,
    pub is_root: bool,
    pub is_import: bool,
    pub is_overflow: bool,
}

impl View for Node {
    type V = NodeV;

    open spec fn view(&self) -> NodeV {
        NodeV {
            key: self.key@,
            addr: self.addr,
            label: self.label@,
            sub: self.sub@,
            level: self.level as int,
            is_root: self.is_root,
            is_import: self.is_import,
            is_overflow: self.is_overflow,
        }
    }
}

/// Nodes as values.
pub open spec fn nodes_view(v: Seq<Node>) -> Seq<NodeV> {
    v.map_values(|n: Node| n@)
}

/// The key of a function's node: `f`, the segment in two digits, `:`, the
/// offset in four hexadecimal digits.
pub open spec fn fn_key_text(a: Addr) -> Seq<char> {
    "f"@ + decimal_padded(a.segment as nat, 2) + ":"@ + hex_padded(a.offset as nat, 4)
}

/// The key of a function's node.
pub fn fn_key(a: Addr) -> (r: String)
    ensures
        r@ == fn_key_text(a),
{
    let mut v: Vec<char> = Vec::new();
    extend_str(&mut v, "f");
    extend(&mut v, &fmt_decimal_padded(a.segment as u64, 2));
    extend_str(&mut v, ":");
    extend(&mut v, &fmt_hex_padded(a.offset as u64, 4));
    string_of(&v)
}

/// The node for function `i` at `level`.
pub open spec fn fn_node(g: Seq<GraphFnV>, i: int, level: int, root: bool) -> NodeV {
    NodeV {
        key: fn_key_text(g[i].addr),
        addr: Some(g[i].addr),
        label: g[i].label,
        sub: g[i].sub,
        level,
        is_root: root,
        is_import: false,
        is_overflow: false,
    }
}

/// The node for the imported symbol `name` at `level`.
pub open spec fn import_node(name: Seq<char>, level: int) -> NodeV {
    NodeV {
        key: "i"@ + name,
        addr: None,
        label: name,
        sub: "import"@,
        level,
        is_root: false,
        is_import: true,
        is_overflow: false,
    }
}

/// Whether some node has key `k`.
pub open spec fn has_key(nodes: Seq<NodeV>, k: Seq<char>) -> bool {
    exists|i: int| 0 <= i < nodes.len() && #[trigger] nodes[i].key == k
}

/// The nodes with `n` added, unless its key is already there: a function
/// reached two ways keeps the level it was first reached at.
pub open spec fn add_node(nodes: Seq<NodeV>, n: NodeV) -> Seq<NodeV> {
    if has_key(nodes, n.key) {
        nodes
    } else {
        nodes.push(n)
    }
}

/// Visiting the functions `calls[j..]` at `level`: each new one is added,
/// and goes on the next frontier.
pub open spec fn visit_calls(
    g: Seq<GraphFnV>,
    nodes: Seq<NodeV>,
    next: Seq<int>,
    calls: Seq<usize>,
    level: int,
    j: int,
) -> (Seq<NodeV>, Seq<int>)
    decreases calls.len() - j,
{
    if j < 0 || j >= calls.len() {
        (nodes, next)
    } else {
        let n = fn_node(g, calls[j] as int, level, false);
        if has_key(nodes, n.key) {
            visit_calls(g, nodes, next, calls, level, j + 1)
        } else {
            visit_calls(g, nodes.push(n), next.push(calls[j] as int), calls, level, j + 1)
        }
    }
}

/// Adding the imported symbols `names[j..]` at `level`.
pub open spec fn visit_imports(nodes: Seq<NodeV>, names: Seq<Seq<char>>, level: int, j: int) -> Seq<
    NodeV,
>
    decreases names.len() - j,
{
    if j < 0 || j >= names.len() {
        nodes
    } else {
        visit_imports(add_node(nodes, import_node(names[j], level)), names, level, j + 1)
    }
}

/// One level outwards from the frontier `front[k..]`: callees (and, when
/// shown, imports) to the right, or callers to the left.
pub open spec fn visit_front(
    g: Seq<GraphFnV>,
    nodes: Seq<NodeV>,
    next: Seq<int>,
    front: Seq<int>,
    k: int,
    level: int,
    callers: bool,
    show_imports: bool,
) -> (Seq<NodeV>, Seq<int>)
    decreases front.len() - k,
{
    if k < 0 || k >= front.len() {
        (nodes, next)
    } else {
        let f = g[front[k]];
        if callers {
            let (n1, x1) = visit_calls(g, nodes, next, f.callers, -level, 0);
            visit_front(g, n1, x1, front, k + 1, level, callers, show_imports)
        } else {
            let (n1, x1) = visit_calls(g, nodes, next, f.callees, level, 0);
            let n2 = if show_imports {
                visit_imports(n1, f.imports, level, 0)
            } else {
                n1
            };
            visit_front(g, n2, x1, front, k + 1, level, callers, show_imports)
        }
    }
}

/// Levels `level..=depth` outwards, stopping once a level adds no function.
pub open spec fn grow(
    g: Seq<GraphFnV>,
    nodes: Seq<NodeV>,
    front: Seq<int>,
    level: int,
    depth: int,
    callers: bool,
    show_imports: bool,
) -> Seq<NodeV>
    decreases depth - level + 1,
{
    if level > depth {
        nodes
    } else {
        let (n1, next) = visit_front(g, nodes, Seq::empty(), front, 0, level, callers, show_imports);
        if next.len() == 0 {
            n1
        } else {
            grow(g, n1, next, level + 1, depth, callers, show_imports)
        }
    }
}

/// The nodes around `root`, before columns are trimmed: the root, callees
/// breadth first to `depth` levels (with their imports when shown), then
/// callers the same way.
pub open spec fn layout_nodes(
    g: Seq<GraphFnV>,
    root: int,
    depth: int,
    dir: GraphDir,
    show_imports: bool,
) -> Seq<NodeV> {
    let n0 = seq![fn_node(g, root, 0, true)];
    let n1 = if dir == GraphDir::Callees || dir == GraphDir::Both {
        grow(g, n0, seq![root], 1, depth, false, show_imports)
    } else {
        n0
    };
    if dir == GraphDir::Callers || dir == GraphDir::Both {
        grow(g, n1, seq![root], 1, depth, true, show_imports)
    } else {
        n1
    }
}

proof fn lemma_calls_bounded(
    g: Seq<GraphFnV>,
    nodes: Seq<NodeV>,
    next: Seq<int>,
    calls: Seq<usize>,
    level: int,
    j: int,
    bound: int,
)
    requires
        forall|m: int| 0 <= m < next.len() ==> 0 <= #[trigger] next[m] < bound,
        forall|m: int| 0 <= m < calls.len() ==> #[trigger] calls[m] < bound,
    ensures
        forall|m: int|
            0 <= m < visit_calls(g, nodes, next, calls, level, j).1.len() ==> 0 <= #[trigger] visit_calls(
                g,
                nodes,
                next,
                calls,
                level,
                j,
            ).1[m] < bound,
    decreases calls.len() - j,
{
    if 0 <= j < calls.len() {
        let n = fn_node(g, calls[j] as int, level, false);
        if has_key(nodes, n.key) {
            lemma_calls_bounded(g, nodes, next, calls, level, j + 1, bound);
            assert(visit_calls(g, nodes, next, calls, level, j) == visit_calls(
                g,
                nodes,
                next,
                calls,
                level,
                j + 1,
            ));
        } else {
            let nx = next.push(calls[j] as int);
            assert forall|m: int| 0 <= m < nx.len() implies 0 <= #[trigger] nx[m] < bound by {
                if m < next.len() {
                    assert(nx[m] == next[m]);
                }
            }
            lemma_calls_bounded(g, nodes.push(n), nx, calls, level, j + 1, bound);
            assert(visit_calls(g, nodes, next, calls, level, j) == visit_calls(
                g,
                nodes.push(n),
                nx,
                calls,
                level,
                j + 1,
            ));
        }
    }
}

fn find_key(nodes: &Vec<Node>, key: &String) -> (r: bool)
    ensures
        r == has_key(nodes_view(nodes@), key@),
{
    let mut i: usize = 0;
    while i < nodes.len()
        invariant
            i <= nodes.len(),
            forall|k: int| 0 <= k < i ==> nodes@[k].key@ != key@,
        decreases nodes.len() - i,
    {
        if nodes[i].key == *key {
            assert(nodes_view(nodes@)[i as int].key == key@);
            return true;
        }
        i = i + 1;
    }
    proof {
        if has_key(nodes_view(nodes@), key@) {
            let k = choose|k: int| 0 <= k < nodes_view(nodes@).len() && nodes_view(nodes@)[k].key == key@;
            assert(nodes@[k].key@ == key@);
        }
    }
    false
}

fn make_fn_node(g: &Vec<GraphFn>, i: usize, level: i32, root: bool) -> (r: Node)
    requires
        i < g.len(),
    ensures
        r@ == fn_node(fns_view(g@), i as int, level as int, root),
{
    let f = &g[i];
    Node {
        key: fn_key(f.addr),
        addr: Some(f.addr),
        label: f.label.clone(),
        sub: f.sub.clone(),
        level,
        is_root: root,
        is_import: false,
        is_overflow: false,
    }
}

fn visit_calls_exec(
    g: &Vec<GraphFn>,
    nodes: &mut Vec<Node>,
    next: &mut Vec<usize>,
    calls: &Vec<usize>,
    level: i32,
)
    requires
        forall|j: int| 0 <= j < calls.len() ==> calls@[j] < g.len(),
    ensures
        (nodes_view(final(nodes)@), final(next)@.map_values(|x: usize| x as int)) == visit_calls(
            fns_view(g@),
            nodes_view(old(nodes)@),
            old(next)@.map_values(|x: usize| x as int),
            calls@,
            level as int,
            0,
        ),
{
    let ghost gv = fns_view(g@);
    let mut j: usize = 0;
    while j < calls.len()
        invariant
            j <= calls.len(),
            gv == fns_view(g@),
            forall|m: int| 0 <= m < calls.len() ==> calls@[m] < g.len(),
            visit_calls(gv, nodes_view(nodes@), next@.map_values(|x: usize| x as int), calls@, level as int, j as int)
                == visit_calls(
                gv,
                nodes_view(old(nodes)@),
                old(next)@.map_values(|x: usize| x as int),
                calls@,
                level as int,
                0,
            ),
        decreases calls.len() - j,
    {
        let c = calls[j];
        let n = make_fn_node(g, c, level, false);
        let seen = find_key(nodes, &n.key);
        if !seen {
            let ghost nb = nodes_view(nodes@);
            let ghost xb = next@.map_values(|x: usize| x as int);
            let ghost nv = n@;
            nodes.push(n);
            next.push(c);
            proof {
                assert(nodes_view(nodes@) =~= nb.push(nv));
                assert(next@.map_values(|x: usize| x as int) =~= xb.push(c as int));
            }
        }
        j = j + 1;
    }
}

fn visit_imports_exec(nodes: &mut Vec<Node>, names: &Vec<String>, level: i32)
    ensures
        nodes_view(final(nodes)@) == visit_imports(
            nodes_view(old(nodes)@),
            names@.map_values(|s: String| s@),
            level as int,
            0,
        ),
{
    let ghost ns = names@.map_values(|s: String| s@);
    let mut j: usize = 0;
    while j < names.len()
        invariant
            j <= names.len(),
            ns == names@.map_values(|s: String| s@),
            visit_imports(nodes_view(nodes@), ns, level as int, j as int) == visit_imports(
                nodes_view(old(nodes)@),
                ns,
                level as int,
                0,
            ),
        decreases names.len() - j,
    {
        let name = &names[j];
        let mut kv: Vec<char> = Vec::new();
        extend_str(&mut kv, "i");
        extend_str(&mut kv, name.as_str());
        let n = Node {
            key: string_of(&kv),
            addr: None,
            label: name.clone(),
            sub: String::from_str("import"),
            level,
            is_root: false,
            is_import: true,
            is_overflow: false,
        };
        proof {
            assert(n@ == import_node(ns[j as int], level as int));
        }
        let seen = find_key(nodes, &n.key);
        if !seen {
            let ghost nb = nodes_view(nodes@);
            let ghost nv = n@;
            nodes.push(n);
            proof {
                assert(nodes_view(nodes@) =~= nb.push(nv));
            }
        }
        j = j + 1;
    }
}

/// Lay out the nodes around function `root` of `g`, out to `depth` levels
/// in the direction `dir`; imported symbols are leaves when shown.
pub fn layout(g: &Vec<GraphFn>, root: usize, depth: usize, dir: GraphDir, show_imports: bool) -> (r: Vec<
    Node,
>)
    requires
        root < g.len(),
        depth < 0x7FFF_FFFF,
        graph_ok(fns_view(g@)),
    ensures
        nodes_view(r@) == layout_nodes(fns_view(g@), root as int, depth as int, dir, show_imports),
{
    let ghost gv = fns_view(g@);
    let mut nodes: Vec<Node> = Vec::new();
    let first = make_fn_node(g, root, 0, true);
    nodes.push(first);
    assert(nodes_view(nodes@) =~= seq![fn_node(gv, root as int, 0, true)]);
    if dir == GraphDir::Callees || dir == GraphDir::Both {
        grow_exec(g, &mut nodes, root, depth as i32, false, show_imports);
    }
    if dir == GraphDir::Callers || dir == GraphDir::Both {
        grow_exec(g, &mut nodes, root, depth as i32, true, show_imports);
    }
    nodes
}

fn grow_exec(
    g: &Vec<GraphFn>,
    nodes: &mut Vec<Node>,
    root: usize,
    depth: i32,
    callers: bool,
    show_imports: bool,
)
    requires
        root < g.len(),
        0 <= depth < 0x7FFF_FFFF,
        graph_ok(fns_view(g@)),
    ensures
        nodes_view(final(nodes)@) == grow(
            fns_view(g@),
            nodes_view(old(nodes)@),
            seq![root as int],
            1,
            depth as int,
            callers,
            show_imports,
        ),
{
    let ghost gv = fns_view(g@);
    let mut front: Vec<usize> = Vec::new();
    front.push(root);
    let mut level: i32 = 1;
    proof {
        assert(front@.map_values(|x: usize| x as int) =~= seq![root as int]);
    }
    while level <= depth
        invariant
            gv == fns_view(g@),
            graph_ok(gv),
            1 <= level,
            0 <= depth < 0x7FFF_FFFF,
            level <= depth + 1,
            forall|m: int| 0 <= m < front.len() ==> front@[m] < g.len(),
            grow(gv, nodes_view(nodes@), front@.map_values(|x: usize| x as int), level as int, depth as int, callers, show_imports)
                == grow(gv, nodes_view(old(nodes)@), seq![root as int], 1, depth as int, callers, show_imports),
        decreases depth - level + 1,
    {
        let ghost fv = front@.map_values(|x: usize| x as int);
        let ghost before = nodes_view(nodes@);
        let mut next: Vec<usize> = Vec::new();
        let mut k: usize = 0;
        proof {
            assert(next@.map_values(|x: usize| x as int) =~= Seq::<int>::empty());
        }
        while k < front.len()
            invariant
                k <= front.len(),
                1 <= level <= depth,
                gv == fns_view(g@),
                graph_ok(gv),
                fv == front@.map_values(|x: usize| x as int),
                forall|m: int| 0 <= m < front.len() ==> front@[m] < g.len(),
                forall|m: int| 0 <= m < next.len() ==> next@[m] < g.len(),
                visit_front(gv, nodes_view(nodes@), next@.map_values(|x: usize| x as int), fv, k as int, level as int, callers, show_imports)
                    == visit_front(gv, before, Seq::empty(), fv, 0, level as int, callers, show_imports),
            decreases front.len() - k,
        {
            let f = &g[front[k]];
            proof {
                assert(gv[front@[k as int] as int] == f@);
                assert(fv[k as int] == front@[k as int] as int);
            }
            let ghost nb = nodes_view(nodes@);
            let ghost xb = next@.map_values(|x: usize| x as int);
            proof {
                assert(graph_ok(gv));
                assert(front@[k as int] < g.len());
                let fi = front@[k as int] as int;
                assert(gv[fi] == f@);
                assert forall|m: int| 0 <= m < xb.len() implies 0 <= #[trigger] xb[m] < g.len() by {
                    assert(xb[m] == next@[m] as int);
                }
            }
            if callers {
                visit_calls_exec(g, nodes, &mut next, &f.callers, -level);
                proof {
                    lemma_calls_bounded(gv, nb, xb, f@.callers, -level as int, 0, g.len() as int);
                    assert forall|m: int| 0 <= m < next.len() implies next@[m] < g.len() by {
                        assert(next@.map_values(|x: usize| x as int)[m] == next@[m] as int);
                    }
                }
            } else {
                visit_calls_exec(g, nodes, &mut next, &f.callees, level);
                proof {
                    lemma_calls_bounded(gv, nb, xb, f@.callees, level as int, 0, g.len() as int);
                    assert forall|m: int| 0 <= m < next.len() implies next@[m] < g.len() by {
                        assert(next@.map_values(|x: usize| x as int)[m] == next@[m] as int);
                    }
                }
                if show_imports {
                    visit_imports_exec(nodes, &f.imports, level);
                }
            }
            k = k + 1;
        }
        if next.len() == 0 {
            return;
        }
        front = next;
        level = level + 1;
    }
}

/// How many nodes a single column may hold before the rest are summarised.
/// A well-connected function can call sixty things; drawing all of them
/// makes a column taller than any useful zoom level.
pub const MAX_PER_LEVEL: usize = 14;

/// How many of the first `n` nodes are at level `l`.
pub open spec fn level_count(ns: Seq<NodeV>, l: int, n: int) -> nat
    decreases n,
{
    if n <= 0 {
        0
    } else {
        level_count(ns, l, n - 1) + if ns[n - 1].level == l {
            1nat
        } else {
            0nat
        }
    }
}

/// Whether level `l` is cut down: more than fourteen nodes, not the root's
/// level, and not one the user expanded.
pub open spec fn cut_level(ns: Seq<NodeV>, expanded: Set<i32>, l: int) -> bool {
    level_count(ns, l, ns.len() as int) > 14 && l != 0 && !expanded.contains(l as i32)
}

/// Node `a` is kept before node `b` in a crowded column: functions of the
/// module before imports, then by label.
pub open spec fn node_lt(a: NodeV, b: NodeV) -> bool {
    (!a.is_import && b.is_import) || (a.is_import == b.is_import && lex_lt(a.label, b.label))
}

/// Node `j` comes before node `i` in its column's order: a stable sort by
/// `node_lt`.
pub open spec fn column_before(ns: Seq<NodeV>, j: int, i: int) -> bool {
    node_lt(ns[j], ns[i]) || (!node_lt(ns[i], ns[j]) && j < i)
}

/// How many of the first `n` nodes of node `i`'s level come before it.
pub open spec fn rank_in(ns: Seq<NodeV>, i: int, n: int) -> nat
    decreases n,
{
    if n <= 0 {
        0
    } else {
        rank_in(ns, i, n - 1) + if ns[n - 1].level == ns[i].level && column_before(ns, n - 1, i) {
            1nat
        } else {
            0nat
        }
    }
}

/// Whether node `i` survives trimming.
pub open spec fn kept(ns: Seq<NodeV>, expanded: Set<i32>, i: int) -> bool {
    !cut_level(ns, expanded, ns[i].level) || rank_in(ns, i, ns.len() as int) < 14
}

/// The nodes that survive trimming, in order.
pub open spec fn kept_nodes(ns: Seq<NodeV>, expanded: Set<i32>, n: int) -> Seq<NodeV>
    decreases n,
{
    if n <= 0 {
        Seq::empty()
    } else if kept(ns, expanded, n - 1) {
        kept_nodes(ns, expanded, n - 1).push(ns[n - 1])
    } else {
        kept_nodes(ns, expanded, n - 1)
    }
}

/// A level as `{}` writes an integer.
pub open spec fn int_text(l: int) -> Seq<char> {
    if l < 0 {
        "-"@ + decimal((-l) as nat)
    } else {
        decimal(l as nat)
    }
}

/// The node standing in for what a cut level left out.
pub open spec fn overflow_node(l: int, hidden: nat) -> NodeV {
    NodeV {
        key: "o"@ + int_text(l),
        addr: None,
        label: "+"@ + decimal(hidden) + " more"@,
        sub: "click to show them"@,
        level: l,
        is_root: false,
        is_import: false,
        is_overflow: true,
    }
}

/// `r` is `ns` with each crowded column trimmed: the nodes that survive, in
/// their order, then one stand-in for each cut level, levels ascending.
pub open spec fn is_trimmed(ns: Seq<NodeV>, expanded: Set<i32>, r: Seq<NodeV>) -> bool {
    let k = kept_nodes(ns, expanded, ns.len() as int);
    &&& r.len() >= k.len()
    &&& r.subrange(0, k.len() as int) == k
    &&& forall|a: int, b: int| k.len() <= a < b < r.len() ==> r[a].level < r[b].level
    &&& forall|a: int|
        k.len() <= a < r.len() ==> cut_level(ns, expanded, r[a].level) && #[trigger] r[a]
            == overflow_node(r[a].level, (level_count(ns, r[a].level, ns.len() as int) - 14) as nat)
    &&& forall|i: int|
        0 <= i < ns.len() && cut_level(ns, expanded, ns[i].level) ==> exists|a: int|
            k.len() <= a < r.len() && #[trigger] r[a].level == ns[i].level
}

fn count_level(nodes: &Vec<Node>, l: i32) -> (r: usize)
    ensures
        r == level_count(nodes_view(nodes@), l as int, nodes.len() as int),
{
    let mut c: usize = 0;
    let mut i: usize = 0;
    while i < nodes.len()
        invariant
            i <= nodes.len(),
            c <= i,
            c == level_count(nodes_view(nodes@), l as int, i as int),
        decreases nodes.len() - i,
    {
        proof {
            assert(nodes_view(nodes@)[i as int] == nodes@[i as int]@);
        }
        if nodes[i].level == l {
            c = c + 1;
        }
        i = i + 1;
    }
    c
}

fn is_cut(nodes: &Vec<Node>, expanded: &HashSet<i32>, l: i32) -> (r: bool)
    ensures
        r == cut_level(nodes_view(nodes@), expanded@, l as int),
{
    broadcast use vstd::std_specs::hash::group_hash_axioms;

    if l == 0 {
        return false;
    }
    let c = count_level(nodes, l);
    if c <= 14 {
        return false;
    }
    !expanded.contains(&l)
}

fn before_in_column(a: &Node, b: &Node) -> (r: bool)
    ensures
        r == node_lt(a@, b@),
{
    (!a.is_import && b.is_import) || (a.is_import == b.is_import && str_lt(a.label.as_str(), b.label.as_str()))
}

fn rank_of(nodes: &Vec<Node>, i: usize) -> (r: usize)
    requires
        i < nodes.len(),
    ensures
        r == rank_in(nodes_view(nodes@), i as int, nodes.len() as int),
{
    let ghost ns = nodes_view(nodes@);
    let mut c: usize = 0;
    let mut j: usize = 0;
    while j < nodes.len()
        invariant
            i < nodes.len(),
            ns == nodes_view(nodes@),
            j <= nodes.len(),
            c <= j,
            c == rank_in(ns, i as int, j as int),
        decreases nodes.len() - j,
    {
        proof {
            assert(ns[j as int] == nodes@[j as int]@);
            assert(ns[i as int] == nodes@[i as int]@);
        }
        let same = nodes[j].level == nodes[i].level;
        if same && (before_in_column(&nodes[j], &nodes[i]) || (!before_in_column(&nodes[i], &nodes[j]) && j < i)) {
            c = c + 1;
        }
        j = j + 1;
    }
    c
}

fn int_string(l: i32) -> (r: Vec<char>)
    ensures
        r@ == int_text(l as int),
{
    if l < 0 {
        let mut v: Vec<char> = Vec::new();
        extend_str(&mut v, "-");
        let m: i64 = -(l as i64);
        extend(&mut v, &fmt_decimal(m as u64));
        v
    } else {
        fmt_decimal(l as u64)
    }
}

/// Keep each column to something readable, the module's own functions
/// first. A level with more than fourteen nodes, other than the root's and
/// those the user expanded, keeps its first fourteen and gets a stand-in for
/// the rest.
pub fn trim_columns(nodes: Vec<Node>, expanded: &HashSet<i32>) -> (r: Vec<Node>)
    ensures
        is_trimmed(nodes_view(nodes@), expanded@, nodes_view(r@)),
{
    let ghost ns = nodes_view(nodes@);
    let n = nodes.len();
    // Which nodes stay.
    let mut keep: Vec<bool> = Vec::new();
    let mut i: usize = 0;
    while i < n
        invariant
            i <= n,
            n == nodes.len(),
            ns == nodes_view(nodes@),
            keep.len() == i,
            forall|k: int| 0 <= k < i ==> #[trigger] keep@[k] == kept(ns, expanded@, k),
        decreases n - i,
    {
        let cut = is_cut(&nodes, expanded, nodes[i].level);
        let stays = !cut || rank_of(&nodes, i) < 14;
        proof {
            assert(ns[i as int] == nodes@[i as int]@);
        }
        keep.push(stays);
        i = i + 1;
    }
    // The cut levels, ascending, with their counts.
    let mut cut_levels: Vec<(i32, usize)> = Vec::new();
    let mut q: usize = 0;
    while q < n
        invariant
            q <= n,
            n == nodes.len(),
            ns == nodes_view(nodes@),
            forall|a: int, b: int| 0 <= a < b < cut_levels.len() ==> cut_levels@[a].0 < cut_levels@[b].0,
            forall|a: int|
                0 <= a < cut_levels.len() ==> cut_level(ns, expanded@, (#[trigger] cut_levels@[a]).0 as int)
                    && cut_levels@[a].1 == level_count(ns, cut_levels@[a].0 as int, n as int),
            forall|k: int|
                0 <= k < q && cut_level(ns, expanded@, ns[k].level) ==> exists|a: int|
                    0 <= a < cut_levels.len() && #[trigger] cut_levels@[a].0 as int == ns[k].level,
        decreases n - q,
    {
        let l = nodes[q].level;
        proof {
            assert(ns[q as int] == nodes@[q as int]@);
        }
        if is_cut(&nodes, expanded, l) {
            let c = count_level(&nodes, l);
            let mut pos: usize = 0;
            while pos < cut_levels.len() && cut_levels[pos].0 < l
                invariant
                    pos <= cut_levels.len(),
                    forall|a: int| 0 <= a < pos ==> cut_levels@[a].0 < l,
                decreases cut_levels.len() - pos,
            {
                pos = pos + 1;
            }
            if pos < cut_levels.len() && cut_levels[pos].0 == l {
                // Already listed.
            } else {
                let ghost prev = cut_levels@;
                cut_levels.insert(pos, (l, c));
                proof {
                    assert forall|a: int, b: int| 0 <= a < b < cut_levels.len() implies cut_levels@[a].0
                        < cut_levels@[b].0 by {
                        if a < pos && b > pos {
                            assert(cut_levels@[b] == prev[b - 1]);
                            assert(prev[pos as int].0 > l);
                        } else if a > pos {
                            assert(cut_levels@[a] == prev[a - 1]);
                            assert(cut_levels@[b] == prev[b - 1]);
                        } else if a == pos && b > pos {
                            assert(cut_levels@[b] == prev[b - 1]);
                            assert(prev[pos as int].0 > l);
                            if b - 1 > pos {
                                assert(prev[pos as int].0 < prev[b - 1].0);
                            }
                        } else if a < pos && b == pos {
                            assert(cut_levels@[a] == prev[a]);
                        }
                    }
                    assert forall|a: int|
                        0 <= a < cut_levels.len() implies cut_level(ns, expanded@, (#[trigger] cut_levels@[a]).0 as int)
                            && cut_levels@[a].1 == level_count(ns, cut_levels@[a].0 as int, n as int) by {
                        if a < pos {
                            assert(cut_levels@[a] == prev[a]);
                        } else if a > pos {
                            assert(cut_levels@[a] == prev[a - 1]);
                        }
                    }
                    assert forall|k: int|
                        0 <= k < q + 1 && cut_level(ns, expanded@, ns[k].level) implies exists|a: int|
                            0 <= a < cut_levels.len() && #[trigger] cut_levels@[a].0 as int == ns[k].level by {
                        if k < q {
                            let a0 = choose|a: int| 0 <= a < prev.len() && #[trigger] prev[a].0 as int == ns[k].level;
                            if a0 < pos {
                                assert(cut_levels@[a0] == prev[a0]);
                            } else {
                                assert(cut_levels@[a0 + 1] == prev[a0]);
                            }
                        } else {
                            assert(cut_levels@[pos as int].0 as int == ns[k].level);
                        }
                    }
                }
            }
        }
        q = q + 1;
    }
    if cut_levels.len() == 0 {
        proof {
            assert forall|k: int| 0 <= k < n implies kept(ns, expanded@, k) by {
                if cut_level(ns, expanded@, ns[k].level) {
                    let a = choose|a: int| 0 <= a < cut_levels.len() && #[trigger] cut_levels@[a].0 as int == ns[k].level;
                }
            }
            lemma_all_kept(ns, expanded@, n as int);
            assert(kept_nodes(ns, expanded@, n as int) =~= ns);
        }
        return nodes;
    }
    // The survivors, in order.
    let mut out: Vec<Node> = Vec::new();
    let mut rest = nodes;
    let mut t: usize = 0;
    proof {
        assert(rest@.skip(0) =~= rest@);
    }
    let ghost all = rest@;
    while rest.len() > 0
        invariant
            t <= n,
            all.len() == n,
            ns == nodes_view(all),
            rest@ == all.skip(t as int),
            keep.len() == n,
            forall|k: int| 0 <= k < n ==> #[trigger] keep@[k] == kept(ns, expanded@, k),
            nodes_view(out@) == kept_nodes(ns, expanded@, t as int),
        decreases rest.len(),
    {
        proof {
            assert(all.skip(t as int)[0] == all[t as int]);
        }
        let x = rest.remove(0);
        proof {
            assert(rest@ =~= all.skip(t + 1));
            assert(ns[t as int] == x@);
        }
        if keep[t] {
            let ghost before = nodes_view(out@);
            let ghost xv = x@;
            out.push(x);
            proof {
                assert(nodes_view(out@) =~= before.push(xv));
            }
        }
        t = t + 1;
    }
    let ghost klen = out.len();
    assert(nodes_view(out@).subrange(0, klen as int) =~= kept_nodes(ns, expanded@, n as int));
    // A stand-in for each cut level.
    let mut c: usize = 0;
    while c < cut_levels.len()
        invariant
            c <= cut_levels.len(),
            ns.len() == n,
            klen <= out.len(),
            out.len() == klen + c,
            nodes_view(out@).subrange(0, klen as int) == kept_nodes(ns, expanded@, n as int),
            forall|a: int| 0 <= a < c ==> (#[trigger] out@[klen + a])@ == overflow_node(
                cut_levels@[a].0 as int,
                (cut_levels@[a].1 - 14) as nat,
            ),
            forall|a: int, b: int| 0 <= a < b < cut_levels.len() ==> cut_levels@[a].0 < cut_levels@[b].0,
            forall|a: int|
                0 <= a < cut_levels.len() ==> cut_level(ns, expanded@, (#[trigger] cut_levels@[a]).0 as int)
                    && cut_levels@[a].1 == level_count(ns, cut_levels@[a].0 as int, n as int),
        decreases cut_levels.len() - c,
    {
        let (l, count) = cut_levels[c];
        proof {
            let e = cut_levels@[c as int];
            assert(cut_level(ns, expanded@, e.0 as int));
            assert(count > 14);
        }
        let mut key: Vec<char> = Vec::new();
        extend_str(&mut key, "o");
        extend(&mut key, &int_string(l));
        let mut label: Vec<char> = Vec::new();
        extend_str(&mut label, "+");
        extend(&mut label, &fmt_decimal((count - 14) as u64));
        extend_str(&mut label, " more");
        let node = Node {
            key: string_of(&key),
            addr: None,
            label: string_of(&label),
            sub: String::from_str("click to show them"),
            level: l,
            is_root: false,
            is_import: false,
            is_overflow: true,
        };
        let ghost before = out@;
        out.push(node);
        proof {
            assert(nodes_view(out@).subrange(0, klen as int) =~= nodes_view(before).subrange(0, klen as int));
            assert forall|a: int| 0 <= a < c + 1 implies (#[trigger] out@[klen + a])@ == overflow_node(
                cut_levels@[a].0 as int,
                (cut_levels@[a].1 - 14) as nat,
            ) by {
                if a < c {
                    assert(out@[klen + a] == before[klen + a]);
                }
            }
        }
        c = c + 1;
    }
    proof {
        let rv = nodes_view(out@);
        let k = kept_nodes(ns, expanded@, n as int);
        assert forall|a: int| k.len() <= a < rv.len() implies #[trigger] rv[a] == overflow_node(
            rv[a].level,
            (level_count(ns, rv[a].level, ns.len() as int) - 14) as nat,
        ) && cut_level(ns, expanded@, rv[a].level) by {
            assert(out@[klen + (a - klen)]@ == rv[a]);
        }
        assert forall|a: int, b: int| k.len() <= a < b < rv.len() implies rv[a].level < rv[b].level by {
            assert(out@[klen + (a - klen)]@ == rv[a]);
            assert(out@[klen + (b - klen)]@ == rv[b]);
        }
        assert forall|i: int| 0 <= i < ns.len() && cut_level(ns, expanded@, ns[i].level) implies exists|a: int|
            k.len() <= a < rv.len() && #[trigger] rv[a].level == ns[i].level by {
            let a0 = choose|a: int| 0 <= a < cut_levels.len() && #[trigger] cut_levels@[a].0 as int == ns[i].level;
            assert(out@[klen + a0]@ == rv[klen + a0]);
        }
    }
    out
}

proof fn lemma_all_kept(ns: Seq<NodeV>, expanded: Set<i32>, n: int)
    requires
        0 <= n <= ns.len(),
        forall|k: int| 0 <= k < ns.len() ==> kept(ns, expanded, k),
    ensures
        kept_nodes(ns, expanded, n) == ns.take(n),
    decreases n,
{
    if n > 0 {
        lemma_all_kept(ns, expanded, n - 1);
        assert(ns.take(n) =~= ns.take(n - 1).push(ns[n - 1]));
    } else {
        assert(ns.take(0) =~= Seq::<NodeV>::empty());
    }
}

proof fn lemma_node_lt_facts(a: NodeV, b: NodeV, c: NodeV)
    ensures
        !node_lt(a, a),
        node_lt(a, b) ==> !node_lt(b, a),
        node_lt(a, b) && node_lt(b, c) ==> node_lt(a, c),
        !node_lt(a, b) && !node_lt(b, a) ==> a.is_import == b.is_import && a.label == b.label,
{
    lemma_lex_irreflexive(a.label);
    if lex_lt(a.label, b.label) {
        lemma_lex_asymmetric(a.label, b.label);
    }
    if lex_lt(a.label, b.label) && lex_lt(b.label, c.label) {
        lemma_lex_transitive(a.label, b.label, c.label);
    }
    if a.label != b.label {
        lemma_lex_total(a.label, b.label);
    }
}

/// The order within a column is a strict total order on positions.
proof fn lemma_column_order(ns: Seq<NodeV>, a: int, b: int, c: int)
    requires
        0 <= a < ns.len(),
        0 <= b < ns.len(),
        0 <= c < ns.len(),
    ensures
        !column_before(ns, a, a),
        a != b ==> column_before(ns, a, b) || column_before(ns, b, a),
        column_before(ns, a, b) && column_before(ns, b, c) ==> column_before(ns, a, c),
{
    lemma_node_lt_facts(ns[a], ns[b], ns[c]);
    lemma_node_lt_facts(ns[b], ns[c], ns[a]);
    lemma_node_lt_facts(ns[c], ns[a], ns[b]);
    lemma_node_lt_facts(ns[a], ns[c], ns[b]);
    lemma_node_lt_facts(ns[b], ns[a], ns[c]);
    lemma_node_lt_facts(ns[c], ns[b], ns[a]);
}

/// A node placed before another in its column has a smaller rank.
proof fn lemma_rank_before(ns: Seq<NodeV>, i: int, j: int, n: int)
    requires
        0 <= i < ns.len(),
        0 <= j < ns.len(),
        0 <= n <= ns.len(),
        ns[i].level == ns[j].level,
        column_before(ns, j, i),
    ensures
        rank_in(ns, j, n) + (if j < n {
            1int
        } else {
            0int
        }) <= rank_in(ns, i, n),
    decreases n,
{
    if n > 0 {
        lemma_rank_before(ns, i, j, n - 1);
        lemma_column_order(ns, n - 1, j, i);
    }
}

/// The nodes of level `l` among the first `n` that survive trimming.
pub open spec fn kept_count(ns: Seq<NodeV>, expanded: Set<i32>, l: int, n: int) -> nat
    decreases n,
{
    if n <= 0 {
        0
    } else {
        kept_count(ns, expanded, l, n - 1) + if ns[n - 1].level == l && kept(ns, expanded, n - 1) {
            1nat
        } else {
            0nat
        }
    }
}

proof fn lemma_level_count_prefix(s: Seq<NodeV>, t: Seq<NodeV>, l: int, n: int)
    requires
        0 <= n <= s.len(),
        n <= t.len(),
        forall|k: int| 0 <= k < n ==> s[k] == t[k],
    ensures
        level_count(s, l, n) == level_count(t, l, n),
    decreases n,
{
    if n > 0 {
        lemma_level_count_prefix(s, t, l, n - 1);
    }
}

proof fn lemma_kept_count(ns: Seq<NodeV>, expanded: Set<i32>, l: int, n: int)
    requires
        0 <= n <= ns.len(),
    ensures
        level_count(kept_nodes(ns, expanded, n), l, kept_nodes(ns, expanded, n).len() as int)
            == kept_count(ns, expanded, l, n),
    decreases n,
{
    if n > 0 {
        lemma_kept_count(ns, expanded, l, n - 1);
        let p = kept_nodes(ns, expanded, n - 1);
        if kept(ns, expanded, n - 1) {
            lemma_level_count_prefix(p.push(ns[n - 1]), p, l, p.len() as int);
        }
    }
}

/// The nodes of a cut level whose rank is under the limit.
pub open spec fn ranked_set(ns: Seq<NodeV>, l: int, n: int) -> Set<int> {
    Set::new(|i: int| 0 <= i < n && ns[i].level == l && rank_in(ns, i, ns.len() as int) < 14)
}

proof fn lemma_ranked_set(ns: Seq<NodeV>, expanded: Set<i32>, l: int, n: int)
    requires
        0 <= n <= ns.len(),
        cut_level(ns, expanded, l),
    ensures
        ranked_set(ns, l, n).finite(),
        ranked_set(ns, l, n).len() == kept_count(ns, expanded, l, n),
    decreases n,
{
    if n == 0 {
        assert(ranked_set(ns, l, n) =~= Set::<int>::empty());
    } else {
        lemma_ranked_set(ns, expanded, l, n - 1);
        let prev = ranked_set(ns, l, n - 1);
        if ns[n - 1].level == l && rank_in(ns, n - 1, ns.len() as int) < 14 {
            assert(ranked_set(ns, l, n) =~= prev.insert(n - 1));
        } else {
            assert(ranked_set(ns, l, n) =~= prev);
        }
    }
}

/// A cut column keeps at most fourteen of its nodes.
proof fn lemma_cut_keeps_fourteen(ns: Seq<NodeV>, expanded: Set<i32>, l: int)
    requires
        cut_level(ns, expanded, l),
    ensures
        kept_count(ns, expanded, l, ns.len() as int) <= 14,
{
    let n = ns.len() as int;
    lemma_ranked_set(ns, expanded, l, n);
    let s = ranked_set(ns, l, n);
    let f = |i: int| rank_in(ns, i, n) as int;
    assert(vstd::relations::injective_on(f, s)) by {
        assert forall|x: int, y: int| s.contains(x) && s.contains(y) && #[trigger] f(x) == #[trigger] f(
            y,
        ) implies x == y by {
            if x != y {
                lemma_column_order(ns, x, y, y);
                if column_before(ns, x, y) {
                    lemma_rank_before(ns, y, x, n);
                } else {
                    lemma_rank_before(ns, x, y, n);
                }
            }
        }
    }
    vstd::set_lib::lemma_map_size(s, s.map(f), f);
    vstd::set_lib::lemma_int_range(0, 14);
    assert(s.map(f).subset_of(vstd::set_lib::set_int_range(0, 14)));
    vstd::set_lib::lemma_len_subset(s.map(f), vstd::set_lib::set_int_range(0, 14));
}

proof fn lemma_stand_ins_once(r: Seq<NodeV>, k: int, l: int, n: int)
    requires
        0 <= k <= n <= r.len(),
        forall|a: int, b: int| k <= a < b < r.len() ==> r[a].level < r[b].level,
    ensures
        level_count(r, l, n) == level_count(r, l, k) + if exists|a: int|
            k <= a < n && #[trigger] r[a].level == l {
            1int
        } else {
            0int
        },
    decreases n - k,
{
    if n > k {
        lemma_stand_ins_once(r, k, l, n - 1);
        if r[n - 1].level == l {
            assert(!exists|a: int| k <= a < n - 1 && #[trigger] r[a].level == l);
        }
    }
}

/// After trimming, a crowded column holds at most fourteen of its nodes and
/// one stand-in for the rest; every other column is left whole.
pub proof fn lemma_trimmed_columns_fit(ns: Seq<NodeV>, expanded: Set<i32>, r: Seq<NodeV>, l: int)
    requires
        is_trimmed(ns, expanded, r),
    ensures
        cut_level(ns, expanded, l) ==> level_count(r, l, r.len() as int) <= MAX_PER_LEVEL + 1,
        !cut_level(ns, expanded, l) ==> level_count(r, l, r.len() as int) == level_count(
            ns,
            l,
            ns.len() as int,
        ),
{
    let k = kept_nodes(ns, expanded, ns.len() as int);
    let kl = k.len() as int;
    lemma_stand_ins_once(r, kl, l, r.len() as int);
    lemma_level_count_prefix(r, k, l, kl);
    lemma_kept_count(ns, expanded, l, ns.len() as int);
    if cut_level(ns, expanded, l) {
        lemma_cut_keeps_fourteen(ns, expanded, l);
    } else {
        lemma_uncut_all_kept(ns, expanded, l, ns.len() as int);
        if exists|a: int| kl <= a < r.len() && #[trigger] r[a].level == l {
            let a = choose|a: int| kl <= a < r.len() && #[trigger] r[a].level == l;
            assert(r[a] == overflow_node(r[a].level, (level_count(ns, r[a].level, ns.len() as int) - 14) as nat));
        }
    }
}

proof fn lemma_uncut_all_kept(ns: Seq<NodeV>, expanded: Set<i32>, l: int, n: int)
    requires
        0 <= n <= ns.len(),
        !cut_level(ns, expanded, l),
    ensures
        kept_count(ns, expanded, l, n) == level_count(ns, l, n),
    decreases n,
{
    if n > 0 {
        lemma_uncut_all_kept(ns, expanded, l, n - 1);
    }
}

/// No two nodes share a key.
pub open spec fn keys_distinct(ns: Seq<NodeV>) -> bool {
    forall|i: int, j: int| 0 <= i < j < ns.len() ==> (#[trigger] ns[i]).key != (#[trigger] ns[j]).key
}

/// `new` keeps `old` as it is and adds, after it, only nodes that are not
/// the root and whose levels lie in `lo..=hi`.
pub open spec fn extends_at(old: Seq<NodeV>, new: Seq<NodeV>, lo: int, hi: int) -> bool {
    &&& new.len() >= old.len()
    &&& forall|i: int| 0 <= i < old.len() ==> #[trigger] new[i] == old[i]
    &&& forall|i: int|
        old.len() <= i < new.len() ==> lo <= (#[trigger] new[i]).level <= hi && !new[i].is_root
}

proof fn lemma_extends_trans(a: Seq<NodeV>, b: Seq<NodeV>, c: Seq<NodeV>, lo: int, hi: int)
    requires
        extends_at(a, b, lo, hi),
        extends_at(b, c, lo, hi),
    ensures
        extends_at(a, c, lo, hi),
{
    assert forall|i: int| 0 <= i < a.len() implies #[trigger] c[i] == a[i] by {
        assert(c[i] == b[i]);
    }
    assert forall|i: int| a.len() <= i < c.len() implies lo <= (#[trigger] c[i]).level <= hi
        && !c[i].is_root by {
        if i < b.len() {
            assert(c[i] == b[i]);
        }
    }
}

proof fn lemma_push_fresh(ns: Seq<NodeV>, n: NodeV)
    requires
        keys_distinct(ns),
        !has_key(ns, n.key),
    ensures
        keys_distinct(ns.push(n)),
{
    let m = ns.push(n);
    assert forall|i: int, j: int| 0 <= i < j < m.len() implies (#[trigger] m[i]).key != (
    #[trigger] m[j]).key by {
        assert(m[i] == ns[i]);
        if j < ns.len() {
            assert(m[j] == ns[j]);
        }
    }
}

proof fn lemma_visit_calls_shape(
    g: Seq<GraphFnV>,
    nodes: Seq<NodeV>,
    next: Seq<int>,
    calls: Seq<usize>,
    level: int,
    j: int,
)
    requires
        keys_distinct(nodes),
        0 <= j,
    ensures
        keys_distinct(visit_calls(g, nodes, next, calls, level, j).0),
        extends_at(nodes, visit_calls(g, nodes, next, calls, level, j).0, level, level),
    decreases calls.len() - j,
{
    if j < calls.len() {
        let n = fn_node(g, calls[j] as int, level, false);
        if has_key(nodes, n.key) {
            lemma_visit_calls_shape(g, nodes, next, calls, level, j + 1);
        } else {
            lemma_push_fresh(nodes, n);
            lemma_visit_calls_shape(g, nodes.push(n), next.push(calls[j] as int), calls, level, j + 1);
            lemma_extends_trans(
                nodes,
                nodes.push(n),
                visit_calls(g, nodes, next, calls, level, j).0,
                level,
                level,
            );
        }
    }
}

proof fn lemma_visit_imports_shape(nodes: Seq<NodeV>, names: Seq<Seq<char>>, level: int, j: int)
    requires
        keys_distinct(nodes),
        0 <= j,
    ensures
        keys_distinct(visit_imports(nodes, names, level, j)),
        extends_at(nodes, visit_imports(nodes, names, level, j), level, level),
    decreases names.len() - j,
{
    if j < names.len() {
        let n = import_node(names[j], level);
        let m = add_node(nodes, n);
        if !has_key(nodes, n.key) {
            lemma_push_fresh(nodes, n);
        }
        assert(extends_at(nodes, m, level, level));
        lemma_visit_imports_shape(m, names, level, j + 1);
        lemma_extends_trans(nodes, m, visit_imports(nodes, names, level, j), level, level);
    }
}

proof fn lemma_visit_front_shape(
    g: Seq<GraphFnV>,
    nodes: Seq<NodeV>,
    next: Seq<int>,
    front: Seq<int>,
    k: int,
    level: int,
    callers: bool,
    show_imports: bool,
)
    requires
        keys_distinct(nodes),
        0 <= k,
    ensures
        keys_distinct(visit_front(g, nodes, next, front, k, level, callers, show_imports).0),
        extends_at(
            nodes,
            visit_front(g, nodes, next, front, k, level, callers, show_imports).0,
            if callers {
                -level
            } else {
                level
            },
            if callers {
                -level
            } else {
                level
            },
        ),
    decreases front.len() - k,
{
    let l = if callers {
        -level
    } else {
        level
    };
    if k < front.len() {
        let f = g[front[k]];
        if callers {
            let (n1, x1) = visit_calls(g, nodes, next, f.callers, -level, 0);
            lemma_visit_calls_shape(g, nodes, next, f.callers, -level, 0);
            lemma_visit_front_shape(g, n1, x1, front, k + 1, level, callers, show_imports);
            lemma_extends_trans(
                nodes,
                n1,
                visit_front(g, nodes, next, front, k, level, callers, show_imports).0,
                l,
                l,
            );
        } else {
            let (n1, x1) = visit_calls(g, nodes, next, f.callees, level, 0);
            lemma_visit_calls_shape(g, nodes, next, f.callees, level, 0);
            let n2 = if show_imports {
                visit_imports(n1, f.imports, level, 0)
            } else {
                n1
            };
            if show_imports {
                lemma_visit_imports_shape(n1, f.imports, level, 0);
                lemma_extends_trans(nodes, n1, n2, l, l);
            }
            lemma_visit_front_shape(g, n2, x1, front, k + 1, level, callers, show_imports);
            lemma_extends_trans(
                nodes,
                n2,
                visit_front(g, nodes, next, front, k, level, callers, show_imports).0,
                l,
                l,
            );
        }
    }
}

proof fn lemma_widen(a: Seq<NodeV>, b: Seq<NodeV>, lo: int, hi: int, lo2: int, hi2: int)
    requires
        extends_at(a, b, lo, hi),
        lo2 <= lo,
        hi <= hi2,
    ensures
        extends_at(a, b, lo2, hi2),
{
}

proof fn lemma_grow_shape(
    g: Seq<GraphFnV>,
    nodes: Seq<NodeV>,
    front: Seq<int>,
    level: int,
    depth: int,
    callers: bool,
    show_imports: bool,
)
    requires
        keys_distinct(nodes),
        1 <= level,
    ensures
        keys_distinct(grow(g, nodes, front, level, depth, callers, show_imports)),
        callers ==> extends_at(nodes, grow(g, nodes, front, level, depth, callers, show_imports), -depth, -level),
        !callers ==> extends_at(nodes, grow(g, nodes, front, level, depth, callers, show_imports), level, depth),
    decreases depth - level + 1,
{
    if level <= depth {
        let (n1, next) = visit_front(g, nodes, Seq::empty(), front, 0, level, callers, show_imports);
        lemma_visit_front_shape(g, nodes, Seq::empty(), front, 0, level, callers, show_imports);
        let r = grow(g, nodes, front, level, depth, callers, show_imports);
        if callers {
            lemma_widen(nodes, n1, -level, -level, -depth, -level);
        } else {
            lemma_widen(nodes, n1, level, level, level, depth);
        }
        if next.len() != 0 {
            lemma_grow_shape(g, n1, next, level + 1, depth, callers, show_imports);
            if callers {
                lemma_widen(n1, r, -depth, -(level + 1), -depth, -level);
                lemma_extends_trans(nodes, n1, r, -depth, -level);
            } else {
                lemma_widen(n1, r, level + 1, depth, level, depth);
                lemma_extends_trans(nodes, n1, r, level, depth);
            }
        }
    }
}

/// The graph around a function: it sits alone at level 0, every other node
/// appears once (a function reached two ways is drawn once), callees to
/// the right at levels `1..=depth` and callers to the left at
/// `-depth..=-1`.
pub proof fn lemma_layout_shape(
    g: Seq<GraphFnV>,
    root: int,
    depth: int,
    dir: GraphDir,
    show_imports: bool,
)
    ensures
        keys_distinct(layout_nodes(g, root, depth, dir, show_imports)),
        layout_nodes(g, root, depth, dir, show_imports)[0] == fn_node(g, root, 0, true),
        forall|i: int|
            1 <= i < layout_nodes(g, root, depth, dir, show_imports).len() ==> {
                let n = #[trigger] layout_nodes(g, root, depth, dir, show_imports)[i];
                &&& !n.is_root
                &&& (1 <= n.level <= depth && dir != GraphDir::Callers) || (-depth <= n.level <= -1
                    && dir != GraphDir::Callees)
            },
{
    let n0 = seq![fn_node(g, root, 0, true)];
    assert(keys_distinct(n0));
    let callees = dir == GraphDir::Callees || dir == GraphDir::Both;
    let callers = dir == GraphDir::Callers || dir == GraphDir::Both;
    let n1 = if callees {
        grow(g, n0, seq![root], 1, depth, false, show_imports)
    } else {
        n0
    };
    if callees {
        lemma_grow_shape(g, n0, seq![root], 1, depth, false, show_imports);
    }
    assert(extends_at(n0, n1, 1, depth));
    let n2 = layout_nodes(g, root, depth, dir, show_imports);
    if callers {
        lemma_grow_shape(g, n1, seq![root], 1, depth, true, show_imports);
    }
    assert(extends_at(n1, n2, -depth, -1));
    assert(n2[0] == n1[0]);
    assert forall|i: int| 1 <= i < n2.len() implies {
        let n = #[trigger] n2[i];
        &&& !n.is_root
        &&& (1 <= n.level <= depth && dir != GraphDir::Callers) || (-depth <= n.level <= -1
            && dir != GraphDir::Callees)
    } by {
        if i < n1.len() {
            assert(n2[i] == n1[i]);
        }
    }
}


/// No two functions of the list share an address.
pub open spec fn addrs_distinct(g: Seq<GraphFnV>) -> bool {
    forall|i: int, j: int| 0 <= i < j < g.len() ==> (#[trigger] g[i]).addr != (#[trigger] g[j]).addr
}

/// The functions one call away from function `i`: those it calls, or,
/// looking at callers, those that call it.
pub open spec fn neighbours(g: Seq<GraphFnV>, i: int, callers: bool) -> Seq<usize> {
    if callers {
        g[i].callers
    } else {
        g[i].callees
    }
}

/// Whether `calls[j..]` names function `i`.
pub open spec fn lists_from(calls: Seq<usize>, j: int, i: int) -> bool {
    exists|x: int| j <= x < calls.len() && #[trigger] calls[x] as int == i
}

/// Whether function `j` calls function `i`, or, with `callers`, is called
/// by it.
pub open spec fn calls_into(g: Seq<GraphFnV>, callers: bool, j: int, i: int) -> bool {
    lists_from(neighbours(g, j, callers), 0, i)
}

/// Whether function `i` is at most `n` calls away from `root`, following
/// calls outwards, or, with `callers`, inwards.
pub open spec fn within_calls(g: Seq<GraphFnV>, root: int, callers: bool, n: nat, i: int) -> bool
    decreases n,
{
    if n == 0 {
        i == root
    } else {
        within_calls(g, root, callers, (n - 1) as nat, i) || (0 <= i < g.len() && exists|j: int|
            0 <= j < g.len() && within_calls(g, root, callers, (n - 1) as nat, j) && #[trigger] calls_into(
                g,
                callers,
                j,
                i,
            ))
    }
}

/// Whether the shortest chain of calls between `root` and function `i` is
/// `n` calls long.
pub open spec fn call_distance_is(g: Seq<GraphFnV>, root: int, callers: bool, n: nat, i: int) -> bool {
    within_calls(g, root, callers, n, i) && (n == 0 || !within_calls(g, root, callers, (n - 1) as nat, i))
}

/// Whether function `i` has a node among `ns`.
pub open spec fn shows_fn(ns: Seq<NodeV>, g: Seq<GraphFnV>, i: int) -> bool {
    has_key(ns, fn_key_text(g[i].addr))
}

/// Every node of a function sits at the level of its call distance from
/// `root` (negative for callers), no further out than `top`, and is that
/// function's node; only the root's is marked as the root.
pub open spec fn fn_nodes_placed(
    g: Seq<GraphFnV>,
    root: int,
    callers: bool,
    ns: Seq<NodeV>,
    top: int,
) -> bool {
    forall|k: int, i: int|
        #![trigger ns[k].key, fn_key_text(g[i].addr)]
        0 <= k < ns.len() && 0 <= i < g.len() && ns[k].key == fn_key_text(g[i].addr) ==> {
            let d = if callers {
                -ns[k].level
            } else {
                ns[k].level
            };
            &&& 0 <= d <= top
            &&& call_distance_is(g, root, callers, d as nat, i)
            &&& ns[k] == fn_node(g, i, ns[k].level, d == 0)
        }
}

/// The nodes of `ns` from position `lo` on that belong to a function are
/// that function's node at `level`.
spec fn fn_nodes_at(g: Seq<GraphFnV>, ns: Seq<NodeV>, lo: int, level: int) -> bool {
    forall|k: int, i: int|
        #![trigger ns[k].key, fn_key_text(g[i].addr)]
        lo <= k < ns.len() && 0 <= i < g.len() && ns[k].key == fn_key_text(g[i].addr) ==> ns[k]
            == fn_node(g, i, level, false)
}

proof fn lemma_fn_key_injective(a: Addr, b: Addr)
    requires
        fn_key_text(a) == fn_key_text(b),
    ensures
        a == b,
{
    reveal_strlit("f");
    reveal_strlit("seg");
    let ta = decimal_padded(a.segment as nat, 2) + ":"@ + hex_padded(a.offset as nat, 4);
    let tb = decimal_padded(b.segment as nat, 2) + ":"@ + hex_padded(b.offset as nat, 4);
    assert(fn_key_text(a) =~= "f"@ + ta);
    assert(fn_key_text(b) =~= "f"@ + tb);
    assert(ta =~= fn_key_text(a).subrange(1, fn_key_text(a).len() as int));
    assert(tb =~= fn_key_text(b).subrange(1, fn_key_text(b).len() as int));
    assert(address_text(a) =~= "seg"@ + ta);
    assert(address_text(b) =~= "seg"@ + tb);
    lemma_address_round_trip(a, NavV::Overview, Seq::empty());
    lemma_address_round_trip(b, NavV::Overview, Seq::empty());
}

proof fn lemma_same_fn(g: Seq<GraphFnV>, i: int, j: int)
    requires
        addrs_distinct(g),
        0 <= i < g.len(),
        0 <= j < g.len(),
        fn_key_text(g[i].addr) == fn_key_text(g[j].addr),
    ensures
        i == j,
{
    lemma_fn_key_injective(g[i].addr, g[j].addr);
    if i < j {
        assert(g[i].addr != g[j].addr);
    } else if j < i {
        assert(g[j].addr != g[i].addr);
    }
}

proof fn lemma_import_key_not_fn(name: Seq<char>, a: Addr)
    ensures
        "i"@ + name != fn_key_text(a),
{
    reveal_strlit("i");
    reveal_strlit("f");
    assert(("i"@ + name)[0] == 'i');
    assert(fn_key_text(a)[0] == 'f');
}

proof fn lemma_has_key_push(ns: Seq<NodeV>, n: NodeV, k: Seq<char>)
    ensures
        has_key(ns.push(n), k) == (has_key(ns, k) || n.key == k),
{
    let m = ns.push(n);
    if has_key(ns, k) {
        let p = choose|p: int| 0 <= p < ns.len() && #[trigger] ns[p].key == k;
        assert(m[p] == ns[p]);
    }
    if n.key == k {
        assert(m[ns.len() as int] == n);
    }
    if has_key(m, k) {
        let p = choose|p: int| 0 <= p < m.len() && #[trigger] m[p].key == k;
        if p < ns.len() {
            assert(m[p] == ns[p]);
        }
    }
}

proof fn lemma_lists_from_step(calls: Seq<usize>, j: int, i: int)
    requires
        0 <= j < calls.len(),
    ensures
        lists_from(calls, j, i) == (calls[j] as int == i || lists_from(calls, j + 1, i)),
{
    if lists_from(calls, j, i) {
        let x = choose|x: int| j <= x < calls.len() && #[trigger] calls[x] as int == i;
        if x != j {
            assert(j + 1 <= x < calls.len() && calls[x] as int == i);
        }
    }
    if lists_from(calls, j + 1, i) {
        let x = choose|x: int| j + 1 <= x < calls.len() && #[trigger] calls[x] as int == i;
        assert(j <= x < calls.len() && calls[x] as int == i);
    }
    if calls[j] as int == i {
        assert(j <= j < calls.len() && calls[j] as int == i);
    }
}

proof fn lemma_push_contains(s: Seq<int>, c: int, i: int)
    ensures
        s.push(c).contains(i) == (s.contains(i) || c == i),
{
    let t = s.push(c);
    if t.contains(i) {
        let x = choose|x: int| 0 <= x < t.len() && t[x] == i;
        if x < s.len() {
            assert(t[x] == s[x]);
        }
    }
    if s.contains(i) {
        let x = choose|x: int| 0 <= x < s.len() && s[x] == i;
        assert(t[x] == s[x]);
    }
    if c == i {
        assert(t[s.len() as int] == c);
    }
}

proof fn lemma_visit_calls_reach(
    g: Seq<GraphFnV>,
    nodes: Seq<NodeV>,
    next: Seq<int>,
    calls: Seq<usize>,
    level: int,
    j: int,
)
    requires
        addrs_distinct(g),
        keys_distinct(nodes),
        0 <= j,
        forall|x: int| 0 <= x < calls.len() ==> #[trigger] calls[x] < g.len(),
        forall|x: int| 0 <= x < next.len() ==> 0 <= #[trigger] next[x] < g.len(),
    ensures
        ({
            let (n2, x2) = visit_calls(g, nodes, next, calls, level, j);
            &&& forall|i: int|
                0 <= i < g.len() ==> (#[trigger] shows_fn(n2, g, i) <==> (shows_fn(nodes, g, i)
                    || lists_from(calls, j, i)))
            &&& forall|i: int|
                0 <= i < g.len() ==> (#[trigger] x2.contains(i) <==> (next.contains(i) || (!shows_fn(
                    nodes,
                    g,
                    i,
                ) && lists_from(calls, j, i))))
            &&& forall|x: int| 0 <= x < x2.len() ==> 0 <= #[trigger] x2[x] < g.len()
            &&& fn_nodes_at(g, n2, nodes.len() as int, level)
        }),
    decreases calls.len() - j,
{
    let (n2, x2) = visit_calls(g, nodes, next, calls, level, j);
    if j >= calls.len() {
        return ;
    }
    let c = calls[j] as int;
    let n = fn_node(g, c, level, false);
    assert forall|i: int| #![auto] lists_from(calls, j, i) == (c == i || lists_from(calls, j + 1, i)) by {
        lemma_lists_from_step(calls, j, i);
    }
    if has_key(nodes, n.key) {
        lemma_visit_calls_reach(g, nodes, next, calls, level, j + 1);
        assert(shows_fn(nodes, g, c));
    } else {
        let nodes2 = nodes.push(n);
        let next2 = next.push(c);
        lemma_push_fresh(nodes, n);
        lemma_visit_calls_reach(g, nodes2, next2, calls, level, j + 1);
        lemma_visit_calls_shape(g, nodes2, next2, calls, level, j + 1);
        assert forall|i: int| 0 <= i < g.len() implies #[trigger] shows_fn(nodes2, g, i) == (shows_fn(
            nodes,
            g,
            i,
        ) || i == c) by {
            lemma_has_key_push(nodes, n, fn_key_text(g[i].addr));
            if n.key == fn_key_text(g[i].addr) {
                lemma_same_fn(g, c, i);
            }
        }
        assert forall|i: int| #![auto] next2.contains(i) == (next.contains(i) || c == i) by {
            lemma_push_contains(next, c, i);
        }
        assert forall|x: int| 0 <= x < next2.len() implies 0 <= #[trigger] next2[x] < g.len() by {
            if x < next.len() {
                assert(next2[x] == next[x]);
            }
        }
        assert forall|k: int, i: int|
            #![trigger n2[k].key, fn_key_text(g[i].addr)]
            nodes.len() <= k < n2.len() && 0 <= i < g.len() && n2[k].key == fn_key_text(
                g[i].addr,
            ) implies n2[k] == fn_node(g, i, level, false) by {
            if k == nodes.len() {
                assert(n2[k] == nodes2[k]);
                lemma_same_fn(g, c, i);
            }
        }
    }
}

proof fn lemma_visit_imports_reach(
    g: Seq<GraphFnV>,
    nodes: Seq<NodeV>,
    names: Seq<Seq<char>>,
    level: int,
    j: int,
)
    requires
        keys_distinct(nodes),
        0 <= j,
    ensures
        forall|i: int|
            0 <= i < g.len() ==> #[trigger] shows_fn(visit_imports(nodes, names, level, j), g, i)
                == shows_fn(nodes, g, i),
        fn_nodes_at(g, visit_imports(nodes, names, level, j), nodes.len() as int, level),
    decreases names.len() - j,
{
    let r = visit_imports(nodes, names, level, j);
    if j < names.len() {
        let n = import_node(names[j], level);
        let m = add_node(nodes, n);
        if !has_key(nodes, n.key) {
            lemma_push_fresh(nodes, n);
        }
        lemma_visit_imports_reach(g, m, names, level, j + 1);
        lemma_visit_imports_shape(m, names, level, j + 1);
        assert forall|i: int| 0 <= i < g.len() implies #[trigger] shows_fn(m, g, i) == shows_fn(
            nodes,
            g,
            i,
        ) by {
            lemma_import_key_not_fn(names[j], g[i].addr);
            if !has_key(nodes, n.key) {
                lemma_has_key_push(nodes, n, fn_key_text(g[i].addr));
            }
        }
        assert forall|k: int, i: int|
            #![trigger r[k].key, fn_key_text(g[i].addr)]
            nodes.len() <= k < r.len() && 0 <= i < g.len() && r[k].key == fn_key_text(
                g[i].addr,
            ) implies r[k] == fn_node(g, i, level, false) by {
            if k < m.len() {
                assert(r[k] == m[k]);
                lemma_import_key_not_fn(names[j], g[i].addr);
            }
        }
    }
}

/// Whether a function of `front[k..]` has function `i` as a neighbour.
pub open spec fn front_lists(g: Seq<GraphFnV>, front: Seq<int>, k: int, callers: bool, i: int) -> bool {
    exists|x: int| k <= x < front.len() && lists_from(neighbours(g, #[trigger] front[x], callers), 0, i)
}

proof fn lemma_front_lists_step(g: Seq<GraphFnV>, front: Seq<int>, k: int, callers: bool, i: int)
    requires
        0 <= k < front.len(),
    ensures
        front_lists(g, front, k, callers, i) == (lists_from(neighbours(g, front[k], callers), 0, i)
            || front_lists(g, front, k + 1, callers, i)),
{
    if front_lists(g, front, k, callers, i) {
        let x = choose|x: int|
            k <= x < front.len() && lists_from(neighbours(g, #[trigger] front[x], callers), 0, i);
        if x != k {
            assert(k + 1 <= x < front.len() && lists_from(neighbours(g, front[x], callers), 0, i));
        }
    }
    if front_lists(g, front, k + 1, callers, i) {
        let x = choose|x: int|
            k + 1 <= x < front.len() && lists_from(neighbours(g, #[trigger] front[x], callers), 0, i);
        assert(k <= x < front.len() && lists_from(neighbours(g, front[x], callers), 0, i));
    }
    if lists_from(neighbours(g, front[k], callers), 0, i) {
        assert(k <= k < front.len() && lists_from(neighbours(g, front[k], callers), 0, i));
    }
}

proof fn lemma_visit_front_reach(
    g: Seq<GraphFnV>,
    nodes: Seq<NodeV>,
    next: Seq<int>,
    front: Seq<int>,
    k: int,
    level: int,
    callers: bool,
    show_imports: bool,
)
    requires
        graph_ok(g),
        addrs_distinct(g),
        keys_distinct(nodes),
        0 <= k,
        forall|x: int| 0 <= x < front.len() ==> 0 <= #[trigger] front[x] < g.len(),
        forall|x: int| 0 <= x < next.len() ==> 0 <= #[trigger] next[x] < g.len(),
    ensures
        ({
            let (n2, x2) = visit_front(g, nodes, next, front, k, level, callers, show_imports);
            &&& forall|i: int|
                0 <= i < g.len() ==> (#[trigger] shows_fn(n2, g, i) <==> (shows_fn(nodes, g, i)
                    || front_lists(g, front, k, callers, i)))
            &&& forall|i: int|
                0 <= i < g.len() ==> (#[trigger] x2.contains(i) <==> (next.contains(i) || (!shows_fn(
                    nodes,
                    g,
                    i,
                ) && front_lists(g, front, k, callers, i))))
            &&& forall|x: int| 0 <= x < x2.len() ==> 0 <= #[trigger] x2[x] < g.len()
            &&& fn_nodes_at(
                g,
                n2,
                nodes.len() as int,
                if callers {
                    -level
                } else {
                    level
                },
            )
        }),
    decreases front.len() - k,
{
    let l = if callers {
        -level
    } else {
        level
    };
    let (r, rx) = visit_front(g, nodes, next, front, k, level, callers, show_imports);
    if k >= front.len() {
        return ;
    }
    let f = g[front[k]];
    let calls = neighbours(g, front[k], callers);
    assert forall|x: int| 0 <= x < calls.len() implies #[trigger] calls[x] < g.len() by {
        assert(f == g[front[k]]);
    }
    assert forall|i: int| #![auto]
        front_lists(g, front, k, callers, i) == (lists_from(calls, 0, i) || front_lists(
            g,
            front,
            k + 1,
            callers,
            i,
        )) by {
        lemma_front_lists_step(g, front, k, callers, i);
    }
    let (n1, x1) = visit_calls(g, nodes, next, calls, l, 0);
    lemma_visit_calls_reach(g, nodes, next, calls, l, 0);
    lemma_visit_calls_shape(g, nodes, next, calls, l, 0);
    let n2 = if !callers && show_imports {
        visit_imports(n1, f.imports, level, 0)
    } else {
        n1
    };
    if !callers && show_imports {
        lemma_visit_imports_reach(g, n1, f.imports, level, 0);
        lemma_visit_imports_shape(n1, f.imports, level, 0);
    }
    assert(visit_front(g, nodes, next, front, k, level, callers, show_imports) == visit_front(
        g,
        n2,
        x1,
        front,
        k + 1,
        level,
        callers,
        show_imports,
    ));
    lemma_visit_front_reach(g, n2, x1, front, k + 1, level, callers, show_imports);
    lemma_visit_front_shape(g, n2, x1, front, k + 1, level, callers, show_imports);
    assert forall|i: int| 0 <= i < g.len() implies #[trigger] shows_fn(n2, g, i) == shows_fn(
        n1,
        g,
        i,
    ) by {}
    assert forall|k2: int, i: int|
        #![trigger r[k2].key, fn_key_text(g[i].addr)]
        nodes.len() <= k2 < r.len() && 0 <= i < g.len() && r[k2].key == fn_key_text(
            g[i].addr,
        ) implies r[k2] == fn_node(g, i, l, false) by {
        if k2 < n2.len() {
            assert(r[k2] == n2[k2]);
            if k2 < n1.len() {
                assert(n2[k2] == n1[k2]);
            }
        }
    }
}

proof fn lemma_within_next(g: Seq<GraphFnV>, root: int, callers: bool, n: nat, j: int, i: int)
    requires
        n >= 1,
        0 <= i < g.len(),
        0 <= j < g.len(),
        within_calls(g, root, callers, (n - 1) as nat, j),
        lists_from(neighbours(g, j, callers), 0, i),
    ensures
        within_calls(g, root, callers, n, i),
{
    assert(calls_into(g, callers, j, i));
}

proof fn lemma_within_prev(g: Seq<GraphFnV>, root: int, callers: bool, n: nat, i: int) -> (j: int)
    requires
        n >= 1,
        within_calls(g, root, callers, n, i),
        !within_calls(g, root, callers, (n - 1) as nat, i),
    ensures
        0 <= j < g.len(),
        within_calls(g, root, callers, (n - 1) as nat, j),
        lists_from(neighbours(g, j, callers), 0, i),
{
    choose|j: int|
        0 <= j < g.len() && within_calls(g, root, callers, (n - 1) as nat, j) && #[trigger] calls_into(
            g,
            callers,
            j,
            i,
        )
}

proof fn lemma_within_step(g: Seq<GraphFnV>, root: int, callers: bool, n: nat, front: Seq<int>)
    requires
        n >= 1,
        0 <= root < g.len(),
        forall|x: int| 0 <= x < front.len() ==> 0 <= #[trigger] front[x] < g.len(),
        forall|i: int|
            0 <= i < g.len() ==> (#[trigger] front.contains(i) <==> call_distance_is(
                g,
                root,
                callers,
                (n - 1) as nat,
                i,
            )),
    ensures
        forall|i: int|
            0 <= i < g.len() ==> (#[trigger] within_calls(g, root, callers, n, i) <==> (within_calls(
                g,
                root,
                callers,
                (n - 1) as nat,
                i,
            ) || front_lists(g, front, 0, callers, i))),
{
    let m = (n - 1) as nat;
    assert forall|i: int| 0 <= i < g.len() implies #[trigger] within_calls(g, root, callers, n, i) <==> (
    within_calls(g, root, callers, m, i) || front_lists(g, front, 0, callers, i)) by {
        if within_calls(g, root, callers, n, i) && !within_calls(g, root, callers, m, i) {
            let j = lemma_within_prev(g, root, callers, n, i);
            if call_distance_is(g, root, callers, m, j) {
                assert(front.contains(j));
                let x = choose|x: int| 0 <= x < front.len() && front[x] == j;
                assert(0 <= x < front.len() && lists_from(neighbours(g, front[x], callers), 0, i));
            } else {
                lemma_within_next(g, root, callers, m, j, i);
            }
        }
        if front_lists(g, front, 0, callers, i) {
            let x = choose|x: int|
                0 <= x < front.len() && lists_from(neighbours(g, #[trigger] front[x], callers), 0, i);
            let j = front[x];
            assert(front.contains(j));
            assert(within_calls(g, root, callers, m, j));
            lemma_within_next(g, root, callers, n, j, i);
        }
    }
}

proof fn lemma_within_stable(g: Seq<GraphFnV>, root: int, callers: bool, l: nat, n: nat)
    requires
        l >= 1,
        n >= l - 1,
        forall|i: int|
            0 <= i < g.len() ==> #[trigger] within_calls(g, root, callers, l, i) == within_calls(
                g,
                root,
                callers,
                (l - 1) as nat,
                i,
            ),
    ensures
        forall|i: int|
            0 <= i < g.len() ==> #[trigger] within_calls(g, root, callers, n, i) == within_calls(
                g,
                root,
                callers,
                (l - 1) as nat,
                i,
            ),
    decreases n,
{
    let m = (l - 1) as nat;
    if n > l {
        let p = (n - 1) as nat;
        lemma_within_stable(g, root, callers, l, p);
        assert forall|i: int| 0 <= i < g.len() implies #[trigger] within_calls(g, root, callers, n, i)
            == within_calls(g, root, callers, m, i) by {
            if within_calls(g, root, callers, n, i) && !within_calls(g, root, callers, p, i) {
                let j = lemma_within_prev(g, root, callers, n, i);
                assert(within_calls(g, root, callers, p, j));
                assert(within_calls(g, root, callers, m, j));
                lemma_within_next(g, root, callers, l, j, i);
                assert(within_calls(g, root, callers, l, i));
            }
            if within_calls(g, root, callers, m, i) {
                assert(within_calls(g, root, callers, p, i));
            }
        }
    }
}

spec fn grow_inv(
    g: Seq<GraphFnV>,
    root: int,
    callers: bool,
    nodes: Seq<NodeV>,
    front: Seq<int>,
    level: int,
) -> bool {
    &&& keys_distinct(nodes)
    &&& forall|i: int|
        0 <= i < g.len() ==> (#[trigger] shows_fn(nodes, g, i) <==> within_calls(
            g,
            root,
            callers,
            (level - 1) as nat,
            i,
        ))
    &&& forall|i: int|
        0 <= i < g.len() ==> (#[trigger] front.contains(i) <==> call_distance_is(
            g,
            root,
            callers,
            (level - 1) as nat,
            i,
        ))
    &&& forall|x: int| 0 <= x < front.len() ==> 0 <= #[trigger] front[x] < g.len()
    &&& fn_nodes_placed(g, root, callers, nodes, level - 1)
}

proof fn lemma_grow_reach(
    g: Seq<GraphFnV>,
    root: int,
    nodes: Seq<NodeV>,
    front: Seq<int>,
    level: int,
    depth: int,
    callers: bool,
    show_imports: bool,
)
    requires
        graph_ok(g),
        addrs_distinct(g),
        0 <= root < g.len(),
        1 <= level <= depth + 1,
        grow_inv(g, root, callers, nodes, front, level),
    ensures
        forall|i: int|
            0 <= i < g.len() ==> (#[trigger] shows_fn(
                grow(g, nodes, front, level, depth, callers, show_imports),
                g,
                i,
            ) <==> within_calls(g, root, callers, depth as nat, i)),
        fn_nodes_placed(
            g,
            root,
            callers,
            grow(g, nodes, front, level, depth, callers, show_imports),
            depth,
        ),
    decreases depth - level + 1,
{
    let r = grow(g, nodes, front, level, depth, callers, show_imports);
    if level > depth {
        return ;
    }
    let l = if callers {
        -level
    } else {
        level
    };
    let (n1, next) = visit_front(g, nodes, Seq::empty(), front, 0, level, callers, show_imports);
    lemma_visit_front_reach(g, nodes, Seq::empty(), front, 0, level, callers, show_imports);
    lemma_visit_front_shape(g, nodes, Seq::empty(), front, 0, level, callers, show_imports);
    lemma_within_step(g, root, callers, level as nat, front);
    let m = (level - 1) as nat;
    assert forall|i: int| 0 <= i < g.len() implies #[trigger] shows_fn(n1, g, i) == within_calls(
        g,
        root,
        callers,
        level as nat,
        i,
    ) by {
        assert(within_calls(g, root, callers, level as nat, i) == (within_calls(g, root, callers, m, i)
            || front_lists(g, front, 0, callers, i)));
    }
    assert forall|i: int| 0 <= i < g.len() implies #[trigger] next.contains(i) == call_distance_is(
        g,
        root,
        callers,
        level as nat,
        i,
    ) by {
        assert(!Seq::<int>::empty().contains(i));
        assert(within_calls(g, root, callers, level as nat, i) == (within_calls(g, root, callers, m, i)
            || front_lists(g, front, 0, callers, i)));
        assert(shows_fn(nodes, g, i) == within_calls(g, root, callers, m, i));
    }
    assert forall|k: int, i: int|
        #![trigger n1[k].key, fn_key_text(g[i].addr)]
        0 <= k < n1.len() && 0 <= i < g.len() && n1[k].key == fn_key_text(g[i].addr) implies {
        let d = if callers {
            -n1[k].level
        } else {
            n1[k].level
        };
        &&& 0 <= d <= level
        &&& call_distance_is(g, root, callers, d as nat, i)
        &&& n1[k] == fn_node(g, i, n1[k].level, d == 0)
    } by {
        if k < nodes.len() {
            assert(n1[k] == nodes[k]);
        } else {
            assert(n1[k] == fn_node(g, i, l, false));
            assert(shows_fn(n1, g, i));
            if shows_fn(nodes, g, i) {
                let p = choose|p: int|
                    0 <= p < nodes.len() && #[trigger] nodes[p].key == fn_key_text(g[i].addr);
                assert(n1[p] == nodes[p]);
            }
            assert(call_distance_is(g, root, callers, level as nat, i));
        }
    }
    if next.len() == 0 {
        assert forall|i: int| 0 <= i < g.len() implies #[trigger] within_calls(
            g,
            root,
            callers,
            level as nat,
            i,
        ) == within_calls(g, root, callers, m, i) by {
            if within_calls(g, root, callers, level as nat, i) && !within_calls(g, root, callers, m, i) {
                assert(call_distance_is(g, root, callers, level as nat, i));
                assert(next.contains(i));
            }
        }
        lemma_within_stable(g, root, callers, level as nat, depth as nat);
        assert(r == n1);
    } else {
        assert(grow_inv(g, root, callers, n1, next, level + 1));
        lemma_grow_reach(g, root, n1, next, level + 1, depth, callers, show_imports);
    }
}

/// Each function stands in the graph at its shortest call distance from the
/// root. Looking one way (callees or callers, not both at once), a
/// function has a node exactly when a chain of at most `depth` calls links
/// it to the root, and that node sits at the length `d` of the shortest
/// such chain: level `d` for callees, `-d` for callers. Only the root sits
/// at level 0, and no function has two nodes (`lemma_layout_shape`).
pub proof fn lemma_layout_shortest(
    g: Seq<GraphFnV>,
    root: int,
    depth: int,
    dir: GraphDir,
    show_imports: bool,
)
    requires
        graph_ok(g),
        addrs_distinct(g),
        0 <= root < g.len(),
        0 <= depth,
        dir != GraphDir::Both,
    ensures
        forall|i: int|
            0 <= i < g.len() ==> (#[trigger] shows_fn(layout_nodes(g, root, depth, dir, show_imports), g, i)
                <==> within_calls(g, root, dir == GraphDir::Callers, depth as nat, i)),
        fn_nodes_placed(
            g,
            root,
            dir == GraphDir::Callers,
            layout_nodes(g, root, depth, dir, show_imports),
            depth,
        ),
{
    let callers = dir == GraphDir::Callers;
    let n0 = seq![fn_node(g, root, 0, true)];
    let front = seq![root];
    assert(layout_nodes(g, root, depth, dir, show_imports) == grow(
        g,
        n0,
        front,
        1,
        depth,
        callers,
        show_imports,
    ));
    assert(keys_distinct(n0));
    assert forall|i: int| 0 <= i < g.len() implies #[trigger] shows_fn(n0, g, i) == within_calls(
        g,
        root,
        callers,
        0,
        i,
    ) by {
        if shows_fn(n0, g, i) {
            let p = choose|p: int| 0 <= p < n0.len() && #[trigger] n0[p].key == fn_key_text(g[i].addr);
            lemma_same_fn(g, root, i);
        }
        if i == root {
            assert(n0[0].key == fn_key_text(g[i].addr));
        }
    }
    assert forall|i: int| 0 <= i < g.len() implies #[trigger] front.contains(i) == call_distance_is(
        g,
        root,
        callers,
        0,
        i,
    ) by {
        if i == root {
            assert(front[0] == i);
        }
    }
    assert forall|k: int, i: int|
        #![trigger n0[k].key, fn_key_text(g[i].addr)]
        0 <= k < n0.len() && 0 <= i < g.len() && n0[k].key == fn_key_text(g[i].addr) implies {
        let d = if callers {
            -n0[k].level
        } else {
            n0[k].level
        };
        &&& 0 <= d <= 0
        &&& call_distance_is(g, root, callers, d as nat, i)
        &&& n0[k] == fn_node(g, i, n0[k].level, d == 0)
    } by {
        lemma_same_fn(g, root, i);
    }
    assert(grow_inv(g, root, callers, n0, front, 1));
    lemma_grow_reach(g, root, n0, front, 1, depth, callers, show_imports);
}

} // verus!
