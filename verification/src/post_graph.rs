//! The content relationship graph.
//!
//! One synthetic Root node plus one node per content item, with directed
//! parent-to-child edges, built in two strict phases: every node first,
//! then every edge. Names resolve through the registry; the special
//! parent token `"INDEX"` always stands for Root. After construction the
//! graph is read-only: queries list children and parents sorted by name,
//! and the path enumerator walks every route from Root, tolerating
//! cycles.

use crate::errors::GraphError;
use crate::pg::{
    in_neighbors, out_neighbors, pg_add_edge, pg_add_node, pg_edge_list, pg_edges,
    pg_neighbors_in, pg_neighbors_out, pg_new, pg_node_count, PostDiGraph,
};
use crate::posts::{Category, CategoryValue, Post, PostTypes, PostTypesValue, PostValue};
use crate::registry::{lemma_resolve_is_entry, NameRegistry};
use crate::text::{dec_rep, lemma_map_values_multiset, lex_le, sort_pairs_by_name};
use vstd::prelude::*;
use vstd::string::StringExecFns;

verus! {

/// What a graph node stands for: a content item, or the synthetic Root.
#[derive(Debug)]
pub enum PostNode {
    Node(PostTypes),
    Root,
}

/// The value of a node, with the item's vectors abstracted to sequences.
pub enum PostNodeValue {
    Node(PostTypesValue),
    Root,
}

impl PostNode {
    /// The node's abstract value.
    pub open spec fn dv(self) -> PostNodeValue {
        match self {
            PostNode::Node(item) => PostNodeValue::Node(item.dv()),
            PostNode::Root => PostNodeValue::Root,
        }
    }
}

impl PostNodeValue {
    /// The node's display name: the item's qualified name, or `"Root"`.
    pub open spec fn name(self) -> Seq<char> {
        match self {
            PostNodeValue::Node(item) => item.qname(),
            PostNodeValue::Root => seq!['R', 'o', 'o', 't'],
        }
    }
}

/// The special parent token that always stands for Root.
pub open spec fn spec_index_token() -> Seq<char> {
    seq!['I', 'N', 'D', 'E', 'X']
}

/// What a raw parent reference resolves to against the given registry
/// entries: the `"INDEX"` token is Root, anything else is looked up.
pub open spec fn resolve_parent_in(
    entries: Seq<(Seq<char>, usize)>,
    root: usize,
    p: Seq<char>,
) -> Option<usize> {
    if p == spec_index_token() {
        Some(root)
    } else {
        crate::registry::spec_resolve_in(entries, p)
    }
}

/// The declared parent names that do not resolve, in declaration order.
pub open spec fn missing_parents_in(
    entries: Seq<(Seq<char>, usize)>,
    root: usize,
    parents: Seq<String>,
) -> Seq<String> {
    parents.filter(|p: String| resolve_parent_in(entries, root, p@) is None)
}

/// The edges appended for one child: one per distinct resolved parent,
/// ascending by parent identifier, exactly covering the declared
/// parents' resolutions.
pub open spec fn edge_batch_in(
    entries: Seq<(Seq<char>, usize)>,
    root: usize,
    child: usize,
    parents: Seq<String>,
    batch: Seq<(usize, usize)>,
) -> bool {
    &&& forall|k: int| 0 <= k < batch.len() ==> (#[trigger] batch[k]).1 == child
    &&& forall|i: int, j: int| 0 <= i < j < batch.len() ==> batch[i].0 < batch[j].0
    &&& forall|m: int|
        0 <= m < parents.len() ==> batch.contains(
            ((#[trigger] resolve_parent_in(entries, root, parents[m]@))->Some_0, child),
        )
    &&& forall|k: int|
        0 <= k < batch.len() ==> resolves_some_parent_in(
            entries,
            root,
            parents,
            (#[trigger] batch[k]).0,
        )
}

/// Whether `id` is what one of the declared parents resolves to.
pub open spec fn resolves_some_parent_in(
    entries: Seq<(Seq<char>, usize)>,
    root: usize,
    parents: Seq<String>,
    id: usize,
) -> bool {
    exists|m: int|
        0 <= m < parents.len() && Some(id) == #[trigger] resolve_parent_in(
            entries,
            root,
            parents[m]@,
        )
}

/// The registrations the node phase makes for the given items, item by
/// item, where item `i` is assigned node identifier `base + i`.
pub open spec fn entries_for_items(items: Seq<PostTypes>, base: int) -> Seq<(Seq<char>, usize)>
    decreases items.len(),
{
    if items.len() == 0 {
        Seq::empty()
    } else {
        let id = base as usize;
        items[0].spec_names().map_values(|nm: Seq<char>| (nm, id)) + entries_for_items(
            items.drop_first(),
            base + 1,
        )
    }
}

/// Extending the item list appends that item's block of registrations.
pub proof fn lemma_efi_snoc(items: Seq<PostTypes>, it: PostTypes, base: int)
    ensures
        entries_for_items(items.push(it), base) == entries_for_items(items, base)
            + it.spec_names().map_values(
            |nm: Seq<char>| (nm, ((base + items.len()) as usize)),
        ),
    decreases items.len(),
{
    let id = (base + items.len()) as usize;
    if items.len() == 0 {
        assert(items.push(it)[0] == it);
        assert(items.push(it).drop_first() =~= Seq::<PostTypes>::empty());
        assert(entries_for_items(Seq::<PostTypes>::empty(), base + 1) =~= Seq::<
            (Seq<char>, usize),
        >::empty());
        assert(it.spec_names().map_values(|nm: Seq<char>| (nm, (base as usize)))
            =~= it.spec_names().map_values(|nm: Seq<char>| (nm, id)));
        assert(entries_for_items(items.push(it), base) =~= entries_for_items(items, base)
            + it.spec_names().map_values(|nm: Seq<char>| (nm, id)));
    } else {
        assert(items.push(it)[0] == items[0]);
        assert(items.push(it).drop_first() =~= items.drop_first().push(it));
        lemma_efi_snoc(items.drop_first(), it, base + 1);
        assert(it.spec_names().map_values(
            |nm: Seq<char>| (nm, (((base + 1) + items.drop_first().len()) as usize)),
        ) =~= it.spec_names().map_values(|nm: Seq<char>| (nm, id)));
        assert(entries_for_items(items.push(it), base) =~= entries_for_items(items, base)
            + it.spec_names().map_values(|nm: Seq<char>| (nm, id)));
    }
}

/// A name no item carries is not found among the phase-one
/// registrations.
pub proof fn lemma_efi_resolve_none(items: Seq<PostTypes>, base: int, name: Seq<char>)
    requires
        forall|i: int|
            0 <= i < items.len() ==> !(#[trigger] items[i].spec_names()).contains(name),
    ensures
        crate::registry::spec_resolve_in(entries_for_items(items, base), name) is None,
    decreases items.len(),
{
    if items.len() > 0 {
        let id = base as usize;
        let block = items[0].spec_names().map_values(|nm: Seq<char>| (nm, id));
        let rest = entries_for_items(items.drop_first(), base + 1);
        crate::registry::lemma_resolve_append(block, rest, name);
        crate::registry::lemma_resolve_block(items[0].spec_names(), id, name);
        assert forall|i: int| 0 <= i < items.drop_first().len() implies !(
        #[trigger] items.drop_first()[i].spec_names()).contains(name) by {
            assert(items.drop_first()[i] == items[i + 1]);
        }
        lemma_efi_resolve_none(items.drop_first(), base + 1, name);
    }
}

/// A name some item carries is found among the phase-one registrations.
pub proof fn lemma_efi_resolve_some(items: Seq<PostTypes>, base: int, i: int, name: Seq<char>)
    requires
        0 <= i < items.len(),
        items[i].spec_names().contains(name),
    ensures
        crate::registry::spec_resolve_in(entries_for_items(items, base), name) is Some,
    decreases items.len(),
{
    let id = base as usize;
    let block = items[0].spec_names().map_values(|nm: Seq<char>| (nm, id));
    let rest = entries_for_items(items.drop_first(), base + 1);
    crate::registry::lemma_resolve_append(block, rest, name);
    crate::registry::lemma_resolve_block(items[0].spec_names(), id, name);
    if i == 0 {
        if crate::registry::spec_resolve_in(rest, name) is None {
            assert(items[0].spec_names().contains(name));
        }
    } else {
        assert(items.drop_first()[i - 1] == items[i]);
        lemma_efi_resolve_some(items.drop_first(), base + 1, i - 1, name);
    }
}

/// Among the phase-one registrations, a name resolves to the last item
/// that carries it.
pub proof fn lemma_efi_resolve_last_writer(
    items: Seq<PostTypes>,
    base: int,
    i: int,
    name: Seq<char>,
)
    requires
        0 <= i < items.len(),
        items[i].spec_names().contains(name),
        forall|j: int|
            i < j < items.len() ==> !(#[trigger] items[j].spec_names()).contains(name),
    ensures
        crate::registry::spec_resolve_in(entries_for_items(items, base), name) == Some(
            (base + i) as usize,
        ),
    decreases items.len(),
{
    let id = base as usize;
    let block = items[0].spec_names().map_values(|nm: Seq<char>| (nm, id));
    let rest = entries_for_items(items.drop_first(), base + 1);
    crate::registry::lemma_resolve_append(block, rest, name);
    crate::registry::lemma_resolve_block(items[0].spec_names(), id, name);
    if i == 0 {
        assert forall|j: int| 0 <= j < items.drop_first().len() implies !(
        #[trigger] items.drop_first()[j].spec_names()).contains(name) by {
            assert(items.drop_first()[j] == items[j + 1]);
        }
        lemma_efi_resolve_none(items.drop_first(), base + 1, name);
    } else {
        assert(items.drop_first()[i - 1] == items[i]);
        assert forall|j: int| i - 1 < j < items.drop_first().len() implies !(
        #[trigger] items.drop_first()[j].spec_names()).contains(name) by {
            assert(items.drop_first()[j] == items[j + 1]);
        }
        lemma_efi_resolve_last_writer(items.drop_first(), base + 1, i - 1, name);
    }
}

/// Whether `e` is exactly the error reported for the given item: it
/// names the item and every one of its unresolved parents.
pub open spec fn is_missing_edge_error_for(
    e: GraphError,
    entries: Seq<(Seq<char>, usize)>,
    root: usize,
    it: PostTypes,
) -> bool {
    e matches GraphError::MissingEdgeError(c, ms) && c@ == it.spec_name() && ms@
        == missing_parents_in(entries, root, it.spec_parents())
}

/// Membership in a node's out-neighbor list is the same as having an
/// edge from that node.
pub proof fn lemma_out_neighbors_edges(edges: Seq<(usize, usize)>, a: usize)
    ensures
        forall|k: int|
            0 <= k < out_neighbors(edges, a).len() ==> edges.contains(
                (a, #[trigger] out_neighbors(edges, a)[k]),
            ),
        forall|b: usize|
            edges.contains((a, b)) ==> #[trigger] out_neighbors(edges, a).contains(b),
    decreases edges.len(),
{
    if edges.len() > 0 {
        lemma_out_neighbors_edges(edges.drop_last(), a);
        let rest = out_neighbors(edges.drop_last(), a);
        assert forall|k: int| 0 <= k < out_neighbors(edges, a).len() implies edges.contains(
            (a, #[trigger] out_neighbors(edges, a)[k]),
        ) by {
            if edges.last().0 == a && k == 0 {
                assert(out_neighbors(edges, a)[0] == edges.last().1);
                assert(edges[edges.len() - 1] == (a, edges.last().1));
            } else {
                let k2 = if edges.last().0 == a {
                    k - 1
                } else {
                    k
                };
                assert(out_neighbors(edges, a)[k] == rest[k2]);
                assert(edges.drop_last().contains((a, rest[k2])));
                let j = choose|j: int|
                    0 <= j < edges.drop_last().len() && #[trigger] edges.drop_last()[j] == (
                        a,
                        rest[k2],
                    );
                assert(edges[j] == (a, rest[k2]));
            }
        }
        assert forall|b: usize| edges.contains((a, b)) implies #[trigger] out_neighbors(
            edges,
            a,
        ).contains(b) by {
            let j = choose|j: int| 0 <= j < edges.len() && edges[j] == (a, b);
            if j == edges.len() - 1 {
                assert(out_neighbors(edges, a)[0] == b);
            } else {
                assert(edges.drop_last()[j] == (a, b));
                assert(edges.drop_last().contains((a, b)));
                assert(rest.contains(b));
                let k = choose|k: int| 0 <= k < rest.len() && rest[k] == b;
                if edges.last().0 == a {
                    assert(out_neighbors(edges, a)[k + 1] == b);
                } else {
                    assert(out_neighbors(edges, a)[k] == b);
                }
            }
        }
    }
}

/// Membership in a node's in-neighbor list is the same as having an
/// edge to that node.
pub proof fn lemma_in_neighbors_edges(edges: Seq<(usize, usize)>, b: usize)
    ensures
        forall|k: int|
            0 <= k < in_neighbors(edges, b).len() ==> edges.contains(
                (#[trigger] in_neighbors(edges, b)[k], b),
            ),
        forall|a: usize| edges.contains((a, b)) ==> #[trigger] in_neighbors(edges, b).contains(a),
    decreases edges.len(),
{
    if edges.len() > 0 {
        lemma_in_neighbors_edges(edges.drop_last(), b);
        let rest = in_neighbors(edges.drop_last(), b);
        assert forall|k: int| 0 <= k < in_neighbors(edges, b).len() implies edges.contains(
            (#[trigger] in_neighbors(edges, b)[k], b),
        ) by {
            if edges.last().1 == b && k == 0 {
                assert(in_neighbors(edges, b)[0] == edges.last().0);
                assert(edges[edges.len() - 1] == (edges.last().0, b));
            } else {
                let k2 = if edges.last().1 == b {
                    k - 1
                } else {
                    k
                };
                assert(in_neighbors(edges, b)[k] == rest[k2]);
                assert(edges.drop_last().contains((rest[k2], b)));
                let j = choose|j: int|
                    0 <= j < edges.drop_last().len() && #[trigger] edges.drop_last()[j] == (
                        rest[k2],
                        b,
                    );
                assert(edges[j] == (rest[k2], b));
            }
        }
        assert forall|a: usize| edges.contains((a, b)) implies #[trigger] in_neighbors(
            edges,
            b,
        ).contains(a) by {
            let j = choose|j: int| 0 <= j < edges.len() && edges[j] == (a, b);
            if j == edges.len() - 1 {
                assert(in_neighbors(edges, b)[0] == a);
            } else {
                assert(edges.drop_last()[j] == (a, b));
                assert(edges.drop_last().contains((a, b)));
                assert(rest.contains(a));
                let k = choose|k: int| 0 <= k < rest.len() && rest[k] == a;
                if edges.last().1 == b {
                    assert(in_neighbors(edges, b)[k + 1] == a);
                } else {
                    assert(in_neighbors(edges, b)[k] == a);
                }
            }
        }
    }
}

/// The category records among the listed nodes, in list order.
pub open spec fn cat_values_of(nodes: Seq<PostNodeValue>, ns: Seq<usize>) -> Seq<CategoryValue>
    decreases ns.len(),
{
    if ns.len() == 0 {
        Seq::empty()
    } else {
        let rest = cat_values_of(nodes, ns.drop_last());
        let last = ns.last();
        if last < nodes.len() && (nodes[last as int] matches PostNodeValue::Node(
            PostTypesValue::Category(_),
        )) {
            rest + seq![nodes[last as int]->Node_0->Category_0]
        } else {
            rest
        }
    }
}

/// The post records among the listed nodes, in list order.
pub open spec fn post_values_of(nodes: Seq<PostNodeValue>, ns: Seq<usize>) -> Seq<PostValue>
    decreases ns.len(),
{
    if ns.len() == 0 {
        Seq::empty()
    } else {
        let rest = post_values_of(nodes, ns.drop_last());
        let last = ns.last();
        if last < nodes.len() && (nodes[last as int] matches PostNodeValue::Node(
            PostTypesValue::Post(_),
        )) {
            rest + seq![nodes[last as int]->Node_0->Post_0]
        } else {
            rest
        }
    }
}

/// The display names of the listed nodes, in list order.
pub open spec fn names_of(nodes: Seq<PostNodeValue>, ns: Seq<usize>) -> Seq<Seq<char>>
    decreases ns.len(),
{
    if ns.len() == 0 {
        Seq::empty()
    } else {
        names_of(nodes, ns.drop_last()) + seq![nodes[ns.last() as int].name()]
    }
}

/// Whether the edge list holds a parent-to-child edge.
pub open spec fn edge_exists(edges: Seq<(usize, usize)>, a: usize, b: usize) -> bool {
    edges.contains((a, b))
}

/// A route strictly extending `base`: it starts with `base`, every
/// following step walks an edge (the first one leaving `base`'s final
/// node), and no node repeats except possibly the route's final one.
pub open spec fn ext_route(edges: Seq<(usize, usize)>, base: Seq<usize>, r: Seq<usize>) -> bool {
    &&& base.len() < r.len()
    &&& r.take(base.len() as int) == base
    &&& forall|q: int|
        0 <= q && base.len() - 1 <= q < r.len() - 1 ==> #[trigger] edge_exists(
            edges,
            r[q],
            r[q + 1],
        )
    &&& r.take(r.len() - 1).no_duplicates()
}

/// A complete enumerated route: it starts at a direct child of Root,
/// every step walks an edge, and no node repeats except possibly the
/// final one, which closes a cycle when it does.
pub open spec fn valid_route(edges: Seq<(usize, usize)>, root: usize, r: Seq<usize>) -> bool {
    &&& r.len() >= 1
    &&& edge_exists(edges, root, r[0])
    &&& forall|q: int|
        0 <= q < r.len() - 1 ==> #[trigger] edge_exists(edges, r[q], r[q + 1])
    &&& r.take(r.len() - 1).no_duplicates()
}

/// A sequence of distinct values below a bound cannot be longer than
/// the bound.
pub proof fn lemma_distinct_bounded_len(s: Seq<usize>, n: nat)
    requires
        n <= usize::MAX,
        s.no_duplicates(),
        forall|k: int| 0 <= k < s.len() ==> (#[trigger] s[k]) < n,
    ensures
        s.len() <= n,
    decreases n,
{
    if s.len() > 0 {
        assert(s[0] < n);
        let v = (n - 1) as usize;
        if s.contains(v) {
            let j = choose|j: int| 0 <= j < s.len() && s[j] == v;
            let s2 = s.remove(j);
            assert(s2.no_duplicates()) by {
                assert forall|a: int, b: int| 0 <= a < b < s2.len() implies s2[a] != s2[b] by {
                    let a0 = if a < j {
                        a
                    } else {
                        a + 1
                    };
                    let b0 = if b < j {
                        b
                    } else {
                        b + 1
                    };
                    assert(s2[a] == s[a0]);
                    assert(s2[b] == s[b0]);
                }
            }
            assert forall|k: int| 0 <= k < s2.len() implies (#[trigger] s2[k]) < (n - 1) as nat by {
                let k0 = if k < j {
                    k
                } else {
                    k + 1
                };
                assert(s2[k] == s[k0]);
                assert(s[k0] != v);
            }
            lemma_distinct_bounded_len(s2, (n - 1) as nat);
        } else {
            assert forall|k: int| 0 <= k < s.len() implies (#[trigger] s[k]) < (n - 1) as nat by {
                assert(s[k] != v);
            }
            lemma_distinct_bounded_len(s, (n - 1) as nat);
        }
    }
}

/// A route extending `base` through a child `c` of `base`'s final node
/// also extends `base` itself.
pub proof fn lemma_ext_route_weaken(
    edges: Seq<(usize, usize)>,
    base: Seq<usize>,
    c: usize,
    r: Seq<usize>,
)
    requires
        base.len() >= 1,
        edge_exists(edges, base.last(), c),
        ext_route(edges, base.push(c), r),
    ensures
        ext_route(edges, base, r),
{
    assert(r.take(base.len() as int) =~= base) by {
        assert(r.take((base.len() + 1) as int) == base.push(c));
        assert forall|q: int| 0 <= q < base.len() implies r[q] == base[q] by {
            assert(r.take((base.len() + 1) as int)[q] == base.push(c)[q]);
        }
    }
    assert forall|q: int| 0 <= q && base.len() - 1 <= q < r.len() - 1 implies #[trigger] edge_exists(
        edges,
        r[q],
        r[q + 1],
    ) by {
        if q == base.len() - 1 {
            assert(r.take((base.len() + 1) as int)[q] == base.push(c)[q]);
            assert(r.take((base.len() + 1) as int)[q + 1] == base.push(c)[q + 1]);
            assert(r[q] == base.last());
            assert(r[q + 1] == c);
        }
    }
}

/// Whether the vector holds the identifier.
fn contains_id(v: &Vec<usize>, x: usize) -> (r: bool)
    ensures
        r == v@.contains(x),
{
    let n = v.len();
    let mut k: usize = 0;
    while k < n
        invariant
            k <= n,
            n == v@.len(),
            forall|j: int| 0 <= j < k ==> v@[j] != x,
        decreases n - k,
    {
        if v[k] == x {
            return true;
        }
        k = k + 1;
    }
    false
}

/// An equal copy of a vector of identifiers.
fn clone_ids(v: &Vec<usize>) -> (r: Vec<usize>)
    ensures
        r@ == v@,
{
    let mut out: Vec<usize> = Vec::new();
    let n = v.len();
    let mut k: usize = 0;
    while k < n
        invariant
            k <= n,
            n == v@.len(),
            out@.len() == k,
            forall|j: int| 0 <= j < k ==> out@[j] == v@[j],
        decreases n - k,
    {
        out.push(v[k]);
        k = k + 1;
    }
    proof {
        assert(out@ =~= v@);
    }
    out
}

/// The position of the final node's earlier occurrence on the route,
/// when there is one. On a route whose other nodes are distinct, at
/// most one position qualifies.
pub open spec fn spec_cycle_index(r: Seq<usize>) -> Option<usize> {
    if exists|i: int| 0 <= i < r.len() - 1 && #[trigger] r[i] == r[r.len() - 1] {
        Some((choose|i: int| 0 <= i < r.len() - 1 && #[trigger] r[i] == r[r.len() - 1]) as usize)
    } else {
        None
    }
}

/// A route that starts at a direct child of Root and extends it is a
/// complete route, and the other way round.
pub proof fn lemma_seed_route(edges: Seq<(usize, usize)>, root: usize, c: usize, rt: Seq<usize>)
    requires
        edge_exists(edges, root, c),
    ensures
        ext_route(edges, seq![c], rt) <==> (valid_route(edges, root, rt) && rt.len() >= 2
            && rt[0] == c),
{
    if ext_route(edges, seq![c], rt) {
        assert(rt.take(1)[0] == seq![c][0]);
        assert(rt[0] == c);
    }
    if valid_route(edges, root, rt) && rt.len() >= 2 && rt[0] == c {
        assert(rt.take(1) =~= seq![c]);
    }
}

/// The position the enumerator reports for a cycle closure.
fn cycle_index_of(route: &Vec<usize>) -> (r: Option<usize>)
    requires
        route@.len() >= 1,
        route@.take(route@.len() - 1).no_duplicates(),
    ensures
        r == spec_cycle_index(route@),
{
    let lastv = route[route.len() - 1];
    let n = route.len() - 1;
    let mut i: usize = 0;
    while i < n
        invariant
            i <= n,
            n == route@.len() - 1,
            route@.len() >= 1,
            route@.take(route@.len() - 1).no_duplicates(),
            lastv == route@[route@.len() - 1],
            forall|j: int| 0 <= j < i ==> route@[j] != lastv,
        decreases n - i,
    {
        if route[i] == lastv {
            proof {
                let whole = route@;
                assert(whole[i as int] == whole[whole.len() - 1]);
                let ii = choose|ii: int|
                    0 <= ii < whole.len() - 1 && #[trigger] whole[ii] == whole[whole.len() - 1];
                if ii != i {
                    assert(whole.take(whole.len() - 1)[ii] == whole[ii]);
                    assert(whole.take(whole.len() - 1)[i as int] == whole[i as int]);
                    assert(false);
                }
            }
            return Some(i);
        }
        i = i + 1;
    }
    proof {
        if exists|ii: int|
            0 <= ii < route@.len() - 1 && #[trigger] route@[ii] == route@[route@.len() - 1] {
            let ii = choose|ii: int|
                0 <= ii < route@.len() - 1 && #[trigger] route@[ii] == route@[route@.len() - 1];
            assert(route@[ii] != lastv);
            assert(false);
        }
    }
    None
}

/// Root is one of a kind: it sits alone at its fixed identifier, no
/// edge ever points at it, and — since every enumerated route needs at
/// least one step away from it — it is where every route starts and
/// never where one lands; it reaches itself in zero steps trivially.
pub proof fn lemma_root_unique_no_incoming(g: PostGraph)
    requires
        g.wf(),
    ensures
        g.spec_nodes()[g.spec_root() as int] is Root,
        forall|i: int|
            0 <= i < g.spec_nodes().len() && i != g.spec_root() ==> !((
            #[trigger] g.spec_nodes()[i]) is Root),
        forall|k: int|
            0 <= k < g.spec_edges().len() ==> (#[trigger] g.spec_edges()[k]).1 != g.spec_root(),
        forall|rt: Seq<usize>, q: int|
            valid_route(g.spec_edges(), g.spec_root(), rt) && 0 <= q < rt.len() ==> (
            #[trigger] rt[q]) != g.spec_root(),
{
    assert forall|rt: Seq<usize>, q: int|
        valid_route(g.spec_edges(), g.spec_root(), rt) && 0 <= q < rt.len() implies (
    #[trigger] rt[q]) != g.spec_root() by {
        if q == 0 {
            assert(edge_exists(g.spec_edges(), g.spec_root(), rt[0]));
            let e = choose|e: int|
                0 <= e < g.spec_edges().len() && #[trigger] g.spec_edges()[e] == (
                    g.spec_root(),
                    rt[0],
                );
        } else {
            assert(edge_exists(g.spec_edges(), rt[q - 1], rt[q - 1 + 1]));
            let e = choose|e: int|
                0 <= e < g.spec_edges().len() && #[trigger] g.spec_edges()[e] == (
                    rt[q - 1],
                    rt[q],
                );
        }
    }
}

/// After the node phase, every name of an item that no other item also
/// carries resolves to that item's own node — whatever the registry
/// held before and whatever the other items register.
pub proof fn lemma_disjoint_names_resolve(
    entries: Seq<(Seq<char>, usize)>,
    items: Seq<PostTypes>,
    base: int,
    i: int,
    n: Seq<char>,
)
    requires
        0 <= base,
        0 <= i < items.len(),
        items[i].spec_names().contains(n),
        forall|a: int, b: int|
            0 <= a < b < items.len() ==> !(#[trigger] crate::posts::shares_name(
                items[a],
                items[b],
            )),
    ensures
        crate::registry::spec_resolve_in(entries + entries_for_items(items, base), n) == Some(
            ((base + i) as usize),
        ),
{
    assert forall|j: int| i < j < items.len() implies !(
    #[trigger] items[j].spec_names()).contains(n) by {
        if items[j].spec_names().contains(n) {
            assert(crate::posts::shares_name(items[i], items[j]));
        }
    }
    lemma_efi_resolve_last_writer(items, base, i, n);
    crate::registry::lemma_resolve_append(entries, entries_for_items(items, base), n);
}

/// The label text of one node in the diagnostic dump.
pub open spec fn spec_node_label(n: PostNodeValue) -> Seq<char> {
    match n {
        PostNodeValue::Root => seq!['R', 'O', 'O', 'T'],
        PostNodeValue::Node(PostTypesValue::Post(p)) => seq!['P', 'o', 's', 't', '(']
            + PostTypesValue::Post(p).qname() + seq![')'],
        PostNodeValue::Node(PostTypesValue::Category(c)) => seq![
            'C',
            'a',
            't',
            'e',
            'g',
            'o',
            'r',
            'y',
            '(',
        ] + PostTypesValue::Category(c).qname() + seq![')'],
    }
}

/// One node's line in the diagnostic dump.
pub open spec fn spec_dot_node_line(n: PostNodeValue, i: int) -> Seq<char> {
    seq!['\n', ' ', ' ', ' ', ' '] + dec_rep(i as nat) + seq![
        ' ',
        '[',
        'l',
        'a',
        'b',
        'e',
        'l',
        '=',
        '"',
    ] + spec_node_label(n) + seq!['"', ']']
}

/// The node lines for the first `upto` nodes, in arena order.
pub open spec fn spec_dot_node_lines(nodes: Seq<PostNodeValue>, upto: int) -> Seq<char>
    decreases upto,
{
    if upto <= 0 {
        Seq::empty()
    } else {
        spec_dot_node_lines(nodes, upto - 1) + spec_dot_node_line(nodes[upto - 1], upto - 1)
    }
}

/// One edge's line in the diagnostic dump.
pub open spec fn spec_dot_edge_line(e: (usize, usize)) -> Seq<char> {
    seq!['\n', ' ', ' ', ' ', ' '] + dec_rep(e.0 as nat) + seq![' ', '-', '>', ' '] + dec_rep(
        e.1 as nat,
    )
}

/// The edge lines for the first `upto` edges, in insertion order.
pub open spec fn spec_dot_edge_lines(edges: Seq<(usize, usize)>, upto: int) -> Seq<char>
    decreases upto,
{
    if upto <= 0 {
        Seq::empty()
    } else {
        spec_dot_edge_lines(edges, upto - 1) + spec_dot_edge_line(edges[upto - 1])
    }
}

/// The items whose declared parents do not all resolve, in input order.
pub open spec fn failing_items(
    entries: Seq<(Seq<char>, usize)>,
    root: usize,
    items: Seq<PostTypes>,
) -> Seq<PostTypes> {
    items.filter(|it: PostTypes| missing_parents_in(entries, root, it.spec_parents()).len() > 0)
}

/// How the edge phase grows the edge list: walking the items from the
/// last backwards, each item with no declared parents contributed one
/// edge from Root, each item with an unresolved parent contributed
/// nothing, and every other item contributed its batch of parent
/// edges.
pub open spec fn phase2_appended(
    entries: Seq<(Seq<char>, usize)>,
    root: usize,
    items: Seq<PostTypes>,
    tail: Seq<(usize, usize)>,
) -> bool
    decreases items.len(),
{
    if items.len() == 0 {
        tail.len() == 0
    } else {
        let it = items.last();
        let parents = it.spec_parents();
        let child = crate::registry::spec_resolve_in(entries, it.spec_name())->Some_0;
        if parents.len() == 0 {
            &&& tail.len() >= 1
            &&& tail.last() == (root, child)
            &&& phase2_appended(entries, root, items.drop_last(), tail.drop_last())
        } else if missing_parents_in(entries, root, parents).len() > 0 {
            phase2_appended(entries, root, items.drop_last(), tail)
        } else {
            exists|b: int|
                0 <= b <= tail.len() && #[trigger] edge_batch_in(
                    entries,
                    root,
                    child,
                    parents,
                    tail.skip(b),
                ) && phase2_appended(entries, root, items.drop_last(), tail.take(b))
        }
    }
}

/// Whether the string is the `"INDEX"` sentinel.
fn is_index_token(p: &String) -> (r: bool)
    ensures
        r == (p@ == spec_index_token()),
{
    proof {
        reveal_strlit("INDEX");
        assert("INDEX"@ =~= spec_index_token());
    }
    let tok: String = "INDEX".to_owned();
    *p == tok
}

/// Inserts `x` into a strictly increasing vector, unless already there.
#[verifier::rlimit(30)]
fn insert_unique_sorted(out: &mut Vec<usize>, x: usize)
    requires
        forall|i: int, j: int|
            0 <= i < j < old(out)@.len() ==> #[trigger] old(out)@[i] < #[trigger] old(out)@[j],
    ensures
        forall|i: int, j: int| 0 <= i < j < final(out)@.len() ==> final(out)@[i] < final(out)@[j],
        forall|y: usize| final(out)@.contains(y) <==> (old(out)@.contains(y) || y == x),
{
    let mut pos: usize = 0;
    loop
        invariant
            pos <= out.len(),
            out == old(out),
            forall|j: int| 0 <= j < pos ==> out@[j] < x,
        ensures
            pos <= out.len(),
            out == old(out),
            forall|j: int| 0 <= j < pos ==> out@[j] < x,
            pos < out@.len() ==> out@[pos as int] >= x,
        decreases out.len() - pos,
    {
        if pos >= out.len() {
            break;
        }
        if out[pos] >= x {
            break;
        }
        pos = pos + 1;
    }
    if pos < out.len() && out[pos] == x {
        proof {
            assert(out@.contains(x));
        }
        return ;
    }
    let ghost pre = out@;
    out.insert(pos, x);
    proof {
        assert forall|i: int, j: int| 0 <= i < j < out@.len() implies out@[i] < out@[j] by {
            assert(out@[pos as int] == x);
            if i < pos {
                assert(out@[i] == pre[i]);
            }
            if j < pos {
                assert(out@[j] == pre[j]);
            }
            if i > pos {
                assert(out@[i] == pre[i - 1]);
            }
            if j > pos {
                assert(out@[j] == pre[j - 1]);
            }
            if pos < pre.len() {
                assert(pre[pos as int] > x);
            }
        }
        assert forall|y: usize| out@.contains(y) implies (pre.contains(y) || y == x) by {
            let k = choose|k: int| 0 <= k < out@.len() && out@[k] == y;
            if k < pos {
                assert(pre[k] == y);
            } else if k > pos {
                assert(pre[k - 1] == y);
            }
        }
        assert(out@[pos as int] == x);
        assert(out@.contains(x));
        assert forall|y: usize| pre.contains(y) || y == x implies out@.contains(y) by {
            if y == x {
                assert(out@[pos as int] == x);
            } else {
                let k = choose|k: int| 0 <= k < pre.len() && pre[k] == y;
                if k < pos {
                    assert(out@[k] == y);
                } else {
                    assert(out@[k + 1] == y);
                }
            }
        }
    }
}

/// Sorts node identifiers ascending, collapsing duplicates: the result
/// is strictly increasing and holds exactly the identifiers of the
/// input.
fn sort_dedup_ids(v: &Vec<usize>) -> (r: Vec<usize>)
    ensures
        forall|i: int, j: int| 0 <= i < j < r@.len() ==> #[trigger] r@[i] < #[trigger] r@[j],
        forall|y: usize| r@.contains(y) <==> v@.contains(y),
{
    let mut out: Vec<usize> = Vec::new();
    let n = v.len();
    let mut i: usize = 0;
    while i < n
        invariant
            i <= n,
            n == v@.len(),
            forall|a: int, b: int| 0 <= a < b < out@.len() ==> #[trigger] out@[a] < #[trigger] out@[b],
            forall|y: usize| out@.contains(y) <==> v@.take(i as int).contains(y),
        decreases n - i,
    {
        let ghost pre = out@;
        insert_unique_sorted(&mut out, v[i]);
        i = i + 1;
        proof {
            assert forall|y: usize| out@.contains(y) implies v@.take(i as int).contains(y) by {
                if y == v@[i - 1] {
                    assert(v@.take(i as int)[i - 1] == y);
                } else {
                    assert(pre.contains(y));
                    let k = choose|k: int|
                        0 <= k < i - 1 && #[trigger] v@.take(i as int - 1)[k] == y;
                    assert(v@.take(i as int)[k] == y);
                }
            }
            assert forall|y: usize| v@.take(i as int).contains(y) implies out@.contains(y) by {
                let k = choose|k: int| 0 <= k < i && #[trigger] v@.take(i as int)[k] == y;
                if k < i - 1 {
                    assert(v@.take(i as int - 1)[k] == y);
                }
            }
        }
    }
    proof {
        assert(v@.take(n as int) =~= v@);
    }
    out
}

/// The content relationship graph: an arena of nodes, directed edges
/// held by petgraph, and the name registry used to resolve references.
pub struct PostGraph {
    root: usize,
    graph: PostDiGraph,
    nodes: Vec<PostNode>,
    names: NameRegistry,
}

impl PostGraph {
    /// The nodes, in arena order; index 0 is Root.
    pub closed spec fn spec_nodes(self) -> Seq<PostNodeValue> {
        self.nodes@.map_values(|n: PostNode| n.dv())
    }

    /// The directed (parent, child) edges, in insertion order.
    pub closed spec fn spec_edges(self) -> Seq<(usize, usize)> {
        pg_edges(self.graph)
    }

    /// Root's node identifier.
    pub closed spec fn spec_root(self) -> usize {
        self.root
    }

    /// The registry's (name, node) entries, in registration order.
    pub closed spec fn spec_name_entries(self) -> Seq<(Seq<char>, usize)> {
        self.names.spec_entries()
    }

    /// What a qualified name resolves to.
    pub open spec fn spec_resolve(self, name: Seq<char>) -> Option<usize> {
        crate::registry::spec_resolve_in(self.spec_name_entries(), name)
    }

    /// The petgraph value's node count, tied to the arena by `wf`.
    pub closed spec fn spec_pg_count(self) -> nat {
        pg_node_count(self.graph)
    }

    /// Well-formedness: Root is the unique node at index 0 and never the
    /// target of an edge; every edge endpoint is an existing node; every
    /// registered name points at a content node.
    pub open spec fn wf(self) -> bool {
        &&& self.spec_root() == 0
        &&& self.spec_nodes().len() >= 1
        &&& self.spec_pg_count() == self.spec_nodes().len()
        &&& self.spec_nodes()[0] is Root
        &&& forall|i: int| 1 <= i < self.spec_nodes().len() ==> self.spec_nodes()[i] is Node
        &&& forall|k: int|
            0 <= k < self.spec_edges().len() ==> (#[trigger] self.spec_edges()[k]).0
                < self.spec_nodes().len() && self.spec_edges()[k].1 < self.spec_nodes().len()
                && self.spec_edges()[k].1 != 0
        &&& forall|k: int|
            0 <= k < self.spec_name_entries().len() ==> 1 <= (
            #[trigger] self.spec_name_entries()[k]).1 < self.spec_nodes().len()
    }

    /// A fresh graph holding only the Root node.
    pub fn new() -> (g: PostGraph)
        ensures
            g.wf(),
            g.spec_nodes() == seq![PostNodeValue::Root],
            g.spec_edges() == Seq::<(usize, usize)>::empty(),
            g.spec_name_entries() == Seq::<(Seq<char>, usize)>::empty(),
            g.spec_root() == 0,
    {
        let mut graph = pg_new();
        let root = pg_add_node(&mut graph);
        let mut nodes: Vec<PostNode> = Vec::new();
        nodes.push(PostNode::Root);
        let g = PostGraph { root, graph, nodes, names: NameRegistry::new() };
        proof {
            assert(g.spec_nodes() =~= seq![PostNodeValue::Root]);
        }
        g
    }

    /// Appends a content node for the item and registers every name the
    /// item exposes against the new node's identifier.
    pub fn add_node(&mut self, item: &PostTypes) -> (ix: usize)
        requires
            old(self).wf(),
        ensures
            final(self).wf(),
            ix == old(self).spec_nodes().len(),
            final(self).spec_nodes() == old(self).spec_nodes().push(
                PostNodeValue::Node(item.dv()),
            ),
            final(self).spec_edges() == old(self).spec_edges(),
            final(self).spec_root() == old(self).spec_root(),
            final(self).spec_name_entries() == old(self).spec_name_entries()
                + item.spec_names().map_values(|n: Seq<char>| (n, ix)),
    {
        let node = pg_add_node(&mut self.graph);
        self.nodes.push(PostNode::Node(item.duplicate()));
        proof {
            assert(self.spec_nodes() =~= old(self).spec_nodes().push(
                PostNodeValue::Node(item.dv()),
            ));
        }
        let ghost mid = *self;
        let mut names = item.names();
        let ghost name_views = item.spec_names();
        proof {
            assert(names@.map_values(|s: String| s@).skip(0) =~= name_views);
            assert(old(self).spec_name_entries() + name_views.take(0).map_values(
                |nm: Seq<char>| (nm, node),
            ) =~= old(self).spec_name_entries());
        }
        let n = names.len();
        let mut i: usize = 0;
        while i < n
            invariant
                i <= n,
                n == name_views.len(),
                names@.len() + i == n,
                names@.map_values(|s: String| s@) == name_views.skip(i as int),
                self.names.spec_entries() == old(self).spec_name_entries()
                    + name_views.take(i as int).map_values(|nm: Seq<char>| (nm, node)),
                self.root == mid.root,
                self.graph == mid.graph,
                self.nodes == mid.nodes,
            decreases n - i,
        {
            let ghost pre_names = names@;
            let nm = names.remove(0);
            proof {
                assert(names@ =~= pre_names.skip(1));
                assert(names@.map_values(|s: String| s@) =~= pre_names.map_values(
                    |s: String| s@,
                ).skip(1));
                assert(pre_names.map_values(|s: String| s@).skip(1) =~= name_views.skip(
                    i as int + 1,
                ));
                assert(nm@ == pre_names.map_values(|s: String| s@)[0]);
                assert(nm@ == name_views[i as int]);
            }
            self.names.register(nm, node);
            i = i + 1;
            proof {
                assert(self.names.spec_entries() =~= old(self).spec_name_entries()
                    + name_views.take(i as int).map_values(|nm2: Seq<char>| (nm2, node)));
            }
        }
        proof {
            assert(name_views.take(n as int) =~= name_views);
            assert(self.spec_name_entries() == old(self).spec_name_entries()
                + name_views.map_values(|nm: Seq<char>| (nm, node)));
            let fin = *self;
            let pre = *old(self);
            assert(fin.spec_nodes() == pre.spec_nodes().push(PostNodeValue::Node(item.dv())));
            assert forall|i: int| 1 <= i < fin.spec_nodes().len() implies fin.spec_nodes()[i]
                is Node by {
                if i < pre.spec_nodes().len() {
                    assert(fin.spec_nodes()[i] == pre.spec_nodes()[i]);
                } else {
                    assert(fin.spec_nodes()[i] == PostNodeValue::Node(item.dv()));
                }
            }
            assert forall|k: int| 0 <= k < fin.spec_name_entries().len() implies 1 <= (
            #[trigger] fin.spec_name_entries()[k]).1 < fin.spec_nodes().len() by {
                if k < pre.spec_name_entries().len() {
                    assert(fin.spec_name_entries()[k] == pre.spec_name_entries()[k]);
                } else {
                    assert(fin.spec_name_entries()[k] == name_views.map_values(
                        |nm: Seq<char>| (nm, node),
                    )[k - pre.spec_name_entries().len()]);
                    assert(fin.spec_name_entries()[k].1 == node);
                }
            }
            assert forall|k: int| 0 <= k < fin.spec_edges().len() implies (
            #[trigger] fin.spec_edges()[k]).0 < fin.spec_nodes().len() && fin.spec_edges()[k].1
                < fin.spec_nodes().len() && fin.spec_edges()[k].1 != 0 by {
                assert(fin.spec_edges()[k] == pre.spec_edges()[k]);
            }
        }
        node
    }

    /// What a raw parent reference resolves to: the `"INDEX"` token is
    /// Root, anything else goes through the registry.
    pub open spec fn spec_resolve_parent(self, p: Seq<char>) -> Option<usize> {
        resolve_parent_in(self.spec_name_entries(), self.spec_root(), p)
    }

    /// The declared parent names that do not resolve, in declaration
    /// order.
    pub open spec fn spec_missing_parents(self, parents: Seq<String>) -> Seq<String> {
        missing_parents_in(self.spec_name_entries(), self.spec_root(), parents)
    }

    /// The edges appended for one child: one per distinct resolved
    /// parent, ascending by parent identifier, exactly covering the
    /// declared parents' resolutions.
    pub open spec fn edge_batch_for(
        self,
        child: usize,
        parents: Seq<String>,
        batch: Seq<(usize, usize)>,
    ) -> bool {
        edge_batch_in(self.spec_name_entries(), self.spec_root(), child, parents, batch)
    }

    /// Whether `id` is what one of the declared parents resolves to.
    pub open spec fn resolves_some_parent(self, parents: Seq<String>, id: usize) -> bool {
        resolves_some_parent_in(self.spec_name_entries(), self.spec_root(), parents, id)
    }

    /// Adds the edges from a child's declared parents to the child.
    ///
    /// The child's name must already be registered: adding an edge
    /// before its node is a caller-ordering bug, not a run-time
    /// condition. An empty parent list attaches the child under Root.
    /// Otherwise every parent is resolved, `"INDEX"` standing for Root;
    /// when any fail, no edge is added and the error names the child and
    /// every unresolved parent. On full resolution one edge per distinct
    /// resolved parent is appended, ascending by parent identifier, so
    /// repeated references collapse to a single edge.
    #[verifier::rlimit(60)]
    pub fn add_edge(&mut self, name: &str, parentlist: &Vec<String>) -> (r: Result<
        (),
        GraphError,
    >)
        requires
            old(self).wf(),
            old(self).spec_resolve(name@) is Some,
        ensures
            final(self).wf(),
            final(self).spec_nodes() == old(self).spec_nodes(),
            final(self).spec_root() == old(self).spec_root(),
            final(self).spec_name_entries() == old(self).spec_name_entries(),
            ({
                let child = old(self).spec_resolve(name@)->Some_0;
                let missing = old(self).spec_missing_parents(parentlist@);
                if parentlist@.len() == 0 {
                    r is Ok && final(self).spec_edges() == old(self).spec_edges().push(
                        (old(self).spec_root(), child),
                    )
                } else if missing.len() > 0 {
                    &&& final(self).spec_edges() == old(self).spec_edges()
                    &&& r matches Err(GraphError::MissingEdgeError(c, ms)) && c@ == name@ && ms@
                        == missing
                } else {
                    &&& r is Ok
                    &&& final(self).spec_edges().len() >= old(self).spec_edges().len()
                    &&& old(self).spec_edges() == final(self).spec_edges().take(
                        old(self).spec_edges().len() as int,
                    )
                    &&& old(self).edge_batch_for(
                        child,
                        parentlist@,
                        final(self).spec_edges().skip(old(self).spec_edges().len() as int),
                    )
                }
            }),
            r is Ok && (exists|i: int|
                0 <= i < parentlist@.len() && (#[trigger] parentlist@[i])@
                    == spec_index_token()) ==> final(self).spec_edges().contains(
                (old(self).spec_root(), old(self).spec_resolve(name@)->Some_0),
            ),
    {
        let child = self.getidx(name);
        if parentlist.len() == 0 {
            let root = self.root;
            pg_add_edge(&mut self.graph, root, child);
            proof {
                assert forall|k: int| 0 <= k < self.spec_edges().len() implies (
                #[trigger] self.spec_edges()[k]).0 < self.spec_nodes().len()
                    && self.spec_edges()[k].1 < self.spec_nodes().len() && self.spec_edges()[k].1
                    != 0 by {
                    if k < old(self).spec_edges().len() {
                        assert(self.spec_edges()[k] == old(self).spec_edges()[k]);
                    } else {
                        assert(self.spec_edges()[k] == (old(self).spec_root(), child));
                    }
                }
            }
            return Ok(());
        }
        let mut resolved: Vec<usize> = Vec::new();
        let mut missing: Vec<String> = Vec::new();
        let n = parentlist.len();
        let mut i: usize = 0;
        proof {
            reveal(Seq::filter);
            assert(missing_parents_in(
                old(self).spec_name_entries(),
                old(self).spec_root(),
                parentlist@.take(0),
            ) =~= Seq::<String>::empty());
        }
        while i < n
            invariant
                i <= n,
                n == parentlist@.len(),
                self == old(self),
                self.wf(),
                old(self).spec_resolve(name@) is Some,
                missing@ == missing_parents_in(
                    old(self).spec_name_entries(),
                    old(self).spec_root(),
                    parentlist@.take(i as int),
                ),
                forall|m: int|
                    0 <= m < i && (#[trigger] old(self).spec_resolve_parent(parentlist@[m]@))
                        is Some ==> resolved@.contains(
                        old(self).spec_resolve_parent(parentlist@[m]@)->Some_0,
                    ),
                forall|k: int|
                    0 <= k < resolved@.len() ==> old(self).resolves_some_parent(
                        parentlist@.take(i as int),
                        #[trigger] resolved@[k],
                    ),
                forall|k: int|
                    0 <= k < resolved@.len() ==> #[trigger] resolved@[k] < self.spec_nodes().len(),
            decreases n - i,
        {
            let ghost pre_missing = missing@;
            let ghost pre_resolved = resolved@;
            let p = &parentlist[i];
            if is_index_token(p) {
                let root = self.root;
                resolved.push(root);
                proof {
                    assert(old(self).spec_resolve_parent(parentlist@[i as int]@) == Some(root));
                }
            } else {
                match self.names.resolve(p.as_str()) {
                    Some(id) => {
                        proof {
                            lemma_resolve_is_entry(self.spec_name_entries(), p@);
                        }
                        resolved.push(id);
                        proof {
                            assert(old(self).spec_resolve_parent(parentlist@[i as int]@) == Some(
                                id,
                            ));
                        }
                    },
                    None => {
                        missing.push(p.clone());
                    },
                }
            }
            proof {
                assert forall|y: usize| pre_resolved.contains(y) implies resolved@.contains(
                    y,
                ) by {
                    let k = choose|k: int|
                        0 <= k < pre_resolved.len() && #[trigger] pre_resolved[k] == y;
                    assert(resolved@[k] == y);
                }
                if resolved@.len() > pre_resolved.len() {
                    assert(resolved@.contains(resolved@[resolved@.len() - 1]));
                }
            }
            i = i + 1;
            proof {
                assert forall|k: int| 0 <= k < resolved@.len() implies old(
                    self,
                ).resolves_some_parent(parentlist@.take(i as int), #[trigger] resolved@[k]) by {
                    if k < pre_resolved.len() {
                        assert(resolved@[k] == pre_resolved[k]);
                        let m0 = choose|m0: int|
                            0 <= m0 < parentlist@.take(i as int - 1).len() && Some(
                                pre_resolved[k],
                            ) == #[trigger] resolve_parent_in(
                                old(self).spec_name_entries(),
                                old(self).spec_root(),
                                parentlist@.take(i as int - 1)[m0]@,
                            );
                        assert(parentlist@.take(i as int)[m0] == parentlist@.take(
                            i as int - 1,
                        )[m0]);
                        assert(Some(resolved@[k]) == resolve_parent_in(
                            old(self).spec_name_entries(),
                            old(self).spec_root(),
                            parentlist@.take(i as int)[m0]@,
                        ));
                    } else {
                        assert(resolved@[k] == resolved@[resolved@.len() - 1]);
                        assert(parentlist@.take(i as int)[i - 1] == parentlist@[i - 1]);
                        assert(Some(resolved@[k]) == resolve_parent_in(
                            old(self).spec_name_entries(),
                            old(self).spec_root(),
                            parentlist@.take(i as int)[i - 1]@,
                        ));
                    }
                }
            }
            proof {
                reveal(Seq::filter);
                assert(parentlist@.take(i as int).drop_last() =~= parentlist@.take(i as int - 1));
                assert(parentlist@.take(i as int).last() == parentlist@[i - 1]);
                assert(missing@ =~= missing_parents_in(
                    old(self).spec_name_entries(),
                    old(self).spec_root(),
                    parentlist@.take(i as int),
                ));
            }
        }
        proof {
            assert(parentlist@.take(n as int) =~= parentlist@);
        }
        if missing.len() > 0 {
            return Err(GraphError::MissingEdgeError(name.to_owned(), missing));
        }
        proof {
            let pred = |p: String|
                resolve_parent_in(
                    old(self).spec_name_entries(),
                    old(self).spec_root(),
                    p@,
                ) is None;
            assert forall|m: int|
                0 <= m < n implies (#[trigger] old(self).spec_resolve_parent(parentlist@[m]@))
                is Some by {
                if old(self).spec_resolve_parent(parentlist@[m]@) is None {
                    parentlist@.lemma_filter_contains(pred, m);
                    assert(parentlist@.filter(pred).len() > 0);
                }
            }
        }
        let parents_sorted = sort_dedup_ids(&resolved);
        let ghost base = self.spec_edges();
        let m = parents_sorted.len();
        let mut t: usize = 0;
        proof {
            assert(base + parents_sorted@.take(0).map_values(|p: usize| (p, child)) =~= base);
            assert forall|k: int| 0 <= k < parents_sorted@.len() implies #[trigger] parents_sorted@[k]
                < self.spec_nodes().len() by {
                assert(parents_sorted@.contains(parents_sorted@[k]));
                assert(resolved@.contains(parents_sorted@[k]));
                let kk = choose|kk: int|
                    0 <= kk < resolved@.len() && #[trigger] resolved@[kk] == parents_sorted@[k];
            }
        }
        #[verifier::loop_isolation(false)]
        while t < m
            invariant
                t <= m,
                m == parents_sorted@.len(),
                child == old(self).spec_resolve(name@)->Some_0,
                1 <= child < self.spec_nodes().len(),
                base == old(self).spec_edges(),
                self.nodes == old(self).nodes,
                self.root == old(self).root,
                self.names == old(self).names,
                self.wf(),
                forall|k: int|
                    0 <= k < parents_sorted@.len() ==> #[trigger] parents_sorted@[k]
                        < self.spec_nodes().len(),
                self.spec_edges() == base + parents_sorted@.take(t as int).map_values(
                    |p: usize| (p, child),
                ),
            decreases m - t,
        {
            let ghost pre_edges = self.spec_edges();
            let p = parents_sorted[t];
            proof {
                assert(parents_sorted@.contains(parents_sorted@[t as int]));
            }
            pg_add_edge(&mut self.graph, p, child);
            t = t + 1;
            proof {
                assert(self.spec_edges() =~= base + parents_sorted@.take(t as int).map_values(
                    |q: usize| (q, child),
                ));
                assert forall|k: int| 0 <= k < self.spec_edges().len() implies (
                #[trigger] self.spec_edges()[k]).0 < self.spec_nodes().len()
                    && self.spec_edges()[k].1 < self.spec_nodes().len() && self.spec_edges()[k].1
                    != 0 by {
                    if k < pre_edges.len() {
                        assert(self.spec_edges()[k] == pre_edges[k]);
                    } else {
                        assert(self.spec_edges()[k] == (p, child));
                    }
                }
            }
        }
        proof {
            let batch = self.spec_edges().skip(base.len() as int);
            assert(parents_sorted@.take(m as int) =~= parents_sorted@);
            assert(batch =~= parents_sorted@.map_values(|p: usize| (p, child)));
            assert(old(self).spec_edges() =~= self.spec_edges().take(base.len() as int));
            assert forall|k: int| 0 <= k < batch.len() implies (#[trigger] batch[k]).1
                == child by {
                assert(batch[k] == (parents_sorted@[k], child));
            }
            assert forall|i2: int, j2: int| 0 <= i2 < j2 < batch.len() implies batch[i2].0
                < batch[j2].0 by {
                assert(batch[i2] == (parents_sorted@[i2], child));
                assert(batch[j2] == (parents_sorted@[j2], child));
                assert(parents_sorted@[i2] < parents_sorted@[j2]);
            }
            assert forall|mm: int| 0 <= mm < parentlist@.len() implies batch.contains(
                ((#[trigger] resolve_parent_in(
                    old(self).spec_name_entries(),
                    old(self).spec_root(),
                    parentlist@[mm]@,
                ))->Some_0, child),
            ) by {
                let id = old(self).spec_resolve_parent(parentlist@[mm]@)->Some_0;
                assert(resolved@.contains(id));
                assert(parents_sorted@.contains(id));
                let k = choose|k: int|
                    0 <= k < parents_sorted@.len() && #[trigger] parents_sorted@[k] == id;
                assert(batch[k] == (id, child));
            }
            assert forall|k: int| 0 <= k < batch.len() implies resolves_some_parent_in(
                old(self).spec_name_entries(),
                old(self).spec_root(),
                parentlist@,
                (#[trigger] batch[k]).0,
            ) by {
                assert(batch[k] == (parents_sorted@[k], child));
                assert(parents_sorted@.contains(parents_sorted@[k]));
                assert(resolved@.contains(parents_sorted@[k]));
                let kk = choose|kk: int|
                    0 <= kk < resolved@.len() && #[trigger] resolved@[kk] == parents_sorted@[
                        k
                    ];
                assert(old(self).resolves_some_parent(
                    parentlist@.take(parentlist@.len() as int),
                    resolved@[kk],
                ));
                assert(parentlist@.take(parentlist@.len() as int) =~= parentlist@);
            }
            assert(old(self).edge_batch_for(child, parentlist@, batch));
            if exists|i0: int|
                0 <= i0 < parentlist@.len() && (#[trigger] parentlist@[i0])@
                    == spec_index_token() {
                let i0 = choose|i0: int|
                    0 <= i0 < parentlist@.len() && (#[trigger] parentlist@[i0])@
                        == spec_index_token();
                assert(old(self).spec_resolve_parent(parentlist@[i0]@) == Some(
                    old(self).spec_root(),
                ));
                assert(batch.contains((old(self).spec_root(), child)));
                let k = choose|k: int| 0 <= k < batch.len() && batch[k] == (
                    old(self).spec_root(),
                    child,
                );
                assert(self.spec_edges()[base.len() + k] == (old(self).spec_root(), child));
                assert(self.spec_edges().contains((old(self).spec_root(), child)));
            }
        }
        Ok(())
    }

    /// Walks every route from `nx` depth-first, extending `cur_route`.
    ///
    /// When `nx` is already on the current route, it is appended once
    /// more (marking the cycle) and the branch ends; otherwise every
    /// extension of the route through `nx` is appended to `all_routes`:
    /// exactly the routes that extend the current route by `nx` and
    /// then walk edges without repeating a node (except possibly last).
    fn find_paths(&self, nx: usize, cur_route: &mut Vec<usize>, all_routes: &mut Vec<Vec<usize>>)
        requires
            self.wf(),
            nx < self.spec_nodes().len(),
            old(cur_route)@.no_duplicates(),
            forall|k: int|
                0 <= k < old(cur_route)@.len() ==> (#[trigger] old(cur_route)@[k])
                    < self.spec_nodes().len(),
        ensures
            final(cur_route)@ == old(cur_route)@.push(nx),
            final(all_routes)@.len() >= old(all_routes)@.len(),
            final(all_routes)@.take(old(all_routes)@.len() as int) == old(all_routes)@,
            old(cur_route)@.contains(nx) ==> final(all_routes)@ == old(all_routes)@,
            !old(cur_route)@.contains(nx) ==> forall|k: int|
                old(all_routes)@.len() <= k < final(all_routes)@.len() ==> ext_route(
                    self.spec_edges(),
                    old(cur_route)@.push(nx),
                    (#[trigger] final(all_routes)@[k])@,
                ),
            !old(cur_route)@.contains(nx) ==> forall|r: Seq<usize>|
                #[trigger] ext_route(self.spec_edges(), old(cur_route)@.push(nx), r)
                    ==> exists|k: int|
                    old(all_routes)@.len() <= k < final(all_routes)@.len() && (#[trigger] final(all_routes)@[
                        k
                    ])@ == r,
        decreases self.spec_nodes().len() - cur_route@.len(),
    {
        let here = contains_id(cur_route, nx);
        if here {
            cur_route.push(nx);
            return ;
        }
        cur_route.push(nx);
        proof {
            assert(cur_route@ =~= old(cur_route)@.push(nx));
            assert forall|a: int, b: int| 0 <= a < b < cur_route@.len() implies cur_route@[a]
                != cur_route@[b] by {
                if b < cur_route@.len() - 1 {
                    assert(old(cur_route)@[a] != old(cur_route)@[b]);
                } else {
                    assert(!old(cur_route)@.contains(nx));
                    assert(old(cur_route)@[a] != nx);
                }
            }
        }
        let children = pg_neighbors_out(&self.graph, nx);
        let node_total = self.nodes.len();
        proof {
            lemma_out_neighbors_edges(self.spec_edges(), nx);
            assert(node_total == self.spec_nodes().len());
        }
        let ghost base = cur_route@;
        let ghost entry_len = all_routes@.len();
        let nch = children.len();
        let mut ci: usize = 0;
        while ci < nch
            invariant
                ci <= nch,
                nch == children@.len(),
                self.wf(),
                node_total == self.spec_nodes().len(),
                nx < self.spec_nodes().len(),
                base == old(cur_route)@.push(nx),
                base.no_duplicates(),
                base.len() >= 1,
                base.last() == nx,
                forall|k: int|
                    0 <= k < base.len() ==> (#[trigger] base[k]) < self.spec_nodes().len(),
                cur_route@ == base,
                children@ == out_neighbors(self.spec_edges(), nx),
                forall|j: int|
                    0 <= j < children@.len() ==> self.spec_edges().contains(
                        (nx, #[trigger] children@[j]),
                    ),
                entry_len == old(all_routes)@.len(),
                all_routes@.len() >= entry_len,
                all_routes@.take(entry_len as int) == old(all_routes)@,
                forall|k: int|
                    entry_len <= k < all_routes@.len() ==> ext_route(
                        self.spec_edges(),
                        base,
                        (#[trigger] all_routes@[k])@,
                    ),
                forall|r: Seq<usize>|
                    #[trigger] ext_route(self.spec_edges(), base, r) && children@.take(
                        ci as int,
                    ).contains(r[base.len() as int]) ==> exists|k: int|
                        entry_len <= k < all_routes@.len() && (#[trigger] all_routes@[k])@ == r,
            decreases nch - ci,
        {
            let c = children[ci];
            proof {
                assert(self.spec_edges().contains((nx, c)));
                let e = choose|e: int|
                    0 <= e < self.spec_edges().len() && #[trigger] self.spec_edges()[e] == (nx, c);
                assert(c < self.spec_nodes().len());
                lemma_distinct_bounded_len(base, self.spec_nodes().len());
            }
            let mut new_route = clone_ids(cur_route);
            let ghost pre_routes = all_routes@;
            self.find_paths(c, &mut new_route, all_routes);
            let ghost mid_routes = all_routes@;
            all_routes.push(new_route);
            ci = ci + 1;
            proof {
                let edges = self.spec_edges();
                let direct = base.push(c);
                assert(new_route@ == direct);
                assert(all_routes@[all_routes@.len() - 1]@ == direct);
                assert(ext_route(edges, base, direct)) by {
                    assert(direct.take(base.len() as int) =~= base);
                    assert(direct.take((direct.len() - 1) as int) =~= base);
                    assert(direct[base.len() - 1] == nx);
                    assert(direct[base.len() as int] == c);
                    assert(edge_exists(edges, nx, c));
                }
                // routes already present are untouched
                assert(all_routes@.take(entry_len as int) =~= old(all_routes)@);
                assert forall|k: int| 0 <= k < mid_routes.len() implies all_routes@[k]
                    == mid_routes[k] by {}
                assert forall|k: int| 0 <= k < pre_routes.len() implies mid_routes[k]
                    == pre_routes[k] by {
                    assert(mid_routes.take(pre_routes.len() as int) == pre_routes);
                }
                // soundness of everything new
                assert forall|k: int| entry_len <= k < all_routes@.len() implies ext_route(
                    edges,
                    base,
                    (#[trigger] all_routes@[k])@,
                ) by {
                    if k < pre_routes.len() {
                        assert(all_routes@[k]@ == pre_routes[k]@);
                    } else if k < mid_routes.len() {
                        assert(!base.contains(c) ==> ext_route(edges, direct, all_routes@[k]@));
                        assert(base.contains(c) ==> mid_routes == pre_routes);
                        lemma_ext_route_weaken(edges, base, c, all_routes@[k]@);
                    }
                }
                // completeness over the children handled so far
                assert forall|r: Seq<usize>|
                    #[trigger] ext_route(edges, base, r) && children@.take(ci as int).contains(
                        r[base.len() as int],
                    ) implies exists|k: int|
                    entry_len <= k < all_routes@.len() && (#[trigger] all_routes@[k])@ == r by {
                    let cnext = r[base.len() as int];
                    if children@.take(ci as int - 1).contains(cnext) {
                        let k0 = choose|k0: int|
                            entry_len <= k0 < mid_routes.len() && (#[trigger] mid_routes[k0])@
                                == r;
                        assert(all_routes@[k0]@ == r);
                    } else {
                        assert(children@.take(ci as int)[ci - 1] == c);
                        assert(cnext == c);
                        if r.len() == base.len() + 1 {
                            assert(r =~= direct);
                            assert(all_routes@[all_routes@.len() - 1]@ == r);
                        } else {
                            // a longer route through a node already on the
                            // route would repeat it before its end
                            if base.contains(c) {
                                let j = choose|j: int|
                                    0 <= j < base.len() && #[trigger] base[j] == c;
                                assert(r.take((r.len() - 1) as int)[j] == base[j]) by {
                                    assert(r.take(base.len() as int)[j] == base[j]);
                                }
                                assert(r.take((r.len() - 1) as int)[base.len() as int] == c);
                                assert(!r.take((r.len() - 1) as int).no_duplicates());
                                assert(false);
                            }
                            assert(ext_route(edges, direct, r)) by {
                                assert(r.take((base.len() + 1) as int) =~= direct) by {
                                    assert forall|q: int|
                                        0 <= q < base.len() implies r.take(
                                        (base.len() + 1) as int,
                                    )[q] == direct[q] by {
                                        assert(r.take(base.len() as int)[q] == base[q]);
                                    }
                                }
                            }
                            let k0 = choose|k0: int|
                                pre_routes.len() <= k0 < mid_routes.len() && (
                                #[trigger] mid_routes[k0])@ == r;
                            assert(all_routes@[k0]@ == r);
                        }
                    }
                }
            }
        }
        proof {
            let edges = self.spec_edges();
            assert(children@.take(nch as int) =~= children@);
            assert forall|r: Seq<usize>| #[trigger] ext_route(edges, base, r) implies exists|
                k: int,
            |
                entry_len <= k < all_routes@.len() && (#[trigger] all_routes@[k])@ == r by {
                let cnext = r[base.len() as int];
                assert(edge_exists(edges, r[base.len() - 1], r[base.len() as int]));
                assert(r[base.len() - 1] == nx) by {
                    assert(r.take(base.len() as int)[base.len() - 1] == base[base.len() - 1]);
                }
                assert(out_neighbors(edges, nx).contains(cnext));
            }
        }
    }

    /// Whether the entry presents some complete route of the graph.
    pub open spec fn repr_of_some_route(self, entry: (String, Vec<String>, Option<usize>)) -> bool {
        exists|rt: Seq<usize>|
            valid_route(self.spec_edges(), self.spec_root(), rt) && #[trigger] self.route_repr(
                rt,
                entry,
            )
    }

    /// Whether `entry` presents the route `rt`: the final node's name,
    /// then the names of the route up to it in order, then — when the
    /// route ends by revisiting a node — the position of that node's
    /// first occurrence.
    pub open spec fn route_repr(
        self,
        rt: Seq<usize>,
        entry: (String, Vec<String>, Option<usize>),
    ) -> bool {
        &&& rt.len() >= 1
        &&& entry.0@ == self.spec_nodes()[rt[rt.len() - 1] as int].name()
        &&& entry.1@.len() == rt.len() - 1
        &&& forall|q: int|
            0 <= q < rt.len() - 1 ==> (#[trigger] entry.1@[q])@ == self.spec_nodes()[rt[q] as int].name()
        &&& entry.2 == spec_cycle_index(rt)
    }

    /// Every node on a complete route is a content node of the graph.
    proof fn lemma_valid_route_bounds(self, rt: Seq<usize>)
        requires
            self.wf(),
            valid_route(self.spec_edges(), self.spec_root(), rt),
        ensures
            forall|q: int| 0 <= q < rt.len() ==> 0 < (#[trigger] rt[q]) < self.spec_nodes().len(),
    {
        let edges = self.spec_edges();
        assert forall|q: int| 0 <= q < rt.len() implies 0 < (#[trigger] rt[q])
            < self.spec_nodes().len() by {
            if q == 0 {
                assert(edge_exists(edges, self.spec_root(), rt[0]));
                let e = choose|e: int|
                    0 <= e < edges.len() && #[trigger] edges[e] == (self.spec_root(), rt[0]);
            } else {
                assert(edge_exists(edges, rt[q - 1], rt[q - 1 + 1]));
                let e = choose|e: int|
                    0 <= e < edges.len() && #[trigger] edges[e] == (rt[q - 1], rt[q]);
            }
        }
    }

    /// Enumerates every route from Root to every reachable node, one
    /// entry per route as `(targetName, ancestorNames, cycleBackIndex)`.
    ///
    /// A node with several parents appears once per route to it. A
    /// route that re-enters a node it already visited ends there, with
    /// the cycle-back index naming the first occurrence, so enumeration
    /// terminates on cyclic graphs. Nodes with no route from Root
    /// appear in no entry.
    #[verifier::rlimit(80)]
    pub fn find_all_paths(&self) -> (r: Vec<(String, Vec<String>, Option<usize>)>)
        requires
            self.wf(),
        ensures
            forall|k: int| 0 <= k < r@.len() ==> self.repr_of_some_route(#[trigger] r@[k]),
            forall|rt: Seq<usize>|
                #[trigger] valid_route(self.spec_edges(), self.spec_root(), rt) ==> exists|k: int|
                    0 <= k < r@.len() && self.route_repr(rt, r@[k]),
    {
        let root = self.root;
        let root_children = pg_neighbors_out(&self.graph, root);
        proof {
            lemma_out_neighbors_edges(self.spec_edges(), root);
        }
        let mut all_routes: Vec<Vec<usize>> = Vec::new();
        let nrc = root_children.len();
        let mut k: usize = 0;
        while k < nrc
            invariant
                k <= nrc,
                nrc == root_children@.len(),
                all_routes@.len() == k,
                forall|j: int|
                    0 <= j < root_children@.len() ==> self.spec_edges().contains(
                        (self.spec_root(), #[trigger] root_children@[j]),
                    ),
                forall|j: int|
                    0 <= j < k ==> (#[trigger] all_routes@[j])@ == seq![root_children@[j]],
            decreases nrc - k,
        {
            let mut seed: Vec<usize> = Vec::new();
            seed.push(root_children[k]);
            proof {
                assert(seed@ =~= seq![root_children@[k as int]]);
            }
            all_routes.push(seed);
            k = k + 1;
        }
        let mut k2: usize = 0;
        while k2 < nrc
            invariant
                k2 <= nrc,
                nrc == root_children@.len(),
                self.wf(),
                all_routes@.len() >= nrc,
                forall|j: int|
                    0 <= j < root_children@.len() ==> self.spec_edges().contains(
                        (self.spec_root(), #[trigger] root_children@[j]),
                    ),
                forall|j: int|
                    0 <= j < nrc ==> (#[trigger] all_routes@[j])@ == seq![root_children@[j]],
                forall|j: int|
                    0 <= j < all_routes@.len() ==> valid_route(
                        self.spec_edges(),
                        self.spec_root(),
                        (#[trigger] all_routes@[j])@,
                    ),
                forall|rt: Seq<usize>|
                    #[trigger] valid_route(self.spec_edges(), self.spec_root(), rt) && rt.len()
                        >= 2 && root_children@.take(k2 as int).contains(rt[0]) ==> exists|j: int|
                        0 <= j < all_routes@.len() && (#[trigger] all_routes@[j])@ == rt,
            decreases nrc - k2,
        {
            let c = root_children[k2];
            proof {
                assert(self.spec_edges().contains((self.spec_root(), c)));
                let e = choose|e: int|
                    0 <= e < self.spec_edges().len() && #[trigger] self.spec_edges()[e] == (
                        self.spec_root(),
                        c,
                    );
                assert(c < self.spec_nodes().len());
            }
            let mut empty_route: Vec<usize> = Vec::new();
            let ghost pre_routes = all_routes@;
            self.find_paths(c, &mut empty_route, &mut all_routes);
            k2 = k2 + 1;
            proof {
                let edges = self.spec_edges();
                let rootv = self.spec_root();
                assert(!Seq::<usize>::empty().contains(c));
                assert(Seq::<usize>::empty().push(c) =~= seq![c]);
                assert forall|j: int| 0 <= j < pre_routes.len() implies all_routes@[j]
                    == pre_routes[j] by {
                    assert(all_routes@.take(pre_routes.len() as int) == pre_routes);
                    assert(all_routes@.take(pre_routes.len() as int)[j] == pre_routes[j]);
                }
                assert forall|j: int| 0 <= j < all_routes@.len() implies valid_route(
                    edges,
                    rootv,
                    (#[trigger] all_routes@[j])@,
                ) by {
                    if j < pre_routes.len() {
                        assert(all_routes@[j] == pre_routes[j]);
                        assert(valid_route(edges, rootv, pre_routes[j]@));
                    } else {
                        assert(ext_route(edges, Seq::<usize>::empty().push(c), all_routes@[j]@));
                        assert(ext_route(edges, seq![c], all_routes@[j]@));
                        lemma_seed_route(edges, rootv, c, all_routes@[j]@);
                    }
                }
                assert forall|j: int| 0 <= j < nrc implies (#[trigger] all_routes@[j])@ == seq![
                    root_children@[j],
                ] by {
                    assert(all_routes@[j] == pre_routes[j]);
                    assert(pre_routes[j]@ == seq![root_children@[j]]);
                }
                assert forall|rt: Seq<usize>|
                    #[trigger] valid_route(edges, rootv, rt) && rt.len() >= 2
                        && root_children@.take(k2 as int).contains(rt[0]) implies exists|j: int|
                    0 <= j < all_routes@.len() && (#[trigger] all_routes@[j])@ == rt by {
                    if root_children@.take(k2 as int - 1).contains(rt[0]) {
                        let j0 = choose|j0: int|
                            0 <= j0 < pre_routes.len() && (#[trigger] pre_routes[j0])@ == rt;
                        assert(all_routes@[j0]@ == rt);
                    } else {
                        assert(root_children@.take(k2 as int)[k2 - 1] == c);
                        assert(rt[0] == c);
                        lemma_seed_route(edges, rootv, c, rt);
                        assert(ext_route(edges, seq![c], rt));
                        assert(ext_route(edges, Seq::<usize>::empty().push(c), rt));
                    }
                }
            }
        }
        proof {
            assert(root_children@.take(nrc as int) =~= root_children@);
        }
        let mut out: Vec<(String, Vec<String>, Option<usize>)> = Vec::new();
        let nar = all_routes.len();
        let mut t: usize = 0;
        while t < nar
            invariant
                t <= nar,
                nar == all_routes@.len(),
                self.wf(),
                out@.len() == t,
                forall|j: int|
                    0 <= j < all_routes@.len() ==> valid_route(
                        self.spec_edges(),
                        self.spec_root(),
                        (#[trigger] all_routes@[j])@,
                    ),
                forall|j: int|
                    0 <= j < t ==> self.route_repr((#[trigger] all_routes@[j])@, out@[j]),
            decreases nar - t,
        {
            let route = &all_routes[t];
            proof {
                self.lemma_valid_route_bounds(route@);
            }
            let mut prefix = clone_ids(route);
            let last = match prefix.pop() {
                Some(v) => v,
                None => 0,
            };
            proof {
                assert(prefix@ =~= route@.take(route@.len() - 1));
                assert forall|q: int| 0 <= q < prefix@.len() implies (#[trigger] prefix@[q])
                    < self.spec_nodes().len() by {
                    assert(prefix@[q] == route@[q]);
                }
            }
            let names = self.ixs_to_name(&prefix);
            let target = self.ix_to_name(last);
            let cyc = cycle_index_of(route);
            proof {
                let rt = route@;
                assert(rt.take(rt.len() - 1).no_duplicates());
                assert(self.route_repr(rt, (target, names, cyc))) by {
                    assert(last == rt[rt.len() - 1]);
                    assert forall|q: int| 0 <= q < rt.len() - 1 implies (#[trigger] names@[q])@
                        == self.spec_nodes()[rt[q] as int].name() by {
                        assert(names@[q]@ == self.spec_nodes()[prefix@[q] as int].name());
                        assert(prefix@[q] == rt[q]);
                    }
                }
            }
            out.push((target, names, cyc));
            t = t + 1;
        }
        proof {
            assert forall|k3: int| 0 <= k3 < out@.len() implies self.repr_of_some_route(
                #[trigger] out@[k3],
            ) by {
                assert(valid_route(self.spec_edges(), self.spec_root(), all_routes@[k3]@));
                assert(self.route_repr(all_routes@[k3]@, out@[k3]));
            }
            assert forall|rt: Seq<usize>|
                #[trigger] valid_route(self.spec_edges(), self.spec_root(), rt) implies exists|
                k3: int,
            |
                0 <= k3 < out@.len() && self.route_repr(rt, out@[k3]) by {
                if rt.len() == 1 {
                    assert(self.spec_edges().contains((self.spec_root(), rt[0])));
                    lemma_out_neighbors_edges(self.spec_edges(), self.spec_root());
                    assert(root_children@.contains(rt[0]));
                    let j = choose|j: int|
                        0 <= j < root_children@.len() && #[trigger] root_children@[j] == rt[0];
                    assert(all_routes@[j]@ =~= rt);
                    assert(self.route_repr(rt, out@[j]));
                } else {
                    assert(self.spec_edges().contains((self.spec_root(), rt[0])));
                    lemma_out_neighbors_edges(self.spec_edges(), self.spec_root());
                    assert(root_children@.contains(rt[0]));
                    let j = choose|j: int|
                        0 <= j < all_routes@.len() && (#[trigger] all_routes@[j])@ == rt;
                    assert(self.route_repr(rt, out@[j]));
                }
            }
        }
        out
    }

    /// The whole diagnostic dump: a `digraph {` header, one line per
    /// node, one line per edge, and a closing brace.
    pub open spec fn spec_dot(self) -> Seq<char> {
        seq!['d', 'i', 'g', 'r', 'a', 'p', 'h', ' ', '{'] + spec_dot_node_lines(
            self.spec_nodes(),
            self.spec_nodes().len() as int,
        ) + spec_dot_edge_lines(self.spec_edges(), self.spec_edges().len() as int) + seq![
            '\n',
            '}',
        ]
    }

    /// A deterministic graphviz-style dump for visual inspection: one
    /// line per node in arena order (`<index> [label="..."]`), then one
    /// line per edge (`<src> -> <dst>`).
    pub fn dot(&self) -> (r: String)
        requires
            self.wf(),
        ensures
            r@ == self.spec_dot(),
    {
        proof {
            reveal_strlit("digraph {");
            reveal_strlit("\n    ");
            reveal_strlit(" [label=\"");
            reveal_strlit("\"]");
            reveal_strlit("ROOT");
            reveal_strlit("Post(");
            reveal_strlit("Category(");
            reveal_strlit(")");
            reveal_strlit(" -> ");
            reveal_strlit("\n}");
            assert("digraph {"@ =~= seq!['d', 'i', 'g', 'r', 'a', 'p', 'h', ' ', '{']);
            assert("\n    "@ =~= seq!['\n', ' ', ' ', ' ', ' ']);
            assert(" [label=\""@ =~= seq![' ', '[', 'l', 'a', 'b', 'e', 'l', '=', '"']);
            assert("\"]"@ =~= seq!['"', ']']);
            assert("ROOT"@ =~= seq!['R', 'O', 'O', 'T']);
            assert("Post("@ =~= seq!['P', 'o', 's', 't', '(']);
            assert("Category("@ =~= seq!['C', 'a', 't', 'e', 'g', 'o', 'r', 'y', '(']);
            assert(")"@ =~= seq![')']);
            assert(" -> "@ =~= seq![' ', '-', '>', ' ']);
            assert("\n}"@ =~= seq!['\n', '}']);
        }
        let ghost header = seq!['d', 'i', 'g', 'r', 'a', 'p', 'h', ' ', '{'];
        let mut out: String = "digraph {".to_owned();
        let n = self.nodes.len();
        let mut i: usize = 0;
        proof {
            assert(out@ =~= header + spec_dot_node_lines(self.spec_nodes(), 0));
        }
        while i < n
            invariant
                i <= n,
                n == self.spec_nodes().len(),
                self.wf(),
                out@ == seq!['d', 'i', 'g', 'r', 'a', 'p', 'h', ' ', '{'] + spec_dot_node_lines(
                    self.spec_nodes(),
                    i as int,
                ),
            decreases n - i,
        {
            proof {
                reveal_strlit("\n    ");
                reveal_strlit(" [label=\"");
                reveal_strlit("\"]");
                reveal_strlit("ROOT");
                reveal_strlit("Post(");
                reveal_strlit("Category(");
                reveal_strlit(")");
                assert("\n    "@ =~= seq!['\n', ' ', ' ', ' ', ' ']);
                assert(" [label=\""@ =~= seq![' ', '[', 'l', 'a', 'b', 'e', 'l', '=', '"']);
                assert("\"]"@ =~= seq!['"', ']']);
                assert("ROOT"@ =~= seq!['R', 'O', 'O', 'T']);
                assert("Post("@ =~= seq!['P', 'o', 's', 't', '(']);
                assert("Category("@ =~= seq!['C', 'a', 't', 'e', 'g', 'o', 'r', 'y', '(']);
                assert(")"@ =~= seq![')']);
            }
            let ghost pre_out = out@;
            out.append("\n    ");
            let num = crate::text::usize_to_string(i);
            out.append(num.as_str());
            out.append(" [label=\"");
            match &self.nodes[i] {
                PostNode::Root => {
                    out.append("ROOT");
                },
                PostNode::Node(item) => {
                    match item {
                        PostTypes::Post(_) => {
                            out.append("Post(");
                        },
                        PostTypes::Category(_) => {
                            out.append("Category(");
                        },
                    }
                    let nm = item.name();
                    out.append(nm.as_str());
                    out.append(")");
                },
            }
            out.append("\"]");
            i = i + 1;
            proof {
                assert(out@ =~= pre_out + spec_dot_node_line(
                    self.spec_nodes()[i - 1],
                    i as int - 1,
                ));
                assert(out@ =~= seq!['d', 'i', 'g', 'r', 'a', 'p', 'h', ' ', '{']
                    + spec_dot_node_lines(self.spec_nodes(), i as int));
            }
        }
        let edge_list = pg_edge_list(&self.graph);
        let ghost node_part = out@;
        let ne = edge_list.len();
        let mut j: usize = 0;
        proof {
            assert(out@ =~= node_part + spec_dot_edge_lines(self.spec_edges(), 0));
        }
        while j < ne
            invariant
                j <= ne,
                ne == self.spec_edges().len(),
                edge_list@ == self.spec_edges(),
                out@ == node_part + spec_dot_edge_lines(self.spec_edges(), j as int),
            decreases ne - j,
        {
            proof {
                reveal_strlit("\n    ");
                reveal_strlit(" -> ");
                assert("\n    "@ =~= seq!['\n', ' ', ' ', ' ', ' ']);
                assert(" -> "@ =~= seq![' ', '-', '>', ' ']);
            }
            let ghost pre_out = out@;
            let (a, b) = (edge_list[j].0, edge_list[j].1);
            out.append("\n    ");
            let na = crate::text::usize_to_string(a);
            out.append(na.as_str());
            out.append(" -> ");
            let nb = crate::text::usize_to_string(b);
            out.append(nb.as_str());
            j = j + 1;
            proof {
                assert(out@ =~= pre_out + spec_dot_edge_line(self.spec_edges()[j - 1]));
                assert(out@ =~= node_part + spec_dot_edge_lines(self.spec_edges(), j as int));
            }
        }
        proof {
            reveal_strlit("\n}");
            assert("\n}"@ =~= seq!['\n', '}']);
        }
        out.append("\n}");
        proof {
            assert(out@ =~= self.spec_dot());
        }
        out
    }

    /// Builds the whole graph from the items in two strict phases: a
    /// node is added and registered for every item, and only then the
    /// edges, one `add_edge` call per item. Edge errors are accumulated
    /// across all items and returned together, so a single run surfaces
    /// every broken reference at once; every item whose parents all
    /// resolve still gets its edges.
    ///
    /// When no name is shared between items (and none collides with an
    /// earlier registration), every name of item `i` resolves to its own
    /// node: the clause below says so for each name whose later items do
    /// not re-register it.
    pub fn add_posts(&mut self, items: &Vec<PostTypes>) -> (r: Result<(), Vec<GraphError>>)
        requires
            old(self).wf(),
            old(self).spec_nodes().len() + items@.len() <= usize::MAX,
        ensures
            final(self).wf(),
            final(self).spec_root() == old(self).spec_root(),
            final(self).spec_nodes() == old(self).spec_nodes() + items@.map_values(
                |it: PostTypes| PostNodeValue::Node(it.dv()),
            ),
            final(self).spec_name_entries() == old(self).spec_name_entries() + entries_for_items(
                items@,
                old(self).spec_nodes().len() as int,
            ),
            final(self).spec_edges().len() >= old(self).spec_edges().len(),
            old(self).spec_edges() == final(self).spec_edges().take(
                old(self).spec_edges().len() as int,
            ),
            phase2_appended(
                final(self).spec_name_entries(),
                final(self).spec_root(),
                items@,
                final(self).spec_edges().skip(old(self).spec_edges().len() as int),
            ),
            (r is Ok) == (failing_items(
                final(self).spec_name_entries(),
                final(self).spec_root(),
                items@,
            ).len() == 0),
            (r matches Err(es) ==> {
                let failing = failing_items(
                    final(self).spec_name_entries(),
                    final(self).spec_root(),
                    items@,
                );
                &&& es@.len() == failing.len()
                &&& es@.len() > 0
                &&& forall|k: int|
                    0 <= k < es@.len() ==> is_missing_edge_error_for(
                        #[trigger] es@[k],
                        final(self).spec_name_entries(),
                        final(self).spec_root(),
                        failing[k],
                    )
            }),
            forall|i: int, k: int|
                #![trigger items@[i].spec_names()[k]]
                0 <= i < items@.len() && 0 <= k < items@[i].spec_names().len() && (forall|j: int|
                    i < j < items@.len() ==> !(#[trigger] items@[j].spec_names()).contains(
                        items@[i].spec_names()[k],
                    )) ==> final(self).spec_resolve(items@[i].spec_names()[k]) == Some(
                    ((old(self).spec_nodes().len() + i) as usize),
                ),
    {
        let ghost base_nodes = old(self).spec_nodes().len() as int;
        let n = items.len();
        let mut i: usize = 0;
        proof {
            assert(entries_for_items(items@.take(0), base_nodes) =~= Seq::<
                (Seq<char>, usize),
            >::empty());
            assert(old(self).spec_nodes() + items@.take(0).map_values(
                |it: PostTypes| PostNodeValue::Node(it.dv()),
            ) =~= old(self).spec_nodes());
            assert(old(self).spec_name_entries() + entries_for_items(items@.take(0), base_nodes)
                =~= old(self).spec_name_entries());
        }
        while i < n
            invariant
                i <= n,
                n == items@.len(),
                old(self).spec_nodes().len() + items@.len() <= usize::MAX,
                self.wf(),
                self.spec_root() == old(self).spec_root(),
                self.spec_edges() == old(self).spec_edges(),
                base_nodes == old(self).spec_nodes().len() as int,
                self.spec_nodes() == old(self).spec_nodes() + items@.take(i as int).map_values(
                    |it: PostTypes| PostNodeValue::Node(it.dv()),
                ),
                self.spec_name_entries() == old(self).spec_name_entries() + entries_for_items(
                    items@.take(i as int),
                    base_nodes,
                ),
            decreases n - i,
        {
            let ix = self.add_node(&items[i]);
            i = i + 1;
            proof {
                assert(items@.take(i as int) =~= items@.take(i as int - 1).push(items@[i - 1]));
                lemma_efi_snoc(items@.take(i as int - 1), items@[i - 1], base_nodes);
                assert(self.spec_nodes() =~= old(self).spec_nodes() + items@.take(
                    i as int,
                ).map_values(|it: PostTypes| PostNodeValue::Node(it.dv())));
                assert(self.spec_name_entries() =~= old(self).spec_name_entries()
                    + entries_for_items(items@.take(i as int), base_nodes));
            }
        }
        proof {
            assert(items@.take(n as int) =~= items@);
        }
        let ghost ents = self.spec_name_entries();
        let ghost rt = self.spec_root();
        let ghost base_edges = self.spec_edges().len() as int;
        let mut errors: Vec<GraphError> = Vec::new();
        let mut t: usize = 0;
        proof {
            reveal(Seq::filter);
            assert(self.spec_edges().skip(base_edges) =~= Seq::<(usize, usize)>::empty());
            assert(failing_items(ents, rt, items@.take(0)) =~= Seq::<PostTypes>::empty());
        }
        while t < n
            invariant
                t <= n,
                n == items@.len(),
                self.wf(),
                self.spec_root() == old(self).spec_root(),
                rt == self.spec_root(),
                self.spec_name_entries() == ents,
                ents == old(self).spec_name_entries() + entries_for_items(items@, base_nodes),
                base_nodes == old(self).spec_nodes().len() as int,
                self.spec_nodes() == old(self).spec_nodes() + items@.map_values(
                    |it: PostTypes| PostNodeValue::Node(it.dv()),
                ),
                base_edges == old(self).spec_edges().len() as int,
                self.spec_edges().len() >= base_edges,
                old(self).spec_edges() == self.spec_edges().take(base_edges),
                phase2_appended(ents, rt, items@.take(t as int), self.spec_edges().skip(base_edges)),
                errors@.len() == failing_items(ents, rt, items@.take(t as int)).len(),
                forall|k: int|
                    0 <= k < errors@.len() ==> is_missing_edge_error_for(
                        #[trigger] errors@[k],
                        ents,
                        rt,
                        failing_items(ents, rt, items@.take(t as int))[k],
                    ),
            decreases n - t,
        {
            proof {
                assert(items@[t as int].spec_names().last() == items@[t as int].spec_name());
                assert(items@[t as int].spec_names().contains(items@[t as int].spec_name()));
                lemma_efi_resolve_some(
                    items@,
                    base_nodes,
                    t as int,
                    items@[t as int].spec_name(),
                );
                crate::registry::lemma_resolve_append(
                    old(self).spec_name_entries(),
                    entries_for_items(items@, base_nodes),
                    items@[t as int].spec_name(),
                );
            }
            let nm = items[t].name();
            let ghost pre_edges_full = self.spec_edges();
            let ghost pre_tail = self.spec_edges().skip(base_edges);
            let r1 = self.add_edge(nm.as_str(), items[t].parents());
            let ghost tail = self.spec_edges().skip(base_edges);
            proof {
                reveal(Seq::filter);
                assert(items@.take(t as int + 1).drop_last() =~= items@.take(t as int));
                assert(items@.take(t as int + 1).last() == items@[t as int]);
                let it = items@[t as int];
                let parents = it.spec_parents();
                let child = crate::registry::spec_resolve_in(ents, it.spec_name())->Some_0;
                assert(nm@ == it.spec_name());
                assert(pre_edges_full.len() >= base_edges);
                if parents.len() == 0 {
                    assert(self.spec_edges() == pre_edges_full.push((rt, child)));
                    assert(tail =~= pre_tail.push((rt, child)));
                    assert(tail.drop_last() =~= pre_tail);
                } else if missing_parents_in(ents, rt, parents).len() > 0 {
                    assert(self.spec_edges() == pre_edges_full);
                    assert(tail =~= pre_tail);
                } else {
                    let b = pre_tail.len() as int;
                    assert(pre_edges_full == self.spec_edges().take(pre_edges_full.len() as int));
                    assert(edge_batch_in(
                        ents,
                        rt,
                        child,
                        parents,
                        self.spec_edges().skip(pre_edges_full.len() as int),
                    ));
                    assert(tail.take(b) =~= pre_tail);
                    assert(tail.skip(b) =~= self.spec_edges().skip(pre_edges_full.len() as int));
                    assert(0 <= b <= tail.len());
                }
                assert(self.spec_edges().len() >= base_edges);
                assert(old(self).spec_edges() =~= self.spec_edges().take(base_edges));
                assert(phase2_appended(ents, rt, items@.take(t as int + 1), tail));
            }
            match r1 {
                Ok(()) => (),
                Err(e) => {
                    errors.push(e);
                },
            }
            t = t + 1;
            proof {
                reveal(Seq::filter);
                assert(items@.take(t as int).drop_last() =~= items@.take(t as int - 1));
                assert(items@.take(t as int).last() == items@[t - 1]);
                assert(errors@.len() == failing_items(ents, rt, items@.take(t as int)).len());
            }
        }
        proof {
            assert(items@.take(n as int) =~= items@);
            assert forall|i0: int, k: int|
                #![trigger items@[i0].spec_names()[k]]
                0 <= i0 < items@.len() && 0 <= k < items@[i0].spec_names().len() && (forall|
                    j: int,
                |
                    i0 < j < items@.len() ==> !(#[trigger] items@[j].spec_names()).contains(
                        items@[i0].spec_names()[k],
                    )) implies self.spec_resolve(items@[i0].spec_names()[k]) == Some(
                ((old(self).spec_nodes().len() + i0) as usize),
            ) by {
                let nm0 = items@[i0].spec_names()[k];
                assert(items@[i0].spec_names().contains(nm0));
                lemma_efi_resolve_last_writer(items@, base_nodes, i0, nm0);
                crate::registry::lemma_resolve_append(
                    old(self).spec_name_entries(),
                    entries_for_items(items@, base_nodes),
                    nm0,
                );
            }
        }
        if errors.is_empty() {
            Ok(())
        } else {
            Err(errors)
        }
    }

    /// Root's node identifier.
    pub fn root(&self) -> (r: usize)
        ensures
            r == self.spec_root(),
    {
        self.root
    }

    /// Looks a qualified name up in the registry.
    pub fn resolve(&self, name: &str) -> (r: Option<usize>)
        ensures
            r == self.spec_resolve(name@),
    {
        self.names.resolve(name)
    }

    /// The node a qualified name resolves to. The name must be
    /// registered: edges are only added after every node exists.
    pub fn getidx(&self, postname: &str) -> (r: usize)
        requires
            self.wf(),
            self.spec_resolve(postname@) is Some,
        ensures
            Some(r) == self.spec_resolve(postname@),
            1 <= r < self.spec_nodes().len(),
    {
        let r = self.names.resolve(postname);
        proof {
            lemma_resolve_is_entry(self.spec_name_entries(), postname@);
        }
        r.unwrap()
    }

    /// The direct children of `idx`: the targets of its outgoing edges,
    /// most recently linked first.
    pub open spec fn spec_children_of(self, idx: usize) -> Seq<usize> {
        out_neighbors(self.spec_edges(), idx)
    }

    /// The direct parents of `idx`: the sources of its incoming edges,
    /// most recently linked first.
    pub open spec fn spec_parents_of(self, idx: usize) -> Seq<usize> {
        in_neighbors(self.spec_edges(), idx)
    }

    /// The identifiers of the node's direct children, most recently
    /// linked first.
    pub fn children_of(&self, idx: usize) -> (r: Vec<usize>)
        requires
            self.wf(),
            idx < self.spec_nodes().len(),
        ensures
            r@ == self.spec_children_of(idx),
    {
        pg_neighbors_out(&self.graph, idx)
    }

    /// The identifiers of the node's direct parents, most recently
    /// linked first.
    pub fn parents_of(&self, idx: usize) -> (r: Vec<usize>)
        requires
            self.wf(),
            idx < self.spec_nodes().len(),
        ensures
            r@ == self.spec_parents_of(idx),
    {
        pg_neighbors_in(&self.graph, idx)
    }

    /// The node's display name: the item's qualified name, or `"Root"`.
    fn ix_to_name(&self, ix: usize) -> (r: String)
        requires
            self.wf(),
            ix < self.spec_nodes().len(),
        ensures
            r@ == self.spec_nodes()[ix as int].name(),
    {
        match &self.nodes[ix] {
            PostNode::Node(item) => item.name(),
            PostNode::Root => {
                proof {
                    reveal_strlit("Root");
                    assert("Root"@ =~= seq!['R', 'o', 'o', 't']);
                }
                "Root".to_owned()
            },
        }
    }

    /// The display names of the listed nodes, in order.
    fn ixs_to_name(&self, ixs: &Vec<usize>) -> (r: Vec<String>)
        requires
            self.wf(),
            forall|k: int| 0 <= k < ixs@.len() ==> (#[trigger] ixs@[k]) < self.spec_nodes().len(),
        ensures
            r@.len() == ixs@.len(),
            forall|k: int|
                0 <= k < ixs@.len() ==> (#[trigger] r@[k])@ == self.spec_nodes()[ixs@[k] as int].name(),
    {
        let mut out: Vec<String> = Vec::new();
        let n = ixs.len();
        let mut k: usize = 0;
        while k < n
            invariant
                k <= n,
                n == ixs@.len(),
                self.wf(),
                forall|j: int|
                    0 <= j < ixs@.len() ==> (#[trigger] ixs@[j]) < self.spec_nodes().len(),
                out@.len() == k,
                forall|j: int|
                    0 <= j < k ==> (#[trigger] out@[j])@ == self.spec_nodes()[ixs@[j] as int].name(),
            decreases n - k,
        {
            out.push(self.ix_to_name(ixs[k]));
            k = k + 1;
        }
        out
    }

    /// The direct child categories of the node, sorted ascending by
    /// bare name.
    pub fn get_child_cats(&self, idx: usize) -> (r: Vec<Category>)
        requires
            self.wf(),
            idx < self.spec_nodes().len(),
        ensures
            forall|a: int, b: int|
                0 <= a < b < r@.len() ==> lex_le(
                    (#[trigger] r@[a]).name@,
                    (#[trigger] r@[b]).name@,
                ),
            r@.map_values(|c: Category| c.dv()).to_multiset() == cat_values_of(
                self.spec_nodes(),
                self.spec_children_of(idx),
            ).to_multiset(),
    {
        broadcast use vstd::seq_lib::group_to_multiset_ensures;

        let ns = pg_neighbors_out(&self.graph, idx);
        proof {
            lemma_out_neighbors_edges(self.spec_edges(), idx);
        }
        let mut pairs: Vec<(String, Category)> = Vec::new();
        let n = ns.len();
        let mut k: usize = 0;
        proof {
            assert(cat_values_of(self.spec_nodes(), ns@.take(0)) =~= Seq::<CategoryValue>::empty());
            assert(pairs@.map_values(|p: (String, Category)| p.1.dv()) =~= Seq::<
                CategoryValue,
            >::empty());
        }
        while k < n
            invariant
                k <= n,
                n == ns@.len(),
                self.wf(),
                idx < self.spec_nodes().len(),
                ns@ == self.spec_children_of(idx),
                forall|j: int|
                    0 <= j < ns@.len() ==> self.spec_edges().contains((idx, #[trigger] ns@[j])),
                pairs@.map_values(|p: (String, Category)| p.1.dv()) == cat_values_of(
                    self.spec_nodes(),
                    ns@.take(k as int),
                ),
                forall|j: int| 0 <= j < pairs@.len() ==> (#[trigger] pairs@[j]).0 == pairs@[j].1.name,
            decreases n - k,
        {
            let nx = ns[k];
            proof {
                assert(self.spec_edges().contains((idx, nx)));
                let e = choose|e: int|
                    0 <= e < self.spec_edges().len() && #[trigger] self.spec_edges()[e] == (
                        idx,
                        nx,
                    );
                assert(nx < self.spec_nodes().len());
            }
            match &self.nodes[nx] {
                PostNode::Node(PostTypes::Category(c)) => {
                    pairs.push((c.name.clone(), c.duplicate()));
                },
                _ => {},
            }
            k = k + 1;
            proof {
                assert(ns@.take(k as int).drop_last() =~= ns@.take(k as int - 1));
                assert(ns@.take(k as int).last() == ns@[k - 1]);
                assert(pairs@.map_values(|p: (String, Category)| p.1.dv()) =~= cat_values_of(
                    self.spec_nodes(),
                    ns@.take(k as int),
                ));
            }
        }
        proof {
            assert(ns@.take(n as int) =~= ns@);
        }
        let ghost pv = pairs@;
        let sorted = sort_pairs_by_name(pairs);
        proof {
            assert forall|j: int| 0 <= j < sorted@.len() implies (#[trigger] sorted@[j]).0
                == sorted@[j].1.name by {
                assert(sorted@.contains(sorted@[j]));
                assert(sorted@.to_multiset().count(sorted@[j]) > 0);
                assert(pv.contains(sorted@[j]));
            }
            lemma_map_values_multiset(sorted@, pv, |p: (String, Category)| p.1.dv());
        }
        let ghost sv = sorted@;
        let mut out: Vec<Category> = Vec::new();
        let mut rest = sorted;
        while rest.len() > 0
            invariant
                out@.len() + rest@.len() == sv.len(),
                rest@ == sv.skip(out@.len() as int),
                forall|j: int| 0 <= j < out@.len() ==> #[trigger] out@[j] == sv[j].1,
            decreases rest.len(),
        {
            let (nm, c) = rest.remove(0);
            out.push(c);
            proof {
                assert(rest@ =~= sv.skip(out@.len() as int));
            }
        }
        proof {
            assert(out@ =~= sv.map_values(|p: (String, Category)| p.1));
            assert(out@.map_values(|c: Category| c.dv()) =~= sv.map_values(
                |p: (String, Category)| p.1.dv(),
            ));
            assert forall|a: int, b: int| 0 <= a < b < out@.len() implies lex_le(
                (#[trigger] out@[a]).name@,
                (#[trigger] out@[b]).name@,
            ) by {
                assert(out@[a] == sv[a].1);
                assert(out@[b] == sv[b].1);
                assert(lex_le(sv[a].0@, sv[b].0@));
            }
        }
        out
    }

    /// The direct child posts of the node, sorted ascending by bare
    /// name.
    pub fn get_child_posts(&self, idx: usize) -> (r: Vec<Post>)
        requires
            self.wf(),
            idx < self.spec_nodes().len(),
        ensures
            forall|a: int, b: int|
                0 <= a < b < r@.len() ==> lex_le(
                    (#[trigger] r@[a]).name@,
                    (#[trigger] r@[b]).name@,
                ),
            r@.map_values(|p: Post| p.dv()).to_multiset() == post_values_of(
                self.spec_nodes(),
                self.spec_children_of(idx),
            ).to_multiset(),
    {
        broadcast use vstd::seq_lib::group_to_multiset_ensures;

        let ns = pg_neighbors_out(&self.graph, idx);
        proof {
            lemma_out_neighbors_edges(self.spec_edges(), idx);
        }
        let mut pairs: Vec<(String, Post)> = Vec::new();
        let n = ns.len();
        let mut k: usize = 0;
        proof {
            assert(post_values_of(self.spec_nodes(), ns@.take(0)) =~= Seq::<PostValue>::empty());
            assert(pairs@.map_values(|p: (String, Post)| p.1.dv()) =~= Seq::<PostValue>::empty());
        }
        while k < n
            invariant
                k <= n,
                n == ns@.len(),
                self.wf(),
                idx < self.spec_nodes().len(),
                ns@ == self.spec_children_of(idx),
                forall|j: int|
                    0 <= j < ns@.len() ==> self.spec_edges().contains((idx, #[trigger] ns@[j])),
                pairs@.map_values(|p: (String, Post)| p.1.dv()) == post_values_of(
                    self.spec_nodes(),
                    ns@.take(k as int),
                ),
                forall|j: int| 0 <= j < pairs@.len() ==> (#[trigger] pairs@[j]).0 == pairs@[j].1.name,
            decreases n - k,
        {
            let nx = ns[k];
            proof {
                assert(self.spec_edges().contains((idx, nx)));
                let e = choose|e: int|
                    0 <= e < self.spec_edges().len() && #[trigger] self.spec_edges()[e] == (
                        idx,
                        nx,
                    );
                assert(nx < self.spec_nodes().len());
            }
            match &self.nodes[nx] {
                PostNode::Node(PostTypes::Post(p)) => {
                    pairs.push((p.name.clone(), p.duplicate()));
                },
                _ => {},
            }
            k = k + 1;
            proof {
                assert(ns@.take(k as int).drop_last() =~= ns@.take(k as int - 1));
                assert(ns@.take(k as int).last() == ns@[k - 1]);
                assert(pairs@.map_values(|p: (String, Post)| p.1.dv()) =~= post_values_of(
                    self.spec_nodes(),
                    ns@.take(k as int),
                ));
            }
        }
        proof {
            assert(ns@.take(n as int) =~= ns@);
        }
        let ghost pv = pairs@;
        let sorted = sort_pairs_by_name(pairs);
        proof {
            assert forall|j: int| 0 <= j < sorted@.len() implies (#[trigger] sorted@[j]).0
                == sorted@[j].1.name by {
                assert(sorted@.contains(sorted@[j]));
                assert(sorted@.to_multiset().count(sorted@[j]) > 0);
                assert(pv.contains(sorted@[j]));
            }
            lemma_map_values_multiset(sorted@, pv, |p: (String, Post)| p.1.dv());
        }
        let ghost sv = sorted@;
        let mut out: Vec<Post> = Vec::new();
        let mut rest = sorted;
        while rest.len() > 0
            invariant
                out@.len() + rest@.len() == sv.len(),
                rest@ == sv.skip(out@.len() as int),
                forall|j: int| 0 <= j < out@.len() ==> #[trigger] out@[j] == sv[j].1,
            decreases rest.len(),
        {
            let (nm, c) = rest.remove(0);
            out.push(c);
            proof {
                assert(rest@ =~= sv.skip(out@.len() as int));
            }
        }
        proof {
            assert(out@ =~= sv.map_values(|p: (String, Post)| p.1));
            assert(out@.map_values(|c: Post| c.dv()) =~= sv.map_values(
                |p: (String, Post)| p.1.dv(),
            ));
            assert forall|a: int, b: int| 0 <= a < b < out@.len() implies lex_le(
                (#[trigger] out@[a]).name@,
                (#[trigger] out@[b]).name@,
            ) by {
                assert(out@[a] == sv[a].1);
                assert(out@[b] == sv[b].1);
                assert(lex_le(sv[a].0@, sv[b].0@));
            }
        }
        out
    }

    /// The display names of the item's direct children, sorted
    /// ascending.
    pub fn get_children_names(&self, post: &PostTypes) -> (r: Vec<String>)
        requires
            self.wf(),
            self.spec_resolve(post.spec_name()) is Some,
        ensures
            forall|a: int, b: int|
                0 <= a < b < r@.len() ==> lex_le((#[trigger] r@[a])@, (#[trigger] r@[b])@),
            r@.map_values(|s: String| s@).to_multiset() == names_of(
                self.spec_nodes(),
                self.spec_children_of(self.spec_resolve(post.spec_name())->Some_0),
            ).to_multiset(),
    {
        let name = post.name();
        let idx = self.getidx(name.as_str());
        let ns = pg_neighbors_out(&self.graph, idx);
        proof {
            lemma_out_neighbors_edges(self.spec_edges(), idx);
        }
        self.sorted_names_of(ns, idx, true)
    }

    /// The display names of the item's direct parents, sorted
    /// ascending.
    pub fn get_parent_names(&self, post: &PostTypes) -> (r: Vec<String>)
        requires
            self.wf(),
            self.spec_resolve(post.spec_name()) is Some,
        ensures
            forall|a: int, b: int|
                0 <= a < b < r@.len() ==> lex_le((#[trigger] r@[a])@, (#[trigger] r@[b])@),
            r@.map_values(|s: String| s@).to_multiset() == names_of(
                self.spec_nodes(),
                self.spec_parents_of(self.spec_resolve(post.spec_name())->Some_0),
            ).to_multiset(),
    {
        let name = post.name();
        let idx = self.getidx(name.as_str());
        let ns = pg_neighbors_in(&self.graph, idx);
        proof {
            lemma_in_neighbors_edges(self.spec_edges(), idx);
        }
        self.sorted_names_of(ns, idx, false)
    }

    /// Sorts the display names of the given nodes ascending.
    fn sorted_names_of(&self, ns: Vec<usize>, idx: usize, outgoing: bool) -> (r: Vec<String>)
        requires
            self.wf(),
            outgoing ==> forall|j: int|
                0 <= j < ns@.len() ==> self.spec_edges().contains((idx, #[trigger] ns@[j])),
            !outgoing ==> forall|j: int|
                0 <= j < ns@.len() ==> self.spec_edges().contains((#[trigger] ns@[j], idx)),
        ensures
            forall|a: int, b: int|
                0 <= a < b < r@.len() ==> lex_le((#[trigger] r@[a])@, (#[trigger] r@[b])@),
            r@.map_values(|s: String| s@).to_multiset() == names_of(self.spec_nodes(), ns@)
                .to_multiset(),
    {
        broadcast use vstd::seq_lib::group_to_multiset_ensures;

        let mut pairs: Vec<(String, usize)> = Vec::new();
        let n = ns.len();
        let mut k: usize = 0;
        proof {
            assert(names_of(self.spec_nodes(), ns@.take(0)) =~= Seq::<Seq<char>>::empty());
            assert(pairs@.map_values(|p: (String, usize)| p.0@) =~= Seq::<Seq<char>>::empty());
        }
        while k < n
            invariant
                k <= n,
                n == ns@.len(),
                self.wf(),
                outgoing ==> forall|j: int|
                    0 <= j < ns@.len() ==> self.spec_edges().contains((idx, #[trigger] ns@[j])),
                !outgoing ==> forall|j: int|
                    0 <= j < ns@.len() ==> self.spec_edges().contains((#[trigger] ns@[j], idx)),
                pairs@.map_values(|p: (String, usize)| p.0@) == names_of(
                    self.spec_nodes(),
                    ns@.take(k as int),
                ),
            decreases n - k,
        {
            let nx = ns[k];
            proof {
                if outgoing {
                    assert(self.spec_edges().contains((idx, nx)));
                    let e = choose|e: int|
                        0 <= e < self.spec_edges().len() && #[trigger] self.spec_edges()[e] == (
                            idx,
                            nx,
                        );
                } else {
                    assert(self.spec_edges().contains((nx, idx)));
                    let e = choose|e: int|
                        0 <= e < self.spec_edges().len() && #[trigger] self.spec_edges()[e] == (
                            nx,
                            idx,
                        );
                }
                assert(nx < self.spec_nodes().len());
            }
            pairs.push((self.ix_to_name(nx), nx));
            k = k + 1;
            proof {
                assert(ns@.take(k as int).drop_last() =~= ns@.take(k as int - 1));
                assert(ns@.take(k as int).last() == ns@[k - 1]);
                assert(pairs@.map_values(|p: (String, usize)| p.0@) =~= names_of(
                    self.spec_nodes(),
                    ns@.take(k as int),
                ));
            }
        }
        proof {
            assert(ns@.take(n as int) =~= ns@);
        }
        let ghost pv = pairs@;
        let sorted = sort_pairs_by_name(pairs);
        proof {
            lemma_map_values_multiset(sorted@, pv, |p: (String, usize)| p.0@);
        }
        let ghost sv = sorted@;
        let mut out: Vec<String> = Vec::new();
        let mut rest = sorted;
        while rest.len() > 0
            invariant
                out@.len() + rest@.len() == sv.len(),
                rest@ == sv.skip(out@.len() as int),
                forall|j: int| 0 <= j < out@.len() ==> #[trigger] out@[j] == sv[j].0,
            decreases rest.len(),
        {
            let (nm, _ix) = rest.remove(0);
            out.push(nm);
            proof {
                assert(rest@ =~= sv.skip(out@.len() as int));
            }
        }
        proof {
            assert(out@.map_values(|s: String| s@) =~= sv.map_values(|p: (String, usize)| p.0@));
            assert forall|a: int, b: int| 0 <= a < b < out@.len() implies lex_le(
                (#[trigger] out@[a])@,
                (#[trigger] out@[b])@,
            ) by {
                assert(out@[a] == sv[a].0);
                assert(out@[b] == sv[b].0);
                assert(lex_le(sv[a].0@, sv[b].0@));
            }
        }
        out
    }
}

} // verus!
