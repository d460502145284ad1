//! What a route tree means: a table from positions to entries, with the
//! rules for registering a route and for looking a request path up, and the
//! laws that follow from them.
//!
//! A position is the sequence of edges that leads from the root to a node.
//! The table of a tree holds one entry for each of its nodes.

use vstd::prelude::*;
use crate::text::{
    ends_with_slash, is_param, joined, lemma_joined_pattern, lemma_path_of_pattern,
    lemma_split_joined, lemma_split_nonempty, path_segments, pattern_segments, plain, split,
    starts_with_slash, strip_trailing_slash, SLASH,
};

verus! {

/// One step down the tree.
pub enum Edge {
    /// To the child kept under this literal segment.
    Literal(Seq<u8>),
    /// To the child that stands for any one segment.
    Param,
}

/// What a node records.
pub struct Entry<T> {
    /// The pattern that the node was first registered under, parameter
    /// names included.
    pub full_path: Seq<u8>,
    /// The handler, where a route ends at this node.
    pub handler: Option<T>,
}

/// The meaning of a route tree.
pub type Table<T> = Map<Seq<Edge>, Entry<T>>;

/// The edge that a pattern segment follows: the parameter edge for a
/// segment that begins with `:`, the literal edge of its own text otherwise.
pub open spec fn edge_of(seg: Seq<u8>) -> Edge {
    if is_param(seg) {
        Edge::Param
    } else {
        Edge::Literal(seg)
    }
}

/// The position that a sequence of pattern segments spells.
pub open spec fn edges_of(segs: Seq<Seq<u8>>) -> Seq<Edge> {
    Seq::new(segs.len(), |i: int| edge_of(segs[i]))
}

/// The position of the node at which a pattern's route ends.
pub open spec fn route_of(pattern: Seq<u8>) -> Seq<Edge> {
    edges_of(pattern_segments(pattern))
}

/// What holds of the table of every tree: the root is there, every node's
/// parent is there, and no literal edge looks like a parameter.
pub open spec fn table_wf<T>(m: Table<T>) -> bool {
    &&& m.contains_key(Seq::empty())
    &&& forall|p: Seq<Edge>, k: int|
        #![trigger m.contains_key(p), p.take(k)]
        m.contains_key(p) && 0 <= k <= p.len() ==> m.contains_key(p.take(k))
    &&& forall|p: Seq<Edge>| #[trigger] m.contains_key(p) && p.len() > 0 ==> literal_is_plain(p.last())
}

/// Whether an edge, if it is a literal one, has a text that does not read as
/// a parameter.
pub open spec fn literal_is_plain(e: Edge) -> bool {
    match e {
        Edge::Literal(k) => !is_param(k),
        Edge::Param => true,
    }
}

/// Whether a full path spells a position: the root's is `/`, and any other
/// begins with `/` and has one segment for each edge of the position, the
/// edge's own text at a literal edge and a parameter's name at a parameter
/// edge.
pub open spec fn spells(full_path: Seq<u8>, pos: Seq<Edge>) -> bool {
    if pos.len() == 0 {
        full_path == seq![SLASH]
    } else {
        starts_with_slash(full_path) && edges_of(split(full_path.drop_first())) == pos
    }
}

/// Whether every entry of a table stands under a full path that spells its
/// position.
pub open spec fn paths_spell<T>(m: Table<T>) -> bool {
    forall|p: Seq<Edge>| #[trigger] m.contains_key(p) ==> spells(m[p].full_path, p)
}

/// The table of a tree without routes: the root alone, under the path `/`.
pub open spec fn empty_table<T>() -> Table<T> {
    Map::empty().insert(Seq::empty(), Entry { full_path: seq![SLASH], handler: None })
}

/// The table after the route spelled by `segs[from..]` has been registered
/// below a node that stands `from` segments deep.
///
/// Every position along the route is in the table afterwards. One that was
/// there keeps its entry. A new one records the pattern as far as its own
/// segment, and no handler. The last position then gets the handler, in
/// place of any it had.
pub open spec fn with_route_from<T>(m: Table<T>, segs: Seq<Seq<u8>>, from: int, handler: T) -> Table<T> {
    let route = edges_of(segs.skip(from));
    Map::new(
        |p: Seq<Edge>| m.contains_key(p) || p.is_prefix_of(route),
        |p: Seq<Edge>|
            {
                let base = if m.contains_key(p) {
                    m[p]
                } else {
                    Entry { full_path: joined(segs.take(from + p.len())), handler: None }
                };
                if p == route {
                    Entry { full_path: base.full_path, handler: Some(handler) }
                } else {
                    base
                }
            },
    )
}

/// The table after the route spelled by `segs` has been registered.
pub open spec fn with_route<T>(m: Table<T>, segs: Seq<Seq<u8>>, handler: T) -> Table<T> {
    with_route_from(m, segs, 0, handler)
}

/// Where one request segment leads from the position `at`: to the literal
/// child of that text if there is one, else to the parameter child if there
/// is one, else nowhere.
pub open spec fn step<T>(m: Table<T>, at: Seq<Edge>, seg: Seq<u8>) -> Option<Seq<Edge>> {
    if m.contains_key(at.push(Edge::Literal(seg))) {
        Some(at.push(Edge::Literal(seg)))
    } else if m.contains_key(at.push(Edge::Param)) {
        Some(at.push(Edge::Param))
    } else {
        None
    }
}

/// The position that the request segments `segs` lead to from `at`: one
/// step for each segment, until the segments end or one leads nowhere.
pub open spec fn walk<T>(m: Table<T>, at: Seq<Edge>, segs: Seq<Seq<u8>>) -> Seq<Edge>
    decreases segs.len(),
{
    if segs.len() == 0 {
        at
    } else {
        match step(m, at, segs[0]) {
            Some(next) => walk(m, next, segs.drop_first()),
            None => at,
        }
    }
}

/// What dispatching a request path finds. A path without segments finds the
/// root. Any other path finds the last node that its segments lead to, or
/// nothing if its first segment leads nowhere.
pub open spec fn lookup<T>(m: Table<T>, path: Seq<u8>) -> Option<Entry<T>> {
    let segs = path_segments(path);
    let end = walk(m, Seq::empty(), segs);
    if segs.len() > 0 && end.len() == 0 {
        None
    } else {
        Some(m[end])
    }
}

/// The table of a subtree: the entries below the edge `e`, seen from the
/// child at that edge.
pub open spec fn subtable<T>(m: Table<T>, e: Edge) -> Table<T> {
    Map::new(|q: Seq<Edge>| m.contains_key(seq![e] + q), |q: Seq<Edge>| m[seq![e] + q])
}

/// The table `m` with what stands below the edge `e` replaced by `below`.
pub open spec fn grafted<T>(m: Table<T>, e: Edge, below: Table<T>) -> Table<T> {
    Map::new(
        |p: Seq<Edge>|
            if p.len() > 0 && p[0] == e {
                below.contains_key(p.drop_first())
            } else {
                m.contains_key(p)
            },
        |p: Seq<Edge>|
            if p.len() > 0 && p[0] == e {
                below[p.drop_first()]
            } else {
                m[p]
            },
    )
}

/// Registering a route keeps a table well formed.
pub proof fn lemma_with_route_wf<T>(m: Table<T>, segs: Seq<Seq<u8>>, handler: T)
    requires
        table_wf(m),
    ensures
        table_wf(with_route(m, segs, handler)),
        with_route(m, segs, handler).contains_key(edges_of(segs)),
{
    let r = with_route(m, segs, handler);
    assert(segs.skip(0) =~= segs);
    let route = edges_of(segs);
    assert(route.is_prefix_of(route));
    assert forall|p: Seq<Edge>, k: int|
        #![trigger r.contains_key(p), p.take(k)]
        r.contains_key(p) && 0 <= k <= p.len() implies r.contains_key(p.take(k)) by {
        if m.contains_key(p) {
            assert(m.contains_key(p.take(k)));
        } else {
            assert(p.take(k) =~= route.subrange(0, k));
            assert(p.take(k).is_prefix_of(route));
        }
    }
    assert forall|p: Seq<Edge>| #[trigger] r.contains_key(p) && p.len() > 0 implies literal_is_plain(
        p.last(),
    ) by {
        if m.contains_key(p) {
        } else {
            assert(p.last() == route[p.len() - 1]);
        }
    }
}

/// Registering a route whose segments hold no `/` keeps the full paths in
/// step with the positions.
pub proof fn lemma_with_route_spells<T>(m: Table<T>, segs: Seq<Seq<u8>>, handler: T)
    requires
        m.contains_key(Seq::empty()),
        paths_spell(m),
        plain(segs),
    ensures
        paths_spell(with_route(m, segs, handler)),
{
    let r = with_route(m, segs, handler);
    assert(segs.skip(0) =~= segs);
    let route = edges_of(segs);
    assert forall|p: Seq<Edge>| #[trigger] r.contains_key(p) implies spells(r[p].full_path, p) by {
        if !m.contains_key(p) {
            let k = p.len() as int;
            if k == 0 {
                assert(p =~= Seq::<Edge>::empty());
            }
            let front = segs.take(0 + k);
            assert(p =~= route.subrange(0, k));
            assert(edges_of(front) =~= p);
            assert forall|a: int, b: int|
                0 <= a < front.len() && 0 <= b < front[a].len() implies #[trigger] front[a][b]
                != SLASH by {
                assert(segs[a][b] != SLASH);
            }
            lemma_split_joined(front);
        }
    }
}

/// One step along a registered route: the segment at `i` leads from the
/// route's first `i` edges to its first `i + 1`. At a literal segment the
/// literal child is there and is taken first; at a parameter segment no
/// literal child can have that text.
pub proof fn lemma_step_route<T>(m: Table<T>, segs: Seq<Seq<u8>>, i: int)
    requires
        table_wf(m),
        m.contains_key(edges_of(segs)),
        0 <= i < segs.len(),
    ensures
        step(m, edges_of(segs).take(i), segs[i]) == Some(edges_of(segs).take(i + 1)),
{
    let route = edges_of(segs);
    let at = route.take(i);
    let next = route.take(i + 1);
    let seg = segs[i];
    assert(m.contains_key(next));
    assert(route[i] == edge_of(seg));
    assert(next =~= at.push(route[i]));
    if is_param(seg) {
        let literal = at.push(Edge::Literal(seg));
        if m.contains_key(literal) {
            assert(literal.len() > 0);
            assert(literal.last() == Edge::Literal(seg));
            assert(literal_is_plain(literal.last()));
        }
    }
}

/// A pattern, read as a request path, leads to the position that it spells
/// as a pattern, whatever else the table holds.
pub proof fn lemma_walk_route<T>(m: Table<T>, segs: Seq<Seq<u8>>, i: int, tail: Seq<Seq<u8>>)
    requires
        table_wf(m),
        m.contains_key(edges_of(segs)),
        0 <= i <= segs.len(),
    ensures
        walk(m, edges_of(segs).take(i), segs.skip(i) + tail) == walk(m, edges_of(segs), tail),
    decreases segs.len() - i,
{
    let route = edges_of(segs);
    if i == segs.len() {
        assert(route.take(i) =~= route);
        assert(segs.skip(i) + tail =~= tail);
    } else {
        let rest = segs.skip(i) + tail;
        assert(rest.len() > 0);
        assert(rest[0] == segs[i]);
        assert(rest.drop_first() =~= segs.skip(i + 1) + tail);
        lemma_step_route(m, segs, i);
        lemma_walk_route(m, segs, i + 1, tail);
    }
}

/// Dispatching a registered pattern as a request path finds the node at
/// which the pattern's route ends, unless the pattern ends with a `/` and
/// that node has a child for the empty segment which the `/` leaves behind.
pub proof fn law_route_is_found<T>(m: Table<T>, pattern: Seq<u8>)
    requires
        table_wf(m),
        starts_with_slash(pattern),
        m.contains_key(route_of(pattern)),
        pattern.len() > 1 && ends_with_slash(pattern) ==> step(m, route_of(pattern), Seq::empty())
            is None,
    ensures
        lookup(m, pattern) == Some(m[route_of(pattern)]),
{
    let segs = pattern_segments(pattern);
    let route = route_of(pattern);
    let asked = path_segments(pattern);
    lemma_path_of_pattern(pattern);
    assert(route.take(0) =~= Seq::<Edge>::empty());
    if pattern.len() > 1 && ends_with_slash(pattern) {
        let tail = seq![Seq::<u8>::empty()];
        assert(segs.skip(0) + tail =~= asked);
        lemma_walk_route(m, segs, 0, tail);
        assert(tail.drop_first() =~= Seq::<Seq<u8>>::empty());
        assert(walk(m, route, tail) == route);
        lemma_split_nonempty(strip_trailing_slash(pattern).drop_first());
    } else {
        let tail = Seq::<Seq<u8>>::empty();
        assert(segs.skip(0) + tail =~= asked);
        lemma_walk_route(m, segs, 0, tail);
    }
}

/// A route that has just been registered is found under its own pattern:
/// dispatching the pattern gives the handler that was registered, and the
/// pattern itself, without its trailing `/`, as the full path.
///
/// Two kinds of input are left out. Where the route's last node was there
/// before, under other parameter names, it keeps the path it was first
/// registered under. Where the pattern ends with a `/` and the route's last
/// node has a child for the empty segment, the request goes on to that
/// child.
pub proof fn law_add_then_dispatch<T>(m: Table<T>, pattern: Seq<u8>, handler: T)
    requires
        table_wf(m),
        starts_with_slash(pattern),
        m.contains_key(route_of(pattern)) ==> m[route_of(pattern)].full_path == strip_trailing_slash(
            pattern,
        ),
        pattern.len() > 1 && ends_with_slash(pattern) ==> step(m, route_of(pattern), Seq::empty())
            is None,
    ensures
        lookup(with_route(m, pattern_segments(pattern), handler), pattern) == Some(
            Entry { full_path: strip_trailing_slash(pattern), handler: Some(handler) },
        ),
{
    let segs = pattern_segments(pattern);
    let route = route_of(pattern);
    let r = with_route(m, segs, handler);
    lemma_with_route_wf(m, segs, handler);
    assert(segs.skip(0) =~= segs);
    if pattern.len() > 1 && ends_with_slash(pattern) {
        let literal = route.push(Edge::Literal(Seq::empty()));
        let param = route.push(Edge::Param);
        assert(!literal.is_prefix_of(route));
        assert(!param.is_prefix_of(route));
        assert(step(r, route, Seq::empty()) is None);
    }
    law_route_is_found(r, pattern);
    lemma_joined_pattern(pattern);
    assert(segs.take(0 + route.len() as int) =~= segs);
}

/// A route that is registered stays registered: registering another route
/// adds positions and changes the entry at the end of that route only, and
/// there only the handler.
pub proof fn law_add_keeps_entries<T>(m: Table<T>, segs: Seq<Seq<u8>>, handler: T, p: Seq<Edge>)
    requires
        m.contains_key(p),
    ensures
        with_route(m, segs, handler).contains_key(p),
        with_route(m, segs, handler)[p].full_path == m[p].full_path,
        p != edges_of(segs) ==> with_route(m, segs, handler)[p] == m[p],
        p == edges_of(segs) ==> with_route(m, segs, handler)[p].handler == Some(handler),
{
    assert(segs.skip(0) =~= segs);
}

/// A literal route wins over a route that has parameters where the first
/// has literal segments. Let `general` differ from `exact` only in that some
/// literal segments of `exact` are parameters in `general`. In whichever
/// order the two are registered, dispatching `exact` as a request path
/// gives the handler of `exact`.
///
/// Left out, as in [`law_add_then_dispatch`], is an `exact` that ends with
/// a `/` whose last node has a child for the empty segment.
pub proof fn law_literal_beats_param<T>(
    m: Table<T>,
    exact: Seq<u8>,
    general: Seq<u8>,
    exact_handler: T,
    general_handler: T,
)
    requires
        table_wf(m),
        starts_with_slash(exact),
        starts_with_slash(general),
        pattern_segments(exact).len() == pattern_segments(general).len(),
        forall|i: int|
            0 <= i < pattern_segments(exact).len() ==> pattern_segments(general)[i]
                == pattern_segments(exact)[i] || (is_param(#[trigger] pattern_segments(general)[i])
                && !is_param(pattern_segments(exact)[i])),
        exists|i: int|
            0 <= i < pattern_segments(exact).len() && is_param(#[trigger] pattern_segments(general)[i])
                && !is_param(pattern_segments(exact)[i]),
        exact.len() > 1 && ends_with_slash(exact) ==> step(m, route_of(exact), Seq::empty()) is None,
    ensures
        ({
            let first = with_route(m, pattern_segments(exact), exact_handler);
            let both = with_route(first, pattern_segments(general), general_handler);
            lookup(both, exact) matches Some(found) && found.handler == Some(exact_handler)
        }),
        ({
            let first = with_route(m, pattern_segments(general), general_handler);
            let both = with_route(first, pattern_segments(exact), exact_handler);
            lookup(both, exact) matches Some(found) && found.handler == Some(exact_handler)
        }),
{
    let se = pattern_segments(exact);
    let sg = pattern_segments(general);
    let re = route_of(exact);
    let rg = route_of(general);
    let d = choose|i: int| 0 <= i < se.len() && is_param(#[trigger] sg[i]) && !is_param(se[i]);
    assert(re[d] != rg[d]);
    assert(se.skip(0) =~= se);
    assert(sg.skip(0) =~= sg);
    let literal = re.push(Edge::Literal(Seq::empty()));
    let param = re.push(Edge::Param);
    // the exact route first, the general one after it
    {
        let first = with_route(m, se, exact_handler);
        let both = with_route(first, sg, general_handler);
        lemma_with_route_wf(m, se, exact_handler);
        lemma_with_route_wf(first, sg, general_handler);
        law_add_keeps_entries(first, sg, general_handler, re);
        if exact.len() > 1 && ends_with_slash(exact) {
            assert(!literal.is_prefix_of(re));
            assert(!param.is_prefix_of(re));
            if literal.is_prefix_of(rg) {
                assert(literal[d] == rg[d]);
            }
            if param.is_prefix_of(rg) {
                assert(param[d] == rg[d]);
            }
            assert(step(both, re, Seq::empty()) is None);
        }
        law_route_is_found(both, exact);
    }
    // the general route first, the exact one after it
    {
        let first = with_route(m, sg, general_handler);
        let both = with_route(first, se, exact_handler);
        lemma_with_route_wf(m, sg, general_handler);
        lemma_with_route_wf(first, se, exact_handler);
        if exact.len() > 1 && ends_with_slash(exact) {
            assert(!literal.is_prefix_of(re));
            assert(!param.is_prefix_of(re));
            if literal.is_prefix_of(rg) {
                assert(literal[d] == rg[d]);
            }
            if param.is_prefix_of(rg) {
                assert(param[d] == rg[d]);
            }
            assert(step(both, re, Seq::empty()) is None);
        }
        law_route_is_found(both, exact);
    }
}

/// Registering a pattern a second time replaces the handler and changes
/// nothing else: the table is the one that the second registration alone
/// would have given.
pub proof fn law_add_again_overwrites<T>(m: Table<T>, segs: Seq<Seq<u8>>, first: T, second: T)
    ensures
        with_route(with_route(m, segs, first), segs, second) == with_route(m, segs, second),
{
    assert(segs.skip(0) =~= segs);
    assert(with_route(with_route(m, segs, first), segs, second) =~= with_route(m, segs, second));
}

/// The table of a node that stands alone, `depth` segments deep on the
/// route spelled by `segs`.
pub open spec fn lone_table<T>(segs: Seq<Seq<u8>>, depth: int) -> Table<T> {
    Map::empty().insert(Seq::empty(), Entry { full_path: joined(segs.take(depth)), handler: None })
}

/// A route registered below a new node is the route registered below
/// nothing: the new node is the first that the route would have made.
pub proof fn lemma_with_route_lone<T>(segs: Seq<Seq<u8>>, from: int, handler: T)
    requires
        0 <= from <= segs.len(),
    ensures
        with_route_from(lone_table::<T>(segs, from), segs, from, handler) == with_route_from(
            Map::<Seq<Edge>, Entry<T>>::empty(),
            segs,
            from,
            handler,
        ),
{
    let lone = lone_table::<T>(segs, from);
    let left = with_route_from(lone, segs, from, handler);
    let right = with_route_from(Map::<Seq<Edge>, Entry<T>>::empty(), segs, from, handler);
    let route = edges_of(segs.skip(from));
    assert forall|p: Seq<Edge>| left.contains_key(p) == right.contains_key(p) by {
        if lone.contains_key(p) {
            assert(p =~= Seq::<Edge>::empty());
            assert(p.is_prefix_of(route));
        }
    }
    assert forall|p: Seq<Edge>| left.contains_key(p) implies #[trigger] left[p] == right[p] by {
        if lone.contains_key(p) {
            assert(p =~= Seq::<Edge>::empty());
        }
    }
    assert(left =~= right);
}

/// Registering a route below a node is registering the rest of the route
/// below the child that its first segment leads to, whether that child was
/// there or is new.
pub proof fn lemma_with_route_step<T>(
    m: Table<T>,
    below: Table<T>,
    segs: Seq<Seq<u8>>,
    from: int,
    handler: T,
)
    requires
        0 <= from < segs.len(),
        m.contains_key(Seq::empty()),
        below == subtable(m, edge_of(segs[from])),
    ensures
        grafted(m, edge_of(segs[from]), with_route_from(below, segs, from + 1, handler))
            == with_route_from(m, segs, from, handler),
{
    let e = edge_of(segs[from]);
    let route = edges_of(segs.skip(from));
    let rest = edges_of(segs.skip(from + 1));
    let inner = with_route_from(below, segs, from + 1, handler);
    let left = grafted(m, e, inner);
    let right = with_route_from(m, segs, from, handler);
    assert(route[0] == e);
    assert(route.drop_first() =~= rest);
    assert forall|p: Seq<Edge>| left.contains_key(p) == right.contains_key(p) by {
        if p.len() > 0 && p[0] == e {
            let q = p.drop_first();
            assert(seq![e] + q =~= p);
            assert(below.contains_key(q) == m.contains_key(p));
            assert(left.contains_key(p) == (m.contains_key(p) || q.is_prefix_of(rest)));
            if q.is_prefix_of(rest) {
                assert(p =~= route.subrange(0, p.len() as int));
                assert(p.is_prefix_of(route));
            }
            if p.is_prefix_of(route) {
                assert(q =~= rest.subrange(0, q.len() as int));
                assert(q.is_prefix_of(rest));
            }
        } else if p.len() > 0 {
            if p.is_prefix_of(route) {
                assert(p[0] == route.subrange(0, p.len() as int)[0]);
            }
            assert(!p.is_prefix_of(route));
        } else {
            assert(p =~= Seq::<Edge>::empty());
        }
    }
    assert forall|p: Seq<Edge>| left.contains_key(p) implies #[trigger] left[p] == right[p] by {
        if p.len() > 0 && p[0] == e {
            let q = p.drop_first();
            assert(seq![e] + q =~= p);
            assert(from + 1 + q.len() == from + p.len());
            if q == rest {
                assert(p =~= route);
            }
            if p == route {
                assert(q =~= rest);
            }
        } else if p.len() > 0 {
            if p.is_prefix_of(route) {
                assert(p[0] == route.subrange(0, p.len() as int)[0]);
            }
        } else {
            assert(p =~= Seq::<Edge>::empty());
            assert(p != route);
        }
    }
    assert(left =~= right);
}

} // verus!
