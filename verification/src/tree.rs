//! The route tree: routes are registered under patterns and request paths
//! are dispatched to the handler of the route they match.

use vstd::prelude::*;
use vstd::string::StringSliceAdditionalSpecFns;
use vstd::utf8::encode_utf8;
use crate::error::RouteError;
use crate::model::{
    edge_of, edges_of, empty_table, lemma_with_route_lone, lemma_with_route_spells,
    lemma_with_route_step, lone_table, lookup, paths_spell, spells, step, table_wf, walk,
    with_route, with_route_from, Edge, Entry, Table,
};
use crate::node::{lemma_path_step, node_key, PathNode};
use crate::segments::{segments_of, Segments};
use crate::text::{
    begins_with_slash, cut_at_slash, joined, lemma_marks, lemma_split_is_plain,
    lemma_split_nonempty, path_segments, pattern_segments, push_segment, segment_is_param,
    split, starts_with_slash, strip_trailing_slash, texts, without_leading_slash,
    without_trailing_slash, SLASH,
};

verus! {

/// Route mapping as a tree of path segments.
pub struct RouteTree<T> {
    root: PathNode<T>,
}

impl<T> View for RouteTree<T> {
    type V = Table<T>;

    open spec fn view(&self) -> Table<T> {
        self.table()
    }
}

impl<T> RouteTree<T> {
    /// The table of the tree: one entry for each node, under its position.
    pub closed spec fn table(&self) -> Table<T> {
        self.root.table()
    }

    /// What holds of every tree: its nodes are well formed, and its root
    /// has the empty segment and stands under the path `/`.
    pub closed spec fn wf(&self) -> bool {
        &&& self.root.wf()
        &&& self.root.full_path() == seq![SLASH]
        &&& self.root.key() == Seq::<u8>::empty()
        &&& paths_spell(self.root.table())
    }

    /// The root node.
    pub closed spec fn top(&self) -> PathNode<T> {
        self.root
    }

    /// What a well-formed tree gives: a well-formed table, read off a
    /// well-formed root with the empty segment, in which every full path
    /// spells the position of its node.
    pub proof fn lemma_table(&self)
        requires
            self.wf(),
        ensures
            table_wf(self@),
            self.top().wf(),
            self.top().key() == Seq::<u8>::empty(),
            self@ == self.top().table(),
            paths_spell(self@),
    {
        self.root.lemma_table_wf();
        assert(self.root.at(Seq::<Edge>::empty()) == Some(self.root));
    }

    /// Create a new route mapping: a root without a handler, under the path
    /// `/`.
    pub fn empty_root() -> (tree: Self)
        ensures
            tree.wf(),
            tree@ == empty_table::<T>(),
    {
        let root = PathNode::new("/", "", None);
        proof {
            lemma_marks();
            root.lemma_lone_table();
            reveal_strlit("");
            assert("".spec_bytes() =~= Seq::<u8>::empty());
        }
        RouteTree { root }
    }

    /// The root node.
    pub fn root(&self) -> (node: &PathNode<T>)
        ensures
            *node == self.top(),
    {
        &self.root
    }

    /// Add the specified handler at the given route.
    ///
    /// The pattern must begin with `/`, else it is refused and the tree
    /// stays as it is. One trailing `/` is dropped. A segment that begins
    /// with `:` follows the parameter child, whatever name that child was
    /// made under; any other segment follows the literal child of its own
    /// text. The nodes along the route that are there are kept as they
    /// are, full path included; those that are not are made, each under
    /// the pattern as far as its own segment; and the handler goes to the
    /// last one, in place of any it had.
    pub fn add(&mut self, route: &str, handler: T) -> (r: Result<&mut Self, RouteError>)
        requires
            old(self).wf(),
        ensures
            match r {
                Ok(tree) => {
                    &&& starts_with_slash(route.spec_bytes())
                    &&& tree.wf()
                    &&& tree@ == with_route(
                        old(self)@,
                        pattern_segments(route.spec_bytes()),
                        handler,
                    )
                    &&& *final(self) == *final(tree)
                },
                Err(e) => !starts_with_slash(route.spec_bytes()) && e == RouteError::MalformedPattern
                    && *final(self) == *old(self),
            },
    {
        if !begins_with_slash(route) {
            return Err(RouteError::MalformedPattern);
        }
        let ghost before = *self;
        let trimmed = without_trailing_slash(route);
        let mut tokens: Vec<&str> = Vec::new();
        if trimmed.as_bytes().len() > 0 {
            let (_, rest) = cut_at_slash(trimmed, 0);
            proof {
                let t = trimmed.spec_bytes();
                assert(t.subrange(1, t.len() as int) =~= t.drop_first());
            }
            tokens = segments_of(rest);
        }
        proof {
            assert(texts(tokens@) =~= pattern_segments(route.spec_bytes()));
            assert(texts(tokens@).take(0) =~= Seq::<Seq<u8>>::empty());
            before.lemma_table();
            if texts(tokens@).len() > 0 {
                lemma_split_is_plain(strip_trailing_slash(route.spec_bytes()).drop_first());
            }
            lemma_with_route_spells(before@, texts(tokens@), handler);
        }
        self.root.graft(&tokens, 0, String::new(), handler);
        proof {
            assert(self.root.at(Seq::<Edge>::empty()) == Some(self.root));
            assert(self.root.table().contains_key(Seq::<Edge>::empty()));
            assert(spells(self.root.table()[Seq::<Edge>::empty()].full_path, Seq::<Edge>::empty()));
        }
        Ok(self)
    }

    /// Find the handler for the specific route.
    ///
    /// One leading `/` of the request path is dropped. A path without
    /// segments finds the root. Any other path is followed from the root,
    /// segment by segment, and finds the last node that its segments lead
    /// to; the result is `None` if the first segment leads nowhere. The
    /// inner `Option` is `None` where the node that is found ends no route.
    pub fn dispatch<'a>(&'a self, request_path: &str) -> (r: Option<(&'a str, &'a Option<T>)>)
        requires
            self.wf(),
        ensures
            match r {
                Some((full_path, handler)) => lookup(self@, request_path.spec_bytes()) == Some(
                    Entry { full_path: full_path.spec_bytes(), handler: *handler },
                ),
                None => lookup(self@, request_path.spec_bytes()) is None,
            },
    {
        let rest = without_leading_slash(request_path);
        proof {
            self.lemma_table();
        }
        if rest.as_bytes().len() == 0 {
            proof {
                assert(self.root.at(Seq::<Edge>::empty()) == Some(self.root));
                assert(path_segments(request_path.spec_bytes()) =~= Seq::<Seq<u8>>::empty());
            }
            return Some((self.root.path(), self.root.handler()));
        }
        let ghost m = self@;
        let ghost all = split(rest.spec_bytes());
        proof {
            lemma_split_nonempty(rest.spec_bytes());
        }
        let mut iter = self.iter(Segments::new(rest));
        let mut found: Option<&'a PathNode<T>> = None;
        let ghost mut pos: Seq<Edge> = Seq::empty();
        loop
            invariant_except_break
                walk(m, Seq::empty(), all) == walk(m, pos, iter.remaining()),
            invariant
                m == self.root.table(),
                self.root.at(pos) == Some(iter.node()),
                iter.node().wf(),
                match found {
                    Some(n) => *n == iter.node() && pos.len() > 0,
                    None => pos.len() == 0,
                },
            ensures
                m == self.root.table(),
                self.root.at(pos) == Some(iter.node()),
                walk(m, Seq::empty(), all) == pos,
                match found {
                    Some(n) => *n == iter.node() && pos.len() > 0,
                    None => pos.len() == 0,
                },
            decreases iter.remaining().len(),
        {
            let ghost here = iter.node();
            let ghost left = iter.remaining();
            proof {
                if left.len() > 0 {
                    self.root.lemma_at_push(pos, Edge::Literal(left[0]));
                    self.root.lemma_at_push(pos, Edge::Param);
                    here.lemma_child_wf_for(left[0]);
                }
            }
            match iter.next() {
                Some(n) => {
                    proof {
                        pos = step(m, pos, left[0]).unwrap();
                    }
                    found = Some(n);
                },
                None => {
                    break ;
                },
            }
        }
        match found {
            Some(n) => Some((n.path(), n.handler())),
            None => None,
        }
    }

    /// A cursor that follows request segments down from the root.
    pub fn iter<'a, 'b>(&'a self, tokens: Segments<'b>) -> (cursor: Iter<'a, 'b, T>)
        requires
            self.wf(),
        ensures
            cursor.node() == self.top(),
            cursor.node().wf(),
            cursor.remaining() == tokens@,
    {
        Iter { tokens, previous: &self.root }
    }

    /// Assigns the handler to the last node of a route, making the nodes
    /// that the route still lacks. `last_existing` is the node, `from`
    /// segments deep, at which the route leaves the tree as it stands; the
    /// nodes for `segs[from..]` are made, each under the pattern as far as
    /// its own segment, linked from the last one upwards and put below
    /// `last_existing`. With no segment left, `last_existing` is itself the
    /// last node of the route.
    pub fn wire_handler(
        last_existing: &mut PathNode<T>,
        segs: &Vec<&str>,
        from: usize,
        path: String,
        handler: T,
    )
        requires
            old(last_existing).wf(),
            from <= segs@.len(),
            encode_utf8(path@) == joined(texts(segs@).take(from as int)),
            from < segs@.len() ==> old(last_existing).child(edge_of(texts(segs@)[from as int]))
                is None,
        ensures
            final(last_existing).wf(),
            final(last_existing).live(),
            final(last_existing).key() == old(last_existing).key(),
            final(last_existing).table() == with_route_from(
                old(last_existing).table(),
                texts(segs@),
                from as int,
                handler,
            ),
    {
        let ghost before = *last_existing;
        let ghost all = texts(segs@);
        let ghost h = handler;
        let n: usize = segs.len();
        if from == n {
            // the route isn't new, only the handler is
            last_existing.set_handler(handler);
            proof {
                let after = *last_existing;
                assert forall|other: Edge| after.child(other) == before.child(other) by {}
                let left = after.table();
                let right = with_route_from(before.table(), all, from as int, h);
                assert(all.skip(from as int) =~= Seq::<Seq<u8>>::empty());
                assert(edges_of(all.skip(from as int)) =~= Seq::<Edge>::empty());
                assert(before.at(Seq::<Edge>::empty()) == Some(before));
                assert(after.at(Seq::<Edge>::empty()) == Some(after));
                assert forall|p: Seq<Edge>| left.contains_key(p) == right.contains_key(p) by {
                    if p.len() > 0 {
                        assert(after.child(p[0]) == before.child(p[0]));
                    } else {
                        assert(p =~= Seq::<Edge>::empty());
                    }
                }
                assert forall|p: Seq<Edge>| left.contains_key(p) implies #[trigger] left[p]
                    == right[p] by {
                    if p.len() > 0 {
                        assert(after.child(p[0]) == before.child(p[0]));
                    } else {
                        assert(p =~= Seq::<Edge>::empty());
                    }
                }
                assert(left =~= right);
            }
            return ;
        }
        // the route is new in part or in whole: the new nodes, from the top down

        let mut created: Vec<PathNode<T>> = Vec::new();
        let mut path = path;
        let mut j: usize = from;
        while j < n
            invariant
                from <= j <= n,
                n == segs@.len(),
                all == texts(segs@),
                created@.len() == j - from,
                encode_utf8(path@) == joined(all.take(j as int)),
                forall|k: int|
                    0 <= k < created@.len() ==> {
                        &&& (#[trigger] created@[k]).full_path() == joined(all.take(from + k + 1))
                        &&& created@[k].key() == node_key(all[from + k])
                        &&& created@[k].payload() is None
                        &&& created@[k].literals().len() == 0
                        &&& created@[k].param() is None
                        &&& created@[k].wf()
                    },
            decreases n - j,
        {
            let seg: &str = segs[j];
            assert(all[j as int] == seg.spec_bytes());
            push_segment(&mut path, seg);
            proof {
                lemma_path_step(all, j as int);
                lemma_marks();
            }
            let node = if segment_is_param(seg) {
                PathNode::new(path.as_str(), "*", None)
            } else {
                PathNode::new(path.as_str(), seg, None)
            };
            created.push(node);
            j += 1;
        }
        // the handler goes to the last of them
        let ghost last = created@[n - 1 - from];
        let mut chain = created.pop().unwrap();
        assert(chain == last);
        chain.set_handler(handler);
        proof {
            chain.lemma_lone_table();
            let left = chain.table();
            let right = with_route_from(Map::<Seq<Edge>, Entry<T>>::empty(), all, n as int, h);
            assert(all.skip(n as int) =~= Seq::<Seq<u8>>::empty());
            assert(edges_of(all.skip(n as int)) =~= Seq::<Edge>::empty());
            assert(all.take(n as int + 0) =~= all.take(from + (n - 1 - from) + 1));
            assert(chain.at(Seq::<Edge>::empty()) == Some(chain));
            assert forall|p: Seq<Edge>| left.contains_key(p) == right.contains_key(p) by {
                if p.len() == 0 {
                    assert(p =~= Seq::<Edge>::empty());
                }
            }
            assert forall|p: Seq<Edge>| left.contains_key(p) implies #[trigger] left[p] == right[p] by {
                assert(p =~= Seq::<Edge>::empty());
            }
            assert(left =~= right);
        }
        // each new node goes below the one made before it
        let mut j: usize = n - 1;
        while j > from
            invariant
                from <= j < n,
                n == segs@.len(),
                all == texts(segs@),
                created@.len() == j - from,
                forall|k: int|
                    0 <= k < created@.len() ==> {
                        &&& (#[trigger] created@[k]).full_path() == joined(all.take(from + k + 1))
                        &&& created@[k].key() == node_key(all[from + k])
                        &&& created@[k].payload() is None
                        &&& created@[k].literals().len() == 0
                        &&& created@[k].param() is None
                        &&& created@[k].wf()
                    },
                chain.wf(),
                chain.live(),
                chain.key() == node_key(all[j as int]),
                chain.table() == with_route_from(
                    Map::<Seq<Edge>, Entry<T>>::empty(),
                    all,
                    j + 1,
                    h,
                ),
            decreases j,
        {
            let mut parent = created.pop().unwrap();
            let ghost lone = parent;
            let seg: &str = segs[j];
            assert(all[j as int] == seg.spec_bytes());
            proof {
                lone.lemma_lone_table();
                lone.lemma_subtable(edge_of(all[j as int]));
                assert(lone.at(Seq::<Edge>::empty()) == Some(lone));
                assert(lone.table() =~= lone_table::<T>(all, j as int));
                lemma_with_route_step(
                    lone.table(),
                    Map::<Seq<Edge>, Entry<T>>::empty(),
                    all,
                    j as int,
                    h,
                );
                lemma_with_route_lone(all, j as int, h);
            }
            if segment_is_param(seg) {
                parent.put_param(chain);
            } else {
                parent.put_literal(chain);
            }
            chain = parent;
            j -= 1;
        }
        // and the first of them below the node that was there
        let seg: &str = segs[from];
        assert(all[from as int] == seg.spec_bytes());
        proof {
            before.lemma_subtable(edge_of(all[from as int]));
            assert(before.at(Seq::<Edge>::empty()) == Some(before));
            lemma_with_route_step(
                before.table(),
                Map::<Seq<Edge>, Entry<T>>::empty(),
                all,
                from as int,
                h,
            );
        }
        if segment_is_param(seg) {
            last_existing.put_param(chain);
        } else {
            last_existing.put_literal(chain);
        }
    }
}

/// A cursor into a route tree: the node that was reached last, and the
/// request segments that have not been followed yet.
pub struct Iter<'a, 'b, T> {
    tokens: Segments<'b>,
    previous: &'a PathNode<T>,
}

impl<'a, 'b, T> Iter<'a, 'b, T> {
    /// The node that the cursor stands at.
    pub closed spec fn node(&self) -> PathNode<T> {
        *self.previous
    }

    /// The request segments still to be followed.
    pub closed spec fn remaining(&self) -> Seq<Seq<u8>> {
        self.tokens@
    }

    /// Follows the next request segment. The segment is used up. Where it
    /// leads to a child, the literal child of its text before the
    /// parameter child, the cursor moves to that child and hands it out.
    /// Where it leads nowhere, or no segment is left, the cursor stays and
    /// the result is `None`.
    pub fn next(&mut self) -> (r: Option<&'a PathNode<T>>)
        requires
            old(self).node().wf(),
        ensures
            final(self).node().wf(),
            old(self).remaining().len() == 0 ==> r is None && final(self).node() == old(self).node()
                && final(self).remaining().len() == 0,
            old(self).remaining().len() > 0 ==> {
                &&& final(self).remaining() == old(self).remaining().drop_first()
                &&& match r {
                    Some(n) => old(self).node().child_for(old(self).remaining()[0]) == Some(*n)
                        && final(self).node() == *n,
                    None => old(self).node().child_for(old(self).remaining()[0]) is None
                        && final(self).node() == old(self).node(),
                }
            },
    {
        proof {
            self.previous.lemma_wf_children();
        }
        match self.tokens.next() {
            Some(token) => {
                proof {
                    self.previous.lemma_child_wf_for(token.spec_bytes());
                }
                match self.previous.descend(token) {
                    Some(next) => {
                        self.previous = next;
                        Some(next)
                    },
                    None => None,
                }
            },
            None => None,
        }
    }
}

} // verus!
