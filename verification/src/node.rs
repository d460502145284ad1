//! The nodes of a route tree: what a node holds, what makes a tree of nodes
//! well formed, and how its table is read off it.

use vstd::prelude::*;
use vstd::string::StringSliceAdditionalSpecFns;
use vstd::utf8::encode_utf8;
use crate::model::{
    edge_of, grafted, lemma_with_route_step, literal_is_plain, subtable, table_wf,
    with_route_from, Edge, Entry, Table,
};
use crate::text::{
    compare, is_param, joined, lemma_lex_irreflexive, lemma_lex_transitive, lex_lt,
    push_segment, segment_is_param, texts, Rank,
};
use crate::tree::RouteTree;

verus! {

/// The segment text of the node that a parameter edge leads to.
pub open spec fn star() -> Seq<u8> {
    seq![0x2au8]
}

/// A node of a route tree.
#[derive(Debug, PartialEq)]
pub struct PathNode<T> {
    // The pattern that the node was first registered under.
    path: String,
    // The literal segment, or `*` below a parameter edge.
    segment: String,
    // The literal children, in the order of their segments.
    next: Vec<PathNode<T>>,
    // The child that stands for any one segment.
    params: Option<Box<PathNode<T>>>,
    // The handler, where a route ends here.
    handler: Option<T>,
}

impl<T> PathNode<T> {
    /// The pattern that the node was first registered under.
    pub closed spec fn full_path(self) -> Seq<u8> {
        encode_utf8(self.path@)
    }

    /// The node's segment text.
    pub closed spec fn key(self) -> Seq<u8> {
        encode_utf8(self.segment@)
    }

    /// The node's handler.
    pub closed spec fn payload(self) -> Option<T> {
        self.handler
    }

    /// The literal children, in order.
    pub closed spec fn literals(self) -> Seq<PathNode<T>> {
        self.next@
    }

    /// The parameter child.
    pub closed spec fn param(self) -> Option<PathNode<T>> {
        match self.params {
            Some(child) => Some(*child),
            None => None,
        }
    }

    /// What the node records.
    pub open spec fn entry(self) -> Entry<T> {
        Entry { full_path: self.full_path(), handler: self.payload() }
    }

    /// Whether the node ends a route or leads to one.
    pub open spec fn live(self) -> bool {
        self.payload() is Some || self.literals().len() > 0 || self.param() is Some
    }

    /// Whether the literal children stand in strictly rising order of their
    /// segments, so that no two share a segment.
    pub open spec fn sorted(self) -> bool {
        forall|i: int, j: int|
            0 <= i < j < self.literals().len() ==> lex_lt(
                #[trigger] self.literals()[i].key(),
                #[trigger] self.literals()[j].key(),
            )
    }

    /// What holds of every node of a tree: its literal children are in
    /// order and none reads as a parameter, its parameter child has the
    /// segment `*`, and every child is itself well formed and ends a route
    /// or leads to one.
    pub closed spec fn wf(self) -> bool
        decreases self,
    {
        &&& self.sorted()
        &&& forall|i: int|
            0 <= i < self.next@.len() ==> {
                &&& !is_param((#[trigger] self.next@[i]).key())
                &&& self.next@[i].live()
                &&& self.next@[i].wf()
            }
        &&& match self.params {
            Some(child) => child.key() == star() && child.live() && child.wf(),
            None => true,
        }
    }

    /// The index of the literal child with the segment `key`.
    pub open spec fn literal_index(self, key: Seq<u8>) -> Option<int> {
        if exists|i: int|
            0 <= i < self.literals().len() && #[trigger] self.literals()[i].key() == key {
            Some(
                choose|i: int|
                    0 <= i < self.literals().len() && #[trigger] self.literals()[i].key() == key,
            )
        } else {
            None
        }
    }

    /// The child at an edge.
    pub open spec fn child(self, e: Edge) -> Option<PathNode<T>> {
        match e {
            Edge::Param => self.param(),
            Edge::Literal(key) => match self.literal_index(key) {
                Some(i) => Some(self.literals()[i]),
                None => None,
            },
        }
    }

    /// The child that a request segment leads to: the literal child of
    /// that text if there is one, else the parameter child.
    pub open spec fn child_for(self, seg: Seq<u8>) -> Option<PathNode<T>> {
        match self.child(Edge::Literal(seg)) {
            Some(c) => Some(c),
            None => self.child(Edge::Param),
        }
    }

    /// The node at a position below this one.
    pub open spec fn at(self, pos: Seq<Edge>) -> Option<PathNode<T>>
        decreases pos.len(),
    {
        if pos.len() == 0 {
            Some(self)
        } else {
            match self.child(pos[0]) {
                Some(c) => c.at(pos.drop_first()),
                None => None,
            }
        }
    }

    /// The table of the tree below this node: one entry for each node,
    /// under its position.
    pub open spec fn table(self) -> Table<T> {
        Map::new(|p: Seq<Edge>| self.at(p) is Some, |p: Seq<Edge>| self.at(p).unwrap().entry())
    }

    /// A well-formed node has well-formed children.
    pub proof fn lemma_wf_children(self)
        requires
            self.wf(),
        ensures
            self.sorted(),
            forall|i: int|
                0 <= i < self.literals().len() ==> {
                    &&& !is_param((#[trigger] self.literals()[i]).key())
                    &&& self.literals()[i].live()
                    &&& self.literals()[i].wf()
                },
            self.param() matches Some(c) ==> c.key() == star() && c.live() && c.wf(),
    {
    }

    /// In order, a segment belongs to one literal child at most.
    pub proof fn lemma_literal_index(self, i: int)
        requires
            self.sorted(),
            0 <= i < self.literals().len(),
        ensures
            self.literal_index(self.literals()[i].key()) == Some(i),
            self.child(Edge::Literal(self.literals()[i].key())) == Some(self.literals()[i]),
    {
        let key = self.literals()[i].key();
        let j = choose|j: int|
            0 <= j < self.literals().len() && #[trigger] self.literals()[j].key() == key;
        lemma_lex_irreflexive(key);
        if j < i {
            assert(lex_lt(self.literals()[j].key(), self.literals()[i].key()));
        } else if i < j {
            assert(lex_lt(self.literals()[i].key(), self.literals()[j].key()));
        }
    }

    /// The children that the edges lead to are well formed and end a route
    /// or lead to one. A literal child has the segment of its edge, which
    /// does not read as a parameter; the parameter child has the segment
    /// `*`.
    pub proof fn lemma_child_wf(self, e: Edge)
        requires
            self.wf(),
            self.child(e) is Some,
        ensures
            self.child(e).unwrap().wf(),
            self.child(e).unwrap().live(),
            literal_is_plain(e),
            self.child(e).unwrap().key() == (match e {
                Edge::Literal(k) => k,
                Edge::Param => star(),
            }),
    {
    }

    /// The child that a request segment leads to is well formed.
    pub proof fn lemma_child_wf_for(self, seg: Seq<u8>)
        requires
            self.wf(),
        ensures
            self.child_for(seg) matches Some(c) ==> c.wf(),
    {
        if self.child(Edge::Literal(seg)) is Some {
            self.lemma_child_wf(Edge::Literal(seg));
        } else if self.child(Edge::Param) is Some {
            self.lemma_child_wf(Edge::Param);
        }
    }

    /// Every node below a well-formed node is well formed.
    pub proof fn lemma_at_wf(self, pos: Seq<Edge>)
        requires
            self.wf(),
            self.at(pos) is Some,
        ensures
            self.at(pos).unwrap().wf(),
        decreases pos.len(),
    {
        if pos.len() > 0 {
            self.lemma_child_wf(pos[0]);
            self.child(pos[0]).unwrap().lemma_at_wf(pos.drop_first());
        }
    }

    /// One more edge at the end of a position is one more step down.
    pub proof fn lemma_at_push(self, pos: Seq<Edge>, e: Edge)
        ensures
            self.at(pos.push(e)) == match self.at(pos) {
                Some(n) => n.child(e),
                None => None,
            },
        decreases pos.len(),
    {
        let longer = pos.push(e);
        if pos.len() == 0 {
            assert(longer.drop_first() =~= Seq::<Edge>::empty());
            assert(longer[0] == e);
            match self.child(e) {
                Some(c) => {
                    assert(c.at(Seq::<Edge>::empty()) == Some(c));
                },
                None => {},
            }
        } else {
            assert(longer[0] == pos[0]);
            assert(longer.drop_first() =~= pos.drop_first().push(e));
            match self.child(pos[0]) {
                Some(c) => {
                    c.lemma_at_push(pos.drop_first(), e);
                },
                None => {},
            }
        }
    }

    /// The table of a well-formed node is well formed.
    pub proof fn lemma_table_wf(self)
        requires
            self.wf(),
        ensures
            table_wf(self.table()),
    {
        let m = self.table();
        assert(self.at(Seq::<Edge>::empty()) == Some(self));
        assert forall|p: Seq<Edge>, k: int|
            #![trigger m.contains_key(p), p.take(k)]
            m.contains_key(p) && 0 <= k <= p.len() implies m.contains_key(p.take(k)) by {
            self.lemma_at_prefix(p, k);
        }
        assert forall|p: Seq<Edge>| #[trigger] m.contains_key(p) && p.len() > 0 implies literal_is_plain(
            p.last(),
        ) by {
            let front = p.drop_last();
            assert(front.push(p.last()) =~= p);
            self.lemma_at_push(front, p.last());
            self.lemma_at_prefix(p, p.len() - 1);
            assert(p.take(p.len() - 1) =~= front);
            let parent = self.at(front).unwrap();
            self.lemma_at_wf(front);
            parent.lemma_child_wf(p.last());
        }
    }

    /// Where there is a node at a position, there is one at each position
    /// on the way to it.
    pub proof fn lemma_at_prefix(self, pos: Seq<Edge>, k: int)
        requires
            self.at(pos) is Some,
            0 <= k <= pos.len(),
        ensures
            self.at(pos.take(k)) is Some,
        decreases pos.len(),
    {
        let front = pos.take(k);
        if k == 0 {
            assert(front =~= Seq::<Edge>::empty());
        } else {
            let c = self.child(pos[0]).unwrap();
            c.lemma_at_prefix(pos.drop_first(), k - 1);
            assert(front[0] == pos[0]);
            assert(front.drop_first() =~= pos.drop_first().take(k - 1));
        }
    }

    /// The table below a child is the part of the table below its edge.
    pub proof fn lemma_subtable(self, e: Edge)
        ensures
            subtable(self.table(), e) == match self.child(e) {
                Some(c) => c.table(),
                None => Map::empty(),
            },
    {
        let below: Table<T> = match self.child(e) {
            Some(c) => c.table(),
            None => Map::empty(),
        };
        let sub = subtable(self.table(), e);
        assert forall|q: Seq<Edge>| sub.contains_key(q) == below.contains_key(q) by {
            let p = seq![e] + q;
            assert(p[0] == e);
            assert(p.drop_first() =~= q);
        }
        assert forall|q: Seq<Edge>| sub.contains_key(q) implies #[trigger] sub[q] == below[q] by {
            let p = seq![e] + q;
            assert(p[0] == e);
            assert(p.drop_first() =~= q);
        }
        assert(sub =~= below);
    }

    /// A node that differs from another in the child at one edge only has
    /// the other's table with what stands below that edge replaced.
    pub proof fn lemma_table_grafted(self, before: PathNode<T>, e: Edge)
        requires
            self.entry() == before.entry(),
            self.child(e) is Some,
            forall|other: Edge| other != e ==> self.child(other) == before.child(other),
        ensures
            self.table() == grafted(before.table(), e, self.child(e).unwrap().table()),
    {
        let c = self.child(e).unwrap();
        let left = self.table();
        let right = grafted(before.table(), e, c.table());
        assert forall|p: Seq<Edge>| left.contains_key(p) == right.contains_key(p) by {
            if p.len() > 0 && p[0] != e {
                assert(self.child(p[0]) == before.child(p[0]));
            }
        }
        assert forall|p: Seq<Edge>| left.contains_key(p) implies #[trigger] left[p] == right[p] by {
            if p.len() > 0 && p[0] != e {
                assert(self.child(p[0]) == before.child(p[0]));
            }
        }
        assert(left =~= right);
    }

    /// A node without children, as it stands before it is put into a tree.
    pub fn new(path: &str, segment: &str, handler: Option<T>) -> (node: PathNode<T>)
        ensures
            node.full_path() == path.spec_bytes(),
            node.key() == segment.spec_bytes(),
            node.payload() == handler,
            node.literals().len() == 0,
            node.param() is None,
            node.wf(),
    {
        PathNode {
            path: path.to_owned(),
            segment: segment.to_owned(),
            next: Vec::new(),
            params: None,
            handler,
        }
    }

    /// The pattern that the node was first registered under.
    pub fn path(&self) -> (r: &str)
        ensures
            r.spec_bytes() == self.full_path(),
    {
        self.path.as_str()
    }

    /// The node's segment text: the literal segment, or `*` below a
    /// parameter edge.
    pub fn segment(&self) -> (r: &str)
        ensures
            r.spec_bytes() == self.key(),
    {
        self.segment.as_str()
    }

    /// The node's handler.
    pub fn handler(&self) -> (r: &Option<T>)
        ensures
            *r == self.payload(),
    {
        &self.handler
    }

    /// The parameter child, if there is one.
    pub fn params(&self) -> (r: Option<&PathNode<T>>)
        ensures
            match r {
                Some(c) => self.param() == Some(*c),
                None => self.param() is None,
            },
    {
        match &self.params {
            Some(child) => Some(&**child),
            None => None,
        }
    }

    /// Looks a segment up among the literal children: `Ok` with the index
    /// of the child of that segment, or `Err` with the index at which such
    /// a child would stand.
    pub fn find(&self, segment: &str) -> (r: Result<usize, usize>)
        requires
            self.sorted(),
        ensures
            match r {
                Ok(k) => k < self.literals().len() && self.literals()[k as int].key()
                    == segment.spec_bytes() && self.literal_index(segment.spec_bytes()) == Some(
                    k as int,
                ),
                Err(k) => {
                    &&& k <= self.literals().len()
                    &&& self.literal_index(segment.spec_bytes()) is None
                    &&& forall|j: int|
                        0 <= j < k ==> lex_lt(
                            (#[trigger] self.literals()[j]).key(),
                            segment.spec_bytes(),
                        )
                    &&& forall|j: int|
                        k <= j < self.literals().len() ==> lex_lt(
                            segment.spec_bytes(),
                            (#[trigger] self.literals()[j]).key(),
                        )
                },
            },
    {
        let needle = segment.as_bytes();
        let mut lo: usize = 0;
        let mut hi: usize = self.next.len();
        while lo < hi
            invariant
                lo <= hi <= self.next@.len(),
                self.sorted(),
                needle@ == segment.spec_bytes(),
                forall|j: int| 0 <= j < lo ==> lex_lt((#[trigger] self.next@[j]).key(), needle@),
                forall|j: int|
                    hi <= j < self.next@.len() ==> lex_lt(needle@, (#[trigger] self.next@[j]).key()),
            decreases hi - lo,
        {
            let mid: usize = lo + (hi - lo) / 2;
            let probe = self.next[mid].segment.as_str().as_bytes();
            assert(probe@ == self.next@[mid as int].key());
            match compare(needle, probe) {
                Rank::Same => {
                    proof {
                        self.lemma_literal_index(mid as int);
                    }
                    return Ok(mid);
                },
                Rank::Below => {
                    proof {
                        assert forall|j: int| mid <= j < self.next@.len() implies lex_lt(
                            needle@,
                            (#[trigger] self.next@[j]).key(),
                        ) by {
                            if mid < j {
                                assert(lex_lt(self.literals()[mid as int].key(), self.literals()[j].key()));
                                lemma_lex_transitive(needle@, probe@, self.next@[j].key());
                            }
                        }
                    }
                    hi = mid;
                },
                Rank::Above => {
                    proof {
                        assert forall|j: int| 0 <= j < mid + 1 implies lex_lt(
                            (#[trigger] self.next@[j]).key(),
                            needle@,
                        ) by {
                            if j < mid {
                                assert(lex_lt(self.literals()[j].key(), self.literals()[mid as int].key()));
                                lemma_lex_transitive(self.next@[j].key(), probe@, needle@);
                            }
                        }
                    }
                    lo = mid + 1;
                },
            }
        }
        proof {
            lemma_lex_irreflexive(needle@);
            if self.literal_index(needle@) is Some {
                let i = self.literal_index(needle@).unwrap();
                assert(self.literals()[i].key() == needle@);
            }
        }
        Err(lo)
    }

    /// The child that a request segment leads to.
    pub fn descend(&self, segment: &str) -> (r: Option<&PathNode<T>>)
        requires
            self.sorted(),
        ensures
            match r {
                Some(c) => self.child_for(segment.spec_bytes()) == Some(*c),
                None => self.child_for(segment.spec_bytes()) is None,
            },
    {
        match self.find(segment) {
            Ok(k) => Some(&self.next[k]),
            Err(_) => self.params(),
        }
    }
}

/// The segment text of the node that a pattern segment makes: `*` for a
/// parameter, the segment itself otherwise.
pub open spec fn node_key(seg: Seq<u8>) -> Seq<u8> {
    if is_param(seg) {
        star()
    } else {
        seg
    }
}

impl<T> PathNode<T> {
    /// Two nodes whose literal children are the same but for those of one
    /// segment have the same child at every other edge.
    proof fn lemma_other_children(self, before: PathNode<T>, e: Edge)
        requires
            self.sorted(),
            before.sorted(),
            e != Edge::Param ==> self.param() == before.param(),
            forall|i: int|
                0 <= i < before.literals().len() && Edge::Literal(
                    (#[trigger] before.literals()[i]).key(),
                ) != e ==> self.literals().contains(before.literals()[i]),
            forall|i: int|
                0 <= i < self.literals().len() && Edge::Literal((#[trigger] self.literals()[i]).key())
                    != e ==> before.literals().contains(self.literals()[i]),
        ensures
            forall|other: Edge| other != e ==> self.child(other) == before.child(other),
    {
        assert forall|other: Edge| other != e implies self.child(other) == before.child(other) by {
            match other {
                Edge::Param => {},
                Edge::Literal(key) => {
                    if before.literal_index(key) is Some {
                        let i = before.literal_index(key).unwrap();
                        let c = before.literals()[i];
                        assert(self.literals().contains(c));
                        let j = choose|j: int| 0 <= j < self.literals().len() && self.literals()[j] == c;
                        self.lemma_literal_index(j);
                    } else if self.literal_index(key) is Some {
                        let j = self.literal_index(key).unwrap();
                        let c = self.literals()[j];
                        assert(before.literals().contains(c));
                        let i = choose|i: int|
                            0 <= i < before.literals().len() && before.literals()[i] == c;
                        before.lemma_literal_index(i);
                    }
                },
            }
        }
    }

    /// The table of a node without children holds the node alone.
    pub proof fn lemma_lone_table(self)
        requires
            self.literals().len() == 0,
            self.param() is None,
        ensures
            self.table() == Map::<Seq<Edge>, Entry<T>>::empty().insert(Seq::empty(), self.entry()),
    {
        let lone = Map::<Seq<Edge>, Entry<T>>::empty().insert(Seq::empty(), self.entry());
        assert forall|p: Seq<Edge>| self.table().contains_key(p) == lone.contains_key(p) by {
            if p.len() == 0 {
                assert(p =~= Seq::<Edge>::empty());
            }
        }
        assert(self.table() =~= lone);
    }

    /// Sets the node's handler, in place of any it had.
    pub fn set_handler(&mut self, handler: T)
        requires
            old(self).wf(),
        ensures
            final(self).wf(),
            final(self).live(),
            final(self).key() == old(self).key(),
            final(self).full_path() == old(self).full_path(),
            final(self).payload() == Some(handler),
            final(self).literals() == old(self).literals(),
            final(self).param() == old(self).param(),
    {
        let ghost before = *self;
        self.handler = Some(handler);
        proof {
            before.lemma_wf_children();
            assert(self.literals() == before.literals());
            assert(self.param() == before.param());
            assert(self.sorted());
        }
    }

    /// Puts a child below this node under the child's own segment, in place
    /// of a child of the same segment if there is one.
    pub fn put_literal(&mut self, child: PathNode<T>)
        requires
            old(self).wf(),
            child.wf(),
            child.live(),
            !is_param(child.key()),
        ensures
            final(self).wf(),
            final(self).live(),
            final(self).key() == old(self).key(),
            final(self).entry() == old(self).entry(),
            final(self).child(Edge::Literal(child.key())) == Some(child),
            forall|other: Edge|
                other != Edge::Literal(child.key()) ==> final(self).child(other) == old(self).child(
                    other,
                ),
            final(self).table() == grafted(
                old(self).table(),
                Edge::Literal(child.key()),
                child.table(),
            ),
    {
        let ghost before = *self;
        let ghost e = Edge::Literal(child.key());
        proof {
            before.lemma_wf_children();
        }
        match self.find(child.segment.as_str()) {
            Ok(k) => {
                self.next[k] = child;
                proof {
                    assert(self.next@ == before.next@.update(k as int, child));
                    assert forall|i: int, j: int| 0 <= i < j < self.literals().len() implies lex_lt(
                        #[trigger] self.literals()[i].key(),
                        #[trigger] self.literals()[j].key(),
                    ) by {
                        assert(self.literals()[i].key() == before.literals()[i].key());
                        assert(self.literals()[j].key() == before.literals()[j].key());
                    }
                    assert forall|i: int|
                        0 <= i < before.literals().len() && Edge::Literal(
                            (#[trigger] before.literals()[i]).key(),
                        ) != e implies self.literals().contains(before.literals()[i]) by {
                        assert(self.literals()[i] == before.literals()[i]);
                    }
                    assert forall|i: int|
                        0 <= i < self.literals().len() && Edge::Literal(
                            (#[trigger] self.literals()[i]).key(),
                        ) != e implies before.literals().contains(self.literals()[i]) by {
                        assert(self.literals()[i] == before.literals()[i]);
                    }
                    self.lemma_literal_index(k as int);
                }
            },
            Err(k) => {
                self.next.insert(k, child);
                proof {
                    assert(self.next@ == before.next@.insert(k as int, child));
                    assert forall|i: int, j: int| 0 <= i < j < self.literals().len() implies lex_lt(
                        #[trigger] self.literals()[i].key(),
                        #[trigger] self.literals()[j].key(),
                    ) by {
                        if i < k && j > k {
                            assert(self.literals()[i] == before.literals()[i]);
                            assert(self.literals()[j] == before.literals()[j - 1]);
                            if i < j - 1 {
                                assert(lex_lt(before.literals()[i].key(), before.literals()[j - 1].key()));
                            }
                        } else if i < k && j < k {
                            assert(lex_lt(before.literals()[i].key(), before.literals()[j].key()));
                        } else if i > k {
                            assert(lex_lt(before.literals()[i - 1].key(), before.literals()[j - 1].key()));
                        } else if i == k {
                            assert(self.literals()[j] == before.literals()[j - 1]);
                        } else {
                            assert(self.literals()[i] == before.literals()[i]);
                        }
                    }
                    assert forall|i: int|
                        0 <= i < before.literals().len() && Edge::Literal(
                            (#[trigger] before.literals()[i]).key(),
                        ) != e implies self.literals().contains(before.literals()[i]) by {
                        if i < k {
                            assert(self.literals()[i] == before.literals()[i]);
                        } else {
                            assert(self.literals()[i + 1] == before.literals()[i]);
                        }
                    }
                    assert forall|i: int|
                        0 <= i < self.literals().len() && Edge::Literal(
                            (#[trigger] self.literals()[i]).key(),
                        ) != e implies before.literals().contains(self.literals()[i]) by {
                        if i < k {
                            assert(self.literals()[i] == before.literals()[i]);
                        } else if i > k {
                            assert(self.literals()[i] == before.literals()[i - 1]);
                        }
                    }
                    assert forall|i: int| 0 <= i < self.next@.len() implies {
                        &&& !is_param((#[trigger] self.next@[i]).key())
                        &&& self.next@[i].live()
                        &&& self.next@[i].wf()
                    } by {
                        if i < k {
                            assert(self.next@[i] == before.next@[i]);
                        } else if i > k {
                            assert(self.next@[i] == before.next@[i - 1]);
                        }
                    }
                    self.lemma_literal_index(k as int);
                }
            },
        }
        proof {
            self.lemma_other_children(before, e);
            self.lemma_table_grafted(before, e);
        }
    }

    /// Puts a child below this node as the child that stands for any one
    /// segment, in place of the one that did if there was one.
    pub fn put_param(&mut self, child: PathNode<T>)
        requires
            old(self).wf(),
            child.wf(),
            child.live(),
            child.key() == star(),
        ensures
            final(self).wf(),
            final(self).live(),
            final(self).key() == old(self).key(),
            final(self).entry() == old(self).entry(),
            final(self).child(Edge::Param) == Some(child),
            forall|other: Edge| other != Edge::Param ==> final(self).child(other) == old(self).child(other),
            final(self).table() == grafted(old(self).table(), Edge::Param, child.table()),
    {
        let ghost before = *self;
        self.params = Some(Box::new(child));
        proof {
            before.lemma_wf_children();
            assert(self.literals() == before.literals());
            assert(self.sorted());
            assert(self.param() == Some(child));
            assert forall|other: Edge| other != Edge::Param implies self.child(other) == before.child(
                other,
            ) by {
                match other {
                    Edge::Param => {},
                    Edge::Literal(key) => {
                        assert(self.literal_index(key) == before.literal_index(key));
                    },
                }
            }
            self.lemma_table_grafted(before, Edge::Param);
        }
    }

    /// Registers the route spelled by `segs[at..]` below this node, which
    /// stands `at` segments deep: follows the children that are there as
    /// far as the route goes along them, and has the rest made.
    pub fn graft(&mut self, segs: &Vec<&str>, at: usize, path: String, handler: T)
        requires
            old(self).wf(),
            at <= segs@.len(),
            encode_utf8(path@) == joined(texts(segs@).take(at as int)),
        ensures
            final(self).wf(),
            final(self).live(),
            final(self).key() == old(self).key(),
            final(self).table() == with_route_from(
                old(self).table(),
                texts(segs@),
                at as int,
                handler,
            ),
        decreases segs@.len() - at,
    {
        let ghost before = *self;
        let ghost all = texts(segs@);
        proof {
            before.lemma_wf_children();
        }
        if at < segs.len() {
            let seg: &str = segs[at];
            let ghost e = edge_of(all[at as int]);
            assert(all[at as int] == seg.spec_bytes());
            if segment_is_param(seg) {
                match &mut self.params {
                    Some(child) => {
                        let mut deeper = path;
                        push_segment(&mut deeper, seg);
                        proof {
                            lemma_path_step(all, at as int);
                        }
                        child.graft(segs, at + 1, deeper, handler);
                        proof {
                            self.lemma_descended(before, all, at as int, handler);
                        }
                        return ;
                    },
                    None => {},
                }
            } else {
                match self.find(seg) {
                    Ok(k) => {
                        let mut deeper = path;
                        push_segment(&mut deeper, seg);
                        proof {
                            lemma_path_step(all, at as int);
                            before.lemma_literal_index(k as int);
                        }
                        self.next[k].graft(segs, at + 1, deeper, handler);
                        proof {
                            assert(self.next@ == before.next@.update(k as int, self.next@[k as int]));
                            assert forall|i: int, j: int|
                                0 <= i < j < self.literals().len() implies lex_lt(
                                #[trigger] self.literals()[i].key(),
                                #[trigger] self.literals()[j].key(),
                            ) by {
                                assert(self.literals()[i].key() == before.literals()[i].key());
                                assert(self.literals()[j].key() == before.literals()[j].key());
                            }
                            assert forall|i: int|
                                0 <= i < before.literals().len() && Edge::Literal(
                                    (#[trigger] before.literals()[i]).key(),
                                ) != e implies self.literals().contains(before.literals()[i]) by {
                                assert(self.literals()[i] == before.literals()[i]);
                            }
                            assert forall|i: int|
                                0 <= i < self.literals().len() && Edge::Literal(
                                    (#[trigger] self.literals()[i]).key(),
                                ) != e implies before.literals().contains(self.literals()[i]) by {
                                assert(self.literals()[i] == before.literals()[i]);
                            }
                            self.lemma_literal_index(k as int);
                            self.lemma_other_children(before, e);
                            self.lemma_descended(before, all, at as int, handler);
                        }
                        return ;
                    },
                    Err(_) => {},
                }
            }
        }
        RouteTree::wire_handler(self, segs, at, path, handler);
    }

    /// What registering the rest of a route below a child comes to for the
    /// node itself.
    proof fn lemma_descended(self, before: PathNode<T>, segs: Seq<Seq<u8>>, at: int, handler: T)
        requires
            0 <= at < segs.len(),
            self.entry() == before.entry(),
            before.child(edge_of(segs[at])) is Some,
            self.child(edge_of(segs[at])) is Some,
            self.child(edge_of(segs[at])).unwrap().table() == with_route_from(
                before.child(edge_of(segs[at])).unwrap().table(),
                segs,
                at + 1,
                handler,
            ),
            forall|other: Edge|
                other != edge_of(segs[at]) ==> self.child(other) == before.child(other),
        ensures
            self.table() == with_route_from(before.table(), segs, at, handler),
    {
        let e = edge_of(segs[at]);
        self.lemma_table_grafted(before, e);
        before.lemma_subtable(e);
        assert(before.at(Seq::<Edge>::empty()) == Some(before));
        lemma_with_route_step(before.table(), before.child(e).unwrap().table(), segs, at, handler);
    }
}

/// The path one segment further down a route.
pub proof fn lemma_path_step(segs: Seq<Seq<u8>>, at: int)
    requires
        0 <= at < segs.len(),
    ensures
        joined(segs.take(at + 1)) == joined(segs.take(at)) + seq![crate::text::SLASH] + segs[at],
{
    assert(segs.take(at + 1).drop_last() =~= segs.take(at));
}

} // verus!
