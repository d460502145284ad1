//! The route table: one route tree for each request method.

use vstd::prelude::*;
use vstd::string::StringSliceAdditionalSpecFns;
use crate::error::RouteError;
use crate::model::{empty_table, lookup, with_route, Entry, Table};
use crate::route::Route;
use crate::text::{pattern_segments, starts_with_slash};
use crate::tree::RouteTree;

verus! {

/// A request method.
#[derive(Debug, PartialEq, Eq)]
pub enum Method {
    Options,
    Get,
    Post,
    Put,
    Delete,
    Head,
    Trace,
    Connect,
    Patch,
    /// A method by its own name.
    Extension(String),
}

/// What a method is compared by: its kind and, for a method by name, the
/// name.
pub enum MethodKey {
    Options,
    Get,
    Post,
    Put,
    Delete,
    Head,
    Trace,
    Connect,
    Patch,
    Extension(Seq<char>),
}

impl View for Method {
    type V = MethodKey;

    open spec fn view(&self) -> MethodKey {
        match *self {
            Method::Options => MethodKey::Options,
            Method::Get => MethodKey::Get,
            Method::Post => MethodKey::Post,
            Method::Put => MethodKey::Put,
            Method::Delete => MethodKey::Delete,
            Method::Head => MethodKey::Head,
            Method::Trace => MethodKey::Trace,
            Method::Connect => MethodKey::Connect,
            Method::Patch => MethodKey::Patch,
            Method::Extension(name) => MethodKey::Extension(name@),
        }
    }
}

impl Method {
    /// Whether two methods are the same.
    pub fn same(&self, other: &Method) -> (r: bool)
        ensures
            r == (self@ == other@),
    {
        match (self, other) {
            (Method::Options, Method::Options) => true,
            (Method::Get, Method::Get) => true,
            (Method::Post, Method::Post) => true,
            (Method::Put, Method::Put) => true,
            (Method::Delete, Method::Delete) => true,
            (Method::Head, Method::Head) => true,
            (Method::Trace, Method::Trace) => true,
            (Method::Connect, Method::Connect) => true,
            (Method::Patch, Method::Patch) => true,
            (Method::Extension(a), Method::Extension(b)) => *a == *b,
            _ => false,
        }
    }
}

/// The meaning of a router: the table of each method that has one.
pub type Tables<T> = Map<MethodKey, Table<Route<T>>>;

/// The table of a method: the one that the router has for it, or that of
/// a tree without routes.
pub open spec fn table_of<T>(tables: Tables<T>, method: MethodKey) -> Table<Route<T>> {
    if tables.contains_key(method) {
        tables[method]
    } else {
        empty_table()
    }
}

/// Whether `after` is `before` with one more route: the table of `method`
/// has the route of `pattern`, ending in a [`Route`] of the pattern and the
/// target, and every other method has the table it had.
pub open spec fn added<T>(
    before: Tables<T>,
    after: Tables<T>,
    method: MethodKey,
    pattern: &str,
    target: T,
) -> bool {
    exists|stored: Route<T>|
        #![trigger stored.is(pattern@, target)]
        {
            &&& stored.is(pattern@, target)
            &&& after == before.insert(
                method,
                with_route(table_of(before, method), pattern_segments(pattern.spec_bytes()), stored),
            )
        }
}

/// What a request finds in a router: what dispatching its path finds in
/// the table of its method, and nothing if the method has no table.
pub open spec fn found<T>(tables: Tables<T>, method: MethodKey, path: Seq<u8>) -> Option<
    Entry<Route<T>>,
> {
    if tables.contains_key(method) {
        lookup(tables[method], path)
    } else {
        None
    }
}

/// Router from a request method and a request path to a route.
pub struct Router<T> {
    routes: Vec<(Method, RouteTree<Route<T>>)>,
}

impl<T> View for Router<T> {
    type V = Tables<T>;

    open spec fn view(&self) -> Tables<T> {
        self.tables()
    }
}

impl<T> Default for Router<T> {
    /// A router without routes.
    fn default() -> (router: Self)
        ensures
            router.wf(),
            router@ == Map::<MethodKey, Table<Route<T>>>::empty(),
    {
        Router::new()
    }
}

impl<T> Router<T> {
    /// The index of the tree of a method.
    spec fn slot(self, method: MethodKey) -> Option<int> {
        if exists|i: int| 0 <= i < self.routes@.len() && (#[trigger] self.routes@[i]).0@ == method {
            Some(choose|i: int| 0 <= i < self.routes@.len() && (#[trigger] self.routes@[i]).0@ == method)
        } else {
            None
        }
    }

    /// The table of each method that has a tree.
    pub closed spec fn tables(&self) -> Tables<T> {
        Map::new(
            |method: MethodKey| self.slot(method) is Some,
            |method: MethodKey| self.routes@[self.slot(method).unwrap()].1@,
        )
    }

    /// What holds of every router: each tree is well formed, and no method
    /// has two.
    pub closed spec fn wf(&self) -> bool {
        &&& forall|i: int| 0 <= i < self.routes@.len() ==> (#[trigger] self.routes@[i]).1.wf()
        &&& forall|i: int, j: int|
            0 <= i < j < self.routes@.len() ==> (#[trigger] self.routes@[i]).0@
                != (#[trigger] self.routes@[j]).0@
    }

    /// A method has one tree at most.
    proof fn lemma_slot(self, i: int)
        requires
            self.wf(),
            0 <= i < self.routes@.len(),
        ensures
            self.slot(self.routes@[i].0@) == Some(i),
    {
        let j = self.slot(self.routes@[i].0@).unwrap();
        if j < i {
            assert(self.routes@[j].0@ != self.routes@[i].0@);
        } else if i < j {
            assert(self.routes@[i].0@ != self.routes@[j].0@);
        }
    }

    /// A router without routes.
    pub fn new() -> (router: Self)
        ensures
            router.wf(),
            router@ == Map::<MethodKey, Table<Route<T>>>::empty(),
    {
        let router = Router { routes: Vec::new() };
        assert(router.tables() =~= Map::<MethodKey, Table<Route<T>>>::empty());
        router
    }

    /// The index of the tree of a method, if it has one.
    fn position(&self, method: &Method) -> (r: Option<usize>)
        requires
            self.wf(),
        ensures
            match r {
                Some(i) => i < self.routes@.len() && self.slot(method@) == Some(i as int),
                None => self.slot(method@) is None,
            },
    {
        let mut i: usize = 0;
        while i < self.routes.len()
            invariant
                i <= self.routes@.len(),
                self.wf(),
                forall|j: int| 0 <= j < i ==> (#[trigger] self.routes@[j]).0@ != method@,
            decreases self.routes@.len() - i,
        {
            if self.routes[i].0.same(method) {
                proof {
                    self.lemma_slot(i as int);
                }
                return Some(i);
            }
            i += 1;
        }
        None
    }

    /// Add a target at the specific route path for the given method. The
    /// method gets a tree on its first use, before the pattern is looked
    /// at, so that it has one even where the pattern is refused.
    pub fn add(&mut self, method: Method, route: &str, target: T) -> (r: Result<(), RouteError>)
        requires
            old(self).wf(),
        ensures
            final(self).wf(),
            match r {
                Ok(_) => starts_with_slash(route.spec_bytes()) && added(
                    old(self)@,
                    final(self)@,
                    method@,
                    route,
                    target,
                ),
                Err(e) => {
                    &&& !starts_with_slash(route.spec_bytes())
                    &&& e == RouteError::MalformedPattern
                    &&& final(self)@ == old(self)@.insert(method@, table_of(old(self)@, method@))
                },
            },
    {
        let ghost before = *self;
        let ghost key = method@;
        let slot: usize = match self.position(&method) {
            Some(i) => i,
            None => {
                self.routes.push((method, RouteTree::empty_root()));
                self.routes.len() - 1
            },
        };
        let ghost ready = *self;
        proof {
            assert(ready.wf());
            ready.lemma_slot(slot as int);
            assert(ready.routes@[slot as int].1@ == table_of(before@, key));
            assert forall|other: MethodKey| other != key implies ready.slot(other) == before.slot(
                other,
            ) by {
                if before.slot(other) is Some {
                    let i = before.slot(other).unwrap();
                    assert(ready.routes@[i] == before.routes@[i]);
                    ready.lemma_slot(i);
                } else if ready.slot(other) is Some {
                    let i = ready.slot(other).unwrap();
                    assert(ready.routes@[i] == before.routes@[i]);
                }
            }
            assert(ready@ =~= before@.insert(key, table_of(before@, key)));
        }
        let stored = Route::new(route, target);
        let outcome = match self.routes[slot].1.add(route, stored) {
            Ok(_) => Ok(()),
            Err(e) => Err(e),
        };
        proof {
            assert(self.routes@ == ready.routes@.update(slot as int, self.routes@[slot as int]));
            assert(self.routes@[slot as int].0 == ready.routes@[slot as int].0);
            assert forall|i: int, j: int| 0 <= i < j < self.routes@.len() implies (
            #[trigger] self.routes@[i]).0@ != (#[trigger] self.routes@[j]).0@ by {
                assert(self.routes@[i].0 == ready.routes@[i].0);
                assert(self.routes@[j].0 == ready.routes@[j].0);
                assert(ready.routes@[i].0@ != ready.routes@[j].0@);
            }
            assert forall|i: int| 0 <= i < self.routes@.len() implies (
            #[trigger] self.routes@[i]).1.wf() by {
                if i != slot {
                    assert(self.routes@[i] == ready.routes@[i]);
                }
            }
            self.lemma_slot(slot as int);
            assert forall|other: MethodKey| other != key implies self.slot(other) == ready.slot(
                other,
            ) by {
                if ready.slot(other) is Some {
                    let i = ready.slot(other).unwrap();
                    assert(self.routes@[i].0 == ready.routes@[i].0);
                    self.lemma_slot(i);
                } else if self.slot(other) is Some {
                    let i = self.slot(other).unwrap();
                    assert(self.routes@[i].0 == ready.routes@[i].0);
                }
            }
            assert forall|other: MethodKey|
                other != key && ready.slot(other) is Some implies self.routes@[self.slot(
                other,
            ).unwrap()].1@ == ready.routes@[ready.slot(other).unwrap()].1@ by {
                let i = ready.slot(other).unwrap();
                assert(i != slot);
                assert(self.routes@[i] == ready.routes@[i]);
            }
            if outcome is Ok {
                let table = with_route(
                    table_of(before@, key),
                    pattern_segments(route.spec_bytes()),
                    stored,
                );
                assert(self@ =~= before@.insert(key, table));
                assert(stored.is(route@, target));
            } else {
                assert(self@ =~= ready@);
            }
        }
        outcome
    }

    /// Find what is registered for a method and a request path: what the
    /// tree of the method finds for the path, and nothing if the method
    /// has no tree.
    pub fn dispatch<'a>(&'a self, method: &Method, route_path: &str) -> (r: Option<
        (&'a str, &'a Option<Route<T>>),
    >)
        requires
            self.wf(),
        ensures
            match r {
                Some((full_path, route)) => found(self@, method@, route_path.spec_bytes()) == Some(
                    Entry { full_path: full_path.spec_bytes(), handler: *route },
                ),
                None => found(self@, method@, route_path.spec_bytes()) is None,
            },
    {
        match self.position(method) {
            Some(i) => self.routes[i].1.dispatch(route_path),
            None => None,
        }
    }

    /// Decides what answers a request: the route that is registered for
    /// its method and path, or `None`, which stands for "not found", where
    /// nothing is found or what is found ends no route.
    pub fn call<'a>(&'a self, method: &Method, route_path: &str) -> (r: Option<&'a Route<T>>)
        requires
            self.wf(),
        ensures
            match r {
                Some(route) => found(self@, method@, route_path.spec_bytes()) matches Some(entry)
                    && entry.handler == Some(*route),
                None => found(self@, method@, route_path.spec_bytes()) matches Some(entry)
                    ==> entry.handler is None,
            },
    {
        match self.dispatch(method, route_path) {
            Some((_, route)) => match route {
                Some(target) => Some(target),
                None => None,
            },
            None => None,
        }
    }
}

} // verus!
