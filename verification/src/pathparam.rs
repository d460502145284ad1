//! Reads the values of a route's parameters off a request path.
//!
//! The pattern and the path are split on `/` and walked side by side. Each
//! pattern segment that begins with `:` gives a pair: the segment itself,
//! its `:` included, as the name, and the path segment that stands in the
//! same place, as it is, as the value. Nothing is checked: the walk ends
//! with the shorter of the two, and literal segments are passed over
//! whether they agree or not.

use vstd::prelude::*;
use vstd::string::StringSliceAdditionalSpecFns;
use crate::segments::Segments;
use crate::text::{is_param, segment_is_param, split};

verus! {

/// The pairs of name and value that a pattern and a path give, in order.
pub open spec fn params(pattern: Seq<Seq<u8>>, path: Seq<Seq<u8>>) -> Seq<(Seq<u8>, Seq<u8>)>
    decreases pattern.len(),
{
    if pattern.len() == 0 || path.len() == 0 {
        Seq::empty()
    } else {
        let rest = params(pattern.drop_first(), path.drop_first());
        if is_param(pattern[0]) {
            seq![(pattern[0], path[0])] + rest
        } else {
            rest
        }
    }
}

/// The places of a pattern's parameter segments, in rising order.
pub open spec fn positions(pattern: Seq<Seq<u8>>) -> Seq<int>
    decreases pattern.len(),
{
    if pattern.len() == 0 {
        Seq::empty()
    } else {
        let rest = Seq::new(
            positions(pattern.drop_first()).len(),
            |j: int| positions(pattern.drop_first())[j] + 1,
        );
        if is_param(pattern[0]) {
            seq![0int] + rest
        } else {
            rest
        }
    }
}

/// A pattern gives one pair for each of its parameter segments, in the
/// order of the segments, and each pair holds the pattern segment and the
/// path segment of the parameter's place, provided that the path has a
/// segment at the place of every parameter.
pub proof fn law_params_by_position(pattern: Seq<Seq<u8>>, path: Seq<Seq<u8>>)
    requires
        forall|j: int| 0 <= j < positions(pattern).len() ==> positions(pattern)[j] < path.len(),
    ensures
        params(pattern, path).len() == positions(pattern).len(),
        forall|j: int|
            0 <= j < positions(pattern).len() ==> {
                &&& 0 <= #[trigger] positions(pattern)[j] < pattern.len()
                &&& is_param(pattern[positions(pattern)[j]])
                &&& params(pattern, path)[j] == (
                    pattern[positions(pattern)[j]],
                    path[positions(pattern)[j]],
                )
            },
        forall|j: int, k: int|
            0 <= j < k < positions(pattern).len() ==> positions(pattern)[j] < positions(pattern)[k],
    decreases pattern.len(),
{
    if pattern.len() == 0 {
    } else {
        let tail = pattern.drop_first();
        let below = positions(tail);
        let shifted = Seq::new(below.len(), |j: int| below[j] + 1);
        let here = positions(pattern);
        if is_param(pattern[0]) {
            assert(here == seq![0int] + shifted);
            assert(here[0] == 0);
            assert forall|j: int| 0 <= j < below.len() implies below[j] < path.len() - 1 by {
                assert(here[j + 1] == below[j] + 1);
            }
        } else {
            assert(here == shifted);
            assert forall|j: int| 0 <= j < below.len() implies below[j] < path.len() - 1 by {
                assert(here[j] == below[j] + 1);
            }
        }
        if path.len() == 0 {
            if below.len() > 0 {
                assert(below[0] < -1);
                law_positions_in_range(tail);
            }
        } else {
            law_params_by_position(tail, path.drop_first());
            let rest = params(tail, path.drop_first());
            assert forall|j: int| 0 <= j < here.len() implies {
                &&& 0 <= #[trigger] here[j] < pattern.len()
                &&& is_param(pattern[here[j]])
                &&& params(pattern, path)[j] == (pattern[here[j]], path[here[j]])
            } by {
                if is_param(pattern[0]) {
                    if j > 0 {
                        assert(here[j] == below[j - 1] + 1);
                        assert(params(pattern, path)[j] == rest[j - 1]);
                        assert(tail[below[j - 1]] == pattern[here[j]]);
                        assert(path.drop_first()[below[j - 1]] == path[here[j]]);
                    }
                } else {
                    assert(here[j] == below[j] + 1);
                    assert(tail[below[j]] == pattern[here[j]]);
                    assert(path.drop_first()[below[j]] == path[here[j]]);
                }
            }
            assert forall|j: int, k: int| 0 <= j < k < here.len() implies here[j] < here[k] by {
                if is_param(pattern[0]) {
                    if j > 0 {
                        assert(below[j - 1] < below[k - 1]);
                    } else {
                        assert(here[k] == below[k - 1] + 1);
                    }
                } else {
                    assert(below[j] < below[k]);
                }
            }
        }
    }
}

/// The places of a pattern's parameters lie within the pattern.
pub proof fn law_positions_in_range(pattern: Seq<Seq<u8>>)
    ensures
        forall|j: int|
            0 <= j < positions(pattern).len() ==> 0 <= #[trigger] positions(pattern)[j]
                < pattern.len(),
    decreases pattern.len(),
{
    if pattern.len() > 0 {
        law_positions_in_range(pattern.drop_first());
        let below = positions(pattern.drop_first());
        assert forall|j: int| 0 <= j < positions(pattern).len() implies 0
            <= #[trigger] positions(pattern)[j] < pattern.len() by {
            if is_param(pattern[0]) {
                if j > 0 {
                    assert(positions(pattern)[j] == below[j - 1] + 1);
                }
            } else {
                assert(positions(pattern)[j] == below[j] + 1);
            }
        }
    }
}

/// The route parameters that have not been handed out yet.
pub struct Parse<'a> {
    route: Segments<'a>,
    path: Segments<'a>,
}

impl<'a> Parse<'a> {
    /// The pairs still to come, in order.
    pub closed spec fn pairs(&self) -> Seq<(Seq<u8>, Seq<u8>)> {
        params(self.route@, self.path@)
    }

    /// The reader that has handed out nothing yet.
    pub closed spec fn start(route: &'a str, path: &'a str) -> Parse<'a> {
        Parse { route: Segments::start(route), path: Segments::start(path) }
    }

    /// At the start all of a pattern's pairs are still to come.
    pub proof fn lemma_start(route: &'a str, path: &'a str)
        ensures
            Self::start(route, path)@ == params(split(route.spec_bytes()), split(path.spec_bytes())),
    {
        Segments::lemma_start(route);
        Segments::lemma_start(path);
    }

    /// Hands out the next pair of parameter name and value, or `None` once
    /// all have been handed out.
    pub fn next(&mut self) -> (r: Option<(&'a str, &'a str)>)
        ensures
            match r {
                Some((name, value)) => {
                    &&& old(self)@.len() > 0
                    &&& (name.spec_bytes(), value.spec_bytes()) == old(self)@[0]
                    &&& final(self)@ == old(self)@.drop_first()
                },
                None => old(self)@.len() == 0 && final(self)@.len() == 0,
            },
    {
        loop
            invariant
                self.pairs() == old(self).pairs(),
            decreases self.route@.len(),
        {
            let ghost keys = self.route@;
            let ghost values = self.path@;
            match self.route.next() {
                Some(key) => {
                    match self.path.next() {
                        Some(value) => {
                            if segment_is_param(key) {
                                proof {
                                    let rest = params(keys.drop_first(), values.drop_first());
                                    assert((seq![(keys[0], values[0])] + rest).drop_first() =~= rest);
                                }
                                return Some((key, value));
                            }
                        },
                        None => {
                            return None;
                        },
                    }
                },
                None => {
                    return None;
                },
            }
        }
    }
}

impl<'a> View for Parse<'a> {
    type V = Seq<(Seq<u8>, Seq<u8>)>;

    open spec fn view(&self) -> Seq<(Seq<u8>, Seq<u8>)> {
        self.pairs()
    }
}

/// Accepts a route map and a request path, returns a reader of the route
/// parameters and their raw values.
pub fn parse<'a>(route: &'a str, path: &'a str) -> (r: Parse<'a>)
    ensures
        r == Parse::start(route, path),
        r@ == params(split(route.spec_bytes()), split(path.spec_bytes())),
{
    Parse { route: Segments::new(route), path: Segments::new(path) }
}

/// A convenience that allows the caller to provide a `From<Parse<'a>>`
/// implementation for their own types: the value that the caller's type
/// makes of the reader that `parse` gives for the same pattern and path.
pub fn from<'a, T>(route: &'a str, path: &'a str) -> (r: T) where T: From<Parse<'a>>
    ensures
        call_ensures(T::from, (Parse::start(route, path),), r),
{
    T::from(parse(route, path))
}

} // verus!
