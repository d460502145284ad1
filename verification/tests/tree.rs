use luminal_router::PathNode;
use luminal_router::RouteError;
use luminal_router::RouteTree;
use luminal_router::Segments;

fn sub_route2(parent: &str, first: &str, second: &str) -> PathNode<String> {
    let mut node = PathNode::new(&format!("/{}", parent), parent, None);
    node.put_literal(PathNode::new(
        &format!("/{}/{}", parent, first),
        first,
        Some(String::from(first.to_uppercase())),
    ));
    node.put_literal(PathNode::new(
        &format!("/{}/{}", parent, second),
        second,
        Some(String::from(second.to_uppercase())),
    ));
    node
}

fn assert_dispatch(route: &RouteTree<String>, route_path: &str, handler: &str) {
    let found = route.dispatch(route_path);
    if let Some((_, found)) = found {
        assert_eq!(
            if handler.is_empty() {
                None
            } else {
                Some(handler.to_owned())
            },
            *found,
            "Could not find handler, {:?}",
            route.root()
        );
    } else {
        panic!("Not found");
    }
}

// Test a path parameter
#[test]
pub fn test_path_param() {
    let mut route = RouteTree::empty_root();
    route
        .add("/foo/:foo", String::from("Foo"))
        .expect("Should have added route without error");
    assert_dispatch(&route, "/foo/123", "Foo");
}

// Test a path parameter in the middle of a route
#[test]
pub fn test_path_param_middle() {
    let mut route = RouteTree::empty_root();
    route
        .add("/foo/:foo/bar", String::from("Bar"))
        .expect("Should have added route without error");
    assert_dispatch(&route, "/foo/123/bar", "Bar");
}

// Test multiple path parameters
#[test]
pub fn test_multiple_path_param() {
    let mut route = RouteTree::empty_root();
    route
        .add("/foo/:foo/bar/:bar", String::from("Bar"))
        .expect("Should have added route without error");
    assert_dispatch(&route, "/foo/123/bar/456", "Bar");
}

// Test adding a single, multiple component path
#[test]
pub fn test_add() {
    let mut expected = PathNode::new("/", "", None);
    let mut foo = PathNode::new("/foo", "foo", None);
    let bar = PathNode::new("/foo/bar", "bar", Some(String::from("Bar")));
    foo.put_literal(bar);
    expected.put_literal(foo);
    let mut route = RouteTree::empty_root();
    route
        .add("/foo/bar", String::from("Bar"))
        .expect("Should have added route without error");
    assert_eq!(expected, *route.root());
}

// Test adding a two routes that have a common ancestor
#[test]
pub fn test_add_two() {
    let foo = sub_route2("foo", "bar", "baz");
    let mut expected = PathNode::new("/", "", None);
    expected.put_literal(foo);
    let mut route = RouteTree::empty_root();
    route
        .add("/foo/bar", String::from("BAR"))
        .expect("Should have added route without error")
        .add("/foo/baz", String::from("BAZ"))
        .expect("Should have added route without error");
    assert_eq!(expected, *route.root());
}

// Test adding two routes, one that is an extension of another
#[test]
pub fn test_add_extend() {
    let mut expected = PathNode::new("/", "", None);
    let mut foo = PathNode::new("/foo", "foo", Some(String::from("Foo")));
    foo.put_literal(PathNode::new(
        "/foo/bar",
        "bar",
        Some(String::from("Bar")),
    ));
    expected.put_literal(foo);
    let mut route = RouteTree::empty_root();
    route
        .add("/foo/bar/", String::from("Bar"))
        .expect("Should have added route without error");
    route
        .add("/foo/", String::from("Foo"))
        .expect("Should have added route without error");
    assert_eq!(expected, *route.root());
}

// Test that we can find an added path
#[test]
pub fn test_dispatch() {
    let mut route = RouteTree::empty_root();
    route
        .add("/foo/bar", String::from("Bar"))
        .expect("Should have added route without error");
    assert_dispatch(&route, "/foo/bar", "Bar");
}

// Test that we can find an added path with a more complex routing tree
#[test]
pub fn test_dispatch_two() {
    let mut route = RouteTree::empty_root();
    route
        .add("/foo/bar", String::from("Bar"))
        .expect("Should have added route without error")
        .add("/foo/baz", String::from("Baz"))
        .expect("Should have added route without error");
    assert_dispatch(&route, "/foo", "");
    assert_dispatch(&route, "/foo/bar", "Bar");
    assert_dispatch(&route, "/foo/baz", "Baz");
}

// Test that we can find an added path with a more complex routing tree
#[test]
pub fn test_dispatch_complex() {
    let mut route = RouteTree::empty_root();
    route
        .add("/foo/bar", String::from("Bar"))
        .expect("Should have added route without error")
        .add("/foo/:foo", String::from("Foo"))
        .expect("Should have added route without error")
        .add("/foo/:foo/bar", String::from("PathBar"))
        .expect("Should have added route without error")
        .add("/foo/:foo/baz", String::from("PathBaz"))
        .expect("Should have added route without error")
        .add("/foo/baz", String::from("Baz"))
        .expect("Should have added route without error")
        .add("/foo/baz/qux", String::from("Qux"))
        .expect("Should have added route without error")
        .add("/qux/quux/quuux/quuuux/quuuuux", String::from("LongPath"))
        .expect("Should have added route without error");
    assert_dispatch(&route, "/foo", "");
    assert_dispatch(&route, "/foo/123", "Foo");
    assert_dispatch(&route, "/foo/123/bar", "PathBar");
    assert_dispatch(&route, "/foo/123/baz", "PathBaz");
    assert_dispatch(&route, "/foo/bar", "Bar");
    assert_dispatch(&route, "/foo/baz", "Baz");
    assert_dispatch(&route, "/foo/baz/qux", "Qux");
    assert_dispatch(&route, "/qux", "");
    assert_dispatch(&route, "/qux/quux/quuux/quuuux/quuuuux", "LongPath");
}

// Test the expected outcome of a partial routing match.
#[test]
pub fn test_partial() {
    let mut route = RouteTree::empty_root();
    route
        .add("/foo/bar", String::from("Bar"))
        .expect("Should have added route without error");
    assert_dispatch(&route, "/foo", "");
}

// Test iterating partially into the tree.
#[test]
pub fn test_iter_partial() {
    let mut route = RouteTree::empty_root();
    route
        .add("/foo/bar/baz", String::from("Baz"))
        .expect("Should have been able to add route.");

    let tokens = Segments::new("foo");

    let mut iter = route.iter(tokens);
    assert_eq!(Some("foo"), iter.next().map(|node| node.segment()));
    assert_eq!(None, iter.next());
}

// Test iterating with a requested path that misses.
#[test]
pub fn test_iter_miss() {
    let mut route = RouteTree::empty_root();
    route
        .add("/foo/bar/baz", String::from("Baz"))
        .expect("Should have been able to add route.");

    let tokens = Segments::new("foo/baz");

    let mut iter = route.iter(tokens);
    assert_eq!(Some("foo"), iter.next().map(|node| node.segment()));
    assert_eq!(None, iter.next());
}

// Test iterating a requested path that is in the tree.
#[test]
pub fn test_iter_hit() {
    let mut route = RouteTree::empty_root();
    route
        .add("/foo/bar/baz", String::from("Baz"))
        .expect("Should have been able to add route.");

    let tokens = Segments::new("foo/bar/baz");

    let mut iter = route.iter(tokens);
    assert_eq!(Some("foo"), iter.next().map(|node| node.segment()));
    assert_eq!(Some("bar"), iter.next().map(|node| node.segment()));
    assert_eq!(
        Some(String::from("Baz")),
        iter.next().as_ref().and_then(|node| node.handler().clone())
    );
    assert_eq!(None, iter.next());
}

// Test iterating with a path parameter.
#[test]
pub fn test_iter_path() {
    let mut route = RouteTree::empty_root();
    route
        .add("/foo/:bar", String::from("Foo"))
        .expect("Should have been able to add route.");

    let tokens = Segments::new("foo/123");

    let mut iter = route.iter(tokens);
    assert!(
        iter.next().map(|node| node.params().is_some()).unwrap(),
        "First component should have had a params opt"
    );
    assert_eq!(
        Some(&Some(String::from("Foo"))),
        iter.next().map(|node| node.handler())
    );
}

// A new tree has a root under "/" that ends no route.
#[test]
fn empty_root_is_bare() {
    let route: RouteTree<String> = RouteTree::empty_root();
    let root = route.root();
    assert_eq!("/", root.path());
    assert_eq!("", root.segment());
    assert_eq!(&None, root.handler());
    assert!(root.params().is_none());
    assert_eq!(Some(("/", &None)), route.dispatch("/"));
    assert_eq!(Some(("/", &None)), route.dispatch(""));
    assert_eq!(None, route.dispatch("/foo"));
}

// The root route sets the root's handler and makes no node.
#[test]
fn root_route_sets_root_handler() {
    let mut route = RouteTree::empty_root();
    route.add("/", String::from("Root")).expect("root");
    assert_eq!(PathNode::new("/", "", Some(String::from("Root"))), *route.root());
    assert_eq!(Some(("/", &Some(String::from("Root")))), route.dispatch("/"));
}

// A pattern that does not begin with a slash is refused and changes nothing.
#[test]
fn malformed_pattern_is_refused() {
    let mut route = RouteTree::empty_root();
    route.add("/foo", String::from("Foo")).expect("foo");
    assert_eq!(Some(RouteError::MalformedPattern), route.add("foo/bar", String::from("X")).err());
    assert_eq!(Some(RouteError::MalformedPattern), route.add("", String::from("X")).err());
    assert_eq!(Some(RouteError::MalformedPattern), route.add(":id", String::from("X")).err());
    let mut expected = PathNode::new("/", "", None);
    expected.put_literal(PathNode::new("/foo", "foo", Some(String::from("Foo"))));
    assert_eq!(expected, *route.root());
    assert_eq!(
        "Paths must start with a slash (/)",
        RouteError::MalformedPattern.message()
    );
}

// A route that was added is found under its own pattern, with the pattern as
// the full path, whatever else was added before and after it.
#[test]
fn added_route_is_found_under_its_pattern() {
    let patterns = [
        "/",
        "/a",
        "/a/b",
        "/a/:x",
        "/a/:x/c",
        "/:top",
        "/a/b/c/d/e",
        "/caf\u{e9}/:id/\u{4e2d}\u{6587}",
    ];
    let mut route = RouteTree::empty_root();
    for p in patterns.iter() {
        route.add(p, format!("h{}", p)).expect("added");
        assert_eq!(Some((*p, &Some(format!("h{}", p)))), route.dispatch(p));
    }
    for p in patterns.iter() {
        assert_eq!(Some((*p, &Some(format!("h{}", p)))), route.dispatch(p));
    }
}

// One trailing slash of a pattern is dropped: the full path is the pattern
// without it.
#[test]
fn trailing_slash_of_pattern_is_dropped() {
    let mut route = RouteTree::empty_root();
    route.add("/foo/bar/", String::from("Bar")).expect("added");
    assert_eq!(Some(("/foo/bar", &Some(String::from("Bar")))), route.dispatch("/foo/bar"));
    assert_eq!(Some(("/foo/bar", &Some(String::from("Bar")))), route.dispatch("/foo/bar/"));
}

// Only one trailing slash is dropped: a second one leaves an empty segment.
#[test]
fn second_trailing_slash_is_an_empty_segment() {
    let mut route = RouteTree::empty_root();
    route.add("/a/b", String::from("B")).expect("added");
    route.add("/a/b//", String::from("Empty")).expect("added");
    assert_eq!(Some(("/a/b", &Some(String::from("B")))), route.dispatch("/a/b"));
    assert_eq!(Some(("/a/b/", &Some(String::from("Empty")))), route.dispatch("/a/b/"));
    let b = route.root().descend("a").unwrap().descend("b").unwrap();
    assert_eq!(Some(""), b.descend("").map(|node| node.segment()));
}

// Slashes next to each other are not merged, in patterns or in paths.
#[test]
fn empty_segments_are_kept() {
    let mut route = RouteTree::empty_root();
    route.add("/a//b", String::from("AB")).expect("added");
    assert_eq!(Some(("/a//b", &Some(String::from("AB")))), route.dispatch("/a//b"));
    assert_eq!(Some(("/a", &None)), route.dispatch("/a/b"));
    assert_eq!(None, route.dispatch("//a"));
}

// A literal child is taken before the parameter child, in whichever order
// the two routes were added.
#[test]
fn literal_beats_parameter_in_either_order() {
    let mut first = RouteTree::empty_root();
    first.add("/foo/:id", String::from("F")).expect("added");
    first.add("/foo/bar", String::from("B")).expect("added");
    let mut second = RouteTree::empty_root();
    second.add("/foo/bar", String::from("B")).expect("added");
    second.add("/foo/:id", String::from("F")).expect("added");
    for route in [&first, &second] {
        assert_eq!(Some(("/foo/bar", &Some(String::from("B")))), route.dispatch("/foo/bar"));
        assert_eq!(Some(("/foo/:id", &Some(String::from("F")))), route.dispatch("/foo/123"));
    }
    assert_eq!(first.root(), second.root());
}

// A literal route wins at every depth over routes that have parameters there.
#[test]
fn literal_beats_parameter_at_every_depth() {
    let mut route = RouteTree::empty_root();
    route.add("/:a/:b/:c", String::from("ppp")).expect("added");
    route.add("/x/:b/:c", String::from("lpp")).expect("added");
    route.add("/x/y/:c", String::from("llp")).expect("added");
    route.add("/x/y/z", String::from("lll")).expect("added");
    assert_eq!(Some(("/x/y/z", &Some(String::from("lll")))), route.dispatch("/x/y/z"));
    assert_eq!(Some(("/x/y/:c", &Some(String::from("llp")))), route.dispatch("/x/y/9"));
    assert_eq!(Some(("/x/:b/:c", &Some(String::from("lpp")))), route.dispatch("/x/8/9"));
    assert_eq!(Some(("/:a/:b/:c", &Some(String::from("ppp")))), route.dispatch("/7/8/9"));
}

// Adding a pattern again replaces the handler and makes no node.
#[test]
fn adding_again_overwrites_the_handler() {
    let mut once = RouteTree::empty_root();
    once.add("/foo/:id/bar", String::from("Second")).expect("added");
    let mut twice = RouteTree::empty_root();
    twice.add("/foo/:id/bar", String::from("First")).expect("added");
    twice.add("/foo/:id/bar", String::from("Second")).expect("added");
    assert_eq!(once.root(), twice.root());
    assert_eq!(
        Some(("/foo/:id/bar", &Some(String::from("Second")))),
        twice.dispatch("/foo/1/bar")
    );
}

// The first name that a parameter was registered under stays in the full
// path of its node; nodes made later below it record the later pattern.
#[test]
fn first_parameter_name_is_kept() {
    let mut route = RouteTree::empty_root();
    route.add("/foo/:a", String::from("A")).expect("added");
    route.add("/foo/:b", String::from("B")).expect("added");
    route.add("/foo/:c/bar", String::from("C")).expect("added");
    assert_eq!(Some(("/foo/:a", &Some(String::from("B")))), route.dispatch("/foo/1"));
    assert_eq!(Some(("/foo/:c/bar", &Some(String::from("C")))), route.dispatch("/foo/1/bar"));
}

// A path that is a prefix of a route finds a node without a handler. A
// path that goes on where the tree ends finds the last node it reached. A
// path whose first segment leads nowhere finds nothing.
#[test]
fn dispatch_prefix_overlong_and_miss() {
    let mut route = RouteTree::empty_root();
    route.add("/a/b", String::from("B")).expect("added");
    assert_eq!(Some(("/a", &None)), route.dispatch("/a"));
    assert_eq!(Some(("/a/b", &Some(String::from("B")))), route.dispatch("/a/b/c"));
    assert_eq!(Some(("/a", &None)), route.dispatch("/a/x"));
    assert_eq!(None, route.dispatch("/x"));
    assert_eq!(None, route.dispatch("/x/a/b"));
    route.add("/a/b/:p", String::from("P")).expect("added");
    assert_eq!(Some(("/a/b/:p", &Some(String::from("P")))), route.dispatch("/a/b/c"));
}

// The empty segment that a trailing slash of a request path leaves is
// followed like any other segment: it needs a child of its own.
#[test]
fn trailing_slash_of_path_is_a_segment() {
    let mut route = RouteTree::empty_root();
    route.add("/a/b", String::from("B")).expect("added");
    let mut cursor = route.iter(Segments::new("a/b/"));
    assert_eq!(Some("a"), cursor.next().map(|node| node.segment()));
    assert_eq!(Some("b"), cursor.next().map(|node| node.segment()));
    assert_eq!(None, cursor.next());
    route.add("/a/b//", String::from("Slash")).expect("added");
    let mut cursor = route.iter(Segments::new("a/b/"));
    assert_eq!(Some("a"), cursor.next().map(|node| node.segment()));
    assert_eq!(Some("b"), cursor.next().map(|node| node.segment()));
    assert_eq!(Some(&Some(String::from("Slash"))), cursor.next().map(|node| node.handler()));
    assert_eq!(
        Some(("/a/b/", &Some(String::from("Slash")))),
        route.dispatch("/a/b/")
    );
    assert_eq!(Some(("/a/b", &Some(String::from("B")))), route.dispatch("/a/b"));
}

// A leading slash of the request path is not needed.
#[test]
fn dispatch_without_leading_slash() {
    let mut route = RouteTree::empty_root();
    route.add("/foo/bar", String::from("Bar")).expect("added");
    assert_eq!(Some(("/foo/bar", &Some(String::from("Bar")))), route.dispatch("foo/bar"));
}

// A long route is followed one node for each segment.
#[test]
fn five_segments_take_five_steps() {
    let mut route = RouteTree::empty_root();
    route.add("/q/q/q/q/q", String::from("L")).expect("added");
    let mut cursor = route.iter(Segments::new("q/q/q/q/q"));
    let mut steps = 0;
    let mut last = None;
    while let Some(node) = cursor.next() {
        steps += 1;
        last = Some(node);
    }
    assert_eq!(5, steps);
    assert_eq!(Some(&Some(String::from("L"))), last.map(|node| node.handler()));
    assert_eq!(Some(("/q/q/q/q/q", &Some(String::from("L")))), route.dispatch("/q/q/q/q/q"));
}

// The node below a parameter edge has the segment "*"; a literal segment "*"
// is a literal child of its own.
#[test]
fn star_segment() {
    let mut route = RouteTree::empty_root();
    route.add("/foo/:id", String::from("P")).expect("added");
    route.add("/foo/*", String::from("S")).expect("added");
    let foo = route.root().descend("foo").unwrap();
    assert_eq!(Some("*"), foo.params().map(|node| node.segment()));
    assert_eq!(Some("/foo/:id"), foo.params().map(|node| node.path()));
    assert_eq!(Some(("/foo/*", &Some(String::from("S")))), route.dispatch("/foo/*"));
    assert_eq!(Some(("/foo/:id", &Some(String::from("P")))), route.dispatch("/foo/x"));
}

// Literal children are kept in the order of their segments, whatever the
// order in which they were added.
#[test]
fn children_are_kept_in_order() {
    let names = ["m", "b", "zz", "a", "", "ab", "z", "\u{e9}", "B"];
    let mut forward = RouteTree::empty_root();
    for name in names.iter() {
        forward.add(&format!("/{}/x", name), String::from(*name)).expect("added");
    }
    let mut backward = RouteTree::empty_root();
    for name in names.iter().rev() {
        backward.add(&format!("/{}/x", name), String::from(*name)).expect("added");
    }
    assert_eq!(forward.root(), backward.root());
    let mut sorted: Vec<&str> = names.to_vec();
    sorted.sort();
    for (i, name) in sorted.iter().enumerate() {
        assert_eq!(Ok(i), forward.root().find(name));
        assert_eq!(
            Some((format!("/{}/x", name).as_str(), &Some(String::from(*name)))),
            forward.dispatch(&format!("/{}/x", name))
        );
    }
    assert_eq!(Err(1), forward.root().find("\u{0}"));
    assert_eq!(Err(2), forward.root().find("Bb"));
    assert_eq!(Err(sorted.len()), forward.root().find("\u{ea}"));
}

// Putting a child where one of the same segment stands replaces it.
#[test]
fn put_literal_replaces() {
    let mut node: PathNode<u32> = PathNode::new("/", "", None);
    node.put_literal(PathNode::new("/a", "a", Some(1)));
    node.put_literal(PathNode::new("/b", "b", Some(2)));
    node.put_literal(PathNode::new("/a", "a", Some(3)));
    assert_eq!(Some(&Some(3)), node.descend("a").map(|c| c.handler()));
    assert_eq!(Some(&Some(2)), node.descend("b").map(|c| c.handler()));
    assert_eq!(Err(2), node.find("c"));
    node.put_param(PathNode::new("/:p", "*", Some(4)));
    assert_eq!(Some(&Some(4)), node.descend("c").map(|c| c.handler()));
    node.set_handler(5);
    assert_eq!(&Some(5), node.handler());
}

// The splitter hands out one segment more than the text has slashes.
#[test]
fn segments_of_texts() {
    fn all(text: &str) -> Vec<&str> {
        let mut source = Segments::new(text);
        let mut out = Vec::new();
        while let Some(seg) = source.next() {
            out.push(seg);
        }
        assert_eq!(None, source.next());
        out
    }
    assert_eq!(vec![""], all(""));
    assert_eq!(vec!["foo"], all("foo"));
    assert_eq!(vec!["", ""], all("/"));
    assert_eq!(vec!["", "foo", "bar"], all("/foo/bar"));
    assert_eq!(vec!["a", "", "b", ""], all("a//b/"));
    assert_eq!(vec!["\u{e9}\u{4e2d}", "\u{1f600}", "x"], all("\u{e9}\u{4e2d}/\u{1f600}/x"));
    assert_eq!(all("a//b/"), "a//b/".split('/').collect::<Vec<&str>>());
    assert_eq!(vec!["a", "", "b", ""], luminal_router::segments::segments_of("a//b/"));
}

// The nodes that a route lacks are made below the node where the route
// leaves the tree, each under the pattern as far as its own segment.
#[test]
fn wire_handler_makes_the_missing_nodes() {
    let mut last: PathNode<u32> = PathNode::new("/a", "a", Some(1));
    let segs = vec!["a", "b", ":c", "d"];
    RouteTree::wire_handler(&mut last, &segs, 1, String::from("/a"), 7);
    let d = PathNode::new("/a/b/:c/d", "d", Some(7));
    let mut c = PathNode::new("/a/b/:c", "*", None);
    c.put_literal(d);
    let mut b = PathNode::new("/a/b", "b", None);
    b.put_param(c);
    let mut expected = PathNode::new("/a", "a", Some(1));
    expected.put_literal(b);
    assert_eq!(expected, last);
    // with no segment left, only the handler is set
    RouteTree::wire_handler(&mut last, &segs, 4, String::from("/a/b/:c/d"), 9);
    assert_eq!(&Some(9), last.handler());
    assert_eq!(Ok(0), last.find("b"));
}

// Grafting follows the nodes that are there and makes the rest.
#[test]
fn graft_follows_and_extends() {
    let mut root: PathNode<u32> = PathNode::new("/", "", None);
    root.graft(&vec!["a", ":p"], 0, String::new(), 1);
    root.graft(&vec!["a", ":q", "z"], 0, String::new(), 2);
    root.graft(&vec!["a"], 0, String::new(), 3);
    let a = root.descend("a").unwrap();
    assert_eq!(&Some(3), a.handler());
    let p = a.params().unwrap();
    assert_eq!(("/a/:p", "*", &Some(1)), (p.path(), p.segment(), p.handler()));
    let z = p.descend("z").unwrap();
    assert_eq!(("/a/:q/z", "z", &Some(2)), (z.path(), z.segment(), z.handler()));
}
