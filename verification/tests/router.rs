use luminal_router::parse;
use luminal_router::FnRouteBuilder;
use luminal_router::Method;
use luminal_router::Route;
use luminal_router::RouteError;
use luminal_router::Router;
use luminal_router::ServiceRouteBuilder;

#[derive(Debug, PartialEq)]
struct StringHandler(String);

impl StringHandler {
    fn new(msg: &str) -> Self {
        StringHandler(msg.to_owned())
    }
}

impl From<fn() -> String> for StringHandler {
    fn from(function: fn() -> String) -> Self {
        StringHandler(function())
    }
}

fn get_bar_handler() -> String {
    String::from("Get bar")
}

fn assert_call(router: &Router<StringHandler>, method: Method, uri: &str, expected: &str) {
    let route = router
        .call(&method, uri)
        .expect("Should have received Ok status.");
    assert_eq!(
        expected, route.target.0,
        "Should have received correct body content"
    );
}

#[test]
fn mod_test_router() {
    let router = FnRouteBuilder::new()
        .get("/foo/bar", get_bar_handler as fn() -> String)
        .expect("Should have been able to add route")
        .service_builder()
        .get("/foo/baz", StringHandler::new("Baz"))
        .expect("Should have been able to add route")
        .post("/foo/bar", StringHandler::new("Post bar"))
        .expect("Should have been able to add route")
        .build();

    assert_call(&router, Method::Get, "/foo/bar", "Get bar");
    assert_call(&router, Method::Post, "/foo/bar", "Post bar");
    assert_call(&router, Method::Get, "/foo/baz", "Baz");
}

#[test]
fn mod_test_not_found() {
    let router: Router<StringHandler> = Default::default();

    assert!(
        router.call(&Method::Get, "/foo").is_none(),
        "Should have received not found status."
    );
}

#[test]
fn route_keeps_pattern_and_target() {
    let route = Route::new("/foo/:id", 7u32);
    assert_eq!("/foo/:id", route.route_path);
    assert_eq!(7, route.target);
}

// A route is found under the method it was added for, and under no other.
#[test]
fn routes_are_kept_by_method() {
    let mut router: Router<&str> = Router::new();
    router.add(Method::Get, "/foo/bar", "Bar").expect("added");
    let found = router.dispatch(&Method::Get, "/foo/bar");
    assert_eq!(
        Some(("/foo/bar", Some(("/foo/bar", "Bar")))),
        found.map(|(path, route)| (
            path,
            route.as_ref().map(|r| (r.route_path.as_str(), r.target))
        ))
    );
    assert!(router.dispatch(&Method::Delete, "/foo/bar").is_none());
    assert!(router.call(&Method::Delete, "/foo/bar").is_none());
    assert!(router.dispatch(&Method::Post, "/").is_none());
}

// What is found but ends no route, and what is not found, are both "not found".
#[test]
fn call_needs_a_handler() {
    let mut router: Router<&str> = Router::new();
    router.add(Method::Get, "/foo/bar", "Bar").expect("added");
    assert!(router.dispatch(&Method::Get, "/foo").is_some());
    assert!(router.call(&Method::Get, "/foo").is_none());
    assert!(router.call(&Method::Get, "/nope").is_none());
    assert_eq!(Some("Bar"), router.call(&Method::Get, "/foo/bar").map(|r| r.target));
}

// Methods by name are told apart by their names, and from the named kinds.
#[test]
fn extension_methods() {
    let mut router: Router<u8> = Router::new();
    router.add(Method::Extension(String::from("PURGE")), "/x", 1).expect("added");
    router.add(Method::Extension(String::from("LINK")), "/x", 2).expect("added");
    router.add(Method::Get, "/x", 3).expect("added");
    router.add(Method::Extension(String::from("PURGE")), "/y", 4).expect("added");
    let purge = Method::Extension(String::from("PURGE"));
    let link = Method::Extension(String::from("LINK"));
    let get = Method::Extension(String::from("GET"));
    assert_eq!(Some(1), router.call(&purge, "/x").map(|r| r.target));
    assert_eq!(Some(4), router.call(&purge, "/y").map(|r| r.target));
    assert_eq!(Some(2), router.call(&link, "/x").map(|r| r.target));
    assert_eq!(None, router.call(&link, "/y").map(|r| r.target));
    assert_eq!(Some(3), router.call(&Method::Get, "/x").map(|r| r.target));
    assert_eq!(None, router.call(&get, "/x").map(|r| r.target));
    assert!(purge.same(&Method::Extension(String::from("PURGE"))));
    assert!(!purge.same(&link));
    assert!(!Method::Get.same(&Method::Post));
    assert!(Method::Patch.same(&Method::Patch));
}

// A refused pattern gives an error; the method has a tree all the same.
#[test]
fn refused_pattern_in_router() {
    let mut router: Router<u8> = Router::new();
    assert_eq!(Err(RouteError::MalformedPattern), router.add(Method::Put, "nope", 1));
    assert_eq!(
        Some(("/", true)),
        router.dispatch(&Method::Put, "/").map(|(path, route)| (path, route.is_none()))
    );
    assert!(router.dispatch(&Method::Get, "/").is_none());
    assert!(ServiceRouteBuilder::new().get("nope", 1u8).is_err());
    assert!(FnRouteBuilder::<u16>::new().post("nope", 1u8).is_err());
}

// The builders add under the method that their own methods are named for.
#[test]
fn builders_add_by_method() {
    let router: Router<u64> = ServiceRouteBuilder::new()
        .get("/a", 1u64)
        .expect("added")
        .post("/a", 2u64)
        .expect("added")
        .fn_builder()
        .get("/b", 3u32)
        .expect("added")
        .post("/b", 4u8)
        .expect("added")
        .handler_builder()
        .get("/c/:id", 5u64)
        .expect("added")
        .build();
    assert_eq!(Some(1), router.call(&Method::Get, "/a").map(|r| r.target));
    assert_eq!(Some(2), router.call(&Method::Post, "/a").map(|r| r.target));
    assert_eq!(Some(3), router.call(&Method::Get, "/b").map(|r| r.target));
    assert_eq!(Some(4), router.call(&Method::Post, "/b").map(|r| r.target));
    assert_eq!(Some(5), router.call(&Method::Get, "/c/9").map(|r| r.target));
    assert_eq!(
        Some("/c/:id"),
        router.call(&Method::Get, "/c/9").map(|r| r.route_path.as_str())
    );
    assert_eq!(None, router.call(&Method::Put, "/a").map(|r| r.target));
}

fn target_of(router: &Router<&'static str>, method: Method, path: &str) -> Option<(String, &'static str)> {
    router.dispatch(&method, path).and_then(|(full_path, route)| {
        route.as_ref().map(|r| (full_path.to_owned(), r.target))
    })
}

// A literal route and a parameter route side by side: the literal one
// answers for its own text, the parameter one for any other.
#[test]
fn get_literal_and_parameter() {
    let mut router: Router<&str> = Router::new();
    router.add(Method::Get, "/foo/:id", "F").expect("added");
    router.add(Method::Get, "/foo/bar", "B").expect("added");
    assert_eq!(Some((String::from("/foo/bar"), "B")), target_of(&router, Method::Get, "/foo/bar"));
    assert_eq!(Some((String::from("/foo/:id"), "F")), target_of(&router, Method::Get, "/foo/123"));
}

// A parameter in the middle of a route stands for any one segment.
#[test]
fn get_parameter_in_the_middle() {
    let mut router: Router<&str> = Router::new();
    router.add(Method::Get, "/foo/:id/bar", "X").expect("added");
    assert_eq!(
        Some((String::from("/foo/:id/bar"), "X")),
        target_of(&router, Method::Get, "/foo/42/bar")
    );
    assert_eq!(None, target_of(&router, Method::Get, "/foo/42"));
}

// The full path that dispatch hands out reads the parameters off the request.
#[test]
fn parameters_of_the_matched_route() {
    let mut router: Router<&str> = Router::new();
    router.add(Method::Get, "/a/:x/b/:y", "P").expect("added");
    let (full_path, route) = router.dispatch(&Method::Get, "/a/1/b/2").expect("found");
    assert_eq!(Some("P"), route.as_ref().map(|r| r.target));
    assert_eq!("/a/:x/b/:y", full_path);
    let mut pairs = parse(full_path, "/a/1/b/2");
    assert_eq!(Some((":x", "1")), pairs.next());
    assert_eq!(Some((":y", "2")), pairs.next());
    assert_eq!(None, pairs.next());
}

// A route of five like segments is found at its fifth node.
#[test]
fn get_long_route() {
    let mut router: Router<&str> = Router::new();
    router.add(Method::Get, "/q/q/q/q/q", "L").expect("added");
    assert_eq!(
        Some((String::from("/q/q/q/q/q"), "L")),
        target_of(&router, Method::Get, "/q/q/q/q/q")
    );
    assert_eq!(None, target_of(&router, Method::Get, "/q/q/q/q"));
}

#[test]
fn it_works() {
    assert_eq!(2 + 2, 4);
}
