use luminal_router::from;
use luminal_router::parse;
use luminal_router::Parse;
use std::collections::HashMap;

fn collect<'a>(mut parse: Parse<'a>) -> HashMap<&'a str, &'a str> {
    let mut params = HashMap::new();
    while let Some((key, value)) = parse.next() {
        params.insert(key, value);
    }
    params
}

fn pairs<'a>(mut parse: Parse<'a>) -> Vec<(&'a str, &'a str)> {
    let mut out = Vec::new();
    while let Some(pair) = parse.next() {
        out.push(pair);
    }
    assert_eq!(None, parse.next());
    out
}

#[test]
fn test_one() {
    let params = collect(parse("/user/:user_id", "/user/123"));
    assert_eq!(Some(&"123"), params.get(":user_id"), "{:?}", params);
}

#[test]
fn test_many() {
    let params = collect(parse("/company/:comp_id/user/:user_id", "/company/123/user/456"));
    assert_eq!(Some(&"123"), params.get(":comp_id"), "{:?}", params);
    assert_eq!(Some(&"456"), params.get(":user_id"), "{:?}", params);
}

struct TestStruct<'a> {
    company: &'a str,
    dept: &'a str,
    user: &'a str,
}

impl<'a> From<Parse<'a>> for TestStruct<'a> {
    fn from(mut parse: Parse<'a>) -> Self {
        let mut company = "";
        let mut dept = "";
        let mut user = "";
        while let Some((key, value)) = parse.next() {
            println!("{}:{}", key, value);
            if key == ":company" {
                company = value;
            }
            if key == ":dept" {
                dept = value;
            }
            if key == ":user" {
                user = value;
            }
        }

        Self {
            company,
            dept,
            user,
        }
    }
}

#[test]
fn test_into() {
    let test: TestStruct = from(
        "/company/:company/dept/:dept/user/:user",
        "/company/123/dept/456/user/789",
    );
    assert_eq!("123", test.company);
    assert_eq!("456", test.dept);
    assert_eq!("789", test.user);
}

// The pairs come in the order of the parameters, each with the path segment
// of its own place; the name keeps its colon.
#[test]
fn pairs_come_in_order_of_position() {
    assert_eq!(
        vec![(":x", "1"), (":y", "2")],
        pairs(parse("/a/:x/b/:y", "/a/1/b/2"))
    );
    assert_eq!(
        vec![(":a", "p"), (":b", "q"), (":c", "r")],
        pairs(parse(":a/:b/x/:c", "p/q/ignored/r/more"))
    );
}

// Nothing is checked: the walk ends with the shorter of the two, literal
// segments may differ, and values are handed out as they are.
#[test]
fn nothing_is_validated() {
    assert_eq!(vec![(":x", "1")], pairs(parse("/a/:x/b/:y", "/a/1")));
    assert_eq!(vec![(":x", "1")], pairs(parse("/a/:x", "/zzz/1/2/3")));
    assert_eq!(vec![(":x", "a%20b")], pairs(parse("/:x", "/a%20b")));
    assert_eq!(vec![(":x", "")], pairs(parse("/:x", "/")));
    assert_eq!(vec![(":", "v")], pairs(parse("/:", "/v")));
    assert_eq!(Vec::<(&str, &str)>::new(), pairs(parse("/a/b", "/a/b")));
    assert_eq!(Vec::<(&str, &str)>::new(), pairs(parse("", "")));
    assert_eq!(vec![(":x", "\u{e9}t\u{e9}")], pairs(parse("/\u{4e2d}/:x", "/q/\u{e9}t\u{e9}")));
}
