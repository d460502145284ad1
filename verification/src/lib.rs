//! A minimal router: a tree of path segments for each request method, with
//! literal segments and single-segment parameters, and a reader of
//! parameter values.

pub mod builder;
pub mod error;
pub mod model;
pub mod node;
pub mod pathparam;
pub mod route;
pub mod router;
pub mod segments;
pub mod text;
pub mod tree;

pub use builder::{FnRouteBuilder, HandlerRouteBuilder, ServiceRouteBuilder};
pub use error::RouteError;
pub use node::PathNode;
pub use pathparam::{from, parse, Parse};
pub use route::Route;
pub use router::{Method, Router};
pub use segments::Segments;
pub use tree::{Iter, RouteTree};
