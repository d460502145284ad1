//! Builders that own a router while routes are added to it, with a method
//! of their own for each request method.

use vstd::prelude::*;
use vstd::string::StringSliceAdditionalSpecFns;
use crate::error::RouteError;
use crate::model::Table;
use crate::route::Route;
use crate::router::{added, Method, MethodKey, Router};
use crate::text::starts_with_slash;

verus! {

/// Fluent builder, takes ownership of a `Router` while adding routes whose
/// targets are given as they are kept.
///
/// Call `build` to move ownership of the router back out.
pub struct ServiceRouteBuilder<T> {
    pub router: Router<T>,
}

/// The same builder under the name it has where the targets are handlers.
pub type HandlerRouteBuilder<T> = ServiceRouteBuilder<T>;

impl<T> ServiceRouteBuilder<T> {
    /// Create a new instance with a `Router` with empty routes.
    pub fn new() -> (builder: Self)
        ensures
            builder.router.wf(),
            builder.router@ == Map::<MethodKey, Table<Route<T>>>::empty(),
    {
        ServiceRouteBuilder { router: Router::new() }
    }

    /// Add a target for `Method::Get` at the specified route.
    pub fn get(self, route: &str, service: T) -> (r: Result<Self, RouteError>)
        requires
            self.router.wf(),
        ensures
            match r {
                Ok(builder) => {
                    &&& starts_with_slash(route.spec_bytes())
                    &&& builder.router.wf()
                    &&& added(self.router@, builder.router@, MethodKey::Get, route, service)
                },
                Err(e) => !starts_with_slash(route.spec_bytes()) && e == RouteError::MalformedPattern,
            },
    {
        let mut builder = self;
        match builder.router.add(Method::Get, route, service) {
            Ok(_) => Ok(builder),
            Err(e) => Err(e),
        }
    }

    /// Add a target for `Method::Post` at the specified route.
    pub fn post(self, route: &str, service: T) -> (r: Result<Self, RouteError>)
        requires
            self.router.wf(),
        ensures
            match r {
                Ok(builder) => {
                    &&& starts_with_slash(route.spec_bytes())
                    &&& builder.router.wf()
                    &&& added(self.router@, builder.router@, MethodKey::Post, route, service)
                },
                Err(e) => !starts_with_slash(route.spec_bytes()) && e == RouteError::MalformedPattern,
            },
    {
        let mut builder = self;
        match builder.router.add(Method::Post, route, service) {
            Ok(_) => Ok(builder),
            Err(e) => Err(e),
        }
    }

    /// Return a new `FnRouteBuilder` that now owns the router being
    /// constructed.
    pub fn fn_builder(self) -> (builder: FnRouteBuilder<T>)
        ensures
            builder.router == self.router,
    {
        FnRouteBuilder { router: self.router }
    }

    /// Call to gain or regain ownership of the `Router`.
    pub fn build(self) -> (router: Router<T>)
        ensures
            router == self.router,
    {
        self.router
    }
}

/// Fluent builder for routes whose targets are made from functions: what
/// is handed in is turned into a target by the target type's `From`.
pub struct FnRouteBuilder<T> {
    pub router: Router<T>,
}

impl<T> FnRouteBuilder<T> {
    /// Create a new instance with a `Router` with empty routes.
    pub fn new() -> (builder: Self)
        ensures
            builder.router.wf(),
            builder.router@ == Map::<MethodKey, Table<Route<T>>>::empty(),
    {
        FnRouteBuilder { router: Router::new() }
    }

    /// Add a function for `Method::Get` at the specified route.
    pub fn get<F>(self, route: &str, function: F) -> (r: Result<Self, RouteError>) where T: From<F>
        requires
            self.router.wf(),
        ensures
            match r {
                Ok(builder) => {
                    &&& starts_with_slash(route.spec_bytes())
                    &&& builder.router.wf()
                    &&& exists|target: T|
                        #![trigger call_ensures(T::from, (function,), target)]
                        call_ensures(T::from, (function,), target) && added(
                            self.router@,
                            builder.router@,
                            MethodKey::Get,
                            route,
                            target,
                        )
                },
                Err(e) => !starts_with_slash(route.spec_bytes()) && e == RouteError::MalformedPattern,
            },
    {
        let mut builder = self;
        let target = T::from(function);
        match builder.router.add(Method::Get, route, target) {
            Ok(_) => Ok(builder),
            Err(e) => Err(e),
        }
    }

    /// Add a function for `Method::Post` at the specified route.
    pub fn post<F>(self, route: &str, function: F) -> (r: Result<Self, RouteError>) where T: From<F>
        requires
            self.router.wf(),
        ensures
            match r {
                Ok(builder) => {
                    &&& starts_with_slash(route.spec_bytes())
                    &&& builder.router.wf()
                    &&& exists|target: T|
                        #![trigger call_ensures(T::from, (function,), target)]
                        call_ensures(T::from, (function,), target) && added(
                            self.router@,
                            builder.router@,
                            MethodKey::Post,
                            route,
                            target,
                        )
                },
                Err(e) => !starts_with_slash(route.spec_bytes()) && e == RouteError::MalformedPattern,
            },
    {
        let mut builder = self;
        let target = T::from(function);
        match builder.router.add(Method::Post, route, target) {
            Ok(_) => Ok(builder),
            Err(e) => Err(e),
        }
    }

    /// Return a new `ServiceRouteBuilder` that now owns the router being
    /// constructed.
    pub fn service_builder(self) -> (builder: ServiceRouteBuilder<T>)
        ensures
            builder.router == self.router,
    {
        ServiceRouteBuilder { router: self.router }
    }

    /// Return a new `HandlerRouteBuilder` that now owns the router being
    /// constructed.
    pub fn handler_builder(self) -> (builder: HandlerRouteBuilder<T>)
        ensures
            builder.router == self.router,
    {
        ServiceRouteBuilder { router: self.router }
    }

    /// Call to gain or regain ownership of the `Router`.
    pub fn build(self) -> (router: Router<T>)
        ensures
            router == self.router,
    {
        self.router
    }
}

} // verus!
