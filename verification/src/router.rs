//! The registry: routes are added to it one by one, or by merging and
//! nesting other registries, until it is frozen into a table.

use vstd::prelude::*;
use crate::error::RouteError;
use crate::model::{merged, nested, registered, well_formed, RouteView, RouterView};
use crate::path::{is_rooted, RoutePath};
use crate::route_map::RouteMap;
use crate::routes::Routes;

verus! {

/// The separator of a registry that was given none: a single dot.
pub open spec fn default_separator() -> Seq<char> {
    seq!['.']
}

/// A registry of named routes under construction.
///
/// A step that fails leaves the registry as it was. Freezing it consumes
/// it, so that nothing can be added afterwards.
#[derive(Debug)]
pub struct NamedRouter {
    routes: RouteMap,
    nest_sep: String,
}

impl View for NamedRouter {
    type V = RouterView;

    closed spec fn view(&self) -> RouterView {
        RouterView { routes: self.routes@, separator: self.nest_sep@ }
    }
}

impl NamedRouter {
    /// An empty registry that separates names by a dot.
    pub fn new() -> (r: Self)
        ensures
            r@.routes == Seq::<RouteView>::empty(),
            r@.separator == default_separator(),
    {
        proof {
            reveal_strlit(".");
        }
        let r = NamedRouter { routes: RouteMap::new(), nest_sep: String::from_str(".") };
        assert(r@.separator =~= default_separator());
        r
    }

    /// An empty registry that separates names by `sep`.
    pub fn with_separator(sep: &str) -> (r: Self)
        ensures
            r@.routes == Seq::<RouteView>::empty(),
            r@.separator == sep@,
    {
        NamedRouter { routes: RouteMap::new(), nest_sep: String::from_str(sep) }
    }

    /// The same registry, separating names by `sep` from now on. Names
    /// that were composed before stay as they are.
    pub fn set_separator(self, sep: &str) -> (r: Self)
        ensures
            r@.routes == self@.routes,
            r@.separator == sep@,
    {
        NamedRouter { routes: self.routes, nest_sep: String::from_str(sep) }
    }

    /// Registers `name` for `path`. Fails, and changes nothing, where the
    /// name is taken.
    pub fn route(&mut self, name: &str, path: &str) -> (r: Result<(), RouteError>)
        requires
            name@.len() > 0,
            is_rooted(path@),
        ensures
            final(self)@.separator == old(self)@.separator,
            match registered(old(self)@.routes, name@, path@) {
                Ok(routes) => r is Ok && final(self)@.routes == routes,
                Err(taken) => r is Err && r->Err_0.about() == taken && *final(self) == *old(self),
            },
    {
        match RoutePath::new(path) {
            Some(path) => self.routes.insert(name, path),
            None => vstd::pervasive::unreached(),
        }
    }

    /// Adds the routes of `other` under their own names. Fails, and changes
    /// nothing, where one of the names is taken; the failure names the
    /// first such route of `other`.
    pub fn merge(&mut self, other: &NamedRouter) -> (r: Result<(), RouteError>)
        ensures
            final(self)@.separator == old(self)@.separator,
            match merged(old(self)@.routes, other@.routes) {
                Ok(routes) => r is Ok && final(self)@.routes == routes,
                Err(taken) => r is Err && r->Err_0.about() == taken && *final(self) == *old(self),
            },
    {
        self.routes.extend(&other.routes)
    }

    /// Adds the routes of `router`, each name behind `name` and this
    /// registry's separator, each path re-based under `path`. Fails, and
    /// changes nothing, where one of the composed names is taken; the
    /// failure names the first such route of `router`.
    pub fn nest(&mut self, name: &str, path: &str, router: &NamedRouter) -> (r: Result<
        (),
        RouteError,
    >)
        requires
            is_rooted(path@),
        ensures
            final(self)@.separator == old(self)@.separator,
            match merged(
                old(self)@.routes,
                nested(router@.routes, name@, old(self)@.separator, path@),
            ) {
                Ok(routes) => r is Ok && final(self)@.routes == routes,
                Err(taken) => r is Err && r->Err_0.about() == taken && *final(self) == *old(self),
            },
    {
        match RoutePath::new(path) {
            Some(path) => {
                let incoming = router.routes.prefixed(name, self.nest_sep.as_str(), &path);
                self.routes.extend(&incoming)
            },
            None => vstd::pervasive::unreached(),
        }
    }

    /// The routes registered so far.
    pub fn routes(&self) -> (r: &RouteMap)
        ensures
            r@ == self@.routes,
            well_formed(r@),
    {
        proof {
            use_type_invariant(&self.routes);
        }
        &self.routes
    }

    /// Freezes the registry into a table of the same routes.
    pub fn finalize(self) -> (r: Routes)
        ensures
            r@ == self@.routes,
    {
        Routes::new(self.routes)
    }
}

impl Default for NamedRouter {
    fn default() -> (r: Self)
        ensures
            r@.routes == Seq::<RouteView>::empty(),
            r@.separator == default_separator(),
    {
        NamedRouter::new()
    }
}

impl Clone for NamedRouter {
    fn clone(&self) -> (r: Self)
        ensures
            r@ == self@,
    {
        NamedRouter { routes: self.routes.clone(), nest_sep: self.nest_sep.clone() }
    }
}

} // verus!
