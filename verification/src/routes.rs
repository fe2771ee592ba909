//! The table: the routes of a frozen registry, shared between its readers.

use std::sync::Arc;
use vstd::prelude::*;
use crate::model::{has_name, lookup, name_of, well_formed, RouteView};
use crate::path::RoutePath;
use crate::route_map::RouteMap;

verus! {

/// Calls `Arc::clone`, which hands out another pointer to the same
/// allocation: the value behind the new pointer is the one behind `map`.
#[verifier::external_body]
fn share(map: &Arc<RouteMap>) -> (r: Arc<RouteMap>)
    ensures
        r == *map,
{
    Arc::clone(map)
}

/// A table of named routes. It cannot be changed, and its clones read the
/// same routes without copying them.
#[derive(Debug)]
pub struct Routes(Arc<RouteMap>);

impl View for Routes {
    type V = Seq<RouteView>;

    closed spec fn view(&self) -> Seq<RouteView> {
        self.0@
    }
}

impl Routes {
    /// The table of the routes in `map`.
    pub fn new(map: RouteMap) -> (r: Self)
        ensures
            r@ == map@,
    {
        Routes(Arc::new(map))
    }

    /// The path of the route called `name`, which must be in the table.
    pub fn has(&self, name: &str) -> (path: &RoutePath)
        requires
            has_name(self@, name@),
        ensures
            lookup(self@, name@) == Some(path@),
    {
        match self.0.get(name) {
            Some(path) => path,
            None => vstd::pervasive::unreached(),
        }
    }

    /// The path of the route called `name`, if the table has one.
    pub fn get(&self, name: &str) -> (r: Option<&RoutePath>)
        ensures
            match r {
                Some(path) => lookup(self@, name@) == Some(path@),
                None => lookup(self@, name@) is None,
            },
    {
        self.0.get(name)
    }

    /// The path of the route called `name`, or `err` if the table has none.
    pub fn get_or<E>(&self, name: &str, err: E) -> (r: Result<&RoutePath, E>)
        ensures
            match r {
                Ok(path) => lookup(self@, name@) == Some(path@),
                Err(e) => lookup(self@, name@) is None && e == err,
            },
    {
        match self.0.get(name) {
            Some(path) => Ok(path),
            None => Err(err),
        }
    }

    /// The path of the route called `name`, or what `f` makes if the table
    /// has none. `f` is called only then.
    pub fn get_or_else<F, E>(&self, name: &str, f: F) -> (r: Result<&RoutePath, E>) where
        F: FnOnce() -> E,

        requires
            lookup(self@, name@) is None ==> f.requires(()),
        ensures
            match r {
                Ok(path) => lookup(self@, name@) == Some(path@),
                Err(e) => lookup(self@, name@) is None && f.ensures((), e),
            },
    {
        match self.0.get(name) {
            Some(path) => Ok(path),
            None => Err(f()),
        }
    }

    /// The name of the oldest route that leads to the same path as `path`.
    /// Different names may lead to one path; the oldest is then the answer.
    pub fn find(&self, path: &str) -> (r: Option<&str>)
        ensures
            match r {
                Some(name) => name_of(self@, path@) == Some(name@),
                None => name_of(self@, path@) is None,
            },
    {
        self.0.find(path)
    }

    /// The routes of the table, oldest first.
    pub fn routes(&self) -> (r: &RouteMap)
        ensures
            r@ == self@,
            well_formed(r@),
    {
        proof {
            use_type_invariant(&*self.0);
        }
        &self.0
    }
}

impl Clone for Routes {
    fn clone(&self) -> (r: Self)
        ensures
            r@ == self@,
    {
        Routes(share(&self.0))
    }
}

} // verus!
