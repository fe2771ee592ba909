//! The routes of a registry or table: names and their paths, kept in the
//! order in which they were added, no name twice.

use vstd::prelude::*;
use crate::error::RouteError;
use crate::model::{
    first_index, has_name, leads_to, lemma_first_index_at, lemma_first_index_none, lemma_has_name,
    lemma_has_name_concat, lemma_nested_well_formed, lookup, merged, name_of, named, nested,
    registered, taken_in, well_formed, RouteView,
};
use crate::path::{is_rooted, rooted, segments, segments_of, texts, RoutePath};

verus! {

/// A name and the path it stands for.
#[derive(Debug)]
pub struct Route {
    name: String,
    path: RoutePath,
}

impl View for Route {
    type V = RouteView;

    closed spec fn view(&self) -> RouteView {
        RouteView { name: self.name@, path: self.path@ }
    }
}

impl Route {
    /// The name of the route.
    pub fn name(&self) -> (name: &str)
        ensures
            name@ == self@.name,
    {
        self.name.as_str()
    }

    /// The path of the route.
    pub fn path(&self) -> (path: &RoutePath)
        ensures
            path@ == self@.path,
    {
        &self.path
    }
}

impl Clone for Route {
    fn clone(&self) -> (r: Self)
        ensures
            r@ == self@,
    {
        Route { name: self.name.clone(), path: self.path.clone() }
    }
}

/// Names and their paths, oldest first.
#[derive(Debug)]
pub struct RouteMap {
    routes: Vec<Route>,
}

impl View for RouteMap {
    type V = Seq<RouteView>;

    closed spec fn view(&self) -> Seq<RouteView> {
        self.routes@.map_values(|route: Route| route@)
    }
}

impl RouteMap {
    /// Names are not empty, no name occurs twice, every path is rooted.
    #[verifier::type_invariant]
    pub open spec fn sound(&self) -> bool {
        well_formed(self@)
    }

    /// A map without routes.
    pub fn new() -> (r: RouteMap)
        ensures
            r@ == Seq::<RouteView>::empty(),
    {
        let r = RouteMap { routes: Vec::new() };
        assert(r@ =~= Seq::<RouteView>::empty());
        r
    }

    /// The number of routes.
    pub fn len(&self) -> (n: usize)
        ensures
            n == self@.len(),
    {
        self.routes.len()
    }

    /// The route at place `i`, counted from the oldest.
    pub fn nth(&self, i: usize) -> (r: Option<&Route>)
        ensures
            match r {
                Some(route) => i < self@.len() && route@ == self@[i as int],
                None => i >= self@.len(),
            },
    {
        if i < self.routes.len() {
            Some(&self.routes[i])
        } else {
            None
        }
    }

    /// The place of the route called `name`.
    fn position(&self, name: &str) -> (r: Option<usize>)
        ensures
            match r {
                Some(i) => i < self@.len() && first_index(self@, named(name@)) == Some(i as int),
                None => first_index(self@, named(name@)) is None,
            },
    {
        let wanted = String::from_str(name);
        let mut i: usize = 0;
        while i < self.routes.len()
            invariant
                i <= self.routes.len(),
                wanted@ == name@,
                forall|j: int| 0 <= j < i ==> !named(name@)(#[trigger] self@[j]),
            decreases self.routes.len() - i,
        {
            if self.routes[i].name == wanted {
                proof {
                    lemma_first_index_at(self@, named(name@), i as int);
                }
                return Some(i);
            }
            i += 1;
        }
        proof {
            lemma_first_index_none(self@, named(name@));
        }
        None
    }

    /// Tells whether a route is called `name`.
    pub fn contains(&self, name: &str) -> (r: bool)
        ensures
            r == has_name(self@, name@),
    {
        self.position(name).is_some()
    }

    /// The path of the route called `name`.
    pub fn get(&self, name: &str) -> (r: Option<&RoutePath>)
        ensures
            match r {
                Some(path) => lookup(self@, name@) == Some(path@),
                None => lookup(self@, name@) is None,
            },
    {
        match self.position(name) {
            Some(i) => Some(&self.routes[i].path),
            None => None,
        }
    }

    /// The name of the oldest route that leads to the same path as `path`.
    pub fn find(&self, path: &str) -> (r: Option<&str>)
        ensures
            match r {
                Some(name) => name_of(self@, path@) == Some(name@),
                None => name_of(self@, path@) is None,
            },
    {
        proof {
            use_type_invariant(self);
        }
        if !rooted(path) {
            proof {
                lemma_first_index_none(self@, leads_to(path@));
            }
            return None;
        }
        let wanted = segments_of(path);
        let mut i: usize = 0;
        while i < self.routes.len()
            invariant
                i <= self.routes.len(),
                well_formed(self@),
                is_rooted(path@),
                texts(wanted@) == segments(path@),
                forall|j: int| 0 <= j < i ==> !leads_to(path@)(#[trigger] self@[j]),
            decreases self.routes.len() - i,
        {
            if self.routes[i].path.has_segments(&wanted) {
                proof {
                    lemma_first_index_at(self@, leads_to(path@), i as int);
                }
                return Some(self.routes[i].name.as_str());
            }
            i += 1;
        }
        proof {
            lemma_first_index_none(self@, leads_to(path@));
        }
        None
    }

    /// Adds a route whose name is known to be free.
    fn push_new(&mut self, route: Route)
        requires
            !has_name(old(self)@, route@.name),
            route@.name.len() > 0,
        ensures
            final(self)@ == old(self)@.push(route@),
    {
        proof {
            use_type_invariant(&*self);
            use_type_invariant(&route.path);
            lemma_has_name(self@, route@.name);
        }
        let mut routes: Vec<Route> = Vec::new();
        std::mem::swap(&mut routes, &mut self.routes);
        routes.push(route);
        proof {
            let grown = routes@.map_values(|route: Route| route@);
            assert(grown =~= old(self)@.push(route@));
            assert(well_formed(grown));
        }
        self.routes = routes;
    }

    /// Adds the route `name` for `path`, unless the name is taken.
    pub fn insert(&mut self, name: &str, path: RoutePath) -> (r: Result<(), RouteError>)
        requires
            name@.len() > 0,
        ensures
            match registered(old(self)@, name@, path@) {
                Ok(routes) => r is Ok && final(self)@ == routes,
                Err(taken) => r is Err && r->Err_0.about() == taken && *final(self) == *old(self),
            },
    {
        if self.contains(name) {
            Err(RouteError::DuplicateName(String::from_str(name)))
        } else {
            self.push_new(Route { name: String::from_str(name), path });
            Ok(())
        }
    }

    /// Adds all routes of `other`, in their order, unless one of their names
    /// is taken; then none is added.
    pub fn extend(&mut self, other: &RouteMap) -> (r: Result<(), RouteError>)
        ensures
            match merged(old(self)@, other@) {
                Ok(routes) => r is Ok && final(self)@ == routes,
                Err(taken) => r is Err && r->Err_0.about() == taken && *final(self) == *old(self),
            },
    {
        proof {
            use_type_invariant(other);
        }
        let mut i: usize = 0;
        while i < other.routes.len()
            invariant
                i <= other.routes.len(),
                *self == *old(self),
                forall|j: int| 0 <= j < i ==> !taken_in(self@)(#[trigger] other@[j]),
            decreases other.routes.len() - i,
        {
            if self.contains(other.routes[i].name.as_str()) {
                proof {
                    lemma_first_index_at(other@, taken_in(self@), i as int);
                }
                return Err(RouteError::DuplicateName(other.routes[i].name.clone()));
            }
            i += 1;
        }
        proof {
            lemma_first_index_none(other@, taken_in(self@));
        }
        let mut k: usize = 0;
        assert(self@ =~= old(self)@ + other@.take(0));
        while k < other.routes.len()
            invariant
                k <= other.routes.len(),
                well_formed(other@),
                self@ == old(self)@ + other@.take(k as int),
                forall|j: int|
                    0 <= j < other@.len() ==> !taken_in(old(self)@)(#[trigger] other@[j]),
            decreases other.routes.len() - k,
        {
            let route = other.routes[k].clone();
            proof {
                let earlier = other@.take(k as int);
                lemma_has_name_concat(old(self)@, earlier, route@.name);
                lemma_has_name(earlier, route@.name);
                assert(!taken_in(old(self)@)(other@[k as int]));
                assert(other@.take(k + 1) =~= earlier.push(route@));
            }
            self.push_new(route);
            k += 1;
            assert(self@ =~= old(self)@ + other@.take(k as int));
        }
        assert(other@.take(k as int) =~= other@);
        Ok(())
    }

    /// These routes as they stand after nesting: each name behind
    /// `name_prefix` and `separator`, each path re-based under `path_prefix`.
    pub fn prefixed(&self, name_prefix: &str, separator: &str, path_prefix: &RoutePath) -> (r:
        RouteMap)
        ensures
            r@ == nested(self@, name_prefix@, separator@, path_prefix@),
    {
        proof {
            use_type_invariant(self);
            use_type_invariant(path_prefix);
            lemma_nested_well_formed(self@, name_prefix@, separator@, path_prefix@);
        }
        let ghost after = nested(self@, name_prefix@, separator@, path_prefix@);
        let mut front = String::from_str(name_prefix);
        front.append(separator);
        let mut out = RouteMap::new();
        let mut i: usize = 0;
        assert(out@ =~= after.take(0));
        while i < self.routes.len()
            invariant
                i <= self.routes.len(),
                front@ == name_prefix@ + separator@,
                after == nested(self@, name_prefix@, separator@, path_prefix@),
                well_formed(after),
                out@ == after.take(i as int),
            decreases self.routes.len() - i,
        {
            let mut name = front.clone();
            name.append(self.routes[i].name.as_str());
            let path = path_prefix.join(&self.routes[i].path);
            let route = Route { name, path };
            proof {
                assert(route@ == after[i as int]);
                lemma_has_name(after.take(i as int), route@.name);
                assert(after.take(i + 1) =~= after.take(i as int).push(route@));
            }
            out.push_new(route);
            i += 1;
        }
        assert(after.take(i as int) =~= after);
        out
    }
}

impl Clone for RouteMap {
    fn clone(&self) -> (r: Self)
        ensures
            r@ == self@,
    {
        proof {
            use_type_invariant(self);
        }
        let mut out = RouteMap::new();
        let mut i: usize = 0;
        assert(out@ =~= self@.take(0));
        while i < self.routes.len()
            invariant
                i <= self.routes.len(),
                well_formed(self@),
                out@ == self@.take(i as int),
            decreases self.routes.len() - i,
        {
            let route = self.routes[i].clone();
            proof {
                assert(route@ == self@[i as int]);
                lemma_has_name(self@.take(i as int), route@.name);
                assert(self@.take(i + 1) =~= self@.take(i as int).push(route@));
            }
            out.push_new(route);
            i += 1;
        }
        assert(self@.take(i as int) =~= self@);
        out
    }
}

} // verus!
