//! The mathematical model of a set of named routes: a sequence of
//! name-and-path pairs in the order in which they were added, and the
//! functions by which the contracts of this crate speak of it.

use vstd::prelude::*;
use crate::path::{is_rooted, join, same_path};

verus! {

/// A route as the contracts see it: the characters of its name and of its
/// path.
pub struct RouteView {
    pub name: Seq<char>,
    pub path: Seq<char>,
}

/// A registry as the contracts see it: its routes, oldest first, and the
/// separator it puts between a name prefix and a name.
pub struct RouterView {
    pub routes: Seq<RouteView>,
    pub separator: Seq<char>,
}

/// The place of the first route that `wanted` accepts, if there is one.
pub open spec fn first_index(routes: Seq<RouteView>, wanted: spec_fn(RouteView) -> bool) -> Option<
    int,
>
    decreases routes.len(),
{
    if routes.len() == 0 {
        None
    } else {
        match first_index(routes.drop_last(), wanted) {
            Some(i) => Some(i),
            None => if wanted(routes.last()) {
                Some(routes.len() - 1)
            } else {
                None
            },
        }
    }
}

/// The test "is called `name`".
pub open spec fn named(name: Seq<char>) -> spec_fn(RouteView) -> bool {
    |route: RouteView| route.name == name
}

/// The test "leads to the same path as `path`".
pub open spec fn leads_to(path: Seq<char>) -> spec_fn(RouteView) -> bool {
    |route: RouteView| same_path(route.path, path)
}

/// The test "has a name that `existing` already holds".
pub open spec fn taken_in(existing: Seq<RouteView>) -> spec_fn(RouteView) -> bool {
    |route: RouteView| has_name(existing, route.name)
}

/// The path of the first route called `name`.
pub open spec fn lookup(routes: Seq<RouteView>, name: Seq<char>) -> Option<Seq<char>> {
    match first_index(routes, named(name)) {
        Some(i) => Some(routes[i].path),
        None => None,
    }
}

/// Whether some route is called `name`.
pub open spec fn has_name(routes: Seq<RouteView>, name: Seq<char>) -> bool {
    first_index(routes, named(name)) is Some
}

/// The name of the first route that leads to the same path as `path`.
pub open spec fn name_of(routes: Seq<RouteView>, path: Seq<char>) -> Option<Seq<char>> {
    match first_index(routes, leads_to(path)) {
        Some(i) => Some(routes[i].name),
        None => None,
    }
}

/// The first name among `incoming`, in its order, that `existing` already
/// holds.
pub open spec fn first_collision(existing: Seq<RouteView>, incoming: Seq<RouteView>) -> Option<
    Seq<char>,
> {
    match first_index(incoming, taken_in(existing)) {
        Some(i) => Some(incoming[i].name),
        None => None,
    }
}

/// No two routes share a name.
pub open spec fn distinct_names(routes: Seq<RouteView>) -> bool {
    forall|i: int, j: int|
        0 <= i < j < routes.len() ==> (#[trigger] routes[i]).name != (#[trigger] routes[j]).name
}

/// What holds of the routes of every registry and table: names are not
/// empty, no name occurs twice, and every path is rooted.
pub open spec fn well_formed(routes: Seq<RouteView>) -> bool {
    &&& distinct_names(routes)
    &&& forall|i: int|
        0 <= i < routes.len() ==> (#[trigger] routes[i]).name.len() > 0 && is_rooted(
            routes[i].path,
        )
}

/// The routes as a map from name to path.
pub open spec fn table(routes: Seq<RouteView>) -> Map<Seq<char>, Seq<char>> {
    Map::new(
        |name: Seq<char>| has_name(routes, name),
        |name: Seq<char>| lookup(routes, name).unwrap(),
    )
}

/// A route as it stands after nesting: its name behind `name_prefix` and
/// `separator`, its path re-based under `path_prefix`.
pub open spec fn nested_route(
    route: RouteView,
    name_prefix: Seq<char>,
    separator: Seq<char>,
    path_prefix: Seq<char>,
) -> RouteView {
    RouteView {
        name: name_prefix + separator + route.name,
        path: join(path_prefix, route.path),
    }
}

/// All of `routes` as they stand after nesting, in the same order.
pub open spec fn nested(
    routes: Seq<RouteView>,
    name_prefix: Seq<char>,
    separator: Seq<char>,
    path_prefix: Seq<char>,
) -> Seq<RouteView> {
    Seq::new(
        routes.len(),
        |i: int| nested_route(routes[i], name_prefix, separator, path_prefix),
    )
}

/// What registering `name` for `path` makes of `routes`: the routes with
/// the new one at the end, or the name itself where it is already taken.
pub open spec fn registered(routes: Seq<RouteView>, name: Seq<char>, path: Seq<char>) -> Result<
    Seq<RouteView>,
    Seq<char>,
> {
    if has_name(routes, name) {
        Err(name)
    } else {
        Ok(routes.push(RouteView { name, path }))
    }
}

/// What registering `calls` one after the other makes of `routes`: the
/// outcome of the last call, or the name at which the first call failed.
pub open spec fn registered_all(routes: Seq<RouteView>, calls: Seq<RouteView>) -> Result<
    Seq<RouteView>,
    Seq<char>,
>
    decreases calls.len(),
{
    if calls.len() == 0 {
        Ok(routes)
    } else {
        match registered_all(routes, calls.drop_last()) {
            Ok(so_far) => registered(so_far, calls.last().name, calls.last().path),
            Err(name) => Err(name),
        }
    }
}

/// What merging `incoming` makes of `routes`: all of both, or the first
/// name of `incoming` that `routes` already holds.
pub open spec fn merged(routes: Seq<RouteView>, incoming: Seq<RouteView>) -> Result<
    Seq<RouteView>,
    Seq<char>,
> {
    match first_collision(routes, incoming) {
        Some(name) => Err(name),
        None => Ok(routes + incoming),
    }
}

/// `first_index` finds a route that `wanted` accepts and none before it, or
/// there is none to find.
pub proof fn lemma_first_index(routes: Seq<RouteView>, wanted: spec_fn(RouteView) -> bool)
    ensures
        match first_index(routes, wanted) {
            Some(i) => 0 <= i < routes.len() && wanted(routes[i]) && forall|j: int|
                0 <= j < i ==> !wanted(#[trigger] routes[j]),
            None => forall|j: int| 0 <= j < routes.len() ==> !wanted(#[trigger] routes[j]),
        },
    decreases routes.len(),
{
    if routes.len() > 0 {
        lemma_first_index(routes.drop_last(), wanted);
        assert(forall|j: int|
            0 <= j < routes.len() - 1 ==> routes.drop_last()[j] == #[trigger] routes[j]);
    }
}

/// A route that `wanted` accepts, with none before it, is the one that
/// `first_index` finds.
pub proof fn lemma_first_index_at(
    routes: Seq<RouteView>,
    wanted: spec_fn(RouteView) -> bool,
    i: int,
)
    requires
        0 <= i < routes.len(),
        wanted(routes[i]),
        forall|j: int| 0 <= j < i ==> !wanted(#[trigger] routes[j]),
    ensures
        first_index(routes, wanted) == Some(i),
{
    lemma_first_index(routes, wanted);
}

/// Where `wanted` accepts no route, `first_index` finds none.
pub proof fn lemma_first_index_none(routes: Seq<RouteView>, wanted: spec_fn(RouteView) -> bool)
    requires
        forall|j: int| 0 <= j < routes.len() ==> !wanted(#[trigger] routes[j]),
    ensures
        first_index(routes, wanted) is None,
{
    lemma_first_index(routes, wanted);
}

/// A name is held exactly when some route carries it.
pub proof fn lemma_has_name(routes: Seq<RouteView>, name: Seq<char>)
    ensures
        has_name(routes, name) <==> exists|i: int|
            0 <= i < routes.len() && (#[trigger] routes[i]).name == name,
{
    lemma_first_index(routes, named(name));
    if has_name(routes, name) {
        let i = first_index(routes, named(name)).unwrap();
        assert(routes[i].name == name);
    }
}

/// A name is held by two lists laid end to end exactly when one of them
/// holds it.
pub proof fn lemma_has_name_concat(first: Seq<RouteView>, second: Seq<RouteView>, name: Seq<char>)
    ensures
        has_name(first + second, name) <==> has_name(first, name) || has_name(second, name),
{
    let both = first + second;
    lemma_has_name(both, name);
    lemma_has_name(first, name);
    lemma_has_name(second, name);
    if has_name(first, name) {
        let i = choose|i: int| 0 <= i < first.len() && (#[trigger] first[i]).name == name;
        assert(both[i].name == name);
    }
    if has_name(second, name) {
        let i = choose|i: int| 0 <= i < second.len() && (#[trigger] second[i]).name == name;
        assert(both[first.len() + i].name == name);
    }
    if has_name(both, name) {
        let i = choose|i: int| 0 <= i < both.len() && (#[trigger] both[i]).name == name;
        if i < first.len() {
            assert(first[i].name == name);
        } else {
            assert(second[i - first.len()].name == name);
        }
    }
}

/// Text put behind one and the same prefix stays as different as it was.
pub proof fn lemma_prefix_keeps_apart(prefix: Seq<char>, a: Seq<char>, b: Seq<char>)
    requires
        prefix + a == prefix + b,
    ensures
        a == b,
{
    assert((prefix + a).skip(prefix.len() as int) =~= a);
    assert((prefix + b).skip(prefix.len() as int) =~= b);
}

/// Nesting keeps routes well formed: the new names are as distinct as the
/// old ones, none is empty, and every re-based path is rooted.
pub proof fn lemma_nested_well_formed(
    routes: Seq<RouteView>,
    name_prefix: Seq<char>,
    separator: Seq<char>,
    path_prefix: Seq<char>,
)
    requires
        well_formed(routes),
        is_rooted(path_prefix),
    ensures
        well_formed(nested(routes, name_prefix, separator, path_prefix)),
{
    let after = nested(routes, name_prefix, separator, path_prefix);
    assert forall|i: int, j: int| 0 <= i < j < after.len() implies (#[trigger] after[i]).name != (
    #[trigger] after[j]).name by {
        if after[i].name == after[j].name {
            lemma_prefix_keeps_apart(name_prefix + separator, routes[i].name, routes[j].name);
        }
    }
    assert forall|i: int| 0 <= i < after.len() implies (#[trigger] after[i]).name.len() > 0
        && is_rooted(after[i].path) by {
        assert(routes[i].name.len() > 0);
        crate::path::lemma_join_appends_segments(path_prefix, routes[i].path);
    }
}

/// Among distinct names, the route called `name` is the one that `lookup`
/// reads.
pub proof fn lemma_lookup_at(routes: Seq<RouteView>, i: int)
    requires
        distinct_names(routes),
        0 <= i < routes.len(),
    ensures
        lookup(routes, routes[i].name) == Some(routes[i].path),
        first_index(routes, named(routes[i].name)) == Some(i),
{
    lemma_first_index(routes, named(routes[i].name));
}

} // verus!
