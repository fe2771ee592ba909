//! What holds of registries and tables whatever is put into them, stated
//! over the model of their routes.

use vstd::prelude::*;
use crate::model::{
    distinct_names, first_index, has_name, leads_to, lemma_first_index, lemma_first_index_at,
    lemma_first_index_none, lemma_has_name, lemma_has_name_concat, lemma_lookup_at,
    lemma_nested_well_formed, lemma_prefix_keeps_apart, lookup, merged, name_of, named, nested,
    nested_route, registered, registered_all, table, taken_in, well_formed, RouteView,
};
use crate::path::{is_rooted, join, same_path, RoutePath};
use crate::router::NamedRouter;
use crate::routes::Routes;

verus! {

/// A name is in the routes exactly when `lookup` finds a path for it; a
/// name that is not there has no path.
pub proof fn lemma_lookup_total(routes: Seq<RouteView>, name: Seq<char>)
    ensures
        has_name(routes, name) <==> lookup(routes, name) is Some,
        !has_name(routes, name) <==> lookup(routes, name) is None,
        has_name(routes, name) <==> table(routes).dom().contains(name),
        has_name(routes, name) ==> table(routes)[name] == lookup(routes, name).unwrap(),
{
}

/// The path that `lookup` finds for a name is the path of a route of that
/// name.
pub proof fn lemma_lookup_is_registered(routes: Seq<RouteView>, name: Seq<char>)
    requires
        has_name(routes, name),
    ensures
        exists|i: int|
            0 <= i < routes.len() && (#[trigger] routes[i]) == (RouteView {
                name,
                path: lookup(routes, name).unwrap(),
            }),
{
    lemma_first_index(routes, named(name));
    let i = first_index(routes, named(name)).unwrap();
    assert(routes[i] == RouteView { name, path: lookup(routes, name).unwrap() });
}

/// Registering a free name adds exactly that route: the new name leads to
/// the new path, every other name leads where it led before, and the routes
/// stay well formed.
pub proof fn lemma_register_free_name(
    routes: Seq<RouteView>,
    name: Seq<char>,
    path: Seq<char>,
    other: Seq<char>,
)
    requires
        well_formed(routes),
        !has_name(routes, name),
        name.len() > 0,
        is_rooted(path),
    ensures
        registered(routes, name, path) == Ok::<Seq<RouteView>, Seq<char>>(
            routes.push(RouteView { name, path }),
        ),
        well_formed(routes.push(RouteView { name, path })),
        lookup(routes.push(RouteView { name, path }), name) == Some(path),
        other != name ==> lookup(routes.push(RouteView { name, path }), other) == lookup(
            routes,
            other,
        ),
{
    let route = RouteView { name, path };
    let grown = routes.push(route);
    lemma_has_name(routes, name);
    lemma_first_index(routes, named(other));
    assert(grown.drop_last() =~= routes);
    assert(well_formed(grown));
}

/// Registering a taken name fails with that name, whatever the path.
pub proof fn lemma_register_taken_name(routes: Seq<RouteView>, name: Seq<char>, path: Seq<char>)
    requires
        has_name(routes, name),
    ensures
        registered(routes, name, path) == Err::<Seq<RouteView>, Seq<char>>(name),
{
}

/// Registering routes one after the other succeeds exactly when no name
/// among them and the routes before occurs twice, and the registry then
/// holds exactly the routes before and those routes, in the order of the
/// calls.
pub proof fn lemma_register_all(routes: Seq<RouteView>, calls: Seq<RouteView>)
    requires
        distinct_names(routes),
    ensures
        distinct_names(routes + calls) ==> registered_all(routes, calls) == Ok::<
            Seq<RouteView>,
            Seq<char>,
        >(routes + calls),
        !distinct_names(routes + calls) ==> registered_all(routes, calls) is Err,
    decreases calls.len(),
{
    if calls.len() == 0 {
        assert(routes + calls =~= routes);
    } else {
        let earlier = calls.drop_last();
        let last = calls.last();
        let before = routes + earlier;
        let all = routes + calls;
        lemma_register_all(routes, earlier);
        assert(all =~= before.push(last));
        assert(forall|i: int| 0 <= i < before.len() ==> #[trigger] before[i] == all[i]);
        lemma_has_name(before, last.name);
        if distinct_names(all) {
            assert(distinct_names(before));
            if has_name(before, last.name) {
                let i = choose|i: int|
                    0 <= i < before.len() && (#[trigger] before[i]).name == last.name;
                assert(all[i].name == all[all.len() - 1].name);
            }
            assert(RouteView { name: last.name, path: last.path } == last);
        } else if distinct_names(before) {
            if !has_name(before, last.name) {
                assert forall|i: int, j: int| 0 <= i < j < all.len() implies (#[trigger] all[i]).name
                    != (#[trigger] all[j]).name by {
                    if j < before.len() {
                        assert(before[i].name != before[j].name);
                    } else {
                        assert(before[i].name != last.name);
                    }
                }
            }
        }
    }
}

/// Registering routes with distinct names into an empty registry yields
/// exactly those routes.
pub proof fn lemma_register_distinct(calls: Seq<RouteView>)
    requires
        distinct_names(calls),
    ensures
        registered_all(Seq::<RouteView>::empty(), calls) == Ok::<Seq<RouteView>, Seq<char>>(
            calls,
        ),
{
    let empty = Seq::<RouteView>::empty();
    assert(empty + calls =~= calls);
    lemma_register_all(empty, calls);
}

/// In two lists laid end to end, a name leads where it leads in the first,
/// and where the first does not hold it, where it leads in the second.
pub proof fn lemma_lookup_concat(first: Seq<RouteView>, second: Seq<RouteView>, name: Seq<char>)
    ensures
        lookup(first + second, name) == if has_name(first, name) {
            lookup(first, name)
        } else {
            lookup(second, name)
        },
{
    let both = first + second;
    lemma_first_index(both, named(name));
    lemma_first_index(first, named(name));
    lemma_first_index(second, named(name));
    match first_index(first, named(name)) {
        Some(i) => {
            assert(both[i] == first[i]);
            assert forall|j: int| 0 <= j < i implies !named(name)(#[trigger] both[j]) by {
                assert(both[j] == first[j]);
            }
            lemma_first_index_at(both, named(name), i);
        },
        None => {
            match first_index(second, named(name)) {
                Some(i) => {
                    let at = first.len() + i;
                    assert(both[at] == second[i]);
                    assert forall|j: int| 0 <= j < at implies !named(name)(#[trigger] both[j]) by {
                        if j < first.len() {
                            assert(both[j] == first[j]);
                        } else {
                            assert(both[j] == second[j - first.len()]);
                        }
                    }
                    lemma_first_index_at(both, named(name), at);
                },
                None => {
                    assert forall|j: int| 0 <= j < both.len() implies !named(name)(
                        #[trigger] both[j],
                    ) by {
                        if j < first.len() {
                            assert(both[j] == first[j]);
                        } else {
                            assert(both[j] == second[j - first.len()]);
                        }
                    }
                    lemma_first_index_none(both, named(name));
                },
            }
        },
    }
}

/// A merge fails exactly when the two share a name, and it then names a
/// route of `incoming` whose name `routes` holds.
pub proof fn lemma_merge_fails_on_shared_name(routes: Seq<RouteView>, incoming: Seq<RouteView>)
    ensures
        merged(routes, incoming) is Err <==> exists|name: Seq<char>|
            has_name(routes, name) && #[trigger] has_name(incoming, name),
        merged(routes, incoming) matches Err(name) ==> has_name(routes, name) && has_name(
            incoming,
            name,
        ),
{
    lemma_first_index(incoming, taken_in(routes));
    match first_index(incoming, taken_in(routes)) {
        Some(i) => {
            let name = incoming[i].name;
            lemma_has_name(incoming, name);
            assert(has_name(routes, name) && has_name(incoming, name));
        },
        None => {
            assert forall|name: Seq<char>| has_name(routes, name) implies !#[trigger] has_name(
                incoming,
                name,
            ) by {
                lemma_has_name(incoming, name);
                if has_name(incoming, name) {
                    let i = choose|i: int|
                        0 <= i < incoming.len() && (#[trigger] incoming[i]).name == name;
                    assert(!taken_in(routes)(incoming[i]));
                }
            }
        },
    }
}

/// Merging routes that share no name yields the union: all routes of both,
/// the older registry's first; every name leads where it led in the one
/// that held it.
pub proof fn lemma_merge_disjoint(routes: Seq<RouteView>, incoming: Seq<RouteView>)
    requires
        well_formed(routes),
        well_formed(incoming),
        forall|name: Seq<char>| has_name(routes, name) ==> !#[trigger] has_name(incoming, name),
    ensures
        merged(routes, incoming) == Ok::<Seq<RouteView>, Seq<char>>(routes + incoming),
        well_formed(routes + incoming),
        table(routes + incoming) == table(routes).union_prefer_right(table(incoming)),
        forall|name: Seq<char>| #[trigger]
            lookup(routes + incoming, name) == if has_name(routes, name) {
                lookup(routes, name)
            } else {
                lookup(incoming, name)
            },
{
    let both = routes + incoming;
    lemma_merge_fails_on_shared_name(routes, incoming);
    assert forall|i: int, j: int| 0 <= i < j < both.len() implies (#[trigger] both[i]).name != (
    #[trigger] both[j]).name by {
        if j < routes.len() {
            assert(routes[i].name != routes[j].name);
        } else if i >= routes.len() {
            assert(incoming[i - routes.len()].name != incoming[j - routes.len()].name);
        } else {
            lemma_has_name(routes, routes[i].name);
            lemma_has_name(incoming, routes[i].name);
            assert(incoming[j - routes.len()].name != routes[i].name);
        }
    }
    assert forall|i: int| 0 <= i < both.len() implies (#[trigger] both[i]).name.len() > 0
        && is_rooted(both[i].path) by {
        if i < routes.len() {
            assert(routes[i].name.len() > 0);
        } else {
            assert(incoming[i - routes.len()].name.len() > 0);
        }
    }
    assert forall|name: Seq<char>| #[trigger]
        lookup(both, name) == if has_name(routes, name) {
            lookup(routes, name)
        } else {
            lookup(incoming, name)
        } by {
        lemma_lookup_concat(routes, incoming, name);
    }
    assert forall|name: Seq<char>| has_name(both, name) <==> has_name(routes, name) || has_name(
        incoming,
        name,
    ) by {
        lemma_has_name_concat(routes, incoming, name);
    }
    assert(table(both) =~= table(routes).union_prefer_right(table(incoming)));
}

/// After nesting, a route is found under its composed name, at its path
/// re-based under the path prefix.
pub proof fn lemma_lookup_nested(
    routes: Seq<RouteView>,
    name_prefix: Seq<char>,
    separator: Seq<char>,
    path_prefix: Seq<char>,
    name: Seq<char>,
)
    requires
        well_formed(routes),
        is_rooted(path_prefix),
    ensures
        has_name(nested(routes, name_prefix, separator, path_prefix), name_prefix + separator + name)
            <==> has_name(routes, name),
        has_name(routes, name) ==> lookup(
            nested(routes, name_prefix, separator, path_prefix),
            name_prefix + separator + name,
        ) == Some(join(path_prefix, lookup(routes, name).unwrap())),
{
    let after = nested(routes, name_prefix, separator, path_prefix);
    let composed = name_prefix + separator + name;
    lemma_nested_well_formed(routes, name_prefix, separator, path_prefix);
    lemma_has_name(routes, name);
    lemma_has_name(after, composed);
    if has_name(routes, name) {
        let i = choose|i: int| 0 <= i < routes.len() && (#[trigger] routes[i]).name == name;
        lemma_lookup_at(routes, i);
        assert(after[i].name == composed);
        lemma_lookup_at(after, i);
    }
    if has_name(after, composed) {
        let i = choose|i: int| 0 <= i < after.len() && (#[trigger] after[i]).name == composed;
        lemma_prefix_keeps_apart(name_prefix + separator, routes[i].name, name);
        assert(routes[i].name == name);
    }
}

/// Every name of nested routes begins with the name prefix and the
/// separator; a name that does not is not among them.
pub proof fn lemma_nested_names(
    routes: Seq<RouteView>,
    name_prefix: Seq<char>,
    separator: Seq<char>,
    path_prefix: Seq<char>,
    name: Seq<char>,
)
    requires
        has_name(nested(routes, name_prefix, separator, path_prefix), name),
    ensures
        exists|inner: Seq<char>|
            name == name_prefix + separator + inner && #[trigger] has_name(routes, inner),
{
    let after = nested(routes, name_prefix, separator, path_prefix);
    lemma_has_name(after, name);
    let i = choose|i: int| 0 <= i < after.len() && (#[trigger] after[i]).name == name;
    lemma_has_name(routes, routes[i].name);
    assert(after[i] == nested_route(routes[i], name_prefix, separator, path_prefix));
    assert(name == name_prefix + separator + routes[i].name && has_name(routes, routes[i].name));
}

/// One registry can be nested twice: under two different name prefixes of
/// one length no composed name occurs twice, so the second nesting
/// succeeds, and every route is then found under both composed names, each
/// at its own re-based path.
pub proof fn lemma_nest_twice(
    routes: Seq<RouteView>,
    separator: Seq<char>,
    first_name: Seq<char>,
    first_path: Seq<char>,
    second_name: Seq<char>,
    second_path: Seq<char>,
    name: Seq<char>,
)
    requires
        well_formed(routes),
        is_rooted(first_path),
        is_rooted(second_path),
        first_name.len() == second_name.len(),
        first_name != second_name,
    ensures
        merged(
            nested(routes, first_name, separator, first_path),
            nested(routes, second_name, separator, second_path),
        ) == Ok::<Seq<RouteView>, Seq<char>>(
            nested(routes, first_name, separator, first_path) + nested(
                routes,
                second_name,
                separator,
                second_path,
            ),
        ),
        has_name(routes, name) ==> lookup(
            nested(routes, first_name, separator, first_path) + nested(
                routes,
                second_name,
                separator,
                second_path,
            ),
            first_name + separator + name,
        ) == Some(join(first_path, lookup(routes, name).unwrap())),
        has_name(routes, name) ==> lookup(
            nested(routes, first_name, separator, first_path) + nested(
                routes,
                second_name,
                separator,
                second_path,
            ),
            second_name + separator + name,
        ) == Some(join(second_path, lookup(routes, name).unwrap())),
{
    let one = nested(routes, first_name, separator, first_path);
    let two = nested(routes, second_name, separator, second_path);
    lemma_nested_well_formed(routes, first_name, separator, first_path);
    lemma_nested_well_formed(routes, second_name, separator, second_path);
    assert forall|shared: Seq<char>| has_name(one, shared) implies !#[trigger] has_name(
        two,
        shared,
    ) by {
        if has_name(two, shared) {
            lemma_nested_names(routes, first_name, separator, first_path, shared);
            lemma_nested_names(routes, second_name, separator, second_path, shared);
            let x = choose|inner: Seq<char>|
                shared == first_name + separator + inner && #[trigger] has_name(routes, inner);
            let y = choose|inner: Seq<char>|
                shared == second_name + separator + inner && #[trigger] has_name(routes, inner);
            assert((first_name + separator + x).take(first_name.len() as int) =~= first_name);
            assert((second_name + separator + y).take(second_name.len() as int) =~= second_name);
        }
    }
    lemma_merge_disjoint(one, two);
    if has_name(routes, name) {
        lemma_lookup_nested(routes, first_name, separator, first_path, name);
        lemma_lookup_nested(routes, second_name, separator, second_path, name);
        lemma_lookup_concat(one, two, first_name + separator + name);
        lemma_lookup_concat(one, two, second_name + separator + name);
    }
}

/// The reverse lookup finds a name exactly when some route leads to the
/// same path, and the name it finds is that of the oldest such route.
pub proof fn lemma_name_of(routes: Seq<RouteView>, path: Seq<char>)
    ensures
        name_of(routes, path) is None <==> forall|i: int|
            0 <= i < routes.len() ==> !same_path((#[trigger] routes[i]).path, path),
        name_of(routes, path) matches Some(name) ==> exists|i: int|
            0 <= i < routes.len() && (#[trigger] routes[i]).name == name && same_path(
                routes[i].path,
                path,
            ) && forall|j: int| 0 <= j < i ==> !same_path((#[trigger] routes[j]).path, path),
{
    lemma_first_index(routes, leads_to(path));
    match first_index(routes, leads_to(path)) {
        Some(i) => {
            assert(leads_to(path)(routes[i]));
            assert(routes[i].name == name_of(routes, path).unwrap() && same_path(
                routes[i].path,
                path,
            ) && forall|j: int| 0 <= j < i ==> !same_path((#[trigger] routes[j]).path, path)) by {
                assert forall|j: int| 0 <= j < i implies !same_path(
                    (#[trigger] routes[j]).path,
                    path,
                ) by {
                    assert(!leads_to(path)(routes[j]));
                }
            }
        },
        None => {
            assert forall|i: int| 0 <= i < routes.len() implies !same_path(
                (#[trigger] routes[i]).path,
                path,
            ) by {
                assert(!leads_to(path)(routes[i]));
            }
        },
    }
}

/// A table of one route answers with its name for its own path.
pub proof fn lemma_name_of_single(name: Seq<char>, path: Seq<char>)
    ensures
        name_of(seq![RouteView { name, path }], path) == Some(name),
{
    let routes = seq![RouteView { name, path }];
    assert(leads_to(path)(routes[0]));
    lemma_first_index_at(routes, leads_to(path), 0);
}

/// A table reads as the registry it was frozen from: whatever `finalize`
/// makes of a registry, `get` finds in it the names of the registry and no
/// others, each at the path that the registry held for it.
pub proof fn lemma_table_reads_registry(
    registry: NamedRouter,
    table: Routes,
    name: &str,
    found: Option<&RoutePath>,
)
    requires
        call_ensures(NamedRouter::finalize, (registry,), table),
        call_ensures(Routes::get, (&table, name), found),
    ensures
        table@ == registry@.routes,
        found is Some <==> has_name(registry@.routes, name@),
        found matches Some(path) ==> lookup(registry@.routes, name@) == Some(path@),
{
}

/// A table answers alike every time: whatever two calls of `get` with one
/// name return, both found a path or neither did, and the paths they found
/// read the same.
pub proof fn lemma_get_repeats(
    table: Routes,
    name: &str,
    first: Option<&RoutePath>,
    second: Option<&RoutePath>,
)
    requires
        call_ensures(Routes::get, (&table, name), first),
        call_ensures(Routes::get, (&table, name), second),
    ensures
        first is Some <==> second is Some,
        first matches Some(path) ==> path@ == second.unwrap()@,
        first is Some <==> has_name(table@, name@),
{
}

/// A clone of a table answers as the table does: whatever `get` returns
/// from the one and from the other for one name, both found a path or
/// neither did, and the paths they found read the same.
pub proof fn lemma_clone_answers_alike(
    table: Routes,
    copy: Routes,
    name: &str,
    first: Option<&RoutePath>,
    second: Option<&RoutePath>,
)
    requires
        call_ensures(Routes::clone, (&table,), copy),
        call_ensures(Routes::get, (&table, name), first),
        call_ensures(Routes::get, (&copy, name), second),
    ensures
        copy@ == table@,
        first is Some <==> second is Some,
        first matches Some(path) ==> path@ == second.unwrap()@,
{
}

} // verus!
