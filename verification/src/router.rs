//! Routing: a table from request paths to handlers.
use vstd::prelude::*;

use crate::request::{str_equals, Request};

verus! {

/// No path occurs twice in the table.
pub open spec fn keys_distinct<H>(rs: Seq<(String, H)>) -> bool {
    forall|i: int, j: int|
        0 <= i < rs.len() && 0 <= j < rs.len() && i != j ==> #[trigger] rs[i].0@ != #[trigger] rs[j].0@
}

/// Whether some entry of the table has path `k`.
pub open spec fn has_path<H>(rs: Seq<(String, H)>, k: Seq<char>) -> bool {
    exists|i: int| 0 <= i < rs.len() && #[trigger] rs[i].0@ == k
}

/// The table as a map from paths to handlers.
pub open spec fn routes_map<H>(rs: Seq<(String, H)>) -> Map<Seq<char>, H> {
    Map::new(
        |k: Seq<char>| has_path(rs, k),
        |k: Seq<char>| rs[choose|i: int| 0 <= i < rs.len() && #[trigger] rs[i].0@ == k].1,
    )
}

/// The entry at `i` is what the map gives for its path.
proof fn lemma_routes_map_at<H>(rs: Seq<(String, H)>, i: int)
    requires
        keys_distinct(rs),
        0 <= i < rs.len(),
    ensures
        routes_map(rs).contains_key(rs[i].0@),
        routes_map(rs)[rs[i].0@] == rs[i].1,
{
    let k = rs[i].0@;
    assert(has_path(rs, k));
    let c = choose|c: int| 0 <= c < rs.len() && #[trigger] rs[c].0@ == k;
    assert(rs[c].0@ == rs[i].0@);
}

/// A table of routes: each path leads to one handler.
pub struct Router<H> {
    pub(crate) routes: Vec<(String, H)>,
}

impl<H> Router<H> {
    #[verifier::type_invariant]
    spec fn wf(&self) -> bool {
        keys_distinct(self.routes@)
    }

    /// No routes.
    pub fn new() -> (r: Self)
        ensures
            r@ == Map::<Seq<char>, H>::empty(),
    {
        let r = Router { routes: Vec::new() };
        assert(r@ =~= Map::<Seq<char>, H>::empty());
        r
    }

    /// The position of the entry for `path`, if there is one.
    fn position(routes: &Vec<(String, H)>, path: &str) -> (res: Option<usize>)
        requires
            keys_distinct(routes@),
        ensures
            res matches Some(i) ==> i < routes@.len() && routes@[i as int].0@ == path@,
            res is None ==> !has_path(routes@, path@),
    {
        let mut i: usize = 0;
        while i < routes.len()
            invariant
                i <= routes@.len(),
                forall|j: int| 0 <= j < i ==> #[trigger] routes@[j].0@ != path@,
            decreases routes@.len() - i,
        {
            if str_equals(routes[i].0.as_str(), path) {
                return Some(i);
            }
            i = i + 1;
        }
        None
    }

    /// This table with `route` mounted on `path`, in place of any handler
    /// that was mounted there before.
    pub fn handler(self, path: String, route: H) -> (r: Self)
        ensures
            r@ == self@.insert(path@, route),
    {
        proof {
            use_type_invariant(&self);
        }
        let ghost old_rs = self.routes@;
        let ghost p = path@;
        let Router { mut routes } = self;
        match Self::position(&routes, path.as_str()) {
            Some(i) => {
                routes.set(i, (path, route));
                let ghost new_rs = routes@;
                assert(keys_distinct(new_rs)) by {
                    assert forall|a: int, b: int|
                        0 <= a < new_rs.len() && 0 <= b < new_rs.len() && a != b implies #[trigger] new_rs[a].0@
                        != #[trigger] new_rs[b].0@ by {
                        assert(old_rs[a].0@ == new_rs[a].0@);
                        assert(old_rs[b].0@ == new_rs[b].0@);
                    }
                }
                assert forall|k: Seq<char>| #[trigger]
                    routes_map(new_rs).contains_key(k) == routes_map(old_rs).insert(
                        p,
                        route,
                    ).contains_key(k) by {
                    if has_path(new_rs, k) {
                        let c = choose|c: int| 0 <= c < new_rs.len() && #[trigger] new_rs[c].0@ == k;
                        assert(old_rs[c].0@ == new_rs[c].0@);
                    }
                    if has_path(old_rs, k) {
                        let c = choose|c: int| 0 <= c < old_rs.len() && #[trigger] old_rs[c].0@ == k;
                        assert(old_rs[c].0@ == new_rs[c].0@);
                    }
                }
                assert forall|k: Seq<char>| #[trigger]
                    routes_map(new_rs).contains_key(k) implies routes_map(new_rs)[k]
                    == routes_map(old_rs).insert(p, route)[k] by {
                    let c = choose|c: int| 0 <= c < new_rs.len() && #[trigger] new_rs[c].0@ == k;
                    lemma_routes_map_at(new_rs, c);
                    if c != i {
                        assert(old_rs[c] == new_rs[c]);
                        lemma_routes_map_at(old_rs, c);
                    }
                }
                assert(routes_map(new_rs) =~= routes_map(old_rs).insert(p, route));
            },
            None => {
                routes.push((path, route));
                let ghost new_rs = routes@;
                let ghost n = old_rs.len();
                assert(keys_distinct(new_rs)) by {
                    assert forall|a: int, b: int|
                        0 <= a < new_rs.len() && 0 <= b < new_rs.len() && a != b implies #[trigger] new_rs[a].0@
                        != #[trigger] new_rs[b].0@ by {
                        if a < n && b < n {
                            assert(old_rs[a] == new_rs[a]);
                            assert(old_rs[b] == new_rs[b]);
                        } else if a < n {
                            assert(old_rs[a] == new_rs[a]);
                        } else {
                            assert(old_rs[b] == new_rs[b]);
                        }
                    }
                }
                assert forall|k: Seq<char>| #[trigger]
                    routes_map(new_rs).contains_key(k) == routes_map(old_rs).insert(
                        p,
                        route,
                    ).contains_key(k) by {
                    if has_path(new_rs, k) && k != p {
                        let c = choose|c: int| 0 <= c < new_rs.len() && #[trigger] new_rs[c].0@ == k;
                        assert(old_rs[c] == new_rs[c]);
                    }
                    if has_path(old_rs, k) {
                        let c = choose|c: int| 0 <= c < old_rs.len() && #[trigger] old_rs[c].0@ == k;
                        assert(old_rs[c] == new_rs[c]);
                    }
                    if k == p {
                        assert(new_rs[n as int].0@ == p);
                    }
                }
                assert forall|k: Seq<char>| #[trigger]
                    routes_map(new_rs).contains_key(k) implies routes_map(new_rs)[k]
                    == routes_map(old_rs).insert(p, route)[k] by {
                    let c = choose|c: int| 0 <= c < new_rs.len() && #[trigger] new_rs[c].0@ == k;
                    lemma_routes_map_at(new_rs, c);
                    if c < n {
                        assert(old_rs[c] == new_rs[c]);
                        lemma_routes_map_at(old_rs, c);
                    }
                }
                assert(routes_map(new_rs) =~= routes_map(old_rs).insert(p, route));
            },
        }
        Router { routes }
    }

    /// The handler mounted on `path`, if any.
    pub fn route_path(&self, path: &str) -> (res: Option<&H>)
        ensures
            res is Some <==> self@.contains_key(path@),
            res matches Some(h) ==> *h == self@[path@],
    {
        proof {
            use_type_invariant(self);
        }
        match Self::position(&self.routes, path) {
            Some(i) => {
                proof {
                    lemma_routes_map_at(self.routes@, i as int);
                }
                Some(&self.routes[i].1)
            },
            None => None,
        }
    }

    /// The handler mounted on the request's path, if any.
    pub fn route(&self, request: &Request) -> (res: Option<&H>)
        ensures
            res is Some <==> self@.contains_key(request.path@),
            res matches Some(h) ==> *h == self@[request.path@],
    {
        self.route_path(request.path.as_str())
    }

    /// The number of routes.
    pub fn len(&self) -> (n: usize)
        ensures
            n == self@.dom().len(),
    {
        proof {
            use_type_invariant(self);
            lemma_routes_dom_len(self.routes@);
        }
        self.routes.len()
    }
}

/// The table has as many paths as entries.
proof fn lemma_routes_dom_len<H>(rs: Seq<(String, H)>)
    requires
        keys_distinct(rs),
    ensures
        routes_map(rs).dom().finite(),
        routes_map(rs).dom().len() == rs.len(),
    decreases rs.len(),
{
    if rs.len() == 0 {
        assert(routes_map(rs).dom() =~= Set::<Seq<char>>::empty());
    } else {
        let init = rs.drop_last();
        assert(keys_distinct(init)) by {
            assert forall|a: int, b: int|
                0 <= a < init.len() && 0 <= b < init.len() && a != b implies #[trigger] init[a].0@
                != #[trigger] init[b].0@ by {
                assert(init[a] == rs[a]);
                assert(init[b] == rs[b]);
            }
        }
        lemma_routes_dom_len(init);
        let k = rs.last().0@;
        assert(!routes_map(init).dom().contains(k)) by {
            if has_path(init, k) {
                let c = choose|c: int| 0 <= c < init.len() && #[trigger] init[c].0@ == k;
                assert(init[c] == rs[c]);
            }
        }
        assert forall|x: Seq<char>| #[trigger] routes_map(rs).dom().contains(x) == routes_map(
            init,
        ).dom().insert(k).contains(x) by {
            if has_path(rs, x) && x != k {
                let c = choose|c: int| 0 <= c < rs.len() && #[trigger] rs[c].0@ == x;
                assert(init[c] == rs[c]);
            }
            if has_path(init, x) {
                let c = choose|c: int| 0 <= c < init.len() && #[trigger] init[c].0@ == x;
                assert(init[c] == rs[c]);
            }
            if x == k {
                assert(rs[rs.len() - 1].0@ == k);
            }
        }
        assert(routes_map(rs).dom() =~= routes_map(init).dom().insert(k));
    }
}

impl<H> View for Router<H> {
    type V = Map<Seq<char>, H>;

    closed spec fn view(&self) -> Map<Seq<char>, H> {
        routes_map(self.routes@)
    }
}

} // verus!
