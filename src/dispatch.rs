//! Compiles the segment paths found by the walker into one dispatch
//! expression: an ordered chain of alternatives, first match wins.
use std::collections::VecDeque;
use vstd::prelude::*;
use crate::error::BuildError;
use crate::fs_tree::path_views;
use crate::text::{join_spec, join_wrapped, views, wrapped};

verus! {

/// The reserved last segment that makes a leaf routable.
pub open spec fn index_word() -> Seq<char> {
    "index"@
}

/// A segment path is an endpoint when it ends in the reserved `index` segment.
pub open spec fn is_endpoint(p: Seq<Seq<char>>) -> bool {
    p.len() > 0 && p.last() == index_word()
}

/// The request path that an endpoint serves: its segments without `index`.
pub open spec fn route_of(e: Seq<Seq<char>>) -> Seq<Seq<char>> {
    e.drop_last()
}

/// Positions of the endpoints in `lv`, in discovery order.
pub open spec fn endpoint_indices(lv: Seq<Seq<Seq<char>>>) -> Seq<int>
    decreases lv.len(),
{
    if lv.len() == 0 {
        Seq::empty()
    } else if is_endpoint(lv.last()) {
        endpoint_indices(lv.drop_last()).push(lv.len() - 1)
    } else {
        endpoint_indices(lv.drop_last())
    }
}

/// No two endpoints have the same segments.
pub open spec fn distinct_endpoints(lv: Seq<Seq<Seq<char>>>) -> bool {
    let ei = endpoint_indices(lv);
    forall|a: int, b: int| 0 <= a < b < ei.len() ==> lv[ei[a]] != lv[ei[b]]
}

/// The error that a build of `lv` stops on, if any: an empty segment path
/// first, then two endpoints with the same segments.
pub open spec fn build_error(lv: Seq<Seq<Seq<char>>>) -> Option<BuildError> {
    if exists|i: int| 0 <= i < lv.len() && (#[trigger] lv[i]).len() == 0 {
        Some(BuildError::EmptyRoute)
    } else if !distinct_endpoints(lv) {
        Some(BuildError::DuplicateRoute)
    } else {
        None
    }
}

/// The order in which the alternatives are tried: the endpoint discovered
/// last is the base case, then the others in discovery order.
pub open spec fn route_order(lv: Seq<Seq<Seq<char>>>) -> Seq<int> {
    let ei = endpoint_indices(lv);
    if ei.len() == 0 {
        Seq::empty()
    } else {
        seq![ei.last()] + ei.drop_last()
    }
}

/// The endpoint that a request selects: the first alternative of `ord`
/// whose route equals the request.
pub open spec fn first_match(lv: Seq<Seq<Seq<char>>>, ord: Seq<int>, req: Seq<Seq<char>>) -> Option<int>
    decreases ord.len(),
{
    if ord.len() == 0 {
        None
    } else if route_of(lv[ord[0]]) == req {
        Some(ord[0])
    } else {
        first_match(lv, ord.drop_first(), req)
    }
}

/// The endpoint of `lv` that the compiled dispatch expression selects for
/// the request path `req`, as a position in `lv`.
pub open spec fn selected(lv: Seq<Seq<Seq<char>>>, req: Seq<Seq<char>>) -> Option<int> {
    first_match(lv, route_order(lv), req)
}

/// The signature of the router function, up to its opening brace.
pub open spec fn header() -> Seq<char> {
    "fn router(hb: Arc<Handlebars<'static>>, pool: Arc<Pool<Postgres>>) -> impl Filter<Extract = (impl warp::Reply,), Error = warp::Rejection> + Clone { "@
}

/// A filter that rejects every request.
pub open spec fn reject_all() -> Seq<char> {
    "warp::any().and_then(|| async { Err::<warp::reply::Html<String>, warp::Rejection>(warp::reject::not_found()) })"@
}

/// One segment matcher per segment of the route, each opening the next.
pub open spec fn matchers(route: Seq<Seq<char>>) -> Seq<char>
    decreases route.len(),
{
    if route.len() == 0 {
        Seq::empty()
    } else {
        matchers(route.drop_last()) + "warp::path(\""@ + route.last() + "\").and("@
    }
}

/// `n` closing parentheses.
pub open spec fn closers(n: nat) -> Seq<char>
    decreases n,
{
    if n == 0 {
        Seq::empty()
    } else {
        closers((n - 1) as nat) + ")"@
    }
}

/// The call of the endpoint's initializer, handed its full segment list.
pub open spec fn initializer(e: Seq<Seq<char>>) -> Seq<char> {
    "routing::"@ + join_spec(e, "::"@)
        + "::initialize( potion::Context::new(hb.clone(), pool.clone(), &["@ + join_spec(
        wrapped(e, "\""@, "\""@),
        ", "@,
    ) + "]) )"@
}

/// The filter of one endpoint: its segment matchers, the end of the path,
/// then its initializer.
pub open spec fn chain(e: Seq<Seq<char>>) -> Seq<char> {
    matchers(route_of(e)) + "warp::path::end().and("@ + initializer(e) + closers(
        (route_of(e).len() + 1) as nat,
    )
}

/// The alternatives after the base case, each joined by `or`.
pub open spec fn alternatives(lv: Seq<Seq<Seq<char>>>, ord: Seq<int>) -> Seq<char>
    decreases ord.len(),
{
    if ord.len() == 0 {
        Seq::empty()
    } else {
        alternatives(lv, ord.drop_last()) + ".or("@ + chain(lv[ord.last()]) + ")"@
    }
}

/// The text of the router function for the alternatives `ord` of `lv`.
pub open spec fn dispatch_text(lv: Seq<Seq<Seq<char>>>, ord: Seq<int>) -> Seq<char> {
    header() + (if ord.len() == 0 {
        reject_all()
    } else {
        chain(lv[ord[0]]) + alternatives(lv, ord.drop_first())
    }) + " }"@
}

/// Whether two segment paths are equal.
fn segments_eq(a: &VecDeque<String>, b: &VecDeque<String>) -> (r: bool)
    ensures
        r == (views(a@) == views(b@)),
{
    if a.len() != b.len() {
        return false;
    }
    let mut i: usize = 0;
    while i < a.len()
        invariant
            i <= a@.len() == b@.len(),
            forall|k: int| 0 <= k < i ==> a@[k]@ == b@[k]@,
        decreases a@.len() - i,
    {
        if a[i] != b[i] {
            assert(views(a@)[i as int] != views(b@)[i as int]);
            return false;
        }
        i = i + 1;
    }
    assert(views(a@) =~= views(b@));
    true
}

/// Whether a segment path ends in `index`.
fn ends_in_index(p: &VecDeque<String>) -> (r: bool)
    ensures
        r == is_endpoint(views(p@)),
{
    let n = p.len();
    if n == 0 {
        return false;
    }
    crate::text::str_eq(p[n - 1].as_str(), "index")
}

/// The order of the alternatives of the dispatch expression, as positions
/// in `l`, or the error that the build stops on.
pub fn order_routes(l: &Vec<VecDeque<String>>) -> (r: Result<Vec<usize>, BuildError>)
    ensures
        match build_error(path_views(l@)) {
            Some(e) => r == Err::<Vec<usize>, BuildError>(e),
            None => r matches Ok(o) && o@.map_values(|k: usize| k as int) == route_order(
                path_views(l@),
            ),
        },
{
    let ghost lv = path_views(l@);
    let mut ei: Vec<usize> = Vec::new();
    let mut i: usize = 0;
    while i < l.len()
        invariant
            i <= l@.len(),
            lv == path_views(l@),
            ei@.map_values(|k: usize| k as int) == endpoint_indices(lv.subrange(0, i as int)),
            forall|k: int| 0 <= k < i ==> (#[trigger] lv[k]).len() > 0,
        decreases l@.len() - i,
    {
        if l[i].len() == 0 {
            assert(lv[i as int].len() == 0);
            return Err(BuildError::EmptyRoute);
        }
        assert(lv.subrange(0, i + 1).drop_last() == lv.subrange(0, i as int));
        if ends_in_index(&l[i]) {
            ei.push(i);
        }
        assert(ei@.map_values(|k: usize| k as int) =~= endpoint_indices(lv.subrange(0, i + 1)));
        i = i + 1;
    }
    assert(lv.subrange(0, lv.len() as int) == lv);
    let ghost eis = endpoint_indices(lv);
    proof {
        lemma_endpoint_indices(lv);
    }
    let m = ei.len();
    let mut a: usize = 0;
    while a < m
        invariant
            m == ei@.len() == eis.len(),
            lv == path_views(l@),
            ei@.map_values(|k: usize| k as int) == eis,
            eis == endpoint_indices(lv),
            forall|k: int| 0 <= k < eis.len() ==> 0 <= #[trigger] eis[k] < lv.len(),
            forall|k: int| 0 <= k < lv.len() ==> (#[trigger] lv[k]).len() > 0,
            a <= m,
            forall|x: int, y: int| 0 <= x < a && x < y < m ==> lv[eis[x]] != lv[eis[y]],
        decreases m - a,
    {
        let mut b: usize = a + 1;
        while b < m
            invariant
                m == ei@.len() == eis.len(),
                lv == path_views(l@),
                ei@.map_values(|k: usize| k as int) == eis,
                forall|k: int| 0 <= k < eis.len() ==> 0 <= #[trigger] eis[k] < lv.len(),
                forall|k: int| 0 <= k < lv.len() ==> (#[trigger] lv[k]).len() > 0,
                eis == endpoint_indices(lv),
                a < b <= m,
                forall|x: int, y: int| 0 <= x < a && x < y < m ==> lv[eis[x]] != lv[eis[y]],
                forall|y: int| a < y < b ==> lv[eis[a as int]] != lv[eis[y]],
            decreases m - b,
        {
            assert(eis[a as int] == ei@[a as int] as int);
            assert(eis[b as int] == ei@[b as int] as int);
            if segments_eq(&l[ei[a]], &l[ei[b]]) {
                assert(lv[eis[a as int]] == lv[eis[b as int]]);
                assert(!distinct_endpoints(lv));
                return Err(BuildError::DuplicateRoute);
            }
            b = b + 1;
        }
        a = a + 1;
    }
    let mut o: Vec<usize> = Vec::new();
    if m > 0 {
        o.push(ei[m - 1]);
        let mut k: usize = 0;
        while k < m - 1
            invariant
                0 < m == ei@.len() == eis.len(),
                ei@.map_values(|k: usize| k as int) == eis,
                k <= m - 1,
                o@.map_values(|k: usize| k as int) == seq![eis.last()] + eis.subrange(0, k as int),
            decreases m - 1 - k,
        {
            let ghost before = o@.map_values(|k: usize| k as int);
            o.push(ei[k]);
            assert(eis[k as int] == ei@[k as int] as int);
            assert(o@.map_values(|k: usize| k as int) =~= before.push(eis[k as int]));
            assert(eis.subrange(0, k + 1) =~= eis.subrange(0, k as int).push(eis[k as int]));
            assert(o@.map_values(|k: usize| k as int) =~= seq![eis.last()] + eis.subrange(0, k + 1));
            k = k + 1;
        }
        assert(eis.subrange(0, m - 1) == eis.drop_last());
    } else {
        assert(o@.map_values(|k: usize| k as int) =~= Seq::<int>::empty());
    }
    Ok(o)
}

/// The endpoint positions lie in `lv`, rise strictly, and are exactly the
/// positions of the endpoints.
pub proof fn lemma_endpoint_indices(lv: Seq<Seq<Seq<char>>>)
    ensures
        forall|k: int| 0 <= k < endpoint_indices(lv).len() ==> 0 <= #[trigger] endpoint_indices(lv)[k] < lv.len()
            && is_endpoint(lv[endpoint_indices(lv)[k]]),
        forall|a: int, b: int|
            0 <= a < b < endpoint_indices(lv).len() ==> endpoint_indices(lv)[a] < endpoint_indices(lv)[b],
        forall|p: int| 0 <= p < lv.len() && is_endpoint(#[trigger] lv[p]) ==> endpoint_indices(lv).contains(p),
    decreases lv.len(),
{
    if lv.len() > 0 {
        let pre = lv.drop_last();
        lemma_endpoint_indices(pre);
        assert forall|p: int| 0 <= p < lv.len() && is_endpoint(#[trigger] lv[p]) implies endpoint_indices(lv).contains(p) by {
            if p < lv.len() - 1 {
                assert(pre[p] == lv[p]);
                let k = choose|k: int| 0 <= k < endpoint_indices(pre).len() && endpoint_indices(pre)[k] == p;
                assert(endpoint_indices(lv)[k] == p);
            } else {
                assert(endpoint_indices(lv).last() == p);
            }
        }
        assert forall|k: int| 0 <= k < endpoint_indices(lv).len() implies 0 <= #[trigger] endpoint_indices(lv)[k] < lv.len()
            && is_endpoint(lv[endpoint_indices(lv)[k]]) by {
            if k < endpoint_indices(pre).len() {
                assert(endpoint_indices(lv)[k] == endpoint_indices(pre)[k]);
                assert(pre[endpoint_indices(pre)[k]] == lv[endpoint_indices(pre)[k]]);
            }
        }
    }
}


/// The order of the alternatives holds each endpoint position once, and
/// nothing else.
pub proof fn lemma_route_order(lv: Seq<Seq<Seq<char>>>)
    ensures
        forall|k: int| 0 <= k < route_order(lv).len() ==> 0 <= #[trigger] route_order(lv)[k] < lv.len()
            && is_endpoint(lv[route_order(lv)[k]]),
        forall|p: int| 0 <= p < lv.len() && is_endpoint(#[trigger] lv[p]) ==> route_order(lv).contains(p),
        forall|a: int, b: int|
            0 <= a < b < route_order(lv).len() ==> route_order(lv)[a] != route_order(lv)[b],
{
    lemma_endpoint_indices(lv);
    let ei = endpoint_indices(lv);
    let ord = route_order(lv);
    if ei.len() > 0 {
        assert forall|k: int| 0 <= k < ord.len() implies 0 <= #[trigger] ord[k] < lv.len()
            && is_endpoint(lv[ord[k]]) by {
            if k == 0 {
                assert(ord[0] == ei[ei.len() - 1]);
            } else {
                assert(ord[k] == ei[k - 1]);
            }
        }
        assert forall|p: int| 0 <= p < lv.len() && is_endpoint(#[trigger] lv[p]) implies ord.contains(p) by {
            let k = choose|k: int| 0 <= k < ei.len() && ei[k] == p;
            if k == ei.len() - 1 {
                assert(ord[0] == p);
            } else {
                assert(ord[k + 1] == p);
            }
        }
        assert forall|a: int, b: int| 0 <= a < b < ord.len() implies ord[a] != ord[b] by {
            if a == 0 {
                assert(ord[b] == ei[b - 1]);
                assert(ei[b - 1] < ei[ei.len() - 1]);
            } else {
                assert(ord[a] == ei[a - 1] && ord[b] == ei[b - 1]);
            }
        }
    }
}

/// The module path of a segment path: its segments joined by `::`.
pub fn resolve_import_path(tree: &VecDeque<String>) -> (r: String)
    ensures
        r@ == join_spec(views(tree@), "::"@),
{
    proof {
        reveal_strlit("");
        assert(wrapped(views(tree@), ""@, ""@) =~= views(tree@));
    }
    join_wrapped(tree, "", "", "::")
}

/// Writes the filter of one endpoint.
fn emit_chain(e: &VecDeque<String>, ts: &mut String)
    requires
        e@.len() > 0,
    ensures
        final(ts)@ == old(ts)@ + chain(views(e@)),
{
    let ghost ev = views(e@);
    let ghost t0 = ts@;
    let n = e.len();
    let mut i: usize = 0;
    while i < n - 1
        invariant
            n == e@.len() > 0,
            ev == views(e@),
            i <= n - 1,
            ts@ == t0 + matchers(ev.subrange(0, i as int)),
        decreases n - 1 - i,
    {
        assert(ev.subrange(0, i + 1).drop_last() == ev.subrange(0, i as int));
        ts.append("warp::path(\"");
        ts.append(e[i].as_str());
        ts.append("\").and(");
        assert(ts@ =~= t0 + matchers(ev.subrange(0, i + 1)));
        i = i + 1;
    }
    assert(ev.subrange(0, n - 1) == route_of(ev));
    ts.append("warp::path::end().and(");
    ts.append("routing::");
    let p = resolve_import_path(e);
    ts.append(p.as_str());
    ts.append("::initialize( potion::Context::new(hb.clone(), pool.clone(), &[");
    let q = join_wrapped(e, "\"", "\"", ", ");
    ts.append(q.as_str());
    ts.append("]) )");
    let ghost t1 = ts@;
    assert(t1 =~= t0 + matchers(route_of(ev)) + "warp::path::end().and("@ + initializer(ev));
    let mut c: usize = 0;
    while c < n
        invariant
            c <= n,
            ts@ == t1 + closers(c as nat),
        decreases n - c,
    {
        ts.append(")");
        assert(ts@ =~= t1 + closers((c + 1) as nat));
        c = c + 1;
    }
    assert(ts@ =~= t0 + chain(ev));
}

/// Compiles the segment paths met by the walker into the router function:
/// the endpoints, those that end in `index`, are tried with the one
/// discovered last first and then the others in discovery order; without
/// endpoints the router rejects every request.
pub fn construct_router_tree(l: &Vec<VecDeque<String>>) -> (r: Result<String, BuildError>)
    ensures
        match build_error(path_views(l@)) {
            Some(e) => r == Err::<String, BuildError>(e),
            None => r matches Ok(t) && t@ == dispatch_text(path_views(l@), route_order(path_views(l@))),
        },
{
    let ghost lv = path_views(l@);
    let o = match order_routes(l) {
        Ok(o) => o,
        Err(e) => {
            return Err(e);
        },
    };
    let ghost ord = route_order(lv);
    proof {
        lemma_route_order(lv);
        assert(ord.len() == o@.len());
        assert forall|k: int| 0 <= k < o@.len() implies (#[trigger] o@[k]) < l@.len() && l@[o@[k] as int]@.len() > 0 by {
            assert(ord[k] == o@[k] as int);
            assert(lv[ord[k]] == views(l@[ord[k]]@));
        }
    }
    let mut ts = String::from_str("fn router(hb: Arc<Handlebars<'static>>, pool: Arc<Pool<Postgres>>) -> impl Filter<Extract = (impl warp::Reply,), Error = warp::Rejection> + Clone { ");
    let ghost h = ts@;
    if o.len() == 0 {
        ts.append("warp::any().and_then(|| async { Err::<warp::reply::Html<String>, warp::Rejection>(warp::reject::not_found()) })");
    } else {
        emit_chain(&l[o[0]], &mut ts);
        proof {
            assert(ord[0] == o@[0] as int);
            assert(lv[ord[0]] == views(l@[o@[0] as int]@));
        }
        let ghost rest = ord.drop_first();
        let ghost t1 = ts@;
        assert(rest.subrange(0, 0) =~= Seq::<int>::empty());
        let mut k: usize = 1;
        while k < o.len()
            invariant
                1 <= k <= o@.len() == ord.len(),
                lv == path_views(l@),
                rest == ord.drop_first(),
                forall|j: int| 0 <= j < o@.len() ==> ord[j] == (#[trigger] o@[j]) as int,
                forall|j: int| 0 <= j < o@.len() ==> (#[trigger] o@[j]) < l@.len() && l@[o@[j] as int]@.len() > 0,
                ts@ == t1 + alternatives(lv, rest.subrange(0, k - 1)),
            decreases o@.len() - k,
        {
            ts.append(".or(");
            emit_chain(&l[o[k]], &mut ts);
            ts.append(")");
            proof {
                let pre = rest.subrange(0, k as int);
                assert(pre.drop_last() == rest.subrange(0, k - 1));
                assert(pre.last() == ord[k as int]);
                assert(lv[ord[k as int]] == views(l@[o@[k as int] as int]@));
            }
            assert(ts@ =~= t1 + alternatives(lv, rest.subrange(0, k as int)));
            k = k + 1;
        }
        assert(rest.subrange(0, rest.len() as int) == rest);
    }
    ts.append(" }");
    Ok(ts)
}

/// Whether the route of an endpoint is the request path.
fn route_matches(e: &VecDeque<String>, request: &Vec<String>) -> (r: bool)
    requires
        e@.len() > 0,
    ensures
        r == (route_of(views(e@)) == views(request@)),
{
    let n = e.len() - 1;
    if n != request.len() {
        assert(route_of(views(e@)).len() != views(request@).len());
        return false;
    }
    let mut i: usize = 0;
    while i < n
        invariant
            n == e@.len() - 1 == request@.len(),
            i <= n,
            forall|k: int| 0 <= k < i ==> e@[k]@ == request@[k]@,
        decreases n - i,
    {
        if e[i] != request[i] {
            assert(route_of(views(e@))[i as int] != views(request@)[i as int]);
            return false;
        }
        i = i + 1;
    }
    assert(route_of(views(e@)) =~= views(request@));
    true
}

/// Which endpoint the router compiled from `l` serves for the request path
/// `request` (its segments), as a position in `l`; or the error that the
/// build stops on.
pub fn route_request(l: &Vec<VecDeque<String>>, request: &Vec<String>) -> (r: Result<Option<usize>, BuildError>)
    ensures
        match build_error(path_views(l@)) {
            Some(e) => r == Err::<Option<usize>, BuildError>(e),
            None => r matches Ok(x) && match selected(path_views(l@), views(request@)) {
                Some(k) => x == Some(k as usize),
                None => x is None,
            },
        },
{
    let ghost lv = path_views(l@);
    let ghost req = views(request@);
    let o = match order_routes(l) {
        Ok(o) => o,
        Err(e) => {
            return Err(e);
        },
    };
    let ghost ord = route_order(lv);
    proof {
        lemma_route_order(lv);
        assert forall|j: int| 0 <= j < o@.len() implies ord[j] == (#[trigger] o@[j]) as int by {
            assert(o@.map_values(|k: usize| k as int)[j] == o@[j] as int);
        }
        assert(ord.subrange(0, ord.len() as int) == ord);
    }
    let mut k: usize = 0;
    while k < o.len()
        invariant
            k <= o@.len() == ord.len(),
            lv == path_views(l@),
            ord == route_order(lv),
            build_error(lv) is None,
            req == views(request@),
            forall|j: int| 0 <= j < o@.len() ==> ord[j] == (#[trigger] o@[j]) as int,
            forall|j: int| 0 <= j < ord.len() ==> 0 <= #[trigger] ord[j] < lv.len() && is_endpoint(lv[ord[j]]),
            first_match(lv, ord, req) == first_match(lv, ord.subrange(k as int, ord.len() as int), req),
        decreases o@.len() - k,
    {
        let ghost tail = ord.subrange(k as int, ord.len() as int);
        assert(tail[0] == ord[k as int]);
        assert(tail.drop_first() == ord.subrange(k + 1, ord.len() as int));
        assert(lv[ord[k as int]] == views(l@[o@[k as int] as int]@));
        if route_matches(&l[o[k]], request) {
            assert(first_match(lv, tail, req) == Some(ord[k as int]));
            assert(selected(lv, req) == Some(ord[k as int]));
            assert(ord[k as int] as usize == o@[k as int]);
            return Ok(Some(o[k]));
        }
        assert(first_match(lv, tail, req) == first_match(lv, tail.drop_first(), req));
        k = k + 1;
    }
    assert(ord.subrange(ord.len() as int, ord.len() as int) =~= Seq::<int>::empty());
    Ok(None)
}


proof fn lemma_first_match(lv: Seq<Seq<Seq<char>>>, ord: Seq<int>, req: Seq<Seq<char>>)
    ensures
        first_match(lv, ord, req) matches Some(k) ==> ord.contains(k) && route_of(lv[k]) == req,
        first_match(lv, ord, req) is None ==> forall|j: int|
            0 <= j < ord.len() ==> route_of(lv[#[trigger] ord[j]]) != req,
    decreases ord.len(),
{
    if ord.len() > 0 {
        lemma_first_match(lv, ord.drop_first(), req);
        if route_of(lv[ord[0]]) != req {
            if let Some(k) = first_match(lv, ord, req) {
                let j = choose|j: int| 0 <= j < ord.drop_first().len() && ord.drop_first()[j] == k;
                assert(ord[j + 1] == k);
            }
            assert forall|j: int| 0 <= j < ord.len() && first_match(lv, ord, req) is None implies route_of(
                lv[#[trigger] ord[j]],
            ) != req by {
                if j > 0 {
                    assert(ord[j] == ord.drop_first()[j - 1]);
                }
            }
        } else {
            assert(ord[0] == ord[0]);
        }
    }
}

/// Two endpoints with the same route are the same segment path.
proof fn lemma_route_determines_endpoint(x: Seq<Seq<char>>, y: Seq<Seq<char>>)
    requires
        is_endpoint(x),
        is_endpoint(y),
        route_of(x) == route_of(y),
    ensures
        x == y,
{
    assert(x =~= route_of(x).push(index_word()));
    assert(y =~= route_of(y).push(index_word()));
}

/// A request reaches exactly the endpoint whose route it is, and is
/// rejected when no endpoint has that route, in every build that succeeds.
pub proof fn lemma_dispatch_exact(lv: Seq<Seq<Seq<char>>>, req: Seq<Seq<char>>)
    requires
        build_error(lv) is None,
    ensures
        selected(lv, req) matches Some(k) ==> 0 <= k < lv.len(),
        forall|p: int|
            0 <= p < lv.len() ==> (selected(lv, req) == Some(p) <==> (is_endpoint(#[trigger] lv[p])
                && route_of(lv[p]) == req)),
{
    let ord = route_order(lv);
    let ei = endpoint_indices(lv);
    lemma_route_order(lv);
    lemma_endpoint_indices(lv);
    lemma_first_match(lv, ord, req);
    if let Some(k) = selected(lv, req) {
        let j = choose|j: int| 0 <= j < ord.len() && ord[j] == k;
        assert(ord[j] == k);
    }
    assert forall|p: int| 0 <= p < lv.len() implies (selected(lv, req) == Some(p) <==> (is_endpoint(
        #[trigger] lv[p],
    ) && route_of(lv[p]) == req)) by {
        if selected(lv, req) == Some(p) {
            let j = choose|j: int| 0 <= j < ord.len() && ord[j] == p;
            assert(ord[j] == p);
        }
        if is_endpoint(lv[p]) && route_of(lv[p]) == req {
            let jp = choose|j: int| 0 <= j < ord.len() && ord[j] == p;
            assert(route_of(lv[ord[jp]]) == req);
            let k = selected(lv, req)->0;
            let jk = choose|j: int| 0 <= j < ord.len() && ord[j] == k;
            assert(ord[jk] == k);
            lemma_route_determines_endpoint(lv[p], lv[k]);
            let a = choose|a: int| 0 <= a < ei.len() && ei[a] == p;
            let b = choose|b: int| 0 <= b < ei.len() && ei[b] == k;
            if a < b {
                assert(lv[ei[a]] != lv[ei[b]]);
            } else if b < a {
                assert(lv[ei[b]] != lv[ei[a]]);
            }
        }
    }
}

/// Sibling endpoints `a/b` and `a/c` are each reached by their own path,
/// and a third sibling path `a/d` is rejected.
pub proof fn lemma_sibling_routes(a: Seq<char>, b: Seq<char>, c: Seq<char>, d: Seq<char>)
    requires
        b != c,
        d != b,
        d != c,
    ensures
        ({
            let lv = seq![seq![a, b, index_word()], seq![a, c, index_word()]];
            &&& build_error(lv) is None
            &&& selected(lv, seq![a, b]) == Some(0int)
            &&& selected(lv, seq![a, c]) == Some(1int)
            &&& selected(lv, seq![a, d]) is None
        }),
{
    let x = seq![a, b, index_word()];
    let y = seq![a, c, index_word()];
    let lv = seq![x, y];
    assert(lv.drop_last() =~= seq![x]);
    assert(seq![x].drop_last() =~= Seq::<Seq<Seq<char>>>::empty());
    assert(lv.last() == y && is_endpoint(y));
    assert(seq![x].last() == x && is_endpoint(x));
    assert(endpoint_indices(seq![x].drop_last()) =~= Seq::<int>::empty());
    assert(endpoint_indices(seq![x]) =~= seq![0int]);
    assert(endpoint_indices(lv) =~= seq![0int, 1int]);
    assert(x[1] != y[1]);
    assert(build_error(lv) is None);
    assert(route_of(x) =~= seq![a, b]);
    assert(route_of(y) =~= seq![a, c]);
    lemma_dispatch_exact(lv, seq![a, b]);
    lemma_dispatch_exact(lv, seq![a, c]);
    lemma_dispatch_exact(lv, seq![a, d]);
    assert(seq![a, b][1] != seq![a, c][1]);
    assert(seq![a, d][1] != seq![a, b][1]);
    assert(seq![a, d][1] != seq![a, c][1]);
    assert(lv[0] == x && lv[1] == y);
}

/// The root endpoint alone is reached by the empty request path and by no
/// other.
pub proof fn lemma_root_route(req: Seq<Seq<char>>)
    ensures
        ({
            let lv = seq![seq![index_word()]];
            &&& build_error(lv) is None
            &&& selected(lv, Seq::empty()) == Some(0int)
            &&& req.len() > 0 ==> selected(lv, req) is None
        }),
{
    let x = seq![index_word()];
    let lv = seq![x];
    assert(lv.drop_last() =~= Seq::<Seq<Seq<char>>>::empty());
    assert(lv.last() == x && is_endpoint(x));
    assert(endpoint_indices(lv.drop_last()) =~= Seq::<int>::empty());
    assert(endpoint_indices(lv) =~= seq![0int]);
    assert(build_error(lv) is None);
    assert(route_of(x) =~= Seq::<Seq<char>>::empty());
    assert(lv[0] == x);
    lemma_dispatch_exact(lv, Seq::empty());
    lemma_dispatch_exact(lv, req);
}

/// Without endpoints the router rejects every request: its body is the
/// always-rejecting filter and no request selects anything.
pub proof fn lemma_no_endpoints(lv: Seq<Seq<Seq<char>>>, req: Seq<Seq<char>>)
    requires
        forall|i: int| 0 <= i < lv.len() ==> !is_endpoint(#[trigger] lv[i]),
    ensures
        route_order(lv).len() == 0,
        dispatch_text(lv, route_order(lv)) == header() + reject_all() + " }"@,
        selected(lv, req) is None,
        (forall|i: int| 0 <= i < lv.len() ==> (#[trigger] lv[i]).len() > 0) ==> build_error(lv) is None,
{
    lemma_endpoint_indices(lv);
    if endpoint_indices(lv).len() > 0 {
        assert(is_endpoint(lv[endpoint_indices(lv)[0]]));
    }
}

/// The endpoint discovered last is the base case of the dispatch expression.
pub proof fn lemma_base_case_is_last(lv: Seq<Seq<Seq<char>>>)
    requires
        exists|i: int| 0 <= i < lv.len() && is_endpoint(#[trigger] lv[i]),
    ensures
        ({
            let base = route_order(lv)[0];
            &&& 0 <= base < lv.len()
            &&& is_endpoint(lv[base])
            &&& forall|i: int| base < i < lv.len() ==> !is_endpoint(#[trigger] lv[i])
        }),
{
    lemma_endpoint_indices(lv);
    let ei = endpoint_indices(lv);
    let i0 = choose|i: int| 0 <= i < lv.len() && is_endpoint(#[trigger] lv[i]);
    assert(ei.contains(i0));
    let base = route_order(lv)[0];
    assert(base == ei.last());
    assert forall|i: int| base < i < lv.len() implies !is_endpoint(#[trigger] lv[i]) by {
        if is_endpoint(lv[i]) {
            let k = choose|k: int| 0 <= k < ei.len() && ei[k] == i;
            if k < ei.len() - 1 {
                assert(ei[k] < ei[ei.len() - 1]);
            }
        }
    }
}

/// The order in which the walker discovers the leaves decides the base case
/// only: two builds over the same segment paths send every request to the
/// same segment path.
pub proof fn lemma_discovery_order_irrelevant(l1: Seq<Seq<Seq<char>>>, l2: Seq<Seq<Seq<char>>>, req: Seq<Seq<char>>)
    requires
        build_error(l1) is None,
        build_error(l2) is None,
        l1.to_set() == l2.to_set(),
    ensures
        match selected(l1, req) {
            Some(k) => selected(l2, req) matches Some(j) && l2[j] == l1[k],
            None => selected(l2, req) is None,
        },
{
    lemma_dispatch_exact(l1, req);
    lemma_dispatch_exact(l2, req);
    if let Some(k) = selected(l1, req) {
        assert(is_endpoint(l1[k]) && route_of(l1[k]) == req);
        assert(l1.to_set().contains(l1[k]));
        let j = choose|j: int| 0 <= j < l2.len() && l2[j] == l1[k];
        assert(selected(l2, req) == Some(j));
    } else if let Some(j) = selected(l2, req) {
        assert(is_endpoint(l2[j]) && route_of(l2[j]) == req);
        assert(l2.to_set().contains(l2[j]));
        let k = choose|k: int| 0 <= k < l1.len() && l1[k] == l2[j];
        assert(selected(l1, req) == Some(k));
    }
}

} // verus!
