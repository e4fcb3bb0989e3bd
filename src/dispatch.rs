use vstd::prelude::*;

use crate::http_request::{parse_request, HttpRequest};
use crate::http_utils::{HttpVerb, ParseError};

verus! {

/// What to do with one connection's request.
#[derive(Debug)]
pub enum Dispatch {
    /// The request could not be read: answer 400.
    BadRequest(ParseError),
    /// No route has this verb and path: answer 404.
    NotFound(HttpRequest),
    /// Run the handler of the route at this index on the request.
    Handle(usize, HttpRequest),
}

/// Each route as its verb and the text of its path.
pub open spec fn route_views(routes: Seq<(HttpVerb, String)>) -> Seq<(HttpVerb, Seq<char>)> {
    routes.map_values(|r: (HttpVerb, String)| (r.0, r.1@))
}

/// The first route at or after `i` whose verb and path are exactly `verb` and `path`.
pub open spec fn first_route(routes: Seq<(HttpVerb, Seq<char>)>, verb: HttpVerb, path: Seq<char>, i: int) -> Option<int>
    decreases routes.len() - i,
{
    if i < 0 || i >= routes.len() {
        None
    } else if routes[i].0 == verb && routes[i].1 == path {
        Some(i)
    } else {
        first_route(routes, verb, path, i + 1)
    }
}

/// The index of the first route for `verb` and `path`: an exact match of both,
/// with no patterns or wildcards.
pub fn find_route(routes: &Vec<(HttpVerb, String)>, verb: HttpVerb, path: &String) -> (r: Option<usize>)
    ensures
        match first_route(route_views(routes@), verb, path@, 0) {
            Some(i) => r is Some && r->0 == i,
            None => r is None,
        },
{
    let ghost views = route_views(routes@);
    let mut i: usize = 0;
    while i < routes.len()
        invariant
            i <= routes@.len(),
            views == route_views(routes@),
            first_route(views, verb, path@, 0) == first_route(views, verb, path@, i as int),
        decreases routes@.len() - i,
    {
        if routes[i].0 == verb && routes[i].1 == *path {
            return Some(i);
        }
        i = i + 1;
    }
    None
}

/// Decides how to answer the request held in `input`: 400 where it cannot be
/// read, 404 where no route matches its verb and path, and otherwise the
/// handler of the first matching route.
pub fn dispatch(input: &[u8], routes: &Vec<(HttpVerb, String)>) -> (r: Dispatch)
    ensures
        match parse_request(input@) {
            Err(e) => r == Dispatch::BadRequest(e),
            Ok(v) => match first_route(route_views(routes@), v.verb, v.path, 0) {
                None => r is NotFound && r->NotFound_0@ == v,
                Some(i) => r is Handle && r->Handle_0 == i && r->Handle_1@ == v,
            },
        },
{
    match HttpRequest::build(input) {
        Err(e) => Dispatch::BadRequest(e),
        Ok(request) => {
            match find_route(routes, request.verb, &request.path) {
                None => Dispatch::NotFound(request),
                Some(i) => Dispatch::Handle(i, request),
            }
        },
    }
}

} // verus!
