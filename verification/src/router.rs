//! Choosing the route that serves a request, and the file it names.
use vstd::prelude::*;
use crate::config::{clone_routes, routes_view, RouteConfig, RouteSpec};
use crate::http::{method_name, HttpMethod, HttpRequest};
use crate::text::{
    chars_of, dv, eq_lit, opt_view, split, split_chars, starts_with, string_of, strs,
    trim_start_matches_chars, trim_start_str,
};

verus! {

pub struct Router {
    routes: Vec<RouteConfig>,
}

pub struct RouteMatch {
    pub route: RouteConfig,
    pub file_path: String,
    pub redirect_to: Option<String>,
}

pub enum RouteMatchResult {
    Match(RouteMatch),
    MethodNotAllowed(RouteMatch),
    NotFound,
}

/// What the file system says of the path a route names, as far as routing
/// asks: whether it is a directory, whether the route's index file exists
/// in it, and whether the path exists.
#[derive(Clone, Copy, PartialEq, Eq, Structural, Debug)]
pub struct Probe {
    pub is_dir: bool,
    pub index_exists: bool,
    pub exists: bool,
}

/// The outcome of routing, as values.
pub enum MatchSpec {
    Match(RouteSpec, Seq<char>, Option<Seq<char>>),
    MethodNotAllowed(RouteSpec, Seq<char>, Option<Seq<char>>),
    NotFound,
}

pub open spec fn match_view(r: RouteMatchResult) -> MatchSpec {
    match r {
        RouteMatchResult::Match(m) => MatchSpec::Match(m.route@, m.file_path@, opt_view(m.redirect_to)),
        RouteMatchResult::MethodNotAllowed(m) => MatchSpec::MethodNotAllowed(
            m.route@,
            m.file_path@,
            opt_view(m.redirect_to),
        ),
        RouteMatchResult::NotFound => MatchSpec::NotFound,
    }
}

/// `Path::new(base).join(p)` on Unix: an absolute `p` replaces `base`;
/// otherwise a `/` separates them unless `base` is empty or ends with one.
pub open spec fn join_path(base: Seq<char>, p: Seq<char>) -> Seq<char> {
    if p.len() > 0 && p[0] == '/' {
        p
    } else if base.len() > 0 && base.last() != '/' {
        base.push('/') + p
    } else {
        base + p
    }
}

pub fn join_path_str(base: &str, p: &str) -> (r: String)
    ensures
        r@ == join_path(base@, p@),
{
    let b = chars_of(base);
    let q = chars_of(p);
    let mut out: Vec<char> = Vec::new();
    if q.len() > 0 && q[0] == '/' {
        return string_of(q.as_slice());
    }
    out.extend_from_slice(b.as_slice());
    if b.len() > 0 && b[b.len() - 1] != '/' {
        out.push('/');
    }
    out.extend_from_slice(q.as_slice());
    string_of(out.as_slice())
}

/// What a request path names under a route's root: what remains once
/// every leading copy of the route's path, then every leading `/`, is
/// removed.
pub open spec fn route_rel(r: RouteSpec, path: Seq<char>) -> Seq<char> {
    trim_start_str(trim_start_str(path, r.path), "/"@)
}

/// The file a route names for a request path: the route's root joined
/// with what the path names under it, which never replaces the root.
pub open spec fn route_file(r: RouteSpec, path: Seq<char>) -> Seq<char> {
    join_path(r.root, route_rel(r, path))
}

/// A relative path that climbs out of where it starts: one of its
/// `/`-separated segments is `..`.
pub open spec fn escapes(rel: Seq<char>) -> bool {
    split(rel, "/"@).contains(".."@)
}

/// `route_rel` of a route's path and a request path.
fn rel_of(route_path: &[char], path: &[char]) -> (r: Vec<char>)
    ensures
        r@ == trim_start_str(trim_start_str(path@, route_path@), "/"@),
{
    let rel = trim_start_matches_chars(path, route_path);
    trim_start_matches_chars(rel.as_slice(), chars_of("/").as_slice())
}

/// Whether one of the `/`-separated segments of `rel` is `..`.
fn has_parent_segment(rel: &[char]) -> (r: bool)
    ensures
        r == escapes(rel@),
{
    let slash = chars_of("/");
    proof {
        reveal_strlit("/");
    }
    let parts = split_chars(rel, slash.as_slice());
    let mut i: usize = 0;
    while i < parts.len()
        invariant
            i <= parts@.len(),
            dv(parts@) == split(rel@, "/"@),
            forall|j: int| 0 <= j < i ==> dv(parts@)[j] != ".."@,
        decreases parts@.len() - i,
    {
        if eq_lit(parts[i].as_slice(), "..") {
            assert(dv(parts@)[i as int] == ".."@);
            return true;
        }
        assert(dv(parts@)[i as int] == parts@[i as int]@);
        i = i + 1;
    }
    proof {
        if dv(parts@).contains(".."@) {
            let j = choose|j: int| 0 <= j < dv(parts@).len() && dv(parts@)[j] == ".."@;
            assert(false);
        }
    }
    false
}

pub open spec fn probe_at(probes: Seq<Probe>, i: int) -> Probe {
    if 0 <= i < probes.len() {
        probes[i]
    } else {
        Probe { is_dir: false, index_exists: false, exists: false }
    }
}

/// Routing from the `i`-th route on: the first route whose path starts the
/// request path decides, unless it does not apply to the method or (for
/// `GET`) names nothing to serve, in which case the next one is tried.
pub open spec fn match_from(
    routes: Seq<RouteSpec>,
    path: Seq<char>,
    method: HttpMethod,
    probes: Seq<Probe>,
    i: int,
) -> MatchSpec
    decreases routes.len() - i,
{
    if i < 0 || i >= routes.len() {
        MatchSpec::NotFound
    } else {
        let r = routes[i];
        let next = match_from(routes, path, method, probes, i + 1);
        if !starts_with(path, r.path) {
            next
        } else if r.redirections.contains_key(path) {
            MatchSpec::Match(r, seq![], Some(r.redirections[path]))
        } else if method == HttpMethod::UNSUPPORTED {
            next
        } else if !r.methods.contains(method_name(method)) {
            MatchSpec::MethodNotAllowed(r, seq![], None)
        } else if escapes(route_rel(r, path)) {
            MatchSpec::NotFound
        } else {
            let fp = route_file(r, path);
            let pr = probe_at(probes, i);
            if method == HttpMethod::POST || method == HttpMethod::DELETE {
                MatchSpec::Match(r, fp, None)
            } else if pr.is_dir {
                if r.index is Some && pr.index_exists {
                    MatchSpec::Match(r, join_path(fp, r.index.unwrap()), None)
                } else if r.directory_listing {
                    MatchSpec::Match(r, fp, None)
                } else {
                    next
                }
            } else if pr.exists {
                MatchSpec::Match(r, fp, None)
            } else {
                next
            }
        }
    }
}

/// One question put to the file system: the path asked about, and whether
/// the answer was yes.
pub struct Asked {
    pub path: String,
    pub yes: bool,
}

/// What the file system says of the paths one route names, with the
/// questions asked to learn it, in the order they were asked.
pub struct RouteProbe {
    pub probe: Probe,
    pub answers: Vec<Asked>,
}

/// The index file a route names for a request path, when it has one.
pub open spec fn route_index_file(r: RouteSpec, path: Seq<char>) -> Option<Seq<char>> {
    match r.index {
        Some(ix) => Some(join_path(route_file(r, path), ix)),
        None => None,
    }
}

/// `rp` holds answers about the file `fp` (and, for a directory, the index
/// file `ip`), and its probe says what they say: first whether `fp` is a
/// directory; then, for a directory, whether the index file exists; for
/// anything else, whether `fp` exists.
pub open spec fn probe_answered(rp: RouteProbe, fp: Seq<char>, ip: Option<Seq<char>>) -> bool {
    let a = rp.answers@;
    let pr = rp.probe;
    &&& a.len() >= 1
    &&& a[0].path@ == fp
    &&& pr.is_dir == a[0].yes
    &&& if pr.is_dir {
        &&& !pr.exists
        &&& match ip {
            Some(p) => a.len() == 2 && a[1].path@ == p && pr.index_exists == a[1].yes,
            None => a.len() == 1 && !pr.index_exists,
        }
    } else {
        a.len() == 2 && a[1].path@ == fp && pr.exists == a[1].yes && !pr.index_exists
    }
}

/// One answered probe per route, about the files the routes name for `path`.
pub open spec fn probes_answered(routes: Seq<RouteSpec>, path: Seq<char>, reports: Seq<RouteProbe>) -> bool {
    &&& reports.len() == routes.len()
    &&& forall|i: int| 0 <= i < reports.len() ==> probe_answered(
        #[trigger] reports[i],
        route_file(routes[i], path),
        route_index_file(routes[i], path),
    )
}

/// The probes that a list of reports carries.
pub open spec fn probes_of(reports: Seq<RouteProbe>) -> Seq<Probe> {
    Seq::new(reports.len(), |i: int| reports[i].probe)
}

/// Calls `std::path::Path::is_dir` on `p`. The answer depends on the file
/// system at the time of the call and is not stated; the result records
/// the path asked about.
#[verifier::external_body]
fn path_is_dir(p: &str) -> (r: Asked)
    ensures
        r.path@ == p@,
{
    Asked { path: p.to_string(), yes: std::path::Path::new(p).is_dir() }
}

/// Calls `std::path::Path::exists` on `p`. The answer depends on the file
/// system at the time of the call and is not stated; the result records
/// the path asked about.
#[verifier::external_body]
pub(crate) fn path_exists(p: &str) -> (r: Asked)
    ensures
        r.path@ == p@,
{
    Asked { path: p.to_string(), yes: std::path::Path::new(p).exists() }
}

impl Router {
    pub closed spec fn routes(&self) -> Seq<RouteSpec> {
        routes_view(self.routes@)
    }

    pub fn new(routes: Vec<RouteConfig>) -> (r: Self)
        ensures
            r.routes() == routes_view(routes@),
    {
        Router { routes }
    }

    fn route_at(&self, i: usize) -> (r: &RouteConfig)
        requires
            i < self.routes().len(),
        ensures
            r@ == self.routes()[i as int],
    {
        &self.routes[i]
    }

    fn method_allowed(route: &RouteConfig, name: &String) -> (r: bool)
        ensures
            r == route@.methods.contains(name@),
    {
        let mut i: usize = 0;
        while i < route.methods.len()
            invariant
                i <= route.methods@.len(),
                forall|j: int| 0 <= j < i ==> strs(route.methods@)[j] != name@,
            decreases route.methods@.len() - i,
        {
            if route.methods[i] == *name {
                assert(strs(route.methods@)[i as int] == name@);
                return true;
            }
            i = i + 1;
        }
        false
    }

    /// The redirection that a route declares for exactly this path.
    fn check_redirections(&self, route: &RouteConfig, path: &String) -> (r: Option<String>)
        ensures
            opt_view(r) == (if route@.redirections.contains_key(path@) {
                Some(route@.redirections[path@])
            } else {
                None
            }),
    {
        match route.redirections.get(path) {
            Some(to) => Some(to.clone()),
            None => None,
        }
    }

    /// The paths the file system is asked about for a request: for each
    /// route, the file it names and, when the route has an index file, that
    /// file inside it.
    pub fn probe_paths(&self, request: &HttpRequest) -> (r: Vec<(String, Option<String>)>)
        ensures
            r@.len() == self.routes().len(),
            forall|i: int| 0 <= i < r@.len() ==> (#[trigger] r@[i]).0@ == route_file(self.routes()[i], request.path@)
                && opt_view(r@[i].1) == route_index_file(self.routes()[i], request.path@),
    {
        let mut out: Vec<(String, Option<String>)> = Vec::new();
        let path_c = chars_of(request.path.as_str());
        let mut i: usize = 0;
        while i < self.routes.len()
            invariant
                i <= self.routes@.len(),
                out@.len() == i,
                path_c@ == request.path@,
                forall|j: int| 0 <= j < i ==> (#[trigger] out@[j]).0@ == route_file(self.routes()[j], request.path@)
                    && opt_view(out@[j].1) == route_index_file(self.routes()[j], request.path@),
            decreases self.routes@.len() - i,
        {
            let route = self.route_at(i);
            let prefix = chars_of(route.path.as_str());
            let rel = rel_of(prefix.as_slice(), path_c.as_slice());
            let rel_s = string_of(rel.as_slice());
            let fp = join_path_str(route.root.as_str(), rel_s.as_str());
            let ip = match &route.index {
                Some(ix) => Some(join_path_str(fp.as_str(), ix.as_str())),
                None => None,
            };
            out.push((fp, ip));
            i = i + 1;
        }
        out
    }

    /// Asks the file system what routing needs to know of each route, about
    /// the paths that `probe_paths` names: one report per route, with the
    /// questions asked and the probe they give. What the file system
    /// answers is not stated.
    pub fn probe_routes(&self, request: &HttpRequest) -> (r: Vec<RouteProbe>)
        ensures
            probes_answered(self.routes(), request.path@, r@),
    {
        let paths = self.probe_paths(request);
        let mut out: Vec<RouteProbe> = Vec::new();
        let mut i: usize = 0;
        while i < paths.len()
            invariant
                i <= paths@.len(),
                paths@.len() == self.routes().len(),
                out@.len() == i,
                forall|j: int| 0 <= j < paths@.len() ==> (#[trigger] paths@[j]).0@ == route_file(self.routes()[j], request.path@)
                    && opt_view(paths@[j].1) == route_index_file(self.routes()[j], request.path@),
                forall|j: int| 0 <= j < i ==> probe_answered(
                    #[trigger] out@[j],
                    route_file(self.routes()[j], request.path@),
                    route_index_file(self.routes()[j], request.path@),
                ),
            decreases paths@.len() - i,
        {
            let (fp, ip) = &paths[i];
            let mut answers: Vec<Asked> = Vec::new();
            let dir = path_is_dir(fp.as_str());
            let is_dir = dir.yes;
            answers.push(dir);
            let mut index_exists = false;
            let mut exists = false;
            if is_dir {
                match ip {
                    Some(p) => {
                        let ix = path_exists(p.as_str());
                        index_exists = ix.yes;
                        answers.push(ix);
                    },
                    None => {},
                }
            } else {
                let ex = path_exists(fp.as_str());
                exists = ex.yes;
                answers.push(ex);
            }
            let rp = RouteProbe { probe: Probe { is_dir, index_exists, exists }, answers };
            assert(probe_answered(
                rp,
                route_file(self.routes()[i as int], request.path@),
                route_index_file(self.routes()[i as int], request.path@),
            ));
            out.push(rp);
            i = i + 1;
        }
        out
    }

    /// The probes of a list of reports, in order.
    fn probes_in(reports: &Vec<RouteProbe>) -> (r: Vec<Probe>)
        ensures
            r@ == probes_of(reports@),
    {
        let mut out: Vec<Probe> = Vec::new();
        let mut i: usize = 0;
        while i < reports.len()
            invariant
                i <= reports@.len(),
                out@ == probes_of(reports@).take(i as int),
            decreases reports@.len() - i,
        {
            out.push(reports[i].probe);
            i = i + 1;
            assert(out@ =~= probes_of(reports@).take(i as int));
        }
        assert(out@ =~= probes_of(reports@));
        out
    }

    /// Routing with the file-system facts given: `probes[i]` is what the
    /// file system says of the path that the `i`-th route names.
    pub fn match_route_with(&self, request: &HttpRequest, probes: &Vec<Probe>) -> (r:
        RouteMatchResult)
        ensures
            match_view(r) == match_from(self.routes(), request.path@, request.method, probes@, 0),
    {
        let mut i: usize = 0;
        let path_c = chars_of(request.path.as_str());
        while i < self.routes.len()
            invariant
                i <= self.routes@.len(),
                path_c@ == request.path@,
                match_from(self.routes(), request.path@, request.method, probes@, i as int)
                    == match_from(self.routes(), request.path@, request.method, probes@, 0),
            decreases self.routes@.len() - i,
        {
            let route = self.route_at(i);
            let prefix = chars_of(route.path.as_str());
            if crate::text::has_prefix(path_c.as_slice(), prefix.as_slice()) {
                match self.check_redirections(route, &request.path) {
                    Some(to) => {
                        return RouteMatchResult::Match(
                            RouteMatch {
                                route: route.clone(),
                                file_path: String::new(),
                                redirect_to: Some(to),
                            },
                        );
                    },
                    None => {},
                }
                if request.method != HttpMethod::UNSUPPORTED {
                    let name = request.method.name();
                    if Self::method_allowed(route, &name) {
                        let rel = rel_of(prefix.as_slice(), path_c.as_slice());
                        if has_parent_segment(rel.as_slice()) {
                            return RouteMatchResult::NotFound;
                        }
                        let rel_s = string_of(rel.as_slice());
                        let fp = join_path_str(route.root.as_str(), rel_s.as_str());
                        let pr = if i < probes.len() {
                            probes[i]
                        } else {
                            Probe { is_dir: false, index_exists: false, exists: false }
                        };
                        if request.method == HttpMethod::POST || request.method
                            == HttpMethod::DELETE {
                            return RouteMatchResult::Match(
                                RouteMatch { route: route.clone(), file_path: fp, redirect_to: None },
                            );
                        }
                        if pr.is_dir {
                            match &route.index {
                                Some(ix) => {
                                    if pr.index_exists {
                                        let ip = join_path_str(fp.as_str(), ix.as_str());
                                        return RouteMatchResult::Match(
                                            RouteMatch {
                                                route: route.clone(),
                                                file_path: ip,
                                                redirect_to: None,
                                            },
                                        );
                                    }
                                },
                                None => {},
                            }
                            if route.directory_listing {
                                return RouteMatchResult::Match(
                                    RouteMatch {
                                        route: route.clone(),
                                        file_path: fp,
                                        redirect_to: None,
                                    },
                                );
                            }
                        } else if pr.exists {
                            return RouteMatchResult::Match(
                                RouteMatch { route: route.clone(), file_path: fp, redirect_to: None },
                            );
                        }
                    } else {
                        return RouteMatchResult::MethodNotAllowed(
                            RouteMatch {
                                route: route.clone(),
                                file_path: String::new(),
                                redirect_to: None,
                            },
                        );
                    }
                }
            }
            i = i + 1;
        }
        RouteMatchResult::NotFound
    }

    /// Routes a request, asking the file system whether the path each route
    /// names is a directory, holds the index file, or exists.
    pub fn match_route(&self, request: &HttpRequest) -> (r: RouteMatchResult)
        ensures
            exists|reports: Seq<RouteProbe>|
                #[trigger] probes_answered(self.routes(), request.path@, reports)
                && match_view(r) == match_from(self.routes(), request.path@, request.method, probes_of(reports), 0),
    {
        let reports = self.probe_routes(request);
        let probes = Self::probes_in(&reports);
        let r = self.match_route_with(request, &probes);
        assert(probes_answered(self.routes(), request.path@, reports@));
        r
    }
}

/// What a route's root joined with `rel` is, when `rel` stays under it.
pub open spec fn inside_root(root: Seq<char>, rel: Seq<char>) -> bool {
    !escapes(rel) && !starts_with(rel, "/"@) && starts_with(join_path(root, rel), root)
}

proof fn lemma_route_rel_inside(r: RouteSpec, path: Seq<char>)
    requires
        !escapes(route_rel(r, path)),
    ensures
        inside_root(r.root, route_rel(r, path)),
{
    reveal_strlit("/");
    let t = trim_start_str(path, r.path);
    crate::text::lemma_strip_prefixes_bounds(path, r.path, 0);
    crate::text::lemma_strip_prefixes_bounds(t, "/"@, 0);
    crate::text::lemma_trim_start_str_done(t, "/"@, 0);
    let k = crate::text::strip_prefixes_from(t, "/"@, 0);
    let rel = route_rel(r, path);
    if starts_with(rel, "/"@) {
        assert(rel.subrange(0, 1) =~= t.subrange(k, k + 1));
    }
    if rel.len() > 0 && rel[0] == '/' {
        assert(rel.subrange(0, 1) =~= "/"@);
        assert(rel.subrange(0, 1) =~= t.subrange(k, k + 1));
    }
    assert(!(rel.len() > 0 && rel[0] == '/'));
    let j = join_path(r.root, rel);
    assert(j.len() >= r.root.len());
    assert(j.subrange(0, r.root.len() as int) =~= r.root);
}

proof fn lemma_match_inside(routes: Seq<RouteSpec>, path: Seq<char>, method: HttpMethod, probes: Seq<Probe>, i: int)
    ensures
        match_from(routes, path, method, probes, i) matches MatchSpec::Match(r, fp, None) ==> exists|rel: Seq<char>|
            #[trigger] inside_root(r.root, rel) && (fp == join_path(r.root, rel) || (r.index is Some && fp
                == join_path(join_path(r.root, rel), r.index.unwrap()))),
    decreases routes.len() - i,
{
    if 0 <= i < routes.len() {
        lemma_match_inside(routes, path, method, probes, i + 1);
        let r = routes[i];
        if starts_with(path, r.path) && !r.redirections.contains_key(path) && method != HttpMethod::UNSUPPORTED
            && r.methods.contains(method_name(method)) && !escapes(route_rel(r, path)) {
            lemma_route_rel_inside(r, path);
            let rel = route_rel(r, path);
            assert(inside_root(r.root, rel));
        }
    }
}

/// A file that routing chooses to serve, write or delete lies under the
/// route's root: the root joined with a relative path that has no `..`
/// segment and does not start with `/` (for a directory, followed by the
/// route's index file). Whatever the file system answers.
pub proof fn law_routed_path_inside_root(routes: Seq<RouteSpec>, path: Seq<char>, method: HttpMethod, probes: Seq<Probe>)
    ensures
        match_from(routes, path, method, probes, 0) matches MatchSpec::Match(r, fp, None) ==> exists|rel: Seq<char>|
            #[trigger] inside_root(r.root, rel) && (fp == join_path(r.root, rel) || (r.index is Some && fp
                == join_path(join_path(r.root, rel), r.index.unwrap()))),
{
    lemma_match_inside(routes, path, method, probes, 0);
}

/// A request path that climbs out of a route's root with `..` is not
/// served by that route: routing answers `NotFound` there.
pub proof fn law_parent_segment_not_found(routes: Seq<RouteSpec>, path: Seq<char>, method: HttpMethod, probes: Seq<Probe>, i: int)
    requires
        0 <= i < routes.len(),
        starts_with(path, routes[i].path),
        !routes[i].redirections.contains_key(path),
        method != HttpMethod::UNSUPPORTED,
        routes[i].methods.contains(method_name(method)),
        escapes(route_rel(routes[i], path)),
    ensures
        match_from(routes, path, method, probes, i) == MatchSpec::NotFound,
{
}

proof fn lemma_skip_unprefixed(routes: Seq<RouteSpec>, path: Seq<char>, method: HttpMethod, probes: Seq<Probe>, j: int, i: int)
    requires
        0 <= j <= i < routes.len(),
        forall|k: int| 0 <= k < i ==> !starts_with(path, #[trigger] routes[k].path),
    ensures
        match_from(routes, path, method, probes, j) == match_from(routes, path, method, probes, i),
    decreases i - j,
{
    if j < i {
        lemma_skip_unprefixed(routes, path, method, probes, j + 1, i);
    }
}

/// A `GET` whose path reaches, through the first route that starts it, a
/// directory holding that route's index file is answered with the index
/// file (the route's root joined with the path under it, then the index
/// file's name), whether or not the route lists directories. Without an
/// index file there, a route that lists directories answers with the
/// directory itself.
pub proof fn law_index_file_served(routes: Seq<RouteSpec>, path: Seq<char>, probes: Seq<Probe>, i: int)
    requires
        0 <= i < routes.len(),
        forall|k: int| 0 <= k < i ==> !starts_with(path, #[trigger] routes[k].path),
        starts_with(path, routes[i].path),
        !routes[i].redirections.contains_key(path),
        routes[i].methods.contains("GET"@),
        !escapes(route_rel(routes[i], path)),
        probe_at(probes, i).is_dir,
    ensures
        routes[i].index is Some && probe_at(probes, i).index_exists ==> match_from(
            routes,
            path,
            HttpMethod::GET,
            probes,
            0,
        ) == MatchSpec::Match(
            routes[i],
            join_path(join_path(routes[i].root, route_rel(routes[i], path)), routes[i].index.unwrap()),
            None,
        ),
        !(routes[i].index is Some && probe_at(probes, i).index_exists) && routes[i].directory_listing
            ==> match_from(routes, path, HttpMethod::GET, probes, 0) == MatchSpec::Match(
            routes[i],
            join_path(routes[i].root, route_rel(routes[i], path)),
            None,
        ),
{
    lemma_skip_unprefixed(routes, path, HttpMethod::GET, probes, 0, i);
}

} // verus!
