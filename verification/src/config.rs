//! The configuration file: `key: value` lines that open server blocks
//! (`server:`) and, inside them, route blocks (`route:`).
use vstd::prelude::*;
use std::collections::HashMap;
use std::collections::HashSet;
use crate::strmap::StrMap;
use crate::text::{
    chars_of, clone_opt_string, clone_strings, decimal, decimal_chars, dv, eq_lit, lines,
    lines_of, lower_chars, lowercase, opt_view, parse_unsigned, parse_unsigned_chars, split_once,
    split_once_chars, starts_with, string_of, strs, trim, trim_chars, words, words_of,
};

verus! {

broadcast use vstd::std_specs::hash::group_hash_axioms;

pub struct RouteConfig {
    pub path: String,
    pub methods: Vec<String>,
    pub root: String,
    pub index: Option<String>,
    pub cgi_extensions: StrMap,
    pub directory_listing: bool,
    pub redirections: StrMap,
    pub protected: bool,
}

/// What a route holds, as values.
pub struct RouteSpec {
    pub path: Seq<char>,
    pub methods: Seq<Seq<char>>,
    pub root: Seq<char>,
    pub index: Option<Seq<char>>,
    pub cgi_extensions: Map<Seq<char>, Seq<char>>,
    pub directory_listing: bool,
    pub redirections: Map<Seq<char>, Seq<char>>,
    pub protected: bool,
}

impl View for RouteConfig {
    type V = RouteSpec;

    open spec fn view(&self) -> RouteSpec {
        RouteSpec {
            path: self.path@,
            methods: strs(self.methods@),
            root: self.root@,
            index: opt_view(self.index),
            cgi_extensions: self.cgi_extensions@,
            directory_listing: self.directory_listing,
            redirections: self.redirections@,
            protected: self.protected,
        }
    }
}

impl Clone for RouteConfig {
    fn clone(&self) -> (r: Self)
        ensures
            r@ == self@,
    {
        RouteConfig {
            path: self.path.clone(),
            methods: clone_strings(&self.methods),
            root: self.root.clone(),
            index: clone_opt_string(&self.index),
            cgi_extensions: self.cgi_extensions.clone(),
            directory_listing: self.directory_listing,
            redirections: self.redirections.clone(),
            protected: self.protected,
        }
    }
}

/// A copy of a list of routes.
pub fn clone_routes(v: &Vec<RouteConfig>) -> (r: Vec<RouteConfig>)
    ensures
        routes_view(r@) == routes_view(v@),
{
    let mut out: Vec<RouteConfig> = Vec::new();
    let mut i: usize = 0;
    while i < v.len()
        invariant
            i <= v@.len(),
            routes_view(out@) == routes_view(v@).take(i as int),
        decreases v@.len() - i,
    {
        let c = v[i].clone();
        assert(routes_view(out@.push(c)) =~= routes_view(out@).push(c@));
        assert(routes_view(v@).take(i + 1) =~= routes_view(v@).take(i as int).push(v@[i as int]@));
        out.push(c);
        i = i + 1;
    }
    assert(routes_view(v@).take(v@.len() as int) =~= routes_view(v@));
    out
}

pub open spec fn routes_view(v: Seq<RouteConfig>) -> Seq<RouteSpec> {
    v.map_values(|r: RouteConfig| r@)
}

/// A virtual server. `host` is the address text as the file writes it.
pub struct ServerConfig {
    pub id: String,
    pub host: String,
    pub ports: Vec<u16>,
    pub server_names: Vec<String>,
    pub error_pages: HashMap<u16, String>,
    pub client_max_body_size: usize,
    pub routes: Vec<RouteConfig>,
}

/// What a virtual server holds, as values.
pub struct ServerSpec {
    pub id: Seq<char>,
    pub host: Seq<char>,
    pub ports: Seq<u16>,
    pub server_names: Seq<Seq<char>>,
    pub error_pages: Map<u16, Seq<char>>,
    pub client_max_body_size: usize,
    pub routes: Seq<RouteSpec>,
}

pub open spec fn pages_view(m: Map<u16, String>) -> Map<u16, Seq<char>> {
    m.map_values(|s: String| s@)
}

impl View for ServerConfig {
    type V = ServerSpec;

    open spec fn view(&self) -> ServerSpec {
        ServerSpec {
            id: self.id@,
            host: self.host@,
            ports: self.ports@,
            server_names: strs(self.server_names@),
            error_pages: pages_view(self.error_pages@),
            client_max_body_size: self.client_max_body_size,
            routes: routes_view(self.routes@),
        }
    }
}

pub open spec fn servers_view(v: Seq<ServerConfig>) -> Seq<ServerSpec> {
    v.map_values(|c: ServerConfig| c@)
}

/// Why a configuration is refused.
#[derive(Debug, PartialEq, Eq, Structural, Clone, Copy)]
pub enum ConfigError {
    /// A `port` value that is not a `u16`.
    InvalidPort,
    /// An `error_page` status code that is not a `u16`.
    InvalidErrorCode,
    /// A `client_max_body_size` value that is not a `usize`.
    InvalidBodySize,
    /// A `host` value that is not an IP address.
    InvalidHost,
    /// No `server` block.
    NoServers,
    /// A port that two server blocks, or one block twice, listen on.
    DuplicatePort(u16),
}

/// The text shown for a configuration error.
pub open spec fn config_error_text(e: ConfigError) -> Seq<char> {
    match e {
        ConfigError::InvalidPort => "invalid port value"@,
        ConfigError::InvalidErrorCode => "invalid error page status code"@,
        ConfigError::InvalidBodySize => "invalid client_max_body_size value"@,
        ConfigError::InvalidHost => "invalid IP address syntax"@,
        ConfigError::NoServers => "No valid server configurations found in the file"@,
        ConfigError::DuplicatePort(p) => "Port "@ + decimal(p as nat) + " is configured multiple times"@,
    }
}

impl ConfigError {
    pub fn message(&self) -> (r: String)
        ensures
            r@ == config_error_text(*self),
    {
        match self {
            ConfigError::InvalidPort => String::from_str("invalid port value"),
            ConfigError::InvalidErrorCode => String::from_str("invalid error page status code"),
            ConfigError::InvalidBodySize => String::from_str("invalid client_max_body_size value"),
            ConfigError::InvalidHost => String::from_str("invalid IP address syntax"),
            ConfigError::NoServers => String::from_str(
                "No valid server configurations found in the file",
            ),
            ConfigError::DuplicatePort(p) => {
                let mut s = String::from_str("Port ");
                let d = decimal_chars(*p as usize);
                s.append(string_of(d.as_slice()).as_str());
                s.append(" is configured multiple times");
                s
            },
        }
    }
}

// ---------------------------------------------------------------------
// The parser as a fold over lines
// ---------------------------------------------------------------------
/// Where parsing stands after some lines: the finished servers, the open
/// server block and the open route block.
pub struct ParseState {
    pub done: Seq<ServerSpec>,
    pub current: Option<ServerSpec>,
    pub route: Option<RouteSpec>,
}

pub open spec fn initial_state() -> ParseState {
    ParseState { done: seq![], current: None, route: None }
}

pub open spec fn new_route(path: Seq<char>) -> RouteSpec {
    RouteSpec {
        path,
        methods: seq![],
        root: seq![],
        index: None,
        cgi_extensions: Map::empty(),
        directory_listing: false,
        redirections: Map::empty(),
        protected: false,
    }
}

/// A server block opened by `server: name` as the `index`-th block.
pub open spec fn new_server(index: nat, name: Seq<char>) -> ServerSpec {
    ServerSpec {
        id: "server_"@ + decimal(index),
        host: "0.0.0.0"@,
        ports: seq![],
        server_names: seq![name],
        error_pages: Map::empty(),
        client_max_body_size: 1000000,
        routes: seq![],
    }
}

/// `c` with `r` added to its routes, when there is one.
pub open spec fn with_route(c: ServerSpec, r: Option<RouteSpec>) -> ServerSpec {
    match r {
        Some(route) => ServerSpec { routes: c.routes.push(route), ..c },
        None => c,
    }
}

/// Closes the open server block, if any, with the open route in it.
pub open spec fn close_server(st: ParseState) -> ParseState {
    match st.current {
        Some(c) => ParseState { done: st.done.push(with_route(c, st.route)), current: None, route: None, ..st },
        None => st,
    }
}

/// The keys that open a server block: `server`, and `server_name` as the
/// documented configurations write it.
pub open spec fn opens_server(key: Seq<char>) -> bool {
    key == "server"@ || key == "server_name"@
}

/// What one line does to the state of the parser; `bad_hosts` are the
/// `host` values that are not IP addresses.
pub open spec fn config_step(st: ParseState, raw: Seq<char>, bad_hosts: Seq<Seq<char>>) -> Result<ParseState, ConfigError> {
    let line = trim(raw);
    let parts = split_once(line, ":"@);
    if line.len() == 0 || starts_with(line, "#"@) || parts.len() != 2 {
        Ok(st)
    } else {
        let key = trim(parts[0]);
        let value = trim(parts[1]);
        if opens_server(key) {
            let closed = close_server(st);
            Ok(ParseState { current: Some(new_server(closed.done.len(), value)), ..closed })
        } else if key == "host"@ {
            match st.current {
                Some(c) => if bad_hosts.contains(value) {
                    Err(ConfigError::InvalidHost)
                } else {
                    Ok(ParseState { current: Some(ServerSpec { host: value, ..c }), ..st })
                },
                None => Ok(st),
            }
        } else if key == "port"@ {
            match st.current {
                Some(c) => match parse_unsigned(value, 10, 65535) {
                    Some(p) => Ok(
                        ParseState {
                            current: Some(ServerSpec { ports: c.ports.push(p as u16), ..c }),
                            ..st
                        },
                    ),
                    None => Err(ConfigError::InvalidPort),
                },
                None => Ok(st),
            }
        } else if key == "error_page"@ {
            match st.current {
                Some(c) => {
                    let ep = split_once(value, " "@);
                    if ep.len() == 2 {
                        match parse_unsigned(ep[0], 10, 65535) {
                            Some(code) => Ok(
                                ParseState {
                                    current: Some(
                                        ServerSpec {
                                            error_pages: c.error_pages.insert(code as u16, ep[1]),
                                            ..c
                                        },
                                    ),
                                    ..st
                                },
                            ),
                            None => Err(ConfigError::InvalidErrorCode),
                        }
                    } else {
                        Ok(st)
                    }
                },
                None => Ok(st),
            }
        } else if key == "client_max_body_size"@ {
            match st.current {
                Some(c) => match parse_unsigned(value, 10, usize::MAX as nat) {
                    Some(n) => Ok(
                        ParseState {
                            current: Some(ServerSpec { client_max_body_size: n as usize, ..c }),
                            ..st
                        },
                    ),
                    None => Err(ConfigError::InvalidBodySize),
                },
                None => Ok(st),
            }
        } else if key == "route"@ {
            let current = match (st.current, st.route) {
                (Some(c), Some(r)) => Some(ServerSpec { routes: c.routes.push(r), ..c }),
                _ => st.current,
            };
            Ok(ParseState { current, route: Some(new_route(value)), ..st })
        } else {
            match st.route {
                Some(r) => Ok(ParseState { route: Some(route_step(r, key, value)), ..st }),
                None => Ok(st),
            }
        }
    }
}

/// What a line of a route block does to the open route.
pub open spec fn route_step(r: RouteSpec, key: Seq<char>, value: Seq<char>) -> RouteSpec {
    if key == "methods"@ {
        RouteSpec { methods: words(value), ..r }
    } else if key == "root"@ {
        RouteSpec { root: value, ..r }
    } else if key == "index"@ {
        RouteSpec { index: Some(value), ..r }
    } else if key == "cgi"@ {
        let parts = split_once(value, " "@);
        if parts.len() == 2 {
            RouteSpec { cgi_extensions: r.cgi_extensions.insert(parts[0], parts[1]), ..r }
        } else {
            r
        }
    } else if key == "protected"@ {
        RouteSpec { protected: lowercase(value) == "true"@, ..r }
    } else if key == "directory_listing"@ {
        RouteSpec { directory_listing: lowercase(value) == "on"@, ..r }
    } else if key == "redirect"@ {
        let parts = split_once(value, " "@);
        if parts.len() == 2 {
            RouteSpec { redirections: r.redirections.insert(parts[0], parts[1]), ..r }
        } else {
            r
        }
    } else {
        r
    }
}

/// The state after the lines `ls`, or the first error they hold.
pub open spec fn parse_lines(ls: Seq<Seq<char>>, bad_hosts: Seq<Seq<char>>) -> Result<ParseState, ConfigError>
    decreases ls.len(),
{
    if ls.len() == 0 {
        Ok(initial_state())
    } else {
        match parse_lines(ls.drop_last(), bad_hosts) {
            Ok(st) => config_step(st, ls.last(), bad_hosts),
            Err(e) => Err(e),
        }
    }
}

/// What parsing the text `content` yields: the server blocks, or the first
/// error.
pub open spec fn parse_config(content: Seq<char>, bad_hosts: Seq<Seq<char>>) -> Result<Seq<ServerSpec>, ConfigError> {
    match parse_lines(lines(content), bad_hosts) {
        Ok(st) => Ok(close_server(st).done),
        Err(e) => Err(e),
    }
}

/// The key and value of a configuration line, when it has them.
pub open spec fn key_value(raw: Seq<char>) -> Option<(Seq<char>, Seq<char>)> {
    let line = trim(raw);
    let parts = split_once(line, ":"@);
    if line.len() == 0 || starts_with(line, "#"@) || parts.len() != 2 {
        None
    } else {
        Some((trim(parts[0]), trim(parts[1])))
    }
}

/// Whether `IpAddr`'s parser (`<IpAddr as FromStr>::from_str`) reads the
/// text as an IPv4 or IPv6 address.
pub uninterp spec fn ip_addr_text(s: Seq<char>) -> bool;

/// Calls `s.parse::<IpAddr>()` (the address type of `core::net`, which
/// `std::net` re-exports) and tells whether it succeeded; the answer is
/// named `ip_addr_text` of the text.
#[verifier::external_body]
fn is_ip_addr(s: &str) -> (r: bool)
    ensures
        r == ip_addr_text(s@),
{
    s.parse::<core::net::IpAddr>().is_ok()
}

/// For each host value, whether it is an IP address.
pub open spec fn ip_verdicts(hosts: Seq<Seq<char>>) -> Seq<bool> {
    Seq::new(hosts.len(), |i: int| ip_addr_text(hosts[i]))
}

/// The host values that are not IP addresses, in order.
pub open spec fn invalid_hosts(hosts: Seq<Seq<char>>) -> Seq<Seq<char>> {
    refused_hosts(hosts, ip_verdicts(hosts))
}

/// The host values that are refused: those whose verdict in `is_ip` (by
/// position) is missing or false, in order.
pub open spec fn refused_hosts(hosts: Seq<Seq<char>>, is_ip: Seq<bool>) -> Seq<Seq<char>>
    decreases hosts.len(),
{
    if hosts.len() == 0 {
        seq![]
    } else {
        let rest = refused_hosts(hosts.drop_last(), is_ip);
        let k = hosts.len() - 1;
        if k < is_ip.len() && is_ip[k] {
            rest
        } else {
            rest.push(hosts.last())
        }
    }
}

/// The `host` values written after the first `server` line, in order.
pub open spec fn host_values_of(ls: Seq<Seq<char>>) -> (bool, Seq<Seq<char>>)
    decreases ls.len(),
{
    if ls.len() == 0 {
        (false, seq![])
    } else {
        let (in_server, hosts) = host_values_of(ls.drop_last());
        match key_value(ls.last()) {
            Some((k, v)) => if opens_server(k) {
                (true, hosts)
            } else if k == "host"@ && in_server {
                (true, hosts.push(v))
            } else {
                (in_server, hosts)
            },
            None => (in_server, hosts),
        }
    }
}


pub open spec fn opt_server_view(o: Option<ServerConfig>) -> Option<ServerSpec> {
    match o {
        Some(c) => Some(c@),
        None => None,
    }
}

pub open spec fn opt_route_view(o: Option<RouteConfig>) -> Option<RouteSpec> {
    match o {
        Some(r) => Some(r@),
        None => None,
    }
}

/// The parser's state as values of the library's types.
struct ConfigBuilder {
    done: Vec<ServerConfig>,
    current: Option<ServerConfig>,
    route: Option<RouteConfig>,
}

impl ConfigBuilder {
    spec fn state(&self) -> ParseState {
        ParseState {
            done: servers_view(self.done@),
            current: opt_server_view(self.current),
            route: opt_route_view(self.route),
        }
    }

    fn close_server(&mut self)
        ensures
            final(self).state() == close_server(old(self).state()),
    {
        match self.current.take() {
            Some(mut c) => {
                let ghost c0 = c@;
                match self.route.take() {
                    Some(r) => {
                        assert(routes_view(c.routes@.push(r)) =~= routes_view(c.routes@).push(r@));
                        c.routes.push(r);
                    },
                    None => {},
                }
                assert(c@ == with_route(c0, old(self).state().route));
                assert(servers_view(self.done@.push(c)) =~= servers_view(self.done@).push(c@));
                self.done.push(c);
            },
            None => {},
        }
    }

    /// Applies one line of the file.
    fn apply_line(&mut self, raw: &[char], bad_hosts: &Vec<String>) -> (r: Result<(), ConfigError>)
        ensures
            match config_step(old(self).state(), raw@, strs(bad_hosts@)) {
                Ok(st) => r is Ok && final(self).state() == st,
                Err(e) => r == Err::<(), ConfigError>(e),
            },
    {
        let line = trim_chars(raw);
        let colon = vec![':'];
        let hash = vec!['#'];
        let space = vec![' '];
        proof {
            reveal_strlit(":");
            reveal_strlit("#");
            reveal_strlit(" ");
            assert(colon@ =~= ":"@);
            assert(hash@ =~= "#"@);
            assert(space@ =~= " "@);
        }
        let parts = split_once_chars(line.as_slice(), colon.as_slice());
        if line.len() == 0 || crate::text::has_prefix(line.as_slice(), hash.as_slice()) || parts.len()
            != 2 {
            return Ok(());
        }
        let key = trim_chars(parts[0].as_slice());
        let value = trim_chars(parts[1].as_slice());
        if eq_lit(key.as_slice(), "server") || eq_lit(key.as_slice(), "server_name") {
            self.close_server();
            let name = string_of(value.as_slice());
            let idx = decimal_chars(self.done.len());
            let mut id = String::from_str("server_");
            id.append(string_of(idx.as_slice()).as_str());
            let mut names: Vec<String> = Vec::new();
            names.push(name);
            let c = ServerConfig {
                id,
                host: String::from_str("0.0.0.0"),
                ports: Vec::new(),
                server_names: names,
                error_pages: HashMap::new(),
                client_max_body_size: 1000000,
                routes: Vec::new(),
            };
            proof {
                assert(strs(names@) =~= seq![value@]);
                assert(routes_view(c.routes@) =~= Seq::<RouteSpec>::empty());
                assert(pages_view(c.error_pages@) =~= Map::<u16, Seq<char>>::empty());
                assert(c@ == new_server(self.done@.len() as nat, value@));
            }
            self.current = Some(c);
            Ok(())
        } else if eq_lit(key.as_slice(), "host") {
            match self.current.take() {
                Some(mut c) => {
                    if contains_string(bad_hosts, value.as_slice()) {
                        return Err(ConfigError::InvalidHost);
                    }
                    c.host = string_of(value.as_slice());
                    self.current = Some(c);
                },
                None => {},
            }
            Ok(())
        } else if eq_lit(key.as_slice(), "port") {
            match self.current.take() {
                Some(mut c) => {
                    match parse_unsigned_chars(value.as_slice(), 10, 65535) {
                        Some(p) => {
                            c.ports.push(p as u16);
                            self.current = Some(c);
                            Ok(())
                        },
                        None => Err(ConfigError::InvalidPort),
                    }
                },
                None => Ok(()),
            }
        } else if eq_lit(key.as_slice(), "error_page") {
            match self.current.take() {
                Some(mut c) => {
                    let ep = split_once_chars(value.as_slice(), space.as_slice());
                    if ep.len() == 2 {
                        match parse_unsigned_chars(ep[0].as_slice(), 10, 65535) {
                            Some(code) => {
                                let page = string_of(ep[1].as_slice());
                                let ghost before = c.error_pages@;
                                c.error_pages.insert(code as u16, page);
                                assert(pages_view(c.error_pages@) =~= pages_view(before).insert(
                                    code as u16,
                                    ep@[1]@,
                                ));
                                self.current = Some(c);
                                Ok(())
                            },
                            None => Err(ConfigError::InvalidErrorCode),
                        }
                    } else {
                        self.current = Some(c);
                        Ok(())
                    }
                },
                None => Ok(()),
            }
        } else if eq_lit(key.as_slice(), "client_max_body_size") {
            match self.current.take() {
                Some(mut c) => {
                    match parse_unsigned_chars(value.as_slice(), 10, usize::MAX) {
                        Some(n) => {
                            c.client_max_body_size = n;
                            self.current = Some(c);
                            Ok(())
                        },
                        None => Err(ConfigError::InvalidBodySize),
                    }
                },
                None => Ok(()),
            }
        } else if eq_lit(key.as_slice(), "route") {
            match self.route.take() {
                Some(r) => {
                    match self.current.take() {
                        Some(mut c) => {
                            assert(routes_view(c.routes@.push(r)) =~= routes_view(c.routes@).push(
                                r@,
                            ));
                            c.routes.push(r);
                            self.current = Some(c);
                        },
                        None => {},
                    }
                },
                None => {},
            }
            let nr = RouteConfig {
                path: string_of(value.as_slice()),
                methods: Vec::new(),
                root: String::new(),
                index: None,
                cgi_extensions: StrMap::new(),
                directory_listing: false,
                redirections: StrMap::new(),
                protected: false,
            };
            assert(strs(nr.methods@) =~= Seq::<Seq<char>>::empty());
            assert(nr@ == new_route(value@));
            self.route = Some(nr);
            Ok(())
        } else {
            match self.route.take() {
                Some(mut r) => {
                    Self::apply_route_line(&mut r, key.as_slice(), value.as_slice());
                    self.route = Some(r);
                },
                None => {},
            }
            Ok(())
        }
    }

    fn apply_route_line(r: &mut RouteConfig, key: &[char], value: &[char])
        ensures
            final(r)@ == route_step(old(r)@, key@, value@),
    {
        let space = vec![' '];
        proof {
            reveal_strlit(" ");
            assert(space@ =~= " "@);
        }
        if eq_lit(key, "methods") {
            let ws = words_of(value);
            let mut ms: Vec<String> = Vec::new();
            let mut i: usize = 0;
            while i < ws.len()
                invariant
                    i <= ws@.len(),
                    strs(ms@) == dv(ws@).take(i as int),
                decreases ws@.len() - i,
            {
                let s = string_of(ws[i].as_slice());
                assert(strs(ms@.push(s)) =~= strs(ms@).push(s@));
                assert(dv(ws@).take(i + 1) =~= dv(ws@).take(i as int).push(ws@[i as int]@));
                ms.push(s);
                i = i + 1;
            }
            assert(dv(ws@).take(ws@.len() as int) =~= dv(ws@));
            r.methods = ms;
        } else if eq_lit(key, "root") {
            r.root = string_of(value);
        } else if eq_lit(key, "index") {
            r.index = Some(string_of(value));
        } else if eq_lit(key, "cgi") {
            let parts = split_once_chars(value, space.as_slice());
            if parts.len() == 2 {
                r.cgi_extensions.insert(
                    string_of(parts[0].as_slice()),
                    string_of(parts[1].as_slice()),
                );
            }
        } else if eq_lit(key, "protected") {
            let low = lower_chars(value);
            r.protected = eq_lit(low.as_slice(), "true");
        } else if eq_lit(key, "directory_listing") {
            let low = lower_chars(value);
            r.directory_listing = eq_lit(low.as_slice(), "on");
        } else if eq_lit(key, "redirect") {
            let parts = split_once_chars(value, space.as_slice());
            if parts.len() == 2 {
                r.redirections.insert(string_of(parts[0].as_slice()), string_of(parts[1].as_slice()));
            }
        }
    }
}

impl ServerConfig {
    /// Parses the text of a configuration file into its server blocks, in
    /// the order of the file, given the `host` values that are not IP
    /// addresses (`bad_hosts`): such a value, in a server block, is refused.
    pub fn parse_with_bad_hosts(content: &str, bad_hosts: &Vec<String>) -> (r: Result<Vec<ServerConfig>, ConfigError>)
        ensures
            match r {
                Ok(cfgs) => parse_config(content@, strs(bad_hosts@)) == Ok::<Seq<ServerSpec>, ConfigError>(
                    servers_view(cfgs@),
                ),
                Err(e) => parse_config(content@, strs(bad_hosts@)) == Err::<Seq<ServerSpec>, ConfigError>(e),
            },
    {
        let text = chars_of(content);
        let ls = lines_of(text.as_slice());
        let ghost lsv = dv(ls@);
        let ghost bad = strs(bad_hosts@);
        let mut b = ConfigBuilder { done: Vec::new(), current: None, route: None };
        proof {
            assert(servers_view(b.done@) =~= Seq::<ServerSpec>::empty());
            assert(lsv.take(0) =~= Seq::<Seq<char>>::empty());
        }
        let mut i: usize = 0;
        while i < ls.len()
            invariant
                i <= ls@.len(),
                lsv == dv(ls@),
                lsv == lines(content@),
                bad == strs(bad_hosts@),
                parse_lines(lsv.take(i as int), bad) == Ok::<ParseState, ConfigError>(b.state()),
            decreases ls@.len() - i,
        {
            assert(lsv.take(i + 1).drop_last() =~= lsv.take(i as int));
            assert(lsv.take(i + 1).last() == ls@[i as int]@);
            let ghost before = b.state();
            match b.apply_line(ls[i].as_slice(), bad_hosts) {
                Ok(()) => {},
                Err(e) => {
                    proof {
                        assert(config_step(before, ls@[i as int]@, bad) == Err::<ParseState, ConfigError>(e));
                        assert(parse_lines(lsv.take(i + 1), bad) == Err::<ParseState, ConfigError>(e));
                        lemma_parse_lines_error(lsv, bad, i as int + 1);
                    }
                    return Err(e);
                },
            }
            i = i + 1;
        }
        assert(lsv.take(i as int) =~= lsv);
        b.close_server();
        Ok(b.done)
    }

    /// Parses the text of a configuration file, given for each `host` value
    /// of its server blocks (as `host_values` lists them, in order) whether
    /// it is an IP address. A value with no verdict counts as no address.
    pub fn parse_checked(content: &str, host_is_ip: &Vec<bool>) -> (r: Result<Vec<ServerConfig>, ConfigError>)
        ensures
            match r {
                Ok(cfgs) => parse_config(
                    content@,
                    refused_hosts(host_values_of(lines(content@)).1, host_is_ip@),
                ) == Ok::<Seq<ServerSpec>, ConfigError>(servers_view(cfgs@)),
                Err(e) => parse_config(
                    content@,
                    refused_hosts(host_values_of(lines(content@)).1, host_is_ip@),
                ) == Err::<Seq<ServerSpec>, ConfigError>(e),
            },
    {
        let hosts = Self::host_values(content);
        let ghost hv = strs(hosts@);
        let mut bad: Vec<String> = Vec::new();
        let mut i: usize = 0;
        while i < hosts.len()
            invariant
                i <= hosts@.len(),
                hv == strs(hosts@),
                strs(bad@) == refused_hosts(hv.take(i as int), host_is_ip@),
            decreases hosts@.len() - i,
        {
            assert(hv.take(i + 1).drop_last() =~= hv.take(i as int));
            assert(hv.take(i + 1).last() == hosts@[i as int]@);
            let ok = i < host_is_ip.len() && host_is_ip[i];
            if !ok {
                let h = hosts[i].clone();
                assert(strs(bad@.push(h)) =~= strs(bad@).push(h@));
                bad.push(h);
            }
            i = i + 1;
        }
        assert(hv.take(i as int) =~= hv);
        Self::parse_with_bad_hosts(content, &bad)
    }

    /// Parses the text of a configuration file into its server blocks, in
    /// the order of the file: each `host` value of a server block must be
    /// an IP address (v4 or v6), as `IpAddr`'s parser reads it.
    pub fn parse(content: &str) -> (r: Result<Vec<ServerConfig>, ConfigError>)
        ensures
            match r {
                Ok(cfgs) => parse_config(content@, invalid_hosts(host_values_of(lines(content@)).1))
                    == Ok::<Seq<ServerSpec>, ConfigError>(servers_view(cfgs@)),
                Err(e) => parse_config(content@, invalid_hosts(host_values_of(lines(content@)).1))
                    == Err::<Seq<ServerSpec>, ConfigError>(e),
            },
    {
        let hosts = Self::host_values(content);
        let ghost hv = strs(hosts@);
        let mut verdicts: Vec<bool> = Vec::new();
        let mut i: usize = 0;
        while i < hosts.len()
            invariant
                i <= hosts@.len(),
                hv == strs(hosts@),
                verdicts@.len() == i,
                forall|j: int| 0 <= j < i ==> verdicts@[j] == ip_addr_text(#[trigger] hv[j]),
            decreases hosts@.len() - i,
        {
            let ok = is_ip_addr(hosts[i].as_str());
            verdicts.push(ok);
            i = i + 1;
        }
        assert(verdicts@ =~= ip_verdicts(hv));
        Self::parse_checked(content, &verdicts)
    }

    /// The `host` values of the file's server blocks, in order: those that
    /// are checked as IP addresses.
    pub fn host_values(content: &str) -> (r: Vec<String>)
        ensures
            strs(r@) == host_values_of(lines(content@)).1,
    {
        let text = chars_of(content);
        let ls = lines_of(text.as_slice());
        let ghost lsv = dv(ls@);
        let colon = vec![':'];
        let hash = vec!['#'];
        proof {
            reveal_strlit(":");
            reveal_strlit("#");
            assert(colon@ =~= ":"@);
            assert(hash@ =~= "#"@);
            assert(lsv.take(0) =~= Seq::<Seq<char>>::empty());
        }
        let mut out: Vec<String> = Vec::new();
        let mut in_server = false;
        let mut i: usize = 0;
        while i < ls.len()
            invariant
                i <= ls@.len(),
                lsv == dv(ls@),
                lsv == lines(content@),
                colon@ == ":"@,
                hash@ == "#"@,
                host_values_of(lsv.take(i as int)) == (in_server, strs(out@)),
            decreases ls@.len() - i,
        {
            assert(lsv.take(i + 1).drop_last() =~= lsv.take(i as int));
            assert(lsv.take(i + 1).last() == ls@[i as int]@);
            let line = trim_chars(ls[i].as_slice());
            let parts = split_once_chars(line.as_slice(), colon.as_slice());
            if !(line.len() == 0 || crate::text::has_prefix(line.as_slice(), hash.as_slice()) || parts.len() != 2) {
                let key = trim_chars(parts[0].as_slice());
                let value = trim_chars(parts[1].as_slice());
                if eq_lit(key.as_slice(), "server") || eq_lit(key.as_slice(), "server_name") {
                    in_server = true;
                } else if eq_lit(key.as_slice(), "host") && in_server {
                    let h = string_of(value.as_slice());
                    assert(strs(out@.push(h)) =~= strs(out@).push(value@));
                    out.push(h);
                }
            }
            i = i + 1;
        }
        assert(lsv.take(i as int) =~= lsv);
        out
    }

    /// Refuses a set of server blocks that is empty or where a port is
    /// listened on twice (the first such port, in the order of the blocks
    /// and of their ports).
    pub fn check(configs: Vec<ServerConfig>) -> (r: Result<Vec<ServerConfig>, ConfigError>)
        ensures
            match r {
                Ok(c) => servers_view(c@) == servers_view(configs@),
                Err(e) => e == check_error(servers_view(configs@)),
            },
            r is Ok <==> (configs@.len() > 0 && all_ports(servers_view(configs@)).no_duplicates()),
    {
        if configs.len() == 0 {
            return Err(ConfigError::NoServers);
        }
        let mut used: HashSet<u16> = HashSet::new();
        let ghost sv = servers_view(configs@);
        let mut i: usize = 0;
        assert(all_ports(sv.take(0)) =~= Seq::<u16>::empty());
        while i < configs.len()
            invariant
                i <= configs@.len(),
                sv == servers_view(configs@),
                configs@.len() > 0,
                used@ == all_ports(sv.take(i as int)).to_set(),
                all_ports(sv.take(i as int)).no_duplicates(),
            decreases configs@.len() - i,
        {
            let ports = &configs[i].ports;
            let ghost base = all_ports(sv.take(i as int));
            proof {
                assert(sv.take(i + 1) =~= sv.take(i as int).push(sv[i as int]));
                lemma_all_ports_push(sv.take(i as int), sv[i as int]);
                assert(base.take(base.len() as int) =~= base);
                assert(sv[i as int].ports.take(0) =~= Seq::<u16>::empty());
                assert(base + sv[i as int].ports.take(0) =~= base);
            }
            let mut j: usize = 0;
            while j < ports.len()
                invariant
                    j <= ports@.len(),
                    *ports == configs@[i as int].ports,
                    sv == servers_view(configs@),
                    i < configs@.len(),
                    used@ == (base + ports@.take(j as int)).to_set(),
                    (base + ports@.take(j as int)).no_duplicates(),
                    base == all_ports(sv.take(i as int)),
                decreases ports@.len() - j,
            {
                let p = ports[j];
                let ghost seen = base + ports@.take(j as int);
                assert(base + ports@.take(j + 1) =~= seen.push(p));
                if used.contains(&p) {
                    proof {
                        assert(seen.to_set().contains(p));
                        lemma_first_duplicate(sv, i as int, j as int);
                    }
                    return Err(ConfigError::DuplicatePort(p));
                }
                used.insert(p);
                proof {
                    assert(!seen.contains(p));
                    seen.lemma_push_to_set_commute(p);
                    assert(seen.push(p).no_duplicates());
                }
                j = j + 1;
            }
            proof {
                assert(ports@.take(ports@.len() as int) =~= ports@);
            }
            i = i + 1;
        }
        proof {
            assert(sv.take(configs@.len() as int) =~= sv);
        }
        Ok(configs)
    }
}

proof fn lemma_parse_lines_error(ls: Seq<Seq<char>>, bad: Seq<Seq<char>>, k: int)
    requires
        0 <= k <= ls.len(),
        parse_lines(ls.take(k), bad) is Err,
    ensures
        parse_lines(ls, bad) == parse_lines(ls.take(k), bad),
    decreases ls.len() - k,
{
    if k == ls.len() {
        assert(ls.take(k) =~= ls);
    } else {
        assert(ls.take(k + 1).drop_last() =~= ls.take(k));
        lemma_parse_lines_error(ls, bad, k + 1);
    }
}

/// Whether the characters `s` spell one of the strings `v`.
fn contains_string(v: &Vec<String>, s: &[char]) -> (r: bool)
    ensures
        r == strs(v@).contains(s@),
{
    let t = string_of(s);
    let mut i: usize = 0;
    while i < v.len()
        invariant
            i <= v@.len(),
            t@ == s@,
            forall|j: int| 0 <= j < i ==> strs(v@)[j] != s@,
        decreases v@.len() - i,
    {
        if v[i] == t {
            assert(strs(v@)[i as int] == s@);
            return true;
        }
        i = i + 1;
    }
    false
}

/// The ports of the servers, block after block.
pub open spec fn all_ports(s: Seq<ServerSpec>) -> Seq<u16>
    decreases s.len(),
{
    if s.len() == 0 {
        seq![]
    } else {
        all_ports(s.drop_last()) + s.last().ports
    }
}

proof fn lemma_all_ports_push(s: Seq<ServerSpec>, c: ServerSpec)
    ensures
        all_ports(s.push(c)) == all_ports(s) + c.ports,
{
    assert(s.push(c).drop_last() =~= s);
}

/// The first port, in the order of `all_ports`, that was seen before.
pub open spec fn first_repeat(ps: Seq<u16>, k: int) -> Option<u16>
    decreases ps.len() - k,
{
    if k < 0 || k >= ps.len() {
        None
    } else if ps.take(k).contains(ps[k]) {
        Some(ps[k])
    } else {
        first_repeat(ps, k + 1)
    }
}

/// The error `check` gives for these server blocks.
pub open spec fn check_error(s: Seq<ServerSpec>) -> ConfigError {
    if s.len() == 0 {
        ConfigError::NoServers
    } else {
        match first_repeat(all_ports(s), 0) {
            Some(p) => ConfigError::DuplicatePort(p),
            None => ConfigError::NoServers,
        }
    }
}

proof fn lemma_first_duplicate(sv: Seq<ServerSpec>, i: int, j: int)
    requires
        0 <= i < sv.len(),
        0 <= j < sv[i].ports.len(),
        (all_ports(sv.take(i)) + sv[i].ports.take(j)).no_duplicates(),
        (all_ports(sv.take(i)) + sv[i].ports.take(j)).contains(sv[i].ports[j]),
    ensures
        first_repeat(all_ports(sv), 0) == Some(sv[i].ports[j]),
        !all_ports(sv).no_duplicates(),
{
    let base = all_ports(sv.take(i));
    let seen = base + sv[i].ports.take(j);
    let k = seen.len() as int;
    lemma_all_ports_prefix(sv, i);
    let ap = all_ports(sv);
    let full = base + sv[i].ports;
    assert(full[k] == sv[i].ports[j]);
    assert(full =~= ap.subrange(0, full.len() as int));
    assert(ap.subrange(0, full.len() as int)[k] == ap[k]);
    assert(ap.take(k) =~= seen);
    assert(ap[k] == sv[i].ports[j]);
    assert forall|m: int| 0 <= m < k implies !ap.take(m).contains(#[trigger] ap[m]) by {
        if ap.take(m).contains(ap[m]) {
            let q = choose|q: int| 0 <= q < m && ap.take(m)[q] == ap[m];
            assert(seen[q] == seen[m]);
        }
    }
    lemma_first_repeat_at(ap, 0, k);
    let q = choose|q: int| 0 <= q < k && ap.take(k)[q] == ap[k];
    assert(ap[q] == ap[k]);
}

proof fn lemma_first_repeat_at(ps: Seq<u16>, a: int, k: int)
    requires
        0 <= a <= k < ps.len(),
        ps.take(k).contains(ps[k]),
        forall|m: int| 0 <= m < k ==> !ps.take(m).contains(#[trigger] ps[m]),
    ensures
        first_repeat(ps, a) == Some(ps[k]),
    decreases k - a,
{
    if a < k {
        assert(!ps.take(a).contains(ps[a]));
        lemma_first_repeat_at(ps, a + 1, k);
    }
}

/// `all_ports(sv)` starts with the ports of the first `i` blocks and then
/// those of block `i`.
proof fn lemma_all_ports_prefix(sv: Seq<ServerSpec>, i: int)
    requires
        0 <= i < sv.len(),
    ensures
        (all_ports(sv.take(i)) + sv[i].ports).is_prefix_of(all_ports(sv)),
    decreases sv.len(),
{
    if i == sv.len() - 1 {
        assert(sv.take(i) =~= sv.drop_last());
    } else {
        lemma_all_ports_prefix(sv.drop_last(), i);
        assert(sv.drop_last().take(i) =~= sv.take(i));
    }
}

/// What `first_repeat` finds: a port seen earlier, and none before it.
proof fn lemma_first_repeat_props(ps: Seq<u16>, k: int)
    requires
        0 <= k,
    ensures
        first_repeat(ps, k) matches Some(p) ==> exists|j: int|
            k <= j < ps.len() && #[trigger] ps.take(j).contains(ps[j]) && ps[j] == p,
        first_repeat(ps, k) is None ==> forall|j: int|
            k <= j < ps.len() ==> !(#[trigger] ps.take(j).contains(ps[j])),
    decreases ps.len() - k,
{
    if k < ps.len() && !ps.take(k).contains(ps[k]) {
        lemma_first_repeat_props(ps, k + 1);
    }
}

/// A port listened on twice in a non-empty set of server blocks is
/// reported: `check` names a port that occurs twice in the blocks' ports.
pub proof fn law_port_conflict_reported(s: Seq<ServerSpec>)
    requires
        s.len() > 0,
        !all_ports(s).no_duplicates(),
    ensures
        check_error(s) matches ConfigError::DuplicatePort(p) && exists|i: int, j: int|
            0 <= i < j < all_ports(s).len() && #[trigger] all_ports(s)[i] == p && #[trigger] all_ports(s)[j] == p,
{
    let ps = all_ports(s);
    lemma_first_repeat_props(ps, 0);
    let (a, b) = choose|a: int, b: int| 0 <= a < ps.len() && 0 <= b < ps.len() && a != b && ps[a] == ps[b];
    let (i, j) = if a < b { (a, b) } else { (b, a) };
    assert(ps.take(j)[i] == ps[j]);
    assert(ps.take(j).contains(ps[j]));
    let p = first_repeat(ps, 0).unwrap();
    let m = choose|m: int| 0 <= m < ps.len() && #[trigger] ps.take(m).contains(ps[m]) && ps[m] == p;
    let q = choose|q: int| 0 <= q < m && ps.take(m)[q] == ps[m];
    assert(ps[q] == p);
}

/// Once a `server` line has been read, a block stays open; before it,
/// none is.
proof fn lemma_open_block(ls: Seq<Seq<char>>, bad: Seq<Seq<char>>)
    ensures
        parse_lines(ls, bad) matches Ok(st) ==> (st.current is Some <==> host_values_of(ls).0),
    decreases ls.len(),
{
    reveal_strlit("host");
    reveal_strlit("server");
    if ls.len() > 0 {
        lemma_open_block(ls.drop_last(), bad);
    }
}

/// The host values listed for a prefix of the lines are listed for all of them.
proof fn lemma_host_values_grow(ls: Seq<Seq<char>>, h: Seq<char>)
    requires
        ls.len() > 0,
        host_values_of(ls.drop_last()).1.contains(h),
    ensures
        host_values_of(ls).1.contains(h),
{
    let prev = host_values_of(ls.drop_last()).1;
    let i = choose|i: int| 0 <= i < prev.len() && prev[i] == h;
    let now = host_values_of(ls).1;
    if now != prev {
        assert(now == prev.push(key_value(ls.last()).unwrap().1));
        assert(now[i] == h);
    }
}

proof fn lemma_parse_lines_same(ls: Seq<Seq<char>>, bad1: Seq<Seq<char>>, bad2: Seq<Seq<char>>)
    requires
        forall|h: Seq<char>| #[trigger] host_values_of(ls).1.contains(h) ==> (bad1.contains(h) <==> bad2.contains(h)),
    ensures
        parse_lines(ls, bad1) == parse_lines(ls, bad2),
    decreases ls.len(),
{
    reveal_strlit("host");
    reveal_strlit("server");
    if ls.len() > 0 {
        let d = ls.drop_last();
        assert forall|h: Seq<char>| #[trigger] host_values_of(d).1.contains(h) implies (bad1.contains(h) <==> bad2.contains(h)) by {
            lemma_host_values_grow(ls, h);
        }
        lemma_parse_lines_same(d, bad1, bad2);
        lemma_open_block(d, bad1);
        match parse_lines(d, bad1) {
            Ok(st) => {
                let raw = ls.last();
                match key_value(raw) {
                    Some((k, v)) => {
                        if k == "host"@ && st.current is Some {
                            reveal_strlit("server_name");
                            assert("host"@.len() != "server"@.len());
                            assert("host"@.len() != "server_name"@.len());
                            let hv = host_values_of(d);
                            assert(key_value(ls.last()) == Some((k, v)));
                            assert(host_values_of(ls) == (true, hv.1.push(v)));
                            assert(host_values_of(ls).1[hv.1.len() as int] == v);
                            assert(host_values_of(ls).1.contains(v));
                        }
                    },
                    None => {},
                }
            },
            Err(_) => {},
        }
    }
}

/// Which values count as bad hosts matters only for the values that
/// `host_values` lists: two lists that agree on those give the same parse.
/// So checking exactly the listed values is enough.
pub proof fn law_parse_asks_only_listed_hosts(content: Seq<char>, bad1: Seq<Seq<char>>, bad2: Seq<Seq<char>>)
    requires
        forall|h: Seq<char>|
            #[trigger] host_values_of(lines(content)).1.contains(h) ==> (bad1.contains(h) <==> bad2.contains(h)),
    ensures
        parse_config(content, bad1) == parse_config(content, bad2),
{
    lemma_parse_lines_same(lines(content), bad1, bad2);
}

/// The blocks are numbered in order: the finished ones `server_0`,
/// `server_1`, ..., and the open one after them.
pub open spec fn numbered(st: ParseState) -> bool {
    &&& forall|i: int| 0 <= i < st.done.len() ==> (#[trigger] st.done[i]).id == "server_"@ + decimal(i as nat)
    &&& st.current matches Some(c) ==> c.id == "server_"@ + decimal(st.done.len())
}

proof fn lemma_parse_numbered(ls: Seq<Seq<char>>, bad: Seq<Seq<char>>)
    ensures
        parse_lines(ls, bad) matches Ok(st) ==> numbered(st),
    decreases ls.len(),
{
    if ls.len() > 0 {
        lemma_parse_numbered(ls.drop_last(), bad);
        match parse_lines(ls.drop_last(), bad) {
            Ok(st) => {
                let closed = close_server(st);
                if let Some(c) = st.current {
                    assert forall|i: int| 0 <= i < closed.done.len() implies (#[trigger] closed.done[i]).id
                        == "server_"@ + decimal(i as nat) by {
                        if i < st.done.len() {
                            assert(closed.done[i] == st.done[i]);
                        } else {
                            assert(closed.done[i] == with_route(c, st.route));
                        }
                    }
                }
            },
            Err(_) => {},
        }
    }
}

/// Each server block parsed is named `server_<n>`, `n` its place among the
/// blocks of the file, counted from 0.
pub proof fn law_blocks_numbered_in_order(content: Seq<char>, bad: Seq<Seq<char>>)
    ensures
        parse_config(content, bad) matches Ok(v) ==> forall|i: int|
            0 <= i < v.len() ==> (#[trigger] v[i]).id == "server_"@ + decimal(i as nat),
{
    lemma_parse_numbered(lines(content), bad);
    match parse_lines(lines(content), bad) {
        Ok(st) => {
            let closed = close_server(st);
            match st.current {
                Some(c) => {
                    assert forall|i: int| 0 <= i < closed.done.len() implies (#[trigger] closed.done[i]).id
                        == "server_"@ + decimal(i as nat) by {
                        if i < st.done.len() {
                            assert(closed.done[i] == st.done[i]);
                        } else {
                            assert(closed.done[i] == with_route(c, st.route));
                        }
                    }
                },
                None => {},
            }
        },
        Err(_) => {},
    }
}


proof fn lemma_route_key_line(st: ParseState, raw: Seq<char>, bad: Seq<Seq<char>>, key: Seq<char>, value: Seq<char>)
    requires
        key_value(raw) == Some((key, value)),
        st.route is Some,
        key == "methods"@ || key == "root"@ || key == "index"@ || key == "protected"@ || key
            == "directory_listing"@,
    ensures
        config_step(st, raw, bad) == Ok::<ParseState, ConfigError>(
            ParseState { route: Some(route_step(st.route.unwrap(), key, value)), ..st },
        ),
{
    reveal_strlit("directory_listing");
    reveal_strlit("server");
    reveal_strlit("server_name");
    reveal_strlit("host");
    reveal_strlit("port");
    reveal_strlit("error_page");
    reveal_strlit("client_max_body_size");
    reveal_strlit("route");
    reveal_strlit("methods");
    reveal_strlit("root");
    reveal_strlit("index");
    reveal_strlit("protected");
    assert("directory_listing"@.len() == 17 && "methods"@.len() == 7 && "root"@.len() == 4);
    assert("index"@.len() == 5 && "protected"@.len() == 9 && "server"@.len() == 6);
    assert("server_name"@.len() == 11 && "host"@.len() == 4 && "port"@.len() == 4 && "error_page"@.len() == 10);
    assert("client_max_body_size"@.len() == 20 && "route"@.len() == 5);
    assert("root"@[0] == 'r' && "host"@[0] == 'h' && "port"@[0] == 'p');
    assert("index"@[0] == 'i' && "route"@[0] == 'r' && "root"@[1] == 'o' && "route"@[3] == 't' && "root"@[3] == 't');
    assert("route"@[2] == 'u' && "root"@[2] == 'o');
}

/// The lines of a route block set the open route's fields from their
/// values and change nothing else: `methods` the whitespace-separated
/// words, `root` the value, `index` the value, `protected` true exactly
/// for `true` in any case, and `directory_listing` true exactly for `on`
/// in any case (`lowercase(value) == "on"`), so `off` does not turn
/// listing on.
pub proof fn law_route_lines(st: ParseState, raw: Seq<char>, bad: Seq<Seq<char>>, key: Seq<char>, value: Seq<char>)
    requires
        key_value(raw) == Some((key, value)),
        st.route is Some,
    ensures
        key == "methods"@ ==> config_step(st, raw, bad) == Ok::<ParseState, ConfigError>(
            ParseState { route: Some(RouteSpec { methods: words(value), ..st.route.unwrap() }), ..st },
        ),
        key == "root"@ ==> config_step(st, raw, bad) == Ok::<ParseState, ConfigError>(
            ParseState { route: Some(RouteSpec { root: value, ..st.route.unwrap() }), ..st },
        ),
        key == "index"@ ==> config_step(st, raw, bad) == Ok::<ParseState, ConfigError>(
            ParseState { route: Some(RouteSpec { index: Some(value), ..st.route.unwrap() }), ..st },
        ),
        key == "protected"@ ==> config_step(st, raw, bad) == Ok::<ParseState, ConfigError>(
            ParseState {
                route: Some(RouteSpec { protected: lowercase(value) == "true"@, ..st.route.unwrap() }),
                ..st
            },
        ),
        key == "directory_listing"@ ==> config_step(st, raw, bad) == Ok::<ParseState, ConfigError>(
            ParseState {
                route: Some(RouteSpec { directory_listing: lowercase(value) == "on"@, ..st.route.unwrap() }),
                ..st
            },
        ),
{
    reveal_strlit("directory_listing");
    reveal_strlit("methods");
    reveal_strlit("root");
    reveal_strlit("index");
    reveal_strlit("protected");
    reveal_strlit("cgi");
    assert("directory_listing"@.len() == 17 && "methods"@.len() == 7 && "root"@.len() == 4);
    assert("index"@.len() == 5 && "protected"@.len() == 9 && "cgi"@.len() == 3);
    if key == "methods"@ || key == "root"@ || key == "index"@ || key == "protected"@ || key == "directory_listing"@ {
        lemma_route_key_line(st, raw, bad, key, value);
    }
}

} // verus!
