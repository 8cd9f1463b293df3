use http_server::config::{ConfigError, ServerConfig};

const SAMPLE: &str = "# sample\nserver: main\nhost: 127.0.0.1\nport: 8080\nport: 8081\nerror_page: 404 /404.html\nclient_max_body_size: 1024\n\nroute: /\nmethods: GET POST\nroot: ./www\nindex: index.html\ndirectory_listing: ON\nredirect: /old /new\nroute: /cgi\nmethods: GET\nroot: ./cgi-bin\ncgi: .py /usr/bin/python3\nprotected: True\nserver: second\nport: 9090\n";

#[test]
fn parse_reads_servers_and_routes() {
    assert_eq!(ServerConfig::host_values(SAMPLE), vec!["127.0.0.1".to_string()]);
    let configs = ServerConfig::parse(SAMPLE).unwrap();
    assert_eq!(configs.len(), 2);
    let c = &configs[0];
    assert_eq!(c.id, "server_0");
    assert_eq!(c.host, "127.0.0.1");
    assert_eq!(c.ports, vec![8080, 8081]);
    assert_eq!(c.server_names, vec!["main".to_string()]);
    assert_eq!(c.error_pages.get(&404), Some(&"/404.html".to_string()));
    assert_eq!(c.client_max_body_size, 1024);
    assert_eq!(c.routes.len(), 2);
    let r0 = &c.routes[0];
    assert_eq!(r0.path, "/");
    assert_eq!(r0.methods, vec!["GET".to_string(), "POST".to_string()]);
    assert_eq!(r0.root, "./www");
    assert_eq!(r0.index, Some("index.html".to_string()));
    assert!(r0.directory_listing);
    assert!(!r0.protected);
    assert_eq!(r0.redirections.get(&"/old".to_string()), Some(&"/new".to_string()));
    let r1 = &c.routes[1];
    assert_eq!(r1.path, "/cgi");
    assert_eq!(r1.cgi_extensions.get(&".py".to_string()), Some(&"/usr/bin/python3".to_string()));
    assert!(r1.protected);
    assert!(!r1.directory_listing);
    let d = &configs[1];
    assert_eq!(d.id, "server_1");
    assert_eq!(d.host, "0.0.0.0");
    assert_eq!(d.ports, vec![9090]);
    assert_eq!(d.client_max_body_size, 1000000);
    assert!(d.routes.is_empty());
}

#[test]
fn parse_ignores_lines_before_any_server() {
    let text = "host: nowhere\nport: 80\nroute: /x\n";
    assert!(ServerConfig::host_values(text).is_empty());
    let configs = ServerConfig::parse(text).unwrap();
    assert!(configs.is_empty());
}

#[test]
fn parse_refuses_bad_port() {
    let r = ServerConfig::parse("server: a\nport: 70000\n");
    assert_eq!(r.err(), Some(ConfigError::InvalidPort));
}

#[test]
fn parse_refuses_bad_error_code() {
    let r = ServerConfig::parse("server: a\nerror_page: abc /x.html\n");
    assert_eq!(r.err(), Some(ConfigError::InvalidErrorCode));
}

#[test]
fn parse_refuses_bad_body_size() {
    let r = ServerConfig::parse("server: a\nclient_max_body_size: -1\n");
    assert_eq!(r.err(), Some(ConfigError::InvalidBodySize));
}

#[test]
fn check_accepts_distinct_ports() {
    let configs = ServerConfig::parse(SAMPLE).unwrap();
    let checked = ServerConfig::check(configs).unwrap();
    assert_eq!(checked.len(), 2);
    assert_eq!(checked[1].ports, vec![9090]);
}

#[test]
fn check_reports_port_used_twice() {
    let text = "server: a\nport: 8080\nport: 8081\nserver: b\nport: 8081\nport: 8080\n";
    let configs = ServerConfig::parse(text).unwrap();
    let r = ServerConfig::check(configs);
    assert_eq!(r.err(), Some(ConfigError::DuplicatePort(8081)));
}

#[test]
fn check_reports_port_repeated_in_one_block() {
    let configs = ServerConfig::parse("server: a\nport: 80\nport: 80\n").unwrap();
    assert_eq!(ServerConfig::check(configs).err(), Some(ConfigError::DuplicatePort(80)));
}

#[test]
fn check_refuses_no_servers() {
    assert_eq!(ServerConfig::check(Vec::new()).err(), Some(ConfigError::NoServers));
}

#[test]
fn error_messages() {
    assert_eq!(ConfigError::DuplicatePort(8080).message(), "Port 8080 is configured multiple times");
    assert_eq!(ConfigError::NoServers.message(), "No valid server configurations found in the file");
}

#[test]
fn parse_refuses_bad_host_at_its_line() {
    let text = "server: a\nhost: not-an-ip\nport: 99999\n";
    assert_eq!(ServerConfig::host_values(text), vec!["not-an-ip".to_string()]);
    let bad = vec!["not-an-ip".to_string()];
    assert_eq!(ServerConfig::parse(text).err(), Some(ConfigError::InvalidHost));
    assert_eq!(ServerConfig::parse_with_bad_hosts(text, &bad).err(), Some(ConfigError::InvalidHost));
    let later = "server: a\nport: 99999\nhost: not-an-ip\n";
    assert_eq!(ServerConfig::parse(later).err(), Some(ConfigError::InvalidPort));
    assert_eq!(ServerConfig::parse_with_bad_hosts(later, &bad).err(), Some(ConfigError::InvalidPort));
    assert_eq!(ConfigError::InvalidHost.message(), "invalid IP address syntax");
}

#[test]
fn documented_single_server_configuration() {
    let text = "server_name: localhost\nhost: 127.0.0.1\nport: 8080\n";
    assert_eq!(ServerConfig::host_values(text), vec!["127.0.0.1".to_string()]);
    let configs = ServerConfig::check(ServerConfig::parse(text).unwrap()).unwrap();
    assert_eq!(configs.len(), 1);
    assert_eq!(configs[0].server_names, vec!["localhost".to_string()]);
    assert_eq!(configs[0].host, "127.0.0.1");
    assert_eq!(configs[0].ports, vec![8080]);
}

#[test]
fn documented_two_servers_on_two_ports() {
    let text = "server_name: server1\nhost: 127.0.0.1\nport: 8080\nserver_name: server2\nhost: 127.0.0.1\nport: 8081\n";
    let configs = ServerConfig::check(ServerConfig::parse(text).unwrap()).unwrap();
    assert_eq!(configs.len(), 2);
    assert_eq!(configs[1].id, "server_1");
    assert_eq!(configs[1].ports, vec![8081]);
}

#[test]
fn documented_limit_on_body_size() {
    let text = "server_name: localhost\nport: 8080\nclient_max_body_size: 1000\n";
    let configs = ServerConfig::parse(text).unwrap();
    assert_eq!(configs[0].client_max_body_size, 1000);
}

#[test]
fn same_port_for_two_host_names_is_a_conflict() {
    let text = "server_name: test1.com\nhost: 127.0.0.1\nport: 8080\nserver_name: test2.com\nhost: 127.0.0.1\nport: 8080\n";
    let configs = ServerConfig::parse(text).unwrap();
    assert_eq!(ServerConfig::check(configs).err(), Some(ConfigError::DuplicatePort(8080)));
}

#[test]
fn parse_checked_refuses_hosts_judged_not_ip() {
    let text = "server: a\nhost: not-an-ip\nport: 80\n";
    assert_eq!(ServerConfig::parse_checked(text, &vec![false]).err(), Some(ConfigError::InvalidHost));
    assert_eq!(ServerConfig::parse_checked(text, &Vec::new()).err(), Some(ConfigError::InvalidHost));
    let good = "server: a\nhost: 10.0.0.1\nport: 80\nserver: b\nhost: ::1\nport: 81\n";
    let configs = ServerConfig::parse_checked(good, &vec![true, true]).unwrap();
    assert_eq!(configs.len(), 2);
    assert_eq!(configs[1].host, "::1");
    assert_eq!(ServerConfig::parse_checked(good, &vec![true, false]).err(), Some(ConfigError::InvalidHost));
}

#[test]
fn parse_checks_hosts_as_ip_addresses() {
    let v6 = "server: a\nhost: ::1\nport: 80\nserver: b\nhost: 192.168.1.20\nport: 81\n";
    let configs = ServerConfig::parse(v6).unwrap();
    assert_eq!(configs[0].host, "::1");
    assert_eq!(configs[1].host, "192.168.1.20");
    for bad in ["localhost", "256.1.1.1", "1.2.3", "127.0.0.1:80", ""] {
        let text = format!("server: a\nhost: {}\nport: 80\n", bad);
        assert_eq!(ServerConfig::parse(&text).err(), Some(ConfigError::InvalidHost), "{}", bad);
    }
}
