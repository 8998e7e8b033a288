use wisp::rpc_supervisor::build_rpc_server_args;

#[test]
fn builds_expected_rpc_server_args() {
    let args = build_rpc_server_args(50052);
    assert_eq!(args, vec!["--host", "0.0.0.0", "--port", "50052"]);
}

#[test]
fn rpc_server_args_at_port_bounds() {
    assert_eq!(build_rpc_server_args(0), vec!["--host", "0.0.0.0", "--port", "0"]);
    assert_eq!(build_rpc_server_args(65535), vec!["--host", "0.0.0.0", "--port", "65535"]);
}

#[test]
fn rpc_server_port_parses_back() {
    for port in [0u16, 1, 9, 10, 7100, 50052, 65535] {
        assert_eq!(build_rpc_server_args(port)[3].parse::<u16>(), Ok(port));
    }
}
