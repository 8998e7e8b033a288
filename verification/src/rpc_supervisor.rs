//! The argument vector of a device's `rpc-server`.

use vstd::prelude::*;
use crate::text::{
    decimal, decimal_text, decimal_value, is_decimal_text, lemma_decimal_round_trip, views,
};

verus! {

/// `--host 0.0.0.0 --port <port>`.
pub open spec fn rpc_server_argv(port: u16) -> Seq<Seq<char>> {
    seq!["--host"@, "0.0.0.0"@, "--port"@, decimal(port as nat)]
}

/// The `--port` value of the `rpc-server` argv reads back as the port.
pub proof fn lemma_rpc_server_port_reads_back(port: u16)
    ensures
        is_decimal_text(rpc_server_argv(port)[3]),
        decimal_value(rpc_server_argv(port)[3]) == port,
{
    lemma_decimal_round_trip(port as nat);
}

/// The `rpc-server` argv has four entries: `--host`, `0.0.0.0`, `--port`
/// and the port.
pub proof fn lemma_rpc_server_argv_layout(port: u16)
    ensures
        rpc_server_argv(port).len() == 4,
        rpc_server_argv(port)[0] == seq!['-', '-', 'h', 'o', 's', 't'],
        rpc_server_argv(port)[1] == seq!['0', '.', '0', '.', '0', '.', '0'],
        rpc_server_argv(port)[2] == seq!['-', '-', 'p', 'o', 'r', 't'],
{
    reveal_strlit("--host");
    reveal_strlit("0.0.0.0");
    reveal_strlit("--port");
    assert("--host"@ =~= seq!['-', '-', 'h', 'o', 's', 't']);
    assert("0.0.0.0"@ =~= seq!['0', '.', '0', '.', '0', '.', '0']);
    assert("--port"@ =~= seq!['-', '-', 'p', 'o', 'r', 't']);
}

/// Builds the `rpc-server` argv: listen on every interface at `port`.
pub fn build_rpc_server_args(port: u16) -> (args: Vec<String>)
    ensures
        views(args@) == rpc_server_argv(port),
{
    let mut args: Vec<String> = Vec::new();
    args.push(String::from_str("--host"));
    args.push(String::from_str("0.0.0.0"));
    args.push(String::from_str("--port"));
    args.push(decimal_text(port as u64));
    proof {
        assert(views(args@) =~= rpc_server_argv(port));
    }
    args
}

} // verus!
