//! The argument vector of `llama-server` for a computed placement.

use vstd::prelude::*;
use crate::placement::LayerAssignment;
use crate::registry::DeviceConfig;
use crate::text::{
    append_decimal, decimal, decimal_text, decimal_value, is_decimal_text, join, joined,
    lemma_decimal_has_no_comma, lemma_decimal_round_trip, lemma_split_joined, split_on, views,
};

verus! {

/// `<host>:<rpc_port>` of a device.
pub open spec fn rpc_endpoint(d: DeviceConfig) -> Seq<char> {
    d.host@ + ":"@ + decimal(d.rpc_port as nat)
}

/// The decimal layer count of an assignment.
pub open spec fn split_entry(a: LayerAssignment) -> Seq<char> {
    decimal(a.layer_count as nat)
}

/// `-m <model> --port <port> --rpc <endpoints> --tensor-split <counts>`, the
/// endpoints and the counts each comma-joined in the order given.
pub open spec fn llama_server_argv(
    model_path: Seq<char>,
    port: u16,
    devices: Seq<DeviceConfig>,
    assignments: Seq<LayerAssignment>,
) -> Seq<Seq<char>> {
    seq![
        "-m"@,
        model_path,
        "--port"@,
        decimal(port as nat),
        "--rpc"@,
        joined(devices.map_values(|d: DeviceConfig| rpc_endpoint(d)), ","@),
        "--tensor-split"@,
        joined(assignments.map_values(|a: LayerAssignment| split_entry(a)), ","@),
    ]
}

/// The `--port` value reads back as the port, and cutting the
/// `--tensor-split` value at its commas gives one decimal count per
/// assignment that reads back as that assignment's layer count, in order.
pub proof fn lemma_llama_server_argv_reads_back(
    model_path: Seq<char>,
    port: u16,
    devices: Seq<DeviceConfig>,
    assignments: Seq<LayerAssignment>,
)
    requires
        assignments.len() > 0,
    ensures
        is_decimal_text(llama_server_argv(model_path, port, devices, assignments)[3]),
        decimal_value(llama_server_argv(model_path, port, devices, assignments)[3]) == port,
        split_on(llama_server_argv(model_path, port, devices, assignments)[7], ',').len()
            == assignments.len(),
        forall|i: int|
            0 <= i < assignments.len() ==> {
                let piece = #[trigger] split_on(
                    llama_server_argv(model_path, port, devices, assignments)[7],
                    ',',
                )[i];
                is_decimal_text(piece) && decimal_value(piece) == assignments[i].layer_count
            },
{
    reveal_strlit(",");
    lemma_decimal_round_trip(port as nat);
    let parts = assignments.map_values(|a: LayerAssignment| split_entry(a));
    assert forall|i: int| 0 <= i < parts.len() implies !(#[trigger] parts[i]).contains(',') by {
        lemma_decimal_has_no_comma(assignments[i].layer_count as nat);
    }
    assert(","@ =~= seq![',']);
    lemma_split_joined(parts, ',');
    assert forall|i: int| 0 <= i < assignments.len() implies {
        let piece = #[trigger] split_on(
            llama_server_argv(model_path, port, devices, assignments)[7],
            ',',
        )[i];
        is_decimal_text(piece) && decimal_value(piece) == assignments[i].layer_count
    } by {
        assert(parts[i] == decimal(assignments[i].layer_count as nat));
        lemma_decimal_round_trip(assignments[i].layer_count as nat);
    }
}

/// The argv has eight entries: `-m`, the model path exactly as given,
/// `--port`, the port, `--rpc`, the endpoints, `--tensor-split`, the counts.
pub proof fn lemma_llama_server_argv_layout(
    model_path: Seq<char>,
    port: u16,
    devices: Seq<DeviceConfig>,
    assignments: Seq<LayerAssignment>,
)
    ensures
        llama_server_argv(model_path, port, devices, assignments).len() == 8,
        llama_server_argv(model_path, port, devices, assignments)[0] == seq!['-', 'm'],
        llama_server_argv(model_path, port, devices, assignments)[1] == model_path,
        llama_server_argv(model_path, port, devices, assignments)[2] == seq![
            '-',
            '-',
            'p',
            'o',
            'r',
            't',
        ],
        llama_server_argv(model_path, port, devices, assignments)[4] == seq!['-', '-', 'r', 'p', 'c'],
        llama_server_argv(model_path, port, devices, assignments)[6] == seq![
            '-',
            '-',
            't',
            'e',
            'n',
            's',
            'o',
            'r',
            '-',
            's',
            'p',
            'l',
            'i',
            't',
        ],
{
    reveal_strlit("-m");
    reveal_strlit("--port");
    reveal_strlit("--rpc");
    reveal_strlit("--tensor-split");
    assert("-m"@ =~= seq!['-', 'm']);
    assert("--port"@ =~= seq!['-', '-', 'p', 'o', 'r', 't']);
    assert("--rpc"@ =~= seq!['-', '-', 'r', 'p', 'c']);
    assert("--tensor-split"@ =~= seq![
        '-',
        '-',
        't',
        'e',
        'n',
        's',
        'o',
        'r',
        '-',
        's',
        'p',
        'l',
        'i',
        't',
    ]);
}

/// Cutting the `--rpc` value at its commas gives one piece per device, in
/// device order, when there is a device and no host holds a comma: piece
/// `i` is device `i`'s host exactly, then `:`, then decimal digits that
/// read back as its `rpc-server` port.
pub proof fn lemma_rpc_list_reads_back(
    model_path: Seq<char>,
    port: u16,
    devices: Seq<DeviceConfig>,
    assignments: Seq<LayerAssignment>,
)
    requires
        devices.len() > 0,
        forall|i: int| 0 <= i < devices.len() ==> !(#[trigger] devices[i]).host@.contains(','),
    ensures
        split_on(llama_server_argv(model_path, port, devices, assignments)[5], ',').len()
            == devices.len(),
        forall|i: int|
            0 <= i < devices.len() ==> {
                let piece = #[trigger] split_on(
                    llama_server_argv(model_path, port, devices, assignments)[5],
                    ',',
                )[i];
                let h = devices[i].host@;
                &&& piece.len() > h.len()
                &&& piece.take(h.len() as int) == h
                &&& piece[h.len() as int] == ':'
                &&& is_decimal_text(piece.skip(h.len() as int + 1))
                &&& decimal_value(piece.skip(h.len() as int + 1)) == devices[i].rpc_port
            },
{
    reveal_strlit(",");
    reveal_strlit(":");
    assert(","@ =~= seq![',']);
    assert(":"@ =~= seq![':']);
    let parts = devices.map_values(|d: DeviceConfig| rpc_endpoint(d));
    assert forall|i: int| 0 <= i < parts.len() implies !(#[trigger] parts[i]).contains(',') by {
        let d = devices[i];
        let h = d.host@;
        let digits = decimal(d.rpc_port as nat);
        lemma_decimal_has_no_comma(d.rpc_port as nat);
        assert(parts[i] =~= h + seq![':'] + digits);
        if parts[i].contains(',') {
            let k = choose|k: int| 0 <= k < parts[i].len() && parts[i][k] == ',';
            if k < h.len() {
                assert(h[k] == ',');
            } else if k == h.len() {
            } else {
                assert(digits[k - h.len() - 1] == ',');
            }
        }
    }
    lemma_split_joined(parts, ',');
    assert forall|i: int| 0 <= i < devices.len() implies {
        let piece = #[trigger] split_on(
            llama_server_argv(model_path, port, devices, assignments)[5],
            ',',
        )[i];
        let h = devices[i].host@;
        &&& piece.len() > h.len()
        &&& piece.take(h.len() as int) == h
        &&& piece[h.len() as int] == ':'
        &&& is_decimal_text(piece.skip(h.len() as int + 1))
        &&& decimal_value(piece.skip(h.len() as int + 1)) == devices[i].rpc_port
    } by {
        let d = devices[i];
        let h = d.host@;
        let digits = decimal(d.rpc_port as nat);
        lemma_decimal_round_trip(d.rpc_port as nat);
        let piece = parts[i];
        assert(piece =~= h + seq![':'] + digits);
        assert(piece.take(h.len() as int) =~= h);
        assert(piece.skip(h.len() as int + 1) =~= digits);
    }
}

fn rpc_endpoint_text(d: &DeviceConfig) -> (s: String)
    ensures
        s@ == rpc_endpoint(*d),
{
    let mut s = String::new();
    s.append(d.host.as_str());
    s.append(":");
    append_decimal(&mut s, d.rpc_port as u64);
    proof {
        assert(s@ =~= rpc_endpoint(*d));
    }
    s
}

/// Builds the `llama-server` argv: the model path, the HTTP port, the
/// `rpc-server` endpoints of `devices` and the per-device layer counts of
/// `assignments`, both lists in the order given (callers pass the two lists
/// in the same device order).
pub fn build_llama_server_args(
    model_path: &str,
    port: u16,
    devices: &Vec<DeviceConfig>,
    assignments: &Vec<LayerAssignment>,
) -> (args: Vec<String>)
    ensures
        views(args@) == llama_server_argv(model_path@, port, devices@, assignments@),
{
    let ghost endpoints = devices@.map_values(|d: DeviceConfig| rpc_endpoint(d));
    let mut rpc_hosts: Vec<String> = Vec::new();
    let mut i: usize = 0;
    while i < devices.len()
        invariant
            0 <= i <= devices.len(),
            endpoints == devices@.map_values(|d: DeviceConfig| rpc_endpoint(d)),
            endpoints.len() == devices.len(),
            rpc_hosts.len() == i,
            views(rpc_hosts@) == endpoints.take(i as int),
        decreases devices.len() - i,
    {
        let h = rpc_endpoint_text(&devices[i]);
        let ghost before = rpc_hosts@;
        rpc_hosts.push(h);
        proof {
            assert(endpoints[i as int] == rpc_endpoint(devices@[i as int]));
            assert(rpc_hosts@ == before.push(h));
            assert forall|k: int| 0 <= k < i + 1 implies views(rpc_hosts@)[k] == endpoints.take(
                i + 1,
            )[k] by {
                if k < i {
                    assert(views(before)[k] == endpoints.take(i as int)[k]);
                }
            }
            assert(views(rpc_hosts@) =~= endpoints.take(i + 1));
        }
        i = i + 1;
    }
    proof {
        assert(endpoints.take(devices.len() as int) =~= endpoints);
    }

    let ghost counts = assignments@.map_values(|a: LayerAssignment| split_entry(a));
    let mut splits: Vec<String> = Vec::new();
    let mut j: usize = 0;
    while j < assignments.len()
        invariant
            0 <= j <= assignments.len(),
            counts == assignments@.map_values(|a: LayerAssignment| split_entry(a)),
            counts.len() == assignments.len(),
            splits.len() == j,
            views(splits@) == counts.take(j as int),
        decreases assignments.len() - j,
    {
        let c = decimal_text(assignments[j].layer_count as u64);
        let ghost before = splits@;
        splits.push(c);
        proof {
            assert(counts[j as int] == split_entry(assignments@[j as int]));
            assert(splits@ == before.push(c));
            assert forall|k: int| 0 <= k < j + 1 implies views(splits@)[k] == counts.take(j + 1)[k] by {
                if k < j {
                    assert(views(before)[k] == counts.take(j as int)[k]);
                }
            }
            assert(views(splits@) =~= counts.take(j + 1));
        }
        j = j + 1;
    }
    proof {
        assert(counts.take(assignments.len() as int) =~= counts);
    }

    let mut args: Vec<String> = Vec::new();
    args.push(String::from_str("-m"));
    args.push(String::from_str(model_path));
    args.push(String::from_str("--port"));
    args.push(decimal_text(port as u64));
    args.push(String::from_str("--rpc"));
    args.push(join(&rpc_hosts, ","));
    args.push(String::from_str("--tensor-split"));
    args.push(join(&splits, ","));
    proof {
        assert(views(args@) =~= llama_server_argv(model_path@, port, devices@, assignments@));
    }
    args
}

} // verus!
