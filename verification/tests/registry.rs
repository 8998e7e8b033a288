use wisp::launcher::build_llama_server_args;
use wisp::placement::{plan_placement, InitialShares, RankedDevice};
use wisp::registry::{select_live_devices, telemetry_url, DeviceConfig};

fn config(id: &str, host: &str, port: u16) -> DeviceConfig {
    DeviceConfig { id: id.into(), host: host.into(), telemetry_port: port, rpc_port: 50052 }
}

#[test]
fn telemetry_url_names_host_and_port() {
    assert_eq!(telemetry_url(&config("desktop", "192.168.1.10", 7100)), "http://192.168.1.10:7100/telemetry");
    assert_eq!(telemetry_url(&config("x", "localhost", 0)), "http://localhost:0/telemetry");
}

#[test]
fn live_devices_keep_config_order() {
    let devices = vec![config("a", "h1", 1), config("b", "h2", 2), config("c", "h3", 3), config("a", "h4", 4)];
    let reached = vec!["c".to_string(), "a".to_string()];
    let live = select_live_devices(&devices, &reached);
    let hosts: Vec<&str> = live.iter().map(|d| d.host.as_str()).collect();
    assert_eq!(hosts, vec!["h1", "h3", "h4"]);
}

#[test]
fn no_reached_devices_leaves_none() {
    let devices = vec![config("a", "h1", 1)];
    assert!(select_live_devices(&devices, &vec![]).is_empty());
}

#[test]
fn live_devices_line_up_with_answered_profiles() {
    let devices = vec![config("a", "h1", 1), config("b", "h2", 2), config("c", "h3", 3)];
    // "b" did not answer; the plan is made from the answered profiles in order
    let answered = vec!["a".to_string(), "c".to_string()];
    let ranked: Vec<RankedDevice> = answered
        .iter()
        .map(|id| RankedDevice { device_id: id.clone(), available_mem_bytes: 100, speed_rank: 1 })
        .collect();
    let plan = plan_placement(&ranked, &InitialShares::Proportional(vec![3, 1]), 4, 1);
    let live = select_live_devices(&devices, &answered);
    let live_ids: Vec<&str> = live.iter().map(|d| d.id.as_str()).collect();
    let plan_ids: Vec<&str> = plan.iter().map(|a| a.device_id.as_str()).collect();
    assert_eq!(live_ids, plan_ids);
    let args = build_llama_server_args("m", 1, &live, &plan);
    assert_eq!(args[5], "h1:50052,h3:50052");
    assert_eq!(args[7], "3,1");
}
