use std::path::PathBuf;
use wisp::launcher::build_llama_server_args;
use wisp::placement::LayerAssignment;
use wisp::registry::DeviceConfig;

#[test]
fn builds_expected_llama_server_argv() {
    let devices = vec![
        DeviceConfig { id: "desktop".into(), host: "192.168.1.10".into(), telemetry_port: 7100, rpc_port: 50052 },
        DeviceConfig { id: "laptop".into(), host: "192.168.1.11".into(), telemetry_port: 7100, rpc_port: 50052 },
    ];
    let assignments = vec![
        LayerAssignment { device_id: "desktop".into(), layer_count: 24 },
        LayerAssignment { device_id: "laptop".into(), layer_count: 8 },
    ];

    let model_path = PathBuf::from("/models/model.gguf");
    let args = build_llama_server_args(
        &model_path.to_string_lossy(),
        8080,
        &devices,
        &assignments,
    );

    assert_eq!(
        args,
        vec![
            "-m", "/models/model.gguf",
            "--port", "8080",
            "--rpc", "192.168.1.10:50052,192.168.1.11:50052",
            "--tensor-split", "24,8",
        ]
    );
}

#[test]
fn llama_server_argv_with_no_devices_has_empty_lists() {
    let args = build_llama_server_args("m.gguf", 0, &vec![], &vec![]);
    assert_eq!(args, vec!["-m", "m.gguf", "--port", "0", "--rpc", "", "--tensor-split", ""]);
}

#[test]
fn llama_server_argv_keeps_the_given_order() {
    let devices = vec![
        DeviceConfig { id: "b".into(), host: "10.0.0.2".into(), telemetry_port: 1, rpc_port: 65535 },
        DeviceConfig { id: "a".into(), host: "10.0.0.1".into(), telemetry_port: 1, rpc_port: 9 },
        DeviceConfig { id: "c".into(), host: "host-c".into(), telemetry_port: 1, rpc_port: 100 },
    ];
    let assignments = vec![
        LayerAssignment { device_id: "b".into(), layer_count: 0 },
        LayerAssignment { device_id: "a".into(), layer_count: 4294967295 },
        LayerAssignment { device_id: "c".into(), layer_count: 10 },
    ];
    let args = build_llama_server_args("/x", 65535, &devices, &assignments);
    assert_eq!(
        args,
        vec![
            "-m", "/x",
            "--port", "65535",
            "--rpc", "10.0.0.2:65535,10.0.0.1:9,host-c:100",
            "--tensor-split", "0,4294967295,10",
        ]
    );
}

#[test]
fn tensor_split_and_port_parse_back() {
    let devices = vec![DeviceConfig { id: "d".into(), host: "h".into(), telemetry_port: 1, rpc_port: 2 }];
    let assignments = vec![
        LayerAssignment { device_id: "d".into(), layer_count: 0 },
        LayerAssignment { device_id: "e".into(), layer_count: 1234567 },
        LayerAssignment { device_id: "f".into(), layer_count: 10 },
    ];
    let args = build_llama_server_args("m", 4321, &devices, &assignments);
    let counts: Vec<u32> = args[7].split(',').map(|s| s.parse::<u32>().unwrap()).collect();
    assert_eq!(counts, vec![0, 1234567, 10]);
    assert_eq!(args[3].parse::<u16>(), Ok(4321));
}
