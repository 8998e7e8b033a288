use wisp::placement::{
    initial_shares_fit, plan_placement, InitialShares, LayerAssignment, RankedDevice,
};

/// A device profile as the telemetry endpoint reports it.
struct Profile {
    id: &'static str,
    score: f64,
    mem_bytes: u64,
}

fn profile(id: &'static str, score: f64, mem_bytes: u64) -> Profile {
    Profile { id, score, mem_bytes }
}

/// An integer with the order of the scores (for the non-NaN scores used here).
fn rank_of(score: f64) -> u64 {
    let bits = if score == 0.0 { 0u64 } else { score.to_bits() };
    if bits >> 63 == 1 { !bits } else { bits | (1u64 << 63) }
}

/// The scores' proportional shares, as the coordinator works them out.
fn place(devices: &[Profile], total_layers: u32, bytes_per_layer: u64) -> Vec<LayerAssignment> {
    let total_weight: f64 = devices.iter().map(|d| d.score).sum();
    let shares = if total_weight > 0.0 {
        InitialShares::Proportional(
            devices
                .iter()
                .map(|d| ((d.score / total_weight) * total_layers as f64).floor() as u32)
                .collect(),
        )
    } else {
        InitialShares::Uniform
    };
    let ranked: Vec<RankedDevice> = devices
        .iter()
        .map(|d| RankedDevice { device_id: d.id.to_string(), available_mem_bytes: d.mem_bytes, speed_rank: rank_of(d.score) })
        .collect();
    assert!(initial_shares_fit(&ranked, &shares, total_layers, bytes_per_layer));
    plan_placement(&ranked, &shares, total_layers, bytes_per_layer)
}

fn counts(plan: &[LayerAssignment]) -> Vec<u32> {
    plan.iter().map(|a| a.layer_count).collect()
}

#[test]
fn equal_devices_split_layers_evenly() {
    let devices = vec![
        profile("a", 10.0, 1_000_000_000),
        profile("b", 10.0, 1_000_000_000),
    ];
    let plan = place(&devices, 32, 1_000_000);
    assert_eq!(plan.len(), 2);
    assert_eq!(plan[0].layer_count, 16);
    assert_eq!(plan[1].layer_count, 16);
}

#[test]
fn faster_device_gets_more_layers() {
    let devices = vec![
        profile("fast", 30.0, 10_000_000_000),
        profile("slow", 10.0, 10_000_000_000),
    ];
    let plan = place(&devices, 40, 1_000_000);
    assert!(plan[0].layer_count > plan[1].layer_count * 2);
    assert_eq!(plan[0].layer_count + plan[1].layer_count, 40);
}

#[test]
fn memory_constrained_device_spills_remainder_to_others() {
    let devices = vec![
        profile("tiny", 10.0, 5_000_000),
        profile("big", 10.0, 1_000_000_000),
    ];
    let plan = place(&devices, 40, 1_000_000);
    let tiny = plan.iter().find(|p| p.device_id == "tiny").unwrap();
    let big = plan.iter().find(|p| p.device_id == "big").unwrap();
    assert!(tiny.layer_count <= 5);
    assert_eq!(tiny.layer_count + big.layer_count, 40);
}

#[test]
fn all_layers_are_always_assigned() {
    let devices = vec![
        profile("a", 7.0, 2_000_000_000),
        profile("b", 3.0, 2_000_000_000),
        profile("c", 5.0, 2_000_000_000),
    ];
    let plan = place(&devices, 33, 1_000_000);
    let total: u32 = plan.iter().map(|p| p.layer_count).sum();
    assert_eq!(total, 33);
}

fn ranked(id: &str, mem_bytes: u64, speed_rank: u64) -> RankedDevice {
    RankedDevice { device_id: id.to_string(), available_mem_bytes: mem_bytes, speed_rank }
}

#[test]
fn leftover_goes_round_robin_fastest_first() {
    // order by speed: b, c, a; a holds at most 2 layers
    let devices = vec![ranked("a", 2, 1), ranked("b", 10, 3), ranked("c", 10, 2)];
    let plan = plan_placement(&devices, &InitialShares::Proportional(vec![0, 0, 0]), 7, 1);
    assert_eq!(counts(&plan), vec![2, 3, 2]);
    let ids: Vec<&str> = plan.iter().map(|a| a.device_id.as_str()).collect();
    assert_eq!(ids, vec!["a", "b", "c"]);
}

#[test]
fn equal_ranks_keep_input_order() {
    let devices = vec![ranked("a", 100, 5), ranked("b", 100, 5), ranked("c", 100, 9)];
    let plan = plan_placement(&devices, &InitialShares::Proportional(vec![1, 1, 1]), 5, 1);
    assert_eq!(counts(&plan), vec![2, 1, 2]);
}

#[test]
fn shortfall_spills_onto_last_largest_device() {
    // capacities 3, 5, 5: 13 layers fit, the other 7 go to the last of the largest
    let devices = vec![ranked("a", 30, 9), ranked("b", 50, 1), ranked("c", 50, 2)];
    let plan = plan_placement(&devices, &InitialShares::Uniform, 20, 10);
    assert_eq!(counts(&plan), vec![3, 5, 12]);
}

#[test]
fn uniform_shares_split_evenly_then_fastest_gets_rest() {
    let devices = vec![ranked("a", 1000, 1), ranked("b", 1000, 2), ranked("c", 1000, 3)];
    let plan = plan_placement(&devices, &InitialShares::Uniform, 10, 1);
    assert_eq!(counts(&plan), vec![3, 3, 4]);
}

#[test]
fn capacity_saturates_at_u32_max() {
    // room for 2^32 + 3 layers counts as room for u32::MAX layers, never fewer
    let devices = vec![ranked("a", (1u64 << 32) + 3, 1), ranked("b", 100, 0)];
    let plan = plan_placement(&devices, &InitialShares::Proportional(vec![0, 0]), 10, 1);
    assert_eq!(counts(&plan), vec![5, 5]);
}

#[test]
fn device_with_huge_memory_is_not_treated_as_full() {
    let devices = vec![
        profile("a", 10.0, 4_294_967_296),
        profile("b", 10.0, 5),
    ];
    let plan = place(&devices, 10, 1);
    assert_eq!(counts(&plan), vec![5, 5]);
}

#[test]
fn oversized_shares_do_not_fit() {
    let devices = vec![ranked("a", 100, 1), ranked("b", 100, 2)];
    assert!(!initial_shares_fit(&devices, &InitialShares::Proportional(vec![6, 5]), 10, 1));
    assert!(initial_shares_fit(&devices, &InitialShares::Proportional(vec![6, 4]), 10, 1));
    // capped by capacity, large shares can still fit
    let small = vec![ranked("a", 3, 1), ranked("b", 3, 2)];
    assert!(initial_shares_fit(&small, &InitialShares::Proportional(vec![u32::MAX, 4]), 10, 1));
}

#[test]
fn same_inputs_give_same_plan() {
    let devices = vec![ranked("a", 7, 4), ranked("b", 100, 4), ranked("c", 3, 8), ranked("d", 50, 1)];
    let shares = InitialShares::Proportional(vec![2, 9, 1, 0]);
    let first = plan_placement(&devices, &shares, 40, 1);
    let second = plan_placement(&devices, &shares, 40, 1);
    assert_eq!(first, second);
    assert_eq!(counts(&first).iter().sum::<u32>(), 40);
}
