//! Layer placement: how many of a model's layers each device runs.
//!
//! Each device starts from its initial share of the layers (proportional
//! to its compute score, worked out by the caller), capped by how many
//! layers fit in its memory. The layers left over are then handed out one
//! at a time, round-robin over the devices fastest first, to the devices
//! that still have room. If every device is full before all layers are
//! placed, the rest goes to the device with the largest capacity.

use vstd::prelude::*;

verus! {

/// The number of model layers given to one device.
#[derive(Debug, Clone, PartialEq, Eq)]
pub struct LayerAssignment {
    pub device_id: String,
    pub layer_count: u32,
}

/// `i` comes before `j` in the fastest-first order: it has the higher
/// speed rank, or the same rank and an earlier position.
pub open spec fn precedes(ranks: Seq<u64>, i: int, j: int) -> bool {
    ranks[i] > ranks[j] || (ranks[i] == ranks[j] && i < j)
}

/// The positions `0..ranks.len()`, sorted fastest first (stable: equal
/// ranks keep their order).
fn fastest_first(ranks: &Vec<u64>) -> (order: Vec<usize>)
    ensures
        order.len() == ranks.len(),
        forall|q: int| 0 <= q < order.len() ==> order[q] < ranks.len(),
        forall|i: usize| i < ranks.len() ==> #[trigger] order@.contains(i),
        forall|p: int, q: int|
            0 <= p < q < order.len() ==> precedes(ranks@, order[p] as int, order[q] as int),
{
    let mut order: Vec<usize> = Vec::new();
    let mut i: usize = 0;
    while i < ranks.len()
        invariant
            0 <= i <= ranks.len(),
            order.len() == i,
            forall|q: int| 0 <= q < order.len() ==> order[q] < i,
            forall|j: usize| j < i ==> #[trigger] order@.contains(j),
            forall|p: int, q: int|
                0 <= p < q < order.len() ==> precedes(ranks@, order[p] as int, order[q] as int),
        decreases ranks.len() - i,
    {
        let mut pos: usize = 0;
        while pos < order.len() && ranks[order[pos]] >= ranks[i]
            invariant
                0 <= pos <= order.len(),
                order.len() == i,
                i < ranks.len(),
                forall|q: int| 0 <= q < order.len() ==> order[q] < i,
                forall|q: int| 0 <= q < pos ==> precedes(ranks@, order[q] as int, i as int),
            decreases order.len() - pos,
        {
            pos = pos + 1;
        }
        let ghost old_order = order@;
        order.insert(pos, i);
        proof {
            old_order.insert_ensures(pos as int, i);
            assert(pos < old_order.len() ==> precedes(ranks@, i as int, old_order[pos as int] as int));
            assert forall|p: int, q: int| 0 <= p < q < order.len() implies precedes(
                ranks@,
                order[p] as int,
                order[q] as int,
            ) by {
                if q < pos {
                } else if q == pos {
                } else if p < pos {
                    assert(order[q] == old_order[q - 1]);
                } else if p == pos {
                    assert(order[q] == old_order[q - 1]);
                    if q - 1 > pos {
                        assert(precedes(ranks@, old_order[pos as int] as int, old_order[q - 1] as int));
                    }
                } else {
                    assert(order[q] == old_order[q - 1]);
                    assert(order[p] == old_order[p - 1]);
                }
            }
            assert forall|j: usize| j < i + 1 implies #[trigger] order@.contains(j) by {
                if j == i {
                    assert(order[pos as int] == i);
                } else {
                    assert(old_order.contains(j));
                    let q = choose|q: int| 0 <= q < old_order.len() && old_order[q] == j;
                    if q < pos {
                        assert(order[q] == j);
                    } else {
                        assert(order[q + 1] == j);
                    }
                }
            }
            assert forall|q: int| 0 <= q < order.len() implies order[q] < i + 1 by {
                if q < pos {
                } else if q > pos {
                    assert(order[q] == old_order[q - 1]);
                }
            }
        }
        i = i + 1;
    }
    order
}


/// A device as placement sees it: its id, its free memory, and a speed
/// rank that orders devices as their compute scores do (higher is faster,
/// equal scores give equal ranks).
#[derive(Debug, Clone)]
pub struct RankedDevice {
    pub device_id: String,
    pub available_mem_bytes: u64,
    pub speed_rank: u64,
}

/// Where each device's initial share of the layers comes from.
#[derive(Debug, Clone)]
pub enum InitialShares {
    /// One share per device, in device order: the floor of its fraction of
    /// the summed compute scores times the number of layers.
    Proportional(Vec<u32>),
    /// The summed compute scores are not positive: every device starts
    /// from `total_layers / number_of_devices`.
    Uniform,
}

/// The number of whole layers that fit in a device's free memory, capped
/// at `u32::MAX` (a device never counts as holding fewer layers than fit).
pub open spec fn capacity_of(d: RankedDevice, bytes_per_layer: u64) -> u32 {
    let fit = d.available_mem_bytes / bytes_per_layer;
    if fit > u32::MAX {
        u32::MAX
    } else {
        fit as u32
    }
}

pub open spec fn capacities(devices: Seq<RankedDevice>, bytes_per_layer: u64) -> Seq<u32> {
    devices.map_values(|d: RankedDevice| capacity_of(d, bytes_per_layer))
}

pub open spec fn speed_ranks(devices: Seq<RankedDevice>) -> Seq<u64> {
    devices.map_values(|d: RankedDevice| d.speed_rank)
}

/// The initial share of device `i` out of `n`.
pub open spec fn share_of(shares: InitialShares, n: nat, total_layers: u32, i: int) -> u32 {
    match shares {
        InitialShares::Proportional(v) => v@[i],
        InitialShares::Uniform => (total_layers / (n as u32)) as u32,
    }
}

/// The shares fit the devices: one per device, or a device count that the
/// uniform split can divide by.
pub open spec fn shares_match(shares: InitialShares, n: nat) -> bool {
    match shares {
        InitialShares::Proportional(v) => v@.len() == n,
        InitialShares::Uniform => 0 < n <= u32::MAX,
    }
}

pub open spec fn min_u32(a: u32, b: u32) -> u32 {
    if a <= b {
        a
    } else {
        b
    }
}

pub open spec fn min_int(a: int, b: int) -> int {
    if a <= b {
        a
    } else {
        b
    }
}

/// Each device's initial share, capped by its capacity.
pub open spec fn starting_counts(
    devices: Seq<RankedDevice>,
    shares: InitialShares,
    total_layers: u32,
    bytes_per_layer: u64,
) -> Seq<u32> {
    Seq::new(
        devices.len(),
        |i: int|
            min_u32(
                share_of(shares, devices.len(), total_layers, i),
                capacity_of(devices[i], bytes_per_layer),
            ),
    )
}

pub open spec fn layer_counts(plan: Seq<LayerAssignment>) -> Seq<u32> {
    plan.map_values(|a: LayerAssignment| a.layer_count)
}

/// The sum of a list of counts.
pub open spec fn total(s: Seq<u32>) -> int
    decreases s.len(),
{
    if s.len() == 0 {
        0
    } else {
        total(s.drop_last()) + s.last()
    }
}

/// The position of the largest capacity, the last one where several are
/// equally large.
pub open spec fn last_max_index(caps: Seq<u32>) -> int
    decreases caps.len(),
{
    if caps.len() <= 1 {
        0
    } else {
        let j = last_max_index(caps.drop_last());
        if caps.last() >= caps[j] {
            caps.len() - 1
        } else {
            j
        }
    }
}

/// `counts` is the round-robin fill of `start` up to `cap`: every device
/// keeps its start and stays within its capacity, and a device that still
/// has room has at most one extra layer fewer than any other device, the
/// devices with that one more coming before it in the fastest-first order.
pub open spec fn spread_round_robin(
    start: Seq<u32>,
    cap: Seq<u32>,
    ranks: Seq<u64>,
    counts: Seq<u32>,
) -> bool {
    &&& counts.len() == start.len()
    &&& forall|i: int| 0 <= i < counts.len() ==> start[i] <= #[trigger] counts[i] <= cap[i]
    &&& forall|i: int, j: int|
        #![trigger counts[i], counts[j]]
        0 <= i < counts.len() && 0 <= j < counts.len() && counts[j] < cap[j] ==> {
            &&& counts[i] - start[i] <= counts[j] - start[j] + 1
            &&& (counts[i] - start[i] == counts[j] - start[j] + 1 ==> precedes(ranks, i, j))
        }
}

/// `counts` fills every device to capacity and puts the layers beyond the
/// total capacity on the device of largest capacity.
pub open spec fn spill_to_largest(cap: Seq<u32>, total_layers: u32, counts: Seq<u32>) -> bool {
    &&& counts.len() == cap.len()
    &&& forall|i: int|
        0 <= i < counts.len() ==> #[trigger] counts[i] == cap[i] + if i == last_max_index(cap) {
            total_layers - total(cap)
        } else {
            0
        }
}

proof fn lemma_total_nonneg(s: Seq<u32>)
    ensures
        total(s) >= 0,
    decreases s.len(),
{
    if s.len() > 0 {
        lemma_total_nonneg(s.drop_last());
    }
}

proof fn lemma_total_update(s: Seq<u32>, i: int, v: u32)
    requires
        0 <= i < s.len(),
    ensures
        total(s.update(i, v)) == total(s) - s[i] + v,
    decreases s.len(),
{
    if i == s.len() - 1 {
        assert(s.update(i, v).drop_last() =~= s.drop_last());
    } else {
        lemma_total_update(s.drop_last(), i, v);
        assert(s.update(i, v).drop_last() =~= s.drop_last().update(i, v));
    }
}

proof fn lemma_total_le(a: Seq<u32>, b: Seq<u32>)
    requires
        a.len() == b.len(),
        forall|i: int| 0 <= i < a.len() ==> a[i] <= b[i],
    ensures
        total(a) <= total(b),
    decreases a.len(),
{
    if a.len() > 0 {
        lemma_total_le(a.drop_last(), b.drop_last());
    }
}

proof fn lemma_element_le_total(s: Seq<u32>, i: int)
    requires
        0 <= i < s.len(),
    ensures
        s[i] <= total(s),
    decreases s.len(),
{
    lemma_total_nonneg(s.drop_last());
    if i < s.len() - 1 {
        lemma_element_le_total(s.drop_last(), i);
    }
}

proof fn lemma_total_take_step(s: Seq<u32>, i: int)
    requires
        0 <= i < s.len(),
    ensures
        total(s.take(i + 1)) == total(s.take(i)) + s[i],
{
    assert(s.take(i + 1).drop_last() =~= s.take(i));
}

proof fn lemma_total_prefix(s: Seq<u32>, i: int)
    requires
        0 <= i <= s.len(),
    ensures
        total(s.take(i)) <= total(s),
    decreases s.len() - i,
{
    if i == s.len() {
        assert(s.take(i) =~= s);
    } else {
        lemma_total_take_step(s, i);
        lemma_total_prefix(s, i + 1);
    }
}

/// `order` lists the positions `0..ranks.len()` once each, fastest first.
pub open spec fn is_fastest_first(ranks: Seq<u64>, order: Seq<usize>) -> bool {
    &&& ranks.len() <= usize::MAX
    &&& order.len() == ranks.len()
    &&& forall|q: int| 0 <= q < order.len() ==> order[q] < ranks.len()
    &&& forall|i: usize| i < ranks.len() ==> #[trigger] order.contains(i)
    &&& forall|p: int, q: int|
        0 <= p < q < order.len() ==> precedes(ranks, order[p] as int, order[q] as int)
}

/// After `k` full round-robin passes over `order` and `pp` steps of the
/// next one, each device holds its start plus as many extra layers as it
/// was visited, never beyond its capacity.
pub open spec fn filled_to_level(
    start: Seq<u32>,
    cap: Seq<u32>,
    order: Seq<usize>,
    k: int,
    pp: int,
    counts: Seq<u32>,
) -> bool {
    forall|q: int|
        0 <= q < order.len() ==> counts[#[trigger] order[q] as int] == start[order[q] as int]
            + min_int(
            cap[order[q] as int] - start[order[q] as int],
            k + if q < pp {
                1int
            } else {
                0int
            },
        )
}

proof fn lemma_position_of(ranks: Seq<u64>, order: Seq<usize>, i: int) -> (q: int)
    requires
        is_fastest_first(ranks, order),
        0 <= i < ranks.len(),
    ensures
        0 <= q < order.len(),
        order[q] == i,
{
    assert(order.contains(i as usize));
    choose|q: int| 0 <= q < order.len() && order[q] == i as usize
}

proof fn lemma_level_fill_is_round_robin(
    start: Seq<u32>,
    cap: Seq<u32>,
    ranks: Seq<u64>,
    order: Seq<usize>,
    k: int,
    pp: int,
    counts: Seq<u32>,
)
    requires
        start.len() == cap.len(),
        cap.len() == ranks.len(),
        counts.len() == ranks.len(),
        is_fastest_first(ranks, order),
        0 <= pp,
        0 <= k,
        forall|i: int| 0 <= i < start.len() ==> start[i] <= cap[i],
        filled_to_level(start, cap, order, k, pp, counts),
    ensures
        spread_round_robin(start, cap, ranks, counts),
{
    assert forall|i: int| 0 <= i < counts.len() implies start[i] <= #[trigger] counts[i] <= cap[i] by {
        let q = lemma_position_of(ranks, order, i);
        assert(counts[order[q] as int] == counts[i]);
    }
    assert forall|i: int, j: int|
        #![trigger counts[i], counts[j]]
        0 <= i < counts.len() && 0 <= j < counts.len() && counts[j] < cap[j] implies {
            &&& counts[i] - start[i] <= counts[j] - start[j] + 1
            &&& (counts[i] - start[i] == counts[j] - start[j] + 1 ==> precedes(ranks, i, j))
        } by {
        let qi = lemma_position_of(ranks, order, i);
        let qj = lemma_position_of(ranks, order, j);
        assert(counts[order[qi] as int] == counts[i]);
        assert(counts[order[qj] as int] == counts[j]);
        if counts[i] - start[i] == counts[j] - start[j] + 1 {
            assert(qi < pp);
            assert(!(qj < pp));
            assert(qi < qj);
        }
    }
}

/// All devices are at capacity once a full pass found none with room.
proof fn lemma_no_room_means_full(
    start: Seq<u32>,
    cap: Seq<u32>,
    ranks: Seq<u64>,
    order: Seq<usize>,
    k: int,
    counts: Seq<u32>,
)
    requires
        start.len() == cap.len(),
        cap.len() == ranks.len(),
        counts.len() == ranks.len(),
        is_fastest_first(ranks, order),
        0 <= k,
        filled_to_level(start, cap, order, k, order.len() as int, counts),
        forall|q: int|
            0 <= q < order.len() ==> cap[#[trigger] order[q] as int] - start[order[q] as int] <= k,
    ensures
        counts == cap,
{
    assert forall|i: int| 0 <= i < counts.len() implies counts[i] == cap[i] by {
        let q = lemma_position_of(ranks, order, i);
        assert(counts[order[q] as int] == counts[i]);
    }
    assert(counts =~= cap);
}

/// The capacities, capped initial shares and speed ranks of `devices`.
fn placement_inputs(
    devices: &Vec<RankedDevice>,
    shares: &InitialShares,
    total_layers: u32,
    bytes_per_layer: u64,
) -> (res: (Vec<u32>, Vec<u32>, Vec<u64>))
    requires
        bytes_per_layer > 0,
        shares_match(*shares, devices.len() as nat),
    ensures
        res.0@ == capacities(devices@, bytes_per_layer),
        res.1@ == starting_counts(devices@, *shares, total_layers, bytes_per_layer),
        res.2@ == speed_ranks(devices@),
{
    let n = devices.len();
    let mut caps: Vec<u32> = Vec::new();
    let mut starts: Vec<u32> = Vec::new();
    let mut ranks: Vec<u64> = Vec::new();
    let mut i: usize = 0;
    while i < n
        invariant
            0 <= i <= n,
            n == devices.len(),
            bytes_per_layer > 0,
            shares_match(*shares, n as nat),
            caps@ == capacities(devices@, bytes_per_layer).take(i as int),
            starts@ == starting_counts(devices@, *shares, total_layers, bytes_per_layer).take(i as int),
            ranks@ == speed_ranks(devices@).take(i as int),
        decreases n - i,
    {
        let fit = devices[i].available_mem_bytes / bytes_per_layer;
        let cap: u32 = if fit > u32::MAX as u64 {
            u32::MAX
        } else {
            fit as u32
        };
        let share = match shares {
            InitialShares::Proportional(v) => v[i],
            InitialShares::Uniform => total_layers / (n as u32),
        };
        let start = if share <= cap {
            share
        } else {
            cap
        };
        caps.push(cap);
        starts.push(start);
        ranks.push(devices[i].speed_rank);
        proof {
            assert(caps@ =~= capacities(devices@, bytes_per_layer).take(i + 1));
            assert(starts@ =~= starting_counts(devices@, *shares, total_layers, bytes_per_layer).take(i + 1));
            assert(ranks@ =~= speed_ranks(devices@).take(i + 1));
        }
        i = i + 1;
    }
    proof {
        assert(caps@ =~= capacities(devices@, bytes_per_layer));
        assert(starts@ =~= starting_counts(devices@, *shares, total_layers, bytes_per_layer));
        assert(ranks@ =~= speed_ranks(devices@));
    }
    (caps, starts, ranks)
}

/// The sum of `counts` if it is at most `limit`, `None` if it exceeds it.
fn total_within(counts: &Vec<u32>, limit: u32) -> (sum: Option<u32>)
    ensures
        match sum {
            Some(s) => s == total(counts@) && total(counts@) <= limit,
            None => total(counts@) > limit,
        },
{
    let mut acc: u64 = 0;
    let mut i: usize = 0;
    while i < counts.len()
        invariant
            0 <= i <= counts.len(),
            acc == total(counts@.take(i as int)),
            acc <= limit,
        decreases counts.len() - i,
    {
        proof {
            lemma_total_take_step(counts@, i as int);
        }
        acc = acc + counts[i] as u64;
        if acc > limit as u64 {
            proof {
                lemma_total_prefix(counts@, i + 1);
            }
            return None;
        }
        i = i + 1;
    }
    proof {
        assert(counts@.take(counts.len() as int) =~= counts@);
    }
    Some(acc as u32)
}

/// Whether the capped initial shares of `devices` leave no more layers
/// placed than `total_layers` (what `plan_placement` requires).
pub fn initial_shares_fit(
    devices: &Vec<RankedDevice>,
    shares: &InitialShares,
    total_layers: u32,
    bytes_per_layer: u64,
) -> (fits: bool)
    requires
        bytes_per_layer > 0,
        shares_match(*shares, devices.len() as nat),
    ensures
        fits == (total(starting_counts(devices@, *shares, total_layers, bytes_per_layer))
            <= total_layers),
{
    let (_caps, starts, _ranks) = placement_inputs(devices, shares, total_layers, bytes_per_layer);
    match total_within(&starts, total_layers) {
        Some(_) => true,
        None => false,
    }
}

/// The position of the largest of `caps`, the last one on ties.
fn largest_capacity(caps: &Vec<u32>) -> (b: usize)
    requires
        caps.len() > 0,
    ensures
        b == last_max_index(caps@),
        b < caps.len(),
{
    let mut best: usize = 0;
    let mut i: usize = 1;
    while i < caps.len()
        invariant
            1 <= i <= caps.len(),
            best < i,
            best == last_max_index(caps@.take(i as int)),
        decreases caps.len() - i,
    {
        proof {
            assert(caps@.take(i + 1).drop_last() =~= caps@.take(i as int));
            assert(caps@.take(i + 1).last() == caps@[i as int]);
            assert(caps@.take(i as int)[best as int] == caps@[best as int]);
        }
        if caps[i] >= caps[best] {
            best = i;
        }
        i = i + 1;
    }
    proof {
        assert(caps@.take(caps.len() as int) =~= caps@);
    }
    best
}

proof fn lemma_total_lt(a: Seq<u32>, b: Seq<u32>, k: int)
    requires
        a.len() == b.len(),
        forall|i: int| 0 <= i < a.len() ==> a[i] <= b[i],
        0 <= k < a.len(),
        a[k] < b[k],
    ensures
        total(a) < total(b),
    decreases a.len(),
{
    if k == a.len() - 1 {
        lemma_total_le(a.drop_last(), b.drop_last());
    } else {
        lemma_total_lt(a.drop_last(), b.drop_last(), k);
    }
}

/// Of two distinct count lists with the same total, each has an entry
/// above the other's.
proof fn lemma_some_entry_above(a: Seq<u32>, b: Seq<u32>) -> (i: int)
    requires
        a.len() == b.len(),
        a != b,
        total(a) == total(b),
    ensures
        0 <= i < a.len(),
        a[i] > b[i],
{
    if forall|i: int| 0 <= i < a.len() ==> a[i] <= b[i] {
        if exists|k: int| 0 <= k < a.len() && a[k] < b[k] {
            let k = choose|k: int| 0 <= k < a.len() && a[k] < b[k];
            lemma_total_lt(a, b, k);
        } else {
            assert(a =~= b);
        }
        0
    } else {
        choose|i: int| 0 <= i < a.len() && a[i] > b[i]
    }
}

/// Round-robin spreading is determined by its total: two count lists that
/// are both round-robin fills of the same starts and capacities, under the
/// same speed ranks, and hold the same number of layers, are equal.
pub proof fn lemma_round_robin_determined(
    start: Seq<u32>,
    cap: Seq<u32>,
    ranks: Seq<u64>,
    a: Seq<u32>,
    b: Seq<u32>,
)
    requires
        start.len() == cap.len(),
        cap.len() == ranks.len(),
        spread_round_robin(start, cap, ranks, a),
        spread_round_robin(start, cap, ranks, b),
        total(a) == total(b),
    ensures
        a == b,
{
    if a != b {
        let i = lemma_some_entry_above(a, b);
        let j = lemma_some_entry_above(b, a);
        assert(a[j] < cap[j]);
        assert(b[i] < cap[i]);
        assert(a[i] - start[i] <= a[j] - start[j] + 1);
        assert(b[j] - start[j] <= b[i] - start[i] + 1);
        assert(precedes(ranks, i, j));
        assert(precedes(ranks, j, i));
    }
}

/// A placement is determined by its inputs: two plans for the same
/// devices, shares, layer total and layer size that both meet the contract
/// of `plan_placement` give every device the same number of layers.
pub proof fn lemma_placement_determined(
    devices: Seq<RankedDevice>,
    shares: InitialShares,
    total_layers: u32,
    bytes_per_layer: u64,
    plan_a: Seq<LayerAssignment>,
    plan_b: Seq<LayerAssignment>,
)
    requires
        plan_a.len() == devices.len(),
        plan_b.len() == devices.len(),
        total(layer_counts(plan_a)) == total_layers,
        total(layer_counts(plan_b)) == total_layers,
        total(capacities(devices, bytes_per_layer)) >= total_layers ==> spread_round_robin(
            starting_counts(devices, shares, total_layers, bytes_per_layer),
            capacities(devices, bytes_per_layer),
            speed_ranks(devices),
            layer_counts(plan_a),
        ),
        total(capacities(devices, bytes_per_layer)) >= total_layers ==> spread_round_robin(
            starting_counts(devices, shares, total_layers, bytes_per_layer),
            capacities(devices, bytes_per_layer),
            speed_ranks(devices),
            layer_counts(plan_b),
        ),
        total(capacities(devices, bytes_per_layer)) < total_layers ==> spill_to_largest(
            capacities(devices, bytes_per_layer),
            total_layers,
            layer_counts(plan_a),
        ),
        total(capacities(devices, bytes_per_layer)) < total_layers ==> spill_to_largest(
            capacities(devices, bytes_per_layer),
            total_layers,
            layer_counts(plan_b),
        ),
    ensures
        layer_counts(plan_a) == layer_counts(plan_b),
{
    let cap = capacities(devices, bytes_per_layer);
    if total(cap) >= total_layers {
        lemma_round_robin_determined(
            starting_counts(devices, shares, total_layers, bytes_per_layer),
            cap,
            speed_ranks(devices),
            layer_counts(plan_a),
            layer_counts(plan_b),
        );
    } else {
        assert(layer_counts(plan_a) =~= layer_counts(plan_b));
    }
}

/// Places `total_layers` layers of `bytes_per_layer` bytes each on
/// `devices`, one assignment per device in the order given.
///
/// Each device starts from its initial share capped by its capacity; the
/// layers left over go round-robin, fastest device first, to the devices
/// that still have room. When the devices cannot hold every layer, each is
/// filled to capacity and the excess goes to the device of largest
/// capacity, so that no layer is dropped.
pub fn plan_placement(
    devices: &Vec<RankedDevice>,
    shares: &InitialShares,
    total_layers: u32,
    bytes_per_layer: u64,
) -> (plan: Vec<LayerAssignment>)
    requires
        devices.len() > 0,
        bytes_per_layer > 0,
        shares_match(*shares, devices.len() as nat),
        total(starting_counts(devices@, *shares, total_layers, bytes_per_layer)) <= total_layers,
    ensures
        plan.len() == devices.len(),
        forall|i: int|
            0 <= i < devices.len() ==> #[trigger] plan[i].device_id@ == devices[i].device_id@,
        total(layer_counts(plan@)) == total_layers,
        total(capacities(devices@, bytes_per_layer)) >= total_layers ==> spread_round_robin(
            starting_counts(devices@, *shares, total_layers, bytes_per_layer),
            capacities(devices@, bytes_per_layer),
            speed_ranks(devices@),
            layer_counts(plan@),
        ),
        total(capacities(devices@, bytes_per_layer)) < total_layers ==> spill_to_largest(
            capacities(devices@, bytes_per_layer),
            total_layers,
            layer_counts(plan@),
        ),
        total(capacities(devices@, bytes_per_layer)) >= total_layers ==> forall|i: int|
            0 <= i < plan.len() ==> (#[trigger] plan[i]).layer_count * bytes_per_layer
                <= devices[i].available_mem_bytes,
{
    let n = devices.len();
    let (caps, mut assigned, ranks) = placement_inputs(
        devices,
        shares,
        total_layers,
        bytes_per_layer,
    );
    let ghost start = assigned@;
    let ghost cap = caps@;

    let placed = match total_within(&assigned, total_layers) {
        Some(s) => s,
        None => 0,  // ruled out by the precondition
    };
    let mut remaining: u32 = total_layers - placed;

    let order = fastest_first(&ranks);

    let ghost mut k: int = 0;
    let ghost mut pp: int = 0;
    let ghost mut overflowed: bool = false;
    proof {
        assert(filled_to_level(start, cap, order@, k, pp, assigned@)) by {
            assert forall|q: int| 0 <= q < order.len() implies assigned@[#[trigger] order@[q] as int]
                == start[order@[q] as int] + min_int(
                cap[order@[q] as int] - start[order@[q] as int],
                k + if q < pp {
                    1int
                } else {
                    0int
                },
            ) by {
                let i = order@[q] as int;
                assert(start[i] <= cap[i]);
            }
        }
    }

    while remaining > 0
        invariant
            n == devices.len(),
            n > 0,
            caps@ == cap,
            cap == capacities(devices@, bytes_per_layer),
            start == starting_counts(devices@, *shares, total_layers, bytes_per_layer),
            is_fastest_first(ranks@, order@),
            ranks@ == speed_ranks(devices@),
            assigned.len() == n,
            start.len() == n,
            cap.len() == n,
            forall|i: int| 0 <= i < n ==> start[i] <= cap[i],
            total(assigned@) + remaining == total_layers,
            0 <= k,
            !overflowed ==> 0 <= pp <= n && (remaining > 0 ==> pp == 0) && filled_to_level(
                start,
                cap,
                order@,
                k,
                pp,
                assigned@,
            ),
            overflowed ==> remaining == 0 && total(cap) < total_layers && spill_to_largest(
                cap,
                total_layers,
                assigned@,
            ),
        decreases remaining,
    {
        let ghost rem0 = remaining;
        let mut progressed = false;
        let mut p: usize = 0;
        while p < n && remaining > 0
            invariant
                n == devices.len(),
                caps@ == cap,
                is_fastest_first(ranks@, order@),
                assigned.len() == n,
                start.len() == n,
                cap.len() == n,
                order.len() == n,
                forall|i: int| 0 <= i < n ==> start[i] <= cap[i],
                total(assigned@) + remaining == total_layers,
                0 <= k,
                0 <= p <= n,
                rem0 > 0,
                remaining <= rem0,
                progressed ==> remaining < rem0,
                !progressed ==> remaining == rem0,
                !progressed ==> forall|q: int|
                    0 <= q < p ==> cap[#[trigger] order@[q] as int] - start[order@[q] as int] <= k,
                filled_to_level(start, cap, order@, k, p as int, assigned@),
            decreases n - p,
        {
            let i = order[p];
            proof {
                assert(order@[p as int] < n);
            }
            if assigned[i] < caps[i] {
                let ghost before = assigned@;
                assigned.set(i, assigned[i] + 1);
                proof {
                    lemma_total_update(before, i as int, (before[i as int] + 1) as u32);
                }
                remaining = remaining - 1;
                progressed = true;
            }
            proof {
                assert forall|q: int| 0 <= q < order.len() implies assigned@[#[trigger] order@[q] as int]
                    == start[order@[q] as int] + min_int(
                    cap[order@[q] as int] - start[order@[q] as int],
                    k + if q < p + 1 {
                        1int
                    } else {
                        0int
                    },
                ) by {
                    if q != p {
                        if q < p {
                            assert(precedes(ranks@, order@[q] as int, order@[p as int] as int));
                        } else {
                            assert(precedes(ranks@, order@[p as int] as int, order@[q] as int));
                        }
                    }
                }
            }
            p = p + 1;
        }
        if !progressed {
            proof {
                lemma_no_room_means_full(start, cap, ranks@, order@, k, assigned@);
                assert(total(cap) + remaining == total_layers);
            }
            let biggest = largest_capacity(&caps);
            proof {
                lemma_element_le_total(assigned@, biggest as int);
            }
            let ghost before = assigned@;
            assigned.set(biggest, assigned[biggest] + remaining);
            proof {
                lemma_total_update(before, biggest as int, (before[biggest as int] + remaining) as u32);
                assert forall|i: int| 0 <= i < assigned.len() implies #[trigger] assigned@[i] == cap[i]
                    + if i == last_max_index(cap) {
                    total_layers - total(cap)
                } else {
                    0
                } by {}
                overflowed = true;
            }
            remaining = 0;
        } else {
            proof {
                if p == n {
                    k = k + 1;
                    pp = 0;
                    assert forall|q: int| 0 <= q < order.len() implies assigned@[#[trigger] order@[
                        q
                    ] as int] == start[order@[q] as int] + min_int(
                        cap[order@[q] as int] - start[order@[q] as int],
                        k + if q < pp {
                            1int
                        } else {
                            0int
                        },
                    ) by {}
                } else {
                    pp = p as int;
                }
            }
        }
    }

    proof {
        if !overflowed {
            lemma_level_fill_is_round_robin(start, cap, ranks@, order@, k, pp, assigned@);
            lemma_total_le(assigned@, cap);
        }
    }

    let mut plan: Vec<LayerAssignment> = Vec::new();
    let mut i: usize = 0;
    while i < n
        invariant
            0 <= i <= n,
            n == devices.len(),
            assigned.len() == n,
            plan.len() == i,
            forall|j: int| 0 <= j < i ==> #[trigger] plan[j].device_id@ == devices[j].device_id@,
            forall|j: int| 0 <= j < i ==> #[trigger] plan[j].layer_count == assigned[j],
        decreases n - i,
    {
        plan.push(
            LayerAssignment { device_id: devices[i].device_id.clone(), layer_count: assigned[i] },
        );
        i = i + 1;
    }
    proof {
        assert(layer_counts(plan@) =~= assigned@);
        if total(capacities(devices@, bytes_per_layer)) >= total_layers {
            lemma_plan_fits_memory(devices@, *shares, total_layers, bytes_per_layer, plan@);
        }
    }
    plan
}


proof fn lemma_whole_layers(mem: u64, bytes_per_layer: u64)
    requires
        bytes_per_layer > 0,
    ensures
        (mem / bytes_per_layer) * bytes_per_layer <= mem,
        mem < (mem / bytes_per_layer + 1) * bytes_per_layer,
{
    let m = mem as int;
    let b = bytes_per_layer as int;
    vstd::arithmetic::div_mod::lemma_fundamental_div_mod(m, b);
    vstd::arithmetic::div_mod::lemma_mod_pos_bound(m, b);
    assert((m / b) * b == b * (m / b)) by (nonlinear_arith);
    assert((m / b + 1) * b == b * (m / b) + b) by (nonlinear_arith);
}

/// Capacity counts whole layers that fit: a device's capacity times the
/// layer size never exceeds its free memory, and one more layer would not
/// fit, unless the capacity is `u32::MAX`.
pub proof fn lemma_capacities_are_whole_layers(devices: Seq<RankedDevice>, bytes_per_layer: u64)
    requires
        bytes_per_layer > 0,
    ensures
        capacities(devices, bytes_per_layer).len() == devices.len(),
        forall|i: int|
            0 <= i < devices.len() ==> {
                let c = #[trigger] capacities(devices, bytes_per_layer)[i] as int;
                &&& c * bytes_per_layer <= devices[i].available_mem_bytes
                &&& (c == u32::MAX || devices[i].available_mem_bytes < (c + 1) * bytes_per_layer)
            },
{
    assert forall|i: int| 0 <= i < devices.len() implies {
        let c = #[trigger] capacities(devices, bytes_per_layer)[i] as int;
        &&& c * bytes_per_layer <= devices[i].available_mem_bytes
        &&& (c == u32::MAX || devices[i].available_mem_bytes < (c + 1) * bytes_per_layer)
    } by {
        let mem = devices[i].available_mem_bytes;
        let fit = (mem / bytes_per_layer) as int;
        let c = capacities(devices, bytes_per_layer)[i] as int;
        lemma_whole_layers(mem, bytes_per_layer);
        if fit > u32::MAX {
            assert(c == u32::MAX);
            assert(c * bytes_per_layer <= fit * bytes_per_layer) by (nonlinear_arith)
                requires
                    0 <= c <= fit,
                    bytes_per_layer > 0,
            ;
        } else {
            assert(c == fit);
        }
    }
}

/// No device is given more layers than fit in its free memory, whenever
/// the devices can hold all the layers.
pub proof fn lemma_plan_fits_memory(
    devices: Seq<RankedDevice>,
    shares: InitialShares,
    total_layers: u32,
    bytes_per_layer: u64,
    plan: Seq<LayerAssignment>,
)
    requires
        bytes_per_layer > 0,
        plan.len() == devices.len(),
        total(capacities(devices, bytes_per_layer)) >= total_layers,
        spread_round_robin(
            starting_counts(devices, shares, total_layers, bytes_per_layer),
            capacities(devices, bytes_per_layer),
            speed_ranks(devices),
            layer_counts(plan),
        ),
    ensures
        forall|i: int|
            0 <= i < plan.len() ==> (#[trigger] plan[i]).layer_count * bytes_per_layer
                <= devices[i].available_mem_bytes,
{
    lemma_capacities_are_whole_layers(devices, bytes_per_layer);
    let cap = capacities(devices, bytes_per_layer);
    let counts = layer_counts(plan);
    assert forall|i: int| 0 <= i < plan.len() implies (#[trigger] plan[i]).layer_count
        * bytes_per_layer <= devices[i].available_mem_bytes by {
        assert(counts[i] == plan[i].layer_count);
        assert(counts[i] <= cap[i]);
        let a = plan[i].layer_count as int;
        let c = cap[i] as int;
        assert(a * bytes_per_layer <= c * bytes_per_layer) by (nonlinear_arith)
            requires
                0 <= a <= c,
                bytes_per_layer > 0,
        ;
    }
}

/// Each device starts from its share capped by its capacity: at most
/// either, and equal to one of them. A proportional share is the caller's
/// entry for that device; a uniform share is the whole number of layers
/// per device, `share * n <= total_layers < (share + 1) * n`.
pub proof fn lemma_starts_are_capped_shares(
    devices: Seq<RankedDevice>,
    shares: InitialShares,
    total_layers: u32,
    bytes_per_layer: u64,
)
    requires
        shares_match(shares, devices.len()),
    ensures
        starting_counts(devices, shares, total_layers, bytes_per_layer).len() == devices.len(),
        forall|i: int|
            0 <= i < devices.len() ==> {
                let s = #[trigger] starting_counts(devices, shares, total_layers, bytes_per_layer)[i];
                let share = share_of(shares, devices.len(), total_layers, i);
                let c = capacities(devices, bytes_per_layer)[i];
                &&& s <= share
                &&& s <= c
                &&& (s == share || s == c)
            },
        forall|i: int|
            0 <= i < devices.len() ==> match shares {
                InitialShares::Proportional(v) => #[trigger] share_of(
                    shares,
                    devices.len(),
                    total_layers,
                    i,
                ) == v@[i],
                InitialShares::Uniform => {
                    let share = share_of(shares, devices.len(), total_layers, i) as int;
                    share * devices.len() <= total_layers < (share + 1) * devices.len()
                },
            },
{
    assert forall|i: int| 0 <= i < devices.len() implies match shares {
        InitialShares::Proportional(v) => #[trigger] share_of(
            shares,
            devices.len(),
            total_layers,
            i,
        ) == v@[i],
        InitialShares::Uniform => {
            let share = share_of(shares, devices.len(), total_layers, i) as int;
            share * devices.len() <= total_layers < (share + 1) * devices.len()
        },
    } by {
        match shares {
            InitialShares::Proportional(v) => {},
            InitialShares::Uniform => {
                let n = devices.len() as int;
                let l = total_layers as int;
                let share = share_of(shares, devices.len(), total_layers, i) as int;
                assert((devices.len() as u32) as int == n);
                assert(share == l / n);
                vstd::arithmetic::div_mod::lemma_fundamental_div_mod(l, n);
                vstd::arithmetic::div_mod::lemma_mod_pos_bound(l, n);
                assert(share * n == n * (l / n)) by (nonlinear_arith)
                    requires
                        share == l / n,
                ;
                assert((share + 1) * n == n * (l / n) + n) by (nonlinear_arith)
                    requires
                        share == l / n,
                ;
            },
        }
    }
}

/// The position that `last_max_index` names holds the largest capacity,
/// and every later position holds a strictly smaller one.
pub proof fn lemma_last_max_index_is_last_largest(caps: Seq<u32>)
    requires
        caps.len() > 0,
    ensures
        0 <= last_max_index(caps) < caps.len(),
        forall|j: int| 0 <= j < caps.len() ==> #[trigger] caps[j] <= caps[last_max_index(caps)],
        forall|j: int|
            last_max_index(caps) < j < caps.len() ==> #[trigger] caps[j] < caps[last_max_index(
                caps,
            )],
    decreases caps.len(),
{
    if caps.len() > 1 {
        let init = caps.drop_last();
        lemma_last_max_index_is_last_largest(init);
        let j = last_max_index(init);
        assert(init[j] == caps[j]);
        assert forall|k: int| 0 <= k < init.len() implies init[k] == caps[k] by {}
    }
}

/// When the devices cannot hold all the layers, every device is filled to
/// its capacity and exactly one device receives more: one whose capacity
/// is at least every other device's, with no later device of equal
/// capacity.
pub proof fn lemma_excess_goes_to_largest(cap: Seq<u32>, total_layers: u32, counts: Seq<u32>)
    requires
        cap.len() > 0,
        total(cap) < total_layers,
        spill_to_largest(cap, total_layers, counts),
    ensures
        forall|i: int| 0 <= i < counts.len() ==> counts[i] >= cap[i],
        exists|i: int| 0 <= i < counts.len() && counts[i] > cap[i],
        forall|i: int, j: int|
            0 <= i < counts.len() && 0 <= j < counts.len() && #[trigger] counts[i] > cap[i] ==> {
                &&& cap[j] <= cap[i]
                &&& (i < j ==> cap[j] < cap[i])
                &&& (j != i ==> #[trigger] counts[j] == cap[j])
            },
{
    lemma_last_max_index_is_last_largest(cap);
    let b = last_max_index(cap);
    assert(counts[b] > cap[b]);
}

/// A device with room never has fewer extra layers (beyond its start)
/// than a slower device, nor than an equally fast device that comes after
/// it.
pub proof fn lemma_faster_devices_get_leftovers_first(
    devices: Seq<RankedDevice>,
    shares: InitialShares,
    total_layers: u32,
    bytes_per_layer: u64,
    plan: Seq<LayerAssignment>,
)
    requires
        spread_round_robin(
            starting_counts(devices, shares, total_layers, bytes_per_layer),
            capacities(devices, bytes_per_layer),
            speed_ranks(devices),
            layer_counts(plan),
        ),
    ensures
        forall|i: int, j: int|
            0 <= i < plan.len() && 0 <= j < plan.len() && (#[trigger] plan[i]).layer_count
                < capacities(devices, bytes_per_layer)[i] && (devices[i].speed_rank
                > devices[j].speed_rank || (devices[i].speed_rank == devices[j].speed_rank && i
                < j)) ==> (#[trigger] plan[j]).layer_count - starting_counts(
                devices,
                shares,
                total_layers,
                bytes_per_layer,
            )[j] <= plan[i].layer_count - starting_counts(
                devices,
                shares,
                total_layers,
                bytes_per_layer,
            )[i],
{
    let start = starting_counts(devices, shares, total_layers, bytes_per_layer);
    let cap = capacities(devices, bytes_per_layer);
    let ranks = speed_ranks(devices);
    let counts = layer_counts(plan);
    assert forall|i: int, j: int|
        0 <= i < plan.len() && 0 <= j < plan.len() && (#[trigger] plan[i]).layer_count < cap[i]
            && (devices[i].speed_rank > devices[j].speed_rank || (devices[i].speed_rank
            == devices[j].speed_rank && i < j)) implies (#[trigger] plan[j]).layer_count
        - start[j] <= plan[i].layer_count - start[i] by {
        assert(counts[i] == plan[i].layer_count);
        assert(counts[j] == plan[j].layer_count);
        assert(ranks[i] == devices[i].speed_rank);
        assert(ranks[j] == devices[j].speed_rank);
        assert(counts[j] - start[j] <= counts[i] - start[i] + 1);
        if counts[j] - start[j] == counts[i] - start[i] + 1 {
            assert(precedes(ranks, j, i));
        }
    }
}

/// `total` adds up a list: the empty list sums to zero, and appending a
/// count adds that count.
pub proof fn lemma_total_is_the_sum(s: Seq<u32>, x: u32)
    ensures
        total(Seq::<u32>::empty()) == 0,
        total(s.push(x)) == total(s) + x,
{
    assert(s.push(x).drop_last() =~= s);
}

} // verus!
