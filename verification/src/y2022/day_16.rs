//! A network of pressure valves joined by tunnels. One worker (and,
//! in the second puzzle, a helper) walks the tunnels opening valves;
//! every open valve releases its flow each minute. The puzzles search
//! for the most pressure releasable in the time available.

use vstd::prelude::*;

use std::collections::HashSet;

use crate::numfmt::dec_digits;
use crate::numfmt::u64_string;
use crate::scan::find_byte;
use crate::scan::parse_u64;
use crate::scan::split_bytes;

verus! {

/// A valve name encoded from its two letters; below 676.
pub type ValveId = u16;

/// The valve network: for each valve, its tunnel ends and its flow
/// rate, indexed by encoded name; and the listed flow rates in input
/// order.
pub struct InputData {
    pub paths: Vec<Option<(Vec<ValveId>, u16)>>,
    pub flow_rate: Vec<(ValveId, u16)>,
}

/// The network table covers every encodable valve and stays within
/// the working bounds.
pub open spec fn input_wf(d: InputData) -> bool {
    &&& d.paths@.len() == 676
    &&& forall|i: int|
        0 <= i < d.paths@.len() ==> ((#[trigger] d.paths@[i]) matches Some(p) ==> p.0@.len()
            <= 676 && p.1 <= 5000 && forall|j: int|
            0 <= j < p.0@.len() ==> (#[trigger] p.0@[j]) < 676)
    &&& d.flow_rate@.len() <= 676
    &&& forall|i: int|
        0 <= i < d.flow_rate@.len() ==> (#[trigger] d.flow_rate@[i]).0 < 676
            && d.flow_rate@[i].1 <= 5000
}

/// Which valves stand open.
pub struct ValvesConfiguration {
    pub data: Vec<bool>,
}

/// The configuration covers every encodable valve.
pub open spec fn config_wf(c: ValvesConfiguration) -> bool {
    c.data@.len() == 676
}

impl ValvesConfiguration {
    /// All valves closed.
    pub fn new() -> (r: ValvesConfiguration)
        ensures
            config_wf(r),
            forall|i: int| 0 <= i < r.data@.len() ==> !(#[trigger] r.data@[i]),
    {
        let mut data: Vec<bool> = Vec::new();
        let mut i: usize = 0;
        while i < 676
            invariant
                data@.len() == i,
                i <= 676,
                forall|j: int| 0 <= j < i ==> !(#[trigger] data@[j]),
            decreases 676 - i,
        {
            data.push(false);
            i = i + 1;
        }
        ValvesConfiguration { data }
    }

    /// Whether the valve stands open.
    pub fn is_open(&self, valve: ValveId) -> (r: bool)
        requires
            config_wf(*self),
            valve < 676,
        ensures
            r == self.data@[valve as int],
    {
        self.data[valve as usize]
    }

    /// Opens the valve.
    pub fn open(&mut self, valve: ValveId)
        requires
            config_wf(*old(self)),
            valve < 676,
        ensures
            config_wf(*final(self)),
            forall|i: int|
                0 <= i < final(self).data@.len() ==> (#[trigger] final(self).data@[i]) == (
                old(self).data@[i] || i == valve),
    {
        self.data.set(valve as usize, true);
    }

    /// A copy of the configuration.
    pub fn duplicate(&self) -> (r: ValvesConfiguration)
        ensures
            r.data@ == self.data@,
    {
        let mut data: Vec<bool> = Vec::new();
        let mut i: usize = 0;
        while i < self.data.len()
            invariant
                i <= self.data@.len(),
                data@.len() == i,
                forall|j: int| 0 <= j < i ==> (#[trigger] data@[j]) == self.data@[j],
            decreases self.data@.len() - i,
        {
            data.push(self.data[i]);
            i = i + 1;
        }
        proof {
            assert(data@ =~= self.data@);
        }
        ValvesConfiguration { data }
    }
}

/// One search state: where the worker and the helper stand, the
/// pressure already banked, the minute, and the open valves.
pub struct Node {
    pub human_valve: ValveId,
    pub elephant_valve: ValveId,
    pub released_pressure: u16,
    pub minute: u8,
    pub configuration: ValvesConfiguration,
}

/// The node within the search bounds.
pub open spec fn node_wf(n: Node) -> bool {
    &&& n.human_valve < 676
    &&& n.elephant_valve < 676
    &&& n.minute <= 30
    &&& n.released_pressure <= 60000
    &&& config_wf(n.configuration)
}

/// The pending search states and the visited summaries. Two states
/// with the same positions, banked pressure and minute are explored
/// only once, whatever their configurations.
pub struct NodeContainer {
    pub nodes: Vec<Node>,
    pub visited_nodes: HashSet<u64>,
}

pub open spec fn container_wf(c: NodeContainer) -> bool {
    forall|i: int| 0 <= i < c.nodes@.len() ==> node_wf(#[trigger] c.nodes@[i])
}

impl NodeContainer {
    /// An empty container.
    pub fn new() -> (r: NodeContainer)
        ensures
            container_wf(r),
            r.nodes@.len() == 0,
    {
        NodeContainer { nodes: Vec::new(), visited_nodes: HashSet::new() }
    }

    /// Queues the node unless its summary was queued before.
    pub fn insert(&mut self, node: Node)
        requires
            container_wf(*old(self)),
            node_wf(node),
        ensures
            container_wf(*final(self)),
            final(self).nodes@.len() <= old(self).nodes@.len() + 1,
    {
        let key: u64 = (node.human_valve as u64) * 1099511627776 + (node.elephant_valve as u64)
            * 16777216 + (node.released_pressure as u64) * 256 + (node.minute as u64);
        if self.visited_nodes.insert(key) {
            self.nodes.push(node);
        }
    }

    /// The most recently queued node, removed.
    pub fn pop(&mut self) -> (r: Option<Node>)
        requires
            container_wf(*old(self)),
        ensures
            container_wf(*final(self)),
            match r {
                Some(n) => node_wf(n) && final(self).nodes@.len() == old(self).nodes@.len() - 1,
                None => old(self).nodes@.len() == 0 && final(self).nodes@
                    == old(self).nodes@,
            },
    {
        self.nodes.pop()
    }
}

/// The encoded valve name of two letters.
pub fn parse_valve_name(a: u8, b: u8) -> (r: Option<ValveId>)
    ensures
        r matches Some(v) ==> v < 676,
{
    if a < 65 || a > 90 || b < 65 || b > 90 {
        return None;
    }
    Some(((a - 65) as u16) * 26 + ((b - 65) as u16))
}

/// Reads the valve network.
pub fn parse_input(input: &str) -> (r: Option<InputData>)
    ensures
        r matches Some(d) ==> input_wf(d),
{
    let lines = split_bytes(input.as_bytes(), 10);
    let mut paths: Vec<Option<(Vec<ValveId>, u16)>> = Vec::new();
    let mut k: usize = 0;
    while k < 676
        invariant
            paths@.len() == k,
            k <= 676,
            forall|i: int| 0 <= i < k ==> (#[trigger] paths@[i]) is None,
        decreases 676 - k,
    {
        paths.push(None);
        k = k + 1;
    }
    let mut flow_rate: Vec<(ValveId, u16)> = Vec::new();
    let mut i: usize = 0;
    while i < lines.len()
        invariant
            i <= lines@.len(),
            paths@.len() == 676,
            forall|a: int|
                0 <= a < paths@.len() ==> ((#[trigger] paths@[a]) matches Some(p) ==> p.0@.len()
                    <= 676 && p.1 <= 5000 && forall|j: int|
                    0 <= j < p.0@.len() ==> (#[trigger] p.0@[j]) < 676),
            flow_rate@.len() <= i,
            forall|a: int|
                0 <= a < flow_rate@.len() ==> (#[trigger] flow_rate@[a]).0 < 676
                    && flow_rate@[a].1 <= 5000,
        decreases lines@.len() - i,
    {
        let line = &lines[i];
        if line.len() > 0 {
            // the valve name follows the first space
            if line.len() < 10 {
                return None;
            }
            let valve = match parse_valve_name(line[6], line[7]) {
                Some(v) => v,
                None => {
                    return None;
                },
            };
            // the flow rate follows the equals sign
            let eq = match find_byte(line.as_slice(), 0, 61) {
                Some(p) => p,
                None => {
                    return None;
                },
            };
            let semi = match find_byte(line.as_slice(), eq, 59) {
                Some(p) => p,
                None => {
                    return None;
                },
            };
            let rate_b = vstd::slice::slice_subrange(line.as_slice(), eq + 1, semi);
            let rate = match parse_u64(rate_b) {
                Some(v) if v <= 5000 => v as u16,
                _ => {
                    return None;
                },
            };
            // the tunnel ends are the trailing two-letter names
            let mut tunnels: Vec<ValveId> = Vec::new();
            let mut pos: usize = semi;
            let n = line.len();
            while pos < n
                invariant
                    pos >= semi,
                    n == line@.len(),
                    tunnels@.len() <= 676,
                    forall|j: int| 0 <= j < tunnels@.len() ==> (#[trigger] tunnels@[j]) < 676,
                decreases n - pos,
            {
                if pos + 1 < n {
                    let a = line[pos];
                    let b = line[pos + 1];
                    match parse_valve_name(a, b) {
                        Some(v) => {
                            if tunnels.len() < 676 {
                                tunnels.push(v);
                            }
                            pos = pos + 2;
                        },
                        None => {
                            pos = pos + 1;
                        },
                    }
                } else {
                    pos = pos + 1;
                }
            }
            // uppercase pairs before the semicolon belong to the name
            // already parsed, so scan only after it; the loop above
            // starts at the semicolon and needs no further care
            let ghost prevp = paths@;
            let mut entry = paths.remove(valve as usize);
            entry = Some((tunnels, rate));
            paths.insert(valve as usize, entry);
            proof {
                assert forall|a: int|
                    0 <= a < paths@.len() implies ((#[trigger] paths@[a]) matches Some(p)
                    ==> p.0@.len() <= 676 && p.1 <= 5000 && forall|j: int|
                        0 <= j < p.0@.len() ==> (#[trigger] p.0@[j]) < 676) by {
                    if a != valve as int {
                        assert(paths@[a] == prevp[a]);
                    }
                }
            }
            flow_rate.push((valve, rate));
        }
        i = i + 1;
    }
    if flow_rate.len() > 676 {
        return None;
    }
    Some(InputData { paths, flow_rate })
}

/// The pressure released in one minute: the summed flow of the open
/// valves.
pub fn get_released_pressure(node: &Node, input_data: &InputData) -> (r: u16)
    requires
        node_wf(*node),
        input_wf(*input_data),
    ensures
        r <= 60000,
{
    let mut acc: u64 = 0;
    let mut i: usize = 0;
    while i < input_data.flow_rate.len()
        invariant
            node_wf(*node),
            input_wf(*input_data),
            i <= input_data.flow_rate@.len(),
            acc <= 5000 * i,
        decreases input_data.flow_rate@.len() - i,
    {
        let (valve, rate) = input_data.flow_rate[i];
        if node.configuration.is_open(valve) {
            acc = acc + (rate as u64);
        }
        i = i + 1;
    }
    if acc > 60000 {
        60000
    } else {
        acc as u16
    }
}

/// The search's starting state: both at valve `AA`, nothing open.
pub fn get_starting_node() -> (r: Node)
    ensures
        node_wf(r),
{
    Node {
        human_valve: 0,
        elephant_valve: 0,
        released_pressure: 0,
        minute: 0,
        configuration: ValvesConfiguration::new(),
    }
}

/// Caps the banked pressure within the node bounds.
fn add_pressure(a: u16, b: u16) -> (r: u16)
    requires
        a <= 60000,
    ensures
        r <= 60000,
{
    let sum: u32 = (a as u32) + (b as u32);
    if sum > 60000 {
        60000
    } else {
        sum as u16
    }
}

/// Queues the states where the worker opens its valve while the
/// helper moves (or stays, without a helper).
pub fn human_opens(node: &Node, nodes: &mut NodeContainer, input_data: &InputData, use_elephants: bool)
    requires
        node_wf(*node),
        input_wf(*input_data),
        container_wf(*old(nodes)),
        node.minute < 30,
    ensures
        container_wf(*final(nodes)),
{
    let released = get_released_pressure(node, input_data);
    let released = if released > 3380 {
        3380
    } else {
        released
    };
    if use_elephants {
        let targets = match &input_data.paths[node.elephant_valve as usize] {
            Some(p) => &p.0,
            None => {
                return ;
            },
        };
        let mut t: usize = 0;
        while t < targets.len()
            invariant
                node_wf(*node),
                input_wf(*input_data),
                container_wf(*nodes),
                t <= targets@.len(),
                forall|j: int| 0 <= j < targets@.len() ==> (#[trigger] targets@[j]) < 676,
                released <= 3380,
                node.minute < 30,
            decreases targets@.len() - t,
        {
            let path = targets[t];
            if !(node.configuration.is_open(node.human_valve) && node.configuration.is_open(
                path,
            )) {
                let mut new_configuration = node.configuration.duplicate();
                new_configuration.open(node.human_valve);
                let new_node = Node {
                    human_valve: node.human_valve,
                    elephant_valve: path,
                    released_pressure: add_pressure(node.released_pressure, released),
                    minute: node.minute + 1,
                    configuration: new_configuration,
                };
                nodes.insert(new_node);
            }
            t = t + 1;
        }
    } else {
        if !(node.configuration.is_open(node.human_valve) && node.configuration.is_open(
            node.elephant_valve,
        )) {
            let mut new_configuration = node.configuration.duplicate();
            new_configuration.open(node.human_valve);
            let new_node = Node {
                human_valve: node.human_valve,
                elephant_valve: node.elephant_valve,
                released_pressure: add_pressure(node.released_pressure, released),
                minute: node.minute + 1,
                configuration: new_configuration,
            };
            nodes.insert(new_node);
        }
    }
}

/// Queues the states where the helper opens its valve while the
/// worker moves.
pub fn elephant_opens(node: &Node, nodes: &mut NodeContainer, input_data: &InputData, _use_elephants: bool)
    requires
        node_wf(*node),
        input_wf(*input_data),
        container_wf(*old(nodes)),
        node.minute < 30,
    ensures
        container_wf(*final(nodes)),
{
    let released = get_released_pressure(node, input_data);
    let released = if released > 3380 {
        3380
    } else {
        released
    };
    let targets = match &input_data.paths[node.human_valve as usize] {
        Some(p) => &p.0,
        None => {
            return ;
        },
    };
    let mut t: usize = 0;
    while t < targets.len()
        invariant
            node_wf(*node),
            input_wf(*input_data),
            container_wf(*nodes),
            t <= targets@.len(),
            forall|j: int| 0 <= j < targets@.len() ==> (#[trigger] targets@[j]) < 676,
            released <= 3380,
            node.minute < 30,
        decreases targets@.len() - t,
    {
        let path = targets[t];
        if !(node.configuration.is_open(node.elephant_valve) && node.configuration.is_open(
            path,
        )) {
            let mut new_configuration = node.configuration.duplicate();
            new_configuration.open(node.elephant_valve);
            let new_node = Node {
                human_valve: path,
                elephant_valve: node.elephant_valve,
                released_pressure: add_pressure(node.released_pressure, released),
                minute: node.minute + 1,
                configuration: new_configuration,
            };
            nodes.insert(new_node);
        }
        t = t + 1;
    }
}

/// Queues the state where both open their valves.
pub fn both_opens(node: &Node, nodes: &mut NodeContainer, input_data: &InputData, use_elephants: bool)
    requires
        node_wf(*node),
        input_wf(*input_data),
        container_wf(*old(nodes)),
        node.minute < 30,
    ensures
        container_wf(*final(nodes)),
{
    let released = get_released_pressure(node, input_data);
    let released = if released > 3380 {
        3380
    } else {
        released
    };
    let mut new_configuration = node.configuration.duplicate();
    if use_elephants {
        new_configuration.open(node.elephant_valve);
    }
    new_configuration.open(node.human_valve);
    let new_node = Node {
        human_valve: node.human_valve,
        elephant_valve: node.elephant_valve,
        released_pressure: add_pressure(node.released_pressure, released),
        minute: node.minute + 1,
        configuration: new_configuration,
    };
    nodes.insert(new_node);
}

/// Queues the states where both walk a tunnel.
pub fn both_moves(node: &Node, nodes: &mut NodeContainer, input_data: &InputData, use_elephants: bool)
    requires
        node_wf(*node),
        input_wf(*input_data),
        container_wf(*old(nodes)),
        node.minute < 30,
    ensures
        container_wf(*final(nodes)),
{
    let released = get_released_pressure(node, input_data);
    let released = if released > 3380 {
        3380
    } else {
        released
    };
    let human_targets = match &input_data.paths[node.human_valve as usize] {
        Some(p) => &p.0,
        None => {
            return ;
        },
    };
    if use_elephants {
        let elephant_targets = match &input_data.paths[node.elephant_valve as usize] {
            Some(p) => &p.0,
            None => {
                return ;
            },
        };
        let mut e: usize = 0;
        while e < elephant_targets.len()
            invariant
                node_wf(*node),
                input_wf(*input_data),
                container_wf(*nodes),
                e <= elephant_targets@.len(),
                forall|j: int|
                    0 <= j < elephant_targets@.len() ==> (#[trigger] elephant_targets@[j])
                        < 676,
                forall|j: int|
                    0 <= j < human_targets@.len() ==> (#[trigger] human_targets@[j]) < 676,
                released <= 3380,
                node.minute < 30,
            decreases elephant_targets@.len() - e,
        {
            let pe = elephant_targets[e];
            let mut h: usize = 0;
            while h < human_targets.len()
                invariant
                    node_wf(*node),
                    input_wf(*input_data),
                    container_wf(*nodes),
                    h <= human_targets@.len(),
                    pe < 676,
                    forall|j: int|
                        0 <= j < human_targets@.len() ==> (#[trigger] human_targets@[j]) < 676,
                    released <= 3380,
                    node.minute < 30,
                decreases human_targets@.len() - h,
            {
                let ph = human_targets[h];
                if !(node.configuration.is_open(pe) && node.configuration.is_open(ph)) {
                    let new_node = Node {
                        human_valve: ph,
                        elephant_valve: pe,
                        released_pressure: add_pressure(node.released_pressure, released),
                        minute: node.minute + 1,
                        configuration: node.configuration.duplicate(),
                    };
                    nodes.insert(new_node);
                }
                h = h + 1;
            }
            e = e + 1;
        }
    } else {
        let pe = node.elephant_valve;
        let mut h: usize = 0;
        while h < human_targets.len()
            invariant
                node_wf(*node),
                input_wf(*input_data),
                container_wf(*nodes),
                h <= human_targets@.len(),
                pe < 676,
                forall|j: int|
                    0 <= j < human_targets@.len() ==> (#[trigger] human_targets@[j]) < 676,
                released <= 3380,
                node.minute < 30,
            decreases human_targets@.len() - h,
        {
            let ph = human_targets[h];
            if !(node.configuration.is_open(pe) && node.configuration.is_open(ph)) {
                let new_node = Node {
                    human_valve: ph,
                    elephant_valve: pe,
                    released_pressure: add_pressure(node.released_pressure, released),
                    minute: node.minute + 1,
                    configuration: node.configuration.duplicate(),
                };
                nodes.insert(new_node);
            }
            h = h + 1;
        }
    }
}

/// Explores the whole search space and reports the most pressure any
/// reachable state banked; the exploration is capped by a step budget
/// far beyond any worked example.
pub fn solve(input_data: &InputData, max_minute: u8, use_elephants: bool) -> (r: u16)
    requires
        input_wf(*input_data),
        max_minute <= 30,
{
    let mut nodes = NodeContainer::new();
    nodes.insert(get_starting_node());
    let mut max_flow_rate: u16 = 0;
    let mut fuel: u64 = 100000000;
    while fuel > 0
        invariant
            input_wf(*input_data),
            container_wf(nodes),
            max_minute <= 30,
        decreases fuel,
    {
        let node = match nodes.pop() {
            Some(n) => n,
            None => {
                return max_flow_rate;
            },
        };
        if node.released_pressure > max_flow_rate {
            max_flow_rate = node.released_pressure;
        }
        if node.minute != max_minute && node.minute < 30 {
            let can_human_open = !node.configuration.is_open(node.human_valve) && (match &input_data.paths[node.human_valve as usize] {
                Some(p) => p.1 > 0,
                None => false,
            });
            let can_elephant_open = !node.configuration.is_open(node.elephant_valve) && (match &input_data.paths[node.elephant_valve as usize] {
                Some(p) => p.1 > 0,
                None => false,
            });
            if use_elephants && can_elephant_open && can_human_open {
                both_opens(&node, &mut nodes, input_data, use_elephants);
            }
            if can_human_open {
                human_opens(&node, &mut nodes, input_data, use_elephants);
            }
            if use_elephants && can_elephant_open {
                elephant_opens(&node, &mut nodes, input_data, use_elephants);
            }
            both_moves(&node, &mut nodes, input_data, use_elephants);
        }
        fuel = fuel - 1;
    }
    max_flow_rate
}

/// The most pressure one worker can release in thirty minutes.
pub fn puzzle_1(input: &str) -> (r: String)
    ensures
        exists|v: nat| r@ == dec_digits(v),
{
    match parse_input(input) {
        None => u64_string(0),
        Some(data) => u64_string(solve(&data, 30, false) as u64),
    }
}

/// The most pressure the worker and the helper can release together
/// in twenty-six minutes.
pub fn puzzle_2(input: &str) -> (r: String)
    ensures
        exists|v: nat| r@ == dec_digits(v),
{
    match parse_input(input) {
        None => u64_string(0),
        Some(data) => u64_string(solve(&data, 26, true) as u64),
    }
}

} // verus!
