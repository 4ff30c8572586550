//! Machines with toggle buttons. The first puzzle finds the fewest
//! presses that light the requested pattern, searching states in
//! press order; the second finds the fewest presses that reach the
//! requested joltage counters, searching cheapest-looking states
//! first.

use vstd::prelude::*;

use crate::numfmt::dec_digits;
use crate::numfmt::u64_string;
use crate::scan::parse_u64;
use crate::scan::split_bytes;

verus! {

/// One machine: the requested lights, the buttons (each a list of
/// counter indices), and the requested joltage counters.
pub struct Machine {
    pub lights: Vec<bool>,
    pub buttons: Vec<Vec<usize>>,
    pub joltage: Vec<u32>,
}

/// The machine within the search bounds: every button index touches
/// an existing counter.
pub open spec fn machine_wf(m: Machine) -> bool {
    &&& 1 <= m.lights@.len() <= 64
    &&& 1 <= m.joltage@.len() <= 64
    &&& m.buttons@.len() <= 64
    &&& forall|i: int|
        0 <= i < m.buttons@.len() ==> (#[trigger] m.buttons@[i])@.len() <= 64 && forall|j: int|
            0 <= j < m.buttons@[i]@.len() ==> (#[trigger] (m.buttons@[i])@[j]) < m.lights@.len()
                && (m.buttons@[i])@[j] < m.joltage@.len()
    &&& forall|i: int| 0 <= i < m.joltage@.len() ==> (#[trigger] m.joltage@[i]) <= 100000
}

/// Toggles the lights a button touches.
pub fn press_buttons_for_lights(lights: Vec<bool>, button: &Vec<usize>) -> (r: Vec<bool>)
    requires
        forall|j: int| 0 <= j < button@.len() ==> (#[trigger] button@[j]) < lights@.len(),
    ensures
        r@.len() == lights@.len(),
{
    let mut lights = lights;
    let ghost n0 = lights@.len();
    let mut i: usize = 0;
    while i < button.len()
        invariant
            lights@.len() == n0,
            i <= button@.len(),
            forall|j: int| 0 <= j < button@.len() ==> (#[trigger] button@[j]) < lights@.len(),
        decreases button@.len() - i,
    {
        let ix = button[i];
        let v = lights[ix];
        lights.set(ix, !v);
        i = i + 1;
    }
    lights
}

/// Adds `presses` to the counters a button touches; `None` when a
/// counter would leave the working bounds.
pub fn press_buttons_for_joltage(joltage: Vec<u32>, button: &Vec<usize>, presses: u32) -> (r:
    Option<Vec<u32>>)
    requires
        forall|j: int| 0 <= j < button@.len() ==> (#[trigger] button@[j]) < joltage@.len(),
        forall|j: int| 0 <= j < joltage@.len() ==> (#[trigger] joltage@[j]) <= 1131072,
        presses <= 131072,
    ensures
        r matches Some(v) ==> v@.len() == joltage@.len() && forall|j: int|
            0 <= j < v@.len() ==> (#[trigger] v@[j]) <= 1131072,
{
    let mut joltage = joltage;
    let ghost n0 = joltage@.len();
    let mut i: usize = 0;
    while i < button.len()
        invariant
            joltage@.len() == n0,
            i <= button@.len(),
            forall|j: int| 0 <= j < button@.len() ==> (#[trigger] button@[j]) < joltage@.len(),
            forall|j: int| 0 <= j < joltage@.len() ==> (#[trigger] joltage@[j]) <= 1131072,
            presses <= 131072,
        decreases button@.len() - i,
    {
        let ix = button[i];
        let v = joltage[ix];
        if v > 1000000 {
            return None;
        }
        joltage.set(ix, v + presses);
        i = i + 1;
    }
    Some(joltage)
}

/// Whether two boolean states are equal.
fn bools_eq(a: &Vec<bool>, b: &Vec<bool>) -> (r: bool) {
    if a.len() != b.len() {
        return false;
    }
    let mut i: usize = 0;
    while i < a.len()
        invariant
            a@.len() == b@.len(),
            i <= a@.len(),
        decreases a@.len() - i,
    {
        if a[i] != b[i] {
            return false;
        }
        i = i + 1;
    }
    true
}

/// Whether two counter states are equal.
fn counts_eq(a: &Vec<u32>, b: &Vec<u32>) -> (r: bool) {
    if a.len() != b.len() {
        return false;
    }
    let mut i: usize = 0;
    while i < a.len()
        invariant
            a@.len() == b@.len(),
            i <= a@.len(),
        decreases a@.len() - i,
    {
        if a[i] != b[i] {
            return false;
        }
        i = i + 1;
    }
    true
}

/// The fewest presses that light the requested pattern, searching
/// states by press count; `None` when the search budget runs out.
pub fn search_buttons_for_lights(machine: &Machine) -> (r: Option<u64>)
    requires
        machine_wf(*machine),
{
    // states of the current press count, then of the next
    let mut blank: Vec<bool> = Vec::new();
    let mut z: usize = 0;
    let width = machine.lights.len();
    while z < width
        invariant
            z <= width,
            blank@.len() == z,
        decreases width - z,
    {
        blank.push(false);
        z = z + 1;
    }
    let mut frontier: Vec<Vec<bool>> = Vec::new();
    frontier.push(blank);
    let mut presses: u64 = 0;
    while presses < 64
        invariant
            machine_wf(*machine),
            width == machine.lights@.len(),
            presses <= 64,
            forall|i: int| 0 <= i < frontier@.len() ==> (#[trigger] frontier@[i])@.len() == width,
        decreases 64 - presses,
    {
        // a full frontier would exhaust the budget
        if frontier.len() > 100000 {
            return None;
        }
        let mut next: Vec<Vec<bool>> = Vec::new();
        let mut f: usize = 0;
        while f < frontier.len()
            invariant
                machine_wf(*machine),
                width == machine.lights@.len(),
                f <= frontier@.len(),
                frontier@.len() <= 100000,
                forall|i: int|
                    0 <= i < frontier@.len() ==> (#[trigger] frontier@[i])@.len() == width,
                forall|i: int| 0 <= i < next@.len() ==> (#[trigger] next@[i])@.len() == width,
                next@.len() <= f * 64,
            decreases frontier@.len() - f,
        {
            let state = &frontier[f];
            if bools_eq(state, &machine.lights) {
                return Some(presses);
            }
            let mut b: usize = 0;
            while b < machine.buttons.len()
                invariant
                    machine_wf(*machine),
                    width == machine.lights@.len(),
                    f < frontier@.len(),
                    b <= machine.buttons@.len(),
                    machine.buttons@.len() <= 64,
                    (frontier@[f as int])@.len() == width,
                    forall|i: int|
                        0 <= i < frontier@.len() ==> (#[trigger] frontier@[i])@.len() == width,
                    forall|i: int|
                        0 <= i < next@.len() ==> (#[trigger] next@[i])@.len() == width,
                    next@.len() <= f * 64 + b,
                decreases machine.buttons@.len() - b,
            {
                let mut copy: Vec<bool> = Vec::new();
                let mut c: usize = 0;
                let state2 = &frontier[f];
                while c < state2.len()
                    invariant
                        c <= state2@.len(),
                        copy@.len() == c,
                        state2 == frontier@[f as int],
                        f < frontier@.len(),
                    decreases state2@.len() - c,
                {
                    copy.push(state2[c]);
                    c = c + 1;
                }
                let pressed = press_buttons_for_lights(copy, &machine.buttons[b]);
                next.push(pressed);
                b = b + 1;
            }
            f = f + 1;
        }
        frontier = next;
        presses = presses + 1;
    }
    None
}

/// The fewest presses that reach the requested joltage counters,
/// pressing each button a power-of-two number of times, and searching
/// cheapest-looking states first; `None` when the search budget runs
/// out.
pub fn search_buttons_for_joltage(machine: &Machine) -> (r: Option<u64>)
    requires
        machine_wf(*machine),
{
    let width = machine.joltage.len();
    // the summed target decides the cost heuristic
    let mut total: u64 = 0;
    let mut z: usize = 0;
    while z < width
        invariant
            machine_wf(*machine),
            width == machine.joltage@.len(),
            z <= width,
            total <= 100000 * (z as int),
        decreases width - z,
    {
        total = total + (machine.joltage[z] as u64);
        z = z + 1;
    }
    // the power-of-two press counts up to the largest target
    let mut powers: Vec<u32> = Vec::new();
    let mut p: u32 = 1;
    let mut guard: u32 = 0;
    while guard < 18
        invariant
            machine_wf(*machine),
            width == machine.joltage@.len(),
            guard <= 18,
            1 <= p <= 131072,
            forall|i: int| 0 <= i < powers@.len() ==> 1 <= (#[trigger] powers@[i]) <= 131072,
        decreases 18 - guard,
    {
        let mut fits = false;
        let mut c: usize = 0;
        while c < width && c < machine.joltage.len()
            invariant
                machine_wf(*machine),
                c <= machine.joltage@.len(),
            decreases machine.joltage@.len() - c,
        {
            if machine.joltage[c] >= p {
                fits = true;
            }
            c = c + 1;
        }
        if !fits {
            break ;
        }
        powers.push(p);
        if p > 65536 {
            break ;
        }
        p = p * 2;
        guard = guard + 1;
    }
    if powers.len() == 0 {
        powers.push(1);
    }
    // pending states, kept sorted by descending heuristic cost so the
    // cheapest and most recent sits at the end
    let mut blank: Vec<u32> = Vec::new();
    let mut z2: usize = 0;
    while z2 < width
        invariant
            z2 <= width,
            blank@.len() == z2,
            forall|j: int| 0 <= j < z2 ==> (#[trigger] blank@[j]) == 0,
        decreases width - z2,
    {
        blank.push(0);
        z2 = z2 + 1;
    }
    let mut pending: Vec<(u64, u64, Vec<u32>)> = Vec::new();
    proof {
        assert(blank@.len() == width);
        assert(forall|j: int| 0 <= j < blank@.len() ==> (#[trigger] blank@[j]) == 0);
    }
    pending.push((total, 0, blank));
    proof {
        assert(pending@.len() == 1);
        assert((pending@[0]).2@.len() == width);
        assert(forall|i: int|
            0 <= i < pending@.len() ==> ((#[trigger] pending@[i]).2)@.len() == width
                && forall|j: int|
                0 <= j < (pending@[i].2)@.len() ==> (#[trigger] (pending@[i].2)@[j])
                    <= 1131072);
        assert(total <= 6400000);
    }
    let mut fuel: u64 = 2000000;
    while fuel > 0
        invariant
            machine_wf(*machine),
            width == machine.joltage@.len(),
            total <= 6400000,
            forall|i: int| 0 <= i < powers@.len() ==> 1 <= (#[trigger] powers@[i]) <= 131072,
            forall|i: int|
                0 <= i < pending@.len() ==> ((#[trigger] pending@[i]).2)@.len() == width && forall|
                    j: int,
                |
                    0 <= j < (pending@[i].2)@.len() ==> (#[trigger] (pending@[i].2)@[j])
                        <= 1131072,
            forall|i: int| 0 <= i < pending@.len() ==> (#[trigger] pending@[i]).1 <= 100000000,
        decreases fuel,
    {
        let popped = match pending.pop() {
            Some(e) => e,
            None => {
                return None;
            },
        };
        let (_cost, presses, state) = popped;
        if counts_eq(&state, &machine.joltage) {
            return Some(presses);
        }
        if pending.len() > 200000 {
            return None;
        }
        let mut b: usize = 0;
        while b < machine.buttons.len()
            invariant
                machine_wf(*machine),
                width == machine.joltage@.len(),
                state@.len() == width,
                forall|j: int| 0 <= j < state@.len() ==> (#[trigger] state@[j]) <= 1131072,
                presses <= 100000000,
                total <= 6400000,
                b <= machine.buttons@.len(),
                forall|i: int| 0 <= i < powers@.len() ==> 1 <= (#[trigger] powers@[i]) <= 131072,
                forall|i: int|
                    0 <= i < pending@.len() ==> ((#[trigger] pending@[i]).2)@.len() == width
                        && forall|j: int|
                        0 <= j < (pending@[i].2)@.len() ==> (#[trigger] (pending@[i].2)@[j])
                            <= 1131072,
                forall|i: int|
                    0 <= i < pending@.len() ==> (#[trigger] pending@[i]).1 <= 100000000,
            decreases machine.buttons@.len() - b,
        {
            let mut pw: usize = 0;
            while pw < powers.len()
                invariant
                    machine_wf(*machine),
                    width == machine.joltage@.len(),
                    state@.len() == width,
                    forall|j: int| 0 <= j < state@.len() ==> (#[trigger] state@[j]) <= 1131072,
                    presses <= 100000000,
                    total <= 6400000,
                    b < machine.buttons@.len(),
                    pw <= powers@.len(),
                    forall|i: int|
                        0 <= i < powers@.len() ==> 1 <= (#[trigger] powers@[i]) <= 131072,
                    forall|i: int|
                        0 <= i < pending@.len() ==> ((#[trigger] pending@[i]).2)@.len() == width
                            && forall|j: int|
                            0 <= j < (pending@[i].2)@.len() ==> (#[trigger] (
                            pending@[i].2)@[j]) <= 1131072,
                    forall|i: int|
                        0 <= i < pending@.len() ==> (#[trigger] pending@[i]).1 <= 100000000,
                decreases powers@.len() - pw,
            {
                let press = powers[pw];
                let mut copy: Vec<u32> = Vec::new();
                let mut c: usize = 0;
                while c < state.len()
                    invariant
                        c <= state@.len(),
                        copy@.len() == c,
                        forall|j: int|
                            0 <= j < state@.len() ==> (#[trigger] state@[j]) <= 1131072,
                        forall|j: int| 0 <= j < c ==> (#[trigger] copy@[j]) == state@[j],
                    decreases state@.len() - c,
                {
                    copy.push(state[c]);
                    c = c + 1;
                }
                match press_buttons_for_joltage(copy, &machine.buttons[b], press) {
                    None => {},
                    Some(new_joltage) => {
                        // overshooting any counter prunes the state
                        let mut over = false;
                        let mut k: usize = 0;
                        let mut new_sum: u64 = 0;
                        while k < width && k < new_joltage.len()
                            invariant
                                machine_wf(*machine),
                                width == machine.joltage@.len(),
                                new_joltage@.len() == width,
                                forall|j: int|
                                    0 <= j < new_joltage@.len() ==> (
                                    #[trigger] new_joltage@[j]) <= 1131072,
                                k <= width,
                                new_sum <= 1131072 * (k as int),
                            decreases width - k,
                        {
                            if new_joltage[k] > machine.joltage[k] {
                                over = true;
                            }
                            new_sum = new_sum + (new_joltage[k] as u64);
                            k = k + 1;
                        }
                        if !over && presses < 100000000 - (press as u64) && new_sum <= total {
                            let new_presses = presses + (press as u64);
                            let cost = new_presses + (total - new_sum);
                            // insert keeping the descending cost order
                            let mut at = pending.len();
                            while at > 0 && pending[at - 1].0 < cost
                                invariant
                                    at <= pending@.len(),
                                decreases at,
                            {
                                at = at - 1;
                            }
                            if new_presses <= 100000000 {
                                pending.insert(at, (cost, new_presses, new_joltage));
                                proof {
                                    assert(forall|i: int|
                                        0 <= i < pending@.len() ==> ((
                                        #[trigger] pending@[i]).2)@.len() == width && forall|
                                            j: int,
                                        |
                                            0 <= j < (pending@[i].2)@.len() ==> (#[trigger] (
                                            pending@[i].2)@[j]) <= 1131072);
                                }
                            }
                        }
                    },
                }
                pw = pw + 1;
            }
            b = b + 1;
        }
        fuel = fuel - 1;
    }
    None
}

/// Reads the machines: a light pattern, the buttons, and the joltage
/// targets, all on one line per machine.
fn load_input(input: &[u8]) -> (r: Option<Vec<Machine>>)
    ensures
        r matches Some(ms) ==> ms@.len() <= 1000 && forall|i: int|
            0 <= i < ms@.len() ==> machine_wf(#[trigger] ms@[i]),
{
    let lines = split_bytes(input, 10);
    let mut out: Vec<Machine> = Vec::new();
    let mut i: usize = 0;
    while i < lines.len()
        invariant
            i <= lines@.len(),
            out@.len() <= i,
            forall|j: int| 0 <= j < out@.len() ==> machine_wf(#[trigger] out@[j]),
        decreases lines@.len() - i,
    {
        let line = &lines[i];
        if line.len() > 0 {
            let blocks = split_bytes(line.as_slice(), 32);
            if blocks.len() < 3 {
                return None;
            }
            // the lights block `[.##.]`
            let first = &blocks[0];
            let mut lights: Vec<bool> = Vec::new();
            let mut a: usize = 0;
            while a < first.len()
                invariant
                    a <= first@.len(),
                    lights@.len() <= a,
                decreases first@.len() - a,
            {
                let c = first[a];
                if c == 35 {
                    lights.push(true);
                } else if c == 46 {
                    lights.push(false);
                }
                a = a + 1;
            }
            // the joltage block `{3,5,4}` is the last
            let last = &blocks[blocks.len() - 1];
            if last.len() < 2 {
                return None;
            }
            let inner = vstd::slice::slice_subrange(last.as_slice(), 1, last.len() - 1);
            let parts = split_bytes(inner, 44);
            let mut joltage: Vec<u32> = Vec::new();
            let mut a2: usize = 0;
            while a2 < parts.len()
                invariant
                    a2 <= parts@.len(),
                    joltage@.len() <= a2,
                    forall|j: int| 0 <= j < joltage@.len() ==> (#[trigger] joltage@[j]) <= 100000,
                decreases parts@.len() - a2,
            {
                match parse_u64(parts[a2].as_slice()) {
                    Some(v) if v <= 100000 => {
                        joltage.push(v as u32);
                    },
                    _ => {
                        return None;
                    },
                }
                a2 = a2 + 1;
            }
            if lights.len() < 1 || lights.len() > 64 || joltage.len() < 1 || joltage.len() > 64 {
                return None;
            }
            // the button blocks `(0,2)` in between
            let mut buttons: Vec<Vec<usize>> = Vec::new();
            let mut bix: usize = 1;
            while bix < blocks.len() && bix + 1 < blocks.len()
                invariant
                    1 <= bix,
                    bix <= blocks@.len() + 1,
                    buttons@.len() + 1 <= bix,
                    lights@.len() <= 64,
                    joltage@.len() <= 64,
                    forall|x: int|
                        0 <= x < buttons@.len() ==> (#[trigger] buttons@[x])@.len() <= 64
                            && forall|j: int|
                            0 <= j < buttons@[x]@.len() ==> (#[trigger] (buttons@[x])@[j])
                                < lights@.len() && (buttons@[x])@[j] < joltage@.len(),
                decreases blocks@.len() - bix,
            {
                let blk = &blocks[bix];
                if blk.len() < 2 || blk[0] != 40 {
                    return None;
                }
                let binner = vstd::slice::slice_subrange(blk.as_slice(), 1, blk.len() - 1);
                let bparts = split_bytes(binner, 44);
                let mut button: Vec<usize> = Vec::new();
                let mut a3: usize = 0;
                while a3 < bparts.len()
                    invariant
                        a3 <= bparts@.len(),
                        button@.len() <= a3,
                        lights@.len() <= 64,
                        joltage@.len() <= 64,
                        forall|j: int|
                            0 <= j < button@.len() ==> (#[trigger] button@[j]) < lights@.len()
                                && button@[j] < joltage@.len(),
                    decreases bparts@.len() - a3,
                {
                    match parse_u64(bparts[a3].as_slice()) {
                        Some(v) if v <= 64 && (v as usize) < lights.len() && (v as usize)
                            < joltage.len() => {
                            button.push(v as usize);
                        },
                        _ => {
                            return None;
                        },
                    }
                    a3 = a3 + 1;
                }
                if button.len() > 64 {
                    return None;
                }
                buttons.push(button);
                bix = bix + 1;
            }
            if buttons.len() > 64 {
                return None;
            }
            out.push(Machine { lights, buttons, joltage });
        }
        i = i + 1;
    }
    if out.len() > 1000 {
        return None;
    }
    Some(out)
}

/// The summed fewest presses lighting every machine's pattern.
pub fn puzzle_1(input: &str) -> (r: String)
    ensures
        exists|v: nat| r@ == dec_digits(v),
{
    match load_input(input.as_bytes()) {
        None => u64_string(0),
        Some(machines) => {
            let mut sum: u64 = 0;
            let mut i: usize = 0;
            while i < machines.len()
                invariant
                    i <= machines@.len(),
                    machines@.len() <= 1000,
                    forall|j: int| 0 <= j < machines@.len() ==> machine_wf(#[trigger] machines@[j]),
                    sum <= 100000000 * (i as int),
                decreases machines@.len() - i,
            {
                match search_buttons_for_lights(&machines[i]) {
                    Some(v) => {
                        if v > 100000000 {
                            return u64_string(0);
                        }
                        sum = sum + v;
                    },
                    None => {
                        return u64_string(0);
                    },
                }
                i = i + 1;
            }
            u64_string(sum)
        },
    }
}

/// The summed fewest presses reaching every machine's joltage.
pub fn puzzle_2(input: &str) -> (r: String)
    ensures
        exists|v: nat| r@ == dec_digits(v),
{
    match load_input(input.as_bytes()) {
        None => u64_string(0),
        Some(machines) => {
            let mut sum: u64 = 0;
            let mut i: usize = 0;
            while i < machines.len()
                invariant
                    i <= machines@.len(),
                    machines@.len() <= 1000,
                    forall|j: int| 0 <= j < machines@.len() ==> machine_wf(#[trigger] machines@[j]),
                    sum <= 100000000 * (i as int),
                decreases machines@.len() - i,
            {
                match search_buttons_for_joltage(&machines[i]) {
                    Some(v) => {
                        if v > 100000000 {
                            return u64_string(0);
                        }
                        sum = sum + v;
                    },
                    None => {
                        return u64_string(0);
                    },
                }
                i = i + 1;
            }
            u64_string(sum)
        },
    }
}

} // verus!
