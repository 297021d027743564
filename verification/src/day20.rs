//! A network of modules that send each other high and low pulses.
use crate::text::{
    chars_of, drop_empty, lines, lines_of, non_empty, same_chars, split, split_any, string_of,
    views,
};
use vstd::prelude::*;

verus! {

#[derive(Copy, Clone, Debug, PartialEq, Eq, Hash, PartialOrd, Ord, Structural)]
pub enum Pulse {
    High,
    Low,
}

#[derive(Copy, Clone, Debug, PartialEq, Eq, Hash, PartialOrd, Ord, Structural)]
pub enum FlipFlopState {
    On,
    Off,
}

/// What a conjunction remembers: the last pulse from each of its inputs.
pub type ConjState = Vec<(String, Pulse)>;

#[derive(Clone, Debug, PartialEq, Eq, Hash, PartialOrd, Ord)]
pub enum Module {
    Broadcast,
    FlipFlop(FlipFlopState),
    Conj(ConjState),
}

pub open spec fn flipped(s: FlipFlopState) -> FlipFlopState {
    match s {
        FlipFlopState::On => FlipFlopState::Off,
        FlipFlopState::Off => FlipFlopState::On,
    }
}

#[verifier::when_used_as_spec(flipped)]
pub fn flip(s: FlipFlopState) -> (r: FlipFlopState)
    ensures
        r == flipped(s),
{
    match s {
        FlipFlopState::On => FlipFlopState::Off,
        FlipFlopState::Off => FlipFlopState::On,
    }
}

/// The pulse that a flip-flop sends when it leaves a state.
pub open spec fn leaving(s: FlipFlopState) -> Pulse {
    match s {
        FlipFlopState::On => Pulse::Low,
        FlipFlopState::Off => Pulse::High,
    }
}

#[verifier::when_used_as_spec(leaving)]
pub fn ffpulse(s: FlipFlopState) -> (r: Pulse)
    ensures
        r == leaving(s),
{
    match s {
        FlipFlopState::On => Pulse::Low,
        FlipFlopState::Off => Pulse::High,
    }
}

/// A flip-flop ignores a high pulse; a low pulse flips it, and it sends a
/// high pulse if it was off and a low pulse if it was on.
pub fn apply_flip_flop(s: FlipFlopState, p: Pulse) -> (r: (FlipFlopState, Option<Pulse>))
    ensures
        r == match p {
            Pulse::High => (s, None::<Pulse>),
            Pulse::Low => (flipped(s), Some(leaving(s))),
        },
{
    match p {
        Pulse::High => (s, None),
        Pulse::Low => (flip(s), Some(ffpulse(s))),
    }
}

/// The names of the inputs and the pulses remembered for them.
pub open spec fn memory(s: Seq<(String, Pulse)>) -> Seq<(Seq<char>, Pulse)> {
    Seq::new(s.len(), |i: int| (s[i].0@, s[i].1))
}

/// What a conjunction remembers after a pulse from `source`.
pub open spec fn remembered(
    s: Seq<(Seq<char>, Pulse)>,
    source: Seq<char>,
    p: Pulse,
) -> Seq<(Seq<char>, Pulse)> {
    Seq::new(
        s.len(),
        |i: int|
            if s[i].0 == source {
                (s[i].0, p)
            } else {
                s[i]
            },
    )
}

/// All remembered pulses are high.
pub open spec fn all_high(s: Seq<(Seq<char>, Pulse)>) -> bool {
    forall|i: int| 0 <= i < s.len() ==> (#[trigger] s[i]).1 == Pulse::High
}

/// A conjunction remembers the pulse for its source and sends a low pulse
/// if it remembers a high pulse for every input, else a high pulse.
pub fn apply_conj(s: ConjState, source: String, p: Pulse) -> (r: (ConjState, Option<Pulse>))
    ensures
        memory(r.0@) == remembered(memory(s@), source@, p),
        r.1 == Some(
            if all_high(memory(r.0@)) {
                Pulse::Low
            } else {
                Pulse::High
            },
        ),
{
    let ghost before = memory(s@);
    let mut out: ConjState = Vec::new();
    let mut high = true;
    let ghost mut low_at: int = 0;
    let mut i: usize = 0;
    while i < s.len()
        invariant
            i <= s.len(),
            before == memory(s@),
            out@.len() == i,
            forall|j: int| 0 <= j < i ==> #[trigger] memory(out@)[j] == remembered(before, source@, p)[j],
            high ==> forall|j: int| 0 <= j < i ==> (#[trigger] memory(out@)[j]).1 == Pulse::High,
            !high ==> 0 <= low_at < i && memory(out@)[low_at].1 != Pulse::High,
        decreases s.len() - i,
    {
        let ghost prior = memory(out@);
        let name = s[i].0.clone();
        let pulse = if s[i].0 == source {
            p
        } else {
            s[i].1
        };
        assert(before[i as int] == (s@[i as int].0@, s@[i as int].1));
        out.push((name, pulse));
        proof {
            assert forall|j: int| 0 <= j < i + 1 implies #[trigger] memory(out@)[j] == remembered(
                before,
                source@,
                p,
            )[j] by {
                if j < i {
                    assert(memory(out@)[j] == prior[j]);
                }
            }
        }
        if pulse != Pulse::High {
            high = false;
            proof {
                low_at = i as int;
            }
            assert(memory(out@)[i as int].1 != Pulse::High);
        } else {
            proof {
                if high {
                    assert forall|j: int| 0 <= j < i + 1 implies (#[trigger] memory(out@)[j]).1
                        == Pulse::High by {
                        if j < i {
                            assert(memory(out@)[j] == prior[j]);
                            assert(prior[j].1 == Pulse::High);
                        } else {
                            assert(memory(out@)[j].1 == pulse);
                        }
                    }
                } else {
                    assert(memory(out@)[low_at] == prior[low_at]);
                }
            }
        }
        i += 1;
    }
    assert(memory(out@) =~= remembered(before, source@, p));
    if high {
        (out, Some(Pulse::Low))
    } else {
        (out, Some(Pulse::High))
    }
}

/// What a module is after a pulse from `source` and what it sends: a
/// broadcaster passes the pulse on.
pub fn apply(m: Module, source: String, p: Pulse) -> (r: (Module, Option<Pulse>))
    ensures
        match m {
            Module::Broadcast => r.0 == Module::Broadcast && r.1 == Some(p),
            Module::FlipFlop(s) => match p {
                Pulse::High => r.0 == Module::FlipFlop(s) && r.1 == None::<Pulse>,
                Pulse::Low => r.0 == Module::FlipFlop(flipped(s)) && r.1 == Some(leaving(s)),
            },
            Module::Conj(s) => r.0 matches Module::Conj(t) && memory(t@) == remembered(
                memory(s@),
                source@,
                p,
            ) && r.1 == Some(
                if all_high(memory(t@)) {
                    Pulse::Low
                } else {
                    Pulse::High
                },
            ),
        },
{
    match m {
        Module::Broadcast => (Module::Broadcast, Some(p)),
        Module::FlipFlop(s) => {
            let (s, o) = apply_flip_flop(s, p);
            (Module::FlipFlop(s), o)
        },
        Module::Conj(s) => {
            let (s, o) = apply_conj(s, source, p);
            (Module::Conj(s), o)
        },
    }
}

#[derive(Copy, Clone, Debug, PartialEq, Eq, Hash, PartialOrd, Ord, Structural)]
pub enum ModuleType {
    Broadcast,
    FlipFlop,
    Conj,
}

/// A module of the given type in its first state: a flip-flop is off, a
/// conjunction remembers a low pulse for each input.
pub fn crate_module(t: ModuleType, inputs: Vec<String>) -> (r: Module)
    ensures
        match t {
            ModuleType::Broadcast => r == Module::Broadcast,
            ModuleType::FlipFlop => r == Module::FlipFlop(FlipFlopState::Off),
            ModuleType::Conj => r matches Module::Conj(s) && memory(s@) == Seq::new(
                inputs@.len(),
                |i: int| (inputs@[i]@, Pulse::Low),
            ),
        },
{
    match t {
        ModuleType::Broadcast => Module::Broadcast,
        ModuleType::FlipFlop => Module::FlipFlop(FlipFlopState::Off),
        ModuleType::Conj => {
            let mut state: ConjState = Vec::new();
            let mut i: usize = 0;
            while i < inputs.len()
                invariant
                    i <= inputs.len(),
                    state@.len() == i,
                    forall|j: int| 0 <= j < i ==> #[trigger] memory(state@)[j] == (inputs@[j]@, Pulse::Low),
                decreases inputs.len() - i,
            {
                let ghost prior = memory(state@);
                state.push((inputs[i].clone(), Pulse::Low));
                proof {
                    assert forall|j: int| 0 <= j < i + 1 implies #[trigger] memory(state@)[j] == (
                        inputs@[j]@,
                        Pulse::Low,
                    ) by {
                        if j < i {
                            assert(memory(state@)[j] == prior[j]);
                        }
                    }
                }
                i += 1;
            }
            assert(memory(state@) =~= Seq::new(inputs@.len(), |i: int| (inputs@[i]@, Pulse::Low)));
            Module::Conj(state)
        },
    }
}

/// A module and the modules to which it sends.
#[derive(Clone, Debug, PartialEq, Eq, Hash, PartialOrd, Ord)]
pub struct Machine {
    pub module: Module,
    pub targets: Vec<String>,
}

/// A machine of the given type in its first state.
pub fn create_machine(t: ModuleType, inputs: Vec<String>, outputs: Vec<String>) -> (r: Machine)
    ensures
        r.targets == outputs,
        match t {
            ModuleType::Broadcast => r.module == Module::Broadcast,
            ModuleType::FlipFlop => r.module == Module::FlipFlop(FlipFlopState::Off),
            ModuleType::Conj => r.module matches Module::Conj(s) && memory(s@) == Seq::new(
                inputs@.len(),
                |i: int| (inputs@[i]@, Pulse::Low),
            ),
        },
{
    Machine { targets: outputs, module: crate_module(t, inputs) }
}

/// The numbers of low and of high pulses.
pub type Counter = (usize, usize);

/// Counts a pulse.
pub fn inc_counter(c: &mut Counter, s: Pulse)
    requires
        match s {
            Pulse::High => old(c).1 < usize::MAX,
            Pulse::Low => old(c).0 < usize::MAX,
        },
    ensures
        *final(c) == match s {
            Pulse::High => (old(c).0, (old(c).1 + 1) as usize),
            Pulse::Low => ((old(c).0 + 1) as usize, old(c).1),
        },
{
    match s {
        Pulse::High => c.1 += 1,
        Pulse::Low => c.0 += 1,
    }
}

/// A module as plain values.
pub enum ModuleView {
    Broadcast,
    FlipFlop(FlipFlopState),
    Conj(Seq<(Seq<char>, Pulse)>),
}

/// The module as plain values.
pub open spec fn module_view(m: Module) -> ModuleView {
    match m {
        Module::Broadcast => ModuleView::Broadcast,
        Module::FlipFlop(s) => ModuleView::FlipFlop(s),
        Module::Conj(s) => ModuleView::Conj(memory(s@)),
    }
}

/// What a module is after a pulse from `source`, and what it sends.
pub open spec fn answered(m: ModuleView, source: Seq<char>, p: Pulse) -> (ModuleView, Option<Pulse>) {
    match m {
        ModuleView::Broadcast => (ModuleView::Broadcast, Some(p)),
        ModuleView::FlipFlop(s) => match p {
            Pulse::High => (ModuleView::FlipFlop(s), None),
            Pulse::Low => (ModuleView::FlipFlop(flipped(s)), Some(leaving(s))),
        },
        ModuleView::Conj(s) => (
            ModuleView::Conj(remembered(s, source, p)),
            Some(
                if all_high(remembered(s, source, p)) {
                    Pulse::Low
                } else {
                    Pulse::High
                },
            ),
        ),
    }
}

/// The names of a list.
pub open spec fn names(v: Seq<String>) -> Seq<Seq<char>> {
    Seq::new(v.len(), |i: int| v[i]@)
}

/// A network: machines under their names. Of two machines with one name the
/// later counts.
pub type Network = Vec<(String, Machine)>;

/// A network as plain values: of each machine its name, its module and its
/// targets.
pub type Net = Seq<(Seq<char>, ModuleView, Seq<Seq<char>>)>;

/// The network as plain values.
pub open spec fn net(n: Seq<(String, Machine)>) -> Net {
    Seq::new(n.len(), |i: int| (n[i].0@, module_view(n[i].1.module), names(n[i].1.targets@)))
}

/// The place of the last machine with the name, or `-1` if there is none.
pub open spec fn machine_at(n: Net, name: Seq<char>) -> int
    decreases n.len(),
{
    if n.len() == 0 {
        -1
    } else if n.last().0 == name {
        n.len() - 1
    } else {
        machine_at(n.drop_last(), name)
    }
}

/// A pulse on its way: from whom, to whom, and which.
pub type Signal = (Seq<char>, Seq<char>, Pulse);

/// The pulses that a machine sends to its first `k` targets.
pub open spec fn signals(source: Seq<char>, targets: Seq<Seq<char>>, p: Pulse, k: int) -> Seq<Signal>
    decreases k,
{
    if k <= 0 {
        Seq::empty()
    } else {
        signals(source, targets, p, k - 1).push((source, targets[k - 1], p))
    }
}

/// The counter after a pulse has been counted.
pub open spec fn counted(c: (int, int), p: Pulse) -> (int, int) {
    match p {
        Pulse::High => (c.0, c.1 + 1),
        Pulse::Low => (c.0 + 1, c.1),
    }
}

/// The state of a network in which pulses are on their way: the machines,
/// the pulses in the order in which they were sent, the numbers of low and
/// high pulses so far, and the numbers of those to the machine `rx`.
pub struct Run {
    pub net: Net,
    pub queue: Seq<Signal>,
    pub counter: (int, int),
    pub rx: (int, int),
}

/// The state after the first pulse of the queue has arrived: it is
/// counted; the machine that it reaches answers it and sends its answer to
/// all its targets; a pulse to no machine is lost, but counted if it goes to
/// `rx`. No state if a counter would exceed a machine word.
pub open spec fn delivered(r: Run) -> Option<Run> {
    let (source, current, pulse) = r.queue[0];
    let counter = counted(r.counter, pulse);
    let i = machine_at(r.net, current);
    if counter.0 > usize::MAX || counter.1 > usize::MAX {
        None
    } else if i < 0 {
        let rx = if current == "rx"@ {
            counted(r.rx, pulse)
        } else {
            r.rx
        };
        if rx.0 > usize::MAX || rx.1 > usize::MAX {
            None
        } else {
            Some(Run { net: r.net, queue: r.queue.drop_first(), counter, rx })
        }
    } else {
        let a = answered(r.net[i].1, source, pulse);
        let net = r.net.update(i, (r.net[i].0, a.0, r.net[i].2));
        Some(
            Run {
                net,
                queue: match a.1 {
                    Some(p) => r.queue.drop_first() + signals(
                        current,
                        r.net[i].2,
                        p,
                        r.net[i].2.len() as int,
                    ),
                    None => r.queue.drop_first(),
                },
                counter,
                rx: r.rx,
            },
        )
    }
}

/// The state in which no pulse is on its way any more, if it is reached
/// after `fuel` pulses.
#[verifier::opaque]
pub open spec fn settled(r: Run, fuel: nat) -> Option<Run>
    decreases fuel,
{
    if r.queue.len() == 0 {
        Some(r)
    } else if fuel == 0 {
        None
    } else {
        match delivered(r) {
            None => None,
            Some(next) => settled(next, (fuel - 1) as nat),
        }
    }
}

/// The pulses come to an end.
#[verifier::opaque]
pub open spec fn settles(r: Run) -> bool {
    exists|fuel: nat| #[trigger] settled(r, fuel) is Some
}

/// The least number of pulses after which the network is known to settle.
#[verifier::opaque]
pub open spec fn pulses(r: Run) -> nat {
    choose|fuel: nat|
        (#[trigger] settled(r, fuel)) is Some && forall|g: nat|
            g < fuel ==> (#[trigger] settled(r, g)) is None
}

/// The state in which the pulses have come to an end.
pub open spec fn rest(r: Run) -> Run {
    settled(r, pulses(r)).unwrap()
}

pub proof fn lemma_pulses(r: Run, fuel: nat)
    requires
        settled(r, fuel) is Some,
    ensures
        settled(r, pulses(r)) is Some,
        pulses(r) <= fuel,
        forall|g: nat| g < pulses(r) ==> (#[trigger] settled(r, g)) is None,
        settles(r),
    decreases fuel,
{
    reveal(settles);
    reveal(pulses);
    if exists|g: nat| g < fuel && (#[trigger] settled(r, g)) is Some {
        let g = choose|g: nat| g < fuel && (#[trigger] settled(r, g)) is Some;
        lemma_pulses(r, g);
    } else {
        assert(settled(r, fuel) is Some && forall|g: nat|
            g < fuel ==> (#[trigger] settled(r, g)) is None);
        let l = pulses(r);
        if l > fuel {
            assert(settled(r, fuel) is None);
        }
    }
}

pub proof fn lemma_settled_more(r: Run, f: nat, g: nat)
    requires
        settled(r, f) is Some,
        f <= g,
    ensures
        settled(r, g) == settled(r, f),
    decreases f,
{
    reveal(settled);
    if r.queue.len() > 0 && f > 0 {
        lemma_settled_more(delivered(r).unwrap(), (f - 1) as nat, (g - 1) as nat);
    }
}

/// What is known of a network that settles when its next pulse arrives:
/// the pulse can be delivered, afterwards the network settles sooner, and
/// it settles to the same state.
pub proof fn lemma_deliver(r: Run)
    requires
        settles(r),
        r.queue.len() > 0,
    ensures
        delivered(r) is Some,
        settles(delivered(r).unwrap()),
        pulses(delivered(r).unwrap()) < pulses(r),
        rest(delivered(r).unwrap()) == rest(r),
{
    reveal(settles);
    let f = choose|f: nat| #[trigger] settled(r, f) is Some;
    lemma_pulses(r, f);
    let l = pulses(r);
    reveal(settled);
    assert(l > 0);
    let next = delivered(r).unwrap();
    assert(settled(r, l) == settled(next, (l - 1) as nat));
    lemma_pulses(next, (l - 1) as nat);
    lemma_settled_more(next, pulses(next), (l - 1) as nat);
}

/// A network in which no pulse is on its way has settled.
pub proof fn lemma_at_rest(r: Run)
    requires
        r.queue.len() == 0,
    ensures
        rest(r) == r,
        settles(r),
{
    reveal(settled);
    assert(settled(r, 0) == Some(r));
    lemma_pulses(r, 0);
}

/// The state in which the button is pressed: the button sends a low pulse
/// to the broadcaster.
pub open spec fn press(n: Net) -> Run {
    Run { net: n, queue: seq![("button"@, "broadcaster"@, Pulse::Low)], counter: (0, 0), rx: (0, 0) }
}

fn find_machine(n: &Network, name: &String) -> (r: Option<usize>)
    ensures
        match r {
            Some(i) => i == machine_at(net(n@), name@) && i < n@.len(),
            None => machine_at(net(n@), name@) < 0,
        },
{
    let mut i: usize = n.len();
    proof {
        assert(net(n@).take(n@.len() as int) =~= net(n@));
    }
    while i > 0
        invariant
            i <= n.len(),
            machine_at(net(n@), name@) == machine_at(net(n@).take(i as int), name@),
        decreases i,
    {
        proof {
            let t = net(n@).take(i as int);
            assert(t.last() == net(n@)[i - 1]);
            assert(t.drop_last() =~= net(n@).take(i - 1));
        }
        if n[i - 1].0 == *name {
            return Some(i - 1);
        }
        i -= 1;
    }
    None
}

fn answer(n: &mut Network, i: usize, source: String, p: Pulse) -> (r: Option<Pulse>)
    requires
        i < old(n)@.len(),
    ensures
        final(n)@.len() == old(n)@.len(),
        net(final(n)@) == net(old(n)@).update(
            i as int,
            (
                net(old(n)@)[i as int].0,
                answered(net(old(n)@)[i as int].1, source@, p).0,
                net(old(n)@)[i as int].2,
            ),
        ),
        r == answered(net(old(n)@)[i as int].1, source@, p).1,
        final(n)@[i as int].1.targets == old(n)@[i as int].1.targets,
{
    let ghost before = net(n@);
    let mut module = Module::Broadcast;
    std::mem::swap(&mut module, &mut n[i].1.module);
    let (module, response) = apply(module, source, p);
    n[i].1.module = module;
    proof {
        assert(net(n@) =~= before.update(
            i as int,
            (before[i as int].0, answered(before[i as int].1, source@, p).0, before[i as int].2),
        ));
    }
    response
}

/// A queue of pulses as plain values.
pub open spec fn waiting(q: Seq<(String, String, Pulse)>) -> Seq<Signal> {
    Seq::new(q.len(), |i: int| (q[i].0@, q[i].1@, q[i].2))
}

fn send(queue: &mut Vec<(String, String, Pulse)>, source: &String, targets: &Vec<String>, p: Pulse)
    ensures
        waiting(final(queue)@) == waiting(old(queue)@) + signals(
            source@,
            names(targets@),
            p,
            targets@.len() as int,
        ),
{
    let ghost before = waiting(queue@);
    let mut k: usize = 0;
    proof {
        assert(before + signals(source@, names(targets@), p, 0) =~= before);
    }
    while k < targets.len()
        invariant
            k <= targets.len(),
            waiting(queue@) == before + signals(source@, names(targets@), p, k as int),
        decreases targets.len() - k,
    {
        let ghost was = waiting(queue@);
        queue.push((source.clone(), targets[k].clone(), p));
        proof {
            assert(waiting(queue@) =~= was.push((source@, targets@[k as int]@, p)));
            assert(names(targets@)[k as int] == targets@[k as int]@);
            assert(before + signals(source@, names(targets@), p, k + 1) =~= (before + signals(
                source@,
                names(targets@),
                p,
                k as int,
            )).push((source@, targets@[k as int]@, p)));
        }
        k += 1;
    }
}

fn copy_names(v: &Vec<String>) -> (r: Vec<String>)
    ensures
        names(r@) == names(v@),
{
    let mut out: Vec<String> = Vec::new();
    let mut i: usize = 0;
    while i < v.len()
        invariant
            i <= v.len(),
            out@.len() == i,
            forall|j: int| 0 <= j < i ==> (#[trigger] out@[j])@ == v@[j]@,
        decreases v.len() - i,
    {
        out.push(v[i].clone());
        i += 1;
    }
    assert(names(out@) =~= names(v@));
    out
}

/// Presses the button and lets the pulses run until none is on its way:
/// the network afterwards, the numbers of low and high pulses, and the
/// numbers of those to the machine `rx`.
pub fn button(n: Network) -> (r: (Network, Counter, Counter))
    requires
        settles(press(net(n@))),
    ensures
        net(r.0@) == rest(press(net(n@))).net,
        (r.1.0 as int, r.1.1 as int) == rest(press(net(n@))).counter,
        (r.2.0 as int, r.2.1 as int) == rest(press(net(n@))).rx,
{
    let ghost first = press(net(n@));
    let mut n = n;
    let mut queue: Vec<(String, String, Pulse)> = Vec::new();
    let mut counter: Counter = (0, 0);
    let mut rxcounter: Counter = (0, 0);
    queue.push((String::from_str("button"), String::from_str("broadcaster"), Pulse::Low));
    let mut head: usize = 0;
    proof {
        assert(waiting(queue@).skip(0) =~= first.queue);
    }
    while head < queue.len()
        invariant
            head <= queue.len(),
            settles(
                Run {
                    net: net(n@),
                    queue: waiting(queue@).skip(head as int),
                    counter: (counter.0 as int, counter.1 as int),
                    rx: (rxcounter.0 as int, rxcounter.1 as int),
                },
            ),
            rest(
                Run {
                    net: net(n@),
                    queue: waiting(queue@).skip(head as int),
                    counter: (counter.0 as int, counter.1 as int),
                    rx: (rxcounter.0 as int, rxcounter.1 as int),
                },
            ) == rest(first),
        decreases
                pulses(
                    Run {
                        net: net(n@),
                        queue: waiting(queue@).skip(head as int),
                        counter: (counter.0 as int, counter.1 as int),
                        rx: (rxcounter.0 as int, rxcounter.1 as int),
                    },
                ),
    {
        let ghost r = Run {
            net: net(n@),
            queue: waiting(queue@).skip(head as int),
            counter: (counter.0 as int, counter.1 as int),
            rx: (rxcounter.0 as int, rxcounter.1 as int),
        };
        proof {
            lemma_deliver(r);
            assert(r.queue[0] == waiting(queue@)[head as int]);
            assert(r.queue.drop_first() =~= waiting(queue@).skip(head + 1));
        }
        let source = queue[head].0.clone();
        let current = queue[head].1.clone();
        let pulse = queue[head].2;
        head += 1;
        inc_counter(&mut counter, pulse);
        match find_machine(&n, &current) {
            None => {
                if same_chars(&chars_of(current.as_str()), &chars_of("rx")) {
                    inc_counter(&mut rxcounter, pulse);
                }
            },
            Some(i) => {
                let targets = copy_names(&n[i].1.targets);
                let response = answer(&mut n, i, source, pulse);
                match response {
                    Some(p) => {
                        let ghost before = waiting(queue@);
                        send(&mut queue, &current, &targets, p);
                        proof {
                            assert(waiting(queue@).skip(head as int) =~= before.skip(head as int)
                                + signals(current@, names(targets@), p, targets@.len() as int));
                        }
                    },
                    None => {},
                }
            },
        }
    }
    proof {
        let r = Run {
            net: net(n@),
            queue: waiting(queue@).skip(head as int),
            counter: (counter.0 as int, counter.1 as int),
            rx: (rxcounter.0 as int, rxcounter.1 as int),
        };
        lemma_at_rest(r);
    }
    (n, counter, rxcounter)
}

/// The characters between the names of a line.
pub open spec fn marks() -> Seq<char> {
    seq![' ', '-', '>', ',', '&', '%']
}

/// The names of a line: the module's own, then those of its targets.
pub open spec fn words_in(line: Seq<char>) -> Seq<Seq<char>> {
    non_empty(split(line, marks()))
}

/// The type that the first character of a line gives.
pub open spec fn kind_of(line: Seq<char>) -> ModuleType {
    if line.len() > 0 && line[0] == '&' {
        ModuleType::Conj
    } else if line.len() > 0 && line[0] == '%' {
        ModuleType::FlipFlop
    } else {
        ModuleType::Broadcast
    }
}

/// A module as its line declares it: its type, its name, its targets.
pub type Declaration = (ModuleType, String, Vec<String>);

/// The declaration as plain values.
pub open spec fn declared(d: Declaration) -> (ModuleType, Seq<char>, Seq<Seq<char>>) {
    (d.0, d.1@, names(d.2@))
}

/// The declaration that a line holds.
pub open spec fn declaration(line: Seq<char>) -> (ModuleType, Seq<char>, Seq<Seq<char>>) {
    (kind_of(line), words_in(line)[0], words_in(line).skip(1))
}

fn module_of(line: &Vec<char>) -> (r: Declaration)
    requires
        words_in(line@).len() > 0,
    ensures
        declared(r) == declaration(line@),
{
    let kind = if line.len() > 0 && line[0] == '&' {
        ModuleType::Conj
    } else if line.len() > 0 && line[0] == '%' {
        ModuleType::FlipFlop
    } else {
        ModuleType::Broadcast
    };
    let seps: Vec<char> = vec![' ', '-', '>', ',', '&', '%'];
    assert(seps@ =~= marks());
    let pieces = drop_empty(split_any(line, &seps));
    let first = string_of(&pieces[0]);
    let mut outputs: Vec<String> = Vec::new();
    let mut i: usize = 1;
    while i < pieces.len()
        invariant
            1 <= i <= pieces.len(),
            outputs@.len() == i - 1,
            forall|j: int| 0 <= j < i - 1 ==> (#[trigger] outputs@[j])@ == pieces@[j + 1]@,
        decreases pieces.len() - i,
    {
        outputs.push(string_of(&pieces[i]));
        i += 1;
    }
    proof {
        assert(views(pieces@)[0] == pieces@[0]@);
        assert forall|j: int| 0 <= j < outputs@.len() implies names(outputs@)[j] == words_in(
            line@,
        ).skip(1)[j] by {
            assert(views(pieces@)[j + 1] == pieces@[j + 1]@);
        }
        assert(names(outputs@) =~= words_in(line@).skip(1));
    }
    (kind, first, outputs)
}

/// Reads the declaration of a module: `&` before the name makes a
/// conjunction, `%` a flip-flop, a bare name a broadcaster.
pub fn pre_parse_module(line: &str) -> (r: Declaration)
    requires
        words_in(line@).len() > 0,
    ensures
        declared(r) == declaration(line@),
{
    module_of(&chars_of(line))
}

/// How often `sender` names `o` among its first `k` targets, as that many
/// entries.
pub open spec fn heard(sender: Seq<char>, outs: Seq<Seq<char>>, o: Seq<char>, k: int) -> Seq<
    Seq<char>,
>
    decreases k,
{
    if k <= 0 {
        Seq::empty()
    } else if outs[k - 1] == o {
        heard(sender, outs, o, k - 1).push(sender)
    } else {
        heard(sender, outs, o, k - 1)
    }
}

/// The modules among the first `n` that send to `o`, in their order, each
/// as often as it names `o`.
pub open spec fn senders(
    d: Seq<(ModuleType, Seq<char>, Seq<Seq<char>>)>,
    o: Seq<char>,
    n: int,
) -> Seq<Seq<char>>
    decreases n,
{
    if n <= 0 {
        Seq::empty()
    } else {
        senders(d, o, n - 1) + heard(d[n - 1].1, d[n - 1].2, o, d[n - 1].2.len() as int)
    }
}

/// The place of the last entry with the name, or `-1` if there is none.
pub open spec fn entry_at(t: Seq<(String, Vec<String>)>, name: Seq<char>) -> int
    decreases t.len(),
{
    if t.len() == 0 {
        -1
    } else if t.last().0@ == name {
        t.len() - 1
    } else {
        entry_at(t.drop_last(), name)
    }
}

/// What a table lists under a name: nothing where it has no such entry.
pub open spec fn listed(t: Seq<(String, Vec<String>)>, name: Seq<char>) -> Seq<Seq<char>> {
    if entry_at(t, name) >= 0 {
        names(t[entry_at(t, name)].1@)
    } else {
        Seq::empty()
    }
}

pub proof fn lemma_entry_at(t: Seq<(String, Vec<String>)>, name: Seq<char>)
    ensures
        -1 <= entry_at(t, name) < t.len(),
        entry_at(t, name) >= 0 ==> t[entry_at(t, name)].0@ == name,
        entry_at(t, name) < 0 ==> forall|i: int| 0 <= i < t.len() ==> (#[trigger] t[i]).0@ != name,
    decreases t.len(),
{
    if t.len() > 0 && t.last().0@ != name {
        lemma_entry_at(t.drop_last(), name);
        assert forall|i: int| 0 <= i < t.len() && entry_at(t, name) < 0 implies (#[trigger] t[i]).0@
            != name by {
            if i < t.len() - 1 {
                assert(t.drop_last()[i] == t[i]);
            }
        }
    }
}

/// The place of an entry depends on the names alone.
pub proof fn lemma_entry_same_names(
    t: Seq<(String, Vec<String>)>,
    u: Seq<(String, Vec<String>)>,
    name: Seq<char>,
)
    requires
        t.len() == u.len(),
        forall|i: int| 0 <= i < t.len() ==> (#[trigger] t[i]).0@ == u[i].0@,
    ensures
        entry_at(t, name) == entry_at(u, name),
    decreases t.len(),
{
    if t.len() > 0 {
        assert(t.last().0@ == u.last().0@);
        if t.last().0@ != name {
            assert forall|i: int| 0 <= i < t.len() - 1 implies (#[trigger] t.drop_last()[i]).0@
                == u.drop_last()[i].0@ by {
                assert(t[i].0@ == u[i].0@);
            }
            lemma_entry_same_names(t.drop_last(), u.drop_last(), name);
        }
    }
}

fn find_entry(t: &Vec<(String, Vec<String>)>, name: &String) -> (r: Option<usize>)
    ensures
        match r {
            Some(i) => i == entry_at(t@, name@) && i < t@.len(),
            None => entry_at(t@, name@) < 0,
        },
{
    let mut i: usize = t.len();
    proof {
        assert(t@.take(t@.len() as int) =~= t@);
    }
    while i > 0
        invariant
            i <= t.len(),
            entry_at(t@, name@) == entry_at(t@.take(i as int), name@),
        decreases i,
    {
        proof {
            assert(t@.take(i as int).last() == t@[i - 1]);
            assert(t@.take(i as int).drop_last() =~= t@.take(i - 1));
        }
        if t[i - 1].0 == *name {
            return Some(i - 1);
        }
        i -= 1;
    }
    None
}

fn note(t: &mut Vec<(String, Vec<String>)>, o: &String, sender: &String)
    ensures
        forall|x: Seq<char>|
            #[trigger] listed(final(t)@, x) == if x == o@ {
                listed(old(t)@, x).push(sender@)
            } else {
                listed(old(t)@, x)
            },
{
    let ghost before = t@;
    match find_entry(t, o) {
        Some(i) => {
            t[i].1.push(sender.clone());
            proof {
                lemma_entry_at(before, o@);
                assert(names(t@[i as int].1@) =~= names(before[i as int].1@).push(sender@));
                assert forall|x: Seq<char>|
                    #[trigger] listed(t@, x) == if x == o@ {
                        listed(before, x).push(sender@)
                    } else {
                        listed(before, x)
                    } by {
                    lemma_entry_same_names(before, t@, x);
                    lemma_entry_at(before, x);
                }
            }
        },
        None => {
            let mut first: Vec<String> = Vec::new();
            first.push(sender.clone());
            t.push((o.clone(), first));
            proof {
                assert(t@.drop_last() =~= before);
                assert(names(t@.last().1@) =~= Seq::<Seq<char>>::empty().push(sender@));
                assert forall|x: Seq<char>|
                    #[trigger] listed(t@, x) == if x == o@ {
                        listed(before, x).push(sender@)
                    } else {
                        listed(before, x)
                    } by {
                    lemma_entry_at(before, x);
                    if x != o@ && entry_at(before, x) >= 0 {
                        assert(t@[entry_at(before, x)] == before[entry_at(before, x)]);
                    }
                }
            }
        },
    }
}

/// For each module the modules that send to it, in the order in which they
/// are declared.
pub fn collect_inputs(modules: &Vec<Declaration>) -> (r: Vec<(String, Vec<String>)>)
    ensures
        forall|o: Seq<char>|
            #[trigger] listed(r@, o) == senders(
                Seq::new(modules@.len(), |i: int| declared(modules@[i])),
                o,
                modules@.len() as int,
            ),
{
    let ghost d = Seq::new(modules@.len(), |i: int| declared(modules@[i]));
    let mut inputs: Vec<(String, Vec<String>)> = Vec::new();
    let mut n: usize = 0;
    while n < modules.len()
        invariant
            n <= modules.len(),
            d == Seq::new(modules@.len(), |i: int| declared(modules@[i])),
            forall|o: Seq<char>| #[trigger] listed(inputs@, o) == senders(d, o, n as int),
        decreases modules.len() - n,
    {
        let mut k: usize = 0;
        proof {
            assert forall|o: Seq<char>| #[trigger]
                listed(inputs@, o) == senders(d, o, n as int) + heard(
                    d[n as int].1,
                    d[n as int].2,
                    o,
                    0,
                ) by {
                assert(senders(d, o, n as int) + Seq::<Seq<char>>::empty() =~= senders(
                    d,
                    o,
                    n as int,
                ));
            }
        }
        while k < modules[n].2.len()
            invariant
                n < modules.len(),
                k <= modules@[n as int].2@.len(),
                d == Seq::new(modules@.len(), |i: int| declared(modules@[i])),
                forall|o: Seq<char>| #[trigger]
                    listed(inputs@, o) == senders(d, o, n as int) + heard(
                        d[n as int].1,
                        d[n as int].2,
                        o,
                        k as int,
                    ),
            decreases modules@[n as int].2@.len() - k,
        {
            let ghost before = inputs@;
            note(&mut inputs, &modules[n].2[k], &modules[n].1);
            proof {
                let this = modules@[n as int].2@[k as int]@;
                assert(d[n as int].2[k as int] == this);
                assert forall|o: Seq<char>| #[trigger]
                    listed(inputs@, o) == senders(d, o, n as int) + heard(
                        d[n as int].1,
                        d[n as int].2,
                        o,
                        k + 1,
                    ) by {
                    assert(listed(before, o) == senders(d, o, n as int) + heard(
                        d[n as int].1,
                        d[n as int].2,
                        o,
                        k as int,
                    ));
                    if o == this {
                        assert((senders(d, o, n as int) + heard(
                            d[n as int].1,
                            d[n as int].2,
                            o,
                            k as int,
                        )).push(d[n as int].1) =~= senders(d, o, n as int) + heard(
                            d[n as int].1,
                            d[n as int].2,
                            o,
                            k as int,
                        ).push(d[n as int].1));
                    }
                }
            }
            k += 1;
        }
        proof {
            assert(d[n as int].2.len() == modules@[n as int].2@.len());
        }
        n += 1;
    }
    inputs
}

/// A module of the given type in its first state, as plain values.
pub open spec fn initial(t: ModuleType, inputs: Seq<Seq<char>>) -> ModuleView {
    match t {
        ModuleType::Broadcast => ModuleView::Broadcast,
        ModuleType::FlipFlop => ModuleView::FlipFlop(FlipFlopState::Off),
        ModuleType::Conj => ModuleView::Conj(Seq::new(inputs.len(), |i: int| (inputs[i], Pulse::Low))),
    }
}

/// The declarations that the lines hold.
pub open spec fn declarations(ls: Seq<Seq<char>>) -> Seq<(ModuleType, Seq<char>, Seq<Seq<char>>)> {
    Seq::new(ls.len(), |i: int| declaration(ls[i]))
}

/// The network that the declarations describe: each module in its first
/// state, a conjunction with the modules that send to it as its inputs.
pub open spec fn wired(d: Seq<(ModuleType, Seq<char>, Seq<Seq<char>>)>) -> Net {
    Seq::new(
        d.len(),
        |i: int| (d[i].1, initial(d[i].0, senders(d, d[i].1, d.len() as int)), d[i].2),
    )
}

/// Every line declares a module.
pub open spec fn legible(text: Seq<char>) -> bool {
    forall|i: int|
        0 <= i < lines_of(text).len() ==> words_in(#[trigger] lines_of(text)[i]).len() > 0
}

/// Reads a network, a module to a line.
pub fn parse(text: &str) -> (r: Network)
    requires
        legible(text@),
    ensures
        net(r@) == wired(declarations(lines_of(text@))),
{
    let ls = lines(text);
    let ghost d = declarations(lines_of(text@));
    let mut modules: Vec<Declaration> = Vec::new();
    let mut i: usize = 0;
    while i < ls.len()
        invariant
            i <= ls.len(),
            views(ls@) == lines_of(text@),
            legible(text@),
            modules@.len() == i,
            forall|j: int| 0 <= j < i ==> declared(#[trigger] modules@[j]) == declaration(ls@[j]@),
        decreases ls.len() - i,
    {
        proof {
            assert(views(ls@)[i as int] == ls@[i as int]@);
        }
        modules.push(module_of(&ls[i]));
        i += 1;
    }
    proof {
        assert forall|j: int| 0 <= j < modules@.len() implies declared(modules@[j]) == d[j] by {
            assert(views(ls@)[j] == ls@[j]@);
        }
        assert(Seq::new(modules@.len(), |i: int| declared(modules@[i])) =~= d);
    }
    let inputs = collect_inputs(&modules);
    let mut network: Network = Vec::new();
    let mut i: usize = 0;
    while i < modules.len()
        invariant
            i <= modules.len(),
            modules@.len() == d.len(),
            forall|j: int| 0 <= j < modules@.len() ==> declared(#[trigger] modules@[j]) == d[j],
            forall|o: Seq<char>| #[trigger] listed(inputs@, o) == senders(d, o, d.len() as int),
            network@.len() == i,
            forall|j: int| 0 <= j < i ==> #[trigger] net(network@)[j] == wired(d)[j],
        decreases modules.len() - i,
    {
        let kind = modules[i].0;
        let name = modules[i].1.clone();
        let outputs = copy_names(&modules[i].2);
        let known = match find_entry(&inputs, &name) {
            Some(j) => copy_names(&inputs[j].1),
            None => Vec::new(),
        };
        proof {
            assert(declared(modules@[i as int]) == d[i as int]);
            assert(listed(inputs@, name@) == senders(d, name@, d.len() as int));
            assert(names(known@) =~= listed(inputs@, name@));
        }
        let machine = create_machine(kind, known, outputs);
        proof {
            let ins = names(known@);
            match kind {
                ModuleType::Conj => {
                    assert(machine.module matches Module::Conj(s) && memory(s@) =~= Seq::new(
                        ins.len(),
                        |i: int| (ins[i], Pulse::Low),
                    ));
                },
                _ => {},
            }
            assert(module_view(machine.module) == initial(kind, ins));
        }
        let ghost before = net(network@);
        network.push((name, machine));
        proof {
            assert forall|j: int| 0 <= j < i + 1 implies #[trigger] net(network@)[j] == wired(
                d,
            )[j] by {
                if j < i {
                    assert(net(network@)[j] == before[j]);
                }
            }
        }
        i += 1;
    }
    proof {
        assert(net(network@) =~= wired(d));
    }
    network
}

/// The machines after the button has been pressed `k` times, each time
/// after the pulses of the time before had come to an end.
pub open spec fn pressed(n: Net, k: nat) -> Net
    decreases k,
{
    if k == 0 {
        n
    } else {
        rest(press(pressed(n, (k - 1) as nat))).net
    }
}

/// The numbers of low and high pulses that the first `k` presses cause.
pub open spec fn pulses_to(n: Net, k: nat) -> (int, int)
    decreases k,
{
    if k == 0 {
        (0, 0)
    } else {
        (
            pulses_to(n, (k - 1) as nat).0 + rest(press(pressed(n, (k - 1) as nat))).counter.0,
            pulses_to(n, (k - 1) as nat).1 + rest(press(pressed(n, (k - 1) as nat))).counter.1,
        )
    }
}

/// The first `k` presses each come to an end.
pub open spec fn pressable(n: Net, k: nat) -> bool {
    forall|j: nat| j < k ==> settles(press(#[trigger] pressed(n, j)))
}

/// The numbers of pulses of the first `k` presses fit a machine word.
pub open spec fn countable(n: Net, k: nat) -> bool {
    forall|j: nat|
        j <= k ==> (#[trigger] pulses_to(n, j)).0 <= usize::MAX && pulses_to(n, j).1
            <= usize::MAX
}

/// The number of low pulses times the number of high pulses that a
/// thousand presses of the button cause.
pub fn part1(n: Network) -> (r: usize)
    requires
        pressable(net(n@), 1000),
        countable(net(n@), 1000),
        pulses_to(net(n@), 1000).0 * pulses_to(net(n@), 1000).1 <= usize::MAX,
    ensures
        r == pulses_to(net(n@), 1000).0 * pulses_to(net(n@), 1000).1,
{
    let ghost first = net(n@);
    let mut n = n;
    let mut low: usize = 0;
    let mut high: usize = 0;
    let mut k: usize = 0;
    while k < 1000
        invariant
            k <= 1000,
            pressable(first, 1000),
            countable(first, 1000),
            net(n@) == pressed(first, k as nat),
            (low as int, high as int) == pulses_to(first, k as nat),
        decreases 1000 - k,
    {
        proof {
            assert(settles(press(pressed(first, k as nat))));
            assert(pulses_to(first, (k + 1) as nat).0 <= usize::MAX && pulses_to(
                first,
                (k + 1) as nat,
            ).1 <= usize::MAX);
        }
        let (next, c, _) = button(n);
        n = next;
        low = low + c.0;
        high = high + c.1;
        k += 1;
    }
    low * high
}

/// The `k`-th press is the first after which `rx` has had a low pulse, and
/// all presses up to it come to an end.
pub open spec fn wakes_at(n: Net, k: nat) -> bool {
    &&& 1 <= k <= usize::MAX
    &&& pressable(n, k)
    &&& rest(press(pressed(n, (k - 1) as nat))).rx.0 != 0
    &&& forall|j: nat| j < k - 1 ==> rest(press(#[trigger] pressed(n, j))).rx.0 == 0
}

/// The number of presses of the button after which the machine `rx` has
/// first had a low pulse.
pub fn part2(n: Network) -> (r: usize)
    requires
        exists|k: nat| wakes_at(net(n@), k),
    ensures
        wakes_at(net(n@), r as nat),
{
    let ghost first = net(n@);
    let ghost w = choose|k: nat| wakes_at(net(n@), k);
    let mut s = n;
    let mut i: usize = 0;
    loop
        invariant
            first == net(n@),
            wakes_at(first, w),
            i < w,
            net(s@) == pressed(first, i as nat),
        decreases w - i,
    {
        proof {
            assert(settles(press(pressed(first, i as nat))));
        }
        i += 1;
        let r = button(s);
        s = r.0;
        if r.2.0 != 0 {
            proof {
                assert(i == w) by {
                    if i < w {
                        assert(rest(press(pressed(first, (i - 1) as nat))).rx.0 == 0);
                    }
                }
            }
            return i;
        }
        assert(i < w);
    }
}

/// The targets of the machine with the name; none where there is no such
/// machine.
pub open spec fn targets_of(n: Net, name: Seq<char>) -> Seq<Seq<char>> {
    if machine_at(n, name) >= 0 {
        n[machine_at(n, name)].2
    } else {
        Seq::empty()
    }
}

/// The names met so far, `acc`, and those that pulses from `current` can
/// come to and that were not met before, in the order in which they are
/// met when the targets of each are followed before the next one; if no
/// more than `fuel` names in a row have to be followed.
pub open spec fn explored(n: Net, acc: Seq<Seq<char>>, current: Seq<char>, fuel: nat) -> Option<
    Seq<Seq<char>>,
>
    decreases fuel, 0int,
{
    if acc.contains(current) {
        Some(acc)
    } else if fuel == 0 {
        None
    } else {
        explored_all(
            n,
            acc.push(current),
            targets_of(n, current),
            (fuel - 1) as nat,
            targets_of(n, current).len() as int,
        )
    }
}

/// The names met after the first `k` of the targets have been followed.
pub open spec fn explored_all(
    n: Net,
    acc: Seq<Seq<char>>,
    targets: Seq<Seq<char>>,
    fuel: nat,
    k: int,
) -> Option<Seq<Seq<char>>>
    decreases fuel, k,
{
    if k <= 0 {
        Some(acc)
    } else {
        match explored_all(n, acc, targets, fuel, k - 1) {
            None => None,
            Some(a) => explored(n, a, targets[k - 1], fuel),
        }
    }
}

/// The names can be followed to their end.
#[verifier::opaque]
pub open spec fn explorable(n: Net, acc: Seq<Seq<char>>, current: Seq<char>) -> bool {
    exists|fuel: nat| #[trigger] explored(n, acc, current, fuel) is Some
}

/// The least number of names in a row that have to be followed.
#[verifier::opaque]
pub open spec fn reach(n: Net, acc: Seq<Seq<char>>, current: Seq<char>) -> nat {
    choose|fuel: nat|
        (#[trigger] explored(n, acc, current, fuel)) is Some && forall|f: nat|
            f < fuel ==> (#[trigger] explored(n, acc, current, f)) is None
}

/// The names met so far and those that pulses from `current` can come to.
pub open spec fn met(n: Net, acc: Seq<Seq<char>>, current: Seq<char>) -> Seq<Seq<char>> {
    explored(n, acc, current, reach(n, acc, current)).unwrap()
}

proof fn lemma_reach(n: Net, acc: Seq<Seq<char>>, current: Seq<char>, fuel: nat)
    requires
        explored(n, acc, current, fuel) is Some,
    ensures
        explored(n, acc, current, reach(n, acc, current)) is Some,
        reach(n, acc, current) <= fuel,
        explorable(n, acc, current),
    decreases fuel,
{
    reveal(explorable);
    reveal(reach);
    if exists|f: nat| f < fuel && (#[trigger] explored(n, acc, current, f)) is Some {
        let f = choose|f: nat| f < fuel && (#[trigger] explored(n, acc, current, f)) is Some;
        lemma_reach(n, acc, current, f);
    } else {
        assert(explored(n, acc, current, fuel) is Some && forall|f: nat|
            f < fuel ==> (#[trigger] explored(n, acc, current, f)) is None);
        if reach(n, acc, current) > fuel {
            assert(explored(n, acc, current, fuel) is None);
        }
    }
}

proof fn lemma_explored_more(n: Net, acc: Seq<Seq<char>>, current: Seq<char>, f: nat, h: nat)
    requires
        explored(n, acc, current, f) is Some,
        f <= h,
    ensures
        explored(n, acc, current, h) == explored(n, acc, current, f),
    decreases f, 0int,
{
    if !acc.contains(current) {
        lemma_explored_all_more(
            n,
            acc.push(current),
            targets_of(n, current),
            (f - 1) as nat,
            (h - 1) as nat,
            targets_of(n, current).len() as int,
        );
    }
}

proof fn lemma_explored_all_more(
    n: Net,
    acc: Seq<Seq<char>>,
    targets: Seq<Seq<char>>,
    f: nat,
    h: nat,
    k: int,
)
    requires
        explored_all(n, acc, targets, f, k) is Some,
        f <= h,
    ensures
        explored_all(n, acc, targets, h, k) == explored_all(n, acc, targets, f, k),
    decreases f, k,
{
    if k > 0 {
        lemma_explored_all_more(n, acc, targets, f, h, k - 1);
        lemma_explored_more(
            n,
            explored_all(n, acc, targets, f, k - 1).unwrap(),
            targets[k - 1],
            f,
            h,
        );
    }
}

proof fn lemma_explored_so_far(
    n: Net,
    acc: Seq<Seq<char>>,
    targets: Seq<Seq<char>>,
    fuel: nat,
    k: int,
    m: int,
)
    requires
        k <= m,
        explored_all(n, acc, targets, fuel, m) is Some,
    ensures
        explored_all(n, acc, targets, fuel, k) is Some,
    decreases m - k,
{
    if k < m {
        lemma_explored_so_far(n, acc, targets, fuel, k + 1, m);
    }
}

/// The names that the network knows: those of its machines and of their
/// targets.
pub open spec fn known(n: Net) -> Set<Seq<char>>
    decreases n.len(),
{
    if n.len() == 0 {
        Set::empty()
    } else {
        known(n.drop_last()).insert(n.last().0).union(n.last().2.to_set())
    }
}

proof fn lemma_known(n: Net)
    ensures
        known(n).finite(),
        forall|i: int, x: Seq<char>|
            0 <= i < n.len() && (#[trigger] n[i]).2.contains(x) ==> #[trigger] known(n).contains(x),
    decreases n.len(),
{
    if n.len() > 0 {
        lemma_known(n.drop_last());
        vstd::seq_lib::seq_to_set_is_finite(n.last().2);
        assert forall|i: int, x: Seq<char>|
            0 <= i < n.len() && (#[trigger] n[i]).2.contains(x) implies #[trigger] known(
            n,
        ).contains(x) by {
            if i < n.len() - 1 {
                assert(n.drop_last()[i] == n[i]);
                assert(known(n.drop_last()).contains(x));
            } else {
                assert(n.last().2.to_set().contains(x));
            }
        }
    }
}

proof fn lemma_machine_at(n: Net, name: Seq<char>)
    ensures
        -1 <= machine_at(n, name) < n.len(),
    decreases n.len(),
{
    if n.len() > 0 && n.last().0 != name {
        lemma_machine_at(n.drop_last(), name);
    }
}

/// The names that are in `u` and not in `acc`.
pub open spec fn unmet(u: Set<Seq<char>>, acc: Seq<Seq<char>>) -> Set<Seq<char>> {
    u.difference(acc.to_set())
}

/// Following names comes to an end: every name that is followed is new,
/// and there are no more names than the network knows.
proof fn lemma_explored_ends(
    n: Net,
    u: Set<Seq<char>>,
    acc: Seq<Seq<char>>,
    current: Seq<char>,
    k: nat,
)
    requires
        u.finite(),
        known(n).subset_of(u),
        u.contains(current),
        unmet(u, acc).len() <= k,
    ensures
        explored(n, acc, current, k) is Some,
        acc.to_set().subset_of(explored(n, acc, current, k).unwrap().to_set()),
    decreases k, 0int,
{
    if !acc.contains(current) {
        let next = acc.push(current);
        assert(unmet(u, acc).contains(current));
        assert(unmet(u, acc).len() >= 1) by {
            if unmet(u, acc).len() == 0 {
                assert(unmet(u, acc) =~= Set::empty());
            }
        }
        acc.lemma_push_to_set_commute(current);
        assert(unmet(u, next) =~= unmet(u, acc).remove(current));
        lemma_known(n);
        lemma_machine_at(n, current);
        let ts = targets_of(n, current);
        assert forall|i: int| 0 <= i < ts.len() implies u.contains(#[trigger] ts[i]) by {
            assert(n[machine_at(n, current)].2.contains(ts[i]));
            assert(known(n).contains(ts[i]));
        }
        lemma_explored_all_ends(n, u, next, ts, (k - 1) as nat, ts.len() as int);
    }
}

proof fn lemma_explored_all_ends(
    n: Net,
    u: Set<Seq<char>>,
    acc: Seq<Seq<char>>,
    targets: Seq<Seq<char>>,
    k: nat,
    j: int,
)
    requires
        u.finite(),
        known(n).subset_of(u),
        forall|i: int| 0 <= i < targets.len() ==> u.contains(#[trigger] targets[i]),
        unmet(u, acc).len() <= k,
        0 <= j <= targets.len(),
    ensures
        explored_all(n, acc, targets, k, j) is Some,
        acc.to_set().subset_of(explored_all(n, acc, targets, k, j).unwrap().to_set()),
    decreases k, j + 1,
{
    if j > 0 {
        lemma_explored_all_ends(n, u, acc, targets, k, j - 1);
        let a = explored_all(n, acc, targets, k, j - 1).unwrap();
        assert(unmet(u, a).subset_of(unmet(u, acc)));
        vstd::set_lib::lemma_len_subset(unmet(u, a), unmet(u, acc));
        lemma_explored_ends(n, u, a, targets[j - 1], k);
    }
}

/// Pulses from any name can be followed to their end.
pub proof fn lemma_explorable(n: Net, name: Seq<char>)
    ensures
        explorable(n, Seq::empty(), name),
{
    lemma_known(n);
    let u = known(n).insert(name);
    let k = u.len();
    assert(unmet(u, Seq::<Seq<char>>::empty()) =~= u);
    lemma_explored_ends(n, u, Seq::empty(), name, k);
    reveal(explorable);
}

fn has_name(v: &Vec<String>, name: &String) -> (r: bool)
    ensures
        r == names(v@).contains(name@),
{
    let mut i: usize = 0;
    while i < v.len()
        invariant
            i <= v.len(),
            forall|j: int| 0 <= j < i ==> names(v@)[j] != name@,
        decreases v.len() - i,
    {
        if v[i] == *name {
            assert(names(v@)[i as int] == name@);
            return true;
        }
        i += 1;
    }
    false
}

fn explore(network: &Network, acc: &mut Vec<String>, current: String)
    requires
        explorable(net(network@), names(old(acc)@), current@),
    ensures
        names(final(acc)@) == met(net(network@), names(old(acc)@), current@),
    decreases reach(net(network@), names(old(acc)@), current@),
{
    let ghost n = net(network@);
    let ghost a0 = names(acc@);
    let ghost l = reach(n, a0, current@);
    proof {
        reveal(explorable);
        let w = choose|fuel: nat| #[trigger] explored(n, a0, current@, fuel) is Some;
        lemma_reach(n, a0, current@, w);
    }
    if has_name(acc, &current) {
        return ;
    }
    let found = find_machine(network, &current);
    acc.push(current.clone());
    let ghost a1 = a0.push(current@);
    proof {
        assert(names(acc@) =~= a1);
    }
    match found {
        None => {
            proof {
                assert(targets_of(n, current@).len() == 0);
            }
        },
        Some(i) => {
            let targets = copy_names(&network[i].1.targets);
            let ghost ts = targets_of(n, current@);
            proof {
                assert(names(targets@) == ts);
            }
            let mut k: usize = 0;
            while k < targets.len()
                invariant
                    k <= targets.len(),
                    l >= 1,
                    l == reach(n, a0, current@),
                    n == net(network@),
                    a0 == names(old(acc)@),
                    names(targets@) == ts,
                    ts.len() == targets@.len(),
                    explored_all(n, a1, ts, (l - 1) as nat, ts.len() as int) is Some,
                    explored_all(n, a1, ts, (l - 1) as nat, k as int) == Some(names(acc@)),
                decreases targets.len() - k,
            {
                proof {
                    lemma_explored_so_far(n, a1, ts, (l - 1) as nat, k + 1, ts.len() as int);
                    assert(ts[k as int] == targets@[k as int]@);
                    lemma_reach(n, names(acc@), ts[k as int], (l - 1) as nat);
                    lemma_explored_more(
                        n,
                        names(acc@),
                        ts[k as int],
                        reach(n, names(acc@), ts[k as int]),
                        (l - 1) as nat,
                    );
                }
                let t = targets[k].clone();
                explore(network, acc, t);
                k += 1;
            }
        },
    }
}

/// The names among the first `k` that are not `name`.
pub open spec fn others(v: Seq<Seq<char>>, name: Seq<char>, k: int) -> Seq<Seq<char>>
    decreases k,
{
    if k <= 0 {
        Seq::empty()
    } else if v[k - 1] == name {
        others(v, name, k - 1)
    } else {
        others(v, name, k - 1).push(v[k - 1])
    }
}

/// The names that pulses from the machine `name` can come to, without
/// `name` itself.
pub open spec fn influence(n: Net, name: Seq<char>) -> Seq<Seq<char>> {
    others(met(n, Seq::empty(), name), name, met(n, Seq::empty(), name).len() as int)
}

/// The names of the machines and outputs that pulses from the machine
/// `name` can come to, each once, without `name` itself.
pub fn collect_influence(name: String, network: &Network) -> (r: Vec<String>)
    ensures
        names(r@) == influence(net(network@), name@),
{
    let mut acc: Vec<String> = Vec::new();
    proof {
        assert(names(acc@) =~= Seq::<Seq<char>>::empty());
        lemma_explorable(net(network@), name@);
    }
    explore(network, &mut acc, name.clone());
    let mut out: Vec<String> = Vec::new();
    let mut k: usize = 0;
    proof {
        assert(names(out@) =~= others(names(acc@), name@, 0));
    }
    while k < acc.len()
        invariant
            k <= acc.len(),
            names(out@) == others(names(acc@), name@, k as int),
        decreases acc.len() - k,
    {
        let ghost before = names(out@);
        proof {
            assert(names(acc@)[k as int] == acc@[k as int]@);
        }
        if acc[k] == name {
        } else {
            out.push(acc[k].clone());
            proof {
                assert(names(out@) =~= before.push(acc@[k as int]@));
            }
        }
        k += 1;
    }
    out
}

/// A table of names as plain values.
pub open spec fn table(t: Seq<(String, Vec<String>)>) -> Seq<(Seq<char>, Seq<Seq<char>>)> {
    Seq::new(t.len(), |i: int| (t[i].0@, names(t[i].1@)))
}

/// For every machine the names that its pulses can come to.
pub fn calc_total_impact(network: Network) -> (r: Vec<(String, Vec<String>)>)
    ensures
        table(r@) == Seq::new(
            network@.len(),
            |i: int| (net(network@)[i].0, influence(net(network@), net(network@)[i].0)),
        ),
{
    let mut impact: Vec<(String, Vec<String>)> = Vec::new();
    let mut i: usize = 0;
    while i < network.len()
        invariant
            i <= network.len(),
            impact@.len() == i,
            forall|j: int|
                0 <= j < i ==> #[trigger] table(impact@)[j] == (
                    net(network@)[j].0,
                    influence(net(network@), net(network@)[j].0),
                ),
        decreases network.len() - i,
    {
        let ghost before = table(impact@);
        let name = network[i].0.clone();
        let reached = collect_influence(name.clone(), &network);
        impact.push((name, reached));
        proof {
            assert forall|j: int| 0 <= j < i + 1 implies #[trigger] table(impact@)[j] == (
                net(network@)[j].0,
                influence(net(network@), net(network@)[j].0),
            ) by {
                if j < i {
                    assert(table(impact@)[j] == before[j]);
                }
            }
        }
        i += 1;
    }
    proof {
        assert(table(impact@) =~= Seq::new(
            network@.len(),
            |i: int| (net(network@)[i].0, influence(net(network@), net(network@)[i].0)),
        ));
    }
    impact
}

/// The `i`-th machine is the first whose pulses come to one name only.
pub open spec fn merges_at(t: Seq<(Seq<char>, Seq<Seq<char>>)>, i: int) -> bool {
    &&& 0 <= i < t.len()
    &&& t[i].1.len() == 1
    &&& forall|j: int| 0 <= j < i ==> (#[trigger] t[j]).1.len() != 1
}

/// The name of the first machine whose pulses come to one name only.
pub fn find_merger(impacts: &Vec<(String, Vec<String>)>) -> (r: String)
    requires
        exists|i: int| merges_at(table(impacts@), i),
    ensures
        exists|i: int| merges_at(table(impacts@), i) && r@ == table(impacts@)[i].0,
{
    let ghost w = choose|i: int| merges_at(table(impacts@), i);
    let n = impacts.len();
    let mut i: usize = 0;
    loop
        invariant
            merges_at(table(impacts@), w),
            i <= w < n,
            forall|j: int| 0 <= j < i ==> (#[trigger] table(impacts@)[j]).1.len() != 1,
        decreases w - i,
    {
        proof {
            assert(table(impacts@)[i as int].1.len() == impacts@[i as int].1@.len());
        }
        if impacts[i].1.len() == 1 {
            proof {
                assert(merges_at(table(impacts@), i as int));
            }
            return impacts[i].0.clone();
        }
        i += 1;
    }
}

/// The names among the first `k` entries of the table whose lists hold
/// `name`.
pub open spec fn holders(t: Seq<(Seq<char>, Seq<Seq<char>>)>, name: Seq<char>, k: int) -> Seq<
    Seq<char>,
>
    decreases k,
{
    if k <= 0 {
        Seq::empty()
    } else if t[k - 1].1.contains(name) {
        holders(t, name, k - 1).push(t[k - 1].0)
    } else {
        holders(t, name, k - 1)
    }
}

/// For each of the names the machines whose pulses come to it.
pub fn find_subgraphs(last_ones: Vec<String>, impacts: Vec<(String, Vec<String>)>) -> (r: Vec<
    (String, Vec<String>),
>)
    ensures
        table(r@) == Seq::new(
            last_ones@.len(),
            |i: int| (last_ones@[i]@, holders(table(impacts@), last_ones@[i]@, impacts@.len() as int)),
        ),
{
    let mut subgraphs: Vec<(String, Vec<String>)> = Vec::new();
    let mut i: usize = 0;
    while i < last_ones.len()
        invariant
            i <= last_ones.len(),
            subgraphs@.len() == i,
            forall|j: int|
                0 <= j < i ==> #[trigger] table(subgraphs@)[j] == (
                    last_ones@[j]@,
                    holders(table(impacts@), last_ones@[j]@, impacts@.len() as int),
                ),
        decreases last_ones.len() - i,
    {
        let mut content: Vec<String> = Vec::new();
        let mut k: usize = 0;
        proof {
            assert(names(content@) =~= holders(table(impacts@), last_ones@[i as int]@, 0));
        }
        while k < impacts.len()
            invariant
                i < last_ones.len(),
                k <= impacts.len(),
                names(content@) == holders(table(impacts@), last_ones@[i as int]@, k as int),
            decreases impacts.len() - k,
        {
            let ghost before = names(content@);
            proof {
                assert(table(impacts@)[k as int] == (
                    impacts@[k as int].0@,
                    names(impacts@[k as int].1@),
                ));
            }
            if has_name(&impacts[k].1, &last_ones[i]) {
                content.push(impacts[k].0.clone());
                proof {
                    assert(names(content@) =~= before.push(impacts@[k as int].0@));
                }
            }
            k += 1;
        }
        let ghost before = table(subgraphs@);
        subgraphs.push((last_ones[i].clone(), content));
        proof {
            assert forall|j: int| 0 <= j < i + 1 implies #[trigger] table(subgraphs@)[j] == (
                last_ones@[j]@,
                holders(table(impacts@), last_ones@[j]@, impacts@.len() as int),
            ) by {
                if j < i {
                    assert(table(subgraphs@)[j] == before[j]);
                }
            }
        }
        i += 1;
    }
    proof {
        assert(table(subgraphs@) =~= Seq::new(
            last_ones@.len(),
            |i: int| (last_ones@[i]@, holders(table(impacts@), last_ones@[i]@, impacts@.len() as int)),
        ));
    }
    subgraphs
}

} // verus!
