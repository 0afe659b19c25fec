//! What happens, when, decided by a seed.
//!
//! A chaos run driven by wall-clock randomness produces a failure nobody can
//! reproduce, which is a rumour rather than a bug report. The schedule is drawn
//! up front from a seed and printed before anything is injected.
//!
//! Each kind of decision takes its own split of the seed: adding a new fault
//! later must not shift the schedules every existing seed produces.
//!
//! **Every fault is paired with its repair, drawn at the same time.** A
//! partition with no heal is a run that spends its remaining minutes on a
//! cluster that cannot make progress, and reports "no violations" because
//! nothing happened at all. The heal is part of the fault.

use vstd::prelude::*;
use vstd::string::*;

use crate::chaos::proxy::Cut;
use crate::order::{law_sorting_keeps_the_numbers, sort, sorted};
use crate::rng::{law_a_number_comes_nearer, Rng, RngView};
use crate::text::{decimal, fixed, padded, push_decimal, push_fixed, push_padded, round, rounded};
use crate::time::Duration;

verus! {

/// One thing the driver does at one moment.
#[derive(Debug, Clone, PartialEq, Eq)]
pub enum Action {
    /// Cut every link into and out of one node.
    Isolate { node: usize, cut: Cut },
    /// Cut the cluster in two, leaving a majority and a minority.
    Split { minority: Vec<usize> },
    /// Undo every cut.
    Heal,
    /// `SIGSTOP`.
    Pause { node: usize },
    /// `SIGCONT`.
    Resume { node: usize },
    /// `SIGKILL`.
    Kill { node: usize },
    /// Start a node that is not running.
    Restart { node: usize },
    /// Move every faked clock forward or back.
    ClockJump { forward: bool, by: Duration },
}

/// What an action is.
pub enum ActionView {
    Isolate { node: usize, cut: Cut },
    Split { minority: Seq<usize> },
    Heal,
    Pause { node: usize },
    Resume { node: usize },
    Kill { node: usize },
    Restart { node: usize },
    ClockJump { forward: bool, by: nat },
}

impl View for Action {
    type V = ActionView;

    open spec fn view(&self) -> ActionView {
        match self {
            Action::Isolate { node, cut } => ActionView::Isolate { node: *node, cut: *cut },
            Action::Split { minority } => ActionView::Split { minority: minority@ },
            Action::Heal => ActionView::Heal,
            Action::Pause { node } => ActionView::Pause { node: *node },
            Action::Resume { node } => ActionView::Resume { node: *node },
            Action::Kill { node } => ActionView::Kill { node: *node },
            Action::Restart { node } => ActionView::Restart { node: *node },
            Action::ClockJump { forward, by } => ActionView::ClockJump {
                forward: *forward,
                by: by@,
            },
        }
    }
}

/// How a cut is printed.
pub open spec fn cut_name(cut: Cut) -> Seq<char> {
    match cut {
        Cut::Clear => "None"@,
        Cut::Forward => "Forward"@,
        Cut::Backward => "Backward"@,
        Cut::Both => "Both"@,
    }
}

/// Some nodes with commas between them.
pub open spec fn node_list(nodes: Seq<usize>) -> Seq<char>
    decreases nodes.len(),
{
    if nodes.len() == 0 {
        Seq::empty()
    } else if nodes.len() == 1 {
        decimal(nodes[0] as nat)
    } else {
        node_list(nodes.drop_last()) + ", "@ + decimal(nodes.last() as nat)
    }
}

fn push_nodes(out: &mut String, nodes: &[usize])
    ensures
        final(out)@ == old(out)@ + node_list(nodes@),
{
    let ghost before = out@;
    let mut i: usize = 0;
    proof {
        assert(nodes@.take(0) =~= Seq::empty());
        assert(out@ =~= before + node_list(nodes@.take(0)));
    }
    while i < nodes.len()
        invariant
            i <= nodes@.len(),
            out@ == before + node_list(nodes@.take(i as int)),
        decreases nodes@.len() - i,
    {
        proof {
            assert(nodes@.take(i + 1).drop_last() =~= nodes@.take(i as int));
        }
        if i > 0 {
            out.append(", ");
        }
        push_decimal(out, nodes[i] as u64);
        i += 1;
        proof {
            assert(out@ =~= before + node_list(nodes@.take(i as int)));
        }
    }
    proof {
        assert(nodes@.take(i as int) =~= nodes@);
    }
}

/// How an action is printed.
pub open spec fn action_text(action: ActionView) -> Seq<char> {
    match action {
        ActionView::Isolate { node, cut } => "isolate n"@ + decimal(node as nat) + " ("@ + cut_name(
            cut,
        ) + ")"@,
        ActionView::Split { minority } => "split, minority ["@ + node_list(minority) + "]"@,
        ActionView::Heal => "heal"@,
        ActionView::Pause { node } => "pause n"@ + decimal(node as nat),
        ActionView::Resume { node } => "resume n"@ + decimal(node as nat),
        ActionView::Kill { node } => "kill n"@ + decimal(node as nat),
        ActionView::Restart { node } => "restart n"@ + decimal(node as nat),
        ActionView::ClockJump { forward, by } => "clock "@ + (if forward {
            "forward"@
        } else {
            "back"@
        }) + " "@ + decimal(by / 1_000_000_000) + "s"@,
    }
}

impl Action {
    /// The action, for a person.
    pub fn message(&self) -> (r: String)
        ensures
            r@ == action_text(self@),
    {
        let mut out = String::new();
        match self {
            Action::Isolate { node, cut } => {
                out.append("isolate n");
                push_decimal(&mut out, *node as u64);
                out.append(" (");
                out.append(
                    match cut {
                        Cut::Clear => "None",
                        Cut::Forward => "Forward",
                        Cut::Backward => "Backward",
                        Cut::Both => "Both",
                    },
                );
                out.append(")");
            },
            Action::Split { minority } => {
                out.append("split, minority [");
                push_nodes(&mut out, minority.as_slice());
                out.append("]");
            },
            Action::Heal => {
                out.append("heal");
            },
            Action::Pause { node } => {
                out.append("pause n");
                push_decimal(&mut out, *node as u64);
            },
            Action::Resume { node } => {
                out.append("resume n");
                push_decimal(&mut out, *node as u64);
            },
            Action::Kill { node } => {
                out.append("kill n");
                push_decimal(&mut out, *node as u64);
            },
            Action::Restart { node } => {
                out.append("restart n");
                push_decimal(&mut out, *node as u64);
            },
            Action::ClockJump { forward, by } => {
                out.append("clock ");
                out.append(
                    if *forward {
                        "forward"
                    } else {
                        "back"
                    },
                );
                out.append(" ");
                push_decimal(&mut out, by.as_nanos() / 1_000_000_000);
                out.append("s");
            },
        }
        proof {
            assert(out@ =~= action_text(self@));
        }
        out
    }
}

/// An action and the moment it happens, measured from the start of the run.
#[derive(Debug, Clone, PartialEq, Eq)]
pub struct At {
    pub at: Duration,
    pub action: Action,
}

/// What happens at some moment.
pub struct AtView {
    /// In nanoseconds.
    pub at: nat,
    pub action: ActionView,
}

impl View for At {
    type V = AtView;

    open spec fn view(&self) -> AtView {
        AtView { at: self.at@, action: self.action@ }
    }
}

/// What some events are.
pub open spec fn event_views(events: Seq<At>) -> Seq<AtView> {
    events.map_values(|e: At| e@)
}

/// A whole run's worth of faults.
#[derive(Debug, Clone, PartialEq, Eq)]
pub struct Schedule {
    pub seed: u64,
    pub nodes: usize,
    pub duration: Duration,
    pub events: Vec<At>,
}

// ------------------------------------------------------------------- drawing

/// The streams a schedule is drawn from, one for each kind of decision.
pub struct Streams {
    pub when: RngView,
    pub which: RngView,
    pub kind: RngView,
    pub shape: RngView,
}

/// The streams of a seed.
pub open spec fn streams_of(seed: u64) -> Streams {
    let root = RngView::fresh(seed);
    Streams {
        when: root.labelled("chaos.when"@),
        which: root.labelled("chaos.which"@),
        kind: root.labelled("chaos.kind"@),
        shape: root.labelled("chaos.shape"@),
    }
}

/// So many milliseconds in nanoseconds.
pub open spec fn millis(n: u64) -> nat {
    n as nat * 1_000_000
}

/// A node that is not among those chosen.
pub open spec fn spare(nodes: nat, chosen: Seq<u64>) -> u64 {
    choose|n: u64| n < nodes && !chosen.contains(n)
}

/// A node drawn again and again until one comes that is not among those chosen,
/// and the stream after it.
pub open spec fn redrawn(which: RngView, nodes: nat, chosen: Seq<u64>) -> (u64, RngView)
    decreases which.ahead(spare(nodes, chosen)),
    when chosen.len() < nodes <= u64::MAX
    via redrawing_ends
{
    let n = which.within(0, nodes as u64);
    if chosen.contains(n) {
        redrawn(which.moved(), nodes, chosen)
    } else {
        (n, which.moved())
    }
}

#[via_fn]
proof fn redrawing_ends(which: RngView, nodes: nat, chosen: Seq<u64>) {
    lemma_one_to_spare(nodes, chosen);
    lemma_spare_comes_nearer(which, nodes, chosen);
}

/// Where not all nodes are chosen, one is left.
proof fn lemma_one_to_spare(nodes: nat, chosen: Seq<u64>)
    requires
        chosen.len() < nodes <= u64::MAX,
    ensures
        spare(nodes, chosen) < nodes,
        !chosen.contains(spare(nodes, chosen)),
{
    if forall|n: u64| n < nodes ==> chosen.contains(n) {
        let numbers = chosen.map_values(|n: u64| n as int);
        let every = vstd::set_lib::set_int_range(0, nodes as int);
        vstd::set_lib::lemma_int_range(0, nodes as int);
        numbers.lemma_cardinality_of_set();
        assert forall|i: int| every.contains(i) implies #[trigger] numbers.to_set().contains(i) by {
            assert(chosen.contains(i as u64));
            let k = choose|k: int| 0 <= k < chosen.len() && chosen[k] == i as u64;
            assert(numbers[k] == i);
        }
        vstd::set_lib::lemma_len_subset(every, numbers.to_set());
        assert(false);
    }
}

/// A draw that gives a node that was chosen already brings one that was not nearer.
proof fn lemma_spare_comes_nearer(which: RngView, nodes: nat, chosen: Seq<u64>)
    requires
        chosen.len() < nodes <= u64::MAX,
    ensures
        chosen.contains(which.within(0, nodes as u64)) ==> which.moved().ahead(
            spare(nodes, chosen),
        ) < which.ahead(spare(nodes, chosen)),
{
    let one = spare(nodes, chosen);
    lemma_one_to_spare(nodes, chosen);
    law_a_number_comes_nearer(which, one);
    if which.ahead(one) == 0 {
        vstd::arithmetic::div_mod::lemma_small_mod(one as nat, nodes);
    }
}

/// So many different nodes, and the stream after them.
pub open spec fn taken(which: RngView, nodes: nat, count: nat) -> (Seq<u64>, RngView)
    decreases count,
{
    if count == 0 {
        (Seq::empty(), which)
    } else {
        let (chosen, stream) = taken(which, nodes, (count - 1) as nat);
        let (one, after) = redrawn(stream, nodes, chosen);
        (chosen.push(one), after)
    }
}

/// Numbers as nodes.
pub open spec fn as_nodes(numbers: Seq<u64>) -> Seq<usize> {
    numbers.map_values(|n: u64| n as usize)
}

/// How large a minority is: always short of half of the cluster, so that the other
/// side is a majority. Of two nodes one is split off, since there is no smaller
/// side.
pub open spec fn minority_size(shape: RngView, nodes: usize) -> nat {
    shape.within(1, (largest_minority(nodes) + 1) as u64) as nat
}

/// The most nodes that a split takes away.
pub open spec fn largest_minority(nodes: usize) -> int {
    if nodes <= 2 {
        1
    } else {
        (nodes - 1) / 2
    }
}

/// A fault, its repair, and the streams after them. A clock jump has no repair:
/// a clock that jumped forward does not un-jump in the real world either.
pub struct Drawn {
    pub fault: ActionView,
    pub repair: Option<ActionView>,
    pub streams: Streams,
}

/// Which cut a number asks for. Asymmetric two thirds of the time: the symmetric
/// case is the one everybody already tests.
pub open spec fn cut_for(n: u64) -> Cut {
    if n == 0 {
        Cut::Both
    } else if n == 1 {
        Cut::Forward
    } else {
        Cut::Backward
    }
}

/// The fault a roll asks for. Weights, not a uniform pick: partitions and pauses
/// are the faults that produce interesting interleavings, and a run that is
/// mostly kills spends its time on process startup.
pub open spec fn fault_for(roll: u64, s: Streams, nodes: usize, clocks: bool) -> Drawn {
    let node = s.which.within(0, nodes as u64) as usize;
    let after_which = Streams { which: s.which.moved(), ..s };
    if roll < 30 {
        Drawn {
            fault: ActionView::Isolate { node, cut: cut_for(s.shape.within(0, 3)) },
            repair: Some(ActionView::Heal),
            streams: Streams { shape: s.shape.moved(), ..after_which },
        }
    } else if roll < 55 {
        let (chosen, which) = taken(s.which, nodes as nat, minority_size(s.shape, nodes));
        Drawn {
            fault: ActionView::Split { minority: as_nodes(sorted(chosen)) },
            repair: Some(ActionView::Heal),
            streams: Streams { shape: s.shape.moved(), which, ..s },
        }
    } else if roll < 80 {
        Drawn {
            fault: ActionView::Pause { node },
            repair: Some(ActionView::Resume { node }),
            streams: after_which,
        }
    } else if roll < 95 || !clocks {
        Drawn {
            fault: ActionView::Kill { node },
            repair: Some(ActionView::Restart { node }),
            streams: after_which,
        }
    } else {
        Drawn {
            fault: ActionView::ClockJump {
                forward: s.shape.lands(70),
                by: s.when.within(5, 60) as nat * 1_000_000_000,
            },
            repair: None,
            streams: Streams { shape: s.shape.moved(), when: s.when.moved(), ..s },
        }
    }
}

/// The fault that begins at a moment, and how long it is held.
#[verifier::opaque]
pub open spec fn round_of(s: Streams, nodes: usize, clocks: bool) -> (Drawn, nat) {
    let rolled = Streams { kind: s.kind.moved(), when: s.when.moved(), ..s };
    (
        fault_for(s.kind.within(0, 100), rolled, nodes, clocks),
        millis(s.when.within(800, 4_000)),
    )
}

/// A fault and its repair, as events.
pub open spec fn pair_at(t: nat, until: nat, drawn: Drawn) -> Seq<AtView> {
    match drawn.repair {
        Some(repair) => seq![
            AtView { at: t, action: drawn.fault },
            AtView { at: until, action: repair },
        ],
        None => seq![AtView { at: t, action: drawn.fault }],
    }
}

/// The events from a moment on. A fault whose repair would fall past the end of
/// the run is not emitted at all, nor is anything after it.
pub open spec fn events_from(
    t: nat,
    s: Streams,
    nodes: usize,
    duration: nat,
    clocks: bool,
) -> Seq<AtView>
    decreases
            (if t < duration {
                duration - t
            } else {
                0
            }),
{
    if t >= duration {
        Seq::empty()
    } else {
        let (drawn, hold) = round_of(s, nodes, clocks);
        let until = t + hold;
        let calm = millis(drawn.streams.when.within(1_500, 4_000));
        if until >= duration {
            Seq::empty()
        } else {
            pair_at(t, until, drawn) + events_from(
                until + calm,
                Streams { when: drawn.streams.when.moved(), ..drawn.streams },
                nodes,
                duration,
                clocks,
            )
        }
    }
}

/// The schedule a seed gives.
pub open spec fn schedule_of(seed: u64, nodes: usize, duration: nat, clocks: bool) -> Seq<AtView> {
    let s = streams_of(seed);
    events_from(
        millis(s.when.within(200, 1_200)),
        Streams { when: s.when.moved(), ..s },
        nodes,
        duration,
        clocks,
    )
}

/// The generators a schedule is drawn from.
struct Generators {
    when: Rng,
    which: Rng,
    kind: Rng,
    shape: Rng,
}

impl Generators {
    spec fn streams(self) -> Streams {
        Streams { when: self.when@, which: self.which@, kind: self.kind@, shape: self.shape@ }
    }
}

/// A node that was drawn again is one that was not chosen.
proof fn lemma_redrawn(which: RngView, nodes: nat, chosen: Seq<u64>)
    requires
        chosen.len() < nodes <= u64::MAX,
    ensures
        redrawn(which, nodes, chosen).0 < nodes,
        !chosen.contains(redrawn(which, nodes, chosen).0),
    decreases which.ahead(spare(nodes, chosen)),
{
    lemma_spare_comes_nearer(which, nodes, chosen);
    if chosen.contains(which.within(0, nodes as u64)) {
        lemma_redrawn(which.moved(), nodes, chosen);
    }
}

/// What is taken is nodes of the cluster, none of them twice.
proof fn lemma_taken(which: RngView, nodes: nat, count: nat)
    requires
        count <= nodes <= u64::MAX,
    ensures
        ({
            let chosen = taken(which, nodes, count).0;
            &&& chosen.len() == count
            &&& chosen.no_duplicates()
            &&& forall|i: int| 0 <= i < count ==> #[trigger] chosen[i] < nodes
        }),
    decreases count,
{
    if count > 0 {
        lemma_taken(which, nodes, (count - 1) as nat);
        let (chosen, stream) = taken(which, nodes, (count - 1) as nat);
        lemma_redrawn(stream, nodes, chosen);
        let one = redrawn(stream, nodes, chosen).0;
        let more = chosen.push(one);
        assert forall|i: int, j: int|
            0 <= i < more.len() && 0 <= j < more.len() && i != j implies more[i] != more[j] by {
            if i < chosen.len() && j == chosen.len() {
                assert(chosen.contains(chosen[i]));
            }
            if j < chosen.len() && i == chosen.len() {
                assert(chosen.contains(chosen[j]));
            }
        }
    }
}

/// Whether a node is among those chosen.
fn is_chosen(chosen: &[u64], node: u64) -> (r: bool)
    ensures
        r == chosen@.contains(node),
{
    let mut i: usize = 0;
    while i < chosen.len()
        invariant
            i <= chosen@.len(),
            forall|j: int| 0 <= j < i ==> chosen@[j] != node,
        decreases chosen@.len() - i,
    {
        if chosen[i] == node {
            return true;
        }
        i += 1;
    }
    false
}

/// Draw a node until one comes that is not among those chosen.
fn draw_another(which: &mut Rng, nodes: usize, chosen: &[u64]) -> (r: u64)
    requires
        chosen@.len() < nodes,
    ensures
        r == redrawn(old(which)@, nodes as nat, chosen@).0,
        final(which)@ == redrawn(old(which)@, nodes as nat, chosen@).1,
{
    let ghost begin = which@;
    let ghost mut stream = which@;
    let mut n: u64 = which.range(0, nodes as u64);
    while is_chosen(chosen, n)
        invariant
            chosen@.len() < nodes,
            n == stream.within(0, nodes as u64),
            which@ == stream.moved(),
            redrawn(begin, nodes as nat, chosen@) == redrawn(stream, nodes as nat, chosen@),
        decreases stream.ahead(spare(nodes as nat, chosen@)),
    {
        proof {
            lemma_spare_comes_nearer(stream, nodes as nat, chosen@);
            stream = which@;
        }
        n = which.range(0, nodes as u64);
    }
    n
}

/// Draw so many different nodes of the cluster, and put them in order.
fn draw_minority(which: &mut Rng, nodes: usize, size: usize) -> (r: Vec<usize>)
    requires
        size <= nodes,
    ensures
        r@ == as_nodes(sorted(taken(old(which)@, nodes as nat, size as nat).0)),
        final(which)@ == taken(old(which)@, nodes as nat, size as nat).1,
{
    let ghost begin = which@;
    let mut chosen: Vec<u64> = Vec::new();
    while chosen.len() < size
        invariant
            size <= nodes,
            chosen@.len() <= size,
            (chosen@, which@) == taken(begin, nodes as nat, chosen@.len()),
        decreases size - chosen@.len(),
    {
        let one: u64 = draw_another(which, nodes, chosen.as_slice());
        let ghost before = chosen@;
        chosen.push(one);
        proof {
            assert((chosen@.len() - 1) as nat == before.len());
        }
    }
    let ordered: Vec<u64> = sort(chosen.as_slice());
    let mut r: Vec<usize> = Vec::new();
    let mut i: usize = 0;
    while i < ordered.len()
        invariant
            i <= ordered@.len(),
            r@ == as_nodes(ordered@).take(i as int),
        decreases ordered@.len() - i,
    {
        r.push(ordered[i] as usize);
        i += 1;
        proof {
            assert(r@ =~= as_nodes(ordered@).take(i as int));
        }
    }
    proof {
        assert(r@ =~= as_nodes(ordered@));
    }
    r
}

/// What [`fault_for`] says.
fn draw_fault(roll: u64, g: &mut Generators, nodes: usize, clocks: bool) -> (r: (
    Action,
    Option<Action>,
))
    requires
        nodes >= 2,
    ensures
        ({
            let drawn = fault_for(roll, old(g).streams(), nodes, clocks);
            &&& r.0@ == drawn.fault
            &&& (r.1 is Some <==> drawn.repair is Some)
            &&& r.1 is Some ==> r.1->Some_0@ == drawn.repair->Some_0
            &&& final(g).streams() == drawn.streams
        }),
{
    if roll < 30 {
        let node: usize = g.which.range(0, nodes as u64) as usize;
        let n: u64 = g.shape.range(0, 3);
        let cut: Cut = if n == 0 {
            Cut::Both
        } else if n == 1 {
            Cut::Forward
        } else {
            Cut::Backward
        };
        (Action::Isolate { node, cut }, Some(Action::Heal))
    } else if roll < 55 {
        let most: u64 = if nodes <= 2 {
            1
        } else {
            (nodes as u64 - 1) / 2
        };
        let size: usize = g.shape.range(1, most + 1) as usize;
        let minority: Vec<usize> = draw_minority(&mut g.which, nodes, size);
        (Action::Split { minority }, Some(Action::Heal))
    } else if roll < 80 {
        let node: usize = g.which.range(0, nodes as u64) as usize;
        (Action::Pause { node }, Some(Action::Resume { node }))
    } else if roll < 95 || !clocks {
        let node: usize = g.which.range(0, nodes as u64) as usize;
        (Action::Kill { node }, Some(Action::Restart { node }))
    } else {
        let forward: bool = g.shape.chance(70);
        let by = Duration::from_secs(g.when.range(5, 60));
        (Action::ClockJump { forward, by }, None)
    }
}

impl Schedule {
    /// Draw a schedule.
    ///
    /// `clocks` says whether the host can inject a clock jump at all. A
    /// schedule that contains an action the driver will skip is a schedule that
    /// does not describe the run, so the choice is made here, once, and shows
    /// up in the printed plan.
    pub fn draw(seed: u64, nodes: usize, duration: Duration, clocks: bool) -> (r: Self)
        requires
            nodes >= 2,
        ensures
            r.seed == seed,
            r.nodes == nodes,
            r.duration == duration,
            event_views(r.events@) == schedule_of(seed, nodes, duration@, clocks),
    {
        let mut root = Rng::new(seed);
        let when = root.split("chaos.when");
        let which = root.split("chaos.which");
        let kind = root.split("chaos.kind");
        let shape = root.split("chaos.shape");
        let mut g = Generators { when, which, kind, shape };
        let ghost all = schedule_of(seed, nodes, duration@, clocks);
        let mut events: Vec<At> = Vec::new();
        let end: u64 = duration.as_nanos();
        let mut t: u64 = g.when.range(200, 1_200) * 1_000_000;
        proof {
            assert(event_views(events@) + events_from(
                t as nat,
                g.streams(),
                nodes,
                duration@,
                clocks,
            ) =~= all);
        }
        while t < end
            invariant_except_break
                event_views(events@) + events_from(
                    t as nat,
                    g.streams(),
                    nodes,
                    duration@,
                    clocks,
                ) == all,
            invariant
                end == duration@,
                nodes >= 2,
            ensures
                event_views(events@) == all,
            decreases end - t,
        {
            let ghost s = g.streams();
            let ghost before = event_views(events@);
            let roll: u64 = g.kind.range(0, 100);
            let hold: u64 = g.when.range(800, 4_000) * 1_000_000;
            let (fault, repair) = draw_fault(roll, &mut g, nodes, clocks);
            let ghost drawn = round_of(s, nodes, clocks).0;
            proof {
                reveal(round_of);
            }
            if t >= end - hold.min(end) {
                proof {
                    assert(events_from(t as nat, s, nodes, duration@, clocks) =~= Seq::empty());
                    assert(before + Seq::<AtView>::empty() =~= before);
                }
                break;
            }
            let until: u64 = t + hold;
            let starts = At { at: Duration::from_nanos(t), action: fault };
            events.push(starts);
            match repair {
                Some(repair) => {
                    let ends = At { at: Duration::from_nanos(until), action: repair };
                    events.push(ends);
                },
                None => {},
            }
            proof {
                assert(event_views(events@) =~= before + pair_at(t as nat, until as nat, drawn));
            }
            let calm: u64 = g.when.range(1_500, 4_000) * 1_000_000;
            proof {
                assert(event_views(events@) + events_from(
                    (until + calm) as nat,
                    g.streams(),
                    nodes,
                    duration@,
                    clocks,
                ) =~= all);
            }
            if calm >= end - until {
                proof {
                    assert(events_from(
                        (until + calm) as nat,
                        g.streams(),
                        nodes,
                        duration@,
                        clocks,
                    ) =~= Seq::empty());
                    assert(event_views(events@) + Seq::<AtView>::empty() =~= event_views(events@));
                }
                break;
            }
            t = until + calm;
        }
        Schedule { seed, nodes, duration, events }
    }
}

// -------------------------------------------------------------------- health

/// What is broken at some moment of a run.
pub struct Health {
    /// Whether any link is cut.
    pub cut: bool,
    pub paused: Set<usize>,
    pub down: Set<usize>,
}

impl Health {
    /// Nothing is broken.
    pub open spec fn whole() -> Health {
        Health { cut: false, paused: Set::empty(), down: Set::empty() }
    }

    pub open spec fn is_whole(self) -> bool {
        !self.cut && self.paused =~= Set::empty() && self.down =~= Set::empty()
    }

    /// What is broken after an action.
    pub open spec fn after(self, action: ActionView) -> Health {
        match action {
            ActionView::Isolate { .. } => Health { cut: true, ..self },
            ActionView::Split { .. } => Health { cut: true, ..self },
            ActionView::Heal => Health { cut: false, ..self },
            ActionView::Pause { node } => Health { paused: self.paused.insert(node), ..self },
            ActionView::Resume { node } => Health { paused: self.paused.remove(node), ..self },
            ActionView::Kill { node } => Health { down: self.down.insert(node), ..self },
            ActionView::Restart { node } => Health { down: self.down.remove(node), ..self },
            ActionView::ClockJump { .. } => self,
        }
    }

    /// What is broken after some events.
    pub open spec fn after_all(self, events: Seq<AtView>) -> Health
        decreases events.len(),
    {
        if events.len() == 0 {
            self
        } else {
            self.after(events[0].action).after_all(events.skip(1))
        }
    }
}

/// A list without one node.
fn forget(nodes: &mut Vec<usize>, node: usize)
    ensures
        final(nodes)@.to_set() == old(nodes)@.to_set().remove(node),
{
    let mut kept: Vec<usize> = Vec::new();
    let mut i: usize = 0;
    let ghost all = nodes@;
    proof {
        assert(kept@.to_set() =~= all.take(0).to_set().remove(node));
    }
    while i < nodes.len()
        invariant
            i <= nodes@.len(),
            nodes@ == all,
            kept@.to_set() == all.take(i as int).to_set().remove(node),
        decreases nodes@.len() - i,
    {
        let one: usize = nodes[i];
        let ghost before = kept@;
        let ghost seen = all.take(i as int);
        if one != node {
            kept.push(one);
        }
        proof {
            assert(all.take(i + 1) =~= seen.push(one));
            lemma_set_of_push(seen, one);
            lemma_set_of_push(before, one);
            assert(kept@.to_set() =~= all.take(i + 1).to_set().remove(node));
        }
        i += 1;
    }
    proof {
        assert(all.take(i as int) =~= all);
    }
    *nodes = kept;
}

/// What a longer list holds.
proof fn lemma_set_of_push(s: Seq<usize>, one: usize)
    ensures
        s.push(one).to_set() == s.to_set().insert(one),
{
    assert forall|x: usize| s.push(one).to_set().contains(x) == s.to_set().insert(one).contains(
        x,
    ) by {
        if s.contains(x) {
            let k = choose|k: int| 0 <= k < s.len() && s[k] == x;
            assert(s.push(one)[k] == x);
        }
        assert(s.push(one)[s.len() as int] == one);
        if s.push(one).contains(x) {
            let k = choose|k: int| 0 <= k < s.push(one).len() && s.push(one)[k] == x;
            if k < s.len() {
                assert(s[k] == x);
            }
        }
    }
    assert(s.push(one).to_set() =~= s.to_set().insert(one));
}

/// An empty list is one that holds nothing.
proof fn lemma_empty_set(s: Seq<usize>)
    ensures
        s.len() == 0 <==> s.to_set() =~= Set::empty(),
{
    if s.len() > 0 {
        assert(s.contains(s[0]));
        assert(s.to_set().contains(s[0]));
    }
}

/// How many of each fault a schedule contains.
#[derive(Debug, Clone, Copy, PartialEq, Eq, Structural)]
pub struct Counts {
    pub isolations: u64,
    pub splits: u64,
    pub pauses: u64,
    pub kills: u64,
    pub clock_jumps: u64,
}

/// How many events are of some kind.
pub open spec fn how_many(events: Seq<AtView>, kind: spec_fn(ActionView) -> bool) -> nat
    decreases events.len(),
{
    if events.len() == 0 {
        0
    } else {
        how_many(events.drop_last(), kind) + (if kind(events.last().action) {
            1nat
        } else {
            0
        })
    }
}

/// How many of each fault some events contain.
pub open spec fn counts_of(events: Seq<AtView>) -> (nat, nat, nat, nat, nat) {
    (
        how_many(events, |a: ActionView| a is Isolate),
        how_many(events, |a: ActionView| a is Split),
        how_many(events, |a: ActionView| a is Pause),
        how_many(events, |a: ActionView| a is Kill),
        how_many(events, |a: ActionView| a is ClockJump),
    )
}

impl Counts {
    pub fn new() -> (r: Self)
        ensures
            r == (Counts { isolations: 0, splits: 0, pauses: 0, kills: 0, clock_jumps: 0 }),
    {
        Counts { isolations: 0, splits: 0, pauses: 0, kills: 0, clock_jumps: 0 }
    }

    /// How the counts are printed.
    pub open spec fn line(self) -> Seq<char> {
        "isolations "@ + decimal(self.isolations as nat) + ", splits "@ + decimal(
            self.splits as nat,
        ) + ", pauses "@ + decimal(self.pauses as nat) + ", kills "@ + decimal(self.kills as nat)
            + ", clock jumps "@ + decimal(self.clock_jumps as nat)
    }

    /// The counts, for a person.
    pub fn message(&self) -> (r: String)
        ensures
            r@ == self.line(),
    {
        let mut out = String::new();
        out.append("isolations ");
        push_decimal(&mut out, self.isolations);
        out.append(", splits ");
        push_decimal(&mut out, self.splits);
        out.append(", pauses ");
        push_decimal(&mut out, self.pauses);
        out.append(", kills ");
        push_decimal(&mut out, self.kills);
        out.append(", clock jumps ");
        push_decimal(&mut out, self.clock_jumps);
        proof {
            assert(out@ =~= self.line());
        }
        out
    }
}

/// A moment in seconds, to the nearest thousandth.
pub open spec fn moment(nanos: nat) -> Seq<char> {
    padded(fixed(rounded(nanos, 1_000_000, 125), 1_000, 3), ' ', 8)
}

/// Append a moment in seconds.
pub fn push_moment(out: &mut String, nanos: u64)
    ensures
        final(out)@ == old(out)@ + moment(nanos as nat),
{
    let parts: u64 = round(nanos as u128, 1_000_000, 125);
    let mut text = String::new();
    push_fixed(&mut text, parts, 1_000, 3);
    proof {
        assert(text@ =~= fixed(rounded(nanos as nat, 1_000_000, 125), 1_000, 3));
    }
    push_padded(out, text.as_str(), ' ', 8);
}

/// An event as a line of the plan.
pub open spec fn event_line(event: AtView) -> Seq<char> {
    "  "@ + moment(event.at) + "s  "@ + action_text(event.action) + "\n"@
}

/// The lines of a plan.
pub open spec fn event_lines(events: Seq<AtView>) -> Seq<char>
    decreases events.len(),
{
    if events.len() == 0 {
        Seq::empty()
    } else {
        event_lines(events.drop_last()) + event_line(events.last())
    }
}

impl Schedule {
    /// Every fault has its repair, and the cluster ends healthy.
    ///
    /// Asked rather than assumed: the run's final check reads the cluster, and
    /// reading a cluster that is still partitioned reports a violation that is
    /// the harness's fault.
    pub fn ends_healthy(&self) -> (r: bool)
        ensures
            r == Health::whole().after_all(event_views(self.events@)).is_whole(),
    {
        let mut cut: bool = false;
        let mut paused: Vec<usize> = Vec::new();
        let mut down: Vec<usize> = Vec::new();
        let ghost all = event_views(self.events@);
        let mut i: usize = 0;
        proof {
            assert(all.skip(0) =~= all);
            assert(paused@.to_set() =~= Set::empty());
            assert(down@.to_set() =~= Set::empty());
        }
        while i < self.events.len()
            invariant
                i <= self.events@.len(),
                all == event_views(self.events@),
                (Health { cut, paused: paused@.to_set(), down: down@.to_set() }).after_all(
                    all.skip(i as int),
                ) == Health::whole().after_all(all),
            decreases self.events@.len() - i,
        {
            proof {
                assert(all.skip(i as int)[0] == self.events@[i as int]@);
                assert(all.skip(i as int).skip(1) =~= all.skip(i + 1));
            }
            match &self.events[i].action {
                Action::Isolate { .. } => {
                    cut = true;
                },
                Action::Split { .. } => {
                    cut = true;
                },
                Action::Heal => {
                    cut = false;
                },
                Action::Pause { node } => {
                    proof {
                        lemma_set_of_push(paused@, *node);
                    }
                    paused.push(*node);
                },
                Action::Resume { node } => {
                    forget(&mut paused, *node);
                },
                Action::Kill { node } => {
                    proof {
                        lemma_set_of_push(down@, *node);
                    }
                    down.push(*node);
                },
                Action::Restart { node } => {
                    forget(&mut down, *node);
                },
                Action::ClockJump { .. } => {},
            }
            i += 1;
        }
        proof {
            assert(all.skip(i as int) =~= Seq::empty());
            lemma_empty_set(paused@);
            lemma_empty_set(down@);
        }
        !cut && paused.len() == 0 && down.len() == 0
    }

    /// A one-fault-per-line plan, printed before anything is injected.
    pub open spec fn plan(self) -> Seq<char> {
        "seed "@ + decimal(self.seed as nat) + ", "@ + decimal(self.nodes as nat) + " nodes, "@
            + decimal(self.duration@ / 1_000_000_000) + "s, "@ + decimal(self.events@.len())
            + " events\n"@ + event_lines(event_views(self.events@))
    }

    /// A one-fault-per-line plan, printed before anything is injected.
    pub fn render(&self) -> (r: String)
        ensures
            r@ == self.plan(),
    {
        let mut out = String::new();
        out.append("seed ");
        push_decimal(&mut out, self.seed);
        out.append(", ");
        push_decimal(&mut out, self.nodes as u64);
        out.append(" nodes, ");
        push_decimal(&mut out, self.duration.as_nanos() / 1_000_000_000);
        out.append("s, ");
        push_decimal(&mut out, self.events.len() as u64);
        out.append(" events\n");
        let ghost head = out@;
        let ghost all = event_views(self.events@);
        let mut i: usize = 0;
        proof {
            assert(all.take(0) =~= Seq::empty());
            assert(head =~= head + event_lines(all.take(0)));
        }
        while i < self.events.len()
            invariant
                i <= self.events@.len(),
                all == event_views(self.events@),
                out@ == head + event_lines(all.take(i as int)),
            decreases self.events@.len() - i,
        {
            let event: &At = &self.events[i];
            out.append("  ");
            push_moment(&mut out, event.at.as_nanos());
            out.append("s  ");
            out.append(event.action.message().as_str());
            out.append("\n");
            proof {
                assert(all.take(i + 1).drop_last() =~= all.take(i as int));
                assert(all.take(i + 1).last() == self.events@[i as int]@);
                assert(out@ =~= head + event_lines(all.take(i + 1)));
            }
            i += 1;
        }
        proof {
            assert(all.take(i as int) =~= all);
            assert(out@ =~= self.plan());
        }
        out
    }

    /// How many of each fault the schedule contains. A run reports this beside
    /// its result: "no violations" from a schedule with zero kills is a
    /// different sentence from the same words after two hundred.
    pub fn counts(&self) -> (r: Counts)
        ensures
            ({
                let counts = counts_of(event_views(self.events@));
                &&& r.isolations == counts.0
                &&& r.splits == counts.1
                &&& r.pauses == counts.2
                &&& r.kills == counts.3
                &&& r.clock_jumps == counts.4
            }),
    {
        let mut c = Counts::new();
        let ghost all = event_views(self.events@);
        let mut i: usize = 0;
        proof {
            assert(all.take(0) =~= Seq::empty());
        }
        while i < self.events.len()
            invariant
                i <= self.events@.len(),
                all == event_views(self.events@),
                ({
                    let counts = counts_of(all.take(i as int));
                    &&& c.isolations == counts.0 <= i
                    &&& c.splits == counts.1 <= i
                    &&& c.pauses == counts.2 <= i
                    &&& c.kills == counts.3 <= i
                    &&& c.clock_jumps == counts.4 <= i
                }),
            decreases self.events@.len() - i,
        {
            proof {
                assert(all.take(i + 1).drop_last() =~= all.take(i as int));
                assert(all.take(i + 1).last() == self.events@[i as int]@);
            }
            match &self.events[i].action {
                Action::Isolate { .. } => {
                    c.isolations = c.isolations + 1;
                },
                Action::Split { .. } => {
                    c.splits = c.splits + 1;
                },
                Action::Pause { .. } => {
                    c.pauses = c.pauses + 1;
                },
                Action::Kill { .. } => {
                    c.kills = c.kills + 1;
                },
                Action::ClockJump { .. } => {
                    c.clock_jumps = c.clock_jumps + 1;
                },
                Action::Heal => {},
                Action::Resume { .. } => {},
                Action::Restart { .. } => {},
            }
            i += 1;
        }
        proof {
            assert(all.take(i as int) =~= all);
        }
        c
    }
}

// ---------------------------------------------------------------------- laws

/// Whether an action is one a cluster can undergo: it names nodes that exist,
/// each once; it cuts something; a split leaves a majority on the other side, but
/// of two nodes, which have none to leave; and a clock moves only where clocks can
/// be moved.
pub open spec fn sound(action: ActionView, nodes: usize, clocks: bool) -> bool {
    match action {
        ActionView::Isolate { node, cut } => node < nodes && !(cut is Clear),
        ActionView::Split { minority } => {
            &&& 1 <= minority.len()
            &&& minority.len() * 2 < nodes || (nodes == 2 && minority.len() == 1)
            &&& forall|i: int| 0 <= i < minority.len() ==> #[trigger] minority[i] < nodes
            &&& forall|i: int, j: int| 0 <= i < j < minority.len() ==> minority[i] < minority[j]
        },
        ActionView::Heal => true,
        ActionView::Pause { node } => node < nodes,
        ActionView::Resume { node } => node < nodes,
        ActionView::Kill { node } => node < nodes,
        ActionView::Restart { node } => node < nodes,
        ActionView::ClockJump { .. } => clocks,
    }
}

/// A minority is made of nodes that exist, each once, in order.
proof fn lemma_minority(which: RngView, nodes: usize, size: nat)
    requires
        1 <= size,
        size * 2 < nodes || (nodes == 2 && size == 1),
    ensures
        sound(
            ActionView::Split {
                minority: as_nodes(sorted(taken(which, nodes as nat, size).0)),
            },
            nodes,
            true,
        ),
{
    let chosen = taken(which, nodes as nat, size).0;
    lemma_taken(which, nodes as nat, size);
    law_sorting_keeps_the_numbers(chosen);
    let ordered = sorted(chosen);
    broadcast use vstd::seq_lib::group_to_multiset_ensures;

    chosen.lemma_multiset_has_no_duplicates();
    ordered.lemma_multiset_has_no_duplicates_conv();
    assert forall|i: int| 0 <= i < ordered.len() implies #[trigger] ordered[i] < nodes by {
        assert(ordered.to_multiset().count(ordered[i]) > 0);
        assert(chosen.to_multiset().count(ordered[i]) > 0);
        assert(chosen.contains(ordered[i]));
        let k = choose|k: int| 0 <= k < chosen.len() && chosen[k] == ordered[i];
        assert(chosen[k] < nodes);
    }
    let minority = as_nodes(ordered);
    assert forall|i: int, j: int| 0 <= i < j < minority.len() implies minority[i]
        < minority[j] by {
        assert(ordered[i] < nodes && ordered[j] < nodes);
        assert(ordered[i] <= ordered[j]);
        assert(ordered[i] != ordered[j]);
    }
    assert forall|i: int| 0 <= i < minority.len() implies #[trigger] minority[i] < nodes by {
        assert(ordered[i] < nodes);
    }
}

/// A drawn fault is sound, and its repair undoes it.
proof fn lemma_fault(roll: u64, s: Streams, nodes: usize, clocks: bool)
    requires
        nodes >= 2,
        roll < 100,
    ensures
        ({
            let drawn = fault_for(roll, s, nodes, clocks);
            &&& sound(drawn.fault, nodes, clocks)
            &&& drawn.repair is None ==> Health::whole().after(drawn.fault) == Health::whole()
            &&& drawn.repair matches Some(repair) ==> sound(repair, nodes, clocks)
                && Health::whole().after(drawn.fault).after(repair) == Health::whole()
        }),
{
    let drawn = fault_for(roll, s, nodes, clocks);
    if 30 <= roll < 55 {
        lemma_minority(s.which, nodes, minority_size(s.shape, nodes));
    }
    match drawn.repair {
        Some(repair) => {
            let healed = Health::whole().after(drawn.fault).after(repair);
            assert(healed.paused =~= Set::empty());
            assert(healed.down =~= Set::empty());
        },
        None => {},
    }
}

/// A round lasts, its fault is sound, and its repair undoes it.
proof fn lemma_round(s: Streams, nodes: usize, clocks: bool)
    requires
        nodes >= 2,
    ensures
        ({
            let (drawn, hold) = round_of(s, nodes, clocks);
            &&& sound(drawn.fault, nodes, clocks)
            &&& drawn.repair is None ==> Health::whole().after(drawn.fault) == Health::whole()
            &&& drawn.repair matches Some(repair) ==> sound(repair, nodes, clocks)
                && Health::whole().after(drawn.fault).after(repair) == Health::whole()
        }),
{
    reveal(round_of);
    let rolled = Streams { kind: s.kind.moved(), when: s.when.moved(), ..s };
    lemma_fault(s.kind.within(0, 100), rolled, nodes, clocks);
}

/// What holds of the events from a moment on.
pub open spec fn well_drawn(
    events: Seq<AtView>,
    t: nat,
    nodes: usize,
    duration: nat,
    clocks: bool,
) -> bool {
    &&& forall|i: int|
        0 <= i < events.len() ==> t <= (#[trigger] events[i]).at < duration && sound(
            events[i].action,
            nodes,
            clocks,
        )
    &&& forall|i: int, j: int| 0 <= i <= j < events.len() ==> events[i].at <= events[j].at
    &&& Health::whole().after_all(events) == Health::whole()
}

proof fn lemma_events(t: nat, s: Streams, nodes: usize, duration: nat, clocks: bool)
    requires
        nodes >= 2,
    ensures
        well_drawn(events_from(t, s, nodes, duration, clocks), t, nodes, duration, clocks),
    decreases
            (if t < duration {
                duration - t
            } else {
                0
            }),
{
    if t < duration {
        let (drawn, hold) = round_of(s, nodes, clocks);
        let until = t + hold;
        let calm = millis(drawn.streams.when.within(1_500, 4_000));
        if until < duration {
            let next = Streams { when: drawn.streams.when.moved(), ..drawn.streams };
            let rest = events_from(until + calm, next, nodes, duration, clocks);
            lemma_round(s, nodes, clocks);
            lemma_events(until + calm, next, nodes, duration, clocks);
            let pair = pair_at(t, until, drawn);
            let events = pair + rest;
            assert(events_from(t, s, nodes, duration, clocks) == events);
            assert forall|i: int| 0 <= i < events.len() implies t <= (#[trigger] events[i]).at
                < duration && sound(events[i].action, nodes, clocks) by {
                if i >= pair.len() {
                    assert(events[i] == rest[i - pair.len()]);
                }
            }
            assert forall|i: int, j: int| 0 <= i <= j < events.len() implies events[i].at
                <= events[j].at by {
                if i >= pair.len() {
                    assert(events[i] == rest[i - pair.len()]);
                }
                if j >= pair.len() {
                    assert(events[j] == rest[j - pair.len()]);
                }
            }
            reveal_with_fuel(Health::after_all, 3);
            match drawn.repair {
                Some(repair) => {
                    assert(events.skip(1).skip(1) =~= rest);
                },
                None => {
                    assert(events.skip(1) =~= rest);
                },
            }
        }
    }
}

/// Every fault is repaired and the cluster ends healthy; the events are in the
/// order of their moments, and none is past the end; every node named exists; a
/// split of three nodes or more leaves a majority on the other side and names no
/// node twice; and a host without clock control gets a schedule without clock
/// jumps.
pub proof fn law_a_schedule_is_well_drawn(seed: u64, nodes: usize, duration: nat, clocks: bool)
    requires
        nodes >= 2,
    ensures
        well_drawn(schedule_of(seed, nodes, duration, clocks), 0, nodes, duration, clocks),
        Health::whole().after_all(schedule_of(seed, nodes, duration, clocks)).is_whole(),
{
    let s = streams_of(seed);
    let t = millis(s.when.within(200, 1_200));
    lemma_events(t, Streams { when: s.when.moved(), ..s }, nodes, duration, clocks);
}

/// A split of three nodes or more, odd or even, takes away a minority and leaves a
/// majority: at least one node, fewer than half of them, each of them a node of the
/// cluster, in order and none twice.
pub proof fn law_a_split_leaves_a_majority(
    seed: u64,
    nodes: usize,
    duration: nat,
    clocks: bool,
    i: int,
)
    requires
        nodes >= 3,
        0 <= i < schedule_of(seed, nodes, duration, clocks).len(),
    ensures
        schedule_of(seed, nodes, duration, clocks)[i].action matches ActionView::Split { minority }
            ==> {
            &&& 1 <= minority.len()
            &&& minority.len() * 2 < nodes
            &&& forall|k: int| 0 <= k < minority.len() ==> #[trigger] minority[k] < nodes
            &&& forall|j: int, k: int| 0 <= j < k < minority.len() ==> minority[j] < minority[k]
        },
{
    law_a_schedule_is_well_drawn(seed, nodes, duration, clocks);
}

} // verus!
