//! Three real servers, wired so their links can be cut one at a time.
//!
//! Each node is given its **own** peer map, pointing at a proxy dedicated to that
//! ordered pair. There are `n * (n - 1)` proxies for `n` nodes, named `n0->n1`
//! and so on, and cutting one cuts exactly one direction between exactly two
//! nodes. Everything else — isolating a node inbound but not outbound, splitting
//! the cluster, a one-way link that makes a follower campaign forever while the
//! leader still counts its acknowledgement — is built out of that.
//!
//! Clients are *not* proxied. A partition that also hid the cluster from its
//! clients would make every fault look like a timeout.

use vstd::prelude::*;
use vstd::string::*;

use crate::chaos::proxy::{Counters, Cut};
use crate::chaos::schedule::{Action, ActionView};
use crate::chaos::ChaosError;
use crate::log::segment::{path_in, path_of};
use crate::order::{insert_text, texts, texts_sorted};
use crate::text::{decimal, push_decimal};

verus! {

pub struct ClusterConfig {
    pub nodes: usize,
    pub dir: String,
    /// The `keel-server` binary.
    pub server_bin: String,
    /// `durable`, `barrier`, or `none`. A chaos run that claims to survive
    /// crashes must be `durable`; the others are here so the claim can be shown
    /// to depend on it.
    pub sync: String,
    pub tick_ms: u64,
    /// Environment every node is started with — where the clock nemesis's
    /// preload goes.
    pub env: Vec<(String, String)>,
    /// How many entries a node logs before it takes a checkpoint of its own,
    /// where that is not left to the node.
    pub checkpoint_entries: Option<u64>,
}

impl ClusterConfig {
    pub fn new(nodes: usize, dir: &str, server_bin: &str) -> (r: Self)
        ensures
            r.nodes == nodes,
            r.dir@ == dir@,
            r.server_bin@ == server_bin@,
            r.sync@ == "durable"@,
            r.tick_ms == 10,
            r.env@.len() == 0,
            r.checkpoint_entries is None,
    {
        ClusterConfig {
            nodes,
            dir: dir.to_owned(),
            server_bin: server_bin.to_owned(),
            sync: "durable".to_owned(),
            tick_ms: 10,
            env: Vec::new(),
            checkpoint_entries: None,
        }
    }
}

// --------------------------------------------------------------------- names

/// What a node is called.
pub open spec fn node_name_text(node: nat) -> Seq<char> {
    "n"@ + decimal(node)
}

/// What a node is called.
pub fn node_name(node: usize) -> (r: String)
    ensures
        r@ == node_name_text(node as nat),
{
    let mut out = String::new();
    out.append("n");
    push_decimal(&mut out, node as u64);
    proof {
        assert(out@ =~= node_name_text(node as nat));
    }
    out
}

/// What a link is called.
pub open spec fn link_name_text(from: nat, to: nat) -> Seq<char> {
    "n"@ + decimal(from) + "->n"@ + decimal(to)
}

/// What a link is called.
pub fn link_name(from: usize, to: usize) -> (r: String)
    ensures
        r@ == link_name_text(from as nat, to as nat),
{
    let mut out = String::new();
    out.append("n");
    push_decimal(&mut out, from as u64);
    out.append("->n");
    push_decimal(&mut out, to as u64);
    proof {
        assert(out@ =~= link_name_text(from as nat, to as nat));
    }
    out
}

// --------------------------------------------------------------------- links

/// Whether a name may be picked, or may be passed over.
pub open spec fn picked<F: Fn(&str) -> bool>(picks: F, name: Seq<char>, chosen: bool) -> bool {
    exists|text: &str| text@ == name && #[trigger] call_ensures(picks, (text,), chosen)
}

/// A link is cut where its name is picked, and left as it was where it is not.
pub open spec fn cut_or_left<F: Fn(&str) -> bool>(
    picks: F,
    name: Seq<char>,
    cut: Cut,
    before: Cut,
    after: Cut,
) -> bool {
    ||| picked(picks, name, true) && after == cut
    ||| picked(picks, name, false) && after == before
}

/// Every link in a cluster: one for each ordered pair of nodes.
#[derive(Debug)]
pub struct Mesh {
    cuts: Vec<Vec<Cut>>,
}

impl Mesh {
    /// How many nodes the links join.
    pub closed spec fn size(&self) -> nat {
        self.cuts@.len()
    }

    /// How the link from one node to another is cut.
    pub closed spec fn cut_between(&self, from: int, to: int) -> Cut {
        self.cuts@[from]@[to]
    }

    /// There is a link for every ordered pair, and a node's link to itself is
    /// never cut.
    pub closed spec fn wf(&self) -> bool {
        &&& forall|from: int|
            0 <= from < self.cuts@.len() ==> (#[trigger] self.cuts@[from])@.len()
                == self.cuts@.len()
        &&& forall|from: int|
            0 <= from < self.cuts@.len() ==> (#[trigger] self.cuts@[from])@[from] == Cut::Clear
    }

    /// The links of a cluster, with nothing cut.
    pub fn new(nodes: usize) -> (r: Self)
        ensures
            r.wf(),
            r.size() == nodes,
            forall|from: int, to: int|
                0 <= from < nodes && 0 <= to < nodes ==> #[trigger] r.cut_between(from, to)
                    == Cut::Clear,
    {
        let mut cuts: Vec<Vec<Cut>> = Vec::new();
        while cuts.len() < nodes
            invariant
                cuts@.len() <= nodes,
                forall|i: int| 0 <= i < cuts@.len() ==> (#[trigger] cuts@[i])@.len() == nodes,
                forall|i: int, j: int|
                    0 <= i < cuts@.len() && 0 <= j < nodes ==> #[trigger] cuts@[i]@[j]
                        == Cut::Clear,
            decreases nodes - cuts@.len(),
        {
            let mut row: Vec<Cut> = Vec::new();
            while row.len() < nodes
                invariant
                    row@.len() <= nodes,
                    forall|j: int| 0 <= j < row@.len() ==> #[trigger] row@[j] == Cut::Clear,
                decreases nodes - row@.len(),
            {
                row.push(Cut::Clear);
            }
            cuts.push(row);
        }
        Mesh { cuts }
    }

    pub fn nodes(&self) -> (r: usize)
        ensures
            r == self.size(),
    {
        self.cuts.len()
    }

    /// Cut a link, heal it, or change its direction. There is none from a node
    /// to itself.
    pub fn set(&mut self, from: usize, to: usize, cut: Cut)
        requires
            old(self).wf(),
            from < old(self).size(),
            to < old(self).size(),
            from != to,
        ensures
            final(self).wf(),
            final(self).size() == old(self).size(),
            forall|a: int, b: int|
                0 <= a < old(self).size() && 0 <= b < old(self).size()
                    ==> #[trigger] final(self).cut_between(a, b) == (if a == from && b == to {
                    cut
                } else {
                    old(self).cut_between(a, b)
                }),
    {
        let mut row: Vec<Cut> = Vec::new();
        let count: usize = self.cuts.len();
        let mut i: usize = 0;
        let ghost held = self.cuts@[from as int]@;
        while i < count
            invariant
                i <= count,
                count == self.cuts@.len(),
                from < count,
                self.cuts@[from as int]@ == held,
                held.len() == count,
                row@ == held.take(i as int),
            decreases count - i,
        {
            row.push(self.cuts[from][i]);
            i += 1;
            proof {
                assert(row@ =~= held.take(i as int));
            }
        }
        row.set(to, cut);
        self.cuts.set(from, row);
    }

    /// How a link is cut, if there is one.
    pub fn get(&self, from: usize, to: usize) -> (r: Option<Cut>)
        requires
            self.wf(),
        ensures
            r is Some <==> from < self.size() && to < self.size() && from != to,
            r matches Some(cut) ==> cut == self.cut_between(from as int, to as int),
    {
        if from < self.cuts.len() && to < self.cuts.len() && from != to {
            Some(self.cuts[from][to])
        } else {
            None
        }
    }

    /// Whether a link is cut at all.
    pub fn link_is_cut(&self, from: usize, to: usize) -> (r: bool)
        requires
            self.wf(),
        ensures
            r == (from < self.size() && to < self.size() && self.cut_between(
                from as int,
                to as int,
            ) != Cut::Clear),
    {
        match self.get(from, to) {
            Some(cut) => cut != Cut::Clear,
            None => false,
        }
    }

    /// Cut one node off. [`Cut::Forward`] means it can receive but not send,
    /// [`Cut::Backward`] that it can send but not receive.
    ///
    /// The second is the one worth having. A node that can send but not receive
    /// keeps its term climbing and never learns it lost; when the partition
    /// heals it arrives with a term nobody has seen and deposes a leader that
    /// was doing fine.
    pub fn isolate(&mut self, node: usize, cut: Cut)
        requires
            old(self).wf(),
        ensures
            final(self).wf(),
            final(self).size() == old(self).size(),
            forall|from: int, to: int|
                0 <= from < old(self).size() && 0 <= to < old(self).size()
                    ==> #[trigger] final(self).cut_between(from, to) == (if isolates(
                    node as int,
                    cut,
                    from,
                    to,
                ) {
                    Cut::Both
                } else {
                    old(self).cut_between(from, to)
                }),
    {
        let count: usize = self.nodes();
        let outbound: bool = cut.blocks_forward();
        let inbound: bool = cut.blocks_backward();
        if node >= count {
            return;
        }
        let mut other: usize = 0;
        while other < count
            invariant
                other <= count,
                node < count,
                count == self.size(),
                count == old(self).size(),
                outbound == cut.stops_forward(),
                inbound == cut.stops_backward(),
                self.wf(),
                forall|from: int, to: int|
                    0 <= from < count && 0 <= to < count ==> #[trigger] self.cut_between(from, to)
                        == (if isolates(node as int, cut, from, to) && (if from == node {
                        to < other
                    } else {
                        from < other
                    }) {
                        Cut::Both
                    } else {
                        old(self).cut_between(from, to)
                    }),
            decreases count - other,
        {
            if other != node {
                if outbound {
                    self.set(node, other, Cut::Both);
                }
                if inbound {
                    self.set(other, node, Cut::Both);
                }
            }
            other += 1;
        }
    }

    /// Cut every link whose name is picked.
    pub fn cut_matching<F: Fn(&str) -> bool>(&mut self, cut: Cut, picks: F)
        requires
            old(self).wf(),
            forall|name: &str| call_requires(picks, (name,)),
        ensures
            final(self).wf(),
            final(self).size() == old(self).size(),
            forall|from: int, to: int|
                0 <= from < old(self).size() && 0 <= to < old(self).size() && from != to
                    ==> cut_or_left(
                    picks,
                    link_name_text(from as nat, to as nat),
                    cut,
                    old(self).cut_between(from, to),
                    #[trigger] final(self).cut_between(from, to),
                ),
    {
        let count: usize = self.nodes();
        let mut from: usize = 0;
        while from < count
            invariant
                from <= count,
                count == self.size(),
                count == old(self).size(),
                self.wf(),
                forall|name: &str| call_requires(picks, (name,)),
                forall|a: int, b: int|
                    0 <= a < count && 0 <= b < count && a != b && a < from ==> cut_or_left(
                        picks,
                        link_name_text(a as nat, b as nat),
                        cut,
                        old(self).cut_between(a, b),
                        #[trigger] self.cut_between(a, b),
                    ),
                forall|a: int, b: int|
                    0 <= a < count && 0 <= b < count && a >= from ==> #[trigger] self.cut_between(
                        a,
                        b,
                    ) == old(self).cut_between(a, b),
            decreases count - from,
        {
            let mut to: usize = 0;
            while to < count
                invariant
                    to <= count,
                    from < count,
                    count == self.size(),
                    count == old(self).size(),
                    self.wf(),
                    forall|name: &str| call_requires(picks, (name,)),
                    forall|a: int, b: int|
                        0 <= a < count && 0 <= b < count && a != b && (a < from || (a == from && b
                            < to)) ==> cut_or_left(
                            picks,
                            link_name_text(a as nat, b as nat),
                            cut,
                            old(self).cut_between(a, b),
                            #[trigger] self.cut_between(a, b),
                        ),
                    forall|a: int, b: int|
                        0 <= a < count && 0 <= b < count && (a > from || (a == from && b >= to))
                            ==> #[trigger] self.cut_between(a, b) == old(self).cut_between(a, b),
                decreases count - to,
            {
                if from != to {
                    let name: String = link_name(from, to);
                    let text: &str = name.as_str();
                    let chosen: bool = picks(text);
                    assert(picked(picks, name@, chosen));
                    if chosen {
                        self.set(from, to, cut);
                    }
                }
                to += 1;
            }
            from += 1;
        }
    }

    /// Cut the cluster in two. Traffic within each side still flows.
    pub fn split(&mut self, minority: &[usize])
        requires
            old(self).wf(),
        ensures
            final(self).wf(),
            final(self).size() == old(self).size(),
            forall|from: int, to: int|
                0 <= from < old(self).size() && 0 <= to < old(self).size()
                    ==> #[trigger] final(self).cut_between(from, to) == (if across(
                    minority@,
                    from,
                    to,
                ) {
                    Cut::Both
                } else {
                    old(self).cut_between(from, to)
                }),
    {
        let count: usize = self.nodes();
        let mut a: usize = 0;
        while a < count
            invariant
                a <= count,
                count == self.size(),
                count == old(self).size(),
                self.wf(),
                forall|from: int, to: int|
                    0 <= from < count && 0 <= to < count ==> #[trigger] self.cut_between(from, to)
                        == (if across(minority@, from, to) && from < a {
                        Cut::Both
                    } else {
                        old(self).cut_between(from, to)
                    }),
            decreases count - a,
        {
            let left: bool = is_among(minority, a);
            let mut b: usize = 0;
            while b < count
                invariant
                    a < count,
                    b <= count,
                    count == self.size(),
                    count == old(self).size(),
                    self.wf(),
                    left == minority@.contains(a),
                    forall|from: int, to: int|
                        0 <= from < count && 0 <= to < count ==> #[trigger] self.cut_between(
                            from,
                            to,
                        ) == (if across(minority@, from, to) && (from < a || (from == a && to < b)) {
                            Cut::Both
                        } else {
                            old(self).cut_between(from, to)
                        }),
                decreases count - b,
            {
                if left != is_among(minority, b) {
                    self.set(a, b, Cut::Both);
                }
                b += 1;
            }
            a += 1;
        }
    }

    /// Heal everything.
    pub fn heal(&mut self)
        requires
            old(self).wf(),
        ensures
            final(self).wf(),
            final(self).size() == old(self).size(),
            forall|from: int, to: int|
                0 <= from < old(self).size() && 0 <= to < old(self).size()
                    ==> #[trigger] final(self).cut_between(from, to) == Cut::Clear,
    {
        let fresh = Mesh::new(self.nodes());
        *self = fresh;
    }

    /// The names of every link, in order, for a caller that wants to see that the
    /// mesh is complete.
    pub fn names(&self) -> (r: Vec<String>)
        ensures
            texts(r@) == texts_sorted(link_names(self.size(), self.size(), 0)),
    {
        let count: usize = self.nodes();
        let mut r: Vec<String> = Vec::new();
        let mut from: usize = 0;
        proof {
            assert(texts(r@) =~= texts_sorted(link_names(count as nat, 0, 0)));
        }
        while from < count
            invariant
                from <= count,
                texts(r@) == texts_sorted(link_names(count as nat, from as nat, 0)),
            decreases count - from,
        {
            let mut to: usize = 0;
            while to < count
                invariant
                    from < count,
                    to <= count,
                    texts(r@) == texts_sorted(link_names(count as nat, from as nat, to as nat)),
                decreases count - to,
            {
                if from != to {
                    let name = link_name(from, to);
                    proof {
                        let before = link_names(count as nat, from as nat, to as nat);
                        assert(before.push(name@).drop_last() =~= before);
                    }
                    insert_text(&mut r, name);
                }
                to += 1;
            }
            from += 1;
        }
        r
    }
}

/// The names of the links of the first nodes, one after the other, and of those of one more to the
/// first nodes.
pub open spec fn link_names(nodes: nat, from: nat, to: nat) -> Seq<Seq<char>>
    decreases from, to,
{
    if to > 0 {
        let before = link_names(nodes, from, (to - 1) as nat);
        if to - 1 == from {
            before
        } else {
            before.push(link_name_text(from, (to - 1) as nat))
        }
    } else if from > 0 {
        link_names(nodes, (from - 1) as nat, nodes)
    } else {
        Seq::empty()
    }
}

/// Whether isolating a node cuts a link.
pub open spec fn isolates(node: int, cut: Cut, from: int, to: int) -> bool {
    &&& from != to
    &&& (cut.stops_forward() && from == node) || (cut.stops_backward() && to == node)
}

/// Whether a link crosses a split.
pub open spec fn across(minority: Seq<usize>, from: int, to: int) -> bool {
    minority.contains(from as usize) != minority.contains(to as usize)
}

/// Whether a node is one of some.
fn is_among(nodes: &[usize], node: usize) -> (r: bool)
    ensures
        r == nodes@.contains(node),
{
    let mut i: usize = 0;
    while i < nodes.len()
        invariant
            i <= nodes@.len(),
            forall|j: int| 0 <= j < i ==> nodes@[j] != node,
        decreases nodes@.len() - i,
    {
        if nodes[i] == node {
            return true;
        }
        i += 1;
    }
    false
}

/// Isolating a node cuts exactly its own links, in the directions asked for, and
/// leaves the rest of the cluster connected.
pub proof fn law_isolating_leaves_the_rest_connected(node: int, cut: Cut, from: int, to: int)
    requires
        from != to,
    ensures
        from != node && to != node ==> !isolates(node, cut, from, to),
        cut == Cut::Both && (from == node || to == node) ==> isolates(node, cut, from, to),
        cut == Cut::Backward && from == node ==> !isolates(node, cut, from, to),
        cut == Cut::Backward && to == node ==> isolates(node, cut, from, to),
        cut == Cut::Forward && from == node ==> isolates(node, cut, from, to),
        cut == Cut::Forward && to == node ==> !isolates(node, cut, from, to),
{
}

/// A split cuts across, both ways, and not within.
pub proof fn law_a_split_cuts_across_and_not_within(minority: Seq<usize>, from: int, to: int)
    ensures
        across(minority, from, to) == across(minority, to, from),
        minority.contains(from as usize) && minority.contains(to as usize) ==> !across(
            minority,
            from,
            to,
        ),
        !minority.contains(from as usize) && !minority.contains(to as usize) ==> !across(
            minority,
            from,
            to,
        ),
{
}

// ------------------------------------------------------------------- traffic

/// What a mesh carried, refused and severed.
pub open spec fn traffic_of(all: Seq<Counters>) -> (nat, nat, nat)
    decreases all.len(),
{
    if all.len() == 0 {
        (0, 0, 0)
    } else {
        let before = traffic_of(all.drop_last());
        let one = all.last();
        (
            before.0 + one.bytes_forward as nat + one.bytes_backward as nat,
            before.1 + one.refused as nat,
            before.2 + one.severed as nat,
        )
    }
}

proof fn lemma_traffic_grows(all: Seq<Counters>, n: int)
    requires
        0 <= n <= all.len(),
    ensures
        traffic_of(all.take(n)).0 <= traffic_of(all).0,
        traffic_of(all.take(n)).1 <= traffic_of(all).1,
        traffic_of(all.take(n)).2 <= traffic_of(all).2,
    decreases all.len() - n,
{
    if n == all.len() {
        assert(all.take(n) =~= all);
    } else {
        lemma_traffic_grows(all, n + 1);
        assert(all.take(n + 1).drop_last() =~= all.take(n));
    }
}

/// How much the mesh carried and how much it refused. A partition that refused
/// nothing did not happen.
pub fn traffic(all: &[Counters]) -> (r: (u64, u64, u64))
    requires
        traffic_of(all@).0 <= u64::MAX,
        traffic_of(all@).1 <= u64::MAX,
        traffic_of(all@).2 <= u64::MAX,
    ensures
        r.0 == traffic_of(all@).0,
        r.1 == traffic_of(all@).1,
        r.2 == traffic_of(all@).2,
{
    let mut carried: u64 = 0;
    let mut refused: u64 = 0;
    let mut severed: u64 = 0;
    let mut i: usize = 0;
    proof {
        assert(all@.take(0) =~= Seq::empty());
    }
    while i < all.len()
        invariant
            i <= all@.len(),
            traffic_of(all@).0 <= u64::MAX,
            traffic_of(all@).1 <= u64::MAX,
            traffic_of(all@).2 <= u64::MAX,
            carried == traffic_of(all@.take(i as int)).0,
            refused == traffic_of(all@.take(i as int)).1,
            severed == traffic_of(all@.take(i as int)).2,
        decreases all@.len() - i,
    {
        proof {
            lemma_traffic_grows(all@, i + 1);
            assert(all@.take(i + 1).drop_last() =~= all@.take(i as int));
        }
        let (_, forward, backward, r, s) = all[i].snapshot();
        carried = carried + forward + backward;
        refused = refused + r;
        severed = severed + s;
        i += 1;
    }
    proof {
        assert(all@.take(i as int) =~= all@);
    }
    (carried, refused, severed)
}

// -------------------------------------------------------------------- wiring

/// Where the nodes of a cluster listen, and where each dials the others.
pub struct Addresses {
    /// Where each node really listens for peers.
    pub peers: Vec<String>,
    /// Where each node listens for clients. Never proxied.
    pub clients: Vec<String>,
    pub admins: Vec<String>,
    /// Where each node dials each other one: the proxy of that ordered pair.
    pub routes: Vec<Vec<String>>,
}

impl Addresses {
    /// There is an address for every node, and a route for every pair.
    pub open spec fn complete(&self, nodes: nat) -> bool {
        &&& self.peers@.len() == nodes
        &&& self.clients@.len() == nodes
        &&& self.admins@.len() == nodes
        &&& self.routes@.len() == nodes
        &&& forall|i: int| 0 <= i < nodes ==> (#[trigger] self.routes@[i])@.len() == nodes
    }

    /// Where a node dials another. Its own entry is its real address: a node
    /// that reached itself through a proxy could be partitioned from itself,
    /// which is not a fault any machine produces.
    pub open spec fn dialled(&self, from: int, to: int) -> Seq<char> {
        if from == to {
            self.peers@[from]@
        } else {
            self.routes@[from]@[to]@
        }
    }
}

/// The peers a node is told of, as arguments.
pub open spec fn peer_args(addresses: Addresses, node: int, count: nat) -> Seq<Seq<char>>
    decreases count,
{
    if count == 0 {
        Seq::empty()
    } else {
        let to = count - 1;
        peer_args(addresses, node, to as nat).push("--peer"@).push(
            decimal(count) + "="@ + addresses.dialled(node, to),
        )
    }
}

/// Where a node keeps its log and its state machine.
pub open spec fn node_dir_text(dir: Seq<char>, node: nat) -> Seq<char> {
    path_of(dir, node_name_text(node))
}

/// The arguments a node is started with.
pub open spec fn node_args_text(config: ClusterConfig, addresses: Addresses, node: int) -> Seq<
    Seq<char>,
> {
    seq![
        "--id"@,
        decimal((node + 1) as nat),
        "--dir"@,
        node_dir_text(config.dir@, node as nat),
        "--listen"@,
        addresses.peers@[node]@,
        "--admin"@,
        addresses.admins@[node]@,
        "--client"@,
        addresses.clients@[node]@,
        "--sync"@,
        config.sync@,
        "--tick-ms"@,
        decimal(config.tick_ms as nat),
    ] + peer_args(addresses, node, config.nodes as nat) + checkpoint_args(
        config.checkpoint_entries,
    )
}

/// What a node is told of its checkpoints, as arguments.
pub open spec fn checkpoint_args(entries: Option<u64>) -> Seq<Seq<char>> {
    match entries {
        Some(n) => seq!["--checkpoint-entries"@, decimal(n as nat)],
        None => Seq::empty(),
    }
}

fn number(n: u64) -> (r: String)
    ensures
        r@ == decimal(n as nat),
{
    let mut out = String::new();
    push_decimal(&mut out, n);
    proof {
        assert(out@ =~= decimal(n as nat));
    }
    out
}

/// Where a node keeps its log and its state machine.
pub fn node_dir(dir: &str, node: usize) -> (r: String)
    ensures
        r@ == node_dir_text(dir@, node as nat),
{
    path_in(dir, node_name(node).as_str())
}

/// The file a node writes once it has recovered.
pub fn ready_file(dir: &str, node: usize) -> (r: String)
    ensures
        r@ == path_of(node_dir_text(dir@, node as nat), "keel.ready"@),
{
    path_in(node_dir(dir, node).as_str(), "keel.ready")
}

/// The arguments a node is started with: each node gets its own peer map, so that
/// its links can be cut one at a time.
pub fn node_args(config: &ClusterConfig, addresses: &Addresses, node: usize) -> (r: Vec<String>)
    requires
        addresses.complete(config.nodes as nat),
        node < config.nodes,
        config.nodes < u64::MAX,
    ensures
        texts(r@) == node_args_text(*config, *addresses, node as int),
{
    let mut args: Vec<String> = Vec::new();
    args.push("--id".to_owned());
    args.push(number(node as u64 + 1));
    args.push("--dir".to_owned());
    args.push(node_dir(config.dir.as_str(), node));
    args.push("--listen".to_owned());
    args.push(addresses.peers[node].clone());
    args.push("--admin".to_owned());
    args.push(addresses.admins[node].clone());
    args.push("--client".to_owned());
    args.push(addresses.clients[node].clone());
    args.push("--sync".to_owned());
    args.push(config.sync.clone());
    args.push("--tick-ms".to_owned());
    args.push(number(config.tick_ms));
    let ghost head = texts(args@);
    let mut j: usize = 0;
    proof {
        assert(texts(args@) =~= head + peer_args(*addresses, node as int, 0));
    }
    while j < config.nodes
        invariant
            j <= config.nodes,
            node < config.nodes,
            config.nodes < u64::MAX,
            addresses.complete(config.nodes as nat),
            texts(args@) == head + peer_args(*addresses, node as int, j as nat),
        decreases config.nodes - j,
    {
        let ghost before = texts(args@);
        args.push("--peer".to_owned());
        let mut entry = String::new();
        push_decimal(&mut entry, j as u64 + 1);
        entry.append("=");
        if node == j {
            entry.append(addresses.peers[node].as_str());
        } else {
            let routes: &Vec<String> = &addresses.routes[node];
            entry.append(routes[j].as_str());
        }
        proof {
            assert(entry@ =~= decimal((j + 1) as nat) + "="@ + addresses.dialled(
                node as int,
                j as int,
            ));
        }
        args.push(entry);
        proof {
            assert(texts(args@) =~= before.push("--peer"@).push(entry@));
            assert(texts(args@) =~= head + peer_args(*addresses, node as int, (j + 1) as nat));
        }
        j += 1;
    }
    let ghost before = texts(args@);
    if let Some(n) = config.checkpoint_entries {
        args.push("--checkpoint-entries".to_owned());
        args.push(number(n));
        proof {
            assert(texts(args@) =~= before + checkpoint_args(Some(n)));
        }
    }
    proof {
        assert(head =~= node_args_text(*config, *addresses, node as int).take(14));
        assert(texts(args@) =~= node_args_text(*config, *addresses, node as int));
    }
    args
}

// ------------------------------------------------------------------ applying

/// What is left to do to a process once an action has reached the links.
#[derive(Debug, Clone, Copy, PartialEq, Eq, Structural)]
pub enum Effect {
    /// Nothing: the links are all it was about, or it is about the clock, which
    /// no one member owns.
    Done,
    Stop { node: usize },
    Resume { node: usize },
    Kill { node: usize },
    Start { node: usize },
}

/// The node an action is aimed at, if it is aimed at a process.
pub open spec fn aimed_at(action: ActionView) -> Option<usize> {
    match action {
        ActionView::Pause { node } => Some(node),
        ActionView::Resume { node } => Some(node),
        ActionView::Kill { node } => Some(node),
        ActionView::Restart { node } => Some(node),
        _ => None,
    }
}

/// What an action leaves to do.
pub open spec fn effect_of(action: ActionView) -> Effect {
    match action {
        ActionView::Pause { node } => Effect::Stop { node },
        ActionView::Resume { node } => Effect::Resume { node },
        ActionView::Kill { node } => Effect::Kill { node },
        ActionView::Restart { node } => Effect::Start { node },
        _ => Effect::Done,
    }
}

/// What an action does to a link.
pub open spec fn recut(action: ActionView, cut: Cut, from: int, to: int) -> Cut {
    match action {
        ActionView::Isolate { node, cut: how } => if isolates(node as int, how, from, to) {
            Cut::Both
        } else {
            cut
        },
        ActionView::Split { minority } => if across(minority, from, to) {
            Cut::Both
        } else {
            cut
        },
        ActionView::Heal => Cut::Clear,
        _ => cut,
    }
}

/// Apply one scheduled action to the links, and say what is left to do.
pub fn apply(mesh: &mut Mesh, action: &Action) -> (r: Result<Effect, ChaosError>)
    requires
        old(mesh).wf(),
    ensures
        final(mesh).wf(),
        final(mesh).size() == old(mesh).size(),
        forall|from: int, to: int|
            0 <= from < old(mesh).size() && 0 <= to < old(mesh).size()
                ==> #[trigger] final(mesh).cut_between(from, to) == recut(
                action@,
                old(mesh).cut_between(from, to),
                from,
                to,
            ),
        r is Err <==> (aimed_at(action@) is Some && aimed_at(action@)->Some_0 >= old(mesh).size()),
        r matches Ok(effect) ==> effect == effect_of(action@),
        r matches Err(e) ==> e is NotRunning && e->NotRunning_0@ == node_name_text(
            aimed_at(action@)->Some_0 as nat,
        ),
{
    let (effect, aimed) = match action {
        Action::Isolate { node, cut } => {
            mesh.isolate(*node, *cut);
            (Effect::Done, None)
        },
        Action::Split { minority } => {
            mesh.split(minority.as_slice());
            (Effect::Done, None)
        },
        Action::Heal => {
            mesh.heal();
            (Effect::Done, None)
        },
        Action::Pause { node } => (Effect::Stop { node: *node }, Some(*node)),
        Action::Resume { node } => (Effect::Resume { node: *node }, Some(*node)),
        Action::Kill { node } => (Effect::Kill { node: *node }, Some(*node)),
        Action::Restart { node } => (Effect::Start { node: *node }, Some(*node)),
        Action::ClockJump { .. } => (Effect::Done, None),
    };
    match aimed {
        Some(node) => {
            if node >= mesh.nodes() {
                return Err(ChaosError::NotRunning(node_name(node)));
            }
        },
        None => {},
    }
    Ok(effect)
}

} // verus!
