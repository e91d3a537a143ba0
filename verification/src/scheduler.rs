//! Strongest Node scheduler: an activation / tension graph of processes
//! decides which process runs next. Selection picks the eligible process with
//! the greatest activation minus tension; it is never round-robin.
use vstd::prelude::*;

use crate::process::{iret_slots_zero, same_registers, Process, TrapFrame};

verus! {

pub const MAX_NODES: usize = 32;
pub const MAX_NEIGHBORS: usize = 4;
pub const NEIGHBOR_NONE: u8 = 0xFF;
pub const STACK_SIZE: usize = 4096;
pub const CWD_MAX: usize = 64;
pub const PARENT_NONE: usize = 0xFF;
/// Activation a neighbour gains when activation spreads to it.
pub const SPREAD: u32 = 10;
/// Ceiling that spreading never pushes an activation above.
pub const ACTIVATION_CAP: u32 = 200;
/// Activation every process but the selected one loses per scheduling round.
pub const DECAY: u32 = 2;

/// The scheduling node shared by processes and secondary nodes.
#[derive(Clone, Copy, Debug)]
pub struct Node {
    pub activation: u32,
    pub tension: u32,
    pub neighbors: [u8; MAX_NEIGHBORS],
}

impl Node {
    /// No activation, no tension, no neighbours.
    pub open spec fn fresh() -> Node {
        Node { activation: 0, tension: 0, neighbors: [NEIGHBOR_NONE; MAX_NEIGHBORS] }
    }

    pub fn new() -> (r: Self)
        ensures
            r == Node::fresh(),
    {
        Self { activation: 0, tension: 0, neighbors: [NEIGHBOR_NONE; MAX_NEIGHBORS] }
    }
}

#[derive(Clone, Copy, Debug, PartialEq, Eq, Structural)]
pub enum NodeState {
    Ready,
    Running,
    Exited,
    Waiting,
}

/// A process can be scheduled unless it has exited or waits for a child.
pub open spec fn eligible(s: NodeState) -> bool {
    s != NodeState::Exited && s != NodeState::Waiting
}

/// The scheduling score: activation minus tension, both read as signed
/// 32-bit values, with 32-bit wrap-around.
pub open spec fn score(n: Node) -> i32 {
    (n.activation as i32).wrapping_sub(n.tension as i32)
}

/// A process that selection can pick: eligible, and with a score above the
/// lowest 32-bit value (the starting bound of the search).
pub open spec fn selectable(p: Process) -> bool {
    eligible(p.state) && score(p.node) > i32::MIN
}

/// The process selection picks: the first selectable process whose score no
/// other selectable process exceeds.
pub open spec fn is_strongest(procs: Seq<Process>, i: int) -> bool {
    &&& 0 <= i < procs.len()
    &&& selectable(procs[i])
    &&& forall|j: int|
        0 <= j < procs.len() && selectable(#[trigger] procs[j]) ==> score(procs[j].node) <= score(
            procs[i].node,
        )
    &&& forall|j: int|
        0 <= j < i && selectable(#[trigger] procs[j]) ==> score(procs[j].node) < score(
            procs[i].node,
        )
}

/// The index selection picks, if any process can be picked.
pub open spec fn strongest(procs: Seq<Process>) -> Option<int> {
    if exists|i: int| is_strongest(procs, i) {
        Some(choose|i: int| is_strongest(procs, i))
    } else {
        None
    }
}

/// At most one index is the strongest: the first of the greatest scores.
pub proof fn lemma_strongest_unique(procs: Seq<Process>, i: int, j: int)
    requires
        is_strongest(procs, i),
        is_strongest(procs, j),
    ensures
        i == j,
{
    if i < j {
        assert(selectable(procs[i]));
    } else if j < i {
        assert(selectable(procs[j]));
    }
}

/// The processes after every process but `except` has decayed.
pub open spec fn decay_spec(procs: Seq<Process>, except: int) -> Seq<Process> {
    Seq::new(
        procs.len(),
        |i: int|
            if i == except {
                procs[i]
            } else {
                with_activation(procs[i], decayed(procs[i].node.activation))
            },
    )
}

/// The same process with another activation.
pub open spec fn with_activation(p: Process, a: u32) -> Process {
    Process { node: Node { activation: a, ..p.node }, ..p }
}

/// The activation after decaying: two less, but not below zero.
pub open spec fn decayed(a: u32) -> u32 {
    if a >= DECAY {
        (a - DECAY) as u32
    } else {
        0
    }
}

/// The activation after one spread: ten more, capped at 200.
pub open spec fn spread_once(a: u32) -> u32 {
    if a + SPREAD > ACTIVATION_CAP {
        ACTIVATION_CAP
    } else {
        (a + SPREAD) as u32
    }
}

/// The processes after activation has spread along the first `k` neighbour
/// slots of `nb`, stopping at the first empty slot. Slots that name `from`
/// or no process are skipped.
pub open spec fn spread_prefix(procs: Seq<Process>, from: int, nb: Seq<u8>, k: int) -> Seq<Process>
    decreases k,
{
    if k <= 0 {
        procs
    } else {
        let prev = spread_prefix(procs, from, nb, k - 1);
        if stops_before(nb, k - 1) {
            prev
        } else {
            let i = nb[k - 1] as int;
            if i < prev.len() && i != from {
                prev.update(i, with_activation(prev[i], spread_once(prev[i].node.activation)))
            } else {
                prev
            }
        }
    }
}

/// Spreading only raises activations, and never above the cap: an
/// activation at most `ACTIVATION_CAP` stays at least what it was and at
/// most the cap, and nothing else about any process changes.
pub proof fn law_spread_bounded(procs: Seq<Process>, from: int, nb: Seq<u8>, k: int, i: int)
    requires
        0 <= i < procs.len(),
        procs[i].node.activation <= ACTIVATION_CAP,
    ensures
        spread_prefix(procs, from, nb, k).len() == procs.len(),
        procs[i].node.activation <= spread_prefix(procs, from, nb, k)[i].node.activation
            <= ACTIVATION_CAP,
        spread_prefix(procs, from, nb, k)[i] == with_activation(
            procs[i],
            spread_prefix(procs, from, nb, k)[i].node.activation,
        ),
    decreases k,
{
    if k > 0 {
        law_spread_bounded(procs, from, nb, k - 1, i);
    }
}

/// How many of the first `k` neighbour slots of `nb` that come before the
/// first empty slot name process `x`.
pub open spec fn slot_count(nb: Seq<u8>, x: int, k: int) -> nat
    decreases k,
{
    if k <= 0 {
        0
    } else {
        slot_count(nb, x, k - 1) + if !stops_before(nb, k - 1) && nb[k - 1] as int == x {
            1nat
        } else {
            0nat
        }
    }
}

/// Spreading along the first `k` slots adds ten to a process's activation
/// for every slot before the first empty one that names it, and caps the
/// result at 200; a process no such slot names, and the process spreading,
/// keep their activation.
pub proof fn law_spread_prefix_adds_ten(procs: Seq<Process>, from: int, nb: Seq<u8>, k: int, i: int)
    requires
        0 <= i < procs.len(),
    ensures
        ({
            let a = procs[i].node.activation as int;
            let c = slot_count(nb, i, k) as int;
            spread_prefix(procs, from, nb, k)[i].node.activation as int == if i == from || c == 0 {
                a
            } else if a + 10 * c <= 200 {
                a + 10 * c
            } else {
                200
            }
        }),
    decreases k,
{
    if k > 0 {
        law_spread_prefix_adds_ten(procs, from, nb, k - 1, i);
        ProcessGraph::lemma_spread_len(procs, from, nb, k - 1);
        let prev = spread_prefix(procs, from, nb, k - 1);
        if !stops_before(nb, k - 1) {
            let x = nb[k - 1] as int;
            if x < prev.len() && x != from && x != i {
                assert(spread_prefix(procs, from, nb, k)[i] == prev[i]);
            }
        }
    }
}

/// A spreading round (see `ProcessGraph::spread_from`) adds ten to the
/// activation of each process that a neighbour slot of `from` names, once
/// per such slot before the first empty one, capped at 200; every other
/// process, and `from` itself, keeps its activation.
pub proof fn law_spread_adds_ten(before: ProcessGraph, after: ProcessGraph, from: int, i: int)
    requires
        0 <= from < before.procs@.len(),
        0 <= i < before.procs@.len(),
        after.procs@ == spread_prefix(
            before.procs@,
            from,
            before.procs@[from].node.neighbors@,
            MAX_NEIGHBORS as int,
        ),
    ensures
        ({
            let a = before.procs@[i].node.activation as int;
            let c = slot_count(before.procs@[from].node.neighbors@, i, 4) as int;
            &&& after.procs@.len() == before.procs@.len()
            &&& after.procs@[i].node.activation as int == if i == from || c == 0 {
                a
            } else if a + 10 * c <= 200 {
                a + 10 * c
            } else {
                200
            }
        }),
{
    let nb = before.procs@[from].node.neighbors@;
    law_spread_prefix_adds_ten(before.procs@, from, nb, 4, i);
    ProcessGraph::lemma_spread_len(before.procs@, from, nb, 4);
}

/// Decaying (see `ProcessGraph::decay_all`) takes two from the activation
/// of every process but `except`, stopping at zero, and changes nothing
/// else.
pub proof fn law_decay_takes_two(before: ProcessGraph, after: ProcessGraph, except: int, i: int)
    requires
        after.procs@ == decay_spec(before.procs@, except),
        0 <= i < before.procs@.len(),
    ensures
        after.procs@.len() == before.procs@.len(),
        after.procs@[i].node.activation as int == if i == except {
            before.procs@[i].node.activation as int
        } else if before.procs@[i].node.activation >= 2 {
            before.procs@[i].node.activation - 2
        } else {
            0
        },
        after.procs@[i].node.tension == before.procs@[i].node.tension,
        after.procs@[i].node.neighbors == before.procs@[i].node.neighbors,
        after.procs@[i].state == before.procs@[i].state,
        after.procs@[i].id == before.procs@[i].id,
        after.procs@[i] == (Process { node: Node { activation: after.procs@[i].node.activation, ..before.procs@[i].node }, ..before.procs@[i] }),
{
}

/// Selection (see `ProcessGraph::select_strongest`) picks a process that
/// has neither exited nor waits for a child. Where activations and
/// tensions stay below 2^31, its activation minus tension is at least that
/// of every such process, and greater than that of every such process
/// before it. When it picks none, no such process exists.
pub proof fn law_select_greatest(procs: Seq<Process>, r: Option<usize>, j: int)
    requires
        match r {
            None => forall|k: int| 0 <= k < procs.len() ==> !selectable(#[trigger] procs[k]),
            Some(i) => is_strongest(procs, i as int),
        },
        0 <= j < procs.len(),
        procs[j].node.activation < 0x8000_0000,
        procs[j].node.tension < 0x8000_0000,
    ensures
        r matches Some(i) ==> i < procs.len() && procs[i as int].state != NodeState::Exited
            && procs[i as int].state != NodeState::Waiting,
        r matches Some(i) ==> procs[i as int].node.activation < 0x8000_0000 && procs[i as int].node.tension
            < 0x8000_0000 && procs[j].state != NodeState::Exited && procs[j].state != NodeState::Waiting ==> {
            &&& procs[j].node.activation - procs[j].node.tension <= procs[i as int].node.activation
                - procs[i as int].node.tension
            &&& j < i ==> procs[j].node.activation - procs[j].node.tension < procs[i as int].node.activation
                - procs[i as int].node.tension
        },
        r is None ==> procs[j].state == NodeState::Exited || procs[j].state == NodeState::Waiting,
{
    let aj = procs[j].node.activation;
    let tj = procs[j].node.tension;
    assert((aj as i32).wrapping_sub(tj as i32) == aj - tj);
    match r {
        Some(i) => {
            let ai = procs[i as int].node.activation;
            let ti = procs[i as int].node.tension;
            if ai < 0x8000_0000 && ti < 0x8000_0000 {
                assert((ai as i32).wrapping_sub(ti as i32) == ai - ti);
            }
            assert(selectable(procs[j]) == eligible(procs[j].state));
        },
        None => {
            assert(!selectable(procs[j]));
        },
    }
}

/// Some slot before `k`, or slot `k` itself, is empty.
pub open spec fn stops_before(nb: Seq<u8>, k: int) -> bool {
    exists|j: int| 0 <= j <= k && nb[j] == NEIGHBOR_NONE
}

/// The process that `add_node` appends.
pub open spec fn added_process(
    p: Process,
    id: u32,
    activation: u32,
    tension: u32,
    neighbors: Seq<u8>,
    parent: usize,
) -> bool {
    &&& p.id == id
    &&& p.node.activation == activation
    &&& p.node.tension == tension
    &&& p.parent == parent
    &&& forall|j: int|
        0 <= j < MAX_NEIGHBORS ==> #[trigger] p.node.neighbors@[j] == if j < neighbors.len() {
            neighbors[j]
        } else {
            NEIGHBOR_NONE
        }
    &&& p.state == NodeState::Ready
    &&& p.aspace.cr3 == 0
    &&& p.aspace.vmas@.len() == 0
    &&& p.exit_status == 0
    &&& p.cwd@ == crate::process::root_cwd()
    &&& p.saved_rsp == 0
    &&& p.saved_rip == 0
    &&& same_registers(p.context, TrapFrame::spec_zero())
    &&& iret_slots_zero(p.context)
    &&& p.kernel_stack_base == 0
    &&& p.kernel_stack_top == 0
}

pub struct ProcessGraph {
    pub procs: Vec<Process>,
}

impl ProcessGraph {
    pub fn new() -> (r: Self)
        ensures
            r.procs@.len() == 0,
    {
        Self { procs: Vec::new() }
    }

    pub fn count(&self) -> (r: usize)
        ensures
            r == self.procs@.len(),
    {
        self.procs.len()
    }

    /// Appends a ready process with the given node values and parent; only
    /// the first four neighbours are kept. Refused (false) when the graph
    /// already holds `MAX_NODES` processes.
    pub fn add_node(
        &mut self,
        id: u32,
        activation: u32,
        tension: u32,
        neighbors: &[u8],
        parent: usize,
    ) -> (r: bool)
        ensures
            r == (old(self).procs@.len() < MAX_NODES),
            r ==> final(self).procs@.len() == old(self).procs@.len() + 1 && final(self).procs@.subrange(0, old(self).procs@.len() as int) == old(self).procs@ && added_process(
                final(self).procs@.last(),
                id,
                activation,
                tension,
                neighbors@,
                parent,
            ),
            !r ==> final(self).procs@ == old(self).procs@,
    {
        if self.procs.len() >= MAX_NODES {
            return false;
        }
        let mut p = Process::new(id, 0);
        p.node.activation = activation;
        p.node.tension = tension;
        p.parent = parent;
        let mut j: usize = 0;
        while j < neighbors.len() && j < MAX_NEIGHBORS
            invariant
                j <= MAX_NEIGHBORS,
                j <= neighbors@.len(),
                p.id == id,
                p.node.activation == activation,
                p.node.tension == tension,
                p.parent == parent,
                p.state == crate::scheduler::NodeState::Ready,
                p.aspace.cr3 == 0,
                p.aspace.vmas@.len() == 0,
                p.exit_status == 0,
                p.cwd@ == crate::process::root_cwd(),
                p.saved_rsp == 0,
                p.saved_rip == 0,
                same_registers(p.context, TrapFrame::spec_zero()),
                iret_slots_zero(p.context),
                p.kernel_stack_base == 0,
                p.kernel_stack_top == 0,
                forall|k: int|
                    0 <= k < MAX_NEIGHBORS ==> #[trigger] p.node.neighbors@[k] == if k < j {
                        neighbors@[k]
                    } else {
                        NEIGHBOR_NONE
                    },
            decreases MAX_NEIGHBORS - j,
        {
            p.node.neighbors[j] = neighbors[j];
            j = j + 1;
        }
        self.procs.push(p);
        proof {
            assert(self.procs@.subrange(0, old(self).procs@.len() as int) =~= old(self).procs@);
        }
        true
    }

    /// Every process except `except` loses `DECAY` activation, saturating at zero.
    pub fn decay_all(&mut self, except: usize)
        ensures
            final(self).procs@ == decay_spec(old(self).procs@, except as int),
            final(self).procs@.len() == old(self).procs@.len(),
            forall|i: int|
                0 <= i < old(self).procs@.len() ==> #[trigger] final(self).procs@[i] == if i
                    == except {
                    old(self).procs@[i]
                } else {
                    with_activation(
                        old(self).procs@[i],
                        decayed(old(self).procs@[i].node.activation),
                    )
                },
    {
        let mut i: usize = 0;
        while i < self.procs.len()
            invariant
                i <= self.procs@.len(),
                self.procs@.len() == old(self).procs@.len(),
                forall|k: int|
                    0 <= k < old(self).procs@.len() ==> #[trigger] self.procs@[k] == if k < i
                        && k != except {
                        with_activation(
                            old(self).procs@[k],
                            decayed(old(self).procs@[k].node.activation),
                        )
                    } else {
                        old(self).procs@[k]
                    },
            decreases self.procs@.len() - i,
        {
            if i != except {
                self.procs[i].node.activation = self.procs[i].node.activation.saturating_sub(
                    DECAY,
                );
            }
            i = i + 1;
        }
        assert(self.procs@ =~= decay_spec(old(self).procs@, except as int));
    }

    /// Spreads activation from process `from` to each of its neighbours, in
    /// slot order, until the first empty slot: each neighbour that names
    /// another existing process gains `SPREAD`, capped at `ACTIVATION_CAP`.
    pub fn spread_from(&mut self, from: usize)
        requires
            from < old(self).procs@.len(),
        ensures
            final(self).procs@ == spread_prefix(
                old(self).procs@,
                from as int,
                old(self).procs@[from as int].node.neighbors@,
                MAX_NEIGHBORS as int,
            ),
    {
        let neighbors: [u8; MAX_NEIGHBORS] = self.procs[from].node.neighbors;
        let ghost nb = neighbors@;
        let mut k: usize = 0;
        while k < MAX_NEIGHBORS
            invariant
                k <= MAX_NEIGHBORS,
                nb == neighbors@,
                nb.len() == MAX_NEIGHBORS,
                from < old(self).procs@.len(),
                nb == old(self).procs@[from as int].node.neighbors@,
                self.procs@ == spread_prefix(old(self).procs@, from as int, nb, k as int),
                !stops_before(nb, k - 1),
            decreases MAX_NEIGHBORS - k,
        {
            let idx = neighbors[k];
            if idx == NEIGHBOR_NONE {
                proof {
                    Self::lemma_spread_stopped(old(self).procs@, from as int, nb, k as int, MAX_NEIGHBORS as int);
                }
                return;
            }
            let i = idx as usize;
            proof {
                Self::lemma_spread_len(old(self).procs@, from as int, nb, k as int);
                assert(!stops_before(nb, k as int)) by {
                    if stops_before(nb, k as int) {
                        let j = choose|j: int| 0 <= j <= k && nb[j] == NEIGHBOR_NONE;
                        if j < k {
                            assert(stops_before(nb, k - 1));
                        }
                    }
                }
            }
            if i < self.procs.len() && i != from {
                let a = self.procs[i].node.activation.saturating_add(SPREAD);
                self.procs[i].node.activation = a;
                if self.procs[i].node.activation > ACTIVATION_CAP {
                    self.procs[i].node.activation = ACTIVATION_CAP;
                }
            }
            k = k + 1;
        }
    }

    proof fn lemma_spread_len(procs: Seq<Process>, from: int, nb: Seq<u8>, k: int)
        ensures
            spread_prefix(procs, from, nb, k).len() == procs.len(),
        decreases k,
    {
        if k > 0 {
            Self::lemma_spread_len(procs, from, nb, k - 1);
        }
    }

    proof fn lemma_spread_stopped(procs: Seq<Process>, from: int, nb: Seq<u8>, k: int, n: int)
        requires
            0 <= k < n,
            k < nb.len(),
            nb[k] == NEIGHBOR_NONE,
        ensures
            spread_prefix(procs, from, nb, n) == spread_prefix(procs, from, nb, k),
        decreases n - k,
    {
        if n - 1 > k {
            Self::lemma_spread_stopped(procs, from, nb, k, n - 1);
        }
        assert(stops_before(nb, n - 1));
    }

    /// The eligible process with the greatest score (activation minus
    /// tension); the first one on ties. `None` when no process can be picked.
    pub fn select_strongest(&self) -> (r: Option<usize>)
        ensures
            r matches Some(i) ==> strongest(self.procs@) == Some(i as int),
            r is None ==> strongest(self.procs@) is None,
            match r {
                None => forall|j: int|
                    0 <= j < self.procs@.len() ==> !selectable(#[trigger] self.procs@[j]),
                Some(i) => is_strongest(self.procs@, i as int),
            },
    {
        if self.procs.len() == 0 {
            assert(!exists|c: int| is_strongest(self.procs@, c));
            return None;
        }
        let mut best: Option<usize> = None;
        let mut best_s = i32::MIN;
        let mut i: usize = 0;
        while i < self.procs.len()
            invariant
                i <= self.procs@.len(),
                match best {
                    None => best_s == i32::MIN && forall|j: int|
                        0 <= j < i ==> !selectable(#[trigger] self.procs@[j]),
                    Some(b) => {
                        &&& b < i
                        &&& selectable(self.procs@[b as int])
                        &&& best_s == score(self.procs@[b as int].node)
                        &&& forall|j: int|
                            0 <= j < i && selectable(#[trigger] self.procs@[j]) ==> score(
                                self.procs@[j].node,
                            ) <= best_s
                        &&& forall|j: int|
                            0 <= j < b && selectable(#[trigger] self.procs@[j]) ==> score(
                                self.procs@[j].node,
                            ) < best_s
                    },
                },
            decreases self.procs@.len() - i,
        {
            let st = self.procs[i].state;
            if st == NodeState::Exited || st == NodeState::Waiting {
                i = i + 1;
                continue;
            }
            let s = (self.procs[i].node.activation as i32).wrapping_sub(
                self.procs[i].node.tension as i32,
            );
            if s > best_s {
                best_s = s;
                best = Some(i);
            }
            i = i + 1;
        }
        proof {
            match best {
                Some(b) => {
                    assert(is_strongest(self.procs@, b as int));
                    let c = choose|c: int| is_strongest(self.procs@, c);
                    lemma_strongest_unique(self.procs@, b as int, c);
                },
                None => {
                    assert(!exists|c: int| is_strongest(self.procs@, c));
                },
            }
        }
        best
    }

    /// Appends a process like `add_node` and returns its index; `None` when
    /// the graph is full.
    pub fn try_add_node(
        &mut self,
        id: u32,
        activation: u32,
        tension: u32,
        neighbors: &[u8],
        parent: usize,
    ) -> (r: Option<usize>)
        ensures
            r is Some == (old(self).procs@.len() < MAX_NODES),
            r matches Some(i) ==> i == old(self).procs@.len() && final(self).procs@.len() == i + 1
                && final(self).procs@.subrange(0, i as int) == old(self).procs@ && added_process(
                final(self).procs@[i as int],
                id,
                activation,
                tension,
                neighbors@,
                parent,
            ),
            r is None ==> final(self).procs@ == old(self).procs@,
    {
        if self.procs.len() >= MAX_NODES {
            return None;
        }
        let i = self.procs.len();
        self.add_node(id, activation, tension, neighbors, parent);
        Some(i)
    }

    /// Removing exited processes would invalidate indices held elsewhere, so
    /// this leaves the graph as it is.
    pub fn prune_dead_nodes(&mut self)
        ensures
            final(self).procs@ == old(self).procs@,
    {
    }

    /// Merging low-tension pairs is not done yet: the graph stays as it is.
    pub fn try_merge_low_tension_pairs(&mut self)
        ensures
            final(self).procs@ == old(self).procs@,
    {
    }
}

/// Two processes are the same in every field; their area lists hold the
/// same areas.
pub open spec fn same_process(p: Process, q: Process) -> bool {
    &&& p.aspace.vmas@ == q.aspace.vmas@
    &&& Process { aspace: crate::address_space::AddressSpace { cr3: p.aspace.cr3, vmas: q.aspace.vmas }, ..p } == q
}

/// `try_add_node` and `add_node` do the same: from the same table, one
/// answers `Some` exactly when the other answers true, the slot given is
/// the old length, and the two tables afterwards hold the same processes.
pub proof fn law_try_add_matches_add(
    before: Seq<Process>,
    t: Seq<Process>,
    rt: Option<usize>,
    a: Seq<Process>,
    ra: bool,
    id: u32,
    activation: u32,
    tension: u32,
    neighbors: Seq<u8>,
    parent: usize,
)
    requires
        rt is Some == (before.len() < MAX_NODES),
        rt matches Some(i) ==> i == before.len() && t.len() == i + 1 && t.subrange(0, i as int) == before
            && added_process(t[i as int], id, activation, tension, neighbors, parent),
        rt is None ==> t == before,
        ra == (before.len() < MAX_NODES),
        ra ==> a.len() == before.len() + 1 && a.subrange(0, before.len() as int) == before && added_process(
            a.last(),
            id,
            activation,
            tension,
            neighbors,
            parent,
        ),
        !ra ==> a == before,
    ensures
        rt is Some == ra,
        rt matches Some(i) ==> i == before.len(),
        t.len() == a.len(),
        forall|k: int| 0 <= k < t.len() ==> same_process(#[trigger] t[k], a[k]),
{
    assert forall|k: int| 0 <= k < t.len() implies same_process(#[trigger] t[k], a[k]) by {
        if k < before.len() {
            assert(t[k] == t.subrange(0, before.len() as int)[k]);
            assert(a[k] == a.subrange(0, before.len() as int)[k]);
        } else {
            let p1 = t[k];
            let p2 = a[k];
            assert(p1.node.neighbors@ =~= p2.node.neighbors@);
            assert(p1.cwd@ =~= p2.cwd@);
            vstd::array::axiom_array_ext_equal(p1.node.neighbors, p2.node.neighbors);
            vstd::array::axiom_array_ext_equal(p1.cwd, p2.cwd);
            assert(p1.aspace.vmas@ =~= p2.aspace.vmas@);
        }
    }
}

} // verus!
