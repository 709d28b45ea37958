//! Grouping processes by the namespaces they belong to.

use vstd::prelude::*;
use std::collections::HashMap;
use crate::model::{Lsns, Namespace, NamespaceType, Process, LSNS_NETNS_UNUSABLE, NS_COUNT};

verus! {

/// One (process, namespace kind) pair: what the grouping reads of it.
/// `repeat` marks a pair whose inode the same process already holds under
/// an earlier kind.
#[derive(Clone, Copy)]
pub struct Slot {
    pub inode: u64,
    pub kind: u8,
    pub pid: u32,
    pub uid: u32,
    pub netnsid: i32,
    pub repeat: bool,
}

/// Process `p` holds the inode of kind `t` under an earlier kind too.
pub open spec fn repeated_kind(p: Process, t: int) -> bool {
    exists|u: int| 0 <= u < t && p.ns_ids@[u] == p.ns_ids@[t]
}

/// The slot of process `p` for kind `t`.
pub open spec fn slot_of(p: Process, t: int) -> Slot {
    Slot {
        inode: p.ns_ids@[t],
        kind: t as u8,
        pid: p.pid,
        uid: p.uid,
        netnsid: p.netnsid,
        repeat: repeated_kind(p, t),
    }
}

/// The eight slots of one process, by kind.
pub open spec fn process_slots(p: Process) -> Seq<Slot> {
    Seq::new(8, |t: int| slot_of(p, t))
}

/// The slots of all processes, process by process, each by kind.
pub open spec fn slots(ps: Seq<Process>) -> Seq<Slot>
    decreases ps.len(),
{
    if ps.len() == 0 {
        Seq::empty()
    } else {
        slots(ps.drop_last()) + process_slots(ps.last())
    }
}

/// How many slots have inode `x`.
pub open spec fn count_inode(s: Seq<Slot>, x: u64) -> nat
    decreases s.len(),
{
    if s.len() == 0 {
        0
    } else {
        count_inode(s.drop_last(), x) + if s.last().inode == x {
            1nat
        } else {
            0nat
        }
    }
}

/// How many processes the slots `s` show with inode `x`: its slots that are
/// not a repeat within their process.
pub open spec fn count_procs(s: Seq<Slot>, x: u64) -> nat
    decreases s.len(),
{
    if s.len() == 0 {
        0
    } else {
        count_procs(s.drop_last(), x) + if s.last().inode == x && !s.last().repeat {
            1nat
        } else {
            0nat
        }
    }
}

/// How many of the processes `ps` hold inode `x` under some kind.
pub open spec fn procs_with(ps: Seq<Process>, x: u64) -> nat
    decreases ps.len(),
{
    if ps.len() == 0 {
        0
    } else {
        procs_with(ps.drop_last(), x) + if ps.last().ns_ids@.contains(x) {
            1nat
        } else {
            0nat
        }
    }
}

/// The first slot with inode `x`.
pub open spec fn first_slot(s: Seq<Slot>, x: u64) -> Slot
    decreases s.len(),
{
    if s.len() == 0 {
        arbitrary()
    } else if s.last().inode == x && count_inode(s.drop_last(), x) == 0 {
        s.last()
    } else {
        first_slot(s.drop_last(), x)
    }
}

/// The lowest PID among the slots with inode `x`.
pub open spec fn min_pid(s: Seq<Slot>, x: u64) -> u32
    decreases s.len(),
{
    if s.len() == 0 {
        0
    } else {
        let m = min_pid(s.drop_last(), x);
        if s.last().inode != x {
            m
        } else if count_inode(s.drop_last(), x) == 0 || s.last().pid < m {
            s.last().pid
        } else {
            m
        }
    }
}

/// The distinct nonzero inodes of `s`, in the order of their first slot.
pub open spec fn seen_inodes(s: Seq<Slot>) -> Seq<u64>
    decreases s.len(),
{
    if s.len() == 0 {
        Seq::empty()
    } else {
        let d = seen_inodes(s.drop_last());
        let x = s.last().inode;
        if x != 0 && !d.contains(x) {
            d.push(x)
        } else {
            d
        }
    }
}

/// The namespace with inode `x` as the slots `s` describe it: its kind, UID
/// and network namespace ID come from its first slot, its process count is
/// the number of processes that hold it, its representative is its lowest PID.
pub open spec fn namespace_of(s: Seq<Slot>, x: u64) -> Namespace {
    let f = first_slot(s, x);
    Namespace {
        id: x as u32,
        ns_type: NamespaceType::spec_from_index(f.kind as int),
        nprocs: count_procs(s, x) as u32,
        netnsid: if f.kind == 3 {
            f.netnsid
        } else {
            LSNS_NETNS_UNUSABLE
        },
        representative_pid: Some(min_pid(s, x)),
        uid_fallback: f.uid,
    }
}

/// The namespaces of the slots `s`, one per distinct nonzero inode,
/// in the order in which they are first met.
pub open spec fn namespaces_of(s: Seq<Slot>) -> Seq<Namespace> {
    seen_inodes(s).map_values(|x: u64| namespace_of(s, x))
}

/// The namespaces that the processes `ps` belong to.
pub open spec fn assigned_namespaces(ps: Seq<Process>) -> Seq<Namespace> {
    namespaces_of(slots(ps))
}

/// No namespace holds more than `u32::MAX` processes: the counts fit in `nprocs`.
pub open spec fn counts_fit(ps: Seq<Process>) -> bool {
    forall|x: u64| x != 0 ==> #[trigger] procs_with(ps, x) <= u32::MAX
}

// ---------------------------------------------------------------- lemmas

/// `slots` gives eight slots per process.
pub proof fn lemma_slots_len(ps: Seq<Process>)
    ensures
        slots(ps).len() == 8 * ps.len(),
    decreases ps.len(),
{
    if ps.len() > 0 {
        lemma_slots_len(ps.drop_last());
    }
}

/// The slots of a prefix of the processes are a prefix of their slots.
pub proof fn lemma_slots_prefix(ps: Seq<Process>, a: int)
    requires
        0 <= a <= ps.len(),
    ensures
        slots(ps).take(slots(ps.take(a)).len() as int) == slots(ps.take(a)),
        slots(ps.take(a)).len() <= slots(ps).len(),
    decreases ps.len(),
{
    if a == ps.len() {
        assert(ps.take(a) =~= ps);
        assert(slots(ps).take(slots(ps).len() as int) =~= slots(ps));
    } else {
        assert(ps.drop_last().take(a) =~= ps.take(a));
        lemma_slots_prefix(ps.drop_last(), a);
        let l = slots(ps.take(a)).len() as int;
        assert(slots(ps).take(l) =~= slots(ps.drop_last()).take(l));
    }
}

/// Slots of one more process extend the slots by that process's slots.
pub proof fn lemma_slots_step(ps: Seq<Process>, p: int)
    requires
        0 <= p < ps.len(),
    ensures
        slots(ps.take(p + 1)) == slots(ps.take(p)) + process_slots(ps[p]),
{
    assert(ps.take(p + 1).drop_last() =~= ps.take(p));
}

/// A prefix shows no more processes of an inode than the whole.
pub proof fn lemma_count_prefix(s: Seq<Slot>, k: int, x: u64)
    requires
        0 <= k <= s.len(),
    ensures
        count_procs(s.take(k), x) <= count_procs(s, x),
    decreases s.len(),
{
    if k < s.len() {
        assert(s.drop_last().take(k) =~= s.take(k));
        lemma_count_prefix(s.drop_last(), k, x);
    } else {
        assert(s.take(k) =~= s);
    }
}

/// `seen_inodes` holds each nonzero inode with a slot, once, and nothing else.
pub proof fn lemma_seen_inodes(s: Seq<Slot>)
    ensures
        forall|x: u64| #[trigger]
            seen_inodes(s).contains(x) <==> (x != 0 && count_inode(s, x) > 0),
        seen_inodes(s).no_duplicates(),
    decreases s.len(),
{
    if s.len() > 0 {
        lemma_seen_inodes(s.drop_last());
        let d = seen_inodes(s.drop_last());
        let x = s.last().inode;
        if x != 0 && !d.contains(x) {
            assert forall|y: u64| #[trigger] d.push(x).contains(y) <==> (y == x || d.contains(y)) by {
                if d.push(x).contains(y) {
                    let i = choose|i: int| 0 <= i < d.push(x).len() && d.push(x)[i] == y;
                    if i < d.len() {
                        assert(d.contains(y));
                    }
                }
                if d.contains(y) {
                    let i = choose|i: int| 0 <= i < d.len() && d[i] == y;
                    assert(d.push(x)[i] == y);
                }
                if y == x {
                    assert(d.push(x)[d.len() as int] == y);
                }
            }
        }
    }
}

/// Adding a slot of another inode leaves the namespace of `y` as it was.
pub proof fn lemma_push_other(s: Seq<Slot>, t: Slot, y: u64)
    requires
        t.inode != y,
    ensures
        namespace_of(s.push(t), y) == namespace_of(s, y),
{
    assert(s.push(t).drop_last() =~= s);
}

/// Adding a slot of inode `x` to slots that already hold `x`.
pub proof fn lemma_push_same(s: Seq<Slot>, t: Slot)
    requires
        count_inode(s, t.inode) > 0,
    ensures
        count_inode(s.push(t), t.inode) == count_inode(s, t.inode) + 1,
        count_procs(s.push(t), t.inode) == count_procs(s, t.inode) + if t.repeat {
            0nat
        } else {
            1nat
        },
        first_slot(s.push(t), t.inode) == first_slot(s, t.inode),
        min_pid(s.push(t), t.inode) == if t.pid < min_pid(s, t.inode) {
            t.pid
        } else {
            min_pid(s, t.inode)
        },
{
    assert(s.push(t).drop_last() =~= s);
}

/// Adding the first slot of inode `x`, which is no repeat.
pub proof fn lemma_push_new(s: Seq<Slot>, t: Slot)
    requires
        count_inode(s, t.inode) == 0,
        !t.repeat,
    ensures
        count_inode(s.push(t), t.inode) == 1,
        count_procs(s.push(t), t.inode) == 1,
        first_slot(s.push(t), t.inode) == t,
        min_pid(s.push(t), t.inode) == t.pid,
{
    lemma_count_procs_le(s, t.inode);
    assert(s.push(t).drop_last() =~= s);
}

/// No inode shows more processes than slots.
pub proof fn lemma_count_procs_le(s: Seq<Slot>, x: u64)
    ensures
        count_procs(s, x) <= count_inode(s, x),
    decreases s.len(),
{
    if s.len() > 0 {
        lemma_count_procs_le(s.drop_last(), x);
    }
}

/// Counting processes distributes over concatenation of slots.
pub proof fn lemma_count_procs_add(a: Seq<Slot>, b: Seq<Slot>, x: u64)
    ensures
        count_procs(a + b, x) == count_procs(a, x) + count_procs(b, x),
    decreases b.len(),
{
    if b.len() == 0 {
        assert(a + b =~= a);
    } else {
        assert((a + b).drop_last() =~= a + b.drop_last());
        lemma_count_procs_add(a, b.drop_last(), x);
    }
}

/// The first `t` slots of one process show it once where one of its first
/// `t` kinds has inode `x`, else not at all.
pub proof fn lemma_count_procs_kinds(p: Process, t: int, x: u64)
    requires
        0 <= t <= 8,
    ensures
        count_procs(process_slots(p).take(t), x) == if exists|u: int|
            0 <= u < t && #[trigger] p.ns_ids@[u] == x {
            1nat
        } else {
            0nat
        },
    decreases t,
{
    if t > 0 {
        let s = process_slots(p).take(t);
        assert(s.drop_last() =~= process_slots(p).take(t - 1));
        lemma_count_procs_kinds(p, t - 1, x);
        assert(s.last() == slot_of(p, t - 1));
        if exists|u: int| 0 <= u < t - 1 && #[trigger] p.ns_ids@[u] == x {
            let u = choose|u: int| 0 <= u < t - 1 && #[trigger] p.ns_ids@[u] == x;
            assert(p.ns_ids@[u] == x);
        }
        if exists|u: int| 0 <= u < t && #[trigger] p.ns_ids@[u] == x {
            let u = choose|u: int| 0 <= u < t && #[trigger] p.ns_ids@[u] == x;
            if u < t - 1 {
                assert(p.ns_ids@[u] == x);
            }
        }
    } else {
        assert(process_slots(p).take(0) =~= Seq::<Slot>::empty());
    }
}

/// The slots of the processes show, for each inode, the number of processes
/// that hold it.
pub proof fn lemma_count_procs_slots(ps: Seq<Process>, x: u64)
    ensures
        count_procs(slots(ps), x) == procs_with(ps, x),
    decreases ps.len(),
{
    if ps.len() > 0 {
        lemma_count_procs_slots(ps.drop_last(), x);
        lemma_count_procs_add(slots(ps.drop_last()), process_slots(ps.last()), x);
        lemma_count_procs_kinds(ps.last(), 8, x);
        assert(process_slots(ps.last()).take(8) =~= process_slots(ps.last()));
        let p = ps.last();
        assert(p.ns_ids@.len() == 8);
        if p.ns_ids@.contains(x) {
            let u = choose|u: int| 0 <= u < p.ns_ids@.len() && p.ns_ids@[u] == x;
            assert(p.ns_ids@[u] == x);
        }
        if exists|u: int| 0 <= u < 8 && #[trigger] p.ns_ids@[u] == x {
            let u = choose|u: int| 0 <= u < 8 && #[trigger] p.ns_ids@[u] == x;
            assert(p.ns_ids@[u] == x);
        }
    }
}

/// No inode is held by more processes than there are.
pub proof fn lemma_procs_with_le_len(ps: Seq<Process>, x: u64)
    ensures
        procs_with(ps, x) <= ps.len(),
    decreases ps.len(),
{
    if ps.len() > 0 {
        lemma_procs_with_le_len(ps.drop_last(), x);
    }
}

/// The slot of process `p` for kind `t` stands at `8 * p + t`.
pub proof fn lemma_slot_index(ps: Seq<Process>, p: int, t: int)
    requires
        0 <= p < ps.len(),
        0 <= t < 8,
    ensures
        8 * p + t < slots(ps).len(),
        slots(ps)[8 * p + t] == slot_of(ps[p], t),
    decreases ps.len(),
{
    lemma_slots_len(ps);
    lemma_slots_len(ps.drop_last());
    if p < ps.len() - 1 {
        lemma_slot_index(ps.drop_last(), p, t);
    }
}

/// Each slot is the slot of some process for some kind.
pub proof fn lemma_slot_origin(ps: Seq<Process>, j: int)
    requires
        0 <= j < slots(ps).len(),
    ensures
        exists|p: int, t: int|
            0 <= p < ps.len() && 0 <= t < 8 && j == 8 * p + t && #[trigger] slots(ps)[j]
                == slot_of(ps[p], t),
    decreases ps.len(),
{
    lemma_slots_len(ps);
    lemma_slots_len(ps.drop_last());
    let k = slots(ps.drop_last()).len() as int;
    if j < k {
        lemma_slot_origin(ps.drop_last(), j);
        let (p, t) = choose|p: int, t: int|
            0 <= p < ps.drop_last().len() && 0 <= t < 8 && j == 8 * p + t
                && #[trigger] slots(ps.drop_last())[j] == slot_of(ps.drop_last()[p], t);
        assert(slots(ps)[j] == slot_of(ps[p], t));
    } else {
        let p = ps.len() - 1;
        let t = j - k;
        assert(slots(ps)[j] == process_slots(ps.last())[t]);
        assert(slots(ps)[j] == slot_of(ps[p], t));
    }
}

/// The slot count of `x` is positive exactly when some slot has inode `x`.
pub proof fn lemma_count_positive(s: Seq<Slot>, x: u64)
    ensures
        count_inode(s, x) > 0 <==> exists|j: int| 0 <= j < s.len() && #[trigger] s[j].inode == x,
    decreases s.len(),
{
    if s.len() > 0 {
        lemma_count_positive(s.drop_last(), x);
        if count_inode(s.drop_last(), x) > 0 {
            let j = choose|j: int|
                0 <= j < s.drop_last().len() && #[trigger] s.drop_last()[j].inode == x;
            assert(s[j].inode == x);
        }
        if exists|j: int| 0 <= j < s.len() && #[trigger] s[j].inode == x {
            let j = choose|j: int| 0 <= j < s.len() && #[trigger] s[j].inode == x;
            if j < s.len() - 1 {
                assert(s.drop_last()[j].inode == x);
            }
        }
    }
}

/// `min_pid` is the PID of a slot of `x`, and no slot of `x` has a lower PID.
pub proof fn lemma_min_pid(s: Seq<Slot>, x: u64)
    requires
        count_inode(s, x) > 0,
    ensures
        exists|j: int| 0 <= j < s.len() && #[trigger] s[j].inode == x && s[j].pid == min_pid(s, x),
        forall|j: int| 0 <= j < s.len() && #[trigger] s[j].inode == x ==> min_pid(s, x) <= s[j].pid,
    decreases s.len(),
{
    let d = s.drop_last();
    if count_inode(d, x) > 0 {
        lemma_min_pid(d, x);
        let j = choose|j: int| 0 <= j < d.len() && #[trigger] d[j].inode == x && d[j].pid == min_pid(d, x);
        assert(s[j] == d[j]);
        if s.last().inode == x && s.last().pid < min_pid(d, x) {
            assert(s[s.len() - 1].inode == x);
        }
        assert forall|k: int| 0 <= k < s.len() && #[trigger] s[k].inode == x implies min_pid(s, x)
            <= s[k].pid by {
            if k < s.len() - 1 {
                assert(d[k] == s[k]);
            }
        }
    } else {
        lemma_count_positive(d, x);
        assert(s[s.len() - 1].inode == x);
        assert forall|k: int| 0 <= k < s.len() && #[trigger] s[k].inode == x implies min_pid(s, x)
            <= s[k].pid by {
            if k < s.len() - 1 {
                assert(d[k] == s[k]);
            }
        }
    }
}

/// The inode of each namespace that the processes belong to, in listing order.
pub open spec fn assigned_inodes(ps: Seq<Process>) -> Seq<u64> {
    seen_inodes(slots(ps))
}

/// A process that holds `x` is counted.
pub proof fn lemma_procs_with_positive(ps: Seq<Process>, x: u64, p: int, t: int)
    requires
        0 <= p < ps.len(),
        0 <= t < 8,
        ps[p].ns_ids@[t] == x,
    ensures
        procs_with(ps, x) >= 1,
    decreases ps.len(),
{
    if p < ps.len() - 1 {
        lemma_procs_with_positive(ps.drop_last(), x, p, t);
    } else {
        assert(ps.last().ns_ids@[t] == x);
        assert(ps.last().ns_ids@.contains(x));
    }
}

/// What grouping promises: every namespace that a process is in is listed
/// once, under an ID that is its inode truncated to 32 bits; each listed
/// namespace counts the processes that hold it, at least one, and its
/// representative is the lowest PID of the processes in it.
pub proof fn lemma_grouping(ps: Seq<Process>)
    requires
        counts_fit(ps),
    ensures
        assigned_namespaces(ps).len() == assigned_inodes(ps).len(),
        assigned_inodes(ps).no_duplicates(),
        forall|p: int, t: int|
            0 <= p < ps.len() && 0 <= t < 8 && #[trigger] ps[p].ns_ids@[t] != 0
                ==> assigned_inodes(ps).contains(ps[p].ns_ids@[t]),
        forall|i: int|
            0 <= i < assigned_inodes(ps).len() ==> {
                let x = #[trigger] assigned_inodes(ps)[i];
                let n = assigned_namespaces(ps)[i];
                &&& x != 0
                &&& n.id == x as u32
                &&& n.nprocs == procs_with(ps, x)
                &&& n.nprocs == procs_with(ps, x)
        &&& n.nprocs >= 1
                &&& n.representative_pid is Some
                &&& exists|p: int, t: int|
                    0 <= p < ps.len() && 0 <= t < 8 && #[trigger] ps[p].ns_ids@[t] == x
                        && ps[p].pid == n.representative_pid->0
                &&& forall|p: int, t: int|
                    0 <= p < ps.len() && 0 <= t < 8 && #[trigger] ps[p].ns_ids@[t] == x
                        ==> n.representative_pid->0 <= ps[p].pid
            },
{
    let s = slots(ps);
    lemma_seen_inodes(s);
    assert forall|p: int, t: int|
        0 <= p < ps.len() && 0 <= t < 8 && #[trigger] ps[p].ns_ids@[t] != 0 implies assigned_inodes(
        ps,
    ).contains(ps[p].ns_ids@[t]) by {
        lemma_slot_index(ps, p, t);
        lemma_count_positive(s, ps[p].ns_ids@[t]);
        assert(s[8 * p + t].inode == ps[p].ns_ids@[t]);
    }
    assert forall|i: int| 0 <= i < assigned_inodes(ps).len() implies {
        let x = #[trigger] assigned_inodes(ps)[i];
        let n = assigned_namespaces(ps)[i];
        &&& x != 0
        &&& n.id == x as u32
        &&& n.nprocs == procs_with(ps, x)
        &&& n.nprocs >= 1
        &&& n.representative_pid is Some
        &&& exists|p: int, t: int|
            0 <= p < ps.len() && 0 <= t < 8 && #[trigger] ps[p].ns_ids@[t] == x && ps[p].pid
                == n.representative_pid->0
        &&& forall|p: int, t: int|
            0 <= p < ps.len() && 0 <= t < 8 && #[trigger] ps[p].ns_ids@[t] == x
                ==> n.representative_pid->0 <= ps[p].pid
    } by {
        let x = assigned_inodes(ps)[i];
        assert(seen_inodes(s).contains(x));
        lemma_count_procs_slots(ps, x);
        assert(procs_with(ps, x) <= u32::MAX);
        lemma_min_pid(s, x);
        let j = choose|j: int| 0 <= j < s.len() && #[trigger] s[j].inode == x && s[j].pid == min_pid(s, x);
        lemma_slot_origin(ps, j);
        let (p, t) = choose|p: int, t: int|
            0 <= p < ps.len() && 0 <= t < 8 && j == 8 * p + t && #[trigger] slots(ps)[j]
                == slot_of(ps[p], t);
        assert(ps[p].ns_ids@[t] == x);
        lemma_procs_with_positive(ps, x, p, t);
        assert forall|p2: int, t2: int|
            0 <= p2 < ps.len() && 0 <= t2 < 8 && #[trigger] ps[p2].ns_ids@[t2] == x implies min_pid(
            s,
            x,
        ) <= ps[p2].pid by {
            lemma_slot_index(ps, p2, t2);
            assert(s[8 * p2 + t2].inode == x);
        }
    }
}

/// Removing one process removes its count, if it holds `x`.
pub proof fn lemma_procs_with_remove(ps: Seq<Process>, j: int, x: u64)
    requires
        0 <= j < ps.len(),
    ensures
        procs_with(ps, x) == procs_with(ps.remove(j), x) + if ps[j].ns_ids@.contains(x) {
            1nat
        } else {
            0nat
        },
    decreases ps.len(),
{
    if j == ps.len() - 1 {
        assert(ps.remove(j) =~= ps.drop_last());
    } else {
        assert(ps.remove(j).drop_last() =~= ps.drop_last().remove(j));
        assert(ps.remove(j).last() == ps.last());
        lemma_procs_with_remove(ps.drop_last(), j, x);
    }
}

/// Processes that are the same up to order hold each inode equally often.
pub proof fn lemma_procs_with_reordered(ps1: Seq<Process>, ps2: Seq<Process>, x: u64)
    requires
        ps1.to_multiset() == ps2.to_multiset(),
    ensures
        procs_with(ps1, x) == procs_with(ps2, x),
    decreases ps1.len(),
{
    broadcast use vstd::seq_lib::group_to_multiset_ensures;
    broadcast use vstd::multiset::group_multiset_axioms;

    if ps1.len() == 0 {
        assert(ps2.to_multiset().len() == 0);
        assert(ps2.len() == 0);
    } else {
        let q = ps1.last();
        let rest1 = ps1.drop_last();
        assert(ps1 =~= rest1.push(q));
        assert(ps1.to_multiset() =~= rest1.to_multiset().insert(q));
        assert(ps2.to_multiset().count(q) > 0);
        assert(ps2.contains(q));
        let j = choose|j: int| 0 <= j < ps2.len() && ps2[j] == q;
        let rest2 = ps2.remove(j);
        assert(rest2.to_multiset() =~= ps2.to_multiset().remove(q));
        assert(rest1.to_multiset() =~= rest1.to_multiset().insert(q).remove(q));
        lemma_procs_with_reordered(rest1, rest2, x);
        lemma_procs_with_remove(ps2, j, x);
    }
}

/// The namespaces found do not depend on the order of the processes: the
/// same inodes are listed, and each with the same ID, process count and
/// representative PID (only the listing order and the kind, UID and network
/// namespace ID taken from the first process met may differ).
pub proof fn lemma_grouping_order_independent(ps1: Seq<Process>, ps2: Seq<Process>)
    requires
        ps1.to_multiset() == ps2.to_multiset(),
        counts_fit(ps1),
    ensures
        counts_fit(ps2),
        forall|x: u64| #[trigger]
            assigned_inodes(ps1).contains(x) <==> assigned_inodes(ps2).contains(x),
        forall|i: int, j: int|
            0 <= i < assigned_inodes(ps1).len() && 0 <= j < assigned_inodes(ps2).len()
                && #[trigger] assigned_inodes(ps1)[i] == #[trigger] assigned_inodes(ps2)[j] ==> {
                let n1 = assigned_namespaces(ps1)[i];
                let n2 = assigned_namespaces(ps2)[j];
                &&& n1.id == n2.id
                &&& n1.nprocs == n2.nprocs
                &&& n1.representative_pid == n2.representative_pid
            },
{
    broadcast use vstd::seq_lib::group_to_multiset_ensures;

    assert forall|x: u64| x != 0 implies #[trigger] procs_with(ps2, x) <= u32::MAX by {
        lemma_procs_with_reordered(ps1, ps2, x);
    }
    lemma_grouping(ps1);
    lemma_grouping(ps2);
    // a process of one order is a process of the other
    assert forall|p: int| 0 <= p < ps1.len() implies #[trigger] ps2.contains(ps1[p]) by {
        assert(ps1.contains(ps1[p]));
        assert(ps1.to_multiset().count(ps1[p]) > 0);
    }
    assert forall|p: int| 0 <= p < ps2.len() implies #[trigger] ps1.contains(ps2[p]) by {
        assert(ps2.contains(ps2[p]));
        assert(ps2.to_multiset().count(ps2[p]) > 0);
    }
    assert forall|x: u64| #[trigger]
        assigned_inodes(ps1).contains(x) implies assigned_inodes(ps2).contains(x) by {
        let i = choose|i: int| 0 <= i < assigned_inodes(ps1).len() && assigned_inodes(ps1)[i] == x;
        let (p, t) = choose|p: int, t: int|
            0 <= p < ps1.len() && 0 <= t < 8 && #[trigger] ps1[p].ns_ids@[t] == x && ps1[p].pid
                == assigned_namespaces(ps1)[i].representative_pid->0;
        assert(ps2.contains(ps1[p]));
        let q = choose|q: int| 0 <= q < ps2.len() && ps2[q] == ps1[p];
        assert(ps2[q].ns_ids@[t] != 0);
    }
    assert forall|x: u64| #[trigger]
        assigned_inodes(ps2).contains(x) implies assigned_inodes(ps1).contains(x) by {
        let i = choose|i: int| 0 <= i < assigned_inodes(ps2).len() && assigned_inodes(ps2)[i] == x;
        let (p, t) = choose|p: int, t: int|
            0 <= p < ps2.len() && 0 <= t < 8 && #[trigger] ps2[p].ns_ids@[t] == x && ps2[p].pid
                == assigned_namespaces(ps2)[i].representative_pid->0;
        assert(ps1.contains(ps2[p]));
        let q = choose|q: int| 0 <= q < ps1.len() && ps1[q] == ps2[p];
        assert(ps1[q].ns_ids@[t] != 0);
    }
    assert forall|i: int, j: int|
        0 <= i < assigned_inodes(ps1).len() && 0 <= j < assigned_inodes(ps2).len()
            && #[trigger] assigned_inodes(ps1)[i] == #[trigger] assigned_inodes(ps2)[j] implies {
        let n1 = assigned_namespaces(ps1)[i];
        let n2 = assigned_namespaces(ps2)[j];
        &&& n1.id == n2.id
        &&& n1.nprocs == n2.nprocs
        &&& n1.representative_pid == n2.representative_pid
    } by {
        let x = assigned_inodes(ps1)[i];
        let n1 = assigned_namespaces(ps1)[i];
        let n2 = assigned_namespaces(ps2)[j];
        lemma_procs_with_reordered(ps1, ps2, x);
        let (p1, t1) = choose|p: int, t: int|
            0 <= p < ps1.len() && 0 <= t < 8 && #[trigger] ps1[p].ns_ids@[t] == x && ps1[p].pid
                == n1.representative_pid->0;
        let (p2, t2) = choose|p: int, t: int|
            0 <= p < ps2.len() && 0 <= t < 8 && #[trigger] ps2[p].ns_ids@[t] == x && ps2[p].pid
                == n2.representative_pid->0;
        assert(ps2.contains(ps1[p1]));
        let q1 = choose|q: int| 0 <= q < ps2.len() && ps2[q] == ps1[p1];
        assert(ps2[q1].ns_ids@[t1] == x);
        assert(n2.representative_pid->0 <= ps2[q1].pid);
        assert(ps1.contains(ps2[p2]));
        let q2 = choose|q: int| 0 <= q < ps1.len() && ps1[q] == ps2[p2];
        assert(ps1[q2].ns_ids@[t2] == x);
        assert(n1.representative_pid->0 <= ps1[q2].pid);
    }
}

/// `first_slot` is the earliest slot of `x`.
pub proof fn lemma_first_slot(s: Seq<Slot>, x: u64)
    requires
        count_inode(s, x) > 0,
    ensures
        exists|j: int|
            0 <= j < s.len() && #[trigger] s[j] == first_slot(s, x) && s[j].inode == x && forall|
                k: int,
            | 0 <= k < j ==> s[k].inode != x,
    decreases s.len(),
{
    let d = s.drop_last();
    if s.last().inode == x && count_inode(d, x) == 0 {
        lemma_count_positive(d, x);
        let j = s.len() - 1;
        assert(s[j] == first_slot(s, x));
        assert forall|k: int| 0 <= k < j implies s[k].inode != x by {
            assert(d[k] == s[k]);
        }
    } else {
        lemma_first_slot(d, x);
        let j = choose|j: int|
            0 <= j < d.len() && #[trigger] d[j] == first_slot(d, x) && d[j].inode == x && forall|
                k: int,
            | 0 <= k < j ==> d[k].inode != x;
        assert(s[j] == first_slot(s, x));
        assert forall|k: int| 0 <= k < j implies s[k].inode != x by {
            assert(d[k] == s[k]);
        }
    }
}

/// Each listed namespace takes its kind, UID and network namespace ID from
/// where its inode is first met: the first process that holds it (in list
/// order), under the first kind (in `NSNAMES` order) of that process that
/// holds it. Its kind is that kind; its UID that process's; its network
/// namespace ID that process's for the network kind, else unusable.
pub proof fn lemma_grouping_kind(ps: Seq<Process>)
    ensures
        forall|i: int|
            0 <= i < assigned_inodes(ps).len() ==> exists|p: int, t: int|
                #![trigger ps[p].ns_ids@[t]]
                0 <= p < ps.len() && 0 <= t < 8 && ps[p].ns_ids@[t] == assigned_inodes(ps)[i]
                    && (forall|p2: int, t2: int|
                    0 <= p2 < ps.len() && 0 <= t2 < 8 && (p2 < p || (p2 == p && t2 < t))
                        ==> #[trigger] ps[p2].ns_ids@[t2] != assigned_inodes(ps)[i]) && {
                    let n = #[trigger] assigned_namespaces(ps)[i];
                    &&& n.ns_type.index_of() == t
                    &&& n.uid_fallback == ps[p].uid
                    &&& n.netnsid == if t == 3 {
                        ps[p].netnsid
                    } else {
                        LSNS_NETNS_UNUSABLE
                    }
                },
{
    let s = slots(ps);
    lemma_seen_inodes(s);
    assert forall|i: int| 0 <= i < assigned_inodes(ps).len() implies exists|p: int, t: int|
        #![trigger ps[p].ns_ids@[t]]
        0 <= p < ps.len() && 0 <= t < 8 && ps[p].ns_ids@[t] == assigned_inodes(ps)[i] && (forall|
            p2: int,
            t2: int,
        |
            0 <= p2 < ps.len() && 0 <= t2 < 8 && (p2 < p || (p2 == p && t2 < t))
                ==> #[trigger] ps[p2].ns_ids@[t2] != assigned_inodes(ps)[i]) && {
            let n = #[trigger] assigned_namespaces(ps)[i];
            &&& n.ns_type.index_of() == t
            &&& n.uid_fallback == ps[p].uid
            &&& n.netnsid == if t == 3 {
                ps[p].netnsid
            } else {
                LSNS_NETNS_UNUSABLE
            }
        } by {
        let x = assigned_inodes(ps)[i];
        assert(seen_inodes(s).contains(x));
        lemma_first_slot(s, x);
        let j = choose|j: int|
            0 <= j < s.len() && #[trigger] s[j] == first_slot(s, x) && s[j].inode == x && forall|
                k: int,
            | 0 <= k < j ==> s[k].inode != x;
        lemma_slot_origin(ps, j);
        let (p, t) = choose|p: int, t: int|
            0 <= p < ps.len() && 0 <= t < 8 && j == 8 * p + t && #[trigger] slots(ps)[j]
                == slot_of(ps[p], t);
        assert(ps[p].ns_ids@[t] == x);
        let n = assigned_namespaces(ps)[i];
        assert(n == namespace_of(s, x));
        assert(NamespaceType::spec_from_index(t).index_of() == t);
        assert forall|p2: int, t2: int|
            0 <= p2 < ps.len() && 0 <= t2 < 8 && (p2 < p || (p2 == p && t2 < t)) implies #[trigger] ps[p2].ns_ids@[t2]
            != x by {
            lemma_slot_index(ps, p2, t2);
            assert(8 * p2 + t2 < j);
            assert(s[8 * p2 + t2].inode != x);
        }
    }
}

/// A check that the process counts fit in `u32`: true where there are at
/// most `u32::MAX` processes, which is then the case.
pub fn counts_fit_for(procs: &Vec<Process>) -> (r: bool)
    ensures
        r == (procs.len() <= u32::MAX),
        r ==> counts_fit(procs@),
{
    let r = procs.len() <= 0xFFFF_FFFF;
    proof {
        if r {
            assert forall|x: u64| x != 0 implies #[trigger] procs_with(procs@, x) <= u32::MAX by {
                lemma_procs_with_le_len(procs@, x);
            }
        }
    }
    r
}

// ---------------------------------------------------------------- grouping

/// The state of the grouping after the slots `s`: the namespaces found so far
/// follow the namespaces there were before, and `map` gives each found inode
/// the position of its namespace.
pub open spec fn grouping_state(
    ns: Seq<Namespace>,
    before: Seq<Namespace>,
    map: Map<u64, usize>,
    s: Seq<Slot>,
) -> bool {
    let d = seen_inodes(s);
    &&& ns == before + namespaces_of(s)
    &&& forall|x: u64| #[trigger] map.contains_key(x) <==> d.contains(x)
    &&& forall|i: int| 0 <= i < d.len() ==> map[#[trigger] d[i]] == before.len() + i
}

/// Groups the processes by namespace: appends one namespace per distinct
/// nonzero namespace inode of the processes, in the order in which the
/// inodes are first met (process by process, each kind in order), with
/// the number of processes that hold it (each counted once), its lowest PID
/// and the kind, UID and network namespace ID of the process where it was
/// first met.
pub fn read_assigned_namespaces(lsns: &mut Lsns)
    requires
        counts_fit(old(lsns).processes@),
    ensures
        final(lsns).processes@ == old(lsns).processes@,
        final(lsns).namespaces@ == old(lsns).namespaces@ + assigned_namespaces(
            old(lsns).processes@,
        ),
{
    let mut namespace_map: HashMap<u64, usize> = HashMap::new();
    let ghost procs = lsns.processes@;
    let ghost before = lsns.namespaces@;
    let ghost mut seen: Seq<Slot> = Seq::empty();
    let n = lsns.processes.len();
    proof {
        assert(procs.take(0) =~= Seq::<Process>::empty());
        assert(namespaces_of(seen) =~= Seq::<Namespace>::empty());
        assert(lsns.namespaces@ =~= before + namespaces_of(seen));
    }
    let mut proc_idx: usize = 0;
    while proc_idx < n
        invariant
            n == procs.len(),
            proc_idx <= n,
            lsns.processes@ == procs,
            counts_fit(procs),
            seen == slots(procs.take(proc_idx as int)),
            grouping_state(lsns.namespaces@, before, namespace_map@, seen),
        decreases n - proc_idx,
    {
        let ns_ids: [u64; 8] = lsns.processes[proc_idx].ns_ids;
        let pid: u32 = lsns.processes[proc_idx].pid;
        let uid: u32 = lsns.processes[proc_idx].uid;
        let proc_netnsid: i32 = lsns.processes[proc_idx].netnsid;
        let ghost start = seen;
        let ghost ps = process_slots(procs[proc_idx as int]);
        proof {
            lemma_slots_step(procs, proc_idx as int);
            lemma_slots_prefix(procs, proc_idx as int + 1);
            assert(ps.take(0) =~= Seq::<Slot>::empty());
            assert(seen =~= start + ps.take(0));
        }
        let mut ns_type_idx: usize = 0;
        while ns_type_idx < NS_COUNT
            invariant
                n == procs.len(),
                proc_idx < n,
                ns_type_idx <= NS_COUNT,
                lsns.processes@ == procs,
                counts_fit(procs),
                ps == process_slots(procs[proc_idx as int]),
                ns_ids@ == procs[proc_idx as int].ns_ids@,
                pid == procs[proc_idx as int].pid,
                uid == procs[proc_idx as int].uid,
                proc_netnsid == procs[proc_idx as int].netnsid,
                start == slots(procs.take(proc_idx as int)),
                slots(procs.take(proc_idx + 1)) == start + ps,
                slots(procs).take(slots(procs.take(proc_idx + 1)).len() as int) == slots(
                    procs.take(proc_idx + 1),
                ),
                slots(procs.take(proc_idx + 1)).len() <= slots(procs).len(),
                seen == start + ps.take(ns_type_idx as int),
                grouping_state(lsns.namespaces@, before, namespace_map@, seen),
            decreases NS_COUNT - ns_type_idx,
        {
            let ns_inode: u64 = ns_ids[ns_type_idx];
            let ghost t = slot_of(procs[proc_idx as int], ns_type_idx as int);
            let ghost prev = seen;
            proof {
                assert(ps[ns_type_idx as int] == t);
                assert(ps.take(ns_type_idx + 1) =~= ps.take(ns_type_idx as int).push(t));
                seen = seen.push(t);
                assert(seen =~= start + ps.take(ns_type_idx + 1));
                lemma_seen_inodes(prev);
                lemma_seen_inodes(seen);
                assert(seen.drop_last() =~= prev);
            }
            let mut repeat = false;
            let mut u: usize = 0;
            while u < ns_type_idx
                invariant
                    u <= ns_type_idx,
                    ns_type_idx < NS_COUNT,
                    ns_inode == ns_ids@[ns_type_idx as int],
                    repeat == exists|v: int| 0 <= v < u && ns_ids@[v] == ns_inode,
                decreases ns_type_idx - u,
            {
                if ns_ids[u] == ns_inode {
                    repeat = true;
                }
                u += 1;
            }
            assert(repeat == t.repeat);
            if ns_inode != 0 {
                let ghost d = seen_inodes(prev);
                let got = namespace_map.get(&ns_inode);
                match got {
                    Some(idx_ref) => {
                        let idx: usize = *idx_ref;
                        proof {
                            assert(d.contains(ns_inode));
                            let i = choose|i: int| 0 <= i < d.len() && d[i] == ns_inode;
                            assert(namespace_map@[d[i]] == before.len() + i);
                            // the slot count of this inode stays within u32
                            let l = seen.len() as int;
                            let whole = slots(procs.take(proc_idx + 1));
                            assert(seen =~= whole.take(l)) by {
                                assert(whole == start + ps);
                            }
                            assert(l <= whole.len());
                            assert(slots(procs).take(whole.len() as int) == whole);
                            assert(slots(procs).take(l) =~= whole.take(l));
                            lemma_count_prefix(slots(procs), l, ns_inode);
                            lemma_count_procs_slots(procs, ns_inode);
                            assert(procs_with(procs, ns_inode) <= u32::MAX);
                            lemma_push_same(prev, t);
                        }
                        let mut ns = lsns.namespaces[idx];
                        if !repeat {
                            ns.nprocs = ns.nprocs + 1;
                        }
                        let should_update = match ns.representative_pid {
                            None => true,
                            Some(current_pid) => pid < current_pid,
                        };
                        if should_update {
                            ns.representative_pid = Some(pid);
                        }
                        lsns.namespaces.set(idx, ns);
                        proof {
                            let i = idx - before.len();
                            assert(seen_inodes(seen) == d);
                            assert forall|k: int| 0 <= k < d.len() implies #[trigger] namespace_of(
                                seen,
                                d[k],
                            ) == if k == i {
                                ns
                            } else {
                                namespace_of(prev, d[k])
                            } by {
                                if k != i {
                                    lemma_push_other(prev, t, d[k]);
                                }
                            }
                            assert(lsns.namespaces@ =~= before + namespaces_of(seen));
                        }
                    },
                    None => {
                        proof {
                            assert(!d.contains(ns_inode));
                            if t.repeat {
                                let v = choose|v: int|
                                    0 <= v < ns_type_idx && ns_ids@[v] == ns_inode;
                                assert(prev[start.len() + v] == ps[v]);
                                assert(prev[start.len() + v].inode == ns_inode);
                                lemma_count_positive(prev, ns_inode);
                                assert(false);
                            }
                            lemma_push_new(prev, t);
                        }
                        let netnsid = if ns_type_idx == 3 {
                            proc_netnsid
                        } else {
                            LSNS_NETNS_UNUSABLE
                        };
                        let namespace = Namespace {
                            id: ns_inode as u32,
                            ns_type: NamespaceType::from_index(ns_type_idx),
                            nprocs: 1,
                            netnsid,
                            representative_pid: Some(pid),
                            uid_fallback: uid,
                        };
                        let idx = lsns.namespaces.len();
                        lsns.namespaces.push(namespace);
                        namespace_map.insert(ns_inode, idx);
                        proof {
                            assert(seen_inodes(seen) == d.push(ns_inode));
                            assert forall|k: int| 0 <= k < d.len() implies #[trigger] namespace_of(
                                seen,
                                d[k],
                            ) == namespace_of(prev, d[k]) by {
                                lemma_push_other(prev, t, d[k]);
                            }
                            assert(namespace_of(seen, ns_inode) == namespace);
                            assert(lsns.namespaces@ =~= before + namespaces_of(seen));
                            let d2 = d.push(ns_inode);
                            assert forall|x: u64| #[trigger]
                                namespace_map@.contains_key(x) <==> d2.contains(x) by {
                                if x == ns_inode {
                                    assert(d2[d.len() as int] == x);
                                }
                            }
                            assert forall|k: int| 0 <= k < d2.len() implies namespace_map@[
                                #[trigger] d2[k]] == before.len() + k by {
                                if k < d.len() {
                                    assert(d2[k] == d[k]);
                                    assert(d.contains(d[k]));
                                }
                            }
                        }
                    },
                }
            } else {
                proof {
                    assert(seen_inodes(seen) == seen_inodes(prev));
                    assert forall|k: int| 0 <= k < seen_inodes(prev).len() implies #[trigger] namespace_of(
                        seen,
                        seen_inodes(prev)[k],
                    ) == namespace_of(prev, seen_inodes(prev)[k]) by {
                        assert(seen_inodes(prev).contains(seen_inodes(prev)[k]));
                        lemma_push_other(prev, t, seen_inodes(prev)[k]);
                    }
                    assert(namespaces_of(seen) =~= namespaces_of(prev));
                }
            }
            ns_type_idx += 1;
        }
        proof {
            assert(ps.take(8) =~= ps);
        }
        proc_idx += 1;
    }
    proof {
        assert(procs.take(n as int) =~= procs);
    }
}

} // verus!
