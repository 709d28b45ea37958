//! Gathering the namespace list: from the processes, then from the mount
//! table, then in order of ID.

use vstd::prelude::*;
use crate::assign::{
    assigned_inodes, assigned_namespaces, counts_fit, lemma_grouping, read_assigned_namespaces,
};
use crate::model::{Lsns, Namespace, Process};
use crate::mount::{
    lemma_persistent_ids_distinct, lines, mount_inodes_fit, persistent_namespaces,
    read_persistent_namespaces,
};
use crate::order::{
    ids_distinct, is_stable_sort_by_id, lemma_stable_sort_distinct, sort_namespaces_by_id,
};

verus! {

/// The namespaces before sorting: those there were, then those of the
/// processes, then the bind-mounted ones of the mount table (where it could
/// be read).
pub open spec fn gathered_namespaces(
    ns: Seq<Namespace>,
    procs: Seq<Process>,
    mountinfo: Option<Seq<char>>,
) -> Seq<Namespace> {
    let a = ns + assigned_namespaces(procs);
    match mountinfo {
        Some(m) => persistent_namespaces(a, m),
        None => a,
    }
}

/// Organizes the processes into namespaces: groups them by namespace, adds
/// the bind-mounted namespaces of the mount table `mountinfo` (`None` where
/// it could not be read), and sorts the list by namespace ID, stably.
pub fn read_namespaces(lsns: &mut Lsns, mountinfo: Option<&str>)
    requires
        counts_fit(old(lsns).processes@),
    ensures
        final(lsns).processes@ == old(lsns).processes@,
        is_stable_sort_by_id(
            final(lsns).namespaces@,
            gathered_namespaces(
                old(lsns).namespaces@,
                old(lsns).processes@,
                match mountinfo {
                    Some(m) => Some(m@),
                    None => None,
                },
            ),
        ),
{
    read_assigned_namespaces(lsns);
    if let Some(m) = mountinfo {
        read_persistent_namespaces(lsns, m);
    }
    sort_namespaces_by_id(&mut lsns.namespaces);
}


/// Starting from no namespaces, the list comes out by strictly increasing
/// ID, so no namespace is listed twice, where every inode of the processes
/// and of the mount table fits in 32 bits (an ID is an inode truncated to
/// 32 bits).
pub proof fn lemma_read_namespaces_ids_increase(
    procs: Seq<Process>,
    mountinfo: Option<Seq<char>>,
    out: Seq<Namespace>,
)
    requires
        counts_fit(procs),
        forall|p: int, t: int|
            0 <= p < procs.len() && 0 <= t < 8 ==> #[trigger] procs[p].ns_ids@[t] <= u32::MAX,
        mountinfo matches Some(m) ==> mount_inodes_fit(lines(m)),
        is_stable_sort_by_id(out, gathered_namespaces(Seq::empty(), procs, mountinfo)),
    ensures
        forall|i: int, j: int| 0 <= i < j < out.len() ==> out[i].id < out[j].id,
{
    lemma_grouping(procs);
    let a = assigned_namespaces(procs);
    let xs = assigned_inodes(procs);
    assert forall|i: int, j: int| 0 <= i < j < a.len() implies a[i].id != a[j].id by {
        let xi = xs[i];
        let xj = xs[j];
        let (p, t) = choose|p: int, t: int|
            0 <= p < procs.len() && 0 <= t < 8 && #[trigger] procs[p].ns_ids@[t] == xi
                && procs[p].pid == a[i].representative_pid->0;
        let (q, u) = choose|p: int, t: int|
            0 <= p < procs.len() && 0 <= t < 8 && #[trigger] procs[p].ns_ids@[t] == xj
                && procs[p].pid == a[j].representative_pid->0;
        assert(xi <= u32::MAX && xj <= u32::MAX);
        assert(xi != xj);
        assert((xi as u32) as u64 == xi);
        assert((xj as u32) as u64 == xj);
    }
    assert(Seq::<Namespace>::empty() + a =~= a);
    let g = gathered_namespaces(Seq::empty(), procs, mountinfo);
    match mountinfo {
        Some(m) => {
            lemma_persistent_ids_distinct(a, m);
        },
        None => {},
    }
    assert(ids_distinct(g));
    lemma_stable_sort_distinct(out, g);
}

} // verus!
