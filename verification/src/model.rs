//! The data model: processes, namespace kinds and namespaces.

use vstd::prelude::*;

verus! {

/// The network namespace ID of a namespace that has none.
pub const LSNS_NETNS_UNUSABLE: i32 = -2;

/// The number of namespace kinds.
pub const NS_COUNT: usize = 8;

/// The kinds of Linux namespaces, in the order of `NSNAMES`.
#[derive(Debug, Clone, Copy, PartialEq, Eq, Structural)]
pub enum NamespaceType {
    Cgroup,
    Ipc,
    Mnt,
    Net,
    Pid,
    User,
    Uts,
    Time,
}

impl NamespaceType {
    /// The kind at position `idx` of `NSNAMES`.
    pub open spec fn spec_from_index(idx: int) -> NamespaceType {
        if idx == 0 {
            NamespaceType::Cgroup
        } else if idx == 1 {
            NamespaceType::Ipc
        } else if idx == 2 {
            NamespaceType::Mnt
        } else if idx == 3 {
            NamespaceType::Net
        } else if idx == 4 {
            NamespaceType::Pid
        } else if idx == 5 {
            NamespaceType::User
        } else if idx == 6 {
            NamespaceType::Uts
        } else {
            NamespaceType::Time
        }
    }

    /// The position of this kind in `NSNAMES`.
    pub open spec fn index_of(self) -> nat {
        match self {
            NamespaceType::Cgroup => 0,
            NamespaceType::Ipc => 1,
            NamespaceType::Mnt => 2,
            NamespaceType::Net => 3,
            NamespaceType::Pid => 4,
            NamespaceType::User => 5,
            NamespaceType::Uts => 6,
            NamespaceType::Time => 7,
        }
    }

    /// Converts a namespace type index to its kind.
    pub fn from_index(idx: usize) -> (r: Self)
        requires
            idx < NS_COUNT,
        ensures
            r == Self::spec_from_index(idx as int),
            r.index_of() == idx,
    {
        match idx {
            0 => NamespaceType::Cgroup,
            1 => NamespaceType::Ipc,
            2 => NamespaceType::Mnt,
            3 => NamespaceType::Net,
            4 => NamespaceType::Pid,
            5 => NamespaceType::User,
            6 => NamespaceType::Uts,
            _ => NamespaceType::Time,
        }
    }

    /// The position of this kind in `NSNAMES`.
    pub fn index(&self) -> (r: usize)
        ensures
            r == self.index_of(),
            r < NS_COUNT,
    {
        match self {
            NamespaceType::Cgroup => 0,
            NamespaceType::Ipc => 1,
            NamespaceType::Mnt => 2,
            NamespaceType::Net => 3,
            NamespaceType::Pid => 4,
            NamespaceType::User => 5,
            NamespaceType::Uts => 6,
            NamespaceType::Time => 7,
        }
    }
}

/// `spec_from_index` and `index_of` undo each other on the eight kinds.
pub proof fn lemma_index_roundtrip(t: NamespaceType, idx: int)
    requires
        0 <= idx < 8,
    ensures
        NamespaceType::spec_from_index(idx).index_of() == idx,
        NamespaceType::spec_from_index(t.index_of() as int) == t,
{
}

/// What is known of one process.
pub struct Process {
    /// Process ID.
    pub pid: u32,
    /// Parent's PID.
    pub ppid: u32,
    /// Thread group ID.
    pub tpid: u32,
    /// Process state (R, S, D, Z, T, ...).
    pub state: char,
    /// The user that owns the process.
    pub uid: u32,
    /// Namespace inode of each kind (0: not present).
    pub ns_ids: [u64; 8],
    /// Parent namespace inode of each kind.
    pub ns_pids: [u64; 8],
    /// Owner namespace inode of each kind.
    pub ns_oids: [u64; 8],
    /// Network namespace ID.
    pub netnsid: i32,
    /// Sibling namespaces of each kind.
    pub ns_siblings: [Vec<String>; 8],
    /// Command name.
    pub command: String,
}

impl Process {
    /// A process record with every field zero or empty.
    pub fn new() -> (r: Self)
        ensures
            r.pid == 0,
            r.ppid == 0,
            r.tpid == 0,
            r.state == ' ',
            r.uid == 0,
            forall|i: int| 0 <= i < 8 ==> r.ns_ids@[i] == 0,
            forall|i: int| 0 <= i < 8 ==> r.ns_pids@[i] == 0,
            forall|i: int| 0 <= i < 8 ==> r.ns_oids@[i] == 0,
            r.netnsid == 0,
            forall|i: int| 0 <= i < 8 ==> r.ns_siblings@[i]@.len() == 0,
            r.command@.len() == 0,
    {
        Process {
            pid: 0,
            ppid: 0,
            tpid: 0,
            state: ' ',
            uid: 0,
            ns_ids: [0u64; 8],
            ns_pids: [0u64; 8],
            ns_oids: [0u64; 8],
            netnsid: 0,
            ns_siblings: [
                Vec::new(),
                Vec::new(),
                Vec::new(),
                Vec::new(),
                Vec::new(),
                Vec::new(),
                Vec::new(),
                Vec::new(),
            ],
            command: String::new(),
        }
    }
}

/// One namespace, as listed.
#[derive(Debug, Clone, Copy)]
pub struct Namespace {
    /// Namespace ID (its inode, truncated to 32 bits).
    pub id: u32,
    /// Namespace kind.
    pub ns_type: NamespaceType,
    /// Number of processes in this namespace.
    pub nprocs: u32,
    /// Network namespace ID.
    pub netnsid: i32,
    /// The lowest PID found in the namespace, if any process is.
    pub representative_pid: Option<u32>,
    /// The UID shown when no representative process is found.
    pub uid_fallback: u32,
}

/// The processes read and the namespaces gathered from them.
pub struct Lsns {
    pub processes: Vec<Process>,
    pub namespaces: Vec<Namespace>,
}

} // verus!
