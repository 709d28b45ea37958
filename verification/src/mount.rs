//! Persistent namespaces: those that the mount table shows bind-mounted
//! (`nsfs` mounts), read from `/proc/self/mountinfo` text.

use vstd::prelude::*;
use crate::model::{Lsns, Namespace, NamespaceType, LSNS_NETNS_UNUSABLE, NS_COUNT};
use crate::order::ids_distinct;
use crate::text::{
    decimal, is_digit, lemma_decimal_roundtrip, lemma_find_from_at, copy_range, find_first,
    find_from, index_of_first, index_of_from, lemma_find_from, parse_u64, parse_unsigned,
    split_whitespace, str_chars, tokens, views,
};

verus! {

// ---------------------------------------------------------------- lines

/// A line without the `\r` that ended it, if one did.
pub open spec fn strip_cr(l: Seq<char>) -> Seq<char> {
    if l.len() > 0 && l.last() == '\r' {
        l.drop_last()
    } else {
        l
    }
}

/// `str::lines`: the text split at each `\n`, a `\r` just before a `\n`
/// dropped, and no empty line after a final `\n`.
pub open spec fn lines(s: Seq<char>) -> Seq<Seq<char>>
    decreases s.len(),
{
    match find_first(s, '\n') {
        Some(j) => {
            proof {
                lemma_find_from(s, '\n', 0);
            }
            seq![strip_cr(s.take(j))] + lines(s.skip(j + 1))
        },
        None => if s.len() == 0 {
            Seq::empty()
        } else {
            seq![s]
        },
    }
}

/// Splits `s` into its lines, as `str::lines` does.
pub fn split_lines(s: &Vec<char>) -> (r: Vec<Vec<char>>)
    ensures
        views(r@) == lines(s@),
{
    let mut r: Vec<Vec<char>> = Vec::new();
    let mut pos: usize = 0;
    assert(s@.skip(0) =~= s@);
    assert(views(r@) =~= Seq::<Seq<char>>::empty());
    loop
        invariant
            pos <= s.len(),
            lines(s@) == views(r@) + lines(s@.skip(pos as int)),
        decreases s.len() - pos,
    {
        let ghost rest = s@.skip(pos as int);
        match index_of_from(s, '\n', pos) {
            Some(j) => {
                let mut end = j;
                if end > pos && s[end - 1] == '\r' {
                    end = end - 1;
                }
                let line = copy_range(s, pos, end);
                proof {
                    assert(rest.take(j - pos) =~= s@.subrange(pos as int, j as int));
                    assert(line@ == strip_cr(rest.take(j - pos)));
                    assert(rest.skip(j - pos + 1) =~= s@.skip(j + 1));
                    assert(views(r@.push(line)) =~= views(r@).push(line@));
                }
                r.push(line);
                pos = j + 1;
            },
            None => {
                if pos < s.len() {
                    let line = copy_range(s, pos, s.len());
                    proof {
                        assert(views(r@.push(line)) =~= views(r@).push(line@));
                    }
                    r.push(line);
                }
                return r;
            },
        }
    }
}


/// Whether `a` and `b` hold the same characters.
pub fn chars_eq(a: &Vec<char>, b: &Vec<char>) -> (r: bool)
    ensures
        r == (a@ == b@),
{
    if a.len() != b.len() {
        return false;
    }
    let mut i: usize = 0;
    while i < a.len()
        invariant
            a.len() == b.len(),
            i <= a.len(),
            forall|k: int| 0 <= k < i ==> a@[k] == b@[k],
        decreases a.len() - i,
    {
        if a[i] != b[i] {
            return false;
        }
        i += 1;
    }
    assert(a@ =~= b@);
    true
}

// ---------------------------------------------------------------- names

/// The name of each namespace kind, by index (`NSNAMES`).
pub open spec fn ns_name(t: int) -> Seq<char> {
    if t == 0 {
        seq!['c', 'g', 'r', 'o', 'u', 'p']
    } else if t == 1 {
        seq!['i', 'p', 'c']
    } else if t == 2 {
        seq!['m', 'n', 't']
    } else if t == 3 {
        seq!['n', 'e', 't']
    } else if t == 4 {
        seq!['p', 'i', 'd']
    } else if t == 5 {
        seq!['u', 's', 'e', 'r']
    } else if t == 6 {
        seq!['u', 't', 's']
    } else {
        seq!['t', 'i', 'm', 'e']
    }
}

/// The name of the namespace kind at index `t`.
pub fn ns_name_chars(t: usize) -> (r: Vec<char>)
    requires
        t < NS_COUNT,
    ensures
        r@ == ns_name(t as int),
{
    let r = match t {
        0 => vec!['c', 'g', 'r', 'o', 'u', 'p'],
        1 => vec!['i', 'p', 'c'],
        2 => vec!['m', 'n', 't'],
        3 => vec!['n', 'e', 't'],
        4 => vec!['p', 'i', 'd'],
        5 => vec!['u', 's', 'e', 'r'],
        6 => vec!['u', 't', 's'],
        _ => vec!['t', 'i', 'm', 'e'],
    };
    assert(r@ =~= ns_name(t as int));
    r
}

/// The first index `>= t` whose kind is named `name`.
pub open spec fn ns_index_from(name: Seq<char>, t: int) -> Option<int>
    decreases 8 - t,
{
    if t < 0 || t >= 8 {
        None
    } else if ns_name(t) == name {
        Some(t)
    } else {
        ns_index_from(name, t + 1)
    }
}

/// The index of the kind named `name`, if one is.
pub open spec fn ns_index(name: Seq<char>) -> Option<int> {
    ns_index_from(name, 0)
}

/// Looks up the index of the kind named `name`.
pub fn ns_index_of(name: &Vec<char>) -> (r: Option<usize>)
    ensures
        r matches Some(t) ==> ns_index(name@) == Some(t as int) && t < NS_COUNT,
        r is None ==> ns_index(name@) is None,
{
    let mut t: usize = 0;
    while t < NS_COUNT
        invariant
            t <= NS_COUNT,
            ns_index(name@) == ns_index_from(name@, t as int),
        decreases NS_COUNT - t,
    {
        let n = ns_name_chars(t);
        if chars_eq(&n, name) {
            return Some(t);
        }
        t += 1;
    }
    None
}

// ---------------------------------------------------------------- inodes

/// The inode in a mount root `type:[inode]`: the text between the first `[`
/// and the first `]`, read as a `u64`; none where a bracket is missing or
/// the first `]` comes before the first `[`.
pub open spec fn spec_parse_namespace_inode(root: Seq<char>) -> Option<u64> {
    match (find_first(root, '['), find_first(root, ']')) {
        (Some(a), Some(b)) => if a < b {
            match parse_unsigned(root.subrange(a + 1, b), u64::MAX as nat) {
                Some(v) => Some(v as u64),
                None => None,
            }
        } else {
            None
        },
        _ => None,
    }
}

/// A mount root `name:[inode]`, as the kernel writes it.
pub open spec fn mount_root_text(name: Seq<char>, inode: u64) -> Seq<char> {
    name + seq![':', '['] + decimal(inode as nat) + seq![']']
}

/// Reading a mount root `name:[inode]` gives back its inode and its kind
/// name, where the name holds no `:`, `[` or `]`.
pub proof fn lemma_mount_root_roundtrip(name: Seq<char>, inode: u64)
    requires
        forall|k: int| 0 <= k < name.len() ==> name[k] != ':' && name[k] != '[' && name[k] != ']',
    ensures
        spec_parse_namespace_inode(mount_root_text(name, inode)) == Some(inode),
        root_type_name(mount_root_text(name, inode)) == name,
{
    let s = mount_root_text(name, inode);
    let d = decimal(inode as nat);
    lemma_decimal_roundtrip(inode as nat);
    let l = name.len() as int;
    assert(forall|k: int| 0 <= k < d.len() ==> is_digit(#[trigger] d[k]));
    assert forall|k: int| 0 <= k < l + 2 + d.len() implies s[k] != ']' && (k < l ==> s[k] != ':')
        && (k < l + 1 ==> s[k] != '[') by {
        if k < l {
            assert(s[k] == name[k]);
        } else if k >= l + 2 {
            assert(s[k] == d[k - l - 2]);
        }
    }
    assert(s[l] == ':');
    assert(s[l + 1] == '[');
    assert(s[l + 2 + d.len()] == ']');
    lemma_find_from_at(s, ':', 0, l);
    lemma_find_from_at(s, '[', 0, l + 1);
    lemma_find_from_at(s, ']', 0, l + 2 + d.len());
    assert(s.subrange(l + 2, l + 2 + d.len()) =~= d);
    assert(s.take(l) =~= name);
}

/// Reads the inode from the characters of a mount root.
pub fn parse_namespace_inode_chars(root: &Vec<char>) -> (r: Option<u64>)
    ensures
        r == spec_parse_namespace_inode(root@),
{
    let start = match index_of_first(root, '[') {
        Some(p) => p,
        None => return None,
    };
    let end = match index_of_first(root, ']') {
        Some(p) => p,
        None => return None,
    };
    proof {
        lemma_find_from(root@, '[', 0);
        lemma_find_from(root@, ']', 0);
    }
    if end <= start {
        return None;
    }
    let inode_str = copy_range(root, start + 1, end);
    parse_u64(&inode_str)
}

/// Parses the namespace inode from a mount root such as `net:[4026531992]`.
pub fn parse_namespace_inode(mount_root: &str) -> (r: Option<u64>)
    ensures
        r == spec_parse_namespace_inode(mount_root@),
{
    let root = str_chars(mount_root);
    parse_namespace_inode_chars(&root)
}

/// Some namespace of `ns` has an ID that equals `inode`.
pub open spec fn has_namespace(ns: Seq<Namespace>, inode: u64) -> bool {
    exists|i: int| 0 <= i < ns.len() && ns[i].id as u64 == inode
}

/// Whether a namespace with this inode is already listed.
pub fn namespace_exists(lsns: &Lsns, ns_inode: u64) -> (r: bool)
    ensures
        r == has_namespace(lsns.namespaces@, ns_inode),
{
    let mut i: usize = 0;
    while i < lsns.namespaces.len()
        invariant
            i <= lsns.namespaces.len(),
            forall|k: int| 0 <= k < i ==> lsns.namespaces@[k].id as u64 != ns_inode,
        decreases lsns.namespaces.len() - i,
    {
        if lsns.namespaces[i].id as u64 == ns_inode {
            return true;
        }
        i += 1;
    }
    false
}

// ---------------------------------------------------------------- mount table

/// The field `-`.
pub open spec fn dash() -> Seq<char> {
    seq!['-']
}

/// The filesystem type `nsfs`.
pub open spec fn nsfs() -> Seq<char> {
    seq!['n', 's', 'f', 's']
}

/// The mount root (fourth field) of a mount-table line of at least nine
/// fields whose filesystem type, the field after the first `-`, is `nsfs`.
pub open spec fn nsfs_root(fields: Seq<Seq<char>>) -> Option<Seq<char>> {
    if fields.len() < 9 {
        None
    } else {
        match find_first(fields, dash()) {
            Some(sep) => if sep + 1 < fields.len() && fields[sep + 1] == nsfs() {
                Some(fields[3])
            } else {
                None
            },
            None => None,
        }
    }
}

/// A line is an `nsfs` mount exactly when it has at least nine fields, a
/// field `-`, and the field after the first `-` is `nsfs`; its root is then
/// its fourth field.
pub proof fn lemma_nsfs_root(fields: Seq<Seq<char>>)
    ensures
        nsfs_root(fields) is Some <==> fields.len() >= 9 && exists|sep: int|
            0 <= sep && sep + 1 < fields.len() && #[trigger] fields[sep] == seq!['-'] && fields[sep
                + 1] == seq!['n', 's', 'f', 's'] && forall|k: int|
                0 <= k < sep ==> fields[k] != seq!['-'],
        nsfs_root(fields) matches Some(root) ==> root == fields[3],
{
    lemma_find_from(fields, dash(), 0);
    if fields.len() >= 9 {
        if exists|sep: int|
            0 <= sep && sep + 1 < fields.len() && #[trigger] fields[sep] == seq!['-'] && fields[sep
                + 1] == seq!['n', 's', 'f', 's'] && forall|k: int|
                0 <= k < sep ==> fields[k] != seq!['-'] {
            let sep = choose|sep: int|
                0 <= sep && sep + 1 < fields.len() && #[trigger] fields[sep] == seq!['-']
                    && fields[sep + 1] == seq!['n', 's', 'f', 's'] && forall|k: int|
                    0 <= k < sep ==> fields[k] != seq!['-'];
            lemma_find_from_at(fields, dash(), 0, sep);
        }
    }
}

/// The kind name of a root is its text before its first `:` (all of it
/// where it has none).
pub proof fn lemma_root_type_name(root: Seq<char>)
    ensures
        root_type_name(root).len() <= root.len(),
        root_type_name(root) == root.take(root_type_name(root).len() as int),
        forall|k: int| 0 <= k < root_type_name(root).len() ==> root[k] != ':',
        root_type_name(root).len() < root.len() ==> root[root_type_name(root).len() as int] == ':',
{
    lemma_find_from(root, ':', 0);
    if find_first(root, ':') is None {
        assert(root.take(root.len() as int) =~= root);
    }
}

/// The kind name of a mount root: its text before the first `:`.
pub open spec fn root_type_name(root: Seq<char>) -> Seq<char> {
    match find_first(root, ':') {
        Some(j) => root.take(j),
        None => root,
    }
}

/// The namespace listed for a bind-mounted namespace: no processes, no
/// representative, UID 0.
pub open spec fn persistent_namespace(inode: u64, t: int) -> Namespace {
    Namespace {
        id: inode as u32,
        ns_type: NamespaceType::spec_from_index(t),
        nprocs: 0,
        netnsid: LSNS_NETNS_UNUSABLE,
        representative_pid: None,
        uid_fallback: 0,
    }
}

/// The namespaces after one mount-table line: an `nsfs` mount whose root
/// names a known kind and an inode not yet listed adds that namespace.
pub open spec fn mount_line_step(ns: Seq<Namespace>, line: Seq<char>) -> Seq<Namespace> {
    match nsfs_root(tokens(line)) {
        None => ns,
        Some(root) => match spec_parse_namespace_inode(root) {
            None => ns,
            Some(inode) => if has_namespace(ns, inode) {
                ns
            } else {
                match ns_index(root_type_name(root)) {
                    None => ns,
                    Some(t) => ns.push(persistent_namespace(inode, t)),
                }
            },
        },
    }
}

/// The namespaces after the mount-table lines `ls`, taken in order.
pub open spec fn mount_lines_fold(ns: Seq<Namespace>, ls: Seq<Seq<char>>) -> Seq<Namespace>
    decreases ls.len(),
{
    if ls.len() == 0 {
        ns
    } else {
        mount_line_step(mount_lines_fold(ns, ls.drop_last()), ls.last())
    }
}

/// The namespaces after the mount table `mountinfo`.
pub open spec fn persistent_namespaces(ns: Seq<Namespace>, mountinfo: Seq<char>) -> Seq<
    Namespace,
> {
    mount_lines_fold(ns, lines(mountinfo))
}

/// One mount-table line either leaves the namespaces as they are, or adds
/// one namespace of a known kind, without processes, for an inode that no
/// listed namespace has.
pub proof fn lemma_mount_line_step(ns: Seq<Namespace>, line: Seq<char>)
    ensures
        mount_line_step(ns, line) == ns || exists|inode: u64, t: int|
            0 <= t < 8 && !has_namespace(ns, inode) && mount_line_step(ns, line) == ns.push(
                #[trigger] persistent_namespace(inode, t),
            ),
{
    if let Some(root) = nsfs_root(tokens(line)) {
        if let Some(inode) = spec_parse_namespace_inode(root) {
            if !has_namespace(ns, inode) {
                if let Some(t) = ns_index(root_type_name(root)) {
                    lemma_ns_index_range(root_type_name(root), 0);
                    assert(mount_line_step(ns, line) == ns.push(persistent_namespace(inode, t)));
                }
            }
        }
    }
}

/// Each kind is named by its `NSNAMES` entry.
pub proof fn lemma_kind_names()
    ensures
        ns_name(NamespaceType::Cgroup.index_of() as int) == seq!['c', 'g', 'r', 'o', 'u', 'p'],
        ns_name(NamespaceType::Ipc.index_of() as int) == seq!['i', 'p', 'c'],
        ns_name(NamespaceType::Mnt.index_of() as int) == seq!['m', 'n', 't'],
        ns_name(NamespaceType::Net.index_of() as int) == seq!['n', 'e', 't'],
        ns_name(NamespaceType::Pid.index_of() as int) == seq!['p', 'i', 'd'],
        ns_name(NamespaceType::User.index_of() as int) == seq!['u', 's', 'e', 'r'],
        ns_name(NamespaceType::Uts.index_of() as int) == seq!['u', 't', 's'],
        ns_name(NamespaceType::Time.index_of() as int) == seq!['t', 'i', 'm', 'e'],
{
}

/// Different kinds have different names.
pub proof fn lemma_kind_names_distinct(u: int, t: int)
    requires
        0 <= u < 8,
        0 <= t < 8,
        u != t,
    ensures
        ns_name(u) != ns_name(t),
{
    let a = ns_name(u);
    let b = ns_name(t);
    assert(a.len() != b.len() || a[0] != b[0]);
}

/// Looking a kind up by name finds exactly the kind of that name: a kind
/// found is named `name`, and each kind's own name finds it.
pub proof fn lemma_ns_index(name: Seq<char>)
    ensures
        ns_index(name) matches Some(t) ==> 0 <= t < 8 && ns_name(t) == name,
        (exists|t: int| 0 <= t < 8 && ns_name(t) == name) ==> ns_index(name) is Some,
        forall|t: int| 0 <= t < 8 ==> #[trigger] ns_index(ns_name(t)) == Some(t),
{
    lemma_ns_index_range(name, 0);
    lemma_ns_index_found(name, 0);
    assert forall|t: int| 0 <= t < 8 implies #[trigger] ns_index(ns_name(t)) == Some(t) by {
        lemma_ns_index_first(ns_name(t), 0, t);
    }
}

/// What `ns_index_from` finds is named `name`, and it finds a name that is there.
pub proof fn lemma_ns_index_found(name: Seq<char>, t: int)
    requires
        0 <= t,
    ensures
        ns_index_from(name, t) matches Some(k) ==> ns_name(k) == name,
        (exists|k: int| t <= k < 8 && ns_name(k) == name) ==> ns_index_from(name, t) is Some,
    decreases 8 - t,
{
    if t < 8 && ns_name(t) != name {
        lemma_ns_index_found(name, t + 1);
        if exists|k: int| t <= k < 8 && ns_name(k) == name {
            let k = choose|k: int| t <= k < 8 && ns_name(k) == name;
            assert(k != t);
        }
    }
}

/// A kind's own name is found at that kind.
pub proof fn lemma_ns_index_first(name: Seq<char>, u: int, t: int)
    requires
        0 <= u <= t < 8,
        ns_name(t) == name,
    ensures
        ns_index_from(name, u) == Some(t),
    decreases t - u,
{
    if u < t {
        lemma_kind_names_distinct(u, t);
        lemma_ns_index_first(name, u + 1, t);
    }
}

/// A mount-table line that adds a namespace adds the one its root names:
/// its ID is the root's inode truncated to 32 bits, its kind is the one
/// named by the root's text before `:`, it has no processes, no
/// representative, UID 0 and no usable network namespace ID, and no listed
/// namespace had that inode.
pub proof fn lemma_mount_line_adds(ns: Seq<Namespace>, line: Seq<char>)
    ensures
        mount_line_step(ns, line) != ns ==> exists|root: Seq<char>, inode: u64|
            #![trigger spec_parse_namespace_inode(root), has_namespace(ns, inode)]
            nsfs_root(tokens(line)) == Some(root) && spec_parse_namespace_inode(root)
                == Some(inode) && !has_namespace(ns, inode) && mount_line_step(ns, line).len()
                == ns.len() + 1 && mount_line_step(ns, line).take(ns.len() as int) == ns && {
                let n = mount_line_step(ns, line)[ns.len() as int];
                &&& n.id == inode as u32
                &&& ns_name(n.ns_type.index_of() as int) == root_type_name(root)
                &&& n.nprocs == 0
                &&& n.representative_pid is None
                &&& n.uid_fallback == 0
                &&& n.netnsid == LSNS_NETNS_UNUSABLE
            },
{
    if let Some(root) = nsfs_root(tokens(line)) {
        if let Some(inode) = spec_parse_namespace_inode(root) {
            if !has_namespace(ns, inode) {
                let name = root_type_name(root);
                if let Some(t) = ns_index(name) {
                    lemma_ns_index(name);
                    let out = ns.push(persistent_namespace(inode, t));
                    assert(out.take(ns.len() as int) =~= ns);
                    assert(NamespaceType::spec_from_index(t).index_of() == t);
                    assert(out[ns.len() as int] == persistent_namespace(inode, t));
                }
            }
        }
    }
}

/// A mount-table line adds its namespace whenever it can: where it is an
/// `nsfs` mount whose root names an inode that no listed namespace has and
/// a kind by one of the eight names, the namespace list grows by one.
pub proof fn lemma_mount_line_adds_when_new(ns: Seq<Namespace>, line: Seq<char>)
    ensures
        (nsfs_root(tokens(line)) matches Some(root) && spec_parse_namespace_inode(root) matches Some(
            inode,
        ) && !has_namespace(ns, inode) && exists|t: int|
            0 <= t < 8 && #[trigger] ns_name(t) == root_type_name(root)) ==> mount_line_step(
            ns,
            line,
        ).len() == ns.len() + 1,
{
    if let Some(root) = nsfs_root(tokens(line)) {
        lemma_ns_index(root_type_name(root));
    }
}

/// `ns_index_from` finds only the eight kinds.
pub proof fn lemma_ns_index_range(name: Seq<char>, t: int)
    ensures
        ns_index_from(name, t) matches Some(k) ==> 0 <= k < 8,
    decreases 8 - t,
{
    if 0 <= t < 8 && ns_name(t) != name {
        lemma_ns_index_range(name, t + 1);
    }
}

/// Reading the mount table keeps the namespaces there were, in order, and
/// adds only namespaces without processes: no process count, no
/// representative, UID 0, no usable network namespace ID.
pub proof fn lemma_persistent_namespaces(ns: Seq<Namespace>, mountinfo: Seq<char>)
    ensures
        persistent_namespaces(ns, mountinfo).len() >= ns.len(),
        persistent_namespaces(ns, mountinfo).take(ns.len() as int) == ns,
        forall|j: int|
            ns.len() <= j < persistent_namespaces(ns, mountinfo).len() ==> {
                let n = #[trigger] persistent_namespaces(ns, mountinfo)[j];
                &&& n.nprocs == 0
                &&& n.representative_pid is None
                &&& n.uid_fallback == 0
                &&& n.netnsid == LSNS_NETNS_UNUSABLE
            },
{
    lemma_mount_lines_fold(ns, lines(mountinfo));
}

/// The fold over mount-table lines extends its start with namespaces
/// without processes.
pub proof fn lemma_mount_lines_fold(ns: Seq<Namespace>, ls: Seq<Seq<char>>)
    ensures
        mount_lines_fold(ns, ls).len() >= ns.len(),
        mount_lines_fold(ns, ls).take(ns.len() as int) == ns,
        forall|j: int|
            ns.len() <= j < mount_lines_fold(ns, ls).len() ==> {
                let n = #[trigger] mount_lines_fold(ns, ls)[j];
                &&& n.nprocs == 0
                &&& n.representative_pid is None
                &&& n.uid_fallback == 0
                &&& n.netnsid == LSNS_NETNS_UNUSABLE
            },
    decreases ls.len(),
{
    if ls.len() == 0 {
        assert(ns.take(ns.len() as int) =~= ns);
    } else {
        lemma_mount_lines_fold(ns, ls.drop_last());
        let prev = mount_lines_fold(ns, ls.drop_last());
        lemma_mount_line_step(prev, ls.last());
        let cur = mount_lines_fold(ns, ls);
        if cur != prev {
            let (inode, t) = choose|inode: u64, t: int|
                0 <= t < 8 && !has_namespace(prev, inode) && cur == prev.push(
                    #[trigger] persistent_namespace(inode, t),
                );
            assert(cur.take(ns.len() as int) =~= prev.take(ns.len() as int));
            assert forall|j: int| ns.len() <= j < cur.len() implies {
                let n = #[trigger] cur[j];
                &&& n.nprocs == 0
                &&& n.representative_pid is None
                &&& n.uid_fallback == 0
                &&& n.netnsid == LSNS_NETNS_UNUSABLE
            } by {
                if j < prev.len() {
                    assert(cur[j] == prev[j]);
                }
            }
        }
    }
}

/// The inode that a mount-table line names, where it is an `nsfs` mount
/// with a readable root.
pub open spec fn mount_line_inode(line: Seq<char>) -> Option<u64> {
    match nsfs_root(tokens(line)) {
        Some(root) => spec_parse_namespace_inode(root),
        None => None,
    }
}

/// Every inode that the `nsfs` lines of `ls` name fits in 32 bits.
pub open spec fn mount_inodes_fit(ls: Seq<Seq<char>>) -> bool {
    forall|i: int|
        0 <= i < ls.len() ==> (#[trigger] mount_line_inode(ls[i]) matches Some(x) ==> x
            <= u32::MAX)
}

/// A mount-table line keeps IDs distinct where its inode fits in 32 bits.
pub proof fn lemma_mount_line_ids_distinct(ns: Seq<Namespace>, line: Seq<char>)
    requires
        ids_distinct(ns),
        mount_line_inode(line) matches Some(x) ==> x <= u32::MAX,
    ensures
        ids_distinct(mount_line_step(ns, line)),
{
    if let Some(root) = nsfs_root(tokens(line)) {
        if let Some(inode) = spec_parse_namespace_inode(root) {
            if !has_namespace(ns, inode) {
                if let Some(t) = ns_index(root_type_name(root)) {
                    let out = ns.push(persistent_namespace(inode, t));
                    assert(inode <= u32::MAX);
                    assert((inode as u32) as u64 == inode);
                    assert forall|i: int, j: int| 0 <= i < j < out.len() implies out[i].id
                        != out[j].id by {
                        if j == ns.len() {
                            assert(out[i] == ns[i]);
                            assert(ns[i].id as u64 != inode);
                        } else {
                            assert(out[i] == ns[i]);
                            assert(out[j] == ns[j]);
                        }
                    }
                }
            }
        }
    }
}

/// The fold over mount-table lines keeps IDs distinct.
pub proof fn lemma_mount_lines_fold_ids_distinct(ns: Seq<Namespace>, ls: Seq<Seq<char>>)
    requires
        ids_distinct(ns),
        mount_inodes_fit(ls),
    ensures
        ids_distinct(mount_lines_fold(ns, ls)),
    decreases ls.len(),
{
    if ls.len() > 0 {
        assert forall|i: int| 0 <= i < ls.drop_last().len() implies (#[trigger] mount_line_inode(
            ls.drop_last()[i],
        ) matches Some(x) ==> x <= u32::MAX) by {
            assert(ls.drop_last()[i] == ls[i]);
            assert(mount_line_inode(ls[i]) matches Some(x) ==> x <= u32::MAX);
        }
        lemma_mount_lines_fold_ids_distinct(ns, ls.drop_last());
        assert(mount_line_inode(ls[ls.len() - 1]) matches Some(x) ==> x <= u32::MAX);
        lemma_mount_line_ids_distinct(mount_lines_fold(ns, ls.drop_last()), ls.last());
    }
}

/// A namespace already listed, from the processes or from an earlier line,
/// is never added again: reading the mount table keeps namespace IDs
/// distinct, where the inodes of its `nsfs` lines fit in 32 bits (an ID is
/// an inode truncated to 32 bits).
pub proof fn lemma_persistent_ids_distinct(ns: Seq<Namespace>, mountinfo: Seq<char>)
    requires
        ids_distinct(ns),
        mount_inodes_fit(lines(mountinfo)),
    ensures
        ids_distinct(persistent_namespaces(ns, mountinfo)),
{
    lemma_mount_lines_fold_ids_distinct(ns, lines(mountinfo));
}

/// The index of the first field that equals `"-"`.
fn find_dash(fields: &Vec<Vec<char>>) -> (r: Option<usize>)
    ensures
        r matches Some(j) ==> find_first(views(fields@), dash()) == Some(j as int),
        r is None ==> find_first(views(fields@), dash()) is None,
{
    let d = vec!['-'];
    assert(d@ =~= dash());
    let ghost v = views(fields@);
    let mut i: usize = 0;
    while i < fields.len()
        invariant
            i <= fields.len(),
            v == views(fields@),
            d@ == dash(),
            find_first(v, dash()) == find_from(v, dash(), i as int),
        decreases fields.len() - i,
    {
        assert(v[i as int] == fields@[i as int]@);
        if chars_eq(&fields[i], &d) {
            return Some(i);
        }
        i += 1;
    }
    None
}

/// The mount root of a line, where it is an `nsfs` mount.
fn line_nsfs_root(line: &Vec<char>) -> (r: Option<Vec<char>>)
    ensures
        r matches Some(root) ==> nsfs_root(tokens(line@)) == Some(root@),
        r is None ==> nsfs_root(tokens(line@)) is None,
{
    let parts = split_whitespace(line);
    let ghost v = views(parts@);
    assert(v.len() == parts@.len());
    if parts.len() < 9 {
        return None;
    }
    let separator_idx = match find_dash(&parts) {
        Some(j) => j,
        None => return None,
    };
    proof {
        lemma_find_from(v, dash(), 0);
    }
    let fstype_idx = separator_idx + 1;
    let nsfs_name = vec!['n', 's', 'f', 's'];
    assert(nsfs_name@ =~= nsfs());
    if fstype_idx >= parts.len() {
        return None;
    }
    assert(v[fstype_idx as int] == parts@[fstype_idx as int]@);
    if !chars_eq(&parts[fstype_idx], &nsfs_name) {
        return None;
    }
    assert(v[3] == parts@[3]@);
    let root = copy_range(&parts[3], 0, parts[3].len());
    assert(root@ =~= parts@[3]@);
    Some(root)
}

/// Applies one mount-table line to the namespace list.
fn read_mount_line(lsns: &mut Lsns, line: &Vec<char>)
    ensures
        final(lsns).processes@ == old(lsns).processes@,
        final(lsns).namespaces@ == mount_line_step(old(lsns).namespaces@, line@),
{
    let mount_root = match line_nsfs_root(line) {
        Some(r) => r,
        None => return,
    };
    let ns_inode = match parse_namespace_inode_chars(&mount_root) {
        Some(ino) => ino,
        None => return,
    };
    if namespace_exists(lsns, ns_inode) {
        return;
    }
    let ns_type_str = match index_of_first(&mount_root, ':') {
        Some(j) => {
            proof {
                lemma_find_from(mount_root@, ':', 0);
            }
            copy_range(&mount_root, 0, j)
        },
        None => copy_range(&mount_root, 0, mount_root.len()),
    };
    assert(ns_type_str@ =~= root_type_name(mount_root@));
    let ns_type_idx = match ns_index_of(&ns_type_str) {
        Some(t) => t,
        None => return,
    };
    let namespace = Namespace {
        id: ns_inode as u32,
        ns_type: NamespaceType::from_index(ns_type_idx),
        nprocs: 0,
        netnsid: LSNS_NETNS_UNUSABLE,
        representative_pid: None,
        uid_fallback: 0,
    };
    lsns.namespaces.push(namespace);
}

/// Adds the namespaces that the mount table `mountinfo` shows bind-mounted
/// and that are not listed yet, line by line in order.
pub fn read_persistent_namespaces(lsns: &mut Lsns, mountinfo: &str)
    ensures
        final(lsns).processes@ == old(lsns).processes@,
        final(lsns).namespaces@ == persistent_namespaces(old(lsns).namespaces@, mountinfo@),
{
    let s = str_chars(mountinfo);
    let ls = split_lines(&s);
    let ghost v = views(ls@);
    let ghost start = lsns.namespaces@;
    let ghost procs = lsns.processes@;
    assert(v.take(0) =~= Seq::<Seq<char>>::empty());
    let mut i: usize = 0;
    while i < ls.len()
        invariant
            i <= ls.len(),
            v == views(ls@),
            v == lines(mountinfo@),
            lsns.processes@ == procs,
            lsns.namespaces@ == mount_lines_fold(start, v.take(i as int)),
        decreases ls.len() - i,
    {
        assert(v[i as int] == ls@[i as int]@);
        read_mount_line(lsns, &ls[i]);
        assert(v.take(i + 1).drop_last() =~= v.take(i as int));
        i += 1;
    }
    assert(v.take(i as int) =~= v);
}

} // verus!
