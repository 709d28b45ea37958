use uu_lsns::assign::{counts_fit_for, read_assigned_namespaces};
use uu_lsns::display::{display_namespaces, get_username, header_line, namespace_row};
use uu_lsns::gather::read_namespaces;
use uu_lsns::model::{Lsns, Namespace, NamespaceType, Process, LSNS_NETNS_UNUSABLE};
use uu_lsns::mount::{
    namespace_exists, parse_namespace_inode, read_persistent_namespaces,
};
use uu_lsns::order::sort_namespaces_by_id;
use uu_lsns::process::{get_pid_from_name, get_process_command};
use uu_lsns::text::u32_to_chars;

fn proc_with(pid: u32, uid: u32, ids: [u64; 8], netnsid: i32, cmd: &str) -> Process {
    let mut p = Process::new();
    p.pid = pid;
    p.uid = uid;
    p.ns_ids = ids;
    p.netnsid = netnsid;
    p.command = cmd.to_string();
    p
}

fn ns(id: u32, t: usize, nprocs: u32) -> Namespace {
    Namespace {
        id,
        ns_type: NamespaceType::from_index(t),
        nprocs,
        netnsid: LSNS_NETNS_UNUSABLE,
        representative_pid: None,
        uid_fallback: 0,
    }
}

#[test]
fn process_new_is_empty() {
    let p = Process::new();
    assert_eq!(p.pid, 0);
    assert_eq!(p.ppid, 0);
    assert_eq!(p.tpid, 0);
    assert_eq!(p.state, ' ');
    assert_eq!(p.uid, 0);
    assert_eq!(p.ns_ids, [0; 8]);
    assert_eq!(p.ns_pids, [0; 8]);
    assert_eq!(p.ns_oids, [0; 8]);
    assert_eq!(p.netnsid, 0);
    assert!(p.ns_siblings.iter().all(|v| v.is_empty()));
    assert_eq!(p.command, "");
}

#[test]
fn from_index_and_back() {
    for i in 0..8 {
        assert_eq!(NamespaceType::from_index(i).index(), i);
    }
    assert_eq!(NamespaceType::from_index(3), NamespaceType::Net);
    assert_eq!(NamespaceType::from_index(7), NamespaceType::Time);
}

#[test]
fn grouping_counts_and_lowest_pid() {
    let mut lsns = Lsns {
        processes: vec![
            proc_with(50, 1000, [10, 11, 12, 13, 0, 15, 16, 17], 7, "a"),
            proc_with(20, 0, [10, 11, 22, 13, 0, 15, 16, 17], 8, "b"),
            proc_with(30, 5, [10, 31, 12, 33, 0, 15, 16, 17], 9, "c"),
        ],
        namespaces: Vec::new(),
    };
    read_assigned_namespaces(&mut lsns);
    let ids: Vec<u32> = lsns.namespaces.iter().map(|n| n.id).collect();
    assert_eq!(ids, vec![10, 11, 12, 13, 15, 16, 17, 22, 31, 33]);
    let n10 = &lsns.namespaces[0];
    assert_eq!(n10.nprocs, 3);
    assert_eq!(n10.representative_pid, Some(20));
    assert_eq!(n10.uid_fallback, 1000);
    assert_eq!(n10.ns_type, NamespaceType::Cgroup);
    assert_eq!(n10.netnsid, LSNS_NETNS_UNUSABLE);
    let n13 = &lsns.namespaces[3];
    assert_eq!(n13.ns_type, NamespaceType::Net);
    assert_eq!(n13.netnsid, 7);
    assert_eq!(n13.nprocs, 2);
    assert_eq!(n13.representative_pid, Some(20));
    let n12 = &lsns.namespaces[2];
    assert_eq!(n12.nprocs, 2);
    assert_eq!(n12.representative_pid, Some(30));
    let n33 = &lsns.namespaces[9];
    assert_eq!(n33.ns_type, NamespaceType::Net);
    assert_eq!(n33.netnsid, 9);
    assert_eq!(n33.uid_fallback, 5);
    assert_eq!(lsns.processes.len(), 3);
}

#[test]
fn grouping_same_inode_two_kinds_counts_once() {
    let mut lsns = Lsns {
        processes: vec![proc_with(4, 0, [9, 9, 0, 0, 0, 0, 0, 0], 0, "x")],
        namespaces: vec![ns(1, 0, 0)],
    };
    read_assigned_namespaces(&mut lsns);
    assert_eq!(lsns.namespaces.len(), 2);
    assert_eq!(lsns.namespaces[0].id, 1);
    assert_eq!(lsns.namespaces[1].id, 9);
    assert_eq!(lsns.namespaces[1].nprocs, 1);
    assert_eq!(lsns.namespaces[1].ns_type, NamespaceType::Cgroup);
}

#[test]
fn grouping_truncates_inode_to_u32() {
    let big: u64 = (1u64 << 32) + 5;
    let mut lsns = Lsns {
        processes: vec![proc_with(4, 0, [big, 0, 0, 0, 0, 0, 0, 0], 0, "x")],
        namespaces: Vec::new(),
    };
    read_assigned_namespaces(&mut lsns);
    assert_eq!(lsns.namespaces[0].id, 5);
}

#[test]
fn counts_fit_small() {
    assert!(counts_fit_for(&Vec::new()));
    assert!(counts_fit_for(&vec![Process::new()]));
}

#[test]
fn namespace_inode_parsing() {
    assert_eq!(parse_namespace_inode("net:[4026531992]"), Some(4026531992));
    assert_eq!(parse_namespace_inode("net:[+7]"), Some(7));
    assert_eq!(parse_namespace_inode("net:[]"), None);
    assert_eq!(parse_namespace_inode("net:[12x]"), None);
    assert_eq!(parse_namespace_inode("net"), None);
    assert_eq!(parse_namespace_inode("net:[5"), None);
    assert_eq!(parse_namespace_inode("net:[18446744073709551616]"), None);
    assert_eq!(parse_namespace_inode("net:]1["), None);
    assert_eq!(parse_namespace_inode("]["), None);
}

#[test]
fn exists_compares_widened_id() {
    let lsns = Lsns { processes: Vec::new(), namespaces: vec![ns(5, 3, 0)] };
    assert!(namespace_exists(&lsns, 5));
    assert!(!namespace_exists(&lsns, (1u64 << 32) + 5));
    assert!(!namespace_exists(&lsns, 6));
}

const MOUNTINFO: &str = "22 1 0:21 / /proc rw - proc proc rw\n\
24 0 0:4 net:[4026531992] /run/netns/a rw shared:1 - nsfs nsfs rw\n\
25 0 0:4 net:[4026531992] /run/netns/b rw shared:1 - nsfs nsfs rw\n\
26 0 0:4 uts:[4026532000] /run/u rw - nsfs nsfs rw\r\n\
27 0 0:4 foo:[4026532001] /run/f rw - nsfs nsfs rw\n\
28 0 0:4 ipc:[11] /run/i - nsfs nsfs\n";

#[test]
fn persistent_from_mountinfo() {
    let mut lsns = Lsns { processes: Vec::new(), namespaces: vec![ns(4026532000, 6, 3)] };
    read_persistent_namespaces(&mut lsns, MOUNTINFO);
    let ids: Vec<u32> = lsns.namespaces.iter().map(|n| n.id).collect();
    assert_eq!(ids, vec![4026532000, 4026531992]);
    let added = &lsns.namespaces[1];
    assert_eq!(added.ns_type, NamespaceType::Net);
    assert_eq!(added.nprocs, 0);
    assert_eq!(added.representative_pid, None);
    assert_eq!(added.uid_fallback, 0);
    assert_eq!(added.netnsid, LSNS_NETNS_UNUSABLE);
}

#[test]
fn mountinfo_with_reversed_brackets_is_skipped() {
    let mut lsns = Lsns { processes: Vec::new(), namespaces: Vec::new() };
    read_persistent_namespaces(
        &mut lsns,
        "1 2 3 net:]5[ 5 6 7 - nsfs nsfs rw\n1 2 3 net:[6] 5 - nsfs nsfs rw\n",
    );
    let ids: Vec<u32> = lsns.namespaces.iter().map(|n| n.id).collect();
    assert_eq!(ids, vec![6]);
}

#[test]
fn stable_sort_by_id() {
    let mut v = vec![ns(3, 0, 1), ns(1, 0, 2), ns(3, 0, 3), ns(2, 0, 4), ns(1, 0, 5)];
    sort_namespaces_by_id(&mut v);
    let got: Vec<(u32, u32)> = v.iter().map(|n| (n.id, n.nprocs)).collect();
    assert_eq!(got, vec![(1, 2), (1, 5), (2, 4), (3, 1), (3, 3)]);
}

#[test]
fn read_namespaces_whole() {
    let mut lsns = Lsns {
        processes: vec![
            proc_with(9, 0, [300, 0, 0, 200, 0, 0, 0, 0], 1, "a"),
            proc_with(3, 0, [300, 0, 0, 100, 0, 0, 0, 0], 2, "b"),
        ],
        namespaces: Vec::new(),
    };
    read_namespaces(&mut lsns, Some("1 0 0:4 time:[150] /x rw - nsfs nsfs rw\n"));
    let got: Vec<(u32, u32)> = lsns.namespaces.iter().map(|n| (n.id, n.nprocs)).collect();
    assert_eq!(got, vec![(100, 1), (150, 0), (200, 1), (300, 2)]);
    assert_eq!(lsns.namespaces[3].representative_pid, Some(3));
    assert_eq!(lsns.namespaces[1].ns_type, NamespaceType::Time);
    let mut lsns2 = Lsns { processes: Vec::new(), namespaces: Vec::new() };
    read_namespaces(&mut lsns2, None);
    assert!(lsns2.namespaces.is_empty());
}

#[test]
fn pid_from_name() {
    assert_eq!(get_pid_from_name("123"), Some(123));
    assert_eq!(get_pid_from_name("007"), Some(7));
    assert_eq!(get_pid_from_name("self"), None);
    assert_eq!(get_pid_from_name("+12"), None);
    assert_eq!(get_pid_from_name("12a"), None);
    assert_eq!(get_pid_from_name(""), None);
    assert_eq!(get_pid_from_name("18446744073709551615"), Some(u64::MAX));
    assert_eq!(get_pid_from_name("18446744073709551616"), None);
}

#[test]
fn command_choice() {
    let cmdline = b"ls\0-l\0".to_vec();
    assert_eq!(get_process_command(Some(&cmdline), Some("comm\n")), "ls");
    let whole = b"sleep".to_vec();
    assert_eq!(get_process_command(Some(&whole), None), "sleep");
    let empty: Vec<u8> = Vec::new();
    assert_eq!(get_process_command(Some(&empty), Some("  kworker/0:1 \n")), "kworker/0:1");
    let leading_nul = b"\0x".to_vec();
    assert_eq!(get_process_command(Some(&leading_nul), Some("z")), "z");
    let bad = vec![0xffu8, 0x41];
    assert_eq!(get_process_command(Some(&bad), Some("ok")), "ok");
    assert_eq!(get_process_command(None, None), "?");
    let utf = "é\0".as_bytes().to_vec();
    assert_eq!(get_process_command(Some(&utf), None), "é");
}

#[test]
fn process_from_parts() {
    let inos = vec![Some((1, 2, 3)), None, Some((4, 5, 6)), None, None, None, None, Some((7, 8, 9))];
    let p = Process::from_parts(1000, (42, 'S', 1), &inos, "cmd".to_string());
    assert_eq!(p.pid, 42);
    assert_eq!(p.state, 'S');
    assert_eq!(p.ppid, 1);
    assert_eq!(p.uid, 1000);
    assert_eq!(p.netnsid, LSNS_NETNS_UNUSABLE);
    assert_eq!(p.ns_ids, [1, 0, 4, 0, 0, 0, 0, 7]);
    assert_eq!(p.ns_pids, [2, 0, 5, 0, 0, 0, 0, 8]);
    assert_eq!(p.ns_oids, [3, 0, 6, 0, 0, 0, 0, 9]);
    assert_eq!(p.command, "cmd");
}

const PASSWD: &str = "root:x:0:0:root:/root:/bin/bash\n\
broken\n\
daemon:x:1:1::/:/sbin/nologin\n\
alice:x:1000:1000::/home/alice:/bin/sh\r\n\
second:x:1000:1000::/:/bin/sh\n";

#[test]
fn username_lookup() {
    assert_eq!(get_username(PASSWD, 0), Some("root".to_string()));
    assert_eq!(get_username(PASSWD, 1), Some("daemon".to_string()));
    assert_eq!(get_username(PASSWD, 1000), Some("alice".to_string()));
    assert_eq!(get_username(PASSWD, 7), None);
    assert_eq!(get_username("bob:x:+5", 5), Some("bob".to_string()));
    assert_eq!(get_username("bob:x:5\r", 5), None);
    assert_eq!(get_username("", 0), None);
}

#[test]
fn decimal_text() {
    assert_eq!(u32_to_chars(0), vec!['0']);
    assert_eq!(u32_to_chars(4026531992).iter().collect::<String>(), "4026531992");
    assert_eq!(u32_to_chars(u32::MAX).iter().collect::<String>(), "4294967295");
}

#[test]
fn listing_rows() {
    assert_eq!(header_line(), "        NS TYPE   NPROCS  PID USER       COMMAND");
    let lsns = Lsns {
        processes: vec![proc_with(1, 0, [0; 8], 0, "/sbin/init")],
        namespaces: vec![
            Namespace {
                id: 4026531835,
                ns_type: NamespaceType::Cgroup,
                nprocs: 120,
                netnsid: LSNS_NETNS_UNUSABLE,
                representative_pid: Some(1),
                uid_fallback: 77,
            },
            Namespace {
                id: 4026532000,
                ns_type: NamespaceType::Net,
                nprocs: 0,
                netnsid: LSNS_NETNS_UNUSABLE,
                representative_pid: None,
                uid_fallback: 0,
            },
            Namespace {
                id: 12,
                ns_type: NamespaceType::User,
                nprocs: 2,
                netnsid: LSNS_NETNS_UNUSABLE,
                representative_pid: Some(99999),
                uid_fallback: 4242,
            },
        ],
    };
    let rows = display_namespaces(&lsns, Some("root:x:0:0::/:/bin/sh\n"));
    assert_eq!(rows.len(), 4);
    assert_eq!(rows[1], "4026531835 cgroup    120    1 root       /sbin/init");
    assert_eq!(rows[2], "4026532000 net         0      root       ");
    assert_eq!(rows[3], "        12 user        2 99999 4242       ");
    let no_passwd = namespace_row(&lsns.namespaces[0], &lsns.processes, None);
    assert_eq!(no_passwd, "4026531835 cgroup    120    1 0          /sbin/init");
}

#[test]
fn grouping_does_not_depend_on_process_order() {
    let a = || proc_with(50, 1, [10, 11, 0, 13, 0, 0, 0, 0], 7, "a");
    let b = || proc_with(20, 2, [10, 12, 0, 13, 0, 0, 0, 0], 8, "b");
    let c = || proc_with(30, 3, [14, 11, 0, 13, 0, 0, 0, 0], 9, "c");
    let mut l1 = Lsns { processes: vec![a(), b(), c()], namespaces: Vec::new() };
    let mut l2 = Lsns { processes: vec![c(), a(), b()], namespaces: Vec::new() };
    read_assigned_namespaces(&mut l1);
    read_assigned_namespaces(&mut l2);
    let key = |l: &Lsns| {
        let mut v: Vec<(u32, u32, Option<u32>)> =
            l.namespaces.iter().map(|n| (n.id, n.nprocs, n.representative_pid)).collect();
        v.sort();
        v
    };
    assert_eq!(key(&l1), key(&l2));
    assert_eq!(
        key(&l1),
        vec![
            (10, 2, Some(20)),
            (11, 2, Some(30)),
            (12, 1, Some(20)),
            (13, 3, Some(20)),
            (14, 1, Some(30)),
        ]
    );
}

#[test]
fn listing_columns() {
    let lsns = Lsns {
        processes: vec![proc_with(4321, 0, [0; 8], 0, "cmd")],
        namespaces: vec![Namespace {
            id: 7,
            ns_type: NamespaceType::Mnt,
            nprocs: 12345,
            netnsid: LSNS_NETNS_UNUSABLE,
            representative_pid: Some(4321),
            uid_fallback: 0,
        }],
    };
    let rows = display_namespaces(&lsns, Some("root:x:0:0::/:/bin/sh\n"));
    let row: Vec<char> = rows[1].chars().collect();
    let col = |a: usize, b: usize| row[a - 1..b].iter().collect::<String>();
    assert_eq!(col(1, 10), "         7");
    assert_eq!(col(12, 17), "mnt   ");
    assert_eq!(col(20, 24), "12345");
    assert_eq!(col(26, 29), "4321");
    assert_eq!(col(31, 40), "root      ");
    assert_eq!(col(42, 44), "cmd");
}
