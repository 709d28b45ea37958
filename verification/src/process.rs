//! What is decided about one process from the text read under `/proc/[pid]`.

use vstd::prelude::*;
use vstd::utf8::{decode_utf8, valid_utf8};
use crate::model::{Process, LSNS_NETNS_UNUSABLE};
use crate::text::{
    chars_to_string, copy_range, decimal, find_first, lemma_decimal_roundtrip, find_from, is_digit,
    parse_u64, parse_unsigned, str_chars, trim, trim_chars,
};

verus! {

/// The PID that a `/proc` entry named `name` stands for: a name that starts
/// with an ASCII digit and reads as a `u64`.
pub open spec fn spec_pid_from_name(name: Seq<char>) -> Option<u64> {
    if name.len() > 0 && is_digit(name[0]) {
        match parse_unsigned(name, u64::MAX as nat) {
            Some(v) => Some(v as u64),
            None => None,
        }
    } else {
        None
    }
}

/// The directory of a process, named by its PID in decimal, stands for that PID.
pub proof fn lemma_pid_from_decimal_name(pid: u64)
    ensures
        spec_pid_from_name(decimal(pid as nat)) == Some(pid),
{
    lemma_decimal_roundtrip(pid as nat);
    assert(is_digit(decimal(pid as nat)[0]));
}

/// The PID that a directory entry of `/proc` named `name` stands for, if any.
pub fn get_pid_from_name(name: &str) -> (r: Option<u64>)
    ensures
        r == spec_pid_from_name(name@),
{
    let s = str_chars(name);
    if s.len() == 0 {
        return None;
    }
    let c: u32 = s[0] as u32;
    if c < 0x30 || c > 0x39 {
        return None;
    }
    parse_u64(&s)
}

/// `String::from_utf8`, on a copy of `bytes`.
///
/// Claims that the conversion succeeds exactly on valid UTF-8, as `vstd`'s
/// `valid_utf8` defines it, and yields the characters `decode_utf8` gives.
#[verifier::external_body]
fn utf8_to_string(bytes: &Vec<u8>) -> (r: Option<String>)
    ensures
        r is Some <==> valid_utf8(bytes@),
        r matches Some(s) ==> s@ == decode_utf8(bytes@),
{
    String::from_utf8(bytes.clone()).ok()
}

/// The command read from `/proc/[pid]/cmdline`: the bytes before the first
/// NUL (or all of them), where they are not empty and are valid UTF-8.
pub open spec fn cmdline_command(content: Seq<u8>) -> Option<Seq<char>> {
    if content.len() == 0 {
        None
    } else {
        let end = match find_first(content, 0u8) {
            Some(j) => j,
            None => content.len() as int,
        };
        if end > 0 && valid_utf8(content.take(end)) {
            Some(decode_utf8(content.take(end)))
        } else {
            None
        }
    }
}

/// The command shown for a process: from `cmdline` where it yields one, else
/// the trimmed `comm`, else `?`.
pub open spec fn spec_process_command(cmdline: Option<Seq<u8>>, comm: Option<Seq<char>>) -> Seq<
    char,
> {
    match cmdline {
        Some(c) if cmdline_command(c) is Some => cmdline_command(c)->0,
        _ => match comm {
            Some(m) => trim(m),
            None => seq!['?'],
        },
    }
}

/// The command comes from `cmdline` wherever it can: where its bytes up to
/// the first NUL (or to the end), `c.take(e)`, are non-empty valid UTF-8,
/// the command is exactly those bytes decoded, whatever `comm` holds;
/// otherwise it is the trimmed `comm`, or `?` where that could not be read.
pub proof fn lemma_process_command_from_cmdline(
    c: Seq<u8>,
    e: int,
    comm: Option<Seq<char>>,
)
    requires
        0 <= e <= c.len(),
        forall|k: int| 0 <= k < e ==> c[k] != 0u8,
        e == c.len() || c[e] == 0u8,
    ensures
        spec_process_command(Some(c), comm) == if e > 0 && valid_utf8(c.take(e)) {
            decode_utf8(c.take(e))
        } else {
            match comm {
                Some(m) => trim(m),
                None => seq!['?'],
            }
        },
{
    crate::text::lemma_find_from(c, 0u8, 0);
    if e < c.len() {
        crate::text::lemma_find_from_at(c, 0u8, 0, e);
    }
}

/// Where no `cmdline` could be read, the command is the trimmed `comm`, or
/// `?` where that could not be read either.
pub proof fn lemma_process_command_without_cmdline(comm: Option<Seq<char>>)
    ensures
        spec_process_command(None, comm) == match comm {
            Some(m) => trim(m),
            None => seq!['?'],
        },
{
}

/// The first index of the byte 0 in `v`.
fn index_of_nul(v: &Vec<u8>) -> (r: Option<usize>)
    ensures
        r matches Some(j) ==> find_first(v@, 0u8) == Some(j as int),
        r is None ==> find_first(v@, 0u8) is None,
{
    let mut i: usize = 0;
    while i < v.len()
        invariant
            i <= v.len(),
            find_first(v@, 0u8) == find_from(v@, 0u8, i as int),
        decreases v.len() - i,
    {
        if v[i] == 0 {
            return Some(i);
        }
        i += 1;
    }
    None
}

/// The command name of a process, from the contents of its `cmdline` and
/// `comm` files (`None` where a file could not be read).
pub fn get_process_command(cmdline: Option<&Vec<u8>>, comm: Option<&str>) -> (r: String)
    ensures
        r@ == spec_process_command(
            match cmdline {
                Some(c) => Some(c@),
                None => None,
            },
            match comm {
                Some(m) => Some(m@),
                None => None,
            },
        ),
{
    if let Some(content) = cmdline {
        if content.len() > 0 {
            let end = match index_of_nul(content) {
                Some(j) => j,
                None => content.len(),
            };
            if end > 0 {
                proof {
                    if find_first(content@, 0u8) is Some {
                        crate::text::lemma_find_from(content@, 0u8, 0);
                    }
                }
                let head = copy_range(content, 0, end);
                assert(head@ =~= content@.take(end as int));
                if let Some(cmd) = utf8_to_string(&head) {
                    return cmd;
                }
            }
        }
    }
    match comm {
        Some(m) => {
            let chars = str_chars(m);
            let trimmed = trim_chars(&chars);
            chars_to_string(&trimmed)
        },
        None => {
            let q = vec!['?'];
            assert(q@ =~= seq!['?']);
            chars_to_string(&q)
        },
    }
}

/// The namespace inode of kind `i` in what was read of the namespace files.
pub open spec fn ino_part(ns_inos: Seq<Option<(u64, u64, u64)>>, i: int, part: int) -> u64 {
    match ns_inos[i] {
        Some(t) => if part == 0 {
            t.0
        } else if part == 1 {
            t.1
        } else {
            t.2
        },
        None => 0,
    }
}

fn ino_at(ns_inos: &Vec<Option<(u64, u64, u64)>>, i: usize, part: usize) -> (r: u64)
    requires
        i < ns_inos.len(),
    ensures
        r == ino_part(ns_inos@, i as int, part as int),
{
    match ns_inos[i] {
        Some(t) => if part == 0 {
            t.0
        } else if part == 1 {
            t.1
        } else {
            t.2
        },
        None => 0,
    }
}

impl Process {
    /// The process record built from what was read of one `/proc/[pid]`:
    /// its owner, the PID, state and PPID of its `stat` file, the
    /// (inode, parent inode, owner inode) of each namespace kind that could be
    /// read, and its command. Its network namespace ID is unusable.
    pub fn from_parts(
        uid: u32,
        stat: (u32, char, u32),
        ns_inos: &Vec<Option<(u64, u64, u64)>>,
        command: String,
    ) -> (r: Process)
        requires
            ns_inos.len() == 8,
        ensures
            r.pid == stat.0,
            r.state == stat.1,
            r.ppid == stat.2,
            r.tpid == 0,
            r.uid == uid,
            r.netnsid == LSNS_NETNS_UNUSABLE,
            forall|i: int| 0 <= i < 8 ==> r.ns_ids@[i] == ino_part(ns_inos@, i, 0),
            forall|i: int| 0 <= i < 8 ==> r.ns_pids@[i] == ino_part(ns_inos@, i, 1),
            forall|i: int| 0 <= i < 8 ==> r.ns_oids@[i] == ino_part(ns_inos@, i, 2),
            forall|i: int| 0 <= i < 8 ==> r.ns_siblings@[i]@.len() == 0,
            r.command@ == command@,
    {
        let ns_ids: [u64; 8] = [
            ino_at(ns_inos, 0, 0),
            ino_at(ns_inos, 1, 0),
            ino_at(ns_inos, 2, 0),
            ino_at(ns_inos, 3, 0),
            ino_at(ns_inos, 4, 0),
            ino_at(ns_inos, 5, 0),
            ino_at(ns_inos, 6, 0),
            ino_at(ns_inos, 7, 0),
        ];
        let ns_pids: [u64; 8] = [
            ino_at(ns_inos, 0, 1),
            ino_at(ns_inos, 1, 1),
            ino_at(ns_inos, 2, 1),
            ino_at(ns_inos, 3, 1),
            ino_at(ns_inos, 4, 1),
            ino_at(ns_inos, 5, 1),
            ino_at(ns_inos, 6, 1),
            ino_at(ns_inos, 7, 1),
        ];
        let ns_oids: [u64; 8] = [
            ino_at(ns_inos, 0, 2),
            ino_at(ns_inos, 1, 2),
            ino_at(ns_inos, 2, 2),
            ino_at(ns_inos, 3, 2),
            ino_at(ns_inos, 4, 2),
            ino_at(ns_inos, 5, 2),
            ino_at(ns_inos, 6, 2),
            ino_at(ns_inos, 7, 2),
        ];
        let base = Process::new();
        let r = Process {
            pid: stat.0,
            ppid: stat.2,
            tpid: base.tpid,
            state: stat.1,
            uid,
            ns_ids,
            ns_pids,
            ns_oids,
            netnsid: LSNS_NETNS_UNUSABLE,
            ns_siblings: base.ns_siblings,
            command,
        };
        assert forall|i: int| 0 <= i < 8 implies r.ns_ids@[i] == ino_part(ns_inos@, i, 0)
            && r.ns_pids@[i] == ino_part(ns_inos@, i, 1) && r.ns_oids@[i] == ino_part(
            ns_inos@,
            i,
            2,
        ) by {
            assert(i == 0 || i == 1 || i == 2 || i == 3 || i == 4 || i == 5 || i == 6 || i == 7);
        }
        r
    }
}

} // verus!
