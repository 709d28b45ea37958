//! The listing: user names from passwd text, and the table rows.

use vstd::prelude::*;
use crate::model::{Lsns, Namespace, Process};
use crate::mount::{lines, ns_name, ns_name_chars, split_lines};
use crate::text::{
    chars_to_string, copy_range, decimal, find_first, index_of_from, lemma_find_from, parse_u32,
    parse_unsigned, str_chars, u32_to_chars, views,
};

verus! {

// ---------------------------------------------------------------- padding

/// `n` spaces.
pub open spec fn spaces(n: int) -> Seq<char> {
    Seq::new(if n > 0 {
        n as nat
    } else {
        0
    }, |i: int| ' ')
}

/// `s` right-aligned in `w` columns (`{:>w}`): spaces before it up to width `w`.
pub open spec fn pad_left(s: Seq<char>, w: nat) -> Seq<char> {
    spaces(w - s.len()) + s
}

/// `s` left-aligned in `w` columns (`{:<w}`): spaces after it up to width `w`.
pub open spec fn pad_right(s: Seq<char>, w: nat) -> Seq<char> {
    s + spaces(w - s.len())
}

/// Appends `n` spaces to `out`.
fn push_spaces(out: &mut Vec<char>, n: usize)
    ensures
        final(out)@ == old(out)@ + spaces(n as int),
{
    let mut i: usize = 0;
    while i < n
        invariant
            i <= n,
            out@ == old(out)@ + spaces(i as int),
        decreases n - i,
    {
        out.push(' ');
        i += 1;
        assert(out@ =~= old(out)@ + spaces(i as int));
    }
}

/// Appends `s` to `out`.
fn push_all(out: &mut Vec<char>, s: &Vec<char>)
    ensures
        final(out)@ == old(out)@ + s@,
{
    let mut i: usize = 0;
    while i < s.len()
        invariant
            i <= s.len(),
            out@ == old(out)@ + s@.take(i as int),
        decreases s.len() - i,
    {
        out.push(s[i]);
        i += 1;
        assert(out@ =~= old(out)@ + s@.take(i as int));
    }
    assert(s@.take(i as int) =~= s@);
}

/// Appends `s`, right-aligned in `w` columns.
fn push_left_padded(out: &mut Vec<char>, s: &Vec<char>, w: usize)
    ensures
        final(out)@ == old(out)@ + pad_left(s@, w as nat),
{
    let n: usize = if s.len() < w {
        w - s.len()
    } else {
        0
    };
    push_spaces(out, n);
    push_all(out, s);
    assert(spaces(n as int) =~= spaces(w - s@.len()));
    assert(old(out)@ + spaces(n as int) + s@ =~= old(out)@ + pad_left(s@, w as nat));
}

/// Appends `s`, left-aligned in `w` columns.
fn push_right_padded(out: &mut Vec<char>, s: &Vec<char>, w: usize)
    ensures
        final(out)@ == old(out)@ + pad_right(s@, w as nat),
{
    let n: usize = if s.len() < w {
        w - s.len()
    } else {
        0
    };
    push_all(out, s);
    push_spaces(out, n);
    assert(spaces(n as int) =~= spaces(w - s@.len()));
    assert(old(out)@ + s@ + spaces(n as int) =~= old(out)@ + pad_right(s@, w as nat));
}


// ---------------------------------------------------------------- users

/// `str::split(c)`: the pieces of `s` between the occurrences of `c`.
pub open spec fn split_on(s: Seq<char>, c: char) -> Seq<Seq<char>>
    decreases s.len(),
{
    match find_first(s, c) {
        Some(j) => {
            proof {
                lemma_find_from(s, c, 0);
            }
            seq![s.take(j)] + split_on(s.skip(j + 1), c)
        },
        None => seq![s],
    }
}

/// The pieces joined back together, with `c` between each two.
pub open spec fn join_with(pieces: Seq<Seq<char>>, c: char) -> Seq<char>
    decreases pieces.len(),
{
    if pieces.len() == 0 {
        Seq::empty()
    } else if pieces.len() == 1 {
        pieces[0]
    } else {
        pieces[0] + seq![c] + join_with(pieces.drop_first(), c)
    }
}

/// Splitting at `c` cuts `s` at each `c` and nowhere else: the pieces hold
/// no `c`, and joining them with `c` gives `s` back.
pub proof fn lemma_split_on(s: Seq<char>, c: char)
    ensures
        split_on(s, c).len() >= 1,
        join_with(split_on(s, c), c) == s,
        forall|k: int, i: int|
            0 <= k < split_on(s, c).len() && 0 <= i < split_on(s, c)[k].len() ==> #[trigger] split_on(
                s,
                c,
            )[k][i] != c,
    decreases s.len(),
{
    lemma_find_from(s, c, 0);
    match find_first(s, c) {
        Some(j) => {
            let rest = s.skip(j + 1);
            lemma_split_on(rest, c);
            let p = split_on(s, c);
            assert(p == seq![s.take(j)] + split_on(rest, c));
            assert(p.drop_first() =~= split_on(rest, c));
            assert(p[0] == s.take(j));
            assert(join_with(p, c) == s.take(j) + seq![c] + join_with(split_on(rest, c), c));
            assert(s.take(j) + seq![c] + rest =~= s);
            assert forall|k: int, i: int|
                0 <= k < p.len() && 0 <= i < p[k].len() implies #[trigger] p[k][i] != c by {
                if k > 0 {
                    assert(p[k] == split_on(rest, c)[k - 1]);
                }
            }
        },
        None => {},
    }
}

/// Splits `s` at each `c`.
pub fn split_chars(s: &Vec<char>, c: char) -> (r: Vec<Vec<char>>)
    ensures
        views(r@) == split_on(s@, c),
{
    let mut r: Vec<Vec<char>> = Vec::new();
    let mut pos: usize = 0;
    assert(s@.skip(0) =~= s@);
    assert(views(r@) =~= Seq::<Seq<char>>::empty());
    loop
        invariant
            pos <= s.len(),
            split_on(s@, c) == views(r@) + split_on(s@.skip(pos as int), c),
        decreases s.len() - pos,
    {
        let ghost rest = s@.skip(pos as int);
        match index_of_from(s, c, pos) {
            Some(j) => {
                let piece = copy_range(s, pos, j);
                proof {
                    assert(rest.take(j - pos) =~= piece@);
                    assert(rest.skip(j - pos + 1) =~= s@.skip(j + 1));
                    assert(views(r@.push(piece)) =~= views(r@).push(piece@));
                }
                r.push(piece);
                pos = j + 1;
            },
            None => {
                let piece = copy_range(s, pos, s.len());
                proof {
                    assert(rest =~= piece@);
                    assert(views(r@.push(piece)) =~= views(r@).push(piece@));
                }
                r.push(piece);
                return r;
            },
        }
    }
}

/// The user name of the first passwd line among `ls` with at least three
/// `:`-separated fields whose third field reads as `uid`.
pub open spec fn passwd_user(ls: Seq<Seq<char>>, uid: u32) -> Option<Seq<char>>
    decreases ls.len(),
{
    if ls.len() == 0 {
        None
    } else {
        let f = split_on(ls[0], ':');
        if f.len() >= 3 && parse_unsigned(f[2], u32::MAX as nat) == Some(uid as nat) {
            Some(f[0])
        } else {
            passwd_user(ls.drop_first(), uid)
        }
    }
}

/// A passwd line with at least three `:`-separated fields whose third
/// field reads as `uid`.
pub open spec fn passwd_line_has_uid(line: Seq<char>, uid: u32) -> bool {
    let f = split_on(line, ':');
    f.len() >= 3 && parse_unsigned(f[2], u32::MAX as nat) == Some(uid as nat)
}

/// The name found for `uid` is the login name (first field) of the first
/// line that has that UID in its third field; none is found where no line has.
pub proof fn lemma_passwd_user(ls: Seq<Seq<char>>, uid: u32)
    ensures
        passwd_user(ls, uid) matches Some(n) ==> exists|k: int|
            0 <= k < ls.len() && #[trigger] passwd_line_has_uid(ls[k], uid) && split_on(
                ls[k],
                ':',
            )[0] == n && forall|k2: int| 0 <= k2 < k ==> !passwd_line_has_uid(ls[k2], uid),
        passwd_user(ls, uid) is None ==> forall|k: int|
            0 <= k < ls.len() ==> !#[trigger] passwd_line_has_uid(ls[k], uid),
    decreases ls.len(),
{
    if ls.len() > 0 {
        let rest = ls.drop_first();
        lemma_passwd_user(rest, uid);
        if !passwd_line_has_uid(ls[0], uid) {
            if let Some(n) = passwd_user(rest, uid) {
                let k = choose|k: int|
                    0 <= k < rest.len() && #[trigger] passwd_line_has_uid(rest[k], uid) && split_on(
                        rest[k],
                        ':',
                    )[0] == n && forall|k2: int|
                        0 <= k2 < k ==> !passwd_line_has_uid(rest[k2], uid);
                assert(ls[k + 1] == rest[k]);
                assert forall|k2: int| 0 <= k2 < k + 1 implies !passwd_line_has_uid(ls[k2], uid) by {
                    if k2 > 0 {
                        assert(ls[k2] == rest[k2 - 1]);
                    }
                }
                assert(passwd_line_has_uid(ls[k + 1], uid));
            } else {
                assert forall|k: int| 0 <= k < ls.len() implies !#[trigger] passwd_line_has_uid(
                    ls[k],
                    uid,
                ) by {
                    if k > 0 {
                        assert(ls[k] == rest[k - 1]);
                    }
                }
            }
        } else {
            assert(passwd_line_has_uid(ls[0], uid));
        }
    }
}

/// The name of the user `uid` in the passwd text `passwd`, if it has one.
pub fn get_username(passwd: &str, uid: u32) -> (r: Option<String>)
    ensures
        r matches Some(name) ==> passwd_user(lines(passwd@), uid) == Some(name@),
        r is None ==> passwd_user(lines(passwd@), uid) is None,
{
    let s = str_chars(passwd);
    let ls = split_lines(&s);
    let ghost v = views(ls@);
    let mut k: usize = 0;
    assert(v.skip(0) =~= v);
    while k < ls.len()
        invariant
            k <= ls.len(),
            v == views(ls@),
            v == lines(passwd@),
            passwd_user(v, uid) == passwd_user(v.skip(k as int), uid),
        decreases ls.len() - k,
    {
        let parts = split_chars(&ls[k], ':');
        proof {
            assert(v.skip(k as int)[0] == ls@[k as int]@);
            assert(v.skip(k as int).drop_first() =~= v.skip(k + 1));
            assert(views(parts@).len() == parts@.len());
        }
        if parts.len() >= 3 {
            assert(views(parts@)[2] == parts@[2]@);
            assert(views(parts@)[0] == parts@[0]@);
            match parse_u32(&parts[2]) {
                Some(line_uid) => {
                    if line_uid == uid {
                        return Some(chars_to_string(&parts[0]));
                    }
                },
                None => {},
            }
        }
        k += 1;
    }
    None
}

// ---------------------------------------------------------------- rows

/// The first index `>= i` of a process with PID `pid`.
pub open spec fn process_index_from(procs: Seq<Process>, pid: u32, i: int) -> Option<int>
    decreases procs.len() - i,
{
    if i < 0 || i >= procs.len() {
        None
    } else if procs[i].pid == pid {
        Some(i)
    } else {
        process_index_from(procs, pid, i + 1)
    }
}

/// The index of the first process with PID `pid`.
pub open spec fn process_index(procs: Seq<Process>, pid: u32) -> Option<int> {
    process_index_from(procs, pid, 0)
}

/// The process shown for a PID is the first one in the list with that PID;
/// none is shown where no process has it.
pub proof fn lemma_process_index(procs: Seq<Process>, pid: u32)
    ensures
        process_index(procs, pid) matches Some(i) ==> 0 <= i < procs.len() && procs[i].pid == pid
            && forall|j: int| 0 <= j < i ==> procs[j].pid != pid,
        process_index(procs, pid) is None ==> forall|j: int|
            0 <= j < procs.len() ==> procs[j].pid != pid,
{
    lemma_process_index_from(procs, pid, 0);
}

/// `process_index_from` finds the first process from `i` with the PID.
pub proof fn lemma_process_index_from(procs: Seq<Process>, pid: u32, i: int)
    requires
        0 <= i,
    ensures
        process_index_from(procs, pid, i) matches Some(k) ==> i <= k < procs.len() && procs[k].pid
            == pid && forall|j: int| i <= j < k ==> procs[j].pid != pid,
        process_index_from(procs, pid, i) is None ==> forall|j: int|
            i <= j < procs.len() ==> procs[j].pid != pid,
    decreases procs.len() - i,
{
    if i < procs.len() && procs[i].pid != pid {
        lemma_process_index_from(procs, pid, i + 1);
    }
}

/// The user shown for `uid`: its name in the passwd text where that gives
/// one, else the number.
pub open spec fn user_label(passwd: Option<Seq<char>>, uid: u32) -> Seq<char> {
    match passwd {
        Some(p) if passwd_user(lines(p), uid) is Some => passwd_user(lines(p), uid)->0,
        _ => decimal(uid as nat),
    }
}

/// The header of the listing, in the columns of `row_of`.
pub open spec fn header() -> Seq<char> {
    pad_left(seq!['N', 'S'], 10) + seq![' '] + pad_right(seq!['T', 'Y', 'P', 'E'], 6) + seq![' ']
        + pad_left(seq!['N', 'P', 'R', 'O', 'C', 'S'], 6) + seq![' '] + pad_left(
        seq!['P', 'I', 'D'],
        4,
    ) + seq![' '] + pad_right(seq!['U', 'S', 'E', 'R'], 10) + seq![' '] + seq![
        'C',
        'O',
        'M',
        'M',
        'A',
        'N',
        'D',
    ]
}

/// The row of namespace `ns`, in columns (counted from 1): the ID
/// right-aligned in 1-10, the kind left-aligned in 12-17, the process count
/// right-aligned ending at 24, the representative PID right-aligned in
/// 26-29 (blank where it is 0), the user left-aligned in 31-40, the command
/// from 42; a value wider than its column pushes the rest to the right.
/// The user is that of the representative process (or of the namespace,
/// where no process has that PID), and the command that process's.
pub open spec fn row_of(ns: Namespace, procs: Seq<Process>, passwd: Option<Seq<char>>) -> Seq<
    char,
> {
    let rep_pid = match ns.representative_pid {
        Some(p) => p,
        None => 0,
    };
    let rep = process_index(procs, rep_pid);
    let uid = match rep {
        Some(i) => procs[i].uid,
        None => ns.uid_fallback,
    };
    let command = match rep {
        Some(i) => procs[i].command@,
        None => Seq::empty(),
    };
    let pid_col = if rep_pid > 0 {
        decimal(rep_pid as nat)
    } else {
        Seq::empty()
    };
    pad_left(decimal(ns.id as nat), 10) + seq![' '] + pad_right(
        ns_name(ns.ns_type.index_of() as int),
        6,
    ) + seq![' '] + pad_left(decimal(ns.nprocs as nat), 6) + seq![' '] + pad_left(pid_col, 4)
        + seq![' '] + pad_right(user_label(passwd, uid), 10) + seq![' '] + command
}

/// Padding a value that fits its width fills exactly that width.
pub proof fn lemma_pad_len(s: Seq<char>, w: nat)
    requires
        s.len() <= w,
    ensures
        pad_left(s, w).len() == w,
        pad_right(s, w).len() == w,
        pad_left(s, w).subrange(w - s.len(), w as int) == s,
        pad_right(s, w).subrange(0, s.len() as int) == s,
        forall|k: int| 0 <= k < w - s.len() ==> #[trigger] pad_left(s, w)[k] == ' ',
        forall|k: int| s.len() <= k < w ==> #[trigger] pad_right(s, w)[k] == ' ',
{
    assert(pad_left(s, w).subrange(w - s.len(), w as int) =~= s);
    assert(pad_right(s, w).subrange(0, s.len() as int) =~= s);
}

/// Where each value fits its column, a row puts the ID in columns 1-10,
/// the kind in 12-17, the process count ending at 24, the PID in 26-29, the
/// user in 31-40 and the command from 42, with blanks between.
pub proof fn lemma_row_columns(ns: Namespace, procs: Seq<Process>, passwd: Option<Seq<char>>)
    requires
        decimal(ns.id as nat).len() <= 10,
        decimal(ns.nprocs as nat).len() <= 6,
        ns.representative_pid matches Some(p) ==> decimal(p as nat).len() <= 4,
        user_label(
            passwd,
            match process_index(procs, ns.representative_pid.unwrap_or(0)) {
                Some(i) => procs[i].uid,
                None => ns.uid_fallback,
            },
        ).len() <= 10,
    ensures
        ({
            let r = row_of(ns, procs, passwd);
            let rep_pid = ns.representative_pid.unwrap_or(0);
            &&& r.len() >= 41
            &&& r.subrange(0, 10) == pad_left(decimal(ns.id as nat), 10)
            &&& r[10] == ' '
            &&& r.subrange(11, 17) == pad_right(ns_name(ns.ns_type.index_of() as int), 6)
            &&& r[17] == ' '
            &&& r.subrange(18, 24) == pad_left(decimal(ns.nprocs as nat), 6)
            &&& r[24] == ' '
            &&& r.subrange(25, 29) == pad_left(
                if rep_pid > 0 {
                    decimal(rep_pid as nat)
                } else {
                    Seq::empty()
                },
                4,
            )
            &&& r[29] == ' '
            &&& r.subrange(30, 40) == pad_right(
                user_label(
                    passwd,
                    match process_index(procs, rep_pid) {
                        Some(i) => procs[i].uid,
                        None => ns.uid_fallback,
                    },
                ),
                10,
            )
            &&& r[40] == ' '
        }),
{
    let rep_pid = ns.representative_pid.unwrap_or(0);
    let rep = process_index(procs, rep_pid);
    let uid = match rep {
        Some(i) => procs[i].uid,
        None => ns.uid_fallback,
    };
    let pid_col = if rep_pid > 0 {
        decimal(rep_pid as nat)
    } else {
        Seq::<char>::empty()
    };
    let a = pad_left(decimal(ns.id as nat), 10);
    let b = pad_right(ns_name(ns.ns_type.index_of() as int), 6);
    let c = pad_left(decimal(ns.nprocs as nat), 6);
    let d = pad_left(pid_col, 4);
    let e = pad_right(user_label(passwd, uid), 10);
    let name = ns_name(ns.ns_type.index_of() as int);
    assert(name.len() <= 6);
    lemma_pad_len(decimal(ns.id as nat), 10);
    lemma_pad_len(name, 6);
    lemma_pad_len(decimal(ns.nprocs as nat), 6);
    lemma_pad_len(pid_col, 4);
    lemma_pad_len(user_label(passwd, uid), 10);
    let command = match rep {
        Some(i) => procs[i].command@,
        None => Seq::<char>::empty(),
    };
    let r = row_of(ns, procs, passwd);
    assert(r =~= a + seq![' '] + b + seq![' '] + c + seq![' '] + d + seq![' '] + e + seq![' ']
        + command);
    assert(r.subrange(0, 10) =~= a);
    assert(r.subrange(11, 17) =~= b);
    assert(r.subrange(18, 24) =~= c);
    assert(r.subrange(25, 29) =~= d);
    assert(r.subrange(30, 40) =~= e);
}

/// The header line of the listing.
pub fn header_line() -> (r: String)
    ensures
        r@ == header(),
{
    let mut out: Vec<char> = Vec::new();
    push_left_padded(&mut out, &vec!['N', 'S'], 10);
    out.push(' ');
    push_right_padded(&mut out, &vec!['T', 'Y', 'P', 'E'], 6);
    out.push(' ');
    push_left_padded(&mut out, &vec!['N', 'P', 'R', 'O', 'C', 'S'], 6);
    out.push(' ');
    push_left_padded(&mut out, &vec!['P', 'I', 'D'], 4);
    out.push(' ');
    push_right_padded(&mut out, &vec!['U', 'S', 'E', 'R'], 10);
    out.push(' ');
    push_all(&mut out, &vec!['C', 'O', 'M', 'M', 'A', 'N', 'D']);
    assert(out@ =~= header());
    chars_to_string(&out)
}

/// The index of the first process with PID `pid`.
fn find_process(procs: &Vec<Process>, pid: u32) -> (r: Option<usize>)
    ensures
        r matches Some(i) ==> i < procs.len() && process_index(procs@, pid) == Some(i as int),
        r is None ==> process_index(procs@, pid) is None,
{
    let mut i: usize = 0;
    while i < procs.len()
        invariant
            i <= procs.len(),
            process_index(procs@, pid) == process_index_from(procs@, pid, i as int),
        decreases procs.len() - i,
    {
        if procs[i].pid == pid {
            return Some(i);
        }
        i += 1;
    }
    None
}

/// The user shown for `uid`.
fn user_label_chars(passwd: Option<&str>, uid: u32) -> (r: Vec<char>)
    ensures
        r@ == user_label(
            match passwd {
                Some(p) => Some(p@),
                None => None,
            },
            uid,
        ),
{
    match passwd {
        Some(p) => match get_username(p, uid) {
            Some(name) => str_chars(name.as_str()),
            None => u32_to_chars(uid),
        },
        None => u32_to_chars(uid),
    }
}

/// The row of the namespace `ns`.
pub fn namespace_row(ns: &Namespace, procs: &Vec<Process>, passwd: Option<&str>) -> (r: String)
    ensures
        r@ == row_of(
            *ns,
            procs@,
            match passwd {
                Some(p) => Some(p@),
                None => None,
            },
        ),
{
    let rep_pid: u32 = match ns.representative_pid {
        Some(p) => p,
        None => 0,
    };
    let rep_proc = find_process(procs, rep_pid);
    let uid: u32 = match rep_proc {
        Some(i) => procs[i].uid,
        None => ns.uid_fallback,
    };
    let user = user_label_chars(passwd, uid);
    let command: Vec<char> = match rep_proc {
        Some(i) => str_chars(procs[i].command.as_str()),
        None => Vec::new(),
    };
    let pid_col: Vec<char> = if rep_pid > 0 {
        u32_to_chars(rep_pid)
    } else {
        Vec::new()
    };
    let ghost pw = match passwd {
        Some(p) => Some(p@),
        None => None,
    };
    let ghost rep = process_index(procs@, rep_pid);
    assert(user@ == user_label(pw, uid));
    assert(command@ == match rep {
        Some(k) => procs@[k].command@,
        None => Seq::<char>::empty(),
    });
    let id_chars = u32_to_chars(ns.id);
    let type_chars = ns_name_chars(ns.ns_type.index());
    let nprocs_chars = u32_to_chars(ns.nprocs);
    let mut out: Vec<char> = Vec::new();
    push_left_padded(&mut out, &id_chars, 10);
    out.push(' ');
    push_right_padded(&mut out, &type_chars, 6);
    out.push(' ');
    push_left_padded(&mut out, &nprocs_chars, 6);
    out.push(' ');
    let ghost part1 = out@;
    assert(part1 =~= pad_left(decimal(ns.id as nat), 10) + seq![' '] + pad_right(
        ns_name(ns.ns_type.index_of() as int),
        6,
    ) + seq![' '] + pad_left(decimal(ns.nprocs as nat), 6) + seq![' ']);
    push_left_padded(&mut out, &pid_col, 4);
    out.push(' ');
    push_right_padded(&mut out, &user, 10);
    out.push(' ');
    push_all(&mut out, &command);
    assert(out@ =~= part1 + pad_left(pid_col@, 4) + seq![' '] + pad_right(user@, 10) + seq![' ']
        + command@);
    assert(out@ =~= row_of(*ns, procs@, pw));
    chars_to_string(&out)
}

/// The lines of the listing: the header, then one row per namespace.
pub fn display_namespaces(lsns: &Lsns, passwd: Option<&str>) -> (r: Vec<String>)
    ensures
        r.len() == lsns.namespaces.len() + 1,
        r@[0]@ == header(),
        forall|i: int|
            0 <= i < lsns.namespaces.len() ==> #[trigger] r@[i + 1]@ == row_of(
                lsns.namespaces@[i],
                lsns.processes@,
                match passwd {
                    Some(p) => Some(p@),
                    None => None,
                },
            ),
{
    let mut r: Vec<String> = Vec::new();
    r.push(header_line());
    let mut i: usize = 0;
    while i < lsns.namespaces.len()
        invariant
            i <= lsns.namespaces.len(),
            r.len() == i + 1,
            r@[0]@ == header(),
            forall|k: int|
                0 <= k < i ==> #[trigger] r@[k + 1]@ == row_of(
                    lsns.namespaces@[k],
                    lsns.processes@,
                    match passwd {
                        Some(p) => Some(p@),
                        None => None,
                    },
                ),
        decreases lsns.namespaces.len() - i,
    {
        let row = namespace_row(&lsns.namespaces[i], &lsns.processes, passwd);
        r.push(row);
        i += 1;
    }
    r
}

} // verus!
