//! Reading the head of `/proc/[pid]/stat`: `PID (COMMAND) STATE PPID ...`.

use vstd::prelude::*;
use crate::text::{
    decimal, is_digit, is_ws, lemma_decimal_roundtrip, lemma_find_before_at, lemma_find_from_at,
    lemma_token_end_at, skip_ws, skip_ws_back, tokens_from, copy_range, find_first, find_last,
    index_of_first, index_of_last, lemma_find_before, parse_u32, parse_unsigned, split_whitespace,
    str_chars, tokens, trim, trim_chars, views,
};

verus! {

/// What `parse_process_stat` returns for the text `s`.
///
/// The command name runs from the first `(` to the last `)`, so it may hold
/// spaces and parentheses itself. The PID is the text before the first `(`,
/// trimmed; the state is the first character of the first whitespace-separated
/// field after the last `)`, and the PPID is the second such field.
pub open spec fn spec_parse_process_stat(s: Seq<char>) -> Option<(u32, char, u32)> {
    match (find_last(s, ')'), find_first(s, '(')) {
        (Some(r), Some(l)) => {
            if l >= r {
                None
            } else {
                let pid = parse_unsigned(trim(s.take(l)), u32::MAX as nat);
                let fields = tokens(s.skip(r + 1));
                if pid is Some && fields.len() >= 2 && fields[0].len() > 0 && parse_unsigned(
                    fields[1],
                    u32::MAX as nat,
                ) is Some {
                    Some(
                        (
                            pid->0 as u32,
                            fields[0][0],
                            parse_unsigned(fields[1], u32::MAX as nat)->0 as u32,
                        ),
                    )
                } else {
                    None
                }
            }
        },
        _ => None,
    }
}

/// Parses `/proc/[pid]/stat` content into its PID, state and PPID.
pub fn parse_process_stat(stat: &str) -> (r: Option<(u32, char, u32)>)
    ensures
        r == spec_parse_process_stat(stat@),
{
    let s = str_chars(stat);
    let rparen_pos = match index_of_last(&s, ')') {
        Some(p) => p,
        None => return None,
    };
    let lparen_pos = match index_of_first(&s, '(') {
        Some(p) => p,
        None => return None,
    };
    proof {
        lemma_find_before(s@, ')', s@.len() as int);
        assert(find_last(s@, ')') == Some(rparen_pos as int));
        assert(rparen_pos < s.len());
    }
    if lparen_pos >= rparen_pos {
        return None;
    }
    let pid_part = copy_range(&s, 0, lparen_pos);
    let pid_str = trim_chars(&pid_part);
    assert(pid_part@ =~= s@.take(lparen_pos as int));
    let pid = match parse_u32(&pid_str) {
        Some(p) => p,
        None => return None,
    };
    let after_paren = copy_range(&s, rparen_pos + 1, s.len());
    assert(after_paren@ =~= s@.skip(rparen_pos + 1));
    let parts = split_whitespace(&after_paren);
    assert(views(parts@).len() == parts@.len());
    if parts.len() < 2 {
        return None;
    }
    assert(views(parts@)[0] == parts@[0]@);
    assert(views(parts@)[1] == parts@[1]@);
    if parts[0].len() == 0 {
        return None;
    }
    let state = parts[0][0];
    let ppid = match parse_u32(&parts[1]) {
        Some(p) => p,
        None => return None,
    };
    Some((pid, state, ppid))
}


/// The head of a stat line as the kernel writes it: the PID, the command
/// in parentheses, the state, the PPID, and the fields that follow.
pub open spec fn stat_text(pid: u32, comm: Seq<char>, state: char, ppid: u32, rest: Seq<char>) -> Seq<
    char,
> {
    decimal(pid as nat) + seq![' ', '('] + comm + seq![')', ' ', state, ' '] + decimal(ppid as nat)
        + rest
}

/// Reading a stat line gives back its PID, state and PPID, whatever the
/// command name holds (spaces and parentheses included), where the state is
/// a character other than whitespace and `)` and the fields that follow the
/// PPID are separated from it by whitespace and hold no `)`.
pub proof fn lemma_parse_stat_text(pid: u32, comm: Seq<char>, state: char, ppid: u32, rest: Seq<char>)
    requires
        !is_ws(state),
        state != ')',
        rest.len() == 0 || is_ws(rest[0]),
        forall|k: int| 0 <= k < rest.len() ==> rest[k] != ')',
    ensures
        spec_parse_process_stat(stat_text(pid, comm, state, ppid, rest)) == Some((pid, state, ppid)),
{
    let s = stat_text(pid, comm, state, ppid, rest);
    let d = decimal(pid as nat);
    let e = decimal(ppid as nat);
    lemma_decimal_roundtrip(pid as nat);
    lemma_decimal_roundtrip(ppid as nat);
    let l = d.len() as int;
    let r = l + 2 + comm.len();
    assert(forall|k: int| 0 <= k < d.len() ==> is_digit(#[trigger] d[k]));
    assert(forall|k: int| 0 <= k < e.len() ==> is_digit(#[trigger] e[k]));
    // the first `(` follows the PID and a space
    assert(s[l + 1] == '(');
    assert forall|k: int| 0 <= k < l + 1 implies s[k] != '(' by {
        if k < l {
            assert(s[k] == d[k]);
        }
    }
    lemma_find_from_at(s, '(', 0, l + 1);
    // the last `)` follows the command
    assert(s[r] == ')');
    assert forall|k: int| r < k < s.len() implies s[k] != ')' by {
        if k >= r + 4 + e.len() {
            assert(s[k] == rest[k - (r + 4 + e.len())]);
        } else if k >= r + 4 {
            assert(s[k] == e[k - (r + 4)]);
        }
    }
    lemma_find_before_at(s, ')', s.len() as int, r);
    // the PID field
    let head = s.take(l + 1);
    assert(head =~= d + seq![' ']);
    assert(!is_ws(head[0])) by {
        assert(head[0] == d[0]);
    }
    assert(skip_ws(head, 0) == 0);
    assert(!is_ws(head[l - 1])) by {
        assert(head[l - 1] == d[l - 1]);
    }
    assert(skip_ws_back(head, l + 1) == skip_ws_back(head, l));
    assert(skip_ws_back(head, l) == l);
    assert(head.subrange(0, l) =~= d);
    // the fields after the command
    let t = s.skip(r + 1);
    assert(t =~= seq![' ', state, ' '] + e + rest);
    let n = e.len() as int;
    assert(is_ws(t[0]));
    assert(t[1] == state);
    assert(is_ws(t[2]));
    lemma_token_end_at(t, 1, 2);
    assert forall|k: int| 3 <= k < 3 + n implies !is_ws(t[k]) by {
        assert(t[k] == e[k - 3]);
    }
    if rest.len() > 0 {
        assert(t[3 + n] == rest[0]);
    }
    lemma_token_end_at(t, 3, 3 + n);
    assert(t.subrange(1, 2) =~= seq![state]);
    assert(t.subrange(3, 3 + n) =~= e);
    let toks = tokens_from(t, 0);
    assert(toks == tokens_from(t, 1));
    assert(tokens_from(t, 1) == seq![seq![state]] + tokens_from(t, 2));
    assert(tokens_from(t, 2) == tokens_from(t, 3));
    assert(tokens_from(t, 3) == seq![e] + tokens_from(t, 3 + n));
    assert(toks[0] == seq![state]);
    assert(toks[1] == e);
}

} // verus!
