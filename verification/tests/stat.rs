use uu_lsns::stat::parse_process_stat;

#[test]
fn test_parse_simple_stat() {
    let stat = "1234 (bash) S 1200 1234 1234 34816 1500";
    let result = parse_process_stat(stat);
    assert_eq!(result, Some((1234, 'S', 1200)));
}

#[test]
fn test_parse_stat_with_parens_in_name() {
    let stat = "5678 (my app (v2)) R 1 5678 5678";
    let result = parse_process_stat(stat);
    assert_eq!(result, Some((5678, 'R', 1)));
}

#[test]
fn test_parse_stat_with_spaces_in_name() {
    let stat = "9999 (Google Chrome) S 1234 9999 9999";
    let result = parse_process_stat(stat);
    assert_eq!(result, Some((9999, 'S', 1234)));
}

#[test]
fn test_parse_invalid_stat() {
    assert_eq!(parse_process_stat("invalid"), None);
    assert_eq!(parse_process_stat("1234 bash S 1200"), None); // Missing parens
    assert_eq!(parse_process_stat(""), None);
}

#[test]
fn stat_parens_out_of_order() {
    assert_eq!(parse_process_stat("1 )x( S 2"), None);
}

#[test]
fn stat_pid_with_plus_and_whitespace() {
    assert_eq!(parse_process_stat("  +42\t(cat) Z 7"), Some((42, 'Z', 7)));
}

#[test]
fn stat_pid_overflow() {
    assert_eq!(parse_process_stat("4294967296 (a) S 1"), None);
    assert_eq!(parse_process_stat("4294967295 (a) S 4294967295"), Some((u32::MAX, 'S', u32::MAX)));
}

#[test]
fn stat_missing_ppid() {
    assert_eq!(parse_process_stat("12 (a) S"), None);
    assert_eq!(parse_process_stat("12 (a) S x"), None);
    assert_eq!(parse_process_stat("(a) S 1"), None);
}

#[test]
fn stat_state_first_char_of_field() {
    assert_eq!(parse_process_stat("3 (a)Sleep 9"), Some((3, 'S', 9)));
}

#[test]
fn stat_unicode_whitespace() {
    assert_eq!(parse_process_stat("5\u{3000}(a)\u{a0}R\u{2003}6"), Some((5, 'R', 6)));
}
