use task_runner::utils::{
    expand_env_vars, format_duration, get_shell_args, get_shell_command, is_valid_task_name,
    parse_command, u64_to_string,
};

#[test]
fn expand_braced_and_plain_variables() {
    let env = vec![("NAME".to_string(), "world".to_string())];
    assert_eq!(expand_env_vars("echo ${NAME} $NAME", &env), "echo world world");
}

#[test]
fn expand_walks_pairs_in_order() {
    let env = vec![
        ("A".to_string(), "$B".to_string()),
        ("B".to_string(), "two".to_string()),
    ];
    // the first pair's replacement happens before the second pair is applied
    assert_eq!(expand_env_vars("$A", &env), "two");
}

#[test]
fn expand_leaves_unknown_variables_alone() {
    let env = vec![("NAME".to_string(), "x".to_string())];
    assert_eq!(expand_env_vars("echo $OTHER", &env), "echo $OTHER");
}

#[test]
fn parse_command_splits_on_whitespace() {
    let (program, args) = parse_command("echo hello   world");
    assert_eq!(program, "echo");
    assert_eq!(args, vec!["hello".to_string(), "world".to_string()]);
}

#[test]
fn parse_command_empty_string() {
    let (program, args) = parse_command("   ");
    assert_eq!(program, "");
    assert!(args.is_empty());
}

#[test]
fn parse_command_single_token() {
    let (program, args) = parse_command("ls");
    assert_eq!(program, "ls");
    assert!(args.is_empty());
}

#[test]
fn format_duration_seconds_and_millis() {
    assert_eq!(format_duration(2, 500), "2.500s");
    assert_eq!(format_duration(1, 5), "1.005s");
    assert_eq!(format_duration(0, 42), "42ms");
    assert_eq!(format_duration(0, 0), "0ms");
}

#[test]
fn task_name_validation() {
    assert!(is_valid_task_name("build-all_2"));
    assert!(is_valid_task_name("a"));
    assert!(!is_valid_task_name(""));
    assert!(!is_valid_task_name("a b"));
    assert!(!is_valid_task_name("x/y"));
}

#[test]
fn shell_command_and_args() {
    assert_eq!(get_shell_command(), "sh");
    assert_eq!(get_shell_args(), vec!["-c".to_string()]);
}

#[test]
fn decimal_rendering() {
    assert_eq!(u64_to_string(0), "0");
    assert_eq!(u64_to_string(7), "7");
    assert_eq!(u64_to_string(42), "42");
    assert_eq!(u64_to_string(1203), "1203");
    assert_eq!(u64_to_string(u64::MAX), "18446744073709551615");
}
