use pty_manager::cwd::{cd_command, parse_probe_output};

#[test]
fn cd_command_plain_path() {
    let cmd = cd_command(b"/tmp");
    assert_eq!(cmd, b" cd '/tmp' && clear\n".to_vec());
}

#[test]
fn cd_command_path_with_space() {
    let cmd = cd_command(b"/tmp/a b");
    assert_eq!(cmd, b" cd '/tmp/a b' && clear\n".to_vec());
}

#[test]
fn cd_command_path_with_single_quote() {
    let cmd = cd_command(b"/tmp/x'y");
    assert_eq!(cmd, b" cd '/tmp/x'\\''y' && clear\n".to_vec());
}

#[test]
fn cd_command_empty_path() {
    let cmd = cd_command(b"");
    assert_eq!(cmd, b" cd '' && clear\n".to_vec());
}

#[test]
fn cd_command_only_quotes() {
    let cmd = cd_command(b"''");
    assert_eq!(cmd, b" cd ''\\'''\\''' && clear\n".to_vec());
}

#[test]
fn probe_output_with_name_line() {
    let out = b"p1234\nn/tmp/foo\n";
    assert_eq!(parse_probe_output(out), Some(b"/tmp/foo".to_vec()));
}

#[test]
fn probe_output_without_name_line() {
    assert_eq!(parse_probe_output(b"p1234\n"), None);
    assert_eq!(parse_probe_output(b""), None);
}

#[test]
fn probe_output_unterminated_line() {
    assert_eq!(parse_probe_output(b"n/x"), Some(b"/x".to_vec()));
}

#[test]
fn probe_output_first_name_line_wins() {
    assert_eq!(parse_probe_output(b"n/a\nn/b\n"), Some(b"/a".to_vec()));
}

#[test]
fn probe_output_marker_must_start_line() {
    assert_eq!(parse_probe_output(b"pn\nxn/tmp\n"), None);
}
