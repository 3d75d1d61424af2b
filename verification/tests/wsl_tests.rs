use wsl2hosts::text::decode_output;
use wsl2hosts::wsl::{
    ip_from_output, ip_lookup_args, listing_line_columns, loopback_ip_string, needs_ip_lookup,
    parse_running_wsl, script_path_for_wsl, script_paths, set_ip_from_output, WSLInfo,
};

fn utf16le(s: &str) -> Vec<u8> {
    s.encode_utf16().flat_map(|u| u.to_le_bytes()).collect()
}

const LISTING: &str = "  NAME            STATE           VERSION\r\n* Ubuntu-22.04    Running         2\r\n  Debian          Stopped         2\r\n  Legacy          Running         1\r\n";

#[test]
fn default_info() {
    let d = WSLInfo::default();
    assert_eq!(d.distro, "");
    assert!(d.state);
    assert_eq!(d.version, 2);
    assert_eq!(d.ip, "127.0.0.1");
    assert_eq!(loopback_ip_string(), "127.0.0.1");
}

#[test]
fn listing_columns_skip_default_marker() {
    assert_eq!(listing_line_columns("* Ubuntu    Running   2"), vec!["Ubuntu", "Running", "2"]);
    assert_eq!(listing_line_columns("  a*b  c  d e"), vec!["c", "d", "e"]);
}

#[test]
fn running_distributions_of_a_utf16_listing() {
    let output = decode_output(&utf16le(LISTING));
    let (infos, short_line) = parse_running_wsl(&output);
    assert!(!short_line);
    assert_eq!(infos.len(), 2);
    assert_eq!(infos[0].distro, "Ubuntu-22.04");
    assert_eq!(infos[0].version, 2);
    assert!(infos[0].state);
    assert_eq!(infos[0].ip, "127.0.0.1");
    assert_eq!(infos[1].distro, "Legacy");
    assert_eq!(infos[1].version, 1);
}

#[test]
fn version_defaults_to_two_when_unreadable() {
    let (infos, short_line) = parse_running_wsl("x Running abc\nlast Running 300");
    assert!(!short_line);
    assert_eq!(infos.len(), 2);
    assert_eq!(infos[0].distro, "x");
    assert_eq!(infos[0].version, 2);
    assert_eq!(infos[1].version, 2);
}

#[test]
fn last_line_keeps_its_carriage_return() {
    // `str::lines` keeps a `'\r'` that no `'\n'` follows, so the version
    // column reads "1\r", which is no number: the version stays 2.
    let (infos, _) = parse_running_wsl("Alpine Running 1\r");
    assert_eq!(infos.len(), 1);
    assert_eq!(infos[0].version, 2);
}

#[test]
fn reading_stops_at_a_short_running_line() {
    let (infos, short_line) = parse_running_wsl("A Running 2\nB Running\nC Running 2\n");
    assert!(short_line);
    assert_eq!(infos.len(), 1);
    assert_eq!(infos[0].distro, "A");
    let (infos, short_line) = parse_running_wsl("Ubuntu Stopped\n");
    assert!(!short_line);
    assert!(infos.is_empty());
    let (infos, short_line) = parse_running_wsl("");
    assert!(!short_line);
    assert!(infos.is_empty());
}

#[test]
fn script_paths_join_and_mount() {
    let (full, mounted) = script_paths("/Tmp/Dir", "getip.sh");
    assert!(full.ends_with("getip.sh"));
    assert_eq!(mounted, full.to_ascii_lowercase().replace(':', ""));
    assert!(full.starts_with("/Tmp/Dir"));
    assert!(mounted.starts_with("/tmp/dir"));
}

#[test]
fn ip_lookup_only_for_wsl2() {
    let mut info = WSLInfo::default();
    assert!(needs_ip_lookup(&info));
    info.version = 1;
    assert!(!needs_ip_lookup(&info));
}

#[test]
fn ip_read_from_script_output() {
    assert_eq!(ip_from_output(b"172.28.1.5\n"), "172.28.1.5");
    assert_eq!(ip_from_output(&utf16le("172.28.1.5\n")), "172.28.1.5");
    let mut info = WSLInfo::default();
    info.distro = "Ubuntu".to_string();
    set_ip_from_output(&mut info, b"10.0.0.7\n\n");
    assert_eq!(info.ip, "10.0.0.7");
    assert_eq!(info.distro, "Ubuntu");
    assert_eq!(info.version, 2);
}

#[test]
fn script_path_as_seen_from_wsl() {
    assert_eq!(script_path_for_wsl("C:/Users/Me/AppData/Local/Temp/getip.sh"), "c/users/me/appdata/local/temp/getip.sh");
}

#[test]
fn ip_lookup_command_line() {
    assert_eq!(
        ip_lookup_args("Ubuntu", "c/temp/getip.sh"),
        vec!["/c", "wsl", "-d", "Ubuntu", "--", "sh", "/mnt/c/temp/getip.sh"]
    );
}
