use wsl2hosts::hosts::{
    merge_wsl_infos, parse_hosts_entry, parse_hosts_line, serde_hosts_lines, serde_hosts_to_string,
    Hosts,
};
use wsl2hosts::wsl::WSLInfo;

fn info(distro: &str, ip: &str) -> WSLInfo {
    WSLInfo { distro: distro.to_string(), state: true, version: 2, ip: ip.to_string() }
}

fn entry(comment: &str, ip: &str, distro: &str, only_comment: bool) -> Hosts {
    Hosts { comment: comment.to_string(), ip: ip.to_string(), distro: distro.to_string(), only_comment }
}

fn same(a: &Hosts, b: &Hosts) -> bool {
    a.comment == b.comment && a.ip == b.ip && a.distro == b.distro && a.only_comment == b.only_comment
}

#[test]
fn default_entry() {
    let h = Hosts::default();
    assert!(same(&h, &entry("", "127.0.0.1", "", false)));
}

#[test]
fn address_line_with_comment() {
    let mut h = Hosts::default();
    parse_hosts_line("172.20.0.2  Ubuntu #mine", &mut h);
    assert!(same(&h, &entry("#mine", "172.20.0.2", "ubuntu", false)));
}

#[test]
fn address_line_with_four_words_has_no_comment() {
    let mut h = Hosts::default();
    parse_hosts_line("172.20.0.2 ubuntu # wsl2hosts", &mut h);
    assert!(same(&h, &entry("", "172.20.0.2", "ubuntu", false)));
}

#[test]
fn short_or_spaceless_lines_are_not_read() {
    let mut h = Hosts::default();
    parse_hosts_line("a b", &mut h);
    assert!(same(&h, &Hosts::default()));
    parse_hosts_line("localhost", &mut h);
    assert!(same(&h, &Hosts::default()));
    parse_hosts_line("::1 a", &mut h);
    assert!(same(&h, &entry("", "::1", "a", false)));
    let mut one = Hosts::default();
    parse_hosts_line("   word   ", &mut one);
    assert!(same(&one, &Hosts::default()));
}

#[test]
fn comment_lines_are_kept_whole() {
    let h = parse_hosts_entry("# Copyright (c) Microsoft");
    assert!(same(&h, &entry("# Copyright (c) Microsoft", "127.0.0.1", "", true)));
    let h = parse_hosts_entry("10.1.1.1 Box");
    assert!(same(&h, &entry("", "10.1.1.1", "box", false)));
}

#[test]
fn lines_become_entries() {
    let lines = vec!["# hosts".to_string(), "".to_string(), "1.2.3.4 Web #w".to_string()];
    let hs = serde_hosts_lines(&lines);
    assert_eq!(hs.len(), 3);
    assert!(same(&hs[0], &entry("# hosts", "127.0.0.1", "", true)));
    assert!(same(&hs[1], &Hosts::default()));
    assert!(same(&hs[2], &entry("#w", "1.2.3.4", "web", false)));
}

#[test]
fn rendering_entries() {
    let hs = vec![
        entry("# hosts", "127.0.0.1", "", true),
        Hosts::default(),
        entry("#w", "1.2.3.4", "Web", false),
        entry("plain", "5.6.7.8", "db", false),
        entry("# wsl2hosts", "172.20.0.2", "ubuntu", false),
    ];
    assert_eq!(
        serde_hosts_to_string(&hs),
        "# hosts\n1.2.3.4 web #w\n5.6.7.8 db\n172.20.0.2 ubuntu # wsl2hosts\n"
    );
    assert_eq!(serde_hosts_to_string(&vec![]), "");
}

#[test]
fn merge_updates_matching_entries_and_adds_missing() {
    let mut hs = vec![
        entry("# hosts", "127.0.0.1", "", true),
        entry("", "172.20.0.9", "ubuntu", false),
        entry("#keep", "1.2.3.4", "web", false),
    ];
    let infos = vec![info("Ubuntu", "172.20.0.2"), info("Debian", "172.20.0.3")];
    merge_wsl_infos(&mut hs, &infos);
    assert_eq!(hs.len(), 4);
    assert!(same(&hs[0], &entry("# hosts", "127.0.0.1", "", true)));
    assert!(same(&hs[1], &entry("# wsl2hosts", "172.20.0.2", "ubuntu", false)));
    assert!(same(&hs[2], &entry("#keep", "1.2.3.4", "web", false)));
    assert!(same(&hs[3], &entry("# wsl2hosts", "172.20.0.3", "debian", false)));
}

#[test]
fn merge_twice_is_merge_once() {
    let mut once = vec![entry("", "9.9.9.9", "alpine", false)];
    let infos = vec![info("Alpine", "172.20.0.5"), info("Kali", "172.20.0.6"), info("KALI", "172.20.0.7")];
    merge_wsl_infos(&mut once, &infos);
    let mut twice = vec![entry("", "9.9.9.9", "alpine", false)];
    merge_wsl_infos(&mut twice, &infos);
    merge_wsl_infos(&mut twice, &infos);
    assert_eq!(once.len(), 2);
    assert_eq!(twice.len(), once.len());
    for (a, b) in once.iter().zip(twice.iter()) {
        assert!(same(a, b));
    }
    assert!(same(&once[1], &entry("# wsl2hosts", "172.20.0.7", "kali", false)));
}

#[test]
fn written_file_reads_back_the_same() {
    let mut hs = serde_hosts_lines(&vec!["# hosts".to_string(), "1.2.3.4 Web #w".to_string()]);
    let infos = vec![info("Ubuntu", "172.20.0.2")];
    merge_wsl_infos(&mut hs, &infos);
    let first = serde_hosts_to_string(&hs);
    let mut again = serde_hosts_lines(&first.lines().map(|l| l.to_string()).collect());
    merge_wsl_infos(&mut again, &infos);
    assert_eq!(serde_hosts_to_string(&again), first);
}

#[test]
fn well_formed_text_reads_and_writes_back_unchanged() {
    let text = "# Copyright\n127.0.0.1 localhost\n::1 ip6-localhost #v6\n172.20.0.2 ubuntu\n";
    let lines = wsl2hosts::text::lines(text);
    let entries = serde_hosts_lines(&lines);
    assert_eq!(serde_hosts_to_string(&entries), text);
}
