//! Entries of a hosts file: reading them from its lines, writing them back,
//! and bringing them up to date with the running WSL distributions.
use vstd::prelude::*;
use vstd::string::*;
use crate::text;
use crate::wsl;
use crate::wsl::WSLInfo;

verus! {

/// One line of a hosts file.
pub struct Hosts {
    pub comment: String,
    pub ip: String,
    pub distro: String,
    pub only_comment: bool,
}

/// The contents of a [`Hosts`] entry.
#[verifier::ext_equal]
pub struct HostsView {
    pub comment: Seq<char>,
    pub ip: Seq<char>,
    pub distro: Seq<char>,
    pub only_comment: bool,
}

impl View for Hosts {
    type V = HostsView;

    open spec fn view(&self) -> HostsView {
        HostsView {
            comment: self.comment@,
            ip: self.ip@,
            distro: self.distro@,
            only_comment: self.only_comment,
        }
    }
}

/// The views of a sequence of entries.
pub open spec fn hosts_view(v: Seq<Hosts>) -> Seq<HostsView> {
    v.map_values(|h: Hosts| h@)
}

/// The entry a line starts from: no comment, the loop-back address, no name.
pub open spec fn blank_entry() -> HostsView {
    HostsView {
        comment: Seq::<char>::empty(),
        ip: wsl::loopback_ip(),
        distro: Seq::<char>::empty(),
        only_comment: false,
    }
}

impl Default for Hosts {
    /// No comment, the loop-back address, no name, not a comment line.
    fn default() -> (r: Self)
        ensures
            r@ == blank_entry(),
    {
        Hosts {
            comment: String::new(),
            ip: wsl::loopback_ip_string(),
            distro: String::new(),
            only_comment: false,
        }
    }
}

// ---------------------------------------------------------------------------
// Reading entries
// ---------------------------------------------------------------------------

/// What reading an address line does to an entry. A line is read only when
/// it holds a space and is at least five bytes long (`::1 a` is the shortest
/// entry). Then, of its non-empty space-separated words, the first is the
/// address and the second, lower-cased, the name, when there are at least
/// two; the third is the comment when there are exactly three. Otherwise the
/// entry is left as it was.
pub open spec fn read_address_line(line: Seq<char>, h: HostsView) -> HostsView {
    let f = text::fields(line, ' ');
    if line.contains(' ') && text::byte_len(line) >= 5 {
        let named = if f.len() >= 2 {
            HostsView { ip: f[0], distro: text::lower_seq(f[1]), ..h }
        } else {
            h
        };
        if f.len() == 3 {
            HostsView { comment: f[2], ..named }
        } else {
            named
        }
    } else {
        h
    }
}

/// Reads an address line into `hosts` (see [`read_address_line`]).
pub fn parse_hosts_line(line: &str, hosts: &mut Hosts)
    ensures
        final(hosts)@ == read_address_line(line@, old(hosts)@),
{
    if text::contains_char(line, ' ') && line.len() >= 5 {
        let host_vec = text::split_fields(line, ' ');
        let ghost f = text::texts(host_vec@);
        proof {
            assert(f == text::fields(line@, ' '));
        }
        if host_vec.len() >= 2 {
            hosts.ip = host_vec[0].clone();
            hosts.distro = text::to_ascii_lowercase(host_vec[1].as_str());
            proof {
                assert(f[0] == host_vec@[0]@);
                assert(f[1] == host_vec@[1]@);
            }
        }
        if host_vec.len() == 3 {
            hosts.comment = host_vec[2].clone();
            proof {
                assert(f[2] == host_vec@[2]@);
            }
        }
    }
}

/// An address line that holds a space, is at least five bytes long and has
/// at least two words gives its first word as the address and its second,
/// lower-cased, as the name, whatever words follow; exactly three words give
/// the third as the comment, and any other count leaves the comment as it
/// was. A line without a space, a shorter one, or one with fewer than two
/// words changes neither address nor name.
pub proof fn law_address_line_words(line: Seq<char>, h: HostsView)
    ensures
        ({
            let f = text::fields(line, ' ');
            let r = read_address_line(line, h);
            &&& r.only_comment == h.only_comment
            &&& (line.contains(' ') && text::byte_len(line) >= 5 && f.len() >= 2) ==> {
                &&& r.ip == f[0]
                &&& r.distro == text::lower_seq(f[1])
            }
            &&& (line.contains(' ') && text::byte_len(line) >= 5 && f.len() == 3) ==> r.comment
                == f[2]
            &&& f.len() != 3 ==> r.comment == h.comment
            &&& !(line.contains(' ') && text::byte_len(line) >= 5 && f.len() >= 2) ==> {
                &&& r.ip == h.ip
                &&& r.distro == h.distro
            }
        }),
{
}

/// The entry one line of a hosts file gives: a line that starts with `'#'`
/// is kept whole as a comment line; any other line is read as an address
/// line into a blank entry.
pub open spec fn entry_of_line(line: Seq<char>) -> HostsView {
    if line.len() > 0 && line[0] == '#' {
        HostsView { comment: line, only_comment: true, ..blank_entry() }
    } else {
        read_address_line(line, blank_entry())
    }
}

/// The entries of the lines of a hosts file, one entry per line, in order.
pub open spec fn entries_of_lines(lines: Seq<Seq<char>>) -> Seq<HostsView> {
    lines.map_values(|l: Seq<char>| entry_of_line(l))
}

/// Reads one line of a hosts file (see [`entry_of_line`]).
pub fn parse_hosts_entry(line: &str) -> (r: Hosts)
    ensures
        r@ == entry_of_line(line@),
{
    let mut hosts = Hosts::default();
    if !line.is_empty() && line.get_char(0) == '#' {
        hosts.comment = line.to_owned();
        hosts.only_comment = true;
    } else {
        parse_hosts_line(line, &mut hosts);
    }
    hosts
}

/// Reads the lines of a hosts file into entries, one per line.
pub fn serde_hosts_lines(lines: &Vec<String>) -> (r: Vec<Hosts>)
    ensures
        hosts_view(r@) == entries_of_lines(text::texts(lines@)),
{
    let mut r: Vec<Hosts> = Vec::new();
    let mut k: usize = 0;
    while k < lines.len()
        invariant
            k <= lines@.len(),
            r@.len() == k,
            forall|j: int| 0 <= j < k ==> #[trigger] r@[j]@ == entry_of_line(lines@[j]@),
        decreases lines@.len() - k,
    {
        let h = parse_hosts_entry(lines[k].as_str());
        r.push(h);
        k = k + 1;
    }
    proof {
        assert(hosts_view(r@) =~= entries_of_lines(text::texts(lines@)));
    }
    r
}

// ---------------------------------------------------------------------------
// Writing entries
// ---------------------------------------------------------------------------

/// The line an entry is written as, with its line break. An entry with
/// neither a name nor a comment is left out; a comment line is written as
/// its comment; any other entry as `<address> <name in lower case>`,
/// followed by a space and the comment when the comment starts with `'#'`.
pub open spec fn render_entry(h: HostsView) -> Seq<char> {
    if h.distro.len() == 0 && h.comment.len() == 0 {
        Seq::<char>::empty()
    } else if h.only_comment {
        h.comment.push('\n')
    } else {
        let tail = if h.comment.len() > 0 && h.comment[0] == '#' {
            seq![' '] + h.comment
        } else {
            Seq::<char>::empty()
        };
        (h.ip + seq![' '] + text::lower_seq(h.distro) + tail).push('\n')
    }
}

/// The text a hosts file is written as: its entries' lines in order.
pub open spec fn render_hosts(hs: Seq<HostsView>) -> Seq<char>
    decreases hs.len(),
{
    if hs.len() == 0 {
        Seq::<char>::empty()
    } else {
        render_hosts(hs.drop_last()) + render_entry(hs.last())
    }
}

/// Appends the line of one entry (see [`render_entry`]).
fn write_entry(out: &mut String, host: &Hosts)
    ensures
        final(out)@ == old(out)@ + render_entry(host@),
{
    let space = " ";
    let newline = "\n";
    proof {
        reveal_strlit(" ");
        reveal_strlit("\n");
    }
    if host.distro.as_str().is_empty() && host.comment.as_str().is_empty() {
        proof {
            assert(old(out)@ + render_entry(host@) =~= old(out)@);
        }
        return ;
    }
    if host.only_comment {
        out.append(host.comment.as_str());
    } else {
        out.append(host.ip.as_str());
        out.append(space);
        let lower = text::to_ascii_lowercase(host.distro.as_str());
        out.append(lower.as_str());
        if !host.comment.as_str().is_empty() && host.comment.as_str().get_char(0) == '#' {
            out.append(space);
            out.append(host.comment.as_str());
        }
    }
    out.append(newline);
    proof {
        assert(final(out)@ =~= old(out)@ + render_entry(host@));
    }
}

/// Writes entries out as the text of a hosts file (see [`render_hosts`]).
pub fn serde_hosts_to_string(serde_hosts: &Vec<Hosts>) -> (r: String)
    ensures
        r@ == render_hosts(hosts_view(serde_hosts@)),
{
    let mut out = String::new();
    let mut k: usize = 0;
    let ghost hs = hosts_view(serde_hosts@);
    proof {
        assert(hs.take(0) =~= Seq::<HostsView>::empty());
    }
    while k < serde_hosts.len()
        invariant
            hs == hosts_view(serde_hosts@),
            k <= serde_hosts@.len(),
            out@ == render_hosts(hs.take(k as int)),
        decreases serde_hosts@.len() - k,
    {
        write_entry(&mut out, &serde_hosts[k]);
        proof {
            assert(hs.take(k + 1).drop_last() =~= hs.take(k as int));
            assert(hs.take(k + 1).last() == serde_hosts@[k as int]@);
        }
        k = k + 1;
    }
    proof {
        assert(hs.take(serde_hosts@.len() as int) =~= hs);
    }
    out
}


// ---------------------------------------------------------------------------
// Bringing entries up to date
// ---------------------------------------------------------------------------

/// The comment that marks an entry this program wrote: `# wsl2hosts`.
pub open spec fn wsl_comment() -> Seq<char> {
    seq!['#', ' ', 'w', 's', 'l', '2', 'h', 'o', 's', 't', 's']
}

/// An entry whose name matches the distribution's up to ASCII case takes
/// the distribution's address and the marker comment; any other entry is
/// left as it is.
pub open spec fn refresh_entry(h: HostsView, w: wsl::WslView) -> HostsView {
    if text::same_ignoring_case(w.distro, h.distro) {
        HostsView { ip: w.ip, comment: wsl_comment(), ..h }
    } else {
        h
    }
}

/// The entry added for a distribution that has none: its address, its name
/// in lower case, the marker comment.
pub open spec fn new_entry(w: wsl::WslView) -> HostsView {
    HostsView {
        comment: wsl_comment(),
        ip: w.ip,
        distro: text::lower_seq(w.distro),
        only_comment: false,
    }
}

/// Some entry has this name up to ASCII case.
pub open spec fn has_entry_for(hs: Seq<HostsView>, distro: Seq<char>) -> bool {
    exists|i: int| 0 <= i < hs.len() && text::same_ignoring_case(distro, #[trigger] hs[i].distro)
}

/// Bringing the entries up to date with one distribution: when some entry
/// has its name, every such entry is refreshed; otherwise a new entry is
/// added at the end.
pub open spec fn merge_one(hs: Seq<HostsView>, w: wsl::WslView) -> Seq<HostsView> {
    if has_entry_for(hs, w.distro) {
        hs.map_values(|h: HostsView| refresh_entry(h, w))
    } else {
        hs.push(new_entry(w))
    }
}

/// Bringing the entries up to date with each distribution in turn.
pub open spec fn merge_all(hs: Seq<HostsView>, ws: Seq<wsl::WslView>) -> Seq<HostsView>
    decreases ws.len(),
{
    if ws.len() == 0 {
        hs
    } else {
        merge_one(merge_all(hs, ws.drop_last()), ws.last())
    }
}

/// The marker comment as a string.
fn wsl_comment_string() -> (r: String)
    ensures
        r@ == wsl_comment(),
{
    let lit = "# wsl2hosts";
    proof {
        reveal_strlit("# wsl2hosts");
    }
    String::from_str(lit)
}

/// Brings the entries up to date with one distribution (see [`merge_one`]).
fn merge_one_info(hosts: &mut Vec<Hosts>, info: &WSLInfo)
    ensures
        hosts_view(final(hosts)@) == merge_one(hosts_view(old(hosts)@), info@),
{
    let ghost old_hs = hosts_view(hosts@);
    let mut change = false;
    let mut i: usize = 0;
    while i < hosts.len()
        invariant
            old_hs == hosts_view(old(hosts)@),
            hosts@.len() == old_hs.len(),
            i <= hosts@.len(),
            forall|j: int| 0 <= j < i ==> #[trigger] hosts@[j]@ == refresh_entry(old_hs[j], info@),
            forall|j: int| i <= j < hosts@.len() ==> #[trigger] hosts@[j]@ == old_hs[j],
            change == exists|j: int|
                0 <= j < i && text::same_ignoring_case(info@.distro, #[trigger] old_hs[j].distro),
        decreases hosts@.len() - i,
    {
        proof {
            assert(hosts@[i as int]@ == old_hs[i as int]);
        }
        if text::eq_ignore_ascii_case(info.distro.as_str(), hosts[i].distro.as_str()) {
            let refreshed = Hosts {
                comment: wsl_comment_string(),
                ip: info.ip.clone(),
                distro: hosts[i].distro.clone(),
                only_comment: hosts[i].only_comment,
            };
            hosts[i] = refreshed;
            change = true;
        }
        proof {
            assert(hosts@[i as int]@ == refresh_entry(old_hs[i as int], info@));
        }
        i = i + 1;
    }
    if !change {
        let added = Hosts {
            comment: wsl_comment_string(),
            ip: info.ip.clone(),
            distro: text::to_ascii_lowercase(info.distro.as_str()),
            only_comment: false,
        };
        hosts.push(added);
        proof {
            assert(hosts_view(hosts@) =~= old_hs.push(new_entry(info@)));
        }
    } else {
        proof {
            assert(hosts_view(hosts@) =~= old_hs.map_values(
                |h: HostsView| refresh_entry(h, info@),
            ));
        }
    }
}

/// Brings the entries of a hosts file up to date with the running
/// distributions, one after the other (see [`merge_all`]): each entry named
/// like a distribution takes its address and the marker comment, and each
/// distribution without an entry gets one at the end.
pub fn merge_wsl_infos(hosts: &mut Vec<Hosts>, infos: &Vec<WSLInfo>)
    ensures
        hosts_view(final(hosts)@) == merge_all(hosts_view(old(hosts)@), wsl::infos_view(infos@)),
{
    let ghost start = hosts_view(hosts@);
    let ghost ws = wsl::infos_view(infos@);
    let mut k: usize = 0;
    proof {
        assert(ws.take(0) =~= Seq::<wsl::WslView>::empty());
    }
    while k < infos.len()
        invariant
            start == hosts_view(old(hosts)@),
            ws == wsl::infos_view(infos@),
            k <= infos@.len(),
            hosts_view(hosts@) == merge_all(start, ws.take(k as int)),
        decreases infos@.len() - k,
    {
        merge_one_info(hosts, &infos[k]);
        proof {
            assert(ws.take(k + 1).drop_last() =~= ws.take(k as int));
            assert(ws.take(k + 1).last() == infos@[k as int]@);
        }
        k = k + 1;
    }
    proof {
        assert(ws.take(infos@.len() as int) =~= ws);
    }
}


// ---------------------------------------------------------------------------
// Laws of bringing entries up to date
// ---------------------------------------------------------------------------

/// A distribution whose name differs from every entry's name, in length or
/// at some place by more than ASCII case (a digit among them), leaves every
/// entry as it was and gets a new entry at the end: its address, its name
/// lower-cased, the marker comment. An entry whose name matches it place by
/// place up to ASCII case takes its address and the marker comment instead,
/// and nothing is added.
pub proof fn law_merge_matches_names_by_chars(hs: Seq<HostsView>, w: wsl::WslView)
    ensures
        (forall|k: int|
            0 <= k < hs.len() ==> (#[trigger] hs[k]).distro.len() != w.distro.len() || exists|i: int|
                0 <= i < w.distro.len() && !text::ascii_case_pair(w.distro[i], hs[k].distro[i]))
            ==> {
            let m = merge_all(hs, seq![w]);
            &&& m.len() == hs.len() + 1
            &&& m.take(hs.len() as int) == hs
            &&& m[hs.len() as int].ip == w.ip
            &&& m[hs.len() as int].distro == text::lower_seq(w.distro)
            &&& m[hs.len() as int].comment == wsl_comment()
            &&& !m[hs.len() as int].only_comment
        },
        forall|k: int|
            0 <= k < hs.len() && (#[trigger] hs[k]).distro.len() == w.distro.len() && (forall|i: int|
                0 <= i < w.distro.len() ==> text::ascii_case_pair(w.distro[i], hs[k].distro[i]))
                ==> {
                let m = merge_all(hs, seq![w]);
                &&& m.len() == hs.len()
                &&& m[k] == HostsView { ip: w.ip, comment: wsl_comment(), ..hs[k] }
            },
{
    let ws = seq![w];
    assert(ws.drop_last() =~= Seq::<wsl::WslView>::empty());
    assert(ws.last() == w);
    assert(merge_all(hs, Seq::<wsl::WslView>::empty()) == hs);
    assert(merge_all(hs, ws) == merge_one(merge_all(hs, ws.drop_last()), ws.last()));
    assert(merge_all(hs, ws) == merge_one(hs, w));
    assert forall|k: int| 0 <= k < hs.len() implies text::same_ignoring_case(w.distro, hs[k].distro)
        == ((#[trigger] hs[k]).distro.len() == w.distro.len() && (forall|i: int|
        0 <= i < w.distro.len() ==> text::ascii_case_pair(w.distro[i], hs[k].distro[i]))) by {
        text::law_same_ignoring_case_by_chars(w.distro, hs[k].distro);
    }
    if forall|k: int|
        0 <= k < hs.len() ==> (#[trigger] hs[k]).distro.len() != w.distro.len() || exists|i: int|
            0 <= i < w.distro.len() && !text::ascii_case_pair(w.distro[i], hs[k].distro[i]) {
        assert(!has_entry_for(hs, w.distro));
        assert(hs.push(new_entry(w)).take(hs.len() as int) =~= hs);
    }
}

/// Some distribution in `ws` has this name up to ASCII case.
pub open spec fn named_in(ws: Seq<wsl::WslView>, distro: Seq<char>) -> bool {
    exists|j: int| 0 <= j < ws.len() && text::same_ignoring_case(#[trigger] ws[j].distro, distro)
}

/// The address of the last distribution in `ws` with this name up to ASCII
/// case.
pub open spec fn last_ip(ws: Seq<wsl::WslView>, distro: Seq<char>) -> Seq<char>
    decreases ws.len(),
{
    if ws.len() == 0 {
        Seq::<char>::empty()
    } else if text::same_ignoring_case(ws.last().distro, distro) {
        ws.last().ip
    } else {
        last_ip(ws.drop_last(), distro)
    }
}

/// What bringing an existing entry up to date with all of `ws` does to it:
/// an entry named like some distribution takes the address of the last
/// such distribution and the marker comment; any other entry is unchanged.
pub open spec fn settle_entry(h: HostsView, ws: Seq<wsl::WslView>) -> HostsView {
    if named_in(ws, h.distro) {
        HostsView { ip: last_ip(ws, h.distro), comment: wsl_comment(), ..h }
    } else {
        h
    }
}

/// Names present before a merge step are present after it.
proof fn lemma_merge_one_keeps_names(hs: Seq<HostsView>, w: wsl::WslView, d: Seq<char>)
    requires
        has_entry_for(hs, d),
    ensures
        has_entry_for(merge_one(hs, w), d),
{
    let i = choose|i: int| 0 <= i < hs.len() && text::same_ignoring_case(d, #[trigger] hs[i].distro);
    let r = merge_one(hs, w);
    assert(r[i].distro == hs[i].distro);
}

/// After a merge step the distribution has an entry.
proof fn lemma_merge_one_adds(hs: Seq<HostsView>, w: wsl::WslView)
    ensures
        has_entry_for(merge_one(hs, w), w.distro),
{
    let r = merge_one(hs, w);
    if has_entry_for(hs, w.distro) {
        let i = choose|i: int|
            0 <= i < hs.len() && text::same_ignoring_case(w.distro, #[trigger] hs[i].distro);
        assert(r[i].distro == hs[i].distro);
    } else {
        text::lemma_same_as_lower(w.distro);
        assert(r[hs.len() as int] == new_entry(w));
        assert(text::same_ignoring_case(w.distro, r[hs.len() as int].distro));
    }
}

/// Names present before a merge are present after it.
proof fn lemma_merge_all_keeps_names(hs: Seq<HostsView>, ws: Seq<wsl::WslView>, d: Seq<char>)
    requires
        has_entry_for(hs, d),
    ensures
        has_entry_for(merge_all(hs, ws), d),
    decreases ws.len(),
{
    if ws.len() > 0 {
        lemma_merge_all_keeps_names(hs, ws.drop_last(), d);
        lemma_merge_one_keeps_names(merge_all(hs, ws.drop_last()), ws.last(), d);
    }
}

/// After bringing the entries up to date, every distribution has an entry
/// with its name (up to ASCII case).
pub proof fn law_merge_covers_every_distro(hs: Seq<HostsView>, ws: Seq<wsl::WslView>)
    ensures
        forall|j: int| 0 <= j < ws.len() ==> has_entry_for(merge_all(hs, ws), #[trigger] ws[j].distro),
    decreases ws.len(),
{
    if ws.len() > 0 {
        let prev = ws.drop_last();
        law_merge_covers_every_distro(hs, prev);
        let m = merge_all(hs, prev);
        assert forall|j: int| 0 <= j < ws.len() implies has_entry_for(
            merge_all(hs, ws),
            #[trigger] ws[j].distro,
        ) by {
            if j < prev.len() {
                assert(prev[j] == ws[j]);
                lemma_merge_one_keeps_names(m, ws.last(), ws[j].distro);
            } else {
                lemma_merge_one_adds(m, ws.last());
            }
        }
    }
}

/// Bringing entries up to date never removes or reorders entries, never
/// changes an entry's name or kind, and changes an entry only when some
/// distribution has its name; then it takes the address of the last such
/// distribution and the marker comment.
pub proof fn law_merge_settles_existing(hs: Seq<HostsView>, ws: Seq<wsl::WslView>)
    ensures
        merge_all(hs, ws).len() >= hs.len(),
        forall|i: int| 0 <= i < hs.len() ==> #[trigger] merge_all(hs, ws)[i] == settle_entry(hs[i], ws),
    decreases ws.len(),
{
    if ws.len() > 0 {
        let prev = ws.drop_last();
        let w = ws.last();
        law_merge_settles_existing(hs, prev);
        let m = merge_all(hs, prev);
        let r = merge_all(hs, ws);
        assert forall|i: int| 0 <= i < hs.len() implies #[trigger] merge_all(hs, ws)[i]
            == settle_entry(hs[i], ws) by {
            assert(m[i] == settle_entry(hs[i], prev));
            assert(m[i].distro == hs[i].distro);
            assert(prev.push(w) =~= ws);
            lemma_last_ip_push(prev, w, hs[i].distro);
            lemma_named_in_push(prev, w, hs[i].distro);
            if has_entry_for(m, w.distro) {
                assert(r[i] == refresh_entry(m[i], w));
            } else {
                assert(r[i] == m[i]);
                assert(!text::same_ignoring_case(w.distro, m[i].distro));
            }
            assert(r[i] =~= settle_entry(hs[i], ws));
        }
    }
}

/// How the last address moves when one more distribution comes.
proof fn lemma_last_ip_push(ws: Seq<wsl::WslView>, w: wsl::WslView, d: Seq<char>)
    ensures
        last_ip(ws.push(w), d) == if text::same_ignoring_case(w.distro, d) {
            w.ip
        } else {
            last_ip(ws, d)
        },
{
    assert(ws.push(w).drop_last() =~= ws);
}

/// How being named moves when one more distribution comes.
proof fn lemma_named_in_push(ws: Seq<wsl::WslView>, w: wsl::WslView, d: Seq<char>)
    ensures
        named_in(ws.push(w), d) == (named_in(ws, d) || text::same_ignoring_case(w.distro, d)),
{
    if named_in(ws, d) {
        let j = choose|j: int| 0 <= j < ws.len() && text::same_ignoring_case(#[trigger] ws[j].distro, d);
        assert(ws.push(w)[j] == ws[j]);
    }
    if text::same_ignoring_case(w.distro, d) {
        assert(ws.push(w)[ws.len() as int] == w);
    }
    if named_in(ws.push(w), d) {
        let j = choose|j: int|
            0 <= j < ws.push(w).len() && text::same_ignoring_case(#[trigger] ws.push(w)[j].distro, d);
        if j < ws.len() {
            assert(ws.push(w)[j] == ws[j]);
        }
    }
}


/// When every distribution already has an entry, bringing the entries up to
/// date adds none.
pub proof fn lemma_merge_all_no_growth(hs: Seq<HostsView>, ws: Seq<wsl::WslView>)
    requires
        forall|j: int| 0 <= j < ws.len() ==> has_entry_for(hs, #[trigger] ws[j].distro),
    ensures
        merge_all(hs, ws).len() == hs.len(),
    decreases ws.len(),
{
    if ws.len() > 0 {
        let prev = ws.drop_last();
        assert forall|j: int| 0 <= j < prev.len() implies has_entry_for(hs, #[trigger] prev[j].distro) by {
            assert(prev[j] == ws[j]);
        }
        lemma_merge_all_no_growth(hs, prev);
        assert(has_entry_for(hs, ws[ws.len() - 1].distro));
        lemma_merge_all_keeps_names(hs, prev, ws.last().distro);
    }
}

/// Every entry of the result of bringing entries up to date is already
/// settled with respect to the same distributions.
pub proof fn lemma_merge_all_settled(hs: Seq<HostsView>, ws: Seq<wsl::WslView>)
    ensures
        forall|i: int|
            0 <= i < merge_all(hs, ws).len() ==> settle_entry(#[trigger] merge_all(hs, ws)[i], ws)
                == merge_all(hs, ws)[i],
    decreases ws.len(),
{
    if ws.len() == 0 {
        let r = merge_all(hs, ws);
        assert forall|i: int| 0 <= i < r.len() implies settle_entry(#[trigger] r[i], ws) == r[i] by {
            assert(!named_in(ws, r[i].distro));
        }
    } else {
        let prev = ws.drop_last();
        let w = ws.last();
        assert(prev.push(w) =~= ws);
        lemma_merge_all_settled(hs, prev);
        let m = merge_all(hs, prev);
        let r = merge_all(hs, ws);
        assert forall|i: int| 0 <= i < r.len() implies settle_entry(#[trigger] r[i], ws) == r[i] by {
            if i < m.len() {
                let d = m[i].distro;
                lemma_last_ip_push(prev, w, d);
                lemma_named_in_push(prev, w, d);
                assert(settle_entry(m[i], prev) == m[i]);
                if has_entry_for(m, w.distro) {
                    assert(r[i] == refresh_entry(m[i], w));
                    assert(r[i].distro == d);
                    assert(settle_entry(r[i], ws) =~= r[i]);
                } else {
                    assert(r[i] == m[i]);
                    assert(!text::same_ignoring_case(w.distro, m[i].distro));
                    assert(settle_entry(r[i], ws) =~= r[i]);
                }
            } else {
                let d = text::lower_seq(w.distro);
                assert(r[i] == new_entry(w));
                text::lemma_same_as_lower(w.distro);
                text::lemma_same_ignoring_case_equivalence(d, w.distro, w.distro);
                lemma_last_ip_push(prev, w, d);
                lemma_named_in_push(prev, w, d);
                assert(settle_entry(r[i], ws) =~= r[i]);
            }
        }
    }
}

/// Bringing entries up to date twice with the same distributions is the
/// same as doing it once: a hosts file that is already up to date is left
/// as it is.
pub proof fn law_merge_idempotent(hs: Seq<HostsView>, ws: Seq<wsl::WslView>)
    ensures
        merge_all(merge_all(hs, ws), ws) == merge_all(hs, ws),
{
    let r = merge_all(hs, ws);
    law_merge_covers_every_distro(hs, ws);
    lemma_merge_all_no_growth(r, ws);
    law_merge_settles_existing(r, ws);
    lemma_merge_all_settled(hs, ws);
    let rr = merge_all(r, ws);
    assert forall|i: int| 0 <= i < r.len() implies #[trigger] rr[i] == r[i] by {
        assert(rr[i] == settle_entry(r[i], ws));
    }
    assert(rr =~= r);
}

} // verus!
