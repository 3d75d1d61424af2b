//! What `wsl -l -v` reports about the installed distributions, and how the
//! address of a running distribution is asked for and read back.
use vstd::prelude::*;
use vstd::string::*;
use crate::text;
use path_slash::PathExt;

verus! {

/// One running WSL distribution.
pub struct WSLInfo {
    pub distro: String,
    pub state: bool,
    pub version: u8,
    pub ip: String,
}

/// The contents of a [`WSLInfo`].
pub struct WslView {
    pub distro: Seq<char>,
    pub state: bool,
    pub version: u8,
    pub ip: Seq<char>,
}

impl View for WSLInfo {
    type V = WslView;

    open spec fn view(&self) -> WslView {
        WslView { distro: self.distro@, state: self.state, version: self.version, ip: self.ip@ }
    }
}

/// The loop-back address, the address a distribution has until asked.
pub open spec fn loopback_ip() -> Seq<char> {
    seq!['1', '2', '7', '.', '0', '.', '0', '.', '1']
}

/// The address `127.0.0.1` as a string.
pub fn loopback_ip_string() -> (r: String)
    ensures
        r@ == loopback_ip(),
{
    let lit = "127.0.0.1";
    proof {
        reveal_strlit("127.0.0.1");
    }
    String::from_str(lit)
}

impl Default for WSLInfo {
    /// No name, running, WSL version 2, the loop-back address.
    fn default() -> (r: Self)
        ensures
            r@ == (WslView { distro: Seq::<char>::empty(), state: true, version: 2, ip: loopback_ip() }),
    {
        WSLInfo { distro: String::new(), state: true, version: 2, ip: loopback_ip_string() }
    }
}


/// The word that marks a running distribution in the listing.
pub open spec fn running_marker() -> Seq<char> {
    seq!['R', 'u', 'n', 'n', 'i', 'n', 'g']
}

/// The words of a listing line that hold no `'*'` (the marker of the
/// default distribution), in order.
pub open spec fn keep_unstarred(ws: Seq<Seq<char>>) -> Seq<Seq<char>>
    decreases ws.len(),
{
    if ws.len() == 0 {
        ws
    } else {
        let kept = keep_unstarred(ws.drop_last());
        if ws.last().contains('*') {
            kept
        } else {
            kept.push(ws.last())
        }
    }
}

/// The columns of one listing line: its non-empty space-separated words
/// without those that hold a `'*'`.
pub open spec fn listing_columns(line: Seq<char>) -> Seq<Seq<char>> {
    keep_unstarred(text::fields(line, ' '))
}

/// The lines of a listing that mention a running distribution, in order.
pub open spec fn running_lines(ls: Seq<Seq<char>>) -> Seq<Seq<char>>
    decreases ls.len(),
{
    if ls.len() == 0 {
        ls
    } else {
        let kept = running_lines(ls.drop_last());
        if text::has_infix(ls.last(), running_marker()) {
            kept.push(ls.last())
        } else {
            kept
        }
    }
}

/// A listing line that mentions `Running` adds one running line at the end,
/// however many came before it; any other line adds none. So as many
/// distributions are read as there are lines that mention `Running`.
pub proof fn law_each_running_line_counts(ls: Seq<Seq<char>>, l: Seq<char>)
    ensures
        text::has_infix(l, seq!['R', 'u', 'n', 'n', 'i', 'n', 'g']) ==> running_lines(ls.push(l))
            == running_lines(ls).push(l),
        !text::has_infix(l, seq!['R', 'u', 'n', 'n', 'i', 'n', 'g']) ==> running_lines(ls.push(l))
            == running_lines(ls),
        running_lines(ls).len() <= ls.len(),
    decreases ls.len(),
{
    assert(ls.push(l).drop_last() =~= ls);
    assert(running_marker() =~= seq!['R', 'u', 'n', 'n', 'i', 'n', 'g']);
    if ls.len() > 0 {
        law_each_running_line_counts(ls.drop_last(), ls.last());
        assert(ls.drop_last().push(ls.last()) =~= ls);
    }
}

/// Every line that mentions a running distribution has at least the three
/// columns name, state and version.
pub open spec fn listing_well_formed(output: Seq<char>) -> bool {
    let rl = running_lines(text::lines_of(output));
    forall|i: int| 0 <= i < rl.len() ==> #[trigger] listing_columns(rl[i]).len() >= 3
}

/// The distribution a listing line describes: the first column is its name,
/// the third its WSL version (2 when that column is not a number from 0 to
/// 255); it is running and has the loop-back address.
pub open spec fn info_from_columns(cols: Seq<Seq<char>>) -> WslView {
    WslView {
        distro: cols[0],
        state: true,
        version: match text::parse_u8_spec(cols[2]) {
            Some(v) => v,
            None => 2,
        },
        ip: loopback_ip(),
    }
}

/// The running distributions a listing reports, in the order it lists them.
pub open spec fn running_distros(output: Seq<char>) -> Seq<WslView> {
    running_lines(text::lines_of(output)).map_values(
        |l: Seq<char>| info_from_columns(listing_columns(l)),
    )
}

/// The views of a sequence of distributions.
pub open spec fn infos_view(v: Seq<WSLInfo>) -> Seq<WslView> {
    v.map_values(|w: WSLInfo| w@)
}

/// What is kept of the unstarred words holds no `'*'` and was there before.
pub proof fn lemma_keep_unstarred_from(ws: Seq<Seq<char>>)
    ensures
        forall|k: int|
            0 <= k < keep_unstarred(ws).len() ==> !(#[trigger] keep_unstarred(ws)[k]).contains('*')
                && ws.contains(keep_unstarred(ws)[k]),
    decreases ws.len(),
{
    if ws.len() > 0 {
        let prev = ws.drop_last();
        lemma_keep_unstarred_from(prev);
        let kp = keep_unstarred(prev);
        let kept = keep_unstarred(ws);
        assert forall|k: int| 0 <= k < kept.len() implies !(#[trigger] kept[k]).contains('*')
            && ws.contains(kept[k]) by {
            if k < kp.len() {
                assert(kept[k] == kp[k]);
                let j = choose|j: int| 0 <= j < prev.len() && prev[j] == kp[k];
                assert(ws[j] == prev[j]);
            } else {
                assert(kept[k] == ws.last());
                assert(ws[ws.len() - 1] == ws.last());
            }
        }
    }
}

/// Every column of a listing line is a non-empty word with no space and
/// no `'*'`.
pub proof fn lemma_listing_columns_are_words(line: Seq<char>)
    ensures
        forall|k: int|
            0 <= k < listing_columns(line).len() ==> {
                let w = #[trigger] listing_columns(line)[k];
                w.len() > 0 && !w.contains(' ') && !w.contains('*')
            },
{
    let pieces = text::split_on(line, ' ');
    let f = text::fields(line, ' ');
    let cols = listing_columns(line);
    text::lemma_split_pieces_lack_sep(line, ' ');
    text::lemma_keep_non_empty_from(pieces);
    lemma_keep_unstarred_from(f);
    assert forall|k: int| 0 <= k < cols.len() implies {
        let w = #[trigger] cols[k];
        w.len() > 0 && !w.contains(' ') && !w.contains('*')
    } by {
        let w = cols[k];
        let i = choose|i: int| 0 <= i < f.len() && f[i] == w;
        let j = choose|j: int| 0 <= j < pieces.len() && pieces[j] == f[i];
    }
}

/// Every distribution a well-formed listing reports has a non-empty name
/// with no space and no `'*'`, is running, and has the loop-back address.
pub proof fn law_listed_names_are_words(output: Seq<char>)
    requires
        listing_well_formed(output),
    ensures
        forall|i: int|
            0 <= i < running_distros(output).len() ==> {
                let w = #[trigger] running_distros(output)[i];
                &&& w.distro.len() > 0
                &&& !w.distro.contains(' ')
                &&& !w.distro.contains('*')
                &&& w.state
                &&& w.ip == loopback_ip()
            },
{
    let rl = running_lines(text::lines_of(output));
    let ds = running_distros(output);
    assert forall|i: int| 0 <= i < ds.len() implies {
        let w = #[trigger] ds[i];
        &&& w.distro.len() > 0
        &&& !w.distro.contains(' ')
        &&& !w.distro.contains('*')
        &&& w.state
        &&& w.ip == loopback_ip()
    } by {
        assert(listing_columns(rl[i]).len() >= 3);
        lemma_listing_columns_are_words(rl[i]);
        assert(ds[i] == info_from_columns(listing_columns(rl[i])));
        assert(ds[i].distro == listing_columns(rl[i])[0]);
    }
}

/// The columns of one line of the listing (see [`listing_columns`]).
pub fn listing_line_columns(line: &str) -> (r: Vec<String>)
    ensures
        text::texts(r@) == listing_columns(line@),
{
    let words = text::split_fields(line, ' ');
    let ghost ws = text::texts(words@);
    let mut r: Vec<String> = Vec::new();
    let mut k: usize = 0;
    proof {
        assert(ws.take(0) =~= Seq::<Seq<char>>::empty());
        assert(text::texts(r@) =~= Seq::<Seq<char>>::empty());
    }
    while k < words.len()
        invariant
            ws == text::texts(words@),
            ws == text::fields(line@, ' '),
            k <= words@.len(),
            text::texts(r@) == keep_unstarred(ws.take(k as int)),
        decreases words@.len() - k,
    {
        let w = &words[k];
        proof {
            assert(ws.take(k + 1).drop_last() =~= ws.take(k as int));
            assert(ws.take(k + 1).last() == w@);
        }
        let ghost old_r = r@;
        if !text::contains_char(w.as_str(), '*') {
            r.push(w.clone());
            proof {
                assert(text::texts(r@) =~= text::texts(old_r).push(w@));
            }
        }
        k = k + 1;
    }
    proof {
        assert(ws.take(words@.len() as int) =~= ws);
    }
    r
}

/// Whether `line` mentions a running distribution.
fn is_running_line(line: &str) -> (r: bool)
    ensures
        r == text::has_infix(line@, running_marker()),
{
    let marker = "Running";
    proof {
        reveal_strlit("Running");
        assert(marker@ =~= running_marker());
    }
    text::contains_str(line, marker)
}

/// The running lines of a prefix are a prefix of the running lines.
pub proof fn lemma_running_lines_prefix(ls: Seq<Seq<char>>, n: int)
    requires
        0 <= n <= ls.len(),
    ensures
        running_lines(ls.take(n)).len() <= running_lines(ls).len(),
        running_lines(ls).take(running_lines(ls.take(n)).len() as int) == running_lines(ls.take(n)),
    decreases ls.len(),
{
    if n < ls.len() {
        lemma_running_lines_prefix(ls.drop_last(), n);
        assert(ls.drop_last().take(n) =~= ls.take(n));
        let a = running_lines(ls.drop_last());
        let b = running_lines(ls.take(n));
        if text::has_infix(ls.last(), running_marker()) {
            assert(a.push(ls.last()).take(b.len() as int) =~= a.take(b.len() as int));
        }
    } else {
        assert(ls.take(n) =~= ls);
        assert(running_lines(ls).take(running_lines(ls).len() as int) =~= running_lines(ls));
    }
}

/// The running distributions of a `wsl -l -v` listing (already decoded to
/// text), in order: name from the first column, version from the third.
/// Reading stops at the first running line with fewer than three columns;
/// the flag says whether there was one. With no such line, the result is
/// every running distribution the listing reports.
pub fn parse_running_wsl(output: &str) -> (r: (Vec<WSLInfo>, bool))
    ensures
        ({
            let rl = running_lines(text::lines_of(output@));
            let n = r.0@.len();
            &&& n <= rl.len()
            &&& infos_view(r.0@) == rl.take(n as int).map_values(
                |l: Seq<char>| info_from_columns(listing_columns(l)),
            )
            &&& forall|i: int| 0 <= i < n ==> #[trigger] listing_columns(rl[i]).len() >= 3
            &&& r.1 == (n < rl.len())
            &&& r.1 ==> listing_columns(rl[n as int]).len() < 3
        }),
        r.1 == !listing_well_formed(output@),
        !r.1 ==> infos_view(r.0@) == running_distros(output@),
{
    let ls = text::lines(output);
    let ghost all = text::texts(ls@);
    let ghost rl = running_lines(all);
    let mut r: Vec<WSLInfo> = Vec::new();
    let mut k: usize = 0;
    proof {
        assert(all.take(0) =~= Seq::<Seq<char>>::empty());
        assert(infos_view(r@) =~= Seq::<WslView>::empty());
    }
    while k < ls.len()
        invariant
            all == text::texts(ls@),
            all == text::lines_of(output@),
            rl == running_lines(all),
            k <= ls@.len(),
            r@.len() == running_lines(all.take(k as int)).len(),
            infos_view(r@) == running_lines(all.take(k as int)).map_values(
                |l: Seq<char>| info_from_columns(listing_columns(l)),
            ),
            forall|i: int|
                0 <= i < running_lines(all.take(k as int)).len() ==> #[trigger] listing_columns(
                    running_lines(all.take(k as int))[i],
                ).len() >= 3,
        decreases ls@.len() - k,
    {
        let line = &ls[k];
        let ghost prev = running_lines(all.take(k as int));
        proof {
            assert(all.take(k + 1).drop_last() =~= all.take(k as int));
            assert(all.take(k + 1).last() == line@);
            lemma_running_lines_prefix(all, k as int);
            assert(rl.take(prev.len() as int) == prev);
        }
        if is_running_line(line.as_str()) {
            let cols = listing_line_columns(line.as_str());
            proof {
                lemma_running_lines_prefix(all, k as int + 1);
                let next = running_lines(all.take(k + 1));
                assert(next == prev.push(line@));
                assert(rl.take(next.len() as int) == next);
                assert(next[next.len() - 1] == line@);
                assert(rl.take(next.len() as int)[next.len() - 1] == rl[next.len() - 1]);
                assert(rl[prev.len() as int] == line@);
                assert(rl.take(prev.len() as int) =~= prev);
            }
            if cols.len() < 3 {
                proof {
                    assert forall|i: int| 0 <= i < prev.len() implies #[trigger] listing_columns(
                        rl[i],
                    ).len() >= 3 by {
                        assert(rl[i] == prev[i]);
                    }
                    assert(text::texts(cols@).len() == cols@.len());
                    assert(listing_columns(rl[prev.len() as int]).len() < 3);
                    assert(!listing_well_formed(output@));
                }
                return (r, true);
            }
            let mut info = WSLInfo::default();
            if let Some(v) = text::parse_u8(cols[2].as_str()) {
                info.version = v;
            }
            info.distro = cols[0].clone();
            let ghost old_r = r@;
            r.push(info);
            proof {
                let next = running_lines(all.take(k + 1));
                assert(info@ == info_from_columns(listing_columns(line@)));
                assert(infos_view(r@) =~= infos_view(old_r).push(info@));
                assert(next.map_values(|l: Seq<char>| info_from_columns(listing_columns(l)))
                    =~= prev.map_values(|l: Seq<char>| info_from_columns(listing_columns(l))).push(
                    info@,
                ));
                assert forall|i: int| 0 <= i < next.len() implies #[trigger] listing_columns(
                    next[i],
                ).len() >= 3 by {
                    if i < prev.len() {
                        assert(next[i] == prev[i]);
                    }
                }
            }
        }
        k = k + 1;
    }
    proof {
        assert(all.take(ls@.len() as int) =~= all);
        assert(rl.take(rl.len() as int) =~= rl);
    }
    (r, false)
}

/// A distribution's address is looked up only when it runs under WSL 2 or
/// later; under WSL 1 it shares the host's loop-back address.
pub fn needs_ip_lookup(info: &WSLInfo) -> (r: bool)
    ensures
        r == (info.version != 1),
{
    info.version != 1
}

/// The address that the address-reporting script printed: its output
/// decoded as by [`text::decode_output`], with the line breaks taken out.
pub open spec fn ip_of_output(stdout: Seq<u8>) -> Seq<char> {
    text::without(text::without(text::utf8_lossy(stdout), '\0'), '\n')
}

/// Reads the address out of what the address-reporting script printed.
pub fn ip_from_output(stdout: &[u8]) -> (r: String)
    ensures
        r@ == ip_of_output(stdout@),
        vstd::utf8::valid_utf8(stdout@) ==> r@ == text::without(
            text::without(vstd::utf8::decode_utf8(stdout@), '\0'),
            '\n',
        ),
{
    let decoded = text::decode_output(stdout);
    text::remove_char(decoded.as_str(), '\n')
}

/// Records the address that the address-reporting script printed for this
/// distribution; the other fields stay as they were.
pub fn set_ip_from_output(info: &mut WSLInfo, stdout: &[u8])
    ensures
        final(info)@ == (WslView { ip: ip_of_output(stdout@), ..old(info)@ }),
        vstd::utf8::valid_utf8(stdout@) ==> final(info).ip@ == text::without(
            text::without(vstd::utf8::decode_utf8(stdout@), '\0'),
            '\n',
        ),
{
    info.ip = ip_from_output(stdout);
}

/// How a Windows path reads inside WSL below `/mnt/`: ASCII letters
/// lower-cased and every `':'` taken out (`C:/Temp/x` becomes `c/temp/x`).
pub open spec fn wsl_mount_path(windows_path: Seq<char>) -> Seq<char> {
    text::without(text::lower_seq(windows_path), ':')
}

/// How a path reads inside WSL is worked out piece by piece: the reading of
/// two pieces written one after the other is the two readings one after the
/// other, a drive colon reads as nothing, and a piece without colons keeps its
/// length, each upper-case ASCII letter moved 32 code points up onto its
/// lower-case form and every other character kept. So `C:/Users/x` reads
/// `c/users/x`.
pub proof fn law_mount_path_by_pieces(a: Seq<char>, b: Seq<char>)
    ensures
        wsl_mount_path(a + b) == wsl_mount_path(a) + wsl_mount_path(b),
        wsl_mount_path(seq![':']).len() == 0,
        !a.contains(':') ==> wsl_mount_path(a).len() == a.len(),
        !a.contains(':') ==> forall|i: int|
            0 <= i < a.len() && 'A' <= a[i] && a[i] <= 'Z' ==> #[trigger] wsl_mount_path(a)[i] as u32
                == a[i] as u32 + 32,
        !a.contains(':') ==> forall|i: int|
            0 <= i < a.len() && !('A' <= a[i] && a[i] <= 'Z') ==> #[trigger] wsl_mount_path(a)[i]
                == a[i],
{
    assert(text::lower_seq(a + b) =~= text::lower_seq(a) + text::lower_seq(b));
    text::lemma_without_concat(text::lower_seq(a), text::lower_seq(b), ':');
    let colon = seq![':'];
    assert(text::lower_seq(colon) =~= colon);
    assert(colon.drop_last() =~= Seq::<char>::empty());
    assert(colon.last() == ':');
    assert(text::without(colon, ':') == text::without(colon.drop_last(), ':'));
    assert(text::without(Seq::<char>::empty(), ':') == Seq::<char>::empty());
    if !a.contains(':') {
        let la = text::lower_seq(a);
        assert(!la.contains(':')) by {
            if la.contains(':') {
                let j = choose|j: int| 0 <= j < la.len() && la[j] == ':';
                assert(la[j] == text::lower_char(a[j]));
                assert(a[j] == ':');
            }
        }
        text::lemma_without_missing(la, ':');
        text::law_lower_case_shifts_upper_letters(a);
    }
}

/// The path of the address-reporting script as seen from inside WSL,
/// relative to `/mnt/` (see [`wsl_mount_path`]).
pub fn script_path_for_wsl(windows_path: &str) -> (r: String)
    ensures
        r@ == wsl_mount_path(windows_path@),
{
    let lower = text::to_ascii_lowercase(windows_path);
    text::remove_char(lower.as_str(), ':')
}

/// A plain file name: not empty, not `.` or `..`, no separator or drive
/// colon in it.
pub open spec fn is_plain_file_name(name: Seq<char>) -> bool {
    &&& name.len() > 0
    &&& name != seq!['.']
    &&& name != seq!['.', '.']
    &&& !name.contains('/')
    &&& !name.contains('\\')
    &&& !name.contains(':')
}

/// `s` ends with `tail`.
pub open spec fn ends_with(s: Seq<char>, tail: Seq<char>) -> bool {
    s.len() >= tail.len() && s.subrange(s.len() - tail.len(), s.len() as int) == tail
}

/// What path_slash's `PathExt::to_slash` gives for the path with this text.
/// It depends on the path's text and on the target system the crate is built
/// for, which is fixed at compile time.
pub uninterp spec fn slash_form(path: Seq<char>) -> Seq<char>;

/// What `PathBuf::join` followed by `to_string_lossy` gives for a directory
/// and a name. It depends on the two texts and on the target system the crate
/// is built for, which is fixed at compile time.
pub uninterp spec fn joined_path(dir: Seq<char>, name: Seq<char>) -> Seq<char>;

/// Calls path_slash's `PathExt::to_slash` on the path with this text.
/// Trusted: there is a result, since the text of a `str` path is valid
/// Unicode and path_slash returns `None` only for parts that are not, and that
/// result is [`slash_form`] of the text. How the separators are rewritten
/// depends on the target system (on Windows every separator becomes `'/'`,
/// elsewhere the text is kept) and is not stated.
#[verifier::external_body]
fn path_to_slash(path: &str) -> (r: Option<String>)
    ensures
        r is Some,
        r->0@ == slash_form(path@),
{
    match std::path::Path::new(path).to_slash() {
        Some(slashed) => Some(slashed.into_owned()),
        None => None,
    }
}

/// Calls `PathBuf::join`, joining a file name onto a directory, and reads the
/// result back as text. Trusted: the result is [`joined_path`] of the two
/// texts, and a plain file name (see [`is_plain_file_name`]) ends up at the
/// end of it, as the documentation of `PathBuf::push` states: a relative path
/// without prefix or root is appended after a separator, and the only
/// rewriting it describes, for a directory with a verbatim prefix, removes
/// `.` and `..` components, which a plain file name is not. Which separator
/// goes between depends on the target system and is not stated.
#[verifier::external_body]
fn join_path(dir: &str, name: &str) -> (r: String)
    ensures
        r@ == joined_path(dir@, name@),
        is_plain_file_name(name@) ==> ends_with(r@, name@),
{
    std::path::PathBuf::from(dir).join(name).to_string_lossy().into_owned()
}

/// Where the address-reporting script is written, and how that path reads
/// inside WSL below `/mnt/`: the temporary directory in slash form with the
/// file name joined on, and that path as [`wsl_mount_path`] gives it.
pub fn script_paths(temp_dir: &str, name: &str) -> (r: (String, String))
    ensures
        r.0@ == joined_path(slash_form(temp_dir@), name@),
        r.1@ == wsl_mount_path(r.0@),
        is_plain_file_name(name@) ==> ends_with(r.0@, name@),
{
    let slashed = match path_to_slash(temp_dir) {
        Some(p) => p,
        None => {
            proof {
                assert(false);
            }
            String::new()
        },
    };
    let full = join_path(slashed.as_str(), name);
    let mounted = script_path_for_wsl(full.as_str());
    (full, mounted)
}

/// The `cmd` arguments that run the address-reporting script inside a
/// distribution: `/c wsl -d <distro> -- sh /mnt/<script path>`.
pub open spec fn ip_lookup_command(distro: Seq<char>, script_path: Seq<char>) -> Seq<Seq<char>> {
    seq![
        seq!['/', 'c'],
        seq!['w', 's', 'l'],
        seq!['-', 'd'],
        distro,
        seq!['-', '-'],
        seq!['s', 'h'],
        seq!['/', 'm', 'n', 't', '/'] + script_path,
    ]
}

/// The command runs `wsl` with the distribution named as given, and its last
/// argument is `/mnt/` followed by the script path, with nothing added around
/// it, whatever the path holds (spaces among it).
pub proof fn law_lookup_names_script_exactly(distro: Seq<char>, script_path: Seq<char>)
    ensures
        ip_lookup_command(distro, script_path).len() == 7,
        ip_lookup_command(distro, script_path)[3] == distro,
        ip_lookup_command(distro, script_path)[6].len() == script_path.len() + 5,
        ip_lookup_command(distro, script_path)[6].take(5) == seq!['/', 'm', 'n', 't', '/'],
        ip_lookup_command(distro, script_path)[6].skip(5) == script_path,
{
    let last = ip_lookup_command(distro, script_path)[6];
    assert(last.take(5) =~= seq!['/', 'm', 'n', 't', '/']);
    assert(last.skip(5) =~= script_path);
}

/// A string holding the text of a literal.
fn owned(lit: &str) -> (r: String)
    ensures
        r@ == lit@,
{
    String::from_str(lit)
}

/// The arguments of the `cmd` call that asks a distribution for its address.
pub fn ip_lookup_args(distro: &str, script_path: &str) -> (r: Vec<String>)
    ensures
        text::texts(r@) == ip_lookup_command(distro@, script_path@),
{
    proof {
        reveal_strlit("/c");
        reveal_strlit("wsl");
        reveal_strlit("-d");
        reveal_strlit("--");
        reveal_strlit("sh");
        reveal_strlit("/mnt/");
    }
    let mut r: Vec<String> = Vec::new();
    r.push(owned("/c"));
    r.push(owned("wsl"));
    r.push(owned("-d"));
    r.push(owned(distro));
    r.push(owned("--"));
    r.push(owned("sh"));
    let mut mounted = owned("/mnt/");
    mounted.append(script_path);
    r.push(mounted);
    proof {
        assert(text::texts(r@) =~~= ip_lookup_command(distro@, script_path@));
    }
    r
}

} // verus!
