//! What happens when the hosts file this program wrote is read back and
//! brought up to date again: for entries that can be written and read back,
//! the text comes out the same.
use vstd::prelude::*;
use crate::hosts;
use crate::hosts::HostsView;
use crate::text;
use crate::wsl;

verus! {

/// An entry that is not written at all: no name and no comment.
pub open spec fn is_blank(h: HostsView) -> bool {
    h.distro.len() == 0 && h.comment.len() == 0
}

/// The text of an entry's line, without the line break.
pub open spec fn line_text(h: HostsView) -> Seq<char> {
    hosts::render_entry(h).drop_last()
}

/// The lines a sequence of entries is written as, without line breaks; blank
/// entries give none.
pub open spec fn written_lines(hs: Seq<HostsView>) -> Seq<Seq<char>>
    decreases hs.len(),
{
    if hs.len() == 0 {
        Seq::<Seq<char>>::empty()
    } else if is_blank(hs.last()) {
        written_lines(hs.drop_last())
    } else {
        written_lines(hs.drop_last()).push(line_text(hs.last()))
    }
}

/// A word as the hosts file reader sees one: not empty, with no space, line
/// feed or carriage return in it.
pub open spec fn is_word(w: Seq<char>) -> bool {
    w.len() > 0 && !w.contains(' ') && !w.contains('\n') && !w.contains('\r')
}

/// An entry that reads back as it was written: a blank entry; or a comment
/// line that starts with `'#'` and spans one line; or an address entry whose
/// address is a word not starting with `'#'`, whose name is a lower-case
/// word, whose comment, when it is written and no distribution refreshes the
/// entry, is a word, and whose line is at least five bytes long.
pub open spec fn writable(h: HostsView, ws: Seq<wsl::WslView>) -> bool {
    ||| is_blank(h)
    ||| {
        &&& h.only_comment
        &&& h.distro.len() == 0
        &&& h.comment.len() > 0
        &&& h.comment[0] == '#'
        &&& !h.comment.contains('\n')
        &&& !h.comment.contains('\r')
    }
    ||| {
        &&& !h.only_comment
        &&& is_word(h.ip)
        &&& h.ip[0] != '#'
        &&& is_word(h.distro)
        &&& text::lower_seq(h.distro) == h.distro
        &&& (hosts::named_in(ws, h.distro) || !(h.comment.len() > 0 && h.comment[0] == '#')
            || is_word(h.comment))
        &&& text::byte_len(line_text(h)) >= 5
    }
}

/// Words written one after the other with a space between each two.
pub open spec fn spaced(ws: Seq<Seq<char>>) -> Seq<char>
    decreases ws.len(),
{
    if ws.len() == 0 {
        Seq::<char>::empty()
    } else if ws.len() == 1 {
        ws[0]
    } else {
        spaced(ws.drop_last()).push(' ') + ws.last()
    }
}

/// Splitting words written with spaces between them gives back the words.
pub proof fn lemma_split_spaced(ws: Seq<Seq<char>>)
    requires
        ws.len() > 0,
        forall|i: int| 0 <= i < ws.len() ==> !(#[trigger] ws[i]).contains(' '),
    ensures
        text::split_on(spaced(ws), ' ') == ws,
    decreases ws.len(),
{
    if ws.len() == 1 {
        text::lemma_split_plain(ws[0], ' ');
        assert(seq![ws[0]] =~= ws);
    } else {
        let prev = ws.drop_last();
        assert forall|i: int| 0 <= i < prev.len() implies !(#[trigger] prev[i]).contains(' ') by {
            assert(prev[i] == ws[i]);
        }
        lemma_split_spaced(prev);
        let j = spaced(prev);
        text::lemma_split_sep(j, ' ');
        assert(!ws.last().contains(' ')) by {
            assert(ws[ws.len() - 1] == ws.last());
        }
        text::lemma_split_extend(j.push(' '), ws.last(), ' ');
        let e = Seq::<char>::empty();
        assert(prev.push(e).drop_last().push(e + ws.last()) =~= ws);
    }
}

/// Dropping empty pieces keeps every piece when none is empty.
pub proof fn lemma_keep_all_non_empty(ws: Seq<Seq<char>>)
    requires
        forall|i: int| 0 <= i < ws.len() ==> (#[trigger] ws[i]).len() > 0,
    ensures
        text::keep_non_empty(ws) == ws,
    decreases ws.len(),
{
    if ws.len() > 0 {
        let prev = ws.drop_last();
        assert forall|i: int| 0 <= i < prev.len() implies (#[trigger] prev[i]).len() > 0 by {
            assert(prev[i] == ws[i]);
        }
        lemma_keep_all_non_empty(prev);
        assert(ws[ws.len() - 1] == ws.last());
        assert(prev.push(ws.last()) =~= ws);
    }
}

/// The words of words written with spaces between them are those words.
pub proof fn lemma_fields_spaced(ws: Seq<Seq<char>>)
    requires
        ws.len() > 0,
        forall|i: int| 0 <= i < ws.len() ==> (#[trigger] ws[i]).len() > 0 && !ws[i].contains(' '),
    ensures
        text::fields(spaced(ws), ' ') == ws,
{
    lemma_split_spaced(ws);
    lemma_keep_all_non_empty(ws);
}


/// A written line that reads back as one line: no line feed in it and no
/// carriage return at its end.
pub open spec fn one_line(l: Seq<char>) -> bool {
    !l.contains('\n') && !(l.len() > 0 && l.last() == '\r')
}

/// A non-blank entry is written as its line followed by a line feed.
pub proof fn lemma_render_entry_line(h: HostsView)
    requires
        !is_blank(h),
    ensures
        hosts::render_entry(h) == line_text(h).push('\n'),
{
    assert(hosts::render_entry(h).drop_last().push('\n') =~= hosts::render_entry(h));
}

/// Cutting the written text at line feeds gives the written lines and one
/// empty piece after the last line feed.
pub proof fn lemma_split_render(hs: Seq<HostsView>)
    requires
        forall|i: int| 0 <= i < hs.len() && !is_blank(hs[i]) ==> one_line(#[trigger] line_text(hs[i])),
    ensures
        text::split_on(hosts::render_hosts(hs), '\n') == written_lines(hs).push(Seq::<char>::empty()),
    decreases hs.len(),
{
    let e = Seq::<char>::empty();
    if hs.len() == 0 {
        assert(hosts::render_hosts(hs) == e);
        assert(Seq::<Seq<char>>::empty().push(e) =~= seq![e]);
    } else {
        let prev = hs.drop_last();
        let h = hs.last();
        assert forall|i: int| 0 <= i < prev.len() && !is_blank(prev[i]) implies one_line(
            #[trigger] line_text(prev[i]),
        ) by {
            assert(prev[i] == hs[i]);
        }
        lemma_split_render(prev);
        let r = hosts::render_hosts(prev);
        if is_blank(h) {
            assert(hosts::render_entry(h) == e);
            assert(r + e =~= r);
        } else {
            assert(h == hs[hs.len() - 1]);
            let l = line_text(h);
            lemma_render_entry_line(h);
            assert(r + l.push('\n') =~= (r + l).push('\n'));
            text::lemma_split_sep(r + l, '\n');
            text::lemma_split_extend(r, l, '\n');
            let w = written_lines(prev);
            assert(w.push(e).drop_last().push(e + l) =~= w.push(l));
        }
    }
}

/// Reading the lines of the written text gives the written lines.
pub proof fn lemma_lines_of_render(hs: Seq<HostsView>)
    requires
        forall|i: int| 0 <= i < hs.len() && !is_blank(hs[i]) ==> one_line(#[trigger] line_text(hs[i])),
    ensures
        text::lines_of(hosts::render_hosts(hs)) == written_lines(hs),
{
    lemma_split_render(hs);
    lemma_written_lines_one_line(hs);
    let w = written_lines(hs);
    let p = w.push(Seq::<char>::empty());
    assert(p.drop_last() =~= w);
    assert(w.map_values(|l: Seq<char>| text::strip_cr(l)) =~= w);
}

/// Every written line is one line.
proof fn lemma_written_lines_one_line(hs: Seq<HostsView>)
    requires
        forall|i: int| 0 <= i < hs.len() && !is_blank(hs[i]) ==> one_line(#[trigger] line_text(hs[i])),
    ensures
        forall|j: int| 0 <= j < written_lines(hs).len() ==> one_line(#[trigger] written_lines(hs)[j]),
    decreases hs.len(),
{
    if hs.len() > 0 {
        let prev = hs.drop_last();
        assert forall|i: int| 0 <= i < prev.len() && !is_blank(prev[i]) implies one_line(
            #[trigger] line_text(prev[i]),
        ) by {
            assert(prev[i] == hs[i]);
        }
        lemma_written_lines_one_line(prev);
        assert(hs.last() == hs[hs.len() - 1]);
        let w = written_lines(prev);
        let all = written_lines(hs);
        assert forall|j: int| 0 <= j < all.len() implies one_line(#[trigger] all[j]) by {
            if j < w.len() {
                assert(all[j] == w[j]);
            }
        }
    }
}


/// A character in a concatenation is in one of its parts.
proof fn lemma_contains_concat(a: Seq<char>, b: Seq<char>, x: char)
    ensures
        (a + b).contains(x) == (a.contains(x) || b.contains(x)),
{
    if (a + b).contains(x) {
        let i = choose|i: int| 0 <= i < (a + b).len() && (a + b)[i] == x;
        if i < a.len() {
            assert(a[i] == x);
        } else {
            assert(b[i - a.len()] == x);
        }
    }
    if a.contains(x) {
        let i = choose|i: int| 0 <= i < a.len() && a[i] == x;
        assert((a + b)[i] == x);
    }
    if b.contains(x) {
        let i = choose|i: int| 0 <= i < b.len() && b[i] == x;
        assert((a + b)[a.len() + i] == x);
    }
}

/// The marker comment is the two words `#` and `wsl2hosts`.
proof fn lemma_wsl_comment_words()
    ensures
        hosts::wsl_comment() == spaced(seq![seq!['#'], seq!['w', 's', 'l', '2', 'h', 'o', 's', 't', 's']]),
        is_word(seq!['#']),
        is_word(seq!['w', 's', 'l', '2', 'h', 'o', 's', 't', 's']),
        !hosts::wsl_comment().contains('\n'),
        !hosts::wsl_comment().contains('\r'),
        hosts::wsl_comment().last() != '\r',
{
    let ws = seq![seq!['#'], seq!['w', 's', 'l', '2', 'h', 'o', 's', 't', 's']];
    assert(ws.drop_last() =~= seq![seq!['#']]);
    assert(spaced(ws.drop_last()) == seq!['#']);
    assert(hosts::wsl_comment() =~= spaced(ws));
}

/// No distribution has an empty name, so none refreshes a nameless entry.
proof fn lemma_not_named_empty(ws: Seq<wsl::WslView>)
    requires
        forall|j: int| 0 <= j < ws.len() ==> (#[trigger] ws[j]).distro.len() > 0,
    ensures
        !hosts::named_in(ws, Seq::<char>::empty()),
{
    if hosts::named_in(ws, Seq::<char>::empty()) {
        let j = choose|j: int|
            0 <= j < ws.len() && text::same_ignoring_case(
                #[trigger] ws[j].distro,
                Seq::<char>::empty(),
            );
        assert(text::lower_seq(ws[j].distro).len() == ws[j].distro.len());
    }
}

/// A written entry that can be written is one line, and reading that line
/// back and bringing it up to date gives an entry written as the same line
/// (and, when a distribution refreshes it, the very same entry).
pub proof fn lemma_reread_entry(h: HostsView, ws: Seq<wsl::WslView>)
    requires
        writable(h, ws),
        !is_blank(h),
        hosts::settle_entry(h, ws) == h,
        forall|j: int| 0 <= j < ws.len() ==> (#[trigger] ws[j]).distro.len() > 0,
    ensures
        one_line(line_text(h)),
        hosts::entry_of_line(line_text(h)).distro == h.distro,
        hosts::render_entry(hosts::settle_entry(hosts::entry_of_line(line_text(h)), ws))
            == hosts::render_entry(h),
{
    let l = line_text(h);
    let r = hosts::entry_of_line(l);
    let e = Seq::<char>::empty();
    lemma_render_entry_line(h);
    lemma_wsl_comment_words();
    lemma_not_named_empty(ws);
    if h.only_comment {
        assert(l =~= h.comment);
        assert(r == HostsView { comment: l, only_comment: true, ..hosts::blank_entry() });
        assert(h.comment[h.comment.len() - 1] == h.comment.last());
        assert(hosts::settle_entry(r, ws) == r);
        assert(hosts::render_entry(r) =~= hosts::render_entry(h));
    } else {
        let ip = h.ip;
        let d = h.distro;
        let c = h.comment;
        let named = hosts::named_in(ws, d);
        let shows = c.len() > 0 && c[0] == '#';
        let hash = seq!['#'];
        let wsl2 = seq!['w', 's', 'l', '2', 'h', 'o', 's', 't', 's'];
        let words = if named {
            seq![ip, d, hash, wsl2]
        } else if shows {
            seq![ip, d, c]
        } else {
            seq![ip, d]
        };
        if named {
            assert(c == hosts::wsl_comment());
        }
        assert(spaced(seq![ip]) == ip);
        assert(seq![ip, d].drop_last() =~= seq![ip]);
        assert(spaced(seq![ip, d]) == ip.push(' ') + d);
        assert(seq![ip, d, c].drop_last() =~= seq![ip, d]);
        assert(seq![ip, d, hash].drop_last() =~= seq![ip, d]);
        assert(seq![ip, d, hash, wsl2].drop_last() =~= seq![ip, d, hash]);
        assert(seq![hash, wsl2].drop_last() =~= seq![hash]);
        assert(spaced(seq![hash]) == hash);
        assert(text::lower_seq(d) == d);
        let tail = if shows {
            seq![' '] + c
        } else {
            e
        };
        assert(hosts::render_entry(h) == (ip + seq![' '] + text::lower_seq(d) + tail).push('\n'));
        assert(l =~= ip + seq![' '] + d + tail);
        if named {
            assert(shows);
            assert(spaced(seq![hash, wsl2]) == hash.push(' ') + wsl2);
            assert(spaced(seq![ip, d, hash]) == (ip.push(' ') + d).push(' ') + hash);
            assert(spaced(words) == ((ip.push(' ') + d).push(' ') + hash).push(' ') + wsl2);
            assert(l =~= spaced(words));
        } else if shows {
            assert(spaced(words) == (ip.push(' ') + d).push(' ') + c);
            assert(l =~= spaced(words));
        } else {
            assert(l =~= spaced(words));
        }
        assert forall|i: int| 0 <= i < words.len() implies (#[trigger] words[i]).len() > 0
            && !words[i].contains(' ') by {}
        lemma_fields_spaced(words);
        // The line holds a space, right after the address.
        assert(l[ip.len() as int] == ' ');
        assert(l.contains(' '));
        assert(l[0] == ip[0]);
        assert(r == hosts::read_address_line(l, hosts::blank_entry()));
        // One line: no line feed, no carriage return at the end.
        lemma_contains_concat(ip.push(' '), d, '\n');
        lemma_contains_concat(ip, seq![' '], '\n');
        assert(!seq![' '].contains('\n'));
        assert(ip.push(' ') =~= ip + seq![' ']);
        if named {
            lemma_contains_concat(ip.push(' ') + d, seq![' '] + c, '\n');
            lemma_contains_concat(seq![' '], c, '\n');
            assert(l =~= ip.push(' ') + d + (seq![' '] + c));
            assert(l.last() == c.last());
        } else if shows {
            lemma_contains_concat(ip.push(' ') + d, seq![' '] + c, '\n');
            lemma_contains_concat(seq![' '], c, '\n');
            assert(l =~= ip.push(' ') + d + (seq![' '] + c));
            assert(l.last() == c.last());
            assert(c[c.len() - 1] == c.last());
        } else {
            assert(l =~= ip.push(' ') + d);
            assert(l.last() == d.last());
            assert(d[d.len() - 1] == d.last());
        }
        assert(!l.contains('\n'));
        // What reading the line back gives.
        if named {
            assert(r == HostsView { ip: ip, distro: d, ..hosts::blank_entry() });
            assert(hosts::settle_entry(r, ws) =~= h);
        } else if shows {
            assert(r == HostsView { ip: ip, distro: d, comment: c, ..hosts::blank_entry() });
            assert(hosts::settle_entry(r, ws) == r);
            assert(hosts::render_entry(r) =~= hosts::render_entry(h));
        } else {
            assert(r == HostsView { ip: ip, distro: d, ..hosts::blank_entry() });
            assert(hosts::settle_entry(r, ws) == r);
            assert(hosts::render_entry(r) =~= hosts::render_entry(h));
        }
    }
}


/// Every entry brought up to date with `ws` as if each were alone.
pub open spec fn settle_all(es: Seq<HostsView>, ws: Seq<wsl::WslView>) -> Seq<HostsView> {
    es.map_values(|e: HostsView| hosts::settle_entry(e, ws))
}

/// The entries read back from the lines a sequence of entries is written as.
pub open spec fn reread(hs: Seq<HostsView>) -> Seq<HostsView> {
    hosts::entries_of_lines(written_lines(hs))
}

/// Reading back one more written line adds its entry at the end.
proof fn lemma_reread_push(hs: Seq<HostsView>)
    requires
        hs.len() > 0,
    ensures
        reread(hs) == if is_blank(hs.last()) {
            reread(hs.drop_last())
        } else {
            reread(hs.drop_last()).push(hosts::entry_of_line(line_text(hs.last())))
        },
{
    let w = written_lines(hs.drop_last());
    if !is_blank(hs.last()) {
        assert(hosts::entries_of_lines(w.push(line_text(hs.last()))) =~= hosts::entries_of_lines(
            w,
        ).push(hosts::entry_of_line(line_text(hs.last()))));
    }
}

/// Entries that can be written and are up to date, read back and each
/// brought up to date, are written as the same text.
proof fn lemma_reread_render(hs: Seq<HostsView>, ws: Seq<wsl::WslView>)
    requires
        forall|i: int| 0 <= i < hs.len() ==> writable(#[trigger] hs[i], ws),
        forall|i: int| 0 <= i < hs.len() ==> hosts::settle_entry(#[trigger] hs[i], ws) == hs[i],
        forall|j: int| 0 <= j < ws.len() ==> (#[trigger] ws[j]).distro.len() > 0,
    ensures
        hosts::render_hosts(settle_all(reread(hs), ws)) == hosts::render_hosts(hs),
    decreases hs.len(),
{
    if hs.len() == 0 {
        assert(settle_all(reread(hs), ws) =~= Seq::<HostsView>::empty());
    } else {
        let prev = hs.drop_last();
        let h = hs.last();
        assert(h == hs[hs.len() - 1]);
        assert forall|i: int| 0 <= i < prev.len() implies writable(#[trigger] prev[i], ws) by {
            assert(prev[i] == hs[i]);
        }
        assert forall|i: int| 0 <= i < prev.len() implies hosts::settle_entry(#[trigger] prev[i], ws)
            == prev[i] by {
            assert(prev[i] == hs[i]);
        }
        lemma_reread_render(prev, ws);
        lemma_reread_push(hs);
        let a = settle_all(reread(prev), ws);
        if is_blank(h) {
            assert(hosts::render_entry(h) == Seq::<char>::empty());
            assert(hosts::render_hosts(hs) =~= hosts::render_hosts(prev));
        } else {
            lemma_reread_entry(h, ws);
            let y = hosts::settle_entry(hosts::entry_of_line(line_text(h)), ws);
            assert(settle_all(reread(hs), ws) =~= a.push(y));
            assert(a.push(y).drop_last() =~= a);
        }
    }
}

/// Names that have an entry still have one after writing and reading back.
proof fn lemma_reread_keeps_names(hs: Seq<HostsView>, ws: Seq<wsl::WslView>, d: Seq<char>)
    requires
        forall|i: int| 0 <= i < hs.len() ==> writable(#[trigger] hs[i], ws),
        forall|i: int| 0 <= i < hs.len() ==> hosts::settle_entry(#[trigger] hs[i], ws) == hs[i],
        forall|j: int| 0 <= j < ws.len() ==> (#[trigger] ws[j]).distro.len() > 0,
        d.len() > 0,
        hosts::has_entry_for(hs, d),
    ensures
        hosts::has_entry_for(reread(hs), d),
    decreases hs.len(),
{
    let prev = hs.drop_last();
    let h = hs.last();
    assert(h == hs[hs.len() - 1]);
    assert forall|i: int| 0 <= i < prev.len() implies writable(#[trigger] prev[i], ws) by {
        assert(prev[i] == hs[i]);
    }
    assert forall|i: int| 0 <= i < prev.len() implies hosts::settle_entry(#[trigger] prev[i], ws)
        == prev[i] by {
        assert(prev[i] == hs[i]);
    }
    lemma_reread_push(hs);
    let i = choose|i: int| 0 <= i < hs.len() && text::same_ignoring_case(d, #[trigger] hs[i].distro);
    if i < prev.len() {
        assert(prev[i] == hs[i]);
        assert(hosts::has_entry_for(prev, d));
        lemma_reread_keeps_names(prev, ws, d);
        let a = reread(prev);
        let k = choose|k: int| 0 <= k < a.len() && text::same_ignoring_case(d, #[trigger] a[k].distro);
        if !is_blank(h) {
            assert(reread(hs)[k] == a[k]);
        }
    } else {
        assert(text::lower_seq(d).len() == d.len());
        assert(text::lower_seq(h.distro).len() == h.distro.len());
        assert(!is_blank(h));
        lemma_reread_entry(h, ws);
        let a = reread(prev);
        assert(reread(hs)[a.len() as int].distro == h.distro);
    }
}

/// Writing entries that are up to date, reading the text back and bringing
/// it up to date again writes the same text — as long as every entry can be
/// written and read back (see [`writable`]) and no distribution is nameless.
pub proof fn law_rewrite_is_stable(hs: Seq<HostsView>, ws: Seq<wsl::WslView>)
    requires
        hosts::merge_all(hs, ws) == hs,
        forall|j: int| 0 <= j < ws.len() ==> (#[trigger] ws[j]).distro.len() > 0,
        forall|i: int| 0 <= i < hs.len() ==> writable(#[trigger] hs[i], ws),
    ensures
        hosts::render_hosts(
            hosts::merge_all(hosts::entries_of_lines(text::lines_of(hosts::render_hosts(hs))), ws),
        ) == hosts::render_hosts(hs),
{
    hosts::law_merge_settles_existing(hs, ws);
    assert forall|i: int| 0 <= i < hs.len() implies hosts::settle_entry(#[trigger] hs[i], ws)
        == hs[i] by {
        assert(hosts::merge_all(hs, ws)[i] == hs[i]);
    }
    assert forall|i: int| 0 <= i < hs.len() && !is_blank(hs[i]) implies one_line(
        #[trigger] line_text(hs[i]),
    ) by {
        lemma_reread_entry(hs[i], ws);
    }
    lemma_lines_of_render(hs);
    let back = reread(hs);
    hosts::law_merge_covers_every_distro(hs, ws);
    assert forall|j: int| 0 <= j < ws.len() implies hosts::has_entry_for(
        back,
        #[trigger] ws[j].distro,
    ) by {
        lemma_reread_keeps_names(hs, ws, ws[j].distro);
    }
    hosts::lemma_merge_all_no_growth(back, ws);
    hosts::law_merge_settles_existing(back, ws);
    assert(hosts::merge_all(back, ws) =~= settle_all(back, ws));
    lemma_reread_render(hs, ws);
}

/// One round of the service: the hosts file written after bringing any
/// entries up to date is written again, unchanged, by the next round with
/// the same distributions — as long as every entry of the file can be
/// written and read back and no distribution is nameless.
pub proof fn law_written_file_is_a_fixpoint(es: Seq<HostsView>, ws: Seq<wsl::WslView>)
    requires
        forall|j: int| 0 <= j < ws.len() ==> (#[trigger] ws[j]).distro.len() > 0,
        forall|i: int|
            0 <= i < hosts::merge_all(es, ws).len() ==> writable(
                #[trigger] hosts::merge_all(es, ws)[i],
                ws,
            ),
    ensures
        ({
            let written = hosts::render_hosts(hosts::merge_all(es, ws));
            hosts::render_hosts(
                hosts::merge_all(hosts::entries_of_lines(text::lines_of(written)), ws),
            ) == written
        }),
{
    hosts::law_merge_idempotent(es, ws);
    law_rewrite_is_stable(hosts::merge_all(es, ws), ws);
}


// ---------------------------------------------------------------------------
// Reading a hosts text and writing it back
// ---------------------------------------------------------------------------

/// The text of lines, each followed by a line feed.
pub open spec fn text_of_lines(ls: Seq<Seq<char>>) -> Seq<char>
    decreases ls.len(),
{
    if ls.len() == 0 {
        Seq::<char>::empty()
    } else {
        text_of_lines(ls.drop_last()) + ls.last().push('\n')
    }
}

/// A hosts line that is written back as it was read: a comment line that
/// starts with `'#'`; or an address, a lower-case name and optionally a
/// comment that starts with `'#'`, separated by single spaces, with no
/// leading or trailing space, the address not starting with `'#'`, the line
/// at least five bytes long. Neither kind holds a line feed or a carriage
/// return.
pub open spec fn well_formed_hosts_line(l: Seq<char>) -> bool {
    let f = text::fields(l, ' ');
    &&& !l.contains('\n')
    &&& !l.contains('\r')
    &&& l.len() > 0
    &&& (l[0] == '#' || {
        &&& f.len() == 2 || (f.len() == 3 && f[2][0] == '#')
        &&& l == spaced(f)
        &&& f[0][0] != '#'
        &&& text::lower_seq(f[1]) == f[1]
        &&& text::byte_len(l) >= 5
    })
}

/// Cutting a text of lines at line feeds gives the lines and one empty piece.
proof fn lemma_split_text_of_lines(ls: Seq<Seq<char>>)
    requires
        forall|i: int| 0 <= i < ls.len() ==> !(#[trigger] ls[i]).contains('\n'),
    ensures
        text::split_on(text_of_lines(ls), '\n') == ls.push(Seq::<char>::empty()),
    decreases ls.len(),
{
    let e = Seq::<char>::empty();
    if ls.len() == 0 {
        assert(Seq::<Seq<char>>::empty().push(e) =~= seq![e]);
    } else {
        let prev = ls.drop_last();
        let l = ls.last();
        assert(l == ls[ls.len() - 1]);
        assert forall|i: int| 0 <= i < prev.len() implies !(#[trigger] prev[i]).contains('\n') by {
            assert(prev[i] == ls[i]);
        }
        lemma_split_text_of_lines(prev);
        let t = text_of_lines(prev);
        assert(t + l.push('\n') =~= (t + l).push('\n'));
        text::lemma_split_sep(t + l, '\n');
        text::lemma_split_extend(t, l, '\n');
        assert(prev.push(e).drop_last().push(e + l) =~= ls);
    }
}

/// One well-formed hosts line is read as an entry that is written back as
/// that line.
proof fn lemma_line_round_trip(l: Seq<char>)
    requires
        well_formed_hosts_line(l),
    ensures
        hosts::render_entry(hosts::entry_of_line(l)) == l.push('\n'),
{
    let r = hosts::entry_of_line(l);
    if l[0] == '#' {
        assert(r == HostsView { comment: l, only_comment: true, ..hosts::blank_entry() });
    } else {
        let pieces = text::split_on(l, ' ');
        let f = text::fields(l, ' ');
        text::lemma_keep_non_empty_from(pieces);
        let ip = f[0];
        let d = f[1];
        assert(ip.len() > 0 && d.len() > 0);
        assert(spaced(seq![ip]) == ip);
        if f.len() == 2 {
            assert(f =~= seq![ip, d]);
            assert(seq![ip, d].drop_last() =~= seq![ip]);
            assert(l == ip.push(' ') + d);
        } else {
            let c = f[2];
            assert(c.len() > 0);
            assert(f =~= seq![ip, d, c]);
            assert(seq![ip, d].drop_last() =~= seq![ip]);
            assert(seq![ip, d, c].drop_last() =~= seq![ip, d]);
            assert(spaced(seq![ip, d]) == ip.push(' ') + d);
            assert(spaced(seq![ip, d, c]) == spaced(seq![ip, d]).push(' ') + c);
            assert(l == spaced(seq![ip, d, c]));
            assert(l == (ip.push(' ') + d).push(' ') + c);
        }
        assert(l[0] == ip[0]);
        assert(l[ip.len() as int] == ' ');
        assert(l.contains(' '));
        assert(r == hosts::read_address_line(l, hosts::blank_entry()));
        if f.len() == 2 {
            assert(r == HostsView { ip: ip, distro: d, ..hosts::blank_entry() });
        } else {
            assert(r == HostsView { ip: ip, distro: d, comment: f[2], ..hosts::blank_entry() });
        }
        assert(hosts::render_entry(r) =~= l.push('\n'));
    }
}

/// Reading a hosts text whose lines are all well formed (see
/// [`well_formed_hosts_line`]) into entries and writing them back gives the
/// same text.
pub proof fn law_hosts_text_round_trip(ls: Seq<Seq<char>>)
    requires
        forall|i: int| 0 <= i < ls.len() ==> well_formed_hosts_line(#[trigger] ls[i]),
    ensures
        hosts::render_hosts(hosts::entries_of_lines(text::lines_of(text_of_lines(ls))))
            == text_of_lines(ls),
    decreases ls.len(),
{
    assert forall|i: int| 0 <= i < ls.len() implies !(#[trigger] ls[i]).contains('\n') by {
        assert(well_formed_hosts_line(ls[i]));
    }
    lemma_split_text_of_lines(ls);
    let p = ls.push(Seq::<char>::empty());
    assert(p.drop_last() =~= ls);
    assert(ls.map_values(|l: Seq<char>| text::strip_cr(l)) =~= ls) by {
        assert forall|i: int| 0 <= i < ls.len() implies text::strip_cr(ls[i]) == ls[i] by {
            assert(well_formed_hosts_line(ls[i]));
            let l = ls[i];
            if l.len() > 0 && l.last() == '\r' {
                assert(l[l.len() - 1] == '\r');
            }
        }
    }
    assert(text::lines_of(text_of_lines(ls)) == ls);
    lemma_render_entries_of_lines(ls);
}

/// Writing the entries of well-formed lines gives the text of those lines.
proof fn lemma_render_entries_of_lines(ls: Seq<Seq<char>>)
    requires
        forall|i: int| 0 <= i < ls.len() ==> well_formed_hosts_line(#[trigger] ls[i]),
    ensures
        hosts::render_hosts(hosts::entries_of_lines(ls)) == text_of_lines(ls),
    decreases ls.len(),
{
    if ls.len() > 0 {
        let prev = ls.drop_last();
        assert forall|i: int| 0 <= i < prev.len() implies well_formed_hosts_line(#[trigger] prev[i]) by {
            assert(prev[i] == ls[i]);
        }
        lemma_render_entries_of_lines(prev);
        assert(ls.last() == ls[ls.len() - 1]);
        lemma_line_round_trip(ls.last());
        let es = hosts::entries_of_lines(ls);
        assert(es.drop_last() =~= hosts::entries_of_lines(prev));
        assert(es.last() == hosts::entry_of_line(ls.last()));
    } else {
        assert(hosts::entries_of_lines(ls) =~= Seq::<HostsView>::empty());
    }
}

} // verus!
