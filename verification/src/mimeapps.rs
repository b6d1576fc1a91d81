//! Editing of XDG `mimeapps.list` files and the other text decisions of the
//! Linux desktop integration.
use vstd::prelude::*;
use vstd::string::*;
use crate::names::{file_name_of, path_file_name};
use crate::profiles::string_views;
use crate::text::{
    ascii_lower, ascii_lowercase, chars_eq, chars_of, concat, contains, copy_chars, ends_with,
    ends_with_cr, ends_with_lf, find_char, find_from, has_infix, has_prefix, has_suffix, is_ws,
    join_chars, join_with, lemma_find_after_piece, lemma_find_from, lemma_lines_free,
    lemma_lines_last_nonempty, lemma_lines_piece, lemma_lines_single, lemma_split_piece, lines,
    push_all, skip_ws, skip_ws_back, slice_chars, split_char, split_from, split_lines, split_on,
    split_once, split_words, starts_with, string_from_chars, strip_cr, trim, trim_chars, views,
    words,
};

verus! {

/// A trimmed line that opens a section: `[` ... `]`, longer than `[]`.
pub open spec fn is_header(t: Seq<char>) -> bool {
    t.len() > 2 && t[0] == '[' && t.last() == ']'
}

/// The name between the brackets of a section header.
pub open spec fn header_name(t: Seq<char>) -> Seq<char> {
    t.subrange(1, t.len() - 1)
}

/// Whether a section name denotes the default-applications section.
pub open spec fn is_default_section(name: Seq<char>) -> bool {
    name == "Default Applications"@ || name == "DefaultApplications"@
}

/// The name of the section that line `i` of `ls` stands in: that of the
/// nearest header before it, if any.
pub open spec fn section_before(ls: Seq<Seq<char>>, i: int) -> Option<Seq<char>>
    decreases i,
{
    if i <= 0 {
        None
    } else if is_header(trim(ls[i - 1])) {
        Some(header_name(trim(ls[i - 1])))
    } else {
        section_before(ls, i - 1)
    }
}

/// Each piece followed by `t`.
pub open spec fn terminated(es: Seq<Seq<char>>, t: char) -> Seq<char>
    decreases es.len(),
{
    if es.len() == 0 {
        seq![]
    } else {
        terminated(es.drop_last(), t) + es.last().push(t)
    }
}

/// The entries of a value that survive removing `id`: the non-empty
/// `;`-separated pieces other than `id`.
pub open spec fn kept_entries(value: Seq<char>, id: Seq<char>) -> Seq<Seq<char>> {
    split_on(value, ';').filter(entry_kept(id))
}

/// The test that keeps an entry: non-empty and other than `id`.
pub open spec fn entry_kept(id: Seq<char>) -> spec_fn(Seq<char>) -> bool {
    |e: Seq<char>| e.len() > 0 && e != id
}

/// What becomes of one line when `id` is purged; `None` drops the line.
/// Header lines and lines without `=` stay as they are. In an assignment the
/// entries equal to `id` (and empty ones) go; an assignment left without
/// entries is dropped inside the default-applications section and kept as
/// `key=` elsewhere; otherwise each remaining entry is followed by `;`.
pub open spec fn purge_line(line: Seq<char>, section: Option<Seq<char>>, id: Seq<char>) -> Option<
    Seq<char>,
> {
    if is_header(trim(line)) {
        Some(line)
    } else {
        match split_once(line, '=') {
            Some((key, value)) => {
                let es = kept_entries(value, id);
                if es.len() == 0 {
                    if section matches Some(name) && is_default_section(name) {
                        None
                    } else {
                        Some(key.push('='))
                    }
                } else {
                    Some(key.push('=') + terminated(es, ';'))
                }
            },
            None => Some(line),
        }
    }
}

/// The output lines of purging `id` from the lines `ls`.
pub open spec fn purged_lines(ls: Seq<Seq<char>>, id: Seq<char>) -> Seq<Seq<char>> {
    ls.map(|i: int, l: Seq<char>| purge_line(l, section_before(ls, i), id)).filter_map(
        |o: Option<Seq<char>>| o,
    )
}

/// Output lines joined by `\n`, with a final `\n` when the input had one.
pub open spec fn render(out: Seq<Seq<char>>, input: Seq<char>) -> Seq<char> {
    let body = join_with(out, seq!['\n']);
    if input.len() > 0 && input.last() == '\n' {
        body.push('\n')
    } else {
        body
    }
}

/// `mimeapps.list` contents with every reference to `id` removed.
pub open spec fn purged_text(contents: Seq<char>, id: Seq<char>) -> Seq<char> {
    render(purged_lines(lines(contents), id), contents)
}

/// No piece of `split_from(s, c, i)` holds `c`.
pub proof fn lemma_split_pieces_free(s: Seq<char>, c: char, i: int)
    requires
        0 <= i,
    ensures
        forall|k: int|
            0 <= k < split_from(s, c, i).len() ==> !(#[trigger] split_from(s, c, i)[k]).contains(
                c,
            ),
    decreases s.len() - i,
{
    if i <= s.len() {
        lemma_find_from(s, c, i);
        let j = find_from(s, c, i);
        let piece = s.subrange(i, j);
        assert(!piece.contains(c)) by {
            if piece.contains(c) {
                let k = choose|k: int| 0 <= k < piece.len() && piece[k] == c;
                assert(s[i + k] == c);
            }
        }
        if j < s.len() {
            lemma_split_pieces_free(s, c, j + 1);
            let rest = split_from(s, c, j + 1);
            assert forall|k: int| 0 <= k < split_from(s, c, i).len() implies !(#[trigger] split_from(
                s,
                c,
                i,
            )[k]).contains(c) by {
                if k > 0 {
                    assert(split_from(s, c, i)[k] == rest[k - 1]);
                }
            }
        }
    }
}

/// Splitting pieces that were each terminated by `c`, followed by `tail`,
/// gives back the pieces and then the split of `tail`.
pub proof fn lemma_split_terminated(es: Seq<Seq<char>>, tail: Seq<char>, c: char)
    requires
        forall|k: int| 0 <= k < es.len() ==> !(#[trigger] es[k]).contains(c),
    ensures
        split_on(terminated(es, c) + tail, c) == es + split_on(tail, c),
    decreases es.len(),
{
    if es.len() == 0 {
        assert(terminated(es, c) + tail =~= tail);
        assert(es + split_on(tail, c) =~= split_on(tail, c));
    } else {
        let front = es.drop_last();
        let e = es.last();
        assert(!e.contains(c)) by {
            assert(e == es[es.len() - 1]);
        }
        lemma_split_terminated(front, e.push(c) + tail, c);
        lemma_split_piece(e, tail, c);
        assert(terminated(es, c) + tail =~= terminated(front, c) + (e.push(c) + tail));
        assert(es =~= front.push(e));
        assert(front + (seq![e] + split_on(tail, c)) =~= es + split_on(tail, c));
    }
}

/// `key` joined to `rest` by `=` splits back at that `=`, when `key` holds
/// no `=`.
pub proof fn lemma_split_once_assignment(key: Seq<char>, rest: Seq<char>)
    requires
        !key.contains('='),
    ensures
        split_once(key.push('=') + rest, '=') == Some((key, rest)),
{
    let s = key.push('=') + rest;
    lemma_find_after_piece(key, rest, '=');
    assert(s.subrange(0, key.len() as int) =~= key);
    assert(s.subrange(key.len() + 1int, s.len() as int) =~= rest);
}

/// The key of `split_once` holds no separator.
pub proof fn lemma_split_once_key_free(s: Seq<char>, c: char)
    ensures
        split_once(s, c) matches Some((key, _)) ==> !key.contains(c),
{
    lemma_find_from(s, c, 0);
    if let Some((key, _)) = split_once(s, c) {
        if key.contains(c) {
            let k = choose|k: int| 0 <= k < key.len() && key[k] == c;
            assert(s[k] == c);
        }
    }
}

/// An output line is clean of `id` when, being an assignment outside a
/// header, none of the `;`-separated pieces of its value is `id`.
pub open spec fn clean_of(l: Seq<char>, id: Seq<char>) -> bool {
    !is_header(trim(l)) ==> match split_once(l, '=') {
        Some((_, value)) => !split_on(value, ';').contains(id),
        None => true,
    }
}

proof fn lemma_purge_line_clean(line: Seq<char>, section: Option<Seq<char>>, id: Seq<char>)
    requires
        id.len() > 0,
    ensures
        purge_line(line, section, id) matches Some(l) ==> clean_of(l, id),
{
    if !is_header(trim(line)) {
        lemma_split_once_key_free(line, '=');
        if let Some((key, value)) = split_once(line, '=') {
            let es = kept_entries(value, id);
            let pred = entry_kept(id);
            let pieces = split_on(value, ';');
            lemma_split_pieces_free(value, ';', 0);
            assert forall|k: int| 0 <= k < es.len() implies !(#[trigger] es[k]).contains(';') && es[k] != id by {
                pieces.lemma_filter_pred(pred, k);
                pieces.lemma_filter_contains_rev(pred, es[k]);
                let m = choose|m: int| 0 <= m < pieces.len() && pieces[m] == es[k];
            }
            if es.len() == 0 {
                lemma_split_once_assignment(key, seq![]);
                assert(key.push('=') =~= key.push('=') + seq![]);
                let empty: Seq<char> = Seq::empty();
                lemma_find_from(empty, ';', 0);
                assert(empty.subrange(0, 0) =~= empty);
                assert(split_on(empty, ';') =~= seq![empty]);
            } else {
                lemma_split_once_assignment(key, terminated(es, ';'));
                lemma_split_terminated(es, seq![], ';');
                assert(terminated(es, ';') + seq![] =~= terminated(es, ';'));
                let empty: Seq<char> = Seq::empty();
                lemma_find_from(empty, ';', 0);
                assert(empty.subrange(0, 0) =~= empty);
                assert(split_on(empty, ';') =~= seq![empty]);
                let parts = es + seq![seq![]];
                assert(!parts.contains(id)) by {
                    if parts.contains(id) {
                        let m = choose|m: int| 0 <= m < parts.len() && parts[m] == id;
                        if m < es.len() {
                        }
                    }
                }
            }
        }
    }
}

/// Every purged line is clean of a non-empty `id`.
proof fn lemma_purged_lines_clean(contents: Seq<char>, id: Seq<char>)
    requires
        id.len() > 0,
    ensures
        forall|k: int|
            0 <= k < purged_lines(lines(contents), id).len() ==> clean_of(
                #[trigger] purged_lines(lines(contents), id)[k],
                id,
            ),
{
    let ls = lines(contents);
    let f = |o: Option<Seq<char>>| o;
    let mapped = ls.map(|i: int, l: Seq<char>| purge_line(l, section_before(ls, i), id));
    let out = purged_lines(ls, id);
    assert forall|k: int| 0 <= k < out.len() implies clean_of(#[trigger] out[k], id) by {
        assert(out.contains(out[k]));
        mapped.lemma_filter_map_contains(f, out[k]);
        let t = choose|t: Option<Seq<char>>| #[trigger] mapped.contains(t) && f(t) == Some(out[k]);
        let i = choose|i: int| 0 <= i < mapped.len() && mapped[i] == t;
        lemma_purge_line_clean(ls[i], section_before(ls, i), id);
    }
}

fn is_header_exec(t: &[char]) -> (r: bool)
    ensures
        r == is_header(t@),
{
    t.len() > 2 && t[0] == '[' && t[t.len() - 1] == ']'
}

fn is_default_section_exec(name: &[char]) -> (r: bool)
    ensures
        r == is_default_section(name@),
{
    let a = chars_of("Default Applications");
    let b = chars_of("DefaultApplications");
    chars_eq(name, a.as_slice()) || chars_eq(name, b.as_slice())
}

/// Position of the first `c` in `s`, as `str::split_once` finds it.
fn split_once_exec(s: &[char], c: char) -> (r: Option<(Vec<char>, Vec<char>)>)
    ensures
        match r {
            Some((a, b)) => split_once(s@, c) == Some((a@, b@)),
            None => split_once(s@, c) is None,
        },
{
    let j = find_char(s, c, 0);
    proof {
        lemma_find_from(s@, c, 0);
    }
    if j < s.len() {
        Some((slice_chars(s, 0, j), slice_chars(s, j + 1, s.len())))
    } else {
        None
    }
}

fn kept_entries_exec(value: &[char], id: &[char]) -> (r: Vec<Vec<char>>)
    ensures
        views(r@) == kept_entries(value@, id@),
{
    let pieces = split_char(value, ';');
    let ghost p = views(pieces@);
    let ghost pred = entry_kept(id@);
    let mut r: Vec<Vec<char>> = Vec::new();
    let mut i: usize = 0;
    while i < pieces.len()
        invariant
            i <= pieces@.len(),
            p == views(pieces@),
            p == split_on(value@, ';'),
            pred == entry_kept(id@),
            views(r@) == p.subrange(0, i as int).filter(pred),
        decreases pieces@.len() - i,
    {
        let ghost before = views(r@);
        assert(p.subrange(0, i + 1).drop_last() =~= p.subrange(0, i as int));
        reveal_with_fuel(Seq::filter, 1);
        if pieces[i].len() > 0 && !chars_eq(pieces[i].as_slice(), id) {
            r.push(copy_chars(pieces[i].as_slice()));
            assert(views(r@) =~= before.push(p[i as int]));
        }
        i += 1;
    }
    assert(p.subrange(0, p.len() as int) =~= p);
    r
}

fn terminated_exec(es: &Vec<Vec<char>>, t: char) -> (r: Vec<char>)
    ensures
        r@ == terminated(views(es@), t),
{
    let mut r: Vec<char> = Vec::new();
    let mut i: usize = 0;
    while i < es.len()
        invariant
            i <= es@.len(),
            r@ == terminated(views(es@).subrange(0, i as int), t),
        decreases es@.len() - i,
    {
        assert(views(es@).subrange(0, i + 1).drop_last() =~= views(es@).subrange(0, i as int));
        push_all(&mut r, es[i].as_slice());
        r.push(t);
        i += 1;
    }
    assert(views(es@).subrange(0, es@.len() as int) =~= views(es@));
    r
}

fn render_exec(out: &Vec<Vec<char>>, input: &[char]) -> (r: String)
    ensures
        r@ == render(views(out@), input@),
{
    let mut body = join_chars(out, &['\n']);
    assert(seq!['\n'] =~= (&['\n'])@);
    if input.len() > 0 && input[input.len() - 1] == '\n' {
        body.push('\n');
    }
    string_from_chars(body.as_slice())
}

/// Removes every reference to the desktop entry `desktop_id` from the
/// contents of a `mimeapps.list` file.
pub fn purge_desktop_entry_from_mimeapps(contents: &str, desktop_id: &str) -> (r: String)
    ensures
        r@ == purged_text(contents@, desktop_id@),
{
    let cs = chars_of(contents);
    let id = chars_of(desktop_id);
    let ls = split_lines(cs.as_slice());
    let ghost lv = views(ls@);
    let ghost mapped = lv.map(|i: int, l: Seq<char>| purge_line(l, section_before(lv, i), id@));
    let mut out: Vec<Vec<char>> = Vec::new();
    let mut current: Option<Vec<char>> = None;
    let mut i: usize = 0;
    while i < ls.len()
        invariant
            i <= ls@.len(),
            lv == views(ls@),
            lv == lines(contents@),
            mapped == lv.map(|i: int, l: Seq<char>| purge_line(l, section_before(lv, i), id@)),
            id@ == desktop_id@,
            views(out@) == mapped.subrange(0, i as int).filter_map(|o: Option<Seq<char>>| o),
            match current {
                Some(c) => section_before(lv, i as int) == Some(c@),
                None => section_before(lv, i as int) is None,
            },
        decreases ls@.len() - i,
    {
        let line = ls[i].as_slice();
        let t = trim_chars(line);
        let ghost before = views(out@);
        assert(mapped.subrange(0, i + 1).drop_last() =~= mapped.subrange(0, i as int));
        if is_header_exec(t.as_slice()) {
            current = Some(slice_chars(t.as_slice(), 1, t.len() - 1));
            out.push(copy_chars(line));
            assert(views(out@) =~= before.push(line@));
        } else {
            match split_once_exec(line, '=') {
                Some((key, value)) => {
                    let es = kept_entries_exec(value.as_slice(), id.as_slice());
                    let mut key_eq = key;
                    key_eq.push('=');
                    if es.len() == 0 {
                        let in_default = match &current {
                            Some(name) => is_default_section_exec(name.as_slice()),
                            None => false,
                        };
                        if !in_default {
                            out.push(key_eq);
                            assert(views(out@) =~= before.push(mapped[i as int]->0));
                        }
                    } else {
                        let tail = terminated_exec(&es, ';');
                        push_all(&mut key_eq, tail.as_slice());
                        out.push(key_eq);
                        assert(views(out@) =~= before.push(mapped[i as int]->0));
                    }
                },
                None => {
                    out.push(copy_chars(line));
                    assert(views(out@) =~= before.push(line@));
                },
            }
        }
        i += 1;
    }
    assert(mapped.subrange(0, ls@.len() as int) =~= mapped);
    render_exec(&out, cs.as_slice())
}

/// What the scan of a `mimeapps.list` file has seen so far: whether it is
/// inside a default-applications section, and whether the HTTP and HTTPS
/// handler lines have been written.
pub struct MimeScan {
    pub in_default: bool,
    pub http: bool,
    pub https: bool,
}

/// `x-scheme-handler/http=<id>`.
pub open spec fn http_line(id: Seq<char>) -> Seq<char> {
    "x-scheme-handler/http="@ + id
}

/// `x-scheme-handler/https=<id>`.
pub open spec fn https_line(id: Seq<char>) -> Seq<char> {
    "x-scheme-handler/https="@ + id
}

/// The handler lines that a scan in state `st` has not written yet.
pub open spec fn missing_lines(st: MimeScan, id: Seq<char>) -> Seq<Seq<char>> {
    (if !st.http {
        seq![http_line(id)]
    } else {
        seq![]
    }) + (if !st.https {
        seq![https_line(id)]
    } else {
        seq![]
    })
}

/// The key of an assignment line, trimmed, if the line has `=`.
pub open spec fn assignment_key(line: Seq<char>) -> Option<Seq<char>> {
    match split_once(line, '=') {
        Some((key, _)) => Some(trim(key)),
        None => None,
    }
}

/// One line of the scan: the next state and the lines it emits.
/// A header closes a default-applications section by first emitting the
/// handler lines still missing; inside such a section an assignment to the
/// HTTP or HTTPS handler key is replaced by the line for `id`.
pub open spec fn scan_step(st: MimeScan, line: Seq<char>, id: Seq<char>) -> (MimeScan, Seq<
    Seq<char>,
>) {
    let t = trim(line);
    if is_header(t) {
        let flush = if st.in_default {
            missing_lines(st, id)
        } else {
            seq![]
        };
        (
            MimeScan {
                in_default: is_default_section(header_name(t)),
                http: st.http || st.in_default,
                https: st.https || st.in_default,
            },
            flush.push(line),
        )
    } else if st.in_default && assignment_key(line) == Some("x-scheme-handler/http"@) {
        (MimeScan { in_default: st.in_default, http: true, https: st.https }, seq![http_line(id)])
    } else if st.in_default && assignment_key(line) == Some("x-scheme-handler/https"@) {
        (MimeScan { in_default: st.in_default, http: st.http, https: true }, seq![https_line(id)])
    } else {
        (st, seq![line])
    }
}

/// The scan over the first `n` lines: its state and the lines emitted.
pub open spec fn scan_lines(ls: Seq<Seq<char>>, id: Seq<char>, n: int) -> (MimeScan, Seq<
    Seq<char>,
>)
    decreases n,
{
    if n <= 0 {
        (MimeScan { in_default: false, http: false, https: false }, seq![])
    } else {
        let (st, out) = scan_lines(ls, id, n - 1);
        let (st2, emitted) = scan_step(st, ls[n - 1], id);
        (st2, out + emitted)
    }
}

/// The scanned lines followed by the handler lines still missing when the
/// file ends inside a default-applications section.
pub open spec fn scanned_lines(ls: Seq<Seq<char>>, id: Seq<char>) -> Seq<Seq<char>> {
    let (st, out) = scan_lines(ls, id, ls.len() as int);
    if st.in_default {
        out + missing_lines(st, id)
    } else {
        out
    }
}

/// The output lines of registering `id` as HTTP and HTTPS handler: the
/// scanned lines and, when none of them opens a default-applications
/// section, a new such section with both handler lines (after an empty
/// separator line when the output so far does not end with one).
pub open spec fn defaults_lines(ls: Seq<Seq<char>>, id: Seq<char>) -> Seq<Seq<char>> {
    let out = scanned_lines(ls, id);
    if exists|k: int| 0 <= k < out.len() && opens_default_section(#[trigger] out[k]) {
        out
    } else {
        let sep = if out.len() > 0 && out.last().len() > 0 {
            out.push(seq![])
        } else {
            out
        };
        sep + seq!["[Default Applications]"@, http_line(id), https_line(id)]
    }
}

/// `mimeapps.list` contents with `id` set as the HTTP and HTTPS handler.
pub open spec fn defaults_text(contents: Seq<char>, id: Seq<char>) -> Seq<char> {
    render(defaults_lines(lines(contents), id), contents)
}

/// A line that opens a default-applications section.
pub open spec fn opens_default_section(l: Seq<char>) -> bool {
    is_header(trim(l)) && is_default_section(header_name(trim(l)))
}

proof fn lemma_skip_ws_back_floor(s: Seq<char>, j: int)
    requires
        1 <= j <= s.len(),
        !is_ws(s[0]),
    ensures
        1 <= skip_ws_back(s, j) <= j,
    decreases j,
{
    if j > 1 && is_ws(s[j - 1]) {
        lemma_skip_ws_back_floor(s, j - 1);
    }
}

/// What the scan keeps true: the handler lines it counts as written are in
/// its output; once it has passed a default-applications header it is
/// inside such a section or has written both lines; and every line it
/// emitted is an input line or a handler line.
proof fn lemma_scan_invariant(ls: Seq<Seq<char>>, id: Seq<char>, n: int)
    requires
        0 <= n <= ls.len(),
    ensures
        ({
            let (st, out) = scan_lines(ls, id, n);
            &&& st.http ==> out.contains(http_line(id))
            &&& st.https ==> out.contains(https_line(id))
            &&& (exists|k: int| 0 <= k < n && opens_default_section(#[trigger] ls[k]))
                ==> (st.in_default || (st.http && st.https))
            &&& forall|j: int|
                0 <= j < out.len() ==> (#[trigger] out[j] == http_line(id) || out[j] == https_line(
                    id,
                ) || exists|k: int| 0 <= k < n && out[j] == ls[k])
        }),
    decreases n,
{
    if n > 0 {
        lemma_scan_invariant(ls, id, n - 1);
        let (st, out) = scan_lines(ls, id, n - 1);
        let line = ls[n - 1];
        let (st2, em) = scan_step(st, line, id);
        let out2 = out + em;
        assert(scan_lines(ls, id, n) == (st2, out2));
        assert forall|j: int| 0 <= j < out.len() implies out2[j] == out[j] by {}
        if st.http {
            let j = choose|j: int| 0 <= j < out.len() && out[j] == http_line(id);
            assert(out2[j] == http_line(id));
        }
        if st.https {
            let j = choose|j: int| 0 <= j < out.len() && out[j] == https_line(id);
            assert(out2[j] == https_line(id));
        }
        let t = trim(line);
        if is_header(t) {
            if st.in_default {
                let miss = missing_lines(st, id);
                if !st.http {
                    assert(out2[out.len() as int] == http_line(id));
                }
                if !st.https {
                    let p = out.len() + miss.len() - 1;
                    assert(out2[p] == https_line(id));
                }
            }
            assert forall|j: int| 0 <= j < out2.len() implies (#[trigger] out2[j] == http_line(id)
                || out2[j] == https_line(id) || exists|k: int| 0 <= k < n && out2[j] == ls[k]) by {
                if j >= out.len() && out2[j] != http_line(id) && out2[j] != https_line(id) {
                    assert(out2[j] == ls[n - 1]);
                } else if j < out.len() && out2[j] != http_line(id) && out2[j] != https_line(
                    id,
                ) {
                    let k = choose|k: int| 0 <= k < n - 1 && out[j] == ls[k];
                }
            }
        } else {
            assert forall|j: int| 0 <= j < out2.len() implies (#[trigger] out2[j] == http_line(id)
                || out2[j] == https_line(id) || exists|k: int| 0 <= k < n && out2[j] == ls[k]) by {
                if j >= out.len() && out2[j] != http_line(id) && out2[j] != https_line(id) {
                    assert(out2[j] == ls[n - 1]);
                } else if j < out.len() && out2[j] != http_line(id) && out2[j] != https_line(
                    id,
                ) {
                    let k = choose|k: int| 0 <= k < n - 1 && out[j] == ls[k];
                }
            }
            if st2.http && !st.http {
                assert(out2[out.len() as int] == http_line(id));
            }
            if st2.https && !st.https {
                assert(out2[out.len() as int] == https_line(id));
            }
        }
        if exists|k: int| 0 <= k < n && opens_default_section(#[trigger] ls[k]) {
            if !(exists|k: int| 0 <= k < n - 1 && opens_default_section(#[trigger] ls[k])) {
                let k = choose|k: int| 0 <= k < n && opens_default_section(#[trigger] ls[k]);
                assert(k == n - 1);
            }
        }
    }
}

/// Registering always leaves both handler lines for `id` in the output.
pub proof fn registering_writes_both_handlers(contents: Seq<char>, id: Seq<char>)
    ensures
        defaults_lines(lines(contents), id).contains(http_line(id)),
        defaults_lines(lines(contents), id).contains(https_line(id)),
{
    let ls = lines(contents);
    lemma_scan_invariant(ls, id, ls.len() as int);
    lemma_handler_keys(id);
    let (st, out) = scan_lines(ls, id, ls.len() as int);
    let out2 = scanned_lines(ls, id);
    let res = defaults_lines(ls, id);
    if st.in_default {
        let miss = missing_lines(st, id);
        assert forall|j: int| 0 <= j < out.len() implies out2[j] == out[j] by {}
        if st.http {
            let j = choose|j: int| 0 <= j < out.len() && out[j] == http_line(id);
            assert(out2[j] == http_line(id));
        } else {
            assert(out2[out.len() as int] == http_line(id));
        }
        if st.https {
            let j = choose|j: int| 0 <= j < out.len() && out[j] == https_line(id);
            assert(out2[j] == https_line(id));
        } else {
            assert(out2[out.len() + miss.len() - 1] == https_line(id));
        }
    }
    let named = exists|k: int| 0 <= k < out2.len() && opens_default_section(#[trigger] out2[k]);
    if named {
        if !st.in_default {
            let k = choose|k: int| 0 <= k < out2.len() && opens_default_section(#[trigger] out2[k]);
            assert(out2[k] != http_line(id));
            assert(out2[k] != https_line(id));
            let m = choose|m: int| 0 <= m < ls.len() && out2[k] == ls[m];
            assert(opens_default_section(ls[m]));
        }
    } else {
        let sep = if out2.len() > 0 && out2.last().len() > 0 {
            out2.push(seq![])
        } else {
            out2
        };
        assert(res == sep + seq!["[Default Applications]"@, http_line(id), https_line(id)]);
        assert(res[sep.len() + 1int] == http_line(id));
        assert(res[sep.len() + 2int] == https_line(id));
    }
}

/// Whether line `k` of `ls` is a handler assignment that the scan replaces:
/// an `x-scheme-handler/http` or `https` key inside a default-applications
/// section.
pub open spec fn replaced_line(ls: Seq<Seq<char>>, id: Seq<char>, k: int) -> bool {
    &&& scan_lines(ls, id, k).0.in_default
    &&& !is_header(trim(ls[k]))
    &&& (assignment_key(ls[k]) == Some("x-scheme-handler/http"@) || assignment_key(ls[k]) == Some(
        "x-scheme-handler/https"@,
    ))
}

proof fn lemma_scan_keeps_lines(ls: Seq<Seq<char>>, id: Seq<char>, n: int)
    requires
        0 <= n <= ls.len(),
    ensures
        forall|k: int|
            0 <= k < n && !replaced_line(ls, id, k) ==> scan_lines(ls, id, n).1.contains(
                #[trigger] ls[k],
            ),
    decreases n,
{
    if n > 0 {
        lemma_scan_keeps_lines(ls, id, n - 1);
        let (st, out) = scan_lines(ls, id, n - 1);
        let (st2, em) = scan_step(st, ls[n - 1], id);
        let out2 = out + em;
        assert(scan_lines(ls, id, n) == (st2, out2));
        assert forall|k: int| 0 <= k < n && !replaced_line(ls, id, k) implies out2.contains(
            #[trigger] ls[k],
        ) by {
            if k < n - 1 {
                let j = choose|j: int| 0 <= j < out.len() && out[j] == ls[k];
                assert(out2[j] == ls[k]);
            } else {
                let line = ls[n - 1];
                if is_header(trim(line)) {
                    assert(em.last() == line);
                    assert(out2[out2.len() - 1] == line);
                } else {
                    assert(em == seq![line]);
                    assert(out2[out.len() as int] == line);
                }
            }
        }
    }
}

/// Registering keeps every other line: each input line except the handler
/// assignments it replaces in a default-applications section is still in
/// the output.
pub proof fn registering_keeps_other_lines(contents: Seq<char>, id: Seq<char>, k: int)
    requires
        0 <= k < lines(contents).len(),
        !replaced_line(lines(contents), id, k),
    ensures
        defaults_lines(lines(contents), id).contains(lines(contents)[k]),
{
    let ls = lines(contents);
    lemma_scan_keeps_lines(ls, id, ls.len() as int);
    let (st, out) = scan_lines(ls, id, ls.len() as int);
    let j = choose|j: int| 0 <= j < out.len() && out[j] == ls[k];
    let out2 = scanned_lines(ls, id);
    assert(out2[j] == ls[k]);
    let res = defaults_lines(ls, id);
    if !(exists|m: int| 0 <= m < out2.len() && opens_default_section(#[trigger] out2[m])) {
        let sep = if out2.len() > 0 && out2.last().len() > 0 {
            out2.push(seq![])
        } else {
            out2
        };
        assert(res[j] == sep[j]);
    }
    assert(res[j] == ls[k]);
}

fn opens_default_section_exec(line: &[char]) -> (r: bool)
    ensures
        r == opens_default_section(line@),
{
    let t = trim_chars(line);
    if !is_header_exec(t.as_slice()) {
        return false;
    }
    let name = slice_chars(t.as_slice(), 1, t.len() - 1);
    is_default_section_exec(name.as_slice())
}

fn assignment_key_exec(line: &[char]) -> (r: Option<Vec<char>>)
    ensures
        match r {
            Some(k) => assignment_key(line@) == Some(k@),
            None => assignment_key(line@) is None,
        },
{
    match split_once_exec(line, '=') {
        Some((key, _)) => Some(trim_chars(key.as_slice())),
        None => None,
    }
}

fn push_missing(
    out: &mut Vec<Vec<char>>,
    st: &MimeScan,
    hl: &Vec<char>,
    hsl: &Vec<char>,
    id: Ghost<Seq<char>>,
)
    requires
        hl@ == http_line(id@),
        hsl@ == https_line(id@),
    ensures
        views(final(out)@) == views(old(out)@) + missing_lines(*st, id@),
{
    let ghost before = views(out@);
    if !st.http {
        out.push(copy_chars(hl.as_slice()));
    }
    let ghost mid = views(out@);
    if !st.https {
        out.push(copy_chars(hsl.as_slice()));
    }
    assert(views(out@) =~= before + missing_lines(*st, id@));
}

/// Sets `desktop_id` as the handler of `x-scheme-handler/http` and
/// `x-scheme-handler/https` in the default-applications section of the
/// contents of a `mimeapps.list` file, leaving every other line as it is;
/// the section is added when the file has none.
pub fn set_mime_default_entries(contents: &str, desktop_id: &str) -> (r: String)
    ensures
        r@ == defaults_text(contents@, desktop_id@),
{
    let cs = chars_of(contents);
    let id = chars_of(desktop_id);
    let ls = split_lines(cs.as_slice());
    let ghost lv = views(ls@);
    let http_key = chars_of("x-scheme-handler/http");
    let https_key = chars_of("x-scheme-handler/https");
    let hl = concat(chars_of("x-scheme-handler/http=").as_slice(), id.as_slice());
    let hsl = concat(chars_of("x-scheme-handler/https=").as_slice(), id.as_slice());
    let mut st = MimeScan { in_default: false, http: false, https: false };
    let mut out: Vec<Vec<char>> = Vec::new();
    let mut i: usize = 0;
    while i < ls.len()
        invariant
            i <= ls@.len(),
            lv == views(ls@),
            lv == lines(contents@),
            id@ == desktop_id@,
            http_key@ == "x-scheme-handler/http"@,
            https_key@ == "x-scheme-handler/https"@,
            hl@ == http_line(id@),
            hsl@ == https_line(id@),
            (st, views(out@)) == scan_lines(lv, id@, i as int),
        decreases ls@.len() - i,
    {
        let line = ls[i].as_slice();
        let t = trim_chars(line);
        let ghost before = views(out@);
        let ghost st0 = st;
        if is_header_exec(t.as_slice()) {
            if st.in_default {
                push_missing(&mut out, &st, &hl, &hsl, Ghost(id@));
            }
            let name = slice_chars(t.as_slice(), 1, t.len() - 1);
            let mid_http = st.http || st.in_default;
            let mid_https = st.https || st.in_default;
            st = MimeScan {
                in_default: is_default_section_exec(name.as_slice()),
                http: mid_http,
                https: mid_https,
            };
            let ghost flushed = views(out@);
            out.push(copy_chars(line));
            assert(views(out@) =~= flushed.push(line@));
        } else {
            let key = if st.in_default {
                assignment_key_exec(line)
            } else {
                None
            };
            let mut handled = false;
            if let Some(k) = key {
                if chars_eq(k.as_slice(), http_key.as_slice()) {
                    st = MimeScan { in_default: st.in_default, http: true, https: st.https };
                    out.push(copy_chars(hl.as_slice()));
                    assert(views(out@) =~= before.push(hl@));
                    handled = true;
                } else if chars_eq(k.as_slice(), https_key.as_slice()) {
                    st = MimeScan { in_default: st.in_default, http: st.http, https: true };
                    out.push(copy_chars(hsl.as_slice()));
                    assert(views(out@) =~= before.push(hsl@));
                    handled = true;
                }
            }
            if !handled {
                out.push(copy_chars(line));
                assert(views(out@) =~= before.push(line@));
            }
        }
        assert(lv.subrange(0, i + 1).last() == lv[i as int]);
        i += 1;
    }
    if st.in_default {
        push_missing(&mut out, &st, &hl, &hsl, Ghost(id@));
    }
    let ghost scanned = views(out@);
    assert(scanned == scanned_lines(lv, id@));
    let mut named = false;
    let mut k: usize = 0;
    while k < out.len()
        invariant
            k <= out@.len(),
            scanned == views(out@),
            named == exists|j: int| 0 <= j < k && opens_default_section(#[trigger] scanned[j]),
        decreases out@.len() - k,
    {
        assert(scanned[k as int] == out@[k as int]@);
        let opens = opens_default_section_exec(out[k].as_slice());
        if opens {
            named = true;
        }
        assert(named == exists|j: int| 0 <= j < k + 1 && opens_default_section(#[trigger] scanned[j])) by {
            if named && !opens {
                let j = choose|j: int| 0 <= j < k && opens_default_section(#[trigger] scanned[j]);
                assert(0 <= j < k + 1);
            }
        }
        k += 1;
    }
    if !named {
        if out.len() > 0 && out[out.len() - 1].len() > 0 {
            out.push(Vec::new());
        }
        let ghost sep = views(out@);
        out.push(chars_of("[Default Applications]"));
        out.push(copy_chars(hl.as_slice()));
        out.push(copy_chars(hsl.as_slice()));
        assert(views(out@) =~= sep + seq!["[Default Applications]"@, http_line(id@), https_line(id@)]);
    }
    assert(views(out@) == defaults_lines(lv, id@));
    render_exec(&out, cs.as_slice())
}

/// The desktop entry up to the executable in its `Exec=` key.
pub open spec fn desktop_entry_head() -> Seq<char> {
    "[Desktop Entry]\nType=Application\nName=Rust Browser Handler\nComment=Choose the browser that opens each link\nExec="@
}

/// The desktop entry after the executable.
pub open spec fn desktop_entry_tail() -> Seq<char> {
    " %u\nTerminal=false\nNoDisplay=true\nCategories=Network;WebBrowser;\nMimeType=x-scheme-handler/http;x-scheme-handler/https;text/html;\n"@
}

/// The `.desktop` file that registers the handler, launching `exe_path`
/// (unquoted) with the URL as `%u`.
pub fn render_desktop_entry(exe_path: &str) -> (r: String)
    ensures
        r@ == desktop_entry_head() + exe_path@ + desktop_entry_tail(),
{
    let head = "[Desktop Entry]\nType=Application\nName=Rust Browser Handler\nComment=Choose the browser that opens each link\nExec=";
    let tail = " %u\nTerminal=false\nNoDisplay=true\nCategories=Network;WebBrowser;\nMimeType=x-scheme-handler/http;x-scheme-handler/https;text/html;\n";
    head.to_owned().concat(exe_path).concat(tail)
}

/// Flatpak application IDs of known browsers.
pub open spec fn flatpak_browser_ids() -> Seq<Seq<char>> {
    seq![
        "org.mozilla.firefox"@,
        "org.mozilla.firefox.developeredition"@,
        "org.mozilla.firefox.esr"@,
        "org.chromium.Chromium"@,
        "com.github.brave.Brave"@,
        "com.microsoft.Edge"@,
        "com.microsoft.EdgeDev"@,
        "com.microsoft.EdgeBeta"@,
        "com.operasoftware.Opera"@,
        "com.vivaldi.Vivaldi"@,
        "org.librewolf-community.LibreWolf"@,
    ]
}

/// Words whose presence in a lowercase application ID marks a browser.
pub open spec fn flatpak_browser_words() -> Seq<Seq<char>> {
    seq![
        "firefox"@,
        "chromium"@,
        "brave"@,
        "microsoft.edge"@,
        "edge"@,
        "opera"@,
        "vivaldi"@,
        "librewolf"@,
    ]
}

/// A Flatpak application ID of a browser: a known browser ID, or one whose
/// ASCII-lowercase form contains a browser word.
pub open spec fn is_flatpak_browser(app_id: Seq<char>) -> bool {
    flatpak_browser_ids().contains(app_id) || exists|k: int|
        0 <= k < flatpak_browser_words().len() && has_infix(
            ascii_lower(app_id),
            #[trigger] flatpak_browser_words()[k],
        )
}

/// Whether a Flatpak application ID is a web browser.
pub fn is_flatpak_browser_id(app_id: &str) -> (r: bool)
    ensures
        r == is_flatpak_browser(app_id@),
{
    let ids: [&str; 11] = [
        "org.mozilla.firefox",
        "org.mozilla.firefox.developeredition",
        "org.mozilla.firefox.esr",
        "org.chromium.Chromium",
        "com.github.brave.Brave",
        "com.microsoft.Edge",
        "com.microsoft.EdgeDev",
        "com.microsoft.EdgeBeta",
        "com.operasoftware.Opera",
        "com.vivaldi.Vivaldi",
        "org.librewolf-community.LibreWolf",
    ];
    let words: [&str; 8] = [
        "firefox",
        "chromium",
        "brave",
        "microsoft.edge",
        "edge",
        "opera",
        "vivaldi",
        "librewolf",
    ];
    assert(ids@.map_values(|x: &str| x@) =~= flatpak_browser_ids());
    assert(words@.map_values(|x: &str| x@) =~= flatpak_browser_words());
    let owned = app_id.to_owned();
    let mut i: usize = 0;
    while i < 11
        invariant
            i <= 11,
            owned@ == app_id@,
            ids@.map_values(|x: &str| x@) == flatpak_browser_ids(),
            forall|k: int| 0 <= k < i ==> flatpak_browser_ids()[k] != app_id@,
        decreases 11 - i,
    {
        if ids[i].to_owned() == owned {
            assert(flatpak_browser_ids()[i as int] == app_id@);
            return true;
        }
        i += 1;
    }
    let lower = ascii_lowercase(chars_of(app_id).as_slice());
    let mut k: usize = 0;
    while k < 8
        invariant
            k <= 8,
            lower@ == ascii_lower(app_id@),
            !flatpak_browser_ids().contains(app_id@),
            words@.map_values(|x: &str| x@) == flatpak_browser_words(),
            forall|j: int| 0 <= j < k ==> !has_infix(ascii_lower(app_id@), #[trigger] flatpak_browser_words()[j]),
        decreases 8 - k,
    {
        let w = chars_of(words[k]);
        assert(w@ == flatpak_browser_words()[k as int]);
        if contains(lower.as_slice(), w.as_slice()) {
            return true;
        }
        k += 1;
    }
    false
}

/// The browser entries listed in `flatpak list --app --columns=application`
/// output: each trimmed, non-empty line that is a browser ID, as
/// `flatpak:<app-id>`.
pub open spec fn flatpak_entries(output: Seq<char>) -> Seq<Seq<char>> {
    lines(output).filter_map(
        |l: Seq<char>|
            if trim(l).len() > 0 && is_flatpak_browser(trim(l)) {
                Some("flatpak:"@ + trim(l))
            } else {
                None
            },
    )
}

/// The browsers in a Flatpak application listing.
pub fn parse_flatpak_browser_list(output: &str) -> (r: Vec<String>)
    ensures
        string_views(r@) == flatpak_entries(output@),
{
    let cs = chars_of(output);
    let ls = split_lines(cs.as_slice());
    let ghost lv = views(ls@);
    let ghost f = |l: Seq<char>|
        if trim(l).len() > 0 && is_flatpak_browser(trim(l)) {
            Some("flatpak:"@ + trim(l))
        } else {
            None
        };
    let mut r: Vec<String> = Vec::new();
    let mut i: usize = 0;
    while i < ls.len()
        invariant
            i <= ls@.len(),
            lv == views(ls@),
            lv == lines(output@),
            f == (|l: Seq<char>|
                if trim(l).len() > 0 && is_flatpak_browser(trim(l)) {
                    Some("flatpak:"@ + trim(l))
                } else {
                    None
                }),
            string_views(r@) == lv.subrange(0, i as int).filter_map(f),
        decreases ls@.len() - i,
    {
        assert(lv.subrange(0, i + 1).drop_last() =~= lv.subrange(0, i as int));
        let t = trim_chars(ls[i].as_slice());
        let ts = string_from_chars(t.as_slice());
        let ghost before = string_views(r@);
        if t.len() > 0 && is_flatpak_browser_id(ts.as_str()) {
            r.push("flatpak:".to_owned().concat(ts.as_str()));
            assert(string_views(r@) =~= before.push("flatpak:"@ + t@));
        }
        assert(string_views(r@) =~= lv.subrange(0, i + 1).filter_map(f));
        i += 1;
    }
    assert(lv.subrange(0, ls@.len() as int) =~= lv);
    r
}

/// What a desktop entry's `Exec=` line launches.
#[derive(Debug)]
pub enum ExecTarget {
    /// A Flatpak application, as `flatpak:<app-id>`.
    Flatpak(String),
    /// A command, still to be resolved to an absolute path.
    Command(String),
}

/// The words of an `Exec=` value without the `%` field codes.
pub open spec fn exec_words(v: Seq<char>) -> Seq<Seq<char>> {
    words(v).filter(|w: Seq<char>| !(w.len() > 0 && w[0] == '%'))
}

/// Index of the first word from `i` on that is `run`, or the length.
pub open spec fn run_index(ws: Seq<Seq<char>>, i: int) -> int
    decreases ws.len() - i,
{
    if i < 0 || i >= ws.len() {
        ws.len() as int
    } else if ws[i] == "run"@ {
        i
    } else {
        run_index(ws, i + 1)
    }
}

/// Index of the first word from `i` on that is not an option (does not
/// start with `-`), or the length.
pub open spec fn first_non_option(ws: Seq<Seq<char>>, i: int) -> int
    decreases ws.len() - i,
{
    if i < 0 || i >= ws.len() {
        ws.len() as int
    } else if ws[i].len() > 0 && ws[i][0] == '-' {
        first_non_option(ws, i + 1)
    } else {
        i
    }
}

/// What an `Exec=` value launches: for `flatpak ... run [options] <app-id>`
/// (the command's file name being `flatpak`), the first word after the
/// first `run` that is not an option (options start with `-`); otherwise
/// the command itself.
pub open spec fn exec_target_of(v: Seq<char>) -> Option<(bool, Seq<char>)> {
    let ws = exec_words(v);
    if ws.len() == 0 {
        None
    } else {
        match file_name_of(ws[0]) {
            None => None,
            Some(b) => if b == "flatpak"@ {
                let k = run_index(ws, 0);
                let a = first_non_option(ws, k + 1);
                if k < ws.len() && a < ws.len() {
                    Some((true, "flatpak:"@ + ws[a]))
                } else {
                    None
                }
            } else {
                Some((false, ws[0]))
            },
        }
    }
}

/// What a desktop entry's `Exec=` value launches (field codes such as `%u`
/// ignored).
pub fn resolve_exec_line(exec_value: &str) -> (r: Option<ExecTarget>)
    ensures
        match r {
            Some(ExecTarget::Flatpak(s)) => exec_target_of(exec_value@) == Some((true, s@)),
            Some(ExecTarget::Command(s)) => exec_target_of(exec_value@) == Some((false, s@)),
            None => exec_target_of(exec_value@) is None,
        },
{
    let all = split_words(chars_of(exec_value).as_slice());
    let ghost av = views(all@);
    let ghost keep = |w: Seq<char>| !(w.len() > 0 && w[0] == '%');
    let mut ws: Vec<Vec<char>> = Vec::new();
    let mut i: usize = 0;
    while i < all.len()
        invariant
            i <= all@.len(),
            av == views(all@),
            av == words(exec_value@),
            keep == (|w: Seq<char>| !(w.len() > 0 && w[0] == '%')),
            views(ws@) == av.subrange(0, i as int).filter(keep),
        decreases all@.len() - i,
    {
        assert(av.subrange(0, i + 1).drop_last() =~= av.subrange(0, i as int));
        reveal_with_fuel(Seq::filter, 1);
        let ghost before = views(ws@);
        if !(all[i].len() > 0 && all[i][0] == '%') {
            ws.push(copy_chars(all[i].as_slice()));
            assert(views(ws@) =~= before.push(av[i as int]));
        }
        i += 1;
    }
    assert(av.subrange(0, all@.len() as int) =~= av);
    let ghost wv = views(ws@);
    assert(wv == exec_words(exec_value@));
    if ws.len() == 0 {
        return None;
    }
    let first = string_from_chars(ws[0].as_slice());
    let base = match path_file_name(first.as_str()) {
        Some(b) => b,
        None => return None,
    };
    if base == "flatpak".to_owned() {
        let run = chars_of("run");
        let mut k: usize = 0;
        while k < ws.len() && !chars_eq(ws[k].as_slice(), run.as_slice())
            invariant
                k <= ws@.len(),
                wv == views(ws@),
                run@ == "run"@,
                run_index(wv, 0) == run_index(wv, k as int),
            decreases ws@.len() - k,
        {
            k += 1;
        }
        if k < ws.len() {
            let mut a: usize = k + 1;
            while a < ws.len() && ws[a].len() > 0 && ws[a][0] == '-'
                invariant
                    k < a <= ws@.len(),
                    wv == views(ws@),
                    first_non_option(wv, k + 1) == first_non_option(wv, a as int),
                decreases ws@.len() - a,
            {
                a += 1;
            }
            if a < ws.len() {
                let id = string_from_chars(ws[a].as_slice());
                return Some(ExecTarget::Flatpak("flatpak:".to_owned().concat(id.as_str())));
            }
        }
        None
    } else {
        Some(ExecTarget::Command(first))
    }
}

/// `s` with every leading repetition of `p` removed (`str::trim_start_matches`).
pub open spec fn strip_prefixes(s: Seq<char>, p: Seq<char>) -> Seq<char>
    decreases s.len(),
{
    if p.len() > 0 && has_prefix(s, p) {
        strip_prefixes(s.subrange(p.len() as int, s.len() as int), p)
    } else {
        s
    }
}

/// The first line from `i` on that starts with `Exec=`.
pub open spec fn first_exec_line(ls: Seq<Seq<char>>, i: int) -> Option<Seq<char>>
    decreases ls.len() - i,
{
    if i < 0 || i >= ls.len() {
        None
    } else if has_prefix(ls[i], "Exec="@) {
        Some(ls[i])
    } else {
        first_exec_line(ls, i + 1)
    }
}

/// The launch command of a desktop entry: the first line that starts with
/// `Exec=`, without its leading `Exec=` keys, trimmed.
pub open spec fn desktop_exec_value_of(content: Seq<char>) -> Option<Seq<char>> {
    match first_exec_line(lines(content), 0) {
        Some(l) => Some(trim(strip_prefixes(l, "Exec="@))),
        None => None,
    }
}

/// The `Exec=` value of a desktop entry's text, if it has an `Exec=` line.
pub fn desktop_exec_value(content: &str) -> (r: Option<String>)
    ensures
        match r {
            Some(v) => desktop_exec_value_of(content@) == Some(v@),
            None => desktop_exec_value_of(content@) is None,
        },
{
    let cs = chars_of(content);
    let ls = split_lines(cs.as_slice());
    let ghost lv = views(ls@);
    let key = chars_of("Exec=");
    proof {
        reveal_strlit("Exec=");
    }
    let mut i: usize = 0;
    while i < ls.len() && !starts_with(ls[i].as_slice(), key.as_slice())
        invariant
            i <= ls@.len(),
            lv == views(ls@),
            lv == lines(content@),
            key@ == "Exec="@,
            first_exec_line(lv, 0) == first_exec_line(lv, i as int),
        decreases ls@.len() - i,
    {
        i += 1;
    }
    if i == ls.len() {
        return None;
    }
    let ghost l = lv[i as int];
    let mut cur = copy_chars(ls[i].as_slice());
    while starts_with(cur.as_slice(), key.as_slice())
        invariant
            key@ == "Exec="@,
            key@.len() == 5,
            strip_prefixes(cur@, "Exec="@) == strip_prefixes(l, "Exec="@),
        decreases cur@.len(),
    {
        cur = slice_chars(cur.as_slice(), key.len(), cur.len());
    }
    let v = trim_chars(cur.as_slice());
    Some(string_from_chars(v.as_slice()))
}

/// The kind of an I/O error, as far as the messages tell kinds apart.
#[derive(Debug, Clone, Copy, PartialEq, Eq, Structural)]
pub enum IoKind {
    NotFound,
    PermissionDenied,
    Other,
}

/// An I/O error of running a command: its kind, the `Debug` text of its
/// `ErrorKind`, and its `Display` text.
#[derive(Debug)]
pub struct IoFailure {
    pub kind: IoKind,
    pub kind_text: String,
    pub message: String,
}

/// The message for a failure to run `xdg-mime`.
pub open spec fn xdg_mime_io_message(prefix: Seq<char>, err: IoFailure) -> Seq<char> {
    match err.kind {
        IoKind::NotFound => prefix + ": command not found (is `xdg-mime` installed and on PATH?)"@,
        IoKind::PermissionDenied => prefix + ": permission denied when executing `xdg-mime`"@,
        IoKind::Other => prefix + ": I/O error ("@ + err.kind_text@ + "): "@ + err.message@,
    }
}

/// Message for an I/O error of running `xdg-mime`, after `prefix`.
pub fn format_xdg_mime_io_error(prefix: &str, err: &IoFailure) -> (r: String)
    ensures
        r@ == xdg_mime_io_message(prefix@, *err),
{
    match err.kind {
        IoKind::NotFound => prefix.to_owned().concat(
            ": command not found (is `xdg-mime` installed and on PATH?)",
        ),
        IoKind::PermissionDenied => prefix.to_owned().concat(
            ": permission denied when executing `xdg-mime`",
        ),
        IoKind::Other => prefix.to_owned().concat(": I/O error (").concat(
            err.kind_text.as_str(),
        ).concat("): ").concat(err.message.as_str()),
    }
}

/// A command's standard error, trimmed; `None` when that leaves nothing.
pub open spec fn stderr_note(text: Seq<char>) -> Option<Seq<char>> {
    if trim(text).len() == 0 {
        None
    } else {
        Some(trim(text))
    }
}

/// A command's standard error text (decoded lossily), trimmed, or `None`
/// when it is blank.
pub fn extract_stderr(text: &str) -> (r: Option<String>)
    ensures
        match r {
            Some(s) => stderr_note(text@) == Some(s@),
            None => stderr_note(text@) is None,
        },
{
    let t = trim_chars(chars_of(text).as_slice());
    if t.len() == 0 {
        None
    } else {
        Some(string_from_chars(t.as_slice()))
    }
}

/// How running a command went: it ran (whether it succeeded, the `Display`
/// of its exit status, its standard error decoded lossily), or it could not
/// be run.
#[derive(Debug)]
pub enum CommandRun {
    Ran { success: bool, status: String, stderr: String },
    Failed(IoFailure),
}

/// ` , <which> stderr: <text>` for a non-blank standard error.
pub open spec fn stderr_part(which: Seq<char>, stderr: Seq<char>) -> Seq<char> {
    match stderr_note(stderr) {
        Some(s) => ", "@ + which + " stderr: "@ + s,
        None => seq![],
    }
}

/// The error of registering the MIME associations with `xdg-mime`, if any:
/// none when both commands ran and succeeded; the I/O messages when one or
/// both could not be run; otherwise the exit statuses and standard errors.
pub open spec fn mime_association_failure(http: CommandRun, https: CommandRun) -> Option<Seq<char>> {
    let hp = "Failed to run xdg-mime for HTTP association"@;
    let sp = "Failed to run xdg-mime for HTTPS association"@;
    match (http, https) {
        (CommandRun::Failed(h), CommandRun::Failed(s)) => Some(
            xdg_mime_io_message(hp, h) + "; "@ + xdg_mime_io_message(sp, s),
        ),
        (CommandRun::Failed(h), _) => Some(xdg_mime_io_message(hp, h)),
        (_, CommandRun::Failed(s)) => Some(xdg_mime_io_message(sp, s)),
        (
            CommandRun::Ran { success: hs, status: hst, stderr: herr },
            CommandRun::Ran { success: ss, status: sst, stderr: serr },
        ) => if hs && ss {
            None
        } else {
            Some(
                "Failed to set MIME associations (http status: "@ + hst@ + ", https status: "@
                    + sst@ + ")"@ + stderr_part("http"@, herr@) + stderr_part("https"@, serr@)
                    + ". Ensure xdg-mime is available."@,
            )
        },
    }
}

fn stderr_part_exec(which: &str, stderr: &str) -> (r: String)
    ensures
        r@ == stderr_part(which@, stderr@),
{
    match extract_stderr(stderr) {
        Some(s) => ", ".to_owned().concat(which).concat(" stderr: ").concat(s.as_str()),
        None => String::new(),
    }
}

/// The error of registering the MIME associations for HTTP and HTTPS with
/// `xdg-mime default`, given how the two commands went.
pub fn mime_association_error(http: &CommandRun, https: &CommandRun) -> (r: Option<String>)
    ensures
        match r {
            Some(m) => mime_association_failure(*http, *https) == Some(m@),
            None => mime_association_failure(*http, *https) is None,
        },
{
    let hp = "Failed to run xdg-mime for HTTP association";
    let sp = "Failed to run xdg-mime for HTTPS association";
    match (http, https) {
        (CommandRun::Failed(h), CommandRun::Failed(s)) => Some(
            format_xdg_mime_io_error(hp, h).concat("; ").concat(
                format_xdg_mime_io_error(sp, s).as_str(),
            ),
        ),
        (CommandRun::Failed(h), _) => Some(format_xdg_mime_io_error(hp, h)),
        (_, CommandRun::Failed(s)) => Some(format_xdg_mime_io_error(sp, s)),
        (
            CommandRun::Ran { success: hs, status: hst, stderr: herr },
            CommandRun::Ran { success: ss, status: sst, stderr: serr },
        ) => if *hs && *ss {
            None
        } else {
            Some(
                "Failed to set MIME associations (http status: ".to_owned().concat(
                    hst.as_str(),
                ).concat(", https status: ").concat(sst.as_str()).concat(")").concat(
                    stderr_part_exec("http", herr.as_str()).as_str(),
                ).concat(stderr_part_exec("https", serr.as_str()).as_str()).concat(
                    ". Ensure xdg-mime is available.",
                ),
            )
        },
    }
}

/// What to tell the user after the MIME associations were set: warnings
/// (for standard error) and notes (for standard output), in order.
#[derive(Debug)]
pub struct Report {
    pub warnings: Vec<String>,
    pub notes: Vec<String>,
}

/// The desktop file name of this handler.
pub open spec fn handler_desktop_id() -> Seq<char> {
    "rust-browser-handler.desktop"@
}

/// The notes of a registration that `xdg-settings` confirmed.
pub open spec fn registered_notes() -> Seq<Seq<char>> {
    seq![
        "Successfully registered as default browser using XDG standards."@,
        "The application is now set as the default handler for HTTP and HTTPS URLs."@,
    ]
}

/// What to report about `xdg-settings set default-web-browser`, given how
/// that command went and what `xdg-settings get default-web-browser`
/// printed (when it ran). When `get` already names this handler, a failing
/// `set` only earns a warning; otherwise the MIME associations are reported
/// as the authoritative setting whenever `set` did not succeed.
pub open spec fn settings_report(set: CommandRun, get_output: Option<Seq<char>>) -> (Seq<Seq<char>>, Seq<Seq<char>>) {
    let confirmed = match get_output {
        Some(o) => trim(o) == handler_desktop_id(),
        None => false,
    };
    if confirmed {
        let warnings = match set {
            CommandRun::Ran { success: false, status, stderr: _ } => seq![
                "warning: xdg-settings set default-web-browser exited with "@ + status@
                    + " but xdg-settings get already reports rust-browser-handler.desktop. Some desktop environments, mail fail set operations even when the setting is correct. The MIME associations were still applied."@,
            ],
            CommandRun::Failed(e) => seq![
                "warning: xdg-settings set default-web-browser could not be executed ("@ + e.message@
                    + "), but xdg-settings get already reports rust-browser-handler.desktop. Some desktop environments, including Pop!_OS COSMIC, do not use set as a reliable signal. The MIME associations were still applied."@,
            ],
            _ => seq![],
        };
        (warnings, registered_notes())
    } else {
        match set {
            CommandRun::Ran { success: true, status: _, stderr: _ } => (seq![], registered_notes()),
            CommandRun::Ran { success: false, status, stderr } => (
                seq![
                    "warning: xdg-settings set default-web-browser failed (status: "@ + status@
                        + match stderr_note(stderr@) {
                        Some(s) => ", stderr: "@ + s,
                        None => seq![],
                    } + "). The MIME associations were still applied."@,
                ],
                seq![
                    "Successfully registered default HTTP and HTTPS associations using XDG MIME data."@,
                    "Note: xdg-settings did not report the desktop entry back, so the MIME association is the authoritative setting here."@,
                ],
            ),
            CommandRun::Failed(e) => (
                seq![
                    "warning: xdg-settings is unavailable or could not be executed ("@ + e.message@
                        + "). The MIME associations were still applied."@,
                ],
                seq![
                    "Successfully registered default HTTP and HTTPS associations using XDG MIME data."@,
                    "Note: xdg-settings was skipped, so the MIME association is the authoritative setting here."@,
                ],
            ),
        }
    }
}

/// The report of setting this handler as default web browser with
/// `xdg-settings`, after the MIME associations succeeded.
pub fn xdg_settings_report(set: &CommandRun, get_output: Option<&str>) -> (r: Report)
    ensures
        (string_views(r.warnings@), string_views(r.notes@)) == settings_report(
            *set,
            match get_output {
                Some(o) => Some(o@),
                None => None,
            },
        ),
{
    let confirmed = match get_output {
        Some(o) => {
            let t = trim_chars(chars_of(o).as_slice());
            chars_eq(t.as_slice(), chars_of("rust-browser-handler.desktop").as_slice())
        },
        None => false,
    };
    let mut warnings: Vec<String> = Vec::new();
    let mut notes: Vec<String> = Vec::new();
    if confirmed {
        match set {
            CommandRun::Ran { success, status, stderr: _ } => {
                if !*success {
                    warnings.push(
                        "warning: xdg-settings set default-web-browser exited with ".to_owned().concat(
                            status.as_str(),
                        ).concat(
                            " but xdg-settings get already reports rust-browser-handler.desktop. Some desktop environments, mail fail set operations even when the setting is correct. The MIME associations were still applied.",
                        ),
                    );
                }
            },
            CommandRun::Failed(e) => {
                warnings.push(
                    "warning: xdg-settings set default-web-browser could not be executed (".to_owned().concat(
                        e.message.as_str(),
                    ).concat(
                        "), but xdg-settings get already reports rust-browser-handler.desktop. Some desktop environments, including Pop!_OS COSMIC, do not use set as a reliable signal. The MIME associations were still applied.",
                    ),
                );
            },
        }
        notes.push("Successfully registered as default browser using XDG standards.".to_owned());
        notes.push(
            "The application is now set as the default handler for HTTP and HTTPS URLs.".to_owned(),
        );
    } else {
        match set {
            CommandRun::Ran { success, status, stderr } => {
                if *success {
                    notes.push(
                        "Successfully registered as default browser using XDG standards.".to_owned(),
                    );
                    notes.push(
                        "The application is now set as the default handler for HTTP and HTTPS URLs.".to_owned(),
                    );
                } else {
                    let err_part = match extract_stderr(stderr.as_str()) {
                        Some(s) => ", stderr: ".to_owned().concat(s.as_str()),
                        None => String::new(),
                    };
                    warnings.push(
                        "warning: xdg-settings set default-web-browser failed (status: ".to_owned().concat(
                            status.as_str(),
                        ).concat(err_part.as_str()).concat(
                            "). The MIME associations were still applied.",
                        ),
                    );
                    notes.push(
                        "Successfully registered default HTTP and HTTPS associations using XDG MIME data.".to_owned(),
                    );
                    notes.push(
                        "Note: xdg-settings did not report the desktop entry back, so the MIME association is the authoritative setting here.".to_owned(),
                    );
                }
            },
            CommandRun::Failed(e) => {
                warnings.push(
                    "warning: xdg-settings is unavailable or could not be executed (".to_owned().concat(
                        e.message.as_str(),
                    ).concat("). The MIME associations were still applied."),
                );
                notes.push(
                    "Successfully registered default HTTP and HTTPS associations using XDG MIME data.".to_owned(),
                );
                notes.push(
                    "Note: xdg-settings was skipped, so the MIME association is the authoritative setting here.".to_owned(),
                );
            },
        }
    }
    let r = Report { warnings, notes };
    assert((string_views(r.warnings@), string_views(r.notes@)) =~= settings_report(
        *set,
        match get_output {
            Some(o) => Some(o@),
            None => None,
        },
    ));
    r
}

/// Whether this handler is the default for HTTP and HTTPS, from what
/// `xdg-mime query default` printed (trimmed) for each, `None` where the
/// query failed: `Some(false)` when either names another handler,
/// `Some(true)` when both name this one, and `None` (undecided: check for
/// the desktop file) otherwise.
pub open spec fn handler_status(http: Option<Seq<char>>, https: Option<Seq<char>>) -> Option<bool> {
    if http matches Some(h) && h != handler_desktop_id() {
        Some(false)
    } else if https matches Some(s) && s != handler_desktop_id() {
        Some(false)
    } else if http == Some(handler_desktop_id()) && https == Some(handler_desktop_id()) {
        Some(true)
    } else {
        None
    }
}

/// Whether this handler is the registered default, as far as the two
/// `xdg-mime query default` results tell.
pub fn default_handler_status(http: Option<&str>, https: Option<&str>) -> (r: Option<bool>)
    ensures
        r == handler_status(
            match http {
                Some(s) => Some(s@),
                None => None,
            },
            match https {
                Some(s) => Some(s@),
                None => None,
            },
        ),
{
    let me = "rust-browser-handler.desktop".to_owned();
    let h = match http {
        Some(s) => Some(s.to_owned()),
        None => None,
    };
    let s = match https {
        Some(s) => Some(s.to_owned()),
        None => None,
    };
    let h_other = match &h {
        Some(x) => *x != me,
        None => false,
    };
    let s_other = match &s {
        Some(x) => *x != me,
        None => false,
    };
    let h_me = match &h {
        Some(x) => *x == me,
        None => false,
    };
    let s_me = match &s {
        Some(x) => *x == me,
        None => false,
    };
    if h_other {
        Some(false)
    } else if s_other {
        Some(false)
    } else if h_me && s_me {
        Some(true)
    } else {
        None
    }
}

/// The desktop entry of the OS default browser, from what `xdg-mime query
/// default` printed (trimmed) for HTTPS and HTTP, `None` where the query
/// failed: the HTTPS answer, else the HTTP one, ignoring empty answers;
/// `None` when that is this handler itself.
pub open spec fn default_browser_entry(https: Option<Seq<char>>, http: Option<Seq<char>>) -> Option<Seq<char>> {
    let chosen = if https matches Some(s) && s.len() > 0 {
        https
    } else if http matches Some(h) && h.len() > 0 {
        http
    } else {
        None
    };
    if chosen == Some(handler_desktop_id()) {
        None
    } else {
        chosen
    }
}

/// The desktop entry to resolve for the OS default browser.
pub fn default_browser_desktop_id(https: Option<&str>, http: Option<&str>) -> (r: Option<String>)
    ensures
        match r {
            Some(s) => default_browser_entry(
                match https {
                    Some(s) => Some(s@),
                    None => None,
                },
                match http {
                    Some(s) => Some(s@),
                    None => None,
                },
            ) == Some(s@),
            None => default_browser_entry(
                match https {
                    Some(s) => Some(s@),
                    None => None,
                },
                match http {
                    Some(s) => Some(s@),
                    None => None,
                },
            ) is None,
        },
{
    let chosen = match https {
        Some(s) if !s.is_empty() => Some(s.to_owned()),
        _ => match http {
            Some(h) if !h.is_empty() => Some(h.to_owned()),
            _ => None,
        },
    };
    match chosen {
        Some(c) => if c == "rust-browser-handler.desktop".to_owned() {
            None
        } else {
            Some(c)
        },
        None => None,
    }
}


/// A line that `str::lines` gives back unchanged after `\n`: it holds no
/// `\n` and does not end with `\r`.
pub open spec fn plain_line(l: Seq<char>) -> bool {
    !l.contains('\n') && !ends_with_cr(l)
}

proof fn lemma_terminated_front(es: Seq<Seq<char>>, t: char)
    requires
        es.len() > 0,
    ensures
        terminated(es, t) == es[0].push(t) + terminated(es.drop_first(), t),
    decreases es.len(),
{
    if es.len() == 1 {
        assert(es.drop_last() =~= seq![]);
        assert(es.drop_first() =~= seq![]);
        assert(terminated(es.drop_last(), t) =~= seq![]);
        assert(es.last() == es[0]);
        assert(terminated(es, t) =~= es[0].push(t));
        assert(terminated(es.drop_first(), t) =~= seq![]);
        assert(es[0].push(t) + seq![] =~= es[0].push(t));
    } else {
        lemma_terminated_front(es.drop_last(), t);
        assert(es.drop_last().drop_first() =~= es.drop_first().drop_last());
        assert(es.drop_first().last() == es.last());
        assert(es.drop_last()[0] == es[0]);
        assert(terminated(es, t) =~= es[0].push(t) + terminated(es.drop_first(), t));
    }
}

/// Reading back lines each followed by `\n` gives those lines.
proof fn lemma_lines_terminated(ps: Seq<Seq<char>>, t: Seq<char>)
    requires
        forall|k: int| 0 <= k < ps.len() ==> plain_line(#[trigger] ps[k]),
    ensures
        lines(terminated(ps, '\n') + t) == ps + lines(t),
    decreases ps.len(),
{
    if ps.len() == 0 {
        assert(terminated(ps, '\n') + t =~= t);
        assert(ps + lines(t) =~= lines(t));
    } else {
        lemma_terminated_front(ps, '\n');
        let rest = ps.drop_first();
        assert forall|k: int| 0 <= k < rest.len() implies plain_line(#[trigger] rest[k]) by {
            assert(rest[k] == ps[k + 1]);
        }
        lemma_lines_terminated(rest, t);
        assert(plain_line(ps[0]));
        assert(terminated(ps, '\n') + t =~= ps[0].push('\n') + (terminated(rest, '\n') + t));
        lemma_lines_piece(ps[0], terminated(rest, '\n') + t);
        assert(strip_cr(ps[0]) == ps[0]);
        assert(ps =~= seq![ps[0]] + rest);
        assert(ps + lines(t) =~= seq![ps[0]] + (rest + lines(t)));
    }
}

proof fn lemma_join_terminated(ls: Seq<Seq<char>>)
    requires
        ls.len() > 0,
    ensures
        join_with(ls, seq!['\n']) == terminated(ls.drop_last(), '\n') + ls.last(),
    decreases ls.len(),
{
    if ls.len() == 1 {
        assert(ls.drop_last() =~= seq![]);
        assert(terminated(ls.drop_last(), '\n') + ls.last() =~= ls[0]);
    } else {
        let init = ls.drop_last();
        lemma_join_terminated(init);
        assert(init.drop_last().push(init.last()) =~= init);
        assert(terminated(init, '\n') =~= terminated(init.drop_last(), '\n') + init.last().push('\n'));
        assert(join_with(ls, seq!['\n']) =~= terminated(init, '\n') + ls.last());
    }
}

/// Rendering plain lines and reading them back gives the same lines, and
/// the rendered text ends with `\n` exactly when the input did.
proof fn lemma_render_read_back(out: Seq<Seq<char>>, input: Seq<char>)
    requires
        out.len() > 0,
        forall|k: int| 0 <= k < out.len() ==> plain_line(#[trigger] out[k]),
        !ends_with_lf(input) ==> out.last().len() > 0,
    ensures
        lines(render(out, input)) == out,
        ends_with_lf(render(out, input)) == ends_with_lf(input),
{
    lemma_join_terminated(out);
    let init = out.drop_last();
    assert forall|k: int| 0 <= k < init.len() implies plain_line(#[trigger] init[k]) by {
        assert(init[k] == out[k]);
    }
    assert(plain_line(out.last()));
    let body = join_with(out, seq!['\n']);
    if ends_with_lf(input) {
        assert(render(out, input) == body.push('\n'));
        assert(init.push(out.last()) =~= out);
        assert(terminated(out, '\n') =~= terminated(init, '\n') + out.last().push('\n'));
        assert(body.push('\n') =~= terminated(out, '\n') + seq![]);
        lemma_lines_terminated(out, seq![]);
        assert(lines(seq![]) =~= seq![]);
        assert(out + seq![] =~= out);
    } else {
        assert(render(out, input) == body);
        lemma_lines_terminated(init, out.last());
        lemma_lines_single(out.last());
        assert(init + seq![out.last()] =~= out);
        assert(body.last() == out.last().last());
        assert(out.last().last() != '\n') by {
            assert(out.last().contains(out.last().last())) by {
                assert(out.last()[out.last().len() - 1] == out.last().last());
            }
        }
    }
}


/// The scan of the first `m` lines reads those lines only.
proof fn lemma_scan_prefix(a: Seq<Seq<char>>, b: Seq<Seq<char>>, id: Seq<char>, m: int)
    requires
        0 <= m <= a.len(),
    ensures
        scan_lines(a + b, id, m) == scan_lines(a, id, m),
    decreases m,
{
    if m > 0 {
        lemma_scan_prefix(a, b, id, m - 1);
        assert((a + b)[m - 1] == a[m - 1]);
    }
}

/// The handler lines are assignments to the handler keys, not headers.
proof fn lemma_handler_keys(id: Seq<char>)
    ensures
        assignment_key(http_line(id)) == Some("x-scheme-handler/http"@),
        assignment_key(https_line(id)) == Some("x-scheme-handler/https"@),
        !is_header(trim(http_line(id))),
        !is_header(trim(https_line(id))),
        "x-scheme-handler/http"@ != "x-scheme-handler/https"@,
{
    reveal_strlit("x-scheme-handler/http=");
    reveal_strlit("x-scheme-handler/https=");
    reveal_strlit("x-scheme-handler/http");
    reveal_strlit("x-scheme-handler/https");
    let k1 = "x-scheme-handler/http"@;
    let k2 = "x-scheme-handler/https"@;
    assert(k1.len() != k2.len());
    lemma_key_piece(k1, id);
    assert(k1.push('=') + id =~= http_line(id));
    lemma_key_piece(k2, id);
    assert(k2.push('=') + id =~= https_line(id));
    lemma_plain_not_header(http_line(id));
    lemma_plain_not_header(https_line(id));
}

/// A key without `=`, white space at either end, followed by `=`.
proof fn lemma_key_piece(k: Seq<char>, v: Seq<char>)
    requires
        k.len() > 0,
        !k.contains('='),
        !is_ws(k[0]),
        !is_ws(k.last()),
    ensures
        assignment_key(k.push('=') + v) == Some(k),
{
    let s = k.push('=') + v;
    lemma_find_after_piece(k, v, '=');
    assert(s.subrange(0, k.len() as int) =~= k);
    assert(skip_ws(k, 0) == 0);
    assert(skip_ws_back(k, k.len() as int) == k.len());
    assert(k.subrange(0, k.len() as int) =~= k);
}

/// A line that starts with neither white space nor `[` is no header.
proof fn lemma_plain_not_header(s: Seq<char>)
    requires
        s.len() > 0,
        !is_ws(s[0]),
        s[0] != '[',
    ensures
        !is_header(trim(s)),
{
    lemma_skip_ws_back_floor(s, s.len() as int);
    assert(skip_ws(s, 0) == 0);
    assert(trim(s)[0] == s[0]);
}

/// `[Default Applications]` opens a default-applications section.
proof fn lemma_default_header()
    ensures
        trim("[Default Applications]"@) == "[Default Applications]"@,
        is_header(trim("[Default Applications]"@)),
        is_default_section(header_name(trim("[Default Applications]"@))),
        opens_default_section("[Default Applications]"@),
        plain_line("[Default Applications]"@),
{
    reveal_strlit("[Default Applications]");
    reveal_strlit("Default Applications");
    reveal_strlit("]");
    let h = "[Default Applications]"@;
    assert(skip_ws(h, 0) == 0);
    assert(skip_ws_back(h, h.len() as int) == h.len());
    assert(h.subrange(0, h.len() as int) =~= h);
    assert(header_name(h) =~= "Default Applications"@);
    assert(h.subrange(0, h.len() as int) =~= h);
    assert(h.subrange(h.len() - 1, h.len() as int) =~= "]"@);
    assert(!h.contains('\n')) by {
        if h.contains('\n') {
            let m = choose|m: int| 0 <= m < h.len() && h[m] == '\n';
        }
    }
}

/// Scanning what a scan emitted emits it again and ends in the same state;
/// a scan inside a default-applications section has emitted a line opening one.
proof fn lemma_scan_fixpoint(ls: Seq<Seq<char>>, id: Seq<char>, n: int)
    requires
        0 <= n <= ls.len(),
    ensures
        ({
            let (st, out) = scan_lines(ls, id, n);
            &&& scan_lines(out, id, out.len() as int) == (st, out)
            &&& st.in_default ==> exists|k: int|
                0 <= k < out.len() && opens_default_section(#[trigger] out[k])
        }),
    decreases n,
{
    if n > 0 {
        lemma_scan_fixpoint(ls, id, n - 1);
        lemma_handler_keys(id);
        let (st, out) = scan_lines(ls, id, n - 1);
        let line = ls[n - 1];
        let (st2, em) = scan_step(st, line, id);
        let out2 = out + em;
        assert(scan_lines(ls, id, n) == (st2, out2));
        lemma_scan_prefix(out, em, id, out.len() as int);
        let m = out.len() as int;
        let t = trim(line);
        let hl = http_line(id);
        let hs = https_line(id);
        if is_header(t) && st.in_default {
            let full = MimeScan { in_default: true, http: true, https: true };
            assert(st2 == MimeScan { in_default: is_default_section(header_name(t)), http: true, https: true });
            if !st.http && !st.https {
                assert(out2 =~= out + seq![hl, hs, line]);
                assert(out2[m] == hl);
                assert(scan_lines(out2, id, m + 1) == (MimeScan { in_default: true, http: true, https: false }, out + seq![hl]));
                assert(out2[m + 1] == hs);
                assert(out + seq![hl] + seq![hs] =~= out + seq![hl, hs]);
                assert(scan_lines(out2, id, m + 2) == (full, out + seq![hl, hs]));
                assert(out2[m + 2] == line);
                assert(out + seq![hl, hs] + seq![line] =~= out2);
                assert(scan_lines(out2, id, m + 3) == (st2, out2));
            } else if !st.http {
                assert(out2 =~= out + seq![hl, line]);
                assert(out2[m] == hl);
                assert(scan_lines(out2, id, m + 1) == (full, out + seq![hl]));
                assert(out2[m + 1] == line);
                assert(out + seq![hl] + seq![line] =~= out2);
                assert(scan_lines(out2, id, m + 2) == (st2, out2));
            } else if !st.https {
                assert(out2 =~= out + seq![hs, line]);
                assert(out2[m] == hs);
                assert(scan_lines(out2, id, m + 1) == (full, out + seq![hs]));
                assert(out2[m + 1] == line);
                assert(out + seq![hs] + seq![line] =~= out2);
                assert(scan_lines(out2, id, m + 2) == (st2, out2));
            } else {
                assert(out2 =~= out + seq![line]);
                assert(out2[m] == line);
                assert(scan_lines(out2, id, m + 1) == (st2, out2));
            }
        } else {
            assert(em.len() == 1);
            assert(scan_step(st, out2[m], id) == (st2, em));
            assert(scan_lines(out2, id, m + 1) == (st2, out2));
        }
        if st2.in_default {
            if is_header(t) {
                assert(opens_default_section(line));
                assert(out2[out2.len() - 1] == line);
            } else {
                let k = choose|k: int| 0 <= k < out.len() && opens_default_section(#[trigger] out[k]);
                assert(out2[k] == out[k]);
            }
        }
    }
}


/// Scanning the scanned lines gives them back; the scan of them ends inside
/// a default-applications section only when one of them opens one.
proof fn lemma_scanned_fixpoint(ls: Seq<Seq<char>>, id: Seq<char>)
    ensures
        scanned_lines(scanned_lines(ls, id), id) == scanned_lines(ls, id),
        ({
            let o = scanned_lines(ls, id);
            scan_lines(o, id, o.len() as int).0.in_default ==> exists|k: int|
                0 <= k < o.len() && opens_default_section(#[trigger] o[k])
        }),
{
    lemma_scan_fixpoint(ls, id, ls.len() as int);
    lemma_handler_keys(id);
    let (st, out) = scan_lines(ls, id, ls.len() as int);
    let o = scanned_lines(ls, id);
    let m = out.len() as int;
    let hl = http_line(id);
    let hs = https_line(id);
    let full = MimeScan { in_default: true, http: true, https: true };
    if st.in_default {
        let miss = missing_lines(st, id);
        lemma_scan_prefix(out, miss, id, m);
        if !st.http && !st.https {
            assert(o =~= out + seq![hl, hs]);
            assert(o[m] == hl);
            assert(scan_lines(o, id, m + 1) == (MimeScan { in_default: true, http: true, https: false }, out + seq![hl]));
            assert(o[m + 1] == hs);
            assert(out + seq![hl] + seq![hs] =~= o);
            assert(scan_lines(o, id, m + 2) == (full, o));
        } else if !st.http {
            assert(o =~= out + seq![hl]);
            assert(o[m] == hl);
            assert(scan_lines(o, id, m + 1) == (full, o));
        } else if !st.https {
            assert(o =~= out + seq![hs]);
            assert(o[m] == hs);
            assert(scan_lines(o, id, m + 1) == (full, o));
        } else {
            assert(o =~= out);
        }
        assert(scanned_lines(o, id) =~= o + missing_lines(full, id));
        assert(o + missing_lines(full, id) =~= o);
        let k = choose|k: int| 0 <= k < out.len() && opens_default_section(#[trigger] out[k]);
        assert(o[k] == out[k]);
    }
}

/// Registering twice gives the lines of registering once.
#[verifier::spinoff_prover]
#[verifier::rlimit(40)]
proof fn lemma_defaults_fixpoint(ls: Seq<Seq<char>>, id: Seq<char>)
    ensures
        defaults_lines(defaults_lines(ls, id), id) == defaults_lines(ls, id),
{
    lemma_scanned_fixpoint(ls, id);
    lemma_handler_keys(id);
    lemma_default_header();
    let o = scanned_lines(ls, id);
    let d = defaults_lines(ls, id);
    let hdr = "[Default Applications]"@;
    let hl = http_line(id);
    let hs = https_line(id);
    if exists|k: int| 0 <= k < o.len() && opens_default_section(#[trigger] o[k]) {
        assert(d == o);
    } else {
        let (s, so) = scan_lines(o, id, o.len() as int);
        assert(!s.in_default);
        assert(so == o);
        let sep = if o.len() > 0 && o.last().len() > 0 {
            o.push(seq![])
        } else {
            o
        };
        let tail = seq![hdr, hl, hs];
        assert(d == sep + tail);
        let rest = d.subrange(o.len() as int, d.len() as int);
        assert(d =~= o + rest);
        lemma_scan_prefix(o, rest, id, o.len() as int);
        let m = sep.len() as int;
        assert(scan_lines(d, id, m) == (s, sep)) by {
            if sep.len() > o.len() {
                assert(d[o.len() as int] == Seq::<char>::empty());
                assert(trim(seq![]) =~= seq![]);
                assert(o.push(seq![]) =~= o + seq![seq![]]);
            }
        }
        let s1 = MimeScan { in_default: true, http: s.http, https: s.https };
        let s2 = MimeScan { in_default: true, http: true, https: s.https };
        let full = MimeScan { in_default: true, http: true, https: true };
        assert(d[m] == hdr);
        assert(scan_lines(d, id, m + 1) == (s1, sep.push(hdr)));
        assert(d[m + 1] == hl);
        assert(scan_lines(d, id, m + 2) == (s2, sep.push(hdr).push(hl)));
        assert(d[m + 2] == hs);
        assert(sep.push(hdr).push(hl).push(hs) =~= d);
        assert(scan_lines(d, id, m + 3) == (full, d));
        assert(scanned_lines(d, id) =~= d);
        assert(opens_default_section(d[m]));
    }
}

/// The last line a scan emits is the last line read or a handler line.
proof fn lemma_scan_last(ls: Seq<Seq<char>>, id: Seq<char>, n: int)
    requires
        0 < n <= ls.len(),
    ensures
        ({
            let out = scan_lines(ls, id, n).1;
            &&& out.len() > 0
            &&& (out.last() == ls[n - 1] || out.last() == http_line(id) || out.last() == https_line(id))
        }),
{
    let (st, out) = scan_lines(ls, id, n - 1);
    let (st2, em) = scan_step(st, ls[n - 1], id);
    assert(scan_lines(ls, id, n) == (st2, out + em));
    assert((out + em).last() == em.last());
}

/// Every line of the registered output is an input line, a handler line,
/// the added header or the empty separator; the output is not empty, and
/// its last line is not empty unless the input ended with `\n`.
proof fn lemma_defaults_shape(contents: Seq<char>, id: Seq<char>)
    ensures
        ({
            let ls = lines(contents);
            let d = defaults_lines(ls, id);
            &&& d.len() > 0
            &&& forall|j: int| 0 <= j < d.len() ==> (#[trigger] d[j] == http_line(id)
                || d[j] == https_line(id) || d[j] == "[Default Applications]"@ || d[j] == Seq::<char>::empty()
                || exists|k: int| 0 <= k < ls.len() && d[j] == ls[k])
            &&& !ends_with_lf(contents) ==> d.last().len() > 0
        }),
{
    let ls = lines(contents);
    lemma_scan_invariant(ls, id, ls.len() as int);
    lemma_default_header();
    reveal_strlit("x-scheme-handler/http=");
    reveal_strlit("x-scheme-handler/https=");
    let (st, out) = scan_lines(ls, id, ls.len() as int);
    let o = scanned_lines(ls, id);
    let d = defaults_lines(ls, id);
    let hdr = "[Default Applications]"@;
    assert forall|j: int| 0 <= j < o.len() implies (#[trigger] o[j] == http_line(id)
        || o[j] == https_line(id) || exists|k: int| 0 <= k < ls.len() && o[j] == ls[k]) by {
        if j < out.len() {
            assert(o[j] == out[j]);
        }
    }
    if exists|k: int| 0 <= k < o.len() && opens_default_section(#[trigger] o[k]) {
        assert(d == o);
        assert(o.len() > 0);
        if !ends_with_lf(contents) {
            if st.in_default && missing_lines(st, id).len() > 0 {
                assert(o.last() == missing_lines(st, id).last());
            } else {
                assert(o =~= out) by {
                    if st.in_default {
                        assert(missing_lines(st, id) =~= seq![]);
                    }
                }
                if ls.len() == 0 {
                    assert(out =~= seq![]);
                }
                lemma_scan_last(ls, id, ls.len() as int);
                lemma_lines_last_nonempty(contents, 0);
            }
        }
    } else {
        let sep = if o.len() > 0 && o.last().len() > 0 {
            o.push(seq![])
        } else {
            o
        };
        assert(d == sep + seq![hdr, http_line(id), https_line(id)]);
        assert forall|j: int| 0 <= j < d.len() implies (#[trigger] d[j] == http_line(id)
            || d[j] == https_line(id) || d[j] == hdr || d[j] == Seq::<char>::empty()
            || exists|k: int| 0 <= k < ls.len() && d[j] == ls[k]) by {
            if j < o.len() {
                assert(d[j] == o[j]);
            }
        }
        assert(d.last() == https_line(id));
    }
}

/// The handler lines are plain when `id` is.
proof fn lemma_handler_plain(id: Seq<char>)
    requires
        plain_line(id),
    ensures
        plain_line(http_line(id)),
        plain_line(https_line(id)),
{
    reveal_strlit("x-scheme-handler/http=");
    reveal_strlit("x-scheme-handler/https=");
    let p1 = "x-scheme-handler/http="@;
    let p2 = "x-scheme-handler/https="@;
    assert(!http_line(id).contains('\n')) by {
        if http_line(id).contains('\n') {
            let m = choose|m: int| 0 <= m < http_line(id).len() && http_line(id)[m] == '\n';
            if m >= p1.len() {
                assert(id[m - p1.len()] == '\n');
            }
        }
    }
    assert(!https_line(id).contains('\n')) by {
        if https_line(id).contains('\n') {
            let m = choose|m: int| 0 <= m < https_line(id).len() && https_line(id)[m] == '\n';
            if m >= p2.len() {
                assert(id[m - p2.len()] == '\n');
            }
        }
    }
}

/// Registering a handler a second time changes nothing: the text that
/// registering `id` gives is left as it is by registering `id` again.
/// This holds when `id` holds no line break and no line of the contents
/// ends with a carriage return, which a second reading would drop.
pub proof fn registering_twice_changes_nothing(contents: Seq<char>, id: Seq<char>)
    requires
        plain_line(id),
        forall|k: int| 0 <= k < lines(contents).len() ==> !ends_with_cr(#[trigger] lines(contents)[k]),
    ensures
        defaults_text(defaults_text(contents, id), id) == defaults_text(contents, id),
{
    let ls = lines(contents);
    let d = defaults_lines(ls, id);
    lemma_defaults_shape(contents, id);
    lemma_lines_free(contents, 0);
    lemma_handler_plain(id);
    lemma_default_header();
    assert forall|j: int| 0 <= j < d.len() implies plain_line(#[trigger] d[j]) by {
        if d[j] != http_line(id) && d[j] != https_line(id) && d[j] != "[Default Applications]"@
            && d[j] != Seq::<char>::empty() {
            let k = choose|k: int| 0 <= k < ls.len() && d[j] == ls[k];
            assert(!ends_with_cr(ls[k]));
        }
        if d[j] == Seq::<char>::empty() {
            assert(!d[j].contains('\n'));
        }
    }
    lemma_render_read_back(d, contents);
    let t = render(d, contents);
    lemma_defaults_fixpoint(ls, id);
    assert(defaults_lines(lines(t), id) == d);
}


/// Outside any default-applications section the scan emits the lines as
/// they are and stays in its initial state.
proof fn lemma_scan_outside(ls: Seq<Seq<char>>, id: Seq<char>, n: int)
    requires
        0 <= n <= ls.len(),
        forall|k: int| 0 <= k < n ==> !opens_default_section(#[trigger] ls[k]),
    ensures
        scan_lines(ls, id, n) == (MimeScan { in_default: false, http: false, https: false }, ls.subrange(0, n)),
    decreases n,
{
    if n > 0 {
        lemma_scan_outside(ls, id, n - 1);
        assert(!opens_default_section(ls[n - 1]));
        assert(ls.subrange(0, n - 1).push(ls[n - 1]) =~= ls.subrange(0, n));
    }
}

/// When no line opens a default-applications section, registering keeps
/// every line as it is and appends such a section with both handler lines
/// (after an empty separator line unless the last line is empty).
pub proof fn registering_appends_missing_section(contents: Seq<char>, id: Seq<char>)
    requires
        forall|k: int| 0 <= k < lines(contents).len() ==> !opens_default_section(#[trigger] lines(contents)[k]),
    ensures
        ({
            let ls = lines(contents);
            let sep = if ls.len() > 0 && ls.last().len() > 0 {
                ls.push(seq![])
            } else {
                ls
            };
            defaults_lines(ls, id) == sep + seq!["[Default Applications]"@, http_line(id), https_line(id)]
        }),
{
    let ls = lines(contents);
    lemma_scan_outside(ls, id, ls.len() as int);
    assert(ls.subrange(0, ls.len() as int) =~= ls);
    assert(scanned_lines(ls, id) == ls);
    assert(!(exists|k: int| 0 <= k < ls.len() && opens_default_section(#[trigger] ls[k])));
}


/// A piece of a subrange holds only characters of the whole.
proof fn lemma_subrange_free(s: Seq<char>, a: int, b: int, c: char)
    requires
        0 <= a <= b <= s.len(),
        !s.contains(c),
    ensures
        !s.subrange(a, b).contains(c),
{
    if s.subrange(a, b).contains(c) {
        let m = choose|m: int| 0 <= m < b - a && s.subrange(a, b)[m] == c;
        assert(s[a + m] == c);
    }
}

/// The pieces of a text without `c` hold no `c`.
proof fn lemma_pieces_free_of(s: Seq<char>, sep: char, c: char, i: int)
    requires
        0 <= i,
        !s.contains(c),
    ensures
        forall|k: int| 0 <= k < split_from(s, sep, i).len() ==> !(#[trigger] split_from(s, sep, i)[k]).contains(c),
    decreases s.len() - i,
{
    if i <= s.len() {
        lemma_find_from(s, sep, i);
        let j = find_from(s, sep, i);
        lemma_subrange_free(s, i, j, c);
        if j < s.len() {
            lemma_pieces_free_of(s, sep, c, j + 1);
            let rest = split_from(s, sep, j + 1);
            assert forall|k: int| 0 <= k < split_from(s, sep, i).len() implies !(#[trigger] split_from(
                s,
                sep,
                i,
            )[k]).contains(c) by {
                if k > 0 {
                    assert(split_from(s, sep, i)[k] == rest[k - 1]);
                }
            }
        }
    }
}

/// Pieces without `c`, each followed by `t` other than `c`, hold no `c`.
proof fn lemma_terminated_free(es: Seq<Seq<char>>, t: char, c: char)
    requires
        t != c,
        forall|k: int| 0 <= k < es.len() ==> !(#[trigger] es[k]).contains(c),
    ensures
        !terminated(es, t).contains(c),
    decreases es.len(),
{
    if es.len() > 0 {
        let front = es.drop_last();
        assert forall|k: int| 0 <= k < front.len() implies !(#[trigger] front[k]).contains(c) by {
            assert(front[k] == es[k]);
        }
        lemma_terminated_free(front, t, c);
        let e = es.last();
        assert(!e.contains(c)) by {
            assert(e == es[es.len() - 1]);
        }
        let r = terminated(es, t);
        assert(r == terminated(front, t) + e.push(t));
        if r.contains(c) {
            let m = choose|m: int| 0 <= m < r.len() && r[m] == c;
            let f = terminated(front, t);
            if m < f.len() {
                assert(f[m] == c);
            } else if m < f.len() + e.len() {
                assert(e[m - f.len()] == c);
            }
        }
    }
}

/// Without white space at its end a text trims to the same as with one
/// trailing white-space character more.
proof fn lemma_skip_ws_drop(s: Seq<char>, i: int)
    requires
        s.len() > 0,
        is_ws(s.last()),
        0 <= i <= s.len() - 1,
    ensures
        skip_ws(s.drop_last(), i) == if skip_ws(s, i) < s.len() - 1 {
            skip_ws(s, i)
        } else {
            s.len() - 1
        },
    decreases s.len() - i,
{
    let d = s.drop_last();
    if i < d.len() {
        assert(d[i] == s[i]);
        if is_ws(s[i]) {
            lemma_skip_ws_drop(s, i + 1);
        }
    } else {
        assert(skip_ws(s, i + 1) == i + 1);
    }
}

proof fn lemma_skip_ws_back_drop(s: Seq<char>, j: int)
    requires
        s.len() > 0,
        0 <= j <= s.len() - 1,
    ensures
        skip_ws_back(s.drop_last(), j) == skip_ws_back(s, j),
    decreases j,
{
    if j > 0 {
        assert(s.drop_last()[j - 1] == s[j - 1]);
        lemma_skip_ws_back_drop(s, j - 1);
    }
}

proof fn lemma_skip_ws_back_bounds(s: Seq<char>, j: int)
    requires
        0 <= j,
    ensures
        0 <= skip_ws_back(s, j) <= j,
    decreases j,
{
    if j > 0 && is_ws(s[j - 1]) {
        lemma_skip_ws_back_bounds(s, j - 1);
    }
}

proof fn lemma_skip_ws_bounds(s: Seq<char>, i: int)
    ensures
        i <= skip_ws(s, i),
    decreases s.len() - i,
{
    if i < s.len() && is_ws(s[i]) {
        lemma_skip_ws_bounds(s, i + 1);
    }
}

/// Dropping one trailing white-space character leaves the trimmed text.
proof fn lemma_trim_drop_ws(s: Seq<char>)
    requires
        s.len() > 0,
        is_ws(s.last()),
    ensures
        trim(s.drop_last()) == trim(s),
{
    let d = s.drop_last();
    lemma_skip_ws_drop(s, 0);
    lemma_skip_ws_back_drop(s, d.len() as int);
    assert(skip_ws_back(s, s.len() as int) == skip_ws_back(s, d.len() as int));
    lemma_skip_ws_back_bounds(s, d.len() as int);
    lemma_skip_ws_bounds(s, 0);
    let a = skip_ws(s, 0);
    let b = skip_ws_back(s, s.len() as int);
    if a < b {
        assert(d.subrange(a, b) =~= s.subrange(a, b));
    }
}

/// A purged line holds no `\n` when its input line holds none, and it ends
/// with `\r` only when it is the input line, a header or no assignment.
proof fn lemma_purge_line_shape(line: Seq<char>, section: Option<Seq<char>>, id: Seq<char>)
    requires
        !line.contains('\n'),
    ensures
        purge_line(line, section, id) matches Some(l) ==> {
            &&& !l.contains('\n')
            &&& ends_with_cr(l) ==> (l == line && (is_header(trim(line)) || split_once(line, '=') is None))
        },
{
    if !is_header(trim(line)) {
        if let Some((key, value)) = split_once(line, '=') {
            lemma_find_from(line, '=', 0);
            let j = find_from(line, '=', 0);
            lemma_subrange_free(line, 0, j, '\n');
            lemma_subrange_free(line, j + 1, line.len() as int, '\n');
            let es = kept_entries(value, id);
            let pieces = split_on(value, ';');
            let pred = entry_kept(id);
            lemma_pieces_free_of(value, ';', '\n', 0);
            assert forall|k: int| 0 <= k < es.len() implies !(#[trigger] es[k]).contains('\n') by {
                pieces.lemma_filter_contains_rev(pred, es[k]);
                let m = choose|m: int| 0 <= m < pieces.len() && pieces[m] == es[k];
            }
            let kp = key.push('=');
            assert(!kp.contains('\n')) by {
                if kp.contains('\n') {
                    let m = choose|m: int| 0 <= m < kp.len() && kp[m] == '\n';
                    assert(key[m] == '\n');
                }
            }
            if es.len() > 0 {
                lemma_terminated_free(es, ';', '\n');
                let tt = terminated(es, ';');
                let l = kp + tt;
                assert(tt == terminated(es.drop_last(), ';') + es.last().push(';'));
                assert(l.last() == ';');
                assert(!l.contains('\n')) by {
                    if l.contains('\n') {
                        let m = choose|m: int| 0 <= m < l.len() && l[m] == '\n';
                        if m < kp.len() {
                            assert(kp[m] == '\n');
                        } else {
                            assert(tt[m - kp.len()] == '\n');
                        }
                    }
                }
            } else {
                assert(kp.last() == '=');
            }
        }
    }
}

/// The lines read back from rendered lines without `\n`: each is empty or
/// one of the lines, perhaps without a trailing `\r`.
proof fn lemma_read_back_lines(out: Seq<Seq<char>>, input: Seq<char>)
    requires
        forall|k: int| 0 <= k < out.len() ==> !(#[trigger] out[k]).contains('\n'),
    ensures
        forall|j: int| 0 <= j < lines(render(out, input)).len() ==> {
            let l = #[trigger] lines(render(out, input))[j];
            l.len() == 0 || exists|k: int| 0 <= k < out.len() && (l == out[k] || l == strip_cr(out[k]))
        },
{
    let r = lines(render(out, input));
    let empty: Seq<char> = seq![];
    assert(lines(empty) =~= seq![]);
    if out.len() == 0 {
        assert(join_with(out, seq!['\n']) =~= empty);
        if ends_with_lf(input) {
            assert(render(out, input) =~= empty.push('\n') + empty);
            lemma_lines_piece(empty, empty);
            assert(r =~= seq![strip_cr(empty)]);
        }
    } else {
        lemma_join_terminated(out);
        let init = out.drop_last();
        lemma_lines_terminated_any(init, out.last());
        let x = out.last();
        assert(!x.contains('\n')) by {
            assert(x == out[out.len() - 1]);
        }
        if ends_with_lf(input) {
            assert(init.push(out.last()) =~= out);
            assert(terminated(out, '\n') =~= terminated(init, '\n') + out.last().push('\n'));
            assert(render(out, input) =~= terminated(out, '\n') + empty);
            lemma_lines_terminated_any(out, empty);
            assert forall|j: int| 0 <= j < r.len() implies {
                let l = #[trigger] r[j];
                l.len() == 0 || exists|k: int| 0 <= k < out.len() && (l == out[k] || l == strip_cr(out[k]))
            } by {
                assert(r[j] == strip_cr(out[j]));
            }
        } else {
            assert(render(out, input) == terminated(init, '\n') + x);
            let tail = lines(x);
            if x.len() > 0 {
                lemma_lines_single(x);
            } else {
                assert(tail =~= seq![]);
            }
            assert forall|j: int| 0 <= j < r.len() implies {
                let l = #[trigger] r[j];
                l.len() == 0 || exists|k: int| 0 <= k < out.len() && (l == out[k] || l == strip_cr(out[k]))
            } by {
                if j < init.len() {
                    assert(r[j] == strip_cr(init[j]));
                    assert(init[j] == out[j]);
                } else {
                    assert(r[j] == x);
                    assert(x == out[out.len() - 1]);
                }
            }
        }
    }
}

/// Reading back lines each followed by `\n` gives those lines, each
/// without one trailing `\r`.
proof fn lemma_lines_terminated_any(ps: Seq<Seq<char>>, t: Seq<char>)
    requires
        forall|k: int| 0 <= k < ps.len() ==> !(#[trigger] ps[k]).contains('\n'),
    ensures
        lines(terminated(ps, '\n') + t) == ps.map_values(|l: Seq<char>| strip_cr(l)) + lines(t),
    decreases ps.len(),
{
    if ps.len() == 0 {
        assert(terminated(ps, '\n') + t =~= t);
        assert(ps.map_values(|l: Seq<char>| strip_cr(l)) + lines(t) =~= lines(t));
    } else {
        lemma_terminated_front(ps, '\n');
        let rest = ps.drop_first();
        assert forall|k: int| 0 <= k < rest.len() implies !(#[trigger] rest[k]).contains('\n') by {
            assert(rest[k] == ps[k + 1]);
        }
        lemma_lines_terminated_any(rest, t);
        assert(!ps[0].contains('\n'));
        assert(terminated(ps, '\n') + t =~= ps[0].push('\n') + (terminated(rest, '\n') + t));
        lemma_lines_piece(ps[0], terminated(rest, '\n') + t);
        assert(ps.map_values(|l: Seq<char>| strip_cr(l)) =~= seq![strip_cr(ps[0])] + rest.map_values(
            |l: Seq<char>| strip_cr(l),
        ));
        assert(ps.map_values(|l: Seq<char>| strip_cr(l)) + lines(t) =~= seq![strip_cr(ps[0])] + (
        rest.map_values(|l: Seq<char>| strip_cr(l)) + lines(t)));
    }
}

/// Purging leaves no reference to `id`: in every line of the purged text
/// that is an assignment outside a section header, no `;`-separated entry
/// of the value is `id` (for a non-empty `id`).
pub proof fn purge_leaves_no_reference(contents: Seq<char>, id: Seq<char>)
    requires
        id.len() > 0,
    ensures
        forall|j: int|
            0 <= j < lines(purged_text(contents, id)).len() ==> clean_of(
                #[trigger] lines(purged_text(contents, id))[j],
                id,
            ),
{
    let ls = lines(contents);
    let out = purged_lines(ls, id);
    let f = |o: Option<Seq<char>>| o;
    let mapped = ls.map(|i: int, l: Seq<char>| purge_line(l, section_before(ls, i), id));
    lemma_purged_lines_clean(contents, id);
    lemma_lines_free(contents, 0);
    assert forall|k: int| 0 <= k < out.len() implies {
        &&& !(#[trigger] out[k]).contains('\n')
        &&& clean_of(strip_cr(out[k]), id)
    } by {
        assert(out.contains(out[k]));
        mapped.lemma_filter_map_contains(f, out[k]);
        let t = choose|t: Option<Seq<char>>| #[trigger] mapped.contains(t) && f(t) == Some(out[k]);
        let i = choose|i: int| 0 <= i < mapped.len() && mapped[i] == t;
        lemma_purge_line_shape(ls[i], section_before(ls, i), id);
        let l = out[k];
        assert(clean_of(l, id));
        if ends_with_cr(l) {
            let d = l.drop_last();
            assert(strip_cr(l) == d);
            if is_header(trim(l)) {
                assert(is_ws(l.last()));
                lemma_trim_drop_ws(l);
            } else {
                assert(split_once(l, '=') is None);
                lemma_find_from(l, '=', 0);
                lemma_find_from(d, '=', 0);
                if find_from(d, '=', 0) < d.len() {
                    assert(l[find_from(d, '=', 0)] == '=');
                }
            }
        }
    }
    lemma_read_back_lines(out, contents);
    let r = lines(purged_text(contents, id));
    assert forall|j: int| 0 <= j < r.len() implies clean_of(#[trigger] r[j], id) by {
        let l = r[j];
        if l.len() > 0 {
            let k = choose|k: int| 0 <= k < out.len() && (l == out[k] || l == strip_cr(out[k]));
            assert(clean_of(out[k], id));
            assert(clean_of(strip_cr(out[k]), id));
        } else {
            let empty: Seq<char> = seq![];
            assert(l =~= empty);
            lemma_find_from(empty, '=', 0);
        }
    }
}


/// Purging keeps every other entry of an assignment: the value of the
/// purged line lists exactly the non-empty `;`-separated entries of the
/// original value other than `id`, in their order, each followed by `;`;
/// the key stays as it is.
pub proof fn purge_keeps_other_entries(line: Seq<char>, section: Option<Seq<char>>, id: Seq<char>)
    requires
        !is_header(trim(line)),
        split_once(line, '=') matches Some((key, value)) && split_on(value, ';').filter(
            |e: Seq<char>| e.len() > 0 && e != id,
        ).len() > 0,
    ensures
        split_once(line, '=') matches Some((key, value)) ==> (purge_line(line, section, id) matches Some(l)
            && split_once(l, '=') matches Some((k, v)) && k == key && split_on(v, ';') == split_on(
            value,
            ';',
        ).filter(|e: Seq<char>| e.len() > 0 && e != id).push(Seq::<char>::empty())),
{
    let (key, value) = match split_once(line, '=') {
        Some(kv) => kv,
        None => (seq![], seq![]),
    };
    let pieces = split_on(value, ';');
    let kept = pieces.filter(|e: Seq<char>| e.len() > 0 && e != id);
    assert(entry_kept(id) == (|e: Seq<char>| e.len() > 0 && e != id));
    let es = kept_entries(value, id);
    assert(es == kept);
    lemma_split_once_key_free(line, '=');
    lemma_split_pieces_free(value, ';', 0);
    assert forall|k: int| 0 <= k < es.len() implies !(#[trigger] es[k]).contains(';') by {
        pieces.lemma_filter_contains_rev(entry_kept(id), es[k]);
        let m = choose|m: int| 0 <= m < pieces.len() && pieces[m] == es[k];
    }
    lemma_split_once_assignment(key, terminated(es, ';'));
    lemma_split_terminated(es, seq![], ';');
    assert(terminated(es, ';') + seq![] =~= terminated(es, ';'));
    let empty: Seq<char> = Seq::empty();
    lemma_find_from(empty, ';', 0);
    assert(empty.subrange(0, 0) =~= empty);
    assert(split_on(empty, ';') =~= seq![empty]);
    assert(es + seq![empty] =~= es.push(empty));
}


/// The first element of a filter is the first element that passes.
proof fn lemma_filter_first(s: Seq<Seq<char>>, p: spec_fn(Seq<char>) -> bool, k: int)
    requires
        0 <= k < s.len(),
        p(s[k]),
        forall|j: int| 0 <= j < k ==> !p(#[trigger] s[j]),
    ensures
        s.filter(p).len() > 0,
        s.filter(p)[0] == s[k],
    decreases s.len(),
{
    reveal_with_fuel(Seq::filter, 1);
    let init = s.drop_last();
    if k == s.len() - 1 {
        assert forall|j: int| 0 <= j < init.len() implies !p(#[trigger] init[j]) by {
            assert(init[j] == s[j]);
        }
        assert(init.filter(p).len() == 0) by {
            if init.filter(p).len() > 0 {
                init.lemma_filter_contains_rev(p, init.filter(p)[0]);
                assert(init.filter(p).contains(init.filter(p)[0]));
                init.lemma_filter_pred(p, 0);
                let m = choose|m: int| 0 <= m < init.len() && init[m] == init.filter(p)[0];
            }
        }
        assert(s.last() == s[k]);
    } else {
        assert(init[k] == s[k]);
        assert forall|j: int| 0 <= j < k implies !p(#[trigger] init[j]) by {
            assert(init[j] == s[j]);
        }
        lemma_filter_first(init, p, k);
    }
}

/// A desktop entry that does not launch `flatpak` runs its command word as
/// written: the target is the first word of the value that is not a `%`
/// field code, unchanged (a path stays a path).
pub proof fn exec_command_is_first_word(v: Seq<char>, k: int)
    requires
        0 <= k < words(v).len(),
        !(words(v)[k].len() > 0 && words(v)[k][0] == '%'),
        forall|j: int| 0 <= j < k ==> (#[trigger] words(v)[j]).len() > 0 && words(v)[j][0] == '%',
    ensures
        file_name_of(words(v)[k]) matches Some(b) && b != "flatpak"@ ==> exec_target_of(v) == Some(
            (false, words(v)[k]),
        ),
{
    let p = |w: Seq<char>| !(w.len() > 0 && w[0] == '%');
    lemma_filter_first(words(v), p, k);
    assert(exec_words(v) == words(v).filter(p));
}


proof fn lemma_run_index(ws: Seq<Seq<char>>, i: int, k: int)
    requires
        0 <= i <= k < ws.len(),
        ws[k] == "run"@,
        forall|j: int| i <= j < k ==> #[trigger] ws[j] != "run"@,
    ensures
        run_index(ws, i) == k,
    decreases k - i,
{
    if i < k {
        lemma_run_index(ws, i + 1, k);
    }
}

proof fn lemma_first_non_option(ws: Seq<Seq<char>>, i: int, a: int)
    requires
        0 <= i <= a < ws.len(),
        !(ws[a].len() > 0 && ws[a][0] == '-'),
        forall|j: int| i <= j < a ==> (#[trigger] ws[j]).len() > 0 && ws[j][0] == '-',
    ensures
        first_non_option(ws, i) == a,
    decreases a - i,
{
    if i < a {
        lemma_first_non_option(ws, i + 1, a);
    }
}

/// A desktop entry that launches `flatpak ... run [options] <app-id>` runs
/// the Flatpak application named by the first word after the first `run`
/// that is not an option (options start with `-`); field codes are ignored.
pub proof fn exec_flatpak_app_after_options(v: Seq<char>, k: int, a: int)
    requires
        0 < k < a < exec_words(v).len(),
        exec_words(v)[k] == "run"@,
        forall|j: int| 0 <= j < k ==> #[trigger] exec_words(v)[j] != "run"@,
        forall|j: int| k < j < a ==> (#[trigger] exec_words(v)[j]).len() > 0 && exec_words(v)[j][0] == '-',
        !(exec_words(v)[a].len() > 0 && exec_words(v)[a][0] == '-'),
    ensures
        file_name_of(exec_words(v)[0]) == Some("flatpak"@) ==> exec_target_of(v) == Some(
            (true, "flatpak:"@ + exec_words(v)[a]),
        ),
{
    let ws = exec_words(v);
    lemma_run_index(ws, 0, k);
    lemma_first_non_option(ws, k + 1, a);
}

} // verus!
