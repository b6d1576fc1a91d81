//! The browser chooser dialog's logic: its outcome and the labels of its
//! browser buttons.
use vstd::prelude::*;
use vstd::string::*;
use crate::names::{browser_name_of, get_browser_name_from_path};
use crate::profiles::string_views;
use crate::text::{chars_of, has_prefix, starts_with};

verus! {

/// What the chooser ended with.
#[derive(Debug)]
pub enum GuiChooserOutcome {
    /// A browser was picked; `save_rule` asks to remember it for the site.
    Selected { browser_path: String, save_rule: bool },
    /// The user cancelled.
    Cancelled,
    /// The chooser could not be shown.
    Unavailable,
}

/// The outcome of clicking the browser button at `index` (the dialog's
/// `int`): the browser at that position, or `None` for an index outside the
/// list.
pub fn browser_selected_outcome(browsers: &[String], index: i32, save_rule: bool) -> (r: Option<
    GuiChooserOutcome,
>)
    ensures
        match r {
            Some(GuiChooserOutcome::Selected { browser_path, save_rule: s }) => 0 <= index
                < browsers@.len() && browser_path@ == browsers@[index as int]@ && s == save_rule,
            Some(_) => false,
            None => !(0 <= index < browsers@.len()),
        },
{
    if index < 0 {
        return None;
    }
    let i = index as usize;
    if i < browsers.len() {
        Some(GuiChooserOutcome::Selected { browser_path: browsers[i].clone(), save_rule })
    } else {
        None
    }
}

/// Longest button label, in characters (buttons neither wrap nor elide
/// their text).
pub const MAX_DISPLAY_NAME_LEN: usize = 60;

/// A label cut to at most 60 characters, keeping its tail (the most
/// distinguishing part of a path) after a leading `…`.
pub open spec fn truncated(name: Seq<char>) -> Seq<char> {
    if name.len() <= MAX_DISPLAY_NAME_LEN {
        name
    } else {
        seq!['\u{2026}'] + name.subrange(name.len() - (MAX_DISPLAY_NAME_LEN - 1), name.len() as int)
    }
}

/// Cuts an overly long name, keeping its tail.
pub fn truncate_display_name(name: &str) -> (r: String)
    ensures
        r@ == truncated(name@),
{
    let n = name.unicode_len();
    if n <= MAX_DISPLAY_NAME_LEN {
        return name.to_owned();
    }
    let tail = name.substring_char(n - (MAX_DISPLAY_NAME_LEN - 1), n);
    let ellipsis = "\u{2026}";
    proof {
        reveal_strlit("\u{2026}");
    }
    let r = ellipsis.to_owned().concat(tail);
    assert(r@ =~= truncated(name@));
    r
}

/// How many times `x` occurs in `s`.
pub open spec fn occurrences(s: Seq<Seq<char>>, x: Seq<char>) -> nat
    decreases s.len(),
{
    if s.len() == 0 {
        0
    } else {
        occurrences(s.drop_last(), x) + if s.last() == x {
            1nat
        } else {
            0nat
        }
    }
}

/// The label of the browser at `i`: its name, marked ` (Flatpak)` for a
/// Flatpak application, followed by ` (<path>)` when another browser has
/// the same name, and cut to the maximum length.
pub open spec fn display_label(bs: Seq<Seq<char>>, i: int) -> Seq<char> {
    let names = bs.map_values(|b: Seq<char>| browser_name_of(b));
    let name = names[i];
    let base = if has_prefix(bs[i], "flatpak:"@) {
        name + " (Flatpak)"@
    } else {
        name
    };
    let full = if occurrences(names, name) > 1 {
        base + " ("@ + bs[i] + ")"@
    } else {
        base
    };
    truncated(full)
}

/// The labels of all browsers.
pub open spec fn display_labels(bs: Seq<Seq<char>>) -> Seq<Seq<char>> {
    Seq::new(bs.len(), |i: int| display_label(bs, i))
}

fn count_of(names: &Vec<String>, x: &String) -> (r: usize)
    ensures
        r == occurrences(string_views(names@), x@),
{
    let ghost ns = string_views(names@);
    let mut c: usize = 0;
    let mut i: usize = 0;
    while i < names.len()
        invariant
            i <= names@.len(),
            ns == string_views(names@),
            c == occurrences(ns.subrange(0, i as int), x@),
            c <= i,
        decreases names@.len() - i,
    {
        assert(ns.subrange(0, i + 1).drop_last() =~= ns.subrange(0, i as int));
        if names[i] == *x {
            c += 1;
        }
        i += 1;
    }
    assert(ns.subrange(0, names@.len() as int) =~= ns);
    c
}

/// Button labels for the browsers, telling apart browsers of the same name
/// by their path.
pub fn browser_display_names(browsers: &[String]) -> (r: Vec<String>)
    ensures
        string_views(r@) == display_labels(string_views(browsers@)),
{
    let ghost bs = string_views(browsers@);
    let mut names: Vec<String> = Vec::new();
    let mut i: usize = 0;
    while i < browsers.len()
        invariant
            i <= browsers@.len(),
            bs == string_views(browsers@),
            string_views(names@) == bs.subrange(0, i as int).map_values(
                |b: Seq<char>| browser_name_of(b),
            ),
        decreases browsers@.len() - i,
    {
        let ghost before = string_views(names@);
        let nm = get_browser_name_from_path(browsers[i].as_str());
        names.push(nm);
        assert(string_views(names@) =~= before.push(nm@));
        assert(string_views(names@) =~= bs.subrange(0, i + 1).map_values(
            |b: Seq<char>| browser_name_of(b),
        ));
        i += 1;
    }
    assert(bs.subrange(0, browsers@.len() as int) =~= bs);
    let ghost ns = string_views(names@);
    let flatpak = chars_of("flatpak:");
    let mut r: Vec<String> = Vec::new();
    let mut i: usize = 0;
    while i < browsers.len()
        invariant
            i <= browsers@.len(),
            names@.len() == browsers@.len(),
            bs == string_views(browsers@),
            ns == string_views(names@),
            ns == bs.map_values(|b: Seq<char>| browser_name_of(b)),
            flatpak@ == "flatpak:"@,
            string_views(r@) == display_labels(bs).subrange(0, i as int),
        decreases browsers@.len() - i,
    {
        let path = &browsers[i];
        let name = &names[i];
        let p = chars_of(path.as_str());
        let base = if starts_with(p.as_slice(), flatpak.as_slice()) {
            name.clone().concat(" (Flatpak)")
        } else {
            name.clone()
        };
        let full = if count_of(&names, name) > 1 {
            base.concat(" (").concat(path.as_str()).concat(")")
        } else {
            base
        };
        let label = truncate_display_name(full.as_str());
        let ghost before = string_views(r@);
        r.push(label);
        assert(label@ == display_label(bs, i as int));
        assert(string_views(r@) =~= before.push(label@));
        assert(string_views(r@) =~= display_labels(bs).subrange(0, i + 1));
        i += 1;
    }
    assert(display_labels(bs).subrange(0, browsers@.len() as int) =~= display_labels(bs));
    r
}

/// Every button label fits the button: at most 60 characters.
pub proof fn labels_fit_buttons(bs: Seq<Seq<char>>, i: int)
    requires
        0 <= i < bs.len(),
    ensures
        display_labels(bs)[i].len() <= MAX_DISPLAY_NAME_LEN,
{
}

/// A cut label keeps the tail of the name: what follows the leading `…` is
/// a suffix of the name.
pub proof fn truncation_keeps_tail(name: Seq<char>)
    requires
        name.len() > MAX_DISPLAY_NAME_LEN,
    ensures
        truncated(name).len() == MAX_DISPLAY_NAME_LEN,
        truncated(name)[0] == '\u{2026}',
        truncated(name).drop_first() == name.subrange(
            name.len() - (MAX_DISPLAY_NAME_LEN - 1),
            name.len() as int,
        ),
{
    assert(truncated(name).drop_first() =~= name.subrange(
        name.len() - (MAX_DISPLAY_NAME_LEN - 1),
        name.len() as int,
    ));
}

} // verus!
