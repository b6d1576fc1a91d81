//! Browser paths: their file names and the human-readable browser names
//! shown for them.
use vstd::prelude::*;
use vstd::string::*;
use crate::text::{
    ascii_lower, ascii_lowercase, chars_of, contains, has_infix, has_prefix, has_suffix,
    occurs_at_exec, slice_chars, starts_with, string_from_chars,
};

verus! {

/// The last component of a path, as `std::path::Path::file_name` gives it.
pub uninterp spec fn file_name_of(path: Seq<char>) -> Option<Seq<char>>;

/// `Path::new(path).file_name()` as a string. The contract names the result;
/// it depends on the path text alone.
#[verifier::external_body]
pub(crate) fn path_file_name(path: &str) -> (r: Option<String>)
    ensures
        match r {
            Some(n) => file_name_of(path@) == Some(n@),
            None => file_name_of(path@) is None,
        },
{
    std::path::Path::new(path).file_name().and_then(|n| n.to_str()).map(|n| n.to_string())
}

/// `str::trim_end_matches(p)`: `s` with every trailing repetition of `p`
/// removed.
pub open spec fn strip_suffixes(s: Seq<char>, p: Seq<char>) -> Seq<char>
    decreases s.len(),
{
    if p.len() > 0 && has_suffix(s, p) {
        strip_suffixes(s.subrange(0, s.len() - p.len()), p)
    } else {
        s
    }
}

/// `str::trim_end_matches(p)` on characters.
pub fn trim_end_matches(s: &[char], p: &[char]) -> (r: Vec<char>)
    ensures
        r@ == strip_suffixes(s@, p@),
{
    let mut end = s.len();
    assert(s@.subrange(0, end as int) =~= s@);
    while p.len() > 0 && end >= p.len() && occurs_at_exec(s, p, end - p.len())
        invariant
            end <= s@.len(),
            strip_suffixes(s@, p@) == strip_suffixes(s@.subrange(0, end as int), p@),
        decreases end,
    {
        let ghost t = s@.subrange(0, end as int);
        assert(t.subrange(t.len() - p@.len(), t.len() as int) =~= s@.subrange(
            end - p@.len(),
            end as int,
        ));
        assert(t.subrange(0, t.len() - p@.len()) =~= s@.subrange(0, end - p@.len()));
        end = end - p.len();
    }
    proof {
        let t = s@.subrange(0, end as int);
        if p@.len() > 0 && end >= p@.len() {
            assert(t.subrange(t.len() - p@.len(), t.len() as int) =~= s@.subrange(
                end - p@.len(),
                end as int,
            ));
        }
    }
    slice_chars(s, 0, end)
}

/// The lowercase executable name of a browser path: its file name without
/// any trailing `.exe`, ASCII-lowercased.
pub open spec fn executable_key(path: Seq<char>) -> Option<Seq<char>> {
    match file_name_of(path) {
        Some(n) => Some(ascii_lower(strip_suffixes(n, ".exe"@))),
        None => None,
    }
}

/// The executable name a browser path stands for, or `None` for a Flatpak
/// application (`flatpak:<app-id>`) and for a path without a file name.
pub open spec fn executable_basename_of(path: Seq<char>) -> Option<Seq<char>> {
    if has_prefix(path, "flatpak:"@) {
        None
    } else {
        executable_key(path)
    }
}

/// The lowercase executable name of a browser path; `None` for a Flatpak
/// application ID and for a path without a file name.
pub fn executable_basename(browser_path: &str) -> (r: Option<String>)
    ensures
        match r {
            Some(b) => executable_basename_of(browser_path@) == Some(b@),
            None => executable_basename_of(browser_path@) is None,
        },
{
    let p = chars_of(browser_path);
    let flatpak = chars_of("flatpak:");
    if starts_with(p.as_slice(), flatpak.as_slice()) {
        return None;
    }
    match key_of_path(browser_path) {
        Some(k) => Some(string_from_chars(k.as_slice())),
        None => None,
    }
}

fn key_of_path(path: &str) -> (r: Option<Vec<char>>)
    ensures
        match r {
            Some(k) => executable_key(path@) == Some(k@),
            None => executable_key(path@) is None,
        },
{
    match path_file_name(path) {
        Some(n) => {
            let cs = chars_of(n.as_str());
            let exe = chars_of(".exe");
            let stripped = trim_end_matches(cs.as_slice(), exe.as_slice());
            Some(ascii_lowercase(stripped.as_slice()))
        },
        None => None,
    }
}

/// The keywords that identify a browser, in the order they are tried.
pub open spec fn name_keywords() -> Seq<Seq<char>> {
    seq![
        "firefox"@,
        "librewolf"@,
        "floorp"@,
        "waterfox"@,
        "chromium"@,
        "chrome"@,
        "brave"@,
        "edge"@,
        "opera"@,
        "vivaldi"@,
        "thorium"@,
    ]
}

/// The browser name for each keyword.
pub open spec fn name_labels() -> Seq<Seq<char>> {
    seq![
        "Mozilla Firefox"@,
        "LibreWolf"@,
        "Floorp"@,
        "Waterfox"@,
        "Chromium"@,
        "Google Chrome"@,
        "Brave"@,
        "Microsoft Edge"@,
        "Opera"@,
        "Vivaldi"@,
        "Thorium"@,
    ]
}

/// The label of the first keyword, from position `i` on, that `key` holds.
pub open spec fn label_from(key: Seq<char>, i: int) -> Option<Seq<char>>
    decreases name_keywords().len() - i,
{
    if i < 0 || i >= name_keywords().len() {
        None
    } else if has_infix(key, name_keywords()[i]) {
        Some(name_labels()[i])
    } else {
        label_from(key, i + 1)
    }
}

/// The name shown for a browser path: the name of the first known browser
/// whose keyword the lowercase executable name (or Flatpak application ID)
/// contains; otherwise that application ID, the file name, or the path.
pub open spec fn browser_name_of(path: Seq<char>) -> Seq<char> {
    if has_prefix(path, "flatpak:"@) {
        let app = path.subrange(8, path.len() as int);
        match label_from(ascii_lower(app), 0) {
            Some(l) => l,
            None => app,
        }
    } else {
        match file_name_of(path) {
            Some(n) => match label_from(ascii_lower(strip_suffixes(n, ".exe"@)), 0) {
                Some(l) => l,
                None => n,
            },
            None => path,
        }
    }
}

fn label_of(key: &[char]) -> (r: Option<String>)
    ensures
        match r {
            Some(l) => label_from(key@, 0) == Some(l@),
            None => label_from(key@, 0) is None,
        },
{
    let keywords: [&str; 11] = [
        "firefox",
        "librewolf",
        "floorp",
        "waterfox",
        "chromium",
        "chrome",
        "brave",
        "edge",
        "opera",
        "vivaldi",
        "thorium",
    ];
    let labels: [&str; 11] = [
        "Mozilla Firefox",
        "LibreWolf",
        "Floorp",
        "Waterfox",
        "Chromium",
        "Google Chrome",
        "Brave",
        "Microsoft Edge",
        "Opera",
        "Vivaldi",
        "Thorium",
    ];
    assert(keywords@.map_values(|s: &str| s@) =~= name_keywords());
    assert(labels@.map_values(|s: &str| s@) =~= name_labels());
    let mut i: usize = 0;
    while i < 11
        invariant
            i <= 11,
            keywords@.map_values(|s: &str| s@) == name_keywords(),
            labels@.map_values(|s: &str| s@) == name_labels(),
            label_from(key@, 0) == label_from(key@, i as int),
        decreases 11 - i,
    {
        let kw = chars_of(keywords[i]);
        assert(kw@ == name_keywords()[i as int]);
        if contains(key, kw.as_slice()) {
            assert(labels[i as int]@ == name_labels()[i as int]);
            return Some(labels[i].to_owned());
        }
        i += 1;
    }
    None
}

/// Human-readable name of a browser path (a file path, or `flatpak:<app-id>`).
pub fn get_browser_name_from_path(path: &str) -> (r: String)
    ensures
        r@ == browser_name_of(path@),
{
    let p = chars_of(path);
    let flatpak = chars_of("flatpak:");
    proof {
        reveal_strlit("flatpak:");
    }
    if starts_with(p.as_slice(), flatpak.as_slice()) {
        let app = slice_chars(p.as_slice(), 8, p.len());
        let key = ascii_lowercase(app.as_slice());
        match label_of(key.as_slice()) {
            Some(l) => l,
            None => string_from_chars(app.as_slice()),
        }
    } else {
        match path_file_name(path) {
            Some(n) => {
                let cs = chars_of(n.as_str());
                let exe = chars_of(".exe");
                let stripped = trim_end_matches(cs.as_slice(), exe.as_slice());
                let key = ascii_lowercase(stripped.as_slice());
                match label_of(key.as_slice()) {
                    Some(l) => l,
                    None => n,
                }
            },
            None => path.to_owned(),
        }
    }
}

} // verus!
