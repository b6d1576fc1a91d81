//! Browser profiles: which browsers expose them, how they are read from a
//! browser's own profile store, how a profile is encoded onto a browser
//! path, and how a browser is launched with one.
use vstd::prelude::*;
use vstd::string::*;
use crate::names::{browser_name_of, executable_basename, executable_basename_of, get_browser_name_from_path};
use crate::json::{json_get, json_member, json_parse, parse_json, JsonValue};
use crate::order::{lemma_stable_sort_sorted, is_permutation, is_stable_sort_of, lemma_lex_total, lemma_lex_trans, lex_le, lex_le_exec};
use crate::text::{
    find_from, lemma_find_after_piece,
    chars_eq, chars_of, find_char, has_prefix, lemma_find_from, lines,
    split_lines, split_once, starts_with, string_from_chars, trim, trim_chars, views,
};

verus! {

/// A profile of an installed browser: the identifier the browser uses for
/// it and the name shown to the user.
#[derive(Debug, Clone, PartialEq, Eq)]
pub struct BrowserProfile {
    pub id: String,
    pub display_name: String,
}

impl View for BrowserProfile {
    type V = (Seq<char>, Seq<char>);

    open spec fn view(&self) -> (Seq<char>, Seq<char>) {
        (self.id@, self.display_name@)
    }
}

/// The views of a list of profiles.
pub open spec fn profile_views(v: Seq<BrowserProfile>) -> Seq<(Seq<char>, Seq<char>)> {
    v.map_values(|p: BrowserProfile| p@)
}

/// A section of a `profiles.ini` file as the scan builds it.
pub struct IniSection {
    pub is_profile: bool,
    pub name: Option<Seq<char>>,
    pub is_default: bool,
}

/// A trimmed `profiles.ini` line that opens a section.
pub open spec fn is_ini_header(t: Seq<char>) -> bool {
    t.len() > 0 && t[0] == '[' && t.last() == ']'
}

/// The profile entry a finished section contributes: its name and whether
/// it is marked default, for a profile section that has a name.
pub open spec fn section_entry(cur: Option<IniSection>) -> Seq<(Seq<char>, bool)> {
    match cur {
        Some(sec) => if sec.is_profile && sec.name is Some {
            seq![(sec.name->0, sec.is_default)]
        } else {
            seq![]
        },
        None => seq![],
    }
}

/// One line of a `profiles.ini` scan. A header finishes the open section and
/// opens a new one (a profile section when it starts with `[Profile`);
/// inside a section, `Name=` sets the name and `Default=` sets whether the
/// section is the default (value `1`), keys and values trimmed.
pub open spec fn ini_step(cur: Option<IniSection>, found: Seq<(Seq<char>, bool)>, line: Seq<char>) -> (
    Option<IniSection>,
    Seq<(Seq<char>, bool)>,
) {
    let t = trim(line);
    if is_ini_header(t) {
        (
            Some(
                IniSection { is_profile: has_prefix(t, "[Profile"@), name: None, is_default: false },
            ),
            found + section_entry(cur),
        )
    } else {
        match cur {
            Some(sec) => match split_once(t, '=') {
                Some((key, value)) => if trim(key) == "Name"@ {
                    (
                        Some(
                            IniSection {
                                is_profile: sec.is_profile,
                                name: Some(trim(value)),
                                is_default: sec.is_default,
                            },
                        ),
                        found,
                    )
                } else if trim(key) == "Default"@ {
                    (
                        Some(
                            IniSection {
                                is_profile: sec.is_profile,
                                name: sec.name,
                                is_default: trim(value) == "1"@,
                            },
                        ),
                        found,
                    )
                } else {
                    (cur, found)
                },
                None => (cur, found),
            },
            None => (cur, found),
        }
    }
}

/// The scan over the first `n` lines.
pub open spec fn ini_scan(ls: Seq<Seq<char>>, n: int) -> (Option<IniSection>, Seq<(Seq<char>, bool)>)
    decreases n,
{
    if n <= 0 {
        (None, seq![])
    } else {
        let (cur, found) = ini_scan(ls, n - 1);
        ini_step(cur, found, ls[n - 1])
    }
}

/// The named profile sections of a `profiles.ini` text, in file order.
pub open spec fn ini_entries(content: Seq<char>) -> Seq<(Seq<char>, bool)> {
    let ls = lines(content);
    let (cur, found) = ini_scan(ls, ls.len() as int);
    found + section_entry(cur)
}

/// Entries marked default first, the others after; each group in the order
/// of the file.
pub open spec fn default_first(es: Seq<(Seq<char>, bool)>) -> Seq<(Seq<char>, bool)> {
    es.filter(|e: (Seq<char>, bool)| e.1) + es.filter(|e: (Seq<char>, bool)| !e.1)
}

/// The profiles of a Firefox-family `profiles.ini`: one per named profile
/// section, with the name as both identifier and display name, the default
/// one(s) first and file order kept otherwise.
pub open spec fn gecko_profiles(content: Seq<char>) -> Seq<(Seq<char>, Seq<char>)> {
    default_first(ini_entries(content)).map_values(|e: (Seq<char>, bool)| (e.0, e.0))
}

/// A profile named `name` for both identifier and display name.
fn named_profile(name: &[char]) -> (r: BrowserProfile)
    ensures
        r@ == (name@, name@),
{
    BrowserProfile { id: string_from_chars(name), display_name: string_from_chars(name) }
}

/// Parses a Firefox-family `profiles.ini` (one `[ProfileN]` section per
/// profile with `Name=` and, on newer layouts, `Default=1`).
pub fn parse_profiles_ini(content: &str) -> (r: Vec<BrowserProfile>)
    ensures
        profile_views(r@) == gecko_profiles(content@),
{
    let cs = chars_of(content);
    let ls = split_lines(cs.as_slice());
    let ghost lv = views(ls@);
    let profile_tag = chars_of("[Profile");
    let name_key = chars_of("Name");
    let default_key = chars_of("Default");
    let one = chars_of("1");
    let mut found: Vec<(Vec<char>, bool)> = Vec::new();
    let mut open = false;
    let mut is_profile = false;
    let mut name: Option<Vec<char>> = None;
    let mut is_default = false;
    let mut i: usize = 0;
    while i < ls.len()
        invariant
            i <= ls@.len(),
            lv == views(ls@),
            lv == lines(content@),
            profile_tag@ == "[Profile"@,
            name_key@ == "Name"@,
            default_key@ == "Default"@,
            one@ == "1"@,
            ({
                let (cur, fs) = ini_scan(lv, i as int);
                &&& fs == found@.map_values(|e: (Vec<char>, bool)| (e.0@, e.1))
                &&& match cur {
                    Some(sec) => open && sec.is_profile == is_profile && sec.is_default
                        == is_default && match name {
                        Some(n) => sec.name == Some(n@),
                        None => sec.name is None,
                    },
                    None => !open,
                }
            }),
        decreases ls@.len() - i,
    {
        let t = trim_chars(ls[i].as_slice());
        let ghost prev = found@.map_values(|e: (Vec<char>, bool)| (e.0@, e.1));
        if t.len() > 0 && t[0] == '[' && t[t.len() - 1] == ']' {
            if open && is_profile {
                if let Some(n) = name {
                    found.push((n, is_default));
                    assert(found@.map_values(|e: (Vec<char>, bool)| (e.0@, e.1)) =~= prev.push(
                        (n@, is_default),
                    ));
                }
            }
            open = true;
            is_profile = starts_with(t.as_slice(), profile_tag.as_slice());
            name = None;
            is_default = false;
        } else if open {
            match split_once_chars(t.as_slice()) {
                Some((key, value)) => {
                    let k = trim_chars(key.as_slice());
                    if chars_eq(k.as_slice(), name_key.as_slice()) {
                        name = Some(trim_chars(value.as_slice()));
                    } else if chars_eq(k.as_slice(), default_key.as_slice()) {
                        let v = trim_chars(value.as_slice());
                        is_default = chars_eq(v.as_slice(), one.as_slice());
                    }
                },
                None => {},
            }
        }
        i += 1;
    }
    if open && is_profile {
        if let Some(n) = name {
            let ghost prev = found@.map_values(|e: (Vec<char>, bool)| (e.0@, e.1));
            found.push((n, is_default));
            assert(found@.map_values(|e: (Vec<char>, bool)| (e.0@, e.1)) =~= prev.push(
                (n@, is_default),
            ));
        }
    }
    let ghost es = found@.map_values(|e: (Vec<char>, bool)| (e.0@, e.1));
    assert(es == ini_entries(content@));
    let mut r: Vec<BrowserProfile> = Vec::new();
    let ghost pd = |e: (Seq<char>, bool)| e.1;
    let ghost pn = |e: (Seq<char>, bool)| !e.1;
    let mut j: usize = 0;
    while j < found.len()
        invariant
            j <= found@.len(),
            es == found@.map_values(|e: (Vec<char>, bool)| (e.0@, e.1)),
            pd == (|e: (Seq<char>, bool)| e.1),
            profile_views(r@) == es.subrange(0, j as int).filter(pd).map_values(
                |e: (Seq<char>, bool)| (e.0, e.0),
            ),
        decreases found@.len() - j,
    {
        let ghost before = profile_views(r@);
        assert(es.subrange(0, j + 1).drop_last() =~= es.subrange(0, j as int));
        reveal_with_fuel(Seq::filter, 1);
        if found[j].1 {
            r.push(named_profile(found[j].0.as_slice()));
            assert(profile_views(r@) =~= before.push((es[j as int].0, es[j as int].0)));
        }
        proof {
            assert(es.subrange(0, j + 1).filter(pd) == if pd(es[j as int]) {
                es.subrange(0, j as int).filter(pd).push(es[j as int])
            } else {
                es.subrange(0, j as int).filter(pd)
            });
        }
        assert(profile_views(r@) =~= es.subrange(0, j + 1).filter(pd).map_values(
            |e: (Seq<char>, bool)| (e.0, e.0),
        ));
        j += 1;
    }
    assert(es.subrange(0, es.len() as int) =~= es);
    let ghost firsts = profile_views(r@);
    let mut j: usize = 0;
    while j < found.len()
        invariant
            j <= found@.len(),
            es == found@.map_values(|e: (Vec<char>, bool)| (e.0@, e.1)),
            pn == (|e: (Seq<char>, bool)| !e.1),
            firsts == es.filter(pd).map_values(|e: (Seq<char>, bool)| (e.0, e.0)),
            profile_views(r@) == firsts + es.subrange(0, j as int).filter(pn).map_values(
                |e: (Seq<char>, bool)| (e.0, e.0),
            ),
        decreases found@.len() - j,
    {
        let ghost before = profile_views(r@);
        assert(es.subrange(0, j + 1).drop_last() =~= es.subrange(0, j as int));
        reveal_with_fuel(Seq::filter, 1);
        if !found[j].1 {
            r.push(named_profile(found[j].0.as_slice()));
            assert(profile_views(r@) =~= before.push((es[j as int].0, es[j as int].0)));
        }
        proof {
            assert(es.subrange(0, j + 1).filter(pn) == if pn(es[j as int]) {
                es.subrange(0, j as int).filter(pn).push(es[j as int])
            } else {
                es.subrange(0, j as int).filter(pn)
            });
        }
        assert(profile_views(r@) =~= firsts + es.subrange(0, j + 1).filter(pn).map_values(
            |e: (Seq<char>, bool)| (e.0, e.0),
        ));
        j += 1;
    }
    assert(profile_views(r@) =~= gecko_profiles(content@));
    r
}

/// `split_once('=')` on characters.
fn split_once_chars(s: &[char]) -> (r: Option<(Vec<char>, Vec<char>)>)
    ensures
        match r {
            Some((a, b)) => split_once(s@, '=') == Some((a@, b@)),
            None => split_once(s@, '=') is None,
        },
{
    let j = find_char(s, '=', 0);
    proof {
        lemma_find_from(s@, '=', 0);
    }
    if j < s.len() {
        Some((crate::text::slice_chars(s, 0, j), crate::text::slice_chars(s, j + 1, s.len())))
    } else {
        None
    }
}

/// The Unicode lowercase mapping of `str::to_lowercase`.
pub uninterp spec fn unicode_lowercase(s: Seq<char>) -> Seq<char>;

/// `str::to_lowercase`; the contract names its result, which depends on the
/// text alone.
#[verifier::external_body]
fn to_lowercase(s: &str) -> (r: String)
    ensures
        r@ == unicode_lowercase(s@),
{
    s.to_lowercase()
}

/// The members of `profile.info_cache` in a Chromium `Local State`
/// document, when that is an object.
pub open spec fn info_cache_members(doc: Option<JsonValue>) -> Option<Seq<(String, JsonValue)>> {
    match doc {
        Some(d) => match json_member(d, "profile"@) {
            Some(p) => match json_member(p, "info_cache"@) {
                Some(JsonValue::Object(ms)) => Some(ms@),
                _ => None,
            },
            None => None,
        },
        None => None,
    }
}

/// The profile an `info_cache` member describes: its key is the profile
/// directory, and its `name` is the display name when it is a non-empty
/// string (the directory otherwise).
pub open spec fn member_profile(m: (String, JsonValue)) -> (Seq<char>, Seq<char>) {
    let name = match json_member(m.1, "name"@) {
        Some(JsonValue::Str(s)) => if s@.len() > 0 {
            s@
        } else {
            m.0@
        },
        _ => m.0@,
    };
    (m.0@, name)
}

/// The profiles a `Local State` document lists, in member order.
pub open spec fn local_state_entries(doc: Option<JsonValue>) -> Seq<(Seq<char>, Seq<char>)> {
    match info_cache_members(doc) {
        Some(ms) => ms.map_values(|m: (String, JsonValue)| member_profile(m)),
        None => seq![],
    }
}

/// Chromium's profile-picker order: the `Default` directory first, then by
/// lowercase display name.
pub open spec fn chromium_le(a: (Seq<char>, Seq<char>), b: (Seq<char>, Seq<char>)) -> bool {
    let ad = a.0 == "Default"@;
    let bd = b.0 == "Default"@;
    if ad && !bd {
        true
    } else if !ad && bd {
        false
    } else {
        lex_le(unicode_lowercase(a.1), unicode_lowercase(b.1))
    }
}

/// `chromium_le` as a value.
pub open spec fn chromium_order() -> spec_fn((Seq<char>, Seq<char>), (Seq<char>, Seq<char>)) -> bool {
    |a: (Seq<char>, Seq<char>), b: (Seq<char>, Seq<char>)| chromium_le(a, b)
}

/// The profiles of a Chromium `Local State` document, in profile-picker
/// order (stable, so entries that compare equal keep member order).
pub open spec fn is_local_state_listing(r: Seq<(Seq<char>, Seq<char>)>, doc: Option<JsonValue>) -> bool {
    is_stable_sort_of(r, local_state_entries(doc), chromium_order())
}

proof fn lemma_chromium_total(a: (Seq<char>, Seq<char>), b: (Seq<char>, Seq<char>))
    ensures
        chromium_le(a, b) || chromium_le(b, a),
{
    lemma_lex_total(unicode_lowercase(a.1), unicode_lowercase(b.1));
}

proof fn lemma_chromium_trans(
    a: (Seq<char>, Seq<char>),
    b: (Seq<char>, Seq<char>),
    c: (Seq<char>, Seq<char>),
)
    requires
        chromium_le(a, b),
        chromium_le(b, c),
    ensures
        chromium_le(a, c),
{
    let ad = a.0 == "Default"@;
    let bd = b.0 == "Default"@;
    let cd = c.0 == "Default"@;
    if ad == bd && bd == cd {
        lemma_lex_trans(unicode_lowercase(a.1), unicode_lowercase(b.1), unicode_lowercase(c.1));
    }
}

/// A profile read from a `Local State` member, with its sort key.
struct Ranked {
    profile: BrowserProfile,
    lower: Vec<char>,
    is_default: bool,
}

spec fn ranked_ok(x: Ranked) -> bool {
    &&& x.lower@ == unicode_lowercase(x.profile.display_name@)
    &&& x.is_default == (x.profile.id@ == "Default"@)
}

fn ranked_le(a: &Ranked, b: &Ranked) -> (r: bool)
    requires
        ranked_ok(*a),
        ranked_ok(*b),
    ensures
        r == chromium_le(a.profile@, b.profile@),
{
    if a.is_default && !b.is_default {
        true
    } else if !a.is_default && b.is_default {
        false
    } else {
        lex_le_exec(a.lower.as_slice(), b.lower.as_slice())
    }
}

/// The profile of one `info_cache` member.
fn member_to_ranked(m: &(String, JsonValue)) -> (r: Ranked)
    ensures
        r.profile@ == member_profile(*m),
        ranked_ok(r),
{
    let dir = m.0.clone();
    let display = match json_get(&m.1, "name") {
        Some(JsonValue::Str(s)) => if !s.as_str().is_empty() {
            s.clone()
        } else {
            dir.clone()
        },
        _ => dir.clone(),
    };
    proof {
        reveal_strlit("name");
    }
    let lower_s = to_lowercase(display.as_str());
    let lower = chars_of(lower_s.as_str());
    let default_name = String::from_str("Default");
    let is_default = dir == default_name;
    Ranked { profile: BrowserProfile { id: dir, display_name: display }, lower, is_default }
}

spec fn ranked_views(v: Seq<Ranked>) -> Seq<(Seq<char>, Seq<char>)> {
    v.map_values(|x: Ranked| x.profile@)
}

/// The profiles a Chromium `Local State` document lists, `Default` first
/// and the rest by lowercase display name (a stable sort).
pub fn profiles_from_local_state(doc: &Option<JsonValue>) -> (r: Vec<BrowserProfile>)
    ensures
        is_local_state_listing(profile_views(r@), *doc),
{
    let members: Option<&Vec<(String, JsonValue)>> = match doc {
        Some(d) => match json_get(d, "profile") {
            Some(p) => match json_get(p, "info_cache") {
                Some(JsonValue::Object(ms)) => Some(ms),
                _ => None,
            },
            None => None,
        },
        None => None,
    };
    let ghost xs = local_state_entries(*doc);
    let mut sorted: Vec<Ranked> = Vec::new();
    let ghost mut perm: Seq<int> = seq![];
    match members {
        None => {
            assert(xs =~= seq![]);
        },
        Some(ms) => {
            assert(xs == ms@.map_values(|m: (String, JsonValue)| member_profile(m)));
            let mut i: usize = 0;
            while i < ms.len()
                invariant
                    i <= ms@.len(),
                    xs == ms@.map_values(|m: (String, JsonValue)| member_profile(m)),
                    sorted@.len() == i,
                    perm.len() == i,
                    forall|k: int| 0 <= k < i ==> ranked_ok(#[trigger] sorted@[k]),
                    forall|k: int| 0 <= k < i ==> 0 <= #[trigger] perm[k] < i,
                    forall|a: int, b: int| 0 <= a < b < i ==> perm[a] != perm[b],
                    forall|k: int| 0 <= k < i ==> (#[trigger] sorted@[k]).profile@ == xs[perm[k]],
                    forall|a: int, b: int|
                        0 <= a < b < i ==> chromium_le(sorted@[a].profile@, sorted@[b].profile@),
                    forall|a: int, b: int|
                        0 <= a < b < i && chromium_le(sorted@[b].profile@, sorted@[a].profile@)
                            ==> perm[a] < perm[b],
                decreases ms@.len() - i,
            {
                let x = member_to_ranked(&ms[i]);
                assert(x.profile@ == xs[i as int]);
                let mut p: usize = sorted.len();
                while p > 0 && !ranked_le(&sorted[p - 1], &x)
                    invariant
                        p <= sorted@.len(),
                        ranked_ok(x),
                        forall|k: int| 0 <= k < sorted@.len() ==> ranked_ok(#[trigger] sorted@[k]),
                        forall|k: int|
                            p <= k < sorted@.len() ==> !chromium_le(
                                (#[trigger] sorted@[k]).profile@,
                                x.profile@,
                            ),
                    decreases p,
                {
                    p -= 1;
                }
                let ghost old_sorted = sorted@;
                let ghost old_perm = perm;
                let ghost xv = x.profile@;
                proof {
                    perm = perm.insert(p as int, i as int);
                    if p > 0 {
                        assert(chromium_le(old_sorted[p - 1].profile@, xv));
                    }
                }
                sorted.insert(p, x);
                assert(sorted@ == old_sorted.insert(p as int, x));
                assert forall|k: int| 0 <= k < i + 1 implies ranked_ok(#[trigger] sorted@[k]) by {
                    if k < p {
                        assert(sorted@[k] == old_sorted[k]);
                    } else if k > p {
                        assert(sorted@[k] == old_sorted[k - 1]);
                    }
                }
                assert forall|k: int| 0 <= k < i + 1 implies (#[trigger] sorted@[k]).profile@
                    == xs[perm[k]] by {
                    if k < p {
                        assert(sorted@[k] == old_sorted[k]);
                        assert(perm[k] == old_perm[k]);
                    } else if k > p {
                        assert(sorted@[k] == old_sorted[k - 1]);
                        assert(perm[k] == old_perm[k - 1]);
                    }
                }
                assert forall|k: int| 0 <= k < i + 1 implies 0 <= #[trigger] perm[k] < i + 1 by {
                    if k < p {
                        assert(perm[k] == old_perm[k]);
                    } else if k > p {
                        assert(perm[k] == old_perm[k - 1]);
                    }
                }
                assert forall|a: int, b: int| 0 <= a < b < i + 1 implies perm[a] != perm[b] by {
                    let oa = if a < p { a } else { a - 1 };
                    let ob = if b < p { b } else { b - 1 };
                    if a != p && b != p {
                        assert(perm[a] == old_perm[oa]);
                        assert(perm[b] == old_perm[ob]);
                    } else if a == p {
                        assert(perm[b] == old_perm[ob]);
                    } else {
                        assert(perm[a] == old_perm[oa]);
                    }
                }
                assert forall|a: int, b: int| 0 <= a < b < i + 1 implies chromium_le(
                    sorted@[a].profile@,
                    sorted@[b].profile@,
                ) by {
                    let oa = if a < p { a } else { a - 1 };
                    let ob = if b < p { b } else { b - 1 };
                    if a != p && b != p {
                        assert(sorted@[a] == old_sorted[oa]);
                        assert(sorted@[b] == old_sorted[ob]);
                    } else if a == p {
                        assert(sorted@[b] == old_sorted[ob]);
                        lemma_chromium_total(old_sorted[ob].profile@, xv);
                    } else {
                        assert(sorted@[a] == old_sorted[oa]);
                        if oa < p - 1 {
                            lemma_chromium_trans(
                                old_sorted[oa].profile@,
                                old_sorted[p - 1].profile@,
                                xv,
                            );
                        }
                    }
                }
                assert forall|a: int, b: int|
                    0 <= a < b < i + 1 && chromium_le(
                        sorted@[b].profile@,
                        sorted@[a].profile@,
                    ) implies perm[a] < perm[b] by {
                    let oa = if a < p { a } else { a - 1 };
                    let ob = if b < p { b } else { b - 1 };
                    if a != p && b != p {
                        assert(sorted@[a] == old_sorted[oa]);
                        assert(sorted@[b] == old_sorted[ob]);
                        assert(perm[a] == old_perm[oa]);
                        assert(perm[b] == old_perm[ob]);
                    } else if a == p {
                        assert(sorted@[b] == old_sorted[ob]);
                    } else {
                        assert(perm[a] == old_perm[oa]);
                    }
                }
                i += 1;
            }
        },
    }
    let mut r: Vec<BrowserProfile> = Vec::new();
    let ghost sv = ranked_views(sorted@);
    let ghost done = sorted@;
    assert(sv.len() == xs.len());
    while sorted.len() > 0
        invariant
            sorted@.len() + r@.len() == sv.len(),
            sv == profile_views(r@) + ranked_views(sorted@),
        decreases sorted@.len(),
    {
        let x = sorted.remove(0);
        let ghost before = profile_views(r@);
        r.push(x.profile);
        assert(profile_views(r@) =~= before.push(x.profile@));
        assert(profile_views(r@) + ranked_views(sorted@) =~= sv);
    }
    assert(sv =~= profile_views(r@));
    assert(is_stable_sort_of(profile_views(r@), xs, chromium_order())) by {
        assert(is_permutation(perm, xs.len() as int));
        assert forall|k: int| 0 <= k < sv.len() implies sv[k] == xs[#[trigger] perm[k]] by {
            assert(sv[k] == done[k].profile@);
        }
    }
    r
}

/// Parses a Chromium-family `Local State` file's `profile.info_cache` map
/// into the browser's profiles, the `Default` directory first.
pub fn parse_local_state(content: &str) -> (r: Vec<BrowserProfile>)
    ensures
        is_local_state_listing(profile_views(r@), json_parse(content@)),
{
    let doc = parse_json(content);
    profiles_from_local_state(&doc)
}

/// The browser families whose profile switching is supported.
#[derive(Debug, Clone, Copy, PartialEq, Eq, Structural)]
pub enum BrowserFamily {
    Chromium,
    Gecko,
}

/// Executable names of Chromium-family browsers.
pub open spec fn chromium_names() -> Seq<Seq<char>> {
    seq![
        "chrome"@,
        "google-chrome"@,
        "google-chrome-stable"@,
        "chromium"@,
        "chromium-browser"@,
        "brave"@,
        "brave-browser"@,
        "microsoft-edge"@,
        "microsoft-edge-stable"@,
        "microsoft-edge-dev"@,
        "microsoft-edge-beta"@,
        "msedge"@,
        "vivaldi"@,
        "opera"@,
        "thorium-browser"@,
        "thorium"@,
    ]
}

/// Executable names of Firefox-family (Gecko) browsers.
pub open spec fn gecko_names() -> Seq<Seq<char>> {
    seq!["firefox"@, "firefox-esr"@, "librewolf"@, "floorp"@, "waterfox"@]
}

/// The family of an executable name.
pub open spec fn family_of(basename: Seq<char>) -> Option<BrowserFamily> {
    if chromium_names().contains(basename) {
        Some(BrowserFamily::Chromium)
    } else if gecko_names().contains(basename) {
        Some(BrowserFamily::Gecko)
    } else {
        None
    }
}

/// The family of a browser path, through its executable name.
pub open spec fn path_family(path: Seq<char>) -> Option<BrowserFamily> {
    match executable_basename_of(path) {
        Some(b) => family_of(b),
        None => None,
    }
}

fn str_in<const N: usize>(s: &str, names: &[&str; N], spec_names: Ghost<Seq<Seq<char>>>) -> (r: bool)
    requires
        names@.map_values(|x: &str| x@) == spec_names@,
    ensures
        r == spec_names@.contains(s@),
{
    let owned = s.to_owned();
    let mut i: usize = 0;
    while i < N
        invariant
            i <= N,
            N == names@.len(),
            owned@ == s@,
            names@.map_values(|x: &str| x@) == spec_names@,
            forall|k: int| 0 <= k < i ==> spec_names@[k] != s@,
        decreases N - i,
    {
        if names[i].to_owned() == owned {
            assert(spec_names@[i as int] == s@);
            return true;
        }
        i += 1;
    }
    false
}

/// The family of an executable name, if profile switching is supported for
/// it.
pub fn classify_family(basename: &str) -> (r: Option<BrowserFamily>)
    ensures
        r == family_of(basename@),
{
    let chromium: [&str; 16] = [
        "chrome",
        "google-chrome",
        "google-chrome-stable",
        "chromium",
        "chromium-browser",
        "brave",
        "brave-browser",
        "microsoft-edge",
        "microsoft-edge-stable",
        "microsoft-edge-dev",
        "microsoft-edge-beta",
        "msedge",
        "vivaldi",
        "opera",
        "thorium-browser",
        "thorium",
    ];
    let gecko: [&str; 5] = ["firefox", "firefox-esr", "librewolf", "floorp", "waterfox"];
    assert(chromium@.map_values(|x: &str| x@) =~= chromium_names());
    assert(gecko@.map_values(|x: &str| x@) =~= gecko_names());
    if str_in(basename, &chromium, Ghost(chromium_names())) {
        Some(BrowserFamily::Chromium)
    } else if str_in(basename, &gecko, Ghost(gecko_names())) {
        Some(BrowserFamily::Gecko)
    } else {
        None
    }
}

/// The family of a browser path.
fn family_of_path(browser_path: &str) -> (r: Option<BrowserFamily>)
    ensures
        r == path_family(browser_path@),
{
    match executable_basename(browser_path) {
        Some(b) => classify_family(b.as_str()),
        None => None,
    }
}

/// What the profiles of a browser path are, given the contents of its
/// profile store (`Local State` for Chromium, `profiles.ini` for Gecko) when
/// it could be read: a browser with no supported family, or whose store
/// could not be read, has none.
pub open spec fn is_profile_listing(
    r: Seq<(Seq<char>, Seq<char>)>,
    path: Seq<char>,
    store: Option<Seq<char>>,
) -> bool {
    match (path_family(path), store) {
        (Some(BrowserFamily::Chromium), Some(c)) => is_local_state_listing(r, json_parse(c)),
        (Some(BrowserFamily::Gecko), Some(c)) => r == gecko_profiles(c),
        _ => r.len() == 0,
    }
}

/// The profiles a browser install exposes, given the contents of its
/// profile store (see `profile_store`) when it could be read; empty when the
/// browser has no discoverable multi-profile setup.
pub fn detect_profiles(browser_path: &str, store_content: Option<&str>) -> (r: Vec<BrowserProfile>)
    ensures
        is_profile_listing(
            profile_views(r@),
            browser_path@,
            match store_content {
                Some(c) => Some(c@),
                None => None,
            },
        ),
{
    match (family_of_path(browser_path), store_content) {
        (Some(BrowserFamily::Chromium), Some(c)) => parse_local_state(c),
        (Some(BrowserFamily::Gecko), Some(c)) => parse_profiles_ini(c),
        _ => Vec::new(),
    }
}

/// The operating systems whose profile-store layouts are known.
#[derive(Debug, Clone, Copy, PartialEq, Eq, Structural)]
pub enum TargetOs {
    Linux,
    Windows,
    Other,
}

/// The per-user directory a profile store lives under.
#[derive(Debug, Clone, Copy, PartialEq, Eq, Structural)]
pub enum BaseDir {
    /// `dirs::config_dir()`
    Config,
    /// `dirs::home_dir()`
    Home,
    /// `dirs::data_local_dir()`
    LocalData,
}

/// Where a browser keeps its profile list: `base/subdir/file`.
#[derive(Debug)]
pub struct ProfileStore {
    pub base: BaseDir,
    pub subdir: String,
    pub file: String,
}

/// Which group of Chromium executables a name belongs to (one group per
/// browser vendor).
pub open spec fn chromium_group(b: Seq<char>) -> Option<int> {
    if b == "chrome"@ || b == "google-chrome"@ || b == "google-chrome-stable"@ {
        Some(0)
    } else if b == "chromium"@ || b == "chromium-browser"@ {
        Some(1)
    } else if b == "brave"@ || b == "brave-browser"@ {
        Some(2)
    } else if b == "microsoft-edge"@ || b == "microsoft-edge-stable"@ || b
        == "microsoft-edge-dev"@ || b == "microsoft-edge-beta"@ || b == "msedge"@ {
        Some(3)
    } else if b == "vivaldi"@ {
        Some(4)
    } else if b == "opera"@ {
        Some(5)
    } else if b == "thorium-browser"@ || b == "thorium"@ {
        Some(6)
    } else {
        None
    }
}

/// Chromium user-data directories on Linux, under the config directory.
pub open spec fn chromium_linux_dirs() -> Seq<Seq<char>> {
    seq![
        "google-chrome"@,
        "chromium"@,
        "BraveSoftware/Brave-Browser"@,
        "microsoft-edge"@,
        "vivaldi"@,
        "opera"@,
        "Thorium"@,
    ]
}

/// Chromium user-data directories on Windows, under the local data
/// directory.
pub open spec fn chromium_windows_dirs() -> Seq<Seq<char>> {
    seq![
        "Google/Chrome/User Data"@,
        "Chromium/User Data"@,
        "BraveSoftware/Brave-Browser/User Data"@,
        "Microsoft/Edge/User Data"@,
        "Vivaldi/User Data"@,
        "Opera Software/Opera Stable"@,
        "Thorium/User Data"@,
    ]
}

/// Which group of Gecko executables a name belongs to.
pub open spec fn gecko_group(b: Seq<char>) -> Option<int> {
    if b == "firefox"@ || b == "firefox-esr"@ {
        Some(0)
    } else if b == "librewolf"@ {
        Some(1)
    } else if b == "floorp"@ {
        Some(2)
    } else if b == "waterfox"@ {
        Some(3)
    } else {
        None
    }
}

/// Gecko profile directories on Linux, under the home directory.
pub open spec fn gecko_linux_dirs() -> Seq<Seq<char>> {
    seq![".mozilla/firefox"@, ".librewolf"@, ".floorp"@, ".waterfox"@]
}

/// Gecko profile directories on Windows, under the roaming config directory.
pub open spec fn gecko_windows_dirs() -> Seq<Seq<char>> {
    seq!["Mozilla/Firefox"@, "LibreWolf"@, "Floorp"@, "Waterfox"@]
}

/// The profile store of a browser path on `os`: `(base, subdir, file)`.
pub open spec fn profile_store_of(path: Seq<char>, os: TargetOs) -> Option<(BaseDir, Seq<char>, Seq<char>)> {
    match executable_basename_of(path) {
        None => None,
        Some(b) => match family_of(b) {
            Some(BrowserFamily::Chromium) => match (chromium_group(b), os) {
                (Some(g), TargetOs::Linux) => Some(
                    (BaseDir::Config, chromium_linux_dirs()[g], "Local State"@),
                ),
                (Some(g), TargetOs::Windows) => Some(
                    (BaseDir::LocalData, chromium_windows_dirs()[g], "Local State"@),
                ),
                _ => None,
            },
            Some(BrowserFamily::Gecko) => match (gecko_group(b), os) {
                (Some(g), TargetOs::Linux) => Some(
                    (BaseDir::Home, gecko_linux_dirs()[g], "profiles.ini"@),
                ),
                (Some(g), TargetOs::Windows) => Some(
                    (BaseDir::Config, gecko_windows_dirs()[g], "profiles.ini"@),
                ),
                _ => None,
            },
            None => None,
        },
    }
}

fn group_index<const N: usize>(b: &str, names: &[&str; N], groups: &[usize; N]) -> (r: Option<usize>)
    ensures
        match r {
            Some(g) => exists|k: int| 0 <= k < N && names@[k]@ == b@ && groups@[k] == g && (forall|j: int| 0 <= j < k ==> names@[j]@ != b@),
            None => forall|k: int| 0 <= k < N ==> names@[k]@ != b@,
        },
{
    let owned = b.to_owned();
    let mut i: usize = 0;
    while i < N
        invariant
            i <= N,
            N == names@.len(),
            N == groups@.len(),
            owned@ == b@,
            forall|k: int| 0 <= k < i ==> names@[k]@ != b@,
        decreases N - i,
    {
        if names[i].to_owned() == owned {
            return Some(groups[i]);
        }
        i += 1;
    }
    None
}

fn chromium_group_exec(b: &str) -> (r: Option<usize>)
    ensures
        match r {
            Some(g) => chromium_group(b@) == Some(g as int),
            None => chromium_group(b@) is None,
        },
{
    let names: [&str; 16] = [
        "chrome",
        "google-chrome",
        "google-chrome-stable",
        "chromium",
        "chromium-browser",
        "brave",
        "brave-browser",
        "microsoft-edge",
        "microsoft-edge-stable",
        "microsoft-edge-dev",
        "microsoft-edge-beta",
        "msedge",
        "vivaldi",
        "opera",
        "thorium-browser",
        "thorium",
    ];
    let groups: [usize; 16] = [0, 0, 0, 1, 1, 2, 2, 3, 3, 3, 3, 3, 4, 5, 6, 6];
    group_index(b, &names, &groups)
}

fn gecko_group_exec(b: &str) -> (r: Option<usize>)
    ensures
        match r {
            Some(g) => gecko_group(b@) == Some(g as int),
            None => gecko_group(b@) is None,
        },
{
    let names: [&str; 5] = ["firefox", "firefox-esr", "librewolf", "floorp", "waterfox"];
    let groups: [usize; 5] = [0, 0, 1, 2, 3];
    group_index(b, &names, &groups)
}

/// Where a browser path keeps its profile list on `os`, if its family's
/// layout is known there.
pub fn profile_store(browser_path: &str, os: TargetOs) -> (r: Option<ProfileStore>)
    ensures
        match r {
            Some(s) => profile_store_of(browser_path@, os) == Some((s.base, s.subdir@, s.file@)),
            None => profile_store_of(browser_path@, os) is None,
        },
{
    let b = match executable_basename(browser_path) {
        Some(b) => b,
        None => return None,
    };
    match classify_family(b.as_str()) {
        Some(BrowserFamily::Chromium) => {
            let linux: [&str; 7] = [
                "google-chrome",
                "chromium",
                "BraveSoftware/Brave-Browser",
                "microsoft-edge",
                "vivaldi",
                "opera",
                "Thorium",
            ];
            let windows: [&str; 7] = [
                "Google/Chrome/User Data",
                "Chromium/User Data",
                "BraveSoftware/Brave-Browser/User Data",
                "Microsoft/Edge/User Data",
                "Vivaldi/User Data",
                "Opera Software/Opera Stable",
                "Thorium/User Data",
            ];
            assert(linux@.map_values(|x: &str| x@) =~= chromium_linux_dirs());
            assert(windows@.map_values(|x: &str| x@) =~= chromium_windows_dirs());
            match (chromium_group_exec(b.as_str()), os) {
                (Some(g), TargetOs::Linux) => {
                    assert(linux@[g as int]@ == chromium_linux_dirs()[g as int]);
                    Some(ProfileStore { base: BaseDir::Config, subdir: linux[g].to_owned(), file: "Local State".to_owned() })
                },
                (Some(g), TargetOs::Windows) => {
                    assert(windows@[g as int]@ == chromium_windows_dirs()[g as int]);
                    Some(ProfileStore { base: BaseDir::LocalData, subdir: windows[g].to_owned(), file: "Local State".to_owned() })
                },
                _ => None,
            }
        },
        Some(BrowserFamily::Gecko) => {
            let linux: [&str; 4] = [".mozilla/firefox", ".librewolf", ".floorp", ".waterfox"];
            let windows: [&str; 4] = ["Mozilla/Firefox", "LibreWolf", "Floorp", "Waterfox"];
            assert(linux@.map_values(|x: &str| x@) =~= gecko_linux_dirs());
            assert(windows@.map_values(|x: &str| x@) =~= gecko_windows_dirs());
            match (gecko_group_exec(b.as_str()), os) {
                (Some(g), TargetOs::Linux) => {
                    assert(linux@[g as int]@ == gecko_linux_dirs()[g as int]);
                    Some(ProfileStore { base: BaseDir::Home, subdir: linux[g].to_owned(), file: "profiles.ini".to_owned() })
                },
                (Some(g), TargetOs::Windows) => {
                    assert(windows@[g as int]@ == gecko_windows_dirs()[g as int]);
                    Some(ProfileStore { base: BaseDir::Config, subdir: windows[g].to_owned(), file: "profiles.ini".to_owned() })
                },
                _ => None,
            }
        },
        None => None,
    }
}

/// The separator between a browser path and a profile identifier in an
/// encoded browser spec: U+001F (unit separator), which cannot appear in a
/// real path or Flatpak application ID.
pub open spec fn separator() -> char {
    '\u{1f}'
}

/// A browser spec that selects profile `id` of the browser at `path`.
pub open spec fn encoded_spec(path: Seq<char>, id: Seq<char>) -> Seq<char> {
    path.push(separator()) + id
}

/// A spec split at its first separator: the browser path and, if there is
/// a separator, the profile identifier after it.
pub open spec fn decoded_spec(spec: Seq<char>) -> (Seq<char>, Option<Seq<char>>) {
    let j = find_from(spec, separator(), 0);
    if j < spec.len() {
        (spec.subrange(0, j), Some(spec.subrange(j + 1, spec.len() as int)))
    } else {
        (spec, None)
    }
}

/// Encodes a profile selection onto a browser path.
pub fn encode_browser_spec(browser_path: &str, profile_id: &str) -> (r: String)
    ensures
        r@ == encoded_spec(browser_path@, profile_id@),
{
    let sep = "\u{1f}";
    proof {
        reveal_strlit("\u{1f}");
    }
    let r = browser_path.to_owned().concat(sep).concat(profile_id);
    assert(r@ =~= encoded_spec(browser_path@, profile_id@));
    r
}

/// Splits a browser spec into the browser path and the selected profile, if
/// any.
pub fn decode_browser_spec(spec: &str) -> (r: (&str, Option<&str>))
    ensures
        (r.0@, match r.1 {
            Some(p) => Some(p@),
            None => None,
        }) == decoded_spec(spec@),
{
    let cs = chars_of(spec);
    let j = find_char(cs.as_slice(), '\u{1f}', 0);
    proof {
        lemma_find_from(spec@, separator(), 0);
    }
    if j < cs.len() {
        (spec.substring_char(0, j), Some(spec.substring_char(j + 1, cs.len())))
    } else {
        (spec, None)
    }
}

/// Decoding an encoded spec gives back the browser path and the profile,
/// for every path that holds no separator.
pub proof fn decode_encode_round_trip(path: Seq<char>, id: Seq<char>)
    requires
        !path.contains(separator()),
    ensures
        decoded_spec(encoded_spec(path, id)) == (path, Some(id)),
{
    let s = encoded_spec(path, id);
    lemma_find_after_piece(path, id, separator());
    assert(s.subrange(0, path.len() as int) =~= path);
    assert(s.subrange(path.len() + 1int, s.len() as int) =~= id);
}

/// Encoding what decoding found gives back the spec.
pub proof fn encode_decode_round_trip(spec: Seq<char>)
    ensures
        decoded_spec(spec).1 matches Some(id) ==> encoded_spec(decoded_spec(spec).0, id) == spec,
{
    lemma_find_from(spec, separator(), 0);
    let j = find_from(spec, separator(), 0);
    if j < spec.len() {
        assert(encoded_spec(spec.subrange(0, j), spec.subrange(j + 1, spec.len() as int)) =~= spec);
    }
}

/// A spec without separator is a plain browser path.
pub proof fn plain_path_decodes_to_itself(spec: Seq<char>)
    requires
        !spec.contains(separator()),
    ensures
        decoded_spec(spec) == (spec, None::<Seq<char>>),
{
    lemma_find_from(spec, separator(), 0);
    let j = find_from(spec, separator(), 0);
    if j < spec.len() {
        assert(spec[j] == separator());
    }
}

/// The entries one browser contributes: its encoded profiles when it has
/// more than one, the plain path otherwise.
pub open spec fn expand_one(path: Seq<char>, ps: Seq<(Seq<char>, Seq<char>)>) -> Seq<Seq<char>> {
    if ps.len() <= 1 {
        seq![path]
    } else {
        ps.map_values(|p: (Seq<char>, Seq<char>)| encoded_spec(path, p.0))
    }
}

/// The entries of all browsers, in order.
pub open spec fn expansion(bs: Seq<Seq<char>>, pss: Seq<Seq<(Seq<char>, Seq<char>)>>) -> Seq<Seq<char>>
    decreases bs.len(),
{
    if bs.len() == 0 || pss.len() == 0 {
        seq![]
    } else {
        expansion(bs.drop_last(), pss.drop_last()) + expand_one(bs.last(), pss.last())
    }
}

/// The views of a list of strings.
pub open spec fn string_views(v: Seq<String>) -> Seq<Seq<char>> {
    v.map_values(|s: String| s@)
}

/// The views of a list of profile lists.
pub open spec fn profile_list_views(v: Seq<Vec<BrowserProfile>>) -> Seq<Seq<(Seq<char>, Seq<char>)>> {
    v.map_values(|ps: Vec<BrowserProfile>| profile_views(ps@))
}

/// Expands each browser into one selectable entry per profile when it has
/// more than one (`profiles[i]` being what `detect_profiles` found for
/// `browsers[i]`); a browser with a single or no detectable profile stays a
/// plain-path entry.
pub fn expand_with_profiles(browsers: &[String], profiles: &[Vec<BrowserProfile>]) -> (r: Vec<String>)
    requires
        browsers@.len() == profiles@.len(),
    ensures
        string_views(r@) == expansion(string_views(browsers@), profile_list_views(profiles@)),
{
    let ghost bs = string_views(browsers@);
    let ghost pss = profile_list_views(profiles@);
    let mut r: Vec<String> = Vec::new();
    let mut i: usize = 0;
    while i < browsers.len()
        invariant
            i <= browsers@.len(),
            browsers@.len() == profiles@.len(),
            bs == string_views(browsers@),
            pss == profile_list_views(profiles@),
            string_views(r@) == expansion(bs.subrange(0, i as int), pss.subrange(0, i as int)),
        decreases browsers@.len() - i,
    {
        let ghost before = string_views(r@);
        let ghost ps = pss[i as int];
        assert(bs.subrange(0, i + 1).drop_last() =~= bs.subrange(0, i as int));
        assert(pss.subrange(0, i + 1).drop_last() =~= pss.subrange(0, i as int));
        let path = &browsers[i];
        let list = &profiles[i];
        if list.len() <= 1 {
            r.push(path.clone());
            assert(string_views(r@) =~= before + expand_one(bs[i as int], ps));
        } else {
            let mut k: usize = 0;
            while k < list.len()
                invariant
                    k <= list@.len(),
                    i < bs.len(),
                    ps == profile_views(list@),
                    path@ == bs[i as int],
                    string_views(r@) == before + ps.subrange(0, k as int).map_values(
                        |p: (Seq<char>, Seq<char>)| encoded_spec(bs[i as int], p.0),
                    ),
                decreases list@.len() - k,
            {
                let ghost mid = string_views(r@);
                assert(list@[k as int].id@ == ps[k as int].0);
                r.push(encode_browser_spec(path.as_str(), list[k].id.as_str()));
                assert(string_views(r@) =~= mid.push(encoded_spec(bs[i as int], ps[k as int].0)));
                assert(string_views(r@) =~= before + ps.subrange(0, k + 1).map_values(
                    |p: (Seq<char>, Seq<char>)| encoded_spec(bs[i as int], p.0),
                ));
                k += 1;
            }
            assert(ps.subrange(0, list@.len() as int) =~= ps);
        }
        i += 1;
    }
    assert(bs.subrange(0, browsers@.len() as int) =~= bs);
    assert(pss.subrange(0, browsers@.len() as int) =~= pss);
    r
}

/// Command-line arguments for launching a browser with a profile, by the
/// family's documented switch: `--profile-directory=<id>` for Chromium;
/// `-P <id> -no-remote` for Gecko (`-no-remote` makes it switch profile
/// even when another instance runs); none for other browsers.
pub open spec fn launch_args(path: Seq<char>, id: Seq<char>) -> Seq<Seq<char>> {
    match path_family(path) {
        Some(BrowserFamily::Chromium) => seq!["--profile-directory="@ + id],
        Some(BrowserFamily::Gecko) => seq!["-P"@, id, "-no-remote"@],
        None => seq![],
    }
}

/// Command-line arguments that make a browser launch profile `profile_id`.
pub fn profile_launch_args(browser_path: &str, profile_id: &str) -> (r: Vec<String>)
    ensures
        string_views(r@) == launch_args(browser_path@, profile_id@),
{
    let mut r: Vec<String> = Vec::new();
    match family_of_path(browser_path) {
        Some(BrowserFamily::Chromium) => {
            r.push("--profile-directory=".to_owned().concat(profile_id));
        },
        Some(BrowserFamily::Gecko) => {
            r.push("-P".to_owned());
            r.push(profile_id.to_owned());
            r.push("-no-remote".to_owned());
        },
        None => {},
    }
    assert(string_views(r@) =~= launch_args(browser_path@, profile_id@));
    r
}

/// Index of the first profile from `i` on whose identifier is `id`, or the
/// length.
pub open spec fn profile_index(ps: Seq<(Seq<char>, Seq<char>)>, id: Seq<char>, i: int) -> int
    decreases ps.len() - i,
{
    if i < 0 || i >= ps.len() {
        ps.len() as int
    } else if ps[i].0 == id {
        i
    } else {
        profile_index(ps, id, i + 1)
    }
}

/// The display name of profile `id` among `ps`, or `id` itself when it is
/// not listed.
pub open spec fn profile_name_in(ps: Seq<(Seq<char>, Seq<char>)>, id: Seq<char>) -> Seq<char> {
    let k = profile_index(ps, id, 0);
    if k < ps.len() {
        ps[k].1
    } else {
        id
    }
}

/// The display name of a profile, among the profiles detected for its
/// browser; the identifier when the profile is not among them.
pub fn profile_display_name(profiles: &[BrowserProfile], profile_id: &str) -> (r: String)
    ensures
        r@ == profile_name_in(profile_views(profiles@), profile_id@),
{
    let ghost ps = profile_views(profiles@);
    let id = profile_id.to_owned();
    let mut i: usize = 0;
    while i < profiles.len()
        invariant
            i <= profiles@.len(),
            ps == profile_views(profiles@),
            id@ == profile_id@,
            profile_index(ps, profile_id@, 0) == profile_index(ps, profile_id@, i as int),
        decreases profiles@.len() - i,
    {
        if profiles[i].id == id {
            assert(profile_index(ps, profile_id@, i as int) == i);
            return profiles[i].display_name.clone();
        }
        i += 1;
    }
    id
}

/// The label of a browser spec: the browser's name, followed by ` — ` and
/// the profile's display name when the spec selects a profile.
pub open spec fn spec_label(spec: Seq<char>, ps: Seq<(Seq<char>, Seq<char>)>) -> Seq<char> {
    let (path, pid) = decoded_spec(spec);
    match pid {
        Some(id) => browser_name_of(path) + " — "@ + profile_name_in(ps, id),
        None => browser_name_of(path),
    }
}

/// Human-readable name of a (possibly profile-encoded) browser spec, e.g.
/// "Google Chrome" or "Google Chrome — Work"; `profiles` are the profiles
/// detected for the spec's browser path.
pub fn spec_display_name(spec: &str, profiles: &[BrowserProfile]) -> (r: String)
    ensures
        r@ == spec_label(spec@, profile_views(profiles@)),
{
    let (base_path, profile_id) = decode_browser_spec(spec);
    let base_name = get_browser_name_from_path(base_path);
    match profile_id {
        Some(id) => base_name.concat(" — ").concat(profile_display_name(profiles, id).as_str()),
        None => base_name,
    }
}

/// Flatpak applications get no profiles and no profile arguments: profile
/// storage inside a sandbox is not attempted.
pub proof fn flatpak_browsers_have_no_profiles(
    path: Seq<char>,
    store: Option<Seq<char>>,
    listing: Seq<(Seq<char>, Seq<char>)>,
    id: Seq<char>,
)
    requires
        has_prefix(path, "flatpak:"@),
        is_profile_listing(listing, path, store),
    ensures
        listing.len() == 0,
        launch_args(path, id).len() == 0,
{
}

/// In a `Local State` listing the `Default` profile comes before every
/// other profile.
pub proof fn default_profile_listed_first(
    listing: Seq<(Seq<char>, Seq<char>)>,
    doc: Option<JsonValue>,
    i: int,
    j: int,
)
    requires
        is_local_state_listing(listing, doc),
        0 <= i < j < listing.len(),
        listing[j].0 == "Default"@,
    ensures
        listing[i].0 == "Default"@,
{
    lemma_stable_sort_sorted(listing, local_state_entries(doc), chromium_order(), i, j);
    assert(chromium_le(listing[i], listing[j]));
}

/// Without a section marked default, the profiles of a `profiles.ini` come
/// in file order, so the first one (conventionally the original profile)
/// stays first.
pub proof fn gecko_file_order_without_default(content: Seq<char>)
    requires
        forall|k: int| 0 <= k < ini_entries(content).len() ==> !(#[trigger] ini_entries(content)[k]).1,
    ensures
        gecko_profiles(content) == ini_entries(content).map_values(
            |e: (Seq<char>, bool)| (e.0, e.0),
        ),
{
    let es = ini_entries(content);
    let pd = |e: (Seq<char>, bool)| e.1;
    let pn = |e: (Seq<char>, bool)| !e.1;
    lemma_filter_none(es, pd);
    lemma_filter_every(es, pn);
    assert(default_first(es) =~= es);
}

proof fn lemma_filter_none<T>(es: Seq<T>, p: spec_fn(T) -> bool)
    requires
        forall|k: int| 0 <= k < es.len() ==> !p(#[trigger] es[k]),
    ensures
        es.filter(p) =~= Seq::<T>::empty(),
    decreases es.len(),
{
    reveal_with_fuel(Seq::filter, 1);
    if es.len() > 0 {
        let front = es.drop_last();
        assert forall|k: int| 0 <= k < front.len() implies !p(#[trigger] front[k]) by {
            assert(front[k] == es[k]);
        }
        lemma_filter_none(front, p);
        assert(!p(es[es.len() - 1]));
    }
}

proof fn lemma_filter_every<T>(es: Seq<T>, p: spec_fn(T) -> bool)
    requires
        forall|k: int| 0 <= k < es.len() ==> p(#[trigger] es[k]),
    ensures
        es.filter(p) =~= es,
    decreases es.len(),
{
    reveal_with_fuel(Seq::filter, 1);
    if es.len() > 0 {
        let front = es.drop_last();
        assert forall|k: int| 0 <= k < front.len() implies p(#[trigger] front[k]) by {
            assert(front[k] == es[k]);
        }
        lemma_filter_every(front, p);
        assert(p(es[es.len() - 1]));
        assert(front.push(es.last()) =~= es);
    }
}

/// Browsers with at most one profile each expand to themselves: their
/// entries and saved rules keep using the plain path.
pub proof fn expansion_keeps_plain_browsers(
    bs: Seq<Seq<char>>,
    pss: Seq<Seq<(Seq<char>, Seq<char>)>>,
)
    requires
        bs.len() == pss.len(),
        forall|i: int| 0 <= i < pss.len() ==> (#[trigger] pss[i]).len() <= 1,
    ensures
        expansion(bs, pss) == bs,
    decreases bs.len(),
{
    if bs.len() > 0 {
        expansion_keeps_plain_browsers(bs.drop_last(), pss.drop_last());
        assert(pss.last() == pss[pss.len() - 1]);
        assert(bs.drop_last().push(bs.last()) =~= bs);
    }
}

/// Each profile entry of a browser with several profiles decodes back to
/// that browser and that profile (for a path without separator).
pub proof fn expanded_entries_decode(
    path: Seq<char>,
    ps: Seq<(Seq<char>, Seq<char>)>,
    k: int,
)
    requires
        !path.contains(separator()),
        ps.len() > 1,
        0 <= k < ps.len(),
    ensures
        decoded_spec(expand_one(path, ps)[k]) == (path, Some(ps[k].0)),
{
    decode_encode_round_trip(path, ps[k].0);
}


/// A `profiles.ini` line that sets the key `Default` (key and value trimmed).
pub open spec fn sets_default(line: Seq<char>) -> bool {
    split_once(trim(line), '=') matches Some((k, v)) && trim(k) == "Default"@
}

/// A `profiles.ini` line that sets the key `Default` to `1`.
pub open spec fn sets_default_one(line: Seq<char>) -> bool {
    split_once(trim(line), '=') matches Some((k, v)) && trim(k) == "Default"@ && trim(v) == "1"@
}

/// A profile section is the default exactly when its own lines mark it so:
/// scanning up to line `n` inside the section opened by the header at `h`
/// (no header in between), the open section is a profile section when its
/// header starts with `[Profile`, and it is marked default exactly when some
/// line of the section sets `Default=1` and no later line of the section
/// sets `Default` again. Nothing of an earlier section carries over.
pub proof fn ini_default_is_per_section(ls: Seq<Seq<char>>, h: int, n: int)
    requires
        0 <= h < n <= ls.len(),
        is_ini_header(trim(ls[h])),
        forall|j: int| h < j < n ==> !is_ini_header(trim(#[trigger] ls[j])),
    ensures
        ini_scan(ls, n).0 matches Some(sec) && sec.is_profile == has_prefix(trim(ls[h]), "[Profile"@)
            && (sec.is_default <==> exists|j: int|
            h < j < n && sets_default_one(#[trigger] ls[j]) && forall|m: int|
                j < m < n ==> !sets_default(#[trigger] ls[m])),
    decreases n,
{
    reveal_strlit("Default");
    reveal_strlit("Name");
    if n == h + 1 {
        let (cur, found) = ini_scan(ls, h);
        assert(ini_scan(ls, n) == ini_step(cur, found, ls[h]));
    } else {
        ini_default_is_per_section(ls, h, n - 1);
        let (cur, found) = ini_scan(ls, n - 1);
        let line = ls[n - 1];
        assert(ini_scan(ls, n) == ini_step(cur, found, line));
        assert(!is_ini_header(trim(line)));
        let sec = cur->0;
        let sec2 = ini_scan(ls, n).0->0;
        let t = trim(line);
        assert("Default"@.len() != "Name"@.len());
        if sets_default(line) {
            let kv = match split_once(t, '=') {
                Some(kv) => kv,
                None => (seq![], seq![]),
            };
            assert(trim(kv.0) == "Default"@);
            assert(trim(kv.0) != "Name"@);
            assert(sec2.is_default == (trim(kv.1) == "1"@));
            if sets_default_one(line) {
                assert(sec2.is_default);
                assert(h < n - 1 < n && sets_default_one(ls[n - 1]));
            } else {
                assert(!sec2.is_default);
                assert forall|j: int| h < j < n && sets_default_one(#[trigger] ls[j]) implies !(forall|m: int|
                    j < m < n ==> !sets_default(#[trigger] ls[m])) by {
                    assert(j != n - 1);
                    assert(sets_default(ls[n - 1]));
                }
            }
        } else {
            assert(sec2.is_default == sec.is_default) by {
                match split_once(t, '=') {
                    Some((k, v)) => {
                        assert(trim(k) != "Default"@);
                    },
                    None => {},
                }
            }
            if sec.is_default {
                let j = choose|j: int|
                    h < j < n - 1 && sets_default_one(#[trigger] ls[j]) && forall|m: int|
                        j < m < n - 1 ==> !sets_default(#[trigger] ls[m]);
                assert(h < j < n && sets_default_one(ls[j]));
                assert forall|m: int| j < m < n implies !sets_default(#[trigger] ls[m]) by {
                    if m < n - 1 {
                    }
                }
            } else {
                assert forall|j: int| h < j < n && sets_default_one(#[trigger] ls[j]) implies !(forall|m: int|
                    j < m < n ==> !sets_default(#[trigger] ls[m])) by {
                    if j == n - 1 {
                        assert(sets_default(ls[j]));
                    } else {
                        let m = choose|m: int| j < m < n - 1 && sets_default(#[trigger] ls[m]);
                        assert(j < m < n);
                    }
                }
            }
        }
    }
}


/// A `profiles.ini` line that sets the key `Name`; its value trimmed.
pub open spec fn sets_name(line: Seq<char>) -> Option<Seq<char>> {
    match split_once(trim(line), '=') {
        Some((k, v)) => if trim(k) == "Name"@ {
            Some(trim(v))
        } else {
            None
        },
        None => None,
    }
}

/// The name of a profile section is set by its own lines only: scanning up
/// to line `n` inside the section opened by the header at `h`, the open
/// section has no name when none of its lines sets `Name`, and otherwise
/// the value of the last line that sets it.
pub proof fn ini_name_is_per_section(ls: Seq<Seq<char>>, h: int, n: int)
    requires
        0 <= h < n <= ls.len(),
        is_ini_header(trim(ls[h])),
        forall|j: int| h < j < n ==> !is_ini_header(trim(#[trigger] ls[j])),
    ensures
        ini_scan(ls, n).0 matches Some(sec) && ((forall|j: int| h < j < n ==> sets_name(#[trigger] ls[j]) is None)
            ==> sec.name is None) && (forall|j: int|
            h < j < n && sets_name(#[trigger] ls[j]) is Some && (forall|m: int|
                j < m < n ==> sets_name(#[trigger] ls[m]) is None) ==> sec.name == sets_name(ls[j])),
    decreases n,
{
    reveal_strlit("Default");
    reveal_strlit("Name");
    if n == h + 1 {
        let (cur, found) = ini_scan(ls, h);
        assert(ini_scan(ls, n) == ini_step(cur, found, ls[h]));
    } else {
        ini_name_is_per_section(ls, h, n - 1);
        let (cur, found) = ini_scan(ls, n - 1);
        let line = ls[n - 1];
        assert(ini_scan(ls, n) == ini_step(cur, found, line));
        assert(!is_ini_header(trim(line)));
        let sec = cur->0;
        let sec2 = ini_scan(ls, n).0->0;
        assert("Default"@.len() != "Name"@.len());
        if sets_name(line) is Some {
            assert(sec2.name == sets_name(line));
            assert forall|j: int|
                h < j < n && sets_name(#[trigger] ls[j]) is Some && (forall|m: int|
                    j < m < n ==> sets_name(#[trigger] ls[m]) is None) implies sec2.name == sets_name(ls[j]) by {
                if j < n - 1 {
                    assert(sets_name(ls[n - 1]) is Some);
                }
            }
        } else {
            assert(sec2.name == sec.name);
            assert forall|j: int|
                h < j < n && sets_name(#[trigger] ls[j]) is Some && (forall|m: int|
                    j < m < n ==> sets_name(#[trigger] ls[m]) is None) implies sec2.name == sets_name(ls[j]) by {
                assert(j < n - 1);
                assert forall|m: int| j < m < n - 1 implies sets_name(#[trigger] ls[m]) is None by {
                    assert(j < m < n);
                }
            }
        }
    }
}

} // verus!
