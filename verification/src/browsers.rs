//! Browser discovery: which commands and paths are probed, and how the
//! installations found are ordered and told apart.
use vstd::prelude::*;
use crate::names::{browser_name_of, get_browser_name_from_path};
use crate::order::{lemma_lex_antisym, lemma_lex_total, lemma_lex_trans, lex_le, lex_le_exec, lex_lt};
use crate::profiles::string_views;
use crate::text::{chars_of, has_prefix, starts_with};

verus! {

/// `r` holds the distinct strings of `xs` in strictly increasing order.
pub open spec fn is_sorted_set_of(r: Seq<Seq<char>>, xs: Seq<Seq<char>>) -> bool {
    &&& forall|i: int, j: int| 0 <= i < j < r.len() ==> lex_lt(r[i], r[j])
    &&& forall|x: Seq<char>| r.contains(x) <==> xs.contains(x)
}

/// The distinct paths in ascending order (the order of `Vec<String>::sort`).
pub fn sorted_unique(found: &[String]) -> (r: Vec<String>)
    ensures
        is_sorted_set_of(string_views(r@), string_views(found@)),
{
    let ghost xs = string_views(found@);
    let mut r: Vec<String> = Vec::new();
    let mut keys: Vec<Vec<char>> = Vec::new();
    let mut i: usize = 0;
    while i < found.len()
        invariant
            i <= found@.len(),
            xs == string_views(found@),
            keys@.len() == r@.len(),
            forall|k: int| 0 <= k < r@.len() ==> (#[trigger] keys@[k])@ == r@[k]@,
            is_sorted_set_of(string_views(r@), xs.subrange(0, i as int)),
        decreases found@.len() - i,
    {
        let x = &found[i];
        let xk = chars_of(x.as_str());
        let ghost pre0 = xs.subrange(0, i as int);
        let ghost pre1 = xs.subrange(0, i + 1);
        assert(pre1[i as int] == x@);
        assert(forall|k: int| 0 <= k < i ==> pre1[k] == #[trigger] pre0[k]);
        let ghost rv = string_views(r@);
        let mut p: usize = r.len();
        while p > 0 && !lex_le_exec(keys[p - 1].as_slice(), xk.as_slice())
            invariant
                p <= r@.len(),
                keys@.len() == r@.len(),
                rv == string_views(r@),
                forall|k: int| 0 <= k < r@.len() ==> (#[trigger] keys@[k])@ == r@[k]@,
                forall|k: int| p <= k < rv.len() ==> !lex_le(#[trigger] rv[k], xk@),
            decreases p,
        {
            p -= 1;
        }
        assert forall|k: int| p <= k < rv.len() implies lex_lt(xk@, #[trigger] rv[k]) by {
            lemma_lex_total(rv[k], xk@);
        }
        let present = p > 0 && chars_eq_key(&keys[p - 1], &xk);
        if !present {
            let ghost old_keys = keys@;
            r.insert(p, x.clone());
            keys.insert(p, xk);
            let ghost nv = string_views(r@);
            assert(nv =~= rv.insert(p as int, x@));
            assert forall|k: int| 0 <= k < r@.len() implies (#[trigger] keys@[k])@ == r@[k]@ by {
                if k < p {
                    assert(keys@[k] == old_keys[k]);
                } else if k > p {
                    assert(keys@[k] == old_keys[k - 1]);
                }
            }
            assert forall|a: int, b: int| 0 <= a < b < nv.len() implies lex_lt(nv[a], nv[b]) by {
                if b < p {
                } else if a > p {
                } else if a < p && b > p {
                    assert(lex_lt(rv[a], rv[b - 1]));
                } else if a == p {
                    assert(nv[b] == rv[b - 1]);
                } else {
                    assert(nv[b] == x@);
                    assert(lex_le(rv[p - 1], x@));
                    if a < p - 1 {
                        assert(lex_lt(rv[a], rv[p - 1]));
                        lemma_lex_trans(rv[a], rv[p - 1], x@);
                        if rv[a] == x@ {
                            lemma_lex_antisym(rv[a], rv[p - 1]);
                        }
                    }
                }
            }
            assert forall|y: Seq<char>| nv.contains(y) <==> pre1.contains(y) by {
                if nv.contains(y) {
                    let k = choose|k: int| 0 <= k < nv.len() && nv[k] == y;
                    if k < p {
                        assert(rv.contains(rv[k]));
                    } else if k > p {
                        assert(rv.contains(rv[k - 1]));
                    } else {
                        assert(pre1[i as int] == y);
                    }
                }
                if pre1.contains(y) {
                    let k = choose|k: int| 0 <= k < i + 1 && pre1[k] == y;
                    if k < i {
                        assert(pre0[k] == y);
                        assert(pre0.contains(y));
                        let m = choose|m: int| 0 <= m < rv.len() && rv[m] == y;
                        if m < p {
                            assert(nv[m] == y);
                        } else {
                            assert(nv[m + 1] == y);
                        }
                    } else {
                        assert(nv[p as int] == y);
                    }
                }
            }
        } else {
            assert(rv[p - 1] == xk@);
            assert forall|y: Seq<char>| rv.contains(y) <==> pre1.contains(y) by {
                if pre1.contains(y) {
                    let k = choose|k: int| 0 <= k < i + 1 && pre1[k] == y;
                    if k < i {
                        assert(pre0[k] == y);
                        assert(pre0.contains(y));
                    } else {
                        assert(rv[p - 1] == y);
                    }
                }
                if rv.contains(y) {
                    assert(pre0.contains(y));
                    let k = choose|k: int| 0 <= k < i && pre0[k] == y;
                    assert(pre1[k] == y);
                }
            }
        }
        i += 1;
    }
    assert(xs.subrange(0, found@.len() as int) =~= xs);
    r
}

fn chars_eq_key(a: &Vec<char>, b: &Vec<char>) -> (r: bool)
    ensures
        r == (a@ == b@),
{
    crate::text::chars_eq(a.as_slice(), b.as_slice())
}

/// Whether the path at `i` is kept when telling installations apart: every
/// Flatpak application is kept, and of the other paths the first one with
/// each browser name.
pub open spec fn kept_at(ps: Seq<Seq<char>>, i: int) -> bool {
    has_prefix(ps[i], "flatpak:"@) || forall|j: int|
        0 <= j < i ==> has_prefix(#[trigger] ps[j], "flatpak:"@) || browser_name_of(ps[j])
            != browser_name_of(ps[i])
}

/// The paths kept, in order.
pub open spec fn distinct_by_name(ps: Seq<Seq<char>>) -> Seq<Seq<char>> {
    Seq::new(ps.len(), |i: int| i).filter_map(
        |i: int|
            if kept_at(ps, i) {
                Some(ps[i])
            } else {
                None
            },
    )
}

/// The kept paths among the first `n`.
pub open spec fn kept_prefix(ps: Seq<Seq<char>>, n: int) -> Seq<Seq<char>> {
    Seq::new(n as nat, |i: int| i).filter_map(
        |i: int|
            if kept_at(ps, i) {
                Some(ps[i])
            } else {
                None
            },
    )
}

proof fn lemma_kept_prefix(ps: Seq<Seq<char>>, n: int)
    requires
        0 <= n <= ps.len(),
    ensures
        forall|a: int|
            0 <= a < kept_prefix(ps, n).len() ==> exists|j: int|
                0 <= j < n && #[trigger] kept_prefix(ps, n)[a] == ps[j],
        forall|a: int, b: int|
            0 <= a < b < kept_prefix(ps, n).len() && !has_prefix(kept_prefix(ps, n)[a], "flatpak:"@)
                && !has_prefix(kept_prefix(ps, n)[b], "flatpak:"@) ==> browser_name_of(
                #[trigger] kept_prefix(ps, n)[a],
            ) != browser_name_of(#[trigger] kept_prefix(ps, n)[b]),
        forall|i: int|
            0 <= i < n && has_prefix(#[trigger] ps[i], "flatpak:"@) ==> kept_prefix(ps, n).contains(
                ps[i],
            ),
    decreases n,
{
    if n > 0 {
        lemma_kept_prefix(ps, n - 1);
        let prev = kept_prefix(ps, n - 1);
        let cur = kept_prefix(ps, n);
        assert(Seq::new(n as nat, |i: int| i).drop_last() =~= Seq::new((n - 1) as nat, |i: int| i));
        if kept_at(ps, n - 1) {
            assert(cur == prev.push(ps[n - 1]));
        } else {
            assert(cur == prev);
        }
        assert forall|a: int| 0 <= a < cur.len() implies exists|j: int|
            0 <= j < n && #[trigger] cur[a] == ps[j] by {
            if a < prev.len() {
                let j = choose|j: int| 0 <= j < n - 1 && #[trigger] prev[a] == ps[j];
                assert(cur[a] == ps[j]);
            } else {
                assert(cur[a] == ps[n - 1]);
            }
        }
        assert forall|a: int, b: int|
            0 <= a < b < cur.len() && !has_prefix(cur[a], "flatpak:"@) && !has_prefix(
                cur[b],
                "flatpak:"@,
            ) implies browser_name_of(#[trigger] cur[a]) != browser_name_of(#[trigger] cur[b]) by {
            if b < prev.len() {
                assert(cur[a] == prev[a] && cur[b] == prev[b]);
            } else {
                assert(cur[b] == ps[n - 1]);
                assert(cur[a] == prev[a]);
                let j = choose|j: int| 0 <= j < n - 1 && #[trigger] prev[a] == ps[j];
                assert(kept_at(ps, n - 1));
                assert(has_prefix(ps[j], "flatpak:"@) || browser_name_of(ps[j]) != browser_name_of(ps[n - 1]));
            }
        }
        assert forall|i: int| 0 <= i < n && has_prefix(#[trigger] ps[i], "flatpak:"@) implies cur.contains(ps[i]) by {
            if i < n - 1 {
                let a = choose|a: int| 0 <= a < prev.len() && prev[a] == ps[i];
                assert(cur[a] == ps[i]);
            } else {
                assert(cur[cur.len() - 1] == ps[i]);
            }
        }
    }
}

/// Telling installations apart keeps every Flatpak application and leaves
/// no two native installations with the same browser name.
pub proof fn dedupe_keeps_flatpaks_and_distinct_names(ps: Seq<Seq<char>>)
    ensures
        forall|a: int, b: int|
            0 <= a < b < distinct_by_name(ps).len() && !has_prefix(distinct_by_name(ps)[a], "flatpak:"@)
                && !has_prefix(distinct_by_name(ps)[b], "flatpak:"@) ==> browser_name_of(
                #[trigger] distinct_by_name(ps)[a],
            ) != browser_name_of(#[trigger] distinct_by_name(ps)[b]),
        forall|i: int|
            0 <= i < ps.len() && has_prefix(#[trigger] ps[i], "flatpak:"@) ==> distinct_by_name(
                ps,
            ).contains(ps[i]),
{
    lemma_kept_prefix(ps, ps.len() as int);
    assert(kept_prefix(ps, ps.len() as int) == distinct_by_name(ps));
}

/// Drops the native installations whose browser name an earlier native
/// one already has, keeping every Flatpak application.
pub fn dedupe_by_name(paths: &[String]) -> (r: Vec<String>)
    ensures
        string_views(r@) == distinct_by_name(string_views(paths@)),
{
    let ghost ps = string_views(paths@);
    let ghost idx = Seq::new(ps.len(), |i: int| i);
    let ghost f = |i: int|
        if kept_at(ps, i) {
            Some(ps[i])
        } else {
            None
        };
    let flatpak = chars_of("flatpak:");
    let mut seen: Vec<String> = Vec::new();
    let mut r: Vec<String> = Vec::new();
    let mut i: usize = 0;
    while i < paths.len()
        invariant
            i <= paths@.len(),
            ps == string_views(paths@),
            idx == Seq::new(ps.len(), |i: int| i),
            f == (|i: int|
                if kept_at(ps, i) {
                    Some(ps[i])
                } else {
                    None
                }),
            flatpak@ == "flatpak:"@,
            forall|n: Seq<char>|
                string_views(seen@).contains(n) <==> exists|j: int|
                    0 <= j < i && !has_prefix(#[trigger] ps[j], "flatpak:"@) && browser_name_of(ps[j]) == n,
            string_views(r@) == idx.subrange(0, i as int).filter_map(f),
        decreases paths@.len() - i,
    {
        assert(idx.subrange(0, i + 1).drop_last() =~= idx.subrange(0, i as int));
        let p = &paths[i];
        let ghost before = string_views(r@);
        let ghost seen_before = string_views(seen@);
        if starts_with(chars_of(p.as_str()).as_slice(), flatpak.as_slice()) {
            r.push(p.clone());
            assert(string_views(r@) =~= before.push(ps[i as int]));
        } else {
            let name = get_browser_name_from_path(p.as_str());
            let mut k: usize = 0;
            let mut dup = false;
            while k < seen.len()
                invariant
                    k <= seen@.len(),
                    dup == exists|m: int| 0 <= m < k && seen@[m]@ == name@,
                decreases seen@.len() - k,
            {
                if seen[k] == name {
                    dup = true;
                }
                k += 1;
            }
            assert(dup == string_views(seen@).contains(name@)) by {
                if dup {
                    let m = choose|m: int| 0 <= m < seen@.len() && seen@[m]@ == name@;
                    assert(string_views(seen@)[m] == name@);
                }
                if string_views(seen@).contains(name@) {
                    let m = choose|m: int| 0 <= m < seen@.len() && string_views(seen@)[m] == name@;
                    assert(seen@[m]@ == name@);
                }
            }
            assert(kept_at(ps, i as int) == !dup) by {
                if dup {
                    let j = choose|j: int| 0 <= j < i && !has_prefix(#[trigger] ps[j], "flatpak:"@) && browser_name_of(ps[j]) == name@;
                }
            }
            if !dup {
                r.push(p.clone());
                assert(string_views(r@) =~= before.push(ps[i as int]));
            }
            seen.push(name);
            assert(string_views(seen@) =~= seen_before.push(name@));
        }
        assert forall|n: Seq<char>| string_views(seen@).contains(n) <==> exists|j: int|
            0 <= j < i + 1 && !has_prefix(#[trigger] ps[j], "flatpak:"@) && browser_name_of(ps[j]) == n by {
            if string_views(seen@).contains(n) && !seen_before.contains(n) {
                assert(browser_name_of(ps[i as int]) == n);
            }
            if exists|j: int| 0 <= j < i + 1 && !has_prefix(#[trigger] ps[j], "flatpak:"@) && browser_name_of(ps[j]) == n {
                let j = choose|j: int| 0 <= j < i + 1 && !has_prefix(#[trigger] ps[j], "flatpak:"@) && browser_name_of(ps[j]) == n;
                if j < i {
                    assert(seen_before.contains(n));
                    let m = choose|m: int| 0 <= m < seen_before.len() && seen_before[m] == n;
                    assert(string_views(seen@)[m] == n);
                } else {
                    assert(string_views(seen@)[seen_before.len() as int] == n);
                }
            }
        }
        i += 1;
    }
    assert(idx.subrange(0, paths@.len() as int) =~= idx);
    r
}


/// The commands looked up on the `PATH`, in the order they are probed.
pub open spec fn probed_commands() -> Seq<Seq<char>> {
    seq![
        "google-chrome"@,
        "google-chrome-stable"@,
        "chromium"@,
        "chromium-browser"@,
        "firefox"@,
        "firefox-esr"@,
        "librewolf"@,
        "brave-browser"@,
        "opera"@,
        "vivaldi"@,
        "thorium-browser"@,
        "floorp"@,
        "microsoft-edge"@,
        "microsoft-edge-stable"@,
        "microsoft-edge-dev"@,
        "microsoft-edge-beta"@,
    ]
}

/// The installation paths checked directly, in the order they are probed.
pub open spec fn probed_paths() -> Seq<Seq<char>> {
    seq![
        "/usr/bin/google-chrome"@,
        "/usr/bin/google-chrome-stable"@,
        "/usr/bin/chromium"@,
        "/usr/bin/chromium-browser"@,
        "/usr/bin/firefox"@,
        "/usr/bin/firefox-esr"@,
        "/usr/bin/librewolf"@,
        "/usr/bin/brave-browser"@,
        "/usr/bin/opera"@,
        "/usr/bin/vivaldi"@,
        "/usr/bin/thorium-browser"@,
        "/usr/bin/floorp"@,
        "/usr/bin/microsoft-edge"@,
        "/usr/bin/microsoft-edge-stable"@,
        "/usr/bin/microsoft-edge-dev"@,
        "/opt/google/chrome/chrome"@,
        "/opt/brave.com/brave/brave"@,
        "/opt/opera/opera"@,
        "/opt/vivaldi/vivaldi"@,
        "/opt/microsoft/msedge/msedge"@,
    ]
}

/// The browser commands to look up on the `PATH`.
pub fn browser_commands() -> (r: Vec<String>)
    ensures
        string_views(r@) == probed_commands(),
{
    let mut r: Vec<String> = Vec::new();
    r.push("google-chrome".to_owned());
    r.push("google-chrome-stable".to_owned());
    r.push("chromium".to_owned());
    r.push("chromium-browser".to_owned());
    r.push("firefox".to_owned());
    r.push("firefox-esr".to_owned());
    r.push("librewolf".to_owned());
    r.push("brave-browser".to_owned());
    r.push("opera".to_owned());
    r.push("vivaldi".to_owned());
    r.push("thorium-browser".to_owned());
    r.push("floorp".to_owned());
    r.push("microsoft-edge".to_owned());
    r.push("microsoft-edge-stable".to_owned());
    r.push("microsoft-edge-dev".to_owned());
    r.push("microsoft-edge-beta".to_owned());
    assert(string_views(r@) =~= probed_commands());
    r
}

/// The installation paths to check for a browser executable.
pub fn browser_paths() -> (r: Vec<String>)
    ensures
        string_views(r@) == probed_paths(),
{
    let mut r: Vec<String> = Vec::new();
    r.push("/usr/bin/google-chrome".to_owned());
    r.push("/usr/bin/google-chrome-stable".to_owned());
    r.push("/usr/bin/chromium".to_owned());
    r.push("/usr/bin/chromium-browser".to_owned());
    r.push("/usr/bin/firefox".to_owned());
    r.push("/usr/bin/firefox-esr".to_owned());
    r.push("/usr/bin/librewolf".to_owned());
    r.push("/usr/bin/brave-browser".to_owned());
    r.push("/usr/bin/opera".to_owned());
    r.push("/usr/bin/vivaldi".to_owned());
    r.push("/usr/bin/thorium-browser".to_owned());
    r.push("/usr/bin/floorp".to_owned());
    r.push("/usr/bin/microsoft-edge".to_owned());
    r.push("/usr/bin/microsoft-edge-stable".to_owned());
    r.push("/usr/bin/microsoft-edge-dev".to_owned());
    r.push("/opt/google/chrome/chrome".to_owned());
    r.push("/opt/brave.com/brave/brave".to_owned());
    r.push("/opt/opera/opera".to_owned());
    r.push("/opt/vivaldi/vivaldi".to_owned());
    r.push("/opt/microsoft/msedge/msedge".to_owned());
    assert(string_views(r@) =~= probed_paths());
    r
}


/// The paths kept from an increasing list stay increasing.
proof fn lemma_kept_prefix_sorted(ps: Seq<Seq<char>>, n: int)
    requires
        0 <= n <= ps.len(),
        forall|i: int, j: int| 0 <= i < j < ps.len() ==> lex_lt(ps[i], ps[j]),
    ensures
        forall|a: int, b: int|
            0 <= a < b < kept_prefix(ps, n).len() ==> lex_lt(kept_prefix(ps, n)[a], kept_prefix(ps, n)[b]),
    decreases n,
{
    if n > 0 {
        lemma_kept_prefix_sorted(ps, n - 1);
        lemma_kept_prefix(ps, n - 1);
        let prev = kept_prefix(ps, n - 1);
        let cur = kept_prefix(ps, n);
        assert(Seq::new(n as nat, |i: int| i).drop_last() =~= Seq::new((n - 1) as nat, |i: int| i));
        if kept_at(ps, n - 1) {
            assert(cur == prev.push(ps[n - 1]));
            assert forall|a: int, b: int| 0 <= a < b < cur.len() implies lex_lt(cur[a], cur[b]) by {
                if b < prev.len() {
                    assert(cur[a] == prev[a] && cur[b] == prev[b]);
                } else {
                    assert(cur[a] == prev[a]);
                    let j = choose|j: int| 0 <= j < n - 1 && #[trigger] prev[a] == ps[j];
                    assert(lex_lt(ps[j], ps[n - 1]));
                }
            }
        } else {
            assert(cur == prev);
        }
    }
}

/// The browsers found, as the chooser lists them: the distinct paths in
/// increasing order, without the native installations whose browser name an
/// earlier native one already has; every Flatpak application is kept.
pub fn found_browser_list(found: &[String]) -> (r: Vec<String>)
    ensures
        exists|s: Seq<Seq<char>>|
            #[trigger] is_sorted_set_of(s, string_views(found@)) && string_views(r@) == distinct_by_name(s),
        forall|a: int, b: int|
            0 <= a < b < r@.len() ==> lex_lt(string_views(r@)[a], string_views(r@)[b]),
        forall|a: int, b: int|
            0 <= a < b < r@.len() && !has_prefix(string_views(r@)[a], "flatpak:"@) && !has_prefix(
                string_views(r@)[b],
                "flatpak:"@,
            ) ==> browser_name_of(#[trigger] string_views(r@)[a]) != browser_name_of(
                #[trigger] string_views(r@)[b],
            ),
        forall|x: Seq<char>| string_views(r@).contains(x) ==> string_views(found@).contains(x),
        forall|x: Seq<char>|
            string_views(found@).contains(x) && has_prefix(x, "flatpak:"@) ==> string_views(
                r@,
            ).contains(x),
{
    let sorted = sorted_unique(found);
    let r = dedupe_by_name(&sorted);
    proof {
        let s = string_views(sorted@);
        let xs = string_views(found@);
        let rv = string_views(r@);
        lemma_kept_prefix(s, s.len() as int);
        lemma_kept_prefix_sorted(s, s.len() as int);
        dedupe_keeps_flatpaks_and_distinct_names(s);
        assert(kept_prefix(s, s.len() as int) == distinct_by_name(s));
        assert(is_sorted_set_of(s, xs));
        assert forall|x: Seq<char>| rv.contains(x) implies xs.contains(x) by {
            let a = choose|a: int| 0 <= a < rv.len() && rv[a] == x;
            let j = choose|j: int| 0 <= j < s.len() && #[trigger] kept_prefix(s, s.len() as int)[a] == s[j];
            assert(s.contains(s[j]));
        }
        assert forall|x: Seq<char>| xs.contains(x) && has_prefix(x, "flatpak:"@) implies rv.contains(x) by {
            assert(s.contains(x));
            let i = choose|i: int| 0 <= i < s.len() && s[i] == x;
            assert(has_prefix(s[i], "flatpak:"@));
        }
    }
    r
}


/// Every path kept at its position is among the kept paths.
proof fn lemma_kept_in_prefix(ps: Seq<Seq<char>>, n: int, i: int)
    requires
        0 <= i < n <= ps.len(),
        kept_at(ps, i),
    ensures
        kept_prefix(ps, n).contains(ps[i]),
    decreases n,
{
    let prev = kept_prefix(ps, n - 1);
    let cur = kept_prefix(ps, n);
    assert(Seq::new(n as nat, |i: int| i).drop_last() =~= Seq::new((n - 1) as nat, |i: int| i));
    if i == n - 1 {
        assert(cur == prev.push(ps[n - 1]));
        assert(cur[cur.len() - 1] == ps[i]);
    } else {
        lemma_kept_in_prefix(ps, n - 1, i);
        let a = choose|a: int| 0 <= a < prev.len() && prev[a] == ps[i];
        if kept_at(ps, n - 1) {
            assert(cur == prev.push(ps[n - 1]));
        } else {
            assert(cur == prev);
        }
        assert(cur[a] == ps[i]);
    }
}

/// The first native path with the name of the native path at `i` is kept.
proof fn lemma_first_of_name_kept(ps: Seq<Seq<char>>, i: int) -> (j: int)
    requires
        0 <= i < ps.len(),
        !has_prefix(ps[i], "flatpak:"@),
    ensures
        0 <= j <= i,
        kept_at(ps, j),
        !has_prefix(ps[j], "flatpak:"@),
        browser_name_of(ps[j]) == browser_name_of(ps[i]),
    decreases i,
{
    if kept_at(ps, i) {
        i
    } else {
        let j = choose|j: int|
            0 <= j < i && !has_prefix(#[trigger] ps[j], "flatpak:"@) && browser_name_of(ps[j])
                == browser_name_of(ps[i]);
        lemma_first_of_name_kept(ps, j)
    }
}

/// Telling installations apart loses no browser: for every native path
/// there is a kept native path with the same browser name (a native path
/// is dropped only for an earlier one of the very same name), and a native
/// path is kept whenever no earlier native path has its name.
pub proof fn dedupe_keeps_every_browser_name(ps: Seq<Seq<char>>, i: int)
    requires
        0 <= i < ps.len(),
        !has_prefix(ps[i], "flatpak:"@),
    ensures
        exists|q: Seq<char>|
            #[trigger] distinct_by_name(ps).contains(q) && !has_prefix(q, "flatpak:"@)
                && browser_name_of(q) == browser_name_of(ps[i]),
        (forall|j: int| 0 <= j < i && !has_prefix(#[trigger] ps[j], "flatpak:"@) ==> browser_name_of(ps[j])
            != browser_name_of(ps[i])) ==> distinct_by_name(ps).contains(ps[i]),
{
    let j = lemma_first_of_name_kept(ps, i);
    lemma_kept_in_prefix(ps, ps.len() as int, j);
    assert(kept_prefix(ps, ps.len() as int) == distinct_by_name(ps));
    if forall|j: int| 0 <= j < i && !has_prefix(#[trigger] ps[j], "flatpak:"@) ==> browser_name_of(ps[j])
        != browser_name_of(ps[i]) {
        lemma_kept_in_prefix(ps, ps.len() as int, i);
    }
}

} // verus!
