//! Character-sequence helpers that the rest of the library builds on.
//!
//! Text is handled as `Vec<char>` whose view is the `Seq<char>` of the
//! string, so every operation can be stated over `Seq<char>`.
use vstd::prelude::*;
use vstd::string::*;

verus! {

/// Unicode `White_Space` property (the definition `char::is_whitespace` and
/// `str::trim` use).
pub open spec fn is_ws(c: char) -> bool {
    let u = c as u32;
    ||| 0x9 <= u && u <= 0xD
    ||| u == 0x20
    ||| u == 0x85
    ||| u == 0xA0
    ||| u == 0x1680
    ||| 0x2000 <= u && u <= 0x200A
    ||| u == 0x2028
    ||| u == 0x2029
    ||| u == 0x202F
    ||| u == 0x205F
    ||| u == 0x3000
}

pub fn is_whitespace(c: char) -> (r: bool)
    ensures
        r == is_ws(c),
{
    let u = c as u32;
    (0x9 <= u && u <= 0xD) || u == 0x20 || u == 0x85 || u == 0xA0 || u == 0x1680 || (0x2000
        <= u && u <= 0x200A) || u == 0x2028 || u == 0x2029 || u == 0x202F || u == 0x205F || u
        == 0x3000
}

/// The characters of a string slice.
pub fn chars_of(s: &str) -> (r: Vec<char>)
    ensures
        r@ == s@,
{
    let n = s.unicode_len();
    let mut r: Vec<char> = Vec::new();
    let mut i: usize = 0;
    while i < n
        invariant
            n == s@.len(),
            i <= n,
            r@ == s@.subrange(0, i as int),
        decreases n - i,
    {
        r.push(s.get_char(i));
        i += 1;
        assert(r@ =~= s@.subrange(0, i as int));
    }
    assert(r@ =~= s@);
    r
}

/// Builds a `String` from characters with `String::from_iter`; the
/// contract claims that the string holds exactly these characters, in order.
#[verifier::external_body]
pub(crate) fn string_from_chars(cs: &[char]) -> (r: String)
    ensures
        r@ == cs@,
{
    cs.iter().collect()
}

/// Whether `p` is a prefix of `s`.
pub open spec fn has_prefix(s: Seq<char>, p: Seq<char>) -> bool {
    p.len() <= s.len() && s.subrange(0, p.len() as int) == p
}

/// Whether `p` is a suffix of `s`.
pub open spec fn has_suffix(s: Seq<char>, p: Seq<char>) -> bool {
    p.len() <= s.len() && s.subrange(s.len() - p.len(), s.len() as int) == p
}

/// Whether `p` occurs in `s` at position `i`.
pub open spec fn occurs_at(s: Seq<char>, p: Seq<char>, i: int) -> bool {
    0 <= i && i + p.len() <= s.len() && s.subrange(i, i + p.len()) == p
}

/// Whether `p` occurs anywhere in `s`.
pub open spec fn has_infix(s: Seq<char>, p: Seq<char>) -> bool {
    exists|i: int| occurs_at(s, p, i)
}

/// First position at or after `i` that holds `c`, or `s.len()` when none does.
pub open spec fn find_from(s: Seq<char>, c: char, i: int) -> int
    decreases s.len() - i,
{
    if i >= s.len() {
        s.len() as int
    } else if s[i] == c {
        i
    } else {
        find_from(s, c, i + 1)
    }
}

pub proof fn lemma_find_from(s: Seq<char>, c: char, i: int)
    requires
        0 <= i,
    ensures
        i < s.len() ==> i <= find_from(s, c, i) <= s.len(),
        i >= s.len() ==> find_from(s, c, i) == s.len(),
        find_from(s, c, i) < s.len() ==> s[find_from(s, c, i)] == c,
        forall|k: int| i <= k < find_from(s, c, i) ==> s[k] != c,
    decreases s.len() - i,
{
    if i < s.len() && s[i] != c {
        lemma_find_from(s, c, i + 1);
    }
}

/// Removes one trailing carriage return.
pub open spec fn strip_cr(l: Seq<char>) -> Seq<char> {
    if l.len() > 0 && l.last() == '\r' {
        l.drop_last()
    } else {
        l
    }
}

/// The lines of `s` from position `i` on, as `str::lines` yields them:
/// pieces ended by `\n` (a `\r` right before it is dropped too); a final
/// piece without `\n` is kept as it is, and an empty rest gives no line.
pub open spec fn lines_from(s: Seq<char>, i: int) -> Seq<Seq<char>>
    decreases s.len() - i,
{
    if i < 0 || i >= s.len() {
        seq![]
    } else {
        let j = find_from(s, '\n', i);
        if j < s.len() {
            proof {
                lemma_find_from(s, '\n', i);
            }
            seq![strip_cr(s.subrange(i, j))] + lines_from(s, j + 1)
        } else {
            seq![s.subrange(i, s.len() as int)]
        }
    }
}

/// The lines of a text, as `str::lines` yields them.
pub open spec fn lines(s: Seq<char>) -> Seq<Seq<char>> {
    lines_from(s, 0)
}

/// The pieces of `s` from position `i` on that `str::split(c)` yields.
pub open spec fn split_from(s: Seq<char>, c: char, i: int) -> Seq<Seq<char>>
    decreases s.len() - i,
{
    if i < 0 || i > s.len() {
        seq![]
    } else {
        let j = find_from(s, c, i);
        if j < s.len() {
            proof {
                lemma_find_from(s, c, i);
            }
            seq![s.subrange(i, j)] + split_from(s, c, j + 1)
        } else {
            seq![s.subrange(i, s.len() as int)]
        }
    }
}

/// `str::split(c)`: the pieces between the occurrences of `c`.
pub open spec fn split_on(s: Seq<char>, c: char) -> Seq<Seq<char>> {
    split_from(s, c, 0)
}

/// `str::split_once(c)`: the text before and after the first `c`.
pub open spec fn split_once(s: Seq<char>, c: char) -> Option<(Seq<char>, Seq<char>)> {
    let j = find_from(s, c, 0);
    if j < s.len() {
        Some((s.subrange(0, j), s.subrange(j + 1, s.len() as int)))
    } else {
        None
    }
}

/// The pieces joined, with `sep` between neighbours.
pub open spec fn join_with(ls: Seq<Seq<char>>, sep: Seq<char>) -> Seq<char>
    decreases ls.len(),
{
    if ls.len() == 0 {
        seq![]
    } else if ls.len() == 1 {
        ls[0]
    } else {
        join_with(ls.drop_last(), sep) + sep + ls.last()
    }
}

/// Index of the first character at or after `i` that is not white space.
pub open spec fn skip_ws(s: Seq<char>, i: int) -> int
    decreases s.len() - i,
{
    if i < s.len() && is_ws(s[i]) {
        skip_ws(s, i + 1)
    } else {
        i
    }
}

/// One past the last character before `j` that is not white space.
pub open spec fn skip_ws_back(s: Seq<char>, j: int) -> int
    decreases j,
{
    if j > 0 && is_ws(s[j - 1]) {
        skip_ws_back(s, j - 1)
    } else {
        j
    }
}

/// `str::trim`: `s` without leading and trailing white space.
pub open spec fn trim(s: Seq<char>) -> Seq<char> {
    let a = skip_ws(s, 0);
    let b = skip_ws_back(s, s.len() as int);
    if a < b {
        s.subrange(a, b)
    } else {
        seq![]
    }
}

/// `char::to_ascii_lowercase`.
pub open spec fn ascii_lower_char(c: char) -> char {
    if 'A' <= c && c <= 'Z' {
        ((c as u32) + 32) as char
    } else {
        c
    }
}

/// `str::to_ascii_lowercase`.
pub open spec fn ascii_lower(s: Seq<char>) -> Seq<char> {
    s.map_values(|c: char| ascii_lower_char(c))
}

/// The views of a sequence of character vectors.
pub open spec fn views(v: Seq<Vec<char>>) -> Seq<Seq<char>> {
    v.map_values(|l: Vec<char>| l@)
}

/// Searching past a prefix `p` searches the rest.
pub proof fn lemma_find_from_shift(p: Seq<char>, t: Seq<char>, c: char, i: int)
    requires
        0 <= i,
    ensures
        find_from(p + t, c, p.len() + i) == p.len() + find_from(t, c, i),
    decreases t.len() - i,
{
    if i < t.len() && t[i] != c {
        lemma_find_from_shift(p, t, c, i + 1);
    }
}

/// Splitting past a prefix `p` splits the rest.
pub proof fn lemma_split_from_shift(p: Seq<char>, t: Seq<char>, c: char, i: int)
    requires
        0 <= i <= t.len(),
    ensures
        split_from(p + t, c, p.len() + i) == split_from(t, c, i),
    decreases t.len() - i,
{
    let s = p + t;
    lemma_find_from_shift(p, t, c, i);
    lemma_find_from(t, c, i);
    let j = find_from(t, c, i);
    if j < t.len() {
        lemma_split_from_shift(p, t, c, j + 1);
        assert(s.subrange(p.len() + i, p.len() + j) =~= t.subrange(i, j));
    } else {
        assert(s.subrange(p.len() + i, s.len() as int) =~= t.subrange(i, t.len() as int));
    }
}

/// The first occurrence of `c` in `e.push(c) + t` ends `e` when `e` holds no `c`.
pub proof fn lemma_find_after_piece(e: Seq<char>, t: Seq<char>, c: char)
    requires
        !e.contains(c),
    ensures
        find_from(e.push(c) + t, c, 0) == e.len(),
{
    let s = e.push(c) + t;
    assert forall|i: int| 0 <= i <= e.len() implies find_from(s, c, i) == e.len() by {
        lemma_find_piece_from(e, t, c, i);
    }
}

proof fn lemma_find_piece_from(e: Seq<char>, t: Seq<char>, c: char, i: int)
    requires
        !e.contains(c),
        0 <= i <= e.len(),
    ensures
        find_from(e.push(c) + t, c, i) == e.len(),
    decreases e.len() - i,
{
    let s = e.push(c) + t;
    if i < e.len() {
        assert(s[i] == e[i]);
        assert(e[i] != c) by {
            if e[i] == c {
                assert(e.contains(c));
            }
        }
        lemma_find_piece_from(e, t, c, i + 1);
    } else {
        assert(s[i] == c);
    }
}

/// Splitting `e` followed by `c` and more gives `e` and the split of the rest.
pub proof fn lemma_split_piece(e: Seq<char>, t: Seq<char>, c: char)
    requires
        !e.contains(c),
    ensures
        split_on(e.push(c) + t, c) == seq![e] + split_on(t, c),
{
    let s = e.push(c) + t;
    lemma_find_after_piece(e, t, c);
    assert(s.subrange(0, e.len() as int) =~= e);
    assert(s =~= e.push(c) + t);
    lemma_split_from_shift(e.push(c), t, c, 0);
}

/// Whether two character sequences are equal.
pub fn chars_eq(a: &[char], b: &[char]) -> (r: bool)
    ensures
        r == (a@ == b@),
{
    if a.len() != b.len() {
        return false;
    }
    let mut i: usize = 0;
    while i < a.len()
        invariant
            a@.len() == b@.len(),
            i <= a@.len(),
            forall|k: int| 0 <= k < i ==> a@[k] == b@[k],
        decreases a@.len() - i,
    {
        if a[i] != b[i] {
            return false;
        }
        i += 1;
    }
    assert(a@ =~= b@);
    true
}

/// Copy of `s[from..to]`.
pub fn slice_chars(s: &[char], from: usize, to: usize) -> (r: Vec<char>)
    requires
        from <= to <= s@.len(),
    ensures
        r@ == s@.subrange(from as int, to as int),
{
    let mut r: Vec<char> = Vec::new();
    let mut i = from;
    while i < to
        invariant
            from <= i <= to <= s@.len(),
            r@ == s@.subrange(from as int, i as int),
        decreases to - i,
    {
        r.push(s[i]);
        i += 1;
        assert(r@ =~= s@.subrange(from as int, i as int));
    }
    r
}

/// Copy of `s`.
pub fn copy_chars(s: &[char]) -> (r: Vec<char>)
    ensures
        r@ == s@,
{
    let r = slice_chars(s, 0, s.len());
    assert(s@.subrange(0, s@.len() as int) =~= s@);
    r
}

/// Appends `b` to `a`.
pub fn push_all(a: &mut Vec<char>, b: &[char])
    ensures
        final(a)@ == old(a)@ + b@,
{
    let mut i: usize = 0;
    while i < b.len()
        invariant
            i <= b@.len(),
            a@ == old(a)@ + b@.subrange(0, i as int),
        decreases b@.len() - i,
    {
        a.push(b[i]);
        i += 1;
        assert(a@ =~= old(a)@ + b@.subrange(0, i as int));
    }
    assert(b@.subrange(0, b@.len() as int) =~= b@);
}

/// `a` followed by `b`.
pub fn concat(a: &[char], b: &[char]) -> (r: Vec<char>)
    ensures
        r@ == a@ + b@,
{
    let mut r = slice_chars(a, 0, a.len());
    assert(a@.subrange(0, a@.len() as int) =~= a@);
    push_all(&mut r, b);
    r
}

/// Whether `s` starts with `p`.
pub fn starts_with(s: &[char], p: &[char]) -> (r: bool)
    ensures
        r == has_prefix(s@, p@),
{
    if p.len() > s.len() {
        return false;
    }
    let mut i: usize = 0;
    while i < p.len()
        invariant
            p@.len() <= s@.len(),
            i <= p@.len(),
            forall|k: int| 0 <= k < i ==> s@[k] == p@[k],
        decreases p@.len() - i,
    {
        if s[i] != p[i] {
            assert(s@.subrange(0, p@.len() as int)[i as int] != p@[i as int]);
            return false;
        }
        i += 1;
    }
    assert(s@.subrange(0, p@.len() as int) =~= p@);
    true
}

/// Whether `p` occurs in `s` at `at`.
pub fn occurs_at_exec(s: &[char], p: &[char], at: usize) -> (r: bool)
    ensures
        r == occurs_at(s@, p@, at as int),
{
    if at > s.len() || p.len() > s.len() - at {
        return false;
    }
    let n = s.len();
    let mut i: usize = 0;
    while i < p.len()
        invariant
            n == s@.len(),
            at + p@.len() <= s@.len(),
            i <= p@.len(),
            forall|k: int| 0 <= k < i ==> s@[at + k] == p@[k],
        decreases p@.len() - i,
    {
        assert(at + i < s@.len());
        if s[at + i] != p[i] {
            assert(s@.subrange(at as int, at + p@.len())[i as int] != p@[i as int]);
            return false;
        }
        i += 1;
    }
    assert(s@.subrange(at as int, at + p@.len()) =~= p@);
    true
}

/// Whether `s` ends with `p`.
pub fn ends_with(s: &[char], p: &[char]) -> (r: bool)
    ensures
        r == has_suffix(s@, p@),
{
    if p.len() > s.len() {
        return false;
    }
    occurs_at_exec(s, p, s.len() - p.len())
}

/// Whether `p` occurs anywhere in `s`.
pub fn contains(s: &[char], p: &[char]) -> (r: bool)
    ensures
        r == has_infix(s@, p@),
{
    if p.len() > s.len() {
        assert forall|i: int| !occurs_at(s@, p@, i) by {}
        return false;
    }
    let last = s.len() - p.len();
    let mut i: usize = 0;
    loop
        invariant
            p@.len() <= s@.len(),
            last == s@.len() - p@.len(),
            i <= last,
            forall|k: int| 0 <= k < i ==> !occurs_at(s@, p@, k),
        decreases last - i,
    {
        if occurs_at_exec(s, p, i) {
            return true;
        }
        if i == last {
            assert forall|k: int| !occurs_at(s@, p@, k) by {
                if 0 <= k <= i {
                }
            }
            return false;
        }
        i += 1;
    }
}

/// First position at or after `from` holding `c`, or `s.len()`.
pub fn find_char(s: &[char], c: char, from: usize) -> (r: usize)
    ensures
        r == find_from(s@, c, from as int),
{
    let mut i = from;
    if i >= s.len() {
        return s.len();
    }
    while i < s.len()
        invariant
            from <= i <= s@.len(),
            find_from(s@, c, from as int) == find_from(s@, c, i as int),
        decreases s@.len() - i,
    {
        if s[i] == c {
            return i;
        }
        i += 1;
    }
    i
}

/// `str::lines`.
pub fn split_lines(s: &[char]) -> (r: Vec<Vec<char>>)
    ensures
        views(r@) == lines(s@),
{
    let mut r: Vec<Vec<char>> = Vec::new();
    let mut i: usize = 0;
    while i < s.len()
        invariant
            i <= s@.len(),
            lines(s@) == views(r@) + lines_from(s@, i as int),
        decreases s@.len() - i,
    {
        let j = find_char(s, '\n', i);
        proof {
            lemma_find_from(s@, '\n', i as int);
        }
        if j < s.len() {
            let mut l = slice_chars(s, i, j);
            if l.len() > 0 && l[l.len() - 1] == '\r' {
                l.pop();
            }
            assert(l@ == strip_cr(s@.subrange(i as int, j as int)));
            let ghost before = views(r@);
            r.push(l);
            assert(views(r@) =~= before.push(l@));
            assert(lines_from(s@, i as int) == seq![l@] + lines_from(s@, j + 1));
            assert(lines(s@) =~= views(r@) + lines_from(s@, j + 1));
            i = j + 1;
        } else {
            let l = slice_chars(s, i, s.len());
            let ghost before = views(r@);
            r.push(l);
            assert(views(r@) =~= before.push(l@));
            assert(lines_from(s@, s@.len() as int) =~= seq![]);
            assert(lines(s@) =~= views(r@) + lines_from(s@, s@.len() as int));
            i = s.len();
        }
    }
    assert(lines_from(s@, i as int) =~= seq![]);
    assert(lines(s@) =~= views(r@));
    r
}

/// `str::split(c)`.
pub fn split_char(s: &[char], c: char) -> (r: Vec<Vec<char>>)
    ensures
        views(r@) == split_on(s@, c),
{
    let mut r: Vec<Vec<char>> = Vec::new();
    let mut i: usize = 0;
    loop
        invariant
            i <= s@.len(),
            split_on(s@, c) == views(r@) + split_from(s@, c, i as int),
        decreases s@.len() - i,
    {
        let j = find_char(s, c, i);
        proof {
            lemma_find_from(s@, c, i as int);
        }
        let piece = slice_chars(s, i, j);
        let ghost before = views(r@);
        r.push(piece);
        assert(views(r@) =~= before.push(piece@));
        if j < s.len() {
            assert(split_from(s@, c, i as int) == seq![piece@] + split_from(s@, c, j + 1));
            assert(split_on(s@, c) =~= views(r@) + split_from(s@, c, j + 1));
            i = j + 1;
        } else {
            assert(split_on(s@, c) =~= views(r@));
            return r;
        }
    }
}

/// The pieces joined with `sep` between neighbours.
pub fn join_chars(ls: &Vec<Vec<char>>, sep: &[char]) -> (r: Vec<char>)
    ensures
        r@ == join_with(views(ls@), sep@),
{
    let mut r: Vec<char> = Vec::new();
    let mut i: usize = 0;
    while i < ls.len()
        invariant
            i <= ls@.len(),
            r@ == join_with(views(ls@).subrange(0, i as int), sep@),
        decreases ls@.len() - i,
    {
        let ghost pre = views(ls@).subrange(0, i as int);
        let ghost next = views(ls@).subrange(0, i + 1);
        assert(next.drop_last() =~= pre);
        if i > 0 {
            push_all(&mut r, sep);
        }
        push_all(&mut r, ls[i].as_slice());
        if i == 0 {
            assert(r@ =~= next[0]);
        }
        i += 1;
    }
    assert(views(ls@).subrange(0, ls@.len() as int) =~= views(ls@));
    r
}

/// `str::trim`.
pub fn trim_chars(s: &[char]) -> (r: Vec<char>)
    ensures
        r@ == trim(s@),
{
    let mut a: usize = 0;
    while a < s.len() && is_whitespace(s[a])
        invariant
            a <= s@.len(),
            skip_ws(s@, 0) == skip_ws(s@, a as int),
        decreases s@.len() - a,
    {
        a += 1;
    }
    let mut b: usize = s.len();
    while b > 0 && is_whitespace(s[b - 1])
        invariant
            b <= s@.len(),
            skip_ws_back(s@, s@.len() as int) == skip_ws_back(s@, b as int),
        decreases b,
    {
        b -= 1;
    }
    if a < b {
        slice_chars(s, a, b)
    } else {
        Vec::new()
    }
}

/// `str::to_ascii_lowercase`.
pub fn ascii_lowercase(s: &[char]) -> (r: Vec<char>)
    ensures
        r@ == ascii_lower(s@),
{
    let mut r: Vec<char> = Vec::new();
    let mut i: usize = 0;
    while i < s.len()
        invariant
            i <= s@.len(),
            r@ == ascii_lower(s@.subrange(0, i as int)),
        decreases s@.len() - i,
    {
        let c = s[i];
        let d = if 'A' <= c && c <= 'Z' {
            ((c as u8) + 32) as char
        } else {
            c
        };
        assert(d == ascii_lower_char(c)) by {
            if 'A' <= c && c <= 'Z' {
                assert((c as u8) as u32 == c as u32);
            }
        }
        r.push(d);
        i += 1;
        assert(r@ =~= ascii_lower(s@.subrange(0, i as int)));
    }
    assert(s@.subrange(0, s@.len() as int) =~= s@);
    r
}

/// One past the end of the run of non-white-space characters at `i`.
pub open spec fn token_end(s: Seq<char>, i: int) -> int
    decreases s.len() - i,
{
    if 0 <= i < s.len() && !is_ws(s[i]) {
        token_end(s, i + 1)
    } else {
        i
    }
}

pub proof fn lemma_token_end(s: Seq<char>, i: int)
    requires
        0 <= i <= s.len(),
    ensures
        i <= token_end(s, i) <= s.len(),
        forall|k: int| i <= k < token_end(s, i) ==> !is_ws(s[k]),
        token_end(s, i) < s.len() ==> is_ws(s[token_end(s, i)]),
    decreases s.len() - i,
{
    if i < s.len() && !is_ws(s[i]) {
        lemma_token_end(s, i + 1);
    }
}

/// The white-space separated words of `s` from position `i` on.
pub open spec fn words_from(s: Seq<char>, i: int) -> Seq<Seq<char>>
    decreases s.len() - i,
{
    if i < 0 || i >= s.len() {
        seq![]
    } else if is_ws(s[i]) {
        words_from(s, i + 1)
    } else {
        let j = token_end(s, i);
        proof {
            lemma_token_end(s, i + 1);
        }
        seq![s.subrange(i, j)] + words_from(s, j)
    }
}

/// `str::split_whitespace`.
pub open spec fn words(s: Seq<char>) -> Seq<Seq<char>> {
    words_from(s, 0)
}

/// `str::split_whitespace` on characters.
pub fn split_words(s: &[char]) -> (r: Vec<Vec<char>>)
    ensures
        views(r@) == words(s@),
{
    let mut r: Vec<Vec<char>> = Vec::new();
    let mut i: usize = 0;
    while i < s.len()
        invariant
            i <= s@.len(),
            words(s@) == views(r@) + words_from(s@, i as int),
        decreases s@.len() - i,
    {
        if is_whitespace(s[i]) {
            i += 1;
        } else {
            let mut j = i;
            while j < s.len() && !is_whitespace(s[j])
                invariant
                    i <= j <= s@.len(),
                    token_end(s@, i as int) == token_end(s@, j as int),
                decreases s@.len() - j,
            {
                j += 1;
            }
            proof {
                lemma_token_end(s@, i as int);
            }
            let w = slice_chars(s, i, j);
            let ghost before = views(r@);
            r.push(w);
            assert(views(r@) =~= before.push(w@));
            assert(words(s@) =~= views(r@) + words_from(s@, j as int));
            i = j;
        }
    }
    assert(words_from(s@, i as int) =~= seq![]);
    assert(words(s@) =~= views(r@));
    r
}


/// Whether a line ends with a carriage return.
pub open spec fn ends_with_cr(l: Seq<char>) -> bool {
    l.len() > 0 && l.last() == '\r'
}

/// Whether a text ends with a line feed.
pub open spec fn ends_with_lf(s: Seq<char>) -> bool {
    s.len() > 0 && s.last() == '\n'
}

/// Reading lines past a prefix `p` reads the lines of the rest.
pub proof fn lemma_lines_from_shift(p: Seq<char>, t: Seq<char>, i: int)
    requires
        0 <= i <= t.len(),
    ensures
        lines_from(p + t, p.len() + i) == lines_from(t, i),
    decreases t.len() - i,
{
    let s = p + t;
    if i < t.len() {
        lemma_find_from_shift(p, t, '\n', i);
        lemma_find_from(t, '\n', i);
        let j = find_from(t, '\n', i);
        if j < t.len() {
            lemma_lines_from_shift(p, t, j + 1);
            assert(s.subrange(p.len() + i, p.len() + j) =~= t.subrange(i, j));
        } else {
            assert(s.subrange(p.len() + i, s.len() as int) =~= t.subrange(i, t.len() as int));
        }
    }
}

/// A piece without `\n` followed by `\n` is the first line.
pub proof fn lemma_lines_piece(e: Seq<char>, t: Seq<char>)
    requires
        !e.contains('\n'),
    ensures
        lines(e.push('\n') + t) == seq![strip_cr(e)] + lines(t),
{
    let s = e.push('\n') + t;
    lemma_find_after_piece(e, t, '\n');
    assert(s.subrange(0, e.len() as int) =~= e);
    lemma_lines_from_shift(e.push('\n'), t, 0);
}

/// A non-empty text without `\n` is one line.
pub proof fn lemma_lines_single(x: Seq<char>)
    requires
        x.len() > 0,
        !x.contains('\n'),
    ensures
        lines(x) == seq![x],
{
    lemma_find_from(x, '\n', 0);
    if find_from(x, '\n', 0) < x.len() {
        assert(x.contains('\n'));
    }
    assert(x.subrange(0, x.len() as int) =~= x);
}

/// No line holds `\n`.
pub proof fn lemma_lines_free(s: Seq<char>, i: int)
    ensures
        forall|k: int| 0 <= k < lines_from(s, i).len() ==> !(#[trigger] lines_from(s, i)[k]).contains('\n'),
    decreases s.len() - i,
{
    if 0 <= i < s.len() {
        lemma_find_from(s, '\n', i);
        let j = find_from(s, '\n', i);
        let ls = lines_from(s, i);
        if j < s.len() {
            lemma_lines_free(s, j + 1);
            let piece = s.subrange(i, j);
            assert(!piece.contains('\n')) by {
                if piece.contains('\n') {
                    let m = choose|m: int| 0 <= m < piece.len() && piece[m] == '\n';
                    assert(s[i + m] == '\n');
                }
            }
            assert(!strip_cr(piece).contains('\n')) by {
                if strip_cr(piece).contains('\n') {
                    let m = choose|m: int| 0 <= m < strip_cr(piece).len() && strip_cr(piece)[m] == '\n';
                    assert(piece[m] == '\n');
                }
            }
            assert forall|k: int| 0 <= k < ls.len() implies !(#[trigger] ls[k]).contains('\n') by {
                if k > 0 {
                    assert(ls[k] == lines_from(s, j + 1)[k - 1]);
                }
            }
        } else {
            let piece = s.subrange(i, s.len() as int);
            assert(!piece.contains('\n')) by {
                if piece.contains('\n') {
                    let m = choose|m: int| 0 <= m < piece.len() && piece[m] == '\n';
                    assert(s[i + m] == '\n');
                }
            }
            assert(ls == seq![piece]);
        }
    }
}

/// When the text does not end with `\n`, its last line is not empty.
pub proof fn lemma_lines_last_nonempty(s: Seq<char>, i: int)
    requires
        !ends_with_lf(s),
        lines_from(s, i).len() > 0,
    ensures
        lines_from(s, i).last().len() > 0,
    decreases s.len() - i,
{
    lemma_find_from(s, '\n', i);
    let j = find_from(s, '\n', i);
    if j < s.len() {
        if j + 1 >= s.len() {
            assert(s.last() == '\n');
        }
        lemma_lines_last_nonempty(s, j + 1);
        assert(lines_from(s, i).last() == lines_from(s, j + 1).last());
    }
}

} // verus!
