//! Character-level text helpers: trimming, searching and splitting,
//! each stated over the character sequence of the text.
use vstd::prelude::*;

verus! {

/// The characters with the Unicode `White_Space` property.
pub open spec fn is_ws(c: char) -> bool {
    ('\u{9}' <= c && c <= '\u{d}') || c == ' ' || c == '\u{85}' || c == '\u{a0}'
        || c == '\u{1680}' || ('\u{2000}' <= c && c <= '\u{200a}') || c == '\u{2028}'
        || c == '\u{2029}' || c == '\u{202f}' || c == '\u{205f}' || c == '\u{3000}'
}

/// `s` without its leading whitespace.
pub open spec fn trim_start(s: Seq<char>) -> Seq<char>
    decreases s.len(),
{
    if s.len() > 0 && is_ws(s[0]) {
        trim_start(s.drop_first())
    } else {
        s
    }
}

/// `s` without its trailing whitespace.
pub open spec fn trim_end(s: Seq<char>) -> Seq<char>
    decreases s.len(),
{
    if s.len() > 0 && is_ws(s.last()) {
        trim_end(s.drop_last())
    } else {
        s
    }
}

/// `s` without leading and trailing whitespace.
pub open spec fn trim(s: Seq<char>) -> Seq<char> {
    trim_end(trim_start(s))
}

/// `p` occurs in `s` starting at position `i`.
pub open spec fn occurs_at(s: Seq<char>, p: Seq<char>, i: int) -> bool {
    0 <= i && i + p.len() <= s.len() && s.subrange(i, i + p.len()) == p
}

/// The first position at or after `i` where `p` occurs in `s`, or -1.
pub open spec fn find_from(s: Seq<char>, p: Seq<char>, i: int) -> int
    decreases s.len() + 1 - i,
{
    if i < 0 || i + p.len() > s.len() {
        -1
    } else if occurs_at(s, p, i) {
        i
    } else {
        find_from(s, p, i + 1)
    }
}

/// The first position where `p` occurs in `s`, or -1.
pub open spec fn find(s: Seq<char>, p: Seq<char>) -> int {
    find_from(s, p, 0)
}

/// The last position at or before `i` where `p` occurs in `s`, or -1.
pub open spec fn rfind_from(s: Seq<char>, p: Seq<char>, i: int) -> int
    decreases i + 1,
{
    if i < 0 {
        -1
    } else if occurs_at(s, p, i) {
        i
    } else {
        rfind_from(s, p, i - 1)
    }
}

/// The last position where `p` occurs in `s`, or -1.
pub open spec fn rfind(s: Seq<char>, p: Seq<char>) -> int {
    rfind_from(s, p, s.len() - p.len())
}

/// The pieces of `s` from `start` on, cut at each occurrence of `p` found
/// scanning left to right from `i`, matches not overlapping.
pub open spec fn split_from(s: Seq<char>, p: Seq<char>, start: int, i: int) -> Seq<Seq<char>>
    decreases s.len() - i,
{
    if p.len() == 0 || i < start || start < 0 || i + p.len() > s.len() {
        seq![s.subrange(start, s.len() as int)]
    } else if occurs_at(s, p, i) {
        seq![s.subrange(start, i)] + split_from(s, p, i + p.len(), i + p.len())
    } else {
        split_from(s, p, start, i + 1)
    }
}

/// The pieces of `s` between the occurrences of `p`, as `str::split` gives them.
pub open spec fn split(s: Seq<char>, p: Seq<char>) -> Seq<Seq<char>> {
    split_from(s, p, 0, 0)
}

proof fn lemma_trim_start_front(s: Seq<char>)
    ensures
        trim_start(s).len() > 0 ==> !is_ws(trim_start(s)[0]),
    decreases s.len(),
{
    if s.len() > 0 && is_ws(s[0]) {
        lemma_trim_start_front(s.drop_first());
    }
}

proof fn lemma_trim_end_prefix(s: Seq<char>)
    ensures
        trim_end(s).len() <= s.len(),
        trim_end(s) == s.subrange(0, trim_end(s).len() as int),
        trim_end(s).len() > 0 ==> !is_ws(trim_end(s).last()),
    decreases s.len(),
{
    if s.len() > 0 && is_ws(s.last()) {
        lemma_trim_end_prefix(s.drop_last());
        assert(s.drop_last().subrange(0, trim_end(s).len() as int) =~= s.subrange(
            0,
            trim_end(s).len() as int,
        ));
    } else {
        assert(s.subrange(0, s.len() as int) =~= s);
    }
}

/// A trimmed text that is not empty starts and ends with a character that
/// is not whitespace.
pub proof fn lemma_trim_ends(s: Seq<char>)
    ensures
        trim(s).len() > 0 ==> !is_ws(trim(s)[0]) && !is_ws(trim(s).last()),
{
    lemma_trim_start_front(s);
    lemma_trim_end_prefix(trim_start(s));
}

/// A text that starts and ends with a character that is not whitespace is
/// its own trimmed form.
pub proof fn lemma_trim_fixed(s: Seq<char>)
    requires
        s.len() > 0,
        !is_ws(s[0]),
        !is_ws(s.last()),
    ensures
        trim(s) == s,
{
}

/// Trimming twice is trimming once.
pub proof fn lemma_trim_idempotent(s: Seq<char>)
    ensures
        trim(trim(s)) == trim(s),
{
    lemma_trim_ends(s);
    if trim(s).len() > 0 {
        lemma_trim_fixed(trim(s));
    }
}

/// What the backward search finds is an occurrence at or before `i`.
pub proof fn lemma_rfind_found(s: Seq<char>, p: Seq<char>, i: int)
    ensures
        rfind_from(s, p, i) >= 0 ==> occurs_at(s, p, rfind_from(s, p, i)) && rfind_from(s, p, i)
            <= i,
        rfind_from(s, p, i) >= -1,
    decreases i + 1,
{
    if i >= 0 && !occurs_at(s, p, i) {
        lemma_rfind_found(s, p, i - 1);
    }
}

/// Where the search from `i` finds nothing, `p` occurs nowhere from `i` on.
pub proof fn lemma_find_none(s: Seq<char>, p: Seq<char>, i: int, j: int)
    requires
        0 <= i <= j,
        find_from(s, p, i) == -1,
    ensures
        !occurs_at(s, p, j),
    decreases j - i,
{
    if i < j && i + p.len() <= s.len() {
        lemma_find_none(s, p, i + 1, j);
    }
}

/// Scanning past positions where `p` does not occur leaves the pieces as they are.
pub proof fn lemma_split_skip(s: Seq<char>, p: Seq<char>, start: int, i: int, k: int)
    requires
        p.len() > 0,
        0 <= start <= i <= k,
        k + p.len() <= s.len(),
        forall|j: int| i <= j < k ==> !occurs_at(s, p, j),
    ensures
        split_from(s, p, start, i) == split_from(s, p, start, k),
    decreases k - i,
{
    if i < k {
        lemma_split_skip(s, p, start, i + 1, k);
    }
}

/// A text in which `p` does not occur is a single piece.
pub proof fn lemma_split_none(s: Seq<char>, p: Seq<char>, start: int, i: int)
    requires
        p.len() > 0,
        0 <= start <= i,
        forall|j: int| i <= j ==> !occurs_at(s, p, j),
    ensures
        split_from(s, p, start, i) == seq![s.subrange(start, s.len() as int)],
    decreases s.len() - i,
{
    if i + p.len() <= s.len() {
        lemma_split_none(s, p, start, i + 1);
    }
}

/// The pieces of `x + y` past `x` are the pieces of `y`.
pub proof fn lemma_split_shift(x: Seq<char>, y: Seq<char>, p: Seq<char>, start: int, i: int)
    requires
        p.len() > 0,
        0 <= start <= i <= y.len(),
    ensures
        split_from(x + y, p, x.len() + start, x.len() + i) == split_from(y, p, start, i),
    decreases y.len() - i,
{
    let s = x + y;
    if i + p.len() <= y.len() {
        assert(s.subrange(x.len() + i, x.len() + i + p.len()) =~= y.subrange(i, i + p.len()));
        assert(s.subrange(x.len() + start, x.len() + i) =~= y.subrange(start, i));
        assert(occurs_at(s, p, x.len() + i) == occurs_at(y, p, i));
        if occurs_at(y, p, i) {
            lemma_split_shift(x, y, p, i + p.len(), i + p.len());
        } else {
            lemma_split_shift(x, y, p, start, i + 1);
        }
    }
    assert(s.subrange(x.len() + start, s.len() as int) =~= y.subrange(start, y.len() as int));
}

/// Relies on `String::push`: it appends one character.
#[verifier::external_body]
fn push_char(s: &mut String, c: char)
    ensures
        final(s)@ == old(s)@.push(c),
{
    s.push(c)
}

/// The characters of `s`, in order.
pub fn chars_of(s: &str) -> (r: Vec<char>)
    ensures
        r@ == s@,
{
    let mut r: Vec<char> = Vec::new();
    for c in it: s.chars()
        invariant
            r@ == it.seq().take(it.index() as int),
    {
        r.push(c);
    }
    r
}

/// Whether `c` has the Unicode `White_Space` property.
pub fn is_whitespace(c: char) -> (r: bool)
    ensures
        r == is_ws(c),
{
    ('\u{9}' <= c && c <= '\u{d}') || c == ' ' || c == '\u{85}' || c == '\u{a0}'
        || c == '\u{1680}' || ('\u{2000}' <= c && c <= '\u{200a}') || c == '\u{2028}'
        || c == '\u{2029}' || c == '\u{202f}' || c == '\u{205f}' || c == '\u{3000}'
}

/// The characters of `v` from `lo` up to `hi`, as a `String`.
pub fn string_of(v: &Vec<char>, lo: usize, hi: usize) -> (r: String)
    requires
        lo <= hi <= v.len(),
    ensures
        r@ == v@.subrange(lo as int, hi as int),
{
    let mut r = String::new();
    let mut i: usize = lo;
    while i < hi
        invariant
            lo <= i <= hi <= v.len(),
            r@ == v@.subrange(lo as int, i as int),
        decreases hi - i,
    {
        push_char(&mut r, v[i]);
        assert(v@.subrange(lo as int, i + 1) =~= v@.subrange(lo as int, i as int).push(v@[i as int]));
        i += 1;
    }
    r
}

/// The bounds, within `lo..hi`, of that part of `v` with its leading and
/// trailing whitespace taken off.
pub fn trim_range(v: &Vec<char>, lo: usize, hi: usize) -> (r: (usize, usize))
    requires
        lo <= hi <= v.len(),
    ensures
        lo <= r.0 <= r.1 <= hi,
        v@.subrange(r.0 as int, r.1 as int) == trim(v@.subrange(lo as int, hi as int)),
{
    let mut a: usize = lo;
    while a < hi && is_whitespace(v[a])
        invariant
            lo <= a <= hi <= v.len(),
            trim_start(v@.subrange(lo as int, hi as int)) == trim_start(
                v@.subrange(a as int, hi as int),
            ),
        decreases hi - a,
    {
        assert(v@.subrange(a as int, hi as int).drop_first() =~= v@.subrange(a + 1, hi as int));
        a += 1;
    }
    assert(trim_start(v@.subrange(lo as int, hi as int)) == v@.subrange(a as int, hi as int));
    let mut b: usize = hi;
    while b > a && is_whitespace(v[b - 1])
        invariant
            lo <= a <= b <= hi <= v.len(),
            trim_end(v@.subrange(a as int, hi as int)) == trim_end(
                v@.subrange(a as int, b as int),
            ),
        decreases b - a,
    {
        assert(v@.subrange(a as int, b as int).drop_last() =~= v@.subrange(a as int, b - 1));
        b -= 1;
    }
    (a, b)
}

/// Whether `p` occurs in `v` at position `k`, looking only within `lo..hi`.
pub fn occurs(v: &Vec<char>, lo: usize, hi: usize, p: &Vec<char>, k: usize) -> (r: bool)
    requires
        lo <= k <= hi <= v.len(),
    ensures
        r == occurs_at(v@.subrange(lo as int, hi as int), p@, k - lo),
{
    if p.len() > hi - k {
        return false;
    }
    let mut j: usize = 0;
    while j < p.len()
        invariant
            lo <= k <= hi <= v.len(),
            k + p.len() <= hi,
            j <= p.len(),
            forall|m: int| 0 <= m < j ==> v@[k + m] == p@[m],
        decreases p.len() - j,
    {
        if v[k + j] != p[j] {
            assert(v@.subrange(lo as int, hi as int).subrange(k - lo, k - lo + p.len())[j as int]
                != p@[j as int]);
            return false;
        }
        j += 1;
    }
    assert(v@.subrange(lo as int, hi as int).subrange(k - lo, k - lo + p.len()) =~= p@);
    true
}

/// The first position of `p` within `lo..hi` of `v`, counted from `lo`.
pub fn find_in(v: &Vec<char>, lo: usize, hi: usize, p: &Vec<char>) -> (r: Option<usize>)
    requires
        lo <= hi <= v.len(),
    ensures
        match r {
            Some(i) => i as int == find(v@.subrange(lo as int, hi as int), p@) && occurs_at(
                v@.subrange(lo as int, hi as int),
                p@,
                i as int,
            ),
            None => find(v@.subrange(lo as int, hi as int), p@) == -1,
        },
{
    let ghost s = v@.subrange(lo as int, hi as int);
    let mut k: usize = lo;
    while p.len() <= hi - k
        invariant
            lo <= k <= hi <= v.len(),
            s == v@.subrange(lo as int, hi as int),
            find(s, p@) == find_from(s, p@, k - lo),
        decreases hi - k,
    {
        if occurs(v, lo, hi, p, k) {
            return Some(k - lo);
        }
        if k == hi {
            assert(find_from(s, p@, k - lo + 1) == -1);
            return None;
        }
        k += 1;
    }
    None
}

/// The last position of `p` within `lo..hi` of `v`, counted from `lo`.
pub fn rfind_in(v: &Vec<char>, lo: usize, hi: usize, p: &Vec<char>) -> (r: Option<usize>)
    requires
        lo <= hi <= v.len(),
    ensures
        match r {
            Some(i) => i as int == rfind(v@.subrange(lo as int, hi as int), p@) && occurs_at(
                v@.subrange(lo as int, hi as int),
                p@,
                i as int,
            ),
            None => rfind(v@.subrange(lo as int, hi as int), p@) == -1,
        },
{
    let ghost s = v@.subrange(lo as int, hi as int);
    if p.len() > hi - lo {
        return None;
    }
    let mut k: usize = hi - p.len();
    loop
        invariant
            lo <= k <= hi - p.len(),
            p.len() <= hi - lo,
            hi <= v.len(),
            s == v@.subrange(lo as int, hi as int),
            rfind(s, p@) == rfind_from(s, p@, k - lo),
        decreases k - lo,
    {
        if occurs(v, lo, hi, p, k) {
            return Some(k - lo);
        }
        if k == lo {
            assert(rfind_from(s, p@, -1) == -1);
            return None;
        }
        k -= 1;
    }
}

} // verus!
