//! Byte-level text helpers: whitespace, trimming, ASCII case folding,
//! pattern search and splitting. Every helper is specified over `Seq<u8>`.
use vstd::prelude::*;

verus! {

/// ASCII whitespace: space, tab, line feed, vertical tab, form feed, carriage return.
pub open spec fn is_ws(c: u8) -> bool {
    c == 32 || c == 9 || c == 10 || c == 11 || c == 12 || c == 13
}

pub open spec fn lower_byte(c: u8) -> u8 {
    if 65 <= c && c <= 90 {
        (c + 32) as u8
    } else {
        c
    }
}

/// ASCII lower case of a byte string.
pub open spec fn ascii_lower(s: Seq<u8>) -> Seq<u8> {
    Seq::new(s.len(), |i: int| lower_byte(s[i]))
}

/// First index at or after `i` that is not whitespace (or the length).
pub open spec fn skip_ws(s: Seq<u8>, i: int) -> int
    decreases s.len() - i,
{
    if 0 <= i < s.len() && is_ws(s[i]) {
        skip_ws(s, i + 1)
    } else {
        i
    }
}

/// End of `s[lo..hi]` once trailing whitespace is dropped.
pub open spec fn trim_end_at(s: Seq<u8>, lo: int, hi: int) -> int
    decreases hi - lo,
{
    if lo < hi && 0 < hi <= s.len() && is_ws(s[hi - 1]) {
        trim_end_at(s, lo, hi - 1)
    } else {
        hi
    }
}

/// `s` without leading and trailing whitespace.
pub open spec fn trim(s: Seq<u8>) -> Seq<u8> {
    let lo = skip_ws(s, 0);
    s.subrange(lo, trim_end_at(s, lo, s.len() as int))
}

/// First index `j >= i` where `p` occurs in `s`, or `s.len()` if none does.
pub open spec fn find_from(s: Seq<u8>, i: int, p: Seq<u8>) -> int
    decreases s.len() - i,
{
    if i < 0 || i >= s.len() || i + p.len() > s.len() {
        s.len() as int
    } else if s.subrange(i, i + p.len()) == p {
        i
    } else {
        find_from(s, i + 1, p)
    }
}

/// The pieces of `s[i..]` between occurrences of the non-empty pattern `p`.
pub open spec fn split_from(s: Seq<u8>, i: int, p: Seq<u8>) -> Seq<Seq<u8>>
    decreases s.len() - i,
{
    let j = find_from(s, i, p);
    if p.len() == 0 || i < 0 || i > s.len() || j < i || j + p.len() > s.len() {
        seq![s.subrange(i, s.len() as int)]
    } else {
        seq![s.subrange(i, j)] + split_from(s, j + p.len(), p)
    }
}

/// The pieces of `s` between occurrences of the non-empty pattern `p`.
pub open spec fn split_all(s: Seq<u8>, p: Seq<u8>) -> Seq<Seq<u8>> {
    split_from(s, 0, p)
}

/// What comes before the first `d` in `s` (all of `s` if there is none).
pub open spec fn before_first(s: Seq<u8>, d: u8) -> Seq<u8> {
    s.take(find_from(s, 0, seq![d]))
}

/// What comes after the first `d` in `s`, if there is one.
pub open spec fn after_first(s: Seq<u8>, d: u8) -> Option<Seq<u8>> {
    let j = find_from(s, 0, seq![d]);
    if j < s.len() {
        Some(s.skip(j + 1))
    } else {
        None
    }
}

pub proof fn lemma_find_from_bounds(s: Seq<u8>, i: int, p: Seq<u8>)
    requires
        0 <= i <= s.len(),
    ensures
        find_from(s, i, p) == s.len() || (i <= find_from(s, i, p) && find_from(s, i, p)
            + p.len() <= s.len() && s.subrange(find_from(s, i, p), find_from(s, i, p)
            + p.len()) == p),
    decreases s.len() - i,
{
    if i + p.len() > s.len() {
    } else if s.subrange(i, i + p.len()) == p {
    } else {
        if p.len() == 0 {
            assert(s.subrange(i, i) =~= p);
        }
        lemma_find_from_bounds(s, i + 1, p);
    }
}

/// A copy of `s[lo..hi]`.
pub fn copy_range(s: &[u8], lo: usize, hi: usize) -> (r: Vec<u8>)
    requires
        lo <= hi <= s@.len(),
    ensures
        r@ == s@.subrange(lo as int, hi as int),
{
    let mut r: Vec<u8> = Vec::new();
    let mut i: usize = lo;
    while i < hi
        invariant
            lo <= i <= hi <= s@.len(),
            r@ == s@.subrange(lo as int, i as int),
        decreases hi - i,
    {
        r.push(s[i]);
        assert(r@ =~= s@.subrange(lo as int, i + 1));
        i = i + 1;
    }
    r
}

/// Whether `a` and `b` hold the same bytes.
pub fn bytes_eq(a: &[u8], b: &[u8]) -> (r: bool)
    ensures
        r == (a@ == b@),
{
    if a.len() != b.len() {
        return false;
    }
    let mut i: usize = 0;
    while i < a.len()
        invariant
            a@.len() == b@.len(),
            i <= a@.len(),
            forall|k: int| 0 <= k < i ==> a@[k] == b@[k],
        decreases a@.len() - i,
    {
        if a[i] != b[i] {
            return false;
        }
        i = i + 1;
    }
    assert(a@ =~= b@);
    true
}

/// Whether `p` occurs in `s` at index `i`.
pub fn matches_at(s: &[u8], i: usize, p: &[u8]) -> (r: bool)
    requires
        i <= s@.len(),
    ensures
        r == (i + p@.len() <= s@.len() && s@.subrange(i as int, i + p@.len()) == p@),
{
    if p.len() > s.len() - i {
        return false;
    }
    let n = s.len();
    let mut k: usize = 0;
    while k < p.len()
        invariant
            n == s@.len(),
            i + p@.len() <= s@.len(),
            k <= p@.len(),
            forall|m: int| 0 <= m < k ==> s@[i + m] == p@[m],
        decreases p@.len() - k,
    {
        if s[i + k] != p[k] {
            assert(s@.subrange(i as int, i + p@.len())[k as int] != p@[k as int]);
            return false;
        }
        k = k + 1;
    }
    assert(s@.subrange(i as int, i + p@.len()) =~= p@);
    true
}

/// The first index at or after `i` where `p` occurs in `s`, or `s.len()`.
pub fn find_pattern(s: &[u8], i: usize, p: &[u8]) -> (r: usize)
    requires
        i <= s@.len(),
    ensures
        r == find_from(s@, i as int, p@),
        r == s@.len() || (i <= r && r + p@.len() <= s@.len()),
{
    let mut j: usize = i;
    while j < s.len()
        invariant
            i <= j <= s@.len(),
            find_from(s@, i as int, p@) == find_from(s@, j as int, p@),
        decreases s@.len() - j,
    {
        if matches_at(s, j, p) {
            proof {
                lemma_find_from_bounds(s@, j as int, p@);
            }
            return j;
        }
        if p.len() == 0 {
            assert(s@.subrange(j as int, j as int) =~= p@);
        }
        assert(find_from(s@, j as int, p@) == find_from(s@, j + 1, p@));
        j = j + 1;
    }
    if p.len() == 0 {
        assert(s@.subrange(j as int, j as int) =~= p@);
    }
    assert(find_from(s@, j as int, p@) == s@.len());
    j
}

/// Splits `s` at every occurrence of the non-empty pattern `p`.
pub fn split_pattern(s: &[u8], p: &[u8]) -> (r: Vec<Vec<u8>>)
    requires
        p@.len() > 0,
    ensures
        r@.map_values(|v: Vec<u8>| v@) == split_all(s@, p@),
{
    let mut r: Vec<Vec<u8>> = Vec::new();
    let mut pos: usize = 0;
    loop
        invariant
            p@.len() > 0,
            pos <= s@.len(),
            r@.map_values(|v: Vec<u8>| v@) + split_from(s@, pos as int, p@) == split_all(s@, p@),
        decreases s@.len() - pos,
    {
        let j = find_pattern(s, pos, p);
        proof {
            lemma_find_from_bounds(s@, pos as int, p@);
        }
        if j == s.len() {
            let piece = copy_range(s, pos, s.len());
            let ghost before = r@.map_values(|v: Vec<u8>| v@);
            r.push(piece);
            assert(r@.map_values(|v: Vec<u8>| v@) =~= before + split_from(s@, pos as int, p@));
            return r;
        }
        let piece = copy_range(s, pos, j);
        let ghost before = r@.map_values(|v: Vec<u8>| v@);
        r.push(piece);
        assert(r@.map_values(|v: Vec<u8>| v@) =~= before.push(s@.subrange(pos as int, j as int)));
        assert(split_from(s@, pos as int, p@) == seq![s@.subrange(pos as int, j as int)]
            + split_from(s@, j + p@.len(), p@));
        assert(before + split_from(s@, pos as int, p@) =~= before.push(
            s@.subrange(pos as int, j as int),
        ) + split_from(s@, j + p@.len(), p@));
        pos = j + p.len();
    }
}

/// ASCII lower case of `s`.
pub fn to_ascii_lower(s: &[u8]) -> (r: Vec<u8>)
    ensures
        r@ == ascii_lower(s@),
{
    let mut r: Vec<u8> = Vec::new();
    let mut i: usize = 0;
    while i < s.len()
        invariant
            i <= s@.len(),
            r@ =~= ascii_lower(s@.take(i as int)),
        decreases s@.len() - i,
    {
        let c = s[i];
        let l = if 65 <= c && c <= 90 {
            c + 32
        } else {
            c
        };
        r.push(l);
        i = i + 1;
        assert(r@ =~= ascii_lower(s@.take(i as int)));
    }
    assert(s@.take(s@.len() as int) =~= s@);
    r
}

} // verus!

verus! {

/// Appends the bytes of `s` to `v`.
pub fn append_bytes(v: &mut Vec<u8>, s: &[u8])
    ensures
        final(v)@ == old(v)@ + s@,
{
    let ghost start = v@;
    let mut i: usize = 0;
    while i < s.len()
        invariant
            i <= s@.len(),
            v@ == start + s@.take(i as int),
        decreases s@.len() - i,
    {
        v.push(s[i]);
        i = i + 1;
        assert(v@ =~= start + s@.take(i as int));
    }
    assert(s@.take(s@.len() as int) =~= s@);
}

/// The view of an optional byte vector.
pub open spec fn opt_view(o: Option<Vec<u8>>) -> Option<Seq<u8>> {
    match o {
        Some(v) => Some(v@),
        None => None,
    }
}

pub open spec fn starts_with(s: Seq<u8>, p: Seq<u8>) -> bool {
    p.len() <= s.len() && s.take(p.len() as int) == p
}

pub open spec fn ends_with(s: Seq<u8>, p: Seq<u8>) -> bool {
    p.len() <= s.len() && s.skip(s.len() - p.len()) == p
}

pub fn has_prefix(s: &[u8], p: &[u8]) -> (r: bool)
    ensures
        r == starts_with(s@, p@),
{
    let r = matches_at(s, 0, p);
    assert(s@.subrange(0, p@.len() as int) == s@.take(p@.len() as int));
    r
}

pub fn has_suffix(s: &[u8], p: &[u8]) -> (r: bool)
    ensures
        r == ends_with(s@, p@),
{
    if p.len() > s.len() {
        return false;
    }
    let r = matches_at(s, s.len() - p.len(), p);
    assert(s@.subrange(s@.len() - p@.len(), s@.len() as int) == s@.skip(s@.len() - p@.len()));
    r
}

/// `s` split at its first `d`: what comes before, and what comes after if `d` occurs.
pub fn split_once(s: &[u8], d: u8) -> (r: (Vec<u8>, Option<Vec<u8>>))
    ensures
        r.0@ == before_first(s@, d),
        r.1.is_some() == after_first(s@, d).is_some(),
        r.1.is_some() ==> r.1.unwrap()@ == after_first(s@, d).unwrap(),
{
    let pat: Vec<u8> = vec![d];
    assert(pat@ =~= seq![d]);
    let j = find_pattern(s, 0, pat.as_slice());
    let head = copy_range(s, 0, j);
    assert(s@.subrange(0, j as int) == s@.take(j as int));
    if j < s.len() {
        let tail = copy_range(s, j + 1, s.len());
        assert(s@.subrange(j + 1, s@.len() as int) == s@.skip(j + 1));
        (head, Some(tail))
    } else {
        (head, None)
    }
}

} // verus!

verus! {

/// Relies on `std::str::from_utf8`: it returns `Ok` exactly when the bytes are valid UTF-8.
#[verifier::external_body]
pub(crate) fn is_utf8(b: &[u8]) -> (r: bool)
    ensures
        r == vstd::utf8::valid_utf8(b@),
{
    std::str::from_utf8(b).is_ok()
}

} // verus!

verus! {

/// The first `d` at or after `i` is at `k` (or there is none when `k` is the length).
pub proof fn lemma_find_byte(s: Seq<u8>, d: u8, i: int, k: int)
    requires
        0 <= i <= k <= s.len(),
        forall|j: int| i <= j < k ==> s[j] != d,
        k < s.len() ==> s[k] == d,
    ensures
        find_from(s, i, seq![d]) == k,
    decreases k - i,
{
    if i < k {
        assert(s.subrange(i, i + 1)[0] == s[i]);
        lemma_find_byte(s, d, i + 1, k);
    } else if k < s.len() {
        assert(s.subrange(k, k + 1) =~= seq![d]);
    }
}

} // verus!

verus! {

/// What `str::trim` leaves of the text that some bytes hold.
pub uninterp spec fn trim_of(s: Seq<u8>) -> Seq<u8>;

/// What `str::to_lowercase` makes of the text that some bytes hold.
pub uninterp spec fn lower_of(s: Seq<u8>) -> Seq<u8>;

pub open spec fn is_ascii_bytes(s: Seq<u8>) -> bool {
    forall|i: int| 0 <= i < s.len() ==> s[i] < 128
}

/// The words that `str::split_whitespace` finds in the text that some bytes hold.
pub uninterp spec fn words_of(s: Seq<u8>) -> Seq<Seq<u8>>;

/// Relies on `str::split_whitespace`: the text is cut at runs of Unicode
/// white space and the non-empty pieces are returned in order. The bytes are
/// read as UTF-8 (invalid sequences replaced); the result depends on them alone.
#[verifier::external_body]
pub(crate) fn words(b: &[u8]) -> (r: Vec<Vec<u8>>)
    ensures
        r@.map_values(|v: Vec<u8>| v@) == words_of(b@),
{
    let text = String::from_utf8_lossy(b);
    let mut r: Vec<Vec<u8>> = Vec::new();
    for w in text.split_whitespace() {
        r.push(w.as_bytes().to_vec());
    }
    r
}

/// Relies on `str::trim`: leading and trailing Unicode white space is
/// removed, which for ASCII text is exactly space, tab, line feed, vertical
/// tab, form feed and carriage return. The bytes are read as UTF-8 (invalid
/// sequences replaced); the result depends on them alone.
#[verifier::external_body]
pub(crate) fn trim_text(b: &[u8]) -> (r: Vec<u8>)
    ensures
        r@ == trim_of(b@),
        is_ascii_bytes(b@) ==> r@ == trim(b@),
{
    String::from_utf8_lossy(b).trim().as_bytes().to_vec()
}

/// Relies on `str::to_lowercase`: Unicode lower case, which for ASCII text
/// maps `A`..`Z` to `a`..`z` and keeps every other byte. The bytes are read
/// as UTF-8 (invalid sequences replaced); the result depends on them alone.
#[verifier::external_body]
pub(crate) fn lower_text(b: &[u8]) -> (r: Vec<u8>)
    ensures
        r@ == lower_of(b@),
        is_ascii_bytes(b@) ==> r@ == ascii_lower(b@),
{
    String::from_utf8_lossy(b).to_lowercase().into_bytes()
}

} // verus!
