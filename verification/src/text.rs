//! Character-level helpers shared by the text formats: white space, trimming,
//! splitting, decimal integers, and conversions between bytes, characters
//! and strings.
use vstd::prelude::*;
use vstd::utf8::*;

verus! {

// ---------------------------------------------------------------------------
// White space
// ---------------------------------------------------------------------------

/// Characters with the Unicode `White_Space` property (what `char::is_whitespace` accepts).
pub open spec fn is_ws(c: char) -> bool {
    ||| '\u{9}' <= c <= '\u{d}'
    ||| c == ' '
    ||| c == '\u{85}'
    ||| c == '\u{a0}'
    ||| c == '\u{1680}'
    ||| '\u{2000}' <= c <= '\u{200a}'
    ||| c == '\u{2028}'
    ||| c == '\u{2029}'
    ||| c == '\u{202f}'
    ||| c == '\u{205f}'
    ||| c == '\u{3000}'
}

pub fn is_whitespace(c: char) -> (r: bool)
    ensures
        r == is_ws(c),
{
    ('\u{9}' <= c && c <= '\u{d}') || c == ' ' || c == '\u{85}' || c == '\u{a0}' || c
        == '\u{1680}' || ('\u{2000}' <= c && c <= '\u{200a}') || c == '\u{2028}' || c
        == '\u{2029}' || c == '\u{202f}' || c == '\u{205f}' || c == '\u{3000}'
}

/// `s` without its leading white space.
pub open spec fn trim_start(s: Seq<char>) -> Seq<char>
    decreases s.len(),
{
    if s.len() > 0 && is_ws(s[0]) {
        trim_start(s.drop_first())
    } else {
        s
    }
}

/// `s` without its trailing white space.
pub open spec fn trim_end(s: Seq<char>) -> Seq<char>
    decreases s.len(),
{
    if s.len() > 0 && is_ws(s.last()) {
        trim_end(s.drop_last())
    } else {
        s
    }
}

/// `s` without leading and trailing white space (what `str::trim` returns).
pub open spec fn trim(s: Seq<char>) -> Seq<char> {
    trim_end(trim_start(s))
}

/// Trimming from the front drops exactly a white-space prefix.
pub proof fn lemma_trim_start_shape(s: Seq<char>)
    ensures
        exists|k: int|
            0 <= k <= s.len() && trim_start(s) == s.subrange(k, s.len() as int) && (forall|j: int|
                0 <= j < k ==> is_ws(#[trigger] s[j])) && (k < s.len() ==> !is_ws(s[k])),
    decreases s.len(),
{
    if s.len() > 0 && is_ws(s[0]) {
        lemma_trim_start_shape(s.drop_first());
        let k = choose|k: int|
            0 <= k <= s.drop_first().len() && trim_start(s.drop_first())
                == s.drop_first().subrange(k, s.drop_first().len() as int) && (forall|j: int|
                0 <= j < k ==> is_ws(#[trigger] s.drop_first()[j])) && (k < s.drop_first().len()
                ==> !is_ws(s.drop_first()[k]));
        assert(s.drop_first().subrange(k, s.drop_first().len() as int) =~= s.subrange(
            k + 1,
            s.len() as int,
        ));
        assert forall|j: int| 0 <= j < k + 1 implies is_ws(#[trigger] s[j]) by {
            if j > 0 {
                assert(s[j] == s.drop_first()[j - 1]);
            }
        }
    } else {
        assert(s.subrange(0, s.len() as int) =~= s);
    }
}

/// A white-space prefix followed by a non-space character is what trimming from the front drops.
pub proof fn lemma_trim_start_of(s: Seq<char>, k: int)
    requires
        0 <= k <= s.len(),
        forall|j: int| 0 <= j < k ==> is_ws(#[trigger] s[j]),
        k < s.len() ==> !is_ws(s[k]),
    ensures
        trim_start(s) == s.subrange(k, s.len() as int),
    decreases k,
{
    if k == 0 {
        assert(s.subrange(0, s.len() as int) =~= s);
    } else {
        assert forall|j: int| 0 <= j < k - 1 implies is_ws(#[trigger] s.drop_first()[j]) by {
            assert(s.drop_first()[j] == s[j + 1]);
        }
        lemma_trim_start_of(s.drop_first(), k - 1);
        assert(s.drop_first().subrange(k - 1, s.drop_first().len() as int) =~= s.subrange(
            k,
            s.len() as int,
        ));
    }
}

/// A white-space suffix preceded by a non-space character is what trimming from the back drops.
pub proof fn lemma_trim_end_of(s: Seq<char>, k: int)
    requires
        0 <= k <= s.len(),
        forall|j: int| k <= j < s.len() ==> is_ws(#[trigger] s[j]),
        k > 0 ==> !is_ws(s[k - 1]),
    ensures
        trim_end(s) == s.subrange(0, k),
    decreases s.len() - k,
{
    if k == s.len() {
        assert(s.subrange(0, k) =~= s);
    } else {
        assert forall|j: int| k <= j < s.drop_last().len() implies is_ws(
            #[trigger] s.drop_last()[j],
        ) by {
            assert(s.drop_last()[j] == s[j]);
        }
        lemma_trim_end_of(s.drop_last(), k);
        assert(s.drop_last().subrange(0, k) =~= s.subrange(0, k));
    }
}

/// A sequence that neither starts nor ends with white space is its own trim.
pub proof fn lemma_trim_noop(s: Seq<char>)
    requires
        s.len() > 0 ==> !is_ws(s[0]) && !is_ws(s.last()),
    ensures
        trim(s) == s,
{
    lemma_trim_start_of(s, 0);
    assert(s.subrange(0, s.len() as int) =~= s);
    lemma_trim_end_of(s, s.len() as int);
}

proof fn lemma_trim_start_push_ws(s: Seq<char>, c: char)
    requires
        is_ws(c),
    ensures
        trim_start(s.push(c)) == if trim_start(s).len() == 0 {
            Seq::<char>::empty()
        } else {
            trim_start(s).push(c)
        },
    decreases s.len(),
{
    if s.len() == 0 {
        assert(s.push(c).drop_first() =~= Seq::<char>::empty());
        assert(trim_start(Seq::<char>::empty()) =~= Seq::<char>::empty());
        assert(s.push(c)[0] == c);
    } else if is_ws(s[0]) {
        assert(s.push(c)[0] == s[0]);
        assert(s.push(c).drop_first() =~= s.drop_first().push(c));
        lemma_trim_start_push_ws(s.drop_first(), c);
    } else {
        assert(s.push(c)[0] == s[0]);
    }
}

/// Trimming ignores white space put at the end.
pub proof fn lemma_trim_push_ws(s: Seq<char>, c: char)
    requires
        is_ws(c),
    ensures
        trim(s.push(c)) == trim(s),
{
    lemma_trim_start_push_ws(s, c);
    let t = trim_start(s);
    if t.len() > 0 {
        assert(t.push(c).drop_last() =~= t);
    } else {
        assert(trim_end(t) =~= Seq::<char>::empty());
    }
}

/// The lines `ls`, each followed by a line break.
pub open spec fn lines_text(ls: Seq<Seq<char>>) -> Seq<char>
    decreases ls.len(),
{
    if ls.len() == 0 {
        seq![]
    } else {
        ls[0].push('\n') + lines_text(ls.drop_first())
    }
}

/// The bounds `[a, b)` of `trim(v[lo..hi])` inside `v`.
pub fn trim_bounds(v: &Vec<char>, lo: usize, hi: usize) -> (r: (usize, usize))
    requires
        lo <= hi <= v@.len(),
    ensures
        lo <= r.0 <= r.1 <= hi,
        v@.subrange(r.0 as int, r.1 as int) == trim(v@.subrange(lo as int, hi as int)),
{
    let ghost s = v@.subrange(lo as int, hi as int);
    let mut a = lo;
    while a < hi && is_whitespace(v[a])
        invariant
            lo <= a <= hi <= v@.len(),
            s == v@.subrange(lo as int, hi as int),
            forall|j: int| lo <= j < a ==> is_ws(#[trigger] v@[j]),
        decreases hi - a,
    {
        a = a + 1;
    }
    proof {
        assert forall|j: int| 0 <= j < a - lo implies is_ws(#[trigger] s[j]) by {
            assert(s[j] == v@[lo + j]);
        }
        lemma_trim_start_of(s, a - lo);
        assert(s.subrange(a - lo, s.len() as int) =~= v@.subrange(a as int, hi as int));
    }
    let mut b = hi;
    while b > a && is_whitespace(v[b - 1])
        invariant
            lo <= a <= b <= hi <= v@.len(),
            forall|j: int| b <= j < hi ==> is_ws(#[trigger] v@[j]),
        decreases b - a,
    {
        b = b - 1;
    }
    proof {
        let t = v@.subrange(a as int, hi as int);
        assert forall|j: int| b - a <= j < t.len() implies is_ws(#[trigger] t[j]) by {
            assert(t[j] == v@[a + j]);
        }
        if b > a {
            assert(t[b - a - 1] == v@[b - 1]);
        }
        lemma_trim_end_of(t, b - a);
        assert(t.subrange(0, b - a) =~= v@.subrange(a as int, b as int));
    }
    (a, b)
}

// ---------------------------------------------------------------------------
// Searching and splitting
// ---------------------------------------------------------------------------

/// Position of the first `c` in `s`, if any.
pub open spec fn index_of(s: Seq<char>, c: char) -> Option<int>
    decreases s.len(),
{
    if s.len() == 0 {
        None
    } else if s[0] == c {
        Some(0)
    } else {
        match index_of(s.drop_first(), c) {
            Some(i) => Some(i + 1),
            None => None,
        }
    }
}

pub proof fn lemma_index_of(s: Seq<char>, c: char)
    ensures
        match index_of(s, c) {
            Some(i) => 0 <= i < s.len() && s[i] == c && forall|j: int| 0 <= j < i ==> s[j] != c,
            None => forall|j: int| 0 <= j < s.len() ==> s[j] != c,
        },
    decreases s.len(),
{
    if s.len() > 0 && s[0] != c {
        lemma_index_of(s.drop_first(), c);
        match index_of(s.drop_first(), c) {
            Some(i) => {
                assert forall|j: int| 0 <= j < i + 1 implies s[j] != c by {
                    if j > 0 {
                        assert(s[j] == s.drop_first()[j - 1]);
                    }
                }
            },
            None => {
                assert forall|j: int| 0 <= j < s.len() implies s[j] != c by {
                    if j > 0 {
                        assert(s[j] == s.drop_first()[j - 1]);
                    }
                }
            },
        }
    }
}

/// The first `c` is at `i` when nothing before `i` is `c`.
pub proof fn lemma_index_of_at(s: Seq<char>, c: char, i: int)
    requires
        0 <= i < s.len(),
        s[i] == c,
        forall|j: int| 0 <= j < i ==> s[j] != c,
    ensures
        index_of(s, c) == Some(i),
{
    lemma_index_of(s, c);
    match index_of(s, c) {
        Some(k) => {
            if k < i {
                assert(s[k] != c);
            }
            if k > i {
                assert(s[i] != c);
            }
        },
        None => {
            assert(s[i] != c);
        },
    }
}

/// The pieces of `s` between the occurrences of `d` (what `str::split` yields).
pub open spec fn split_on(s: Seq<char>, d: char) -> Seq<Seq<char>>
    decreases s.len(),
{
    match index_of(s, d) {
        Some(i) => {
            proof {
                lemma_index_of(s, d);
            }
            seq![s.take(i)] + split_on(s.skip(i + 1), d)
        },
        None => seq![s],
    }
}

/// The pieces of `s` between the occurrences of `d`, at most `n` of them, the last holding the
/// rest of `s` (what `str::splitn` yields, for `n` at least one).
pub open spec fn split_n(s: Seq<char>, d: char, n: nat) -> Seq<Seq<char>>
    decreases n,
{
    if n <= 1 {
        seq![s]
    } else {
        match index_of(s, d) {
            Some(i) => seq![s.take(i)] + split_n(s.skip(i + 1), d, (n - 1) as nat),
            None => seq![s],
        }
    }
}

/// The text before and after the first `d` (what `str::split_once` returns).
pub open spec fn split_once(s: Seq<char>, d: char) -> Option<(Seq<char>, Seq<char>)> {
    match index_of(s, d) {
        Some(i) => Some((s.take(i), s.skip(i + 1))),
        None => None,
    }
}

/// Position of the first `c` in `v[lo..hi]`, or `hi`.
pub fn find_char(v: &Vec<char>, lo: usize, hi: usize, c: char) -> (r: usize)
    requires
        lo <= hi <= v@.len(),
    ensures
        lo <= r <= hi,
        r < hi ==> index_of(v@.subrange(lo as int, hi as int), c) == Some(r - lo),
        r == hi ==> index_of(v@.subrange(lo as int, hi as int), c) is None,
{
    let mut i = lo;
    while i < hi && v[i] != c
        invariant
            lo <= i <= hi <= v@.len(),
            forall|j: int| lo <= j < i ==> v@[j] != c,
        decreases hi - i,
    {
        i = i + 1;
    }
    proof {
        let s = v@.subrange(lo as int, hi as int);
        lemma_index_of(s, c);
        if i < hi {
            assert forall|j: int| 0 <= j < i - lo implies s[j] != c by {
                assert(s[j] == v@[lo + j]);
            }
            lemma_index_of_at(s, c, i - lo);
        } else {
            match index_of(s, c) {
                Some(k) => {
                    assert(s[k] == v@[lo + k]);
                },
                None => {},
            }
        }
    }
    i
}

/// The view of a list of `[start, end)` ranges into `v`.
pub open spec fn range_views(v: Seq<char>, ranges: Seq<(usize, usize)>) -> Seq<Seq<char>> {
    ranges.map_values(|r: (usize, usize)| v.subrange(r.0 as int, r.1 as int))
}

/// The pieces of `v[lo..hi]` between the occurrences of `d`, as ranges into `v`.
pub fn split_ranges(v: &Vec<char>, lo: usize, hi: usize, d: char) -> (r: Vec<(usize, usize)>)
    requires
        lo <= hi <= v@.len(),
    ensures
        forall|k: int| 0 <= k < r@.len() ==> lo <= #[trigger] r@[k].0 <= r@[k].1 <= hi,
        range_views(v@, r@) == split_on(v@.subrange(lo as int, hi as int), d),
{
    let mut out: Vec<(usize, usize)> = Vec::new();
    let mut start = lo;
    let mut done = false;
    let ghost whole = v@.subrange(lo as int, hi as int);
    while !done
        invariant
            lo <= start <= hi <= v@.len(),
            whole == v@.subrange(lo as int, hi as int),
            forall|k: int| 0 <= k < out@.len() ==> lo <= #[trigger] out@[k].0 <= out@[k].1 <= hi,
            !done ==> split_on(whole, d) == range_views(v@, out@) + split_on(
                v@.subrange(start as int, hi as int),
                d,
            ),
            done ==> split_on(whole, d) == range_views(v@, out@),
        decreases hi + 1 - start + (if done { 0int } else { 1int }),
    {
        let p = find_char(v, start, hi, d);
        let ghost rest = v@.subrange(start as int, hi as int);
        let ghost before = range_views(v@, out@);
        out.push((start, p));
        proof {
            assert(range_views(v@, out@) =~= before.push(v@.subrange(start as int, p as int)));
        }
        if p < hi {
            proof {
                assert(rest.take(p - start) =~= v@.subrange(start as int, p as int));
                assert(rest.skip(p - start + 1) =~= v@.subrange(p + 1, hi as int));
                assert(split_on(rest, d) == seq![rest.take(p - start)] + split_on(
                    rest.skip(p - start + 1),
                    d,
                ));
                assert(before + split_on(rest, d) =~= range_views(v@, out@) + split_on(
                    v@.subrange(p + 1, hi as int),
                    d,
                ));
            }
            start = p + 1;
        } else {
            proof {
                assert(split_on(rest, d) == seq![rest]);
                assert(before + split_on(rest, d) =~= range_views(v@, out@));
            }
            done = true;
        }
    }
    out
}

/// The pieces of `v[lo..hi]` between the occurrences of `d`, at most `n` of them, the last
/// holding the rest, as ranges into `v`.
pub fn split_ranges_n(v: &Vec<char>, lo: usize, hi: usize, d: char, n: usize) -> (r: Vec<
    (usize, usize),
>)
    requires
        lo <= hi <= v@.len(),
        n >= 1,
    ensures
        forall|k: int| 0 <= k < r@.len() ==> lo <= #[trigger] r@[k].0 <= r@[k].1 <= hi,
        range_views(v@, r@) == split_n(v@.subrange(lo as int, hi as int), d, n as nat),
{
    let mut out: Vec<(usize, usize)> = Vec::new();
    let mut start = lo;
    let mut done = false;
    let ghost whole = v@.subrange(lo as int, hi as int);
    while !done
        invariant
            lo <= start <= hi <= v@.len(),
            n >= 1,
            whole == v@.subrange(lo as int, hi as int),
            forall|k: int| 0 <= k < out@.len() ==> lo <= #[trigger] out@[k].0 <= out@[k].1 <= hi,
            !done ==> out@.len() < n && split_n(whole, d, n as nat) == range_views(v@, out@)
                + split_n(v@.subrange(start as int, hi as int), d, (n - out@.len()) as nat),
            done ==> split_n(whole, d, n as nat) == range_views(v@, out@),
        decreases hi + 1 - start + (if done { 0int } else { 1int }),
    {
        let ghost rest = v@.subrange(start as int, hi as int);
        let ghost before = range_views(v@, out@);
        let ghost m: nat = (n - out@.len()) as nat;
        if out.len() + 1 == n {
            out.push((start, hi));
            proof {
                assert(range_views(v@, out@) =~= before.push(rest));
                assert(split_n(rest, d, m) == seq![rest]);
                assert(before + split_n(rest, d, m) =~= range_views(v@, out@));
            }
            done = true;
        } else {
            let p = find_char(v, start, hi, d);
            out.push((start, p));
            proof {
                assert(range_views(v@, out@) =~= before.push(v@.subrange(start as int, p as int)));
            }
            if p < hi {
                proof {
                    assert(rest.take(p - start) =~= v@.subrange(start as int, p as int));
                    assert(rest.skip(p - start + 1) =~= v@.subrange(p + 1, hi as int));
                    assert(split_n(rest, d, m) == seq![rest.take(p - start)] + split_n(
                        rest.skip(p - start + 1),
                        d,
                        (m - 1) as nat,
                    ));
                    assert(before + split_n(rest, d, m) =~= range_views(v@, out@) + split_n(
                        v@.subrange(p + 1, hi as int),
                        d,
                        (n - out@.len()) as nat,
                    ));
                }
                start = p + 1;
            } else {
                proof {
                    assert(rest =~= v@.subrange(start as int, p as int));
                    assert(split_n(rest, d, m) == seq![rest]);
                    assert(before + split_n(rest, d, m) =~= range_views(v@, out@));
                }
                done = true;
            }
        }
    }
    out
}

// ---------------------------------------------------------------------------
// Decimal integers
// ---------------------------------------------------------------------------

/// Why a decimal integer could not be read (the kinds `core::num::IntErrorKind` reports).
#[derive(Debug, PartialEq, Eq, Structural, Clone, Copy)]
pub enum IntErrorKind {
    Empty,
    InvalidDigit,
    PosOverflow,
    NegOverflow,
}

pub open spec fn is_digit(c: char) -> bool {
    '0' <= c <= '9'
}

pub open spec fn digit_value(c: char) -> int {
    c as int - '0' as int
}

pub open spec fn digit_char(d: int) -> char {
    ('0' as int + d) as char
}

/// Reads the digits `ds` after an accumulated magnitude `acc`, failing with `Err(false)` at
/// the first non-digit and with `Err(true)` as soon as the magnitude would pass `limit`; each
/// character is checked to be a digit before its overflow is reported, so a non-digit right
/// after the largest magnitude is reported as a non-digit.
pub open spec fn scan_digits(ds: Seq<char>, acc: int, limit: int) -> Result<int, bool>
    decreases ds.len(),
{
    if ds.len() == 0 {
        Ok(acc)
    } else if !is_digit(ds[0]) {
        Err(false)
    } else if acc * 10 + digit_value(ds[0]) > limit {
        Err(true)
    } else {
        scan_digits(ds.drop_first(), acc * 10 + digit_value(ds[0]), limit)
    }
}

/// What `str::parse::<u64>` returns for `s`.
pub open spec fn spec_parse_u64(s: Seq<char>) -> Result<u64, IntErrorKind> {
    if s.len() == 0 {
        Err(IntErrorKind::Empty)
    } else if s.len() == 1 && (s[0] == '+' || s[0] == '-') {
        Err(IntErrorKind::InvalidDigit)
    } else {
        let ds = if s[0] == '+' {
            s.drop_first()
        } else {
            s
        };
        match scan_digits(ds, 0, u64::MAX as int) {
            Ok(v) => Ok(v as u64),
            Err(true) => Err(IntErrorKind::PosOverflow),
            Err(false) => Err(IntErrorKind::InvalidDigit),
        }
    }
}

/// What `str::parse::<i64>` returns for `s`.
pub open spec fn spec_parse_i64(s: Seq<char>) -> Result<i64, IntErrorKind> {
    if s.len() == 0 {
        Err(IntErrorKind::Empty)
    } else if s.len() == 1 && (s[0] == '+' || s[0] == '-') {
        Err(IntErrorKind::InvalidDigit)
    } else if s[0] == '-' {
        match scan_digits(s.drop_first(), 0, 0x8000_0000_0000_0000) {
            Ok(v) => Ok((-v) as i64),
            Err(true) => Err(IntErrorKind::NegOverflow),
            Err(false) => Err(IntErrorKind::InvalidDigit),
        }
    } else {
        let ds = if s[0] == '+' {
            s.drop_first()
        } else {
            s
        };
        match scan_digits(ds, 0, i64::MAX as int) {
            Ok(v) => Ok(v as i64),
            Err(true) => Err(IntErrorKind::PosOverflow),
            Err(false) => Err(IntErrorKind::InvalidDigit),
        }
    }
}

proof fn lemma_scan_bounds(ds: Seq<char>, acc: int, limit: int)
    requires
        0 <= acc <= limit,
    ensures
        scan_digits(ds, acc, limit) matches Ok(v) ==> 0 <= v <= limit,
    decreases ds.len(),
{
    if ds.len() > 0 && is_digit(ds[0]) && acc * 10 + digit_value(ds[0]) <= limit {
        lemma_scan_bounds(ds.drop_first(), acc * 10 + digit_value(ds[0]), limit);
    }
}

/// Runs `scan_digits` over `v[i..hi]` starting from `acc`.
fn scan_range(v: &Vec<char>, i: usize, hi: usize, acc: u64, limit: u64) -> (r: Result<u64, bool>)
    requires
        i <= hi <= v@.len(),
        acc <= limit,
        limit >= 10,
    ensures
        match r {
            Ok(x) => scan_digits(v@.subrange(i as int, hi as int), acc as int, limit as int)
                == Ok::<int, bool>(x as int),
            Err(e) => scan_digits(v@.subrange(i as int, hi as int), acc as int, limit as int)
                == Err::<int, bool>(e),
        },
{
    let mut k = i;
    let mut a = acc;
    while k < hi
        invariant
            i <= k <= hi <= v@.len(),
            a <= limit,
            limit >= 10,
            scan_digits(v@.subrange(i as int, hi as int), acc as int, limit as int)
                == scan_digits(v@.subrange(k as int, hi as int), a as int, limit as int),
        decreases hi - k,
    {
        let ghost rest = v@.subrange(k as int, hi as int);
        assert(rest[0] == v@[k as int]);
        assert(rest.drop_first() =~= v@.subrange(k + 1, hi as int));
        let c = v[k];
        if !(c >= '0' && c <= '9') {
            return Err(false);
        }
        let d = (c as u32 - '0' as u32) as u64;
        if a > limit / 10 {
            return Err(true);
        }
        if a * 10 > limit - d {
            return Err(true);
        }
        a = a * 10 + d;
        k = k + 1;
    }
    assert(v@.subrange(k as int, hi as int).len() == 0);
    Ok(a)
}

/// The message of `core::num::ParseIntError` for each kind.
pub open spec fn int_error_message(k: IntErrorKind) -> Seq<char> {
    match k {
        IntErrorKind::Empty => "cannot parse integer from empty string"@,
        IntErrorKind::InvalidDigit => "invalid digit found in string"@,
        IntErrorKind::PosOverflow => "number too large to fit in target type"@,
        IntErrorKind::NegOverflow => "number too small to fit in target type"@,
    }
}

impl IntErrorKind {
    /// The message under which the error is reported.
    pub fn message(&self) -> (s: String)
        ensures
            s@ == int_error_message(*self),
    {
        match self {
            IntErrorKind::Empty => "cannot parse integer from empty string".to_owned(),
            IntErrorKind::InvalidDigit => "invalid digit found in string".to_owned(),
            IntErrorKind::PosOverflow => "number too large to fit in target type".to_owned(),
            IntErrorKind::NegOverflow => "number too small to fit in target type".to_owned(),
        }
    }
}

/// Reads `v[lo..hi]` as an unsigned decimal integer.
pub fn parse_u64_range(v: &Vec<char>, lo: usize, hi: usize) -> (r: Result<u64, IntErrorKind>)
    requires
        lo <= hi <= v@.len(),
    ensures
        r == spec_parse_u64(v@.subrange(lo as int, hi as int)),
{
    let ghost s = v@.subrange(lo as int, hi as int);
    if lo == hi {
        return Err(IntErrorKind::Empty);
    }
    assert(s[0] == v@[lo as int]);
    if hi - lo == 1 && (v[lo] == '+' || v[lo] == '-') {
        return Err(IntErrorKind::InvalidDigit);
    }
    let start = if v[lo] == '+' {
        lo + 1
    } else {
        lo
    };
    assert(start > lo ==> s.drop_first() =~= v@.subrange(start as int, hi as int));
    assert(start == lo ==> s =~= v@.subrange(start as int, hi as int));
    match scan_range(v, start, hi, 0, u64::MAX) {
        Ok(x) => Ok(x),
        Err(true) => Err(IntErrorKind::PosOverflow),
        Err(false) => Err(IntErrorKind::InvalidDigit),
    }
}

/// Reads `v[lo..hi]` as a signed decimal integer.
pub fn parse_i64_range(v: &Vec<char>, lo: usize, hi: usize) -> (r: Result<i64, IntErrorKind>)
    requires
        lo <= hi <= v@.len(),
    ensures
        r == spec_parse_i64(v@.subrange(lo as int, hi as int)),
{
    let ghost s = v@.subrange(lo as int, hi as int);
    if lo == hi {
        return Err(IntErrorKind::Empty);
    }
    assert(s[0] == v@[lo as int]);
    if hi - lo == 1 && (v[lo] == '+' || v[lo] == '-') {
        return Err(IntErrorKind::InvalidDigit);
    }
    if v[lo] == '-' {
        assert(s.drop_first() =~= v@.subrange(lo + 1, hi as int));
        match scan_range(v, lo + 1, hi, 0, 0x8000_0000_0000_0000) {
            Ok(x) => {
                proof {
                    lemma_scan_bounds(s.drop_first(), 0, 0x8000_0000_0000_0000);
                }
                if x == 0x8000_0000_0000_0000 {
                    Ok(i64::MIN)
                } else {
                    Ok(-(x as i64))
                }
            },
            Err(true) => Err(IntErrorKind::NegOverflow),
            Err(false) => Err(IntErrorKind::InvalidDigit),
        }
    } else {
        let start = if v[lo] == '+' {
            lo + 1
        } else {
            lo
        };
        assert(start > lo ==> s.drop_first() =~= v@.subrange(start as int, hi as int));
        assert(start == lo ==> s =~= v@.subrange(start as int, hi as int));
        match scan_range(v, start, hi, 0, i64::MAX as u64) {
            Ok(x) => {
                proof {
                    lemma_scan_bounds(v@.subrange(start as int, hi as int), 0, i64::MAX as int);
                }
                Ok(x as i64)
            },
            Err(true) => Err(IntErrorKind::PosOverflow),
            Err(false) => Err(IntErrorKind::InvalidDigit),
        }
    }
}

/// The decimal digits of `n`, most significant first, without leading zeros.
pub open spec fn decimal(n: nat) -> Seq<char>
    decreases n,
{
    if n < 10 {
        seq![digit_char(n as int)]
    } else {
        decimal(n / 10).push(digit_char((n % 10) as int))
    }
}

/// The decimal form of a signed integer, with a leading `-` when negative.
pub open spec fn decimal_signed(x: int) -> Seq<char> {
    if x < 0 {
        seq!['-'] + decimal((-x) as nat)
    } else {
        decimal(x as nat)
    }
}

proof fn lemma_scan_push(a: Seq<char>, c: char, acc: int, limit: int)
    ensures
        scan_digits(a.push(c), acc, limit) == match scan_digits(a, acc, limit) {
            Ok(v) => scan_digits(seq![c], v, limit),
            Err(e) => Err(e),
        },
    decreases a.len(),
{
    if a.len() == 0 {
        assert(a.push(c) =~= seq![c]);
    } else {
        assert(a.push(c).drop_first() =~= a.drop_first().push(c));
        assert(a.push(c)[0] == a[0]);
        if is_digit(a[0]) && acc * 10 + digit_value(a[0]) <= limit {
            lemma_scan_push(a.drop_first(), c, acc * 10 + digit_value(a[0]), limit);
        }
    }
}

/// The decimal digits of `n` are digits, starting with a digit.
pub proof fn lemma_decimal_digits(n: nat)
    ensures
        decimal(n).len() >= 1,
        forall|i: int| 0 <= i < decimal(n).len() ==> is_digit(#[trigger] decimal(n)[i]),
    decreases n,
{
    if n >= 10 {
        lemma_decimal_digits(n / 10);
    }
}

proof fn lemma_digit_char(d: int)
    requires
        0 <= d < 10,
    ensures
        is_digit(digit_char(d)),
        digit_value(digit_char(d)) == d,
{
    assert(digit_char(d) as int == '0' as int + d);
}

proof fn lemma_scan_decimal(n: nat, limit: int)
    requires
        n <= limit,
    ensures
        scan_digits(decimal(n), 0, limit) == Ok::<int, bool>(n as int),
    decreases n,
{
    lemma_digit_char((n % 10) as int);
    if n < 10 {
        assert(scan_digits(seq![digit_char(n as int)].drop_first(), n as int, limit) == Ok::<
            int,
            bool,
        >(n as int));
        assert(seq![digit_char(n as int)][0] == digit_char(n as int));
        assert(decimal(n) == seq![digit_char(n as int)]);
    } else {
        lemma_scan_decimal(n / 10, limit);
        lemma_scan_push(decimal(n / 10), digit_char((n % 10) as int), 0, limit);
        let c = digit_char((n % 10) as int);
        assert((n / 10) * 10 + (n % 10) == n);
        assert(scan_digits(seq![c].drop_first(), n as int, limit) == Ok::<int, bool>(n as int));
        assert(seq![c][0] == c);
    }
}

/// Reading back the decimal form of an unsigned integer gives the integer.
pub proof fn lemma_parse_u64_decimal(n: u64)
    ensures
        spec_parse_u64(decimal(n as nat)) == Ok::<u64, IntErrorKind>(n),
{
    lemma_decimal_digits(n as nat);
    let s = decimal(n as nat);
    assert(is_digit(s[0]));
    lemma_scan_decimal(n as nat, u64::MAX as int);
}

/// Reading back the decimal form of a signed integer gives the integer.
pub proof fn lemma_parse_i64_decimal(x: i64)
    ensures
        spec_parse_i64(decimal_signed(x as int)) == Ok::<i64, IntErrorKind>(x),
{
    if x < 0 {
        let m = (-x) as nat;
        lemma_decimal_digits(m);
        let s = decimal_signed(x as int);
        assert(s.drop_first() =~= decimal(m));
        assert(s[0] == '-');
        lemma_scan_decimal(m, 0x8000_0000_0000_0000);
    } else {
        lemma_decimal_digits(x as nat);
        let s = decimal(x as nat);
        assert(is_digit(s[0]));
        lemma_scan_decimal(x as nat, i64::MAX as int);
    }
}

/// Appends the decimal digits of `n`.
pub fn push_decimal(out: &mut Vec<char>, n: u64)
    ensures
        final(out)@ == old(out)@ + decimal(n as nat),
    decreases n,
{
    if n >= 10 {
        push_decimal(out, n / 10);
    }
    let d = (n % 10) as u8;
    let c = (48u8 + d) as char;
    proof {
        assert(c == digit_char((n % 10) as int));
    }
    out.push(c);
    proof {
        if n < 10 {
            assert(decimal(n as nat) == seq![digit_char(n as int)]);
        }
    }
}

/// Appends the decimal form of a signed integer.
pub fn push_decimal_signed(out: &mut Vec<char>, x: i64)
    ensures
        final(out)@ == old(out)@ + decimal_signed(x as int),
{
    if x < 0 {
        out.push('-');
        let m: u64 = ((-(x + 1)) as u64) + 1;
        push_decimal(out, m);
        proof {
            assert(old(out)@.push('-') + decimal(m as nat) =~= old(out)@ + (seq!['-'] + decimal(
                m as nat,
            )));
        }
    } else {
        push_decimal(out, x as u64);
    }
}

// ---------------------------------------------------------------------------
// Strings, characters and bytes
// ---------------------------------------------------------------------------

/// The characters of `s`, in order.
pub fn chars_of(s: &str) -> (v: Vec<char>)
    ensures
        v@ == s@,
{
    let mut v: Vec<char> = Vec::new();
    for c in it: s.chars()
        invariant
            v@ == it.seq().take(it.index() as int),
    {
        v.push(c);
    }
    v
}

/// Appends `v[lo..hi]`.
pub fn push_range(out: &mut Vec<char>, v: &Vec<char>, lo: usize, hi: usize)
    requires
        lo <= hi <= v@.len(),
    ensures
        final(out)@ == old(out)@ + v@.subrange(lo as int, hi as int),
{
    let mut i = lo;
    while i < hi
        invariant
            lo <= i <= hi <= v@.len(),
            out@ == old(out)@ + v@.subrange(lo as int, i as int),
        decreases hi - i,
    {
        out.push(v[i]);
        i = i + 1;
        proof {
            assert(old(out)@ + v@.subrange(lo as int, i as int) =~= out@);
        }
    }
}

/// Appends the characters of `s`.
pub fn push_str_chars(out: &mut Vec<char>, s: &str)
    ensures
        final(out)@ == old(out)@ + s@,
{
    let v = chars_of(s);
    push_range(out, &v, 0, v.len());
    proof {
        assert(v@.subrange(0, v@.len() as int) =~= v@);
    }
}

/// Whether `v[lo..hi]` holds exactly the characters `w`.
pub fn range_eq(v: &Vec<char>, lo: usize, hi: usize, w: &Vec<char>) -> (r: bool)
    requires
        lo <= hi <= v@.len(),
    ensures
        r == (v@.subrange(lo as int, hi as int) == w@),
{
    if hi - lo != w.len() {
        return false;
    }
    let mut i: usize = 0;
    while i < w.len()
        invariant
            lo <= hi <= v@.len(),
            hi - lo == w@.len(),
            0 <= i <= w@.len(),
            forall|j: int| 0 <= j < i ==> v@[lo + j] == w@[j],
        decreases w@.len() - i,
    {
        if v[lo + i] != w[i] {
            assert(v@.subrange(lo as int, hi as int)[i as int] != w@[i as int]);
            return false;
        }
        i = i + 1;
    }
    assert(v@.subrange(lo as int, hi as int) =~= w@);
    true
}

/// Appends one character to a string (`String::push`).
#[verifier::external_body]
fn string_push(s: &mut String, c: char)
    ensures
        final(s)@ == old(s)@.push(c),
{
    s.push(c)
}

/// A string holding the characters `v`.
pub fn string_from_chars(v: &Vec<char>) -> (s: String)
    ensures
        s@ == v@,
{
    let mut s = String::new();
    let mut i: usize = 0;
    while i < v.len()
        invariant
            0 <= i <= v@.len(),
            s@ == v@.take(i as int),
        decreases v@.len() - i,
    {
        string_push(&mut s, v[i]);
        i = i + 1;
        proof {
            assert(s@ =~= v@.take(i as int));
        }
    }
    proof {
        assert(v@.take(v@.len() as int) =~= v@);
    }
    s
}

/// Appends the UTF-8 encoding of `s`.
pub fn push_utf8(out: &mut Vec<u8>, s: &str)
    ensures
        final(out)@ == old(out)@ + encode_utf8(s@),
{
    let b = s.as_bytes();
    let mut i: usize = 0;
    while i < b.len()
        invariant
            0 <= i <= b@.len(),
            b@ == encode_utf8(s@),
            out@ == old(out)@ + b@.take(i as int),
        decreases b@.len() - i,
    {
        out.push(b[i]);
        i = i + 1;
        proof {
            assert(out@ =~= old(out)@ + b@.take(i as int));
        }
    }
    proof {
        assert(b@.take(b@.len() as int) =~= b@);
    }
}

/// A copy of `data[lo..hi]`.
pub fn copy_bytes(data: &Vec<u8>, lo: usize, hi: usize) -> (r: Vec<u8>)
    requires
        lo <= hi <= data@.len(),
    ensures
        r@ == data@.subrange(lo as int, hi as int),
{
    let mut r: Vec<u8> = Vec::new();
    let mut i = lo;
    while i < hi
        invariant
            lo <= i <= hi <= data@.len(),
            r@ == data@.subrange(lo as int, i as int),
        decreases hi - i,
    {
        r.push(data[i]);
        i = i + 1;
        proof {
            assert(r@ =~= data@.subrange(lo as int, i as int));
        }
    }
    r
}

/// The string whose UTF-8 encoding is `bytes`, if `bytes` is valid UTF-8 (`String::from_utf8`).
/// The claim: the call succeeds exactly on valid UTF-8, and then keeps the bytes as they are,
/// so that the string's characters are their decoding.
#[verifier::external_body]
pub(crate) fn string_from_utf8(bytes: Vec<u8>) -> (r: Option<String>)
    ensures
        r is Some <==> valid_utf8(bytes@),
        r matches Some(s) ==> s@ == decode_utf8(bytes@),
{
    String::from_utf8(bytes).ok()
}

/// What `String::from_utf8_lossy` makes of `bytes`: their decoding, with each invalid sequence
/// replaced by U+FFFD.
pub uninterp spec fn utf8_lossy(bytes: Seq<u8>) -> Seq<char>;

/// `String::from_utf8_lossy`. The claim: the result is `utf8_lossy` of the bytes, and on valid
/// UTF-8 it is their plain decoding. Which characters replace invalid sequences is left unsaid.
#[verifier::external_body]
pub(crate) fn string_from_utf8_lossy(bytes: &[u8]) -> (s: String)
    ensures
        s@ == utf8_lossy(bytes@),
        valid_utf8(bytes@) ==> s@ == decode_utf8(bytes@),
{
    String::from_utf8_lossy(bytes).to_string()
}

/// What a string decodes to when invalid UTF-8 is replaced rather than refused.
pub open spec fn lossy_decoded(bytes: Seq<u8>) -> Seq<char> {
    if valid_utf8(bytes) {
        decode_utf8(bytes)
    } else {
        utf8_lossy(bytes)
    }
}

/// The Unicode lower-case form of `s` (what `str::to_lowercase` returns).
pub uninterp spec fn unicode_lowercase(s: Seq<char>) -> Seq<char>;

/// `s` with `A`..`Z` turned into `a`..`z`.
pub open spec fn ascii_lowercase(s: Seq<char>) -> Seq<char> {
    s.map_values(|c: char| if 'A' <= c <= 'Z' { ((c as int) + 32) as char } else { c })
}

/// The lower-case form of `s`: letter by letter for ASCII text, by the Unicode mapping otherwise.
pub open spec fn lowered(s: Seq<char>) -> Seq<char> {
    if is_ascii_chars(s) {
        ascii_lowercase(s)
    } else {
        unicode_lowercase(s)
    }
}

/// `str::to_lowercase`. The claim: the result is `unicode_lowercase` of the input, and an ASCII
/// input is lowered letter by letter (`A`..`Z` to `a`..`z`, all else kept), as the Unicode
/// lower-case mapping does for ASCII. What happens to other characters is left unsaid.
#[verifier::external_body]
pub(crate) fn to_lowercase(s: &str) -> (r: String)
    ensures
        r@ == unicode_lowercase(s@),
        is_ascii_chars(s@) ==> r@ == ascii_lowercase(s@),
{
    s.to_lowercase()
}

// ---------------------------------------------------------------------------
// Lines of an input
// ---------------------------------------------------------------------------

/// Where the line that starts at `pos` ends: just after its `\n`, or at the end of the input.
pub open spec fn line_end(data: Seq<u8>, pos: int) -> int
    decreases data.len() - pos,
{
    if pos >= data.len() {
        data.len() as int
    } else if data[pos] == 10 {
        pos + 1
    } else {
        line_end(data, pos + 1)
    }
}

pub proof fn lemma_line_end(data: Seq<u8>, pos: int)
    requires
        0 <= pos < data.len(),
    ensures
        pos < line_end(data, pos) <= data.len(),
    decreases data.len() - pos,
{
    if data[pos] != 10 {
        if pos + 1 < data.len() {
            lemma_line_end(data, pos + 1);
        } else {
            assert(line_end(data, pos + 1) == data.len());
        }
    }
}

/// The end of the line that starts at `pos`.
pub fn find_line_end(data: &Vec<u8>, pos: usize) -> (e: usize)
    requires
        pos < data@.len(),
    ensures
        e == line_end(data@, pos as int),
        pos < e <= data@.len(),
{
    let mut i = pos;
    while i < data.len() && data[i] != 10
        invariant
            pos <= i <= data@.len(),
            line_end(data@, pos as int) == line_end(data@, i as int),
        decreases data@.len() - i,
    {
        i = i + 1;
    }
    if i < data.len() {
        i + 1
    } else {
        i
    }
}

/// The characters of the line in `data[pos..end]`, or `None` if it is not valid UTF-8.
pub fn decode_line(data: &Vec<u8>, pos: usize, end: usize) -> (r: Option<Vec<char>>)
    requires
        pos <= end <= data@.len(),
    ensures
        r is Some <==> valid_utf8(data@.subrange(pos as int, end as int)),
        r matches Some(v) ==> v@ == decode_utf8(data@.subrange(pos as int, end as int)),
{
    let bytes = copy_bytes(data, pos, end);
    match string_from_utf8(bytes) {
        Some(s) => Some(chars_of(s.as_str())),
        None => None,
    }
}

// ---------------------------------------------------------------------------
// Facts about encoded and split text
// ---------------------------------------------------------------------------

/// The encoding of joined text is the joined encodings.
pub proof fn lemma_encode_utf8_concat(a: Seq<char>, b: Seq<char>)
    ensures
        encode_utf8(a + b) == encode_utf8(a) + encode_utf8(b),
    decreases a.len(),
{
    if a.len() == 0 {
        assert(a + b =~= b);
        assert(encode_utf8(a) =~= seq![]);
        assert(encode_utf8(a) + encode_utf8(b) =~= encode_utf8(b));
    } else {
        assert((a + b).drop_first() =~= a.drop_first() + b);
        assert((a + b)[0] == a[0]);
        lemma_encode_utf8_concat(a.drop_first(), b);
        assert(encode_utf8(a + b) =~= encode_utf8(a) + encode_utf8(b));
    }
}

proof fn lemma_scalar_no_newline(c: char)
    requires
        c != '\n',
    ensures
        forall|j: int|
            0 <= j < encode_scalar(c as u32).len() ==> #[trigger] encode_scalar(c as u32)[j] != 10,
{
    let v = c as u32;
    if has_width_1_encoding(v) {
        assert(v != 10);
        assert(v <= 0x7F && v != 10 ==> (v & 0x7F) as u8 != 10u8) by (bit_vector);
    } else {
        assert(forall|x: u8| #![auto] (0xC0u8 | x) != 10u8) by (bit_vector);
        assert(forall|x: u8| #![auto] (0xE0u8 | x) != 10u8) by (bit_vector);
        assert(forall|x: u8| #![auto] (0xF0u8 | x) != 10u8) by (bit_vector);
        assert(forall|x: u8| #![auto] (0x80u8 | x) != 10u8) by (bit_vector);
    }
}

/// Text without a line break encodes to bytes without the byte 10.
pub proof fn lemma_encode_no_newline(a: Seq<char>)
    requires
        forall|i: int| 0 <= i < a.len() ==> a[i] != '\n',
    ensures
        forall|j: int| 0 <= j < encode_utf8(a).len() ==> #[trigger] encode_utf8(a)[j] != 10,
    decreases a.len(),
{
    if a.len() > 0 {
        lemma_scalar_no_newline(a[0]);
        assert forall|i: int| 0 <= i < a.drop_first().len() implies a.drop_first()[i] != '\n' by {
            assert(a.drop_first()[i] == a[i + 1]);
        }
        lemma_encode_no_newline(a.drop_first());
        let e0 = encode_scalar(a[0] as u32);
        assert forall|j: int| 0 <= j < encode_utf8(a).len() implies #[trigger] encode_utf8(a)[j]
            != 10 by {
            if j < e0.len() {
                assert(encode_utf8(a)[j] == e0[j]);
            } else {
                assert(encode_utf8(a)[j] == encode_utf8(a.drop_first())[j - e0.len()]);
            }
        }
    }
}

/// A line ends just after the first byte 10 from where it starts.
pub proof fn lemma_line_end_at(data: Seq<u8>, q: int, k: int)
    requires
        0 <= q <= k < data.len(),
        forall|j: int| q <= j < k ==> data[j] != 10,
        data[k] == 10,
    ensures
        line_end(data, q) == k + 1,
    decreases k - q,
{
    if q < k {
        lemma_line_end_at(data, q + 1, k);
    }
}

/// The line of text `body` followed by a line break, encoded inside other bytes, is read as
/// exactly that line.
pub proof fn lemma_read_encoded_line(pre: Seq<u8>, body: Seq<char>, post: Seq<u8>)
    requires
        forall|i: int| 0 <= i < body.len() ==> body[i] != '\n',
    ensures
        ({
            let line = body.push('\n');
            let data = pre + encode_utf8(line) + post;
            let p = pre.len() as int;
            &&& line_end(data, p) == p + encode_utf8(line).len()
            &&& data.subrange(p, line_end(data, p)) == encode_utf8(line)
            &&& valid_utf8(encode_utf8(line))
            &&& decode_utf8(encode_utf8(line)) == line
        }),
{
    let line = body.push('\n');
    let data = pre + encode_utf8(line) + post;
    let p = pre.len() as int;
    lemma_encode_utf8_concat(body, seq!['\n']);
    assert(body + seq!['\n'] =~= line);
    lemma_encode_no_newline(body);
    let eb = encode_utf8(body);
    assert(encode_utf8(seq!['\n']) =~= seq![10u8]) by {
        assert(seq!['\n'].drop_first() =~= Seq::<char>::empty());
        assert(('\n' as u32) == 10u32);
        assert((10u32 & 0x7F) as u8 == 10u8) by (bit_vector);
        assert(leading_byte_width_1(10u32) == 10u8);
        assert(encode_scalar(10u32) =~= seq![10u8]);
        assert(seq!['\n'][0] == '\n');
        assert(encode_utf8(Seq::<char>::empty()) =~= Seq::<u8>::empty());
    }
    assert forall|j: int| p <= j < p + eb.len() implies data[j] != 10 by {
        assert(data[j] == eb[j - p]);
    }
    assert(data[p + eb.len()] == 10);
    lemma_line_end_at(data, p, p + eb.len());
    assert(data.subrange(p, p + eb.len() + 1) =~= encode_utf8(line));
    encode_utf8_valid_utf8(line);
    encode_utf8_decode_utf8(line);
}

/// A line with no byte 10 after its start runs to the end of the input.
pub proof fn lemma_line_end_none(data: Seq<u8>, q: int)
    requires
        0 <= q <= data.len(),
        forall|j: int| q <= j < data.len() ==> data[j] != 10,
    ensures
        line_end(data, q) == data.len(),
    decreases data.len() - q,
{
    if q < data.len() {
        lemma_line_end_none(data, q + 1);
    }
}

/// The line of text `body`, without a line break, encoded at the end of the input, is read as
/// exactly that line.
pub proof fn lemma_read_last_line(pre: Seq<u8>, body: Seq<char>)
    requires
        forall|i: int| 0 <= i < body.len() ==> body[i] != '\n',
    ensures
        ({
            let data = pre + encode_utf8(body);
            let p = pre.len() as int;
            &&& line_end(data, p) == data.len()
            &&& data.subrange(p, line_end(data, p)) == encode_utf8(body)
            &&& valid_utf8(encode_utf8(body))
            &&& decode_utf8(encode_utf8(body)) == body
            &&& (body.len() > 0 ==> encode_utf8(body).len() > 0)
        }),
{
    let data = pre + encode_utf8(body);
    let p = pre.len() as int;
    let eb = encode_utf8(body);
    lemma_encode_no_newline(body);
    assert forall|j: int| p <= j < data.len() implies data[j] != 10 by {
        assert(data[j] == eb[j - p]);
    }
    lemma_line_end_none(data, p);
    assert(data.subrange(p, data.len() as int) =~= eb);
    encode_utf8_valid_utf8(body);
    encode_utf8_decode_utf8(body);
}

/// Splitting at `d` after a first part without `d` gives that part, then the split of the rest.
pub proof fn lemma_split_on_cons(a: Seq<char>, d: char, b: Seq<char>)
    requires
        forall|i: int| 0 <= i < a.len() ==> a[i] != d,
    ensures
        split_on(a + seq![d] + b, d) == seq![a] + split_on(b, d),
{
    let s = a + seq![d] + b;
    assert(s[a.len() as int] == d);
    assert forall|j: int| 0 <= j < a.len() implies s[j] != d by {
        assert(s[j] == a[j]);
    }
    lemma_index_of_at(s, d, a.len() as int);
    assert(s.take(a.len() as int) =~= a);
    assert(s.skip(a.len() as int + 1) =~= b);
}

/// Text without `d` splits into itself alone.
pub proof fn lemma_split_on_single(a: Seq<char>, d: char)
    requires
        forall|i: int| 0 <= i < a.len() ==> a[i] != d,
    ensures
        split_on(a, d) == seq![a],
{
    lemma_index_of(a, d);
    match index_of(a, d) {
        Some(i) => {
            assert(a[i] == d);
        },
        None => {},
    }
}

/// Splitting at the first `d`, when the part before it has no `d`.
pub proof fn lemma_split_once_at(a: Seq<char>, d: char, b: Seq<char>)
    requires
        forall|i: int| 0 <= i < a.len() ==> a[i] != d,
    ensures
        split_once(a + seq![d] + b, d) == Some((a, b)),
{
    let s = a + seq![d] + b;
    assert(s[a.len() as int] == d);
    assert forall|j: int| 0 <= j < a.len() implies s[j] != d by {
        assert(s[j] == a[j]);
    }
    lemma_index_of_at(s, d, a.len() as int);
    assert(s.take(a.len() as int) =~= a);
    assert(s.skip(a.len() as int + 1) =~= b);
}

/// Trimming text that starts with no space and ends with white space after a non-space
/// character drops that trailing space.
pub proof fn lemma_trim_drop_end(s: Seq<char>, k: int)
    requires
        0 < k <= s.len(),
        !is_ws(s[0]),
        !is_ws(s[k - 1]),
        forall|j: int| k <= j < s.len() ==> is_ws(#[trigger] s[j]),
    ensures
        trim(s) == s.subrange(0, k),
{
    lemma_trim_start_of(s, 0);
    assert(s.subrange(0, s.len() as int) =~= s);
    lemma_trim_end_of(s, k);
}

/// The decimal form of a number holds digits only.
pub proof fn lemma_decimal_no(n: nat, c: char)
    requires
        !is_digit(c),
    ensures
        forall|i: int| 0 <= i < decimal(n).len() ==> decimal(n)[i] != c,
        !is_ws(decimal(n)[0]),
        !is_ws(decimal(n).last()),
{
    lemma_decimal_digits(n);
    assert(is_digit(decimal(n)[0]));
    assert(is_digit(decimal(n)[decimal(n).len() - 1]));
}

/// The decimal form of a signed number holds digits and perhaps a leading `-` only.
pub proof fn lemma_decimal_signed_no(x: int, c: char)
    requires
        !is_digit(c),
        c != '-',
    ensures
        forall|i: int| 0 <= i < decimal_signed(x).len() ==> decimal_signed(x)[i] != c,
        decimal_signed(x).len() > 0,
        !is_ws(decimal_signed(x)[0]),
        !is_ws(decimal_signed(x).last()),
{
    if x < 0 {
        let m = (-x) as nat;
        lemma_decimal_digits(m);
        assert forall|i: int| 0 <= i < decimal_signed(x).len() implies decimal_signed(x)[i] != c by {
            if i > 0 {
                assert(decimal_signed(x)[i] == decimal(m)[i - 1]);
            }
        }
        assert(decimal_signed(x).last() == decimal(m).last());
        assert(is_digit(decimal(m)[decimal(m).len() - 1]));
    } else {
        lemma_decimal_no(x as nat, c);
    }
}

/// The parts `ps` joined with `d` between each two (at least one part).
pub open spec fn join_with(ps: Seq<Seq<char>>, d: char) -> Seq<char>
    decreases ps.len(),
{
    if ps.len() <= 1 {
        if ps.len() == 1 {
            ps[0]
        } else {
            seq![]
        }
    } else {
        ps[0] + seq![d] + join_with(ps.drop_first(), d)
    }
}

/// Joined parts without `d` split back into the parts.
pub proof fn lemma_join_split(ps: Seq<Seq<char>>, d: char)
    requires
        ps.len() >= 1,
        forall|k: int, i: int| 0 <= k < ps.len() && 0 <= i < ps[k].len() ==> #[trigger] ps[k][i] != d,
    ensures
        split_on(join_with(ps, d), d) == ps,
    decreases ps.len(),
{
    if ps.len() == 1 {
        lemma_split_on_single(ps[0], d);
        assert(seq![ps[0]] =~= ps);
    } else {
        let rest = ps.drop_first();
        assert forall|k: int, i: int| 0 <= k < rest.len() && 0 <= i < rest[k].len() implies #[trigger] rest[k][i] != d by {
            assert(rest[k] == ps[k + 1]);
        }
        lemma_join_split(rest, d);
        assert forall|i: int| 0 <= i < ps[0].len() implies ps[0][i] != d by {
            assert(ps[0][i] != d);
        }
        lemma_split_on_cons(ps[0], d, join_with(rest, d));
        assert(seq![ps[0]] + rest =~= ps);
    }
}

/// Joined parts, all but the last without `d`, split back into the parts when split into as
/// many pieces as there are parts.
pub proof fn lemma_join_split_n(ps: Seq<Seq<char>>, d: char)
    requires
        ps.len() >= 1,
        forall|k: int, i: int|
            0 <= k < ps.len() - 1 && 0 <= i < ps[k].len() ==> #[trigger] ps[k][i] != d,
    ensures
        split_n(join_with(ps, d), d, ps.len()) == ps,
    decreases ps.len(),
{
    if ps.len() == 1 {
        assert(seq![ps[0]] =~= ps);
    } else {
        let rest = ps.drop_first();
        assert forall|k: int, i: int|
            0 <= k < rest.len() - 1 && 0 <= i < rest[k].len() implies #[trigger] rest[k][i]
            != d by {
            assert(rest[k] == ps[k + 1]);
        }
        lemma_join_split_n(rest, d);
        let a = ps[0];
        let b = join_with(rest, d);
        let s = a + seq![d] + b;
        assert(join_with(ps, d) == s);
        assert forall|j: int| 0 <= j < a.len() implies s[j] != d by {
            assert(s[j] == a[j]);
            assert(ps[0][j] != d);
        }
        lemma_index_of_at(s, d, a.len() as int);
        assert(s.take(a.len() as int) =~= a);
        assert(s.skip(a.len() as int + 1) =~= b);
        assert(seq![a] + rest =~= ps);
    }
}

/// Joined parts hold no `c` when no part does and `c` is not the separator.
pub proof fn lemma_join_no(ps: Seq<Seq<char>>, d: char, c: char)
    requires
        c != d,
        forall|k: int, i: int| 0 <= k < ps.len() && 0 <= i < ps[k].len() ==> #[trigger] ps[k][i] != c,
    ensures
        forall|i: int| 0 <= i < join_with(ps, d).len() ==> join_with(ps, d)[i] != c,
    decreases ps.len(),
{
    if ps.len() > 1 {
        let rest = ps.drop_first();
        assert forall|k: int, i: int| 0 <= k < rest.len() && 0 <= i < rest[k].len() implies #[trigger] rest[k][i] != c by {
            assert(rest[k] == ps[k + 1]);
        }
        lemma_join_no(rest, d, c);
        let j = join_with(ps, d);
        assert forall|i: int| 0 <= i < j.len() implies j[i] != c by {
            if i < ps[0].len() {
                assert(j[i] == ps[0][i]);
            } else if i > ps[0].len() {
                assert(j[i] == join_with(rest, d)[i - ps[0].len() - 1]);
            }
        }
    } else if ps.len() == 1 {
        assert forall|i: int| 0 <= i < join_with(ps, d).len() implies join_with(ps, d)[i] != c by {
            assert(join_with(ps, d)[i] == ps[0][i]);
        }
    }
}

/// Joined parts start as the first part does and end as the last part does, or with the
/// separator when the last part is empty.
pub proof fn lemma_join_ends(ps: Seq<Seq<char>>, d: char)
    requires
        ps.len() >= 2,
        ps[0].len() > 0,
    ensures
        join_with(ps, d).len() > 0,
        join_with(ps, d)[0] == ps[0][0],
        join_with(ps, d).last() == if ps.last().len() > 0 {
            ps.last().last()
        } else {
            d
        },
    decreases ps.len(),
{
    let rest = ps.drop_first();
    if ps.len() == 2 {
        assert(join_with(rest, d) == ps[1]);
    } else {
        if rest[0].len() > 0 {
            lemma_join_ends(rest, d);
        } else {
            lemma_join_ends_tail(rest, d);
        }
        assert(rest.last() == ps.last());
    }
}

/// Joined parts end as the last part does, or with the separator when it is empty.
pub proof fn lemma_join_ends_tail(ps: Seq<Seq<char>>, d: char)
    requires
        ps.len() >= 2,
    ensures
        join_with(ps, d).len() > 0,
        join_with(ps, d).last() == if ps.last().len() > 0 {
            ps.last().last()
        } else {
            d
        },
    decreases ps.len(),
{
    let rest = ps.drop_first();
    if ps.len() == 2 {
        assert(join_with(rest, d) == ps[1]);
    } else {
        lemma_join_ends_tail(rest, d);
        assert(rest.last() == ps.last());
    }
}

} // verus!
