//! Character-level text utilities.
//!
//! The core reads and builds text as sequences of characters.  Whitespace
//! here means the ASCII whitespace characters; memo content is expected to
//! use ordinary spacing.

use vstd::prelude::*;

verus! {

/// Whether a character is ASCII whitespace.
pub open spec fn is_space_char(c: char) -> bool {
    c == ' ' || c == '\t' || c == '\n' || c == '\r' || c == '\u{b}' || c == '\u{c}'
}

/// Exec twin of [`is_space_char`].
pub fn is_space(c: char) -> (r: bool)
    ensures
        r == is_space_char(c),
{
    c == ' ' || c == '\t' || c == '\n' || c == '\r' || c == '\u{b}' || c == '\u{c}'
}

/// Copy a string slice into a character vector.
pub fn str_to_chars(s: &str) -> (r: Vec<char>)
    ensures
        r@ == s@,
{
    let n = s.unicode_len();
    let mut r: Vec<char> = Vec::new();
    let mut i: usize = 0;
    while i < n
        invariant
            n == s@.len(),
            i <= n,
            r@ == s@.subrange(0, i as int),
        decreases n - i,
    {
        r.push(s.get_char(i));
        proof {
            assert(r@ =~= s@.subrange(0, i + 1));
        }
        i = i + 1;
    }
    proof {
        assert(r@ =~= s@);
    }
    r
}

/// Collect a character vector into a `String`.
///
/// Relies on `String`'s `FromIterator` implementation: collecting
/// characters yields the string of exactly those characters in order.
#[verifier::external_body]
pub fn chars_to_string(v: &Vec<char>) -> (r: String)
    ensures
        r@ == v@,
{
    v.iter().collect()
}

/// Whether two string slices hold the same characters.
pub fn str_eq(a: &str, b: &str) -> (r: bool)
    ensures
        r == (a@ == b@),
{
    let na = a.unicode_len();
    let nb = b.unicode_len();
    if na != nb {
        return false;
    }
    let mut i: usize = 0;
    while i < na
        invariant
            na == a@.len(),
            na == b@.len(),
            i <= na,
            forall|j: int| 0 <= j < i ==> a@[j] == b@[j],
        decreases na - i,
    {
        if a.get_char(i) != b.get_char(i) {
            return false;
        }
        i = i + 1;
    }
    proof {
        assert(a@ =~= b@);
    }
    true
}

/// The pattern `n` occurs in `h` at position `i`.
pub open spec fn occurs_at(h: Seq<char>, n: Seq<char>, i: int) -> bool {
    &&& 0 <= i
    &&& i + n.len() <= h.len()
    &&& h.subrange(i, i + n.len() as int) == n
}

/// Whether `needle` occurs in `hay` at exactly position `at`.
fn matches_at(hay: &Vec<char>, needle: &Vec<char>, at: usize) -> (r: bool)
    requires
        at + needle@.len() <= hay@.len(),
    ensures
        r == occurs_at(hay@, needle@, at as int),
{
    let n = needle.len();
    let h = hay.len();
    let mut j: usize = 0;
    while j < n
        invariant
            n == needle@.len(),
            h == hay@.len(),
            at + n <= h,
            j <= n,
            forall|k: int| 0 <= k < j ==> hay@[at + k] == needle@[k],
        decreases n - j,
    {
        if hay[at + j] != needle[j] {
            proof {
                assert(hay@.subrange(at as int, at + n as int)[j as int] != needle@[j as int]);
            }
            return false;
        }
        j = j + 1;
    }
    proof {
        assert(hay@.subrange(at as int, at + n as int) =~= needle@);
    }
    true
}

/// Position of the first occurrence of `n` in `h` at or after `from`.
pub open spec fn find_from(h: Seq<char>, n: Seq<char>, from: int) -> Option<int>
    decreases h.len() - from + 1,
{
    if from < 0 || from + n.len() > h.len() {
        None
    } else if h.subrange(from, from + n.len() as int) == n {
        Some(from)
    } else {
        find_from(h, n, from + 1)
    }
}

/// What a `Some` answer of [`find_from`] means: the first occurrence at or
/// after `from`.
pub proof fn lemma_find_from_some(h: Seq<char>, n: Seq<char>, from: int, i: int)
    requires
        find_from(h, n, from) == Some(i),
    ensures
        from <= i,
        occurs_at(h, n, i),
        forall|j: int| from <= j < i ==> !occurs_at(h, n, j),
    decreases h.len() - from + 1,
{
    if from < 0 || from + n.len() > h.len() {
    } else if h.subrange(from, from + n.len() as int) == n {
    } else {
        lemma_find_from_some(h, n, from + 1, i);
    }
}

/// Find the first occurrence of `needle` in `hay` at or after `from`.
pub fn find_pattern(hay: &Vec<char>, needle: &Vec<char>, from: usize) -> (r: Option<usize>)
    ensures
        match r {
            Some(i) => {
                &&& from <= i
                &&& occurs_at(hay@, needle@, i as int)
                &&& forall|j: int| from <= j < i ==> !occurs_at(hay@, needle@, j)
                &&& find_from(hay@, needle@, from as int) == Some(i as int)
            },
            None => {
                &&& forall|j: int| from <= j ==> !occurs_at(hay@, needle@, j)
                &&& find_from(hay@, needle@, from as int) is None
            },
        },
{
    let h = hay.len();
    let n = needle.len();
    if n > h {
        return None;
    }
    if n == 0 {
        if from <= h {
            proof {
                assert(hay@.subrange(from as int, from as int) =~= needle@);
            }
            return Some(from);
        }
        return None;
    }
    let last = h - n;
    let mut i: usize = from;
    while i <= last
        invariant
            h == hay@.len(),
            n == needle@.len(),
            1 <= n <= h,
            last == h - n,
            from <= i,
            forall|j: int| from <= j < i ==> !occurs_at(hay@, needle@, j),
            find_from(hay@, needle@, from as int) == find_from(hay@, needle@, i as int),
        decreases last + 1 - i,
    {
        if matches_at(hay, needle, i) {
            proof {
                assert(find_from(hay@, needle@, i as int) == Some(i as int));
            }
            return Some(i);
        }
        proof {
            assert(hay@.subrange(i as int, i + n as int) != needle@);
            assert(find_from(hay@, needle@, i as int) == find_from(hay@, needle@, i + 1));
        }
        i = i + 1;
    }
    proof {
        assert(find_from(hay@, needle@, i as int) is None);
    }
    None
}

/// Whether two character vectors hold the same text.
pub fn chars_eq(a: &Vec<char>, b: &Vec<char>) -> (r: bool)
    ensures
        r == (a@ == b@),
{
    let na = a.len();
    if na != b.len() {
        return false;
    }
    let mut i: usize = 0;
    while i < na
        invariant
            na == a@.len(),
            na == b@.len(),
            i <= na,
            forall|j: int| 0 <= j < i ==> a@[j] == b@[j],
        decreases na - i,
    {
        if a[i] != b[i] {
            return false;
        }
        i = i + 1;
    }
    proof {
        assert(a@ =~= b@);
    }
    true
}

/// Copy the characters of `v` between `from` (inclusive) and `to`
/// (exclusive).
pub fn copy_range(v: &Vec<char>, from: usize, to: usize) -> (r: Vec<char>)
    requires
        from <= to <= v@.len(),
    ensures
        r@ == v@.subrange(from as int, to as int),
{
    let mut r: Vec<char> = Vec::new();
    let mut i: usize = from;
    while i < to
        invariant
            from <= i <= to <= v@.len(),
            r@ == v@.subrange(from as int, i as int),
        decreases to - i,
    {
        r.push(v[i]);
        proof {
            assert(r@ =~= v@.subrange(from as int, i + 1));
        }
        i = i + 1;
    }
    r
}

/// Index of the first non-whitespace character of `s`, or `s.len()` when
/// the text is all whitespace.
pub open spec fn first_content(s: Seq<char>) -> int
    decreases s.len(),
{
    if s.len() == 0 {
        0
    } else if !is_space_char(s[0]) {
        0
    } else {
        1 + first_content(s.drop_first())
    }
}

/// Index one past the last non-whitespace character of `s`, or 0 when the
/// text is all whitespace.
pub open spec fn last_content(s: Seq<char>) -> int
    decreases s.len(),
{
    if s.len() == 0 {
        0
    } else if !is_space_char(s[s.len() - 1]) {
        s.len() as int
    } else {
        last_content(s.drop_last())
    }
}

/// The text with leading and trailing whitespace removed.
pub open spec fn trim_spec(s: Seq<char>) -> Seq<char> {
    if first_content(s) <= last_content(s) {
        s.subrange(first_content(s), last_content(s))
    } else {
        Seq::empty()
    }
}

proof fn lemma_first_content_bounds(s: Seq<char>)
    ensures
        0 <= first_content(s) <= s.len(),
        forall|j: int| 0 <= j < first_content(s) ==> is_space_char(s[j]),
        first_content(s) < s.len() ==> !is_space_char(s[first_content(s)]),
    decreases s.len(),
{
    if s.len() == 0 {
    } else if !is_space_char(s[0]) {
    } else {
        lemma_first_content_bounds(s.drop_first());
        assert forall|j: int| 0 <= j < first_content(s) implies is_space_char(s[j]) by {
            if j > 0 {
                assert(is_space_char(s.drop_first()[j - 1]));
            }
        }
    }
}

proof fn lemma_last_content_bounds(s: Seq<char>)
    ensures
        0 <= last_content(s) <= s.len(),
        forall|j: int| last_content(s) <= j < s.len() ==> is_space_char(s[j]),
        last_content(s) > 0 ==> !is_space_char(s[last_content(s) - 1]),
    decreases s.len(),
{
    if s.len() == 0 {
    } else if !is_space_char(s[s.len() - 1]) {
    } else {
        lemma_last_content_bounds(s.drop_last());
        assert forall|j: int| last_content(s) <= j < s.len() implies is_space_char(s[j]) by {
            if j < s.len() - 1 {
                assert(is_space_char(s.drop_last()[j]));
            }
        }
    }
}

/// Number of characters left after trimming whitespace off both ends.
pub open spec fn trimmed_len(s: Seq<char>) -> int {
    trim_spec(s).len() as int
}

/// Find the first non-whitespace position of `v`.
fn scan_first_content(v: &Vec<char>) -> (r: usize)
    ensures
        r as int == first_content(v@),
{
    let n = v.len();
    proof {
        lemma_first_content_bounds(v@);
    }
    let mut i: usize = 0;
    while i < n
        invariant
            n == v@.len(),
            i <= n,
            forall|j: int| 0 <= j < i ==> is_space_char(v@[j]),
            first_content(v@) >= i,
        decreases n - i,
    {
        if !is_space(v[i]) {
            proof {
                lemma_first_content_bounds(v@);
                if first_content(v@) > i as int {
                    assert(is_space_char(v@[i as int]));
                }
            }
            return i;
        }
        proof {
            lemma_first_content_bounds(v@);
            if first_content(v@) == i as int {
                assert(!is_space_char(v@[i as int]));
            }
        }
        i = i + 1;
    }
    proof {
        lemma_first_content_bounds(v@);
    }
    n
}

/// Find the position one past the last non-whitespace character of `v`.
fn scan_last_content(v: &Vec<char>) -> (r: usize)
    ensures
        r as int == last_content(v@),
{
    let n = v.len();
    proof {
        lemma_last_content_bounds(v@);
    }
    let mut i: usize = n;
    while i > 0
        invariant
            n == v@.len(),
            i <= n,
            forall|j: int| i <= j < n ==> is_space_char(v@[j]),
            last_content(v@) <= i,
        decreases i,
    {
        if !is_space(v[i - 1]) {
            proof {
                lemma_last_content_bounds(v@);
                if last_content(v@) < i as int {
                    assert(is_space_char(v@[i - 1]));
                }
            }
            return i;
        }
        proof {
            lemma_last_content_bounds(v@);
            if last_content(v@) == i as int {
                assert(!is_space_char(v@[i - 1]));
            }
        }
        i = i - 1;
    }
    proof {
        lemma_last_content_bounds(v@);
    }
    0
}

/// Copy `v` with leading and trailing whitespace removed.
pub fn trim_chars(v: &Vec<char>) -> (r: Vec<char>)
    ensures
        r@ == trim_spec(v@),
{
    let a = scan_first_content(v);
    let b = scan_last_content(v);
    proof {
        lemma_first_content_bounds(v@);
        lemma_last_content_bounds(v@);
    }
    let mut r: Vec<char> = Vec::new();
    if a >= b {
        proof {
            assert(r@ =~= trim_spec(v@));
        }
        return r;
    }
    let mut i: usize = a;
    while i < b
        invariant
            a <= i <= b <= v@.len(),
            a as int == first_content(v@),
            b as int == last_content(v@),
            r@ == v@.subrange(a as int, i as int),
        decreases b - i,
    {
        r.push(v[i]);
        proof {
            assert(r@ =~= v@.subrange(a as int, i + 1));
        }
        i = i + 1;
    }
    proof {
        assert(r@ =~= trim_spec(v@));
    }
    r
}

/// Normalised form of embedding input: whitespace trimmed at both ends and
/// every internal run of whitespace collapsed to one space.  `started` says
/// whether content has been seen, `pending` whether a separating space is
/// owed before the next content character.
pub open spec fn collapse_from(s: Seq<char>, i: int, started: bool, pending: bool) -> Seq<char>
    decreases s.len() - i,
{
    if i < 0 || i >= s.len() {
        Seq::empty()
    } else if is_space_char(s[i]) {
        collapse_from(s, i + 1, started, pending || started)
    } else {
        (if pending {
            seq![' ']
        } else {
            Seq::empty()
        }) + seq![s[i]] + collapse_from(s, i + 1, true, false)
    }
}

/// What encoding input looks like after normalisation.
pub open spec fn normalize_spec(s: Seq<char>) -> Seq<char> {
    collapse_from(s, 0, false, false)
}

/// Trim the text and collapse every internal whitespace run to a single
/// space, as embedding providers expect their input.
pub fn normalize_for_embedding(text: &str) -> (r: String)
    ensures
        r@ == normalize_spec(text@),
{
    let v = str_to_chars(text);
    let n = v.len();
    let mut out: Vec<char> = Vec::new();
    let mut started: bool = false;
    let mut pending: bool = false;
    let mut i: usize = 0;
    while i < n
        invariant
            n == v@.len(),
            v@ == text@,
            i <= n,
            normalize_spec(text@) == out@ + collapse_from(v@, i as int, started, pending),
        decreases n - i,
    {
        let c = v[i];
        if is_space(c) {
            pending = pending || started;
        } else {
            if pending {
                out.push(' ');
            }
            out.push(c);
            proof {
                assert(normalize_spec(text@) == out@ + collapse_from(v@, i + 1, true, false));
            }
            started = true;
            pending = false;
        }
        i = i + 1;
    }
    proof {
        assert(out@ =~= out@ + collapse_from(v@, n as int, started, pending));
    }
    chars_to_string(&out)
}

/// Decimal digit character for a value below ten.
pub open spec fn digit_char(d: int) -> char {
    if d == 0 {
        '0'
    } else if d == 1 {
        '1'
    } else if d == 2 {
        '2'
    } else if d == 3 {
        '3'
    } else if d == 4 {
        '4'
    } else if d == 5 {
        '5'
    } else if d == 6 {
        '6'
    } else if d == 7 {
        '7'
    } else if d == 8 {
        '8'
    } else {
        '9'
    }
}

/// Decimal representation of a number, most significant digit first.
pub open spec fn decimal_spec(n: int) -> Seq<char>
    decreases n,
{
    if n < 10 {
        seq![digit_char(n)]
    } else {
        decimal_spec(n / 10) + seq![digit_char(n % 10)]
    }
}

proof fn lemma_decimal_len(n: int)
    requires
        n >= 0,
    ensures
        decimal_spec(n).len() >= 1,
        n >= 10 ==> decimal_spec(n).len() >= 2,
    decreases n,
{
    if n >= 10 {
        lemma_decimal_len(n / 10);
    }
}

/// Distinct numbers have distinct decimal representations.
proof fn lemma_decimal_injective(a: int, b: int)
    requires
        a >= 0,
        b >= 0,
        decimal_spec(a) == decimal_spec(b),
    ensures
        a == b,
    decreases a,
{
    lemma_decimal_len(a);
    lemma_decimal_len(b);
    if a < 10 && b < 10 {
        assert(decimal_spec(a)[0] == digit_char(a));
        assert(decimal_spec(b)[0] == digit_char(b));
    } else if a < 10 {
        assert(decimal_spec(a).len() == 1);
        assert(decimal_spec(b).len() >= 2);
    } else if b < 10 {
        assert(decimal_spec(b).len() == 1);
        assert(decimal_spec(a).len() >= 2);
    } else {
        let la = decimal_spec(a).len() as int;
        assert(decimal_spec(a)[la - 1] == digit_char(a % 10));
        assert(decimal_spec(b)[la - 1] == digit_char(b % 10));
        assert(a % 10 == b % 10);
        assert(decimal_spec(a / 10) =~= decimal_spec(a).subrange(0, la - 1));
        assert(decimal_spec(b / 10) =~= decimal_spec(b).subrange(0, la - 1));
        lemma_decimal_injective(a / 10, b / 10);
    }
}

/// Public face of decimal injectivity: node ids minted from distinct
/// counters differ.
pub proof fn lemma_decimal_chars_injective(a: int, b: int)
    requires
        a >= 0,
        b >= 0,
        a != b,
    ensures
        decimal_spec(a) != decimal_spec(b),
{
    if decimal_spec(a) == decimal_spec(b) {
        lemma_decimal_injective(a, b);
    }
}

/// Write a number in decimal.
pub fn decimal_chars(n: u64) -> (r: Vec<char>)
    ensures
        r@ == decimal_spec(n as int),
    decreases n,
{
    if n < 10 {
        let d = digit_of(n);
        let mut r: Vec<char> = Vec::new();
        r.push(d);
        proof {
            assert(r@ =~= decimal_spec(n as int));
        }
        r
    } else {
        let mut r = decimal_chars(n / 10);
        let d = digit_of(n % 10);
        r.push(d);
        proof {
            assert(r@ =~= decimal_spec(n as int));
        }
        r
    }
}

/// Decimal digit character of a small value, for fixed-point rendering.
pub fn digit_exec(d: u32) -> (r: char)
    ensures
        r == digit_char(d as int),
{
    if d == 0 {
        '0'
    } else if d == 1 {
        '1'
    } else if d == 2 {
        '2'
    } else if d == 3 {
        '3'
    } else if d == 4 {
        '4'
    } else if d == 5 {
        '5'
    } else if d == 6 {
        '6'
    } else if d == 7 {
        '7'
    } else if d == 8 {
        '8'
    } else {
        '9'
    }
}

/// Decimal digit character of a value below ten.
fn digit_of(d: u64) -> (r: char)
    requires
        d < 10,
    ensures
        r == digit_char(d as int),
{
    if d == 0 {
        '0'
    } else if d == 1 {
        '1'
    } else if d == 2 {
        '2'
    } else if d == 3 {
        '3'
    } else if d == 4 {
        '4'
    } else if d == 5 {
        '5'
    } else if d == 6 {
        '6'
    } else if d == 7 {
        '7'
    } else if d == 8 {
        '8'
    } else {
        '9'
    }
}

} // verus!
