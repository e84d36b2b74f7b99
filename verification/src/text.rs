//! Text as sequences of characters: the few operations on `str` that the
//! contract reads documents and media types with, each stated over the
//! characters it looks at.

use vstd::prelude::*;

verus! {

broadcast use vstd::string::group_string_axioms;

/// Whether `c` has Unicode's White_Space property, the white space that
/// `str::trim` removes.
pub open spec fn is_white(c: char) -> bool {
    let u = c as u32;
    ||| 0x09 <= u <= 0x0D
    ||| u == 0x20
    ||| u == 0x85
    ||| u == 0xA0
    ||| u == 0x1680
    ||| 0x2000 <= u <= 0x200A
    ||| u == 0x2028
    ||| u == 0x2029
    ||| u == 0x202F
    ||| u == 0x205F
    ||| u == 0x3000
}

/// `s` without its leading white space.
pub open spec fn trim_start(s: Seq<char>) -> Seq<char>
    decreases s.len(),
{
    if s.len() > 0 && is_white(s[0]) {
        trim_start(s.drop_first())
    } else {
        s
    }
}

/// `s` without its trailing white space.
pub open spec fn trim_end(s: Seq<char>) -> Seq<char>
    decreases s.len(),
{
    if s.len() > 0 && is_white(s.last()) {
        trim_end(s.drop_last())
    } else {
        s
    }
}

/// `s` without white space at either end.
pub open spec fn trim(s: Seq<char>) -> Seq<char> {
    trim_end(trim_start(s))
}

/// The index of the first `c` in `s`, if there is one.
pub open spec fn find(s: Seq<char>, c: char) -> Option<int>
    decreases s.len(),
{
    if s.len() == 0 {
        None
    } else if s[0] == c {
        Some(0)
    } else {
        match find(s.drop_first(), c) {
            Some(i) => Some(i + 1),
            None => None,
        }
    }
}

/// Whether `s` ends with `suffix`.
pub open spec fn ends_with(s: Seq<char>, suffix: Seq<char>) -> bool {
    suffix.len() <= s.len() && s.skip(s.len() - suffix.len()) == suffix
}

/// `c` with an ASCII capital letter made small.
pub open spec fn ascii_lower(c: char) -> char {
    if 'A' <= c <= 'Z' {
        (((c as u8) + 32) as u8) as char
    } else {
        c
    }
}

/// Whether `a` and `b` are the same text once ASCII letters are compared
/// without regard to case.
pub open spec fn eq_ignore_ascii_case(a: Seq<char>, b: Seq<char>) -> bool {
    a.len() == b.len() && forall|i: int| 0 <= i < a.len() ==> ascii_lower(#[trigger] a[i]) == ascii_lower(b[i])
}

/// The decimal digit for `d`.
pub open spec fn digit(d: nat) -> char {
    ((48 + d) as u8) as char
}

/// The decimal numeral of `n`, without leading zeros.
pub open spec fn decimal(n: nat) -> Seq<char>
    decreases n,
{
    if n < 10 {
        seq![digit(n)]
    } else {
        decimal(n / 10).push(digit(n % 10))
    }
}

/// The number of times `c` occurs in `s`.
pub open spec fn count(s: Seq<char>, c: char) -> nat
    decreases s.len(),
{
    if s.len() == 0 {
        0
    } else {
        count(s.drop_last(), c) + if s.last() == c {
            1nat
        } else {
            0nat
        }
    }
}

/// The number of characters of `s` after its last `c`; all of them when `c`
/// does not occur.
pub open spec fn after_last(s: Seq<char>, c: char) -> nat
    decreases s.len(),
{
    if s.len() == 0 || s.last() == c {
        0
    } else {
        after_last(s.drop_last(), c) + 1
    }
}

proof fn lemma_trim_start_at(s: Seq<char>, k: int)
    requires
        0 <= k <= s.len(),
        forall|j: int| 0 <= j < k ==> is_white(#[trigger] s[j]),
        k == s.len() || !is_white(s[k]),
    ensures
        trim_start(s) == s.skip(k),
    decreases k,
{
    if k == 0 {
        assert(s.skip(0) =~= s);
    } else {
        let t = s.drop_first();
        assert forall|j: int| 0 <= j < k - 1 implies is_white(#[trigger] t[j]) by {
            assert(t[j] == s[j + 1]);
        }
        lemma_trim_start_at(t, k - 1);
        assert(t.skip(k - 1) =~= s.skip(k));
    }
}

proof fn lemma_trim_end_at(s: Seq<char>, k: int)
    requires
        0 <= k <= s.len(),
        forall|j: int| k <= j < s.len() ==> is_white(#[trigger] s[j]),
        k == 0 || !is_white(s[k - 1]),
    ensures
        trim_end(s) == s.take(k),
    decreases s.len() - k,
{
    if k == s.len() {
        assert(s.take(k) =~= s);
    } else {
        let t = s.drop_last();
        assert forall|j: int| k <= j < t.len() implies is_white(#[trigger] t[j]) by {
            assert(t[j] == s[j]);
        }
        lemma_trim_end_at(t, k);
        assert(t.take(k) =~= s.take(k));
    }
}

pub proof fn lemma_find_at(s: Seq<char>, c: char, k: int)
    requires
        0 <= k <= s.len(),
        forall|j: int| 0 <= j < k ==> #[trigger] s[j] != c,
        k == s.len() || s[k] == c,
    ensures
        find(s, c) == (if k < s.len() {
            Some(k)
        } else {
            None::<int>
        }),
    decreases k,
{
    if k > 0 {
        let t = s.drop_first();
        assert forall|j: int| 0 <= j < k - 1 implies #[trigger] t[j] != c by {
            assert(t[j] == s[j + 1]);
        }
        lemma_find_at(t, c, k - 1);
    }
}

/// The characters of `s`, in order.
pub fn chars_of(s: &str) -> (v: Vec<char>)
    ensures
        v@ == s@,
{
    let mut v: Vec<char> = Vec::new();
    for c in it: s.chars()
        invariant
            it.seq() == s@,
            v@ == it.seq().take(it.index()),
    {
        v.push(c);
    }
    v
}

/// Whether `c` is white space, as `str::trim` reads it.
pub fn is_white_char(c: char) -> (b: bool)
    ensures
        b == is_white(c),
{
    let u = c as u32;
    (0x09 <= u && u <= 0x0D) || u == 0x20 || u == 0x85 || u == 0xA0 || u == 0x1680 || (0x2000
        <= u && u <= 0x200A) || u == 0x2028 || u == 0x2029 || u == 0x202F || u == 0x205F || u
        == 0x3000
}

/// The bounds of `s[lo..hi]` once white space is taken off both ends.
pub fn trim_range(s: &Vec<char>, lo: usize, hi: usize) -> (r: (usize, usize))
    requires
        lo <= hi <= s.len(),
    ensures
        lo <= r.0 <= r.1 <= hi,
        s@.subrange(r.0 as int, r.1 as int) == trim(s@.subrange(lo as int, hi as int)),
{
    let mut a = lo;
    while a < hi && is_white_char(s[a])
        invariant
            lo <= a <= hi <= s.len(),
            forall|j: int| lo <= j < a ==> is_white(#[trigger] s@[j]),
        decreases hi - a,
    {
        a = a + 1;
    }
    let mut b = hi;
    while b > a && is_white_char(s[b - 1])
        invariant
            lo <= a <= b <= hi <= s.len(),
            forall|j: int| b <= j < hi ==> is_white(#[trigger] s@[j]),
        decreases b - a,
    {
        b = b - 1;
    }
    proof {
        let whole = s@.subrange(lo as int, hi as int);
        assert forall|j: int| 0 <= j < a - lo implies is_white(#[trigger] whole[j]) by {
            assert(whole[j] == s@[lo + j]);
        }
        lemma_trim_start_at(whole, a - lo);
        let rest = whole.skip(a - lo);
        assert(rest =~= s@.subrange(a as int, hi as int));
        assert forall|j: int| b - a <= j < rest.len() implies is_white(#[trigger] rest[j]) by {
            assert(rest[j] == s@[a + j]);
        }
        lemma_trim_end_at(rest, b - a);
        assert(rest.take(b - a) =~= s@.subrange(a as int, b as int));
    }
    (a, b)
}

/// The index in `s` of the first `c` within `s[lo..hi]`.
pub fn find_char(s: &Vec<char>, lo: usize, hi: usize, c: char) -> (r: Option<usize>)
    requires
        lo <= hi <= s.len(),
    ensures
        match r {
            Some(i) => lo <= i < hi && find(s@.subrange(lo as int, hi as int), c) == Some(i - lo),
            None => find(s@.subrange(lo as int, hi as int), c) is None,
        },
{
    let mut i = lo;
    while i < hi && s[i] != c
        invariant
            lo <= i <= hi <= s.len(),
            forall|j: int| lo <= j < i ==> #[trigger] s@[j] != c,
        decreases hi - i,
    {
        i = i + 1;
    }
    proof {
        let part = s@.subrange(lo as int, hi as int);
        assert forall|j: int| 0 <= j < i - lo implies #[trigger] part[j] != c by {
            assert(part[j] == s@[lo + j]);
        }
        lemma_find_at(part, c, i - lo);
    }
    if i < hi {
        Some(i)
    } else {
        None
    }
}

/// Appends `c` to `s`.
///
/// Calls `String::push`, which std documents as appending the character to
/// the end of the string; the contract says that and nothing more.
#[verifier::external_body]
pub fn push_char(s: &mut String, c: char)
    ensures
        final(s)@ == old(s)@.push(c),
{
    s.push(c)
}

/// The text `s[lo..hi]` as a `String`.
pub fn string_from(s: &Vec<char>, lo: usize, hi: usize) -> (r: String)
    requires
        lo <= hi <= s.len(),
    ensures
        r@ == s@.subrange(lo as int, hi as int),
{
    let mut r = String::new();
    let mut i = lo;
    while i < hi
        invariant
            lo <= i <= hi <= s.len(),
            r@ == s@.subrange(lo as int, i as int),
        decreases hi - i,
    {
        push_char(&mut r, s[i]);
        assert(s@.subrange(lo as int, i + 1) =~= s@.subrange(lo as int, i as int).push(s@[i as int]));
        i = i + 1;
    }
    r
}

/// Whether the characters `a` and the text `b` are the same.
pub fn chars_eq(a: &Vec<char>, b: &str) -> (r: bool)
    ensures
        r == (a@ == b@),
{
    let bv = chars_of(b);
    if a.len() != bv.len() {
        return false;
    }
    let mut i: usize = 0;
    while i < a.len()
        invariant
            a.len() == bv.len(),
            i <= a.len(),
            bv@ == b@,
            forall|j: int| 0 <= j < i ==> a@[j] == bv@[j],
        decreases a.len() - i,
    {
        if a[i] != bv[i] {
            return false;
        }
        i = i + 1;
    }
    assert(a@ =~= bv@);
    true
}

/// The decimal numeral of `n`.
pub fn decimal_string(n: u128) -> (r: String)
    ensures
        r@ == decimal(n as nat),
    decreases n,
{
    if n < 10 {
        let mut r = String::new();
        push_char(&mut r, ((48 + n) as u8) as char);
        assert(r@ =~= decimal(n as nat));
        r
    } else {
        let mut r = decimal_string(n / 10);
        push_char(&mut r, ((48 + n % 10) as u8) as char);
        r
    }
}


/// `c` with an ASCII capital letter made small.
pub fn lower_char(c: char) -> (r: char)
    ensures
        r == ascii_lower(c),
{
    if 'A' <= c && c <= 'Z' {
        ((c as u8) + 32) as char
    } else {
        c
    }
}

/// Whether `s[lo..hi]` and `t` are the same text, ASCII letters compared
/// without regard to case.
pub fn eq_ignore_case_range(s: &Vec<char>, lo: usize, hi: usize, t: &str) -> (r: bool)
    requires
        lo <= hi <= s.len(),
    ensures
        r == eq_ignore_ascii_case(s@.subrange(lo as int, hi as int), t@),
{
    let tv = chars_of(t);
    if hi - lo != tv.len() {
        return false;
    }
    let ghost a = s@.subrange(lo as int, hi as int);
    let mut i: usize = 0;
    while i < tv.len()
        invariant
            hi - lo == tv.len(),
            lo <= hi <= s.len(),
            i <= tv.len(),
            tv@ == t@,
            a == s@.subrange(lo as int, hi as int),
            forall|j: int| 0 <= j < i ==> ascii_lower(#[trigger] a[j]) == ascii_lower(tv@[j]),
        decreases tv.len() - i,
    {
        if lower_char(s[lo + i]) != lower_char(tv[i]) {
            assert(a[i as int] == s@[lo + i]);
            return false;
        }
        assert(a[i as int] == s@[lo + i]);
        i = i + 1;
    }
    true
}

/// Whether `s[lo..hi]` ends with `t`.
pub fn ends_with_range(s: &Vec<char>, lo: usize, hi: usize, t: &str) -> (r: bool)
    requires
        lo <= hi <= s.len(),
    ensures
        r == ends_with(s@.subrange(lo as int, hi as int), t@),
{
    let tv = chars_of(t);
    let ghost a = s@.subrange(lo as int, hi as int);
    if hi - lo < tv.len() {
        return false;
    }
    let base = hi - tv.len();
    let mut i: usize = 0;
    while i < tv.len()
        invariant
            lo <= base <= hi <= s.len(),
            base + tv.len() == hi,
            a == s@.subrange(lo as int, hi as int),
            i <= tv.len(),
            tv@ == t@,
            forall|j: int| 0 <= j < i ==> s@[base + j] == tv@[j],
        decreases tv.len() - i,
    {
        if s[base + i] != tv[i] {
            assert(a.skip(a.len() - tv@.len())[i as int] == s@[base + i]);
            return false;
        }
        i = i + 1;
    }
    assert(a.skip(a.len() - tv@.len()) =~= tv@);
    true
}

/// Whether `c` is an ASCII letter or digit.
pub open spec fn is_ascii_alnum(c: char) -> bool {
    ('a' <= c <= 'z') || ('A' <= c <= 'Z') || ('0' <= c <= '9')
}

/// Whether `c` is an ASCII letter or digit.
pub fn ascii_alnum_char(c: char) -> (r: bool)
    ensures
        r == is_ascii_alnum(c),
{
    ('a' <= c && c <= 'z') || ('A' <= c && c <= 'Z') || ('0' <= c && c <= '9')
}

/// The number of bytes `c` takes in UTF-8.
pub open spec fn utf8_width(c: char) -> nat {
    let u = c as u32;
    if u < 0x80 {
        1
    } else if u < 0x800 {
        2
    } else if u < 0x10000 {
        3
    } else {
        4
    }
}

/// How many characters of `s`, from its start, lie wholly within the first
/// `bytes` bytes of its UTF-8 encoding.
pub open spec fn chars_within(s: Seq<char>, bytes: int) -> nat
    decreases s.len(),
{
    if s.len() == 0 {
        0
    } else if utf8_width(s[0]) <= bytes {
        1 + chars_within(s.drop_first(), bytes - utf8_width(s[0]))
    } else {
        0
    }
}

/// The number of bytes `c` takes in UTF-8.
pub fn utf8_width_of(c: char) -> (w: usize)
    ensures
        w == utf8_width(c),
{
    let u = c as u32;
    if u < 0x80 {
        1
    } else if u < 0x800 {
        2
    } else if u < 0x10000 {
        3
    } else {
        4
    }
}

/// How many characters of `s` lie wholly within its first `bytes` bytes.
pub fn count_chars_within(s: &Vec<char>, bytes: usize) -> (n: usize)
    ensures
        n == chars_within(s@, bytes as int),
        n <= s.len(),
{
    let mut k: usize = 0;
    let mut used: usize = 0;
    assert(s@.skip(0) =~= s@);
    while k < s.len() && utf8_width_of(s[k]) <= bytes - used
        invariant
            k <= s.len(),
            used <= bytes,
            chars_within(s@, bytes as int) == k + chars_within(s@.skip(k as int), bytes - used),
        decreases s.len() - k,
    {
        assert(s@.skip(k as int).drop_first() =~= s@.skip(k + 1));
        used = used + utf8_width_of(s[k]);
        k = k + 1;
    }
    k
}

/// How many `c` the first `n` characters of `s` hold, and how many of
/// those characters follow the last of them.
pub fn count_and_after(s: &Vec<char>, n: usize, c: char) -> (r: (usize, usize))
    requires
        n <= s.len(),
    ensures
        r.0 == count(s@.take(n as int), c),
        r.1 == after_last(s@.take(n as int), c),
{
    let mut i: usize = 0;
    let mut seen: usize = 0;
    let mut after: usize = 0;
    assert(s@.take(0) =~= Seq::<char>::empty());
    while i < n
        invariant
            i <= n <= s.len(),
            seen == count(s@.take(i as int), c),
            after == after_last(s@.take(i as int), c),
            seen <= i,
            after <= i,
        decreases n - i,
    {
        assert(s@.take(i + 1).drop_last() =~= s@.take(i as int));
        if s[i] == c {
            seen = seen + 1;
            after = 0;
        } else {
            after = after + 1;
        }
        i = i + 1;
    }
    (seen, after)
}

/// Where `c` first occurs in `a + b`, when `a` does not hold it.
pub proof fn lemma_find_concat(a: Seq<char>, b: Seq<char>, c: char)
    requires
        find(a, c) is None,
    ensures
        find(a + b, c) == (match find(b, c) {
            Some(i) => Some(i + a.len()),
            None => None::<int>,
        }),
    decreases a.len(),
{
    if a.len() == 0 {
        assert(a + b =~= b);
    } else {
        assert((a + b).drop_first() =~= a.drop_first() + b);
        lemma_find_concat(a.drop_first(), b, c);
    }
}


/// Where `find` finds `c`, it finds it within `s`.
pub proof fn lemma_find_bound(s: Seq<char>, c: char)
    ensures
        find(s, c) matches Some(i) ==> 0 <= i < s.len() && s[i] == c && forall|j: int|
            0 <= j < i ==> s[j] != c,
    decreases s.len(),
{
    if s.len() > 0 && s[0] != c {
        lemma_find_bound(s.drop_first(), c);
        if let Some(i) = find(s.drop_first(), c) {
            assert forall|j: int| 0 <= j < i + 1 implies s[j] != c by {
                if j > 0 {
                    assert(s[j] == s.drop_first()[j - 1]);
                }
            }
        }
    }
}


/// No more characters lie within a byte offset than the text has.
pub proof fn lemma_chars_within_bound(s: Seq<char>, bytes: int)
    ensures
        chars_within(s, bytes) <= s.len(),
    decreases s.len(),
{
    if s.len() > 0 {
        lemma_chars_within_bound(s.drop_first(), bytes - utf8_width(s[0]));
    }
}

} // verus!
