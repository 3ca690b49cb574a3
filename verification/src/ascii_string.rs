use vstd::prelude::*;
use vstd::string::StringSliceAdditionalSpecFns;
use vstd::utf8::is_char_boundary;

use std::cmp::Ordering;

verus! {

/// A type for ASCII strings.
pub struct AsciiString<'a>(pub &'a str);

/// The UTF-8 bytes of a string: the positions that the functions of this
/// module take and return are byte offsets into them.
pub open spec fn bytes_of(s: AsciiString) -> Seq<u8> {
    s.0.spec_bytes()
}

pub open spec fn to_int(x: usize) -> int {
    x as int
}

/// ASCII upper-casing of one byte: `a`..=`z` become `A`..=`Z`, every
/// other byte is left alone.
pub open spec fn upper_byte(b: u8) -> u8 {
    if 97 <= b && b <= 122 {
        (b - 32) as u8
    } else {
        b
    }
}

/// ASCII upper-casing of a byte string.
pub open spec fn upper_bytes(s: Seq<u8>) -> Seq<u8> {
    s.map_values(|b: u8| upper_byte(b))
}

/// The upper-cased first `n` bytes of `s`.
pub open spec fn folded_prefix(s: Seq<u8>, n: int) -> Seq<u8> {
    upper_bytes(s.take(n))
}

/// The length up to which `mystrncasecmp` compares: the limit, cut down to
/// the length of the shorter string.
pub open spec fn prefix_limit(len: usize, a: Seq<u8>, b: Seq<u8>) -> int {
    let shorter = shorter_len(a, b);
    if (len as int) < shorter {
        len as int
    } else {
        shorter
    }
}

pub open spec fn shorter_len(a: Seq<u8>, b: Seq<u8>) -> int {
    if a.len() < b.len() {
        a.len() as int
    } else {
        b.len() as int
    }
}

/// The order of two bytes.
pub open spec fn byte_order(p: u8, q: u8) -> Ordering {
    if p < q {
        Ordering::Less
    } else if p > q {
        Ordering::Greater
    } else {
        Ordering::Equal
    }
}

/// Lexicographic order of byte strings, the order in which Rust compares
/// `str`s: the first differing byte decides, and a proper prefix comes first.
pub open spec fn lexicographic(a: Seq<u8>, b: Seq<u8>) -> Ordering
    decreases a.len(),
{
    if a.len() == 0 {
        if b.len() == 0 {
            Ordering::Equal
        } else {
            Ordering::Less
        }
    } else if b.len() == 0 {
        Ordering::Greater
    } else if a[0] != b[0] {
        byte_order(a[0], b[0])
    } else {
        lexicographic(a.drop_first(), b.drop_first())
    }
}

/// What `mystrncasecmp` returns on byte strings `a` and `b` with limit `len`.
pub open spec fn casefold_order(a: Seq<u8>, b: Seq<u8>, len: usize) -> Ordering {
    let n = prefix_limit(len, a, b);
    lexicographic(folded_prefix(a, n), folded_prefix(b, n))
}

/// What `mystrcasecmp` returns on byte strings `a` and `b`.
pub open spec fn casefold_order_common(a: Seq<u8>, b: Seq<u8>) -> Ordering {
    let n = shorter_len(a, b);
    lexicographic(folded_prefix(a, n), folded_prefix(b, n))
}

/// Comparison goes by the suffixes after a common prefix.
proof fn lemma_lexicographic_skip(a: Seq<u8>, b: Seq<u8>, i: int)
    requires
        0 <= i <= a.len(),
        i <= b.len(),
        forall|j: int| 0 <= j < i ==> a[j] == b[j],
    ensures
        lexicographic(a, b) == lexicographic(a.skip(i), b.skip(i)),
    decreases i,
{
    if i > 0 {
        lemma_lexicographic_skip(a.drop_first(), b.drop_first(), i - 1);
        assert(a.drop_first().skip(i - 1) =~= a.skip(i));
        assert(b.drop_first().skip(i - 1) =~= b.skip(i));
    } else {
        assert(a.skip(0) =~= a);
        assert(b.skip(0) =~= b);
    }
}

/// The first position below `n` at which the upper-cased bytes of `a` and
/// `b` differ, if there is one.
fn first_folded_difference(a: &[u8], b: &[u8], n: usize) -> (r: Option<usize>)
    requires
        n <= a@.len(),
        n <= b@.len(),
    ensures
        match r {
            Some(i) => {
                &&& i < n
                &&& upper_byte(a@[i as int]) != upper_byte(b@[i as int])
                &&& forall|j: int| 0 <= j < i ==> upper_byte(a@[j]) == upper_byte(b@[j])
            },
            None => forall|j: int| 0 <= j < n ==> upper_byte(a@[j]) == upper_byte(b@[j]),
        },
{
    let mut i: usize = 0;
    while i < n
        invariant
            i <= n,
            n <= a@.len(),
            n <= b@.len(),
            forall|j: int| 0 <= j < i ==> upper_byte(a@[j]) == upper_byte(b@[j]),
        decreases n - i,
    {
        if ascii_upper(a[i]) != ascii_upper(b[i]) {
            return Some(i);
        }
        i = i + 1;
    }
    None
}

/// ASCII upper-casing of one byte.
pub fn ascii_upper(b: u8) -> (r: u8)
    ensures
        r == upper_byte(b),
{
    if b >= 97 && b <= 122 {
        b - 32
    } else {
        b
    }
}

/// Up to the first differing position, the upper-cased prefixes are equal,
/// and that position decides their order.
proof fn lemma_folded_first_difference(a: Seq<u8>, b: Seq<u8>, n: int, i: int)
    requires
        0 <= i < n,
        n <= a.len(),
        n <= b.len(),
        forall|j: int| 0 <= j < i ==> upper_byte(a[j]) == upper_byte(b[j]),
        upper_byte(a[i]) != upper_byte(b[i]),
    ensures
        lexicographic(folded_prefix(a, n), folded_prefix(b, n)) == byte_order(
            upper_byte(a[i]),
            upper_byte(b[i]),
        ),
{
    let fa = folded_prefix(a, n);
    let fb = folded_prefix(b, n);
    lemma_lexicographic_skip(fa, fb, i);
    assert(fa.skip(i)[0] == upper_byte(a[i]));
    assert(fb.skip(i)[0] == upper_byte(b[i]));
}

/// Upper-cased prefixes that agree everywhere are equal.
proof fn lemma_folded_no_difference(a: Seq<u8>, b: Seq<u8>, n: int)
    requires
        0 <= n <= a.len(),
        n <= b.len(),
        forall|j: int| 0 <= j < n ==> upper_byte(a[j]) == upper_byte(b[j]),
    ensures
        lexicographic(folded_prefix(a, n), folded_prefix(b, n)) == Ordering::Equal,
{
    let fa = folded_prefix(a, n);
    let fb = folded_prefix(b, n);
    lemma_lexicographic_skip(fa, fb, n);
    assert(fa.skip(n).len() == 0);
    assert(fb.skip(n).len() == 0);
}

/// Lexicographic comparison of a prefix of two ASCII strings,
/// ignoring case.  If either string is shorter than the limit, then
/// the comparison is only done up to that point.
///
/// The prefixes are cut at a byte offset, which must fall on a character
/// boundary of both strings (always so for ASCII strings).
pub fn mystrncasecmp(ascii_str1: AsciiString, ascii_str2: AsciiString, len: usize) -> (r: Ordering)
    requires
        is_char_boundary(
            bytes_of(ascii_str1),
            prefix_limit(len, bytes_of(ascii_str1), bytes_of(ascii_str2)),
        ),
        is_char_boundary(
            bytes_of(ascii_str2),
            prefix_limit(len, bytes_of(ascii_str1), bytes_of(ascii_str2)),
        ),
    ensures
        r == casefold_order(bytes_of(ascii_str1), bytes_of(ascii_str2), len),
{
    let AsciiString(str1) = ascii_str1;
    let AsciiString(str2) = ascii_str2;
    let bytes1 = str1.as_bytes();
    let bytes2 = str2.as_bytes();
    let shorter = if bytes1.len() < bytes2.len() {
        bytes1.len()
    } else {
        bytes2.len()
    };
    let upper_bound = if len < shorter {
        len
    } else {
        shorter
    };
    assert(upper_bound == prefix_limit(len, bytes1@, bytes2@));
    match first_folded_difference(bytes1, bytes2, upper_bound) {
        None => {
            proof {
                lemma_folded_no_difference(bytes1@, bytes2@, to_int(upper_bound));
            }
            Ordering::Equal
        },
        Some(i) => {
            let p = ascii_upper(bytes1[i]);
            let q = ascii_upper(bytes2[i]);
            proof {
                lemma_folded_first_difference(bytes1@, bytes2@, to_int(upper_bound), to_int(i));
            }
            if p < q {
                Ordering::Less
            } else {
                Ordering::Greater
            }
        },
    }
}

/// Lexicographic comparison of two ASCII strings, ignoring case.  If
/// the two strings are unequal lengths, only the initial portions are
/// compared.
pub fn mystrcasecmp(ascii_str1: AsciiString, ascii_str2: AsciiString) -> (r: Ordering)
    requires
        is_char_boundary(bytes_of(ascii_str1), shorter_len(bytes_of(ascii_str1), bytes_of(ascii_str2))),
        is_char_boundary(bytes_of(ascii_str2), shorter_len(bytes_of(ascii_str1), bytes_of(ascii_str2))),
    ensures
        r == casefold_order_common(bytes_of(ascii_str1), bytes_of(ascii_str2)),
{
    let AsciiString(str1) = ascii_str1;
    let AsciiString(str2) = ascii_str2;
    let len1 = str1.as_bytes().len();
    let len2 = str2.as_bytes().len();
    let len = if len1 < len2 {
        len1
    } else {
        len2
    };
    mystrncasecmp(ascii_str1, ascii_str2, len)
}

/// `needle` occurs in `hay` starting at byte offset `i`.
pub open spec fn occurs_at(hay: Seq<u8>, needle: Seq<u8>, i: int) -> bool {
    &&& 0 <= i
    &&& i + needle.len() <= hay.len()
    &&& hay.subrange(i, i + needle.len()) == needle
}

/// The bytes that a search looks at: the string itself when case counts,
/// its ASCII upper-casing when it does not.
pub open spec fn search_key(s: Seq<u8>, case_counts: bool) -> Seq<u8> {
    if case_counts {
        s
    } else {
        upper_bytes(s)
    }
}

/// `r` is the first offset at which `needle` occurs in `hay`, or `None`
/// when it occurs nowhere.
pub open spec fn is_first_occurrence(hay: Seq<u8>, needle: Seq<u8>, r: Option<usize>) -> bool {
    match r {
        Some(i) => {
            &&& occurs_at(hay, needle, i as int)
            &&& forall|j: int| 0 <= j < i ==> !occurs_at(hay, needle, j)
        },
        None => forall|j: int| !occurs_at(hay, needle, j),
    }
}

/// `r` is the last offset at which `needle` occurs in `hay`, or `None`
/// when it occurs nowhere.
pub open spec fn is_last_occurrence(hay: Seq<u8>, needle: Seq<u8>, r: Option<usize>) -> bool {
    match r {
        Some(i) => {
            &&& occurs_at(hay, needle, i as int)
            &&& forall|j: int| i < j ==> !occurs_at(hay, needle, j)
        },
        None => forall|j: int| !occurs_at(hay, needle, j),
    }
}

/// Whether `needle` occurs in `hay` at offset `i`.
fn occurs_at_offset(hay: &[u8], needle: &[u8], i: usize) -> (r: bool)
    requires
        i + needle@.len() <= hay@.len(),
    ensures
        r == occurs_at(hay@, needle@, i as int),
{
    let m = needle.len();
    let n = hay.len();
    let mut k: usize = 0;
    while k < m
        invariant
            m == needle@.len(),
            n == hay@.len(),
            i + m <= hay@.len(),
            k <= m,
            forall|j: int| 0 <= j < k ==> hay@[i + j] == needle@[j],
        decreases m - k,
    {
        if hay[i + k] != needle[k] {
            assert(hay@.subrange(i as int, i + m)[k as int] != needle@[k as int]);
            return false;
        }
        k = k + 1;
    }
    assert(hay@.subrange(i as int, i + m) =~= needle@);
    true
}

/// The first offset at which `needle` occurs in `hay`.
fn find_bytes(hay: &[u8], needle: &[u8]) -> (r: Option<usize>)
    ensures
        is_first_occurrence(hay@, needle@, r),
{
    if needle.len() > hay.len() {
        return None;
    }
    let last = hay.len() - needle.len();
    let mut i: usize = 0;
    loop
        invariant
            last + needle@.len() == hay@.len(),
            i <= last,
            forall|j: int| 0 <= j < i ==> !occurs_at(hay@, needle@, j),
        decreases last - i,
    {
        if occurs_at_offset(hay, needle, i) {
            return Some(i);
        }
        if i == last {
            return None;
        }
        i = i + 1;
    }
}

/// The last offset at which `needle` occurs in `hay`.
fn rfind_bytes(hay: &[u8], needle: &[u8]) -> (r: Option<usize>)
    ensures
        is_last_occurrence(hay@, needle@, r),
{
    if needle.len() > hay.len() {
        return None;
    }
    let last = hay.len() - needle.len();
    let mut i: usize = last;
    loop
        invariant
            last + needle@.len() == hay@.len(),
            i <= last,
            forall|j: int| i < j ==> !occurs_at(hay@, needle@, j),
        decreases i,
    {
        if occurs_at_offset(hay, needle, i) {
            return Some(i);
        }
        if i == 0 {
            return None;
        }
        i = i - 1;
    }
}

/// The ASCII upper-casing of a byte string.
fn fold_bytes(s: &[u8]) -> (r: Vec<u8>)
    ensures
        r@ == upper_bytes(s@),
{
    let mut r: Vec<u8> = Vec::with_capacity(s.len());
    for i in 0..s.len()
        invariant
            r@ == upper_bytes(s@.take(i as int)),
    {
        r.push(ascii_upper(s[i]));
        assert(upper_bytes(s@.take(i + 1)) =~= upper_bytes(s@.take(i as int)).push(upper_byte(s@[i as int])));
    }
    assert(s@.take(s@.len() as int) =~= s@);
    r
}

/// Find the index of the first occurrence of the second string in the
/// first.
///
/// Offsets are byte offsets; unless `case_counts`, both strings are
/// upper-cased (ASCII letters only) first.
pub fn strindex(ascii_haystack: AsciiString, ascii_needle: AsciiString, case_counts: bool) -> (r:
    Option<usize>)
    ensures
        is_first_occurrence(
            search_key(bytes_of(ascii_haystack), case_counts),
            search_key(bytes_of(ascii_needle), case_counts),
            r,
        ),
{
    let AsciiString(haystack) = ascii_haystack;
    let AsciiString(needle) = ascii_needle;
    if case_counts {
        find_bytes(haystack.as_bytes(), needle.as_bytes())
    } else {
        let hay = fold_bytes(haystack.as_bytes());
        let pattern = fold_bytes(needle.as_bytes());
        find_bytes(hay.as_slice(), pattern.as_slice())
    }
}

/// Find the index of the last occurrence of the second string in the
/// first.
///
/// Offsets are byte offsets; unless `case_counts`, both strings are
/// upper-cased (ASCII letters only) first.
pub fn strrindex(ascii_haystack: AsciiString, ascii_needle: AsciiString, case_counts: bool) -> (r:
    Option<usize>)
    ensures
        is_last_occurrence(
            search_key(bytes_of(ascii_haystack), case_counts),
            search_key(bytes_of(ascii_needle), case_counts),
            r,
        ),
{
    let AsciiString(haystack) = ascii_haystack;
    let AsciiString(needle) = ascii_needle;
    if case_counts {
        rfind_bytes(haystack.as_bytes(), needle.as_bytes())
    } else {
        let hay = fold_bytes(haystack.as_bytes());
        let pattern = fold_bytes(needle.as_bytes());
        rfind_bytes(hay.as_slice(), pattern.as_slice())
    }
}

/// The reverse of an ordering.
pub open spec fn reversed(o: Ordering) -> Ordering {
    match o {
        Ordering::Less => Ordering::Greater,
        Ordering::Equal => Ordering::Equal,
        Ordering::Greater => Ordering::Less,
    }
}

proof fn lemma_lexicographic_antisymmetric(a: Seq<u8>, b: Seq<u8>)
    ensures
        lexicographic(b, a) == reversed(lexicographic(a, b)),
    decreases a.len(),
{
    if a.len() > 0 && b.len() > 0 && a[0] == b[0] {
        lemma_lexicographic_antisymmetric(a.drop_first(), b.drop_first());
    }
}

proof fn lemma_lexicographic_reflexive(a: Seq<u8>)
    ensures
        lexicographic(a, a) == Ordering::Equal,
    decreases a.len(),
{
    if a.len() > 0 {
        lemma_lexicographic_reflexive(a.drop_first());
    }
}

/// Upper-casing is idempotent, keeps the length, and commutes with
/// taking a prefix.
pub proof fn lemma_upper_bytes_idempotent(s: Seq<u8>, n: int)
    requires
        0 <= n <= s.len(),
    ensures
        upper_bytes(s).len() == s.len(),
        upper_bytes(upper_bytes(s)) == upper_bytes(s),
        folded_prefix(upper_bytes(s), n) == folded_prefix(s, n),
{
    assert(upper_bytes(upper_bytes(s)) =~= upper_bytes(s));
    assert(folded_prefix(upper_bytes(s), n) =~= folded_prefix(s, n));
}

/// Comparing `b` with `a` gives the reverse of comparing `a` with `b`.
pub proof fn law_casecmp_antisymmetric(a: Seq<u8>, b: Seq<u8>, len: usize)
    ensures
        casefold_order(b, a, len) == reversed(casefold_order(a, b, len)),
        casefold_order_common(b, a) == reversed(casefold_order_common(a, b)),
{
    let n = prefix_limit(len, a, b);
    assert(prefix_limit(len, b, a) == n);
    lemma_lexicographic_antisymmetric(folded_prefix(a, n), folded_prefix(b, n));
    let m = shorter_len(a, b);
    assert(shorter_len(b, a) == m);
    lemma_lexicographic_antisymmetric(folded_prefix(a, m), folded_prefix(b, m));
}

/// A string compares equal to itself.
pub proof fn law_casecmp_reflexive(a: Seq<u8>, len: usize)
    ensures
        casefold_order(a, a, len) == Ordering::Equal,
        casefold_order_common(a, a) == Ordering::Equal,
{
    lemma_lexicographic_reflexive(folded_prefix(a, prefix_limit(len, a, a)));
    lemma_lexicographic_reflexive(folded_prefix(a, shorter_len(a, a)));
}

/// Upper-casing either string does not change how they compare.
pub proof fn law_casecmp_ignores_case(a: Seq<u8>, b: Seq<u8>, len: usize)
    ensures
        casefold_order(upper_bytes(a), b, len) == casefold_order(a, b, len),
        casefold_order(a, upper_bytes(b), len) == casefold_order(a, b, len),
        casefold_order_common(upper_bytes(a), b) == casefold_order_common(a, b),
        casefold_order_common(a, upper_bytes(b)) == casefold_order_common(a, b),
{
    lemma_upper_bytes_idempotent(a, prefix_limit(len, a, b));
    lemma_upper_bytes_idempotent(b, prefix_limit(len, a, b));
    lemma_upper_bytes_idempotent(a, shorter_len(a, b));
    lemma_upper_bytes_idempotent(b, shorter_len(a, b));
}

/// With a limit at least as long as the shorter string, `mystrncasecmp`
/// compares as `mystrcasecmp` does.
pub proof fn law_ncasecmp_long_limit(a: Seq<u8>, b: Seq<u8>, len: usize)
    requires
        shorter_len(a, b) <= len,
    ensures
        casefold_order(a, b, len) == casefold_order_common(a, b),
{
}

/// With a limit of zero every pair of strings compares equal.
pub proof fn law_ncasecmp_zero_limit(a: Seq<u8>, b: Seq<u8>)
    ensures
        casefold_order(a, b, 0) == Ordering::Equal,
{
    assert(folded_prefix(a, 0) =~= Seq::<u8>::empty());
    assert(folded_prefix(b, 0) =~= Seq::<u8>::empty());
}

/// The first occurrence is determined by the strings.
pub proof fn law_first_occurrence_unique(
    hay: Seq<u8>,
    needle: Seq<u8>,
    r1: Option<usize>,
    r2: Option<usize>,
)
    requires
        is_first_occurrence(hay, needle, r1),
        is_first_occurrence(hay, needle, r2),
    ensures
        r1 == r2,
{
    match (r1, r2) {
        (Some(i), Some(j)) => {
            assert(!(i < j) && !(j < i)) by {
                if i < j {
                    assert(!occurs_at(hay, needle, i as int));
                }
                if j < i {
                    assert(!occurs_at(hay, needle, j as int));
                }
            }
        },
        (Some(i), None) => {
            assert(!occurs_at(hay, needle, i as int));
        },
        (None, Some(j)) => {
            assert(!occurs_at(hay, needle, j as int));
        },
        (None, None) => {},
    }
}

/// The last occurrence is determined by the strings.
pub proof fn law_last_occurrence_unique(
    hay: Seq<u8>,
    needle: Seq<u8>,
    r1: Option<usize>,
    r2: Option<usize>,
)
    requires
        is_last_occurrence(hay, needle, r1),
        is_last_occurrence(hay, needle, r2),
    ensures
        r1 == r2,
{
    match (r1, r2) {
        (Some(i), Some(j)) => {
            assert(!(i < j) && !(j < i)) by {
                if i < j {
                    assert(!occurs_at(hay, needle, j as int));
                }
                if j < i {
                    assert(!occurs_at(hay, needle, i as int));
                }
            }
        },
        (Some(i), None) => {
            assert(!occurs_at(hay, needle, i as int));
        },
        (None, Some(j)) => {
            assert(!occurs_at(hay, needle, j as int));
        },
        (None, None) => {},
    }
}

/// The first and the last occurrence are both found or both missing, and
/// the first does not come after the last.
pub proof fn law_first_not_after_last(
    hay: Seq<u8>,
    needle: Seq<u8>,
    first: Option<usize>,
    last: Option<usize>,
)
    requires
        is_first_occurrence(hay, needle, first),
        is_last_occurrence(hay, needle, last),
    ensures
        first is Some <==> last is Some,
        first matches Some(i) ==> last matches Some(j) && i <= j,
{
    match (first, last) {
        (Some(i), Some(j)) => {
            if j < i {
                assert(!occurs_at(hay, needle, i as int));
            }
        },
        (Some(i), None) => {
            assert(!occurs_at(hay, needle, i as int));
        },
        (None, Some(j)) => {
            assert(!occurs_at(hay, needle, j as int));
        },
        (None, None) => {},
    }
}

/// The empty string occurs first at the start and last at the end.
pub proof fn law_empty_needle(hay: Seq<u8>, first: Option<usize>, last: Option<usize>)
    requires
        is_first_occurrence(hay, Seq::empty(), first),
        is_last_occurrence(hay, Seq::empty(), last),
    ensures
        first == Some(0usize),
        last matches Some(j) && j == hay.len(),
{
    let empty = Seq::<u8>::empty();
    assert(hay.subrange(0, 0) =~= empty);
    assert(occurs_at(hay, empty, 0));
    assert(hay.subrange(hay.len() as int, hay.len() as int) =~= empty);
    assert(occurs_at(hay, empty, hay.len() as int));
    match first {
        Some(i) => {
            if i > 0 {
                assert(!occurs_at(hay, empty, 0));
            }
        },
        None => {},
    }
    match last {
        Some(j) => {
            if j < hay.len() {
                assert(!occurs_at(hay, empty, hay.len() as int));
            }
        },
        None => {},
    }
}

/// A search that ignores case finds the same in upper-cased strings.
pub proof fn law_search_ignores_case(s: Seq<u8>)
    ensures
        search_key(upper_bytes(s), false) == search_key(s, false),
        search_key(s, false) == search_key(upper_bytes(s), true),
{
    lemma_upper_bytes_idempotent(s, 0);
}

/// Case folding touches exactly the lower-case ASCII letters: each of
/// `a`..=`z` becomes the letter 32 below it (`A`..=`Z`), every other byte
/// stays as it is.
pub proof fn law_upper_byte_folds_letters(b: u8)
    ensures
        97 <= b <= 122 ==> upper_byte(b) == b - 32,
        !(97 <= b <= 122) ==> upper_byte(b) == b,
        65 <= upper_byte(b) <= 90 <==> (65 <= b <= 90 || 97 <= b <= 122),
{
}

/// The bytes searched in: the string itself when case counts; otherwise
/// the string with each byte case-folded, position by position.
pub proof fn law_search_key_bytes(s: Seq<u8>)
    ensures
        search_key(s, true) == s,
        search_key(s, false).len() == s.len(),
        forall|i: int| 0 <= i < s.len() ==> search_key(s, false)[i] == upper_byte(s[i]),
{
}

/// Every byte of `needle` equals the byte of `hay` at offset `j` past it.
pub open spec fn bytes_match_at(hay: Seq<u8>, needle: Seq<u8>, j: int) -> bool {
    forall|k: int| 0 <= k < needle.len() ==> hay[j + k] == needle[k]
}

/// An offset is an occurrence exactly when every byte of the needle matches
/// the haystack byte at that offset.
pub proof fn law_occurrence_is_bytewise_match(hay: Seq<u8>, needle: Seq<u8>, i: int)
    ensures
        occurs_at(hay, needle, i) <==> {
            &&& 0 <= i
            &&& i + needle.len() <= hay.len()
            &&& forall|k: int| 0 <= k < needle.len() ==> hay[i + k] == needle[k]
        },
{
    if 0 <= i && i + needle.len() <= hay.len() {
        if forall|k: int| 0 <= k < needle.len() ==> hay[i + k] == needle[k] {
            assert(hay.subrange(i, i + needle.len()) =~= needle);
        }
        if occurs_at(hay, needle, i) {
            assert forall|k: int| 0 <= k < needle.len() implies hay[i + k] == needle[k] by {
                assert(hay.subrange(i, i + needle.len())[k] == hay[i + k]);
            }
        }
    }
}

/// What `strindex` reports, byte by byte: a found offset is a full match
/// with no full match before it; `None` means no offset matches.
pub proof fn law_first_occurrence_bytewise(hay: Seq<u8>, needle: Seq<u8>, r: Option<usize>)
    requires
        is_first_occurrence(hay, needle, r),
    ensures
        match r {
            Some(i) => {
                &&& i + needle.len() <= hay.len()
                &&& forall|k: int| 0 <= k < needle.len() ==> hay[i + k] == needle[k]
                &&& forall|j: int|
                    0 <= j < i ==> !bytes_match_at(hay, needle, j)
            },
            None => forall|j: int|
                0 <= j && j + needle.len() <= hay.len() ==> !bytes_match_at(hay, needle, j),
        },
{
    match r {
        Some(i) => {
            law_occurrence_is_bytewise_match(hay, needle, i as int);
            assert forall|j: int| 0 <= j < i implies !bytes_match_at(hay, needle, j) by {
                law_occurrence_is_bytewise_match(hay, needle, j);
            }
        },
        None => {
            assert forall|j: int| 0 <= j && j + needle.len() <= hay.len() implies !bytes_match_at(hay, needle, j) by {
                law_occurrence_is_bytewise_match(hay, needle, j);
            }
        },
    }
}

/// What `strrindex` reports, byte by byte: a found offset is a full match
/// with no full match after it; `None` means no offset matches.
pub proof fn law_last_occurrence_bytewise(hay: Seq<u8>, needle: Seq<u8>, r: Option<usize>)
    requires
        is_last_occurrence(hay, needle, r),
    ensures
        match r {
            Some(i) => {
                &&& i + needle.len() <= hay.len()
                &&& forall|k: int| 0 <= k < needle.len() ==> hay[i + k] == needle[k]
                &&& forall|j: int|
                    i < j && j + needle.len() <= hay.len() ==> !bytes_match_at(hay, needle, j)
            },
            None => forall|j: int|
                0 <= j && j + needle.len() <= hay.len() ==> !bytes_match_at(hay, needle, j),
        },
{
    match r {
        Some(i) => {
            law_occurrence_is_bytewise_match(hay, needle, i as int);
            assert forall|j: int| i < j && j + needle.len() <= hay.len() implies !bytes_match_at(hay, needle, j) by {
                law_occurrence_is_bytewise_match(hay, needle, j);
            }
        },
        None => {
            assert forall|j: int| 0 <= j && j + needle.len() <= hay.len() implies !bytes_match_at(hay, needle, j) by {
                law_occurrence_is_bytewise_match(hay, needle, j);
            }
        },
    }
}

/// `mystrncasecmp` looks at every position below the limit that both
/// strings have: where the case-folded bytes first differ at such a
/// position `i`, the smaller folded byte decides.
pub proof fn law_ncasecmp_first_difference(a: Seq<u8>, b: Seq<u8>, len: usize, i: int)
    requires
        0 <= i,
        i < len,
        i < a.len(),
        i < b.len(),
        forall|j: int| 0 <= j < i ==> upper_byte(a[j]) == upper_byte(b[j]),
        upper_byte(a[i]) != upper_byte(b[i]),
    ensures
        casefold_order(a, b, len) == if upper_byte(a[i]) < upper_byte(b[i]) {
            Ordering::Less
        } else {
            Ordering::Greater
        },
{
    lemma_folded_first_difference(a, b, prefix_limit(len, a, b), i);
}

/// `mystrncasecmp` looks no further than the limit and the shorter string:
/// when the case-folded bytes agree at every position below both, the
/// strings compare equal.
pub proof fn law_ncasecmp_no_difference(a: Seq<u8>, b: Seq<u8>, len: usize)
    requires
        forall|j: int|
            0 <= j && j < len && j < a.len() && j < b.len() ==> upper_byte(a[j]) == upper_byte(
                b[j],
            ),
    ensures
        casefold_order(a, b, len) == Ordering::Equal,
{
    lemma_folded_no_difference(a, b, prefix_limit(len, a, b));
}

/// `mystrcasecmp` looks at every position that both strings have: where the
/// case-folded bytes first differ, the smaller folded byte decides.
pub proof fn law_casecmp_first_difference(a: Seq<u8>, b: Seq<u8>, i: int)
    requires
        0 <= i,
        i < a.len(),
        i < b.len(),
        forall|j: int| 0 <= j < i ==> upper_byte(a[j]) == upper_byte(b[j]),
        upper_byte(a[i]) != upper_byte(b[i]),
    ensures
        casefold_order_common(a, b) == if upper_byte(a[i]) < upper_byte(b[i]) {
            Ordering::Less
        } else {
            Ordering::Greater
        },
{
    lemma_folded_first_difference(a, b, shorter_len(a, b), i);
}

/// `mystrcasecmp` ignores what lies beyond the shorter string: when the
/// case-folded bytes agree at every position both strings have, they
/// compare equal.
pub proof fn law_casecmp_no_difference(a: Seq<u8>, b: Seq<u8>)
    requires
        forall|j: int| 0 <= j && j < a.len() && j < b.len() ==> upper_byte(a[j]) == upper_byte(b[j]),
    ensures
        casefold_order_common(a, b) == Ordering::Equal,
{
    lemma_folded_no_difference(a, b, shorter_len(a, b));
}

/// A string compares equal to its ASCII upper-casing (each of `a`..=`z`
/// replaced by the letter 32 below it), whatever the limit.
pub proof fn law_casecmp_equal_to_uppercase(a: Seq<u8>, b: Seq<u8>, len: usize)
    requires
        a.len() == b.len(),
        forall|i: int| 0 <= i < a.len() ==> b[i] == if 97 <= a[i] <= 122 {
            a[i] - 32
        } else {
            a[i] + 0
        },
    ensures
        casefold_order_common(a, b) == Ordering::Equal,
        casefold_order(a, b, len) == Ordering::Equal,
{
    law_casecmp_no_difference(a, b);
    law_ncasecmp_no_difference(a, b, len);
}

/// The C convention for a comparison result: -1, 0 or 1.
pub fn ordering_to_c_int(order: Ordering) -> (r: i32)
    ensures
        r == (match order {
            Ordering::Less => -1i32,
            Ordering::Equal => 0i32,
            Ordering::Greater => 1i32,
        }),
{
    match order {
        Ordering::Less => -1,
        Ordering::Equal => 0,
        Ordering::Greater => 1,
    }
}

/// The C convention for a search result: one more than the offset found,
/// or 0 when nothing was found.
pub fn position_to_c_int(found: Option<usize>) -> (r: i32)
    requires
        found matches Some(i) ==> i < i32::MAX,
    ensures
        match found {
            Some(i) => r == i + 1,
            None => r == 0,
        },
{
    match found {
        Some(i) => i as i32 + 1,
        None => 0,
    }
}

} // verus!
