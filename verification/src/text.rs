//! Character-level text utilities.
//!
//! All heavier string processing in this crate works over `Vec<char>` so that
//! the logic can be specified against `Seq<char>` views. The functions here
//! convert between `String` and `Vec<char>`, and provide the splitting,
//! trimming, case-folding and searching primitives the rest of the crate uses.

use vstd::prelude::*;

verus! {

/// The Unicode white-space code points, the set `char::is_whitespace` tests.
pub open spec fn is_space_char(c: char) -> bool {
    (c as u32) == 0x20 || (c as u32) == 0x09 || (c as u32) == 0x0A || (c as u32) == 0x0B
        || (c as u32) == 0x0C || (c as u32) == 0x0D || (c as u32) == 0x85 || (c as u32) == 0xA0
        || (c as u32) == 0x1680 || (0x2000 <= (c as u32) && (c as u32) <= 0x200A)
        || (c as u32) == 0x2028 || (c as u32) == 0x2029 || (c as u32) == 0x202F
        || (c as u32) == 0x205F || (c as u32) == 0x3000
}

/// ASCII upper-case letters fold to lower case; everything else is unchanged.
pub open spec fn lower_char(c: char) -> char {
    if 'A' <= c && c <= 'Z' {
        (((c as u8) + 32) as char)
    } else {
        c
    }
}

pub open spec fn lower_seq(s: Seq<char>) -> Seq<char> {
    s.map_values(|c: char| lower_char(c))
}

/// Executable white-space test, equal to the spec set.
pub fn is_space(c: char) -> (r: bool)
    ensures
        r == is_space_char(c),
{
    let u = c as u32;
    u == 0x20 || u == 0x09 || u == 0x0A || u == 0x0B || u == 0x0C || u == 0x0D || u == 0x85
        || u == 0xA0 || u == 0x1680 || (0x2000 <= u && u <= 0x200A) || u == 0x2028 || u == 0x2029
        || u == 0x202F || u == 0x205F || u == 0x3000
}

pub fn lower(c: char) -> (r: char)
    ensures
        r == lower_char(c),
{
    if 'A' <= c && c <= 'Z' {
        ((c as u8) + 32) as char
    } else {
        c
    }
}

/// Converts a string slice to its sequence of characters.
pub fn chars_of(s: &str) -> (r: Vec<char>)
    ensures
        r@ == s@,
{
    let n = s.unicode_len();
    let mut r: Vec<char> = Vec::new();
    let mut i: usize = 0;
    while i < n
        invariant
            n == s@.len(),
            i <= n,
            r@ == s@.subrange(0, i as int),
        decreases n - i,
    {
        r.push(s.get_char(i));
        i = i + 1;
        proof {
            assert(r@ =~= s@.subrange(0, i as int));
        }
    }
    proof {
        assert(r@ =~= s@);
    }
    r
}

/// Builds a `String` from a sequence of characters.
pub fn string_of(v: &Vec<char>) -> (r: String)
    ensures
        r@ == v@,
{
    let mut r = String::new();
    let mut i: usize = 0;
    while i < v.len()
        invariant
            i <= v@.len(),
            r@ == v@.subrange(0, i as int),
        decreases v@.len() - i,
    {
        crate::outside::push_char(&mut r, v[i]);
        i = i + 1;
        proof {
            assert(r@ =~= v@.subrange(0, i as int));
        }
    }
    proof {
        assert(r@ =~= v@);
    }
    r
}

pub fn lower_all(v: &Vec<char>) -> (r: Vec<char>)
    ensures
        r@ == lower_seq(v@),
{
    let mut r: Vec<char> = Vec::new();
    let mut i: usize = 0;
    while i < v.len()
        invariant
            i <= v@.len(),
            r@ == lower_seq(v@.subrange(0, i as int)),
        decreases v@.len() - i,
    {
        r.push(lower(v[i]));
        i = i + 1;
        proof {
            assert(r@ =~= lower_seq(v@.subrange(0, i as int)));
        }
    }
    proof {
        assert(v@.subrange(0, v@.len() as int) =~= v@);
    }
    r
}

pub fn eq_chars(a: &Vec<char>, b: &Vec<char>) -> (r: bool)
    ensures
        r == (a@ == b@),
{
    if a.len() != b.len() {
        proof {
            assert(a@.len() != b@.len());
        }
        return false;
    }
    let mut i: usize = 0;
    while i < a.len()
        invariant
            a@.len() == b@.len(),
            i <= a@.len(),
            forall|j: int| 0 <= j < i ==> a@[j] == b@[j],
        decreases a@.len() - i,
    {
        if a[i] != b[i] {
            return false;
        }
        i = i + 1;
    }
    proof {
        assert(a@ =~= b@);
    }
    true
}

/// Length of the leading run of non-space characters.
pub open spec fn nonspace_run(s: Seq<char>) -> nat
    decreases s.len(),
{
    if s.len() == 0 || is_space_char(s[0]) {
        0
    } else {
        1 + nonspace_run(s.subrange(1, s.len() as int))
    }
}

pub proof fn lemma_nonspace_run(s: Seq<char>)
    ensures
        nonspace_run(s) <= s.len(),
        forall|j: int| 0 <= j < nonspace_run(s) ==> !is_space_char(#[trigger] s[j]),
        nonspace_run(s) < s.len() ==> is_space_char(s[nonspace_run(s) as int]),
    decreases s.len(),
{
    if s.len() > 0 && !is_space_char(s[0]) {
        let t = s.subrange(1, s.len() as int);
        lemma_nonspace_run(t);
        assert forall|j: int| 0 <= j < nonspace_run(s) implies !is_space_char(#[trigger] s[j]) by {
            if j >= 1 {
                assert(s[j] == t[j - 1]);
            }
        }
        if nonspace_run(s) < s.len() {
            assert(s[nonspace_run(s) as int] == t[nonspace_run(t) as int]);
        }
    }
}

/// The white-space-separated words of `s`: the splitting that
/// `str::split_whitespace` performs.
pub open spec fn words_of(s: Seq<char>) -> Seq<Seq<char>>
    decreases s.len(),
    via words_of_decreases
{
    if s.len() == 0 {
        Seq::empty()
    } else if is_space_char(s[0]) {
        words_of(s.subrange(1, s.len() as int))
    } else {
        let k = nonspace_run(s);
        seq![s.subrange(0, k as int)] + words_of(s.subrange(k as int, s.len() as int))
    }
}

#[via_fn]
proof fn words_of_decreases(s: Seq<char>) {
    lemma_nonspace_run(s);
}

/// Splits into white-space-separated words, as `str::split_whitespace` does.
pub fn split_words(v: &Vec<char>) -> (r: Vec<Vec<char>>)
    ensures
        r.deep_view() == words_of(v@),
{
    let mut r: Vec<Vec<char>> = Vec::new();
    let mut i: usize = 0;
    proof {
        assert(v@.subrange(0, v@.len() as int) =~= v@);
        assert(r.deep_view() + words_of(v@) =~~= words_of(v@));
    }
    while i < v.len()
        invariant
            i <= v@.len(),
            words_of(v@) == r.deep_view() + words_of(v@.subrange(i as int, v@.len() as int)),
        decreases v@.len() - i,
    {
        let ghost tail = v@.subrange(i as int, v@.len() as int);
        if is_space(v[i]) {
            proof {
                assert(tail.subrange(1, tail.len() as int) =~= v@.subrange(
                    i + 1,
                    v@.len() as int,
                ));
            }
            i = i + 1;
        } else {
            let start = i;
            let ghost k = nonspace_run(tail);
            proof {
                lemma_nonspace_run(tail);
                assert(forall|j: int| 0 <= j < k ==> !is_space_char(#[trigger] tail[j]));
            }
            let mut w: Vec<char> = Vec::new();
            while i < v.len() && !is_space(v[i])
                invariant
                    start <= i <= v@.len(),
                    start + k <= v@.len(),
                    tail == v@.subrange(start as int, v@.len() as int),
                    i <= start + k,
                    forall|j: int| 0 <= j < k ==> !is_space_char(#[trigger] tail[j]),
                    start + k < v@.len() ==> is_space_char(v@[start + k]),
                    w@ == v@.subrange(start as int, i as int),
                decreases v@.len() - i,
            {
                proof {
                    if i - start < k {
                        assert(tail[i - start] == v@[i as int]);
                    } else {
                        assert(is_space_char(v@[i as int]));
                    }
                }
                w.push(v[i]);
                i = i + 1;
                proof {
                    assert(w@ =~= v@.subrange(start as int, i as int));
                }
            }
            proof {
                if i < v.len() {
                    assert(i - start == k) by {
                        if i - start < k {
                            assert(tail[i - start] == v@[i as int]);
                        }
                    }
                } else {
                    assert(i == v@.len());
                    assert(i - start == k) by {
                        if i - start < k {
                            assert(start + k <= v@.len());
                        }
                    }
                }
                assert(w@ =~= tail.subrange(0, k as int));
            }
            let ghost prev = r.deep_view();
            r.push(w);
            proof {
                assert(r.deep_view() =~~= prev + seq![w@]);
                assert(tail.subrange(k as int, tail.len() as int) =~= v@.subrange(
                    i as int,
                    v@.len() as int,
                ));
                assert(words_of(tail) == seq![w@] + words_of(
                    v@.subrange(i as int, v@.len() as int),
                ));
                assert(words_of(v@) =~~= r.deep_view() + words_of(
                    v@.subrange(i as int, v@.len() as int),
                ));
            }
        }
    }
    proof {
        assert(v@.subrange(v@.len() as int, v@.len() as int) =~= Seq::<char>::empty());
        assert(words_of(v@) =~~= r.deep_view());
    }
    r
}

/// Number of white-space-separated words; the basis of token estimates.
pub fn count_words(v: &Vec<char>) -> (r: usize)
    ensures
        r == words_of(v@).len(),
{
    let words = split_words(v);
    proof {
        assert(words.deep_view().len() == words@.len());
    }
    words.len()
}

/// Length of the leading run of white-space characters.
pub open spec fn leading_ws(s: Seq<char>) -> nat
    decreases s.len(),
{
    if s.len() == 0 || !is_space_char(s[0]) {
        0
    } else {
        1 + leading_ws(s.subrange(1, s.len() as int))
    }
}

/// Length of the trailing run of white-space characters.
pub open spec fn trailing_ws(s: Seq<char>) -> nat
    decreases s.len(),
{
    if s.len() == 0 || !is_space_char(s[s.len() - 1]) {
        0
    } else {
        1 + trailing_ws(s.subrange(0, s.len() - 1))
    }
}

/// `s` with white space removed from both ends, as `str::trim` returns it.
pub open spec fn trim_spec(s: Seq<char>) -> Seq<char> {
    if leading_ws(s) == s.len() {
        Seq::empty()
    } else {
        s.subrange(leading_ws(s) as int, s.len() - trailing_ws(s))
    }
}

pub proof fn lemma_leading_ws(s: Seq<char>)
    ensures
        leading_ws(s) <= s.len(),
        forall|j: int| 0 <= j < leading_ws(s) ==> is_space_char(#[trigger] s[j]),
        leading_ws(s) < s.len() ==> !is_space_char(s[leading_ws(s) as int]),
    decreases s.len(),
{
    if s.len() > 0 && is_space_char(s[0]) {
        let t = s.subrange(1, s.len() as int);
        lemma_leading_ws(t);
        assert forall|j: int| 0 <= j < leading_ws(s) implies is_space_char(#[trigger] s[j]) by {
            if j >= 1 {
                assert(s[j] == t[j - 1]);
            }
        }
        if leading_ws(s) < s.len() {
            assert(s[leading_ws(s) as int] == t[leading_ws(t) as int]);
        }
    }
}

pub proof fn lemma_trailing_ws(s: Seq<char>)
    ensures
        trailing_ws(s) <= s.len(),
        forall|j: int| s.len() - trailing_ws(s) <= j < s.len() ==> is_space_char(#[trigger] s[j]),
        trailing_ws(s) < s.len() ==> !is_space_char(s[s.len() - trailing_ws(s) - 1]),
    decreases s.len(),
{
    if s.len() > 0 && is_space_char(s[s.len() - 1]) {
        let t = s.subrange(0, s.len() - 1);
        lemma_trailing_ws(t);
        assert forall|j: int| s.len() - trailing_ws(s) <= j < s.len() implies is_space_char(
            #[trigger] s[j],
        ) by {
            if j < s.len() - 1 {
                assert(s[j] == t[j]);
            }
        }
    }
}

/// When the string is not all white space, the two runs do not overlap.
pub proof fn lemma_trim_bounds(s: Seq<char>)
    requires
        leading_ws(s) < s.len(),
    ensures
        leading_ws(s) + trailing_ws(s) < s.len(),
{
    lemma_leading_ws(s);
    lemma_trailing_ws(s);
    if leading_ws(s) + trailing_ws(s) >= s.len() {
        assert(is_space_char(s[leading_ws(s) as int]));
    }
}

/// Removes white space from both ends, as `str::trim` does.
pub fn trim(v: &Vec<char>) -> (r: Vec<char>)
    ensures
        r@ == trim_spec(v@),
{
    proof {
        lemma_leading_ws(v@);
        lemma_trailing_ws(v@);
    }
    let mut a: usize = 0;
    while a < v.len() && is_space(v[a])
        invariant
            a <= v@.len(),
            a <= leading_ws(v@),
            forall|j: int| 0 <= j < a ==> is_space_char(#[trigger] v@[j]),
            leading_ws(v@) <= v@.len(),
            leading_ws(v@) < v@.len() ==> !is_space_char(v@[leading_ws(v@) as int]),
        decreases v@.len() - a,
    {
        a = a + 1;
    }
    proof {
        lemma_leading_ws(v@);
        assert(a == leading_ws(v@));
    }
    if a == v.len() {
        let r: Vec<char> = Vec::new();
        proof {
            assert(r@ =~= trim_spec(v@));
        }
        return r;
    }
    proof {
        lemma_trim_bounds(v@);
    }
    let mut b: usize = v.len();
    while b > a && is_space(v[b - 1])
        invariant
            a < b <= v@.len() || b == a,
            a <= b,
            v@.len() - b <= trailing_ws(v@),
            forall|j: int| b <= j < v@.len() ==> is_space_char(#[trigger] v@[j]),
            trailing_ws(v@) < v@.len() ==> !is_space_char(v@[v@.len() - trailing_ws(v@) - 1]),
            a + trailing_ws(v@) < v@.len(),
        decreases b,
    {
        b = b - 1;
    }
    proof {
        assert(b == v@.len() - trailing_ws(v@));
    }
    let mut r: Vec<char> = Vec::new();
    let mut i: usize = a;
    while i < b
        invariant
            a <= i <= b <= v@.len(),
            r@ == v@.subrange(a as int, i as int),
        decreases b - i,
    {
        r.push(v[i]);
        i = i + 1;
        proof {
            assert(r@ =~= v@.subrange(a as int, i as int));
        }
    }
    proof {
        assert(r@ =~= trim_spec(v@));
    }
    r
}

/// Copies the range `[a, b)` out of `v`.
pub fn slice_range(v: &Vec<char>, a: usize, b: usize) -> (r: Vec<char>)
    requires
        a <= b <= v@.len(),
    ensures
        r@ == v@.subrange(a as int, b as int),
{
    let mut r: Vec<char> = Vec::new();
    let mut i: usize = a;
    while i < b
        invariant
            a <= i <= b <= v@.len(),
            r@ == v@.subrange(a as int, i as int),
        decreases b - i,
    {
        r.push(v[i]);
        i = i + 1;
        proof {
            assert(r@ =~= v@.subrange(a as int, i as int));
        }
    }
    r
}

/// Appends all of `src` to `dst`.
pub fn append_chars(dst: &mut Vec<char>, src: &Vec<char>)
    ensures
        final(dst)@ == old(dst)@ + src@,
{
    let mut i: usize = 0;
    while i < src.len()
        invariant
            i <= src@.len(),
            dst@ == old(dst)@ + src@.subrange(0, i as int),
        decreases src@.len() - i,
    {
        dst.push(src[i]);
        i = i + 1;
        proof {
            assert(dst@ =~= old(dst)@ + src@.subrange(0, i as int));
        }
    }
    proof {
        assert(dst@ =~= old(dst)@ + src@);
    }
}

/// Whether `needle` occurs in `hay` starting at `i`.
pub open spec fn matches_at(hay: Seq<char>, needle: Seq<char>, i: int) -> bool {
    0 <= i && i + needle.len() <= hay.len() && hay.subrange(i, i + needle.len()) == needle
}

pub open spec fn contains_seq(hay: Seq<char>, needle: Seq<char>) -> bool {
    exists|i: int| matches_at(hay, needle, i)
}

pub open spec fn starts_with_spec(hay: Seq<char>, needle: Seq<char>) -> bool {
    matches_at(hay, needle, 0)
}

pub open spec fn ends_with_spec(hay: Seq<char>, needle: Seq<char>) -> bool {
    matches_at(hay, needle, hay.len() - needle.len())
}

/// Whether `needle` occurs in `hay` at exactly position `i`.
pub fn check_match_at(hay: &Vec<char>, needle: &Vec<char>, i: usize) -> (r: bool)
    requires
        i + needle@.len() <= hay@.len(),
    ensures
        r == matches_at(hay@, needle@, i as int),
{
    let hn = hay.len();
    let mut j: usize = 0;
    while j < needle.len()
        invariant
            hn == hay@.len(),
            i + needle@.len() <= hay@.len(),
            j <= needle@.len(),
            forall|t: int| 0 <= t < j ==> hay@[i + t] == needle@[t],
        decreases needle@.len() - j,
    {
        if hay[i + j] != needle[j] {
            proof {
                assert(hay@.subrange(i as int, i + needle@.len())[j as int] != needle@[j as int]);
            }
            return false;
        }
        j = j + 1;
    }
    proof {
        assert(hay@.subrange(i as int, i + needle@.len()) =~= needle@);
    }
    true
}

pub fn starts_with(hay: &Vec<char>, needle: &Vec<char>) -> (r: bool)
    ensures
        r == starts_with_spec(hay@, needle@),
{
    if needle.len() > hay.len() {
        return false;
    }
    check_match_at(hay, needle, 0)
}

pub fn ends_with(hay: &Vec<char>, needle: &Vec<char>) -> (r: bool)
    ensures
        r == ends_with_spec(hay@, needle@),
{
    if needle.len() > hay.len() {
        return false;
    }
    check_match_at(hay, needle, hay.len() - needle.len())
}

/// Position of the first occurrence of `needle` in `hay`, if any.
pub fn find_sub(hay: &Vec<char>, needle: &Vec<char>) -> (r: Option<usize>)
    ensures
        match r {
            Some(i) => matches_at(hay@, needle@, i as int) && forall|j: int|
                0 <= j < i ==> !matches_at(hay@, needle@, j),
            None => !contains_seq(hay@, needle@),
        },
{
    if needle.len() > hay.len() {
        proof {
            assert(forall|i: int| !matches_at(hay@, needle@, i));
        }
        return None;
    }
    if needle.len() == 0 {
        proof {
            assert(hay@.subrange(0, 0) =~= needle@);
        }
        return Some(0);
    }
    let hn = hay.len();
    let last = hay.len() - needle.len();
    let mut i: usize = 0;
    while i <= last
        invariant
            hn == hay@.len(),
            0 < needle@.len() <= hay@.len(),
            last == hay@.len() - needle@.len(),
            i <= last + 1,
            forall|j: int| 0 <= j < i ==> !matches_at(hay@, needle@, j),
        decreases last + 1 - i,
    {
        if check_match_at(hay, needle, i) {
            return Some(i);
        }
        i = i + 1;
    }
    proof {
        assert(forall|j: int| j > last ==> !matches_at(hay@, needle@, j));
    }
    None
}

pub fn contains_sub(hay: &Vec<char>, needle: &Vec<char>) -> (r: bool)
    ensures
        r == contains_seq(hay@, needle@),
{
    match find_sub(hay, needle) {
        Some(_) => true,
        None => false,
    }
}

/// Position of the first occurrence of character `c` at or after `from`.
pub fn find_char_from(v: &Vec<char>, from: usize, c: char) -> (r: Option<usize>)
    requires
        from <= v@.len(),
    ensures
        match r {
            Some(i) => from <= i < v@.len() && v@[i as int] == c && forall|j: int|
                from <= j < i ==> v@[j] != c,
            None => forall|j: int| from <= j < v@.len() ==> v@[j] != c,
        },
{
    let mut i: usize = from;
    while i < v.len()
        invariant
            from <= i <= v@.len(),
            forall|j: int| from <= j < i ==> v@[j] != c,
        decreases v@.len() - i,
    {
        if v[i] == c {
            return Some(i);
        }
        i = i + 1;
    }
    None
}

/// The signed decimal rendering: a minus sign ahead of the magnitude.
pub open spec fn int_digits(n: int) -> Seq<char> {
    if n < 0 {
        seq!['-'] + dec_digits((-n) as nat)
    } else {
        dec_digits(n as nat)
    }
}

/// Renders a signed number in decimal.
pub fn i64_to_chars(n: i64) -> (r: Vec<char>)
    ensures
        r@ == int_digits(n as int),
{
    if n >= 0 {
        u64_to_chars(n as u64)
    } else {
        let m: u64 = if n == -0x8000_0000_0000_0000_i64 {
            0x8000_0000_0000_0000_u64
        } else {
            (-n) as u64
        };
        let mut r: Vec<char> = Vec::new();
        r.push('-');
        crate::text::append_chars(&mut r, &u64_to_chars(m));
        proof {
            assert(r@ =~= int_digits(n as int));
        }
        r
    }
}

/// The decimal digit characters of `n`, most significant first.
pub open spec fn dec_digits(n: nat) -> Seq<char>
    decreases n,
{
    if n < 10 {
        seq![crate::hashing::hex_digit(n as u8)]
    } else {
        dec_digits(n / 10).push(crate::hashing::hex_digit((n % 10) as u8))
    }
}

/// Renders `n` in decimal.
pub fn u64_to_chars(n: u64) -> (r: Vec<char>)
    ensures
        r@ == dec_digits(n as nat),
    decreases n,
{
    if n < 10 {
        let mut r: Vec<char> = Vec::new();
        let d: u8 = (n % 10) as u8;
        r.push(digit_char(d));
        proof {
            assert(r@ =~= dec_digits(n as nat));
        }
        r
    } else {
        let mut r = u64_to_chars(n / 10);
        r.push(digit_char((n % 10) as u8));
        r
    }
}

fn digit_char(d: u8) -> (r: char)
    requires
        d < 10,
    ensures
        r == crate::hashing::hex_digit(d),
{
    if d == 0 {
        '0'
    } else if d == 1 {
        '1'
    } else if d == 2 {
        '2'
    } else if d == 3 {
        '3'
    } else if d == 4 {
        '4'
    } else if d == 5 {
        '5'
    } else if d == 6 {
        '6'
    } else if d == 7 {
        '7'
    } else if d == 8 {
        '8'
    } else {
        '9'
    }
}

pub open spec fn is_dec_digit(c: char) -> bool {
    '0' <= c && c <= '9'
}

pub open spec fn digit_val(c: char) -> nat {
    ((c as u32) - ('0' as u32)) as nat
}

/// The value of a digit string read left to right.
pub open spec fn dec_val(s: Seq<char>) -> nat
    decreases s.len(),
{
    if s.len() == 0 {
        0
    } else {
        dec_val(s.subrange(0, s.len() - 1)) * 10 + digit_val(s[s.len() - 1])
    }
}

/// Parses a non-empty all-digit string as a `u64`; `None` on empty input, a
/// non-digit, or overflow — the cases where `str::parse::<u64>` errors.
pub fn parse_u64(v: &Vec<char>) -> (r: Option<u64>)
    ensures
        match r {
            Some(x) => v@.len() > 0 && (forall|j: int|
                0 <= j < v@.len() ==> is_dec_digit(#[trigger] v@[j])) && x == dec_val(v@),
            None => v@.len() == 0 || (exists|j: int|
                0 <= j < v@.len() && !is_dec_digit(#[trigger] v@[j])) || dec_val(v@)
                > u64::MAX,
        },
{
    if v.len() == 0 {
        return None;
    }
    let mut acc: u64 = 0;
    let mut i: usize = 0;
    while i < v.len()
        invariant
            i <= v@.len(),
            forall|j: int| 0 <= j < i ==> is_dec_digit(#[trigger] v@[j]),
            acc == dec_val(v@.subrange(0, i as int)),
        decreases v@.len() - i,
    {
        let c = v[i];
        if !('0' <= c && c <= '9') {
            return None;
        }
        let d: u64 = ((c as u32) - ('0' as u32)) as u64;
        if acc > (u64::MAX - d) / 10 {
            proof {
                assert(v@.subrange(0, i + 1).subrange(0, i as int) =~= v@.subrange(0, i as int));
                assert(dec_val(v@.subrange(0, i + 1)) == acc * 10 + d);
                assert(acc * 10 + d > u64::MAX) by (nonlinear_arith)
                    requires
                        acc > (u64::MAX - d) / 10,
                        d <= 9,
                ;
                lemma_dec_val_monotone(v@, i + 1);
            }
            return None;
        }
        acc = acc * 10 + d;
        i = i + 1;
        proof {
            assert(v@.subrange(0, i as int).subrange(0, i - 1) =~= v@.subrange(0, i - 1));
            assert(dec_val(v@.subrange(0, i as int)) == dec_val(v@.subrange(0, i - 1)) * 10
                + digit_val(v@[i - 1]));
        }
    }
    proof {
        assert(v@.subrange(0, v@.len() as int) =~= v@);
    }
    Some(acc)
}

/// Length of the leading run of characters other than `'\n'`.
pub open spec fn line_run(s: Seq<char>) -> nat
    decreases s.len(),
{
    if s.len() == 0 || s[0] == '\n' {
        0
    } else {
        1 + line_run(s.subrange(1, s.len() as int))
    }
}

pub proof fn lemma_line_run(s: Seq<char>)
    ensures
        line_run(s) <= s.len(),
        forall|j: int| 0 <= j < line_run(s) ==> #[trigger] s[j] != '\n',
        line_run(s) < s.len() ==> s[line_run(s) as int] == '\n',
    decreases s.len(),
{
    if s.len() > 0 && s[0] != '\n' {
        let t = s.subrange(1, s.len() as int);
        lemma_line_run(t);
        assert forall|j: int| 0 <= j < line_run(s) implies #[trigger] s[j] != '\n' by {
            if j >= 1 {
                assert(s[j] == t[j - 1]);
            }
        }
        if line_run(s) < s.len() {
            assert(s[line_run(s) as int] == t[line_run(t) as int]);
        }
    }
}

/// A line with one trailing `'\r'` removed, as `str::lines` yields it.
pub open spec fn strip_cr(line: Seq<char>) -> Seq<char> {
    if line.len() > 0 && line[line.len() - 1] == '\r' {
        line.subrange(0, line.len() - 1)
    } else {
        line
    }
}

/// The lines of `s`, split at `'\n'` with a final empty piece dropped and one
/// trailing `'\r'` stripped from each line: what `str::lines` yields.
pub open spec fn lines_of(s: Seq<char>) -> Seq<Seq<char>>
    decreases s.len(),
    via lines_of_decreases
{
    if s.len() == 0 {
        Seq::empty()
    } else {
        let k = line_run(s);
        if k == s.len() {
            seq![strip_cr(s)]
        } else {
            seq![strip_cr(s.subrange(0, k as int))] + lines_of(
                s.subrange(k as int + 1, s.len() as int),
            )
        }
    }
}

#[via_fn]
proof fn lines_of_decreases(s: Seq<char>) {
    lemma_line_run(s);
}

/// Splits into lines, as `str::lines` does.
pub fn split_lines(v: &Vec<char>) -> (r: Vec<Vec<char>>)
    ensures
        r.deep_view() == lines_of(v@),
{
    let mut r: Vec<Vec<char>> = Vec::new();
    let mut i: usize = 0;
    proof {
        assert(v@.subrange(0, v@.len() as int) =~= v@);
        assert(r.deep_view() + lines_of(v@) =~~= lines_of(v@));
    }
    while i < v.len()
        invariant
            i <= v@.len(),
            i < v@.len() || i == 0 || v@[i - 1] == '\n' || i == v@.len(),
            lines_of(v@) == r.deep_view() + lines_of(v@.subrange(i as int, v@.len() as int)),
        decreases v@.len() - i,
    {
        let ghost tail = v@.subrange(i as int, v@.len() as int);
        let ghost k = line_run(tail);
        proof {
            lemma_line_run(tail);
        }
        let start = i;
        let mut line: Vec<char> = Vec::new();
        while i < v.len() && v[i] != '\n'
            invariant
                start <= i <= v@.len(),
                start + k <= v@.len(),
                tail == v@.subrange(start as int, v@.len() as int),
                i <= start + k,
                forall|j: int| 0 <= j < k ==> #[trigger] tail[j] != '\n',
                start + k < v@.len() ==> v@[start + k] == '\n',
                line@ == v@.subrange(start as int, i as int),
            decreases v@.len() - i,
        {
            proof {
                if i - start < k {
                    assert(tail[i - start] == v@[i as int]);
                } else {
                    assert(v@[i as int] == '\n');
                }
            }
            line.push(v[i]);
            i = i + 1;
            proof {
                assert(line@ =~= v@.subrange(start as int, i as int));
            }
        }
        proof {
            if i < v.len() {
                assert(i - start == k) by {
                    if i - start < k {
                        assert(tail[i - start] == v@[i as int]);
                    }
                }
            } else {
                assert(i - start == k);
            }
            assert(line@ =~= tail.subrange(0, k as int));
        }
        // Strip one trailing carriage return.
        if line.len() > 0 {
            let lastc = line[line.len() - 1];
            if lastc == '\r' {
                let ghost before = line@;
                line.pop();
                proof {
                    assert(line@ =~= strip_cr(before));
                }
            }
        }
        let ghost prev = r.deep_view();
        r.push(line);
        proof {
            assert(r.deep_view() =~~= prev + seq![line@]);
        }
        if i < v.len() {
            i = i + 1;
            proof {
                assert(tail.subrange(k as int + 1, tail.len() as int) =~= v@.subrange(
                    i as int,
                    v@.len() as int,
                ));
                assert(lines_of(tail) == seq![strip_cr(tail.subrange(0, k as int))] + lines_of(
                    v@.subrange(i as int, v@.len() as int),
                ));
                assert(lines_of(v@) =~~= r.deep_view() + lines_of(
                    v@.subrange(i as int, v@.len() as int),
                ));
            }
        } else {
            proof {
                assert(k == tail.len());
                assert(lines_of(tail) == seq![strip_cr(tail)]);
                assert(strip_cr(tail) == strip_cr(tail.subrange(0, k as int))) by {
                    assert(tail.subrange(0, k as int) =~= tail);
                }
                assert(v@.subrange(i as int, v@.len() as int).len() == 0);
                assert(v@.subrange(i as int, v@.len() as int) =~= Seq::<char>::empty());
                assert(lines_of(v@) =~~= r.deep_view() + lines_of(
                    v@.subrange(i as int, v@.len() as int),
                ));
            }
        }
    }
    proof {
        assert(v@.subrange(v@.len() as int, v@.len() as int) =~= Seq::<char>::empty());
        assert(lines_of(v@) =~~= r.deep_view());
    }
    r
}

/// The lines `[from, to)` joined with `'\n'` between them.
pub open spec fn join_lines(lines: Seq<Seq<char>>, from: int, to: int) -> Seq<char>
    decreases to - from,
{
    if from < 0 || from >= to || to > lines.len() {
        Seq::empty()
    } else if from == to - 1 {
        lines[from]
    } else {
        lines[from] + seq!['\n'] + join_lines(lines, from + 1, to)
    }
}

/// Joins the line range `[from, to)` with `'\n'` separators.
pub fn join_range(lines: &Vec<Vec<char>>, from: usize, to: usize) -> (r: Vec<char>)
    requires
        from <= to <= lines@.len(),
    ensures
        r@ == join_lines(lines.deep_view(), from as int, to as int),
    decreases to - from,
{
    let mut r: Vec<char> = Vec::new();
    if from >= to {
        proof {
            assert(r@ =~= join_lines(lines.deep_view(), from as int, to as int));
        }
        return r;
    }
    append_chars(&mut r, &lines[from]);
    proof {
        assert(lines.deep_view()[from as int] == lines@[from as int]@);
    }
    if from + 1 == to {
        proof {
            assert(r@ =~= join_lines(lines.deep_view(), from as int, to as int));
        }
        return r;
    }
    r.push('\n');
    let rest = join_range(lines, from + 1, to);
    append_chars(&mut r, &rest);
    proof {
        assert(r@ =~= join_lines(lines.deep_view(), from as int, to as int));
    }
    r
}

/// Index of the first occurrence of `c` in `s`, or -1.
pub open spec fn first_char_index(s: Seq<char>, c: char) -> int
    decreases s.len(),
{
    if s.len() == 0 {
        -1
    } else if s[0] == c {
        0
    } else {
        let rest = first_char_index(s.subrange(1, s.len() as int), c);
        if rest == -1 {
            -1
        } else {
            rest + 1
        }
    }
}

pub proof fn lemma_first_char_index(s: Seq<char>, c: char)
    ensures
        first_char_index(s, c) == -1 ==> forall|j: int| 0 <= j < s.len() ==> s[j] != c,
        first_char_index(s, c) != -1 ==> {
            let i = first_char_index(s, c);
            0 <= i < s.len() && s[i] == c && forall|j: int| 0 <= j < i ==> s[j] != c
        },
    decreases s.len(),
{
    if s.len() > 0 && s[0] != c {
        let t = s.subrange(1, s.len() as int);
        lemma_first_char_index(t, c);
        assert forall|j: int| 1 <= j < s.len() implies s[j] == t[j - 1] by {}
    }
}

/// `s` up to (not including) the first occurrence of `c`; all of `s` when
/// `c` does not occur. The slice that `split(c).next()` yields.
pub open spec fn before_char(s: Seq<char>, c: char) -> Seq<char> {
    if first_char_index(s, c) == -1 {
        s
    } else {
        s.subrange(0, first_char_index(s, c))
    }
}

pub fn take_before_char(v: &Vec<char>, c: char) -> (r: Vec<char>)
    ensures
        r@ == before_char(v@, c),
{
    proof {
        lemma_first_char_index(v@, c);
    }
    match find_char_from(v, 0, c) {
        Some(i) => {
            proof {
                assert(first_char_index(v@, c) == i) by {
                    lemma_first_char_index(v@, c);
                    if first_char_index(v@, c) == -1 {
                        assert(v@[i as int] != c);
                    } else {
                        let f = first_char_index(v@, c);
                        if f < i {
                            assert(v@[f] != c);
                        }
                        if i < f {
                            assert(v@[i as int] != c);
                        }
                    }
                }
            }
            slice_range(v, 0, i)
        },
        None => {
            proof {
                if first_char_index(v@, c) != -1 {
                    assert(v@[first_char_index(v@, c)] == c);
                }
                assert(v@.subrange(0, v@.len() as int) =~= v@);
            }
            slice_range(v, 0, v.len())
        },
    }
}

/// Index of the first occurrence of `pat` in `s`, or -1.
pub open spec fn first_sub_index(s: Seq<char>, pat: Seq<char>) -> int
    decreases s.len(),
{
    if pat.len() == 0 {
        0
    } else if s.len() < pat.len() {
        -1
    } else if matches_at(s, pat, 0) {
        0
    } else {
        let rest = first_sub_index(s.subrange(1, s.len() as int), pat);
        if rest == -1 {
            -1
        } else {
            rest + 1
        }
    }
}

pub proof fn lemma_first_sub_index(s: Seq<char>, pat: Seq<char>)
    ensures
        first_sub_index(s, pat) == -1 ==> !contains_seq(s, pat),
        first_sub_index(s, pat) != -1 ==> {
            let i = first_sub_index(s, pat);
            matches_at(s, pat, i) && forall|j: int| 0 <= j < i ==> !matches_at(s, pat, j)
        },
    decreases s.len(),
{
    if pat.len() == 0 {
        assert(s.subrange(0, 0) =~= pat);
        assert(matches_at(s, pat, 0));
    } else if s.len() < pat.len() {
        assert forall|i: int| true implies !matches_at(s, pat, i) by {}
    } else if !matches_at(s, pat, 0) {
        let t = s.subrange(1, s.len() as int);
        lemma_first_sub_index(t, pat);
        assert forall|j: int| 0 <= j < t.len() implies (matches_at(t, pat, j) == matches_at(
            s,
            pat,
            j + 1,
        )) by {
            if j + pat.len() <= t.len() {
                assert(t.subrange(j, j + pat.len() as int) =~= s.subrange(
                    j + 1,
                    j + 1 + pat.len() as int,
                ));
            }
        }
        if first_sub_index(t, pat) == -1 {
            assert(first_sub_index(s, pat) == -1);
            assert forall|i: int| true implies !matches_at(s, pat, i) by {
                if 1 <= i < s.len() {
                    assert(!matches_at(t, pat, i - 1));
                }
            }
        } else {
            let k = first_sub_index(t, pat);
            assert(first_sub_index(s, pat) == k + 1);
            assert(matches_at(t, pat, k));
            assert(matches_at(s, pat, k + 1));
            assert forall|j: int| 0 <= j < k + 1 implies !matches_at(s, pat, j) by {
                if j >= 1 {
                    assert(!matches_at(t, pat, j - 1));
                }
            }
        }
    }
}

/// What follows the first occurrence of `pat` in `s`, if any: the slice that
/// `split(pat).nth(1)` begins with.
pub open spec fn after_first(s: Seq<char>, pat: Seq<char>) -> Option<Seq<char>> {
    if first_sub_index(s, pat) == -1 {
        None
    } else {
        Some(s.subrange(first_sub_index(s, pat) + pat.len(), s.len() as int))
    }
}

pub fn take_after_first(v: &Vec<char>, pat: &Vec<char>) -> (r: Option<Vec<char>>)
    ensures
        match r {
            Some(x) => after_first(v@, pat@) == Some(x@),
            None => after_first(v@, pat@) is None,
        },
{
    proof {
        lemma_first_sub_index(v@, pat@);
    }
    match find_sub(v, pat) {
        Some(i) => {
            proof {
                assert(first_sub_index(v@, pat@) == i) by {
                    lemma_first_sub_index(v@, pat@);
                    if first_sub_index(v@, pat@) == -1 {
                        assert(contains_seq(v@, pat@));
                    } else {
                        let f = first_sub_index(v@, pat@);
                        if f < i {
                            assert(!matches_at(v@, pat@, f));
                        }
                        if i < f {
                            assert(!matches_at(v@, pat@, i as int));
                        }
                    }
                }
            }
            {
                let n = v.len();
                Some(slice_range(v, i + pat.len(), n))
            }
        },
        None => {
            proof {
                if first_sub_index(v@, pat@) != -1 {
                    assert(matches_at(v@, pat@, first_sub_index(v@, pat@)));
                }
            }
            None
        },
    }
}

/// Index just past the last occurrence of `pat`, or -1 when `pat` does not
/// occur: where `split(pat).last()` begins.
pub open spec fn last_sub_end(s: Seq<char>, pat: Seq<char>) -> int {
    if contains_seq(s, pat) {
        (choose|i: int|
            matches_at(s, pat, i) && forall|j: int| j > i ==> !matches_at(s, pat, j)) + pat.len()
    } else {
        -1
    }
}

/// What follows the last occurrence of `pat` in `s`; all of `s` when `pat`
/// does not occur. The slice that `split(pat).last()` yields.
pub open spec fn after_last(s: Seq<char>, pat: Seq<char>) -> Seq<char> {
    if contains_seq(s, pat) {
        s.subrange(last_sub_end(s, pat), s.len() as int)
    } else {
        s
    }
}

/// Finds the start of `split(pat).last()`: scans for the last match.
pub fn take_after_last(v: &Vec<char>, pat: &Vec<char>) -> (r: Vec<char>)
    requires
        pat@.len() > 0,
    ensures
        r@ == after_last(v@, pat@),
{
    let mut best: Option<usize> = None;
    let mut i: usize = 0;
    if pat.len() > v.len() {
        proof {
            assert(forall|t: int| !matches_at(v@, pat@, t));
            assert(v@.subrange(0, v@.len() as int) =~= v@);
        }
        return slice_range(v, 0, v.len());
    }
    let last = v.len() - pat.len();
    let hn = v.len();
    while i <= last
        invariant
            hn == v@.len(),
            0 < pat@.len() <= v@.len(),
            last == v@.len() - pat@.len(),
            i <= last + 1,
            match best {
                Some(b) => matches_at(v@, pat@, b as int) && forall|j: int|
                    b < j < i ==> !matches_at(v@, pat@, j),
                None => forall|j: int| 0 <= j < i ==> !matches_at(v@, pat@, j),
            },
        decreases last + 1 - i,
    {
        if check_match_at(v, pat, i) {
            best = Some(i);
        }
        i = i + 1;
    }
    proof {
        assert(forall|j: int| j > last ==> !matches_at(v@, pat@, j));
    }
    match best {
        Some(b) => {
            proof {
                assert(matches_at(v@, pat@, b as int) && forall|j: int|
                    j > b ==> !matches_at(v@, pat@, j));
                let w = choose|t: int|
                    matches_at(v@, pat@, t) && forall|j: int| j > t ==> !matches_at(v@, pat@, j);
                assert(!(w < b) && !(w > b));
                assert(last_sub_end(v@, pat@) == b + pat@.len());
            }
            slice_range(v, b + pat.len(), v.len())
        },
        None => {
            proof {
                assert(!contains_seq(v@, pat@));
                assert(v@.subrange(0, v@.len() as int) =~= v@);
            }
            slice_range(v, 0, v.len())
        },
    }
}

/// The value of a digit string is at least the value of any of its prefixes
/// scaled into place; in particular a prefix that already overflows makes the
/// whole string overflow.
pub proof fn lemma_dec_val_monotone(s: Seq<char>, k: int)
    requires
        0 <= k <= s.len(),
    ensures
        dec_val(s) >= dec_val(s.subrange(0, k)),
    decreases s.len() - k,
{
    if k < s.len() {
        lemma_dec_val_monotone(s, k + 1);
        let p = s.subrange(0, k + 1);
        assert(p.subrange(0, p.len() - 1) =~= s.subrange(0, k));
        assert(dec_val(p) == dec_val(s.subrange(0, k)) * 10 + digit_val(p[p.len() - 1]));
    } else {
        assert(s.subrange(0, s.len() as int) =~= s);
    }
}

} // verus!
