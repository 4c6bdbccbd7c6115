//! Character and string helpers shared by the parser, the shell
//! resolver and the filter engine: ASCII case folding, substring
//! containment, trimming and digit parsing, each stated over `Seq<char>`.

use vstd::prelude::*;

verus! {

/// ASCII whitespace: space, tab, line feed, form feed, carriage return.
pub open spec fn is_ws(c: char) -> bool {
    c == ' ' || c == '\t' || c == '\n' || c == '\r' || c == '\u{c}'
}

/// ASCII decimal digit.
pub open spec fn is_digit(c: char) -> bool {
    '0' <= c && c <= '9'
}

/// ASCII lower-casing of a single character; other characters are kept.
pub open spec fn lower_char(c: char) -> char {
    if 'A' <= c && c <= 'Z' {
        (((c as u32) + 32) as char)
    } else {
        c
    }
}

/// ASCII lower-casing of a character sequence.
pub open spec fn lower_seq(s: Seq<char>) -> Seq<char> {
    Seq::new(s.len(), |i: int| lower_char(s[i]))
}

/// The pattern `p` occurs in `t` starting at index `i`.
pub open spec fn matches_at(t: Seq<char>, p: Seq<char>, i: int) -> bool {
    0 <= i && i + p.len() <= t.len() && t.subrange(i, i + p.len() as int) == p
}

/// The pattern `p` occurs somewhere in `t`.
pub open spec fn contains_seq(t: Seq<char>, p: Seq<char>) -> bool {
    exists|i: int| matches_at(t, p, i)
}

/// The pattern `p` is a suffix of `t`.
pub open spec fn seq_ends_with(t: Seq<char>, p: Seq<char>) -> bool {
    matches_at(t, p, t.len() - p.len())
}

/// ASCII lower-casing of one character.
pub fn lower_char_x(c: char) -> (r: char)
    ensures
        r == lower_char(c),
{
    let u: u32 = c as u32;
    if 65 <= u && u <= 90 {
        ((u + 32) as u8) as char
    } else {
        c
    }
}

/// Whether `p` occurs in `t` at position `i`, comparing characters exactly.
fn match_at(t: &str, p: &str, i: usize, tl: usize, pl: usize) -> (r: bool)
    requires
        tl == t@.len(),
        pl == p@.len(),
        i + pl <= tl,
    ensures
        r == matches_at(t@, p@, i as int),
{
    let mut j: usize = 0;
    while j < pl
        invariant
            tl == t@.len(),
            pl == p@.len(),
            i + pl <= tl,
            j <= pl,
            forall|k: int| 0 <= k < j ==> t@[i + k] == p@[k],
        decreases pl - j,
    {
        if t.get_char(i + j) != p.get_char(j) {
            assert(t@.subrange(i as int, i + pl) != p@) by {
                assert(t@.subrange(i as int, i + pl)[j as int] != p@[j as int]);
            }
            return false;
        }
        j += 1;
    }
    assert(t@.subrange(i as int, i + pl) =~= p@);
    true
}

/// Whether `p` occurs in `t` at position `i`, comparing characters after
/// ASCII lower-casing both sides.
fn match_at_ci(t: &str, p: &str, i: usize, tl: usize, pl: usize) -> (r: bool)
    requires
        tl == t@.len(),
        pl == p@.len(),
        i + pl <= tl,
    ensures
        r == matches_at(lower_seq(t@), lower_seq(p@), i as int),
{
    let mut j: usize = 0;
    while j < pl
        invariant
            tl == t@.len(),
            pl == p@.len(),
            i + pl <= tl,
            j <= pl,
            forall|k: int| 0 <= k < j ==> lower_seq(t@)[i + k] == lower_seq(p@)[k],
        decreases pl - j,
    {
        let tc = lower_char_x(t.get_char(i + j));
        let pc = lower_char_x(p.get_char(j));
        if tc != pc {
            assert(lower_seq(t@).subrange(i as int, i + pl) != lower_seq(p@)) by {
                assert(lower_seq(t@).subrange(i as int, i + pl)[j as int] != lower_seq(p@)[j as int]);
            }
            return false;
        }
        j += 1;
    }
    assert(lower_seq(t@).subrange(i as int, i + pl) =~= lower_seq(p@));
    true
}

/// Whether `p` occurs in `t` as a substring, ignoring ASCII case.
pub fn str_contains_ci(t: &str, p: &str) -> (r: bool)
    ensures
        r == contains_seq(lower_seq(t@), lower_seq(p@)),
{
    let tl = t.unicode_len();
    let pl = p.unicode_len();
    if pl > tl {
        assert(forall|i: int| !matches_at(lower_seq(t@), lower_seq(p@), i));
        return false;
    }
    if pl == 0 {
        assert(lower_seq(t@).subrange(0, 0) =~= lower_seq(p@));
        assert(matches_at(lower_seq(t@), lower_seq(p@), 0));
        return true;
    }
    let mut i: usize = 0;
    loop
        invariant
            tl == t@.len(),
            pl == p@.len(),
            1 <= pl <= tl,
            i <= tl - pl + 1,
            forall|k: int| 0 <= k < i ==> !matches_at(lower_seq(t@), lower_seq(p@), k),
        decreases tl - pl + 1 - i,
    {
        if i > tl - pl {
            assert(forall|k: int| !matches_at(lower_seq(t@), lower_seq(p@), k));
            return false;
        }
        if match_at_ci(t, p, i, tl, pl) {
            return true;
        }
        i += 1;
    }
}

/// Whether `p` is a suffix of `t`, ignoring ASCII case.
pub fn str_ends_with_ci(t: &str, p: &str) -> (r: bool)
    ensures
        r == (p@.len() <= t@.len() && matches_at(
            lower_seq(t@),
            lower_seq(p@),
            t@.len() - p@.len(),
        )),
{
    let tl = t.unicode_len();
    let pl = p.unicode_len();
    if pl > tl {
        return false;
    }
    match_at_ci(t, p, tl - pl, tl, pl)
}

/// The first position at which `p` occurs in `t`, if any.
pub fn str_find(t: &str, p: &str) -> (r: Option<usize>)
    ensures
        match r {
            Some(i) => matches_at(t@, p@, i as int) && forall|k: int|
                0 <= k < i ==> !matches_at(t@, p@, k),
            None => !contains_seq(t@, p@),
        },
{
    let tl = t.unicode_len();
    let pl = p.unicode_len();
    if pl > tl {
        assert(forall|i: int| !matches_at(t@, p@, i));
        return None;
    }
    if pl == 0 {
        assert(t@.subrange(0, 0) =~= p@);
        assert(matches_at(t@, p@, 0));
        return Some(0);
    }
    let mut i: usize = 0;
    loop
        invariant
            tl == t@.len(),
            pl == p@.len(),
            1 <= pl <= tl,
            i <= tl - pl + 1,
            forall|k: int| 0 <= k < i ==> !matches_at(t@, p@, k),
        decreases tl - pl + 1 - i,
    {
        if i > tl - pl {
            assert(forall|k: int| !matches_at(t@, p@, k));
            return None;
        }
        if match_at(t, p, i, tl, pl) {
            return Some(i);
        }
        i += 1;
    }
}

/// The first index at or after `i` whose character is not whitespace
/// (or the length of `s`, when all of the rest is whitespace).
pub open spec fn ws_scan_up(s: Seq<char>, i: int) -> int
    decreases s.len() - i,
{
    if i < 0 || i >= s.len() {
        s.len() as int
    } else if is_ws(s[i]) {
        ws_scan_up(s, i + 1)
    } else {
        i
    }
}

/// One past the last index below `i` whose character is not whitespace
/// (or 0, when all of the prefix is whitespace).
pub open spec fn ws_scan_down(s: Seq<char>, i: int) -> int
    decreases i,
{
    if i <= 0 || i > s.len() {
        0
    } else if is_ws(s[i - 1]) {
        ws_scan_down(s, i - 1)
    } else {
        i
    }
}

/// `s` with leading and trailing whitespace removed.
pub open spec fn trim_seq(s: Seq<char>) -> Seq<char> {
    let a = ws_scan_up(s, 0);
    let b = ws_scan_down(s, s.len() as int);
    if a <= b {
        s.subrange(a, b)
    } else {
        Seq::empty()
    }
}

/// Whether one character is ASCII whitespace.
pub fn is_ws_x(c: char) -> (r: bool)
    ensures
        r == is_ws(c),
{
    c == ' ' || c == '\t' || c == '\n' || c == '\r' || c == '\u{c}'
}

/// The up-scan stays between its start and the length of `s`, and every
/// character it passes over is whitespace.
proof fn lemma_ws_scan_up_bounds(s: Seq<char>, i: int)
    requires
        0 <= i <= s.len(),
    ensures
        i <= ws_scan_up(s, i) <= s.len(),
        forall|k: int| i <= k < ws_scan_up(s, i) ==> is_ws(s[k]),
        ws_scan_up(s, i) < s.len() ==> !is_ws(s[ws_scan_up(s, i)]),
    decreases s.len() - i,
{
    if i < s.len() && is_ws(s[i]) {
        lemma_ws_scan_up_bounds(s, i + 1);
    }
}

/// The down-scan stays between 0 and its start, and every character it
/// passes over is whitespace.
proof fn lemma_ws_scan_down_bounds(s: Seq<char>, i: int)
    requires
        0 <= i <= s.len(),
    ensures
        0 <= ws_scan_down(s, i) <= i,
        forall|k: int| ws_scan_down(s, i) <= k < i ==> is_ws(s[k]),
        ws_scan_down(s, i) > 0 ==> !is_ws(s[ws_scan_down(s, i) - 1]),
    decreases i,
{
    if i > 0 && is_ws(s[i - 1]) {
        lemma_ws_scan_down_bounds(s, i - 1);
    }
}

/// `s` with leading and trailing whitespace removed.
pub fn str_trim(s: &str) -> (r: &str)
    ensures
        r@ == trim_seq(s@),
{
    let n = s.unicode_len();
    let mut a: usize = 0;
    while a < n && is_ws_x(s.get_char(a))
        invariant
            n == s@.len(),
            a <= n,
            ws_scan_up(s@, 0) == ws_scan_up(s@, a as int),
        decreases n - a,
    {
        a += 1;
    }
    assert(ws_scan_up(s@, 0) == a as int);
    if a == n {
        // The whole string is whitespace.
        proof {
            lemma_ws_scan_down_bounds(s@, n as int);
            assert(trim_seq(s@) =~= s@.subrange(a as int, a as int)) by {
                if ws_scan_down(s@, n as int) > 0 {
                    lemma_ws_scan_up_bounds(s@, 0);
                }
            }
        }
        return s.substring_char(a, a);
    }
    proof {
        lemma_ws_scan_up_bounds(s@, 0);
    }
    let mut b: usize = n;
    while b > a && is_ws_x(s.get_char(b - 1))
        invariant
            n == s@.len(),
            a < n,
            !is_ws(s@[a as int]),
            a < b <= n,
            a == ws_scan_up(s@, 0),
            ws_scan_down(s@, n as int) == ws_scan_down(s@, b as int),
        decreases b,
    {
        proof {
            // The scan never passes the non-whitespace character at `a`.
            assert(b - 1 > a) by {
                assert(!is_ws(s@[a as int]));
            }
        }
        b -= 1;
    }
    assert(!is_ws(s@[b as int - 1]));
    assert(ws_scan_down(s@, n as int) == b as int);
    s.substring_char(a, b)
}

/// The value of a digit string, read in base ten.
pub open spec fn digits_val(s: Seq<char>) -> int
    decreases s.len(),
{
    if s.len() == 0 {
        0
    } else {
        digits_val(s.drop_last()) * 10 + ((s.last() as u32) - ('0' as u32))
    }
}

/// Every character of `s` is an ASCII digit.
pub open spec fn all_digits(s: Seq<char>) -> bool {
    forall|i: int| 0 <= i < s.len() ==> is_digit(s[i])
}

/// On an all-digit string, a longer prefix never has a smaller value.
proof fn lemma_digits_val_prefix_le(s: Seq<char>, i: int, j: int)
    requires
        0 <= i <= j <= s.len(),
        all_digits(s),
    ensures
        digits_val(s.subrange(0, i)) <= digits_val(s.subrange(0, j)),
    decreases j - i,
{
    if i < j {
        lemma_digits_val_prefix_le(s, i, j - 1);
        lemma_digits_val_nonneg(s, j - 1);
        let t = s.subrange(0, j);
        assert(t.drop_last() =~= s.subrange(0, j - 1));
        assert(is_digit(s[j - 1]));
        assert(digits_val(t.drop_last()) * 10 + ((t.last() as u32) - ('0' as u32)) >= digits_val(
            t.drop_last(),
        )) by (nonlinear_arith)
            requires
                digits_val(t.drop_last()) >= 0,
                ((t.last() as u32) - ('0' as u32)) >= 0,
        ;
    }
}

/// On an all-digit string, every prefix value is non-negative.
proof fn lemma_digits_val_nonneg(s: Seq<char>, i: int)
    requires
        0 <= i <= s.len(),
        all_digits(s),
    ensures
        digits_val(s.subrange(0, i)) >= 0,
    decreases i,
{
    if i > 0 {
        lemma_digits_val_nonneg(s, i - 1);
        let t = s.subrange(0, i);
        assert(t.drop_last() =~= s.subrange(0, i - 1));
        assert(is_digit(s[i - 1]));
        assert(digits_val(t.drop_last()) * 10 >= 0) by (nonlinear_arith)
            requires
                digits_val(t.drop_last()) >= 0,
        ;
    }
}

/// Parses `s` as an unsigned decimal number.  Succeeds exactly on
/// non-empty all-digit strings whose value fits in a `u64`.
pub fn parse_u64(s: &str) -> (r: Option<u64>)
    ensures
        r is Some <==> (s@.len() > 0 && all_digits(s@) && digits_val(s@) <= u64::MAX),
        r matches Some(v) ==> v == digits_val(s@),
{
    let n = s.unicode_len();
    if n == 0 {
        return None;
    }
    let mut val: u64 = 0;
    let mut i: usize = 0;
    while i < n
        invariant
            n == s@.len(),
            0 < n,
            i <= n,
            forall|k: int| 0 <= k < i ==> is_digit(s@[k]),
            val == digits_val(s@.subrange(0, i as int)),
        decreases n - i,
    {
        let c = s.get_char(i);
        let u: u32 = c as u32;
        if u < 48 || u > 57 {
            assert(!is_digit(s@[i as int]));
            return None;
        }
        let d: u64 = (u - 48) as u64;
        let wide: u128 = (val as u128) * 10 + (d as u128);
        proof {
            let t = s@.subrange(0, i as int + 1);
            assert(t.drop_last() =~= s@.subrange(0, i as int));
            assert(digits_val(t) == wide);
        }
        if wide > u64::MAX as u128 {
            proof {
                if all_digits(s@) {
                    lemma_digits_val_prefix_le(s@, i as int + 1, s@.len() as int);
                    assert(s@.subrange(0, s@.len() as int) =~= s@);
                }
            }
            return None;
        }
        val = wide as u64;
        i += 1;
    }
    assert(s@.subrange(0, n as int) =~= s@);
    Some(val)
}

/// The first position at or after `i` where `p` occurs in `t`, or -1.
pub open spec fn find_scan(t: Seq<char>, p: Seq<char>, i: int) -> int
    decreases t.len() - i + 1,
{
    if i < 0 || i + p.len() > t.len() {
        -1
    } else if matches_at(t, p, i) {
        i
    } else {
        find_scan(t, p, i + 1)
    }
}

/// The first position where `p` occurs in `t`, or -1 when it does not.
pub open spec fn find_first(t: Seq<char>, p: Seq<char>) -> int {
    find_scan(t, p, 0)
}

proof fn lemma_find_scan_at(t: Seq<char>, p: Seq<char>, i: int, j: int)
    requires
        0 <= i <= j,
        matches_at(t, p, j),
        forall|k: int| i <= k < j ==> !matches_at(t, p, k),
    ensures
        find_scan(t, p, i) == j,
    decreases j - i,
{
    if i < j {
        lemma_find_scan_at(t, p, i + 1, j);
    }
}

proof fn lemma_find_scan_none(t: Seq<char>, p: Seq<char>, i: int)
    requires
        0 <= i,
        forall|k: int| i <= k ==> !matches_at(t, p, k),
    ensures
        find_scan(t, p, i) == -1,
    decreases t.len() - i + 1,
{
    if i + p.len() <= t.len() {
        lemma_find_scan_none(t, p, i + 1);
    }
}

/// A first occurrence, with nothing before it, is what `find_first`
/// points at.
pub proof fn lemma_find_first_at(t: Seq<char>, p: Seq<char>, j: int)
    requires
        0 <= j,
        matches_at(t, p, j),
        forall|k: int| 0 <= k < j ==> !matches_at(t, p, k),
    ensures
        find_first(t, p) == j,
{
    lemma_find_scan_at(t, p, 0, j);
}

/// Without any occurrence, `find_first` is -1.
pub proof fn lemma_find_first_none(t: Seq<char>, p: Seq<char>)
    requires
        !contains_seq(t, p),
    ensures
        find_first(t, p) == -1,
{
    assert(forall|k: int| 0 <= k ==> !matches_at(t, p, k));
    lemma_find_scan_none(t, p, 0);
}

/// The first index at or after `i` whose character is not a double
/// quote (or the length of `s`).
pub open spec fn quote_scan_up(s: Seq<char>, i: int) -> int
    decreases s.len() - i,
{
    if i < 0 || i >= s.len() {
        s.len() as int
    } else if s[i] == '"' {
        quote_scan_up(s, i + 1)
    } else {
        i
    }
}

/// One past the last index below `i` whose character is not a double
/// quote (or 0).
pub open spec fn quote_scan_down(s: Seq<char>, i: int) -> int
    decreases i,
{
    if i <= 0 || i > s.len() {
        0
    } else if s[i - 1] == '"' {
        quote_scan_down(s, i - 1)
    } else {
        i
    }
}

/// `s` with leading and trailing double quotes removed.
pub open spec fn trim_quotes_seq(s: Seq<char>) -> Seq<char> {
    let a = quote_scan_up(s, 0);
    let b = quote_scan_down(s, s.len() as int);
    if a <= b {
        s.subrange(a, b)
    } else {
        Seq::empty()
    }
}

proof fn lemma_quote_scan_down_bounds(s: Seq<char>, i: int)
    requires
        0 <= i <= s.len(),
    ensures
        0 <= quote_scan_down(s, i) <= i,
    decreases i,
{
    if i > 0 && s[i - 1] == '"' {
        lemma_quote_scan_down_bounds(s, i - 1);
    }
}

proof fn lemma_quote_scan_up_bounds(s: Seq<char>, i: int)
    requires
        0 <= i <= s.len(),
    ensures
        i <= quote_scan_up(s, i) <= s.len(),
        quote_scan_up(s, i) < s.len() ==> s[quote_scan_up(s, i)] != '"',
    decreases s.len() - i,
{
    if i < s.len() && s[i] == '"' {
        lemma_quote_scan_up_bounds(s, i + 1);
    }
}

/// `s` with leading and trailing double quotes removed.
pub fn str_trim_quotes(s: &str) -> (r: &str)
    ensures
        r@ == trim_quotes_seq(s@),
{
    let n = s.unicode_len();
    let mut a: usize = 0;
    while a < n && s.get_char(a) == '"'
        invariant
            n == s@.len(),
            a <= n,
            quote_scan_up(s@, 0) == quote_scan_up(s@, a as int),
        decreases n - a,
    {
        a += 1;
    }
    assert(quote_scan_up(s@, 0) == a as int);
    if a == n {
        proof {
            lemma_quote_scan_down_bounds(s@, n as int);
            assert(trim_quotes_seq(s@) =~= s@.subrange(a as int, a as int)) by {
                if quote_scan_down(s@, n as int) > 0 {
                    lemma_quote_scan_up_bounds(s@, 0);
                }
            }
        }
        return s.substring_char(a, a);
    }
    proof {
        lemma_quote_scan_up_bounds(s@, 0);
    }
    let mut b: usize = n;
    while b > a && s.get_char(b - 1) == '"'
        invariant
            n == s@.len(),
            a < n,
            s@[a as int] != '"',
            a < b <= n,
            a == quote_scan_up(s@, 0),
            quote_scan_down(s@, n as int) == quote_scan_down(s@, b as int),
        decreases b,
    {
        proof {
            assert(b - 1 > a) by {
                assert(s@[a as int] != '"');
            }
        }
        b -= 1;
    }
    assert(s@[b as int - 1] != '"');
    assert(quote_scan_down(s@, n as int) == b as int);
    s.substring_char(a, b)
}

/// The first index at or after `i` holding a space (or the length).
pub open spec fn space_scan(s: Seq<char>, i: int) -> int
    decreases s.len() - i,
{
    if i < 0 || i >= s.len() {
        s.len() as int
    } else if s[i] == ' ' {
        i
    } else {
        space_scan(s, i + 1)
    }
}

/// Finds the first space in `s`, or its end.
pub fn find_space(s: &str) -> (r: usize)
    ensures
        r == space_scan(s@, 0),
        r <= s@.len(),
{
    let n = s.unicode_len();
    let mut i: usize = 0;
    while i < n && s.get_char(i) != ' '
        invariant
            n == s@.len(),
            i <= n,
            space_scan(s@, 0) == space_scan(s@, i as int),
        decreases n - i,
    {
        i += 1;
    }
    assert(space_scan(s@, 0) == i as int);
    i
}

/// The first index at or after `i` whose character is not a digit
/// (or the length of `s`).
pub open spec fn digit_scan(s: Seq<char>, i: int) -> int
    decreases s.len() - i,
{
    if i < 0 || i >= s.len() {
        s.len() as int
    } else if is_digit(s[i]) {
        digit_scan(s, i + 1)
    } else {
        i
    }
}

/// The digit run is bounded, all digits, and ends at a non-digit.
pub proof fn lemma_digit_scan_bounds(s: Seq<char>, i: int)
    requires
        0 <= i <= s.len(),
    ensures
        i <= digit_scan(s, i) <= s.len(),
        forall|k: int| i <= k < digit_scan(s, i) ==> is_digit(s[k]),
        digit_scan(s, i) < s.len() ==> !is_digit(s[digit_scan(s, i)]),
    decreases s.len() - i,
{
    if i < s.len() && is_digit(s[i]) {
        lemma_digit_scan_bounds(s, i + 1);
    }
}

/// Whether one character is an ASCII digit.
pub fn is_digit_x(c: char) -> (r: bool)
    ensures
        r == is_digit(c),
{
    let u: u32 = c as u32;
    48 <= u && u <= 57
}

/// Finds the end of the digit run starting at `from`.
pub fn scan_digits(s: &str, from: usize) -> (r: usize)
    requires
        from <= s@.len(),
    ensures
        r == digit_scan(s@, from as int),
        from <= r <= s@.len(),
    decreases s@.len() - from,
{
    let n = s.unicode_len();
    let mut i: usize = from;
    while i < n && is_digit_x(s.get_char(i))
        invariant
            n == s@.len(),
            from <= i <= n,
            digit_scan(s@, from as int) == digit_scan(s@, i as int),
        decreases n - i,
    {
        i += 1;
    }
    assert(digit_scan(s@, from as int) == i as int);
    i
}

/// Every character of `s` is whitespace.
pub open spec fn all_ws(s: Seq<char>) -> bool {
    forall|i: int| 0 <= i < s.len() ==> is_ws(s[i])
}

/// Whether `s` is blank: empty or all whitespace.
pub fn str_is_blank(s: &str) -> (r: bool)
    ensures
        r == all_ws(s@),
{
    let n = s.unicode_len();
    let mut i: usize = 0;
    while i < n
        invariant
            n == s@.len(),
            i <= n,
            forall|k: int| 0 <= k < i ==> is_ws(s@[k]),
        decreases n - i,
    {
        if !is_ws_x(s.get_char(i)) {
            return false;
        }
        i += 1;
    }
    true
}

/// Relies on String::push: appends the given character to the end of
/// the string.
#[verifier::external_body]
pub(crate) fn string_push_char(s: &mut String, c: char)
    ensures
        final(s)@ == old(s)@.push(c),
{
    s.push(c);
}

/// Relies on String::pop: removes and returns the last character, or
/// nothing when the string is empty.
#[verifier::external_body]
pub(crate) fn string_pop_char(s: &mut String) -> (r: Option<char>)
    ensures
        old(s)@.len() == 0 ==> r is None && final(s)@ == old(s)@,
        old(s)@.len() > 0 ==> r == Some(old(s)@.last()) && final(s)@ == old(s)@.drop_last(),
{
    s.pop()
}

} // verus!
