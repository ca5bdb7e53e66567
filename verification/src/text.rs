//! Shared text utilities: character access, line and token splitting, and
//! integer numerals, each verified against a spec-level grammar.

use vstd::prelude::*;
use vstd::string::StrSliceExecFns;

verus! {

/// Space or tab: the characters a blank line may contain.
pub open spec fn is_line_space(c: char) -> bool {
    c == ' ' || c == '\t'
}

/// Whitespace for token splitting.
pub open spec fn is_space(c: char) -> bool {
    c == ' ' || c == '\t' || c == '\n' || c == '\r'
}

pub open spec fn is_digit(c: char) -> bool {
    48 <= c as u32 <= 57
}

pub open spec fn digit_val(c: char) -> int {
    c as u32 - 48
}

pub open spec fn all_digits(s: Seq<char>) -> bool {
    forall|i: int| 0 <= i < s.len() ==> is_digit(#[trigger] s[i])
}

/// The value of a digit string, most significant digit first.
pub open spec fn digits_value(s: Seq<char>) -> int
    decreases s.len(),
{
    if s.len() == 0 {
        0
    } else {
        digits_value(s.drop_last()) * 10 + digit_val(s.last())
    }
}

/// An unsigned numeral: digits only, value within `u64`.
pub open spec fn spec_parse_u64(s: Seq<char>) -> Option<u64> {
    if s.len() > 0 && all_digits(s) && digits_value(s) <= u64::MAX {
        Some(digits_value(s) as u64)
    } else {
        None
    }
}

/// An unsigned numeral whose value fits `usize`.
pub open spec fn spec_parse_usize(s: Seq<char>) -> Option<usize> {
    if s.len() > 0 && all_digits(s) && digits_value(s) <= usize::MAX {
        Some(digits_value(s) as usize)
    } else {
        None
    }
}

/// A signed numeral: an optional leading minus sign, then digits, value
/// within `i32`.
pub open spec fn spec_parse_i32(s: Seq<char>) -> Option<i32> {
    if s.len() > 0 && s[0] == '-' {
        let mag = s.drop_first();
        if mag.len() > 0 && all_digits(mag) && digits_value(mag) <= 0x8000_0000 {
            Some((-digits_value(mag)) as i32)
        } else {
            None
        }
    } else {
        if s.len() > 0 && all_digits(s) && digits_value(s) <= 0x7fff_ffff {
            Some(digits_value(s) as i32)
        } else {
            None
        }
    }
}

pub proof fn lemma_digits_value_nonneg(s: Seq<char>)
    requires
        all_digits(s),
    ensures
        digits_value(s) >= 0,
    decreases s.len(),
{
    if s.len() > 0 {
        assert(all_digits(s.drop_last()));
        lemma_digits_value_nonneg(s.drop_last());
        assert(digits_value(s.drop_last()) * 10 >= 0) by (nonlinear_arith)
            requires
                digits_value(s.drop_last()) >= 0,
        ;
    }
}

/// The index of the first character satisfying `f`, or the length if none
/// does.
pub open spec fn spec_find(s: Seq<char>, f: spec_fn(char) -> bool) -> int
    decreases s.len(),
{
    if s.len() == 0 {
        0
    } else if f(s[0]) {
        0
    } else {
        1 + spec_find(s.drop_first(), f)
    }
}

pub proof fn lemma_find(s: Seq<char>, f: spec_fn(char) -> bool)
    ensures
        0 <= spec_find(s, f) <= s.len(),
        forall|k: int| 0 <= k < spec_find(s, f) ==> !f(#[trigger] s[k]),
        spec_find(s, f) < s.len() ==> f(s[spec_find(s, f)]),
    decreases s.len(),
{
    if s.len() > 0 && !f(s[0]) {
        lemma_find(s.drop_first(), f);
        assert forall|k: int| 0 <= k < spec_find(s, f) implies !f(#[trigger] s[k]) by {
            if k > 0 {
                assert(s.drop_first()[k - 1] == s[k]);
                assert(!f(s.drop_first()[k - 1]));
            }
        }
        if spec_find(s, f) < s.len() {
            assert(s.drop_first()[spec_find(s, f) - 1] == s[spec_find(s, f)]);
        }
    }
}

/// Pins the find index down from a scan's findings.
pub proof fn lemma_find_is(s: Seq<char>, f: spec_fn(char) -> bool, j: int)
    requires
        0 <= j <= s.len(),
        forall|k: int| 0 <= k < j ==> !f(#[trigger] s[k]),
        j < s.len() ==> f(s[j]),
    ensures
        spec_find(s, f) == j,
{
    lemma_find(s, f);
    let i = spec_find(s, f);
    if i < j {
        assert(f(s[i]));
    }
    if i > j {
        assert(j < s.len());
        assert(!f(s[j]));
    }
}

/// The lines of a text: maximal `'\n'`-free stretches, where a final newline
/// ends the last line rather than opening an empty one.
pub open spec fn spec_lines(s: Seq<char>) -> Seq<Seq<char>>
    decreases s.len(),
        via spec_lines_decreases
{
    if s.len() == 0 {
        Seq::empty()
    } else {
        let i = spec_find(s, |c: char| c == '\n');
        if i == s.len() {
            seq![s]
        } else {
            seq![s.take(i)] + spec_lines(s.skip(i + 1))
        }
    }
}

#[via_fn]
proof fn spec_lines_decreases(s: Seq<char>) {
    lemma_find(s, |c: char| c == '\n');
}

/// Empty, or spaces and tabs only.
pub open spec fn is_blank(s: Seq<char>) -> bool {
    forall|i: int| 0 <= i < s.len() ==> is_line_space(#[trigger] s[i])
}

/// The whitespace-separated tokens of a text.
pub open spec fn spec_tokens(s: Seq<char>) -> Seq<Seq<char>>
    decreases s.len(),
        via spec_tokens_decreases
{
    if s.len() == 0 {
        Seq::empty()
    } else if is_space(s[0]) {
        spec_tokens(s.drop_first())
    } else {
        let i = spec_find(s, |c: char| is_space(c));
        seq![s.take(i)] + spec_tokens(s.skip(i))
    }
}

#[via_fn]
proof fn spec_tokens_decreases(s: Seq<char>) {
    lemma_find(s, |c: char| is_space(c));
    if s.len() > 0 && !is_space(s[0]) {
        let i = spec_find(s, |c: char| is_space(c));
        assert(i >= 1) by {
            if i == 0 {
                assert(is_space(s[0]));
            }
        }
    }
}

/// Collects the characters of a string slice into a vector.
pub fn chars_of(s: &str) -> (r: Vec<char>)
    ensures
        r@ == s@,
{
    let n = s.unicode_len();
    let mut r: Vec<char> = Vec::new();
    let mut i: usize = 0;
    while i < n
        invariant
            i <= n,
            n == s@.len(),
            r@ == s@.take(i as int),
        decreases n - i,
    {
        let c = s.get_char(i);
        r.push(c);
        proof {
            assert(r@ =~= s@.take(i + 1 as int));
        }
        i = i + 1;
    }
    proof {
        assert(r@ =~= s@);
    }
    r
}

/// Relies on `String::from_iter` over `char`: the resulting string holds
/// exactly the given characters, in order.
#[verifier::external_body]
pub fn string_from_chars(v: &Vec<char>) -> (r: String)
    ensures
        r@ == v@,
{
    v.iter().collect()
}

/// Copies `v[lo..hi]` into a fresh vector.
pub fn subrange_vec(v: &Vec<char>, lo: usize, hi: usize) -> (r: Vec<char>)
    requires
        lo <= hi <= v@.len(),
    ensures
        r@ == v@.subrange(lo as int, hi as int),
{
    let mut r: Vec<char> = Vec::new();
    let mut k = lo;
    while k < hi
        invariant
            lo <= k <= hi,
            r@ == v@.subrange(lo as int, k as int),
        decreases hi - k,
    {
        r.push(v[k]);
        proof {
            assert(r@ =~= v@.subrange(lo as int, (k + 1) as int));
        }
        k = k + 1;
    }
    r
}

pub fn is_space_char(c: char) -> (b: bool)
    ensures
        b == is_space(c),
{
    c == ' ' || c == '\t' || c == '\n' || c == '\r'
}

/// True when the line is empty or all spaces and tabs.
pub fn is_blank_line(v: &Vec<char>) -> (b: bool)
    ensures
        b == is_blank(v@),
{
    let mut k: usize = 0;
    while k < v.len()
        invariant
            k <= v@.len(),
            forall|j: int| 0 <= j < k ==> is_line_space(#[trigger] v@[j]),
        decreases v@.len() - k,
    {
        let c = v[k];
        if !(c == ' ' || c == '\t') {
            return false;
        }
        k = k + 1;
    }
    true
}

/// Splits a text into its lines.
pub fn split_lines(v: &Vec<char>) -> (r: Vec<Vec<char>>)
    ensures
        r@.map_values(|l: Vec<char>| l@) == spec_lines(v@),
{
    let mut r: Vec<Vec<char>> = Vec::new();
    let mut pos: usize = 0;
    proof {
        assert(v@.skip(0) =~= v@);
        assert(r@.map_values(|l: Vec<char>| l@) + spec_lines(v@) =~= spec_lines(v@));
    }
    while pos < v.len()
        invariant
            pos <= v@.len(),
            spec_lines(v@) == r@.map_values(|l: Vec<char>| l@) + spec_lines(
                v@.skip(pos as int),
            ),
        decreases v@.len() - pos,
    {
        let ghost s = v@.skip(pos as int);
        let mut j = pos;
        while j < v.len() && v[j] != '\n'
            invariant
                pos <= j <= v@.len(),
                forall|k: int| pos <= k < j ==> v@[k] != '\n',
            decreases v@.len() - j,
        {
            j = j + 1;
        }
        let line = subrange_vec(v, pos, j);
        proof {
            let f = |c: char| c == '\n';
            lemma_find(s, f);
            let i = spec_find(s, f);
            assert forall|k: int| 0 <= k < j - pos implies !f(s[k]) by {
                assert(s[k] == v@[pos + k]);
            }
            if i < j - pos {
                assert(f(s[i]));
            }
            if j < v@.len() {
                assert(f(s[j - pos]) && j - pos < s.len());
                if i > j - pos {
                    assert(!f(s[j - pos]));
                }
            }
            assert(i == j - pos);
            assert(s.take(i) =~= v@.subrange(pos as int, j as int));
            if i == s.len() {
                assert(line@ == s);
                assert(spec_lines(s) =~= seq![s]);
            } else {
                assert(s.skip(i + 1) =~= v@.skip((j + 1) as int));
                assert(spec_lines(s) =~= seq![s.take(i)] + spec_lines(v@.skip((j + 1) as int)));
            }
        }
        let ghost old_r = r@;
        r.push(line);
        proof {
            assert(r@.map_values(|l: Vec<char>| l@) =~= old_r.map_values(|l: Vec<char>| l@)
                + seq![line@]);
        }
        if j < v.len() {
            pos = j + 1;
        } else {
            pos = j;
            proof {
                assert(spec_lines(v@.skip(pos as int)) =~= Seq::<Seq<char>>::empty());
            }
        }
    }
    proof {
        assert(spec_lines(v@.skip(pos as int)) =~= Seq::<Seq<char>>::empty());
        assert(r@.map_values(|l: Vec<char>| l@) =~= spec_lines(v@));
    }
    r
}

/// Splits a text into whitespace-separated tokens.
pub fn split_tokens(v: &Vec<char>) -> (r: Vec<Vec<char>>)
    ensures
        r@.map_values(|t: Vec<char>| t@) == spec_tokens(v@),
{
    let mut r: Vec<Vec<char>> = Vec::new();
    let mut pos: usize = 0;
    proof {
        assert(v@.skip(0) =~= v@);
        assert(r@.map_values(|t: Vec<char>| t@) + spec_tokens(v@) =~= spec_tokens(v@));
    }
    while pos < v.len()
        invariant
            pos <= v@.len(),
            spec_tokens(v@) == r@.map_values(|t: Vec<char>| t@) + spec_tokens(
                v@.skip(pos as int),
            ),
        decreases v@.len() - pos,
    {
        let ghost s = v@.skip(pos as int);
        if is_space_char(v[pos]) {
            proof {
                assert(s.drop_first() =~= v@.skip((pos + 1) as int));
            }
            pos = pos + 1;
        } else {
            let mut j = pos + 1;
            while j < v.len() && !is_space_char(v[j])
                invariant
                    pos < j <= v@.len(),
                    forall|k: int| pos <= k < j ==> !is_space(#[trigger] v@[k]),
                decreases v@.len() - j,
            {
                j = j + 1;
            }
            let tok = subrange_vec(v, pos, j);
            proof {
                let f = |c: char| is_space(c);
                lemma_find(s, f);
                let i = spec_find(s, f);
                assert forall|k: int| 0 <= k < j - pos implies !f(s[k]) by {
                    assert(s[k] == v@[pos + k]);
                }
                if i < j - pos {
                    assert(f(s[i]));
                }
                if j < v@.len() {
                    assert(f(s[j - pos]) && j - pos < s.len());
                    if i > j - pos {
                        assert(!f(s[j - pos]));
                    }
                }
                assert(i == j - pos);
                assert(s.take(i) =~= v@.subrange(pos as int, j as int));
                assert(s.skip(i) =~= v@.skip(j as int));
                assert(spec_tokens(s) =~= seq![s.take(i)] + spec_tokens(v@.skip(j as int)));
            }
            let ghost old_r = r@;
            r.push(tok);
            proof {
                assert(r@.map_values(|t: Vec<char>| t@) =~= old_r.map_values(|t: Vec<char>| t@)
                    + seq![tok@]);
            }
            pos = j;
        }
    }
    proof {
        assert(spec_tokens(v@.skip(pos as int)) =~= Seq::<Seq<char>>::empty());
        assert(r@.map_values(|t: Vec<char>| t@) =~= spec_tokens(v@));
    }
    r
}

/// Scans from `from` for the first occurrence of `c`, or the length.
pub fn find_char(v: &Vec<char>, from: usize, c: char) -> (r: usize)
    requires
        from <= v@.len(),
    ensures
        from <= r <= v@.len(),
        forall|k: int| from <= k < r ==> v@[k] != c,
        r < v@.len() ==> v@[r as int] == c,
{
    let mut j = from;
    while j < v.len() && v[j] != c
        invariant
            from <= j <= v@.len(),
            forall|k: int| from <= k < j ==> v@[k] != c,
        decreases v@.len() - j,
    {
        j = j + 1;
    }
    j
}

/// Whether the vector holds the character.
pub fn contains_char(v: &Vec<char>, c: char) -> (b: bool)
    ensures
        b == v@.contains(c),
{
    let mut i: usize = 0;
    while i < v.len()
        invariant
            i <= v@.len(),
            forall|k: int| 0 <= k < i ==> v@[k] != c,
        decreases v@.len() - i,
    {
        if v[i] == c {
            return true;
        }
        i = i + 1;
    }
    false
}

/// True when `lit` occurs in `v` starting at `pos`.
pub fn matches_at(v: &Vec<char>, pos: usize, lit: &str) -> (b: bool)
    requires
        pos <= v@.len(),
    ensures
        b == (pos + lit@.len() <= v@.len() && v@.subrange(pos as int, pos + lit@.len())
            == lit@),
{
    let n = lit.unicode_len();
    if v.len() - pos < n {
        return false;
    }
    let mut k: usize = 0;
    while k < n
        invariant
            k <= n,
            n == lit@.len(),
            pos + n <= v@.len(),
            forall|j: int| 0 <= j < k ==> v@[pos + j] == lit@[j],
        decreases n - k,
    {
        if v[pos + k] != lit.get_char(k) {
            proof {
                assert(v@.subrange(pos as int, pos + lit@.len())[k as int] != lit@[k as int]);
            }
            return false;
        }
        k = k + 1;
    }
    proof {
        assert(v@.subrange(pos as int, pos + lit@.len()) =~= lit@);
    }
    true
}

/// Parses a digit string into a `u64`, rejecting anything else.
pub fn parse_u64_chars(v: &[char]) -> (r: Option<u64>)
    ensures
        r == spec_parse_u64(v@),
{
    if v.len() == 0 {
        return None;
    }
    let mut acc: u64 = 0;
    let mut overflow = false;
    let mut i: usize = 0;
    while i < v.len()
        invariant
            i <= v.len(),
            all_digits(v@.take(i as int)),
            !overflow ==> acc == digits_value(v@.take(i as int)),
            overflow ==> digits_value(v@.take(i as int)) > u64::MAX,
        decreases v.len() - i,
    {
        let c = v[i];
        let u = c as u32;
        if u < 48 || u > 57 {
            assert(!is_digit(v@[i as int]));
            return None;
        }
        let d = (u - 48) as u64;
        proof {
            assert(v@.take((i + 1) as int).drop_last() =~= v@.take(i as int));
            assert(digits_value(v@.take((i + 1) as int)) == digits_value(v@.take(i as int)) * 10
                + digit_val(v@[i as int]));
            assert forall|k: int| 0 <= k < i + 1 implies is_digit(#[trigger] v@.take((i + 1) as int)[k]) by {
                if k < i {
                    assert(is_digit(v@.take(i as int)[k]));
                }
            }
            assert(all_digits(v@.take((i + 1) as int)));
        }
        if overflow {
            proof {
                lemma_digits_value_nonneg(v@.take((i + 1) as int));
                assert(digits_value(v@.take(i as int)) * 10 > u64::MAX * 10) by (nonlinear_arith)
                    requires
                        digits_value(v@.take(i as int)) > u64::MAX,
                ;
            }
        } else if acc > u64::MAX / 10 || (acc == u64::MAX / 10 && d > u64::MAX % 10) {
            overflow = true;
            proof {
                assert(digits_value(v@.take(i as int)) * 10 + digit_val(v@[i as int]) > u64::MAX)
                    by (nonlinear_arith)
                    requires
                        digits_value(v@.take(i as int)) == acc as int,
                        digit_val(v@[i as int]) == d as int,
                        acc > u64::MAX / 10 || (acc == u64::MAX / 10 && d > u64::MAX % 10),
                        0 <= d <= 9,
                ;
            }
        } else {
            proof {
                assert(acc * 10 + d <= u64::MAX) by (nonlinear_arith)
                    requires
                        0 <= acc <= u64::MAX / 10,
                        0 <= d <= 9,
                        acc <= u64::MAX / 10 ==> (acc < u64::MAX / 10 || d <= u64::MAX % 10),
                        acc > u64::MAX / 10 || (acc == u64::MAX / 10 && d <= u64::MAX % 10)
                            || acc < u64::MAX / 10,
                ;
            }
            acc = acc * 10 + d;
        }
        i = i + 1;
    }
    proof {
        assert(v@.take(v@.len() as int) =~= v@);
    }
    if overflow {
        None
    } else {
        Some(acc)
    }
}

/// Parses a digit string into a `usize`.
pub fn parse_usize_chars(v: &[char]) -> (r: Option<usize>)
    ensures
        r == spec_parse_usize(v@),
{
    match parse_u64_chars(v) {
        Some(n) => {
            proof {
                lemma_digits_value_nonneg(v@);
                assert(digits_value(v@) == n as int);
            }
            if n <= usize::MAX as u64 {
                Some(n as usize)
            } else {
                None
            }
        },
        None => {
            proof {
                if v@.len() > 0 && all_digits(v@) {
                    lemma_digits_value_nonneg(v@);
                }
            }
            None
        },
    }
}

/// Parses an optionally negated digit string into an `i32`.
pub fn parse_i32_chars(v: &[char]) -> (r: Option<i32>)
    ensures
        r == spec_parse_i32(v@),
{
    if v.len() > 0 && v[0] == '-' {
        let mag = vstd::slice::slice_subrange(v, 1, v.len());
        assert(mag@ =~= v@.drop_first());
        match parse_u64_chars(mag) {
            Some(n) => {
                proof {
                    lemma_digits_value_nonneg(mag@);
                    assert(digits_value(mag@) == n as int);
                }
                if n <= 0x8000_0000u64 {
                    if n == 0x8000_0000u64 {
                        Some(i32::MIN)
                    } else {
                        Some(-(n as i32))
                    }
                } else {
                    None
                }
            },
            None => {
                proof {
                    if mag@.len() > 0 && all_digits(mag@) {
                        lemma_digits_value_nonneg(mag@);
                    }
                }
                None
            },
        }
    } else {
        match parse_u64_chars(v) {
            Some(n) => {
                proof {
                    lemma_digits_value_nonneg(v@);
                    assert(digits_value(v@) == n as int);
                }
                if n <= 0x7fff_ffffu64 {
                    Some(n as i32)
                } else {
                    None
                }
            },
            None => {
                proof {
                    if v@.len() > 0 && all_digits(v@) {
                        lemma_digits_value_nonneg(v@);
                    }
                }
                None
            },
        }
    }
}

} // verus!
