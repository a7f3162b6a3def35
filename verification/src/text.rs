//! Character-level string utilities: equality, prefix handling, trimming,
//! splitting and decimal parsing, all specified over `Seq<char>` views.

use vstd::prelude::*;
use vstd::string::StrSliceExecFns;

verus! {

/// Character-by-character string equality.
pub fn str_eq(a: &str, b: &str) -> (r: bool)
    ensures
        r == (a@ == b@),
{
    let alen = a.unicode_len();
    let blen = b.unicode_len();
    if alen != blen {
        return false;
    }
    let mut i: usize = 0;
    while i < alen
        invariant
            alen == a@.len(),
            blen == b@.len(),
            alen == blen,
            i <= alen,
            forall|k: int| 0 <= k < i ==> a@[k] == b@[k],
        decreases alen - i,
    {
        if a.get_char(i) != b.get_char(i) {
            return false;
        }
        i = i + 1;
    }
    proof {
        assert(a@ =~= b@);
    }
    true
}

/// Whether `p` is a prefix of `s`.
pub open spec fn has_prefix(s: Seq<char>, p: Seq<char>) -> bool {
    s.len() >= p.len() && s.subrange(0, p.len() as int) == p
}

/// Character-by-character prefix test.
pub fn str_has_prefix(s: &str, p: &str) -> (r: bool)
    ensures
        r == has_prefix(s@, p@),
{
    let slen = s.unicode_len();
    let plen = p.unicode_len();
    if slen < plen {
        proof {
            assert(!has_prefix(s@, p@));
        }
        return false;
    }
    let mut i: usize = 0;
    while i < plen
        invariant
            slen == s@.len(),
            plen == p@.len(),
            plen <= slen,
            i <= plen,
            forall|k: int| 0 <= k < i ==> s@[k] == p@[k],
        decreases plen - i,
    {
        if s.get_char(i) != p.get_char(i) {
            proof {
                assert(s@.subrange(0, p@.len() as int)[i as int] == s@[i as int]);
            }
            return false;
        }
        i = i + 1;
    }
    proof {
        assert(s@.subrange(0, p@.len() as int) =~= p@);
    }
    true
}

/// The ASCII whitespace characters recognized when trimming and splitting.
pub open spec fn is_space(c: char) -> bool {
    c == ' ' || c == '\t' || c == '\n' || c == '\r'
}

/// Exec test for `is_space`.
pub fn is_space_char(c: char) -> (r: bool)
    ensures
        r == is_space(c),
{
    c == ' ' || c == '\t' || c == '\n' || c == '\r'
}

/// `s` without its leading whitespace.
pub open spec fn trim_left(s: Seq<char>) -> Seq<char>
    decreases s.len(),
{
    if s.len() > 0 && is_space(s[0]) {
        trim_left(s.drop_first())
    } else {
        s
    }
}

/// `s` without its trailing whitespace.
pub open spec fn trim_right(s: Seq<char>) -> Seq<char>
    decreases s.len(),
{
    if s.len() > 0 && is_space(s.last()) {
        trim_right(s.drop_last())
    } else {
        s
    }
}

/// `s` without leading and trailing whitespace.
pub open spec fn trim_of(s: Seq<char>) -> Seq<char> {
    trim_right(trim_left(s))
}

/// Trims ASCII whitespace from both ends.
pub fn trim_spaces(s: &str) -> (r: &str)
    ensures
        r@ == trim_of(s@),
{
    let n = s.unicode_len();
    let mut lo: usize = 0;
    proof {
        assert(s@.skip(0) =~= s@);
    }
    while lo < n && is_space_char(s.get_char(lo))
        invariant
            n == s@.len(),
            lo <= n,
            trim_left(s@) == trim_left(s@.skip(lo as int)),
        decreases n - lo,
    {
        proof {
            assert(s@.skip(lo as int)[0] == s@[lo as int]);
            assert(s@.skip(lo as int).drop_first() =~= s@.skip(lo + 1));
        }
        lo = lo + 1;
    }
    if lo == n {
        proof {
            assert(s@.skip(n as int) =~= Seq::<char>::empty());
            assert(trim_of(s@) =~= Seq::<char>::empty());
        }
        let r = s.substring_char(0, 0);
        proof {
            assert(r@ =~= trim_of(s@));
        }
        return r;
    }
    proof {
        assert(s@.skip(lo as int)[0] == s@[lo as int]);
        assert(trim_left(s@) == s@.skip(lo as int));
    }
    let mut hi: usize = n;
    while hi > lo && is_space_char(s.get_char(hi - 1))
        invariant
            n == s@.len(),
            lo < n,
            lo <= hi <= n,
            trim_left(s@) == s@.skip(lo as int),
            trim_of(s@) == trim_right(s@.subrange(lo as int, hi as int)),
        decreases hi,
    {
        proof {
            let seg = s@.subrange(lo as int, hi as int);
            assert(seg.last() == s@[hi - 1]);
            assert(seg.drop_last() =~= s@.subrange(lo as int, hi - 1));
        }
        hi = hi - 1;
    }
    proof {
        if hi == lo {
            assert(s@.subrange(lo as int, hi as int) =~= Seq::<char>::empty());
        } else {
            assert(s@.subrange(lo as int, hi as int).last() == s@[hi - 1]);
        }
        assert(trim_of(s@) == s@.subrange(lo as int, hi as int));
    }
    s.substring_char(lo, hi)
}

/// Whether `c` separates tokens: whitespace when `ws` is set, else exactly
/// the character `sep`.
pub open spec fn sep_match(c: char, sep: char, ws: bool) -> bool {
    if ws {
        is_space(c)
    } else {
        c == sep
    }
}

/// The length of the longest separator-free prefix of `s`.
pub open spec fn run_len(s: Seq<char>, sep: char, ws: bool) -> int
    decreases s.len(),
{
    if s.len() == 0 || sep_match(s[0], sep, ws) {
        0
    } else {
        1 + run_len(s.drop_first(), sep, ws)
    }
}

/// The non-empty tokens of `s`, split at separator characters.
pub open spec fn tokens_by(s: Seq<char>, sep: char, ws: bool) -> Seq<Seq<char>>
    decreases s.len(),
    via tokens_by_decreases
{
    if s.len() == 0 {
        Seq::empty()
    } else if sep_match(s[0], sep, ws) {
        tokens_by(s.drop_first(), sep, ws)
    } else {
        let k = run_len(s, sep, ws);
        seq![s.take(k)] + tokens_by(s.skip(k), sep, ws)
    }
}

/// The leading run is never empty and never longer than the string.
proof fn lemma_run_len_bounds(s: Seq<char>, sep: char, ws: bool)
    ensures
        0 <= run_len(s, sep, ws) <= s.len(),
    decreases s.len(),
{
    if s.len() > 0 && !sep_match(s[0], sep, ws) {
        lemma_run_len_bounds(s.drop_first(), sep, ws);
    }
}

#[via_fn]
proof fn tokens_by_decreases(s: Seq<char>, sep: char, ws: bool) {
    if s.len() > 0 && !sep_match(s[0], sep, ws) {
        lemma_run_len_bounds(s.drop_first(), sep, ws);
        assert(run_len(s, sep, ws) >= 1);
    }
}

/// The character sequences of a list of strings.
pub open spec fn deep_strs(s: Seq<String>) -> Seq<Seq<char>> {
    s.map_values(|x: String| x@)
}

/// A separator-free region that ends at a separator or at the end of `s`
/// is exactly the leading run.
proof fn lemma_run_len(s: Seq<char>, sep: char, ws: bool, m: int)
    requires
        0 <= m <= s.len(),
        forall|k: int| 0 <= k < m ==> !sep_match(s[k], sep, ws),
        m == s.len() || sep_match(s[m], sep, ws),
    ensures
        run_len(s, sep, ws) == m,
    decreases m,
{
    if m > 0 {
        assert(!sep_match(s[0], sep, ws));
        let t = s.drop_first();
        assert forall|k: int| 0 <= k < m - 1 implies !sep_match(t[k], sep, ws) by {
            assert(t[k] == s[k + 1]);
        }
        if m - 1 < t.len() {
            assert(t[m - 1] == s[m]);
        }
        lemma_run_len(t, sep, ws, m - 1);
    }
}

/// The end of the separator-free run starting at `start`.
fn token_end(s: &str, start: usize, sep: char, ws: bool) -> (j: usize)
    requires
        start <= s@.len(),
    ensures
        start <= j <= s@.len(),
        forall|k: int| start <= k < j ==> !sep_match(s@[k], sep, ws),
        j == s@.len() || sep_match(s@[j as int], sep, ws),
{
    let n = s.unicode_len();
    let mut j: usize = start;
    while j < n
        invariant
            n == s@.len(),
            start <= j <= n,
            forall|k: int| start <= k < j ==> !sep_match(s@[k], sep, ws),
        decreases n - j,
    {
        let cj = s.get_char(j);
        let stop: bool = if ws {
            is_space_char(cj)
        } else {
            cj == sep
        };
        if stop {
            return j;
        }
        j = j + 1;
    }
    j
}

/// Splits `s` at separators and drops empty tokens.
pub fn split_by(s: &str, sep: char, ws: bool) -> (out: Vec<String>)
    ensures
        deep_strs(out@) == tokens_by(s@, sep, ws),
{
    let n = s.unicode_len();
    let mut out: Vec<String> = Vec::new();
    let mut i: usize = 0;
    proof {
        assert(s@.skip(0) =~= s@);
        assert(deep_strs(out@) =~= Seq::<Seq<char>>::empty());
    }
    while i < n
        invariant
            n == s@.len(),
            i <= n,
            tokens_by(s@, sep, ws) == deep_strs(out@) + tokens_by(s@.skip(i as int), sep, ws),
        decreases n - i,
    {
        let c = s.get_char(i);
        proof {
            assert(s@.skip(i as int)[0] == s@[i as int]);
        }
        if is_space_char(c) && ws || !ws && c == sep {
            proof {
                assert(s@.skip(i as int).drop_first() =~= s@.skip(i + 1));
            }
            i = i + 1;
        } else {
            let start = i;
            proof {
                assert(!sep_match(s@[i as int], sep, ws));
            }
            let j = token_end(s, start, sep, ws);
            proof {
                assert(j > start) by {
                    if j == start {
                        assert(sep_match(s@[start as int], sep, ws));
                    }
                };
            }
            proof {
                let t = s@.skip(start as int);
                assert forall|k: int| 0 <= k < j - start implies !sep_match(t[k], sep, ws) by {
                    assert(t[k] == s@[start + k]);
                }
                if j < n {
                    assert(t[j - start] == s@[j as int]);
                    assert(sep_match(t[j - start], sep, ws));
                }
                lemma_run_len(t, sep, ws, j - start);
                assert(t.take(j - start) =~= s@.subrange(start as int, j as int));
                assert(t.skip(j - start) =~= s@.skip(j as int));
                assert(tokens_by(t, sep, ws) == seq![s@.subrange(start as int, j as int)]
                    + tokens_by(s@.skip(j as int), sep, ws));
            }
            let tok = s.substring_char(start, j);
            let towned = tok.to_owned();
            let ghost oldout = out@;
            out.push(towned);
            proof {
                assert(deep_strs(out@) =~= deep_strs(oldout).push(s@.subrange(
                    start as int,
                    j as int,
                )));
                assert(deep_strs(oldout) + (seq![s@.subrange(start as int, j as int)] + tokens_by(
                    s@.skip(j as int),
                    sep,
                    ws,
                )) =~= deep_strs(out@) + tokens_by(s@.skip(j as int), sep, ws));
            }
            i = j;
        }
    }
    proof {
        assert(s@.skip(n as int) =~= Seq::<char>::empty());
        assert(deep_strs(out@) + tokens_by(s@.skip(n as int), sep, ws) =~= deep_strs(out@));
    }
    out
}

/// Whether `c` is an ASCII decimal digit.
pub open spec fn is_digit(c: char) -> bool {
    48 <= c as u32 <= 57
}

/// The numeric value of a digit character.
pub open spec fn digit_val(c: char) -> int {
    c as u32 - 48
}

/// Whether every character of `s` is a digit.
pub open spec fn all_digits(s: Seq<char>) -> bool {
    forall|i: int| 0 <= i < s.len() ==> is_digit(#[trigger] s[i])
}

/// The decimal value of a digit sequence.
pub open spec fn dec_val(s: Seq<char>) -> int
    decreases s.len(),
{
    if s.len() == 0 {
        0
    } else {
        10 * dec_val(s.drop_last()) + digit_val(s.last())
    }
}

/// Whether `s` is a well-formed decimal numeral for a `u32`.
pub open spec fn is_u32_numeral(s: Seq<char>) -> bool {
    s.len() >= 1 && all_digits(s) && dec_val(s) <= u32::MAX
}

proof fn lemma_dec_val_nonneg(s: Seq<char>)
    requires
        all_digits(s),
    ensures
        dec_val(s) >= 0,
    decreases s.len(),
{
    if s.len() > 0 {
        assert(all_digits(s.drop_last()));
        lemma_dec_val_nonneg(s.drop_last());
        assert(10 * dec_val(s.drop_last()) >= 0) by (nonlinear_arith)
            requires
                dec_val(s.drop_last()) >= 0,
        ;
    }
}

/// Extending a digit string never shrinks its value.
proof fn lemma_dec_val_extend(s: Seq<char>, m: int)
    requires
        all_digits(s),
        0 <= m <= s.len(),
    ensures
        dec_val(s.take(m)) <= dec_val(s),
    decreases s.len() - m,
{
    if m < s.len() {
        lemma_dec_val_extend(s, m + 1);
        let t = s.take(m + 1);
        assert(t.drop_last() =~= s.take(m));
        assert(t.last() == s[m]);
        assert(all_digits(s.take(m))) by {
            assert(forall|k: int| 0 <= k < m ==> s.take(m)[k] == s[k]);
        };
        lemma_dec_val_nonneg(s.take(m));
        assert(dec_val(s.take(m)) <= 10 * dec_val(s.take(m)) + digit_val(s[m])) by (
        nonlinear_arith)
            requires
                dec_val(s.take(m)) >= 0,
                digit_val(s[m]) >= 0,
        ;
    } else {
        assert(s.take(m) =~= s);
    }
}

/// Parses a decimal numeral as a `u32`: succeeds exactly on non-empty
/// all-digit strings whose value fits.
pub fn parse_u32(s: &str) -> (r: Option<u32>)
    ensures
        match r {
            Option::Some(v) => is_u32_numeral(s@) && v as int == dec_val(s@),
            Option::None => !is_u32_numeral(s@),
        },
{
    let n = s.unicode_len();
    if n == 0 {
        return Option::None;
    }
    let mut acc: u64 = 0;
    let mut i: usize = 0;
    while i < n
        invariant
            n == s@.len(),
            i <= n,
            all_digits(s@.take(i as int)),
            acc as int == dec_val(s@.take(i as int)),
            acc <= u32::MAX,
        decreases n - i,
    {
        let c = s.get_char(i);
        let u = c as u32;
        if u < 48 || u > 57 {
            proof {
                assert(!is_digit(s@[i as int]));
            }
            return Option::None;
        }
        acc = acc * 10 + ((u - 48) as u64);
        proof {
            assert(s@.take(i + 1).drop_last() =~= s@.take(i as int));
            assert(s@.take(i + 1).last() == s@[i as int]);
            assert(all_digits(s@.take(i + 1))) by {
                assert(forall|k: int| 0 <= k < i ==> s@.take(i + 1)[k] == s@.take(i as int)[k]);
            };
        }
        if acc > 0xffffffff {
            proof {
                if all_digits(s@) {
                    lemma_dec_val_extend(s@, i + 1);
                }
            }
            return Option::None;
        }
        i = i + 1;
    }
    proof {
        assert(s@.take(n as int) =~= s@);
    }
    Option::Some(acc as u32)
}

} // verus!
