//! The team-size filter parser: turns text of the shape "1-5,10-20" into
//! numeric ranges. A malformed or inverted range is skipped; an empty
//! input stands for no filter at all.

use vstd::prelude::*;

verus! {

/// The ASCII comma.
pub const COMMA: u8 = 44;

/// The ASCII dash.
pub const DASH: u8 = 45;

/// The index of the first `sep` in `s`, or `s.len()` where there is none.
pub open spec fn first_sep(s: Seq<u8>, sep: u8) -> int
    decreases s.len(),
{
    if s.len() == 0 {
        0
    } else if s[0] == sep {
        0
    } else {
        1 + first_sep(s.drop_first(), sep)
    }
}

/// The index of the last `sep` in `s`, or -1 where there is none.
pub open spec fn last_sep(s: Seq<u8>, sep: u8) -> int
    decreases s.len(),
{
    if s.len() == 0 {
        -1
    } else if s.last() == sep {
        s.len() - 1
    } else {
        last_sep(s.drop_last(), sep)
    }
}

proof fn lemma_first_sep_bounds(s: Seq<u8>, sep: u8)
    ensures
        0 <= first_sep(s, sep) <= s.len(),
        first_sep(s, sep) < s.len() ==> s[first_sep(s, sep)] == sep,
        forall|j: int| 0 <= j < first_sep(s, sep) ==> s[j] != sep,
    decreases s.len(),
{
    if s.len() > 0 && s[0] != sep {
        lemma_first_sep_bounds(s.drop_first(), sep);
        let f = first_sep(s, sep);
        if f < s.len() {
            assert(s.drop_first()[f - 1] == s[f]);
        }
        assert forall|j: int| 0 <= j < f implies s[j] != sep by {
            if j > 0 {
                assert(s.drop_first()[j - 1] == s[j]);
            }
        }
    }
}

proof fn lemma_first_sep_is(s: Seq<u8>, sep: u8, i: int)
    requires
        0 <= i <= s.len(),
        i == s.len() || s[i] == sep,
        forall|j: int| 0 <= j < i ==> s[j] != sep,
    ensures
        first_sep(s, sep) == i,
    decreases s.len(),
{
    if s.len() == 0 {
    } else if s[0] == sep {
        assert(i == 0) by {
            if i > 0 {
                assert(s[0] != sep);
            }
        }
    } else {
        assert(i > 0);
        let s1 = s.drop_first();
        assert forall|j: int| 0 <= j < i - 1 implies s1[j] != sep by {
            assert(s1[j] == s[j + 1]);
        }
        if i < s.len() {
            assert(s1[i - 1] == s[i]);
        }
        lemma_first_sep_is(s1, sep, i - 1);
    }
}

proof fn lemma_last_sep_is(s: Seq<u8>, sep: u8, i: int)
    requires
        -1 <= i < s.len(),
        i == -1 || s[i] == sep,
        forall|j: int| i < j < s.len() ==> s[j] != sep,
    ensures
        last_sep(s, sep) == i,
    decreases s.len(),
{
    if s.len() == 0 {
    } else if s.last() == sep {
        assert(i == s.len() - 1);
    } else {
        assert(i < s.len() - 1);
        let s0 = s.drop_last();
        assert forall|j: int| i < j < s0.len() implies s0[j] != sep by {
            assert(s0[j] == s[j]);
        }
        if i >= 0 {
            assert(s0[i] == s[i]);
        }
        lemma_last_sep_is(s0, sep, i);
    }
}

/// The numeric value of one ASCII digit, zero for any other byte.
pub open spec fn digit_val(b: u8) -> nat {
    if 48 <= b <= 57 {
        (b - 48) as nat
    } else {
        0
    }
}

/// Whether `s` is one or more ASCII digits.
pub open spec fn is_digits(s: Seq<u8>) -> bool {
    s.len() > 0 && forall|i: int| 0 <= i < s.len() ==> 48 <= #[trigger] s[i] <= 57
}

/// The value of a digit string, most significant digit first.
pub open spec fn digits_value(s: Seq<u8>) -> nat
    decreases s.len(),
{
    if s.len() == 0 {
        0
    } else {
        digits_value(s.drop_last()) * 10 + digit_val(s.last())
    }
}

/// The digits of a numeral: an optional leading '+' sign is dropped.
pub open spec fn numeral_body(s: Seq<u8>) -> Seq<u8> {
    if s.len() > 0 && s[0] == 43 {
        s.drop_first()
    } else {
        s
    }
}

/// Whether `s` spells a number that fits in 32 unsigned bits: an optional
/// '+', then digits, with no overflow.
pub open spec fn is_u32_numeral(s: Seq<u8>) -> bool {
    is_digits(numeral_body(s)) && digits_value(numeral_body(s)) <= u32::MAX
}

/// The value `s` spells.
pub open spec fn numeral_value(s: Seq<u8>) -> nat {
    digits_value(numeral_body(s))
}

proof fn lemma_digits_value_prefix(s: Seq<u8>, i: int)
    requires
        0 <= i <= s.len(),
    ensures
        digits_value(s.subrange(0, i)) <= digits_value(s),
    decreases s.len() - i,
{
    if i < s.len() {
        lemma_digits_value_prefix(s, i + 1);
        assert(s.subrange(0, i + 1).drop_last() =~= s.subrange(0, i));
        assert(s.subrange(0, i + 1).last() == s[i]);
        assert(digits_value(s.subrange(0, i + 1)) == digits_value(s.subrange(0, i)) * 10
            + digit_val(s[i]));
    } else {
        assert(s.subrange(0, i) =~= s);
    }
}

/// The range one comma-separated segment stands for: the number before the
/// first dash, the number after the last dash (the whole segment where
/// there is no dash), kept only where both parse and the range is not
/// inverted.
pub open spec fn segment_range(seg: Seq<u8>) -> Option<(u32, u32)> {
    let f = first_sep(seg, 45);
    let l = last_sep(seg, 45);
    let from_s = if f == seg.len() {
        seg
    } else {
        seg.subrange(0, f)
    };
    let to_s = if l < 0 {
        seg
    } else {
        seg.subrange(l + 1, seg.len() as int)
    };
    if is_u32_numeral(from_s) && is_u32_numeral(to_s) && numeral_value(from_s) <= numeral_value(
        to_s,
    ) {
        Some((numeral_value(from_s) as u32, numeral_value(to_s) as u32))
    } else {
        None
    }
}

/// Zero or one ranges, as a sequence.
pub open spec fn opt_range_seq(o: Option<(u32, u32)>) -> Seq<(u32, u32)> {
    match o {
        Some(p) => seq![p],
        None => Seq::empty(),
    }
}

/// Every range the comma-separated segments of `s` stand for, in order,
/// skipping malformed segments.
pub open spec fn size_ranges(s: Seq<u8>) -> Seq<(u32, u32)>
    decreases s.len(),
    via size_ranges_decreases
{
    let c = first_sep(s, 44);
    if c >= s.len() {
        opt_range_seq(segment_range(s))
    } else {
        opt_range_seq(segment_range(s.subrange(0, c))) + size_ranges(
            s.subrange(c + 1, s.len() as int),
        )
    }
}

#[via_fn]
proof fn size_ranges_decreases(s: Seq<u8>) {
    lemma_first_sep_bounds(s, 44);
}

/// Copies `v[a..b]`.
fn copy_range(v: &Vec<u8>, a: usize, b: usize) -> (r: Vec<u8>)
    requires
        a <= b <= v@.len(),
    ensures
        r@ == v@.subrange(a as int, b as int),
{
    let mut r: Vec<u8> = Vec::new();
    let mut k = a;
    while k < b
        invariant
            a <= k <= b <= v@.len(),
            r@ == v@.subrange(a as int, k as int),
        decreases b - k,
    {
        r.push(v[k]);
        proof {
            assert(r@ =~= v@.subrange(a as int, k + 1 as int));
        }
        k += 1;
    }
    r
}

/// Parses an unsigned 32-bit number: an optional leading '+', then one or
/// more digits; anything else, or a value over the type's maximum, is
/// rejected.
fn parse_u32(s: &Vec<u8>) -> (r: Option<u32>)
    ensures
        (r is Some) == is_u32_numeral(s@),
        r matches Some(v) ==> v == numeral_value(s@),
{
    let n = s.len();
    let start: usize = if n > 0 && s[0] == 43 {
        1
    } else {
        0
    };
    let ghost body = numeral_body(s@);
    proof {
        assert(body =~= s@.subrange(start as int, n as int));
    }
    if start >= n {
        return None;
    }
    let mut val: u32 = 0;
    let mut i = start;
    proof {
        assert(body.subrange(0, 0) =~= Seq::<u8>::empty());
    }
    while i < n
        invariant
            start <= i <= n,
            n == s@.len(),
            body == numeral_body(s@),
            body =~= s@.subrange(start as int, n as int),
            forall|j: int| start <= j < i ==> 48 <= #[trigger] s@[j] <= 57,
            val == digits_value(body.subrange(0, i - start)),
        decreases n - i,
    {
        let b = s[i];
        let ghost k = i - start;
        proof {
            assert(body[k] == s@[i as int]);
        }
        if b < 48 || b > 57 {
            proof {
                assert(!(48 <= body[k] <= 57));
                assert(!is_digits(body));
            }
            return None;
        }
        let d = (b - 48) as u32;
        proof {
            assert(body.subrange(0, k + 1).drop_last() =~= body.subrange(0, k));
            assert(body.subrange(0, k + 1).last() == body[k]);
            assert(digits_value(body.subrange(0, k + 1)) == digits_value(body.subrange(0, k)) * 10
                + digit_val(body[k]));
        }
        val = match val.checked_mul(10) {
            Some(x) => match x.checked_add(d) {
                Some(y) => y,
                None => {
                    proof {
                        lemma_digits_value_prefix(body, k + 1);
                    }
                    return None;
                },
            },
            None => {
                proof {
                    lemma_digits_value_prefix(body, k + 1);
                }
                return None;
            },
        };
        i += 1;
    }
    proof {
        assert(body.subrange(0, n - start) =~= body);
        assert(is_digits(body)) by {
            assert forall|j: int| 0 <= j < body.len() implies 48 <= #[trigger] body[j] <= 57 by {
                assert(body[j] == s@[j + start]);
            }
        }
    }
    Some(val)
}

/// The range one segment stands for; matches `segment_range` exactly.
fn parse_range_segment(seg: &Vec<u8>) -> (r: Option<(u32, u32)>)
    ensures
        r == segment_range(seg@),
{
    let n = seg.len();
    let mut f: usize = 0;
    while f < n && seg[f] != 45
        invariant
            0 <= f <= n,
            n == seg@.len(),
            forall|j: int| 0 <= j < f ==> seg@[j] != 45,
        decreases n - f,
    {
        f += 1;
    }
    proof {
        lemma_first_sep_is(seg@, 45, f as int);
    }
    let mut k: usize = 0;
    let mut lpos: usize = 0;
    let mut has_dash = false;
    while k < n
        invariant
            0 <= k <= n,
            n == seg@.len(),
            has_dash ==> lpos < k && seg@[lpos as int] == 45 && (forall|j: int|
                lpos < j < k ==> seg@[j] != 45),
            !has_dash ==> forall|j: int| 0 <= j < k ==> seg@[j] != 45,
        decreases n - k,
    {
        if seg[k] == 45 {
            lpos = k;
            has_dash = true;
        }
        k += 1;
    }
    proof {
        if has_dash {
            lemma_last_sep_is(seg@, 45, lpos as int);
        } else {
            lemma_last_sep_is(seg@, 45, -1);
        }
    }
    let from_s = if f == n {
        copy_range(seg, 0, n)
    } else {
        copy_range(seg, 0, f)
    };
    let to_s = if !has_dash {
        copy_range(seg, 0, n)
    } else {
        copy_range(seg, lpos + 1, n)
    };
    proof {
        assert(seg@.subrange(0, n as int) =~= seg@);
    }
    let a = parse_u32(&from_s);
    let b = parse_u32(&to_s);
    match (a, b) {
        (Some(x), Some(y)) => {
            if x <= y {
                Some((x, y))
            } else {
                None
            }
        },
        _ => None,
    }
}

/// Parses the team-size filter text: comma-separated ranges, each "a-b"
/// (a single number stands for both ends), in order of appearance. An
/// empty text means no filter and yields nothing; a segment that does not
/// parse, or whose range is inverted, is skipped.
pub fn parse_size_ranges(s: &Vec<u8>) -> (r: Option<Vec<(u32, u32)>>)
    requires
        s@.len() < usize::MAX,
    ensures
        (r is Some) == (s@.len() > 0),
        r matches Some(v) ==> v@ == size_ranges(s@),
{
    let n = s.len();
    if n == 0 {
        return None;
    }
    let mut out: Vec<(u32, u32)> = Vec::new();
    let mut p: usize = 0;
    proof {
        assert(s@.subrange(0, n as int) =~= s@);
        assert(Seq::<(u32, u32)>::empty() + size_ranges(s@) =~= size_ranges(s@));
    }
    while p <= n
        invariant
            0 <= p <= n + 1,
            n == s@.len(),
            n < usize::MAX,
            p <= n ==> out@ + size_ranges(s@.subrange(p as int, n as int)) == size_ranges(s@),
            p > n ==> out@ == size_ranges(s@),
        decreases n + 1 - p,
    {
        let ghost rem = s@.subrange(p as int, n as int);
        let mut c: usize = p;
        while c < n && s[c] != 44
            invariant
                p <= c <= n,
                n == s@.len(),
                forall|j: int| p <= j < c ==> s@[j] != 44,
            decreases n - c,
        {
            c += 1;
        }
        proof {
            assert forall|j: int| 0 <= j < c - p implies rem[j] != 44 by {
                assert(rem[j] == s@[j + p]);
            }
            if c < n {
                assert(rem[c - p] == s@[c as int]);
            }
            lemma_first_sep_is(rem, 44, c - p);
        }
        let seg = copy_range(s, p, c);
        proof {
            assert(seg@ =~= if c < n {
                rem.subrange(0, c - p)
            } else {
                rem
            });
        }
        match parse_range_segment(&seg) {
            Some(pr) => {
                out.push(pr);
            },
            None => {},
        }
        proof {
            if c < n {
                assert(s@.subrange(c + 1 as int, n as int) =~= rem.subrange(
                    c - p + 1,
                    rem.len() as int,
                ));
                assert(size_ranges(rem) == opt_range_seq(segment_range(seg@)) + size_ranges(
                    s@.subrange(c + 1 as int, n as int),
                ));
            } else {
                assert(size_ranges(rem) == opt_range_seq(segment_range(seg@)));
            }
            assert(out@ + (if c + 1 <= n {
                size_ranges(s@.subrange(c + 1 as int, n as int))
            } else {
                Seq::<(u32, u32)>::empty()
            }) =~= size_ranges(s@)) by {
                if c + 1 > n {
                    assert(size_ranges(rem) == opt_range_seq(segment_range(seg@))
                        + Seq::<(u32, u32)>::empty() || size_ranges(rem) == opt_range_seq(
                        segment_range(seg@),
                    ));
                }
            }
        }
        p = c + 1;
    }
    Some(out)
}

} // verus!
