//! Verified helpers over byte strings: prefix tests, splitting on a
//! separator, and decimal number parsing.
//!
//! Numbers that may exceed a caller's range are parsed *saturated*: the
//! result is exact up to a cap and the cap marks every larger value, so
//! a caller can still tell an in-range value from an overflow.

use vstd::prelude::*;

verus! {

/// `p` is a prefix of `s`.
pub open spec fn has_prefix(s: Seq<u8>, p: Seq<u8>) -> bool {
    p.len() <= s.len() && forall|k: int| 0 <= k < p.len() ==> s[k] == p[k]
}

/// Whether `s` begins with the bytes of `p`.
pub fn starts_with(s: &Vec<u8>, p: &Vec<u8>) -> (r: bool)
    ensures
        r == has_prefix(s@, p@),
{
    if p.len() > s.len() {
        return false;
    }
    let mut i: usize = 0;
    while i < p.len()
        invariant
            0 <= i <= p@.len() <= s@.len(),
            forall|k: int| 0 <= k < i ==> s@[k] == p@[k],
        decreases p@.len() - i,
    {
        if s[i] != p[i] {
            return false;
        }
        i += 1;
    }
    true
}

/// Whether `s` holds exactly the bytes of `p`.
pub fn bytes_equal(s: &Vec<u8>, p: &Vec<u8>) -> (r: bool)
    ensures
        r == (s@ == p@),
{
    if s.len() != p.len() {
        return false;
    }
    let mut i: usize = 0;
    while i < p.len()
        invariant
            0 <= i <= p@.len() == s@.len(),
            forall|k: int| 0 <= k < i ==> s@[k] == p@[k],
        decreases p@.len() - i,
    {
        if s[i] != p[i] {
            return false;
        }
        i += 1;
    }
    proof {
        assert(s@ =~= p@);
    }
    true
}

/// Index of the first occurrence of `sep` in `s`, or -1 if there is none.
pub open spec fn first_sep(s: Seq<u8>, sep: u8) -> int
    decreases s.len(),
{
    if s.len() == 0 {
        -1
    } else if s[0] == sep {
        0
    } else {
        let r = first_sep(s.skip(1), sep);
        if r < 0 {
            -1
        } else {
            r + 1
        }
    }
}

/// The segments of `s` between occurrences of `sep`: always at least one
/// segment, one more per separator, separators not included.
pub open spec fn split_spec(s: Seq<u8>, sep: u8) -> Seq<Seq<u8>>
    decreases s.len(),
{
    let i = first_sep(s, sep);
    if 0 <= i < s.len() {
        seq![s.take(i)] + split_spec(s.skip(i + 1), sep)
    } else {
        seq![s]
    }
}

pub proof fn lemma_first_sep_props(s: Seq<u8>, sep: u8)
    ensures
        -1 <= first_sep(s, sep) < s.len(),
        first_sep(s, sep) >= 0 ==> s[first_sep(s, sep)] == sep,
        first_sep(s, sep) >= 0 ==> forall|k: int| 0 <= k < first_sep(s, sep) ==> s[k] != sep,
        first_sep(s, sep) == -1 ==> forall|k: int| 0 <= k < s.len() ==> s[k] != sep,
    decreases s.len(),
{
    if s.len() > 0 && s[0] != sep {
        lemma_first_sep_props(s.skip(1), sep);
        let fs = first_sep(s.skip(1), sep);
        if fs >= 0 {
            assert(s[fs + 1] == s.skip(1)[fs]);
            assert forall|k: int| 0 <= k < fs + 1 implies s[k] != sep by {
                if k > 0 {
                    assert(s[k] == s.skip(1)[k - 1]);
                }
            }
        } else {
            assert forall|k: int| 0 <= k < s.len() implies s[k] != sep by {
                if k > 0 {
                    assert(s[k] == s.skip(1)[k - 1]);
                }
            }
        }
    }
}

proof fn lemma_first_sep_at(s: Seq<u8>, sep: u8, i: int)
    requires
        0 <= i < s.len(),
        s[i] == sep,
        forall|k: int| 0 <= k < i ==> s[k] != sep,
    ensures
        first_sep(s, sep) == i,
    decreases i,
{
    if i > 0 {
        lemma_first_sep_at(s.skip(1), sep, i - 1);
    }
}

proof fn lemma_first_sep_none(s: Seq<u8>, sep: u8)
    requires
        forall|k: int| 0 <= k < s.len() ==> s[k] != sep,
    ensures
        first_sep(s, sep) == -1,
    decreases s.len(),
{
    if s.len() > 0 {
        lemma_first_sep_none(s.skip(1), sep);
    }
}

proof fn lemma_split_len(s: Seq<u8>, sep: u8)
    ensures
        split_spec(s, sep).len() >= 1,
    decreases s.len(),
{
    let i = first_sep(s, sep);
    if 0 <= i < s.len() {
        lemma_split_len(s.skip(i + 1), sep);
    }
}

/// Splitting off the first segment, when `i` is the first separator.
pub proof fn lemma_split_peel(s: Seq<u8>, sep: u8, i: int)
    requires
        0 <= i < s.len(),
        s[i] == sep,
        forall|k: int| 0 <= k < i ==> s[k] != sep,
    ensures
        split_spec(s, sep) == seq![s.take(i)] + split_spec(s.skip(i + 1), sep),
{
    lemma_first_sep_at(s, sep, i);
}

/// A string without the separator is one whole segment.
pub proof fn lemma_split_whole(s: Seq<u8>, sep: u8)
    requires
        forall|k: int| 0 <= k < s.len() ==> s[k] != sep,
    ensures
        split_spec(s, sep) == seq![s],
{
    lemma_first_sep_none(s, sep);
}

/// The byte views of a sequence of byte vectors.
pub open spec fn views_of(r: Seq<Vec<u8>>) -> Seq<Seq<u8>> {
    r.map_values(|v: Vec<u8>| v@)
}

/// Split `s` at every occurrence of `sep`.
pub fn split_bytes(s: &Vec<u8>, sep: u8) -> (r: Vec<Vec<u8>>)
    ensures
        views_of(r@) == split_spec(s@, sep),
{
    let mut r: Vec<Vec<u8>> = Vec::new();
    let mut cur: Vec<u8> = Vec::new();
    let ghost mut segstart: int = 0;
    let mut i: usize = 0;
    proof {
        assert(s@.skip(0) =~= s@);
        assert(views_of(r@) + split_spec(s@.skip(0), sep) =~~= split_spec(s@, sep));
    }
    while i < s.len()
        invariant
            0 <= segstart <= i <= s@.len(),
            cur@ == s@.subrange(segstart, i as int),
            forall|k: int| segstart <= k < i ==> s@[k] != sep,
            split_spec(s@, sep) == views_of(r@) + split_spec(s@.skip(segstart), sep),
        decreases s@.len() - i,
    {
        let c = s[i];
        if c == sep {
            proof {
                let t = s@.skip(segstart);
                let j = i - segstart;
                assert(t[j] == sep);
                assert forall|k: int| 0 <= k < j implies t[k] != sep by {
                    assert(t[k] == s@[segstart + k]);
                }
                lemma_split_peel(t, sep, j);
                assert(t.take(j) =~= s@.subrange(segstart, i as int));
                assert(t.skip(j + 1) =~= s@.skip(i + 1));
            }
            let ghost r0 = r@;
            let ghost cur0 = cur@;
            let ghost ss0 = segstart;
            r.push(cur);
            cur = Vec::new();
            proof {
                segstart = i + 1;
                assert(views_of(r@) =~~= views_of(r0) + seq![cur0]);
                assert(split_spec(s@, sep) =~~= views_of(r@) + split_spec(
                    s@.skip(segstart),
                    sep,
                )) by {
                    assert(split_spec(s@.skip(ss0), sep) == seq![cur0] + split_spec(
                        s@.skip(segstart),
                        sep,
                    ));
                }
                assert(cur@ =~= s@.subrange(segstart, i + 1));
            }
            i += 1;
        } else {
            cur.push(c);
            proof {
                assert(cur@ =~= s@.subrange(segstart, i + 1));
            }
            i += 1;
        }
    }
    proof {
        let t = s@.skip(segstart);
        assert forall|k: int| 0 <= k < t.len() implies t[k] != sep by {
            assert(t[k] == s@[segstart + k]);
        }
        lemma_split_whole(t, sep);
        assert(cur@ =~= t);
    }
    let ghost r0 = r@;
    let ghost cur0 = cur@;
    r.push(cur);
    proof {
        assert(views_of(r@) =~~= views_of(r0) + seq![cur0]);
        assert(views_of(r@) =~~= split_spec(s@, sep));
    }
    r
}

/// The byte is an ASCII decimal digit.
pub open spec fn is_digit(c: u8) -> bool {
    48 <= c <= 57
}

/// Every byte of `s` is a decimal digit.
pub open spec fn all_digits(s: Seq<u8>) -> bool {
    forall|k: int| 0 <= k < s.len() ==> is_digit(s[k])
}

/// The value of a digit string read in base ten; 0 when empty.
pub open spec fn digits_val(s: Seq<u8>) -> int
    decreases s.len(),
{
    if s.len() == 0 {
        0
    } else {
        10 * digits_val(s.drop_last()) + (s.last() - 48)
    }
}

proof fn lemma_digits_val_nonneg(s: Seq<u8>)
    requires
        all_digits(s),
    ensures
        digits_val(s) >= 0,
    decreases s.len(),
{
    if s.len() > 0 {
        assert(all_digits(s.drop_last()));
        lemma_digits_val_nonneg(s.drop_last());
    }
}

proof fn lemma_digits_val_push(t: Seq<u8>, c: u8)
    ensures
        digits_val(t.push(c)) == 10 * digits_val(t) + (c - 48),
{
    assert(t.push(c).drop_last() =~= t);
    assert(t.push(c).last() == c);
}

/// `v`, saturated at `cap`: exact up to the cap, the cap beyond it.
pub open spec fn sat_cap(v: int, cap: int) -> int {
    if v <= cap {
        v
    } else {
        cap
    }
}

/// The value of an all-digit string, saturated at `cap`; nothing when a
/// byte is not a digit.  The empty string has value 0.
pub fn digits_value_capped(s: &Vec<u8>, cap: u64) -> (r: Option<u64>)
    requires
        cap <= 0x1000_0000_0000_0000,
    ensures
        r is Some <==> all_digits(s@),
        r is Some ==> r.unwrap() == sat_cap(digits_val(s@), cap as int),
{
    let mut acc: u64 = 0;
    let mut i: usize = 0;
    while i < s.len()
        invariant
            cap <= 0x1000_0000_0000_0000,
            0 <= i <= s@.len(),
            all_digits(s@.take(i as int)),
            acc == sat_cap(digits_val(s@.take(i as int)), cap as int),
        decreases s@.len() - i,
    {
        let c = s[i];
        if c < 48 || c > 57 {
            return None;
        }
        proof {
            assert(s@.take(i as int).push(c) =~= s@.take(i + 1));
            lemma_digits_val_push(s@.take(i as int), c);
            lemma_digits_val_nonneg(s@.take(i as int));
        }
        let d = (c - 48) as u64;
        let next = acc * 10 + d;
        acc = if next > cap {
            cap
        } else {
            next
        };
        i += 1;
    }
    proof {
        assert(s@.take(s@.len() as int) =~= s@);
    }
    Some(acc)
}

/// Copy of `s` from position `from` on.
pub fn tail_from(s: &Vec<u8>, from: usize) -> (r: Vec<u8>)
    requires
        from <= s@.len(),
    ensures
        r@ == s@.skip(from as int),
{
    let mut r: Vec<u8> = Vec::new();
    let mut i = from;
    while i < s.len()
        invariant
            from <= i <= s@.len(),
            r@ == s@.subrange(from as int, i as int),
        decreases s@.len() - i,
    {
        let c = s[i];
        r.push(c);
        proof {
            assert(r@ =~= s@.subrange(from as int, i + 1));
        }
        i += 1;
    }
    proof {
        assert(r@ =~= s@.skip(from as int));
    }
    r
}

/// What an unsigned decimal field denotes: an optional leading `+`,
/// then at least one digit.
pub open spec fn parsed_uint(s: Seq<u8>) -> Option<int> {
    let body = if s.len() > 0 && s[0] == 43 {
        s.skip(1)
    } else {
        s
    };
    if body.len() > 0 && all_digits(body) {
        Some(digits_val(body))
    } else {
        None
    }
}

/// Parse an unsigned decimal field, saturated at `cap`.
pub fn parse_uint_capped(s: &Vec<u8>, cap: u64) -> (r: Option<u64>)
    requires
        cap <= 0x1000_0000_0000_0000,
    ensures
        r is Some <==> parsed_uint(s@) is Some,
        r is Some ==> r.unwrap() == sat_cap(parsed_uint(s@).unwrap(), cap as int),
{
    let body: Vec<u8> = if s.len() > 0 && s[0] == 43 {
        tail_from(s, 1)
    } else {
        tail_from(s, 0)
    };
    proof {
        assert(s@.skip(0) =~= s@);
    }
    if body.len() == 0 {
        return None;
    }
    digits_value_capped(&body, cap)
}

/// What a signed decimal field denotes: an optional `+` or `-`, then at
/// least one digit.
pub open spec fn parsed_int(s: Seq<u8>) -> Option<int> {
    if s.len() > 0 && s[0] == 45 {
        let mag = s.skip(1);
        if mag.len() > 0 && all_digits(mag) {
            Some(-digits_val(mag))
        } else {
            None
        }
    } else {
        parsed_uint(s)
    }
}

/// Parse a signed decimal field into an `i32`; nothing when malformed
/// or out of the `i32` range.
pub fn parse_i32(s: &Vec<u8>) -> (r: Option<i32>)
    ensures
        r is Some <==> (parsed_int(s@) is Some && -0x8000_0000 <= parsed_int(s@).unwrap()
            <= 0x7fff_ffff),
        r is Some ==> r.unwrap() == parsed_int(s@).unwrap(),
{
    if s.len() > 0 && s[0] == 45 {
        let mag = tail_from(s, 1);
        if mag.len() == 0 {
            return None;
        }
        match digits_value_capped(&mag, 0x8000_0001) {
            None => None,
            Some(v) => {
                if v <= 0x8000_0000 {
                    proof {
                        lemma_digits_val_nonneg(mag@);
                    }
                    Some((-(v as i64)) as i32)
                } else {
                    None
                }
            }
        }
    } else {
        match parse_uint_capped(s, 0x8000_0000) {
            None => None,
            Some(v) => {
                if v <= 0x7fff_ffff {
                    Some(v as i32)
                } else {
                    None
                }
            }
        }
    }
}

/// What a decimal-fraction field denotes, in tenths, truncated: an
/// optional `+`, an integer part, and an optional fraction after a dot,
/// of which only the first digit counts.  At least one digit must be
/// present on one side of the dot.
pub open spec fn parsed_tenths(s: Seq<u8>) -> Option<int> {
    let body = if s.len() > 0 && s[0] == 43 {
        s.skip(1)
    } else {
        s
    };
    let dot = first_sep(body, 46);
    if dot < 0 {
        if body.len() > 0 && all_digits(body) {
            Some(10 * digits_val(body))
        } else {
            None
        }
    } else {
        let ip = body.take(dot);
        let fp = body.skip(dot + 1);
        if (ip.len() > 0 || fp.len() > 0) && all_digits(ip) && all_digits(fp) {
            Some(10 * digits_val(ip) + (if fp.len() > 0 {
                fp[0] - 48
            } else {
                0
            }))
        } else {
            None
        }
    }
}

/// Parse a decimal-fraction field into tenths, saturated at 101, so
/// that every value above 100 -- a difficulty scalar out of range --
/// maps to 101.
pub fn parse_tenths(s: &Vec<u8>) -> (r: Option<u64>)
    ensures
        r is Some <==> parsed_tenths(s@) is Some,
        r is Some ==> r.unwrap() == sat_cap(parsed_tenths(s@).unwrap(), 101),
{
    let body: Vec<u8> = if s.len() > 0 && s[0] == 43 {
        tail_from(s, 1)
    } else {
        tail_from(s, 0)
    };
    proof {
        assert(s@.skip(0) =~= s@);
    }
    let parts = split_bytes(&body, 46);
    let ghost dot = first_sep(body@, 46);
    proof {
        lemma_first_sep_props(body@, 46);
        assert(views_of(parts@).len() == parts@.len());
        if dot >= 0 {
            lemma_split_peel(body@, 46, dot);
            lemma_split_len(body@.skip(dot + 1), 46);
            lemma_first_sep_props(body@.skip(dot + 1), 46);
        } else {
            lemma_split_whole(body@, 46);
        }
    }
    if parts.len() == 1 {
        proof {
            assert(dot < 0);
            assert(views_of(parts@)[0] == parts@[0]@);
        }
        if parts[0].len() == 0 {
            return None;
        }
        match digits_value_capped(&parts[0], 101) {
            None => None,
            Some(v) => {
                proof {
                    lemma_digits_val_nonneg(body@);
                }
                let t = 10 * v;
                Some(if t > 101 {
                    101
                } else {
                    t
                })
            }
        }
    } else if parts.len() == 2 {
        proof {
            assert(dot >= 0);
            assert(views_of(parts@)[0] == parts@[0]@);
            assert(views_of(parts@)[1] == parts@[1]@);
            assert(parts@[0]@ == body@.take(dot));
            let rest = body@.skip(dot + 1);
            assert(split_spec(rest, 46).len() == 1);
            if first_sep(rest, 46) >= 0 {
                lemma_split_peel(rest, 46, first_sep(rest, 46));
                lemma_split_len(rest.skip(first_sep(rest, 46) + 1), 46);
                assert(false);
            }
            lemma_split_whole(rest, 46);
            assert(parts@[1]@ == rest);
        }
        if parts[0].len() == 0 && parts[1].len() == 0 {
            return None;
        }
        let ipv = match digits_value_capped(&parts[0], 101) {
            None => {
                return None;
            }
            Some(v) => v,
        };
        if digits_value_capped(&parts[1], 101).is_none() {
            return None;
        }
        let frac: u64 = if parts[1].len() > 0 {
            let c = parts[1][0];
            (c - 48) as u64
        } else {
            0
        };
        proof {
            lemma_digits_val_nonneg(body@.take(dot));
        }
        let t = 10 * ipv + frac;
        Some(if t > 101 {
            101
        } else {
            t
        })
    } else {
        proof {
            assert(dot >= 0);
            let rest = body@.skip(dot + 1);
            assert(split_spec(rest, 46).len() >= 2);
            let d2 = first_sep(rest, 46);
            if d2 < 0 {
                lemma_split_whole(rest, 46);
                assert(false);
            }
            assert(rest[d2] == 46);
            assert(!is_digit(46));
            assert(!all_digits(rest));
        }
        None
    }
}

} // verus!
