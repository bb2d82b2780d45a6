//! The opponent a lobby request names: `easy`, `medium` and `hard` are the
//! scripted bots, `champion` is the reigning champion and `museum:{id}` any
//! stored genome by id. Anything else names no opponent; the server then
//! plays the hard bot, as it does when a named genome is not stored.
use vstd::prelude::*;
use vstd::string::StringSliceAdditionalSpecFns;

verus! {

/// The opponent a lobby request names.
#[derive(Clone, Copy, PartialEq, Eq, Structural, Debug)]
pub enum Opponent {
    Easy,
    Medium,
    Hard,
    Champion,
    /// A stored genome, by id.
    Museum(i64),
    /// Nothing this lobby knows.
    Unknown,
}

pub open spec fn is_digit(c: u8) -> bool {
    48 <= c <= 57
}

pub open spec fn all_digits(s: Seq<u8>) -> bool {
    forall|i: int| 0 <= i < s.len() ==> is_digit(#[trigger] s[i])
}

/// The value of a string of decimal digits.
pub open spec fn digits_value(s: Seq<u8>) -> int
    decreases s.len(),
{
    if s.len() == 0 {
        0
    } else {
        digits_value(s.drop_last()) * 10 + (s.last() - 48)
    }
}

/// A signed 64-bit decimal number: an optional `+` or `-`, then one or more
/// digits and nothing else; a value out of range is no number.
pub open spec fn spec_parse_i64(s: Seq<u8>) -> Option<i64> {
    let signed = s.len() > 0 && (s[0] == 45u8 || s[0] == 43u8);
    let digits = if signed {
        s.subrange(1, s.len() as int)
    } else {
        s
    };
    let v = if s.len() > 0 && s[0] == 45u8 {
        -digits_value(digits)
    } else {
        digits_value(digits)
    };
    if digits.len() == 0 || !all_digits(digits) {
        None
    } else if i64::MIN <= v <= i64::MAX {
        Some(v as i64)
    } else {
        None
    }
}

pub open spec fn easy_name() -> Seq<u8> {
    seq![101u8, 97u8, 115u8, 121u8]
}

pub open spec fn medium_name() -> Seq<u8> {
    seq![109u8, 101u8, 100u8, 105u8, 117u8, 109u8]
}

pub open spec fn hard_name() -> Seq<u8> {
    seq![104u8, 97u8, 114u8, 100u8]
}

pub open spec fn champion_name() -> Seq<u8> {
    seq![99u8, 104u8, 97u8, 109u8, 112u8, 105u8, 111u8, 110u8]
}

/// `museum:`
pub open spec fn museum_prefix() -> Seq<u8> {
    seq![109u8, 117u8, 115u8, 101u8, 117u8, 109u8, 58u8]
}

/// The opponent the request bytes `b` name.
pub open spec fn spec_opponent(b: Seq<u8>) -> Opponent {
    if b == easy_name() {
        Opponent::Easy
    } else if b == medium_name() {
        Opponent::Medium
    } else if b == hard_name() {
        Opponent::Hard
    } else if b == champion_name() {
        Opponent::Champion
    } else if b.len() >= 7 && b.subrange(0, 7) == museum_prefix() {
        match spec_parse_i64(b.subrange(7, b.len() as int)) {
            Some(id) => Opponent::Museum(id),
            None => Opponent::Unknown,
        }
    } else {
        Opponent::Unknown
    }
}

proof fn lemma_prefix_digits(s: Seq<u8>, k: int)
    requires
        0 <= k <= s.len(),
        all_digits(s),
    ensures
        all_digits(s.subrange(0, k)),
{
    assert forall|i: int| 0 <= i < k implies is_digit(#[trigger] s.subrange(0, k)[i]) by {
        assert(s.subrange(0, k)[i] == s[i]);
    }
}

proof fn lemma_digits_value_nonneg(s: Seq<u8>)
    requires
        all_digits(s),
    ensures
        digits_value(s) >= 0,
    decreases s.len(),
{
    if s.len() > 0 {
        lemma_prefix_digits(s, s.len() - 1);
        assert(s.subrange(0, s.len() - 1) =~= s.drop_last());
        assert(is_digit(s[s.len() - 1]));
        lemma_digits_value_nonneg(s.drop_last());
    }
}

/// Appending digits never lowers a number.
proof fn lemma_digits_value_grows(s: Seq<u8>, k: int)
    requires
        0 <= k <= s.len(),
        all_digits(s),
    ensures
        0 <= digits_value(s.subrange(0, k)) <= digits_value(s),
    decreases s.len() - k,
{
    lemma_prefix_digits(s, k);
    lemma_digits_value_nonneg(s.subrange(0, k));
    if k < s.len() {
        lemma_digits_value_grows(s, k + 1);
        let p = s.subrange(0, k + 1);
        assert(p.drop_last() =~= s.subrange(0, k));
        assert(p.last() == s[k]);
        assert(is_digit(s[k]));
        assert(digits_value(p) == digits_value(s.subrange(0, k)) * 10 + (s[k] - 48));
    } else {
        assert(s.subrange(0, k) =~= s);
    }
}

/// The number `b[start..]` spells, as `spec_parse_i64` reads it.
fn parse_i64(b: &[u8], start: usize) -> (r: Option<i64>)
    requires
        start <= b@.len(),
    ensures
        r == spec_parse_i64(b@.subrange(start as int, b@.len() as int)),
{
    let ghost s = b@.subrange(start as int, b@.len() as int);
    let n = b.len();
    let mut i = start;
    let mut neg = false;
    if i < n && (b[i] == 45u8 || b[i] == 43u8) {
        neg = b[i] == 45u8;
        i += 1;
    }
    let ghost sd = if s.len() > 0 && (s[0] == 45u8 || s[0] == 43u8) {
        s.subrange(1, s.len() as int)
    } else {
        s
    };
    proof {
        assert(sd =~= b@.subrange(i as int, n as int));
        assert(neg == (s.len() > 0 && s[0] == 45u8));
    }
    if i == n {
        return None;
    }
    let d0 = i;
    let limit: u64 = 9223372036854775808;
    let mut acc: u64 = 0;
    while i < n
        invariant
            s == b@.subrange(start as int, b@.len() as int),
            sd == (if s.len() > 0 && (s[0] == 45u8 || s[0] == 43u8) {
                s.subrange(1, s.len() as int)
            } else {
                s
            }),
            sd.len() > 0,
            neg == (s.len() > 0 && s[0] == 45u8),
            d0 <= i <= n,
            n == b@.len(),
            sd == b@.subrange(d0 as int, n as int),
            all_digits(b@.subrange(d0 as int, i as int)),
            acc == digits_value(b@.subrange(d0 as int, i as int)),
            acc <= limit,
            limit == 9223372036854775808u64,
        decreases n - i,
    {
        let c = b[i];
        if c < 48u8 || c > 57u8 {
            proof {
                assert(sd[i - d0] == c);
                assert(!is_digit(sd[i - d0]));
            }
            return None;
        }
        let ghost p = b@.subrange(d0 as int, i + 1);
        proof {
            assert(p.drop_last() =~= b@.subrange(d0 as int, i as int));
            assert(p.last() == c);
            assert forall|k: int| 0 <= k < i + 1 - d0 implies is_digit(#[trigger] p[k]) by {
                if k < i - d0 {
                    assert(p[k] == b@.subrange(d0 as int, i as int)[k]);
                }
            }
        }
        let next: u128 = (acc as u128) * 10 + ((c - 48u8) as u128);
        proof {
            assert(digits_value(p) == next);
        }
        if next > limit as u128 {
            // The value only grows with more digits: out of range for good,
            // unless a non-digit follows.
            proof {
                assert(p == b@.subrange(d0 as int, i + 1));
            }
            let mut j = i + 1;
            while j < n
                invariant
                    s == b@.subrange(start as int, b@.len() as int),
                    sd == (if s.len() > 0 && (s[0] == 45u8 || s[0] == 43u8) {
                        s.subrange(1, s.len() as int)
                    } else {
                        s
                    }),
                    sd.len() > 0,
                    neg == (s.len() > 0 && s[0] == 45u8),
                    digits_value(b@.subrange(d0 as int, i + 1)) > 9223372036854775808,
                    d0 < j <= n,
                    i < j,
                    n == b@.len(),
                    sd == b@.subrange(d0 as int, n as int),
                    all_digits(b@.subrange(d0 as int, j as int)),
                decreases n - j,
            {
                if b[j] < 48u8 || b[j] > 57u8 {
                    proof {
                        assert(sd[j - d0] == b@[j as int]);
                        assert(!is_digit(sd[j - d0]));
                    }
                    return None;
                }
                proof {
                    assert forall|k: int| 0 <= k < j + 1 - d0 implies is_digit(
                        #[trigger] b@.subrange(d0 as int, j + 1)[k],
                    ) by {
                        if k < j - d0 {
                            assert(b@.subrange(d0 as int, j + 1)[k] == b@.subrange(
                                d0 as int,
                                j as int,
                            )[k]);
                        }
                    }
                }
                j += 1;
            }
            proof {
                assert(b@.subrange(d0 as int, n as int) =~= sd);
                lemma_digits_value_grows(sd, i + 1 - d0);
                assert(sd.subrange(0, i + 1 - d0) =~= p);
            }
            return None;
        }
        acc = next as u64;
        i += 1;
    }
    proof {
        assert(b@.subrange(d0 as int, n as int) =~= sd);
    }
    if neg {
        if acc == limit {
            Some(i64::MIN)
        } else {
            Some(-(acc as i64))
        }
    } else {
        if acc == limit {
            None
        } else {
            Some(acc as i64)
        }
    }
}

/// The opponent a lobby request names.
pub fn parse_opponent(request: &str) -> (r: Opponent)
    ensures
        r == spec_opponent(request.spec_bytes()),
{
    let b = request.as_bytes();
    let n = b.len();
    if n == 4 && b[0] == 101u8 && b[1] == 97u8 && b[2] == 115u8 && b[3] == 121u8 {
        proof {
            assert(b@ =~= easy_name());
        }
        return Opponent::Easy;
    }
    if n == 6 && b[0] == 109u8 && b[1] == 101u8 && b[2] == 100u8 && b[3] == 105u8 && b[4] == 117u8
        && b[5] == 109u8 {
        proof {
            assert(b@ =~= medium_name());
        }
        return Opponent::Medium;
    }
    if n == 4 && b[0] == 104u8 && b[1] == 97u8 && b[2] == 114u8 && b[3] == 100u8 {
        proof {
            assert(b@ =~= hard_name());
        }
        return Opponent::Hard;
    }
    if n == 8 && b[0] == 99u8 && b[1] == 104u8 && b[2] == 97u8 && b[3] == 109u8 && b[4] == 112u8
        && b[5] == 105u8 && b[6] == 111u8 && b[7] == 110u8 {
        proof {
            assert(b@ =~= champion_name());
        }
        return Opponent::Champion;
    }
    if n >= 7 && b[0] == 109u8 && b[1] == 117u8 && b[2] == 115u8 && b[3] == 101u8 && b[4] == 117u8
        && b[5] == 109u8 && b[6] == 58u8 {
        proof {
            assert(b@.subrange(0, 7) =~= museum_prefix());
        }
        return match parse_i64(b, 7) {
            Some(id) => Opponent::Museum(id),
            None => Opponent::Unknown,
        };
    }
    Opponent::Unknown
}

} // verus!
