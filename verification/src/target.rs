//! Reading a target from text: an entry count (`60`) or an over-coverage
//! percentage (`over-coverage=0.1%`). The percentage itself is a decimal
//! fraction that the caller reads.
use vstd::prelude::*;
use crate::error::OptimizerError;
use crate::text::{chars_of, text_from_chars, push_text};

verus! {

/// A target as written: an entry count, or the text of an over-coverage
/// percentage (without its `%`).
pub enum TargetRequest {
    EntryCount(usize),
    OverCoveragePercent(String),
}

/// The value of a string of decimal digits.
pub open spec fn digits_value(s: Seq<char>) -> int
    decreases s.len(),
{
    if s.len() == 0 {
        0
    } else {
        digits_value(s.drop_last()) * 10 + (s.last() as int - '0' as int)
    }
}

pub open spec fn is_digit(c: char) -> bool {
    '0' <= c <= '9'
}

/// Every character is a decimal digit.
pub open spec fn all_digits(d: Seq<char>) -> bool {
    forall|i: int| 0 <= i < d.len() ==> is_digit(#[trigger] d[i])
}

/// The text without a leading `+`.
pub open spec fn unsigned_digits(s: Seq<char>) -> Seq<char> {
    if s.len() > 0 && s[0] == '+' { s.drop_first() } else { s }
}

/// The unsigned integer the text holds, as `usize::from_str` reads it: an
/// optional `+`, then one or more decimal digits, with a value that fits.
pub open spec fn usize_value(s: Seq<char>) -> Option<usize> {
    let d = unsigned_digits(s);
    if d.len() > 0 && all_digits(d) && digits_value(d) <= usize::MAX {
        Some(digits_value(d) as usize)
    } else {
        None
    }
}

proof fn lemma_digits_value_grows(d: Seq<char>, k: int)
    requires
        0 <= k <= d.len(),
        forall|i: int| 0 <= i < d.len() ==> is_digit(#[trigger] d[i]),
    ensures
        0 <= digits_value(d.take(k)) <= digits_value(d),
    decreases d.len() - k,
{
    if k < d.len() {
        lemma_digits_value_grows(d, k + 1);
        assert(d.take(k + 1).drop_last() =~= d.take(k));
        assert(is_digit(d[k]));
    } else {
        assert(d.take(k) =~= d);
    }
    lemma_digits_value_nonneg(d);
}

proof fn lemma_digits_value_nonneg(d: Seq<char>)
    requires
        forall|i: int| 0 <= i < d.len() ==> is_digit(#[trigger] d[i]),
    ensures
        digits_value(d) >= 0,
    decreases d.len(),
{
    if d.len() > 0 {
        lemma_digits_value_nonneg(d.drop_last());
        assert(is_digit(d[d.len() - 1]));
    }
}

/// `usize::from_str`, on the characters of the text.
fn parse_usize(s: &Vec<char>) -> (r: Option<usize>)
    ensures
        r == usize_value(s@),
{
    let start: usize = if s.len() > 0 && s[0] == '+' { 1 } else { 0 };
    let ghost d = unsigned_digits(s@);
    proof {
        assert(d =~= s@.subrange(start as int, s@.len() as int));
    }
    if start >= s.len() {
        return None;
    }
    let mut value: usize = 0;
    let mut i: usize = start;
    while i < s.len()
        invariant
            start <= i <= s@.len(),
            d =~= s@.subrange(start as int, s@.len() as int),
            d == unsigned_digits(s@),
            forall|j: int| 0 <= j < i - start ==> is_digit(#[trigger] d[j]),
            value as int == digits_value(d.take(i - start)),
        decreases s@.len() - i,
    {
        let c = s[i];
        if !('0' <= c && c <= '9') {
            proof {
                assert(!is_digit(d[i - start]));
                assert(!(forall|j: int| 0 <= j < d.len() ==> is_digit(#[trigger] d[j])));
                assert(usize_value(s@) is None);
            }
            return None;
        }
        let dig = (c as u32 - '0' as u32) as usize;
        proof {
            assert(d.take(i - start + 1).drop_last() =~= d.take(i - start));
            assert(d[i - start] == c);
        }
        if value > (usize::MAX - dig) / 10 {
            proof {
                assert(value * 10 + dig > usize::MAX) by (nonlinear_arith)
                    requires value > (usize::MAX - dig) / 10, dig <= 9;
                if forall|j: int| 0 <= j < d.len() ==> is_digit(#[trigger] d[j]) {
                    lemma_digits_value_grows(d, i - start + 1);
                    assert(digits_value(d.take(i - start + 1)) == value * 10 + dig);
                    assert(digits_value(d) > usize::MAX);
                }
                assert(usize_value(s@) is None);
            }
            return None;
        }
        proof {
            assert(value * 10 + dig <= usize::MAX) by (nonlinear_arith)
                requires value <= (usize::MAX - dig) / 10, dig <= 9;
        }
        value = value * 10 + dig;
        i = i + 1;
    }
    proof {
        assert(d.take(d.len() as int) =~= d);
    }
    Some(value)
}

/// The tag that starts an over-coverage target.
pub open spec fn over_coverage_tag() -> Seq<char> {
    "over-coverage="@
}

/// The message for an over-coverage target without its `%`.
pub open spec fn missing_percent_message() -> Seq<char> {
    "over-coverage value must end with '%', e.g. over-coverage=0.1%"@
}

/// The message for a target that is neither form.
pub open spec fn invalid_target_message(s: Seq<char>) -> Seq<char> {
    "invalid target: '"@ + s + "' (expected integer or over-coverage=X%)"@
}

/// Reads a target: `over-coverage=` followed by a percentage and `%`, or an
/// entry count.
pub fn parse_target_request(s: &str) -> (r: Result<TargetRequest, OptimizerError>)
    ensures
        ({
            let tag = over_coverage_tag();
            if s@.len() >= tag.len() && s@.take(tag.len() as int) == tag {
                let rest = s@.skip(tag.len() as int);
                if rest.len() > 0 && rest.last() == '%' {
                    r matches Ok(TargetRequest::OverCoveragePercent(t)) && t@ == rest.drop_last()
                } else {
                    r matches Err(OptimizerError::TargetSpecParse { message }) && message@ == missing_percent_message()
                }
            } else {
                match usize_value(s@) {
                    Some(n) => r matches Ok(TargetRequest::EntryCount(m)) && m == n,
                    None => r matches Err(OptimizerError::TargetSpecParse { message })
                        && message@ == invalid_target_message(s@),
                }
            }
        }),
{
    let chars = chars_of(s);
    let tag = chars_of("over-coverage=");
    let mut is_tagged = chars.len() >= tag.len();
    let mut i: usize = 0;
    while is_tagged && i < tag.len()
        invariant
            i <= tag@.len(),
            tag@ == over_coverage_tag(),
            chars@ == s@,
            is_tagged ==> chars@.len() >= tag@.len() && forall|j: int| 0 <= j < i ==> chars@[j] == tag@[j],
            !is_tagged ==> !(s@.len() >= tag@.len() && s@.take(tag@.len() as int) == tag@),
        decreases tag@.len() - i, if is_tagged { 1int } else { 0int },
    {
        if chars[i] != tag[i] {
            is_tagged = false;
            proof {
                if s@.len() >= tag@.len() && s@.take(tag@.len() as int) == tag@ {
                    assert(s@.take(tag@.len() as int)[i as int] == s@[i as int]);
                }
            }
        } else {
            i = i + 1;
        }
    }
    if is_tagged {
        proof {
            assert(s@.take(tag@.len() as int) =~= tag@);
        }
        let n = tag.len();
        if chars.len() > n && chars[chars.len() - 1] == '%' {
            let mut rest: Vec<char> = Vec::new();
            let mut k: usize = n;
            while k < chars.len() - 1
                invariant
                    n <= k <= chars@.len() - 1,
                    chars@.len() > n,
                    rest@ == chars@.subrange(n as int, k as int),
                decreases chars@.len() - 1 - k,
            {
                rest.push(chars[k]);
                proof {
                    assert(rest@ =~= chars@.subrange(n as int, k + 1));
                }
                k = k + 1;
            }
            proof {
                assert(rest@ =~= s@.skip(n as int).drop_last());
            }
            Ok(TargetRequest::OverCoveragePercent(text_from_chars(rest.as_slice())))
        } else {
            proof {
                let rest = s@.skip(n as int);
                if rest.len() > 0 {
                    assert(rest.last() == chars@[chars@.len() - 1]);
                }
            }
            Err(OptimizerError::TargetSpecParse {
                message: text_from_chars(chars_of("over-coverage value must end with '%', e.g. over-coverage=0.1%").as_slice()),
            })
        }
    } else {
        match parse_usize(&chars) {
            Some(n) => Ok(TargetRequest::EntryCount(n)),
            None => {
                let mut message = String::new();
                push_text(&mut message, "invalid target: '");
                push_text(&mut message, s);
                push_text(&mut message, "' (expected integer or over-coverage=X%)");
                proof {
                    assert(message@ =~= invalid_target_message(s@));
                }
                Err(OptimizerError::TargetSpecParse { message })
            },
        }
    }
}

} // verus!
