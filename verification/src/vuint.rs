//! The variable-length integer encoding used by the patch format.
//!
//! Numbers are stored little-endian in base 128. A byte with its high bit set
//! ends the number and supplies its low seven bits; every byte before it
//! supplies its value with the high bit forced on. Each byte's part is scaled
//! by 128 to the power of its position.

use vstd::prelude::*;

verus! {

/// Mathematical meaning of a variable-length integer sitting at the front of
/// `s`: the number of bytes it occupies together with its value, or `None`
/// when `s` runs out before a byte with its high bit set is found.
pub open spec fn vuint_decode(s: Seq<u8>) -> Option<(nat, nat)>
    decreases s.len(),
{
    if s.len() == 0 {
        None
    } else if s[0] & 0x80 != 0 {
        Some((1nat, (s[0] & 0x7f) as nat))
    } else {
        match vuint_decode(s.skip(1)) {
            None => None,
            Some((n, v)) => Some((n + 1, ((s[0] | 0x80) as nat) + 128 * v)),
        }
    }
}

/// `vuint_decode`, restricted to values that fit in a `usize`: what the
/// executable decoder can report.
pub open spec fn vuint_decode_usize(s: Seq<u8>) -> Option<(nat, nat)> {
    match vuint_decode(s) {
        None => None,
        Some((n, v)) => if v <= usize::MAX { Some((n, v)) } else { None },
    }
}

/// A successful decode consumes at least one byte and no more than the whole
/// input.
pub proof fn lemma_vuint_decode_len(s: Seq<u8>)
    ensures
        vuint_decode(s) matches Some(p) ==> 1 <= p.0 <= s.len(),
    decreases s.len(),
{
    if s.len() > 0 && s[0] & 0x80 == 0 {
        lemma_vuint_decode_len(s.skip(1));
    }
}

/// Decoding succeeds exactly when a terminating byte exists, and consumes the
/// bytes up to and including the first byte whose high bit is set: one more
/// than that byte's index.
pub proof fn lemma_vuint_consumed(s: Seq<u8>, i: int)
    requires
        0 <= i < s.len(),
        s[i] & 0x80 != 0,
        forall|k: int| 0 <= k < i ==> s[k] & 0x80 == 0,
    ensures
        vuint_decode(s) matches Some(p) && p.0 == i + 1,
    decreases i,
{
    if i == 0 {
    } else {
        assert(s[0] & 0x80 == 0);
        assert(s.skip(1)[i - 1] == s[i]);
        assert forall|k: int| 0 <= k < i - 1 implies s.skip(1)[k] & 0x80 == 0 by {
            assert(s.skip(1)[k] == s[k + 1]);
        }
        lemma_vuint_consumed(s.skip(1), i - 1);
    }
}

/// Links the partially accumulated state of the executable decoder to the
/// meaning of the whole input.
spec fn vuint_combine(idx: nat, acc: nat, factor: nat, rest: Option<(nat, nat)>) -> Option<(nat, nat)> {
    match rest {
        None => None,
        Some((n, v)) => Some((idx + n, acc + factor * v)),
    }
}

/// Decodes a variable-length integer from the front of `input`.
///
/// Returns the number of bytes consumed and the value. Returns `None` when no
/// byte with its high bit set is found before the input ends, or when the
/// value does not fit in a `usize`.
pub fn read_vuint(input: &[u8]) -> (r: Option<(usize, usize)>)
    ensures
        ({
            let d = vuint_decode_usize(input@);
            match r {
                Some(p) => d == Some((p.0 as nat, p.1 as nat)),
                None => d is None,
            }
        }),
{
    let mut acc: usize = 0;
    let mut factor: usize = 1;
    let mut idx: usize = 0;
    proof {
        assert(input@.skip(0) =~= input@);
    }
    loop
        invariant
            idx <= input@.len(),
            factor >= 1,
            vuint_decode(input@) == vuint_combine(
                idx as nat,
                acc as nat,
                factor as nat,
                vuint_decode(input@.skip(idx as int)),
            ),
        decreases input@.len() - idx,
    {
        if idx >= input.len() {
            assert(input@.skip(idx as int).len() == 0);
            return None;
        }
        let x: u8 = input[idx];
        let ghost suffix = input@.skip(idx as int);
        proof {
            assert(suffix[0] == input@[idx as int]);
            assert(input@.skip(idx as int + 1) =~= suffix.skip(1));
        }
        if x & 0x80 != 0 {
            let c: usize = (x & 0x7f) as usize;
            proof {
                assert(vuint_decode(suffix) == Some((1nat, c as nat)));
            }
            let term_part: usize = match c.checked_mul(factor) {
                Some(m) => m,
                None => {
                    proof {
                        lemma_total_exceeds(acc as nat, factor as nat, c as nat, c as nat);
                    }
                    return None;
                },
            };
            let value: usize = match acc.checked_add(term_part) {
                Some(v) => v,
                None => {
                    return None;
                },
            };
            return Some((idx + 1, value));
        } else {
            let c: usize = (x | 0x80) as usize;
            proof {
                assert(x | 0x80 >= 0x80) by (bit_vector);
                assert(vuint_decode(suffix) == match vuint_decode(suffix.skip(1)) {
                    None => None,
                    Some((n, v)) => Some((n + 1, (c + 128 * v) as nat)),
                });
            }
            let term_part: usize = match c.checked_mul(factor) {
                Some(m) => m,
                None => {
                    proof {
                        lemma_suffix_value_at_least(suffix, c as nat);
                        if vuint_decode(suffix) is Some {
                            lemma_total_exceeds(
                                acc as nat,
                                factor as nat,
                                vuint_decode(suffix)->Some_0.1,
                                c as nat,
                            );
                        }
                    }
                    return None;
                },
            };
            let new_acc: usize = match acc.checked_add(term_part) {
                Some(v) => v,
                None => {
                    proof {
                        lemma_suffix_value_at_least(suffix, c as nat);
                        if vuint_decode(suffix) is Some {
                            lemma_total_exceeds(
                                acc as nat,
                                factor as nat,
                                vuint_decode(suffix)->Some_0.1,
                                c as nat,
                            );
                        }
                    }
                    return None;
                },
            };
            let new_factor: usize = match factor.checked_mul(128) {
                Some(f) => f,
                None => {
                    proof {
                        assert(c as nat * factor as nat >= 128 * factor as nat)
                            by (nonlinear_arith)
                            requires c as nat >= 128, factor as nat >= 0,
                        ;
                    }
                    return None;
                },
            };
            proof {
                assert(term_part == c * factor);
                assert(new_acc as nat == acc as nat + c as nat * factor as nat);
                let d = vuint_decode(suffix.skip(1));
                if d is Some {
                    let (n, v) = d->Some_0;
                    assert(acc as nat + factor as nat * ((c as nat + 128 * v) as nat)
                        == new_acc as nat + new_factor as nat * v)
                        by (nonlinear_arith)
                        requires
                            new_acc as nat == acc as nat + c as nat * factor as nat,
                            new_factor as nat == factor as nat * 128,
                    ;
                }
            }
            acc = new_acc;
            factor = new_factor;
            idx = idx + 1;
        }
    }
}

/// The value of any decode that begins with a continuation byte of value `c`
/// is at least `c`.
proof fn lemma_suffix_value_at_least(suffix: Seq<u8>, c: nat)
    requires
        suffix.len() > 0,
        suffix[0] & 0x80 == 0,
        c == (suffix[0] | 0x80) as nat,
    ensures
        vuint_decode(suffix) matches Some(p) ==> p.1 >= c,
{
}

/// If the part owed to the current byte already exceeds `usize::MAX`, so
/// does the whole value.
proof fn lemma_total_exceeds(acc: nat, factor: nat, v: nat, c: nat)
    requires
        v >= c,
        acc + c * factor > usize::MAX || c * factor > usize::MAX,
    ensures
        acc + factor * v > usize::MAX,
{
    assert(factor * v >= factor * c && factor * c == c * factor) by (nonlinear_arith)
        requires v >= c, factor >= 0,
    ;
}

} // verus!
