//! The persistence format for trained networks: a plain text document of
//! fixed-width signed decimal tokens, one per line.  A population's
//! networks are flattened to a token list (counts first, then scalars) and
//! rendered token by token; decoding reverses both stages and validates
//! the networks it rebuilds.

use vstd::prelude::*;
use crate::neural_network::{NeuralNetwork, lemma_mat_deep_view, lemma_tensor_deep_view};
use vstd::arithmetic::div_mod::{
    lemma_div_pos_is_pos, lemma_fundamental_div_mod, lemma_div_denominator,
};

verus! {

/// Ten to the `k`.
pub open spec fn p10(k: nat) -> int
    decreases k,
{
    if k == 0 {
        1
    } else {
        10 * p10((k - 1) as nat)
    }
}

/// Digit character (ASCII) at decimal position `i` (0 = least
/// significant) of the nonnegative value `v`.
pub open spec fn digit_at(v: int, i: nat) -> u8 {
    (48 + ((v / p10(i)) % 10)) as u8
}

/// The 22-byte token for a signed value: a sign byte, twenty decimal
/// digits (most significant first), and a line feed.
pub open spec fn token_of(v: int) -> Seq<u8> {
    let m = if v >= 0 {
        v
    } else {
        -v
    };
    let sign: u8 = if v >= 0 {
        43u8
    } else {
        45u8
    };
    seq![sign] + Seq::new(20, |j: int| digit_at(m, (19 - j) as nat)) + seq![10u8]
}

/// Width of one token in bytes.
pub const TOKEN_BYTES: usize = 22;

proof fn lemma_p10_pos(k: nat)
    ensures
        p10(k) >= 1,
    decreases k,
{
    if k > 0 {
        lemma_p10_pos((k - 1) as nat);
    }
}

proof fn lemma_p10_20_bound()
    ensures
        p10(20) == 100_000_000_000_000_000_000,
        p10(19) == 10_000_000_000_000_000_000,
{
    assert(p10(0) == 1);
    assert(p10(1) == 10);
    assert(p10(2) == 100);
    assert(p10(3) == 1000);
    assert(p10(4) == 10000);
    assert(p10(5) == 100000);
    assert(p10(6) == 1000000);
    assert(p10(7) == 10000000);
    assert(p10(8) == 100000000);
    assert(p10(9) == 1000000000);
    assert(p10(10) == 10000000000);
    assert(p10(11) == 100000000000);
    assert(p10(12) == 1000000000000);
    assert(p10(13) == 10000000000000);
    assert(p10(14) == 100000000000000);
    assert(p10(15) == 1000000000000000);
    assert(p10(16) == 10000000000000000);
    assert(p10(17) == 100000000000000000);
    assert(p10(18) == 1000000000000000000);
    assert(p10(19) == 10000000000000000000);
    assert(p10(20) == 100000000000000000000);
}

/// The division identity behind positional digits: dropping one more
/// digit is dividing the quotient by ten.
proof fn lemma_digit_step(v: int, k: nat)
    requires
        v >= 0,
    ensures
        v / p10(k) == 10 * (v / p10((k + 1) as nat)) + (v / p10(k)) % 10,
{
    lemma_p10_pos(k);
    let q = v / p10(k);
    lemma_div_pos_is_pos(v, p10(k));
    lemma_fundamental_div_mod(q, 10);
    assert(q == 10 * (q / 10) + q % 10);
    lemma_div_denominator(v, p10(k), 10);
    assert(v / p10(k) / 10 == v / (p10(k) * 10));
    assert(p10(k) * 10 == 10 * p10(k)) by (nonlinear_arith);
    assert(p10((k + 1) as nat) == 10 * p10(k));
}

proof fn lemma_small_div_20(v: int)
    requires
        0 <= v < p10(20),
    ensures
        v / p10(20) == 0,
{
    lemma_p10_pos(20);
    vstd::arithmetic::div_mod::lemma_basic_div(v, p10(20));
}


/// Append the canonical token for `v` to `out`.
fn encode_token(v: i64, out: &mut Vec<u8>)
    requires
        v > i64::MIN,
        old(out)@.len() <= 100_000_000,
    ensures
        final(out)@ == old(out)@ + token_of(v as int),
{
    let sign: u8 = if v >= 0 {
        43
    } else {
        45
    };
    let m: u64 = if v >= 0 {
        v as u64
    } else {
        (-v) as u64
    };
    let ghost mv = m as int;
    out.push(sign);
    proof {
        lemma_p10_20_bound();
        lemma_p10_pos(19);
    }
    let mut pow: u64 = 10_000_000_000_000_000_000;
    let mut j: usize = 0;
    let ghost base = old(out)@ + seq![if v >= 0 { 43u8 } else { 45u8 }];
    while j < 20
        invariant
            0 <= j <= 20,
            j < 20 ==> pow as int == p10((19 - j) as nat) && pow >= 1,
            out@.len() == base.len() + j,
            out@.subrange(0, base.len() as int) == base,
            forall|q: int| 0 <= q < j ==> #[trigger] out@[base.len() + q] == digit_at(
                mv,
                (19 - q) as nat,
            ),
            mv == m as int,
        decreases 20 - j,
    {
        let d: u64 = (m / pow) % 10;
        let ghost pre = out@;
        out.push((48 + d) as u8);
        proof {
            assert(out@.subrange(0, base.len() as int) =~= base);
            assert((m as int) / (pow as int) == m as int / p10((19 - j) as nat));
            assert(out@[base.len() + j] == digit_at(mv, (19 - j) as nat));
            if j < 19 {
                assert(p10((19 - j) as nat) == 10 * p10((19 - (j + 1)) as nat));
                lemma_p10_pos((18 - j) as nat);
            }
        }
        if j < 19 {
            pow = pow / 10;
            proof {
                assert(pow as int == p10((19 - (j + 1)) as nat)) by {
                    assert((10 * p10((18 - j) as nat)) / 10 == p10((18 - j) as nat)) by {
                        vstd::arithmetic::div_mod::lemma_div_multiples_vanish(
                            p10((18 - j) as nat),
                            10,
                        );
                    }
                }
            }
        }
        j = j + 1;
    }
    out.push(10);
    proof {
        assert(mv == if v >= 0 { v as int } else { -(v as int) });
        let t = token_of(v as int);
        let l = old(out)@.len() as int;
        assert(t.len() == 22);
        assert(out@.len() == l + 22);
        assert forall|q: int| 0 <= q < 20 implies #[trigger] t[1 + q] == digit_at(
            mv,
            (19 - q) as nat,
        ) by {}
        assert forall|i: int| 0 <= i < out@.len() implies out@[i] == (old(out)@ + t)[i] by {
            if i < l {
                assert(out@.subrange(0, base.len() as int)[i] == base[i]);
            } else if i == l {
                assert(out@.subrange(0, base.len() as int)[i] == base[i]);
            } else if i < l + 21 {
                let q = i - l - 1;
                assert(out@[base.len() + q] == digit_at(mv, (19 - q) as nat));
                assert(t[1 + q] == digit_at(mv, (19 - q) as nat));
            } else {
                assert(t[21] == 10u8);
            }
        }
        assert(out@ =~= old(out)@ + t);
    }
}

/// Parse the token at `pos`; accepts exactly the canonical renderings.
fn decode_token(bytes: &Vec<u8>, pos: usize) -> (r: Option<i64>)
    requires
        pos + TOKEN_BYTES <= bytes@.len(),
        bytes@.len() <= 1_000_000_000,
    ensures
        forall|v: i64|
            v > i64::MIN && bytes@.subrange(pos as int, pos + TOKEN_BYTES as int)
                == token_of(v as int) ==> r == Some(v),
        r is Some ==> bytes@.subrange(pos as int, pos + TOKEN_BYTES as int) == token_of(
            r->0 as int,
        ),
        r is Some ==> r->0 > i64::MIN,
{
    let sign = bytes[pos];
    if sign != 43 && sign != 45 {
        proof {
            lemma_no_token_match(bytes@, pos as int, 0);
        }
        return None;
    }
    if bytes[pos + 21] != 10 {
        proof {
            lemma_no_token_match(bytes@, pos as int, 21);
        }
        return None;
    }
    let mut acc: u128 = 0;
    let mut j: usize = 0;
    let ghost win = bytes@.subrange(pos as int, pos + TOKEN_BYTES as int);
    proof {
        lemma_p10_20_bound();
    }
    while j < 20
        invariant
            0 <= j <= 20,
            pos + TOKEN_BYTES <= bytes@.len(),
            bytes@.len() <= 1_000_000_000,
            win == bytes@.subrange(pos as int, pos + TOKEN_BYTES as int),
            forall|q: int| 0 <= q < j ==> 48 <= #[trigger] win[1 + q] <= 57,
            acc as int == horner(win, j as int),
            (acc as int) < p10(j as nat),
            p10(20) == 100_000_000_000_000_000_000,
        decreases 20 - j,
    {
        let b = bytes[pos + 1 + j];
        if b < 48 || b > 57 {
            proof {
                assert(win[1 + j as int] == b);
                lemma_no_digit_match(bytes@, pos as int, j as int);
            }
            return None;
        }
        proof {
            lemma_p10_pos(j as nat);
            lemma_p10_pos((j + 1) as nat);
            assert(p10((j + 1) as nat) == 10 * p10(j as nat));
            assert(p10((j + 1) as nat) <= p10(20)) by {
                lemma_p10_monotone((j + 1) as nat, 20);
            }
        }
        acc = acc * 10 + ((b - 48) as u128);
        j = j + 1;
    }
    if sign == 45 && acc == 0 {
        proof {
            lemma_no_negative_zero(bytes@, pos as int);
        }
        return None;
    }
    let value: i64 = if acc <= 9_223_372_036_854_775_807u128 {
        if sign == 45 {
            -((acc as u64) as i64)
        } else {
            (acc as u64) as i64
        }
    } else {
        proof {
            lemma_token_small(bytes@, pos as int, acc as int);
        }
        return None;
    };
    proof {
        lemma_decode_correct(bytes@, pos as int, acc as int, sign == 45, value);
    }
    Some(value)
}

/// A window with a minus sign and an all-zero magnitude matches no
/// canonical token.
proof fn lemma_no_negative_zero(bytes: Seq<u8>, pos: int)
    requires
        0 <= pos,
        pos + 22 <= bytes.len(),
        bytes[pos] == 45,
        horner(bytes.subrange(pos, pos + 22), 20) == 0,
    ensures
        forall|v: i64| v > i64::MIN ==> bytes.subrange(pos, pos + 22) != token_of(v as int),
{
    assert forall|v: i64| v > i64::MIN implies bytes.subrange(pos, pos + 22) != token_of(
        v as int,
    ) by {
        if bytes.subrange(pos, pos + 22) == token_of(v as int) {
            let t = token_of(v as int);
            assert(bytes[pos] == t[0]);
            assert(v < 0);
            lemma_horner_of_token(v, 20);
            assert(-(v as int) / p10(0) == -(v as int)) by {
                vstd::arithmetic::div_mod::lemma_div_basics(-(v as int));
            }
        }
    }
}

/// Horner evaluation of the first `i` digit bytes of a token window.
pub open spec fn horner(win: Seq<u8>, i: int) -> int
    decreases i,
{
    if i <= 0 {
        0
    } else {
        10 * horner(win, i - 1) + (win[i] - 48)
    }
}

proof fn lemma_p10_monotone(a: nat, b: nat)
    requires
        a <= b,
    ensures
        p10(a) <= p10(b),
    decreases b,
{
    if a < b {
        lemma_p10_monotone(a, (b - 1) as nat);
        lemma_p10_pos((b - 1) as nat);
    }
}

/// A canonical token has the sign byte at 0, digits at 1..=20 and a line
/// feed at 21.
proof fn lemma_no_token_match(bytes: Seq<u8>, pos: int, off: int)
    requires
        0 <= pos,
        pos + 22 <= bytes.len(),
        off == 0 || off == 21,
        off == 0 ==> bytes[pos] != 43 && bytes[pos] != 45,
        off == 21 ==> bytes[pos + 21] != 10,
    ensures
        forall|v: i64| bytes.subrange(pos, pos + 22) != token_of(v as int),
{
    assert forall|v: i64| bytes.subrange(pos, pos + 22) != token_of(v as int) by {
        let t = token_of(v as int);
        if bytes.subrange(pos, pos + 22) == t {
            assert(bytes[pos] == t[0]);
            assert(bytes[pos + 21] == t[21]);
        }
    }
}

/// A canonical token has digit bytes in the digit range.
proof fn lemma_no_digit_match(bytes: Seq<u8>, pos: int, j: int)
    requires
        0 <= pos,
        0 <= j < 20,
        pos + 22 <= bytes.len(),
        bytes[pos + 1 + j] < 48 || bytes[pos + 1 + j] > 57,
    ensures
        forall|v: i64| bytes.subrange(pos, pos + 22) != token_of(v as int),
{
    assert forall|v: i64| bytes.subrange(pos, pos + 22) != token_of(v as int) by {
        let t = token_of(v as int);
        if bytes.subrange(pos, pos + 22) == t {
            let m = if v >= 0 {
                v as int
            } else {
                -(v as int)
            };
            assert(bytes[pos + 1 + j] == t[1 + j]);
            assert(t[1 + j] == digit_at(m, (19 - j) as nat));
            lemma_p10_pos((19 - j) as nat);
            lemma_div_pos_is_pos(m, p10((19 - j) as nat));
            assert(48 <= digit_at(m, (19 - j) as nat) <= 57);
        }
    }
}

/// The Horner value of a canonical token's digits is its magnitude.
proof fn lemma_horner_of_token(v: i64, i: int)
    requires
        0 <= i <= 20,
    ensures
        horner(token_of(v as int), i) == ({
            let m = if v >= 0 {
                v as int
            } else {
                -(v as int)
            };
            m / p10((20 - i) as nat)
        }),
    decreases i,
{
    let m = if v >= 0 {
        v as int
    } else {
        -(v as int)
    };
    let t = token_of(v as int);
    lemma_p10_20_bound();
    if i == 0 {
        lemma_small_div_20(m);
    } else {
        lemma_horner_of_token(v, i - 1);
        assert(t[i] == digit_at(m, (20 - i) as nat));
        lemma_digit_step(m, (20 - i) as nat);
        lemma_p10_pos((20 - i) as nat);
        lemma_div_pos_is_pos(m, p10((20 - i) as nat));
        vstd::arithmetic::div_mod::lemma_mod_bound(m / p10((20 - i) as nat), 10);
        assert(digit_at(m, (20 - i) as nat) - 48 == (m / p10((20 - i) as nat)) % 10);
    }
}

/// A magnitude above the signed range cannot come from a token.
proof fn lemma_token_small(bytes: Seq<u8>, pos: int, acc: int)
    requires
        0 <= pos,
        pos + 22 <= bytes.len(),
        acc == horner(bytes.subrange(pos, pos + 22), 20),
        acc > i64::MAX,
    ensures
        forall|v: i64| v > i64::MIN ==> bytes.subrange(pos, pos + 22) != token_of(v as int),
{
    assert forall|v: i64| v > i64::MIN implies bytes.subrange(pos, pos + 22) != token_of(
        v as int,
    ) by {
        if bytes.subrange(pos, pos + 22) == token_of(v as int) {
            lemma_horner_of_token(v, 20);
            let m = if v >= 0 {
                v as int
            } else {
                -(v as int)
            };
            assert(m / p10(0) == m) by {
                vstd::arithmetic::div_mod::lemma_div_basics(m);
            }
            assert(m <= i64::MAX);
        }
    }
}

/// The parsed value matches any canonical token the window equals, and
/// the window is the canonical token of the parsed value.
proof fn lemma_decode_correct(bytes: Seq<u8>, pos: int, acc: int, negative: bool, value: i64)
    requires
        0 <= pos,
        pos + 22 <= bytes.len(),
        bytes[pos] == if negative {
            45u8
        } else {
            43u8
        },
        bytes[pos] == 43 || bytes[pos] == 45,
        bytes[pos + 21] == 10,
        forall|q: int| 0 <= q < 20 ==> 48 <= #[trigger] bytes.subrange(pos, pos + 22)[1 + q]
            <= 57,
        acc == horner(bytes.subrange(pos, pos + 22), 20),
        0 <= acc <= i64::MAX,
        negative ==> acc > 0,
        value as int == if negative {
            -acc
        } else {
            acc
        },
    ensures
        bytes.subrange(pos, pos + 22) == token_of(value as int),
        forall|v: i64|
            v > i64::MIN && bytes.subrange(pos, pos + 22) == token_of(v as int) ==> v
                == value,
{
    let win = bytes.subrange(pos, pos + 22);
    let m = if value >= 0 {
        value as int
    } else {
        -(value as int)
    };
    assert(m == acc);
    lemma_p10_20_bound();
    assert forall|j: int| 0 <= j < 20 implies #[trigger] win[1 + j] == digit_at(m, (19 - j) as nat) by {
        lemma_win_digit(win, m, j);
    }
    let t = token_of(value as int);
    assert(t.len() == 22);
    assert(win[0] == t[0]);
    assert(t[21] == 10u8);
    assert forall|j: int| 0 <= j < 20 implies #[trigger] t[1 + j] == digit_at(
        m,
        (19 - j) as nat,
    ) by {}
    assert forall|i: int| 0 <= i < 22 implies win[i] == t[i] by {
        if 1 <= i <= 20 {
            let q = i - 1;
            assert(win[1 + q] == digit_at(m, (19 - q) as nat));
            assert(t[1 + q] == digit_at(m, (19 - q) as nat));
        }
    }
    assert(win =~= t);
    assert forall|v: i64|
        v > i64::MIN && bytes.subrange(pos, pos + 22) == token_of(v as int) implies v
        == value by {
        lemma_horner_of_token(v, 20);
        let mv = if v >= 0 {
            v as int
        } else {
            -(v as int)
        };
        assert(mv / p10(0) == mv) by {
            vstd::arithmetic::div_mod::lemma_div_basics(mv);
        }
        assert(mv == acc);
        assert(token_of(v as int)[0] == win[0]);
    }
}

/// Each digit byte of an accepted window is the positional digit of the
/// Horner value.
proof fn lemma_win_digit(win: Seq<u8>, m: int, j: int)
    requires
        win.len() == 22,
        0 <= j < 20,
        forall|q: int| 0 <= q < 20 ==> 48 <= #[trigger] win[1 + q] <= 57,
        m == horner(win, 20),
        0 <= m < p10(20),
    ensures
        win[1 + j] == digit_at(m, (19 - j) as nat),
{
    lemma_horner_digit(win, 20, j);
}

/// Horner values recover their digits: digit `j` (most significant
/// first) of `horner(win, i)` is the byte that produced it.
proof fn lemma_horner_digit(win: Seq<u8>, i: int, j: int)
    requires
        win.len() == 22,
        0 <= j < i <= 20,
        forall|q: int| 0 <= q < 20 ==> 48 <= #[trigger] win[1 + q] <= 57,
        horner(win, i) < p10(i as nat),
    ensures
        (horner(win, i) / p10((i - 1 - j) as nat)) % 10 == win[1 + j] - 48,
        horner(win, i) >= 0,
    decreases i,
{
    lemma_horner_nonneg(win, i);
    let h = horner(win, i);
    let hp = horner(win, i - 1);
    lemma_horner_nonneg(win, i - 1);
    lemma_horner_bound(win, i - 1);
    assert(win[i] == win[1 + (i - 1)]);
    assert(48 <= win[1 + (i - 1)] <= 57);
    if j == i - 1 {
        // h == 10 * hp + d, so h / 1 % 10 == d given d < 10
        lemma_p10_pos(0);
        assert(h / p10(0) == h) by {
            vstd::arithmetic::div_mod::lemma_div_basics_1(h);
        }
        assert(h % 10 == (win[i] - 48)) by {
            assert(h == hp * 10 + (win[i] - 48)) by (nonlinear_arith)
                requires
                    h == 10 * hp + (win[i] - 48),
            ;
            vstd::arithmetic::div_mod::lemma_fundamental_div_mod_converse_mod(
                h,
                10,
                hp,
                win[i] - 48,
            );
        }
        assert((h / p10(0)) % 10 == h % 10) by {
            vstd::arithmetic::div_mod::lemma_div_basics(h);
        }
    } else {
        lemma_horner_digit(win, i - 1, j);
        // h / p10(i-1-j) == hp / p10(i-2-j), because h == 10*hp + d
        let k = (i - 1 - j) as nat;
        lemma_p10_pos((k - 1) as nat);
        assert(h / p10(k) == hp / p10((k - 1) as nat)) by {
            assert(p10(k) == 10 * p10((k - 1) as nat));
            lemma_div_denominator(h, 10, p10((k - 1) as nat));
            assert(h / 10 == hp) by {
                assert(h == hp * 10 + (win[i] - 48)) by (nonlinear_arith)
                    requires
                        h == 10 * hp + (win[i] - 48),
                ;
                vstd::arithmetic::div_mod::lemma_fundamental_div_mod_converse_div(
                    h,
                    10,
                    hp,
                    win[i] - 48,
                );
            }
        }
    }
}

proof fn lemma_horner_nonneg(win: Seq<u8>, i: int)
    requires
        win.len() == 22,
        i <= 20,
        forall|q: int| 0 <= q < 20 ==> 48 <= #[trigger] win[1 + q] <= 57,
    ensures
        horner(win, i) >= 0,
    decreases i,
{
    if i > 0 {
        lemma_horner_nonneg(win, i - 1);
        if 1 <= i <= 20 {
            assert(win[i] == win[1 + (i - 1)]);
            assert(48 <= win[1 + (i - 1)] <= 57);
        }
    }
}

proof fn lemma_horner_bound(win: Seq<u8>, i: int)
    requires
        win.len() == 22,
        0 <= i <= 20,
        forall|q: int| 0 <= q < 20 ==> 48 <= #[trigger] win[1 + q] <= 57,
    ensures
        horner(win, i) < p10(i as nat),
    decreases i,
{
    if i > 0 {
        lemma_horner_bound(win, i - 1);
        lemma_p10_pos((i - 1) as nat);
        assert(win[i] == win[1 + (i - 1)]);
        assert(48 <= win[1 + (i - 1)] <= 57);
    }
}

/// The byte stream for a value list: a count token followed by one token
/// per value.
pub open spec fn stream_for(vs: Seq<i64>, bytes: Seq<u8>) -> bool {
    &&& bytes.len() == 22 * (vs.len() + 1)
    &&& bytes.subrange(0, 22) == token_of(vs.len() as int)
    &&& forall|k: int| 0 <= k < vs.len() ==> bytes.subrange(22 * (k + 1), 22 * (k + 2))
        == token_of(#[trigger] vs[k] as int)
}

/// Render a value list as its token stream.
pub fn encode_values(values: &Vec<i64>) -> (r: Vec<u8>)
    requires
        values@.len() <= 4_000_000,
        forall|k: int| 0 <= k < values@.len() ==> #[trigger] values@[k] > i64::MIN,
    ensures
        stream_for(values@, r@),
{
    let mut r: Vec<u8> = Vec::new();
    encode_token(values.len() as i64, &mut r);
    let ghost head = r@;
    let mut k: usize = 0;
    while k < values.len()
        invariant
            0 <= k <= values@.len() <= 4_000_000,
            forall|q: int| 0 <= q < values@.len() ==> #[trigger] values@[q] > i64::MIN,
            head == token_of(values@.len() as int),
            head.len() == 22,
            r@.len() == 22 * (k + 1),
            r@.subrange(0, 22) == head,
            forall|q: int| 0 <= q < k ==> r@.subrange(22 * (q + 1), 22 * (q + 2))
                == token_of(#[trigger] values@[q] as int),
        decreases values@.len() - k,
    {
        let ghost pre = r@;
        encode_token(values[k], &mut r);
        proof {
            assert(r@.subrange(0, 22) =~= head);
            assert(r@.subrange(22 * (k + 1), 22 * (k + 2)) =~= token_of(
                values@[k as int] as int,
            ));
            assert forall|q: int| 0 <= q < k implies r@.subrange(
                22 * (q + 1),
                22 * (q + 2),
            ) == token_of(#[trigger] values@[q] as int) by {
                assert(r@.subrange(22 * (q + 1), 22 * (q + 2)) =~= pre.subrange(
                    22 * (q + 1),
                    22 * (q + 2),
                ));
            }
        }
        k = k + 1;
    }
    r
}

/// Parse a token stream back into its value list; accepts exactly the
/// canonical streams.
pub fn decode_values(bytes: &Vec<u8>) -> (r: Option<Vec<i64>>)
    requires
        bytes@.len() <= 1_000_000_000,
    ensures
        r is Some ==> stream_for(r->0@, bytes@) && forall|k: int|
            0 <= k < r->0@.len() ==> #[trigger] r->0@[k] > i64::MIN,
        forall|vs: Seq<i64>|
            vs.len() <= 4_000_000 && (forall|k: int| 0 <= k < vs.len()
                ==> #[trigger] vs[k] > i64::MIN) && #[trigger] stream_for(vs, bytes@)
                ==> r is Some && r->0@ == vs,
{
    if bytes.len() < 22 || bytes.len() % 22 != 0 {
        proof {
            assert forall|vs: Seq<i64>|
                vs.len() <= 4_000_000 && (forall|k: int| 0 <= k < vs.len()
                    ==> #[trigger] vs[k] > i64::MIN) && #[trigger] stream_for(vs, bytes@)
                    implies false by {
                assert(bytes@.len() == 22 * (vs.len() + 1));
                assert((22 * (vs.len() + 1)) % 22 == 0) by (nonlinear_arith);
            }
        }
        return None;
    }
    let count_token = match decode_token(bytes, 0) {
        Some(v) => v,
        None => {
            return None;
        },
    };
    if count_token < 0 || count_token > 4_000_000 {
        proof {
            lemma_stream_count(bytes@, count_token as int);
        }
        return None;
    }
    let n = count_token as usize;
    if bytes.len() != 22 * (n + 1) {
        proof {
            lemma_stream_count(bytes@, count_token as int);
        }
        return None;
    }
    let mut out: Vec<i64> = Vec::new();
    let mut k: usize = 0;
    while k < n
        invariant
            0 <= k <= n <= 4_000_000,
            bytes@.len() == 22 * (n + 1),
            bytes@.len() <= 1_000_000_000,
            bytes@.subrange(0, 22) == token_of(n as int),
            out@.len() == k,
            forall|q: int| 0 <= q < k ==> bytes@.subrange(22 * (q + 1), 22 * (q + 2))
                == token_of(#[trigger] out@[q] as int),
            forall|q: int| 0 <= q < k ==> #[trigger] out@[q] > i64::MIN,
        decreases n - k,
    {
        let v = match decode_token(bytes, 22 * (k + 1)) {
            Some(v) => v,
            None => {
                proof {
                    lemma_stream_token(bytes@, n as int, k as int);
                }
                return None;
            },
        };
        out.push(v);
        k = k + 1;
    }
    proof {
        assert(stream_for(out@, bytes@));
        assert forall|vs: Seq<i64>|
            vs.len() <= 4_000_000 && (forall|q: int| 0 <= q < vs.len()
                ==> #[trigger] vs[q] > i64::MIN) && #[trigger] stream_for(vs, bytes@)
                implies out@ == vs by {
            assert(token_of(vs.len() as int) == token_of(out@.len() as int));
            lemma_token_injective(vs.len() as int, out@.len() as int);
            assert forall|q: int| 0 <= q < vs.len() implies vs[q] == out@[q] by {
                assert(bytes@.subrange(22 * (q + 1), 22 * (q + 2)) == token_of(
                    vs[q] as int,
                ));
                lemma_token_injective(vs[q] as int, out@[q] as int);
            }
            assert(out@ =~= vs);
        }
    }
    Some(out)
}

/// Equal tokens come from equal values.
proof fn lemma_token_injective(a: int, b: int)
    requires
        token_of(a) == token_of(b),
        -0x8000_0000_0000_0000 <= a <= 0x7fff_ffff_ffff_ffff,
        -0x8000_0000_0000_0000 <= b <= 0x7fff_ffff_ffff_ffff,
    ensures
        a == b,
{
    let ta = token_of(a);
    let ma = if a >= 0 {
        a
    } else {
        -a
    };
    let mb = if b >= 0 {
        b
    } else {
        -b
    };
    lemma_p10_20_bound();
    assert(token_of(a)[0] == if a >= 0 { 43u8 } else { 45u8 });
    assert(token_of(b)[0] == if b >= 0 { 43u8 } else { 45u8 });
    assert(token_of(a)[0] == token_of(b)[0]);
    lemma_token_value_recover(a);
    lemma_token_value_recover(b);
    assert(horner(token_of(a), 20) == ma);
    assert(horner(token_of(b), 20) == mb);
    assert(ma == mb);
    if a >= 0 && b < 0 {
        assert(false);
    }
    if a < 0 && b >= 0 {
        assert(false);
    }
}

/// The Horner value of a signed value's token is its magnitude.
proof fn lemma_token_value_recover(a: int)
    requires
        -0x8000_0000_0000_0000 <= a <= 0x7fff_ffff_ffff_ffff,
    ensures
        horner(token_of(a), 20) == if a >= 0 {
            a
        } else {
            -a
        },
{
    let v = a as i64;
    assert(v as int == a);
    lemma_horner_of_token(v, 20);
    let m = if a >= 0 {
        a
    } else {
        -a
    };
    assert(m / p10(0) == m) by {
        vstd::arithmetic::div_mod::lemma_div_basics(m);
    }
}

/// In a canonical stream, the count token determines the length.
proof fn lemma_stream_count(bytes: Seq<u8>, count: int)
    requires
        bytes.len() >= 22,
        bytes.subrange(0, 22) == token_of(count),
        -0x8000_0000_0000_0000 < count <= 0x7fff_ffff_ffff_ffff,
    ensures
        forall|vs: Seq<i64>|
            #[trigger] stream_for(vs, bytes) && vs.len() <= 4_000_000 ==> vs.len() as int
                == count && bytes.len() == 22 * (count + 1),
{
    assert forall|vs: Seq<i64>|
        #[trigger] stream_for(vs, bytes) && vs.len() <= 4_000_000 implies vs.len() as int
        == count && bytes.len() == 22 * (count + 1) by {
        assert(bytes.subrange(0, 22) == token_of(vs.len() as int));
        lemma_token_injective(vs.len() as int, count);
    }
}

/// In a canonical stream of `n` values, every value token parses.
proof fn lemma_stream_token(bytes: Seq<u8>, n: int, k: int)
    requires
        0 <= k < n,
        bytes.len() == 22 * (n + 1),
        bytes.subrange(0, 22) == token_of(n),
        0 <= n <= 4_000_000,
    ensures
        forall|vs: Seq<i64>|
            #[trigger] stream_for(vs, bytes) && vs.len() <= 4_000_000 && (forall|q: int|
                0 <= q < vs.len() ==> #[trigger] vs[q] > i64::MIN) ==> bytes.subrange(
                22 * (k + 1),
                22 * (k + 2),
            ) == token_of(vs[k] as int) && vs[k] > i64::MIN,
{
    assert forall|vs: Seq<i64>|
        #[trigger] stream_for(vs, bytes) && vs.len() <= 4_000_000 && (forall|q: int|
            0 <= q < vs.len() ==> #[trigger] vs[q] > i64::MIN) implies bytes.subrange(
        22 * (k + 1),
        22 * (k + 2),
    ) == token_of(vs[k] as int) && vs[k] > i64::MIN by {
        assert(bytes.subrange(0, 22) == token_of(vs.len() as int));
        lemma_token_injective(vs.len() as int, n);
        assert(vs.len() as int == n);
        assert(bytes.subrange(22 * (k + 1), 22 * (k + 2)) == token_of(vs[k] as int));
    }
}

/// The first `i` rows of a matrix, concatenated.
pub open spec fn flat_rows(m: Seq<Seq<i64>>, i: int) -> Seq<i64>
    decreases i,
{
    if i <= 0 {
        Seq::empty()
    } else {
        flat_rows(m, i - 1) + m[i - 1]
    }
}

/// The width of the signal entering transition `t` of a weight tensor.
pub open spec fn width_in(input: int, ww: Seq<Seq<Seq<i64>>>, t: int) -> int {
    if t <= 0 {
        input
    } else {
        ww[t - 1].len() as int
    }
}

/// One layer transition as scalars: row count, column count, the weight
/// rows in order, then the biases.
pub open spec fn flat_block(
    ww: Seq<Seq<Seq<i64>>>,
    bb: Seq<Seq<i64>>,
    input: int,
    t: int,
) -> Seq<i64> {
    let m = ww[t];
    seq![m.len() as i64, width_in(input, ww, t) as i64] + flat_rows(m, m.len() as int)
        + bb[t]
}

/// The first `t` layer transitions as scalars.
pub open spec fn flat_mats(
    ww: Seq<Seq<Seq<i64>>>,
    bb: Seq<Seq<i64>>,
    input: int,
    t: int,
) -> Seq<i64>
    decreases t,
{
    if t <= 0 {
        Seq::empty()
    } else {
        flat_mats(ww, bb, input, t - 1) + flat_block(ww, bb, input, t - 1)
    }
}

/// One network as scalars: input size, output size, transition count,
/// then the transitions.
pub open spec fn flat_net(n: NeuralNetwork) -> Seq<i64> {
    seq![
        n.input_size as i64,
        n.output_size as i64,
        n.weights.deep_view().len() as i64,
    ] + flat_mats(
        n.weights.deep_view(),
        n.biases.deep_view(),
        n.input_size as int,
        n.weights.deep_view().len() as int,
    )
}

/// The flat form of a transition prefix depends only on that prefix.
proof fn lemma_flat_mats_stable(
    ww1: Seq<Seq<Seq<i64>>>,
    bb1: Seq<Seq<i64>>,
    ww2: Seq<Seq<Seq<i64>>>,
    bb2: Seq<Seq<i64>>,
    input: int,
    t: int,
)
    requires
        forall|q: int| 0 <= q < t ==> #[trigger] ww1[q] == ww2[q],
        forall|q: int| 0 <= q < t ==> #[trigger] bb1[q] == bb2[q],
    ensures
        flat_mats(ww1, bb1, input, t) == flat_mats(ww2, bb2, input, t),
    decreases t,
{
    if t > 0 {
        lemma_flat_mats_stable(ww1, bb1, ww2, bb2, input, t - 1);
        assert(flat_block(ww1, bb1, input, t - 1) == flat_block(ww2, bb2, input, t - 1)) by {
            if t - 1 > 0 {
                assert(ww1[t - 2] == ww2[t - 2]);
            }
            assert(ww1[t - 1] == ww2[t - 1]);
            assert(bb1[t - 1] == bb2[t - 1]);
        }
    }
}

/// The first `i` networks as scalars.
pub open spec fn flat_nets(ns: Seq<NeuralNetwork>, i: int) -> Seq<i64>
    decreases i,
{
    if i <= 0 {
        Seq::empty()
    } else {
        flat_nets(ns, i - 1) + flat_net(ns[i - 1])
    }
}

/// A whole network table as scalars: the table length, then each network.
pub open spec fn flat_pop(ns: Seq<NeuralNetwork>) -> Seq<i64> {
    seq![ns.len() as i64] + flat_nets(ns, ns.len() as int)
}

/// Append the scalars of one network to `out`.
fn flatten_one(n: &NeuralNetwork, out: &mut Vec<i64>)
    requires
        n.wf(),
        n.weights.deep_view().len() <= 1_000_000,
    ensures
        final(out)@ == old(out)@ + flat_net(*n),
        forall|k: int| old(out)@.len() <= k < final(out)@.len()
            ==> #[trigger] final(out)@[k] > i64::MIN,
        forall|k: int| 0 <= k < old(out)@.len()
            ==> #[trigger] final(out)@[k] == old(out)@[k],
{
    proof {
        lemma_tensor_deep_view(&n.weights);
        lemma_mat_deep_view(&n.biases);
    }
    let ghost ww = n.weights.deep_view();
    let ghost start = out@;
    out.push(n.input_size as i64);
    out.push(n.output_size as i64);
    out.push(n.weights.len() as i64);
    let mut t: usize = 0;
    while t < n.weights.len()
        invariant
            0 <= t <= ww.len() <= 1_000_000,
            n.wf(),
            ww == n.weights.deep_view(),
            out@ == start + seq![
                n.input_size as i64,
                n.output_size as i64,
                ww.len() as i64,
            ] + flat_mats(ww, n.biases.deep_view(), n.input_size as int, t as int),
            forall|k: int| start.len() <= k < out@.len() ==> #[trigger] out@[k]
                > i64::MIN,
            forall|k: int| 0 <= k < start.len() ==> #[trigger] out@[k] == start[k],
        decreases ww.len() - t,
    {
        proof {
            lemma_mat_deep_view(&n.weights@[t as int]);
            assert(ww[t as int] == n.weights@[t as int].deep_view());
        }
        let m = &n.weights[t];
        let rows = m.len();
        proof {
            assert(ww[t as int].len() == rows);
            assert(rows <= 100_000);
            assert(n.layer_in(t as int) <= 100_000);
        }
        let cols = if t == 0 {
            n.input_size
        } else if rows > 0 {
            proof {
                assert(ww[t as int][0] == n.weights@[t as int]@[0]@);
                assert(ww[t as int][0].len() == n.layer_in(t as int));
            }
            m[0].len()
        } else {
            // an empty matrix still records its expected width
            let prev = &n.weights[t - 1];
            prev.len()
        };
        proof {
            assert(cols as int == n.layer_in(t as int)) by {
                if t > 0 && rows == 0 {
                    lemma_mat_deep_view(&n.weights@[t - 1]);
                    assert(ww[t - 1].len() == n.weights@[t - 1]@.len());
                }
            }
            assert(cols <= 100_000);
        }
        let ghost mid = out@;
        out.push(rows as i64);
        out.push(cols as i64);
        let mut i: usize = 0;
        while i < rows
            invariant
                0 <= i <= rows == ww[t as int].len(),
                t < ww.len(),
                n.wf(),
                ww == n.weights.deep_view(),
                forall|q: int| 0 <= q < rows ==> #[trigger] ww[t as int][q]
                    == n.weights@[t as int]@[q]@,
                rows <= 100_000,
                n.layer_in(t as int) <= 100_000,
                out@ == mid + seq![rows as i64, cols as i64] + flat_rows(
                    ww[t as int],
                    i as int,
                ),
                forall|k: int| mid.len() <= k < out@.len() ==> #[trigger] out@[k]
                    > i64::MIN,
                forall|k: int| 0 <= k < mid.len() ==> #[trigger] out@[k] == mid[k],
            decreases rows - i,
        {
            let row = &n.weights[t][i];
            let ghost row_start = out@;
            let mut j: usize = 0;
            while j < row.len()
                invariant
                    0 <= j <= row@.len(),
                    row@ == ww[t as int][i as int],
                    t < ww.len(),
                    i < ww[t as int].len(),
                    n.wf(),
                    ww == n.weights.deep_view(),
                    out@ == row_start + row@.subrange(0, j as int),
                    forall|k: int| row_start.len() <= k < out@.len()
                        ==> #[trigger] out@[k] > i64::MIN,
                    forall|k: int| 0 <= k < row_start.len() ==> #[trigger] out@[k]
                        == row_start[k],
                decreases row@.len() - j,
            {
                proof {
                    assert(crate::neural_network::seq_bounded(
                        ww[t as int][i as int],
                        crate::fixed::SCALE as int,
                    ));
                }
                out.push(row[j]);
                proof {
                    assert(out@ =~= row_start + row@.subrange(0, j + 1 as int));
                }
                j = j + 1;
            }
            proof {
                assert(row@.subrange(0, row@.len() as int) =~= row@);
                assert(out@ =~= mid + seq![rows as i64, cols as i64] + flat_rows(
                    ww[t as int],
                    i + 1 as int,
                ));
                assert(row@.len() == n.layer_in(t as int));
            }
            i = i + 1;
        }
        let bias = &n.biases[t];
        let ghost bias_start = out@;
        let mut j: usize = 0;
        while j < bias.len()
            invariant
                0 <= j <= bias@.len(),
                bias@ == n.biases@[t as int]@,
                t < n.biases@.len(),
                n.wf(),
                crate::neural_network::seq_bounded(
                    n.biases.deep_view()[t as int],
                    crate::fixed::SCALE as int,
                ),
                n.biases.deep_view()[t as int] == bias@,
                out@ == bias_start + bias@.subrange(0, j as int),
                forall|k: int| bias_start.len() <= k < out@.len() ==> #[trigger] out@[k]
                    > i64::MIN,
                forall|k: int| 0 <= k < bias_start.len() ==> #[trigger] out@[k]
                    == bias_start[k],
            decreases bias@.len() - j,
        {
            out.push(bias[j]);
            proof {
                assert(out@ =~= bias_start + bias@.subrange(0, j + 1 as int));
            }
            j = j + 1;
        }
        proof {
            assert(bias@.subrange(0, bias@.len() as int) =~= bias@);
            assert(n.biases.deep_view()[t as int] == bias@);
            assert(ww[t as int].len() == n.biases.deep_view()[t as int].len());
            assert(out@ =~= start + seq![
                n.input_size as i64,
                n.output_size as i64,
                ww.len() as i64,
            ] + flat_mats(ww, n.biases.deep_view(), n.input_size as int, t + 1 as int));
        }
        t = t + 1;
    }
    proof {
        assert(out@ =~= old(out)@ + flat_net(*n));
    }
}

/// Flatten a network table to its scalar stream.
pub fn flatten_networks(nets: &Vec<NeuralNetwork>) -> (r: Vec<i64>)
    requires
        nets@.len() <= 10_000,
        forall|k: int| 0 <= k < nets@.len() ==> (#[trigger] nets@[k]).wf()
            && nets@[k].weights.deep_view().len() <= 1_000_000,
    ensures
        r@ == flat_pop(nets@),
        forall|k: int| 0 <= k < r@.len() ==> #[trigger] r@[k] > i64::MIN,
{
    let mut r: Vec<i64> = Vec::new();
    r.push(nets.len() as i64);
    let mut k: usize = 0;
    while k < nets.len()
        invariant
            0 <= k <= nets@.len() <= 10_000,
            forall|q: int| 0 <= q < nets@.len() ==> (#[trigger] nets@[q]).wf()
                && nets@[q].weights.deep_view().len() <= 1_000_000,
            r@ == seq![nets@.len() as i64] + flat_nets(nets@, k as int),
            forall|q: int| 0 <= q < r@.len() ==> #[trigger] r@[q] > i64::MIN,
        decreases nets@.len() - k,
    {
        let ghost pre = r@;
        flatten_one(&nets[k], &mut r);
        proof {
            assert(r@ =~= seq![nets@.len() as i64] + flat_nets(nets@, k + 1 as int));
        }
        k = k + 1;
    }
    r
}

/// A network table the persistence layer is specified over: well formed,
/// and within the codec's size budget.
pub open spec fn saveable_table(ns: Seq<NeuralNetwork>) -> bool {
    &&& ns.len() <= 10_000
    &&& flat_pop(ns).len() <= 4_000_000
    &&& forall|k: int| 0 <= k < flat_pop(ns).len() ==> #[trigger] flat_pop(ns)[k]
        > i64::MIN
    &&& forall|k: int| 0 <= k < ns.len() ==> (#[trigger] ns[k]).wf()
        && ns[k].weights.deep_view().len() <= 1_000_000
}

/// Serialize a network table to its on-disk text document.
pub fn save_networks(nets: &Vec<NeuralNetwork>) -> (r: Vec<u8>)
    requires
        saveable_table(nets@),
    ensures
        stream_for(flat_pop(nets@), r@),
{
    let values = flatten_networks(nets);
    let r = encode_values(&values);
    r
}

/// Decide at run time whether a network table is within the persistence
/// layer's specification, so that a caller can save exactly when the
/// library can.
pub fn table_is_saveable(nets: &Vec<NeuralNetwork>) -> (r: bool)
    ensures
        r <==> saveable_table(nets@),
{
    if nets.len() > 10_000 {
        return false;
    }
    let mut k: usize = 0;
    while k < nets.len()
        invariant
            0 <= k <= nets@.len() <= 10_000,
            forall|q: int| 0 <= q < k ==> (#[trigger] nets@[q]).wf()
                && nets@[q].weights.deep_view().len() <= 1_000_000,
        decreases nets@.len() - k,
    {
        let n = &nets[k];
        if !n.validate() || n.weights.len() > 1_000_000 {
            return false;
        }
        k = k + 1;
    }
    let values = flatten_networks(nets);
    values.len() <= 4_000_000
}

/// The flat form of a network prefix depends only on that prefix.
proof fn lemma_flat_nets_stable(ns1: Seq<NeuralNetwork>, ns2: Seq<NeuralNetwork>, i: int)
    requires
        forall|q: int| 0 <= q < i ==> #[trigger] ns1[q] == ns2[q],
    ensures
        flat_nets(ns1, i) == flat_nets(ns2, i),
    decreases i,
{
    if i > 0 {
        lemma_flat_nets_stable(ns1, ns2, i - 1);
        assert(ns1[i - 1] == ns2[i - 1]);
    }
}


/// The hypothesis under which a parse is owed success: the scalars at
/// `start` are exactly the flat form of the well-formed network `h`.
pub open spec fn net_hint_ok(values: Seq<i64>, start: int, h: NeuralNetwork) -> bool {
    &&& h.wf()
    &&& h.weights.deep_view().len() <= 1_000_000
    &&& 0 <= start
    &&& start + flat_net(h).len() <= values.len()
    &&& values.subrange(start, start + flat_net(h).len() as int) == flat_net(h)
}

/// Where transition `t` of a hinted network sits in the scalar stream.
proof fn lemma_hint_block(values: Seq<i64>, start: int, h: NeuralNetwork, t: int)
    requires
        net_hint_ok(values, start, h),
        0 <= t < h.weights.deep_view().len(),
    ensures
        ({
            let hw = h.weights.deep_view();
            let hb = h.biases.deep_view();
            let hin = h.input_size as int;
            let lm = flat_mats(hw, hb, hin, t).len() as int;
            let block = flat_block(hw, hb, hin, t);
            &&& flat_mats(hw, hb, hin, t + 1).len() == lm + block.len()
            &&& 3 + flat_mats(hw, hb, hin, t + 1).len() <= flat_net(h).len()
            &&& forall|j: int| 0 <= j < block.len() ==> values[start + 3 + lm + j]
                == #[trigger] block[j]
        }),
{
    let hw = h.weights.deep_view();
    let hb = h.biases.deep_view();
    let hin = h.input_size as int;
    let tc = hw.len() as int;
    let lm = flat_mats(hw, hb, hin, t).len() as int;
    let block = flat_block(hw, hb, hin, t);
    lemma_flat_mats_prefix(hw, hb, hin, t, tc);
    lemma_flat_mats_prefix(hw, hb, hin, t + 1, tc);
    assert(flat_mats(hw, hb, hin, t + 1) == flat_mats(hw, hb, hin, t) + block);
    assert(flat_net(h).len() == 3 + flat_mats(hw, hb, hin, tc).len());
    assert forall|j: int| 0 <= j < block.len() implies values[start + 3 + lm + j]
        == #[trigger] block[j] by {
        assert(flat_mats(hw, hb, hin, t + 1)[lm + j] == block[j]);
        assert(flat_mats(hw, hb, hin, tc)[lm + j] == flat_mats(hw, hb, hin, t + 1)[lm
            + j]);
        assert(flat_net(h)[3 + lm + j] == flat_mats(hw, hb, hin, tc)[lm + j]);
        assert(values.subrange(start, start + flat_net(h).len() as int)[3 + lm + j]
            == flat_net(h)[3 + lm + j]);
    }
}

/// The head scalars of a hinted network.
proof fn lemma_hint_heads(values: Seq<i64>, start: int, h: NeuralNetwork)
    requires
        net_hint_ok(values, start, h),
    ensures
        flat_net(h).len() >= 3,
        values[start] == h.input_size as i64,
        values[start + 1] == h.output_size as i64,
        values[start + 2] == h.weights.deep_view().len() as i64,
{
    let l = flat_net(h).len() as int;
    assert(values.subrange(start, start + l)[0] == flat_net(h)[0]);
    assert(values.subrange(start, start + l)[1] == flat_net(h)[1]);
    assert(values.subrange(start, start + l)[2] == flat_net(h)[2]);
}

/// All scalars of a uniform, bounded row area are bounded.
proof fn lemma_flat_rows_bounded(m: Seq<Seq<i64>>, i: int, w: int)
    requires
        0 <= i <= m.len(),
        0 <= w,
        forall|q: int| 0 <= q < m.len() ==> (#[trigger] m[q]).len() == w,
        crate::neural_network::mat_bounded(m, crate::fixed::SCALE as int),
    ensures
        crate::neural_network::seq_bounded(flat_rows(m, i), crate::fixed::SCALE as int),
    decreases i,
{
    if i > 0 {
        lemma_flat_rows_bounded(m, i - 1, w);
        assert(crate::neural_network::seq_bounded(m[i - 1], crate::fixed::SCALE as int));
        assert forall|k: int| 0 <= k < flat_rows(m, i).len() implies -1000
            <= #[trigger] flat_rows(m, i)[k] <= 1000 by {
            if k >= flat_rows(m, i - 1).len() {
                assert(flat_rows(m, i)[k] == m[i - 1][k - flat_rows(m, i - 1).len()]);
            }
        }
    }
}

/// Parse one network from the scalar stream at `start`; a successful
/// parse yields a well-formed network whose flat form is exactly the
/// consumed segment.  When the stream at `start` is the flat form of a
/// well-formed network (the ghost hint), the parse is owed success.
fn parse_network(
    values: &Vec<i64>,
    start: usize,
    hint: Ghost<Option<NeuralNetwork>>,
) -> (r: Option<(NeuralNetwork, usize)>)
    requires
        values@.len() <= 100_000_000,
        start <= values@.len(),
        hint@ is Some ==> net_hint_ok(values@, start as int, hint@->0),
    ensures
        r is Some ==> ({
            let p = r->0;
            &&& start < p.1 <= values@.len()
            &&& p.0.wf()
            &&& p.0.weights.deep_view().len() <= 1_000_000
            &&& flat_net(p.0) == values@.subrange(start as int, p.1 as int)
        }),
        hint@ is Some ==> r is Some && ({
            let p = r->0;
            p.1 == start + flat_net(hint@->0).len()
        }),
{
    let ghost hs = hint@;
    let ghost h = hs->0;
    let ghost hw = h.weights.deep_view();
    let ghost hb = h.biases.deep_view();
    let ghost hin = h.input_size as int;
    let ghost htc = hw.len() as int;
    proof {
        if hs is Some {
            lemma_hint_heads(values@, start as int, h);
        }
    }
    let len = values.len();
    if len - start < 3 {
        proof {
            if hs is Some {
                assert(false);
            }
        }
        return None;
    }
    let input_v = values[start];
    let output_v = values[start + 1];
    let tcount_v = values[start + 2];
    if input_v < 0 || input_v > 100_000 || output_v < 0 || output_v > 100_000
        || tcount_v < 0 || tcount_v > 1_000_000 {
        proof {
            if hs is Some {
                assert(h.output_size as int == width_in(hin, hw, htc));
                assert(false);
            }
        }
        return None;
    }
    let input_size = input_v as usize;
    let output_size = output_v as usize;
    let tcount = tcount_v as usize;
    proof {
        if hs is Some {
            assert(input_size == h.input_size);
            assert(output_size == h.output_size);
            assert(tcount as int == htc);
        }
    }
    let mut weights: Vec<Vec<Vec<i64>>> = Vec::new();
    let mut biases: Vec<Vec<i64>> = Vec::new();
    let mut prev: usize = input_size;
    let mut c: usize = start + 3;
    let mut t: usize = 0;
    proof {
        assert(values@.subrange(start + 3 as int, c as int) =~= flat_mats(
            weights.deep_view(),
            biases.deep_view(),
            input_size as int,
            0,
        ));
    }
    while t < tcount
        invariant
            start + 3 <= c <= len == values@.len() <= 100_000_000,
            0 <= t <= tcount <= 1_000_000,
            weights@.len() == t,
            biases@.len() == t,
            input_size <= 100_000,
            prev <= 100_000,
            prev as int == width_in(input_size as int, weights.deep_view(), t as int),
            values@.subrange(start + 3 as int, c as int) == flat_mats(
                weights.deep_view(),
                biases.deep_view(),
                input_size as int,
                t as int,
            ),
            forall|q: int| 0 <= q < t ==> (#[trigger] weights.deep_view()[q]).len()
                == biases.deep_view()[q].len() && weights.deep_view()[q].len() <= 100_000,
            forall|q: int, i: int|
                0 <= q < t && 0 <= i < weights.deep_view()[q].len()
                    ==> (#[trigger] weights.deep_view()[q][i]).len() == width_in(
                    input_size as int,
                    weights.deep_view(),
                    q,
                ),
            forall|q: int| 0 <= q < t ==> crate::neural_network::mat_bounded(
                #[trigger] weights.deep_view()[q],
                crate::fixed::SCALE as int,
            ),
            forall|q: int| 0 <= q < t ==> crate::neural_network::seq_bounded(
                #[trigger] biases.deep_view()[q],
                crate::fixed::SCALE as int,
            ),
            hs == hint@,
            hs is Some ==> net_hint_ok(values@, start as int, h) && h == hs->0
                && hw == h.weights.deep_view() && hb == h.biases.deep_view()
                && hin == h.input_size as int && htc == hw.len() as int,
            hs is Some ==> input_size == h.input_size && output_size == h.output_size
                && tcount as int == htc,
            hs is Some ==> c as int == start + 3 + flat_mats(hw, hb, hin, t as int).len()
                && prev as int == width_in(hin, hw, t as int),
        decreases tcount - t,
    {
        let ghost old_ww = weights.deep_view();
        let ghost old_bb = biases.deep_view();
        let ghost c0 = c as int;
        let ghost hblock = flat_block(hw, hb, hin, t as int);
        let ghost hrows = hw[t as int].len() as int;
        let ghost hwidth = width_in(hin, hw, t as int);
        proof {
            if hs is Some {
                lemma_hint_block(values@, start as int, h, t as int);
                assert(hblock.len() == 2 + flat_rows(hw[t as int], hrows).len()
                    + hb[t as int].len());
                assert forall|i2: int| 0 <= i2 < hw[t as int].len()
                    implies (#[trigger] hw[t as int][i2]).len() == hwidth by {}
                lemma_flat_rows_len(hw[t as int], hrows, hwidth);
                assert(hb[t as int].len() == hrows);
                assert(hblock.len() == 2 + hrows * hwidth + hrows);
                assert forall|j: int| 0 <= j < hblock.len()
                    implies values@[c0 + j] == #[trigger] hblock[j] by {}
                assert(c0 + hblock.len() <= start + flat_net(h).len());
                assert(hblock[0] == hw[t as int].len() as i64);
                assert(hblock[1] == hwidth as i64);
                assert(0 <= hrows <= 100_000);
                assert(hrows * hwidth >= 0) by (nonlinear_arith)
                    requires
                        hrows >= 0,
                        hwidth >= 0,
                ;
                assert(crate::neural_network::mat_bounded(
                    hw[t as int],
                    crate::fixed::SCALE as int,
                ));
                lemma_flat_rows_bounded(hw[t as int], hrows, hwidth);
            }
        }
        if len - c < 2 {
            proof {
                if hs is Some {
                    assert(false);
                }
            }
            return None;
        }
        let rows_v = values[c];
        let cols_v = values[c + 1];
        if rows_v < 0 || rows_v > 100_000 {
            proof {
                if hs is Some {
                    assert(rows_v == hblock[0]);
                    assert(false);
                }
            }
            return None;
        }
        if cols_v != prev as i64 {
            proof {
                if hs is Some {
                    assert(cols_v == hblock[1]);
                    assert(false);
                }
            }
            return None;
        }
        let rows = rows_v as usize;
        proof {
            if hs is Some {
                assert(rows as int == hrows);
                assert(prev as int == hwidth);
            }
        }
        c = c + 2;
        let mut m: Vec<Vec<i64>> = Vec::new();
        let mut i: usize = 0;
        proof {
            assert(flat_rows(m.deep_view(), 0) =~= values@.subrange(c0 + 2, c as int));
        }
        while i < rows
            invariant
                0 <= i <= rows <= 100_000,
                prev <= 100_000,
                0 <= c0,
                c0 + 2 <= c <= len == values@.len() <= 100_000_000,
                c as int == c0 + 2 + (i as int) * (prev as int),
                m@.len() == i,
                forall|q: int| 0 <= q < i ==> (#[trigger] m.deep_view()[q]).len()
                    == prev,
                forall|q: int| 0 <= q < i ==> crate::neural_network::seq_bounded(
                    #[trigger] m.deep_view()[q],
                    crate::fixed::SCALE as int,
                ),
                flat_rows(m.deep_view(), i as int) == values@.subrange(
                    c0 + 2,
                    c as int,
                ),
                hs == hint@,
                hs is Some ==> rows as int == hrows && prev as int == hwidth
                    && hrows == hw[t as int].len() as int
                    && hblock == flat_block(hw, hb, hin, t as int)
                    && hblock.len() == 2 + hrows * hwidth + hrows
                    && c0 + hblock.len() <= len
                    && (forall|j: int| 0 <= j < hblock.len() ==> values@[c0 + j]
                        == #[trigger] hblock[j])
                    && crate::neural_network::seq_bounded(
                    flat_rows(hw[t as int], hrows),
                    crate::fixed::SCALE as int,
                ) && flat_rows(hw[t as int], hrows).len() == hrows * hwidth,
            decreases rows - i,
        {
            proof {
                if hs is Some {
                    assert((i as int) * (prev as int) + (prev as int) <= hrows
                        * hwidth) by (nonlinear_arith)
                        requires
                            0 <= i as int,
                            i as int + 1 <= hrows,
                            prev as int == hwidth,
                            0 <= hwidth,
                    ;
                }
            }
            if len - c < prev {
                proof {
                    if hs is Some {
                        assert(false);
                    }
                }
                return None;
            }
            let ghost row_c = c as int;
            let mut row: Vec<i64> = Vec::new();
            let mut j: usize = 0;
            proof {
                assert(row@ =~= values@.subrange(row_c, c as int));
            }
            while j < prev
                invariant
                    0 <= j <= prev <= 100_000,
                    0 <= row_c,
                    row_c + (j as int) == c,
                    row_c + (prev as int) <= len == values@.len(),
                    c <= len,
                    row@.len() == j,
                    row@ == values@.subrange(row_c, c as int),
                    crate::neural_network::seq_bounded(
                        row@,
                        crate::fixed::SCALE as int,
                    ),
                    hs == hint@,
                    hs is Some ==> row_c == c0 + 2 + (i as int) * (prev as int)
                        && 0 <= i as int && i as int + 1 <= hrows && prev as int
                        == hwidth && hrows == hw[t as int].len() as int
                        && hblock.len() == 2 + hrows * hwidth + hrows
                        && (forall|q: int| 0 <= q < hblock.len() ==> values@[c0 + q]
                        == #[trigger] hblock[q])
                        && crate::neural_network::seq_bounded(
                        flat_rows(hw[t as int], hrows),
                        crate::fixed::SCALE as int,
                    ) && flat_rows(hw[t as int], hrows).len() == hrows * hwidth
                        && hblock == flat_block(hw, hb, hin, t as int),
                decreases prev - j,
            {
                let e = values[c];
                proof {
                    if hs is Some {
                        let k = (i as int) * (prev as int) + (j as int);
                        assert(0 <= k && k + 1 <= hrows * hwidth) by (nonlinear_arith)
                            requires
                                k == (i as int) * (prev as int) + (j as int),
                                0 <= i as int,
                                0 <= j as int,
                                (j as int) < prev as int,
                                i as int + 1 <= hrows,
                                prev as int == hwidth,
                                0 <= hwidth,
                        ;
                        assert(c as int == c0 + 2 + k);
                        assert(values@[c0 + (2 + k)] == hblock[2 + k]);
                        assert(hblock[2 + k] == flat_rows(hw[t as int], hrows)[k]);
                        assert(-1000 <= e <= 1000);
                    }
                }
                if e < -1_000 || e > 1_000 {
                    proof {
                        if hs is Some {
                            assert(false);
                        }
                    }
                    return None;
                }
                let ghost pre_row = row@;
                row.push(e);
                c = c + 1;
                proof {
                    assert(row@ == pre_row.push(e));
                    assert(pre_row == values@.subrange(row_c, (c - 1) as int));
                    assert(e == values@[(c - 1) as int]);
                    assert(row@ =~= values@.subrange(row_c, c as int));
                }
                j = j + 1;
            }
            let ghost pre_m = m.deep_view();
            m.push(row);
            proof {
                lemma_mat_deep_view(&m);
                assert(m.deep_view()[i as int] == values@.subrange(row_c, c as int));
                assert forall|q: int| 0 <= q < i implies #[trigger] m.deep_view()[q]
                    == pre_m[q] by {
                    assert(m.deep_view()[q] == m@[q]@);
                }
                lemma_flat_rows_stable(pre_m, m.deep_view(), i as int);
                assert(flat_rows(m.deep_view(), i + 1 as int) =~= values@.subrange(
                    c0 + 2,
                    c as int,
                ));
                assert((i + 1) as int * (prev as int) == (i as int) * (prev as int)
                    + (prev as int)) by (nonlinear_arith);
            }
            i = i + 1;
        }
        proof {
            if hs is Some {
                assert(c as int == c0 + 2 + hrows * hwidth);
            }
        }
        if len - c < rows {
            proof {
                if hs is Some {
                    assert(false);
                }
            }
            return None;
        }
        let ghost bias_c = c as int;
        let mut bias: Vec<i64> = Vec::new();
        let mut j: usize = 0;
        proof {
            assert(bias@ =~= values@.subrange(bias_c, c as int));
        }
        while j < rows
            invariant
                0 <= j <= rows <= 100_000,
                0 <= bias_c,
                bias_c + (j as int) == c,
                bias_c + (rows as int) <= len == values@.len(),
                c <= len,
                bias@.len() == j,
                bias@ == values@.subrange(bias_c, c as int),
                crate::neural_network::seq_bounded(bias@, crate::fixed::SCALE as int),
                hs == hint@,
                hs is Some ==> bias_c == c0 + 2 + hrows * hwidth && rows as int == hrows
                    && hblock.len() == 2 + hrows * hwidth + hrows
                    && (forall|q: int| 0 <= q < hblock.len() ==> values@[c0 + q]
                    == #[trigger] hblock[q])
                    && crate::neural_network::seq_bounded(
                    hb[t as int],
                    crate::fixed::SCALE as int,
                ) && hblock == flat_block(hw, hb, hin, t as int)
                    && flat_rows(hw[t as int], hrows).len() == hrows * hwidth
                    && hb[t as int].len() == hrows,
            decreases rows - j,
        {
            let e = values[c];
            proof {
                if hs is Some {
                    assert(values@[c0 + (2 + hrows * hwidth + j as int)] == hblock[2
                        + hrows * hwidth + j as int]);
                    assert(hblock[2 + hrows * hwidth + j as int] == hb[t as int][
                        j as int
                    ]);
                    assert(-1000 <= e <= 1000);
                }
            }
            if e < -1_000 || e > 1_000 {
                proof {
                    if hs is Some {
                        assert(false);
                    }
                }
                return None;
            }
            let ghost pre_bias = bias@;
            bias.push(e);
            c = c + 1;
            proof {
                assert(bias@ == pre_bias.push(e));
                assert(pre_bias == values@.subrange(bias_c, (c - 1) as int));
                assert(e == values@[(c - 1) as int]);
                assert(bias@ =~= values@.subrange(bias_c, c as int));
            }
            j = j + 1;
        }
        let ghost mm = m.deep_view();
        let ghost bv = bias@;
        weights.push(m);
        biases.push(bias);
        proof {
            lemma_tensor_deep_view(&weights);
            lemma_mat_deep_view(&biases);
            let ww = weights.deep_view();
            let bb = biases.deep_view();
            assert(ww[t as int] == weights@[t as int].deep_view());
            assert(ww[t as int] == mm);
            assert(bb[t as int] == bv);
            assert forall|q: int| 0 <= q < t implies #[trigger] ww[q] == old_ww[q] by {
                assert(ww[q] == weights@[q].deep_view());
            }
            assert forall|q: int| 0 <= q < t implies #[trigger] bb[q] == old_bb[q] by {
                assert(bb[q] == biases@[q]@);
            }
            lemma_flat_mats_stable(
                old_ww,
                old_bb,
                ww,
                bb,
                input_size as int,
                t as int,
            );
            assert(width_in(input_size as int, ww, t as int) == prev as int);
            assert(flat_block(ww, bb, input_size as int, t as int) =~= values@.subrange(
                c0,
                c as int,
            ));
            assert(flat_mats(ww, bb, input_size as int, t + 1 as int) =~= values@
                .subrange(start + 3 as int, c as int));
            if hs is Some {
                lemma_hint_block(values@, start as int, h, t as int);
                assert(c as int == c0 + hblock.len());
                assert(c as int == start + 3 + flat_mats(hw, hb, hin, t + 1 as int)
                    .len());
                assert(rows as int == width_in(hin, hw, t + 1 as int));
            }
        }
        prev = rows;
        t = t + 1;
    }
    if output_size != prev {
        proof {
            if hs is Some {
                assert(h.output_size as int == width_in(hin, hw, htc));
                assert(false);
            }
        }
        return None;
    }

    let net = NeuralNetwork { input_size, output_size, weights, biases };
    proof {
        let ww = net.weights.deep_view();
        let bb = net.biases.deep_view();
        assert forall|q: int, i: int|
            0 <= q < ww.len() && 0 <= i < ww[q].len() implies (#[trigger] ww[q][i]).len()
                == net.layer_in(q) by {
            assert(ww[q][i].len() == width_in(input_size as int, ww, q));
        }
        assert(net.output_size == net.layer_in(ww.len() as int));
        assert(crate::neural_network::tensor_bounded(ww, crate::fixed::SCALE as int));
        assert(crate::neural_network::mat_bounded(bb, crate::fixed::SCALE as int));
        assert(net.wf());
        assert(flat_net(net) =~= values@.subrange(start as int, c as int));
        if hs is Some {
            assert(flat_net(h).len() == 3 + flat_mats(hw, hb, hin, htc).len());
            assert(c as int == start + flat_net(h).len());
        }
    }
    Some((net, c))
}

/// A row prefix of a matrix depends only on those rows.
proof fn lemma_flat_rows_stable(m1: Seq<Seq<i64>>, m2: Seq<Seq<i64>>, i: int)
    requires
        forall|q: int| 0 <= q < i ==> #[trigger] m1[q] == m2[q],
    ensures
        flat_rows(m1, i) == flat_rows(m2, i),
    decreases i,
{
    if i > 0 {
        lemma_flat_rows_stable(m1, m2, i - 1);
        assert(m1[i - 1] == m2[i - 1]);
    }
}

/// Rebuild a network table from its scalar stream; a successful parse
/// yields well-formed networks whose flat form is exactly the input.
/// When the stream is the flat form of a saveable table (the ghost
/// hint), the parse is owed success.
pub fn unflatten_networks(
    values: &Vec<i64>,
    hint: Ghost<Option<Seq<NeuralNetwork>>>,
) -> (r: Option<Vec<NeuralNetwork>>)
    requires
        values@.len() <= 100_000_000,
        hint@ is Some ==> saveable_table(hint@->0) && flat_pop(hint@->0) == values@,
    ensures
        r is Some ==> flat_pop(r->0@) == values@ && r->0@.len() <= 10_000 && forall|k: int|
            0 <= k < r->0@.len() ==> (#[trigger] r->0@[k]).wf()
            && r->0@[k].weights.deep_view().len() <= 1_000_000,
        hint@ is Some ==> r is Some,
{
    let ghost hs = hint@;
    let ghost hns = hs->0;
    let len = values.len();
    if len == 0 {
        proof {
            if hs is Some {
                assert(flat_pop(hns).len() >= 1);
            }
        }
        return None;
    }
    let count_v = values[0];
    proof {
        if hs is Some {
            assert(values@[0] == hns.len() as i64);
        }
    }
    if count_v < 0 || count_v > 10_000 {
        proof {
            if hs is Some {
                assert(false);
            }
        }
        return None;
    }
    let n = count_v as usize;
    let mut out: Vec<NeuralNetwork> = Vec::new();
    let mut c: usize = 1;
    let mut k: usize = 0;
    proof {
        assert(seq![n as i64] + flat_nets(out@, 0) =~= values@.subrange(0, 1));
        if hs is Some {
            assert(n as int == hns.len());
            assert(flat_nets(hns, 0).len() == 0);
        }
    }
    while k < n
        invariant
            1 <= c <= len == values@.len() <= 100_000_000,
            0 <= k <= n <= 10_000,
            out@.len() == k,
            values@[0] == n as i64,
            seq![n as i64] + flat_nets(out@, k as int) == values@.subrange(0, c as int),
            forall|q: int| 0 <= q < k ==> (#[trigger] out@[q]).wf()
                && out@[q].weights.deep_view().len() <= 1_000_000,
            hs == hint@,
            hs is Some ==> saveable_table(hns) && flat_pop(hns) == values@
                && hns == hs->0 && n as int == hns.len()
                && c as int == 1 + flat_nets(hns, k as int).len(),
        decreases n - k,
    {
        let ghost net_hint: Option<NeuralNetwork> = if hs is Some {
            Some(hns[k as int])
        } else {
            None
        };
        proof {
            if hs is Some {
                lemma_unflatten_hint(values@, hns, k as int, c as int);
            }
        }
        let parsed = match parse_network(values, c, Ghost(net_hint)) {
            Some(p) => p,
            None => {
                proof {
                    if hs is Some {
                        assert(false);
                    }
                }
                return None;
            },
        };
        let ghost pre_out = out@;
        let ghost pre_c = c as int;
        let ghost pnet = parsed.0;
        let end = parsed.1;
        out.push(parsed.0);
        c = end;
        proof {
            lemma_flat_nets_stable(pre_out, out@, k as int);
            assert(out@[k as int] == pnet);
            assert(flat_net(out@[k as int]) == values@.subrange(pre_c, c as int));
            assert(seq![n as i64] + flat_nets(out@, k + 1 as int) =~= (seq![n as i64]
                + flat_nets(out@, k as int)) + flat_net(out@[k as int]));
            assert(values@.subrange(0, pre_c) + values@.subrange(pre_c, c as int)
                =~= values@.subrange(0, c as int));
            assert(seq![n as i64] + flat_nets(out@, k + 1 as int) =~= values@.subrange(
                0,
                c as int,
            ));
            if hs is Some {
                assert(flat_net(hns[k as int]) == flat_net(net_hint->0));
                assert(flat_nets(hns, k + 1 as int) == flat_nets(hns, k as int)
                    + flat_net(hns[k as int]));
                assert(c as int == 1 + flat_nets(hns, k + 1 as int).len());
            }
        }
        k = k + 1;
    }
    if c != len {
        proof {
            if hs is Some {
                assert(flat_pop(hns).len() == 1 + flat_nets(hns, n as int).len());
                assert(false);
            }
        }
        return None;
    }
    proof {
        assert(flat_pop(out@) =~= values@);
    }
    Some(out)
}

/// The scalar stream of a hinted table carries network `k` exactly at
/// the parser's cursor.
proof fn lemma_unflatten_hint(values: Seq<i64>, hns: Seq<NeuralNetwork>, k: int, c: int)
    requires
        saveable_table(hns),
        flat_pop(hns) == values,
        0 <= k < hns.len(),
        c == 1 + flat_nets(hns, k).len(),
    ensures
        net_hint_ok(values, c, hns[k]),
{
    let n = hns.len() as int;
    lemma_flat_nets_tail(hns, k, n);
    lemma_flat_nets_prefix(hns, k, n);
    lemma_flat_nets_prefix(hns, k + 1, n);
    let lk = flat_nets(hns, k).len() as int;
    let fnet = flat_net(hns[k]);
    assert(flat_nets(hns, k + 1) == flat_nets(hns, k) + fnet);
    assert(values.len() == 1 + flat_nets(hns, n).len());
    assert(c + fnet.len() <= values.len());
    assert forall|j: int| 0 <= j < fnet.len() implies values[c + j] == #[trigger] fnet[
        j
    ] by {
        assert(flat_nets(hns, k + 1)[lk + j] == fnet[j]);
        assert(flat_nets(hns, n)[lk + j] == flat_nets(hns, k + 1)[lk + j]);
        assert(values[1 + lk + j] == flat_nets(hns, n)[lk + j]);
    }
    assert(values.subrange(c, c + fnet.len() as int) =~= fnet);
}

/// Law: a byte document is the stream of at most one value list, so a
/// reload can only ever see exactly the scalars that were saved.
pub proof fn lemma_stream_unique(vs1: Seq<i64>, vs2: Seq<i64>, bytes: Seq<u8>)
    requires
        stream_for(vs1, bytes),
        stream_for(vs2, bytes),
    ensures
        vs1 == vs2,
{
    assert(22 * (vs1.len() + 1) == 22 * (vs2.len() + 1));
    assert(vs1.len() == vs2.len());
    assert forall|k: int| 0 <= k < vs1.len() implies vs1[k] == vs2[k] by {
        assert(bytes.subrange(22 * (k + 1), 22 * (k + 2)) == token_of(vs1[k] as int));
        assert(bytes.subrange(22 * (k + 1), 22 * (k + 2)) == token_of(vs2[k] as int));
        lemma_token_injective(vs1[k] as int, vs2[k] as int);
    }
    assert(vs1 =~= vs2);
}

/// A transition prefix of the flat form is a prefix of the whole.
proof fn lemma_flat_mats_prefix(
    ww: Seq<Seq<Seq<i64>>>,
    bb: Seq<Seq<i64>>,
    input: int,
    t1: int,
    t2: int,
)
    requires
        0 <= t1 <= t2,
    ensures
        flat_mats(ww, bb, input, t1).len() <= flat_mats(ww, bb, input, t2).len(),
        flat_mats(ww, bb, input, t1) == flat_mats(ww, bb, input, t2).subrange(
            0,
            flat_mats(ww, bb, input, t1).len() as int,
        ),
    decreases t2 - t1,
{
    if t1 == t2 {
        assert(flat_mats(ww, bb, input, t1) =~= flat_mats(ww, bb, input, t2).subrange(
            0,
            flat_mats(ww, bb, input, t1).len() as int,
        ));
    } else {
        lemma_flat_mats_prefix(ww, bb, input, t1, t2 - 1);
        assert(flat_mats(ww, bb, input, t1) =~= flat_mats(ww, bb, input, t2).subrange(
            0,
            flat_mats(ww, bb, input, t1).len() as int,
        ));
    }
}

/// Uniform rows make the flat row area a rectangle.
proof fn lemma_flat_rows_len(m: Seq<Seq<i64>>, i: int, w: int)
    requires
        0 <= i <= m.len(),
        0 <= w,
        forall|q: int| 0 <= q < m.len() ==> (#[trigger] m[q]).len() == w,
    ensures
        flat_rows(m, i).len() == i * w,
    decreases i,
{
    if i == 0 {
        assert(0 * w == 0) by (nonlinear_arith);
    } else {
        lemma_flat_rows_len(m, i - 1, w);
        assert((i - 1) * w + w == i * w) by (nonlinear_arith);
    }
}

/// Each row can be read back out of the flat row area.
proof fn lemma_flat_rows_extract(m: Seq<Seq<i64>>, i: int, w: int, q: int)
    requires
        0 <= q < i <= m.len(),
        0 <= w,
        forall|k: int| 0 <= k < m.len() ==> (#[trigger] m[k]).len() == w,
    ensures
        m[q] == flat_rows(m, i).subrange(q * w, (q + 1) * w),
    decreases i,
{
    lemma_flat_rows_len(m, i, w);
    lemma_flat_rows_len(m, i - 1, w);
    if q == i - 1 {
        assert((i - 1) * w + w == i * w) by (nonlinear_arith);
        assert(m[q] =~= flat_rows(m, i).subrange(q * w, (q + 1) * w));
    } else {
        lemma_flat_rows_extract(m, i - 1, w, q);
        assert(0 <= q * w && q * w <= (q + 1) * w && (q + 1) * w <= (i - 1) * w && (i
            - 1) * w <= i * w) by (nonlinear_arith)
            requires
                0 <= q,
                q + 1 <= i - 1,
                0 <= w,
        ;
        let fr1 = flat_rows(m, i);
        let fr0 = flat_rows(m, i - 1);
        assert(fr1 == fr0 + m[i - 1]);
        assert forall|j: int| q * w <= j < (q + 1) * w implies fr1[j] == fr0[j] by {
            assert(j < (i - 1) * w);
        }
        assert(fr1.subrange(q * w, (q + 1) * w) =~= fr0.subrange(q * w, (q + 1) * w));
        assert(m[q] =~= flat_rows(m, i).subrange(q * w, (q + 1) * w));
    }
}

/// The flat form of a network determines the network: two well-formed
/// networks whose flat forms open equal byte-for-byte streams are the
/// same network, and the remainders coincide.
#[verifier::rlimit(80)]
proof fn lemma_flat_net_prefix_injective(
    a: NeuralNetwork,
    b: NeuralNetwork,
    sa: Seq<i64>,
    sb: Seq<i64>,
)
    requires
        a.wf(),
        b.wf(),
        a.weights.deep_view().len() <= 1_000_000,
        b.weights.deep_view().len() <= 1_000_000,
        flat_net(a) + sa == flat_net(b) + sb,
    ensures
        a.equivalent(&b),
        sa == sb,
{
    let wwa = a.weights.deep_view();
    let bba = a.biases.deep_view();
    let wwb = b.weights.deep_view();
    let bbb = b.biases.deep_view();
    let total = flat_net(a) + sa;
    assert(total[0] == a.input_size as i64 && total[1] == a.output_size as i64
        && total[2] == wwa.len() as i64);
    assert(total[0] == b.input_size as i64 && total[1] == b.output_size as i64
        && total[2] == wwb.len() as i64);
    assert(a.input_size == b.input_size);
    assert(a.output_size == b.output_size);
    assert(wwa.len() == wwb.len());
    let tcount = wwa.len() as int;
    let input = a.input_size as int;
    lemma_flat_block_step(a, b, sa, sb, tcount);
    assert(flat_mats(wwa, bba, input, tcount) == flat_mats(wwb, bbb, input, tcount));
    assert(flat_net(a).len() == flat_net(b).len());
    assert(wwa =~= wwb) by {
        assert forall|q: int| 0 <= q < wwa.len() implies #[trigger] wwa[q] == wwb[q] by {}
    }
    assert(bba =~= bbb) by {
        assert(bba.len() == wwa.len() && bbb.len() == wwb.len());
        assert forall|q: int| 0 <= q < bba.len() implies #[trigger] bba[q] == bbb[q] by {
            assert(wwa[q] == wwb[q]);
        }
    }
    assert(sa =~= total.subrange(flat_net(a).len() as int, total.len() as int));
    assert(sb =~= total.subrange(flat_net(a).len() as int, total.len() as int));
}

/// The inductive heart of flat-form injectivity: transition prefixes of
/// two well-formed networks with the same flat stream coincide.
#[verifier::rlimit(100)]
#[verifier::spinoff_prover]
proof fn lemma_flat_block_step(
    a: NeuralNetwork,
    b: NeuralNetwork,
    sa: Seq<i64>,
    sb: Seq<i64>,
    t: int,
)
    requires
        a.wf(),
        b.wf(),
        flat_net(a) + sa == flat_net(b) + sb,
        a.input_size == b.input_size,
        a.weights.deep_view().len() == b.weights.deep_view().len(),
        0 <= t <= a.weights.deep_view().len(),
        a.weights.deep_view().len() <= 1_000_000,
    ensures
        flat_mats(
            a.weights.deep_view(),
            a.biases.deep_view(),
            a.input_size as int,
            t,
        ) == flat_mats(
            b.weights.deep_view(),
            b.biases.deep_view(),
            b.input_size as int,
            t,
        ),
        forall|q: int| 0 <= q < t ==> #[trigger] a.weights.deep_view()[q]
            == b.weights.deep_view()[q] && a.biases.deep_view()[q]
            == b.biases.deep_view()[q],
    decreases t,
{
    let wwa = a.weights.deep_view();
    let bba = a.biases.deep_view();
    let wwb = b.weights.deep_view();
    let bbb = b.biases.deep_view();
    let input = a.input_size as int;
    let tcount = wwa.len() as int;
    let total = flat_net(a) + sa;
    if t > 0 {
        lemma_flat_block_step(a, b, sa, sb, t - 1);
        let prefix = flat_mats(wwa, bba, input, t - 1);
        let off = 3 + prefix.len() as int;
        // both blocks start at the same offset of the shared stream
        lemma_flat_mats_prefix(wwa, bba, input, t - 1, tcount);
        lemma_flat_mats_prefix(wwa, bba, input, t, tcount);
        lemma_flat_mats_prefix(wwb, bbb, input, t - 1, tcount);
        lemma_flat_mats_prefix(wwb, bbb, input, t, tcount);
        let block_a = flat_block(wwa, bba, input, t - 1);
        let block_b = flat_block(wwb, bbb, input, t - 1);
        assert(flat_mats(wwa, bba, input, t) == prefix + block_a);
        assert(flat_mats(wwb, bbb, input, t) == prefix + block_b);
        assert forall|j: int| 0 <= j < block_a.len() implies block_a[j] == total[off + j] by {
            assert(flat_mats(wwa, bba, input, t)[prefix.len() + j] == block_a[j]);
            assert(flat_mats(wwa, bba, input, tcount)[prefix.len() + j] == flat_mats(
                wwa,
                bba,
                input,
                t,
            )[prefix.len() + j]);
            assert(total[3 + prefix.len() + j] == flat_mats(wwa, bba, input, tcount)[
                prefix.len() + j
            ]);
        }
        assert forall|j: int| 0 <= j < block_b.len() implies block_b[j] == total[off + j] by {
            assert(flat_mats(wwb, bbb, input, t)[prefix.len() + j] == block_b[j]);
            assert(flat_mats(wwb, bbb, input, tcount)[prefix.len() + j] == flat_mats(
                wwb,
                bbb,
                input,
                t,
            )[prefix.len() + j]);
            assert(total[3 + prefix.len() + j] == flat_mats(wwb, bbb, input, tcount)[
                prefix.len() + j
            ]);
        }
        // equal row counts and equal widths force equal block lengths
        assert(block_a[0] == wwa[t - 1].len() as i64);
        assert(block_b[0] == wwb[t - 1].len() as i64);
        assert(wwa[t - 1].len() == wwb[t - 1].len());
        let rows = wwa[t - 1].len() as int;
        let w = width_in(input, wwa, t - 1);
        assert(width_in(input, wwb, t - 1) == w);
        assert(forall|i: int| 0 <= i < wwa[t - 1].len() ==> (#[trigger] wwa[t - 1][i]).len()
            == w);
        assert(forall|i: int| 0 <= i < wwb[t - 1].len() ==> (#[trigger] wwb[t - 1][i]).len()
            == w);
        lemma_flat_rows_len(wwa[t - 1], rows, w);
        lemma_flat_rows_len(wwb[t - 1], rows, w);
        assert(bba[t - 1].len() == rows);
        assert(bbb[t - 1].len() == rows);
        assert(block_a.len() == 2 + rows * w + rows);
        assert(block_b.len() == 2 + rows * w + rows);
        assert(block_a =~= block_b);
        // equal blocks force equal rows and biases
        assert forall|i: int| 0 <= i < rows implies #[trigger] wwa[t - 1][i] == wwb[t - 1][i] by {
            lemma_flat_rows_extract(wwa[t - 1], rows, w, i);
            lemma_flat_rows_extract(wwb[t - 1], rows, w, i);
            assert(flat_rows(wwa[t - 1], rows) =~= flat_rows(wwb[t - 1], rows)) by {
                assert(flat_rows(wwa[t - 1], rows) =~= block_a.subrange(
                    2,
                    2 + rows * w,
                ));
                assert(flat_rows(wwb[t - 1], rows) =~= block_b.subrange(
                    2,
                    2 + rows * w,
                ));
            }
        }
        assert(wwa[t - 1] =~= wwb[t - 1]);
        assert(bba[t - 1] =~= bbb[t - 1]) by {
            assert forall|j: int| 0 <= j < rows implies #[trigger] bba[t - 1][j] == block_a[2
                + rows * w + j] && bbb[t - 1][j] == block_b[2 + rows * w + j] by {
                assert(block_a == (seq![wwa[t - 1].len() as i64, w as i64] + flat_rows(
                    wwa[t - 1],
                    rows,
                )) + bba[t - 1]);
                assert(block_b == (seq![wwb[t - 1].len() as i64, w as i64] + flat_rows(
                    wwb[t - 1],
                    rows,
                )) + bbb[t - 1]);
            }
        }
        assert forall|q: int| 0 <= q < t implies #[trigger] bba[q] == bbb[q] by {
            if q < t - 1 {
                assert(wwa[q] == wwb[q]);
            }
        }
        lemma_flat_mats_stable(wwa, bba, wwb, bbb, input, t);
    }
}

/// Law: a well-formed network table is recovered exactly by any
/// successful reload of its document.  Two tables with the same flat
/// scalar stream are networkwise identical.
pub proof fn lemma_flat_pop_injective(ns1: Seq<NeuralNetwork>, ns2: Seq<NeuralNetwork>)
    requires
        flat_pop(ns1) == flat_pop(ns2),
        ns1.len() <= 1_000_000,
        ns2.len() <= 1_000_000,
        forall|k: int| 0 <= k < ns1.len() ==> (#[trigger] ns1[k]).wf()
            && ns1[k].weights.deep_view().len() <= 1_000_000,
        forall|k: int| 0 <= k < ns2.len() ==> (#[trigger] ns2[k]).wf()
            && ns2[k].weights.deep_view().len() <= 1_000_000,
    ensures
        ns1.len() == ns2.len(),
        forall|k: int| 0 <= k < ns1.len() ==> #[trigger] ns1[k].equivalent(&ns2[k]),
{
    assert(flat_pop(ns1)[0] == ns1.len() as i64);
    assert(flat_pop(ns2)[0] == ns2.len() as i64);
    assert(ns1.len() == ns2.len());
    let n = ns1.len() as int;
    lemma_flat_pop_step(ns1, ns2, n);
}

/// The inductive heart at the table level: network prefixes with the
/// same flat stream coincide.
proof fn lemma_flat_pop_step(ns1: Seq<NeuralNetwork>, ns2: Seq<NeuralNetwork>, t: int)
    requires
        flat_pop(ns1) == flat_pop(ns2),
        ns1.len() == ns2.len(),
        ns1.len() <= 1_000_000,
        forall|k: int| 0 <= k < ns1.len() ==> (#[trigger] ns1[k]).wf()
            && ns1[k].weights.deep_view().len() <= 1_000_000,
        forall|k: int| 0 <= k < ns2.len() ==> (#[trigger] ns2[k]).wf()
            && ns2[k].weights.deep_view().len() <= 1_000_000,
        0 <= t <= ns1.len(),
    ensures
        flat_nets(ns1, t) == flat_nets(ns2, t),
        forall|q: int| 0 <= q < t ==> #[trigger] ns1[q].equivalent(&ns2[q]),
    decreases t,
{
    let n = ns1.len() as int;
    if t > 0 {
        lemma_flat_pop_step(ns1, ns2, t - 1);
        let prefix = flat_nets(ns1, t - 1);
        lemma_flat_nets_prefix(ns1, t - 1, n);
        lemma_flat_nets_prefix(ns2, t - 1, n);
        let rest1 = flat_nets(ns1, n).subrange(
            prefix.len() as int,
            flat_nets(ns1, n).len() as int,
        );
        let rest2 = flat_nets(ns2, n).subrange(
            prefix.len() as int,
            flat_nets(ns2, n).len() as int,
        );
        assert(flat_nets(ns1, n) =~= flat_nets(ns2, n)) by {
            assert(flat_pop(ns1) == seq![ns1.len() as i64] + flat_nets(ns1, n));
            assert(flat_pop(ns2) == seq![ns2.len() as i64] + flat_nets(ns2, n));
            assert(flat_pop(ns1).len() == 1 + flat_nets(ns1, n).len());
            assert(flat_pop(ns2).len() == 1 + flat_nets(ns2, n).len());
            assert(flat_nets(ns1, n).len() == flat_nets(ns2, n).len());
            assert forall|j: int| 0 <= j < flat_nets(ns1, n).len() implies flat_nets(
                ns1,
                n,
            )[j] == flat_nets(ns2, n)[j] by {
                assert(flat_pop(ns1)[1 + j] == flat_nets(ns1, n)[j]);
                assert(flat_pop(ns2)[1 + j] == flat_nets(ns2, n)[j]);
            }
        }
        assert(rest1 == rest2);
        // the flat stream after the common prefix starts with both nets
        lemma_flat_nets_tail(ns1, t - 1, n);
        lemma_flat_nets_tail(ns2, t - 1, n);
        assert(flat_net(ns1[t - 1]) + tail_after(ns1, t, n) == rest1);
        assert(flat_net(ns2[t - 1]) + tail_after(ns2, t, n) == rest2);
        lemma_flat_net_prefix_injective(
            ns1[t - 1],
            ns2[t - 1],
            tail_after(ns1, t, n),
            tail_after(ns2, t, n),
        );
        assert(flat_nets(ns1, t) == flat_nets(ns2, t)) by {
            assert(ns1[t - 1].equivalent(&ns2[t - 1]));
            assert(flat_net(ns1[t - 1]) == flat_net(ns2[t - 1])) by {
                lemma_flat_net_of_equivalent(ns1[t - 1], ns2[t - 1]);
            }
            assert(flat_nets(ns1, t) == flat_nets(ns1, t - 1) + flat_net(ns1[t - 1]));
            assert(flat_nets(ns2, t) == flat_nets(ns2, t - 1) + flat_net(ns2[t - 1]));
        }
    }
}

/// The flat stream of the networks from `t` on.
pub open spec fn tail_after(ns: Seq<NeuralNetwork>, t: int, n: int) -> Seq<i64> {
    flat_nets(ns, n).subrange(
        flat_nets(ns, t).len() as int,
        flat_nets(ns, n).len() as int,
    )
}

/// A network prefix of the table stream is a prefix of the whole.
proof fn lemma_flat_nets_prefix(ns: Seq<NeuralNetwork>, t1: int, t2: int)
    requires
        0 <= t1 <= t2,
    ensures
        flat_nets(ns, t1).len() <= flat_nets(ns, t2).len(),
        flat_nets(ns, t1) == flat_nets(ns, t2).subrange(0, flat_nets(ns, t1).len() as int),
    decreases t2 - t1,
{
    if t1 == t2 {
        assert(flat_nets(ns, t1) =~= flat_nets(ns, t2).subrange(
            0,
            flat_nets(ns, t1).len() as int,
        ));
    } else {
        lemma_flat_nets_prefix(ns, t1, t2 - 1);
        assert(flat_nets(ns, t1) =~= flat_nets(ns, t2).subrange(
            0,
            flat_nets(ns, t1).len() as int,
        ));
    }
}

/// After the first `t - 1` networks, the stream continues with network
/// `t - 1` and then the rest.
proof fn lemma_flat_nets_tail(ns: Seq<NeuralNetwork>, t1: int, n: int)
    requires
        0 <= t1 < n,
    ensures
        flat_net(ns[t1]) + tail_after(ns, t1 + 1, n) == flat_nets(ns, n).subrange(
            flat_nets(ns, t1).len() as int,
            flat_nets(ns, n).len() as int,
        ),
{
    lemma_flat_nets_prefix(ns, t1, n);
    lemma_flat_nets_prefix(ns, t1 + 1, n);
    assert(flat_nets(ns, t1 + 1) == flat_nets(ns, t1) + flat_net(ns[t1]));
    let l1 = flat_nets(ns, t1).len() as int;
    let l2 = flat_nets(ns, t1 + 1).len() as int;
    let ln = flat_nets(ns, n).len() as int;
    let fnet = flat_net(ns[t1]);
    assert(l2 == l1 + fnet.len());
    let lhs = fnet + tail_after(ns, t1 + 1, n);
    let rhs = flat_nets(ns, n).subrange(l1, ln);
    assert(lhs.len() == rhs.len());
    assert forall|j: int| 0 <= j < lhs.len() implies lhs[j] == rhs[j] by {
        if j < fnet.len() {
            assert(flat_nets(ns, t1 + 1)[l1 + j] == fnet[j]);
            assert(flat_nets(ns, t1 + 1) == flat_nets(ns, n).subrange(0, l2));
            assert(flat_nets(ns, n)[l1 + j] == flat_nets(ns, t1 + 1)[l1 + j]);
        } else {
            assert(lhs[j] == tail_after(ns, t1 + 1, n)[j - fnet.len()]);
            assert(tail_after(ns, t1 + 1, n)[j - fnet.len()] == flat_nets(ns, n)[l2 + (j
                - fnet.len())]);
        }
    }
    assert(lhs =~= rhs);
}

/// Law: a saved network table is recovered exactly.  If the document of
/// a well-formed table loads successfully, the loaded networks are the
/// saved networks, field for field.
pub proof fn lemma_save_load_exact(
    saved: Seq<NeuralNetwork>,
    loaded: Seq<NeuralNetwork>,
    bytes: Seq<u8>,
)
    requires
        stream_for(flat_pop(saved), bytes),
        stream_for(flat_pop(loaded), bytes),
        saved.len() <= 1_000_000,
        loaded.len() <= 1_000_000,
        forall|k: int| 0 <= k < saved.len() ==> (#[trigger] saved[k]).wf()
            && saved[k].weights.deep_view().len() <= 1_000_000,
        forall|k: int| 0 <= k < loaded.len() ==> (#[trigger] loaded[k]).wf()
            && loaded[k].weights.deep_view().len() <= 1_000_000,
    ensures
        saved.len() == loaded.len(),
        forall|k: int| 0 <= k < saved.len() ==> #[trigger] saved[k].equivalent(&loaded[k]),
{
    lemma_stream_unique(flat_pop(saved), flat_pop(loaded), bytes);
    lemma_flat_pop_injective(saved, loaded);
}

/// Equivalent networks have the same flat form.
proof fn lemma_flat_net_of_equivalent(a: NeuralNetwork, b: NeuralNetwork)
    requires
        a.equivalent(&b),
    ensures
        flat_net(a) == flat_net(b),
{
    lemma_flat_mats_stable(
        a.weights.deep_view(),
        a.biases.deep_view(),
        b.weights.deep_view(),
        b.biases.deep_view(),
        a.input_size as int,
        a.weights.deep_view().len() as int,
    );
}

/// Deserialize a network table from its on-disk text document.  A
/// successful load yields well-formed networks whose canonical document
/// is exactly the input; and for the document of any saveable table —
/// which is what `save_networks` writes — the load is owed success.
pub fn load_networks(bytes: &Vec<u8>) -> (r: Option<Vec<NeuralNetwork>>)
    requires
        bytes@.len() <= 1_000_000_000,
    ensures
        r is Some ==> stream_for(flat_pop(r->0@), bytes@) && r->0@.len() <= 10_000
            && forall|k: int|
            0 <= k < r->0@.len() ==> (#[trigger] r->0@[k]).wf()
                && r->0@[k].weights.deep_view().len() <= 1_000_000,
        forall|ns: Seq<NeuralNetwork>|
            #[trigger] saveable_table(ns) && stream_for(flat_pop(ns), bytes@) ==> r
                is Some,
{
    let values = match decode_values(bytes) {
        Some(v) => v,
        None => {
            proof {
                assert forall|ns: Seq<NeuralNetwork>|
                    #[trigger] saveable_table(ns) && stream_for(flat_pop(ns), bytes@)
                        implies false by {}
            }
            return None;
        },
    };
    let ghost table_hint: Option<Seq<NeuralNetwork>> = if exists|ns: Seq<NeuralNetwork>|
        #[trigger] saveable_table(ns) && flat_pop(ns) == values@ {
        Some(
            choose|ns: Seq<NeuralNetwork>|
                #[trigger] saveable_table(ns) && flat_pop(ns) == values@,
        )
    } else {
        None
    };
    let r = unflatten_networks(&values, Ghost(table_hint));
    proof {
        assert forall|ns: Seq<NeuralNetwork>|
            #[trigger] saveable_table(ns) && stream_for(flat_pop(ns), bytes@) implies r
            is Some by {
            assert(values@ == flat_pop(ns));
        }
    }
    r
}

} // verus!
