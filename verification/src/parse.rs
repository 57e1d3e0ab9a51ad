use vstd::prelude::*;

use vstd::arithmetic::mul::lemma_mul_nonnegative;

use crate::error::Error;
use crate::num::{abs_of, MAX_FIELD, SCALE};
use crate::sample::{raw_wf, RawSample};

verus! {

/// Whitespace bytes that separate fields: space, tab, carriage return,
/// line feed.
pub open spec fn is_space(b: u8) -> bool {
    b == 32 || b == 9 || b == 13 || b == 10
}

/// Helper of `tokens_of`: splits `s` into maximal non-space runs, with
/// `cur` the partial run carried in from the left.
pub open spec fn tokens_acc(s: Seq<u8>, cur: Seq<u8>) -> Seq<Seq<u8>>
    decreases s.len(),
{
    if s.len() == 0 {
        if cur.len() == 0 {
            Seq::empty()
        } else {
            seq![cur]
        }
    } else if is_space(s[0]) {
        if cur.len() == 0 {
            tokens_acc(s.drop_first(), Seq::empty())
        } else {
            seq![cur] + tokens_acc(s.drop_first(), Seq::empty())
        }
    } else {
        tokens_acc(s.drop_first(), cur.push(s[0]))
    }
}

/// The whitespace-separated fields of a line, in order.
pub open spec fn tokens_of(s: Seq<u8>) -> Seq<Seq<u8>> {
    tokens_acc(s, Seq::empty())
}

fn is_space_byte(b: u8) -> (r: bool)
    ensures
        r == is_space(b),
{
    b == 32 || b == 9 || b == 13 || b == 10
}

/// Splits a line into its whitespace-separated fields.
pub fn tokenize(line: &Vec<u8>) -> (toks: Vec<Vec<u8>>)
    ensures
        toks.deep_view() == tokens_of(line@),
{
    let mut toks: Vec<Vec<u8>> = Vec::new();
    let mut cur: Vec<u8> = Vec::new();
    let mut i: usize = 0;
    proof {
        assert(line@.skip(0) =~= line@);
        assert(toks.deep_view() + tokens_acc(line@.skip(0), cur@) =~~= tokens_of(line@));
    }
    while i < line.len()
        invariant
            i <= line.len(),
            tokens_of(line@) == toks.deep_view() + tokens_acc(line@.skip(i as int), cur@),
        decreases line.len() - i,
    {
        let ghost rest = line@.skip(i as int);
        proof {
            assert(rest.len() > 0);
            assert(rest[0] == line@[i as int]);
            assert(rest.drop_first() =~= line@.skip(i as int + 1));
        }
        let b = line[i];
        if is_space_byte(b) {
            if cur.len() > 0 {
                let ghost old_deep = toks.deep_view();
                let ghost cur_view = cur@;
                toks.push(cur);
                cur = Vec::new();
                proof {
                    assert(toks.deep_view() =~~= old_deep.push(cur_view));
                    assert(tokens_acc(rest, cur_view) =~= seq![cur_view] + tokens_acc(
                        rest.drop_first(),
                        Seq::empty(),
                    ));
                    assert(old_deep + (seq![cur_view] + tokens_acc(rest.drop_first(), Seq::empty()))
                        =~~= old_deep.push(cur_view) + tokens_acc(rest.drop_first(), Seq::empty()));
                }
            } else {
                proof {
                    assert(cur@ =~= Seq::<u8>::empty());
                }
            }
        } else {
            cur.push(b);
        }
        i = i + 1;
    }
    proof {
        assert(line@.skip(line@.len() as int) =~= Seq::<u8>::empty());
    }
    if cur.len() > 0 {
        let ghost old_deep = toks.deep_view();
        let ghost cur_view = cur@;
        toks.push(cur);
        proof {
            assert(toks.deep_view() =~~= old_deep.push(cur_view));
            assert(old_deep + seq![cur_view] =~~= old_deep.push(cur_view));
        }
    } else {
        proof {
            assert(toks.deep_view() + Seq::<Seq<u8>>::empty() =~~= toks.deep_view());
        }
    }
    toks
}

/// ASCII decimal digit.
pub open spec fn is_digit(b: u8) -> bool {
    48 <= b && b <= 57
}

/// Every byte of `ds` is a decimal digit.
pub open spec fn all_digits(ds: Seq<u8>) -> bool {
    forall|k: int| 0 <= k < ds.len() ==> is_digit(#[trigger] ds[k])
}

/// The non-negative integer denoted by a run of decimal digits; the empty
/// run denotes zero.
pub open spec fn digits_value(ds: Seq<u8>) -> int
    decreases ds.len(),
{
    if ds.len() == 0 {
        0
    } else {
        digits_value(ds.drop_last()) * 10 + (ds.last() - 48)
    }
}

/// Index of the first `.` in `u`, or `u.len()` when there is none.
pub open spec fn dot_index(u: Seq<u8>) -> int
    decreases u.len(),
{
    if u.len() == 0 {
        0
    } else if u[0] == 46 {
        0
    } else {
        1 + dot_index(u.drop_first())
    }
}

/// `t` without its optional leading sign.
pub open spec fn unsigned_part(t: Seq<u8>) -> Seq<u8> {
    if t.len() > 0 && (t[0] == 43 || t[0] == 45) {
        t.drop_first()
    } else {
        t
    }
}

/// The sign a leading `-` denotes.
pub open spec fn sign_of(t: Seq<u8>) -> int {
    if t.len() > 0 && t[0] == 45 {
        -1
    } else {
        1
    }
}

/// Digits before the first dot of the unsigned body.
pub open spec fn int_part(u: Seq<u8>) -> Seq<u8> {
    u.take(dot_index(u))
}

/// Digits after the first dot of the unsigned body; empty when there is no
/// dot.
pub open spec fn frac_part(u: Seq<u8>) -> Seq<u8> {
    if dot_index(u) == u.len() {
        Seq::empty()
    } else {
        u.skip(dot_index(u) + 1)
    }
}

/// A field is numeric when it is an optional sign followed by decimal
/// digits with at most one dot somewhere among them, and it holds at least
/// one digit or is a bare digit run.
pub open spec fn is_number(t: Seq<u8>) -> bool {
    let u = unsigned_part(t);
    &&& u.len() > 0
    &&& (u.len() > 1 || u[0] != 46)
    &&& all_digits(int_part(u))
    &&& all_digits(frac_part(u))
}

/// Ten to the `n`.
pub open spec fn pow10(n: nat) -> int
    decreases n,
{
    if n == 0 {
        1
    } else {
        10 * pow10((n - 1) as nat)
    }
}

/// Value of the fraction digits in fixed-point steps: the first six
/// fraction digits count, further digits are cut off (truncation toward
/// zero of the magnitude).
pub open spec fn frac_scaled(fs: Seq<u8>) -> int {
    if fs.len() >= 6 {
        digits_value(fs.take(6))
    } else {
        digits_value(fs) * pow10((6 - fs.len()) as nat)
    }
}

/// The fixed-point value a numeric field denotes.
pub open spec fn number_value(t: Seq<u8>) -> int {
    let u = unsigned_part(t);
    sign_of(t) * (digits_value(int_part(u)) * SCALE + frac_scaled(frac_part(u)))
}

/// A field the parser accepts: numeric and within the representable
/// magnitude.
pub open spec fn ok_field(t: Seq<u8>) -> bool {
    is_number(t) && abs_of(number_value(t)) <= MAX_FIELD
}

/// Appending a digit multiplies the run's value by ten and adds the digit.
pub proof fn lemma_digits_value_push(ds: Seq<u8>, d: u8)
    ensures
        digits_value(ds.push(d)) == digits_value(ds) * 10 + (d - 48),
{
    assert(ds.push(d).drop_last() =~= ds);
    assert(ds.push(d).last() == d);
}

/// A digit run denotes a non-negative value below ten to its length.
pub proof fn lemma_digits_value_bounds(ds: Seq<u8>)
    requires
        all_digits(ds),
    ensures
        0 <= digits_value(ds) < pow10(ds.len()),
    decreases ds.len(),
{
    if ds.len() == 0 {
    } else {
        assert(forall|k: int| 0 <= k < ds.drop_last().len() ==> is_digit(#[trigger] ds.drop_last()[k]));
        lemma_digits_value_bounds(ds.drop_last());
        assert(is_digit(ds.last()));
        assert(pow10(ds.len()) == 10 * pow10((ds.len() - 1) as nat));
    }
}

/// `dot_index` finds the first dot: nothing before it is a dot, and it
/// points at a dot unless there is none.
pub proof fn lemma_dot_index(u: Seq<u8>)
    ensures
        0 <= dot_index(u) <= u.len(),
        forall|m: int| 0 <= m < dot_index(u) ==> u[m] != 46,
        dot_index(u) < u.len() ==> u[dot_index(u)] == 46,
    decreases u.len(),
{
    if u.len() == 0 {
    } else if u[0] == 46 {
    } else {
        lemma_dot_index(u.drop_first());
        assert(forall|m: int| 0 <= m < u.len() - 1 ==> u.drop_first()[m] == u[m + 1]);
        assert forall|m: int| 0 <= m < dot_index(u) implies u[m] != 46 by {
            if m >= 1 {
                assert(u.drop_first()[m - 1] != 46);
            }
        }
        if dot_index(u) < u.len() {
            assert(u[dot_index(u)] == u.drop_first()[dot_index(u) - 1]);
        }
    }
}

/// Small powers of ten, spelled out.
pub proof fn lemma_pow10_values()
    ensures
        pow10(0) == 1,
        pow10(1) == 10,
        pow10(2) == 100,
        pow10(3) == 1000,
        pow10(4) == 10000,
        pow10(5) == 100000,
        pow10(6) == 1000000,
{
    assert(pow10(0) == 1);
    assert(pow10(1) == 10 * pow10(0));
    assert(pow10(2) == 10 * pow10(1));
    assert(pow10(3) == 10 * pow10(2));
    assert(pow10(4) == 10 * pow10(3));
    assert(pow10(5) == 10 * pow10(4));
    assert(pow10(6) == 10 * pow10(5));
}

/// Parses one whitespace-free field into a fixed-point value.
///
/// Accepted fields are decimal numbers (optional sign, digits, at most one
/// dot) whose magnitude is at most `MAX_FIELD`; fraction digits beyond the
/// fixed-point resolution are cut off toward zero.
#[verifier::rlimit(80)]
pub fn parse_field(tok: &Vec<u8>) -> (r: Option<i64>)
    ensures
        match r {
            Some(v) => ok_field(tok@) && v as int == number_value(tok@),
            None => !ok_field(tok@),
        },
{
    let n = tok.len();
    if n == 0 {
        return None;
    }
    let first = tok[0];
    let neg = first == 45;
    let p: usize = if first == 43 || first == 45 {
        1
    } else {
        0
    };
    let ghost u = unsigned_part(tok@);
    proof {
        assert(u =~= tok@.skip(p as int));
    }
    if p == n {
        // a bare sign has no digits
        return None;
    }
    let mut i: usize = p;
    let mut seen_dot = false;
    let mut dot_pos: usize = 0;
    let mut bad = false;
    let mut units: u64 = 0;
    let mut over = false;
    let mut fdigits: usize = 0;
    let mut frac: u64 = 0;
    proof {
        assert(tok@.subrange(p as int, p as int) =~= Seq::<u8>::empty());
    }
    while i < n
        invariant
            p <= i <= n,
            p < n,
            n == tok@.len(),
            p <= 1,
            (p == 1) <==> (tok@[0] == 43 || tok@[0] == 45),
            u == unsigned_part(tok@),
            u == tok@.skip(p as int),
            neg <==> (tok@[0] == 45),
            bad ==> !is_number(tok@),
            !bad && !seen_dot ==> forall|k: int| p <= k < i ==> is_digit(#[trigger] tok@[k]),
            !bad && !seen_dot && over ==> digits_value(tok@.subrange(p as int, i as int))
                > 1_000_000,
            !bad && !seen_dot && !over ==> units == digits_value(
                tok@.subrange(p as int, i as int),
            ) && units <= 1_000_000,
            !bad && seen_dot ==> p <= dot_pos < i && tok@[dot_pos as int] == 46 && (forall|k: int|
                p <= k < dot_pos ==> is_digit(#[trigger] tok@[k])) && (forall|k: int|
                dot_pos < k < i ==> is_digit(#[trigger] tok@[k])) && fdigits == i - dot_pos - 1,
            !bad && seen_dot && over ==> digits_value(tok@.subrange(p as int, dot_pos as int))
                > 1_000_000,
            !bad && seen_dot && !over ==> units == digits_value(
                tok@.subrange(p as int, dot_pos as int),
            ) && units <= 1_000_000,
            !bad && seen_dot && fdigits >= 6 ==> frac == digits_value(
                tok@.subrange(dot_pos as int + 1, dot_pos as int + 7),
            ) && frac < 1_000_000,
            !bad && seen_dot && fdigits < 6 ==> frac == digits_value(
                tok@.subrange(dot_pos as int + 1, i as int),
            ) && frac < pow10(fdigits as nat),
        decreases n - i,
    {
        let b = tok[i];
        if bad {
            // the field is already known to be malformed; only finish the scan
        } else if 48 <= b && b <= 57 {
            if !seen_dot {
                let ghost pref = tok@.subrange(p as int, i as int);
                proof {
                    assert(tok@.subrange(p as int, i as int + 1) =~= pref.push(tok@[i as int]));
                    lemma_digits_value_push(pref, tok@[i as int]);
                }
                if !over {
                    let newu = units * 10 + ((b - 48) as u64);
                    if newu > 1_000_000 {
                        over = true;
                    } else {
                        units = newu;
                    }
                }
            } else {
                let ghost fpref = tok@.subrange(dot_pos as int + 1, i as int);
                proof {
                    assert(tok@.subrange(dot_pos as int + 1, i as int + 1) =~= fpref.push(
                        tok@[i as int],
                    ));
                    lemma_digits_value_push(fpref, tok@[i as int]);
                    lemma_pow10_values();
                    if fdigits < 6 {
                        assert(pow10((fdigits + 1) as nat) == 10 * pow10(fdigits as nat));
                    }
                }
                if fdigits < 6 {
                    frac = frac * 10 + ((b - 48) as u64);
                }
                fdigits = fdigits + 1;
            }
        } else if b == 46 && !seen_dot {
            seen_dot = true;
            dot_pos = i;
            fdigits = 0;
            frac = 0;
            proof {
                assert(tok@.subrange(i as int + 1, i as int + 1) =~= Seq::<u8>::empty());
                lemma_pow10_values();
            }
        } else {
            proof {
                lemma_dot_index(u);
                let j = i - p;
                assert(forall|k: int| 0 <= k < u.len() ==> u[k] == tok@[p + k]);
                assert(u[j as int] == tok@[i as int]);
                if !seen_dot {
                    // everything before position j is a digit, so the first
                    // dot cannot lie at or before j, and the integer part
                    // keeps the offending byte
                    assert(forall|k: int| 0 <= k < j ==> is_digit(#[trigger] u[k]));
                    if dot_index(u) <= j {
                        assert(u[dot_index(u)] == 46);
                        assert(false);
                    }
                    assert(int_part(u)[j as int] == u[j as int]);
                    assert(!is_digit(int_part(u)[j as int]));
                    assert(!is_number(tok@));
                } else {
                    let dj = dot_pos - p;
                    assert(u[dj as int] == 46);
                    assert(forall|k: int| 0 <= k < dj ==> is_digit(#[trigger] u[k]));
                    if dot_index(u) < dj {
                        assert(is_digit(u[dot_index(u)]));
                        assert(u[dot_index(u)] == 46);
                        assert(false);
                    }
                    if dot_index(u) > dj {
                        assert(u[dj as int] != 46);
                        assert(false);
                    }
                    assert(frac_part(u)[j - dj - 1] == u[j as int]);
                    assert(!is_digit(frac_part(u)[j - dj - 1]));
                    assert(!is_number(tok@));
                }
            }
            bad = true;
        }
        i = i + 1;
    }
    if bad {
        return None;
    }
    proof {
        lemma_dot_index(u);
        assert(forall|k: int| 0 <= k < u.len() ==> u[k] == tok@[p + k]);
    }
    if !seen_dot {
        proof {
            assert(forall|k: int| 0 <= k < u.len() ==> is_digit(#[trigger] u[k]));
            if dot_index(u) < u.len() {
                assert(is_digit(u[dot_index(u)]));
                assert(false);
            }
            assert(int_part(u) =~= u);
            assert(frac_part(u) =~= Seq::<u8>::empty());
            assert(u =~= tok@.subrange(p as int, n as int));
            assert(is_number(tok@));
            assert(frac_scaled(frac_part(u)) == 0);
        }
        if over {
            proof {
                let uval = digits_value(u);
                assert(uval * SCALE == uval * 1_000_000);
                assert(uval * 1_000_000 > 1_000_000_000_000) by {
                    assert(uval > 1_000_000);
                }
                let total = uval * SCALE + frac_scaled(frac_part(u));
                assert(total > MAX_FIELD);
                assert(number_value(tok@) == sign_of(tok@) * total);
                if tok@[0] == 45 {
                    assert(sign_of(tok@) == -1);
                    assert(number_value(tok@) == -1 * total);
                    assert(-1 * total == -total) by (nonlinear_arith);
                } else {
                    assert(sign_of(tok@) == 1);
                    assert(number_value(tok@) == 1 * total);
                    assert(1 * total == total) by (nonlinear_arith);
                }
                assert(abs_of(number_value(tok@)) > MAX_FIELD);
            }
            None
        } else {
            let val: u64 = units * 1_000_000;
            let v: i64 = if neg {
                -(val as i64)
            } else {
                val as i64
            };
            proof {
                let uval = digits_value(u);
                assert(uval * SCALE == uval * 1_000_000);
                let total = uval * SCALE + frac_scaled(frac_part(u));
                assert(total == uval * 1_000_000);
                assert(number_value(tok@) == sign_of(tok@) * total);
                if tok@[0] == 45 {
                    assert(sign_of(tok@) == -1);
                    assert(number_value(tok@) == -1 * total);
                    assert(-1 * total == -total) by (nonlinear_arith);
                } else {
                    assert(sign_of(tok@) == 1);
                    assert(number_value(tok@) == 1 * total);
                    assert(1 * total == total) by (nonlinear_arith);
                }
                assert(abs_of(number_value(tok@)) == val);
            }
            Some(v)
        }
    } else {
        proof {
            let dj = dot_pos - p;
            assert(u[dj as int] == 46);
            assert(forall|k: int| 0 <= k < dj ==> is_digit(#[trigger] u[k]));
            if dot_index(u) < dj {
                assert(is_digit(u[dot_index(u)]));
                assert(u[dot_index(u)] == 46);
                assert(false);
            }
            if dot_index(u) > dj {
                assert(u[dj as int] != 46);
                assert(false);
            }
            assert(int_part(u) =~= tok@.subrange(p as int, dot_pos as int));
            assert(frac_part(u) =~= tok@.subrange(dot_pos as int + 1, n as int));
        }
        if dot_pos == p && n == dot_pos + 1 {
            // the body is a bare dot with no digit on either side
            proof {
                assert(u.len() == 1 && u[0] == 46);
                assert(!is_number(tok@));
            }
            return None;
        }
        proof {
            assert(u.len() > 1);
            assert(is_number(tok@));
            lemma_pow10_values();
            lemma_digits_value_bounds(frac_part(u));
        }
        let fval: u64 = if fdigits >= 6 {
            proof {
                assert(frac_part(u).take(6) =~= tok@.subrange(dot_pos as int + 1, dot_pos as int
                    + 7));
                assert(frac_scaled(frac_part(u)) == frac);
            }
            frac
        } else {
            let pad: u64 = if fdigits == 0 {
                1_000_000
            } else if fdigits == 1 {
                100_000
            } else if fdigits == 2 {
                10_000
            } else if fdigits == 3 {
                1_000
            } else if fdigits == 4 {
                100
            } else {
                10
            };
            proof {
                assert(pad == pow10((6 - fdigits) as nat));
                assert(frac_scaled(frac_part(u)) == frac * pad);
                assert(frac < 1_000_000);
                assert(frac * pad <= 1_000_000 * pad) by {
                    lemma_mul_nonnegative(pad as int, 1_000_000 - frac);
                }
            }
            frac * pad
        };
        proof {
            assert(0 <= frac_scaled(frac_part(u)));
            assert(fval == frac_scaled(frac_part(u)));
            assert(fval <= 1_000_000_000_000);
        }
        if over {
            proof {
                let uval = digits_value(int_part(u));
                let total = uval * SCALE + frac_scaled(frac_part(u));
                assert(uval * SCALE == uval * 1_000_000);
                assert(uval * 1_000_000 > 1_000_000_000_000) by {
                    assert(uval > 1_000_000);
                }
                assert(total > MAX_FIELD);
                assert(number_value(tok@) == sign_of(tok@) * total);
                if tok@[0] == 45 {
                    assert(sign_of(tok@) == -1);
                    assert(number_value(tok@) == -1 * total);
                    assert(-1 * total == -total) by (nonlinear_arith);
                } else {
                    assert(sign_of(tok@) == 1);
                    assert(number_value(tok@) == 1 * total);
                    assert(1 * total == total) by (nonlinear_arith);
                }
                assert(abs_of(number_value(tok@)) > MAX_FIELD);
            }
            None
        } else {
            let val: u64 = units * 1_000_000 + fval;
            proof {
                let uval = digits_value(int_part(u));
                assert(uval * SCALE == uval * 1_000_000);
                let total = uval * SCALE + frac_scaled(frac_part(u));
                assert(val == total);
                assert(number_value(tok@) == sign_of(tok@) * total);
                if tok@[0] == 45 {
                    assert(sign_of(tok@) == -1);
                    assert(number_value(tok@) == -1 * total);
                    assert(-1 * total == -total) by (nonlinear_arith);
                } else {
                    assert(sign_of(tok@) == 1);
                    assert(number_value(tok@) == 1 * total);
                    assert(1 * total == total) by (nonlinear_arith);
                }
                assert(abs_of(number_value(tok@)) == val);
            }
            if val > 1_000_000_000_000 {
                None
            } else {
                let v: i64 = if neg {
                    -(val as i64)
                } else {
                    val as i64
                };
                Some(v)
            }
        }
    }
}

/// A line with no fields at all.
pub open spec fn line_blank(l: Seq<u8>) -> bool {
    tokens_of(l).len() == 0
}

/// Length of the input once blank trailing lines are ignored.
pub open spec fn effective_len(lines: Seq<Seq<u8>>) -> int
    decreases lines.len(),
{
    if lines.len() == 0 {
        0
    } else if line_blank(lines.last()) {
        effective_len(lines.drop_last())
    } else {
        lines.len() as int
    }
}

/// A record line: exactly three fields, each numeric and in range.
pub open spec fn line_ok(l: Seq<u8>) -> bool {
    let toks = tokens_of(l);
    &&& toks.len() == 3
    &&& ok_field(toks[0])
    &&& ok_field(toks[1])
    &&& ok_field(toks[2])
}

/// Index of the first offending field of a bad line: a missing or
/// non-numeric field among the first three, else the surplus fourth.
pub open spec fn bad_field_of(l: Seq<u8>) -> int {
    let toks = tokens_of(l);
    if !(toks.len() >= 1 && ok_field(toks[0])) {
        0
    } else if !(toks.len() >= 2 && ok_field(toks[1])) {
        1
    } else if !(toks.len() >= 3 && ok_field(toks[2])) {
        2
    } else {
        3
    }
}

/// The raw sample a good record line denotes.
pub open spec fn line_sample(l: Seq<u8>) -> RawSample {
    let toks = tokens_of(l);
    RawSample {
        energy: number_value(toks[0]) as i64,
        incident: number_value(toks[1]) as i64,
        transmitted: number_value(toks[2]) as i64,
    }
}

/// Parses a sequence of text lines into raw samples.
///
/// Blank trailing lines are ignored; every remaining line must hold
/// exactly three numeric fields, else the batch fails with
/// `MalformedRecord` naming the first offending line and field.
pub fn parse_lines(lines: &Vec<Vec<u8>>) -> (r: Result<Vec<RawSample>, Error>)
    ensures
        match r {
            Ok(v) => {
                &&& forall|k: int|
                    0 <= k < effective_len(lines.deep_view()) ==> line_ok(
                        #[trigger] lines.deep_view()[k],
                    )
                &&& v@.len() == effective_len(lines.deep_view())
                &&& forall|k: int|
                    0 <= k < v@.len() ==> (#[trigger] v@[k]) == line_sample(lines.deep_view()[k])
                        && raw_wf(v@[k])
            },
            Err(e) => exists|k: int|
                {
                    &&& 0 <= k < effective_len(lines.deep_view())
                    &&& !line_ok(#[trigger] lines.deep_view()[k])
                    &&& forall|m: int| 0 <= m < k ==> line_ok(#[trigger] lines.deep_view()[m])
                    &&& e == (Error::MalformedRecord {
                        line: k as usize,
                        field: bad_field_of(lines.deep_view()[k]) as usize,
                    })
                },
        },
{
    let ghost dv = lines.deep_view();
    let mut n: usize = lines.len();
    let mut stop = false;
    proof {
        assert(dv.take(n as int) =~= dv);
    }
    while !stop && n > 0
        invariant
            n <= lines@.len(),
            dv == lines.deep_view(),
            dv.len() == lines@.len(),
            effective_len(dv) == effective_len(dv.take(n as int)),
            stop ==> n > 0 && !line_blank(dv[n as int - 1]),
        decreases n + (if stop {
            0int
        } else {
            1int
        }),
    {
        let toks = tokenize(&lines[n - 1]);
        proof {
            assert(dv[n as int - 1] == lines@[n as int - 1]@);
        }
        if toks.len() == 0 {
            proof {
                assert(tokens_of(dv[n as int - 1]).len() == 0);
                assert(dv.take(n as int).last() == dv[n as int - 1]);
                assert(dv.take(n as int).drop_last() =~= dv.take(n as int - 1));
            }
            n = n - 1;
        } else {
            proof {
                assert(tokens_of(dv[n as int - 1]).len() > 0);
            }
            stop = true;
        }
    }
    proof {
        if n == 0 {
            assert(dv.take(0) =~= Seq::<Seq<u8>>::empty());
            assert(effective_len(dv) == 0);
        } else {
            assert(dv.take(n as int).last() == dv[n as int - 1]);
            assert(effective_len(dv.take(n as int)) == n);
        }
    }
    let mut out: Vec<RawSample> = Vec::new();
    let mut i: usize = 0;
    while i < n
        invariant
            i <= n,
            n <= lines@.len(),
            dv == lines.deep_view(),
            dv.len() == lines@.len(),
            effective_len(dv) == n,
            out@.len() == i,
            forall|k: int| 0 <= k < i ==> line_ok(#[trigger] dv[k]),
            forall|k: int|
                0 <= k < i ==> (#[trigger] out@[k]) == line_sample(dv[k]) && raw_wf(out@[k]),
        decreases n - i,
    {
        let toks = tokenize(&lines[i]);
        let ghost l = dv[i as int];
        proof {
            assert(l == lines@[i as int]@);
            assert(toks.deep_view().len() == toks@.len());
        }
        if toks.len() < 1 {
            return Err(Error::MalformedRecord { line: i, field: 0 });
        }
        proof {
            assert(toks.deep_view()[0] == toks@[0]@);
        }
        let e = match parse_field(&toks[0]) {
            Some(x) => x,
            None => {
                return Err(Error::MalformedRecord { line: i, field: 0 });
            },
        };
        if toks.len() < 2 {
            return Err(Error::MalformedRecord { line: i, field: 1 });
        }
        proof {
            assert(toks.deep_view()[1] == toks@[1]@);
        }
        let i0 = match parse_field(&toks[1]) {
            Some(x) => x,
            None => {
                return Err(Error::MalformedRecord { line: i, field: 1 });
            },
        };
        if toks.len() < 3 {
            return Err(Error::MalformedRecord { line: i, field: 2 });
        }
        proof {
            assert(toks.deep_view()[2] == toks@[2]@);
        }
        let i1 = match parse_field(&toks[2]) {
            Some(x) => x,
            None => {
                return Err(Error::MalformedRecord { line: i, field: 2 });
            },
        };
        if toks.len() > 3 {
            return Err(Error::MalformedRecord { line: i, field: 3 });
        }
        out.push(RawSample { energy: e, incident: i0, transmitted: i1 });
        i = i + 1;
    }
    Ok(out)
}

} // verus!
