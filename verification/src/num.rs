//! Decimal text for unsigned integers: the canonical digit string of a
//! number, its exact parse, and the proofs that the two are inverses. Used
//! by the wire-format decoder, by route parsing and by detail rendering.

use vstd::prelude::*;
use vstd::arithmetic::div_mod::lemma_fundamental_div_mod;
use vstd::arithmetic::div_mod::lemma_fundamental_div_mod_converse;

verus! {

/// `u64::MAX / 10`, the largest accumulator that can take another digit.
pub const U64_MAX_DIV_10: u64 = 1844674407370955161;

pub open spec fn is_digit(c: char) -> bool {
    c == '0' || c == '1' || c == '2' || c == '3' || c == '4' || c == '5' || c == '6' || c == '7'
        || c == '8' || c == '9'
}

pub open spec fn digit_val(c: char) -> nat {
    if c == '0' {
        0
    } else if c == '1' {
        1
    } else if c == '2' {
        2
    } else if c == '3' {
        3
    } else if c == '4' {
        4
    } else if c == '5' {
        5
    } else if c == '6' {
        6
    } else if c == '7' {
        7
    } else if c == '8' {
        8
    } else {
        9
    }
}

pub open spec fn digit_char(d: nat) -> char {
    if d == 0 {
        '0'
    } else if d == 1 {
        '1'
    } else if d == 2 {
        '2'
    } else if d == 3 {
        '3'
    } else if d == 4 {
        '4'
    } else if d == 5 {
        '5'
    } else if d == 6 {
        '6'
    } else if d == 7 {
        '7'
    } else if d == 8 {
        '8'
    } else {
        '9'
    }
}

/// The canonical decimal digits of `n`, most significant first.
pub open spec fn dec_digits(n: nat) -> Seq<char>
    decreases n,
{
    if n < 10 {
        seq![digit_char(n)]
    } else {
        dec_digits(n / 10).push(digit_char(n % 10))
    }
}

/// The numeric value of a digit string, read most significant first.
pub open spec fn seq_val(s: Seq<char>) -> nat
    decreases s.len(),
{
    if s.len() == 0 {
        0
    } else {
        seq_val(s.drop_last()) * 10 + digit_val(s.last())
    }
}

pub open spec fn all_digits(s: Seq<char>) -> bool {
    forall|i: int| 0 <= i < s.len() ==> is_digit(#[trigger] s[i])
}

/// A digit string in canonical form: non-empty and without a leading zero.
pub open spec fn is_canon_dec(s: Seq<char>) -> bool {
    &&& s.len() > 0
    &&& all_digits(s)
    &&& (s.len() > 1 ==> s[0] != '0')
}

/// The digits of `n` are canonical and evaluate back to `n`.
pub proof fn lemma_dec_digits_props(n: nat)
    ensures
        is_canon_dec(dec_digits(n)),
        seq_val(dec_digits(n)) == n,
        n > 0 ==> dec_digits(n)[0] != '0',
    decreases n,
{
    if n < 10 {
        let s = seq![digit_char(n)];
        assert(s.len() == 1);
        assert(s.drop_last() =~= Seq::<char>::empty());
        assert(seq_val(Seq::<char>::empty()) == 0);
        assert(s.last() == digit_char(n));
        assert(seq_val(s) == seq_val(s.drop_last()) * 10 + digit_val(s.last()));
        assert(seq_val(s) == digit_val(digit_char(n)));
    } else {
        lemma_dec_digits_props(n / 10);
        let front = dec_digits(n / 10);
        let c = digit_char(n % 10);
        let s = front.push(c);
        assert(s.drop_last() =~= front);
        assert(s.last() == c);
        assert(n / 10 >= 1);
        assert(s[0] == front[0]);
        lemma_fundamental_div_mod(n as int, 10);
        assert(seq_val(s) == seq_val(front) * 10 + digit_val(c));
        assert(digit_val(c) == n % 10);
        assert(seq_val(s) == n);
    }
}

/// A canonical digit string whose first digit is not zero has value at
/// least one.
pub proof fn lemma_canon_pos(s: Seq<char>)
    requires
        is_canon_dec(s),
        s[0] != '0',
    ensures
        seq_val(s) >= 1,
    decreases s.len(),
{
    if s.len() == 1 {
        assert(s.drop_last() =~= Seq::<char>::empty());
    } else {
        let front = s.drop_last();
        assert(front[0] == s[0]);
        lemma_canon_pos(front);
    }
}

/// Formatting is the inverse of evaluation: a canonical digit string is the
/// digit string of its own value.
pub proof fn lemma_canon_inverse(s: Seq<char>)
    requires
        is_canon_dec(s),
    ensures
        dec_digits(seq_val(s)) == s,
    decreases s.len(),
{
    if s.len() == 1 {
        assert(s.drop_last() =~= Seq::<char>::empty());
        assert(seq_val(Seq::<char>::empty()) == 0);
        assert(s.last() == s[0]);
        assert(seq_val(s) == seq_val(s.drop_last()) * 10 + digit_val(s.last()));
        assert(seq_val(s) == digit_val(s[0]));
        assert(digit_char(digit_val(s[0])) == s[0]);
        assert(dec_digits(seq_val(s)) =~= s);
    } else {
        let front = s.drop_last();
        let last = s.last();
        assert(front[0] == s[0]);
        lemma_canon_pos(front);
        lemma_canon_inverse(front);
        let v = seq_val(s);
        assert(v == seq_val(front) * 10 + digit_val(last));
        lemma_fundamental_div_mod_converse(
            v as int,
            10,
            seq_val(front) as int,
            digit_val(last) as int,
        );
        assert(v / 10 == seq_val(front));
        assert(v % 10 == digit_val(last));
        assert(v >= 10);
        assert(dec_digits(v) == dec_digits(v / 10).push(digit_char(v % 10)));
        assert(digit_char(digit_val(last)) == last);
        assert(dec_digits(v) =~= s);
    }
}

/// Evaluation grows along a digit string: a prefix never exceeds the whole.
pub proof fn lemma_seq_val_prefix_le(s: Seq<char>, a: int, b: int, c: int)
    requires
        0 <= a <= b <= c <= s.len(),
    ensures
        seq_val(s.subrange(a, b)) <= seq_val(s.subrange(a, c)),
    decreases c - b,
{
    if b < c {
        lemma_seq_val_prefix_le(s, a, b, c - 1);
        let whole = s.subrange(a, c);
        assert(whole.drop_last() =~= s.subrange(a, c - 1));
        assert(seq_val(whole) == seq_val(s.subrange(a, c - 1)) * 10 + digit_val(whole.last()));
    }
}

/// A maximal digit run that matches the digits of some `n` ends exactly
/// where those digits end, and evaluates to `n`.
pub proof fn lemma_run_pins(s: Seq<char>, pos: int, end: int, n: u64)
    requires
        0 <= pos <= end <= s.len(),
        forall|j: int| pos <= j < end ==> is_digit(#[trigger] s[j]),
        end == s.len() || !is_digit(s[end]),
        pos + dec_digits(n as nat).len() <= s.len(),
        s.subrange(pos, pos + dec_digits(n as nat).len()) == dec_digits(n as nat),
        pos + dec_digits(n as nat).len() == s.len() || !is_digit(
            s[pos + dec_digits(n as nat).len()],
        ),
    ensures
        pos + dec_digits(n as nat).len() == end,
        s.subrange(pos, end) == dec_digits(n as nat),
        seq_val(s.subrange(pos, end)) == n,
{
    lemma_dec_digits_props(n as nat);
    let dec = dec_digits(n as nat);
    let dl = dec.len() as int;
    assert(forall|j: int|
        0 <= j < dl ==> s[pos + j] == #[trigger] dec[j]) by {
        assert(forall|j: int|
            0 <= j < dl ==> s.subrange(pos, pos + dl)[j] == #[trigger] dec[j]);
    }
    if pos + dl < end {
        assert(is_digit(s[pos + dl]));
        assert(false);
    }
    if pos + dl > end {
        assert(s[end] == dec[end - pos]);
        assert(is_digit(s[end]));
        assert(false);
    }
    assert(s.subrange(pos, end) == dec);
}

fn digit_of(c: char) -> (r: Option<u64>)
    ensures
        r matches Some(d) ==> is_digit(c) && d as nat == digit_val(c) && d < 10,
        r is None ==> !is_digit(c),
{
    match c {
        '0' => Some(0),
        '1' => Some(1),
        '2' => Some(2),
        '3' => Some(3),
        '4' => Some(4),
        '5' => Some(5),
        '6' => Some(6),
        '7' => Some(7),
        '8' => Some(8),
        '9' => Some(9),
        _ => None,
    }
}

fn digit_str(d: u64) -> (r: &'static str)
    requires
        d < 10,
    ensures
        r@ == seq![digit_char(d as nat)],
{
    let r: &'static str = if d == 0 {
        "0"
    } else if d == 1 {
        "1"
    } else if d == 2 {
        "2"
    } else if d == 3 {
        "3"
    } else if d == 4 {
        "4"
    } else if d == 5 {
        "5"
    } else if d == 6 {
        "6"
    } else if d == 7 {
        "7"
    } else if d == 8 {
        "8"
    } else {
        "9"
    };
    proof {
        reveal_strlit("0");
        reveal_strlit("1");
        reveal_strlit("2");
        reveal_strlit("3");
        reveal_strlit("4");
        reveal_strlit("5");
        reveal_strlit("6");
        reveal_strlit("7");
        reveal_strlit("8");
        reveal_strlit("9");
        assert(r@ =~= seq![digit_char(d as nat)]);
    }
    r
}

/// The canonical decimal rendering of `n`.
pub fn u64_to_string(n: u64) -> (r: String)
    ensures
        r@ == dec_digits(n as nat),
    decreases n,
{
    if n < 10 {
        String::from_str(digit_str(n))
    } else {
        let mut r = u64_to_string(n / 10);
        r.append(digit_str(n % 10));
        proof {
            assert(r@ =~= dec_digits((n / 10) as nat).push(digit_char((n % 10) as nat)));
            assert((n as nat) / 10 == (n / 10) as nat);
            assert((n as nat) % 10 == (n % 10) as nat);
        }
        r
    }
}

fn digit_at(s: &str, i: usize) -> (r: bool)
    requires
        i < s@.len(),
    ensures
        r == is_digit(s@[i as int]),
{
    let c = s.get_char(i);
    digit_of(c).is_some()
}

/// Reads the maximal digit run starting at `pos`. Succeeds exactly on the
/// canonical digits of a `u64` followed by a non-digit or the end of the
/// text: no empty run, no leading zero, no value beyond `u64::MAX`.
pub fn scan_number(s: &str, pos: usize) -> (r: Option<(u64, usize)>)
    requires
        pos <= s@.len(),
    ensures
        r matches Some(p) ==> {
            &&& pos < p.1 <= s@.len()
            &&& s@.subrange(pos as int, p.1 as int) == dec_digits(p.0 as nat)
            &&& (p.1 < s@.len() ==> !is_digit(s@[p.1 as int]))
        },
        forall|n: u64|
            {
                &&& pos + #[trigger] dec_digits(n as nat).len() <= s@.len()
                &&& s@.subrange(pos as int, pos + dec_digits(n as nat).len()) == dec_digits(
                    n as nat,
                )
                &&& (pos + dec_digits(n as nat).len() == s@.len() || !is_digit(
                    s@[pos + dec_digits(n as nat).len()],
                ))
            } ==> r == Some((n, (pos + dec_digits(n as nat).len()) as usize)),
{
    let slen = s.unicode_len();
    let mut end = pos;
    while end < slen && digit_at(s, end)
        invariant
            pos <= end <= slen,
            slen == s@.len(),
            forall|j: int| pos <= j < end ==> is_digit(#[trigger] s@[j]),
        decreases slen - end,
    {
        end = end + 1;
    }
    if end == pos {
        proof {
            assert forall|n: u64|
                pos + #[trigger] dec_digits(n as nat).len() <= s@.len()
                    && s@.subrange(pos as int, pos + dec_digits(n as nat).len()) == dec_digits(
                    n as nat,
                ) && (pos + dec_digits(n as nat).len() == s@.len() || !is_digit(
                    s@[pos + dec_digits(n as nat).len()],
                )) implies false by {
                lemma_run_pins(s@, pos as int, end as int, n);
                lemma_dec_digits_props(n as nat);
            }
        }
        return None;
    }
    let c0 = s.get_char(pos);
    if c0 == '0' && end - pos > 1 {
        proof {
            assert forall|n: u64|
                pos + #[trigger] dec_digits(n as nat).len() <= s@.len()
                    && s@.subrange(pos as int, pos + dec_digits(n as nat).len()) == dec_digits(
                    n as nat,
                ) && (pos + dec_digits(n as nat).len() == s@.len() || !is_digit(
                    s@[pos + dec_digits(n as nat).len()],
                )) implies false by {
                lemma_run_pins(s@, pos as int, end as int, n);
                lemma_dec_digits_props(n as nat);
                assert(dec_digits(n as nat)[0] == s@[pos as int]);
            }
        }
        return None;
    }
    let mut acc: u64 = 0;
    let mut i = pos;
    while i < end
        invariant
            pos <= i <= end <= slen,
            slen == s@.len(),
            end > pos,
            forall|j: int| pos <= j < end ==> is_digit(#[trigger] s@[j]),
            end == slen || !is_digit(s@[end as int]),
            s@[pos as int] == '0' ==> end == pos + 1,
            acc as nat == seq_val(s@.subrange(pos as int, i as int)),
        decreases end - i,
    {
        let c = s.get_char(i);
        let d = match digit_of(c) {
            Some(d) => d,
            None => {
                proof {
                    assert(false);
                }
                return None;
            },
        };
        proof {
            let next = s@.subrange(pos as int, i + 1);
            assert(next.drop_last() =~= s@.subrange(pos as int, i as int));
            assert(next.last() == s@[i as int]);
            assert(seq_val(next) == (acc as nat) * 10 + digit_val(s@[i as int]));
        }
        if acc > U64_MAX_DIV_10 || (acc == U64_MAX_DIV_10 && d > 5) {
            proof {
                assert(seq_val(s@.subrange(pos as int, i + 1)) > u64::MAX as nat);
                assert forall|n: u64|
                    pos + #[trigger] dec_digits(n as nat).len() <= s@.len()
                        && s@.subrange(pos as int, pos + dec_digits(n as nat).len()) == dec_digits(
                        n as nat,
                    ) && (pos + dec_digits(n as nat).len() == s@.len() || !is_digit(
                        s@[pos + dec_digits(n as nat).len()],
                    )) implies false by {
                    lemma_run_pins(s@, pos as int, end as int, n);
                    lemma_seq_val_prefix_le(s@, pos as int, i + 1, end as int);
                }
            }
            return None;
        }
        acc = acc * 10 + d;
        i = i + 1;
    }
    proof {
        let run = s@.subrange(pos as int, end as int);
        assert(is_canon_dec(run)) by {
            assert(run[0] == s@[pos as int]);
            assert(forall|j: int| 0 <= j < run.len() ==> is_digit(#[trigger] run[j]));
        }
        lemma_canon_inverse(run);
        assert(run == dec_digits(acc as nat));
        assert forall|n: u64|
            pos + #[trigger] dec_digits(n as nat).len() <= s@.len()
                && s@.subrange(pos as int, pos + dec_digits(n as nat).len()) == dec_digits(n as nat)
                && (pos + dec_digits(n as nat).len() == s@.len() || !is_digit(
                s@[pos + dec_digits(n as nat).len()],
            )) implies Some((acc, end)) == Some((n, (pos + dec_digits(n as nat).len()) as usize))
            by {
            lemma_run_pins(s@, pos as int, end as int, n);
        }
    }
    Some((acc, end))
}

} // verus!
