use vstd::prelude::*;
use crate::date::{
    COMMA, D0, D1, D9, DASH, Date, NEWLINE, date_bytes_ok, digit_byte, dval, is_digit,
    format_date, lemma_date_bytes_clean, lemma_format_parse_date, spec_format_date, spec_parse_date,
};
use crate::day::{CENTI_LIMIT, Day, opt_centi_ok};
use crate::history::{History, entries_wf};
use crate::HealthTrackerError;

verus! {

/// Index of the first occurrence of `sep` in `t`, or `t.len()` when absent.
pub open spec fn find_sep(t: Seq<u8>, sep: u8) -> int
    decreases t.len(),
{
    if t.len() == 0 {
        0
    } else if t[0] == sep {
        0
    } else {
        1 + find_sep(t.skip(1), sep)
    }
}

pub proof fn lemma_find_sep(t: Seq<u8>, sep: u8)
    ensures
        0 <= find_sep(t, sep) <= t.len(),
        find_sep(t, sep) < t.len() ==> t[find_sep(t, sep)] == sep,
        forall|k: int| 0 <= k < find_sep(t, sep) ==> t[k] != sep,
    decreases t.len(),
{
    if t.len() > 0 && t[0] != sep {
        lemma_find_sep(t.skip(1), sep);
        assert forall|k: int| 0 <= k < find_sep(t, sep) implies t[k] != sep by {
            if k > 0 {
                assert(t.skip(1)[k - 1] == t[k]);
            }
        }
        if find_sep(t, sep) < t.len() {
            assert(t.skip(1)[find_sep(t.skip(1), sep)] == t[find_sep(t, sep)]);
        }
    }
}

/// `find_sep` is the one index with no separator before it that sits on a
/// separator or at the end.
pub proof fn lemma_find_sep_at(t: Seq<u8>, sep: u8, j: int)
    requires
        0 <= j <= t.len(),
        forall|k: int| 0 <= k < j ==> t[k] != sep,
        j < t.len() ==> t[j] == sep,
    ensures
        find_sep(t, sep) == j,
    decreases t.len(),
{
    if t.len() == 0 {
    } else if t[0] == sep {
        assert(j == 0);
    } else {
        assert(j > 0);
        assert forall|k: int| 0 <= k < j - 1 implies t.skip(1)[k] != sep by {
            assert(t.skip(1)[k] == t[k + 1]);
        }
        if j < t.len() {
            assert(t.skip(1)[j - 1] == t[j]);
        }
        lemma_find_sep_at(t.skip(1), sep, j - 1);
    }
}

/// The pieces of `t` between occurrences of `sep`, in order; `n` separators
/// yield `n + 1` pieces.
pub open spec fn spec_split(t: Seq<u8>, sep: u8) -> Seq<Seq<u8>>
    decreases t.len(),
    via spec_split_dec
{
    let i = find_sep(t, sep);
    if i == t.len() {
        seq![t]
    } else {
        seq![t.take(i)] + spec_split(t.skip(i + 1), sep)
    }
}

#[via_fn]
proof fn spec_split_dec(t: Seq<u8>, sep: u8) {
    lemma_find_sep(t, sep);
}

/// The pieces joined back, one `sep` between neighbours.
pub open spec fn spec_join(ls: Seq<Seq<u8>>, sep: u8) -> Seq<u8>
    decreases ls.len(),
{
    if ls.len() == 0 {
        Seq::empty()
    } else if ls.len() == 1 {
        ls[0]
    } else {
        ls[0] + seq![sep] + spec_join(ls.skip(1), sep)
    }
}

/// Splitting a joined sequence returns the pieces, provided none of them
/// holds the separator.
pub proof fn lemma_split_join(ls: Seq<Seq<u8>>, sep: u8)
    requires
        ls.len() >= 1,
        forall|i: int| 0 <= i < ls.len() ==> !(#[trigger] ls[i]).contains(sep),
    ensures
        spec_split(spec_join(ls, sep), sep) == ls,
    decreases ls.len(),
{
    let t = spec_join(ls, sep);
    if ls.len() == 1 {
        assert(t == ls[0]);
        assert forall|k: int| 0 <= k < t.len() implies t[k] != sep by {
            assert(!ls[0].contains(sep));
        }
        lemma_find_sep_at(t, sep, t.len() as int);
        assert(spec_split(t, sep) =~= ls);
    } else {
        let l0 = ls[0];
        let rest = spec_join(ls.skip(1), sep);
        assert(t == l0 + seq![sep] + rest);
        assert(!l0.contains(sep));
        assert forall|k: int| 0 <= k < l0.len() implies t[k] != sep by {
            assert(t[k] == l0[k]);
        }
        assert(t[l0.len() as int] == sep);
        lemma_find_sep_at(t, sep, l0.len() as int);
        assert(t.take(l0.len() as int) =~= l0);
        assert(t.skip(l0.len() as int + 1) =~= rest);
        assert forall|i: int| 0 <= i < ls.skip(1).len() implies !(#[trigger] ls.skip(1)[i]).contains(
            sep,
        ) by {
            assert(ls.skip(1)[i] == ls[i + 1]);
        }
        lemma_split_join(ls.skip(1), sep);
        assert(spec_split(t, sep) =~= seq![l0] + ls.skip(1));
        assert(seq![l0] + ls.skip(1) =~= ls);
    }
}

/// Appending one more piece extends the joined text by a separator and the
/// piece.
pub proof fn lemma_join_push(ls: Seq<Seq<u8>>, x: Seq<u8>, sep: u8)
    requires
        ls.len() >= 1,
    ensures
        spec_join(ls.push(x), sep) == spec_join(ls, sep) + seq![sep] + x,
    decreases ls.len(),
{
    if ls.len() == 1 {
        assert(ls.push(x).skip(1) =~= seq![x]);
        assert(ls.push(x)[0] == ls[0]);
        assert(spec_join(seq![x], sep) == seq![x][0]);
        assert(spec_join(ls.push(x), sep) == ls.push(x)[0] + seq![sep] + spec_join(
            ls.push(x).skip(1),
            sep,
        ));
        assert(spec_join(ls.push(x), sep) =~= ls[0] + seq![sep] + x);
    } else {
        assert(ls.push(x).skip(1) =~= ls.skip(1).push(x));
        lemma_join_push(ls.skip(1), x, sep);
        assert(spec_join(ls.push(x), sep) =~= spec_join(ls, sep) + seq![sep] + x);
    }
}

/// The views of a vector of byte vectors.
pub open spec fn views(toks: Seq<Vec<u8>>) -> Seq<Seq<u8>> {
    toks.map_values(|v: Vec<u8>| v@)
}

/// Splits `data` at every occurrence of `sep`.
pub fn split_bytes(data: &[u8], sep: u8) -> (toks: Vec<Vec<u8>>)
    ensures
        views(toks@) == spec_split(data@, sep),
{
    let mut toks: Vec<Vec<u8>> = Vec::new();
    let mut cur: Vec<u8> = Vec::new();
    let mut i: usize = 0;
    proof {
        assert(cur@ + data@.skip(0) =~= data@);
        assert(views(toks@) + spec_split(data@, sep) =~= spec_split(data@, sep));
    }
    while i < data.len()
        invariant
            0 <= i <= data@.len(),
            !cur@.contains(sep),
            spec_split(data@, sep) == views(toks@) + spec_split(cur@ + data@.skip(i as int), sep),
        decreases data@.len() - i,
    {
        let b = data[i];
        if b == sep {
            proof {
                let u = cur@ + data@.skip(i as int);
                assert forall|k: int| 0 <= k < cur@.len() implies u[k] != sep by {
                    assert(u[k] == cur@[k]);
                }
                assert(u[cur@.len() as int] == sep);
                lemma_find_sep_at(u, sep, cur@.len() as int);
                assert(u.take(cur@.len() as int) =~= cur@);
                assert(u.skip(cur@.len() as int + 1) =~= data@.skip(i + 1));
                assert(views(toks@.push(cur)) =~= views(toks@).push(cur@));
                assert(views(toks@) + spec_split(u, sep) =~= views(toks@.push(cur)) + spec_split(
                    Seq::<u8>::empty() + data@.skip(i + 1),
                    sep,
                ));
                assert(Seq::<u8>::empty() + data@.skip(i + 1) =~= data@.skip(i + 1));
            }
            toks.push(cur);
            cur = Vec::new();
        } else {
            proof {
                assert(cur@.push(b) + data@.skip(i + 1) =~= cur@ + data@.skip(i as int));
            }
            cur.push(b);
        }
        i = i + 1;
        proof {
            assert(Seq::<u8>::empty() + data@.skip(i as int) =~= data@.skip(i as int));
        }
    }
    proof {
        assert(cur@ + data@.skip(i as int) =~= cur@);
        lemma_find_sep_at(cur@, sep, cur@.len() as int);
        assert(spec_split(cur@, sep) =~= seq![cur@]);
        assert(views(toks@.push(cur)) =~= views(toks@).push(cur@));
        assert(views(toks@) + seq![cur@] =~= views(toks@).push(cur@));
    }
    toks.push(cur);
    toks
}

} // verus!

verus! {

/// Powers of ten, for digit-count bounds.
pub open spec fn pow10(k: nat) -> int
    decreases k,
{
    if k == 0 {
        1
    } else {
        10 * pow10((k - 1) as nat)
    }
}

pub proof fn lemma_pow10_limit()
    ensures
        pow10(15) == CENTI_LIMIT,
        pow10(14) * 10 == CENTI_LIMIT,
{
    reveal_with_fuel(pow10, 16);
}

/// Decimal digits of `n`, most significant first, no leading zero.
pub open spec fn spec_digits(n: nat) -> Seq<u8>
    decreases n,
{
    if n < 10 {
        seq![digit_byte(n as int)]
    } else {
        spec_digits(n / 10).push(digit_byte(n as int % 10))
    }
}

/// The number a digit sequence names.
pub open spec fn digits_val(s: Seq<u8>) -> int
    decreases s.len(),
{
    if s.len() == 0 {
        0
    } else {
        digits_val(s.drop_last()) * 10 + dval(s.last())
    }
}

pub open spec fn all_digits(s: Seq<u8>) -> bool {
    forall|i: int| 0 <= i < s.len() ==> is_digit(#[trigger] s[i])
}

/// Meaning of an unsigned number token: one to fifteen decimal digits.
pub open spec fn spec_parse_uint(s: Seq<u8>) -> Option<int> {
    if 1 <= s.len() <= 15 && all_digits(s) {
        Some(digits_val(s))
    } else {
        None
    }
}

/// Meaning of a signed number token: an optional minus sign, then digits.
pub open spec fn spec_parse_int(s: Seq<u8>) -> Option<int> {
    if s.len() >= 1 && s[0] == DASH {
        match spec_parse_uint(s.skip(1)) {
            Some(n) => Some(-n),
            None => None,
        }
    } else {
        spec_parse_uint(s)
    }
}

/// The canonical token of a signed value.
pub open spec fn spec_int_token(v: int) -> Seq<u8> {
    if v < 0 {
        seq![DASH] + spec_digits((-v) as nat)
    } else {
        spec_digits(v as nat)
    }
}

pub proof fn lemma_digits_val_bound(s: Seq<u8>)
    requires
        all_digits(s),
    ensures
        0 <= digits_val(s) < pow10(s.len()),
    decreases s.len(),
{
    if s.len() > 0 {
        assert(forall|i: int| 0 <= i < s.len() - 1 ==> s.drop_last()[i] == s[i]);
        lemma_digits_val_bound(s.drop_last());
    }
}

/// The digits of `n` name `n` again.
pub proof fn lemma_digits_round_trip(n: nat)
    ensures
        all_digits(spec_digits(n)),
        spec_digits(n).len() >= 1,
        digits_val(spec_digits(n)) == n,
    decreases n,
{
    if n < 10 {
        let s = spec_digits(n);
        assert(s.len() == 1);
        assert(s.last() == digit_byte(n as int));
        assert(s.drop_last() =~= Seq::<u8>::empty());
        assert(digits_val(s.drop_last()) == 0);
        assert(digits_val(s) == dval(digit_byte(n as int)));
    } else {
        lemma_digits_round_trip(n / 10);
        let p = spec_digits(n / 10);
        let s = spec_digits(n);
        assert(s == p.push(digit_byte(n as int % 10)));
        assert(s.drop_last() =~= p);
        assert(s.last() == digit_byte(n as int % 10));
        assert(digits_val(s) == digits_val(p) * 10 + (n as int % 10));
        assert forall|i: int| 0 <= i < s.len() implies is_digit(#[trigger] s[i]) by {
            if i < p.len() {
                assert(s[i] == p[i]);
            }
        }
    }
}

/// At most `k` digits are needed for a number below the `k`-th power of ten.
pub proof fn lemma_digits_len(n: nat, k: nat)
    requires
        k >= 1,
        n < pow10(k),
    ensures
        spec_digits(n).len() <= k,
    decreases n,
{
    if n >= 10 {
        assert(k >= 2) by {
            if k == 1 {
                assert(pow10(1) == 10);
            }
        }
        assert(pow10(k) == 10 * pow10((k - 1) as nat));
        assert(pow10((k - 1) as nat) >= 1) by {
            lemma_pow10_pos((k - 1) as nat);
        }
        assert(n / 10 < pow10((k - 1) as nat));
        lemma_digits_len(n / 10, (k - 1) as nat);
    }
}

pub proof fn lemma_pow10_pos(k: nat)
    ensures
        pow10(k) >= 1,
    decreases k,
{
    if k > 0 {
        lemma_pow10_pos((k - 1) as nat);
    }
}

/// The canonical token of an in-range value parses back to the value.
pub proof fn lemma_int_token_round_trip(v: int)
    requires
        -CENTI_LIMIT < v < CENTI_LIMIT,
    ensures
        spec_parse_int(spec_int_token(v)) == Some(v),
{
    lemma_pow10_limit();
    if v < 0 {
        let n = (-v) as nat;
        lemma_digits_round_trip(n);
        lemma_digits_len(n, 15);
        let t = spec_int_token(v);
        assert(t[0] == DASH);
        assert(t.skip(1) =~= spec_digits(n));
        assert(spec_parse_uint(t.skip(1)) == Some(v * -1));
    } else {
        let n = v as nat;
        lemma_digits_round_trip(n);
        lemma_digits_len(n, 15);
        let t = spec_int_token(v);
        assert(is_digit(t[0]));
        assert(t[0] != DASH);
        assert(spec_parse_uint(t) == Some(v));
    }
}

/// Appends the canonical decimal digits of `n`.
fn push_uint(v: &mut Vec<u8>, n: u64)
    ensures
        final(v)@ == old(v)@ + spec_digits(n as nat),
    decreases n,
{
    if n < 10 {
        v.push(D0 + n as u8);
        proof {
            assert(old(v)@ + spec_digits(n as nat) =~= old(v)@.push(digit_byte(n as int)));
        }
    } else {
        push_uint(v, n / 10);
        v.push(D0 + (n % 10) as u8);
        proof {
            assert(old(v)@ + spec_digits(n as nat) =~= (old(v)@ + spec_digits((n / 10) as nat)).push(
                digit_byte(n as int % 10),
            ));
        }
    }
}

/// Appends the canonical token of a signed in-range value.
fn push_int(v: &mut Vec<u8>, n: i64)
    requires
        -CENTI_LIMIT < n < CENTI_LIMIT,
    ensures
        final(v)@ == old(v)@ + spec_int_token(n as int),
{
    if n < 0 {
        v.push(DASH);
        let m: u64 = (-n) as u64;
        push_uint(v, m);
        proof {
            assert(old(v)@ + spec_int_token(n as int) =~= old(v)@.push(DASH) + spec_digits(
                m as nat,
            ));
        }
    } else {
        push_uint(v, n as u64);
    }
}

/// Parses a signed number token; `None` exactly when the token is not one to
/// fifteen digits with an optional leading minus sign.
fn parse_int_token(s: &[u8]) -> (r: Option<i64>)
    ensures
        match r {
            Some(v) => spec_parse_int(s@) == Some(v as int) && -CENTI_LIMIT < v < CENTI_LIMIT,
            None => spec_parse_int(s@) is None,
        },
{
    let neg = s.len() >= 1 && s[0] == DASH;
    let start: usize = if neg {
        1
    } else {
        0
    };
    let ghost u = s@.skip(start as int);
    proof {
        if !neg {
            assert(u =~= s@);
        }
        assert(u.len() == s@.len() - start);
    }
    let m = s.len() - start;
    if m < 1 || m > 15 {
        return None;
    }
    let mut acc: u64 = 0;
    let mut i: usize = start;
    proof {
        lemma_pow10_limit();
        assert(s@.subrange(start as int, start as int) =~= Seq::<u8>::empty());
    }
    while i < s.len()
        invariant
            start <= i <= s@.len(),
            start <= 1,
            neg == (s@.len() >= 1 && s@[0] == DASH),
            neg ==> start == 1,
            !neg ==> start == 0,
            u == s@.skip(start as int),
            1 <= s@.len() - start <= 15,
            acc == digits_val(s@.subrange(start as int, i as int)),
            all_digits(s@.subrange(start as int, i as int)),
            pow10(15) == CENTI_LIMIT,
            pow10(14) * 10 == CENTI_LIMIT,
        decreases s@.len() - i,
    {
        let b = s[i];
        if !(D0 <= b && b <= D9) {
            proof {
                assert(u[i - start] == s@[i as int]);
                assert(!all_digits(u));
                assert(spec_parse_uint(u) is None);
                if !neg {
                    assert(u == s@);
                }
            }
            return None;
        }
        proof {
            let t = s@.subrange(start as int, i as int);
            let t2 = s@.subrange(start as int, i + 1);
            assert(t2.drop_last() =~= t);
            assert(t2.last() == b);
            lemma_digits_val_bound(t);
            assert(t.len() <= 14);
            lemma_pow10_increases(t.len(), 14);
            assert(acc < pow10(14));
            assert(acc * 10 + dval(b) < pow10(14) * 10);
            assert(digits_val(t2) == acc * 10 + dval(b));
            assert forall|k: int| 0 <= k < t2.len() implies is_digit(#[trigger] t2[k]) by {
                if k < t.len() {
                    assert(t2[k] == t[k]);
                } else {
                    assert(t2[k] == b);
                }
            }
        }
        acc = acc * 10 + (b - D0) as u64;
        i = i + 1;
    }
    proof {
        assert(s@.subrange(start as int, s@.len() as int) =~= u);
        lemma_digits_val_bound(u);
        lemma_pow10_increases(u.len(), 15);
        assert(acc < CENTI_LIMIT);
        assert(spec_parse_uint(u) == Some(acc as int));
    }
    if neg {
        Some(-(acc as i64))
    } else {
        proof {
            assert(s@[0] != DASH || s@.len() == 0);
        }
        Some(acc as i64)
    }
}

pub proof fn lemma_pow10_increases(a: nat, b: nat)
    requires
        a <= b,
    ensures
        pow10(a) <= pow10(b),
    decreases b,
{
    if a < b {
        lemma_pow10_pos((b - 1) as nat);
        lemma_pow10_increases(a, (b - 1) as nat);
    }
}

/// The token of a boolean field.
pub open spec fn spec_bool_token(b: bool) -> Seq<u8> {
    if b {
        seq![D1]
    } else {
        seq![D0]
    }
}

/// Meaning of a boolean token: `0` or `1`, nothing else.
pub open spec fn spec_parse_bool(s: Seq<u8>) -> Option<bool> {
    if s == seq![D0] {
        Some(false)
    } else if s == seq![D1] {
        Some(true)
    } else {
        None
    }
}

fn parse_bool_token(s: &[u8]) -> (r: Option<bool>)
    ensures
        r == spec_parse_bool(s@),
{
    proof {
        assert(seq![D0].len() == 1 && seq![D0][0] == D0);
        assert(seq![D1].len() == 1 && seq![D1][0] == D1);
    }
    if s.len() == 1 && s[0] == D0 {
        proof {
            assert(s@ =~= seq![D0]);
        }
        Some(false)
    } else if s.len() == 1 && s[0] == D1 {
        proof {
            assert(s@ =~= seq![D1]);
        }
        Some(true)
    } else {
        None
    }
}

} // verus!

verus! {

/// The token of an optional measurement: empty when absent.
pub open spec fn spec_opt_token(v: Option<i64>) -> Seq<u8> {
    match v {
        Some(x) => spec_int_token(x as int),
        None => Seq::empty(),
    }
}

/// Meaning of an optional-measurement token: empty means absent.
pub open spec fn spec_parse_opt(s: Seq<u8>) -> Option<Option<i64>> {
    if s.len() == 0 {
        Some(None)
    } else {
        match spec_parse_int(s) {
            Some(v) => Some(Some(v as i64)),
            None => None,
        }
    }
}

/// The six comma-separated fields of one record line.
pub open spec fn spec_record_tokens(date: Date, day: Day) -> Seq<Seq<u8>> {
    seq![
        spec_format_date(date),
        spec_opt_token(day.weight),
        spec_bool_token(day.workout),
        spec_bool_token(day.training),
        spec_opt_token(day.biking),
        spec_bool_token(day.cheatday),
    ]
}

/// One record line: date, weight, workout, training, biking, cheat-day.
pub open spec fn spec_record(date: Date, day: Day) -> Seq<u8> {
    spec_join(spec_record_tokens(date, day), COMMA)
}

/// Meaning of one record line. Trailing fields may be missing and default to
/// absent or false, so files written before a field existed still decode.
pub open spec fn spec_parse_record(line: Seq<u8>) -> Option<(Date, Day)> {
    let toks = spec_split(line, COMMA);
    if toks.len() > 6 {
        None
    } else {
        match spec_parse_date(toks[0]) {
            None => None,
            Some(date) => {
                let w = if toks.len() > 1 {
                    spec_parse_opt(toks[1])
                } else {
                    Some(None)
                };
                let wo = if toks.len() > 2 {
                    spec_parse_bool(toks[2])
                } else {
                    Some(false)
                };
                let tr = if toks.len() > 3 {
                    spec_parse_bool(toks[3])
                } else {
                    Some(false)
                };
                let bi = if toks.len() > 4 {
                    spec_parse_opt(toks[4])
                } else {
                    Some(None)
                };
                let cd = if toks.len() > 5 {
                    spec_parse_bool(toks[5])
                } else {
                    Some(false)
                };
                match (w, wo, tr, bi, cd) {
                    (
                        Some(weight),
                        Some(workout),
                        Some(training),
                        Some(biking),
                        Some(cheatday),
                    ) => Some((date, Day { weight, workout, training, biking, cheatday })),
                    _ => None,
                }
            },
        }
    }
}

} // verus!

verus! {

/// A number token holds only digits and a possible minus sign.
pub proof fn lemma_int_token_clean(v: int)
    requires
        -CENTI_LIMIT < v < CENTI_LIMIT,
    ensures
        !spec_int_token(v).contains(COMMA),
        !spec_int_token(v).contains(NEWLINE),
{
    let t = spec_int_token(v);
    if v < 0 {
        lemma_digits_round_trip((-v) as nat);
        assert forall|k: int| 0 <= k < t.len() implies t[k] != COMMA && t[k] != NEWLINE by {
            if k == 0 {
                assert(t[k] == DASH);
            } else {
                assert(t[k] == spec_digits((-v) as nat)[k - 1]);
                assert(is_digit(spec_digits((-v) as nat)[k - 1]));
            }
        }
    } else {
        lemma_digits_round_trip(v as nat);
        assert forall|k: int| 0 <= k < t.len() implies t[k] != COMMA && t[k] != NEWLINE by {
            assert(is_digit(t[k]));
        }
    }
}

/// A boolean token parses back to its value and holds no separator.
pub proof fn lemma_bool_token_round_trip(b: bool)
    ensures
        spec_parse_bool(spec_bool_token(b)) == Some(b),
        !spec_bool_token(b).contains(COMMA),
        !spec_bool_token(b).contains(NEWLINE),
{
    assert(seq![D0][0] == D0);
    assert(seq![D1][0] == D1);
    assert(seq![D0] != seq![D1]) by {
        assert(seq![D0][0] != seq![D1][0]);
    }
    assert forall|k: int| 0 <= k < spec_bool_token(b).len() implies spec_bool_token(b)[k] != COMMA
        && spec_bool_token(b)[k] != NEWLINE by {}
}

/// An optional-measurement token parses back to its value and holds no
/// separator.
pub proof fn lemma_opt_token_round_trip(v: Option<i64>)
    requires
        opt_centi_ok(v),
    ensures
        spec_parse_opt(spec_opt_token(v)) == Some(v),
        !spec_opt_token(v).contains(COMMA),
        !spec_opt_token(v).contains(NEWLINE),
{
    match v {
        Some(x) => {
            lemma_int_token_round_trip(x as int);
            lemma_int_token_clean(x as int);
            assert(spec_int_token(x as int).len() >= 1) by {
                if x >= 0 {
                    lemma_digits_round_trip(x as nat);
                } else {
                    lemma_digits_round_trip((-x) as nat);
                }
            }
        },
        None => {},
    }
}

/// A joined sequence holds no byte that the pieces lack, other than the
/// separator.
pub proof fn lemma_join_clean(ls: Seq<Seq<u8>>, sep: u8, c: u8)
    requires
        c != sep,
        forall|i: int| 0 <= i < ls.len() ==> !(#[trigger] ls[i]).contains(c),
    ensures
        !spec_join(ls, sep).contains(c),
    decreases ls.len(),
{
    let t = spec_join(ls, sep);
    if ls.len() == 0 {
    } else if ls.len() == 1 {
        assert(!ls[0].contains(c));
    } else {
        assert forall|i: int| 0 <= i < ls.skip(1).len() implies !(#[trigger] ls.skip(1)[i]).contains(
            c,
        ) by {
            assert(ls.skip(1)[i] == ls[i + 1]);
        }
        lemma_join_clean(ls.skip(1), sep, c);
        let rest = spec_join(ls.skip(1), sep);
        let l0 = ls[0];
        assert forall|k: int| 0 <= k < t.len() implies t[k] != c by {
            if k < l0.len() {
                assert(t[k] == l0[k]);
                if t[k] == c {
                    assert(l0.contains(c));
                }
            } else if k == l0.len() {
                assert(t[k] == sep);
            } else {
                assert(t[k] == rest[k - l0.len() - 1]);
                if t[k] == c {
                    assert(rest.contains(c));
                }
            }
        }
    }
}

/// A well-formed record line parses back to its entry, never holds a record
/// separator, and is never empty.
pub proof fn lemma_record_round_trip(date: Date, day: Day)
    requires
        date.wf(),
        day.wf(),
    ensures
        spec_parse_record(spec_record(date, day)) == Some((date, day)),
        !spec_record(date, day).contains(NEWLINE),
        spec_record(date, day).len() >= 10,
{
    let toks = spec_record_tokens(date, day);
    let t0 = spec_format_date(date);
    let t1 = spec_opt_token(day.weight);
    let t2 = spec_bool_token(day.workout);
    let t3 = spec_bool_token(day.training);
    let t4 = spec_opt_token(day.biking);
    let t5 = spec_bool_token(day.cheatday);
    assert(toks.len() == 6);
    assert(toks[0] == t0 && toks[1] == t1 && toks[2] == t2 && toks[3] == t3 && toks[4] == t4
        && toks[5] == t5);
    lemma_format_parse_date(date);
    lemma_date_bytes_clean(t0);
    lemma_opt_token_round_trip(day.weight);
    lemma_opt_token_round_trip(day.biking);
    lemma_bool_token_round_trip(day.workout);
    lemma_bool_token_round_trip(day.training);
    lemma_bool_token_round_trip(day.cheatday);
    assert forall|i: int| 0 <= i < toks.len() implies !(#[trigger] toks[i]).contains(COMMA) by {
        if i == 0 {
            assert(toks[i] == t0);
        } else if i == 1 {
            assert(toks[i] == t1);
        } else if i == 2 {
            assert(toks[i] == t2);
        } else if i == 3 {
            assert(toks[i] == t3);
        } else if i == 4 {
            assert(toks[i] == t4);
        } else {
            assert(toks[i] == t5);
        }
    }
    lemma_split_join(toks, COMMA);
    let rec = spec_record(date, day);
    assert(spec_split(rec, COMMA) == toks);
    assert(spec_parse_record(rec) == Some(
        (
            date,
            Day {
                weight: day.weight,
                workout: day.workout,
                training: day.training,
                biking: day.biking,
                cheatday: day.cheatday,
            },
        ),
    ));
    assert(Day {
        weight: day.weight,
        workout: day.workout,
        training: day.training,
        biking: day.biking,
        cheatday: day.cheatday,
    } == day);
    assert forall|i: int| 0 <= i < toks.len() implies !(#[trigger] toks[i]).contains(NEWLINE) by {
        if i == 0 {
            assert(toks[i] == t0);
        } else if i == 1 {
            assert(toks[i] == t1);
        } else if i == 2 {
            assert(toks[i] == t2);
        } else if i == 3 {
            assert(toks[i] == t3);
        } else if i == 4 {
            assert(toks[i] == t4);
        } else {
            assert(toks[i] == t5);
        }
    }
    lemma_join_clean(toks, COMMA, NEWLINE);
    assert(rec == t0 + seq![COMMA] + spec_join(toks.skip(1), COMMA));
    assert(rec.len() >= 10);
}

fn push_bool(v: &mut Vec<u8>, b: bool)
    ensures
        final(v)@ == old(v)@ + spec_bool_token(b),
{
    if b {
        v.push(D1);
        proof {
            assert(old(v)@ + spec_bool_token(b) =~= old(v)@.push(D1));
        }
    } else {
        v.push(D0);
        proof {
            assert(old(v)@ + spec_bool_token(b) =~= old(v)@.push(D0));
        }
    }
}

fn push_opt(v: &mut Vec<u8>, x: Option<i64>)
    requires
        opt_centi_ok(x),
    ensures
        final(v)@ == old(v)@ + spec_opt_token(x),
{
    match x {
        Some(w) => push_int(v, w),
        None => {
            proof {
                assert(old(v)@ + spec_opt_token(x) =~= old(v)@);
            }
        },
    }
}

/// Appends one record line for a date and its record.
#[verifier::rlimit(80)]
fn push_record(v: &mut Vec<u8>, date: Date, day: Day)
    requires
        date.wf(),
        day.wf(),
    ensures
        final(v)@ == old(v)@ + spec_record(date, day),
{
    let ghost t0 = spec_format_date(date);
    let ghost t1 = spec_opt_token(day.weight);
    let ghost t2 = spec_bool_token(day.workout);
    let ghost t3 = spec_bool_token(day.training);
    let ghost t4 = spec_opt_token(day.biking);
    let ghost t5 = spec_bool_token(day.cheatday);
    let mut fd = format_date(&date);
    v.append(&mut fd);
    proof {
        assert(spec_join(seq![t0], COMMA) == seq![t0][0]);
        assert(v@ == old(v)@ + spec_join(seq![t0], COMMA));
    }
    v.push(COMMA);
    push_opt(v, day.weight);
    proof {
        lemma_join_push(seq![t0], t1, COMMA);
        assert(seq![t0].push(t1) =~= seq![t0, t1]);
        assert(v@ =~= old(v)@ + spec_join(seq![t0, t1], COMMA));
    }
    v.push(COMMA);
    push_bool(v, day.workout);
    proof {
        lemma_join_push(seq![t0, t1], t2, COMMA);
        assert(seq![t0, t1].push(t2) =~= seq![t0, t1, t2]);
        assert(v@ =~= old(v)@ + spec_join(seq![t0, t1, t2], COMMA));
    }
    v.push(COMMA);
    push_bool(v, day.training);
    proof {
        lemma_join_push(seq![t0, t1, t2], t3, COMMA);
        assert(seq![t0, t1, t2].push(t3) =~= seq![t0, t1, t2, t3]);
        assert(v@ =~= old(v)@ + spec_join(seq![t0, t1, t2, t3], COMMA));
    }
    v.push(COMMA);
    push_opt(v, day.biking);
    proof {
        lemma_join_push(seq![t0, t1, t2, t3], t4, COMMA);
        assert(seq![t0, t1, t2, t3].push(t4) =~= seq![t0, t1, t2, t3, t4]);
        assert(v@ =~= old(v)@ + spec_join(seq![t0, t1, t2, t3, t4], COMMA));
    }
    v.push(COMMA);
    push_bool(v, day.cheatday);
    proof {
        lemma_join_push(seq![t0, t1, t2, t3, t4], t5, COMMA);
        assert(seq![t0, t1, t2, t3, t4].push(t5) =~= seq![t0, t1, t2, t3, t4, t5]);
        assert(v@ =~= old(v)@ + spec_join(seq![t0, t1, t2, t3, t4, t5], COMMA));
        assert(spec_record_tokens(date, day) == seq![t0, t1, t2, t3, t4, t5]);
    }
}

fn parse_opt_token(s: &[u8]) -> (r: Option<Option<i64>>)
    ensures
        r == spec_parse_opt(s@),
        r matches Some(v) ==> opt_centi_ok(v),
{
    if s.len() == 0 {
        Some(None)
    } else {
        match parse_int_token(s) {
            Some(v) => Some(Some(v)),
            None => None,
        }
    }
}

/// Parses one record line; `None` exactly when the line is not a date
/// followed by up to five well-shaped fields.
fn parse_record(line: &Vec<u8>) -> (r: Option<(Date, Day)>)
    ensures
        r == spec_parse_record(line@),
        r matches Some(p) ==> p.0.wf() && p.1.wf(),
{
    let toks = split_bytes(line.as_slice(), COMMA);
    let ghost ts = spec_split(line@, COMMA);
    proof {
        assert(views(toks@).len() == toks@.len());
        assert(ts.len() >= 1);
        assert forall|k: int| 0 <= k < toks@.len() implies (#[trigger] toks@[k])@ == ts[k] by {
            assert(views(toks@)[k] == toks@[k]@);
        }
    }
    if toks.len() > 6 {
        return None;
    }
    let date = match crate::date::parse_date(toks[0].as_slice()) {
        Ok(d) => d,
        Err(_) => {
            return None;
        },
    };
    let weight = if toks.len() > 1 {
        match parse_opt_token(toks[1].as_slice()) {
            Some(w) => w,
            None => {
                return None;
            },
        }
    } else {
        None
    };
    let workout = if toks.len() > 2 {
        match parse_bool_token(toks[2].as_slice()) {
            Some(b) => b,
            None => {
                return None;
            },
        }
    } else {
        false
    };
    let training = if toks.len() > 3 {
        match parse_bool_token(toks[3].as_slice()) {
            Some(b) => b,
            None => {
                return None;
            },
        }
    } else {
        false
    };
    let biking = if toks.len() > 4 {
        match parse_opt_token(toks[4].as_slice()) {
            Some(w) => w,
            None => {
                return None;
            },
        }
    } else {
        None
    };
    let cheatday = if toks.len() > 5 {
        match parse_bool_token(toks[5].as_slice()) {
            Some(b) => b,
            None => {
                return None;
            },
        }
    } else {
        false
    };
    Some((date, Day::new(weight, workout, training, biking, cheatday)))
}

} // verus!

verus! {

/// The record line of each entry, in store order.
pub open spec fn spec_records(s: Seq<(Date, Day)>) -> Seq<Seq<u8>> {
    s.map_values(|e: (Date, Day)| spec_record(e.0, e.1))
}

/// The text of a whole store: one record line per entry, records separated
/// by a newline, the empty store as empty text.
pub open spec fn spec_encode(s: Seq<(Date, Day)>) -> Seq<u8> {
    if s.len() == 0 {
        Seq::empty()
    } else {
        spec_join(spec_records(s), NEWLINE)
    }
}

/// All lines parsed as records, in order; `None` when any line fails.
pub open spec fn records_of(lines: Seq<Seq<u8>>) -> Option<Seq<(Date, Day)>>
    decreases lines.len(),
{
    if lines.len() == 0 {
        Some(Seq::empty())
    } else {
        match spec_parse_record(lines[0]) {
            None => None,
            Some(e) => match records_of(lines.skip(1)) {
                None => None,
                Some(rest) => Some(seq![e] + rest),
            },
        }
    }
}

/// Meaning of a store file: every line a record, dates strictly ascending.
pub open spec fn spec_decode(t: Seq<u8>) -> Option<Seq<(Date, Day)>> {
    if t.len() == 0 {
        Some(Seq::empty())
    } else {
        match records_of(spec_split(t, NEWLINE)) {
            None => None,
            Some(es) => if entries_wf(es) {
                Some(es)
            } else {
                None
            },
        }
    }
}

/// Every entry's line parses back to the entry.
pub proof fn lemma_records_of_map(s: Seq<(Date, Day)>)
    requires
        forall|i: int| 0 <= i < s.len() ==> (#[trigger] s[i]).0.wf() && s[i].1.wf(),
    ensures
        records_of(spec_records(s)) == Some(s),
    decreases s.len(),
{
    if s.len() == 0 {
        assert(spec_records(s) =~= Seq::<Seq<u8>>::empty());
    } else {
        lemma_record_round_trip(s[0].0, s[0].1);
        assert(spec_records(s)[0] == spec_record(s[0].0, s[0].1));
        assert(spec_records(s).skip(1) =~= spec_records(s.skip(1))) by {
            assert forall|i: int| 0 <= i < s.len() - 1 implies spec_records(s).skip(1)[i]
                == spec_records(s.skip(1))[i] by {
                assert(spec_records(s).skip(1)[i] == spec_records(s)[i + 1]);
                assert(s.skip(1)[i] == s[i + 1]);
            }
        }
        assert forall|i: int| 0 <= i < s.skip(1).len() implies (#[trigger] s.skip(1)[i]).0.wf()
            && s.skip(1)[i].1.wf() by {
            assert(s.skip(1)[i] == s[i + 1]);
        }
        lemma_records_of_map(s.skip(1));
        assert(records_of(spec_records(s)) == Some(seq![s[0]] + s.skip(1)));
        assert(seq![s[0]] + s.skip(1) =~= s);
    }
}

/// The text format is lossless: decoding an encoded well-formed store
/// returns exactly the store.
pub proof fn lemma_encode_decode(s: Seq<(Date, Day)>)
    requires
        entries_wf(s),
    ensures
        spec_decode(spec_encode(s)) == Some(s),
{
    if s.len() > 0 {
        let recs = spec_records(s);
        let t = spec_encode(s);
        assert(recs.len() == s.len());
        assert forall|i: int| 0 <= i < recs.len() implies !(#[trigger] recs[i]).contains(NEWLINE)
            && recs[i].len() >= 10 by {
            assert(recs[i] == spec_record(s[i].0, s[i].1));
            lemma_record_round_trip(s[i].0, s[i].1);
        }
        assert(t == spec_join(recs, NEWLINE));
        if recs.len() == 1 {
            assert(t == recs[0]);
        }
        assert(t.len() >= 10);
        lemma_split_join(recs, NEWLINE);
        lemma_records_of_map(s);
        assert(spec_decode(t) == Some(s));
    }
}

/// Serializes the store to its text form.
pub fn encode(h: &History) -> (v: Vec<u8>)
    requires
        h.wf(),
    ensures
        v@ == spec_encode(h@),
{
    let rows = h.entries_ref();
    let mut v: Vec<u8> = Vec::new();
    if rows.len() == 0 {
        return v;
    }
    let ghost recs = spec_records(h@);
    let mut i: usize = 0;
    while i < rows.len()
        invariant
            h.wf(),
            rows@ == h@,
            recs == spec_records(h@),
            0 < h@.len(),
            0 <= i <= h@.len(),
            v@ == (if i == 0 {
                Seq::<u8>::empty()
            } else {
                spec_join(recs.take(i as int), NEWLINE)
            }),
        decreases h@.len() - i,
    {
        let e = rows[i];
        proof {
            assert(h@[i as int].0.wf() && h@[i as int].1.wf());
            assert(recs[i as int] == spec_record(h@[i as int].0, h@[i as int].1));
        }
        if i > 0 {
            v.push(NEWLINE);
            push_record(&mut v, e.0, e.1);
            proof {
                lemma_join_push(recs.take(i as int), recs[i as int], NEWLINE);
                assert(recs.take(i as int).push(recs[i as int]) =~= recs.take(i + 1));
                assert(v@ =~= spec_join(recs.take(i + 1), NEWLINE));
            }
        } else {
            push_record(&mut v, e.0, e.1);
            proof {
                assert(recs.take(1) =~= seq![recs[0]]);
                assert(spec_join(seq![recs[0]], NEWLINE) == seq![recs[0]][0]);
                assert(v@ =~= spec_join(recs.take(1), NEWLINE));
            }
        }
        i = i + 1;
    }
    proof {
        assert(recs.take(h@.len() as int) =~= recs);
    }
    v
}

/// Decodes a store file. Succeeds if and only if the bytes are a well-formed
/// store text; every failure is `Format`.
pub fn decode(data: &[u8]) -> (r: Result<History, HealthTrackerError>)
    ensures
        match r {
            Ok(h) => spec_decode(data@) == Some(h@) && h.wf(),
            Err(e) => spec_decode(data@) is None && e == HealthTrackerError::Format,
        },
{
    let mut entries: Vec<(Date, Day)> = Vec::new();
    if data.len() == 0 {
        proof {
            assert(entries_wf(entries@));
        }
        return Ok(History::from_entries(entries));
    }
    let lines = split_bytes(data, NEWLINE);
    let ghost ls = spec_split(data@, NEWLINE);
    proof {
        assert(views(lines@) == ls);
        assert(lines@.len() == ls.len());
        assert(ls.skip(0) =~= ls);
        if records_of(ls) is Some {
            let rest = records_of(ls)->Some_0;
            assert(entries@ + rest =~= rest);
        }
    }
    let mut i: usize = 0;
    while i < lines.len()
        invariant
            data@.len() > 0,
            ls == spec_split(data@, NEWLINE),
            views(lines@) == ls,
            lines@.len() == ls.len(),
            0 <= i <= ls.len(),
            entries@.len() == i,
            entries_wf(entries@),
            match records_of(ls.skip(i as int)) {
                None => records_of(ls) is None,
                Some(rest) => records_of(ls) == Some(entries@ + rest),
            },
        decreases ls.len() - i,
    {
        let ghost suffix = ls.skip(i as int);
        proof {
            assert(lines@[i as int]@ == ls[i as int]) by {
                assert(views(lines@)[i as int] == lines@[i as int]@);
            }
            assert(suffix[0] == ls[i as int]);
            assert(suffix.skip(1) =~= ls.skip(i + 1));
        }
        let (date, day) = match parse_record(&lines[i]) {
            Some(p) => p,
            None => {
                proof {
                    assert(records_of(suffix) is None);
                }
                return Err(HealthTrackerError::Format);
            },
        };
        if entries.len() > 0 {
            let last = entries[entries.len() - 1];
            proof {
                assert(entries@[entries@.len() - 1] == last);
                assert(last.0.wf());
            }
            if last.0.key_val() >= date.key_val() {
                proof {
                    if records_of(ls) is Some {
                        let es = records_of(ls)->Some_0;
                        assert(records_of(suffix) is Some);
                        let rest = records_of(suffix)->Some_0;
                        assert(rest[0] == (date, day));
                        assert(es == entries@ + rest);
                        let n = entries@.len() as int;
                        assert(es[n - 1] == last);
                        assert(es[n] == (date, day));
                        assert(!entries_wf(es));
                    }
                }
                return Err(HealthTrackerError::Format);
            }
        }
        proof {
            let e2 = entries@.push((date, day));
            assert forall|a: int, b: int| 0 <= a < b < e2.len() implies e2[a].0.key()
                < e2[b].0.key() by {
                if b == e2.len() - 1 && a < b {
                    assert(e2[a] == entries@[a]);
                    if a < entries@.len() - 1 {
                        assert(entries@[a].0.key() < entries@[entries@.len() - 1].0.key());
                    }
                }
            }
            assert(entries_wf(e2));
            if records_of(ls.skip(i + 1)) is Some {
                let rest2 = records_of(ls.skip(i + 1))->Some_0;
                assert(records_of(suffix) == Some(seq![(date, day)] + rest2));
                assert(entries@ + (seq![(date, day)] + rest2) =~= e2 + rest2);
            }
        }
        entries.push((date, day));
        i = i + 1;
    }
    proof {
        assert(ls.skip(ls.len() as int) =~= Seq::<Seq<u8>>::empty());
        assert(records_of(ls.skip(ls.len() as int)) == Some(Seq::<(Date, Day)>::empty()));
        assert(entries@ + Seq::<(Date, Day)>::empty() =~= entries@);
        assert(records_of(ls) == Some(entries@));
    }
    Ok(History::from_entries(entries))
}

} // verus!
