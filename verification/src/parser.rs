//! Decoding and classification of comma-separated transaction rows.
//!
//! The input format: lines separated by line feeds, the first non-blank line
//! a header, every later non-blank line a data row of the shape
//! `type, client, tx[, amount]`. Fields are trimmed of spaces, tabs and
//! carriage returns. `type` is one of the five case-sensitive keywords,
//! `client` a decimal `u16`, `tx` a decimal `u32`, and `amount` — required
//! meaningfully only for deposits and withdrawals — a non-negative decimal
//! with at most four fractional digits, read as fixed-point ten-thousandths.
//! One malformed row fails the whole ingestion; nothing partial is returned.

use std::collections::HashMap;
use vstd::prelude::*;
use vstd::slice::{slice_subrange, slice_to_vec};

use crate::types::{
    ClassifiedTransactions, ClassifiedView, Transaction, TransactionError, TransactionType,
    MAX_AMOUNT_UNITS,
};

verus! {

broadcast use vstd::std_specs::hash::group_hash_axioms;

/// Line feed, the row separator.
pub const LF: u8 = 10;

/// Comma, the field separator.
pub const COMMA: u8 = 44;

/// Full stop, the decimal point of an amount.
pub const DOT: u8 = 46;

/// A byte the row format treats as trimmable whitespace: space, tab, or the
/// carriage return left by a CRLF line ending.
pub open spec fn is_space(b: u8) -> bool {
    b == 32 || b == 9 || b == 13
}

/// `s` without its leading whitespace.
pub open spec fn spec_trim_front(s: Seq<u8>) -> Seq<u8>
    decreases s.len(),
{
    if s.len() > 0 && is_space(s[0]) {
        spec_trim_front(s.drop_first())
    } else {
        s
    }
}

/// `s` without its trailing whitespace.
pub open spec fn spec_trim_back(s: Seq<u8>) -> Seq<u8>
    decreases s.len(),
{
    if s.len() > 0 && is_space(s.last()) {
        spec_trim_back(s.drop_last())
    } else {
        s
    }
}

/// `s` without leading and trailing whitespace.
pub open spec fn spec_trim(s: Seq<u8>) -> Seq<u8> {
    spec_trim_back(spec_trim_front(s))
}

/// Trimming from the front skips exactly the leading run of whitespace.
proof fn lemma_trim_front_skip(s: Seq<u8>, lo: int)
    requires
        0 <= lo <= s.len(),
        forall|m: int| 0 <= m < lo ==> is_space(#[trigger] s[m]),
        lo == s.len() || !is_space(s[lo]),
    ensures
        spec_trim_front(s) == s.skip(lo),
    decreases lo,
{
    if lo == 0 {
        assert(s.skip(0) =~= s);
    } else {
        let rest = s.drop_first();
        lemma_trim_front_skip(rest, lo - 1);
        assert(rest.skip(lo - 1) =~= s.skip(lo));
    }
}

/// Trimming from the back keeps exactly the bytes before the trailing run of
/// whitespace.
proof fn lemma_trim_back_take(s: Seq<u8>, hi: int)
    requires
        0 <= hi <= s.len(),
        forall|m: int| hi <= m < s.len() ==> is_space(#[trigger] s[m]),
        hi == 0 || !is_space(s[hi - 1]),
    ensures
        spec_trim_back(s) == s.take(hi),
    decreases s.len() - hi,
{
    if hi == s.len() {
        assert(s.take(hi) =~= s);
    } else {
        let rest = s.drop_last();
        lemma_trim_back_take(rest, hi);
        assert(rest.take(hi) =~= s.take(hi));
    }
}

/// Copy of `s` with leading and trailing whitespace removed.
pub fn trim_bytes(s: &[u8]) -> (r: Vec<u8>)
    ensures
        r@ == spec_trim(s@),
{
    let n = s.len();
    let mut lo: usize = 0;
    while lo < n && (s[lo] == 32 || s[lo] == 9 || s[lo] == 13)
        invariant
            lo <= n,
            n == s@.len(),
            forall|m: int| 0 <= m < lo ==> is_space(#[trigger] s@[m]),
        decreases n - lo,
    {
        lo = lo + 1;
    }
    let mut hi: usize = n;
    while hi > lo && (s[hi - 1] == 32 || s[hi - 1] == 9 || s[hi - 1] == 13)
        invariant
            lo <= hi <= n,
            n == s@.len(),
            forall|m: int| 0 <= m < lo ==> is_space(#[trigger] s@[m]),
            forall|m: int| hi <= m < n ==> is_space(#[trigger] s@[m]),
        decreases hi,
    {
        hi = hi - 1;
    }
    proof {
        lemma_trim_front_skip(s@, lo as int);
        let front = s@.skip(lo as int);
        if hi == lo {
            lemma_trim_back_take(front, 0);
        } else {
            lemma_trim_back_take(front, hi - lo);
        }
        assert(front.take(hi - lo) =~= s@.subrange(lo as int, hi as int));
        assert(front.take(0) =~= s@.subrange(lo as int, lo as int));
    }
    slice_to_vec(slice_subrange(s, lo, hi))
}

/// `s` split at every occurrence of `sep`. Always at least one token; tokens
/// keep their order and never contain `sep`.
pub open spec fn spec_split(s: Seq<u8>, sep: u8) -> Seq<Seq<u8>>
    decreases s.len(),
{
    if s.len() == 0 {
        seq![s]
    } else if s[0] == sep {
        seq![Seq::<u8>::empty()] + spec_split(s.drop_first(), sep)
    } else {
        let rest = spec_split(s.drop_first(), sep);
        seq![seq![s[0]] + rest[0]] + rest.drop_first()
    }
}

/// A split has at least one token.
pub proof fn lemma_split_nonempty(s: Seq<u8>, sep: u8)
    ensures
        spec_split(s, sep).len() >= 1,
    decreases s.len(),
{
    if s.len() > 0 {
        lemma_split_nonempty(s.drop_first(), sep);
    }
}

/// Reading a split from the front: scanning past `j` separator-free bytes,
/// the first token runs to the end (no separator at all) or to the first
/// separator, and the rest of the split is the split of what follows it.
proof fn lemma_split_step(s: Seq<u8>, sep: u8, j: int)
    requires
        0 <= j <= s.len(),
        forall|m: int| 0 <= m < j ==> s[m] != sep,
    ensures
        j == s.len() ==> spec_split(s, sep) == seq![s],
        j < s.len() && s[j] == sep ==> spec_split(s, sep) == seq![s.take(j)] + spec_split(
            s.skip(j + 1),
            sep,
        ),
    decreases j,
{
    lemma_split_nonempty(s, sep);
    if j == 0 {
        if 0 < s.len() && s[0] == sep {
            assert(s.take(0) =~= Seq::<u8>::empty());
            assert(s.drop_first() =~= s.skip(1));
            assert(spec_split(s, sep) =~= seq![s.take(0)] + spec_split(s.skip(1), sep));
        }
    } else {
        let rest = s.drop_first();
        lemma_split_nonempty(rest, sep);
        lemma_split_step(rest, sep, j - 1);
        if j == s.len() {
            assert(spec_split(rest, sep) == seq![rest]);
            assert(seq![s[0]] + rest =~= s);
            assert(spec_split(s, sep) =~= seq![s]);
        } else if s[j] == sep {
            assert(rest[j - 1] == s[j]);
            assert(spec_split(rest, sep) == seq![rest.take(j - 1)] + spec_split(
                rest.skip(j),
                sep,
            ));
            assert(seq![s[0]] + rest.take(j - 1) =~= s.take(j));
            assert(rest.skip(j) =~= s.skip(j + 1));
            assert((seq![rest.take(j - 1)] + spec_split(rest.skip(j), sep)).drop_first()
                =~= spec_split(s.skip(j + 1), sep));
            assert(spec_split(s, sep) =~= seq![s.take(j)] + spec_split(s.skip(j + 1), sep));
        }
    }
}

/// Every executable token equals the corresponding mathematical token.
pub open spec fn tokens_match(vs: Seq<Vec<u8>>, ss: Seq<Seq<u8>>) -> bool {
    &&& vs.len() == ss.len()
    &&& forall|i: int| 0 <= i < vs.len() ==> (#[trigger] vs[i])@ == ss[i]
}

/// Split `s` at every occurrence of `sep`.
pub fn split_bytes(s: &[u8], sep: u8) -> (r: Vec<Vec<u8>>)
    ensures
        tokens_match(r@, spec_split(s@, sep)),
{
    let n = s.len();
    let mut out: Vec<Vec<u8>> = Vec::new();
    let mut start: usize = 0;
    proof {
        lemma_split_nonempty(s@, sep);
        assert(s@.skip(0) =~= s@);
        assert(spec_split(s@, sep).skip(0) =~= spec_split(s@, sep));
    }
    loop
        invariant_except_break
            n == s@.len(),
            start <= n,
            out@.len() <= spec_split(s@, sep).len(),
            forall|j: int|
                0 <= j < out@.len() ==> (#[trigger] out@[j])@ == spec_split(s@, sep)[j],
            spec_split(s@, sep).skip(out@.len() as int) == spec_split(
                s@.skip(start as int),
                sep,
            ),
        ensures
            tokens_match(out@, spec_split(s@, sep)),
        decreases n - start,
    {
        let mut j = start;
        while j < n && s[j] != sep
            invariant
                start <= j <= n,
                n == s@.len(),
                forall|m: int| start <= m < j ==> s@[m] != sep,
            decreases n - j,
        {
            j = j + 1;
        }
        let token = slice_to_vec(slice_subrange(s, start, j));
        proof {
            let suffix = s@.skip(start as int);
            lemma_split_nonempty(suffix, sep);
            assert(forall|m: int| 0 <= m < j - start ==> suffix[m] != sep);
            lemma_split_step(suffix, sep, j - start);
            let full = spec_split(s@, sep);
            let l = out@.len() as int;
            if j == n {
                assert(spec_split(suffix, sep) == seq![suffix]);
                assert(token@ =~= suffix);
                assert(full[l] == full.skip(l)[0]);
                assert(full.len() == l + 1);
            } else {
                assert(suffix[j - start] == sep);
                assert(spec_split(suffix, sep) == seq![suffix.take(j - start)] + spec_split(
                    suffix.skip(j - start + 1),
                    sep,
                ));
                assert(token@ =~= suffix.take(j - start));
                assert(full[l] == full.skip(l)[0]);
                assert(suffix.skip(j - start + 1) =~= s@.skip(j + 1));
                assert(full.skip(l) == seq![suffix.take(j - start)] + spec_split(
                    s@.skip(j + 1),
                    sep,
                ));
                assert(full.skip(l + 1) =~= full.skip(l).drop_first());
                assert((seq![suffix.take(j - start)] + spec_split(s@.skip(j + 1), sep)).drop_first()
                    =~= spec_split(s@.skip(j + 1), sep));
            }
        }
        out.push(token);
        if j == n {
            break;
        }
        start = j + 1;
    }
    out
}

/// An ASCII decimal digit.
pub open spec fn is_digit(b: u8) -> bool {
    48 <= b && b <= 57
}

/// Every byte of `s` is a decimal digit.
pub open spec fn all_digits(s: Seq<u8>) -> bool {
    forall|i: int| 0 <= i < s.len() ==> is_digit(#[trigger] s[i])
}

/// The number a digit string denotes, most significant digit first.
pub open spec fn digits_val(s: Seq<u8>) -> int
    decreases s.len(),
{
    if s.len() == 0 {
        0
    } else {
        digits_val(s.drop_last()) * 10 + (s.last() - 48)
    }
}

/// What a decimal integer field parses to: its value, when the field is a
/// non-empty digit string whose value is at most `max`.
pub open spec fn spec_parse_int(s: Seq<u8>, max: int) -> Option<int> {
    if s.len() > 0 && all_digits(s) && digits_val(s) <= max {
        Some(digits_val(s))
    } else {
        None
    }
}

/// A digit string's value is non-negative.
proof fn lemma_digits_val_nonneg(s: Seq<u8>)
    requires
        all_digits(s),
    ensures
        digits_val(s) >= 0,
    decreases s.len(),
{
    if s.len() > 0 {
        lemma_digits_val_nonneg(s.drop_last());
    }
}

/// A digit string is worth at least any of its prefixes.
proof fn lemma_digits_val_prefix(s: Seq<u8>, i: int)
    requires
        all_digits(s),
        0 <= i <= s.len(),
    ensures
        digits_val(s.take(i)) <= digits_val(s),
    decreases s.len() - i,
{
    if i < s.len() {
        let next = s.take(i + 1);
        assert(next.drop_last() =~= s.take(i));
        assert(all_digits(s.take(i)));
        lemma_digits_val_nonneg(s.take(i));
        assert(digits_val(next) == digits_val(s.take(i)) * 10 + (next.last() - 48));
        lemma_digits_val_prefix(s, i + 1);
    } else {
        assert(s.take(i) =~= s);
    }
}

/// Parse a decimal integer field of value at most `max`.
pub fn parse_int(s: &[u8], max: u64) -> (r: Option<u64>)
    ensures
        r is Some <==> spec_parse_int(s@, max as int) is Some,
        r is Some ==> r->Some_0 == spec_parse_int(s@, max as int)->Some_0,
{
    let n = s.len();
    if n == 0 {
        return None;
    }
    let mut acc: u64 = 0;
    let mut k: usize = 0;
    proof {
        assert(s@.take(0) =~= Seq::<u8>::empty());
    }
    while k < n
        invariant
            k <= n,
            n == s@.len(),
            all_digits(s@.take(k as int)),
            acc == digits_val(s@.take(k as int)),
            acc <= max,
        decreases n - k,
    {
        let b = s[k];
        proof {
            assert(s@.take(k as int + 1).drop_last() =~= s@.take(k as int));
            assert(s@.take(k as int + 1).last() == s@[k as int]);
        }
        if b < 48 || b > 57 {
            proof {
                assert(!is_digit(s@[k as int]));
                assert(!all_digits(s@));
            }
            return None;
        }
        let d = (b - 48) as u64;
        let wide = (acc as u128) * 10 + (d as u128);
        if wide > max as u128 {
            proof {
                assert(digits_val(s@.take(k as int + 1)) == wide);
                if all_digits(s@) {
                    lemma_digits_val_prefix(s@, k as int + 1);
                }
            }
            return None;
        }
        acc = (wide as u64);
        k = k + 1;
    }
    proof {
        assert(s@.take(n as int) =~= s@);
    }
    Some(acc)
}

/// The fixed-point weight of a fractional part with `n` digits: a short or
/// absent fraction counts in coarser units.
pub open spec fn frac_scale(n: int) -> int {
    if n <= 0 {
        10000
    } else if n == 1 {
        1000
    } else if n == 2 {
        100
    } else if n == 3 {
        10
    } else {
        1
    }
}

/// What an amount field parses to, in fixed-point ten-thousandths: an
/// integer part of one or more digits, optionally followed by one decimal
/// point and at most four fractional digits, the whole worth at most
/// [`MAX_AMOUNT_UNITS`].
pub open spec fn spec_parse_amount(s: Seq<u8>) -> Option<int> {
    let parts = spec_split(s, DOT);
    if parts.len() == 1 || parts.len() == 2 {
        let ipart = parts[0];
        let frac = if parts.len() == 2 {
            parts[1]
        } else {
            Seq::<u8>::empty()
        };
        if ipart.len() > 0 && all_digits(ipart) && frac.len() <= 4 && all_digits(frac) {
            let units = digits_val(ipart) * 10000 + digits_val(frac) * frac_scale(
                frac.len() as int,
            );
            if units <= MAX_AMOUNT_UNITS {
                Some(units)
            } else {
                None
            }
        } else {
            None
        }
    } else {
        None
    }
}

/// Parse an amount field into fixed-point ten-thousandths.
pub fn parse_amount(s: &[u8]) -> (r: Option<u64>)
    ensures
        r is Some <==> spec_parse_amount(s@) is Some,
        r is Some ==> r->Some_0 == spec_parse_amount(s@)->Some_0,
        r is Some ==> r->Some_0 <= MAX_AMOUNT_UNITS,
{
    let parts = split_bytes(s, DOT);
    let ghost sparts = spec_split(s@, DOT);
    if parts.len() != 1 && parts.len() != 2 {
        return None;
    }
    let ghost gfrac: Seq<u8> = if sparts.len() == 2 {
        sparts[1]
    } else {
        Seq::<u8>::empty()
    };
    let ipart: &Vec<u8> = &parts[0];
    // The integer part alone can exceed the cap; anything above
    // MAX_AMOUNT_UNITS whole units certainly does.
    let ival = match parse_int(ipart.as_slice(), MAX_AMOUNT_UNITS) {
        Some(v) => v,
        None => {
            proof {
                let gi = sparts[0];
                if gi.len() > 0 && all_digits(gi) {
                    // The integer part parsed as digits but was too large:
                    // the scaled value is larger still.
                    lemma_digits_val_nonneg(gi);
                    if spec_parse_amount(s@) is Some {
                        lemma_digits_val_nonneg(gfrac);
                        assert(digits_val(gi) * 10000 >= digits_val(gi)) by (nonlinear_arith)
                            requires digits_val(gi) >= 0;
                        assert(digits_val(gfrac) * frac_scale(gfrac.len() as int) >= 0)
                            by (nonlinear_arith)
                            requires digits_val(gfrac) >= 0, frac_scale(gfrac.len() as int) >= 1;
                    }
                }
            }
            return None;
        },
    };
    let fval: u64 = if parts.len() == 2 {
        let frac: &Vec<u8> = &parts[1];
        if frac.len() > 4 {
            return None;
        }
        if frac.len() == 0 {
            0
        } else {
            // A fraction of at most four digits can never exceed 9999, so the
            // only failure left here is a non-digit byte in the fraction.
            match parse_int(frac.as_slice(), 9999) {
                Some(v) => v,
                None => {
                    proof {
                        if all_digits(gfrac) {
                            lemma_short_digits_bound(gfrac);
                        }
                    }
                    return None;
                },
            }
        }
    } else {
        0
    };
    let scale: u64 = if parts.len() == 1 {
        10000
    } else {
        let fl = parts[1].len();
        if fl == 0 {
            10000
        } else if fl == 1 {
            1000
        } else if fl == 2 {
            100
        } else if fl == 3 {
            10
        } else {
            1
        }
    };
    proof {
        assert((fval as int) * (scale as int) <= 99990000) by (nonlinear_arith)
            requires fval <= 9999, scale <= 10000;
    }
    let units = (ival as u128) * 10000 + (fval as u128) * (scale as u128);
    if units > MAX_AMOUNT_UNITS as u128 {
        return None;
    }
    proof {
        assert(digits_val(gfrac) == fval);
        assert(frac_scale(gfrac.len() as int) == scale);
    }
    Some(units as u64)
}

/// A short digit string is worth less than the power of ten above it.
proof fn lemma_short_digits_bound(s: Seq<u8>)
    requires
        all_digits(s),
        s.len() <= 4,
    ensures
        s.len() == 0 ==> digits_val(s) == 0,
        s.len() == 1 ==> digits_val(s) <= 9,
        s.len() == 2 ==> digits_val(s) <= 99,
        s.len() == 3 ==> digits_val(s) <= 999,
        s.len() == 4 ==> digits_val(s) <= 9999,
    decreases s.len(),
{
    if s.len() > 0 {
        lemma_short_digits_bound(s.drop_last());
    }
}

/// The bytes of the keyword `deposit`.
pub open spec fn deposit_bytes() -> Seq<u8> {
    seq![100u8, 101u8, 112u8, 111u8, 115u8, 105u8, 116u8]
}

/// The bytes of the keyword `withdrawal`.
pub open spec fn withdrawal_bytes() -> Seq<u8> {
    seq![119u8, 105u8, 116u8, 104u8, 100u8, 114u8, 97u8, 119u8, 97u8, 108u8]
}

/// The bytes of the keyword `dispute`.
pub open spec fn dispute_bytes() -> Seq<u8> {
    seq![100u8, 105u8, 115u8, 112u8, 117u8, 116u8, 101u8]
}

/// The bytes of the keyword `resolve`.
pub open spec fn resolve_bytes() -> Seq<u8> {
    seq![114u8, 101u8, 115u8, 111u8, 108u8, 118u8, 101u8]
}

/// The bytes of the keyword `chargeback`.
pub open spec fn chargeback_bytes() -> Seq<u8> {
    seq![99u8, 104u8, 97u8, 114u8, 103u8, 101u8, 98u8, 97u8, 99u8, 107u8]
}

/// What a type field parses to: the transaction kind its case-sensitive
/// keyword names.
pub open spec fn spec_parse_kind(s: Seq<u8>) -> Option<TransactionType> {
    if s == deposit_bytes() {
        Some(TransactionType::Deposit)
    } else if s == withdrawal_bytes() {
        Some(TransactionType::Withdrawal)
    } else if s == dispute_bytes() {
        Some(TransactionType::Dispute)
    } else if s == resolve_bytes() {
        Some(TransactionType::Resolve)
    } else if s == chargeback_bytes() {
        Some(TransactionType::Chargeback)
    } else {
        None
    }
}

/// Parse a type field.
pub fn parse_kind(s: &[u8]) -> (r: Option<TransactionType>)
    ensures
        r == spec_parse_kind(s@),
{
    let n = s.len();
    if n == 7 && s[0] == 100 && s[1] == 101 && s[2] == 112 && s[3] == 111 && s[4] == 115 && s[5]
        == 105 && s[6] == 116 {
        proof {
            assert(s@ =~= deposit_bytes());
        }
        Some(TransactionType::Deposit)
    } else if n == 10 && s[0] == 119 && s[1] == 105 && s[2] == 116 && s[3] == 104 && s[4] == 100
        && s[5] == 114 && s[6] == 97 && s[7] == 119 && s[8] == 97 && s[9] == 108 {
        proof {
            assert(s@ =~= withdrawal_bytes());
        }
        Some(TransactionType::Withdrawal)
    } else if n == 7 && s[0] == 100 && s[1] == 105 && s[2] == 115 && s[3] == 112 && s[4] == 117
        && s[5] == 116 && s[6] == 101 {
        proof {
            assert(s@ =~= dispute_bytes());
        }
        Some(TransactionType::Dispute)
    } else if n == 7 && s[0] == 114 && s[1] == 101 && s[2] == 115 && s[3] == 111 && s[4] == 108
        && s[5] == 118 && s[6] == 101 {
        proof {
            assert(s@ =~= resolve_bytes());
        }
        Some(TransactionType::Resolve)
    } else if n == 10 && s[0] == 99 && s[1] == 104 && s[2] == 97 && s[3] == 114 && s[4] == 103
        && s[5] == 101 && s[6] == 98 && s[7] == 97 && s[8] == 99 && s[9] == 107 {
        proof {
            assert(s@ =~= chargeback_bytes());
        }
        Some(TransactionType::Chargeback)
    } else {
        proof {
            assert(s@ != deposit_bytes());
            assert(s@ != withdrawal_bytes());
            assert(s@ != dispute_bytes());
            assert(s@ != resolve_bytes());
            assert(s@ != chargeback_bytes());
        }
        None
    }
}

/// What a whole data row parses to: its trimmed fields, of which there must
/// be three, or four when an amount is present; an empty fourth field counts
/// as no amount.
pub open spec fn spec_parse_row(line: Seq<u8>) -> Option<Transaction> {
    let fields = spec_split(line, COMMA).map_values(|f: Seq<u8>| spec_trim(f));
    if fields.len() == 3 || fields.len() == 4 {
        let kind = spec_parse_kind(fields[0]);
        let client = spec_parse_int(fields[1], u16::MAX as int);
        let tx = spec_parse_int(fields[2], u32::MAX as int);
        if kind is Some && client is Some && tx is Some {
            if fields.len() == 4 && fields[3].len() > 0 {
                match spec_parse_amount(fields[3]) {
                    Some(a) => Some(
                        Transaction {
                            kind: kind->Some_0,
                            client: client->Some_0 as u16,
                            tx: tx->Some_0 as u32,
                            amount: Some(a as u64),
                        },
                    ),
                    None => None,
                }
            } else {
                Some(
                    Transaction {
                        kind: kind->Some_0,
                        client: client->Some_0 as u16,
                        tx: tx->Some_0 as u32,
                        amount: None,
                    },
                )
            }
        } else {
            None
        }
    } else {
        None
    }
}

/// Parse one data row into a transaction record.
pub fn parse_row(line: &[u8]) -> (r: Option<Transaction>)
    ensures
        r == spec_parse_row(line@),
        r is Some ==> r->Some_0.amount_ok(),
{
    let raw_fields = split_bytes(line, COMMA);
    let ghost gfields = spec_split(line@, COMMA).map_values(|f: Seq<u8>| spec_trim(f));
    if raw_fields.len() != 3 && raw_fields.len() != 4 {
        return None;
    }
    let f0 = trim_bytes(raw_fields[0].as_slice());
    let f1 = trim_bytes(raw_fields[1].as_slice());
    let f2 = trim_bytes(raw_fields[2].as_slice());
    proof {
        assert(f0@ == gfields[0]);
        assert(f1@ == gfields[1]);
        assert(f2@ == gfields[2]);
    }
    let kind = match parse_kind(f0.as_slice()) {
        Some(k) => k,
        None => {
            return None;
        },
    };
    let client_wide = match parse_int(f1.as_slice(), 65535) {
        Some(v) => v,
        None => {
            return None;
        },
    };
    let client = client_wide as u16;
    let tx_wide = match parse_int(f2.as_slice(), 4294967295) {
        Some(v) => v,
        None => {
            return None;
        },
    };
    let tx = tx_wide as u32;
    let amount: Option<u64>;
    if raw_fields.len() == 4 {
        let f3 = trim_bytes(raw_fields[3].as_slice());
        proof {
            assert(f3@ == gfields[3]);
        }
        if f3.len() == 0 {
            amount = None;
        } else {
            match parse_amount(f3.as_slice()) {
                Some(a) => {
                    amount = Some(a);
                },
                None => {
                    return None;
                },
            }
        }
    } else {
        amount = None;
    }
    Some(Transaction { kind, client, tx, amount })
}

/// One classification step: a deposit or withdrawal is appended to its
/// client's history and indexed by id; a dispute, resolve or chargeback is
/// indexed by the id it references, a later row of the same kind overwriting
/// an earlier one.
pub open spec fn classify_step(st: ClassifiedView, t: Transaction) -> ClassifiedView {
    match t.kind {
        TransactionType::Deposit | TransactionType::Withdrawal => {
            let txs = if st.client_txs.contains_key(t.client) {
                st.client_txs[t.client].push(t.tx)
            } else {
                seq![t.tx]
            };
            let clients = if st.client_txs.contains_key(t.client) {
                st.clients
            } else {
                st.clients.push(t.client)
            };
            ClassifiedView {
                clients,
                client_txs: st.client_txs.insert(t.client, txs),
                transactions: st.transactions.insert(t.tx, t),
                ..st
            }
        },
        TransactionType::Dispute => ClassifiedView {
            disputes: st.disputes.insert(t.tx, t),
            ..st
        },
        TransactionType::Resolve => ClassifiedView {
            resolves: st.resolves.insert(t.tx, t),
            ..st
        },
        TransactionType::Chargeback => ClassifiedView {
            chargebacks: st.chargebacks.insert(t.tx, t),
            ..st
        },
    }
}

/// The classified view of a record sequence, folded in input order.
pub open spec fn classify_records(rs: Seq<Transaction>) -> ClassifiedView
    decreases rs.len(),
{
    if rs.len() == 0 {
        ClassifiedView::empty()
    } else {
        classify_step(classify_records(rs.drop_last()), rs.last())
    }
}

/// Partition decoded records into the five index structures.
pub fn classify(records: Vec<Transaction>) -> (r: ClassifiedTransactions)
    requires
        forall|i: int| 0 <= i < records@.len() ==> (#[trigger] records@[i]).amount_ok(),
    ensures
        r@ == classify_records(records@),
        r@.wf(),
{
    let mut clients: Vec<u16> = Vec::new();
    let mut client_txs: HashMap<u16, Vec<u32>> = HashMap::new();
    let mut transactions: HashMap<u32, Transaction> = HashMap::new();
    let mut disputes: HashMap<u32, Transaction> = HashMap::new();
    let mut resolves: HashMap<u32, Transaction> = HashMap::new();
    let mut chargebacks: HashMap<u32, Transaction> = HashMap::new();
    let n = records.len();
    let mut i: usize = 0;
    proof {
        assert(records@.take(0) =~= Seq::<Transaction>::empty());
        assert(Seq::<u16>::empty().to_set() =~= Set::<u16>::empty());
    }
    while i < n
        invariant
            i <= n,
            n == records@.len(),
            forall|j: int| 0 <= j < records@.len() ==> (#[trigger] records@[j]).amount_ok(),
            ({
                let cv = classify_records(records@.take(i as int));
                &&& clients@ == cv.clients
                &&& forall|c: u16|
                    client_txs@.contains_key(c) <==> cv.client_txs.dom().contains(c)
                &&& forall|c: u16|
                    #[trigger] client_txs@.contains_key(c) ==> client_txs@[c]@
                        == cv.client_txs[c]
                &&& transactions@ == cv.transactions
                &&& disputes@ == cv.disputes
                &&& resolves@ == cv.resolves
                &&& chargebacks@ == cv.chargebacks
                &&& cv.wf()
            }),
        decreases n - i,
    {
        let ghost cv = classify_records(records@.take(i as int));
        let t = records[i];
        proof {
            assert(records@.take(i as int + 1).drop_last() =~= records@.take(i as int));
            assert(records@.take(i as int + 1).last() == t);
        }
        let ghost cv2 = classify_records(records@.take(i as int + 1));
        match t.kind {
            TransactionType::Deposit | TransactionType::Withdrawal => {
                let existing = client_txs.remove(&t.client);
                match existing {
                    Some(mut txs) => {
                        proof {
                            assert(cv.client_txs.dom().contains(t.client));
                            assert(txs@ == cv.client_txs[t.client]);
                        }
                        txs.push(t.tx);
                        client_txs.insert(t.client, txs);
                    },
                    None => {
                        proof {
                            assert(!cv.client_txs.dom().contains(t.client));
                            assert(!cv.clients.to_set().contains(t.client));
                            assert(!cv.clients.contains(t.client));
                        }
                        clients.push(t.client);
                        let mut txs: Vec<u32> = Vec::new();
                        txs.push(t.tx);
                        client_txs.insert(t.client, txs);
                        proof {
                            assert(cv2.clients == cv.clients.push(t.client));
                            assert(cv2.clients.no_duplicates()) by {
                                assert(forall|a: int, b: int|
                                    0 <= a < b < cv2.clients.len() ==> cv2.clients[a]
                                        != cv2.clients[b]) by {
                                    assert(forall|a: int|
                                        0 <= a < cv.clients.len() ==> cv.clients[a]
                                            == cv2.clients[a]);
                                }
                            }
                        }
                    },
                }
                transactions.insert(t.tx, t);
                proof {
                    assert(cv2.clients.to_set() =~= cv.clients.to_set().insert(t.client)) by {
                        if cv.client_txs.dom().contains(t.client) {
                            assert(cv2.clients == cv.clients);
                            assert(cv.clients.to_set().contains(t.client));
                            assert(cv.clients.to_set().insert(t.client) =~= cv.clients.to_set());
                        } else {
                            let pushed = cv.clients.push(t.client);
                            assert forall|x: u16| pushed.to_set().contains(x) implies cv
                                .clients
                                .to_set()
                                .insert(t.client)
                                .contains(x) by {
                                let w = choose|w: int| 0 <= w < pushed.len() && pushed[w] == x;
                                if w < cv.clients.len() {
                                    assert(cv.clients[w] == x);
                                }
                            }
                            assert forall|x: u16|
                                cv.clients.to_set().insert(t.client).contains(x) implies pushed
                                .to_set()
                                .contains(x) by {
                                if x == t.client {
                                    assert(pushed[pushed.len() - 1] == x);
                                } else {
                                    let w = choose|w: int|
                                        0 <= w < cv.clients.len() && cv.clients[w] == x;
                                    assert(pushed[w] == x);
                                }
                            }
                        }
                    }
                    assert(cv2.client_txs.dom() =~= cv.client_txs.dom().insert(t.client));
                }
            },
            TransactionType::Dispute => {
                disputes.insert(t.tx, t);
            },
            TransactionType::Resolve => {
                resolves.insert(t.tx, t);
            },
            TransactionType::Chargeback => {
                chargebacks.insert(t.tx, t);
            },
        }
        i = i + 1;
    }
    proof {
        assert(records@.take(n as int) =~= records@);
    }
    let classified = ClassifiedTransactions {
        clients,
        client_txs,
        transactions,
        disputes,
        resolves,
        chargebacks,
    };
    proof {
        let cv = classify_records(records@);
        assert(classified@.client_txs =~= cv.client_txs);
        assert(classified@ == cv) by {
            assert(classified@.client_txs == cv.client_txs);
        }
    }
    classified
}

/// The non-blank lines, in order: a line is blank when nothing but
/// whitespace is on it, and blank lines are skipped, not parsed.
pub open spec fn spec_nonblank(lines: Seq<Seq<u8>>) -> Seq<Seq<u8>>
    decreases lines.len(),
{
    if lines.len() == 0 {
        Seq::empty()
    } else if spec_trim(lines[0]).len() == 0 {
        spec_nonblank(lines.drop_first())
    } else {
        seq![lines[0]] + spec_nonblank(lines.drop_first())
    }
}

/// The data rows of an input: its non-blank lines with the first — the
/// header — removed. The header is skipped without being read.
pub open spec fn spec_data_rows(input: Seq<u8>) -> Seq<Seq<u8>> {
    let nb = spec_nonblank(spec_split(input, LF));
    if nb.len() == 0 {
        Seq::empty()
    } else {
        nb.drop_first()
    }
}

/// Every data row of the input decodes into a transaction record; exactly
/// the condition under which ingestion succeeds.
pub open spec fn rows_well_formed(input: Seq<u8>) -> bool {
    forall|i: int|
        0 <= i < spec_data_rows(input).len() ==> spec_parse_row(
            #[trigger] spec_data_rows(input)[i],
        ) is Some
}

/// The records a well-formed input decodes to, in input order.
pub open spec fn spec_records(input: Seq<u8>) -> Seq<Transaction> {
    spec_data_rows(input).map_values(|r: Seq<u8>| spec_parse_row(r)->Some_0)
}

/// Decode a whole comma-separated input and classify its records.
///
/// All or nothing: if any data row is malformed the whole ingestion fails
/// with `InvalidTransactionRecord`, and otherwise the classified indices of
/// every record come back, ready for the ledger engine.
pub fn parse_csv_data(input: &[u8]) -> (r: Result<ClassifiedTransactions, TransactionError>)
    ensures
        r is Ok <==> rows_well_formed(input@),
        r is Err ==> r->Err_0 is InvalidTransactionRecord,
        r is Ok ==> r->Ok_0@ == classify_records(spec_records(input@)),
        r is Ok ==> r->Ok_0@.wf(),
{
    let lines = split_bytes(input, LF);
    let ghost gl = spec_split(input@, LF);
    let ghost nb = spec_nonblank(gl);
    let ghost drows = spec_data_rows(input@);
    let mut rows: Vec<Vec<u8>> = Vec::new();
    let mut header_seen = false;
    let nlines = lines.len();
    let mut idx: usize = 0;
    proof {
        assert(gl.skip(0) =~= gl);
    }
    while idx < nlines
        invariant
            idx <= nlines,
            nlines == lines@.len(),
            tokens_match(lines@, gl),
            nb == spec_nonblank(gl),
            !header_seen ==> rows@.len() == 0 && spec_nonblank(gl.skip(idx as int)) == nb,
            header_seen ==> rows@.len() + 1 <= nb.len() && spec_nonblank(gl.skip(idx as int))
                == nb.skip(rows@.len() as int + 1),
            forall|j: int| 0 <= j < rows@.len() ==> (#[trigger] rows@[j])@ == nb[j + 1],
        decreases nlines - idx,
    {
        let line = &lines[idx];
        let trimmed = trim_bytes(line.as_slice());
        proof {
            assert(line@ == gl[idx as int]);
            assert(gl.skip(idx as int)[0] == gl[idx as int]);
            assert(gl.skip(idx as int).drop_first() =~= gl.skip(idx as int + 1));
        }
        if trimmed.len() > 0 {
            proof {
                assert(spec_nonblank(gl.skip(idx as int)) == seq![gl[idx as int]]
                    + spec_nonblank(gl.skip(idx as int + 1)));
            }
            if header_seen {
                let ghost l = rows@.len() as int;
                rows.push(slice_to_vec(line.as_slice()));
                proof {
                    assert(nb.skip(l + 1)[0] == nb[l + 1]);
                    assert(nb.skip(l + 2) =~= nb.skip(l + 1).drop_first());
                    assert(nb.skip(l + 1).drop_first() =~= (seq![gl[idx as int]]
                        + spec_nonblank(gl.skip(idx as int + 1))).drop_first());
                    assert((seq![gl[idx as int]] + spec_nonblank(gl.skip(idx as int + 1)))
                        .drop_first() =~= spec_nonblank(gl.skip(idx as int + 1)));
                }
            } else {
                header_seen = true;
                proof {
                    assert(nb.skip(1) =~= nb.drop_first());
                    assert((seq![gl[idx as int]] + spec_nonblank(gl.skip(idx as int + 1)))
                        .drop_first() =~= spec_nonblank(gl.skip(idx as int + 1)));
                }
            }
        } else {
            proof {
                assert(spec_nonblank(gl.skip(idx as int)) == spec_nonblank(
                    gl.skip(idx as int + 1),
                ));
            }
        }
        idx = idx + 1;
    }
    proof {
        assert(gl.skip(nlines as int) =~= Seq::<Seq<u8>>::empty());
        assert(spec_nonblank(Seq::<Seq<u8>>::empty()) =~= Seq::<Seq<u8>>::empty());
        if header_seen {
            assert(nb.skip(rows@.len() as int + 1).len() == 0);
            assert(nb.len() == rows@.len() + 1);
            assert(drows =~= nb.drop_first());
        } else {
            assert(nb.len() == 0);
        }
        assert(rows@.len() == drows.len());
        assert(forall|j: int| 0 <= j < rows@.len() ==> (#[trigger] rows@[j])@ == drows[j]);
    }
    let mut records: Vec<Transaction> = Vec::new();
    let nrows = rows.len();
    let mut ri: usize = 0;
    while ri < nrows
        invariant
            ri <= nrows,
            nrows == rows@.len(),
            drows == spec_data_rows(input@),
            rows@.len() == drows.len(),
            forall|j: int| 0 <= j < rows@.len() ==> (#[trigger] rows@[j])@ == drows[j],
            records@.len() == ri,
            forall|j: int|
                0 <= j < ri as int ==> spec_parse_row(#[trigger] drows[j]) is Some,
            forall|j: int|
                0 <= j < ri as int ==> (#[trigger] records@[j]) == spec_parse_row(
                    drows[j],
                )->Some_0,
            forall|j: int| 0 <= j < ri as int ==> (#[trigger] records@[j]).amount_ok(),
        decreases nrows - ri,
    {
        match parse_row(rows[ri].as_slice()) {
            Some(t) => {
                records.push(t);
            },
            None => {
                proof {
                    assert(spec_parse_row(drows[ri as int]) is None);
                }
                return Err(
                    TransactionError::InvalidTransactionRecord(
                        "failed to decode a transaction row".to_owned(),
                    ),
                );
            },
        }
        ri = ri + 1;
    }
    proof {
        assert(records@ =~= spec_records(input@));
    }
    Ok(classify(records))
}

} // verus!
