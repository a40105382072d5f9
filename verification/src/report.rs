//! Per-contract reports: the metadata gate, allowance scaling and the
//! rendered report lines.
//!
//! A contract resolves only when its two metadata reads and every one of
//! its spenders' allowance reads succeed; any single failure degrades that
//! contract, and that contract alone, to an error entry. A raw allowance
//! is a decimal digit string (256-bit integers do not fit machine words);
//! it is scaled by `10^decimals` exactly, as an integer part and a
//! trimmed decimal fraction, rather than through lossy floating point.

use vstd::prelude::*;
use vstd::arithmetic::power::pow;
use vstd::slice::slice_to_vec;

use crate::ascii::COLON;
use crate::ascii::DASH;
use crate::ascii::DIGIT_NINE;
use crate::ascii::DIGIT_ZERO;
use crate::ascii::DOT;
use crate::ascii::LC_A;
use crate::ascii::LC_C;
use crate::ascii::LC_D;
use crate::ascii::LC_E;
use crate::ascii::LC_I;
use crate::ascii::LC_L;
use crate::ascii::LC_M;
use crate::ascii::LC_N;
use crate::ascii::LC_O;
use crate::ascii::LC_R;
use crate::ascii::LC_S;
use crate::ascii::LEFT_BRACKET;
use crate::ascii::RIGHT_BRACKET;
use crate::ascii::SPACE;
use crate::ascii::STAR;
use crate::ascii::UC_E;
use crate::errors::Error;

verus! {

/// Token metadata, fetched at most once per distinct contract.
#[derive(Debug)]
pub struct TokenMeta {
    pub name: Vec<u8>,
    pub decimals: u8,
}

/// A resolved contract: metadata and, for each spender, the current
/// allowance scaled by `10^decimals` and written exactly in decimal.
#[derive(Debug)]
pub struct TokenContractWithSpenderAllowances {
    pub name: Vec<u8>,
    pub address: Vec<u8>,
    pub decimals: u8,
    pub spender_allowances: Vec<(Vec<u8>, Vec<u8>)>,
}

/// One contract's report: resolved, or degraded to an error entry that
/// never touches sibling contracts.
#[derive(Debug)]
pub enum ContractReport {
    Resolved(TokenContractWithSpenderAllowances),
    Failed { address: Vec<u8>, kind: Error, message: Vec<u8> },
}

/// The digits of a nonnegative decimal integer as the chain collaborator
/// prints one: at least one digit, no leading zero except for zero itself.
pub open spec fn canonical_digits(s: Seq<u8>) -> bool {
    &&& s.len() >= 1
    &&& forall|i: int| 0 <= i < s.len() ==> DIGIT_ZERO <= #[trigger] s[i] <= DIGIT_NINE
    &&& s.len() > 1 ==> s[0] != DIGIT_ZERO
}

/// The string with its trailing `0` characters removed.
pub open spec fn trim_trailing_zeros(s: Seq<u8>) -> Seq<u8>
    decreases s.len(),
{
    if s.len() > 0 && s.last() == DIGIT_ZERO {
        trim_trailing_zeros(s.drop_last())
    } else {
        s
    }
}

/// The integer part of the raw digits scaled by `10^decimals`: what is
/// left of the split point, or `0` when every digit is fractional.
pub open spec fn integer_digits(d: Seq<u8>, decimals: nat) -> Seq<u8> {
    if d.len() > decimals {
        d.take(d.len() - decimals)
    } else {
        seq![DIGIT_ZERO]
    }
}

/// The fraction of the raw digits scaled by `10^decimals`: the last
/// `decimals` digits, left-padded with zeros to exactly that width.
pub open spec fn fraction_digits(d: Seq<u8>, decimals: nat) -> Seq<u8> {
    if d.len() > decimals {
        d.skip(d.len() - decimals)
    } else {
        Seq::new((decimals - d.len()) as nat, |i: int| DIGIT_ZERO) + d
    }
}

/// The raw integer divided by `10^decimals`, written exactly: integer
/// part, then the fraction trimmed of trailing zeros, dropped together
/// with the point when nothing remains.
pub open spec fn scaled_decimal(d: Seq<u8>, decimals: nat) -> Seq<u8> {
    let trimmed = trim_trailing_zeros(fraction_digits(d, decimals));
    if trimmed.len() == 0 {
        integer_digits(d, decimals)
    } else {
        integer_digits(d, decimals) + seq![DOT] + trimmed
    }
}

/// Numeric value of a decimal digit string, most significant digit first.
pub open spec fn digits_value(s: Seq<u8>) -> nat
    decreases s.len(),
{
    if s.len() == 0 {
        0
    } else {
        digits_value(s.drop_last()) * 10 + (s.last() - DIGIT_ZERO) as nat
    }
}

/// Every character is a decimal digit.
pub open spec fn all_decimal_digits(s: Seq<u8>) -> bool {
    forall|i: int| 0 <= i < s.len() ==> DIGIT_ZERO <= #[trigger] s[i] <= DIGIT_NINE
}

/// The error message when a token's `name` read failed.
pub open spec fn name_failure_message(e: Seq<u8>) -> Seq<u8> {
    seq![LC_N, LC_A, LC_M, LC_E, COLON, SPACE] + e
}

/// The error message when a token's `decimals` read failed.
pub open spec fn decimals_failure_message(e: Seq<u8>) -> Seq<u8> {
    seq![LC_D, LC_E, LC_C, LC_I, LC_M, LC_A, LC_L, LC_S, COLON, SPACE] + e
}

/// The error message when a spender's allowance read failed.
pub open spec fn allowance_failure_message(spender: Seq<u8>, e: Seq<u8>) -> Seq<u8> {
    spender + seq![COLON, SPACE] + e
}

/// A contract's header line, `[<name>] <address>`.
pub open spec fn header_line(name: Seq<u8>, address: Seq<u8>) -> Seq<u8> {
    seq![LEFT_BRACKET] + name + seq![RIGHT_BRACKET, SPACE] + address
}

/// A spender's line, `  * <spender> - <scaled allowance>`.
pub open spec fn spender_line(spender: Seq<u8>, amount: Seq<u8>) -> Seq<u8> {
    seq![SPACE, SPACE, STAR, SPACE] + spender + seq![SPACE, DASH, SPACE] + amount
}

/// A degraded contract's line, `[Error] <address> - <message>`.
pub open spec fn error_line(address: Seq<u8>, message: Seq<u8>) -> Seq<u8> {
    seq![LEFT_BRACKET, UC_E, LC_R, LC_R, LC_O, LC_R, RIGHT_BRACKET, SPACE] + address + seq![
        SPACE,
        DASH,
        SPACE,
    ] + message
}

fn append_bytes(out: &mut Vec<u8>, s: &[u8])
    ensures
        final(out)@ == old(out)@ + s@,
{
    let mut i: usize = 0;
    while i < s.len()
        invariant
            i <= s@.len(),
            out@.len() == old(out)@.len() + i,
            forall|j: int| 0 <= j < old(out)@.len() ==> out@[j] == old(out)@[j],
            forall|j: int| 0 <= j < i ==> out@[old(out)@.len() + j] == s@[j],
        decreases s@.len() - i,
    {
        out.push(s[i]);
        i = i + 1;
    }
    proof {
        assert(out@ =~= old(out)@ + s@);
    }
}

/// True iff `s` is a nonnegative decimal integer in canonical form, fit
/// to be scaled; callers check foreign query results through this before
/// handing them to [`allowance_report`].
pub fn is_canonical_digits(s: &[u8]) -> (r: bool)
    ensures
        r == canonical_digits(s@),
{
    if s.len() == 0 {
        return false;
    }
    if s.len() > 1 && s[0] == DIGIT_ZERO {
        return false;
    }
    let mut i: usize = 0;
    while i < s.len()
        invariant
            i <= s@.len(),
            forall|j: int| 0 <= j < i ==> DIGIT_ZERO <= #[trigger] s@[j] <= DIGIT_NINE,
        decreases s@.len() - i,
    {
        if s[i] < DIGIT_ZERO || s[i] > DIGIT_NINE {
            return false;
        }
        i = i + 1;
    }
    true
}

proof fn lemma_digits_value_all_zeros(z: Seq<u8>)
    requires
        forall|i: int| 0 <= i < z.len() ==> z[i] == DIGIT_ZERO,
    ensures
        digits_value(z) == 0,
    decreases z.len(),
{
    if z.len() > 0 {
        lemma_digits_value_all_zeros(z.drop_last());
    }
}

proof fn lemma_digits_value_zeros_prefix(z: Seq<u8>, s: Seq<u8>)
    requires
        forall|i: int| 0 <= i < z.len() ==> z[i] == DIGIT_ZERO,
    ensures
        digits_value(z + s) == digits_value(s),
    decreases s.len(),
{
    if s.len() == 0 {
        assert(z + s =~= z);
        lemma_digits_value_all_zeros(z);
    } else {
        assert((z + s).drop_last() =~= z + s.drop_last());
        lemma_digits_value_zeros_prefix(z, s.drop_last());
        assert((z + s).last() == s.last());
    }
}

proof fn lemma_digits_value_split(s: Seq<u8>, k: int)
    requires
        0 <= k <= s.len(),
    ensures
        digits_value(s) == digits_value(s.take(k)) * pow(10, (s.len() - k) as nat) + digits_value(
            s.skip(k),
        ),
    decreases s.len(),
{
    reveal(pow);
    if k == s.len() {
        assert(s.take(k) =~= s);
        assert(s.skip(k) =~= Seq::<u8>::empty());
        assert(pow(10, 0) == 1);
    } else {
        let dl = s.drop_last();
        assert(dl =~= s.take(s.len() - 1));
        lemma_digits_value_split(dl, k);
        assert(dl.take(k) =~= s.take(k));
        assert(dl.skip(k) =~= s.skip(k).drop_last());
        let vt = digits_value(s.take(k));
        let vsd = digits_value(dl.skip(k));
        let p1 = pow(10, (s.len() - 1 - k) as nat);
        let last = (s.last() - DIGIT_ZERO) as nat;
        assert(digits_value(s) == digits_value(dl) * 10 + last);
        assert(digits_value(dl) == vt * p1 + vsd);
        assert(pow(10, (s.len() - k) as nat) == 10 * p1);
        assert(s.skip(k).last() == s.last());
        assert(digits_value(s.skip(k)) == vsd * 10 + last);
        assert((vt * p1 + vsd) * 10 + last == vt * (10 * p1) + (vsd * 10 + last))
            by (nonlinear_arith);
    }
}

proof fn lemma_digits_value_bound(s: Seq<u8>)
    requires
        all_decimal_digits(s),
    ensures
        digits_value(s) < pow(10, s.len() as nat),
    decreases s.len(),
{
    reveal(pow);
    if s.len() == 0 {
        assert(pow(10, 0) == 1);
    } else {
        assert(all_decimal_digits(s.drop_last()));
        lemma_digits_value_bound(s.drop_last());
        let v = digits_value(s.drop_last());
        let p1 = pow(10, (s.len() - 1) as nat);
        let last = (s.last() - DIGIT_ZERO) as nat;
        assert(last <= 9);
        assert(pow(10, s.len() as nat) == 10 * p1);
        assert(v * 10 + last < 10 * p1) by (nonlinear_arith)
            requires
                v < p1,
                last <= 9,
        ;
    }
}

/// Scaling loses nothing: the integer part weighted by `10^decimals` plus
/// the fraction digits reassemble the raw integer exactly, and the
/// fraction, always exactly `decimals` digits wide, stays strictly below
/// one unit of the integer part.
pub proof fn lemma_scaled_parts_exact(d: Seq<u8>, decimals: nat)
    requires
        canonical_digits(d),
    ensures
        digits_value(integer_digits(d, decimals)) * pow(10, decimals) + digits_value(
            fraction_digits(d, decimals),
        ) == digits_value(d),
        digits_value(fraction_digits(d, decimals)) < pow(10, decimals),
        fraction_digits(d, decimals).len() == decimals,
{
    if d.len() > decimals {
        lemma_digits_value_split(d, d.len() - decimals);
        assert(all_decimal_digits(fraction_digits(d, decimals)));
        lemma_digits_value_bound(fraction_digits(d, decimals));
    } else {
        let ip = integer_digits(d, decimals);
        assert(ip.drop_last() =~= Seq::<u8>::empty());
        assert(digits_value(Seq::<u8>::empty()) == 0);
        assert(digits_value(ip) == 0);
        let zeros = Seq::new((decimals - d.len()) as nat, |i: int| DIGIT_ZERO);
        lemma_digits_value_zeros_prefix(zeros, d);
        assert(0 * pow(10, decimals) == 0) by (nonlinear_arith);
        assert(all_decimal_digits(fraction_digits(d, decimals)));
        lemma_digits_value_bound(fraction_digits(d, decimals));
    }
}

/// Trimming trailing zeros keeps the fraction's value: the trimmed
/// digits, re-weighted to the original width, equal the untrimmed digits.
pub proof fn lemma_trim_keeps_value(f: Seq<u8>)
    requires
        all_decimal_digits(f),
    ensures
        trim_trailing_zeros(f).len() <= f.len(),
        digits_value(trim_trailing_zeros(f)) * pow(
            10,
            (f.len() - trim_trailing_zeros(f).len()) as nat,
        ) == digits_value(f),
    decreases f.len(),
{
    reveal(pow);
    let t = trim_trailing_zeros(f);
    if f.len() > 0 && f.last() == DIGIT_ZERO {
        assert(all_decimal_digits(f.drop_last()));
        lemma_trim_keeps_value(f.drop_last());
        assert(t == trim_trailing_zeros(f.drop_last()));
        let w1 = (f.len() - 1 - t.len()) as nat;
        assert(digits_value(f) == digits_value(f.drop_last()) * 10);
        assert(pow(10, (f.len() - t.len()) as nat) == 10 * pow(10, w1));
        assert(digits_value(t) * (10 * pow(10, w1)) == (digits_value(t) * pow(10, w1)) * 10)
            by (nonlinear_arith);
    } else {
        assert(pow(10, 0) == 1);
        assert(digits_value(t) * 1 == digits_value(t)) by (nonlinear_arith);
    }
}

proof fn lemma_trim_no_trailing_zero(s: Seq<u8>)
    ensures
        trim_trailing_zeros(s).len() > 0 ==> trim_trailing_zeros(s).last() != DIGIT_ZERO,
    decreases s.len(),
{
    if s.len() > 0 && s.last() == DIGIT_ZERO {
        lemma_trim_no_trailing_zero(s.drop_last());
    }
}

/// The scaled value is written canonically: the fraction, when present,
/// never ends in a zero digit, and the integer part is itself a canonical
/// digit string, with no leading zero unless it is the single digit `0`.
pub proof fn lemma_scaled_decimal_canonical(d: Seq<u8>, decimals: nat)
    requires
        canonical_digits(d),
    ensures
        trim_trailing_zeros(fraction_digits(d, decimals)).len() > 0 ==> trim_trailing_zeros(
            fraction_digits(d, decimals),
        ).last() != DIGIT_ZERO,
        canonical_digits(integer_digits(d, decimals)),
{
    lemma_trim_no_trailing_zero(fraction_digits(d, decimals));
    let ip = integer_digits(d, decimals);
    if d.len() > decimals {
        assert(forall|i: int| 0 <= i < ip.len() ==> DIGIT_ZERO <= #[trigger] ip[i] <= DIGIT_NINE);
        if ip.len() > 1 {
            assert(ip[0] == d[0]);
        }
    } else {
        assert(ip =~= seq![DIGIT_ZERO]);
    }
}

/// Trailing zeros end exactly at `k` iff the trimmed string is the first
/// `k` characters.
proof fn lemma_trim_take(s: Seq<u8>, k: int)
    requires
        0 <= k <= s.len(),
        forall|m: int| k <= m < s.len() ==> s[m] == DIGIT_ZERO,
        k > 0 ==> s[k - 1] != DIGIT_ZERO,
    ensures
        trim_trailing_zeros(s) == s.take(k),
    decreases s.len(),
{
    if s.len() > k {
        assert(s.last() == DIGIT_ZERO);
        let s2 = s.drop_last();
        assert(s2 =~= s.take(s.len() - 1));
        lemma_trim_take(s2, k);
        assert(s2.take(k) =~= s.take(k));
    } else {
        assert(s.take(k) =~= s);
    }
}

/// Scales a raw allowance, given as canonical decimal digits, down by
/// `10^decimals`, writing the exact decimal result.
pub fn scale_allowance(raw: &[u8], decimals: u8) -> (r: Vec<u8>)
    requires
        canonical_digits(raw@),
    ensures
        r@ == scaled_decimal(raw@, decimals as nat),
{
    let n = raw.len();
    let d = decimals as usize;
    let mut out: Vec<u8> = Vec::new();
    if n > d {
        let mut i: usize = 0;
        while i < n - d
            invariant
                n == raw@.len(),
                d < n,
                i <= n - d,
                out@.len() == i,
                forall|j: int| 0 <= j < i ==> out@[j] == raw@[j],
            decreases n - d - i,
        {
            out.push(raw[i]);
            i = i + 1;
        }
        proof {
            assert(out@ =~= raw@.take(raw@.len() - decimals as nat));
        }
    } else {
        out.push(DIGIT_ZERO);
        proof {
            assert(out@ =~= seq![DIGIT_ZERO]);
        }
    }
    let ghost ip = out@;
    let mut fraction: Vec<u8> = Vec::new();
    if n > d {
        let mut i: usize = n - d;
        while i < n
            invariant
                n == raw@.len(),
                d < n,
                n - d <= i <= n,
                fraction@.len() == i - (n - d),
                forall|j: int| n - d <= j < i ==> fraction@[j - (n - d)] == raw@[j],
            decreases n - i,
        {
            fraction.push(raw[i]);
            i = i + 1;
        }
        proof {
            assert(fraction@ =~= raw@.skip(raw@.len() - decimals as nat));
        }
    } else {
        let mut i: usize = 0;
        while i < d - n
            invariant
                i <= d - n,
                fraction@.len() == i,
                forall|j: int| 0 <= j < i ==> fraction@[j] == DIGIT_ZERO,
            decreases d - n - i,
        {
            fraction.push(DIGIT_ZERO);
            i = i + 1;
        }
        let mut j: usize = 0;
        while j < n
            invariant
                n == raw@.len(),
                n <= d,
                j <= n,
                fraction@.len() == d - n + j,
                forall|m: int| 0 <= m < d - n ==> fraction@[m] == DIGIT_ZERO,
                forall|m: int| 0 <= m < j ==> fraction@[d - n + m] == raw@[m],
            decreases n - j,
        {
            fraction.push(raw[j]);
            j = j + 1;
        }
        proof {
            assert(fraction@ =~= Seq::new((decimals as nat - raw@.len()) as nat, |i: int| DIGIT_ZERO)
                + raw@);
        }
    }
    let ghost whole_fraction = fraction@;
    let mut k: usize = fraction.len();
    while k > 0 && fraction[k - 1] == DIGIT_ZERO
        invariant
            k <= fraction@.len(),
            fraction@ == whole_fraction,
            forall|m: int| k <= m < fraction@.len() ==> fraction@[m] == DIGIT_ZERO,
        decreases k,
    {
        k = k - 1;
    }
    proof {
        lemma_trim_take(whole_fraction, k as int);
    }
    if k > 0 {
        out.push(DOT);
        let mut m: usize = 0;
        while m < k
            invariant
                k <= fraction@.len(),
                fraction@ == whole_fraction,
                m <= k,
                out@.len() == ip.len() + 1 + m,
                out@ == ip + seq![DOT] + fraction@.take(m as int),
            decreases k - m,
        {
            out.push(fraction[m]);
            proof {
                assert(out@ =~= ip + seq![DOT] + fraction@.take(m + 1));
            }
            m = m + 1;
        }
        proof {
            assert(out@ == ip + seq![DOT] + whole_fraction.take(k as int));
        }
    }
    proof {
        assert(out@ =~= scaled_decimal(raw@, decimals as nat));
    }
    out
}

/// Gates a contract on its metadata: both the `name` and the `decimals`
/// read must have succeeded, else the whole contract degrades to an error
/// entry naming the read that failed, and no allowance is considered.
pub fn check_metadata(
    contract: &[u8],
    name: Result<Vec<u8>, Vec<u8>>,
    decimals: Result<u8, Vec<u8>>,
) -> (r: Result<TokenMeta, ContractReport>)
    ensures
        r is Ok <==> (name is Ok && decimals is Ok),
        r matches Ok(meta) ==> meta.name@ == name->Ok_0@ && meta.decimals == decimals->Ok_0,
        r matches Err(rep) ==> rep matches ContractReport::Failed { address, kind, message }
            && address@ == contract@ && kind == Error::MetadataQueryFailed && (name matches Err(e)
            ==> message@ == name_failure_message(e@)) && (name is Ok ==> (decimals matches Err(e)
            && message@ == decimals_failure_message(e@))),
{
    match name {
        Ok(name_value) => {
            match decimals {
                Ok(decimals_value) => Ok(TokenMeta { name: name_value, decimals: decimals_value }),
                Err(e) => {
                    let mut message: Vec<u8> = Vec::new();
                    message.push(LC_D);
                    message.push(LC_E);
                    message.push(LC_C);
                    message.push(LC_I);
                    message.push(LC_M);
                    message.push(LC_A);
                    message.push(LC_L);
                    message.push(LC_S);
                    message.push(COLON);
                    message.push(SPACE);
                    append_bytes(&mut message, e.as_slice());
                    proof {
                        assert(message@ =~= decimals_failure_message(e@));
                    }
                    Err(
                        ContractReport::Failed {
                            address: slice_to_vec(contract),
                            kind: Error::MetadataQueryFailed,
                            message,
                        },
                    )
                },
            }
        },
        Err(e) => {
            let mut message: Vec<u8> = Vec::new();
            message.push(LC_N);
            message.push(LC_A);
            message.push(LC_M);
            message.push(LC_E);
            message.push(COLON);
            message.push(SPACE);
            append_bytes(&mut message, e.as_slice());
            proof {
                assert(message@ =~= name_failure_message(e@));
            }
            Err(
                ContractReport::Failed {
                    address: slice_to_vec(contract),
                    kind: Error::MetadataQueryFailed,
                    message,
                },
            )
        },
    }
}

/// Merges a contract's allowance outcomes into its report: all reads
/// succeeded and each is scaled by the token's decimals, or the first
/// failed read degrades the whole contract to an error entry naming the
/// spender whose read failed.
pub fn allowance_report(
    contract: &[u8],
    meta: TokenMeta,
    spenders: &Vec<Vec<u8>>,
    allowances: &Vec<Result<Vec<u8>, Vec<u8>>>,
) -> (r: ContractReport)
    requires
        allowances@.len() == spenders@.len(),
        forall|i: int|
            0 <= i < allowances@.len() ==> ((#[trigger] allowances@[i]) is Ok ==> canonical_digits(
                allowances@[i]->Ok_0@,
            )),
    ensures
        (forall|i: int| 0 <= i < allowances@.len() ==> (#[trigger] allowances@[i]) is Ok) ==> (
        r matches ContractReport::Resolved(t) && t.name@ == meta.name@ && t.address@ == contract@
            && t.decimals == meta.decimals && t.spender_allowances@.len() == spenders@.len()
            && forall|i: int|
            0 <= i < spenders@.len() ==> (#[trigger] t.spender_allowances@[i]).0@ == spenders@[i]@
                && t.spender_allowances@[i].1@ == scaled_decimal(
                allowances@[i]->Ok_0@,
                meta.decimals as nat,
            )),
        (exists|i: int| 0 <= i < allowances@.len() && !((#[trigger] allowances@[i]) is Ok)) ==> (
        r matches ContractReport::Failed { address, kind, message } && address@ == contract@
            && kind == Error::AllowanceQueryFailed && exists|i: int|
            0 <= i < allowances@.len() && (#[trigger] allowances@[i]) is Err && (forall|j: int|
                0 <= j < i ==> (#[trigger] allowances@[j]) is Ok) && message@
                == allowance_failure_message(spenders@[i]@, allowances@[i]->Err_0@)),
{
    let mut pairs: Vec<(Vec<u8>, Vec<u8>)> = Vec::new();
    let mut i: usize = 0;
    while i < spenders.len()
        invariant
            allowances@.len() == spenders@.len(),
            i <= spenders@.len(),
            forall|k: int|
                0 <= k < allowances@.len() ==> ((#[trigger] allowances@[k]) is Ok
                    ==> canonical_digits(allowances@[k]->Ok_0@)),
            pairs@.len() == i,
            forall|j: int| 0 <= j < i ==> (#[trigger] allowances@[j]) is Ok,
            forall|j: int|
                0 <= j < i ==> (#[trigger] pairs@[j]).0@ == spenders@[j]@ && pairs@[j].1@
                    == scaled_decimal(allowances@[j]->Ok_0@, meta.decimals as nat),
        decreases spenders@.len() - i,
    {
        match &allowances[i] {
            Ok(raw) => {
                let scaled = scale_allowance(raw.as_slice(), meta.decimals);
                let spender_copy = slice_to_vec(spenders[i].as_slice());
                pairs.push((spender_copy, scaled));
            },
            Err(e) => {
                let mut message = slice_to_vec(spenders[i].as_slice());
                message.push(COLON);
                message.push(SPACE);
                append_bytes(&mut message, e.as_slice());
                proof {
                    assert(message@ =~= allowance_failure_message(
                        spenders@[i as int]@,
                        allowances@[i as int]->Err_0@,
                    ));
                }
                return ContractReport::Failed {
                    address: slice_to_vec(contract),
                    kind: Error::AllowanceQueryFailed,
                    message,
                };
            },
        }
        i = i + 1;
    }
    ContractReport::Resolved(
        TokenContractWithSpenderAllowances {
            name: meta.name,
            address: slice_to_vec(contract),
            decimals: meta.decimals,
            spender_allowances: pairs,
        },
    )
}

/// Renders one contract's report lines: a header and one line per
/// spender, or the single error line of a degraded contract.
pub fn render_contract_report(report: &ContractReport) -> (lines: Vec<Vec<u8>>)
    ensures
        report matches ContractReport::Resolved(t) ==> lines@.len() == 1
            + t.spender_allowances@.len() && lines@[0]@ == header_line(t.name@, t.address@)
            && forall|i: int|
            0 <= i < t.spender_allowances@.len() ==> (#[trigger] lines@[i + 1])@ == spender_line(
                t.spender_allowances@[i].0@,
                t.spender_allowances@[i].1@,
            ),
        report matches ContractReport::Failed { address, kind, message } ==> lines@.len() == 1
            && lines@[0]@ == error_line(address@, message@),
{
    let mut lines: Vec<Vec<u8>> = Vec::new();
    match report {
        ContractReport::Resolved(t) => {
            let mut header: Vec<u8> = Vec::new();
            header.push(LEFT_BRACKET);
            append_bytes(&mut header, t.name.as_slice());
            header.push(RIGHT_BRACKET);
            header.push(SPACE);
            append_bytes(&mut header, t.address.as_slice());
            proof {
                assert(header@ =~= header_line(t.name@, t.address@));
            }
            lines.push(header);
            let mut i: usize = 0;
            while i < t.spender_allowances.len()
                invariant
                    i <= t.spender_allowances@.len(),
                    lines@.len() == 1 + i,
                    lines@[0]@ == header_line(t.name@, t.address@),
                    forall|j: int|
                        0 <= j < i ==> (#[trigger] lines@[j + 1])@ == spender_line(
                            t.spender_allowances@[j].0@,
                            t.spender_allowances@[j].1@,
                        ),
                decreases t.spender_allowances@.len() - i,
            {
                let mut line: Vec<u8> = Vec::new();
                line.push(SPACE);
                line.push(SPACE);
                line.push(STAR);
                line.push(SPACE);
                append_bytes(&mut line, t.spender_allowances[i].0.as_slice());
                line.push(SPACE);
                line.push(DASH);
                line.push(SPACE);
                append_bytes(&mut line, t.spender_allowances[i].1.as_slice());
                proof {
                    assert(line@ =~= spender_line(
                        t.spender_allowances@[i as int].0@,
                        t.spender_allowances@[i as int].1@,
                    ));
                }
                lines.push(line);
                i = i + 1;
            }
        },
        ContractReport::Failed { address, kind: _, message } => {
            let mut line: Vec<u8> = Vec::new();
            line.push(LEFT_BRACKET);
            line.push(UC_E);
            line.push(LC_R);
            line.push(LC_R);
            line.push(LC_O);
            line.push(LC_R);
            line.push(RIGHT_BRACKET);
            line.push(SPACE);
            append_bytes(&mut line, address.as_slice());
            line.push(SPACE);
            line.push(DASH);
            line.push(SPACE);
            append_bytes(&mut line, message.as_slice());
            proof {
                assert(line@ =~= error_line(address@, message@));
            }
            lines.push(line);
        },
    }
    lines
}

} // verus!
