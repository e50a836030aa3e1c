//! The persisted structured-text encoding of poster arrays and its
//! inverse. Every value is written as decimal ASCII: numbers end with a
//! newline, strings are written as their UTF-8 byte length followed by
//! the raw bytes. The encoding is canonical (no leading zeros), so it is
//! injective, and decoding is proved to invert it exactly.

use vstd::prelude::*;
use vstd::string::StringSliceAdditionalSpecFns;
use vstd::utf8::{valid_utf8, encode_utf8};
use crate::PosterError;
use crate::poster::{PageV, ArrayV, Page, PosterArray};

verus! {

/// Newline, the terminator of every encoded number.
pub const NL: u8 = 10;

/// An ASCII decimal digit.
pub open spec fn is_digit(b: u8) -> bool {
    48 <= b <= 57
}

/// Canonical decimal digits of `n`, most significant first, no leading
/// zeros.
pub open spec fn dec_rep(n: nat) -> Seq<u8>
    decreases n,
{
    if n < 10 {
        seq![(48 + n) as u8]
    } else {
        dec_rep(n / 10) + seq![(48 + n % 10) as u8]
    }
}

/// One encoded number: its decimal digits and a closing newline.
pub open spec fn enc_u32(n: u32) -> Seq<u8> {
    dec_rep(n as nat) + seq![NL]
}

/// Value of a digit run read most-significant-first into an accumulator.
pub open spec fn digits_val(s: Seq<u8>, acc: nat) -> nat
    decreases s.len(),
{
    if s.len() == 0 {
        acc
    } else {
        digits_val(s.drop_first(), acc * 10 + (s[0] - 48) as nat)
    }
}

/// Powers of ten.
pub open spec fn pow10(k: nat) -> nat
    decreases k,
{
    if k == 0 {
        1
    } else {
        10 * pow10((k - 1) as nat)
    }
}

/// Reading a single digit.
pub proof fn lemma_digits_val_single(d: u8, acc: nat)
    ensures
        digits_val(seq![d], acc) == acc * 10 + ((d - 48) as nat),
{
    assert(seq![d].drop_first() =~= Seq::<u8>::empty());
    assert(digits_val(seq![d], acc) == digits_val(
        seq![d].drop_first(),
        acc * 10 + (seq![d][0] - 48) as nat,
    ));
    assert(digits_val(Seq::<u8>::empty(), acc * 10 + ((d - 48) as nat)) == acc * 10 + ((d
        - 48) as nat));
}

pub proof fn lemma_dec_rep_digits(n: nat)
    ensures
        dec_rep(n).len() >= 1,
        forall|i: int| 0 <= i < dec_rep(n).len() ==> is_digit(#[trigger] dec_rep(n)[i]),
        n > 0 ==> dec_rep(n)[0] != 48,
        n == 0 ==> dec_rep(n) =~= seq![48u8],
    decreases n,
{
    if n >= 10 {
        lemma_dec_rep_digits(n / 10);
        assert(n / 10 >= 1);
    }
}

/// Reading a digit run left to right is compositional.
pub proof fn lemma_digits_val_concat(s1: Seq<u8>, s2: Seq<u8>, acc: nat)
    ensures
        digits_val(s1 + s2, acc) == digits_val(s2, digits_val(s1, acc)),
    decreases s1.len(),
{
    if s1.len() == 0 {
        assert(s1 + s2 =~= s2);
    } else {
        assert((s1 + s2).drop_first() =~= s1.drop_first() + s2);
        lemma_digits_val_concat(s1.drop_first(), s2, acc * 10 + (s1[0] - 48) as nat);
    }
}

/// Reading back the canonical digits of `n` yields `n`.
pub proof fn lemma_dec_rep_val(n: nat)
    ensures
        digits_val(dec_rep(n), 0) == n,
    decreases n,
{
    if n < 10 {
        lemma_digits_val_single((48 + n) as u8, 0);
    } else {
        lemma_dec_rep_val(n / 10);
        lemma_digits_val_concat(dec_rep(n / 10), seq![(48 + n % 10) as u8], 0);
        lemma_digits_val_single((48 + n % 10) as u8, n / 10);
        vstd::arithmetic::div_mod::lemma_fundamental_div_mod(n as int, 10);
    }
}

/// The accumulator never shrinks while reading digits.
pub proof fn lemma_digits_val_lower(s: Seq<u8>, acc: nat)
    requires
        forall|i: int| 0 <= i < s.len() ==> is_digit(#[trigger] s[i]),
    ensures
        digits_val(s, acc) >= acc,
    decreases s.len(),
{
    if s.len() > 0 {
        lemma_digits_val_lower(s.drop_first(), acc * 10 + (s[0] - 48) as nat);
        assert(acc * 10 >= acc) by (nonlinear_arith)
            requires
                acc >= 0,
        ;
    }
}

/// Canonical digit runs are recovered from their value: the inverse of
/// `lemma_dec_rep_val`.
pub proof fn lemma_dec_rep_inverse(s: Seq<u8>)
    requires
        s.len() >= 1,
        forall|i: int| 0 <= i < s.len() ==> is_digit(#[trigger] s[i]),
        s[0] == 48 ==> s.len() == 1,
    ensures
        dec_rep(digits_val(s, 0)) =~= s,
    decreases s.len(),
{
    if s.len() == 1 {
        assert(s =~= seq![s[0]]);
        lemma_digits_val_single(s[0], 0);
    } else {
        let front = s.drop_last();
        let dl = (s.last() - 48) as nat;
        assert(s =~= front + seq![s.last()]);
        lemma_digits_val_concat(front, seq![s.last()], 0);
        let v = digits_val(front, 0);
        lemma_digits_val_single(s.last(), v);
        assert(digits_val(s, 0) == v * 10 + dl);
        lemma_dec_rep_inverse(front);
        assert(front[0] != 48);
        assert(v >= 1) by {
            assert(digits_val(front, 0) == digits_val(
                front.drop_first(),
                0 * 10 + ((front[0] - 48) as nat),
            ));
            lemma_digits_val_lower(front.drop_first(), ((front[0] - 48) as nat));
        }
        let n = v * 10 + dl;
        assert(n >= 10) by (nonlinear_arith)
            requires
                v >= 1,
                dl >= 0,
                n == v * 10 + dl,
        ;
        vstd::arithmetic::div_mod::lemma_fundamental_div_mod_converse(
            n as int,
            10,
            v as int,
            dl as int,
        );
        assert(dec_rep(n) == dec_rep(v) + seq![(48 + dl) as u8]);
    }
}

/// Digit count of any `u32` is at most 10.
pub proof fn lemma_dec_rep_len_u32(n: u32)
    ensures
        1 <= dec_rep(n as nat).len() <= 10,
{
    lemma_dec_rep_digits(n as nat);
    assert(pow10(10) == 10000000000) by {
        reveal_with_fuel(pow10, 11);
    }
    lemma_dec_rep_len(n as nat, 10);
}

/// A value below `10^k` has at most `k` canonical digits.
pub proof fn lemma_dec_rep_len(n: nat, k: nat)
    requires
        n < pow10(k),
        k >= 1,
    ensures
        dec_rep(n).len() <= k,
    decreases k,
{
    if n < 10 {
    } else {
        let q = n / 10;
        vstd::arithmetic::div_mod::lemma_fundamental_div_mod(n as int, 10);
        assert(k >= 2) by {
            if k == 1 {
                assert(pow10(0) == 1);
                assert(pow10(1) == 10);
            }
        }
        let p = pow10((k - 1) as nat);
        assert(pow10(k) == 10 * p);
        assert(q < p) by (nonlinear_arith)
            requires
                10 * q <= n,
                n < 10 * p,
        ;
        lemma_dec_rep_len(q, (k - 1) as nat);
    }
}

/// Appends the encoding of one number to the output.
pub fn emit_u32(out: &mut Vec<u8>, n: u32)
    ensures
        final(out)@ == old(out)@ + enc_u32(n),
{
    let ghost base = out@;
    emit_digits(out, n);
    out.push(NL);
    proof {
        assert(out@ =~= base + enc_u32(n));
    }
}

/// Appends the canonical decimal digits of a number, with no
/// terminator: the digit layer shared by the codec and the text
/// formatting of labels.
pub fn emit_digits(out: &mut Vec<u8>, n: u32)
    ensures
        final(out)@ == old(out)@ + dec_rep(n as nat),
{
    let ghost base = out@;
    let mut tmp: Vec<u8> = Vec::new();
    let mut m: u32 = n;
    loop
        invariant_except_break
            dec_rep(n as nat) =~= dec_rep(m as nat) + rev_bytes(tmp@),
        ensures
            dec_rep(n as nat) =~= rev_bytes(tmp@),
        decreases m,
    {
        let d: u8 = 48 + (m % 10) as u8;
        let ghost old_tmp = tmp@;
        tmp.push(d);
        proof {
            assert(rev_bytes(tmp@) =~= seq![d] + rev_bytes(old_tmp));
            if m >= 10 {
                assert(dec_rep(m as nat) == dec_rep((m as nat) / 10) + seq![(48 + (m as nat)
                    % 10) as u8]);
                assert(dec_rep((m / 10) as nat) + (seq![d] + rev_bytes(old_tmp)) =~= (dec_rep(
                    (m as nat) / 10,
                ) + seq![d]) + rev_bytes(old_tmp));
            } else {
                assert(dec_rep(m as nat) =~= seq![d]);
                assert(dec_rep(n as nat) =~= seq![d] + rev_bytes(old_tmp));
                assert(dec_rep(n as nat) =~= rev_bytes(tmp@));
            }
        }
        m = m / 10;
        if m == 0 {
            break ;
        }
    }
    let digits = tmp.len();
    let mut i: usize = 0;
    while i < digits
        invariant
            i <= digits,
            digits == tmp@.len(),
            dec_rep(n as nat) =~= rev_bytes(tmp@),
            out@ == base + rev_bytes(tmp@).take(i as int),
        decreases digits - i,
    {
        let ghost before = out@;
        out.push(tmp[digits - 1 - i]);
        proof {
            assert(rev_bytes(tmp@)[i as int] == tmp@[digits - 1 - i]);
            assert(rev_bytes(tmp@).take(i + 1) =~= rev_bytes(tmp@).take(i as int).push(
                tmp@[digits - 1 - i],
            ));
        }
        i += 1;
    }
    proof {
        assert(rev_bytes(tmp@).take(digits as int) =~= rev_bytes(tmp@));
        assert(out@ =~= base + dec_rep(n as nat));
    }
}

/// A byte sequence reversed.
pub open spec fn rev_bytes(s: Seq<u8>) -> Seq<u8> {
    Seq::new(s.len(), |i: int| s[s.len() - 1 - i])
}

/// Scans one encoded number. Returns the value and the position just
/// past its newline; `None` when no canonical encoding of a `u32`
/// stands at `pos`. Exact in both directions: whenever some `enc_u32(n)`
/// is a prefix of the input at `pos`, the scan returns exactly `n`.
pub fn parse_u32(inp: &[u8], pos: usize) -> (r: Option<(u32, usize)>)
    requires
        pos <= inp@.len(),
    ensures
        (r matches Some(t) ==> pos < t.1 <= inp@.len() && inp@.subrange(pos as int, t.1 as int)
            == enc_u32(t.0)),
        forall|n: u32|
            pos + (#[trigger] enc_u32(n)).len() <= inp@.len() && inp@.subrange(
                pos as int,
                pos + enc_u32(n).len(),
            ) == enc_u32(n) ==> r == Some::<(u32, usize)>((n, (pos + enc_u32(n).len()) as usize)),
{
    let len = inp.len();
    let mut cur = pos;
    let mut val: u64 = 0;
    let mut count: usize = 0;
    while cur < len && count < 11 && 48 <= inp[cur] && inp[cur] <= 57
        invariant
            pos <= cur <= len,
            len == inp@.len(),
            count == cur - pos,
            count <= 11,
            forall|i: int| pos <= i < cur ==> is_digit(#[trigger] inp@[i]),
            val == digits_val(inp@.subrange(pos as int, cur as int), 0),
            val < pow10(count as nat),
        decreases len - cur,
    {
        let d = inp[cur] - 48;
        proof {
            let run = inp@.subrange(pos as int, cur as int);
            let run2 = inp@.subrange(pos as int, cur + 1);
            assert(run2 =~= run + seq![inp@[cur as int]]);
            lemma_digits_val_concat(run, seq![inp@[cur as int]], 0);
            lemma_digits_val_single(inp@[cur as int], val as nat);
            assert((val as nat) * 10 + (d as nat) < pow10((count + 1) as nat)) by (
            nonlinear_arith)
                requires
                    val < pow10(count as nat),
                    d <= 9,
                    pow10((count + 1) as nat) == 10 * pow10(count as nat),
            ;
            assert(pow10(11) == 100000000000) by {
                reveal_with_fuel(pow10, 12);
            }
            lemma_pow10_le(count as nat, 10);
        }
        val = val * 10 + (d as u64);
        cur += 1;
        count += 1;
    }
    proof {
        lemma_pow10_le(count as nat, 11);
        assert(pow10(11) == 100000000000) by {
            reveal_with_fuel(pow10, 12);
        }
    }
    if count == 0 {
        proof {
            complete_none(inp@, pos as int, cur as int);
        }
        return None;
    }
    if count == 11 {
        proof {
            assert forall|n: u32|
                pos + (#[trigger] enc_u32(n)).len() <= inp@.len() && inp@.subrange(
                    pos as int,
                    pos + enc_u32(n).len(),
                ) == enc_u32(n) implies false by {
                lemma_dec_rep_len_u32(n);
                let ll = dec_rep(n as nat).len() as int;
                assert(inp@[pos + ll] == enc_u32(n)[ll]);
                assert(enc_u32(n)[ll] == NL);
                assert(is_digit(inp@[pos + ll]));
            }
        }
        return None;
    }
    if cur >= len {
        proof {
            complete_none(inp@, pos as int, cur as int);
        }
        return None;
    }
    if inp[cur] != NL {
        proof {
            complete_none(inp@, pos as int, cur as int);
        }
        return None;
    }
    if inp[pos] == 48 && count > 1 {
        proof {
            assert forall|n: u32|
                pos + (#[trigger] enc_u32(n)).len() <= inp@.len() && inp@.subrange(
                    pos as int,
                    pos + enc_u32(n).len(),
                ) == enc_u32(n) implies false by {
                lemma_enc_prefix_run(inp@, pos as int, cur as int, n);
                lemma_dec_rep_digits(n as nat);
                assert(dec_rep(n as nat)[0] == inp@[pos as int]);
                assert(n as nat == 0);
                assert(dec_rep(0nat).len() == 1);
            }
        }
        return None;
    }
    if val > 0xFFFF_FFFF {
        proof {
            assert forall|n: u32|
                pos + (#[trigger] enc_u32(n)).len() <= inp@.len() && inp@.subrange(
                    pos as int,
                    pos + enc_u32(n).len(),
                ) == enc_u32(n) implies false by {
                lemma_enc_prefix_run(inp@, pos as int, cur as int, n);
                lemma_dec_rep_val(n as nat);
            }
        }
        return None;
    }
    proof {
        let run = inp@.subrange(pos as int, cur as int);
        lemma_dec_rep_inverse(run);
        assert(inp@.subrange(pos as int, cur + 1) =~= run + seq![NL]);
        assert(inp@.subrange(pos as int, cur + 1) =~= enc_u32(val as u32));
        assert forall|n: u32|
            pos + (#[trigger] enc_u32(n)).len() <= inp@.len() && inp@.subrange(
                pos as int,
                pos + enc_u32(n).len(),
            ) == enc_u32(n) implies Some((val as u32, (cur + 1) as usize)) == Some::<(
            u32,
            usize,
        )>((n, (pos + enc_u32(n).len()) as usize)) by {
            lemma_enc_prefix_run(inp@, pos as int, cur as int, n);
            lemma_dec_rep_val(n as nat);
        }
    }
    Some((val as u32, cur + 1))
}

/// Powers of ten are positive.
proof fn lemma_pow10_pos(k: nat)
    ensures
        pow10(k) >= 1,
    decreases k,
{
    if k > 0 {
        lemma_pow10_pos((k - 1) as nat);
    }
}

/// Powers of ten are monotone in the exponent.
proof fn lemma_pow10_le(a: nat, b: nat)
    requires
        a <= b,
    ensures
        pow10(a) <= pow10(b),
        pow10(a) >= 1,
    decreases b,
{
    lemma_pow10_pos(a);
    if a < b {
        lemma_pow10_le(a, (b - 1) as nat);
        lemma_pow10_pos((b - 1) as nat);
        assert(pow10(b) == 10 * pow10((b - 1) as nat));
    }
}

/// When a digit run from `pos` stops at `cur` (end of input or a
/// non-digit) and `enc_u32(n)` is a prefix at `pos`, the run is exactly
/// the canonical digits of `n` and a newline follows.
proof fn lemma_enc_prefix_run(inp: Seq<u8>, pos: int, cur: int, n: u32)
    requires
        0 <= pos <= cur <= inp.len(),
        forall|i: int| pos <= i < cur ==> is_digit(#[trigger] inp[i]),
        cur == inp.len() || !is_digit(inp[cur]),
        pos + enc_u32(n).len() <= inp.len(),
        inp.subrange(pos, pos + enc_u32(n).len()) == enc_u32(n),
    ensures
        cur - pos == dec_rep(n as nat).len(),
        inp.subrange(pos, cur) =~= dec_rep(n as nat),
        cur < inp.len() && inp[cur] == NL,
        digits_val(inp.subrange(pos, cur), 0) == n as nat,
{
    lemma_dec_rep_digits(n as nat);
    let d = dec_rep(n as nat);
    let ll = d.len() as int;
    assert(enc_u32(n).len() == ll + 1);
    assert(forall|i: int| 0 <= i < ll ==> inp[pos + i] == enc_u32(n)[i]);
    assert(forall|i: int| 0 <= i < ll ==> enc_u32(n)[i] == d[i]);
    assert(inp[pos + ll] == enc_u32(n)[ll]);
    assert(enc_u32(n)[ll] == NL);
    if cur < pos + ll {
        assert(inp[cur] == d[cur - pos]);
        assert(is_digit(d[cur - pos]));
        assert(false);
    }
    if cur > pos + ll {
        assert(is_digit(inp[pos + ll]));
        assert(!is_digit(NL));
        assert(false);
    }
    assert(inp.subrange(pos, cur) =~= d);
    lemma_dec_rep_val(n as nat);
}

/// No `enc_u32` prefix can stand at `pos` when the digit run is empty,
/// runs to the end of input, or stops at a byte other than a newline.
proof fn complete_none(inp: Seq<u8>, pos: int, cur: int)
    requires
        0 <= pos <= cur <= inp.len(),
        forall|i: int| pos <= i < cur ==> is_digit(#[trigger] inp[i]),
        cur == inp.len() || !is_digit(inp[cur]),
        cur == pos || cur >= inp.len() || inp[cur] != NL,
    ensures
        forall|n: u32|
            !(pos + (#[trigger] enc_u32(n)).len() <= inp.len() && inp.subrange(
                pos,
                pos + enc_u32(n).len(),
            ) == enc_u32(n)),
{
    assert forall|n: u32|
        !(pos + (#[trigger] enc_u32(n)).len() <= inp.len() && inp.subrange(
            pos,
            pos + enc_u32(n).len(),
        ) == enc_u32(n)) by {
        if pos + enc_u32(n).len() <= inp.len() && inp.subrange(pos, pos + enc_u32(n).len())
            == enc_u32(n) {
            lemma_enc_prefix_run(inp, pos, cur, n);
            lemma_dec_rep_digits(n as nat);
        }
    }
}

/// Declares `core::str::Utf8Error` so that `core::str::from_utf8` can be
/// given a specification.
#[verifier::external_type_specification]
#[verifier::external_body]
pub struct ExUtf8Error(core::str::Utf8Error);

/// Relies on core::str::from_utf8: succeeds exactly on valid UTF-8, and
/// the returned string views those very bytes.
pub assume_specification<'a>[ core::str::from_utf8 ](v: &'a [u8]) -> (r: Result<
    &'a str,
    core::str::Utf8Error,
>)
    ensures
        (r matches Ok(s) ==> s.spec_bytes() == v@),
        r is Ok <==> valid_utf8(v@),
;

/// A string whose UTF-8 byte length fits the length prefix.
pub open spec fn str_encodable(s: Seq<char>) -> bool {
    encode_utf8(s).len() <= u32::MAX
}

/// One encoded string: its UTF-8 byte length, then the raw bytes.
pub open spec fn enc_str(s: Seq<char>) -> Seq<u8> {
    enc_u32(encode_utf8(s).len() as u32) + encode_utf8(s)
}

/// An encoded palette-index grid: each index as one encoded number.
pub open spec fn enc_pixels(px: Seq<u8>) -> Seq<u8>
    decreases px.len(),
{
    if px.len() == 0 {
        Seq::empty()
    } else {
        enc_u32(px[0] as u32) + enc_pixels(px.drop_first())
    }
}

pub open spec fn page_encodable(p: PageV) -> bool {
    str_encodable(p.label) && str_encodable(p.tooltip) && p.pixels.len() <= u32::MAX
}

/// One encoded page: label, tooltip, pixel count, then the indices.
pub open spec fn enc_page(p: PageV) -> Seq<u8> {
    enc_str(p.label) + (enc_str(p.tooltip) + (enc_u32(p.pixels.len() as u32) + enc_pixels(
        p.pixels,
    )))
}

/// An encoded page list, in order.
pub open spec fn enc_pages(ps: Seq<PageV>) -> Seq<u8>
    decreases ps.len(),
{
    if ps.len() == 0 {
        Seq::empty()
    } else {
        enc_page(ps[0]) + enc_pages(ps.drop_first())
    }
}

pub open spec fn array_encodable(a: ArrayV) -> bool {
    &&& 0 <= a.width <= u32::MAX
    &&& 0 <= a.height <= u32::MAX
    &&& a.pages.len() <= u32::MAX
    &&& str_encodable(a.title)
    &&& forall|i: int| 0 <= i < a.pages.len() ==> page_encodable(#[trigger] a.pages[i])
}

/// The array-level persisted form: grid extent, title, page count, then
/// every page in row-major order.
pub open spec fn enc_array(a: ArrayV) -> Seq<u8> {
    enc_u32(a.width as u32) + (enc_u32(a.height as u32) + (enc_str(a.title) + (enc_u32(
        a.pages.len() as u32,
    ) + enc_pages(a.pages))))
}

/// `enc_page(pv)` stands at `pos` in `inp`.
pub open spec fn page_at(inp: Seq<u8>, pos: int, pv: PageV) -> bool {
    &&& page_encodable(pv)
    &&& pos + enc_page(pv).len() <= inp.len()
    &&& inp.subrange(pos, pos + enc_page(pv).len()) == enc_page(pv)
}

pub proof fn lemma_enc_pixels_concat(s1: Seq<u8>, s2: Seq<u8>)
    ensures
        enc_pixels(s1 + s2) =~= enc_pixels(s1) + enc_pixels(s2),
    decreases s1.len(),
{
    if s1.len() == 0 {
        assert(s1 + s2 =~= s2);
    } else {
        assert((s1 + s2).drop_first() =~= s1.drop_first() + s2);
        lemma_enc_pixels_concat(s1.drop_first(), s2);
    }
}

pub proof fn lemma_enc_pixels_single(b: u8)
    ensures
        enc_pixels(seq![b]) =~= enc_u32(b as u32),
{
    assert(seq![b].drop_first() =~= Seq::<u8>::empty());
    assert(enc_pixels(Seq::<u8>::empty()) =~= Seq::<u8>::empty());
    assert(enc_pixels(seq![b]) == enc_u32(seq![b][0] as u32) + enc_pixels(seq![b].drop_first()));
}

pub proof fn lemma_enc_pages_concat(s1: Seq<PageV>, s2: Seq<PageV>)
    ensures
        enc_pages(s1 + s2) =~= enc_pages(s1) + enc_pages(s2),
    decreases s1.len(),
{
    if s1.len() == 0 {
        assert(s1 + s2 =~= s2);
    } else {
        assert((s1 + s2).drop_first() =~= s1.drop_first() + s2);
        lemma_enc_pages_concat(s1.drop_first(), s2);
    }
}

pub proof fn lemma_enc_pages_single(p: PageV)
    ensures
        enc_pages(seq![p]) =~= enc_page(p),
{
    assert(seq![p].drop_first() =~= Seq::<PageV>::empty());
    assert(enc_pages(Seq::<PageV>::empty()) =~= Seq::<u8>::empty());
    assert(enc_pages(seq![p]) == enc_page(seq![p][0]) + enc_pages(seq![p].drop_first()));
}

/// Splitting a matched region: when the bytes at `pos` are `s1 + s2`,
/// each part stands at its own offset.
pub proof fn lemma_region_split(inp: Seq<u8>, pos: int, s1: Seq<u8>, s2: Seq<u8>)
    requires
        0 <= pos,
        pos + s1.len() + s2.len() <= inp.len(),
        inp.subrange(pos, pos + s1.len() + s2.len()) == s1 + s2,
    ensures
        inp.subrange(pos, pos + s1.len()) =~= s1,
        inp.subrange(pos + s1.len(), pos + s1.len() + s2.len()) =~= s2,
{
    let whole = inp.subrange(pos, pos + s1.len() + s2.len());
    assert forall|i: int| 0 <= i < s1.len() implies inp.subrange(pos, pos + s1.len())[i]
        == s1[i] by {
        assert(whole[i] == (s1 + s2)[i]);
    }
    assert forall|i: int|
        0 <= i < s2.len() implies inp.subrange(
        pos + s1.len(),
        pos + s1.len() + s2.len(),
    )[i] == s2[i] by {
        assert(whole[s1.len() + i] == (s1 + s2)[s1.len() + i]);
    }
}

/// Joining adjacent regions of the input.
pub proof fn lemma_region_join(inp: Seq<u8>, pos: int, mid: int, end: int)
    requires
        0 <= pos <= mid <= end <= inp.len(),
    ensures
        inp.subrange(pos, end) =~= inp.subrange(pos, mid) + inp.subrange(mid, end),
{
}

/// Appends the encoding of one string to the output.
pub fn emit_str(out: &mut Vec<u8>, s: &str)
    requires
        str_encodable(s@),
    ensures
        final(out)@ == old(out)@ + enc_str(s@),
{
    let blen = s.len();
    emit_u32(out, blen as u32);
    let bytes = s.as_bytes();
    out.extend_from_slice(bytes);
    proof {
        assert(out@ =~= old(out)@ + enc_str(s@));
    }
}

/// Scans one encoded string: a byte length, then that many bytes of
/// UTF-8. Exact in both directions, as `parse_u32` is.
pub fn parse_str(inp: &[u8], pos: usize) -> (r: Option<(String, usize)>)
    requires
        pos <= inp@.len(),
    ensures
        (r matches Some(t) ==> pos < t.1 <= inp@.len() && inp@.subrange(pos as int, t.1 as int)
            == enc_str(t.0@) && str_encodable(t.0@)),
        forall|cs: Seq<char>|
            str_encodable(cs) && pos + (#[trigger] enc_str(cs)).len() <= inp@.len()
                && inp@.subrange(pos as int, pos + enc_str(cs).len()) == enc_str(cs) ==> (
            r matches Some(t) && t.0@ == cs && t.1 == pos + enc_str(cs).len()),
{
    let len = inp.len();
    proof {
        assert forall|cs: Seq<char>|
            str_encodable(cs) && pos + (#[trigger] enc_str(cs)).len() <= inp@.len()
                && inp@.subrange(pos as int, pos + enc_str(cs).len()) == enc_str(cs) implies {
            let b = encode_utf8(cs).len() as u32;
            &&& pos + enc_u32(b).len() <= inp@.len()
            &&& inp@.subrange(pos as int, pos + enc_u32(b).len()) == enc_u32(b)
            &&& inp@.subrange(
                pos + enc_u32(b).len(),
                pos + enc_u32(b).len() + encode_utf8(cs).len(),
            ) == encode_utf8(cs)
        } by {
            lemma_region_split(inp@, pos as int, enc_u32(encode_utf8(cs).len() as u32), encode_utf8(cs));
        }
    }
    let num = parse_u32(inp, pos);
    match num {
        None => None,
        Some((blen, p1)) => {
            if (len - p1) < (blen as usize) {
                return None;
            }
            let end = p1 + (blen as usize);
            let bytes = vstd::slice::slice_subrange(inp, p1, end);
            match core::str::from_utf8(bytes) {
                Err(_) => {
                    proof {
                        assert forall|cs: Seq<char>|
                            str_encodable(cs) && pos + (#[trigger] enc_str(cs)).len()
                                <= inp@.len() && inp@.subrange(pos as int, pos + enc_str(cs).len())
                                == enc_str(cs) implies false by {
                            vstd::utf8::encode_utf8_valid_utf8(cs);
                        }
                    }
                    None
                },
                Ok(st) => {
                    let sown = st.to_owned();
                    proof {
                        lemma_region_join(inp@, pos as int, p1 as int, end as int);
                        assert(encode_utf8(sown@) == inp@.subrange(p1 as int, end as int));
                        assert(inp@.subrange(pos as int, end as int) =~= enc_str(sown@));
                        assert forall|cs: Seq<char>|
                            str_encodable(cs) && pos + (#[trigger] enc_str(cs)).len()
                                <= inp@.len() && inp@.subrange(pos as int, pos + enc_str(cs).len())
                                == enc_str(cs) implies sown@ == cs && end == pos + enc_str(
                            cs,
                        ).len() by {
                            assert(encode_utf8(cs) == inp@.subrange(p1 as int, end as int));
                            vstd::utf8::encode_utf8_decode_utf8(cs);
                            vstd::utf8::encode_utf8_decode_utf8(sown@);
                        }
                    }
                    Some((sown, end))
                },
            }
        },
    }
}

/// Appends the encoding of one page to the output.
pub fn emit_page(out: &mut Vec<u8>, p: &Page)
    requires
        page_encodable(p@),
    ensures
        final(out)@ == old(out)@ + enc_page(p@),
{
    let ghost base = out@;
    emit_str(out, p.label.as_str());
    emit_str(out, p.tooltip.as_str());
    let cnt = p.pixels.len();
    emit_u32(out, cnt as u32);
    let ghost head = enc_str(p@.label) + (enc_str(p@.tooltip) + enc_u32(cnt as u32));
    proof {
        assert(out@ =~= base + head);
        assert(p@.pixels.take(0) =~= Seq::<u8>::empty());
        assert(enc_pixels(Seq::<u8>::empty()) =~= Seq::<u8>::empty());
        assert(out@ =~= base + head + enc_pixels(p@.pixels.take(0)));
    }
    let mut k: usize = 0;
    while k < cnt
        invariant
            k <= cnt,
            cnt == p@.pixels.len(),
            out@ == base + head + enc_pixels(p@.pixels.take(k as int)),
            head == enc_str(p@.label) + (enc_str(p@.tooltip) + enc_u32(cnt as u32)),
        decreases cnt - k,
    {
        let ghost before = out@;
        emit_u32(out, p.pixels[k] as u32);
        proof {
            let pxs = p@.pixels;
            assert(pxs.take(k + 1) =~= pxs.take(k as int) + seq![pxs[k as int]]);
            lemma_enc_pixels_concat(pxs.take(k as int), seq![pxs[k as int]]);
            lemma_enc_pixels_single(pxs[k as int]);
            assert(out@ =~= base + head + enc_pixels(pxs.take(k + 1)));
        }
        k += 1;
    }
    proof {
        assert(p@.pixels.take(cnt as int) =~= p@.pixels);
        assert(out@ =~= base + enc_page(p@));
    }
}

/// Scans one encoded page. Exact in both directions: whenever
/// `enc_page(pv)` stands at `pos`, the scan returns exactly `pv`.
#[verifier::rlimit(100)]
pub fn parse_page(inp: &[u8], pos: usize) -> (r: Option<(Page, usize)>)
    requires
        pos <= inp@.len(),
    ensures
        (r matches Some(t) ==> pos <= t.1 <= inp@.len() && inp@.subrange(pos as int, t.1 as int)
            == enc_page(t.0@) && page_encodable(t.0@)),
        forall|pv: PageV|
            #[trigger] page_at(inp@, pos as int, pv) ==> (r matches Some(t) && t.0@ == pv && t.1
                == pos + enc_page(pv).len()),
{
    let len = inp.len();
    proof {
        assert forall|pv: PageV| #[trigger] page_at(inp@, pos as int, pv) implies {
            let l1 = enc_str(pv.label).len() as int;
            let l2 = enc_str(pv.tooltip).len() as int;
            let l3 = enc_u32(pv.pixels.len() as u32).len() as int;
            let l4 = enc_pixels(pv.pixels).len() as int;
            &&& pos + l1 <= inp@.len() && inp@.subrange(pos as int, pos + l1) == enc_str(pv.label)
            &&& pos + l1 + l2 <= inp@.len() && inp@.subrange(pos + l1, pos + l1 + l2) == enc_str(
                pv.tooltip,
            )
            &&& pos + l1 + l2 + l3 <= inp@.len() && inp@.subrange(
                pos + l1 + l2,
                pos + l1 + l2 + l3,
            ) == enc_u32(pv.pixels.len() as u32)
            &&& pos + l1 + l2 + l3 + l4 <= inp@.len() && inp@.subrange(
                pos + l1 + l2 + l3,
                pos + l1 + l2 + l3 + l4,
            ) == enc_pixels(pv.pixels)
        } by {
            let rest1 = enc_str(pv.tooltip) + (enc_u32(pv.pixels.len() as u32) + enc_pixels(
                pv.pixels,
            ));
            lemma_region_split(inp@, pos as int, enc_str(pv.label), rest1);
            let rest2 = enc_u32(pv.pixels.len() as u32) + enc_pixels(pv.pixels);
            lemma_region_split(inp@, pos + enc_str(pv.label).len(), enc_str(pv.tooltip), rest2);
            lemma_region_split(
                inp@,
                pos + enc_str(pv.label).len() + enc_str(pv.tooltip).len(),
                enc_u32(pv.pixels.len() as u32),
                enc_pixels(pv.pixels),
            );
        }
    }
    let lab = match parse_str(inp, pos) {
        None => {
            return None;
        },
        Some(t) => t,
    };
    let (lab_s, p1) = lab;
    let tt = match parse_str(inp, p1) {
        None => {
            return None;
        },
        Some(t) => t,
    };
    let (tt_s, p2) = tt;
    let num = match parse_u32(inp, p2) {
        None => {
            return None;
        },
        Some(t) => t,
    };
    let (cnt, p3) = num;
    proof {
        assert forall|pv: PageV| #[trigger] page_at(inp@, pos as int, pv) implies {
            &&& pv.label == lab_s@
            &&& pv.tooltip == tt_s@
            &&& pv.pixels.len() == cnt
            &&& p3 == pos + enc_str(pv.label).len() + enc_str(pv.tooltip).len() + enc_u32(
                cnt,
            ).len()
        } by {
        }
    }
    let mut px: Vec<u8> = Vec::new();
    let mut cur = p3;
    let mut k: usize = 0;
    proof {
        assert(inp@.subrange(p3 as int, p3 as int) =~= Seq::<u8>::empty());
        assert(enc_pixels(Seq::<u8>::empty()) =~= Seq::<u8>::empty());
        assert(px@ =~= Seq::<u8>::empty());
    }
    while k < (cnt as usize)
        invariant
            pos <= p3 <= cur <= len,
            len == inp@.len(),
            px@.len() == k,
            k <= cnt as usize,
            inp@.subrange(p3 as int, cur as int) == enc_pixels(px@),
            inp@.subrange(pos as int, p3 as int) == enc_str(lab_s@) + (enc_str(tt_s@) + enc_u32(
                cnt,
            )),
            str_encodable(lab_s@),
            str_encodable(tt_s@),
            forall|pv: PageV|
                #[trigger] page_at(inp@, pos as int, pv) ==> {
                    &&& pv.label == lab_s@
                    &&& pv.tooltip == tt_s@
                    &&& pv.pixels.len() == cnt
                    &&& px@ == pv.pixels.take(k as int)
                    &&& cur == p3 + enc_pixels(pv.pixels.take(k as int)).len()
                    &&& p3 == pos + enc_str(pv.label).len() + enc_str(pv.tooltip).len()
                        + enc_u32(cnt).len()
                    &&& p3 + enc_pixels(pv.pixels).len() <= len
                    &&& inp@.subrange(p3 as int, p3 + enc_pixels(pv.pixels).len()) == enc_pixels(
                        pv.pixels,
                    )
                },
        decreases cnt as usize - k,
    {
        proof {
            assert forall|pv: PageV| #[trigger] page_at(inp@, pos as int, pv) implies {
                let d = enc_u32(pv.pixels[k as int] as u32);
                &&& cur + d.len() <= inp@.len()
                &&& inp@.subrange(cur as int, cur + d.len()) == d
            } by {
                let pxs = pv.pixels;
                assert(pxs =~= pxs.take(k as int) + pxs.skip(k as int));
                assert(pxs.skip(k as int) =~= seq![pxs[k as int]] + pxs.skip(k + 1));
                lemma_enc_pixels_concat(pxs.take(k as int), pxs.skip(k as int));
                lemma_enc_pixels_concat(seq![pxs[k as int]], pxs.skip(k + 1));
                lemma_enc_pixels_single(pxs[k as int]);
                let l1 = enc_str(pv.label).len() as int;
                let l2 = enc_str(pv.tooltip).len() as int;
                let l3 = enc_u32(cnt).len() as int;
                let l4 = enc_pixels(pxs).len() as int;
                lemma_region_split(
                    inp@,
                    p3 as int,
                    enc_pixels(pxs.take(k as int)),
                    enc_u32(pxs[k as int] as u32) + enc_pixels(pxs.skip(k + 1)),
                );
                lemma_region_split(
                    inp@,
                    cur as int,
                    enc_u32(pxs[k as int] as u32),
                    enc_pixels(pxs.skip(k + 1)),
                );
            }
        }
        let item = match parse_u32(inp, cur) {
            None => {
                return None;
            },
            Some(t) => t,
        };
        let (v, cur2) = item;
        if v > 255 {
            return None;
        }
        let ghost old_px = px@;
        let ghost old_cur = cur as int;
        px.push(v as u8);
        cur = cur2;
        k += 1;
        proof {
            lemma_region_join(inp@, p3 as int, old_cur, cur as int);
            lemma_enc_pixels_concat(old_px, seq![v as u8]);
            lemma_enc_pixels_single(v as u8);
            assert(px@ =~= old_px + seq![v as u8]);
            assert(inp@.subrange(p3 as int, cur as int) =~= enc_pixels(px@));
            assert forall|pv: PageV| #[trigger] page_at(inp@, pos as int, pv) implies {
                &&& px@ == pv.pixels.take(k as int)
                &&& cur == p3 + enc_pixels(pv.pixels.take(k as int)).len()
            } by {
                let pxs = pv.pixels;
                assert(pxs.take(k as int) =~= pxs.take(k - 1) + seq![pxs[k - 1]]);
                lemma_enc_pixels_concat(pxs.take(k - 1), seq![pxs[k - 1]]);
                lemma_enc_pixels_single(pxs[k - 1]);
            }
        }
    }
    let page = Page { pixels: px, label: lab_s, tooltip: tt_s };
    proof {
        lemma_region_join(inp@, pos as int, p3 as int, cur as int);
        assert(inp@.subrange(pos as int, cur as int) =~= enc_page(page@));
        assert forall|pv: PageV| #[trigger] page_at(inp@, pos as int, pv) implies page@ == pv
            && cur == pos + enc_page(pv).len() by {
            assert(pv.pixels.take(cnt as int) =~= pv.pixels);
            assert(page@.pixels == pv.pixels);
        }
    }
    Some((page, cur))
}

/// `inp` is, in its entirety, the array-level encoding of `av`.
pub open spec fn array_at(inp: Seq<u8>, av: ArrayV) -> bool {
    array_encodable(av) && inp == enc_array(av)
}


/// Decides `array_encodable` at run time, so that a caller holding an
/// arbitrary array can establish the serializers' precondition.
pub fn is_encodable(a: &PosterArray) -> (r: bool)
    ensures
        r == array_encodable(a@),
{
    if a.title.as_str().as_bytes().len() > (u32::MAX as usize) {
        return false;
    }
    let n = a.pages.len();
    if n > (u32::MAX as usize) {
        return false;
    }
    let mut i: usize = 0;
    while i < n
        invariant
            i <= n,
            n == a@.pages.len(),
            0 <= a@.width <= u32::MAX,
            0 <= a@.height <= u32::MAX,
            a@.pages.len() <= u32::MAX,
            str_encodable(a@.title),
            forall|m: int| 0 <= m < i ==> page_encodable(#[trigger] a@.pages[m]),
        decreases n - i,
    {
        proof {
            assert(a@.pages[i as int] == a.pages@[i as int]@);
        }
        let p = &a.pages[i];
        if p.label.as_str().as_bytes().len() > (u32::MAX as usize) {
            return false;
        }
        if p.tooltip.as_str().as_bytes().len() > (u32::MAX as usize) {
            return false;
        }
        if p.pixels.len() > (u32::MAX as usize) {
            return false;
        }
        i += 1;
    }
    true
}

/// Serializes a poster array in the array-level persisted form.
pub fn serialize_array(a: &PosterArray) -> (out: Vec<u8>)
    requires
        array_encodable(a@),
    ensures
        out@ == enc_array(a@),
{
    let mut out: Vec<u8> = Vec::new();
    emit_u32(&mut out, a.width);
    emit_u32(&mut out, a.height);
    emit_str(&mut out, a.title.as_str());
    let n = a.pages.len();
    emit_u32(&mut out, n as u32);
    let ghost head = enc_u32(a@.width as u32) + (enc_u32(a@.height as u32) + (enc_str(a@.title)
        + enc_u32(a@.pages.len() as u32)));
    proof {
        assert(out@ =~= head);
        assert(a@.pages.take(0) =~= Seq::<PageV>::empty());
        assert(enc_pages(Seq::<PageV>::empty()) =~= Seq::<u8>::empty());
        assert(out@ =~= head + enc_pages(a@.pages.take(0)));
    }
    let mut i: usize = 0;
    while i < n
        invariant
            i <= n,
            n == a@.pages.len(),
            array_encodable(a@),
            out@ == head + enc_pages(a@.pages.take(i as int)),
            head == enc_u32(a@.width as u32) + (enc_u32(a@.height as u32) + (enc_str(a@.title)
                + enc_u32(a@.pages.len() as u32))),
        decreases n - i,
    {
        proof {
            assert(a@.pages[i as int] == a.pages@[i as int]@);
        }
        emit_page(&mut out, &a.pages[i]);
        proof {
            assert(a@.pages.take(i + 1) =~= a@.pages.take(i as int) + seq![a@.pages[i as int]]);
            lemma_enc_pages_concat(a@.pages.take(i as int), seq![a@.pages[i as int]]);
            lemma_enc_pages_single(a@.pages[i as int]);
            assert(out@ =~= head + enc_pages(a@.pages.take(i + 1)));
        }
        i += 1;
    }
    proof {
        assert(a@.pages.take(n as int) =~= a@.pages);
        assert(out@ =~= enc_array(a@));
    }
    out
}

/// Field-by-field decomposition of a complete array encoding.
proof fn lemma_array_decompose(inp: Seq<u8>, av: ArrayV)
    requires
        array_at(inp, av),
    ensures
        ({
            let l1 = enc_u32(av.width as u32).len() as int;
            let l2 = enc_u32(av.height as u32).len() as int;
            let l3 = enc_str(av.title).len() as int;
            let l4 = enc_u32(av.pages.len() as u32).len() as int;
            let l5 = enc_pages(av.pages).len() as int;
            &&& l1 + l2 + l3 + l4 + l5 == inp.len()
            &&& inp.subrange(0, l1) == enc_u32(av.width as u32)
            &&& inp.subrange(l1, l1 + l2) == enc_u32(av.height as u32)
            &&& inp.subrange(l1 + l2, l1 + l2 + l3) == enc_str(av.title)
            &&& inp.subrange(l1 + l2 + l3, l1 + l2 + l3 + l4) == enc_u32(av.pages.len() as u32)
            &&& inp.subrange(l1 + l2 + l3 + l4, l1 + l2 + l3 + l4 + l5) == enc_pages(av.pages)
        }),
{
    assert(inp.subrange(0, inp.len() as int) =~= inp);
    let r1 = enc_u32(av.height as u32) + (enc_str(av.title) + (enc_u32(av.pages.len() as u32)
        + enc_pages(av.pages)));
    lemma_region_split(inp, 0, enc_u32(av.width as u32), r1);
    let l1 = enc_u32(av.width as u32).len() as int;
    let r2 = enc_str(av.title) + (enc_u32(av.pages.len() as u32) + enc_pages(av.pages));
    lemma_region_split(inp, l1, enc_u32(av.height as u32), r2);
    let l2 = enc_u32(av.height as u32).len() as int;
    let r3 = enc_u32(av.pages.len() as u32) + enc_pages(av.pages);
    lemma_region_split(inp, l1 + l2, enc_str(av.title), r3);
    let l3 = enc_str(av.title).len() as int;
    lemma_region_split(inp, l1 + l2 + l3, enc_u32(av.pages.len() as u32), enc_pages(av.pages));
}

/// At the position just past the first `i` encoded pages, the encoding
/// of page `i` stands.
proof fn lemma_pages_step(inp: Seq<u8>, p4: int, cur: int, i: int, av: ArrayV)
    requires
        array_encodable(av),
        0 <= i < av.pages.len(),
        0 <= p4 <= cur <= inp.len(),
        cur == p4 + enc_pages(av.pages.take(i)).len(),
        p4 + enc_pages(av.pages).len() == inp.len(),
        inp.subrange(p4, p4 + enc_pages(av.pages).len()) == enc_pages(av.pages),
    ensures
        page_at(inp, cur, av.pages[i]),
        enc_pages(av.pages.take(i + 1)) == enc_pages(av.pages.take(i)) + enc_page(av.pages[i]),
{
    let ps = av.pages;
    assert(ps =~= ps.take(i) + ps.skip(i));
    assert(ps.skip(i) =~= seq![ps[i]] + ps.skip(i + 1));
    lemma_enc_pages_concat(ps.take(i), ps.skip(i));
    lemma_enc_pages_concat(seq![ps[i]], ps.skip(i + 1));
    lemma_enc_pages_single(ps[i]);
    lemma_region_split(inp, p4, enc_pages(ps.take(i)), enc_page(ps[i]) + enc_pages(ps.skip(i + 1)));
    lemma_region_split(inp, cur, enc_page(ps[i]), enc_pages(ps.skip(i + 1)));
    assert(ps.take(i + 1) =~= ps.take(i) + seq![ps[i]]);
    lemma_enc_pages_concat(ps.take(i), seq![ps[i]]);
}

/// Reassembling the whole input from its parsed regions.
proof fn lemma_array_assemble(
    inp: Seq<u8>,
    p4: int,
    w: u32,
    h: u32,
    title: Seq<char>,
    n: u32,
    ps: Seq<PageV>,
)
    requires
        0 <= p4 <= inp.len(),
        inp.subrange(0, p4) == enc_u32(w) + (enc_u32(h) + (enc_str(title) + enc_u32(n))),
        inp.subrange(p4, inp.len() as int) == enc_pages(ps),
        ps.len() == n,
    ensures
        inp == enc_array(ArrayV { pages: ps, width: w as int, height: h as int, title }),
{
    lemma_region_join(inp, 0, p4, inp.len() as int);
    assert(inp.subrange(0, inp.len() as int) =~= inp);
    assert(inp =~= enc_array(ArrayV { pages: ps, width: w as int, height: h as int, title }));
}

/// Scans the array header: grid extent, title and page count. Exact in
/// both directions with respect to complete array encodings.
#[verifier::rlimit(100)]
fn parse_array_head(inp: &[u8]) -> (r: Option<(u32, u32, String, u32, usize)>)
    ensures
        (r matches Some(t) ==> t.4 <= inp@.len() && str_encodable(t.2@) && inp@.subrange(
            0,
            t.4 as int,
        ) == enc_u32(t.0) + (enc_u32(t.1) + (enc_str(t.2@) + enc_u32(t.3)))),
        forall|av: ArrayV|
            #[trigger] array_at(inp@, av) ==> (r matches Some(t) && av.width == t.0 && av.height
                == t.1 && av.title == t.2@ && av.pages.len() == t.3 && t.4 + enc_pages(
                av.pages,
            ).len() == inp@.len() && inp@.subrange(t.4 as int, inp@.len() as int) == enc_pages(
                av.pages,
            )),
{
    proof {
        assert forall|av: ArrayV| #[trigger] array_at(inp@, av) implies {
            let l1 = enc_u32(av.width as u32).len() as int;
            let l2 = enc_u32(av.height as u32).len() as int;
            let l3 = enc_str(av.title).len() as int;
            let l4 = enc_u32(av.pages.len() as u32).len() as int;
            let l5 = enc_pages(av.pages).len() as int;
            &&& l1 + l2 + l3 + l4 + l5 == inp@.len()
            &&& inp@.subrange(0, l1) == enc_u32(av.width as u32)
            &&& inp@.subrange(l1, l1 + l2) == enc_u32(av.height as u32)
            &&& inp@.subrange(l1 + l2, l1 + l2 + l3) == enc_str(av.title)
            &&& inp@.subrange(l1 + l2 + l3, l1 + l2 + l3 + l4) == enc_u32(av.pages.len() as u32)
            &&& inp@.subrange(l1 + l2 + l3 + l4, l1 + l2 + l3 + l4 + l5) == enc_pages(av.pages)
        } by {
            lemma_array_decompose(inp@, av);
        }
    }
    let wt = match parse_u32(inp, 0) {
        None => {
            return None;
        },
        Some(t) => t,
    };
    let (w, p1) = wt;
    let ht = match parse_u32(inp, p1) {
        None => {
            return None;
        },
        Some(t) => t,
    };
    let (h, p2) = ht;
    let tt = match parse_str(inp, p2) {
        None => {
            return None;
        },
        Some(t) => t,
    };
    let (title, p3) = tt;
    let nt = match parse_u32(inp, p3) {
        None => {
            return None;
        },
        Some(t) => t,
    };
    let (n, p4) = nt;
    proof {
        assert(inp@.subrange(0, p4 as int) =~= inp@.subrange(0, p1 as int) + inp@.subrange(
            p1 as int,
            p2 as int,
        ) + inp@.subrange(p2 as int, p3 as int) + inp@.subrange(p3 as int, p4 as int));
        assert(inp@.subrange(0, p4 as int) =~= enc_u32(w) + (enc_u32(h) + (enc_str(title@)
            + enc_u32(n))));
    }
    Some((w, h, title, n, p4))
}

/// Decodes the array-level persisted form. Succeeds exactly on the
/// complete encoding of some array, returning that very array;
/// everything else is `MalformedPersistedData`.
#[verifier::rlimit(100)]
pub fn deserialize_array(inp: &[u8]) -> (r: Result<PosterArray, PosterError>)
    ensures
        (r matches Ok(arr) ==> array_encodable(arr@) && inp@ == enc_array(arr@)),
        (r matches Err(e) ==> e == PosterError::MalformedPersistedData),
        forall|av: ArrayV| #[trigger] array_at(inp@, av) ==> (r matches Ok(arr) && arr@ == av),
{
    let len = inp.len();
    let head = match parse_array_head(inp) {
        None => {
            return Err(PosterError::MalformedPersistedData);
        },
        Some(t) => t,
    };
    let (w, h, title, n, p4) = head;
    let mut pages: Vec<Page> = Vec::new();
    let mut cur = p4;
    let mut i: usize = 0;
    proof {
        assert(inp@.subrange(p4 as int, p4 as int) =~= Seq::<u8>::empty());
        assert(enc_pages(Seq::<PageV>::empty()) =~= Seq::<u8>::empty());
        assert(pages@.map_values(|p: Page| p@) =~= Seq::<PageV>::empty());
        assert forall|av: ArrayV| #[trigger] array_at(inp@, av) implies av.pages.take(0)
            =~= Seq::<PageV>::empty() by {
        }
    }
    while i < (n as usize)
        invariant
            p4 <= cur <= len,
            len == inp@.len(),
            pages@.len() == i,
            i <= n as usize,
            inp@.subrange(p4 as int, cur as int) == enc_pages(pages@.map_values(|p: Page| p@)),
            inp@.subrange(0, p4 as int) == enc_u32(w) + (enc_u32(h) + (enc_str(title@) + enc_u32(
                n,
            ))),
            str_encodable(title@),
            forall|m: int| 0 <= m < i ==> page_encodable(#[trigger] pages@[m]@),
            forall|av: ArrayV|
                #[trigger] array_at(inp@, av) ==> {
                    &&& av.width == w && av.height == h && av.title == title@ && av.pages.len()
                        == n
                    &&& pages@.map_values(|p: Page| p@) == av.pages.take(i as int)
                    &&& cur == p4 + enc_pages(av.pages.take(i as int)).len()
                    &&& p4 + enc_pages(av.pages).len() == len
                    &&& inp@.subrange(p4 as int, p4 + enc_pages(av.pages).len()) == enc_pages(
                        av.pages,
                    )
                },
        decreases n as usize - i,
    {
        proof {
            assert forall|av: ArrayV| #[trigger] array_at(inp@, av) implies page_at(
                inp@,
                cur as int,
                av.pages[i as int],
            ) by {
                lemma_pages_step(inp@, p4 as int, cur as int, i as int, av);
            }
        }
        let pt = match parse_page(inp, cur) {
            None => {
                return Err(PosterError::MalformedPersistedData);
            },
            Some(t) => t,
        };
        let (page, cur2) = pt;
        let ghost old_pages = pages@.map_values(|p: Page| p@);
        let ghost old_cur = cur as int;
        pages.push(page);
        cur = cur2;
        i += 1;
        proof {
            lemma_region_join(inp@, p4 as int, old_cur, cur as int);
            lemma_enc_pages_concat(old_pages, seq![page@]);
            lemma_enc_pages_single(page@);
            assert(pages@.map_values(|p: Page| p@) =~= old_pages + seq![page@]);
            assert(inp@.subrange(p4 as int, cur as int) =~= enc_pages(
                pages@.map_values(|p: Page| p@),
            ));
            assert forall|av: ArrayV| #[trigger] array_at(inp@, av) implies {
                &&& pages@.map_values(|p: Page| p@) == av.pages.take(i as int)
                &&& cur == p4 + enc_pages(av.pages.take(i as int)).len()
            } by {
                lemma_pages_step(inp@, p4 as int, old_cur, i - 1, av);
                assert(pages@.map_values(|p: Page| p@) =~= av.pages.take(i as int));
            }
        }
    }
    proof {
        assert forall|av: ArrayV| #[trigger] array_at(inp@, av) implies cur == len by {
            assert(av.pages.take(n as int) =~= av.pages);
        }
    }
    if cur != len {
        return Err(PosterError::MalformedPersistedData);
    }
    let arr = PosterArray { pages, width: w, height: h, title };
    proof {
        lemma_array_assemble(
            inp@,
            p4 as int,
            w,
            h,
            title@,
            n,
            pages@.map_values(|p: Page| p@),
        );
        assert(arr@ == ArrayV {
            pages: pages@.map_values(|p: Page| p@),
            width: w as int,
            height: h as int,
            title: title@,
        });
        assert forall|av: ArrayV| #[trigger] array_at(inp@, av) implies arr@ == av by {
            assert(av.pages.take(n as int) =~= av.pages);
            assert(arr@.pages == av.pages);
        }
    }
    Ok(arr)
}


/// The round-trip law: the serializer's output is a complete encoding
/// of the very array it was given, so by the decoder's contract,
/// decoding what `serialize_array` wrote yields that array again — for
/// empty, single-page and multi-page arrays alike.
pub proof fn lemma_serialize_then_deserialize(a: ArrayV)
    requires
        array_encodable(a),
    ensures
        array_at(enc_array(a), a),
{
}

/// Serializes in the single-page persisted form, which holds exactly
/// one page and omits the grid and title. A multi-page array is refused
/// with `UnsupportedMultiPage`; an empty one cannot be a completed 1x1
/// array and is refused with `InvalidDimensions`.
pub fn serialize_single(a: &PosterArray) -> (r: Result<Vec<u8>, PosterError>)
    requires
        array_encodable(a@),
    ensures
        a@.pages.len() > 1 ==> (r matches Err(e) && e == PosterError::UnsupportedMultiPage),
        a@.pages.len() == 0 ==> (r matches Err(e) && e == PosterError::InvalidDimensions),
        a@.pages.len() == 1 ==> (r matches Ok(out) && out@ == enc_page(a@.pages[0])),
{
    if a.pages.len() > 1 {
        return Err(PosterError::UnsupportedMultiPage);
    }
    if a.pages.len() == 0 {
        return Err(PosterError::InvalidDimensions);
    }
    let mut out: Vec<u8> = Vec::new();
    proof {
        assert(a@.pages[0] == a.pages@[0]@);
    }
    emit_page(&mut out, &a.pages[0]);
    proof {
        assert(out@ =~= enc_page(a@.pages[0]));
    }
    Ok(out)
}

/// Decodes the single-page persisted form into a 1x1 poster array with
/// the placeholder title, as loading a lone page does. Succeeds exactly
/// on the complete encoding of some page.
pub fn deserialize_single(inp: &[u8]) -> (r: Result<PosterArray, PosterError>)
    ensures
        (r matches Ok(arr) ==> arr@.width == 1 && arr@.height == 1 && arr@.pages.len() == 1
            && page_encodable(arr@.pages[0]) && inp@ == enc_page(arr@.pages[0])),
        (r matches Err(e) ==> e == PosterError::MalformedPersistedData),
        forall|pv: PageV|
            page_encodable(pv) && inp@ == #[trigger] enc_page(pv) ==> (r matches Ok(arr)
                && arr@.pages[0] == pv),
{
    let len = inp.len();
    proof {
        assert forall|pv: PageV|
            page_encodable(pv) && inp@ == #[trigger] enc_page(pv) implies page_at(
            inp@,
            0,
            pv,
        ) by {
            assert(inp@.subrange(0, enc_page(pv).len() as int) =~= inp@);
        }
    }
    let pt = match parse_page(inp, 0) {
        None => {
            return Err(PosterError::MalformedPersistedData);
        },
        Some(t) => t,
    };
    let (page, end) = pt;
    if end != len {
        return Err(PosterError::MalformedPersistedData);
    }
    let mut pages: Vec<Page> = Vec::new();
    pages.push(page);
    let arr = PosterArray { pages, width: 1, height: 1, title: "untitled".to_owned() };
    proof {
        assert(inp@.subrange(0, len as int) =~= inp@);
        assert(arr@.pages[0] == page@);
    }
    Ok(arr)
}

} // verus!
