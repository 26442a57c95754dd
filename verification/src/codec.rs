//! The wire form of a chain: a JSON array of block records, one object per
//! block with the fields in a fixed order. Encoding and decoding are verified
//! against spec-level renderings of numbers, escaped strings and block
//! records, and decoding an encoded sequence of blocks provably yields the
//! sequence back.

use vstd::prelude::*;
use vstd::calc;
use crate::block::{Block, BlockModel};
use crate::chain::{Blockchain, chain_models};

verus! {

// ---------------------------------------------------------------------------
// Decimal numbers
// ---------------------------------------------------------------------------
/// The character of a single decimal digit.
pub open spec fn digit_char(d: int) -> char {
    ((48 + d) as u8) as char
}

/// Whether `c` is a decimal digit.
pub open spec fn is_digit(c: char) -> bool {
    48 <= c as u32 <= 57
}

/// The numeric value of a decimal digit character.
pub open spec fn digit_val(c: char) -> int {
    c as u32 - 48
}

/// The decimal rendering of `n`, most significant digit first, no leading
/// zeros (`0` alone renders as the single digit `0`).
pub open spec fn dec_of(n: nat) -> Seq<char>
    decreases n,
{
    if n < 10 {
        seq![digit_char(n as int)]
    } else {
        dec_of(n / 10).push(digit_char((n % 10) as int))
    }
}

/// The value of a digit string, most significant digit first.
pub open spec fn val_of(t: Seq<char>) -> int
    decreases t.len(),
{
    if t.len() == 0 {
        0
    } else {
        val_of(t.drop_last()) * 10 + digit_val(t.last())
    }
}

/// Powers of ten.
pub open spec fn pow10(k: nat) -> int
    decreases k,
{
    if k == 0 {
        1
    } else {
        10 * pow10((k - 1) as nat)
    }
}

/// The digit characters carry their digit's value, and only `0` maps to the
/// zero character.
pub proof fn lemma_digit_char(d: int)
    requires
        0 <= d <= 9,
    ensures
        is_digit(digit_char(d)),
        digit_val(digit_char(d)) == d,
        (digit_char(d) == '0') <==> (d == 0),
{
    assert(digit_char(d) as u32 == 48 + d);
    assert('0' as u32 == 48);
}

/// Every character of a decimal rendering is a digit, its value is the
/// rendered number, and only zero begins with the zero digit.
pub proof fn lemma_dec_of_wf(n: nat)
    ensures
        dec_of(n).len() >= 1,
        forall|k: int| 0 <= k < dec_of(n).len() ==> is_digit(#[trigger] dec_of(n)[k]),
        val_of(dec_of(n)) == n,
        n > 0 ==> dec_of(n)[0] != '0',
        n == 0 ==> dec_of(n) =~= seq!['0'],
    decreases n,
{
    if n < 10 {
        lemma_digit_char(n as int);
        assert(dec_of(n) =~= seq![digit_char(n as int)]);
        assert(dec_of(n).drop_last() =~= Seq::<char>::empty());
        assert(val_of(dec_of(n)) == val_of(dec_of(n).drop_last()) * 10 + digit_val(
            dec_of(n).last(),
        ));
        assert(val_of(dec_of(n).drop_last()) == 0);
        assert(digit_val(dec_of(n).last()) == n);
    } else {
        lemma_digit_char((n % 10) as int);
        lemma_dec_of_wf(n / 10);
        assert(dec_of(n) =~= dec_of(n / 10).push(digit_char((n % 10) as int)));
        assert(dec_of(n).drop_last() =~= dec_of(n / 10));
        assert(val_of(dec_of(n)) == val_of(dec_of(n / 10)) * 10 + (n % 10));
        assert(n / 10 * 10 + n % 10 == n) by (nonlinear_arith);
        assert(dec_of(n)[0] == dec_of(n / 10)[0]);
    }
}

/// Append the decimal rendering of `n` to `out`.
pub(crate) fn push_dec(out: &mut Vec<char>, n: u128)
    ensures
        final(out)@ == old(out)@ + dec_of(n as nat),
    decreases n,
{
    if n < 10 {
        out.push((48 + n as u8) as char);
        assert(final(out)@ =~= old(out)@ + dec_of(n as nat));
    } else {
        push_dec(out, n / 10);
        out.push((48 + (n % 10) as u8) as char);
        assert(final(out)@ =~= old(out)@ + dec_of(n as nat));
    }
}

/// Scan a run of digits from `i`, accumulating onto `acc`; `None` exactly
/// when the accumulated value would no longer fit in a `u128`.
pub open spec fn parse_num_rec(s: Seq<char>, i: int, acc: u128) -> Option<(u128, int)>
    decreases s.len() - i,
{
    if 0 <= i < s.len() && is_digit(s[i]) {
        let d = digit_val(s[i]);
        if acc > (u128::MAX - d) / 10 {
            None
        } else {
            parse_num_rec(s, i + 1, (acc * 10 + d) as u128)
        }
    } else {
        Some((acc, i))
    }
}

/// Parse a JSON number (a nonempty digit run; a leading zero stands alone) at
/// `i`; `None` when no digit stands at `i` or the value overflows a `u128`.
pub open spec fn spec_parse_u128(s: Seq<char>, i: int) -> Option<(u128, int)> {
    if 0 <= i < s.len() && is_digit(s[i]) {
        if s[i] == '0' {
            Some((0, i + 1))
        } else {
            parse_num_rec(s, i, 0)
        }
    } else {
        None
    }
}

/// Whether `c` is a decimal digit.
pub(crate) fn is_digit_exec(c: char) -> (r: bool)
    ensures
        r == is_digit(c),
{
    let u = c as u32;
    48 <= u && u <= 57
}

/// Parse a JSON number at `i`, mirroring [`spec_parse_u128`].
pub(crate) fn parse_u128(s: &Vec<char>, i: usize) -> (r: Option<(u128, usize)>)
    requires
        i <= s@.len(),
    ensures
        r is Some <==> spec_parse_u128(s@, i as int) is Some,
        r matches Some((v, j)) ==> spec_parse_u128(s@, i as int) == Some((v, j as int)) && i < j
            <= s@.len(),
{
    if i >= s.len() {
        return None;
    }
    let c = s[i];
    if !is_digit_exec(c) {
        return None;
    }
    if c == '0' {
        return Some((0, i + 1));
    }
    let mut acc: u128 = 0;
    let mut k: usize = i;
    loop
        invariant
            i <= k <= s@.len(),
            i < s@.len(),
            is_digit(s@[i as int]),
            s@[i as int] != '0',
            parse_num_rec(s@, i as int, 0) == parse_num_rec(s@, k as int, acc),
        decreases s@.len() - k,
    {
        if k >= s.len() {
            return Some((acc, k));
        }
        let c = s[k];
        if !is_digit_exec(c) {
            return Some((acc, k));
        }
        let d = (c as u32 - 48) as u128;
        if acc > (u128::MAX - d) / 10 {
            return None;
        }
        assert(acc * 10 + d <= u128::MAX) by {
            assert(acc <= (u128::MAX - d) / 10);
            assert(acc * 10 <= ((u128::MAX - d) / 10) * 10) by (nonlinear_arith)
                requires
                    acc <= (u128::MAX - d) / 10,
            ;
            assert(((u128::MAX - d) / 10) * 10 <= u128::MAX - d) by (nonlinear_arith);
        }
        acc = acc * 10 + d;
        k = k + 1;
    }
}

/// A string of digits has a non-negative value.
pub proof fn lemma_val_of_nonneg(t: Seq<char>)
    requires
        forall|k: int| 0 <= k < t.len() ==> is_digit(#[trigger] t[k]),
    ensures
        val_of(t) >= 0,
    decreases t.len(),
{
    if t.len() > 0 {
        lemma_val_of_nonneg(t.drop_last());
    }
}

/// The value of a digit string decomposed at its first digit.
pub proof fn lemma_val_of_front(t: Seq<char>)
    requires
        t.len() >= 1,
    ensures
        val_of(t) == digit_val(t[0]) * pow10((t.len() - 1) as nat) + val_of(t.skip(1)),
    decreases t.len(),
{
    if t.len() == 1 {
        assert(t.drop_last() =~= Seq::<char>::empty());
        assert(t.skip(1) =~= Seq::<char>::empty());
    } else {
        lemma_val_of_front(t.drop_last());
        assert(t.skip(1).drop_last() =~= t.drop_last().skip(1));
        assert(t.drop_last()[0] == t[0]);
        assert(t.skip(1).last() == t.last());
        let p = pow10((t.len() - 2) as nat);
        calc! {
            (==)
            val_of(t); {}
            val_of(t.drop_last()) * 10 + digit_val(t.last()); {}
            (digit_val(t[0]) * p + val_of(t.drop_last().skip(1))) * 10 + digit_val(t.last()); {
                assert((digit_val(t[0]) * p + val_of(t.drop_last().skip(1))) * 10 == digit_val(
                    t[0],
                ) * p * 10 + val_of(t.drop_last().skip(1)) * 10) by (nonlinear_arith);
            }
            digit_val(t[0]) * p * 10 + val_of(t.drop_last().skip(1)) * 10 + digit_val(t.last()); {
                assert(digit_val(t[0]) * p * 10 == digit_val(t[0]) * (p * 10)) by (nonlinear_arith);
                assert(p * 10 == pow10((t.len() - 1) as nat));
            }
            digit_val(t[0]) * pow10((t.len() - 1) as nat) + (val_of(t.skip(1).drop_last()) * 10
                + digit_val(t.skip(1).last())); {}
            digit_val(t[0]) * pow10((t.len() - 1) as nat) + val_of(t.skip(1));
        }
    }
}

/// Scanning a digit run of known contents: the accumulator recursion lands on
/// the run's value, offset by the accumulator brought in.
pub proof fn lemma_parse_num_run(s: Seq<char>, i: int, j: int, acc: u128)
    requires
        0 <= i <= j <= s.len(),
        forall|k: int| i <= k < j ==> is_digit(#[trigger] s[k]),
        j == s.len() || !is_digit(s[j]),
        acc * pow10((j - i) as nat) + val_of(s.subrange(i, j)) <= u128::MAX,
    ensures
        parse_num_rec(s, i, acc) == Some(
            ((acc * pow10((j - i) as nat) + val_of(s.subrange(i, j))) as u128, j),
        ),
    decreases j - i,
{
    let t = s.subrange(i, j);
    if i == j {
        assert(t =~= Seq::<char>::empty());
        assert(pow10(0) == 1);
    } else {
        let d = digit_val(s[i]);
        let l = (j - i) as nat;
        lemma_val_of_front(t);
        assert(t[0] == s[i]);
        assert(t.skip(1) =~= s.subrange(i + 1, j));
        let val1 = val_of(s.subrange(i + 1, j));
        assert(val1 >= 0) by {
            assert(forall|k: int|
                0 <= k < s.subrange(i + 1, j).len() ==> is_digit(
                    #[trigger] s.subrange(i + 1, j)[k],
                ));
            lemma_val_of_nonneg(s.subrange(i + 1, j));
        }
        let p1 = pow10((l - 1) as nat);
        assert(pow10(l) == 10 * p1);
        assert(acc * pow10(l) == (acc * 10) * p1) by (nonlinear_arith)
            requires
                pow10(l) == 10 * p1,
        ;
        assert(val_of(t) == d * p1 + val1);
        // The total value bounds the first accumulation step.
        assert(p1 >= 1) by {
            lemma_pow10_pos((l - 1) as nat);
        }
        assert((acc * 10 + d) * p1 == (acc * 10) * p1 + d * p1) by (nonlinear_arith);
        assert((acc * 10 + d) * p1 >= acc * 10 + d) by (nonlinear_arith)
            requires
                p1 >= 1,
                acc >= 0,
                d >= 0,
        ;
        assert(acc * 10 + d <= u128::MAX);
        assert(!(acc > (u128::MAX - d) / 10)) by {
            if acc > (u128::MAX - d) / 10 {
                assert(acc >= (u128::MAX - d) / 10 + 1);
                assert(acc * 10 >= ((u128::MAX - d) / 10 + 1) * 10) by (nonlinear_arith)
                    requires
                        acc >= (u128::MAX - d) / 10 + 1,
                ;
                assert(((u128::MAX - d) / 10 + 1) * 10 > u128::MAX - d);
            }
        }
        lemma_parse_num_run(s, i + 1, j, (acc * 10 + d) as u128);
        assert((acc * 10 + d) * p1 + val1 == acc * pow10(l) + val_of(t));
    }
}

/// Powers of ten are positive.
pub proof fn lemma_pow10_pos(k: nat)
    ensures
        pow10(k) >= 1,
    decreases k,
{
    if k > 0 {
        lemma_pow10_pos((k - 1) as nat);
    }
}

/// Parsing a decimal rendering embedded in `s`, followed by a non-digit,
/// yields the rendered number back.
pub proof fn lemma_parse_dec_of(s: Seq<char>, i: int, n: u128)
    requires
        0 <= i,
        i + dec_of(n as nat).len() <= s.len(),
        s.subrange(i, i + dec_of(n as nat).len()) == dec_of(n as nat),
        i + dec_of(n as nat).len() == s.len() || !is_digit(s[i + dec_of(n as nat).len()]),
    ensures
        spec_parse_u128(s, i) == Some((n, i + dec_of(n as nat).len())),
{
    lemma_dec_of_wf(n as nat);
    let l = dec_of(n as nat).len();
    let t = s.subrange(i, i + l);
    assert(s[i] == dec_of(n as nat)[0]);
    assert(is_digit(s[i]));
    if n == 0 {
        assert(s[i] == '0');
        assert('0' as u32 == 48);
    } else {
        assert(s[i] != '0');
        assert(forall|k: int| i <= k < i + l ==> is_digit(#[trigger] s[k])) by {
            assert(forall|k: int|
                i <= k < i + l ==> #[trigger] s[k] == dec_of(n as nat)[k - i]);
        }
        lemma_parse_num_run(s, i, i + l, 0);
        assert(val_of(t) == n);
        assert(0 * pow10(l as nat) == 0);
    }
}

// ---------------------------------------------------------------------------
// JSON strings
// ---------------------------------------------------------------------------
/// The character of a single hexadecimal digit, lowercase.
pub open spec fn hex_char(d: int) -> char {
    if d < 10 {
        ((48 + d) as u8) as char
    } else {
        ((87 + d) as u8) as char
    }
}

/// Whether `c` is a hexadecimal digit, either case.
pub open spec fn is_hex(c: char) -> bool {
    ||| is_digit(c)
    ||| 97 <= c as u32 <= 102
    ||| 65 <= c as u32 <= 70
}

/// The numeric value of a hexadecimal digit character.
pub open spec fn hex_val(c: char) -> int {
    if is_digit(c) {
        c as u32 - 48
    } else if 97 <= c as u32 <= 102 {
        c as u32 - 87
    } else {
        c as u32 - 55
    }
}

/// The hexadecimal digit characters carry their digit's value.
pub proof fn lemma_hex_char(d: int)
    requires
        0 <= d < 16,
    ensures
        is_hex(hex_char(d)),
        hex_val(hex_char(d)) == d,
{
    if d < 10 {
        assert(hex_char(d) as u32 == 48 + d);
    } else {
        assert(hex_char(d) as u32 == 87 + d);
    }
}

/// How one character of a payload stands in the wire form: quote and
/// backslash escaped, control characters as a four-digit hexadecimal escape,
/// every other character as itself.
pub open spec fn esc_char(c: char) -> Seq<char> {
    if c == '"' {
        seq!['\\', '"']
    } else if c == '\\' {
        seq!['\\', '\\']
    } else if (c as u32) < 32 {
        seq!['\\', 'u', '0', '0', hex_char((c as u32 / 16) as int), hex_char((c as u32 % 16) as int)]
    } else {
        seq![c]
    }
}

/// The wire form of a whole payload: each character escaped in turn.
pub open spec fn esc(t: Seq<char>) -> Seq<char>
    decreases t.len(),
{
    if t.len() == 0 {
        Seq::empty()
    } else {
        esc_char(t[0]) + esc(t.skip(1))
    }
}

/// Escaping one more character appends that character's escape.
pub proof fn lemma_esc_push(t: Seq<char>, c: char)
    ensures
        esc(t.push(c)) == esc(t) + esc_char(c),
    decreases t.len(),
{
    if t.len() == 0 {
        assert(t.push(c)[0] == c);
        assert(t.push(c).skip(1) =~= Seq::<char>::empty());
        assert(esc(t.push(c)) == esc_char(c) + esc(t.push(c).skip(1)));
        assert(esc_char(c) + Seq::<char>::empty() =~= esc_char(c));
        assert(esc(t) =~= Seq::<char>::empty());
        assert(esc(t) + esc_char(c) =~= esc_char(c));
    } else {
        assert(t.push(c).skip(1) =~= t.skip(1).push(c));
        lemma_esc_push(t.skip(1), c);
        assert(t.push(c)[0] == t[0]);
        assert(esc(t.push(c)) == esc_char(t[0]) + (esc(t.skip(1)) + esc_char(c)));
        assert(esc_char(t[0]) + (esc(t.skip(1)) + esc_char(c)) =~= (esc_char(t[0]) + esc(
            t.skip(1),
        )) + esc_char(c));
    }
}

/// The character of a hexadecimal digit, lowercase.
pub(crate) fn hex_char_exec(d: u8) -> (c: char)
    requires
        d < 16,
    ensures
        c == hex_char(d as int),
{
    if d < 10 {
        (48 + d) as char
    } else {
        (87 + d) as char
    }
}

/// The numeric value of a hexadecimal digit character.
pub(crate) fn hex_val_exec(c: char) -> (r: u8)
    requires
        is_hex(c),
    ensures
        r == hex_val(c),
        r < 16,
{
    let u = c as u32;
    if u <= 57 {
        (u - 48) as u8
    } else if u >= 97 {
        (u - 87) as u8
    } else {
        (u - 55) as u8
    }
}

/// Append the escaped wire form of `s` to `out`.
pub(crate) fn push_escaped(out: &mut Vec<char>, s: &str)
    ensures
        final(out)@ == old(out)@ + esc(s@),
{
    let ghost orig = out@;
    let n = s.unicode_len();
    let mut k: usize = 0;
    while k < n
        invariant
            k <= n == s@.len(),
            orig == old(out)@,
            out@ == orig + esc(s@.take(k as int)),
        decreases n - k,
    {
        let c = s.get_char(k);
        proof {
            lemma_esc_push(s@.take(k as int), s@[k as int]);
            assert(s@.take(k + 1) =~= s@.take(k as int).push(s@[k as int]));
        }
        if c == '"' {
            out.push('\\');
            out.push('"');
        } else if c == '\\' {
            out.push('\\');
            out.push('\\');
        } else {
            let u = c as u32;
            if u < 32 {
                out.push('\\');
                out.push('u');
                out.push('0');
                out.push('0');
                out.push(hex_char_exec((u / 16) as u8));
                out.push(hex_char_exec((u % 16) as u8));
            } else {
                out.push(c);
            }
        }
        assert(out@ =~= orig + esc(s@.take(k + 1)));
        k += 1;
    }
    assert(s@.take(n as int) =~= s@);
}

/// Prefix a parsed tail of string characters with one decoded character.
pub open spec fn jstr_cons(c: char, r: Option<(Seq<char>, int)>) -> Option<(Seq<char>, int)> {
    match r {
        None => None,
        Some((cs, j)) => Some((seq![c] + cs, j)),
    }
}

/// Parse the characters of a JSON string at `i` up to and past its closing
/// quote: escapes decoded (quote, backslash, slash, the short control
/// escapes, and `\u00` followed by two hexadecimal digits), any other
/// character taken as itself; `None` on a truncated or unknown escape or a
/// missing closing quote.
pub open spec fn parse_jstr_rec(s: Seq<char>, i: int) -> Option<(Seq<char>, int)>
    decreases s.len() - i,
{
    if i < 0 || i >= s.len() {
        None
    } else if s[i] == '"' {
        Some((Seq::empty(), i + 1))
    } else if s[i] == '\\' {
        if i + 1 >= s.len() {
            None
        } else {
            let e = s[i + 1];
            if e == '"' {
                jstr_cons('"', parse_jstr_rec(s, i + 2))
            } else if e == '\\' {
                jstr_cons('\\', parse_jstr_rec(s, i + 2))
            } else if e == '/' {
                jstr_cons('/', parse_jstr_rec(s, i + 2))
            } else if e == 'b' {
                jstr_cons('\u{0008}', parse_jstr_rec(s, i + 2))
            } else if e == 'f' {
                jstr_cons('\u{000C}', parse_jstr_rec(s, i + 2))
            } else if e == 'n' {
                jstr_cons('\n', parse_jstr_rec(s, i + 2))
            } else if e == 'r' {
                jstr_cons('\r', parse_jstr_rec(s, i + 2))
            } else if e == 't' {
                jstr_cons('\t', parse_jstr_rec(s, i + 2))
            } else if e == 'u' {
                if i + 6 <= s.len() && s[i + 2] == '0' && s[i + 3] == '0' && is_hex(s[i + 4])
                    && is_hex(s[i + 5]) {
                    jstr_cons(
                        ((hex_val(s[i + 4]) * 16 + hex_val(s[i + 5])) as u8) as char,
                        parse_jstr_rec(s, i + 6),
                    )
                } else {
                    None
                }
            } else {
                None
            }
        }
    } else {
        jstr_cons(s[i], parse_jstr_rec(s, i + 1))
    }
}

/// Prefix a parsed tail with already decoded characters.
pub open spec fn jstr_prepend(p: Seq<char>, r: Option<(Seq<char>, int)>) -> Option<
    (Seq<char>, int),
> {
    match r {
        None => None,
        Some((cs, j)) => Some((p + cs, j)),
    }
}

/// Parse the characters of a JSON string at `i`, mirroring
/// [`parse_jstr_rec`].
pub(crate) fn parse_jstr(s: &Vec<char>, i: usize) -> (r: Option<(Vec<char>, usize)>)
    requires
        i <= s@.len(),
    ensures
        r is Some <==> parse_jstr_rec(s@, i as int) is Some,
        r matches Some((cs, j)) ==> parse_jstr_rec(s@, i as int) == Some((cs@, j as int)) && i < j
            <= s@.len(),
{
    let mut out: Vec<char> = Vec::new();
    let mut k: usize = i;
    proof {
        if let Some((cs, j)) = parse_jstr_rec(s@, i as int) {
            assert(Seq::<char>::empty() + cs =~= cs);
        }
    }
    loop
        invariant
            i <= k <= s@.len(),
            parse_jstr_rec(s@, i as int) == jstr_prepend(out@, parse_jstr_rec(s@, k as int)),
        decreases s@.len() - k,
    {
        if k >= s.len() {
            return None;
        }
        let c = s[k];
        if c == '"' {
            proof {
                assert(out@ + Seq::<char>::empty() =~= out@);
            }
            return Some((out, k + 1));
        }
        let ghost prev = out@;
        let (c2, w): (char, usize) = if c == '\\' {
            if s.len() - k < 2 {
                return None;
            }
            let e = s[k + 1];
            if e == '"' {
                ('"', 2)
            } else if e == '\\' {
                ('\\', 2)
            } else if e == '/' {
                ('/', 2)
            } else if e == 'b' {
                ('\u{0008}', 2)
            } else if e == 'f' {
                ('\u{000C}', 2)
            } else if e == 'n' {
                ('\n', 2)
            } else if e == 'r' {
                ('\r', 2)
            } else if e == 't' {
                ('\t', 2)
            } else if e == 'u' {
                if s.len() - k < 6 {
                    return None;
                }
                if !(s[k + 2] == '0' && s[k + 3] == '0') {
                    return None;
                }
                let h1 = s[k + 4];
                let h2 = s[k + 5];
                if !is_hex_exec(h1) || !is_hex_exec(h2) {
                    return None;
                }
                let b = hex_val_exec(h1) * 16 + hex_val_exec(h2);
                (b as char, 6)
            } else {
                return None;
            }
        } else {
            (c, 1)
        };
        proof {
            assert(parse_jstr_rec(s@, k as int) == jstr_cons(
                c2,
                parse_jstr_rec(s@, k + w as int),
            ));
            if let Some((cs, j)) = parse_jstr_rec(s@, k + w as int) {
                assert(prev + (seq![c2] + cs) =~= prev.push(c2) + cs);
            }
        }
        out.push(c2);
        k += w;
    }
}

/// Whether `c` is a hexadecimal digit, either case.
pub(crate) fn is_hex_exec(c: char) -> (r: bool)
    ensures
        r == is_hex(c),
{
    let u = c as u32;
    (48 <= u && u <= 57) || (97 <= u && u <= 102) || (65 <= u && u <= 70)
}

/// Parsing an escaped payload embedded in `s`, followed by a closing quote,
/// yields the payload back, past the quote.
pub proof fn lemma_parse_esc(s: Seq<char>, i: int, p: Seq<char>)
    requires
        0 <= i,
        i + esc(p).len() + 1 <= s.len(),
        s.subrange(i, i + esc(p).len()) == esc(p),
        s[i + esc(p).len()] == '"',
    ensures
        parse_jstr_rec(s, i) == Some((p, i + esc(p).len() + 1)),
    decreases p.len(),
{
    assert(forall|k: int| 0 <= k < esc(p).len() ==> s[i + k] == esc(p)[k]) by {
        assert(forall|k: int|
            0 <= k < esc(p).len() ==> s.subrange(i, i + esc(p).len())[k] == esc(p)[k]);
    }
    if p.len() == 0 {
        assert(s[i] == '"');
        assert(p =~= Seq::<char>::empty());
    } else {
        let c = p[0];
        let e0 = esc_char(c);
        let rest = esc(p.skip(1));
        let l0 = e0.len();
        let l = esc(p).len();
        assert(esc(p) == e0 + rest);
        assert(l == l0 + rest.len());
        assert forall|k: int| 0 <= k < l0 implies s[i + k] == e0[k] by {
            assert(s[i + k] == esc(p)[k]);
            assert(esc(p)[k] == (e0 + rest)[k]);
        }
        assert(s.subrange(i + l0, i + l0 + rest.len()) =~= rest) by {
            assert(forall|k: int|
                0 <= k < rest.len() ==> s[i + l0 + k] == (e0 + rest)[l0 + k] && (e0 + rest)[l0 + k]
                    == rest[k]);
        }
        assert(s[i + l0 + rest.len()] == '"');
        lemma_parse_esc(s, i + l0, p.skip(1));
        assert(seq![c] + p.skip(1) =~= p);
        if c == '"' {
            assert(e0 =~= seq!['\\', '"']);
            assert(s[i] == '\\' && s[i + 1] == '"');
            assert(parse_jstr_rec(s, i) == jstr_cons('"', parse_jstr_rec(s, i + 2)));
        } else if c == '\\' {
            assert(e0 =~= seq!['\\', '\\']);
            assert(s[i] == '\\' && s[i + 1] == '\\');
            assert(parse_jstr_rec(s, i) == jstr_cons('\\', parse_jstr_rec(s, i + 2)));
        } else if (c as u32) < 32 {
            let hi = (c as u32 / 16) as int;
            let lo = (c as u32 % 16) as int;
            assert(e0 =~= seq!['\\', 'u', '0', '0', hex_char(hi), hex_char(lo)]);
            assert(s[i] == '\\' && s[i + 1] == 'u' && s[i + 2] == '0' && s[i + 3] == '0');
            assert(s[i + 4] == hex_char(hi) && s[i + 5] == hex_char(lo));
            lemma_hex_char(hi);
            lemma_hex_char(lo);
            assert(hex_val(s[i + 4]) * 16 + hex_val(s[i + 5]) == c as u32) by {
                assert(hi * 16 + lo == c as u32) by (nonlinear_arith)
                    requires
                        hi == (c as u32 / 16) as int,
                        lo == (c as u32 % 16) as int,
                ;
            }
            assert((((c as u32) as u8) as char) == c) by {
                let u: u32 = c as u32;
                vstd::utf8::char_u32_cast(c, u);
                assert((u as u8) as u32 == u);
            }
            assert(parse_jstr_rec(s, i) == jstr_cons(c, parse_jstr_rec(s, i + 6)));
        } else {
            assert(e0 =~= seq![c]);
            assert(s[i] == c);
            assert(parse_jstr_rec(s, i) == jstr_cons(c, parse_jstr_rec(s, i + 1)));
        }
    }
}


// ---------------------------------------------------------------------------
// Block records and the block array
// ---------------------------------------------------------------------------
/// The opening of a block object up to its first value.
pub open spec fn lit_obj_index() -> Seq<char> {
    "{\"index\":"@
}

/// The key between the index and timestamp values.
pub open spec fn lit_timestamp() -> Seq<char> {
    ",\"timestamp\":"@
}

/// The key between the timestamp value and the payload string, ending with
/// the payload's opening quote.
pub open spec fn lit_data() -> Seq<char> {
    ",\"data\":\""@
}

/// The key before the predecessor hash string, ending with its opening quote.
pub open spec fn lit_prev() -> Seq<char> {
    ",\"previous_hash\":\""@
}

/// The key before the stored hash string, ending with its opening quote.
pub open spec fn lit_hash() -> Seq<char> {
    ",\"hash\":\""@
}

/// The key before the nonce value.
pub open spec fn lit_nonce() -> Seq<char> {
    ",\"nonce\":"@
}

/// The shapes of the fixed key pieces: each begins as the grammar demands and
/// none is empty.
pub proof fn lemma_lits()
    ensures
        lit_obj_index().len() == 9,
        lit_obj_index()[0] == '{',
        lit_timestamp().len() >= 1,
        lit_timestamp()[0] == ',',
        lit_data().len() >= 1,
        lit_data()[0] == ',',
        lit_prev().len() >= 1,
        lit_prev()[0] == ',',
        lit_hash().len() >= 1,
        lit_hash()[0] == ',',
        lit_nonce().len() >= 1,
        lit_nonce()[0] == ',',
{
    reveal_strlit("{\"index\":");
    reveal_strlit(",\"timestamp\":");
    reveal_strlit(",\"data\":\"");
    reveal_strlit(",\"previous_hash\":\"");
    reveal_strlit(",\"hash\":\"");
    reveal_strlit(",\"nonce\":");
}

/// The wire form of one block record: a JSON object with the fields in a
/// fixed order, numbers in decimal, strings escaped.
pub open spec fn enc_block(b: BlockModel) -> Seq<char> {
    lit_obj_index() + dec_of(b.index as nat) + lit_timestamp() + dec_of(b.timestamp as nat)
        + lit_data() + esc(b.data) + seq!['"'] + lit_prev() + esc(b.previous_hash) + seq!['"']
        + lit_hash() + esc(b.hash) + seq!['"'] + lit_nonce() + dec_of(b.nonce as nat) + seq!['}']
}

/// A fixed piece of the wire form stands at `i`: the position past it, or
/// `None` where it does not.
pub open spec fn spec_expect(s: Seq<char>, i: int, lit: Seq<char>) -> Option<int> {
    if 0 <= i && i + lit.len() <= s.len() && s.subrange(i, i + lit.len()) == lit {
        Some(i + lit.len())
    } else {
        None
    }
}

/// Parse one block record at `i`: the fixed keys in order, the two small
/// numbers bounded by their field widths, the three strings unescaped;
/// `None` on any deviation.
pub open spec fn spec_parse_block(s: Seq<char>, i: int) -> Option<(BlockModel, int)> {
    match spec_expect(s, i, lit_obj_index()) {
        None => None,
        Some(i1) => match spec_parse_u128(s, i1) {
            None => None,
            Some((idx, i2)) => if idx > u32::MAX {
                None
            } else {
                match spec_expect(s, i2, lit_timestamp()) {
                    None => None,
                    Some(i3) => match spec_parse_u128(s, i3) {
                        None => None,
                        Some((ts, i4)) => match spec_expect(s, i4, lit_data()) {
                            None => None,
                            Some(i5) => match parse_jstr_rec(s, i5) {
                                None => None,
                                Some((data, i6)) => match spec_expect(s, i6, lit_prev()) {
                                    None => None,
                                    Some(i7) => match parse_jstr_rec(s, i7) {
                                        None => None,
                                        Some((ph, i8)) => match spec_expect(s, i8, lit_hash()) {
                                            None => None,
                                            Some(i9) => match parse_jstr_rec(s, i9) {
                                                None => None,
                                                Some((h, i10)) => match spec_expect(
                                                    s,
                                                    i10,
                                                    lit_nonce(),
                                                ) {
                                                    None => None,
                                                    Some(i11) => match spec_parse_u128(s, i11) {
                                                        None => None,
                                                        Some((nn, i12)) => if nn > u64::MAX {
                                                            None
                                                        } else {
                                                            if i12 < s.len() && s[i12] == '}' {
                                                                Some(
                                                                    (
                                                                        BlockModel {
                                                                            index: idx as u32,
                                                                            timestamp: ts,
                                                                            data,
                                                                            previous_hash: ph,
                                                                            hash: h,
                                                                            nonce: nn as u64,
                                                                        },
                                                                        i12 + 1,
                                                                    ),
                                                                )
                                                            } else {
                                                                None
                                                            }
                                                        },
                                                    },
                                                },
                                            },
                                        },
                                    },
                                },
                            },
                        },
                    },
                }
            },
        },
    }
}

/// Append the characters of `s` to `out`.
pub(crate) fn push_str_chars(out: &mut Vec<char>, s: &str)
    ensures
        final(out)@ == old(out)@ + s@,
{
    let ghost orig = out@;
    let n = s.unicode_len();
    let mut k: usize = 0;
    while k < n
        invariant
            k <= n == s@.len(),
            orig == old(out)@,
            out@ == orig + s@.take(k as int),
        decreases n - k,
    {
        out.push(s.get_char(k));
        assert(out@ =~= orig + s@.take(k + 1));
        k += 1;
    }
    assert(s@.take(n as int) =~= s@);
}

/// Whether the characters of `lit` stand at `i`, mirroring [`spec_expect`].
pub(crate) fn expect_lit(s: &Vec<char>, i: usize, lit: &str) -> (r: Option<usize>)
    requires
        i <= s@.len(),
    ensures
        r is Some <==> spec_expect(s@, i as int, lit@) is Some,
        r matches Some(j) ==> spec_expect(s@, i as int, lit@) == Some(j as int) && i <= j
            <= s@.len(),
{
    let m = lit.unicode_len();
    let n = s.len();
    if n - i < m {
        return None;
    }
    let mut k: usize = 0;
    while k < m
        invariant
            k <= m == lit@.len(),
            n == s@.len(),
            i + m <= n,
            forall|j: int| 0 <= j < k ==> s@[i + j] == lit@[j],
        decreases m - k,
    {
        if s[i + k] != lit.get_char(k) {
            proof {
                if s@.subrange(i as int, i + lit@.len()) == lit@ {
                    assert(s@.subrange(i as int, i + lit@.len())[k as int] == lit@[k as int]);
                }
            }
            return None;
        }
        k += 1;
    }
    assert(s@.subrange(i as int, i + lit@.len()) =~= lit@);
    Some(i + m)
}

/// Relies on std's FromIterator for String: collecting characters yields the
/// string holding exactly those characters in order.
#[verifier::external_body]
pub(crate) fn chars_to_string(v: &Vec<char>) -> (s: String)
    ensures
        s@ == v@,
{
    v.iter().collect()
}

/// The characters of `s`, as a vector.
pub(crate) fn str_to_chars(s: &str) -> (v: Vec<char>)
    ensures
        v@ == s@,
{
    let n = s.unicode_len();
    let mut v: Vec<char> = Vec::new();
    let mut k: usize = 0;
    while k < n
        invariant
            k <= n == s@.len(),
            v@ == s@.take(k as int),
        decreases n - k,
    {
        v.push(s.get_char(k));
        assert(v@ =~= s@.take(k + 1));
        k += 1;
    }
    assert(s@.take(n as int) =~= s@);
    v
}

/// Parse one block record at `i`, mirroring [`spec_parse_block`].
pub(crate) fn parse_block(s: &Vec<char>, i: usize) -> (r: Option<(Block, usize)>)
    requires
        i <= s@.len(),
    ensures
        r is Some <==> spec_parse_block(s@, i as int) is Some,
        r matches Some((b, j)) ==> spec_parse_block(s@, i as int) == Some((b@, j as int)) && i < j
            <= s@.len(),
{
    let i1 = match expect_lit(s, i, "{\"index\":") {
        None => return None,
        Some(j) => j,
    };
    let (idx128, i2) = match parse_u128(s, i1) {
        None => return None,
        Some(p) => p,
    };
    if idx128 > u32::MAX as u128 {
        return None;
    }
    let index = idx128 as u32;
    let i3 = match expect_lit(s, i2, ",\"timestamp\":") {
        None => return None,
        Some(j) => j,
    };
    let (timestamp, i4) = match parse_u128(s, i3) {
        None => return None,
        Some(p) => p,
    };
    let i5 = match expect_lit(s, i4, ",\"data\":\"") {
        None => return None,
        Some(j) => j,
    };
    let (data_chars, i6) = match parse_jstr(s, i5) {
        None => return None,
        Some(p) => p,
    };
    let i7 = match expect_lit(s, i6, ",\"previous_hash\":\"") {
        None => return None,
        Some(j) => j,
    };
    let (prev_chars, i8) = match parse_jstr(s, i7) {
        None => return None,
        Some(p) => p,
    };
    let i9 = match expect_lit(s, i8, ",\"hash\":\"") {
        None => return None,
        Some(j) => j,
    };
    let (hash_chars, i10) = match parse_jstr(s, i9) {
        None => return None,
        Some(p) => p,
    };
    let i11 = match expect_lit(s, i10, ",\"nonce\":") {
        None => return None,
        Some(j) => j,
    };
    let (nonce128, i12) = match parse_u128(s, i11) {
        None => return None,
        Some(p) => p,
    };
    if nonce128 > u64::MAX as u128 {
        return None;
    }
    let nonce = nonce128 as u64;
    if !(i12 < s.len()) {
        return None;
    }
    if !(s[i12] == '}') {
        return None;
    }
    let b = Block {
        index,
        timestamp,
        data: chars_to_string(&data_chars),
        previous_hash: chars_to_string(&prev_chars),
        hash: chars_to_string(&hash_chars),
        nonce,
    };
    Some((b, i12 + 1))
}

// ---------------------------------------------------------------------------
// The block array, and the whole wire form
// ---------------------------------------------------------------------------
/// The wire form past the first block of a nonempty array: either the closing
/// bracket, or a comma and a further block, repeated.
pub open spec fn enc_rest(bs: Seq<BlockModel>) -> Seq<char>
    decreases bs.len(),
{
    if bs.len() == 0 {
        seq![']']
    } else {
        seq![','] + enc_block(bs[0]) + enc_rest(bs.skip(1))
    }
}

/// The wire form of a sequence of blocks: a JSON array of block records.
pub open spec fn enc_blocks(bs: Seq<BlockModel>) -> Seq<char> {
    if bs.len() == 0 {
        seq!['[', ']']
    } else {
        seq!['['] + enc_block(bs[0]) + enc_rest(bs.skip(1))
    }
}

/// Parse the array past its first block at `i`: a closing bracket ends it, a
/// comma brings one more block.
pub open spec fn spec_parse_rest(s: Seq<char>, i: int) -> Option<(Seq<BlockModel>, int)>
    decreases s.len() - i,
{
    if i < 0 || i >= s.len() {
        None
    } else if s[i] == ']' {
        Some((Seq::empty(), i + 1))
    } else if s[i] == ',' {
        match spec_parse_block(s, i + 1) {
            None => None,
            Some((b, j)) => if i + 1 < j <= s.len() {
                match spec_parse_rest(s, j) {
                    None => None,
                    Some((bs, k)) => Some((seq![b] + bs, k)),
                }
            } else {
                None
            },
        }
    } else {
        None
    }
}

/// Parse a whole block array at `i`.
pub open spec fn spec_parse_list(s: Seq<char>, i: int) -> Option<(Seq<BlockModel>, int)> {
    if i < 0 || i >= s.len() || s[i] != '[' {
        None
    } else if i + 1 < s.len() && s[i + 1] == ']' {
        Some((Seq::empty(), i + 2))
    } else {
        match spec_parse_block(s, i + 1) {
            None => None,
            Some((b, j)) => if i + 1 < j <= s.len() {
                match spec_parse_rest(s, j) {
                    None => None,
                    Some((bs, k)) => Some((seq![b] + bs, k)),
                }
            } else {
                None
            },
        }
    }
}

/// What a wire-form string decodes to: the parsed block array, provided the
/// whole input is consumed; `None` on any malformed or trailing input.
pub open spec fn spec_decode_blocks(s: Seq<char>) -> Option<Seq<BlockModel>> {
    match spec_parse_list(s, 0) {
        None => None,
        Some((bs, j)) => if j == s.len() {
            Some(bs)
        } else {
            None
        },
    }
}

/// Prefix a parsed tail of the array with already parsed blocks.
pub open spec fn rest_prepend(p: Seq<BlockModel>, r: Option<(Seq<BlockModel>, int)>) -> Option<
    (Seq<BlockModel>, int),
> {
    match r {
        None => None,
        Some((bs, j)) => Some((p + bs, j)),
    }
}

/// Parse a whole block array at the start of `s`, mirroring
/// [`spec_parse_list`].
pub(crate) fn parse_list(s: &Vec<char>) -> (r: Option<(Vec<Block>, usize)>)
    ensures
        r is Some <==> spec_parse_list(s@, 0) is Some,
        r matches Some((v, j)) ==> spec_parse_list(s@, 0) == Some((chain_models(v@), j as int))
            && j <= s@.len(),
{
    if s.len() == 0 {
        return None;
    }
    if !(s[0] == '[') {
        return None;
    }
    if 1 < s.len() && s[1] == ']' {
        let empty: Vec<Block> = Vec::new();
        proof {
            assert(chain_models(empty@) =~= Seq::<BlockModel>::empty());
        }
        return Some((empty, 2));
    }
    let (b0, k0) = match parse_block(s, 1) {
        None => return None,
        Some(p) => p,
    };
    let mut blocks: Vec<Block> = Vec::new();
    let ghost b0m = b0@;
    blocks.push(b0);
    let mut k: usize = k0;
    proof {
        assert(chain_models(blocks@) =~= seq![b0m]);
    }
    loop
        invariant
            0 < k <= s@.len(),
            spec_parse_list(s@, 0) == rest_prepend(
                chain_models(blocks@),
                spec_parse_rest(s@, k as int),
            ),
        decreases s@.len() - k,
    {
        if k >= s.len() {
            return None;
        }
        let c = s[k];
        if c == ']' {
            proof {
                assert(chain_models(blocks@) + Seq::<BlockModel>::empty() =~= chain_models(
                    blocks@,
                ));
            }
            return Some((blocks, k + 1));
        }
        if !(c == ',') {
            return None;
        }
        let (b, j) = match parse_block(s, k + 1) {
            None => return None,
            Some(p) => p,
        };
        let ghost prev = chain_models(blocks@);
        let ghost bm = b@;
        blocks.push(b);
        proof {
            assert(chain_models(blocks@) =~= prev + seq![bm]);
            if let Some((bs2, k2)) = spec_parse_rest(s@, j as int) {
                assert(prev + (seq![bm] + bs2) =~= (prev + seq![bm]) + bs2);
            }
        }
        k = j;
    }
}

/// A wire form that could not be decoded: malformed or trailing input.
#[derive(Clone, Copy, Debug, PartialEq, Eq, Structural)]
pub struct DecodeError;

/// Decode a wire-form string into the block records it carries. Succeeds
/// exactly on the strings that parse as a whole block array with nothing
/// following it, and then returns the parsed blocks, in order.
pub fn decode_blocks(s: &str) -> (r: Result<Vec<Block>, DecodeError>)
    ensures
        r is Ok <==> spec_decode_blocks(s@) is Some,
        r matches Ok(v) ==> spec_decode_blocks(s@) == Some(chain_models(v@)),
{
    let chars = str_to_chars(s);
    match parse_list(&chars) {
        None => Err(DecodeError),
        Some((v, j)) => if j == chars.len() {
            Ok(v)
        } else {
            Err(DecodeError)
        },
    }
}

/// Append the wire form of one block record to `out`.
pub(crate) fn encode_block_into(out: &mut Vec<char>, b: &Block)
    ensures
        final(out)@ == old(out)@ + enc_block(b@),
{
    push_str_chars(out, "{\"index\":");
    push_dec(out, b.index as u128);
    push_str_chars(out, ",\"timestamp\":");
    push_dec(out, b.timestamp);
    push_str_chars(out, ",\"data\":\"");
    push_escaped(out, b.data.as_str());
    out.push('"');
    push_str_chars(out, ",\"previous_hash\":\"");
    push_escaped(out, b.previous_hash.as_str());
    out.push('"');
    push_str_chars(out, ",\"hash\":\"");
    push_escaped(out, b.hash.as_str());
    out.push('"');
    push_str_chars(out, ",\"nonce\":");
    push_dec(out, b.nonce as u128);
    out.push('}');
    assert(final(out)@ =~= old(out)@ + enc_block(b@));
}

/// Append the wire form of a sequence of blocks to `out`.
pub(crate) fn encode_blocks_into(out: &mut Vec<char>, blocks: &Vec<Block>)
    ensures
        final(out)@ == old(out)@ + enc_blocks(chain_models(blocks@)),
{
    let ghost orig = out@;
    let ghost models = chain_models(blocks@);
    out.push('[');
    if blocks.len() == 0 {
        out.push(']');
        proof {
            assert(models =~= Seq::<BlockModel>::empty());
            assert(out@ =~= orig + enc_blocks(models));
        }
        return ;
    }
    encode_block_into(out, &blocks[0]);
    proof {
        assert(models[0] == blocks@[0]@);
        assert(out@ =~= orig + (seq!['['] + enc_block(models[0])));
    }
    let mut i: usize = 1;
    while i < blocks.len()
        invariant
            1 <= i <= blocks@.len(),
            models == chain_models(blocks@),
            models.len() == blocks@.len(),
            orig + enc_blocks(models) == out@ + enc_rest(models.skip(i as int)),
        decreases blocks@.len() - i,
    {
        let ghost before = out@;
        out.push(',');
        encode_block_into(out, &blocks[i]);
        proof {
            assert(models.skip(i as int)[0] == models[i as int]);
            assert(models[i as int] == blocks@[i as int]@);
            assert(models.skip(i as int).skip(1) =~= models.skip(i + 1));
            assert(enc_rest(models.skip(i as int)) == seq![','] + enc_block(models[i as int])
                + enc_rest(models.skip(i + 1)));
            assert(out@ =~= before + seq![','] + enc_block(models[i as int]));
            assert(orig + enc_blocks(models) =~= out@ + enc_rest(models.skip(i + 1)));
        }
        i += 1;
    }
    proof {
        assert(models.skip(blocks@.len() as int) =~= Seq::<BlockModel>::empty());
    }
    out.push(']');
    assert(out@ =~= orig + enc_blocks(models));
}

/// Encode a sequence of blocks into its wire form: the JSON array of block
/// records, exactly [`enc_blocks`] of the blocks.
pub fn encode_blocks(blocks: &Vec<Block>) -> (r: String)
    ensures
        r@ == enc_blocks(chain_models(blocks@)),
{
    let mut out: Vec<char> = Vec::new();
    encode_blocks_into(&mut out, blocks);
    proof {
        assert(Seq::<char>::empty() + enc_blocks(chain_models(blocks@)) =~= enc_blocks(
            chain_models(blocks@),
        ));
    }
    chars_to_string(&out)
}

/// The opening of the whole-chain object served by the query endpoint.
pub open spec fn lit_chain() -> Seq<char> {
    "{\"chain\":"@
}

/// The key before the difficulty value in the whole-chain object.
pub open spec fn lit_difficulty() -> Seq<char> {
    ",\"difficulty\":"@
}

/// The wire form of a whole chain: its block array and its difficulty.
pub open spec fn enc_chain(bs: Seq<BlockModel>, difficulty: usize) -> Seq<char> {
    lit_chain() + enc_blocks(bs) + lit_difficulty() + dec_of(difficulty as nat) + seq!['}']
}

/// Encode a whole chain into the JSON object the query endpoint serves.
pub fn encode_chain(c: &Blockchain) -> (r: String)
    ensures
        r@ == enc_chain(chain_models(c.chain@), c.difficulty),
{
    let mut out: Vec<char> = Vec::new();
    push_str_chars(&mut out, "{\"chain\":");
    encode_blocks_into(&mut out, &c.chain);
    push_str_chars(&mut out, ",\"difficulty\":");
    push_dec(&mut out, c.difficulty as u128);
    out.push('}');
    assert(out@ =~= enc_chain(chain_models(c.chain@), c.difficulty));
    chars_to_string(&out)
}

// ---------------------------------------------------------------------------
// Round trip: decoding an encoding yields the blocks back
// ---------------------------------------------------------------------------
/// A subrange known to equal a concatenation splits into its two halves.
pub proof fn lemma_split(s: Seq<char>, i: int, x: Seq<char>, y: Seq<char>)
    requires
        0 <= i,
        i + x.len() + y.len() <= s.len(),
        s.subrange(i, i + x.len() + y.len()) == x + y,
    ensures
        s.subrange(i, i + x.len()) == x,
        s.subrange(i + x.len(), i + x.len() + y.len()) == y,
{
    assert forall|k: int| 0 <= k < x.len() implies s.subrange(i, i + x.len())[k] == x[k] by {
        assert((x + y)[k] == x[k]);
        assert(s.subrange(i, i + x.len() + y.len())[k] == s[i + k]);
        assert(s.subrange(i, i + x.len())[k] == s[i + k]);
    }
    assert(s.subrange(i, i + x.len()) =~= x);
    assert forall|k: int|
        0 <= k < y.len() implies s.subrange(i + x.len(), i + x.len() + y.len())[k] == y[k] by {
        let m = x.len() + k;
        assert((x + y)[m] == y[k]);
        assert(s.subrange(i, i + x.len() + y.len())[m] == s[i + m]);
        assert(s.subrange(i + x.len(), i + x.len() + y.len())[k] == s[i + m]);
    }
    assert(s.subrange(i + x.len(), i + x.len() + y.len()) =~= y);
}

/// An encoded block record begins with the opening key: at least nine
/// characters, the first an opening brace.
pub proof fn lemma_enc_block_head(b: BlockModel)
    ensures
        enc_block(b).len() >= 9,
        enc_block(b)[0] == '{',
{
    lemma_lits();
    let p1 = lit_obj_index();
    let p2 = p1 + dec_of(b.index as nat);
    let p3 = p2 + lit_timestamp();
    let p4 = p3 + dec_of(b.timestamp as nat);
    let p5 = p4 + lit_data();
    let p6 = p5 + esc(b.data);
    let p7 = p6 + seq!['"'];
    let p8 = p7 + lit_prev();
    let p9 = p8 + esc(b.previous_hash);
    let p10 = p9 + seq!['"'];
    let p11 = p10 + lit_hash();
    let p12 = p11 + esc(b.hash);
    let p13 = p12 + seq!['"'];
    let p14 = p13 + lit_nonce();
    let p15 = p14 + dec_of(b.nonce as nat);
    assert(enc_block(b) == p15 + seq!['}']);
    assert(p2[0] == p1[0]);
    assert(p3[0] == p2[0]);
    assert(p4[0] == p3[0]);
    assert(p5[0] == p4[0]);
    assert(p6[0] == p5[0]);
    assert(p7[0] == p6[0]);
    assert(p8[0] == p7[0]);
    assert(p9[0] == p8[0]);
    assert(p10[0] == p9[0]);
    assert(p11[0] == p10[0]);
    assert(p12[0] == p11[0]);
    assert(p13[0] == p12[0]);
    assert(p14[0] == p13[0]);
    assert(p15[0] == p14[0]);
    assert(enc_block(b)[0] == p15[0]);
}

/// Parsing an embedded encoded block record yields the block back.
pub proof fn lemma_rt_block(s: Seq<char>, i: int, b: BlockModel)
    requires
        0 <= i,
        i + enc_block(b).len() <= s.len(),
        s.subrange(i, i + enc_block(b).len()) == enc_block(b),
    ensures
        spec_parse_block(s, i) == Some((b, i + enc_block(b).len())),
{
    lemma_lits();
    lemma_dec_of_wf(b.index as nat);
    lemma_dec_of_wf(b.timestamp as nat);
    lemma_dec_of_wf(b.nonce as nat);
    let l1 = lit_obj_index();
    let d1 = dec_of(b.index as nat);
    let l2 = lit_timestamp();
    let d2 = dec_of(b.timestamp as nat);
    let l3 = lit_data();
    let e1 = esc(b.data);
    let q = seq!['"'];
    let l4 = lit_prev();
    let e2 = esc(b.previous_hash);
    let l5 = lit_hash();
    let e3 = esc(b.hash);
    let l6 = lit_nonce();
    let d3 = dec_of(b.nonce as nat);
    let cl = seq!['}'];
    let p1 = l1;
    let p2 = p1 + d1;
    let p3 = p2 + l2;
    let p4 = p3 + d2;
    let p5 = p4 + l3;
    let p6 = p5 + e1;
    let p7 = p6 + q;
    let p8 = p7 + l4;
    let p9 = p8 + e2;
    let p10 = p9 + q;
    let p11 = p10 + l5;
    let p12 = p11 + e3;
    let p13 = p12 + q;
    let p14 = p13 + l6;
    let p15 = p14 + d3;
    assert(enc_block(b) == p15 + cl);
    lemma_split(s, i, p15, cl);
    lemma_split(s, i, p14, d3);
    lemma_split(s, i, p13, l6);
    lemma_split(s, i, p12, q);
    lemma_split(s, i, p11, e3);
    lemma_split(s, i, p10, l5);
    lemma_split(s, i, p9, q);
    lemma_split(s, i, p8, e2);
    lemma_split(s, i, p7, l4);
    lemma_split(s, i, p6, q);
    lemma_split(s, i, p5, e1);
    lemma_split(s, i, p4, l3);
    lemma_split(s, i, p3, d2);
    lemma_split(s, i, p2, l2);
    lemma_split(s, i, p1, d1);
    let o1 = i + l1.len();
    let o2 = o1 + d1.len();
    let o3 = o2 + l2.len();
    let o4 = o3 + d2.len();
    let o5 = o4 + l3.len();
    let o6 = o5 + e1.len() + 1;
    let o7 = o6 + l4.len();
    let o8 = o7 + e2.len() + 1;
    let o9 = o8 + l5.len();
    let o10 = o9 + e3.len() + 1;
    let o11 = o10 + l6.len();
    let o12 = o11 + d3.len();
    // the opening key, then the index
    assert(spec_expect(s, i, l1) == Some(o1));
    assert(s[o2] == l2[0]) by {
        assert(s.subrange(o2, o3)[0] == s[o2]);
    }
    assert(!is_digit(',')) by {
        assert(',' as u32 == 44);
    }
    lemma_parse_dec_of(s, o1, b.index as u128);
    // the timestamp
    assert(spec_expect(s, o2, l2) == Some(o3));
    assert(s[o4] == l3[0]) by {
        assert(s.subrange(o4, o5)[0] == s[o4]);
    }
    lemma_parse_dec_of(s, o3, b.timestamp);
    // the payload string
    assert(spec_expect(s, o4, l3) == Some(o5));
    assert(s[o5 + e1.len()] == '"') by {
        assert(s.subrange(o5 + e1.len(), o6)[0] == s[o5 + e1.len()]);
    }
    lemma_parse_esc(s, o5, b.data);
    // the predecessor hash string
    assert(spec_expect(s, o6, l4) == Some(o7));
    assert(s[o7 + e2.len()] == '"') by {
        assert(s.subrange(o7 + e2.len(), o8)[0] == s[o7 + e2.len()]);
    }
    lemma_parse_esc(s, o7, b.previous_hash);
    // the stored hash string
    assert(spec_expect(s, o8, l5) == Some(o9));
    assert(s[o9 + e3.len()] == '"') by {
        assert(s.subrange(o9 + e3.len(), o10)[0] == s[o9 + e3.len()]);
    }
    lemma_parse_esc(s, o9, b.hash);
    // the nonce, then the closing brace
    assert(spec_expect(s, o10, l6) == Some(o11));
    assert(s[o12] == '}') by {
        assert(s.subrange(o12, o12 + 1)[0] == s[o12]);
    }
    assert(!is_digit('}')) by {
        assert('}' as u32 == 125);
    }
    lemma_parse_dec_of(s, o11, b.nonce as u128);
    assert((b.index as u128) as u32 == b.index);
    assert((b.nonce as u128) as u64 == b.nonce);
    assert(spec_parse_block(s, i) == Some((b, o12 + 1)));
}

/// Parsing the embedded encoded tail of a block array yields those blocks
/// back.
pub proof fn lemma_rt_rest(s: Seq<char>, i: int, bs: Seq<BlockModel>)
    requires
        0 <= i,
        i + enc_rest(bs).len() <= s.len(),
        s.subrange(i, i + enc_rest(bs).len()) == enc_rest(bs),
    ensures
        spec_parse_rest(s, i) == Some((bs, i + enc_rest(bs).len())),
    decreases bs.len(),
{
    lemma_lits();
    if bs.len() == 0 {
        assert(s[i] == ']') by {
            assert(s.subrange(i, i + 1)[0] == s[i]);
        }
        assert(bs =~= Seq::<BlockModel>::empty());
    } else {
        let eb = enc_block(bs[0]);
        let er = enc_rest(bs.skip(1));
        let pfx = seq![','] + eb;
        assert(enc_rest(bs) == pfx + er);
        lemma_split(s, i, pfx, er);
        lemma_split(s, i, seq![','], eb);
        assert(s[i] == ',') by {
            assert(s.subrange(i, i + 1)[0] == s[i]);
        }
        assert(',' as u32 == 44 && ']' as u32 == 93);
        lemma_rt_block(s, i + 1, bs[0]);
        let j = i + 1 + eb.len();
        lemma_enc_block_head(bs[0]);
        lemma_rt_rest(s, j, bs.skip(1));
        assert(seq![bs[0]] + bs.skip(1) =~= bs);
    }
}

/// Round trip: the wire form of any sequence of blocks decodes back to
/// exactly that sequence, field for field.
#[verifier::rlimit(100)]
pub proof fn lemma_decode_encode(bs: Seq<BlockModel>)
    ensures
        spec_decode_blocks(enc_blocks(bs)) == Some(bs),
{
    lemma_lits();
    let s = enc_blocks(bs);
    if bs.len() == 0 {
        assert(s =~= seq!['[', ']']);
        assert(bs =~= Seq::<BlockModel>::empty());
    } else {
        let eb = enc_block(bs[0]);
        let er = enc_rest(bs.skip(1));
        assert(s == (seq!['['] + eb) + er);
        assert(s.subrange(0, s.len() as int) =~= s);
        lemma_split(s, 0, seq!['['] + eb, er);
        lemma_split(s, 0, seq!['['], eb);
        assert(s[0] == '[') by {
            assert(s.subrange(0, 1)[0] == s[0]);
        }
        lemma_enc_block_head(bs[0]);
        assert(s[1] == eb[0]) by {
            assert(s.subrange(1, 1 + eb.len() as int)[0] == s[1]);
        }
        assert(s[1] == '{');
        assert('{' as u32 == 123 && ']' as u32 == 93);
        lemma_rt_block(s, 1, bs[0]);
        let j = 1 + eb.len() as int;
        lemma_rt_rest(s, j, bs.skip(1));
        assert(spec_parse_block(s, 1) == Some((bs[0], j)));
        assert(spec_parse_rest(s, j) == Some((bs.skip(1), j + er.len())));
        assert(s.len() == 1 + eb.len() + er.len());
        assert(!(1 < s.len() && s[1] == ']'));
        assert(spec_parse_list(s, 0) == Some((seq![bs[0]] + bs.skip(1), j + er.len())));
        assert(seq![bs[0]] + bs.skip(1) =~= bs);
        assert(j + er.len() == s.len());
    }
}

} // verus!
