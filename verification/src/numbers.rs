use vstd::prelude::*;

verus! {

// ---------------------------------------------------------------------------
// Decimal digits
// ---------------------------------------------------------------------------

pub open spec fn is_dec_digit(c: char) -> bool {
    48 <= c as int <= 57
}

pub open spec fn dec_val(c: char) -> int {
    c as int - 48
}

pub open spec fn dec_digit_char(v: int) -> char {
    if v == 0 {
        '0'
    } else if v == 1 {
        '1'
    } else if v == 2 {
        '2'
    } else if v == 3 {
        '3'
    } else if v == 4 {
        '4'
    } else if v == 5 {
        '5'
    } else if v == 6 {
        '6'
    } else if v == 7 {
        '7'
    } else if v == 8 {
        '8'
    } else {
        '9'
    }
}

pub proof fn lemma_dec_digit_char_val(v: int)
    requires
        0 <= v <= 9,
    ensures
        is_dec_digit(dec_digit_char(v)),
        dec_val(dec_digit_char(v)) == v,
{
}

/// The decimal numeral of `n`, most significant digit first, with no sign
/// and no leading zero (a single `'0'` for zero).
pub open spec fn spec_fmt_nat(n: nat) -> Seq<char>
    decreases n,
{
    if n < 10 {
        seq![dec_digit_char(n as int)]
    } else {
        spec_fmt_nat(n / 10).push(dec_digit_char((n % 10) as int))
    }
}

pub proof fn lemma_fmt_nat_len(n: nat)
    ensures
        spec_fmt_nat(n).len() >= 1,
        n >= 10 ==> spec_fmt_nat(n).len() >= 2,
    decreases n,
{
    if n >= 10 {
        lemma_fmt_nat_len(n / 10);
    }
}

/// Distinct numbers have distinct numerals.
pub proof fn lemma_fmt_nat_injective(a: nat, b: nat)
    requires
        spec_fmt_nat(a) == spec_fmt_nat(b),
    ensures
        a == b,
    decreases a + b,
{
    lemma_fmt_nat_len(a);
    lemma_fmt_nat_len(b);
    if a < 10 && b < 10 {
        lemma_dec_digit_char_val(a as int);
        lemma_dec_digit_char_val(b as int);
        assert(spec_fmt_nat(a)[0] == dec_digit_char(a as int));
        assert(spec_fmt_nat(b)[0] == dec_digit_char(b as int));
        assert(spec_fmt_nat(a)[0] == spec_fmt_nat(b)[0]);
    } else if a >= 10 && b >= 10 {
        let sa = spec_fmt_nat(a / 10);
        let sb = spec_fmt_nat(b / 10);
        let pa = sa.push(dec_digit_char((a % 10) as int));
        let pb = sb.push(dec_digit_char((b % 10) as int));
        assert(pa == pb);
        assert(sa.len() == sb.len());
        assert forall|i: int| 0 <= i < sa.len() implies sa[i] == sb[i] by {
            assert(sa[i] == pa[i]);
            assert(sb[i] == pb[i]);
        }
        assert(sa =~= sb);
        lemma_fmt_nat_injective(a / 10, b / 10);
        lemma_dec_digit_char_val((a % 10) as int);
        lemma_dec_digit_char_val((b % 10) as int);
        assert(pa.last() == pb.last());
        assert(a == 10 * (a / 10) + a % 10);
        assert(b == 10 * (b / 10) + b % 10);
    } else {
        // One numeral has a single digit, the other at least two.
        assert(false);
    }
}

fn dec_digit_char_exec(v: u64) -> (c: char)
    requires
        v <= 9,
    ensures
        c == dec_digit_char(v as int),
{
    match v {
        0 => '0',
        1 => '1',
        2 => '2',
        3 => '3',
        4 => '4',
        5 => '5',
        6 => '6',
        7 => '7',
        8 => '8',
        _ => '9',
    }
}

/// Appends the decimal numeral of `n` to `digits`.
pub fn push_dec(digits: &mut Vec<char>, n: u64)
    ensures
        final(digits)@ == old(digits)@ + spec_fmt_nat(n as nat),
    decreases n,
{
    if n < 10 {
        digits.push(dec_digit_char_exec(n));
        assert(final(digits)@ =~= old(digits)@ + spec_fmt_nat(n as nat));
    } else {
        push_dec(digits, n / 10);
        digits.push(dec_digit_char_exec(n % 10));
        assert(final(digits)@ =~= old(digits)@ + spec_fmt_nat(n as nat));
    }
}

// ---------------------------------------------------------------------------
// Decimal parsing
// ---------------------------------------------------------------------------

pub open spec fn all_dec_digits(s: Seq<char>) -> bool {
    forall|i: int| 0 <= i < s.len() ==> is_dec_digit(#[trigger] s[i])
}

/// The value of a sequence of decimal digits, most significant first.
pub open spec fn dec_seq_val(s: Seq<char>) -> int
    decreases s.len(),
{
    if s.len() == 0 {
        0
    } else {
        dec_seq_val(s.drop_last()) * 10 + dec_val(s.last())
    }
}

pub proof fn lemma_dec_seq_val_nonneg(s: Seq<char>)
    requires
        all_dec_digits(s),
    ensures
        dec_seq_val(s) >= 0,
    decreases s.len(),
{
    if s.len() > 0 {
        assert(all_dec_digits(s.drop_last())) by {
            assert(forall|i: int| 0 <= i < s.len() - 1 ==> s.drop_last()[i] == #[trigger] s[i]);
        }
        lemma_dec_seq_val_nonneg(s.drop_last());
    }
}

/// Extending a digit string to the right never shrinks its value.
pub proof fn lemma_dec_seq_val_monotone(s: Seq<char>, i: int)
    requires
        all_dec_digits(s),
        0 <= i <= s.len(),
    ensures
        dec_seq_val(s.take(i)) <= dec_seq_val(s),
    decreases s.len() - i,
{
    if i < s.len() {
        let t = s.take(i + 1);
        assert(t.drop_last() =~= s.take(i));
        assert(all_dec_digits(t)) by {
            assert(forall|j: int| 0 <= j < t.len() ==> t[j] == #[trigger] s[j]);
        }
        assert(all_dec_digits(s.take(i))) by {
            assert(forall|j: int| 0 <= j < i ==> s.take(i)[j] == #[trigger] s[j]);
        }
        lemma_dec_seq_val_nonneg(s.take(i));
        assert(dec_seq_val(t) == dec_seq_val(s.take(i)) * 10 + dec_val(t.last()));
        assert(dec_seq_val(s.take(i)) * 10 >= dec_seq_val(s.take(i))) by (nonlinear_arith)
            requires
                dec_seq_val(s.take(i)) >= 0,
        ;
        assert(dec_seq_val(s.take(i)) <= dec_seq_val(t));
        lemma_dec_seq_val_monotone(s, i + 1);
        assert(s.take(s.len() as int) =~= s);
    } else {
        assert(s.take(i) =~= s);
    }
}

/// Reads an unsigned decimal numeral.  Returns the value exactly when the
/// string is non-empty, all digits, and the value fits in `u64`.
pub fn parse_u64(s: &str) -> (r: Option<u64>)
    ensures
        r is Some <==> s@.len() > 0 && all_dec_digits(s@) && dec_seq_val(s@) <= u64::MAX,
        r is Some ==> r->0 == dec_seq_val(s@),
{
    let n = s.unicode_len();
    if n == 0 {
        return None;
    }
    let mut acc: u64 = 0;
    let mut i: usize = 0;
    while i < n
        invariant
            0 <= i <= n,
            n == s@.len(),
            all_dec_digits(s@.take(i as int)),
            acc == dec_seq_val(s@.take(i as int)),
        decreases n - i,
    {
        let c = s.get_char(i);
        let code = c as u32;
        if code < 48 || code > 57 {
            assert(!is_dec_digit(s@[i as int]));
            return None;
        }
        let d: u64 = (code - 48) as u64;
        assert(is_dec_digit(s@[i as int]) && dec_val(s@[i as int]) == d);
        if acc > (u64::MAX - d) / 10 {
            // The value of the prefix read so far already overflows.
            proof {
                let t = s@.take(i as int + 1);
                assert(t.drop_last() =~= s@.take(i as int));
                assert(all_dec_digits(t)) by {
                    assert(forall|j: int| 0 <= j < t.len() ==> t[j] == #[trigger] s@[j]);
                }
                assert(dec_seq_val(t) == acc * 10 + d);
                let q = (u64::MAX - d) / 10;
                assert(q * 10 + (u64::MAX - d) % 10 == u64::MAX - d);
                assert(acc * 10 >= (q + 1) * 10) by (nonlinear_arith)
                    requires
                        acc >= q + 1,
                ;
                assert((q + 1) * 10 == q * 10 + 10);
                assert(dec_seq_val(t) > u64::MAX);
                if all_dec_digits(s@) {
                    lemma_dec_seq_val_monotone(s@, i as int + 1);
                }
            }
            return None;
        }
        assert(acc * 10 + d <= u64::MAX) by {
            let q = (u64::MAX - d) / 10;
            assert(q * 10 + (u64::MAX - d) % 10 == u64::MAX - d);
            assert(acc * 10 <= q * 10) by (nonlinear_arith)
                requires
                    acc <= q,
            ;
        }
        acc = acc * 10 + d;
        i = i + 1;
        proof {
            let t = s@.take(i as int);
            assert(t.drop_last() =~= s@.take(i as int - 1));
            assert(all_dec_digits(t)) by {
                assert(forall|j: int| 0 <= j < t.len() ==> t[j] == #[trigger] s@[j]);
            }
        }
    }
    assert(s@.take(n as int) =~= s@);
    Some(acc)
}

// ---------------------------------------------------------------------------
// Hexadecimal digits (fixed-width fields of the index artifact)
// ---------------------------------------------------------------------------

pub open spec fn is_hex_digit(c: char) -> bool {
    48 <= c as int <= 57 || 97 <= c as int <= 102
}

pub open spec fn hex_val(c: char) -> int {
    if 48 <= c as int <= 57 {
        c as int - 48
    } else {
        c as int - 87
    }
}

pub open spec fn hex_digit_char(v: int) -> char {
    if v < 10 {
        dec_digit_char(v)
    } else if v == 10 {
        'a'
    } else if v == 11 {
        'b'
    } else if v == 12 {
        'c'
    } else if v == 13 {
        'd'
    } else if v == 14 {
        'e'
    } else {
        'f'
    }
}

pub proof fn lemma_hex_digit_char_val(v: int)
    requires
        0 <= v <= 15,
    ensures
        is_hex_digit(hex_digit_char(v)),
        hex_val(hex_digit_char(v)) == v,
{
}

pub open spec fn pow16(count: nat) -> int
    decreases count,
{
    if count == 0 {
        1
    } else {
        16 * pow16((count - 1) as nat)
    }
}

pub proof fn lemma_pow16_16()
    ensures
        pow16(16) == 0x1_0000_0000_0000_0000,
{
    assert(pow16(0) == 1);
    assert(pow16(1) == 0x10);
    assert(pow16(2) == 0x100);
    assert(pow16(3) == 0x1000);
    assert(pow16(4) == 0x1_0000);
    assert(pow16(5) == 0x10_0000);
    assert(pow16(6) == 0x100_0000);
    assert(pow16(7) == 0x1000_0000);
    assert(pow16(8) == 0x1_0000_0000);
    assert(pow16(9) == 0x10_0000_0000);
    assert(pow16(10) == 0x100_0000_0000);
    assert(pow16(11) == 0x1000_0000_0000);
    assert(pow16(12) == 0x1_0000_0000_0000);
    assert(pow16(13) == 0x10_0000_0000_0000);
    assert(pow16(14) == 0x100_0000_0000_0000);
    assert(pow16(15) == 0x1000_0000_0000_0000);
    assert(pow16(16) == 0x1_0000_0000_0000_0000);
}

/// `n` written as exactly `count` hexadecimal digits, most significant
/// first, zero-padded.
pub open spec fn spec_hex(n: nat, count: nat) -> Seq<char>
    decreases count,
{
    if count == 0 {
        Seq::empty()
    } else {
        spec_hex(n / 16, (count - 1) as nat).push(hex_digit_char((n % 16) as int))
    }
}

pub open spec fn all_hex_digits(s: Seq<char>) -> bool {
    forall|i: int| 0 <= i < s.len() ==> is_hex_digit(#[trigger] s[i])
}

/// The value of a sequence of hexadecimal digits, most significant first.
pub open spec fn hex_seq_val(s: Seq<char>) -> int
    decreases s.len(),
{
    if s.len() == 0 {
        0
    } else {
        hex_seq_val(s.drop_last()) * 16 + hex_val(s.last())
    }
}

pub proof fn lemma_hex_roundtrip(n: nat, count: nat)
    requires
        n < pow16(count),
    ensures
        spec_hex(n, count).len() == count,
        all_hex_digits(spec_hex(n, count)),
        hex_seq_val(spec_hex(n, count)) == n,
    decreases count,
{
    if count > 0 {
        let c1 = (count - 1) as nat;
        assert(pow16(count) == 16 * pow16(c1));
        assert(n / 16 < pow16(c1)) by (nonlinear_arith)
            requires
                n < 16 * pow16(c1),
                n >= 0,
                pow16(c1) >= 0,
        ;
        lemma_hex_roundtrip(n / 16, c1);
        let s = spec_hex(n, count);
        let s0 = spec_hex(n / 16, c1);
        lemma_hex_digit_char_val((n % 16) as int);
        assert(s.drop_last() =~= s0);
        assert(hex_seq_val(s) == hex_seq_val(s0) * 16 + hex_val(s.last()));
        assert(forall|i: int| 0 <= i < s.len() - 1 ==> s[i] == #[trigger] s0[i]);
        assert(n == 16 * (n / 16) + n % 16);
    }
}

pub proof fn lemma_hex_seq_val_bounds(s: Seq<char>)
    requires
        all_hex_digits(s),
    ensures
        0 <= hex_seq_val(s) < pow16(s.len()),
    decreases s.len(),
{
    if s.len() > 0 {
        assert(all_hex_digits(s.drop_last())) by {
            assert(forall|i: int| 0 <= i < s.len() - 1 ==> s.drop_last()[i] == #[trigger] s[i]);
        }
        lemma_hex_seq_val_bounds(s.drop_last());
        let v0 = hex_seq_val(s.drop_last());
        let p0 = pow16((s.len() - 1) as nat);
        assert(v0 * 16 <= (p0 - 1) * 16) by (nonlinear_arith)
            requires
                v0 <= p0 - 1,
        ;
        assert(v0 * 16 >= 0) by (nonlinear_arith)
            requires
                v0 >= 0,
        ;
    }
}

fn hex_digit_char_exec(v: u64) -> (c: char)
    requires
        v <= 15,
    ensures
        c == hex_digit_char(v as int),
{
    match v {
        0 => '0',
        1 => '1',
        2 => '2',
        3 => '3',
        4 => '4',
        5 => '5',
        6 => '6',
        7 => '7',
        8 => '8',
        9 => '9',
        10 => 'a',
        11 => 'b',
        12 => 'c',
        13 => 'd',
        14 => 'e',
        _ => 'f',
    }
}

/// Appends `n` as exactly `count` hexadecimal digits.
pub fn push_hex(out: &mut Vec<char>, n: u64, count: usize)
    ensures
        final(out)@ == old(out)@ + spec_hex(n as nat, count as nat),
    decreases count,
{
    if count == 0 {
        assert(final(out)@ =~= old(out)@ + spec_hex(n as nat, 0));
    } else {
        push_hex(out, n / 16, count - 1);
        out.push(hex_digit_char_exec(n % 16));
        assert(final(out)@ =~= old(out)@ + spec_hex(n as nat, count as nat));
    }
}

/// Reads `16` hexadecimal digits at `pos`, the fixed width of every number
/// field of the index artifact.
pub fn read_hex16(s: &Vec<char>, pos: usize) -> (r: Option<u64>)
    requires
        pos + 16 <= s@.len(),
    ensures
        r is Some <==> all_hex_digits(s@.subrange(pos as int, pos as int + 16)),
        r is Some ==> r->0 == hex_seq_val(s@.subrange(pos as int, pos as int + 16)),
{
    let slen = s.len();
    let mut acc: u64 = 0;
    let mut i: usize = 0;
    proof {
        lemma_pow16_16();
    }
    while i < 16
        invariant
            0 <= i <= 16,
            pos + 16 <= slen,
            slen == s@.len(),
            all_hex_digits(s@.subrange(pos as int, pos as int + i)),
            acc == hex_seq_val(s@.subrange(pos as int, pos as int + i)),
            acc < pow16(i as nat),
            pow16(16) == 0x1_0000_0000_0000_0000,
        decreases 16 - i,
    {
        let c = s[pos + i];
        let d: u64 = match c {
            '0' => 0,
            '1' => 1,
            '2' => 2,
            '3' => 3,
            '4' => 4,
            '5' => 5,
            '6' => 6,
            '7' => 7,
            '8' => 8,
            '9' => 9,
            'a' => 10,
            'b' => 11,
            'c' => 12,
            'd' => 13,
            'e' => 14,
            'f' => 15,
            _ => {
                proof {
                    let t = s@.subrange(pos as int, pos as int + 16);
                    assert(t[i as int] == s@[pos + i]);
                    assert(!is_hex_digit(t[i as int]));
                }
                return None;
            },
        };
        assert(is_hex_digit(s@[pos + i]) && hex_val(s@[pos + i]) == d);
        proof {
            assert(pow16((i + 1) as nat) == 16 * pow16(i as nat));
            assert(acc * 16 + 15 < 16 * pow16(i as nat)) by (nonlinear_arith)
                requires
                    acc < pow16(i as nat),
                    acc >= 0,
            ;
            assert(16 * pow16(i as nat) <= pow16(16)) by {
                lemma_pow16_monotone((i + 1) as nat, 16);
            }
        }
        let next = acc * 16 + d;
        proof {
            let t = s@.subrange(pos as int, pos as int + i + 1);
            assert(t.drop_last() =~= s@.subrange(pos as int, pos as int + i));
            assert(t.last() == s@[pos + i]);
            assert(forall|j: int|
                0 <= j < i ==> t[j] == #[trigger] s@.subrange(pos as int, pos as int + i)[j]);
            let prev = s@.subrange(pos as int, pos as int + i);
            assert(all_hex_digits(t)) by {
                assert(forall|j: int| 0 <= j < t.len() ==> t[j] == #[trigger] s@[pos + j]);
                assert(forall|j: int| 0 <= j < i ==> is_hex_digit(#[trigger] prev[j]));
            }
        }
        acc = next;
        i = i + 1;
    }
    assert(s@.subrange(pos as int, pos as int + 16) =~= s@.subrange(pos as int, pos as int + 16));
    Some(acc)
}

pub proof fn lemma_pow16_monotone(a: nat, b: nat)
    requires
        a <= b,
    ensures
        pow16(a) <= pow16(b),
        pow16(a) >= 1,
    decreases b,
{
    if a == b {
        lemma_pow16_pos(a);
    } else {
        lemma_pow16_monotone(a, (b - 1) as nat);
    }
}

pub proof fn lemma_pow16_pos(a: nat)
    ensures
        pow16(a) >= 1,
    decreases a,
{
    if a > 0 {
        lemma_pow16_pos((a - 1) as nat);
    }
}

}
