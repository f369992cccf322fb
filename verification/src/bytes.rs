//! Byte-string utilities: ASCII case folding, equality and lexicographic
//! order, digit runs, and decimal formatting. File names and paths are byte
//! strings throughout the library.

use vstd::prelude::*;

verus! {

/// Lowercases one ASCII byte; other bytes are unchanged.
pub open spec fn lower_byte(b: u8) -> u8 {
    if 'A' as u8 <= b && b <= 'Z' as u8 {
        (b + 32) as u8
    } else {
        b
    }
}

/// Uppercases one ASCII byte; other bytes are unchanged.
pub open spec fn upper_byte(b: u8) -> u8 {
    if 'a' as u8 <= b && b <= 'z' as u8 {
        (b - 32) as u8
    } else {
        b
    }
}

/// ASCII-lowercases a byte string.
pub open spec fn lower_bytes(s: Seq<u8>) -> Seq<u8> {
    s.map_values(|b: u8| lower_byte(b))
}

/// ASCII-uppercases a byte string.
pub open spec fn upper_bytes(s: Seq<u8>) -> Seq<u8> {
    s.map_values(|b: u8| upper_byte(b))
}

/// Lowercases one ASCII byte.
pub fn to_lower_byte(b: u8) -> (r: u8)
    ensures
        r == lower_byte(b),
{
    if 'A' as u8 <= b && b <= 'Z' as u8 {
        b + 32
    } else {
        b
    }
}

/// Uppercases one ASCII byte.
pub fn to_upper_byte(b: u8) -> (r: u8)
    ensures
        r == upper_byte(b),
{
    if 'a' as u8 <= b && b <= 'z' as u8 {
        b - 32
    } else {
        b
    }
}

/// ASCII-uppercases a byte string.
pub fn to_upper_bytes(s: &[u8]) -> (r: Vec<u8>)
    ensures
        r@ == upper_bytes(s@),
{
    let mut out: Vec<u8> = Vec::new();
    let mut i: usize = 0;
    while i < s.len()
        invariant
            i <= s@.len(),
            out@ =~= upper_bytes(s@.take(i as int)),
        decreases s@.len() - i,
    {
        out.push(to_upper_byte(s[i]));
        i = i + 1;
        proof {
            assert(s@.take(i as int) =~= s@.take(i as int - 1).push(s@[i as int - 1]));
        }
    }
    proof {
        assert(s@.take(s@.len() as int) =~= s@);
    }
    out
}

/// Byte strings are equal.
pub fn bytes_eq(a: &[u8], b: &[u8]) -> (r: bool)
    ensures
        r == (a@ == b@),
{
    if a.len() != b.len() {
        proof {
            assert(a@ != b@);
        }
        return false;
    }
    let mut i: usize = 0;
    while i < a.len()
        invariant
            a@.len() == b@.len(),
            i <= a@.len(),
            forall|j: int| 0 <= j < i ==> a@[j] == b@[j],
        decreases a@.len() - i,
    {
        if a[i] != b[i] {
            proof {
                assert(a@ != b@);
            }
            return false;
        }
        i = i + 1;
    }
    proof {
        assert(a@ =~= b@);
    }
    true
}

/// `ext` appears ASCII-case-insensitively as a suffix of `name`.
pub open spec fn ends_with_ci(name: Seq<u8>, ext: Seq<u8>) -> bool {
    name.len() >= ext.len() && lower_bytes(
        name.subrange(name.len() - ext.len(), name.len() as int),
    ) == ext
}

/// Case-insensitive suffix test; `ext` is expected in lowercase.
pub fn has_suffix_ci(name: &[u8], ext: &[u8]) -> (r: bool)
    ensures
        r == ends_with_ci(name@, ext@),
{
    if name.len() < ext.len() {
        return false;
    }
    let start: usize = name.len() - ext.len();
    let mut i: usize = 0;
    let mut j: usize = start;
    while i < ext.len()
        invariant
            start == name@.len() - ext@.len(),
            j == start + i,
            i <= ext@.len(),
            forall|k: int| 0 <= k < i ==> lower_byte(name@[start + k]) == ext@[k],
        decreases ext@.len() - i,
    {
        if to_lower_byte(name[j]) != ext[i] {
            proof {
                let tail = name@.subrange(name@.len() - ext@.len(), name@.len() as int);
                assert(lower_bytes(tail)[i as int] == lower_byte(name@[start + i]));
            }
            return false;
        }
        i = i + 1;
        j = j + 1;
    }
    proof {
        let tail = name@.subrange(name@.len() - ext@.len(), name@.len() as int);
        assert(lower_bytes(tail) =~= ext@);
    }
    true
}

/// Strict lexicographic order on byte strings, with the usual prefix rule:
/// a proper prefix comes first.
pub open spec fn lex_lt(a: Seq<u8>, b: Seq<u8>) -> bool
    decreases a.len(),
{
    if b.len() == 0 {
        false
    } else if a.len() == 0 {
        true
    } else if a[0] < b[0] {
        true
    } else if a[0] > b[0] {
        false
    } else {
        lex_lt(a.drop_first(), b.drop_first())
    }
}

/// Reflexive lexicographic order on byte strings.
pub open spec fn lex_le(a: Seq<u8>, b: Seq<u8>) -> bool {
    lex_lt(a, b) || a == b
}

/// Lexicographic order is irreflexive.
pub proof fn lemma_lex_lt_irreflexive(a: Seq<u8>)
    ensures
        !lex_lt(a, a),
    decreases a.len(),
{
    if a.len() > 0 {
        lemma_lex_lt_irreflexive(a.drop_first());
    }
}

/// Any two byte strings are ordered one way or the other.
pub proof fn lemma_lex_lt_total(a: Seq<u8>, b: Seq<u8>)
    ensures
        lex_lt(a, b) || lex_lt(b, a) || a =~= b,
    decreases a.len(),
{
    if a.len() == 0 || b.len() == 0 {
    } else if a[0] == b[0] {
        lemma_lex_lt_total(a.drop_first(), b.drop_first());
        if a.drop_first() =~= b.drop_first() {
            assert forall|k: int| 0 <= k < a.len() implies a[k] == b[k] by {
                if k > 0 {
                    assert(a[k] == a.drop_first()[k - 1]);
                    assert(b[k] == b.drop_first()[k - 1]);
                }
            }
            assert(a =~= b);
        }
    }
}

/// Lexicographic order is transitive.
pub proof fn lemma_lex_lt_transitive(a: Seq<u8>, b: Seq<u8>, c: Seq<u8>)
    requires
        lex_lt(a, b),
        lex_lt(b, c),
    ensures
        lex_lt(a, c),
    decreases a.len(),
{
    if b.len() == 0 || c.len() == 0 {
    } else if a.len() == 0 {
    } else {
        if a[0] == b[0] && b[0] == c[0] {
            lemma_lex_lt_transitive(a.drop_first(), b.drop_first(), c.drop_first());
        }
    }
}

/// Lexicographic comparison of byte strings.
pub fn bytes_lt(a: &[u8], b: &[u8]) -> (r: bool)
    ensures
        r == lex_lt(a@, b@),
{
    let mut i: usize = 0;
    proof {
        assert(a@.skip(0) =~= a@);
        assert(b@.skip(0) =~= b@);
    }
    loop
        invariant
            i <= a@.len(),
            i <= b@.len(),
            forall|j: int| 0 <= j < i ==> a@[j] == b@[j],
            lex_lt(a@, b@) == lex_lt(a@.skip(i as int), b@.skip(i as int)),
        decreases a@.len() - i,
    {
        if i == b.len() {
            proof {
                assert(b@.skip(i as int).len() == 0);
            }
            return false;
        }
        if i == a.len() {
            proof {
                assert(a@.skip(i as int).len() == 0);
                assert(b@.skip(i as int).len() > 0);
            }
            return true;
        }
        let ca = a[i];
        let cb = b[i];
        proof {
            assert(a@.skip(i as int)[0] == a@[i as int]);
            assert(b@.skip(i as int)[0] == b@[i as int]);
        }
        if ca < cb {
            return true;
        }
        if ca > cb {
            return false;
        }
        proof {
            assert(a@.skip(i as int).drop_first() =~= a@.skip(i as int + 1));
            assert(b@.skip(i as int).drop_first() =~= b@.skip(i as int + 1));
        }
        i = i + 1;
    }
}

/// The byte is an ASCII decimal digit.
pub open spec fn is_digit(b: u8) -> bool {
    '0' as u8 <= b && b <= '9' as u8
}

/// Numeric value of a run of ASCII digits, most significant first.
pub open spec fn digits_value(s: Seq<u8>) -> nat
    decreases s.len(),
{
    if s.len() == 0 {
        0
    } else {
        digits_value(s.drop_last()) * 10 + (s.last() - '0' as u8) as nat
    }
}

/// Appending digits never lowers the value of a digit run whose prefix is
/// already positive.
pub proof fn lemma_digits_value_prefix(s: Seq<u8>, i: int)
    requires
        0 <= i <= s.len(),
    ensures
        digits_value(s.take(i)) <= 1 ==> digits_value(s.take(i)) <= digits_value(s) + 1,
        digits_value(s.take(i)) >= 1 ==> digits_value(s.take(i)) <= digits_value(s),
    decreases s.len() - i,
{
    if i < s.len() {
        assert(s.take(i + 1).drop_last() =~= s.take(i));
        assert(digits_value(s.take(i + 1)) == digits_value(s.take(i)) * 10 + (s.take(i + 1).last()
            - '0' as u8) as nat);
        lemma_digits_value_prefix(s, i + 1);
    } else {
        assert(s.take(i) =~= s);
    }
}

/// Parses a run of ASCII digits as a `u32`; `None` when the value does not
/// fit.
pub fn parse_digits_u32(s: &[u8], from: usize, to: usize) -> (r: Option<u32>)
    requires
        from <= to <= s@.len(),
        forall|j: int| from <= j < to ==> is_digit(s@[j]),
    ensures
        match r {
            Some(v) => v as nat == digits_value(s@.subrange(from as int, to as int)),
            None => digits_value(s@.subrange(from as int, to as int)) > u32::MAX,
        },
{
    let ghost run = s@.subrange(from as int, to as int);
    let mut acc: u64 = 0;
    let mut i: usize = from;
    while i < to
        invariant
            from <= i <= to <= s@.len(),
            run == s@.subrange(from as int, to as int),
            forall|j: int| from <= j < to ==> is_digit(s@[j]),
            acc as nat == digits_value(run.take(i - from)),
            acc <= u32::MAX,
        decreases to - i,
    {
        let d: u8 = s[i] - '0' as u8;
        proof {
            assert(run.take(i - from + 1).drop_last() =~= run.take(i - from));
            assert(run.take(i - from + 1).last() == s@[i as int]);
        }
        acc = acc * 10 + (d as u64);
        i = i + 1;
        if acc > u32::MAX as u64 {
            proof {
                lemma_digits_value_prefix(run, i - from);
                assert(run.take(run.len() as int) =~= run);
            }
            return None;
        }
    }
    proof {
        assert(run.take(run.len() as int) =~= run);
    }
    Some(acc as u32)
}

/// Decimal digits of `n`, most significant first, without leading zeros
/// (a single `0` for zero).
pub open spec fn dec_digits(n: nat) -> Seq<u8>
    decreases n,
{
    if n < 10 {
        seq![(n + '0' as u8) as u8]
    } else {
        dec_digits(n / 10).push((n % 10 + '0' as u8) as u8)
    }
}

/// Decimal digits of `n`, zero-padded on the left to at least `width` digits.
pub open spec fn dec_padded(n: nat, width: nat) -> Seq<u8> {
    if dec_digits(n).len() >= width {
        dec_digits(n)
    } else {
        Seq::new((width - dec_digits(n).len()) as nat, |i: int| '0' as u8) + dec_digits(n)
    }
}

/// Powers of ten.
pub open spec fn pow10(k: nat) -> nat
    decreases k,
{
    if k == 0 {
        1
    } else {
        10 * pow10((k - 1) as nat)
    }
}

/// A run of `k` digits is worth less than `10^k`.
pub proof fn lemma_digits_value_bound(s: Seq<u8>)
    requires
        forall|j: int| 0 <= j < s.len() ==> is_digit(#[trigger] s[j]),
    ensures
        digits_value(s) < pow10(s.len()),
    decreases s.len(),
{
    if s.len() > 0 {
        lemma_digits_value_bound(s.drop_last());
        assert(pow10(s.len()) == 10 * pow10((s.len() - 1) as nat));
        assert((s.last() - '0' as u8) as nat <= 9);
    }
}

proof fn lemma_pow10_10()
    ensures
        pow10(10) == 10000000000,
{
    assert(pow10(0) == 1);
    assert(pow10(1) == 10);
    assert(pow10(2) == 100);
    assert(pow10(3) == 1000);
    assert(pow10(4) == 10000);
    assert(pow10(5) == 100000);
    assert(pow10(6) == 1000000);
    assert(pow10(7) == 10000000);
    assert(pow10(8) == 100000000);
    assert(pow10(9) == 1000000000);
    assert(pow10(10) == 10000000000);
}

proof fn lemma_dec_digits_len_bound(n: nat, k: nat)
    requires
        k >= 1,
        n < pow10(k),
    ensures
        dec_digits(n).len() <= k,
    decreases n,
{
    if n >= 10 {
        assert(pow10(0) == 1);
        assert(pow10(k) == 10 * pow10((k - 1) as nat));
        lemma_dec_digits_len_bound(n / 10, (k - 1) as nat);
    }
}

/// Appends the decimal digits of `n` to `out`, most significant first.
fn push_digits(out: &mut Vec<u8>, n: u32)
    ensures
        final(out)@ == old(out)@ + dec_digits(n as nat),
    decreases n,
{
    if n < 10 {
        out.push(n as u8 + '0' as u8);
        proof {
            assert(out@ =~= old(out)@ + dec_digits(n as nat));
        }
    } else {
        push_digits(out, n / 10);
        out.push((n % 10) as u8 + '0' as u8);
        proof {
            assert(out@ =~= old(out)@ + dec_digits(n as nat));
        }
    }
}

/// Number of decimal digits of `n`.
fn num_digits(n: u32) -> (c: usize)
    ensures
        c == dec_digits(n as nat).len(),
        1 <= c <= 10,
    decreases n,
{
    proof {
        lemma_pow10_10();
        lemma_dec_digits_len_bound(n as nat, 10);
    }
    if n < 10 {
        1
    } else {
        let c: usize = num_digits(n / 10);
        c + 1
    }
}

/// Writes `n` in decimal, zero-padded on the left to at least `width` digits,
/// appending to `out`.
pub fn push_decimal(out: &mut Vec<u8>, n: u32, width: usize) -> (nothing: ())
    ensures
        final(out)@ == old(out)@ + dec_padded(n as nat, width as nat),
{
    let nd: usize = num_digits(n);
    if width > nd {
        let mut pad: usize = width - nd;
        while pad > 0
            invariant
                pad <= width - nd,
                nd == dec_digits(n as nat).len(),
                out@ =~= old(out)@ + Seq::new((width - nd - pad) as nat, |i: int| '0' as u8),
            decreases pad,
        {
            out.push('0' as u8);
            pad = pad - 1;
            proof {
                assert(out@ =~= old(out)@ + Seq::new(
                    (width - nd - pad) as nat,
                    |i: int| '0' as u8,
                ));
            }
        }
    }
    push_digits(out, n);
    proof {
        assert(out@ =~= old(out)@ + dec_padded(n as nat, width as nat));
    }
}

/// Copies a byte string.
pub fn clone_bytes(v: &Vec<u8>) -> (r: Vec<u8>)
    ensures
        r@ == v@,
{
    let r = v.clone();
    proof {
        assert forall|i: int| 0 <= i < v@.len() implies r@[i] == v@[i] by {
            assert(vstd::pervasive::cloned::<u8>(v@[i], r@[i]));
        }
        assert(r@ =~= v@);
    }
    r
}

/// Appends all of `src` to `out`.
pub fn push_bytes(out: &mut Vec<u8>, src: &[u8]) -> (nothing: ())
    ensures
        final(out)@ == old(out)@ + src@,
{
    let mut i: usize = 0;
    while i < src.len()
        invariant
            i <= src@.len(),
            out@ =~= old(out)@ + src@.take(i as int),
        decreases src@.len() - i,
    {
        out.push(src[i]);
        i = i + 1;
        proof {
            assert(out@ =~= old(out)@ + src@.take(i as int));
        }
    }
    proof {
        assert(src@.take(src@.len() as int) =~= src@);
    }
}

} // verus!
