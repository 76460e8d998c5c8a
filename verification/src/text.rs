//! Building text and ASCII byte streams: characters, literals, decimal and
//! hexadecimal numbers.
use vstd::prelude::*;
use vstd::string::*;

verus! {

/// Appends one character to a string (calls `String::push`).
#[verifier::external_body]
pub(crate) fn push_char(s: &mut String, c: char)
    ensures
        final(s)@ == old(s)@.push(c),
{
    s.push(c);
}

/// The bytes of an ASCII text, one per character.
pub open spec fn ascii(s: Seq<char>) -> Seq<u8> {
    Seq::new(s.len(), |i: int| s[i] as u8)
}

/// The character of the decimal digit `d` (`d < 10`).
pub open spec fn digit_char(d: nat) -> char {
    (48 + d) as char
}

/// The uppercase hexadecimal digit for `d` (`d < 16`).
pub open spec fn hex_digit(d: nat) -> char {
    if d < 10 {
        (48 + d) as char
    } else {
        (55 + d) as char
    }
}

/// The shortest decimal representation of `n`.
pub open spec fn decimal(n: nat) -> Seq<char>
    decreases n,
{
    if n < 10 {
        seq![digit_char(n)]
    } else {
        decimal(n / 10).push(digit_char(n % 10))
    }
}

/// `n` in decimal, padded on the left with `'0'` to at least `width` characters.
pub open spec fn zero_padded(n: nat, width: nat) -> Seq<char> {
    let d = decimal(n);
    if d.len() < width {
        Seq::new((width - d.len()) as nat, |i: int| '0') + d
    } else {
        d
    }
}

/// A byte as two uppercase hexadecimal digits.
pub open spec fn hex2(b: u8) -> Seq<char> {
    seq![hex_digit((b / 16) as nat), hex_digit((b % 16) as nat)]
}

pub proof fn lemma_ascii_push(s: Seq<char>, c: char)
    ensures
        ascii(s.push(c)) == ascii(s).push(c as u8),
{
    assert(ascii(s.push(c)) =~= ascii(s).push(c as u8));
}

/// Ten to the power `k`.
pub open spec fn pow10(k: nat) -> nat
    decreases k,
{
    if k == 0 {
        1
    } else {
        10 * pow10((k - 1) as nat)
    }
}

/// A number below `10^k` has at most `k` decimal digits.
pub proof fn lemma_decimal_len(n: nat, k: nat)
    requires
        k >= 1,
        n < pow10(k),
    ensures
        1 <= decimal(n).len() <= k,
    decreases n,
{
    if n >= 10 {
        let p = pow10((k - 1) as nat);
        assert(n / 10 < p) by (nonlinear_arith)
            requires
                n < 10 * p,
        ;
        if k == 1 {
            assert(pow10(0) == 1);
        } else {
            lemma_decimal_len(n / 10, (k - 1) as nat);
        }
    }
}

/// Every `u64` has at most twenty decimal digits.
pub proof fn lemma_decimal_len_u64(n: u64)
    ensures
        1 <= decimal(n as nat).len() <= 20,
{
    assert(pow10(20) == 100000000000000000000) by {
        reveal_with_fuel(pow10, 21);
    }
    lemma_decimal_len(n as nat, 20);
}

fn digit_of(d: u64) -> (c: char)
    requires
        d < 10,
    ensures
        c == digit_char(d as nat),
        c as u8 == 48 + d,
{
    let b: u8 = 48u8 + d as u8;
    b as char
}

fn hex_of(d: u8) -> (c: char)
    requires
        d < 16,
    ensures
        c == hex_digit(d as nat),
        c as u8 == (if d < 10 { 48 + d } else { 55 + d }),
{
    if d < 10 {
        (48u8 + d) as char
    } else {
        (55u8 + d) as char
    }
}

/// Appends the decimal representation of `n` to a string.
pub fn push_decimal(s: &mut String, n: u64)
    ensures
        final(s)@ == old(s)@ + decimal(n as nat),
    decreases n,
{
    if n >= 10 {
        push_decimal(s, n / 10);
    }
    let c = digit_of(n % 10);
    push_char(s, c);
    proof {
        if n >= 10 {
            assert(old(s)@ + decimal(n as nat) =~= old(s)@ + decimal((n / 10) as nat) + seq![c]);
        } else {
            assert(old(s)@ + decimal(n as nat) =~= old(s)@.push(c));
        }
    }
}

/// Appends `n` in decimal, left-padded with zeros to `width` characters.
pub fn push_zero_padded(s: &mut String, n: u64, width: usize)
    ensures
        final(s)@ == old(s)@ + zero_padded(n as nat, width as nat),
{
    let mut digits = String::new();
    push_decimal(&mut digits, n);
    let len = digits_len(n);
    let ghost d = decimal(n as nat);
    let mut i: usize = len;
    while i < width
        invariant
            len == d.len(),
            len <= i,
            i == len || i <= width,
            s@ == old(s)@ + Seq::new((i - len) as nat, |k: int| '0'),
            digits@ == d,
        decreases width - i,
    {
        push_char(s, '0');
        proof {
            assert(Seq::new((i + 1 - len) as nat, |k: int| '0') =~= Seq::new(
                (i - len) as nat,
                |k: int| '0',
            ).push('0'));
        }
        i = i + 1;
    }
    s.append(digits.as_str());
    proof {
        if d.len() >= width {
            assert(Seq::new((i - len) as nat, |k: int| '0') =~= Seq::<char>::empty());
            assert(old(s)@ + Seq::<char>::empty() =~= old(s)@);
        }
        assert(s@ =~= old(s)@ + zero_padded(n as nat, width as nat));
    }
}

/// The number of decimal digits of `n`.
pub fn digits_len(n: u64) -> (len: usize)
    ensures
        len == decimal(n as nat).len(),
    decreases n,
{
    proof {
        lemma_decimal_len_u64(n);
    }
    if n < 10 {
        1
    } else {
        let l = digits_len(n / 10);
        l + 1
    }
}

/// Appends the ASCII bytes of the text `t` to `out`.
pub fn push_ascii(out: &mut Vec<u8>, t: &str)
    requires
        is_ascii(t),
    ensures
        final(out)@ == old(out)@ + ascii(t@),
{
    let b = t.as_bytes();
    proof {
        is_ascii_spec_bytes(t);
    }
    let mut i: usize = 0;
    while i < b.len()
        invariant
            b@ == ascii(t@),
            i <= b@.len(),
            out@ == old(out)@ + b@.subrange(0, i as int),
        decreases b@.len() - i,
    {
        out.push(b[i]);
        proof {
            assert(b@.subrange(0, i as int + 1) =~= b@.subrange(0, i as int).push(b@[i as int]));
        }
        i = i + 1;
    }
    proof {
        assert(b@.subrange(0, b@.len() as int) =~= b@);
    }
}

/// Appends the decimal representation of `n` to `out` as ASCII bytes.
pub fn push_decimal_bytes(out: &mut Vec<u8>, n: u64)
    ensures
        final(out)@ == old(out)@ + ascii(decimal(n as nat)),
    decreases n,
{
    if n >= 10 {
        push_decimal_bytes(out, n / 10);
    }
    let c = digit_of(n % 10);
    out.push(48u8 + (n % 10) as u8);
    proof {
        if n >= 10 {
            lemma_ascii_push(decimal((n / 10) as nat), c);
            assert(old(out)@ + ascii(decimal(n as nat)) =~= old(out)@ + ascii(
                decimal((n / 10) as nat),
            ) + seq![c as u8]);
        } else {
            assert(ascii(decimal(n as nat)) =~= seq![c as u8]);
        }
    }
}

/// Appends a byte as two uppercase hexadecimal ASCII digits.
pub fn push_hex2_bytes(out: &mut Vec<u8>, b: u8)
    ensures
        final(out)@ == old(out)@ + ascii(hex2(b)),
{
    let hi = hex_of(b / 16);
    let lo = hex_of(b % 16);
    out.push(hi as u8);
    out.push(lo as u8);
    proof {
        assert(ascii(hex2(b)) =~= seq![hi as u8, lo as u8]);
    }
}

} // verus!
