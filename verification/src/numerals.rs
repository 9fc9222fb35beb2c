//! Numerals read back: what is written of a number or of bytes tells them
//! apart from all others.

use crate::text::{decimal, digit_char, hex_char, hex_of};
use vstd::prelude::*;

verus! {

/// Value of a character as a digit.
pub open spec fn digit_value(c: char) -> int {
    if '0' <= c && c <= '9' {
        c as int - '0' as int
    } else {
        c as int - 'a' as int + 10
    }
}

/// Value of a decimal numeral, read from its front.
pub open spec fn read_decimal(s: Seq<char>) -> int
    decreases s.len(),
{
    if s.len() == 0 {
        0
    } else {
        10 * read_decimal(s.drop_last()) + digit_value(s.last())
    }
}

/// Decimal numerals read back, are made of digits, and have no leading zero
/// but for zero itself.
pub proof fn decimals_read_back(n: nat)
    ensures
        read_decimal(decimal(n)) == n,
        decimal(n).len() >= 1,
        forall|i: int| 0 <= i < decimal(n).len() ==> '0' <= #[trigger] decimal(n)[i] <= '9',
        n >= 1 ==> decimal(n)[0] != '0',
    decreases n,
{
    let d = (n % 10) as int;
    assert(digit_value(digit_char(d)) == d);
    if n < 10 {
        let s = seq![digit_char(n as int)];
        assert(s.drop_last() =~= Seq::<char>::empty());
        assert(digit_value(digit_char(n as int)) == n);
        assert(read_decimal(Seq::<char>::empty()) == 0);
    } else {
        decimals_read_back(n / 10);
        let (head, s) = (decimal(n / 10), decimal(n));
        assert(s.drop_last() =~= head);
        assert forall|i: int| 0 <= i < s.len() implies '0' <= #[trigger] s[i] <= '9' by {
            if i < head.len() {
                assert(s[i] == head[i]);
            }
        }
    }
}

/// Different numbers have different numerals.
pub proof fn decimals_tell_numbers_apart(m: nat, n: nat)
    requires
        decimal(m) == decimal(n),
    ensures
        m == n,
{
    decimals_read_back(m);
    decimals_read_back(n);
}

/// Bytes read back from their hexadecimal numerals, high half first.
pub proof fn hexadecimals_read_back(bytes: Seq<u8>, i: int)
    requires
        0 <= i < bytes.len(),
    ensures
        hex_of(bytes).len() == 2 * bytes.len(),
        16 * digit_value(hex_of(bytes)[2 * i]) + digit_value(hex_of(bytes)[2 * i + 1]) == bytes[i],
{
    let b = bytes[i] as int;
    lemma_half(b / 16);
    lemma_half(b % 16);
    assert((2 * i) / 2 == i && (2 * i) % 2 == 0 && (2 * i + 1) / 2 == i && (2 * i + 1) % 2 == 1);
}

proof fn lemma_half(v: int)
    requires
        0 <= v < 16,
    ensures
        digit_value(hex_char(v)) == v,
{
}

/// Different bytes have different numerals.
pub proof fn hexadecimals_tell_bytes_apart(a: Seq<u8>, b: Seq<u8>)
    requires
        hex_of(a) == hex_of(b),
    ensures
        a == b,
{
    assert(hex_of(a).len() == 2 * a.len() && hex_of(b).len() == 2 * b.len());
    assert forall|i: int| 0 <= i < a.len() implies a[i] == b[i] by {
        hexadecimals_read_back(a, i);
        hexadecimals_read_back(b, i);
    }
    assert(a =~= b);
}

} // verus!
