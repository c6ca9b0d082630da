//! Crockford base32 encoding of the 128-bit time-sortable record
//! identifier, as it is written on the wire: 26 digits, most
//! significant first, over the alphabet `0123456789ABCDEFGHJKMNPQRSTVWXYZ`.
//! Since 26 digits hold 130 bits, the first digit of a 128-bit value
//! is always below 8; the decoder checks that, and accepts exactly
//! the canonical spellings.

use vstd::arithmetic::div_mod::lemma_div_denominator;
use vstd::arithmetic::div_mod::lemma_basic_div;
use vstd::arithmetic::div_mod::lemma_fundamental_div_mod;
use vstd::arithmetic::div_mod::lemma_multiply_divide_lt;
use vstd::arithmetic::power::lemma_pow_increases;
use vstd::arithmetic::power::lemma_pow_positive;
use vstd::arithmetic::power::pow;
use vstd::prelude::*;

verus! {

/// The power of 32 with the given exponent.
pub open spec fn pow32(n: nat) -> int {
    pow(32, n)
}

/// The base32 digit with value `d`.
pub open spec fn crock_char(d: int) -> char {
    if d == 0 {
        '0'
    } else if d == 1 {
        '1'
    } else if d == 2 {
        '2'
    } else if d == 3 {
        '3'
    } else if d == 4 {
        '4'
    } else if d == 5 {
        '5'
    } else if d == 6 {
        '6'
    } else if d == 7 {
        '7'
    } else if d == 8 {
        '8'
    } else if d == 9 {
        '9'
    } else if d == 10 {
        'A'
    } else if d == 11 {
        'B'
    } else if d == 12 {
        'C'
    } else if d == 13 {
        'D'
    } else if d == 14 {
        'E'
    } else if d == 15 {
        'F'
    } else if d == 16 {
        'G'
    } else if d == 17 {
        'H'
    } else if d == 18 {
        'J'
    } else if d == 19 {
        'K'
    } else if d == 20 {
        'M'
    } else if d == 21 {
        'N'
    } else if d == 22 {
        'P'
    } else if d == 23 {
        'Q'
    } else if d == 24 {
        'R'
    } else if d == 25 {
        'S'
    } else if d == 26 {
        'T'
    } else if d == 27 {
        'V'
    } else if d == 28 {
        'W'
    } else if d == 29 {
        'X'
    } else if d == 30 {
        'Y'
    } else if d == 31 {
        'Z'
    } else {
        '?'
    }
}

/// The value of a base32 digit, or a negative number for any other
/// character.
pub open spec fn crock_val(c: char) -> int {
    if c == '0' {
        0
    } else if c == '1' {
        1
    } else if c == '2' {
        2
    } else if c == '3' {
        3
    } else if c == '4' {
        4
    } else if c == '5' {
        5
    } else if c == '6' {
        6
    } else if c == '7' {
        7
    } else if c == '8' {
        8
    } else if c == '9' {
        9
    } else if c == 'A' {
        10
    } else if c == 'B' {
        11
    } else if c == 'C' {
        12
    } else if c == 'D' {
        13
    } else if c == 'E' {
        14
    } else if c == 'F' {
        15
    } else if c == 'G' {
        16
    } else if c == 'H' {
        17
    } else if c == 'J' {
        18
    } else if c == 'K' {
        19
    } else if c == 'M' {
        20
    } else if c == 'N' {
        21
    } else if c == 'P' {
        22
    } else if c == 'Q' {
        23
    } else if c == 'R' {
        24
    } else if c == 'S' {
        25
    } else if c == 'T' {
        26
    } else if c == 'V' {
        27
    } else if c == 'W' {
        28
    } else if c == 'X' {
        29
    } else if c == 'Y' {
        30
    } else if c == 'Z' {
        31
    } else {
        -1
    }
}

/// The canonical 26-digit spelling of a 128-bit identifier.
pub open spec fn ulid_chars(x: u128) -> Seq<char> {
    Seq::new(26, |i: int| crock_char((x as int / pow32((25 - i) as nat)) % 32))
}

/// The value a digit sequence spells, most significant digit first.
pub open spec fn ulid_val(s: Seq<char>) -> int
    decreases s.len(),
{
    if s.len() == 0 {
        0
    } else {
        ulid_val(s.drop_last()) * 32 + crock_val(s.last())
    }
}

/// Is true when the sequence is a canonical identifier spelling:
/// 26 base32 digits whose first digit is below 8.
pub open spec fn valid_ulid_chars(s: Seq<char>) -> bool {
    &&& s.len() == 26
    &&& forall|i: int| 0 <= i < 26 ==> crock_val(#[trigger] s[i]) >= 0
    &&& crock_val(s[0]) < 8
}

/// One more digit multiplies the power by the base.
pub proof fn lemma_pow32_step(e: nat)
    ensures
        pow32((e + 1) as nat) == 32 * pow32(e),
{
    vstd::arithmetic::power::lemma_pow1(32);
    vstd::arithmetic::power::lemma_pow_adds(32, e, 1);
}

/// The powers of 32 up to the 25th, as numbers.
pub proof fn lemma_pow32_table()
    ensures
        pow32(25) == 42535295865117307932921825928971026432,
        8 * pow32(25) == 0x100000000000000000000000000000000,
{
    assert(pow32(0) == 1) by {
        vstd::arithmetic::power::lemma_pow0(32);
    }
    lemma_pow32_step(0);
    assert(pow32(1) == 32 * pow32(0));
    assert(pow32(1) == 32);
    lemma_pow32_step(1);
    assert(pow32(2) == 32 * pow32(1));
    assert(pow32(2) == 1024);
    lemma_pow32_step(2);
    assert(pow32(3) == 32 * pow32(2));
    assert(pow32(3) == 32768);
    lemma_pow32_step(3);
    assert(pow32(4) == 32 * pow32(3));
    assert(pow32(4) == 1048576);
    lemma_pow32_step(4);
    assert(pow32(5) == 32 * pow32(4));
    assert(pow32(5) == 33554432);
    lemma_pow32_step(5);
    assert(pow32(6) == 32 * pow32(5));
    assert(pow32(6) == 1073741824);
    lemma_pow32_step(6);
    assert(pow32(7) == 32 * pow32(6));
    assert(pow32(7) == 34359738368);
    lemma_pow32_step(7);
    assert(pow32(8) == 32 * pow32(7));
    assert(pow32(8) == 1099511627776);
    lemma_pow32_step(8);
    assert(pow32(9) == 32 * pow32(8));
    assert(pow32(9) == 35184372088832);
    lemma_pow32_step(9);
    assert(pow32(10) == 32 * pow32(9));
    assert(pow32(10) == 1125899906842624);
    lemma_pow32_step(10);
    assert(pow32(11) == 32 * pow32(10));
    assert(pow32(11) == 36028797018963968);
    lemma_pow32_step(11);
    assert(pow32(12) == 32 * pow32(11));
    assert(pow32(12) == 1152921504606846976);
    lemma_pow32_step(12);
    assert(pow32(13) == 32 * pow32(12));
    assert(pow32(13) == 36893488147419103232);
    lemma_pow32_step(13);
    assert(pow32(14) == 32 * pow32(13));
    assert(pow32(14) == 1180591620717411303424);
    lemma_pow32_step(14);
    assert(pow32(15) == 32 * pow32(14));
    assert(pow32(15) == 37778931862957161709568);
    lemma_pow32_step(15);
    assert(pow32(16) == 32 * pow32(15));
    assert(pow32(16) == 1208925819614629174706176);
    lemma_pow32_step(16);
    assert(pow32(17) == 32 * pow32(16));
    assert(pow32(17) == 38685626227668133590597632);
    lemma_pow32_step(17);
    assert(pow32(18) == 32 * pow32(17));
    assert(pow32(18) == 1237940039285380274899124224);
    lemma_pow32_step(18);
    assert(pow32(19) == 32 * pow32(18));
    assert(pow32(19) == 39614081257132168796771975168);
    lemma_pow32_step(19);
    assert(pow32(20) == 32 * pow32(19));
    assert(pow32(20) == 1267650600228229401496703205376);
    lemma_pow32_step(20);
    assert(pow32(21) == 32 * pow32(20));
    assert(pow32(21) == 40564819207303340847894502572032);
    lemma_pow32_step(21);
    assert(pow32(22) == 32 * pow32(21));
    assert(pow32(22) == 1298074214633706907132624082305024);
    lemma_pow32_step(22);
    assert(pow32(23) == 32 * pow32(22));
    assert(pow32(23) == 41538374868278621028243970633760768);
    lemma_pow32_step(23);
    assert(pow32(24) == 32 * pow32(23));
    assert(pow32(24) == 1329227995784915872903807060280344576);
    lemma_pow32_step(24);
    assert(pow32(25) == 32 * pow32(24));
    assert(pow32(25) == 42535295865117307932921825928971026432);
}

/// The digit with value `d`.
fn crock_char_of(d: u8) -> (r: char)
    requires
        d < 32,
    ensures
        r == crock_char(d as int),
{
    match d {
        0 => '0',
        1 => '1',
        2 => '2',
        3 => '3',
        4 => '4',
        5 => '5',
        6 => '6',
        7 => '7',
        8 => '8',
        9 => '9',
        10 => 'A',
        11 => 'B',
        12 => 'C',
        13 => 'D',
        14 => 'E',
        15 => 'F',
        16 => 'G',
        17 => 'H',
        18 => 'J',
        19 => 'K',
        20 => 'M',
        21 => 'N',
        22 => 'P',
        23 => 'Q',
        24 => 'R',
        25 => 'S',
        26 => 'T',
        27 => 'V',
        28 => 'W',
        29 => 'X',
        30 => 'Y',
        31 => 'Z',
        _ => '?',
    }
}

/// The value of a digit, if the character is one.
fn crock_digit(c: char) -> (r: Option<u8>)
    ensures
        crock_val(c) >= 0 ==> r == Some(crock_val(c) as u8),
        crock_val(c) < 0 ==> r is None,
{
    match c {
        '0' => Some(0),
        '1' => Some(1),
        '2' => Some(2),
        '3' => Some(3),
        '4' => Some(4),
        '5' => Some(5),
        '6' => Some(6),
        '7' => Some(7),
        '8' => Some(8),
        '9' => Some(9),
        'A' => Some(10),
        'B' => Some(11),
        'C' => Some(12),
        'D' => Some(13),
        'E' => Some(14),
        'F' => Some(15),
        'G' => Some(16),
        'H' => Some(17),
        'J' => Some(18),
        'K' => Some(19),
        'M' => Some(20),
        'N' => Some(21),
        'P' => Some(22),
        'Q' => Some(23),
        'R' => Some(24),
        'S' => Some(25),
        'T' => Some(26),
        'V' => Some(27),
        'W' => Some(28),
        'X' => Some(29),
        'Y' => Some(30),
        'Z' => Some(31),
        _ => None,
    }
}

/// Every digit reads back as its value.
pub proof fn lemma_crock_round_trip()
    ensures
        forall|d: int| 0 <= d < 32 ==> crock_val(#[trigger] crock_char(d)) == d,
{
}

/// Writes the canonical 26-digit spelling of an identifier.
pub fn encode_ulid(x: u128) -> (r: Vec<char>)
    ensures
        r@ == ulid_chars(x),
{
    let mut out: Vec<char> = Vec::new();
    let mut t: usize = 0;
    while t < 26
        invariant
            0 <= t <= 26,
            out@.len() == t,
        decreases 26 - t,
    {
        out.push('0');
        t = t + 1;
    }
    proof {
        vstd::arithmetic::power::lemma_pow0(32);
        vstd::arithmetic::div_mod::lemma_div_basics(x as int);
    }
    let mut cur: u128 = x;
    let mut j: usize = 0;
    while j < 26
        invariant
            0 <= j <= 26,
            out@.len() == 26,
            cur as int == x as int / pow32(j as nat),
            forall|i: int|
                26 - j <= i < 26 ==> out@[i] == crock_char(
                    (x as int / pow32((25 - i) as nat)) % 32,
                ),
        decreases 26 - j,
    {
        proof {
            lemma_pow_positive(32, j as nat);
            assert(cur % 32 < 32);
        }
        let d: u8 = (cur % 32) as u8;
        let ch = crock_char_of(d);
        let pos = 25 - j;
        out[pos] = ch;
        proof {
            lemma_pow_positive(32, j as nat);
            lemma_div_denominator(x as int, pow32(j as nat), 32);
            lemma_pow32_step(j as nat);
            assert(pow32((j + 1) as nat) == 32 * pow32(j as nat));
            assert((x as int / pow32(j as nat)) / 32 == x as int / pow32((j + 1) as nat));
            assert(out@[pos as int] == crock_char((x as int / pow32((25 - pos) as nat)) % 32));
        }
        cur = cur / 32;
        j = j + 1;
    }
    proof {
        assert(out@ =~= ulid_chars(x));
    }
    out
}

/// Reads a canonical 26-digit spelling back into an identifier;
/// anything else — wrong length, a foreign character, a first digit
/// of 8 or more — reads as nothing.
pub fn decode_ulid(v: &Vec<char>) -> (r: Option<u128>)
    ensures
        valid_ulid_chars(v@) ==> r == Some(ulid_val(v@) as u128),
        !valid_ulid_chars(v@) ==> r is None,
{
    if v.len() != 26 {
        return None;
    }
    proof {
        lemma_pow32_table();
    }
    let mut acc: u128 = 0;
    let mut i: usize = 0;
    while i < 26
        invariant
            v@.len() == 26,
            0 <= i <= 26,
            forall|a: int| 0 <= a < i ==> crock_val(#[trigger] v@[a]) >= 0,
            i > 0 ==> crock_val(v@[0]) < 8,
            acc as int == ulid_val(v@.take(i as int)),
            i > 0 ==> ((acc as int) < 8 * pow32((i - 1) as nat)),
            pow32(25) == 42535295865117307932921825928971026432,
            8 * pow32(25) == 0x100000000000000000000000000000000,
        decreases 26 - i,
    {
        let c = v[i];
        let d: u8 = match crock_digit(c) {
            Some(d) => d,
            None => {
                return None;
            },
        };
        if i == 0 && d >= 8 {
            return None;
        }
        proof {
            if i > 0 {
                lemma_pow_positive(32, (i - 1) as nat);
                lemma_pow_increases(32, (i - 1) as nat, 24);
                lemma_pow32_step(24);
    assert(pow32(25) == 32 * pow32(24));
                assert((acc as int) * 32 + d < 8 * (32 * pow32((i - 1) as nat))) by (nonlinear_arith)
                    requires
                        (acc as int) < 8 * pow32((i - 1) as nat),
                        d < 32,
                        pow32((i - 1) as nat) >= 1,
                {
                }
                lemma_pow32_step((i - 1) as nat);
                assert(pow32(i as nat) == 32 * pow32((i - 1) as nat));
                assert(8 * pow32(i as nat) <= 8 * (32 * pow32(24))) by (nonlinear_arith)
                    requires
                        pow32(i as nat) <= 32 * pow32(24),
                {
                }
            }
        }
        let ghost old_acc = acc;
        acc = acc * 32 + (d as u128);
        i = i + 1;
        proof {
            assert(v@.take(i as int).drop_last() =~= v@.take(i as int - 1));
            assert(v@.take(i as int).last() == v@[i as int - 1]);
            assert(acc as int == ulid_val(v@.take(i as int)));
            if i == 1 {
                assert(pow32(0) == 1) by {
                    vstd::arithmetic::power::lemma_pow0(32);
                }
                assert((acc as int) < 8 * pow32(0));
            }
        }
    }
    proof {
        assert(v@.take(26) =~= v@);
    }
    Some(acc)
}

/// A value's canonical spelling is valid and reads back as the value.
pub proof fn lemma_ulid_round_trip(x: u128)
    ensures
        valid_ulid_chars(ulid_chars(x)),
        ulid_val(ulid_chars(x)) == x,
{
    lemma_pow32_table();
    lemma_crock_round_trip();
    let s = ulid_chars(x);
    assert forall|i: int| 0 <= i < 26 implies crock_val(#[trigger] s[i]) >= 0 by {
        lemma_pow_positive(32, (25 - i) as nat);
        let d = (x as int / pow32((25 - i) as nat)) % 32;
        assert(0 <= d < 32);
        assert(crock_val(crock_char(d)) == d);
    }
    assert(crock_val(s[0]) < 8) by {
        lemma_multiply_divide_lt(x as int, pow32(25), 8);
        let d = (x as int / pow32(25)) % 32;
        assert(x as int / pow32(25) < 8);
        vstd::arithmetic::div_mod::lemma_mod_division_less_than_divisor(x as int / pow32(25), 32);
        assert(0 <= x as int / pow32(25));
        assert(d == x as int / pow32(25));
        assert(crock_val(crock_char(d)) == d);
    }
    lemma_ulid_val_prefix(x, 26);
    assert(ulid_chars(x).take(26) =~= ulid_chars(x));
    assert(pow32(0) == 1) by {
        vstd::arithmetic::power::lemma_pow0(32);
    }
}

/// The first `k` digits of a canonical spelling read as the value
/// shifted down by the remaining digits.
proof fn lemma_ulid_val_prefix(x: u128, k: int)
    requires
        0 <= k <= 26,
    ensures
        ulid_val(ulid_chars(x).take(k)) == x as int / pow32((26 - k) as nat),
    decreases k,
{
    lemma_pow32_table();
    lemma_crock_round_trip();
    if k == 0 {
        assert(ulid_chars(x).take(0) =~= Seq::<char>::empty());
        lemma_pow32_step(25);
    assert(pow32(26) == 32 * pow32(25));
        lemma_basic_div(x as int, pow32(26));
    } else {
        lemma_ulid_val_prefix(x, k - 1);
        let s = ulid_chars(x);
        let a = x as int / pow32((26 - k) as nat);
        assert(s.take(k).drop_last() =~= s.take(k - 1));
        assert(s.take(k).last() == s[k - 1]);
        assert(s[k - 1] == crock_char((x as int / pow32((25 - (k - 1)) as nat)) % 32));
        assert((25 - (k - 1)) as nat == (26 - k) as nat);
        lemma_pow_positive(32, (26 - k) as nat);
        assert(0 <= a % 32 < 32);
        assert(crock_val(crock_char(a % 32)) == a % 32);
        lemma_div_denominator(x as int, pow32((26 - k) as nat), 32);
        lemma_pow32_step((26 - k) as nat);
        assert(pow32((27 - k) as nat) == 32 * pow32((26 - k) as nat));
        assert(x as int / pow32((27 - k) as nat) == a / 32);
        lemma_fundamental_div_mod(a, 32);
        assert(ulid_val(s.take(k)) == (a / 32) * 32 + a % 32);
    }
}

} // verus!
