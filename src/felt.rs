use vstd::prelude::*;

verus! {

/// 2^128, the weight of the high half of a [`Felt`].
pub open spec fn pow2_128() -> nat {
    u128::MAX as nat + 1
}

/// The prime modulus of the field, 2^251 + 17 * 2^192 + 1.
pub open spec fn field_prime() -> nat {
    0x0800_0000_0000_0011_0000_0000_0000_0000nat * pow2_128() + 1
}

/// The lowercase hexadecimal digit for `d` (taken modulo 16).
pub open spec fn hex_char(d: nat) -> char {
    seq!['0', '1', '2', '3', '4', '5', '6', '7', '8', '9', 'a', 'b', 'c', 'd', 'e', 'f'][(d
        % 16) as int]
}

/// The hexadecimal digits of `n`, most significant first, without leading zeros
/// (zero is the single digit `0`).
pub open spec fn hex_digits(n: nat) -> Seq<char>
    decreases n,
{
    if n < 16 {
        seq![hex_char(n)]
    } else {
        hex_digits(n / 16).push(hex_char(n % 16))
    }
}

/// `n` written as `0x` followed by its lowercase hexadecimal digits.
pub open spec fn lower_hex(n: nat) -> Seq<char> {
    seq!['0', 'x'] + hex_digits(n)
}

/// A field element: storage keys, storage values and contract addresses are all
/// field elements. It is held as the high and low 128 bits of a 256-bit integer.
#[derive(Clone, Copy, Debug, PartialEq, Eq, Structural, Hash)]
pub struct Felt {
    pub high: u128,
    pub low: u128,
}

/// Relies on `String::push`: appends one character.
#[verifier::external_body]
fn push_char(s: &mut String, c: char)
    ensures
        final(s)@ == old(s)@.push(c),
{
    s.push(c);
}

proof fn lemma_shift_right_4(high: u128, low: u128)
    ensures
        (low / 16 + (high % 16) * 0x1000_0000_0000_0000_0000_0000_0000_0000) < pow2_128(),
        (high as nat * pow2_128() + low as nat) / 16 == (high / 16) as nat * pow2_128() + (low / 16
            + (high % 16) * 0x1000_0000_0000_0000_0000_0000_0000_0000) as nat,
        (high as nat * pow2_128() + low as nat) % 16 == low % 16,
{
    let v = high as nat * pow2_128() + low as nat;
    let qh = high / 16;
    let rh = high % 16;
    let ql = low / 16;
    let rl = low % 16;
    let p: nat = 0x1000_0000_0000_0000_0000_0000_0000_0000;
    assert(pow2_128() == 16 * p);
    assert(high == 16 * qh + rh && rh < 16);
    assert(low == 16 * ql + rl && rl < 16);
    assert(ql < p);
    assert(v == 16 * (qh * pow2_128() + rh * p + ql) + rl) by (nonlinear_arith)
        requires
            v == high as nat * pow2_128() + low as nat,
            high == 16 * qh + rh,
            low == 16 * ql + rl,
            pow2_128() == 16 * p,
    ;
    assert(v / 16 == qh * pow2_128() + rh * p + ql && v % 16 == rl) by (nonlinear_arith)
        requires
            v == 16 * (qh * pow2_128() + rh * p + ql) + rl,
            rl < 16,
            0 <= rl,
    ;
    assert(rh * p + ql < pow2_128()) by (nonlinear_arith)
        requires
            rh < 16,
            ql < p,
            pow2_128() == 16 * p,
    ;
}

impl Felt {
    /// The integer this element stands for.
    pub open spec fn value(self) -> nat {
        self.high as nat * pow2_128() + self.low as nat
    }

    /// The element lies below the field's prime, as every field element does.
    pub open spec fn wf(self) -> bool {
        self.value() < field_prime()
    }

    /// The element as a pair of integers, ordered as the integer it stands for.
    pub open spec fn key(self) -> (u128, u128) {
        (self.high, self.low)
    }

    pub open spec fn from_key(k: (u128, u128)) -> Felt {
        Felt { high: k.0, low: k.1 }
    }

    pub fn new(high: u128, low: u128) -> (r: Felt)
        ensures
            r.high == high,
            r.low == low,
    {
        Felt { high, low }
    }

    pub fn from_u128(v: u128) -> (r: Felt)
        ensures
            r.value() == v,
            r.wf(),
            r.high == 0,
            r.low == v,
    {
        Felt { high: 0, low: v }
    }

    pub fn as_key(&self) -> (r: (u128, u128))
        ensures
            r == self.key(),
    {
        (self.high, self.low)
    }

    pub fn of_key(k: (u128, u128)) -> (r: Felt)
        ensures
            r == Felt::from_key(k),
            r.key() == k,
    {
        Felt { high: k.0, low: k.1 }
    }

    /// The element as `0x` followed by its lowercase hexadecimal digits, with no
    /// leading zeros.
    pub fn to_hex(&self) -> (r: String)
        ensures
            r@ == lower_hex(self.value()),
    {
        let chars = self.hex_chars();
        let mut s = String::new();
        let n = chars.len();
        let mut j: usize = 0;
        while j < n
            invariant
                j <= n,
                n == chars@.len(),
                s@ == chars@.take(j as int),
            decreases n - j,
        {
            push_char(&mut s, chars[j]);
            assert(chars@.take(j + 1) =~= chars@.take(j as int).push(chars@[j as int]));
            j = j + 1;
        }
        assert(chars@.take(n as int) =~= chars@);
        s
    }

    /// The characters of [`Felt::to_hex`].
    pub fn hex_chars(&self) -> (r: Vec<char>)
        ensures
            r@ == lower_hex(self.value()),
    {
        let table: [char; 16] = [
            '0',
            '1',
            '2',
            '3',
            '4',
            '5',
            '6',
            '7',
            '8',
            '9',
            'a',
            'b',
            'c',
            'd',
            'e',
            'f',
        ];
        let ghost orig = self.value();
        // digits, least significant first
        let mut digits: Vec<char> = Vec::new();
        let ghost mut tail: Seq<char> = Seq::empty();
        let mut high: u128 = self.high;
        let mut low: u128 = self.low;
        loop
            invariant_except_break
                hex_digits(orig) == hex_digits(high as nat * pow2_128() + low as nat) + tail,
            invariant
                digits@.len() == tail.len(),
                forall|i: int|
                    0 <= i < tail.len() ==> #[trigger] digits@[i] == tail[tail.len() - 1 - i],
                table@ == seq![
                    '0',
                    '1',
                    '2',
                    '3',
                    '4',
                    '5',
                    '6',
                    '7',
                    '8',
                    '9',
                    'a',
                    'b',
                    'c',
                    'd',
                    'e',
                    'f',
                ],
            ensures
                hex_digits(orig) == tail,
            decreases high as nat * pow2_128() + low as nat,
        {
            let ghost cur = high as nat * pow2_128() + low as nat;
            proof {
                lemma_shift_right_4(high, low);
            }
            let d = low % 16;
            let c = table[d as usize];
            assert(c == hex_char(cur));
            digits.push(c);
            if high == 0 && low < 16 {
                proof {
                    assert(hex_digits(cur) == seq![c]);
                    tail = seq![c] + tail;
                    assert(hex_digits(orig) =~= tail);
                }
                break ;
            }
            proof {
                assert(cur >= 16) by (nonlinear_arith)
                    requires
                        cur == high as nat * pow2_128() + low as nat,
                        high != 0 || low >= 16,
                        pow2_128() > 16,
                ;
                assert(hex_digits(cur) == hex_digits(cur / 16).push(c));
                assert(hex_digits(cur / 16).push(c) + tail =~= hex_digits(cur / 16) + (seq![c]
                    + tail));
                tail = seq![c] + tail;
            }
            let next_low = low / 16 + (high % 16) * 0x1000_0000_0000_0000_0000_0000_0000_0000;
            high = high / 16;
            low = next_low;
        }
        let mut s: Vec<char> = Vec::new();
        s.push('0');
        s.push('x');
        let n = digits.len();
        let mut j: usize = 0;
        while j < n
            invariant
                j <= n,
                n == digits@.len(),
                n == tail.len(),
                forall|i: int| 0 <= i < tail.len() ==> #[trigger] digits@[i] == tail[tail.len() - 1 - i],
                s@ == seq!['0', 'x'] + tail.take(j as int),
            decreases n - j,
        {
            s.push(digits[n - 1 - j]);
            assert(tail.take(j + 1) =~= tail.take(j as int).push(tail[j as int]));
            j = j + 1;
        }
        assert(tail.take(n as int) =~= tail);
        s
    }
}

} // verus!
