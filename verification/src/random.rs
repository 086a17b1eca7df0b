//! A small xorshift64* generator — good enough for request IDs. Not
//! cryptographic, and does not need to be.

use crate::text;
use vstd::prelude::*;

verus! {

/// The state after a draw.
pub open spec fn next_state(x: u64) -> u64 {
    let a = x ^ (x >> 12);
    let b = a ^ (a << 25);
    b ^ (b >> 27)
}

/// The number drawn when the state becomes `x`.
pub open spec fn output(x: u64) -> u64 {
    vstd::wrapping::u64_specs::wrapping_mul(x, 0x2545F4914F6CDD1D)
}

/// The number that a draw in state `x` gives.
pub open spec fn drawn(x: u64) -> u64 {
    output(next_state(x))
}

/// Generator state.
#[derive(Debug)]
pub struct Rng {
    pub state: u64,
}

/// The state to start from with the given seed.
pub open spec fn seeded_state(seed: u64) -> u64 {
    seed | 1
}

/// A seeded generator never starts in the all-zero state.
pub proof fn law_seeded_state_is_nonzero(seed: u64)
    ensures
        seeded_state(seed) != 0,
{
    assert(seed | 1 != 0) by (bit_vector);
}

/// A draw never leads into the all-zero state, where every further draw would
/// be zero.
pub proof fn law_state_stays_nonzero(x: u64)
    requires
        x != 0,
    ensures
        next_state(x) != 0,
{
    let a = x ^ (x >> 12);
    let b = a ^ (a << 25);
    assert(x != 0 ==> x ^ (x >> 12) != 0) by (bit_vector);
    assert(a != 0 ==> a ^ (a << 25) != 0) by (bit_vector);
    assert(b != 0 ==> b ^ (b >> 27) != 0) by (bit_vector);
}

impl Default for Rng {
    fn default() -> (r: Rng)
        ensures
            r.state == 0x9E3779B97F4A7C15,
    {
        Rng { state: 0x9E3779B97F4A7C15 }
    }
}

impl Rng {
    pub fn seeded(seed: u64) -> (r: Rng)
        ensures
            r.state == seeded_state(seed),
    {
        Rng { state: seed | 1 }
    }

    pub fn next(&mut self) -> (r: u64)
        ensures
            final(self).state == next_state(old(self).state),
            r == drawn(old(self).state),
    {
        let mut x: u64 = self.state;
        x = x ^ (x >> 12);
        x = x ^ (x << 25);
        x = x ^ (x >> 27);
        self.state = x;
        x.wrapping_mul(0x2545F4914F6CDD1D)
    }

    /// RFC 4122 version-4 formatted UUID.
    pub fn uuid_v4(&mut self) -> (r: String)
        ensures
            r@ == uuid(drawn(old(self).state), drawn(next_state(old(self).state))),
            final(self).state == next_state(next_state(old(self).state)),
    {
        let a: u64 = self.next();
        let b: u64 = self.next();
        uuid_text(a, b)
    }
}

// --------------------------------------------------------------- UUID ----

pub open spec fn pow16(k: nat) -> nat
    decreases k,
{
    if k == 0 {
        1
    } else {
        16 * pow16((k - 1) as nat)
    }
}

/// Hexadecimal digit `i` of a word, counted from the most significant one.
pub open spec fn nibble(x: u64, i: int) -> nat {
    (x as nat / pow16((15 - i) as nat)) % 16
}

/// Hexadecimal digit `i` of the identifier made of two words: the version
/// digit is 4 and the two top bits of the variant digit are `10`.
pub open spec fn uuid_digit(a: u64, b: u64, i: int) -> nat {
    if i == 12 {
        4
    } else if i == 16 {
        8 + nibble(b, 0) % 4
    } else if i < 16 {
        nibble(a, i)
    } else {
        nibble(b, i - 16)
    }
}

/// A dash stands before this digit.
pub open spec fn dash_before(i: int) -> bool {
    i == 8 || i == 12 || i == 16 || i == 20
}

/// The first `n` digits with the dashes between the groups.
pub open spec fn uuid_digits(a: u64, b: u64, n: nat) -> Seq<char>
    decreases n,
{
    if n == 0 {
        seq![]
    } else {
        let i = n - 1;
        let before = uuid_digits(a, b, i as nat);
        let dashed = if dash_before(i) {
            before.push('-')
        } else {
            before
        };
        dashed.push(text::digit_char(uuid_digit(a, b, i)))
    }
}

/// The identifier made of two words.
pub open spec fn uuid(a: u64, b: u64) -> Seq<char> {
    uuid_digits(a, b, 32)
}

proof fn lemma_pow16(k: nat)
    requires
        k <= 15,
    ensures
        1 <= pow16(k) <= 0x1000_0000_0000_0000,
        pow16(15) == 0x1000_0000_0000_0000,
{
    reveal_with_fuel(pow16, 16);
}

fn uuid_text(a: u64, b: u64) -> (r: String)
    ensures
        r@ == uuid(a, b),
{
    let mut out: String = String::new();
    let mut i: usize = 0;
    let mut p: u64 = 0x1000_0000_0000_0000;
    proof {
        lemma_pow16(15);
        assert(out@ =~= uuid_digits(a, b, 0));
    }
    while i < 32
        invariant
            i <= 32,
            i < 16 ==> p == pow16((15 - i) as nat),
            16 <= i < 32 ==> p == pow16((31 - i) as nat),
            out@ == uuid_digits(a, b, i as nat),
        decreases 32 - i,
    {
        let word: u64 = if i < 16 {
            a
        } else {
            b
        };
        proof {
            if i < 16 {
                lemma_pow16((15 - i) as nat);
            } else {
                lemma_pow16((31 - i) as nat);
            }
        }
        let digit: u64 = (word / p) % 16;
        if i == 8 || i == 12 || i == 16 || i == 20 {
            out.push('-');
        }
        if i == 12 {
            out.push('4');
            assert('4' == text::digit_char(4));
        } else if i == 16 {
            out.push(text::to_digit_char(8 + digit % 4));
        } else {
            out.push(text::to_digit_char(digit));
        }
        i += 1;
        p = if i == 16 {
            0x1000_0000_0000_0000
        } else {
            p / 16
        };
    }
    out
}

/// A lower-case hexadecimal digit.
pub open spec fn hex_char(c: char) -> bool {
    ('0' <= c <= '9') || ('a' <= c <= 'f')
}

/// Where the digit with this number stands in the text.
pub open spec fn uuid_position(i: int) -> int {
    i + (if i >= 8 {
        1int
    } else {
        0
    }) + (if i >= 12 {
        1int
    } else {
        0
    }) + (if i >= 16 {
        1int
    } else {
        0
    }) + (if i >= 20 {
        1int
    } else {
        0
    })
}

proof fn lemma_uuid_digits(a: u64, b: u64, n: nat)
    requires
        n <= 32,
    ensures
        n > 0 ==> uuid_digits(a, b, n).len() == uuid_position(n - 1) + 1,
        n == 0 ==> uuid_digits(a, b, n).len() == 0,
        forall|i: int|
            0 <= i < n ==> uuid_digits(a, b, n)[#[trigger] uuid_position(i)] == text::digit_char(
                uuid_digit(a, b, i),
            ),
        n > 8 ==> uuid_digits(a, b, n)[8] == '-',
        n > 12 ==> uuid_digits(a, b, n)[13] == '-',
        n > 16 ==> uuid_digits(a, b, n)[18] == '-',
        n > 20 ==> uuid_digits(a, b, n)[23] == '-',
    decreases n,
{
    if n > 0 {
        lemma_uuid_digits(a, b, (n - 1) as nat);
    }
}

/// A generated identifier has the version 4 shape: 36 characters in five
/// groups of hexadecimal digits, version digit 4, variant digit 8, 9, a or b.
pub proof fn law_uuid_shape(a: u64, b: u64)
    ensures
        uuid(a, b).len() == 36,
        uuid(a, b)[8] == '-',
        uuid(a, b)[13] == '-',
        uuid(a, b)[18] == '-',
        uuid(a, b)[23] == '-',
        uuid(a, b)[14] == '4',
        uuid(a, b)[19] == '8' || uuid(a, b)[19] == '9' || uuid(a, b)[19] == 'a' || uuid(a, b)[19]
            == 'b',
        forall|i: int|
            0 <= i < 32 ==> hex_char(uuid(a, b)[#[trigger] uuid_position(i)]),
{
    lemma_uuid_digits(a, b, 32);
    assert(uuid_position(12) == 14);
    assert(uuid_position(16) == 19);
    assert forall|i: int| 0 <= i < 32 implies hex_char(
        uuid(a, b)[#[trigger] uuid_position(i)],
    ) by {
        assert(uuid_digit(a, b, i) < 16);
    }
}

/// The state before a draw can be told from the state after it, by undoing the
/// three shifts one after another.
pub proof fn law_draw_can_be_undone(x: u64)
    ensures
        ({
            let y = next_state(x);
            let b = y ^ (y >> 27) ^ (y >> 54);
            let a = b ^ (b << 25) ^ (b << 50);
            x == a ^ (a >> 12) ^ (a >> 24) ^ (a >> 36) ^ (a >> 48) ^ (a >> 60)
        }),
{
    let a = x ^ (x >> 12);
    let b = a ^ (a << 25);
    let y = b ^ (b >> 27);
    assert((b ^ (b >> 27)) ^ ((b ^ (b >> 27)) >> 27) ^ ((b ^ (b >> 27)) >> 54) == b) by (bit_vector);
    assert((a ^ (a << 25)) ^ ((a ^ (a << 25)) << 25) ^ ((a ^ (a << 25)) << 50) == a) by (bit_vector);
    assert((x ^ (x >> 12)) ^ ((x ^ (x >> 12)) >> 12) ^ ((x ^ (x >> 12)) >> 24) ^ ((x ^ (x >> 12))
        >> 36) ^ ((x ^ (x >> 12)) >> 48) ^ ((x ^ (x >> 12)) >> 60) == x) by (bit_vector);
}

/// A draw is the new state times a fixed odd number, as far as a word holds it.
pub proof fn law_draw(x: u64)
    ensures
        drawn(x) as int == (next_state(x) as int * 2685821657736338717) % 0x1_0000_0000_0000_0000,
        seeded_state(x) % 2 == 1,
        seeded_state(x) / 2 == x / 2,
{
    assert((x | 1) % 2 == 1 && (x | 1) / 2 == x / 2) by (bit_vector);
}

} // verus!
