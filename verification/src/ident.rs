//! Document identities: process-wide-unique opaque identifiers.
//!
//! An identifier is the 128-bit value of a freshly drawn random version-4
//! UUID. The crate stores the value itself, so that identity comparison and
//! the persistent text form (32 lowercase hex digits) are ordinary verified
//! code; only drawing the randomness goes through the outside crate.

use vstd::prelude::*;

verus! {

/// A process-wide-unique opaque identifier for a document instance.
/// Generated randomly on creation, immutable, and persistable through
/// [`DocumentId::encode`] / [`DocumentId::decode`].
#[derive(Debug, Clone, Copy, PartialEq, Eq, Structural)]
pub struct DocumentId(pub u128);

/// Relies on `uuid::Uuid::new_v4`: a fresh random version-4 UUID, handed out
/// as its 128-bit value. Nothing is promised of the value: it is random.
#[verifier::external_body]
fn fresh_uuid_bits() -> u128 {
    uuid::Uuid::new_v4().as_u128()
}

/// The lowercase hex digit for a value below sixteen.
pub open spec fn hex_char(d: int) -> char {
    if d == 0 {
        '0'
    } else if d == 1 {
        '1'
    } else if d == 2 {
        '2'
    } else if d == 3 {
        '3'
    } else if d == 4 {
        '4'
    } else if d == 5 {
        '5'
    } else if d == 6 {
        '6'
    } else if d == 7 {
        '7'
    } else if d == 8 {
        '8'
    } else if d == 9 {
        '9'
    } else if d == 10 {
        'a'
    } else if d == 11 {
        'b'
    } else if d == 12 {
        'c'
    } else if d == 13 {
        'd'
    } else if d == 14 {
        'e'
    } else {
        'f'
    }
}

/// The last `n` hex digits of `v`, most significant first.
pub open spec fn hex_seq(v: int, n: nat) -> Seq<char>
    decreases n,
{
    if n == 0 {
        Seq::empty()
    } else {
        hex_seq(v / 16, (n - 1) as nat) + seq![hex_char(v % 16)]
    }
}

/// The persistent text form of an identifier value: its 32 hex digits.
pub open spec fn hex_digits(v: u128) -> Seq<char> {
    hex_seq(v as int, 32)
}

proof fn lemma_hex_seq_len(v: int, n: nat)
    ensures
        hex_seq(v, n).len() == n,
    decreases n,
{
    if n > 0 {
        lemma_hex_seq_len(v / 16, (n - 1) as nat);
    }
}

/// Every character of a hex digit sequence is a hex digit character.
proof fn lemma_hex_seq_chars(v: int, n: nat)
    requires
        v >= 0,
    ensures
        forall|i: int|
            0 <= i < n ==> exists|d: int|
                0 <= d < 16 && #[trigger] hex_seq(v, n)[i] == #[trigger] hex_char(d),
    decreases n,
{
    lemma_hex_seq_len(v, n);
    if n > 0 {
        lemma_hex_seq_chars(v / 16, (n - 1) as nat);
        lemma_hex_seq_len(v / 16, (n - 1) as nat);
        assert forall|i: int| 0 <= i < n implies exists|d: int|
            0 <= d < 16 && #[trigger] hex_seq(v, n)[i] == #[trigger] hex_char(d) by {
            if i < n - 1 {
                assert(hex_seq(v, n)[i] == hex_seq(v / 16, (n - 1) as nat)[i]);
            } else {
                let d = v % 16;
                assert(0 <= d < 16 && hex_seq(v, n)[i] == hex_char(d));
            }
        }
    }
}

/// Appending the digit of `v % 16` to the digits of `v / 16` gives the
/// digits of `v`.
proof fn lemma_hex_seq_snoc(acc: int, d: int, n: nat)
    requires
        acc >= 0,
        0 <= d < 16,
    ensures
        hex_seq(acc * 16 + d, n + 1) == hex_seq(acc, n) + seq![hex_char(d)],
{
    assert((acc * 16 + d) / 16 == acc && (acc * 16 + d) % 16 == d) by (nonlinear_arith)
        requires
            acc >= 0,
            0 <= d < 16,
    ;
}

/// Sixteen to the power `n`.
pub open spec fn pow16(n: nat) -> int
    decreases n,
{
    if n == 0 {
        1
    } else {
        16 * pow16((n - 1) as nat)
    }
}

proof fn lemma_pow16_pos(n: nat)
    ensures
        pow16(n) > 0,
    decreases n,
{
    if n > 0 {
        lemma_pow16_pos((n - 1) as nat);
    }
}

proof fn lemma_pow16_mono(m: nat, n: nat)
    requires
        m <= n,
    ensures
        0 < pow16(m) <= pow16(n),
    decreases n,
{
    lemma_pow16_pos(m);
    if m < n {
        lemma_pow16_mono(m, (n - 1) as nat);
    }
}

/// Two values below `16^n` with the same `n` hex digits are equal.
proof fn lemma_hex_seq_inj(v1: int, v2: int, n: nat)
    requires
        0 <= v1 < pow16(n),
        0 <= v2 < pow16(n),
        hex_seq(v1, n) == hex_seq(v2, n),
    ensures
        v1 == v2,
    decreases n,
{
    if n == 0 {
    } else {
        lemma_hex_seq_len(v1 / 16, (n - 1) as nat);
        lemma_hex_seq_len(v2 / 16, (n - 1) as nat);
        let s1 = hex_seq(v1, n);
        let s2 = hex_seq(v2, n);
        assert(s1[n - 1] == hex_char(v1 % 16));
        assert(s2[n - 1] == hex_char(v2 % 16));
        assert(v1 % 16 == v2 % 16);
        assert(hex_seq(v1 / 16, (n - 1) as nat) =~= hex_seq(v2 / 16, (n - 1) as nat)) by {
            assert forall|i: int| 0 <= i < n - 1 implies #[trigger] hex_seq(v1 / 16, (n - 1) as nat)[i]
                == hex_seq(v2 / 16, (n - 1) as nat)[i] by {
                assert(hex_seq(v1 / 16, (n - 1) as nat)[i] == s1[i]);
                assert(hex_seq(v2 / 16, (n - 1) as nat)[i] == s2[i]);
            }
        }
        assert(v1 / 16 < pow16((n - 1) as nat) && v2 / 16 < pow16((n - 1) as nat)) by (
        nonlinear_arith)
            requires
                0 <= v1 < pow16(n),
                0 <= v2 < pow16(n),
                pow16(n) == 16 * pow16((n - 1) as nat),
        ;
        lemma_hex_seq_inj(v1 / 16, v2 / 16, (n - 1) as nat);
        assert(v1 == 16 * (v1 / 16) + v1 % 16) by (nonlinear_arith);
        assert(v2 == 16 * (v2 / 16) + v2 % 16) by (nonlinear_arith);
    }
}

/// The persistent text form is one-to-one: equal digit strings mean equal
/// identifiers.
pub proof fn lemma_hex_digits_injective(a: DocumentId, b: DocumentId)
    requires
        hex_digits(a.0) == hex_digits(b.0),
    ensures
        a.0 == b.0,
{
    reveal_with_fuel(pow16, 33);
    assert(pow16(32) == 0x100000000000000000000000000000000);
    lemma_hex_seq_inj(a.0 as int, b.0 as int, 32);
}

/// The single-character string for a hex digit value.
fn hex_digit_str(d: u8) -> (r: String)
    requires
        d < 16,
    ensures
        r@ == seq![hex_char(d as int)],
{
    if d == 0 {
        proof {
            reveal_strlit("0");
        }
        String::from_str("0")
    } else if d == 1 {
        proof {
            reveal_strlit("1");
        }
        String::from_str("1")
    } else if d == 2 {
        proof {
            reveal_strlit("2");
        }
        String::from_str("2")
    } else if d == 3 {
        proof {
            reveal_strlit("3");
        }
        String::from_str("3")
    } else if d == 4 {
        proof {
            reveal_strlit("4");
        }
        String::from_str("4")
    } else if d == 5 {
        proof {
            reveal_strlit("5");
        }
        String::from_str("5")
    } else if d == 6 {
        proof {
            reveal_strlit("6");
        }
        String::from_str("6")
    } else if d == 7 {
        proof {
            reveal_strlit("7");
        }
        String::from_str("7")
    } else if d == 8 {
        proof {
            reveal_strlit("8");
        }
        String::from_str("8")
    } else if d == 9 {
        proof {
            reveal_strlit("9");
        }
        String::from_str("9")
    } else if d == 10 {
        proof {
            reveal_strlit("a");
        }
        String::from_str("a")
    } else if d == 11 {
        proof {
            reveal_strlit("b");
        }
        String::from_str("b")
    } else if d == 12 {
        proof {
            reveal_strlit("c");
        }
        String::from_str("c")
    } else if d == 13 {
        proof {
            reveal_strlit("d");
        }
        String::from_str("d")
    } else if d == 14 {
        proof {
            reveal_strlit("e");
        }
        String::from_str("e")
    } else {
        proof {
            reveal_strlit("f");
        }
        String::from_str("f")
    }
}

/// The hex digit value of a character, or `None` when it is not a lowercase
/// hex digit.
fn hex_digit_val(c: char) -> (r: Option<u8>)
    ensures
        match r {
            Some(d) => d < 16 && c == hex_char(d as int),
            None => forall|d: int| 0 <= d < 16 ==> c != #[trigger] hex_char(d),
        },
{
    if c == '0' {
        Some(0)
    } else if c == '1' {
        Some(1)
    } else if c == '2' {
        Some(2)
    } else if c == '3' {
        Some(3)
    } else if c == '4' {
        Some(4)
    } else if c == '5' {
        Some(5)
    } else if c == '6' {
        Some(6)
    } else if c == '7' {
        Some(7)
    } else if c == '8' {
        Some(8)
    } else if c == '9' {
        Some(9)
    } else if c == 'a' {
        Some(10)
    } else if c == 'b' {
        Some(11)
    } else if c == 'c' {
        Some(12)
    } else if c == 'd' {
        Some(13)
    } else if c == 'e' {
        Some(14)
    } else if c == 'f' {
        Some(15)
    } else {
        None
    }
}

impl DocumentId {
    /// A new identifier drawn from a fresh random UUID. Each call is
    /// independent; two identifiers from separate calls collide only with the
    /// negligible probability of a 122-bit random collision.
    pub fn random() -> DocumentId {
        DocumentId(fresh_uuid_bits())
    }

    /// The persistent text form of this identifier: exactly its 32 lowercase
    /// hex digits, most significant first.
    pub fn encode(&self) -> (r: String)
        ensures
            r@ == hex_digits(self.0),
    {
        let mut out = String::new();
        let mut x: u128 = self.0;
        let mut k: usize = 0;
        proof {
            assert(hex_seq(x as int, 32) + out@ =~= hex_digits(self.0));
        }
        while k < 32
            invariant
                k <= 32,
                hex_seq(x as int, (32 - k) as nat) + out@ == hex_digits(self.0),
            decreases 32 - k,
        {
            let d: u8 = (x % 16) as u8;
            let piece = hex_digit_str(d);
            proof {
                assert(hex_seq(x as int, (32 - k) as nat) == hex_seq(
                    x as int / 16,
                    (31 - k) as nat,
                ) + seq![hex_char(d as int)]);
                assert((hex_seq(x as int / 16, (31 - k) as nat) + seq![hex_char(d as int)]) + out@
                    =~= hex_seq(x as int / 16, (31 - k) as nat) + (seq![hex_char(d as int)]
                    + out@));
            }
            let next = piece.concat(out.as_str());
            out = next;
            x = x / 16;
            k = k + 1;
        }
        proof {
            assert(hex_seq(x as int, 0) + out@ =~= out@);
        }
        out
    }

    /// Read an identifier back from its persistent text form. Returns the
    /// identifier exactly when `s` is the 32-hex-digit form of one; any other
    /// string is rejected.
    pub fn decode(s: &str) -> (r: Option<DocumentId>)
        ensures
            match r {
                Some(id) => s@ == hex_digits(id.0),
                None => forall|id: DocumentId| s@ != hex_digits(id.0),
            },
    {
        let n = s.unicode_len();
        if n != 32 {
            proof {
                assert forall|id: DocumentId| s@ != hex_digits(id.0) by {
                    lemma_hex_seq_len(id.0 as int, 32);
                }
            }
            return None;
        }
        let mut acc: u128 = 0;
        let mut k: usize = 0;
        proof {
            reveal_with_fuel(pow16, 33);
            assert(pow16(32) == 0x100000000000000000000000000000000);
        }
        while k < 32
            invariant
                k <= 32,
                n == 32,
                n == s@.len(),
                pow16(32) == 0x100000000000000000000000000000000,
                acc < pow16(k as nat),
                hex_seq(acc as int, k as nat) == s@.take(k as int),
            decreases 32 - k,
        {
            let c = s.get_char(k);
            match hex_digit_val(c) {
                Some(d) => {
                    proof {
                        lemma_pow16_mono(k as nat, 31);
                        assert(acc * 16 + d < 16 * pow16(k as nat)) by (nonlinear_arith)
                            requires
                                acc < pow16(k as nat),
                                d < 16,
                                acc >= 0,
                                pow16(k as nat) > 0,
                        ;
                        assert(16 * pow16(k as nat) == pow16((k + 1) as nat));
                        assert(16 * pow16(31) == pow16(32));
                        lemma_pow16_mono((k + 1) as nat, 32);
                        lemma_hex_seq_snoc(acc as int, d as int, k as nat);
                        assert(s@.take(k as int) + seq![c] =~= s@.take(k + 1));
                    }
                    acc = acc * 16 + (d as u128);
                    k = k + 1;
                },
                None => {
                    proof {
                        assert forall|id: DocumentId| s@ != hex_digits(id.0) by {
                            lemma_hex_seq_len(id.0 as int, 32);
                            lemma_hex_seq_chars(id.0 as int, 32);
                            if s@ == hex_digits(id.0) {
                                assert(exists|d: int|
                                    0 <= d < 16 && hex_digits(id.0)[k as int] == #[trigger] hex_char(
                                        d,
                                    ));
                            }
                        }
                    }
                    return None;
                },
            }
        }
        proof {
            assert(s@.take(32) =~= s@);
        }
        Some(DocumentId(acc))
    }
}

} // verus!
