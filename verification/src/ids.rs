//! Identifiers: random generation, and the hyphenated 36-character
//! hexadecimal text form in which identifiers travel and are typed back in.

use vstd::arithmetic::div_mod::lemma_div_denominator;
use vstd::prelude::*;

use crate::errors::NodeId;
use crate::textutil::{digit_char, is_digit};

verus! {

/// Relies on `uuid::Uuid::new_v4` and `uuid::Uuid::as_u128`: a freshly drawn
/// random 128-bit identifier. Nothing can be promised of a random value, so
/// no clause is stated; callers must test what came back.
#[verifier::external_body]
pub(crate) fn random_id_bits() -> u128 {
    uuid::Uuid::new_v4().as_u128()
}

/// Sixteen to the `j`-th power.
pub open spec fn pow16(j: nat) -> nat
    decreases j,
{
    if j == 0 {
        1
    } else {
        16 * pow16((j - 1) as nat)
    }
}

/// The `k`-th hexadecimal digit of a 128-bit value, most significant first.
pub open spec fn nibble(bits: u128, k: int) -> nat {
    (bits as nat / pow16((31 - k) as nat)) % 16
}

/// Lowercase hexadecimal digit characters.
pub open spec fn hex_char(d: nat) -> char {
    if d < 10 {
        digit_char(d)
    } else if d == 10 {
        'a'
    } else if d == 11 {
        'b'
    } else if d == 12 {
        'c'
    } else if d == 13 {
        'd'
    } else if d == 14 {
        'e'
    } else {
        'f'
    }
}

/// The hyphen positions of the text form.
pub open spec fn sep_pos(i: int) -> bool {
    i == 8 || i == 13 || i == 18 || i == 23
}

/// Which hexadecimal digit sits at text position `i` (not a hyphen position).
pub open spec fn hex_index(i: int) -> int {
    i - (if i > 23 {
        4int
    } else if i > 18 {
        3int
    } else if i > 13 {
        2int
    } else if i > 8 {
        1int
    } else {
        0int
    })
}

/// The canonical text of an identifier: 32 lowercase hexadecimal digits with
/// hyphens after the 8th, 12th, 16th and 20th.
pub open spec fn uuid_text(bits: u128) -> Seq<char> {
    Seq::new(
        36,
        |i: int|
            if sep_pos(i) {
                '-'
            } else {
                hex_char(nibble(bits, hex_index(i)))
            },
    )
}

/// Hexadecimal digit characters of either case.
pub open spec fn is_hex_char(c: char) -> bool {
    is_digit(c) || ('a' <= c && c <= 'f') || ('A' <= c && c <= 'F')
}

/// The value of one hexadecimal digit character.
pub open spec fn hex_val(c: char) -> nat {
    if is_digit(c) {
        (c as nat - '0' as nat) as nat
    } else if 'a' <= c && c <= 'f' {
        (c as nat - 'a' as nat + 10) as nat
    } else {
        (c as nat - 'A' as nat + 10) as nat
    }
}

/// Well-formed identifier text: exactly 36 characters, hyphens exactly at
/// the four separator positions, hexadecimal digits elsewhere.
pub open spec fn uuid_syntax(s: Seq<char>) -> bool {
    &&& s.len() == 36
    &&& (forall|i: int|
        0 <= i < 36 ==> (if sep_pos(i) {
            #[trigger] s[i] == '-'
        } else {
            is_hex_char(s[i])
        }))
}

/// Text position of the `k`-th hexadecimal digit, most significant first.
pub open spec fn digit_pos(k: int) -> int {
    k + (if k >= 20 {
        4int
    } else if k >= 16 {
        3int
    } else if k >= 12 {
        2int
    } else if k >= 8 {
        1int
    } else {
        0int
    })
}

/// Value of the first `k` hexadecimal digits of well-formed identifier text.
pub open spec fn uuid_val_upto(s: Seq<char>, k: int) -> nat
    decreases k,
{
    if k <= 0 {
        0
    } else {
        uuid_val_upto(s, k - 1) * 16 + hex_val(s[digit_pos(k - 1)])
    }
}

/// The value encoded by well-formed identifier text.
pub open spec fn uuid_val(s: Seq<char>) -> nat {
    uuid_val_upto(s, 32)
}

proof fn lemma_pow16_pos(j: nat)
    ensures
        pow16(j) >= 1,
    decreases j,
{
    if j > 0 {
        lemma_pow16_pos((j - 1) as nat);
    }
}

proof fn lemma_pow16_32()
    ensures
        pow16(32) == 0x100000000000000000000000000000000nat,
{
    reveal_with_fuel(pow16, 33);
}

proof fn lemma_pow16_le_32(k: nat)
    ensures
        k <= 32 ==> pow16(k) <= pow16(32),
    decreases 32int - k,
{
    if k < 32 {
        lemma_pow16_le_32((k + 1) as nat);
        lemma_pow16_pos(k);
        assert(pow16((k + 1) as nat) == 16 * pow16(k));
    }
}

fn hex_char_exec(d: u8) -> (r: char)
    requires
        d < 16,
    ensures
        r == hex_char(d as nat),
{
    if d == 0 {
        '0'
    } else if d == 1 {
        '1'
    } else if d == 2 {
        '2'
    } else if d == 3 {
        '3'
    } else if d == 4 {
        '4'
    } else if d == 5 {
        '5'
    } else if d == 6 {
        '6'
    } else if d == 7 {
        '7'
    } else if d == 8 {
        '8'
    } else if d == 9 {
        '9'
    } else if d == 10 {
        'a'
    } else if d == 11 {
        'b'
    } else if d == 12 {
        'c'
    } else if d == 13 {
        'd'
    } else if d == 14 {
        'e'
    } else {
        'f'
    }
}

/// The 32 hexadecimal digits of `bits`, least significant first.
fn hex_digits_lsb(bits: u128) -> (r: Vec<u8>)
    ensures
        r@.len() == 32,
        forall|j: int|
            0 <= j < 32 ==> #[trigger] r@[j] as nat == (bits as nat / pow16(j as nat)) % 16,
{
    let mut b = bits;
    let mut out: Vec<u8> = Vec::new();
    let mut j: usize = 0;
    proof {
        assert(pow16(0) == 1);
        assert(bits as nat / 1 == bits as nat);
    }
    while j < 32
        invariant
            j <= 32,
            out@.len() == j,
            b as nat == bits as nat / pow16(j as nat),
            forall|jj: int|
                0 <= jj < j ==> #[trigger] out@[jj] as nat == (bits as nat / pow16(jj as nat))
                    % 16,
        decreases 32 - j,
    {
        out.push((b % 16) as u8);
        proof {
            lemma_pow16_pos(j as nat);
            lemma_div_denominator(bits as int, pow16(j as nat) as int, 16);
            assert(pow16((j + 1) as nat) == 16 * pow16(j as nat));
            assert(pow16(j as nat) * 16 == 16 * pow16(j as nat)) by (nonlinear_arith);
        }
        b = b / 16;
        j = j + 1;
    }
    out
}

/// The canonical text of a node identifier.
pub fn node_id_text(id: NodeId) -> (r: String)
    ensures
        r@ == uuid_text(id),
{
    let digits = hex_digits_lsb(id);
    let mut out: Vec<char> = Vec::new();
    let mut i: usize = 0;
    while i < 36
        invariant
            i <= 36,
            digits@.len() == 32,
            forall|j: int|
                0 <= j < 32 ==> #[trigger] digits@[j] as nat == (id as nat / pow16(j as nat))
                    % 16,
            out@ == uuid_text(id).take(i as int),
        decreases 36 - i,
    {
        if i == 8 || i == 13 || i == 18 || i == 23 {
            out.push('-');
        } else {
            let hi = i - (if i > 23 {
                4
            } else if i > 18 {
                3
            } else if i > 13 {
                2
            } else if i > 8 {
                1
            } else {
                0
            });
            let d = digits[31 - hi];
            proof {
                assert(hi as int == hex_index(i as int));
                assert(d < 16);
                assert(d as nat == nibble(id, hex_index(i as int)));
            }
            out.push(hex_char_exec(d));
        }
        proof {
            assert(uuid_text(id).take(i as int + 1) =~= uuid_text(id).take(i as int).push(
                uuid_text(id)[i as int],
            ));
        }
        i = i + 1;
    }
    proof {
        assert(uuid_text(id).take(36) =~= uuid_text(id));
    }
    crate::textutil::string_from_chars(&out)
}

/// The short form of a node identifier: the first eight characters of its
/// text.
pub fn node_id_short(id: NodeId) -> (r: String)
    ensures
        r@ == uuid_text(id).take(8),
{
    let digits = hex_digits_lsb(id);
    let mut out: Vec<char> = Vec::new();
    let mut i: usize = 0;
    while i < 8
        invariant
            i <= 8,
            digits@.len() == 32,
            forall|j: int|
                0 <= j < 32 ==> #[trigger] digits@[j] as nat == (id as nat / pow16(j as nat))
                    % 16,
            out@ == uuid_text(id).take(i as int),
        decreases 8 - i,
    {
        let d = digits[31 - i];
        proof {
            assert(hex_index(i as int) == i as int);
            assert(d < 16);
            assert(d as nat == nibble(id, i as int));
        }
        out.push(hex_char_exec(d));
        proof {
            assert(uuid_text(id).take(i as int + 1) =~= uuid_text(id).take(i as int).push(
                uuid_text(id)[i as int],
            ));
        }
        i = i + 1;
    }
    crate::textutil::string_from_chars(&out)
}

fn hex_val_exec(c: char) -> (r: u8)
    requires
        is_hex_char(c),
    ensures
        r < 16,
        r as nat == hex_val(c),
{
    let v = c as u32;
    if '0' <= c && c <= '9' {
        (v - 48) as u8
    } else if 'a' <= c && c <= 'f' {
        (v - 97 + 10) as u8
    } else {
        (v - 65 + 10) as u8
    }
}

/// Parse the hyphenated 36-character text form of an identifier; digits of
/// either case are accepted.
pub fn parse_node_id(s: &str) -> (r: Option<NodeId>)
    ensures
        match r {
            Some(v) => uuid_syntax(s@) && v as nat == uuid_val(s@),
            None => !uuid_syntax(s@),
        },
{
    let n = s.unicode_len();
    if n != 36 {
        return None;
    }
    let mut acc: u128 = 0;
    let mut k: usize = 0;
    let mut i: usize = 0;
    while i < 36
        invariant
            i <= 36,
            n == s@.len(),
            n == 36,
            k as int == hex_index(i as int),
            0 <= k <= 32,
            acc as nat == uuid_val_upto(s@, k as int),
            (acc as nat) < pow16(k as nat),
            forall|j: int|
                0 <= j < i ==> (if sep_pos(j) {
                    #[trigger] s@[j] == '-'
                } else {
                    is_hex_char(s@[j])
                }),
        decreases 36 - i,
    {
        let c = s.get_char(i);
        if i == 8 || i == 13 || i == 18 || i == 23 {
            if c != '-' {
                return None;
            }
        } else {
            if !(('0' <= c && c <= '9') || ('a' <= c && c <= 'f') || ('A' <= c && c <= 'F')) {
                return None;
            }
            let d = hex_val_exec(c);
            proof {
                lemma_pow16_le_32((k + 1) as nat);
                lemma_pow16_32();
                assert(pow16((k + 1) as nat) == 16 * pow16(k as nat));
                assert((acc as nat * 16 + d as nat) < pow16((k + 1) as nat));
                assert(digit_pos(k as int) == i as int);
            }
            acc = acc * 16 + (d as u128);
            k = k + 1;
        }
        i = i + 1;
    }
    proof {
        assert(uuid_syntax(s@));
    }
    Some(acc)
}

} // verus!
