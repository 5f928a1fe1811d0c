//! The canonical warehouse address list.
//!
//! An address is the concatenation `Z S C P` of a zone letter (`A` or `B`), a
//! shelf number `1..=19`, a section number `1..=4` and a level number `1..=8`,
//! written in decimal with no separators. The canonical list enumerates all
//! `2 * 19 * 4 * 8 = 1216` addresses zone-major, then shelf, section, level.

use crate::digits::{digit_char, digit_str, lemma_digit_char_injective};
use vstd::arithmetic::div_mod::{
    lemma_fundamental_div_mod, lemma_fundamental_div_mod_converse,
    lemma_mod_division_less_than_divisor,
};
use vstd::prelude::*;

verus! {

/// The zone letter: zone 0 is `A`, zone 1 is `B`.
pub open spec fn zone_char(z: int) -> char {
    if z == 0 {
        'A'
    } else {
        'B'
    }
}

/// The address string for zone `z`, shelf `s`, section `c`, level `p`.
pub open spec fn addr_spec(z: int, s: int, c: int, p: int) -> Seq<char> {
    if s < 10 {
        seq![zone_char(z), digit_char(s), digit_char(c), digit_char(p)]
    } else {
        seq![zone_char(z), '1', digit_char(s - 10), digit_char(c), digit_char(p)]
    }
}

/// The four fields lie in their legal ranges.
pub open spec fn fields_in_range(z: int, s: int, c: int, p: int) -> bool {
    &&& 0 <= z < 2
    &&& 1 <= s <= 19
    &&& 1 <= c <= 4
    &&& 1 <= p <= 8
}

/// The position of address `(z, s, c, p)` in the canonical list.
pub open spec fn flat_index(z: int, s: int, c: int, p: int) -> int {
    z * 608 + (s - 1) * 32 + (c - 1) * 8 + (p - 1)
}

/// The zone of the canonical list entry at position `i`.
pub open spec fn zone_of(i: int) -> int {
    i / 608
}

/// The shelf of the canonical list entry at position `i`.
pub open spec fn shelf_of(i: int) -> int {
    1 + (i % 608) / 32
}

/// The section of the canonical list entry at position `i`.
pub open spec fn section_of(i: int) -> int {
    1 + (i % 32) / 8
}

/// The level of the canonical list entry at position `i`.
pub open spec fn level_of(i: int) -> int {
    1 + i % 8
}

/// The canonical list entry at position `i`.
pub open spec fn addr_at(i: int) -> Seq<char> {
    addr_spec(zone_of(i), shelf_of(i), section_of(i), level_of(i))
}

/// Decoding a position yields in-range fields, and re-encoding them
/// yields the position back.
pub proof fn lemma_decode(i: int)
    requires
        0 <= i < 1216,
    ensures
        fields_in_range(zone_of(i), shelf_of(i), section_of(i), level_of(i)),
        flat_index(zone_of(i), shelf_of(i), section_of(i), level_of(i)) == i,
{
    lemma_fundamental_div_mod(i, 608);
    lemma_mod_division_less_than_divisor(i, 608);
    let r1 = i % 608;
    lemma_fundamental_div_mod(r1, 32);
    lemma_mod_division_less_than_divisor(r1, 32);
    let r2 = r1 % 32;
    lemma_fundamental_div_mod(r2, 8);
    lemma_mod_division_less_than_divisor(r2, 8);
    // i % 32 equals (i % 608) % 32 and i % 8 equals ((i % 608) % 32) % 8,
    // because 32 divides 608 and 8 divides 32.
    lemma_fundamental_div_mod_converse(i, 32, 19 * (i / 608) + r1 / 32, r2);
    lemma_fundamental_div_mod_converse(i, 8, 76 * (i / 608) + 4 * (r1 / 32) + r2 / 8, r2 % 8);
}

/// Encoding in-range fields yields a position below 1216 that decodes
/// to the same fields.
pub proof fn lemma_encode(z: int, s: int, c: int, p: int)
    requires
        fields_in_range(z, s, c, p),
    ensures
        0 <= flat_index(z, s, c, p) < 1216,
        zone_of(flat_index(z, s, c, p)) == z,
        shelf_of(flat_index(z, s, c, p)) == s,
        section_of(flat_index(z, s, c, p)) == c,
        level_of(flat_index(z, s, c, p)) == p,
{
    let i = flat_index(z, s, c, p);
    let rest = (s - 1) * 32 + (c - 1) * 8 + (p - 1);
    lemma_fundamental_div_mod_converse(i, 608, z, rest);
    lemma_fundamental_div_mod_converse(rest, 32, s - 1, (c - 1) * 8 + (p - 1));
    lemma_fundamental_div_mod_converse(i, 32, 19 * z + (s - 1), (c - 1) * 8 + (p - 1));
    lemma_fundamental_div_mod_converse(i, 8, 76 * z + 4 * (s - 1) + (c - 1), p - 1);
}

/// Two distinct in-range field tuples give distinct address strings.
pub proof fn lemma_addr_spec_injective(
    z1: int, s1: int, c1: int, p1: int,
    z2: int, s2: int, c2: int, p2: int,
)
    requires
        fields_in_range(z1, s1, c1, p1),
        fields_in_range(z2, s2, c2, p2),
        addr_spec(z1, s1, c1, p1) == addr_spec(z2, s2, c2, p2),
    ensures
        z1 == z2 && s1 == s2 && c1 == c2 && p1 == p2,
{
    let a = addr_spec(z1, s1, c1, p1);
    let b = addr_spec(z2, s2, c2, p2);
    assert(a.len() == b.len());
    if s1 < 10 && s2 < 10 {
        assert(a[0] == b[0] && a[1] == b[1] && a[2] == b[2] && a[3] == b[3]);
        lemma_digit_char_injective(s1, s2);
        lemma_digit_char_injective(c1, c2);
        lemma_digit_char_injective(p1, p2);
    } else if s1 >= 10 && s2 >= 10 {
        assert(a[0] == b[0] && a[2] == b[2] && a[3] == b[3] && a[4] == b[4]);
        lemma_digit_char_injective(s1 - 10, s2 - 10);
        lemma_digit_char_injective(c1, c2);
        lemma_digit_char_injective(p1, p2);
    }
}

/// Distinct positions in the canonical list hold distinct address strings.
pub proof fn lemma_addr_at_injective(i: int, j: int)
    requires
        0 <= i < 1216,
        0 <= j < 1216,
        i != j,
    ensures
        addr_at(i) != addr_at(j),
{
    lemma_decode(i);
    lemma_decode(j);
    if addr_at(i) == addr_at(j) {
        lemma_addr_spec_injective(
            zone_of(i), shelf_of(i), section_of(i), level_of(i),
            zone_of(j), shelf_of(j), section_of(j), level_of(j),
        );
    }
}

/// The first 608 canonical addresses start with `A`, the rest with `B`.
pub proof fn lemma_addr_at_zone(i: int)
    requires
        0 <= i < 1216,
    ensures
        addr_at(i).len() >= 1,
        0 <= i < 608 ==> addr_at(i)[0] == 'A',
        608 <= i < 1216 ==> addr_at(i)[0] == 'B',
{
    lemma_decode(i);
}

/// The address string for in-range fields, built character by character.
pub fn make_address(z: usize, s: usize, c: usize, p: usize) -> (r: String)
    requires
        fields_in_range(z as int, s as int, c as int, p as int),
    ensures
        r@ == addr_spec(z as int, s as int, c as int, p as int),
{
    let mut r = String::new();
    if z == 0 {
        r.append("A");
        proof {
            reveal_strlit("A");
        }
    } else {
        r.append("B");
        proof {
            reveal_strlit("B");
        }
    }
    if s < 10 {
        r.append(digit_str(s));
    } else {
        r.append("1");
        proof {
            reveal_strlit("1");
        }
        r.append(digit_str(s - 10));
        proof {
            assert(digit_char(1) == '1');
        }
    }
    r.append(digit_str(c));
    r.append(digit_str(p));
    proof {
        assert(r@ =~= addr_spec(z as int, s as int, c as int, p as int));
    }
    r
}

/// The canonical address list: all 1216 addresses, zone-major, then
/// shelf, section, level.
pub fn generate_addresses() -> (r: Vec<String>)
    ensures
        r@.len() == 1216,
        forall|i: int| 0 <= i < 1216 ==> r@[i]@ == addr_at(i),
{
    let mut r: Vec<String> = Vec::new();
    let mut z: usize = 0;
    while z < 2
        invariant
            z <= 2,
            r@.len() == z * 608,
            forall|i: int| 0 <= i < r@.len() ==> r@[i]@ == addr_at(i),
        decreases 2 - z,
    {
        let mut s: usize = 1;
        while s <= 19
            invariant
                z < 2,
                1 <= s <= 20,
                r@.len() == z * 608 + (s - 1) * 32,
                forall|i: int| 0 <= i < r@.len() ==> r@[i]@ == addr_at(i),
            decreases 20 - s,
        {
            let mut c: usize = 1;
            while c <= 4
                invariant
                    z < 2,
                    1 <= s <= 19,
                    1 <= c <= 5,
                    r@.len() == z * 608 + (s - 1) * 32 + (c - 1) * 8,
                    forall|i: int| 0 <= i < r@.len() ==> r@[i]@ == addr_at(i),
                decreases 5 - c,
            {
                let mut p: usize = 1;
                while p <= 8
                    invariant
                        z < 2,
                        1 <= s <= 19,
                        1 <= c <= 4,
                        1 <= p <= 9,
                        r@.len() == z * 608 + (s - 1) * 32 + (c - 1) * 8 + (p - 1),
                        forall|i: int| 0 <= i < r@.len() ==> r@[i]@ == addr_at(i),
                    decreases 9 - p,
                {
                    let a = make_address(z, s, c, p);
                    proof {
                        lemma_encode(z as int, s as int, c as int, p as int);
                    }
                    r.push(a);
                    p = p + 1;
                }
                c = c + 1;
            }
            s = s + 1;
        }
        z = z + 1;
    }
    r
}

} // verus!
