//! Bit-mask expansion, elementwise cube addition, and the small string
//! formatters used for the result attributes.

use vstd::prelude::*;
use crate::cube::Cube;
use crate::cube::lemma_cube_upd_frame;
use crate::cube::sat_add;

verus! {

/// The detector ADC flags among the low `n` bits of `w`, in ascending bit
/// order: bit `i` set contributes `1 << i`.
pub open spec fn spec_adcnum_up_to(w: u32, n: int) -> Seq<u32>
    decreases n,
{
    if n <= 0 {
        Seq::empty()
    } else if (w >> ((n - 1) as u32)) & 1 == 1 {
        spec_adcnum_up_to(w, n - 1).push(1u32 << ((n - 1) as u32))
    } else {
        spec_adcnum_up_to(w, n - 1)
    }
}

/// The ordered ADC flag list encoded in the low 16 bits of a hit word.
pub open spec fn spec_adcnum(w: u32) -> Seq<u32> {
    spec_adcnum_up_to(w, 16)
}

/// For a given 32-bit hit word, return the detector ADC flags named by its
/// low 16 bits, least-significant first. The order is part of the format: the
/// payload's 16-bit values are aligned to it positionally.
pub fn get_adcnum(binary_value: u32) -> (adcnum: Vec<u32>)
    ensures
        adcnum@ == spec_adcnum(binary_value),
        adcnum@.len() <= 16,
{
    // We know there can be at most 16 values
    let mut adcnum: Vec<u32> = Vec::new();
    let mut bits: u32 = 0;
    while bits < 16
        invariant
            bits <= 16,
            adcnum@ == spec_adcnum_up_to(binary_value, bits as int),
            adcnum@.len() <= bits,
        decreases 16 - bits,
    {
        let value_bin: u32 = 1u32 << bits;
        if binary_value >> bits & 1 == 1 {
            adcnum.push(value_bin);
        }
        bits = bits + 1;
    }
    adcnum
}

/// Add `array2` elementwise into `array1` (saturating at `u32::MAX`), over
/// `array2`'s index range; the rest of `array1` is untouched.
pub fn add_data_to_ndarray(array1: &mut Cube, array2: &Cube)
    requires
        old(array1).wf(),
        array2.wf(),
        array2.ny() <= old(array1).ny(),
        array2.nx() <= old(array1).nx(),
        array2.nz() <= old(array1).nz(),
    ensures
        final(array1).wf(),
        final(array1).ny() == old(array1).ny(),
        final(array1).nx() == old(array1).nx(),
        final(array1).nz() == old(array1).nz(),
        forall|y: int, x: int, z: int|
            0 <= y < old(array1).ny() && 0 <= x < old(array1).nx() && 0 <= z < old(array1).nz()
                ==> #[trigger] final(array1).cell(y, x, z) == (if y < array2.ny() && x
                < array2.nx() && z < array2.nz() {
                sat_add(old(array1).cell(y, x, z), array2.cell(y, x, z))
            } else {
                old(array1).cell(y, x, z)
            }),
{
    let (bny, bnx, bnz) = array2.dims();
    let mut y: usize = 0;
    while y < bny
        invariant
            array1.wf(),
            array2.wf(),
            bny == array2.ny(),
            bnx == array2.nx(),
            bnz == array2.nz(),
            array2.ny() <= old(array1).ny(),
            array2.nx() <= old(array1).nx(),
            array2.nz() <= old(array1).nz(),
            array1.ny() == old(array1).ny(),
            array1.nx() == old(array1).nx(),
            array1.nz() == old(array1).nz(),
            y <= bny,
            forall|y2: int, x2: int, z2: int|
                0 <= y2 < old(array1).ny() && 0 <= x2 < old(array1).nx() && 0 <= z2 < old(
                    array1,
                ).nz() ==> #[trigger] array1.cell(y2, x2, z2) == (if y2 < y && x2 < bnx && z2
                    < bnz {
                    sat_add(old(array1).cell(y2, x2, z2), array2.cell(y2, x2, z2))
                } else {
                    old(array1).cell(y2, x2, z2)
                }),
        decreases bny - y,
    {
        let mut x: usize = 0;
        while x < bnx
            invariant
                array1.wf(),
                array2.wf(),
                bny == array2.ny(),
                bnx == array2.nx(),
                bnz == array2.nz(),
                array2.ny() <= old(array1).ny(),
                array2.nx() <= old(array1).nx(),
                array2.nz() <= old(array1).nz(),
                array1.ny() == old(array1).ny(),
                array1.nx() == old(array1).nx(),
                array1.nz() == old(array1).nz(),
                y < bny,
                x <= bnx,
                forall|y2: int, x2: int, z2: int|
                    0 <= y2 < old(array1).ny() && 0 <= x2 < old(array1).nx() && 0 <= z2 < old(
                        array1,
                    ).nz() ==> #[trigger] array1.cell(y2, x2, z2) == (if (y2 < y || (y2 == y && x2
                        < x)) && x2 < bnx && z2 < bnz {
                        sat_add(old(array1).cell(y2, x2, z2), array2.cell(y2, x2, z2))
                    } else {
                        old(array1).cell(y2, x2, z2)
                    }),
            decreases bnx - x,
        {
            let mut z: usize = 0;
            while z < bnz
                invariant
                    array1.wf(),
                    array2.wf(),
                    bny == array2.ny(),
                    bnx == array2.nx(),
                    bnz == array2.nz(),
                    array2.ny() <= old(array1).ny(),
                    array2.nx() <= old(array1).nx(),
                    array2.nz() <= old(array1).nz(),
                    array1.ny() == old(array1).ny(),
                    array1.nx() == old(array1).nx(),
                    array1.nz() == old(array1).nz(),
                    y < bny,
                    x < bnx,
                    z <= bnz,
                    forall|y2: int, x2: int, z2: int|
                        0 <= y2 < old(array1).ny() && 0 <= x2 < old(array1).nx() && 0 <= z2 < old(
                            array1,
                        ).nz() ==> #[trigger] array1.cell(y2, x2, z2) == (if (y2 < y || (y2 == y
                            && (x2 < x || (x2 == x && z2 < z)))) && x2 < bnx && z2 < bnz {
                            sat_add(old(array1).cell(y2, x2, z2), array2.cell(y2, x2, z2))
                        } else {
                            old(array1).cell(y2, x2, z2)
                        }),
                decreases bnz - z,
            {
                let d = array2.get(y, x, z);
                let ghost a0 = *array1;
                array1.add_at(y, x, z, d);
                proof {
                    lemma_cube_upd_frame(
                        a0,
                        *array1,
                        y as int,
                        x as int,
                        z as int,
                        sat_add(a0.cell(y as int, x as int, z as int), d),
                    );
                }
                z = z + 1;
            }
            x = x + 1;
        }
        y = y + 1;
    }
}

/// The decimal digit `d` as a character.
pub open spec fn digit_char(d: int) -> char {
    if d == 0 {
        '0'
    } else if d == 1 {
        '1'
    } else if d == 2 {
        '2'
    } else if d == 3 {
        '3'
    } else if d == 4 {
        '4'
    } else if d == 5 {
        '5'
    } else if d == 6 {
        '6'
    } else if d == 7 {
        '7'
    } else if d == 8 {
        '8'
    } else {
        '9'
    }
}

/// `n` (below 100) as exactly two decimal digits.
pub open spec fn two_digits(n: int) -> Seq<char> {
    seq![digit_char(n / 10), digit_char(n % 10)]
}

/// `HH:MM:SS` for a millisecond count, with the hours taken modulo 24.
pub open spec fn spec_format_milliseconds(ms: u32) -> Seq<char> {
    let s = ms as int / 1000;
    let m = s / 60;
    let h = m / 60;
    two_digits(h % 24) + seq![':'] + two_digits(m % 60) + seq![':'] + two_digits(s % 60)
}

/// The decimal digits of `n`, most significant first, no leading zeros
/// (a single `'0'` for zero).
pub open spec fn spec_dec_digits(n: int) -> Seq<char>
    decreases n,
{
    if n < 10 {
        seq![digit_char(n)]
    } else {
        spec_dec_digits(n / 10) + seq![digit_char(n % 10)]
    }
}

fn digit_str(d: u32) -> (s: &'static str)
    requires
        d < 10,
    ensures
        s@ == seq![digit_char(d as int)],
{
    proof {
        reveal_strlit("0");
        reveal_strlit("1");
        reveal_strlit("2");
        reveal_strlit("3");
        reveal_strlit("4");
        reveal_strlit("5");
        reveal_strlit("6");
        reveal_strlit("7");
        reveal_strlit("8");
        reveal_strlit("9");
    }
    let s: &'static str = match d {
        0 => "0",
        1 => "1",
        2 => "2",
        3 => "3",
        4 => "4",
        5 => "5",
        6 => "6",
        7 => "7",
        8 => "8",
        _ => "9",
    };
    proof {
        assert(s@ =~= seq![digit_char(d as int)]);
    }
    s
}

fn two_digit_str(n: u32) -> (s: String)
    requires
        n < 100,
    ensures
        s@ == two_digits(n as int),
{
    let s = String::from_str(digit_str(n / 10)).concat(digit_str(n % 10));
    proof {
        assert(s@ =~= two_digits(n as int));
    }
    s
}

/// Render a millisecond count as `HH:MM:SS` (hours modulo 24).
pub fn format_milliseconds(milliseconds: u32) -> (s: String)
    ensures
        s@ == spec_format_milliseconds(milliseconds),
{
    let seconds = milliseconds / 1000;
    let minutes = seconds / 60;
    let hours = minutes / 60;
    proof {
        reveal_strlit(":");
    }
    let s = two_digit_str(hours % 24).concat(":").concat(
        two_digit_str(minutes % 60).as_str(),
    ).concat(":").concat(two_digit_str(seconds % 60).as_str());
    proof {
        assert(s@ =~= spec_format_milliseconds(milliseconds));
    }
    s
}

/// Render `n` in decimal.
pub fn u32_to_string(n: u32) -> (s: String)
    ensures
        s@ == spec_dec_digits(n as int),
    decreases n,
{
    if n < 10 {
        String::from_str(digit_str(n))
    } else {
        let s = u32_to_string(n / 10).concat(digit_str(n % 10));
        proof {
            assert(s@ =~= spec_dec_digits(n as int));
        }
        s
    }
}

} // verus!
