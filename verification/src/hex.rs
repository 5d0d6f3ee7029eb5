//! Bytes as hexadecimal text.

use vstd::prelude::*;
use vstd::string::*;

verus! {

/// The digit that stands for a value below sixteen.
pub open spec fn hex_digit(nibble: u8) -> char {
    match nibble {
        0 => '0',
        1 => '1',
        2 => '2',
        3 => '3',
        4 => '4',
        5 => '5',
        6 => '6',
        7 => '7',
        8 => '8',
        9 => '9',
        10 => 'a',
        11 => 'b',
        12 => 'c',
        13 => 'd',
        14 => 'e',
        _ => 'f',
    }
}

/// The digit that stands for `nibble`, as text.
fn digit(nibble: u8) -> (text: &'static str)
    requires
        nibble < 16,
    ensures
        text@ == seq![hex_digit(nibble)],
{
    proof {
        reveal_strlit("0");
        reveal_strlit("1");
        reveal_strlit("2");
        reveal_strlit("3");
        reveal_strlit("4");
        reveal_strlit("5");
        reveal_strlit("6");
        reveal_strlit("7");
        reveal_strlit("8");
        reveal_strlit("9");
        reveal_strlit("a");
        reveal_strlit("b");
        reveal_strlit("c");
        reveal_strlit("d");
        reveal_strlit("e");
        reveal_strlit("f");
    }
    let text = match nibble {
        0 => "0",
        1 => "1",
        2 => "2",
        3 => "3",
        4 => "4",
        5 => "5",
        6 => "6",
        7 => "7",
        8 => "8",
        9 => "9",
        10 => "a",
        11 => "b",
        12 => "c",
        13 => "d",
        14 => "e",
        _ => "f",
    };
    assert(text@ =~= seq![hex_digit(nibble)]);
    text
}

/// The bytes as lower-case hexadecimal digits, two for each byte, the
/// higher half first.
pub fn to_hex(bytes: &Vec<u8>) -> (hex: String)
    ensures
        hex@.len() == 2 * bytes@.len(),
        forall|i: int|
            0 <= i < bytes@.len() ==> hex@[2 * i] == hex_digit(#[trigger] bytes@[i] / 16) && hex@[2
                * i + 1] == hex_digit(bytes@[i] % 16),
{
    let mut hex = String::new();
    let mut i: usize = 0;
    while i < bytes.len()
        invariant
            i <= bytes.len(),
            hex@.len() == 2 * i,
            forall|j: int|
                0 <= j < i ==> hex@[2 * j] == hex_digit(#[trigger] bytes@[j] / 16) && hex@[2 * j
                    + 1] == hex_digit(bytes@[j] % 16),
        decreases bytes.len() - i,
    {
        let byte = bytes[i];
        let ghost before = hex@;
        hex.append(digit(byte / 16));
        hex.append(digit(byte % 16));
        proof {
            assert(hex@ =~= before.push(hex_digit(byte / 16)).push(hex_digit(byte % 16)));
            assert forall|j: int| 0 <= j < i + 1 implies hex@[2 * j] == hex_digit(
                #[trigger] bytes@[j] / 16,
            ) && hex@[2 * j + 1] == hex_digit(bytes@[j] % 16) by {
                if j < i {
                    assert(hex@[2 * j] == before[2 * j]);
                    assert(hex@[2 * j + 1] == before[2 * j + 1]);
                }
            }
        }
        i += 1;
    }
    hex
}

} // verus!
