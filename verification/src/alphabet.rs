//! The alphabet of short messages: thirty-two symbols, so that a symbol
//! takes five bits.

use vstd::prelude::*;

verus! {

/// The symbols in the order of their numbers: the letters `a` to `z`, the
/// space, and the marks `.`, `!`, `?`, `-` and `*`.
pub open spec fn alphabet() -> Seq<char> {
    seq![
        'a', 'b', 'c', 'd', 'e', 'f', 'g', 'h',
        'i', 'j', 'k', 'l', 'm', 'n', 'o', 'p',
        'q', 'r', 's', 't', 'u', 'v', 'w', 'x',
        'y', 'z', ' ', '.', '!', '?', '-', '*',
    ]
}

/// The alphabet has thirty-two symbols, and none of them twice: a symbol
/// has one number.
pub proof fn lemma_alphabet_distinct()
    ensures
        alphabet().len() == 32,
        alphabet().no_duplicates(),
{
    assert forall|i: int, j: int| 0 <= i < 32 && 0 <= j < 32 && i != j implies alphabet()[i]
        != alphabet()[j] by {
        assert(alphabet()[i] as u32 != alphabet()[j] as u32);
    }
}

/// The symbol with the given number, which is below 32.
pub fn num_to_char(number: u32) -> (symbol: char)
    requires
        number < 32,
    ensures
        symbol == alphabet()[number as int],
{
    match number {
        0 => 'a',
        1 => 'b',
        2 => 'c',
        3 => 'd',
        4 => 'e',
        5 => 'f',
        6 => 'g',
        7 => 'h',
        8 => 'i',
        9 => 'j',
        10 => 'k',
        11 => 'l',
        12 => 'm',
        13 => 'n',
        14 => 'o',
        15 => 'p',
        16 => 'q',
        17 => 'r',
        18 => 's',
        19 => 't',
        20 => 'u',
        21 => 'v',
        22 => 'w',
        23 => 'x',
        24 => 'y',
        25 => 'z',
        26 => ' ',
        27 => '.',
        28 => '!',
        29 => '?',
        30 => '-',
        _ => '*',
    }
}

/// The number of a symbol, or `None` for a character outside the alphabet.
pub fn lookup_char(symbol: char) -> (number: Option<u32>)
    ensures
        match number {
            Some(n) => n < 32 && alphabet()[n as int] == symbol,
            None => !alphabet().contains(symbol),
        },
{
    match symbol {
        'a' => Some(0),
        'b' => Some(1),
        'c' => Some(2),
        'd' => Some(3),
        'e' => Some(4),
        'f' => Some(5),
        'g' => Some(6),
        'h' => Some(7),
        'i' => Some(8),
        'j' => Some(9),
        'k' => Some(10),
        'l' => Some(11),
        'm' => Some(12),
        'n' => Some(13),
        'o' => Some(14),
        'p' => Some(15),
        'q' => Some(16),
        'r' => Some(17),
        's' => Some(18),
        't' => Some(19),
        'u' => Some(20),
        'v' => Some(21),
        'w' => Some(22),
        'x' => Some(23),
        'y' => Some(24),
        'z' => Some(25),
        ' ' => Some(26),
        '.' => Some(27),
        '!' => Some(28),
        '?' => Some(29),
        '-' => Some(30),
        '*' => Some(31),
        _ => {
            assert forall|i: int| 0 <= i < alphabet().len() implies alphabet()[i] != symbol by {}
            None
        },
    }
}

} // verus!
