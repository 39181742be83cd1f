//! Colors as byte triples, and their seven-character `#rrggbb` hex form.

use vstd::prelude::*;

verus! {

/// The lowercase hex digit for a value below sixteen.
pub open spec fn hex_digit(n: int) -> char {
    if n == 0 {
        '0'
    } else if n == 1 {
        '1'
    } else if n == 2 {
        '2'
    } else if n == 3 {
        '3'
    } else if n == 4 {
        '4'
    } else if n == 5 {
        '5'
    } else if n == 6 {
        '6'
    } else if n == 7 {
        '7'
    } else if n == 8 {
        '8'
    } else if n == 9 {
        '9'
    } else if n == 10 {
        'a'
    } else if n == 11 {
        'b'
    } else if n == 12 {
        'c'
    } else if n == 13 {
        'd'
    } else if n == 14 {
        'e'
    } else {
        'f'
    }
}

/// The value of a hex digit, upper or lower case; sixteen for anything else.
pub open spec fn hex_value(c: char) -> int {
    if c == '0' {
        0
    } else if c == '1' {
        1
    } else if c == '2' {
        2
    } else if c == '3' {
        3
    } else if c == '4' {
        4
    } else if c == '5' {
        5
    } else if c == '6' {
        6
    } else if c == '7' {
        7
    } else if c == '8' {
        8
    } else if c == '9' {
        9
    } else if c == 'a' || c == 'A' {
        10
    } else if c == 'b' || c == 'B' {
        11
    } else if c == 'c' || c == 'C' {
        12
    } else if c == 'd' || c == 'D' {
        13
    } else if c == 'e' || c == 'E' {
        14
    } else if c == 'f' || c == 'F' {
        15
    } else {
        16
    }
}

/// The two-digit lowercase hex form of one byte.
pub open spec fn hex_byte(b: int) -> Seq<char> {
    seq![hex_digit(b / 16), hex_digit(b % 16)]
}

/// A color as one byte per channel.
#[derive(Clone, Copy, Debug, PartialEq, Eq, Structural)]
pub struct RGB {
    pub r: u8,
    pub g: u8,
    pub b: u8,
}

/// The hex text of the digit for `n`.
fn hex_digit_str(n: u8) -> (s: &'static str)
    requires
        n < 16,
    ensures
        s@ =~= seq![hex_digit(n as int)],
{
    let s = match n {
        0 => "0",
        1 => "1",
        2 => "2",
        3 => "3",
        4 => "4",
        5 => "5",
        6 => "6",
        7 => "7",
        8 => "8",
        9 => "9",
        10 => "a",
        11 => "b",
        12 => "c",
        13 => "d",
        14 => "e",
        _ => "f",
    };
    proof {
        reveal_strlit("0");
        reveal_strlit("1");
        reveal_strlit("2");
        reveal_strlit("3");
        reveal_strlit("4");
        reveal_strlit("5");
        reveal_strlit("6");
        reveal_strlit("7");
        reveal_strlit("8");
        reveal_strlit("9");
        reveal_strlit("a");
        reveal_strlit("b");
        reveal_strlit("c");
        reveal_strlit("d");
        reveal_strlit("e");
        reveal_strlit("f");
    }
    s
}

impl RGB {
    /// The color's `#rrggbb` form: a hash sign followed by the six lowercase
    /// hex digits of the three channels.
    pub fn to_hex(&self) -> (s: String)
        ensures
            s@ =~= seq!['#'] + hex_byte(self.r as int) + hex_byte(self.g as int) + hex_byte(
                self.b as int,
            ),
    {
        let mut s: String = "#".to_owned();
        proof {
            reveal_strlit("#");
        }
        s.append(hex_digit_str(self.r / 16));
        s.append(hex_digit_str(self.r % 16));
        s.append(hex_digit_str(self.g / 16));
        s.append(hex_digit_str(self.g % 16));
        s.append(hex_digit_str(self.b / 16));
        s.append(hex_digit_str(self.b % 16));
        s
    }

    /// Parses a `#rrggbb` text: exactly seven characters whose last six are
    /// hex digits (either case) give the color those digits spell — the
    /// leading character is not examined; anything else gives nothing.
    pub fn from_hex(hex: &str) -> (r: Option<RGB>)
        ensures
            ({
                let ok = hex@.len() == 7 && (forall|i: int|
                    1 <= i < 7 ==> hex_value(#[trigger] hex@[i]) < 16);
                match r {
                    Some(c) => ok && c.r == hex_value(hex@[1]) * 16 + hex_value(hex@[2]) && c.g
                        == hex_value(hex@[3]) * 16 + hex_value(hex@[4]) && c.b == hex_value(
                        hex@[5],
                    ) * 16 + hex_value(hex@[6]),
                    None => !ok,
                }
            }),
    {
        if hex.unicode_len() != 7 {
            return None;
        }
        let r = match Self::hex_pair(hex, 1) {
            Some(v) => v,
            None => {
                return None;
            },
        };
        let g = match Self::hex_pair(hex, 3) {
            Some(v) => v,
            None => {
                return None;
            },
        };
        let b = match Self::hex_pair(hex, 5) {
            Some(v) => v,
            None => {
                return None;
            },
        };
        Some(RGB { r, g, b })
    }

    /// Parses the two hex digits at positions `at` and `at + 1`.
    fn hex_pair(hex: &str, at: usize) -> (r: Option<u8>)
        requires
            at <= 5,
            at + 1 < hex@.len(),
        ensures
            match r {
                Some(v) => hex_value(hex@[at as int]) < 16 && hex_value(hex@[at + 1]) < 16 && v
                    == hex_value(hex@[at as int]) * 16 + hex_value(hex@[at + 1]),
                None => hex_value(hex@[at as int]) >= 16 || hex_value(hex@[at + 1]) >= 16,
            },
    {
        let hi = match Self::digit_value(hex.get_char(at)) {
            Some(v) => v,
            None => {
                return None;
            },
        };
        let lo = match Self::digit_value(hex.get_char(at + 1)) {
            Some(v) => v,
            None => {
                return None;
            },
        };
        Some(hi * 16 + lo)
    }

    /// The value of one hex digit, if `c` is one.
    fn digit_value(c: char) -> (r: Option<u8>)
        ensures
            match r {
                Some(v) => v == hex_value(c) && v < 16,
                None => hex_value(c) >= 16,
            },
    {
        match c {
            '0' => Some(0),
            '1' => Some(1),
            '2' => Some(2),
            '3' => Some(3),
            '4' => Some(4),
            '5' => Some(5),
            '6' => Some(6),
            '7' => Some(7),
            '8' => Some(8),
            '9' => Some(9),
            'a' | 'A' => Some(10),
            'b' | 'B' => Some(11),
            'c' | 'C' => Some(12),
            'd' | 'D' => Some(13),
            'e' | 'E' => Some(14),
            'f' | 'F' => Some(15),
            _ => None,
        }
    }

    /// Rendering a color and parsing it back yields the color: the hex form
    /// loses nothing.
    pub proof fn lemma_hex_round_trip(self, s: Seq<char>)
        requires
            s =~= seq!['#'] + hex_byte(self.r as int) + hex_byte(self.g as int) + hex_byte(
                self.b as int,
            ),
        ensures
            s.len() == 7,
            forall|i: int| 1 <= i < 7 ==> hex_value(#[trigger] s[i]) < 16,
            hex_value(s[1]) * 16 + hex_value(s[2]) == self.r,
            hex_value(s[3]) * 16 + hex_value(s[4]) == self.g,
            hex_value(s[5]) * 16 + hex_value(s[6]) == self.b,
    {
        assert forall|i: int| 1 <= i < 7 implies hex_value(#[trigger] s[i]) < 16 by {
            assert(hex_value(hex_digit((self.r as int) / 16)) == (self.r as int) / 16);
            assert(hex_value(hex_digit((self.r as int) % 16)) == (self.r as int) % 16);
            assert(hex_value(hex_digit((self.g as int) / 16)) == (self.g as int) / 16);
            assert(hex_value(hex_digit((self.g as int) % 16)) == (self.g as int) % 16);
            assert(hex_value(hex_digit((self.b as int) / 16)) == (self.b as int) / 16);
            assert(hex_value(hex_digit((self.b as int) % 16)) == (self.b as int) % 16);
        }
    }
}

} // verus!
