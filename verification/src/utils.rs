//! Deriving a display color from a username.

use std::collections::hash_map::DefaultHasher;
use std::hash::Hasher;

use vstd::prelude::*;
use vstd::string::StringSliceAdditionalSpecFns;
use vstd::std_specs::hash::DefaultHasherAdditionalSpecFns;
use vstd::string::StringExecFns;

verus! {

/// The 24-bit color derived from a byte string: the low three bytes of its
/// stable hash.
pub open spec fn spec_string_color(bytes: Seq<u8>) -> (u8, u8, u8) {
    let h = DefaultHasher::spec_finish(seq![bytes]);
    ((h & 0xFF) as u8, ((h >> 8) & 0xFF) as u8, ((h >> 16) & 0xFF) as u8)
}

/// Hash the input to a deterministic `(r, g, b)` triple.
pub fn string_to_color(input: &str) -> (rgb: (u8, u8, u8))
    ensures
        rgb == spec_string_color(input.spec_bytes()),
{
    let mut hasher = DefaultHasher::new();
    hasher.write(input.as_bytes());
    let hash = hasher.finish();
    proof {
        assert(hasher@ =~= seq![input.spec_bytes()]);
    }

    let red = (hash & 0xFF) as u8;
    let green = ((hash >> 8) & 0xFF) as u8;
    let blue = ((hash >> 16) & 0xFF) as u8;

    (red, green, blue)
}

/// The character for one hex digit, upper case.
pub open spec fn spec_hex_char(d: int) -> char {
    if d == 0 {
        '0'
    } else if d == 1 {
        '1'
    } else if d == 2 {
        '2'
    } else if d == 3 {
        '3'
    } else if d == 4 {
        '4'
    } else if d == 5 {
        '5'
    } else if d == 6 {
        '6'
    } else if d == 7 {
        '7'
    } else if d == 8 {
        '8'
    } else if d == 9 {
        '9'
    } else if d == 10 {
        'A'
    } else if d == 11 {
        'B'
    } else if d == 12 {
        'C'
    } else if d == 13 {
        'D'
    } else if d == 14 {
        'E'
    } else {
        'F'
    }
}

/// The two hex digits of one byte.
pub open spec fn spec_hex_byte(b: int) -> Seq<char> {
    seq![spec_hex_char(b / 16), spec_hex_char(b % 16)]
}

/// The `#RRGGBB` rendering of a color.
pub open spec fn spec_color_hex(c: (u8, u8, u8)) -> Seq<char> {
    seq!['#'] + spec_hex_byte(c.0 as int) + spec_hex_byte(c.1 as int) + spec_hex_byte(c.2 as int)
}

/// One hex digit as a string slice.
pub(crate) fn hex_char_str(d: u8) -> (r: &'static str)
    requires
        d < 16,
    ensures
        r@ =~= seq![spec_hex_char(d as int)],
{
    if d == 0 {
        proof {
            reveal_strlit("0");
        }
        "0"
    } else if d == 1 {
        proof {
            reveal_strlit("1");
        }
        "1"
    } else if d == 2 {
        proof {
            reveal_strlit("2");
        }
        "2"
    } else if d == 3 {
        proof {
            reveal_strlit("3");
        }
        "3"
    } else if d == 4 {
        proof {
            reveal_strlit("4");
        }
        "4"
    } else if d == 5 {
        proof {
            reveal_strlit("5");
        }
        "5"
    } else if d == 6 {
        proof {
            reveal_strlit("6");
        }
        "6"
    } else if d == 7 {
        proof {
            reveal_strlit("7");
        }
        "7"
    } else if d == 8 {
        proof {
            reveal_strlit("8");
        }
        "8"
    } else if d == 9 {
        proof {
            reveal_strlit("9");
        }
        "9"
    } else if d == 10 {
        proof {
            reveal_strlit("A");
        }
        "A"
    } else if d == 11 {
        proof {
            reveal_strlit("B");
        }
        "B"
    } else if d == 12 {
        proof {
            reveal_strlit("C");
        }
        "C"
    } else if d == 13 {
        proof {
            reveal_strlit("D");
        }
        "D"
    } else if d == 14 {
        proof {
            reveal_strlit("E");
        }
        "E"
    } else {
        proof {
            reveal_strlit("F");
        }
        "F"
    }
}

/// Render a color as `#RRGGBB`.
pub fn color_to_hex(color: (u8, u8, u8)) -> (r: String)
    ensures
        r@ == spec_color_hex(color),
{
    let mut s = String::new();
    proof {
        reveal_strlit("#");
    }
    s.append("#");
    s.append(hex_char_str(color.0 / 16));
    s.append(hex_char_str(color.0 % 16));
    s.append(hex_char_str(color.1 / 16));
    s.append(hex_char_str(color.1 % 16));
    s.append(hex_char_str(color.2 / 16));
    s.append(hex_char_str(color.2 % 16));
    proof {
        assert(s@ =~= spec_color_hex(color));
    }
    s
}

} // verus!
