//! Hexadecimal text, with the usual digits and with the letters `z` to `k`.

use vstd::prelude::*;
use vstd::string::*;
use vstd::utf8::*;

verus! {

/// The digits `0` to `f`.
pub open spec fn hex_digits() -> Seq<char> {
    seq!['0', '1', '2', '3', '4', '5', '6', '7', '8', '9', 'a', 'b', 'c', 'd', 'e', 'f']
}

/// The "reverse" digits `z` to `k`.
pub open spec fn reverse_hex_digits() -> Seq<char> {
    seq!['z', 'y', 'x', 'w', 'v', 'u', 't', 's', 'r', 'q', 'p', 'o', 'n', 'm', 'l', 'k']
}

/// The `i`-th half of a byte, the high half of each byte first.
pub open spec fn nibble(bytes: Seq<u8>, i: int) -> int {
    if i % 2 == 0 {
        bytes[i / 2] as int / 16
    } else {
        bytes[i / 2] as int % 16
    }
}

/// The text that spells the halves of `bytes` with the given digits.
pub open spec fn spell(digits: Seq<char>, bytes: Seq<u8>) -> Seq<char> {
    Seq::new(2 * bytes.len(), |i: int| digits[nibble(bytes, i)])
}

/// The value of a "reverse" digit in ASCII, which may be in either case: the
/// letters `k` to `z` are 0x6b to 0x7a, and `K` to `Z` are 0x4b to 0x5a.
pub open spec fn reverse_hex_value(b: u8) -> Option<u8> {
    if 0x6b <= b <= 0x7a {
        Some((0x7a - b) as u8)
    } else if 0x4b <= b <= 0x5a {
        Some((0x5a - b) as u8)
    } else {
        None
    }
}

/// What a text of "reverse" digits stands for, if it is one: two digits for
/// each byte.
pub open spec fn reverse_hex_decoded(text: Seq<u8>) -> Option<Seq<u8>> {
    if text.len() % 2 == 0 && (forall|i: int|
        0 <= i < text.len() ==> reverse_hex_value(#[trigger] text[i]) is Some) {
        Some(
            Seq::new(
                text.len() / 2,
                |i: int|
                    (reverse_hex_value(text[2 * i])->0 * 16 + reverse_hex_value(
                        text[2 * i + 1],
                    )->0) as u8,
            ),
        )
    } else {
        None
    }
}

fn hex_digit(n: u8) -> (r: &'static str)
    requires
        n < 16,
    ensures
        r@ =~= seq![hex_digits()[n as int]],
{
    match n {
        0 => {
            proof {
                reveal_strlit("0");
            }
            "0"
        },
        1 => {
            proof {
                reveal_strlit("1");
            }
            "1"
        },
        2 => {
            proof {
                reveal_strlit("2");
            }
            "2"
        },
        3 => {
            proof {
                reveal_strlit("3");
            }
            "3"
        },
        4 => {
            proof {
                reveal_strlit("4");
            }
            "4"
        },
        5 => {
            proof {
                reveal_strlit("5");
            }
            "5"
        },
        6 => {
            proof {
                reveal_strlit("6");
            }
            "6"
        },
        7 => {
            proof {
                reveal_strlit("7");
            }
            "7"
        },
        8 => {
            proof {
                reveal_strlit("8");
            }
            "8"
        },
        9 => {
            proof {
                reveal_strlit("9");
            }
            "9"
        },
        10 => {
            proof {
                reveal_strlit("a");
            }
            "a"
        },
        11 => {
            proof {
                reveal_strlit("b");
            }
            "b"
        },
        12 => {
            proof {
                reveal_strlit("c");
            }
            "c"
        },
        13 => {
            proof {
                reveal_strlit("d");
            }
            "d"
        },
        14 => {
            proof {
                reveal_strlit("e");
            }
            "e"
        },
        _ => {
            proof {
                reveal_strlit("f");
            }
            "f"
        },
    }
}

fn reverse_hex_digit(n: u8) -> (r: &'static str)
    requires
        n < 16,
    ensures
        r@ =~= seq![reverse_hex_digits()[n as int]],
{
    match n {
        0 => {
            proof {
                reveal_strlit("z");
            }
            "z"
        },
        1 => {
            proof {
                reveal_strlit("y");
            }
            "y"
        },
        2 => {
            proof {
                reveal_strlit("x");
            }
            "x"
        },
        3 => {
            proof {
                reveal_strlit("w");
            }
            "w"
        },
        4 => {
            proof {
                reveal_strlit("v");
            }
            "v"
        },
        5 => {
            proof {
                reveal_strlit("u");
            }
            "u"
        },
        6 => {
            proof {
                reveal_strlit("t");
            }
            "t"
        },
        7 => {
            proof {
                reveal_strlit("s");
            }
            "s"
        },
        8 => {
            proof {
                reveal_strlit("r");
            }
            "r"
        },
        9 => {
            proof {
                reveal_strlit("q");
            }
            "q"
        },
        10 => {
            proof {
                reveal_strlit("p");
            }
            "p"
        },
        11 => {
            proof {
                reveal_strlit("o");
            }
            "o"
        },
        12 => {
            proof {
                reveal_strlit("n");
            }
            "n"
        },
        13 => {
            proof {
                reveal_strlit("m");
            }
            "m"
        },
        14 => {
            proof {
                reveal_strlit("l");
            }
            "l"
        },
        _ => {
            proof {
                reveal_strlit("k");
            }
            "k"
        },
    }
}

/// Spells `bytes` with the digits `0` to `f`.
pub fn encode_hex(bytes: &[u8]) -> (r: String)
    ensures
        r@ == spell(hex_digits(), bytes@),
{
    let mut r = String::new();
    let n = bytes.len();
    for i in 0..n
        invariant
            n == bytes.len(),
            r@ == spell(hex_digits(), bytes@.take(i as int)),
    {
        let b = bytes[i];
        r.append(hex_digit(b / 16));
        r.append(hex_digit(b % 16));
        assert(r@ =~= spell(hex_digits(), bytes@.take(i + 1)));
    }
    assert(bytes@.take(n as int) =~= bytes@);
    r
}

/// Spells `bytes` with the digits `z` to `k`.
pub fn encode_reverse_hex(bytes: &[u8]) -> (r: String)
    ensures
        r@ == spell(reverse_hex_digits(), bytes@),
{
    let mut r = String::new();
    let n = bytes.len();
    for i in 0..n
        invariant
            n == bytes.len(),
            r@ == spell(reverse_hex_digits(), bytes@.take(i as int)),
    {
        let b = bytes[i];
        r.append(reverse_hex_digit(b / 16));
        r.append(reverse_hex_digit(b % 16));
        assert(r@ =~= spell(reverse_hex_digits(), bytes@.take(i + 1)));
    }
    assert(bytes@.take(n as int) =~= bytes@);
    r
}

fn decode_reverse_digit(b: u8) -> (r: Option<u8>)
    ensures
        r == reverse_hex_value(b),
{
    if 0x6b <= b && b <= 0x7a {
        Some(0x7a - b)
    } else if 0x4b <= b && b <= 0x5a {
        Some(0x5a - b)
    } else {
        None
    }
}

/// Reads a text of the digits `z` to `k`, in either case.
pub fn decode_reverse_hex(text: &[u8]) -> (r: Option<Vec<u8>>)
    ensures
        match r {
            Some(bytes) => reverse_hex_decoded(text@) == Some(bytes@),
            None => reverse_hex_decoded(text@) is None,
        },
{
    let n = text.len();
    if n % 2 != 0 {
        return None;
    }
    let mut r: Vec<u8> = Vec::new();
    let mut i: usize = 0;
    while i < n
        invariant
            n == text.len(),
            n % 2 == 0,
            i <= n,
            i % 2 == 0,
            r.len() * 2 == i,
            forall|j: int| 0 <= j < i ==> reverse_hex_value(#[trigger] text[j]) is Some,
            forall|j: int|
                0 <= j < r.len() ==> #[trigger] r[j] == (reverse_hex_value(text[2 * j])->0 * 16
                    + reverse_hex_value(text[2 * j + 1])->0) as u8,
        decreases n - i,
    {
        match (decode_reverse_digit(text[i]), decode_reverse_digit(text[i + 1])) {
            (Some(high), Some(low)) => {
                r.push(high * 16 + low);
                i = i + 2;
            },
            _ => {
                return None;
            },
        }
    }
    assert(r@ =~= reverse_hex_decoded(text@)->0);
    Some(r)
}

/// Reading what spells some bytes with the digits `z` to `k` gives the bytes.
pub proof fn law_reverse_hex_round_trip(bytes: Seq<u8>)
    ensures
        reverse_hex_decoded(encode_utf8(spell(reverse_hex_digits(), bytes))) == Some(bytes),
{
    let text = spell(reverse_hex_digits(), bytes);
    let digits = reverse_hex_digits();
    assert forall|i: int| 0 <= i < text.len() implies 0 <= #[trigger] (text[i] as nat) < 128 by {
        assert(0 <= nibble(bytes, i) < 16);
    }
    is_ascii_chars_encode_utf8(text);
    let encoded = encode_utf8(text);
    assert forall|i: int| 0 <= i < encoded.len() implies reverse_hex_value(#[trigger] encoded[i])
        == Some(nibble(bytes, i) as u8) by {
        assert(0 <= nibble(bytes, i) < 16);
        assert(encoded[i] == text[i] as u8);
        assert(text[i] == digits[nibble(bytes, i)]);
        assert(digits[nibble(bytes, i)] as u8 == 0x7a - nibble(bytes, i));
    }
    assert(reverse_hex_decoded(encoded) is Some);
    assert(reverse_hex_decoded(encoded)->0 =~= bytes) by {
        assert forall|i: int| 0 <= i < bytes.len() implies reverse_hex_decoded(encoded)->0[i]
            == bytes[i] by {
            assert(nibble(bytes, 2 * i) == bytes[i] as int / 16);
            assert(nibble(bytes, 2 * i + 1) == bytes[i] as int % 16);
            assert(reverse_hex_value(encoded[2 * i]) == Some(nibble(bytes, 2 * i) as u8));
            assert(reverse_hex_value(encoded[2 * i + 1]) == Some(nibble(bytes, 2 * i + 1) as u8));
        }
    }
}

} // verus!
