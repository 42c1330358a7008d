//! Hexadecimal text, in which short identifiers are written.

use vstd::prelude::*;
#[allow(unused_imports)]
use vstd::string::*;

use crate::identity::PeerId;
#[allow(unused_imports)]
use crate::identity::lemma_peer_id_view;
use crate::wire::array8;

verus! {

/// The character of a hexadecimal digit.
pub open spec fn hex_digit(d: int) -> char {
    if d < 10 {
        (48 + d) as char
    } else {
        (87 + d) as char
    }
}

/// Bytes as text, two lower-case digits each.
pub open spec fn hex_of(b: Seq<u8>) -> Seq<char> {
    Seq::new(
        2 * b.len(),
        |i: int| hex_digit(if i % 2 == 0 { b[i / 2] as int / 16 } else { b[i / 2] as int % 16 }),
    )
}

/// The value of a hexadecimal digit of either case.
pub open spec fn digit_value(c: char) -> Option<int> {
    if '0' <= c <= '9' {
        Some(c as int - 48)
    } else if 'a' <= c <= 'f' {
        Some(c as int - 87)
    } else if 'A' <= c <= 'F' {
        Some(c as int - 55)
    } else {
        None
    }
}

/// The value of two digits.
pub open spec fn pair_value(a: char, b: char) -> Option<int> {
    match (digit_value(a), digit_value(b)) {
        (Some(x), Some(y)) => Some(16 * x + y),
        _ => None,
    }
}

/// Whether `id` is what the text says: eight pairs of digits, one for each byte.
pub open spec fn reads_as(text: Seq<char>, id: Seq<u8>) -> bool {
    &&& text.len() == 16
    &&& id.len() == 8
    &&& forall|i: int|
        0 <= i < 8 ==> pair_value(text[2 * i], text[2 * i + 1]) == Some(#[trigger] id[i] as int)
}

/// Whether the text is a short identifier.
pub open spec fn is_short_id(text: Seq<char>) -> bool {
    &&& text.len() == 16
    &&& forall|i: int|
        0 <= i < 8 ==> #[trigger] pair_value(text[2 * i], text[2 * i + 1]) is Some
}

/// The text of one digit.
fn digit_text(d: u8) -> (s: &'static str)
    requires
        d < 16,
    ensures
        s@ == seq![hex_digit(d as int)],
{
    proof {
        reveal_strlit("0");
        reveal_strlit("1");
        reveal_strlit("2");
        reveal_strlit("3");
        reveal_strlit("4");
        reveal_strlit("5");
        reveal_strlit("6");
        reveal_strlit("7");
        reveal_strlit("8");
        reveal_strlit("9");
        reveal_strlit("a");
        reveal_strlit("b");
        reveal_strlit("c");
        reveal_strlit("d");
        reveal_strlit("e");
        reveal_strlit("f");
    }
    let s = match d {
        0 => "0",
        1 => "1",
        2 => "2",
        3 => "3",
        4 => "4",
        5 => "5",
        6 => "6",
        7 => "7",
        8 => "8",
        9 => "9",
        10 => "a",
        11 => "b",
        12 => "c",
        13 => "d",
        14 => "e",
        _ => "f",
    };
    assert(s@ =~= seq![hex_digit(d as int)]);
    s
}

/// Writes bytes as text, two lower-case digits each.
pub fn to_hex(bytes: &[u8]) -> (text: String)
    ensures
        text@ == hex_of(bytes@),
{
    let mut text = String::from_str("");
    let mut i: usize = 0;
    proof {
        reveal_strlit("");
        assert(text@ =~= hex_of(bytes@.take(0)));
    }
    while i < bytes.len()
        invariant
            i <= bytes@.len(),
            text@ == hex_of(bytes@.take(i as int)),
        decreases bytes@.len() - i,
    {
        let b: u8 = bytes[i];
        text.append(digit_text(b / 16));
        text.append(digit_text(b % 16));
        assert(text@ =~= hex_of(bytes@.take(i + 1)));
        i = i + 1;
    }
    assert(bytes@.take(i as int) =~= bytes@);
    text
}

fn digit_of(c: u8) -> (r: Option<u8>)
    ensures
        r is Some <==> digit_value(c as char) is Some,
        r matches Some(d) ==> digit_value(c as char) == Some(d as int) && d < 16,
{
    if 48 <= c && c <= 57 {
        Some(c - 48)
    } else if 97 <= c && c <= 102 {
        Some(c - 87)
    } else if 65 <= c && c <= 70 {
        Some(c - 55)
    } else {
        None
    }
}

fn pair_of(a: u8, b: u8) -> (r: Option<u8>)
    ensures
        r is Some <==> pair_value(a as char, b as char) is Some,
        r matches Some(v) ==> pair_value(a as char, b as char) == Some(v as int),
{
    match (digit_of(a), digit_of(b)) {
        (Some(x), Some(y)) => Some(16 * x + y),
        _ => None,
    }
}

/// Writes a short identifier as text.
pub fn short_id_to_hex(id: [u8; 8]) -> (text: String)
    ensures
        text@ == hex_of(id@),
{
    to_hex(&id)
}

/// Reads a short identifier; nothing if the text is none.
pub fn hex_to_short_id(hex: &str) -> (r: Option<[u8; 8]>)
    ensures
        r is Some <==> is_short_id(hex@),
        r matches Some(id) ==> reads_as(hex@, id@),
{
    broadcast use is_ascii_spec_bytes;

    if !hex.is_ascii() {
        proof {
            if is_short_id(hex@) {
                assert forall|i: int| 0 <= i < hex@.len() implies '\0' <= #[trigger] hex@[i]
                    <= '\u{7f}' by {
                    let k = i / 2;
                    assert(pair_value(hex@[2 * k], hex@[2 * k + 1]) is Some);
                    assert(i == 2 * k || i == 2 * k + 1);
                }
                assert(is_ascii(hex));
            }
        }
        return None;
    }
    let bytes = hex.as_bytes();
    assert(bytes@.len() == hex@.len());
    if bytes.len() != 16 {
        return None;
    }
    assert forall|i: int| 0 <= i < 16 implies (#[trigger] bytes@[i]) as char == hex@[i] by {}
    let mut out: [u8; 8] = [0u8;8];
    let mut i: usize = 0;
    while i < 8
        invariant
            i <= 8,
            bytes@.len() == 16,
            hex@.len() == 16,
            forall|k: int| 0 <= k < 16 ==> (#[trigger] bytes@[k]) as char == hex@[k],
            forall|k: int|
                0 <= k < i ==> pair_value(hex@[2 * k], hex@[2 * k + 1]) == Some(
                    #[trigger] out@[k] as int,
                ),
        decreases 8 - i,
    {
        assert(bytes@[2 * i] as char == hex@[2 * i]);
        assert(bytes@[2 * i + 1] as char == hex@[2 * i + 1]);
        match pair_of(bytes[2 * i], bytes[2 * i + 1]) {
            Some(v) => {
                out[i] = v;
            },
            None => {
                assert(pair_value(hex@[2 * (i as int)], hex@[2 * (i as int) + 1]) is None);
                return None;
            },
        }
        i = i + 1;
    }
    proof {
        assert forall|k: int| 0 <= k < 8 implies #[trigger] pair_value(
            hex@[2 * k],
            hex@[2 * k + 1],
        ) is Some by {
            assert(pair_value(hex@[2 * k], hex@[2 * k + 1]) == Some(out@[k] as int));
        }
    }
    Some(out)
}

/// Reading a short identifier gives back the one that was written.
pub proof fn law_short_id_round_trip(id: Seq<u8>, read: Seq<u8>)
    requires
        id.len() == 8,
    ensures
        is_short_id(hex_of(id)),
        reads_as(hex_of(id), read) <==> read == id,
{
    let text = hex_of(id);
    assert forall|i: int| 0 <= i < 8 implies #[trigger] pair_value(text[2 * i], text[2 * i + 1])
        == Some(id[i] as int) by {
        assert((2 * i) / 2 == i && (2 * i) % 2 == 0);
        assert((2 * i + 1) / 2 == i && (2 * i + 1) % 2 == 1);
        let b = id[i] as int;
        assert(text[2 * i] == hex_digit(b / 16));
        assert(text[2 * i + 1] == hex_digit(b % 16));
        assert(digit_value(hex_digit(b / 16)) == Some(b / 16));
        assert(digit_value(hex_digit(b % 16)) == Some(b % 16));
    }
    if reads_as(text, read) {
        assert forall|i: int| 0 <= i < 8 implies read[i] == id[i] by {
            assert(pair_value(text[2 * i], text[2 * i + 1]) == Some(read[i] as int));
        }
        assert(read =~= id);
    }
    if read == id {
        assert forall|i: int| 0 <= i < 8 implies pair_value(text[2 * i], text[2 * i + 1]) == Some(
            #[trigger] read[i] as int,
        ) by {
            assert(pair_value(text[2 * i], text[2 * i + 1]) == Some(id[i] as int));
        }
    }
}

/// The first eight bytes of a peer's identifier.
pub open spec fn short_id_of(p: PeerId) -> Seq<u8> {
    p@.subrange(0, 8)
}

/// The first eight bytes of a peer's identifier.
pub fn short_id(peer_id: &PeerId) -> (id: [u8; 8])
    ensures
        id@ == short_id_of(*peer_id),
{
    array8(peer_id.as_bytes(), 0)
}

/// The value of a digit: the digits from 0 to 9, and the letters from a to f in either case. No
/// other character is a digit.
pub proof fn law_digit_value_exact(c: char)
    ensures
        ({
            let u = c as u32;
            digit_value(c) == if 48 <= u <= 57 {
                Some(u - 48)
            } else if 65 <= u <= 70 {
                Some(u - 55)
            } else if 97 <= u <= 102 {
                Some(u - 87)
            } else {
                None
            }
        }),
{
}

/// The text of bytes has two characters for each, which are the digits of its two halves, in lower
/// case.
pub proof fn law_hex_text_exact(b: Seq<u8>, i: int)
    requires
        0 <= i < b.len(),
    ensures
        hex_of(b).len() == 2 * b.len(),
        digit_value(hex_of(b)[2 * i]) == Some(b[i] as int / 16),
        digit_value(hex_of(b)[2 * i + 1]) == Some(b[i] as int % 16),
        !('A' <= hex_of(b)[2 * i] <= 'F'),
        !('A' <= hex_of(b)[2 * i + 1] <= 'F'),
{
    let v = b[i] as int;
    assert((2 * i) / 2 == i && (2 * i) % 2 == 0);
    assert((2 * i + 1) / 2 == i && (2 * i + 1) % 2 == 1);
    assert(hex_of(b)[2 * i] == hex_digit(v / 16));
    assert(hex_of(b)[2 * i + 1] == hex_digit(v % 16));
}

/// A text is a short identifier exactly if it consists of sixteen digits, and what it says are the
/// bytes that its eight pairs of digits stand for.
pub proof fn law_short_id_text_exact(text: Seq<char>, id: Seq<u8>)
    requires
        id.len() == 8,
    ensures
        is_short_id(text) <==> text.len() == 16 && forall|i: int|
            0 <= i < 16 ==> digit_value(#[trigger] text[i]) is Some,
        reads_as(text, id) <==> is_short_id(text) && forall|i: int|
            0 <= i < 8 ==> #[trigger] id[i] == 16 * digit_value(text[2 * i])->0 + digit_value(
                text[2 * i + 1],
            )->0,
{
    if is_short_id(text) {
        assert forall|i: int| 0 <= i < 16 implies digit_value(#[trigger] text[i]) is Some by {
            let k = i / 2;
            assert(pair_value(text[2 * k], text[2 * k + 1]) is Some);
            assert(i == 2 * k || i == 2 * k + 1);
        }
    }
    if text.len() == 16 && forall|i: int| 0 <= i < 16 ==> digit_value(#[trigger] text[i]) is Some {
        assert forall|i: int| 0 <= i < 8 implies #[trigger] pair_value(
            text[2 * i],
            text[2 * i + 1],
        ) is Some by {
            assert(digit_value(text[2 * i]) is Some);
            assert(digit_value(text[2 * i + 1]) is Some);
        }
    }
    if reads_as(text, id) {
        assert forall|i: int| 0 <= i < 8 implies #[trigger] pair_value(
            text[2 * i],
            text[2 * i + 1],
        ) is Some by {
            assert(pair_value(text[2 * i], text[2 * i + 1]) == Some(id[i] as int));
        }
        assert forall|i: int| 0 <= i < 8 implies #[trigger] id[i] == 16 * digit_value(
            text[2 * i],
        )->0 + digit_value(text[2 * i + 1])->0 by {
            assert(pair_value(text[2 * i], text[2 * i + 1]) == Some(id[i] as int));
        }
    }
    if is_short_id(text) && forall|i: int|
        0 <= i < 8 ==> #[trigger] id[i] == 16 * digit_value(text[2 * i])->0 + digit_value(
            text[2 * i + 1],
        )->0 {
        assert forall|i: int| 0 <= i < 8 implies pair_value(text[2 * i], text[2 * i + 1]) == Some(
            #[trigger] id[i] as int,
        ) by {
            assert(pair_value(text[2 * i], text[2 * i + 1]) is Some);
        }
    }
}

/// The short identifier of a peer are the first eight of its bytes.
pub proof fn law_short_id_exact(p: PeerId, i: int)
    requires
        0 <= i < 8,
    ensures
        short_id_of(p).len() == 8,
        short_id_of(p)[i] == p@[i],
{
    lemma_peer_id_view(p, p);
}

} // verus!
