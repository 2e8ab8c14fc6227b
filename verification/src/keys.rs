use vstd::prelude::*;

verus! {

use crate::errors::KeyError;

/// True of an ASCII hexadecimal digit.
pub open spec fn is_hex_digit(c: char) -> bool {
    (48 <= c as u32 && c as u32 <= 57)  // '0' ..= '9'
    || (97 <= c as u32 && c as u32 <= 102)  // 'a' ..= 'f'
    || (65 <= c as u32 && c as u32 <= 70)  // 'A' ..= 'F'
}

/// Numeric value of a hexadecimal digit.
pub open spec fn hex_value(c: char) -> u8 {
    if 48 <= c as u32 && c as u32 <= 57 {
        (c as u32 - 48) as u8
    } else if 97 <= c as u32 && c as u32 <= 102 {
        (c as u32 - 87) as u8
    } else {
        (c as u32 - 55) as u8
    }
}

/// The digits of a key string after an optional `0x` prefix.
pub open spec fn key_digits(s: Seq<char>) -> Seq<char> {
    if s.len() >= 2 && s[0] == '0' && s[1] == 'x' {
        s.skip(2)
    } else {
        s
    }
}

/// The bytes encoded by a sequence of hexadecimal digit pairs.
pub open spec fn hex_bytes(d: Seq<char>) -> Seq<u8> {
    Seq::new((d.len() / 2) as nat, |i: int| (hex_value(d[2 * i]) as u32 * 16 + hex_value(d[2 * i + 1]) as u32) as u8)
}

/// Decodes one hexadecimal digit, or reports that the character is not one.
pub fn hex_digit_value(c: char) -> (r: Option<u8>)
    ensures
        r is Some <==> is_hex_digit(c),
        r matches Some(v) ==> v == hex_value(c),
{
    let u = c as u32;
    if 48 <= u && u <= 57 {
        Some((u - 48) as u8)
    } else if 97 <= u && u <= 102 {
        Some((u - 87) as u8)
    } else if 65 <= u && u <= 70 {
        Some((u - 55) as u8)
    } else {
        None
    }
}

/// Decodes a 64-digit hexadecimal cipher key, optionally prefixed `0x`,
/// into its 32 bytes. Rejects any other length and any non-digit.
pub fn parse_key(s: &str) -> (r: Result<Vec<u8>, KeyError>)
    ensures
        ({
            let d = key_digits(s@);
            match r {
                Ok(key) => {
                    &&& d.len() == 64
                    &&& forall|i: int| 0 <= i < 64 ==> is_hex_digit(#[trigger] d[i])
                    &&& key@ == hex_bytes(d)
                    &&& key@.len() == 32
                },
                Err(KeyError::WrongLength) => d.len() != 64,
                Err(KeyError::BadDigit) => d.len() == 64 && exists|i: int|
                    0 <= i < 64 && !is_hex_digit(#[trigger] d[i]),
            }
        }),
{
    let n = s.unicode_len();
    let body: &str = if n >= 2 && s.get_char(0) == '0' && s.get_char(1) == 'x' {
        let b = s.substring_char(2, n);
        proof {
            assert(b@ =~= key_digits(s@));
        }
        b
    } else {
        s
    };
    let m = body.unicode_len();
    if m != 64 {
        return Err(KeyError::WrongLength);
    }
    let mut vals: Vec<u8> = Vec::new();
    let mut i: usize = 0;
    while i < 64
        invariant
            i <= 64,
            body@.len() == 64,
            body@ == key_digits(s@),
            vals@.len() == i,
            forall|j: int| 0 <= j < i ==> is_hex_digit(#[trigger] body@[j]) && vals@[j] == hex_value(body@[j]),
        decreases 64 - i,
    {
        match hex_digit_value(body.get_char(i)) {
            Some(v) => {
                vals.push(v);
            },
            None => {
                return Err(KeyError::BadDigit);
            },
        }
        i += 1;
    }
    let mut key: Vec<u8> = Vec::new();
    let mut k: usize = 0;
    while k < 32
        invariant
            k <= 32,
            vals@.len() == 64,
            body@.len() == 64,
            body@ == key_digits(s@),
            forall|j: int| 0 <= j < 64 ==> is_hex_digit(#[trigger] body@[j]) && vals@[j] == hex_value(body@[j]),
            key@.len() == k,
            forall|j: int| 0 <= j < k ==> key@[j] == hex_bytes(body@)[j],
        decreases 32 - k,
    {
        let hi = vals[2 * k];
        let lo = vals[2 * k + 1];
        assert(hex_value(body@[2 * (k as int)]) <= 15 && hex_value(body@[2 * (k as int) + 1]) <= 15);
        key.push(hi * 16 + lo);
        k += 1;
    }
    proof {
        assert(key@ =~= hex_bytes(body@));
    }
    Ok(key)
}

} // verus!
