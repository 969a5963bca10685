//! Turning a user-entered bit string into the byte sequence the CRC engine
//! consumes: spaces are dropped, what remains must be at most 96 characters
//! of '0' and '1', and each run of eight characters (the last run possibly
//! shorter) becomes one byte, most significant bit first.

use vstd::prelude::*;

verus! {

/// Why a bit string was rejected.
#[derive(Clone, Copy, Debug, PartialEq, Eq, Structural)]
pub enum ParseError {
    /// The string holds more than 96 bits once spaces are removed.
    TooLong,
    /// A character other than '0', '1' and space occurs.
    InvalidCharacter,
}

/// The ASCII space character.
pub open spec fn is_space(ch: u8) -> bool {
    ch == 32
}

/// The ASCII characters '0' and '1'.
pub open spec fn is_bit_char(ch: u8) -> bool {
    ch == 48 || ch == 49
}

/// The input with every space removed, order kept.
pub open spec fn strip_spaces(s: Seq<u8>) -> Seq<u8>
    decreases s.len(),
{
    if s.len() == 0 {
        Seq::empty()
    } else if is_space(s.last()) {
        strip_spaces(s.drop_last())
    } else {
        strip_spaces(s.drop_last()).push(s.last())
    }
}

/// Two to the `n`th.
pub open spec fn two_to(n: nat) -> nat
    decreases n,
{
    if n == 0 {
        1
    } else {
        2 * two_to((n - 1) as nat)
    }
}

/// The value of a run of bit characters, most significant first.
pub open spec fn chunk_value(c: Seq<u8>) -> nat
    decreases c.len(),
{
    if c.len() == 0 {
        0
    } else {
        2 * chunk_value(c.drop_last()) + (if c.last() == 49 {
            1nat
        } else {
            0nat
        })
    }
}

/// The bytes of a cleaned bit string: eight characters to a byte from the
/// front, the last chunk possibly shorter.
pub open spec fn chunk_bytes(c: Seq<u8>) -> Seq<u8>
    decreases c.len(),
{
    if c.len() == 0 {
        Seq::empty()
    } else if c.len() <= 8 {
        seq![chunk_value(c) as u8]
    } else {
        seq![chunk_value(c.take(8)) as u8].add(chunk_bytes(c.skip(8)))
    }
}

/// A run of `n` bit characters encodes a value below `2^n`.
proof fn lemma_chunk_value_bound(c: Seq<u8>)
    ensures
        chunk_value(c) < two_to(c.len()),
    decreases c.len(),
{
    if c.len() > 0 {
        lemma_chunk_value_bound(c.drop_last());
    }
}

/// A run of at most eight bit characters encodes one byte.
proof fn lemma_chunk_value_byte(c: Seq<u8>)
    requires
        c.len() <= 8,
    ensures
        chunk_value(c) < 256,
{
    lemma_chunk_value_bound(c);
    reveal_with_fuel(two_to, 9);
    assert(two_to(8) == 256);
}

/// A cleaned bit string of `n` characters becomes exactly `(n + 7) / 8`
/// bytes; in particular at most 12 of them for the 96 bits allowed.
pub proof fn lemma_chunk_bytes_len(c: Seq<u8>)
    ensures
        chunk_bytes(c).len() == (c.len() + 7) / 8,
    decreases c.len(),
{
    if c.len() > 8 {
        lemma_chunk_bytes_len(c.skip(8));
    }
}

/// Parses a user-entered bit string, handed over as its ASCII bytes.
///
/// Success is owed exactly when, after spaces are dropped, at most 96
/// characters remain and every one of them is '0' or '1'; the result is then
/// the chunked byte sequence, at most 12 bytes. A longer cleaned string is
/// `TooLong`; an in-range cleaned string with any other character is
/// `InvalidCharacter`.
pub fn parse_bit_string(input: &[u8]) -> (r: Result<Vec<u8>, ParseError>)
    ensures
        ({
            let cleaned = strip_spaces(input@);
            match r {
                Ok(bytes) => {
                    &&& cleaned.len() <= 96
                    &&& forall|i: int| 0 <= i < cleaned.len() ==> is_bit_char(cleaned[i])
                    &&& bytes@ == chunk_bytes(cleaned)
                    &&& bytes@.len() <= 12
                },
                Err(ParseError::TooLong) => cleaned.len() > 96,
                Err(ParseError::InvalidCharacter) => {
                    &&& cleaned.len() <= 96
                    &&& exists|i: int| 0 <= i < cleaned.len() && !is_bit_char(cleaned[i])
                },
            }
        }),
{
    let mut cleaned: Vec<u8> = Vec::new();
    let mut i: usize = 0;
    while i < input.len()
        invariant
            i <= input@.len(),
            cleaned@ == strip_spaces(input@.take(i as int)),
        decreases input@.len() - i,
    {
        proof {
            assert(input@.take(i + 1).drop_last() =~= input@.take(i as int));
        }
        let ch = input[i];
        if ch != 32 {
            cleaned.push(ch);
        }
        i += 1;
    }
    proof {
        assert(input@.take(input@.len() as int) =~= input@);
    }

    if cleaned.len() > 96 {
        return Err(ParseError::TooLong);
    }

    let mut k: usize = 0;
    while k < cleaned.len()
        invariant
            k <= cleaned@.len(),
            cleaned@.len() <= 96,
            cleaned@ == strip_spaces(input@),
            forall|j: int| 0 <= j < k ==> is_bit_char(cleaned@[j]),
        decreases cleaned@.len() - k,
    {
        let ch = cleaned[k];
        if ch != 48 && ch != 49 {
            proof {
                assert(!is_bit_char(strip_spaces(input@)[k as int]));
            }
            return Err(ParseError::InvalidCharacter);
        }
        k += 1;
    }

    let ghost c = cleaned@;
    let mut out: Vec<u8> = Vec::new();
    let mut pos: usize = 0;
    proof {
        assert(c.skip(0) =~= c);
    }
    while pos < cleaned.len()
        invariant
            pos <= cleaned@.len(),
            cleaned@.len() <= 96,
            c == cleaned@,
            forall|j: int| 0 <= j < c.len() ==> is_bit_char(c[j]),
            chunk_bytes(c) =~= out@ + chunk_bytes(c.skip(pos as int)),
        decreases cleaned@.len() - pos,
    {
        let end = if cleaned.len() - pos < 8 {
            cleaned.len()
        } else {
            pos + 8
        };

        let mut value: u8 = 0;
        let mut k: usize = pos;
        proof {
            assert(c.subrange(pos as int, pos as int) =~= Seq::<u8>::empty());
        }
        while k < end
            invariant
                pos <= k <= end <= c.len(),
                end - pos <= 8,
                c == cleaned@,
                forall|j: int| 0 <= j < c.len() ==> is_bit_char(c[j]),
                value == chunk_value(c.subrange(pos as int, k as int)),
            decreases end - k,
        {
            proof {
                let sub = c.subrange(pos as int, k + 1);
                assert(sub.drop_last() =~= c.subrange(pos as int, k as int));
                assert(sub.last() == c[k as int]);
                lemma_chunk_value_bound(sub.drop_last());
                lemma_two_to_le(sub.drop_last().len(), 7);
                reveal_with_fuel(two_to, 8);
                assert(two_to(7) == 128);
                assert(value < 128);
            }
            let ch = cleaned[k];
            value = value * 2 + (ch - 48);
            k += 1;
        }

        out.push(value);
        proof {
            let rest = c.skip(pos as int);
            if c.len() - pos <= 8 {
                assert(c.subrange(pos as int, end as int) =~= rest);
                assert(chunk_bytes(rest) =~= seq![chunk_value(rest) as u8]);
                lemma_chunk_value_byte(rest);
                assert(c.skip(end as int) =~= Seq::<u8>::empty());
            } else {
                assert(c.subrange(pos as int, end as int) =~= rest.take(8));
                assert(rest.skip(8) =~= c.skip(end as int));
                lemma_chunk_value_byte(rest.take(8));
            }
            assert(chunk_bytes(c) =~= (out@ + chunk_bytes(c.skip(end as int))));
        }
        pos = end;
    }

    proof {
        assert(c.skip(pos as int) =~= Seq::<u8>::empty());
        assert(out@ =~= chunk_bytes(c));
        lemma_chunk_bytes_len(c);
    }
    Ok(out)
}

/// `two_to` grows with its exponent.
proof fn lemma_two_to_le(a: nat, b: nat)
    requires
        a <= b,
    ensures
        two_to(a) <= two_to(b),
    decreases b,
{
    if a < b && b > 0 {
        lemma_two_to_le(a, (b - 1) as nat);
    }
}

} // verus!
