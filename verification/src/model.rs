//! The mathematical model of the format: what a record is, what the
//! scanners return on every buffer, and what serialization produces.

use vstd::prelude::*;

verus! {

/// The byte that ends the name field (`|`).
pub const NAME_DELIM: u8 = 124;

/// The byte that ends the length field (`~`).
pub const LENGTH_DELIM: u8 = 126;

/// The character a raw byte stands for: the scanners read a buffer byte by
/// byte and treat each byte as the character with that code point.
pub open spec fn byte_char(b: u8) -> char {
    b as char
}

/// The characters a byte span stands for, byte by byte.
pub open spec fn chars_of(bytes: Seq<u8>) -> Seq<char> {
    bytes.map_values(|b: u8| byte_char(b))
}

/// The bytes a character sequence stands for; exact on characters whose code
/// point is below 256.
pub open spec fn bytes_of(s: Seq<char>) -> Seq<u8> {
    s.map_values(|c: char| (c as u32) as u8)
}

/// A character's code point.
pub open spec fn char_code(c: char) -> u32 {
    c as u32
}

/// True when every character's code point is below 256, so that the
/// character round-trips through a single buffer byte.
pub open spec fn single_byte_chars(s: Seq<char>) -> bool {
    forall|i: int| 0 <= i < s.len() ==> char_code(#[trigger] s[i]) < 256
}

/// The model of one record: a name, a declared content length, and the
/// optional content.
#[verifier::ext_equal]
pub ghost struct RecordV {
    pub name: Seq<char>,
    pub length: nat,
    pub content: Option<Seq<char>>,
}

/// A record is well formed when content is present exactly for a non-zero
/// length, the content holds exactly that many characters, and the length
/// fits the machine word that carries it.
pub open spec fn well_formed(r: RecordV) -> bool {
    &&& r.content is Some <==> r.length != 0
    &&& match r.content {
        Some(c) => c.len() == r.length,
        None => true,
    }
    &&& r.length <= usize::MAX
}

/// The model of a parse error.
#[verifier::ext_equal]
pub ghost enum ErrorV {
    /// A delimiter or a length promised more data than the buffer holds.
    Incomplete(Seq<char>),
    /// The buffer ran out while a delimiter was still expected.
    NoStructure,
    /// The length field's text is not a non-negative integer.
    BadStructure(Seq<char>),
    /// Content of length zero was asked for.
    NoContent,
}

// ---------------------------------------------------------------------------
// Decimal digits
// ---------------------------------------------------------------------------

/// True for the ten decimal digit characters.
pub open spec fn is_digit(c: char) -> bool {
    48 <= c as u32 <= 57
}

/// The numeric value of a digit character.
pub open spec fn digit_val(c: char) -> nat {
    (c as u32 - 48) as nat
}

/// True when every character of `s` is a decimal digit.
pub open spec fn all_digits(s: Seq<char>) -> bool {
    forall|i: int| 0 <= i < s.len() ==> is_digit(#[trigger] s[i])
}

/// The number that a digit string denotes, most significant digit first.
pub open spec fn digits_value(s: Seq<char>) -> nat
    decreases s.len(),
{
    if s.len() == 0 {
        0
    } else {
        digits_value(s.drop_last()) * 10 + digit_val(s.last())
    }
}

/// A length field's text is valid when it is a non-empty run of decimal
/// digits whose value fits the machine word that carries a length.
pub open spec fn valid_length_text(s: Seq<char>) -> bool {
    &&& s.len() > 0
    &&& all_digits(s)
    &&& digits_value(s) <= usize::MAX
}

/// The digit character for a value below ten.
pub open spec fn digit_char(d: nat) -> char {
    ((48 + d) as u8) as char
}

/// The canonical decimal rendering of a number: no sign, no leading zeros.
pub open spec fn decimal_chars(n: nat) -> Seq<char>
    decreases n,
{
    if n < 10 {
        seq![digit_char(n)]
    } else {
        decimal_chars(n / 10).push(digit_char(n % 10))
    }
}

// ---------------------------------------------------------------------------
// Error messages
// ---------------------------------------------------------------------------

/// The detail carried when the name delimiter is the last byte.
pub open spec fn incomplete_name_msg(name: Seq<char>, pos: int) -> Seq<char> {
    "No more data after name ("@ + name + ") field at position "@ + decimal_chars(pos as nat)
        + "."@
}

/// The detail carried when a non-zero length has no content bytes after it.
pub open spec fn incomplete_length_msg(name: Seq<char>, pos: int) -> Seq<char> {
    "No more data after length (name: "@ + name + ") field at position "@ + decimal_chars(
        pos as nat,
    ) + "."@
}

/// The detail carried when the length field's text is not a number.
pub open spec fn bad_length_msg(text: Seq<char>) -> Seq<char> {
    "Could not parse the length field. Contains: "@ + text
}

/// The detail carried when the buffer ends inside the content.
pub open spec fn incomplete_content_msg(name: Seq<char>, missing: nat) -> Seq<char> {
    "The object (name: "@ + name + ") is incomplete. Bytes missing = "@ + decimal_chars(missing)
        + " ."@
}

/// The human-readable rendering of an error.
pub open spec fn error_text(e: ErrorV) -> Seq<char> {
    match e {
        ErrorV::Incomplete(info) => "Error: Incomplete data: "@ + info,
        ErrorV::NoStructure => "Error: No structure: The data does not follow the mON structure."@,
        ErrorV::BadStructure(info) => "Error: Bad data: "@ + info,
        ErrorV::NoContent => "Error: Content of length 0 cannot be parsed."@,
    }
}

// ---------------------------------------------------------------------------
// The scanners
// ---------------------------------------------------------------------------

/// The name scanner from position `i`, having already collected `acc`:
/// consumes characters up to and including the first name delimiter, which
/// must not be the buffer's last byte.
pub open spec fn name_scan(bytes: Seq<u8>, i: int, acc: Seq<char>) -> Result<
    (Seq<char>, int),
    ErrorV,
>
    decreases bytes.len() - i,
{
    if i < 0 || i >= bytes.len() {
        Err(ErrorV::NoStructure)
    } else if bytes[i] == NAME_DELIM {
        if i + 1 < bytes.len() {
            Ok((acc, i + 1))
        } else {
            Err(ErrorV::Incomplete(incomplete_name_msg(acc, i)))
        }
    } else {
        name_scan(bytes, i + 1, acc.push(byte_char(bytes[i])))
    }
}

/// What parsing a name from position `i` returns, and where the cursor lands.
pub open spec fn spec_parse_name(bytes: Seq<u8>, i: int) -> Result<(Seq<char>, int), ErrorV> {
    name_scan(bytes, i, Seq::empty())
}

/// The length scanner from position `i`, having already collected `acc`:
/// consumes characters up to and including the first length delimiter and
/// reads the collected text as a decimal number.  When the delimiter is the
/// buffer's last byte, only a zero length is valid.
pub open spec fn length_scan(bytes: Seq<u8>, i: int, name: Seq<char>, acc: Seq<char>) -> Result<
    (nat, int),
    ErrorV,
>
    decreases bytes.len() - i,
{
    if i < 0 || i >= bytes.len() {
        Err(ErrorV::NoStructure)
    } else if bytes[i] == LENGTH_DELIM {
        if !valid_length_text(acc) {
            Err(ErrorV::BadStructure(bad_length_msg(acc)))
        } else if i + 1 < bytes.len() {
            Ok((digits_value(acc), i + 1))
        } else if digits_value(acc) == 0 {
            Ok((0, i + 1))
        } else {
            Err(ErrorV::Incomplete(incomplete_length_msg(name, i)))
        }
    } else {
        length_scan(bytes, i + 1, name, acc.push(byte_char(bytes[i])))
    }
}

/// What parsing a length from position `i` returns, and where the cursor
/// lands.  `name` is the already parsed record name, reported on failure.
pub open spec fn spec_parse_length(bytes: Seq<u8>, i: int, name: Seq<char>) -> Result<
    (nat, int),
    ErrorV,
> {
    length_scan(bytes, i, name, Seq::empty())
}

/// How many content bytes are missing when the buffer ends early.
pub open spec fn missing_count(bytes: Seq<u8>, i: int, len: nat) -> nat {
    if 0 <= i <= bytes.len() {
        (len - (bytes.len() - i)) as nat
    } else {
        len
    }
}

/// What parsing `len` content bytes from position `i` returns: exactly that
/// many bytes, verbatim.  A zero length must not be asked for.
pub open spec fn spec_parse_content(bytes: Seq<u8>, i: int, name: Seq<char>, len: nat) -> Result<
    (Seq<char>, int),
    ErrorV,
> {
    if len == 0 {
        Err(ErrorV::NoContent)
    } else if 0 <= i && i + len <= bytes.len() {
        Ok((chars_of(bytes.subrange(i, i + len)), i + len))
    } else {
        Err(ErrorV::Incomplete(incomplete_content_msg(name, missing_count(bytes, i, len))))
    }
}

/// What parsing one whole record from position `i` returns: name, then
/// length, then content when the length is not zero; the first failure is
/// passed through unchanged.
pub open spec fn spec_parse_one(bytes: Seq<u8>, i: int) -> Result<(RecordV, int), ErrorV> {
    match spec_parse_name(bytes, i) {
        Err(e) => Err(e),
        Ok((name, j)) => match spec_parse_length(bytes, j, name) {
            Err(e) => Err(e),
            Ok((len, k)) => if len == 0 {
                Ok((RecordV { name, length: 0, content: None }, k))
            } else {
                match spec_parse_content(bytes, k, name, len) {
                    Err(e) => Err(e),
                    Ok((content, m)) => Ok(
                        (RecordV { name, length: len, content: Some(content) }, m),
                    ),
                }
            },
        },
    }
}

/// What parsing records one after the other from position `i` to the exact
/// end of the buffer returns.  Each successful record moves the cursor
/// strictly forward (the guard below never fails; see
/// `lemma_parse_one_advances`).
pub open spec fn spec_parse_all_from(bytes: Seq<u8>, i: int) -> Result<Seq<RecordV>, ErrorV>
    decreases bytes.len() - i,
{
    if i >= bytes.len() {
        Ok(Seq::empty())
    } else {
        match spec_parse_one(bytes, i) {
            Err(e) => Err(e),
            Ok((r, j)) => if i < j <= bytes.len() {
                match spec_parse_all_from(bytes, j) {
                    Err(e) => Err(e),
                    Ok(rest) => Ok(seq![r] + rest),
                }
            } else {
                Err(ErrorV::NoStructure)
            },
        }
    }
}

/// What parsing a whole buffer returns: the records in encounter order, or
/// the first error.
pub open spec fn spec_parse_all(bytes: Seq<u8>) -> Result<Seq<RecordV>, ErrorV> {
    spec_parse_all_from(bytes, 0)
}

// ---------------------------------------------------------------------------
// Cursor bounds
// ---------------------------------------------------------------------------

/// A successful name scan lands the cursor strictly forward and strictly
/// inside the buffer.
pub proof fn lemma_name_scan_bounds(bytes: Seq<u8>, i: int, acc: Seq<char>)
    ensures
        name_scan(bytes, i, acc) matches Ok(p) ==> i < p.1 < bytes.len(),
    decreases bytes.len() - i,
{
    if i < 0 || i >= bytes.len() {
    } else if bytes[i] == NAME_DELIM {
    } else {
        lemma_name_scan_bounds(bytes, i + 1, acc.push(byte_char(bytes[i])));
    }
}

/// A successful length scan lands the cursor strictly forward, at most at
/// the buffer end, and at the end only for a zero length; the length fits
/// the machine word.
pub proof fn lemma_length_scan_bounds(bytes: Seq<u8>, i: int, name: Seq<char>, acc: Seq<char>)
    ensures
        length_scan(bytes, i, name, acc) matches Ok(p) ==> i < p.1 <= bytes.len() && (p.0 != 0
            ==> p.1 < bytes.len()) && p.0 <= usize::MAX,
    decreases bytes.len() - i,
{
    if i < 0 || i >= bytes.len() {
    } else if bytes[i] == LENGTH_DELIM {
    } else {
        lemma_length_scan_bounds(bytes, i + 1, name, acc.push(byte_char(bytes[i])));
    }
}

/// A successful record scan lands the cursor strictly forward and at most at
/// the buffer end, and yields a well-formed record.
pub proof fn lemma_parse_one_advances(bytes: Seq<u8>, i: int)
    ensures
        spec_parse_one(bytes, i) matches Ok(p) ==> i < p.1 <= bytes.len() && well_formed(p.0),
{
    lemma_name_scan_bounds(bytes, i, Seq::empty());
    match spec_parse_name(bytes, i) {
        Ok(p) => {
            lemma_length_scan_bounds(bytes, p.1, p.0, Seq::empty());
        },
        Err(_) => {},
    }
}

// ---------------------------------------------------------------------------
// The serializer
// ---------------------------------------------------------------------------

/// The canonical textual encoding of a record: name, `|`, the decimal
/// length, `~`, then the content when present.
pub open spec fn spec_serialize(r: RecordV) -> Seq<char> {
    r.name + seq!['|'] + decimal_chars(r.length) + seq!['~'] + (match r.content {
        Some(c) => c,
        None => Seq::<char>::empty(),
    })
}

} // verus!
