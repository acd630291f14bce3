//! The format's laws: what the scanners return on every buffer, the
//! round-trip between the serializer and the scanners, the exact domain of
//! the sequence parser, and the transparency of nesting.

use vstd::prelude::*;

use crate::model::{
    all_digits, bad_length_msg, byte_char, bytes_of, chars_of, char_code, decimal_chars,
    digit_char, digit_val, digits_value, incomplete_length_msg, incomplete_name_msg, is_digit,
    lemma_parse_one_advances, length_scan, name_scan, single_byte_chars, spec_parse_all,
    spec_parse_all_from, spec_parse_content, spec_parse_length, spec_parse_name, spec_parse_one,
    spec_serialize, valid_length_text, well_formed, ErrorV, RecordV, LENGTH_DELIM, NAME_DELIM,
};

verus! {

// ---------------------------------------------------------------------------
// Where the first delimiter sits
// ---------------------------------------------------------------------------

/// The position of the first `d` byte at or after `i`, if any.
pub open spec fn first_at(bytes: Seq<u8>, i: int, d: u8) -> Option<int>
    decreases bytes.len() - i,
{
    if i < 0 || i >= bytes.len() {
        None
    } else if bytes[i] == d {
        Some(i)
    } else {
        first_at(bytes, i + 1, d)
    }
}

/// What `first_at` finds is the first occurrence, and `None` means none at
/// all.
pub proof fn lemma_first_at(bytes: Seq<u8>, i: int, d: u8)
    requires
        0 <= i,
    ensures
        match first_at(bytes, i, d) {
            None => forall|m: int| i <= m < bytes.len() ==> bytes[m] != d,
            Some(j) => i <= j < bytes.len() && bytes[j] == d && (forall|m: int|
                i <= m < j ==> bytes[m] != d),
        },
    decreases bytes.len() - i,
{
    if i >= bytes.len() {
    } else if bytes[i] == d {
    } else {
        lemma_first_at(bytes, i + 1, d);
    }
}

/// A `d` byte at `j` with none before it is what `first_at` finds.
pub proof fn lemma_first_at_known(bytes: Seq<u8>, i: int, d: u8, j: int)
    requires
        0 <= i <= j < bytes.len(),
        bytes[j] == d,
        forall|m: int| i <= m < j ==> bytes[m] != d,
    ensures
        first_at(bytes, i, d) == Some(j),
    decreases j - i,
{
    if i < j {
        lemma_first_at_known(bytes, i + 1, d, j);
    }
}

// ---------------------------------------------------------------------------
// The scanners, characterized by the first delimiter
// ---------------------------------------------------------------------------

/// What the name scanner returns, for every buffer and start position,
/// spelled out by where the first name delimiter sits.
pub proof fn lemma_name_scan_characterize(bytes: Seq<u8>, i: int, acc: Seq<char>)
    requires
        0 <= i,
    ensures
        match first_at(bytes, i, NAME_DELIM) {
            None => name_scan(bytes, i, acc) == Err::<(Seq<char>, int), ErrorV>(
                ErrorV::NoStructure,
            ),
            Some(j) => {
                &&& j + 1 < bytes.len() ==> name_scan(bytes, i, acc) == Ok::<
                    (Seq<char>, int),
                    ErrorV,
                >((acc + chars_of(bytes.subrange(i, j)), j + 1))
                &&& j + 1 == bytes.len() ==> name_scan(bytes, i, acc) == Err::<
                    (Seq<char>, int),
                    ErrorV,
                >(ErrorV::Incomplete(incomplete_name_msg(acc + chars_of(bytes.subrange(i, j)), j)))
            },
        },
    decreases bytes.len() - i,
{
    lemma_first_at(bytes, i, NAME_DELIM);
    if i >= bytes.len() {
    } else if bytes[i] == NAME_DELIM {
        assert(acc + chars_of(bytes.subrange(i, i)) =~= acc);
    } else {
        lemma_name_scan_characterize(bytes, i + 1, acc.push(byte_char(bytes[i])));
        match first_at(bytes, i + 1, NAME_DELIM) {
            None => {},
            Some(j) => {
                assert(acc.push(byte_char(bytes[i])) + chars_of(bytes.subrange(i + 1, j)) =~= acc
                    + chars_of(bytes.subrange(i, j)));
            },
        }
    }
}

/// What the length scanner returns, for every buffer and start position,
/// spelled out by where the first length delimiter sits and by the text
/// before it.
pub proof fn lemma_length_scan_characterize(
    bytes: Seq<u8>,
    i: int,
    name: Seq<char>,
    acc: Seq<char>,
)
    requires
        0 <= i,
    ensures
        match first_at(bytes, i, LENGTH_DELIM) {
            None => length_scan(bytes, i, name, acc) == Err::<(nat, int), ErrorV>(
                ErrorV::NoStructure,
            ),
            Some(j) => {
                let text = acc + chars_of(bytes.subrange(i, j));
                &&& !valid_length_text(text) ==> length_scan(bytes, i, name, acc) == Err::<
                    (nat, int),
                    ErrorV,
                >(ErrorV::BadStructure(bad_length_msg(text)))
                &&& valid_length_text(text) && j + 1 < bytes.len() ==> length_scan(
                    bytes,
                    i,
                    name,
                    acc,
                ) == Ok::<(nat, int), ErrorV>((digits_value(text), j + 1))
                &&& valid_length_text(text) && j + 1 == bytes.len() && digits_value(text) == 0
                    ==> length_scan(bytes, i, name, acc) == Ok::<(nat, int), ErrorV>((0, j + 1))
                &&& valid_length_text(text) && j + 1 == bytes.len() && digits_value(text) != 0
                    ==> length_scan(bytes, i, name, acc) == Err::<(nat, int), ErrorV>(
                    ErrorV::Incomplete(incomplete_length_msg(name, j)),
                )
            },
        },
    decreases bytes.len() - i,
{
    lemma_first_at(bytes, i, LENGTH_DELIM);
    if i >= bytes.len() {
    } else if bytes[i] == LENGTH_DELIM {
        assert(acc + chars_of(bytes.subrange(i, i)) =~= acc);
    } else {
        lemma_length_scan_characterize(bytes, i + 1, name, acc.push(byte_char(bytes[i])));
        match first_at(bytes, i + 1, LENGTH_DELIM) {
            None => {},
            Some(j) => {
                assert(acc.push(byte_char(bytes[i])) + chars_of(bytes.subrange(i + 1, j)) =~= acc
                    + chars_of(bytes.subrange(i, j)));
            },
        }
    }
}

// ---------------------------------------------------------------------------
// Bytes and characters round-trip
// ---------------------------------------------------------------------------

/// The characters a byte span stands for are single-byte, and map back to
/// the very same bytes.
pub proof fn lemma_bytes_chars_round_trip(b: Seq<u8>)
    ensures
        single_byte_chars(chars_of(b)),
        bytes_of(chars_of(b)) == b,
{
    assert forall|i: int| 0 <= i < b.len() implies char_code(#[trigger] chars_of(b)[i])
        < 256 by {
        assert(chars_of(b)[i] == byte_char(b[i]));
    }
    assert(bytes_of(chars_of(b)) =~= b);
}

/// Single-byte characters survive the trip through their bytes.
pub proof fn lemma_chars_bytes_round_trip(s: Seq<char>)
    requires
        single_byte_chars(s),
    ensures
        chars_of(bytes_of(s)) == s,
{
    assert forall|i: int| 0 <= i < s.len() implies #[trigger] chars_of(bytes_of(s))[i]
        == s[i] by {
        assert(char_code(s[i]) < 256);
        let u = s[i] as u32;
        let b = u as u8;
        assert(bytes_of(s)[i] == b);
        assert(byte_char(b) as u32 == u);
        vstd::utf8::char_u32_cast(s[i], u);
        vstd::utf8::char_u32_cast(byte_char(b), u);
    }
    assert(chars_of(bytes_of(s)) =~= s);
}

// ---------------------------------------------------------------------------
// The canonical decimal rendering
// ---------------------------------------------------------------------------

/// The canonical decimal rendering is a non-empty run of digits that denotes
/// the number it renders.
pub proof fn lemma_decimal_chars(n: nat)
    ensures
        all_digits(decimal_chars(n)),
        digits_value(decimal_chars(n)) == n,
        decimal_chars(n).len() >= 1,
    decreases n,
{
    if n < 10 {
        let s = decimal_chars(n);
        assert(s.drop_last() =~= Seq::<char>::empty());
        assert(digits_value(Seq::<char>::empty()) == 0);
        assert(digit_val(digit_char(n)) == n);
        assert(s.last() == digit_char(n));
    } else {
        lemma_decimal_chars(n / 10);
        let p = decimal_chars(n / 10);
        let s = decimal_chars(n);
        assert(s.drop_last() =~= p);
        assert(digit_val(digit_char(n % 10)) == n % 10);
        vstd::arithmetic::div_mod::lemma_fundamental_div_mod(n as int, 10);
        assert forall|i: int| 0 <= i < s.len() implies is_digit(#[trigger] s[i]) by {
            if i < p.len() {
                assert(s[i] == p[i]);
            }
        }
    }
}

// ---------------------------------------------------------------------------
// Record encodings: the grammar the scanners accept
// ---------------------------------------------------------------------------

/// The bytes of one record encoding, from its three fields.
pub open spec fn record_bytes(name: Seq<char>, len_text: Seq<char>, content: Seq<char>) -> Seq<
    u8,
> {
    bytes_of(name) + seq![NAME_DELIM] + bytes_of(len_text) + seq![LENGTH_DELIM] + bytes_of(content)
}

/// The fields of a valid record encoding: a single-byte name free of the
/// name delimiter, a valid decimal length text, and exactly as many
/// single-byte content characters as that text denotes.  (The scanners stop
/// a name only at `|`, so a name here may hold `~`.)
pub open spec fn valid_record_fields(
    name: Seq<char>,
    len_text: Seq<char>,
    content: Seq<char>,
) -> bool {
    &&& single_byte_chars(name)
    &&& forall|i: int| 0 <= i < name.len() ==> name[i] != '|'
    &&& valid_length_text(len_text)
    &&& single_byte_chars(content)
    &&& content.len() == digits_value(len_text)
}

/// The record that a valid encoding denotes.
pub open spec fn record_of(name: Seq<char>, len_text: Seq<char>, content: Seq<char>) -> RecordV {
    RecordV {
        name: name,
        length: digits_value(len_text),
        content: if digits_value(len_text) == 0 {
            None
        } else {
            Some(content)
        },
    }
}

/// A buffer that is exactly one record encoding.
pub open spec fn is_record_encoding(b: Seq<u8>) -> bool {
    exists|fields: (Seq<char>, Seq<char>, Seq<char>)|
        valid_record_fields(fields.0, fields.1, fields.2) && b == record_bytes(
            fields.0,
            fields.1,
            fields.2,
        )
}

/// Digit characters are single-byte.
proof fn lemma_digits_single_byte(s: Seq<char>)
    requires
        all_digits(s),
    ensures
        single_byte_chars(s),
{
    assert forall|i: int| 0 <= i < s.len() implies char_code(#[trigger] s[i]) < 256 by {
        assert(is_digit(s[i]));
    }
}

/// The record scanner, run at a valid record encoding, returns exactly the
/// record the encoding denotes and consumes exactly the encoding's bytes.
pub proof fn lemma_parse_one_at(
    bytes: Seq<u8>,
    i: int,
    name: Seq<char>,
    len_text: Seq<char>,
    content: Seq<char>,
)
    requires
        0 <= i,
        i + record_bytes(name, len_text, content).len() <= bytes.len(),
        bytes.subrange(i, i + record_bytes(name, len_text, content).len() as int) == record_bytes(
            name,
            len_text,
            content,
        ),
        valid_record_fields(name, len_text, content),
    ensures
        spec_parse_one(bytes, i) == Ok::<(RecordV, int), ErrorV>(
            (
                record_of(name, len_text, content),
                i + record_bytes(name, len_text, content).len(),
            ),
        ),
{
    let enc = record_bytes(name, len_text, content);
    let nl = name.len() as int;
    let ll = len_text.len() as int;
    let cl = content.len() as int;
    let total = nl + 1 + ll + 1 + cl;
    assert(enc.len() == total);
    let bar = i + nl;
    let tilde = bar + 1 + ll;
    let fin = i + total;
    assert forall|k: int| 0 <= k < total implies bytes[i + k] == enc[k] by {
        assert(bytes.subrange(i, i + total)[k] == bytes[i + k]);
    }
    // the name region holds no name delimiter, and the delimiter follows it
    assert(bytes[bar] == enc[nl]);
    assert(enc[nl] == NAME_DELIM);
    assert forall|m: int| i <= m < bar implies bytes[m] != NAME_DELIM by {
        let k = m - i;
        assert(enc[k] == bytes_of(name)[k]);
        assert(bytes_of(name)[k] == (name[k] as u32) as u8);
        assert(char_code(name[k]) < 256);
        if (name[k] as u32) as u8 == NAME_DELIM {
            vstd::utf8::char_u32_cast(name[k], name[k] as u32);
            assert(name[k] == '|');
        }
    }
    lemma_first_at_known(bytes, i, NAME_DELIM, bar);
    lemma_name_scan_characterize(bytes, i, Seq::<char>::empty());
    assert(bytes.subrange(i, bar) =~= bytes_of(name));
    lemma_chars_bytes_round_trip(name);
    assert(Seq::<char>::empty() + chars_of(bytes.subrange(i, bar)) =~= name);
    assert(bar + 1 < bytes.len());
    assert(spec_parse_name(bytes, i) == Ok::<(Seq<char>, int), ErrorV>((name, bar + 1)));
    // the length region holds digits only, and the delimiter follows it
    assert(bytes[tilde] == enc[tilde - i]);
    assert(enc[tilde - i] == LENGTH_DELIM);
    assert forall|m: int| bar + 1 <= m < tilde implies bytes[m] != LENGTH_DELIM by {
        let k = m - (bar + 1);
        assert(enc[m - i] == bytes_of(len_text)[k]);
        assert(bytes_of(len_text)[k] == (len_text[k] as u32) as u8);
        assert(is_digit(len_text[k]));
    }
    lemma_first_at_known(bytes, bar + 1, LENGTH_DELIM, tilde);
    lemma_length_scan_characterize(bytes, bar + 1, name, Seq::<char>::empty());
    lemma_digits_single_byte(len_text);
    assert forall|k: int| 0 <= k < ll implies bytes.subrange(bar + 1, tilde)[k] == bytes_of(
        len_text,
    )[k] by {
        assert(bytes.subrange(bar + 1, tilde)[k] == bytes[bar + 1 + k]);
        assert(bytes[i + (nl + 1 + k)] == enc[nl + 1 + k]);
        assert(enc[nl + 1 + k] == bytes_of(len_text)[k]);
    }
    assert(bytes.subrange(bar + 1, tilde) =~= bytes_of(len_text));
    lemma_chars_bytes_round_trip(len_text);
    assert(Seq::<char>::empty() + chars_of(bytes.subrange(bar + 1, tilde)) =~= len_text);
    let v = digits_value(len_text);
    if v == 0 {
        assert(cl == 0);
        assert(fin == tilde + 1);
        assert(spec_parse_length(bytes, bar + 1, name) == Ok::<(nat, int), ErrorV>(
            (0, tilde + 1),
        ));
    } else {
        assert(tilde + 1 < bytes.len());
        assert(spec_parse_length(bytes, bar + 1, name) == Ok::<(nat, int), ErrorV>(
            (v, tilde + 1),
        ));
        assert forall|k: int| 0 <= k < cl implies bytes.subrange(tilde + 1, fin)[k] == bytes_of(
            content,
        )[k] by {
            assert(bytes.subrange(tilde + 1, fin)[k] == bytes[tilde + 1 + k]);
            assert(bytes[i + (nl + 1 + ll + 1 + k)] == enc[nl + 1 + ll + 1 + k]);
            assert(enc[nl + 1 + ll + 1 + k] == bytes_of(content)[k]);
        }
        assert(bytes.subrange(tilde + 1, fin) =~= bytes_of(content));
        lemma_chars_bytes_round_trip(content);
        assert(tilde + 1 + v == fin);
        assert(spec_parse_content(bytes, tilde + 1, name, v) == Ok::<(Seq<char>, int), ErrorV>(
            (content, fin),
        ));
    }
    assert(spec_parse_one(bytes, i) == Ok::<(RecordV, int), ErrorV>(
        (record_of(name, len_text, content), fin),
    ));
}

/// A byte other than the name delimiter never reads as `|`, and one other
/// than the length delimiter never reads as `~`.
proof fn lemma_byte_char_delim(b: u8)
    ensures
        b != NAME_DELIM ==> byte_char(b) != '|',
        b != LENGTH_DELIM ==> byte_char(b) != '~',
{
    assert(byte_char(b) as u32 == b);
}

/// What the record scanner accepts is exactly one record encoding: on
/// success, the consumed bytes form a valid encoding.
pub proof fn lemma_parse_one_encoding(bytes: Seq<u8>, i: int)
    requires
        0 <= i,
    ensures
        spec_parse_one(bytes, i) matches Ok(p) ==> is_record_encoding(bytes.subrange(i, p.1)),
{
    if spec_parse_one(bytes, i) is Ok {
        lemma_name_scan_characterize(bytes, i, Seq::<char>::empty());
        lemma_first_at(bytes, i, NAME_DELIM);
        let bar = first_at(bytes, i, NAME_DELIM)->Some_0;
        let name = Seq::<char>::empty() + chars_of(bytes.subrange(i, bar));
        lemma_length_scan_characterize(bytes, bar + 1, name, Seq::<char>::empty());
        lemma_first_at(bytes, bar + 1, LENGTH_DELIM);
        let tilde = first_at(bytes, bar + 1, LENGTH_DELIM)->Some_0;
        let len_text = Seq::<char>::empty() + chars_of(bytes.subrange(bar + 1, tilde));
        let v = digits_value(len_text);
        let fin = tilde + 1 + v;
        let content = if v == 0 {
            Seq::<char>::empty()
        } else {
            chars_of(bytes.subrange(tilde + 1, fin))
        };
        // the fields read off the buffer are valid
        lemma_bytes_chars_round_trip(bytes.subrange(i, bar));
        lemma_bytes_chars_round_trip(bytes.subrange(bar + 1, tilde));
        lemma_bytes_chars_round_trip(bytes.subrange(tilde + 1, fin));
        assert(name =~= chars_of(bytes.subrange(i, bar)));
        assert(len_text =~= chars_of(bytes.subrange(bar + 1, tilde)));
        assert forall|k: int| 0 <= k < name.len() implies name[k] != '|' by {
            assert(bytes.subrange(i, bar)[k] == bytes[i + k]);
            lemma_byte_char_delim(bytes[i + k]);
        }
        assert(valid_record_fields(name, len_text, content));
        // the consumed bytes are exactly the encoding of those fields
        let enc = record_bytes(name, len_text, content);
        let sub = bytes.subrange(i, fin);
        assert(name.len() == bar - i);
        assert(len_text.len() == tilde - bar - 1);
        assert(content.len() == v);
        assert forall|k: int| 0 <= k < enc.len() implies sub[k] == enc[k] by {
            let nl = bar - i;
            let ll = tilde - bar - 1;
            assert(sub[k] == bytes[i + k]);
            if k < nl {
                assert(enc[k] == bytes_of(name)[k]);
                assert(name[k] == byte_char(bytes.subrange(i, bar)[k]));
                assert(bytes.subrange(i, bar)[k] == bytes[i + k]);
            } else if k == nl {
                assert(enc[k] == NAME_DELIM);
            } else if k < nl + 1 + ll {
                let m = k - nl - 1;
                assert(enc[k] == bytes_of(len_text)[m]);
                assert(len_text[m] == byte_char(bytes.subrange(bar + 1, tilde)[m]));
                assert(bytes.subrange(bar + 1, tilde)[m] == bytes[bar + 1 + m]);
            } else if k == nl + 1 + ll {
                assert(enc[k] == LENGTH_DELIM);
            } else {
                let m = k - nl - 1 - ll - 1;
                assert(enc[k] == bytes_of(content)[m]);
                assert(content[m] == byte_char(bytes.subrange(tilde + 1, fin)[m]));
                assert(bytes.subrange(tilde + 1, fin)[m] == bytes[tilde + 1 + m]);
            }
        }
        assert(sub =~= enc);
        let fields = (name, len_text, content);
        assert(valid_record_fields(fields.0, fields.1, fields.2) && sub == record_bytes(
            fields.0,
            fields.1,
            fields.2,
        ));
        assert(is_record_encoding(sub));
    }
}

// ---------------------------------------------------------------------------
// Sequence totality
// ---------------------------------------------------------------------------

/// The buffer from `i` on is a concatenation of zero or more record
/// encodings, back to back, reaching the buffer end exactly.
pub open spec fn is_sequence_encoding_from(b: Seq<u8>, i: int) -> bool
    decreases b.len() - i,
{
    if i == b.len() {
        true
    } else if 0 <= i < b.len() {
        exists|k: int|
            #![trigger b.subrange(i, k)]
            i < k <= b.len() && is_record_encoding(b.subrange(i, k)) && is_sequence_encoding_from(
                b,
                k,
            )
    } else {
        false
    }
}

/// The whole buffer is a concatenation of zero or more record encodings.
pub open spec fn is_sequence_encoding(b: Seq<u8>) -> bool {
    is_sequence_encoding_from(b, 0)
}

/// Sequence totality, cursor form: from any position, the sequence parser
/// succeeds exactly when the rest of the buffer is a concatenation of zero
/// or more record encodings with nothing left over.
pub proof fn lemma_totality_from(bytes: Seq<u8>, i: int)
    requires
        0 <= i <= bytes.len(),
    ensures
        spec_parse_all_from(bytes, i) is Ok <==> is_sequence_encoding_from(bytes, i),
    decreases bytes.len() - i,
{
    if i == bytes.len() {
    } else {
        lemma_parse_one_advances(bytes, i);
        lemma_parse_one_encoding(bytes, i);
        if spec_parse_all_from(bytes, i) is Ok {
            match spec_parse_one(bytes, i) {
                Ok(p) => {
                    lemma_totality_from(bytes, p.1);
                    assert(i < p.1 <= bytes.len() && is_record_encoding(
                        bytes.subrange(i, p.1),
                    ) && is_sequence_encoding_from(bytes, p.1));
                    assert(is_sequence_encoding_from(bytes, i));
                },
                Err(_) => {},
            }
        }
        if is_sequence_encoding_from(bytes, i) {
            assert(exists|k: int|
                #![trigger bytes.subrange(i, k)]
                i < k <= bytes.len() && is_record_encoding(bytes.subrange(i, k))
                    && is_sequence_encoding_from(bytes, k));
            let k = choose|k: int|
                #![trigger bytes.subrange(i, k)]
                i < k <= bytes.len() && is_record_encoding(bytes.subrange(i, k))
                    && is_sequence_encoding_from(bytes, k);
            assert(is_record_encoding(bytes.subrange(i, k)));
            let fields = choose|fields: (Seq<char>, Seq<char>, Seq<char>)|
                valid_record_fields(fields.0, fields.1, fields.2) && bytes.subrange(i, k)
                    == record_bytes(fields.0, fields.1, fields.2);
            assert(bytes.subrange(i, k) == record_bytes(fields.0, fields.1, fields.2));
            let enc = record_bytes(fields.0, fields.1, fields.2);
            assert(enc.len() == k - i);
            assert(bytes.subrange(i, i + enc.len() as int) == enc);
            lemma_parse_one_at(bytes, i, fields.0, fields.1, fields.2);
            lemma_totality_from(bytes, k);
        }
    }
}

/// Sequence totality: the sequence parser succeeds exactly when the buffer
/// is a concatenation of zero or more record encodings, with no leftover and
/// no shortfall; an empty buffer is the empty concatenation.
pub proof fn lemma_sequence_totality(bytes: Seq<u8>)
    ensures
        spec_parse_all(bytes) is Ok <==> is_sequence_encoding(bytes),
{
    lemma_totality_from(bytes, 0);
}

// ---------------------------------------------------------------------------
// Round trip
// ---------------------------------------------------------------------------

/// A record whose round trip is claimed: well formed, with a name that keeps
/// clear of both delimiter characters, and every character one buffer byte.
pub open spec fn round_trippable(r: RecordV) -> bool {
    &&& well_formed(r)
    &&& single_byte_chars(r.name)
    &&& forall|i: int| 0 <= i < r.name.len() ==> r.name[i] != '|' && r.name[i] != '~'
    &&& match r.content {
        Some(c) => single_byte_chars(c),
        None => true,
    }
}

/// Parsing the serialization of a round-trippable record yields the record
/// back and consumes the whole buffer.
pub proof fn lemma_round_trip(r: RecordV)
    requires
        round_trippable(r),
    ensures
        spec_parse_one(bytes_of(spec_serialize(r)), 0) == Ok::<(RecordV, int), ErrorV>(
            (r, bytes_of(spec_serialize(r)).len() as int),
        ),
{
    let lt = decimal_chars(r.length);
    lemma_decimal_chars(r.length);
    let content = match r.content {
        Some(c) => c,
        None => Seq::<char>::empty(),
    };
    let bytes = bytes_of(spec_serialize(r));
    assert(bytes =~= record_bytes(r.name, lt, content));
    assert(valid_record_fields(r.name, lt, content));
    assert(bytes.subrange(0, bytes.len() as int) =~= bytes);
    lemma_parse_one_at(bytes, 0, r.name, lt, content);
    assert(record_of(r.name, lt, content) =~= r);
}

/// A well-formed record of plain ASCII text whose name keeps clear of both
/// delimiter characters.
pub open spec fn ascii_record(r: RecordV) -> bool {
    &&& well_formed(r)
    &&& vstd::utf8::is_ascii_chars(r.name)
    &&& forall|i: int| 0 <= i < r.name.len() ==> r.name[i] != '|' && r.name[i] != '~'
    &&& match r.content {
        Some(c) => vstd::utf8::is_ascii_chars(c),
        None => true,
    }
}

/// Round trip through the UTF-8 bytes of the textual encoding, which is what
/// taking the serialized string's bytes yields: for an ASCII record they
/// parse back to exactly the record, consuming the whole buffer.
pub proof fn lemma_round_trip_utf8(r: RecordV)
    requires
        ascii_record(r),
    ensures
        spec_parse_one(vstd::utf8::encode_utf8(spec_serialize(r)), 0) == Ok::<
            (RecordV, int),
            ErrorV,
        >((r, vstd::utf8::encode_utf8(spec_serialize(r)).len() as int)),
{
    let s = spec_serialize(r);
    let dec = decimal_chars(r.length);
    let content = match r.content {
        Some(c) => c,
        None => Seq::<char>::empty(),
    };
    let nl = r.name.len() as int;
    let dl = dec.len() as int;
    lemma_decimal_chars(r.length);
    vstd::utf8::is_ascii_chars_nat_bound(r.name);
    vstd::utf8::is_ascii_chars_nat_bound(content);
    assert forall|i: int| 0 <= i < s.len() implies '\0' <= #[trigger] s[i] <= '\u{7f}' by {
        if i < nl {
            assert(s[i] == r.name[i]);
        } else if i == nl {
            assert(s[i] == '|');
        } else if i < nl + 1 + dl {
            assert(s[i] == dec[i - nl - 1]);
            assert(is_digit(dec[i - nl - 1]));
            lemma_ascii_range(s[i]);
        } else if i == nl + 1 + dl {
            assert(s[i] == '~');
        } else {
            assert(s[i] == content[i - nl - 2 - dl]);
        }
    }
    assert(vstd::utf8::is_ascii_chars(s));
    vstd::utf8::is_ascii_chars_encode_utf8(s);
    assert forall|i: int| 0 <= i < s.len() implies vstd::utf8::encode_utf8(s)[i] == bytes_of(
        s,
    )[i] by {
        assert(s[i] as u8 == vstd::utf8::encode_utf8(s)[i]);
        assert(bytes_of(s)[i] == (s[i] as u32) as u8);
    }
    assert(vstd::utf8::encode_utf8(s) =~= bytes_of(s));
    assert forall|i: int| 0 <= i < r.name.len() implies char_code(#[trigger] r.name[i])
        < 256 by {
        assert((r.name[i] as nat) < 128);
    }
    assert forall|i: int| 0 <= i < content.len() implies char_code(#[trigger] content[i])
        < 256 by {
        assert((content[i] as nat) < 128);
    }
    lemma_round_trip(r);
}

// ---------------------------------------------------------------------------
// Nesting transparency
// ---------------------------------------------------------------------------

/// The concatenated serialization of a sequence of records, in order, with
/// no separator.
pub open spec fn seq_serialize(rs: Seq<RecordV>) -> Seq<char>
    decreases rs.len(),
{
    if rs.len() == 0 {
        Seq::empty()
    } else {
        spec_serialize(rs[0]) + seq_serialize(rs.drop_first())
    }
}

/// The sequence parser, run where the rest of the buffer is the concatenated
/// serialization of round-trippable records, returns exactly those records.
proof fn lemma_parse_all_serialized_at(bytes: Seq<u8>, i: int, rs: Seq<RecordV>)
    requires
        0 <= i <= bytes.len(),
        bytes.subrange(i, bytes.len() as int) == bytes_of(seq_serialize(rs)),
        forall|n: int| 0 <= n < rs.len() ==> round_trippable(#[trigger] rs[n]),
    ensures
        spec_parse_all_from(bytes, i) == Ok::<Seq<RecordV>, ErrorV>(rs),
    decreases rs.len(),
{
    if rs.len() == 0 {
        assert(seq_serialize(rs) =~= Seq::<char>::empty());
        assert(bytes_of(seq_serialize(rs)).len() == 0);
        assert(bytes.len() - i == 0);
        assert(rs =~= Seq::<RecordV>::empty());
    } else {
        let r = rs[0];
        let lt = decimal_chars(r.length);
        lemma_decimal_chars(r.length);
        let content = match r.content {
            Some(c) => c,
            None => Seq::<char>::empty(),
        };
        let enc = record_bytes(r.name, lt, content);
        assert(bytes_of(spec_serialize(r)) =~= enc);
        let k = i + enc.len() as int;
        assert(bytes_of(seq_serialize(rs)) =~= bytes_of(spec_serialize(r)) + bytes_of(
            seq_serialize(rs.drop_first()),
        ));
        assert(k <= bytes.len());
        assert forall|m: int| 0 <= m < enc.len() implies bytes.subrange(i, k)[m] == enc[m] by {
            assert(bytes.subrange(i, bytes.len() as int)[m] == bytes[i + m]);
            assert(bytes.subrange(i, k)[m] == bytes[i + m]);
        }
        assert(bytes.subrange(i, k) =~= enc);
        assert(valid_record_fields(r.name, lt, content));
        lemma_parse_one_at(bytes, i, r.name, lt, content);
        assert(record_of(r.name, lt, content) =~= r);
        assert forall|m: int|
            0 <= m < bytes.len() - k implies bytes.subrange(k, bytes.len() as int)[m]
            == bytes_of(seq_serialize(rs.drop_first()))[m] by {
            assert(bytes.subrange(i, bytes.len() as int)[enc.len() + m] == bytes[k + m]);
            assert(bytes.subrange(k, bytes.len() as int)[m] == bytes[k + m]);
        }
        assert(bytes.subrange(k, bytes.len() as int) =~= bytes_of(
            seq_serialize(rs.drop_first()),
        ));
        lemma_parse_all_serialized_at(bytes, k, rs.drop_first());
        assert(seq![r] + rs.drop_first() =~= rs);
    }
}

/// Nesting transparency: when content is the concatenated serialization of
/// round-trippable records, re-applying the sequence parser to the content
/// bytes succeeds and reproduces exactly those records.
pub proof fn lemma_nesting_transparency(subs: Seq<RecordV>)
    requires
        forall|n: int| 0 <= n < subs.len() ==> round_trippable(#[trigger] subs[n]),
    ensures
        spec_parse_all(bytes_of(seq_serialize(subs))) == Ok::<Seq<RecordV>, ErrorV>(subs),
{
    let bytes = bytes_of(seq_serialize(subs));
    assert(bytes.subrange(0, bytes.len() as int) =~= bytes);
    lemma_parse_all_serialized_at(bytes, 0, subs);
}

/// A character whose code point is below 128 sits in the ASCII range.
proof fn lemma_ascii_range(c: char)
    requires
        (c as u32) < 128,
    ensures
        '\0' <= c <= '\u{7f}',
{
}

} // verus!
