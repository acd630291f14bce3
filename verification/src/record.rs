//! The record type, its serializer, and the cursor-driven scanners.

use vstd::prelude::*;

use crate::error::Error;
use crate::model::{
    all_digits, bad_length_msg, byte_char, chars_of, digit_val, digits_value,
    incomplete_content_msg, incomplete_length_msg, incomplete_name_msg, is_digit,
    lemma_parse_one_advances, length_scan, missing_count, name_scan, spec_parse_all,
    spec_parse_all_from, spec_parse_content, spec_parse_length, spec_parse_name, spec_parse_one,
    spec_serialize, valid_length_text, well_formed, ErrorV, RecordV, LENGTH_DELIM, NAME_DELIM,
};
use crate::strutil::{decimal_string, lemma_overflow_check, push_char};

verus! {

/// One tagged value: a name, a declared content length, and the optional
/// content.  The length and the content never desync: construction derives
/// the length from the content, and parsing validates the declared count.
pub struct MiniON {
    pub name: String,
    pub length: usize,
    pub content: Option<String>,
}

impl View for MiniON {
    type V = RecordV;

    open spec fn view(&self) -> RecordV {
        RecordV {
            name: self.name@,
            length: self.length as nat,
            content: match self.content {
                Some(c) => Some(c@),
                None => None,
            },
        }
    }
}

impl MiniON {
    /// Construct a new record with the given name and no content.
    pub fn new(name: String) -> (r: MiniON)
        ensures
            r@ == (RecordV { name: name@, length: 0, content: None::<Seq<char>> }),
            well_formed(r@),
    {
        MiniON { name, length: 0, content: None }
    }

    /// Attach content, recomputing the length from it; empty content leaves
    /// the record without content, keeping the length at zero.
    pub fn set_content(&mut self, content: String)
        ensures
            content@.len() == 0 ==> final(self)@ == (RecordV {
                name: old(self)@.name,
                length: 0,
                content: None::<Seq<char>>,
            }),
            content@.len() != 0 ==> final(self)@ == (RecordV {
                name: old(self)@.name,
                length: content@.len(),
                content: Some(content@),
            }),
            well_formed(final(self)@),
    {
        let n = content.as_str().unicode_len();
        if n == 0 {
            self.length = 0;
            self.content = None;
        } else {
            self.length = n;
            self.content = Some(content);
        }
    }

    /// Render the record as text: name, `|`, the decimal length, `~`, then
    /// the content when present.
    pub fn as_string(&self) -> (r: String)
        ensures
            r@ == spec_serialize(self@),
    {
        let mut output = String::new();
        output.append(self.name.as_str());
        push_char(&mut output, '|');
        let num = decimal_string(self.length);
        output.append(num.as_str());
        push_char(&mut output, '~');
        match &self.content {
            Some(content) => {
                output.append(content.as_str());
            },
            None => {},
        }
        proof {
            assert(output@ =~= spec_serialize(self@));
        }
        output
    }

    /// Parse the name of a record: consume characters up to and including
    /// the first name delimiter, leaving the cursor just after it.
    pub fn parse_name(bytes: &[u8], incr: &mut usize) -> (result: Result<String, Error>)
        ensures
            match result {
                Ok(name) => spec_parse_name(bytes@, *old(incr) as int) == Ok::<
                    (Seq<char>, int),
                    ErrorV,
                >((name@, *final(incr) as int)),
                Err(e) => spec_parse_name(bytes@, *old(incr) as int) == Err::<
                    (Seq<char>, int),
                    ErrorV,
                >(e@),
            },
    {
        let ghost start = *incr as int;
        if *incr >= bytes.len() {
            return Err(Error::NoStructure);
        }
        let mut output = String::new();
        loop
            invariant
                start == *old(incr) as int,
                start <= *incr < bytes@.len(),
                name_scan(bytes@, start, Seq::empty()) == name_scan(
                    bytes@,
                    *incr as int,
                    output@,
                ),
            decreases bytes@.len() - *incr,
        {
            let b = bytes[*incr];
            if b == NAME_DELIM {
                if *incr + 1 < bytes.len() {
                    proof {
                        assert(name_scan(bytes@, *incr as int, output@) == Ok::<
                            (Seq<char>, int),
                            ErrorV,
                        >((output@, *incr + 1)));
                    }
                    *incr += 1;
                    return Ok(output);
                } else {
                    let mut msg = String::new();
                    msg.append("No more data after name (");
                    msg.append(output.as_str());
                    msg.append(") field at position ");
                    let p = decimal_string(*incr);
                    msg.append(p.as_str());
                    msg.append(".");
                    proof {
                        assert(msg@ =~= incomplete_name_msg(output@, *incr as int));
                        assert(name_scan(bytes@, *incr as int, output@) == Err::<
                            (Seq<char>, int),
                            ErrorV,
                        >(ErrorV::Incomplete(incomplete_name_msg(output@, *incr as int))));
                    }
                    return Err(Error::Incomplete(msg));
                }
            } else {
                let ghost pre = output@;
                push_char(&mut output, b as char);
                proof {
                    assert(output@ =~= pre.push(byte_char(b)));
                }
                if *incr + 1 < bytes.len() {
                    *incr += 1;
                } else {
                    proof {
                        assert(name_scan(bytes@, *incr as int, pre) == name_scan(
                            bytes@,
                            *incr + 1,
                            output@,
                        ));
                        assert(name_scan(bytes@, *incr + 1, output@) == Err::<
                            (Seq<char>, int),
                            ErrorV,
                        >(ErrorV::NoStructure));
                    }
                    return Err(Error::NoStructure);
                }
            }
        }
    }

    /// Parse the length of a record, starting just after the name delimiter:
    /// consume characters up to and including the first length delimiter and
    /// read the collected text as a decimal number.  When that delimiter is
    /// the buffer's last byte, only a zero length is valid.  `name` is the
    /// already parsed record name, reported on failure.
    pub fn parse_length(bytes: &[u8], incr: &mut usize, name: &str) -> (result: Result<
        usize,
        Error,
    >)
        ensures
            match result {
                Ok(length) => spec_parse_length(bytes@, *old(incr) as int, name@) == Ok::<
                    (nat, int),
                    ErrorV,
                >((length as nat, *final(incr) as int)),
                Err(e) => spec_parse_length(bytes@, *old(incr) as int, name@) == Err::<
                    (nat, int),
                    ErrorV,
                >(e@),
            },
    {
        let ghost start = *incr as int;
        if *incr >= bytes.len() {
            return Err(Error::NoStructure);
        }
        let mut output = String::new();
        let mut value: usize = 0;
        let mut digits_only: bool = true;
        let mut overflowed: bool = false;
        loop
            invariant
                start == *old(incr) as int,
                start <= *incr < bytes@.len(),
                length_scan(bytes@, start, name@, Seq::empty()) == length_scan(
                    bytes@,
                    *incr as int,
                    name@,
                    output@,
                ),
                digits_only == all_digits(output@),
                digits_only && !overflowed ==> value as nat == digits_value(output@),
                digits_only && overflowed ==> digits_value(output@) > usize::MAX,
            decreases bytes@.len() - *incr,
        {
            let b = bytes[*incr];
            if b == LENGTH_DELIM {
                let valid = digits_only && !overflowed && !output.as_str().is_empty();
                proof {
                    assert(valid == valid_length_text(output@));
                }
                if !valid {
                    let mut msg = String::new();
                    msg.append("Could not parse the length field. Contains: ");
                    msg.append(output.as_str());
                    proof {
                        assert(msg@ =~= bad_length_msg(output@));
                        assert(length_scan(bytes@, *incr as int, name@, output@) == Err::<
                            (nat, int),
                            ErrorV,
                        >(ErrorV::BadStructure(bad_length_msg(output@))));
                    }
                    return Err(Error::BadStructure(msg));
                }
                if *incr + 1 < bytes.len() {
                    proof {
                        assert(length_scan(bytes@, *incr as int, name@, output@) == Ok::<
                            (nat, int),
                            ErrorV,
                        >((digits_value(output@), *incr + 1)));
                    }
                    *incr += 1;
                    return Ok(value);
                } else if value == 0 {
                    proof {
                        assert(length_scan(bytes@, *incr as int, name@, output@) == Ok::<
                            (nat, int),
                            ErrorV,
                        >((0, *incr + 1)));
                    }
                    *incr += 1;
                    return Ok(value);
                } else {
                    let mut msg = String::new();
                    msg.append("No more data after length (name: ");
                    msg.append(name);
                    msg.append(") field at position ");
                    let p = decimal_string(*incr);
                    msg.append(p.as_str());
                    msg.append(".");
                    proof {
                        assert(msg@ =~= incomplete_length_msg(name@, *incr as int));
                        assert(length_scan(bytes@, *incr as int, name@, output@) == Err::<
                            (nat, int),
                            ErrorV,
                        >(ErrorV::Incomplete(incomplete_length_msg(name@, *incr as int))));
                    }
                    return Err(Error::Incomplete(msg));
                }
            } else {
                let ghost pre = output@;
                push_char(&mut output, b as char);
                proof {
                    assert(output@ =~= pre.push(byte_char(b)));
                    assert(output@.drop_last() =~= pre);
                    assert(digits_value(output@) == digits_value(pre) * 10 + digit_val(
                        byte_char(b),
                    ));
                }
                if 48 <= b && b <= 57 {
                    proof {
                        assert(is_digit(byte_char(b)));
                        assert(output@[pre.len() as int] == byte_char(b));
                        if digits_only {
                            assert forall|i: int| 0 <= i < output@.len() implies is_digit(
                                #[trigger] output@[i],
                            ) by {
                                if i < pre.len() {
                                    assert(output@[i] == pre[i]);
                                }
                            }
                        } else {
                            let i = choose|i: int| 0 <= i < pre.len() && !is_digit(pre[i]);
                            assert(output@[i] == pre[i]);
                            assert(!all_digits(output@));
                        }
                    }
                    let d = (b - 48) as usize;
                    if !overflowed {
                        proof {
                            lemma_overflow_check(
                                value as nat,
                                d as nat,
                                usize::MAX as nat,
                            );
                        }
                        if value > (usize::MAX - d) / 10 {
                            overflowed = true;
                        } else {
                            value = value * 10 + d;
                        }
                    }
                } else {
                    proof {
                        assert(!is_digit(byte_char(b)));
                        assert(output@[pre.len() as int] == byte_char(b));
                        assert(!all_digits(output@));
                    }
                    digits_only = false;
                }
                if *incr + 1 < bytes.len() {
                    *incr += 1;
                } else {
                    proof {
                        assert(length_scan(bytes@, *incr as int, name@, pre) == length_scan(
                            bytes@,
                            *incr + 1,
                            name@,
                            output@,
                        ));
                        assert(length_scan(bytes@, *incr + 1, name@, output@) == Err::<
                            (nat, int),
                            ErrorV,
                        >(ErrorV::NoStructure));
                    }
                    return Err(Error::NoStructure);
                }
            }
        }
    }

    /// Parse the content of a record, starting just after the length
    /// delimiter: consume exactly `length` bytes, verbatim.  A zero length
    /// must not be asked for; well-formed callers skip this scan entirely
    /// then.  `name` is the already parsed record name, reported on failure.
    pub fn parse_content(bytes: &[u8], incr: &mut usize, name: &str, length: usize) -> (result:
        Result<String, Error>)
        ensures
            match result {
                Ok(content) => spec_parse_content(
                    bytes@,
                    *old(incr) as int,
                    name@,
                    length as nat,
                ) == Ok::<(Seq<char>, int), ErrorV>((content@, *final(incr) as int)),
                Err(e) => spec_parse_content(bytes@, *old(incr) as int, name@, length as nat)
                    == Err::<(Seq<char>, int), ErrorV>(e@),
            },
    {
        let ghost start = *incr as int;
        if length == 0 {
            return Err(Error::NoContent);
        }
        let n = bytes.len();
        if *incr >= n || n - *incr < length {
            let available = if *incr >= n {
                0
            } else {
                n - *incr
            };
            let missing = length - available;
            let mut msg = String::new();
            msg.append("The object (name: ");
            msg.append(name);
            msg.append(") is incomplete. Bytes missing = ");
            let p = decimal_string(missing);
            msg.append(p.as_str());
            msg.append(" .");
            proof {
                assert(missing as nat == missing_count(bytes@, start, length as nat));
                assert(msg@ =~= incomplete_content_msg(
                    name@,
                    missing_count(bytes@, start, length as nat),
                ));
            }
            return Err(Error::Incomplete(msg));
        }
        let end = *incr + length;
        let mut output = String::new();
        while *incr < end
            invariant
                start == *old(incr) as int,
                start <= *incr <= end,
                end == start + length as int,
                end <= bytes@.len(),
                output@ == chars_of(bytes@.subrange(start, *incr as int)),
            decreases end - *incr,
        {
            let b = bytes[*incr];
            push_char(&mut output, b as char);
            *incr += 1;
            proof {
                assert(output@ =~= chars_of(bytes@.subrange(start, *incr as int)));
            }
        }
        Ok(output)
    }

    /// Parse one whole record: name, then length, then content when the
    /// length is not zero.  The first failure is returned unchanged; on
    /// success the cursor lands exactly at the end of this record's encoding.
    pub fn parse_one(bytes: &[u8], incr: &mut usize) -> (result: Result<MiniON, Error>)
        ensures
            match result {
                Ok(minion) => {
                    &&& spec_parse_one(bytes@, *old(incr) as int) == Ok::<
                        (RecordV, int),
                        ErrorV,
                    >((minion@, *final(incr) as int))
                    &&& well_formed(minion@)
                    &&& *old(incr) < *final(incr) <= bytes@.len()
                },
                Err(e) => spec_parse_one(bytes@, *old(incr) as int) == Err::<
                    (RecordV, int),
                    ErrorV,
                >(e@),
            },
    {
        let ghost start = *incr as int;
        proof {
            lemma_parse_one_advances(bytes@, start);
        }
        let name = match MiniON::parse_name(bytes, incr) {
            Ok(n) => n,
            Err(e) => {
                return Err(e);
            },
        };
        let length = match MiniON::parse_length(bytes, incr, name.as_str()) {
            Ok(l) => l,
            Err(e) => {
                return Err(e);
            },
        };
        if length != 0 {
            let content = match MiniON::parse_content(bytes, incr, name.as_str(), length) {
                Ok(c) => c,
                Err(e) => {
                    return Err(e);
                },
            };
            let mut minion = MiniON::new(name);
            minion.set_content(content);
            Ok(minion)
        } else {
            Ok(MiniON::new(name))
        }
    }

    /// Parse records one after the other from the start of the buffer until
    /// the cursor reaches the buffer end exactly, collecting them in
    /// encounter order.  Any error aborts the whole parse; no partial result
    /// is returned.  Content is never recursed into: nested records are
    /// decoded only by calling this again on a record's content bytes.
    pub fn parse_all(bytes: &[u8]) -> (result: Result<Vec<MiniON>, Error>)
        ensures
            match result {
                Ok(minions) => {
                    &&& spec_parse_all(bytes@) == Ok::<Seq<RecordV>, ErrorV>(
                        views_of(minions@),
                    )
                    &&& forall|i: int|
                        0 <= i < minions@.len() ==> well_formed(#[trigger] minions@[i]@)
                },
                Err(e) => spec_parse_all(bytes@) == Err::<Seq<RecordV>, ErrorV>(e@),
            },
    {
        let mut minions: Vec<MiniON> = Vec::new();
        let mut incr: usize = 0;
        while incr < bytes.len()
            invariant
                incr <= bytes@.len(),
                spec_parse_all_from(bytes@, 0) == (match spec_parse_all_from(
                    bytes@,
                    incr as int,
                ) {
                    Ok(rest) => Ok::<Seq<RecordV>, ErrorV>(views_of(minions@) + rest),
                    Err(e) => Err::<Seq<RecordV>, ErrorV>(e),
                }),
                forall|i: int| 0 <= i < minions@.len() ==> well_formed(#[trigger] minions@[i]@),
            decreases bytes@.len() - incr,
        {
            let ghost cur = incr as int;
            let ghost pre = minions@;
            match MiniON::parse_one(bytes, &mut incr) {
                Ok(minion) => {
                    let ghost rv = minion@;
                    minions.push(minion);
                    proof {
                        assert(views_of(minions@) =~= views_of(pre).push(rv));
                        let after = spec_parse_all_from(bytes@, incr as int);
                        match after {
                            Ok(rest) => {
                                assert(views_of(pre) + (seq![rv] + rest) =~= views_of(minions@)
                                    + rest);
                            },
                            Err(_) => {},
                        }
                    }
                },
                Err(e) => {
                    return Err(e);
                },
            }
        }
        proof {
            assert(spec_parse_all_from(bytes@, incr as int) == Ok::<Seq<RecordV>, ErrorV>(
                Seq::empty(),
            ));
            assert(views_of(minions@) + Seq::empty() =~= views_of(minions@));
        }
        Ok(minions)
    }
}

/// The records a vector of them stands for.
pub open spec fn views_of(s: Seq<MiniON>) -> Seq<RecordV> {
    s.map_values(|m: MiniON| m@)
}

} // verus!
