//! The text value parser: turns a literal typed by a user into a leaf
//! payload of a requested kind — signed integers for the integer kinds, and
//! a double-quoted, escape-decoded string for the string kind.
//!
//! Fractional kinds carry floating-point values, which the verified core
//! does not compute with; their literals are parsed by the embedding
//! application. Container kinds cannot be built from a flat literal at all.

use vstd::prelude::*;

use crate::tag::{PayloadV, TagID, TagPayload};

verus! {

/// Whether a character is a decimal digit.
pub open spec fn spec_is_digit(c: char) -> bool {
    48 <= c as u32 <= 57
}

/// Whether every character of a sequence is a decimal digit.
pub open spec fn all_digits(s: Seq<char>) -> bool {
    forall|i: int| 0 <= i < s.len() ==> spec_is_digit(#[trigger] s[i])
}

/// The value of a digit string, most significant first.
pub open spec fn digits_value(s: Seq<char>) -> int
    decreases s.len(),
{
    if s.len() == 0 {
        0
    } else {
        digits_value(s.drop_last()) * 10 + (s.last() as u32 - 48)
    }
}

/// What parsing a signed 64-bit integer literal yields: an optional sign,
/// then one or more digits, rejected when the value overflows the type.
pub open spec fn spec_parse_i64(s: Seq<char>) -> Option<i64> {
    let signed = s.len() > 0 && (s[0] == '-' || s[0] == '+');
    let neg = s.len() > 0 && s[0] == '-';
    let ds = if signed {
        s.drop_first()
    } else {
        s
    };
    if ds.len() == 0 || !all_digits(ds) {
        None
    } else {
        let v = if neg {
            -digits_value(ds)
        } else {
            digits_value(ds)
        };
        if -0x8000_0000_0000_0000 <= v <= 0x7FFF_FFFF_FFFF_FFFF {
            Some(v as i64)
        } else {
            None
        }
    }
}

/// What parsing an integer literal of a given kind yields: the 64-bit
/// reading, narrowed to the kind's width, rejected on overflow.
pub open spec fn spec_parse_num(id: TagID, s: Seq<char>) -> Option<PayloadV> {
    match spec_parse_i64(s) {
        None => None,
        Some(v) => match id {
            TagID::Byte => if -0x80 <= v <= 0x7F {
                Some(PayloadV::Byte(v as i8))
            } else {
                None
            },
            TagID::Short => if -0x8000 <= v <= 0x7FFF {
                Some(PayloadV::Short(v as i16))
            } else {
                None
            },
            TagID::Int => if -0x8000_0000 <= v <= 0x7FFF_FFFF {
                Some(PayloadV::Int(v as i32))
            } else {
                None
            },
            TagID::Long => Some(PayloadV::Long(v)),
            _ => None,
        },
    }
}

/// The character an escape character stands for, if it is one of the
/// recognized escapes.
pub open spec fn spec_escape(c: char) -> Option<char> {
    if c == 'n' {
        Some('\n')
    } else if c == 't' {
        Some('\t')
    } else if c == 'r' {
        Some('\r')
    } else if c == '0' {
        Some('\0')
    } else if c == '\\' {
        Some('\\')
    } else if c == '"' {
        Some('"')
    } else {
        None
    }
}

/// Escape-decodes the part of a string literal after the opening quote:
/// the decoded text, provided the closing quote is the last character, every
/// escape is recognized, and the quote is not missing.
pub open spec fn spec_unescape(s: Seq<char>) -> Option<Seq<char>>
    decreases s.len(),
{
    if s.len() == 0 {
        None
    } else if s[0] == '"' {
        if s.len() == 1 {
            Some(Seq::empty())
        } else {
            None
        }
    } else if s[0] == '\\' {
        if s.len() < 2 {
            None
        } else {
            match spec_escape(s[1]) {
                None => None,
                Some(c) => match spec_unescape(s.skip(2)) {
                    None => None,
                    Some(rest) => Some(seq![c] + rest),
                },
            }
        }
    } else {
        match spec_unescape(s.drop_first()) {
            None => None,
            Some(rest) => Some(seq![s[0]] + rest),
        }
    }
}

/// What parsing a string literal yields: the literal must open with a
/// double quote and close with one as its last character; the standard
/// escapes in between are decoded.
pub open spec fn spec_parse_str(s: Seq<char>) -> Option<Seq<char>> {
    if s.len() == 0 || s[0] != '"' {
        None
    } else {
        spec_unescape(s.drop_first())
    }
}

/// What [`TagID::parse`] yields for each kind: integer kinds parse as
/// integers, the string kind as a quoted literal, and every other kind
/// yields nothing.
pub open spec fn spec_parse_text(id: TagID, s: Seq<char>) -> Option<PayloadV> {
    match id {
        TagID::Byte => spec_parse_num(id, s),
        TagID::Short => spec_parse_num(id, s),
        TagID::Int => spec_parse_num(id, s),
        TagID::Long => spec_parse_num(id, s),
        TagID::String => match spec_parse_str(s) {
            Some(t) => Some(PayloadV::String(t)),
            None => None,
        },
        _ => None,
    }
}

/// The tag kind a type name written out in text stands for.
pub open spec fn spec_to_id(s: Seq<char>) -> Option<TagID> {
    if s == "Byte"@ {
        Some(TagID::Byte)
    } else if s == "Short"@ {
        Some(TagID::Short)
    } else if s == "Int"@ {
        Some(TagID::Int)
    } else if s == "Long"@ {
        Some(TagID::Long)
    } else if s == "Float"@ {
        Some(TagID::Float)
    } else if s == "Double"@ {
        Some(TagID::Double)
    } else if s == "String"@ {
        Some(TagID::String)
    } else {
        None
    }
}

/// Relies on `String::push`: it appends exactly one character.
#[verifier::external_body]
fn push_char(s: &mut String, c: char)
    ensures
        final(s)@ == old(s)@.push(c),
{
    s.push(c);
}

/// Whether two string slices hold the same text.
#[verifier::loop_isolation(false)]
pub fn str_eq(a: &str, b: &str) -> (r: bool)
    ensures
        r == (a@ == b@),
{
    broadcast use vstd::utf8::encode_utf8_decode_utf8;

    let ab = a.as_bytes();
    let bb = b.as_bytes();
    if ab.len() != bb.len() {
        proof {
            assert(a@ != b@);
        }
        return false;
    }
    let mut i: usize = 0;
    while i < ab.len()
        invariant
            i <= ab@.len(),
            ab@.len() == bb@.len(),
            ab@ == vstd::utf8::encode_utf8(a@),
            bb@ == vstd::utf8::encode_utf8(b@),
            forall|j: int| 0 <= j < i ==> ab@[j] == bb@[j],
        decreases ab@.len() - i,
    {
        if ab[i] != bb[i] {
            proof {
                assert(a@ != b@);
            }
            return false;
        }
        i = i + 1;
    }
    proof {
        assert(ab@ =~= bb@);
        assert(vstd::utf8::decode_utf8(vstd::utf8::encode_utf8(a@)) == a@);
        assert(vstd::utf8::decode_utf8(vstd::utf8::encode_utf8(b@)) == b@);
    }
    true
}

/// The tag kind a type name written out in text stands for; `None` for any
/// other text.
pub fn to_id(value: &str) -> (r: Option<TagID>)
    ensures
        r == spec_to_id(value@),
{
    if str_eq(value, "Byte") {
        Some(TagID::Byte)
    } else if str_eq(value, "Short") {
        Some(TagID::Short)
    } else if str_eq(value, "Int") {
        Some(TagID::Int)
    } else if str_eq(value, "Long") {
        Some(TagID::Long)
    } else if str_eq(value, "Float") {
        Some(TagID::Float)
    } else if str_eq(value, "Double") {
        Some(TagID::Double)
    } else if str_eq(value, "String") {
        Some(TagID::String)
    } else {
        None
    }
}

/// A digit string's value is never negative.
proof fn lemma_digits_value_nonneg(s: Seq<char>)
    requires
        all_digits(s),
    ensures
        digits_value(s) >= 0,
    decreases s.len(),
{
    if s.len() > 0 {
        assert(all_digits(s.drop_last()));
        lemma_digits_value_nonneg(s.drop_last());
        assert(spec_is_digit(s.last()));
    }
}

/// Parses a signed 64-bit integer literal: an optional sign, then one or
/// more decimal digits; overflow yields `None`.
#[verifier::loop_isolation(false)]
pub fn parse_i64(input: &str) -> (r: Option<i64>)
    ensures
        r == spec_parse_i64(input@),
{
    let len = input.unicode_len();
    if len == 0 {
        return None;
    }
    let first = input.get_char(0);
    let signed = first == '-' || first == '+';
    let neg = first == '-';
    let start: usize = if signed {
        1
    } else {
        0
    };
    let ghost ds = if signed {
        input@.drop_first()
    } else {
        input@
    };
    proof {
        assert(ds =~= input@.subrange(start as int, len as int));
    }
    if len == start {
        return None;
    }
    let mut mag: u64 = 0;
    let mut over = false;
    let mut j = start;
    while j < len
        invariant
            start <= j <= len,
            len == input@.len(),
            ds == input@.subrange(start as int, len as int),
            ds.len() == len - start,
            all_digits(ds.take(j - start)),
            !over ==> mag == digits_value(ds.take(j - start)) && mag
                <= 0x8000_0000_0000_0000u64,
            over ==> digits_value(ds.take(j - start)) > 0x8000_0000_0000_0000,
        decreases len - j,
    {
        let c = input.get_char(j);
        proof {
            assert(ds[j - start] == input@[j as int]);
        }
        if !(c >= '0' && c <= '9') {
            proof {
                assert(!spec_is_digit(ds[j - start]));
                assert(!all_digits(ds));
            }
            return None;
        }
        let d = (c as u32 - 48) as u64;
        let ghost pre = ds.take(j - start);
        proof {
            assert(ds.take(j - start + 1).drop_last() =~= pre);
            assert(ds.take(j - start + 1).last() == ds[j - start]);
            assert(digits_value(ds.take(j - start + 1)) == digits_value(pre) * 10 + d);
        }
        if over {
            proof {
                lemma_digits_value_nonneg(ds.take(j - start + 1));
                assert(digits_value(pre) * 10 + d > 0x8000_0000_0000_0000) by {
                    assert(digits_value(pre) > 0x8000_0000_0000_0000);
                }
            }
        } else {
            let big: u128 = mag as u128 * 10 + d as u128;
            if big > 0x8000_0000_0000_0000u128 {
                over = true;
            } else {
                mag = big as u64;
            }
        }
        j = j + 1;
    }
    proof {
        assert(ds.take(ds.len() as int) =~= ds);
    }
    if over {
        return None;
    }
    if neg {
        if mag > 0x8000_0000_0000_0000u64 {
            return None;
        }
        Some((-(mag as i128)) as i64)
    } else {
        if mag > 0x7FFF_FFFF_FFFF_FFFFu64 {
            return None;
        }
        Some(mag as i64)
    }
}

impl TagID {
    /// Parses an integer literal as this integer kind, narrowing the 64-bit
    /// reading to the kind's width.
    fn parse_num(self, input: &str) -> (r: Option<TagPayload>)
        requires
            self == TagID::Byte || self == TagID::Short || self == TagID::Int || self
                == TagID::Long,
        ensures
            match r {
                Some(p) => spec_parse_num(self, input@) == Some(p@),
                None => spec_parse_num(self, input@) is None,
            },
    {
        let num = match parse_i64(input) {
            Some(v) => v,
            None => {
                return None;
            },
        };
        match self {
            TagID::Byte => {
                if -0x80 <= num && num <= 0x7F {
                    Some(TagPayload::Byte(num as i8))
                } else {
                    None
                }
            },
            TagID::Short => {
                if -0x8000 <= num && num <= 0x7FFF {
                    Some(TagPayload::Short(num as i16))
                } else {
                    None
                }
            },
            TagID::Int => {
                if -0x8000_0000 <= num && num <= 0x7FFF_FFFF {
                    Some(TagPayload::Int(num as i32))
                } else {
                    None
                }
            },
            _ => Some(TagPayload::Long(num)),
        }
    }

    /// Parses a double-quoted string literal, decoding the standard
    /// escapes; the closing quote must be the literal's last character.
    #[verifier::loop_isolation(false)]
    fn parse_str(input: &str) -> (r: Option<TagPayload>)
        ensures
            match r {
                Some(p) => spec_parse_text(TagID::String, input@) == Some(p@),
                None => spec_parse_str(input@) is None,
            },
    {
        let len = input.unicode_len();
        if len == 0 || input.get_char(0) != '"' {
            return None;
        }
        let ghost body = input@.drop_first();
        proof {
            assert(body =~= input@.skip(1));
            assert forall|rest: Seq<char>| true implies Seq::<char>::empty() + rest =~= rest by {}
        }
        let mut out = String::new();
        let mut j: usize = 1;
        while j < len
            invariant
                1 <= j <= len,
                len == input@.len(),
                body == input@.drop_first(),
                spec_unescape(body) == match spec_unescape(input@.skip(j as int)) {
                    Some(rest) => Some(out@ + rest),
                    None => None::<Seq<char>>,
                },
            decreases len - j,
        {
            let c = input.get_char(j);
            let ghost sj = input@.skip(j as int);
            proof {
                assert(sj[0] == input@[j as int]);
            }
            if c == '"' {
                if j == len - 1 {
                    proof {
                        assert(sj.len() == 1);
                        assert(spec_unescape(sj) == Some(Seq::<char>::empty()));
                        assert(out@ + Seq::<char>::empty() =~= out@);
                    }
                    return Some(TagPayload::String(out));
                } else {
                    return None;
                }
            } else if c == '\\' {
                if j + 1 == len {
                    proof {
                        assert(sj.len() < 2);
                    }
                    return None;
                }
                let c2 = input.get_char(j + 1);
                proof {
                    assert(sj[1] == input@[j + 1]);
                }
                let e = if c2 == 'n' {
                    Some('\n')
                } else if c2 == 't' {
                    Some('\t')
                } else if c2 == 'r' {
                    Some('\r')
                } else if c2 == '0' {
                    Some('\0')
                } else if c2 == '\\' {
                    Some('\\')
                } else if c2 == '"' {
                    Some('"')
                } else {
                    None
                };
                proof {
                    assert(e == spec_escape(sj[1]));
                }
                match e {
                    Some(ch) => {
                        let ghost out_pre = out@;
                        push_char(&mut out, ch);
                        proof {
                            assert(sj.skip(2) =~= input@.skip(j + 2));
                            assert forall|rest: Seq<char>| true implies out_pre + (seq![ch]
                                + rest) =~= out@ + rest by {
                                assert(out_pre + (seq![ch] + rest) =~= out_pre.push(ch) + rest);
                            }
                        }
                        j = j + 2;
                    },
                    None => {
                        return None;
                    },
                }
            } else {
                let ghost out_pre = out@;
                push_char(&mut out, c);
                proof {
                    assert(sj.drop_first() =~= input@.skip(j + 1));
                    assert forall|rest: Seq<char>| true implies out_pre + (seq![c] + rest) =~= out@
                        + rest by {
                        assert(out_pre + (seq![c] + rest) =~= out_pre.push(c) + rest);
                    }
                }
                j = j + 1;
            }
        }
        proof {
            assert(input@.skip(len as int).len() == 0);
        }
        None
    }

    /// Parses a text literal into a payload of this kind: integer kinds
    /// parse as integers, the string kind as a quoted literal. Fractional
    /// kinds are parsed by the embedding application, since their values
    /// are floating point; container kinds cannot be built from a flat
    /// literal. For both, the result is `None`.
    pub fn parse(self, input: &str) -> (r: Option<TagPayload>)
        ensures
            match r {
                Some(p) => spec_parse_text(self, input@) == Some(p@),
                None => spec_parse_text(self, input@) is None,
            },
    {
        match self {
            TagID::Byte => self.parse_num(input),
            TagID::Short => self.parse_num(input),
            TagID::Int => self.parse_num(input),
            TagID::Long => self.parse_num(input),
            TagID::String => Self::parse_str(input),
            _ => None,
        }
    }
}

} // verus!
