//! Paparazzi XML message dictionaries and offline payload decoding.
//!
//! This module only interprets captured PPRZ payload bytes. It does not open
//! a network connection, serial device, or actuator interface.
use vstd::prelude::*;
use vstd::string::StringSliceAdditionalSpecFns;
use crate::protocol::Frame;
use crate::text::{bytes_eq, str_eq};
use crate::xml::{
    attribute_text, find_attribute, read_event, reader_from_str, set_trim_text, unescape_value,
    xml_event, XmlElement, XmlEvent, XmlToken,
};

verus! {

/// A collection of message definitions for one Paparazzi protocol class.
#[derive(Debug, PartialEq, Eq)]
pub struct MessageDictionary {
    messages: Vec<MessageDefinition>,
}

/// A named message in a Paparazzi protocol class.
#[derive(Clone, Debug, PartialEq, Eq)]
pub struct MessageDefinition {
    /// Transport message identifier.
    pub id: u8,
    /// Dictionary message name.
    pub name: String,
    /// Fields encoded in payload order.
    pub fields: Vec<FieldDefinition>,
}

/// A named field in a message definition.
#[derive(Clone, Debug, PartialEq, Eq)]
pub struct FieldDefinition {
    /// Dictionary field name.
    pub name: String,
    /// Primitive scalar or array wire representation.
    pub kind: FieldKind,
}

/// Supported Paparazzi primitive field representations.
#[derive(Clone, Copy, Debug, PartialEq, Eq)]
pub enum FieldKind {
    /// An unsigned 8-bit integer.
    U8,
    /// A signed 8-bit integer.
    I8,
    /// An unsigned 16-bit little-endian integer.
    U16,
    /// A signed 16-bit little-endian integer.
    I16,
    /// An unsigned 32-bit little-endian integer.
    U32,
    /// A signed 32-bit little-endian integer.
    I32,
    /// An IEEE-754 32-bit little-endian float.
    F32,
    /// A variable-length byte sequence.
    U8Array,
    /// A variable-length signed 16-bit integer sequence.
    I16Array,
    /// A variable-length unsigned 16-bit integer sequence.
    U16Array,
}

/// A message decoded from a PPRZ transport frame.
#[derive(Clone, Debug, PartialEq, Eq)]
pub struct DecodedMessage {
    /// Sender or destination aircraft identifier.
    pub aircraft_id: u8,
    /// Decoded message identifier.
    pub id: u8,
    /// Dictionary message name.
    pub name: String,
    /// Decoded payload fields in definition order.
    pub fields: Vec<DecodedField>,
}

/// One named decoded payload value.
#[derive(Clone, Debug, PartialEq, Eq)]
pub struct DecodedField {
    /// Dictionary field name.
    pub name: String,
    /// Decoded payload value.
    pub value: FieldValue,
}

/// A decoded primitive scalar or variable-length array.
#[derive(Clone, Debug, PartialEq, Eq)]
pub enum FieldValue {
    /// Unsigned 8-bit value.
    U8(u8),
    /// Signed 8-bit value.
    I8(i8),
    /// Unsigned 16-bit value.
    U16(u16),
    /// Signed 16-bit value.
    I16(i16),
    /// Unsigned 32-bit value.
    U32(u32),
    /// Signed 32-bit value.
    I32(i32),
    /// 32-bit floating-point value, held as its IEEE-754 bit pattern.
    F32(u32),
    /// Variable-length byte sequence.
    U8Array(Vec<u8>),
    /// Variable-length signed 16-bit sequence.
    I16Array(Vec<i16>),
    /// Variable-length unsigned 16-bit sequence.
    U16Array(Vec<u16>),
}

/// Errors raised while parsing a message dictionary.
#[derive(Clone, Debug, PartialEq, Eq)]
pub enum DictionaryError {
    /// XML was malformed or unreadable.
    Xml(String),
    /// The requested class was absent.
    MissingClass(String),
    /// A message did not have a valid `id` or `ID` attribute.
    InvalidMessageId(String),
    /// A message or field was missing a required attribute.
    MissingAttribute(&'static str),
    /// A field representation is intentionally unsupported.
    UnsupportedFieldType(String),
    /// A variable array was followed by another field.
    VariableArrayNotLast(String),
}

/// Errors raised while decoding a frame with a known dictionary.
#[derive(Clone, Copy, Debug, PartialEq, Eq)]
pub enum DecodeError {
    /// The dictionary contains no definition for this message ID.
    UnknownMessage(u8),
    /// The payload ended before a scalar could be decoded.
    PayloadTooShort {
        /// Width of the scalar that could not be read.
        needed: usize,
        /// Bytes remaining in the payload.
        available: usize,
    },
    /// An array payload was not an exact multiple of its element width.
    MisalignedArray {
        /// Width in bytes of one array element.
        element_width: usize,
        /// Bytes available for the variable-length array.
        available: usize,
    },
    /// Decoding known fields left bytes unconsumed.
    TrailingBytes(usize),
}


/// A dictionary error as plain values.
pub enum DictionaryErrorView {
    Xml(Seq<char>),
    MissingClass(Seq<char>),
    InvalidMessageId(Seq<char>),
    MissingAttribute(Seq<char>),
    UnsupportedFieldType(Seq<char>),
    VariableArrayNotLast(Seq<char>),
}

impl View for DictionaryError {
    type V = DictionaryErrorView;

    open spec fn view(&self) -> DictionaryErrorView {
        match self {
            DictionaryError::Xml(s) => DictionaryErrorView::Xml(s@),
            DictionaryError::MissingClass(s) => DictionaryErrorView::MissingClass(s@),
            DictionaryError::InvalidMessageId(s) => DictionaryErrorView::InvalidMessageId(s@),
            DictionaryError::MissingAttribute(s) => DictionaryErrorView::MissingAttribute(s@),
            DictionaryError::UnsupportedFieldType(s) => DictionaryErrorView::UnsupportedFieldType(s@),
            DictionaryError::VariableArrayNotLast(s) => DictionaryErrorView::VariableArrayNotLast(s@),
        }
    }
}

/// Whether a field kind is a variable-length array.
pub open spec fn is_array(kind: FieldKind) -> bool {
    kind == FieldKind::U8Array || kind == FieldKind::I16Array || kind == FieldKind::U16Array
}

/// The width in bytes of a scalar, or of one array element.
pub open spec fn kind_width(kind: FieldKind) -> nat {
    match kind {
        FieldKind::U8 | FieldKind::I8 | FieldKind::U8Array => 1,
        FieldKind::U16 | FieldKind::I16 | FieldKind::I16Array | FieldKind::U16Array => 2,
        FieldKind::U32 | FieldKind::I32 | FieldKind::F32 => 4,
    }
}

/// The field kinds of a definition, in payload order.
pub open spec fn field_kinds(fields: Seq<FieldDefinition>) -> Seq<FieldKind> {
    fields.map_values(|f: FieldDefinition| f.kind)
}

/// How a payload splits among fields of the given kinds: the bytes of each
/// field in order, or the error that decoding meets first. Scalars take
/// their width; a variable-length array must be the last field and takes
/// every remaining byte, which must be a whole number of elements; no byte
/// may be left over.
pub open spec fn field_layout(kinds: Seq<FieldKind>, payload: Seq<u8>) -> Result<Seq<Seq<u8>>, DecodeError>
    decreases kinds.len(),
{
    if kinds.len() == 0 {
        if payload.len() == 0 {
            Ok(Seq::empty())
        } else {
            Err(DecodeError::TrailingBytes(payload.len() as usize))
        }
    } else {
        let kind = kinds[0];
        let width = kind_width(kind);
        if is_array(kind) {
            if kinds.len() > 1 {
                Err(DecodeError::TrailingBytes(payload.len() as usize))
            } else if payload.len() % width != 0 {
                Err(DecodeError::MisalignedArray { element_width: width as usize, available: payload.len() as usize })
            } else {
                Ok(seq![payload])
            }
        } else if payload.len() < width {
            Err(DecodeError::PayloadTooShort { needed: width as usize, available: payload.len() as usize })
        } else {
            match field_layout(kinds.drop_first(), payload.skip(width as int)) {
                Ok(rest) => Ok(seq![payload.take(width as int)] + rest),
                Err(e) => Err(e),
            }
        }
    }
}

/// The little-endian unsigned value of two bytes.
pub open spec fn le16(b0: u8, b1: u8) -> u16 {
    (b0 + 256 * b1) as u16
}

/// The little-endian unsigned value of four bytes.
pub open spec fn le32(b: Seq<u8>) -> u32 {
    (b[0] + 256 * b[1] + 65536 * b[2] + 16777216 * b[3]) as u32
}

/// The two's-complement reading of a byte.
pub open spec fn signed8(v: u8) -> i8 {
    if v < 128 { v as i8 } else { (v - 256) as i8 }
}

/// The two's-complement reading of a 16-bit word.
pub open spec fn signed16(v: u16) -> i16 {
    if v < 32768 { v as i16 } else { (v - 65536) as i16 }
}

/// The two's-complement reading of a 32-bit word.
pub open spec fn signed32(v: u32) -> i32 {
    if v < 2147483648 { v as i32 } else { (v - 4294967296int) as i32 }
}

/// The little-endian 16-bit words of an even number of bytes.
pub open spec fn le16_words(bytes: Seq<u8>) -> Seq<u16> {
    Seq::new(bytes.len() / 2, |i: int| le16(bytes[2 * i], bytes[2 * i + 1]))
}

/// Whether `v` is what a field of kind `kind` holds when its bytes are `bytes`.
pub open spec fn decodes_to(kind: FieldKind, bytes: Seq<u8>, v: FieldValue) -> bool {
    match kind {
        FieldKind::U8 => v == FieldValue::U8(bytes[0]),
        FieldKind::I8 => v == FieldValue::I8(signed8(bytes[0])),
        FieldKind::U16 => v == FieldValue::U16(le16(bytes[0], bytes[1])),
        FieldKind::I16 => v == FieldValue::I16(signed16(le16(bytes[0], bytes[1]))),
        FieldKind::U32 => v == FieldValue::U32(le32(bytes)),
        FieldKind::I32 => v == FieldValue::I32(signed32(le32(bytes))),
        FieldKind::F32 => v == FieldValue::F32(le32(bytes)),
        FieldKind::U8Array => v matches FieldValue::U8Array(xs) && xs@ == bytes,
        FieldKind::I16Array => v matches FieldValue::I16Array(xs) && xs@ == le16_words(bytes).map_values(
            |w: u16| signed16(w),
        ),
        FieldKind::U16Array => v matches FieldValue::U16Array(xs) && xs@ == le16_words(bytes),
    }
}

/// What each field kind reads from its little-endian bytes: unsigned values
/// are the bytes weighted by powers of 256, signed values are the same less
/// 2^bits when the top byte's high bit is set, a float is its raw bit pattern,
/// and arrays read their elements in order.
pub proof fn field_values_are_little_endian(kind: FieldKind, bytes: Seq<u8>, v: FieldValue)
    requires
        decodes_to(kind, bytes, v),
        !is_array(kind) ==> bytes.len() == kind_width(kind),
        is_array(kind) ==> bytes.len() % kind_width(kind) == 0,
    ensures
        kind == FieldKind::U8 ==> v == FieldValue::U8(bytes[0]),
        kind == FieldKind::I8 ==> (v matches FieldValue::I8(x) && x as int == bytes[0] as int - if bytes[0] >= 128 {
            256int
        } else {
            0int
        }),
        kind == FieldKind::U16 ==> (v matches FieldValue::U16(x) && x as int == bytes[0] + 256 * bytes[1]),
        kind == FieldKind::I16 ==> (v matches FieldValue::I16(x) && x as int == bytes[0] + 256 * bytes[1] - if bytes[1]
            >= 128 {
            65536int
        } else {
            0int
        }),
        kind == FieldKind::U32 ==> (v matches FieldValue::U32(x) && x as int == bytes[0] + 256 * bytes[1] + 65536
            * bytes[2] + 16777216 * bytes[3]),
        kind == FieldKind::I32 ==> (v matches FieldValue::I32(x) && x as int == bytes[0] + 256 * bytes[1] + 65536
            * bytes[2] + 16777216 * bytes[3] - if bytes[3] >= 128 {
            4294967296int
        } else {
            0int
        }),
        kind == FieldKind::F32 ==> (v matches FieldValue::F32(x) && x as int == bytes[0] + 256 * bytes[1] + 65536
            * bytes[2] + 16777216 * bytes[3]),
        kind == FieldKind::U8Array ==> (v matches FieldValue::U8Array(xs) && xs@ == bytes),
        kind == FieldKind::U16Array ==> (v matches FieldValue::U16Array(xs) && xs@.len() * 2 == bytes.len() && forall|i: int|
            0 <= i < xs@.len() ==> #[trigger] xs@[i] as int == bytes[2 * i] + 256 * bytes[2 * i + 1]),
        kind == FieldKind::I16Array ==> (v matches FieldValue::I16Array(xs) && xs@.len() * 2 == bytes.len() && forall|i: int|
            0 <= i < xs@.len() ==> #[trigger] xs@[i] as int == bytes[2 * i] + 256 * bytes[2 * i + 1] - if bytes[2 * i + 1]
                >= 128 {
                65536int
            } else {
                0int
            }),
{
    if kind == FieldKind::I16Array {
        if let FieldValue::I16Array(xs) = v {
            assert forall|i: int| 0 <= i < xs@.len() implies #[trigger] xs@[i] as int == bytes[2 * i] + 256 * bytes[2 * i
                + 1] - if bytes[2 * i + 1] >= 128 {
                65536int
            } else {
                0int
            } by {
                assert(xs@[i] == signed16(le16_words(bytes)[i]));
            }
        }
    }
}

/// Whether `i` is the position of the first definition with identifier `id`.
pub open spec fn is_first_with_id(messages: Seq<MessageDefinition>, id: u8, i: int) -> bool {
    &&& 0 <= i < messages.len()
    &&& messages[i].id == id
    &&& forall|j: int| 0 <= j < i ==> #[trigger] messages[j].id != id
}

/// Whether a decoded message is what `definition` makes of `frame`'s payload
/// when it splits into `slices`.
pub open spec fn decoded_from(m: DecodedMessage, definition: MessageDefinition, frame: Frame, slices: Seq<Seq<u8>>) -> bool {
    &&& m.aircraft_id == frame.aircraft_id
    &&& m.id == definition.id
    &&& m.name@ == definition.name@
    &&& m.fields.len() == definition.fields.len()
    &&& forall|i: int|
        0 <= i < m.fields.len() ==> (#[trigger] m.fields@[i]).name@ == definition.fields@[i].name@ && decodes_to(
            definition.fields@[i].kind,
            slices[i],
            m.fields@[i].value,
        )
}

/// What decoding one field of kind `kind` from the remaining bytes `rest`
/// yields: the number of bytes it takes, or the error.
pub open spec fn field_step(kind: FieldKind, rest: Seq<u8>, is_last: bool) -> Result<nat, DecodeError> {
    let width = kind_width(kind);
    if is_array(kind) {
        if !is_last {
            Err(DecodeError::TrailingBytes(rest.len() as usize))
        } else if rest.len() % width != 0 {
            Err(DecodeError::MisalignedArray { element_width: width as usize, available: rest.len() as usize })
        } else {
            Ok(rest.len())
        }
    } else if rest.len() < width {
        Err(DecodeError::PayloadTooShort { needed: width as usize, available: rest.len() as usize })
    } else {
        Ok(width)
    }
}

/// The slices `pre` followed by those of a layout, or that layout's error.
pub open spec fn prepend_slices(pre: Seq<Seq<u8>>, r: Result<Seq<Seq<u8>>, DecodeError>) -> Result<Seq<Seq<u8>>, DecodeError> {
    match r {
        Ok(rest) => Ok(pre + rest),
        Err(e) => Err(e),
    }
}

proof fn lemma_layout_step(kinds: Seq<FieldKind>, payload: Seq<u8>)
    requires
        kinds.len() > 0,
    ensures
        field_layout(kinds, payload) == match field_step(kinds[0], payload, kinds.len() == 1) {
            Ok(c) => prepend_slices(seq![payload.take(c as int)], field_layout(kinds.drop_first(), payload.skip(c as int))),
            Err(e) => Err::<Seq<Seq<u8>>, DecodeError>(e),
        },
{
    let kind = kinds[0];
    if is_array(kind) && kinds.len() == 1 && payload.len() % kind_width(kind) == 0 {
        assert(payload.take(payload.len() as int) == payload);
        assert(payload.skip(payload.len() as int) == Seq::<u8>::empty());
        assert(kinds.drop_first().len() == 0);
        assert(seq![payload] + Seq::<Seq<u8>>::empty() == seq![payload]);
    }
}

proof fn lemma_prepend_assoc(a: Seq<Seq<u8>>, b: Seq<Seq<u8>>, r: Result<Seq<Seq<u8>>, DecodeError>)
    ensures
        prepend_slices(a, prepend_slices(b, r)) == prepend_slices(a + b, r),
{
    match r {
        Ok(rest) => {
            assert(a + (b + rest) == (a + b) + rest);
        },
        Err(_) => {},
    }
}


/// The value of a digit character in the given radix, as `char::to_digit` gives it.
pub open spec fn digit_value(c: char, radix: nat) -> Option<nat> {
    let v = if '0' <= c && c <= '9' {
        Some((c as nat - '0' as nat) as nat)
    } else if 'a' <= c && c <= 'z' {
        Some((c as nat - 'a' as nat + 10) as nat)
    } else if 'A' <= c && c <= 'Z' {
        Some((c as nat - 'A' as nat + 10) as nat)
    } else {
        None
    };
    match v {
        Some(d) => if d < radix { Some(d) } else { None },
        None => None,
    }
}

/// The value of a string of digits in the given radix, if every character is a digit.
pub open spec fn digits_value(s: Seq<char>, radix: nat) -> Option<nat>
    decreases s.len(),
{
    if s.len() == 0 {
        Some(0)
    } else {
        match (digits_value(s.drop_last(), radix), digit_value(s.last(), radix)) {
            (Some(v), Some(d)) => Some(v * radix + d),
            _ => None,
        }
    }
}

/// What `u8::from_str_radix(s, radix)` accepts: an optional `+` and at least
/// one digit, of a value below 256.
pub open spec fn parse_u8_radix(s: Seq<char>, radix: nat) -> Option<u8> {
    let digits = if s.len() > 0 && s[0] == '+' { s.drop_first() } else { s };
    if digits.len() == 0 {
        None
    } else {
        match digits_value(digits, radix) {
            Some(v) => if v < 256 { Some(v as u8) } else { None },
            None => None,
        }
    }
}

/// A message identifier: hexadecimal after a `0x` prefix, decimal otherwise.
pub open spec fn spec_parse_id(text: Seq<char>) -> Option<u8> {
    if text.len() >= 2 && text[0] == '0' && text[1] == 'x' {
        parse_u8_radix(text.skip(2), 16)
    } else {
        parse_u8_radix(text, 10)
    }
}

proof fn lemma_digits_none_extends(s: Seq<char>, radix: nat, j: int)
    requires
        0 <= j <= s.len(),
        digits_value(s.take(j), radix) is None,
    ensures
        digits_value(s, radix) is None,
    decreases s.len() - j,
{
    if j < s.len() {
        assert(s.take(j + 1).drop_last() == s.take(j));
        lemma_digits_none_extends(s, radix, j + 1);
    } else {
        assert(s.take(j) == s);
    }
}

proof fn lemma_digits_large_extends(s: Seq<char>, radix: nat, j: int)
    requires
        0 <= j <= s.len(),
        radix >= 1,
        digits_value(s.take(j), radix) matches Some(v) && v >= 256,
    ensures
        digits_value(s, radix) matches Some(v) ==> v >= 256,
    decreases s.len() - j,
{
    if j < s.len() {
        let t = s.take(j + 1);
        assert(t.drop_last() == s.take(j));
        match digits_value(t, radix) {
            Some(w) => {
                let v = digits_value(s.take(j), radix).unwrap();
                let d = digit_value(t.last(), radix).unwrap();
                assert(v * radix + d >= 256) by (nonlinear_arith)
                    requires v >= 256, radix >= 1;
                lemma_digits_large_extends(s, radix, j + 1);
            },
            None => {
                lemma_digits_none_extends(s, radix, j + 1);
            },
        }
    } else {
        assert(s.take(j) == s);
    }
}

fn digit(c: char, radix: u32) -> (r: Option<u32>)
    requires
        radix <= 36,
    ensures
        match digit_value(c, radix as nat) {
            Some(d) => r == Some(d as u32),
            None => r is None,
        },
{
    let v: u32 = if '0' <= c && c <= '9' {
        c as u32 - '0' as u32
    } else if 'a' <= c && c <= 'z' {
        c as u32 - 'a' as u32 + 10
    } else if 'A' <= c && c <= 'Z' {
        c as u32 - 'A' as u32 + 10
    } else {
        return None;
    };
    if v < radix { Some(v) } else { None }
}

/// Parses `text[start..]` as `u8::from_str_radix` does.
fn parse_u8_from(text: &str, start: usize, radix: u32) -> (r: Option<u8>)
    requires
        start <= text@.len(),
        2 <= radix <= 16,
    ensures
        r == parse_u8_radix(text@.skip(start as int), radix as nat),
{
    let ghost s = text@.skip(start as int);
    let n = text.unicode_len();
    let mut i = start;
    if i < n && text.get_char(i) == '+' {
        i = i + 1;
    }
    let ghost digits = if s.len() > 0 && s[0] == '+' { s.drop_first() } else { s };
    assert(digits == text@.skip(i as int));
    if i == n {
        return None;
    }
    let begin = i;
    let mut value: u32 = 0;
    assert(digits.take(0) == Seq::<char>::empty());
    while i < n
        invariant
            n == text@.len(),
            begin <= i <= n,
            begin < n,
            2 <= radix <= 16,
            digits == text@.skip(begin as int),
            s == text@.skip(start as int),
            digits == (if s.len() > 0 && s[0] == '+' { s.drop_first() } else { s }),
            digits_value(digits.take(i - begin), radix as nat) matches Some(v) && value == if v < 256 { v } else { 256 },
        decreases n - i,
    {
        let c = text.get_char(i);
        let ghost k = i - begin;
        assert(digits.take(k + 1).drop_last() == digits.take(k));
        assert(digits.take(k + 1).last() == c);
        match digit(c, radix) {
            None => {
                proof {
                    lemma_digits_none_extends(digits, radix as nat, k + 1);
                }
                return None;
            },
            Some(d) => {
                let ghost v = digits_value(digits.take(k), radix as nat).unwrap();
                if value >= 256 {
                    assert(v * radix + d >= 256) by (nonlinear_arith)
                        requires v >= 256, radix >= 1;
                    value = 256;
                } else {
                    assert(value * radix + d <= 255 * 16 + 15) by (nonlinear_arith)
                        requires value <= 255, radix <= 16, d < 16;
                    let w = value * radix + d;
                    value = if w < 256 { w } else { 256 };
                }
            },
        }
        i = i + 1;
    }
    assert(digits.take(n - begin) == digits);
    if value < 256 { Some(value as u8) } else { None }
}

/// Parses a message identifier: hexadecimal after a `0x` prefix, decimal
/// otherwise, each as `u8::from_str_radix` reads it.
pub fn parse_id(text: &str) -> (r: Result<u8, DictionaryError>)
    ensures
        match spec_parse_id(text@) {
            Some(id) => r == Ok::<u8, DictionaryError>(id),
            None => r matches Err(e) && e@ == DictionaryErrorView::InvalidMessageId(text@),
        },
{
    let n = text.unicode_len();
    let parsed = if n >= 2 && text.get_char(0) == '0' && text.get_char(1) == 'x' {
        parse_u8_from(text, 2, 16)
    } else {
        assert(text@.skip(0) == text@);
        parse_u8_from(text, 0, 10)
    };
    match parsed {
        Some(id) => Ok(id),
        None => Err(DictionaryError::InvalidMessageId(String::from_str(text))),
    }
}


/// A field definition as plain values.
pub struct FieldView {
    pub name: Seq<char>,
    pub kind: FieldKind,
}

/// A message definition as plain values.
pub struct MessageView {
    pub id: u8,
    pub name: Seq<char>,
    pub fields: Seq<FieldView>,
}

impl View for FieldDefinition {
    type V = FieldView;

    open spec fn view(&self) -> FieldView {
        FieldView { name: self.name@, kind: self.kind }
    }
}

impl View for MessageDefinition {
    type V = MessageView;

    open spec fn view(&self) -> MessageView {
        MessageView { id: self.id, name: self.name@, fields: self.fields@.map_values(|f: FieldDefinition| f@) }
    }
}

/// The views of a sequence of message definitions.
pub open spec fn message_views(messages: Seq<MessageDefinition>) -> Seq<MessageView> {
    messages.map_values(|m: MessageDefinition| m@)
}

/// The field kind that a dictionary `type` attribute names, if supported.
pub open spec fn spec_field_kind(t: Seq<char>) -> Option<FieldKind> {
    if t == "uint8"@ {
        Some(FieldKind::U8)
    } else if t == "int8"@ {
        Some(FieldKind::I8)
    } else if t == "uint16"@ {
        Some(FieldKind::U16)
    } else if t == "int16"@ {
        Some(FieldKind::I16)
    } else if t == "uint32"@ {
        Some(FieldKind::U32)
    } else if t == "int32"@ {
        Some(FieldKind::I32)
    } else if t == "float"@ {
        Some(FieldKind::F32)
    } else if t == "uint8[]"@ {
        Some(FieldKind::U8Array)
    } else if t == "int16[]"@ {
        Some(FieldKind::I16Array)
    } else if t == "uint16[]"@ {
        Some(FieldKind::U16Array)
    } else {
        None
    }
}

/// Whether every variable-length array among the fields is the last field.
pub open spec fn arrays_only_last(fields: Seq<FieldView>) -> bool {
    forall|i: int| 0 <= i < fields.len() - 1 ==> !is_array(#[trigger] fields[i].kind)
}

/// The attribute `key` of a tag, with an error carried as a dictionary error.
pub open spec fn dict_attribute(content: Seq<u8>, name_len: nat, key: &str) -> Result<Option<Seq<char>>, DictionaryErrorView> {
    match attribute_text(content, name_len, key.spec_bytes()) {
        Ok(v) => Ok(v),
        Err(msg) => Err(DictionaryErrorView::Xml(msg)),
    }
}

/// The definition that a `message` tag opens: its `name`, and its `id`
/// (or, failing that, `ID`) parsed as a message identifier. Both `id` and
/// `ID` are looked up, so an error in either is reported.
pub open spec fn message_header(content: Seq<u8>, name_len: nat) -> Result<MessageView, DictionaryErrorView> {
    match dict_attribute(content, name_len, "name") {
        Err(e) => Err(e),
        Ok(None) => Err(DictionaryErrorView::MissingAttribute("name"@)),
        Ok(Some(name)) => match dict_attribute(content, name_len, "id") {
            Err(e) => Err(e),
            Ok(lower) => match dict_attribute(content, name_len, "ID") {
                Err(e) => Err(e),
                Ok(upper) => match if lower is Some { lower } else { upper } {
                    None => Err(DictionaryErrorView::MissingAttribute("id"@)),
                    Some(text) => match spec_parse_id(text) {
                        Some(id) => Ok(MessageView { id, name, fields: Seq::empty() }),
                        None => Err(DictionaryErrorView::InvalidMessageId(text)),
                    },
                },
            },
        },
    }
}

/// The definition that a `field` tag gives: its `name` and the kind its `type` names.
pub open spec fn field_definition(content: Seq<u8>, name_len: nat) -> Result<FieldView, DictionaryErrorView> {
    match dict_attribute(content, name_len, "name") {
        Err(e) => Err(e),
        Ok(None) => Err(DictionaryErrorView::MissingAttribute("name"@)),
        Ok(Some(name)) => match dict_attribute(content, name_len, "type") {
            Err(e) => Err(e),
            Ok(None) => Err(DictionaryErrorView::MissingAttribute("type"@)),
            Ok(Some(t)) => match spec_field_kind(t) {
                Some(kind) => Ok(FieldView { name, kind }),
                None => Err(DictionaryErrorView::UnsupportedFieldType(t)),
            },
        },
    }
}

/// The state of a dictionary scan: whether it is inside the requested class,
/// whether it has seen it, the message being read, and the messages read.
pub struct DictScan {
    pub in_class: bool,
    pub found: bool,
    pub current: Option<MessageView>,
    pub messages: Seq<MessageView>,
}

/// What one XML event does to a dictionary scan.
pub open spec fn dict_step(s: DictScan, token: XmlToken, class: Seq<char>) -> Result<DictScan, DictionaryErrorView> {
    match token {
        XmlToken::Start { name, content } => {
            if name == "class".spec_bytes() {
                match dict_attribute(content, name.len(), "name") {
                    Err(e) => Err(e),
                    Ok(v) => {
                        let in_class = v == Some(class);
                        Ok(DictScan { in_class, found: s.found || in_class, ..s })
                    },
                }
            } else if s.in_class && name == "message".spec_bytes() {
                match message_header(content, name.len()) {
                    Err(e) => Err(e),
                    Ok(m) => Ok(DictScan { current: Some(m), ..s }),
                }
            } else {
                Ok(s)
            }
        },
        XmlToken::Empty { name, content } => {
            if s.in_class && name == "message".spec_bytes() {
                match message_header(content, name.len()) {
                    Err(e) => Err(e),
                    Ok(m) => Ok(DictScan { messages: s.messages.push(m), ..s }),
                }
            } else if s.in_class && name == "field".spec_bytes() {
                match s.current {
                    Some(m) => match field_definition(content, name.len()) {
                        Err(e) => Err(e),
                        Ok(f) => Ok(DictScan { current: Some(MessageView { fields: m.fields.push(f), ..m }), ..s }),
                    },
                    None => Ok(s),
                }
            } else {
                Ok(s)
            }
        },
        XmlToken::End { name } => {
            if s.in_class && name == "message".spec_bytes() {
                match s.current {
                    Some(m) => if arrays_only_last(m.fields) {
                        Ok(DictScan { current: None, messages: s.messages.push(m), ..s })
                    } else {
                        Err(DictionaryErrorView::VariableArrayNotLast(m.name))
                    },
                    None => Ok(s),
                }
            } else if name == "class".spec_bytes() {
                Ok(DictScan { in_class: false, ..s })
            } else {
                Ok(s)
            }
        },
        _ => Ok(s),
    }
}

/// The dictionary scan after the first `k` events of the document, or the
/// first error it meets.
pub open spec fn dict_scan(doc: Seq<char>, class: Seq<char>, k: nat) -> Result<DictScan, DictionaryErrorView>
    decreases k,
{
    if k == 0 {
        Ok(DictScan { in_class: false, found: false, current: None, messages: Seq::empty() })
    } else {
        match dict_scan(doc, class, (k - 1) as nat) {
            Err(e) => Err(e),
            Ok(s) => match xml_event(doc, true, (k - 1) as nat) {
                Ok(token) => dict_step(s, token, class),
                Err(msg) => Err(DictionaryErrorView::Xml(msg)),
            },
        }
    }
}

/// Whether parsing the class `class` of `doc` ends at the reader's `n`-th
/// read: every earlier read yields an event other than `Eof` and the scan
/// has met no error before it, and this read yields `Eof` or makes the scan
/// fail.
pub open spec fn dictionary_ends_at(doc: Seq<char>, class: Seq<char>, n: nat) -> bool {
    &&& forall|k: nat| k < n ==> (#[trigger] xml_event(doc, true, k) matches Ok(t) && !(t is Eof))
    &&& dict_scan(doc, class, n) is Ok
    &&& (xml_event(doc, true, n) == Ok::<XmlToken, Seq<char>>(XmlToken::Eof) || dict_scan(doc, class, n + 1) is Err)
}

/// What parsing the class `class` of `doc` gives when it ends at the `n`-th
/// read: the messages of the class, or the error met.
pub open spec fn dictionary_outcome(doc: Seq<char>, class: Seq<char>, n: nat) -> Result<Seq<MessageView>, DictionaryErrorView> {
    match dict_scan(doc, class, n + 1) {
        Err(e) => Err(e),
        Ok(s) => if s.found { Ok(s.messages) } else { Err(DictionaryErrorView::MissingClass(class)) },
    }
}


/// Reads the attribute `name` of a tag, unescaped.
fn attribute(element: &XmlElement, name: &str) -> (r: Result<Option<String>, DictionaryError>)
    ensures
        match dict_attribute(element@.1, element@.0.len(), name) {
            Ok(None) => r matches Ok(None),
            Ok(Some(v)) => r matches Ok(Some(text)) && text@ == v,
            Err(e) => r matches Err(err) && err@ == e,
        },
{
    match find_attribute(element, name.as_bytes()) {
        Err(msg) => Err(DictionaryError::Xml(msg)),
        Ok(None) => Ok(None),
        Ok(Some(raw)) => match unescape_value(raw.as_slice()) {
            Ok(text) => Ok(Some(text)),
            Err(msg) => Err(DictionaryError::Xml(msg)),
        },
    }
}

/// Reads the definition that a `message` tag opens, with no fields yet.
fn parse_message(element: &XmlElement) -> (r: Result<MessageDefinition, DictionaryError>)
    ensures
        match message_header(element@.1, element@.0.len()) {
            Ok(m) => r matches Ok(d) && d@ == m,
            Err(e) => r matches Err(err) && err@ == e,
        },
{
    let name = match attribute(element, "name") {
        Err(e) => return Err(e),
        Ok(None) => return Err(DictionaryError::MissingAttribute("name")),
        Ok(Some(name)) => name,
    };
    let lower = match attribute(element, "id") {
        Err(e) => return Err(e),
        Ok(v) => v,
    };
    let upper = match attribute(element, "ID") {
        Err(e) => return Err(e),
        Ok(v) => v,
    };
    let id_text = match lower {
        Some(t) => t,
        None => match upper {
            Some(t) => t,
            None => return Err(DictionaryError::MissingAttribute("id")),
        },
    };
    let id = match parse_id(id_text.as_str()) {
        Ok(id) => id,
        Err(e) => return Err(e),
    };
    let d = MessageDefinition { id, name, fields: Vec::new() };
    assert(d@.fields == Seq::<FieldView>::empty());
    Ok(d)
}

/// The field kind that a dictionary `type` attribute names, if supported.
pub fn field_kind(t: &str) -> (r: Option<FieldKind>)
    ensures
        r == spec_field_kind(t@),
{
    if str_eq(t, "uint8") {
        Some(FieldKind::U8)
    } else if str_eq(t, "int8") {
        Some(FieldKind::I8)
    } else if str_eq(t, "uint16") {
        Some(FieldKind::U16)
    } else if str_eq(t, "int16") {
        Some(FieldKind::I16)
    } else if str_eq(t, "uint32") {
        Some(FieldKind::U32)
    } else if str_eq(t, "int32") {
        Some(FieldKind::I32)
    } else if str_eq(t, "float") {
        Some(FieldKind::F32)
    } else if str_eq(t, "uint8[]") {
        Some(FieldKind::U8Array)
    } else if str_eq(t, "int16[]") {
        Some(FieldKind::I16Array)
    } else if str_eq(t, "uint16[]") {
        Some(FieldKind::U16Array)
    } else {
        None
    }
}

/// Reads the definition that a `field` tag gives.
fn parse_field(element: &XmlElement) -> (r: Result<FieldDefinition, DictionaryError>)
    ensures
        match field_definition(element@.1, element@.0.len()) {
            Ok(f) => r matches Ok(d) && d@ == f,
            Err(e) => r matches Err(err) && err@ == e,
        },
{
    let name = match attribute(element, "name") {
        Err(e) => return Err(e),
        Ok(None) => return Err(DictionaryError::MissingAttribute("name")),
        Ok(Some(name)) => name,
    };
    let field_type = match attribute(element, "type") {
        Err(e) => return Err(e),
        Ok(None) => return Err(DictionaryError::MissingAttribute("type")),
        Ok(Some(t)) => t,
    };
    let kind = match field_kind(field_type.as_str()) {
        Some(kind) => kind,
        None => return Err(DictionaryError::UnsupportedFieldType(field_type)),
    };
    Ok(FieldDefinition { name, kind })
}

/// Checks that only the last field of a message is a variable-length array.
pub fn validate_message(message: &MessageDefinition) -> (r: Result<(), DictionaryError>)
    ensures
        r is Ok <==> arrays_only_last(message@.fields),
        r matches Err(e) ==> e@ == DictionaryErrorView::VariableArrayNotLast(message@.name),
{
    let n = message.fields.len();
    let limit = if n == 0 { 0 } else { n - 1 };
    let mut i: usize = 0;
    while i < limit
        invariant
            n == message.fields@.len(),
            limit == if n == 0 { 0 } else { n - 1 },
            i <= limit,
            forall|j: int| 0 <= j < i ==> !is_array(#[trigger] message@.fields[j].kind),
        decreases limit - i,
    {
        let kind = message.fields[i].kind;
        if matches!(kind, FieldKind::U8Array | FieldKind::I16Array | FieldKind::U16Array) {
            assert(is_array(message@.fields[i as int].kind));
            return Err(DictionaryError::VariableArrayNotLast(message.name.clone()));
        }
        i = i + 1;
    }
    Ok(())
}

/// Whether read `k` of `doc` lies inside a class named `class`, judged
/// from the document's tags alone: among the reads before it, the last
/// `class` tag (start or end tag) is a start tag whose `name` attribute is
/// `class`. Without nested classes, this is the innermost enclosing class.
pub open spec fn inside_class_at(doc: Seq<char>, class: Seq<char>, k: nat) -> bool
    decreases k,
{
    if k == 0 {
        false
    } else {
        match xml_event(doc, true, (k - 1) as nat) {
            Ok(XmlToken::Start { name, content }) => if name == "class".spec_bytes() {
                attribute_text(content, name.len(), "name".spec_bytes()) == Ok::<Option<Seq<char>>, Seq<char>>(
                    Some(class),
                )
            } else {
                inside_class_at(doc, class, (k - 1) as nat)
            },
            Ok(XmlToken::End { name }) => if name == "class".spec_bytes() {
                false
            } else {
                inside_class_at(doc, class, (k - 1) as nat)
            },
            _ => inside_class_at(doc, class, (k - 1) as nat),
        }
    }
}

/// Distinct literal texts have distinct bytes.
proof fn lemma_literal_bytes_differ(a: &str, b: &str)
    requires
        a@ != b@,
    ensures
        a.spec_bytes() != b.spec_bytes(),
{
    vstd::utf8::encode_utf8_decode_utf8(a@);
    vstd::utf8::encode_utf8_decode_utf8(b@);
}

proof fn lemma_message_is_not_class()
    ensures
        "message".spec_bytes() != "class".spec_bytes(),
{
    reveal_strlit("message");
    reveal_strlit("class");
    assert("message"@.len() != "class"@.len());
    lemma_literal_bytes_differ("message", "class");
}

/// The scan is inside the requested class exactly when the document's tags
/// place the read there.
proof fn lemma_scan_in_class(doc: Seq<char>, class: Seq<char>, k: nat)
    ensures
        dict_scan(doc, class, k) matches Ok(s) ==> s.in_class == inside_class_at(doc, class, k),
    decreases k,
{
    if k > 0 {
        let j = (k - 1) as nat;
        lemma_scan_in_class(doc, class, j);
        lemma_message_is_not_class();
    }
}

/// Whether read `k` of `doc` is a `message` tag, opening or self-closing,
/// read inside the class, that declares a message with identifier `id` and
/// name `name`.
pub open spec fn declares_message_at(doc: Seq<char>, class: Seq<char>, k: nat, id: u8, name: Seq<char>) -> bool {
    &&& dict_scan(doc, class, k) is Ok
    &&& inside_class_at(doc, class, k)
    &&& match xml_event(doc, true, k) {
        Ok(XmlToken::Start { name: tag, content }) => tag == "message".spec_bytes() && (message_header(
            content,
            tag.len(),
        ) matches Ok(h) && h.id == id && h.name == name),
        Ok(XmlToken::Empty { name: tag, content }) => tag == "message".spec_bytes() && (message_header(
            content,
            tag.len(),
        ) matches Ok(h) && h.id == id && h.name == name),
        _ => false,
    }
}

/// Whether read `k` of `doc` completes a message of the class: a
/// self-closing `message` tag, or the `message` end tag of an open message.
pub open spec fn completes_message_at(doc: Seq<char>, class: Seq<char>, k: nat) -> bool {
    &&& dict_scan(doc, class, k) is Ok
    &&& inside_class_at(doc, class, k)
    &&& match xml_event(doc, true, k) {
        Ok(XmlToken::Empty { name: tag, .. }) => tag == "message".spec_bytes(),
        Ok(XmlToken::End { name: tag }) => tag == "message".spec_bytes() && (dict_scan(doc, class, k) matches Ok(
            s,
        ) && s.current is Some),
        _ => false,
    }
}

/// Where messages met in the first `k` reads come from: message `i` was
/// declared at read `opens[i]` and completed at read `closes[i]`, the
/// completions come in read order, and every completion before read `k` is
/// one of them.
pub open spec fn messages_sourced(
    doc: Seq<char>,
    class: Seq<char>,
    k: nat,
    messages: Seq<MessageView>,
    opens: Seq<nat>,
    closes: Seq<nat>,
) -> bool {
    &&& opens.len() == messages.len()
    &&& closes.len() == messages.len()
    &&& forall|i: int|
        0 <= i < messages.len() ==> opens[i] <= closes[i] < k && declares_message_at(
            doc,
            class,
            opens[i],
            messages[i].id,
            messages[i].name,
        ) && completes_message_at(doc, class, #[trigger] closes[i])
    &&& forall|i: int, j: int| 0 <= i < j < closes.len() ==> closes[i] < closes[j]
    &&& forall|j: nat| j < k && #[trigger] completes_message_at(doc, class, j) ==> exists|i: int|
        0 <= i < closes.len() && closes[i] == j
}

/// Where the messages of a scan over the first `k` reads come from, and
/// the read `cur` that declared the open message, if any.
pub open spec fn scan_sources(
    doc: Seq<char>,
    class: Seq<char>,
    k: nat,
    s: DictScan,
    opens: Seq<nat>,
    closes: Seq<nat>,
    cur: nat,
) -> bool {
    &&& messages_sourced(doc, class, k, s.messages, opens, closes)
    &&& s.current matches Some(m) ==> cur < k && declares_message_at(doc, class, cur, m.id, m.name)
}

proof fn lemma_sourced_keep(
    doc: Seq<char>,
    class: Seq<char>,
    j: nat,
    messages: Seq<MessageView>,
    opens: Seq<nat>,
    closes: Seq<nat>,
)
    requires
        messages_sourced(doc, class, j, messages, opens, closes),
        !completes_message_at(doc, class, j),
    ensures
        messages_sourced(doc, class, j + 1, messages, opens, closes),
{
    assert forall|x: nat| x < j + 1 && #[trigger] completes_message_at(doc, class, x) implies exists|i: int|
        0 <= i < closes.len() && closes[i] == x by {
        assert(x < j);
    }
}

proof fn lemma_sourced_push(
    doc: Seq<char>,
    class: Seq<char>,
    j: nat,
    messages: Seq<MessageView>,
    opens: Seq<nat>,
    closes: Seq<nat>,
    m: MessageView,
    o: nat,
)
    requires
        messages_sourced(doc, class, j, messages, opens, closes),
        completes_message_at(doc, class, j),
        o <= j,
        declares_message_at(doc, class, o, m.id, m.name),
    ensures
        messages_sourced(doc, class, j + 1, messages.push(m), opens.push(o), closes.push(j)),
{
    let ms = messages.push(m);
    let os = opens.push(o);
    let cs = closes.push(j);
    assert forall|i: int|
        0 <= i < ms.len() implies os[i] <= cs[i] < j + 1 && declares_message_at(doc, class, os[i], ms[i].id, ms[i].name)
            && completes_message_at(doc, class, #[trigger] cs[i]) by {
        if i < messages.len() {
            assert(cs[i] == closes[i]);
        }
    }
    assert forall|x: nat| x < j + 1 && #[trigger] completes_message_at(doc, class, x) implies exists|i: int|
        0 <= i < cs.len() && cs[i] == x by {
        if x == j {
            assert(cs[closes.len() as int] == x);
        } else {
            let i = choose|i: int| 0 <= i < closes.len() && closes[i] == x;
            assert(cs[i] == x);
        }
    }
    assert forall|a: int, b: int| 0 <= a < b < cs.len() implies cs[a] < cs[b] by {
        if b == closes.len() {
            assert(closes[a] < j);
        }
    }
}

proof fn lemma_scan_step_sources(doc: Seq<char>, class: Seq<char>, j: nat, opens: Seq<nat>, closes: Seq<nat>, cur: nat)
    requires
        dict_scan(doc, class, j) is Ok,
        dict_scan(doc, class, j + 1) is Ok,
        scan_sources(doc, class, j, dict_scan(doc, class, j)->Ok_0, opens, closes, cur),
    ensures
        exists|opens2: Seq<nat>, closes2: Seq<nat>, cur2: nat|
            #[trigger] scan_sources(doc, class, j + 1, dict_scan(doc, class, j + 1)->Ok_0, opens2, closes2, cur2),
{
    let s = dict_scan(doc, class, j)->Ok_0;
    let s2 = dict_scan(doc, class, j + 1)->Ok_0;
    let token = xml_event(doc, true, j)->Ok_0;
    assert(s2 == dict_step(s, token, class)->Ok_0);
    lemma_scan_in_class(doc, class, j);
    lemma_scan_in_class(doc, class, j + 1);
    match token {
        XmlToken::Start { name, content } => {
            lemma_sourced_keep(doc, class, j, s.messages, opens, closes);
            if name != "class".spec_bytes() && s.in_class && name == "message".spec_bytes() {
                assert(declares_message_at(doc, class, j, s2.current->Some_0.id, s2.current->Some_0.name));
                assert(scan_sources(doc, class, j + 1, s2, opens, closes, j));
            } else {
                assert(scan_sources(doc, class, j + 1, s2, opens, closes, cur));
            }
        },
        XmlToken::Empty { name, content } => {
            if s.in_class && name == "message".spec_bytes() {
                let m = s2.messages.last();
                assert(s2.messages == s.messages.push(m));
                assert(declares_message_at(doc, class, j, m.id, m.name));
                lemma_sourced_push(doc, class, j, s.messages, opens, closes, m, j);
                assert(scan_sources(doc, class, j + 1, s2, opens.push(j), closes.push(j), cur));
            } else {
                lemma_sourced_keep(doc, class, j, s.messages, opens, closes);
                assert(scan_sources(doc, class, j + 1, s2, opens, closes, cur));
            }
        },
        XmlToken::End { name } => {
            if s.in_class && name == "message".spec_bytes() && s.current is Some {
                let m = s.current->Some_0;
                assert(s2.messages == s.messages.push(m));
                lemma_sourced_push(doc, class, j, s.messages, opens, closes, m, cur);
                assert(scan_sources(doc, class, j + 1, s2, opens.push(cur), closes.push(j), cur));
            } else {
                lemma_sourced_keep(doc, class, j, s.messages, opens, closes);
                assert(scan_sources(doc, class, j + 1, s2, opens, closes, cur));
            }
        },
        _ => {
            lemma_sourced_keep(doc, class, j, s.messages, opens, closes);
            assert(scan_sources(doc, class, j + 1, s2, opens, closes, cur));
        },
    }
}

proof fn lemma_scan_sources(doc: Seq<char>, class: Seq<char>, k: nat)
    ensures
        dict_scan(doc, class, k) matches Ok(s) ==> exists|opens: Seq<nat>, closes: Seq<nat>, cur: nat|
            #[trigger] scan_sources(doc, class, k, s, opens, closes, cur),
    decreases k,
{
    if k == 0 {
        let s = dict_scan(doc, class, 0)->Ok_0;
        assert(scan_sources(doc, class, 0, s, Seq::empty(), Seq::empty(), 0));
    } else {
        let j = (k - 1) as nat;
        lemma_scan_sources(doc, class, j);
        if dict_scan(doc, class, k) is Ok {
            let s = dict_scan(doc, class, j)->Ok_0;
            let (opens, closes, cur) = choose|opens: Seq<nat>, closes: Seq<nat>, cur: nat|
                #[trigger] scan_sources(doc, class, j, s, opens, closes, cur);
            lemma_scan_step_sources(doc, class, j, opens, closes, cur);
        }
    }
}

/// The messages of a parsed dictionary are the class's `message` tags, in
/// the order the document completes them: message `i` was declared by a
/// `message` tag read inside the class at read `opens[i]`, and completed
/// there (a self-closing tag) or by the end tag at read `closes[i]`; the
/// completions come in read order, and every message the document
/// completes inside the class is one of them.
pub proof fn dictionary_messages_in_document_order(doc: Seq<char>, class: Seq<char>, n: nat)
    requires
        dictionary_ends_at(doc, class, n),
        dictionary_outcome(doc, class, n) is Ok,
    ensures
        exists|opens: Seq<nat>, closes: Seq<nat>|
            #[trigger] messages_sourced(doc, class, n + 1, dictionary_outcome(doc, class, n)->Ok_0, opens, closes),
{
    lemma_scan_sources(doc, class, n + 1);
    let s = dict_scan(doc, class, n + 1)->Ok_0;
    let (opens, closes, cur) = choose|opens: Seq<nat>, closes: Seq<nat>, cur: nat|
        #[trigger] scan_sources(doc, class, n + 1, s, opens, closes, cur);
    assert(s.messages == dictionary_outcome(doc, class, n)->Ok_0);
    assert(messages_sourced(doc, class, n + 1, dictionary_outcome(doc, class, n)->Ok_0, opens, closes));
}

/// The view of the message being read, if any.
pub open spec fn current_view(current: Option<MessageDefinition>) -> Option<MessageView> {
    match current {
        Some(m) => Some(m@),
        None => None,
    }
}

/// Parses one named `<class>` from a Paparazzi message XML document.
///
/// The document is read event by event with `quick_xml`; the result is
/// `dictionary_outcome` at the read where the reader reports the end of the
/// document or an error. In the messages of a parsed dictionary, only the
/// last field is ever a variable-length array.
pub fn parse_dictionary(xml: &str, class_name: &str) -> (r: Result<MessageDictionary, DictionaryError>)
    ensures
        exists|n: nat|
            #[trigger] dictionary_ends_at(xml@, class_name@, n) && match dictionary_outcome(xml@, class_name@, n) {
                Ok(messages) => r matches Ok(d) && message_views(d@) == messages,
                Err(e) => r matches Err(err) && err@ == e,
            },
        r matches Ok(d) ==> forall|i: int| 0 <= i < d@.len() ==> arrays_only_last(#[trigger] d@[i]@.fields),
{
    let mut cursor = reader_from_str(xml);
    set_trim_text(&mut cursor);
    let mut buffer: Vec<u8> = Vec::new();
    let mut in_class = false;
    let mut found_class = false;
    let mut current: Option<MessageDefinition> = None;
    let mut messages: Vec<MessageDefinition> = Vec::new();
    assert(message_views(messages@) == Seq::<MessageView>::empty());
    loop
        invariant
            cursor@.doc == xml@,
            cursor@.trim,
            cursor@.offset <= cursor@.limit,
            forall|k: nat| k < cursor@.reads ==> (#[trigger] xml_event(xml@, true, k) matches Ok(t) && !(t is Eof)),
            dict_scan(xml@, class_name@, cursor@.reads) == Ok::<DictScan, DictionaryErrorView>(DictScan {
                in_class,
                found: found_class,
                current: current_view(current),
                messages: message_views(messages@),
            }),
            forall|i: int| 0 <= i < messages@.len() ==> arrays_only_last(#[trigger] messages@[i]@.fields),
        decreases cursor@.limit - cursor@.offset,
    {
        let ghost k = cursor@.reads;
        let ghost before = DictScan {
            in_class,
            found: found_class,
            current: current_view(current),
            messages: message_views(messages@),
        };
        let event = match read_event(&mut cursor, &mut buffer) {
            Ok(event) => event,
            Err(msg) => {
                assert(dictionary_ends_at(xml@, class_name@, k));
                return Err(DictionaryError::Xml(msg));
            },
        };
        let ghost token = event.token();
        assert(dict_scan(xml@, class_name@, k + 1) == dict_step(before, token, class_name@));
        match event {
            XmlEvent::Start(element) => {
                if bytes_eq(element.name(), "class".as_bytes()) {
                    let name = match attribute(&element, "name") {
                        Ok(v) => v,
                        Err(e) => {
                            assert(dictionary_ends_at(xml@, class_name@, k));
                            return Err(e);
                        },
                    };
                    in_class = match name {
                        Some(text) => str_eq(text.as_str(), class_name),
                        None => false,
                    };
                    found_class = found_class || in_class;
                } else if in_class && bytes_eq(element.name(), "message".as_bytes()) {
                    match parse_message(&element) {
                        Ok(m) => {
                            current = Some(m);
                        },
                        Err(e) => {
                            assert(dictionary_ends_at(xml@, class_name@, k));
                            return Err(e);
                        },
                    }
                }
            },
            XmlEvent::Empty(element) => {
                if in_class && bytes_eq(element.name(), "message".as_bytes()) {
                    match parse_message(&element) {
                        Ok(m) => {
                            let ghost old_messages = messages@;
                            messages.push(m);
                            assert(message_views(messages@) == message_views(old_messages).push(m@));
                        },
                        Err(e) => {
                            assert(dictionary_ends_at(xml@, class_name@, k));
                            return Err(e);
                        },
                    }
                } else if in_class && bytes_eq(element.name(), "field".as_bytes()) {
                    if current.is_some() {
                        let field = match parse_field(&element) {
                            Ok(f) => f,
                            Err(e) => {
                            assert(dictionary_ends_at(xml@, class_name@, k));
                            return Err(e);
                        },
                        };
                        current = match current {
                            Some(mut m) => {
                                let ghost old_fields = m.fields@;
                                m.fields.push(field);
                                assert(m.fields@.map_values(|f: FieldDefinition| f@) == old_fields.map_values(
                                    |f: FieldDefinition| f@,
                                ).push(field@));
                                Some(m)
                            },
                            None => None,
                        };
                    }
                }
            },
            XmlEvent::End(name) => {
                if in_class && bytes_eq(name.as_slice(), "message".as_bytes()) {
                    let taken = current;
                    current = None;
                    match taken {
                        Some(m) => {
                            match validate_message(&m) {
                                Ok(()) => {},
                                Err(e) => {
                            assert(dictionary_ends_at(xml@, class_name@, k));
                            return Err(e);
                        },
                            }
                            let ghost old_messages = messages@;
                            messages.push(m);
                            assert(message_views(messages@) == message_views(old_messages).push(m@));
                        },
                        None => {
                            current = taken;
                        },
                    }
                } else if bytes_eq(name.as_slice(), "class".as_bytes()) {
                    in_class = false;
                }
            },
            XmlEvent::Eof => {
                assert(dictionary_ends_at(xml@, class_name@, k));
                if !found_class {
                    return Err(DictionaryError::MissingClass(String::from_str(class_name)));
                }
                let dictionary = MessageDictionary { messages };
                return Ok(dictionary);
            },
            XmlEvent::Other => {},
        }
        buffer.clear();
    }
}


/// The layout of a payload never fails for want of a message definition.
pub proof fn lemma_layout_error_is_not_unknown(kinds: Seq<FieldKind>, payload: Seq<u8>)
    ensures
        field_layout(kinds, payload) matches Err(e) ==> !(e is UnknownMessage),
    decreases kinds.len(),
{
    if kinds.len() > 0 && !is_array(kinds[0]) && payload.len() >= kind_width(kinds[0]) {
        lemma_layout_error_is_not_unknown(kinds.drop_first(), payload.skip(kind_width(kinds[0]) as int));
    }
}

/// If some definition has identifier `id`, a first one does.
pub proof fn lemma_first_with_id_exists(messages: Seq<MessageDefinition>, id: u8, i: int)
    requires
        0 <= i < messages.len(),
        messages[i].id == id,
    ensures
        exists|j: int| is_first_with_id(messages, id, j),
    decreases i,
{
    if exists|j: int| 0 <= j < i && #[trigger] messages[j].id == id {
        let j = choose|j: int| 0 <= j < i && #[trigger] messages[j].id == id;
        lemma_first_with_id_exists(messages, id, j);
    } else {
        assert(is_first_with_id(messages, id, i));
    }
}

/// The total width of the scalar fields among `kinds`.
pub open spec fn scalar_width(kinds: Seq<FieldKind>) -> nat
    decreases kinds.len(),
{
    if kinds.len() == 0 {
        0
    } else {
        (if is_array(kinds[0]) { 0 } else { kind_width(kinds[0]) }) + scalar_width(kinds.drop_first())
    }
}

/// Whether a payload of `n` bytes fits fields of the given kinds: exactly
/// the scalars' total width, or, when the last field is an array, that
/// width and then a whole number of array elements.
pub open spec fn payload_fits(kinds: Seq<FieldKind>, n: nat) -> bool {
    let s = scalar_width(kinds);
    if kinds.len() > 0 && is_array(kinds.last()) {
        n >= s && (n - s) % (kind_width(kinds.last()) as int) == 0
    } else {
        n == s
    }
}

/// Whether every variable-length array among the kinds is the last one.
pub open spec fn kinds_arrays_only_last(kinds: Seq<FieldKind>) -> bool {
    forall|i: int| 0 <= i < kinds.len() - 1 ==> !is_array(#[trigger] kinds[i])
}

/// When only the last field may be an array, a payload splits among the
/// fields exactly when it fits them.
pub proof fn lemma_layout_fits(kinds: Seq<FieldKind>, payload: Seq<u8>)
    requires
        kinds_arrays_only_last(kinds),
    ensures
        field_layout(kinds, payload) is Ok <==> payload_fits(kinds, payload.len()),
    decreases kinds.len(),
{
    if kinds.len() > 0 {
        let k = kinds[0];
        let rest = kinds.drop_first();
        if is_array(k) {
            assert(kinds.len() == 1);
            assert(rest.len() == 0);
            assert(kinds.last() == k);
        } else {
            let w = kind_width(k);
            assert(kinds_arrays_only_last(rest)) by {
                assert forall|i: int| 0 <= i < rest.len() - 1 implies !is_array(#[trigger] rest[i]) by {
                    assert(rest[i] == kinds[i + 1]);
                }
            }
            if payload.len() >= w {
                lemma_layout_fits(rest, payload.skip(w as int));
            }
            if rest.len() > 0 {
                assert(kinds.last() == rest.last());
            }
        }
    }
}


/// A copy of a field definition.
fn copy_field(f: &FieldDefinition) -> (r: FieldDefinition)
    ensures
        r@ == f@,
{
    FieldDefinition { name: f.name.clone(), kind: f.kind }
}

/// A copy of a message definition.
fn copy_message(m: &MessageDefinition) -> (r: MessageDefinition)
    ensures
        r@ == m@,
{
    let mut fields: Vec<FieldDefinition> = Vec::new();
    let n = m.fields.len();
    let mut i: usize = 0;
    while i < n
        invariant
            n == m.fields@.len(),
            i <= n,
            fields@.len() == i,
            forall|j: int| 0 <= j < i ==> (#[trigger] fields@[j])@ == m.fields@[j]@,
        decreases n - i,
    {
        fields.push(copy_field(&m.fields[i]));
        i = i + 1;
    }
    let r = MessageDefinition { id: m.id, name: m.name.clone(), fields };
    assert(r@.fields == m@.fields);
    r
}

impl Clone for MessageDictionary {
    fn clone(&self) -> (r: Self)
        ensures
            message_views(r@) == message_views(self@),
    {
        proof {
            use_type_invariant(self);
        }
        let mut messages: Vec<MessageDefinition> = Vec::new();
        let n = self.messages.len();
        let mut i: usize = 0;
        while i < n
            invariant
                n == self.messages@.len(),
                i <= n,
                messages@.len() == i,
                forall|j: int| 0 <= j < i ==> (#[trigger] messages@[j])@ == self.messages@[j]@,
                forall|j: int| 0 <= j < n ==> arrays_only_last(#[trigger] self.messages@[j]@.fields),
            decreases n - i,
        {
            messages.push(copy_message(&self.messages[i]));
            i = i + 1;
        }
        assert forall|j: int| 0 <= j < messages@.len() implies arrays_only_last(#[trigger] messages@[j]@.fields) by {
            assert(messages@[j]@ == self.messages@[j]@);
        }
        let r = MessageDictionary { messages };
        assert(message_views(r@) == message_views(self@));
        r
    }
}

impl View for MessageDictionary {
    type V = Seq<MessageDefinition>;

    closed spec fn view(&self) -> Seq<MessageDefinition> {
        self.messages@
    }
}

impl MessageDictionary {
    /// In every definition of a dictionary, only the last field may be a
    /// variable-length array.
    #[verifier::type_invariant]
    spec fn well_formed(&self) -> bool {
        forall|i: int| 0 <= i < self.messages@.len() ==> arrays_only_last(#[trigger] self.messages@[i]@.fields)
    }

    /// Finds a definition by the PPRZ transport message identifier: the first
    /// one with that identifier.
    pub fn message(&self, id: u8) -> (r: Option<&MessageDefinition>)
        ensures
            match r {
                Some(d) => exists|i: int| is_first_with_id(self@, id, i) && self@[i] == *d,
                None => forall|i: int| 0 <= i < self@.len() ==> #[trigger] self@[i].id != id,
            },
    {
        let n = self.messages.len();
        let mut i: usize = 0;
        while i < n
            invariant
                n == self@.len(),
                i <= n,
                forall|j: int| 0 <= j < i ==> #[trigger] self@[j].id != id,
            decreases n - i,
        {
            if self.messages[i].id == id {
                assert(is_first_with_id(self@, id, i as int));
                return Some(&self.messages[i]);
            }
            i = i + 1;
        }
        None
    }

    /// Returns every parsed message definition in XML order.
    pub fn messages(&self) -> (r: &[MessageDefinition])
        ensures
            r@ == self@,
            forall|i: int| 0 <= i < r@.len() ==> arrays_only_last(#[trigger] r@[i]@.fields),
    {
        proof {
            use_type_invariant(self);
        }
        self.messages.as_slice()
    }
}


impl MessageDictionary {
    /// Decodes one frame using this dictionary.
    ///
    /// Numeric values use Paparazzi's little-endian wire representation.
    /// Variable-length array fields consume the remaining payload and must be
    /// the final field in a message definition.
    ///
    /// Fails with `UnknownMessage` when no definition has the frame's
    /// message identifier, and otherwise with the error of `field_layout`
    /// for the first such definition.
    pub fn decode(&self, frame: &Frame) -> (r: Result<DecodedMessage, DecodeError>)
        ensures
            (forall|i: int| 0 <= i < self@.len() ==> #[trigger] self@[i].id != frame.message_id)
                ==> r == Err::<DecodedMessage, DecodeError>(DecodeError::UnknownMessage(frame.message_id)),
            forall|i: int|
                #[trigger] is_first_with_id(self@, frame.message_id, i) ==> match field_layout(
                    field_kinds(self@[i].fields@),
                    frame.payload@,
                ) {
                    Ok(slices) => r matches Ok(m) && decoded_from(m, self@[i], *frame, slices),
                    Err(e) => r == Err::<DecodedMessage, DecodeError>(e),
                },
            forall|i: int|
                #[trigger] is_first_with_id(self@, frame.message_id, i) ==> (r is Ok <==> payload_fits(
                    field_kinds(self@[i].fields@),
                    frame.payload@.len(),
                )),
    {
        proof {
            use_type_invariant(self);
        }
        let definition = match self.message(frame.message_id) {
            Some(d) => d,
            None => return Err(DecodeError::UnknownMessage(frame.message_id)),
        };
        let ghost first = choose|i: int| is_first_with_id(self@, frame.message_id, i) && self@[i] == *definition;
        assert forall|i: int| #[trigger] is_first_with_id(self@, frame.message_id, i) implies i == first by {
            if i < first {
                assert(self@[i].id != frame.message_id);
            } else if first < i {
                assert(self@[first].id != frame.message_id);
            }
        }
        assert(self@[first].id == frame.message_id);
        proof {
            let kinds = field_kinds(self@[first].fields@);
            assert(arrays_only_last(self@[first]@.fields));
            assert forall|i: int| 0 <= i < kinds.len() - 1 implies !is_array(#[trigger] kinds[i]) by {
                assert(self@[first]@.fields[i].kind == kinds[i]);
            }
            lemma_layout_fits(kinds, frame.payload@);
        }
        let payload = frame.payload.as_slice();
        let n = definition.fields.len();
        let ghost kinds = field_kinds(definition.fields@);
        let mut fields: Vec<DecodedField> = Vec::new();
        let ghost mut slices: Seq<Seq<u8>> = Seq::empty();
        let mut pos: usize = 0;
        let mut index: usize = 0;
        assert(kinds.skip(0) == kinds);
        assert(payload@.skip(0) == payload@);
        proof {
            match field_layout(kinds, payload@) {
                Ok(all) => {
                    assert(Seq::<Seq<u8>>::empty() + all == all);
                },
                Err(_) => {},
            }
        }
        while index < n
            invariant
                is_first_with_id(self@, frame.message_id, first),
                self@[first] == *definition,
                forall|i: int| #[trigger] is_first_with_id(self@, frame.message_id, i) ==> i == first,
                n == definition.fields@.len(),
                kinds == field_kinds(definition.fields@),
                payload@ == frame.payload@,
                field_layout(kinds, payload@) is Ok <==> payload_fits(kinds, payload@.len()),
                index <= n,
                pos <= payload@.len(),
                fields@.len() == index,
                slices.len() == index,
                field_layout(kinds, payload@) == prepend_slices(slices, field_layout(kinds.skip(index as int), payload@.skip(pos as int))),
                forall|j: int|
                    0 <= j < index ==> (#[trigger] fields@[j]).name@ == definition.fields@[j].name@ && decodes_to(
                        definition.fields@[j].kind,
                        slices[j],
                        fields@[j].value,
                    ),
            decreases n - index,
        {
            let field = &definition.fields[index];
            let remaining_fields = n - index - 1;
            let ghost rest = payload@.skip(pos as int);
            let ghost tail_kinds = kinds.skip(index as int);
            assert(tail_kinds[0] == field.kind);
            proof {
                lemma_layout_step(tail_kinds, rest);
            }
            let (value, next) = match decode_value(field.kind, payload, pos, remaining_fields == 0) {
                Ok(decoded) => decoded,
                Err(e) => return Err(e),
            };
            let ghost c = (next - pos) as nat;
            assert(slices + seq![rest.take(c as int)] == slices.push(rest.take(c as int)));
            assert(tail_kinds.drop_first() == kinds.skip(index as int + 1));
            assert(rest.skip(c as int) == payload@.skip(next as int));
            proof {
                lemma_prepend_assoc(slices, seq![rest.take(c as int)], field_layout(kinds.skip(index as int + 1), payload@.skip(next as int)));
            }
            fields.push(DecodedField { name: field.name.clone(), value });
            proof {
                slices = slices.push(rest.take(c as int));
            }
            pos = next;
            index = index + 1;
        }
        assert(kinds.skip(n as int).len() == 0);
        if pos < payload.len() {
            return Err(DecodeError::TrailingBytes(payload.len() - pos));
        }
        assert(payload@.skip(pos as int).len() == 0);
        assert(slices + Seq::<Seq<u8>>::empty() == slices);
        Ok(DecodedMessage {
            aircraft_id: frame.aircraft_id,
            id: definition.id,
            name: definition.name.clone(),
            fields,
        })
    }
}

/// Takes `count` bytes from `payload[pos..]`: the position after them, or
/// the error when fewer remain.
fn take(payload: &[u8], pos: usize, count: usize) -> (r: Result<usize, DecodeError>)
    requires
        pos <= payload@.len(),
    ensures
        if payload@.len() - pos < count {
            r == Err::<usize, DecodeError>(DecodeError::PayloadTooShort { needed: count, available: (payload@.len() - pos) as usize })
        } else {
            r matches Ok(next) && next == pos + count
        },
{
    let available = payload.len() - pos;
    if available < count {
        return Err(DecodeError::PayloadTooShort { needed: count, available });
    }
    Ok(pos + count)
}

/// Takes the rest of the payload as an array of `width`-byte elements: the
/// end of the payload, or the error when the array is not the last field or
/// the rest is not a whole number of elements.
fn take_array(payload: &[u8], pos: usize, width: usize, is_last: bool) -> (r: Result<usize, DecodeError>)
    requires
        pos <= payload@.len(),
        width > 0,
    ensures
        if !is_last {
            r == Err::<usize, DecodeError>(DecodeError::TrailingBytes((payload@.len() - pos) as usize))
        } else if (payload@.len() - pos) % (width as int) != 0 {
            r == Err::<usize, DecodeError>(DecodeError::MisalignedArray { element_width: width, available: (payload@.len() - pos) as usize })
        } else {
            r matches Ok(end) && end == payload@.len()
        },
{
    let available = payload.len() - pos;
    if !is_last {
        return Err(DecodeError::TrailingBytes(available));
    }
    if available % width != 0 {
        return Err(DecodeError::MisalignedArray { element_width: width, available });
    }
    Ok(payload.len())
}

fn read_le16(payload: &[u8], at: usize) -> (v: u16)
    requires
        at + 1 < payload@.len(),
    ensures
        v == le16(payload@[at as int], payload@[at + 1]),
{
    payload[at] as u16 + 256 * (payload[at + 1] as u16)
}

fn to_signed16(v: u16) -> (r: i16)
    ensures
        r == signed16(v),
{
    if v < 32768 {
        v as i16
    } else {
        (v as i32 - 65536) as i16
    }
}

/// Decodes one field of kind `kind` from `payload[pos..]`: its value and the
/// position after it.
fn decode_value(kind: FieldKind, payload: &[u8], pos: usize, is_last: bool) -> (r: Result<(FieldValue, usize), DecodeError>)
    requires
        pos <= payload@.len(),
    ensures
        match field_step(kind, payload@.skip(pos as int), is_last) {
            Ok(c) => r matches Ok((v, next)) && next == pos + c && decodes_to(kind, payload@.skip(pos as int).take(c as int), v),
            Err(e) => r == Err::<(FieldValue, usize), DecodeError>(e),
        },
{
    let ghost rest = payload@.skip(pos as int);
    match kind {
        FieldKind::U8 => {
            let next = match take(payload, pos, 1) {
                Ok(p) => p,
                Err(e) => return Err(e),
            };
            assert(rest.take(1) == payload@.subrange(pos as int, pos + 1));
            assert(rest.take(1)[0] == payload@[pos as int]);
            Ok((FieldValue::U8(payload[pos]), next))
        },
        FieldKind::I8 => {
            let next = match take(payload, pos, 1) {
                Ok(p) => p,
                Err(e) => return Err(e),
            };
            assert(rest.take(1) == payload@.subrange(pos as int, pos + 1));
            assert(rest.take(1)[0] == payload@[pos as int]);
            let b = payload[pos];
            let v: i8 = if b < 128 { b as i8 } else { (b as i16 - 256) as i8 };
            Ok((FieldValue::I8(v), next))
        },
        FieldKind::U16 => {
            let next = match take(payload, pos, 2) {
                Ok(p) => p,
                Err(e) => return Err(e),
            };
            assert(rest.take(2) == payload@.subrange(pos as int, pos + 2));
            assert(rest.take(2)[0] == payload@[pos as int]);
            assert(rest.take(2)[1] == payload@[pos + 1]);
            Ok((FieldValue::U16(read_le16(payload, pos)), next))
        },
        FieldKind::I16 => {
            let next = match take(payload, pos, 2) {
                Ok(p) => p,
                Err(e) => return Err(e),
            };
            assert(rest.take(2) == payload@.subrange(pos as int, pos + 2));
            assert(rest.take(2)[0] == payload@[pos as int]);
            assert(rest.take(2)[1] == payload@[pos + 1]);
            Ok((FieldValue::I16(to_signed16(read_le16(payload, pos))), next))
        },
        FieldKind::U32 => {
            let next = match take(payload, pos, 4) {
                Ok(p) => p,
                Err(e) => return Err(e),
            };
            assert(rest.take(4) == payload@.subrange(pos as int, pos + 4));
            assert(rest.take(4)[0] == payload@[pos as int]);
            assert(rest.take(4)[1] == payload@[pos + 1]);
            Ok((FieldValue::U32(read_le32(payload, pos)), next))
        },
        FieldKind::I32 => {
            let next = match take(payload, pos, 4) {
                Ok(p) => p,
                Err(e) => return Err(e),
            };
            assert(rest.take(4) == payload@.subrange(pos as int, pos + 4));
            assert(rest.take(4)[0] == payload@[pos as int]);
            assert(rest.take(4)[1] == payload@[pos + 1]);
            let w = read_le32(payload, pos);
            let v: i32 = if w < 2147483648 { w as i32 } else { (w as i64 - 4294967296) as i32 };
            Ok((FieldValue::I32(v), next))
        },
        FieldKind::F32 => {
            let next = match take(payload, pos, 4) {
                Ok(p) => p,
                Err(e) => return Err(e),
            };
            assert(rest.take(4) == payload@.subrange(pos as int, pos + 4));
            assert(rest.take(4)[0] == payload@[pos as int]);
            assert(rest.take(4)[1] == payload@[pos + 1]);
            Ok((FieldValue::F32(read_le32(payload, pos)), next))
        },
        FieldKind::U8Array => {
            assert((payload@.len() - pos) % 1int == 0) by (nonlinear_arith);
            let end = match take_array(payload, pos, 1, is_last) {
                Ok(p) => p,
                Err(e) => return Err(e),
            };
            let mut xs: Vec<u8> = Vec::new();
            let mut i: usize = pos;
            while i < end
                invariant
                    end == payload@.len(),
                    pos <= i <= end,
                    xs@ == payload@.subrange(pos as int, i as int),
                decreases end - i,
            {
                xs.push(payload[i]);
                i = i + 1;
                assert(xs@ == payload@.subrange(pos as int, i as int));
            }
            assert(rest.take(rest.len() as int) == payload@.subrange(pos as int, end as int));
            Ok((FieldValue::U8Array(xs), end))
        },
        FieldKind::I16Array => {
            let end = match take_array(payload, pos, 2, is_last) {
                Ok(p) => p,
                Err(e) => return Err(e),
            };
            let ghost words = le16_words(rest);
            let mut xs: Vec<i16> = Vec::new();
            let mut i: usize = pos;
            while i < end
                invariant
                    end == payload@.len(),
                    pos <= i <= end,
                    (end - i) % 2 == 0,
                    (i - pos) % 2 == 0,
                    rest == payload@.skip(pos as int),
                    words == le16_words(rest),
                    xs@.len() == (i - pos) / 2,
                    forall|k: int| 0 <= k < xs@.len() ==> #[trigger] xs@[k] == signed16(words[k]),
                decreases end - i,
            {
                let k = (i - pos) / 2;
                assert(rest[2 * k] == payload@[i as int] && rest[2 * k + 1] == payload@[i + 1]);
                xs.push(to_signed16(read_le16(payload, i)));
                i = i + 2;
            }
            assert(rest.take(rest.len() as int) == rest);
            assert(xs@ == words.map_values(|w: u16| signed16(w)));
            Ok((FieldValue::I16Array(xs), end))
        },
        FieldKind::U16Array => {
            let end = match take_array(payload, pos, 2, is_last) {
                Ok(p) => p,
                Err(e) => return Err(e),
            };
            let ghost words = le16_words(rest);
            let mut xs: Vec<u16> = Vec::new();
            let mut i: usize = pos;
            while i < end
                invariant
                    end == payload@.len(),
                    pos <= i <= end,
                    (end - i) % 2 == 0,
                    (i - pos) % 2 == 0,
                    rest == payload@.skip(pos as int),
                    words == le16_words(rest),
                    xs@.len() == (i - pos) / 2,
                    forall|k: int| 0 <= k < xs@.len() ==> #[trigger] xs@[k] == words[k],
                decreases end - i,
            {
                let k = (i - pos) / 2;
                assert(rest[2 * k] == payload@[i as int] && rest[2 * k + 1] == payload@[i + 1]);
                xs.push(read_le16(payload, i));
                i = i + 2;
            }
            assert(rest.take(rest.len() as int) == rest);
            assert(xs@ == words);
            Ok((FieldValue::U16Array(xs), end))
        },
    }
}

fn read_le32(payload: &[u8], at: usize) -> (v: u32)
    requires
        at + 3 < payload@.len(),
    ensures
        v == le32(payload@.subrange(at as int, at + 4)),
{
    payload[at] as u32 + 256 * (payload[at + 1] as u32) + 65536 * (payload[at + 2] as u32) + 16777216 * (payload[at + 3] as u32)
}

} // verus!
