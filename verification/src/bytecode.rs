use bendy::decoding::Error as DecodingError;
use bendy::decoding::Tokens;
use bendy::encoding::Encoder;
use bendy::encoding::Error as EncodingError;
use bendy::state_tracker::Token;
use crate::object_pool::empty_marker;
use crate::types::{
    Albedo, BrickData, BrickModel, ContentModel, NodeChildren, NodeChildrenArray, NodeContent,
};
use vstd::prelude::*;

verus! {

/// bendy's encoder, a buffer of the bytes written so far
#[verifier::external_type_specification]
#[verifier::external_body]
pub struct ExEncoder(bendy::encoding::Encoder);

/// The error bendy's encoder reports
#[verifier::external_type_specification]
#[verifier::external_body]
pub struct ExEncodingError(EncodingError);

/// The error bendy's decoder reports
#[verifier::external_type_specification]
#[verifier::external_body]
pub struct ExDecodingError(DecodingError);

/// The stream of tokens bendy's decoder reads
#[verifier::external_type_specification]
#[verifier::external_body]
pub struct ExTokens<'a>(Tokens<'a>);

/// One token bendy's decoder reads
#[verifier::external_type_specification]
#[verifier::external_body]
pub struct ExToken<'a>(Token<'a>);

/// Errors of turning values into bencode and back
#[derive(Debug, Clone, Copy, PartialEq, Eq, Structural)]
pub enum BytecodeError {
    /// The encoder refused to write the value
    Encoding,
    /// The bytes are no valid bencode
    Decoding,
    /// The bencode does not describe a value of the expected type
    UnexpectedContent,
}

/// A bencoded value: a non-negative integer, a byte string, or a list of values
#[derive(Debug, PartialEq)]
pub enum BencodeValue {
    Int(u64),
    Bytes(Vec<u8>),
    List(Vec<BencodeValue>),
}

/// The mathematical form of a bencoded value
pub enum ValueModel {
    Int(u64),
    Bytes(Seq<u8>),
    List(Seq<ValueModel>),
}

/// One token of a bencoded stream, as the decoder reads it
#[derive(Debug, PartialEq)]
pub enum RawToken {
    /// The beginning of a list
    List,
    /// The beginning of a dictionary
    Dict,
    /// The text of a number
    Num(Vec<u8>),
    /// A byte string
    Bytes(Vec<u8>),
    /// The end of a list or dictionary
    End,
}

/// The mathematical form of a token
pub enum TokenModel {
    List,
    Dict,
    Num(Seq<u8>),
    Bytes(Seq<u8>),
    End,
}

impl View for RawToken {
    type V = TokenModel;

    open spec fn view(&self) -> TokenModel {
        match *self {
            RawToken::List => TokenModel::List,
            RawToken::Dict => TokenModel::Dict,
            RawToken::Num(text) => TokenModel::Num(text@),
            RawToken::Bytes(bytes) => TokenModel::Bytes(bytes@),
            RawToken::End => TokenModel::End,
        }
    }
}

/// The mathematical form of a value
pub open spec fn value_model(v: BencodeValue) -> ValueModel
    decreases v,
{
    match v {
        BencodeValue::Int(n) => ValueModel::Int(n),
        BencodeValue::Bytes(b) => ValueModel::Bytes(b@),
        BencodeValue::List(items) => ValueModel::List(values_model(items@)),
    }
}

/// The mathematical forms of values, one by one
pub open spec fn values_model(items: Seq<BencodeValue>) -> Seq<ValueModel>
    decreases items,
{
    if items.len() == 0 {
        Seq::empty()
    } else {
        seq![value_model(items[0])] + values_model(items.subrange(1, items.len() as int))
    }
}

impl View for BencodeValue {
    type V = ValueModel;

    open spec fn view(&self) -> ValueModel {
        value_model(*self)
    }
}

/// The decimal digits of a natural number, most significant first
pub open spec fn digits(n: nat) -> Seq<u8>
    decreases n,
{
    if n < 10 {
        seq![(n + 48) as u8]
    } else {
        digits(n / 10).push((n % 10 + 48) as u8)
    }
}

/// The bencoding of a value
pub open spec fn value_bytes(v: ValueModel) -> Seq<u8>
    decreases v,
{
    match v {
        ValueModel::Int(n) => seq![105u8] + digits(n as nat) + seq![101u8],
        ValueModel::Bytes(b) => digits(b.len()) + seq![58u8] + b,
        ValueModel::List(items) => seq![108u8] + values_bytes(items) + seq![101u8],
    }
}

/// The bencodings of values, one after the other
pub open spec fn values_bytes(items: Seq<ValueModel>) -> Seq<u8>
    decreases items,
{
    if items.len() == 0 {
        Seq::empty()
    } else {
        value_bytes(items[0]) + values_bytes(items.subrange(1, items.len() as int))
    }
}

/// The tokens of a value
pub open spec fn value_tokens(v: ValueModel) -> Seq<TokenModel>
    decreases v,
{
    match v {
        ValueModel::Int(n) => seq![TokenModel::Num(digits(n as nat))],
        ValueModel::Bytes(b) => seq![TokenModel::Bytes(b)],
        ValueModel::List(items) => seq![TokenModel::List] + values_tokens(items) + seq![
            TokenModel::End,
        ],
    }
}

/// The tokens of values, one after the other
pub open spec fn values_tokens(items: Seq<ValueModel>) -> Seq<TokenModel>
    decreases items,
{
    if items.len() == 0 {
        Seq::empty()
    } else {
        value_tokens(items[0]) + values_tokens(items.subrange(1, items.len() as int))
    }
}

/// How deeply lists nest in a value
pub open spec fn value_depth(v: ValueModel) -> nat
    decreases v,
{
    match v {
        ValueModel::List(items) => 1 + values_depth(items),
        _ => 0,
    }
}

/// How deeply lists nest in the deepest of the values
pub open spec fn values_depth(items: Seq<ValueModel>) -> nat
    decreases items,
{
    if items.len() == 0 {
        0
    } else {
        let first = value_depth(items[0]);
        let rest = values_depth(items.subrange(1, items.len() as int));
        if first > rest {
            first
        } else {
            rest
        }
    }
}

/// Appending a value to a sequence of values appends its bencoding
pub proof fn lemma_values_bytes_push(items: Seq<ValueModel>, item: ValueModel)
    ensures
        values_bytes(items.push(item)) == values_bytes(items) + value_bytes(item),
    decreases items.len(),
{
    let pushed = items.push(item);
    if items.len() == 0 {
        assert(pushed.subrange(1, 1) =~= Seq::<ValueModel>::empty());
        assert(values_bytes(Seq::<ValueModel>::empty()) =~= Seq::<u8>::empty());
        assert(pushed[0] == item);
        assert(values_bytes(pushed) =~= value_bytes(item));
        assert(values_bytes(items) =~= Seq::<u8>::empty());
    } else {
        let rest = items.subrange(1, items.len() as int);
        assert(pushed.subrange(1, pushed.len() as int) =~= rest.push(item));
        assert(pushed[0] == items[0]);
        lemma_values_bytes_push(rest, item);
        assert(values_bytes(pushed) =~= value_bytes(items[0]) + values_bytes(rest.push(item)));
        assert(values_bytes(pushed) =~= values_bytes(items) + value_bytes(item));
    }
}

/// The models of a prefix of values are the prefix of their models
pub proof fn lemma_values_model_index(items: Seq<BencodeValue>)
    ensures
        values_model(items).len() == items.len(),
        forall|i: int| 0 <= i < items.len() ==> #[trigger] values_model(items)[i] == value_model(items[i]),
    decreases items.len(),
{
    if items.len() > 0 {
        let rest = items.subrange(1, items.len() as int);
        lemma_values_model_index(rest);
        assert forall|i: int| 0 <= i < items.len() implies #[trigger] values_model(items)[i]
            == value_model(items[i]) by {
            if i > 0 {
                assert(rest[i - 1] == items[i]);
            }
        }
    }
}

/// The bytes an encoder has written so far
pub uninterp spec fn encoder_output(encoder: Encoder) -> Seq<u8>;

/// The number of lists an encoder has opened and not yet closed, when it has no failure
/// latched and every container it has open is a list; `None` otherwise. An encoder made by
/// `Encoder::new` refuses to open a list while 2048 are open.
pub uninterp spec fn encoder_open_lists(encoder: Encoder) -> Option<nat>;

/// Creates an empty encoder (`bendy::encoding::Encoder::new`); it has written nothing yet, has
/// no list open and no failure latched
#[verifier::external_body]
fn new_encoder() -> (encoder: Encoder)
    ensures
        encoder_output(encoder) == Seq::<u8>::empty(),
        encoder_open_lists(encoder) == Some(0nat),
{
    Encoder::new()
}

/// Writes an integer (`Encoder::emit_int`); on success the encoder has appended `i`, the
/// decimal digits of the integer and `e`. Inside lists only, and with no failure latched, it
/// succeeds and leaves the open lists as they were.
#[verifier::external_body]
fn emit_integer(encoder: &mut Encoder, value: u64) -> (result: Result<(), EncodingError>)
    ensures
        result is Ok ==> encoder_output(*final(encoder)) == encoder_output(*old(encoder))
            + value_bytes(ValueModel::Int(value)),
        encoder_open_lists(*old(encoder)) is Some ==> result is Ok && encoder_open_lists(
            *final(encoder),
        ) == encoder_open_lists(*old(encoder)),
{
    encoder.emit_int(value)
}

/// Writes a byte string (`Encoder::emit_bytes`); on success the encoder has appended the
/// decimal digits of its length, `:` and the bytes. Inside lists only, and with no failure
/// latched, it succeeds and leaves the open lists as they were.
#[verifier::external_body]
fn emit_byte_string(encoder: &mut Encoder, value: &[u8]) -> (result: Result<(), EncodingError>)
    ensures
        result is Ok ==> encoder_output(*final(encoder)) == encoder_output(*old(encoder))
            + value_bytes(ValueModel::Bytes(value@)),
        encoder_open_lists(*old(encoder)) is Some ==> result is Ok && encoder_open_lists(
            *final(encoder),
        ) == encoder_open_lists(*old(encoder)),
{
    encoder.emit_bytes(value)
}

/// Writes a list (`Encoder::emit_list`) whose items [`emit_values`] writes; on success the
/// encoder has appended `l`, what [`emit_values`] wrote and `e`. Inside lists only, with no
/// failure latched, and when the new list and the lists inside its items stay within the
/// encoder's limit of 2048 open lists, it succeeds and leaves the open lists as they were:
/// the list opens below the limit, [`emit_values`] then succeeds one list deeper and leaves
/// it open, and closing it succeeds.
#[verifier::external_body]
fn emit_list(encoder: &mut Encoder, items: &Vec<BencodeValue>) -> (result: Result<
    (),
    EncodingError,
>)
    ensures
        result is Ok ==> encoder_output(*final(encoder)) == encoder_output(*old(encoder))
            + value_bytes(ValueModel::List(values_model(items@))),
        encoder_open_lists(*old(encoder)) matches Some(d) ==> (d + 1 + values_depth(
            values_model(items@),
        ) <= 2048 ==> (result is Ok && encoder_open_lists(*final(encoder)) == Some(d))),
{
    encoder.emit_list(|e| emit_values(e, items))
}

/// Gives the bytes the encoder wrote (`Encoder::get_output`); with no list open and no
/// failure latched, it succeeds
#[verifier::external_body]
fn encoder_bytes(encoder: Encoder) -> (result: Result<Vec<u8>, EncodingError>)
    ensures
        result matches Ok(bytes) ==> bytes@ == encoder_output(encoder),
        encoder_open_lists(encoder) == Some(0nat) ==> result is Ok,
{
    encoder.get_output()
}

/// No value of a sequence nests lists deeper than the sequence
proof fn lemma_value_depth_within(items: Seq<ValueModel>, i: int)
    requires
        0 <= i < items.len(),
    ensures
        value_depth(items[i]) <= values_depth(items),
    decreases items.len(),
{
    if i > 0 {
        let rest = items.subrange(1, items.len() as int);
        assert(rest[i - 1] == items[i]);
        lemma_value_depth_within(rest, i - 1);
    }
}

/// Writes a value with the encoder; inside lists only, with no failure latched, and when its
/// lists stay within the encoder's limit, it succeeds
fn emit_value(encoder: &mut Encoder, value: &BencodeValue) -> (result: Result<
    (),
    EncodingError,
>)
    ensures
        result is Ok ==> encoder_output(*final(encoder)) == encoder_output(*old(encoder))
            + value_bytes(value@),
        encoder_open_lists(*old(encoder)) matches Some(d) ==> (d + value_depth(value@) <= 2048
            ==> (result is Ok && encoder_open_lists(*final(encoder)) == Some(d))),
{
    match value {
        BencodeValue::Int(n) => emit_integer(encoder, *n),
        BencodeValue::Bytes(b) => emit_byte_string(encoder, b.as_slice()),
        BencodeValue::List(items) => emit_list(encoder, items),
    }
}

/// Writes the values one after the other with the encoder; inside lists only, with no failure
/// latched, and when their lists stay within the encoder's limit, it succeeds
fn emit_values(encoder: &mut Encoder, items: &Vec<BencodeValue>) -> (result: Result<
    (),
    EncodingError,
>)
    ensures
        result is Ok ==> encoder_output(*final(encoder)) == encoder_output(*old(encoder))
            + values_bytes(values_model(items@)),
        encoder_open_lists(*old(encoder)) matches Some(d) ==> (d + values_depth(
            values_model(items@),
        ) <= 2048 ==> (result is Ok && encoder_open_lists(*final(encoder)) == Some(d))),
{
    proof {
        lemma_values_model_index(items@);
    }
    let ghost start = encoder_output(*encoder);
    let ghost open = encoder_open_lists(*encoder);
    let ghost fits = match open {
        Some(d) => d + values_depth(values_model(items@)) <= 2048,
        None => false,
    };
    let mut i: usize = 0;
    while i < items.len()
        invariant
            i <= items@.len(),
            values_model(items@).len() == items@.len(),
            forall|j: int| 0 <= j < items@.len() ==> #[trigger] values_model(items@)[j] == value_model(items@[j]),
            encoder_output(*encoder) == start + values_bytes(values_model(items@).subrange(0, i as int)),
            open == encoder_open_lists(*old(encoder)),
            fits == match open {
                Some(d) => d + values_depth(values_model(items@)) <= 2048,
                None => false,
            },
            fits ==> encoder_open_lists(*encoder) == open,
        decreases items@.len() - i,
    {
        proof {
            lemma_value_depth_within(values_model(items@), i as int);
        }
        let emitted = emit_value(encoder, &items[i]);
        if emitted.is_err() {
            return emitted;
        }
        proof {
            let models = values_model(items@);
            assert(models.subrange(0, i + 1) =~= models.subrange(0, i as int).push(models[i as int]));
            lemma_values_bytes_push(models.subrange(0, i as int), models[i as int]);
        }
        i = i + 1;
    }
    assert(values_model(items@).subrange(0, i as int) =~= values_model(items@));
    Ok(())
}

/// Bencodes the value
pub fn encode_value(value: &BencodeValue) -> (result: Result<Vec<u8>, BytecodeError>)
    ensures
        result matches Ok(bytes) ==> bytes@ == value_bytes(value@),
        result matches Err(e) ==> e == BytecodeError::Encoding,
        value_depth(value@) <= 2048 ==> result is Ok,
{
    let mut encoder = new_encoder();
    if emit_value(&mut encoder, value).is_err() {
        return Err(BytecodeError::Encoding);
    }
    match encoder_bytes(encoder) {
        Ok(bytes) => Ok(bytes),
        Err(_) => Err(BytecodeError::Encoding),
    }
}

/// The number a text of decimal digits stands for
pub open spec fn decimal_value(text: Seq<u8>) -> int
    decreases text.len(),
{
    if text.len() == 0 {
        0
    } else {
        decimal_value(text.drop_last()) * 10 + (text.last() - 48)
    }
}

/// A text of decimal digits without leading zeros
pub open spec fn canonical_decimal(text: Seq<u8>) -> bool {
    &&& text.len() > 0
    &&& forall|i: int| 0 <= i < text.len() ==> 48 <= #[trigger] text[i] <= 57
    &&& text[0] == 48 ==> text.len() == 1
}

/// The digits of a number are a canonical text standing for the number
pub proof fn lemma_digits_canonical(n: nat)
    ensures
        canonical_decimal(digits(n)),
        decimal_value(digits(n)) == n,
        digits(n).len() >= 1,
    decreases n,
{
    reveal_with_fuel(decimal_value, 2);
    if n >= 10 {
        lemma_digits_canonical(n / 10);
        let d = digits(n);
        assert(d.drop_last() =~= digits(n / 10));
        assert(digits(n / 10)[0] != 48) by {
            if digits(n / 10)[0] == 48 {
                assert(digits(n / 10).len() == 1);
                assert(decimal_value(digits(n / 10)) == 0) by {
                    assert(digits(n / 10).drop_last() =~= Seq::<u8>::empty());
                }
            }
        }
        assert(d[0] == digits(n / 10)[0]);
    } else {
        assert(digits(n).drop_last() =~= Seq::<u8>::empty());
    }
}

/// The value of a digit text is at least the value of its first digit
proof fn lemma_decimal_at_least_first(text: Seq<u8>)
    requires
        text.len() >= 1,
        forall|i: int| 0 <= i < text.len() ==> 48 <= #[trigger] text[i] <= 57,
    ensures
        decimal_value(text) >= text[0] - 48,
        decimal_value(text) >= 0,
    decreases text.len(),
{
    reveal_with_fuel(decimal_value, 2);
    if text.len() > 1 {
        let rest = text.drop_last();
        assert forall|i: int| 0 <= i < rest.len() implies 48 <= #[trigger] rest[i] <= 57 by {
            assert(rest[i] == text[i]);
        }
        assert(rest[0] == text[0]);
        lemma_decimal_at_least_first(rest);
    } else {
        assert(text.drop_last() =~= Seq::<u8>::empty());
    }
}

/// A canonical text is the digits of the number it stands for
pub proof fn lemma_canonical_digits(text: Seq<u8>)
    requires
        canonical_decimal(text),
    ensures
        decimal_value(text) >= 0,
        digits(decimal_value(text) as nat) == text,
    decreases text.len(),
{
    reveal_with_fuel(decimal_value, 2);
    lemma_decimal_at_least_first(text);
    if text.len() == 1 {
        assert(text.drop_last() =~= Seq::<u8>::empty());
        assert(digits(decimal_value(text) as nat) =~= text);
    } else {
        let rest = text.drop_last();
        assert forall|i: int| 0 <= i < rest.len() implies 48 <= #[trigger] rest[i] <= 57 by {
            assert(rest[i] == text[i]);
        }
        assert(rest[0] == text[0]);
        lemma_canonical_digits(rest);
        lemma_decimal_at_least_first(rest);
        let v = decimal_value(text);
        assert(v / 10 == decimal_value(rest));
        assert(v % 10 == text.last() - 48);
        assert(digits(v as nat) =~= digits(decimal_value(rest) as nat).push(text.last()));
    }
}

/// Reads a canonical decimal text that fits in 64 bits
fn parse_decimal(text: &Vec<u8>) -> (result: Option<u64>)
    ensures
        result == if canonical_decimal(text@) && decimal_value(text@) <= u64::MAX {
            Some(decimal_value(text@) as u64)
        } else {
            None::<u64>
        },
{
    if text.len() == 0 || (text[0] == 48 && text.len() > 1) {
        return None;
    }
    let mut value: u64 = 0;
    let mut i: usize = 0;
    while i < text.len()
        invariant
            i <= text@.len(),
            text@.len() > 0,
            !(text@[0] == 48 && text@.len() > 1),
            forall|j: int| 0 <= j < i ==> 48 <= #[trigger] text@[j] <= 57,
            value == decimal_value(text@.subrange(0, i as int)),
        decreases text@.len() - i,
    {
        let c = text[i];
        if c < 48 || c > 57 {
            assert(!canonical_decimal(text@)) by {
                assert(!(48 <= text@[i as int] <= 57));
            }
            return None;
        }
        let d = (c - 48) as u64;
        assert(text@.subrange(0, i + 1).drop_last() =~= text@.subrange(0, i as int));
        if value > (u64::MAX - d) / 10 {
            proof {
                let prefix = text@.subrange(0, i + 1);
                assert(decimal_value(prefix) > u64::MAX);
                if canonical_decimal(text@) {
                    lemma_decimal_prefix_le(text@, i + 1);
                }
            }
            return None;
        }
        value = value * 10 + d;
        i = i + 1;
    }
    assert(text@.subrange(0, i as int) =~= text@);
    Some(value)
}

/// The value of a canonical text is at least the value of any of its prefixes
proof fn lemma_decimal_prefix_le(text: Seq<u8>, k: int)
    requires
        canonical_decimal(text),
        0 <= k <= text.len(),
    ensures
        decimal_value(text.subrange(0, k)) <= decimal_value(text),
    decreases text.len() - k,
{
    reveal_with_fuel(decimal_value, 2);
    if k < text.len() {
        let longer = text.subrange(0, k + 1);
        assert(longer.drop_last() =~= text.subrange(0, k));
        if k > 0 {
            lemma_decimal_at_least_first(text.subrange(0, k));
        } else {
            assert(text.subrange(0, k) =~= Seq::<u8>::empty());
        }
        lemma_decimal_prefix_le(text, k + 1);
    } else {
        assert(text.subrange(0, k) =~= text);
    }
}

/// Whether the sequence begins with the prefix
pub open spec fn starts_with(sequence: Seq<TokenModel>, prefix: Seq<TokenModel>) -> bool {
    prefix.len() <= sequence.len() && sequence.subrange(0, prefix.len() as int) == prefix
}

/// Appending a value appends its tokens
proof fn lemma_values_tokens_push(items: Seq<ValueModel>, item: ValueModel)
    ensures
        values_tokens(items.push(item)) == values_tokens(items) + value_tokens(item),
    decreases items.len(),
{
    let pushed = items.push(item);
    if items.len() == 0 {
        assert(pushed.subrange(1, 1) =~= Seq::<ValueModel>::empty());
        assert(values_tokens(Seq::<ValueModel>::empty()) =~= Seq::<TokenModel>::empty());
        assert(pushed[0] == item);
        assert(values_tokens(pushed) =~= value_tokens(item));
        assert(values_tokens(items) =~= Seq::<TokenModel>::empty());
    } else {
        let rest = items.subrange(1, items.len() as int);
        assert(pushed.subrange(1, pushed.len() as int) =~= rest.push(item));
        assert(pushed[0] == items[0]);
        lemma_values_tokens_push(rest, item);
        assert(values_tokens(pushed) =~= value_tokens(items[0]) + values_tokens(rest.push(item)));
        assert(values_tokens(pushed) =~= values_tokens(items) + value_tokens(item));
    }
}

/// Appending a value appends its model
pub proof fn lemma_values_model_push(items: Seq<BencodeValue>, item: BencodeValue)
    ensures
        values_model(items.push(item)) == values_model(items).push(value_model(item)),
    decreases items.len(),
{
    let pushed = items.push(item);
    if items.len() == 0 {
        assert(pushed.subrange(1, 1) =~= Seq::<BencodeValue>::empty());
        assert(values_model(Seq::<BencodeValue>::empty()) =~= Seq::<ValueModel>::empty());
        assert(pushed[0] == item);
        assert(values_model(pushed) =~= seq![value_model(item)]);
        assert(values_model(items) =~= Seq::<ValueModel>::empty());
    } else {
        let rest = items.subrange(1, items.len() as int);
        assert(pushed.subrange(1, pushed.len() as int) =~= rest.push(item));
        assert(pushed[0] == items[0]);
        lemma_values_model_push(rest, item);
        assert(values_model(pushed) =~= values_model(items).push(value_model(item)));
    }
}

/// The tokens of the values from an index on are those of the value there, then those of the rest
proof fn lemma_values_tokens_split(items: Seq<ValueModel>, k: int)
    requires
        0 <= k < items.len(),
    ensures
        values_tokens(items.subrange(k, items.len() as int)) == value_tokens(items[k])
            + values_tokens(items.subrange(k + 1, items.len() as int)),
{
    let tail = items.subrange(k, items.len() as int);
    assert(tail[0] == items[k]);
    assert(tail.subrange(1, tail.len() as int) =~= items.subrange(k + 1, items.len() as int));
}

/// No value is deeper than the list of values it is in
proof fn lemma_values_depth(items: Seq<ValueModel>, k: int)
    requires
        0 <= k < items.len(),
    ensures
        value_depth(items[k]) <= values_depth(items),
    decreases items.len(),
{
    if k > 0 {
        let rest = items.subrange(1, items.len() as int);
        assert(rest[k - 1] == items[k]);
        lemma_values_depth(rest, k - 1);
    }
}

/// The tokens of a value begin with a token that tells its kind
proof fn lemma_first_token(m: ValueModel)
    ensures
        value_tokens(m).len() >= 1,
        value_tokens(m)[0] == match m {
            ValueModel::Int(n) => TokenModel::Num(digits(n as nat)),
            ValueModel::Bytes(b) => TokenModel::Bytes(b),
            ValueModel::List(_) => TokenModel::List,
        },
{
}

/// A sequence that begins with a prefix holds the prefix's items at the prefix's indices
proof fn lemma_starts_with_index(s: Seq<TokenModel>, p: Seq<TokenModel>, i: int)
    requires
        starts_with(s, p),
        0 <= i < p.len(),
    ensures
        s[i] == p[i],
{
    assert(s.subrange(0, p.len() as int)[i] == s[i]);
}

/// A sequence that begins with two parts begins with the first, and after it with the second
proof fn lemma_starts_with_concat(s: Seq<TokenModel>, a: Seq<TokenModel>, b: Seq<TokenModel>)
    requires
        starts_with(s, a + b),
    ensures
        starts_with(s, a),
        starts_with(s.skip(a.len() as int), b),
{
    let whole = a + b;
    assert forall|i: int| 0 <= i < whole.len() implies s[i] == #[trigger] whole[i] by {
        assert(s.subrange(0, whole.len() as int)[i] == s[i]);
    }
    assert forall|i: int| 0 <= i < a.len() implies s[i] == #[trigger] a[i] by {
        assert(whole[i] == a[i]);
    }
    assert(s.subrange(0, a.len() as int) =~= a);
    assert forall|j: int| 0 <= j < b.len() implies s[a.len() + j] == #[trigger] b[j] by {
        assert(whole[a.len() + j] == b[j]);
    }
    assert(s.skip(a.len() as int).subrange(0, b.len() as int) =~= b);
}

/// Two values whose tokens both begin the same sequence are the same value
proof fn lemma_value_unique(m1: ValueModel, m2: ValueModel, s: Seq<TokenModel>)
    requires
        starts_with(s, value_tokens(m1)),
        starts_with(s, value_tokens(m2)),
    ensures
        m1 == m2,
    decreases m1,
{
    lemma_first_token(m1);
    lemma_first_token(m2);
    lemma_starts_with_index(s, value_tokens(m1), 0);
    lemma_starts_with_index(s, value_tokens(m2), 0);
    match m1 {
        ValueModel::Int(n1) => {
            lemma_digits_canonical(n1 as nat);
            lemma_digits_canonical(m2->Int_0 as nat);
        },
        ValueModel::Bytes(_) => {},
        ValueModel::List(items1) => {
            let items2 = m2->List_0;
            let open = seq![TokenModel::List];
            let end = seq![TokenModel::End];
            assert(value_tokens(m1) =~= open + (values_tokens(items1) + end));
            assert(value_tokens(m2) =~= open + (values_tokens(items2) + end));
            lemma_starts_with_concat(s, open, values_tokens(items1) + end);
            lemma_starts_with_concat(s, open, values_tokens(items2) + end);
            lemma_values_unique(items1, items2, s.skip(1));
        },
    }
}

/// Two sequences of values whose tokens, followed by the end of a list, both begin the same
/// sequence are the same
proof fn lemma_values_unique(items1: Seq<ValueModel>, items2: Seq<ValueModel>, t: Seq<TokenModel>)
    requires
        starts_with(t, values_tokens(items1) + seq![TokenModel::End]),
        starts_with(t, values_tokens(items2) + seq![TokenModel::End]),
    ensures
        items1 == items2,
    decreases items1,
{
    let end = seq![TokenModel::End];
    if items1.len() == 0 || items2.len() == 0 {
        if items1.len() == 0 {
            assert(values_tokens(items1) + end =~= end);
            lemma_starts_with_index(t, end, 0);
        } else {
            lemma_first_token(items1[0]);
            assert(values_tokens(items1) + end =~= value_tokens(items1[0]) + (values_tokens(
                items1.subrange(1, items1.len() as int),
            ) + end));
            lemma_starts_with_index(t, values_tokens(items1) + end, 0);
        }
        if items2.len() == 0 {
            assert(values_tokens(items2) + end =~= end);
            lemma_starts_with_index(t, end, 0);
        } else {
            lemma_first_token(items2[0]);
            assert(values_tokens(items2) + end =~= value_tokens(items2[0]) + (values_tokens(
                items2.subrange(1, items2.len() as int),
            ) + end));
            lemma_starts_with_index(t, values_tokens(items2) + end, 0);
        }
        assert(items1 =~= items2);
    } else {
        let first1 = value_tokens(items1[0]);
        let first2 = value_tokens(items2[0]);
        let rest1 = items1.subrange(1, items1.len() as int);
        let rest2 = items2.subrange(1, items2.len() as int);
        assert(values_tokens(items1) + end =~= first1 + (values_tokens(rest1) + end));
        assert(values_tokens(items2) + end =~= first2 + (values_tokens(rest2) + end));
        lemma_starts_with_concat(t, first1, values_tokens(rest1) + end);
        lemma_starts_with_concat(t, first2, values_tokens(rest2) + end);
        lemma_value_unique(items1[0], items2[0], t);
        lemma_values_unique(rest1, rest2, t.skip(first1.len() as int));
        assert(items1 =~= seq![items1[0]] + rest1);
        assert(items2 =~= seq![items2[0]] + rest2);
    }
}

/// The tokens bendy's decoder reads from bytes, up to the end of the input or the first error
pub uninterp spec fn bencode_tokens(bytes: Seq<u8>) -> Seq<TokenModel>;

/// The tokens a token stream still yields before it ends or fails
pub uninterp spec fn tokens_remaining(tokens: Tokens) -> Seq<TokenModel>;

/// Starts reading the tokens of bencoded bytes (`bendy::decoding::Decoder::new`, then
/// `Decoder::tokens`). The decoder reads the tokens of a value back from its bencoding, when
/// lists nest no deeper than the decoder's limit of 2048
#[verifier::external_body]
fn token_stream<'a>(bytes: &'a [u8]) -> (tokens: Tokens<'a>)
    ensures
        tokens_remaining(tokens) == bencode_tokens(bytes@),
        forall|v: ValueModel|
            bytes@ == #[trigger] value_bytes(v) && value_depth(v) <= 2048 ==> tokens_remaining(
                tokens,
            ) == value_tokens(v),
{
    bendy::decoding::Decoder::new(bytes).tokens()
}

/// Reads the next token of the stream (`Tokens::next`): the first of the tokens it still
/// yields; the stream ends, or fails, once there are none
#[verifier::external_body]
fn next_token(tokens: &mut Tokens) -> (result: Option<Result<RawToken, DecodingError>>)
    ensures
        match result {
            Some(Ok(token)) => tokens_remaining(*old(tokens)).len() > 0 && token@ == tokens_remaining(
                *old(tokens),
            )[0] && tokens_remaining(*final(tokens)) == tokens_remaining(*old(tokens)).drop_first(),
            _ => tokens_remaining(*old(tokens)).len() == 0,
        },
{
    match tokens.next() {
        Some(Ok(Token::List)) => Some(Ok(RawToken::List)),
        Some(Ok(Token::Dict)) => Some(Ok(RawToken::Dict)),
        Some(Ok(Token::Num(text))) => Some(Ok(RawToken::Num(text.as_bytes().to_vec()))),
        Some(Ok(Token::String(bytes))) => Some(Ok(RawToken::Bytes(bytes.to_vec()))),
        Some(Ok(Token::End)) => Some(Ok(RawToken::End)),
        Some(Err(error)) => Some(Err(error)),
        None => None,
    }
}

/// What reading from a token stream found: a whole value, or the end of a list
enum Item {
    Value(BencodeValue),
    End,
}

/// Reads a value, or the end of the list around it, from the token stream, with lists
/// nested no deeper than the given limit
fn read_item(tokens: &mut Tokens, fuel: u32) -> (result: Result<Item, BytecodeError>)
    ensures
        result matches Ok(Item::Value(v)) ==> starts_with(
            tokens_remaining(*old(tokens)),
            value_tokens(v@),
        ) && tokens_remaining(*final(tokens)) == tokens_remaining(*old(tokens)).skip(
            value_tokens(v@).len() as int,
        ) && value_depth(v@) <= fuel,
        result matches Ok(Item::End) ==> tokens_remaining(*old(tokens)).len() > 0
            && tokens_remaining(*old(tokens))[0] is End && tokens_remaining(*final(tokens))
            == tokens_remaining(*old(tokens)).drop_first(),
        forall|m: ValueModel|
            value_depth(m) <= fuel && starts_with(tokens_remaining(*old(tokens)), #[trigger] value_tokens(m))
                ==> (result matches Ok(Item::Value(v)) && v@ == m),
        tokens_remaining(*old(tokens)).len() > 0 && tokens_remaining(*old(tokens))[0] is End
            ==> result matches Ok(Item::End),
    decreases fuel,
{
    let ghost start = tokens_remaining(*tokens);
    let ghost found = exists|m: ValueModel|
        value_depth(m) <= fuel && starts_with(start, #[trigger] value_tokens(m));
    let ghost m = choose|m: ValueModel|
        value_depth(m) <= fuel && starts_with(start, #[trigger] value_tokens(m));
    proof {
        lemma_first_token(m);
        if found {
            assert(start[0] == value_tokens(m)[0]);
        }
        assert forall|other: ValueModel|
            value_depth(other) <= fuel && starts_with(start, #[trigger] value_tokens(other))
                implies other == m by {
            lemma_value_unique(other, m, start);
        }
    }
    match next_token(tokens) {
        Some(Ok(RawToken::End)) => Ok(Item::End),
        Some(Ok(RawToken::Num(text))) => {
            match parse_decimal(&text) {
                Some(n) => {
                    proof {
                        lemma_canonical_digits(text@);
                        lemma_first_token(value_model(BencodeValue::Int(n)));
                        assert(value_tokens(ValueModel::Int(n)) =~= seq![start[0]]);
                        assert(start.subrange(0, 1) =~= seq![start[0]]);
                        assert(start.drop_first() =~= start.skip(1));
                    }
                    Ok(Item::Value(BencodeValue::Int(n)))
                },
                None => {
                    proof {
                        if found {
                            lemma_digits_canonical(m->Int_0 as nat);
                        }
                    }
                    Err(BytecodeError::UnexpectedContent)
                },
            }
        },
        Some(Ok(RawToken::Bytes(bytes))) => {
            proof {
                assert(value_tokens(ValueModel::Bytes(bytes@)) =~= seq![start[0]]);
                assert(start.subrange(0, 1) =~= seq![start[0]]);
                assert(start.drop_first() =~= start.skip(1));
            }
            Ok(Item::Value(BencodeValue::Bytes(bytes)))
        },
        Some(Ok(RawToken::List)) => {
            if fuel == 0 {
                return Err(BytecodeError::UnexpectedContent);
            }
            let ghost inner = if found { m->List_0 } else { Seq::<ValueModel>::empty() };
            let ghost rest = start.skip(value_tokens(m).len() as int);
            proof {
                if found {
                    assert(start.subrange(0, value_tokens(m).len() as int) == value_tokens(m));
                    assert(start.drop_first() =~= values_tokens(inner) + seq![TokenModel::End]
                        + rest) by {
                        assert(value_tokens(m) =~= seq![TokenModel::List] + values_tokens(inner)
                            + seq![TokenModel::End]);
                        assert(start =~= start.subrange(0, value_tokens(m).len() as int) + rest);
                    }
                    assert(inner.subrange(0, inner.len() as int) =~= inner);
                    assert(inner.subrange(0, 0) =~= Seq::<ValueModel>::empty());
                }
                assert(values_model(Seq::<BencodeValue>::empty()) =~= Seq::<ValueModel>::empty());
                assert(values_tokens(Seq::<ValueModel>::empty()) =~= Seq::<TokenModel>::empty());
            }
            let mut items: Vec<BencodeValue> = Vec::new();
            loop
                invariant
                    fuel >= 1,
                    start == tokens_remaining(*old(tokens)),
                    forall|other: ValueModel|
                        value_depth(other) <= fuel && starts_with(start, #[trigger] value_tokens(other))
                            ==> other == m && found,
                    start.len() > 0,
                    start[0] is List,
                    start == seq![TokenModel::List] + values_tokens(values_model(items@))
                        + tokens_remaining(*tokens),
                    found ==> items@.len() <= inner.len() && values_model(items@) == inner.subrange(
                        0,
                        items@.len() as int,
                    ) && tokens_remaining(*tokens) == values_tokens(
                        inner.subrange(items@.len() as int, inner.len() as int),
                    ) + seq![TokenModel::End] + rest,
                    found ==> values_depth(inner) < fuel,
                    found ==> m == ValueModel::List(inner),
                    forall|j: int|
                        0 <= j < items@.len() ==> value_depth(#[trigger] values_model(items@)[j]) < fuel,
                decreases tokens_remaining(*tokens).len(),
            {
                let ghost before = tokens_remaining(*tokens);
                let ghost k = items@.len() as int;
                proof {
                    if found && k < inner.len() {
                        lemma_values_tokens_split(inner, k);
                        lemma_values_depth(inner, k);
                        lemma_first_token(inner[k]);
                        assert(before == value_tokens(inner[k]) + (values_tokens(
                            inner.subrange(k + 1, inner.len() as int),
                        ) + seq![TokenModel::End] + rest));
                        assert(starts_with(before, value_tokens(inner[k]))) by {
                            assert(before.subrange(0, value_tokens(inner[k]).len() as int)
                                =~= value_tokens(inner[k]));
                        }
                    }
                    if found && k == inner.len() {
                        assert(inner.subrange(k, k) =~= Seq::<ValueModel>::empty());
                        assert(values_tokens(Seq::<ValueModel>::empty()) =~= Seq::<TokenModel>::empty());
                        assert(before =~= seq![TokenModel::End] + rest);
                    }
                }
                match read_item(tokens, fuel - 1) {
                    Ok(Item::Value(v)) => {
                        proof {
                            lemma_first_token(v@);
                            let taken = value_tokens(v@);
                            assert(before =~= taken + before.skip(taken.len() as int)) by {
                                assert(before.subrange(0, taken.len() as int) == taken);
                            }
                            lemma_values_model_push(items@, v);
                            lemma_values_tokens_push(values_model(items@), v@);
                            lemma_values_model_index(items@);
                            assert forall|j: int| 0 <= j < items@.len() + 1 implies value_depth(
                                #[trigger] values_model(items@).push(v@)[j],
                            ) < fuel by {
                                if j < items@.len() {
                                    assert(values_model(items@).push(v@)[j] == values_model(
                                        items@,
                                    )[j]);
                                }
                            }
                            if found {
                                assert(k < inner.len()) by {
                                    if k == inner.len() {
                                        assert(before[0] is End);
                                        assert(taken[0] == before[0]);
                                    }
                                }
                                assert(v@ == inner[k]);
                                assert(inner.subrange(0, k + 1) =~= inner.subrange(0, k).push(
                                    inner[k],
                                ));
                                assert(tokens_remaining(*tokens) =~= values_tokens(
                                    inner.subrange(k + 1, inner.len() as int),
                                ) + seq![TokenModel::End] + rest);
                            }
                        }
                        items.push(v);
                        proof {
                            assert(start =~= seq![TokenModel::List] + values_tokens(
                                values_model(items@),
                            ) + tokens_remaining(*tokens));
                        }
                    },
                    Ok(Item::End) => {
                        let ghost consumed = value_tokens(ValueModel::List(values_model(items@)));
                        proof {
                            assert(consumed =~= seq![TokenModel::List] + values_tokens(
                                values_model(items@),
                            ) + seq![TokenModel::End]);
                            assert(before =~= seq![TokenModel::End] + tokens_remaining(*tokens));
                            assert(start =~= consumed + tokens_remaining(*tokens));
                            assert(start.subrange(0, consumed.len() as int) =~= consumed);
                            assert(start.skip(consumed.len() as int) =~= tokens_remaining(*tokens));
                            if found {
                                assert(k == inner.len()) by {
                                    if k < inner.len() {
                                        assert(before[0] == value_tokens(inner[k])[0]);
                                    }
                                }
                                assert(values_model(items@) =~= inner);
                            }
                        }
                        proof {
                            lemma_values_model_index(items@);
                            lemma_values_depth_bound(values_model(items@), (fuel - 1) as nat);
                        }
                        let value = BencodeValue::List(items);
                        assert(value@ == ValueModel::List(values_model(items@)));
                        return Ok(Item::Value(value));
                    },
                    Err(e) => {
                        return Err(e);
                    },
                }
            }
        },
        _ => Err(BytecodeError::Decoding),
    }
}

/// Decodes the first bencoded value of the bytes, with lists nested at most 2048 deep
pub fn decode_value(bytes: &[u8]) -> (result: Result<BencodeValue, BytecodeError>)
    ensures
        result matches Ok(v) ==> starts_with(bencode_tokens(bytes@), value_tokens(v@))
            && value_depth(v@) <= 2048,
        forall|m: ValueModel|
            value_depth(m) <= 2048 && starts_with(bencode_tokens(bytes@), #[trigger] value_tokens(m))
                ==> (result matches Ok(v) && v@ == m),
        forall|m: ValueModel|
            bytes@ == #[trigger] value_bytes(m) && value_depth(m) <= 2048 ==> starts_with(
                bencode_tokens(bytes@),
                value_tokens(m),
            ),
{
    let mut tokens = token_stream(bytes);
    proof {
        assert forall|m: ValueModel| bytes@ == #[trigger] value_bytes(m) && value_depth(m) <= 2048
            implies starts_with(bencode_tokens(bytes@), value_tokens(m)) by {
            assert(tokens_remaining(tokens).subrange(0, value_tokens(m).len() as int)
                =~= value_tokens(m));
        }
    }
    match read_item(&mut tokens, 2048) {
        Ok(Item::Value(v)) => Ok(v),
        Ok(Item::End) => Err(BytecodeError::Decoding),
        Err(e) => Err(e),
    }
}

/// No value in the sequence nests lists deeper than the bound
pub proof fn lemma_values_depth_bound(items: Seq<ValueModel>, bound: nat)
    requires
        forall|i: int| 0 <= i < items.len() ==> value_depth(#[trigger] items[i]) <= bound,
    ensures
        values_depth(items) <= bound,
    decreases items.len(),
{
    if items.len() > 0 {
        let rest = items.subrange(1, items.len() as int);
        assert forall|i: int| 0 <= i < rest.len() implies value_depth(#[trigger] rest[i]) <= bound by {
            assert(rest[i] == items[i + 1]);
        }
        lemma_values_depth_bound(rest, bound);
    }
}

/// Tells if the byte string holds exactly the given bytes
fn bytes_equal(a: &Vec<u8>, b: &[u8]) -> (result: bool)
    ensures
        result == (a@ == b@),
{
    if a.len() != b.len() {
        return false;
    }
    let mut i: usize = 0;
    while i < a.len()
        invariant
            a@.len() == b@.len(),
            i <= a@.len(),
            forall|j: int| 0 <= j < i ==> a@[j] == b@[j],
        decreases a@.len() - i,
    {
        if a[i] != b[i] {
            assert(a@[i as int] != b@[i as int]);
            return false;
        }
        i = i + 1;
    }
    assert(a@ =~= b@);
    true
}

/// The marker of an empty brick
pub open spec fn empty_brick_marker() -> Seq<u8> {
    seq![35u8, 98u8]
}

/// The marker of a brick made of one voxel
pub open spec fn solid_brick_marker() -> Seq<u8> {
    seq![35u8, 35u8, 98u8]
}

/// The marker of a brick made of many voxels
pub open spec fn parted_brick_marker() -> Seq<u8> {
    seq![35u8, 35u8, 35u8, 98u8]
}

/// The values a voxel color is written as: its components, then its user data, which a color
/// does not have
pub open spec fn voxel_values(color: Albedo) -> Seq<ValueModel> {
    seq![
        ValueModel::Int(color.r as u64),
        ValueModel::Int(color.g as u64),
        ValueModel::Int(color.b as u64),
        ValueModel::Int(color.a as u64),
        ValueModel::Int(0),
    ]
}

/// The values of the voxels, one after the other
pub open spec fn voxels_values(voxels: Seq<Albedo>) -> Seq<ValueModel>
    decreases voxels.len(),
{
    if voxels.len() == 0 {
        Seq::empty()
    } else {
        voxels_values(voxels.drop_last()) + voxel_values(voxels.last())
    }
}

/// The bencoded form of a brick
pub open spec fn brick_value(brick: BrickModel<Albedo>) -> ValueModel {
    match brick {
        BrickModel::Empty => ValueModel::Bytes(empty_brick_marker()),
        BrickModel::Solid(voxel) => ValueModel::List(
            seq![ValueModel::Bytes(solid_brick_marker())] + voxel_values(voxel),
        ),
        BrickModel::Parted(voxels) => ValueModel::List(
            seq![ValueModel::Bytes(parted_brick_marker())] + voxels_values(voxels),
        ),
    }
}

/// A value that a color component can be read from
pub open spec fn is_component(value: ValueModel) -> bool {
    value is Int && value->Int_0 <= 255
}

/// Whether the five values at the given index are a voxel: four color components and a user
/// data, which is an integer
pub open spec fn voxel_readable(items: Seq<ValueModel>, at: int) -> bool {
    &&& is_component(items[at])
    &&& is_component(items[at + 1])
    &&& is_component(items[at + 2])
    &&& is_component(items[at + 3])
    &&& items[at + 4] is Int
}

/// Whether the given number of voxels can be read from the given index on
pub open spec fn voxels_readable_upto(items: Seq<ValueModel>, start: int, count: int) -> bool {
    forall|k: int| 0 <= k < count ==> #[trigger] voxel_readable(items, start + 5 * k)
}

/// Whether the values from the given index on are voxels, five values each
pub open spec fn voxels_readable(items: Seq<ValueModel>, start: int) -> bool {
    &&& 0 <= start <= items.len()
    &&& (items.len() - start) % 5 == 0
    &&& voxels_readable_upto(items, start, (items.len() - start) / 5)
}

/// The voxel color read from the values at the given index
pub open spec fn voxel_at(items: Seq<ValueModel>, start: int) -> Albedo {
    Albedo {
        r: items[start]->Int_0 as u8,
        g: items[start + 1]->Int_0 as u8,
        b: items[start + 2]->Int_0 as u8,
        a: items[start + 3]->Int_0 as u8,
    }
}

/// The voxel colors read from the values from the given index on
pub open spec fn voxels_at(items: Seq<ValueModel>, start: int) -> Seq<Albedo> {
    Seq::new(((items.len() - start) / 5) as nat, |k: int| voxel_at(items, start + 5 * k))
}

/// The brick a bencoded value describes, if it describes one
pub open spec fn brick_of_value(value: ValueModel) -> Option<BrickModel<Albedo>> {
    match value {
        ValueModel::Bytes(marker) => if marker == empty_brick_marker() {
            Some(BrickModel::Empty)
        } else {
            None
        },
        ValueModel::List(items) => if items.len() == 6 && items[0] == ValueModel::Bytes(
            solid_brick_marker(),
        ) && voxels_readable(items, 1) {
            Some(BrickModel::Solid(voxel_at(items, 1)))
        } else if items.len() >= 1 && items[0] == ValueModel::Bytes(parted_brick_marker())
            && voxels_readable(items, 1) {
            Some(BrickModel::Parted(voxels_at(items, 1)))
        } else {
            None
        },
        ValueModel::Int(_) => None,
    }
}

/// The values of voxels are five per voxel, in the order of the voxels
proof fn lemma_voxels_values(voxels: Seq<Albedo>)
    ensures
        voxels_values(voxels).len() == 5 * voxels.len(),
        forall|k: int, j: int|
            0 <= k < voxels.len() && 0 <= j < 5 ==> #[trigger] voxels_values(voxels)[5 * k + j]
                == voxel_values(voxels[k])[j],
    decreases voxels.len(),
{
    if voxels.len() > 0 {
        let front = voxels.drop_last();
        lemma_voxels_values(front);
        assert forall|k: int, j: int| 0 <= k < voxels.len() && 0 <= j < 5 implies #[trigger] voxels_values(
            voxels,
        )[5 * k + j] == voxel_values(voxels[k])[j] by {
            if k < voxels.len() - 1 {
                assert(front[k] == voxels[k]);
                assert(voxels_values(front)[5 * k + j] == voxel_values(front[k])[j]);
            }
        }
    }
}

/// Reading back the bencoded form of a brick gives the brick, and the form nests lists at most
/// one deep
pub proof fn lemma_brick_roundtrip(brick: BrickModel<Albedo>)
    ensures
        brick_of_value(brick_value(brick)) == Some(brick),
        value_depth(brick_value(brick)) <= 1,
{
    match brick {
        BrickModel::Empty => {},
        BrickModel::Solid(voxel) => {
            let items = seq![ValueModel::Bytes(solid_brick_marker())] + voxel_values(voxel);
            assert(items[0] == ValueModel::Bytes(solid_brick_marker()));
            assert(voxels_readable(items, 1)) by {
                assert forall|k: int| 0 <= k < (items.len() - 1) / 5 implies #[trigger] voxel_readable(
                    items,
                    1 + 5 * k,
                ) by {
                    assert(k == 0);
                }
            }
            assert(voxel_at(items, 1) == voxel);
            lemma_values_depth_bound(items, 0);
        },
        BrickModel::Parted(voxels) => {
            lemma_voxels_values(voxels);
            let items = seq![ValueModel::Bytes(parted_brick_marker())] + voxels_values(voxels);
            assert(items[0] == ValueModel::Bytes(parted_brick_marker()));
            assert forall|k: int, j: int| 0 <= k < voxels.len() && 0 <= j < 5 implies #[trigger] items[1 + 5 * k + j]
                == voxel_values(voxels[k])[j] by {
                assert(voxels_values(voxels)[5 * k + j] == voxel_values(voxels[k])[j]);
            }
            assert(voxels_readable(items, 1)) by {
                assert forall|k: int| 0 <= k < (items.len() - 1) / 5 implies #[trigger] voxel_readable(
                    items,
                    1 + 5 * k,
                ) by {
                    assert(items[1 + 5 * k + 0] == voxel_values(voxels[k])[0]);
                    assert(items[1 + 5 * k + 1] == voxel_values(voxels[k])[1]);
                    assert(items[1 + 5 * k + 2] == voxel_values(voxels[k])[2]);
                    assert(items[1 + 5 * k + 3] == voxel_values(voxels[k])[3]);
                    assert(items[1 + 5 * k + 4] == voxel_values(voxels[k])[4]);
                }
            }
            assert(voxels_at(items, 1) =~= voxels) by {
                assert forall|k: int| 0 <= k < voxels.len() implies #[trigger] voxels_at(items, 1)[k]
                    == voxels[k] by {
                    assert(items[1 + 5 * k + 0] == voxel_values(voxels[k])[0]);
                    assert(items[1 + 5 * k + 1] == voxel_values(voxels[k])[1]);
                    assert(items[1 + 5 * k + 2] == voxel_values(voxels[k])[2]);
                    assert(items[1 + 5 * k + 3] == voxel_values(voxels[k])[3]);
                }
            }
            assert forall|i: int| 0 <= i < items.len() implies value_depth(#[trigger] items[i])
                <= 0 by {
                if i > 0 {
                    let k = (i - 1) / 5;
                    let j = (i - 1) % 5;
                    assert(items[1 + 5 * k + j] == voxel_values(voxels[k])[j]);
                }
            }
            lemma_values_depth_bound(items, 0);
        },
    }
}

/// Appends the values of a voxel color
fn push_voxel(values: &mut Vec<BencodeValue>, color: &Albedo)
    ensures
        values_model(final(values)@) == values_model(old(values)@) + voxel_values(*color),
{
    let ghost start = values_model(values@);
    let items = [color.r as u64, color.g as u64, color.b as u64, color.a as u64, 0u64];
    let mut i: usize = 0;
    while i < 5
        invariant
            i <= 5,
            items@ == seq![color.r as u64, color.g as u64, color.b as u64, color.a as u64, 0u64],
            values_model(values@) == start + voxel_values(*color).subrange(0, i as int),
        decreases 5 - i,
    {
        proof {
            lemma_values_model_push(values@, BencodeValue::Int(items[i as int]));
            assert(voxel_values(*color).subrange(0, i + 1) =~= voxel_values(*color).subrange(
                0,
                i as int,
            ).push(ValueModel::Int(items[i as int])));
        }
        values.push(BencodeValue::Int(items[i]));
        i = i + 1;
    }
    assert(voxel_values(*color).subrange(0, 5) =~= voxel_values(*color));
}

/// Reads a color component from the value under the index
fn component_at(items: &Vec<BencodeValue>, index: usize) -> (component: Option<u8>)
    requires
        index < items@.len(),
    ensures
        component == if is_component(value_model(items@[index as int])) {
            Some(value_model(items@[index as int])->Int_0 as u8)
        } else {
            None::<u8>
        },
{
    match &items[index] {
        BencodeValue::Int(n) => if *n <= 255 {
            Some(*n as u8)
        } else {
            None
        },
        _ => None,
    }
}

/// Reads the voxel colors from the values from the given index on
fn read_voxels(items: &Vec<BencodeValue>, start: usize) -> (result: Option<Vec<Albedo>>)
    requires
        start <= items@.len(),
    ensures
        result matches Some(voxels) <==> voxels_readable(values_model(items@), start as int),
        result matches Some(voxels) ==> voxels@ == voxels_at(values_model(items@), start as int),
{
    proof {
        lemma_values_model_index(items@);
    }
    let ghost models = values_model(items@);
    if (items.len() - start) % 5 != 0 {
        return None;
    }
    let len = items.len();
    let count = (len - start) / 5;
    assert(5 * count == items@.len() - start);
    let mut voxels: Vec<Albedo> = Vec::new();
    let mut k: usize = 0;
    while k < count
        invariant
            start <= items@.len(),
            models == values_model(items@),
            models.len() == items@.len(),
            forall|j: int| 0 <= j < items@.len() ==> #[trigger] models[j] == value_model(items@[j]),
            (items@.len() - start) % 5 == 0,
            count == (items@.len() - start) / 5,
            5 * count == items@.len() - start,
            items@.len() == len,
            k <= count,
            voxels@.len() == k,
            voxels_readable_upto(models, start as int, k as int),
            forall|q: int| 0 <= q < k ==> #[trigger] voxels@[q] == voxel_at(models, start + 5 * q),
        decreases count - k,
    {
        assert(5 * k + 5 <= 5 * count);
        let base = start + 5 * k;
        let r = component_at(items, base);
        let g = component_at(items, base + 1);
        let b = component_at(items, base + 2);
        let a = component_at(items, base + 3);
        let user_data_is_int = match &items[base + 4] {
            BencodeValue::Int(_) => true,
            _ => false,
        };
        if r.is_none() || g.is_none() || b.is_none() || a.is_none() || !user_data_is_int {
            assert(!voxels_readable(models, start as int)) by {
                assert(models[start + 5 * k] == value_model(items@[base as int]));
                assert(!voxel_readable(models, start + 5 * k));
            }
            return None;
        }
        voxels.push(Albedo { r: r.unwrap(), g: g.unwrap(), b: b.unwrap(), a: a.unwrap() });
        assert(voxel_readable(models, start + 5 * k));
        assert(voxels_readable_upto(models, start as int, k + 1)) by {
            assert forall|q: int| 0 <= q < k + 1 implies #[trigger] voxel_readable(
                models,
                start + 5 * q,
            ) by {
                if q < k {
                    assert(voxel_readable(models, start + 5 * q));
                }
            }
        }
        k = k + 1;
    }
    assert(voxels@ =~= voxels_at(models, start as int));
    assert(k == (models.len() - start) / 5);
    Some(voxels)
}

impl BrickData<Albedo> {
    /// The bencoded form of the brick
    pub fn to_bencode_value(&self) -> (value: BencodeValue)
        ensures
            value@ == brick_value(self@),
    {
        match self {
            BrickData::Empty => BencodeValue::Bytes(vec![35u8, 98u8]),
            BrickData::Solid(voxel) => {
                let mut items: Vec<BencodeValue> = Vec::new();
                let marker = BencodeValue::Bytes(vec![35u8, 35u8, 98u8]);
                proof {
                    lemma_values_model_push(items@, marker);
                    assert(values_model(Seq::<BencodeValue>::empty()) =~= Seq::<ValueModel>::empty());
                }
                items.push(marker);
                push_voxel(&mut items, voxel);
                let value = BencodeValue::List(items);
                assert(value@ == brick_value(self@)) by {
                    assert(values_model(items@) =~= seq![ValueModel::Bytes(solid_brick_marker())]
                        + voxel_values(*voxel));
                }
                value
            },
            BrickData::Parted(voxels) => {
                let mut items: Vec<BencodeValue> = Vec::new();
                let marker = BencodeValue::Bytes(vec![35u8, 35u8, 35u8, 98u8]);
                proof {
                    lemma_values_model_push(items@, marker);
                    assert(values_model(Seq::<BencodeValue>::empty()) =~= Seq::<ValueModel>::empty());
                }
                items.push(marker);
                let ghost head = seq![ValueModel::Bytes(parted_brick_marker())];
                assert(values_model(items@) =~= head);
                assert(voxels@.subrange(0, 0) =~= Seq::<Albedo>::empty());
                let mut i: usize = 0;
                while i < voxels.len()
                    invariant
                        i <= voxels@.len(),
                        head == seq![ValueModel::Bytes(parted_brick_marker())],
                        values_model(items@) == head + voxels_values(voxels@.subrange(0, i as int)),
                    decreases voxels@.len() - i,
                {
                    push_voxel(&mut items, &voxels[i]);
                    proof {
                        let next = voxels@.subrange(0, i + 1);
                        assert(next.drop_last() =~= voxels@.subrange(0, i as int));
                        assert(next.last() == voxels@[i as int]);
                    }
                    i = i + 1;
                }
                assert(voxels@.subrange(0, i as int) =~= voxels@);
                let value = BencodeValue::List(items);
                value
            },
        }
    }

    /// The brick the bencoded value describes
    pub fn from_bencode_value(value: &BencodeValue) -> (result: Result<Self, BytecodeError>)
        ensures
            match brick_of_value(value@) {
                Some(brick) => result matches Ok(b) && b@ == brick,
                None => result == Err::<Self, BytecodeError>(BytecodeError::UnexpectedContent),
            },
    {
        match value {
            BencodeValue::Bytes(marker) => {
                if bytes_equal(marker, &[35u8, 98u8]) {
                    Ok(BrickData::Empty)
                } else {
                    Err(BytecodeError::UnexpectedContent)
                }
            },
            BencodeValue::List(items) => {
                proof {
                    lemma_values_model_index(items@);
                }
                if items.len() == 0 {
                    return Err(BytecodeError::UnexpectedContent);
                }
                let marker = match &items[0] {
                    BencodeValue::Bytes(marker) => marker,
                    _ => {
                        return Err(BytecodeError::UnexpectedContent);
                    },
                };
                assert(values_model(items@)[0] == ValueModel::Bytes(marker@));
                if bytes_equal(marker, &[35u8, 35u8, 98u8]) {
                    if items.len() != 6 {
                        return Err(BytecodeError::UnexpectedContent);
                    }
                    match read_voxels(items, 1) {
                        Some(voxels) => {
                            assert(voxels@.len() == 1);
                            Ok(BrickData::Solid(voxels[0]))
                        },
                        None => Err(BytecodeError::UnexpectedContent),
                    }
                } else if bytes_equal(marker, &[35u8, 35u8, 35u8, 98u8]) {
                    match read_voxels(items, 1) {
                        Some(voxels) => Ok(BrickData::Parted(voxels)),
                        None => Err(BytecodeError::UnexpectedContent),
                    }
                } else {
                    Err(BytecodeError::UnexpectedContent)
                }
            },
            BencodeValue::Int(_) => Err(BytecodeError::UnexpectedContent),
        }
    }
}

impl BrickData<Albedo> {
    /// The bencoding of the brick
    pub fn to_bencode(&self) -> (result: Result<Vec<u8>, BytecodeError>)
        ensures
            result matches Ok(bytes) ==> bytes@ == value_bytes(brick_value(self@)),
            result is Ok,
    {
        proof {
            lemma_brick_roundtrip(self@);
        }
        encode_value(&self.to_bencode_value())
    }

    /// The brick the first bencoded value of the bytes describes
    pub fn from_bencode(bytes: &[u8]) -> (result: Result<Self, BytecodeError>)
        ensures
            result is Ok <==> exists|m: ValueModel|
                value_depth(m) <= 2048 && starts_with(bencode_tokens(bytes@), #[trigger] value_tokens(m))
                    && brick_of_value(m) is Some,
            forall|m: ValueModel|
                value_depth(m) <= 2048 && starts_with(bencode_tokens(bytes@), #[trigger] value_tokens(m))
                    ==> (result matches Ok(b) ==> brick_of_value(m) == Some(b@)),
            forall|brick: BrickModel<Albedo>|
                bytes@ == #[trigger] value_bytes(brick_value(brick)) ==> (result matches Ok(b)
                    && b@ == brick),
    {
        let decoded = decode_value(bytes);
        proof {
            assert forall|brick: BrickModel<Albedo>|
                bytes@ == #[trigger] value_bytes(brick_value(brick)) implies value_depth(
                brick_value(brick),
            ) <= 2048 && starts_with(bencode_tokens(bytes@), value_tokens(brick_value(brick))) by {
                lemma_brick_roundtrip(brick);
            }
        }
        match decoded {
            Ok(value) => {
                let result = Self::from_bencode_value(&value);
                proof {
                    assert forall|m: ValueModel|
                        value_depth(m) <= 2048 && starts_with(
                            bencode_tokens(bytes@),
                            #[trigger] value_tokens(m),
                        ) implies m == value@ by {}
                    assert forall|brick: BrickModel<Albedo>|
                        bytes@ == #[trigger] value_bytes(brick_value(brick)) implies (result matches Ok(
                        b,
                    ) && b@ == brick) by {
                        lemma_brick_roundtrip(brick);
                        assert(value_tokens(brick_value(brick)) == value_tokens(value@));
                    }
                }
                result
            },
            Err(e) => Err(e),
        }
    }
}

/// The marker of a node without children
pub open spec fn no_children_marker() -> Seq<u8> {
    seq![35u8, 35u8, 120u8, 35u8, 35u8]
}

/// The marker of a node with children
pub open spec fn children_marker() -> Seq<u8> {
    seq![35u8, 35u8, 99u8, 35u8, 35u8]
}

/// The marker of a node with an occupancy bitmap
pub open spec fn bitmap_marker() -> Seq<u8> {
    seq![35u8, 35u8, 98u8, 35u8, 35u8]
}

/// The marker of a node with eight occupancy bitmaps
pub open spec fn bitmaps_marker() -> Seq<u8> {
    seq![35u8, 35u8, 98u8, 115u8, 35u8, 35u8]
}

/// The bencoded form of the children of a node; the empty marker is not written
pub open spec fn children_value(children: NodeChildren<u32>) -> ValueModel {
    match children.content {
        NodeChildrenArray::NoChildren => ValueModel::Bytes(no_children_marker()),
        NodeChildrenArray::Children(keys) => ValueModel::List(
            seq![ValueModel::Bytes(children_marker())] + Seq::new(
                8,
                |i: int| ValueModel::Int(keys[i] as u64),
            ),
        ),
        NodeChildrenArray::OccupancyBitmap(bitmap) => ValueModel::List(
            seq![ValueModel::Bytes(bitmap_marker()), ValueModel::Int(bitmap)],
        ),
        NodeChildrenArray::OccupancyBitmaps(bitmaps) => ValueModel::List(
            seq![ValueModel::Bytes(bitmaps_marker())] + Seq::new(
                8,
                |i: int| ValueModel::Int(bitmaps[i]),
            ),
        ),
    }
}

/// Whether the values after the marker are eight integers, each at most the bound
pub open spec fn eight_ints_upto(items: Seq<ValueModel>, bound: int) -> bool {
    &&& items.len() == 9
    &&& forall|i: int| 1 <= i < 9 ==> (#[trigger] items[i] is Int && items[i]->Int_0 <= bound)
}

/// Whether a bencoded value describes the children of a node
pub open spec fn children_readable(value: ValueModel) -> bool {
    match value {
        ValueModel::Bytes(marker) => marker == no_children_marker(),
        ValueModel::List(items) => items.len() >= 1 && ({
            ||| items[0] == ValueModel::Bytes(children_marker()) && eight_ints_upto(items, u32::MAX as int)
            ||| items[0] == ValueModel::Bytes(bitmap_marker()) && items.len() == 2 && items[1] is Int
            ||| items[0] == ValueModel::Bytes(bitmaps_marker()) && eight_ints_upto(items, u64::MAX as int)
        }),
        ValueModel::Int(_) => false,
    }
}

/// Whether the children of a node are those a readable bencoded value describes, with the
/// largest 32 bit number as the empty marker
pub open spec fn children_described(value: ValueModel, children: NodeChildren<u32>) -> bool {
    &&& children.empty_marker == u32::MAX
    &&& match value {
        ValueModel::Bytes(_) => children.content is NoChildren,
        ValueModel::List(items) => if items[0] == ValueModel::Bytes(children_marker()) {
            children.content matches NodeChildrenArray::Children(keys) && forall|i: int|
                0 <= i < 8 ==> #[trigger] keys[i] == items[i + 1]->Int_0
        } else if items[0] == ValueModel::Bytes(bitmap_marker()) {
            children.content == NodeChildrenArray::<u32>::OccupancyBitmap(items[1]->Int_0)
        } else {
            children.content matches NodeChildrenArray::OccupancyBitmaps(bitmaps) && forall|i: int|
                0 <= i < 8 ==> #[trigger] bitmaps[i] == items[i + 1]->Int_0
        },
        ValueModel::Int(_) => false,
    }
}

/// The bencoded form of the children of a node can be read back, which gives the same children
/// when the empty marker is the largest 32 bit number; the form nests lists at most one deep
pub proof fn lemma_children_roundtrip(children: NodeChildren<u32>, read: NodeChildren<u32>)
    ensures
        children_readable(children_value(children)),
        value_depth(children_value(children)) <= 1,
        children.empty_marker == u32::MAX && children_described(children_value(children), read)
            ==> read == children,
{
    let value = children_value(children);
    match children.content {
        NodeChildrenArray::NoChildren => {},
        NodeChildrenArray::Children(keys) => {
            let items = value->List_0;
            assert(items[0] == ValueModel::Bytes(children_marker()));
            assert forall|i: int| 1 <= i < 9 implies (#[trigger] items[i] is Int && items[i]->Int_0
                <= u32::MAX as int) by {}
            assert(!(children_marker() =~= bitmap_marker())) by {
                assert(children_marker()[2] != bitmap_marker()[2]);
            }
            assert forall|i: int| 0 <= i < items.len() implies value_depth(#[trigger] items[i]) <= 0 by {}
            lemma_values_depth_bound(items, 0);
            if children.empty_marker == u32::MAX && children_described(value, read) {
                let read_keys = read.content->Children_0;
                assert(read_keys =~= keys) by {
                    assert forall|i: int| 0 <= i < 8 implies read_keys[i] == keys[i] by {
                        assert(read_keys[i] == items[i + 1]->Int_0);
                    }
                }
            }
        },
        NodeChildrenArray::OccupancyBitmap(bitmap) => {
            let items = value->List_0;
            assert(!(bitmap_marker() =~= children_marker())) by {
                assert(children_marker()[2] != bitmap_marker()[2]);
            }
            assert forall|i: int| 0 <= i < items.len() implies value_depth(#[trigger] items[i]) <= 0 by {}
            lemma_values_depth_bound(items, 0);
        },
        NodeChildrenArray::OccupancyBitmaps(bitmaps) => {
            let items = value->List_0;
            assert(items[0] == ValueModel::Bytes(bitmaps_marker()));
            assert forall|i: int| 1 <= i < 9 implies (#[trigger] items[i] is Int && items[i]->Int_0
                <= u64::MAX as int) by {}
            assert(!(bitmaps_marker() =~= children_marker())) by {
                assert(children_marker().len() != bitmaps_marker().len());
            }
            assert(!(bitmaps_marker() =~= bitmap_marker())) by {
                assert(bitmap_marker().len() != bitmaps_marker().len());
            }
            assert forall|i: int| 0 <= i < items.len() implies value_depth(#[trigger] items[i]) <= 0 by {}
            lemma_values_depth_bound(items, 0);
            if children.empty_marker == u32::MAX && children_described(value, read) {
                let read_maps = read.content->OccupancyBitmaps_0;
                assert(read_maps =~= bitmaps) by {
                    assert forall|i: int| 0 <= i < 8 implies read_maps[i] == bitmaps[i] by {
                        assert(read_maps[i] == items[i + 1]->Int_0);
                    }
                }
            }
        },
    }
}

/// A list value made of a marker and eight integers
fn marker_and_ints(marker: Vec<u8>, ints: [u64; 8]) -> (value: BencodeValue)
    ensures
        value@ == ValueModel::List(
            seq![ValueModel::Bytes(marker@)] + Seq::new(8, |i: int| ValueModel::Int(ints[i])),
        ),
{
    let mut items: Vec<BencodeValue> = Vec::new();
    let first = BencodeValue::Bytes(marker);
    let ghost head = seq![value_model(first)];
    proof {
        lemma_values_model_push(items@, first);
        assert(values_model(Seq::<BencodeValue>::empty()) =~= Seq::<ValueModel>::empty());
    }
    items.push(first);
    assert(values_model(items@) =~= head);
    let mut i: usize = 0;
    while i < 8
        invariant
            i <= 8,
            values_model(items@) == head + Seq::new(i as nat, |j: int| ValueModel::Int(ints[j])),
        decreases 8 - i,
    {
        let next = BencodeValue::Int(ints[i]);
        proof {
            lemma_values_model_push(items@, next);
            assert(head + Seq::new((i + 1) as nat, |j: int| ValueModel::Int(ints[j])) =~= (head
                + Seq::new(i as nat, |j: int| ValueModel::Int(ints[j]))).push(value_model(next)));
        }
        items.push(next);
        i = i + 1;
    }
    BencodeValue::List(items)
}

/// Reads eight integers, each at most the bound, from the values after the marker
fn read_eight_ints(items: &Vec<BencodeValue>, bound: u64) -> (result: Option<[u64; 8]>)
    ensures
        result is Some <==> eight_ints_upto(values_model(items@), bound as int),
        result matches Some(ints) ==> forall|i: int|
            0 <= i < 8 ==> #[trigger] ints[i] == values_model(items@)[i + 1]->Int_0,
{
    proof {
        lemma_values_model_index(items@);
    }
    let ghost models = values_model(items@);
    if items.len() != 9 {
        return None;
    }
    let mut ints = [0u64;8];
    let mut i: usize = 0;
    while i < 8
        invariant
            i <= 8,
            items@.len() == 9,
            models == values_model(items@),
            forall|j: int| 0 <= j < 9 ==> #[trigger] models[j] == value_model(items@[j]),
            forall|j: int| 1 <= j < i + 1 ==> (#[trigger] models[j] is Int && models[j]->Int_0 <= bound),
            forall|j: int| 0 <= j < i ==> #[trigger] ints[j] == models[j + 1]->Int_0,
        decreases 8 - i,
    {
        match &items[i + 1] {
            BencodeValue::Int(n) => {
                if *n > bound {
                    assert(!eight_ints_upto(models, bound as int)) by {
                        assert(models[i + 1] == value_model(items@[i + 1]));
                    }
                    return None;
                }
                ints[i] = *n;
            },
            _ => {
                assert(!eight_ints_upto(models, bound as int)) by {
                    assert(models[i + 1] == value_model(items@[i + 1]));
                }
                return None;
            },
        }
        i = i + 1;
    }
    Some(ints)
}

impl NodeChildren<u32> {
    /// The bencoded form of the children
    pub fn to_bencode_value(&self) -> (value: BencodeValue)
        ensures
            value@ == children_value(*self),
    {
        match &self.content {
            NodeChildrenArray::NoChildren => BencodeValue::Bytes(vec![35u8, 35u8, 120u8, 35u8, 35u8]),
            NodeChildrenArray::Children(keys) => {
                let mut ints = [0u64;8];
                let mut i: usize = 0;
                while i < 8
                    invariant
                        i <= 8,
                        forall|j: int| 0 <= j < i ==> #[trigger] ints[j] == keys[j] as u64,
                    decreases 8 - i,
                {
                    ints[i] = keys[i] as u64;
                    i = i + 1;
                }
                let value = marker_and_ints(vec![35u8, 35u8, 99u8, 35u8, 35u8], ints);
                assert(Seq::new(8, |j: int| ValueModel::Int(ints[j])) =~= Seq::new(
                    8,
                    |j: int| ValueModel::Int(keys[j] as u64),
                ));
                value
            },
            NodeChildrenArray::OccupancyBitmap(bitmap) => {
                let mut items: Vec<BencodeValue> = Vec::new();
                let first = BencodeValue::Bytes(vec![35u8, 35u8, 98u8, 35u8, 35u8]);
                let second = BencodeValue::Int(*bitmap);
                proof {
                    lemma_values_model_push(items@, first);
                    assert(values_model(Seq::<BencodeValue>::empty()) =~= Seq::<ValueModel>::empty());
                }
                items.push(first);
                proof {
                    lemma_values_model_push(items@, second);
                }
                items.push(second);
                let value = BencodeValue::List(items);
                assert(value@ == children_value(*self)) by {
                    assert(values_model(items@) =~= seq![
                        ValueModel::Bytes(bitmap_marker()),
                        ValueModel::Int(*bitmap),
                    ]);
                }
                value
            },
            NodeChildrenArray::OccupancyBitmaps(bitmaps) => marker_and_ints(
                vec![35u8, 35u8, 98u8, 115u8, 35u8, 35u8],
                *bitmaps,
            ),
        }
    }

    /// The children a bencoded value describes; the empty marker is the largest 32 bit number
    pub fn from_bencode_value(value: &BencodeValue) -> (result: Result<Self, BytecodeError>)
        ensures
            result is Ok <==> children_readable(value@),
            result matches Ok(children) ==> children_described(value@, children),
            result matches Err(e) ==> e == BytecodeError::UnexpectedContent,
    {
        match value {
            BencodeValue::Bytes(marker) => {
                if bytes_equal(marker, &[35u8, 35u8, 120u8, 35u8, 35u8]) {
                    Ok(NodeChildren::new(empty_marker()))
                } else {
                    Err(BytecodeError::UnexpectedContent)
                }
            },
            BencodeValue::List(items) => {
                proof {
                    lemma_values_model_index(items@);
                }
                if items.len() == 0 {
                    return Err(BytecodeError::UnexpectedContent);
                }
                let marker = match &items[0] {
                    BencodeValue::Bytes(marker) => marker,
                    _ => {
                        return Err(BytecodeError::UnexpectedContent);
                    },
                };
                assert(values_model(items@)[0] == ValueModel::Bytes(marker@));
                if bytes_equal(marker, &[35u8, 35u8, 99u8, 35u8, 35u8]) {
                    match read_eight_ints(items, 0xFFFF_FFFF) {
                        Some(ints) => {
                            let mut keys = [0u32;8];
                            let mut i: usize = 0;
                            while i < 8
                                invariant
                                    i <= 8,
                                    forall|j: int| 0 <= j < 8 ==> #[trigger] ints[j] <= u32::MAX,
                                    forall|j: int| 0 <= j < i ==> #[trigger] keys[j] == ints[j],
                                decreases 8 - i,
                            {
                                keys[i] = ints[i] as u32;
                                i = i + 1;
                            }
                            Ok(
                                NodeChildren {
                                    empty_marker: empty_marker(),
                                    content: NodeChildrenArray::Children(keys),
                                },
                            )
                        },
                        None => Err(BytecodeError::UnexpectedContent),
                    }
                } else if bytes_equal(marker, &[35u8, 35u8, 98u8, 35u8, 35u8]) {
                    if items.len() != 2 {
                        return Err(BytecodeError::UnexpectedContent);
                    }
                    assert(values_model(items@)[1] == value_model(items@[1]));
                    match &items[1] {
                        BencodeValue::Int(bitmap) => Ok(
                            NodeChildren {
                                empty_marker: empty_marker(),
                                content: NodeChildrenArray::OccupancyBitmap(*bitmap),
                            },
                        ),
                        _ => Err(BytecodeError::UnexpectedContent),
                    }
                } else if bytes_equal(marker, &[35u8, 35u8, 98u8, 115u8, 35u8, 35u8]) {
                    match read_eight_ints(items, 0xFFFF_FFFF_FFFF_FFFF) {
                        Some(bitmaps) => Ok(
                            NodeChildren {
                                empty_marker: empty_marker(),
                                content: NodeChildrenArray::OccupancyBitmaps(bitmaps),
                            },
                        ),
                        None => Err(BytecodeError::UnexpectedContent),
                    }
                } else {
                    Err(BytecodeError::UnexpectedContent)
                }
            },
            BencodeValue::Int(_) => Err(BytecodeError::UnexpectedContent),
        }
    }

    /// The bencoding of the children
    pub fn to_bencode(&self) -> (result: Result<Vec<u8>, BytecodeError>)
        ensures
            result matches Ok(bytes) ==> bytes@ == value_bytes(children_value(*self)),
            result is Ok,
    {
        proof {
            lemma_children_roundtrip(*self, *self);
        }
        encode_value(&self.to_bencode_value())
    }

    /// The children the first bencoded value of the bytes describes; the empty marker is the
    /// largest 32 bit number
    pub fn from_bencode(bytes: &[u8]) -> (result: Result<Self, BytecodeError>)
        ensures
            result is Ok <==> exists|m: ValueModel|
                value_depth(m) <= 2048 && starts_with(bencode_tokens(bytes@), #[trigger] value_tokens(m))
                    && children_readable(m),
            forall|m: ValueModel|
                value_depth(m) <= 2048 && starts_with(bencode_tokens(bytes@), #[trigger] value_tokens(m))
                    ==> (result matches Ok(c) ==> children_described(m, c)),
            forall|children: NodeChildren<u32>|
                bytes@ == #[trigger] value_bytes(children_value(children)) && children.empty_marker
                    == u32::MAX ==> result == Ok::<Self, BytecodeError>(children),
    {
        let decoded = decode_value(bytes);
        proof {
            assert forall|children: NodeChildren<u32>|
                bytes@ == #[trigger] value_bytes(children_value(children)) implies value_depth(
                children_value(children),
            ) <= 2048 && starts_with(bencode_tokens(bytes@), value_tokens(children_value(children))) by {
                lemma_children_roundtrip(children, children);
            }
        }
        match decoded {
            Ok(value) => {
                let result = Self::from_bencode_value(&value);
                proof {
                    assert forall|m: ValueModel|
                        value_depth(m) <= 2048 && starts_with(
                            bencode_tokens(bytes@),
                            #[trigger] value_tokens(m),
                        ) implies m == value@ by {}
                    assert forall|children: NodeChildren<u32>|
                        bytes@ == #[trigger] value_bytes(children_value(children)) && children.empty_marker
                            == u32::MAX implies result == Ok::<Self, BytecodeError>(children) by {
                        assert(value_tokens(children_value(children)) == value_tokens(value@));
                        if let Ok(read) = result {
                            lemma_children_roundtrip(children, read);
                        }
                    }
                }
                result
            },
            Err(e) => Err(e),
        }
    }
}

/// The marker of an empty node
pub open spec fn nothing_marker() -> Seq<u8> {
    seq![35u8]
}

/// The marker of an internal node
pub open spec fn internal_marker() -> Seq<u8> {
    seq![35u8, 35u8]
}

/// The marker of a leaf with eight bricks
pub open spec fn leaf_marker() -> Seq<u8> {
    seq![35u8, 35u8, 35u8]
}

/// The marker of a leaf made of one brick
pub open spec fn uniform_leaf_marker() -> Seq<u8> {
    seq![35u8, 35u8, 117u8, 35u8]
}

/// The bencoded form of the content of a node
pub open spec fn content_value(content: ContentModel<Albedo>) -> ValueModel {
    match content {
        ContentModel::Nothing => ValueModel::Bytes(nothing_marker()),
        ContentModel::Internal(bits) => ValueModel::List(
            seq![ValueModel::Bytes(internal_marker()), ValueModel::Int(bits)],
        ),
        ContentModel::Leaf(bricks) => ValueModel::List(
            seq![ValueModel::Bytes(leaf_marker())] + Seq::new(8, |i: int| brick_value(bricks[i])),
        ),
        ContentModel::UniformLeaf(brick) => ValueModel::List(
            seq![ValueModel::Bytes(uniform_leaf_marker()), brick_value(brick)],
        ),
    }
}

/// The content of a node a bencoded value describes, if it describes one
pub open spec fn content_of_value(value: ValueModel) -> Option<ContentModel<Albedo>> {
    match value {
        ValueModel::Bytes(marker) => if marker == nothing_marker() {
            Some(ContentModel::Nothing)
        } else {
            None
        },
        ValueModel::List(items) => if items.len() == 2 && items[0] == ValueModel::Bytes(
            internal_marker(),
        ) && items[1] is Int {
            Some(ContentModel::Internal(items[1]->Int_0))
        } else if items.len() == 9 && items[0] == ValueModel::Bytes(leaf_marker()) && forall|i: int|
            1 <= i < 9 ==> #[trigger] brick_of_value(items[i]) is Some {
            Some(ContentModel::Leaf(Seq::new(8, |i: int| brick_of_value(items[i + 1])->0)))
        } else if items.len() == 2 && items[0] == ValueModel::Bytes(uniform_leaf_marker())
            && brick_of_value(items[1]) is Some {
            Some(ContentModel::UniformLeaf(brick_of_value(items[1])->0))
        } else {
            None
        },
        ValueModel::Int(_) => None,
    }
}

/// Reading back the bencoded form of the content of a node gives the content, and the form
/// nests lists at most two deep
pub proof fn lemma_content_roundtrip(content: ContentModel<Albedo>)
    requires
        content matches ContentModel::Leaf(bricks) ==> bricks.len() == 8,
    ensures
        content_of_value(content_value(content)) == Some(content),
        value_depth(content_value(content)) <= 2,
{
    assert(internal_marker().len() != leaf_marker().len());
    assert(internal_marker().len() != uniform_leaf_marker().len());
    assert(leaf_marker().len() != uniform_leaf_marker().len());
    match content {
        ContentModel::Nothing => {},
        ContentModel::Internal(bits) => {
            let items = content_value(content)->List_0;
            assert(!(items[0] == ValueModel::Bytes(leaf_marker())));
            assert forall|i: int| 0 <= i < items.len() implies value_depth(#[trigger] items[i]) <= 0 by {}
            lemma_values_depth_bound(items, 0);
        },
        ContentModel::Leaf(bricks) => {
            let items = content_value(content)->List_0;
            assert(!(items[0] == ValueModel::Bytes(internal_marker())));
            assert forall|i: int| 1 <= i < 9 implies #[trigger] brick_of_value(items[i]) is Some by {
                lemma_brick_roundtrip(bricks[i - 1]);
            }
            assert(Seq::new(8, |i: int| brick_of_value(items[i + 1])->0) =~= bricks) by {
                assert forall|i: int| 0 <= i < 8 implies brick_of_value(items[i + 1])->0 == bricks[i] by {
                    lemma_brick_roundtrip(bricks[i]);
                }
            }
            assert forall|i: int| 0 <= i < items.len() implies value_depth(#[trigger] items[i]) <= 1 by {
                if i > 0 {
                    lemma_brick_roundtrip(bricks[i - 1]);
                }
            }
            lemma_values_depth_bound(items, 1);
        },
        ContentModel::UniformLeaf(brick) => {
            let items = content_value(content)->List_0;
            assert(!(items[0] == ValueModel::Bytes(internal_marker())));
            assert(!(items[0] == ValueModel::Bytes(leaf_marker())));
            lemma_brick_roundtrip(brick);
            assert forall|i: int| 0 <= i < items.len() implies value_depth(#[trigger] items[i]) <= 1 by {}
            lemma_values_depth_bound(items, 1);
        },
    }
}

impl NodeContent<Albedo> {
    /// The bencoded form of the content
    pub fn to_bencode_value(&self) -> (value: BencodeValue)
        ensures
            value@ == content_value(self@),
    {
        let mut items: Vec<BencodeValue> = Vec::new();
        proof {
            assert(values_model(Seq::<BencodeValue>::empty()) =~= Seq::<ValueModel>::empty());
        }
        match self {
            NodeContent::Nothing => {
                let marker = vec![35u8];
                assert(marker@ =~= nothing_marker());
                return BencodeValue::Bytes(marker);
            },
            NodeContent::Internal(bits) => {
                let first = BencodeValue::Bytes(vec![35u8, 35u8]);
                let second = BencodeValue::Int(*bits);
                proof {
                    lemma_values_model_push(items@, first);
                }
                items.push(first);
                proof {
                    lemma_values_model_push(items@, second);
                }
                items.push(second);
                assert(values_model(items@) =~= seq![
                    ValueModel::Bytes(internal_marker()),
                    ValueModel::Int(*bits),
                ]);
            },
            NodeContent::Leaf(bricks) => {
                let first = BencodeValue::Bytes(vec![35u8, 35u8, 35u8]);
                let ghost head = seq![value_model(first)];
                proof {
                    lemma_values_model_push(items@, first);
                }
                items.push(first);
                assert(values_model(items@) =~= head);
                let ghost models = Seq::new(8, |i: int| bricks[i]@);
                let mut i: usize = 0;
                while i < 8
                    invariant
                        i <= 8,
                        models == Seq::new(8, |j: int| bricks[j]@),
                        values_model(items@) == head + Seq::new(
                            i as nat,
                            |j: int| brick_value(models[j]),
                        ),
                    decreases 8 - i,
                {
                    let next = bricks[i].to_bencode_value();
                    proof {
                        lemma_values_model_push(items@, next);
                        assert(head + Seq::new((i + 1) as nat, |j: int| brick_value(models[j])) =~= (
                        head + Seq::new(i as nat, |j: int| brick_value(models[j]))).push(
                            value_model(next),
                        ));
                    }
                    items.push(next);
                    i = i + 1;
                }
            },
            NodeContent::UniformLeaf(brick) => {
                let first = BencodeValue::Bytes(vec![35u8, 35u8, 117u8, 35u8]);
                let second = brick.to_bencode_value();
                proof {
                    lemma_values_model_push(items@, first);
                }
                items.push(first);
                proof {
                    lemma_values_model_push(items@, second);
                }
                items.push(second);
                assert(values_model(items@) =~= seq![
                    ValueModel::Bytes(uniform_leaf_marker()),
                    brick_value(brick@),
                ]);
            },
        }
        BencodeValue::List(items)
    }

    /// The content a bencoded value describes. The occupancy bits of an internal node are read
    /// back whole, as the 64 bits they are written with.
    pub fn from_bencode_value(value: &BencodeValue) -> (result: Result<Self, BytecodeError>)
        ensures
            match content_of_value(value@) {
                Some(content) => result matches Ok(c) && c@ == content,
                None => result == Err::<Self, BytecodeError>(BytecodeError::UnexpectedContent),
            },
    {
        assert(internal_marker().len() != leaf_marker().len());
        assert(internal_marker().len() != uniform_leaf_marker().len());
        assert(leaf_marker().len() != uniform_leaf_marker().len());
        match value {
            BencodeValue::Bytes(marker) => {
                let expected: [u8; 1] = [35u8];
                assert(expected@ =~= nothing_marker());
                if bytes_equal(marker, &expected) {
                    Ok(NodeContent::Nothing)
                } else {
                    Err(BytecodeError::UnexpectedContent)
                }
            },
            BencodeValue::List(items) => {
                proof {
                    lemma_values_model_index(items@);
                }
                let ghost models = values_model(items@);
                if items.len() == 0 {
                    return Err(BytecodeError::UnexpectedContent);
                }
                let marker = match &items[0] {
                    BencodeValue::Bytes(marker) => marker,
                    _ => {
                        return Err(BytecodeError::UnexpectedContent);
                    },
                };
                assert(models[0] == ValueModel::Bytes(marker@));
                if bytes_equal(marker, &[35u8, 35u8]) {
                    if items.len() != 2 {
                        return Err(BytecodeError::UnexpectedContent);
                    }
                    assert(models[1] == value_model(items@[1]));
                    match &items[1] {
                        BencodeValue::Int(bits) => Ok(NodeContent::Internal(*bits)),
                        _ => Err(BytecodeError::UnexpectedContent),
                    }
                } else if bytes_equal(marker, &[35u8, 35u8, 35u8]) {
                    if items.len() != 9 {
                        return Err(BytecodeError::UnexpectedContent);
                    }
                    let mut bricks: [BrickData<Albedo>; 8] = [
                        BrickData::Empty,
                        BrickData::Empty,
                        BrickData::Empty,
                        BrickData::Empty,
                        BrickData::Empty,
                        BrickData::Empty,
                        BrickData::Empty,
                        BrickData::Empty,
                    ];
                    let mut i: usize = 0;
                    while i < 8
                        invariant
                            i <= 8,
                            items@.len() == 9,
                            *value == BencodeValue::List(*items),
                            models[0] == ValueModel::Bytes(leaf_marker()),
                            internal_marker().len() != leaf_marker().len(),
                            models == values_model(items@),
                            forall|j: int| 0 <= j < 9 ==> #[trigger] models[j] == value_model(items@[j]),
                            forall|j: int| 1 <= j < i + 1 ==> #[trigger] brick_of_value(models[j]) is Some,
                            forall|j: int|
                                0 <= j < i ==> #[trigger] bricks[j]@ == brick_of_value(models[j + 1])->0,
                        decreases 8 - i,
                    {
                        match BrickData::from_bencode_value(&items[i + 1]) {
                            Ok(brick) => {
                                bricks[i] = brick;
                            },
                            Err(e) => {
                                assert(content_of_value(value@) is None) by {
                                    assert(brick_of_value(models[i + 1]) is None);
                                }
                                return Err(e);
                            },
                        }
                        i = i + 1;
                    }
                    let content = NodeContent::Leaf(bricks);
                    assert(forall|j: int| 1 <= j < 9 ==> #[trigger] brick_of_value(models[j]) is Some);
                    assert(content_of_value(value@) is Some);
                    assert(content@ == content_of_value(value@)->0) by {
                        assert(Seq::new(8, |j: int| bricks[j]@) =~= Seq::new(
                            8,
                            |j: int| brick_of_value(models[j + 1])->0,
                        ));
                    }
                    Ok(content)
                } else if bytes_equal(marker, &[35u8, 35u8, 117u8, 35u8]) {
                    if items.len() != 2 {
                        return Err(BytecodeError::UnexpectedContent);
                    }
                    assert(models[1] == value_model(items@[1]));
                    match BrickData::from_bencode_value(&items[1]) {
                        Ok(brick) => {
                            assert(content_of_value(value@) is Some);
                            Ok(NodeContent::UniformLeaf(brick))
                        },
                        Err(e) => Err(e),
                    }
                } else {
                    Err(BytecodeError::UnexpectedContent)
                }
            },
            BencodeValue::Int(_) => Err(BytecodeError::UnexpectedContent),
        }
    }

    /// The bencoding of the content
    pub fn to_bencode(&self) -> (result: Result<Vec<u8>, BytecodeError>)
        ensures
            result matches Ok(bytes) ==> bytes@ == value_bytes(content_value(self@)),
            result is Ok,
    {
        proof {
            lemma_content_roundtrip(self@);
        }
        encode_value(&self.to_bencode_value())
    }

    /// The content the first bencoded value of the bytes describes
    pub fn from_bencode(bytes: &[u8]) -> (result: Result<Self, BytecodeError>)
        ensures
            result is Ok <==> exists|m: ValueModel|
                value_depth(m) <= 2048 && starts_with(bencode_tokens(bytes@), #[trigger] value_tokens(m))
                    && content_of_value(m) is Some,
            forall|m: ValueModel|
                value_depth(m) <= 2048 && starts_with(bencode_tokens(bytes@), #[trigger] value_tokens(m))
                    ==> (result matches Ok(c) ==> content_of_value(m) == Some(c@)),
            forall|content: ContentModel<Albedo>|
                bytes@ == #[trigger] value_bytes(content_value(content)) && (content matches ContentModel::Leaf(
                    bricks,
                ) ==> bricks.len() == 8) ==> (result matches Ok(c) && c@ == content),
    {
        let decoded = decode_value(bytes);
        proof {
            assert forall|content: ContentModel<Albedo>|
                bytes@ == #[trigger] value_bytes(content_value(content)) && (content matches ContentModel::Leaf(
                    bricks,
                ) ==> bricks.len() == 8) implies value_depth(content_value(content)) <= 2048
                && starts_with(bencode_tokens(bytes@), value_tokens(content_value(content))) by {
                lemma_content_roundtrip(content);
            }
        }
        match decoded {
            Ok(value) => {
                let result = Self::from_bencode_value(&value);
                proof {
                    assert forall|m: ValueModel|
                        value_depth(m) <= 2048 && starts_with(
                            bencode_tokens(bytes@),
                            #[trigger] value_tokens(m),
                        ) implies m == value@ by {}
                    assert forall|content: ContentModel<Albedo>|
                        bytes@ == #[trigger] value_bytes(content_value(content)) && (content matches ContentModel::Leaf(
                            bricks,
                        ) ==> bricks.len() == 8) implies (result matches Ok(c) && c@ == content) by {
                        lemma_content_roundtrip(content);
                        assert(value_tokens(content_value(content)) == value_tokens(value@));
                    }
                }
                result
            },
            Err(e) => Err(e),
        }
    }
}

/// A type whose values are written as bencode values and read back from them
pub trait BencodeItem: Sized {
    /// The form of a value that its bencoding keeps
    type Model;

    /// The form of this value
    spec fn item_model(&self) -> Self::Model;

    /// Whether values of the type can have the form
    spec fn model_ok(model: Self::Model) -> bool;

    /// The bencode value a form is written as
    spec fn model_value(model: Self::Model) -> ValueModel;

    /// The form a bencode value describes, if it describes one
    spec fn value_item_model(value: ValueModel) -> Option<Self::Model>;

    /// Every value has a form values of the type can have
    proof fn lemma_item_model_ok(item: &Self)
        ensures
            Self::model_ok(item.item_model()),
    ;

    /// Reading back the bencode value of a form gives the form; lists nest at most 4 deep in it
    proof fn lemma_model_roundtrip(model: Self::Model)
        requires
            Self::model_ok(model),
        ensures
            Self::value_item_model(Self::model_value(model)) == Some(model),
            value_depth(Self::model_value(model)) <= 4,
    ;

    /// The bencode value of the item
    fn item_to_value(&self) -> (value: BencodeValue)
        ensures
            value@ == Self::model_value(self.item_model()),
    ;

    /// The item a bencode value describes
    fn item_from_value(value: &BencodeValue) -> (result: Result<Self, BytecodeError>)
        ensures
            match Self::value_item_model(value@) {
                Some(model) => result matches Ok(item) && item.item_model() == model,
                None => result matches Err(e) && e == BytecodeError::UnexpectedContent,
            },
    ;
}

impl BencodeItem for BrickData<Albedo> {
    type Model = BrickModel<Albedo>;

    open spec fn item_model(&self) -> BrickModel<Albedo> {
        self@
    }

    open spec fn model_ok(model: BrickModel<Albedo>) -> bool {
        true
    }

    open spec fn model_value(model: BrickModel<Albedo>) -> ValueModel {
        brick_value(model)
    }

    open spec fn value_item_model(value: ValueModel) -> Option<BrickModel<Albedo>> {
        brick_of_value(value)
    }

    proof fn lemma_item_model_ok(item: &Self) {
    }

    proof fn lemma_model_roundtrip(model: BrickModel<Albedo>) {
        lemma_brick_roundtrip(model);
    }

    fn item_to_value(&self) -> (value: BencodeValue) {
        self.to_bencode_value()
    }

    fn item_from_value(value: &BencodeValue) -> (result: Result<Self, BytecodeError>) {
        Self::from_bencode_value(value)
    }
}

impl BencodeItem for NodeContent<Albedo> {
    type Model = ContentModel<Albedo>;

    open spec fn item_model(&self) -> ContentModel<Albedo> {
        self@
    }

    open spec fn model_ok(model: ContentModel<Albedo>) -> bool {
        model matches ContentModel::Leaf(bricks) ==> bricks.len() == 8
    }

    open spec fn model_value(model: ContentModel<Albedo>) -> ValueModel {
        content_value(model)
    }

    open spec fn value_item_model(value: ValueModel) -> Option<ContentModel<Albedo>> {
        content_of_value(value)
    }

    proof fn lemma_item_model_ok(item: &Self) {
    }

    proof fn lemma_model_roundtrip(model: ContentModel<Albedo>) {
        lemma_content_roundtrip(model);
    }

    fn item_to_value(&self) -> (value: BencodeValue) {
        self.to_bencode_value()
    }

    fn item_from_value(value: &BencodeValue) -> (result: Result<Self, BytecodeError>) {
        Self::from_bencode_value(value)
    }
}

} // verus!
