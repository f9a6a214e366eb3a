//! Decoding of token ids with the vocabulary that the model carries.
//!
//! Two conventions of the vocabulary are undone on the way back to bytes:
//!
//! - The character U+2581 stands for a space.
//! - A byte without a text form of its own is a token `<0xNN>`. Such a token
//!   gives one raw byte; a character that takes several bytes is spread over
//!   several such tokens, so that only the bytes of a run of tokens together are
//!   text.

use vstd::prelude::*;
use vstd::utf8::*;

use crate::gguf::Model;
use crate::gguf::Value;
use crate::gguf::ValueView;

verus! {

/// Why a model has no vocabulary.
#[derive(Debug, Clone, Copy, PartialEq, Eq, Structural)]
pub enum TokenizerError {
    /// The metadata has no `tokenizer.ggml.tokens`.
    MissingTokens,
    /// `tokenizer.ggml.tokens` is not an array.
    NotAnArray,
    /// The entry at `index` is not a string.
    EntryNotString { index: usize },
}

/// The texts of the first `n` values, or the first of them that is none.
pub open spec fn texts_of(values: Seq<ValueView>, n: nat) -> Result<Seq<Seq<char>>, TokenizerError>
    decreases n,
{
    if n == 0 {
        Ok(Seq::empty())
    } else {
        match texts_of(values, (n - 1) as nat) {
            Ok(texts) => match values[n - 1] {
                ValueView::Text(s) => Ok(texts.push(s)),
                _ => Err(TokenizerError::EntryNotString { index: (n - 1) as usize }),
            },
            Err(e) => Err(e),
        }
    }
}

/// The vocabulary that metadata holds.
pub open spec fn vocabulary_of(metadata: Map<Seq<char>, ValueView>) -> Result<
    Seq<Seq<char>>,
    TokenizerError,
> {
    let key = "tokenizer.ggml.tokens"@;
    if !metadata.contains_key(key) {
        Err(TokenizerError::MissingTokens)
    } else {
        match metadata[key] {
            ValueView::Array(values) => texts_of(values, values.len()),
            _ => Err(TokenizerError::NotAnArray),
        }
    }
}

/// The value of a hexadecimal digit.
pub open spec fn hex_digit(c: u8) -> Option<u8> {
    if 0x30 <= c <= 0x39 {
        Some((c - 0x30) as u8)
    } else if 0x41 <= c <= 0x46 {
        Some((c - 0x41 + 10) as u8)
    } else if 0x61 <= c <= 0x66 {
        Some((c - 0x61 + 10) as u8)
    } else {
        None
    }
}

/// The byte that two characters spell in hexadecimal: two digits, or a plus sign
/// and a digit.
pub open spec fn hex_byte(h: u8, l: u8) -> Option<u8> {
    match hex_digit(l) {
        Some(low) => if h == 0x2b {
            Some(low)
        } else {
            match hex_digit(h) {
                Some(high) => Some((16 * high + low) as u8),
                None => None,
            }
        },
        None => None,
    }
}

/// The byte that a token of the form `<0xNN>` stands for.
pub open spec fn fallback_byte(token: Seq<u8>) -> Option<u8> {
    if token.len() == 6 && token[0] == 0x3c && token[1] == 0x30 && token[2] == 0x78 && token[5]
        == 0x3e {
        hex_byte(token[3], token[4])
    } else {
        None
    }
}

/// A text with each U+2581 replaced by a space.
pub open spec fn with_spaces(text: Seq<char>) -> Seq<char> {
    text.map_values(
        |c: char|
            if c == '\u{2581}' {
                ' '
            } else {
                c
            },
    )
}

/// The bytes that a vocabulary entry stands for.
pub open spec fn token_bytes(token: Seq<char>) -> Seq<u8> {
    match fallback_byte(encode_utf8(token)) {
        Some(b) => seq![b],
        None => encode_utf8(with_spaces(token)),
    }
}

/// The bytes that a token id stands for; none for an id outside the vocabulary.
pub open spec fn decoded(vocab: Seq<Seq<char>>, id: int) -> Seq<u8> {
    if 0 <= id < vocab.len() {
        token_bytes(vocab[id])
    } else {
        Seq::empty()
    }
}

fn hex_digit_value(c: u8) -> (r: Option<u8>)
    ensures
        r == hex_digit(c),
{
    if 0x30 <= c && c <= 0x39 {
        Some(c - 0x30)
    } else if 0x41 <= c && c <= 0x46 {
        Some(c - 0x41 + 10)
    } else if 0x61 <= c && c <= 0x66 {
        Some(c - 0x61 + 10)
    } else {
        None
    }
}

fn hex_byte_value(h: u8, l: u8) -> (r: Option<u8>)
    ensures
        r == hex_byte(h, l),
{
    match hex_digit_value(l) {
        Some(low) => if h == 0x2b {
            Some(low)
        } else {
            match hex_digit_value(h) {
                Some(high) => Some(16 * high + low),
                None => None,
            }
        },
        None => None,
    }
}

/// Turns token ids into bytes.
#[derive(Debug)]
pub struct TokenDecoder {
    vocab: Vec<String>,
}

/// The texts of a sequence of strings.
spec fn strings_view(s: Seq<String>) -> Seq<Seq<char>> {
    Seq::new(s.len(), |i: int| s[i]@)
}

impl TokenDecoder {
    /// The vocabulary.
    pub closed spec fn view(&self) -> Seq<Seq<char>> {
        strings_view(self.vocab@)
    }

    /// Takes the vocabulary out of a model's metadata.
    pub fn from_model(model: &Model<'_>) -> (r: Result<Self, TokenizerError>)
        ensures
            match vocabulary_of(model@.metadata) {
                Ok(v) => r matches Ok(d) && d@ == v,
                Err(e) => r matches Err(f) && f == e,
            },
    {
        let tokens = match model.metadata.get("tokenizer.ggml.tokens") {
            Some(v) => v,
            None => {
                return Err(TokenizerError::MissingTokens);
            },
        };
        let arr = match tokens {
            Value::Array(arr) => arr,
            _ => {
                return Err(TokenizerError::NotAnArray);
            },
        };
        let ghost values = Value::views(arr@);
        proof {
            crate::gguf::lemma_views(arr@);
        }
        let mut vocab: Vec<String> = Vec::new();
        assert(strings_view(vocab@) =~= Seq::empty());
        for i in 0..arr.len()
            invariant
                values.len() == arr@.len(),
                forall|j: int| 0 <= j < arr@.len() ==> #[trigger] values[j] == arr@[j]@,
                texts_of(values, i as nat) == Ok::<Seq<Seq<char>>, TokenizerError>(
                    strings_view(vocab@),
                ),
                vocabulary_of(model@.metadata) == texts_of(values, values.len()),
        {
            assert(values[i as int] == arr@[i as int]@);
            match &arr[i] {
                Value::String(s) => {
                    let ghost seen = vocab@;
                    vocab.push(s.clone());
                    assert(strings_view(vocab@) =~= strings_view(seen).push(s@));
                },
                _ => {
                    proof {
                        lemma_texts_stop(values, (i + 1) as nat, values.len());
                    }
                    return Err(TokenizerError::EntryNotString { index: i });
                },
            }
        }
        Ok(TokenDecoder { vocab })
    }

    /// How many tokens the vocabulary has.
    pub fn vocab_size(&self) -> (n: usize)
        ensures
            n == self@.len(),
    {
        self.vocab.len()
    }

    /// The raw bytes that one token id stands for.
    pub fn decode_one_bytes(&self, token_id: usize) -> (bytes: Vec<u8>)
        ensures
            bytes@ == decoded(self@, token_id as int),
    {
        if token_id >= self.vocab.len() {
            return Vec::new();
        }
        let raw = self.vocab[token_id].as_str();
        let b = raw.as_bytes();
        if b.len() == 6 && b[0] == 0x3c && b[1] == 0x30 && b[2] == 0x78 && b[5] == 0x3e {
            if let Some(byte) = hex_byte_value(b[3], b[4]) {
                let mut one: Vec<u8> = Vec::new();
                one.push(byte);
                assert(one@ =~= seq![byte]);
                return one;
            }
        }
        let mut out: Vec<u8> = Vec::new();
        let ghost text = raw@;
        assert(with_spaces(text).take(0) =~= Seq::<char>::empty());
        for c in it: raw.chars()
            invariant
                it.seq() == text,
                out@ == encode_utf8(with_spaces(text).take(it.index() as int)),
        {
            let ghost i = it.index() as int;
            let d: char = if c == '\u{2581}' {
                ' '
            } else {
                c
            };
            crate::text::push_utf8(&mut out, d);
            proof {
                crate::text::lemma_encode_push(with_spaces(text).take(i), d);
                assert(with_spaces(text).take(i + 1) =~= with_spaces(text).take(i).push(d));
            }
        }
        assert(with_spaces(text).take(text.len() as int) =~= with_spaces(text));
        out
    }

    /// The text of one token id, with a stand-in for bytes that are no text of
    /// their own.
    pub fn decode_one_lossy(&self, token_id: usize) -> (text: String)
        ensures
            text@ == crate::text::lossy_text(decoded(self@, token_id as int)),
            valid_utf8(decoded(self@, token_id as int)) ==> text@ == decode_utf8(
                decoded(self@, token_id as int),
            ),
    {
        let bytes = self.decode_one_bytes(token_id);
        crate::text::utf8_lossy(bytes.as_slice())
    }
}

/// Once an entry is no text, the vocabulary is refused for it, whatever follows.
proof fn lemma_texts_stop(values: Seq<ValueView>, m: nat, n: nat)
    requires
        m <= n,
        texts_of(values, m) is Err,
    ensures
        texts_of(values, n) == texts_of(values, m),
    decreases n,
{
    if m < n {
        lemma_texts_stop(values, m, (n - 1) as nat);
    }
}

/// A token gives one raw byte or well-formed text: nothing but byte-fallback
/// tokens can break a character up.
pub proof fn law_token_is_byte_or_text(token: Seq<char>)
    ensures
        token_bytes(token).len() == 1 || valid_utf8(token_bytes(token)),
        fallback_byte(encode_utf8(token)) is None ==> decode_utf8(token_bytes(token))
            == with_spaces(token),
{
    encode_utf8_valid_utf8(with_spaces(token));
    encode_utf8_decode_utf8(with_spaces(token));
}

/// Every byte has its token: spelled with the two hexadecimal digits of a byte, in
/// capitals or not, a byte-fallback token gives that byte back, whatever the byte
/// is. So the tokens of different bytes give different bytes.
pub proof fn law_byte_tokens_round_trip(b: u8, high: Seq<char>, low: Seq<char>)
    requires
        high == seq![
            '0', '1', '2', '3', '4', '5', '6', '7', '8', '9', 'A', 'B', 'C', 'D', 'E', 'F',
        ] || high == seq![
            '0', '1', '2', '3', '4', '5', '6', '7', '8', '9', 'a', 'b', 'c', 'd', 'e', 'f',
        ],
        low == seq![
            '0', '1', '2', '3', '4', '5', '6', '7', '8', '9', 'A', 'B', 'C', 'D', 'E', 'F',
        ] || low == seq![
            '0', '1', '2', '3', '4', '5', '6', '7', '8', '9', 'a', 'b', 'c', 'd', 'e', 'f',
        ],
    ensures
        token_bytes(seq!['<', '0', 'x', high[b as int / 16], low[b as int % 16], '>']) == seq![b],
        b < 16 ==> token_bytes(seq!['<', '0', 'x', '+', low[b as int], '>']) == seq![b],
{
    let (h, l) = (b as int / 16, b as int % 16);
    assert(0 <= h < 16 && 0 <= l < 16 && b == 16 * h + l);
    let t = seq!['<', '0', 'x', high[h], low[l], '>'];
    is_ascii_chars_encode_utf8(t);
    assert(hex_digit(high[h] as u8) == Some(h as u8));
    assert(hex_digit(low[l] as u8) == Some(l as u8));
    is_ascii_chars_encode_utf8(seq!['<', '0', 'x', '+', low[l], '>']);
}

/// A token that is not spelled as a byte keeps its text, but for U+2581, which
/// becomes a space: as many characters, and each other one as it was.
pub proof fn law_text_tokens_keep_their_text(token: Seq<char>)
    requires
        ({
            let b = encode_utf8(token);
            !(b.len() == 6 && b[0] == 0x3c && b[1] == 0x30 && b[2] == 0x78 && b[5] == 0x3e && (
            0x30 <= b[4] <= 0x39 || 0x41 <= b[4] <= 0x46 || 0x61 <= b[4] <= 0x66) && (b[3] == 0x2b
                || 0x30 <= b[3] <= 0x39 || 0x41 <= b[3] <= 0x46 || 0x61 <= b[3] <= 0x66))
        }),
    ensures
        valid_utf8(token_bytes(token)),
        decode_utf8(token_bytes(token)).len() == token.len(),
        forall|i: int|
            0 <= i < token.len() ==> #[trigger] decode_utf8(token_bytes(token))[i] == (if token[i]
                == '\u{2581}' {
                ' '
            } else {
                token[i]
            }),
{
    assert(fallback_byte(encode_utf8(token)) is None);
    encode_utf8_valid_utf8(with_spaces(token));
    encode_utf8_decode_utf8(with_spaces(token));
}

/// Ids outside the vocabulary give nothing, and each id within it what its own
/// entry gives, whatever the other entries are.
pub proof fn law_ids_decode_by_their_entry(vocab: Seq<Seq<char>>, id: int)
    ensures
        !(0 <= id < vocab.len()) ==> decoded(vocab, id).len() == 0,
        0 <= id < vocab.len() ==> decoded(vocab, id) == token_bytes(vocab[id]),
{
}

/// A vocabulary is taken as it stands: it has one text for each value of the array,
/// in the same order, and is refused for the first value that is no text.
pub proof fn law_vocabulary_is_the_array(metadata: Map<Seq<char>, ValueView>)
    requires
        metadata.contains_key("tokenizer.ggml.tokens"@),
        metadata["tokenizer.ggml.tokens"@] is Array,
    ensures
        ({
            let values = metadata["tokenizer.ggml.tokens"@]->Array_0;
            match vocabulary_of(metadata) {
                Ok(vocab) => {
                    &&& vocab.len() == values.len()
                    &&& forall|i: int|
                        0 <= i < values.len() ==> values[i] == ValueView::Text(#[trigger] vocab[i])
                },
                Err(e) => exists|i: int|
                    {
                        &&& 0 <= i < values.len()
                        &&& !((#[trigger] values[i]) is Text)
                        &&& e == TokenizerError::EntryNotString { index: i as usize }
                        &&& forall|j: int| 0 <= j < i ==> #[trigger] values[j] is Text
                    },
            }
        }),
{
    let values = metadata["tokenizer.ggml.tokens"@]->Array_0;
    lemma_texts(values, values.len());
}

/// What the first `n` values of an array give as a vocabulary.
proof fn lemma_texts(values: Seq<ValueView>, n: nat)
    requires
        n <= values.len(),
    ensures
        match texts_of(values, n) {
            Ok(vocab) => {
                &&& vocab.len() == n
                &&& forall|i: int|
                    0 <= i < n ==> values[i] == ValueView::Text(#[trigger] vocab[i])
            },
            Err(e) => exists|i: int|
                {
                    &&& 0 <= i < n
                    &&& !((#[trigger] values[i]) is Text)
                    &&& e == TokenizerError::EntryNotString { index: i as usize }
                    &&& forall|j: int| 0 <= j < i ==> #[trigger] values[j] is Text
                },
        },
    decreases n,
{
    if n > 0 {
        lemma_texts(values, (n - 1) as nat);
        if texts_of(values, (n - 1) as nat) is Ok {
            let before = texts_of(values, (n - 1) as nat)->Ok_0;
            if !(values[n - 1] is Text) {
                assert forall|j: int| 0 <= j < n - 1 implies #[trigger] values[j] is Text by {
                    assert(values[j] == ValueView::Text(before[j]));
                }
            }
        }
    }
}

/// A model without the array of tokens has no vocabulary.
pub proof fn law_vocabulary_needs_the_array(metadata: Map<Seq<char>, ValueView>)
    ensures
        !metadata.contains_key("tokenizer.ggml.tokens"@) ==> vocabulary_of(metadata) == Err::<
            Seq<Seq<char>>,
            TokenizerError,
        >(TokenizerError::MissingTokens),
        metadata.contains_key("tokenizer.ggml.tokens"@) && !(
        metadata["tokenizer.ggml.tokens"@] is Array) ==> vocabulary_of(metadata) == Err::<
            Seq<Seq<char>>,
            TokenizerError,
        >(TokenizerError::NotAnArray),
{
}

} // verus!
