//! The vocabulary a GGUF file carries in its metadata: the token texts
//! (`tokenizer.ggml.tokens`), their scores (`tokenizer.ggml.scores`) and
//! their types (`tokenizer.ggml.token_type`).
use vstd::prelude::*;
use vstd::hash_map::StringHashMap;
use crate::gguf::parser::{lemma_values_view, meta_view, GgufHeader, MetaModel, MetadataValue};
use crate::text::chars_of;
use crate::tokenizer::merges::{is_nan_bits, texts, token_set};

verus! {

broadcast use vstd::std_specs::hash::group_hash_axioms;

/// Why a tokenizer could not be made or used.
#[derive(Debug, PartialEq, Eq, Structural, Clone, Copy)]
pub enum TokenizerError {
    /// The metadata has no `tokenizer.ggml.tokens` array.
    MissingTokens,
    /// The tokenizer failed to encode the text.
    Encode,
    /// The tokenizer failed to decode the ids.
    Decode,
}

/// The array stored under `key`, if the metadata has one there.
pub open spec fn meta_array(m: Map<Seq<char>, MetaModel>, key: Seq<char>) -> Option<Seq<MetaModel>> {
    if m.contains_key(key) {
        match m[key] {
            MetaModel::Array(a) => Some(a),
            _ => None,
        }
    } else {
        None
    }
}

/// A token's text: a string value, or the empty text for any other value.
pub open spec fn token_text(v: MetaModel) -> Seq<char> {
    match v {
        MetaModel::String(s) => s,
        _ => Seq::empty(),
    }
}

/// A score: the bit pattern of a 32-bit float value, or of 0.0 for any
/// other value.
pub open spec fn score_bits(v: MetaModel) -> u32 {
    match v {
        MetaModel::Float32(b) => b,
        _ => 0u32,
    }
}

/// A token type: a 32-bit integer value, or 1 (normal) for any other value.
pub open spec fn token_type_of(v: MetaModel) -> i32 {
    match v {
        MetaModel::Int32(i) => i,
        _ => 1i32,
    }
}

/// The mathematical model of a vocabulary.
pub struct VocabModel {
    pub tokens: Seq<Seq<char>>,
    pub scores: Seq<u32>,
    pub types: Seq<i32>,
}

/// The vocabulary of the metadata: `None` without a token array; a missing
/// score array gives every token 0.0, a missing type array gives type 1.
pub open spec fn spec_vocab(m: Map<Seq<char>, MetaModel>) -> Option<VocabModel> {
    match meta_array(m, "tokenizer.ggml.tokens"@) {
        None => None,
        Some(ts) => Some(
            VocabModel {
                tokens: ts.map_values(|v: MetaModel| token_text(v)),
                scores: match meta_array(m, "tokenizer.ggml.scores"@) {
                    Some(a) => a.map_values(|v: MetaModel| score_bits(v)),
                    None => Seq::new(ts.len(), |i: int| 0u32),
                },
                types: match meta_array(m, "tokenizer.ggml.token_type"@) {
                    Some(a) => a.map_values(|v: MetaModel| token_type_of(v)),
                    None => Seq::new(ts.len(), |i: int| 1i32),
                },
            },
        ),
    }
}

/// The vocabulary keeps what the metadata arrays hold: token `i` is the
/// text of entry `i` of `tokenizer.ggml.tokens` when that is a string, its
/// score the bit pattern of entry `i` of `tokenizer.ggml.scores` when that
/// is a 32-bit float, and its type entry `i` of `tokenizer.ggml.token_type`
/// when that is a 32-bit signed integer; each array gives one value per
/// entry.
pub proof fn law_vocab_keeps_metadata_values(m: Map<Seq<char>, MetaModel>, i: int)
    requires
        m.contains_key("tokenizer.ggml.tokens"@),
        m["tokenizer.ggml.tokens"@] is Array,
    ensures
        spec_vocab(m) is Some,
        ({
            let v = spec_vocab(m)->Some_0;
            let ts = m["tokenizer.ggml.tokens"@]->Array_0;
            &&& v.tokens.len() == ts.len()
            &&& (0 <= i < ts.len() && ts[i] is String ==> v.tokens[i] == ts[i]->String_0)
            &&& (m.contains_key("tokenizer.ggml.scores"@) && m["tokenizer.ggml.scores"@] is Array ==> {
                let a = m["tokenizer.ggml.scores"@]->Array_0;
                &&& v.scores.len() == a.len()
                &&& (0 <= i < a.len() && a[i] is Float32 ==> v.scores[i] == a[i]->Float32_0)
            })
            &&& (m.contains_key("tokenizer.ggml.token_type"@) && m["tokenizer.ggml.token_type"@] is Array ==> {
                let a = m["tokenizer.ggml.token_type"@]->Array_0;
                &&& v.types.len() == a.len()
                &&& (0 <= i < a.len() && a[i] is Int32 ==> v.types[i] == a[i]->Int32_0)
            })
        }),
{
}

/// What building a tokenizer needs of a vocabulary: a score per token, a
/// type for each token, the three special tokens (unknown, begin, end),
/// ids that fit in `u32`, and no NaN score.
pub open spec fn vocab_ready(v: VocabModel) -> bool {
    &&& v.scores.len() == v.tokens.len()
    &&& v.types.len() >= v.tokens.len()
    &&& 3 <= v.tokens.len() < 0x1_0000_0000
    &&& forall|i: int| 0 <= i < v.scores.len() ==> !is_nan_bits(#[trigger] v.scores[i])
}

/// A vocabulary read from GGUF metadata.
pub struct GgufVocab {
    pub tokens: Vec<String>,
    /// The bit patterns of the 32-bit float scores.
    pub scores: Vec<u32>,
    pub token_types: Vec<i32>,
}

impl View for GgufVocab {
    type V = VocabModel;

    open spec fn view(&self) -> VocabModel {
        VocabModel { tokens: texts(self.tokens@), scores: self.scores@, types: self.token_types@ }
    }
}

impl GgufVocab {
    /// Whether a tokenizer can be built from this vocabulary (see
    /// [`vocab_ready`]).
    pub fn ready(&self) -> (b: bool)
        ensures
            b == vocab_ready(self@),
    {
        let n = self.tokens.len();
        if self.scores.len() != n || self.token_types.len() < n || n < 3 || n as u64
            >= 0x1_0000_0000u64 {
            return false;
        }
        let mut i: usize = 0;
        while i < n
            invariant
                n == self.scores@.len(),
                i <= n,
                forall|k: int| 0 <= k < i ==> !is_nan_bits(#[trigger] self.scores@[k]),
            decreases n - i,
        {
            if self.scores[i] & 0x7fff_ffff > 0x7f80_0000 {
                return false;
            }
            i += 1;
        }
        true
    }
}

/// The texts of an array's values.
fn array_texts(arr: &Vec<MetadataValue>) -> (r: Vec<String>)
    ensures
        texts(r@) == crate::gguf::parser::values_view(arr@).map_values(|v: MetaModel| token_text(v)),
{
    proof {
        lemma_values_view(arr@);
    }
    let ghost model = crate::gguf::parser::values_view(arr@);
    let mut r: Vec<String> = Vec::new();
    let mut i: usize = 0;
    while i < arr.len()
        invariant
            i <= arr@.len(),
            model == crate::gguf::parser::values_view(arr@),
            model.len() == arr@.len(),
            forall|k: int| 0 <= k < arr@.len() ==> #[trigger] model[k] == arr@[k]@,
            r@.len() == i,
            forall|k: int| 0 <= k < i ==> #[trigger] r@[k]@ == token_text(model[k]),
        decreases arr@.len() - i,
    {
        let s = match &arr[i] {
            MetadataValue::String(s) => s.clone(),
            _ => String::new(),
        };
        r.push(s);
        i += 1;
    }
    assert(texts(r@) =~= model.map_values(|v: MetaModel| token_text(v)));
    r
}

/// The scores of an array's values.
fn array_scores(arr: &Vec<MetadataValue>) -> (r: Vec<u32>)
    ensures
        r@ == crate::gguf::parser::values_view(arr@).map_values(|v: MetaModel| score_bits(v)),
{
    proof {
        lemma_values_view(arr@);
    }
    let ghost model = crate::gguf::parser::values_view(arr@);
    let mut r: Vec<u32> = Vec::new();
    let mut i: usize = 0;
    while i < arr.len()
        invariant
            i <= arr@.len(),
            model.len() == arr@.len(),
            forall|k: int| 0 <= k < arr@.len() ==> #[trigger] model[k] == arr@[k]@,
            r@.len() == i,
            forall|k: int| 0 <= k < i ==> #[trigger] r@[k] == score_bits(model[k]),
        decreases arr@.len() - i,
    {
        let s = match &arr[i] {
            MetadataValue::Float32(b) => *b,
            _ => 0u32,
        };
        r.push(s);
        i += 1;
    }
    assert(r@ =~= model.map_values(|v: MetaModel| score_bits(v)));
    r
}

/// The token types of an array's values.
fn array_types(arr: &Vec<MetadataValue>) -> (r: Vec<i32>)
    ensures
        r@ == crate::gguf::parser::values_view(arr@).map_values(|v: MetaModel| token_type_of(v)),
{
    proof {
        lemma_values_view(arr@);
    }
    let ghost model = crate::gguf::parser::values_view(arr@);
    let mut r: Vec<i32> = Vec::new();
    let mut i: usize = 0;
    while i < arr.len()
        invariant
            i <= arr@.len(),
            model.len() == arr@.len(),
            forall|k: int| 0 <= k < arr@.len() ==> #[trigger] model[k] == arr@[k]@,
            r@.len() == i,
            forall|k: int| 0 <= k < i ==> #[trigger] r@[k] == token_type_of(model[k]),
        decreases arr@.len() - i,
    {
        let s = match &arr[i] {
            MetadataValue::Int32(x) => *x,
            _ => 1i32,
        };
        r.push(s);
        i += 1;
    }
    assert(r@ =~= model.map_values(|v: MetaModel| token_type_of(v)));
    r
}

/// Read the vocabulary out of the metadata; fails when there is no token
/// array.
pub fn read_vocab(header: &GgufHeader) -> (r: Result<GgufVocab, TokenizerError>)
    ensures
        match spec_vocab(meta_view(header.metadata@)) {
            None => r == Err::<GgufVocab, TokenizerError>(TokenizerError::MissingTokens),
            Some(v) => r matches Ok(voc) && voc@ == v,
        },
{
    let ghost m = meta_view(header.metadata@);
    let tokens = match header.metadata.get("tokenizer.ggml.tokens") {
        Some(MetadataValue::Array(arr)) => {
            proof {
                lemma_values_view(arr@);
                assert(meta_array(m, "tokenizer.ggml.tokens"@) == Some(
                    crate::gguf::parser::values_view(arr@),
                ));
            }
            array_texts(arr)
        },
        _ => {
            return Err(TokenizerError::MissingTokens);
        },
    };
    let ghost v = spec_vocab(m).unwrap();
    assert(texts(tokens@) == v.tokens);
    let n = tokens.len();
    assert(n == v.tokens.len());
    let scores = match header.metadata.get("tokenizer.ggml.scores") {
        Some(MetadataValue::Array(arr)) => {
            proof {
                assert(meta_array(m, "tokenizer.ggml.scores"@) == Some(
                    crate::gguf::parser::values_view(arr@),
                ));
            }
            array_scores(arr)
        },
        _ => {
            proof {
                assert(meta_array(m, "tokenizer.ggml.scores"@) is None);
            }
            vec_of(n, 0u32)
        },
    };
    assert(scores@ =~= v.scores);
    let token_types = match header.metadata.get("tokenizer.ggml.token_type") {
        Some(MetadataValue::Array(arr)) => {
            proof {
                assert(meta_array(m, "tokenizer.ggml.token_type"@) == Some(
                    crate::gguf::parser::values_view(arr@),
                ));
            }
            array_types(arr)
        },
        _ => {
            proof {
                assert(meta_array(m, "tokenizer.ggml.token_type"@) is None);
            }
            vec_of(n, 1i32)
        },
    };
    assert(token_types@ =~= v.types);
    let voc = GgufVocab { tokens, scores, token_types };
    Ok(voc)
}

/// `n` copies of `x`.
fn vec_of<T: Copy>(n: usize, x: T) -> (r: Vec<T>)
    ensures
        r@ == Seq::new(n as nat, |i: int| x),
{
    let mut r: Vec<T> = Vec::new();
    let mut i: usize = 0;
    while i < n
        invariant
            i <= n,
            r@ == Seq::new(i as nat, |k: int| x),
        decreases n - i,
    {
        r.push(x);
        i += 1;
        assert(r@ =~= Seq::new(i as nat, |k: int| x));
    }
    r
}

// ---------------------------------------------------------------------------
// Byte-fallback tokens
/// The value of a hexadecimal digit.
pub open spec fn hex_digit(c: char) -> Option<int> {
    if '0' <= c && c <= '9' {
        Some(c as int - '0' as int)
    } else if 'a' <= c && c <= 'f' {
        Some(c as int - 'a' as int + 10)
    } else if 'A' <= c && c <= 'F' {
        Some(c as int - 'A' as int + 10)
    } else {
        None
    }
}

/// Every character of `s` is a hexadecimal digit.
pub open spec fn all_hex(s: Seq<char>) -> bool {
    forall|i: int| 0 <= i < s.len() ==> #[trigger] hex_digit(s[i]) is Some
}

/// The number the hexadecimal digits `s` write.
pub open spec fn hex_value(s: Seq<char>) -> int
    decreases s.len(),
{
    if s.len() == 0 {
        0
    } else {
        hex_value(s.drop_last()) * 16 + hex_digit(s.last()).unwrap()
    }
}

/// `u8::from_str_radix(s, 16)`: an optional `+`, then one or more
/// hexadecimal digits whose value is at most 255.
pub open spec fn spec_u8_from_hex(s: Seq<char>) -> Option<u8> {
    let d = if s.len() > 0 && s[0] == '+' {
        s.drop_first()
    } else {
        s
    };
    if d.len() > 0 && all_hex(d) && hex_value(d) <= 255 {
        Some(hex_value(d) as u8)
    } else {
        None
    }
}

/// The byte a byte-fallback token such as `<0x0A>` stands for: the text
/// between `<0x` and `>`, read as a hexadecimal `u8`.
pub open spec fn spec_parse_byte_token(s: Seq<char>) -> Option<u8> {
    if s.len() >= 4 && s[0] == '<' && s[1] == '0' && s[2] == 'x' && s.last() == '>' {
        spec_u8_from_hex(s.subrange(3, s.len() - 1))
    } else {
        None
    }
}

/// The value of a hexadecimal digit character.
fn hex_digit_exec(c: char) -> (r: Option<u32>)
    ensures
        match hex_digit(c) {
            Some(v) => r == Some(v as u32) && 0 <= v < 16,
            None => r is None,
        },
{
    if '0' <= c && c <= '9' {
        Some((c as u32) - ('0' as u32))
    } else if 'a' <= c && c <= 'f' {
        Some((c as u32) - ('a' as u32) + 10)
    } else if 'A' <= c && c <= 'F' {
        Some((c as u32) - ('A' as u32) + 10)
    } else {
        None
    }
}

/// The byte a byte-fallback token stands for (`<0x0A>` is byte 10), if
/// `s` is one.
pub fn parse_byte_token(s: &str) -> (r: Option<u8>)
    ensures
        r == spec_parse_byte_token(s@),
{
    let c = chars_of(s);
    let n = c.len();
    if n < 4 || c[0] != '<' || c[1] != '0' || c[2] != 'x' || c[n - 1] != '>' {
        return None;
    }
    let ghost inner = s@.subrange(3, n - 1);
    let mut start: usize = 3;
    if c[3] == '+' {
        start = 4;
    }
    let ghost d = if inner.len() > 0 && inner[0] == '+' {
        inner.drop_first()
    } else {
        inner
    };
    assert(d =~= s@.subrange(start as int, n - 1));
    if start >= n - 1 {
        return None;
    }
    // The value so far, saturated at 256.
    let mut acc: u32 = 0;
    let mut i: usize = start;
    while i < n - 1
        invariant
            c@ == s@,
            n == s@.len(),
            4 <= n,
            3 <= start <= i <= n - 1,
            d == s@.subrange(start as int, n - 1),
            d.len() > 0,
            spec_parse_byte_token(s@) == (if all_hex(d) && hex_value(d) <= 255 {
                Some(hex_value(d) as u8)
            } else {
                None
            }),
            all_hex(s@.subrange(start as int, i as int)),
            acc as int == if hex_value(s@.subrange(start as int, i as int)) < 256 {
                hex_value(s@.subrange(start as int, i as int))
            } else {
                256
            },
        decreases n - 1 - i,
    {
        let ghost prev = s@.subrange(start as int, i as int);
        let ghost next = s@.subrange(start as int, i + 1);
        assert(next.drop_last() =~= prev);
        match hex_digit_exec(c[i]) {
            None => {
                assert(d[i - start] == c@[i as int]);
                assert(hex_digit(d[i - start]) is None);
                assert(!all_hex(d));
                return None;
            },
            Some(v) => {
                assert(all_hex(next)) by {
                    assert forall|k: int| 0 <= k < next.len() implies #[trigger] hex_digit(
                        next[k],
                    ) is Some by {
                        if k < prev.len() {
                            assert(next[k] == prev[k]);
                        }
                    }
                }
                if acc >= 256 {
                    assert(hex_value(next) >= 256);
                } else {
                    acc = acc * 16 + v;
                    if acc > 256 {
                        acc = 256;
                    }
                }
            },
        }
        i += 1;
    }
    if acc <= 255 {
        Some(acc as u8)
    } else {
        None
    }
}

// ---------------------------------------------------------------------------
// The token-to-id map
/// Token text to id after inserting the first `n` tokens, each with its
/// position: a later duplicate replaces an earlier one.
pub open spec fn last_ids(tokens: Seq<Seq<char>>, n: int) -> Map<Seq<char>, u32>
    decreases n,
{
    if n <= 0 {
        Map::empty()
    } else {
        last_ids(tokens, n - 1).insert(tokens[n - 1], (n - 1) as u32)
    }
}

/// The token-to-id map of a vocabulary: each text maps to its last position.
pub open spec fn vocab_ids(tokens: Seq<Seq<char>>) -> Map<Seq<char>, u32> {
    last_ids(tokens, tokens.len() as int)
}

/// The texts of a list of (text, id) entries.
pub open spec fn entry_keys(v: Seq<(String, u32)>) -> Set<Seq<char>> {
    Set::new(|s: Seq<char>| exists|a: int| 0 <= a < v.len() && (#[trigger] v[a]).0@ == s)
}

/// `last_ids` maps exactly the first `n` texts, each to its last position.
proof fn lemma_last_ids(tokens: Seq<Seq<char>>, n: int)
    requires
        0 <= n <= tokens.len() < 0x1_0000_0000,
    ensures
        forall|s: Seq<char>| #[trigger]
            last_ids(tokens, n).contains_key(s) <==> tokens.take(n).contains(s),
        forall|i: int|
            0 <= i < n ==> (last_ids(tokens, n)[#[trigger] tokens[i]] == i as u32 <==> forall|j: int|
                i < j < n ==> tokens[j] != tokens[i]),
    decreases n,
{
    if n > 0 {
        lemma_last_ids(tokens, n - 1);
        let m = last_ids(tokens, n);
        assert forall|s: Seq<char>| #[trigger] m.contains_key(s) <==> tokens.take(n).contains(s) by {
            if tokens.take(n - 1).contains(s) {
                let w = choose|w: int| 0 <= w < n - 1 && #[trigger] tokens.take(n - 1)[w] == s;
                assert(tokens.take(n)[w] == s);
            }
            if s == tokens[n - 1] {
                assert(tokens.take(n)[n - 1] == s);
            }
            if tokens.take(n).contains(s) {
                let w = choose|w: int| 0 <= w < n && #[trigger] tokens.take(n)[w] == s;
                if w < n - 1 {
                    assert(tokens.take(n - 1)[w] == s);
                }
            }
        }
        assert forall|i: int| 0 <= i < n implies (m[#[trigger] tokens[i]] == i as u32 <==> forall|
            j: int,
        | i < j < n ==> tokens[j] != tokens[i]) by {
            if i < n - 1 {
                if tokens[n - 1] == tokens[i] {
                    assert(m[tokens[i]] == (n - 1) as u32);
                } else {
                    assert(m[tokens[i]] == last_ids(tokens, n - 1)[tokens[i]]);
                }
            }
        }
    }
}

/// The vocabulary as (text, id) entries with distinct texts, each text
/// with the last position it occurs at, in the order of those positions.
pub fn vocab_entries(tokens: &Vec<String>) -> (r: Vec<(String, u32)>)
    requires
        tokens@.len() < 0x1_0000_0000,
    ensures
        entry_keys(r@) == token_set(texts(tokens@)),
        forall|a: int, b: int| 0 <= a < b < r@.len() ==> (#[trigger] r@[a]).0@ != (#[trigger] r@[b]).0@,
        forall|a: int|
            0 <= a < r@.len() ==> vocab_ids(texts(tokens@)).contains_key((#[trigger] r@[a]).0@)
                && vocab_ids(texts(tokens@))[r@[a].0@] == r@[a].1,
{
    let ghost tv = texts(tokens@);
    let n = tokens.len();
    let mut ids: StringHashMap<u32> = StringHashMap::new();
    let mut i: usize = 0;
    while i < n
        invariant
            n == tokens@.len(),
            n < 0x1_0000_0000,
            i <= n,
            tv == texts(tokens@),
            ids@ == last_ids(tv, i as int),
        decreases n - i,
    {
        ids.insert(tokens[i].clone(), i as u32);
        i += 1;
    }
    proof {
        lemma_last_ids(tv, n as int);
        assert(tv.take(n as int) =~= tv);
    }
    let mut r: Vec<(String, u32)> = Vec::new();
    let mut id: usize = 0;
    while id < n
        invariant
            n == tokens@.len(),
            n < 0x1_0000_0000,
            id <= n,
            tv == texts(tokens@),
            ids@ == vocab_ids(tv),
            forall|s: Seq<char>| #[trigger] vocab_ids(tv).contains_key(s) <==> tv.contains(s),
            forall|k: int|
                0 <= k < n ==> (vocab_ids(tv)[#[trigger] tv[k]] == k as u32 <==> forall|j: int|
                    k < j < n ==> tv[j] != tv[k]),
            forall|a: int|
                0 <= a < r@.len() ==> (#[trigger] r@[a]).1 < id && r@[a].0@ == tv[r@[a].1 as int]
                    && vocab_ids(tv)[r@[a].0@] == r@[a].1,
            forall|a: int, b: int| 0 <= a < b < r@.len() ==> (#[trigger] r@[a]).1 < (#[trigger] r@[b]).1,
            forall|k: int|
                0 <= k < id && vocab_ids(tv)[#[trigger] tv[k]] == k as u32 ==> exists|a: int|
                    0 <= a < r@.len() && (#[trigger] r@[a]).1 == k,
        decreases n - id,
    {
        let t = tokens[id].as_str();
        let hit = match ids.get(t) {
            Some(v) => *v == id as u32,
            None => false,
        };
        if hit {
            let ghost r0 = r@;
            r.push((tokens[id].clone(), id as u32));
            proof {
                assert forall|k: int|
                    0 <= k < id + 1 && vocab_ids(tv)[#[trigger] tv[k]] == k as u32 implies exists|
                    a: int,
                | 0 <= a < r@.len() && (#[trigger] r@[a]).1 == k by {
                    if k < id {
                        let a = choose|a: int| 0 <= a < r0.len() && (#[trigger] r0[a]).1 == k;
                        assert(r@[a] == r0[a]);
                    } else {
                        assert(r@[r0.len() as int].1 == k);
                    }
                }
            }
        } else {
            proof {
                assert(tv.contains(tv[id as int]));
            }
        }
        id += 1;
    }
    proof {
        assert forall|a: int, b: int| 0 <= a < b < r@.len() implies (#[trigger] r@[a]).0@ != (
        #[trigger] r@[b]).0@ by {
            let ia = r@[a].1 as int;
            let ib = r@[b].1 as int;
            assert(ia < ib);
            if r@[a].0@ == r@[b].0@ {
                assert(tv[ib] == tv[ia]);
                assert(vocab_ids(tv)[tv[ia]] == ia as u32);
            }
        }
        assert forall|s: Seq<char>| entry_keys(r@).contains(s) == token_set(tv).contains(s) by {
            if entry_keys(r@).contains(s) {
                let a = choose|a: int| 0 <= a < r@.len() && (#[trigger] r@[a]).0@ == s;
                assert(tv[r@[a].1 as int] == s);
            }
            if token_set(tv).contains(s) {
                assert(vocab_ids(tv).contains_key(s));
                let k = vocab_ids(tv)[s] as int;
                let w = choose|w: int| 0 <= w < tv.len() && tv[w] == s;
                assert(vocab_ids(tv)[tv[w]] == vocab_ids(tv)[s]);
                // The last occurrence of `s` is recorded in the map.
                let last = last_occurrence(tv, s, w);
                assert(vocab_ids(tv)[tv[last]] == last as u32);
                let a = choose|a: int| 0 <= a < r@.len() && (#[trigger] r@[a]).1 == last;
                assert(r@[a].0@ == s);
            }
        }
        assert(entry_keys(r@) =~= token_set(tv));
    }
    r
}

/// The last position of `s` in `tokens`, given one at `w`.
proof fn last_occurrence(tokens: Seq<Seq<char>>, s: Seq<char>, w: int) -> (last: int)
    requires
        0 <= w < tokens.len(),
        tokens[w] == s,
    ensures
        w <= last < tokens.len(),
        tokens[last] == s,
        forall|j: int| last < j < tokens.len() ==> tokens[j] != s,
    decreases tokens.len() - w,
{
    if exists|j: int| w < j < tokens.len() && tokens[j] == s {
        let j = choose|j: int| w < j < tokens.len() && tokens[j] == s;
        last_occurrence(tokens, s, j)
    } else {
        w
    }
}

} // verus!
