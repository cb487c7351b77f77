//! Preparation of the month classifier's training data: samples, tokenizer, and
//! the token id rows of fixed length.

use vstd::prelude::*;
use crate::events::{Event, event_views};
use crate::ml_dataset::{build_month_samples, month_samples, sample_views};
use crate::ml_tokenizer::{
    build_tokenizer, built_for, encodes_any_text, lemma_built_encodes_any_text,
    tokenizer_encodings, tokenizer_word_level, vocabulary_fits, TokenizerError,
};

verus! {

/// The id of the padding token.
pub const PAD_ID: i64 = 1;

/// The vocabulary size of the month classifier.
pub const VOCAB_SIZE: usize = 5000;

/// The length of a token id row.
pub const MAX_LEN: usize = 32;

/// The first `n` ids, padded with the padding id to length `n`.
pub open spec fn padded(ids: Seq<u32>, n: nat) -> Seq<i64> {
    Seq::new(n, |i: int| if i < ids.len() { ids[i] as i64 } else { PAD_ID })
}

/// Truncates or pads the ids to exactly `max_len` entries.
pub fn pad_or_truncate(ids: &[u32], max_len: usize) -> (r: Vec<i64>)
    ensures
        r@ == padded(ids@, max_len as nat),
{
    let mut r: Vec<i64> = Vec::new();
    for i in 0..max_len
        invariant
            r@ == padded(ids@, max_len as nat).take(i as int),
    {
        if i < ids.len() {
            r.push(ids[i] as i64);
        } else {
            r.push(PAD_ID);
        }
        assert(r@ =~= padded(ids@, max_len as nat).take(i + 1));
    }
    assert(r@ =~= padded(ids@, max_len as nat));
    r
}

/// The padded rows, one after the other.
pub open spec fn flat_rows(rows: Seq<Seq<u32>>, n: nat) -> Seq<i64>
    decreases rows.len(),
{
    if rows.len() == 0 {
        Seq::empty()
    } else {
        flat_rows(rows.drop_last(), n) + padded(rows.last(), n)
    }
}

proof fn lemma_flat_rows_len(rows: Seq<Seq<u32>>, n: nat)
    ensures
        flat_rows(rows, n).len() == rows.len() * n,
    decreases rows.len(),
{
    if rows.len() > 0 {
        lemma_flat_rows_len(rows.drop_last(), n);
        assert((rows.len() - 1) * n + n == rows.len() * n) by (nonlinear_arith);
    }
}

/// The token ids of a text, with `Tokenizer::encode` (no special tokens added); an
/// error is given as its message.  Claimed, for a tokenizer with a word-level model
/// (whose encoding depends on the text and the tokenizer alone): it succeeds exactly
/// on the texts that `tokenizer_encodings` holds, with their ids.  A plain word-level
/// tokenizer with NFC normalization and whitespace pre-tokenization whose vocabulary
/// holds its unknown token encodes every text: `WordLevel::tokenize` gives the
/// unknown token's id to a word it does not know, and fails only when that token is
/// missing.
#[verifier::external_body]
fn encode_ids(tokenizer: &tokenizers::Tokenizer, text: &str) -> (r: Result<Vec<u32>, String>)
    ensures
        tokenizer_word_level(*tokenizer) ==> (r is Ok <==> tokenizer_encodings(
            *tokenizer,
        ).contains_key(text@)),
        tokenizer_word_level(*tokenizer) ==> (r matches Ok(ids) ==> ids@ == tokenizer_encodings(
            *tokenizer,
        )[text@]),
        encodes_any_text(*tokenizer) ==> r is Ok,
{
    match tokenizer.encode(text, false) {
        Ok(enc) => Ok(enc.get_ids().to_vec()),
        Err(e) => Err(e.to_string()),
    }
}

/// The characters of each text.
pub open spec fn text_views(texts: Seq<String>) -> Seq<Seq<char>> {
    texts.map_values(|s: String| s@)
}

/// The tokenizer encodes every text.
pub open spec fn encodes_all(t: tokenizers::Tokenizer, texts: Seq<Seq<char>>) -> bool {
    forall|i: int| 0 <= i < texts.len() ==> tokenizer_encodings(t).contains_key(#[trigger] texts[i])
}

/// The ids the tokenizer encodes each text to.
pub open spec fn encodings(t: tokenizers::Tokenizer, texts: Seq<Seq<char>>) -> Seq<Seq<u32>> {
    texts.map_values(|x: Seq<char>| tokenizer_encodings(t)[x])
}

/// The id sequences of a list of rows.
pub open spec fn row_views(rows: Seq<Vec<u32>>) -> Seq<Seq<u32>> {
    rows.map_values(|r: Vec<u32>| r@)
}

/// Truncates or pads each row of ids to `max_len` entries; the rows one after the other.
pub fn pad_rows(rows: &Vec<Vec<u32>>, max_len: usize) -> (r: Vec<i64>)
    requires
        rows@.len() * max_len <= usize::MAX,
    ensures
        r@ == flat_rows(row_views(rows@), max_len as nat),
        r@.len() == rows@.len() * max_len,
{
    let ghost rv = row_views(rows@);
    let mut all: Vec<i64> = Vec::new();
    let n = rows.len();
    assert(rv.take(0) =~= Seq::<Seq<u32>>::empty());
    for i in 0..n
        invariant
            n == rows@.len(),
            rv == row_views(rows@),
            all@ == flat_rows(rv.take(i as int), max_len as nat),
    {
        let mut row = pad_or_truncate(rows[i].as_slice(), max_len);
        assert(rv.take(i + 1).drop_last() =~= rv.take(i as int));
        assert(rv.take(i + 1).last() == rows@[i as int]@);
        all.append(&mut row);
    }
    assert(rv.take(n as int) =~= rv);
    proof {
        lemma_flat_rows_len(rv, max_len as nat);
    }
    all
}

/// Encodes each text and truncates or pads its ids to `max_len`; the rows one after
/// the other.  It fails only when the tokenizer fails on a text, so it succeeds on an
/// empty list of texts.
pub fn encode_texts(tokenizer: &tokenizers::Tokenizer, texts: &[String], max_len: usize) -> (r:
    Result<Vec<i64>, String>)
    requires
        texts@.len() * max_len <= usize::MAX,
    ensures
        r matches Ok(v) ==> v@.len() == texts@.len() * max_len && exists|rows: Seq<Seq<u32>>|
            rows.len() == texts@.len() && v@ == flat_rows(rows, max_len as nat),
        texts@.len() == 0 ==> (r matches Ok(v) && v@.len() == 0),
        encodes_any_text(*tokenizer) ==> r is Ok,
        tokenizer_word_level(*tokenizer) ==> (r is Ok <==> encodes_all(
            *tokenizer,
            text_views(texts@),
        )),
        tokenizer_word_level(*tokenizer) ==> (r matches Ok(v) ==> v@ == flat_rows(
            encodings(*tokenizer, text_views(texts@)),
            max_len as nat,
        )),
{
    let ghost tv = text_views(texts@);
    let mut rows: Vec<Vec<u32>> = Vec::new();
    let n = texts.len();
    for i in 0..n
        invariant
            n == texts@.len(),
            tv == text_views(texts@),
            rows@.len() == i,
            tokenizer_word_level(*tokenizer) ==> encodes_all(*tokenizer, tv.take(i as int)),
            tokenizer_word_level(*tokenizer) ==> row_views(rows@) == encodings(
                *tokenizer,
                tv.take(i as int),
            ),
    {
        assert(tv[i as int] == texts@[i as int]@);
        let ids = match encode_ids(tokenizer, texts[i].as_str()) {
            Ok(ids) => ids,
            Err(e) => {
                proof {
                    if tokenizer_word_level(*tokenizer) {
                        assert(!tokenizer_encodings(*tokenizer).contains_key(tv[i as int]));
                    }
                }
                return Err(e);
            },
        };
        let ghost before = row_views(rows@);
        rows.push(ids);
        proof {
            assert(row_views(rows@) =~= before.push(ids@));
            if tokenizer_word_level(*tokenizer) {
                assert(tv.take(i + 1) =~= tv.take(i as int).push(tv[i as int]));
                assert(encodings(*tokenizer, tv.take(i + 1)) =~= encodings(
                    *tokenizer,
                    tv.take(i as int),
                ).push(tokenizer_encodings(*tokenizer)[tv[i as int]]));
                assert forall|k: int| 0 <= k < i + 1 implies tokenizer_encodings(
                    *tokenizer,
                ).contains_key(#[trigger] tv.take(i + 1)[k]) by {
                    if k < i {
                        assert(tv.take(i + 1)[k] == tv.take(i as int)[k]);
                    }
                }
            }
        }
    }
    assert(tv.take(n as int) =~= tv);
    let all = pad_rows(&rows, max_len);
    assert(row_views(rows@).len() == texts@.len());
    Ok(all)
}

/// The texts of the samples of the events.
pub open spec fn sample_texts(es: Seq<crate::events::EventView>) -> Seq<Seq<char>> {
    month_samples(es).map_values(|p: (Seq<char>, usize)| p.0)
}

/// The training data of the month classifier.
pub struct MonthTrainingData {
    /// The sample texts.
    pub texts: Vec<String>,
    /// The month index (0 to 11) of each sample.
    pub labels: Vec<i64>,
    /// The token id rows of the texts, one after the other.
    pub input_ids: Vec<i64>,
    /// The length of a row.
    pub max_len: usize,
    /// The tokenizer built on the texts.
    pub tokenizer: tokenizers::Tokenizer,
}

/// Why the training data could not be prepared.
#[derive(Debug)]
pub enum TrainError {
    Tokenizer(TokenizerError),
    Encode(String),
}

/// Prepares the month classifier's training data: one sample per event with a month
/// from 1 to 12, a tokenizer of vocabulary size 5000 built on the sample texts, and
/// the rows of 32 token ids of the texts.
pub fn prepare_month_training(events: &[Event]) -> (r: Result<MonthTrainingData, TrainError>)
    requires
        events@.len() * MAX_LEN <= usize::MAX,
    ensures
        r matches Ok(d) ==> {
            &&& d.texts@.len() == d.labels@.len()
            &&& month_samples(event_views(events@)) == d.texts@.map_values(|s: String| s@).zip_with(
                d.labels@.map_values(|l: i64| l as usize),
            )
            &&& d.max_len == MAX_LEN
            &&& d.input_ids@.len() == d.texts@.len() * MAX_LEN
            &&& built_for(d.tokenizer, text_views(d.texts@), VOCAB_SIZE as nat)
            &&& d.input_ids@ == flat_rows(
                encodings(d.tokenizer, text_views(d.texts@)),
                MAX_LEN as nat,
            )
        },
        r matches Err(TrainError::Tokenizer(e)) ==> e is TooLarge,
        r is Ok <==> vocabulary_fits(sample_texts(event_views(events@)), VOCAB_SIZE as nat),
        r matches Err(TrainError::Tokenizer(TokenizerError::TooLarge)) <==> !vocabulary_fits(
            month_samples(event_views(events@)).map_values(|p: (Seq<char>, usize)| p.0),
            VOCAB_SIZE as nat,
        ),
{
    let samples = build_month_samples(events);
    let ghost sv = sample_views(samples@);
    let mut texts: Vec<String> = Vec::new();
    let mut labels: Vec<i64> = Vec::new();
    let n = samples.len();
    proof {
        lemma_samples_len(event_views(events@));
    }
    for i in 0..n
        invariant
            n == sv.len(),
            sv == sample_views(samples@),
            texts@.len() == i,
            labels@.len() == i,
            forall|k: int| 0 <= k < i ==> (#[trigger] texts@[k])@ == sv[k].0,
            forall|k: int| 0 <= k < i ==> (#[trigger] labels@[k]) == sv[k].1 as i64,
            forall|k: int| 0 <= k < n ==> sv[k].1 < 12,
    {
        assert(sv[i as int] == (samples@[i as int].0@, samples@[i as int].1));
        texts.push(crate::text::string_of(&crate::text::chars_of(samples[i].0.as_str())));
        labels.push(samples[i].1 as i64);
    }
    assert(texts@.map_values(|s: String| s@) =~= sv.map_values(|p: (Seq<char>, usize)| p.0));
    assert(sv =~= texts@.map_values(|s: String| s@).zip_with(
        labels@.map_values(|l: i64| l as usize),
    ));
    let tokenizer = match build_tokenizer(texts.as_slice(), VOCAB_SIZE) {
        Ok(t) => t,
        Err(e) => {
            return Err(TrainError::Tokenizer(e));
        },
    };
    proof {
        assert(texts@.len() * MAX_LEN <= events@.len() * MAX_LEN) by (nonlinear_arith)
            requires
                texts@.len() <= events@.len(),
        ;
    }
    assert(text_views(texts@) == sample_texts(event_views(events@)));
    let input_ids = match encode_texts(&tokenizer, texts.as_slice(), MAX_LEN) {
        Ok(v) => v,
        Err(e) => {
            proof {
                lemma_built_encodes_any_text(
                    tokenizer,
                    sample_texts(event_views(events@)),
                    VOCAB_SIZE as nat,
                );
            }
            return Err(TrainError::Encode(e));
        },
    };
    Ok(MonthTrainingData { texts, labels, input_ids, max_len: MAX_LEN, tokenizer })
}

/// Law: there are at most as many samples as events, and every label is a month index
/// from 0 to 11.
pub proof fn lemma_samples_len(es: Seq<crate::events::EventView>)
    ensures
        month_samples(es).len() <= es.len(),
        forall|k: int| 0 <= k < month_samples(es).len() ==> #[trigger] month_samples(es)[k].1 < 12,
    decreases es.len(),
{
    if es.len() > 0 {
        lemma_samples_len(es.drop_last());
    }
}

} // verus!
