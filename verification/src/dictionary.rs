//! The dictionary: an ordered, immutable sequence of word/definition pairs,
//! loaded from a document in the format of [`crate::format`].

use vstd::prelude::*;

use crate::format::{parse_dictionary, spec_load, EntryModel, FormatError};
use crate::text::bytes_to_string;
use vstd::utf8::encode_utf8;
use vstd::utf8::valid_utf8;

verus! {

/// One entry: a word and its definition, both non-empty text in a loaded
/// dictionary.
#[derive(Debug)]
pub struct WordDefinitionPair {
    pub word: String,
    pub definition: String,
}

/// The mathematical model of a [`WordDefinitionPair`].
pub struct PairModel {
    pub word: Seq<char>,
    pub definition: Seq<char>,
}

impl View for WordDefinitionPair {
    type V = PairModel;

    open spec fn view(&self) -> PairModel {
        PairModel { word: self.word@, definition: self.definition@ }
    }
}

/// Whether some loaded entry holds bytes that are not valid UTF-8.
pub open spec fn has_undecodable_entry(es: Seq<EntryModel>) -> bool {
    exists|i: int|
        0 <= i < es.len() && (!valid_utf8(#[trigger] es[i].word) || !valid_utf8(
            es[i].definition,
        ))
}

/// Whether the pairs `ps` spell out the loaded entries `es`, byte for byte
/// under UTF-8.
pub open spec fn pairs_encode(ps: Seq<PairModel>, es: Seq<EntryModel>) -> bool {
    &&& ps.len() == es.len()
    &&& forall|i: int|
        0 <= i < es.len() ==> encode_utf8(#[trigger] ps[i].word) == es[i].word && encode_utf8(
            ps[i].definition,
        ) == es[i].definition
}

/// An ordered sequence of entries, immutable after construction, indexable
/// by position.
#[derive(Debug)]
pub struct JsonDictionary {
    data: Vec<WordDefinitionPair>,
}

impl View for JsonDictionary {
    type V = Seq<PairModel>;

    closed spec fn view(&self) -> Seq<PairModel> {
        self.data@.map_values(|p: WordDefinitionPair| p@)
    }
}

impl JsonDictionary {
    /// Loads a dictionary from document text. The entries are exactly what
    /// [`spec_load`] yields on the text's bytes; a document that offends
    /// against the format is rejected with the corresponding error.
    pub fn new(json: &str) -> (r: Result<JsonDictionary, FormatError>)
        ensures
            (match (r, spec_load(encode_utf8(json@))) {
                (Ok(d), Ok(es)) => pairs_encode(d@, es),
                (Err(e1), Err(e2)) => e1 == e2,
                (Err(e1), Ok(es)) => e1 == FormatError::Malformed && has_undecodable_entry(es),
                (Ok(_), Err(_)) => false,
            }),
    {
        let bytes = json.as_bytes();
        proof {
            assert(bytes@ == encode_utf8(json@));
        }
        match parse_dictionary(bytes) {
            Err(e) => Err(e),
            Ok(raws) => {
                let ghost es = crate::format::entries_view(raws@);
                let mut rest = raws;
                let mut data: Vec<WordDefinitionPair> = Vec::new();
                while rest.len() > 0
                    invariant
                        spec_load(encode_utf8(json@)) == Ok::<Seq<EntryModel>, FormatError>(es),
                        data@.len() + rest@.len() == es.len(),
                        forall|j: int|
                            0 <= j < data@.len() ==> encode_utf8(#[trigger] data@[j]@.word)
                                == es[j].word && encode_utf8(data@[j]@.definition)
                                == es[j].definition,
                        forall|j: int|
                            0 <= j < rest@.len() ==> #[trigger] rest@[j]@ == es[data@.len() + j],
                    decreases rest@.len(),
                {
                    let ghost k = data@.len() as int;
                    let entry = rest.remove(0);
                    proof {
                        assert(entry@ == es[k]);
                    }
                    let word = match bytes_to_string(entry.word) {
                        Some(s) => s,
                        None => {
                            proof {
                                assert(0 <= k < es.len() && (!valid_utf8(es[k].word)
                                    || !valid_utf8(es[k].definition)));
                                assert(has_undecodable_entry(es));
                            }
                            return Err(FormatError::Malformed);
                        },
                    };
                    let definition = match bytes_to_string(entry.definition) {
                        Some(s) => s,
                        None => {
                            proof {
                                assert(0 <= k < es.len() && (!valid_utf8(es[k].word)
                                    || !valid_utf8(es[k].definition)));
                                assert(has_undecodable_entry(es));
                            }
                            return Err(FormatError::Malformed);
                        },
                    };
                    data.push(WordDefinitionPair { word, definition });
                }
                let d = JsonDictionary { data };
                proof {
                    assert(pairs_encode(d@, es));
                }
                Ok(d)
            },
        }
    }

    /// Builds an in-memory dictionary directly from pairs, for hosts and
    /// tests that do not go through document text.
    pub fn from_pairs(pairs: Vec<WordDefinitionPair>) -> (r: JsonDictionary)
        ensures
            r@.len() == pairs@.len(),
            forall|i: int| 0 <= i < pairs@.len() ==> r@[i] == #[trigger] pairs@[i]@,
    {
        JsonDictionary { data: pairs }
    }

    /// The number of entries.
    pub fn len(&self) -> (r: usize)
        ensures
            r == self@.len(),
    {
        self.data.len()
    }

    /// The entry at position `i`; the position must be in range.
    pub fn at(&self, i: usize) -> (r: &WordDefinitionPair)
        requires
            i < self@.len(),
        ensures
            r@ == self@[i as int],
    {
        &self.data[i]
    }
}

} // verus!
