//! Hits that are sorted by the values of fields.

use vstd::prelude::*;
use vstd::string::*;

use crate::search::field_comparator::SortValue;
use crate::search::index_searcher::ScoreDoc;
use crate::search::query::joined;

verus! {

/// A hit with the values by which it is sorted.
#[derive(Debug)]
pub struct FieldDoc {
    /// The document and its score.
    pub score_doc: ScoreDoc,
    /// The values.
    pub fields: Option<Vec<SortValue>>,
}

/// The texts as sequences of characters.
pub open spec fn texts_of(texts: Seq<String>) -> Seq<Seq<char>> {
    texts.map_values(|t: String| t@)
}

impl FieldDoc {
    /// Renders the hit. `hit_text` is the rendering of the document and its score, and
    /// `value_texts` are those of the values.
    pub fn to_text(&self, hit_text: &str, value_texts: &Vec<String>) -> (r: String)
        requires
            self.fields matches Some(fields) ==> value_texts@.len() == fields@.len(),
        ensures
            r@ == hit_text@ + " fields="@ + if self.fields is None {
                "null"@
            } else {
                "["@ + joined(texts_of(value_texts@), ", "@, value_texts@.len() as int) + "]"@
            },
    {
        let mut text = hit_text.to_owned();
        text.append(" fields=");
        if self.fields.is_none() {
            text.append("null");
            return text;
        }
        let ghost start = text@;
        let ghost texts = texts_of(value_texts@);
        text.append("[");
        let mut i: usize = 0;
        assert(text@ =~= start + "["@ + joined(texts, ", "@, 0));
        while i < value_texts.len()
            invariant
                i <= value_texts@.len(),
                texts == texts_of(value_texts@),
                text@ == start + "["@ + joined(texts, ", "@, i as int),
            decreases value_texts.len() - i,
        {
            let ghost before = text@;
            if i > 0 {
                text.append(", ");
            }
            text.append(value_texts[i].as_str());
            assert(texts[i as int] == value_texts@[i as int]@);
            assert(text@ =~= start + "["@ + joined(texts, ", "@, i + 1));
            i += 1;
        }
        text.append("]");
        assert(text@ =~= start + ("["@ + joined(texts, ", "@, i as int) + "]"@));
        text
    }

    /// Creates a hit without values.
    pub fn new(doc: i32, score: i32) -> (r: Self)
        ensures
            r.score_doc == (ScoreDoc { doc, score, shard_index: -1i32 }),
            r.fields is None,
    {
        FieldDoc { score_doc: ScoreDoc { doc, score, shard_index: -1 }, fields: None }
    }

    /// Creates a hit with values.
    pub fn with_fields(doc: i32, score: i32, fields: Vec<SortValue>) -> (r: Self)
        ensures
            r.score_doc == (ScoreDoc { doc, score, shard_index: -1i32 }),
            r.fields == Some(fields),
    {
        FieldDoc { score_doc: ScoreDoc { doc, score, shard_index: -1 }, fields: Some(fields) }
    }

    /// Creates a hit of a shard, with values.
    pub fn with_shard_index(
        doc: i32,
        score: i32,
        fields: Vec<SortValue>,
        shard_index: i32,
    ) -> (r: Self)
        ensures
            r.score_doc == (ScoreDoc { doc, score, shard_index }),
            r.fields == Some(fields),
    {
        FieldDoc { score_doc: ScoreDoc { doc, score, shard_index }, fields: Some(fields) }
    }

    /// Returns the document.
    pub fn doc(&self) -> (r: i32)
        ensures
            r == self.score_doc.doc,
    {
        self.score_doc.doc
    }

    /// Returns the score.
    pub fn score(&self) -> (r: i32)
        ensures
            r == self.score_doc.score,
    {
        self.score_doc.score
    }

    /// Returns the shard that the hit is from; -1 when there is none.
    pub fn shard_index(&self) -> (r: i32)
        ensures
            r == self.score_doc.shard_index,
    {
        self.score_doc.shard_index
    }
}

} // verus!
