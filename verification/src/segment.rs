//! The segmenter adapter: the external tokenizer behind a narrow,
//! trusted interface.  Construction happens once; the instance is shared
//! read-only by every worker.

use vstd::prelude::*;
use jieba_rs::Jieba;

verus! {

#[verifier::external_type_specification]
#[verifier::external_body]
pub struct ExJieba(Jieba);

/// The token sequence the segmenter yields for a text, in left-to-right
/// order.  With the tokenizer's bundled default dictionary the result is
/// a function of the text alone.
pub uninterp spec fn segmentation_of(text: Seq<char>) -> Seq<Seq<char>>;

/// Wraps the external tokenizer.
pub struct Segmenter {
    jieba: Jieba,
}

impl Segmenter {
    /// Relies on jieba_rs::Jieba::new: builds the tokenizer from its
    /// bundled default dictionary.
    #[verifier::external_body]
    pub fn new() -> (r: Segmenter) {
        Segmenter { jieba: Jieba::new() }
    }

    /// Relies on jieba_rs::Jieba::cut (with HMM enabled): yields the
    /// candidate tokens of `text` in left-to-right order; with the
    /// default dictionary the sequence depends on the text alone.
    #[verifier::external_body]
    pub fn tokenize(&self, text: &str) -> (r: Vec<String>)
        ensures
            r.deep_view() == segmentation_of(text@),
    {
        self.jieba.cut(text, true).into_iter().map(|t| t.word.to_string()).collect()
    }
}

} // verus!
