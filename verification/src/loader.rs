//! The corpus data model and the validation applied when a corpus is loaded.
//!
//! Reading and decoding the input file are left to the caller; this module
//! owns the record type and the rule that every document must carry a
//! non-empty filename.

use vstd::prelude::*;

verus! {

/// One extracted page: a filename (unique within its tier) and its plain text.
#[derive(Debug, Clone)]
pub struct Document {
    pub filename: String,
    pub text: String,
}

/// A corpus: each entry pairs a tier name with that tier's documents, whose
/// order is significant for clustering.
pub type TierDocs = Vec<(String, Vec<Document>)>;

/// Why a loaded corpus was rejected.
#[derive(Debug)]
pub enum LoaderError {
    /// A document record lacks a required field; the payload names the field.
    MissingField(String),
}

impl LoaderError {
    /// A human-readable description of the error.
    pub fn message(&self) -> (r: String)
        ensures
            self is MissingField ==> r@ == seq!['m', 'i', 's', 's', 'i', 'n', 'g', ' ', 'r', 'e',
                'q', 'u', 'i', 'r', 'e', 'd', ' ', 'f', 'i', 'e', 'l', 'd', ':', ' '].add(
                self->MissingField_0@),
    {
        match self {
            LoaderError::MissingField(field) => {
                let mut r = String::new();
                proof {
                    reveal_strlit("missing required field: ");
                }
                r.append("missing required field: ");
                r.append(field.as_str());
                proof {
                    assert(r@ =~= seq!['m', 'i', 's', 's', 'i', 'n', 'g', ' ', 'r', 'e', 'q', 'u',
                        'i', 'r', 'e', 'd', ' ', 'f', 'i', 'e', 'l', 'd', ':', ' '].add(field@));
                }
                r
            },
        }
    }
}

/// Every document of every tier carries a non-empty filename.
pub open spec fn filenames_nonempty(tiers: Seq<(String, Vec<Document>)>) -> bool {
    forall|i: int, j: int|
        0 <= i < tiers.len() && 0 <= j < tiers[i].1@.len() ==> #[trigger] tiers[i].1@[j].filename@.len()
            > 0
}

/// Checks the rule the loader enforces on a freshly decoded corpus: a record
/// with an empty filename makes the whole load fail.
pub fn validate_documents(tiers: &TierDocs) -> (r: Result<(), LoaderError>)
    ensures
        r is Ok <==> filenames_nonempty(tiers@),
        r is Err ==> r->Err_0 is MissingField && r->Err_0->MissingField_0@ == "filename"@,
{
    let n = tiers.len();
    for i in 0..n
        invariant
            n == tiers@.len(),
            forall|p: int, q: int|
                0 <= p < i && 0 <= q < tiers@[p].1@.len() ==> #[trigger] tiers@[p].1@[q].filename@.len()
                    > 0,
    {
        let docs: &Vec<Document> = &tiers[i].1;
        let m = docs.len();
        for j in 0..m
            invariant
                n == tiers@.len(),
                0 <= i < n,
                m == docs@.len(),
                docs@ == tiers@[i as int].1@,
                forall|p: int, q: int|
                    0 <= p < i && 0 <= q < tiers@[p].1@.len() ==> #[trigger] tiers@[p].1@[q].filename@.len()
                        > 0,
                forall|q: int| 0 <= q < j ==> #[trigger] docs@[q].filename@.len() > 0,
        {
            if docs[j].filename.as_str().is_empty() {
                return Err(LoaderError::MissingField("filename".to_owned()));
            }
        }
    }
    Ok(())
}

} // verus!
