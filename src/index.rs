//! The search index: the settings and the candidate entries of one scan of
//! the store, answering queries and resolving selections.
use vstd::prelude::*;
use crate::config::Config;
use crate::format::{formats_as, format_entry, leaf_title, parent, ResultItem};
use crate::matching::{candidate_scores, is_ranking, lemma_ranking_unique, search};
use crate::retrieve::{secret_name, strip_marker};

verus! {

/// Why a selection cannot be retrieved.
#[derive(PartialEq, Eq, Structural, Debug, Clone, Copy)]
pub enum SelectError {
    /// The selected result carries no identity (a directory-like entry).
    NoIdentity,
    /// The identity names no entry of this index.
    UnknownIdentity,
}

/// What the decryption program is to be asked for: the secret `secret_name`
/// of the store whose root is `store_root`.
pub struct RetrievalRequest {
    pub store_root: String,
    pub secret_name: String,
}

/// An immutable snapshot of the settings and of the candidate entries.
/// Result identities are positions in its entry list.
pub struct Index {
    config: Config,
    entries: Vec<String>,
}

impl Index {
    /// The settings of the index.
    pub closed spec fn settings(&self) -> Config {
        self.config
    }

    /// The candidate entries, in the order they were found.
    pub closed spec fn candidates(&self) -> Seq<String> {
        self.entries@
    }

    /// The entry that `id` names, if any.
    pub open spec fn resolves(&self, id: Option<u64>) -> Option<Seq<char>> {
        match id {
            Some(i) => if i < self.candidates().len() {
                Some(self.candidates()[i as int]@)
            } else {
                None
            },
            None => None,
        }
    }

    /// `r` answers the query `text`: nothing for a query shorter than the
    /// minimum length, else the ranking of the entries that match it.
    pub open spec fn answers(&self, text: &str, r: Seq<usize>) -> bool {
        if text.len() < self.settings().minimum_length {
            r.len() == 0
        } else {
            is_ranking(candidate_scores(text@, self.candidates()), self.settings().max_results as nat, r)
        }
    }

    /// The index over `entries` with the settings `config`.
    pub fn new(config: Config, entries: Vec<String>) -> (r: Index)
        ensures
            r.settings() == config,
            r.candidates() == entries@,
    {
        Index { config, entries }
    }

    /// The settings of the index.
    pub fn config(&self) -> (r: &Config)
        ensures
            *r == self.settings(),
    {
        &self.config
    }

    /// The candidate entries, in the order they were found.
    pub fn entries(&self) -> (r: &Vec<String>)
        ensures
            r@ == self.candidates(),
    {
        &self.entries
    }

    /// The positions of the entries that match `text`, best first.
    pub fn search(&self, text: &str) -> (r: Vec<usize>)
        ensures
            self.answers(text, r@),
            text.len() < self.settings().minimum_length ==> r.len() == 0,
            r.len() <= self.settings().max_results,
            forall|k: int| 0 <= k < r.len() ==> #[trigger] r[k] < self.candidates().len(),
    {
        if text.len() < self.config.minimum_length {
            return Vec::new();
        }
        search(text, &self.entries, self.config.max_results)
    }

    /// The result lines for the ranked positions `ranked`; `dirs[k]` tells
    /// whether the entry at `ranked[k]` is a directory.
    pub fn results(&self, ranked: &Vec<usize>, dirs: &Vec<bool>) -> (r: Vec<ResultItem>)
        requires
            ranked.len() == dirs.len(),
            forall|k: int| 0 <= k < ranked.len() ==> #[trigger] ranked[k] < self.candidates().len(),
        ensures
            r.len() == ranked.len(),
            forall|k: int| 0 <= k < r.len() ==> formats_as(#[trigger] r[k], self.candidates()[ranked[k] as int]@, ranked[k] as int, dirs[k]),
    {
        let mut r: Vec<ResultItem> = Vec::new();
        let mut k: usize = 0;
        while k < ranked.len()
            invariant
                k <= ranked.len(),
                ranked.len() == dirs.len(),
                forall|j: int| 0 <= j < ranked.len() ==> #[trigger] ranked[j] < self.entries.len(),
                r.len() == k,
                forall|j: int| 0 <= j < k ==> formats_as(#[trigger] r[j], self.entries@[ranked[j] as int]@, ranked[j] as int, dirs[j]),
            decreases ranked.len() - k,
        {
            let p = ranked[k];
            r.push(format_entry(self.entries[p].as_str(), p, dirs[k]));
            k = k + 1;
        }
        r
    }

    /// What to ask the decryption program for when the result with identity
    /// `id` is selected.
    pub fn select(&self, id: Option<u64>) -> (r: Result<RetrievalRequest, SelectError>)
        ensures
            id is None ==> r == Err::<RetrievalRequest, SelectError>(SelectError::NoIdentity),
            id is Some && self.resolves(id) is None ==> r == Err::<RetrievalRequest, SelectError>(SelectError::UnknownIdentity),
            self.resolves(id) matches Some(path) ==> (r matches Ok(q) && q.store_root == self.settings().store_path
                && q.secret_name@ == secret_name(path)),
    {
        match id {
            None => Err(SelectError::NoIdentity),
            Some(i) => {
                if i >= self.entries.len() as u64 {
                    return Err(SelectError::UnknownIdentity);
                }
                let p = i as usize;
                Ok(RetrievalRequest {
                    store_root: self.config.store_path.clone(),
                    secret_name: strip_marker(self.entries[p].as_str()),
                })
            },
        }
    }
}

/// Searching is deterministic: two answers to the same query over the same
/// index are the same list, in the same order.
pub proof fn lemma_search_deterministic(index: &Index, text: &str, r1: Seq<usize>, r2: Seq<usize>)
    requires
        index.answers(text, r1),
        index.answers(text, r2),
    ensures
        r1 == r2,
{
    if text.len() < index.settings().minimum_length {
        assert(r1 =~= r2);
    } else {
        lemma_ranking_unique(
            candidate_scores(text@, index.candidates()),
            index.settings().max_results as nat,
            r1,
            r2,
        );
    }
}

/// The identity of a leaf result resolves to the very entry whose name and
/// parent make its title and subtitle.
pub proof fn lemma_leaf_identity_resolves(index: &Index, item: ResultItem, position: int)
    requires
        0 <= position < index.candidates().len(),
        formats_as(item, index.candidates()[position]@, position, false),
    ensures
        index.resolves(item.id) == Some(index.candidates()[position]@),
        item.title@ == leaf_title(index.resolves(item.id)->0),
        item.subtitle matches Some(s) && s@ == parent(index.resolves(item.id)->0),
{
}

/// A directory-like result carries no identity, so selecting it resolves to
/// no entry and retrieves nothing.
pub proof fn lemma_directory_not_retrievable(index: &Index, item: ResultItem, path: Seq<char>, position: int)
    requires
        formats_as(item, path, position, true),
    ensures
        item.title@.last() == '/',
        item.id is None,
        index.resolves(item.id) is None,
{
}

} // verus!
