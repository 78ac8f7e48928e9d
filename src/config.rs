//! Settings of the search.
use vstd::prelude::*;
use crate::text::{chars_of, string_of};

verus! {

/// Queries shorter than this (in bytes) are not searched, by default.
pub const DEFAULT_MINIMUM_LENGTH: usize = 3;

/// The most results one query returns, by default.
pub const DEFAULT_MAX_RESULTS: usize = 10;

/// Settings of the search, fixed once loaded.
pub struct Config {
    /// Queries shorter than this (in bytes) give no results.
    pub minimum_length: usize,
    /// The most results one query returns.
    pub max_results: usize,
    /// The root directory of the store.
    pub store_path: String,
}

impl Config {
    /// The default settings for the store at `store_path`.
    pub fn with_store_path(store_path: String) -> (r: Config)
        ensures
            r.minimum_length == DEFAULT_MINIMUM_LENGTH,
            r.max_results == DEFAULT_MAX_RESULTS,
            r.store_path == store_path,
    {
        Config { minimum_length: DEFAULT_MINIMUM_LENGTH, max_results: DEFAULT_MAX_RESULTS, store_path }
    }
}

/// The store that lives in the home directory `home`.
pub open spec fn home_store(home: Seq<char>) -> Seq<char> {
    if home.len() == 0 {
        ".password-store"@
    } else if home.last() == '/' {
        home + ".password-store"@
    } else {
        home.push('/') + ".password-store"@
    }
}

/// The default root of the store: the directory named by the store
/// override when there is one, else the store in the home directory.
pub fn default_store_path(store_override: Option<String>, home: &str) -> (r: String)
    ensures
        store_override matches Some(d) ==> r == d,
        store_override is None ==> r@ == home_store(home@),
{
    match store_override {
        Some(d) => d,
        None => {
            let mut v = chars_of(home);
            if v.len() > 0 && v[v.len() - 1] != '/' {
                v.push('/');
            }
            let mut tail = chars_of(".password-store");
            v.append(&mut tail);
            let n = v.len();
            assert(v@.subrange(0, n as int) == v@);
            string_of(&v, 0, n)
        },
    }
}

} // verus!
