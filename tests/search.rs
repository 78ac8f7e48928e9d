use pass_search::config::{default_store_path, Config, DEFAULT_MAX_RESULTS, DEFAULT_MINIMUM_LENGTH};
use pass_search::format::{format_entry, ResultItem};
use pass_search::index::{Index, SelectError};
use pass_search::matching::{rank, search};
use pass_search::retrieve::{secret_from_output, strip_marker, RetrievalError};
use pass_search::scan::{collect_entries, relative_entry};

fn strings(v: &[&str]) -> Vec<String> {
    v.iter().map(|s| s.to_string()).collect()
}

fn store_index(entries: &[&str]) -> Index {
    Index::new(Config::with_store_path("/store".to_string()), strings(entries))
}

fn leaf_results(index: &Index, text: &str) -> Vec<ResultItem> {
    let ranked = index.search(text);
    let dirs = vec![false; ranked.len()];
    index.results(&ranked, &dirs)
}

#[test]
fn email_entry_found_and_selected() {
    let found = strings(&["/store/work/email.gpg", "/store/personal/bank.gpg"]);
    let entries = collect_entries("/store", &found);
    assert_eq!(entries, strings(&["work/email.gpg", "personal/bank.gpg"]));
    let index = Index::new(Config::with_store_path("/store".to_string()), entries);
    let items = leaf_results(&index, "email");
    assert_eq!(items.len(), 1);
    assert_eq!(items[0].title, "email");
    assert_eq!(items[0].subtitle, Some("work".to_string()));
    assert_eq!(items[0].id, Some(0));
    let request = index.select(items[0].id).ok().unwrap();
    assert_eq!(request.secret_name, "work/email");
    assert_eq!(request.store_root, "/store");
}

#[test]
fn short_query_gives_nothing() {
    let index = store_index(&["em.gpg", "e.gpg", "work/email.gpg"]);
    assert!(index.search("em").is_empty());
    assert!(index.search("").is_empty());
    assert!(leaf_results(&index, "e").is_empty());
}

#[test]
fn minimum_length_counts_bytes() {
    let index = store_index(&["work/email.gpg"]);
    assert_eq!(index.search("ema").len(), 1);
}

#[test]
fn results_never_exceed_max() {
    let names: Vec<String> = (0..40).map(|i| format!("site{}/login.gpg", i)).collect();
    let index = Index::new(Config::with_store_path("/store".to_string()), names);
    let ranked = index.search("login");
    assert_eq!(ranked.len(), DEFAULT_MAX_RESULTS);
    let config = Config { minimum_length: 1, max_results: 3, store_path: "/store".to_string() };
    let small = Index::new(config, strings(&["a.gpg", "ab.gpg", "abc.gpg", "abcd.gpg", "b.gpg"]));
    assert_eq!(small.search("a").len(), 3);
}

#[test]
fn search_is_deterministic() {
    let index = store_index(&["work/email.gpg", "mail/server.gpg", "personal/emails.gpg", "bank.gpg"]);
    let first = index.search("mail");
    let second = index.search("mail");
    assert_eq!(first, second);
    assert!(!first.is_empty());
}

#[test]
fn exact_leaf_name_ranks_near_top() {
    let index = store_index(&["old/emails-archive.gpg", "work/email.gpg", "x/e-m-a-i-l.gpg", "bank.gpg"]);
    let ranked = index.search("email");
    let at = ranked.iter().position(|&p| p == 1).unwrap();
    assert!(at <= 1);
    assert!(!ranked.contains(&3));
}

#[test]
fn leaf_identity_resolves_to_its_entry() {
    let index = store_index(&["work/email.gpg", "personal/email.gpg", "email.gpg"]);
    let items = leaf_results(&index, "email");
    assert_eq!(items.len(), 3);
    for item in &items {
        let request = index.select(item.id).ok().unwrap();
        let position = item.id.unwrap() as usize;
        let entry = &index.entries()[position];
        assert_eq!(format!("{}.gpg", request.secret_name), *entry);
        let subtitle = item.subtitle.clone().unwrap();
        if subtitle.is_empty() {
            assert_eq!(request.secret_name, item.title);
        } else {
            assert_eq!(request.secret_name, format!("{}/{}", subtitle, item.title));
        }
    }
}

#[test]
fn directory_result_is_not_retrievable() {
    let index = store_index(&["work/email.gpg", "archive.gpg"]);
    let ranked = index.search("archive");
    assert_eq!(ranked, vec![1]);
    let items = index.results(&ranked, &vec![true]);
    assert_eq!(items[0].title, "archive.gpg/");
    assert_eq!(items[0].subtitle, None);
    assert_eq!(items[0].id, None);
    assert!(matches!(index.select(items[0].id), Err(SelectError::NoIdentity)));
}

#[test]
fn unknown_identity_is_rejected() {
    let index = store_index(&["work/email.gpg"]);
    assert!(matches!(index.select(Some(1)), Err(SelectError::UnknownIdentity)));
    assert!(matches!(index.select(Some(u64::MAX)), Err(SelectError::UnknownIdentity)));
}

#[test]
fn empty_output_is_a_failure() {
    assert_eq!(secret_from_output(Vec::new()), Err(RetrievalError::EmptyOutput));
}

#[test]
fn invalid_utf8_output_is_a_failure() {
    assert_eq!(secret_from_output(vec![b'p', 0xff, b'\n']), Err(RetrievalError::NotUtf8));
}

#[test]
fn only_first_line_is_the_secret() {
    assert_eq!(secret_from_output(b"hunter2\nuser: me\nurl: x\n".to_vec()), Ok("hunter2".to_string()));
    assert_eq!(secret_from_output(b"hunter2\r\nuser: me".to_vec()), Ok("hunter2".to_string()));
    assert_eq!(secret_from_output(b"hunter2".to_vec()), Ok("hunter2".to_string()));
    assert_eq!(secret_from_output(b"\nrest".to_vec()), Ok(String::new()));
    assert_eq!(secret_from_output("pässwörd\n".as_bytes().to_vec()), Ok("pässwörd".to_string()));
}

#[test]
fn scan_skips_bookkeeping_directory() {
    let found = strings(&[
        "/store/.git/objects/ab.gpg",
        "/store/work/email.gpg",
        "/store/.git.gpg",
        "/store/.gitkeep/x.gpg",
        "/store/.git",
        "/elsewhere/a.gpg",
        "/store/bank.gpg",
    ]);
    let entries = collect_entries("/store", &found);
    assert_eq!(entries, strings(&["work/email.gpg", ".git.gpg", ".gitkeep/x.gpg", "bank.gpg"]));
}

#[test]
fn scan_accepts_root_with_trailing_separator() {
    assert_eq!(relative_entry("/store/", "/store/a/b.gpg"), Some("a/b.gpg".to_string()));
    assert_eq!(relative_entry("/store", "/storex/b.gpg"), None);
    assert_eq!(relative_entry("/store/", "/store/.git/b.gpg"), None);
}

#[test]
fn rank_orders_by_score_then_position() {
    let scores = vec![Some(5), None, Some(9), Some(5), Some(1), Some(9)];
    assert_eq!(rank(&scores, 10), vec![2, 5, 0, 3, 4]);
    assert_eq!(rank(&scores, 3), vec![2, 5, 0]);
    assert_eq!(rank(&scores, 0), Vec::<usize>::new());
    assert_eq!(rank(&vec![None, None], 4), Vec::<usize>::new());
}

#[test]
fn search_drops_non_matches() {
    let candidates = strings(&["work/email.gpg", "personal/bank.gpg", "zzz.gpg"]);
    assert_eq!(search("bank", &candidates, 10), vec![1]);
    assert_eq!(search("qqq", &candidates, 10), Vec::<usize>::new());
}

#[test]
fn search_ignores_case() {
    let candidates = strings(&["Work/Email.gpg"]);
    assert_eq!(search("email", &candidates, 10), vec![0]);
}

#[test]
fn leaf_at_root_has_empty_subtitle() {
    let item = format_entry("bank.gpg", 7, false);
    assert_eq!(item.title, "bank");
    assert_eq!(item.subtitle, Some(String::new()));
    assert_eq!(item.id, Some(7));
    let nested = format_entry("a/b/c.d.gpg", 2, false);
    assert_eq!(nested.title, "c.d");
    assert_eq!(nested.subtitle, Some("a/b".to_string()));
    let bare = format_entry("x/.gpg", 0, false);
    assert_eq!(bare.title, ".gpg");
}

#[test]
fn marker_is_stripped_for_retrieval() {
    assert_eq!(strip_marker("work/email.gpg"), "work/email");
    assert_eq!(strip_marker("notes.txt"), "notes.txt");
    assert_eq!(strip_marker(".gpg"), "");
}

#[test]
fn default_settings() {
    let config = Config::with_store_path("/s".to_string());
    assert_eq!(config.minimum_length, DEFAULT_MINIMUM_LENGTH);
    assert_eq!(config.minimum_length, 3);
    assert_eq!(config.max_results, 10);
    assert_eq!(default_store_path(Some("/custom".to_string()), "/home/u"), "/custom");
    assert_eq!(default_store_path(None, "/home/u"), "/home/u/.password-store");
    assert_eq!(default_store_path(None, "/home/u/"), "/home/u/.password-store");
}
