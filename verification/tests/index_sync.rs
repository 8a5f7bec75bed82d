use zspell_index::builder::{FetchError, IndexBuilder, StepOutcome, Target, discovery_targets};
use zspell_index::index::{DictionaryFormat, Index, INDEX_VERSION};
use zspell_index::listing::{Listing, ListingKind};
use zspell_index::resolve::{make_downloadable, resolve_language, FileClass, Resolution};
use zspell_index::serialize::output_file_names;

fn file(name: &str, sha: &str, size: u64) -> Listing {
    Listing {
        name: name.to_string(),
        path: format!("dictionaries/{name}"),
        size,
        sha: sha.to_string(),
        url: format!("https://example.test/info/{name}"),
        kind: ListingKind::File { download_url: format!("https://example.test/raw/{name}") },
    }
}

fn dir(name: &str) -> Listing {
    Listing {
        name: name.to_string(),
        path: format!("dictionaries/{name}"),
        size: 0,
        sha: "d".to_string(),
        url: format!("https://example.test/dir/{name}"),
        kind: ListingKind::Dir,
    }
}

#[test]
fn complete_set_resolves_regardless_of_order() {
    let listing = vec![
        file("readme.md", "x", 1),
        file("license", "ccc", 30),
        file("en.dic", "bbb", 20),
        file("en.aff", "aaa", 10),
    ];
    let r = resolve_language("en", &listing, "id-1".to_string());
    match r {
        Resolution::Resolved(e) => {
            assert_eq!(e.lang, "en");
            assert_eq!(e.tags, vec!["source-wooorm".to_string()]);
            assert!(!e.is_ext);
            assert_eq!(e.id, "id-1");
            match e.format {
                DictionaryFormat::Hunspell { aff, dic } => {
                    assert_eq!(aff.hash, "sha1:aaa");
                    assert_eq!(aff.size, 10);
                    assert_eq!(aff.urls, vec!["https://example.test/raw/en.aff".to_string()]);
                    assert_eq!(dic.hash, "sha1:bbb");
                },
                DictionaryFormat::Wordlist(_) => panic!("expected the hunspell format"),
            }
            assert_eq!(e.lic.hash, "sha1:ccc");
            assert_eq!(e.lic.size, 30);
        },
        other => panic!("expected a resolved entry, got {other:?}"),
    }
}

#[test]
fn license_name_matches_case_insensitively() {
    let listing = vec![file("en.aff", "a", 1), file("en.dic", "b", 2), file("LICENSE", "c", 3)];
    let r = resolve_language("en", &listing, "id-2".to_string());
    assert!(matches!(r, Resolution::Resolved(_)));
}

#[test]
fn missing_affix_skips() {
    let listing = vec![file("en.dic", "b", 2), file("license", "c", 3)];
    let r = resolve_language("en", &listing, "id-3".to_string());
    assert_eq!(r, Resolution::Missing(FileClass::Affix));
}

#[test]
fn missing_dictionary_skips() {
    let listing = vec![file("en.aff", "a", 1), file("license", "c", 3)];
    let r = resolve_language("en", &listing, "id-4".to_string());
    assert_eq!(r, Resolution::Missing(FileClass::Dictionary));
}

#[test]
fn missing_license_skips() {
    let listing = vec![file("en.aff", "a", 1), file("en.dic", "b", 2)];
    let r = resolve_language("en", &listing, "id-5".to_string());
    assert_eq!(r, Resolution::Missing(FileClass::License));
}

#[test]
fn missing_file_does_not_flag_the_run() {
    let mut b = IndexBuilder::new();
    let listing = vec![file("de.dic", "b", 2)];
    let outcome = b.add_language("de", Ok(listing));
    assert_eq!(outcome, StepOutcome::Skipped(FileClass::Affix));
    assert!(b.items.is_empty());
    assert!(!b.has_errors);
}

#[test]
fn affix_directory_is_a_hard_error() {
    let listing = vec![dir("en.aff"), file("en.dic", "b", 2), file("license", "c", 3)];
    let r = resolve_language("en", &listing, "id-6".to_string());
    assert_eq!(r, Resolution::ShapeMismatch(FileClass::Affix));

    let mut b = IndexBuilder::new();
    let outcome = b.add_language("en", Ok(vec![dir("en.aff"), file("en.dic", "b", 2), file(
        "license", "c", 3,
    )]));
    assert_eq!(outcome, StepOutcome::ShapeFault(FileClass::Affix));
    assert!(b.items.is_empty());
    assert!(b.has_errors);
}

#[test]
fn fetch_failure_is_a_hard_error() {
    let mut b = IndexBuilder::new();
    let outcome = b.add_language("fr", Err(FetchError::Transport));
    assert_eq!(outcome, StepOutcome::FetchFailed(FetchError::Transport));
    assert!(b.has_errors);
    let outcome = b.add_language("it", Err(FetchError::ResponseFormat));
    assert_eq!(outcome, StepOutcome::FetchFailed(FetchError::ResponseFormat));
    assert!(b.items.is_empty());
}

#[test]
fn make_downloadable_copies_the_listing() {
    let l = file("en.aff", "abc123", 42);
    let d = make_downloadable(&l).unwrap();
    assert_eq!(d.urls, vec!["https://example.test/raw/en.aff".to_string()]);
    assert_eq!(d.hash, "sha1:abc123");
    assert_eq!(d.size, 42);
}

#[test]
fn make_downloadable_rejects_a_directory() {
    let l = dir("en.aff");
    assert!(make_downloadable(&l).is_err());
}

#[test]
fn discovery_targets_keeps_directories_in_order() {
    let top = vec![dir("en"), file("readme.md", "x", 1), dir("de"), dir("fr")];
    let targets: Vec<Target> = discovery_targets(&top);
    let langs: Vec<String> = targets.iter().map(|t| t.lang.clone()).collect();
    assert_eq!(langs, vec!["en".to_string(), "de".to_string(), "fr".to_string()]);
    assert_eq!(targets[0].url, "https://example.test/dir/en");
}

#[test]
fn complete_languages_accumulate_in_listing_order() {
    let mut b = IndexBuilder::new();
    for lang in ["en", "de", "fr"] {
        let listing = vec![
            file(&format!("{lang}.aff"), "a", 1),
            file(&format!("{lang}.dic"), "b", 2),
            file("license", "c", 3),
        ];
        let outcome = b.add_language(lang, Ok(listing));
        assert_eq!(outcome, StepOutcome::Added);
    }
    assert_eq!(b.items.len(), 3);
    assert_eq!(b.items[0].lang, "en");
    assert_eq!(b.items[1].lang, "de");
    assert_eq!(b.items[2].lang, "fr");
    assert!(!b.has_errors);
    let index = b.finish();
    assert_eq!(index.items.len(), 3);
    assert_eq!(index.schema_version, INDEX_VERSION);
    assert!(index.retrieved.is_none());
}

#[test]
fn entry_ids_look_like_uuids() {
    let mut b = IndexBuilder::new();
    b.add_language("en", Ok(vec![
        file("en.aff", "a", 1),
        file("en.dic", "b", 2),
        file("license", "c", 3),
    ]));
    let id = &b.items[0].id;
    assert_eq!(id.len(), 36);
    for (i, c) in id.chars().enumerate() {
        if i == 8 || i == 13 || i == 18 || i == 23 {
            assert_eq!(c, '-');
        } else {
            assert!(c.is_ascii_hexdigit() && !c.is_ascii_uppercase());
        }
    }
}

#[test]
fn fresh_index_has_a_timestamp() {
    let index = Index::new();
    assert_eq!(index.schema_version, 1);
    assert!(index.retrieved.is_none());
    assert!(index.items.is_empty());
    assert!(!index.updated.is_empty());
    for c in index.updated.chars() {
        assert!(c.is_ascii_digit() || "-:T+.Z".contains(c));
    }
}

#[test]
fn incomplete_run_renames_both_outputs() {
    let (compact, pretty) = output_file_names(true);
    assert_eq!(compact, "zspell-index.incomplete.json");
    assert_eq!(pretty, "zspell-index-pretty.incomplete.json");
    let (compact, pretty) = output_file_names(false);
    assert_eq!(compact, "zspell-index.json");
    assert_eq!(pretty, "zspell-index-pretty.json");
}

#[test]
fn example_run_en_complete_de_partial() {
    let top = vec![dir("en"), dir("de")];
    let targets = discovery_targets(&top);
    assert_eq!(targets.len(), 2);

    let mut b = IndexBuilder::new();
    let en_listing = vec![
        file("en.aff", "aaa", 10),
        file("en.dic", "bbb", 20),
        file("license", "ccc", 30),
    ];
    let de_listing = vec![file("de.dic", "ddd", 40)];
    let o1 = b.add_language(&targets[0].lang, Ok(en_listing));
    let o2 = b.add_language(&targets[1].lang, Ok(de_listing));
    assert_eq!(o1, StepOutcome::Added);
    assert_eq!(o2, StepOutcome::Skipped(FileClass::Affix));
    assert!(!b.has_errors);
    assert_eq!(b.items.len(), 1);
    assert_eq!(b.items[0].lang, "en");
    assert_eq!(b.items[0].lic.hash, "sha1:ccc");
    let (name, _) = output_file_names(b.has_errors);
    assert_eq!(name, "zspell-index.json");
}
