//! Resolution of one language directory: locate the affix, dictionary and
//! license files in its listing and build one index entry from them.

use vstd::prelude::*;
use crate::index::{Downloadable, DownloadableV, DictionaryFormat, DictionaryFormatV, IndexEntry,
    IndexEntryV};
use crate::listing::{Listing, ListingKind, ListingKindV, ListingV, listings_view};

verus! {

/// `s` ends with `suffix`.
pub open spec fn ends_with(s: Seq<char>, suffix: Seq<char>) -> bool {
    s.len() >= suffix.len() && s.skip(s.len() - suffix.len()) == suffix
}

/// ASCII-lowercase a single character; others are unchanged.
pub open spec fn spec_lower_char(c: char) -> char {
    if 'A' <= c && c <= 'Z' {
        (((c as int) + 32) as u8) as char
    } else {
        c
    }
}

/// `name` equals `license` up to ASCII case.
pub open spec fn matches_license(name: Seq<char>) -> bool {
    name.map_values(|c: char| spec_lower_char(c)) == "license"@
}

/// The three classes of file a language directory must offer.
#[derive(Debug, Clone, Copy, PartialEq, Eq)]
pub enum FileClass {
    Affix,
    Dictionary,
    License,
}

/// Whether a listing entry's name marks it as a candidate for `class`.
pub open spec fn class_matches(class: FileClass, l: ListingV) -> bool {
    match class {
        FileClass::Affix => ends_with(l.name, ".aff"@),
        FileClass::Dictionary => ends_with(l.name, ".dic"@),
        FileClass::License => matches_license(l.name),
    }
}

/// The first listing entry satisfying `f`, in listing order.
pub open spec fn first_match(ls: Seq<ListingV>, f: spec_fn(ListingV) -> bool) -> Option<ListingV>
    decreases ls.len(),
{
    if ls.len() == 0 {
        None
    } else if f(ls[0]) {
        Some(ls[0])
    } else {
        first_match(ls.drop_first(), f)
    }
}

proof fn lemma_first_match_at(ls: Seq<ListingV>, f: spec_fn(ListingV) -> bool, i: int)
    requires
        0 <= i < ls.len(),
        f(ls[i]),
        forall|j: int| 0 <= j < i ==> !f(#[trigger] ls[j]),
    ensures
        first_match(ls, f) == Some(ls[i]),
    decreases i,
{
    if i == 0 {
    } else {
        assert(ls.drop_first()[i - 1] == ls[i]);
        assert(forall|j: int| 0 <= j < i - 1 ==> ls.drop_first()[j] == ls[j + 1] && !f(#[trigger] ls.drop_first()[j]));
        lemma_first_match_at(ls.drop_first(), f, i - 1);
    }
}

proof fn lemma_first_match_none(ls: Seq<ListingV>, f: spec_fn(ListingV) -> bool)
    requires
        forall|j: int| 0 <= j < ls.len() ==> !f(#[trigger] ls[j]),
    ensures
        first_match(ls, f) is None,
    decreases ls.len(),
{
    if ls.len() > 0 {
        assert(forall|j: int| 0 <= j < ls.drop_first().len() ==> ls.drop_first()[j] == ls[j + 1]
            && !f(#[trigger] ls.drop_first()[j]));
        lemma_first_match_none(ls.drop_first(), f);
    }
}

fn lower_char(c: char) -> (r: char)
    ensures
        r == spec_lower_char(c),
{
    if 'A' <= c && c <= 'Z' {
        (((c as u8) + 32) as char)
    } else {
        c
    }
}

fn str_ends_with(s: &str, suffix: &str) -> (r: bool)
    ensures
        r == ends_with(s@, suffix@),
{
    let n = s.unicode_len();
    let m = suffix.unicode_len();
    if m > n {
        return false;
    }
    let mut i: usize = 0;
    while i < m
        invariant
            m <= n,
            n == s@.len(),
            m == suffix@.len(),
            0 <= i <= m,
            forall|j: int| 0 <= j < i ==> s@[n - m + j] == suffix@[j],
        decreases m - i,
    {
        if s.get_char(n - m + i) != suffix.get_char(i) {
            assert(!ends_with(s@, suffix@)) by {
                assert(s@.skip(s@.len() - suffix@.len())[i as int] == s@[n - m + i]);
            }
            return false;
        }
        i += 1;
    }
    proof {
        assert(s@.skip(s@.len() - suffix@.len()) =~= suffix@);
    }
    true
}

fn str_matches_license(s: &str) -> (r: bool)
    ensures
        r == matches_license(s@),
{
    let lit = "license";
    proof {
        reveal_strlit("license");
    }
    let n = s.unicode_len();
    if n != 7 {
        assert(s@.map_values(|c: char| spec_lower_char(c)).len() != lit@.len());
        return false;
    }
    let mut i: usize = 0;
    while i < 7
        invariant
            n == 7,
            n == s@.len(),
            lit@ == "license"@,
            lit@.len() == 7,
            0 <= i <= 7,
            forall|j: int| 0 <= j < i ==> spec_lower_char(s@[j]) == lit@[j],
        decreases 7 - i,
    {
        if lower_char(s.get_char(i)) != lit.get_char(i) {
            assert(!matches_license(s@)) by {
                assert(s@.map_values(|c: char| spec_lower_char(c))[i as int]
                    == spec_lower_char(s@[i as int]));
            }
            return false;
        }
        i += 1;
    }
    proof {
        assert(s@.map_values(|c: char| spec_lower_char(c)) =~= lit@);
    }
    true
}

fn listing_matches(class: FileClass, l: &Listing) -> (r: bool)
    ensures
        r == class_matches(class, l@),
{
    match class {
        FileClass::Affix => str_ends_with(l.name.as_str(), ".aff"),
        FileClass::Dictionary => str_ends_with(l.name.as_str(), ".dic"),
        FileClass::License => str_matches_license(l.name.as_str()),
    }
}

fn find_class(ls: &Vec<Listing>, class: FileClass) -> (r: Option<usize>)
    ensures
        match r {
            Some(i) => i < ls@.len() && first_match(
                listings_view(ls@),
                |l: ListingV| class_matches(class, l),
            ) == Some(ls@[i as int]@),
            None => first_match(listings_view(ls@), |l: ListingV| class_matches(class, l)) is None,
        },
{
    let ghost f = |l: ListingV| class_matches(class, l);
    let mut i: usize = 0;
    while i < ls.len()
        invariant
            0 <= i <= ls@.len(),
            forall|j: int| 0 <= j < i ==> !f(#[trigger] listings_view(ls@)[j]),
            f == (|l: ListingV| class_matches(class, l)),
        decreases ls@.len() - i,
    {
        if listing_matches(class, &ls[i]) {
            proof {
                assert(f(listings_view(ls@)[i as int]));
                lemma_first_match_at(listings_view(ls@), f, i as int);
            }
            return Some(i);
        }
        i += 1;
    }
    proof {
        lemma_first_match_none(listings_view(ls@), f);
    }
    None
}

/// The downloadable a file listing yields: its download location as the one
/// candidate URL, the remote source's digest recorded as `sha1:<digest>`,
/// and the listed size. A subdirectory yields none.
pub open spec fn downloadable_of(l: ListingV) -> Option<DownloadableV> {
    match l.kind {
        ListingKindV::File { download_url } => Some(
            DownloadableV {
                urls: seq![download_url],
                hash: "sha1:"@ + l.sha,
                size: l.size,
            },
        ),
        ListingKindV::Dir => None,
    }
}

/// A listing entry that was expected to be a file is a directory.
#[derive(Debug, Clone, Copy, PartialEq, Eq)]
pub struct ShapeError;

/// Build the downloadable for one file listing; fails with a
/// [`ShapeError`] when the entry is a directory.
pub fn make_downloadable(listing: &Listing) -> (r: Result<Downloadable, ShapeError>)
    ensures
        match downloadable_of(listing@) {
            Some(d) => r matches Ok(dl) && dl@ == d,
            None => r is Err,
        },
{
    match &listing.kind {
        ListingKind::File { download_url } => {
            let mut urls: Vec<String> = Vec::new();
            urls.push(download_url.clone());
            let mut hash = String::from_str("sha1:");
            hash.append(listing.sha.as_str());
            let dl = Downloadable { urls, hash, size: listing.size };
            proof {
                assert(dl@.urls =~~= downloadable_of(listing@).unwrap().urls);
            }
            Ok(dl)
        },
        ListingKind::Dir => Err(ShapeError),
    }
}

/// Mathematical model of a [`Resolution`].
pub ghost enum ResolutionV {
    Resolved(IndexEntryV),
    Missing(FileClass),
    ShapeMismatch(FileClass),
}

/// The outcome of resolving one language directory.
#[derive(Debug, Clone, PartialEq)]
pub enum Resolution {
    /// All three required files were found; here is the entry.
    Resolved(IndexEntry),
    /// A required file class had no candidate: the language is skipped,
    /// which is not a fault.
    Missing(FileClass),
    /// A candidate that had to be a file is a directory: a hard error for
    /// this language.
    ShapeMismatch(FileClass),
}

impl View for Resolution {
    type V = ResolutionV;

    open spec fn view(&self) -> ResolutionV {
        match self {
            Resolution::Resolved(e) => ResolutionV::Resolved(e@),
            Resolution::Missing(c) => ResolutionV::Missing(*c),
            Resolution::ShapeMismatch(c) => ResolutionV::ShapeMismatch(*c),
        }
    }
}

/// The provenance tag every entry of this source carries.
pub open spec fn source_tag() -> Seq<char> {
    "source-wooorm"@
}

/// What resolving one language directory yields: the first candidate of
/// each class is taken; a class without a candidate gives a soft skip, a
/// candidate that is a directory gives a hard structural error, and
/// otherwise the entry is built with the Hunspell format, the fixed
/// provenance tag, and the given identifier.
pub open spec fn resolve_spec(lang: Seq<char>, ls: Seq<ListingV>, id: Seq<char>) -> ResolutionV {
    match first_match(ls, |l: ListingV| class_matches(FileClass::Affix, l)) {
        None => ResolutionV::Missing(FileClass::Affix),
        Some(aff) => match first_match(ls, |l: ListingV| class_matches(FileClass::Dictionary, l)) {
            None => ResolutionV::Missing(FileClass::Dictionary),
            Some(dic) => match first_match(
                ls,
                |l: ListingV| class_matches(FileClass::License, l),
            ) {
                None => ResolutionV::Missing(FileClass::License),
                Some(lic) => match (downloadable_of(aff), downloadable_of(dic), downloadable_of(
                    lic,
                )) {
                    (None, _, _) => ResolutionV::ShapeMismatch(FileClass::Affix),
                    (Some(_), None, _) => ResolutionV::ShapeMismatch(FileClass::Dictionary),
                    (Some(_), Some(_), None) => ResolutionV::ShapeMismatch(FileClass::License),
                    (Some(aff_d), Some(dic_d), Some(lic_d)) => ResolutionV::Resolved(
                        IndexEntryV {
                            lang: lang,
                            tags: seq![source_tag()],
                            is_ext: false,
                            id: id,
                            format: DictionaryFormatV::Hunspell { aff: aff_d, dic: dic_d },
                            lic: lic_d,
                        },
                    ),
                },
            },
        },
    }
}

/// The listing offers at least one candidate for `class`.
pub open spec fn has_candidate(ls: Seq<ListingV>, class: FileClass) -> bool {
    exists|i: int| 0 <= i < ls.len() && class_matches(class, #[trigger] ls[i])
}

/// Every candidate for `class` is a file, not a subdirectory.
pub open spec fn candidates_are_files(ls: Seq<ListingV>, class: FileClass) -> bool {
    forall|i: int|
        0 <= i < ls.len() && class_matches(class, #[trigger] ls[i]) ==> ls[i].kind is File
}

/// Every candidate for `class` is a subdirectory.
pub open spec fn candidates_are_dirs(ls: Seq<ListingV>, class: FileClass) -> bool {
    forall|i: int| 0 <= i < ls.len() && class_matches(class, #[trigger] ls[i]) ==> ls[i].kind is Dir
}

proof fn lemma_first_match_props(ls: Seq<ListingV>, f: spec_fn(ListingV) -> bool)
    ensures
        match first_match(ls, f) {
            Some(x) => f(x) && ls.contains(x),
            None => forall|i: int| 0 <= i < ls.len() ==> !f(#[trigger] ls[i]),
        },
    decreases ls.len(),
{
    if ls.len() > 0 && !f(ls[0]) {
        lemma_first_match_props(ls.drop_first(), f);
        match first_match(ls.drop_first(), f) {
            Some(x) => {
                let j = choose|j: int|
                    0 <= j < ls.drop_first().len() && ls.drop_first()[j] == x;
                assert(ls[j + 1] == x);
            },
            None => {
                assert forall|i: int| 0 <= i < ls.len() implies !f(#[trigger] ls[i]) by {
                    if i > 0 {
                        assert(ls.drop_first()[i - 1] == ls[i]);
                        assert(!f(ls.drop_first()[i - 1]));
                    }
                }
            },
        }
    }
}

proof fn lemma_candidate_found(ls: Seq<ListingV>, class: FileClass)
    requires
        has_candidate(ls, class),
    ensures
        first_match(ls, |l: ListingV| class_matches(class, l)) matches Some(x) && class_matches(
            class,
            x,
        ) && ls.contains(x),
{
    let f = |l: ListingV| class_matches(class, l);
    lemma_first_match_props(ls, f);
    if first_match(ls, f) is None {
        let i = choose|i: int| 0 <= i < ls.len() && class_matches(class, #[trigger] ls[i]);
        assert(!f(ls[i]));
    }
}

/// A directory offering affix, dictionary and license files — wherever
/// they stand in the listing — always resolves to exactly one entry, in
/// the Hunspell format, with the fixed provenance tag and the given
/// language and identifier.
pub proof fn lemma_all_files_resolve(lang: Seq<char>, ls: Seq<ListingV>, id: Seq<char>)
    requires
        has_candidate(ls, FileClass::Affix),
        has_candidate(ls, FileClass::Dictionary),
        has_candidate(ls, FileClass::License),
        candidates_are_files(ls, FileClass::Affix),
        candidates_are_files(ls, FileClass::Dictionary),
        candidates_are_files(ls, FileClass::License),
    ensures
        resolve_spec(lang, ls, id) matches ResolutionV::Resolved(e) && e.lang == lang && e.id == id
            && e.is_ext == false && e.tags == seq![source_tag()] && e.format is Hunspell,
{
    lemma_candidate_found(ls, FileClass::Affix);
    lemma_candidate_found(ls, FileClass::Dictionary);
    lemma_candidate_found(ls, FileClass::License);
    let aff = first_match(ls, |l: ListingV| class_matches(FileClass::Affix, l)).unwrap();
    let dic = first_match(ls, |l: ListingV| class_matches(FileClass::Dictionary, l)).unwrap();
    let lic = first_match(ls, |l: ListingV| class_matches(FileClass::License, l)).unwrap();
    let ja = choose|j: int| 0 <= j < ls.len() && ls[j] == aff;
    let jd = choose|j: int| 0 <= j < ls.len() && ls[j] == dic;
    let jl = choose|j: int| 0 <= j < ls.len() && ls[j] == lic;
    assert(class_matches(FileClass::Affix, ls[ja]));
    assert(class_matches(FileClass::Dictionary, ls[jd]));
    assert(class_matches(FileClass::License, ls[jl]));
}

/// A directory with no candidate at all for one of the three required
/// classes yields no entry and no hard fault: resolution is a soft skip.
pub proof fn lemma_missing_class_skips(lang: Seq<char>, ls: Seq<ListingV>, id: Seq<char>)
    requires
        !has_candidate(ls, FileClass::Affix) || !has_candidate(ls, FileClass::Dictionary)
            || !has_candidate(ls, FileClass::License),
    ensures
        resolve_spec(lang, ls, id) is Missing,
{
    let fa = |l: ListingV| class_matches(FileClass::Affix, l);
    let fd = |l: ListingV| class_matches(FileClass::Dictionary, l);
    let fl = |l: ListingV| class_matches(FileClass::License, l);
    lemma_first_match_props(ls, fa);
    lemma_first_match_props(ls, fd);
    lemma_first_match_props(ls, fl);
    match first_match(ls, fa) {
        None => {},
        Some(a) => {
            let ja = choose|j: int| 0 <= j < ls.len() && ls[j] == a;
            assert(class_matches(FileClass::Affix, ls[ja]));
            match first_match(ls, fd) {
                None => {},
                Some(d) => {
                    let jd = choose|j: int| 0 <= j < ls.len() && ls[j] == d;
                    assert(class_matches(FileClass::Dictionary, ls[jd]));
                    match first_match(ls, fl) {
                        None => {},
                        Some(c) => {
                            let jc = choose|j: int| 0 <= j < ls.len() && ls[j] == c;
                            assert(class_matches(FileClass::License, ls[jc]));
                        },
                    }
                },
            }
        },
    }
}

/// A directory where the affix-suffixed candidates are in fact
/// subdirectories — while all three classes have candidates — resolves to
/// a hard fault for the affix file, not to a skip.
pub proof fn lemma_affix_directory_faults(lang: Seq<char>, ls: Seq<ListingV>, id: Seq<char>)
    requires
        has_candidate(ls, FileClass::Affix),
        has_candidate(ls, FileClass::Dictionary),
        has_candidate(ls, FileClass::License),
        candidates_are_dirs(ls, FileClass::Affix),
    ensures
        resolve_spec(lang, ls, id) == ResolutionV::ShapeMismatch(FileClass::Affix),
{
    lemma_candidate_found(ls, FileClass::Affix);
    lemma_candidate_found(ls, FileClass::Dictionary);
    lemma_candidate_found(ls, FileClass::License);
    let aff = first_match(ls, |l: ListingV| class_matches(FileClass::Affix, l)).unwrap();
    let ja = choose|j: int| 0 <= j < ls.len() && ls[j] == aff;
    assert(class_matches(FileClass::Affix, ls[ja]));
}

/// Resolve one language directory listing into zero or one entry, with the
/// given fresh identifier for the entry.
pub fn resolve_language(lang: &str, listing: &Vec<Listing>, id: String) -> (r: Resolution)
    ensures
        r@ == resolve_spec(lang@, listings_view(listing@), id@),
{
    let aff_i = match find_class(listing, FileClass::Affix) {
        Some(i) => i,
        None => {
            return Resolution::Missing(FileClass::Affix);
        },
    };
    let dic_i = match find_class(listing, FileClass::Dictionary) {
        Some(i) => i,
        None => {
            return Resolution::Missing(FileClass::Dictionary);
        },
    };
    let lic_i = match find_class(listing, FileClass::License) {
        Some(i) => i,
        None => {
            return Resolution::Missing(FileClass::License);
        },
    };
    let aff_d = match make_downloadable(&listing[aff_i]) {
        Ok(d) => d,
        Err(_) => {
            return Resolution::ShapeMismatch(FileClass::Affix);
        },
    };
    let dic_d = match make_downloadable(&listing[dic_i]) {
        Ok(d) => d,
        Err(_) => {
            return Resolution::ShapeMismatch(FileClass::Dictionary);
        },
    };
    let lic_d = match make_downloadable(&listing[lic_i]) {
        Ok(d) => d,
        Err(_) => {
            return Resolution::ShapeMismatch(FileClass::License);
        },
    };
    let mut tags: Vec<String> = Vec::new();
    tags.push(String::from_str("source-wooorm"));
    let entry = IndexEntry {
        lang: String::from_str(lang),
        tags,
        is_ext: false,
        id,
        format: DictionaryFormat::Hunspell { aff: aff_d, dic: dic_d },
        lic: lic_d,
    };
    proof {
        let resolved = resolve_spec(lang@, listings_view(listing@), id@);
        assert(entry@.tags =~~= seq![source_tag()]);
        assert(resolved matches ResolutionV::Resolved(e) && e == entry@);
    }
    Resolution::Resolved(entry)
}

} // verus!
