//! The data model of the index: downloadable files, dictionary formats,
//! entries, and the root manifest.

use vstd::prelude::*;
use crate::stamp::{now_utc_rfc3339, timestamp_chars};

verus! {

/// Mathematical model of a [`Downloadable`].
pub ghost struct DownloadableV {
    pub urls: Seq<Seq<char>>,
    pub hash: Seq<char>,
    pub size: u64,
}

/// A file that can be downloaded.
#[derive(Debug, Clone, PartialEq)]
pub struct Downloadable {
    /// Candidate locations, in order of precedence.
    pub urls: Vec<String>,
    /// Integrity hash, in the form `<algorithm>:<hex-digest>`.
    pub hash: String,
    /// Size of the file, in bytes.
    pub size: u64,
}

impl View for Downloadable {
    type V = DownloadableV;

    open spec fn view(&self) -> DownloadableV {
        DownloadableV {
            urls: self.urls@.map_values(|u: String| u@),
            hash: self.hash@,
            size: self.size,
        }
    }
}

/// Mathematical model of a [`DictionaryFormat`].
pub ghost enum DictionaryFormatV {
    Hunspell { aff: DownloadableV, dic: DownloadableV },
    Wordlist(DownloadableV),
}

/// The source files of one dictionary; the shape differs by format.
#[derive(Debug, Clone, PartialEq)]
pub enum DictionaryFormat {
    /// The Hunspell dictionary format: an affix-rule file and a word-list
    /// file, both required.
    Hunspell { aff: Downloadable, dic: Downloadable },
    /// A plain list of words, one word per line.
    Wordlist(Downloadable),
}

impl View for DictionaryFormat {
    type V = DictionaryFormatV;

    open spec fn view(&self) -> DictionaryFormatV {
        match self {
            DictionaryFormat::Hunspell { aff, dic } => DictionaryFormatV::Hunspell {
                aff: aff@,
                dic: dic@,
            },
            DictionaryFormat::Wordlist(wl) => DictionaryFormatV::Wordlist(wl@),
        }
    }
}

/// Mathematical model of an [`IndexEntry`].
pub ghost struct IndexEntryV {
    pub lang: Seq<char>,
    pub tags: Seq<Seq<char>>,
    pub is_ext: bool,
    pub id: Seq<char>,
    pub format: DictionaryFormatV,
    pub lic: DownloadableV,
}

/// A single resolvable dictionary within the index.
#[derive(Debug, Clone, PartialEq)]
pub struct IndexEntry {
    /// Language code of the dictionary.
    pub lang: String,
    /// Free-form labels; exactly one identifies the provenance of the entry
    /// (a `source-x` tag), and these decide when one entry supersedes
    /// another for the same language.
    pub tags: Vec<String>,
    /// True if this dictionary extends a base dictionary (e.g. jargon).
    pub is_ext: bool,
    /// Unique identifier, assigned once when the entry is constructed.
    pub id: String,
    /// The dictionary source files.
    pub format: DictionaryFormat,
    /// The license file; every entry carries one.
    pub lic: Downloadable,
}

impl View for IndexEntry {
    type V = IndexEntryV;

    open spec fn view(&self) -> IndexEntryV {
        IndexEntryV {
            lang: self.lang@,
            tags: self.tags@.map_values(|t: String| t@),
            is_ext: self.is_ext,
            id: self.id@,
            format: self.format@,
            lic: self.lic@,
        }
    }
}

/// Mathematical model of an [`Index`].
pub ghost struct IndexV {
    pub schema_version: u8,
    pub updated: Seq<char>,
    pub retrieved: Option<Seq<char>>,
    pub items: Seq<IndexEntryV>,
}

/// The root manifest.
#[derive(Debug, Clone, PartialEq)]
pub struct Index {
    /// Version of the serialization format; a consumer refuses an index
    /// whose version it does not understand.
    pub schema_version: u8,
    /// Timestamp of generation.
    pub updated: String,
    /// Set only by caching consumers to record when a cached copy was
    /// fetched; the builder always leaves it unset.
    pub retrieved: Option<String>,
    /// The entries, in discovery order.
    pub items: Vec<IndexEntry>,
}

impl View for Index {
    type V = IndexV;

    open spec fn view(&self) -> IndexV {
        IndexV {
            schema_version: self.schema_version,
            updated: self.updated@,
            retrieved: match self.retrieved {
                Some(ref r) => Some(r@),
                None => None,
            },
            items: self.items@.map_values(|e: IndexEntry| e@),
        }
    }
}

impl Index {
    /// A fresh, empty index: current schema version, generation time set to
    /// now, no `retrieved` stamp, no items.
    pub fn new() -> (r: Index)
        ensures
            r@.schema_version == INDEX_VERSION,
            r@.retrieved is None,
            r@.items =~= Seq::<IndexEntryV>::empty(),
            timestamp_chars(r@.updated),
            r@.updated.len() > 0,
    {
        Index {
            schema_version: INDEX_VERSION,
            updated: now_utc_rfc3339(),
            retrieved: None,
            items: Vec::new(),
        }
    }
}

/// The version of the index serialization format.
pub const INDEX_VERSION: u8 = 1;

} // verus!
