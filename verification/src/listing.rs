//! The model of one remote directory listing entry: a file with its size,
//! content hash and download location, or a subdirectory.

use vstd::prelude::*;

verus! {

/// Mathematical model of a [`ListingKind`].
pub ghost enum ListingKindV {
    Dir,
    File { download_url: Seq<char> },
}

/// Whether a listing entry is a subdirectory or a file; a file always
/// carries its download location.
#[derive(Debug, Clone, PartialEq)]
pub enum ListingKind {
    Dir,
    File { download_url: String },
}

impl View for ListingKind {
    type V = ListingKindV;

    open spec fn view(&self) -> ListingKindV {
        match self {
            ListingKind::Dir => ListingKindV::Dir,
            ListingKind::File { download_url } => ListingKindV::File {
                download_url: download_url@,
            },
        }
    }
}

/// Mathematical model of a [`Listing`].
pub ghost struct ListingV {
    pub name: Seq<char>,
    pub path: Seq<char>,
    pub size: u64,
    pub sha: Seq<char>,
    pub url: Seq<char>,
    pub kind: ListingKindV,
}

/// One entry of a remote directory listing.
#[derive(Debug, Clone, PartialEq)]
pub struct Listing {
    /// Bare name of the entry within its directory.
    pub name: String,
    /// Path of the entry from the tree root.
    pub path: String,
    /// Byte size; zero for a subdirectory.
    pub size: u64,
    /// Content digest the remote source computed for the entry.
    pub sha: String,
    /// Location whose retrieval lists (for a subdirectory) or describes
    /// (for a file) this entry.
    pub url: String,
    /// Subdirectory or file.
    pub kind: ListingKind,
}

impl View for Listing {
    type V = ListingV;

    open spec fn view(&self) -> ListingV {
        ListingV {
            name: self.name@,
            path: self.path@,
            size: self.size,
            sha: self.sha@,
            url: self.url@,
            kind: self.kind@,
        }
    }
}

/// The views of a sequence of listings.
pub open spec fn listings_view(ls: Seq<Listing>) -> Seq<ListingV> {
    ls.map_values(|l: Listing| l@)
}

} // verus!
