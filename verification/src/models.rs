//! What requests carry and responses hold.

use crate::util;
use vstd::prelude::*;

verus! {

/// The listing of one folder.
#[derive(Debug, Clone)]
pub struct AlbumResponse {
    pub path: String,
    pub name: String,
    pub breadcrumbs: Vec<Breadcrumb>,
    pub folders: Vec<FolderItem>,
    pub photos: Vec<PhotoItem>,
}

/// A folder on the way from the album root to the one listed.
#[derive(Debug, Clone)]
pub struct Breadcrumb {
    pub name: String,
    pub path: String,
}

/// A subfolder of a listing.
#[derive(Debug, Clone)]
pub struct FolderItem {
    pub name: String,
    pub path: String,
    /// The cover thumbnail, relative to the subfolder.
    pub cover: Option<String>,
    pub count_photos: usize,
    pub count_albums: usize,
}

/// A photo or video of a listing.
#[derive(Debug, Clone)]
pub struct PhotoItem {
    pub name: String,
    /// `"image"` or `"video"`.
    pub media_type: String,
    /// The thumbnail, relative to the folder listed.
    pub thumb: String,
    pub width: u32,
    pub height: u32,
    /// The length of a video in seconds, where it is known.
    pub duration: Option<u64>,
}

/// A request to make an image the cover of some folders.
#[derive(Debug, Clone)]
pub struct SetCoverRequest {
    pub image_path: String,
    pub targets: Vec<String>,
}

/// The content of an [`AlbumResponse`].
#[verifier::ext_equal]
pub struct Album {
    pub path: Seq<char>,
    pub name: Seq<char>,
    pub breadcrumbs: Seq<Crumb>,
    pub folders: Seq<FolderEntry>,
    pub photos: Seq<PhotoEntry>,
}

/// The content of a [`Breadcrumb`].
pub struct Crumb {
    pub name: Seq<char>,
    pub path: Seq<char>,
}

/// The content of a [`FolderItem`].
pub struct FolderEntry {
    pub name: Seq<char>,
    pub path: Seq<char>,
    pub cover: Option<Seq<char>>,
    pub count_photos: usize,
    pub count_albums: usize,
}

/// The content of a [`PhotoItem`].
pub struct PhotoEntry {
    pub name: Seq<char>,
    pub media_type: Seq<char>,
    pub thumb: Seq<char>,
    pub width: u32,
    pub height: u32,
    pub duration: Option<u64>,
}

impl View for Breadcrumb {
    type V = Crumb;

    open spec fn view(&self) -> Crumb {
        Crumb { name: self.name@, path: self.path@ }
    }
}

impl View for FolderItem {
    type V = FolderEntry;

    open spec fn view(&self) -> FolderEntry {
        FolderEntry {
            name: self.name@,
            path: self.path@,
            cover: util::opt_view(self.cover),
            count_photos: self.count_photos,
            count_albums: self.count_albums,
        }
    }
}

impl View for PhotoItem {
    type V = PhotoEntry;

    open spec fn view(&self) -> PhotoEntry {
        PhotoEntry {
            name: self.name@,
            media_type: self.media_type@,
            thumb: self.thumb@,
            width: self.width,
            height: self.height,
            duration: self.duration,
        }
    }
}

impl View for AlbumResponse {
    type V = Album;

    open spec fn view(&self) -> Album {
        Album {
            path: self.path@,
            name: self.name@,
            breadcrumbs: self.breadcrumbs@.map_values(|c: Breadcrumb| c@),
            folders: self.folders@.map_values(|f: FolderItem| f@),
            photos: self.photos@.map_values(|p: PhotoItem| p@),
        }
    }
}

} // verus!
