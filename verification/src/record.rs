//! The metadata record for one uploaded image.

use vstd::prelude::*;

verus! {

/// One metadata entry for an uploaded image: the URL path of the stored file,
/// plus the client-supplied title and description.
pub struct ImageMeta {
    pub path: String,
    pub title: String,
    pub description: String,
}

/// Mathematical view of an [`ImageMeta`]: the three fields as character
/// sequences.
pub struct ImageMetaView {
    pub path: Seq<char>,
    pub title: Seq<char>,
    pub description: Seq<char>,
}

impl View for ImageMeta {
    type V = ImageMetaView;

    open spec fn view(&self) -> ImageMetaView {
        ImageMetaView { path: self.path@, title: self.title@, description: self.description@ }
    }
}

impl DeepView for ImageMeta {
    type V = ImageMetaView;

    open spec fn deep_view(&self) -> ImageMetaView {
        self@
    }
}

impl Clone for ImageMeta {
    fn clone(&self) -> (r: Self)
        ensures
            r@ == self@,
    {
        ImageMeta {
            path: self.path.clone(),
            title: self.title.clone(),
            description: self.description.clone(),
        }
    }
}

impl ImageMeta {
    /// Assemble a record from its three fields.
    pub fn new(path: String, title: String, description: String) -> (r: Self)
        ensures
            r@ == (ImageMetaView { path: path@, title: title@, description: description@ }),
    {
        ImageMeta { path, title, description }
    }
}

} // verus!
