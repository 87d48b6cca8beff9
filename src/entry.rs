//! A readable item (chapter or volume) of a title.
use vstd::prelude::*;

use crate::sorting::{sort_by_name, Sortable};
use crate::text::text_ends_with;

verus! {

/// A single readable entry, an archive of page images.
#[derive(Debug, Clone)]
pub struct Entry {
    /// Stable identifier, persisted by the identity store.
    pub id: String,
    /// Path of the archive.
    pub path: String,
    /// Display name (file name without extension).
    pub title: String,
    /// Content signature (inode-like identifier, or a hash of path and size).
    pub signature: u64,
    /// Modification time, seconds since the epoch.
    pub mtime: i64,
    /// Number of pages.
    pub pages: usize,
    /// Page image names, in natural order.
    pub image_files: Vec<String>,
}

/// `str::to_lowercase` of a text.
pub uninterp spec fn lower_of(s: Seq<char>) -> Seq<char>;

/// Relies on `str::to_lowercase`: the result depends on the text alone.
#[verifier::external_body]
pub(crate) fn lowercase(s: &str) -> (r: String)
    ensures
        r@ == lower_of(s@),
{
    s.to_lowercase()
}

pub open spec fn ends_with(s: Seq<char>, suffix: Seq<char>) -> bool {
    suffix.len() <= s.len() && s.subrange(s.len() - suffix.len(), s.len() as int) == suffix
}

/// Whether a lower-cased name has one of the page image extensions.
pub open spec fn image_name(lower: Seq<char>) -> bool {
    ends_with(lower, ".jpg"@) || ends_with(lower, ".jpeg"@) || ends_with(lower, ".png"@)
        || ends_with(lower, ".gif"@) || ends_with(lower, ".webp"@) || ends_with(lower, ".bmp"@)
}

/// Whether a file name is a page image, by its extension, ignoring case.
pub fn is_image_file(filename: &str) -> (r: bool)
    ensures
        r == image_name(lower_of(filename@)),
{
    let lower = lowercase(filename);
    let l = lower.as_str();
    text_ends_with(l, ".jpg") || text_ends_with(l, ".jpeg") || text_ends_with(l, ".png")
        || text_ends_with(l, ".gif") || text_ends_with(l, ".webp") || text_ends_with(l, ".bmp")
}

/// `images` are the page images among `names`: each is an image name from
/// `names`, every image name of `names` is among them, and they are in
/// natural order.
pub open spec fn images_from(images: Seq<String>, names: Seq<String>) -> bool {
    &&& forall|k: int| 0 <= k < images.len() ==> image_name(lower_of(#[trigger] images[k]@))
    &&& forall|k: int| 0 <= k < images.len() ==> names.contains(#[trigger] images[k])
    &&& forall|k: int|
        0 <= k < names.len() && image_name(lower_of(names[k]@)) ==> images.contains(#[trigger] names[k])
    &&& crate::sorting::sorted_by(images, true, true)
}

/// The page images among an archive's file names, in natural order.
pub fn image_list(names: Vec<String>) -> (r: Vec<String>)
    ensures
        images_from(r@, names@),
{
    let mut images: Vec<String> = Vec::new();
    let n = names.len();
    let mut i: usize = 0;
    while i < n
        invariant
            n == names@.len(),
            i <= n,
            forall|k: int| 0 <= k < images@.len() ==> image_name(lower_of(#[trigger] images@[k]@)),
            forall|k: int| 0 <= k < images@.len() ==> names@.contains(#[trigger] images@[k]),
            forall|k: int|
                0 <= k < i && image_name(lower_of(names@[k]@)) ==> images@.contains(
                    #[trigger] names@[k],
                ),
        decreases n - i,
    {
        let name = names[i].clone();
        let ghost old_images = images@;
        if is_image_file(name.as_str()) {
            images.push(name);
            assert(images@.last() == names@[i as int]);
        }
        proof {
            assert forall|k: int|
                0 <= k <= i && image_name(lower_of(names@[k]@)) implies images@.contains(
                #[trigger] names@[k],
            ) by {
                if k == i {
                    assert(images@[images@.len() - 1] == names@[k]);
                } else {
                    assert(old_images.contains(names@[k]));
                    let w = choose|w: int| 0 <= w < old_images.len() && old_images[w] == names@[k];
                    assert(images@[w] == old_images[w]);
                }
            }
            assert forall|k: int| 0 <= k < images@.len() implies names@.contains(#[trigger] images@[k]) by {
                if k < old_images.len() {
                    assert(images@[k] == old_images[k]);
                } else {
                    assert(images@[k] == names@[i as int]);
                }
            }
        }
        i = i + 1;
    }
    let ghost before = images@;
    sort_by_name(&mut images, true);
    proof {
        broadcast use vstd::seq_lib::group_to_multiset_ensures;

        assert forall|k: int| 0 <= k < images@.len() implies before.contains(#[trigger] images@[k]) by {
            assert(images@.contains(images@[k]));
            assert(images@.to_multiset().count(images@[k]) > 0);
        }
        assert forall|k: int|
            0 <= k < n && image_name(lower_of(names@[k]@)) implies images@.contains(
            #[trigger] names@[k],
        ) by {
            assert(before.contains(names@[k]));
            assert(before.to_multiset().count(names@[k]) > 0);
        }
        assert forall|k: int| 0 <= k < images@.len() implies image_name(lower_of(#[trigger] images@[k]@)) by {
            assert(before.contains(images@[k]));
        }
    }
    images
}

impl Sortable for String {
    open spec fn name_view(&self) -> Seq<char> {
        self@
    }

    open spec fn mtime_view(&self) -> i64 {
        0
    }

    fn sort_name(&self) -> (r: &str) {
        self.as_str()
    }

    fn sort_mtime(&self) -> (r: i64) {
        0
    }
}

impl Sortable for Entry {
    open spec fn name_view(&self) -> Seq<char> {
        self.title@
    }

    open spec fn mtime_view(&self) -> i64 {
        self.mtime
    }

    fn sort_name(&self) -> (r: &str) {
        self.title.as_str()
    }

    fn sort_mtime(&self) -> (r: i64) {
        self.mtime
    }
}

impl<'a> Sortable for &'a Entry {
    open spec fn name_view(&self) -> Seq<char> {
        self.title@
    }

    open spec fn mtime_view(&self) -> i64 {
        self.mtime
    }

    fn sort_name(&self) -> (r: &str) {
        self.title.as_str()
    }

    fn sort_mtime(&self) -> (r: i64) {
        self.mtime
    }
}

} // verus!
