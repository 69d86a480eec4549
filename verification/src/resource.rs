//! The registry of what the application has loaded: themes, stylesheets,
//! fonts and images. The core keeps the names and the book-keeping; the
//! pictures themselves stay with the host.

use crate::entity::Entity;
use crate::sparse_set::SparseSet;
use vstd::prelude::*;

verus! {

/// How long an image is kept.
#[derive(Clone, Copy, Debug, PartialEq, Eq, Structural)]
pub enum ImageRetentionPolicy {
    Forever,
    DropWhenUnusedForOneFrame,
    DropWhenNoObservers,
}

/// What the registry knows of an image.
pub struct StoredImage {
    pub path: String,
    pub retention_policy: ImageRetentionPolicy,
    pub used: bool,
    pub dirty: bool,
    /// The entities that show the image.
    pub observers: SparseSet<()>,
}

/// A font that was handed over as bytes.
pub struct StoredFont {
    pub name: String,
    pub data: Vec<u8>,
}

/// The registry.
pub struct ResourceManager {
    pub themes: Vec<String>,
    pub stylesheets: Vec<String>,
    pub fonts: Vec<StoredFont>,
    pub images: Vec<StoredImage>,
}

/// The place of the first font with the name; the number of fonts if there
/// is none.
pub open spec fn font_position(fonts: Seq<StoredFont>, name: Seq<char>) -> int
    decreases fonts.len(),
{
    if fonts.len() == 0 {
        0
    } else if fonts[0].name@ == name {
        0
    } else {
        1 + font_position(fonts.skip(1), name)
    }
}

/// The place of the first image with the path; the number of images if there
/// is none.
pub open spec fn image_position(images: Seq<StoredImage>, path: Seq<char>) -> int
    decreases images.len(),
{
    if images.len() == 0 {
        0
    } else if images[0].path@ == path {
        0
    } else {
        1 + image_position(images.skip(1), path)
    }
}

/// The place that `font_position` gives holds the name if it lies within the
/// fonts, and no font before it holds the name.
pub proof fn lemma_font_position(fonts: Seq<StoredFont>, name: Seq<char>)
    ensures
        0 <= font_position(fonts, name) <= fonts.len(),
        font_position(fonts, name) < fonts.len() ==> fonts[font_position(fonts, name)].name@
            == name,
        forall|j: int| 0 <= j < font_position(fonts, name) ==> (#[trigger] fonts[j]).name@ != name,
    decreases fonts.len(),
{
    if fonts.len() > 0 && fonts[0].name@ != name {
        lemma_font_position(fonts.skip(1), name);
        assert forall|j: int| 0 <= j < font_position(fonts, name) implies (
        #[trigger] fonts[j]).name@ != name by {
            if j > 0 {
                assert(fonts.skip(1)[j - 1] == fonts[j]);
            }
        }
    }
}

/// The place that `image_position` gives holds the path if it lies within
/// the images, and no image before it holds the path.
pub proof fn lemma_image_position(images: Seq<StoredImage>, path: Seq<char>)
    ensures
        0 <= image_position(images, path) <= images.len(),
        image_position(images, path) < images.len() ==> images[image_position(
            images,
            path,
        )].path@ == path,
        forall|j: int|
            0 <= j < image_position(images, path) ==> (#[trigger] images[j]).path@ != path,
    decreases images.len(),
{
    if images.len() > 0 && images[0].path@ != path {
        lemma_image_position(images.skip(1), path);
        assert forall|j: int| 0 <= j < image_position(images, path) implies (
        #[trigger] images[j]).path@ != path by {
            if j > 0 {
                assert(images.skip(1)[j - 1] == images[j]);
            }
        }
    }
}

impl ResourceManager {
    /// The invariant of the registry: no two fonts have the same name, no two
    /// images the same path, and the observers of each image are well
    /// formed.
    pub open spec fn wf(&self) -> bool {
        &&& forall|i: int|
            0 <= i < self.images@.len() ==> (#[trigger] self.images@[i]).observers.wf()
        &&& forall|i: int, j: int|
            0 <= i < j < self.images@.len() ==> (#[trigger] self.images@[i]).path@ != (
            #[trigger] self.images@[j]).path@
        &&& forall|i: int, j: int|
            0 <= i < j < self.fonts@.len() ==> (#[trigger] self.fonts@[i]).name@ != (
            #[trigger] self.fonts@[j]).name@
    }

    /// Whether some image has the entity among its observers.
    pub open spec fn observes(&self, e: Entity) -> bool {
        exists|i: int|
            0 <= i < self.images@.len() && (#[trigger] self.images@[i]).observers@.contains_key(e)
    }

    /// An empty registry.
    pub fn new() -> (r: ResourceManager)
        ensures
            r.wf(),
            r.themes@.len() == 0,
            r.stylesheets@.len() == 0,
            r.fonts@.len() == 0,
            r.images@.len() == 0,
    {
        ResourceManager {
            themes: Vec::new(),
            stylesheets: Vec::new(),
            fonts: Vec::new(),
            images: Vec::new(),
        }
    }

    /// The place of the first font with the name.
    pub fn find_font(&self, name: &String) -> (k: usize)
        ensures
            k == font_position(self.fonts@, name@),
            k <= self.fonts@.len(),
    {
        let mut k: usize = 0;
        assert(self.fonts@.skip(0) =~= self.fonts@);
        while k < self.fonts.len() && self.fonts[k].name != *name
            invariant
                k <= self.fonts.len(),
                font_position(self.fonts@, name@) == k + font_position(
                    self.fonts@.skip(k as int),
                    name@,
                ),
            decreases self.fonts.len() - k,
        {
            proof {
                assert(self.fonts@.skip(k as int)[0] == self.fonts@[k as int]);
                assert(self.fonts@.skip(k as int).skip(1) =~= self.fonts@.skip(k + 1));
            }
            k += 1;
        }
        proof {
            if k < self.fonts.len() {
                assert(self.fonts@.skip(k as int)[0] == self.fonts@[k as int]);
            } else {
                assert(self.fonts@.skip(k as int).len() == 0);
            }
        }
        k
    }

    /// The place of the first image with the path.
    pub fn find_image(&self, path: &String) -> (k: usize)
        ensures
            k == image_position(self.images@, path@),
            k <= self.images@.len(),
    {
        let mut k: usize = 0;
        assert(self.images@.skip(0) =~= self.images@);
        while k < self.images.len() && self.images[k].path != *path
            invariant
                k <= self.images.len(),
                image_position(self.images@, path@) == k + image_position(
                    self.images@.skip(k as int),
                    path@,
                ),
            decreases self.images.len() - k,
        {
            proof {
                assert(self.images@.skip(k as int)[0] == self.images@[k as int]);
                assert(self.images@.skip(k as int).skip(1) =~= self.images@.skip(k + 1));
            }
            k += 1;
        }
        proof {
            if k < self.images.len() {
                assert(self.images@.skip(k as int)[0] == self.images@[k as int]);
            } else {
                assert(self.images@.skip(k as int).len() == 0);
            }
        }
        k
    }

    /// Strikes the entities of `order` from the observers of every image.
    pub fn remove_observers(&mut self, order: &Vec<Entity>)
        requires
            old(self).wf(),
        ensures
            final(self).wf(),
            final(self).themes == old(self).themes,
            final(self).stylesheets == old(self).stylesheets,
            final(self).fonts == old(self).fonts,
            final(self).images@.len() == old(self).images@.len(),
            forall|i: int|
                0 <= i < final(self).images@.len() ==> {
                    &&& (#[trigger] final(self).images@[i]).path == old(self).images@[i].path
                    &&& final(self).images@[i].retention_policy == old(self).images@[i].retention_policy
                    &&& final(self).images@[i].used == old(self).images@[i].used
                    &&& final(self).images@[i].dirty == old(self).images@[i].dirty
                    &&& final(self).images@[i].observers@ == old(self).images@[i].observers@.remove_keys(order@.to_set())
                },
    {
        let mut i: usize = 0;
        while i < self.images.len()
            invariant
                i <= self.images.len(),
                self.themes == old(self).themes,
                self.stylesheets == old(self).stylesheets,
                self.fonts == old(self).fonts,
                self.images@.len() == old(self).images@.len(),
                forall|j: int|
                    0 <= j < self.images@.len() ==> (#[trigger] self.images@[j]).observers.wf(),
                forall|j: int|
                    i <= j < self.images@.len() ==> (#[trigger] self.images@[j]) == old(self).images@[j],
                forall|j: int|
                    0 <= j < i ==> {
                        &&& (#[trigger] self.images@[j]).path == old(self).images@[j].path
                        &&& self.images@[j].retention_policy == old(self).images@[j].retention_policy
                        &&& self.images@[j].used == old(self).images@[j].used
                        &&& self.images@[j].dirty == old(self).images@[j].dirty
                        &&& self.images@[j].observers@ == old(self).images@[j].observers@.remove_keys(order@.to_set())
                    },
            decreases self.images.len() - i,
        {
            let mut k: usize = 0;
            let ghost start = self.images@[i as int].observers@;
            proof {
                assert(order@.take(0).to_set() =~= Set::<Entity>::empty());
                assert(start.remove_keys(order@.take(0).to_set()) =~= start);
            }
            while k < order.len()
                invariant
                    i < self.images.len(),
                    k <= order.len(),
                    self.themes == old(self).themes,
                    self.stylesheets == old(self).stylesheets,
                    self.fonts == old(self).fonts,
                    self.images@.len() == old(self).images@.len(),
                    start == old(self).images@[i as int].observers@,
                    forall|j: int|
                        0 <= j < self.images@.len() ==> (#[trigger] self.images@[j]).observers.wf(),
                    forall|j: int|
                        0 <= j < self.images@.len() && j != i ==> (#[trigger] self.images@[j])
                            == old(self).images@[j] || j < i,
                    forall|j: int|
                        i < j < self.images@.len() ==> (#[trigger] self.images@[j]) == old(self).images@[j],
                    forall|j: int|
                        0 <= j < i ==> {
                            &&& (#[trigger] self.images@[j]).path == old(self).images@[j].path
                            &&& self.images@[j].retention_policy == old(self).images@[j].retention_policy
                            &&& self.images@[j].used == old(self).images@[j].used
                            &&& self.images@[j].dirty == old(self).images@[j].dirty
                            &&& self.images@[j].observers@ == old(self).images@[j].observers@.remove_keys(order@.to_set())
                        },
                    self.images@[i as int].path == old(self).images@[i as int].path,
                    self.images@[i as int].retention_policy == old(self).images@[i as int].retention_policy,
                    self.images@[i as int].used == old(self).images@[i as int].used,
                    self.images@[i as int].dirty == old(self).images@[i as int].dirty,
                    self.images@[i as int].observers@ == start.remove_keys(
                        order@.take(k as int).to_set(),
                    ),
                decreases order.len() - k,
            {
                let x = order[k];
                let ghost before = self.images@;
                self.images[i].observers.remove(x);
                proof {
                    let done = order@.take(k as int).to_set();
                    let next = order@.take(k + 1).to_set();
                    crate::seq_lemmas::lemma_take_insert(order@, k as int);
                    assert(self.images@[i as int].observers@ =~= start.remove_keys(next));
                    assert forall|j: int| 0 <= j < self.images@.len() && j != i implies (
                    #[trigger] self.images@[j]) == before[j] by {}
                }
                k += 1;
            }
            proof {
                assert(order@.take(k as int) =~= order@);
            }
            i += 1;
        }
    }
}

} // verus!
