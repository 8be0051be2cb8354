//! Images and their layers, and the image references the explorer accepts.
use vstd::prelude::*;
use crate::filetree::FileTree;
use crate::text::{has_prefix, str_to_chars, starts_with};

verus! {

/// One layer of an image.
pub struct Layer {
    pub index: usize,
    pub command: String,
    pub size: u64,
    pub tree: FileTree,
    /// Layer identifier (e.g., directory hash from a Docker save archive).
    pub id: Option<String>,
    /// Content digest when available (e.g., OCI layer descriptor digest).
    pub digest: Option<String>,
    /// Tags associated with this layer in the archive (typically image tags).
    pub tags: Vec<String>,
}

/// An image: its reference and its layers, bottom first.
pub struct Image {
    pub reference: String,
    pub layers: Vec<Layer>,
}

impl Layer {
    /// A layer with no id, digest or tags.
    pub fn new(index: usize, command: &str, size: u64, tree: FileTree) -> (r: Self)
        ensures
            r.index == index,
            r.command@ == command@,
            r.size == size,
            r.tree == tree,
            r.id is None,
            r.digest is None,
            r.tags@.len() == 0,
    {
        Layer {
            index,
            command: command.to_owned(),
            size,
            tree,
            id: None,
            digest: None,
            tags: Vec::new(),
        }
    }
}

/// Every layer's tree is well formed.
pub open spec fn layers_wf(layers: Seq<Layer>) -> bool {
    forall|i: int| 0 <= i < layers.len() ==> (#[trigger] layers[i]).tree.wf()
}

impl Image {
    pub open spec fn wf(&self) -> bool {
        layers_wf(self.layers@)
    }
}

/// Where an image comes from.
#[derive(Debug, Clone, Copy, PartialEq, Eq, Structural)]
pub enum ImageSource {
    Docker,
    DockerArchive,
    Oci,
    Registry,
    Podman,
}

/// The format of an image archive.
#[derive(Debug, Clone, Copy, PartialEq, Eq, Structural)]
pub enum ArchiveFormat {
    DockerSave,
    OciLayout,
}

/// Progress reported while an image is fetched.
#[derive(Debug)]
pub enum Progress {
    /// A human-readable status message (e.g., "Pulling manifest...").
    Status(String),
    /// A determinate or indeterminate byte-count update.
    Bytes {
        /// Bytes received so far.
        current: u64,
        /// Total bytes expected, if known.
        total: Option<u64>,
    },
}

/// `s` contains `p` somewhere.
pub open spec fn contains_seq(s: Seq<char>, p: Seq<char>) -> bool {
    exists|i: int| 0 <= i && i + p.len() <= s.len() && #[trigger] s.subrange(i, i + p.len()) == p
}

/// Whether `p` occurs in `s`.
pub fn contains_chars(s: &Vec<char>, p: &Vec<char>) -> (r: bool)
    ensures
        r == contains_seq(s@, p@),
{
    if p.len() > s.len() {
        return false;
    }
    if p.len() == 0 {
        assert(s@.subrange(0int, 0int + p@.len()) =~= p@);
        return true;
    }
    let n = s.len();
    let last = n - p.len();
    let mut i: usize = 0;
    while i <= last
        invariant
            n == s@.len(),
            p@.len() >= 1,
            last + p@.len() == n,
            i <= last + 1,
            forall|j: int| 0 <= j < i ==> #[trigger] s@.subrange(j, j + p@.len()) != p@,
        decreases last + 1 - i,
    {
        let tail = crate::text::sub_chars(s, i, s.len());
        if starts_with(&tail, p) {
            assert(tail@.take(p@.len() as int) =~= s@.subrange(i as int, i + p@.len()));
            return true;
        }
        assert(tail@.take(p@.len() as int) =~= s@.subrange(i as int, i + p@.len()));
        i = i + 1;
    }
    proof {
        if contains_seq(s@, p@) {
            let j = choose|j: int|
                0 <= j && j + p@.len() <= s@.len() && #[trigger] s@.subrange(j, j + p@.len()) == p@;
            assert(j < i);
        }
    }
    false
}

/// `docker://` as characters.
pub open spec fn docker_scheme() -> Seq<char> {
    seq!['d', 'o', 'c', 'k', 'e', 'r', ':', '/', '/']
}

/// `://` as characters.
pub open spec fn scheme_separator() -> Seq<char> {
    seq![':', '/', '/']
}

/// Whether the Docker daemon resolves `uri`: an explicit `docker://` reference
/// or a bare one such as `ubuntu:latest`.
pub fn is_docker_uri(uri: &str) -> (r: bool)
    ensures
        r == (has_prefix(uri@, docker_scheme()) || !contains_seq(uri@, scheme_separator())),
{
    let chars = str_to_chars(uri);
    let scheme = vec!['d', 'o', 'c', 'k', 'e', 'r', ':', '/', '/'];
    assert(scheme@ =~= docker_scheme());
    let sep = vec![':', '/', '/'];
    assert(sep@ =~= scheme_separator());
    starts_with(&chars, &scheme) || !contains_chars(&chars, &sep)
}


impl Layer {
    /// A copy of the layer: the same index, command and size, and a tree
    /// with the same entries and root.
    pub fn copy_layer(&self) -> (r: Layer)
        requires
            self.tree.wf(),
        ensures
            r.index == self.index,
            r.command@ == self.command@,
            r.size == self.size,
            r.tree.wf(),
            r.tree.nodes() == self.tree.nodes(),
            r.tree.root_view() == self.tree.root_view(),
            r.id == self.id,
            r.digest == self.digest,
            r.tags@ == self.tags@,
    {
        let id = match &self.id {
            Some(v) => Some(v.clone()),
            None => None,
        };
        let digest = match &self.digest {
            Some(v) => Some(v.clone()),
            None => None,
        };
        let tags = self.tags.clone();
        proof {
            assert forall|i: int| 0 <= i < tags@.len() implies tags@[i] == self.tags@[i] by {
                assert(cloned::<String>(self.tags[i], tags[i]));
            }
            assert(tags@ =~= self.tags@);
        }
        Layer {
            index: self.index,
            command: self.command.clone(),
            size: self.size,
            tree: self.tree.clone_tree(),
            id,
            digest,
            tags,
        }
    }
}

/// Copies of the layers, in order.
pub fn copy_layers(layers: &Vec<Layer>) -> (r: Vec<Layer>)
    requires
        layers_wf(layers@),
    ensures
        layers_wf(r@),
        crate::comparer::layers_match(r@, layers@),
{
    let mut out: Vec<Layer> = Vec::new();
    let mut i: usize = 0;
    while i < layers.len()
        invariant
            i <= layers@.len(),
            layers_wf(layers@),
            out@.len() == i,
            forall|j: int|
                0 <= j < i ==> (#[trigger] out@[j]).tree.wf() && out@[j].tree.nodes() == layers@[j].tree.nodes()
                    && out@[j].tree.root_view() == layers@[j].tree.root_view(),
        decreases layers@.len() - i,
    {
        assert(layers@[i as int].tree.wf());
        out.push(layers[i].copy_layer());
        i = i + 1;
    }
    out
}

} // verus!
