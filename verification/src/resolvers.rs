//! Image references: which source an image URI names, and the image name
//! each source is given.
use vstd::prelude::*;
use crate::image::{ImageSource, is_docker_uri, docker_scheme, scheme_separator, contains_seq};
use crate::text::{append_chars, has_prefix, str_to_chars, sub_chars, vec_to_string};

verus! {

/// `uri` with the prefix `scheme` removed, when it starts with it.
pub open spec fn after_scheme(uri: Seq<char>, scheme: Seq<char>) -> Option<Seq<char>> {
    if has_prefix(uri, scheme) {
        Some(uri.skip(scheme.len() as int))
    } else {
        None
    }
}

/// Removes the prefix `scheme` from `uri`, when it starts with it.
pub fn strip_scheme(uri: &str, scheme: &str) -> (r: Option<String>)
    ensures
        match r {
            Some(s) => after_scheme(uri@, scheme@) == Some(s@),
            None => after_scheme(uri@, scheme@) is None,
        },
{
    let u = str_to_chars(uri);
    let p = str_to_chars(scheme);
    if crate::text::starts_with(&u, &p) {
        let rest = sub_chars(&u, p.len(), u.len());
        assert(rest@ =~= uri@.skip(scheme@.len() as int));
        Some(vec_to_string(&rest))
    } else {
        None
    }
}

/// `a` followed by `b`, as a string.
fn concat(a: &str, b: &str) -> (r: String)
    ensures
        r@ == a@ + b@,
{
    let mut v = str_to_chars(a);
    append_chars(&mut v, &str_to_chars(b));
    vec_to_string(&v)
}

/// What an image name of a source comes to: the name after the scheme,
/// or the message of why there is none.
pub open spec fn named_ref(uri: Seq<char>, scheme: Seq<char>, source: Seq<char>) -> Result<Seq<char>, Seq<char>> {
    match after_scheme(uri, scheme) {
        None => Err("Invalid "@ + source + " URI: "@ + uri),
        Some(name) => if name.len() == 0 {
            Err("empty "@ + source + " image reference"@)
        } else {
            Ok(name)
        },
    }
}

fn named_ref_exec(uri: &str, scheme: &str, source: &str) -> (r: Result<String, String>)
    ensures
        match r {
            Ok(n) => named_ref(uri@, scheme@, source@) == Ok::<Seq<char>, Seq<char>>(n@),
            Err(m) => named_ref(uri@, scheme@, source@) == Err::<Seq<char>, Seq<char>>(m@),
        },
{
    match strip_scheme(uri, scheme) {
        None => {
            let a = concat("Invalid ", source);
            let b = concat(a.as_str(), " URI: ");
            Err(concat(b.as_str(), uri))
        },
        Some(name) => {
            if str_to_chars(name.as_str()).len() == 0 {
                let a = concat("empty ", source);
                Err(concat(a.as_str(), " image reference"))
            } else {
                Ok(name)
            }
        },
    }
}

/// Reads image archives written by `docker save`.
pub struct DockerArchiveResolver;

/// Reads OCI image layouts, as directories or archives.
pub struct OciLayoutResolver;

/// Exports images from Podman.
pub struct PodmanResolver;

impl DockerArchiveResolver {
    pub fn new() -> (r: Self) {
        DockerArchiveResolver
    }

    pub fn source_type(&self) -> (r: ImageSource)
        ensures
            r == ImageSource::DockerArchive,
    {
        ImageSource::DockerArchive
    }

    /// The archive path of a `docker-archive://` URI.
    pub fn archive_path(image_ref: &str) -> (r: Result<String, String>)
        ensures
            match after_scheme(image_ref@, "docker-archive://"@) {
                Some(p) => r matches Ok(s) && s@ == p,
                None => r matches Err(m) && m@ == "Invalid docker-archive URI: "@ + image_ref@,
            },
    {
        match strip_scheme(image_ref, "docker-archive://") {
            Some(p) => Ok(p),
            None => Err(concat("Invalid docker-archive URI: ", image_ref)),
        }
    }
}

impl OciLayoutResolver {
    pub fn new() -> (r: Self) {
        OciLayoutResolver
    }

    pub fn source_type(&self) -> (r: ImageSource)
        ensures
            r == ImageSource::Oci,
    {
        ImageSource::Oci
    }

    /// The layout path of an `oci://` URI.
    pub fn layout_path(image_ref: &str) -> (r: Result<String, String>)
        ensures
            match after_scheme(image_ref@, "oci://"@) {
                Some(p) => r matches Ok(s) && s@ == p,
                None => r matches Err(m) && m@ == "Invalid oci URI: "@ + image_ref@,
            },
    {
        match strip_scheme(image_ref, "oci://") {
            Some(p) => Ok(p),
            None => Err(concat("Invalid oci URI: ", image_ref)),
        }
    }
}

impl PodmanResolver {
    pub fn new() -> (r: Self) {
        PodmanResolver
    }

    pub fn source_type(&self) -> (r: ImageSource)
        ensures
            r == ImageSource::Podman,
    {
        ImageSource::Podman
    }

    /// The image name of a `podman://` URI; an error for another scheme or
    /// an empty name.
    pub fn normalize_image_ref(image_ref: &str) -> (r: Result<String, String>)
        ensures
            match r {
                Ok(n) => named_ref(image_ref@, "podman://"@, "podman"@) == Ok::<Seq<char>, Seq<char>>(n@),
                Err(m) => named_ref(image_ref@, "podman://"@, "podman"@) == Err::<Seq<char>, Seq<char>>(m@),
            },
    {
        named_ref_exec(image_ref, "podman://", "podman")
    }
}

/// The image name of a `registry://` URI; an error for another scheme or an
/// empty name.
pub fn registry_image_name(image_ref: &str) -> (r: Result<String, String>)
    ensures
        match r {
            Ok(n) => named_ref(image_ref@, "registry://"@, "registry"@) == Ok::<Seq<char>, Seq<char>>(n@),
            Err(m) => named_ref(image_ref@, "registry://"@, "registry"@) == Err::<Seq<char>, Seq<char>>(m@),
        },
{
    named_ref_exec(image_ref, "registry://", "registry")
}

/// What the Docker daemon is asked for: the name after `docker://`, or a
/// bare reference as it is.
pub open spec fn docker_ref(uri: Seq<char>) -> Result<Seq<char>, Seq<char>> {
    match after_scheme(uri, docker_scheme()) {
        Some(name) => if name.len() == 0 {
            Err("empty docker image reference"@)
        } else {
            Ok(name)
        },
        None => if contains_seq(uri, scheme_separator()) {
            Err("expected docker:// URI, got: "@ + uri)
        } else {
            Ok(uri)
        },
    }
}

/// The image name the Docker daemon is asked for.
pub fn docker_image_name(image_ref: &str) -> (r: Result<String, String>)
    ensures
        match r {
            Ok(n) => docker_ref(image_ref@) == Ok::<Seq<char>, Seq<char>>(n@),
            Err(m) => docker_ref(image_ref@) == Err::<Seq<char>, Seq<char>>(m@),
        },
{
    let u = str_to_chars(image_ref);
    let scheme = str_to_chars("docker://");
    proof {
        reveal_strlit("docker://");
        reveal_strlit("://");
        assert("docker://"@ =~= docker_scheme());
    }
    match strip_scheme(image_ref, "docker://") {
        Some(name) => {
            if str_to_chars(name.as_str()).len() == 0 {
                Err("empty docker image reference".to_owned())
            } else {
                Ok(name)
            }
        },
        None => {
            let sep = str_to_chars("://");
            assert(sep@ =~= scheme_separator());
            if crate::image::contains_chars(&u, &sep) {
                Err(concat("expected docker:// URI, got: ", image_ref))
            } else {
                Ok(image_ref.to_owned())
            }
        },
    }
}

/// The source an image URI names: the Docker daemon for `docker://` and
/// bare references, else by scheme; none for an unknown scheme.
pub open spec fn source_of(uri: Seq<char>) -> Option<ImageSource> {
    if has_prefix(uri, docker_scheme()) || !contains_seq(uri, scheme_separator()) {
        Some(ImageSource::Docker)
    } else if has_prefix(uri, "docker-archive://"@) {
        Some(ImageSource::DockerArchive)
    } else if has_prefix(uri, "oci://"@) {
        Some(ImageSource::Oci)
    } else if has_prefix(uri, "registry://"@) {
        Some(ImageSource::Registry)
    } else if has_prefix(uri, "podman://"@) {
        Some(ImageSource::Podman)
    } else {
        None
    }
}

/// Chooses the source for an image URI.
pub fn source_for(uri: &str) -> (r: Option<ImageSource>)
    ensures
        r == source_of(uri@),
{
    if is_docker_uri(uri) {
        return Some(ImageSource::Docker);
    }
    if strip_scheme(uri, "docker-archive://").is_some() {
        Some(ImageSource::DockerArchive)
    } else if strip_scheme(uri, "oci://").is_some() {
        Some(ImageSource::Oci)
    } else if strip_scheme(uri, "registry://").is_some() {
        Some(ImageSource::Registry)
    } else if strip_scheme(uri, "podman://").is_some() {
        Some(ImageSource::Podman)
    } else {
        None
    }
}

} // verus!
