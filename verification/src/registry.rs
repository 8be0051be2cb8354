//! Registry images: parsing a `registry://` reference, picking a platform
//! from an image index, and choosing the credentials to pull with.
use vstd::prelude::*;
use crate::image::ImageSource;
use crate::resolvers::{named_ref, registry_image_name};
use crate::text::{append_chars, str_to_chars, string_chars, sub_chars, vec_to_string};
use crate::utils::{cut_at, first_cut};
use crate::text::has_char;

verus! {

#[verifier::external_type_specification]
#[verifier::external_body]
pub struct ExOciClient(oci_client::Client);

/// An image reference as the registry client reads it.
#[derive(Debug)]
pub struct ImageReference {
    pub registry: String,
    pub repository: String,
    pub tag: Option<String>,
    pub digest: Option<String>,
}

/// The characters of an optional string.
pub open spec fn opt_chars(o: Option<String>) -> Option<Seq<char>> {
    match o {
        Some(s) => Some(s@),
        None => None,
    }
}

impl View for ImageReference {
    type V = (Seq<char>, Seq<char>, Option<Seq<char>>, Option<Seq<char>>);

    open spec fn view(&self) -> Self::V {
        (self.registry@, self.repository@, opt_chars(self.tag), opt_chars(self.digest))
    }
}

/// What `oci_client::Reference`'s parser makes of `name`: its registry,
/// repository, tag and digest (`None` when it refuses the name).
pub uninterp spec fn parsed_reference(name: Seq<char>) -> Option<(Seq<char>, Seq<char>, Option<Seq<char>>, Option<Seq<char>>)>;

/// Parses `name` as an `oci_client::Reference` (`str::parse`) and reads its
/// registry, repository, tag and digest. Besides naming the outcome, the
/// contract claims what the parser's source shows: an empty name is refused,
/// and a parsed reference has a tag or a digest (`latest` when the name
/// gives neither).
#[verifier::external_body]
fn parse_reference(name: &str) -> (r: Option<ImageReference>)
    ensures
        match r {
            Some(x) => parsed_reference(name@) == Some(x@),
            None => parsed_reference(name@) is None,
        },
        name@.len() == 0 ==> r is None,
        r matches Some(x) ==> (x.tag is Some || x.digest is Some),
{
    match name.parse::<oci_client::Reference>() {
        Ok(x) => Some(ImageReference {
            registry: x.registry().to_string(),
            repository: x.repository().to_string(),
            tag: x.tag().map(str::to_string),
            digest: x.digest().map(str::to_string),
        }),
        Err(_) => None,
    }
}

/// Pulls images from an OCI registry.
pub struct RegistryResolver {
    pub client: oci_client::Client,
}

/// What a `registry://` URI comes to: the parsed reference of its image
/// name, or the message of why there is none.
pub open spec fn registry_reference(uri: Seq<char>) -> Result<
    (Seq<char>, Seq<char>, Option<Seq<char>>, Option<Seq<char>>),
    Seq<char>,
> {
    match named_ref(uri, "registry://"@, "registry"@) {
        Err(m) => Err(m),
        Ok(name) => match parsed_reference(name) {
            Some(p) => Ok(p),
            None => Err("failed to parse image reference: "@ + name),
        },
    }
}

impl RegistryResolver {
    /// A resolver that pulls with `client`.
    pub fn with_client(client: oci_client::Client) -> (r: Self)
        ensures
            r.client == client,
    {
        RegistryResolver { client }
    }

    /// Where the images of this resolver come from.
    pub fn source_type(&self) -> (r: ImageSource)
        ensures
            r == ImageSource::Registry,
    {
        ImageSource::Registry
    }

    /// The reference a `registry://` URI names.
    pub fn normalize_image_ref(image_ref: &str) -> (r: Result<ImageReference, String>)
        ensures
            match r {
                Ok(x) => registry_reference(image_ref@) == Ok::<_, Seq<char>>(x@),
                Err(m) => registry_reference(image_ref@) matches Err(e) && e == m@,
            },
    {
        let name = match registry_image_name(image_ref) {
            Ok(n) => n,
            Err(m) => return Err(m),
        };
        match parse_reference(name.as_str()) {
            Some(x) => Ok(x),
            None => {
                let mut v = str_to_chars("failed to parse image reference: ");
                append_chars(&mut v, &string_chars(&name));
                Err(vec_to_string(&v))
            },
        }
    }
}

/// An entry of an image index: its platform (operating system and
/// architecture), when it names one, and its digest.
#[derive(Debug)]
pub struct PlatformEntry {
    pub platform: Option<(String, String)>,
    pub digest: String,
}

/// The entry is for `linux` on `amd64`.
pub open spec fn is_linux_amd64(e: PlatformEntry) -> bool {
    e.platform matches Some(p) && p.0@ == "linux"@ && p.1@ == "amd64"@
}

/// The manifest to pull from an index: the one for the native platform when
/// there is one, else the first `linux/amd64` entry.
pub open spec fn chosen_platform(native: Option<Seq<char>>, entries: Seq<PlatformEntry>) -> Option<Seq<char>> {
    match native {
        Some(d) => Some(d),
        None => first_linux_amd64(entries, 0),
    }
}

/// The digest of the first `linux/amd64` entry from position `from` on.
pub open spec fn first_linux_amd64(entries: Seq<PlatformEntry>, from: int) -> Option<Seq<char>>
    decreases entries.len() - from,
{
    if from < 0 || from >= entries.len() {
        None
    } else if is_linux_amd64(entries[from]) {
        Some(entries[from].digest@)
    } else {
        first_linux_amd64(entries, from + 1)
    }
}

fn is_linux_amd64_exec(e: &PlatformEntry) -> (r: bool)
    ensures
        r == is_linux_amd64(*e),
{
    match &e.platform {
        Some(p) => crate::text::same_str(p.0.as_str(), "linux") && crate::text::same_str(p.1.as_str(), "amd64"),
        None => false,
    }
}

/// Picks the manifest to pull from an index: `native` (what the client
/// picks for the host) when there is one, else the first `linux/amd64`
/// entry, as images such as `alpine` publish Linux variants only.
pub fn pick_platform(native: Option<String>, entries: &Vec<PlatformEntry>) -> (r: Option<String>)
    ensures
        opt_chars(r) == chosen_platform(opt_chars(native), entries@),
{
    if let Some(d) = native {
        return Some(d);
    }
    let mut i: usize = 0;
    while i < entries.len()
        invariant
            i <= entries@.len(),
            native is None,
            first_linux_amd64(entries@, i as int) == first_linux_amd64(entries@, 0),
        decreases entries@.len() - i,
    {
        if is_linux_amd64_exec(&entries[i]) {
            let d = entries[i].digest.clone();
            assert(first_linux_amd64(entries@, i as int) == Some(entries@[i as int].digest@));
            assert(d@ == entries@[i as int].digest@);
            return Some(d);
        }
        i = i + 1;
    }
    None
}

/// One entry of the `auths` table of a Docker configuration.
#[derive(Debug)]
pub struct AuthEntry {
    pub auth: Option<String>,
    pub username: Option<String>,
    pub password: Option<String>,
}

/// The parts of a Docker configuration that choose credentials: the
/// `auths` entries and the credential helpers, each by registry key.
#[derive(Debug)]
pub struct DockerConfig {
    pub auths: Vec<(String, AuthEntry)>,
    pub cred_helpers: Vec<(String, String)>,
}

/// The credentials to pull with.
#[derive(Debug, PartialEq, Eq)]
pub enum Credentials {
    Anonymous,
    Basic(String, String),
}

/// The registry to authenticate with for a reference's registry:
/// `index.docker.io` for `docker.io`, the registry itself otherwise (as
/// `Reference::resolve_registry` gives it for a reference without mirror).
pub open spec fn auth_registry(registry: Seq<char>) -> Seq<char> {
    if registry == "docker.io"@ {
        "index.docker.io"@
    } else {
        registry
    }
}

/// The registry to authenticate with.
pub fn resolve_registry(registry: &str) -> (r: String)
    ensures
        r@ == auth_registry(registry@),
{
    if crate::text::same_str(registry, "docker.io") {
        vec_to_string(&str_to_chars("index.docker.io"))
    } else {
        vec_to_string(&str_to_chars(registry))
    }
}

/// The value of the first entry keyed `key`.
pub open spec fn first_value<V>(entries: Seq<(String, V)>, key: Seq<char>) -> Option<V>
    decreases entries.len(),
{
    if entries.len() == 0 {
        None
    } else if entries[0].0@ == key {
        Some(entries[0].1)
    } else {
        first_value(entries.drop_first(), key)
    }
}

fn find_value<'a, V>(entries: &'a Vec<(String, V)>, key: &str) -> (r: Option<&'a V>)
    ensures
        match r {
            Some(v) => first_value(entries@, key@) == Some(*v),
            None => first_value(entries@, key@) is None,
        },
{
    let mut i: usize = 0;
    proof {
        assert(entries@.skip(0) =~= entries@);
    }
    while i < entries.len()
        invariant
            i <= entries@.len(),
            first_value(entries@.skip(i as int), key@) == first_value(entries@, key@),
        decreases entries@.len() - i,
    {
        proof {
            let rest = entries@.skip(i as int);
            assert(rest[0] == entries@[i as int]);
            assert(rest.drop_first() =~= entries@.skip(i + 1));
        }
        if crate::text::same_str(entries[i].0.as_str(), key) {
            return Some(&entries[i].1);
        }
        i = i + 1;
    }
    None
}

/// The credential helper configured for `registry`, if any.
pub fn credential_helper_for(config: &DockerConfig, registry: &str) -> (r: Option<String>)
    ensures
        match r {
            Some(h) => first_value(config.cred_helpers@, registry@) matches Some(v) && v@ == h@,
            None => first_value(config.cred_helpers@, registry@) is None,
        },
{
    match find_value(&config.cred_helpers, registry) {
        Some(h) => Some(h.clone()),
        None => None,
    }
}

/// What `base64::engine::general_purpose::STANDARD` decodes `text` to
/// (`None` when it refuses the text).
pub uninterp spec fn base64_decoded(text: Seq<char>) -> Option<Seq<u8>>;

/// Decodes `text` with `base64::engine::general_purpose::STANDARD`; the
/// contract claims only that the outcome is the named one for this text.
#[verifier::external_body]
fn decode_base64(text: &str) -> (r: Option<Vec<u8>>)
    ensures
        match r {
            Some(b) => base64_decoded(text@) == Some(b@),
            None => base64_decoded(text@) is None,
        },
{
    base64::Engine::decode(&base64::engine::general_purpose::STANDARD, text).ok()
}

/// The text that `bytes` encode in UTF-8, as `String::from_utf8` reads it
/// (`None` when they are not valid UTF-8).
pub uninterp spec fn utf8_text(bytes: Seq<u8>) -> Option<Seq<char>>;

/// Reads `bytes` as UTF-8 with `String::from_utf8`; the contract claims
/// only that the outcome is the named one for these bytes.
#[verifier::external_body]
fn text_from_utf8(bytes: Vec<u8>) -> (r: Option<String>)
    ensures
        match r {
            Some(s) => utf8_text(bytes@) == Some(s@),
            None => utf8_text(bytes@) is None,
        },
{
    String::from_utf8(bytes).ok()
}

/// `text` cut at its first `c`, when it has one.
pub open spec fn split_once(text: Seq<char>, c: char) -> Option<(Seq<char>, Seq<char>)> {
    if has_char(text, c) {
        let i = first_cut(text, c);
        Some((text.take(i), text.skip(i + 1)))
    } else {
        None
    }
}

/// The user and password in an `auths` entry: from its `auth` field (base64
/// of `user:password`) when that decodes, else from its username and password.
pub open spec fn entry_credentials(e: AuthEntry) -> Option<(Seq<char>, Seq<char>)> {
    let from_auth = match e.auth {
        Some(a) => match base64_decoded(a@) {
            Some(bytes) => match utf8_text(bytes) {
                Some(text) => split_once(text, ':'),
                None => None,
            },
            None => None,
        },
        None => None,
    };
    if from_auth is Some {
        from_auth
    } else {
        match (e.username, e.password) {
            (Some(u), Some(p)) => Some((u@, p@)),
            _ => None,
        }
    }
}

/// The keys under which `auths` may hold a registry's credentials, in the
/// order they are tried.
pub open spec fn auth_keys(registry: Seq<char>) -> Seq<Seq<char>> {
    seq![registry, "https://"@ + registry + "/v1/"@, "http://"@ + registry + "/v1/"@]
}

/// The credentials of the first key (from `from` on) whose entry gives some.
pub open spec fn credentials_from_keys(
    auths: Seq<(String, AuthEntry)>,
    keys: Seq<Seq<char>>,
    from: int,
) -> Option<(Seq<char>, Seq<char>)>
    decreases keys.len() - from,
{
    if from < 0 || from >= keys.len() {
        None
    } else {
        match first_value(auths, keys[from]) {
            Some(e) => match entry_credentials(e) {
                Some(c) => Some(c),
                None => credentials_from_keys(auths, keys, from + 1),
            },
            None => credentials_from_keys(auths, keys, from + 1),
        }
    }
}

/// The credentials for `registry` (already resolved): those the configured
/// credential helper gave (`helped`), else those of the `auths` entries.
pub open spec fn chosen_credentials(
    config: DockerConfig,
    registry: Seq<char>,
    helped: Option<(Seq<char>, Seq<char>)>,
) -> Option<(Seq<char>, Seq<char>)> {
    if first_value(config.cred_helpers@, registry) is Some && helped is Some {
        helped
    } else {
        credentials_from_keys(config.auths@, auth_keys(registry), 0)
    }
}

fn split_at_colon(text: &String) -> (r: Option<(String, String)>)
    ensures
        match r {
            Some(p) => split_once(text@, ':') == Some((p.0@, p.1@)),
            None => split_once(text@, ':') is None,
        },
{
    let chars = string_chars(text);
    if !crate::text::contains_char(&chars, ':') {
        return None;
    }
    let mut i: usize = 0;
    while i < chars.len() && chars[i] != ':'
        invariant
            i <= chars@.len(),
            forall|j: int| 0 <= j < i ==> chars@[j] != ':',
        decreases chars@.len() - i,
    {
        i = i + 1;
    }
    proof {
        assert(cut_at(text@, ':', i as int));
        let k = first_cut(text@, ':');
        let w = choose|w: int| 0 <= w < text@.len() && text@[w] == ':';
        assert(cut_at(text@, ':', i as int));
        assert(cut_at(text@, ':', k));
        if k < i {
            assert(text@[k] == ':');
        } else if i < k {
            assert(text@[i as int] == ':');
        }
        assert(i < chars@.len());
    }
    let user = sub_chars(&chars, 0, i);
    let pass = sub_chars(&chars, i + 1, chars.len());
    proof {
        assert(user@ =~= text@.take(i as int));
        assert(pass@ =~= text@.skip(i + 1));
    }
    Some((vec_to_string(&user), vec_to_string(&pass)))
}

fn entry_credentials_exec(e: &AuthEntry) -> (r: Option<(String, String)>)
    ensures
        match r {
            Some(p) => entry_credentials(*e) == Some((p.0@, p.1@)),
            None => entry_credentials(*e) is None,
        },
{
    if let Some(a) = &e.auth {
        if let Some(bytes) = decode_base64(a.as_str()) {
            if let Some(text) = text_from_utf8(bytes) {
                if let Some(p) = split_at_colon(&text) {
                    return Some(p);
                }
            }
        }
    }
    match (&e.username, &e.password) {
        (Some(u), Some(p)) => Some((u.clone(), p.clone())),
        _ => None,
    }
}

fn concat3(a: &str, b: &String, c: &str) -> (r: String)
    ensures
        r@ == a@ + b@ + c@,
{
    let mut v = str_to_chars(a);
    append_chars(&mut v, &string_chars(b));
    append_chars(&mut v, &str_to_chars(c));
    vec_to_string(&v)
}

/// The credentials to pull from `reference`'s registry with: those that the
/// credential helper configured for it gave (`helped`, the helper's answer
/// when one is configured), else the first `auths` entry, under the
/// registry's name or its `https://` or `http://` `/v1/` URL, that yields a
/// user and password, else none.
pub fn registry_auth_from_config(
    config: &DockerConfig,
    reference: &ImageReference,
    helped: Option<(String, String)>,
) -> (r: Credentials)
    ensures
        match chosen_credentials(
            *config,
            auth_registry(reference.registry@),
            match helped {
                Some(h) => Some((h.0@, h.1@)),
                None => None,
            },
        ) {
            Some(c) => r matches Credentials::Basic(u, p) && u@ == c.0 && p@ == c.1,
            None => r is Anonymous,
        },
{
    let registry = resolve_registry(reference.registry.as_str());
    let helper = credential_helper_for(config, registry.as_str());
    if helper.is_some() {
        if let Some((u, p)) = helped {
            return Credentials::Basic(u, p);
        }
    }
    let ghost helped_view = match helped {
        Some(h) => Some((h.0@, h.1@)),
        None => None,
    };
    assert(!(first_value(config.cred_helpers@, registry@) is Some && helped_view is Some));
    let keys = vec![
        vec_to_string(&str_to_chars(registry.as_str())),
        concat3("https://", &registry, "/v1/"),
        concat3("http://", &registry, "/v1/"),
    ];
    let ghost ks = auth_keys(registry@);
    proof {
        assert(keys@.map_values(|k: String| k@) =~= ks);
    }
    let mut i: usize = 0;
    while i < keys.len()
        invariant
            i <= keys@.len(),
            keys@.len() == 3,
            registry@ == auth_registry(reference.registry@),
            helped_view == match helped {
                Some(h) => Some((h.0@, h.1@)),
                None => None,
            },
            !(first_value(config.cred_helpers@, registry@) is Some && helped_view is Some),
            ks == auth_keys(registry@),
            forall|j: int| 0 <= j < 3 ==> (#[trigger] keys@[j])@ == ks[j],
            credentials_from_keys(config.auths@, ks, i as int) == credentials_from_keys(config.auths@, ks, 0),
        decreases keys@.len() - i,
    {
        assert(keys@[i as int]@ == ks[i as int]);
        if let Some(entry) = find_value(&config.auths, keys[i].as_str()) {
            if let Some((u, p)) = entry_credentials_exec(entry) {
                assert(credentials_from_keys(config.auths@, ks, i as int) == Some((u@, p@)));
                return Credentials::Basic(u, p);
            }
        }
        i = i + 1;
    }
    assert(credentials_from_keys(config.auths@, ks, 3) is None);
    Credentials::Anonymous
}

} // verus!
