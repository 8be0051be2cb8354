use base64::Engine;
use deep_dive::registry::{
    pick_platform, registry_auth_from_config, resolve_registry, AuthEntry, Credentials, DockerConfig,
    PlatformEntry, RegistryResolver,
};

#[test]
fn test_normalize_image_ref_registry_scheme() {
    let reference = RegistryResolver::normalize_image_ref("registry://alpine:latest").unwrap();
    assert_eq!(reference.registry, "docker.io");
    assert_eq!(reference.repository, "library/alpine");
    assert_eq!(reference.tag.as_deref(), Some("latest"));
}

#[test]
fn test_normalize_image_ref_full_host() {
    let reference =
        RegistryResolver::normalize_image_ref("registry://ghcr.io/example/app:1.0").unwrap();
    assert_eq!(reference.registry, "ghcr.io");
    assert_eq!(reference.repository, "example/app");
    assert_eq!(reference.tag.as_deref(), Some("1.0"));
}

#[test]
fn normalize_registry_ref_reports_scheme_and_parse_errors() {
    assert_eq!(
        RegistryResolver::normalize_image_ref("docker://alpine").unwrap_err(),
        "Invalid registry URI: docker://alpine"
    );
    assert_eq!(
        RegistryResolver::normalize_image_ref("registry://").unwrap_err(),
        "empty registry image reference"
    );
    assert_eq!(
        RegistryResolver::normalize_image_ref("registry://UPPER/Case").unwrap_err(),
        "failed to parse image reference: UPPER/Case"
    );
}

#[test]
fn normalize_registry_ref_defaults_tag() {
    let reference = RegistryResolver::normalize_image_ref("registry://busybox").unwrap();
    assert_eq!(reference.tag.as_deref(), Some("latest"));
    assert!(reference.digest.is_none());
}

fn config_with(key: &str, entry: AuthEntry) -> DockerConfig {
    DockerConfig {
        auths: vec![(key.to_string(), entry)],
        cred_helpers: Vec::new(),
    }
}

#[test]
fn test_registry_auth_from_config_auths() {
    let encoded = base64::engine::general_purpose::STANDARD.encode("user:pass");
    let config = config_with(
        "ghcr.io",
        AuthEntry {
            auth: Some(encoded),
            username: None,
            password: None,
        },
    );
    let reference =
        RegistryResolver::normalize_image_ref("registry://ghcr.io/example/app:1.0").unwrap();
    match registry_auth_from_config(&config, &reference, None) {
        Credentials::Basic(u, p) => {
            assert_eq!(u, "user");
            assert_eq!(p, "pass");
        }
        other => panic!("expected Basic auth, got {:?}", other),
    }
}

#[test]
fn test_registry_auth_from_config_username_password() {
    let config = config_with(
        "registry.example.com",
        AuthEntry {
            auth: None,
            username: Some("alice".to_string()),
            password: Some("secret".to_string()),
        },
    );
    let reference =
        RegistryResolver::normalize_image_ref("registry://registry.example.com/foo:bar").unwrap();
    match registry_auth_from_config(&config, &reference, None) {
        Credentials::Basic(u, p) => {
            assert_eq!(u, "alice");
            assert_eq!(p, "secret");
        }
        other => panic!("expected Basic auth, got {:?}", other),
    }
}

#[test]
fn test_registry_auth_from_config_no_match() {
    let config = DockerConfig {
        auths: Vec::new(),
        cred_helpers: Vec::new(),
    };
    let reference = RegistryResolver::normalize_image_ref("registry://alpine:latest").unwrap();
    assert_eq!(
        registry_auth_from_config(&config, &reference, None),
        Credentials::Anonymous
    );
}

#[test]
fn registry_auth_tries_v1_urls_and_docker_hub_index() {
    let encoded = base64::engine::general_purpose::STANDARD.encode("hub:token");
    let config = config_with(
        "https://index.docker.io/v1/",
        AuthEntry {
            auth: Some(encoded),
            username: None,
            password: None,
        },
    );
    let reference = RegistryResolver::normalize_image_ref("registry://alpine:latest").unwrap();
    assert_eq!(
        registry_auth_from_config(&config, &reference, None),
        Credentials::Basic("hub".to_string(), "token".to_string())
    );
    assert_eq!(resolve_registry("docker.io"), "index.docker.io");
    assert_eq!(resolve_registry("ghcr.io"), "ghcr.io");
}

#[test]
fn registry_auth_prefers_configured_helper_answer() {
    let config = DockerConfig {
        auths: vec![(
            "ghcr.io".to_string(),
            AuthEntry {
                auth: None,
                username: Some("static".to_string()),
                password: Some("pw".to_string()),
            },
        )],
        cred_helpers: vec![("ghcr.io".to_string(), "desktop".to_string())],
    };
    let reference = RegistryResolver::normalize_image_ref("registry://ghcr.io/a/b:1").unwrap();
    let helped = Some(("helper".to_string(), "secret".to_string()));
    assert_eq!(
        registry_auth_from_config(&config, &reference, helped),
        Credentials::Basic("helper".to_string(), "secret".to_string())
    );
    assert_eq!(
        registry_auth_from_config(&config, &reference, None),
        Credentials::Basic("static".to_string(), "pw".to_string())
    );
}

#[test]
fn registry_auth_falls_back_when_auth_is_not_user_colon_password() {
    let encoded = base64::engine::general_purpose::STANDARD.encode("no-colon");
    let config = config_with(
        "ghcr.io",
        AuthEntry {
            auth: Some(encoded),
            username: Some("u".to_string()),
            password: Some("p".to_string()),
        },
    );
    let reference = RegistryResolver::normalize_image_ref("registry://ghcr.io/a/b:1").unwrap();
    assert_eq!(
        registry_auth_from_config(&config, &reference, None),
        Credentials::Basic("u".to_string(), "p".to_string())
    );
}

#[test]
fn pick_platform_prefers_native_then_linux_amd64() {
    let entries = vec![
        PlatformEntry {
            platform: Some(("linux".to_string(), "arm64".to_string())),
            digest: "sha256:arm".to_string(),
        },
        PlatformEntry {
            platform: None,
            digest: "sha256:none".to_string(),
        },
        PlatformEntry {
            platform: Some(("linux".to_string(), "amd64".to_string())),
            digest: "sha256:amd".to_string(),
        },
    ];
    assert_eq!(
        pick_platform(Some("sha256:native".to_string()), &entries),
        Some("sha256:native".to_string())
    );
    assert_eq!(pick_platform(None, &entries), Some("sha256:amd".to_string()));
    assert_eq!(pick_platform(None, &entries[..2].iter().map(|e| PlatformEntry { platform: e.platform.clone(), digest: e.digest.clone() }).collect()), None);
}
