use deep_dive::image::{is_docker_uri, ImageSource};
use deep_dive::resolvers::{
    docker_image_name, registry_image_name, source_for, DockerArchiveResolver, OciLayoutResolver,
    PodmanResolver,
};

#[test]
fn test_source_type() {
    assert_eq!(
        DockerArchiveResolver::new().source_type(),
        ImageSource::DockerArchive
    );
}

#[test]
fn test_normalize_image_ref() {
    assert_eq!(
        PodmanResolver::normalize_image_ref("podman://alpine:latest").unwrap(),
        "alpine:latest"
    );
}

#[test]
fn resolver_test_normalize_image_ref_invalid_scheme() {
    assert!(PodmanResolver::normalize_image_ref("docker://alpine:latest").is_err());
}

#[test]
fn resolver_test_normalize_image_ref_empty() {
    assert!(PodmanResolver::normalize_image_ref("podman://").is_err());
}

#[test]
fn resolver_test_is_docker_uri() {
    assert!(is_docker_uri("docker://alpine"));
    assert!(is_docker_uri("alpine:latest"));
    assert!(!is_docker_uri("docker-archive://image.tar"));
    assert!(!is_docker_uri("oci://layout"));
}

#[test]
fn main_test_is_docker_uri() {
    assert!(is_docker_uri("docker://ubuntu:latest"));
    assert!(is_docker_uri("ubuntu:latest"));
    assert!(!is_docker_uri("docker-archive://image.tar"));
    assert!(!is_docker_uri("oci://layout"));
}

#[test]
fn test_normalize_image_ref_docker_scheme() {
    assert_eq!(docker_image_name("docker://ubuntu:latest").unwrap(), "ubuntu:latest");
}

#[test]
fn test_normalize_image_ref_bare() {
    assert_eq!(docker_image_name("ubuntu:latest").unwrap(), "ubuntu:latest");
}

#[test]
fn engine_test_normalize_image_ref_empty() {
    assert!(docker_image_name("docker://").is_err());
}

#[test]
fn test_normalize_image_ref_wrong_scheme() {
    assert!(docker_image_name("oci://ubuntu").is_err());
}

#[test]
fn registry_test_normalize_image_ref_invalid_scheme() {
    assert!(registry_image_name("docker://alpine:latest").is_err());
}

#[test]
fn registry_test_normalize_image_ref_empty() {
    assert!(registry_image_name("registry://").is_err());
}

#[test]
fn reference_errors_say_why() {
    assert_eq!(
        PodmanResolver::normalize_image_ref("docker://x").unwrap_err(),
        "Invalid podman URI: docker://x"
    );
    assert_eq!(
        registry_image_name("registry://").unwrap_err(),
        "empty registry image reference"
    );
    assert_eq!(
        docker_image_name("oci://ubuntu").unwrap_err(),
        "expected docker:// URI, got: oci://ubuntu"
    );
    assert_eq!(
        DockerArchiveResolver::archive_path("oci://x").unwrap_err(),
        "Invalid docker-archive URI: oci://x"
    );
    assert_eq!(OciLayoutResolver::layout_path("oci:///tmp/l").unwrap(), "/tmp/l");
}

#[test]
fn sources_by_scheme() {
    assert_eq!(source_for("alpine"), Some(ImageSource::Docker));
    assert_eq!(source_for("docker://alpine"), Some(ImageSource::Docker));
    assert_eq!(source_for("docker-archive://a.tar"), Some(ImageSource::DockerArchive));
    assert_eq!(source_for("oci://dir"), Some(ImageSource::Oci));
    assert_eq!(source_for("registry://ghcr.io/a/b:1"), Some(ImageSource::Registry));
    assert_eq!(source_for("podman://alpine"), Some(ImageSource::Podman));
    assert_eq!(source_for("ftp://example.com/image.tar"), None);
}
