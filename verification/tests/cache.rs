use captu::media::cache::cache_subtree;
use std::path::Path;

#[test]
fn cache_cache_subtree_normal_path() {
    let cache = "/cache";
    let result = cache_subtree(cache, "/nas/video/ep01.ts");
    assert_eq!(result.as_deref().map(Path::new), Some(Path::new("/cache/ep01")));
}

#[test]
fn cache_cache_subtree_no_extension() {
    let cache = "/cache";
    let result = cache_subtree(cache, "/nas/video/ep01");
    assert_eq!(result.as_deref().map(Path::new), Some(Path::new("/cache/ep01")));
}

#[test]
fn cache_cache_subtree_no_stem_returns_none() {
    let cache = "/cache";
    assert!(cache_subtree(cache, "/").is_none());
}

#[test]
fn cache_cache_subtree_never_returns_cache_root() {
    let cache = "/cache";
    assert!(cache_subtree(cache, "").is_none());
}


#[test]
fn ingest_cache_subtree_normal_path() {
    let cache = "/cache";
    let result = cache_subtree(cache, "/nas/video/ep01.ts");
    assert_eq!(result.as_deref().map(Path::new), Some(Path::new("/cache/ep01")));
}

#[test]
fn ingest_cache_subtree_no_extension() {
    let cache = "/cache";
    let result = cache_subtree(cache, "/nas/video/ep01");
    assert_eq!(result.as_deref().map(Path::new), Some(Path::new("/cache/ep01")));
}

#[test]
fn ingest_cache_subtree_no_stem_returns_none() {
    let cache = "/cache";
    let result = cache_subtree(cache, "/");
    assert!(result.is_none(), "root-only path must return None");
}

#[test]
fn ingest_cache_subtree_never_returns_cache_root() {
    let cache = "/cache";
    let result = cache_subtree(cache, "");
    assert!(result.is_none());
}
