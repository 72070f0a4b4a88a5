use captu::media::cache::cache_subtree;
use captu::paths::{join, name_of_path, relative_path, stem_of_path};
use std::path::Path;

#[test]
fn names_and_stems_are_those_of_the_standard_library() {
    for path in [
        "", "/", "//", ".", "./", "./.", "..", "../", "a", "a/", "a//", "a/.", "a/./", "a/..",
        "/a/b.ts", "/a/b.c.ts", "a/.hidden", "a/.hidden.ts", "a/..x", "a/...", "a/...ts", "日本/第1話.ts",
        "a/b./", "a/b/./.", "/.", "/..", "a.",
    ] {
        let std_path = Path::new(path);
        assert_eq!(
            name_of_path(path).as_deref(),
            std_path.file_name().and_then(|n| n.to_str()),
            "name of {:?}",
            path
        );
        assert_eq!(
            stem_of_path(path).as_deref(),
            std_path.file_stem().and_then(|n| n.to_str()),
            "stem of {:?}",
            path
        );
    }
}

#[test]
fn joining_is_that_of_the_standard_library() {
    for base in ["", "/", "a", "a/", "/a/b", "a//"] {
        for child in ["", "b", "b/c", "/b", ".."] {
            assert_eq!(
                join(base, child),
                Path::new(base).join(child).to_str().unwrap(),
                "{:?} joined with {:?}",
                base,
                child
            );
        }
    }
}

#[test]
fn hidden_files_and_folders_have_no_cache_folder() {
    for path in ["/nas/.ts", "/nas/.hidden.ts", "/nas/..x", "/nas/...ts", "/nas/video/", ".."] {
        assert_eq!(cache_subtree("/cache", path), None, "{}", path);
    }
    assert_eq!(
        cache_subtree("/cache/", "ep.01.ts").as_deref(),
        Some("/cache/ep.01")
    );
}

#[test]
fn paths_seen_from_a_folder() {
    for (path, folder, seen) in [
        ("/nas/anime/a.ts", "/nas", "anime/a.ts"),
        ("/nas/anime/a.ts", "/nas/", "anime/a.ts"),
        ("/nas/anime/a.ts", "//nas/./anime", "a.ts"),
        ("/nas/a.ts", "/", "nas/a.ts"),
        ("/nas2/a.ts", "/nas", "/nas2/a.ts"),
        ("/nas", "/nas", ""),
        ("/a", "/a/b", "/a"),
        ("nas/a.ts", "/nas", "nas/a.ts"),
        ("anime/a.ts", ".", "anime/a.ts"),
        ("nas/a.ts", "./nas", "a.ts"),
        ("../nas/a.ts", "../nas", "a.ts"),
        ("a.ts", "", "a.ts"),
        ("録画/第1話.ts", "録画", "第1話.ts"),
    ] {
        assert_eq!(relative_path(path, folder), seen, "{} from {}", path, folder);
    }
}
