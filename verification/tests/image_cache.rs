use captu::media::cache::{
    clear_all_image_cache, clear_image_cache_for, clear_image_subdirs, freed_bytes,
    image_cache_stats, image_files, CacheCleanup, CacheEntry, ImageClearing, IMAGE_SUBDIRS,
};

const CACHE: &str = "/cache";

/// A cache folder in memory: each file with its path, size and age in seconds.
struct Disk {
    files: Vec<(String, u64, i128)>,
}

impl Disk {
    fn with_stems(stems: &[&str]) -> Disk {
        let mut files = Vec::new();
        for stem in stems {
            for (name, size, age) in [
                ("thumbs/1_00.jpg", 100, 300),
                ("full/1_00.jpg", 400, 200),
                ("preview/1.jpg", 50, 100),
                ("sub/1.png", 30, 50),
                ("captions.pes", 999, 400),
            ] {
                files.push((format!("{}/{}/{}", CACHE, stem, name), size, age));
            }
        }
        Disk { files }
    }

    fn entries(&self) -> Vec<CacheEntry> {
        self.files
            .iter()
            .map(|(path, size, age)| {
                let parts: Vec<&str> = path.split('/').collect();
                CacheEntry {
                    path: path.clone(),
                    folder: if parts.len() == 5 {
                        parts[3].to_string()
                    } else {
                        String::new()
                    },
                    is_file: true,
                    size: *size,
                    modified: Some(1_000_000 - age),
                }
            })
            .collect()
    }

    fn stats(&self) -> (u64, u64) {
        image_cache_stats(&image_files(self.entries()))
    }

    fn enforce(&mut self, max_bytes: u64) -> u64 {
        let mut cleanup = CacheCleanup::new(image_files(self.entries()), max_bytes);
        while let Some(file) = cleanup.next() {
            let path = file.path.clone();
            self.files.retain(|(p, _, _)| *p != path);
            cleanup.record(true);
        }
        cleanup.freed()
    }

    fn remove(&mut self, clearing: ImageClearing) -> u64 {
        for folder in &clearing.folders {
            let inside = format!("{}/", folder);
            self.files.retain(|(p, _, _)| !p.starts_with(&inside));
        }
        clearing.freed
    }

    fn clear_for(&mut self, ts_path: &str) -> u64 {
        let entries = self.entries();
        self.remove(clear_image_cache_for(CACHE, ts_path, entries))
    }

    fn clear_all(&mut self, stems: &[&str]) -> u64 {
        let recordings: Vec<String> = stems.iter().map(|s| format!("{}/{}", CACHE, s)).collect();
        let entries = self.entries();
        self.remove(clear_all_image_cache(&recordings, entries))
    }

    fn has(&self, path: &str) -> bool {
        let full = format!("{}/{}", CACHE, path);
        let inside = format!("{}/", full);
        self.files
            .iter()
            .any(|(p, _, _)| *p == full || p.starts_with(&inside))
    }
}

#[test]
fn stats_counts_images_but_not_pes() {
    let (files, bytes) = Disk::with_stems(&["ep01"]).stats();
    assert_eq!(files, 4, "captions.pes must not be counted");
    assert_eq!(bytes, 100 + 400 + 50 + 30);
}

#[test]
fn stats_missing_cache_dir_is_empty() {
    assert_eq!(Disk::with_stems(&[]).stats(), (0, 0));
}

#[test]
fn enforce_under_limit_deletes_nothing() {
    let mut disk = Disk::with_stems(&["ep01"]);
    assert_eq!(disk.enforce(10_000), 0);
    assert_eq!(disk.stats().0, 4);
}

#[test]
fn enforce_deletes_oldest_first_until_under_limit() {
    let mut disk = Disk::with_stems(&["ep01"]);
    assert_eq!(disk.enforce(100), 500);
    assert!(!disk.has("ep01/thumbs/1_00.jpg"));
    assert!(!disk.has("ep01/full/1_00.jpg"));
    assert!(disk.has("ep01/preview/1.jpg"));
    assert!(disk.has("ep01/sub/1.png"));
    assert!(disk.has("ep01/captions.pes"));
}

#[test]
fn enforce_zero_limit_deletes_all_images_but_keeps_pes() {
    let mut disk = Disk::with_stems(&["ep01"]);
    assert_eq!(disk.enforce(0), 580);
    assert_eq!(disk.stats(), (0, 0));
    assert!(disk.has("ep01/captions.pes"));
}

#[test]
fn enforce_removes_emptied_subdirs() {
    let mut disk = Disk::with_stems(&["ep01"]);
    disk.enforce(0);
    for sub in IMAGE_SUBDIRS {
        assert!(!disk.has(&format!("ep01/{}", sub)), "{} should be empty", sub);
    }
}

#[test]
fn clear_for_removes_images_keeps_pes() {
    let mut disk = Disk::with_stems(&["ep01", "ep02"]);
    let freed = disk.clear_for("/nas/ep01.ts");
    assert_eq!(freed, 580);
    assert!(!disk.has("ep01/thumbs"));
    assert!(disk.has("ep01/captions.pes"));
    assert!(disk.has("ep02/thumbs/1_00.jpg"));
}

#[test]
fn clear_for_stemless_path_is_noop() {
    let mut disk = Disk::with_stems(&["ep01"]);
    assert_eq!(disk.clear_for("/"), 0);
    assert!(disk.has("ep01/thumbs/1_00.jpg"));
}

#[test]
fn clear_all_removes_all_images_keeps_all_pes() {
    let mut disk = Disk::with_stems(&["ep01", "ep02"]);
    let freed = disk.clear_all(&["ep01", "ep02"]);
    assert_eq!(freed, 580 * 2);
    assert_eq!(disk.stats().0, 0);
    assert!(disk.has("ep01/captions.pes"));
    assert!(disk.has("ep02/captions.pes"));
}

#[test]
fn clear_all_missing_cache_dir_is_noop() {
    let mut disk = Disk::with_stems(&[]);
    assert_eq!(disk.clear_all(&[]), 0);
}

#[test]
fn image_folders_of_a_recording() {
    assert_eq!(
        clear_image_cache_for("/cache", "/nas/ep01.ts", Vec::new()).folders,
        vec![
            "/cache/ep01/thumbs",
            "/cache/ep01/full",
            "/cache/ep01/preview",
            "/cache/ep01/sub"
        ]
    );
}

#[test]
fn files_that_stay_keep_their_bytes() {
    let disk = Disk::with_stems(&["ep01"]);
    let mut cleanup = CacheCleanup::new(image_files(disk.entries()), 100);
    let mut seen = Vec::new();
    while let Some(file) = cleanup.next() {
        seen.push(file.path.clone());
        // The largest file cannot be removed.
        let removed = file.size != 400;
        cleanup.record(removed);
    }
    assert_eq!(
        seen,
        vec![
            "/cache/ep01/thumbs/1_00.jpg",
            "/cache/ep01/full/1_00.jpg",
            "/cache/ep01/preview/1.jpg",
            "/cache/ep01/sub/1.png"
        ]
    );
    assert_eq!(cleanup.freed(), 180);
}

#[test]
fn files_of_one_age_go_in_order() {
    let entry = |name: &str, modified: Option<i128>| CacheEntry {
        path: name.to_string(),
        folder: "thumbs".to_string(),
        is_file: true,
        size: 1,
        modified,
    };
    let entries = vec![
        entry("b", Some(5)),
        entry("a", Some(5)),
        entry("unknown", None),
        entry("old", Some(-7)),
        entry("c", Some(5)),
    ];
    let mut cleanup = CacheCleanup::new(image_files(entries), 0);
    let mut seen = Vec::new();
    while let Some(file) = cleanup.next() {
        seen.push(file.path.clone());
        cleanup.record(true);
    }
    assert_eq!(seen, vec!["old", "unknown", "b", "a", "c"]);
    assert_eq!(cleanup.freed(), 5);
}

#[test]
fn folders_are_no_images() {
    let entries = vec![CacheEntry {
        path: "/cache/ep01/thumbs/inner".to_string(),
        folder: "thumbs".to_string(),
        is_file: false,
        size: 4096,
        modified: Some(0),
    }];
    assert!(image_files(entries).is_empty());
}

#[test]
fn freed_are_the_files_in_the_folders() {
    let entry = |path: &str, size: u64, is_file: bool| CacheEntry {
        path: path.to_string(),
        folder: String::new(),
        is_file,
        size,
        modified: None,
    };
    let entries = || {
        vec![
            entry("/cache/ep01/thumbs/a.jpg", 1, true),
            entry("/cache/ep01/thumbs/inner", 2, false),
            entry("/cache/ep01/thumbs/inner/b.jpg", 4, true),
            entry("/cache/ep01/thumbsx/c.jpg", 8, true),
            entry("/cache/ep01/captions.pes", 16, true),
            entry("/cache/ep01/sub/d.png", 32, true),
            entry("/cache/ep011/sub/d.png", 64, true),
            entry("/cache/ep01/sub/", 128, true),
        ]
    };
    assert_eq!(clear_image_subdirs("/cache/ep01", entries()).freed, 33);
    assert_eq!(clear_image_cache_for("/cache/", "ep01.ts", entries()).freed, 33);
    assert_eq!(clear_image_cache_for("/cache", "/nas/.ts", entries()).freed, 0);
    assert_eq!(freed_bytes(&entries()), 253);
    assert_eq!(freed_bytes(&[]), 0);
}
