use fast_assets::archive_path::split_archive_path;
use fast_assets::downloader::Downloader;
use fast_assets::error::AssetError;
use fast_assets::store::{plan_load, LoadStep};
use fast_assets::text::{contains_separator, directory_of, extension_of, file_name};

fn formats(list: &[&str]) -> Vec<String> {
    list.iter().map(|f| f.to_string()).collect()
}

#[test]
fn file_name_is_what_follows_the_last_separator() {
    assert_eq!(file_name("index/index.zip/index.json"), "index.json");
    assert_eq!(file_name("plain.txt"), "plain.txt");
    assert_eq!(file_name("dir\\sub\\file"), "file");
    assert_eq!(file_name("mixed/dir\\file.bin"), "file.bin");
    assert_eq!(file_name("dir/"), "");
    assert_eq!(file_name(""), "");
}

#[test]
fn directory_is_what_comes_before_the_file_name() {
    assert_eq!(directory_of("cache/texts/a.csv"), "cache/texts/");
    assert_eq!(directory_of("a.csv"), "");
    assert_eq!(directory_of("/a.csv"), "/");
    assert_eq!(directory_of("dir\\a"), "dir\\");
    assert_eq!(directory_of("dir/"), "dir/");
}

#[test]
fn separators_are_slash_and_backslash() {
    assert!(contains_separator("a/b"));
    assert!(contains_separator("a\\b"));
    assert!(contains_separator("/"));
    assert!(!contains_separator("a.b"));
    assert!(!contains_separator(""));
}

#[test]
fn extension_follows_the_last_dot_of_the_file_name() {
    assert_eq!(extension_of("index/index.zip"), Some("zip".to_string()));
    assert_eq!(extension_of("a.tar.gz"), Some("gz".to_string()));
    assert_eq!(extension_of("dir.d/file"), None);
    assert_eq!(extension_of(".hidden"), None);
    assert_eq!(extension_of("name."), Some(String::new()));
    assert_eq!(extension_of("no_extension"), None);
}

#[test]
fn path_is_split_at_the_first_archive() {
    let zip = formats(&["zip"]);
    let split = split_archive_path("index/index.zip/index.json", &zip).unwrap();
    assert_eq!(split.archive, "index/index.zip");
    assert_eq!(split.member, "index.json");

    let split = split_archive_path("./a.zip/b.zip/c/d.txt", &zip).unwrap();
    assert_eq!(split.archive, "./a.zip");
    assert_eq!(split.member, "b.zip/c/d.txt");

    let split = split_archive_path("data\\pack.zip\\inner\\x.bin", &zip).unwrap();
    assert_eq!(split.archive, "data\\pack.zip");
    assert_eq!(split.member, "inner\\x.bin");
}

#[test]
fn path_without_archive_is_not_split() {
    let zip = formats(&["zip"]);
    assert!(split_archive_path("test_resources/index.csv", &zip).is_none());
    assert!(split_archive_path("zip/file.zipped", &zip).is_none());
    assert!(split_archive_path("archive.zipx/file", &zip).is_none());
    assert!(split_archive_path("", &zip).is_none());
    assert!(split_archive_path("a.zip/b", &formats(&[])).is_none());
}

#[test]
fn archive_at_the_end_of_a_path_has_an_empty_member() {
    let split = split_archive_path("index/index.zip", &formats(&["zip"])).unwrap();
    assert_eq!(split.archive, "index/index.zip");
    assert_eq!(split.member, "");
}

#[test]
fn added_formats_mark_archives_too() {
    let both = formats(&["zip", "pak"]);
    let split = split_archive_path("game/base.pak/maps/e1m1.bsp", &both).unwrap();
    assert_eq!(split.archive, "game/base.pak");
    assert_eq!(split.member, "maps/e1m1.bsp");
    assert!(split_archive_path("game/base.pak/maps/e1m1.bsp", &formats(&["zip"])).is_none());
}

#[test]
fn plan_turns_a_path_into_a_read() {
    let zip = formats(&["zip"]);
    match plan_load(
        true,
        Some("dir/file.txt".to_string()),
        AssetError::NotFound,
        &zip,
    ) {
        Ok(LoadStep::ReadFile { path }) => assert_eq!(path, "dir/file.txt"),
        other => panic!("unexpected step: {:?}", other),
    }
    match plan_load(
        true,
        Some("a/b.zip/c.txt".to_string()),
        AssetError::NotFound,
        &zip,
    ) {
        Ok(LoadStep::ReadArchive { archive, member }) => {
            assert_eq!(archive, "a/b.zip");
            assert_eq!(member, "c.txt");
        }
        other => panic!("unexpected step: {:?}", other),
    }
}

#[test]
fn plan_without_a_path_reports_the_failure() {
    let zip = formats(&["zip"]);
    assert!(matches!(
        plan_load(true, None, AssetError::NotFound, &zip),
        Err(AssetError::NotFound)
    ));
    assert!(matches!(
        plan_load(true, None, AssetError::RedirectCycle, &zip),
        Err(AssetError::RedirectCycle)
    ));
}

#[test]
fn plan_of_a_stopped_load_asks_for_no_read() {
    let zip = formats(&["zip"]);
    assert!(matches!(
        plan_load(
            false,
            Some("a/b.zip/c.txt".to_string()),
            AssetError::NotFound,
            &zip
        ),
        Ok(LoadStep::Stopped)
    ));
    assert!(matches!(
        plan_load(false, None, AssetError::NotFound, &zip),
        Ok(LoadStep::Stopped)
    ));
}

#[test]
fn remote_names_are_recognised() {
    let is_remote = |target: &str| Downloader::new().is_remote(target);
    assert!(is_remote("https://crates.io/assets/cargo.png"));
    assert!(is_remote("https://www.rust-lang.org/"));
    assert!(is_remote("http://example.org/file.bin"));
    assert!(!is_remote("ftp://example.org/file.bin"));
    assert!(!is_remote("index/https://x"));
    assert!(!is_remote("http:/"));
    assert!(!is_remote(""));
}

#[test]
fn errors_describe_themselves() {
    assert_eq!(AssetError::NotFound.message(), "asset not found");
    assert_eq!(
        AssetError::ArchiveOpenFailure.message(),
        "archive could not be read"
    );
    assert_eq!(
        AssetError::ArchiveMemberMissing.message(),
        "archive holds no such member"
    );
    assert_eq!(
        AssetError::CacheIOFailure.message(),
        "on-disk cache unavailable"
    );
    assert_eq!(
        AssetError::RedirectCycle.message(),
        "redirects form a cycle"
    );
    assert_eq!(AssetError::Configuration.message(), "invalid configuration");
}
