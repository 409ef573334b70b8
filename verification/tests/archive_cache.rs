use fast_assets::archive::EntryHeader;
use fast_assets::decompression_manager::{CachedFile, DecompressionManager, MAX_CACHE_PREFIX};
use fast_assets::error::AssetError;
use fast_assets::process_pass::ProcessPass;
use fast_assets::unpack::{
    copies_wanted, entry_needs, lacks_record, misses_member, push_copies, unpack,
};
use std::collections::HashMap;
use std::io::Write;

fn zip_of(members: &[(&str, &[u8])]) -> Vec<u8> {
    let mut writer = zip::ZipWriter::new(std::io::Cursor::new(Vec::new()));
    let options =
        zip::write::FileOptions::default().compression_method(zip::CompressionMethod::Deflated);
    for (name, data) in members {
        if name.ends_with('/') {
            writer.add_directory(*name, options).unwrap();
        } else {
            writer.start_file(*name, options).unwrap();
            writer.write_all(data).unwrap();
        }
    }
    writer.finish().unwrap().into_inner()
}

fn sample() -> Vec<u8> {
    zip_of(&[
        ("index.json", b"{\"a\": 1}"),
        ("texts/", b""),
        ("texts/localization.csv", b"key;en\nhello;Hello\n"),
        ("empty.bin", b""),
    ])
}

fn no_hooks() -> Vec<Box<dyn ProcessPass>> {
    Vec::new()
}

fn strings(list: &[&str]) -> Vec<String> {
    list.iter().map(|s| s.to_string()).collect()
}

fn record(origin: &str, data: &[u8]) -> CachedFile {
    CachedFile {
        cache: None,
        origin: origin.to_string(),
        data: Some(data.to_vec()),
    }
}

fn loaded(members: &[(&str, &[u8])]) -> DecompressionManager {
    let mut cache = DecompressionManager::default();
    cache.set_cache_location("cache");
    for (name, data) in members {
        cache.files.push(record(name, data));
    }
    cache
}

#[test]
fn selected_member_is_extracted() {
    let mut cache = DecompressionManager::default();
    cache
        .load_archive(
            "index/index.zip",
            sample(),
            Some(vec!["texts/localization.csv"]),
            &mut no_hooks(),
        )
        .unwrap();
    assert_eq!(cache.files.len(), 1);
    assert_eq!(cache.files[0].origin, "texts/localization.csv");
    assert_eq!(cache.files[0].cache, None);
    assert_eq!(cache.files[0].data, Some(b"key;en\nhello;Hello\n".to_vec()));
    assert!(cache.files[0].is_loaded());
}

#[test]
fn every_file_is_extracted_without_a_selection() {
    let mut cache = loaded(&[("before", b"x")]);
    cache
        .load_archive("a.zip", sample(), None, &mut no_hooks())
        .unwrap();
    let origins: Vec<&str> = cache.files.iter().map(|f| f.origin.as_str()).collect();
    assert_eq!(
        origins,
        vec![
            "before",
            "index.json",
            "texts/localization.csv",
            "empty.bin"
        ]
    );
    assert_eq!(cache.files[1].data, Some(b"{\"a\": 1}".to_vec()));
    assert_eq!(cache.files[3].data, Some(Vec::new()));
}

#[test]
fn selection_that_names_a_member_twice_gives_two_records() {
    let mut cache = DecompressionManager::default();
    cache
        .load_archive(
            "a.zip",
            sample(),
            Some(vec!["index.json", "empty.bin", "index.json"]),
            &mut no_hooks(),
        )
        .unwrap();
    assert_eq!(cache.files.len(), 3);
    assert_eq!(cache.files[2].origin, "empty.bin");
    assert_eq!(cache.files[0].origin, "index.json");
    assert_eq!(cache.files[1].data, Some(b"{\"a\": 1}".to_vec()));
    assert_eq!(
        copies_wanted(
            "index.json",
            &Some(vec!["index.json", "absent", "index.json"])
        ),
        2
    );
    assert_eq!(copies_wanted("other", &Some(vec!["index.json"])), 0);
    assert_eq!(copies_wanted("other", &Some(vec![])), 0);
    assert_eq!(copies_wanted("other", &None), 1);
}

#[test]
fn directories_are_no_members() {
    let mut cache = DecompressionManager::default();
    let r = cache.load_archive("a.zip", sample(), Some(vec!["texts/"]), &mut no_hooks());
    assert_eq!(r, Err(AssetError::ArchiveMemberMissing));
    assert!(cache.files.is_empty());
    cache
        .load_archive("a.zip", sample(), None, &mut no_hooks())
        .unwrap();
    assert!(cache.files.iter().all(|f| f.origin != "texts/"));
}

#[test]
fn selected_member_that_the_archive_does_not_hold_is_reported() {
    let mut cache = loaded(&[("before", b"x")]);
    let r = cache.load_archive("a.zip", sample(), Some(vec!["absent.txt"]), &mut no_hooks());
    assert_eq!(r, Err(AssetError::ArchiveMemberMissing));
    assert_eq!(cache.files.len(), 1);
    // one missing name is enough, and nothing of the others is kept
    let r = cache.load_archive(
        "a.zip",
        sample(),
        Some(vec!["index.json", "absent.txt"]),
        &mut no_hooks(),
    );
    assert_eq!(r, Err(AssetError::ArchiveMemberMissing));
    assert_eq!(cache.files.len(), 1);
    // an empty selection asks for nothing and misses nothing
    assert_eq!(
        cache.load_archive("a.zip", sample(), Some(vec![]), &mut no_hooks()),
        Ok(())
    );
    assert_eq!(cache.files.len(), 1);
    assert!(matches!(
        unpack(sample(), &Some(vec!["absent.txt"])),
        Err(AssetError::ArchiveMemberMissing)
    ));
    // an archive that cannot be read is reported as such, whatever is selected
    let r = cache.load_archive(
        "a.zip",
        b"nothing".to_vec(),
        Some(vec!["absent.txt"]),
        &mut no_hooks(),
    );
    assert_eq!(r, Err(AssetError::ArchiveOpenFailure));
    assert!(misses_member(
        &cache.files,
        &Some(vec!["before", "absent.txt"])
    ));
    assert!(!misses_member(
        &cache.files,
        &Some(vec!["before", "before"])
    ));
    assert!(!misses_member(&cache.files, &Some(vec![])));
    assert!(!misses_member(&cache.files, &None));
    assert!(lacks_record(&cache.files, "absent.txt"));
    assert!(!lacks_record(&cache.files, "before"));
}

#[test]
fn bytes_that_are_no_archive_are_refused() {
    let mut cache = loaded(&[("before", b"x")]);
    let r = cache.load_archive(
        "a.zip",
        b"this is no archive".to_vec(),
        None,
        &mut no_hooks(),
    );
    assert_eq!(r, Err(AssetError::ArchiveOpenFailure));
    assert_eq!(cache.files.len(), 1);
    assert!(matches!(
        unpack(Vec::new(), &None),
        Err(AssetError::ArchiveOpenFailure)
    ));
}

#[test]
fn entry_with_an_unsafe_path_fails_the_archive() {
    let bytes = zip_of(&[("fine.txt", b"ok"), ("../escape.txt", b"no")]);
    let mut cache = DecompressionManager::default();
    let r = cache.load_archive("a.zip", bytes, Some(vec!["fine.txt"]), &mut no_hooks());
    assert_eq!(r, Err(AssetError::ArchiveOpenFailure));
    assert!(cache.files.is_empty());
}

/// An archive with one stored entry that carries the extra field `kind`.
fn zip_with_extra_field(kind: [u8; 2]) -> Vec<u8> {
    let mut writer = zip::ZipWriter::new(std::io::Cursor::new(Vec::new()));
    let options =
        zip::write::FileOptions::default().compression_method(zip::CompressionMethod::Stored);
    writer
        .start_file_with_extra_data("odd.bin", options)
        .unwrap();
    writer
        .write_all(&[0xfe, 0xca, 7, 0, 2, 0, 0x41, 0x45, 3, 0, 0])
        .unwrap();
    writer.end_extra_data().unwrap();
    writer.write_all(b"data").unwrap();
    let mut bytes = writer.finish().unwrap().into_inner();
    let mut patched = 0;
    for i in 0..bytes.len() - 3 {
        if bytes[i..i + 4] == [0xfe, 0xca, 7, 0] {
            bytes[i] = kind[0];
            bytes[i + 1] = kind[1];
            patched += 1;
        }
    }
    assert!(patched >= 1);
    bytes
}

#[test]
fn entry_that_claims_encryption_fails_the_archive() {
    let mut cache = DecompressionManager::default();
    // an unknown extra field is harmless
    cache
        .load_archive(
            "a.zip",
            zip_with_extra_field([0xfe, 0xca]),
            None,
            &mut no_hooks(),
        )
        .unwrap();
    assert_eq!(cache.files[0].data, Some(b"data".to_vec()));
    // the extra field of an encrypted entry, on an entry that is not marked as encrypted
    let r = cache.load_archive(
        "a.zip",
        zip_with_extra_field([0x01, 0x99]),
        None,
        &mut no_hooks(),
    );
    assert_eq!(r, Err(AssetError::ArchiveOpenFailure));
    assert_eq!(cache.files.len(), 1);
}

#[test]
fn truncated_archive_adds_nothing() {
    let mut bytes = sample();
    bytes.truncate(bytes.len() / 2);
    let mut cache = DecompressionManager::default();
    assert_eq!(
        cache.load_archive("a.zip", bytes, None, &mut no_hooks()),
        Err(AssetError::ArchiveOpenFailure)
    );
    assert!(cache.files.is_empty());
}

#[test]
fn what_is_wanted_of_an_entry_goes_by_its_header() {
    let file = |name: &str| {
        Some(EntryHeader {
            is_file: true,
            name: Some(name.to_string()),
        })
    };
    let all = None;
    let some = Some(vec!["a", "b", "a"]);
    assert_eq!(entry_needs(file("a"), &all), Ok(Some(("a".to_string(), 1))));
    assert_eq!(
        entry_needs(file("a"), &some),
        Ok(Some(("a".to_string(), 2)))
    );
    assert_eq!(
        entry_needs(file("b"), &some),
        Ok(Some(("b".to_string(), 1)))
    );
    assert_eq!(entry_needs(file("c"), &some), Ok(None));
    let directory = Some(EntryHeader {
        is_file: false,
        name: Some("a".to_string()),
    });
    assert_eq!(entry_needs(directory, &some), Ok(None));
    let odd_directory = Some(EntryHeader {
        is_file: false,
        name: None,
    });
    assert_eq!(entry_needs(odd_directory, &all), Ok(None));
    let unsafe_file = Some(EntryHeader {
        is_file: true,
        name: None,
    });
    assert_eq!(
        entry_needs(unsafe_file, &some),
        Err(AssetError::ArchiveOpenFailure)
    );
    assert_eq!(entry_needs(None, &all), Err(AssetError::ArchiveOpenFailure));
}

#[test]
fn copies_are_pushed_behind_the_records() {
    let mut records = vec![record("first", b"1")];
    push_copies(&mut records, "name", &b"data".to_vec(), 2);
    assert_eq!(records.len(), 3);
    assert_eq!(records[1].origin, "name");
    assert_eq!(records[2].data, Some(b"data".to_vec()));
    assert_eq!(records[2].cache, None);
    push_copies(&mut records, "none", &Vec::new(), 0);
    assert_eq!(records.len(), 3);
}

struct Recorder {
    seen: Vec<(String, String)>,
}

impl ProcessPass for Recorder {
    fn on_archive(&mut self, cache: &mut DecompressionManager, extension: &str, archive: &str) {
        self.seen.push((extension.to_string(), archive.to_string()));
        cache.files.push(CachedFile {
            cache: None,
            origin: format!("from {}", archive),
            data: Some(vec![self.seen.len() as u8]),
        });
    }
}

#[test]
fn foreign_archive_is_left_to_every_hook() {
    let mut hooks: Vec<Box<dyn ProcessPass>> = vec![
        Box::new(Recorder { seen: Vec::new() }),
        Box::new(Recorder { seen: Vec::new() }),
    ];
    let mut cache = DecompressionManager::default();
    cache
        .load_archive("game/base.pak", Vec::new(), Some(vec!["x"]), &mut hooks)
        .unwrap();
    assert_eq!(hooks.len(), 2);
    assert_eq!(cache.files.len(), 2);
    assert_eq!(cache.files[0].origin, "from game/base.pak");
    // a zip is read here, and no hook is asked
    cache
        .load_archive("a.zip", sample(), Some(vec!["index.json"]), &mut hooks)
        .unwrap();
    assert_eq!(cache.files.len(), 3);
    assert_eq!(cache.files[2].origin, "index.json");
    assert!(DecompressionManager::is_native("a.zip"));
    assert!(DecompressionManager::is_native("dir/b.c.zip"));
    assert!(!DecompressionManager::is_native("game/base.pak"));
    assert!(!DecompressionManager::is_native("zip"));
    assert!(!DecompressionManager::is_native(".zip"));
}

#[test]
fn foreign_archive_without_hooks_changes_nothing() {
    let mut cache = loaded(&[("kept", b"k")]);
    cache
        .load_archive("no_extension", b"abc".to_vec(), None, &mut no_hooks())
        .unwrap();
    assert_eq!(cache.files.len(), 1);
}

#[test]
fn cache_path_is_the_location_and_the_name() {
    let mut cache = loaded(&[("texts/localization.csv", b"data")]);
    let write = cache
        .cache("texts/localization.csv", &Vec::new())
        .unwrap()
        .unwrap();
    assert_eq!(write.path, "cache/texts/localization.csv");
    assert_eq!(write.data, b"data".to_vec());
    assert_eq!(
        cache.files[0].cache,
        Some("cache/texts/localization.csv".to_string())
    );
    assert_eq!(cache.files[0].data, None);
    assert!(!cache.files[0].is_loaded());
}

#[test]
fn taken_names_are_avoided_with_underscores() {
    let mut file = record("a.txt", b"1");
    file.set_cache_if_missing("cache/a.txt", &strings(&["a.txt", "_a.txt", "___a.txt"]))
        .unwrap();
    assert_eq!(file.cache, Some("cache/__a.txt".to_string()));
    // the first place wins
    file.set_cache_if_missing("elsewhere/b.txt", &Vec::new())
        .unwrap();
    assert_eq!(file.cache, Some("cache/__a.txt".to_string()));

    let mut bare = record("a.txt", b"1");
    bare.set_cache_if_missing("a.txt", &strings(&["a.txt"]))
        .unwrap();
    assert_eq!(bare.cache, Some("_a.txt".to_string()));
}

#[test]
fn search_for_a_free_name_is_given_up() {
    let mut taken = Vec::new();
    for k in 0..=MAX_CACHE_PREFIX {
        taken.push(format!("{}a.txt", "_".repeat(k)));
    }
    let mut file = record("a.txt", b"1");
    assert_eq!(
        file.set_cache_if_missing("cache/a.txt", &taken),
        Err(AssetError::CacheIOFailure)
    );
    assert_eq!(file.cache, None);
    assert_eq!(file.data, Some(b"1".to_vec()));
    taken.pop();
    file.set_cache_if_missing("cache/a.txt", &taken).unwrap();
    assert_eq!(
        file.cache,
        Some(format!("cache/{}a.txt", "_".repeat(MAX_CACHE_PREFIX)))
    );

    let mut cache = loaded(&[("a.txt", b"1")]);
    taken.push(format!("{}a.txt", "_".repeat(MAX_CACHE_PREFIX)));
    assert!(matches!(
        cache.cache("a.txt", &taken),
        Err(AssetError::CacheIOFailure)
    ));
    assert_eq!(cache.files[0].data, Some(b"1".to_vec()));
}

#[test]
fn record_without_a_place_cannot_be_demoted_or_promoted() {
    let mut file = record("a", b"1");
    assert!(matches!(file.cache(), Err(AssetError::CacheIOFailure)));
    assert_eq!(
        file.load_cache(b"2".to_vec()),
        Err(AssetError::CacheIOFailure)
    );
    assert_eq!(file.data, Some(b"1".to_vec()));
}

#[test]
fn demoting_twice_writes_once() {
    let mut file = record("a", b"1");
    file.set_cache_if_missing("c/a", &Vec::new()).unwrap();
    let write = file.cache().unwrap().unwrap();
    assert_eq!(
        (write.path.as_str(), write.data.as_slice()),
        ("c/a", &b"1"[..])
    );
    assert!(file.cache().unwrap().is_none());
    file.load_cache(b"1".to_vec()).unwrap();
    assert_eq!(file.data, Some(b"1".to_vec()));
}

#[test]
fn cache_round_trip_gives_the_bytes_back() {
    let mut disk: HashMap<String, Vec<u8>> = HashMap::new();
    let mut cache = DecompressionManager::default();
    cache.set_cache_location("tmp/cache");
    cache
        .load_archive("a.zip", sample(), None, &mut no_hooks())
        .unwrap();
    for (name, expected) in [
        ("index.json", &b"{\"a\": 1}"[..]),
        ("texts/localization.csv", &b"key;en\nhello;Hello\n"[..]),
        ("empty.bin", &b""[..]),
    ] {
        assert_eq!(cache.reload_path(name), None);
        let write = cache.cache(name, &Vec::new()).unwrap().unwrap();
        disk.insert(write.path.clone(), write.data);
        assert_eq!(cache.get(name).unwrap().data, None);
        let path = cache.reload_path(name).unwrap();
        assert_eq!(path, write.path);
        let read_back = disk.get(&path).cloned();
        assert_eq!(cache.get_data(name, read_back), Some(expected.to_vec()));
        // promoted: nothing is to be read back any more
        assert_eq!(cache.reload_path(name), None);
        assert_eq!(cache.get_data(name, None), Some(expected.to_vec()));
    }
}

#[test]
fn accessors_promote_a_demoted_record() {
    let mut cache = loaded(&[("a", b"1"), ("b", b"2")]);
    cache.cache("b", &Vec::new()).unwrap();
    assert_eq!(cache.get_data_ref("b", None), Some(&None));
    assert_eq!(
        cache.get_data_ref("b", Some(b"2".to_vec())),
        Some(&Some(b"2".to_vec()))
    );
    // bytes in memory are not replaced by what is handed in
    assert_eq!(
        cache.get_data_ref("a", Some(b"other".to_vec())),
        Some(&Some(b"1".to_vec()))
    );
    assert_eq!(cache.get_data_ref("absent", Some(b"x".to_vec())), None);
    assert_eq!(cache.get_data("absent", None), None);

    cache.unload("b");
    *cache.get_data_mut("b", Some(b"2".to_vec())).unwrap() = Some(b"changed".to_vec());
    assert_eq!(cache.files[1].data, Some(b"changed".to_vec()));
    assert!(cache.get_data_mut("absent", None).is_none());
}

#[test]
fn unloaded_record_without_a_cache_file_has_no_bytes() {
    let mut cache = loaded(&[("a", b"1")]);
    cache.unload("a");
    assert_eq!(cache.reload_path("a"), None);
    assert_eq!(cache.get_data("a", Some(b"ignored".to_vec())), None);
    assert_eq!(cache.files[0].data, None);
}

#[test]
fn names_stand_for_the_first_record() {
    let mut cache = loaded(&[("a", b"1"), ("b", b"2"), ("a", b"3")]);
    assert_eq!(cache.find("a"), 0);
    assert_eq!(cache.find("b"), 1);
    assert_eq!(cache.find("c"), 3);
    assert_eq!(cache.get("a").unwrap().data, Some(b"1".to_vec()));
    assert!(cache.get("c").is_none());
    cache.get_mut("a").unwrap().data = Some(b"new".to_vec());
    assert_eq!(cache.files[0].data, Some(b"new".to_vec()));
    assert_eq!(cache.files[2].data, Some(b"3".to_vec()));
    assert!(cache.get_mut("c").is_none());
}

#[test]
fn unload_drops_the_bytes_of_every_record_of_the_name() {
    let mut cache = loaded(&[("a", b"1"), ("b", b"2"), ("a", b"3")]);
    cache.cache("a", &Vec::new()).unwrap();
    cache.unload("a");
    assert_eq!(cache.files[0].data, None);
    assert_eq!(cache.files[0].cache, Some("cache/a".to_string()));
    assert_eq!(cache.files[1].data, Some(b"2".to_vec()));
    assert_eq!(cache.files[2].data, None);
}

#[test]
fn remove_hands_back_the_cache_files_of_the_removed() {
    let mut cache = loaded(&[("a", b"1"), ("b", b"2"), ("a", b"3"), ("c", b"4")]);
    cache.cache("a", &Vec::new()).unwrap();
    cache.cache("b", &strings(&["b"])).unwrap();
    assert_eq!(cache.cache_files(), strings(&["cache/a", "cache/_b"]));
    assert_eq!(cache.remove("a"), strings(&["cache/a"]));
    let origins: Vec<&str> = cache.files.iter().map(|f| f.origin.as_str()).collect();
    assert_eq!(origins, vec!["b", "c"]);
    assert_eq!(cache.remove("c"), Vec::<String>::new());
    assert_eq!(cache.remove("absent"), Vec::<String>::new());
    assert_eq!(cache.cache_files(), strings(&["cache/_b"]));
    assert_eq!(cache.remove("b"), strings(&["cache/_b"]));
    assert!(cache.files.is_empty());
    assert!(cache.cache_files().is_empty());
}

#[test]
fn demoting_an_unknown_name_does_nothing() {
    let mut cache = loaded(&[("a", b"1")]);
    assert!(cache.cache("absent", &Vec::new()).unwrap().is_none());
    assert_eq!(cache.files[0].data, Some(b"1".to_vec()));
    assert_eq!(cache.files[0].cache, None);
}
