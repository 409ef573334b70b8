use fast_assets::error::AssetError;
use fast_assets::index::Index;
use fast_assets::pattern::keep_marked;
use fast_assets::rows::{fields_of, join_fields, path_of_row};

const TABLE: &str = "Cargo.toml\r\nother.toml\r\ntest_resources/index.csv\r\nindex/index.zip/index.json\r\nindex/index.zip/localization.csv\r\n";

fn listing() -> Vec<String> {
    vec![
        "./Cargo.toml".to_string(),
        "./src/lib.rs".to_string(),
        "./src/index.rs".to_string(),
        "./test_resources/index.csv".to_string(),
    ]
}

fn strings(list: &[&str]) -> Vec<String> {
    list.iter().map(|s| s.to_string()).collect()
}

fn custom_index() -> Index {
    let mut index = Index::new("./", "____________").unwrap();
    index.set_csv_separator('/');
    index.search(listing()).unwrap();
    index.add_from_file("test_resources/index.csv", TABLE);
    index
}

#[test]
fn get_cargo_toml_path_index() {
    let mut index = Index::new("./", "Cargo.toml").unwrap();
    index.search(listing()).unwrap();
    assert_eq!(
        index.get_path("./Cargo.toml"),
        Some(String::from("./Cargo.toml"))
    );
}

#[test]
fn get_cargo_toml_path_index_using_custom() {
    let index = custom_index();
    assert_eq!(
        index.get_path("Cargo.toml"),
        Some(String::from("Cargo.toml"))
    );
}

#[test]
fn get_compressed_file_path() {
    let index = custom_index();
    assert_eq!(
        index.get_path("index.json"),
        Some(String::from("index/index.zip/index.json"))
    );
}

#[test]
fn redirect() {
    let mut index = custom_index();
    index.add_redirect_from_file("{\"redirect\": {\"Cargo.toml\": \"other.toml\"}}");
    assert_eq!(
        index.get_path("Cargo.toml"),
        Some(String::from("other.toml"))
    );
}

#[test]
fn filter_that_does_not_compile_is_refused() {
    assert!(matches!(
        Index::new("./", "open(paren"),
        Err(AssetError::Configuration)
    ));
    let broken = Index::assemble("./", "open(paren");
    assert!(matches!(
        broken.search_in_dir(&listing()),
        Err(AssetError::Configuration)
    ));
    assert!(matches!(
        broken.regex_search("[a-"),
        Err(AssetError::Configuration)
    ));
}

#[test]
fn search_keeps_files_whose_name_the_filter_matches() {
    let mut index = Index::new("./", "\\.rs$").unwrap();
    index.add_file("first".to_string());
    index.search(listing()).unwrap();
    assert_eq!(
        index.files,
        strings(&["first", "./src/lib.rs", "./src/index.rs"])
    );
    // the filter sees the file name, not the directories
    let index = Index::new("./", "src").unwrap();
    assert_eq!(
        index.search_in_dir(&listing()).unwrap(),
        Vec::<String>::new()
    );
    let index = Index::new("./", "").unwrap();
    assert_eq!(index.search_in_dir(&listing()).unwrap(), listing());
}

#[test]
fn regex_search_sees_the_whole_path() {
    let index = custom_index();
    assert_eq!(
        index.regex_search("^index/").unwrap(),
        strings(&[
            "index/index.zip/index.json",
            "index/index.zip/localization.csv"
        ])
    );
    assert_eq!(
        index.regex_search("nothing like this").unwrap(),
        Vec::<String>::new()
    );
}

#[test]
fn marks_select_paths() {
    let paths = strings(&["a", "b", "c", "d"]);
    assert_eq!(
        keep_marked(&paths, &vec![true, false, false, true]),
        strings(&["a", "d"])
    );
    assert_eq!(keep_marked(&paths, &vec![false; 4]), Vec::<String>::new());
    assert_eq!(keep_marked(&paths, &vec![true; 4]), paths);
}

#[test]
fn rows_become_paths() {
    assert_eq!(
        path_of_row(&strings(&["index", "index.zip", "index.json"])),
        "index/index.zip/index.json"
    );
    assert_eq!(path_of_row(&strings(&["single"])), "single");
    assert_eq!(path_of_row(&strings(&["a", "b\r"])), "a/b");
    assert_eq!(path_of_row(&strings(&["a\r", "b"])), "a\r/b");
    assert_eq!(path_of_row(&strings(&[])), "");
}

#[test]
fn tabular_row_yields_resolvable_entry() {
    let mut index = Index::new("./", "").unwrap();
    index.set_csv_separator(',');
    index.add_from_file("catalog.csv", "index,index.zip,index.json");
    assert_eq!(index.files, strings(&["index/index.zip/index.json"]));
    assert_eq!(
        index.get_path("index.json"),
        Some("index/index.zip/index.json".to_string())
    );
    assert_eq!(
        index.get_path("index/index.zip/index.json"),
        Some("index/index.zip/index.json".to_string())
    );
}

#[test]
fn rows_without_fields_add_nothing() {
    let mut index = Index::new("./", "").unwrap();
    index.add_rows(&vec![strings(&["a", "b"]), strings(&[]), strings(&["c"])]);
    assert_eq!(index.files, strings(&["a/b", "c"]));
    index.add_from_file("t.csv", "x;y\n;;;\n\nz\n");
    assert_eq!(index.files, strings(&["a/b", "c", "x/y", "z"]));
}

#[test]
fn only_csv_files_are_taken_in() {
    let mut index = Index::new("./", "").unwrap();
    index.add_from_file("catalog.txt", "a;b\n");
    index.add_from_file("catalog", "a;b\n");
    index.add_from_file(".csv", "a;b\n");
    assert!(index.files.is_empty());
    index.add_from_file("dir.d/catalog.csv", "a;b\n");
    assert_eq!(index.files, strings(&["a/b"]));
}

#[test]
fn later_entry_stands_in_front() {
    let mut index = Index::new("./", "").unwrap();
    index.add_files(strings(&["demoFile.txt", "index/demoFile.txt"]));
    assert_eq!(
        index.get_path("demoFile.txt"),
        Some("index/demoFile.txt".to_string())
    );
    assert_eq!(
        index.get_path("index/demoFile.txt"),
        Some("index/demoFile.txt".to_string())
    );
}

#[test]
fn registered_entries_resolve_by_name_and_by_path() {
    let mut index = Index::new("./", "").unwrap();
    let entries = strings(&["a/one.txt", "b/two.bin", "three", "c\\d\\four.x"]);
    index.add_files(entries.clone());
    for entry in entries.iter() {
        let name = fast_assets::text::file_name(entry);
        let by_path = index.get_path(entry).unwrap();
        let by_name = index.get_path(&name).unwrap();
        assert_eq!(fast_assets::text::file_name(&by_path), name);
        assert_eq!(fast_assets::text::file_name(&by_name), name);
    }
}

#[test]
fn unknown_name_resolves_to_nothing() {
    let index = custom_index();
    assert_eq!(index.get_path("absent.bin"), None);
    assert_eq!(index.resolve("absent.bin"), Err(AssetError::NotFound));
    assert_eq!(index.resolve("Cargo.toml"), Ok("Cargo.toml".to_string()));
}

#[test]
fn redirects_are_followed_one_after_the_other() {
    let mut index = Index::new("./", "").unwrap();
    index.add_files(strings(&["data/b.txt"]));
    index.add_redirect("origin.txt", "data/a.txt");
    index.add_redirect("data/a.txt", "data/b.txt");
    assert_eq!(
        index.get_redirect("origin.txt"),
        Some("data/a.txt".to_string())
    );
    assert_eq!(index.get_redirect("a.txt"), Some("data/b.txt".to_string()));
    assert_eq!(index.get_redirect("b.txt"), None);
    assert_eq!(index.get_path("origin.txt"), Some("data/b.txt".to_string()));
}

#[test]
fn redirect_cycle_is_an_error() {
    let mut index = Index::new("./", "").unwrap();
    index.add_files(strings(&["a", "b"]));
    index.add_redirect("a", "b");
    index.add_redirect("b", "a");
    assert_eq!(index.resolve("a"), Err(AssetError::RedirectCycle));
    assert_eq!(index.get_path("b"), None);
    index.add_redirect("self", "self");
    assert_eq!(index.resolve("self"), Err(AssetError::RedirectCycle));
    index.remove_redirect("b");
    assert_eq!(index.resolve("a"), Ok("b".to_string()));
}

#[test]
fn redirect_of_a_known_origin_is_overwritten() {
    let mut index = Index::new("./", "").unwrap();
    index.add_files(strings(&["x", "y"]));
    index.add_redirect("name", "x");
    index.add_redirect("other", "x");
    index.add_redirect("name", "y");
    assert_eq!(index.redirect_list.len(), 2);
    assert_eq!(index.redirect_list[0].origin, "name");
    assert_eq!(index.redirect_list[0].target, "y");
    assert_eq!(index.get_path("name"), Some("y".to_string()));
    index.remove_redirect("name");
    assert_eq!(index.redirect_list.len(), 1);
    assert_eq!(index.get_path("name"), None);
    index.remove_redirect("name");
    assert_eq!(index.redirect_list.len(), 1);
}

#[test]
fn redirect_document_with_unknown_name_changes_nothing() {
    let mut index = custom_index();
    let r = index.try_add_redirect_from_file(
        "{\"redirect\": {\"Cargo.toml\": \"other.toml\", \"index.json\": \"absent.json\"}}",
    );
    assert_eq!(r, Err(AssetError::Configuration));
    assert!(index.redirect_list.is_empty());
    assert_eq!(index.get_path("Cargo.toml"), Some("Cargo.toml".to_string()));
}

#[test]
fn malformed_redirect_document_is_refused() {
    let mut index = custom_index();
    assert_eq!(
        index.try_add_redirect_from_file("{\"redirect\": "),
        Err(AssetError::Configuration)
    );
    assert_eq!(
        index.try_add_redirect_from_file("{\"redirect\": {\"Cargo.toml\": 3}}"),
        Err(AssetError::Configuration)
    );
    assert_eq!(
        index.try_add_redirect_from_file("{\"other\": {\"a\": \"b\"}}"),
        Ok(())
    );
    assert!(index.redirect_list.is_empty());
}

#[test]
fn redirect_pairs_are_resolved_before_they_are_stored() {
    let mut index = custom_index();
    let pairs = vec![("index.json".to_string(), "localization.csv".to_string())];
    assert!(index.can_redirect(&pairs));
    index.add_redirects(&pairs);
    assert_eq!(index.redirect_list[0].origin, "index/index.zip/index.json");
    assert_eq!(
        index.redirect_list[0].target,
        "index/index.zip/localization.csv"
    );
    assert_eq!(
        index.get_path("index.json"),
        Some("index/index.zip/localization.csv".to_string())
    );
}

#[test]
fn have_file_goes_by_name_or_by_full_path() {
    let index = custom_index();
    assert!(index.have_file("index.json"));
    assert!(index.have_file("index/index.zip/index.json"));
    assert!(index.have_file("Cargo.toml"));
    assert!(!index.have_file("zip/index.json"));
    assert!(!index.have_file("index.zip"));
    assert!(!index.have_file("absent"));
}

#[test]
fn removing_takes_the_first_equal_entry() {
    let mut index = Index::new("./", "").unwrap();
    index.add_files(strings(&["a/x", "b/x", "a/x"]));
    assert!(index.remove_indexed_file("a/x"));
    assert_eq!(index.files, strings(&["b/x", "a/x"]));
    assert!(index.remove_indexed_file("x"));
    assert_eq!(index.files, strings(&["b/x"]));
    assert!(!index.remove_indexed_file("absent"));
    assert_eq!(index.files, strings(&["b/x"]));
    index.clear();
    assert!(index.files.is_empty());
}

#[test]
fn entries_are_handed_out_in_order() {
    let mut index = Index::new("./", "").unwrap();
    index.add_files(strings(&["one", "two"]));
    assert_eq!(index.next(), Some("one".to_string()));
    assert_eq!(index.next(), Some("two".to_string()));
    assert_eq!(index.next(), None);
    assert_eq!(index.next(), None);
}

#[test]
fn catalog_is_written_as_rows_of_components() {
    let mut index = Index::new("./", "").unwrap();
    index.add_files(strings(&[
        "./Cargo.toml",
        "index/index.zip/index.json",
        "a//b/./c",
        "/abs/file",
    ]));
    assert_eq!(
        index.save_as_file(),
        "Cargo.toml\nindex;index.zip;index.json\na;b;c\n/;abs;file\n"
    );
    index.set_csv_separator(',');
    index.clear();
    index.add_files(strings(&["x\\y", ".", ""]));
    assert_eq!(index.save_as_file(), "x,y\n\n\n");
    assert_eq!(Index::new("./", "").unwrap().save_as_file(), "");
}

#[test]
fn fields_are_the_components_of_a_path() {
    assert_eq!(
        fields_of("index/index.zip/index.json"),
        strings(&["index", "index.zip", "index.json"])
    );
    assert_eq!(fields_of("./a/../b/"), strings(&["a", "..", "b"]));
    assert_eq!(fields_of("/"), strings(&["/"]));
    assert_eq!(fields_of(""), Vec::<String>::new());
    assert_eq!(join_fields(&strings(&["a", "b", "c"]), ';'), "a;b;c");
    assert_eq!(join_fields(&strings(&["a"]), ';'), "a");
    assert_eq!(join_fields(&strings(&[]), ';'), "");
}

#[test]
fn written_catalog_reads_back() {
    let mut index = Index::new("./", "").unwrap();
    index.add_files(strings(&["Cargo.toml", "index/index.zip/index.json"]));
    let text = index.save_as_file();
    let mut copy = Index::new("./", "").unwrap();
    copy.add_from_file("saved.csv", &text);
    assert_eq!(copy.files, index.files);
}

#[test]
fn redirects_that_name_unknown_files_are_found_before_they_are_taken_in() {
    let mut index = custom_index();
    let good = vec![
        ("Cargo.toml".to_string(), "other.toml".to_string()),
        ("index.json".to_string(), "Cargo.toml".to_string()),
    ];
    let bad = vec![
        ("Cargo.toml".to_string(), "other.toml".to_string()),
        ("absent.txt".to_string(), "Cargo.toml".to_string()),
    ];
    assert!(index.can_redirect(&good));
    assert!(!index.can_redirect(&bad));
    assert!(index.can_redirect(&Vec::new()));
    assert!(index.redirect_list.is_empty());
    assert_eq!(
        index.try_add_redirects(&bad),
        Err(AssetError::Configuration)
    );
    assert!(index.redirect_list.is_empty());
    assert_eq!(index.try_add_redirects(&good), Ok(()));
    assert_eq!(index.redirect_list.len(), 2);
    // the second pair was resolved with the first one taken in
    assert_eq!(index.redirect_list[1].origin, "index/index.zip/index.json");
    assert_eq!(index.redirect_list[1].target, "other.toml");
    // a pair whose names only resolve once an earlier pair is forgotten
    let mut cyclic = custom_index();
    cyclic.add_redirect("Cargo.toml", "other.toml");
    cyclic.add_redirect("other.toml", "Cargo.toml");
    let pairs = vec![("index.json".to_string(), "Cargo.toml".to_string())];
    assert!(!cyclic.can_redirect(&pairs));
    assert_eq!(
        cyclic.try_add_redirects(&pairs),
        Err(AssetError::Configuration)
    );
    assert_eq!(cyclic.redirect_list.len(), 2);
}

#[test]
fn origins_of_the_redirect_table_stay_distinct() {
    let mut index = custom_index();
    index.add_redirect("a", "b");
    index.add_redirect("c", "d");
    index.add_redirect("a", "e");
    index
        .try_add_redirect_from_file(
            "{\"redirect\": {\"Cargo.toml\": \"other.toml\", \"index.json\": \"Cargo.toml\"}}",
        )
        .unwrap();
    index.add_redirect("Cargo.toml", "x");
    index.remove_redirect("c");
    let origins: Vec<&str> = index
        .redirect_list
        .iter()
        .map(|r| r.origin.as_str())
        .collect();
    assert_eq!(
        origins,
        vec!["a", "Cargo.toml", "index/index.zip/index.json"]
    );
}
