use fast_assets::decompression_manager::DecompressionManager;
use fast_assets::dependencie_manager::{Dependencie, DependencieManager};
use fast_assets::document::{has_short_digit_runs, read_lists, read_pairs, MAX_DIGIT_RUN};
use fast_assets::error::AssetError;
use fast_assets::index::Index;
use fast_assets::manager::AssetsManager;

const TABLE: &str = "Cargo.toml\r\nother.toml\r\ntest_resources/index.csv\r\nindex/index.zip/index.json\r\nindex/index.zip/localization.csv\r\n";

const DEPS: &str = "{
    \"dependencies\": {
        \"index.csv\": [\"index.json\", \"missing_texture.png\", \"missing_sound.ogg\"],
        \"Cargo.toml\": [\"other.toml\"],
        \"bare\": 3
    }
}";

fn manager() -> AssetsManager {
    let mut index = Index::new("./", "____________").unwrap();
    index.set_csv_separator('/');
    index.search(Vec::new()).unwrap();
    index.add_from_file("test_resources/index.csv", TABLE);
    let dc = DecompressionManager::default();
    AssetsManager::new(index, dc)
}

#[test]
fn dependencie_manager() {
    let manager = manager();

    let mut deps = DependencieManager::default();
    deps.load_file(DEPS).unwrap();
    deps.update(&manager);

    assert_eq!(deps.get_missing_dependencies("index.csv").is_empty(), false);
}

#[test]
fn missing_dependencies_are_listed_in_order() {
    let manager = manager();
    let mut deps = DependencieManager::new();
    deps.load_file(DEPS).unwrap();
    assert!(deps.check_if_valid("index.csv"));
    deps.update(&manager);
    assert_eq!(
        deps.get_missing_dependencies("index.csv"),
        vec![
            "missing_texture.png".to_string(),
            "missing_sound.ogg".to_string()
        ]
    );
    assert!(!deps.check_if_valid("index.csv"));
    assert!(deps.check_if_valid("Cargo.toml"));
    assert!(deps.check_if_valid("bare"));
    assert!(deps.check_if_valid("unknown"));
    assert!(deps.get_missing_dependencies("Cargo.toml").is_empty());
    assert!(deps.get_missing_dependencies("unknown").is_empty());
    // a second look adds what is still missing once more
    deps.update(&manager);
    assert_eq!(deps.get_missing_dependencies("index.csv").len(), 4);
}

#[test]
fn dependencies_of_a_document_are_taken_in_behind_the_others() {
    let mut deps = DependencieManager::new();
    deps.add_dependencies(vec![("first".to_string(), vec!["a".to_string()])]);
    deps.load_file(DEPS).unwrap();
    assert_eq!(deps.deps.len(), 4);
    assert_eq!(deps.deps[0].source, "first");
    assert_eq!(deps.deps[1].source, "index.csv");
    assert_eq!(deps.deps[1].deps.len(), 3);
    assert_eq!(deps.deps[3].source, "bare");
    assert!(deps.deps[3].deps.is_empty());
    assert!(deps.deps.iter().all(|d| d.is_valid()));
}

#[test]
fn malformed_dependency_document_adds_nothing() {
    let mut deps = DependencieManager::new();
    assert_eq!(
        deps.load_file("not a document"),
        Err(AssetError::Configuration)
    );
    assert_eq!(
        deps.load_file("{\"dependencies\": {\"a\": [\"b\", 1]}}"),
        Err(AssetError::Configuration)
    );
    assert_eq!(deps.load_file("{\"redirect\": {}}"), Ok(()));
    assert_eq!(deps.load_file("[1, 2]"), Ok(()));
    assert!(deps.deps.is_empty());
}

#[test]
fn several_dependencies_of_one_source_are_joined() {
    let mut deps = DependencieManager::new();
    deps.deps.push(Dependencie {
        source: "s".to_string(),
        deps: Vec::new(),
        missing_list: vec!["x".to_string()],
    });
    deps.deps.push(Dependencie::default());
    deps.deps.push(Dependencie {
        source: "s".to_string(),
        deps: Vec::new(),
        missing_list: vec!["y".to_string(), "z".to_string()],
    });
    assert_eq!(
        deps.get_missing_dependencies("s"),
        vec!["x".to_string(), "y".to_string(), "z".to_string()]
    );
    assert!(!deps.check_if_valid("s"));
    assert!(deps.check_if_valid(""));
}

#[test]
fn sections_of_documents_are_read() {
    let pairs = read_pairs(
        "{\"redirect\": {\"a\": \"b\", \"c\": \"d\"}, \"x\": 1}",
        "redirect",
    );
    assert_eq!(
        pairs,
        Some(vec![
            ("a".to_string(), "b".to_string()),
            ("c".to_string(), "d".to_string())
        ])
    );
    assert_eq!(read_pairs("{\"x\": 1}", "redirect"), Some(Vec::new()));
    assert_eq!(
        read_pairs("{\"redirect\": {\"a\": [\"b\"]}}", "redirect"),
        None
    );
    assert_eq!(read_pairs("{", "redirect"), None);
    let lists = read_lists(
        "{\"dependencies\": {\"a\": [\"b\", \"c\"], \"d\": []}}",
        "dependencies",
    );
    assert_eq!(
        lists,
        Some(vec![
            ("a".to_string(), vec!["b".to_string(), "c".to_string()]),
            ("d".to_string(), Vec::new())
        ])
    );
    assert_eq!(
        read_lists("{\"dependencies\": {\"a\": [[]]}}", "dependencies"),
        None
    );
}

#[test]
fn texts_that_are_no_documents_are_refused() {
    for text in [
        "",
        "\u{e9}",
        "\"\\\u{e9}\"",
        "{\"a\":\u{e9}}",
        "{\"redirect\": {\"a\": \"b\"} \u{1f600}",
        "[[[[",
        "nul",
        "{\"redirect\": {\"a\": \"\u{0}\"}}",
    ] {
        assert_eq!(read_pairs(text, "redirect"), None);
        assert_eq!(read_lists(text, "dependencies"), None);
    }
    assert_eq!(
        read_pairs(
            "{\"redirect\": {\"\u{e9}t\u{e9}\": \"\u{1f600}\"}}",
            "redirect"
        ),
        Some(vec![("\u{e9}t\u{e9}".to_string(), "\u{1f600}".to_string())])
    );
}

#[test]
fn text_with_too_many_digits_in_a_row_is_refused() {
    let fraction = |zeros: usize| format!("{{\"redirect\": {{}}, \"n\": 0.{}}}", "0".repeat(zeros));
    assert!(has_short_digit_runs(&fraction(MAX_DIGIT_RUN)));
    assert_eq!(
        read_pairs(&fraction(MAX_DIGIT_RUN), "redirect"),
        Some(Vec::new())
    );
    assert!(!has_short_digit_runs(&fraction(MAX_DIGIT_RUN + 1)));
    assert_eq!(read_pairs(&fraction(MAX_DIGIT_RUN + 1), "redirect"), None);
    assert_eq!(read_pairs(&fraction(32769), "redirect"), None);
    assert_eq!(read_lists(&fraction(40000), "dependencies"), None);
    let mut deps = DependencieManager::new();
    assert_eq!(
        deps.load_file(&fraction(32769)),
        Err(AssetError::Configuration)
    );
    let mut index = Index::new("./", "").unwrap();
    assert_eq!(
        index.try_add_redirect_from_file(&fraction(32769)),
        Err(AssetError::Configuration)
    );
    // digits that are parted count run by run
    assert!(has_short_digit_runs(&"12345 ".repeat(20000)));
    assert!(has_short_digit_runs(""));
    assert!(!has_short_digit_runs(&"9".repeat(MAX_DIGIT_RUN + 1)));
    assert!(has_short_digit_runs(&"9".repeat(MAX_DIGIT_RUN)));
}
