use xhf::patterns::{ancestors, is_manageable, PatternSet};

fn values(values: &[&str]) -> Vec<String> {
    values.iter().map(|value| (*value).to_owned()).collect()
}

fn patterns(texts: &[&str]) -> PatternSet {
    PatternSet::compile(&values(texts)).unwrap()
}

fn refusal(text: &str) -> String {
    PatternSet::compile(&values(&[text])).unwrap_err().text()
}

#[test]
fn no_patterns_selects_everything() {
    assert!(patterns(&[]).selects("weights/model.safetensors"));
}

#[test]
fn positive_patterns_form_a_union() {
    let set = patterns(&["README.md", "configs/*.json"]);
    assert!(set.selects("README.md"));
    assert!(set.selects("configs/model.json"));
    assert!(!set.selects("weights/model.safetensors"));
}

#[test]
fn negative_patterns_subtract_regardless_of_order() {
    let first = patterns(&["!tests/**", "**/*.json"]);
    let second = patterns(&["**/*.json", "!tests/**"]);
    assert!(first.selects("configs/model.json"));
    assert!(second.selects("configs/model.json"));
    assert!(!first.selects("tests/model.json"));
    assert!(!second.selects("tests/model.json"));
}

#[test]
fn only_negative_patterns_start_from_everything() {
    let set = patterns(&["!**/*.safetensors"]);
    assert!(set.selects("README.md"));
    assert!(!set.selects("weights/model.safetensors"));
}

#[test]
fn exact_directory_selects_descendants() {
    let set = patterns(&["tokenizer/"]);
    assert!(set.selects("tokenizer/config.json"));
    assert!(!set.selects("tokenizer.json"));
}

#[test]
fn globbed_directory_selects_descendants() {
    let set = patterns(&["models/*"]);
    assert!(set.selects("models/v1/config.json"));
}

#[test]
fn rejects_parent_components() {
    let result = PatternSet::compile(&["../secret".to_owned()].to_vec());
    assert!(result.is_err());
}

#[test]
fn stars_do_not_cross_directories() {
    let set = patterns(&["*.json"]);
    assert!(set.selects("model.json"));
    assert!(!set.selects("configs/model.json"));
}

#[test]
fn explains_refused_patterns() {
    assert_eq!(refusal(""), "download patterns cannot be empty");
    assert_eq!(refusal("!"), "download patterns cannot be empty");
    assert_eq!(refusal("./"), "download patterns cannot be empty");
    assert_eq!(refusal("/etc"), "pattern \"/etc\" must be repository-relative");
    assert_eq!(
        refusal("a/../b"),
        "pattern \"a/../b\" contains an unsafe path component"
    );
    assert!(refusal("a[").starts_with("invalid glob pattern \"a[\": "));
}

#[test]
fn strips_leading_dot_and_trailing_slashes() {
    let set = patterns(&["./a//"]);
    assert!(set.selects("a"));
    assert!(set.selects("a/b"));
    assert!(!set.selects("ab"));
}

#[test]
fn many_brace_groups_compile() {
    let groups = "{a,b}".repeat(65);
    assert!(is_manageable(&groups));
    assert!(patterns(&[&groups]).selects(&"a".repeat(65)));
    assert!(!patterns(&[&groups]).selects(&"a".repeat(64)));
    let nested = |open: &str, leaf: &str, count: usize| {
        format!("{}{leaf}{}", open.repeat(count), "}".repeat(count))
    };
    for (open, leaf, count, path) in [
        ("{", "a", 249, "a"),
        ("{b,", "a", 124, "a"),
        ("{b,", "a", 124, "b"),
        ("{bb,", "a", 83, "bb"),
        ("{*x,", "**", 81, "anything/below"),
        ("{\u{e9},", "a", 83, "\u{e9}"),
        ("{?,", "", 124, "?"),
    ] {
        let glob = nested(open, leaf, count);
        assert!(is_manageable(&glob));
        assert!(patterns(&[&glob]).selects(path));
        assert!(!is_manageable(&nested(open, leaf, count + 1)));
    }
}

#[test]
fn malformed_globs_are_refused_however_deep() {
    for glob in [
        "{".repeat(82),
        "{".repeat(200_000),
        format!("{}a", "{[]}]".repeat(82)),
        format!("{}a", "{[!]}]".repeat(82)),
        format!("{}{}", "{".repeat(1_000), "}".repeat(1_001)),
        format!("{}[", "?".repeat(130_001)),
        format!("{}}}", "*".repeat(85_300)),
    ] {
        assert!(is_manageable(&glob));
        assert!(PatternSet::compile(&values(&[&glob])).is_err());
    }
    let deep = format!("{}{}", "{".repeat(1_001), "}".repeat(1_002));
    assert!(!is_manageable(&deep));
}

#[test]
fn long_globs_compile() {
    for (glob, path) in [("*a".repeat(51_000), "a"), ("*".repeat(85_200), "a/")] {
        assert!(is_manageable(&glob));
        assert_eq!(patterns(&[&glob]).selects(path), path == "a/");
    }
    for glob in ["?".repeat(130_000), format!("*{}", "\u{e9}".repeat(64_900))] {
        assert!(is_manageable(&glob));
        assert!(!patterns(&[&glob]).selects("a"));
    }
    let recursive = format!("{{{}a}}", "**,".repeat(32_000));
    assert!(is_manageable(&recursive));
    assert!(patterns(&[&recursive]).selects("a/b"));
    let branches = format!("{{{}c}}", "\u{10000}b,*x,".repeat(8_000));
    assert!(patterns(&[&branches]).selects("\u{10000}b"));
    assert!(!patterns(&[&branches]).selects("a"));
}

#[test]
fn braces_in_classes_are_no_groups() {
    let classes = "[}{]".repeat(100);
    assert!(is_manageable(&classes));
    assert!(patterns(&[&classes]).selects(&"{".repeat(100)));
    for open in ["{[]}]", "{[!]}]", "{[^]}]"] {
        let hidden = |count: usize| format!("{}a{}", open.repeat(count), "}".repeat(count));
        assert!(is_manageable(&hidden(123)));
        let path = if open == "{[]}]" { "}" } else { "x" };
        assert!(patterns(&[&hidden(123)]).selects(&format!("{}a", path.repeat(123))));
        assert!(!is_manageable(&hidden(124)));
    }
}

#[test]
fn ancestors_are_what_stands_before_slashes() {
    assert!(ancestors("a").is_empty());
    assert_eq!(ancestors("a/b/c"), ["a", "a/b"]);
    assert_eq!(ancestors("/a//b/"), ["", "/a", "/a/", "/a//b"]);
}

#[test]
fn sets_select_as_their_patterns_do() {
    let all = ["a/*", "c", "!a/x", "!d"];
    let set = patterns(&all);
    for path in ["a/b", "a/x", "a/x/y", "c", "c/d", "d", "e"] {
        let positive = patterns(&["a/*"]).selects(path) || patterns(&["c"]).selects(path);
        let negative = patterns(&["a/x"]).selects(path) || patterns(&["d"]).selects(path);
        assert_eq!(set.selects(path), positive && !negative);
    }
}

#[test]
fn large_globs_are_not_manageable() {
    assert!(is_manageable("**/*.json"));
    assert!(is_manageable(&"a".repeat(100_000)));
    assert!(!is_manageable(&"?".repeat(130_001)));
    assert!(!is_manageable(&"*".repeat(85_300)));
    assert!(is_manageable(&format!("\\{}", "{}".repeat(82))));
    assert!(!is_manageable(&format!("\\{}{}", "{".repeat(250), "}".repeat(250))));
}

#[test]
fn paths_are_matched_literally() {
    let set = patterns(&["a\\b"]);
    assert!(set.selects("a\\b"));
    assert!(set.selects("a\\b/c"));
    assert!(!set.selects("a/b"));
    assert!(patterns(&["*.c", "a\\b"]).selects("a\\b"));
    assert!(!patterns(&["*", "!a\\b"]).selects("a\\b"));
    assert!(!patterns(&["x/y"]).selects("a\\b"));
}

#[test]
fn repeated_patterns_change_nothing() {
    let once = patterns(&["a/*", "!a/b"]);
    let twice = patterns(&["!a/b", "a/*", "a/*"]);
    for path in ["a/b", "a/c", "a/b/c", "d"] {
        assert_eq!(once.selects(path), twice.selects(path));
    }
    assert!(once.selects("a/c"));
    assert!(!once.selects("a/b/c"));
}
