use std::collections::HashSet;

use jfswatch::explorers::glob_explorer::extend::ExtendError;
use jfswatch::explorers::glob_explorer::extend::ExtendedGlobPatternBuilder;
use jfswatch::explorers::glob_explorer::extend_glob_pattern;

fn expect(pattern: &str, expected: Vec<&str>) {
    let expected: HashSet<String> = expected.iter().map(|s| s.to_string()).collect();

    let built = ExtendedGlobPatternBuilder::from_pattern(pattern)
        .unwrap()
        .build();
    let actual: HashSet<String> = built.iter().cloned().collect();
    assert_eq!(actual.len(), built.len());
    assert_eq!(actual, expected);

    let extended = extend_glob_pattern(pattern).unwrap();
    let actual: HashSet<String> = extended.iter().cloned().collect();
    assert_eq!(actual.len(), extended.len());
    assert_eq!(actual, expected);
}

#[test]
fn given_base_case_when_extend_glob_pattern_then_is_itself() {
    expect("base case", vec!["base case"]);
}

#[test]
fn given_escaped_brace_when_extend_glob_pattern_then_is_itself() {
    expect("escaped \\{ is OK", vec!["escaped \\{ is OK"]);
}

#[test]
fn given_commas_outside_braces_when_extend_glob_pattern_then_is_itself() {
    expect("commas, are OK", vec!["commas, are OK"]);
}

#[test]
fn given_single_alternative_when_extend_glob_pattern_then_drops_braces() {
    expect("{no reason for expansion}", vec!["no reason for expansion"]);
}

#[test]
fn given_escaped_braces_in_group_when_extend_glob_pattern_then_keeps_them() {
    expect(
        "{no reason for \\{\\} expansion}",
        vec!["no reason for \\{\\} expansion"],
    );
}

#[test]
fn given_two_alternatives_when_extend_glob_pattern_then_gives_both() {
    expect("{a,b}", vec!["a", "b"]);
    expect("{apple,banana}", vec!["apple", "banana"]);
}

#[test]
fn given_three_alternatives_when_extend_glob_pattern_then_gives_all() {
    expect("{apple,banana,carrot}", vec!["apple", "banana", "carrot"]);
}

#[test]
fn given_prefix_when_extend_glob_pattern_then_is_kept() {
    expect("config.{yml,yaml}", vec!["config.yml", "config.yaml"]);
}

#[test]
fn given_suffix_when_extend_glob_pattern_then_is_kept() {
    expect(
        "{apple,pumpkin,strawberry} pie",
        vec!["apple pie", "pumpkin pie", "strawberry pie"],
    );
}

#[test]
fn given_two_groups_when_extend_glob_pattern_then_gives_every_pair() {
    expect("{a,b}{1,2}", vec!["a1", "a2", "b1", "b2"]);
    expect("{a,b,c}{1,2}", vec!["a1", "a2", "b1", "b2", "c1", "c2"]);
}

#[test]
fn given_three_groups_when_extend_glob_pattern_then_gives_every_triple() {
    expect(
        "{a,b}{1,2}{!,?}",
        vec!["a1!", "a2!", "b1!", "b2!", "a1?", "a2?", "b1?", "b2?"],
    );
}

#[test]
fn given_nested_group_when_extend_glob_pattern_then_expands_it_too() {
    expect("a{b,{c,d}}", vec!["ab", "ac", "ad"]);
}

#[test]
fn given_deeply_nested_groups_when_extend_glob_pattern_then_expands_them_all() {
    expect(
        "{aa{bb,cc,dd{e,f}},why even}.",
        vec!["why even.", "aabb.", "aacc.", "aadde.", "aaddf."],
    );
}

#[test]
fn given_empty_pattern_when_extend_glob_pattern_then_is_the_empty_string() {
    expect("", vec![""]);
}

#[test]
fn given_empty_alternatives_when_extend_glob_pattern_then_are_kept() {
    expect("a{,b}", vec!["a", "ab"]);
    expect("{}", vec![""]);
}

#[test]
fn given_repeated_alternatives_when_extend_glob_pattern_then_are_given_once() {
    expect("{a,a}{b,b}", vec!["ab"]);
    expect("{a,{a,b}}", vec!["a", "b"]);
}

#[test]
fn given_escaped_comma_in_group_when_extend_glob_pattern_then_does_not_split() {
    expect("{a\\,b,c}", vec!["a\\,b", "c"]);
}

#[test]
fn given_trailing_backslash_when_extend_glob_pattern_then_is_kept() {
    expect("a\\", vec!["a\\"]);
}

#[test]
fn given_group_left_open_when_extend_glob_pattern_then_takes_alternatives_as_written() {
    expect("{a,b", vec!["a", "b"]);
    expect("x{a,{b,c}", vec!["xa", "x{b,c}"]);
}

#[test]
fn given_unmatched_close_when_extend_glob_pattern_then_is_refused() {
    assert_eq!(extend_glob_pattern("}"), Err(ExtendError::UnmatchedClose));
    assert_eq!(extend_glob_pattern("{a}}"), Err(ExtendError::UnmatchedClose));
    assert_eq!(extend_glob_pattern("a}b{c}"), Err(ExtendError::UnmatchedClose));
    assert!(ExtendedGlobPatternBuilder::from_pattern("{a,b}}").is_err());
    assert!(extend_glob_pattern("\\}").is_ok());
}

#[test]
fn given_builder_when_character_is_refused_then_builder_is_as_before() {
    let mut builder = ExtendedGlobPatternBuilder::new();
    assert_eq!(builder.character('a'), Ok(()));
    assert_eq!(builder.character('}'), Err(ExtendError::UnmatchedClose));
    assert_eq!(builder.character('{'), Ok(()));
    assert_eq!(builder.character('b'), Ok(()));
    assert_eq!(builder.character(','), Ok(()));
    assert_eq!(builder.character('c'), Ok(()));
    assert_eq!(builder.character('}'), Ok(()));
    assert_eq!(builder.character('}'), Err(ExtendError::UnmatchedClose));
    let built: HashSet<String> = builder.build().into_iter().collect();
    assert_eq!(
        built,
        HashSet::from(["ab".to_string(), "ac".to_string()])
    );
}

#[test]
fn given_new_builder_when_build_then_gives_the_empty_pattern() {
    assert_eq!(
        ExtendedGlobPatternBuilder::new().build(),
        vec!["".to_string()]
    );
}
