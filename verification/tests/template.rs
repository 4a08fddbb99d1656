use jfswatch::template::substitute;
use jfswatch::text::distinct;
use jfswatch::text::join;

#[test]
fn placeholders_in_both_forms_are_replaced() {
    assert_eq!(
        substitute("$diff ${diff} $path ${path} $mtime ${mtime}", "d", "p", Some("m")),
        "d d p p m m"
    );
}

#[test]
fn a_placeholder_at_either_end_is_replaced() {
    assert_eq!(substitute("$path", "d", "p", None), "p");
    assert_eq!(substitute("${diff}", "d", "p", None), "d");
    assert_eq!(substitute("x$path", "d", "p", None), "xp");
    assert_eq!(substitute("$path$diff", "d", "p", None), "pd");
    assert_eq!(substitute("a\n$path", "d", "p", None), "a\np");
}

#[test]
fn a_placeholder_ends_with_its_name() {
    assert_eq!(substitute("$pathfinder", "d", "p", None), "pfinder");
    assert_eq!(substitute("$$path", "d", "p", None), "$p");
}

#[test]
fn what_is_no_placeholder_is_copied() {
    assert_eq!(substitute("", "d", "p", Some("m")), "");
    assert_eq!(substitute("plain text", "d", "p", Some("m")), "plain text");
    assert_eq!(substitute("$", "d", "p", Some("m")), "$");
    assert_eq!(substitute("$pat", "d", "p", Some("m")), "$pat");
    assert_eq!(substitute("${path", "d", "p", Some("m")), "${path");
    assert_eq!(substitute("${ path }", "d", "p", Some("m")), "${ path }");
    assert_eq!(substitute("$PATH $Diff", "d", "p", Some("m")), "$PATH $Diff");
    assert_eq!(substitute("{path} $ {diff}", "d", "p", Some("m")), "{path} $ {diff}");
    assert_eq!(substitute("costs 5$ \u{e9}t\u{e9}", "d", "p", Some("m")), "costs 5$ \u{e9}t\u{e9}");
}

#[test]
fn an_escaped_placeholder_loses_the_backslash_only() {
    assert_eq!(substitute("\\$path", "d", "p", Some("m")), "$path");
    assert_eq!(substitute("\\${mtime}", "d", "p", Some("m")), "${mtime}");
    assert_eq!(substitute("\\\\$diff", "d", "p", Some("m")), "\\$diff");
    assert_eq!(substitute("\\$path$path", "d", "p", Some("m")), "$pathp");
}

#[test]
fn a_backslash_before_anything_else_is_copied() {
    assert_eq!(substitute("\\n \\$ \\$pat \\", "d", "p", Some("m")), "\\n \\$ \\$pat \\");
}

#[test]
fn a_missing_time_leaves_its_placeholder_as_written() {
    assert_eq!(
        substitute("$mtime ${mtime} \\$mtime $path", "d", "p", None),
        "$mtime ${mtime} $mtime p"
    );
}

#[test]
fn values_are_not_read_again() {
    assert_eq!(substitute("$path $diff", "$path", "$diff", None), "$diff $path");
    assert_eq!(substitute("\\$path$diff", "$path", "x", None), "$path$path");
}

#[test]
fn words_are_joined_with_what_is_given() {
    assert_eq!(join(&vec![], " "), "");
    assert_eq!(join(&vec!["echo".to_string()], " "), "echo");
    assert_eq!(
        join(&vec!["echo".to_string(), "".to_string(), "a b".to_string()], " "),
        "echo  a b"
    );
    assert_eq!(
        join(&vec!["a".to_string(), "b".to_string(), "c".to_string()], ", "),
        "a, b, c"
    );
}

#[test]
fn distinct_keeps_the_first_of_each() {
    assert_eq!(
        distinct(vec![
            "b".to_string(),
            "a".to_string(),
            "b".to_string(),
            "c".to_string(),
            "a".to_string()
        ]),
        vec!["b".to_string(), "a".to_string(), "c".to_string()]
    );
    assert_eq!(distinct(vec![]), Vec::<String>::new());
}
