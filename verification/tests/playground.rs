use stemwatch::playground::{extract_function_names, BamlProject};

#[test]
fn extracts_function_names() {
    let src = "function Foo(x: int) -> string {}\nfunction Bar() -> int {}\n";
    assert_eq!(extract_function_names(src), vec!["Foo", "Bar"]);
}

#[test]
fn function_names_skip_other_lines_and_keep_order() {
    let src = "// header\n  function Alpha_1() {}\nclass X {}\n\tfunction Beta(y) {}\nfunctionGamma()\n";
    assert_eq!(extract_function_names(src), vec!["Alpha_1", "Beta"]);
}

#[test]
fn function_names_handle_crlf_and_missing_final_newline() {
    let src = "function One()\r\nfunction Two()";
    assert_eq!(extract_function_names(src), vec!["One", "Two"]);
}

#[test]
fn function_with_empty_name_is_skipped() {
    let src = "function (x)\nfunction  Spaced()\nfunction Ünïcode9()\n";
    assert_eq!(extract_function_names(src), vec!["Ünïcode9"]);
}

#[test]
fn empty_source_has_no_functions() {
    assert!(extract_function_names("").is_empty());
    assert!(extract_function_names("\n\n").is_empty());
}

#[test]
fn project_lists_functions_of_its_current_source() {
    let mut project = BamlProject::new("function A() {}\n".to_string());
    assert_eq!(project.function_names(), vec!["A"]);
    project.set_source("function B() {}\nfunction C() {}\n".to_string());
    assert_eq!(project.function_names(), vec!["B", "C"]);
}
