use spectree::specfile::{modify_spec_for_params, parse_param_options, rewrite_spec_line};

fn params(p: &[&str]) -> Vec<String> {
    p.iter().map(|s| s.to_string()).collect()
}

#[test]
fn with_and_define_are_baked_in() {
    let spec = "Name: foo\n%bcond_with foo\n%global ver 1.0\n%bcond_with bar\n";
    let out = modify_spec_for_params(spec, &params(&["--with", "foo", "--define", "ver 2.0"]));
    assert_eq!(out, "Name: foo\n%bcond_without foo\n%global ver 2.0\n%bcond_with bar");
}

#[test]
fn without_flips_bcond_without() {
    let spec = "%bcond_without docs\n%bcond_without tests\t# keep\n";
    let out = modify_spec_for_params(spec, &params(&["--without", "tests"]));
    assert_eq!(out, "%bcond_without docs\n%bcond_with tests # keep");
}

#[test]
fn trailing_text_is_kept() {
    let opts = parse_param_options(&params(&["--with", "x"]));
    assert_eq!(rewrite_spec_line("%bcond_with  x   trailing words", &opts), "%bcond_without x trailing words");
}

#[test]
fn short_define_form_and_last_definition_wins() {
    let spec = "%global rel 1\n%global other 5";
    let out = modify_spec_for_params(spec, &params(&["-D", "rel 3", "--define", "rel  4 "]));
    assert_eq!(out, "%global rel 4\n%global other 5");
}

#[test]
fn define_without_value_sets_empty() {
    let out = modify_spec_for_params("%global flag 1", &params(&["--define", "flag"]));
    assert_eq!(out, "%global flag ");
}

#[test]
fn global_without_value_is_left_alone() {
    let out = modify_spec_for_params("%global flag", &params(&["--define", "flag 2"]));
    assert_eq!(out, "%global flag");
}

#[test]
fn option_without_value_is_ignored() {
    let out = modify_spec_for_params("%bcond_with foo", &params(&["--with"]));
    assert_eq!(out, "%bcond_with foo");
}

#[test]
fn crlf_lines_are_split() {
    let out = modify_spec_for_params("a\r\n%bcond_with x\r\n", &params(&["--with", "x"]));
    assert_eq!(out, "a\n%bcond_without x");
}

#[test]
fn empty_spec_gives_empty_text() {
    assert_eq!(modify_spec_for_params("", &params(&["--with", "x"])), "");
}
