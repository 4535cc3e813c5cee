use recipe_reader::{ErrorKind, ParseError, Recipe, TargetType, Use};

fn read_text(text: &str) -> (Recipe, Result<(), ParseError>) {
    let mut rec = Recipe::new();
    let r = rec.read(text);
    (rec, r)
}

fn expect_ok(text: &str) -> Recipe {
    let (rec, r) = read_text(text);
    assert_eq!(r, Ok(()));
    assert_eq!(rec.ok, true);
    rec
}

fn expect_err(text: &str) -> ParseError {
    let (rec, r) = read_text(text);
    assert_eq!(rec.ok, false);
    match r {
        Err(e) => e,
        Ok(()) => panic!("expected an error for {:?}", text),
    }
}

#[test]
fn basic_parse() {
    let rec = expect_ok("executable test\n\tfile.c2\nend\n");
    assert_eq!(rec.ok, true);
    assert_eq!(rec.targets[0].name, "test".to_string());
    assert_eq!(rec.targets[0].kind, TargetType::Executable);
    assert_eq!(rec.targets[0].files.len(), 1);
    assert_eq!(rec.targets[0].files, vec!["file.c2".to_string()]);
    assert_eq!(rec.targets.len(), 1);
    assert_eq!(rec.target_count, 1);
}

#[test]
fn many_empty_lines() {
    let rec = expect_ok("\n\n\nexecutable test\n\n\n\tfile.c2\n\n   \n\t\nend\n\n\n\n");
    assert_eq!(rec.targets.len(), 1);
}

#[test]
fn extra_deps_token() {
    let e = expect_err("executable test\n\t$deps extra\nend\n");
    assert_eq!(e.kind, ErrorKind::UnexpectedTrailingToken);
    assert_eq!(e.line, 2);
    assert_eq!(e.token, "extra");
}

#[test]
fn extra_end_token() {
    let e = expect_err("executable test\n\tfile.c2\nend extra\n");
    assert_eq!(e.kind, ErrorKind::UnexpectedTrailingToken);
    assert_eq!(e.line, 3);
}

#[test]
fn extra_refs_token() {
    let e = expect_err("executable test\n\t$refs extra\nend\n");
    assert_eq!(e.kind, ErrorKind::UnexpectedTrailingToken);
}

#[test]
fn extra_generate_ir_token() {
    let e = expect_err("executable test\n\t$generate-ir extra\nend\n");
    assert_eq!(e.kind, ErrorKind::UnexpectedTrailingToken);
}

#[test]
fn extra_generate_c_token() {
    let e = expect_err("executable test\n\t$generate-c extra\nend\n");
    assert_eq!(e.kind, ErrorKind::UnexpectedTrailingToken);
}

#[test]
fn executable_start_extra_token() {
    let e = expect_err("executable test extra\n\tfile.c2\nend\n");
    assert_eq!(e.kind, ErrorKind::UnexpectedTrailingToken);
    assert_eq!(e.line, 1);
}

#[test]
fn library_start_extra_token() {
    let e = expect_err("lib test static extra\n\tfile.c2\nend\n");
    assert_eq!(e.kind, ErrorKind::UnexpectedTrailingToken);
    assert_eq!(e.token, "extra");
}

#[test]
fn library_unknown_type() {
    let e = expect_err("lib test potato\n\tfile.c2\nend\n");
    assert_eq!(e.kind, ErrorKind::UnknownLibraryKind);
    assert_eq!(e.token, "potato");
}

#[test]
fn extra_nolibc_token() {
    let e = expect_err("executable test\n\t$nolibc extra\nend\n");
    assert_eq!(e.kind, ErrorKind::UnexpectedTrailingToken);
}

#[test]
fn use_option_missing_args() {
    let e = expect_err("executable test\n\t$use pthread\nend\n");
    assert_eq!(e.kind, ErrorKind::MissingUseArguments);
    assert_eq!(e.token, "pthread");
    assert_eq!(e.line, 2);
}

#[test]
fn missing_target_name() {
    let e = expect_err("executable\n\tfile.c2\nend\n");
    assert_eq!(e.kind, ErrorKind::MissingIdentifier);
    assert_eq!(e.line, 1);
}

#[test]
fn config_more_than_one() {
    let rec = expect_ok("executable test\n\t$config a b\n\t$config c\n\tfile.c2\nend\n");
    assert_eq!(rec.targets[0].options.config, vec!["a".to_string(), "b".to_string(), "c".to_string()]);
}

#[test]
fn export_more_than_one() {
    let rec = expect_ok("lib test shared\n\t$export one two\n\t$export three\n\tfile.c2\nend\n");
    assert_eq!(rec.targets[0].options.export, vec!["one".to_string(), "two".to_string(), "three".to_string()]);
    assert_eq!(rec.targets[0].kind, TargetType::SharedLib);
}

#[test]
fn unknown_option() {
    let e = expect_err("executable test\n\t$potato\nend\n");
    assert_eq!(e.kind, ErrorKind::UnknownOptionKeyword);
    assert_eq!(e.token, "$potato");
}

#[test]
fn duplicate_file() {
    let e = expect_err("executable test\n\tfile.c2\n\tfile.c2\nend\n");
    assert_eq!(e.kind, ErrorKind::DuplicateFileEntry);
    assert_eq!(e.line, 3);
    assert_eq!(e.token, "file.c2");
}

#[test]
fn duplicate_use() {
    let e = expect_err("executable test\n\t$use pthread static\n\t$use pthread static\nend\n");
    assert_eq!(e.kind, ErrorKind::DuplicateLibraryUse);
    assert_eq!(e.line, 3);
}

#[test]
fn only_comments_and_blank_lines() {
    let rec = expect_ok("# one\n\n#two\n   \n\t\n# three");
    assert_eq!(rec.targets.len(), 0);
    assert_eq!(rec.target_count, 0);
}

#[test]
fn empty_text_reads_as_no_targets() {
    let rec = expect_ok("");
    assert_eq!(rec.targets.len(), 0);
}

#[test]
fn single_executable_scenario() {
    let rec = expect_ok("executable test\n\tfile.c2\nend\n");
    assert_eq!(rec.targets.len(), 1);
    assert_eq!(rec.targets[0].name, "test");
    assert_eq!(rec.targets[0].kind, TargetType::Executable);
    assert_eq!(rec.targets[0].files, vec!["file.c2".to_string()]);
}

#[test]
fn duplicate_use_reports_second_line() {
    let e = expect_err("executable t\n\t$use pthread static\n\tmain.c2\n\n\t$use pthread static\nend\n");
    assert_eq!(e, ParseError { line: 5, kind: ErrorKind::DuplicateLibraryUse, token: "pthread".to_string() });
}

#[test]
fn same_library_with_other_linkage_is_accepted() {
    let rec = expect_ok("executable t\n\t$use pthread static\n\t$use pthread dynamic\nend\n");
    assert_eq!(
        rec.targets[0].options.lib_use,
        vec![("pthread".to_string(), Use::Static), ("pthread".to_string(), Use::Dynamic)]
    );
}

#[test]
fn bare_duplicate_file_line() {
    let e = expect_err("executable t\n\ta.c2\n\tb.c2\n\ta.c2\nend\n");
    assert_eq!(e.kind, ErrorKind::DuplicateFileEntry);
    assert_eq!(e.line, 4);
}

#[test]
fn declaration_with_extra_token_fails_on_first_line() {
    let e = expect_err("executable foo bar\nend\n");
    assert_eq!(e, ParseError { line: 1, kind: ErrorKind::UnexpectedTrailingToken, token: "bar".to_string() });
}

#[test]
fn repeated_flag_lines_keep_flags_on() {
    let rec = expect_ok(
        "executable t\n\t$refs\n\t$refs\n\t$deps\n\t$deps\n\t$nolibc\n\t$nolibc\n\t$generate-c\n\t$generate-c\n\t$generate-ir\n\t$generate-ir\nend\n",
    );
    let o = &rec.targets[0].options;
    assert!(o.refs && o.deps && o.nolibc && o.generate_c && o.generate_ir);
}

#[test]
fn flags_default_off() {
    let rec = expect_ok("executable t\n\t$deps\nend\n");
    let o = &rec.targets[0].options;
    assert!(o.deps);
    assert!(!o.refs && !o.nolibc && !o.generate_c && !o.generate_ir);
}

#[test]
fn unknown_declaration_keyword() {
    let e = expect_err("program x\nend\n");
    assert_eq!(e, ParseError { line: 1, kind: ErrorKind::UnknownDeclarationKeyword, token: "program".to_string() });
}

#[test]
fn keywords_are_case_sensitive() {
    let e = expect_err("Executable x\nend\n");
    assert_eq!(e.kind, ErrorKind::UnknownDeclarationKeyword);
}

#[test]
fn library_without_name() {
    let e = expect_err("lib\n");
    assert_eq!(e, ParseError { line: 1, kind: ErrorKind::MissingIdentifier, token: String::new() });
}

#[test]
fn library_without_kind() {
    let e = expect_err("\n# a library\nlib foo\nend\n");
    assert_eq!(e, ParseError { line: 3, kind: ErrorKind::MissingLibraryKind, token: String::new() });
}

#[test]
fn static_library_declaration() {
    let rec = expect_ok("lib foo static\n\tfoo.c2\nend\n");
    assert_eq!(rec.targets[0].kind, TargetType::StaticLib);
    assert_eq!(rec.targets[0].name, "foo");
}

#[test]
fn use_with_unknown_linkage() {
    let e = expect_err("executable t\n\t$use m potato\nend\n");
    assert_eq!(e, ParseError { line: 2, kind: ErrorKind::UnknownLibraryKind, token: "potato".to_string() });
}

#[test]
fn use_without_arguments() {
    let e = expect_err("executable t\n\t$use\nend\n");
    assert_eq!(e, ParseError { line: 2, kind: ErrorKind::MissingUseArguments, token: String::new() });
}

#[test]
fn use_ignores_tokens_after_linkage() {
    let rec = expect_ok("executable t\n\t$use m dynamic later\nend\n");
    assert_eq!(rec.targets[0].options.lib_use, vec![("m".to_string(), Use::Dynamic)]);
}

#[test]
fn file_line_takes_its_first_token() {
    let rec = expect_ok("executable t\n\ta.c2 b.c2\nend\n");
    assert_eq!(rec.targets[0].files, vec!["a.c2".to_string()]);
}

#[test]
fn underscore_generate_spelling_is_unknown() {
    let e = expect_err("executable t\n\t$generate_c\nend\n");
    assert_eq!(e.kind, ErrorKind::UnknownOptionKeyword);
    assert_eq!(e.token, "$generate_c");
}

#[test]
fn warnings_lines_accumulate() {
    let rec = expect_ok("executable t\n\t$warnings no-unused\n\t$warnings no-unused all\nend\n");
    assert_eq!(
        rec.targets[0].options.warnings,
        vec!["no-unused".to_string(), "no-unused".to_string(), "all".to_string()]
    );
}

#[test]
fn unterminated_target_is_dropped_without_error() {
    let rec = expect_ok("executable a\n\ta.c2\nend\nexecutable b\n\tb.c2\n");
    assert_eq!(rec.targets.len(), 1);
    assert_eq!(rec.targets[0].name, "a");
}

#[test]
fn targets_before_an_error_are_kept() {
    let (rec, r) = read_text("executable a\nend\nexecutable b c\nend\n");
    assert_eq!(r.unwrap_err().line, 3);
    assert_eq!(rec.ok, false);
    assert_eq!(rec.targets.len(), 1);
    assert_eq!(rec.target_count, 1);
}

#[test]
fn comment_must_start_the_line() {
    let e = expect_err("  # indented\nexecutable t\nend\n");
    assert_eq!(e, ParseError { line: 1, kind: ErrorKind::UnknownDeclarationKeyword, token: "#".to_string() });
}

#[test]
fn comment_inside_target() {
    let rec = expect_ok("executable t\n# the sources\n\ta.c2\nend\n");
    assert_eq!(rec.targets[0].files, vec!["a.c2".to_string()]);
}

#[test]
fn carriage_returns_and_unicode_spaces_separate_tokens() {
    let rec = expect_ok("executable\u{a0}t\r\n\ta.c2\u{3000}\r\n\t$export x\u{2003}y\r\nend\r\n");
    assert_eq!(rec.targets[0].name, "t");
    assert_eq!(rec.targets[0].files, vec!["a.c2".to_string()]);
    assert_eq!(rec.targets[0].options.export, vec!["x".to_string(), "y".to_string()]);
}

#[test]
fn read_appends_to_earlier_targets() {
    let mut rec = Recipe::new();
    assert_eq!(rec.read("executable a\nend\n"), Ok(()));
    assert_eq!(rec.read("lib b shared\nend\nlib c static\nend\n"), Ok(()));
    assert_eq!(rec.targets.len(), 3);
    assert_eq!(rec.target_count, 3);
    assert_eq!(rec.targets[2].name, "c");
}

#[test]
fn non_ascii_names_are_kept() {
    let rec = expect_ok("executable prüfung\n\tdatei-ä.c2\nend\n");
    assert_eq!(rec.targets[0].name, "prüfung");
    assert_eq!(rec.targets[0].files, vec!["datei-ä.c2".to_string()]);
}
