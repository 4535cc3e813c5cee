use recipe_reader::{Recipe, Target, TargetOptions, TargetType, Use};

fn sample() -> Recipe {
    Recipe {
        ok: true,
        path: "recipe.txt".to_string(),
        target_count: 2,
        targets: vec![
            Target {
                name: "potato".to_string(),
                kind: TargetType::Executable,
                files: vec![
                    "file1.c2".to_string(),
                    "file2.c2".to_string(),
                    "file3.c2".to_string(),
                    "file4.c2".to_string(),
                    "file5.c2".to_string(),
                    "file6.c2".to_string(),
                ],
                options: TargetOptions {
                    deps: false,
                    refs: true,
                    nolibc: false,
                    generate_c: true,
                    generate_ir: false,
                    lib_use: vec![("pthread".to_string(), Use::Static), ("c2net".to_string(), Use::Dynamic)],
                    export: Vec::new(),
                    config: Vec::new(),
                    warnings: vec!["no_unused".to_string()],
                },
            },
            Target {
                name: "tomato".to_string(),
                kind: TargetType::StaticLib,
                files: vec![
                    "file1.c2".to_string(),
                    "afile1.c2".to_string(),
                    "file2.c2".to_string(),
                    "afile2.c2".to_string(),
                    "file3.c2".to_string(),
                    "afile3.c2".to_string(),
                ],
                options: TargetOptions {
                    deps: true,
                    refs: false,
                    nolibc: true,
                    generate_c: false,
                    generate_ir: true,
                    lib_use: vec![("pthread".to_string(), Use::Static), ("c2net".to_string(), Use::Dynamic)],
                    export: Vec::new(),
                    config: Vec::new(),
                    warnings: vec!["no_unused".to_string()],
                },
            },
        ],
    }
}

const SAMPLE_TEXT: &str = "# this file is generated by recipe-reader, it might be overwritten\n\
\n\
executable potato\n\
\t$generate-c\n\
\t$refs\n\
\t$warnings no_unused\n\
\t$use pthread static\n\
\t$use c2net dynamic\n\
\tfile1.c2\n\
\tfile2.c2\n\
\tfile3.c2\n\
\tfile4.c2\n\
\tfile5.c2\n\
\tfile6.c2\n\
end\n\
\n\
lib tomato static\n\
\t$generate-ir\n\
\t$nolibc\n\
\t$deps\n\
\t$warnings no_unused\n\
\t$use pthread static\n\
\t$use c2net dynamic\n\
\tfile1.c2\n\
\tafile1.c2\n\
\tfile2.c2\n\
\tafile2.c2\n\
\tfile3.c2\n\
\tafile3.c2\n\
end\n\
\n";

#[test]
fn write_test() {
    let rec = sample();
    assert_eq!(rec.write(), SAMPLE_TEXT);
}

#[test]
fn written_recipe_reads_back_unchanged() {
    let rec = sample();
    let text = rec.write();
    let mut back = Recipe::new();
    assert_eq!(back.read(&text), Ok(()));
    assert!(back.ok);
    assert_eq!(back.targets, rec.targets);
}

#[test]
fn writing_what_was_read_gives_the_same_text() {
    let text = sample().write();
    let mut back = Recipe::new();
    assert_eq!(back.read(&text), Ok(()));
    assert_eq!(back.write(), text);
}

#[test]
fn empty_recipe_writes_only_the_header() {
    assert_eq!(
        Recipe::new().write(),
        "# this file is generated by recipe-reader, it might be overwritten\n\n"
    );
}

#[test]
fn write_lists_options_in_fixed_order() {
    let mut opts = TargetOptions::new();
    opts.warnings = vec!["w1".to_string(), "w2".to_string()];
    opts.config = vec!["c1".to_string()];
    opts.export = vec!["e1".to_string(), "e2".to_string()];
    opts.refs = true;
    opts.generate_c = true;
    let rec = Recipe {
        ok: true,
        path: String::new(),
        target_count: 1,
        targets: vec![Target { name: "so".to_string(), kind: TargetType::SharedLib, files: vec![], options: opts }],
    };
    assert_eq!(
        rec.write(),
        "# this file is generated by recipe-reader, it might be overwritten\n\n\
lib so shared\n\t$generate-c\n\t$refs\n\t$export e1 e2\n\t$config c1\n\t$warnings w1 w2\nend\n\n"
    );
}

#[test]
fn round_trip_with_lists_and_libraries() {
    let mut rec = Recipe::new();
    assert_eq!(
        rec.read("lib a shared\n\t$export x y\n\t$config dbg\n\t$use z dynamic\n\tsrc/a.c2\nend\nexecutable b\n\t$nolibc\nend\n"),
        Ok(())
    );
    let text = rec.write();
    let mut back = Recipe::new();
    assert_eq!(back.read(&text), Ok(()));
    assert_eq!(back.targets, rec.targets);
    assert_eq!(back.write(), text);
}
