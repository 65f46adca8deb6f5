use oakum::shader::{
    find, find_include_directives, strip_pragma_once, ShaderError, ShaderFile, ShaderInclude,
    ShaderProcessor,
};

#[test]
fn pragma_once_is_taken_off_the_head() {
    let (rest, found) = strip_pragma_once(b"#pragma once\nfn main() {}".to_vec());
    assert!(found);
    assert_eq!(rest, b"\nfn main() {}");
    let (rest, found) = strip_pragma_once(b" #pragma once".to_vec());
    assert!(!found);
    assert_eq!(rest, b" #pragma once");
    let (rest, found) = strip_pragma_once(b"#pragma onc".to_vec());
    assert!(!found);
    assert_eq!(rest, b"#pragma onc");
    let (rest, found) = strip_pragma_once(b"#pragma once".to_vec());
    assert!(found);
    assert!(rest.is_empty());
}

#[test]
fn find_gives_the_first_place() {
    assert_eq!(find(b"abcabc", b"bc", 0), Some(1));
    assert_eq!(find(b"abcabc", b"bc", 1), Some(1));
    assert_eq!(find(b"abcabc", b"bc", 2), Some(4));
    assert_eq!(find(b"abcabc", b"bc", 5), None);
    assert_eq!(find(b"abcabc", b"x", 0), None);
    assert_eq!(find(b"ab", b"abc", 0), None);
    assert_eq!(find(b"ab", b"ab", 7), None);
}

#[test]
fn include_directives_in_order() {
    let source = b"#include \"a.wgsl\"\nlet x = 1;\n#include \"dir/b.wgsl\"\n";
    let found = find_include_directives(source).unwrap();
    assert_eq!(
        found,
        vec![
            ShaderInclude { path: b"a.wgsl".to_vec(), start: 0, end: 17 },
            ShaderInclude { path: b"dir/b.wgsl".to_vec(), start: 29, end: 50 },
        ]
    );
    assert_eq!(&source[0..17], b"#include \"a.wgsl\"");
    assert_eq!(&source[29..50], b"#include \"dir/b.wgsl\"");
    assert_eq!(find_include_directives(b"no directives here"), Ok(vec![]));
    assert_eq!(find_include_directives(b""), Ok(vec![]));
}

#[test]
fn an_include_without_a_path_is_an_error() {
    assert_eq!(
        find_include_directives(b"#include a.wgsl"),
        Err(ShaderError::ExpectedPathAfterIncludeDirective)
    );
    assert_eq!(
        find_include_directives(b"#include \"a.wgsl"),
        Err(ShaderError::ExpectedPathAfterIncludeDirective)
    );
    assert_eq!(
        find_include_directives(b"#include \"a\" and then #include"),
        Err(ShaderError::ExpectedPathAfterIncludeDirective)
    );
}

#[test]
fn the_end_of_a_directive_counts_one_byte_before_the_quote() {
    // Two bytes before the quote: the end falls one byte short of the closing quote.
    let found = find_include_directives(b"#include  \"a\" rest").unwrap();
    assert_eq!(found, vec![ShaderInclude { path: b"a".to_vec(), start: 0, end: 12 }]);
    // None: the end falls one byte behind it, which has to lie in the source.
    let found = find_include_directives(b"#include\"a\" rest").unwrap();
    assert_eq!(found, vec![ShaderInclude { path: b"a".to_vec(), start: 0, end: 12 }]);
    assert_eq!(
        find_include_directives(b"#include\"a\""),
        Err(ShaderError::ExpectedPathAfterIncludeDirective)
    );
}

fn opened(path: &str, source: &str) -> ShaderFile {
    ShaderFile::open(path.as_bytes().to_vec(), source.as_bytes().to_vec()).unwrap()
}

fn processed(processor: &ShaderProcessor, path: &str) -> Result<String, ShaderError> {
    processor
        .process_shader(path.as_bytes())
        .map(|text| String::from_utf8(text).unwrap())
}

#[test]
fn open_reads_the_head_and_the_directives() {
    let file = opened("a.wgsl", "#pragma once\n#include \"b.wgsl\"\nfn a() {}");
    assert!(file.pragma_once);
    assert_eq!(file.path, b"a.wgsl");
    assert_eq!(file.source, b"\n#include \"b.wgsl\"\nfn a() {}");
    assert_eq!(
        file.includes,
        vec![ShaderInclude { path: b"b.wgsl".to_vec(), start: 1, end: 18 }]
    );
    assert_eq!(
        ShaderFile::open(b"a".to_vec(), b"#include".to_vec()).err(),
        Some(ShaderError::ExpectedPathAfterIncludeDirective)
    );
}

#[test]
fn includes_are_replaced_by_their_files() {
    let mut processor = ShaderProcessor::new();
    processor.open_shader(opened("main", "#include \"a\"\nmain\n#include \"b\"\n"));
    assert!(processor.contains_shader(b"main"));
    assert!(!processor.contains_shader(b"a"));
    assert!(processor.get_shader(b"a").is_none());
    assert_eq!(processor.get_shader(b"main").unwrap().includes.len(), 2);
    // The last directive is resolved first: its file is asked for first.
    assert_eq!(processed(&processor, "main"), Err(ShaderError::FileNotFound(b"b".to_vec())));
    processor.open_shader(opened("b", "text of b"));
    assert_eq!(processed(&processor, "main"), Err(ShaderError::FileNotFound(b"a".to_vec())));
    processor.open_shader(opened("a", "text of a, with #include \"b\" inside"));
    assert_eq!(
        processed(&processor, "main").unwrap(),
        "text of a, with text of b inside\nmain\ntext of b\n"
    );
    assert_eq!(processed(&processor, "other"), Err(ShaderError::FileNotFound(b"other".to_vec())));
    // A file is held once under its path.
    processor.open_shader(opened("b", "another text"));
    assert_eq!(processor.files.len(), 3);
    assert_eq!(processor.get_shader(b"b").unwrap().source, b"text of b");
}

#[test]
fn a_file_marked_once_is_included_once() {
    let mut processor = ShaderProcessor::new();
    processor.open_shader(opened("main", "#include \"lib\"|#include \"mid\"|#include \"lib\""));
    processor.open_shader(opened("mid", "mid(#include \"lib\")"));
    processor.open_shader(opened("lib", "#pragma onceLIB"));
    // From the last directive to the first: the last meets the file first.
    assert_eq!(processed(&processor, "main").unwrap(), "|mid()|LIB");
    let mut plain = ShaderProcessor::new();
    plain.open_shader(opened("main", "#include \"lib\"|#include \"lib\""));
    plain.open_shader(opened("lib", "LIB"));
    assert_eq!(processed(&plain, "main").unwrap(), "LIB|LIB");
    // A file marked once that includes itself falls away.
    let mut own = ShaderProcessor::new();
    own.open_shader(opened("main", "#pragma oncea #include \"main\" b"));
    assert_eq!(processed(&own, "main").unwrap(), "a  b");
}

#[test]
fn files_that_include_each_other_without_end_are_refused() {
    let mut processor = ShaderProcessor::new();
    processor.open_shader(opened("a", "#include \"b\""));
    processor.open_shader(opened("b", "#include \"a\""));
    match processed(&processor, "a") {
        Err(ShaderError::IncludeCycle(chain)) => {
            // Two files: the chain is longer than any that ends, and goes round and round.
            assert_eq!(chain.len(), 2 * 3 + 3);
            for (level, path) in chain.iter().enumerate() {
                assert_eq!(path.as_slice(), if level % 2 == 0 { b"a" } else { b"b" });
            }
        }
        other => panic!("expected a cycle, found {:?}", other),
    }
}

#[test]
fn a_long_chain_without_a_cycle_is_put_together() {
    let mut processor = ShaderProcessor::new();
    for level in 0..200 {
        let source = format!("<{}#include \"f{}\">", level, level + 1);
        processor.open_shader(opened(&format!("f{}", level), &source));
    }
    processor.open_shader(opened("f200", "end"));
    let text = processed(&processor, "f0").unwrap();
    assert!(text.starts_with("<0<1<2<3"));
    assert!(text.contains("<199end>"));
    assert!(text.ends_with(">>>>"));
    assert_eq!(text.matches('<').count(), 200);
}

#[test]
fn a_file_may_come_many_times_on_a_chain_that_ends() {
    // Every file marked once includes the root, and the root includes them all: the root
    // is put together inside itself once for each of them.
    let mut processor = ShaderProcessor::new();
    processor.open_shader(opened(
        "root",
        "r(#include \"y1\" #include \"y2\" #include \"y3\")",
    ));
    for name in ["y1", "y2", "y3"] {
        let source = format!("#pragma once{}[#include \"root\"]", name);
        processor.open_shader(opened(name, &source));
    }
    let text = processed(&processor, "root").unwrap();
    assert_eq!(text, "r(  y3[r( y2[r(y1[r(  )]  )] )])");
}

#[test]
fn the_parent_of_a_file_is_its_directory() {
    assert_eq!(opened("shaders/lib/main.wgsl", "").parent(), Ok(b"shaders/lib".to_vec()));
    assert_eq!(opened("main.wgsl", "").parent(), Ok(b"".to_vec()));
    assert_eq!(opened("/main.wgsl", "").parent(), Ok(b"/".to_vec()));
}

#[test]
fn a_path_without_a_directory_has_no_parent() {
    assert_eq!(opened("", "").parent(), Err(ShaderError::FileNotFound(b"".to_vec())));
    assert_eq!(opened("/", "").parent(), Err(ShaderError::FileNotFound(b"/".to_vec())));
}

#[test]
fn parent_from_takes_the_directory_or_names_the_file() {
    let file = opened("a/b.wgsl", "");
    assert_eq!(file.parent_from(Some(b"elsewhere".to_vec())), Ok(b"elsewhere".to_vec()));
    assert_eq!(file.parent_from(None), Err(ShaderError::FileNotFound(b"a/b.wgsl".to_vec())));
}

#[test]
fn directives_are_resolved_from_the_directory_of_the_file() {
    let source = "#include \"common.wgsl\"\nfn main() {}\n#include \"../ray.wgsl\"\n#include \"/abs/x.wgsl\"\n";
    let file = opened("shaders/main.wgsl", source);
    let resolved = file.clone().resolved().unwrap();
    assert_eq!(resolved.path, file.path);
    assert_eq!(resolved.source, file.source);
    assert_eq!(resolved.pragma_once, file.pragma_once);
    assert_eq!(resolved.includes.len(), 3);
    for (after, before) in resolved.includes.iter().zip(file.includes.iter()) {
        assert_eq!((after.start, after.end), (before.start, before.end));
    }
    assert_eq!(resolved.includes[0].path, b"shaders/common.wgsl".to_vec());
    assert_eq!(resolved.includes[1].path, b"shaders/../ray.wgsl".to_vec());
    assert_eq!(resolved.includes[2].path, b"/abs/x.wgsl".to_vec());
}

#[test]
fn a_file_without_directives_needs_no_directory() {
    let file = opened("", "fn main() {}\n");
    let resolved = file.clone().resolved().unwrap();
    assert_eq!(resolved.source, file.source);
    assert!(resolved.includes.is_empty());
    let file = opened("", "#include \"a.wgsl\"\n");
    assert_eq!(file.resolved().err(), Some(ShaderError::FileNotFound(b"".to_vec())));
}

#[test]
fn a_directive_keeps_its_place_under_another_path() {
    let file = opened("a.wgsl", "#include \"b.wgsl\"\n");
    let moved = file.includes[0].with_path(b"c/b.wgsl".to_vec());
    assert_eq!(moved.path, b"c/b.wgsl".to_vec());
    assert_eq!((moved.start, moved.end), (file.includes[0].start, file.includes[0].end));
}
