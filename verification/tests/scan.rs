use include_pruner::fileio::{
    add_includes, classify_line, parse_includes, parse_includes_file, remove_includes, scan_lines,
    IncludeStatement, Line, LineKind,
};

const SOURCE: &str =
    "#include \"A.hpp\"\n#include \"B.hpp\"\n#include <vector>\n\nint main() {}\n";

const HEADER: &str = "#ifndef X\n#define X\n#include \"a.h\"\n#if FOO\n#include \"b.h\"\n#endif\n#include \"c.h\"\n#endif\n";

#[test]
fn parse_includes_of_a_source_file() {
    assert_eq!(parse_includes(SOURCE, false), vec!["A.hpp", "B.hpp"]);
}

#[test]
fn parse_includes_of_a_guarded_header_skips_blocks() {
    assert_eq!(parse_includes(HEADER, true), vec!["a.h", "c.h"]);
}

#[test]
fn parse_includes_reads_a_guard_as_a_block_in_a_source_file() {
    // Without the header's start one level up, everything stands inside a block.
    assert_eq!(parse_includes(HEADER, false), Vec::<String>::new());
}

#[test]
fn parse_includes_of_a_pragma_once_header() {
    let text = "#pragma once\n  #  include \"x/y-z.h\"\n#include \"x/y-z.h\"\n#include <s>";
    assert_eq!(parse_includes(text, true), vec!["x/y-z.h"]);
}

#[test]
fn parse_includes_of_an_empty_text() {
    assert_eq!(parse_includes("", false), Vec::<String>::new());
    assert_eq!(parse_includes_file("", false, true), (0, vec![]));
}

#[test]
fn insertion_offset_of_a_source_file_is_its_second_directive() {
    let (offset, files) = parse_includes_file(SOURCE, false, false);
    assert_eq!(offset, 17);
    assert_eq!(files, vec!["A.hpp", "B.hpp", "vector"]);
}

#[test]
fn insertion_offset_of_a_header_is_its_first_directive() {
    let (offset, files) = parse_includes_file(HEADER, false, true);
    assert_eq!(offset, 20);
    assert_eq!(files, vec!["a.h", "c.h"]);
}

#[test]
fn insertion_offset_is_zero_without_a_second_directive() {
    assert_eq!(
        parse_includes_file("// c\n#include \"A.hpp\"\nint x;", false, false),
        (0, vec!["A.hpp".to_string()])
    );
}

#[test]
fn insertion_offset_counts_bytes() {
    let text = "#pragma once\n// äöü\n#include \"A.hpp\"\n";
    assert_eq!(parse_includes_file(text, false, true).0, 23);
    let text = "#include \"own.hpp\"\n// äöü\n#include \"A.hpp\"\n";
    assert_eq!(parse_includes_file(text, false, false).0, 29);
}

#[test]
fn classify_line_tells_the_directives_apart() {
    assert!(matches!(classify_line("#if X", false), LineKind::Open));
    assert!(matches!(classify_line(" # ifdef X", false), LineKind::Open));
    assert!(matches!(classify_line("#pragma  once", false), LineKind::Open));
    assert!(matches!(classify_line("\t#endif // X", false), LineKind::Close));
    assert!(matches!(classify_line("#include <a.h>", true), LineKind::Other));
    assert!(matches!(classify_line("int x;", false), LineKind::Other));
    assert!(matches!(classify_line("x #include \"a.h\"", false), LineKind::Other));
    match classify_line("#include <a.h>", false) {
        LineKind::Directive(path) => assert_eq!(path, "a.h"),
        other => panic!("{:?}", other),
    }
    match classify_line("#include \"b/c.hpp\" // keep", true) {
        LineKind::Directive(path) => assert_eq!(path, "b/c.hpp"),
        other => panic!("{:?}", other),
    }
}

#[test]
fn scan_lines_follows_the_depth() {
    let lines = vec![
        Line { kind: LineKind::Directive("first".to_string()), start: 0 },
        Line { kind: LineKind::Open, start: 10 },
        Line { kind: LineKind::Directive("inner".to_string()), start: 20 },
        Line { kind: LineKind::Close, start: 30 },
        Line { kind: LineKind::Other, start: 40 },
        Line { kind: LineKind::Directive("second".to_string()), start: 50 },
        Line { kind: LineKind::Directive("first".to_string()), start: 60 },
    ];
    assert_eq!(
        scan_lines(&lines, false),
        (50, vec!["first".to_string(), "second".to_string()])
    );
    assert_eq!(scan_lines(&lines, true), (20, vec!["inner".to_string()]));
}

#[test]
fn add_includes_writes_in_front_of_the_second_directive() {
    let added = add_includes(
        SOURCE,
        &vec![
            IncludeStatement::Local("C.hpp".to_string()),
            IncludeStatement::Global("map".to_string()),
            IncludeStatement::Local("A.hpp".to_string()),
            IncludeStatement::Global("vector".to_string()),
        ],
        false,
    );
    assert_eq!(
        added,
        "#include \"A.hpp\"\n#include \"C.hpp\"\n#include <map>\n#include \"B.hpp\"\n#include <vector>\n\nint main() {}\n"
    );
}

#[test]
fn add_includes_writes_at_the_start_without_a_directive() {
    let added = add_includes(
        "int x;\n",
        &vec![IncludeStatement::Local("C.hpp".to_string())],
        true,
    );
    assert_eq!(added, "#include \"C.hpp\"\nint x;\n");
}

#[test]
fn add_includes_into_a_guarded_header() {
    let added = add_includes(
        HEADER,
        &vec![IncludeStatement::Global("d.h".to_string())],
        true,
    );
    assert_eq!(
        added,
        "#ifndef X\n#define X\n#include <d.h>\n#include \"a.h\"\n#if FOO\n#include \"b.h\"\n#endif\n#include \"c.h\"\n#endif\n"
    );
}

#[test]
fn add_includes_names_no_file_twice() {
    let added = add_includes(
        "int x;\n",
        &vec![
            IncludeStatement::Local("C.hpp".to_string()),
            IncludeStatement::Global("map".to_string()),
            IncludeStatement::Local("C.hpp".to_string()),
            IncludeStatement::Global("C.hpp".to_string()),
            IncludeStatement::Local("map".to_string()),
            IncludeStatement::Local("D.hpp".to_string()),
        ],
        true,
    );
    assert_eq!(added, "#include \"C.hpp\"\n#include <map>\n#include \"D.hpp\"\nint x;\n");
}

#[test]
fn add_includes_of_nothing_changes_nothing() {
    assert_eq!(add_includes(SOURCE, &vec![], false), SOURCE);
}

#[test]
fn statements_render_with_quotes_or_brackets() {
    assert_eq!(
        IncludeStatement::Local("a/b.h".to_string()).render(),
        "#include \"a/b.h\""
    );
    assert_eq!(
        IncludeStatement::Global("vector".to_string()).render(),
        "#include <vector>"
    );
    assert_eq!(IncludeStatement::Global("vector".to_string()).path(), "vector");
    assert_eq!(IncludeStatement::Local("a/b.h".to_string()).path(), "a/b.h");
}

#[test]
fn remove_includes_drops_the_numbered_lines() {
    assert_eq!(remove_includes(&b"a\nb\nc".to_vec(), &vec![2]), b"a\nc\n".to_vec());
    assert_eq!(remove_includes(&b"a\nb\nc\n".to_vec(), &vec![3, 1]), b"b\n".to_vec());
    assert_eq!(remove_includes(&b"a\n\nc\n".to_vec(), &vec![2]), b"a\nc\n".to_vec());
    assert_eq!(remove_includes(&b"a\n\n".to_vec(), &vec![]), b"a\n\n".to_vec());
}

#[test]
fn remove_includes_ignores_numbers_without_a_line() {
    assert_eq!(remove_includes(&b"a\nb".to_vec(), &vec![0, 3, 7]), b"a\nb\n".to_vec());
    assert_eq!(remove_includes(&Vec::new(), &vec![1]), Vec::<u8>::new());
}

#[test]
fn remove_includes_never_adds_a_line() {
    let content = SOURCE.as_bytes().to_vec();
    let count = |bytes: &Vec<u8>| bytes.iter().filter(|b| **b == b'\n').count();
    for gone in [vec![], vec![1], vec![2, 3], vec![1, 2, 3, 4, 5], vec![9]] {
        let out = remove_includes(&content, &gone);
        assert!(count(&out) <= count(&content));
    }
    assert_eq!(
        remove_includes(&content, &vec![2]),
        b"#include \"A.hpp\"\n#include <vector>\n\nint main() {}\n".to_vec()
    );
}

#[test]
fn removing_and_adding_again_restores_the_directives() {
    let removed = remove_includes(&SOURCE.as_bytes().to_vec(), &vec![2]);
    let text = String::from_utf8(removed).unwrap();
    let restored = add_includes(
        &text,
        &vec![IncludeStatement::Local("B.hpp".to_string())],
        false,
    );
    assert_eq!(restored, SOURCE);
}
