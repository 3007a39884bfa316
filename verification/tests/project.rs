use include_pruner::clangfmt::{
    classify_part, decimal_text, find_blocks, include_ranges, includes, is_white, Part,
};
use include_pruner::compilations::{parse_args, strip_args, CompilationEntry, Compilations};
use include_pruner::dependencies::{Dependencies, SourceFile};

fn strings(list: &[&str]) -> Vec<String> {
    list.iter().map(|s| s.to_string()).collect()
}

fn entry(file: &str, command: &str) -> CompilationEntry {
    CompilationEntry { file: file.to_string(), command: command.to_string() }
}

#[test]
fn parse_args_drops_compiler_input_and_output() {
    assert_eq!(
        parse_args("clang++ -Iinc -o out.o -c main.cpp"),
        Some(strings(&["-Iinc", "-c"]))
    );
    assert_eq!(
        parse_args("cc -DNAME='a b' \"-I my dir\" x.c"),
        Some(strings(&["-DNAME=a b", "-I my dir"]))
    );
    assert_eq!(parse_args("cc x.c"), Some(vec![]));
    assert_eq!(parse_args("cc "), Some(vec![]));
}

#[test]
fn parse_args_fails_without_arguments_or_with_open_quotes() {
    assert_eq!(parse_args("clang"), None);
    assert_eq!(parse_args(""), None);
    assert_eq!(parse_args("cc 'open x.c"), None);
}

#[test]
fn strip_args_removes_the_first_output_only() {
    assert_eq!(strip_args(strings(&["-o", "a", "-o", "b", "in"])), strings(&["-o", "b"]));
    assert_eq!(strip_args(strings(&["-c", "-o", "in"])), strings(&["-c"]));
    assert_eq!(strip_args(strings(&["-c", "-o", "a"])), strings(&["-c"]));
    assert_eq!(strip_args(vec![]), Vec::<String>::new());
    assert_eq!(strip_args(strings(&["in"])), Vec::<String>::new());
}

#[test]
fn parse_retains_the_files_that_the_filter_matches() {
    let compilations = Compilations::parse(
        vec![
            entry("/p/src/a.cpp", "cc -I/p/inc -c a.cpp"),
            entry("/p/test/b.cpp", "cc -I/p/test -c b.cpp"),
            entry("/p/src/c.cpp", "cc -I /p/inc -I/p/gen -c c.cpp"),
            entry("/p/src/a.cpp", "cc -I/p/other -c a.cpp"),
        ],
        "/src/",
    );
    assert_eq!(compilations.sources(), strings(&["/p/src/a.cpp", "/p/src/c.cpp"]));
    assert_eq!(compilations.command("/p/src/a.cpp"), Some("cc -I/p/other -c a.cpp"));
    assert_eq!(compilations.command("/p/test/b.cpp"), None);
    assert_eq!(
        compilations.collect_include_paths(),
        strings(&["/p/other", "/p/inc", "/p/gen"])
    );
}

#[test]
fn insert_replaces_the_command_of_a_file() {
    let mut compilations = Compilations::new();
    assert_eq!(compilations.sources(), Vec::<String>::new());
    compilations.insert(entry("a.c", "cc a.c"));
    compilations.insert(entry("b.c", "cc b.c"));
    compilations.insert(entry("a.c", "cc -O2 a.c"));
    assert_eq!(compilations.sources(), strings(&["a.c", "b.c"]));
    assert_eq!(compilations.command("a.c"), Some("cc -O2 a.c"));
    assert_eq!(compilations.command("b.c"), Some("cc b.c"));
}

#[test]
fn related_args_come_from_the_file_or_its_dependents() {
    let compilations = Compilations::parse(
        vec![
            entry("/p/a.cpp", "cc -DA -c a.cpp"),
            entry("/p/b.cpp", "cc -DB -o b.o -c b.cpp"),
        ],
        ".",
    );
    let mut index = Dependencies::new();
    index.insert("/p/deep.h".to_string(), "/p/mid.h".to_string());
    index.insert("/p/mid.h".to_string(), "/p/top.h".to_string());
    index.insert("/p/mid.h".to_string(), "/p/b.cpp".to_string());
    index.insert("/p/top.h".to_string(), "/p/a.cpp".to_string());
    index.insert("/p/loop.h".to_string(), "/p/loop.h".to_string());

    assert_eq!(
        compilations.get_related_args("/p/a.cpp", &index),
        Some(strings(&["-DA", "-c"]))
    );
    assert_eq!(
        compilations.get_related_args("/p/top.h", &index),
        Some(strings(&["-DA", "-c"]))
    );
    // A direct dependent with a command comes before a deeper one.
    assert_eq!(
        compilations.get_related_args("/p/mid.h", &index),
        Some(strings(&["-DB", "-c"]))
    );
    // Below a dependent, again the direct dependents come first.
    assert_eq!(
        compilations.get_related_args("/p/deep.h", &index),
        Some(strings(&["-DB", "-c"]))
    );
    assert_eq!(compilations.get_related_args("/p/none.h", &index), None);
    assert_eq!(compilations.get_related_args("/p/loop.h", &index), None);
    assert_eq!(compilations.related_args_within("/p/deep.h", &index, 0), None);
    assert_eq!(
        compilations.related_args_within("/p/deep.h", &index, 1),
        Some(strings(&["-DB", "-c"]))
    );
}

#[test]
fn dependencies_keep_the_order_of_insertion() {
    let mut index = Dependencies::new();
    assert_eq!(index.len(), 0);
    assert_eq!(index.get("a.h"), Vec::<String>::new());
    index.add("b.cpp", &strings(&["a.h", "c.h"]));
    index.add("d.cpp", &strings(&["a.h"]));
    assert_eq!(index.len(), 2);
    assert_eq!(index.get("a.h"), strings(&["b.cpp", "d.cpp"]));
    assert_eq!(index.get("c.h"), strings(&["b.cpp"]));
    assert_eq!(index.get("b.cpp"), Vec::<String>::new());
}

#[test]
fn create_takes_sources_and_found_headers() {
    let source = |path: &str, is_file: bool, includes: &[&str]| SourceFile {
        path: path.to_string(),
        canonical: format!("/c{}", path),
        is_file,
        includes: strings(includes),
    };
    let index = Dependencies::create(
        &vec![
            source("/p/a.cpp", true, &["/c/p/x.h"]),
            source("/q/b.cpp", true, &["/c/p/x.h"]),
        ],
        &vec![
            source("/p/x.h", true, &["/c/p/y.hpp"]),
            source("/p/y.hpp", false, &["/c/p/z.h"]),
            source("/p/notes.txt", true, &["/c/p/z.h"]),
        ],
        "^/p/",
    );
    assert_eq!(index.get("/c/p/x.h"), strings(&["/c/p/a.cpp"]));
    assert_eq!(index.get("/c/p/y.hpp"), strings(&["/c/p/x.h"]));
    assert_eq!(index.get("/c/p/z.h"), Vec::<String>::new());
}

#[test]
fn print_shows_the_tree_and_marks_cycles() {
    let mut index = Dependencies::new();
    index.insert("a.h".to_string(), "b.cpp".to_string());
    index.insert("a.h".to_string(), "c.h".to_string());
    index.insert("c.h".to_string(), "a.h".to_string());
    index.insert("c.h".to_string(), "d.cpp".to_string());
    assert_eq!(
        index.print("a.h"),
        strings(&[
            "a.h",
            "  - b.cpp",
            "  - c.h",
            "      - !circular: a.h",
            "      - d.cpp",
        ])
    );
    assert_eq!(index.print("x.h"), strings(&["x.h"]));
}

#[test]
fn include_ranges_are_the_blocks_before_code() {
    let text = "#include <a>\n#include <b>\n\nint x;\n#include <c>\nint y;\n";
    assert_eq!(include_ranges(text), vec![(0, 2)]);
    let text = "// c\n#include <a>\n  #include <b>\nint x;\n#include <c>\n#include <d>\n";
    assert_eq!(include_ranges(text), vec![(0, 2)]);
    assert_eq!(include_ranges("int x;\n\n\nint y;\n"), vec![]);
    assert_eq!(include_ranges(""), vec![]);
}

#[test]
fn is_white_is_the_white_space_of_unicode() {
    for code in 0..=0x10FFFFu32 {
        if let Some(c) = char::from_u32(code) {
            assert_eq!(is_white(c), c.is_whitespace(), "{:x}", code);
        }
    }
}

#[test]
fn classify_part_looks_behind_the_white_space() {
    assert!(matches!(classify_part("#include <a>"), Part::Directive));
    assert!(matches!(classify_part(" \t\u{a0}\u{3000}# define X"), Part::Directive));
    assert!(matches!(classify_part(""), Part::Neutral));
    assert!(matches!(classify_part(" \r"), Part::Neutral));
    assert!(matches!(classify_part("  // note"), Part::Neutral));
    assert!(matches!(classify_part("//"), Part::Neutral));
    assert!(matches!(classify_part("/"), Part::Code));
    assert!(matches!(classify_part("/ /"), Part::Code));
    assert!(matches!(classify_part("/* c */"), Part::Code));
    assert!(matches!(classify_part("int x; // #"), Part::Code));
    assert!(matches!(classify_part("\u{200b}#"), Part::Code));
}

#[test]
fn include_ranges_take_lines_with_carriage_returns() {
    assert_eq!(include_ranges("#include <a>\r\n\r\n#include <b>\r\nint x;\r\n"), vec![(0, 2)]);
}

#[test]
fn find_blocks_needs_a_directive_and_two_lines() {
    let code = Part::Code;
    let directive = Part::Directive;
    let neutral = Part::Neutral;
    assert_eq!(find_blocks(&vec![directive, code]), vec![]);
    assert_eq!(find_blocks(&vec![neutral, neutral, code]), vec![]);
    assert_eq!(find_blocks(&vec![neutral, directive, code]), vec![(0, 1)]);
    assert_eq!(
        find_blocks(&vec![code, directive, directive, code, directive, neutral, code]),
        vec![(1, 2), (4, 5)]
    );
}

#[test]
fn formatter_arguments_count_lines_from_one() {
    assert_eq!(
        includes("a.cpp", &vec![(0, 2), (9, 99)]),
        strings(&["a.cpp", "-i", "-sort-includes", "-lines=1:3", "-lines=10:100"])
    );
    assert_eq!(includes("a.cpp", &vec![]), strings(&["a.cpp", "-i", "-sort-includes"]));
}

#[test]
fn decimal_text_writes_digits() {
    assert_eq!(decimal_text(0), "0");
    assert_eq!(decimal_text(7), "7");
    assert_eq!(decimal_text(1234567890), "1234567890");
    assert_eq!(decimal_text(u128::MAX), u128::MAX.to_string());
}
