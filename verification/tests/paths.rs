use include_pruner::analyze::{choose_spelling, Include};
use include_pruner::fileio::IncludeStatement;
use include_pruner::util::{find_include, include_candidates, include_paths, is_header_file};

fn strings(list: &[&str]) -> Vec<String> {
    list.iter().map(|s| s.to_string()).collect()
}

#[test]
fn test_find_include() {
    let existing = strings(&["tests/src/refs/Functions.hpp", "tests/src/Unused.hpp"]);
    assert_eq!(
        find_include(
            "tests/src/refs/Main.cpp",
            "Functions.hpp",
            &strings(&["tests/src"]),
            &existing,
        ),
        Some("tests/src/refs/Functions.hpp".to_string())
    );
    assert_eq!(
        find_include(
            "tests/src/refs/Main.cpp",
            "Unused.hpp",
            &strings(&["tests/src"]),
            &existing,
        ),
        Some("tests/src/Unused.hpp".to_string())
    );
}

#[test]
fn find_include_gives_nothing_where_nothing_exists() {
    assert_eq!(
        find_include("a/b.cpp", "c.hpp", &strings(&["inc"]), &strings(&["other/c.hpp"])),
        None
    );
}

#[test]
fn include_candidates_are_in_the_order_of_the_search() {
    assert_eq!(
        include_candidates(
            "proj/src/main/net/http/Client.cpp",
            "Socket.hpp",
            &strings(&["proj/include", "/usr/include"]),
        ),
        strings(&[
            "proj/src/main/net/http/Socket.hpp",
            "proj/include/Socket.hpp",
            "/usr/include/Socket.hpp",
            "proj/include/net/http/Socket.hpp",
            "/usr/include/net/http/Socket.hpp",
        ])
    );
    assert_eq!(
        include_candidates("lib/x.cpp", "y.h", &strings(&["inc"])),
        strings(&["lib/y.h", "inc/y.h"])
    );
    assert_eq!(
        include_candidates("src/x.cpp", "y.h", &strings(&["inc"])),
        strings(&["src/y.h", "inc/y.h", "inc/y.h"])
    );
}

#[test]
fn find_include_prefers_the_place_below_the_first_root() {
    let roots = strings(&["one", "two"]);
    let existing = strings(&["two/net/a.h", "one/net/a.h"]);
    assert_eq!(
        find_include("p/include/net/b.h", "a.h", &roots, &existing),
        Some("one/net/a.h".to_string())
    );
}

#[test]
fn analyze_test_include_relpath() {
    let dir = "/work/tests";
    let include_paths = strings(&["/work/tests/src", "/work/tests/include"]);

    let record = Include::new("Base.hpp".into(), format!("{}/src/Base.hpp", dir), 0);
    assert_eq!(
        record.get_local(&format!("{}/src/Main.cpp", dir), &include_paths),
        Some("Base.hpp".into())
    );

    let record = Include::new("Classes.hpp".into(), format!("{}/src/refs/Classes.hpp", dir), 0);
    assert_eq!(
        record.get_local(&format!("{}/src/Main.cpp", dir), &include_paths),
        Some("refs/Classes.hpp".into())
    );

    let record = Include::new(
        "ExternalRef.hpp".into(),
        format!("{}/include/ref/ExternalRef.hpp", dir),
        0,
    );
    assert_eq!(
        record.get_local(&format!("{}/src/ref/Main.cpp", dir), &include_paths),
        Some("ExternalRef.hpp".into())
    );

    let record = Include::new("vector".into(), "/usr/lib/include/vector".into(), 0);
    assert_eq!(
        record.get_local(&format!("{}/Main.cpp", dir), &include_paths),
        None
    );
}

#[test]
fn mod_test_include_relpath() {
    let dir = "/work/tests";
    let include_paths = strings(&["/work/tests/src", "/work/tests/include"]);

    let record = Include::new("Base.hpp".into(), format!("{}/src/Base.hpp", dir), 0);
    assert_eq!(
        record.get_include(&format!("{}/src/Main.cpp", dir), &include_paths),
        (true, "Base.hpp".into())
    );

    let record = Include::new("Classes.hpp".into(), format!("{}/src/refs/Classes.hpp", dir), 0);
    assert_eq!(
        record.get_include(&format!("{}/src/Main.cpp", dir), &include_paths),
        (true, "refs/Classes.hpp".into())
    );

    let record = Include::new(
        "ExternalRef.hpp".into(),
        format!("{}/include/ref/ExternalRef.hpp", dir),
        0,
    );
    assert_eq!(
        record.get_include(&format!("{}/src/ref/Main.cpp", dir), &include_paths),
        (true, "ExternalRef.hpp".into())
    );

    let record = Include::new("vector".into(), "/usr/lib/include/vector".into(), 0);
    assert_eq!(
        record.get_include(&format!("{}/Main.cpp", dir), &include_paths),
        (false, "vector".into())
    );
}

#[test]
fn get_include_gives_the_name_of_the_file_where_no_root_holds_it() {
    let record = Include::new("sys/types.h".into(), "/usr/include/sys/types.h".into(), 1);
    assert_eq!(
        record.get_include("/p/Main.cpp", &Vec::new()),
        (false, "types.h".to_string())
    );
    assert_eq!(
        record.get_include("/p/Main.cpp", &strings(&["/usr/include"])),
        (true, "sys/types.h".to_string())
    );
    match choose_spelling("/usr/include/sys/types.h", "/p/Main.cpp", &Vec::new()) {
        IncludeStatement::Global(path) => assert_eq!(path, "types.h"),
        other => panic!("{:?}", other),
    }
}

#[test]
fn choose_spelling_is_local_below_a_root_and_global_elsewhere() {
    let roots = strings(&["/p/src", "/p/include"]);
    match choose_spelling("/p/include/net/Base.hpp", "/p/src/net/Client.cpp", &roots) {
        IncludeStatement::Local(path) => assert_eq!(path, "Base.hpp"),
        other => panic!("{:?}", other),
    }
    match choose_spelling("/p/include/net/Base.hpp", "/q/Client.cpp", &roots) {
        IncludeStatement::Local(path) => assert_eq!(path, "net/Base.hpp"),
        other => panic!("{:?}", other),
    }
    match choose_spelling("/usr/include/c++/vector", "/p/src/Client.cpp", &roots) {
        IncludeStatement::Global(path) => assert_eq!(path, "vector"),
        other => panic!("{:?}", other),
    }
}

#[test]
fn is_header_file_goes_by_the_extension() {
    assert!(is_header_file("a/b.h", true));
    assert!(is_header_file("a/b.hpp", true));
    assert!(!is_header_file("a/b.hpp", false));
    assert!(!is_header_file("a/b.cpp", true));
    assert!(!is_header_file("a/h", true));
    assert!(!is_header_file("a/b.H", true));
}

#[test]
fn include_paths_of_a_command() {
    assert_eq!(
        include_paths("cc -I/a/b -I ../c -DX=-Iy -c -Ilast x.c"),
        strings(&["/a/b", "../c", "last"])
    );
    assert_eq!(include_paths("-Ifirst"), strings(&["first"]));
    assert_eq!(include_paths("cc -c x.c"), Vec::<String>::new());
}
