use include_pruner::analyze::{
    find_includes, follow, get_remaining_line, goes_on, include_should_be_ignored,
    mark_includes_impl, same_stem, unused_includes, Directive, EntityKind, Follow, Reference,
};
use include_pruner::includes::IncludeGraph;

const IGNORE: &str = "(/private/|[_/]impl[_\\./])";

const MAIN: (u64, u64, u64) = (1, 0, 0);

fn directive(from: (u64, u64, u64), to: (u64, u64, u64), name: &str, line: usize) -> Directive {
    Directive {
        name: name.to_string(),
        from,
        from_path: if from == MAIN { "/p/src/A.cpp".to_string() } else { format!("/p/src/{}.hpp", from.0) },
        to,
        to_path: format!("/p/src/{}", name),
        in_main_file: from == MAIN,
        rest_of_line: Some(String::new()),
        line,
    }
}

fn used(file: (u64, u64, u64)) -> Reference {
    Reference { resolves_to_itself: false, in_main_file: false, file: Some(file) }
}

fn names(unused: &Vec<include_pruner::analyze::Include>) -> Vec<(String, String, usize)> {
    unused.iter().map(|i| (i.name.clone(), i.path.clone(), i.line)).collect()
}

#[test]
fn an_include_without_any_reference_is_unused() {
    let directives = vec![directive(MAIN, (2, 0, 0), "Only.hpp", 3)];
    let unused = unused_includes(&directives, &vec![], &MAIN, IGNORE);
    assert_eq!(
        names(&unused),
        vec![("Only.hpp".to_string(), "/p/src/Only.hpp".to_string(), 3)]
    );
}

#[test]
fn a_macro_expansion_marks_its_header() {
    assert!(matches!(follow(EntityKind::MacroExpansion), Follow::Reference));
    let directives = vec![directive(MAIN, (2, 0, 0), "Macros.hpp", 1)];
    let unused = unused_includes(&directives, &vec![used((2, 0, 0))], &MAIN, IGNORE);
    assert!(unused.is_empty());
}

#[test]
fn follow_tells_references_from_aliases() {
    assert!(matches!(follow(EntityKind::DeclRefExpr), Follow::Reference));
    assert!(matches!(follow(EntityKind::TypeRef), Follow::Reference));
    assert!(matches!(follow(EntityKind::TemplateRef), Follow::Reference));
    assert!(matches!(follow(EntityKind::TypeAliasDecl), Follow::UnderlyingType));
    assert!(matches!(follow(EntityKind::TypedefDecl), Follow::UnderlyingType));
    assert!(matches!(follow(EntityKind::Other), Follow::Nothing));
}

#[test]
fn a_kept_directive_is_ignored() {
    let mut kept = directive(MAIN, (2, 0, 0), "Legacy.hpp", 1);
    kept.rest_of_line = Some(" // keep".to_string());
    assert!(include_should_be_ignored(&kept, IGNORE));
    kept.rest_of_line = Some("\t//keep this".to_string());
    assert!(include_should_be_ignored(&kept, IGNORE));
    kept.rest_of_line = Some(" // Keep".to_string());
    assert!(!include_should_be_ignored(&kept, IGNORE));
    kept.rest_of_line = Some(" /* x */ // keep".to_string());
    assert!(!include_should_be_ignored(&kept, IGNORE));
    kept.rest_of_line = None;
    assert!(!include_should_be_ignored(&kept, IGNORE));
}

#[test]
fn a_kept_directive_is_not_removed() {
    let mut kept = directive(MAIN, (2, 0, 0), "Legacy.hpp", 1);
    kept.rest_of_line = Some(" // keep".to_string());
    let unused = unused_includes(&vec![kept], &vec![], &MAIN, IGNORE);
    assert!(unused.is_empty());
}

#[test]
fn a_directive_outside_the_main_file_is_never_ignored() {
    let mut other = directive((2, 0, 0), (3, 0, 0), "Legacy.hpp", 1);
    other.rest_of_line = Some(" // keep".to_string());
    other.to_path = "/p/private/Legacy.hpp".to_string();
    assert!(!include_should_be_ignored(&other, IGNORE));
}

#[test]
fn the_header_of_the_main_file_is_never_an_edge() {
    let own = directive(MAIN, (2, 0, 0), "A.hpp", 1);
    assert!(include_should_be_ignored(&own, IGNORE));
    let mut graph = IncludeGraph::new();
    find_includes(&vec![own], IGNORE, &mut graph);
    assert_eq!(graph.len(), 0);
    assert!(graph.edges().is_empty());
    let own = directive(MAIN, (2, 0, 0), "A.hpp", 1);
    assert!(unused_includes(&vec![own], &vec![], &MAIN, IGNORE).is_empty());
}

#[test]
fn stems_are_the_same_where_both_are_missing_or_equal() {
    assert!(same_stem(&None, &None));
    assert!(same_stem(&Some("A".to_string()), &Some("A".to_string())));
    assert!(!same_stem(&Some("A".to_string()), &Some("a".to_string())));
    assert!(!same_stem(&Some("A".to_string()), &None));
    assert!(!same_stem(&None, &Some("A".to_string())));
}

#[test]
fn an_ignored_path_is_never_removed() {
    let mut private = directive(MAIN, (2, 0, 0), "Priv.hpp", 1);
    private.to_path = "/p/impl/Priv.hpp".to_string();
    assert!(include_should_be_ignored(&private, "(impl)"));
    assert!(unused_includes(&vec![private], &vec![], &MAIN, "(impl)").is_empty());

    let mut private = directive(MAIN, (2, 0, 0), "Priv.hpp", 1);
    private.to_path = "/p/impl/Priv.hpp".to_string();
    assert!(include_should_be_ignored(&private, IGNORE));
    private.to_path = "/p/private/Priv.hpp".to_string();
    assert!(include_should_be_ignored(&private, IGNORE));
    private.to_path = "/p/simple/Priv.hpp".to_string();
    assert!(!include_should_be_ignored(&private, IGNORE));
}

#[test]
fn an_unused_include_beside_a_used_one_is_removed() {
    let directives = vec![
        directive(MAIN, (2, 0, 0), "Used.hpp", 1),
        directive(MAIN, (3, 0, 0), "Unused.hpp", 2),
    ];
    let unused = unused_includes(&directives, &vec![used((2, 0, 0))], &MAIN, IGNORE);
    assert_eq!(
        names(&unused),
        vec![("Unused.hpp".to_string(), "/p/src/Unused.hpp".to_string(), 2)]
    );
}

#[test]
fn a_forwarding_include_is_retained() {
    let directives = vec![
        directive(MAIN, (2, 0, 0), "Forward.hpp", 1),
        directive((2, 0, 0), (3, 0, 0), "Real.hpp", 1),
    ];
    let unused = unused_includes(&directives, &vec![used((3, 0, 0))], &MAIN, IGNORE);
    assert!(unused.is_empty());
}

#[test]
fn an_indirect_include_beside_the_direct_one_is_removed() {
    let directives = vec![
        directive(MAIN, (2, 0, 0), "Direct.hpp", 1),
        directive(MAIN, (3, 0, 0), "Indirect.hpp", 2),
        directive((3, 0, 0), (4, 0, 0), "Real.hpp", 1),
    ];
    let unused = unused_includes(&directives, &vec![used((2, 0, 0))], &MAIN, IGNORE);
    assert_eq!(
        names(&unused),
        vec![("Indirect.hpp".to_string(), "/p/src/Indirect.hpp".to_string(), 2)]
    );
}

#[test]
fn a_repeated_directive_is_listed_for_each_of_its_lines() {
    let directives = vec![
        directive(MAIN, (2, 0, 0), "Twice.hpp", 1),
        directive(MAIN, (2, 0, 0), "Twice.hpp", 5),
    ];
    let unused = unused_includes(&directives, &vec![], &MAIN, IGNORE);
    assert_eq!(unused.len(), 2);
    assert_eq!(unused[0].line, 1);
    assert_eq!(unused[1].line, 5);
}

#[test]
fn references_mark_only_files_outside_the_main_file() {
    let mut graph = IncludeGraph::new();
    let itself = Reference { resolves_to_itself: true, in_main_file: false, file: Some((2, 0, 0)) };
    assert!(!mark_includes_impl(&itself, &mut graph));
    assert_eq!(graph.len(), 0);
    let inside = Reference { resolves_to_itself: false, in_main_file: true, file: Some(MAIN) };
    assert!(mark_includes_impl(&inside, &mut graph));
    assert_eq!(graph.len(), 0);
    let unknown = Reference { resolves_to_itself: false, in_main_file: false, file: None };
    assert!(mark_includes_impl(&unknown, &mut graph));
    assert_eq!(graph.len(), 0);
    assert!(mark_includes_impl(&used((2, 0, 0)), &mut graph));
    assert!(graph.is_used(&(2, 0, 0)));
}

#[test]
fn the_walk_goes_on_unless_an_entity_resolves_to_itself() {
    assert!(goes_on(&used((2, 0, 0))));
    assert!(!goes_on(&Reference {
        resolves_to_itself: true,
        in_main_file: false,
        file: Some((2, 0, 0)),
    }));
}

#[test]
fn get_remaining_line_ends_at_the_line_feed() {
    let content = "#include \"a.h\" // keep\nint x;";
    assert_eq!(get_remaining_line(content, 14), Some(" // keep".to_string()));
    assert_eq!(get_remaining_line(content, 22), Some(String::new()));
    assert_eq!(get_remaining_line(content, 23), Some("int x;".to_string()));
    assert_eq!(get_remaining_line(content, 29), Some(String::new()));
    assert_eq!(get_remaining_line(content, 30), None);
    assert_eq!(get_remaining_line("ä\n", 1), None);
}
