use include_pruner::analyze::Include;
use include_pruner::dependencies::Dependencies;
use include_pruner::fileio::IncludeStatement;
use include_pruner::propagate::{Action, Engine, Event};

fn strings(list: &[&str]) -> Vec<String> {
    list.iter().map(|s| s.to_string()).collect()
}

fn base() -> Include {
    Include::new("Base.hpp".to_string(), "/p/src/Base.hpp".to_string(), 3)
}

#[test]
fn a_file_without_dependents_is_analysed_and_rewritten() {
    let index = Dependencies::new();
    let roots = strings(&["/p/src"]);
    let mut engine = Engine::new("/p/src/A.cpp".to_string());
    match engine.next(Event::Done, &index, &roots) {
        Action::Analyze(file) => assert_eq!(file, "/p/src/A.cpp"),
        other => panic!("{:?}", other),
    }
    match engine.next(Event::Analyzed(vec![base()]), &index, &roots) {
        Action::Remove(file, lines) => {
            assert_eq!(file, "/p/src/A.cpp");
            assert_eq!(lines, vec![3]);
        }
        other => panic!("{:?}", other),
    }
    assert!(matches!(engine.next(Event::Done, &index, &roots), Action::Finished));
    assert!(matches!(engine.next(Event::Done, &index, &roots), Action::Finished));
    assert_eq!(engine.visited(), &strings(&["/p/src/A.cpp"]));
}

#[test]
fn removed_includes_are_added_to_each_dependent_before_its_analysis() {
    let mut index = Dependencies::new();
    index.insert("/p/src/App.hpp".to_string(), "/p/src/Client.cpp".to_string());
    index.insert("/p/src/App.hpp".to_string(), "/q/Other.cpp".to_string());
    let roots = strings(&["/p/src"]);
    let mut engine = Engine::new("/p/src/App.hpp".to_string());
    assert!(matches!(engine.next(Event::Done, &index, &roots), Action::Analyze(_)));
    assert!(matches!(
        engine.next(Event::Analyzed(vec![base()]), &index, &roots),
        Action::Remove(_, _)
    ));
    match engine.next(Event::Done, &index, &roots) {
        Action::Add(file, statements) => {
            assert_eq!(file, "/p/src/Client.cpp");
            assert_eq!(statements.len(), 1);
            match &statements[0] {
                IncludeStatement::Local(path) => assert_eq!(path, "Base.hpp"),
                other => panic!("{:?}", other),
            }
        }
        other => panic!("{:?}", other),
    }
    match engine.next(Event::Done, &index, &roots) {
        Action::Analyze(file) => assert_eq!(file, "/p/src/Client.cpp"),
        other => panic!("{:?}", other),
    }
    match engine.next(Event::Analyzed(vec![]), &index, &roots) {
        Action::Add(file, _) => assert_eq!(file, "/q/Other.cpp"),
        other => panic!("{:?}", other),
    }
    match engine.next(Event::Done, &index, &roots) {
        Action::Analyze(file) => assert_eq!(file, "/q/Other.cpp"),
        other => panic!("{:?}", other),
    }
    assert!(matches!(engine.next(Event::Failed, &index, &roots), Action::Finished));
}

#[test]
fn nothing_is_added_where_nothing_was_removed() {
    let mut index = Dependencies::new();
    index.insert("a.h".to_string(), "b.cpp".to_string());
    let roots = strings(&[]);
    let mut engine = Engine::new("a.h".to_string());
    assert!(matches!(engine.next(Event::Done, &index, &roots), Action::Analyze(_)));
    match engine.next(Event::Analyzed(vec![]), &index, &roots) {
        Action::Analyze(file) => assert_eq!(file, "b.cpp"),
        other => panic!("{:?}", other),
    }
    assert!(matches!(engine.next(Event::Analyzed(vec![]), &index, &roots), Action::Finished));
}

#[test]
fn a_failed_analysis_skips_the_dependents() {
    let mut index = Dependencies::new();
    index.insert("a.h".to_string(), "b.cpp".to_string());
    let roots = strings(&[]);
    let mut engine = Engine::new("a.h".to_string());
    assert!(matches!(engine.next(Event::Done, &index, &roots), Action::Analyze(_)));
    assert!(matches!(engine.next(Event::Failed, &index, &roots), Action::Finished));
    assert_eq!(engine.visited(), &strings(&["a.h"]));
}

#[test]
fn every_file_is_analysed_at_most_once_in_a_cyclic_index() {
    let mut index = Dependencies::new();
    index.insert("a.h".to_string(), "b.h".to_string());
    index.insert("a.h".to_string(), "c.h".to_string());
    index.insert("b.h".to_string(), "a.h".to_string());
    index.insert("b.h".to_string(), "c.h".to_string());
    index.insert("c.h".to_string(), "a.h".to_string());
    index.insert("c.h".to_string(), "c.h".to_string());
    let roots = strings(&[]);
    let mut engine = Engine::new("a.h".to_string());
    let mut analysed: Vec<String> = Vec::new();
    let mut circular: Vec<String> = Vec::new();
    let mut event = Event::Done;
    let mut steps = 0;
    loop {
        steps += 1;
        assert!(steps < 100);
        match engine.next(event, &index, &roots) {
            Action::Analyze(file) => {
                assert!(!analysed.contains(&file));
                analysed.push(file);
                event = Event::Analyzed(vec![]);
            }
            Action::Circular(file) => {
                circular.push(file);
                event = Event::Done;
            }
            Action::Finished => break,
            other => panic!("{:?}", other),
        }
    }
    assert_eq!(analysed, strings(&["a.h", "b.h", "c.h"]));
    assert_eq!(circular, strings(&["a.h", "a.h", "c.h", "c.h"]));
    assert_eq!(engine.visited(), &analysed);
}
