use wasm_dylink::error::Error;
use wasm_dylink::manager::BinarySource;
use wasm_dylink::manager::Dependency;
use wasm_dylink::manager::GatherStep;
use wasm_dylink::manager::Manager;
use wasm_dylink::manager::Metadata;

fn s(text: &str) -> String {
    text.to_string()
}

/// A small smoke-test setup: module `example_main` at
/// `http://localhost:8080`, depending eagerly on `marvin@0.0.1` at
/// `http://localhost:8080/metadata_splitting`, with the cache at
/// `./cache`.
fn example_manager() -> Manager {
    let marvin = Dependency::new(
        s("marvin@0.0.1"),
        true,
        s("http://localhost:8080/metadata_splitting"),
    );
    let root = Metadata::new(
        s("example_main"),
        vec![],
        s("http://localhost:8080"),
        vec![(s("marvin@0.0.1"), marvin)],
    );
    Manager::new(root, vec![], &Some(s("./cache")), vec![])
}

#[test]
fn test_loading() {
    let mut manager = example_manager();
    let dependency = manager
        .resolve_id("example_main", "marvin@0.0.1")
        .unwrap();
    assert_eq!(dependency.id, "marvin@0.0.1");
    let mut state = manager.load(dependency);
    // The walk immediately asks for the metadata of the dependency, which
    // the embedding program would fetch over the network.
    match manager.load_advance(&mut state) {
        GatherStep::FetchMetadata { id, location } => {
            assert_eq!(id, "marvin@0.0.1");
            assert_eq!(location, "http://localhost:8080/metadata_splitting");
        }
        _ => panic!("expected a metadata fetch"),
    }
}

// Scenario: `main` depends eagerly on `lib@1` at `http://host/libs`;
// loading `main` yields the pair list `[(main, ...), (lib@1, ...)]` in
// that order.
#[test]
fn load_orders_root_first() {
    let lib = Dependency::new(s("lib@1"), true, s("http://host/libs"));
    let root_meta = Metadata::new(
        s("main"),
        vec![],
        s("http://host/main.wasm"),
        vec![(s("lib@1"), lib)],
    );
    let mut manager = Manager::new(root_meta, vec![], &Some(s("cache")), vec![]);
    let main_dep = Dependency::new(s("main"), true, s("http://host/main.wasm"));
    let mut state = manager.load(main_dep);
    loop {
        match manager.load_advance(&mut state) {
            GatherStep::Done => break,
            GatherStep::Expanded => {}
            GatherStep::FetchMetadata { id, location } => {
                assert_eq!(id, "lib@1");
                let fetched = Metadata::new(id, vec![], location, vec![]);
                manager.supply_metadata(&mut state, fetched);
            }
        }
    }
    let ids: Vec<&str> = state.choices.iter().map(|d| d.id.as_str()).collect();
    assert_eq!(ids, vec!["main", "lib@1"]);
    let plan = manager.load_all_dependencies(&state.choices).unwrap();
    assert_eq!(plan.len(), 2);
    assert_eq!(plan[0].0.id, "main");
    assert_eq!(plan[1].0.id, "lib@1");
    match &plan[1].1 {
        BinarySource::Registry { url } => assert_eq!(url, "http://host/libs"),
        BinarySource::Cache { .. } => panic!("lib@1 is not cached"),
    }
}

// Determinism: the same load against identical metadata discovers the
// dependency list in identical order.
#[test]
fn load_is_deterministic() {
    let run = || {
        let lib = Dependency::new(s("lib@1"), true, s("http://host/libs"));
        let side = Dependency::new(s("side"), true, s("http://host/side"));
        let root_meta = Metadata::new(
            s("main"),
            vec![],
            s("http://host/main.wasm"),
            vec![(s("lib@1"), lib), (s("side"), side)],
        );
        let mut manager = Manager::new(root_meta, vec![], &Some(s("cache")), vec![]);
        let main_dep = Dependency::new(s("main"), true, s("http://host/main.wasm"));
        let mut state = manager.load(main_dep);
        loop {
            match manager.load_advance(&mut state) {
                GatherStep::Done => break,
                GatherStep::Expanded => {}
                GatherStep::FetchMetadata { id, location } => {
                    let fetched = Metadata::new(id, vec![], location, vec![]);
                    manager.supply_metadata(&mut state, fetched);
                }
            }
        }
        let ids: Vec<String> = state.choices.iter().map(|d| d.id.clone()).collect();
        ids
    };
    assert_eq!(run(), run());
}

#[test]
fn eager_closure_skips_lazy_dependencies() {
    let eager = Dependency::new(s("eager"), true, s("http://host/libs"));
    let lazy = Dependency::new(s("lazy"), false, s("http://host/libs"));
    let root_meta = Metadata::new(
        s("main"),
        vec![],
        s("http://host/main.wasm"),
        vec![(s("eager"), eager), (s("lazy"), lazy)],
    );
    let mut manager = Manager::new(root_meta, vec![], &Some(s("cache")), vec![]);
    let main_dep = Dependency::new(s("main"), true, s("http://host/main.wasm"));
    let mut state = manager.load(main_dep);
    loop {
        match manager.load_advance(&mut state) {
            GatherStep::Done => break,
            GatherStep::Expanded => {}
            GatherStep::FetchMetadata { id, location } => {
                let fetched = Metadata::new(id, vec![], location, vec![]);
                manager.supply_metadata(&mut state, fetched);
            }
        }
    }
    let ids: Vec<&str> = state.choices.iter().map(|d| d.id.as_str()).collect();
    assert_eq!(ids, vec!["main", "eager"]);
}

#[test]
fn resolve_id_unknown_module() {
    let mut manager = example_manager();
    let r = manager.resolve_id("nowhere", "marvin@0.0.1");
    match r {
        Err(Error::ModuleNotFound(m)) => assert_eq!(m, "nowhere"),
        _ => panic!("expected ModuleNotFound"),
    }
}

#[test]
fn resolve_id_unknown_dependency() {
    let mut manager = example_manager();
    let r = manager.resolve_id("example_main", "absent");
    match r {
        Err(Error::DependencyNotFound { module, dependency }) => {
            assert_eq!(module, "example_main");
            assert_eq!(dependency, "absent");
        }
        _ => panic!("expected DependencyNotFound"),
    }
}

#[test]
fn retrieve_binary_prefers_cache() {
    let root = Metadata::new(s("main"), vec![], s("http://host/main.wasm"), vec![]);
    let mut manager = Manager::new(
        root,
        vec![],
        &Some(s("./cache")),
        vec![s("main.wasm"), s("other.txt")],
    );
    match manager.retrieve_binary("main").unwrap() {
        BinarySource::Cache { path } => assert_eq!(path, "./cache/main.wasm"),
        BinarySource::Registry { .. } => panic!("main is cached"),
    }
    match manager.load_main("main").unwrap() {
        BinarySource::Cache { path } => assert_eq!(path, "./cache/main.wasm"),
        BinarySource::Registry { .. } => panic!("main is cached"),
    }
}

#[test]
fn retrieve_binary_falls_back_to_registry() {
    let root = Metadata::new(s("main"), vec![], s("http://host/main.wasm"), vec![]);
    let mut manager = Manager::new(root, vec![], &Some(s("./cache")), vec![]);
    match manager.retrieve_binary("main").unwrap() {
        BinarySource::Registry { url } => assert_eq!(url, "http://host/main.wasm"),
        BinarySource::Cache { .. } => panic!("main is not cached"),
    }
    manager.note_cached("main");
    match manager.retrieve_binary("main").unwrap() {
        BinarySource::Cache { path } => assert_eq!(path, "./cache/main.wasm"),
        BinarySource::Registry { .. } => panic!("main is cached now"),
    }
}

#[test]
fn retrieve_binary_unknown_module() {
    let root = Metadata::new(s("main"), vec![], s("http://host/main.wasm"), vec![]);
    let mut manager = Manager::new(root, vec![], &Some(s("./cache")), vec![]);
    match manager.retrieve_binary("stranger") {
        Err(Error::ModuleNotFound(m)) => assert_eq!(m, "stranger"),
        _ => panic!("expected ModuleNotFound"),
    }
    let dep = Dependency::new(s("stranger"), true, s("http://host/libs"));
    match manager.load_all_dependencies(&vec![dep]) {
        Err(Error::ModuleNotFound(m)) => assert_eq!(m, "stranger"),
        _ => panic!("expected ModuleNotFound"),
    }
}

#[test]
fn cached_module_names_are_stems() {
    let entries = vec![
        s("foo.wasm"),
        s("noext"),
        s("bar.wasm"),
        s(".wasm"),
        s("a.wasm"),
    ];
    let ids = Manager::check_cached_modules(&entries);
    assert_eq!(ids, vec![s("foo"), s("bar"), s("a")]);
}

#[test]
fn attributes_are_kept() {
    let root = Metadata::new(s("main"), vec![], s("http://host"), vec![]);
    let manager = Manager::new(
        root,
        vec![s("x86_64"), s("WASI")],
        &Some(s("cache")),
        vec![],
    );
    assert_eq!(manager.get_attributes(), vec![s("x86_64"), s("WASI")]);
}

#[test]
fn dependency_equality_is_structural() {
    let a = Dependency::new(s("x"), true, s("here"));
    let b = Dependency::new(s("x"), true, s("here"));
    let c = Dependency::new(s("x"), false, s("here"));
    let d = Dependency::new(s("x"), true, s("there"));
    assert!(a == b);
    assert!(!(a == c));
    assert!(!(a == d));
}
