use wasm_dylink::dylink::Dylink;
use wasm_dylink::error::Error;
use wasm_dylink::linker::dlopen;
use wasm_dylink::linker::DlopenStep;
use wasm_dylink::linker::EnvSource;
use wasm_dylink::linker::InstanceInfo;
use wasm_dylink::linker::LinkContext;
use wasm_dylink::linker::SymbolSource;
use wasm_dylink::manager::Dependency;
use wasm_dylink::manager::Manager;
use wasm_dylink::manager::Metadata;

fn s(text: &str) -> String {
    text.to_string()
}

fn dylink_info(mem_size: u32, table_size: u32) -> Dylink {
    Dylink {
        mem_size,
        mem_align: 0,
        table_size,
        table_align: 0,
        needed_dynlibs: vec![],
    }
}

#[test]
fn table_growth_reserves_null_slot() {
    let mut ctx = LinkContext::new();
    // The first real growth reserves slot 0 as the "not found" sentinel.
    let base = ctx.grow_table(3);
    assert_eq!(base, 1);
    let next = ctx.grow_table(2);
    assert_eq!(next, 4);
    let empty_growth = ctx.grow_table(0);
    assert_eq!(empty_growth, 6);
}

// Scenario: two modules both importing the relocation-table function
// symbol `foo` receive the identical table slot.
#[test]
fn shared_got_func_slot() {
    let mut ctx = LinkContext::new();
    let first = ctx.resolve_got_func("foo", true).unwrap();
    let len_after_first = ctx.table_len;
    let second = ctx.resolve_got_func("foo", true).unwrap();
    assert_eq!(first, second);
    assert_ne!(first, 0);
    // The second resolution allocated nothing.
    assert_eq!(ctx.table_len, len_after_first);
    assert_eq!(ctx.got_func.len(), 1);
}

#[test]
fn unresolved_got_func_symbol() {
    let mut ctx = LinkContext::new();
    match ctx.resolve_got_func("ghost", false) {
        Err(Error::UnresolvedSymbol(symbol)) => assert_eq!(symbol, "GOT.func.ghost"),
        _ => panic!("expected UnresolvedSymbol"),
    }
}

#[test]
fn got_mem_resolves_own_export_first() {
    let mut ctx = LinkContext::new();
    let value = ctx
        .resolve_got_mem("data", 1024, Some(64), &vec![])
        .unwrap();
    assert_eq!(value, 1088);
    // Cached forever: a later module importing `data` sees the same
    // address, whatever it offers itself.
    let again = ctx
        .resolve_got_mem("data", 4096, Some(8), &vec![])
        .unwrap();
    assert_eq!(again, 1088);
    assert_eq!(ctx.got_mem.len(), 1);
}

#[test]
fn got_mem_scans_existing_instances() {
    let mut ctx = LinkContext::new();
    ctx.push_instance(InstanceInfo {
        name: s("side"),
        dylink: Some(dylink_info(16, 0)),
        memory_base: 2048,
        table_base: Some(0),
    });
    let answers = vec![Some(32)];
    let value = ctx.resolve_got_mem("shared", 0, None, &answers).unwrap();
    assert_eq!(value, 2080);
    match ctx.resolve_got_mem("missing", 0, None, &vec![None]) {
        Err(Error::UnresolvedSymbol(symbol)) => assert_eq!(symbol, "GOT.mem.missing"),
        _ => panic!("expected UnresolvedSymbol"),
    }
}

#[test]
fn env_import_resolution_order() {
    let ctx = LinkContext::new();
    match ctx.resolve_env_import("puts", true, &vec![]).unwrap() {
        EnvSource::Linker => {}
        _ => panic!("the link namespace wins"),
    }
    let mut populated = LinkContext::new();
    populated.push_instance(InstanceInfo {
        name: s("a"),
        dylink: None,
        memory_base: 0,
        table_base: None,
    });
    populated.push_instance(InstanceInfo {
        name: s("b"),
        dylink: None,
        memory_base: 0,
        table_base: None,
    });
    match populated
        .resolve_env_import("puts", false, &vec![false, true])
        .unwrap()
    {
        EnvSource::Instance { index } => assert_eq!(index, 1),
        _ => panic!("expected an instance export"),
    }
    match populated.resolve_env_import("puts", false, &vec![false, false]) {
        Err(Error::UnresolvedSymbol(symbol)) => assert_eq!(symbol, "env::puts"),
        _ => panic!("expected UnresolvedSymbol"),
    }
}

// The registry invariant: no two instances' memory or table ranges
// overlap; an entry that would collide is refused.
#[test]
fn registry_refuses_overlap() {
    let mut ctx = LinkContext::new();
    let base = ctx.grow_table(4);
    let first = InstanceInfo {
        name: s("first"),
        dylink: Some(dylink_info(100, 4)),
        memory_base: 1000,
        table_base: Some(base),
    };
    assert!(ctx.can_push(&first));
    let handle = ctx.push_instance(first);
    assert_eq!(handle, 1);
    // Overlapping memory range [1050, 1150).
    let overlapping = InstanceInfo {
        name: s("second"),
        dylink: Some(dylink_info(100, 0)),
        memory_base: 1050,
        table_base: Some(5),
    };
    assert!(!ctx.can_push(&overlapping));
    // Disjoint memory, overlapping table range.
    let table_clash = InstanceInfo {
        name: s("second"),
        dylink: Some(dylink_info(100, 2)),
        memory_base: 5000,
        table_base: Some(base + 1),
    };
    let grown = ctx.grow_table(2);
    assert!(!ctx.can_push(&table_clash));
    // Fully disjoint.
    let fine = InstanceInfo {
        name: s("second"),
        dylink: Some(dylink_info(100, 2)),
        memory_base: 5000,
        table_base: Some(grown),
    };
    assert!(ctx.can_push(&fine));
    assert_eq!(ctx.push_instance(fine), 2);
    assert_eq!(ctx.current_handle(), 2);
}

#[test]
fn dlsym_shares_cached_slots_across_handles() {
    let mut ctx = LinkContext::new();
    ctx.install_main(s("main"), 512);
    let slot = ctx.resolve_got_func("callback", true).unwrap();
    // Whatever the handle, a cached symbol answers directly.
    match ctx.dlsym(99, "callback").unwrap() {
        SymbolSource::Cached { slot: cached } => assert_eq!(cached, slot),
        _ => panic!("expected the cached slot"),
    }
    // An uncached symbol goes through the handle.
    match ctx.dlsym(1, "fresh").unwrap() {
        SymbolSource::Export { instance } => assert_eq!(instance, 0),
        _ => panic!("expected an export lookup"),
    }
    let inserted = ctx.dlsym_insert("fresh", true).unwrap();
    assert_ne!(inserted, 0);
    assert_ne!(inserted, slot);
    // A second lookup of the same name answers the same slot.
    assert_eq!(ctx.dlsym_insert("fresh", true).unwrap(), inserted);
}

#[test]
fn dlsym_rejects_bad_handles_and_non_functions() {
    let mut ctx = LinkContext::new();
    ctx.install_main(s("main"), 512);
    match ctx.dlsym(0, "anything") {
        Err(Error::HandleOutOfRange(h)) => assert_eq!(h, 0),
        _ => panic!("expected HandleOutOfRange"),
    }
    match ctx.dlsym(2, "anything") {
        Err(Error::HandleOutOfRange(h)) => assert_eq!(h, 2),
        _ => panic!("expected HandleOutOfRange"),
    }
    match ctx.dlsym_insert("data_symbol", false) {
        Err(Error::NotAFunction(name)) => assert_eq!(name, "data_symbol"),
        _ => panic!("expected NotAFunction"),
    }
}

fn linked_manager() -> Manager {
    let side = Dependency::new(s("side"), false, s("http://host/side.wasm"));
    let root = Metadata::new(
        s("main"),
        vec![],
        s("http://host/main.wasm"),
        vec![(s("side"), side)],
    );
    Manager::new(root, vec![], &Some(s("cache")), vec![])
}

// Idempotence: opening an already-linked module answers the same handle
// both times and performs no allocation.
#[test]
fn dlopen_is_idempotent() {
    let mut manager = linked_manager();
    let mut ctx = LinkContext::new();
    ctx.install_main(s("main"), 512);
    // First open: the module is not linked yet, so it must be loaded.
    match dlopen(&mut manager, &ctx, "main", "side").unwrap() {
        DlopenStep::Load { dependency } => assert_eq!(dependency.id, "side"),
        DlopenStep::Loaded { .. } => panic!("side is not linked yet"),
    }
    // Pretend the load-and-link pipeline ran.
    ctx.push_instance(InstanceInfo {
        name: s("side"),
        dylink: Some(dylink_info(8, 0)),
        memory_base: 4096,
        table_base: Some(0),
    });
    let table_len = ctx.table_len;
    let registry_len = ctx.instances.len();
    let first = match dlopen(&mut manager, &ctx, "main", "side").unwrap() {
        DlopenStep::Loaded { handle } => handle,
        DlopenStep::Load { .. } => panic!("side is linked"),
    };
    let second = match dlopen(&mut manager, &ctx, "main", "side").unwrap() {
        DlopenStep::Loaded { handle } => handle,
        DlopenStep::Load { .. } => panic!("side is linked"),
    };
    assert_eq!(first, 2);
    assert_eq!(first, second);
    assert_eq!(ctx.table_len, table_len);
    assert_eq!(ctx.instances.len(), registry_len);
}

// Scenario: opening a name absent from the caller's declared dependencies
// reports 0, and the error channel then yields a message naming the
// missing id exactly once.
#[test]
fn dlopen_absent_dependency_reports_through_dlerror() {
    let mut manager = linked_manager();
    let mut ctx = LinkContext::new();
    ctx.install_main(s("main"), 2048);
    let failure = dlopen(&mut manager, &ctx, "main", "missing@1").unwrap_err();
    let returned = ctx.report_failure(&failure);
    assert_eq!(returned, 0);
    let address = ctx.dlerror();
    assert_eq!(address, 2048);
    let message = String::from_utf8(
        ctx.error.buffer[..ctx.error.buffer.len() - 1].to_vec(),
    )
    .unwrap();
    assert!(message.contains("missing@1"));
    // Drained: a second immediate call answers 0.
    assert_eq!(ctx.dlerror(), 0);
}

#[test]
fn error_messages_are_exact() {
    let e = Error::ModuleNotFound(s("ghost"));
    assert_eq!(
        e.message(),
        "Cannot find the desired module: `ghost` defined in the metadata"
    );
    let e = Error::DependencyNotFound {
        module: s("main"),
        dependency: s("lib@1"),
    };
    assert_eq!(
        e.message(),
        "Cannot find the desired module's dependency `lib@1` defined in the metadata of module main"
    );
    assert_eq!(Error::FetchFailed(s("connection refused")).message(), "connection refused");
    assert_eq!(
        Error::InstantiationFailed(s("Unable to instantiate `side` module: trap")).message(),
        "Unable to instantiate `side` module: trap"
    );
}

#[test]
fn write_error_truncates_to_capacity() {
    let mut ctx = LinkContext::new();
    let long = "x".repeat(1000);
    ctx.write_error(&long);
    // The channel holds 256 bytes of message plus the NUL terminator.
    assert_eq!(ctx.error.buffer.len(), 257);
    assert_eq!(*ctx.error.buffer.last().unwrap(), 0);
    assert!(ctx.error.occurred);
    ctx.write_error("short");
    assert_eq!(ctx.error.buffer, b"short\0".to_vec());
}
