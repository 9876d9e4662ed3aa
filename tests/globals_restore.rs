use clips::{CLIPSError, CLIPSValue, DefglobalTable, GlobalEntry, ModuleGlobals};

fn entry(m: &str, n: &str, v: i64) -> GlobalEntry {
    GlobalEntry { module: m.to_string(), name: n.to_string(), value: CLIPSValue::Int(v) }
}

fn value_of(t: &DefglobalTable, m: &str, n: &str) -> Option<i64> {
    t.entries.iter().find(|e| e.module == m && e.name == n).map(|e| match e.value {
        CLIPSValue::Int(i) => i,
        _ => panic!("integer expected"),
    })
}

#[test]
fn restore_is_not_transactional() {
    let mut t = DefglobalTable {
        modules: vec!["MAIN".to_string()],
        entries: vec![entry("MAIN", "x", 1)],
    };
    let snapshot = vec![ModuleGlobals {
        module: "MAIN".to_string(),
        globals: vec![
            ("x".to_string(), CLIPSValue::Int(10)),
            ("missing".to_string(), CLIPSValue::Int(20)),
        ],
    }];
    assert_eq!(t.restore_globals(&snapshot), Err(CLIPSError::DefglobalNotFound));
    assert_eq!(value_of(&t, "MAIN", "x"), Some(10));
    assert_eq!(value_of(&t, "MAIN", "missing"), None);
}

#[test]
fn restore_writes_every_present_variable() {
    let mut t = DefglobalTable {
        modules: vec!["MAIN".to_string(), "M2".to_string()],
        entries: vec![entry("MAIN", "x", 1), entry("M2", "x", 2)],
    };
    let snapshot = vec![
        ModuleGlobals { module: "M2".to_string(), globals: vec![("x".to_string(), CLIPSValue::Int(22))] },
        ModuleGlobals { module: "MAIN".to_string(), globals: vec![] },
    ];
    assert!(t.restore_globals(&snapshot).is_ok());
    assert_eq!(value_of(&t, "MAIN", "x"), Some(1));
    assert_eq!(value_of(&t, "M2", "x"), Some(22));
}

#[test]
fn snapshot_groups_by_module() {
    let t = DefglobalTable {
        modules: vec!["MAIN".to_string(), "EMPTY".to_string(), "M2".to_string()],
        entries: vec![entry("MAIN", "a", 1), entry("M2", "b", 2), entry("MAIN", "c", 3)],
    };
    let h = t.retrieve_globals_values();
    assert_eq!(h.len(), 3);
    assert_eq!(h[0].module, "MAIN");
    let names: Vec<&str> = h[0].globals.iter().map(|(n, _)| n.as_str()).collect();
    assert_eq!(names, vec!["a", "c"]);
    assert_eq!(h[1].module, "EMPTY");
    assert!(h[1].globals.is_empty());
    assert_eq!(h[2].globals.len(), 1);
    assert!(matches!(h[2].globals[0].1, CLIPSValue::Int(2)));
}
