use scaffolding::settings::{Settings, StackSize, Timeout};

#[test]
fn get_or_default_returns_documented_defaults_stably() {
    let settings = Settings::new();
    let first: StackSize = settings.get_or_default::<StackSize>();
    let second: StackSize = settings.get_or_default::<StackSize>();
    assert_eq!(first.0, 10485760, "the worker stack defaults to 10 MiB");
    assert_eq!(second.0, 10485760, "repeated lookups agree");
    let t1: Timeout = settings.get_or_default::<Timeout>();
    let t2: Timeout = settings.get_or_default::<Timeout>();
    assert_eq!(t1.0, 2345, "the execution timeout defaults to 2345 ms");
    assert_eq!(t2.0, 2345);
}

#[test]
fn get_returns_only_what_was_set() {
    let settings = Settings::new();
    assert!(settings.get::<StackSize>().is_none());
    assert!(settings.get::<Timeout>().is_some(), "a fresh store holds the timeout default");
}

#[test]
fn insert_overwrites_per_kind() {
    let mut settings = Settings::new();
    settings.insert(Timeout(500));
    assert_eq!(settings.get_or_default::<Timeout>().0, 500);
    settings.insert(Timeout(900));
    assert_eq!(settings.get_or_default::<Timeout>().0, 900);
    settings.insert(StackSize(4096));
    assert_eq!(settings.get_or_default::<StackSize>().0, 4096);
    assert_eq!(settings.get_or_default::<Timeout>().0, 900, "other kinds are untouched");
}

#[test]
fn clone_duplicates_the_snapshot() {
    let mut parent = Settings::new();
    parent.insert(Timeout(100));
    let mut child = parent.clone();
    child.insert(Timeout(7));
    assert_eq!(child.get_or_default::<Timeout>().0, 7);
    assert_eq!(parent.get_or_default::<Timeout>().0, 100, "the parent snapshot is unaffected");
}

#[test]
fn insert_raw_keys_by_kind_identity() {
    let mut settings = Settings::new();
    settings.insert_raw(scaffolding::settings::TIMEOUT_KIND, 42);
    assert_eq!(settings.get_or_default::<Timeout>().0, 42);
}
