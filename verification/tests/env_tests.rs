use mal::env::{Env, EnvStore};
use mal::printer::print_str;
use mal::types::Atom;

fn get(store: &EnvStore, env: usize, key: &str) -> Option<String> {
    Env::get(store, env, key).map(|a| print_str(&a, true))
}

#[test]
fn new_frames_are_numbered_in_order() {
    let mut store = EnvStore::new();
    assert_eq!(store.len(), 0);
    assert_eq!(Env::new(&mut store, None), 0);
    assert_eq!(Env::new(&mut store, Some(0)), 1);
    assert_eq!(store.len(), 2);
}

#[test]
fn get_after_set() {
    let mut store = EnvStore::new();
    let root = Env::new(&mut store, None);
    store.set(root, "a", Atom::Int(1));
    assert_eq!(get(&store, root, "a"), Some("1".to_string()));
    store.set(root, "a", Atom::Int(2));
    assert_eq!(get(&store, root, "a"), Some("2".to_string()));
    assert_eq!(get(&store, root, "b"), None);
}

#[test]
fn inner_frames_see_and_shadow_outer_ones() {
    let mut store = EnvStore::new();
    let root = Env::new(&mut store, None);
    store.set(root, "a", Atom::Int(1));
    let inner = Env::new(&mut store, Some(root));
    assert_eq!(get(&store, inner, "a"), Some("1".to_string()));
    store.set(inner, "a", Atom::Int(2));
    assert_eq!(get(&store, inner, "a"), Some("2".to_string()));
    assert_eq!(get(&store, root, "a"), Some("1".to_string()));
}

#[test]
fn lookup_in_missing_frame_finds_nothing() {
    let store = EnvStore::new();
    assert_eq!(get(&store, 3, "a"), None);
}

#[test]
fn binds_parameters_to_arguments() {
    let mut store = EnvStore::new();
    let root = Env::new(&mut store, None);
    let params = vec!["a".to_string(), "b".to_string()];
    let args = vec![Atom::Int(1), Atom::Int(2), Atom::Int(3)];
    let e = Env::new_with_binds(&mut store, Some(root), &params, &args);
    assert_eq!(e, 1);
    assert_eq!(get(&store, e, "a"), Some("1".to_string()));
    assert_eq!(get(&store, e, "b"), Some("2".to_string()));
}

#[test]
fn binds_rest_parameter_to_a_list() {
    let mut store = EnvStore::new();
    let params = vec!["a".to_string(), "&".to_string(), "rest".to_string()];
    let args = vec![Atom::Int(1), Atom::Int(2), Atom::Int(3)];
    let e = Env::new_with_binds(&mut store, None, &params, &args);
    assert_eq!(get(&store, e, "a"), Some("1".to_string()));
    assert_eq!(get(&store, e, "rest"), Some("(2 3)".to_string()));
    let one = vec![Atom::Int(1)];
    let f = Env::new_with_binds(&mut store, None, &params, &one);
    assert_eq!(get(&store, f, "rest"), Some("()".to_string()));
}
