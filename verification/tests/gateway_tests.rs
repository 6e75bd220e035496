use helix_db::gateway::{CoreSetter, GatewayOpts};

#[test]
fn default_workers_per_core() {
    assert_eq!(GatewayOpts::DEFAULT_WORKERS_PER_CORE, 5);
}

#[test]
fn num_threads_is_cores_times_threads() {
    assert_eq!(CoreSetter::new(vec![0, 1, 2, 3], 5).num_threads(), 20);
    assert_eq!(CoreSetter::new(vec![0, 1, 2, 3], 1).num_threads(), 4);
    assert_eq!(CoreSetter::new(Vec::new(), 5).num_threads(), 0);
    assert_eq!(CoreSetter::new(vec![7], 0).num_threads(), 0);
}

#[test]
fn threads_fill_the_cores_in_order() {
    let setter = CoreSetter::new(vec![10, 11, 12], 2);
    let got: Vec<Option<usize>> = (0..8).map(|i| setter.core_for(i)).collect();
    assert_eq!(
        got,
        vec![Some(10), Some(10), Some(11), Some(11), Some(12), Some(12), None, None]
    );
}

#[test]
fn one_thread_per_core() {
    let setter = CoreSetter::new(vec![3, 1], 1);
    assert_eq!(setter.core_for(0), Some(3));
    assert_eq!(setter.core_for(1), Some(1));
    assert_eq!(setter.core_for(2), None);
    assert_eq!(setter.core_for(usize::MAX), None);
}

#[test]
fn no_cores_no_assignment() {
    let setter = CoreSetter::new(Vec::new(), 4);
    assert_eq!(setter.core_for(0), None);
}
