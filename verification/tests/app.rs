use rue_core::app::{App, AppError};
use rue_core::node::{DomOp, Plan, VNode};

fn counter(n: &str) -> VNode {
    VNode::element("p").text(n).build()
}

#[test]
fn new_app_is_not_mounted() {
    let app = App::new("#app");
    assert_eq!(app.selector(), "#app");
    assert_eq!(app.mount_element(), None);
}

#[test]
fn mount_without_a_mount_point_fails() {
    let mut app = App::new("#missing");
    let mut plan = Plan::new(100);
    assert_eq!(app.mount(None, counter("0"), &mut plan), Err(AppError::MountPointNotFound));
    assert!(plan.ops.is_empty());
    assert_eq!(plan.next_id, 100);
    assert_eq!(app.mount_element(), None);
}

#[test]
fn update_before_mount_fails() {
    let mut app = App::new("#app");
    let mut plan = Plan::new(100);
    assert_eq!(app.update(counter("1"), &mut plan), Err(AppError::NotMounted));
    assert!(plan.ops.is_empty());
}

#[test]
fn mount_clears_the_mount_point_then_mounts() {
    let mut app = App::new("#app");
    let mut plan = Plan::new(100);
    assert_eq!(app.mount(Some(1), counter("0"), &mut plan), Ok(()));
    assert_eq!(
        plan.ops,
        vec![
            DomOp::ClearChildren { node: 1 },
            DomOp::CreateElement { node: 100, tag: "p".to_string(), svg: false },
            DomOp::CreateText { node: 101, text: "0".to_string() },
            DomOp::AppendChild { parent: 100, child: 101 },
            DomOp::AppendChild { parent: 1, child: 100 },
        ]
    );
    assert_eq!(app.mount_element(), Some(1));
}

#[test]
fn update_patches_only_what_changed() {
    let mut app = App::new("#app");
    let mut plan = Plan::new(100);
    app.mount(Some(1), counter("0"), &mut plan).unwrap();
    let mut plan = Plan::new(plan.next_id);
    assert_eq!(app.update(counter("1"), &mut plan), Ok(()));
    assert_eq!(plan.ops, vec![DomOp::SetText { node: 101, text: "1".to_string() }]);
    // A second update diffs against the tree the first one kept.
    let mut plan = Plan::new(plan.next_id);
    app.update(counter("1"), &mut plan).unwrap();
    assert!(plan.ops.is_empty());
    let mut plan = Plan::new(plan.next_id);
    app.update(counter("2"), &mut plan).unwrap();
    assert_eq!(plan.ops, vec![DomOp::SetText { node: 101, text: "2".to_string() }]);
}

#[test]
fn app_error_messages() {
    assert_eq!(AppError::MountPointNotFound.message(), "mount point not found");
    assert_eq!(AppError::NotMounted.message(), "App not mounted");
}
