use vstd::prelude::*;

use crate::node::mount::{mount_ids, mount_spec, mounted, mount_to_dom};
use crate::node::patch::{patch_node, patch_spec, patched};
use crate::node::{advance, DomOp, NodeId, Plan, VNode};

verus! {

/// Why the application could not mount or update.
#[derive(Clone, Copy, Debug, PartialEq, Eq, Structural)]
pub enum AppError {
    /// No element matches the mount point selector.
    MountPointNotFound,
    /// The application was updated before it was mounted.
    NotMounted,
}

impl AppError {
    /// The message that reports this error.
    pub fn message(&self) -> (m: &'static str)
        ensures
            m@ == match *self {
                AppError::MountPointNotFound => "mount point not found"@,
                AppError::NotMounted => "App not mounted"@,
            },
    {
        match self {
            AppError::MountPointNotFound => "mount point not found",
            AppError::NotMounted => "App not mounted",
        }
    }
}

/// The Rue application: where it is mounted and the VNode tree it last
/// rendered (used for diffing). The host renders the trees (through the
/// root render function or the component) and applies the planned changes.
pub struct App {
    selector: String,
    mount_element: Option<NodeId>,
    old_vnode: Option<VNode>,
}

impl App {
    /// The mount point selector (CSS selector).
    pub closed spec fn spec_selector(&self) -> Seq<char> {
        self.selector@
    }

    /// The mount point, once mounted.
    pub closed spec fn spec_mount_element(&self) -> Option<NodeId> {
        self.mount_element
    }

    /// The tree rendered last, once mounted.
    pub closed spec fn spec_old_vnode(&self) -> Option<VNode> {
        self.old_vnode
    }

    /// Create a new application for the mount point `selector`; nothing is
    /// mounted yet.
    pub fn new(selector: &str) -> (app: App)
        ensures
            app.spec_selector() == selector@,
            app.spec_mount_element() is None,
            app.spec_old_vnode() is None,
    {
        App { selector: String::from_str(selector), mount_element: None, old_vnode: None }
    }

    /// The mount point selector.
    pub fn selector(&self) -> (s: &String)
        ensures
            s@ == self.spec_selector(),
    {
        &self.selector
    }

    /// Mount the application: `mount_point` is the element the selector
    /// found (if any) and `vnode` the freshly rendered root tree. Plans
    /// clearing the mount point and mounting the tree into it, and keeps the
    /// tree for future updates. Fails when no mount point was found.
    pub fn mount(&mut self, mount_point: Option<NodeId>, vnode: VNode, plan: &mut Plan) -> (r: Result<(), AppError>)
        ensures
            match mount_point {
                None => {
                    &&& r == Err::<(), AppError>(AppError::MountPointNotFound)
                    &&& *final(self) == *old(self)
                    &&& *final(plan) == *old(plan)
                },
                Some(mp) => {
                    &&& r is Ok
                    &&& final(plan).ops@ == old(plan).ops@ + seq![DomOp::ClearChildren { node: mp }] + mount_spec(
                        vnode,
                        mp,
                        None,
                        false,
                        old(plan).next_id,
                    ).0
                    &&& final(plan).next_id == advance(old(plan).next_id, mount_ids(vnode))
                    &&& final(self).spec_selector() == old(self).spec_selector()
                    &&& final(self).spec_mount_element() == Some(mp)
                    &&& final(self).spec_old_vnode() matches Some(t) && mounted(vnode, t, false, old(plan).next_id)
                },
            },
    {
        let mp = match mount_point {
            Some(mp) => mp,
            None => return Err(AppError::MountPointNotFound),
        };
        // Clear the mount point
        plan.ops.push(DomOp::ClearChildren { node: mp });
        // Render the root VNode into it
        let mut tree = vnode;
        let _ = mount_to_dom(&mut tree, mp, None, plan);
        // Store state for future updates
        self.mount_element = Some(mp);
        self.old_vnode = Some(tree);
        Ok(())
    }

    /// Update the application with the freshly rendered tree `new_vnode`:
    /// plans patching the previous tree into it (or mounting it, when there
    /// is no previous tree) and keeps it for the next update. Fails when the
    /// application is not mounted. (The host first asks the component
    /// whether to update at all.)
    pub fn update(&mut self, new_vnode: VNode, plan: &mut Plan) -> (r: Result<(), AppError>)
        ensures
            match old(self).spec_mount_element() {
                None => {
                    &&& r == Err::<(), AppError>(AppError::NotMounted)
                    &&& *final(self) == *old(self)
                    &&& *final(plan) == *old(plan)
                },
                Some(mp) => {
                    &&& r is Ok
                    &&& final(self).spec_selector() == old(self).spec_selector()
                    &&& final(self).spec_mount_element() == Some(mp)
                    &&& match old(self).spec_old_vnode() {
                        Some(o) => {
                            &&& final(plan).ops@ == old(plan).ops@ + patch_spec(o, new_vnode, mp, None, old(plan).next_id).0
                            &&& final(plan).next_id == patch_spec(o, new_vnode, mp, None, old(plan).next_id).1
                            &&& final(self).spec_old_vnode() matches Some(t) && patched(
                                o,
                                new_vnode,
                                t,
                                mp,
                                None,
                                old(plan).next_id,
                            )
                        },
                        None => {
                            &&& final(plan).ops@ == old(plan).ops@ + mount_spec(new_vnode, mp, None, false, old(plan).next_id).0
                            &&& final(plan).next_id == advance(old(plan).next_id, mount_ids(new_vnode))
                            &&& final(self).spec_old_vnode() matches Some(t) && mounted(new_vnode, t, false, old(plan).next_id)
                        },
                    }
                },
            },
    {
        let mp = match self.mount_element {
            Some(mp) => mp,
            None => return Err(AppError::NotMounted),
        };
        let mut tree = new_vnode;
        match &self.old_vnode {
            // If we have a previous tree, patch in place
            Some(old_tree) => {
                let _ = patch_node(old_tree, &mut tree, mp, None, plan);
            },
            // No previous tree — mount fresh
            None => {
                let _ = mount_to_dom(&mut tree, mp, None, plan);
            },
        }
        // Store the new tree for the next diff
        self.old_vnode = Some(tree);
        Ok(())
    }

    /// Get the mount element, if mounted.
    pub fn mount_element(&self) -> (m: Option<NodeId>)
        ensures
            m == self.spec_mount_element(),
    {
        self.mount_element
    }
}

} // verus!
