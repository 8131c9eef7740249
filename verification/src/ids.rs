//! Plain numeric identities of the runtime's objects.
use vstd::prelude::*;

verus! {

/// Identifies one agent session.
#[derive(Debug, Clone, Copy, PartialEq, Eq, PartialOrd, Ord, Hash, Structural)]
pub struct SessionId(pub u64);

/// Identifies one workspace.
#[derive(Debug, Clone, Copy, PartialEq, Eq, PartialOrd, Ord, Hash, Structural)]
pub struct WorkspaceId(pub u64);

/// Identifies one task of a session.
#[derive(Debug, Clone, Copy, PartialEq, Eq, PartialOrd, Ord, Hash, Structural)]
pub struct TaskId(pub u64);

/// Identifies one worktree of a repository.
#[derive(Debug, Clone, Copy, PartialEq, Eq, PartialOrd, Ord, Hash, Structural)]
pub struct WorktreeId(pub u64);

impl SessionId {
    pub fn new(raw: u64) -> (r: Self)
        ensures
            r.0 == raw,
    {
        SessionId(raw)
    }

    pub fn raw(&self) -> (r: u64)
        ensures
            r == self.0,
    {
        self.0
    }
}

impl WorkspaceId {
    pub fn new(raw: u64) -> (r: Self)
        ensures
            r.0 == raw,
    {
        WorkspaceId(raw)
    }

    pub fn raw(&self) -> (r: u64)
        ensures
            r == self.0,
    {
        self.0
    }
}

impl TaskId {
    pub fn new(raw: u64) -> (r: Self)
        ensures
            r.0 == raw,
    {
        TaskId(raw)
    }

    pub fn raw(&self) -> (r: u64)
        ensures
            r == self.0,
    {
        self.0
    }
}

impl WorktreeId {
    pub fn new(raw: u64) -> (r: Self)
        ensures
            r.0 == raw,
    {
        WorktreeId(raw)
    }

    pub fn raw(&self) -> (r: u64)
        ensures
            r == self.0,
    {
        self.0
    }
}

} // verus!
