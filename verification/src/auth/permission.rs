use vstd::prelude::*;

use crate::text::text_eq;

verus! {

/// An operation that a role may be allowed to perform.
#[derive(Debug, Clone, Copy, PartialEq, Eq, Hash, Structural)]
pub enum Permission {
    // basic
    Search,
    Retrieve,
    Lookup,
    Insert,
    Upsert,
    Delete,
    Status,
    Replace,
    ClearDB,
    GetLogs,
    ClearLogs,
    AllFields,
    // databases
    CreateDatabase,
    DeleteDatabase,
    ListDatabase,
    ListDatabases,
    RenameDatabase,
    StartDB,
    StopDB,
    RestartDB,
    // config/policy
    ChangeID,
    GetPolicy,
    PostPolicy,
    SetPolicy,
    GetConfig,
    SetConfig,
    Reindex,
    // users
    CreateUser,
    DeleteUser,
    UpdateRole,
    UpdatePwd,
    ListUsers,
    // backup
    BackupFull,
    BackupIncremental,
    Restore,
    ListBackups,
    Backup,
}

/// The permission a command name stands for.
pub open spec fn permission_named(s: Seq<char>) -> Option<Permission> {
    if s == "Search"@ {
        Some(Permission::Search)
    } else if s == "Retrieve"@ {
        Some(Permission::Retrieve)
    } else if s == "Insert"@ {
        Some(Permission::Insert)
    } else if s == "Delete"@ {
        Some(Permission::Delete)
    } else if s == "Lookup"@ {
        Some(Permission::Lookup)
    } else if s == "CreateDatabase"@ {
        Some(Permission::CreateDatabase)
    } else if s == "ListDatabase"@ {
        Some(Permission::ListDatabase)
    } else if s == "DeleteDatabase"@ {
        Some(Permission::DeleteDatabase)
    } else if s == "DeleteLogs"@ {
        Some(Permission::ClearLogs)
    } else if s == "Status"@ {
        Some(Permission::Status)
    } else if s == "Reindex"@ {
        Some(Permission::Reindex)
    } else if s == "GetPolicy"@ {
        Some(Permission::GetPolicy)
    } else if s == "PostPolicy"@ {
        Some(Permission::PostPolicy)
    } else if s == "ChangeID"@ {
        Some(Permission::ChangeID)
    } else if s == "CreateUser"@ {
        Some(Permission::CreateUser)
    } else if s == "DeleteUser"@ {
        Some(Permission::DeleteUser)
    } else if s == "UpdateRole"@ {
        Some(Permission::UpdateRole)
    } else if s == "UpdatePwd"@ {
        Some(Permission::UpdatePwd)
    } else if s == "Replace"@ {
        Some(Permission::Replace)
    } else if s == "GetConfig"@ {
        Some(Permission::GetConfig)
    } else if s == "SetConfig"@ {
        Some(Permission::SetConfig)
    } else if s == "StartDB"@ {
        Some(Permission::StartDB)
    } else if s == "StopDB"@ {
        Some(Permission::StopDB)
    } else if s == "RestartDB"@ {
        Some(Permission::RestartDB)
    } else {
        None
    }
}

impl Permission {
    /// The permission a command name stands for, if it names one.
    pub fn command_str(s: &str) -> (r: Option<Self>)
        ensures
            r == permission_named(s@),
    {
        if text_eq(s, "Search") {
            Some(Permission::Search)
        } else if text_eq(s, "Retrieve") {
            Some(Permission::Retrieve)
        } else if text_eq(s, "Insert") {
            Some(Permission::Insert)
        } else if text_eq(s, "Delete") {
            Some(Permission::Delete)
        } else if text_eq(s, "Lookup") {
            Some(Permission::Lookup)
        } else if text_eq(s, "CreateDatabase") {
            Some(Permission::CreateDatabase)
        } else if text_eq(s, "ListDatabase") {
            Some(Permission::ListDatabase)
        } else if text_eq(s, "DeleteDatabase") {
            Some(Permission::DeleteDatabase)
        } else if text_eq(s, "DeleteLogs") {
            Some(Permission::ClearLogs)
        } else if text_eq(s, "Status") {
            Some(Permission::Status)
        } else if text_eq(s, "Reindex") {
            Some(Permission::Reindex)
        } else if text_eq(s, "GetPolicy") {
            Some(Permission::GetPolicy)
        } else if text_eq(s, "PostPolicy") {
            Some(Permission::PostPolicy)
        } else if text_eq(s, "ChangeID") {
            Some(Permission::ChangeID)
        } else if text_eq(s, "CreateUser") {
            Some(Permission::CreateUser)
        } else if text_eq(s, "DeleteUser") {
            Some(Permission::DeleteUser)
        } else if text_eq(s, "UpdateRole") {
            Some(Permission::UpdateRole)
        } else if text_eq(s, "UpdatePwd") {
            Some(Permission::UpdatePwd)
        } else if text_eq(s, "Replace") {
            Some(Permission::Replace)
        } else if text_eq(s, "GetConfig") {
            Some(Permission::GetConfig)
        } else if text_eq(s, "SetConfig") {
            Some(Permission::SetConfig)
        } else if text_eq(s, "StartDB") {
            Some(Permission::StartDB)
        } else if text_eq(s, "StopDB") {
            Some(Permission::StopDB)
        } else if text_eq(s, "RestartDB") {
            Some(Permission::RestartDB)
        } else {
            None
        }
    }
}

} // verus!
