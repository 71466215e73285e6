//! Whether a principal may do something, as the roles it acts in allow.

use vstd::prelude::*;

use crate::auth::error::AuthError;
use crate::auth::permission::{permission_named, Permission};
use crate::auth::policy::PolicyStore;
use crate::auth::principal::Principal;
use crate::text::text_eq;

verus! {

broadcast use vstd::string::group_string_axioms;

/// The name of a permission, as it is written in messages.
pub open spec fn permission_label(p: Permission) -> Seq<char> {
    match p {
        Permission::Search => "Search"@,
        Permission::Retrieve => "Retrieve"@,
        Permission::Lookup => "Lookup"@,
        Permission::Insert => "Insert"@,
        Permission::Upsert => "Upsert"@,
        Permission::Delete => "Delete"@,
        Permission::Status => "Status"@,
        Permission::Replace => "Replace"@,
        Permission::ClearDB => "ClearDB"@,
        Permission::GetLogs => "GetLogs"@,
        Permission::ClearLogs => "ClearLogs"@,
        Permission::AllFields => "AllFields"@,
        Permission::CreateDatabase => "CreateDatabase"@,
        Permission::DeleteDatabase => "DeleteDatabase"@,
        Permission::ListDatabase => "ListDatabase"@,
        Permission::ListDatabases => "ListDatabases"@,
        Permission::RenameDatabase => "RenameDatabase"@,
        Permission::StartDB => "StartDB"@,
        Permission::StopDB => "StopDB"@,
        Permission::RestartDB => "RestartDB"@,
        Permission::ChangeID => "ChangeID"@,
        Permission::GetPolicy => "GetPolicy"@,
        Permission::PostPolicy => "PostPolicy"@,
        Permission::SetPolicy => "SetPolicy"@,
        Permission::GetConfig => "GetConfig"@,
        Permission::SetConfig => "SetConfig"@,
        Permission::Reindex => "Reindex"@,
        Permission::CreateUser => "CreateUser"@,
        Permission::DeleteUser => "DeleteUser"@,
        Permission::UpdateRole => "UpdateRole"@,
        Permission::UpdatePwd => "UpdatePwd"@,
        Permission::ListUsers => "ListUsers"@,
        Permission::BackupFull => "BackupFull"@,
        Permission::BackupIncremental => "BackupIncremental"@,
        Permission::Restore => "Restore"@,
        Permission::ListBackups => "ListBackups"@,
        Permission::Backup => "Backup"@,
    }
}

impl Permission {
    /// The name of the permission, as it is written in messages.
    pub fn label(&self) -> (r: &'static str)
        ensures
            r@ == permission_label(*self),
    {
        match self {
            Permission::Search => "Search",
            Permission::Retrieve => "Retrieve",
            Permission::Lookup => "Lookup",
            Permission::Insert => "Insert",
            Permission::Upsert => "Upsert",
            Permission::Delete => "Delete",
            Permission::Status => "Status",
            Permission::Replace => "Replace",
            Permission::ClearDB => "ClearDB",
            Permission::GetLogs => "GetLogs",
            Permission::ClearLogs => "ClearLogs",
            Permission::AllFields => "AllFields",
            Permission::CreateDatabase => "CreateDatabase",
            Permission::DeleteDatabase => "DeleteDatabase",
            Permission::ListDatabase => "ListDatabase",
            Permission::ListDatabases => "ListDatabases",
            Permission::RenameDatabase => "RenameDatabase",
            Permission::StartDB => "StartDB",
            Permission::StopDB => "StopDB",
            Permission::RestartDB => "RestartDB",
            Permission::ChangeID => "ChangeID",
            Permission::GetPolicy => "GetPolicy",
            Permission::PostPolicy => "PostPolicy",
            Permission::SetPolicy => "SetPolicy",
            Permission::GetConfig => "GetConfig",
            Permission::SetConfig => "SetConfig",
            Permission::Reindex => "Reindex",
            Permission::CreateUser => "CreateUser",
            Permission::DeleteUser => "DeleteUser",
            Permission::UpdateRole => "UpdateRole",
            Permission::UpdatePwd => "UpdatePwd",
            Permission::ListUsers => "ListUsers",
            Permission::BackupFull => "BackupFull",
            Permission::BackupIncremental => "BackupIncremental",
            Permission::Restore => "Restore",
            Permission::ListBackups => "ListBackups",
            Permission::Backup => "Backup",
        }
    }
}

/// Whether one of the roles of `principal` is granted `permission` in `held`.
pub open spec fn allowed(held: Set<(Seq<char>, Permission)>, principal: Principal, permission: Permission) -> bool {
    exists|i: int| 0 <= i < principal.roles@.len() && held.contains((#[trigger] principal.roles@[i]@, permission))
}

/// Whether one of the roles of `principal` is granted `permission` by `policy`.
pub fn allows(policy: &PolicyStore, principal: &Principal, permission: Permission) -> (r: bool)
    ensures
        r == allowed(policy@, *principal, permission),
{
    let mut i: usize = 0;
    while i < principal.roles.len()
        invariant
            i <= principal.roles@.len(),
            forall|k: int| 0 <= k < i ==> !policy@.contains((#[trigger] principal.roles@[k]@, permission)),
        decreases principal.roles@.len() - i,
    {
        if policy.role_has_permission(principal.roles[i].as_str(), &permission) {
            return true;
        }
        i += 1;
    }
    false
}

/// Lets the request through when a role of `principal` is granted `permission`; otherwise
/// refuses it, naming the user and the permission.
pub fn check(policy: &PolicyStore, principal: &Principal, permission: Permission) -> (r: Result<(), AuthError>)
    ensures
        r is Ok <==> allowed(policy@, *principal, permission),
        r matches Err(e) ==> e matches AuthError::PermissionDenied { user, permission: p } && user@ == principal.id.0@
            && p@ == permission_label(permission),
{
    if allows(policy, principal, permission) {
        Ok(())
    } else {
        Err(
            AuthError::PermissionDenied {
                user: principal.id.0.clone(),
                permission: permission.label().to_string(),
            },
        )
    }
}

/// Whether `requester` may set the password of `username`: always its own, anyone's with the
/// permission to update passwords.
pub fn check_password_change(policy: &PolicyStore, requester: &Principal, username: &str) -> (r: Result<(), AuthError>)
    ensures
        r is Ok <==> (requester.id.0@ == username@ || allowed(policy@, *requester, Permission::UpdatePwd)),
        r matches Err(e) ==> e matches AuthError::PermissionDenied { user, permission: p } && user@ == requester.id.0@
            && p@ == permission_label(Permission::UpdatePwd),
{
    if text_eq(requester.id.0.as_str(), username) {
        return Ok(());
    }
    check(policy, requester, Permission::UpdatePwd)
}

/// A command name stands for the permission of the same name (the one alias: `DeleteLogs`
/// stands for `ClearLogs`), so a role granted a permission is let through exactly the command
/// of that name.
pub proof fn lemma_command_names_its_permission(s: Seq<char>, p: Permission)
    requires
        permission_named(s) == Some(p),
    ensures
        s == permission_label(p) || (s == "DeleteLogs"@ && p == Permission::ClearLogs),
{
}

/// Every permission that a command stands for is reached by the command of its own name.
#[verifier::rlimit(60)]
pub proof fn lemma_permission_has_its_command(p: Permission)
    requires
        p == Permission::Search || p == Permission::Retrieve || p == Permission::Insert || p == Permission::Delete || p == Permission::Lookup || p == Permission::CreateDatabase || p == Permission::ListDatabase || p == Permission::DeleteDatabase || p == Permission::Status || p == Permission::Reindex || p == Permission::GetPolicy || p == Permission::PostPolicy || p == Permission::ChangeID || p == Permission::CreateUser || p == Permission::DeleteUser || p == Permission::UpdateRole || p == Permission::UpdatePwd || p == Permission::Replace || p == Permission::GetConfig || p == Permission::SetConfig || p == Permission::StartDB || p == Permission::StopDB || p == Permission::RestartDB,
    ensures
        permission_named(permission_label(p)) == Some(p),
{
    reveal_strlit("Search");
    assert("Search"@.len() == 6 && "Search"@[0] == 'S' && "Search"@[1] == 'e' && "Search"@[2] == 'a' && "Search"@[3] == 'r' && "Search"@[4] == 'c' && "Search"@[5] == 'h');
    reveal_strlit("Retrieve");
    assert("Retrieve"@.len() == 8 && "Retrieve"@[0] == 'R' && "Retrieve"@[1] == 'e' && "Retrieve"@[2] == 't' && "Retrieve"@[3] == 'r' && "Retrieve"@[4] == 'i' && "Retrieve"@[5] == 'e' && "Retrieve"@[6] == 'v' && "Retrieve"@[7] == 'e');
    reveal_strlit("Insert");
    assert("Insert"@.len() == 6 && "Insert"@[0] == 'I' && "Insert"@[1] == 'n' && "Insert"@[2] == 's' && "Insert"@[3] == 'e' && "Insert"@[4] == 'r' && "Insert"@[5] == 't');
    reveal_strlit("Delete");
    assert("Delete"@.len() == 6 && "Delete"@[0] == 'D' && "Delete"@[1] == 'e' && "Delete"@[2] == 'l' && "Delete"@[3] == 'e' && "Delete"@[4] == 't' && "Delete"@[5] == 'e');
    reveal_strlit("Lookup");
    assert("Lookup"@.len() == 6 && "Lookup"@[0] == 'L' && "Lookup"@[1] == 'o' && "Lookup"@[2] == 'o' && "Lookup"@[3] == 'k' && "Lookup"@[4] == 'u' && "Lookup"@[5] == 'p');
    reveal_strlit("CreateDatabase");
    assert("CreateDatabase"@.len() == 14 && "CreateDatabase"@[0] == 'C' && "CreateDatabase"@[1] == 'r' && "CreateDatabase"@[2] == 'e' && "CreateDatabase"@[3] == 'a' && "CreateDatabase"@[4] == 't' && "CreateDatabase"@[5] == 'e' && "CreateDatabase"@[6] == 'D' && "CreateDatabase"@[7] == 'a' && "CreateDatabase"@[8] == 't' && "CreateDatabase"@[9] == 'a' && "CreateDatabase"@[10] == 'b' && "CreateDatabase"@[11] == 'a' && "CreateDatabase"@[12] == 's' && "CreateDatabase"@[13] == 'e');
    reveal_strlit("ListDatabase");
    assert("ListDatabase"@.len() == 12 && "ListDatabase"@[0] == 'L' && "ListDatabase"@[1] == 'i' && "ListDatabase"@[2] == 's' && "ListDatabase"@[3] == 't' && "ListDatabase"@[4] == 'D' && "ListDatabase"@[5] == 'a' && "ListDatabase"@[6] == 't' && "ListDatabase"@[7] == 'a' && "ListDatabase"@[8] == 'b' && "ListDatabase"@[9] == 'a' && "ListDatabase"@[10] == 's' && "ListDatabase"@[11] == 'e');
    reveal_strlit("DeleteDatabase");
    assert("DeleteDatabase"@.len() == 14 && "DeleteDatabase"@[0] == 'D' && "DeleteDatabase"@[1] == 'e' && "DeleteDatabase"@[2] == 'l' && "DeleteDatabase"@[3] == 'e' && "DeleteDatabase"@[4] == 't' && "DeleteDatabase"@[5] == 'e' && "DeleteDatabase"@[6] == 'D' && "DeleteDatabase"@[7] == 'a' && "DeleteDatabase"@[8] == 't' && "DeleteDatabase"@[9] == 'a' && "DeleteDatabase"@[10] == 'b' && "DeleteDatabase"@[11] == 'a' && "DeleteDatabase"@[12] == 's' && "DeleteDatabase"@[13] == 'e');
    reveal_strlit("DeleteLogs");
    assert("DeleteLogs"@.len() == 10 && "DeleteLogs"@[0] == 'D' && "DeleteLogs"@[1] == 'e' && "DeleteLogs"@[2] == 'l' && "DeleteLogs"@[3] == 'e' && "DeleteLogs"@[4] == 't' && "DeleteLogs"@[5] == 'e' && "DeleteLogs"@[6] == 'L' && "DeleteLogs"@[7] == 'o' && "DeleteLogs"@[8] == 'g' && "DeleteLogs"@[9] == 's');
    reveal_strlit("Status");
    assert("Status"@.len() == 6 && "Status"@[0] == 'S' && "Status"@[1] == 't' && "Status"@[2] == 'a' && "Status"@[3] == 't' && "Status"@[4] == 'u' && "Status"@[5] == 's');
    reveal_strlit("Reindex");
    assert("Reindex"@.len() == 7 && "Reindex"@[0] == 'R' && "Reindex"@[1] == 'e' && "Reindex"@[2] == 'i' && "Reindex"@[3] == 'n' && "Reindex"@[4] == 'd' && "Reindex"@[5] == 'e' && "Reindex"@[6] == 'x');
    reveal_strlit("GetPolicy");
    assert("GetPolicy"@.len() == 9 && "GetPolicy"@[0] == 'G' && "GetPolicy"@[1] == 'e' && "GetPolicy"@[2] == 't' && "GetPolicy"@[3] == 'P' && "GetPolicy"@[4] == 'o' && "GetPolicy"@[5] == 'l' && "GetPolicy"@[6] == 'i' && "GetPolicy"@[7] == 'c' && "GetPolicy"@[8] == 'y');
    reveal_strlit("PostPolicy");
    assert("PostPolicy"@.len() == 10 && "PostPolicy"@[0] == 'P' && "PostPolicy"@[1] == 'o' && "PostPolicy"@[2] == 's' && "PostPolicy"@[3] == 't' && "PostPolicy"@[4] == 'P' && "PostPolicy"@[5] == 'o' && "PostPolicy"@[6] == 'l' && "PostPolicy"@[7] == 'i' && "PostPolicy"@[8] == 'c' && "PostPolicy"@[9] == 'y');
    reveal_strlit("ChangeID");
    assert("ChangeID"@.len() == 8 && "ChangeID"@[0] == 'C' && "ChangeID"@[1] == 'h' && "ChangeID"@[2] == 'a' && "ChangeID"@[3] == 'n' && "ChangeID"@[4] == 'g' && "ChangeID"@[5] == 'e' && "ChangeID"@[6] == 'I' && "ChangeID"@[7] == 'D');
    reveal_strlit("CreateUser");
    assert("CreateUser"@.len() == 10 && "CreateUser"@[0] == 'C' && "CreateUser"@[1] == 'r' && "CreateUser"@[2] == 'e' && "CreateUser"@[3] == 'a' && "CreateUser"@[4] == 't' && "CreateUser"@[5] == 'e' && "CreateUser"@[6] == 'U' && "CreateUser"@[7] == 's' && "CreateUser"@[8] == 'e' && "CreateUser"@[9] == 'r');
    reveal_strlit("DeleteUser");
    assert("DeleteUser"@.len() == 10 && "DeleteUser"@[0] == 'D' && "DeleteUser"@[1] == 'e' && "DeleteUser"@[2] == 'l' && "DeleteUser"@[3] == 'e' && "DeleteUser"@[4] == 't' && "DeleteUser"@[5] == 'e' && "DeleteUser"@[6] == 'U' && "DeleteUser"@[7] == 's' && "DeleteUser"@[8] == 'e' && "DeleteUser"@[9] == 'r');
    reveal_strlit("UpdateRole");
    assert("UpdateRole"@.len() == 10 && "UpdateRole"@[0] == 'U' && "UpdateRole"@[1] == 'p' && "UpdateRole"@[2] == 'd' && "UpdateRole"@[3] == 'a' && "UpdateRole"@[4] == 't' && "UpdateRole"@[5] == 'e' && "UpdateRole"@[6] == 'R' && "UpdateRole"@[7] == 'o' && "UpdateRole"@[8] == 'l' && "UpdateRole"@[9] == 'e');
    reveal_strlit("UpdatePwd");
    assert("UpdatePwd"@.len() == 9 && "UpdatePwd"@[0] == 'U' && "UpdatePwd"@[1] == 'p' && "UpdatePwd"@[2] == 'd' && "UpdatePwd"@[3] == 'a' && "UpdatePwd"@[4] == 't' && "UpdatePwd"@[5] == 'e' && "UpdatePwd"@[6] == 'P' && "UpdatePwd"@[7] == 'w' && "UpdatePwd"@[8] == 'd');
    reveal_strlit("Replace");
    assert("Replace"@.len() == 7 && "Replace"@[0] == 'R' && "Replace"@[1] == 'e' && "Replace"@[2] == 'p' && "Replace"@[3] == 'l' && "Replace"@[4] == 'a' && "Replace"@[5] == 'c' && "Replace"@[6] == 'e');
    reveal_strlit("GetConfig");
    assert("GetConfig"@.len() == 9 && "GetConfig"@[0] == 'G' && "GetConfig"@[1] == 'e' && "GetConfig"@[2] == 't' && "GetConfig"@[3] == 'C' && "GetConfig"@[4] == 'o' && "GetConfig"@[5] == 'n' && "GetConfig"@[6] == 'f' && "GetConfig"@[7] == 'i' && "GetConfig"@[8] == 'g');
    reveal_strlit("SetConfig");
    assert("SetConfig"@.len() == 9 && "SetConfig"@[0] == 'S' && "SetConfig"@[1] == 'e' && "SetConfig"@[2] == 't' && "SetConfig"@[3] == 'C' && "SetConfig"@[4] == 'o' && "SetConfig"@[5] == 'n' && "SetConfig"@[6] == 'f' && "SetConfig"@[7] == 'i' && "SetConfig"@[8] == 'g');
    reveal_strlit("StartDB");
    assert("StartDB"@.len() == 7 && "StartDB"@[0] == 'S' && "StartDB"@[1] == 't' && "StartDB"@[2] == 'a' && "StartDB"@[3] == 'r' && "StartDB"@[4] == 't' && "StartDB"@[5] == 'D' && "StartDB"@[6] == 'B');
    reveal_strlit("StopDB");
    assert("StopDB"@.len() == 6 && "StopDB"@[0] == 'S' && "StopDB"@[1] == 't' && "StopDB"@[2] == 'o' && "StopDB"@[3] == 'p' && "StopDB"@[4] == 'D' && "StopDB"@[5] == 'B');
    reveal_strlit("RestartDB");
    assert("RestartDB"@.len() == 9 && "RestartDB"@[0] == 'R' && "RestartDB"@[1] == 'e' && "RestartDB"@[2] == 's' && "RestartDB"@[3] == 't' && "RestartDB"@[4] == 'a' && "RestartDB"@[5] == 'r' && "RestartDB"@[6] == 't' && "RestartDB"@[7] == 'D' && "RestartDB"@[8] == 'B');
}

} // verus!
