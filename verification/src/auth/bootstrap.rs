use vstd::prelude::*;

use crate::auth::permission::Permission;
use crate::auth::policy::{role_grants, PolicyStore};

verus! {

/// What the `admin` role may do: everything.
pub open spec fn admin_permissions() -> Seq<Permission> {
    seq![
        Permission::Search,
        Permission::Retrieve,
        Permission::Lookup,
        Permission::Insert,
        Permission::Upsert,
        Permission::Delete,
        Permission::Status,
        Permission::Replace,
        Permission::ClearDB,
        Permission::GetLogs,
        Permission::ClearLogs,
        Permission::AllFields,
        Permission::CreateDatabase,
        Permission::DeleteDatabase,
        Permission::ListDatabases,
        Permission::RenameDatabase,
        Permission::StartDB,
        Permission::StopDB,
        Permission::RestartDB,
        Permission::GetPolicy,
        Permission::SetPolicy,
        Permission::GetConfig,
        Permission::SetConfig,
        Permission::Reindex,
        Permission::CreateUser,
        Permission::DeleteUser,
        Permission::UpdatePwd,
        Permission::UpdateRole,
        Permission::ListUsers,
        Permission::BackupFull,
        Permission::Restore,
        Permission::BackupIncremental,
        Permission::ListBackups,
        Permission::Backup,
    ]
}

/// What the `architect` role may do: manage databases, policies and configuration.
pub open spec fn architect_permissions() -> Seq<Permission> {
    seq![
        Permission::Search,
        Permission::Retrieve,
        Permission::Lookup,
        Permission::Status,
        Permission::CreateDatabase,
        Permission::DeleteDatabase,
        Permission::ListDatabases,
        Permission::RenameDatabase,
        Permission::StartDB,
        Permission::StopDB,
        Permission::RestartDB,
        Permission::GetPolicy,
        Permission::SetPolicy,
        Permission::GetConfig,
        Permission::SetConfig,
        Permission::Reindex,
        Permission::AllFields,
    ]
}

/// What the `viewer` role may do: read.
pub open spec fn viewer_permissions() -> Seq<Permission> {
    seq![Permission::Search, Permission::Retrieve, Permission::Lookup]
}

/// What the `editor` role may do: read and write data.
pub open spec fn editor_permissions() -> Seq<Permission> {
    seq![
        Permission::Search,
        Permission::Retrieve,
        Permission::Lookup,
        Permission::Insert,
        Permission::Upsert,
        Permission::Delete,
        Permission::Replace,
        Permission::Status,
        Permission::AllFields,
    ]
}

/// Every grant of the built-in roles.
pub open spec fn default_grants() -> Set<(Seq<char>, Permission)> {
    role_grants("admin"@, admin_permissions())
        .union(role_grants("architect"@, architect_permissions()))
        .union(role_grants("viewer"@, viewer_permissions()))
        .union(role_grants("editor"@, editor_permissions()))
}

/// The policy with the built-in roles `admin`, `architect`, `viewer` and `editor`.
pub fn default_policy() -> (r: PolicyStore)
    ensures
        r@ == default_grants(),
{
    let mut policy = PolicyStore::new();
    let admin = [
        Permission::Search,
        Permission::Retrieve,
        Permission::Lookup,
        Permission::Insert,
        Permission::Upsert,
        Permission::Delete,
        Permission::Status,
        Permission::Replace,
        Permission::ClearDB,
        Permission::GetLogs,
        Permission::ClearLogs,
        Permission::AllFields,
        Permission::CreateDatabase,
        Permission::DeleteDatabase,
        Permission::ListDatabases,
        Permission::RenameDatabase,
        Permission::StartDB,
        Permission::StopDB,
        Permission::RestartDB,
        Permission::GetPolicy,
        Permission::SetPolicy,
        Permission::GetConfig,
        Permission::SetConfig,
        Permission::Reindex,
        Permission::CreateUser,
        Permission::DeleteUser,
        Permission::UpdatePwd,
        Permission::UpdateRole,
        Permission::ListUsers,
        Permission::BackupFull,
        Permission::Restore,
        Permission::BackupIncremental,
        Permission::ListBackups,
        Permission::Backup,
    ];
    assert(admin@ =~= admin_permissions());
    policy.grant_many("admin", &admin);
    let architect = [
        Permission::Search,
        Permission::Retrieve,
        Permission::Lookup,
        Permission::Status,
        Permission::CreateDatabase,
        Permission::DeleteDatabase,
        Permission::ListDatabases,
        Permission::RenameDatabase,
        Permission::StartDB,
        Permission::StopDB,
        Permission::RestartDB,
        Permission::GetPolicy,
        Permission::SetPolicy,
        Permission::GetConfig,
        Permission::SetConfig,
        Permission::Reindex,
        Permission::AllFields,
    ];
    assert(architect@ =~= architect_permissions());
    policy.grant_many("architect", &architect);
    let viewer = [Permission::Search, Permission::Retrieve, Permission::Lookup];
    assert(viewer@ =~= viewer_permissions());
    policy.grant_many("viewer", &viewer);
    let editor = [
        Permission::Search,
        Permission::Retrieve,
        Permission::Lookup,
        Permission::Insert,
        Permission::Upsert,
        Permission::Delete,
        Permission::Replace,
        Permission::Status,
        Permission::AllFields,
    ];
    assert(editor@ =~= editor_permissions());
    policy.grant_many("editor", &editor);
    assert(policy@ =~= default_grants());
    policy
}

/// The four built-in role names differ.
proof fn lemma_role_names_distinct()
    ensures
        "viewer"@ != "admin"@,
        "viewer"@ != "architect"@,
        "viewer"@ != "editor"@,
        "editor"@ != "admin"@,
        "editor"@ != "architect"@,
        "admin"@ != "architect"@,
{
    reveal_strlit("viewer");
    reveal_strlit("admin");
    reveal_strlit("architect");
    reveal_strlit("editor");
    assert("viewer"@.len() == 6);
    assert("editor"@.len() == 6);
    assert("admin"@.len() == 5);
    assert("architect"@.len() == 9);
    assert("viewer"@[0] == 'v' && "editor"@[0] == 'e');
}

/// The built-in `viewer` role may only read: it holds exactly Search, Retrieve and Lookup.
pub proof fn lemma_viewer_read_only(p: Permission)
    ensures
        default_grants().contains(("viewer"@, p)) <==> (p == Permission::Search || p == Permission::Retrieve || p
            == Permission::Lookup),
{
    lemma_role_names_distinct();
    if p == Permission::Search || p == Permission::Retrieve || p == Permission::Lookup {
        assert(viewer_permissions().contains(p)) by {
            if p == Permission::Search {
                assert(viewer_permissions()[0] == p);
            } else if p == Permission::Retrieve {
                assert(viewer_permissions()[1] == p);
            } else {
                assert(viewer_permissions()[2] == p);
            }
        }
    }
}

/// Of the built-in roles only `admin` manages users: no other role may create, delete or
/// list users or change their roles or passwords.
pub proof fn lemma_only_admin_manages_users(role: Seq<char>, p: Permission)
    requires
        p == Permission::CreateUser || p == Permission::DeleteUser || p == Permission::UpdateRole || p
            == Permission::UpdatePwd || p == Permission::ListUsers,
    ensures
        default_grants().contains((role, p)) <==> role == "admin"@,
{
    if role == "admin"@ {
        let a = admin_permissions();
        if p == Permission::CreateUser {
            assert(a[24] == p);
        } else if p == Permission::DeleteUser {
            assert(a[25] == p);
        } else if p == Permission::UpdatePwd {
            assert(a[26] == p);
        } else if p == Permission::UpdateRole {
            assert(a[27] == p);
        } else {
            assert(a[28] == p);
        }
        assert(a.contains(p));
    } else {
        assert(!architect_permissions().contains(p));
        assert(!viewer_permissions().contains(p));
        assert(!editor_permissions().contains(p));
    }
}

/// The `editor` role may read and write documents but not manage databases, policies,
/// configuration, users or backups.
pub proof fn lemma_editor_writes_data(p: Permission)
    ensures
        default_grants().contains(("editor"@, p)) <==> (p == Permission::Search || p == Permission::Retrieve || p
            == Permission::Lookup || p == Permission::Insert || p == Permission::Upsert || p == Permission::Delete
            || p == Permission::Replace || p == Permission::Status || p == Permission::AllFields),
{
    lemma_role_names_distinct();
    let e = editor_permissions();
    if p == Permission::Search {
        assert(e[0] == p);
    } else if p == Permission::Retrieve {
        assert(e[1] == p);
    } else if p == Permission::Lookup {
        assert(e[2] == p);
    } else if p == Permission::Insert {
        assert(e[3] == p);
    } else if p == Permission::Upsert {
        assert(e[4] == p);
    } else if p == Permission::Delete {
        assert(e[5] == p);
    } else if p == Permission::Replace {
        assert(e[6] == p);
    } else if p == Permission::Status {
        assert(e[7] == p);
    } else if p == Permission::AllFields {
        assert(e[8] == p);
    }
}

/// The `admin` role may do everything but the three commands `ListDatabase`, `PostPolicy` and
/// `ChangeID`, which no built-in role holds.
pub proof fn lemma_admin_grants(p: Permission)
    ensures
        default_grants().contains(("admin"@, p)) <==> (p != Permission::ListDatabase && p != Permission::PostPolicy && p
            != Permission::ChangeID),
        (p == Permission::ListDatabase || p == Permission::PostPolicy || p == Permission::ChangeID) ==> forall|role: Seq<char>|
            !#[trigger] default_grants().contains((role, p)),
{
    lemma_role_names_distinct();
    let a = admin_permissions();
    if p == Permission::Search {
        assert(a[0] == p);
    } else if p == Permission::Retrieve {
        assert(a[1] == p);
    } else if p == Permission::Lookup {
        assert(a[2] == p);
    } else if p == Permission::Insert {
        assert(a[3] == p);
    } else if p == Permission::Upsert {
        assert(a[4] == p);
    } else if p == Permission::Delete {
        assert(a[5] == p);
    } else if p == Permission::Status {
        assert(a[6] == p);
    } else if p == Permission::Replace {
        assert(a[7] == p);
    } else if p == Permission::ClearDB {
        assert(a[8] == p);
    } else if p == Permission::GetLogs {
        assert(a[9] == p);
    } else if p == Permission::ClearLogs {
        assert(a[10] == p);
    } else if p == Permission::AllFields {
        assert(a[11] == p);
    } else if p == Permission::CreateDatabase {
        assert(a[12] == p);
    } else if p == Permission::DeleteDatabase {
        assert(a[13] == p);
    } else if p == Permission::ListDatabases {
        assert(a[14] == p);
    } else if p == Permission::RenameDatabase {
        assert(a[15] == p);
    } else if p == Permission::StartDB {
        assert(a[16] == p);
    } else if p == Permission::StopDB {
        assert(a[17] == p);
    } else if p == Permission::RestartDB {
        assert(a[18] == p);
    } else if p == Permission::GetPolicy {
        assert(a[19] == p);
    } else if p == Permission::SetPolicy {
        assert(a[20] == p);
    } else if p == Permission::GetConfig {
        assert(a[21] == p);
    } else if p == Permission::SetConfig {
        assert(a[22] == p);
    } else if p == Permission::Reindex {
        assert(a[23] == p);
    } else if p == Permission::CreateUser {
        assert(a[24] == p);
    } else if p == Permission::DeleteUser {
        assert(a[25] == p);
    } else if p == Permission::UpdatePwd {
        assert(a[26] == p);
    } else if p == Permission::UpdateRole {
        assert(a[27] == p);
    } else if p == Permission::ListUsers {
        assert(a[28] == p);
    } else if p == Permission::BackupFull {
        assert(a[29] == p);
    } else if p == Permission::Restore {
        assert(a[30] == p);
    } else if p == Permission::BackupIncremental {
        assert(a[31] == p);
    } else if p == Permission::ListBackups {
        assert(a[32] == p);
    } else if p == Permission::Backup {
        assert(a[33] == p);
    }
}

/// The `architect` role manages databases, policies and configuration, and may read, but may
/// not change documents, manage users or handle backups.
pub proof fn lemma_architect_grants(p: Permission)
    ensures
        default_grants().contains(("architect"@, p)) <==> (p == Permission::Search || p == Permission::Retrieve || p == Permission::Lookup || p == Permission::Status || p == Permission::CreateDatabase || p == Permission::DeleteDatabase || p == Permission::ListDatabases || p == Permission::RenameDatabase || p == Permission::StartDB || p == Permission::StopDB || p == Permission::RestartDB || p == Permission::GetPolicy || p == Permission::SetPolicy || p == Permission::GetConfig || p == Permission::SetConfig || p == Permission::Reindex || p == Permission::AllFields),
{
    lemma_role_names_distinct();
    let a = architect_permissions();
    if p == Permission::Search {
        assert(a[0] == p);
    } else if p == Permission::Retrieve {
        assert(a[1] == p);
    } else if p == Permission::Lookup {
        assert(a[2] == p);
    } else if p == Permission::Status {
        assert(a[3] == p);
    } else if p == Permission::CreateDatabase {
        assert(a[4] == p);
    } else if p == Permission::DeleteDatabase {
        assert(a[5] == p);
    } else if p == Permission::ListDatabases {
        assert(a[6] == p);
    } else if p == Permission::RenameDatabase {
        assert(a[7] == p);
    } else if p == Permission::StartDB {
        assert(a[8] == p);
    } else if p == Permission::StopDB {
        assert(a[9] == p);
    } else if p == Permission::RestartDB {
        assert(a[10] == p);
    } else if p == Permission::GetPolicy {
        assert(a[11] == p);
    } else if p == Permission::SetPolicy {
        assert(a[12] == p);
    } else if p == Permission::GetConfig {
        assert(a[13] == p);
    } else if p == Permission::SetConfig {
        assert(a[14] == p);
    } else if p == Permission::Reindex {
        assert(a[15] == p);
    } else if p == Permission::AllFields {
        assert(a[16] == p);
    }
}

/// Every built-in role may read: search, retrieve and look up documents.
pub proof fn lemma_every_role_reads(role: Seq<char>, p: Permission)
    requires
        role == "admin"@ || role == "architect"@ || role == "viewer"@ || role == "editor"@,
        p == Permission::Search || p == Permission::Retrieve || p == Permission::Lookup,
    ensures
        default_grants().contains((role, p)),
{
    lemma_role_names_distinct();
    if role == "viewer"@ {
        lemma_viewer_read_only(p);
    } else if role == "editor"@ {
        lemma_editor_writes_data(p);
    } else if role == "architect"@ {
        lemma_architect_grants(p);
    } else {
        lemma_admin_grants(p);
    }
}

} // verus!
