use vstd::prelude::*;

use crate::auth::permission::Permission;
use crate::text::text_eq;

verus! {

broadcast use vstd::string::group_string_axioms;

/// Which roles hold which permissions.
pub struct PolicyStore {
    role_permissions: Vec<(String, Vec<Permission>)>,
}

impl View for PolicyStore {
    type V = Set<(Seq<char>, Permission)>;

    /// Every (role, permission) pair that was granted.
    closed spec fn view(&self) -> Set<(Seq<char>, Permission)> {
        Set::new(
            |x: (Seq<char>, Permission)|
                exists|i: int, j: int|
                    0 <= i < self.role_permissions@.len() && self.role_permissions@[i].0@ == x.0
                        && 0 <= j < self.role_permissions@[i].1@.len()
                        && self.role_permissions@[i].1@[j] == x.1,
        )
    }
}

/// The grants that give each permission of `perms` to `role`.
pub open spec fn role_grants(role: Seq<char>, perms: Seq<Permission>) -> Set<(Seq<char>, Permission)> {
    Set::new(|x: (Seq<char>, Permission)| x.0 == role && perms.contains(x.1))
}

impl PolicyStore {
    /// No role holds any permission.
    pub fn new() -> (r: Self)
        ensures
            r@ == Set::<(Seq<char>, Permission)>::empty(),
    {
        let r = PolicyStore { role_permissions: Vec::new() };
        assert(r@ =~= Set::<(Seq<char>, Permission)>::empty());
        r
    }

    /// Gives `permission` to `role`.
    pub fn grant(&mut self, role: &str, permission: Permission)
        ensures
            final(self)@ == old(self)@.insert((role@, permission)),
    {
        let ghost before = self@;
        let n = self.role_permissions.len();
        let mut i: usize = 0;
        while i < n
            invariant
                i <= n,
                n == self.role_permissions@.len(),
                self@ == before,
                before == old(self)@,
                forall|k: int| 0 <= k < i ==> self.role_permissions@[k].0@ != role@,
            decreases n - i,
        {
            if text_eq(self.role_permissions[i].0.as_str(), role) {
                let ghost old_entries = self.role_permissions@;
                let mut entry = self.role_permissions.remove(i);
                entry.1.push(permission);
                self.role_permissions.insert(i, entry);
                proof {
                    let now = self.role_permissions@;
                    assert(now == old_entries.update(i as int, now[i as int]));
                    assert forall|x: (Seq<char>, Permission)| self@.contains(x) <==> before.insert((role@, permission)).contains(x) by {
                        if self@.contains(x) {
                            let (a, b) = choose|a: int, b: int|
                                0 <= a < now.len() && now[a].0@ == x.0 && 0 <= b < now[a].1@.len() && now[a].1@[b] == x.1;
                            if a != i || b < old_entries[i as int].1@.len() {
                                assert(old_entries[a].0@ == x.0);
                                assert(old_entries[a].1@[b] == x.1);
                            }
                        }
                        if before.contains(x) {
                            let (a, b) = choose|a: int, b: int|
                                0 <= a < old_entries.len() && old_entries[a].0@ == x.0 && 0 <= b < old_entries[a].1@.len()
                                    && old_entries[a].1@[b] == x.1;
                            assert(now[a].1@[b] == x.1);
                        }
                        if x == (role@, permission) {
                            assert(now[i as int].1@[now[i as int].1@.len() - 1] == x.1);
                        }
                    }
                    assert(self@ =~= before.insert((role@, permission)));
                }
                return ;
            }
            i += 1;
        }
        let ghost old_entries = self.role_permissions@;
        let mut perms: Vec<Permission> = Vec::new();
        perms.push(permission);
        self.role_permissions.push((role.to_string(), perms));
        proof {
            let now = self.role_permissions@;
            assert forall|x: (Seq<char>, Permission)| self@.contains(x) <==> before.insert((role@, permission)).contains(x) by {
                if self@.contains(x) {
                    let (a, b) = choose|a: int, b: int|
                        0 <= a < now.len() && now[a].0@ == x.0 && 0 <= b < now[a].1@.len() && now[a].1@[b] == x.1;
                    if a < n {
                        assert(old_entries[a].1@[b] == x.1);
                    }
                }
                if before.contains(x) {
                    let (a, b) = choose|a: int, b: int|
                        0 <= a < old_entries.len() && old_entries[a].0@ == x.0 && 0 <= b < old_entries[a].1@.len()
                            && old_entries[a].1@[b] == x.1;
                    assert(now[a] == old_entries[a]);
                }
                if x == (role@, permission) {
                    assert(now[n as int].1@[0] == x.1);
                }
            }
            assert(self@ =~= before.insert((role@, permission)));
        }
    }

    /// Gives every permission of `permissions` to `role`.
    pub fn grant_many(&mut self, role: &str, permissions: &[Permission])
        ensures
            final(self)@ == old(self)@.union(role_grants(role@, permissions@)),
    {
        let mut i: usize = 0;
        while i < permissions.len()
            invariant
                i <= permissions.len(),
                self@ == old(self)@.union(
                    Set::new(|x: (Seq<char>, Permission)| x.0 == role@ && permissions@.subrange(0, i as int).contains(x.1)),
                ),
            decreases permissions.len() - i,
        {
            let ghost prev = self@;
            self.grant(role, permissions[i]);
            proof {
                assert(permissions@.subrange(0, i + 1) =~= permissions@.subrange(0, i as int).push(permissions@[i as int]));
                let pre = permissions@.subrange(0, i as int);
                let post = permissions@.subrange(0, i + 1);
                assert forall|x: (Seq<char>, Permission)| post.contains(x.1) <==> (pre.contains(x.1) || x.1 == permissions@[i as int]) by {
                    if post.contains(x.1) {
                        let k = choose|k: int| 0 <= k < post.len() && post[k] == x.1;
                        if k < i {
                            assert(pre[k] == x.1);
                        }
                    }
                    if pre.contains(x.1) {
                        let k = choose|k: int| 0 <= k < pre.len() && pre[k] == x.1;
                        assert(post[k] == x.1);
                    }
                    if x.1 == permissions@[i as int] {
                        assert(post[i as int] == x.1);
                    }
                }
                assert(self@ =~= old(self)@.union(
                    Set::new(|x: (Seq<char>, Permission)| x.0 == role@ && permissions@.subrange(0, i + 1).contains(x.1)),
                ));
            }
            i += 1;
        }
        assert(permissions@.subrange(0, permissions.len() as int) =~= permissions@);
        assert(self@ =~= old(self)@.union(role_grants(role@, permissions@)));
    }

    /// Whether `role` holds `permission`.
    pub fn role_has_permission(&self, role: &str, permission: &Permission) -> (r: bool)
        ensures
            r == self@.contains((role@, *permission)),
    {
        let n = self.role_permissions.len();
        let mut i: usize = 0;
        while i < n
            invariant
                i <= n,
                n == self.role_permissions@.len(),
                forall|a: int, b: int|
                    0 <= a < i && self.role_permissions@[a].0@ == role@ && 0 <= b < self.role_permissions@[a].1@.len()
                        ==> self.role_permissions@[a].1@[b] != *permission,
            decreases n - i,
        {
            if text_eq(self.role_permissions[i].0.as_str(), role) {
                let perms = &self.role_permissions[i].1;
                let mut j: usize = 0;
                while j < perms.len()
                    invariant
                        j <= perms.len(),
                        i < n,
                        n == self.role_permissions@.len(),
                        perms@ == self.role_permissions@[i as int].1@,
                        self.role_permissions@[i as int].0@ == role@,
                        forall|b: int| 0 <= b < j ==> perms@[b] != *permission,
                    decreases perms.len() - j,
                {
                    if perms[j] == *permission {
                        proof {
                            let x = (role@, *permission);
                            assert(0 <= i < self.role_permissions@.len() && self.role_permissions@[i as int].0@ == x.0
                                && 0 <= j < self.role_permissions@[i as int].1@.len()
                                && self.role_permissions@[i as int].1@[j as int] == x.1);
                            assert(self@.contains(x));
                        }
                        return true;
                    }
                    j += 1;
                }
            }
            i += 1;
        }
        false
    }
}

} // verus!

verus! {

/// A granted permission is held by the role from then on: granting adds the pair and takes
/// nothing away, and granting it again changes nothing.
pub proof fn lemma_grant_then_check(
    held: Set<(Seq<char>, Permission)>,
    role: Seq<char>,
    permission: Permission,
    other: (Seq<char>, Permission),
)
    ensures
        held.insert((role, permission)).contains((role, permission)),
        held.contains(other) ==> held.insert((role, permission)).contains(other),
        held.insert((role, permission)).insert((role, permission)) == held.insert((role, permission)),
        other != (role, permission) ==> held.insert((role, permission)).contains(other) == held.contains(other),
{
    assert(held.insert((role, permission)).insert((role, permission)) =~= held.insert((role, permission)));
}

/// Granting a list of permissions to a role makes the role hold each of them.
pub proof fn lemma_grant_many_then_check(
    held: Set<(Seq<char>, Permission)>,
    role: Seq<char>,
    permissions: Seq<Permission>,
    i: int,
)
    requires
        0 <= i < permissions.len(),
    ensures
        held.union(role_grants(role, permissions)).contains((role, permissions[i])),
{
    assert(permissions.contains(permissions[i]));
}

/// The grants of a sequence of `grant` calls from an empty store, in order: each adds its
/// pair.
pub open spec fn granted(gs: Seq<(Seq<char>, Permission)>) -> Set<(Seq<char>, Permission)>
    decreases gs.len(),
{
    if gs.len() == 0 {
        Set::empty()
    } else {
        granted(gs.drop_last()).insert(gs.last())
    }
}

/// After `PolicyStore::new` and the grants `gs` in order, a role holds a permission exactly
/// when one of the grants gave that permission to that role; a role never granted anything
/// holds nothing.
pub proof fn lemma_grants_then_check(gs: Seq<(Seq<char>, Permission)>, role: Seq<char>, permission: Permission)
    ensures
        granted(gs).contains((role, permission)) <==> gs.contains((role, permission)),
    decreases gs.len(),
{
    if gs.len() > 0 {
        let h = gs.drop_last();
        lemma_grants_then_check(h, role, permission);
        if h.contains((role, permission)) {
            let i = choose|i: int| 0 <= i < h.len() && h[i] == (role, permission);
            assert(gs[i] == (role, permission));
        }
        if gs.contains((role, permission)) && gs.last() != (role, permission) {
            let i = choose|i: int| 0 <= i < gs.len() && gs[i] == (role, permission);
            assert(h[i] == (role, permission));
        }
        if gs.last() == (role, permission) {
            assert(gs[gs.len() - 1] == (role, permission));
        }
    }
}

} // verus!
