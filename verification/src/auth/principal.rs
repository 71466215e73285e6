use vstd::prelude::*;

use crate::text::text_eq;

verus! {

broadcast use vstd::string::group_string_axioms;

/// The name a user logs in with.
#[derive(Debug, Clone)]
pub struct UserId(pub String);

/// A user together with the roles it acts in.
#[derive(Debug, Clone)]
pub struct Principal {
    pub id: UserId,
    /// Each role once.
    pub roles: Vec<String>,
}

impl Principal {
    /// The names of the principal's roles.
    pub open spec fn role_names(&self) -> Set<Seq<char>> {
        Set::new(|r: Seq<char>| exists|i: int| 0 <= i < self.roles@.len() && self.roles@[i]@ == r)
    }

    /// No role names twice.
    pub open spec fn wf(&self) -> bool {
        forall|i: int, j: int|
            0 <= i < j < self.roles@.len() ==> self.roles@[i]@ != self.roles@[j]@
    }

    /// A principal named `id` with no role.
    pub fn new(id: &str) -> (r: Self)
        ensures
            r.id.0@ == id@,
            r.role_names() == Set::<Seq<char>>::empty(),
            r.wf(),
    {
        let r = Principal { id: UserId(id.to_string()), roles: Vec::new() };
        assert(r.role_names() =~= Set::<Seq<char>>::empty());
        r
    }

    /// The same principal, acting in `role` too.
    pub fn with_role(self, role: &str) -> (r: Self)
        requires
            self.wf(),
        ensures
            r.id == self.id,
            r.role_names() == self.role_names().insert(role@),
            r.wf(),
    {
        let mut this = self;
        let mut i: usize = 0;
        while i < this.roles.len()
            invariant
                i <= this.roles.len(),
                this == self,
                self.wf(),
                forall|k: int| 0 <= k < i ==> this.roles@[k]@ != role@,
            decreases this.roles.len() - i,
        {
            if text_eq(this.roles[i].as_str(), role) {
                assert(this.role_names() =~= self.role_names().insert(role@));
                return this;
            }
            i += 1;
        }
        let ghost before = this.roles@;
        this.roles.push(role.to_string());
        proof {
            assert forall|r: Seq<char>| this.role_names().contains(r) <==> self.role_names().insert(role@).contains(r) by {
                if this.role_names().contains(r) {
                    let k = choose|k: int| 0 <= k < this.roles@.len() && this.roles@[k]@ == r;
                    if k < before.len() {
                        assert(before[k]@ == r);
                    }
                }
                if self.role_names().contains(r) {
                    let k = choose|k: int| 0 <= k < before.len() && before[k]@ == r;
                    assert(this.roles@[k]@ == r);
                }
                if r == role@ {
                    assert(this.roles@[before.len() as int]@ == r);
                }
            }
            assert(this.role_names() =~= self.role_names().insert(role@));
        }
        this
    }
}

} // verus!
