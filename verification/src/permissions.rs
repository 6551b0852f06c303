use crate::text::{first_index, lemma_first_index_is};
use vstd::prelude::*;
use vstd::string::*;

verus! {

/// What a user may do.
#[derive(Debug, Clone, Copy, PartialEq, Eq, Structural)]
pub enum PermissionLevel {
    Admin,
    User,
}

impl PermissionLevel {
    /// The weight of a level: a level permits what weighs no more than itself.
    pub open spec fn rank(self) -> int {
        match self {
            PermissionLevel::Admin => 100,
            PermissionLevel::User => 10,
        }
    }

    /// Whether one level permits what asks for another.
    pub open spec fn allows(self, other: PermissionLevel) -> bool {
        self.rank() >= other.rank()
    }

    fn weight(&self) -> (w: i32)
        ensures
            w == self.rank(),
    {
        match self {
            PermissionLevel::Admin => 100,
            PermissionLevel::User => 10,
        }
    }

    /// Whether this level permits an action that asks for `other`.
    pub fn permits(&self, other: PermissionLevel) -> (yes: bool)
        ensures
            yes == self.allows(other),
    {
        self.weight() >= other.weight()
    }

    /// The level that permits everything.
    pub fn highest() -> (level: PermissionLevel)
        ensures
            level == PermissionLevel::Admin,
            forall|other: PermissionLevel| level.allows(other),
    {
        PermissionLevel::Admin
    }

    /// The level that every level permits.
    pub fn lowest() -> (level: PermissionLevel)
        ensures
            level == PermissionLevel::User,
            forall|other: PermissionLevel| other.allows(level),
    {
        PermissionLevel::User
    }
}

/// The levels are totally ordered by what they permit.
pub proof fn lemma_levels_ordered(a: PermissionLevel, b: PermissionLevel, c: PermissionLevel)
    ensures
        a.allows(a),
        a.allows(b) || b.allows(a),
        a.allows(b) && b.allows(a) ==> a == b,
        a.allows(b) && b.allows(c) ==> a.allows(c),
        PermissionLevel::Admin.allows(PermissionLevel::User),
        !PermissionLevel::User.allows(PermissionLevel::Admin),
{
}

/// The users in the list, in order.
pub open spec fn listed_users(entries: Seq<(String, PermissionLevel)>) -> Seq<Seq<char>> {
    Seq::new(entries.len(), |i: int| entries[i].0@)
}

/// The level of a user by a list: that of the first entry for the user,
/// the lowest level for a user who is not listed.
pub open spec fn level_of(entries: Seq<(String, PermissionLevel)>, user: Seq<char>) -> PermissionLevel {
    let i = first_index(listed_users(entries), user);
    if 0 <= i < entries.len() {
        entries[i].1
    } else {
        PermissionLevel::User
    }
}

/// Who has which level.
pub struct PermissionList {
    permissions: Vec<(String, PermissionLevel)>,
}

impl View for PermissionList {
    type V = Seq<(String, PermissionLevel)>;

    closed spec fn view(&self) -> Seq<(String, PermissionLevel)> {
        self.permissions@
    }
}

impl PermissionList {
    /// The list with the given entries.
    pub fn new(permissions: Vec<(String, PermissionLevel)>) -> (list: PermissionList)
        ensures
            list@ == permissions@,
    {
        PermissionList { permissions }
    }

    /// The level of a user.
    pub fn get(&self, key: &str) -> (level: PermissionLevel)
        ensures
            level == level_of(self@, key@),
    {
        let n = self.permissions.len();
        let mut i: usize = 0;
        while i < n && !(*self.permissions[i].0.as_str() == *key)
            invariant
                n == self.permissions.len(),
                i <= n,
                forall|j: int| 0 <= j < i ==> self.permissions@[j].0@ != key@,
            decreases n - i,
        {
            i = i + 1;
        }
        proof {
            lemma_first_index_is(listed_users(self@), key@, i as int);
        }
        if i < n {
            self.permissions[i].1
        } else {
            PermissionLevel::lowest()
        }
    }
}

} // verus!
