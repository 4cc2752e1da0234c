use vstd::prelude::*;

verus! {

/// The handles that may hold an identity.
#[derive(Debug, Clone, Copy, PartialEq, Eq, Structural)]
pub enum UserName {
    Alice,
    Bob,
}

impl UserName {
    pub open spec fn label(self) -> Seq<char> {
        match self {
            UserName::Alice => seq!['A', 'l', 'i', 'c', 'e'],
            UserName::Bob => seq!['B', 'o', 'b'],
        }
    }

    /// The handle as it is shown.
    pub fn as_str(&self) -> (r: &'static str)
        ensures
            r@ == self.label(),
    {
        match self {
            UserName::Alice => {
                let r = "Alice";
                proof {
                    reveal_strlit("Alice");
                }
                assert(r@ =~= self.label());
                r
            },
            UserName::Bob => {
                let r = "Bob";
                proof {
                    reveal_strlit("Bob");
                }
                assert(r@ =~= self.label());
                r
            },
        }
    }
}

/// Key material that an identity holds, as opaque bytes.
pub struct IdentityKey {
    pub user: UserName,
    pub id: Vec<u8>,
    pub public_key: Vec<u8>,
    pub private_key: Vec<u8>,
}

pub struct KeyModel {
    pub user: UserName,
    pub id: Seq<u8>,
    pub public_key: Seq<u8>,
    pub private_key: Seq<u8>,
}

impl View for IdentityKey {
    type V = KeyModel;

    open spec fn view(&self) -> KeyModel {
        KeyModel {
            user: self.user,
            id: self.id@,
            public_key: self.public_key@,
            private_key: self.private_key@,
        }
    }
}

/// A sequence of distinct handles holds at most two, one of each.
pub proof fn lemma_distinct_users_at_most_two(s: Seq<UserName>)
    requires
        s.no_duplicates(),
    ensures
        s.len() <= 2,
        s.len() == 2 ==> forall|u: UserName| s.contains(u),
{
    if s.len() >= 3 {
        assert(s[0] != s[1] && s[0] != s[2] && s[1] != s[2]);
    }
    if s.len() == 2 {
        assert forall|u: UserName| s.contains(u) by {
            assert(s[0] != s[1]);
            if u == s[0] {
                assert(s.contains(u));
            } else {
                assert(u == s[1]);
                assert(s.contains(u));
            }
        }
    }
}

} // verus!
