use vstd::prelude::*;

use crate::entropy::{fresh_uuid, now_millis};
use crate::fresh::{make_unused, unused_value};
use crate::group::{AddOutcome, ChatError, ChatGroup, GroupModel, ReadMessage, bytes_equal, copy_bytes, tree_digest};
use crate::identity::{IdentityKey, KeyModel, UserName};

verus! {

/// Everything the application keeps: the active identity, the groups by
/// name, and the key material of each identity.
pub struct ChatState {
    pub current_user: Option<UserName>,
    pub groups: Vec<ChatGroup>,
    pub keys: Vec<IdentityKey>,
}

pub struct StateModel {
    pub current_user: Option<UserName>,
    pub groups: Seq<GroupModel>,
    pub keys: Seq<KeyModel>,
}

impl View for ChatState {
    type V = StateModel;

    open spec fn view(&self) -> StateModel {
        StateModel {
            current_user: self.current_user,
            groups: self.groups@.map_values(|g: ChatGroup| g@),
            keys: self.keys@.map_values(|k: IdentityKey| k@),
        }
    }
}

impl StateModel {
    pub open spec fn wf(self) -> bool {
        &&& forall|i: int| 0 <= i < self.groups.len() ==> (#[trigger] self.groups[i]).wf()
        &&& forall|i: int, j: int|
            0 <= i < j < self.groups.len() ==> #[trigger] self.groups[i].name != #[trigger] self.groups[j].name
        &&& forall|i: int, j: int|
            0 <= i < j < self.groups.len() ==> #[trigger] self.groups[i].group_id
                != #[trigger] self.groups[j].group_id
        &&& forall|i: int, j: int|
            0 <= i < j < self.keys.len() ==> #[trigger] self.keys[i].user != #[trigger] self.keys[j].user
    }

    pub open spec fn has_group(self, name: Seq<char>) -> bool {
        exists|i: int| 0 <= i < self.groups.len() && #[trigger] self.groups[i].name == name
    }

    /// Where the group named `name` stands, when there is one.
    pub open spec fn group_index(self, name: Seq<char>) -> int {
        choose|i: int| 0 <= i < self.groups.len() && #[trigger] self.groups[i].name == name
    }

    pub open spec fn group(self, name: Seq<char>) -> GroupModel {
        self.groups[self.group_index(name)]
    }

    pub open spec fn has_key(self, u: UserName) -> bool {
        exists|i: int| 0 <= i < self.keys.len() && #[trigger] self.keys[i].user == u
    }

    pub open spec fn key_index(self, u: UserName) -> int {
        choose|i: int| 0 <= i < self.keys.len() && #[trigger] self.keys[i].user == u
    }

    pub open spec fn group_ids(self) -> Seq<Seq<u8>> {
        self.groups.map_values(|g: GroupModel| g.group_id)
    }

    /// The active identity, when it holds key material.
    pub open spec fn ready_user(self) -> Option<UserName> {
        match self.current_user {
            Some(u) => if self.has_key(u) { Some(u) } else { None },
            None => None,
        }
    }

    /// The state once `k` is the key material of `k.user`, replacing any
    /// earlier, and `k.user` is active.
    pub open spec fn with_identity(self, k: KeyModel) -> StateModel {
        StateModel {
            current_user: Some(k.user),
            keys: if self.has_key(k.user) {
                self.keys.update(self.key_index(k.user), k)
            } else {
                self.keys.push(k)
            },
            ..self
        }
    }

    /// The group `name` that the active identity creates from the drawn
    /// values `id` and `secret`: its identifier is `id` made unused among the
    /// groups, its secret `secret` made non-empty.
    pub open spec fn fresh_group(self, name: Seq<char>, id: Seq<u8>, secret: Seq<u8>) -> GroupModel {
        GroupModel {
            name: name,
            group_id: unused_value(self.group_ids(), id),
            epoch: 1,
            secrets: seq![unused_value(Seq::empty(), secret)],
            tree_hash: tree_digest(1, seq![self.current_user->Some_0], unused_value(Seq::empty(), secret)),
            members: seq![self.current_user->Some_0],
            messages: Seq::empty(),
        }
    }

    pub open spec fn create_group_result(self, name: Seq<char>) -> Result<(), ChatError> {
        if self.ready_user() is None {
            Err(ChatError::NotInitialized)
        } else if self.has_group(name) {
            Err(ChatError::GroupExists)
        } else {
            Ok(())
        }
    }

    pub open spec fn add_member_result(self, name: Seq<char>, x: UserName) -> Result<AddOutcome, ChatError> {
        if self.current_user is None {
            Err(ChatError::NotInitialized)
        } else if !self.has_group(name) {
            Err(ChatError::GroupNotFound)
        } else if self.group(name).members.contains(x) {
            Ok(AddOutcome::AlreadyMember)
        } else if !self.has_key(x) {
            Err(ChatError::MemberNotInitialized)
        } else {
            Ok(AddOutcome::Added)
        }
    }

    pub open spec fn send_result(self, name: Seq<char>) -> Result<(), ChatError> {
        if self.current_user is None {
            Err(ChatError::NotInitialized)
        } else if !self.has_group(name) {
            Err(ChatError::GroupNotFound)
        } else if !self.group(name).members.contains(self.current_user->Some_0) {
            Err(ChatError::NotAMember)
        } else {
            Ok(())
        }
    }

    /// The state with the group named `name` replaced by `g`.
    pub open spec fn replace_group(self, name: Seq<char>, g: GroupModel) -> StateModel {
        StateModel { groups: self.groups.update(self.group_index(name), g), ..self }
    }
}

impl ChatState {
    /// A state with no identity, no group and no key material.
    pub fn new() -> (r: ChatState)
        ensures
            r@.wf(),
            r@.current_user is None,
            r@.groups.len() == 0,
            r@.keys.len() == 0,
    {
        ChatState { current_user: None, groups: Vec::new(), keys: Vec::new() }
    }

    /// Where the group named `name` stands.
    pub fn find_group(&self, name: &String) -> (r: Option<usize>)
        requires
            self@.wf(),
        ensures
            r is None <==> !self@.has_group(name@),
            r matches Some(i) ==> i == self@.group_index(name@) && i < self@.groups.len(),
    {
        let mut i: usize = 0;
        while i < self.groups.len()
            invariant
                self@.wf(),
                i <= self@.groups.len(),
                forall|j: int| 0 <= j < i ==> self@.groups[j].name != name@,
            decreases self@.groups.len() - i,
        {
            if self.groups[i].name == *name {
                assert(self@.groups[i as int].name == name@);
                let ghost c = self@.group_index(name@);
                assert(self@.groups[c].name == name@);
                assert(c == i) by {
                    if c < i {
                        assert(self@.groups[c].name != name@);
                    } else if c > i {
                        assert(self@.groups[i as int].name != self@.groups[c].name);
                    }
                }
                return Some(i);
            }
            i = i + 1;
        }
        None
    }

    /// Where the key material of `u` stands.
    pub fn find_key(&self, u: UserName) -> (r: Option<usize>)
        requires
            self@.wf(),
        ensures
            r is None <==> !self@.has_key(u),
            r matches Some(i) ==> i == self@.key_index(u) && i < self@.keys.len(),
    {
        let mut i: usize = 0;
        while i < self.keys.len()
            invariant
                self@.wf(),
                i <= self@.keys.len(),
                forall|j: int| 0 <= j < i ==> self@.keys[j].user != u,
            decreases self@.keys.len() - i,
        {
            if self.keys[i].user == u {
                assert(self@.keys[i as int].user == u);
                let ghost c = self@.key_index(u);
                assert(self@.keys[c].user == u);
                assert(c == i) by {
                    if c < i {
                        assert(self@.keys[c].user != u);
                    } else if c > i {
                        assert(self@.keys[i as int].user != self@.keys[c].user);
                    }
                }
                return Some(i);
            }
            i = i + 1;
        }
        None
    }

    fn group_ids(&self) -> (r: Vec<Vec<u8>>)
        ensures
            r@.map_values(|v: Vec<u8>| v@) == self@.group_ids(),
    {
        let mut r: Vec<Vec<u8>> = Vec::new();
        let mut i: usize = 0;
        while i < self.groups.len()
            invariant
                i <= self@.groups.len(),
                r@.len() == i,
                forall|j: int| 0 <= j < i ==> #[trigger] r@[j]@ == self@.groups[j].group_id,
            decreases self@.groups.len() - i,
        {
            assert(self@.groups[i as int] == self.groups@[i as int]@);
            r.push(copy_bytes(&self.groups[i].group_id));
            i = i + 1;
        }
        assert(r@.map_values(|v: Vec<u8>| v@) =~= self@.group_ids());
        r
    }

    /// Makes `user` the active identity with the given key material,
    /// replacing what it held before.
    pub fn init_user_with(&mut self, user: UserName, id: Vec<u8>, public_key: Vec<u8>, private_key: Vec<u8>)
        requires
            old(self)@.wf(),
        ensures
            final(self)@.wf(),
            final(self)@ == old(self)@.with_identity(
                KeyModel { user, id: id@, public_key: public_key@, private_key: private_key@ },
            ),
            final(self)@.has_key(user),
            forall|u: UserName| old(self)@.has_key(u) ==> #[trigger] final(self)@.has_key(u),
    {
        let ghost pre = self@;
        let k = IdentityKey { user, id, public_key, private_key };
        let ghost km = k@;
        match self.find_key(user) {
            Some(i) => {
                self.keys.set(i, k);
                assert(self@.keys =~= pre.keys.update(i as int, km));
            },
            None => {
                self.keys.push(k);
                assert(self@.keys =~= pre.keys.push(km));
                assert forall|i: int, j: int| 0 <= i < j < self@.keys.len() implies #[trigger] self@.keys[i].user
                    != #[trigger] self@.keys[j].user by {
                    if j == pre.keys.len() {
                        assert(pre.keys[i].user != user);
                    }
                }
            },
        }
        self.current_user = Some(user);
        assert(self@.groups =~= pre.groups);
        proof {
            let post = self@;
            let i = if pre.has_key(user) { pre.key_index(user) } else { pre.keys.len() as int };
            assert(post.keys[i].user == user);
            assert forall|u: UserName| pre.has_key(u) implies #[trigger] post.has_key(u) by {
                let j = choose|j: int| 0 <= j < pre.keys.len() && #[trigger] pre.keys[j].user == u;
                if j == i {
                    assert(post.keys[i].user == user);
                    assert(u == user);
                } else {
                    assert(post.keys[j] == pre.keys[j]);
                }
            }
        }
    }

    /// Makes `user` the active identity under freshly drawn key material.
    pub fn init_user(&mut self, user: UserName)
        requires
            old(self)@.wf(),
        ensures
            final(self)@.wf(),
            final(self)@.current_user == Some(user),
            final(self)@.has_key(user),
            final(self)@.groups == old(self)@.groups,
            forall|u: UserName| old(self)@.has_key(u) ==> #[trigger] final(self)@.has_key(u),
            exists|id: Seq<u8>, public_key: Seq<u8>, private_key: Seq<u8>|
                #![trigger old(self)@.with_identity(KeyModel { user, id, public_key, private_key })]
                final(self)@ == old(self)@.with_identity(KeyModel { user, id, public_key, private_key }),
    {
        let ghost pre = self@;
        let id = fresh_uuid();
        let public_key = fresh_uuid();
        let private_key = fresh_uuid();
        let ghost km = KeyModel { user, id: id@, public_key: public_key@, private_key: private_key@ };
        self.init_user_with(user, id, public_key, private_key);
        assert(self@ == pre.with_identity(km));
        proof {
            let s = self@;
            let i = if pre.has_key(user) { pre.key_index(user) } else { pre.keys.len() as int };
            assert(s.keys[i].user == user);
        }
    }

    /// Creates the group `name` with the active identity as its only member,
    /// at epoch 1, from the drawn identifier `group_id` and secret `secret`.
    /// A group of that name that already exists stays as it is.
    pub fn create_group_with(&mut self, name: String, group_id: Vec<u8>, secret: Vec<u8>) -> (r: Result<(), ChatError>)
        requires
            old(self)@.wf(),
        ensures
            final(self)@.wf(),
            r == old(self)@.create_group_result(name@),
            r is Err ==> final(self)@ == old(self)@,
            r is Ok ==> final(self)@ == (StateModel {
                groups: old(self)@.groups.push(old(self)@.fresh_group(name@, group_id@, secret@)),
                ..old(self)@
            }),
    {
        let user = match self.current_user {
            Some(u) => u,
            None => {
                return Err(ChatError::NotInitialized);
            },
        };
        if self.find_key(user).is_none() {
            return Err(ChatError::NotInitialized);
        }
        if self.find_group(&name).is_some() {
            return Err(ChatError::GroupExists);
        }
        let ghost pre = self@;
        let ghost gm = pre.fresh_group(name@, group_id@, secret@);
        let taken = self.group_ids();
        let group_id = make_unused(&taken, group_id);
        let no_secrets: Vec<Vec<u8>> = Vec::new();
        assert(no_secrets@.map_values(|v: Vec<u8>| v@) =~= Seq::<Seq<u8>>::empty());
        let secret = make_unused(&no_secrets, secret);
        let g = ChatGroup::new(name, user, group_id, secret);
        assert(g@ == gm);
        self.groups.push(g);
        proof {
            assert(self@.groups =~= pre.groups.push(gm));
            assert(self@.keys =~= pre.keys);
            assert forall|a: int, b: int| 0 <= a < b < self@.groups.len() implies #[trigger] self@.groups[a].group_id
                != #[trigger] self@.groups[b].group_id by {
                if b == pre.groups.len() {
                    assert(pre.group_ids()[a] == pre.groups[a].group_id);
                    assert(pre.group_ids().contains(pre.groups[a].group_id));
                }
            }
            assert forall|a: int, b: int| 0 <= a < b < self@.groups.len() implies #[trigger] self@.groups[a].name
                != #[trigger] self@.groups[b].name by {
                if b == pre.groups.len() {
                    assert(pre.groups[a].name != gm.name);
                }
            }
        }
        Ok(())
    }

    /// Creates the group `name` with the active identity as its only member,
    /// under a freshly drawn identifier and secret. A group of that name that
    /// already exists stays as it is.
    pub fn create_group(&mut self, name: String) -> (r: Result<(), ChatError>)
        requires
            old(self)@.wf(),
        ensures
            final(self)@.wf(),
            r == old(self)@.create_group_result(name@),
            r is Err ==> final(self)@ == old(self)@,
            r is Ok ==> exists|group_id: Seq<u8>, secret: Seq<u8>|
                #![trigger old(self)@.fresh_group(name@, group_id, secret)]
                group_id.len() == 16 && secret.len() == 16 && final(self)@ == (StateModel {
                    groups: old(self)@.groups.push(old(self)@.fresh_group(name@, group_id, secret)),
                    ..old(self)@
                }),
    {
        let group_id = fresh_uuid();
        let secret = fresh_uuid();
        let ghost n = name@;
        let ghost pre = self@;
        let ghost gid = group_id@;
        let ghost sv = secret@;
        let r = self.create_group_with(name, group_id, secret);
        assert(r is Ok ==> gid.len() == 16 && sv.len() == 16 && self@ == (StateModel {
            groups: pre.groups.push(pre.fresh_group(n, gid, sv)),
            ..pre
        }));
        r
    }
}

/// What is shown of a group: everything but its secrets and messages, and
/// how many messages it holds.
pub struct GroupInfo {
    pub group_id: Vec<u8>,
    pub epoch: u32,
    pub tree_hash: Vec<u8>,
    pub members: Vec<UserName>,
    pub message_count: usize,
}

/// Replacing a group by one of the same name and identifier that is itself
/// well formed keeps the state well formed.
proof fn lemma_replace_keeps_wf(pre: StateModel, i: int, g: GroupModel)
    requires
        pre.wf(),
        0 <= i < pre.groups.len(),
        g.wf(),
        g.name == pre.groups[i].name,
        g.group_id == pre.groups[i].group_id,
    ensures
        (StateModel { groups: pre.groups.update(i, g), ..pre }).wf(),
{
    let post = StateModel { groups: pre.groups.update(i, g), ..pre };
    assert forall|a: int, b: int| 0 <= a < b < post.groups.len() implies #[trigger] post.groups[a].name
        != #[trigger] post.groups[b].name by {
        assert(pre.groups[a].name != pre.groups[b].name);
    }
    assert forall|a: int, b: int| 0 <= a < b < post.groups.len() implies #[trigger] post.groups[a].group_id
        != #[trigger] post.groups[b].group_id by {
        assert(pre.groups[a].group_id != pre.groups[b].group_id);
    }
    assert forall|a: int| 0 <= a < post.groups.len() implies (#[trigger] post.groups[a]).wf() by {
        if a != i {
            assert(pre.groups[a].wf());
        }
    }
}

impl ChatState {
    /// Adds `member` to the group `name`, under a secret made from the drawn
    /// value `drawn`. A member already present is reported and nothing
    /// changes.
    pub fn add_member_with(&mut self, name: &String, member: UserName, drawn: Vec<u8>) -> (r: Result<AddOutcome, ChatError>)
        requires
            old(self)@.wf(),
        ensures
            final(self)@.wf(),
            r == old(self)@.add_member_result(name@, member),
            r == Ok::<AddOutcome, ChatError>(AddOutcome::Added) ==> final(self)@ == old(self)@.replace_group(
                name@,
                old(self)@.group(name@).rotated(member, drawn@),
            ),
            r != Ok::<AddOutcome, ChatError>(AddOutcome::Added) ==> final(self)@ == old(self)@,
    {
        if self.current_user.is_none() {
            return Err(ChatError::NotInitialized);
        }
        let i = match self.find_group(name) {
            Some(i) => i,
            None => {
                return Err(ChatError::GroupNotFound);
            },
        };
        assert(self@.groups[i as int] == self.groups@[i as int]@);
        if self.groups[i].is_member(member) {
            return Ok(AddOutcome::AlreadyMember);
        }
        if self.find_key(member).is_none() {
            return Err(ChatError::MemberNotInitialized);
        }
        let ghost pre = self@;
        let mut g = self.groups.remove(i);
        assert(g@ == pre.groups[i as int]);
        assert(g@.wf());
        let r = g.add_member_with(member, drawn);
        let ghost gm = g@;
        self.groups.insert(i, g);
        assert(self@.groups =~= pre.groups.update(i as int, gm));
        proof {
            lemma_replace_keeps_wf(pre, i as int, gm);
        }
        Ok(r)
    }

    /// Adds `member` to the group `name` under a secret made from a freshly
    /// drawn value. A member already present is reported and nothing changes.
    pub fn add_member(&mut self, name: &String, member: UserName) -> (r: Result<AddOutcome, ChatError>)
        requires
            old(self)@.wf(),
        ensures
            final(self)@.wf(),
            r == old(self)@.add_member_result(name@, member),
            r != Ok::<AddOutcome, ChatError>(AddOutcome::Added) ==> final(self)@ == old(self)@,
            r == Ok::<AddOutcome, ChatError>(AddOutcome::Added) ==> exists|d: Seq<u8>|
                #![trigger old(self)@.group(name@).rotated(member, d)]
                d.len() == 16 && final(self)@ == old(self)@.replace_group(name@, old(self)@.group(name@).rotated(member, d)),
    {
        let drawn = fresh_uuid();
        let ghost d = drawn@;
        let ghost pre = self@;
        let r = self.add_member_with(name, member, drawn);
        assert(r == Ok::<AddOutcome, ChatError>(AddOutcome::Added) ==> d.len() == 16
            && self@ == pre.replace_group(name@, pre.group(name@).rotated(member, d)));
        r
    }

    /// The active identity sends `content` to the group `name`, as message
    /// `id` at time `now`.
    pub fn send_message_with(&mut self, name: &String, content: &[u8], id: Vec<u8>, now: i64) -> (r: Result<(), ChatError>)
        requires
            old(self)@.wf(),
        ensures
            final(self)@.wf(),
            r == old(self)@.send_result(name@),
            r is Err ==> final(self)@ == old(self)@,
            r is Ok ==> final(self)@ == old(self)@.replace_group(
                name@,
                GroupModel {
                    messages: old(self)@.group(name@).messages.push(
                        old(self)@.group(name@).outgoing(id@, old(self)@.current_user->Some_0, content@, now as int),
                    ),
                    ..old(self)@.group(name@)
                },
            ),
    {
        let user = match self.current_user {
            Some(u) => u,
            None => {
                return Err(ChatError::NotInitialized);
            },
        };
        let i = match self.find_group(name) {
            Some(i) => i,
            None => {
                return Err(ChatError::GroupNotFound);
            },
        };
        let ghost pre = self@;
        assert(pre.groups[i as int] == self.groups@[i as int]@);
        let mut g = self.groups.remove(i);
        assert(g@ == pre.groups[i as int]);
        assert(g@.wf());
        let r = g.append_message(id, user, content, now);
        let ghost gm = g@;
        self.groups.insert(i, g);
        assert(self@.groups =~= pre.groups.update(i as int, gm));
        proof {
            lemma_replace_keeps_wf(pre, i as int, gm);
            if r is Err {
                assert(self@.groups =~= pre.groups);
            }
        }
        r
    }

    /// The active identity sends `content` to the group `name`. It fails
    /// with no identity active, with no such group, and when the active
    /// identity is not a member.
    pub fn send_message(&mut self, name: &String, content: &[u8]) -> (r: Result<(), ChatError>)
        requires
            old(self)@.wf(),
        ensures
            final(self)@.wf(),
            r == old(self)@.send_result(name@),
            r is Err ==> final(self)@ == old(self)@,
            r is Ok ==> exists|id: Seq<u8>, now: int|
                #![trigger old(self)@.group(name@).outgoing(id, old(self)@.current_user->Some_0, content@, now)]
                final(self)@ == old(self)@.replace_group(
                    name@,
                    GroupModel {
                        messages: old(self)@.group(name@).messages.push(
                            old(self)@.group(name@).outgoing(id, old(self)@.current_user->Some_0, content@, now),
                        ),
                        ..old(self)@.group(name@)
                    },
                ),
    {
        let id = fresh_uuid();
        let now = now_millis();
        let ghost idv = id@;
        let ghost pre = self@;
        let r = self.send_message_with(name, content, id, now);
        assert(r is Ok ==> self@ == pre.replace_group(
            name@,
            GroupModel {
                messages: pre.group(name@).messages.push(
                    pre.group(name@).outgoing(idv, pre.current_user->Some_0, content@, now as int),
                ),
                ..pre.group(name@)
            },
        ));
        r
    }

    /// The messages of the group `name` in send order, each opened with the
    /// secret of its own epoch.
    pub fn list_messages(&self, name: &String) -> (r: Result<Vec<ReadMessage>, ChatError>)
        requires
            self@.wf(),
        ensures
            !self@.has_group(name@) ==> r == Err::<Vec<ReadMessage>, ChatError>(ChatError::GroupNotFound),
            self@.has_group(name@) ==> r is Ok && r->Ok_0@.len() == self@.group(name@).messages.len()
                && forall|i: int| 0 <= i < r->Ok_0@.len() ==> #[trigger] r->Ok_0@[i]@ == self@.group(name@).shown(
                    self@.group(name@).messages[i],
                ),
    {
        match self.find_group(name) {
            Some(i) => {
                assert(self@.groups[i as int] == self.groups@[i as int]@);
                Ok(self.groups[i].read_messages())
            },
            None => Err(ChatError::GroupNotFound),
        }
    }

    /// What is shown of the group `name`.
    pub fn show_group_info(&self, name: &String) -> (r: Result<GroupInfo, ChatError>)
        requires
            self@.wf(),
        ensures
            !self@.has_group(name@) ==> r == Err::<GroupInfo, ChatError>(ChatError::GroupNotFound),
            self@.has_group(name@) ==> r is Ok && r->Ok_0.group_id@ == self@.group(name@).group_id
                && r->Ok_0.epoch == self@.group(name@).epoch && r->Ok_0.tree_hash@ == self@.group(name@).tree_hash
                && r->Ok_0.members@ == self@.group(name@).members
                && r->Ok_0.message_count == self@.group(name@).messages.len(),
    {
        match self.find_group(name) {
            Some(i) => {
                let g = &self.groups[i];
                assert(self@.groups[i as int] == g@);
                let mut members: Vec<UserName> = Vec::new();
                let mut j: usize = 0;
                while j < g.members.len()
                    invariant
                        j <= g.members@.len(),
                        members@ == g.members@.subrange(0, j as int),
                    decreases g.members@.len() - j,
                {
                    members.push(g.members[j]);
                    j = j + 1;
                    assert(members@ =~= g.members@.subrange(0, j as int));
                }
                assert(g.members@.subrange(0, g.members@.len() as int) =~= g.members@);
                Ok(
                    GroupInfo {
                        group_id: copy_bytes(&g.group_id),
                        epoch: g.epoch,
                        tree_hash: copy_bytes(&g.tree_hash),
                        members,
                        message_count: g.messages.len(),
                    },
                )
            },
            None => Err(ChatError::GroupNotFound),
        }
    }
}

impl ChatState {
    fn groups_distinct(&self) -> (r: bool)
        ensures
            r == ((forall|i: int, j: int|
                0 <= i < j < self@.groups.len() ==> #[trigger] self@.groups[i].name != #[trigger] self@.groups[j].name)
                && (forall|i: int, j: int|
                0 <= i < j < self@.groups.len() ==> #[trigger] self@.groups[i].group_id
                    != #[trigger] self@.groups[j].group_id)),
    {
        let n = self.groups.len();
        let mut j: usize = 0;
        while j < n
            invariant
                n == self@.groups.len(),
                j <= n,
                forall|a: int, b: int| 0 <= a < b < j ==> #[trigger] self@.groups[a].name != #[trigger] self@.groups[b].name,
                forall|a: int, b: int|
                    0 <= a < b < j ==> #[trigger] self@.groups[a].group_id != #[trigger] self@.groups[b].group_id,
            decreases n - j,
        {
            let mut i: usize = 0;
            while i < j
                invariant
                    n == self@.groups.len(),
                    i <= j < n,
                    forall|a: int| 0 <= a < i ==> self@.groups[a].name != self@.groups[j as int].name,
                    forall|a: int| 0 <= a < i ==> self@.groups[a].group_id != self@.groups[j as int].group_id,
                decreases j - i,
            {
                assert(self@.groups[i as int] == self.groups@[i as int]@);
                assert(self@.groups[j as int] == self.groups@[j as int]@);
                if self.groups[i].name == self.groups[j].name {
                    assert(self@.groups[i as int].name == self@.groups[j as int].name);
                    return false;
                }
                if bytes_equal(&self.groups[i].group_id, &self.groups[j].group_id) {
                    assert(self@.groups[i as int].group_id == self@.groups[j as int].group_id);
                    return false;
                }
                i = i + 1;
            }
            j = j + 1;
        }
        true
    }

    fn keys_distinct(&self) -> (r: bool)
        ensures
            r == (forall|i: int, j: int|
                0 <= i < j < self@.keys.len() ==> #[trigger] self@.keys[i].user != #[trigger] self@.keys[j].user),
    {
        let n = self.keys.len();
        let mut j: usize = 0;
        while j < n
            invariant
                n == self@.keys.len(),
                j <= n,
                forall|a: int, b: int| 0 <= a < b < j ==> #[trigger] self@.keys[a].user != #[trigger] self@.keys[b].user,
            decreases n - j,
        {
            let mut i: usize = 0;
            while i < j
                invariant
                    n == self@.keys.len(),
                    i <= j < n,
                    forall|a: int| 0 <= a < i ==> self@.keys[a].user != self@.keys[j as int].user,
                decreases j - i,
            {
                if self.keys[i].user == self.keys[j].user {
                    assert(self@.keys[i as int].user == self@.keys[j as int].user);
                    return false;
                }
                i = i + 1;
            }
            j = j + 1;
        }
        true
    }

    /// Rebuilds a state from its persisted parts: the active identity, the
    /// groups and the key material. It succeeds exactly when the parts keep
    /// the rules of every state, and then holds them unchanged.
    pub fn restore(current_user: Option<UserName>, groups: Vec<ChatGroup>, keys: Vec<IdentityKey>) -> (r: Result<ChatState, ChatError>)
        ensures
            r is Ok <==> (StateModel {
                current_user,
                groups: groups@.map_values(|g: ChatGroup| g@),
                keys: keys@.map_values(|k: IdentityKey| k@),
            }).wf(),
            r is Ok ==> r->Ok_0@ == (StateModel {
                current_user,
                groups: groups@.map_values(|g: ChatGroup| g@),
                keys: keys@.map_values(|k: IdentityKey| k@),
            }),
            r is Err ==> r == Err::<ChatState, ChatError>(ChatError::StorageFailure),
    {
        let s = ChatState { current_user, groups, keys };
        let ghost m = s@;
        let mut i: usize = 0;
        while i < s.groups.len()
            invariant
                m == s@,
                m == (StateModel {
                    current_user,
                    groups: groups@.map_values(|g: ChatGroup| g@),
                    keys: keys@.map_values(|k: IdentityKey| k@),
                }),
                i <= s@.groups.len(),
                forall|a: int| 0 <= a < i ==> (#[trigger] s@.groups[a]).wf(),
            decreases s@.groups.len() - i,
        {
            assert(s@.groups[i as int] == s.groups@[i as int]@);
            if !s.groups[i].is_well_formed() {
                assert(!m.groups[i as int].wf());
                return Err(ChatError::StorageFailure);
            }
            i = i + 1;
        }
        if !s.groups_distinct() || !s.keys_distinct() {
            return Err(ChatError::StorageFailure);
        }
        Ok(s)
    }
}

} // verus!
