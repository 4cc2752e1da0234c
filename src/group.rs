use vstd::prelude::*;

use crate::codec::{bound_to_epoch, epoch_header, header_bytes, is_bound_to_epoch, open, opened, seal, sealed, lemma_round_trip};
use crate::fresh::{lemma_unused_value, make_unused, unused_value};
use crate::identity::{lemma_distinct_users_at_most_two, UserName};

verus! {

/// Why an operation on groups did not take place.
#[derive(Debug, Clone, Copy, PartialEq, Eq, Structural)]
pub enum ChatError {
    /// No identity is active.
    NotInitialized,
    /// No group has the given name.
    GroupNotFound,
    /// The handle to add holds no identity.
    MemberNotInitialized,
    /// The sender is not a member of the group.
    NotAMember,
    /// A group of that name already exists.
    GroupExists,
    /// Persisted state could not be read or written, or breaks the rules
    /// that every state keeps.
    StorageFailure,
}

/// What a request to add a member did.
#[derive(Debug, Clone, Copy, PartialEq, Eq, Structural)]
pub enum AddOutcome {
    Added,
    AlreadyMember,
}

/// A message as stored: sealed under the secret of the epoch it was sent at.
pub struct ChatMessage {
    pub id: Vec<u8>,
    pub sender: UserName,
    pub ciphertext: Vec<u8>,
    pub timestamp: i64,
    pub group_id: Vec<u8>,
    pub epoch: u32,
}

pub struct MessageModel {
    pub id: Seq<u8>,
    pub sender: UserName,
    pub ciphertext: Seq<u8>,
    pub timestamp: int,
    pub group_id: Seq<u8>,
    pub epoch: u32,
}

impl View for ChatMessage {
    type V = MessageModel;

    open spec fn view(&self) -> MessageModel {
        MessageModel {
            id: self.id@,
            sender: self.sender,
            ciphertext: self.ciphertext@,
            timestamp: self.timestamp as int,
            group_id: self.group_id@,
            epoch: self.epoch,
        }
    }
}

/// A message as read back: opened with the secret of its own epoch.
pub struct ReadMessage {
    pub id: Vec<u8>,
    pub sender: UserName,
    pub timestamp: i64,
    pub epoch: u32,
    pub plaintext: Vec<u8>,
}

/// A group: its members, the secret of each epoch it has passed through (the
/// secret of epoch `e` at index `e - 1`), and its messages in send order.
pub struct ChatGroup {
    pub name: String,
    pub group_id: Vec<u8>,
    pub epoch: u32,
    pub secrets: Vec<Vec<u8>>,
    pub tree_hash: Vec<u8>,
    pub members: Vec<UserName>,
    pub messages: Vec<ChatMessage>,
}

pub struct GroupModel {
    pub name: Seq<char>,
    pub group_id: Seq<u8>,
    pub epoch: u32,
    pub secrets: Seq<Seq<u8>>,
    pub tree_hash: Seq<u8>,
    pub members: Seq<UserName>,
    pub messages: Seq<MessageModel>,
}

impl View for ChatGroup {
    type V = GroupModel;

    open spec fn view(&self) -> GroupModel {
        GroupModel {
            name: self.name@,
            group_id: self.group_id@,
            epoch: self.epoch,
            secrets: self.secrets@.map_values(|s: Vec<u8>| s@),
            tree_hash: self.tree_hash@,
            members: self.members@,
            messages: self.messages@.map_values(|m: ChatMessage| m@),
        }
    }
}

impl GroupModel {
    /// The secret of epoch `e`.
    pub open spec fn secret_at(self, e: int) -> Seq<u8> {
        self.secrets[e - 1]
    }

    pub open spec fn current_secret(self) -> Seq<u8> {
        self.secret_at(self.epoch as int)
    }

    pub open spec fn message_fits(self, m: MessageModel) -> bool {
        &&& 1 <= m.epoch <= self.epoch
        &&& self.members.contains(m.sender)
        &&& m.group_id == self.group_id
        &&& bound_to_epoch(m.ciphertext, m.epoch)
    }

    pub open spec fn wf(self) -> bool {
        &&& self.epoch >= 1
        &&& self.epoch == self.members.len()
        &&& self.secrets.len() == self.epoch
        &&& forall|i: int| 0 <= i < self.secrets.len() ==> #[trigger] self.secrets[i].len() > 0
        &&& forall|i: int, j: int|
            0 <= i < j < self.secrets.len() ==> #[trigger] self.secrets[i] != #[trigger] self.secrets[j]
        &&& self.members.no_duplicates()
        &&& forall|i: int| 0 <= i < self.messages.len() ==> self.message_fits(#[trigger] self.messages[i])
        &&& forall|i: int, j: int|
            0 <= i < j < self.messages.len() ==> #[trigger] self.messages[i].timestamp
                <= #[trigger] self.messages[j].timestamp
        &&& forall|i: int, j: int|
            0 <= i < j < self.messages.len() ==> #[trigger] self.messages[i].id != #[trigger] self.messages[j].id
        &&& self.tree_hash == tree_digest(self.epoch, self.members, self.current_secret())
    }

    pub open spec fn message_ids(self) -> Seq<Seq<u8>> {
        self.messages.map_values(|m: MessageModel| m.id)
    }

    /// The group as it stands after `x` joins with the drawn value `d`: the
    /// new secret is `d` made unused among the earlier secrets, and the tree
    /// hash is recomputed.
    pub open spec fn rotated(self, x: UserName, d: Seq<u8>) -> GroupModel {
        GroupModel {
            epoch: (self.epoch + 1) as u32,
            secrets: self.secrets.push(unused_value(self.secrets, d)),
            tree_hash: tree_digest((self.epoch + 1) as u32, self.members.push(x), unused_value(self.secrets, d)),
            members: self.members.push(x),
            ..self
        }
    }

    /// The time a message sent at `now` is stamped with: never before the
    /// latest message already there.
    pub open spec fn stamp(self, now: int) -> int {
        if self.messages.len() > 0 && now < self.messages.last().timestamp {
            self.messages.last().timestamp
        } else {
            now
        }
    }

    /// The message that `sender` sends at `now`, its identifier being `id`
    /// made unused among the group's messages.
    pub open spec fn outgoing(self, id: Seq<u8>, sender: UserName, m: Seq<u8>, now: int) -> MessageModel {
        MessageModel {
            id: unused_value(self.message_ids(), id),
            sender: sender,
            ciphertext: sealed(m, self.current_secret(), self.epoch),
            timestamp: self.stamp(now),
            group_id: self.group_id,
            epoch: self.epoch,
        }
    }

    /// Whether `later`'s secret history begins with this group's.
    pub open spec fn extended_by(self, later: GroupModel) -> bool {
        &&& self.secrets.len() <= later.secrets.len()
        &&& later.secrets.subrange(0, self.secrets.len() as int) == self.secrets
    }

    /// What reading the message `m` shows.
    pub open spec fn shown(self, m: MessageModel) -> ReadModel {
        ReadModel {
            id: m.id,
            sender: m.sender,
            timestamp: m.timestamp,
            epoch: m.epoch,
            plaintext: opened(m.ciphertext, self.secret_at(m.epoch as int)),
        }
    }
}

pub struct ReadModel {
    pub id: Seq<u8>,
    pub sender: UserName,
    pub timestamp: int,
    pub epoch: u32,
    pub plaintext: Seq<u8>,
}

impl View for ReadMessage {
    type V = ReadModel;

    open spec fn view(&self) -> ReadModel {
        ReadModel {
            id: self.id@,
            sender: self.sender,
            timestamp: self.timestamp as int,
            epoch: self.epoch,
            plaintext: self.plaintext@,
        }
    }
}

/// One byte per member: 0 for Alice, 1 for Bob.
pub open spec fn member_codes(m: Seq<UserName>) -> Seq<u8> {
    Seq::new(m.len(), |i: int| if m[i] == UserName::Alice { 0u8 } else { 1u8 })
}

/// All bytes of the first `n` of `s` combined by exclusive or.
pub open spec fn xor_fold(s: Seq<u8>, n: nat) -> u8
    decreases n,
{
    if n == 0 || n > s.len() {
        0u8
    } else {
        xor_fold(s, (n - 1) as nat) ^ s[n - 1]
    }
}

/// The summary of a group's state that members compare: the epoch's
/// header, the members in order, and a check byte of the secret.
pub open spec fn tree_digest(e: u32, m: Seq<UserName>, s: Seq<u8>) -> Seq<u8> {
    epoch_header(e) + member_codes(m) + seq![xor_fold(s, s.len())]
}

/// Computes `tree_digest`.
pub fn tree_digest_of(e: u32, members: &Vec<UserName>, s: &Vec<u8>) -> (r: Vec<u8>)
    ensures
        r@ == tree_digest(e, members@, s@),
{
    let mut r = header_bytes(e);
    let ghost h = r@;
    let mut i: usize = 0;
    while i < members.len()
        invariant
            i <= members@.len(),
            r@ == h + member_codes(members@.subrange(0, i as int)),
        decreases members@.len() - i,
    {
        let c: u8 = match members[i] {
            UserName::Alice => 0,
            UserName::Bob => 1,
        };
        r.push(c);
        i = i + 1;
        assert(member_codes(members@.subrange(0, i as int)) =~= member_codes(members@.subrange(0, i - 1 as int)).push(c));
        assert(r@ =~= h + member_codes(members@.subrange(0, i as int)));
    }
    assert(members@.subrange(0, members@.len() as int) =~= members@);
    let mut f: u8 = 0;
    let mut j: usize = 0;
    while j < s.len()
        invariant
            j <= s@.len(),
            f == xor_fold(s@, j as nat),
        decreases s@.len() - j,
    {
        f = f ^ s[j];
        j = j + 1;
    }
    r.push(f);
    assert(r@ =~= tree_digest(e, members@, s@));
    r
}

/// Whether two byte strings are equal.
pub fn bytes_equal(a: &Vec<u8>, b: &Vec<u8>) -> (r: bool)
    ensures
        r == (a@ == b@),
{
    if a.len() != b.len() {
        return false;
    }
    let mut i: usize = 0;
    while i < a.len()
        invariant
            a@.len() == b@.len(),
            i <= a@.len(),
            forall|j: int| 0 <= j < i ==> a@[j] == b@[j],
        decreases a@.len() - i,
    {
        if a[i] != b[i] {
            return false;
        }
        i = i + 1;
    }
    assert(a@ =~= b@);
    true
}

pub(crate) fn copy_bytes(a: &Vec<u8>) -> (r: Vec<u8>)
    ensures
        r@ == a@,
{
    let mut r: Vec<u8> = Vec::new();
    let mut i: usize = 0;
    while i < a.len()
        invariant
            i <= a@.len(),
            r@ == a@.subrange(0, i as int),
        decreases a@.len() - i,
    {
        r.push(a[i]);
        i = i + 1;
        assert(r@ =~= a@.subrange(0, i as int));
    }
    assert(a@.subrange(0, a@.len() as int) =~= a@);
    r
}

impl ChatGroup {
    /// A group named `name` whose only member is `creator`, at epoch 1 under
    /// `secret`.
    pub fn new(name: String, creator: UserName, group_id: Vec<u8>, secret: Vec<u8>) -> (r: ChatGroup)
        requires
            secret@.len() > 0,
        ensures
            r@.wf(),
            r@ == (GroupModel {
                name: name@,
                group_id: group_id@,
                epoch: 1,
                secrets: seq![secret@],
                tree_hash: tree_digest(1, seq![creator], secret@),
                members: seq![creator],
                messages: Seq::empty(),
            }),
    {
        let mut members: Vec<UserName> = Vec::new();
        members.push(creator);
        let tree_hash = tree_digest_of(1, &members, &secret);
        let mut secrets: Vec<Vec<u8>> = Vec::new();
        secrets.push(secret);
        let r = ChatGroup {
            name,
            group_id,
            epoch: 1,
            secrets,
            tree_hash,
            members,
            messages: Vec::new(),
        };
        assert(r@.secrets =~= seq![secret@]);
        assert(r@.members =~= seq![creator]);
        assert(r@.messages =~= Seq::<MessageModel>::empty());
        r
    }

    /// Whether `u` is a member.
    pub fn is_member(&self, u: UserName) -> (r: bool)
        ensures
            r == self@.members.contains(u),
    {
        let mut i: usize = 0;
        while i < self.members.len()
            invariant
                i <= self.members@.len(),
                forall|j: int| 0 <= j < i ==> self.members@[j] != u,
            decreases self.members@.len() - i,
        {
            if self.members[i] == u {
                assert(self.members@[i as int] == u);
                return true;
            }
            i = i + 1;
        }
        false
    }

    /// The secret of the current epoch.
    pub fn current_secret(&self) -> (r: &Vec<u8>)
        requires
            self@.wf(),
        ensures
            r@ == self@.current_secret(),
    {
        &self.secrets[self.epoch as usize - 1]
    }

    /// Adds `x`, moving to the next epoch under a secret made from the drawn
    /// value `drawn`. A member already present leaves the group as it was.
    pub fn add_member_with(&mut self, x: UserName, drawn: Vec<u8>) -> (r: AddOutcome)
        requires
            old(self)@.wf(),
        ensures
            final(self)@.wf(),
            old(self)@.members.contains(x) ==> r == AddOutcome::AlreadyMember && final(self)@ == old(self)@,
            !old(self)@.members.contains(x) ==> r == AddOutcome::Added && final(self)@ == old(self)@.rotated(
                x,
                drawn@,
            ),
    {
        if self.is_member(x) {
            return AddOutcome::AlreadyMember;
        }
        let ghost pre = self@;
        proof {
            lemma_distinct_users_at_most_two(pre.members);
            assert(pre.members.len() < 2);
            lemma_unused_value(pre.secrets, drawn@);
        }
        assert(self.secrets@.map_values(|v: Vec<u8>| v@) == pre.secrets);
        let secret = make_unused(&self.secrets, drawn);
        self.epoch = self.epoch + 1;
        self.members.push(x);
        self.tree_hash = tree_digest_of(self.epoch, &self.members, &secret);
        self.secrets.push(secret);
        let ghost post = self@;
        proof {
            let target = pre.rotated(x, drawn@);
            assert(post.secrets =~= target.secrets);
            assert(post.members =~= target.members);
            assert(post.messages =~= target.messages);
            assert forall|i: int, j: int| 0 <= i < j < post.secrets.len() implies #[trigger] post.secrets[i]
                != #[trigger] post.secrets[j] by {
                if j == pre.secrets.len() {
                    assert(pre.secrets.contains(pre.secrets[i]));
                } else {
                    assert(pre.secrets[i] != pre.secrets[j]);
                }
            }
            assert forall|i: int| 0 <= i < post.secrets.len() implies #[trigger] post.secrets[i].len() > 0 by {
                if i < pre.secrets.len() {
                    assert(pre.secrets[i].len() > 0);
                }
            }
            assert(post.members.no_duplicates()) by {
                assert forall|i: int, j: int| 0 <= i < j < post.members.len() implies post.members[i]
                    != post.members[j] by {
                    if j == pre.members.len() {
                        assert(pre.members.contains(pre.members[i]));
                    }
                }
            }
            assert forall|i: int| 0 <= i < post.messages.len() implies post.message_fits(#[trigger] post.messages[i]) by {
                assert(pre.message_fits(pre.messages[i]));
                assert(pre.members.contains(post.messages[i].sender));
                let k = choose|k: int| 0 <= k < pre.members.len() && pre.members[k] == post.messages[i].sender;
                assert(post.members[k] == post.messages[i].sender);
            }
            assert(post == target);
        }
        AddOutcome::Added
    }

    fn message_ids(&self) -> (r: Vec<Vec<u8>>)
        ensures
            r@.map_values(|v: Vec<u8>| v@) == self@.message_ids(),
    {
        let mut r: Vec<Vec<u8>> = Vec::new();
        let mut i: usize = 0;
        while i < self.messages.len()
            invariant
                i <= self@.messages.len(),
                r@.len() == i,
                forall|j: int| 0 <= j < i ==> #[trigger] r@[j]@ == self@.messages[j].id,
            decreases self@.messages.len() - i,
        {
            r.push(copy_bytes(&self.messages[i].id));
            i = i + 1;
        }
        assert(r@.map_values(|v: Vec<u8>| v@) =~= self@.message_ids());
        r
    }

    /// `sender` sends `plaintext` at time `now`: the message is sealed under the
    /// current secret, stamped with the current epoch, and appended. A sender
    /// that is not a member is refused and the group stays as it was.
    pub fn append_message(&mut self, id: Vec<u8>, sender: UserName, plaintext: &[u8], now: i64) -> (r: Result<(), ChatError>)
        requires
            old(self)@.wf(),
        ensures
            final(self)@.wf(),
            !old(self)@.members.contains(sender) ==> r == Err::<(), ChatError>(ChatError::NotAMember)
                && final(self)@ == old(self)@,
            old(self)@.members.contains(sender) ==> r == Ok::<(), ChatError>(())
                && final(self)@ == (GroupModel {
                    messages: old(self)@.messages.push(old(self)@.outgoing(id@, sender, plaintext@, now as int)),
                    ..old(self)@
                }),
    {
        if !self.is_member(sender) {
            return Err(ChatError::NotAMember);
        }
        let ghost id_in = id@;
        let ghost pre = self@;
        let taken = self.message_ids();
        let id = make_unused(&taken, id);
        let ciphertext = seal(plaintext, self.current_secret(), self.epoch);
        let n = self.messages.len();
        let timestamp = if n > 0 && now < self.messages[n - 1].timestamp {
            self.messages[n - 1].timestamp
        } else {
            now
        };
        let group_id = copy_bytes(&self.group_id);
        let msg = ChatMessage { id, sender, ciphertext, timestamp, group_id, epoch: self.epoch };
        proof {
            lemma_round_trip(plaintext@, pre.current_secret(), pre.epoch);
        }
        self.messages.push(msg);
        let ghost post = self@;
        proof {
            let out = pre.outgoing(id_in, sender, plaintext@, now as int);
            assert(msg@ == out);
            assert(post.members =~= pre.members);
            assert forall|i: int, j: int| 0 <= i < j < post.messages.len() implies #[trigger] post.messages[i].id
                != #[trigger] post.messages[j].id by {
                if j == pre.messages.len() {
                    assert(pre.message_ids()[i] == pre.messages[i].id);
                    assert(pre.message_ids().contains(pre.messages[i].id));
                    assert(post.messages[j].id == out.id);
                } else {
                    assert(post.messages[i] == pre.messages[i]);
                    assert(post.messages[j] == pre.messages[j]);
                    assert(pre.messages[i].id != pre.messages[j].id);
                }
            }
            assert(post.messages =~= pre.messages.push(out));
            assert(post.secrets =~= pre.secrets);
            assert forall|i: int| 0 <= i < post.messages.len() implies post.message_fits(#[trigger] post.messages[i]) by {
                if i < pre.messages.len() {
                    assert(pre.message_fits(pre.messages[i]));
                }
            }
            assert forall|i: int, j: int| 0 <= i < j < post.messages.len() implies #[trigger] post.messages[i].timestamp
                <= #[trigger] post.messages[j].timestamp by {
                if j == pre.messages.len() && i < j - 1 {
                    assert(pre.messages[i].timestamp <= pre.messages[j - 1].timestamp);
                }
            }
        }
        Ok(())
    }

    /// The messages in send order, each opened with the secret of the epoch it
    /// was sent at.
    pub fn read_messages(&self) -> (r: Vec<ReadMessage>)
        requires
            self@.wf(),
        ensures
            r@.len() == self@.messages.len(),
            forall|i: int| 0 <= i < r@.len() ==> #[trigger] r@[i]@ == self@.shown(self@.messages[i]),
    {
        let mut r: Vec<ReadMessage> = Vec::new();
        let mut i: usize = 0;
        while i < self.messages.len()
            invariant
                self@.wf(),
                i <= self@.messages.len(),
                r@.len() == i,
                forall|j: int| 0 <= j < i ==> #[trigger] r@[j]@ == self@.shown(self@.messages[j]),
            decreases self@.messages.len() - i,
        {
            let m = &self.messages[i];
            assert(self@.message_fits(self@.messages[i as int]));
            assert(self@.secrets[m.epoch - 1].len() > 0);
            let k = &self.secrets[m.epoch as usize - 1];
            match open(&m.ciphertext, k, m.epoch) {
                Ok(plaintext) => {
                    let rm = ReadMessage {
                        id: copy_bytes(&m.id),
                        sender: m.sender,
                        timestamp: m.timestamp,
                        epoch: m.epoch,
                        plaintext,
                    };
                    r.push(rm);
                },
                Err(_) => {
                    proof {
                        assert(false);
                    }
                },
            }
            i = i + 1;
        }
        r
    }
}

impl ChatGroup {
    fn secrets_distinct(&self) -> (r: bool)
        ensures
            r == forall|i: int, j: int|
                0 <= i < j < self@.secrets.len() ==> #[trigger] self@.secrets[i] != #[trigger] self@.secrets[j],
    {
        let n = self.secrets.len();
        let mut j: usize = 0;
        while j < n
            invariant
                n == self@.secrets.len(),
                j <= n,
                forall|a: int, b: int| 0 <= a < b < j ==> #[trigger] self@.secrets[a] != #[trigger] self@.secrets[b],
            decreases n - j,
        {
            let mut i: usize = 0;
            while i < j
                invariant
                    n == self@.secrets.len(),
                    i <= j < n,
                    forall|a: int| 0 <= a < i ==> self@.secrets[a] != self@.secrets[j as int],
                decreases j - i,
            {
                if bytes_equal(&self.secrets[i], &self.secrets[j]) {
                    assert(self@.secrets[i as int] == self@.secrets[j as int]);
                    return false;
                }
                i = i + 1;
            }
            j = j + 1;
        }
        true
    }

    fn members_distinct(&self) -> (r: bool)
        ensures
            r == self@.members.no_duplicates(),
    {
        let n = self.members.len();
        let mut j: usize = 0;
        while j < n
            invariant
                n == self@.members.len(),
                j <= n,
                forall|a: int, b: int| 0 <= a < b < j ==> self@.members[a] != self@.members[b],
            decreases n - j,
        {
            let mut i: usize = 0;
            while i < j
                invariant
                    n == self@.members.len(),
                    i <= j < n,
                    forall|a: int| 0 <= a < i ==> self@.members[a] != self@.members[j as int],
                decreases j - i,
            {
                if self.members[i] == self.members[j] {
                    return false;
                }
                i = i + 1;
            }
            j = j + 1;
        }
        true
    }

    fn messages_fit(&self) -> (r: bool)
        ensures
            r == (forall|i: int| 0 <= i < self@.messages.len() ==> self@.message_fits(#[trigger] self@.messages[i])),
    {
        let mut i: usize = 0;
        while i < self.messages.len()
            invariant
                i <= self@.messages.len(),
                forall|a: int| 0 <= a < i ==> self@.message_fits(#[trigger] self@.messages[a]),
            decreases self@.messages.len() - i,
        {
            let m = &self.messages[i];
            assert(self@.messages[i as int] == m@);
            if m.epoch < 1 || m.epoch > self.epoch || !self.is_member(m.sender) || !bytes_equal(&m.group_id, &self.group_id)
                || !is_bound_to_epoch(&m.ciphertext, m.epoch) {
                return false;
            }
            i = i + 1;
        }
        true
    }

    fn timestamps_ordered(&self) -> (r: bool)
        ensures
            r == (forall|i: int, j: int|
                0 <= i < j < self@.messages.len() ==> #[trigger] self@.messages[i].timestamp
                    <= #[trigger] self@.messages[j].timestamp),
    {
        let n = self.messages.len();
        let mut j: usize = 1;
        if n == 0 {
            return true;
        }
        while j < n
            invariant
                n == self@.messages.len(),
                1 <= j <= n,
                forall|a: int, b: int|
                    0 <= a < b < j ==> #[trigger] self@.messages[a].timestamp <= #[trigger] self@.messages[b].timestamp,
            decreases n - j,
        {
            if self.messages[j - 1].timestamp > self.messages[j].timestamp {
                assert(self@.messages[j - 1].timestamp > self@.messages[j as int].timestamp);
                return false;
            }
            assert forall|a: int, b: int| 0 <= a < b < j + 1 implies #[trigger] self@.messages[a].timestamp
                <= #[trigger] self@.messages[b].timestamp by {
                if b == j && a < j - 1 {
                    assert(self@.messages[a].timestamp <= self@.messages[j - 1].timestamp);
                }
            }
            j = j + 1;
        }
        true
    }

    /// Whether the group keeps its rules: epochs counted from 1 with one
    /// member per epoch, one distinct non-empty secret per epoch, distinct
    /// members, and messages from members, sealed at epochs the group has
    /// passed through, in time order.
    pub fn is_well_formed(&self) -> (r: bool)
        ensures
            r == self@.wf(),
    {
        if self.epoch < 1 || self.epoch as usize != self.members.len() || self.secrets.len() != self.members.len() {
            return false;
        }
        let mut i: usize = 0;
        while i < self.secrets.len()
            invariant
                i <= self@.secrets.len(),
                forall|a: int| 0 <= a < i ==> #[trigger] self@.secrets[a].len() > 0,
            decreases self@.secrets.len() - i,
        {
            if self.secrets[i].len() == 0 {
                assert(self@.secrets[i as int].len() == 0);
                return false;
            }
            i = i + 1;
        }
        if !self.secrets_distinct() || !self.members_distinct() || !self.messages_fit() || !self.timestamps_ordered()
            || !self.message_ids_distinct() {
            return false;
        }
        let digest = tree_digest_of(self.epoch, &self.members, self.current_secret_unchecked());
        bytes_equal(&digest, &self.tree_hash)
    }

    fn current_secret_unchecked(&self) -> (r: &Vec<u8>)
        requires
            self.epoch >= 1,
            self.secrets@.len() == self.epoch,
        ensures
            r@ == self@.current_secret(),
    {
        &self.secrets[self.epoch as usize - 1]
    }

    fn message_ids_distinct(&self) -> (r: bool)
        ensures
            r == (forall|i: int, j: int|
                0 <= i < j < self@.messages.len() ==> #[trigger] self@.messages[i].id != #[trigger] self@.messages[j].id),
    {
        let n = self.messages.len();
        let mut j: usize = 0;
        while j < n
            invariant
                n == self@.messages.len(),
                j <= n,
                forall|a: int, b: int| 0 <= a < b < j ==> #[trigger] self@.messages[a].id != #[trigger] self@.messages[b].id,
            decreases n - j,
        {
            let mut i: usize = 0;
            while i < j
                invariant
                    n == self@.messages.len(),
                    i <= j < n,
                    forall|a: int| 0 <= a < i ==> self@.messages[a].id != self@.messages[j as int].id,
                decreases j - i,
            {
                if bytes_equal(&self.messages[i].id, &self.messages[j].id) {
                    assert(self@.messages[i as int].id == self@.messages[j as int].id);
                    return false;
                }
                i = i + 1;
            }
            j = j + 1;
        }
        true
    }
}

/// A message that a member sends reads back, as the last of the group's
/// messages, as the plaintext that was sent, from that sender, at the epoch
/// the group was in.
pub proof fn lemma_sent_message_reads_back(g: GroupModel, id: Seq<u8>, sender: UserName, m: Seq<u8>, now: int)
    requires
        g.wf(),
        g.members.contains(sender),
    ensures
        ({
            let after = GroupModel { messages: g.messages.push(g.outgoing(id, sender, m, now)), ..g };
            &&& after.shown(after.messages.last()).plaintext == m
            &&& after.shown(after.messages.last()).sender == sender
            &&& after.shown(after.messages.last()).epoch == g.epoch
        }),
{
    assert(g.secrets[g.epoch - 1].len() > 0);
    lemma_round_trip(m, g.current_secret(), g.epoch);
}

/// After N additions of new members to a freshly created group, its epoch
/// is 1 + N.
pub proof fn lemma_epoch_counts_additions(
    gs: Seq<GroupModel>,
    xs: Seq<UserName>,
    ds: Seq<Seq<u8>>,
)
    requires
        gs.len() == xs.len() + 1,
        ds.len() == xs.len(),
        gs[0].epoch == 1,
        forall|i: int| 0 <= i < gs.len() ==> (#[trigger] gs[i]).wf(),
        forall|i: int| 0 <= i < xs.len() ==> gs[i + 1] == (#[trigger] gs[i]).rotated(xs[i], ds[i]),
    ensures
        gs.last().epoch == 1 + xs.len(),
    decreases xs.len(),
{
    if xs.len() > 0 {
        let n = xs.len() - 1;
        lemma_epoch_counts_additions(gs.take(n + 1), xs.take(n), ds.take(n));
        assert(gs.take(n + 1).last() == gs[n]);
        assert(gs[n + 1] == gs[n].rotated(xs[n], ds[n]));
        assert(gs[n].wf());
    }
}

/// Two states of one group, the later one reached from the earlier, at
/// different epochs, hold different secrets.
pub proof fn lemma_secrets_differ_across_epochs(earlier: GroupModel, later: GroupModel)
    requires
        earlier.wf(),
        later.wf(),
        earlier.extended_by(later),
        earlier.epoch != later.epoch,
    ensures
        earlier.current_secret() != later.current_secret(),
{
    let i = earlier.epoch - 1;
    let j = later.epoch - 1;
    assert(later.secrets.subrange(0, earlier.secrets.len() as int)[i] == later.secrets[i]);
    if i < j {
        assert(later.secrets[i] != later.secrets[j]);
    } else {
        assert(false);
    }
}

/// Adding a member, and sending, keep the secret history of the group.
pub proof fn lemma_history_kept(g: GroupModel, x: UserName, d: Seq<u8>, m: MessageModel)
    ensures
        g.extended_by(g.rotated(x, d)),
        g.extended_by(GroupModel { messages: g.messages.push(m), ..g }),
{
    assert(g.rotated(x, d).secrets.subrange(0, g.secrets.len() as int) =~= g.secrets);
    assert(g.secrets.subrange(0, g.secrets.len() as int) =~= g.secrets);
}

/// Adding a member gives the group a tree hash that differs from the one it
/// had.
pub proof fn lemma_tree_hash_changes(g: GroupModel, x: UserName, d: Seq<u8>)
    requires
        g.wf(),
        !g.members.contains(x),
    ensures
        g.rotated(x, d).tree_hash != g.tree_hash,
{
    lemma_distinct_users_at_most_two(g.members);
    let e = g.epoch;
    let f = (e + 1) as u32;
    assert(e < 3);
    let a = g.tree_hash;
    let b = g.rotated(x, d).tree_hash;
    assert(a[3] == e as u8);
    assert(b[3] == f as u8);
    assert(e < 3 ==> (e + 1) as u32 as u8 != e as u8) by (bit_vector);
}

} // verus!
