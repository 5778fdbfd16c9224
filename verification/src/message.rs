//! The part of a transaction's message that tells how its accounts are used.
use vstd::prelude::*;

verus! {

/// The address of an account.
pub type Pubkey = [u8; 32];

/// The counts at the head of a message. The account keys of a message stand in
/// four groups: signers that are written, signers that are only read, other
/// accounts that are written, other accounts that are only read.
#[derive(Clone, Copy, Debug, PartialEq, Eq, Structural)]
pub struct MessageHeader {
    pub num_required_signatures: u8,
    pub num_readonly_signed_accounts: u8,
    pub num_readonly_unsigned_accounts: u8,
}

impl MessageHeader {
    /// The four groups fit into `num_keys` account keys.
    pub open spec fn fits(self, num_keys: nat) -> bool {
        &&& self.num_readonly_signed_accounts <= self.num_required_signatures
        &&& self.num_required_signatures + self.num_readonly_unsigned_accounts <= num_keys
    }

    /// Where the written signers end.
    pub open spec fn writable_signed_end(self) -> int {
        self.num_required_signatures - self.num_readonly_signed_accounts
    }

    /// Where the signers end.
    pub open spec fn readonly_signed_end(self) -> int {
        self.num_required_signatures as int
    }

    /// Where the written accounts that did not sign end.
    pub open spec fn writable_unsigned_end(self, num_keys: nat) -> int {
        num_keys - self.num_readonly_unsigned_accounts
    }

    /// The keys that are written: signers first, then the others.
    pub open spec fn writable(self, keys: Seq<Pubkey>) -> Seq<Pubkey> {
        keys.subrange(0, self.writable_signed_end()) + keys.subrange(
            self.readonly_signed_end(),
            self.writable_unsigned_end(keys.len()),
        )
    }

    /// The keys that are only read: signers first, then the others.
    pub open spec fn readonly(self, keys: Seq<Pubkey>) -> Seq<Pubkey> {
        keys.subrange(self.writable_signed_end(), self.readonly_signed_end()) + keys.subrange(
            self.writable_unsigned_end(keys.len()),
            keys.len() as int,
        )
    }

    /// Whether the four groups fit into `num_keys` account keys.
    pub fn is_consistent_with(&self, num_keys: usize) -> (consistent: bool)
        ensures
            consistent == self.fits(num_keys as nat),
            consistent <==> self.num_readonly_signed_accounts <= self.num_required_signatures
                && self.num_required_signatures + self.num_readonly_unsigned_accounts <= num_keys,
    {
        self.num_readonly_signed_accounts <= self.num_required_signatures
            && self.num_required_signatures as usize <= num_keys
            && self.num_readonly_unsigned_accounts as usize <= num_keys
            - self.num_required_signatures as usize
    }
}

/// Header and account keys of a message.
#[derive(Debug)]
pub struct Message {
    pub header: MessageHeader,
    pub account_keys: Vec<Pubkey>,
}

/// A message of either version. Both have the same header and keep their
/// account keys in the same way.
#[derive(Debug)]
pub enum VersionedMessage {
    Legacy(Message),
    V0(Message),
}

impl VersionedMessage {
    /// The message, whatever its version.
    pub open spec fn inner(self) -> Message {
        match self {
            VersionedMessage::Legacy(message) => message,
            VersionedMessage::V0(message) => message,
        }
    }

    /// The header fits the account keys.
    pub open spec fn is_consistent(self) -> bool {
        self.inner().header.fits(self.inner().account_keys@.len())
    }

    /// Whether the header fits the account keys.
    pub fn check_header(&self) -> (consistent: bool)
        ensures
            consistent == self.is_consistent(),
            ({
                let message = match self {
                    VersionedMessage::Legacy(message) => message,
                    VersionedMessage::V0(message) => message,
                };
                let header = message.header;
                consistent <==> header.num_readonly_signed_accounts
                    <= header.num_required_signatures && header.num_required_signatures
                    + header.num_readonly_unsigned_accounts <= message.account_keys@.len()
            }),
    {
        match self {
            VersionedMessage::Legacy(message) => message.header.is_consistent_with(
                message.account_keys.len(),
            ),
            VersionedMessage::V0(message) => message.header.is_consistent_with(
                message.account_keys.len(),
            ),
        }
    }
}

/// A transaction and the slot in which it was executed.
#[derive(Debug)]
pub struct Transaction {
    pub slot: u64,
    pub message: VersionedMessage,
}

/// The keys are split by their positions. Of the signers the last
/// `num_readonly_signed_accounts` are only read, and of the other keys the last
/// `num_readonly_unsigned_accounts`; all others are written. Both lists keep the
/// order of the keys.
pub proof fn lemma_keys_split_by_position(header: MessageHeader, keys: Seq<Pubkey>)
    requires
        header.num_readonly_signed_accounts <= header.num_required_signatures,
        header.num_required_signatures + header.num_readonly_unsigned_accounts <= keys.len(),
    ensures
        header.readonly(keys).len() == header.num_readonly_signed_accounts
            + header.num_readonly_unsigned_accounts,
        header.writable(keys).len() == keys.len() - header.num_readonly_signed_accounts
            - header.num_readonly_unsigned_accounts,
        forall|i: int|
            0 <= i < header.num_required_signatures - header.num_readonly_signed_accounts
                ==> header.writable(keys)[i] == #[trigger] keys[i],
        forall|i: int|
            header.num_required_signatures - header.num_readonly_signed_accounts <= i
                < header.num_required_signatures ==> header.readonly(keys)[i
                - header.num_required_signatures + header.num_readonly_signed_accounts]
                == #[trigger] keys[i],
        forall|i: int|
            header.num_required_signatures <= i < keys.len()
                - header.num_readonly_unsigned_accounts ==> header.writable(keys)[i
                - header.num_readonly_signed_accounts] == #[trigger] keys[i],
        forall|i: int|
            keys.len() - header.num_readonly_unsigned_accounts <= i < keys.len()
                ==> header.readonly(keys)[i - keys.len() + header.num_readonly_unsigned_accounts
                + header.num_readonly_signed_accounts] == #[trigger] keys[i],
{
}

/// A message has the same header and the same account keys in either version.
pub proof fn lemma_versions_hold_the_message(message: Message)
    ensures
        VersionedMessage::Legacy(message).inner() == message,
        VersionedMessage::V0(message).inner() == message,
        VersionedMessage::Legacy(message).is_consistent() <==> VersionedMessage::V0(
            message,
        ).is_consistent(),
        VersionedMessage::V0(message).is_consistent() <==> message.header.fits(
            message.account_keys@.len(),
        ),
{
}

/// The groups fit exactly if no signer that is only read is missing among the
/// signers, and signers and other keys that are only read do not overlap.
pub proof fn lemma_groups_fit(header: MessageHeader, num_keys: nat)
    ensures
        header.fits(num_keys) <==> header.num_readonly_signed_accounts
            <= header.num_required_signatures && header.num_required_signatures
            + header.num_readonly_unsigned_accounts <= num_keys,
{
}

/// Each account key of a message is written or only read, and none is lost or
/// counted twice.
pub proof fn lemma_keys_split(header: MessageHeader, keys: Seq<Pubkey>)
    requires
        header.fits(keys.len()),
    ensures
        header.writable(keys).len() + header.readonly(keys).len() == keys.len(),
        header.writable(keys).to_multiset().add(header.readonly(keys).to_multiset())
            == keys.to_multiset(),
{
    let a = header.writable_signed_end();
    let b = header.readonly_signed_end();
    let c = header.writable_unsigned_end(keys.len());
    let n = keys.len() as int;
    let (g0, g1, g2, g3) = (
        keys.subrange(0, a),
        keys.subrange(a, b),
        keys.subrange(b, c),
        keys.subrange(c, n),
    );
    vstd::seq_lib::lemma_multiset_commutative(g0, g2);
    vstd::seq_lib::lemma_multiset_commutative(g1, g3);
    vstd::seq_lib::lemma_multiset_commutative(g0, g1);
    vstd::seq_lib::lemma_multiset_commutative(g2, g3);
    vstd::seq_lib::lemma_multiset_commutative(g0 + g1, g2 + g3);
    assert(keys =~= (g0 + g1) + (g2 + g3));
    assert(header.writable(keys).to_multiset().add(header.readonly(keys).to_multiset())
        =~= keys.to_multiset());
}

} // verus!
