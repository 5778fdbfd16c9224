//! The wire format of transactions, and the clock.
use core::hint::black_box;
use solana_transaction::versioned::VersionedTransaction;
use std::time::Duration;
use std::time::Instant;
use vstd::prelude::*;

verus! {

/// A transaction as `solana_transaction` has it. Nothing is known of its
/// inside.
#[verifier::external_type_specification]
#[verifier::external_body]
pub struct ExVersionedTransaction(VersionedTransaction);

/// What `bincode` reports when it fails.
#[verifier::external_type_specification]
#[verifier::external_body]
pub struct ExErrorKind(bincode::ErrorKind);

/// A reading of the monotonic clock.
#[verifier::external_type_specification]
#[verifier::external_body]
pub struct ExInstant(Instant);

/// The bytes that `bincode::serialize` gives for a transaction, or `None`
/// where it fails, as it does on lists too long for the wire format.
pub uninterp spec fn wire_form(transaction: VersionedTransaction) -> Option<Seq<u8>>;

/// The transaction that `bincode::deserialize` reads from bytes, or `None`
/// where it fails.
pub uninterp spec fn parsed_form(bytes: Seq<u8>) -> Option<VersionedTransaction>;

/// Whether `VersionedTransaction::sanitize` accepts a transaction.
pub uninterp spec fn is_sanitary(transaction: VersionedTransaction) -> bool;

/// The number of nanoseconds that `Duration::as_nanos` gives for a duration.
pub uninterp spec fn nanos_of(span: Duration) -> u128;

/// `VersionedTransaction::clone`, which is derived: each field is cloned, and
/// the copy equals what was copied.
pub assume_specification[ <VersionedTransaction as Clone>::clone ](
    transaction: &VersionedTransaction,
) -> (copy: VersionedTransaction)
    ensures
        copy == *transaction,
;

/// Calls `bincode::serialize`. The outcome depends on the transaction alone
/// and is named by [`wire_form`].
#[verifier::external_body]
pub(crate) fn serialize_transaction(transaction: &VersionedTransaction) -> (wire: Result<
    Vec<u8>,
    Box<bincode::ErrorKind>,
>)
    ensures
        match wire {
            Ok(bytes) => wire_form(*transaction) == Some(bytes@),
            Err(_) => wire_form(*transaction) is None,
        },
{
    bincode::serialize(transaction)
}

/// Calls `bincode::deserialize`. The outcome depends on the bytes alone and is
/// named by [`parsed_form`].
#[verifier::external_body]
pub(crate) fn deserialize_transaction(bytes: &Vec<u8>) -> (transaction: Result<
    VersionedTransaction,
    Box<bincode::ErrorKind>,
>)
    ensures
        match transaction {
            Ok(parsed) => parsed_form(bytes@) == Some(parsed),
            Err(_) => parsed_form(bytes@) is None,
        },
{
    bincode::deserialize(bytes)
}

/// Calls `VersionedTransaction::sanitize` and tells whether it accepted the
/// transaction. The outcome depends on the transaction alone and is named by
/// [`is_sanitary`].
#[verifier::external_body]
pub(crate) fn sanitize_transaction(transaction: &VersionedTransaction) -> (accepted: bool)
    ensures
        accepted == is_sanitary(*transaction),
{
    transaction.sanitize().is_ok()
}

/// `core::hint::black_box`, which returns its argument and keeps the compiler
/// from leaving out what the argument took to compute.
pub assume_specification<T>[ black_box::<T> ](dummy: T) -> (same: T)
    ensures
        same == dummy,
;

/// `Instant::now`, which reads the clock.
pub assume_specification[ Instant::now ]() -> (now: Instant);

/// `Instant::elapsed`, which reads the clock again and tells how much time has
/// passed. Nothing is said of the time that it measures.
pub assume_specification[ Instant::elapsed ](start: &Instant) -> (span: Duration);

/// `Duration::as_nanos`, the whole length of a duration in nanoseconds, named
/// by [`nanos_of`].
pub assume_specification[ Duration::as_nanos ](span: &Duration) -> (nanos: u128)
    ensures
        nanos == nanos_of(*span),
;

/// The lengths of the wire forms of `transactions`, added up.
pub open spec fn wire_bytes(transactions: Seq<VersionedTransaction>) -> nat
    decreases transactions.len(),
{
    if transactions.len() == 0 {
        0
    } else {
        wire_bytes(transactions.drop_last()) + wire_form(transactions.last())->0.len()
    }
}

/// Each of `transactions` has a wire form.
pub open spec fn all_serializable(transactions: Seq<VersionedTransaction>) -> bool {
    forall|i: int| 0 <= i < transactions.len() ==> wire_form(#[trigger] transactions[i]) is Some
}

/// Each of `transactions` can be read back from its wire form.
pub open spec fn all_readable(transactions: Seq<VersionedTransaction>) -> bool {
    forall|i: int|
        0 <= i < transactions.len() ==> parsed_form(
            wire_form(#[trigger] transactions[i])->0,
        ) is Some
}

/// `encoded` are the wire forms of `transactions`.
pub open spec fn are_wire_forms(
    encoded: Seq<Vec<u8>>,
    transactions: Seq<VersionedTransaction>,
) -> bool {
    &&& encoded.len() == transactions.len()
    &&& forall|i: int|
        0 <= i < encoded.len() ==> wire_form(transactions[i]) == Some((#[trigger] encoded[i])@)
}

/// The lengths of `encoded`, added up.
pub open spec fn encoded_bytes(encoded: Seq<Vec<u8>>) -> nat
    decreases encoded.len(),
{
    if encoded.len() == 0 {
        0
    } else {
        encoded_bytes(encoded.drop_last()) + encoded.last()@.len()
    }
}

/// The bytes of a block are those of its wire forms, put one behind the other.
pub proof fn lemma_wire_bytes_are_all_bytes(transactions: Seq<VersionedTransaction>)
    ensures
        wire_bytes(transactions) == transactions.map_values(
            |transaction: VersionedTransaction| wire_form(transaction)->0,
        ).flatten().len(),
    decreases transactions.len(),
{
    let form = |transaction: VersionedTransaction| wire_form(transaction)->0;
    let forms = transactions.map_values(form);
    forms.lemma_flatten_and_flatten_alt_are_equivalent();
    if transactions.len() > 0 {
        lemma_wire_bytes_are_all_bytes(transactions.drop_last());
        let rest = transactions.drop_last().map_values(form);
        rest.lemma_flatten_and_flatten_alt_are_equivalent();
        assert(forms.drop_last() =~= rest);
    }
}

/// A single transaction has as many bytes as its wire form, and two runs of
/// transactions put together have the bytes of the first and those of the
/// second.
pub proof fn lemma_wire_bytes_add_up(
    first: Seq<VersionedTransaction>,
    second: Seq<VersionedTransaction>,
    single: VersionedTransaction,
)
    ensures
        wire_bytes(Seq::empty()) == 0,
        wire_bytes(seq![single]) == (wire_form(single)->0).len(),
        wire_bytes(first + second) == wire_bytes(first) + wire_bytes(second),
    decreases second.len(),
{
    assert(seq![single].drop_last() =~= Seq::<VersionedTransaction>::empty());
    assert(wire_bytes(Seq::empty()) == 0);
    if second.len() == 0 {
        assert(first + second =~= first);
    } else {
        lemma_wire_bytes_add_up(first, second.drop_last(), single);
        assert((first + second).drop_last() =~= first + second.drop_last());
    }
}

/// The bytes of encoded transactions are all their bytes, put one behind the
/// other.
pub proof fn lemma_encoded_bytes_are_all_bytes(encoded: Seq<Vec<u8>>)
    ensures
        encoded_bytes(encoded) == encoded.map_values(|form: Vec<u8>| form@).flatten().len(),
    decreases encoded.len(),
{
    let form = |form: Vec<u8>| form@;
    let forms = encoded.map_values(form);
    forms.lemma_flatten_and_flatten_alt_are_equivalent();
    if encoded.len() > 0 {
        lemma_encoded_bytes_are_all_bytes(encoded.drop_last());
        let rest = encoded.drop_last().map_values(form);
        rest.lemma_flatten_and_flatten_alt_are_equivalent();
        assert(forms.drop_last() =~= rest);
    }
}

/// A single encoded transaction counts with its whole length, and two runs put
/// together count with the length of the first and that of the second.
pub proof fn lemma_encoded_bytes_add_up(
    first: Seq<Vec<u8>>,
    second: Seq<Vec<u8>>,
    single: Vec<u8>,
)
    ensures
        encoded_bytes(Seq::empty()) == 0,
        encoded_bytes(seq![single]) == single@.len(),
        encoded_bytes(first + second) == encoded_bytes(first) + encoded_bytes(second),
    decreases second.len(),
{
    assert(seq![single].drop_last() =~= Seq::<Vec<u8>>::empty());
    assert(encoded_bytes(Seq::empty()) == 0);
    if second.len() == 0 {
        assert(first + second =~= first);
    } else {
        lemma_encoded_bytes_add_up(first, second.drop_last(), single);
        assert((first + second).drop_last() =~= first + second.drop_last());
    }
}

/// Sanitizing accepts as many transactions as can be read from `encoded` and are
/// sanitary.
pub proof fn lemma_sanitary_count(encoded: Seq<Vec<u8>>)
    ensures
        sanitary_count(encoded) == encoded.filter(
            |bytes: Vec<u8>| is_sanitary(parsed_form(bytes@)->0),
        ).len(),
    decreases encoded.len(),
{
    reveal(Seq::filter);
    if encoded.len() > 0 {
        lemma_sanitary_count(encoded.drop_last());
    }
}

proof fn lemma_encoded_bytes(encoded: Seq<Vec<u8>>, transactions: Seq<VersionedTransaction>)
    requires
        are_wire_forms(encoded, transactions),
    ensures
        encoded_bytes(encoded) == wire_bytes(transactions),
    decreases encoded.len(),
{
    if encoded.len() > 0 {
        assert forall|i: int| 0 <= i < encoded.len() - 1 implies wire_form(
            transactions.drop_last()[i],
        ) == Some((#[trigger] encoded.drop_last()[i])@) by {
            assert(wire_form(transactions[i]) == Some(encoded[i]@));
        }
        lemma_encoded_bytes(encoded.drop_last(), transactions.drop_last());
        assert(wire_form(transactions.last()) == Some(encoded[encoded.len() - 1]@));
    }
}

proof fn lemma_prefix_bytes(encoded: Seq<Vec<u8>>, count: int)
    requires
        0 <= count <= encoded.len(),
    ensures
        encoded_bytes(encoded.take(count)) <= encoded_bytes(encoded),
    decreases encoded.len() - count,
{
    if count == encoded.len() {
        assert(encoded.take(count) =~= encoded);
    } else {
        lemma_prefix_bytes(encoded, count + 1);
        assert(encoded.take(count + 1).drop_last() =~= encoded.take(count));
    }
}

/// The wire forms of `transactions`, or `None` if one of them has none.
pub fn serialize_all(transactions: &[VersionedTransaction]) -> (encoded: Option<Vec<Vec<u8>>>)
    ensures
        match encoded {
            Some(forms) => are_wire_forms(forms@, transactions@) && encoded_bytes(forms@)
                == wire_bytes(transactions@) && all_serializable(transactions@),
            None => !all_serializable(transactions@),
        },
        encoded is Some <==> forall|i: int|
            0 <= i < transactions@.len() ==> wire_form(#[trigger] transactions@[i]) is Some,
        encoded matches Some(forms) ==> forms@.len() == transactions@.len() && forall|i: int|
            0 <= i < forms@.len() ==> Some((#[trigger] forms@[i])@) == wire_form(transactions@[i]),
{
    let mut forms: Vec<Vec<u8>> = Vec::new();
    let mut i: usize = 0;
    while i < transactions.len()
        invariant
            i <= transactions@.len(),
            forms@.len() == i,
            forall|k: int|
                0 <= k < i ==> wire_form(transactions@[k]) == Some((#[trigger] forms@[k])@),
        decreases transactions@.len() - i,
    {
        match serialize_transaction(&transactions[i]) {
            Ok(bytes) => forms.push(bytes),
            Err(_) => {
                assert(wire_form(transactions@[i as int]) is None);
                return None;
            },
        }
        i += 1;
    }
    proof {
        lemma_encoded_bytes(forms@, transactions@);
        assert forall|k: int| 0 <= k < transactions@.len() implies wire_form(
            #[trigger] transactions@[k],
        ) is Some by {
            assert(wire_form(transactions@[k]) == Some(forms@[k]@));
        }
    }
    Some(forms)
}

/// The lengths of `encoded`, added up, or `None` if the sum does not fit.
pub fn total_bytes(encoded: &Vec<Vec<u8>>) -> (bytes: Option<usize>)
    ensures
        match bytes {
            Some(sum) => sum == encoded_bytes(encoded@),
            None => encoded_bytes(encoded@) > usize::MAX,
        },
        match bytes {
            Some(sum) => sum == encoded@.map_values(|form: Vec<u8>| form@).flatten().len(),
            None => encoded@.map_values(|form: Vec<u8>| form@).flatten().len() > usize::MAX,
        },
{
    proof {
        lemma_encoded_bytes_are_all_bytes(encoded@);
    }
    let mut sum: usize = 0;
    let mut i: usize = 0;
    while i < encoded.len()
        invariant
            i <= encoded@.len(),
            sum == encoded_bytes(encoded@.take(i as int)),
        decreases encoded@.len() - i,
    {
        proof {
            lemma_prefix_bytes(encoded@, i + 1);
            assert(encoded@.take(i + 1).drop_last() =~= encoded@.take(i as int));
        }
        match sum.checked_add(encoded[i].len()) {
            Some(more) => {
                sum = more;
            },
            None => {
                proof {
                    lemma_encoded_bytes_are_all_bytes(encoded@);
                }
                return None;
            },
        }
        i += 1;
    }
    assert(encoded@.take(i as int) =~= encoded@);
    Some(sum)
}

/// Each of `encoded` can be read as a transaction.
pub open spec fn all_parsable(encoded: Seq<Vec<u8>>) -> bool {
    forall|i: int| 0 <= i < encoded.len() ==> parsed_form((#[trigger] encoded[i])@) is Some
}

/// How many of the transactions in `encoded` sanitizing accepts.
pub open spec fn sanitary_count(encoded: Seq<Vec<u8>>) -> nat
    decreases encoded.len(),
{
    if encoded.len() == 0 {
        0
    } else {
        sanitary_count(encoded.drop_last()) + if is_sanitary(
            parsed_form(encoded.last()@)->0,
        ) {
            1nat
        } else {
            0nat
        }
    }
}

/// Reads every transaction from its bytes and sanitizes it. Tells how many of
/// them sanitizing accepts, or `None` if one of them cannot be read.
pub fn deserialize_and_sanitize(encoded: &Vec<Vec<u8>>) -> (accepted: Option<usize>)
    ensures
        match accepted {
            Some(count) => all_parsable(encoded@) && count == sanitary_count(encoded@),
            None => !all_parsable(encoded@),
        },
        accepted is Some <==> forall|i: int|
            0 <= i < encoded@.len() ==> parsed_form((#[trigger] encoded@[i])@) is Some,
        accepted matches Some(count) ==> count == encoded@.filter(
            |bytes: Vec<u8>| is_sanitary(parsed_form(bytes@)->0),
        ).len(),
{
    proof {
        lemma_sanitary_count(encoded@);
    }
    let mut accepted: usize = 0;
    let mut i: usize = 0;
    while i < encoded.len()
        invariant
            accepted <= i <= encoded@.len(),
            forall|k: int| 0 <= k < i ==> parsed_form((#[trigger] encoded@[k])@) is Some,
            accepted == sanitary_count(encoded@.take(i as int)),
        decreases encoded@.len() - i,
    {
        assert(encoded@.take(i + 1).drop_last() =~= encoded@.take(i as int));
        match deserialize_transaction(&encoded[i]) {
            Ok(transaction) => {
                if black_box(sanitize_transaction(&transaction)) {
                    accepted += 1;
                }
                black_box(&transaction);
            },
            Err(_) => {
                assert(parsed_form(encoded@[i as int]@) is None);
                return None;
            },
        }
        i += 1;
    }
    assert(encoded@.take(i as int) =~= encoded@);
    Some(accepted)
}

/// Reads and sanitizes every transaction, and takes the time from before the
/// first to after the last. Tells how many of them sanitizing accepts and how
/// much time has passed; `None` if one of them cannot be read. The time is up to
/// the machine, and the contract leaves it open.
pub fn time_deserialize_and_sanitize(encoded: &Vec<Vec<u8>>) -> (timed: Option<(usize, Duration)>)
    ensures
        match timed {
            Some((accepted, _)) => all_parsable(encoded@) && accepted == sanitary_count(encoded@),
            None => !all_parsable(encoded@),
        },
        timed is Some <==> forall|i: int|
            0 <= i < encoded@.len() ==> parsed_form((#[trigger] encoded@[i])@) is Some,
{
    let start = Instant::now();
    match deserialize_and_sanitize(encoded) {
        Some(accepted) => Some((accepted, start.elapsed())),
        None => None,
    }
}

} // verus!
