//! What numbers and bytes look like in messages.
use crate::error::{ContinuityError, ErrorText, MempoolError, ScanError, SyncError};
use crate::text::{decimal, digit, reversed_hex};
use vstd::prelude::*;

verus! {

/// The number that decimal digits stand for.
pub open spec fn decimal_value(digits: Seq<char>) -> int
    decreases digits.len(),
{
    if digits.len() == 0 {
        0
    } else {
        10 * decimal_value(digits.drop_last()) + (digits.last() as int - '0' as int)
    }
}

/// A number is written with decimal digits that stand for it, without a zero in front.
pub proof fn law_digits_stand_for_the_number(n: nat)
    ensures
        decimal_value(decimal(n)) == n,
        decimal(n).len() > 0,
        decimal(n)[0] == '0' ==> n == 0 && decimal(n).len() == 1,
        forall|i: int| 0 <= i < decimal(n).len() ==> '0' <= #[trigger] decimal(n)[i] <= '9',
    decreases n,
{
    if n < 10 {
        reveal_with_fuel(decimal_value, 2);
        assert(decimal(n).drop_last() =~= Seq::empty());
    } else {
        law_digits_stand_for_the_number(n / 10);
        let front = decimal(n / 10);
        let all = front.push(digit((n % 10) as int));
        assert(all.drop_last() =~= front);
        assert(all[0] == front[0]);
        assert forall|i: int| 0 <= i < all.len() implies '0' <= #[trigger] all[i] <= '9' by {
            if i < front.len() {
                assert(all[i] == front[i]);
            }
        }
    }
}

/// The character of a digit of base sixteen.
pub open spec fn is_hex_of(c: char, d: int) -> bool {
    if d < 10 {
        c as int == '0' as int + d
    } else {
        c as int == 'a' as int + d - 10
    }
}

/// Bytes are written from the last to the first, each as two digits of base sixteen, the higher one first.
pub proof fn law_the_last_byte_is_written_first(bytes: Seq<u8>, k: int)
    requires
        0 <= k < bytes.len(),
    ensures
        reversed_hex(bytes).len() == 2 * bytes.len(),
        is_hex_of(reversed_hex(bytes)[2 * k], bytes[bytes.len() - 1 - k] as int / 16),
        is_hex_of(reversed_hex(bytes)[2 * k + 1], bytes[bytes.len() - 1 - k] as int % 16),
    decreases bytes.len(),
{
    let rest = bytes.drop_last();
    lemma_hex_length(bytes);
    if k > 0 {
        law_the_last_byte_is_written_first(rest, k - 1);
    }
}

proof fn lemma_hex_length(bytes: Seq<u8>)
    ensures
        reversed_hex(bytes).len() == 2 * bytes.len(),
    decreases bytes.len(),
{
    if bytes.len() > 0 {
        lemma_hex_length(bytes.drop_last());
    }
}

// --- messages ---

/// Whether a text ends with another.
pub open spec fn ends_with(text: Seq<char>, end: Seq<char>) -> bool {
    text.len() >= end.len() && text.skip(text.len() - end.len()) == end
}

proof fn lemma_ends_with(front: Seq<char>, end: Seq<char>)
    ensures
        ends_with(front + end, end),
{
    assert((front + end).skip(front.len() as int) =~= end);
}

/// What was expected is told before what was found: the message of an error ends with the latter.
pub proof fn law_messages_end_with_what_was_found<E: ErrorText>(error: SyncError<E>)
    ensures
        error matches SyncError::ChainError(_, _, chain) ==> ends_with(error.text(), decimal(chain as nat)),
        error matches SyncError::PoolHistoryReopened { block_metadata_size, .. } ==> ends_with(
            error.text(),
            decimal(block_metadata_size as nat),
        ),
        error matches SyncError::TransparentAddressDerivationError(detail) ==> ends_with(error.text(), detail@),
        error matches SyncError::WalletError(inner) ==> ends_with(error.text(), inner.text()),
{
    assert forall|front: Seq<char>, end: Seq<char>| ends_with(#[trigger] (front + end), end) by {
        lemma_ends_with(front, end);
    }
}

/// As [`law_messages_end_with_what_was_found`] says, of the errors of a scan.
pub proof fn law_scan_messages_end_with_what_was_found(error: ScanError)
    ensures
        error matches ScanError::IncorrectTreeSize { calculated_size, .. } ==> ends_with(
            error.text(),
            decimal(calculated_size as nat),
        ),
        error matches ScanError::IncorrectTxid { txid_returned, .. } ==> ends_with(
            error.text(),
            reversed_hex(txid_returned.bytes@),
        ),
        error matches ScanError::InvalidOrchardNullifierLength(length) ==> ends_with(error.text(), decimal(length as nat)),
        error matches ScanError::TransparentOutputInvalidValue(value) ==> ends_with(error.text(), decimal(value as nat)),
        error matches ScanError::TransparentAddressDerivationError(detail) ==> ends_with(error.text(), detail@),
{
    assert forall|front: Seq<char>, end: Seq<char>| ends_with(#[trigger] (front + end), end) by {
        lemma_ends_with(front, end);
    }
}

/// A break is told with the block before it at the end of the message.
pub proof fn law_breaks_end_with_the_block_before(error: ContinuityError)
    ensures
        error matches ContinuityError::HeightDiscontinuity { previous_block_height, .. } ==> ends_with(
            error.text(),
            decimal(previous_block_height as nat),
        ),
        error matches ContinuityError::HashDiscontinuity { previous_block_hash, .. } ==> ends_with(
            error.text(),
            reversed_hex(previous_block_hash@),
        ),
{
    assert forall|front: Seq<char>, end: Seq<char>| ends_with(#[trigger] (front + end), end) by {
        lemma_ends_with(front, end);
    }
}

/// An error is told before the error within it, down to the innermost.
pub proof fn law_errors_are_told_from_the_outside<E: ErrorText>(error: SyncError<E>)
    ensures
        error.chain_texts().len() >= 1,
        error.chain_texts()[0] == error.text(),
        error matches SyncError::ServerError(inner) ==> error.chain_texts()[1] == inner.text(),
        error matches SyncError::SyncModeError(inner) ==> error.chain_texts() == seq![error.text(), inner.text()],
        error matches SyncError::ShardTreeError(inner) ==> error.chain_texts() == seq![error.text(), inner.text()],
        error matches SyncError::MempoolError(MempoolError::ServerError(inner)) ==> error.chain_texts().len() >= 3
            && error.chain_texts()[2] == inner.text(),
        error matches SyncError::ScanError(inner) ==> error.chain_texts()[1] == inner.text(),
        error matches SyncError::ScanError(ScanError::ServerError(inner)) ==> error.chain_texts().len() >= 3
            && error.chain_texts()[2] == inner.text(),
        error matches SyncError::ScanError(ScanError::ContinuityError(inner)) ==> error.chain_texts().len() == 3
            && error.chain_texts()[2] == inner.text(),
{
}

} // verus!
