//! How many bytes of memory an entry counts for.
use vstd::prelude::*;

use crate::entry::{EntryValue, Record, ValueView};
use crate::fields::{list_fields, pairs_of};
use crate::sums::{lemma_listing_sum, lemma_seq_sum_take, map_sum, seq_sum};

verus! {

/// What every entry counts for beside its bytes.
pub const ENTRY_OVERHEAD: usize = 64;

/// What a hash counts for beside its key, its fields and the overhead of an entry.
pub const HASH_OVERHEAD: usize = 128;

/// A size that does not fit counts as the largest one that does.
pub open spec fn clamped(n: nat) -> nat {
    if n <= usize::MAX {
        n
    } else {
        usize::MAX as nat
    }
}

/// What one field counts for: the bytes of its name and of its value.
pub open spec fn field_weight() -> spec_fn(Seq<u8>, Seq<u8>) -> nat {
    |field: Seq<u8>, value: Seq<u8>| field.len() + value.len()
}

/// What a value counts for under a key of `key_len` bytes.
pub open spec fn value_size(key_len: nat, value: ValueView) -> nat {
    match value {
        ValueView::Text(text) => clamped(key_len + text.len() + ENTRY_OVERHEAD as nat),
        ValueView::Hash(fields) => clamped(
            key_len + ENTRY_OVERHEAD as nat + HASH_OVERHEAD as nat + map_sum(
                fields,
                field_weight(),
            ),
        ),
    }
}

/// What a record counts for under its key.
pub open spec fn record_size(key: Seq<u8>, record: Record) -> nat {
    value_size(key.len(), record.value)
}

/// What each record of a store counts for.
pub open spec fn record_weight() -> spec_fn(Seq<u8>, Record) -> nat {
    |key: Seq<u8>, record: Record| record_size(key, record)
}

/// What each record of a store counts for while it has not expired.
pub open spec fn live_weight(now: u64) -> spec_fn(Seq<u8>, Record) -> nat {
    |key: Seq<u8>, record: Record|
        if record.expired(now) {
            0
        } else {
            record_size(key, record)
        }
}

/// What a byte string of `value_len` bytes counts for under a key of `key_len` bytes.
pub fn entry_size(key_len: usize, value_len: usize) -> (size: usize)
    ensures
        size == clamped(key_len as nat + value_len as nat + ENTRY_OVERHEAD as nat),
{
    key_len.saturating_add(value_len).saturating_add(ENTRY_OVERHEAD)
}

/// What a value counts for under a key of `key_len` bytes.
pub fn calculate_entry_size(key_len: usize, value: &EntryValue) -> (size: usize)
    ensures
        size == value_size(key_len as nat, value@),
{
    match value {
        EntryValue::String(text) => entry_size(key_len, text.len()),
        EntryValue::Hash(hash) => {
            let list = list_fields(hash);
            let base: usize = key_len.saturating_add(ENTRY_OVERHEAD).saturating_add(HASH_OVERHEAD);
            let mut size: usize = base;
            let mut i: usize = 0;
            let ghost pairs = pairs_of(list@);
            let ghost fixed = key_len as nat + ENTRY_OVERHEAD as nat + HASH_OVERHEAD as nat;
            proof {
                assert(pairs.take(0) =~= Seq::empty());
            }
            while i < list.len()
                invariant
                    i <= list.len(),
                    pairs == pairs_of(list@),
                    size == clamped(fixed + seq_sum(pairs.take(i as int), field_weight())),
                decreases list.len() - i,
            {
                let (field, value) = &list[i];
                proof {
                    lemma_seq_sum_take(pairs, i as int, field_weight());
                }
                size = size.saturating_add(field.len()).saturating_add(value.len());
                i += 1;
            }
            proof {
                assert(pairs.take(list.len() as int) =~= pairs);
                lemma_listing_sum(pairs, value@->Hash_0, field_weight());
            }
            size
        },
    }
}

} // verus!
