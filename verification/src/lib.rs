//! A replicated directory-tree model: a sorted `Entry` tree with a verified
//! insertion algorithm, a structural codec that recomputes derived caches on
//! load, and the state machines that replicate a tree from its owning process
//! to read-only remote mirrors.
mod codec;
mod entry;
mod insert;
mod order;
mod replica;
mod snapshot;

pub use codec::decode;
pub use codec::encode;
pub use codec::lemma_codec_round_trip;
pub use codec::lemma_encode_sorted;
pub use codec::wire_matches;
pub use codec::wire_sorted;
pub use codec::wires_match;
pub use codec::IdGenerator;
pub use codec::WireDir;
pub use codec::WireEntry;
pub use codec::WireFile;
pub use entry::contains_name;
pub use entry::entries_caches_ok;
pub use entry::entries_sorted_ok;
pub use entry::sorted_by_name;
pub use entry::DirInner;
pub use entry::Entry;
pub use entry::EntryId;
pub use entry::FileInner;
pub use insert::insert_sorted;
pub use insert::TreeError;
pub use order::lex_lt;
pub use replica::RemoteTree;
pub use replica::TreeService;
pub use snapshot::children_structurally_equal;
pub use snapshot::entries_equal;
pub use snapshot::entry_equal;
pub use snapshot::lemma_entry_equal_structural;
pub use snapshot::structural_eq;
pub use snapshot::structurally_equal;
