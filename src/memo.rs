//! The transposition cache: a concurrent map from a position's key to the
//! best known score for it, shared by every branch of a search.
use vstd::prelude::*;
use crate::ai::{best_move, value};
use crate::game::{outcome, Player, CELLS};
use crate::key::key_of;

verus! {

/// scc's concurrent hash map, opaque here.
#[verifier::external_type_specification]
#[verifier::external_body]
#[verifier::reject_recursive_types(K)]
#[verifier::reject_recursive_types(V)]
#[verifier::reject_recursive_types(H)]
pub struct ExHashMap<K, V, H: std::hash::BuildHasher>(scc::HashMap<K, V, H>);

/// How a cached score relates to the true value of its position.
#[derive(Clone, Copy, Debug, PartialEq, Eq, Structural)]
pub enum Bound {
    /// The score is the value.
    Exact,
    /// The value is at least the score.
    Lower,
    /// The value is at most the score.
    Upper,
}

/// A cached score, the move that gave it, and how the score bounds the value.
pub type Entry = (i8, Option<(u8, u8)>, Bound);

/// `e` is true of board `b` with `p` to move.
pub open spec fn fits(e: Entry, b: Seq<Option<Player>>, p: Player) -> bool {
    &&& -1 <= e.0 <= 1
    &&& match e.2 {
        Bound::Exact => e.0 == value(b, p) && e.1 == best_move(b, p),
        Bound::Lower => value(b, p) >= e.0,
        Bound::Upper => value(b, p) <= e.0,
    }
}

/// `e` is true of every position in play whose key is `k`.
pub open spec fn entry_sound(k: u64, e: Entry) -> bool {
    forall|b: Seq<Option<Player>>, p: Player|
        b.len() == CELLS && outcome(b) is None && #[trigger] key_of(b, p) == k ==> fits(e, b, p)
}

/// The entry that replaces `old` when `new` is stored under the same key: an
/// exact entry is never given up for a bound.
pub fn keep_exact(old: Entry, new: Entry) -> (r: Entry)
    ensures
        r == (if old.2 == Bound::Exact {
            old
        } else {
            new
        }),
{
    match old.2 {
        Bound::Exact => old,
        _ => new,
    }
}

/// Relies on scc::HashMap::new: it makes an empty map.
#[verifier::external_body]
fn empty_map() -> scc::HashMap<u64, Entry> {
    scc::HashMap::new()
}

/// A transposition cache that any number of search branches may share.
pub struct Memo {
    map: scc::HashMap<u64, Entry>,
}

impl Memo {
    /// An empty cache.
    pub fn new() -> Memo {
        Memo { map: empty_map() }
    }

    /// Relies on scc::HashMap::read_sync: it hands the reader the value stored
    /// under `k`, if there is one, and returns what the reader returns. `map`
    /// starts empty and only `store` writes to it, with values sound for their
    /// key.
    #[verifier::external_body]
    pub(crate) fn probe(&self, k: u64) -> (r: Option<Entry>)
        ensures
            r matches Some(e) ==> entry_sound(k, e),
    {
        self.map.read_sync(&k, |_, v| *v)
    }

    /// Relies on scc::HashMap::entry_sync with Entry::and_modify and
    /// Entry::or_insert: under the lock of the key's bucket, a value already
    /// stored under `k` becomes `keep_exact(old, e)`, and a missing one becomes
    /// `e`.
    #[verifier::external_body]
    pub(crate) fn store(&self, k: u64, e: Entry)
        requires
            entry_sound(k, e),
    {
        self.map.entry_sync(k).and_modify(|v| *v = keep_exact(*v, e)).or_insert(e);
    }
}

} // verus!
