//! Persistent client state under the state dir: the Ed25519 key (`key`,
//! 32-byte seed) and `state.json` (host_id, report cursor, feed cursors).

use vstd::prelude::*;
use vstd::string::*;

use crate::paths;
use crate::proto::sign::SigningKey;
use crate::sorted::SortedMap;

verus! {

#[derive(Debug, Clone, Copy, PartialEq, Eq, Structural)]
pub struct Cursor {
    /// Inode of the events file the offset refers to.
    pub ino: u64,
    /// Byte offset of the first unconsumed line.
    pub offset: u64,
}

#[derive(Debug, Clone)]
pub struct FeedCursor {
    pub etag: String,
    pub snapshot: i64,
    /// When the set was last replaced as a whole.
    pub last_full: u64,
}

/// A [`FeedCursor`] as values.
pub struct FeedCursorView {
    pub etag: Seq<char>,
    pub snapshot: i64,
    pub last_full: u64,
}

impl View for FeedCursor {
    type V = FeedCursorView;

    open spec fn view(&self) -> FeedCursorView {
        FeedCursorView { etag: self.etag@, snapshot: self.snapshot, last_full: self.last_full }
    }
}

pub struct State {
    pub host_id: Option<String>,
    /// Next report batch sequence number.
    pub next_seq: u64,
    pub cursor: Option<Cursor>,
    /// Keyed by "tier/family", e.g. "basic/v4".
    pub feeds: SortedMap<String, FeedCursor>,
    pub min_report_interval: u64,
    /// When a pull last succeeded.
    pub last_pull_ok: u64,
}

impl State {
    /// The feed table is in order.
    pub open spec fn wf(&self) -> bool {
        self.feeds.wf()
    }

    /// The cursors by feed.
    pub open spec fn cursors(&self) -> Map<Seq<char>, FeedCursorView> {
        self.feeds@.map_values(|c: FeedCursor| c@)
    }
}

impl Default for State {
    fn default() -> (r: Self)
        ensures
            r.wf(),
            r.host_id is None,
            r.next_seq == 0,
            r.cursor is None,
            r.cursors() == Map::<Seq<char>, FeedCursorView>::empty(),
            r.min_report_interval == 0,
            r.last_pull_ok == 0,
    {
        let r = State {
            host_id: None,
            next_seq: 0,
            cursor: None,
            feeds: SortedMap::new(),
            min_report_interval: 0,
            last_pull_ok: 0,
        };
        assert(r.cursors() =~= Map::<Seq<char>, FeedCursorView>::empty());
        r
    }
}

/// Where the state is kept.
#[derive(Debug, Clone)]
pub struct Store {
    pub dir: String,
}

impl Store {
    pub fn state_path(&self) -> (r: String)
        ensures
            r@ == paths::joined(self.dir@, "state.json"@),
    {
        paths::join(self.dir.as_str(), "state.json")
    }

    pub fn key_path(&self) -> (r: String)
        ensures
            r@ == paths::joined(self.dir@, "key"@),
    {
        paths::join(self.dir.as_str(), "key")
    }

    /// The key that the bytes of the key file are.
    pub fn read_key(&self, bytes: &[u8]) -> (r: Result<SigningKey, String>)
        ensures
            match r {
                Ok(k) => bytes@.len() == 32 && k.seed@ == bytes@,
                Err(e) => bytes@.len() != 32 && e@ == "corrupt key file "@ + paths::joined(
                    self.dir@,
                    "key"@,
                ),
            },
    {
        if bytes.len() != 32 {
            let mut out = "corrupt key file ".to_owned();
            let path = self.key_path();
            out.append(path.as_str());
            return Err(out);
        }
        let mut seed = [0u8; 32];
        let mut i: usize = 0;
        while i < 32
            invariant
                i <= 32,
                bytes@.len() == 32,
                seed@.len() == 32,
                forall|j: int| 0 <= j < i ==> seed@[j] == bytes@[j],
            decreases 32 - i,
        {
            seed[i] = bytes[i];
            i += 1;
        }
        assert(seed@ =~= bytes@);
        Ok(SigningKey { seed })
    }
}

/// The cursors by feed are those of the table, field by field.
pub proof fn law_cursors_tell_all(s: State, c: FeedCursor, k: Seq<char>)
    ensures
        c@.etag == c.etag@ && c@.snapshot == c.snapshot && c@.last_full == c.last_full,
        s.cursors().contains_key(k) == s.feeds@.contains_key(k),
        s.feeds@.contains_key(k) ==> s.cursors()[k] == s.feeds@[k]@,
{
}

} // verus!
