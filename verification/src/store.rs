//! The in-memory message dictionary: an insertion-ordered mapping from a
//! 32-bit hash to an opaque 32-bit value and a text.

use vstd::prelude::*;

verus! {

/// First position in `s` holding a message with key `hash`, if any.
pub open spec fn find_hash(s: Seq<(u32, u32, Seq<char>)>, hash: u32) -> Option<int>
    decreases s.len(),
{
    if s.len() == 0 {
        None
    } else if s[0].0 == hash {
        Some(0int)
    } else {
        match find_hash(s.drop_first(), hash) {
            Some(i) => Some(i + 1),
            None => None,
        }
    }
}

/// `find_hash` returns the first matching position, or `None` when no
/// message carries the key.
pub proof fn lemma_find_hash(s: Seq<(u32, u32, Seq<char>)>, hash: u32)
    ensures
        match find_hash(s, hash) {
            Some(i) => 0 <= i < s.len() && s[i].0 == hash && (forall|j: int|
                0 <= j < i ==> s[j].0 != hash),
            None => forall|j: int| 0 <= j < s.len() ==> s[j].0 != hash,
        },
    decreases s.len(),
{
    if s.len() > 0 && s[0].0 != hash {
        let t = s.drop_first();
        lemma_find_hash(t, hash);
        match find_hash(t, hash) {
            Some(i2) => {
                assert(s[i2 + 1] == t[i2]);
                assert forall|j: int| 0 <= j < i2 + 1 implies s[j].0 != hash by {
                    if j > 0 {
                        assert(t[j - 1] == s[j]);
                    }
                }
            },
            None => {
                assert forall|j: int| 0 <= j < s.len() implies s[j].0 != hash by {
                    if j > 0 {
                        assert(t[j - 1] == s[j]);
                    }
                }
            },
        }
    }
}

/// A message container: a dictionary from a 32-bit hash to an opaque 32-bit
/// value and a text, iterated in insertion order.
#[derive(Debug)]
pub struct MessageBin {
    pub message: Vec<(u32, u32, String)>,
}

impl Default for MessageBin {
    fn default() -> (r: Self)
        ensures
            r.wf(),
            r.msgs() == Seq::<(u32, u32, Seq<char>)>::empty(),
    {
        let r = MessageBin { message: Vec::new() };
        proof {
            assert(r.msgs() =~= Seq::<(u32, u32, Seq<char>)>::empty());
        }
        r
    }
}

impl MessageBin {
    /// The stored messages, as (hash, opaque value, text) triples in
    /// insertion order.
    pub open spec fn msgs(&self) -> Seq<(u32, u32, Seq<char>)> {
        self.message@.map_values(|m: (u32, u32, String)| (m.0, m.1, m.2@))
    }

    /// Hashes are unique: each key owns exactly one position.
    pub open spec fn wf(&self) -> bool {
        forall|i: int, j: int|
            0 <= i < j < self.msgs().len() ==> (#[trigger] self.msgs()[i]).0
                != (#[trigger] self.msgs()[j]).0
    }

    /// Return all the hash, the unk value and message content stored in the file.
    pub fn messages(&self) -> (r: &Vec<(u32, u32, String)>)
        ensures
            r@.len() == self.msgs().len(),
            forall|i: int|
                0 <= i < r@.len() ==> (#[trigger] r@[i]).0 == self.msgs()[i].0 && r@[i].1
                    == self.msgs()[i].1 && r@[i].2@ == self.msgs()[i].2,
    {
        &self.message
    }

    /// Return the message content with the given hash if it exists.
    pub fn message_by_hash(&self, hash: u32) -> (r: Option<&String>)
        ensures
            match r {
                Some(t) => {
                    &&& find_hash(self.msgs(), hash) is Some
                    &&& t@ == self.msgs()[find_hash(self.msgs(), hash)->0].2
                },
                None => find_hash(self.msgs(), hash) is None,
            },
    {
        let mut i: usize = 0;
        while i < self.message.len()
            invariant
                0 <= i <= self.message.len(),
                forall|j: int| 0 <= j < i ==> (#[trigger] self.msgs()[j]).0 != hash,
            decreases self.message.len() - i,
        {
            if self.message[i].0 == hash {
                proof {
                    lemma_find_hash(self.msgs(), hash);
                    assert(self.msgs()[i as int].0 == hash);
                }
                return Some(&self.message[i].2);
            }
            i += 1;
        }
        proof {
            lemma_find_hash(self.msgs(), hash);
        }
        None
    }

    /// If the hash is already present, update the message content and the
    /// unknown value in place; otherwise append a new message at the end.
    pub fn insert(&mut self, hash: u32, unk: u32, message: String)
        requires
            old(self).wf(),
        ensures
            final(self).wf(),
            match find_hash(old(self).msgs(), hash) {
                Some(i) => final(self).msgs() == old(self).msgs().update(
                    i,
                    (hash, unk, message@),
                ),
                None => final(self).msgs() == old(self).msgs().push((hash, unk, message@)),
            },
    {
        let ghost orig = old(self).msgs();
        let mut i: usize = 0;
        while i < self.message.len()
            invariant
                0 <= i <= self.message.len(),
                orig == old(self).msgs(),
                self.msgs() == orig,
                forall|ii: int, jj: int|
                    0 <= ii < jj < orig.len() ==> (#[trigger] orig[ii]).0 != (
                    #[trigger] orig[jj]).0,
                forall|j: int| 0 <= j < i ==> (#[trigger] self.msgs()[j]).0 != hash,
            decreases self.message.len() - i,
        {
            if self.message[i].0 == hash {
                proof {
                    lemma_find_hash(orig, hash);
                    assert(orig[i as int].0 == hash);
                    assert(find_hash(orig, hash) == Some(i as int));
                }
                self.message.set(i, (hash, unk, message));
                proof {
                    assert(self.msgs() =~= orig.update(i as int, (hash, unk, message@)));
                    assert forall|ii: int, jj: int|
                        0 <= ii < jj < self.msgs().len() implies (#[trigger] self.msgs()[ii]).0
                        != (#[trigger] self.msgs()[jj]).0 by {
                        assert(self.msgs()[ii].0 == orig[ii].0);
                        assert(self.msgs()[jj].0 == orig[jj].0);
                    }
                }
                return ;
            }
            i += 1;
        }
        proof {
            lemma_find_hash(orig, hash);
        }
        self.message.push((hash, unk, message));
        proof {
            assert(self.msgs() =~= orig.push((hash, unk, message@)));
        }
    }
}

} // verus!
