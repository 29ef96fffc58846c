use vstd::prelude::*;

use crate::keys::{clone_key, key_eq};

verus! {

/// One record of the append-only store: a key and a value.
pub struct Record {
    pub key: Vec<u8>,
    pub value: Vec<u8>,
}

/// No record lives at the requested offset.
#[derive(Clone, Copy, PartialEq, Eq, Structural, Debug)]
pub struct ReadError;

/// An append-only, offset-addressed record log: the in-memory arena
/// that stands for the persistent store this index writes through.  A
/// record, once appended at an offset, is never overwritten; an
/// update appends a new record at a fresh offset.
pub struct Log {
    pub records: Vec<Record>,
}

impl Log {
    /// The records as mathematical pairs, offset-indexed.
    pub open spec fn view_seq(self) -> Seq<(Seq<u8>, Seq<u8>)> {
        self.records@.map_values(|r: Record| (r.key@, r.value@))
    }

    pub fn new() -> (r: Log)
        ensures
            r.view_seq().len() == 0,
    {
        Log { records: Vec::new() }
    }

    /// The offset the next append will receive.
    pub fn end_offset(&self) -> (r: u64)
        ensures
            r == self.view_seq().len(),
    {
        proof {
            vstd::std_specs::vec::axiom_spec_len(&self.records);
        }
        self.records.len() as u64
    }

    /// Appends a record and returns its offset.
    pub fn append(&mut self, key: Vec<u8>, value: Vec<u8>) -> (off: u64)
        ensures
            final(self).view_seq() == old(self).view_seq().push((key@, value@)),
            off == old(self).view_seq().len(),
    {
        proof {
            vstd::std_specs::vec::axiom_spec_len(&self.records);
        }
        let off = self.records.len() as u64;
        let ghost pre = self.view_seq();
        self.records.push(Record { key, value });
        proof {
            assert(self.view_seq() =~= pre.push((self.records@.last().key@,
                self.records@.last().value@)));
        }
        off
    }

    /// Reads the record at `offset`; an offset past the end fails.
    pub fn read_at(&self, offset: u64) -> (r: Result<Record, ReadError>)
        ensures
            match r {
                Ok(rec) => offset < self.view_seq().len() && (rec.key@, rec.value@)
                    == self.view_seq()[offset as int],
                Err(_) => offset >= self.view_seq().len(),
            },
    {
        if offset >= self.records.len() as u64 {
            return Err(ReadError);
        }
        let i = offset as usize;
        let rec = &self.records[i];
        Ok(Record { key: clone_key(&rec.key), value: clone_key(&rec.value) })
    }

    /// The most recent record bearing `key`, with its offset; used to
    /// bootstrap the index from a well-known marker key.
    pub fn find_latest(&self, key: &Vec<u8>) -> (r: Option<(u64, Vec<u8>)>)
        ensures
            match r {
                Some(p) => {
                    &&& p.0 < self.view_seq().len()
                    &&& self.view_seq()[p.0 as int].0 == key@
                    &&& self.view_seq()[p.0 as int].1 == p.1@
                    &&& forall|j: int| p.0 < j < self.view_seq().len()
                        ==> (#[trigger] self.view_seq()[j]).0 != key@
                },
                None => forall|j: int| 0 <= j < self.view_seq().len()
                    ==> (#[trigger] self.view_seq()[j]).0 != key@,
            },
    {
        let mut i: usize = self.records.len();
        while i > 0
            invariant
                i <= self.records@.len(),
                forall|j: int| i <= j < self.view_seq().len()
                    ==> (#[trigger] self.view_seq()[j]).0 != key@,
            decreases i,
    {
            i = i - 1;
            if key_eq(&self.records[i].key, key) {
                return Some((i as u64, clone_key(&self.records[i].value)));
            }
            proof {
                assert(self.view_seq()[i as int].0 == self.records@[i as int].key@);
            }
        }
        None
    }
}

} // verus!
