//! Ready-made record types: a one-byte record, and a record whose
//! serialized form can be marked bad, for exercising the merge error path.

use vstd::prelude::*;

use crate::files::{file_data, file_pos, read_byte, write_byte, invalid_data_error};
use crate::iter::Sortable;

verus! {

/// A record holding one byte, serialized as that byte itself.
#[derive(Clone, Copy, PartialEq, Eq, Structural, Debug)]
pub struct Num {
    pub the_num: u8,
}

impl Num {
    /// Make a record out of one byte.
    pub fn new(num: u8) -> (r: Num)
        ensures
            r.the_num == num,
    {
        Num { the_num: num }
    }
}

impl Sortable for Num {
    type Error = std::io::Error;

    open spec fn key(&self) -> int {
        self.the_num as int
    }

    open spec fn wf(&self) -> bool {
        true
    }

    open spec fn encoding(&self) -> Seq<u8> {
        seq![self.the_num]
    }

    open spec fn decoded(bytes: Seq<u8>) -> Option<(Num, int)> {
        if bytes.len() >= 1 {
            Some((Num { the_num: bytes[0] }, 1))
        } else {
            None
        }
    }

    fn le(&self, other: &Self) -> (r: bool) {
        self.the_num <= other.the_num
    }

    fn serialize(&self, w: &mut tempfile::SpooledTempFile) -> (r: Result<(), Self::Error>) {
        proof {
            assert forall|rest: Seq<u8>|
                #[trigger] Self::decoded(self.encoding() + rest)
                    == Some((*self, self.encoding().len() as int)) by {
                assert((self.encoding() + rest)[0] == self.the_num);
            }
        }
        match write_byte(w, self.the_num) {
            Ok(()) => {
                proof {
                    assert(file_data(*w) =~= file_data(*old(w)) + self.encoding());
                }
                Ok(())
            }
            Err(e) => Err(e),
        }
    }

    fn deserialize(r: &mut tempfile::SpooledTempFile) -> (res: Option<Result<Self, Self::Error>>) {
        match read_byte(r) {
            Ok(None) => None,
            Ok(Some(b)) => {
                proof {
                    let bytes = file_data(*old(r)).skip(file_pos(*old(r)));
                    assert(bytes[0] == b);
                }
                Some(Ok(Num { the_num: b }))
            }
            Err(e) => Some(Err(e)),
        }
    }
}

/// Law: a one-byte record round-trips: whatever bytes follow its encoding,
/// one decode step yields the record back, unchanged.
pub proof fn lemma_num_round_trip(n: Num, rest: Seq<u8>)
    ensures
        Num::decoded(n.encoding() + rest) == Some((n, 1int)),
{
    assert((n.encoding() + rest)[0] == n.the_num);
}

/// A record holding one byte plus a validity mark.  An intact record
/// round-trips; serializing a corrupt one writes bytes that no decode
/// accepts, so reading them back raises a deserialization error.  Records
/// are ordered by the byte alone.
#[derive(Clone, Copy, PartialEq, Eq, Structural, Debug)]
pub struct Marked {
    pub value: u8,
    pub intact: bool,
}

impl Marked {
    /// An intact record.
    pub fn new(value: u8) -> (r: Marked)
        ensures
            r.value == value && r.intact,
    {
        Marked { value, intact: true }
    }

    /// A corrupt record: staging accepts it, reading it back fails.
    pub fn corrupt(value: u8) -> (r: Marked)
        ensures
            r.value == value && !r.intact,
    {
        Marked { value, intact: false }
    }
}

impl Sortable for Marked {
    type Error = std::io::Error;

    open spec fn key(&self) -> int {
        self.value as int
    }

    open spec fn wf(&self) -> bool {
        self.intact
    }

    open spec fn encoding(&self) -> Seq<u8> {
        seq![if self.intact { 1u8 } else { 0u8 }, self.value]
    }

    open spec fn decoded(bytes: Seq<u8>) -> Option<(Marked, int)> {
        if bytes.len() >= 2 && bytes[0] == 1u8 {
            Some((Marked { value: bytes[1], intact: true }, 2))
        } else {
            None
        }
    }

    fn le(&self, other: &Self) -> (r: bool) {
        self.value <= other.value
    }

    fn serialize(&self, w: &mut tempfile::SpooledTempFile) -> (r: Result<(), Self::Error>) {
        proof {
            if self.wf() {
                assert forall|rest: Seq<u8>|
                    #[trigger] Self::decoded(self.encoding() + rest)
                        == Some((*self, self.encoding().len() as int)) by {
                    assert((self.encoding() + rest)[0] == 1u8);
                    assert((self.encoding() + rest)[1] == self.value);
                }
            }
        }
        let tag: u8 = if self.intact { 1 } else { 0 };
        match write_byte(w, tag) {
            Ok(()) => {}
            Err(e) => {
                return Err(e);
            }
        }
        match write_byte(w, self.value) {
            Ok(()) => {
                proof {
                    assert(file_data(*w) =~= file_data(*old(w)) + self.encoding());
                }
                Ok(())
            }
            Err(e) => Err(e),
        }
    }

    fn deserialize(r: &mut tempfile::SpooledTempFile) -> (res: Option<Result<Self, Self::Error>>) {
        let ghost bytes = file_data(*old(r)).skip(file_pos(*old(r)));
        let tag = match read_byte(r) {
            Ok(None) => {
                return None;
            }
            Ok(Some(b)) => b,
            Err(e) => {
                return Some(Err(e));
            }
        };
        if tag != 1 {
            return Some(Err(invalid_data_error()));
        }
        match read_byte(r) {
            Ok(None) => Some(Err(invalid_data_error())),
            Ok(Some(v)) => {
                proof {
                    assert(bytes[0] == tag);
                    assert(bytes[1] == v);
                }
                Some(Ok(Marked { value: v, intact: true }))
            }
            Err(e) => Some(Err(e)),
        }
    }
}

/// Law: an intact marked record round-trips: whatever bytes follow its
/// encoding, one decode step yields the record back, unchanged.
pub proof fn lemma_marked_round_trip(m: Marked, rest: Seq<u8>)
    requires
        m.wf(),
    ensures
        Marked::decoded(m.encoding() + rest) == Some((m, 2int)),
{
    assert((m.encoding() + rest)[0] == 1u8);
    assert((m.encoding() + rest)[1] == m.value);
}

} // verus!
