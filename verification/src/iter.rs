//! A cursor that walks successive entries out of one text buffer.

use vstd::prelude::*;
use vstd::string::*;
use crate::entry::{Entry, EntryError};
use crate::grammar::spec_parse_entry;

verus! {

/// Walks entries off the front of a borrowed buffer, reparsing one reusable
/// [`Entry`] in place at each step. After a parse error the remaining buffer
/// is dropped: iteration is not resumable.
pub struct ChangelogIter<'a> {
    /// The whole source buffer.
    pub data: &'a str,
    /// How many characters of `data` the cursor has consumed.
    pub pos: usize,
    /// The scratch record the steps parse into; after a successful step it
    /// holds the entry just read.
    pub entry: Entry,
}

impl<'a> ChangelogIter<'a> {
    /// The cursor has not run past the end of its buffer.
    pub open spec fn wf(&self) -> bool {
        self.pos <= self.data@.len()
    }

    /// The part of the buffer not consumed yet.
    pub open spec fn remaining(&self) -> Seq<char> {
        self.data@.subrange(self.pos as int, self.data@.len() as int)
    }

    pub fn new(entry: Entry, data: &'a str) -> (it: Self)
        ensures
            it.wf(),
            it.remaining() =~= data@,
            it.entry == entry,
    {
        ChangelogIter { data, pos: 0, entry }
    }

    /// Parse the next entry out of the remaining buffer into `self.entry`.
    /// Yields `None` once the buffer is exhausted (a clean end); yields the
    /// parse error once and drops the rest of the buffer if a parse fails.
    pub fn next(&mut self) -> (r: Option<Result<(), EntryError>>)
        requires
            old(self).wf(),
        ensures
            final(self).wf(),
            final(self).data == old(self).data,
            ({
                let rem = old(self).remaining();
                if rem.len() == 0 {
                    r is None && *final(self) == *old(self)
                } else {
                    match spec_parse_entry(rem) {
                        Ok(p) => {
                            &&& r == Some(Result::<(), EntryError>::Ok(()))
                            &&& final(self).entry@ == p.0
                            &&& final(self).remaining() =~= rem.subrange(p.1, rem.len() as int)
                        },
                        Err(ev) => {
                            &&& r matches Some(e) && e matches Err(er) && er@ == ev
                            &&& final(self).remaining().len() == 0
                        },
                    }
                }
            }),
    {
        let n = self.data.unicode_len();
        if self.pos >= n {
            return None;
        }
        let rem = self.data.substring_char(self.pos, n);
        match self.entry.parse_from_str(rem) {
            Ok(read) => {
                self.pos = self.pos + read;
                proof {
                    assert(self.remaining() =~= rem@.subrange(
                        read as int,
                        rem@.len() as int,
                    ));
                }
                Some(Ok(()))
            },
            Err(why) => {
                self.pos = n;
                Some(Err(why))
            },
        }
    }
}

} // verus!
