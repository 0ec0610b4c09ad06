//! A table from hash codes to rows, and the hash codes of texts. The table
//! answers which rows were put under a code; whether a row under the code of
//! a key holds that key is for the caller to compare.

use std::collections::HashMap;
use vstd::prelude::*;
use vstd::utf8::encode_utf8;

verus! {

broadcast use vstd::std_specs::hash::group_hash_axioms;

/// The code that starts the hash of a sequence of bytes.
pub const CODE_SEED: u64 = 7;

/// The code of a sequence of bytes that continues one with code `h` by `b`.
pub open spec fn code_step(h: u64, b: u8) -> u64 {
    ((h * 31 + b) % 0x1_0000_0000_0000_0000) as u64
}

/// The hash code of a sequence of bytes.
pub open spec fn bytes_code(bytes: Seq<u8>) -> u64
    decreases bytes.len(),
{
    if bytes.len() == 0 {
        CODE_SEED
    } else {
        code_step(bytes_code(bytes.drop_last()), bytes.last())
    }
}

/// The hash code of a text: that of its bytes in UTF-8.
pub open spec fn text_code(text: Seq<char>) -> u64 {
    bytes_code(encode_utf8(text))
}

/// The hash code of a sequence of bytes.
pub fn code_of_bytes(bytes: &[u8]) -> (h: u64)
    ensures
        h == bytes_code(bytes@),
{
    let mut h: u64 = CODE_SEED;
    let mut i: usize = 0;
    assert(bytes@.take(0) =~= Seq::<u8>::empty());
    while i < bytes.len()
        invariant
            i <= bytes.len(),
            h == bytes_code(bytes@.take(i as int)),
        decreases bytes.len() - i,
    {
        assert(bytes@.take(i + 1).drop_last() =~= bytes@.take(i as int));
        assert(bytes@.take(i + 1).last() == bytes@[i as int]);
        h = ((h as u128 * 31 + bytes[i] as u128) % 0x1_0000_0000_0000_0000u128) as u64;
        i += 1;
    }
    assert(bytes@.take(i as int) =~= bytes@);
    h
}

/// The hash code of a text.
pub fn code_of_text(text: &str) -> (h: u64)
    ensures
        h == text_code(text@),
{
    code_of_bytes(text.as_bytes())
}

/// A table from hash codes to the rows that were put under them, each list of
/// rows in the order in which the rows were put.
pub struct Buckets {
    map: HashMap<u64, Vec<usize>>,
}

impl Buckets {
    /// The rows under `code`.
    pub closed spec fn rows(&self, code: u64) -> Seq<usize> {
        if self.map@.contains_key(code) {
            self.map@[code]@
        } else {
            Seq::empty()
        }
    }

    /// The table with no rows.
    pub fn new() -> (b: Buckets)
        ensures
            forall|code: u64| #[trigger] b.rows(code) == Seq::<usize>::empty(),
    {
        Buckets { map: HashMap::new() }
    }

    /// The rows under `code`, where there are any.
    pub fn rows_under(&self, code: u64) -> (r: Option<&Vec<usize>>)
        ensures
            match r {
                Some(rows) => rows@ == self.rows(code),
                None => self.rows(code) == Seq::<usize>::empty(),
            },
    {
        self.map.get(&code)
    }

    /// Puts `row` under `code`, after the rows that are there.
    pub fn add(&mut self, code: u64, row: usize)
        ensures
            final(self).rows(code) == old(self).rows(code).push(row),
            forall|other: u64| other != code ==> #[trigger] final(self).rows(other) == old(
                self,
            ).rows(other),
    {
        let mut rows = match self.map.remove(&code) {
            Some(rows) => rows,
            None => Vec::new(),
        };
        rows.push(row);
        self.map.insert(code, rows);
    }
}

} // verus!
