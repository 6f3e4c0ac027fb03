#![allow(non_snake_case, non_camel_case_types)]
use vstd::prelude::*;

verus! {

/// A counted UTF-16 string as the operating system hands it over: `Length`
/// and `MaximumLength` count bytes, `Buffer` holds the code units.
pub struct UNICODE_STRING {
    pub Length: u16,
    pub MaximumLength: u16,
    pub Buffer: Vec<u16>,
}

pub type PUNICODE_STRING<'a> = &'a UNICODE_STRING;

pub type BOOLEAN = u8;

/// Byte `i` of the little-endian memory image of `units`.
pub open spec fn unit_byte(units: Seq<u16>, i: int) -> u8 {
    if i % 2 == 0 {
        (units[i / 2] % 256) as u8
    } else {
        (units[i / 2] / 256) as u8
    }
}

impl UNICODE_STRING {
    /// The buffer holds at least `Length` bytes.
    pub open spec fn well_formed(&self) -> bool {
        self.Length <= 2 * self.Buffer@.len()
    }

    /// The first `Length` bytes of the buffer, low byte of each unit first.
    pub open spec fn bytes(&self) -> Seq<u8> {
        Seq::new(self.Length as nat, |i: int| unit_byte(self.Buffer@, i))
    }
}

pub trait PunicodeExt {
    spec fn counted(&self) -> bool;

    spec fn counted_bytes(&self) -> Seq<u8>;

    fn to_bytes(self) -> (bytes: Vec<u8>)
        requires
            self.counted(),
        ensures
            bytes@ == self.counted_bytes(),
    ;
}

impl<'a> PunicodeExt for PUNICODE_STRING<'a> {
    open spec fn counted(&self) -> bool {
        self.well_formed()
    }

    open spec fn counted_bytes(&self) -> Seq<u8> {
        self.bytes()
    }

    fn to_bytes(self) -> (bytes: Vec<u8>) {
        let mut bytes: Vec<u8> = Vec::new();
        let mut i: usize = 0;
        let n: usize = self.Length as usize;
        while i < n
            invariant
                n == self.Length,
                self.well_formed(),
                i <= n,
                bytes@.len() == i,
                forall|j: int| 0 <= j < i ==> bytes@[j] == unit_byte(self.Buffer@, j),
            decreases n - i,
        {
            let unit: u16 = self.Buffer[i / 2];
            let b: u8 = if i % 2 == 0 {
                (unit % 256) as u8
            } else {
                (unit / 256) as u8
            };
            bytes.push(b);
            i += 1;
        }
        assert(bytes@ =~= self.bytes());
        bytes
    }
}

} // verus!
