//! Object names: twenty bytes, written as forty hexadecimal digits.

use vstd::prelude::*;

verus! {

/// The name of a git object.
#[derive(Clone, Copy, Debug)]
pub struct Oid {
    pub bytes: [u8; 20],
}

/// The hexadecimal digit for a number below sixteen.
pub open spec fn hex_digit(n: int) -> char {
    if n < 10 {
        ((48 + n) as u8) as char
    } else {
        ((87 + n) as u8) as char
    }
}

impl Oid {
    /// The forty hexadecimal digits, in lower case.
    pub open spec fn hex(self) -> Seq<char> {
        Seq::new(
            40,
            |i: int|
                hex_digit(
                    if i % 2 == 0 {
                        self.bytes@[i / 2] / 16
                    } else {
                        self.bytes@[i / 2] % 16
                    } as int,
                ),
        )
    }

    /// The object name with the given bytes.
    pub fn from_bytes(bytes: [u8; 20]) -> (oid: Oid)
        ensures
            oid.bytes == bytes,
    {
        Oid { bytes }
    }

    /// The first `len` hexadecimal digits.
    pub fn to_hex(&self, len: usize) -> (s: String)
        requires
            len <= 40,
        ensures
            s@ == self.hex().take(len as int),
    {
        let mut s = String::new();
        let mut i: usize = 0;
        while i < len
            invariant
                i <= len <= 40,
                s@ == self.hex().take(i as int),
            decreases len - i,
        {
            let b: u8 = self.bytes[i / 2];
            let n: u8 = if i % 2 == 0 {
                b / 16
            } else {
                b % 16
            };
            s.push(
                if n < 10 {
                    (48 + n) as char
                } else {
                    (87 + n) as char
                },
            );
            i += 1;
            assert(self.hex().take(i as int) =~= self.hex().take(i - 1).push(self.hex()[i - 1]));
        }
        s
    }
}

impl PartialEq for Oid {
    fn eq(&self, other: &Oid) -> (r: bool) {
        let mut i: usize = 0;
        while i < 20
            invariant
                i <= 20,
                forall|k: int| 0 <= k < i ==> self.bytes@[k] == other.bytes@[k],
            decreases 20 - i,
        {
            if self.bytes[i] != other.bytes[i] {
                return false;
            }
            i += 1;
        }
        assert(self.bytes@ =~= other.bytes@);
        assert(self.bytes =~= other.bytes);
        true
    }
}

impl Eq for Oid {

}

impl vstd::std_specs::cmp::PartialEqSpecImpl for Oid {
    open spec fn obeys_eq_spec() -> bool {
        true
    }

    open spec fn eq_spec(&self, other: &Oid) -> bool {
        *self == *other
    }
}

/// A name is written with two hexadecimal digits for each byte, the higher half first, in lower case.
pub proof fn law_name_is_written_in_hexadecimal(oid: Oid, i: int)
    requires
        0 <= i < 20,
    ensures
        oid.hex().len() == 40,
        ({
            let high = oid.hex()[2 * i];
            let low = oid.hex()[2 * i + 1];
            let worth = |c: char|
                if '0' <= c && c <= '9' {
                    c as int - 48
                } else if 'a' <= c && c <= 'f' {
                    c as int - 87
                } else {
                    -1000
                };
            oid.bytes@[i] == 16 * worth(high) + worth(low)
        }),
{
    let b = oid.bytes@[i];
    assert((2 * i) / 2 == i && (2 * i + 1) / 2 == i && (2 * i) % 2 == 0 && (2 * i + 1) % 2 == 1);
    assert(oid.hex()[2 * i] == hex_digit((b / 16) as int));
    assert(oid.hex()[2 * i + 1] == hex_digit((b % 16) as int));
}

} // verus!
