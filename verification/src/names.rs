//! Indexing three-letter node names into a dense table.

use vstd::prelude::*;
use vstd::string::StringSliceAdditionalSpecFns;

verus! {

/// The table slot of the distinguished input node.
pub const INP_INDEX: usize = 27 * 27 * 27 - 3;

/// The table slot of the distinguished output node.
pub const OUT_INDEX: usize = 27 * 27 * 27 - 2;

/// The table slot of the distinguished bin node.
pub const BIN_INDEX: usize = 27 * 27 * 27 - 1;

/// The bytes of the name `INP`.
pub open spec fn inp_bytes() -> Seq<u8> {
    seq![73u8, 78u8, 80u8]
}

/// The bytes of the name `OUT`.
pub open spec fn out_bytes() -> Seq<u8> {
    seq![79u8, 85u8, 84u8]
}

/// The bytes of the name `BIN`.
pub open spec fn bin_bytes() -> Seq<u8> {
    seq![66u8, 73u8, 78u8]
}

/// A name is either one of the three distinguished upper-case names or
/// any name of at least three bytes whose first three are lower-case ASCII
/// letters; only those three bytes matter.
pub open spec fn valid_name(b: Seq<u8>) -> bool {
    b == inp_bytes() || b == out_bytes() || b == bin_bytes() || (b.len() >= 3 && forall|i: int|
        0 <= i < 3 ==> 97 <= #[trigger] b[i] <= 122)
}

/// The table slot of a name: the three distinguished names take the last
/// three slots, and every lower-case name is read as a base-27 numeral.
pub open spec fn spec_index(b: Seq<u8>) -> int {
    if b == inp_bytes() {
        INP_INDEX as int
    } else if b == out_bytes() {
        OUT_INDEX as int
    } else if b == bin_bytes() {
        BIN_INDEX as int
    } else {
        (b[0] - 97) * 27 * 27 + (b[1] - 97) * 27 + (b[2] - 97)
    }
}

/// Map a node name to its table slot.
pub fn index(name: &str) -> (r: usize)
    requires
        valid_name(name.spec_bytes()),
    ensures
        r == spec_index(name.spec_bytes()),
{
    let b = name.as_bytes();
    if b.len() == 3 && b[0] == 73 && b[1] == 78 && b[2] == 80 {
        proof {
            assert(b@ =~= inp_bytes());
        }
        INP_INDEX
    } else if b.len() == 3 && b[0] == 79 && b[1] == 85 && b[2] == 84 {
        proof {
            assert(b@ =~= out_bytes());
        }
        OUT_INDEX
    } else if b.len() == 3 && b[0] == 66 && b[1] == 73 && b[2] == 78 {
        proof {
            assert(b@ =~= bin_bytes());
        }
        BIN_INDEX
    } else {
        proof {
            assert(b@ != inp_bytes());
            assert(b@ != out_bytes());
            assert(b@ != bin_bytes());
        }
        ((b[0] - 97) as usize) * 27 * 27 + ((b[1] - 97) as usize) * 27 + ((b[2] - 97) as usize)
    }
}

} // verus!
