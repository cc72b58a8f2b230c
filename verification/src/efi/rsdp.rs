//! The root system description pointer of ACPI, read from bytes.
use crate::bytes::{le_u32, le_u64, read_u32, read_u64};
use vstd::prelude::*;

verus! {

/// The signature that the structure starts with: the characters `RSD PTR `.
pub open spec fn signature() -> Seq<u8> {
    seq![0x52u8, 0x53, 0x44, 0x20, 0x50, 0x54, 0x52, 0x20]
}

/// The root system description pointer of the first version of ACPI: 20
/// bytes.
#[allow(non_snake_case)]
#[derive(Copy, Clone, Debug, PartialEq, Eq)]
pub struct RSDP {
    pub Signature: [u8; 8],
    pub Checksum: u8,
    pub OEMID: [u8; 6],
    pub Revision: u8,
    pub RsdtAddress: u32,
}

/// The root system description pointer of the second version of ACPI: the
/// first one and 16 bytes more.
#[allow(non_snake_case)]
#[derive(Copy, Clone, Debug, PartialEq, Eq)]
pub struct RSDP2 {
    pub rsdp: RSDP,
    pub Length: u32,
    pub XSdtAddress: u64,
    pub ExtendedChecksum: u8,
    pub RESERVED: [u8; 3],
}

impl RSDP {
    /// The structure that `bytes` hold: its fields as they stand in the
    /// first 20 bytes.
    pub open spec fn holds(self, bytes: Seq<u8>) -> bool {
        &&& self.Signature@ == bytes.subrange(0, 8)
        &&& self.Checksum == bytes[8]
        &&& self.OEMID@ == bytes.subrange(9, 15)
        &&& self.Revision == bytes[15]
        &&& self.RsdtAddress == le_u32(bytes.subrange(16, 20))
    }

    /// The bytes can be the structure: there are at least 20 of them, and
    /// they start with the signature.
    pub open spec fn accepts(bytes: Seq<u8>) -> bool {
        bytes.len() >= 20 && bytes.subrange(0, 8) == signature()
    }

    /// Reads the structure from bytes. It is an error if there are fewer
    /// than 20 bytes or if they do not start with the signature; a
    /// structure that is returned has the right signature, no more is
    /// checked.
    pub fn from_bytes(bytes: &[u8]) -> (r: Result<Self, ()>)
        ensures
            r is Ok <==> Self::accepts(bytes@),
            r matches Ok(p) ==> p.holds(bytes@),
    {
        if bytes.len() < 20 {
            return Err(());
        }
        let sig: [u8; 8] = [
            bytes[0],
            bytes[1],
            bytes[2],
            bytes[3],
            bytes[4],
            bytes[5],
            bytes[6],
            bytes[7],
        ];
        let magic: [u8; 8] = [0x52, 0x53, 0x44, 0x20, 0x50, 0x54, 0x52, 0x20];
        let mut i: usize = 0;
        while i < 8
            invariant
                i <= 8,
                bytes@.len() >= 20,
                magic@ == signature(),
                forall|j: int| 0 <= j < i ==> bytes@[j] == signature()[j],
            decreases 8 - i,
        {
            if bytes[i] != magic[i] {
                proof {
                    assert(bytes@.subrange(0, 8)[i as int] != signature()[i as int]);
                }
                return Err(());
            }
            i += 1;
        }
        let oem: [u8; 6] = [bytes[9], bytes[10], bytes[11], bytes[12], bytes[13], bytes[14]];
        let p = RSDP {
            Signature: sig,
            Checksum: bytes[8],
            OEMID: oem,
            Revision: bytes[15],
            RsdtAddress: read_u32(bytes, 16),
        };
        proof {
            assert(bytes@.subrange(0, 8) =~= signature());
            assert(sig@ =~= bytes@.subrange(0, 8));
            assert(oem@ =~= bytes@.subrange(9, 15));
        }
        Ok(p)
    }
}

impl RSDP2 {
    /// The structure that `bytes` hold: its fields as they stand in the
    /// first 36 bytes.
    pub open spec fn holds(self, bytes: Seq<u8>) -> bool {
        &&& self.rsdp.holds(bytes)
        &&& self.Length == le_u32(bytes.subrange(20, 24))
        &&& self.XSdtAddress == le_u64(bytes.subrange(24, 32))
        &&& self.ExtendedChecksum == bytes[32]
        &&& self.RESERVED@ == bytes.subrange(33, 36)
    }

    /// The bytes can be the structure: there are at least 36 of them, they
    /// start with the signature, and the length that they state is at least
    /// 36.
    pub open spec fn accepts(bytes: Seq<u8>) -> bool {
        &&& bytes.len() >= 36
        &&& bytes.subrange(0, 8) == signature()
        &&& le_u32(bytes.subrange(20, 24)) >= 36
    }

    /// Reads the structure from bytes. It is an error if there are fewer
    /// than 36 bytes, if they do not start with the signature, or if the
    /// length that they state is below 36.
    pub fn from_bytes(bytes: &[u8]) -> (r: Result<Self, ()>)
        ensures
            r is Ok <==> Self::accepts(bytes@),
            r matches Ok(p) ==> p.holds(bytes@),
    {
        if bytes.len() < 36 {
            return Err(());
        }
        let rsdp = match RSDP::from_bytes(bytes) {
            Ok(p) => p,
            Err(()) => {
                return Err(());
            },
        };
        let length = read_u32(bytes, 20);
        if length < 36 {
            return Err(());
        }
        let reserved: [u8; 3] = [bytes[33], bytes[34], bytes[35]];
        proof {
            assert(reserved@ =~= bytes@.subrange(33, 36));
        }
        Ok(
            RSDP2 {
                rsdp,
                Length: length,
                XSdtAddress: read_u64(bytes, 24),
                ExtendedChecksum: bytes[32],
                RESERVED: reserved,
            },
        )
    }
}

} // verus!
