use vstd::prelude::*;

verus! {

/// One bit step of the CRC-16 with polynomial 0x8005.
pub open spec fn crc16_step(crc: u16) -> u16 {
    if crc & 0x8000u16 != 0 {
        ((crc << 1u16) ^ 0x8005u16) as u16
    } else {
        (crc << 1u16) as u16
    }
}

/// `n` bit steps of the CRC-16.
pub open spec fn crc16_steps(crc: u16, n: nat) -> u16
    decreases n,
{
    if n == 0 {
        crc
    } else {
        crc16_step(crc16_steps(crc, (n - 1) as nat))
    }
}

/// The CRC-16 (polynomial 0x8005, initial value 0, no reflection) that FLAC frames end
/// with.
pub open spec fn crc16_spec(data: Seq<u8>) -> u16
    decreases data.len(),
{
    if data.len() == 0 {
        0
    } else {
        crc16_steps(crc16_spec(data.drop_last()) ^ ((data.last() as u16) << 8u16), 8)
    }
}

/// The CRC-16 of `data`, as FLAC frames end with it.
pub fn flac_crc16(data: &[u8]) -> (r: u16)
    ensures
        r == crc16_spec(data@),
{
    let mut crc: u16 = 0;
    let mut i: usize = 0;
    proof {
        assert(data@.take(0) =~= Seq::<u8>::empty());
    }
    while i < data.len()
        invariant
            i <= data@.len(),
            crc == crc16_spec(data@.take(i as int)),
        decreases data@.len() - i,
    {
        proof {
            assert(data@.take(i + 1).drop_last() =~= data@.take(i as int));
        }
        crc = crc ^ ((data[i] as u16) << 8);
        let ghost start = crc;
        let mut b: usize = 0;
        while b < 8
            invariant
                b <= 8,
                crc == crc16_steps(start, b as nat),
            decreases 8 - b,
        {
            if crc & 0x8000 != 0 {
                crc = (crc << 1) ^ 0x8005;
            } else {
                crc = crc << 1;
            }
            b = b + 1;
        }
        i = i + 1;
    }
    proof {
        assert(data@.take(data@.len() as int) =~= data@);
    }
    crc
}

/// One bit step of the CRC-8 with polynomial 0x07.
pub open spec fn crc8_step(crc: u8) -> u8 {
    if crc & 0x80u8 != 0 {
        ((crc << 1u8) ^ 0x07u8) as u8
    } else {
        (crc << 1u8) as u8
    }
}

/// `n` bit steps of the CRC-8.
pub open spec fn crc8_steps(crc: u8, n: nat) -> u8
    decreases n,
{
    if n == 0 {
        crc
    } else {
        crc8_step(crc8_steps(crc, (n - 1) as nat))
    }
}

/// The CRC-8 (polynomial 0x07, initial value 0) that FLAC frame headers end with.
pub open spec fn crc8_spec(data: Seq<u8>) -> u8
    decreases data.len(),
{
    if data.len() == 0 {
        0
    } else {
        crc8_steps(crc8_spec(data.drop_last()) ^ data.last(), 8)
    }
}

/// The CRC-8 of `data`.
pub fn flac_crc8(data: &[u8]) -> (r: u8)
    ensures
        r == crc8_spec(data@),
{
    let mut crc: u8 = 0;
    let mut i: usize = 0;
    proof {
        assert(data@.take(0) =~= Seq::<u8>::empty());
    }
    while i < data.len()
        invariant
            i <= data@.len(),
            crc == crc8_spec(data@.take(i as int)),
        decreases data@.len() - i,
    {
        proof {
            assert(data@.take(i + 1).drop_last() =~= data@.take(i as int));
        }
        crc = crc ^ data[i];
        let ghost start = crc;
        let mut b: usize = 0;
        while b < 8
            invariant
                b <= 8,
                crc == crc8_steps(start, b as nat),
            decreases 8 - b,
        {
            if crc & 0x80 != 0 {
                crc = (crc << 1) ^ 0x07;
            } else {
                crc = crc << 1;
            }
            b = b + 1;
        }
        i = i + 1;
    }
    proof {
        assert(data@.take(data@.len() as int) =~= data@);
    }
    crc
}

} // verus!
