//! The default MMIO backend: transfers of any length made of volatile accesses.
use vstd::prelude::*;

use crate::chunk::{aligned_for, lemma_single_access_sizes, Width};
use crate::custom_mmio::{read_next, single_width, write_next, MmioOps};
use crate::device::{all_performed, Mmio};
use crate::repr::ByteOrder;
use crate::trace::{
    lemma_read_done, lemma_read_start, lemma_write_done, lemma_write_start, read_in_progress,
    read_transfer, write_in_progress, write_transfer,
};

verus! {

/// Reads `len` bytes from MMIO at `src` with the accesses of `M` (volatile
/// loads in the default backend) made through `dev`, and returns them in
/// memory order. A length of 1, 2, 4 or 8 is one access; any other length is
/// walked from offset 0 with the widest access that still fits.
#[verifier::rlimit(30)]
pub fn safe_mmio_read<M: MmioOps>(dev: &mut Mmio<M>, src: usize, len: usize, order: ByteOrder) -> (dst:
    Vec<u8>)
    requires
        src + len <= usize::MAX,
        aligned_for(src as int, len as nat),
    ensures
        dst@.len() == len,
        read_transfer(old(dev).log(), final(dev).log(), src as int, len as nat, order, dst@),
        all_performed::<M>(final(dev).log()),
{
    let ghost log0 = dev.log();
    let mut dst: Vec<u8> = Vec::new();
    proof {
        lemma_read_start(log0, src, len, order);
    }
    match len {
        1 | 2 | 4 | 8 => {
            proof {
                lemma_single_access_sizes(len);
            }
            let width = single_width(len);
            read_next(dev, src, 0, len, width, &mut dst, order, Ghost(log0));
        },
        _ => {
            let mut offset: usize = 0;
            while len - offset >= 8
                invariant
                    offset <= len,
                    read_in_progress(log0, dev.log(), src as int, len as nat, offset as nat, order, dst@),
                decreases len - offset,
            {
                offset = read_next(dev, src, offset, len, Width::U64, &mut dst, order, Ghost(log0));
            }
            while len - offset >= 4
                invariant
                    offset <= len < offset + 8,
                    read_in_progress(log0, dev.log(), src as int, len as nat, offset as nat, order, dst@),
                decreases len - offset,
            {
                offset = read_next(dev, src, offset, len, Width::U32, &mut dst, order, Ghost(log0));
            }
            while len - offset >= 2
                invariant
                    offset <= len < offset + 4,
                    read_in_progress(log0, dev.log(), src as int, len as nat, offset as nat, order, dst@),
                decreases len - offset,
            {
                offset = read_next(dev, src, offset, len, Width::U16, &mut dst, order, Ghost(log0));
            }
            if offset < len {
                offset = read_next(dev, src, offset, len, Width::U8, &mut dst, order, Ghost(log0));
            }
        },
    }
    proof {
        lemma_read_done(log0, dev.log(), src as int, len as nat, order, dst@);
        use_type_invariant(&*dev);
        dev.lemma_log_performed();
    }
    dst
}

/// Writes the bytes `src` to MMIO at `dst` with the accesses of `M` (volatile
/// stores in the default backend) made through `dev`; each access writes the
/// value that its bytes hold in `order`. A length of 1, 2, 4 or 8 is one
/// access; any other length is walked from offset 0 with the widest access
/// that still fits.
#[verifier::rlimit(30)]
pub fn safe_mmio_write<M: MmioOps>(dev: &mut Mmio<M>, dst: usize, src: &[u8], order: ByteOrder)
    requires
        dst + src@.len() <= usize::MAX,
        aligned_for(dst as int, src@.len()),
    ensures
        write_transfer(old(dev).log(), final(dev).log(), dst as int, src@, order),
        all_performed::<M>(final(dev).log()),
{
    let ghost log0 = dev.log();
    let len = src.len();
    proof {
        lemma_write_start(log0, dst, src@, order);
    }
    match len {
        1 | 2 | 4 | 8 => {
            proof {
                lemma_single_access_sizes(len);
            }
            let width = single_width(len);
            write_next(dev, dst, 0, width, src, order, Ghost(log0));
        },
        _ => {
            let mut offset: usize = 0;
            while len - offset >= 8
                invariant
                    offset <= len,
                    len == src@.len(),
                    write_in_progress(log0, dev.log(), dst as int, src@, offset as nat, order),
                decreases len - offset,
            {
                offset = write_next(dev, dst, offset, Width::U64, src, order, Ghost(log0));
            }
            while len - offset >= 4
                invariant
                    offset <= len < offset + 8,
                    len == src@.len(),
                    write_in_progress(log0, dev.log(), dst as int, src@, offset as nat, order),
                decreases len - offset,
            {
                offset = write_next(dev, dst, offset, Width::U32, src, order, Ghost(log0));
            }
            while len - offset >= 2
                invariant
                    offset <= len < offset + 4,
                    len == src@.len(),
                    write_in_progress(log0, dev.log(), dst as int, src@, offset as nat, order),
                decreases len - offset,
            {
                offset = write_next(dev, dst, offset, Width::U16, src, order, Ghost(log0));
            }
            if offset < len {
                offset = write_next(dev, dst, offset, Width::U8, src, order, Ghost(log0));
            }
        },
    }
    proof {
        lemma_write_done(log0, dev.log(), dst as int, src@, order);
        use_type_invariant(&*dev);
        dev.lemma_log_performed();
    }
}

} // verus!
