//! The handle through which the crate reaches a device, and the history of
//! the accesses made through it.
//!
//! The history is private to this module: only `Mmio::read` and
//! `Mmio::write`, which make the access they record, can extend it.
use core::marker::PhantomData;
use vstd::prelude::*;

use crate::chunk::{aligned, Width};
use crate::custom_mmio::MmioOps;
use crate::repr::{fits, lemma_pow256_values};
use crate::trace::{Access, AccessKind};

verus! {

/// The access `a` is a call of the matching method of `M` that was handed
/// `a`'s address (and, for a write, `a`'s value as an integer of `a`'s width)
/// and, for a read, gave back `a`'s value.
pub open spec fn performed<M: MmioOps>(a: Access) -> bool {
    match (a.kind, a.width) {
        (AccessKind::Read, Width::U8) => call_ensures(M::read_u8, (a.addr,), a.value as u8),
        (AccessKind::Read, Width::U16) => call_ensures(M::read_u16, (a.addr,), a.value as u16),
        (AccessKind::Read, Width::U32) => call_ensures(M::read_u32, (a.addr,), a.value as u32),
        (AccessKind::Read, Width::U64) => call_ensures(M::read_u64, (a.addr,), a.value),
        (AccessKind::Write, Width::U8) => call_ensures(M::write_u8, (a.addr, a.value as u8), ()),
        (AccessKind::Write, Width::U16) => call_ensures(M::write_u16, (a.addr, a.value as u16), ()),
        (AccessKind::Write, Width::U32) => call_ensures(M::write_u32, (a.addr, a.value as u32), ()),
        (AccessKind::Write, Width::U64) => call_ensures(M::write_u64, (a.addr, a.value), ()),
    }
}

/// The way this crate reaches the accesses of `M`. It keeps, as ghost state,
/// the history of every access made through it: kind, address, width and the
/// value loaded or stored, oldest first.
pub struct Mmio<M: MmioOps> {
    history: Ghost<Seq<Access>>,
    ops: PhantomData<M>,
}

/// Every access of `log` is a call of `M` that was handed that access's
/// address (and value, for a write) and, for a read, gave back its value.
pub open spec fn all_performed<M: MmioOps>(log: Seq<Access>) -> bool {
    forall|i: int| 0 <= i < log.len() ==> performed::<M>(#[trigger] log[i])
}

impl<M: MmioOps> Mmio<M> {
    #[verifier::type_invariant]
    pub closed spec fn history_performed(self) -> bool {
        all_performed::<M>(self.history@)
    }

    /// What the type invariant of a handle says of its history: every access in
    /// it was made through `M` as recorded.
    pub proof fn lemma_log_performed(&self)
        requires
            self.history_performed(),
        ensures
            all_performed::<M>(self.log()),
    {
    }

    /// The accesses made through this handle, oldest first.
    pub closed spec fn log(&self) -> Seq<Access> {
        self.history@
    }

    /// A handle through which no access has been made yet.
    pub fn new() -> (dev: Self)
        ensures
            dev.log() == Seq::<Access>::empty(),
    {
        Mmio { history: Ghost(Seq::empty()), ops: PhantomData }
    }

    /// Makes one read of width `width` at `addr` and returns the value loaded.
    pub fn read(&mut self, addr: usize, width: Width) -> (value: u64)
        requires
            aligned(addr as int, width),
        ensures
            final(self).log() == old(self).log().push(
                Access { kind: AccessKind::Read, addr, width, value },
            ),
            performed::<M>(Access { kind: AccessKind::Read, addr, width, value }),
            fits(value as nat, width),
    {
        proof {
            lemma_pow256_values();
        }
        let value = match width {
            Width::U8 => M::read_u8(addr) as u64,
            Width::U16 => M::read_u16(addr) as u64,
            Width::U32 => M::read_u32(addr) as u64,
            Width::U64 => M::read_u64(addr),
        };
        let ghost a = Access { kind: AccessKind::Read, addr, width, value };
        proof {
            use_type_invariant(&*self);
            assert(performed::<M>(a));
            assert forall|i: int| 0 <= i < self.history@.push(a).len() implies performed::<M>(
                #[trigger] self.history@.push(a)[i],
            ) by {
                if i < self.history@.len() {
                    assert(self.history@.push(a)[i] == self.history@[i]);
                }
            }
        }
        self.history = Ghost(self.history@.push(a));
        value
    }

    /// Makes one write of width `width` at `addr`, storing `value`.
    pub fn write(&mut self, addr: usize, width: Width, value: u64)
        requires
            aligned(addr as int, width),
            fits(value as nat, width),
        ensures
            final(self).log() == old(self).log().push(
                Access { kind: AccessKind::Write, addr, width, value },
            ),
            performed::<M>(Access { kind: AccessKind::Write, addr, width, value }),
    {
        proof {
            lemma_pow256_values();
        }
        match width {
            Width::U8 => M::write_u8(addr, value as u8),
            Width::U16 => M::write_u16(addr, value as u16),
            Width::U32 => M::write_u32(addr, value as u32),
            Width::U64 => M::write_u64(addr, value),
        }
        let ghost a = Access { kind: AccessKind::Write, addr, width, value };
        proof {
            use_type_invariant(&*self);
            assert(performed::<M>(a));
            assert forall|i: int| 0 <= i < self.history@.push(a).len() implies performed::<M>(
                #[trigger] self.history@.push(a)[i],
            ) by {
                if i < self.history@.len() {
                    assert(self.history@.push(a)[i] == self.history@[i]);
                }
            }
        }
        self.history = Ghost(self.history@.push(a));
    }
}

} // verus!
