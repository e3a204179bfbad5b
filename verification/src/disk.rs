//! The data disk as a store of 512-byte sectors.
//!
//! A [`Disk`] holds the sectors that the device driver has handed over. A
//! sector that could not be read from the device is absent, and then neither
//! a read nor a write of it succeeds; a sector that the device does not let be
//! written is read, and a write of it fails. Writes take effect at once and
//! are also kept in order, so that the driver can carry them out on the device
//! in the order in which the file systems issued them.

use vstd::prelude::*;
use crate::bytes::{copy_of, zero_bytes, zeros};

verus! {

pub const SECTOR_SIZE: usize = 512;

/// What a disk is: the contents of the sectors that are there, those of them
/// that cannot be written, and the writes that were issued, oldest first.
#[verifier::ext_equal]
pub struct DiskView {
    pub sec: Map<int, Seq<u8>>,
    pub fixed: Set<int>,
    pub log: Seq<(int, Seq<u8>)>,
}

impl DiskView {
    /// Every sector holds 512 bytes.
    pub open spec fn wf(self) -> bool {
        forall|l: int| #[trigger] self.sec.dom().contains(l) ==> self.sec[l].len() == 512
    }

    /// The contents of sector `l`, if it is there.
    pub open spec fn read(self, l: int) -> Option<Seq<u8>> {
        if self.sec.dom().contains(l) {
            Some(self.sec[l])
        } else {
            None
        }
    }

    /// The disk after `data` was written to sector `l`, if that is possible.
    pub open spec fn write(self, l: int, data: Seq<u8>) -> Option<DiskView> {
        if self.sec.dom().contains(l) && !self.fixed.contains(l) {
            Some(
                DiskView {
                    sec: self.sec.insert(l, data),
                    log: self.log.push((l, data)),
                    ..self
                },
            )
        } else {
            None
        }
    }
}

/// The bytes of a sector as they are kept: none where they are all zeros.
pub open spec fn kept(v: Seq<u8>) -> Seq<u8> {
    if v.len() == 0 {
        zero_bytes(512)
    } else {
        v
    }
}

fn keep(data: &[u8]) -> (v: Vec<u8>)
    requires
        data@.len() == 512,
    ensures
        kept(v@) == data@,
{
    let mut k: usize = 0;
    while k < 512
        invariant
            k <= 512,
            data@.len() == 512,
            forall|i: int| 0 <= i < k ==> #[trigger] data@[i] == 0,
        decreases 512 - k,
    {
        if data[k] != 0 {
            return copy_of(data);
        }
        k += 1;
    }
    let v: Vec<u8> = Vec::new();
    assert(data@ =~= zero_bytes(512));
    v
}

fn unpack(v: &Vec<u8>) -> (data: Vec<u8>)
    ensures
        data@ == kept(v@),
{
    if v.len() == 0 {
        zeros(512)
    } else {
        copy_of(v)
    }
}

/// One write that was issued to the disk.
struct SectorWrite {
    lba: u64,
    data: Vec<u8>,
}

/// A sector that is there.
struct Sector {
    data: Vec<u8>,
    fixed: bool,
}

pub struct Disk {
    sectors: Vec<Option<Sector>>,
    writes: Vec<SectorWrite>,
}

impl View for Disk {
    type V = DiskView;

    closed spec fn view(&self) -> DiskView {
        DiskView {
            sec: Map::new(
                |l: int| 0 <= l < self.sectors@.len() && self.sectors@[l] is Some,
                |l: int| kept(self.sectors@[l]->0.data@),
            ),
            fixed: Set::new(
                |l: int|
                    0 <= l < self.sectors@.len() && self.sectors@[l] is Some
                        && self.sectors@[l]->0.fixed,
            ),
            log: Seq::new(
                self.writes@.len(),
                |i: int| (self.writes@[i].lba as int, kept(self.writes@[i].data@)),
            ),
        }
    }
}

impl Disk {
    /// A disk of `n` sectors of which none is there yet.
    pub fn absent(n: usize) -> (d: Disk)
        ensures
            d@.sec =~= Map::<int, Seq<u8>>::empty(),
            d@.fixed =~= Set::<int>::empty(),
            d@.log =~= Seq::<(int, Seq<u8>)>::empty(),
            d.sector_count() == n,
    {
        let mut sectors: Vec<Option<Sector>> = Vec::with_capacity(n);
        let mut i: usize = 0;
        while i < n
            invariant
                i <= n,
                sectors@.len() == i,
                forall|l: int| 0 <= l < i ==> sectors@[l] is None,
            decreases n - i,
        {
            sectors.push(None);
            i += 1;
        }
        Disk { sectors, writes: Vec::new() }
    }

    /// A disk of `n` sectors that all hold zeros.
    pub fn blank(n: usize) -> (d: Disk)
        ensures
            forall|l: int| d@.sec.dom().contains(l) <==> 0 <= l < n,
            forall|l: int| 0 <= l < n ==> d@.sec[l] == zero_bytes(512),
            d@.fixed =~= Set::<int>::empty(),
            d@.log =~= Seq::<(int, Seq<u8>)>::empty(),
            d.sector_count() == n,
    {
        let mut sectors: Vec<Option<Sector>> = Vec::with_capacity(n);
        let mut i: usize = 0;
        while i < n
            invariant
                i <= n,
                sectors@.len() == i,
                forall|l: int|
                    0 <= l < i ==> sectors@[l] is Some && sectors@[l]->0.data@.len() == 0
                        && !sectors@[l]->0.fixed,
            decreases n - i,
        {
            sectors.push(Some(Sector { data: Vec::new(), fixed: false }));
            i += 1;
        }
        Disk { sectors, writes: Vec::new() }
    }

    /// The number of sectors of the device.
    pub closed spec fn sector_count(&self) -> nat {
        self.sectors@.len()
    }

    /// Hands over sector `l` as the device returned it.
    pub fn provide(&mut self, l: usize, data: &[u8])
        requires
            l < old(self).sector_count(),
            data@.len() == 512,
        ensures
            final(self)@.sec == old(self)@.sec.insert(l as int, data@),
            final(self)@.fixed == old(self)@.fixed.remove(l as int),
            final(self)@.log == old(self)@.log,
            final(self).sector_count() == old(self).sector_count(),
    {
        let v = keep(data);
        self.sectors[l] = Some(Sector { data: v, fixed: false });
        assert(self@.sec =~= old(self)@.sec.insert(l as int, data@));
        assert(self@.fixed =~= old(self)@.fixed.remove(l as int));
        assert(self@.log =~= old(self)@.log);
    }

    /// Sector `l` holds what the device returned, and cannot be written.
    pub fn provide_fixed(&mut self, l: usize, data: &[u8])
        requires
            l < old(self).sector_count(),
            data@.len() == 512,
        ensures
            final(self)@.sec == old(self)@.sec.insert(l as int, data@),
            final(self)@.fixed == old(self)@.fixed.insert(l as int),
            final(self)@.log == old(self)@.log,
            final(self).sector_count() == old(self).sector_count(),
    {
        let v = keep(data);
        self.sectors[l] = Some(Sector { data: v, fixed: true });
        assert(self@.sec =~= old(self)@.sec.insert(l as int, data@));
        assert(self@.fixed =~= old(self)@.fixed.insert(l as int));
        assert(self@.log =~= old(self)@.log);
    }

    /// Reads sector `l`.
    pub fn read(&self, l: u64) -> (r: Option<Vec<u8>>)
        ensures
            r is Some <==> self@.read(l as int) is Some,
            r is Some ==> r->0@ == self@.read(l as int)->0,
    {
        if l >= self.sectors.len() as u64 {
            return None;
        }
        match &self.sectors[l as usize] {
            Some(s) => Some(unpack(&s.data)),
            None => None,
        }
    }

    /// Writes sector `l`.
    pub fn write(&mut self, l: u64, data: &[u8]) -> (ok: bool)
        requires
            data@.len() == 512,
        ensures
            ok <==> old(self)@.write(l as int, data@) is Some,
            ok ==> final(self)@ == old(self)@.write(l as int, data@)->0,
            !ok ==> final(self)@ == old(self)@,
            final(self).sector_count() == old(self).sector_count(),
    {
        if l >= self.sectors.len() as u64 {
            return false;
        }
        let there: bool = match &self.sectors[l as usize] {
            Some(s) => !s.fixed,
            None => false,
        };
        if !there {
            return false;
        }
        let v = keep(data);
        self.sectors[l as usize] = Some(Sector { data: v, fixed: false });
        let w = keep(data);
        self.writes.push(SectorWrite { lba: l, data: w });
        assert(self@.sec =~= old(self)@.sec.insert(l as int, data@));
        assert(self@.fixed =~= old(self)@.fixed);
        assert(self@.log =~= old(self)@.log.push((l as int, data@)));
        true
    }

    /// The number of writes that were issued and not yet taken.
    pub fn write_count(&self) -> (n: usize)
        ensures
            n == self@.log.len(),
    {
        self.writes.len()
    }

    /// The sector and the data of the `i`-th write that was issued.
    pub fn issued(&self, i: usize) -> (w: (u64, Vec<u8>))
        requires
            i < self@.log.len(),
        ensures
            (w.0 as int, w.1@) == self@.log[i as int],
    {
        (self.writes[i].lba, unpack(&self.writes[i].data))
    }

    /// Forgets the writes that were issued, once the device holds them.
    pub fn forget_writes(&mut self)
        ensures
            final(self)@.sec == old(self)@.sec,
            final(self)@.fixed == old(self)@.fixed,
            final(self)@.log =~= Seq::<(int, Seq<u8>)>::empty(),
            final(self).sector_count() == old(self).sector_count(),
    {
        self.writes.clear();
        assert(self@.fixed =~= old(self)@.fixed);
        assert(self@.sec =~= old(self)@.sec);
    }
}

/// A sector that was written reads as what was written, the others as they did,
/// and the write is the last one in the record; a sector that is not there, or
/// that refuses to be written, changes nothing.
pub proof fn written_sector_reads_back(d: DiskView, l: int, data: Seq<u8>, other: int)
    ensures
        d.write(l, data) matches Some(e) ==> {
            &&& e.read(l) == Some(data)
            &&& other != l ==> e.read(other) == d.read(other)
            &&& e.log == d.log.push((l, data))
            &&& e.fixed == d.fixed
        },
        d.write(l, data) is Some <==> d.read(l) is Some && !d.fixed.contains(l),
{
}

} // verus!
