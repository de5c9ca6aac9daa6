use vstd::prelude::*;
use vstd::std_specs::cmp::PartialEqSpec;

verus! {

/// Errors raised by the drive layer.
#[derive(Clone, Copy, Debug, PartialEq, Eq, Structural)]
pub enum DriveError {
    /// The drive is marked failed; its bytes are inaccessible.
    Failed,
    /// The drive has not been formatted.
    Unformatted,
}

pub type Result<T> = core::result::Result<T, DriveError>;

/// XOR of all bytes of a sequence; the drive checksum.
pub open spec fn xor_fold(s: Seq<u8>) -> u8
    decreases s.len(),
{
    if s.len() == 0 {
        0
    } else {
        xor_fold(s.drop_last()) ^ s.last()
    }
}

/// Represents a hard drive with variable bytes.
///
/// The byte buffer carries a stored checksum beside it, and two flags: `failed`
/// marks inaccessible hardware, `formatted` marks a drive whose contents the
/// array controller has put in order.
#[derive(Debug)]
pub struct Drive {
    data: Vec<u8>,
    cksum: u8,
    failed: bool,
    formatted: bool,
}

impl View for Drive {
    type V = Seq<u8>;

    /// The bytes the drive holds.
    closed spec fn view(&self) -> Seq<u8> {
        self.data@
    }
}

impl Clone for Drive {
    fn clone(&self) -> (r: Self)
        ensures
            r@ == self@,
            r.cksum_spec() == self.cksum_spec(),
            r.failed_spec() == self.failed_spec(),
            r.formatted_spec() == self.formatted_spec(),
    {
        let data = clone_bytes(&self.data);
        Drive { data, cksum: self.cksum, failed: self.failed, formatted: self.formatted }
    }
}

/// Copies a byte vector.
fn clone_bytes(v: &Vec<u8>) -> (r: Vec<u8>)
    ensures
        r@ == v@,
{
    let mut r: Vec<u8> = Vec::new();
    let mut i: usize = 0;
    while i < v.len()
        invariant
            i <= v@.len(),
            r@ == v@.take(i as int),
        decreases v@.len() - i,
    {
        r.push(v[i]);
        proof {
            assert(v@.take(i + 1) == v@.take(i as int).push(v@[i as int]));
        }
        i = i + 1;
    }
    proof {
        assert(v@.take(v@.len() as int) == v@);
    }
    r
}

impl PartialEq for Drive {
    fn eq(&self, other: &Drive) -> (r: bool) {
        if self.cksum != other.cksum
            || self.failed != other.failed
            || self.formatted != other.formatted
            || self.data.len() != other.data.len() {
            return false;
        }
        let mut i: usize = 0;
        while i < self.data.len()
            invariant
                i <= self.data@.len(),
                self.data@.len() == other.data@.len(),
                forall|j: int| 0 <= j < i ==> self.data@[j] == other.data@[j],
            decreases self.data@.len() - i,
        {
            if self.data[i] != other.data[i] {
                return false;
            }
            i = i + 1;
        }
        proof {
            assert(self.data@ =~= other.data@);
        }
        true
    }
}

impl Eq for Drive {}

impl vstd::std_specs::cmp::PartialEqSpecImpl for Drive {
    open spec fn obeys_eq_spec() -> bool {
        true
    }

    closed spec fn eq_spec(&self, other: &Drive) -> bool {
        &&& self.data@ == other.data@
        &&& self.cksum == other.cksum
        &&& self.failed == other.failed
        &&& self.formatted == other.formatted
    }
}

/// Relies on rand::RngCore::fill_bytes of the process-wide generator: fills a
/// buffer of the requested length with random bytes.
#[verifier::external_body]
fn random_bytes(len: usize) -> (r: Vec<u8>)
    ensures
        r@.len() == len,
{
    let mut data = vec![0u8; len];
    rand::RngCore::fill_bytes(&mut rand::rng(), &mut data);
    data
}

impl Drive {
    /// The stored checksum.
    pub closed spec fn cksum_spec(self) -> u8 {
        self.cksum
    }

    /// Whether the drive is marked failed.
    pub closed spec fn failed_spec(self) -> bool {
        self.failed
    }

    /// Whether the drive is marked formatted.
    pub closed spec fn formatted_spec(self) -> bool {
        self.formatted
    }

    /// What equality on drives means: all four components agree.
    pub proof fn lemma_eq(a: Drive, b: Drive)
        ensures
            a.eq_spec(&b) <==> (a@ == b@ && a.cksum_spec() == b.cksum_spec()
                && a.failed_spec() == b.failed_spec()
                && a.formatted_spec() == b.formatted_spec()),
    {
    }

    /// Creates a drive filled with random data
    pub fn random(size: usize) -> (r: Self)
        ensures
            r@.len() == size,
            r.cksum_spec() == xor_fold(r@),
            !r.failed_spec(),
            !r.formatted_spec(),
    {
        let data = random_bytes(size);
        Drive::from_data(data)
    }

    /// Creates a drive filled with 0s
    pub fn empty(size: usize) -> (r: Self)
        ensures
            r@ == Seq::new(size as nat, |i: int| 0u8),
            r.cksum_spec() == 0,
            !r.failed_spec(),
            !r.formatted_spec(),
    {
        let mut data: Vec<u8> = Vec::new();
        let mut i: usize = 0;
        while i < size
            invariant
                i <= size,
                data@ == Seq::new(i as nat, |j: int| 0u8),
            decreases size - i,
        {
            data.push(0);
            proof {
                assert(data@ =~= Seq::new((i + 1) as nat, |j: int| 0u8));
            }
            i = i + 1;
        }
        Self { data, cksum: 0, failed: false, formatted: false }
    }

    /// Creates a drive from a vec of data
    pub fn from_data(data: Vec<u8>) -> (r: Self)
        ensures
            r@ == data@,
            r.cksum_spec() == xor_fold(data@),
            !r.failed_spec(),
            !r.formatted_spec(),
    {
        let mut d = Self { data, cksum: 0, failed: false, formatted: false };
        let c = d.compute_cksum();
        d.cksum = c;
        d
    }

    /// Returns the size of the drive
    pub fn size(&self) -> (r: usize)
        ensures
            r == self@.len(),
    {
        self.data.len()
    }

    /// Computes the checksum from the current data.
    pub fn compute_cksum(&self) -> (r: u8)
        ensures
            r == xor_fold(self@),
    {
        let mut cksum: u8 = 0;
        let mut i: usize = 0;
        while i < self.data.len()
            invariant
                i <= self.data@.len(),
                cksum == xor_fold(self.data@.take(i as int)),
            decreases self.data@.len() - i,
        {
            proof {
                assert(self.data@.take(i + 1).drop_last() == self.data@.take(i as int));
            }
            cksum = cksum ^ self.data[i];
            i = i + 1;
        }
        proof {
            assert(self.data@.take(self.data@.len() as int) == self.data@);
        }
        cksum
    }

    /// Sets the stored checksum
    pub fn set_cksum(&mut self, cksum: u8)
        ensures
            final(self)@ == old(self)@,
            final(self).cksum_spec() == cksum,
            final(self).failed_spec() == old(self).failed_spec(),
            final(self).formatted_spec() == old(self).formatted_spec(),
    {
        self.cksum = cksum
    }

    /// Returns the stored checksum
    pub fn cksum(&self) -> (r: u8)
        ensures
            r == self.cksum_spec(),
    {
        self.cksum
    }

    /// Returns the byte at a given index
    pub fn byte_at(&self, idx: usize) -> (r: u8)
        requires
            idx < self@.len(),
        ensures
            r == self@[idx as int],
    {
        self.data[idx]
    }

    /// Corrupts a drive by adding 1 to all bytes
    ///
    /// This does NOT update the stored checksum
    pub fn corrupt(&mut self)
        ensures
            final(self)@.len() == old(self)@.len(),
            forall|i: int| 0 <= i < old(self)@.len()
                ==> final(self)@[i] == (old(self)@[i] + 1) % 256,
            final(self).cksum_spec() == old(self).cksum_spec(),
            final(self).failed_spec() == old(self).failed_spec(),
            final(self).formatted_spec() == old(self).formatted_spec(),
    {
        let n = self.data.len();
        let mut i: usize = 0;
        while i < n
            invariant
                i <= n,
                n == self.data@.len(),
                self.data@.len() == old(self)@.len(),
                forall|j: int| 0 <= j < i ==> self.data@[j] == (old(self)@[j] + 1) % 256,
                forall|j: int| i <= j < n ==> self.data@[j] == old(self)@[j],
                self.cksum == old(self).cksum_spec(),
                self.failed == old(self).failed_spec(),
                self.formatted == old(self).formatted_spec(),
            decreases n - i,
        {
            let b = self.data[i];
            self.data[i] = (((b as u16) + 1) % 256) as u8;
            i = i + 1;
        }
    }

    /// Overwrites the drive with random data
    /// This does NOT update the stored checksum
    pub fn randomize(&mut self)
        ensures
            final(self)@.len() == old(self)@.len(),
            final(self).cksum_spec() == old(self).cksum_spec(),
            final(self).failed_spec() == old(self).failed_spec(),
            final(self).formatted_spec() == old(self).formatted_spec(),
    {
        let fresh = random_bytes(self.data.len());
        self.data = fresh;
    }

    /// Overwrites the drive with 0s
    /// This does NOT update the stored checksum
    pub fn erase(&mut self)
        ensures
            final(self)@ == Seq::new(old(self)@.len(), |i: int| 0u8),
            final(self).cksum_spec() == old(self).cksum_spec(),
            final(self).failed_spec() == old(self).failed_spec(),
            final(self).formatted_spec() == old(self).formatted_spec(),
    {
        let n = self.data.len();
        let mut i: usize = 0;
        while i < n
            invariant
                i <= n,
                n == self.data@.len(),
                self.data@.len() == old(self)@.len(),
                forall|j: int| 0 <= j < i ==> self.data@[j] == 0,
                self.cksum == old(self).cksum_spec(),
                self.failed == old(self).failed_spec(),
                self.formatted == old(self).formatted_spec(),
            decreases n - i,
        {
            self.data[i] = 0;
            i = i + 1;
        }
        proof {
            assert(self.data@ =~= Seq::new(old(self)@.len(), |i: int| 0u8));
        }
    }

    /// Creates a new drive by XORing each byte with another drive
    pub fn xor_drive(&self, other: &Drive) -> (r: Drive)
        requires
            self@.len() <= other@.len(),
        ensures
            r@.len() == self@.len(),
            forall|i: int| 0 <= i < self@.len() ==> r@[i] == (self@[i] ^ other@[i]),
            r.cksum_spec() == xor_fold(r@),
            !r.failed_spec(),
            !r.formatted_spec(),
    {
        let mut data = clone_bytes(&self.data);
        let n = data.len();
        let mut i: usize = 0;
        while i < n
            invariant
                i <= n,
                n == data@.len(),
                data@.len() == self@.len(),
                self@.len() <= other@.len(),
                forall|j: int| 0 <= j < i ==> data@[j] == (self@[j] ^ other@[j]),
                forall|j: int| i <= j < n ==> data@[j] == self@[j],
            decreases n - i,
        {
            let b = data[i] ^ other.byte_at(i);
            data[i] = b;
            i = i + 1;
        }
        Drive::from_data(data)
    }

    /// Marks the drive formatted.
    pub fn format(&mut self)
        ensures
            final(self)@ == old(self)@,
            final(self).cksum_spec() == old(self).cksum_spec(),
            final(self).failed_spec() == old(self).failed_spec(),
            final(self).formatted_spec(),
    {
        self.formatted = true;
    }

    /// Marks the drive failed.
    pub fn fail(&mut self)
        ensures
            final(self)@ == old(self)@,
            final(self).cksum_spec() == old(self).cksum_spec(),
            final(self).failed_spec(),
            final(self).formatted_spec() == old(self).formatted_spec(),
    {
        self.failed = true;
    }

    /// Whether the drive is marked failed.
    pub fn has_failed(&self) -> (r: bool)
        ensures
            r == self.failed_spec(),
    {
        self.failed
    }

    /// Whether the drive is marked formatted.
    pub fn is_formatted(&self) -> (r: bool)
        ensures
            r == self.formatted_spec(),
    {
        self.formatted
    }

    /// Reads the byte at an offset; fails exactly when the drive has failed.
    pub fn read(&self, offset: usize) -> (r: Result<u8>)
        requires
            offset < self@.len(),
        ensures
            self.failed_spec() ==> r == Result::<u8>::Err(DriveError::Failed),
            !self.failed_spec() ==> r == Result::<u8>::Ok(self@[offset as int]),
    {
        if self.failed {
            Err(DriveError::Failed)
        } else {
            Ok(self.data[offset])
        }
    }

    /// Stores a byte at an offset; fails exactly when the drive has failed.
    pub fn write(&mut self, offset: usize, value: u8) -> (r: Result<()>)
        requires
            offset < old(self)@.len(),
        ensures
            old(self).failed_spec() ==> r == Result::<()>::Err(DriveError::Failed)
                && *final(self) == *old(self),
            !old(self).failed_spec() ==> r == Result::<()>::Ok(())
                && final(self)@ == old(self)@.update(offset as int, value),
            final(self).cksum_spec() == old(self).cksum_spec(),
            final(self).failed_spec() == old(self).failed_spec(),
            final(self).formatted_spec() == old(self).formatted_spec(),
    {
        if self.failed {
            Err(DriveError::Failed)
        } else {
            self.data[offset] = value;
            Ok(())
        }
    }

    /// Reads a contiguous slice of bytes; fails exactly when the drive has failed.
    pub fn read_slice(&self, offset: usize, len: usize) -> (r: Result<Vec<u8>>)
        requires
            offset + len <= self@.len(),
        ensures
            self.failed_spec() ==> r == Result::<Vec<u8>>::Err(DriveError::Failed),
            !self.failed_spec() ==> (r matches Result::<Vec<u8>>::Ok(v)
                && v@ == self@.subrange(offset as int, offset + len)),
    {
        if self.failed {
            return Err(DriveError::Failed);
        }
        let n = self.data.len();
        let mut out: Vec<u8> = Vec::new();
        let mut i: usize = 0;
        while i < len
            invariant
                i <= len,
                offset + len <= n,
                n == self@.len(),
                out@ == self@.subrange(offset as int, offset + i),
            decreases len - i,
        {
            out.push(self.data[offset + i]);
            proof {
                assert(self@.subrange(offset as int, offset + i + 1)
                    == self@.subrange(offset as int, offset + i).push(self@[offset + i]));
            }
            i = i + 1;
        }
        Ok(out)
    }

    /// Writes a contiguous slice of bytes; fails exactly when the drive has
    /// failed, in which case nothing is written.
    pub fn write_slice(&mut self, offset: usize, buf: &Vec<u8>) -> (r: Result<()>)
        requires
            offset + buf@.len() <= old(self)@.len(),
        ensures
            old(self).failed_spec() ==> r == Result::<()>::Err(DriveError::Failed)
                && *final(self) == *old(self),
            !old(self).failed_spec() ==> r == Result::<()>::Ok(())
                && final(self)@.len() == old(self)@.len()
                && (forall|j: int| offset <= j < offset + buf@.len()
                    ==> final(self)@[j] == buf@[j - offset])
                && (forall|j: int| 0 <= j < old(self)@.len()
                    && !(offset <= j < offset + buf@.len()) ==> final(self)@[j] == old(self)@[j]),
            final(self).cksum_spec() == old(self).cksum_spec(),
            final(self).failed_spec() == old(self).failed_spec(),
            final(self).formatted_spec() == old(self).formatted_spec(),
    {
        if self.failed {
            return Err(DriveError::Failed);
        }
        let n = buf.len();
        let total = self.data.len();
        let mut i: usize = 0;
        while i < n
            invariant
                i <= n,
                n == buf@.len(),
                offset + n <= total,
                total == self.data@.len(),
                self.data@.len() == old(self)@.len(),
                forall|j: int| offset <= j < offset + i ==> self.data@[j] == buf@[j - offset],
                forall|j: int| 0 <= j < old(self)@.len() && !(offset <= j < offset + i)
                    ==> self.data@[j] == old(self)@[j],
                self.cksum == old(self).cksum_spec(),
                self.failed == old(self).failed_spec(),
                self.formatted == old(self).formatted_spec(),
            decreases n - i,
        {
            self.data[offset + i] = buf[i];
            i = i + 1;
        }
        Ok(())
    }

    /// Replaces the whole buffer; the length must match, and the write fails
    /// exactly when the drive has failed.
    pub fn set_data(&mut self, buf: Vec<u8>) -> (r: Result<()>)
        requires
            buf@.len() == old(self)@.len(),
        ensures
            old(self).failed_spec() ==> r == Result::<()>::Err(DriveError::Failed)
                && *final(self) == *old(self),
            !old(self).failed_spec() ==> r == Result::<()>::Ok(()) && final(self)@ == buf@,
            final(self).cksum_spec() == old(self).cksum_spec(),
            final(self).failed_spec() == old(self).failed_spec(),
            final(self).formatted_spec() == old(self).formatted_spec(),
    {
        if self.failed {
            return Err(DriveError::Failed);
        }
        self.data = buf;
        Ok(())
    }
}

} // verus!
