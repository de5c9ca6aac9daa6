use vstd::prelude::*;
use crate::drive::{Drive, DriveError, xor_fold};
use crate::generator::{
    Gen, FromPower, powstep, gfmul, gfdiv, gfinv, gpow, group_xor_facts, lemma_gfmul_powstep,
    lemma_gpow_mul, lemma_xor_nonzero, lemma_powstep_zero_exponent, lemma_xor_self_cancel,
    lemma_xor_comm,
    lemma_powstep_zero, lemma_powstep_add, lemma_powstep_full_cycle, lemma_gfdiv_mul,
    lemma_powstep_xor,
    lemma_gfmul_comm, lemma_gfmul_assoc, lemma_gfmul_xor, lemma_gfmul_xor_left,
    lemma_gfmul_one, lemma_gfmul_inv, lemma_gpow_injective, lemma_gpow_nonzero, lemma_from_byte,
};

verus! {

/// Index of the P-parity drive.
pub const P_INDEX: usize = 0;

/// Index of the Q-parity drive (RAID-6 only).
pub const Q_INDEX: usize = 1;

/// Errors surfaced by the array controller.
#[derive(Clone, Copy, Debug, PartialEq, Eq, Structural)]
pub enum RaidError {
    /// An error propagated from the drive layer.
    DriveError(DriveError),
    /// The offset lies beyond the array's capacity.
    OffsetTooLarge(usize),
    /// The array has lost more drives than parity can cover.
    Failed,
    /// Repair was attempted while failed drives had not been replaced.
    DrivesNeedReplaced,
    /// Repair was attempted on an array that was never initialized.
    NotInitialized,
}

/// The parity mode of the array.
#[derive(Debug, Eq, PartialEq, Structural)]
pub enum RaidMode {
    Raid5,
    Raid6,
}

/// The observable state of the array.
#[derive(Debug, Clone, Eq, PartialEq, Structural)]
pub enum RaidState {
    /// Array has not been initialized yet
    Uninit,
    /// Array is functioning as normal
    Okay,
    /// One or more drives has failed, extra computation is needed to retrieve some data
    Degraded,
    /// Too many drives have failed, data has been lost
    Failed,
}

/// XOR of generator-weighted bytes: the byte at position k is multiplied by g^k
/// before it enters the fold. This is the Q-parity of a stripe.
pub open spec fn qxor_fold(s: Seq<u8>) -> u8
    decreases s.len(),
{
    if s.len() == 0 {
        0
    } else {
        qxor_fold(s.drop_last()) ^ powstep((s.len() - 1) as nat, s.last())
    }
}

/// The sequence with the bytes at the given positions replaced by zero.
pub open spec fn mask_seq(s: Seq<u8>, ignore: Seq<usize>) -> Seq<u8> {
    Seq::new(s.len(), |k: int| if ignore.contains(k as usize) { 0u8 } else { s[k] })
}

/// Replacing one byte of a sequence changes its XOR fold by the old and the
/// new byte.
pub proof fn lemma_xor_fold_update(s: Seq<u8>, j: int, v: u8)
    requires
        0 <= j < s.len(),
    ensures
        xor_fold(s.update(j, v)) == xor_fold(s) ^ s[j] ^ v,
    decreases s.len(),
{
    broadcast use group_xor_facts;

    if j == s.len() - 1 {
        assert(s.update(j, v).drop_last() =~= s.drop_last());
        assert(s.update(j, v).last() == v);
    } else {
        lemma_xor_fold_update(s.drop_last(), j, v);
        assert(s.update(j, v).drop_last() =~= s.drop_last().update(j, v));
        assert(s.update(j, v).last() == s.last());
        assert(s.drop_last()[j] == s[j]);
    }
}

/// Replacing one byte of a sequence changes its Q fold by the old and the new
/// byte, each weighted by the generator power of its position.
pub proof fn lemma_qxor_fold_update(s: Seq<u8>, j: int, v: u8)
    requires
        0 <= j < s.len(),
    ensures
        qxor_fold(s.update(j, v)) == qxor_fold(s) ^ powstep(j as nat, s[j]) ^ powstep(j as nat, v),
    decreases s.len(),
{
    broadcast use group_xor_facts;

    if j == s.len() - 1 {
        assert(s.update(j, v).drop_last() =~= s.drop_last());
        assert(s.update(j, v).last() == v);
    } else {
        lemma_qxor_fold_update(s.drop_last(), j, v);
        assert(s.update(j, v).drop_last() =~= s.drop_last().update(j, v));
        assert(s.update(j, v).last() == s.last());
        assert(s.drop_last()[j] == s[j]);
    }
}

/// The XOR fold of an all-zero sequence is zero.
pub proof fn lemma_xor_fold_zero(s: Seq<u8>)
    requires
        forall|k: int| 0 <= k < s.len() ==> s[k] == 0,
    ensures
        xor_fold(s) == 0,
    decreases s.len(),
{
    broadcast use group_xor_facts;

    if s.len() > 0 {
        lemma_xor_fold_zero(s.drop_last());
    }
}

/// The Q fold of an all-zero sequence is zero.
pub proof fn lemma_qxor_fold_zero(s: Seq<u8>)
    requires
        forall|k: int| 0 <= k < s.len() ==> s[k] == 0,
    ensures
        qxor_fold(s) == 0,
    decreases s.len(),
{
    broadcast use group_xor_facts;

    if s.len() > 0 {
        lemma_qxor_fold_zero(s.drop_last());
        lemma_powstep_zero((s.len() - 1) as nat);
    }
}

/// The RAID array: an ordered vector of drives, the first one (and in RAID-6
/// the second one) holding parity, the rest holding data.
///
/// The ghost `shadow` holds, for every drive, the bytes it would carry in a
/// fully repaired array: the recoverable content. A drive that is neither
/// failed nor unformatted physically holds its shadow; the parity equations
/// hold on the shadows at all times, which is what makes reconstruction and
/// repair exact.
pub struct RaidSim {
    drives: Vec<Drive>,
    drive_size: usize,
    mode: RaidMode,
    shadow: Ghost<Seq<Seq<u8>>>,
}

impl RaidSim {
    /// The array's parity mode.
    pub closed spec fn mode_spec(self) -> RaidMode {
        self.mode
    }

    /// Bytes per drive.
    pub closed spec fn drive_size_spec(self) -> int {
        self.drive_size as int
    }

    /// Total number of drives.
    pub closed spec fn num_drives(self) -> int {
        self.drives@.len() as int
    }

    /// Number of parity drives: one for RAID-5, two for RAID-6.
    pub open spec fn parity_count(self) -> int {
        if self.mode_spec() == RaidMode::Raid5 {
            1int
        } else {
            2int
        }
    }

    /// Number of data drives.
    pub open spec fn data_count(self) -> int {
        self.num_drives() - self.parity_count()
    }

    /// Addressable capacity in bytes.
    pub open spec fn size_spec(self) -> int {
        self.data_count() * self.drive_size_spec()
    }

    /// The drive at an absolute index.
    pub closed spec fn drive_at(self, k: int) -> Drive {
        self.drives@[k]
    }

    /// The data drive at a data index (absolute index shifted past parity).
    pub open spec fn data_drive_at(self, k: int) -> Drive {
        self.drive_at(self.parity_count() + k)
    }

    /// Number of per-drive shadows held.
    pub closed spec fn shadow_len(self) -> int {
        self.shadow@.len() as int
    }

    /// The recoverable content of the drive at an absolute index.
    pub closed spec fn shadow_at(self, k: int) -> Seq<u8> {
        self.shadow@[k]
    }

    /// The recoverable content of the data drive at a data index.
    pub open spec fn shadow_data(self, k: int) -> Seq<u8> {
        self.shadow_at(self.parity_count() + k)
    }

    /// A drive that is neither failed nor unformatted serves reads directly.
    pub open spec fn available(self, k: int) -> bool {
        !self.drive_at(k).failed_spec() && self.drive_at(k).formatted_spec()
    }

    /// The recoverable bytes of the data drives at one stripe offset.
    pub open spec fn shadow_stripe(self, i: int) -> Seq<u8> {
        Seq::new(self.data_count() as nat, |k: int| self.shadow_data(k)[i])
    }

    /// The physical bytes of the data drives at one stripe offset.
    pub open spec fn data_stripe(self, i: int) -> Seq<u8> {
        Seq::new(self.data_count() as nat, |k: int| self.data_drive_at(k)@[i])
    }

    /// Number of failed drives among the first n.
    pub open spec fn count_failed_upto(self, n: int) -> int
        decreases n,
    {
        if n <= 0 {
            0
        } else {
            self.count_failed_upto(n - 1) + if self.drive_at(n - 1).failed_spec() {
                1int
            } else {
                0int
            }
        }
    }

    /// Number of unformatted drives among the first n.
    pub open spec fn count_unformatted_upto(self, n: int) -> int
        decreases n,
    {
        if n <= 0 {
            0
        } else {
            self.count_unformatted_upto(n - 1) + if !self.drive_at(n - 1).formatted_spec() {
                1int
            } else {
                0int
            }
        }
    }

    /// Number of failed drives.
    pub open spec fn count_failed(self) -> int {
        self.count_failed_upto(self.num_drives())
    }

    /// Number of unformatted drives.
    pub open spec fn count_unformatted(self) -> int {
        self.count_unformatted_upto(self.num_drives())
    }

    /// The state of the array, computed from the drive flags: Uninit when every
    /// drive is unformatted; Failed when more drives are unavailable than the
    /// parity mode covers; Degraded when some are; Ok otherwise.
    pub open spec fn state_spec(self) -> RaidState {
        let u = self.count_unformatted();
        let c = self.count_failed() + u;
        if u == self.num_drives() {
            RaidState::Uninit
        } else if c > 2 || (c > 1 && self.mode_spec() == RaidMode::Raid5) {
            RaidState::Failed
        } else if c > 0 {
            RaidState::Degraded
        } else {
            RaidState::Okay
        }
    }

    /// Structural well-formedness: at least one data drive, every drive and
    /// every shadow of the per-drive size, at most 255 data drives (so that
    /// generator exponents stay distinct), and a capacity that fits a usize.
    pub open spec fn wf(self) -> bool {
        &&& self.drive_size_spec() >= 1
        &&& self.num_drives() >= self.parity_count() + 1
        &&& self.data_count() <= 255
        &&& self.num_drives() * self.drive_size_spec() <= usize::MAX
        &&& self.shadow_len() == self.num_drives()
        &&& forall|k: int| 0 <= k < self.num_drives()
            ==> (#[trigger] self.drive_at(k))@.len() == self.drive_size_spec()
        &&& forall|k: int| 0 <= k < self.num_drives()
            ==> (#[trigger] self.shadow_at(k)).len() == self.drive_size_spec()
    }

    /// The working invariant: the array is well formed, every available drive
    /// physically holds its recoverable content, and the parity equations hold
    /// on the recoverable contents of every stripe.
    pub open spec fn inv(self) -> bool {
        &&& self.wf()
        &&& forall|k: int| 0 <= k < self.num_drives() && #[trigger] self.available(k)
            ==> self.drive_at(k)@ == self.shadow_at(k)
        &&& forall|i: int| 0 <= i < self.drive_size_spec()
            ==> self.shadow_at(P_INDEX as int)[i] == xor_fold(#[trigger] self.shadow_stripe(i))
        &&& self.mode_spec() == RaidMode::Raid6 ==> forall|i: int|
            0 <= i < self.drive_size_spec()
                ==> self.shadow_at(Q_INDEX as int)[i] == qxor_fold(#[trigger] self.shadow_stripe(i))
    }

    /// Creates a new instance of a Raid Simulation
    pub fn new(mode: RaidMode, num_drives: usize, drive_size: usize) -> (r: Self)
        requires
            drive_size >= 1,
            (if mode == RaidMode::Raid5 { num_drives >= 2 } else { num_drives >= 3 }),
            num_drives <= (if mode == RaidMode::Raid5 { 256int } else { 257int }),
            num_drives * drive_size <= usize::MAX,
        ensures
            r.inv(),
            r.mode_spec() == mode,
            r.num_drives() == num_drives,
            r.drive_size_spec() == drive_size,
            r.state_spec() == RaidState::Uninit,
            forall|k: int| 0 <= k < num_drives
                ==> (#[trigger] r.drive_at(k))@ == Seq::new(drive_size as nat, |i: int| 0u8)
                    && !r.drive_at(k).failed_spec() && !r.drive_at(k).formatted_spec(),
            forall|k: int| 0 <= k < num_drives
                ==> #[trigger] r.shadow_at(k) == Seq::new(drive_size as nat, |i: int| 0u8),
    {
        let mut drives: Vec<Drive> = Vec::new();
        let mut n: usize = 0;
        while n < num_drives
            invariant
                n <= num_drives,
                drives@.len() == n,
                forall|k: int| 0 <= k < n
                    ==> (#[trigger] drives@[k])@ == Seq::new(drive_size as nat, |i: int| 0u8)
                        && !drives@[k].failed_spec() && !drives@[k].formatted_spec(),
            decreases num_drives - n,
        {
            drives.push(Drive::empty(drive_size));
            n = n + 1;
        }
        let r = RaidSim {
            drives,
            drive_size,
            mode,
            shadow: Ghost(
                Seq::new(num_drives as nat, |k: int| Seq::new(drive_size as nat, |i: int| 0u8)),
            ),
        };
        proof {
            assert forall|i: int| 0 <= i < r.drive_size_spec()
                implies r.shadow_at(P_INDEX as int)[i] == xor_fold(#[trigger] r.shadow_stripe(i))
            by {
                lemma_xor_fold_zero(r.shadow_stripe(i));
            }
            if r.mode_spec() == RaidMode::Raid6 {
                assert forall|i: int| 0 <= i < r.drive_size_spec()
                    implies r.shadow_at(Q_INDEX as int)[i]
                        == qxor_fold(#[trigger] r.shadow_stripe(i))
                by {
                    lemma_qxor_fold_zero(r.shadow_stripe(i));
                }
            }
            r.lemma_count_all(r.num_drives());
            assert(r.state_spec() == RaidState::Uninit);
        }
        r
    }

    /// Counting helper: among the first n drives, the failed and the
    /// unformatted counts lie between 0 and n, a count is zero exactly when no
    /// drive of the range has the flag, and the unformatted count is n exactly
    /// when every drive of the range lacks the formatted mark.
    pub proof fn lemma_count_all(self, n: int)
        requires
            0 <= n <= self.num_drives(),
        ensures
            0 <= self.count_failed_upto(n) <= n,
            0 <= self.count_unformatted_upto(n) <= n,
            (self.count_failed_upto(n) == 0
                <==> forall|k: int| 0 <= k < n ==> !(#[trigger] self.drive_at(k)).failed_spec()),
            (self.count_unformatted_upto(n) == n
                <==> forall|k: int| 0 <= k < n ==> !(#[trigger] self.drive_at(k)).formatted_spec()),
            (self.count_unformatted_upto(n) == 0
                <==> forall|k: int| 0 <= k < n ==> (#[trigger] self.drive_at(k)).formatted_spec()),
        decreases n,
    {
        if n > 0 {
            self.lemma_count_all(n - 1);
        }
    }

    /// Gets the total number of bytes storable in the array
    pub fn size(&self) -> (r: usize)
        requires
            self.inv(),
        ensures
            r == self.size_spec(),
    {
        let start: usize = match self.mode {
            RaidMode::Raid5 => 1,
            RaidMode::Raid6 => 2,
        };
        proof {
            let n = self.num_drives();
            let s = self.drive_size_spec();
            let p = self.parity_count();
            assert((n - p) * s <= n * s && (n - p) * s >= 0) by (nonlinear_arith)
                requires n >= p + 1 && s >= 1 && p >= 1;
        }
        (self.drives.len() - start) * self.drive_size
    }

    /// Gets the current state of the array
    pub fn state(&self) -> (r: RaidState)
        requires
            self.inv(),
        ensures
            r == self.state_spec(),
    {
        let n = self.drives.len();
        let mut failed: usize = 0;
        let mut unformatted: usize = 0;
        let mut i: usize = 0;
        while i < n
            invariant
                i <= n,
                n == self.num_drives(),
                failed == self.count_failed_upto(i as int),
                unformatted == self.count_unformatted_upto(i as int),
                failed <= i,
                unformatted <= i,
            decreases n - i,
        {
            if self.drives[i].has_failed() {
                failed = failed + 1;
            }
            if !self.drives[i].is_formatted() {
                unformatted = unformatted + 1;
            }
            i = i + 1;
        }
        let count = failed + unformatted;
        if unformatted == n {
            RaidState::Uninit
        } else if count > 2 || (count > 1 && self.mode == RaidMode::Raid5) {
            RaidState::Failed
        } else if count > 0 {
            RaidState::Degraded
        } else {
            RaidState::Okay
        }
    }

    /// Initializes the array by formatting all drives; on the zero-filled
    /// drives of a fresh array both parity equations hold trivially.
    pub fn init(&mut self) -> (r: Result<(), RaidError>)
        requires
            old(self).inv(),
            old(self).state_spec() == RaidState::Uninit,
            forall|k: int| 0 <= k < old(self).num_drives()
                ==> !(#[trigger] old(self).drive_at(k)).failed_spec()
                    && old(self).drive_at(k)@
                        == Seq::new(old(self).drive_size_spec() as nat, |i: int| 0u8),
        ensures
            final(self).inv(),
            r == Result::<(), RaidError>::Ok(()),
            final(self).state_spec() == RaidState::Okay,
            final(self).mode_spec() == old(self).mode_spec(),
            final(self).num_drives() == old(self).num_drives(),
            final(self).drive_size_spec() == old(self).drive_size_spec(),
            forall|k: int| 0 <= k < final(self).num_drives()
                ==> (#[trigger] final(self).drive_at(k))@ == old(self).drive_at(k)@
                    && !final(self).drive_at(k).failed_spec()
                    && final(self).drive_at(k).formatted_spec(),
    {
        let n = self.drives.len();
        let ghost zeros = Seq::new(self.drive_size_spec() as nat, |i: int| 0u8);
        proof {
            self.lemma_count_all(self.num_drives());
        }
        let mut i: usize = 0;
        while i < n
            invariant
                i <= n,
                n == self.num_drives(),
                self.wf(),
                self.drive_size == old(self).drive_size,
                self.mode == old(self).mode_spec(),
                zeros == Seq::new(self.drive_size_spec() as nat, |j: int| 0u8),
                forall|k: int| 0 <= k < n
                    ==> (#[trigger] self.drive_at(k))@ == zeros
                        && !self.drive_at(k).failed_spec(),
                forall|k: int| 0 <= k < i ==> (#[trigger] self.drive_at(k)).formatted_spec(),
                forall|k: int| i <= k < n ==> !(#[trigger] self.drive_at(k)).formatted_spec(),
            decreases n - i,
        {
            let ghost prev = *self;
            self.drives[i].format();
            proof {
                assert forall|k: int| 0 <= k < n && k != i
                    implies #[trigger] self.drive_at(k) == prev.drive_at(k) by {}
                assert(self.drive_at(i as int)@ == prev.drive_at(i as int)@);
                assert forall|k: int| 0 <= k < self.num_drives()
                    implies #[trigger] self.shadow_at(k) == prev.shadow_at(k) by {}
            }
            i = i + 1;
        }
        let ghost pre_shadow = *self;
        self.shadow = Ghost(Seq::new(n as nat, |k: int| zeros));
        proof {
            assert forall|k: int| 0 <= k < self.num_drives()
                implies #[trigger] self.drive_at(k) == pre_shadow.drive_at(k) by {}
            assert forall|i2: int| 0 <= i2 < self.drive_size_spec()
                implies self.shadow_at(P_INDEX as int)[i2]
                    == xor_fold(#[trigger] self.shadow_stripe(i2))
            by {
                lemma_xor_fold_zero(self.shadow_stripe(i2));
            }
            if self.mode_spec() == RaidMode::Raid6 {
                assert forall|i2: int| 0 <= i2 < self.drive_size_spec()
                    implies self.shadow_at(Q_INDEX as int)[i2]
                        == qxor_fold(#[trigger] self.shadow_stripe(i2))
                by {
                    lemma_qxor_fold_zero(self.shadow_stripe(i2));
                }
            }
            self.lemma_count_all(self.num_drives());
        }
        Ok(())
    }

    /// Changing one drive (its flags or its bytes) while the shadows stay put
    /// preserves the invariant, provided the changed drive still matches its
    /// shadow whenever it counts as available.
    pub proof fn lemma_inv_one_drive_changed(pre: RaidSim, post: RaidSim, j: int)
        requires
            pre.inv(),
            0 <= j < pre.num_drives(),
            post.num_drives() == pre.num_drives(),
            post.mode_spec() == pre.mode_spec(),
            post.drive_size_spec() == pre.drive_size_spec(),
            forall|k: int| 0 <= k < pre.num_drives() && k != j
                ==> #[trigger] post.drive_at(k) == pre.drive_at(k),
            post.drive_at(j)@.len() == pre.drive_size_spec(),
            forall|k: int| 0 <= k < pre.num_drives()
                ==> #[trigger] post.shadow_at(k) == pre.shadow_at(k),
            post.shadow_len() == pre.shadow_len(),
            post.available(j) ==> post.drive_at(j)@ == post.shadow_at(j),
        ensures
            post.inv(),
    {
        assert forall|i: int| 0 <= i < post.drive_size_spec()
            implies #[trigger] post.shadow_stripe(i) == pre.shadow_stripe(i) by {
            assert(post.shadow_stripe(i) =~= pre.shadow_stripe(i));
        }
        assert forall|k: int| 0 <= k < post.num_drives() && #[trigger] post.available(k)
            implies post.drive_at(k)@ == post.shadow_at(k) by {
            if k != j {
                assert(pre.available(k));
            }
        }
    }

    /// Returns an immutable reference to the drive used for P parity
    pub fn p_parity(&self) -> (r: &Drive)
        requires
            self.inv(),
        ensures
            *r == self.drive_at(P_INDEX as int),
    {
        &self.drives[P_INDEX]
    }

    /// Returns an immutable reference to the drive used for Q parity
    pub fn q_parity(&self) -> (r: &Drive)
        requires
            self.inv(),
        ensures
            *r == self.drive_at(Q_INDEX as int),
    {
        &self.drives[Q_INDEX]
    }

    /// Returns references to the data drives, in data-index order.
    pub fn data_drives(&self) -> (r: Vec<&Drive>)
        requires
            self.inv(),
        ensures
            r@.len() == self.data_count(),
            forall|k: int| 0 <= k < r@.len() ==> *(#[trigger] r@[k]) == self.data_drive_at(k),
    {
        let start: usize = match self.mode {
            RaidMode::Raid5 => 1,
            RaidMode::Raid6 => 2,
        };
        let mut out: Vec<&Drive> = Vec::new();
        let mut i: usize = start;
        while i < self.drives.len()
            invariant
                self.inv(),
                start == self.parity_count(),
                start <= i <= self.num_drives(),
                out@.len() == i - start,
                forall|k: int| 0 <= k < out@.len()
                    ==> *(#[trigger] out@[k]) == self.data_drive_at(k),
            decreases self.drives@.len() - i,
        {
            out.push(&self.drives[i]);
            i = i + 1;
        }
        out
    }

    /// Returns the absolute indices of the drives that have failed, in order.
    pub fn failed(&self) -> (r: Vec<usize>)
        requires
            self.inv(),
        ensures
            r@.len() == self.count_failed(),
            forall|j: int| 0 <= j < r@.len()
                ==> 0 <= #[trigger] r@[j] < self.num_drives()
                    && self.drive_at(r@[j] as int).failed_spec(),
            forall|k: int| 0 <= k < self.num_drives()
                && (#[trigger] self.drive_at(k)).failed_spec() ==> r@.contains(k as usize),
    {
        let n = self.drives.len();
        let mut out: Vec<usize> = Vec::new();
        let mut i: usize = 0;
        while i < n
            invariant
                i <= n,
                n == self.num_drives(),
                self.inv(),
                out@.len() == self.count_failed_upto(i as int),
                forall|j: int| 0 <= j < out@.len()
                    ==> 0 <= #[trigger] out@[j] < i && self.drive_at(out@[j] as int).failed_spec(),
                forall|k: int| 0 <= k < i && (#[trigger] self.drive_at(k)).failed_spec()
                    ==> out@.contains(k as usize),
            decreases n - i,
        {
            let ghost prev = out@;
            if self.drives[i].has_failed() {
                out.push(i);
            }
            proof {
                assert forall|k: int| 0 <= k < i + 1
                    && (#[trigger] self.drive_at(k)).failed_spec()
                    implies out@.contains(k as usize) by {
                    if k == i {
                        assert(out@[out@.len() - 1] == i as usize);
                    } else {
                        let j = choose|j: int| 0 <= j < prev.len() && prev[j] == k as usize;
                        assert(out@[j] == k as usize);
                    }
                }
            }
            i = i + 1;
        }
        out
    }

    /// Returns the absolute indices of the unformatted drives, in order.
    pub fn unformatted(&self) -> (r: Vec<usize>)
        requires
            self.inv(),
        ensures
            r@.len() == self.count_unformatted(),
            forall|j: int| 0 <= j < r@.len()
                ==> 0 <= #[trigger] r@[j] < self.num_drives()
                    && !self.drive_at(r@[j] as int).formatted_spec(),
            forall|k: int| 0 <= k < self.num_drives()
                && !(#[trigger] self.drive_at(k)).formatted_spec() ==> r@.contains(k as usize),
    {
        let n = self.drives.len();
        let mut out: Vec<usize> = Vec::new();
        let mut i: usize = 0;
        while i < n
            invariant
                i <= n,
                n == self.num_drives(),
                self.inv(),
                out@.len() == self.count_unformatted_upto(i as int),
                forall|j: int| 0 <= j < out@.len()
                    ==> 0 <= #[trigger] out@[j] < i
                        && !self.drive_at(out@[j] as int).formatted_spec(),
                forall|k: int| 0 <= k < i && !(#[trigger] self.drive_at(k)).formatted_spec()
                    ==> out@.contains(k as usize),
            decreases n - i,
        {
            let ghost prev = out@;
            if !self.drives[i].is_formatted() {
                out.push(i);
            }
            proof {
                assert forall|k: int| 0 <= k < i + 1
                    && !(#[trigger] self.drive_at(k)).formatted_spec()
                    implies out@.contains(k as usize) by {
                    if k == i {
                        assert(out@[out@.len() - 1] == i as usize);
                    } else {
                        let j = choose|j: int| 0 <= j < prev.len() && prev[j] == k as usize;
                        assert(out@[j] == k as usize);
                    }
                }
            }
            i = i + 1;
        }
        out
    }

    /// Returns the absolute indices of the drives that have not failed, in order.
    pub fn not_failed(&self) -> (r: Vec<usize>)
        requires
            self.inv(),
        ensures
            r@.len() == self.num_drives() - self.count_failed(),
            forall|j: int| 0 <= j < r@.len()
                ==> 0 <= #[trigger] r@[j] < self.num_drives()
                    && !self.drive_at(r@[j] as int).failed_spec(),
            forall|k: int| 0 <= k < self.num_drives()
                && !(#[trigger] self.drive_at(k)).failed_spec() ==> r@.contains(k as usize),
    {
        let n = self.drives.len();
        let mut out: Vec<usize> = Vec::new();
        let mut i: usize = 0;
        while i < n
            invariant
                i <= n,
                n == self.num_drives(),
                self.inv(),
                out@.len() == i - self.count_failed_upto(i as int),
                self.count_failed_upto(i as int) <= i,
                forall|j: int| 0 <= j < out@.len()
                    ==> 0 <= #[trigger] out@[j] < i && !self.drive_at(out@[j] as int).failed_spec(),
                forall|k: int| 0 <= k < i && !(#[trigger] self.drive_at(k)).failed_spec()
                    ==> out@.contains(k as usize),
            decreases n - i,
        {
            let ghost prev = out@;
            if !self.drives[i].has_failed() {
                out.push(i);
            }
            proof {
                assert forall|k: int| 0 <= k < i + 1
                    && !(#[trigger] self.drive_at(k)).failed_spec()
                    implies out@.contains(k as usize) by {
                    if k == i {
                        assert(out@[out@.len() - 1] == i as usize);
                    } else {
                        let j = choose|j: int| 0 <= j < prev.len() && prev[j] == k as usize;
                        assert(out@[j] == k as usize);
                    }
                }
            }
            i = i + 1;
        }
        out
    }

    /// Marks one drive failed, leaving everything else untouched.
    fn fail_drive(&mut self, j: usize)
        requires
            old(self).inv(),
            j < old(self).num_drives(),
        ensures
            final(self).inv(),
            final(self).num_drives() == old(self).num_drives(),
            final(self).mode_spec() == old(self).mode_spec(),
            final(self).drive_size_spec() == old(self).drive_size_spec(),
            forall|k: int| 0 <= k < old(self).num_drives()
                ==> #[trigger] final(self).shadow_at(k) == old(self).shadow_at(k),
            forall|k: int| 0 <= k < old(self).num_drives() && k != j
                ==> #[trigger] final(self).drive_at(k) == old(self).drive_at(k),
            final(self).drive_at(j as int).failed_spec(),
            final(self).drive_at(j as int)@ == old(self).drive_at(j as int)@,
            final(self).drive_at(j as int).formatted_spec()
                == old(self).drive_at(j as int).formatted_spec(),
    {
        self.drives[j].fail();
        proof {
            assert forall|k: int| 0 <= k < old(self).num_drives() && k != j
                implies #[trigger] self.drive_at(k) == old(self).drive_at(k) by {}
            assert forall|k: int| 0 <= k < old(self).num_drives()
                implies #[trigger] self.shadow_at(k) == old(self).shadow_at(k) by {}
            assert(old(self).drive_at(j as int)@.len() == old(self).drive_size_spec());
            assert(self.drive_at(j as int)@ == old(self).drive_at(j as int)@);
            Self::lemma_inv_one_drive_changed(*old(self), *self, j as int);
        }
    }

    /// Relies on rand::Rng::random_range of the process-wide generator: returns
    /// an index below the given bound; the range must be nonempty.
    #[verifier::external_body]
    fn random_below(n: usize) -> (r: usize)
        requires
            n > 0,
        ensures
            r < n,
    {
        rand::Rng::random_range(&mut rand::rng(), 0..n)
    }

    /// Chooses a random drive that hasn't failed yet and marks it as failed
    pub fn fail_random(&mut self)
        requires
            old(self).inv(),
            old(self).count_failed() < old(self).num_drives(),
        ensures
            final(self).inv(),
            final(self).num_drives() == old(self).num_drives(),
            final(self).mode_spec() == old(self).mode_spec(),
            final(self).drive_size_spec() == old(self).drive_size_spec(),
            forall|k: int| 0 <= k < old(self).num_drives()
                ==> #[trigger] final(self).shadow_at(k) == old(self).shadow_at(k),
            exists|j: int| 0 <= j < old(self).num_drives()
                && !(#[trigger] old(self).drive_at(j)).failed_spec()
                && final(self).drive_at(j).failed_spec()
                && final(self).drive_at(j)@ == old(self).drive_at(j)@
                && final(self).drive_at(j).formatted_spec()
                    == old(self).drive_at(j).formatted_spec()
                && (forall|k: int| 0 <= k < old(self).num_drives() && k != j
                    ==> #[trigger] final(self).drive_at(k) == old(self).drive_at(k)),
    {
        let candidates = self.not_failed();
        let pick = Self::random_below(candidates.len());
        let j = candidates[pick];
        self.fail_drive(j);
    }

    /// Chooses a random data drive that hasn't failed yet and marks it as failed
    pub fn fail_random_data(&mut self)
        requires
            old(self).inv(),
            exists|k: int| 0 <= k < old(self).data_count()
                && !(#[trigger] old(self).data_drive_at(k)).failed_spec(),
        ensures
            final(self).inv(),
            final(self).num_drives() == old(self).num_drives(),
            final(self).mode_spec() == old(self).mode_spec(),
            final(self).drive_size_spec() == old(self).drive_size_spec(),
            forall|k: int| 0 <= k < old(self).num_drives()
                ==> #[trigger] final(self).shadow_at(k) == old(self).shadow_at(k),
            exists|j: int| old(self).parity_count() <= j < old(self).num_drives()
                && !(#[trigger] old(self).drive_at(j)).failed_spec()
                && final(self).drive_at(j).failed_spec()
                && final(self).drive_at(j)@ == old(self).drive_at(j)@
                && final(self).drive_at(j).formatted_spec()
                    == old(self).drive_at(j).formatted_spec()
                && (forall|k: int| 0 <= k < old(self).num_drives() && k != j
                    ==> #[trigger] final(self).drive_at(k) == old(self).drive_at(k)),
    {
        let start: usize = match self.mode {
            RaidMode::Raid5 => 1,
            RaidMode::Raid6 => 2,
        };
        let n = self.drives.len();
        let mut candidates: Vec<usize> = Vec::new();
        let mut i: usize = start;
        while i < n
            invariant
                self.inv(),
                start == self.parity_count(),
                start <= i <= n,
                n == self.num_drives(),
                forall|j: int| 0 <= j < candidates@.len()
                    ==> start <= #[trigger] candidates@[j] < i
                        && !self.drive_at(candidates@[j] as int).failed_spec(),
                forall|k: int| start <= k < i && !(#[trigger] self.drive_at(k)).failed_spec()
                    ==> candidates@.len() > 0,
            decreases n - i,
        {
            if !self.drives[i].has_failed() {
                candidates.push(i);
            }
            i = i + 1;
        }
        proof {
            let w = choose|k: int| 0 <= k < self.data_count()
                && !(#[trigger] self.data_drive_at(k)).failed_spec();
            assert(!self.drive_at(start + w).failed_spec());
        }
        let pick = Self::random_below(candidates.len());
        let j = candidates[pick];
        self.fail_drive(j);
    }

    /// Mark the P parity drive as failed
    pub fn fail_p_parity(&mut self)
        requires
            old(self).inv(),
        ensures
            final(self).inv(),
            final(self).num_drives() == old(self).num_drives(),
            final(self).mode_spec() == old(self).mode_spec(),
            final(self).drive_size_spec() == old(self).drive_size_spec(),
            forall|k: int| 0 <= k < old(self).num_drives()
                ==> #[trigger] final(self).shadow_at(k) == old(self).shadow_at(k),
            forall|k: int| 0 < k < old(self).num_drives()
                ==> #[trigger] final(self).drive_at(k) == old(self).drive_at(k),
            final(self).drive_at(P_INDEX as int).failed_spec(),
            final(self).drive_at(P_INDEX as int)@ == old(self).drive_at(P_INDEX as int)@,
            final(self).drive_at(P_INDEX as int).formatted_spec()
                == old(self).drive_at(P_INDEX as int).formatted_spec(),
    {
        self.fail_drive(P_INDEX);
    }

    /// Mark the Q parity drive as failed
    pub fn fail_q_parity(&mut self)
        requires
            old(self).inv(),
        ensures
            final(self).inv(),
            final(self).num_drives() == old(self).num_drives(),
            final(self).mode_spec() == old(self).mode_spec(),
            final(self).drive_size_spec() == old(self).drive_size_spec(),
            forall|k: int| 0 <= k < old(self).num_drives()
                ==> #[trigger] final(self).shadow_at(k) == old(self).shadow_at(k),
            forall|k: int| 0 <= k < old(self).num_drives() && k != Q_INDEX
                ==> #[trigger] final(self).drive_at(k) == old(self).drive_at(k),
            final(self).drive_at(Q_INDEX as int).failed_spec(),
            final(self).drive_at(Q_INDEX as int)@ == old(self).drive_at(Q_INDEX as int)@,
            final(self).drive_at(Q_INDEX as int).formatted_spec()
                == old(self).drive_at(Q_INDEX as int).formatted_spec(),
    {
        self.fail_drive(Q_INDEX);
    }

    /// Replaces failed drives with empty, functioning drives
    pub fn replace_failed_drives(&mut self)
        requires
            old(self).inv(),
        ensures
            final(self).inv(),
            final(self).num_drives() == old(self).num_drives(),
            final(self).mode_spec() == old(self).mode_spec(),
            final(self).drive_size_spec() == old(self).drive_size_spec(),
            forall|k: int| 0 <= k < old(self).num_drives()
                ==> #[trigger] final(self).shadow_at(k) == old(self).shadow_at(k),
            forall|k: int| 0 <= k < old(self).num_drives()
                && !(#[trigger] old(self).drive_at(k)).failed_spec()
                ==> final(self).drive_at(k) == old(self).drive_at(k),
            forall|k: int| 0 <= k < old(self).num_drives()
                && (#[trigger] old(self).drive_at(k)).failed_spec()
                ==> final(self).drive_at(k)@
                        == Seq::new(old(self).drive_size_spec() as nat, |i: int| 0u8)
                    && !final(self).drive_at(k).failed_spec()
                    && !final(self).drive_at(k).formatted_spec(),
            final(self).count_failed() == 0,
    {
        let n = self.drives.len();
        let mut i: usize = 0;
        while i < n
            invariant
                i <= n,
                n == self.num_drives(),
                self.inv(),
                self.num_drives() == old(self).num_drives(),
                self.mode_spec() == old(self).mode_spec(),
                self.drive_size_spec() == old(self).drive_size_spec(),
                forall|k: int| 0 <= k < n
                    ==> #[trigger] self.shadow_at(k) == old(self).shadow_at(k),
                forall|k: int| 0 <= k < n && !(#[trigger] old(self).drive_at(k)).failed_spec()
                    ==> self.drive_at(k) == old(self).drive_at(k),
                forall|k: int| i <= k < n
                    ==> #[trigger] self.drive_at(k) == old(self).drive_at(k),
                forall|k: int| 0 <= k < i && (#[trigger] old(self).drive_at(k)).failed_spec()
                    ==> self.drive_at(k)@
                            == Seq::new(old(self).drive_size_spec() as nat, |i2: int| 0u8)
                        && !self.drive_at(k).failed_spec()
                        && !self.drive_at(k).formatted_spec(),
            decreases n - i,
        {
            if self.drives[i].has_failed() {
                let ghost prev = *self;
                let drive = Drive::empty(self.drive_size);
                self.drives[i] = drive;
                proof {
                    assert forall|k: int| 0 <= k < n && k != i
                        implies #[trigger] self.drive_at(k) == prev.drive_at(k) by {}
                    assert forall|k: int| 0 <= k < n
                        implies #[trigger] self.shadow_at(k) == prev.shadow_at(k) by {}
                    Self::lemma_inv_one_drive_changed(prev, *self, i as int);
                }
            }
            i = i + 1;
        }
        proof {
            assert forall|k: int| 0 <= k < self.num_drives()
                implies !(#[trigger] self.drive_at(k)).failed_spec() by {
                if !old(self).drive_at(k).failed_spec() {
                    assert(self.drive_at(k) == old(self).drive_at(k));
                }
            }
            self.lemma_count_all(self.num_drives());
        }
    }

    /// XORs the byte at `offset` across all data drives except the ones in `ignore`
    fn p_parity_offset_ignore(&self, offset: usize, ignore: Vec<usize>) -> (r: Result<
        u8,
        RaidError,
    >)
        requires
            self.inv(),
            offset < self.drive_size_spec(),
        ensures
            (forall|k: int| 0 <= k < self.data_count() && !ignore@.contains(k as usize)
                ==> !(#[trigger] self.data_drive_at(k)).failed_spec())
                ==> r == Result::<u8, RaidError>::Ok(
                xor_fold(mask_seq(self.data_stripe(offset as int), ignore@)),
            ),
            (exists|k: int| 0 <= k < self.data_count() && !ignore@.contains(k as usize)
                && (#[trigger] self.data_drive_at(k)).failed_spec())
                ==> r == Result::<u8, RaidError>::Err(
                RaidError::DriveError(DriveError::Failed),
            ),
    {
        let ghost masked = mask_seq(self.data_stripe(offset as int), ignore@);
        let start: usize = match self.mode {
            RaidMode::Raid5 => 1,
            RaidMode::Raid6 => 2,
        };
        let n = self.drives.len();
        let mut acc: u8 = 0;
        let mut k: usize = 0;
        while start + k < n
            invariant
                self.inv(),
                start == self.parity_count(),
                n == self.num_drives(),
                offset < self.drive_size_spec(),
                0 <= k <= self.data_count(),
                masked == mask_seq(self.data_stripe(offset as int), ignore@),
                forall|k2: int| 0 <= k2 < k && !ignore@.contains(k2 as usize)
                    ==> !(#[trigger] self.data_drive_at(k2)).failed_spec(),
                acc == xor_fold(masked.take(k as int)),
            decreases n - start - k,
        {
            proof {
                broadcast use group_xor_facts;

                assert(masked.take(k + 1).drop_last() == masked.take(k as int));
            }
            if !contains_idx(&ignore, k) {
                if self.drives[start + k].has_failed() {
                    proof {
                        assert(self.data_drive_at(k as int).failed_spec());
                    }
                    return Err(RaidError::DriveError(DriveError::Failed));
                }
                proof {
                    assert(self.drive_at(start + k as int)@.len() == self.drive_size_spec());
                }
                let b = self.drives[start + k].read(offset).unwrap();
                acc = acc ^ b;
                proof {
                    assert(masked[k as int] == self.data_drive_at(k as int)@[offset as int]);
                }
            } else {
                proof {
                    broadcast use group_xor_facts;

                    assert(masked[k as int] == 0);
                }
            }
            k = k + 1;
        }
        proof {
            assert(masked.take(masked.len() as int) == masked);
        }
        Ok(acc)
    }

    /// XORs the generator-weighted byte at `offset` across all data drives
    /// except the ones in `ignore`
    fn q_parity_offset_ignore(&self, offset: usize, ignore: Vec<usize>) -> (r: Result<
        u8,
        RaidError,
    >)
        requires
            self.inv(),
            offset < self.drive_size_spec(),
        ensures
            (forall|k: int| 0 <= k < self.data_count() && !ignore@.contains(k as usize)
                ==> !(#[trigger] self.data_drive_at(k)).failed_spec())
                ==> r == Result::<u8, RaidError>::Ok(
                qxor_fold(mask_seq(self.data_stripe(offset as int), ignore@)),
            ),
            (exists|k: int| 0 <= k < self.data_count() && !ignore@.contains(k as usize)
                && (#[trigger] self.data_drive_at(k)).failed_spec())
                ==> r == Result::<u8, RaidError>::Err(
                RaidError::DriveError(DriveError::Failed),
            ),
    {
        let ghost masked = mask_seq(self.data_stripe(offset as int), ignore@);
        let start: usize = match self.mode {
            RaidMode::Raid5 => 1,
            RaidMode::Raid6 => 2,
        };
        let n = self.drives.len();
        let mut acc: u8 = 0;
        let mut k: usize = 0;
        while start + k < n
            invariant
                self.inv(),
                start == self.parity_count(),
                n == self.num_drives(),
                offset < self.drive_size_spec(),
                0 <= k <= self.data_count(),
                masked == mask_seq(self.data_stripe(offset as int), ignore@),
                forall|k2: int| 0 <= k2 < k && !ignore@.contains(k2 as usize)
                    ==> !(#[trigger] self.data_drive_at(k2)).failed_spec(),
                acc == qxor_fold(masked.take(k as int)),
            decreases n - start - k,
        {
            proof {
                broadcast use group_xor_facts;

                assert(masked.take(k + 1).drop_last() == masked.take(k as int));
            }
            if !contains_idx(&ignore, k) {
                if self.drives[start + k].has_failed() {
                    proof {
                        assert(self.data_drive_at(k as int).failed_spec());
                    }
                    return Err(RaidError::DriveError(DriveError::Failed));
                }
                proof {
                    assert(self.drive_at(start + k as int)@.len() == self.drive_size_spec());
                }
                let b = self.drives[start + k].read(offset).unwrap();
                let weighted = Gen::from_power(k).mul_byte(b);
                acc = acc ^ weighted.value();
                proof {
                    assert(masked[k as int] == self.data_drive_at(k as int)@[offset as int]);
                    lemma_gfmul_powstep(k as int, b);
                }
            } else {
                proof {
                    broadcast use group_xor_facts;

                    assert(masked[k as int] == 0);
                    lemma_powstep_zero(k as nat);
                }
            }
            k = k + 1;
        }
        proof {
            assert(masked.take(masked.len() as int) == masked);
        }
        Ok(acc)
    }

    /// The data drive a byte address falls on.
    pub open spec fn addr_drive(self, offset: int) -> int {
        offset / self.drive_size_spec()
    }

    /// The offset within that drive.
    pub open spec fn addr_off(self, offset: int) -> int {
        offset % self.drive_size_spec()
    }

    /// The failed count grows along a prefix.
    proof fn lemma_count_failed_mono(self, m: int, n: int)
        requires
            0 <= m <= n,
        ensures
            self.count_failed_upto(m) <= self.count_failed_upto(n),
        decreases n,
    {
        if n > m {
            self.lemma_count_failed_mono(m, n - 1);
        }
    }

    /// Two distinct failed drives push the failed count to at least two.
    proof fn lemma_two_failed(self, j1: int, j2: int)
        requires
            0 <= j1 < j2 < self.num_drives(),
            self.drive_at(j1).failed_spec(),
            self.drive_at(j2).failed_spec(),
        ensures
            self.count_failed() >= 2,
    {
        self.lemma_count_failed_mono(j1 + 1, j2);
        self.lemma_count_failed_mono(j2 + 1, self.num_drives());
        self.lemma_count_all(j1 + 1);
    }

    /// Three distinct failed drives push the failed count to at least three.
    proof fn lemma_three_failed(self, j1: int, j2: int, j3: int)
        requires
            0 <= j1 < j2 < j3 < self.num_drives(),
            self.drive_at(j1).failed_spec(),
            self.drive_at(j2).failed_spec(),
            self.drive_at(j3).failed_spec(),
        ensures
            self.count_failed() >= 3,
    {
        self.lemma_count_failed_mono(j1 + 1, j2);
        self.lemma_count_failed_mono(j2 + 1, j3);
        self.lemma_count_failed_mono(j3 + 1, self.num_drives());
        self.lemma_count_all(j1 + 1);
    }

    /// With at most one failure, a failed drive is the only failed drive.
    proof fn lemma_only_failed(self, j: int)
        requires
            0 <= j < self.num_drives(),
            self.drive_at(j).failed_spec(),
            self.count_failed() <= 1,
        ensures
            forall|k: int| 0 <= k < self.num_drives() && k != j
                ==> !(#[trigger] self.drive_at(k)).failed_spec(),
    {
        assert forall|k: int| 0 <= k < self.num_drives() && k != j
            implies !(#[trigger] self.drive_at(k)).failed_spec() by {
            if self.drive_at(k).failed_spec() {
                if k < j {
                    self.lemma_two_failed(k, j);
                } else {
                    self.lemma_two_failed(j, k);
                }
            }
        }
    }

    /// With at most two failures, two distinct failed drives are the only ones.
    proof fn lemma_only_two_failed(self, j1: int, j2: int)
        requires
            0 <= j1 < j2 < self.num_drives(),
            self.drive_at(j1).failed_spec(),
            self.drive_at(j2).failed_spec(),
            self.count_failed() <= 2,
        ensures
            forall|k: int| 0 <= k < self.num_drives() && k != j1 && k != j2
                ==> !(#[trigger] self.drive_at(k)).failed_spec(),
    {
        assert forall|k: int| 0 <= k < self.num_drives() && k != j1 && k != j2
            implies !(#[trigger] self.drive_at(k)).failed_spec() by {
            if self.drive_at(k).failed_spec() {
                if k < j1 {
                    self.lemma_three_failed(k, j1, j2);
                } else if k < j2 {
                    self.lemma_three_failed(j1, k, j2);
                } else {
                    self.lemma_three_failed(j1, j2, k);
                }
            }
        }
    }

    /// When every data drive outside `ignore` matches its shadow, the masked
    /// physical stripe equals the masked shadow stripe.
    proof fn lemma_masked_stripe(self, o: int, ignore: Seq<usize>)
        requires
            self.wf(),
            0 <= o < self.drive_size_spec(),
            forall|k: int| 0 <= k < self.data_count() && !ignore.contains(k as usize)
                ==> (#[trigger] self.data_drive_at(k))@ == self.shadow_data(k),
        ensures
            mask_seq(self.data_stripe(o), ignore) == mask_seq(self.shadow_stripe(o), ignore),
    {
        assert(mask_seq(self.data_stripe(o), ignore) =~= mask_seq(self.shadow_stripe(o), ignore));
    }

    /// P-parity reconstruction of a single data drive: folding every other
    /// data drive into the P shadow yields the missing drive's shadow byte.
    proof fn lemma_p_reconstruct(self, o: int, x: int)
        requires
            self.inv(),
            0 <= o < self.drive_size_spec(),
            0 <= x < self.data_count(),
            forall|k: int| 0 <= k < self.data_count() && k != x
                ==> (#[trigger] self.data_drive_at(k))@ == self.shadow_data(k),
        ensures
            xor_fold(mask_seq(self.data_stripe(o), seq![x as usize]))
                ^ self.shadow_at(P_INDEX as int)[o] == self.shadow_data(x)[o],
    {
        broadcast use group_xor_facts;

        let ig = seq![x as usize];
        assert(ig[0] == x as usize);
        assert forall|u: usize| #[trigger] ig.contains(u) implies u == x as usize by {}
        self.lemma_masked_stripe(o, ig);
        let stripe = self.shadow_stripe(o);
        assert(mask_seq(stripe, ig) =~= stripe.update(x, 0u8));
        lemma_xor_fold_update(stripe, x, 0);
    }

    /// Q-parity reconstruction of a single data drive: folding every other
    /// weighted data drive into the Q shadow yields the missing drive's shadow
    /// byte weighted by its generator power.
    proof fn lemma_q_reconstruct(self, o: int, x: int)
        requires
            self.inv(),
            self.mode_spec() == RaidMode::Raid6,
            0 <= o < self.drive_size_spec(),
            0 <= x < self.data_count(),
            forall|k: int| 0 <= k < self.data_count() && k != x
                ==> (#[trigger] self.data_drive_at(k))@ == self.shadow_data(k),
        ensures
            qxor_fold(mask_seq(self.data_stripe(o), seq![x as usize]))
                ^ self.shadow_at(Q_INDEX as int)[o]
                == powstep(x as nat, self.shadow_data(x)[o]),
    {
        broadcast use group_xor_facts;

        let ig = seq![x as usize];
        assert(ig[0] == x as usize);
        assert forall|u: usize| #[trigger] ig.contains(u) implies u == x as usize by {}
        self.lemma_masked_stripe(o, ig);
        let stripe = self.shadow_stripe(o);
        assert(mask_seq(stripe, ig) =~= stripe.update(x, 0u8));
        lemma_qxor_fold_update(stripe, x, 0);
        lemma_powstep_zero(x as nat);
    }

    /// P- and Q-parity folds with two data drives masked out: what remains of
    /// each parity is the pair of missing shadow bytes, plain for P and
    /// generator-weighted for Q.
    proof fn lemma_pq_two_masked(self, o: int, x: int, y: int)
        requires
            self.inv(),
            self.mode_spec() == RaidMode::Raid6,
            0 <= o < self.drive_size_spec(),
            0 <= x < self.data_count(),
            0 <= y < self.data_count(),
            x != y,
            forall|k: int| 0 <= k < self.data_count() && k != x && k != y
                ==> (#[trigger] self.data_drive_at(k))@ == self.shadow_data(k),
        ensures
            xor_fold(mask_seq(self.data_stripe(o), seq![x as usize, y as usize]))
                ^ self.shadow_at(P_INDEX as int)[o]
                == self.shadow_data(x)[o] ^ self.shadow_data(y)[o],
            qxor_fold(mask_seq(self.data_stripe(o), seq![x as usize, y as usize]))
                ^ self.shadow_at(Q_INDEX as int)[o]
                == powstep(x as nat, self.shadow_data(x)[o])
                    ^ powstep(y as nat, self.shadow_data(y)[o]),
    {
        broadcast use group_xor_facts;

        let ig = seq![x as usize, y as usize];
        assert(ig[0] == x as usize && ig[1] == y as usize);
        assert forall|u: usize| #[trigger] ig.contains(u)
            implies u == x as usize || u == y as usize by {}
        self.lemma_masked_stripe(o, ig);
        let stripe = self.shadow_stripe(o);
        assert(mask_seq(stripe, ig) =~= stripe.update(x, 0u8).update(y, 0u8));
        lemma_xor_fold_update(stripe, x, 0);
        lemma_xor_fold_update(stripe.update(x, 0u8), y, 0);
        assert(stripe.update(x, 0u8)[y] == stripe[y]);
        lemma_qxor_fold_update(stripe, x, 0);
        lemma_qxor_fold_update(stripe.update(x, 0u8), y, 0);
        lemma_powstep_zero(x as nat);
        lemma_powstep_zero(y as nat);
    }

    /// The RAID-6 two-erasure identity: with distinct generator exponents x
    /// and y, the coefficients a = g^(y-x)/(g^(y-x)+1) and b = g^(-x)/(g^(y-x)+1)
    /// recover the byte of drive x from the two parity differences.
    #[verifier::rlimit(50)]
    proof fn lemma_two_erasure(x: int, y: int, e: int, ex: int, sx: u8, sy: u8, den: u8, a: u8, b: u8)
        requires
            0 <= x < 255,
            0 <= y < 255,
            x != y,
            e == (if y >= x { y - x } else { 255 + y - x }),
            ex == (if x == 0 { 0int } else { 255 - x }),
            den == (gpow(e as nat) ^ 1),
            den != 0,
            a == gfdiv(gpow(e as nat), den),
            b == gfdiv(gpow(ex as nat), den),
        ensures
            gfmul(a, sx ^ sy) ^ gfmul(b, powstep(x as nat, sx) ^ powstep(y as nat, sy)) == sx,
    {
        let gx = gpow(x as nat);
        let gy = gpow(y as nat);
        let ge = gpow(e as nat);
        let gex = gpow(ex as nat);
        let invd = gfinv(den);
        lemma_gfmul_inv(den);
        // the weighted terms are products
        lemma_gfmul_powstep(x, sx);
        lemma_gfmul_powstep(y, sy);
        // distribute both coefficients over the XOR of the two terms
        lemma_gfmul_xor(a, sx, sy);
        lemma_gfmul_xor(b, gfmul(gx, sx), gfmul(gy, sy));
        let t1 = gfmul(a, sx);
        let t2 = gfmul(a, sy);
        let u1 = gfmul(b, gfmul(gx, sx));
        let u2 = gfmul(b, gfmul(gy, sy));
        assert(gfmul(a, sx ^ sy) ^ gfmul(b, powstep(x as nat, sx) ^ powstep(y as nat, sy))
            == (t1 ^ t2) ^ (u1 ^ u2));
        // b * g^x = 1 / den
        assert(gfmul(b, gx) == invd) by {
            lemma_gfmul_assoc(gex, invd, gx);
            lemma_gfmul_comm(invd, gx);
            lemma_gfmul_assoc(gex, gx, invd);
            lemma_gpow_mul(ex, x);
            assert((ex + x) % 255 == 0);
            lemma_powstep_zero_exponent();
            lemma_gfmul_comm(gpow(0), invd);
            lemma_gfmul_one(invd);
        }
        // b * g^y = a
        assert(gfmul(b, gy) == a) by {
            lemma_gfmul_assoc(gex, invd, gy);
            lemma_gfmul_comm(invd, gy);
            lemma_gfmul_assoc(gex, gy, invd);
            lemma_gpow_mul(ex, y);
            assert((ex + y) % 255 == e);
        }
        // regroup the four products by data byte
        assert(u1 == gfmul(invd, sx)) by {
            lemma_gfmul_assoc(b, gx, sx);
        }
        assert(u2 == gfmul(a, sy)) by {
            lemma_gfmul_assoc(b, gy, sy);
        }
        assert((t1 ^ t2) ^ (u1 ^ u2) == (t1 ^ u1) ^ (t2 ^ u2)) by (bit_vector);
        // coefficient of sx is one
        assert(a ^ invd == 1) by {
            lemma_gfmul_one(invd);
            lemma_gfmul_comm(1, invd);
            lemma_gfmul_xor_left(ge, 1, invd);
            lemma_gfmul_comm(den, invd);
        }
        assert(t1 ^ u1 == sx) by {
            lemma_gfmul_xor_left(a, invd, sx);
            lemma_gfmul_one(sx);
        }
        assert(t2 ^ u2 == 0) by {
            lemma_xor_self_cancel(t2);
        }
        assert(sx ^ 0u8 == sx) by (bit_vector);
    }

    /// A failed drive that is the only failure among the first n drives gives
    /// a failed count of exactly one.
    proof fn lemma_count_single(self, j: int, n: int)
        requires
            0 <= j < self.num_drives(),
            n <= self.num_drives(),
            self.drive_at(j).failed_spec(),
            forall|k: int| 0 <= k < self.num_drives() && k != j
                ==> !(#[trigger] self.drive_at(k)).failed_spec(),
        ensures
            self.count_failed_upto(n) == if j < n { 1int } else { 0int },
        decreases n,
    {
        if n > 0 {
            self.lemma_count_single(j, n - 1);
        }
    }

    /// Reads a byte at a specific offset in the array
    #[verifier::rlimit(100)]
    #[verifier::spinoff_prover]
    pub fn read(&self, offset: usize) -> (r: Result<u8, RaidError>)
        requires
            self.inv(),
        ensures
            offset >= self.size_spec() ==> r == Result::<u8, RaidError>::Err(
                RaidError::OffsetTooLarge(offset),
            ),
            offset < self.size_spec() && self.state_spec() == RaidState::Failed
                ==> r == Result::<u8, RaidError>::Err(RaidError::Failed),
            offset < self.size_spec() && (self.state_spec() == RaidState::Okay
                || self.state_spec() == RaidState::Degraded) ==> r.is_ok(),
            offset < self.size_spec() && self.state_spec() != RaidState::Failed
                && !self.data_drive_at(self.addr_drive(offset as int)).failed_spec()
                ==> r == Result::<u8, RaidError>::Ok(
                    self.data_drive_at(self.addr_drive(offset as int))@[self.addr_off(
                        offset as int,
                    )],
                ),
            offset < self.size_spec() && self.state_spec() != RaidState::Failed
                && self.data_drive_at(self.addr_drive(offset as int)).failed_spec()
                && self.count_unformatted() == 0 ==> r == Result::<u8, RaidError>::Ok(
                    self.shadow_data(self.addr_drive(offset as int))[self.addr_off(offset as int)],
                ),
    {
        if offset >= self.size() {
            return Err(RaidError::OffsetTooLarge(offset));
        }
        if self.state() == RaidState::Failed {
            return Err(RaidError::Failed);
        }
        let drive_offset = offset % self.drive_size;
        let drive_index = offset / self.drive_size;
        let start: usize = match self.mode {
            RaidMode::Raid5 => 1,
            RaidMode::Raid6 => 2,
        };
        proof {
            let dc = self.data_count();
            let s = self.drive_size_spec();
            let off = offset as int;
            assert(off / s < dc && off % s < s) by (nonlinear_arith)
                requires
                    off < dc * s,
                    s >= 1,
            ;
        }
        let ghost x = drive_index as int;
        let ghost o = drive_offset as int;
        let ghost ax = start + x;
        proof {
            assert(self.drive_at(ax)@.len() == self.drive_size_spec());
            assert(self.drive_at(P_INDEX as int)@.len() == self.drive_size_spec());
            assert(self.drive_at(Q_INDEX as int)@.len() == self.drive_size_spec());
        }
        if !self.drives[start + drive_index].has_failed() {
            let b = self.drives[start + drive_index].read(drive_offset).unwrap();
            return Ok(b);
        }
        // The addressed drive has failed; reconstruct its byte from parity.
        proof {
            self.lemma_count_all(self.num_drives());
        }
        let failed_list = self.failed();
        if failed_list.len() == 1 || self.drives[Q_INDEX].has_failed() {
            // A single failure, or the other failure is the Q drive: use P.
            proof {
                if self.state_spec() == RaidState::Okay
                    || self.state_spec() == RaidState::Degraded
                    || self.count_unformatted() == 0 {
                    if self.count_failed() == 1 {
                        self.lemma_only_failed(ax);
                    } else {
                        self.lemma_two_failed_cases(ax);
                    }
                }
            }
            let mut ig: Vec<usize> = Vec::new();
            ig.push(drive_index);
            let ghost igs = ig@;
            let fold = match self.p_parity_offset_ignore(drive_offset, ig) {
                Ok(v) => v,
                Err(e) => {
                    proof {
                        assert(igs[0] == drive_index);
                        let k2 = choose|k2: int| 0 <= k2 < self.data_count()
                            && !igs.contains(k2 as usize)
                            && (#[trigger] self.data_drive_at(k2)).failed_spec();
                        assert(igs.contains(drive_index));
                        self.lemma_p_path_err(ax, start + k2, failed_list@.len() == 1);
                    }
                    return Err(e);
                },
            };
            let p = match self.drives[P_INDEX].read(drive_offset) {
                Ok(v) => v,
                Err(e) => {
                    proof {
                        self.lemma_p_path_err(ax, P_INDEX as int, failed_list@.len() == 1);
                    }
                    return Err(RaidError::DriveError(e));
                },
            };
            let v = fold ^ p;
            proof {
                if self.count_unformatted() == 0 {
                    assert(seq![x as usize] =~= igs);
                    self.lemma_read_p_clean(o, x);
                    lemma_xor_comm(fold, p);
                }
            }
            Ok(v)
        } else if self.drives[P_INDEX].has_failed() {
            // P is gone beside the data drive: use Q and divide by g^x.
            proof {
                self.lemma_two_failed(P_INDEX as int, ax);
                if self.count_failed() <= 2 {
                    self.lemma_only_two_failed(P_INDEX as int, ax);
                }
            }
            let mut ig: Vec<usize> = Vec::new();
            ig.push(drive_index);
            let ghost igs = ig@;
            let fold = match self.q_parity_offset_ignore(drive_offset, ig) {
                Ok(v) => v,
                Err(e) => {
                    proof {
                        assert(igs[0] == drive_index);
                        let k2 = choose|k2: int| 0 <= k2 < self.data_count()
                            && !igs.contains(k2 as usize)
                            && (#[trigger] self.data_drive_at(k2)).failed_spec();
                        assert(igs.contains(drive_index));
                        self.lemma_q_path_err(ax, start + k2);
                    }
                    return Err(e);
                },
            };
            let q = self.drives[Q_INDEX].read(drive_offset).unwrap();
            let diff = fold ^ q;
            let gx = Gen::from_power(drive_index);
            let res = Gen::from(diff).div(gx);
            proof {
                lemma_from_byte(diff);
                if self.count_unformatted() == 0 {
                    self.lemma_count_all(self.num_drives());
                    assert(self.count_failed() <= 2);
                    assert(seq![x as usize] =~= igs);
                    self.lemma_read_q_clean(o, x);
                }
            }
            Ok(res.value())
        } else {
            // Two failed data drives: solve the two parity equations.
            proof {
                self.lemma_count_all(self.num_drives());
            }
            let n = self.drives.len();
            let mut y: usize = 0;
            let mut found = false;
            let mut k: usize = 0;
            while k < n - start
                invariant
                    self.inv(),
                    start == self.parity_count(),
                    n == self.num_drives(),
                    k <= self.data_count(),
                    x == drive_index,
                    0 <= x < self.data_count(),
                    found ==> 0 <= y < k && y != drive_index
                        && self.data_drive_at(y as int).failed_spec(),
                    !found ==> forall|m: int| 0 <= m < k && m != x
                        ==> !(#[trigger] self.data_drive_at(m)).failed_spec(),
                decreases n - start - k,
            {
                if !found && k != drive_index && self.drives[start + k].has_failed() {
                    y = k;
                    found = true;
                }
                k = k + 1;
            }
            if !found {
                proof {
                    assert forall|m: int| 0 <= m < self.num_drives() && m != ax
                        implies !(#[trigger] self.drive_at(m)).failed_spec() by {
                        if m >= start {
                            assert(!self.data_drive_at(m - start).failed_spec());
                        }
                    }
                    self.lemma_count_single(ax, self.num_drives());
                    assert(false);
                }
                return Err(RaidError::Failed);
            }
            let ghost ay = start + y as int;
            proof {
                if ax < ay {
                    self.lemma_two_failed(ax, ay);
                } else {
                    self.lemma_two_failed(ay, ax);
                }
                if self.count_failed() <= 2 {
                    if ax < ay {
                        self.lemma_only_two_failed(ax, ay);
                    } else {
                        self.lemma_only_two_failed(ay, ax);
                    }
                }
            }
            let mut ig1: Vec<usize> = Vec::new();
            ig1.push(drive_index);
            ig1.push(y);
            let mut ig2: Vec<usize> = Vec::new();
            ig2.push(drive_index);
            ig2.push(y);
            let ghost igs = ig1@;
            let ghost ig2s = ig2@;
            let p_xy = match self.p_parity_offset_ignore(drive_offset, ig1) {
                Ok(v) => v,
                Err(e) => {
                    proof {
                        assert(igs[0] == drive_index && igs[1] == y);
                        let k2 = choose|k2: int| 0 <= k2 < self.data_count()
                            && !igs.contains(k2 as usize)
                            && (#[trigger] self.data_drive_at(k2)).failed_spec();
                        assert(igs.contains(drive_index) && igs.contains(y));
                        self.lemma_over_failed(ax, ay, start + k2);
                    }
                    return Err(e);
                },
            };
            let q_xy = match self.q_parity_offset_ignore(drive_offset, ig2) {
                Ok(v) => v,
                Err(e) => {
                    proof {
                        assert(igs[0] == drive_index && igs[1] == y);
                        assert(igs =~= Seq::<usize>::empty().push(drive_index).push(y));
                        let k2 = choose|k2: int| 0 <= k2 < self.data_count()
                            && !igs.contains(k2 as usize)
                            && (#[trigger] self.data_drive_at(k2)).failed_spec();
                        assert(igs.contains(drive_index) && igs.contains(y));
                        self.lemma_over_failed(ax, ay, start + k2);
                    }
                    return Err(e);
                },
            };
            let p = self.drives[P_INDEX].read(drive_offset).unwrap();
            let q = self.drives[Q_INDEX].read(drive_offset).unwrap();
            let eg = Gen::from_power((y as i32) - (drive_index as i32));
            let den = eg.add_byte(1);
            let ghost e: int = if y >= drive_index { y - x } else { 255 + y as int - x };
            proof {
                assert(eg.power_spec() == e);
                lemma_powstep_zero_exponent();
                if gpow(e as nat) == 1 {
                    lemma_gpow_injective(e, 0);
                }
                lemma_xor_nonzero(gpow(e as nat), 1);
                assert(den.byte_spec() != 0);
            }
            let a = eg.div(den);
            let b = Gen::from_power(-(drive_index as i32)).div(den);
            let v = a.mul_byte(p ^ p_xy).value() ^ b.mul_byte(q ^ q_xy).value();
            proof {
                if self.count_unformatted() == 0 {
                    self.lemma_count_all(self.num_drives());
                    assert(self.count_failed() <= 2);
                    assert(seq![x as usize, y] =~= igs);
                    assert(ig2s =~= igs);
                    let ghost ex: int = if x == 0 { 0int } else { 255 - x };
                    self.lemma_read_two_clean(
                        o, x, y as int, e, ex, den.byte_spec(), a.byte_spec(), b.byte_spec(),
                    );
                }
            }
            Ok(v)
        }
    }

    /// If the P-based read path hits a second failure beside the addressed
    /// drive, too many drives are gone: the array is Failed, or it was never
    /// initialized, and in either case some drive is unformatted or the state
    /// is Failed.
    proof fn lemma_p_path_err(self, ax: int, a2: int, single: bool)
        requires
            self.inv(),
            0 <= ax < self.num_drives(),
            0 <= a2 < self.num_drives(),
            ax != a2,
            self.drive_at(ax).failed_spec(),
            self.drive_at(a2).failed_spec(),
            single ==> self.count_failed() == 1,
            !single ==> self.drive_at(Q_INDEX as int).failed_spec(),
            self.mode_spec() == RaidMode::Raid6 ==> ax != Q_INDEX && a2 != Q_INDEX,
        ensures
            self.state_spec() == RaidState::Failed || self.state_spec() == RaidState::Uninit,
            self.count_unformatted() > 0 || self.state_spec() == RaidState::Failed,
    {
        self.lemma_count_all(self.num_drives());
        if ax < a2 {
            self.lemma_two_failed(ax, a2);
        } else {
            self.lemma_two_failed(a2, ax);
        }
        if self.mode_spec() == RaidMode::Raid6 {
            // with Q failed as well, three distinct drives are gone
            let q = Q_INDEX as int;
            if q != ax && q != a2 {
                if ax < a2 {
                    if q < ax {
                        self.lemma_three_failed(q, ax, a2);
                    } else if q < a2 {
                        self.lemma_three_failed(ax, q, a2);
                    } else {
                        self.lemma_three_failed(ax, a2, q);
                    }
                } else {
                    if q < a2 {
                        self.lemma_three_failed(q, a2, ax);
                    } else if q < ax {
                        self.lemma_three_failed(a2, q, ax);
                    } else {
                        self.lemma_three_failed(a2, ax, q);
                    }
                }
            }
        }
    }

    /// On a clean degraded array, the P path of `read` returns the addressed
    /// drive's recoverable byte.
    proof fn lemma_read_p_clean(self, o: int, x: int)
        requires
            self.inv(),
            0 <= o < self.drive_size_spec(),
            0 <= x < self.data_count(),
            self.count_unformatted() == 0,
            !self.drive_at(P_INDEX as int).failed_spec(),
            forall|k: int| 0 <= k < self.data_count() && k != x
                ==> !(#[trigger] self.data_drive_at(k)).failed_spec(),
        ensures
            xor_fold(mask_seq(self.data_stripe(o), seq![x as usize]))
                ^ self.drive_at(P_INDEX as int)@[o] == self.shadow_data(x)[o],
    {
        broadcast use group_xor_facts;

        self.lemma_count_all(self.num_drives());
        assert forall|k: int| 0 <= k < self.data_count() && k != x
            implies (#[trigger] self.data_drive_at(k))@ == self.shadow_data(k) by {
            assert(!self.data_drive_at(k).failed_spec());
            assert(self.drive_at(self.parity_count() + k).formatted_spec());
            assert(self.available(self.parity_count() + k));
        }
        assert(self.available(P_INDEX as int));
        self.lemma_p_reconstruct(o, x);
    }

    /// On a clean degraded array with P gone, the Q path of `read` divided by
    /// g^x returns the addressed drive's recoverable byte.
    proof fn lemma_read_q_clean(self, o: int, x: int)
        requires
            self.inv(),
            self.mode_spec() == RaidMode::Raid6,
            0 <= o < self.drive_size_spec(),
            0 <= x < self.data_count(),
            self.count_unformatted() == 0,
            !self.drive_at(Q_INDEX as int).failed_spec(),
            forall|k: int| 0 <= k < self.data_count() && k != x
                ==> !(#[trigger] self.data_drive_at(k)).failed_spec(),
        ensures
            gfdiv(
                qxor_fold(mask_seq(self.data_stripe(o), seq![x as usize]))
                    ^ self.drive_at(Q_INDEX as int)@[o],
                gpow(x as nat),
            ) == self.shadow_data(x)[o],
    {
        broadcast use group_xor_facts;

        self.lemma_count_all(self.num_drives());
        assert forall|k: int| 0 <= k < self.data_count() && k != x
            implies (#[trigger] self.data_drive_at(k))@ == self.shadow_data(k) by {
            assert(!self.data_drive_at(k).failed_spec());
            assert(self.drive_at(self.parity_count() + k).formatted_spec());
            assert(self.available(self.parity_count() + k));
        }
        assert(self.available(Q_INDEX as int));
        self.lemma_q_reconstruct(o, x);
        let sx = self.shadow_data(x)[o];
        lemma_gfmul_powstep(x, sx);
        lemma_gpow_nonzero(x as nat);
        lemma_gfdiv_mul(sx, gpow(x as nat));
        lemma_gfmul_comm(gpow(x as nat), sx);
    }

    /// On a clean degraded array with two data drives gone, the coefficient
    /// combination of the two parity differences returns the recoverable byte
    /// of the first one.
    proof fn lemma_read_two_clean(
        self, o: int, x: int, y: int, e: int, ex: int, den: u8, av: u8, bv: u8,
    )
        requires
            self.inv(),
            self.mode_spec() == RaidMode::Raid6,
            0 <= o < self.drive_size_spec(),
            0 <= x < self.data_count(),
            0 <= y < self.data_count(),
            x != y,
            self.count_unformatted() == 0,
            !self.drive_at(P_INDEX as int).failed_spec(),
            !self.drive_at(Q_INDEX as int).failed_spec(),
            forall|k: int| 0 <= k < self.data_count() && k != x && k != y
                ==> !(#[trigger] self.data_drive_at(k)).failed_spec(),
            e == (if y >= x { y - x } else { 255 + y - x }),
            ex == (if x == 0 { 0int } else { 255 - x }),
            den == (gpow(e as nat) ^ 1),
            den != 0,
            av == gfdiv(gpow(e as nat), den),
            bv == gfdiv(gpow(ex as nat), den),
        ensures
            gfmul(
                av,
                self.drive_at(P_INDEX as int)@[o] ^ xor_fold(
                    mask_seq(self.data_stripe(o), seq![x as usize, y as usize]),
                ),
            ) ^ gfmul(
                bv,
                self.drive_at(Q_INDEX as int)@[o] ^ qxor_fold(
                    mask_seq(self.data_stripe(o), seq![x as usize, y as usize]),
                ),
            ) == self.shadow_data(x)[o],
    {
        broadcast use group_xor_facts;

        self.lemma_count_all(self.num_drives());
        assert forall|k: int| 0 <= k < self.data_count() && k != x && k != y
            implies (#[trigger] self.data_drive_at(k))@ == self.shadow_data(k) by {
            assert(!self.data_drive_at(k).failed_spec());
            assert(self.drive_at(self.parity_count() + k).formatted_spec());
            assert(self.available(self.parity_count() + k));
        }
        assert(self.available(P_INDEX as int));
        assert(self.available(Q_INDEX as int));
        self.lemma_pq_two_masked(o, x, y);
        Self::lemma_two_erasure(
            x, y, e, ex, self.shadow_data(x)[o], self.shadow_data(y)[o], den, av, bv,
        );
    }

    /// Three distinct failed drives leave the array Failed, or never
    /// initialized.
    proof fn lemma_over_failed(self, b1: int, b2: int, b3: int)
        requires
            self.inv(),
            0 <= b1 < self.num_drives(),
            0 <= b2 < self.num_drives(),
            0 <= b3 < self.num_drives(),
            b1 != b2,
            b1 != b3,
            b2 != b3,
            self.drive_at(b1).failed_spec(),
            self.drive_at(b2).failed_spec(),
            self.drive_at(b3).failed_spec(),
        ensures
            self.state_spec() == RaidState::Failed || self.state_spec() == RaidState::Uninit,
            self.count_unformatted() > 0 || self.state_spec() == RaidState::Failed,
    {
        self.lemma_count_all(self.num_drives());
        if b1 < b2 && b2 < b3 {
            self.lemma_three_failed(b1, b2, b3);
        } else if b1 < b3 && b3 < b2 {
            self.lemma_three_failed(b1, b3, b2);
        } else if b2 < b1 && b1 < b3 {
            self.lemma_three_failed(b2, b1, b3);
        } else if b2 < b3 && b3 < b1 {
            self.lemma_three_failed(b2, b3, b1);
        } else if b3 < b1 && b1 < b2 {
            self.lemma_three_failed(b3, b1, b2);
        } else {
            self.lemma_three_failed(b3, b2, b1);
        }
    }

    /// If the Q-based read path hits a second data failure beside the
    /// addressed drive while P is down as well, three drives are gone: the
    /// array is Failed, or it was never initialized.
    proof fn lemma_q_path_err(self, ax: int, a2: int)
        requires
            self.inv(),
            0 < ax < self.num_drives(),
            0 < a2 < self.num_drives(),
            ax != a2,
            self.drive_at(0).failed_spec(),
            self.drive_at(ax).failed_spec(),
            self.drive_at(a2).failed_spec(),
        ensures
            self.state_spec() == RaidState::Failed || self.state_spec() == RaidState::Uninit,
            self.count_unformatted() > 0 || self.state_spec() == RaidState::Failed,
    {
        self.lemma_count_all(self.num_drives());
        if ax < a2 {
            self.lemma_three_failed(0, ax, a2);
        } else {
            self.lemma_three_failed(0, a2, ax);
        }
    }

    /// With the addressed data drive and the Q drive failed and no more than
    /// two failures, every other drive is alive.
    proof fn lemma_two_failed_cases(self, ax: int)
        requires
            self.inv(),
            0 <= ax < self.num_drives(),
            self.parity_count() <= ax,
            self.drive_at(ax).failed_spec(),
            self.drive_at(Q_INDEX as int).failed_spec(),
            self.count_failed() <= 2,
            ax != Q_INDEX,
        ensures
            forall|k: int| 0 <= k < self.num_drives() && k != ax && k != Q_INDEX
                ==> !(#[trigger] self.drive_at(k)).failed_spec(),
    {
        self.lemma_only_two_failed(Q_INDEX as int, ax);
    }

    /// Parity equation (P): on any reachable array, the P-drive's recoverable
    /// byte at every offset is the XOR of the data drives' recoverable bytes,
    /// and an available P drive physically holds it.
    pub proof fn lemma_parity_equation_p(s: RaidSim, i: int)
        requires
            s.inv(),
            0 <= i < s.drive_size_spec(),
        ensures
            s.shadow_at(P_INDEX as int)[i] == xor_fold(s.shadow_stripe(i)),
            s.available(P_INDEX as int) ==> s.drive_at(P_INDEX as int)@[i] == xor_fold(
                s.shadow_stripe(i),
            ),
    {
    }

    /// Parity equation (Q), RAID-6: on any reachable array, the Q-drive's
    /// recoverable byte at every offset is the XOR of the data drives'
    /// recoverable bytes, each weighted by the generator power of its index,
    /// and an available Q drive physically holds it.
    pub proof fn lemma_parity_equation_q(s: RaidSim, i: int)
        requires
            s.inv(),
            s.mode_spec() == RaidMode::Raid6,
            0 <= i < s.drive_size_spec(),
        ensures
            s.shadow_at(Q_INDEX as int)[i] == qxor_fold(s.shadow_stripe(i)),
            s.available(Q_INDEX as int) ==> s.drive_at(Q_INDEX as int)@[i] == qxor_fold(
                s.shadow_stripe(i),
            ),
    {
    }

    /// Two arrays whose drives carry the same flags have the same counts.
    proof fn lemma_count_same_flags(a: RaidSim, b: RaidSim, n: int)
        requires
            a.num_drives() == b.num_drives(),
            n <= a.num_drives(),
            forall|k: int| 0 <= k < a.num_drives()
                ==> (#[trigger] a.drive_at(k)).failed_spec() == b.drive_at(k).failed_spec()
                    && a.drive_at(k).formatted_spec() == b.drive_at(k).formatted_spec(),
        ensures
            a.count_failed_upto(n) == b.count_failed_upto(n),
            a.count_unformatted_upto(n) == b.count_unformatted_upto(n),
        decreases n,
    {
        if n > 0 {
            Self::lemma_count_same_flags(a, b, n - 1);
        }
    }

    /// An incremental write preserves the invariant: when the shadow of the
    /// addressed data drive, of the P drive and (in RAID-6) of the Q drive
    /// absorb one byte's difference d (weighted by g^x for Q), and every alive
    /// one of those three drives physically absorbs the same difference, the
    /// parity equations and the availability sync carry over.
    proof fn lemma_write_inv(pre: RaidSim, post: RaidSim, x: int, o: int, d: u8)
        requires
            pre.inv(),
            0 <= x < pre.data_count(),
            0 <= o < pre.drive_size_spec(),
            post.num_drives() == pre.num_drives(),
            post.mode_spec() == pre.mode_spec(),
            post.drive_size_spec() == pre.drive_size_spec(),
            post.shadow_len() == pre.shadow_len(),
            post.shadow_at(P_INDEX as int) == pre.shadow_at(P_INDEX as int).update(
                o,
                pre.shadow_at(P_INDEX as int)[o] ^ d,
            ),
            post.shadow_data(x) == pre.shadow_data(x).update(o, pre.shadow_data(x)[o] ^ d),
            pre.mode_spec() == RaidMode::Raid6 ==> post.shadow_at(Q_INDEX as int)
                == pre.shadow_at(Q_INDEX as int).update(
                o,
                pre.shadow_at(Q_INDEX as int)[o] ^ powstep(x as nat, d),
            ),
            forall|k: int| 0 <= k < pre.num_drives() && k != P_INDEX
                && k != pre.parity_count() + x && !(pre.mode_spec() == RaidMode::Raid6
                && k == Q_INDEX) ==> #[trigger] post.shadow_at(k) == pre.shadow_at(k),
            forall|k: int| 0 <= k < pre.num_drives() && k != P_INDEX
                && k != pre.parity_count() + x && !(pre.mode_spec() == RaidMode::Raid6
                && k == Q_INDEX) ==> #[trigger] post.drive_at(k) == pre.drive_at(k),
            forall|k: int| 0 <= k < pre.num_drives()
                ==> (#[trigger] post.drive_at(k)).failed_spec() == pre.drive_at(k).failed_spec()
                    && post.drive_at(k).formatted_spec() == pre.drive_at(k).formatted_spec(),
            pre.drive_at(P_INDEX as int).failed_spec() ==> post.drive_at(P_INDEX as int)
                == pre.drive_at(P_INDEX as int),
            !pre.drive_at(P_INDEX as int).failed_spec() ==> post.drive_at(P_INDEX as int)@
                == pre.drive_at(P_INDEX as int)@.update(
                o,
                pre.drive_at(P_INDEX as int)@[o] ^ d,
            ),
            pre.data_drive_at(x).failed_spec() ==> post.drive_at(pre.parity_count() + x)
                == pre.data_drive_at(x),
            !pre.data_drive_at(x).failed_spec() ==> post.drive_at(pre.parity_count() + x)@
                == pre.data_drive_at(x)@.update(o, pre.data_drive_at(x)@[o] ^ d),
            pre.mode_spec() == RaidMode::Raid6 && pre.drive_at(Q_INDEX as int).failed_spec()
                ==> post.drive_at(Q_INDEX as int) == pre.drive_at(Q_INDEX as int),
            pre.mode_spec() == RaidMode::Raid6 && !pre.drive_at(Q_INDEX as int).failed_spec()
                ==> post.drive_at(Q_INDEX as int)@ == pre.drive_at(Q_INDEX as int)@.update(
                o,
                pre.drive_at(Q_INDEX as int)@[o] ^ powstep(x as nat, d),
            ),
        ensures
            post.inv(),
            post.state_spec() == pre.state_spec(),
    {
        broadcast use group_xor_facts;

        let sx = pre.shadow_data(x)[o];
        assert forall|i: int| 0 <= i < post.drive_size_spec() && i != o
            implies #[trigger] post.shadow_stripe(i) == pre.shadow_stripe(i) by {
            assert(post.shadow_stripe(i) =~= pre.shadow_stripe(i));
        }
        assert(post.shadow_stripe(o) =~= pre.shadow_stripe(o).update(x, sx ^ d));
        lemma_xor_fold_update(pre.shadow_stripe(o), x, sx ^ d);
        assert(post.shadow_at(P_INDEX as int)[o] == xor_fold(post.shadow_stripe(o)));
        if pre.mode_spec() == RaidMode::Raid6 {
            lemma_qxor_fold_update(pre.shadow_stripe(o), x, sx ^ d);
            lemma_powstep_xor(x as nat, sx, sx ^ d);
            lemma_powstep_xor(x as nat, sx, d);
            assert(post.shadow_at(Q_INDEX as int)[o] == qxor_fold(post.shadow_stripe(o)));
        }
        assert forall|k: int| 0 <= k < post.num_drives() && #[trigger] post.available(k)
            implies post.drive_at(k)@ == post.shadow_at(k) by {
            assert(pre.available(k));
        }
        Self::lemma_count_same_flags(pre, post, pre.num_drives());
    }


    /// The mutation core of a write: stores the byte on the addressed data
    /// drive if it is alive, folds the byte difference into each alive parity
    /// drive, and lets the recoverable contents absorb the same difference.
    fn write_core(&mut self, drive_index: usize, drive_offset: usize, old_data: u8, data: u8)
        requires
            old(self).inv(),
            drive_index < old(self).data_count(),
            drive_offset < old(self).drive_size_spec(),
            !old(self).data_drive_at(drive_index as int).failed_spec()
                ==> old_data == old(self).data_drive_at(drive_index as int)@[
                drive_offset as int],
        ensures
            final(self).inv(),
            final(self).num_drives() == old(self).num_drives(),
            final(self).mode_spec() == old(self).mode_spec(),
            final(self).drive_size_spec() == old(self).drive_size_spec(),
            final(self).state_spec() == old(self).state_spec(),
            forall|k: int| 0 <= k < old(self).num_drives()
                ==> (#[trigger] final(self).drive_at(k)).failed_spec()
                        == old(self).drive_at(k).failed_spec()
                    && final(self).drive_at(k).formatted_spec()
                        == old(self).drive_at(k).formatted_spec(),
            forall|k: int| 0 <= k < old(self).data_count() && k != drive_index
                ==> #[trigger] final(self).shadow_data(k) == old(self).shadow_data(k),
            final(self).shadow_data(drive_index as int)
                == old(self).shadow_data(drive_index as int).update(
                drive_offset as int,
                old(self).shadow_data(drive_index as int)[drive_offset as int] ^ (old_data
                    ^ data),
            ),
            !old(self).data_drive_at(drive_index as int).failed_spec()
                ==> final(self).data_drive_at(drive_index as int)@
                    == old(self).data_drive_at(drive_index as int)@.update(
                    drive_offset as int, data),
    {
        let start: usize = match self.mode {
            RaidMode::Raid5 => 1,
            RaidMode::Raid6 => 2,
        };
        proof {
            assert(self.drive_at(start + drive_index as int)@.len() == self.drive_size_spec());
            assert(self.drive_at(P_INDEX as int)@.len() == self.drive_size_spec());
            assert(self.drive_at(Q_INDEX as int)@.len() == self.drive_size_spec());
        }
        let ghost x = drive_index as int;
        let ghost o = drive_offset as int;
        let ghost ax = start + x;
        let ghost pre = *self;
        let delta = old_data ^ data;
        if !self.drives[start + drive_index].has_failed() {
            self.drives[start + drive_index].write(drive_offset, data).unwrap();
            proof {
                broadcast use group_xor_facts;

                assert(self.drive_at(ax)@ == pre.drive_at(ax)@.update(
                    o,
                    pre.drive_at(ax)@[o] ^ delta,
                )) by {
                    assert(pre.drive_at(ax)@[o] ^ (old_data ^ data) == data);
                    assert(pre.drive_at(ax)@.update(o, data) =~= pre.drive_at(ax)@.update(
                        o,
                        pre.drive_at(ax)@[o] ^ delta,
                    ));
                }
            }
        }
        proof {
            assert forall|k: int| 0 <= k < pre.num_drives() && k != ax
                implies #[trigger] self.drive_at(k) == pre.drive_at(k) by {}
        }
        let ghost mid1 = *self;
        if !self.drives[P_INDEX].has_failed() {
            let pb = self.drives[P_INDEX].read(drive_offset).unwrap();
            self.drives[P_INDEX].write(drive_offset, pb ^ old_data ^ data).unwrap();
            proof {
                broadcast use group_xor_facts;
            }
        }
        proof {
            assert forall|k: int| 0 <= k < pre.num_drives() && k != P_INDEX
                implies #[trigger] self.drive_at(k) == mid1.drive_at(k) by {}
        }
        let ghost mid2 = *self;
        let raid6 = match self.mode {
            RaidMode::Raid5 => false,
            RaidMode::Raid6 => true,
        };
        if raid6 && !self.drives[Q_INDEX].has_failed() {
            let qb = self.drives[Q_INDEX].read(drive_offset).unwrap();
            let weighted = Gen::from_power(drive_index).mul_byte(old_data ^ data).value();
            self.drives[Q_INDEX].write(drive_offset, qb ^ weighted).unwrap();
            proof {
                lemma_gfmul_powstep(x, delta);
            }
        }
        proof {
            assert forall|k: int| 0 <= k < pre.num_drives() && k != Q_INDEX
                implies #[trigger] self.drive_at(k) == mid2.drive_at(k) by {}
        }
        let ghost base = pre.shadow@;
        let ghost s_p = base[P_INDEX as int].update(o, base[P_INDEX as int][o] ^ delta);
        let ghost s_x = base[ax].update(o, base[ax][o] ^ delta);
        let ghost s_q = base[Q_INDEX as int].update(
            o,
            base[Q_INDEX as int][o] ^ powstep(x as nat, delta),
        );
        let ghost pre_shadow = *self;
        if raid6 {
            self.shadow = Ghost(
                base.update(P_INDEX as int, s_p).update(Q_INDEX as int, s_q).update(ax, s_x),
            );
        } else {
            self.shadow = Ghost(base.update(P_INDEX as int, s_p).update(ax, s_x));
        }
        proof {
            assert forall|k: int| 0 <= k < pre.num_drives()
                implies #[trigger] self.drive_at(k) == pre_shadow.drive_at(k) by {}
            Self::lemma_write_inv(pre, *self, x, o, delta);
        }
    }

    /// Writes a byte at a specific offset in the array. The addressed data
    /// drive takes the byte if it is alive, and each alive parity drive
    /// absorbs the difference between the old byte and the new one (weighted
    /// by g^x for Q), so that the parity equations keep holding on the
    /// recoverable contents -- also for a write through a failed drive.
    pub fn write(&mut self, offset: usize, data: u8) -> (r: Result<(), RaidError>)
        requires
            old(self).inv(),
        ensures
            final(self).inv(),
            final(self).num_drives() == old(self).num_drives(),
            final(self).mode_spec() == old(self).mode_spec(),
            final(self).drive_size_spec() == old(self).drive_size_spec(),
            offset >= old(self).size_spec() ==> r == Result::<(), RaidError>::Err(
                RaidError::OffsetTooLarge(offset),
            ) && *final(self) == *old(self),
            offset < old(self).size_spec() && old(self).state_spec() == RaidState::Failed
                ==> r == Result::<(), RaidError>::Err(RaidError::Failed)
                    && *final(self) == *old(self),
            offset < old(self).size_spec() && (old(self).state_spec() == RaidState::Okay
                || old(self).state_spec() == RaidState::Degraded) ==> r == Result::<
                (),
                RaidError,
            >::Ok(()),
            !(r == Result::<(), RaidError>::Ok(())) ==> *final(self) == *old(self),
            r == Result::<(), RaidError>::Ok(()) ==> {
                let x = old(self).addr_drive(offset as int);
                let o = old(self).addr_off(offset as int);
                &&& (forall|k: int| 0 <= k < old(self).num_drives()
                    ==> (#[trigger] final(self).drive_at(k)).failed_spec()
                            == old(self).drive_at(k).failed_spec()
                        && final(self).drive_at(k).formatted_spec()
                            == old(self).drive_at(k).formatted_spec())
                &&& final(self).state_spec() == old(self).state_spec()
                &&& (forall|k: int| 0 <= k < old(self).data_count() && k != x
                    ==> #[trigger] final(self).shadow_data(k) == old(self).shadow_data(k))
                &&& (forall|i: int| 0 <= i < old(self).drive_size_spec() && i != o
                    ==> final(self).shadow_data(x)[i] == old(self).shadow_data(x)[i])
                &&& ((!old(self).data_drive_at(x).failed_spec()
                    && old(self).data_drive_at(x).formatted_spec())
                    ==> final(self).shadow_data(x) == old(self).shadow_data(x).update(o, data)
                        && final(self).data_drive_at(x)@ == old(self).data_drive_at(x)@.update(
                        o,
                        data,
                    ))
                &&& ((old(self).data_drive_at(x).failed_spec() && old(self).count_unformatted()
                    == 0) ==> final(self).shadow_data(x) == old(self).shadow_data(x).update(
                    o,
                    data,
                ))
            },
    {
        if offset >= self.size() {
            return Err(RaidError::OffsetTooLarge(offset));
        }
        if self.state() == RaidState::Failed {
            return Err(RaidError::Failed);
        }
        let old_data = match self.read(offset) {
            Ok(v) => v,
            Err(e) => {
                return Err(e);
            },
        };
        let drive_offset = offset % self.drive_size;
        let drive_index = offset / self.drive_size;
        proof {
            let dc = self.data_count();
            let s = self.drive_size_spec();
            let off = offset as int;
            assert(off / s < dc && off % s < s) by (nonlinear_arith)
                requires
                    off < dc * s,
                    s >= 1,
            ;
        }
        let ghost x = drive_index as int;
        let ghost o = drive_offset as int;
        let ghost pre = *self;
        self.write_core(drive_index, drive_offset, old_data, data);
        proof {
            broadcast use group_xor_facts;

            if !pre.data_drive_at(x).failed_spec() && pre.data_drive_at(x).formatted_spec() {
                assert(pre.available(pre.parity_count() + x));
                assert(old_data == pre.shadow_data(x)[o]);
                assert(self.shadow_data(x) =~= pre.shadow_data(x).update(o, data));
            }
            if pre.data_drive_at(x).failed_spec() && pre.count_unformatted() == 0 {
                assert(old_data == pre.shadow_data(x)[o]);
                assert(self.shadow_data(x) =~= pre.shadow_data(x).update(o, data));
            }
        }
        Ok(())
    }

    /// Q-parity recovery of a single data drive, as a byte: the masked Q fold
    /// against the Q shadow, divided by g^x, is the missing drive's byte.
    proof fn lemma_q_recover(self, o: int, x: int)
        requires
            self.inv(),
            self.mode_spec() == RaidMode::Raid6,
            0 <= o < self.drive_size_spec(),
            0 <= x < self.data_count(),
            forall|k: int| 0 <= k < self.data_count() && k != x
                ==> (#[trigger] self.data_drive_at(k))@ == self.shadow_data(k),
        ensures
            gfdiv(
                qxor_fold(mask_seq(self.data_stripe(o), seq![x as usize]))
                    ^ self.shadow_at(Q_INDEX as int)[o],
                gpow(x as nat),
            ) == self.shadow_data(x)[o],
    {
        broadcast use group_xor_facts;

        self.lemma_q_reconstruct(o, x);
        let sx = self.shadow_data(x)[o];
        lemma_gfmul_powstep(x, sx);
        lemma_gpow_nonzero(x as nat);
        lemma_gfdiv_mul(sx, gpow(x as nat));
        lemma_gfmul_comm(gpow(x as nat), sx);
    }

    /// Two-erasure recovery, as bytes: with every other data drive matching
    /// its shadow and both parity shadows given, the coefficient combination
    /// of the two parity differences is the first missing drive's byte.
    proof fn lemma_two_recover(
        self, o: int, x: int, y: int, e: int, ex: int, den: u8, av: u8, bv: u8,
    )
        requires
            self.inv(),
            self.mode_spec() == RaidMode::Raid6,
            0 <= o < self.drive_size_spec(),
            0 <= x < self.data_count(),
            0 <= y < self.data_count(),
            x != y,
            forall|k: int| 0 <= k < self.data_count() && k != x && k != y
                ==> (#[trigger] self.data_drive_at(k))@ == self.shadow_data(k),
            e == (if y >= x { y - x } else { 255 + y - x }),
            ex == (if x == 0 { 0int } else { 255 - x }),
            den == (gpow(e as nat) ^ 1),
            den != 0,
            av == gfdiv(gpow(e as nat), den),
            bv == gfdiv(gpow(ex as nat), den),
        ensures
            gfmul(
                av,
                self.shadow_at(P_INDEX as int)[o] ^ xor_fold(
                    mask_seq(self.data_stripe(o), seq![x as usize, y as usize]),
                ),
            ) ^ gfmul(
                bv,
                self.shadow_at(Q_INDEX as int)[o] ^ qxor_fold(
                    mask_seq(self.data_stripe(o), seq![x as usize, y as usize]),
                ),
            ) == self.shadow_data(x)[o],
    {
        broadcast use group_xor_facts;

        self.lemma_pq_two_masked(o, x, y);
        Self::lemma_two_erasure(
            x, y, e, ex, self.shadow_data(x)[o], self.shadow_data(y)[o], den, av, bv,
        );
    }

    /// Recomputes the P-parity drive from the data drives and formats it.
    fn repair_p_parity(&mut self) -> (r: Result<(), RaidError>)
        requires
            old(self).inv(),
            !old(self).drive_at(P_INDEX as int).failed_spec(),
            !old(self).drive_at(P_INDEX as int).formatted_spec(),
            forall|k: int| 0 <= k < old(self).data_count()
                ==> !(#[trigger] old(self).data_drive_at(k)).failed_spec()
                    && old(self).data_drive_at(k)@ == old(self).shadow_data(k),
        ensures
            final(self).inv(),
            r == Result::<(), RaidError>::Ok(()),
            final(self).num_drives() == old(self).num_drives(),
            final(self).mode_spec() == old(self).mode_spec(),
            final(self).drive_size_spec() == old(self).drive_size_spec(),
            forall|k: int| 0 <= k < old(self).num_drives()
                ==> #[trigger] final(self).shadow_at(k) == old(self).shadow_at(k),
            forall|k: int| 0 <= k < old(self).num_drives() && k != P_INDEX
                ==> #[trigger] final(self).drive_at(k) == old(self).drive_at(k),
            final(self).drive_at(P_INDEX as int)@ == old(self).shadow_at(P_INDEX as int),
            final(self).drive_at(P_INDEX as int).formatted_spec(),
            !final(self).drive_at(P_INDEX as int).failed_spec(),
    {
        let n = self.drive_size;
        let mut i: usize = 0;
        while i < n
            invariant
                i <= n,
                n == self.drive_size_spec(),
                self.inv(),
                self.num_drives() == old(self).num_drives(),
                self.mode_spec() == old(self).mode_spec(),
                self.drive_size_spec() == old(self).drive_size_spec(),
                forall|k: int| 0 <= k < self.num_drives()
                    ==> #[trigger] self.shadow_at(k) == old(self).shadow_at(k),
                forall|k: int| 0 <= k < self.num_drives() && k != P_INDEX
                    ==> #[trigger] self.drive_at(k) == old(self).drive_at(k),
                !self.drive_at(P_INDEX as int).failed_spec(),
                !self.drive_at(P_INDEX as int).formatted_spec(),
                self.drive_at(P_INDEX as int)@.len() == n,
                forall|m: int| 0 <= m < i
                    ==> self.drive_at(P_INDEX as int)@[m] == self.shadow_at(P_INDEX as int)[m],
                forall|k: int| 0 <= k < self.data_count()
                    ==> !(#[trigger] self.data_drive_at(k)).failed_spec()
                        && self.data_drive_at(k)@ == self.shadow_data(k),
            decreases n - i,
        {
            let ig: Vec<usize> = Vec::new();
            let byte = self.p_parity_offset_ignore(i, ig).unwrap();
            proof {
                assert(mask_seq(self.data_stripe(i as int), Seq::<usize>::empty())
                    =~= self.data_stripe(i as int));
                assert(self.data_stripe(i as int) =~= self.shadow_stripe(i as int));
            }
            let ghost prev = *self;
            self.drives[P_INDEX].write(i, byte).unwrap();
            proof {
                assert forall|k: int| 0 <= k < prev.num_drives() && k != P_INDEX
                    implies #[trigger] self.drive_at(k) == prev.drive_at(k) by {}
                assert forall|k: int| 0 <= k < prev.num_drives()
                    implies #[trigger] self.shadow_at(k) == prev.shadow_at(k) by {}
                assert forall|k: int| 0 <= k < self.data_count()
                    implies #[trigger] self.data_drive_at(k) == prev.data_drive_at(k) by {
                    assert(self.drive_at(self.parity_count() + k)
                        == prev.drive_at(prev.parity_count() + k));
                }
                Self::lemma_inv_one_drive_changed(prev, *self, P_INDEX as int);
            }
            i = i + 1;
        }
        let ghost prev = *self;
        self.drives[P_INDEX].format();
        proof {
            assert forall|k: int| 0 <= k < prev.num_drives() && k != P_INDEX
                implies #[trigger] self.drive_at(k) == prev.drive_at(k) by {}
            assert forall|k: int| 0 <= k < prev.num_drives()
                implies #[trigger] self.shadow_at(k) == prev.shadow_at(k) by {}
            assert forall|k: int| 0 <= k < self.data_count()
                implies #[trigger] self.data_drive_at(k) == prev.data_drive_at(k) by {
                assert(self.drive_at(self.parity_count() + k)
                    == prev.drive_at(prev.parity_count() + k));
            }
            assert(self.drive_at(P_INDEX as int)@ =~= self.shadow_at(P_INDEX as int));
            Self::lemma_inv_one_drive_changed(prev, *self, P_INDEX as int);
        }
        Ok(())
    }

    /// Recomputes the Q-parity drive from the data drives and formats it.
    fn repair_q_parity(&mut self) -> (r: Result<(), RaidError>)
        requires
            old(self).inv(),
            old(self).mode_spec() == RaidMode::Raid6,
            !old(self).drive_at(Q_INDEX as int).failed_spec(),
            !old(self).drive_at(Q_INDEX as int).formatted_spec(),
            forall|k: int| 0 <= k < old(self).data_count()
                ==> !(#[trigger] old(self).data_drive_at(k)).failed_spec()
                    && old(self).data_drive_at(k)@ == old(self).shadow_data(k),
        ensures
            final(self).inv(),
            r == Result::<(), RaidError>::Ok(()),
            final(self).num_drives() == old(self).num_drives(),
            final(self).mode_spec() == old(self).mode_spec(),
            final(self).drive_size_spec() == old(self).drive_size_spec(),
            forall|k: int| 0 <= k < old(self).num_drives()
                ==> #[trigger] final(self).shadow_at(k) == old(self).shadow_at(k),
            forall|k: int| 0 <= k < old(self).num_drives() && k != Q_INDEX
                ==> #[trigger] final(self).drive_at(k) == old(self).drive_at(k),
            final(self).drive_at(Q_INDEX as int)@ == old(self).shadow_at(Q_INDEX as int),
            final(self).drive_at(Q_INDEX as int).formatted_spec(),
            !final(self).drive_at(Q_INDEX as int).failed_spec(),
    {
        let n = self.drive_size;
        let mut i: usize = 0;
        while i < n
            invariant
                i <= n,
                n == self.drive_size_spec(),
                self.inv(),
                self.mode_spec() == RaidMode::Raid6,
                self.num_drives() == old(self).num_drives(),
                self.mode_spec() == old(self).mode_spec(),
                self.drive_size_spec() == old(self).drive_size_spec(),
                forall|k: int| 0 <= k < self.num_drives()
                    ==> #[trigger] self.shadow_at(k) == old(self).shadow_at(k),
                forall|k: int| 0 <= k < self.num_drives() && k != Q_INDEX
                    ==> #[trigger] self.drive_at(k) == old(self).drive_at(k),
                !self.drive_at(Q_INDEX as int).failed_spec(),
                !self.drive_at(Q_INDEX as int).formatted_spec(),
                self.drive_at(Q_INDEX as int)@.len() == n,
                forall|m: int| 0 <= m < i
                    ==> self.drive_at(Q_INDEX as int)@[m] == self.shadow_at(Q_INDEX as int)[m],
                forall|k: int| 0 <= k < self.data_count()
                    ==> !(#[trigger] self.data_drive_at(k)).failed_spec()
                        && self.data_drive_at(k)@ == self.shadow_data(k),
            decreases n - i,
        {
            let ig: Vec<usize> = Vec::new();
            let byte = self.q_parity_offset_ignore(i, ig).unwrap();
            proof {
                assert(mask_seq(self.data_stripe(i as int), Seq::<usize>::empty())
                    =~= self.data_stripe(i as int));
                assert(self.data_stripe(i as int) =~= self.shadow_stripe(i as int));
            }
            let ghost prev = *self;
            self.drives[Q_INDEX].write(i, byte).unwrap();
            proof {
                assert forall|k: int| 0 <= k < prev.num_drives() && k != Q_INDEX
                    implies #[trigger] self.drive_at(k) == prev.drive_at(k) by {}
                assert forall|k: int| 0 <= k < prev.num_drives()
                    implies #[trigger] self.shadow_at(k) == prev.shadow_at(k) by {}
                assert forall|k: int| 0 <= k < self.data_count()
                    implies #[trigger] self.data_drive_at(k) == prev.data_drive_at(k) by {
                    assert(self.drive_at(self.parity_count() + k)
                        == prev.drive_at(prev.parity_count() + k));
                }
                Self::lemma_inv_one_drive_changed(prev, *self, Q_INDEX as int);
            }
            i = i + 1;
        }
        let ghost prev = *self;
        self.drives[Q_INDEX].format();
        proof {
            assert forall|k: int| 0 <= k < prev.num_drives() && k != Q_INDEX
                implies #[trigger] self.drive_at(k) == prev.drive_at(k) by {}
            assert forall|k: int| 0 <= k < prev.num_drives()
                implies #[trigger] self.shadow_at(k) == prev.shadow_at(k) by {}
            assert forall|k: int| 0 <= k < self.data_count()
                implies #[trigger] self.data_drive_at(k) == prev.data_drive_at(k) by {
                assert(self.drive_at(self.parity_count() + k)
                    == prev.drive_at(prev.parity_count() + k));
            }
            assert(self.drive_at(Q_INDEX as int)@ =~= self.shadow_at(Q_INDEX as int));
            Self::lemma_inv_one_drive_changed(prev, *self, Q_INDEX as int);
        }
        Ok(())
    }

    /// Recovers one data drive from P-parity and formats it.
    fn repair_single_data_p_parity(&mut self, idx: usize) -> (r: Result<(), RaidError>)
        requires
            old(self).inv(),
            idx < old(self).data_count(),
            !old(self).data_drive_at(idx as int).failed_spec(),
            !old(self).data_drive_at(idx as int).formatted_spec(),
            !old(self).drive_at(P_INDEX as int).failed_spec(),
            old(self).drive_at(P_INDEX as int).formatted_spec(),
            forall|k: int| 0 <= k < old(self).data_count() && k != idx
                ==> !(#[trigger] old(self).data_drive_at(k)).failed_spec()
                    && old(self).data_drive_at(k)@ == old(self).shadow_data(k),
        ensures
            final(self).inv(),
            r == Result::<(), RaidError>::Ok(()),
            final(self).num_drives() == old(self).num_drives(),
            final(self).mode_spec() == old(self).mode_spec(),
            final(self).drive_size_spec() == old(self).drive_size_spec(),
            forall|k: int| 0 <= k < old(self).num_drives()
                ==> #[trigger] final(self).shadow_at(k) == old(self).shadow_at(k),
            forall|k: int| 0 <= k < old(self).num_drives() && k != old(self).parity_count() + idx
                ==> #[trigger] final(self).drive_at(k) == old(self).drive_at(k),
            final(self).data_drive_at(idx as int)@ == old(self).shadow_data(idx as int),
            final(self).data_drive_at(idx as int).formatted_spec(),
            !final(self).data_drive_at(idx as int).failed_spec(),
    {
        let start: usize = match self.mode {
            RaidMode::Raid5 => 1,
            RaidMode::Raid6 => 2,
        };
        let ghost ax = start + idx as int;
        let n = self.drive_size;
        let mut i: usize = 0;
        while i < n
            invariant
                i <= n,
                n == self.drive_size_spec(),
                self.inv(),
                start == self.parity_count(),
                idx < self.data_count(),
                ax == start + idx,
                self.num_drives() == old(self).num_drives(),
                self.mode_spec() == old(self).mode_spec(),
                self.drive_size_spec() == old(self).drive_size_spec(),
                forall|k: int| 0 <= k < self.num_drives()
                    ==> #[trigger] self.shadow_at(k) == old(self).shadow_at(k),
                forall|k: int| 0 <= k < self.num_drives() && k != ax
                    ==> #[trigger] self.drive_at(k) == old(self).drive_at(k),
                !self.data_drive_at(idx as int).failed_spec(),
                !self.data_drive_at(idx as int).formatted_spec(),
                !self.drive_at(P_INDEX as int).failed_spec(),
                self.drive_at(P_INDEX as int).formatted_spec(),
                self.data_drive_at(idx as int)@.len() == n,
                forall|m: int| 0 <= m < i
                    ==> self.data_drive_at(idx as int)@[m] == self.shadow_data(idx as int)[m],
                forall|k: int| 0 <= k < self.data_count() && k != idx
                    ==> !(#[trigger] self.data_drive_at(k)).failed_spec()
                        && self.data_drive_at(k)@ == self.shadow_data(k),
            decreases n - i,
        {
            let mut ig: Vec<usize> = Vec::new();
            ig.push(idx);
            let ghost igs = ig@;
            proof {
                assert(igs[0] == idx);
                assert(igs =~= seq![idx]);
            }
            let fold = self.p_parity_offset_ignore(i, ig).unwrap();
            let p = self.drives[P_INDEX].read(i).unwrap();
            let byte = fold ^ p;
            proof {
                broadcast use group_xor_facts;

                assert(self.available(P_INDEX as int));
                self.lemma_p_reconstruct(i as int, idx as int);
                assert(byte == self.shadow_data(idx as int)[i as int]);
            }
            let ghost prev = *self;
            self.drives[start + idx].write(i, byte).unwrap();
            proof {
                assert forall|k: int| 0 <= k < prev.num_drives() && k != ax
                    implies #[trigger] self.drive_at(k) == prev.drive_at(k) by {}
                assert forall|k: int| 0 <= k < prev.num_drives()
                    implies #[trigger] self.shadow_at(k) == prev.shadow_at(k) by {}
                assert forall|k: int| 0 <= k < self.data_count() && k != idx
                    implies #[trigger] self.data_drive_at(k) == prev.data_drive_at(k) by {
                    assert(self.drive_at(self.parity_count() + k)
                        == prev.drive_at(prev.parity_count() + k));
                }
                Self::lemma_inv_one_drive_changed(prev, *self, ax);
            }
            i = i + 1;
        }
        let ghost prev = *self;
        self.drives[start + idx].format();
        proof {
            assert forall|k: int| 0 <= k < prev.num_drives() && k != ax
                implies #[trigger] self.drive_at(k) == prev.drive_at(k) by {}
            assert forall|k: int| 0 <= k < prev.num_drives()
                implies #[trigger] self.shadow_at(k) == prev.shadow_at(k) by {}
            assert(self.data_drive_at(idx as int)@ == prev.data_drive_at(idx as int)@);
            assert(self.shadow_data(idx as int) == prev.shadow_data(idx as int));
            assert(prev.shadow_data(idx as int).len() == n);
            assert(self.data_drive_at(idx as int)@ =~= self.shadow_data(idx as int));
            Self::lemma_inv_one_drive_changed(prev, *self, ax);
        }
        Ok(())
    }

    /// Recovers one data drive from Q-parity (divides the Q difference by the
    /// drive's generator power) and formats it.
    fn repair_single_data_q_parity(&mut self, idx: usize) -> (r: Result<(), RaidError>)
        requires
            old(self).inv(),
            old(self).mode_spec() == RaidMode::Raid6,
            idx < old(self).data_count(),
            !old(self).data_drive_at(idx as int).failed_spec(),
            !old(self).data_drive_at(idx as int).formatted_spec(),
            !old(self).drive_at(Q_INDEX as int).failed_spec(),
            old(self).drive_at(Q_INDEX as int).formatted_spec(),
            forall|k: int| 0 <= k < old(self).data_count() && k != idx
                ==> !(#[trigger] old(self).data_drive_at(k)).failed_spec()
                    && old(self).data_drive_at(k)@ == old(self).shadow_data(k),
        ensures
            final(self).inv(),
            r == Result::<(), RaidError>::Ok(()),
            final(self).num_drives() == old(self).num_drives(),
            final(self).mode_spec() == old(self).mode_spec(),
            final(self).drive_size_spec() == old(self).drive_size_spec(),
            forall|k: int| 0 <= k < old(self).num_drives()
                ==> #[trigger] final(self).shadow_at(k) == old(self).shadow_at(k),
            forall|k: int| 0 <= k < old(self).num_drives() && k != old(self).parity_count() + idx
                ==> #[trigger] final(self).drive_at(k) == old(self).drive_at(k),
            final(self).data_drive_at(idx as int)@ == old(self).shadow_data(idx as int),
            final(self).data_drive_at(idx as int).formatted_spec(),
            !final(self).data_drive_at(idx as int).failed_spec(),
    {
        let start: usize = 2;
        let ghost ax = start + idx as int;
        let n = self.drive_size;
        let mut i: usize = 0;
        while i < n
            invariant
                i <= n,
                n == self.drive_size_spec(),
                self.inv(),
                self.mode_spec() == RaidMode::Raid6,
                start == self.parity_count(),
                idx < self.data_count(),
                ax == start + idx,
                self.num_drives() == old(self).num_drives(),
                self.mode_spec() == old(self).mode_spec(),
                self.drive_size_spec() == old(self).drive_size_spec(),
                forall|k: int| 0 <= k < self.num_drives()
                    ==> #[trigger] self.shadow_at(k) == old(self).shadow_at(k),
                forall|k: int| 0 <= k < self.num_drives() && k != ax
                    ==> #[trigger] self.drive_at(k) == old(self).drive_at(k),
                !self.data_drive_at(idx as int).failed_spec(),
                !self.data_drive_at(idx as int).formatted_spec(),
                !self.drive_at(Q_INDEX as int).failed_spec(),
                self.drive_at(Q_INDEX as int).formatted_spec(),
                self.data_drive_at(idx as int)@.len() == n,
                forall|m: int| 0 <= m < i
                    ==> self.data_drive_at(idx as int)@[m] == self.shadow_data(idx as int)[m],
                forall|k: int| 0 <= k < self.data_count() && k != idx
                    ==> !(#[trigger] self.data_drive_at(k)).failed_spec()
                        && self.data_drive_at(k)@ == self.shadow_data(k),
            decreases n - i,
        {
            let mut ig: Vec<usize> = Vec::new();
            ig.push(idx);
            let ghost igs = ig@;
            proof {
                assert(igs[0] == idx);
                assert(igs =~= seq![idx]);
            }
            let fold = self.q_parity_offset_ignore(i, ig).unwrap();
            let q = self.drives[Q_INDEX].read(i).unwrap();
            let diff = fold ^ q;
            let res = Gen::from(diff).div(Gen::from_power(idx));
            let byte = res.value();
            proof {
                broadcast use group_xor_facts;

                lemma_from_byte(diff);
                assert(self.available(Q_INDEX as int));
                self.lemma_q_recover(i as int, idx as int);
                assert(byte == self.shadow_data(idx as int)[i as int]);
            }
            let ghost prev = *self;
            self.drives[start + idx].write(i, byte).unwrap();
            proof {
                assert forall|k: int| 0 <= k < prev.num_drives() && k != ax
                    implies #[trigger] self.drive_at(k) == prev.drive_at(k) by {}
                assert forall|k: int| 0 <= k < prev.num_drives()
                    implies #[trigger] self.shadow_at(k) == prev.shadow_at(k) by {}
                assert forall|k: int| 0 <= k < self.data_count() && k != idx
                    implies #[trigger] self.data_drive_at(k) == prev.data_drive_at(k) by {
                    assert(self.drive_at(self.parity_count() + k)
                        == prev.drive_at(prev.parity_count() + k));
                }
                Self::lemma_inv_one_drive_changed(prev, *self, ax);
            }
            i = i + 1;
        }
        let ghost prev = *self;
        self.drives[start + idx].format();
        proof {
            assert forall|k: int| 0 <= k < prev.num_drives() && k != ax
                implies #[trigger] self.drive_at(k) == prev.drive_at(k) by {}
            assert forall|k: int| 0 <= k < prev.num_drives()
                implies #[trigger] self.shadow_at(k) == prev.shadow_at(k) by {}
            assert(self.data_drive_at(idx as int)@ == prev.data_drive_at(idx as int)@);
            assert(self.shadow_data(idx as int) == prev.shadow_data(idx as int));
            assert(prev.shadow_data(idx as int).len() == n);
            assert(self.data_drive_at(idx as int)@ =~= self.shadow_data(idx as int));
            Self::lemma_inv_one_drive_changed(prev, *self, ax);
        }
        Ok(())
    }

}

/// Whether a vector of indices contains the given index.
fn contains_idx(v: &Vec<usize>, x: usize) -> (r: bool)
    ensures
        r == v@.contains(x),
{
    let mut i: usize = 0;
    while i < v.len()
        invariant
            i <= v@.len(),
            forall|j: int| 0 <= j < i ==> v@[j] != x,
        decreases v@.len() - i,
    {
        if v[i] == x {
            return true;
        }
        i = i + 1;
    }
    false
}

} // verus!
