//! The memory protection unit: the table of its regions and the values
//! that its registers get.

use vstd::prelude::*;

verus! {

/// Number of regions that the unit has.
pub const REGION_COUNT: u8 = 8;

/// Address of the unit's control register.
pub const MPU_CTRL_ADDR: u32 = 0xE000_ED94;

/// Address of the unit's region number register.
pub const MPU_RNR_ADDR: u32 = 0xE000_ED98;

/// Address of the unit's region base address register.
pub const MPU_RBAR_ADDR: u32 = 0xE000_ED9C;

/// Address of the unit's region attribute and size register.
pub const MPU_RASR_ADDR: u32 = 0xE000_EDA0;

/// The enable bit of a region.
pub const MPU_REGION_ENABLE: u32 = 1;

/// The control value that switches the unit on, also during fault
/// handlers, with the default memory map for privileged code.
pub const MPU_CTRL_ON: u32 = 0b111;

/// The control value that switches the unit off.
pub const MPU_CTRL_OFF: u32 = 0;

/// Permission: no access.
pub const NO_ACCESS: u32 = 0x0000_0000;

/// Permission: privileged code reads and writes.
pub const PRIVILEGED_RW: u32 = 0x0100_0000;

/// Permission: privileged code reads and writes, other code reads.
pub const PRIVILEGED_RW_UNPRIVILEGED_RO: u32 = 0x0200_0000;

/// Permission: all code reads and writes.
pub const FULL_ACCESS: u32 = 0x0300_0000;

/// Memory type: strongly ordered.
pub const TYPE_STRONGLY_ORDERED: u32 = 0x0000_0000;

/// Memory type: normal.
pub const TYPE_NORMAL: u32 = 0x0001_0000;

/// Memory attribute: shareable.
pub const SHAREABLE: u32 = 0x0002_0000;

/// The sizes that a region can have, each with the code that stands for it
/// in the unit's registers.
#[allow(non_camel_case_types)]
#[derive(Clone, Copy, Debug, PartialEq, Eq, Structural)]
pub enum sizeRegion {
    SIZE_32B,
    SIZE_64B,
    SIZE_128B,
    SIZE_256B,
    SIZE_512B,
    SIZE_1KB,
    SIZE_2KB,
    SIZE_4KB,
    SIZE_8KB,
    SIZE_16KB,
    SIZE_32KB,
    SIZE_64KB,
    SIZE_128KB,
    SIZE_256KB,
    SIZE_512KB,
    SIZE_1MB,
    SIZE_2MB,
    SIZE_4MB,
    SIZE_8MB,
    SIZE_16MB,
    SIZE_32MB,
    SIZE_64MB,
    SIZE_128MB,
    SIZE_256MB,
    SIZE_512MB,
}

impl sizeRegion {
    /// The code of the size: 4 for 32 bytes, one more for each doubling.
    pub open spec fn code_spec(self) -> u32 {
        match self {
            sizeRegion::SIZE_32B => 4,
            sizeRegion::SIZE_64B => 5,
            sizeRegion::SIZE_128B => 6,
            sizeRegion::SIZE_256B => 7,
            sizeRegion::SIZE_512B => 8,
            sizeRegion::SIZE_1KB => 9,
            sizeRegion::SIZE_2KB => 10,
            sizeRegion::SIZE_4KB => 11,
            sizeRegion::SIZE_8KB => 12,
            sizeRegion::SIZE_16KB => 13,
            sizeRegion::SIZE_32KB => 14,
            sizeRegion::SIZE_64KB => 15,
            sizeRegion::SIZE_128KB => 16,
            sizeRegion::SIZE_256KB => 17,
            sizeRegion::SIZE_512KB => 18,
            sizeRegion::SIZE_1MB => 19,
            sizeRegion::SIZE_2MB => 20,
            sizeRegion::SIZE_4MB => 21,
            sizeRegion::SIZE_8MB => 22,
            sizeRegion::SIZE_16MB => 23,
            sizeRegion::SIZE_32MB => 24,
            sizeRegion::SIZE_64MB => 25,
            sizeRegion::SIZE_128MB => 26,
            sizeRegion::SIZE_256MB => 27,
            sizeRegion::SIZE_512MB => 28,
        }
    }

    /// The code of the size.
    pub fn code(self) -> (code: u32)
        ensures
            code == self.code_spec(),
            4 <= code <= 28,
    {
        match self {
            sizeRegion::SIZE_32B => 4,
            sizeRegion::SIZE_64B => 5,
            sizeRegion::SIZE_128B => 6,
            sizeRegion::SIZE_256B => 7,
            sizeRegion::SIZE_512B => 8,
            sizeRegion::SIZE_1KB => 9,
            sizeRegion::SIZE_2KB => 10,
            sizeRegion::SIZE_4KB => 11,
            sizeRegion::SIZE_8KB => 12,
            sizeRegion::SIZE_16KB => 13,
            sizeRegion::SIZE_32KB => 14,
            sizeRegion::SIZE_64KB => 15,
            sizeRegion::SIZE_128KB => 16,
            sizeRegion::SIZE_256KB => 17,
            sizeRegion::SIZE_512KB => 18,
            sizeRegion::SIZE_1MB => 19,
            sizeRegion::SIZE_2MB => 20,
            sizeRegion::SIZE_4MB => 21,
            sizeRegion::SIZE_8MB => 22,
            sizeRegion::SIZE_16MB => 23,
            sizeRegion::SIZE_32MB => 24,
            sizeRegion::SIZE_64MB => 25,
            sizeRegion::SIZE_128MB => 26,
            sizeRegion::SIZE_256MB => 27,
            sizeRegion::SIZE_512MB => 28,
        }
    }
}

/// One region of the unit.
#[derive(Clone, Copy, Debug, PartialEq, Eq, Structural)]
pub struct MpuRegion {
    /// Where the region starts.
    pub base_address: u32,
    /// The code of its size.
    pub size: u32,
    /// Its permissions and memory attributes.
    pub attributes: u32,
    /// Its number, below the number of regions.
    pub number: u8,
}

impl MpuRegion {
    /// The values that the region number, base address, and attribute and
    /// size registers get for this region.
    pub open spec fn registers_spec(self) -> (u32, u32, u32) {
        (
            self.number as u32,
            self.base_address | 1,
            self.attributes | (((self.size - 1) as u32) << 1) | 1,
        )
    }

    /// The values that the region number, base address, and attribute and
    /// size registers get for this region.
    pub fn registers(&self) -> (values: (u32, u32, u32))
        requires
            1 <= self.size <= 32,
        ensures
            values == self.registers_spec(),
    {
        (self.number as u32, self.base_address | 1, self.attributes | ((self.size - 1) << 1) | 1)
    }
}

/// The regions that were configured, by number.
pub struct Mpu {
    regions: [Option<MpuRegion>; 8],
}

/// The register values of the configured regions among the first `n`,
/// lowest number first.
pub open spec fn register_values(regions: Seq<Option<MpuRegion>>, n: int) -> Seq<(u32, u32, u32)>
    decreases n,
{
    if n <= 0 {
        Seq::empty()
    } else {
        match regions[n - 1] {
            Some(region) => register_values(regions, n - 1).push(region.registers_spec()),
            None => register_values(regions, n - 1),
        }
    }
}

impl Mpu {
    /// The regions by number; `None` where none was configured.
    pub closed spec fn view(&self) -> Seq<Option<MpuRegion>> {
        self.regions@
    }

    /// Every configured region stands under its own number and has the
    /// code of a size.
    pub closed spec fn wf(&self) -> bool {
        forall|i: int|
            0 <= i < 8 ==> match #[trigger] self.regions@[i] {
                Some(region) => region.number == i && 4 <= region.size <= 28,
                None => true,
            }
    }

    /// A unit without regions.
    pub fn new() -> (mpu: Mpu)
        ensures
            mpu.wf(),
            mpu@.len() == 8,
            forall|i: int| 0 <= i < 8 ==> mpu@[i].is_none(),
    {
        Mpu { regions: [None, None, None, None, None, None, None, None] }
    }

    /// Configures region `number`; refused for a number that the unit does
    /// not have.
    pub fn configure_region(
        &mut self,
        number: u8,
        base_address: u32,
        _size: sizeRegion,
        attributes: u32,
    ) -> (result: Result<(), &'static str>)
        requires
            old(self).wf(),
        ensures
            final(self).wf(),
            result is Ok <==> number < 8,
            number >= 8 ==> final(self)@ == old(self)@,
            number < 8 ==> final(self)@ == old(self)@.update(
                number as int,
                Some(
                    MpuRegion { base_address, size: _size.code_spec(), attributes, number },
                ),
            ),
    {
        if number >= REGION_COUNT {
            return Err("Numéro de région invalide");
        }
        let size: u32 = _size.code();
        let region = MpuRegion { base_address, size, attributes, number };
        self.regions[number as usize] = Some(region);
        Ok(())
    }

    /// The register values that switch the regions on: for each configured
    /// region, lowest number first, the values of its three registers. The
    /// control register then gets `MPU_CTRL_ON`.
    pub fn enable(&self) -> (writes: Vec<(u32, u32, u32)>)
        requires
            self.wf(),
        ensures
            writes@ == register_values(self@, 8),
    {
        let mut writes: Vec<(u32, u32, u32)> = Vec::new();
        let mut i: usize = 0;
        while i < 8
            invariant
                i <= 8,
                self.wf(),
                writes@ == register_values(self@, i as int),
            decreases 8 - i,
        {
            match &self.regions[i] {
                Some(region) => {
                    writes.push(region.registers());
                },
                None => {},
            }
            i = i + 1;
        }
        writes
    }

    /// The control value that switches the unit off.
    pub fn disable(&self) -> (ctrl: u32)
        ensures
            ctrl == MPU_CTRL_OFF,
    {
        MPU_CTRL_OFF
    }
}

} // verus!
