//! The periodic timer: the values that its registers get.

use vstd::prelude::*;

verus! {

/// Address of the timer's control and status register.
pub const SYST_CSR_ADDR: u32 = 0xE000_E010;

/// Address of the timer's reload value register.
pub const SYST_RVR_ADDR: u32 = 0xE000_E014;

/// Address of the timer's calibration value register.
pub const SYST_CALIB_ADDR: u32 = 0xE000_E01C;

/// The timer's frequency as the calibration register gives it.
pub struct SysTick {
    freq: u32,
}

/// The ticks in ten milliseconds that the calibration value `calib` holds:
/// its low 24 bits.
pub open spec fn tenms_spec(calib: u32) -> u32 {
    calib & 0x00FF_FFFF
}

/// The reload value for `us_time` microseconds at `freq` ticks a second, cut
/// to the 24 bits of the reload field.
pub open spec fn reload_spec(freq: u32, us_time: u64) -> u32 {
    ((((freq as u64 * us_time) as u64) / 1_000_000) & 0x00FF_FFFF) as u32
}

impl SysTick {
    /// The frequency in ticks a second; zero until the timer is set up.
    pub closed spec fn freq(&self) -> u32 {
        self.freq
    }

    /// A timer that is not set up.
    pub fn new() -> (timer: SysTick)
        ensures
            timer.freq() == 0,
    {
        SysTick { freq: 0 }
    }

    /// The frequency in ticks a second.
    pub fn frequency(&self) -> (freq: u32)
        ensures
            freq == self.freq(),
    {
        self.freq
    }

    /// Sets the timer up from what its registers hold: takes the frequency
    /// from the calibration value `syst_calib`, a hundred times its ticks in
    /// ten milliseconds, and gives the control value to write: `syst_csr`
    /// with the bit that makes the timer raise its trap.
    pub fn init_sys_tick(&mut self, syst_csr: u32, syst_calib: u32) -> (csr: u32)
        ensures
            csr == syst_csr | 0b10,
            final(self).freq() == tenms_spec(syst_calib) * 100,
    {
        let tenms: u32 = syst_calib & 0x00FF_FFFF;
        assert(tenms <= 0x00FF_FFFF) by (bit_vector)
            requires
                tenms == syst_calib & 0x00FF_FFFF,
        ;
        self.freq = tenms * 100;
        syst_csr | 0b10
    }

    /// The control value that starts the timer: `syst_csr` with the enable
    /// bit.
    pub fn start_sys_tick(&self, syst_csr: u32) -> (csr: u32)
        ensures
            csr == syst_csr | 0b1,
    {
        syst_csr | 0b1
    }

    /// The reload register value for a period of `us_time` microseconds:
    /// `syst_rvr` with its reload field replaced.
    pub fn set_sys_tick_reload_us(&self, us_time: u64, syst_rvr: u32) -> (rvr: u32)
        requires
            self.freq() * us_time <= u64::MAX,
        ensures
            rvr == (syst_rvr & 0xFF00_0000) | reload_spec(self.freq(), us_time),
    {
        let ticks: u64 = (self.freq as u64) * us_time;
        let reload_value: u64 = (ticks / 1_000_000) & 0x00FF_FFFF;
        assert(reload_value <= 0x00FF_FFFF) by (bit_vector)
            requires
                reload_value == (ticks / 1_000_000) & 0x00FF_FFFF,
        ;
        (syst_rvr & 0xFF00_0000) | (reload_value as u32)
    }
}

} // verus!
