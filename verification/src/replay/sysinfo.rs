//! The hardware summary shown by the resource calculator.

use vstd::prelude::*;

verus! {

/// GPU, memory and hardware encoders of this machine.
pub struct SystemInfo {
    pub gpu_name: String,
    pub gpu_vram_mb: u64,
    pub ram_total_mb: u64,
    pub hw_encoders: Vec<String>,
}

pub const MIB: u64 = 1024 * 1024;

/// The summary from what the system reported: the adapter's name and
/// dedicated video memory and the physical memory, in bytes (sizes are
/// shown in whole MiB, rounded down), and the hardware H.264 encoders'
/// friendly names.
pub fn collect(gpu_name: String, vram_bytes: u64, ram_bytes: u64, hw_encoders: Vec<String>) -> (s: SystemInfo)
    ensures
        s.gpu_name@ == gpu_name@,
        s.gpu_vram_mb == vram_bytes / MIB,
        s.ram_total_mb == ram_bytes / MIB,
        s.hw_encoders@ == hw_encoders@,
{
    SystemInfo { gpu_name, gpu_vram_mb: vram_bytes / MIB, ram_total_mb: ram_bytes / MIB, hw_encoders }
}

} // verus!
