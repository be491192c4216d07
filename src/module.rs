//! Fabric endpoints: (chip, module) pairs.
use vstd::prelude::*;

verus! {

/// An endpoint of the fabric: a (chip, module) pair.
#[derive(Clone, Copy, PartialEq, Eq, Structural, Debug)]
pub struct FPGAModule {
    pub chip_id: u8,
    pub mod_id: u8,
}

impl FPGAModule {
    pub fn new(chip_id: u8, mod_id: u8) -> (r: Self)
        ensures
            r.chip_id == chip_id,
            r.mod_id == mod_id,
    {
        FPGAModule { chip_id, mod_id }
    }
}

/// The fixed identity of the fabric's Ethernet bridge, which is the source
/// of every packet this driver sends.
pub open spec fn eth_mod() -> FPGAModule {
    FPGAModule { chip_id: 0, mod_id: 0x05 }
}

pub const ETH_CHIP_ID: u8 = 0;
pub const ETH_MOD_ID: u8 = 0x05;

pub fn eth_module() -> (r: FPGAModule)
    ensures
        r == eth_mod(),
{
    FPGAModule::new(ETH_CHIP_ID, ETH_MOD_ID)
}

} // verus!
