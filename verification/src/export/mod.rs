//! Deterministic Core-only 3MF serialization and OPC package creation.
//!
//! The package holds named substrate and fill mesh resources, one parent
//! assembly that preserves their alignment, and one build item. Coordinates
//! are converted exactly from integer micrometres to decimal millimetres.

pub mod crc;
pub mod model;
pub mod package;
pub mod text;

use vstd::prelude::*;

use crate::export::model::{model_xml, write_model_xml};
use crate::export::package::{archive_result, package_bytes, write_package};
use crate::mesh::PartModel;

verus! {

/// Largest resource count representable by a Core 3MF resource ID.
pub const MAX_3MF_OBJECTS: usize = 2_147_483_647;

/// Largest entry or archive size emitted by the plain ZIP32 package writer.
pub const MAX_ZIP32_BYTES: u64 = 4_294_967_295;

/// A failure while serializing a validated part model as 3MF.
#[derive(Debug, Clone, PartialEq, Eq)]
pub enum ExportError {
    /// The model cannot be assigned valid positive Core resource IDs.
    TooManyObjects { required: usize, max: usize },
    /// One package part cannot be represented by a plain ZIP32 entry.
    EntryTooLarge { part: &'static str, required: u64, max: u64 },
    /// The complete archive cannot be represented without ZIP64.
    PackageTooLarge { required: u64, max: u64 },
    /// Checked package-size arithmetic overflowed.
    ArithmeticOverflow,
}

/// The resource ID of the assembly: one after the substrate and every fill.
pub open spec fn assembly_id_for(model: PartModel) -> int {
    model.spec_fill_parts().len() as int + 2
}

/// Appends a deterministic Core-only 3MF package for `model` to `out`.
///
/// The first appended byte is the start of the ZIP archive. On an error
/// nothing is appended.
pub fn write_3mf(model: &PartModel, out: &mut Vec<u8>) -> (result: Result<(), ExportError>)
    ensures
        assembly_id_for(*model) > usize::MAX ==> result == Err::<(), ExportError>(
            ExportError::ArithmeticOverflow,
        ) && final(out)@ == old(out)@,
        assembly_id_for(*model) <= usize::MAX && assembly_id_for(*model) > MAX_3MF_OBJECTS
            ==> result == Err::<(), ExportError>(
            ExportError::TooManyObjects {
                required: assembly_id_for(*model) as usize,
                max: MAX_3MF_OBJECTS,
            },
        ) && final(out)@ == old(out)@,
        assembly_id_for(*model) <= MAX_3MF_OBJECTS ==> {
            let xml = model_xml(*model, assembly_id_for(*model) as nat);
            match archive_result(xml) {
                Ok(_) => result is Ok && final(out)@ == old(out)@ + package_bytes(xml),
                Err(error) => result == Err::<(), ExportError>(error) && final(out)@ == old(out)@,
            }
        },
{
    let fill_count = model.fill_parts().len();
    if fill_count > usize::MAX - 2 {
        return Err(ExportError::ArithmeticOverflow);
    }
    let object_count = fill_count + 2;
    if object_count > MAX_3MF_OBJECTS {
        return Err(ExportError::TooManyObjects { required: object_count, max: MAX_3MF_OBJECTS });
    }
    let assembly_id = object_count as u32;
    let mut xml: Vec<u8> = Vec::new();
    write_model_xml(model, assembly_id, &mut xml);
    proof {
        assert(xml@ =~= model_xml(*model, assembly_id_for(*model) as nat));
    }
    write_package(&xml, out)
}

} // verus!
