//! Minimal deterministic ZIP32 packaging for the three required OPC parts:
//! stored entries, fixed timestamps, no extra fields and no comments.

use vstd::prelude::*;
use vstd::string::StringSliceAdditionalSpecFns;

use crate::export::crc::{crc32, crc32_of};
use crate::export::text::{push_bytes, push_str};
use crate::export::{ExportError, MAX_ZIP32_BYTES};

verus! {

/// Package path of the content-types part.
pub const CONTENT_TYPES_PATH: &'static str = "[Content_Types].xml";

/// Package path of the root relationships part.
pub const RELATIONSHIPS_PATH: &'static str = "_rels/.rels";

/// Package path of the 3D model part.
pub const MODEL_PATH: &'static str = "3D/3dmodel.model";

/// The content-types part: defaults for relationship and model parts.
pub const CONTENT_TYPES_XML: &'static str = "<?xml version=\"1.0\" encoding=\"UTF-8\"?>\n<Types xmlns=\"http://schemas.openxmlformats.org/package/2006/content-types\">\n  <Default Extension=\"rels\" ContentType=\"application/vnd.openxmlformats-package.relationships+xml\"/>\n  <Default Extension=\"model\" ContentType=\"application/vnd.ms-package.3dmanufacturing-3dmodel+xml\"/>\n</Types>\n";

/// The root relationships part: the model is the start part.
pub const RELATIONSHIPS_XML: &'static str = "<?xml version=\"1.0\" encoding=\"UTF-8\"?>\n<Relationships xmlns=\"http://schemas.openxmlformats.org/package/2006/relationships\">\n  <Relationship Target=\"/3D/3dmodel.model\" Id=\"rel0\" Type=\"http://schemas.microsoft.com/3dmanufacturing/2013/01/3dmodel\"/>\n</Relationships>\n";

const LOCAL_FILE_HEADER_SIGNATURE: u32 = 0x0403_4b50;

const CENTRAL_DIRECTORY_HEADER_SIGNATURE: u32 = 0x0201_4b50;

const END_OF_CENTRAL_DIRECTORY_SIGNATURE: u32 = 0x0605_4b50;

const STORED_METHOD: u16 = 0;

const ZIP_VERSION_2_0: u16 = 20;

const DOS_TIME_MIDNIGHT: u16 = 0;

const DOS_DATE_1980_01_01: u16 = 0x0021;

const ENTRY_COUNT: u16 = 3;

/// The byte count and CRC-32 of one part.
#[derive(Debug, Clone, Copy, PartialEq, Eq, Structural)]
pub struct Measurement {
    pub bytes: u64,
    pub crc32: u32,
}

/// The measurement of a byte sequence.
pub open spec fn measurement_of(bytes: Seq<u8>) -> Measurement {
    Measurement { bytes: bytes.len() as u64, crc32: crc32_of(bytes) }
}

/// The header fields of one stored ZIP entry.
#[derive(Debug, Clone, Copy)]
pub struct EntryPlan {
    pub name: &'static str,
    pub name_length: u16,
    pub size: u32,
    pub crc32: u32,
    pub local_header_offset: u32,
}

/// The entries in archive order and the central directory's place.
#[derive(Debug, Clone, Copy)]
pub struct ArchivePlan {
    pub content_types: EntryPlan,
    pub relationships: EntryPlan,
    pub model: EntryPlan,
    pub central_directory_offset: u32,
    pub central_directory_size: u32,
}

/// Little-endian bytes of a 16-bit field.
pub open spec fn u16_le(value: int) -> Seq<u8> {
    seq![(value % 256) as u8, ((value / 256) % 256) as u8]
}

/// Little-endian bytes of a 32-bit field.
pub open spec fn u32_le(value: int) -> Seq<u8> {
    seq![
        (value % 256) as u8,
        ((value / 256) % 256) as u8,
        ((value / 65536) % 256) as u8,
        ((value / 16777216) % 256) as u8,
    ]
}

/// The entry for part `name` with the given measurement and header offset.
pub open spec fn entry_with(name: &'static str, measurement: Measurement, offset: int) -> EntryPlan {
    EntryPlan {
        name,
        name_length: name.spec_bytes().len() as u16,
        size: measurement.bytes as u32,
        crc32: measurement.crc32,
        local_header_offset: offset as u32,
    }
}

/// Bytes taken by an entry's local header, name and stored data.
pub open spec fn record_len(entry: EntryPlan) -> int {
    30 + entry.name_length + entry.size
}

/// Bytes taken by an entry's central directory header and name.
pub open spec fn central_len(entry: EntryPlan) -> int {
    46 + entry.name_length
}

/// The content-types entry, first in the archive.
pub open spec fn content_types_entry() -> EntryPlan {
    entry_with(CONTENT_TYPES_PATH, measurement_of(CONTENT_TYPES_XML.spec_bytes()), 0)
}

/// The relationships entry, second in the archive.
pub open spec fn relationships_entry() -> EntryPlan {
    entry_with(
        RELATIONSHIPS_PATH,
        measurement_of(RELATIONSHIPS_XML.spec_bytes()),
        record_len(content_types_entry()),
    )
}

/// The model entry, last in the archive.
pub open spec fn model_entry(model: Measurement) -> EntryPlan {
    entry_with(
        MODEL_PATH,
        model,
        record_len(content_types_entry()) + record_len(relationships_entry()),
    )
}

/// Where the central directory starts.
pub open spec fn central_directory_offset_for(model: Measurement) -> int {
    record_len(content_types_entry()) + record_len(relationships_entry()) + record_len(
        model_entry(model),
    )
}

/// The central directory's size.
pub open spec fn central_directory_size_for(model: Measurement) -> int {
    central_len(content_types_entry()) + central_len(relationships_entry()) + central_len(
        model_entry(model),
    )
}

/// The complete archive's size.
pub open spec fn archive_size_for(model: Measurement) -> int {
    central_directory_offset_for(model) + central_directory_size_for(model) + 22
}

/// The plan for an archive whose model part has the given measurement: the
/// model part must fit a ZIP32 entry, and the archive a ZIP32 file. The first
/// offset that leaves the ZIP32 range is the one reported.
pub open spec fn planned_archive(model: Measurement) -> Result<ArchivePlan, ExportError> {
    if model.bytes > MAX_ZIP32_BYTES {
        Err(ExportError::EntryTooLarge { part: MODEL_PATH, required: model.bytes, max: MAX_ZIP32_BYTES })
    } else if archive_size_for(model) > MAX_ZIP32_BYTES {
        Err(
            ExportError::PackageTooLarge {
                required: (if central_directory_offset_for(model) > MAX_ZIP32_BYTES {
                    central_directory_offset_for(model)
                } else {
                    archive_size_for(model)
                }) as u64,
                max: MAX_ZIP32_BYTES,
            },
        )
    } else {
        Ok(
            ArchivePlan {
                content_types: content_types_entry(),
                relationships: relationships_entry(),
                model: model_entry(model),
                central_directory_offset: central_directory_offset_for(model) as u32,
                central_directory_size: central_directory_size_for(model) as u32,
            },
        )
    }
}

/// The plan for an archive around the model part `xml`.
pub open spec fn archive_result(xml: Seq<u8>) -> Result<ArchivePlan, ExportError> {
    planned_archive(measurement_of(xml))
}

/// A local file header: stored, no flags, fixed 1980-01-01 midnight timestamp.
pub open spec fn local_header_bytes(entry: EntryPlan) -> Seq<u8> {
    u32_le(0x0403_4b50) + u16_le(20) + u16_le(0) + u16_le(0) + u16_le(0) + u16_le(0x0021) + u32_le(
        entry.crc32 as int,
    ) + u32_le(entry.size as int) + u32_le(entry.size as int) + u16_le(entry.name_length as int)
        + u16_le(0) + entry.name.spec_bytes()
}

/// A central directory header with no extra field, comment or attributes.
pub open spec fn central_header_bytes(entry: EntryPlan) -> Seq<u8> {
    u32_le(0x0201_4b50) + u16_le(20) + u16_le(20) + u16_le(0) + u16_le(0) + u16_le(0) + u16_le(
        0x0021,
    ) + u32_le(entry.crc32 as int) + u32_le(entry.size as int) + u32_le(entry.size as int)
        + u16_le(entry.name_length as int) + u16_le(0) + u16_le(0) + u16_le(0) + u16_le(0)
        + u32_le(0) + u32_le(entry.local_header_offset as int) + entry.name.spec_bytes()
}

/// The end-of-central-directory record for three entries on one disk, with no comment.
pub open spec fn end_record_bytes(plan: ArchivePlan) -> Seq<u8> {
    u32_le(0x0605_4b50) + u16_le(0) + u16_le(0) + u16_le(3) + u16_le(3) + u32_le(
        plan.central_directory_size as int,
    ) + u32_le(plan.central_directory_offset as int) + u16_le(0)
}

/// The local records in archive order: each header followed by its stored part.
pub open spec fn records_bytes(plan: ArchivePlan, xml: Seq<u8>) -> Seq<u8> {
    local_header_bytes(plan.content_types) + CONTENT_TYPES_XML.spec_bytes() + local_header_bytes(
        plan.relationships,
    ) + RELATIONSHIPS_XML.spec_bytes() + local_header_bytes(plan.model) + xml
}

/// The central directory in archive order, then the end record.
pub open spec fn directory_bytes(plan: ArchivePlan) -> Seq<u8> {
    central_header_bytes(plan.content_types) + central_header_bytes(plan.relationships)
        + central_header_bytes(plan.model) + end_record_bytes(plan)
}

/// The complete archive around the model part `xml`, when it can be planned.
pub open spec fn package_bytes(xml: Seq<u8>) -> Seq<u8> {
    let plan = archive_result(xml)->Ok_0;
    records_bytes(plan, xml) + directory_bytes(plan)
}

/// The byte lengths of the fixed parts and paths.
pub proof fn lemma_fixed_part_lengths()
    ensures
        CONTENT_TYPES_PATH.spec_bytes().len() == 19,
        RELATIONSHIPS_PATH.spec_bytes().len() == 11,
        MODEL_PATH.spec_bytes().len() == 16,
        CONTENT_TYPES_XML.spec_bytes().len() == 326,
        RELATIONSHIPS_XML.spec_bytes().len() == 264,
{
    reveal_strlit("[Content_Types].xml");
    reveal_strlit("_rels/.rels");
    reveal_strlit("3D/3dmodel.model");
    reveal_strlit(
        "<?xml version=\"1.0\" encoding=\"UTF-8\"?>\n<Types xmlns=\"http://schemas.openxmlformats.org/package/2006/content-types\">\n  <Default Extension=\"rels\" ContentType=\"application/vnd.openxmlformats-package.relationships+xml\"/>\n  <Default Extension=\"model\" ContentType=\"application/vnd.ms-package.3dmanufacturing-3dmodel+xml\"/>\n</Types>\n",
    );
    reveal_strlit(
        "<?xml version=\"1.0\" encoding=\"UTF-8\"?>\n<Relationships xmlns=\"http://schemas.openxmlformats.org/package/2006/relationships\">\n  <Relationship Target=\"/3D/3dmodel.model\" Id=\"rel0\" Type=\"http://schemas.microsoft.com/3dmanufacturing/2013/01/3dmodel\"/>\n</Relationships>\n",
    );
    broadcast use vstd::string::is_ascii_spec_bytes;

    assert(vstd::string::is_ascii(CONTENT_TYPES_PATH));
    assert(vstd::string::is_ascii(RELATIONSHIPS_PATH));
    assert(vstd::string::is_ascii(MODEL_PATH));
    assert(vstd::string::is_ascii(CONTENT_TYPES_XML));
    assert(vstd::string::is_ascii(RELATIONSHIPS_XML));
}

/// Measures a byte slice.
pub fn measurement_for(bytes: &[u8]) -> (measurement: Measurement)
    ensures
        measurement == measurement_of(bytes@),
{
    Measurement { bytes: bytes.len() as u64, crc32: crc32(bytes) }
}

/// Plans one entry at offset zero; its size must fit a ZIP32 entry.
pub fn entry_plan(name: &'static str, measurement: Measurement) -> (result: Result<EntryPlan, ExportError>)
    requires
        name.spec_bytes().len() <= usize::MAX,
    ensures
        name.spec_bytes().len() > 65535 ==> result == Err::<EntryPlan, ExportError>(
            ExportError::ArithmeticOverflow,
        ),
        name.spec_bytes().len() <= 65535 && measurement.bytes > MAX_ZIP32_BYTES ==> result
            == Err::<EntryPlan, ExportError>(
            ExportError::EntryTooLarge {
                part: name,
                required: measurement.bytes,
                max: MAX_ZIP32_BYTES,
            },
        ),
        name.spec_bytes().len() <= 65535 && measurement.bytes <= MAX_ZIP32_BYTES ==> result
            == Ok::<EntryPlan, ExportError>(entry_with(name, measurement, 0)),
{
    let length = name.len();
    if length > 65535 {
        return Err(ExportError::ArithmeticOverflow);
    }
    if measurement.bytes > MAX_ZIP32_BYTES {
        return Err(
            ExportError::EntryTooLarge {
                part: name,
                required: measurement.bytes,
                max: MAX_ZIP32_BYTES,
            },
        );
    }
    Ok(
        EntryPlan {
            name,
            name_length: length as u16,
            size: measurement.bytes as u32,
            crc32: measurement.crc32,
            local_header_offset: 0,
        },
    )
}

/// Narrows a package offset or size to the ZIP32 range.
pub fn package_u32(required: u64) -> (result: Result<u32, ExportError>)
    ensures
        required <= MAX_ZIP32_BYTES ==> result == Ok::<u32, ExportError>(required as u32),
        required > MAX_ZIP32_BYTES ==> result == Err::<u32, ExportError>(
            ExportError::PackageTooLarge { required, max: MAX_ZIP32_BYTES },
        ),
{
    if required > MAX_ZIP32_BYTES {
        Err(ExportError::PackageTooLarge { required, max: MAX_ZIP32_BYTES })
    } else {
        Ok(required as u32)
    }
}

/// Plans the archive around a model part with the given measurement.
pub fn plan_archive(model: Measurement) -> (result: Result<ArchivePlan, ExportError>)
    ensures
        result == planned_archive(model),
{
    proof {
        lemma_fixed_part_lengths();
    }
    let content_types = match entry_plan(CONTENT_TYPES_PATH, measurement_for(CONTENT_TYPES_XML.as_bytes())) {
        Ok(entry) => entry,
        Err(error) => return Err(error),
    };
    let mut relationships = match entry_plan(RELATIONSHIPS_PATH, measurement_for(RELATIONSHIPS_XML.as_bytes())) {
        Ok(entry) => entry,
        Err(error) => return Err(error),
    };
    let mut model_part = match entry_plan(MODEL_PATH, model) {
        Ok(entry) => entry,
        Err(error) => return Err(error),
    };
    let ct_end = 30 + content_types.name_length as u64 + content_types.size as u64;
    relationships.local_header_offset = ct_end as u32;
    let rels_end = ct_end + 30 + relationships.name_length as u64 + relationships.size as u64;
    model_part.local_header_offset = rels_end as u32;
    let model_end = rels_end + 30 + model_part.name_length as u64 + model_part.size as u64;
    let central_directory_offset = match package_u32(model_end) {
        Ok(offset) => offset,
        Err(error) => return Err(error),
    };
    let central_size = 46 + content_types.name_length as u64 + 46 + relationships.name_length as u64
        + 46 + model_part.name_length as u64;
    let archive_size = model_end + central_size + 22;
    if archive_size > MAX_ZIP32_BYTES {
        return Err(ExportError::PackageTooLarge { required: archive_size, max: MAX_ZIP32_BYTES });
    }
    Ok(
        ArchivePlan {
            content_types,
            relationships,
            model: model_part,
            central_directory_offset,
            central_directory_size: central_size as u32,
        },
    )
}

/// Appends a little-endian 16-bit field.
fn write_u16(out: &mut Vec<u8>, value: u16)
    ensures
        final(out)@ == old(out)@ + u16_le(value as int),
{
    out.push((value % 256) as u8);
    out.push((value / 256) as u8);
    proof {
        assert(out@ =~= old(out)@ + u16_le(value as int));
    }
}

/// Appends a little-endian 32-bit field.
fn write_u32(out: &mut Vec<u8>, value: u32)
    ensures
        final(out)@ == old(out)@ + u32_le(value as int),
{
    out.push((value % 256) as u8);
    out.push(((value / 256) % 256) as u8);
    out.push(((value / 65536) % 256) as u8);
    out.push((value / 16777216) as u8);
    proof {
        assert(out@ =~= old(out)@ + u32_le(value as int));
    }
}

/// Appends an entry's local file header.
fn write_local_header(out: &mut Vec<u8>, entry: EntryPlan)
    ensures
        final(out)@ == old(out)@ + local_header_bytes(entry),
{
    let ghost start = out@;
    write_u32(out, LOCAL_FILE_HEADER_SIGNATURE);
    write_u16(out, ZIP_VERSION_2_0);
    write_u16(out, 0);
    write_u16(out, STORED_METHOD);
    write_u16(out, DOS_TIME_MIDNIGHT);
    write_u16(out, DOS_DATE_1980_01_01);
    write_u32(out, entry.crc32);
    write_u32(out, entry.size);
    write_u32(out, entry.size);
    write_u16(out, entry.name_length);
    write_u16(out, 0);
    push_str(out, entry.name);
    proof {
        assert(out@ =~= start + local_header_bytes(entry));
    }
}

/// Appends an entry's central directory header.
fn write_central_directory_header(out: &mut Vec<u8>, entry: EntryPlan)
    ensures
        final(out)@ == old(out)@ + central_header_bytes(entry),
{
    let ghost start = out@;
    write_u32(out, CENTRAL_DIRECTORY_HEADER_SIGNATURE);
    write_u16(out, ZIP_VERSION_2_0);
    write_u16(out, ZIP_VERSION_2_0);
    write_u16(out, 0);
    write_u16(out, STORED_METHOD);
    write_u16(out, DOS_TIME_MIDNIGHT);
    write_u16(out, DOS_DATE_1980_01_01);
    write_u32(out, entry.crc32);
    write_u32(out, entry.size);
    write_u32(out, entry.size);
    write_u16(out, entry.name_length);
    write_u16(out, 0);
    write_u16(out, 0);
    write_u16(out, 0);
    write_u16(out, 0);
    write_u32(out, 0);
    write_u32(out, entry.local_header_offset);
    push_str(out, entry.name);
    proof {
        assert(out@ =~= start + central_header_bytes(entry));
    }
}

/// Appends the end-of-central-directory record.
fn write_end_record(out: &mut Vec<u8>, plan: ArchivePlan)
    ensures
        final(out)@ == old(out)@ + end_record_bytes(plan),
{
    let ghost start = out@;
    write_u32(out, END_OF_CENTRAL_DIRECTORY_SIGNATURE);
    write_u16(out, 0);
    write_u16(out, 0);
    write_u16(out, ENTRY_COUNT);
    write_u16(out, ENTRY_COUNT);
    write_u32(out, plan.central_directory_size);
    write_u32(out, plan.central_directory_offset);
    write_u16(out, 0);
    proof {
        assert(out@ =~= start + end_record_bytes(plan));
    }
}

/// Appends the local records.
fn write_records(out: &mut Vec<u8>, plan: ArchivePlan, xml: &[u8])
    ensures
        final(out)@ == old(out)@ + records_bytes(plan, xml@),
{
    let ghost start = out@;
    write_local_header(out, plan.content_types);
    push_str(out, CONTENT_TYPES_XML);
    write_local_header(out, plan.relationships);
    push_str(out, RELATIONSHIPS_XML);
    write_local_header(out, plan.model);
    push_bytes(out, xml);
    proof {
        assert(out@ =~= start + records_bytes(plan, xml@));
    }
}

/// Appends the central directory and the end record.
fn write_directory(out: &mut Vec<u8>, plan: ArchivePlan)
    ensures
        final(out)@ == old(out)@ + directory_bytes(plan),
{
    let ghost start = out@;
    write_central_directory_header(out, plan.content_types);
    write_central_directory_header(out, plan.relationships);
    write_central_directory_header(out, plan.model);
    write_end_record(out, plan);
    proof {
        assert(out@ =~= start + directory_bytes(plan));
    }
}

/// Appends the stored ZIP32 archive around the model part `xml`, or leaves
/// `out` unchanged and reports why the archive cannot be planned.
pub fn write_package(xml: &[u8], out: &mut Vec<u8>) -> (result: Result<(), ExportError>)
    ensures
        match archive_result(xml@) {
            Ok(_) => result is Ok && final(out)@ == old(out)@ + package_bytes(xml@),
            Err(error) => result == Err::<(), ExportError>(error) && final(out)@ == old(out)@,
        },
{
    let plan = match plan_archive(measurement_for(xml)) {
        Ok(plan) => plan,
        Err(error) => return Err(error),
    };
    let ghost start = out@;
    write_records(out, plan, xml);
    write_directory(out, plan);
    proof {
        assert(out@ =~= start + package_bytes(xml@));
    }
    Ok(())
}

} // verus!
