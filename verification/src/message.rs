//! Human-readable messages for the library's errors, each built from literal
//! text and decimal integers.

use vstd::prelude::*;
use vstd::string::StringSliceAdditionalSpecFns;
use vstd::utf8::{decode_utf8, encode_utf8_valid_utf8, valid_utf8, valid_utf8_concat};

use crate::document::{Dimension, DocumentError};
use crate::engine::EngineError;
use crate::export::text::{decimal_text, push_str};
use crate::export::ExportError;
use crate::job::{ValidationErrors, ValidationIssue};
use crate::mesh::{MeshError, MeshPart};
use crate::pdfium::PdfRenderError;
use crate::planar::PlanarError;

verus! {

/// One piece of a message.
#[derive(Debug, Clone, Copy, PartialEq, Eq)]
pub enum Piece {
    /// Literal text.
    Text(&'static str),
    /// An unsigned integer in decimal.
    Unsigned(u128),
    /// A signed integer in decimal, with a leading minus sign when negative.
    Signed(i128),
}

/// A signed integer in decimal.
pub open spec fn signed_decimal_text(value: int) -> Seq<u8> {
    if value < 0 {
        seq![45u8] + decimal_text((-value) as nat)
    } else {
        decimal_text(value as nat)
    }
}

/// The UTF-8 bytes of one piece.
pub open spec fn piece_bytes(piece: Piece) -> Seq<u8> {
    match piece {
        Piece::Text(text) => text.spec_bytes(),
        Piece::Unsigned(value) => decimal_text(value as nat),
        Piece::Signed(value) => signed_decimal_text(value as int),
    }
}

/// The UTF-8 bytes of pieces written in order.
pub open spec fn pieces_bytes(pieces: Seq<Piece>) -> Seq<u8>
    decreases pieces.len(),
{
    if pieces.len() == 0 {
        Seq::empty()
    } else {
        pieces_bytes(pieces.drop_last()) + piece_bytes(pieces.last())
    }
}

/// The text of pieces written in order.
pub open spec fn pieces_text(pieces: Seq<Piece>) -> Seq<char> {
    decode_utf8(pieces_bytes(pieces))
}

/// Bytes below 128 are valid UTF-8 on their own.
proof fn lemma_ascii_valid(bytes: Seq<u8>)
    requires
        forall|i: int| 0 <= i < bytes.len() ==> #[trigger] bytes[i] < 128,
    ensures
        valid_utf8(bytes),
    decreases bytes.len(),
{
    if bytes.len() > 0 {
        let first = bytes[0];
        assert(first & 0x7fu8 == first && (first & 0x7fu8) as u32 == first as u32) by (bit_vector)
            requires
                first < 128,
        ;
        let rest = bytes.subrange(1, bytes.len() as int);
        lemma_ascii_valid(rest);
        assert(vstd::utf8::pop_first_scalar(bytes) =~= rest);
    }
}

/// Decimal digits are valid UTF-8.
proof fn lemma_decimal_valid(value: nat)
    ensures
        valid_utf8(decimal_text(value)),
{
    lemma_decimal_ascii(value);
    lemma_ascii_valid(decimal_text(value));
}

/// Decimal digits are ASCII.
proof fn lemma_decimal_ascii(value: nat)
    ensures
        forall|i: int| 0 <= i < decimal_text(value).len() ==> #[trigger] decimal_text(value)[i] < 128,
    decreases value,
{
    if value >= 10 {
        lemma_decimal_ascii(value / 10);
        let prefix = decimal_text(value / 10);
        let last = crate::export::text::digit((value % 10) as int);
        assert(last < 128);
        assert forall|i: int| 0 <= i < decimal_text(value).len() implies #[trigger] decimal_text(value)[i] < 128 by {
            if i < prefix.len() {
                assert(decimal_text(value)[i] == prefix[i]);
            }
        }
    }
}

/// Every piece is valid UTF-8.
proof fn lemma_piece_valid(piece: Piece)
    ensures
        valid_utf8(piece_bytes(piece)),
{
    match piece {
        Piece::Text(text) => {
            encode_utf8_valid_utf8(text@);
        },
        Piece::Unsigned(value) => {
            lemma_decimal_valid(value as nat);
        },
        Piece::Signed(value) => {
            if value < 0 {
                lemma_decimal_valid((-value) as nat);
                lemma_ascii_valid(seq![45u8]);
                valid_utf8_concat(seq![45u8], decimal_text((-value) as nat));
            } else {
                lemma_decimal_valid(value as nat);
            }
        },
    }
}

/// Pieces written in order are valid UTF-8.
proof fn lemma_pieces_valid(pieces: Seq<Piece>)
    ensures
        valid_utf8(pieces_bytes(pieces)),
    decreases pieces.len(),
{
    if pieces.len() == 0 {
        lemma_ascii_valid(Seq::<u8>::empty());
    } else {
        lemma_pieces_valid(pieces.drop_last());
        lemma_piece_valid(pieces.last());
        valid_utf8_concat(pieces_bytes(pieces.drop_last()), piece_bytes(pieces.last()));
    }
}

/// Appends an unsigned integer in decimal.
fn push_unsigned(out: &mut Vec<u8>, value: u128)
    ensures
        final(out)@ == old(out)@ + decimal_text(value as nat),
    decreases value,
{
    if value >= 10 {
        push_unsigned(out, value / 10);
    }
    let last = (value % 10) as u8;
    out.push(48 + last);
    proof {
        assert(out@ =~= old(out)@ + decimal_text(value as nat));
    }
}

/// Appends a signed integer in decimal.
fn push_signed(out: &mut Vec<u8>, value: i128)
    ensures
        final(out)@ == old(out)@ + signed_decimal_text(value as int),
{
    if value < 0 {
        out.push(45);
        let magnitude: u128 = if value == i128::MIN {
            170_141_183_460_469_231_731_687_303_715_884_105_728
        } else {
            (-value) as u128
        };
        push_unsigned(out, magnitude);
        proof {
            assert(out@ =~= old(out)@ + signed_decimal_text(value as int));
        }
    } else {
        push_unsigned(out, value as u128);
    }
}

/// Wraps `String::from_utf8`: for valid UTF-8 input, the string holds exactly
/// the decoded characters.
#[verifier::external_body]
fn string_from_utf8(bytes: Vec<u8>) -> (text: String)
    requires
        valid_utf8(bytes@),
    ensures
        text@ == decode_utf8(bytes@),
{
    match String::from_utf8(bytes) {
        Ok(text) => text,
        Err(_) => String::new(),
    }
}

/// Writes pieces in order as one string.
pub fn render(pieces: &[Piece]) -> (text: String)
    ensures
        text@ == pieces_text(pieces@),
{
    let mut bytes: Vec<u8> = Vec::new();
    let mut index: usize = 0;
    while index < pieces.len()
        invariant
            index <= pieces@.len(),
            bytes@ == pieces_bytes(pieces@.take(index as int)),
        decreases pieces@.len() - index,
    {
        match pieces[index] {
            Piece::Text(text) => push_str(&mut bytes, text),
            Piece::Unsigned(value) => push_unsigned(&mut bytes, value),
            Piece::Signed(value) => push_signed(&mut bytes, value),
        }
        proof {
            assert(pieces@.take(index as int + 1).drop_last() =~= pieces@.take(index as int));
        }
        index = index + 1;
    }
    proof {
        assert(pieces@.take(index as int) =~= pieces@);
        lemma_pieces_valid(pieces@);
    }
    string_from_utf8(bytes)
}


/// The name of a dimension.
pub open spec fn dimension_name(dimension: Dimension) -> &'static str {
    match dimension {
        Dimension::Width => "width",
        Dimension::Height => "height",
    }
}

/// Returns the name of a dimension.
pub fn dimension_label(dimension: Dimension) -> (name: &'static str)
    ensures
        name == dimension_name(dimension),
{
    match dimension {
        Dimension::Width => "width",
        Dimension::Height => "height",
    }
}

/// The pieces of the first `count` issues, each after a separator.
pub open spec fn issue_list_pieces(issues: Seq<ValidationIssue>) -> Seq<Piece>
    decreases issues.len(),
{
    if issues.len() == 0 {
        Seq::empty()
    } else {
        issue_list_pieces(issues.drop_last()) + seq![Piece::Text("; ")] + validation_issue_pieces(
            issues.last(),
        )
    }
}

/// The message of a rejected job: the number of problems, then each problem.
pub open spec fn validation_errors_pieces(errors: ValidationErrors) -> Seq<Piece> {
    seq![
        Piece::Text("job specification has "),
        Piece::Unsigned(errors.spec_issues().len() as u128),
        Piece::Text(" validation error(s)"),
    ] + issue_list_pieces(errors.spec_issues())
}

/// The pieces of the message for `errors`.
pub fn validation_errors_piece_list(errors: &ValidationErrors) -> (pieces: Vec<Piece>)
    ensures
        pieces@ == validation_errors_pieces(*errors),
{
    let issues = errors.issues();
    let mut pieces: Vec<Piece> = vec![
        Piece::Text("job specification has "),
        Piece::Unsigned(issues.len() as u128),
        Piece::Text(" validation error(s)"),
    ];
    let ghost head = pieces@;
    let mut index: usize = 0;
    while index < issues.len()
        invariant
            index <= issues@.len(),
            issues@ == errors.spec_issues(),
            pieces@ == head + issue_list_pieces(issues@.take(index as int)),
        decreases issues@.len() - index,
    {
        pieces.push(Piece::Text("; "));
        pieces.append(&mut validation_issue_piece_list(&issues[index]));
        proof {
            assert(issues@.take(index as int + 1).drop_last() =~= issues@.take(index as int));
        }
        index = index + 1;
        proof {
            assert(pieces@ =~= head + issue_list_pieces(issues@.take(index as int)));
        }
    }
    proof {
        assert(issues@.take(index as int) =~= issues@);
    }
    pieces
}

/// The message of a document-layer error.
pub open spec fn document_error_pieces(value: DocumentError) -> Seq<Piece> {
    match value {
        DocumentError::ZeroPixelDimension { dimension } => seq![Piece::Text("pixel "), Piece::Text(dimension_name(dimension)), Piece::Text(" must be greater than zero")],
        DocumentError::RasterTooLarge { width, height, max_pixels } => seq![Piece::Text("raster "), Piece::Unsigned(width as u128), Piece::Text("x"), Piece::Unsigned(height as u128), Piece::Text(" exceeds the limit of "), Piece::Unsigned(max_pixels as u128), Piece::Text(" pixels")],
        DocumentError::DataLengthMismatch { expected, actual } => seq![Piece::Text("pixel data has length "), Piece::Unsigned(actual as u128), Piece::Text("; expected "), Piece::Unsigned(expected as u128)],
        DocumentError::NonPositivePhysicalDimension { dimension, micrometers } => seq![Piece::Text("physical "), Piece::Text(dimension_name(dimension)), Piece::Text(" must be positive; got "), Piece::Signed(micrometers as i128), Piece::Text(" micrometres")],
        DocumentError::MissingOutputSizeConstraint => seq![Piece::Text("at least one maximum output dimension is required")],
        DocumentError::NonPositiveSamplingPitch { micrometers } => seq![Piece::Text("sampling pitch must be positive; got "), Piece::Signed(micrometers as i128), Piece::Text(" micrometres per pixel")],
        DocumentError::OutputDimensionRoundsToZero { dimension } => seq![Piece::Text("fitted output "), Piece::Text(dimension_name(dimension)), Piece::Text(" rounds to zero micrometres")],
        DocumentError::OutputDimensionTooLarge { dimension } => seq![Piece::Text("fitted output "), Piece::Text(dimension_name(dimension)), Piece::Text(" exceeds the supported micrometre range")],
        DocumentError::PixelDimensionTooLarge { dimension, pixels } => seq![Piece::Text("pixel "), Piece::Text(dimension_name(dimension)), Piece::Text(" of "), Piece::Unsigned(pixels as u128), Piece::Text(" exceeds the supported 32-bit range")],
        DocumentError::RgbaDataLengthMismatch { expected, actual } => seq![Piece::Text("RGBA data has length "), Piece::Unsigned(actual as u128), Piece::Text("; expected "), Piece::Unsigned(expected as u128)],
        DocumentError::InvalidBinaryValue { index, value } => seq![Piece::Text("binary mask byte at index "), Piece::Unsigned(index as u128), Piece::Text(" is "), Piece::Unsigned(value as u128), Piece::Text("; expected 0 or 1")],
    }
}

/// The pieces of the message for `value`.
pub fn document_error_piece_list(value: &DocumentError) -> (pieces: Vec<Piece>)
    ensures
        pieces@ == document_error_pieces(*value),
{
    match value {
        DocumentError::ZeroPixelDimension { dimension } => vec![Piece::Text("pixel "), Piece::Text(dimension_label(*dimension)), Piece::Text(" must be greater than zero")],
        DocumentError::RasterTooLarge { width, height, max_pixels } => vec![Piece::Text("raster "), Piece::Unsigned(*width as u128), Piece::Text("x"), Piece::Unsigned(*height as u128), Piece::Text(" exceeds the limit of "), Piece::Unsigned(*max_pixels as u128), Piece::Text(" pixels")],
        DocumentError::DataLengthMismatch { expected, actual } => vec![Piece::Text("pixel data has length "), Piece::Unsigned(*actual as u128), Piece::Text("; expected "), Piece::Unsigned(*expected as u128)],
        DocumentError::NonPositivePhysicalDimension { dimension, micrometers } => vec![Piece::Text("physical "), Piece::Text(dimension_label(*dimension)), Piece::Text(" must be positive; got "), Piece::Signed(*micrometers as i128), Piece::Text(" micrometres")],
        DocumentError::MissingOutputSizeConstraint => vec![Piece::Text("at least one maximum output dimension is required")],
        DocumentError::NonPositiveSamplingPitch { micrometers } => vec![Piece::Text("sampling pitch must be positive; got "), Piece::Signed(*micrometers as i128), Piece::Text(" micrometres per pixel")],
        DocumentError::OutputDimensionRoundsToZero { dimension } => vec![Piece::Text("fitted output "), Piece::Text(dimension_label(*dimension)), Piece::Text(" rounds to zero micrometres")],
        DocumentError::OutputDimensionTooLarge { dimension } => vec![Piece::Text("fitted output "), Piece::Text(dimension_label(*dimension)), Piece::Text(" exceeds the supported micrometre range")],
        DocumentError::PixelDimensionTooLarge { dimension, pixels } => vec![Piece::Text("pixel "), Piece::Text(dimension_label(*dimension)), Piece::Text(" of "), Piece::Unsigned(*pixels as u128), Piece::Text(" exceeds the supported 32-bit range")],
        DocumentError::RgbaDataLengthMismatch { expected, actual } => vec![Piece::Text("RGBA data has length "), Piece::Unsigned(*actual as u128), Piece::Text("; expected "), Piece::Unsigned(*expected as u128)],
        DocumentError::InvalidBinaryValue { index, value } => vec![Piece::Text("binary mask byte at index "), Piece::Unsigned(*index as u128), Piece::Text(" is "), Piece::Unsigned(*value as u128), Piece::Text("; expected 0 or 1")],
    }
}

/// The message of a planar-geometry error.
pub open spec fn planar_error_pieces(value: PlanarError) -> Seq<Piece> {
    match value {
        PlanarError::NegativeBorderWidth => seq![Piece::Text("border width must not be negative")],
        PlanarError::NonPositiveMinimumFeatureWidth => seq![Piece::Text("minimum feature width must be positive")],
        PlanarError::NegativeContourTolerance => seq![Piece::Text("contour tolerance must not be negative")],
        PlanarError::ContourToleranceTooLarge { tolerance, max } => seq![Piece::Text("contour tolerance "), Piece::Signed(tolerance as i128), Piece::Text(" micrometres exceeds the supported maximum of "), Piece::Signed(max as i128), Piece::Text(" micrometres")],
        PlanarError::ArtworkExtentTooLarge { width, height, max } => seq![Piece::Text("artwork extent "), Piece::Signed(width as i128), Piece::Text("x"), Piece::Signed(height as i128), Piece::Text(" micrometres exceeds the supported maximum of "), Piece::Signed(max as i128), Piece::Text(" micrometres per axis")],
        PlanarError::BorderDoesNotFitArtwork { width, height, border } => seq![Piece::Text("border width "), Piece::Signed(border as i128), Piece::Text(" micrometres does not fit inside artwork extent "), Piece::Signed(width as i128), Piece::Text("x"), Piece::Signed(height as i128), Piece::Text(" micrometres")],
        PlanarError::ResolutionTooFine { dimension, pixels, extent } => seq![Piece::Unsigned(pixels as u128), Piece::Text(" "), Piece::Text(dimension_name(dimension)), Piece::Text(" pixels cannot be represented across "), Piece::Signed(extent as i128), Piece::Text(" integer micrometres")],
        PlanarError::TooManyAxisIntervals { dimension, required, max } => seq![Piece::Text(dimension_name(dimension)), Piece::Text(" axis requires "), Piece::Unsigned(required as u128), Piece::Text(" intervals; the limit is "), Piece::Unsigned(max as u128)],
        PlanarError::DiagonalContactTooFine { x, y } => seq![Piece::Text("diagonal contact at ("), Piece::Signed(x as i128), Piece::Text(", "), Piece::Signed(y as i128), Piece::Text(") cannot be separated on the integer-micrometre grid")],
        PlanarError::TooManyCells { required, max } => seq![Piece::Text("planar processing requires "), Piece::Unsigned(required as u128), Piece::Text(" cells; the limit is "), Piece::Unsigned(max as u128)],
        PlanarError::TooManyBoundaryEdges { required, max } => seq![Piece::Text("contour tracing requires "), Piece::Unsigned(required as u128), Piece::Text(" boundary edges; the limit is "), Piece::Unsigned(max as u128)],
        PlanarError::MorphologyWorkLimitExceeded { required, max } => seq![Piece::Text("feature cleanup requires "), Piece::Unsigned(required as u128), Piece::Text(" work units; the limit is "), Piece::Unsigned(max as u128)],
        PlanarError::HoleContainmentWorkLimitExceeded { required, max } => seq![Piece::Text("hole assignment requires "), Piece::Unsigned(required as u128), Piece::Text(" work units; the limit is "), Piece::Unsigned(max as u128)],
        PlanarError::ArithmeticOverflow => seq![Piece::Text("fixed-point planar arithmetic overflowed")],
        PlanarError::InvalidTopology(reason) => seq![Piece::Text("invalid planar topology: "), Piece::Text(reason)],
    }
}

/// The pieces of the message for `value`.
pub fn planar_error_piece_list(value: &PlanarError) -> (pieces: Vec<Piece>)
    ensures
        pieces@ == planar_error_pieces(*value),
{
    match value {
        PlanarError::NegativeBorderWidth => vec![Piece::Text("border width must not be negative")],
        PlanarError::NonPositiveMinimumFeatureWidth => vec![Piece::Text("minimum feature width must be positive")],
        PlanarError::NegativeContourTolerance => vec![Piece::Text("contour tolerance must not be negative")],
        PlanarError::ContourToleranceTooLarge { tolerance, max } => vec![Piece::Text("contour tolerance "), Piece::Signed(*tolerance as i128), Piece::Text(" micrometres exceeds the supported maximum of "), Piece::Signed(*max as i128), Piece::Text(" micrometres")],
        PlanarError::ArtworkExtentTooLarge { width, height, max } => vec![Piece::Text("artwork extent "), Piece::Signed(*width as i128), Piece::Text("x"), Piece::Signed(*height as i128), Piece::Text(" micrometres exceeds the supported maximum of "), Piece::Signed(*max as i128), Piece::Text(" micrometres per axis")],
        PlanarError::BorderDoesNotFitArtwork { width, height, border } => vec![Piece::Text("border width "), Piece::Signed(*border as i128), Piece::Text(" micrometres does not fit inside artwork extent "), Piece::Signed(*width as i128), Piece::Text("x"), Piece::Signed(*height as i128), Piece::Text(" micrometres")],
        PlanarError::ResolutionTooFine { dimension, pixels, extent } => vec![Piece::Unsigned(*pixels as u128), Piece::Text(" "), Piece::Text(dimension_label(*dimension)), Piece::Text(" pixels cannot be represented across "), Piece::Signed(*extent as i128), Piece::Text(" integer micrometres")],
        PlanarError::TooManyAxisIntervals { dimension, required, max } => vec![Piece::Text(dimension_label(*dimension)), Piece::Text(" axis requires "), Piece::Unsigned(*required as u128), Piece::Text(" intervals; the limit is "), Piece::Unsigned(*max as u128)],
        PlanarError::DiagonalContactTooFine { x, y } => vec![Piece::Text("diagonal contact at ("), Piece::Signed(*x as i128), Piece::Text(", "), Piece::Signed(*y as i128), Piece::Text(") cannot be separated on the integer-micrometre grid")],
        PlanarError::TooManyCells { required, max } => vec![Piece::Text("planar processing requires "), Piece::Unsigned(*required as u128), Piece::Text(" cells; the limit is "), Piece::Unsigned(*max as u128)],
        PlanarError::TooManyBoundaryEdges { required, max } => vec![Piece::Text("contour tracing requires "), Piece::Unsigned(*required as u128), Piece::Text(" boundary edges; the limit is "), Piece::Unsigned(*max as u128)],
        PlanarError::MorphologyWorkLimitExceeded { required, max } => vec![Piece::Text("feature cleanup requires "), Piece::Unsigned(*required as u128), Piece::Text(" work units; the limit is "), Piece::Unsigned(*max as u128)],
        PlanarError::HoleContainmentWorkLimitExceeded { required, max } => vec![Piece::Text("hole assignment requires "), Piece::Unsigned(*required as u128), Piece::Text(" work units; the limit is "), Piece::Unsigned(*max as u128)],
        PlanarError::ArithmeticOverflow => vec![Piece::Text("fixed-point planar arithmetic overflowed")],
        PlanarError::InvalidTopology(reason) => vec![Piece::Text("invalid planar topology: "), Piece::Text(*reason)],
    }
}

/// The name of a leaf mesh.
pub open spec fn mesh_part_pieces(value: MeshPart) -> Seq<Piece> {
    match value {
        MeshPart::Substrate => seq![Piece::Text("substrate")],
        MeshPart::Fill(index) => seq![Piece::Text("fill component "), Piece::Unsigned(index as u128)],
    }
}

/// The pieces of the message for `value`.
pub fn mesh_part_piece_list(value: &MeshPart) -> (pieces: Vec<Piece>)
    ensures
        pieces@ == mesh_part_pieces(*value),
{
    match value {
        MeshPart::Substrate => vec![Piece::Text("substrate")],
        MeshPart::Fill(index) => vec![Piece::Text("fill component "), Piece::Unsigned(*index as u128)],
    }
}

/// The message of a mesh-construction error.
pub open spec fn mesh_error_pieces(value: MeshError) -> Seq<Piece> {
    match value {
        MeshError::NonPositiveBackingThickness => seq![Piece::Text("backing thickness must be positive")],
        MeshError::NonPositiveTotalThickness => seq![Piece::Text("total thickness must be positive")],
        MeshError::TotalThicknessNotGreaterThanBacking => seq![Piece::Text("total thickness must be greater than backing thickness")],
        MeshError::ThicknessTooLarge { total, max } => seq![Piece::Text("total thickness "), Piece::Signed(total as i128), Piece::Text(" micrometres exceeds the supported maximum of "), Piece::Signed(max as i128)],
        MeshError::TooManyInputContourVertices { required, max } => seq![Piece::Text("mesh input requires "), Piece::Unsigned(required as u128), Piece::Text(" contour vertices; the limit is "), Piece::Unsigned(max as u128)],
        MeshError::TooManyMeshVertices { required, max } => seq![Piece::Text("mesh construction requires "), Piece::Unsigned(required as u128), Piece::Text(" vertices; the limit is "), Piece::Unsigned(max as u128)],
        MeshError::TooManyMeshTriangles { required, max } => seq![Piece::Text("mesh construction requires "), Piece::Unsigned(required as u128), Piece::Text(" triangles; the limit is "), Piece::Unsigned(max as u128)],
        MeshError::TriangulationWorkLimitExceeded { required, max } => seq![Piece::Text("cap triangulation requires "), Piece::Unsigned(required as u128), Piece::Text(" work units; the limit is "), Piece::Unsigned(max as u128)],
        MeshError::TriangulationFailed(reason) => seq![Piece::Text("cap triangulation failed: "), Piece::Text(reason)],
        MeshError::TriangleIndexOverflow => seq![Piece::Text("mesh vertex index exceeds the u32 range")],
        MeshError::InvalidTriangleIndex { part, triangle, index, vertex_count } => mesh_part_pieces(part) + seq![Piece::Text(" triangle "), Piece::Unsigned(triangle as u128), Piece::Text(" references vertex "), Piece::Unsigned(index as u128), Piece::Text(", but only "), Piece::Unsigned(vertex_count as u128), Piece::Text(" vertices exist")],
        MeshError::DegenerateTriangle { part, triangle } => mesh_part_pieces(part) + seq![Piece::Text(" triangle "), Piece::Unsigned(triangle as u128), Piece::Text(" is degenerate")],
        MeshError::DuplicateTriangle { part, triangle } => mesh_part_pieces(part) + seq![Piece::Text(" triangle "), Piece::Unsigned(triangle as u128), Piece::Text(" duplicates an existing face")],
        MeshError::UnreferencedVertex { part, vertex } => mesh_part_pieces(part) + seq![Piece::Text(" vertex "), Piece::Unsigned(vertex as u128), Piece::Text(" is not referenced")],
        MeshError::NonManifoldEdge { part, first, second, uses, balance } => mesh_part_pieces(part) + seq![Piece::Text(" edge "), Piece::Unsigned(first as u128), Piece::Text("-"), Piece::Unsigned(second as u128), Piece::Text(" has "), Piece::Unsigned(uses as u128), Piece::Text(" incidences and direction balance "), Piece::Signed(balance as i128)],
        MeshError::NonManifoldVertex { part, vertex } => mesh_part_pieces(part) + seq![Piece::Text(" vertex "), Piece::Unsigned(vertex as u128), Piece::Text(" does not have one connected triangle fan")],
        MeshError::DisconnectedMesh { part } => mesh_part_pieces(part) + seq![Piece::Text(" contains disconnected triangle shells")],
        MeshError::VolumeMismatch { part, expected, actual } => mesh_part_pieces(part) + seq![Piece::Text(" signed six-volume is "), Piece::Signed(actual as i128), Piece::Text(", expected "), Piece::Signed(expected as i128)],
        MeshError::CombinedVolumeMismatch { expected, actual } => seq![Piece::Text("combined signed six-volume is "), Piece::Signed(actual as i128), Piece::Text(", expected "), Piece::Signed(expected as i128)],
        MeshError::ArithmeticOverflow => seq![Piece::Text("fixed-point mesh arithmetic overflowed")],
    }
}

/// The pieces of the message for `value`.
pub fn mesh_error_piece_list(value: &MeshError) -> (pieces: Vec<Piece>)
    ensures
        pieces@ == mesh_error_pieces(*value),
{
    match value {
        MeshError::NonPositiveBackingThickness => vec![Piece::Text("backing thickness must be positive")],
        MeshError::NonPositiveTotalThickness => vec![Piece::Text("total thickness must be positive")],
        MeshError::TotalThicknessNotGreaterThanBacking => vec![Piece::Text("total thickness must be greater than backing thickness")],
        MeshError::ThicknessTooLarge { total, max } => vec![Piece::Text("total thickness "), Piece::Signed(*total as i128), Piece::Text(" micrometres exceeds the supported maximum of "), Piece::Signed(*max as i128)],
        MeshError::TooManyInputContourVertices { required, max } => vec![Piece::Text("mesh input requires "), Piece::Unsigned(*required as u128), Piece::Text(" contour vertices; the limit is "), Piece::Unsigned(*max as u128)],
        MeshError::TooManyMeshVertices { required, max } => vec![Piece::Text("mesh construction requires "), Piece::Unsigned(*required as u128), Piece::Text(" vertices; the limit is "), Piece::Unsigned(*max as u128)],
        MeshError::TooManyMeshTriangles { required, max } => vec![Piece::Text("mesh construction requires "), Piece::Unsigned(*required as u128), Piece::Text(" triangles; the limit is "), Piece::Unsigned(*max as u128)],
        MeshError::TriangulationWorkLimitExceeded { required, max } => vec![Piece::Text("cap triangulation requires "), Piece::Unsigned(*required as u128), Piece::Text(" work units; the limit is "), Piece::Unsigned(*max as u128)],
        MeshError::TriangulationFailed(reason) => vec![Piece::Text("cap triangulation failed: "), Piece::Text(*reason)],
        MeshError::TriangleIndexOverflow => vec![Piece::Text("mesh vertex index exceeds the u32 range")],
        MeshError::InvalidTriangleIndex { part, triangle, index, vertex_count } => {
            let mut pieces: Vec<Piece> = Vec::new();
            pieces.append(&mut mesh_part_piece_list(part));
            pieces.append(&mut vec![Piece::Text(" triangle "), Piece::Unsigned(*triangle as u128), Piece::Text(" references vertex "), Piece::Unsigned(*index as u128), Piece::Text(", but only "), Piece::Unsigned(*vertex_count as u128), Piece::Text(" vertices exist")]);
            proof { assert(pieces@ =~= mesh_part_pieces(*part) + seq![Piece::Text(" triangle "), Piece::Unsigned(*triangle as u128), Piece::Text(" references vertex "), Piece::Unsigned(*index as u128), Piece::Text(", but only "), Piece::Unsigned(*vertex_count as u128), Piece::Text(" vertices exist")]); }
            pieces
        },
        MeshError::DegenerateTriangle { part, triangle } => {
            let mut pieces: Vec<Piece> = Vec::new();
            pieces.append(&mut mesh_part_piece_list(part));
            pieces.append(&mut vec![Piece::Text(" triangle "), Piece::Unsigned(*triangle as u128), Piece::Text(" is degenerate")]);
            proof { assert(pieces@ =~= mesh_part_pieces(*part) + seq![Piece::Text(" triangle "), Piece::Unsigned(*triangle as u128), Piece::Text(" is degenerate")]); }
            pieces
        },
        MeshError::DuplicateTriangle { part, triangle } => {
            let mut pieces: Vec<Piece> = Vec::new();
            pieces.append(&mut mesh_part_piece_list(part));
            pieces.append(&mut vec![Piece::Text(" triangle "), Piece::Unsigned(*triangle as u128), Piece::Text(" duplicates an existing face")]);
            proof { assert(pieces@ =~= mesh_part_pieces(*part) + seq![Piece::Text(" triangle "), Piece::Unsigned(*triangle as u128), Piece::Text(" duplicates an existing face")]); }
            pieces
        },
        MeshError::UnreferencedVertex { part, vertex } => {
            let mut pieces: Vec<Piece> = Vec::new();
            pieces.append(&mut mesh_part_piece_list(part));
            pieces.append(&mut vec![Piece::Text(" vertex "), Piece::Unsigned(*vertex as u128), Piece::Text(" is not referenced")]);
            proof { assert(pieces@ =~= mesh_part_pieces(*part) + seq![Piece::Text(" vertex "), Piece::Unsigned(*vertex as u128), Piece::Text(" is not referenced")]); }
            pieces
        },
        MeshError::NonManifoldEdge { part, first, second, uses, balance } => {
            let mut pieces: Vec<Piece> = Vec::new();
            pieces.append(&mut mesh_part_piece_list(part));
            pieces.append(&mut vec![Piece::Text(" edge "), Piece::Unsigned(*first as u128), Piece::Text("-"), Piece::Unsigned(*second as u128), Piece::Text(" has "), Piece::Unsigned(*uses as u128), Piece::Text(" incidences and direction balance "), Piece::Signed(*balance as i128)]);
            proof { assert(pieces@ =~= mesh_part_pieces(*part) + seq![Piece::Text(" edge "), Piece::Unsigned(*first as u128), Piece::Text("-"), Piece::Unsigned(*second as u128), Piece::Text(" has "), Piece::Unsigned(*uses as u128), Piece::Text(" incidences and direction balance "), Piece::Signed(*balance as i128)]); }
            pieces
        },
        MeshError::NonManifoldVertex { part, vertex } => {
            let mut pieces: Vec<Piece> = Vec::new();
            pieces.append(&mut mesh_part_piece_list(part));
            pieces.append(&mut vec![Piece::Text(" vertex "), Piece::Unsigned(*vertex as u128), Piece::Text(" does not have one connected triangle fan")]);
            proof { assert(pieces@ =~= mesh_part_pieces(*part) + seq![Piece::Text(" vertex "), Piece::Unsigned(*vertex as u128), Piece::Text(" does not have one connected triangle fan")]); }
            pieces
        },
        MeshError::DisconnectedMesh { part } => {
            let mut pieces: Vec<Piece> = Vec::new();
            pieces.append(&mut mesh_part_piece_list(part));
            pieces.append(&mut vec![Piece::Text(" contains disconnected triangle shells")]);
            proof { assert(pieces@ =~= mesh_part_pieces(*part) + seq![Piece::Text(" contains disconnected triangle shells")]); }
            pieces
        },
        MeshError::VolumeMismatch { part, expected, actual } => {
            let mut pieces: Vec<Piece> = Vec::new();
            pieces.append(&mut mesh_part_piece_list(part));
            pieces.append(&mut vec![Piece::Text(" signed six-volume is "), Piece::Signed(*actual as i128), Piece::Text(", expected "), Piece::Signed(*expected as i128)]);
            proof { assert(pieces@ =~= mesh_part_pieces(*part) + seq![Piece::Text(" signed six-volume is "), Piece::Signed(*actual as i128), Piece::Text(", expected "), Piece::Signed(*expected as i128)]); }
            pieces
        },
        MeshError::CombinedVolumeMismatch { expected, actual } => vec![Piece::Text("combined signed six-volume is "), Piece::Signed(*actual as i128), Piece::Text(", expected "), Piece::Signed(*expected as i128)],
        MeshError::ArithmeticOverflow => vec![Piece::Text("fixed-point mesh arithmetic overflowed")],
    }
}

/// The message of one job-specification problem.
pub open spec fn validation_issue_pieces(value: ValidationIssue) -> Seq<Piece> {
    match value {
        ValidationIssue::UnsupportedSchemaVersion { found, supported } => seq![Piece::Text("schema_version "), Piece::Unsigned(found as u128), Piece::Text(" is unsupported; expected "), Piece::Unsigned(supported as u128)],
        ValidationIssue::MissingSizeConstraint => seq![Piece::Text("at least one of size.max_width_mm or size.max_height_mm is required")],
        ValidationIssue::NotFinite { field } => seq![Piece::Text(field), Piece::Text(" must be finite")],
        ValidationIssue::MustBePositive { field } => seq![Piece::Text(field), Piece::Text(" must be greater than zero")],
        ValidationIssue::MustBeNonnegative { field } => seq![Piece::Text(field), Piece::Text(" must be zero or greater")],
        ValidationIssue::TooLargeForMicrometers { field } => seq![Piece::Text(field), Piece::Text(" is too large to represent as integer micrometres")],
        ValidationIssue::RoundsToZeroMicrometers { field } => seq![Piece::Text(field), Piece::Text(" must round to at least one integer micrometre")],
        ValidationIssue::TotalThicknessNotGreaterThanBacking => seq![Piece::Text("geometry.total_thickness_mm must be greater than geometry.backing_thickness_mm")],
        ValidationIssue::BorderBelowMinimumFeatureWidth => seq![Piece::Text("a nonzero geometry.border_width_mm must be at least geometry.minimum_feature_width_mm")],
        ValidationIssue::ContourToleranceTooLarge => seq![Piece::Text("geometry.contour_tolerance_mm must not exceed half of geometry.minimum_feature_width_mm")],
        ValidationIssue::RasterResolutionTooCoarse => seq![Piece::Text("raster.mm_per_pixel must not exceed half of geometry.minimum_feature_width_mm")],
        ValidationIssue::BorderDoesNotFit { dimension } => seq![Piece::Text("twice geometry.border_width_mm must be smaller than "), Piece::Text(dimension)],
    }
}

/// The pieces of the message for `value`.
pub fn validation_issue_piece_list(value: &ValidationIssue) -> (pieces: Vec<Piece>)
    ensures
        pieces@ == validation_issue_pieces(*value),
{
    match value {
        ValidationIssue::UnsupportedSchemaVersion { found, supported } => vec![Piece::Text("schema_version "), Piece::Unsigned(*found as u128), Piece::Text(" is unsupported; expected "), Piece::Unsigned(*supported as u128)],
        ValidationIssue::MissingSizeConstraint => vec![Piece::Text("at least one of size.max_width_mm or size.max_height_mm is required")],
        ValidationIssue::NotFinite { field } => vec![Piece::Text(*field), Piece::Text(" must be finite")],
        ValidationIssue::MustBePositive { field } => vec![Piece::Text(*field), Piece::Text(" must be greater than zero")],
        ValidationIssue::MustBeNonnegative { field } => vec![Piece::Text(*field), Piece::Text(" must be zero or greater")],
        ValidationIssue::TooLargeForMicrometers { field } => vec![Piece::Text(*field), Piece::Text(" is too large to represent as integer micrometres")],
        ValidationIssue::RoundsToZeroMicrometers { field } => vec![Piece::Text(*field), Piece::Text(" must round to at least one integer micrometre")],
        ValidationIssue::TotalThicknessNotGreaterThanBacking => vec![Piece::Text("geometry.total_thickness_mm must be greater than geometry.backing_thickness_mm")],
        ValidationIssue::BorderBelowMinimumFeatureWidth => vec![Piece::Text("a nonzero geometry.border_width_mm must be at least geometry.minimum_feature_width_mm")],
        ValidationIssue::ContourToleranceTooLarge => vec![Piece::Text("geometry.contour_tolerance_mm must not exceed half of geometry.minimum_feature_width_mm")],
        ValidationIssue::RasterResolutionTooCoarse => vec![Piece::Text("raster.mm_per_pixel must not exceed half of geometry.minimum_feature_width_mm")],
        ValidationIssue::BorderDoesNotFit { dimension } => vec![Piece::Text("twice geometry.border_width_mm must be smaller than "), Piece::Text(*dimension)],
    }
}

/// The message of a 3MF serialization error.
pub open spec fn export_error_pieces(value: ExportError) -> Seq<Piece> {
    match value {
        ExportError::TooManyObjects { required, max } => seq![Piece::Text("3MF model requires "), Piece::Unsigned(required as u128), Piece::Text(" objects; the limit is "), Piece::Unsigned(max as u128)],
        ExportError::EntryTooLarge { part, required, max } => seq![Piece::Text("3MF package part "), Piece::Text(part), Piece::Text(" requires "), Piece::Unsigned(required as u128), Piece::Text(" bytes; the ZIP32 limit is "), Piece::Unsigned(max as u128)],
        ExportError::PackageTooLarge { required, max } => seq![Piece::Text("3MF package requires "), Piece::Unsigned(required as u128), Piece::Text(" bytes; the ZIP32 limit is "), Piece::Unsigned(max as u128)],
        ExportError::ArithmeticOverflow => seq![Piece::Text("3MF package size arithmetic overflowed")],
    }
}

/// The pieces of the message for `value`.
pub fn export_error_piece_list(value: &ExportError) -> (pieces: Vec<Piece>)
    ensures
        pieces@ == export_error_pieces(*value),
{
    match value {
        ExportError::TooManyObjects { required, max } => vec![Piece::Text("3MF model requires "), Piece::Unsigned(*required as u128), Piece::Text(" objects; the limit is "), Piece::Unsigned(*max as u128)],
        ExportError::EntryTooLarge { part, required, max } => vec![Piece::Text("3MF package part "), Piece::Text(*part), Piece::Text(" requires "), Piece::Unsigned(*required as u128), Piece::Text(" bytes; the ZIP32 limit is "), Piece::Unsigned(*max as u128)],
        ExportError::PackageTooLarge { required, max } => vec![Piece::Text("3MF package requires "), Piece::Unsigned(*required as u128), Piece::Text(" bytes; the ZIP32 limit is "), Piece::Unsigned(*max as u128)],
        ExportError::ArithmeticOverflow => vec![Piece::Text("3MF package size arithmetic overflowed")],
    }
}

/// The message of a renderer-independent PDF rendering refusal.
pub open spec fn pdf_render_error_pieces(value: PdfRenderError) -> Seq<Piece> {
    match value {
        PdfRenderError::UnexpectedPageCount { expected, actual } => seq![Piece::Text("PDF contains "), Piece::Signed(actual as i128), Piece::Text(" pages; expected exactly "), Piece::Signed(expected as i128)],
        PdfRenderError::PixelDimensionOutOfRange { dimension, pixels } => seq![Piece::Text("planned pixel "), Piece::Text(dimension_name(dimension)), Piece::Text(" "), Piece::Unsigned(pixels as u128), Piece::Text(" exceeds Pdfium's signed pixel range")],
        PdfRenderError::RenderedDimensionsMismatch { expected_width, expected_height, actual_width, actual_height } => seq![Piece::Text("Pdfium returned "), Piece::Signed(actual_width as i128), Piece::Text("x"), Piece::Signed(actual_height as i128), Piece::Text(" pixels; expected "), Piece::Unsigned(expected_width as u128), Piece::Text("x"), Piece::Unsigned(expected_height as u128)],
        PdfRenderError::Document(error) => seq![Piece::Text("invalid canonical document: ")] + document_error_pieces(error),
    }
}

/// The pieces of the message for `value`.
pub fn pdf_render_error_piece_list(value: &PdfRenderError) -> (pieces: Vec<Piece>)
    ensures
        pieces@ == pdf_render_error_pieces(*value),
{
    match value {
        PdfRenderError::UnexpectedPageCount { expected, actual } => vec![Piece::Text("PDF contains "), Piece::Signed(*actual as i128), Piece::Text(" pages; expected exactly "), Piece::Signed(*expected as i128)],
        PdfRenderError::PixelDimensionOutOfRange { dimension, pixels } => vec![Piece::Text("planned pixel "), Piece::Text(dimension_label(*dimension)), Piece::Text(" "), Piece::Unsigned(*pixels as u128), Piece::Text(" exceeds Pdfium's signed pixel range")],
        PdfRenderError::RenderedDimensionsMismatch { expected_width, expected_height, actual_width, actual_height } => vec![Piece::Text("Pdfium returned "), Piece::Signed(*actual_width as i128), Piece::Text("x"), Piece::Signed(*actual_height as i128), Piece::Text(" pixels; expected "), Piece::Unsigned(*expected_width as u128), Piece::Text("x"), Piece::Unsigned(*expected_height as u128)],
        PdfRenderError::Document(error) => {
            let mut pieces: Vec<Piece> = Vec::new();
            pieces.append(&mut vec![Piece::Text("invalid canonical document: ")]);
            pieces.append(&mut document_error_piece_list(error));
            proof { assert(pieces@ =~= seq![Piece::Text("invalid canonical document: ")] + document_error_pieces(*error)); }
            pieces
        },
    }
}

/// The message of a pipeline preparation error.
pub open spec fn engine_error_pieces(value: EngineError) -> Seq<Piece> {
    match value {
        EngineError::InvalidJobSpec(errors) => seq![Piece::Text("invalid job specification: ")] + validation_errors_pieces(errors),
        EngineError::InvalidDocumentOptions(error) => seq![Piece::Text("invalid document rendering options: ")] + document_error_pieces(error),
    }
}

/// The pieces of the message for `value`.
pub fn engine_error_piece_list(value: &EngineError) -> (pieces: Vec<Piece>)
    ensures
        pieces@ == engine_error_pieces(*value),
{
    match value {
        EngineError::InvalidJobSpec(errors) => {
            let mut pieces: Vec<Piece> = Vec::new();
            pieces.append(&mut vec![Piece::Text("invalid job specification: ")]);
            pieces.append(&mut validation_errors_piece_list(errors));
            proof { assert(pieces@ =~= seq![Piece::Text("invalid job specification: ")] + validation_errors_pieces(*errors)); }
            pieces
        },
        EngineError::InvalidDocumentOptions(error) => {
            let mut pieces: Vec<Piece> = Vec::new();
            pieces.append(&mut vec![Piece::Text("invalid document rendering options: ")]);
            pieces.append(&mut document_error_piece_list(error));
            proof { assert(pieces@ =~= seq![Piece::Text("invalid document rendering options: ")] + document_error_pieces(*error)); }
            pieces
        },
    }
}

impl Dimension {
    /// The dimension's name.
    pub fn message(&self) -> (text: String)
        ensures
            text@ == pieces_text(seq![Piece::Text(dimension_name(*self))]),
    {
        let name = dimension_label(*self);
        let pieces: Vec<Piece> = vec![Piece::Text(name)];
        assert(pieces@ =~= seq![Piece::Text(dimension_name(*self))]);
        render(&pieces)
    }
}

impl DocumentError {
    /// A human-readable description of the error.
    pub fn message(&self) -> (text: String)
        ensures
            text@ == pieces_text(document_error_pieces(*self)),
    {
        render(&document_error_piece_list(self))
    }
}

impl PlanarError {
    /// A human-readable description of the error.
    pub fn message(&self) -> (text: String)
        ensures
            text@ == pieces_text(planar_error_pieces(*self)),
    {
        render(&planar_error_piece_list(self))
    }
}

impl MeshPart {
    /// The leaf mesh's name.
    pub fn message(&self) -> (text: String)
        ensures
            text@ == pieces_text(mesh_part_pieces(*self)),
    {
        render(&mesh_part_piece_list(self))
    }
}

impl MeshError {
    /// A human-readable description of the error.
    pub fn message(&self) -> (text: String)
        ensures
            text@ == pieces_text(mesh_error_pieces(*self)),
    {
        render(&mesh_error_piece_list(self))
    }
}

impl ValidationIssue {
    /// A human-readable description of the problem.
    pub fn message(&self) -> (text: String)
        ensures
            text@ == pieces_text(validation_issue_pieces(*self)),
    {
        render(&validation_issue_piece_list(self))
    }
}

impl ValidationErrors {
    /// The number of problems followed by each problem's description.
    pub fn message(&self) -> (text: String)
        ensures
            text@ == pieces_text(validation_errors_pieces(*self)),
    {
        render(&validation_errors_piece_list(self))
    }
}

impl ExportError {
    /// A human-readable description of the error.
    pub fn message(&self) -> (text: String)
        ensures
            text@ == pieces_text(export_error_pieces(*self)),
    {
        render(&export_error_piece_list(self))
    }
}

impl PdfRenderError {
    /// A human-readable description of the refusal.
    pub fn message(&self) -> (text: String)
        ensures
            text@ == pieces_text(pdf_render_error_pieces(*self)),
    {
        render(&pdf_render_error_piece_list(self))
    }
}

impl EngineError {
    /// A human-readable description of the error.
    pub fn message(&self) -> (text: String)
        ensures
            text@ == pieces_text(engine_error_pieces(*self)),
    {
        render(&engine_error_piece_list(self))
    }
}

} // verus!
