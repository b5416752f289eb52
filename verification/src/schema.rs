//! The description of one field in the data descriptive record: its field
//! controls, its name, and the names and descriptors of its subfields.

use crate::catalog::{in_context, prepend, DirectoryEntry, DirectoryEntryView, UNIT_SEPARATOR};
use crate::data_parser::{parse_token, token_result, ParseData};
use crate::error::{Error, ErrorKind, KindView};
use crate::span::{lemma_utf8_split, split, split_bytes};
use crate::text::{outcome, parse_to_string, string_of, utf8_str};
use vstd::prelude::*;
use vstd::slice::slice_subrange;
use vstd::string::*;
use vstd::utf8::*;

verus! {

/// How the data of a field is structured.
#[derive(Debug, PartialEq, Eq, Clone, Copy, Structural)]
pub enum DataStructureCode {
    /// Single data item.
    SDI,
    /// Linear structure.
    LS,
    /// Multi-dimensional structure.
    MDS,
}

/// The type of the data of a field.
#[derive(Debug, PartialEq, Eq, Clone, Copy, Structural)]
pub enum DataTypeCode {
    /// Character string.
    CS,
    /// Implicit point.
    IP,
    /// Explicit point.
    EP,
    /// Binary form.
    BF,
    /// Mixed data types.
    MDT,
}

/// The truncated escape sequence of a field: the lexical level of its text.
#[derive(Debug, PartialEq, Eq, Clone, Copy, Structural)]
pub enum TruncEscSeq {
    /// Lexical level 0.
    LE0,
    /// Lexical level 1.
    LE1,
    /// Lexical level 2.
    LE2,
}

impl DeepView for DataStructureCode {
    type V = DataStructureCode;

    open spec fn deep_view(&self) -> DataStructureCode {
        *self
    }
}

impl DeepView for DataTypeCode {
    type V = DataTypeCode;

    open spec fn deep_view(&self) -> DataTypeCode {
        *self
    }
}

impl DeepView for TruncEscSeq {
    type V = TruncEscSeq;

    open spec fn deep_view(&self) -> TruncEscSeq {
        *self
    }
}

/// The data structure code that the text `s` stands for: `0`, `1` or `2`.
pub open spec fn structure_code(s: Seq<u8>) -> Option<DataStructureCode> {
    if s == seq![0x30u8] {
        Some(DataStructureCode::SDI)
    } else if s == seq![0x31u8] {
        Some(DataStructureCode::LS)
    } else if s == seq![0x32u8] {
        Some(DataStructureCode::MDS)
    } else {
        None
    }
}

/// The data type code that the text `s` stands for: `0`, `1`, `2`, `5` or `6`.
pub open spec fn type_code(s: Seq<u8>) -> Option<DataTypeCode> {
    if s == seq![0x30u8] {
        Some(DataTypeCode::CS)
    } else if s == seq![0x31u8] {
        Some(DataTypeCode::IP)
    } else if s == seq![0x32u8] {
        Some(DataTypeCode::EP)
    } else if s == seq![0x35u8] {
        Some(DataTypeCode::BF)
    } else if s == seq![0x36u8] {
        Some(DataTypeCode::MDT)
    } else {
        None
    }
}

/// The truncated escape sequence that the text `s` stands for: three blanks,
/// `-A ` or `%/A`.
pub open spec fn escape_code(s: Seq<u8>) -> Option<TruncEscSeq> {
    if s == seq![0x20u8, 0x20, 0x20] {
        Some(TruncEscSeq::LE0)
    } else if s == seq![0x2du8, 0x41, 0x20] {
        Some(TruncEscSeq::LE1)
    } else if s == seq![0x25u8, 0x2f, 0x41] {
        Some(TruncEscSeq::LE2)
    } else {
        None
    }
}

impl DataStructureCode {
    /// Decodes a data structure code. Any other text is rejected by name.
    pub fn from_str(value: &str) -> (r: Result<DataStructureCode, Error>)
        ensures
            outcome(r) == match structure_code(value.spec_bytes()) {
                Some(c) => Ok(c),
                None => Err(seq![KindView::BadDataStructureCode(value@)]),
            },
    {
        let b = value.as_bytes();
        if b.len() == 1 && b[0] == 0x30 {
            assert(b@ =~= seq![0x30u8]);
            Ok(DataStructureCode::SDI)
        } else if b.len() == 1 && b[0] == 0x31 {
            assert(b@ =~= seq![0x31u8]);
            Ok(DataStructureCode::LS)
        } else if b.len() == 1 && b[0] == 0x32 {
            assert(b@ =~= seq![0x32u8]);
            Ok(DataStructureCode::MDS)
        } else {
            assert(structure_code(b@) is None) by {
                if b@.len() == 1 {
                    assert(seq![0x30u8][0] == 0x30 && seq![0x31u8][0] == 0x31 && seq![0x32u8][0]
                        == 0x32);
                }
            }
            Err(Error::new(ErrorKind::BadDataStructureCode(value.to_owned())))
        }
    }
}

impl DataTypeCode {
    /// Decodes a data type code. Any other text is rejected by name.
    pub fn from_str(value: &str) -> (r: Result<DataTypeCode, Error>)
        ensures
            outcome(r) == match type_code(value.spec_bytes()) {
                Some(c) => Ok(c),
                None => Err(seq![KindView::BadDataTypeCode(value@)]),
            },
    {
        let b = value.as_bytes();
        if b.len() == 1 && b[0] == 0x30 {
            assert(b@ =~= seq![0x30u8]);
            Ok(DataTypeCode::CS)
        } else if b.len() == 1 && b[0] == 0x31 {
            assert(b@ =~= seq![0x31u8]);
            Ok(DataTypeCode::IP)
        } else if b.len() == 1 && b[0] == 0x32 {
            assert(b@ =~= seq![0x32u8]);
            Ok(DataTypeCode::EP)
        } else if b.len() == 1 && b[0] == 0x35 {
            assert(b@ =~= seq![0x35u8]);
            Ok(DataTypeCode::BF)
        } else if b.len() == 1 && b[0] == 0x36 {
            assert(b@ =~= seq![0x36u8]);
            Ok(DataTypeCode::MDT)
        } else {
            assert(type_code(b@) is None) by {
                if b@.len() == 1 {
                    assert(seq![0x30u8][0] == 0x30 && seq![0x31u8][0] == 0x31 && seq![0x32u8][0]
                        == 0x32 && seq![0x35u8][0] == 0x35 && seq![0x36u8][0] == 0x36);
                }
            }
            Err(Error::new(ErrorKind::BadDataTypeCode(value.to_owned())))
        }
    }
}

impl TruncEscSeq {
    /// Decodes a truncated escape sequence. Any other text is rejected by name.
    pub fn from_str(value: &str) -> (r: Result<TruncEscSeq, Error>)
        ensures
            outcome(r) == match escape_code(value.spec_bytes()) {
                Some(c) => Ok(c),
                None => Err(seq![KindView::BadTruncEscSeq(value@)]),
            },
    {
        let b = value.as_bytes();
        if b.len() == 3 && b[0] == 0x20 && b[1] == 0x20 && b[2] == 0x20 {
            assert(b@ =~= seq![0x20u8, 0x20, 0x20]);
            Ok(TruncEscSeq::LE0)
        } else if b.len() == 3 && b[0] == 0x2d && b[1] == 0x41 && b[2] == 0x20 {
            assert(b@ =~= seq![0x2du8, 0x41, 0x20]);
            Ok(TruncEscSeq::LE1)
        } else if b.len() == 3 && b[0] == 0x25 && b[1] == 0x2f && b[2] == 0x41 {
            assert(b@ =~= seq![0x25u8, 0x2f, 0x41]);
            Ok(TruncEscSeq::LE2)
        } else {
            assert(escape_code(b@) is None) by {
                if b@.len() == 3 {
                    let l0 = seq![0x20u8, 0x20, 0x20];
                    let l1 = seq![0x2du8, 0x41, 0x20];
                    let l2 = seq![0x25u8, 0x2f, 0x41];
                    assert(l0[0] == 0x20 && l0[1] == 0x20 && l0[2] == 0x20);
                    assert(l1[0] == 0x2d && l1[1] == 0x41 && l1[2] == 0x20);
                    assert(l2[0] == 0x25 && l2[1] == 0x2f && l2[2] == 0x41);
                }
            }
            Err(Error::new(ErrorKind::BadTruncEscSeq(value.to_owned())))
        }
    }
}

/// The controls at the start of a field's description.
#[derive(Debug, PartialEq)]
pub struct FieldControls {
    /// Data structure code.
    pub dsc: DataStructureCode,
    /// Data type code.
    pub dtc: DataTypeCode,
    /// Auxiliary controls.
    pub aux: String,
    /// Printable graphics.
    pub prt: String,
    /// Truncated escape sequence.
    pub tes: TruncEscSeq,
}

/// The mathematical value of a [`FieldControls`].
pub struct FieldControlsView {
    pub dsc: DataStructureCode,
    pub dtc: DataTypeCode,
    pub aux: Seq<char>,
    pub prt: Seq<char>,
    pub tes: TruncEscSeq,
}

impl View for FieldControls {
    type V = FieldControlsView;

    open spec fn view(&self) -> FieldControlsView {
        FieldControlsView {
            dsc: self.dsc,
            dtc: self.dtc,
            aux: self.aux@,
            prt: self.prt@,
            tes: self.tes,
        }
    }
}

impl DeepView for FieldControls {
    type V = FieldControlsView;

    open spec fn deep_view(&self) -> FieldControlsView {
        self@
    }
}

/// A code of the field controls: the text must be UTF-8, and a text that the
/// code table does not hold is a bad field control, with `bad` as its cause.
pub open spec fn coded<T>(s: Seq<u8>, code: Option<T>, bad: KindView) -> Result<T, Seq<KindView>> {
    if !valid_utf8(s) {
        Err(seq![KindView::UtfError])
    } else {
        match code {
            Some(c) => Ok(c),
            None => Err(seq![KindView::BadFieldControl, bad]),
        }
    }
}

/// The field controls that `b` holds: one byte of data structure code, one of
/// data type code, two of auxiliary controls, two of printable graphics, and
/// the rest as truncated escape sequence. Fewer than six bytes hold none.
pub open spec fn field_controls_of(b: Seq<u8>) -> Result<FieldControlsView, Seq<KindView>> {
    let s0 = b.subrange(0, 1);
    let s1 = b.subrange(1, 2);
    let s6 = b.subrange(6, b.len() as int);
    if b.len() < 6 {
        Err(seq![KindView::BadFieldControl])
    } else {
        match coded(s0, structure_code(s0), KindView::BadDataStructureCode(decode_utf8(s0))) {
            Err(e) => Err(e),
            Ok(dsc) => match coded(s1, type_code(s1), KindView::BadDataTypeCode(decode_utf8(s1))) {
                Err(e) => Err(e),
                Ok(dtc) => match string_of(b.subrange(2, 4)) {
                    Err(e) => Err(e),
                    Ok(aux) => match string_of(b.subrange(4, 6)) {
                        Err(e) => Err(e),
                        Ok(prt) => match coded(
                            s6,
                            escape_code(s6),
                            KindView::BadTruncEscSeq(decode_utf8(s6)),
                        ) {
                            Err(e) => Err(e),
                            Ok(tes) => Ok(FieldControlsView { dsc, dtc, aux, prt, tes }),
                        },
                    },
                },
            },
        }
    }
}

/// Decodes the field controls at the start of a field's description.
pub fn parse_field_controls(byte: &[u8]) -> (r: Result<FieldControls, Error>)
    ensures
        outcome(r) == field_controls_of(byte@),
{
    if byte.len() < 6 {
        return Err(Error::new(ErrorKind::BadFieldControl));
    }
    let dsc = match utf8_str(slice_subrange(byte, 0, 1)) {
        None => {
            return Err(Error::new(ErrorKind::UtfError));
        },
        Some(text) => match DataStructureCode::from_str(text) {
            Ok(c) => c,
            Err(e) => {
                let ghost cause = e@;
                let wrapped = e.context(ErrorKind::BadFieldControl);
                assert(wrapped@ =~= seq![KindView::BadFieldControl, cause[0]]);
                return Err(wrapped);
            },
        },
    };
    let dtc = match utf8_str(slice_subrange(byte, 1, 2)) {
        None => {
            return Err(Error::new(ErrorKind::UtfError));
        },
        Some(text) => match DataTypeCode::from_str(text) {
            Ok(c) => c,
            Err(e) => {
                let ghost cause = e@;
                let wrapped = e.context(ErrorKind::BadFieldControl);
                assert(wrapped@ =~= seq![KindView::BadFieldControl, cause[0]]);
                return Err(wrapped);
            },
        },
    };
    let aux = match parse_to_string(slice_subrange(byte, 2, 4)) {
        Ok(v) => v,
        Err(e) => {
            return Err(e);
        },
    };
    let prt = match parse_to_string(slice_subrange(byte, 4, 6)) {
        Ok(v) => v,
        Err(e) => {
            return Err(e);
        },
    };
    let tes = match utf8_str(slice_subrange(byte, 6, byte.len())) {
        None => {
            return Err(Error::new(ErrorKind::UtfError));
        },
        Some(text) => match TruncEscSeq::from_str(text) {
            Ok(c) => c,
            Err(e) => {
                let ghost cause = e@;
                let wrapped = e.context(ErrorKind::BadFieldControl);
                assert(wrapped@ =~= seq![KindView::BadFieldControl, cause[0]]);
                return Err(wrapped);
            },
        },
    };
    Ok(FieldControls { dsc, dtc, aux, prt, tes })
}

/// The name that stands for the unnamed subfield of a record identifier.
pub open spec fn record_id_name() -> Seq<char> {
    seq!['D', 'R', 'I', 'D']
}

/// The texts that byte spans hold.
pub open spec fn texts_of(pieces: Seq<Seq<u8>>) -> Seq<Seq<char>> {
    Seq::new(pieces.len(), |i: int| decode_utf8(pieces[i]))
}

/// The subfield names that an array descriptor holds: its texts between `!`.
/// An empty descriptor holds the one name `DRID`.
pub open spec fn array_descriptors_of(b: Seq<u8>) -> Result<Seq<Seq<char>>, Seq<KindView>> {
    if b.len() == 0 {
        Ok(seq![record_id_name()])
    } else if !valid_utf8(b) {
        Err(seq![KindView::UtfError])
    } else {
        Ok(texts_of(split(b, 0x21)))
    }
}

/// Decodes the array descriptor of a field: the names of its subfields.
pub fn parse_array_descriptors(byte: &[u8]) -> (r: Result<Vec<String>, Error>)
    ensures
        outcome(r) == array_descriptors_of(byte@),
{
    if byte.len() == 0 {
        let name = "DRID".to_owned();
        proof {
            reveal_strlit("DRID");
            assert(name@ =~= record_id_name());
        }
        let names = vec![name];
        assert(names.deep_view() =~= seq![record_id_name()]);
        return Ok(names);
    }
    if utf8_str(byte).is_none() {
        return Err(Error::new(ErrorKind::UtfError));
    }
    let pieces = split_bytes(byte, 0x21);
    proof {
        lemma_utf8_split(byte@, 0x21);
    }
    let mut names: Vec<String> = Vec::new();
    let mut i: usize = 0;
    while i < pieces.len()
        invariant
            i <= pieces.len(),
            crate::span::spans(pieces@) == split(byte@, 0x21),
            forall|k: int|
                0 <= k < split(byte@, 0x21).len() ==> valid_utf8(#[trigger] split(byte@, 0x21)[k]),
            names.deep_view() == texts_of(split(byte@, 0x21)).take(i as int),
        decreases pieces.len() - i,
    {
        let piece = pieces[i];
        assert(piece@ == crate::span::spans(pieces@)[i as int]);
        let ghost before = names.deep_view();
        match parse_to_string(piece) {
            Ok(name) => {
                names.push(name);
                assert(names.deep_view() =~= before.push(name@));
            },
            Err(e) => {
                return Err(e);
            },
        }
        proof {
            let all = texts_of(split(byte@, 0x21));
            assert(all.take(i + 1) =~= all.take(i as int).push(all[i as int]));
        }
        i = i + 1;
    }
    proof {
        let all = texts_of(split(byte@, 0x21));
        assert(all.take(all.len() as int) =~= all);
    }
    Ok(names)
}

/// The descriptor `d`, `n` times.
pub open spec fn repeat(n: nat, d: ParseData) -> Seq<ParseData> {
    Seq::new(n, |i: int| d)
}

/// The descriptors that format-control tokens declare, each as often as its
/// count says, in order; or the error of the first token that is none.
pub open spec fn descriptors_of(pieces: Seq<Seq<u8>>) -> Result<Seq<ParseData>, Seq<KindView>>
    decreases pieces.len(),
{
    if pieces.len() == 0 {
        Ok(Seq::empty())
    } else {
        match token_result(pieces[0]) {
            Err(e) => Err(e),
            Ok((n, d)) => prepend(repeat(n as nat, d), descriptors_of(pieces.skip(1))),
        }
    }
}

/// The subfield descriptors that a format-control string declares: the
/// tokens between its first and last byte, separated by commas. A string of
/// fewer than two bytes holds no format controls.
pub open spec fn format_controls_of(b: Seq<u8>) -> Result<Seq<ParseData>, Seq<KindView>> {
    let inner = b.subrange(1, b.len() - 1);
    if b.len() < 2 {
        Err(seq![KindView::EmptyFormatControls])
    } else if !valid_utf8(inner) {
        Err(seq![KindView::UtfError])
    } else {
        descriptors_of(split(inner, 0x2c))
    }
}

/// Decodes the format controls of a field: the descriptors of its subfields.
pub fn parse_format_controls(byte: &[u8]) -> (r: Result<Vec<ParseData>, Error>)
    ensures
        outcome(r) == format_controls_of(byte@),
        byte@.len() < 2 ==> r is Err && r->Err_0@ == seq![KindView::EmptyFormatControls],
{
    if byte.len() < 2 {
        return Err(Error::new(ErrorKind::EmptyFormatControls));
    }
    let inner = slice_subrange(byte, 1, byte.len() - 1);
    if utf8_str(inner).is_none() {
        return Err(Error::new(ErrorKind::UtfError));
    }
    let pieces = split_bytes(inner, 0x2c);
    let ghost all = split(inner@, 0x2c);
    proof {
        lemma_utf8_split(inner@, 0x2c);
        assert(all.skip(0) =~= all);
    }
    let mut specs: Vec<ParseData> = Vec::new();
    let mut i: usize = 0;
    while i < pieces.len()
        invariant
            i <= pieces.len(),
            byte@.len() >= 2,
            valid_utf8(byte@.subrange(1, byte@.len() - 1)),
            all == split(byte@.subrange(1, byte@.len() - 1), 0x2c),
            crate::span::spans(pieces@) == all,
            forall|k: int| 0 <= k < all.len() ==> valid_utf8(#[trigger] all[k]),
            descriptors_of(all) == prepend(specs@, descriptors_of(all.skip(i as int))),
        decreases pieces.len() - i,
    {
        let piece = pieces[i];
        proof {
            assert(piece@ == crate::span::spans(pieces@)[i as int]);
            assert(all.skip(i as int)[0] == all[i as int]);
            assert(all.skip(i as int).skip(1) =~= all.skip(i + 1));
        }
        match parse_token(piece) {
            None => {
                match parse_to_string(piece) {
                    Ok(text) => {
                        return Err(Error::new(ErrorKind::UnParsableFormatControl(text)));
                    },
                    Err(e) => {
                        return Err(e);
                    },
                }
            },
            Some((count, d)) => {
                let ghost before = specs@;
                let mut j: usize = 0;
                while j < count
                    invariant
                        j <= count,
                        specs@ == before + repeat(j as nat, d),
                    decreases count - j,
                {
                    specs.push(d);
                    assert(specs@ =~= before + repeat((j + 1) as nat, d));
                    j = j + 1;
                }
                proof {
                    match descriptors_of(all.skip(i + 1)) {
                        Ok(v) => {
                            assert(before + (repeat(count as nat, d) + v) =~= (before + repeat(
                                count as nat,
                                d,
                            )) + v);
                        },
                        Err(_) => {},
                    }
                }
            },
        }
        i = i + 1;
    }
    proof {
        assert(specs@ + Seq::<ParseData>::empty() =~= specs@);
        assert(specs.deep_view() =~= specs@);
    }
    Ok(specs)
}

/// The description of one field: its controls, its name, and for each of its
/// subfields the name and the descriptor.
#[derive(Debug, PartialEq)]
pub struct DDFEntry {
    /// Field controls.
    pub fic: FieldControls,
    /// The name of the field.
    pub name: String,
    /// The subfields, in the order in which they are stored.
    pub foc: Vec<(String, ParseData)>,
}

/// The mathematical value of a [`DDFEntry`].
pub struct DDFEntryView {
    pub fic: FieldControlsView,
    pub name: Seq<char>,
    pub foc: Seq<(Seq<char>, ParseData)>,
}

impl View for DDFEntry {
    type V = DDFEntryView;

    open spec fn view(&self) -> DDFEntryView {
        DDFEntryView { fic: self.fic@, name: self.name@, foc: self.foc.deep_view() }
    }
}

impl DeepView for DDFEntry {
    type V = DDFEntryView;

    open spec fn deep_view(&self) -> DDFEntryView {
        self@
    }
}

/// Each name with the descriptor at the same place.
pub open spec fn paired(names: Seq<Seq<char>>, specs: Seq<ParseData>) -> Seq<
    (Seq<char>, ParseData),
> {
    Seq::new(names.len(), |i: int| (names[i], specs[i]))
}

/// The description that the bytes of one field hold, its terminator left
/// out. The bytes are three parts between unit separators: field controls
/// and name, array descriptor, format controls; further parts are not looked
/// at. There must be as many names as descriptors.
pub open spec fn ddf_of(b: Seq<u8>) -> Result<DDFEntryView, Seq<KindView>> {
    let parts = split(b, UNIT_SEPARATOR);
    if parts[0].len() < 9 {
        Err(seq![KindView::InvalidHeader])
    } else {
        match string_of(parts[0].skip(9)) {
            Err(e) => Err(seq![KindView::CouldNotParseName] + e),
            Ok(name) => {
                let invalid = KindView::InvalidDDF(name);
                match field_controls_of(parts[0].take(9)) {
                    Err(e) => Err(seq![invalid] + e),
                    Ok(fic) => if parts.len() < 2 {
                        Err(seq![invalid])
                    } else {
                        match array_descriptors_of(parts[1]) {
                            Err(e) => Err(seq![invalid] + e),
                            Ok(names) => if parts.len() < 3 {
                                Err(seq![invalid])
                            } else {
                                match format_controls_of(parts[2]) {
                                    Err(e) => Err(seq![invalid] + e),
                                    Ok(specs) => if names.len() == specs.len() {
                                        Ok(DDFEntryView { fic, name, foc: paired(names, specs) })
                                    } else {
                                        Err(seq![invalid])
                                    },
                                }
                            },
                        }
                    },
                }
            },
        }
    }
}

/// The subfield names that a field's bytes declare: what the second part
/// between unit separators holds.
pub open spec fn declared_names(b: Seq<u8>) -> Option<Seq<Seq<char>>> {
    let parts = split(b, UNIT_SEPARATOR);
    if parts.len() >= 2 && array_descriptors_of(parts[1]) is Ok {
        Some(array_descriptors_of(parts[1])->Ok_0)
    } else {
        None
    }
}

/// The subfield descriptors that a field's bytes declare: what the third
/// part between unit separators holds.
pub open spec fn declared_specs(b: Seq<u8>) -> Option<Seq<ParseData>> {
    let parts = split(b, UNIT_SEPARATOR);
    if parts.len() >= 3 && format_controls_of(parts[2]) is Ok {
        Some(format_controls_of(parts[2])->Ok_0)
    } else {
        None
    }
}

/// A field's description holds one subfield for every name and every
/// descriptor that its bytes declare: nothing is cut off and nothing filled
/// in.
pub proof fn lemma_ddf_counts(b: Seq<u8>)
    requires
        ddf_of(b) is Ok,
    ensures
        declared_names(b) is Some,
        declared_specs(b) is Some,
        declared_names(b)->0.len() == declared_specs(b)->0.len(),
        ddf_of(b)->Ok_0.foc == paired(declared_names(b)->0, declared_specs(b)->0),
        ddf_of(b)->Ok_0.foc.len() == declared_names(b)->0.len(),
{
}

/// Where a field declares another number of names than of descriptors, it
/// has no description: nothing is cut off and nothing filled in. Where its
/// name can be read, the error names the field, and where its controls
/// decode too, that is the whole error.
pub proof fn lemma_ddf_mismatch(b: Seq<u8>)
    requires
        declared_names(b) is Some,
        declared_specs(b) is Some,
        declared_names(b)->0.len() != declared_specs(b)->0.len(),
    ensures
        ddf_of(b) is Err,
        ({
            let head = split(b, UNIT_SEPARATOR)[0];
            let name = string_of(head.skip(9));
            &&& head.len() >= 9 && name is Ok ==> ddf_of(b)->Err_0[0] == KindView::InvalidDDF(
                name->Ok_0,
            )
            &&& head.len() >= 9 && name is Ok && field_controls_of(head.take(9)) is Ok ==> ddf_of(
                b,
            )->Err_0 == seq![KindView::InvalidDDF(name->Ok_0)]
        }),
{
}

/// Decodes the description of one field from its bytes, terminator left out.
pub fn parse_ddf(byte: &[u8]) -> (r: Result<DDFEntry, Error>)
    ensures
        outcome(r) == ddf_of(byte@),
{
    let parts = split_bytes(byte, UNIT_SEPARATOR);
    let ghost all = split(byte@, UNIT_SEPARATOR);
    let head = parts[0];
    assert(head@ == crate::span::spans(parts@)[0]);
    if head.len() < 9 {
        return Err(Error::new(ErrorKind::InvalidHeader));
    }
    let fic_bytes = slice_subrange(head, 0, 9);
    let name_bytes = slice_subrange(head, 9, head.len());
    assert(fic_bytes@ =~= all[0].take(9));
    assert(name_bytes@ =~= all[0].skip(9));
    let name = match parse_to_string(name_bytes) {
        Ok(v) => v,
        Err(e) => {
            return Err(e.context(ErrorKind::CouldNotParseName));
        },
    };
    let fic = match parse_field_controls(fic_bytes) {
        Ok(v) => v,
        Err(e) => {
            return Err(e.context(ErrorKind::InvalidDDF(name.clone())));
        },
    };
    if parts.len() < 2 {
        return Err(Error::new(ErrorKind::InvalidDDF(name.clone())));
    }
    assert(parts[1]@ == crate::span::spans(parts@)[1]);
    let array_desc = match parse_array_descriptors(parts[1]) {
        Ok(v) => v,
        Err(e) => {
            return Err(e.context(ErrorKind::InvalidDDF(name.clone())));
        },
    };
    if parts.len() < 3 {
        return Err(Error::new(ErrorKind::InvalidDDF(name.clone())));
    }
    assert(parts[2]@ == crate::span::spans(parts@)[2]);
    let data_parser = match parse_format_controls(parts[2]) {
        Ok(v) => v,
        Err(e) => {
            return Err(e.context(ErrorKind::InvalidDDF(name.clone())));
        },
    };
    if array_desc.len() != data_parser.len() {
        return Err(Error::new(ErrorKind::InvalidDDF(name.clone())));
    }
    let ghost names = array_desc.deep_view();
    let ghost specs = data_parser.deep_view();
    let mut foc: Vec<(String, ParseData)> = Vec::new();
    let mut i: usize = 0;
    while i < array_desc.len()
        invariant
            i <= array_desc.len(),
            array_desc.len() == data_parser.len(),
            names == array_desc.deep_view(),
            specs == data_parser.deep_view(),
            foc.deep_view() == paired(names, specs).take(i as int),
        decreases array_desc.len() - i,
    {
        let ghost before = foc.deep_view();
        let pair = (array_desc[i].clone(), data_parser[i]);
        foc.push(pair);
        proof {
            assert(foc.deep_view() =~= before.push(pair.deep_view()));
            let all_pairs = paired(names, specs);
            assert(all_pairs.take(i + 1) =~= all_pairs.take(i as int).push(all_pairs[i as int]));
        }
        i = i + 1;
    }
    proof {
        let all_pairs = paired(names, specs);
        assert(all_pairs.take(all_pairs.len() as int) =~= all_pairs);
    }
    Ok(DDFEntry { fic, name, foc })
}

/// The bytes of the field that a directory entry points at, its terminator
/// left out; `None` where the entry points outside the field area.
pub open spec fn field_span(area: Seq<u8>, e: DirectoryEntryView) -> Option<Seq<u8>> {
    if e.length >= 1 && e.offset + e.length - 1 <= area.len() {
        Some(area.subrange(e.offset as int, e.offset + e.length - 1))
    } else {
        None
    }
}

/// The description of the field that a directory entry points at.
pub open spec fn ddf_at(area: Seq<u8>, e: DirectoryEntryView) -> Result<
    DDFEntryView,
    Seq<KindView>,
> {
    match field_span(area, e) {
        None => Err(seq![KindView::InvalidDDFS, KindView::BadDirectoryData]),
        Some(s) => in_context(KindView::InvalidDDFS, ddf_of(s)),
    }
}

/// The descriptions of the fields that the entries point at, in order, or
/// the error of the first that has none.
pub open spec fn ddfs_from(area: Seq<u8>, dirs: Seq<DirectoryEntryView>) -> Result<
    Seq<DDFEntryView>,
    Seq<KindView>,
>
    decreases dirs.len(),
{
    if dirs.len() == 0 {
        Ok(Seq::empty())
    } else {
        match ddf_at(area, dirs[0]) {
            Err(e) => Err(e),
            Ok(x) => prepend(seq![x], ddfs_from(area, dirs.skip(1))),
        }
    }
}

/// The field descriptions of a data descriptive record: one for every
/// directory entry but the first, which stands for the file control field.
pub open spec fn ddfs_of(area: Seq<u8>, dirs: Seq<DirectoryEntryView>) -> Result<
    Seq<DDFEntryView>,
    Seq<KindView>,
> {
    if dirs.len() == 0 {
        Ok(Seq::empty())
    } else {
        ddfs_from(area, dirs.skip(1))
    }
}

/// There are as many field descriptions as entries they were decoded from.
pub proof fn lemma_ddfs_len(area: Seq<u8>, dirs: Seq<DirectoryEntryView>)
    ensures
        ddfs_from(area, dirs) matches Ok(v) ==> v.len() == dirs.len(),
        dirs.len() >= 1 ==> (ddfs_of(area, dirs) matches Ok(v) ==> v.len() == dirs.len() - 1),
    decreases dirs.len(),
{
    if dirs.len() > 0 {
        lemma_ddfs_len(area, dirs.skip(1));
    }
}

/// Cuts the field that a directory entry points at out of the field area.
pub fn field_bytes<'a>(area: &'a [u8], entry: &DirectoryEntry) -> (r: Option<&'a [u8]>)
    ensures
        match r {
            Some(s) => field_span(area@, entry@) == Some(s@),
            None => field_span(area@, entry@) is None,
        },
{
    if entry.length == 0 || entry.offset > area.len() || entry.length - 1 > area.len()
        - entry.offset {
        None
    } else {
        Some(slice_subrange(area, entry.offset, entry.offset + (entry.length - 1)))
    }
}

/// Decodes the field descriptions of a data descriptive record from its
/// field area and its directory.
pub fn parse_ddfs(byte: &[u8], dirs: &[DirectoryEntry]) -> (r: Result<Vec<DDFEntry>, Error>)
    ensures
        outcome(r) == ddfs_of(byte@, dirs.deep_view()),
        r matches Ok(v) ==> v.len() + 1 == dirs.len() || (v.len() == 0 && dirs.len() == 0),
{
    let mut ddfs: Vec<DDFEntry> = Vec::new();
    if dirs.len() == 0 {
        assert(ddfs.deep_view() =~= Seq::<DDFEntryView>::empty());
        return Ok(ddfs);
    }
    let ghost entries = dirs.deep_view();
    let mut i: usize = 1;
    while i < dirs.len()
        invariant
            1 <= i <= dirs.len(),
            entries == dirs.deep_view(),
            ddfs.len() + 1 == i,
            ddfs_from(byte@, entries.skip(1)) == prepend(
                ddfs.deep_view(),
                ddfs_from(byte@, entries.skip(i as int)),
            ),
        decreases dirs.len() - i,
    {
        let dir = &dirs[i];
        proof {
            assert(entries.skip(i as int)[0] == dir@);
            assert(entries.skip(i as int).skip(1) =~= entries.skip(i + 1));
        }
        let ghost before = ddfs.deep_view();
        let field = match field_bytes(byte, dir) {
            Some(s) => s,
            None => {
                let wrapped = Error::new(ErrorKind::BadDirectoryData).context(
                    ErrorKind::InvalidDDFS,
                );
                assert(wrapped@ =~= seq![KindView::InvalidDDFS, KindView::BadDirectoryData]);
                return Err(wrapped);
            },
        };
        match parse_ddf(field) {
            Err(e) => {
                return Err(e.context(ErrorKind::InvalidDDFS));
            },
            Ok(ddf) => {
                ddfs.push(ddf);
                proof {
                    assert(ddfs.deep_view() =~= before + seq![ddf@]);
                    match ddfs_from(byte@, entries.skip(i + 1)) {
                        Ok(v) => {
                            assert(before + (seq![ddf@] + v) =~= (before + seq![ddf@]) + v);
                        },
                        Err(_) => {},
                    }
                }
            },
        }
        i = i + 1;
    }
    proof {
        assert(ddfs.deep_view() + Seq::<DDFEntryView>::empty() =~= ddfs.deep_view());
    }
    Ok(ddfs)
}

} // verus!
