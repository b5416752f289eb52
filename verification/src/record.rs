//! Data records: the fields of a record, decoded with the schema that the
//! data descriptive record declares.

use crate::catalog::{
    frame_of, parse_frame, prepend, DDRView, DirectoryEntry, DirectoryEntryView, DDR,
};
use crate::cursor::{premature_end, ByteCursor};
use crate::data_parser::{subfield_span, value_of, Data, DataView, ParseData};
use crate::error::{Error, ErrorKind, KindView};
use crate::schema::{field_bytes, field_span, DDFEntry, DDFEntryView};
use crate::text::outcome;
use vstd::prelude::*;

verus! {

/// One field of a data record: its tag, and its subfields by name, in the
/// order in which they are stored.
#[derive(Debug, PartialEq)]
pub struct Field {
    /// The tag of the field.
    pub tag: String,
    /// The name and the value of each subfield.
    pub subfields: Vec<(String, Data)>,
}

/// The mathematical value of a [`Field`].
pub struct FieldView {
    pub tag: Seq<char>,
    pub subfields: Seq<(Seq<char>, DataView)>,
}

impl View for Field {
    type V = FieldView;

    open spec fn view(&self) -> FieldView {
        FieldView { tag: self.tag@, subfields: self.subfields.deep_view() }
    }
}

impl DeepView for Field {
    type V = FieldView;

    open spec fn deep_view(&self) -> FieldView {
        self@
    }
}

/// One data record: its fields, in the order of its directory.
#[derive(Debug, PartialEq)]
pub struct Record {
    /// The fields of the record.
    pub fields: Vec<Field>,
}

/// The mathematical value of a [`Record`].
pub struct RecordView {
    pub fields: Seq<FieldView>,
}

impl View for Record {
    type V = RecordView;

    open spec fn view(&self) -> RecordView {
        RecordView { fields: self.fields.deep_view() }
    }
}

impl DeepView for Record {
    type V = RecordView;

    open spec fn deep_view(&self) -> RecordView {
        self@
    }
}

/// The least index from `from` on at which the directory holds the tag, or
/// the length of the directory where it holds it nowhere.
pub open spec fn tag_index(dirs: Seq<DirectoryEntryView>, tag: Seq<char>, from: int) -> int
    decreases dirs.len() - from,
{
    if from < 0 || from >= dirs.len() {
        dirs.len() as int
    } else if dirs[from].id == tag {
        from
    } else {
        tag_index(dirs, tag, from + 1)
    }
}

/// The description of the field with the given tag: that of the first
/// directory entry after the file control field that holds the tag.
pub open spec fn schema_for(ddr: DDRView, tag: Seq<char>) -> Option<DDFEntryView> {
    let j = tag_index(ddr.dirs, tag, 1);
    if 1 <= j < ddr.dirs.len() && j - 1 < ddr.data_descriptive_fields.len() {
        Some(ddr.data_descriptive_fields[j - 1])
    } else {
        None
    }
}

/// Looks up the description of the field with the given tag.
pub fn find_schema<'a>(ddr: &'a DDR, tag: &String) -> (r: Option<&'a DDFEntry>)
    ensures
        match schema_for(ddr@, tag@) {
            Some(d) => (r matches Some(x) && x@ == d),
            None => r is None,
        },
{
    let mut j: usize = 1;
    while j < ddr.dirs.len()
        invariant
            1 <= j,
            tag_index(ddr@.dirs, tag@, 1) == tag_index(ddr@.dirs, tag@, j as int),
        decreases ddr.dirs.len() - j,
    {
        assert(ddr@.dirs[j as int] == ddr.dirs[j as int]@);
        if ddr.dirs[j].id == *tag {
            if j - 1 < ddr.data_descriptive_fields.len() {
                let found = &ddr.data_descriptive_fields[j - 1];
                assert(ddr@.data_descriptive_fields[j - 1] == found@);
                return Some(found);
            }
            return None;
        }
        j = j + 1;
    }
    None
}

/// The subfields that `input` holds under the descriptors `foc`, read one
/// after the other, each from where the one before it ended.
pub open spec fn subfields_of(foc: Seq<(Seq<char>, ParseData)>, input: Seq<u8>) -> Result<
    Seq<(Seq<char>, DataView)>,
    Seq<KindView>,
>
    decreases foc.len(),
{
    if foc.len() == 0 {
        Ok(Seq::empty())
    } else {
        let (name, d) = foc[0];
        match subfield_span(d, input) {
            None => Err(premature_end()),
            Some((item, left)) => match value_of(d.spec_kind(), item) {
                Err(e) => Err(e),
                Ok(v) => prepend(seq![(name, v)], subfields_of(foc.skip(1), left)),
            },
        }
    }
}

/// Reads the subfields of one field from its bytes.
pub fn parse_subfields(foc: &Vec<(String, ParseData)>, bytes: &[u8]) -> (r: Result<
    Vec<(String, Data)>,
    Error,
>)
    ensures
        outcome(r) == subfields_of(foc.deep_view(), bytes@),
{
    let mut cursor = ByteCursor::new(bytes);
    let rdr = &mut cursor;
    let ghost all = foc.deep_view();
    let ghost input = rdr@;
    let mut values: Vec<(String, Data)> = Vec::new();
    let mut i: usize = 0;
    proof {
        assert(all.skip(0) =~= all);
    }
    while i < foc.len()
        invariant
            i <= foc.len(),
            all == foc.deep_view(),
            input == bytes@,
            subfields_of(all, input) == prepend(
                values.deep_view(),
                subfields_of(all.skip(i as int), rdr@),
            ),
        decreases foc.len() - i,
    {
        let d = foc[i].1;
        let name = foc[i].0.clone();
        proof {
            assert(all.skip(i as int)[0] == (name@, d));
            assert(all.skip(i as int).skip(1) =~= all.skip(i + 1));
        }
        let ghost before = values.deep_view();
        match d.parse(rdr) {
            Err(e) => {
                return Err(e);
            },
            Ok(v) => {
                let pair = (name, v);
                values.push(pair);
                proof {
                    assert(values.deep_view() =~= before + seq![(name@, v@)]);
                    match subfields_of(all.skip(i + 1), rdr@) {
                        Ok(rest) => {
                            assert(before + (seq![(name@, v@)] + rest) =~= (before + seq![
                                (name@, v@),
                            ]) + rest);
                        },
                        Err(_) => {},
                    }
                }
            },
        }
        i = i + 1;
    }
    proof {
        assert(values.deep_view() + Seq::<(Seq<char>, DataView)>::empty() =~= values.deep_view());
    }
    Ok(values)
}

/// The field that a directory entry of a data record points at, decoded
/// with the description that the schema holds for its tag. A tag that the
/// schema does not hold, and an entry that points outside the field area,
/// make the record invalid.
pub open spec fn field_of(ddr: DDRView, area: Seq<u8>, e: DirectoryEntryView) -> Result<
    FieldView,
    Seq<KindView>,
> {
    match schema_for(ddr, e.id) {
        None => Err(seq![KindView::InvalidDR]),
        Some(ddf) => match field_span(area, e) {
            None => Err(seq![KindView::InvalidDR, KindView::BadDirectoryData]),
            Some(bytes) => match subfields_of(ddf.foc, bytes) {
                Err(err) => Err(seq![KindView::InvalidDR] + err),
                Ok(subfields) => Ok(FieldView { tag: e.id, subfields }),
            },
        },
    }
}

/// Decodes the field that a directory entry of a data record points at.
pub fn parse_field(ddr: &DDR, area: &[u8], entry: &DirectoryEntry) -> (r: Result<Field, Error>)
    ensures
        outcome(r) == field_of(ddr@, area@, entry@),
{
    let ddf = match find_schema(ddr, &entry.id) {
        Some(d) => d,
        None => {
            return Err(Error::new(ErrorKind::InvalidDR));
        },
    };
    let bytes = match field_bytes(area, entry) {
        Some(b) => b,
        None => {
            let wrapped = Error::new(ErrorKind::BadDirectoryData).context(ErrorKind::InvalidDR);
            assert(wrapped@ =~= seq![KindView::InvalidDR, KindView::BadDirectoryData]);
            return Err(wrapped);
        },
    };
    match parse_subfields(&ddf.foc, bytes) {
        Err(e) => Err(e.context(ErrorKind::InvalidDR)),
        Ok(subfields) => Ok(Field { tag: entry.id.clone(), subfields }),
    }
}

/// The fields that the entries of a directory point at, in order, or the
/// error of the first that does not decode.
pub open spec fn fields_of(ddr: DDRView, area: Seq<u8>, dirs: Seq<DirectoryEntryView>) -> Result<
    Seq<FieldView>,
    Seq<KindView>,
>
    decreases dirs.len(),
{
    if dirs.len() == 0 {
        Ok(Seq::empty())
    } else {
        match field_of(ddr, area, dirs[0]) {
            Err(e) => Err(e),
            Ok(x) => prepend(seq![x], fields_of(ddr, area, dirs.skip(1))),
        }
    }
}

/// The data record whose bytes after the record length are `b`, decoded
/// with the schema `ddr`: a field for every entry of its directory.
pub open spec fn record_of(ddr: DDRView, b: Seq<u8>, len: usize) -> Result<
    RecordView,
    Seq<KindView>,
> {
    match frame_of(b, len) {
        Err(e) => Err(seq![KindView::InvalidDR] + e),
        Ok((leader, dirs, area)) => match fields_of(ddr, area, dirs) {
            Err(e) => Err(e),
            Ok(fields) => Ok(RecordView { fields }),
        },
    }
}

/// Every error of a data record has the kind that says so on top.
pub proof fn lemma_record_error(ddr: DDRView, b: Seq<u8>, len: usize)
    requires
        record_of(ddr, b, len) is Err,
    ensures
        record_of(ddr, b, len)->Err_0.len() >= 1,
        record_of(ddr, b, len)->Err_0[0] == KindView::InvalidDR,
{
    match frame_of(b, len) {
        Err(e) => {},
        Ok((leader, dirs, area)) => {
            lemma_fields_error(ddr, area, dirs);
        },
    }
}

/// Every error of the fields of a data record has the kind that says so on
/// top.
pub proof fn lemma_fields_error(ddr: DDRView, area: Seq<u8>, dirs: Seq<DirectoryEntryView>)
    requires
        fields_of(ddr, area, dirs) is Err,
    ensures
        fields_of(ddr, area, dirs)->Err_0.len() >= 1,
        fields_of(ddr, area, dirs)->Err_0[0] == KindView::InvalidDR,
    decreases dirs.len(),
{
    if dirs.len() > 0 {
        if field_of(ddr, area, dirs[0]) is Ok {
            lemma_fields_error(ddr, area, dirs.skip(1));
        }
    }
}

/// Decodes a data record from its bytes after the record length.
pub fn parse_record(ddr: &DDR, bytes: &[u8], len: usize) -> (r: Result<Record, Error>)
    ensures
        outcome(r) == record_of(ddr@, bytes@, len),
{
    let (leader, dirs, area) = match parse_frame(bytes, len) {
        Ok(v) => v,
        Err(e) => {
            return Err(e.context(ErrorKind::InvalidDR));
        },
    };
    let ghost entries = dirs.deep_view();
    let mut fields: Vec<Field> = Vec::new();
    let mut i: usize = 0;
    proof {
        assert(entries.skip(0) =~= entries);
    }
    while i < dirs.len()
        invariant
            i <= dirs.len(),
            entries == dirs.deep_view(),
            frame_of(bytes@, len) == Ok::<
                (crate::catalog::LeaderView, Seq<DirectoryEntryView>, Seq<u8>),
                Seq<KindView>,
            >((leader@, entries, area@)),
            fields_of(ddr@, area@, entries) == prepend(
                fields.deep_view(),
                fields_of(ddr@, area@, entries.skip(i as int)),
            ),
        decreases dirs.len() - i,
    {
        let dir = &dirs[i];
        proof {
            assert(entries.skip(i as int)[0] == dir@);
            assert(entries.skip(i as int).skip(1) =~= entries.skip(i + 1));
        }
        let ghost before = fields.deep_view();
        match parse_field(ddr, area, dir) {
            Err(e) => {
                return Err(e);
            },
            Ok(field) => {
                fields.push(field);
                proof {
                    assert(fields.deep_view() =~= before + seq![field@]);
                    match fields_of(ddr@, area@, entries.skip(i + 1)) {
                        Ok(rest) => {
                            assert(before + (seq![field@] + rest) =~= (before + seq![field@])
                                + rest);
                        },
                        Err(_) => {},
                    }
                }
            },
        }
        i = i + 1;
    }
    proof {
        assert(fields.deep_view() + Seq::<FieldView>::empty() =~= fields.deep_view());
    }
    Ok(Record { fields })
}

} // verus!
