//! The framing of a record and the data descriptive record: leader,
//! directory, field controls and the schema of each field.

use crate::cursor::{premature_end, ByteCursor};
use crate::error::{Error, ErrorKind, KindView};
use crate::record::{lemma_record_error, parse_record, record_of, Record, RecordView};
use crate::schema::{ddfs_of, lemma_ddfs_len, parse_ddfs, DDFEntry, DDFEntryView};
use crate::span::{find_byte, position};
use crate::text::{
    lemma_unsigned_digit, lemma_unsigned_short, outcome, parse_to_string, parse_to_usize,
    string_of, usize_of,
};
use vstd::prelude::*;
use vstd::slice::slice_subrange;

verus! {

/// The byte that ends the directory of a record, and each of its fields.
pub const RECORD_SEPARATOR: u8 = 0x1e;

/// The byte that ends a variable-width subfield, and a part of a field's
/// description.
pub const UNIT_SEPARATOR: u8 = 0x1f;

/// The fixed preamble of a record.
#[derive(Debug, PartialEq)]
pub struct Leader {
    /// Record length.
    pub rl: usize,
    /// Interchange level.
    pub il: char,
    /// Leader identifier.
    pub li: char,
    /// In-line code extension indicator.
    pub cei: char,
    /// Version number.
    pub vn: char,
    /// Application indicator.
    pub ai: char,
    /// Field control length.
    pub fcl: [char; 2],
    /// Base address of the field area.
    pub ba: u32,
    /// Extended character set indicator.
    pub csi: [char; 3],
    /// Size of the field length field.
    pub flf: usize,
    /// Size of the field position field.
    pub fpf: usize,
    /// Reserved.
    pub rsv: char,
    /// Size of the field tag field.
    pub ftf: usize,
}

/// The mathematical value of a [`Leader`].
pub struct LeaderView {
    pub rl: usize,
    pub il: char,
    pub li: char,
    pub cei: char,
    pub vn: char,
    pub ai: char,
    pub fcl: Seq<char>,
    pub ba: u32,
    pub csi: Seq<char>,
    pub flf: usize,
    pub fpf: usize,
    pub rsv: char,
    pub ftf: usize,
}

impl LeaderView {
    /// The three widths of the entry map are single decimal digits above zero.
    pub open spec fn wf(self) -> bool {
        &&& 1 <= self.flf <= 9
        &&& 1 <= self.fpf <= 9
        &&& 1 <= self.ftf <= 9
    }

    /// The number of bytes of one directory entry.
    pub open spec fn chunk(self) -> int {
        self.ftf + self.flf + self.fpf
    }
}

impl View for Leader {
    type V = LeaderView;

    open spec fn view(&self) -> LeaderView {
        LeaderView {
            rl: self.rl,
            il: self.il,
            li: self.li,
            cei: self.cei,
            vn: self.vn,
            ai: self.ai,
            fcl: self.fcl@,
            ba: self.ba,
            csi: self.csi@,
            flf: self.flf,
            fpf: self.fpf,
            rsv: self.rsv,
            ftf: self.ftf,
        }
    }
}

impl DeepView for Leader {
    type V = LeaderView;

    open spec fn deep_view(&self) -> LeaderView {
        self@
    }
}

/// A decode result with `kind` put on top of its error, if it is one.
pub open spec fn in_context<T>(kind: KindView, r: Result<T, Seq<KindView>>) -> Result<
    T,
    Seq<KindView>,
> {
    match r {
        Ok(v) => Ok(v),
        Err(e) => Err(seq![kind] + e),
    }
}

/// The four numbers that a leader holds after its record length: base
/// address, then the sizes of the length, position and tag fields.
pub open spec fn leader_numbers(b: Seq<u8>) -> Result<(usize, usize, usize, usize), Seq<KindView>> {
    match usize_of(b.subrange(7, 12)) {
        Err(e) => Err(e),
        Ok(ba) => match usize_of(b.subrange(15, 16)) {
            Err(e) => Err(e),
            Ok(flf) => match usize_of(b.subrange(16, 17)) {
                Err(e) => Err(e),
                Ok(fpf) => match usize_of(b.subrange(18, 19)) {
                    Err(e) => Err(e),
                    Ok(ftf) => Ok((ba, flf, fpf, ftf)),
                },
            },
        },
    }
}

/// The leader that the 19 bytes after a record length hold, for a record of
/// length `len`. Fewer bytes, a number that is none, or a width of zero in
/// the entry map make the leader invalid.
pub open spec fn leader_of(b: Seq<u8>, len: usize) -> Result<LeaderView, Seq<KindView>> {
    if b.len() < 19 {
        Err(seq![KindView::InvalidLeader])
    } else {
        match leader_numbers(b) {
            Err(e) => Err(seq![KindView::InvalidLeader] + e),
            Ok((ba, flf, fpf, ftf)) => if flf == 0 || fpf == 0 || ftf == 0 {
                Err(seq![KindView::InvalidLeader])
            } else {
                Ok(
                    LeaderView {
                        rl: len,
                        il: b[0] as char,
                        li: b[1] as char,
                        cei: b[2] as char,
                        vn: b[3] as char,
                        ai: b[4] as char,
                        fcl: seq![b[5] as char, b[6] as char],
                        ba: ba as u32,
                        csi: seq![b[12] as char, b[13] as char, b[14] as char],
                        flf,
                        fpf,
                        rsv: b[17] as char,
                        ftf,
                    },
                )
            },
        }
    }
}

/// A leader that decodes has widths that are digits above zero.
pub proof fn lemma_leader_wf(b: Seq<u8>, len: usize)
    requires
        leader_of(b, len) is Ok,
    ensures
        leader_of(b, len)->Ok_0.wf(),
        leader_of(b, len)->Ok_0.rl == len,
{
    lemma_unsigned_digit(b.subrange(15, 16));
    lemma_unsigned_digit(b.subrange(16, 17));
    lemma_unsigned_digit(b.subrange(18, 19));
}

/// Decodes the leader of a record from the 19 bytes after its record length.
pub fn parse_leader(byte: &[u8], len: usize) -> (r: Result<Leader, Error>)
    ensures
        outcome(r) == leader_of(byte@, len),
        r matches Ok(l) ==> l@.wf() && l.rl == len,
{
    if byte.len() < 19 {
        return Err(Error::new(ErrorKind::InvalidLeader));
    }
    let rl = len;
    let il = byte[0] as char;
    let li = byte[1] as char;
    let cei = byte[2] as char;
    let vn = byte[3] as char;
    let ai = byte[4] as char;
    let fcl = [byte[5] as char, byte[6] as char];
    let ba = match parse_to_usize(slice_subrange(byte, 7, 12)) {
        Ok(v) => v,
        Err(e) => {
            return Err(e.context(ErrorKind::InvalidLeader));
        },
    };
    let csi = [byte[12] as char, byte[13] as char, byte[14] as char];
    let flf = match parse_to_usize(slice_subrange(byte, 15, 16)) {
        Ok(v) => v,
        Err(e) => {
            return Err(e.context(ErrorKind::InvalidLeader));
        },
    };
    let fpf = match parse_to_usize(slice_subrange(byte, 16, 17)) {
        Ok(v) => v,
        Err(e) => {
            return Err(e.context(ErrorKind::InvalidLeader));
        },
    };
    let rsv = byte[17] as char;
    let ftf = match parse_to_usize(slice_subrange(byte, 18, 19)) {
        Ok(v) => v,
        Err(e) => {
            return Err(e.context(ErrorKind::InvalidLeader));
        },
    };
    if flf == 0 || fpf == 0 || ftf == 0 {
        return Err(Error::new(ErrorKind::InvalidLeader));
    }
    proof {
        lemma_unsigned_short(byte@.subrange(7, 12));
        lemma_leader_wf(byte@, len);
    }
    let leader = Leader { rl, il, li, cei, vn, ai, fcl, ba: ba as u32, csi, flf, fpf, rsv, ftf };
    proof {
        assert(leader.fcl@ =~= seq![byte@[5] as char, byte@[6] as char]);
        assert(leader.csi@ =~= seq![byte@[12] as char, byte@[13] as char, byte@[14] as char]);
    }
    Ok(leader)
}

/// One entry of a record's directory: where the field with tag `id` lies in
/// the field area.
#[derive(Debug, PartialEq)]
pub struct DirectoryEntry {
    /// The tag of the field.
    pub id: String,
    /// The length of the field in bytes, its terminator included.
    pub length: usize,
    /// The offset of the field from the start of the field area.
    pub offset: usize,
}

/// The mathematical value of a [`DirectoryEntry`].
pub struct DirectoryEntryView {
    pub id: Seq<char>,
    pub length: usize,
    pub offset: usize,
}

impl View for DirectoryEntry {
    type V = DirectoryEntryView;

    open spec fn view(&self) -> DirectoryEntryView {
        DirectoryEntryView { id: self.id@, length: self.length, offset: self.offset }
    }
}

impl DeepView for DirectoryEntry {
    type V = DirectoryEntryView;

    open spec fn deep_view(&self) -> DirectoryEntryView {
        self@
    }
}

/// A decode result with the values `acc` put in front of what it holds.
pub open spec fn prepend<T>(acc: Seq<T>, r: Result<Seq<T>, Seq<KindView>>) -> Result<
    Seq<T>,
    Seq<KindView>,
> {
    match r {
        Ok(v) => Ok(acc + v),
        Err(e) => Err(e),
    }
}

/// The directory entry that one chunk holds: tag, then length, then offset,
/// in the widths that the leader declares.
pub open spec fn entry_of(chunk: Seq<u8>, l: LeaderView) -> Result<
    DirectoryEntryView,
    Seq<KindView>,
> {
    match string_of(chunk.subrange(0, l.ftf as int)) {
        Err(e) => Err(e),
        Ok(id) => match usize_of(chunk.subrange(l.ftf as int, l.ftf + l.flf)) {
            Err(e) => Err(e),
            Ok(length) => match usize_of(chunk.subrange(l.ftf + l.flf, chunk.len() as int)) {
                Err(e) => Err(e),
                Ok(offset) => Ok(DirectoryEntryView { id, length, offset }),
            },
        },
    }
}

/// The entries that the whole chunks of `bytes` hold, in order, or the error
/// of the first chunk that does not decode.
pub open spec fn entries_of(bytes: Seq<u8>, l: LeaderView) -> Result<
    Seq<DirectoryEntryView>,
    Seq<KindView>,
>
    decreases bytes.len(),
{
    if l.chunk() <= 0 || bytes.len() < l.chunk() {
        Ok(Seq::empty())
    } else {
        match entry_of(bytes.take(l.chunk()), l) {
            Err(e) => Err(e),
            Ok(x) => prepend(seq![x], entries_of(bytes.skip(l.chunk()), l)),
        }
    }
}

/// The directory that `bytes` hold. A span that is no whole number of chunks
/// is bad directory data, whatever its chunks hold, and so is any span under
/// a leader that is not well formed.
pub open spec fn directory_of(bytes: Seq<u8>, l: LeaderView) -> Result<
    Seq<DirectoryEntryView>,
    Seq<KindView>,
> {
    if !l.wf() || bytes.len() % (l.chunk() as nat) != 0 {
        Err(seq![KindView::BadDirectoryData])
    } else {
        entries_of(bytes, l)
    }
}

/// Decodes one chunk of a directory.
fn parse_entry(chunk: &[u8], leader: &Leader) -> (r: Result<DirectoryEntry, Error>)
    requires
        leader@.wf(),
        chunk@.len() == leader@.chunk(),
    ensures
        outcome(r) == entry_of(chunk@, leader@),
{
    let id = match parse_to_string(slice_subrange(chunk, 0, leader.ftf)) {
        Ok(v) => v,
        Err(e) => {
            return Err(e);
        },
    };
    let length = match parse_to_usize(slice_subrange(chunk, leader.ftf, leader.ftf + leader.flf)) {
        Ok(v) => v,
        Err(e) => {
            return Err(e);
        },
    };
    let offset = match parse_to_usize(
        slice_subrange(chunk, leader.ftf + leader.flf, chunk.len()),
    ) {
        Ok(v) => v,
        Err(e) => {
            return Err(e);
        },
    };
    Ok(DirectoryEntry { id, length, offset })
}

/// A span that is no whole number of chunks is bad directory data, whatever
/// it holds.
pub proof fn lemma_directory_misaligned(bytes: Seq<u8>, l: LeaderView)
    requires
        bytes.len() % (l.chunk() as nat) != 0,
    ensures
        directory_of(bytes, l) == Err::<Seq<DirectoryEntryView>, Seq<KindView>>(
            seq![KindView::BadDirectoryData],
        ),
{
}

/// Decodes the directory of a record: the bytes between its leader and the
/// first record separator.
pub fn parse_directory(byte: &[u8], leader: &Leader) -> (r: Result<Vec<DirectoryEntry>, Error>)
    ensures
        outcome(r) == directory_of(byte@, leader@),
        byte@.len() % (leader@.chunk() as nat) != 0 ==> r is Err && r->Err_0@
            == seq![KindView::BadDirectoryData],
{
    if leader.flf < 1 || leader.flf > 9 || leader.fpf < 1 || leader.fpf > 9 || leader.ftf < 1
        || leader.ftf > 9 {
        return Err(Error::new(ErrorKind::BadDirectoryData));
    }
    let chunksize = leader.ftf + leader.flf + leader.fpf;
    if byte.len() % chunksize != 0 {
        return Err(Error::new(ErrorKind::BadDirectoryData));
    }
    let mut directories: Vec<DirectoryEntry> = Vec::new();
    let mut rest: &[u8] = byte;
    while rest.len() > 0
        invariant
            leader@.wf(),
            chunksize == leader@.chunk(),
            rest@.len() % (chunksize as nat) == 0,
            byte@.len() % (chunksize as nat) == 0,
            entries_of(byte@, leader@) == prepend(
                directories.deep_view(),
                entries_of(rest@, leader@),
            ),
        decreases rest@.len(),
    {
        proof {
            if rest@.len() < chunksize {
                vstd::arithmetic::div_mod::lemma_small_mod(rest@.len(), chunksize as nat);
            }
            vstd::arithmetic::div_mod::lemma_mod_sub_multiples_vanish(
                rest@.len() as int,
                chunksize as int,
            );
        }
        let chunk = slice_subrange(rest, 0, chunksize);
        let after = slice_subrange(rest, chunksize, rest.len());
        assert(chunk@ =~= rest@.take(chunksize as int));
        assert(after@ =~= rest@.skip(chunksize as int));
        let ghost before = directories.deep_view();
        match parse_entry(chunk, leader) {
            Err(e) => {
                return Err(e);
            },
            Ok(entry) => {
                directories.push(entry);
                proof {
                    assert(directories.deep_view() =~= before + seq![entry@]);
                    match entries_of(after@, leader@) {
                        Ok(v) => {
                            assert(before + (seq![entry@] + v) =~= (before + seq![entry@]) + v);
                        },
                        Err(_) => {},
                    }
                }
            },
        }
        rest = after;
    }
    proof {
        assert(directories.deep_view() + Seq::<DirectoryEntryView>::empty()
            =~= directories.deep_view());
    }
    Ok(directories)
}

/// The leader that the 24 bytes at the start of a record hold: the record
/// length in the first five, then the rest of the leader. Any other number
/// of bytes is no leader.
pub open spec fn whole_leader_of(b: Seq<u8>) -> Result<LeaderView, Seq<KindView>> {
    if b.len() != 24 {
        Err(seq![KindView::InvalidLeader])
    } else {
        match usize_of(b.take(5)) {
            Err(e) => Err(seq![KindView::InvalidLeader] + e),
            Ok(len) => leader_of(b.skip(5), len),
        }
    }
}

/// Decodes the leader of a record from the 24 bytes at its start.
pub fn decode_leader(bytes: &[u8]) -> (r: Result<Leader, Error>)
    ensures
        outcome(r) == whole_leader_of(bytes@),
        r matches Ok(l) ==> l@.wf(),
{
    if bytes.len() != 24 {
        return Err(Error::new(ErrorKind::InvalidLeader));
    }
    let head = slice_subrange(bytes, 0, 5);
    let rest = slice_subrange(bytes, 5, 24);
    assert(head@ =~= bytes@.take(5));
    assert(rest@ =~= bytes@.skip(5));
    match parse_to_usize(head) {
        Err(e) => Err(e.context(ErrorKind::InvalidLeader)),
        Ok(len) => parse_leader(rest, len),
    }
}

/// The framing of a record whose bytes after the record length are `b`: its
/// leader, its directory, and its field area. The directory ends before the
/// first record separator after the leader; the field area starts after it.
pub open spec fn frame_of(b: Seq<u8>, len: usize) -> Result<
    (LeaderView, Seq<DirectoryEntryView>, Seq<u8>),
    Seq<KindView>,
> {
    match leader_of(b, len) {
        Err(e) => Err(e),
        Ok(leader) => {
            let rest = b.skip(19);
            let p = position(rest, RECORD_SEPARATOR);
            if p >= rest.len() {
                Err(seq![KindView::BadDirectoryData])
            } else {
                match directory_of(rest.take(p), leader) {
                    Err(e) => Err(e),
                    Ok(dirs) => Ok((leader, dirs, rest.skip(p + 1))),
                }
            }
        },
    }
}

/// Decodes the framing of a record from its bytes after the record length.
pub fn parse_frame<'a>(bytes: &'a [u8], len: usize) -> (r: Result<
    (Leader, Vec<DirectoryEntry>, &'a [u8]),
    Error,
>)
    ensures
        match frame_of(bytes@, len) {
            Ok((leader, dirs, area)) => (r matches Ok(v) && v.0@ == leader && v.1.deep_view()
                == dirs && v.2@ == area && leader.wf()),
            Err(e) => (r matches Err(x) && x@ == e),
        },
{
    let leader = match parse_leader(bytes, len) {
        Ok(v) => v,
        Err(e) => {
            return Err(e);
        },
    };
    let rest = slice_subrange(bytes, 19, bytes.len());
    assert(rest@ =~= bytes@.skip(19));
    let p = find_byte(rest, RECORD_SEPARATOR);
    if p >= rest.len() {
        return Err(Error::new(ErrorKind::BadDirectoryData));
    }
    let span = slice_subrange(rest, 0, p);
    let area = slice_subrange(rest, p + 1, rest.len());
    assert(span@ =~= rest@.take(p as int));
    assert(area@ =~= rest@.skip(p + 1));
    match parse_directory(span, &leader) {
        Err(e) => Err(e),
        Ok(dirs) => Ok((leader, dirs, area)),
    }
}

/// The data descriptive record of a file: the schema of its data records.
#[derive(Debug, PartialEq)]
pub struct DDR {
    /// The leader of the record.
    pub leader: Leader,
    /// The directory of the record.
    pub dirs: Vec<DirectoryEntry>,
    /// The description of every field but the file control field: the one at
    /// index `i` belongs to the directory entry at index `i + 1`.
    pub data_descriptive_fields: Vec<DDFEntry>,
}

/// The mathematical value of a [`DDR`].
pub struct DDRView {
    pub leader: LeaderView,
    pub dirs: Seq<DirectoryEntryView>,
    pub data_descriptive_fields: Seq<DDFEntryView>,
}

impl DDRView {
    /// The leader is well formed, and there is one field description for
    /// every directory entry but the first.
    pub open spec fn wf(self) -> bool {
        &&& self.leader.wf()
        &&& self.dirs.len() == 0 ==> self.data_descriptive_fields.len() == 0
        &&& self.dirs.len() >= 1 ==> self.data_descriptive_fields.len() == self.dirs.len() - 1
    }
}

impl View for DDR {
    type V = DDRView;

    open spec fn view(&self) -> DDRView {
        DDRView {
            leader: self.leader@,
            dirs: self.dirs.deep_view(),
            data_descriptive_fields: self.data_descriptive_fields.deep_view(),
        }
    }
}

impl DeepView for DDR {
    type V = DDRView;

    open spec fn deep_view(&self) -> DDRView {
        self@
    }
}

/// The data descriptive record whose bytes after the record length are `b`.
pub open spec fn ddr_of(b: Seq<u8>, len: usize) -> Result<DDRView, Seq<KindView>> {
    match frame_of(b, len) {
        Err(e) => Err(seq![KindView::InvalidDDR] + e),
        Ok((leader, dirs, area)) => match ddfs_of(area, dirs) {
            Err(e) => Err(seq![KindView::InvalidDDR] + e),
            Ok(fields) => Ok(DDRView { leader, dirs, data_descriptive_fields: fields }),
        },
    }
}

/// A data descriptive record that decodes is well formed: it describes one
/// field for every entry of its directory but the first.
pub proof fn lemma_ddr_wf(b: Seq<u8>, len: usize)
    requires
        ddr_of(b, len) is Ok,
    ensures
        ddr_of(b, len)->Ok_0.wf(),
        ddr_of(b, len)->Ok_0.dirs.len() >= 1 ==> ddr_of(b, len)->Ok_0.data_descriptive_fields.len()
            + 1 == ddr_of(b, len)->Ok_0.dirs.len(),
{
    lemma_leader_wf(b, len);
    let frame = frame_of(b, len)->Ok_0;
    lemma_ddfs_len(frame.2, frame.1);
}

/// Decodes the data descriptive record from its bytes after the record
/// length.
pub fn parse_ddr(ddr_bytes: &[u8], len: usize) -> (r: Result<DDR, Error>)
    ensures
        outcome(r) == ddr_of(ddr_bytes@, len),
        r matches Ok(d) ==> d@.wf(),
{
    let (leader, dirs, area) = match parse_frame(ddr_bytes, len) {
        Ok(v) => v,
        Err(e) => {
            return Err(e.context(ErrorKind::InvalidDDR));
        },
    };
    let data_descriptive_fields = match parse_ddfs(area, dirs.as_slice()) {
        Ok(v) => v,
        Err(e) => {
            return Err(e.context(ErrorKind::InvalidDDR));
        },
    };
    proof {
        lemma_ddr_wf(ddr_bytes@, len);
    }
    Ok(DDR { leader, dirs, data_descriptive_fields })
}

/// The next record of `input`: its length, its bytes after the record
/// length, and the bytes that follow the record. The record length is the
/// first five bytes as decimal text, and counts itself.
pub open spec fn record_span(input: Seq<u8>) -> Result<(usize, Seq<u8>, Seq<u8>), Seq<KindView>> {
    if input.len() < 5 {
        Err(premature_end())
    } else {
        match usize_of(input.take(5)) {
            Err(e) => Err(seq![KindView::InvalidLeader] + e),
            Ok(len) => if len < 5 {
                Err(seq![KindView::InvalidLeader])
            } else if input.len() < len {
                Err(premature_end())
            } else {
                Ok((len, input.subrange(5, len as int), input.skip(len as int)))
            },
        }
    }
}

/// What a cursor over `input` holds after the next record was read from it,
/// or failed to be: the bytes after the record; nothing, where the input
/// ended inside the record; the bytes after a record length that is none.
pub open spec fn after_record(input: Seq<u8>) -> Seq<u8> {
    match record_span(input) {
        Ok((len, body, rest)) => rest,
        Err(e) => if e == premature_end() {
            Seq::empty()
        } else {
            input.skip(5)
        },
    }
}

/// Reads the next record from the cursor: its length and its bytes after the
/// record length.
pub fn read_record<'a>(rdr: &mut ByteCursor<'a>) -> (r: Result<(usize, &'a [u8]), Error>)
    ensures
        match record_span(old(rdr)@) {
            Ok((len, body, rest)) => (r matches Ok(v) && v.0 == len && v.1@ == body),
            Err(e) => (r matches Err(x) && x@ == e),
        },
        final(rdr)@ == after_record(old(rdr)@),
        final(rdr)@.len() <= old(rdr)@.len(),
        r is Ok ==> final(rdr)@.len() < old(rdr)@.len(),
{
    let ghost input = rdr@;
    let head = match rdr.read_exact(5) {
        Ok(v) => v,
        Err(e) => {
            return Err(e);
        },
    };
    let len = match parse_to_usize(head) {
        Ok(v) => v,
        Err(e) => {
            let wrapped = e.context(ErrorKind::InvalidLeader);
            assert(wrapped@[0] != premature_end()[0]);
            return Err(wrapped);
        },
    };
    if len < 5 {
        let invalid = Error::new(ErrorKind::InvalidLeader);
        assert(invalid@[0] != premature_end()[0]);
        return Err(invalid);
    }
    match rdr.read_exact(len - 5) {
        Ok(body) => {
            proof {
                assert(input.skip(5).take(len - 5) =~= input.subrange(5, len as int));
                assert(input.skip(5).skip(len - 5) =~= input.skip(len as int));
            }
            Ok((len, body))
        },
        Err(e) => Err(e),
    }
}

/// Where a catalog stands in the reading of its file.
#[derive(Debug, PartialEq, Eq, Clone, Copy, Structural)]
pub enum ReaderState {
    /// The schema is built and no data record was asked for yet.
    SchemaBuilt,
    /// At least one data record was decoded, and more may follow.
    Reading,
    /// The file ended after a whole record.
    Exhausted,
    /// A data record did not decode; no further record is read.
    Failed,
}

impl ReaderState {
    /// True when no further record will be read.
    pub open spec fn done(self) -> bool {
        self == ReaderState::Exhausted || self == ReaderState::Failed
    }
}

/// The schema of a file, and the cursor over the data records that follow
/// it. The schema does not change once it is built.
pub struct Catalog<'a> {
    ddr: DDR,
    rdr: ByteCursor<'a>,
    state: ReaderState,
}

/// The schema that a file starts with, and the bytes of the file after it.
/// Whatever fails, the catalog could not be parsed.
pub open spec fn catalog_of(input: Seq<u8>) -> Result<(DDRView, Seq<u8>), Seq<KindView>> {
    match record_span(input) {
        Err(e) => Err(seq![KindView::CouldNotParseCatalog] + e),
        Ok((len, body, rest)) => match ddr_of(body, len) {
            Err(e) => Err(seq![KindView::CouldNotParseCatalog] + e),
            Ok(ddr) => Ok((ddr, rest)),
        },
    }
}

/// What asking for the next data record gives.
pub enum Step {
    /// No byte is left: the file ended cleanly.
    End,
    /// A record, and the bytes that follow it.
    Record(RecordView, Seq<u8>),
    /// The next record does not decode.
    Failure(Seq<KindView>),
}

/// The next data record of `input` under the schema `ddr`. A file that
/// ends inside a record gives an invalid record with the end of the file as
/// its cause; every other failure is an invalid record, too.
pub open spec fn step_of(ddr: DDRView, input: Seq<u8>) -> Step {
    if input.len() == 0 {
        Step::End
    } else {
        match record_span(input) {
            Err(e) => Step::Failure(
                if e == premature_end() {
                    seq![KindView::InvalidDR, KindView::EOF]
                } else {
                    seq![KindView::InvalidDR] + e
                },
            ),
            Ok((len, body, rest)) => match record_of(ddr, body, len) {
                Err(e) => Step::Failure(e),
                Ok(record) => Step::Record(record, rest),
            },
        }
    }
}

/// The data records of `input` up to its end or to the first that does not
/// decode, and the error of that one. (A record is always followed by fewer
/// bytes than it started with; the test for it makes the definition end.)
pub open spec fn records_of(ddr: DDRView, input: Seq<u8>) -> (Seq<RecordView>, Option<Seq<KindView>>)
    decreases input.len(),
{
    match step_of(ddr, input) {
        Step::End => (Seq::empty(), None),
        Step::Failure(e) => (Seq::empty(), Some(e)),
        Step::Record(record, rest) => if rest.len() < input.len() {
            let more = records_of(ddr, rest);
            (seq![record] + more.0, more.1)
        } else {
            (seq![record], None)
        },
    }
}

/// The chain of an error, if there is one.
pub open spec fn failure_of(e: Option<Error>) -> Option<Seq<KindView>> {
    match e {
        Some(x) => Some(x@),
        None => None,
    }
}

/// The schema of a catalog that opens describes one field for every entry
/// of its directory but the first, the file control field.
pub proof fn lemma_catalog_fields(input: Seq<u8>)
    requires
        catalog_of(input) is Ok,
        catalog_of(input)->Ok_0.0.dirs.len() >= 1,
    ensures
        catalog_of(input)->Ok_0.0.data_descriptive_fields.len() == catalog_of(
            input,
        )->Ok_0.0.dirs.len() - 1,
{
    let span = record_span(input)->Ok_0;
    lemma_ddr_wf(span.1, span.0);
}

impl<'a> Catalog<'a> {
    /// The schema of the file.
    pub closed spec fn schema(&self) -> DDRView {
        self.ddr@
    }

    /// The bytes of the file that were not read yet.
    pub closed spec fn remaining(&self) -> Seq<u8> {
        self.rdr@
    }

    /// Where the catalog stands in the reading of its file.
    pub closed spec fn spec_state(&self) -> ReaderState {
        self.state
    }

    /// Opens a catalog: reads the data descriptive record at the start of
    /// the source and builds the schema from it.
    pub fn new(rdr: ByteCursor<'a>) -> (r: Result<Catalog<'a>, Error>)
        ensures
            match catalog_of(rdr@) {
                Ok((ddr, rest)) => (r matches Ok(c) && c.schema() == ddr && c.remaining() == rest
                    && c.spec_state() == ReaderState::SchemaBuilt && ddr.wf()),
                Err(e) => (r matches Err(x) && x@ == e && x@[0] == KindView::CouldNotParseCatalog),
            },
    {
        let mut rdr = rdr;
        let (len, body) = match read_record(&mut rdr) {
            Ok(v) => v,
            Err(e) => {
                return Err(e.context(ErrorKind::CouldNotParseCatalog));
            },
        };
        match parse_ddr(body, len) {
            Err(e) => Err(e.context(ErrorKind::CouldNotParseCatalog)),
            Ok(ddr) => Ok(Catalog { ddr, rdr, state: ReaderState::SchemaBuilt }),
        }
    }

    /// The schema of the file.
    pub fn ddr(&self) -> (d: &DDR)
        ensures
            d@ == self.schema(),
    {
        &self.ddr
    }

    /// Gives up the cursor and keeps the schema of the file.
    pub fn into_ddr(self) -> (d: DDR)
        ensures
            d@ == self.schema(),
    {
        self.ddr
    }

    /// Where the catalog stands in the reading of its file.
    #[verifier::when_used_as_spec(spec_state)]
    pub fn state(&self) -> (s: ReaderState)
        ensures
            s == self.spec_state(),
    {
        self.state
    }

    /// Decodes the next data record. Gives `None` at the clean end of the
    /// file, and whenever the end or a failure was reached before.
    pub fn next_record(&mut self) -> (r: Option<Result<Record, Error>>)
        ensures
            final(self).schema() == old(self).schema(),
            old(self).spec_state().done() ==> r is None && final(self).spec_state() == old(self).spec_state() && final(self).remaining() == old(self).remaining(),
            !old(self).spec_state().done() ==> match step_of(
                old(self).schema(),
                old(self).remaining(),
            ) {
                Step::End => r is None && final(self).spec_state() == ReaderState::Exhausted,
                Step::Record(record, rest) => (r matches Some(Ok(x)) && x@ == record) && final(self).spec_state() == ReaderState::Reading && final(self).remaining() == rest
                    && rest.len() < old(self).remaining().len(),
                Step::Failure(e) => (r matches Some(Err(x)) && x@ == e && x@[0]
                    == KindView::InvalidDR) && final(self).spec_state() == ReaderState::Failed
                    && final(self).remaining() == after_record(old(self).remaining()),
            },
    {
        match self.state {
            ReaderState::Exhausted => {
                return None;
            },
            ReaderState::Failed => {
                return None;
            },
            _ => {},
        }
        if self.rdr.is_empty() {
            self.state = ReaderState::Exhausted;
            return None;
        }
        let (len, body) = match read_record(&mut self.rdr) {
            Ok(v) => v,
            Err(e) => {
                self.state = ReaderState::Failed;
                let ghost chain = e@;
                let is_end = match e.kind() {
                    ErrorKind::IOError(_) => true,
                    _ => false,
                };
                if is_end {
                    let wrapped = Error::new(ErrorKind::EOF).context(ErrorKind::InvalidDR);
                    assert(wrapped@ =~= seq![KindView::InvalidDR, KindView::EOF]);
                    assert(chain =~= premature_end());
                    return Some(Err(wrapped));
                }
                assert(chain != premature_end());
                return Some(Err(e.context(ErrorKind::InvalidDR)));
            },
        };
        match parse_record(&self.ddr, body, len) {
            Ok(record) => {
                self.state = ReaderState::Reading;
                Some(Ok(record))
            },
            Err(e) => {
                self.state = ReaderState::Failed;
                proof {
                    lemma_record_error(self.ddr@, body@, len);
                }
                Some(Err(e))
            },
        }
    }

    /// Decodes the data records that are left, up to the end of the file or
    /// to the first record that does not decode. Gives the records that
    /// decoded, the last of them last, and the error that ended the reading,
    /// if one did.
    pub fn records(&mut self) -> (r: (Vec<Record>, Option<Error>))
        ensures
            final(self).schema() == old(self).schema(),
            final(self).spec_state().done(),
            old(self).spec_state().done() ==> r.0.len() == 0 && r.1 is None,
            !old(self).spec_state().done() ==> (r.0.deep_view(), failure_of(r.1)) == records_of(
                old(self).schema(),
                old(self).remaining(),
            ),
            !old(self).spec_state().done() ==> (final(self).spec_state() == ReaderState::Failed
                <==> r.1 is Some),
    {
        let mut records: Vec<Record> = Vec::new();
        let mut failure: Option<Error> = None;
        let ghost ddr = self.schema();
        let ghost input = self.remaining();
        let ghost started = self.spec_state();
        proof {
            assert(records.deep_view() =~= Seq::<RecordView>::empty());
            assert(Seq::<RecordView>::empty() + records_of(ddr, input).0 =~= records_of(
                ddr,
                input,
            ).0);
        }
        loop
            invariant_except_break
                self.schema() == ddr,
                failure is None,
                started.done() ==> self.spec_state() == started && records.len() == 0,
                !started.done() ==> !self.spec_state().done(),
                !started.done() ==> records_of(ddr, input).0 == records.deep_view() + records_of(
                    ddr,
                    self.remaining(),
                ).0,
                !started.done() ==> records_of(ddr, input).1 == records_of(
                    ddr,
                    self.remaining(),
                ).1,
            ensures
                self.schema() == ddr,
                self.spec_state().done(),
                started.done() ==> records.len() == 0 && failure is None,
                !started.done() ==> (records.deep_view(), failure_of(failure)) == records_of(
                    ddr,
                    input,
                ),
                !started.done() ==> (self.spec_state() == ReaderState::Failed <==> failure
                    is Some),
            decreases self.remaining().len(),
        {
            let ghost before = records.deep_view();
            let ghost here = self.remaining();
            match self.next_record() {
                None => {
                    proof {
                        if !started.done() {
                            assert(before + Seq::<RecordView>::empty() =~= before);
                        }
                    }
                    break ;
                },
                Some(Err(e)) => {
                    proof {
                        assert(before + Seq::<RecordView>::empty() =~= before);
                    }
                    failure = Some(e);
                    break ;
                },
                Some(Ok(record)) => {
                    records.push(record);
                    proof {
                        assert(records.deep_view() =~= before + seq![record@]);
                        let more = records_of(ddr, self.remaining());
                        assert(before + (seq![record@] + more.0) =~= (before + seq![record@])
                            + more.0);
                    }
                },
            }
        }
        (records, failure)
    }
}

} // verus!
