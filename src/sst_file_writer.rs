//! A writer for immutable files of key-ordered records, meant to be loaded
//! into a store later. Every record carries sequence number 0.
//!
//! The writer lays the file out in memory and hands the bytes over to be
//! stored. Layout, all integers little-endian: the format version in 4
//! bytes, then per record the key's length in 8 bytes, the key, the value's
//! length in 8 bytes, the value, and the sequence number in 8 bytes.
use vstd::prelude::*;
use crate::bytes::{bytes_less, lex_lt};
use crate::error::Error;

verus! {

/// The version of the record layout written.
pub const FORMAT_VERSION: u32 = 2;

/// The sequence number that every record of a file carries.
pub const FILE_SEQUENCE_NUMBER: u64 = 0;

/// The `k` low bytes of `n`, least significant first.
pub open spec fn le_bytes(n: nat, k: nat) -> Seq<u8>
    decreases k,
{
    if k == 0 {
        Seq::empty()
    } else {
        seq![(n % 256) as u8] + le_bytes(n / 256, (k - 1) as nat)
    }
}

/// The bytes of one record.
pub open spec fn encode_record(key: Seq<u8>, value: Seq<u8>) -> Seq<u8> {
    le_bytes(key.len(), 8) + key + le_bytes(value.len(), 8) + value + le_bytes(
        FILE_SEQUENCE_NUMBER as nat,
        8,
    )
}

/// The bytes of a sequence of records, one after the other.
pub open spec fn encode_records(records: Seq<(Seq<u8>, Seq<u8>)>) -> Seq<u8>
    decreases records.len(),
{
    if records.len() == 0 {
        Seq::empty()
    } else {
        encode_records(records.drop_last()) + encode_record(records.last().0, records.last().1)
    }
}

/// The bytes of a whole file.
pub open spec fn encode_file(records: Seq<(Seq<u8>, Seq<u8>)>) -> Seq<u8> {
    le_bytes(FORMAT_VERSION as nat, 4) + encode_records(records)
}

/// The keys of the records increase strictly in byte-wise order.
pub open spec fn strictly_increasing(records: Seq<(Seq<u8>, Seq<u8>)>) -> bool {
    forall|i: int| 0 <= i < records.len() - 1 ==> lex_lt(#[trigger] records[i].0, records[i + 1].0)
}

/// Appends the `k` low bytes of `n`, least significant first.
fn push_le(buf: &mut Vec<u8>, n: u64, k: usize)
    requires
        k <= 8,
    ensures
        final(buf)@ == old(buf)@ + le_bytes(n as nat, k as nat),
{
    let mut x: u64 = n;
    let mut i: usize = 0;
    while i < k
        invariant
            i <= k,
            buf@ + le_bytes(x as nat, (k - i) as nat) == old(buf)@ + le_bytes(n as nat, k as nat),
        decreases k - i,
    {
        let ghost b0 = buf@;
        buf.push((x % 256) as u8);
        proof {
            assert(le_bytes(x as nat, (k - i) as nat) == seq![(x % 256) as u8] + le_bytes(
                (x / 256) as nat,
                (k - i - 1) as nat,
            ));
            assert(b0 + le_bytes(x as nat, (k - i) as nat) =~= buf@ + le_bytes(
                (x / 256) as nat,
                (k - i - 1) as nat,
            ));
        }
        x = x / 256;
        i = i + 1;
    }
    assert(buf@ + le_bytes(x as nat, 0) =~= buf@);
}

/// Appends the bytes of one record.
fn append_record(buf: &mut Vec<u8>, key: &[u8], value: &[u8])
    ensures
        final(buf)@ == old(buf)@ + encode_record(key@, value@),
{
    let ghost b0 = buf@;
    push_le(buf, key.len() as u64, 8);
    buf.extend_from_slice(key);
    push_le(buf, value.len() as u64, 8);
    buf.extend_from_slice(value);
    push_le(buf, FILE_SEQUENCE_NUMBER, 8);
    assert(buf@ =~= b0 + encode_record(key@, value@));
}

/// Where a writer stands: it is opened once, written, and finished once;
/// after a failure every call reports that failure.
#[derive(Clone, Copy, Debug, PartialEq, Eq, Structural)]
pub enum WriterState {
    Created,
    Writing,
    Finished,
    Failed(Error),
}

/// What a finished file holds.
#[derive(Debug)]
pub struct ExternalSstFileInfo {
    file_path: String,
    smallest_key: Vec<u8>,
    largest_key: Vec<u8>,
    sequence_number: u64,
    file_size: u64,
    num_entries: u64,
    version: u32,
}

impl ExternalSstFileInfo {
    pub closed spec fn spec_file_path(&self) -> Seq<char> {
        self.file_path@
    }

    pub closed spec fn spec_smallest_key(&self) -> Seq<u8> {
        self.smallest_key@
    }

    pub closed spec fn spec_largest_key(&self) -> Seq<u8> {
        self.largest_key@
    }

    pub closed spec fn spec_sequence_number(&self) -> u64 {
        self.sequence_number
    }

    pub closed spec fn spec_file_size(&self) -> u64 {
        self.file_size
    }

    pub closed spec fn spec_num_entries(&self) -> u64 {
        self.num_entries
    }

    pub closed spec fn spec_version(&self) -> u32 {
        self.version
    }

    /// The path the file was opened for.
    pub fn file_path(&self) -> (r: &str)
        ensures
            r@ == self.spec_file_path(),
    {
        self.file_path.as_str()
    }

    /// The key of the first record.
    pub fn smallest_key(&self) -> (r: &[u8])
        ensures
            r@ == self.spec_smallest_key(),
    {
        self.smallest_key.as_slice()
    }

    /// The key of the last record.
    pub fn largest_key(&self) -> (r: &[u8])
        ensures
            r@ == self.spec_largest_key(),
    {
        self.largest_key.as_slice()
    }

    /// The sequence number of every record.
    pub fn sequence_number(&self) -> (r: u64)
        ensures
            r == self.spec_sequence_number(),
    {
        self.sequence_number
    }

    /// The size of the file in bytes.
    pub fn file_size(&self) -> (r: u64)
        ensures
            r == self.spec_file_size(),
    {
        self.file_size
    }

    /// The number of records.
    pub fn num_entries(&self) -> (r: u64)
        ensures
            r == self.spec_num_entries(),
    {
        self.num_entries
    }

    /// The version of the record layout.
    pub fn version(&self) -> (r: u32)
        ensures
            r == self.spec_version(),
    {
        self.version
    }
}

/// Writes a strictly increasing stream of records into one file.
pub struct SstFileWriter {
    state: WriterState,
    path: String,
    buffer: Vec<u8>,
    smallest_key: Vec<u8>,
    last_key: Vec<u8>,
    num_entries: u64,
    records: Ghost<Seq<(Seq<u8>, Seq<u8>)>>,
}

/// Options of a writer.
pub struct SstFileWriterBuilder {}

impl SstFileWriterBuilder {
    /// A writer that was not opened yet.
    pub fn build(&mut self) -> (r: SstFileWriter)
        ensures
            r.wf(),
            r.spec_state() == WriterState::Created,
            r.records() == Seq::<(Seq<u8>, Seq<u8>)>::empty(),
    {
        let mut buffer: Vec<u8> = Vec::new();
        push_le(&mut buffer, FORMAT_VERSION as u64, 4);
        let r = SstFileWriter {
            state: WriterState::Created,
            path: String::new(),
            buffer,
            smallest_key: Vec::new(),
            last_key: Vec::new(),
            num_entries: 0,
            records: Ghost(Seq::empty()),
        };
        assert(r.buffer@ =~= encode_file(Seq::empty()));
        r
    }
}

impl SstFileWriter {
    /// The writer is well formed: its bytes encode its records, which
    /// increase strictly, and it knows their count, first and last key.
    pub closed spec fn wf(&self) -> bool {
        &&& self.buffer@ == encode_file(self.records@)
        &&& strictly_increasing(self.records@)
        &&& self.num_entries == self.records@.len()
        &&& self.num_entries <= self.buffer@.len()
        &&& self.records@.len() > 0 ==> self.smallest_key@ == self.records@[0].0
            && self.last_key@ == self.records@.last().0
        &&& self.state == WriterState::Created ==> self.records@.len() == 0
    }

    /// The records added so far.
    pub closed spec fn records(&self) -> Seq<(Seq<u8>, Seq<u8>)> {
        self.records@
    }

    pub closed spec fn spec_state(&self) -> WriterState {
        self.state
    }

    /// The path given to `open`.
    pub closed spec fn spec_path(&self) -> Seq<char> {
        self.path@
    }

    /// The bytes laid out so far.
    pub closed spec fn bytes(&self) -> Seq<u8> {
        self.buffer@
    }

    /// The file's bytes are the encoding of its records.
    pub proof fn lemma_bytes_encode_records(&self)
        requires
            self.wf(),
        ensures
            self.bytes() == encode_file(self.records()),
            strictly_increasing(self.records()),
    {
    }

    /// Options of a writer with the byte-wise key order.
    pub fn builder() -> (r: SstFileWriterBuilder) {
        SstFileWriterBuilder {  }
    }

    /// Where the writer stands.
    pub fn state(&self) -> (r: WriterState)
        ensures
            r == self.spec_state(),
    {
        self.state
    }

    /// Prepares the writer to write the file at `file_path`. An empty path
    /// names no file and fails with `IoError`, which fails the writer.
    pub fn open(&mut self, file_path: &str) -> (r: Result<(), Error>)
        requires
            old(self).wf(),
        ensures
            final(self).wf(),
            final(self).records() == old(self).records(),
            final(self).bytes() == old(self).bytes(),
            match old(self).spec_state() {
                WriterState::Created => if file_path@.len() > 0 {
                    &&& r is Ok
                    &&& final(self).spec_state() == WriterState::Writing
                    &&& final(self).spec_path() == file_path@
                } else {
                    &&& r == Err::<(), Error>(Error::IoError)
                    &&& final(self).spec_state() == WriterState::Failed(Error::IoError)
                },
                WriterState::Failed(e) => r == Err::<(), Error>(e) && final(self).spec_state()
                    == old(self).spec_state(),
                _ => r == Err::<(), Error>(Error::InvalidState) && final(self).spec_state()
                    == old(self).spec_state(),
            },
    {
        match self.state {
            WriterState::Created => {
                if file_path.is_empty() {
                    self.state = WriterState::Failed(Error::IoError);
                    Err(Error::IoError)
                } else {
                    self.path = file_path.to_owned();
                    self.state = WriterState::Writing;
                    Ok(())
                }
            },
            WriterState::Failed(e) => Err(e),
            _ => Err(Error::InvalidState),
        }
    }

    /// Takes the outcome of the file work done for this writer: creating
    /// the file after `open`, and writing, flushing and closing it before
    /// `finish`. A failure fails the writer with `IoError`.
    pub fn report_io(&mut self, succeeded: bool) -> (r: Result<(), Error>)
        requires
            old(self).wf(),
        ensures
            final(self).wf(),
            final(self).records() == old(self).records(),
            final(self).bytes() == old(self).bytes(),
            final(self).spec_path() == old(self).spec_path(),
            match old(self).spec_state() {
                WriterState::Failed(e) => r == Err::<(), Error>(e) && final(self).spec_state()
                    == old(self).spec_state(),
                WriterState::Finished => r == Err::<(), Error>(Error::InvalidState)
                    && final(self).spec_state() == old(self).spec_state(),
                _ => if succeeded {
                    r is Ok && final(self).spec_state() == old(self).spec_state()
                } else {
                    r == Err::<(), Error>(Error::IoError) && final(self).spec_state() == WriterState::Failed(
                        Error::IoError,
                    )
                },
            },
    {
        match self.state {
            WriterState::Failed(e) => Err(e),
            WriterState::Finished => Err(Error::InvalidState),
            _ => {
                if succeeded {
                    Ok(())
                } else {
                    self.state = WriterState::Failed(Error::IoError);
                    Err(Error::IoError)
                }
            },
        }
    }

    /// Appends a record. Its key must sort strictly after the previous
    /// key; otherwise the call fails with `OutOfOrder`, which fails the
    /// writer, and nothing is added.
    pub fn add(&mut self, key: &[u8], value: &[u8]) -> (r: Result<(), Error>)
        requires
            old(self).wf(),
        ensures
            final(self).wf(),
            final(self).spec_path() == old(self).spec_path(),
            old(self).spec_state() == WriterState::Writing ==> if old(self).records().len() == 0
                || lex_lt(old(self).records().last().0, key@) {
                &&& r is Ok
                &&& final(self).spec_state() == WriterState::Writing
                &&& final(self).records() == old(self).records().push((key@, value@))
            } else {
                &&& r == Err::<(), Error>(Error::OutOfOrder)
                &&& final(self).spec_state() == WriterState::Failed(Error::OutOfOrder)
                &&& final(self).records() == old(self).records()
            },
            old(self).spec_state() != WriterState::Writing ==> {
                &&& final(self).spec_state() == old(self).spec_state()
                &&& final(self).records() == old(self).records()
                &&& r == Err::<(), Error>(
                    match old(self).spec_state() {
                        WriterState::Failed(e) => e,
                        _ => Error::InvalidState,
                    },
                )
            },
    {
        match self.state {
            WriterState::Writing => {},
            WriterState::Failed(e) => {
                return Err(e);
            },
            _ => {
                return Err(Error::InvalidState);
            },
        }
        if self.num_entries > 0 && !bytes_less(self.last_key.as_slice(), key) {
            self.state = WriterState::Failed(Error::OutOfOrder);
            return Err(Error::OutOfOrder);
        }
        let ghost old_records = self.records@;
        let ghost b0 = self.buffer@;
        append_record(&mut self.buffer, key, value);
        let blen = self.buffer.len();
        let ghost new_records = old_records.push((key@, value@));
        proof {
            assert(new_records.drop_last() =~= old_records);
            assert(encode_file(new_records) =~= encode_file(old_records) + encode_record(key@, value@));
            assert forall|i: int| 0 <= i < new_records.len() - 1 implies lex_lt(
                #[trigger] new_records[i].0,
                new_records[i + 1].0,
            ) by {
                if i < old_records.len() - 1 {
                    assert(new_records[i] == old_records[i]);
                    assert(new_records[i + 1] == old_records[i + 1]);
                }
            }
        }
        self.records = Ghost(new_records);
        if self.num_entries == 0 {
            self.smallest_key = vstd::slice::slice_to_vec(key);
        }
        self.last_key = vstd::slice::slice_to_vec(key);
        self.num_entries = self.num_entries + 1;
        assert(self.num_entries <= blen);
        Ok(())
    }

    /// Completes the file and describes it. A writer without records fails
    /// with `EmptyFile` and is then failed; an empty file is never produced.
    pub fn finish(&mut self) -> (r: Result<ExternalSstFileInfo, Error>)
        requires
            old(self).wf(),
        ensures
            final(self).wf(),
            final(self).records() == old(self).records(),
            final(self).bytes() == old(self).bytes(),
            old(self).spec_state() == WriterState::Writing ==> if old(self).records().len() > 0 {
                &&& final(self).spec_state() == WriterState::Finished
                &&& r matches Ok(info) && {
                    &&& info.spec_file_path() == old(self).spec_path()
                    &&& info.spec_smallest_key() == old(self).records()[0].0
                    &&& info.spec_largest_key() == old(self).records().last().0
                    &&& info.spec_num_entries() == old(self).records().len()
                    &&& info.spec_file_size() == old(self).bytes().len()
                    &&& info.spec_sequence_number() == FILE_SEQUENCE_NUMBER
                    &&& info.spec_version() == FORMAT_VERSION
                }
            } else {
                &&& r is Err && r->Err_0 == Error::EmptyFile
                &&& final(self).spec_state() == WriterState::Failed(Error::EmptyFile)
            },
            old(self).spec_state() != WriterState::Writing ==> {
                &&& final(self).spec_state() == old(self).spec_state()
                &&& r is Err && r->Err_0 == match old(self).spec_state() {
                    WriterState::Failed(e) => e,
                    _ => Error::InvalidState,
                }
            },
    {
        match self.state {
            WriterState::Writing => {},
            WriterState::Failed(e) => {
                return Err(e);
            },
            _ => {
                return Err(Error::InvalidState);
            },
        }
        if self.num_entries == 0 {
            self.state = WriterState::Failed(Error::EmptyFile);
            return Err(Error::EmptyFile);
        }
        self.state = WriterState::Finished;
        Ok(
            ExternalSstFileInfo {
                file_path: self.path.clone(),
                smallest_key: vstd::slice::slice_to_vec(self.smallest_key.as_slice()),
                largest_key: vstd::slice::slice_to_vec(self.last_key.as_slice()),
                sequence_number: FILE_SEQUENCE_NUMBER,
                file_size: self.buffer.len() as u64,
                num_entries: self.num_entries,
                version: FORMAT_VERSION,
            },
        )
    }

    /// The number of records added so far.
    pub fn num_entries(&self) -> (r: u64)
        requires
            self.wf(),
        ensures
            r == self.records().len(),
    {
        self.num_entries
    }

    /// The size in bytes of what was laid out so far.
    pub fn file_size(&self) -> (r: u64)
        ensures
            r == self.bytes().len(),
    {
        self.buffer.len() as u64
    }

    /// The bytes laid out so far, to be stored as the file.
    pub fn contents(&self) -> (r: &[u8])
        ensures
            r@ == self.bytes(),
    {
        self.buffer.as_slice()
    }
}

} // verus!
