//! The engine: table and database lifecycle and record CRUD, composed from
//! the path layout, the codec, the write buffer, the run builder and the
//! segment text operations.
//!
//! The engine does no I/O itself. Each operation takes what the caller
//! found on disk (whether a path exists, what a file holds, how many
//! segments and runs a table has) and returns what is to be written, or the
//! error of the first stage that failed.
use vstd::prelude::*;
use vstd::utf8::is_ascii_chars;

use crate::codec::{cipher_of, decoded, is_base64_char, sealed, DiskEnc};
use crate::err::FmError;
use crate::lines::{
    join_lines, lemma_join_ascii, lemma_split_ascii, lemma_split_join, lemma_split_pieces,
    no_newline, split_lines, target_segment, FsApi,
};
use crate::memtable::{keys_counted, next_key, Memtable};
use crate::path::{join, join_path, numbered, numbered_name, DB_DIRECTORY, SCHEMA_EXT, SEGMENT_EXT};
use crate::record::Record;
use crate::scan::{
    decode_lines, decode_segment, decode_segments, file_views, lemma_decode_remove,
    lemma_decode_update, line_views, plaintexts, read_segments, RecordLine,
};
use crate::sstable::{collapse, run_bytes, run_path, SStable};

verus! {

/// How many records a table buffers before it is flushed.
pub const CAPACITY: usize = 10;

/// The size in bytes at which a segment is full and a new one is started.
pub const SEGMENT_LIMIT: u64 = 524288;

/// The most records a table holds by default: no limit in practice.
pub const MAX_RECORDS: u64 = 0xffff_ffff_ffff_ffff;

/// The engine's tunables.
pub struct Config {
    /// How many records a table buffers before it is flushed.
    pub capacity: usize,
    /// The size in bytes at which a segment is full.
    pub segment_limit: u64,
    /// The most records a table may hold; a write beyond it fails.
    pub max_records: u64,
}

impl Config {
    /// Ten buffered records and 512 KiB segments.
    pub fn standard() -> (r: Self)
        ensures
            r.capacity == CAPACITY,
            r.segment_limit == SEGMENT_LIMIT,
            r.max_records == MAX_RECORDS,
    {
        Config { capacity: CAPACITY, segment_limit: SEGMENT_LIMIT, max_records: MAX_RECORDS }
    }
}

impl Default for Config {
    fn default() -> (r: Self)
        ensures
            r.capacity == CAPACITY,
            r.segment_limit == SEGMENT_LIMIT,
            r.max_records == MAX_RECORDS,
    {
        Config::standard()
    }
}

/// What the caller found when it went to read a file.
pub enum Fetch {
    /// The file does not exist.
    Absent,
    /// The file exists but could not be read.
    Failed,
    /// The file's contents.
    Content(String),
}

/// What the caller found when it probed for a path.
pub enum Probe {
    /// The path exists.
    Found,
    /// The path does not exist.
    Absent,
    /// The probe failed for another reason, with the system's message.
    Failed(String),
}

/// What the caller found in a table directory before a record write.
pub struct SegmentLayout {
    /// How many records the table's segments hold.
    pub records: u64,
    /// How many record segments the table has.
    pub segments: usize,
    /// The size in bytes of the newest segment, zero when there is none.
    pub active_size: u64,
    /// How many level-0 runs the table has.
    pub runs: u64,
}

/// What a record write asks the caller to persist: a new run where the
/// buffer was flushed first, then one line appended to a segment.
pub struct RecordWrite {
    /// The path and bytes of the run to create, where a flush happened.
    pub run: Option<(String, Vec<u8>)>,
    /// The segment to append to.
    pub segment: String,
    /// The line to append: the record's ciphertext and a newline.
    pub line: String,
    /// The sequence key the record got in the buffer.
    pub key: u64,
}

/// The directory of database `db` under `root`.
pub open spec fn db_dir(root: Seq<char>, db: Seq<char>) -> Seq<char> {
    join(join(root, DB_DIRECTORY@), db)
}

/// The directory of table `t` of database `db`.
pub open spec fn table_dir(root: Seq<char>, db: Seq<char>, t: Seq<char>) -> Seq<char> {
    join(db_dir(root, db), t)
}

/// The schema file of table `t`.
pub open spec fn schema_file(root: Seq<char>, db: Seq<char>, t: Seq<char>) -> Seq<char> {
    join(table_dir(root, db, t), t + SCHEMA_EXT@)
}

/// Segment number `n` of table `t`.
pub open spec fn segment_file(root: Seq<char>, db: Seq<char>, t: Seq<char>, n: nat) -> Seq<char> {
    join(table_dir(root, db, t), numbered(n, SEGMENT_EXT@))
}

/// The buffer of `p`, empty where it has none.
pub open spec fn buffer_of(m: Map<Seq<char>, Seq<(u64, Seq<char>)>>, p: Seq<char>) -> Seq<
    (u64, Seq<char>),
> {
    if m.contains_key(p) {
        m[p]
    } else {
        Seq::<(u64, Seq<char>)>::empty()
    }
}

/// One buffered write of payload `c` to a buffer holding `buf` under
/// capacity `cap`: whether the buffer is flushed first, and what it holds
/// afterwards.
pub open spec fn buffered_write(cap: nat, buf: Seq<(u64, Seq<char>)>, c: Seq<char>) -> (bool, Seq<
    (u64, Seq<char>),
>) {
    if buf.len() >= cap {
        (true, seq![(1u64, c)])
    } else {
        (false, buf.push((next_key(buf) as u64, c)))
    }
}

/// A run of buffered writes of the payloads `cs`, in order, starting from a
/// buffer holding `buf`: how many flushes happened, and what the buffer
/// holds after the last write.
pub open spec fn replay(cap: nat, buf: Seq<(u64, Seq<char>)>, cs: Seq<Seq<char>>) -> (nat, Seq<
    (u64, Seq<char>),
>)
    decreases cs.len(),
{
    if cs.len() == 0 {
        (0, buf)
    } else {
        let (n, b) = replay(cap, buf, cs.drop_last());
        let (flushed, after) = buffered_write(cap, b, cs.last());
        (if flushed {
            n + 1
        } else {
            n
        }, after)
    }
}

proof fn lemma_fill(cap: nat, cs: Seq<Seq<char>>, j: nat)
    requires
        j <= cap,
        j <= cs.len(),
    ensures
        replay(cap, Seq::<(u64, Seq<char>)>::empty(), cs.take(j as int)).0 == 0,
        replay(cap, Seq::<(u64, Seq<char>)>::empty(), cs.take(j as int)).1.len() == j,
    decreases j,
{
    if j > 0 {
        lemma_fill(cap, cs, (j - 1) as nat);
        assert(cs.take(j as int).drop_last() == cs.take(j - 1));
    }
}

/// Flush trigger: from an empty buffer of capacity `cap`, the first `cap`
/// writes never flush and fill the buffer; write `cap + 1` flushes exactly
/// once, before it is buffered, and leaves the buffer holding only itself,
/// under the first key.
pub proof fn lemma_flush_trigger(cap: nat, cs: Seq<Seq<char>>)
    requires
        cs.len() == cap + 1,
    ensures
        replay(cap, Seq::<(u64, Seq<char>)>::empty(), cs.drop_last()).0 == 0,
        replay(cap, Seq::<(u64, Seq<char>)>::empty(), cs.drop_last()).1.len() == cap,
        replay(cap, Seq::<(u64, Seq<char>)>::empty(), cs) == (1nat, seq![(1u64, cs.last())]),
{
    lemma_fill(cap, cs, cap);
    assert(cs.take(cap as int) == cs.drop_last());
}

/// A run of successful record writes to one table, the payloads `cs` in
/// order, as `Disk::write_record` states each of them: `bufs[i]` are the
/// buffers before write `i`. The table's buffer after each prefix of the
/// writes is what `replay` gives, and write `i` flushes exactly when
/// `replay` counts one more flush for it.
pub proof fn lemma_writes_replay(
    cap: nat,
    p: Seq<char>,
    bufs: Seq<Map<Seq<char>, Seq<(u64, Seq<char>)>>>,
    cs: Seq<Seq<char>>,
)
    requires
        bufs.len() == cs.len() + 1,
        forall|i: int|
            0 <= i < cs.len() ==> #[trigger] bufs[i + 1] == bufs[i].insert(
                p,
                buffered_write(cap, buffer_of(bufs[i], p), cs[i]).1,
            ),
    ensures
        forall|j: int|
            0 <= j <= cs.len() ==> buffer_of(#[trigger] bufs[j], p) == replay(
                cap,
                buffer_of(bufs[0], p),
                cs.take(j),
            ).1,
        forall|i: int|
            0 <= i < cs.len() ==> (#[trigger] buffered_write(cap, buffer_of(bufs[i], p), cs[i]).0
                <==> replay(cap, buffer_of(bufs[0], p), cs.take(i + 1)).0 == replay(
                cap,
                buffer_of(bufs[0], p),
                cs.take(i),
            ).0 + 1),
{
    let b0 = buffer_of(bufs[0], p);
    assert forall|j: int| 0 <= j <= cs.len() implies buffer_of(#[trigger] bufs[j], p) == replay(
        cap,
        b0,
        cs.take(j),
    ).1 by {
        lemma_replay_prefix(cap, p, bufs, cs, j);
    }
    assert forall|i: int| 0 <= i < cs.len() implies (#[trigger] buffered_write(
        cap,
        buffer_of(bufs[i], p),
        cs[i],
    ).0 <==> replay(cap, b0, cs.take(i + 1)).0 == replay(cap, b0, cs.take(i)).0 + 1) by {
        lemma_replay_prefix(cap, p, bufs, cs, i);
        assert(cs.take(i + 1).drop_last() == cs.take(i));
        assert(cs.take(i + 1).last() == cs[i]);
    }
}

/// Flush trigger over a run of record writes: from an empty buffer of
/// capacity `cap`, of `cap + 1` successful writes to one table as
/// `Disk::write_record` states them, none but the last flushes (so none but
/// the last builds a run), and the last leaves only its own record buffered.
pub proof fn lemma_writes_flush_once(
    cap: nat,
    p: Seq<char>,
    bufs: Seq<Map<Seq<char>, Seq<(u64, Seq<char>)>>>,
    cs: Seq<Seq<char>>,
)
    requires
        cs.len() == cap + 1,
        bufs.len() == cs.len() + 1,
        buffer_of(bufs[0], p).len() == 0,
        forall|i: int|
            0 <= i < cs.len() ==> #[trigger] bufs[i + 1] == bufs[i].insert(
                p,
                buffered_write(cap, buffer_of(bufs[i], p), cs[i]).1,
            ),
    ensures
        forall|i: int|
            0 <= i < cap ==> !(#[trigger] buffered_write(cap, buffer_of(bufs[i], p), cs[i]).0),
        buffered_write(cap, buffer_of(bufs[cap as int], p), cs[cap as int]).0,
        buffer_of(bufs[cs.len() as int], p) == seq![(1u64, cs.last())],
{
    lemma_writes_replay(cap, p, bufs, cs);
    let b0 = buffer_of(bufs[0], p);
    assert(b0 =~= Seq::<(u64, Seq<char>)>::empty());
    assert forall|i: int| 0 <= i < cap implies !(#[trigger] buffered_write(
        cap,
        buffer_of(bufs[i], p),
        cs[i],
    ).0) by {
        lemma_fill(cap, cs, i as nat);
        lemma_fill(cap, cs, (i + 1) as nat);
    }
    lemma_fill(cap, cs, cap);
    lemma_flush_trigger(cap, cs);
    assert(cs.take(cs.len() as int) =~= cs);
    assert(cs.take(cap as int) =~= cs.drop_last());
}

proof fn lemma_replay_prefix(
    cap: nat,
    p: Seq<char>,
    bufs: Seq<Map<Seq<char>, Seq<(u64, Seq<char>)>>>,
    cs: Seq<Seq<char>>,
    j: int,
)
    requires
        bufs.len() == cs.len() + 1,
        forall|i: int|
            0 <= i < cs.len() ==> #[trigger] bufs[i + 1] == bufs[i].insert(
                p,
                buffered_write(cap, buffer_of(bufs[i], p), cs[i]).1,
            ),
        0 <= j <= cs.len(),
    ensures
        buffer_of(bufs[j], p) == replay(cap, buffer_of(bufs[0], p), cs.take(j)).1,
    decreases j,
{
    if j == 0 {
        assert(cs.take(0) =~= Seq::<Seq<char>>::empty());
    } else {
        lemma_replay_prefix(cap, p, bufs, cs, j - 1);
        assert(cs.take(j).drop_last() == cs.take(j - 1));
        assert(cs.take(j).last() == cs[j - 1]);
        assert(bufs[j] == bufs[(j - 1) + 1]);
    }
}

/// Line `index` of `contents` exists and holds something.
pub open spec fn slot_ok(contents: Seq<char>, index: int) -> bool {
    0 <= index < split_lines(contents).len() && split_lines(contents)[index].len() > 0
}

/// What reading a schema file yields at each stage: `TableNotFound`,
/// `TableReadError`, `DecryptionError`, or the schema text.
pub open spec fn table_read(key: Seq<char>, fetched: Fetch) -> Result<Seq<char>, FmError> {
    match fetched {
        Fetch::Absent => Err(FmError::TableNotFound),
        Fetch::Failed => Err(FmError::TableReadError),
        Fetch::Content(c) => match decoded(key, c@) {
            Some(p) => Ok(p),
            None => Err(FmError::DecryptionError),
        },
    }
}

/// The engine: a root directory, the codec bound to one secret, and the
/// write buffers of the tables written to.
pub struct Disk {
    path: String,
    memory: Memtable,
    enc: DiskEnc,
    config: Config,
}

impl Disk {
    /// The root directory.
    pub closed spec fn root(&self) -> Seq<char> {
        self.path@
    }

    /// The secret every payload is encrypted under.
    pub closed spec fn key(&self) -> Seq<char> {
        self.enc@
    }

    /// The write buffers, by table directory.
    pub closed spec fn buffers(&self) -> Map<Seq<char>, Seq<(u64, Seq<char>)>> {
        self.memory@
    }

    /// How many records a table buffers before it is flushed.
    pub closed spec fn capacity(&self) -> nat {
        self.config.capacity as nat
    }

    /// The size at which a segment is full.
    pub closed spec fn segment_limit(&self) -> nat {
        self.config.segment_limit as nat
    }

    /// The most records a table may hold.
    pub closed spec fn max_records(&self) -> nat {
        self.config.max_records as nat
    }

    /// The buffers are well formed and use the configured capacity.
    pub closed spec fn wf(&self) -> bool {
        &&& self.memory.wf()
        &&& self.memory.capacity() == self.config.capacity
    }

    /// Every buffer of a well-formed engine has its keys counting up from
    /// one, so its last key is its largest.
    pub proof fn lemma_keys(&self, table_path: Seq<char>)
        requires
            self.wf(),
        ensures
            keys_counted(buffer_of(self.buffers(), table_path)),
    {
        if self.memory@.contains_key(table_path) {
            self.memory.lemma_keys(table_path);
        }
    }

    /// An engine under `path` (`data` where none is given) whose payloads
    /// are encrypted under `key`, with the standard configuration.
    pub fn new(key: String, path: Option<String>) -> (r: Self)
        ensures
            r.wf(),
            r.key() == key@,
            r.root() == match path {
                Some(p) => p@,
                None => "data"@,
            },
            r.buffers() == Map::<Seq<char>, Seq<(u64, Seq<char>)>>::empty(),
            r.capacity() == CAPACITY,
            r.segment_limit() == SEGMENT_LIMIT,
            r.max_records() == MAX_RECORDS,
    {
        Disk::with_config(key, path, Config::standard())
    }

    /// An engine as `new` makes it, with the given configuration.
    pub fn with_config(key: String, path: Option<String>, config: Config) -> (r: Self)
        ensures
            r.wf(),
            r.key() == key@,
            r.root() == match path {
                Some(p) => p@,
                None => "data"@,
            },
            r.buffers() == Map::<Seq<char>, Seq<(u64, Seq<char>)>>::empty(),
            r.capacity() == config.capacity,
            r.segment_limit() == config.segment_limit,
            r.max_records() == config.max_records,
    {
        let root = match path {
            Some(p) => p,
            None => String::from_str("data"),
        };
        let memory = Memtable::new(config.capacity);
        Disk { path: root, memory, enc: DiskEnc::new(key), config }
    }

    /// The codec of this engine.
    pub fn codec(&self) -> (r: &DiskEnc)
        ensures
            r@ == self.key(),
    {
        &self.enc
    }

    /// Whether the table directory `table_path` has a write buffer.
    pub fn has_buffer(&self, table_path: &str) -> (r: bool)
        requires
            self.wf(),
        ensures
            r == self.buffers().contains_key(table_path@),
    {
        self.memory.exist_table(table_path)
    }

    /// A copy of the write buffer of the table directory `table_path`.
    pub fn buffered(&self, table_path: &str) -> (r: Option<Vec<(u64, String)>>)
        requires
            self.wf(),
        ensures
            match r {
                Some(v) => self.buffers().contains_key(table_path@)
                    && crate::memtable::entry_views(v@) == self.buffers()[table_path@],
                None => !self.buffers().contains_key(table_path@),
            },
    {
        self.memory.read_table(table_path)
    }

    /// The path of `components` below this engine's database directory.
    pub fn format_path(&self, components: &[&str]) -> (r: String)
        ensures
            r@ == crate::path::path_of(self.root(), crate::path::views_of(components@)),
    {
        crate::path::format_path(self.path.as_str(), components)
    }

    /// The directory of database `db`.
    pub fn database_path(&self, db: &str) -> (r: String)
        ensures
            r@ == db_dir(self.root(), db@),
    {
        let base = join_path(self.path.as_str(), DB_DIRECTORY);
        join_path(base.as_str(), db)
    }

    /// The directory of table `table_name` of database `db`.
    pub fn table_path(&self, db: &str, table_name: &str) -> (r: String)
        ensures
            r@ == table_dir(self.root(), db@, table_name@),
    {
        let dir = self.database_path(db);
        join_path(dir.as_str(), table_name)
    }

    /// The schema file of table `table_name`.
    pub fn schema_path(&self, db: &str, table_name: &str) -> (r: String)
        ensures
            r@ == schema_file(self.root(), db@, table_name@),
    {
        let dir = self.table_path(db, table_name);
        let mut name = String::from_str(table_name);
        name.append(SCHEMA_EXT);
        join_path(dir.as_str(), name.as_str())
    }

    /// Segment number `n` of table `table_name`.
    pub fn segment_path(&self, db: &str, table_name: &str, n: u64) -> (r: String)
        ensures
            r@ == segment_file(self.root(), db@, table_name@, n as nat),
    {
        let dir = self.table_path(db, table_name);
        let name = numbered_name(n, SEGMENT_EXT);
        join_path(dir.as_str(), name.as_str())
    }

    /// The schema file of a table and what it is to hold: the ciphertext
    /// of the schema text. Reading that ciphertext back yields the schema
    /// text again.
    pub fn write_table(&self, db: &str, table_name: &str, schema: &str) -> (r: (String, String))
        ensures
            r.0@ == schema_file(self.root(), db@, table_name@),
            r.1@ == cipher_of(self.key(), schema@),
            table_read(self.key(), Fetch::Content(r.1)) == Ok::<Seq<char>, FmError>(schema@),
    {
        let path = self.schema_path(db, table_name);
        let cipher = self.enc.seal(schema);
        (path, cipher)
    }

    /// Completes `write_table` once the caller tried to write the schema
    /// file: registers an empty buffer for the table where the write
    /// succeeded and it has none, `TableCreationError` where it did not.
    pub fn commit_table(&mut self, db: &str, table_name: &str, written: bool) -> (r: Result<
        (),
        FmError,
    >)
        requires
            old(self).wf(),
        ensures
            final(self).wf(),
            final(self).key() == old(self).key(),
            final(self).root() == old(self).root(),
            final(self).capacity() == old(self).capacity(),
            final(self).segment_limit() == old(self).segment_limit(),
            final(self).max_records() == old(self).max_records(),
            written ==> r is Ok && final(self).buffers() == old(self).buffers().insert(
                table_dir(old(self).root(), db@, table_name@),
                buffer_of(old(self).buffers(), table_dir(old(self).root(), db@, table_name@)),
            ),
            !written ==> r == Err::<(), FmError>(FmError::TableCreationError) && final(self).buffers() == old(self).buffers(),
    {
        if !written {
            return Err(FmError::TableCreationError);
        }
        let dir = self.table_path(db, table_name);
        self.memory.write_table(dir.as_str());
        proof {
            if old(self).buffers().contains_key(dir@) {
                assert(old(self).buffers().insert(dir@, old(self).buffers()[dir@]) =~= old(
                    self,
                ).buffers());
            }
        }
        Ok(())
    }

    /// The schema text of a table from what the caller found at its schema
    /// file, stage by stage: `TableNotFound`, `TableReadError`,
    /// `DecryptionError`.
    pub fn read_table(&self, fetched: &Fetch) -> (r: Result<String, FmError>)
        ensures
            match table_read(self.key(), *fetched) {
                Ok(p) => r matches Ok(t) && t@ == p,
                Err(e) => r == Err::<String, FmError>(e),
            },
    {
        match fetched {
            Fetch::Absent => Err(FmError::TableNotFound),
            Fetch::Failed => Err(FmError::TableReadError),
            Fetch::Content(c) => self.enc.decrypt(c.as_str()),
        }
    }

    /// Completes the deletion of a table once the caller checked that its
    /// directory exists and, where it did, tried to remove it: `NotFound`,
    /// `TableDeletionError`, or the table's buffer is dropped.
    pub fn delete_table(&mut self, db: &str, table_name: &str, existed: bool, removed: bool) -> (r:
        Result<(), FmError>)
        requires
            old(self).wf(),
        ensures
            final(self).wf(),
            final(self).key() == old(self).key(),
            final(self).root() == old(self).root(),
            final(self).capacity() == old(self).capacity(),
            final(self).segment_limit() == old(self).segment_limit(),
            final(self).max_records() == old(self).max_records(),
            !existed ==> r == Err::<(), FmError>(FmError::NotFound) && final(self).buffers()
                == old(self).buffers(),
            existed && !removed ==> r == Err::<(), FmError>(FmError::TableDeletionError) && final(self).buffers() == old(self).buffers(),
            existed && removed ==> r is Ok && final(self).buffers() == old(self).buffers().remove(
                table_dir(old(self).root(), db@, table_name@),
            ),
    {
        if !existed {
            return Err(FmError::NotFound);
        }
        if !removed {
            return Err(FmError::TableDeletionError);
        }
        let dir = self.table_path(db, table_name);
        if self.memory.exist_table(dir.as_str()) {
            self.memory.delete_table(dir.as_str());
        } else {
            proof {
                assert(self.memory@.remove(dir@) =~= self.memory@);
            }
        }
        Ok(())
    }

    /// Whether a table exists, from what the caller found probing its
    /// directory: `TableNotFound` where it is absent, `OsError` where the
    /// probe failed otherwise.
    pub fn exist_table(&self, probe: &Probe) -> (r: Result<(), FmError>)
        ensures
            match *probe {
                Probe::Found => r is Ok,
                Probe::Absent => r == Err::<(), FmError>(FmError::TableNotFound),
                Probe::Failed(m) => r == Err::<(), FmError>(FmError::OsError(m)),
            },
    {
        match probe {
            Probe::Found => Ok(()),
            Probe::Absent => Err(FmError::TableNotFound),
            Probe::Failed(m) => Err(FmError::OsError(m.clone())),
        }
    }

    /// Whether a database exists, from what the caller found probing its
    /// directory: `DatabaseNotFound` where it is absent, `OsError` where the
    /// probe failed otherwise.
    pub fn exist_database(&self, probe: &Probe) -> (r: Result<(), FmError>)
        ensures
            match *probe {
                Probe::Found => r is Ok,
                Probe::Absent => r == Err::<(), FmError>(FmError::DatabaseNotFound),
                Probe::Failed(m) => r == Err::<(), FmError>(FmError::OsError(m)),
            },
    {
        match probe {
            Probe::Found => Ok(()),
            Probe::Absent => Err(FmError::DatabaseNotFound),
            Probe::Failed(m) => Err(FmError::OsError(m.clone())),
        }
    }

    /// The outcome of creating a database directory:
    /// `DatabaseCreationError` where the caller could not create it.
    pub fn write_database(&self, created: bool) -> (r: Result<(), FmError>)
        ensures
            created <==> r is Ok,
            !created ==> r == Err::<(), FmError>(FmError::DatabaseCreationError),
    {
        if created {
            Ok(())
        } else {
            Err(FmError::DatabaseCreationError)
        }
    }

    /// The tables of a database from what the caller found: `NotFound`
    /// where the directory is missing, `DatabaseReadError` where it could
    /// not be listed, else the entry names.
    pub fn read_database(&self, existed: bool, listing: Option<Vec<String>>) -> (r: Result<
        Vec<String>,
        FmError,
    >)
        ensures
            !existed ==> r == Err::<Vec<String>, FmError>(FmError::NotFound),
            existed && listing is None ==> r == Err::<Vec<String>, FmError>(
                FmError::DatabaseReadError,
            ),
            existed && listing is Some ==> r == Ok::<Vec<String>, FmError>(listing->0),
    {
        if !existed {
            return Err(FmError::NotFound);
        }
        match listing {
            Some(names) => Ok(names),
            None => Err(FmError::DatabaseReadError),
        }
    }

    /// The outcome of deleting a database: `NotFound` where its directory is
    /// missing, `DatabaseDeletionError` where the caller could not remove it.
    pub fn delete_database(&self, existed: bool, removed: bool) -> (r: Result<(), FmError>)
        ensures
            !existed ==> r == Err::<(), FmError>(FmError::NotFound),
            existed && !removed ==> r == Err::<(), FmError>(FmError::DatabaseDeletionError),
            existed && removed ==> r is Ok,
    {
        if !existed {
            return Err(FmError::NotFound);
        }
        if !removed {
            return Err(FmError::DatabaseDeletionError);
        }
        Ok(())
    }

    /// The directories to rename a database between, once the caller
    /// checked which of them exist: `NotFound` when the source is missing,
    /// `DatabaseRenameError` when the destination is taken. Neither database
    /// is touched unless this returns `Ok`.
    pub fn rename_database(&self, db: &str, new_db: &str, src_exists: bool, dst_exists: bool) -> (r:
        Result<(String, String), FmError>)
        ensures
            !src_exists ==> r == Err::<(String, String), FmError>(FmError::NotFound),
            src_exists && dst_exists ==> r == Err::<(String, String), FmError>(
                FmError::DatabaseRenameError,
            ),
            src_exists && !dst_exists ==> (r matches Ok((a, b)) && a@ == db_dir(self.root(), db@)
                && b@ == db_dir(self.root(), new_db@)),
    {
        if !src_exists {
            return Err(FmError::NotFound);
        }
        if dst_exists {
            return Err(FmError::DatabaseRenameError);
        }
        Ok((self.database_path(db), self.database_path(new_db)))
    }

    /// Buffers a record, given as its serialised text, for a table whose
    /// directory the caller found (or not), and says what to persist.
    ///
    /// Every record is appended to a segment as it is buffered, so reading
    /// the segments yields every record written, whatever flushes happened.
    ///
    /// `NotFound` when the table directory is missing, `RecordLimitExceeded`
    /// when the table already holds the most records it may; nothing changes
    /// then. Otherwise the write succeeds: the table gets a buffer if it has
    /// none; a full buffer is first built into the table's next run and
    /// emptied; then the record's ciphertext is buffered under the next
    /// sequence key and is to be appended as one line to the segment the
    /// rotation rule picks.
    pub fn write_record(
        &mut self,
        db: &str,
        table_name: &str,
        record: &str,
        table_exists: bool,
        layout: &SegmentLayout,
    ) -> (r: Result<RecordWrite, FmError>)
        requires
            old(self).wf(),
        ensures
            final(self).wf(),
            final(self).key() == old(self).key(),
            final(self).root() == old(self).root(),
            final(self).capacity() == old(self).capacity(),
            final(self).segment_limit() == old(self).segment_limit(),
            final(self).max_records() == old(self).max_records(),
            !table_exists ==> r == Err::<RecordWrite, FmError>(FmError::NotFound) && final(self).buffers() == old(self).buffers(),
            table_exists && layout.records >= old(self).max_records() ==> r == Err::<
                RecordWrite,
                FmError,
            >(FmError::RecordLimitExceeded) && final(self).buffers() == old(self).buffers(),
            table_exists && layout.records < old(self).max_records() ==> ({
                let p = table_dir(old(self).root(), db@, table_name@);
                let buf = buffer_of(old(self).buffers(), p);
                let c = cipher_of(old(self).key(), record@);
                let (flushed, after) = buffered_write(old(self).capacity(), buf, c);
                let w = r->Ok_0;
                &&& r is Ok
                &&& final(self).buffers() == old(self).buffers().insert(p, after)
                &&& keys_counted(after)
                &&& flushed ==> (w.run matches Some((rp, rb)) && rp@ == run_path(
                    p,
                    layout.runs as nat,
                ) && rb@ == run_bytes(collapse(buf)))
                &&& !flushed ==> w.run is None
                &&& w.key == after.last().0
                &&& w.segment@ == segment_file(
                    old(self).root(),
                    db@,
                    table_name@,
                    target_segment(
                        layout.segments as nat,
                        layout.active_size as nat,
                        old(self).segment_limit(),
                    ),
                )
                &&& w.line@ == c + seq!['\n']
                &&& sealed(old(self).key(), c)
                &&& decoded(old(self).key(), c) == Some(record@)
            }),
    {
        if !table_exists {
            return Err(FmError::NotFound);
        }
        if layout.records >= self.config.max_records {
            return Err(FmError::RecordLimitExceeded);
        }
        let dir = self.table_path(db, table_name);
        let ghost p = dir@;
        let ghost buf = buffer_of(old(self).buffers(), p);
        if !self.memory.exist_table(dir.as_str()) {
            self.memory.write_table(dir.as_str());
        } else {
            proof {
                assert(self.memory@.insert(p, buf) =~= self.memory@);
            }
        }
        proof {
            assert(self.memory@ == old(self).buffers().insert(p, buf));
        }
        let mut run: Option<(String, Vec<u8>)> = None;
        if self.memory.is_full(dir.as_str()) {
            let snapshot = self.memory.read_table(dir.as_str()).unwrap();
            run = Some(SStable::to_sstable(&snapshot, dir.as_str(), layout.runs).unwrap());
            self.memory.flush_table(dir.as_str()).unwrap();
            proof {
                assert(self.memory@ == old(self).buffers().insert(
                    p,
                    Seq::<(u64, Seq<char>)>::empty(),
                ));
            }
        }
        let ghost cur = self.memory@[p];
        proof {
            self.memory.lemma_keys(p);
            assert(cur.len() < usize::MAX);
        }
        let cipher = self.enc.seal(record);
        let key = self.memory.write_record(dir.as_str(), cipher.clone()).unwrap();
        proof {
            if cur.len() == 0 {
                assert(cur =~= Seq::<(u64, Seq<char>)>::empty());
                assert(seq![(1u64, cipher@)] =~= cur.push((1u64, cipher@)));
            }
        }
        let n = FsApi::target_segment(layout.segments, layout.active_size, self.config.segment_limit);
        let segment = self.segment_path(db, table_name, n as u64);
        let mut line = cipher;
        proof {
            reveal_strlit("\n");
        }
        line.append("\n");
        proof {
            self.memory.lemma_keys(p);
        }
        Ok(RecordWrite { run, segment, line, key })
    }

    /// Rewrites a stored record: the new contents of the segment the record
    /// was read from, whose line at the record's index becomes the
    /// ciphertext of `new_record`. `NotFound` for a record that was never
    /// stored or whose line is gone or empty; `DecryptionError` for a
    /// segment that is not ASCII. A read of the new contents yields the same
    /// number of records, the rewritten one now `new_record`.
    pub fn update_record(&self, old: &Record, new_record: &str, contents: &str) -> (r: Result<
        String,
        FmError,
    >)
        ensures
            !old.bound() ==> r == Err::<String, FmError>(FmError::NotFound),
            old.bound() && !is_ascii_chars(contents@) ==> r == Err::<String, FmError>(
                FmError::DecryptionError,
            ),
            old.bound() && is_ascii_chars(contents@) && !slot_ok(contents@, old.index as int)
                ==> r == Err::<String, FmError>(FmError::NotFound),
            old.bound() && is_ascii_chars(contents@) && slot_ok(contents@, old.index as int) ==> ({
                let c = cipher_of(self.key(), new_record@);
                &&& r matches Ok(t)
                &&& split_lines(r->Ok_0@) == split_lines(contents@).update(old.index as int, c)
                &&& decode_segment(self.key(), old.path@, contents@) matches Some(before) ==> (
                decode_segment(self.key(), old.path@, r->Ok_0@) matches Some(after) && exists|
                    k: int,
                |
                    0 <= k < before.len() && after == before.update(
                        k,
                        (new_record@, old.path@, old.index as int),
                    ))
            }),
    {
        if !old.is_bound() {
            return Err(FmError::NotFound);
        }
        if !contents.is_ascii() {
            return Err(FmError::DecryptionError);
        }
        let lines = FsApi::split_lines(contents);
        if old.index as u64 >= lines.len() as u64 {
            return Err(FmError::NotFound);
        }
        let index = old.index as usize;
        if lines[index].unicode_len() == 0 {
            return Err(FmError::NotFound);
        }
        let cipher = self.enc.seal(new_record);
        let updated = FsApi::update_line(contents, index, cipher.as_str());
        proof {
            let pieces = split_lines(contents@);
            let c = cipher@;
            let ls = pieces.update(index as int, c);
            lemma_split_pieces(contents@);
            lemma_split_ascii(contents@);
            assert(no_newline(c)) by {
                assert forall|j: int| 0 <= j < c.len() implies #[trigger] c[j] != '\n' by {
                    assert(is_base64_char(c[j]));
                }
            }
            assert forall|j: int| 0 <= j < ls.len() implies no_newline(#[trigger] ls[j]) by {
                if j != index {
                    assert(ls[j] == pieces[j]);
                }
            }
            lemma_split_join(ls);
            if decode_segment(self.key(), old.path@, contents@) is Some {
                assert forall|j: int| 0 <= j < ls.len() implies is_ascii_chars(#[trigger] ls[j]) by {
                    if j != index {
                        assert(ls[j] == pieces[j]);
                    } else {
                        assert forall|m: int| 0 <= m < c.len() implies '\0' <= #[trigger] c[m]
                            <= '\u{7f}' by {
                            assert(is_base64_char(c[m]));
                        }
                    }
                }
                lemma_join_ascii(ls);
                let k = lemma_decode_update(
                    self.key(),
                    old.path@,
                    pieces,
                    index as int,
                    c,
                    new_record@,
                );
            }
        }
        updated
    }

    /// Removes a stored record: the new contents of the segment the record
    /// was read from, without the record's line. `NotFound` for a record
    /// that was never stored or whose line is gone or empty;
    /// `DecryptionError` for a segment that is not ASCII. A read of the new
    /// contents yields one record fewer, the others in the order they had.
    pub fn delete_record(&self, old: &Record, contents: &str) -> (r: Result<String, FmError>)
        ensures
            !old.bound() ==> r == Err::<String, FmError>(FmError::NotFound),
            old.bound() && !is_ascii_chars(contents@) ==> r == Err::<String, FmError>(
                FmError::DecryptionError,
            ),
            old.bound() && is_ascii_chars(contents@) && !slot_ok(contents@, old.index as int)
                ==> r == Err::<String, FmError>(FmError::NotFound),
            old.bound() && is_ascii_chars(contents@) && slot_ok(contents@, old.index as int) ==> ({
                &&& r matches Ok(t)
                &&& r->Ok_0@ == join_lines(split_lines(contents@).remove(old.index as int))
                &&& decode_segment(self.key(), old.path@, contents@) matches Some(before) ==> (
                decode_segment(self.key(), old.path@, r->Ok_0@) matches Some(after) && after.len()
                    == before.len() - 1 && exists|k: int|
                    0 <= k < before.len() && plaintexts(after) == plaintexts(before).remove(k))
            }),
    {
        if !old.is_bound() {
            return Err(FmError::NotFound);
        }
        if !contents.is_ascii() {
            return Err(FmError::DecryptionError);
        }
        let lines = FsApi::split_lines(contents);
        if old.index as u64 >= lines.len() as u64 {
            return Err(FmError::NotFound);
        }
        let index = old.index as usize;
        if lines[index].unicode_len() == 0 {
            return Err(FmError::NotFound);
        }
        let removed = FsApi::delete_line(contents, index);
        proof {
            let pieces = split_lines(contents@);
            let ls = pieces.remove(index as int);
            lemma_split_pieces(contents@);
            lemma_split_ascii(contents@);
            if decode_segment(self.key(), old.path@, contents@) is Some {
                let k = lemma_decode_remove(self.key(), old.path@, pieces, index as int);
                let before = decode_lines(self.key(), old.path@, pieces)->0;
                let mid = decode_lines(self.key(), old.path@, ls)->0;
                assert(plaintexts(mid).len() == mid.len());
                assert forall|j: int| 0 <= j < ls.len() implies is_ascii_chars(#[trigger] ls[j]) by {
                    assert(ls[j] == pieces[if j < index { j } else { j + 1 }]);
                }
                lemma_join_ascii(ls);
                if ls.len() == 0 {
                    assert(join_lines(ls) == Seq::<char>::empty());
                    assert(split_lines(Seq::<char>::empty()) =~= seq![Seq::<char>::empty()]);
                    assert(seq![Seq::<char>::empty()].drop_last() =~= ls);
                } else {
                    assert forall|j: int| 0 <= j < ls.len() implies no_newline(#[trigger] ls[j]) by {
                        assert(ls[j] == pieces[if j < index { j } else { j + 1 }]);
                    }
                    lemma_split_join(ls);
                }
            }
        }
        removed
    }

    /// The records of a table from the (path, contents) pairs of its
    /// segments, each with its provenance; `DecryptionError` when any
    /// non-empty line of any segment does not decrypt.
    pub fn read_record(&self, files: &Vec<(String, String)>) -> (r: Result<
        Vec<RecordLine>,
        FmError,
    >)
        ensures
            match decode_segments(self.key(), file_views(files@)) {
                Some(s) => r matches Ok(v) && line_views(v@) == s,
                None => r == Err::<Vec<RecordLine>, FmError>(FmError::DecryptionError),
            },
    {
        read_segments(&self.enc, files)
    }
}

} // verus!
