//! The bounded in-memory write buffer: for each registered table path, an
//! ordered run of (sequence key, encrypted payload) entries whose keys count
//! up from one.
use vstd::prelude::*;

use crate::err::FmError;

verus! {

/// The buffered entries of one table.
pub struct TableBuffer {
    path: String,
    entries: Vec<(u64, String)>,
}

/// The views of buffered entries.
pub open spec fn entry_views(entries: Seq<(u64, String)>) -> Seq<(u64, Seq<char>)> {
    entries.map_values(|e: (u64, String)| (e.0, e.1@))
}

/// The sequence key the next entry of a buffer gets: one more than the
/// largest, or one when the buffer is empty.
pub open spec fn next_key(entries: Seq<(u64, Seq<char>)>) -> int {
    if entries.len() == 0 {
        1
    } else {
        entries.last().0 + 1
    }
}

/// Keys count up from one in buffer order.
pub open spec fn keys_counted(entries: Seq<(u64, Seq<char>)>) -> bool {
    forall|k: int| 0 <= k < entries.len() ==> #[trigger] entries[k].0 == k + 1
}

/// The buffers as a map from table path to entries.
pub closed spec fn buffers_map(tables: Seq<TableBuffer>) -> Map<Seq<char>, Seq<(u64, Seq<char>)>>
    decreases tables.len(),
{
    if tables.len() == 0 {
        Map::empty()
    } else {
        buffers_map(tables.drop_last()).insert(
            tables.last().path@,
            entry_views(tables.last().entries@),
        )
    }
}

closed spec fn unique_paths(tables: Seq<TableBuffer>) -> bool {
    forall|i: int, j: int|
        0 <= i < tables.len() && 0 <= j < tables.len() && i != j ==> tables[i].path@
            != tables[j].path@
}

proof fn lemma_absent(tables: Seq<TableBuffer>, p: Seq<char>)
    requires
        forall|i: int| 0 <= i < tables.len() ==> tables[i].path@ != p,
    ensures
        !buffers_map(tables).contains_key(p),
    decreases tables.len(),
{
    if tables.len() > 0 {
        lemma_absent(tables.drop_last(), p);
    }
}

proof fn lemma_present(tables: Seq<TableBuffer>, i: int)
    requires
        unique_paths(tables),
        0 <= i < tables.len(),
    ensures
        buffers_map(tables).contains_key(tables[i].path@),
        buffers_map(tables)[tables[i].path@] == entry_views(tables[i].entries@),
    decreases tables.len(),
{
    if i < tables.len() - 1 {
        lemma_present(tables.drop_last(), i);
    }
}

proof fn lemma_update(tables: Seq<TableBuffer>, i: int, b: TableBuffer)
    requires
        unique_paths(tables),
        0 <= i < tables.len(),
        b.path@ == tables[i].path@,
    ensures
        buffers_map(tables.update(i, b)) == buffers_map(tables).insert(
            b.path@,
            entry_views(b.entries@),
        ),
    decreases tables.len(),
{
    let t2 = tables.update(i, b);
    if i == tables.len() - 1 {
        assert(t2.drop_last() == tables.drop_last());
    } else {
        assert(t2.drop_last() == tables.drop_last().update(i, b));
        lemma_update(tables.drop_last(), i, b);
    }
    assert(buffers_map(t2) =~= buffers_map(tables).insert(b.path@, entry_views(b.entries@)));
}

proof fn lemma_remove(tables: Seq<TableBuffer>, i: int)
    requires
        unique_paths(tables),
        0 <= i < tables.len(),
    ensures
        buffers_map(tables.remove(i)) == buffers_map(tables).remove(tables[i].path@),
    decreases tables.len(),
{
    let p = tables[i].path@;
    let t2 = tables.remove(i);
    if i == tables.len() - 1 {
        assert(t2 == tables.drop_last());
        lemma_absent(tables.drop_last(), p);
    } else {
        assert(t2.drop_last() == tables.drop_last().remove(i));
        lemma_remove(tables.drop_last(), i);
    }
    assert(buffers_map(t2) =~= buffers_map(tables).remove(p));
}

/// The write buffer of every registered table.
pub struct Memtable {
    tables: Vec<TableBuffer>,
    capacity: usize,
}

impl View for Memtable {
    type V = Map<Seq<char>, Seq<(u64, Seq<char>)>>;

    closed spec fn view(&self) -> Self::V {
        buffers_map(self.tables@)
    }
}

impl Memtable {
    /// How many entries a buffer holds before it must be flushed.
    pub closed spec fn capacity(&self) -> nat {
        self.capacity as nat
    }

    /// Table paths are unique and every buffer's keys count up from one.
    pub closed spec fn wf(&self) -> bool {
        &&& unique_paths(self.tables@)
        &&& forall|i: int|
            0 <= i < self.tables@.len() ==> keys_counted(
                #[trigger] entry_views(self.tables@[i].entries@),
            )
    }

    /// Every buffer of a well-formed memtable has its keys counting up from one.
    pub proof fn lemma_keys(&self, path: Seq<char>)
        requires
            self.wf(),
            self@.contains_key(path),
        ensures
            keys_counted(self@[path]),
    {
        if forall|i: int| 0 <= i < self.tables@.len() ==> self.tables@[i].path@ != path {
            lemma_absent(self.tables@, path);
        } else {
            let i = choose|i: int| 0 <= i < self.tables@.len() && self.tables@[i].path@ == path;
            lemma_present(self.tables@, i);
        }
    }

    /// An empty memtable whose buffers hold `capacity` entries.
    pub fn new(capacity: usize) -> (r: Self)
        ensures
            r.wf(),
            r@ == Map::<Seq<char>, Seq<(u64, Seq<char>)>>::empty(),
            r.capacity() == capacity,
    {
        Memtable { tables: Vec::new(), capacity }
    }

    /// How many entries a buffer holds before it must be flushed.
    pub fn capacity_of(&self) -> (r: usize)
        ensures
            r == self.capacity(),
    {
        self.capacity
    }

    /// The position of the buffer of `path`, if it is registered.
    fn find(&self, path: &str) -> (r: Option<usize>)
        requires
            self.wf(),
        ensures
            match r {
                Some(i) => i < self.tables@.len() && self.tables@[i as int].path@ == path@,
                None => forall|i: int|
                    0 <= i < self.tables@.len() ==> self.tables@[i].path@ != path@,
            },
            r is Some <==> self@.contains_key(path@),
    {
        let key = String::from_str(path);
        let mut i: usize = 0;
        while i < self.tables.len()
            invariant
                i <= self.tables@.len(),
                self.wf(),
                key@ == path@,
                forall|j: int| 0 <= j < i ==> self.tables@[j].path@ != path@,
            decreases self.tables@.len() - i,
        {
            if self.tables[i].path == key {
                proof {
                    lemma_present(self.tables@, i as int);
                }
                return Some(i);
            }
            i = i + 1;
        }
        proof {
            lemma_absent(self.tables@, path@);
        }
        None
    }

    /// Whether `path` has a buffer.
    pub fn exist_table(&self, path: &str) -> (r: bool)
        requires
            self.wf(),
        ensures
            r == self@.contains_key(path@),
    {
        self.find(path).is_some()
    }

    /// Whether the buffer of `path` holds `capacity` entries or more; false
    /// for a path without a buffer.
    pub fn is_full(&self, path: &str) -> (r: bool)
        requires
            self.wf(),
        ensures
            r == (self@.contains_key(path@) && self@[path@].len() >= self.capacity()),
    {
        match self.find(path) {
            Some(i) => {
                proof {
                    lemma_present(self.tables@, i as int);
                }
                self.tables[i].entries.len() >= self.capacity
            },
            None => false,
        }
    }

    /// A copy of the buffer of `path`, for flushing.
    pub fn read_table(&self, path: &str) -> (r: Option<Vec<(u64, String)>>)
        requires
            self.wf(),
        ensures
            match r {
                Some(v) => self@.contains_key(path@) && entry_views(v@) == self@[path@],
                None => !self@.contains_key(path@),
            },
    {
        match self.find(path) {
            Some(i) => {
                proof {
                    lemma_present(self.tables@, i as int);
                }
                let src = &self.tables[i].entries;
                let mut out: Vec<(u64, String)> = Vec::new();
                let mut k: usize = 0;
                while k < src.len()
                    invariant
                        k <= src@.len(),
                        entry_views(out@) == entry_views(src@.take(k as int)),
                    decreases src@.len() - k,
                {
                    let e = (src[k].0, src[k].1.clone());
                    let ghost prev = out@;
                    out.push(e);
                    proof {
                        assert(e == src@[k as int]);
                        assert(out@ == prev.push(e));
                        assert(src@.take(k as int + 1) == src@.take(k as int).push(e));
                        assert(entry_views(out@) =~= entry_views(prev).push((e.0, e.1@)));
                        assert(entry_views(src@.take(k as int + 1)) =~= entry_views(
                            src@.take(k as int),
                        ).push((e.0, e.1@)));
                    }
                    k = k + 1;
                }
                proof {
                    assert(src@.take(k as int) =~= src@);
                }
                Some(out)
            },
            None => None,
        }
    }

    /// Registers `path` with an empty buffer; a path that is already
    /// registered keeps its buffer as it is.
    pub fn write_table(&mut self, path: &str)
        requires
            old(self).wf(),
        ensures
            final(self).wf(),
            old(self)@.contains_key(path@) ==> final(self)@ == old(self)@,
            !old(self)@.contains_key(path@) ==> final(self)@ == old(self)@.insert(
                path@,
                Seq::<(u64, Seq<char>)>::empty(),
            ),
            final(self).capacity() == old(self).capacity(),
    {
        if self.find(path).is_none() {
            let fresh = TableBuffer { path: String::from_str(path), entries: Vec::new() };
            let ghost before = self.tables@;
            self.tables.push(fresh);
            proof {
                assert(entry_views(fresh.entries@) =~= Seq::<(u64, Seq<char>)>::empty());
                assert(self.tables@.drop_last() == before);
                assert(self.tables@[self.tables@.len() - 1] == fresh);
            }
        }
    }

    /// Drops the buffer of `path`, if any.
    pub fn delete_table(&mut self, path: &str)
        requires
            old(self).wf(),
        ensures
            final(self).wf(),
            final(self)@ == old(self)@.remove(path@),
            final(self).capacity() == old(self).capacity(),
    {
        match self.find(path) {
            Some(i) => {
                proof {
                    lemma_remove(self.tables@, i as int);
                }
                self.tables.remove(i);
            },
            None => {
                proof {
                    assert(old(self)@.remove(path@) =~= old(self)@);
                }
            },
        }
    }

    /// Empties the buffer of `path` after its entries were flushed;
    /// `TableNotFoundInMemory` when it has none.
    pub fn flush_table(&mut self, path: &str) -> (r: Result<(), FmError>)
        requires
            old(self).wf(),
        ensures
            final(self).wf(),
            final(self).capacity() == old(self).capacity(),
            old(self)@.contains_key(path@) ==> r is Ok && final(self)@ == old(self)@.insert(
                path@,
                Seq::<(u64, Seq<char>)>::empty(),
            ),
            !old(self)@.contains_key(path@) ==> r == Err::<(), FmError>(
                FmError::TableNotFoundInMemory,
            ) && final(self)@ == old(self)@,
    {
        match self.find(path) {
            Some(i) => {
                let fresh = TableBuffer { path: String::from_str(path), entries: Vec::new() };
                proof {
                    assert(entry_views(fresh.entries@) =~= Seq::<(u64, Seq<char>)>::empty());
                    lemma_update(self.tables@, i as int, fresh);
                }
                self.tables.set(i, fresh);
                Ok(())
            },
            None => Err(FmError::TableNotFoundInMemory),
        }
    }

    /// Buffers `payload` for `path` under the next sequence key and returns
    /// that key; `TableNotFoundInMemory` when `path` has no buffer.
    pub fn write_record(&mut self, path: &str, payload: String) -> (r: Result<u64, FmError>)
        requires
            old(self).wf(),
            old(self)@.contains_key(path@) ==> old(self)@[path@].len() < usize::MAX,
        ensures
            final(self).wf(),
            final(self).capacity() == old(self).capacity(),
            old(self)@.contains_key(path@) ==> (r matches Ok(k) && k == next_key(old(self)@[path@])
                && final(self)@ == old(self)@.insert(
                path@,
                old(self)@[path@].push((k, payload@)),
            )),
            !old(self)@.contains_key(path@) ==> r == Err::<u64, FmError>(
                FmError::TableNotFoundInMemory,
            ) && final(self)@ == old(self)@,
    {
        match self.find(path) {
            Some(i) => {
                proof {
                    lemma_present(self.tables@, i as int);
                }
                let mut buffer = TableBuffer { path: String::new(), entries: Vec::new() };
                std::mem::swap(&mut buffer, &mut self.tables[i]);
                let ghost held = buffer;
                let ghost before = entry_views(buffer.entries@);
                proof {
                    assert(held == old(self).tables@[i as int]);
                    assert(keys_counted(before));
                    if before.len() > 0 {
                        assert(before.last().0 == before.len());
                    }
                }
                let key = buffer.entries.len() as u64 + 1;
                buffer.entries.push((key, payload));
                proof {
                    assert(entry_views(buffer.entries@) =~= before.push((key, payload@)));
                    assert(keys_counted(entry_views(buffer.entries@)));
                    lemma_update(old(self).tables@, i as int, buffer);
                }
                self.tables.set(i, buffer);
                proof {
                    assert(self.tables@ =~= old(self).tables@.update(i as int, buffer));
                    assert forall|j: int| 0 <= j < self.tables@.len() implies keys_counted(
                        #[trigger] entry_views(self.tables@[j].entries@),
                    ) by {
                        if j != i {
                            assert(self.tables@[j] == old(self).tables@[j]);
                        }
                    }
                }
                Ok(key)
            },
            None => Err(FmError::TableNotFoundInMemory),
        }
    }
}

} // verus!
