//! Shard-assignment table: per (index, source) pair, the set of currently
//! open shards, deduplicated and sorted by shard id, with a round-robin
//! cursor handing out the next shard to write to.
use vstd::prelude::*;

verus! {

/// Whether a shard currently accepts writes.
#[derive(Debug, Clone, Copy, PartialEq, Eq, Structural)]
pub enum ShardState {
    Open,
    Closed,
}

/// One partition of an index+source's write stream, as supplied by the
/// control plane: its id, the node leading it, and whether it is open.
#[derive(Debug)]
pub struct Shard {
    pub index_uid: String,
    pub shard_id: u64,
    pub leader_id: String,
    pub shard_state: ShardState,
}

impl Shard {
    /// Whether this shard accepts writes.
    pub open spec fn is_open_spec(&self) -> bool {
        self.shard_state == ShardState::Open
    }

    /// Returns true exactly when the shard is open.
    pub fn is_open(&self) -> (open: bool)
        ensures
            open == self.is_open_spec(),
    {
        self.shard_state == ShardState::Open
    }
}

/// Failure to build a usable entry: the supplied shard list holds no open
/// shard once closed shards are filtered out and ids are deduplicated. This
/// is a contract violation by the collaborator supplying shard metadata,
/// not a transient condition.
#[derive(Debug, Clone, Copy, PartialEq, Eq, Structural)]
pub enum ShardTableError {
    EmptyShardSet,
}

/// Whether some shard in `shards` carries the id `id`.
pub open spec fn has_id(shards: Seq<Shard>, id: u64) -> bool {
    exists|i: int| 0 <= i < shards.len() && shards[i].shard_id == id
}

/// Whether `shards` is strictly ascending by shard id (which also makes the
/// ids pairwise distinct).
pub open spec fn sorted_and_unique(shards: Seq<Shard>) -> bool {
    forall|i: int, j: int|
        0 <= i < j < shards.len() ==> shards[i].shard_id < shards[j].shard_id
}

/// The open, deduplicated, sorted shard set for one (index, source) pair,
/// plus a monotonic cursor for round-robin selection.
pub struct ShardTableEntry {
    shards: Vec<Shard>,
    round_robin_idx: usize,
}

impl ShardTableEntry {
    /// The shards held by this entry, in selection order.
    pub closed spec fn shards_view(&self) -> Seq<Shard> {
        self.shards@
    }

    /// The number of selections made so far, modulo the cursor width.
    pub closed spec fn cursor(&self) -> usize {
        self.round_robin_idx
    }

    /// Well-formedness: the shard list is non-empty and strictly ascending
    /// by shard id.
    pub open spec fn wf(&self) -> bool {
        &&& self.shards_view().len() > 0
        &&& sorted_and_unique(self.shards_view())
    }

    /// How this entry's shard list relates to the list it was built from:
    /// every held shard is an open shard of `source`, and every open shard
    /// of `source` has a representative with its id.
    pub open spec fn is_selection_of(&self, source: Seq<Shard>) -> bool {
        &&& forall|i: int|
            0 <= i < self.shards_view().len()
                ==> (#[trigger] self.shards_view()[i]).is_open_spec()
                    && source.contains(self.shards_view()[i])
        &&& forall|j: int|
            0 <= j < source.len() && (#[trigger] source[j]).is_open_spec()
                ==> has_id(self.shards_view(), source[j].shard_id)
    }

    /// The shard that the `k`-th selection after the entry's current state
    /// returns, while the cursor has not wrapped around.
    pub open spec fn nth_selection(&self, k: nat) -> Shard
        recommends
            self.wf(),
    {
        self.shards_view()[(self.cursor() + k) % self.shards_view().len() as int]
    }

    /// Creates a new entry: keeps only open shards, sorts them in ascending
    /// shard id order, keeps one representative per id, and fails if no
    /// open shard remains.
    pub fn new(shards: Vec<Shard>) -> (result: Result<ShardTableEntry, ShardTableError>)
        ensures
            match result {
                Ok(entry) => {
                    &&& entry.wf()
                    &&& entry.cursor() == 0
                    &&& entry.is_selection_of(shards@)
                },
                Err(error) => {
                    &&& error == ShardTableError::EmptyShardSet
                    &&& forall|j: int|
                        0 <= j < shards@.len() ==> !(#[trigger] shards@[j]).is_open_spec()
                },
            },
    {
        let ghost source = shards@;
        let mut input = shards;
        let mut open_sorted: Vec<Shard> = Vec::new();
        proof {
            assert(input@ =~= source.take(input@.len() as int));
        }
        while input.len() > 0
            invariant
                input@ =~= source.take(input@.len() as int),
                input@.len() <= source.len(),
                sorted_and_unique(open_sorted@),
                forall|i: int|
                    0 <= i < open_sorted@.len()
                        ==> (#[trigger] open_sorted@[i]).is_open_spec()
                            && source.contains(open_sorted@[i]),
                forall|j: int|
                    input@.len() <= j < source.len() && (#[trigger] source[j]).is_open_spec()
                        ==> has_id(open_sorted@, source[j].shard_id),
            decreases input@.len(),
        {
            let ghost input_before = input@;
            let shard = input.pop().unwrap();
            proof {
                assert(shard == source[input@.len() as int]);
                assert(input@ =~= source.take(input@.len() as int));
            }
            if shard.is_open() {
                insert_sorted_unique(&mut open_sorted, shard);
                proof {
                    assert(source.contains(shard)) by {
                        assert(source[input@.len() as int] == shard);
                    }
                }
            }
        }
        proof {
            assert(source.take(0) =~= Seq::<Shard>::empty());
        }
        if open_sorted.is_empty() {
            proof {
                assert forall|j: int|
                    0 <= j < source.len() implies !(#[trigger] source[j]).is_open_spec() by {
                    if source[j].is_open_spec() {
                        assert(has_id(open_sorted@, source[j].shard_id));
                    }
                }
            }
            Err(ShardTableError::EmptyShardSet)
        } else {
            Ok(ShardTableEntry { shards: open_sorted, round_robin_idx: 0 })
        }
    }

    /// Returns the next shard in round-robin order: the shard at the
    /// pre-increment cursor position modulo the number of shards. The
    /// cursor advances by one, wrapping at the integer width.
    pub fn next_shard_round_robin(&mut self) -> (shard: &Shard)
        requires
            old(self).wf(),
        ensures
            final(self).wf(),
            final(self).shards_view() == old(self).shards_view(),
            shard == old(self).nth_selection(0),
            final(self).cursor() == (
                if old(self).cursor() == usize::MAX { 0 } else { old(self).cursor() + 1 }
            ),
    {
        let shard_idx = self.round_robin_idx;
        self.round_robin_idx = self.round_robin_idx.wrapping_add(1);
        &self.shards[shard_idx % self.shards.len()]
    }

    /// The number of shards held by this entry.
    pub fn len(&self) -> (len: usize)
        ensures
            len == self.shards_view().len(),
    {
        self.shards.len()
    }

    /// The shards held by this entry, in ascending shard id order.
    pub fn shards(&self) -> (shards: &[Shard])
        ensures
            shards@ == self.shards_view(),
    {
        self.shards.as_slice()
    }
}

/// Round-robin coverage: from a fresh entry (cursor at zero) holding `m`
/// shards, the `j`-th and `k`-th selections (`j < k < m`) are distinct
/// shards in ascending shard id order — so `m` consecutive selections
/// return every shard exactly once, in ascending id order — and the `m`-th
/// selection wraps around to the first shard again.
pub proof fn lemma_round_robin_coverage(entry: ShardTableEntry, j: nat, k: nat)
    requires
        entry.wf(),
        entry.cursor() == 0,
        j <= k < entry.shards_view().len(),
    ensures
        entry.nth_selection(j) == entry.shards_view()[j as int],
        entry.nth_selection(k) == entry.shards_view()[k as int],
        j < k ==> entry.nth_selection(j).shard_id < entry.nth_selection(k).shard_id,
        entry.nth_selection(entry.shards_view().len() as nat) == entry.nth_selection(0),
{
    let m = entry.shards_view().len() as int;
    vstd::arithmetic::div_mod::lemma_small_mod(j, m as nat);
    vstd::arithmetic::div_mod::lemma_small_mod(k, m as nat);
    vstd::arithmetic::div_mod::lemma_small_mod(0, m as nat);
    vstd::arithmetic::div_mod::lemma_mod_self_0(m);
}

/// Inserts `shard` into `shards`, which is strictly ascending by shard id,
/// keeping it ascending; if a shard with the same id is already present,
/// the list is left unchanged.
fn insert_sorted_unique(shards: &mut Vec<Shard>, shard: Shard)
    requires
        sorted_and_unique(old(shards)@),
        shard.is_open_spec(),
        forall|i: int|
            0 <= i < old(shards)@.len()
                ==> (#[trigger] old(shards)@[i]).is_open_spec(),
    ensures
        sorted_and_unique(final(shards)@),
        has_id(final(shards)@, shard.shard_id),
        forall|i: int|
            0 <= i < final(shards)@.len()
                ==> (#[trigger] final(shards)@[i]).is_open_spec()
                    && (old(shards)@.contains(final(shards)@[i])
                        || final(shards)@[i] == shard),
        forall|id: u64| #[trigger] has_id(old(shards)@, id) ==> has_id(final(shards)@, id),
{
    let mut pos: usize = 0;
    while pos < shards.len() && shards[pos].shard_id < shard.shard_id
        invariant
            pos <= shards@.len(),
            *shards == *old(shards),
            forall|k: int| 0 <= k < pos ==> (#[trigger] shards@[k]).shard_id < shard.shard_id,
        decreases shards@.len() - pos,
    {
        pos += 1;
    }
    if pos < shards.len() && shards[pos].shard_id == shard.shard_id {
        // A shard with this id is already present: keep the existing
        // representative.
        assert(has_id(shards@, shard.shard_id));
    } else {
        let ghost before = shards@;
        shards.insert(pos, shard);
        proof {
            before.insert_ensures(pos as int, shard);
            assert(shards@ == before.insert(pos as int, shard));
            assert(shards@[pos as int] == shard);
            assert forall|i: int, j: int|
                0 <= i < j < shards@.len() implies shards@[i].shard_id
                < shards@[j].shard_id by {
                if i < pos && j > pos {
                    assert(shards@[i] == before[i]);
                    assert(shards@[j] == before[j - 1]);
                }
            }
            assert forall|id: u64| #[trigger] has_id(before, id) implies has_id(
                shards@,
                id,
            ) by {
                let i = choose|i: int| 0 <= i < before.len() && before[i].shard_id == id;
                if i < pos {
                    assert(shards@[i].shard_id == id);
                } else {
                    assert(shards@[i + 1].shard_id == id);
                }
            }
            assert forall|i: int|
                0 <= i < shards@.len() implies (#[trigger] shards@[i]).is_open_spec() && (
            before.contains(shards@[i]) || shards@[i] == shard) by {
                if i < pos {
                    assert(shards@[i] == before[i]);
                } else if i > pos {
                    assert(shards@[i] == before[i - 1]);
                }
            }
        }
    }
}

/// One row of the table: index id, source id, and the entry for that pair.
pub type ShardTableRow = (String, String, ShardTableEntry);

/// The key of a row, as the pair of its two ids' character sequences.
pub open spec fn row_key(row: ShardTableRow) -> (Seq<char>, Seq<char>) {
    (row.0@, row.1@)
}

/// Whether no two rows share a key.
pub open spec fn keys_unique(rows: Seq<ShardTableRow>) -> bool {
    forall|i: int, j: int|
        0 <= i < j < rows.len() ==> row_key(rows[i]) != row_key(rows[j])
}

/// The mapping that a sequence of rows represents; later rows win.
pub open spec fn entries_map(rows: Seq<ShardTableRow>) -> Map<
    (Seq<char>, Seq<char>),
    ShardTableEntry,
>
    decreases rows.len(),
{
    if rows.len() == 0 {
        Map::empty()
    } else {
        entries_map(rows.drop_last()).insert(row_key(rows.last()), rows.last().2)
    }
}

/// A key is in the mapping exactly when some row carries it.
proof fn lemma_entries_map_domain(rows: Seq<ShardTableRow>, key: (Seq<char>, Seq<char>))
    ensures
        entries_map(rows).contains_key(key) <==> exists|i: int|
            0 <= i < rows.len() && row_key(#[trigger] rows[i]) == key,
    decreases rows.len(),
{
    if rows.len() > 0 {
        lemma_entries_map_domain(rows.drop_last(), key);
        assert(rows.last() == rows[rows.len() - 1]);
        assert(forall|i: int|
            0 <= i < rows.len() - 1 ==> #[trigger] rows.drop_last()[i] == rows[i]);
        if entries_map(rows).contains_key(key) && key != row_key(rows.last()) {
            assert(entries_map(rows.drop_last()).contains_key(key));
        }
        if exists|i: int| 0 <= i < rows.len() && row_key(#[trigger] rows[i]) == key {
            let i = choose|i: int| 0 <= i < rows.len() && row_key(#[trigger] rows[i]) == key;
            if i < rows.len() - 1 {
                assert(row_key(rows.drop_last()[i]) == key);
            }
        }
    }
}

/// With unique keys, the mapping sends each row's key to that row's entry.
proof fn lemma_entries_map_index(rows: Seq<ShardTableRow>, i: int)
    requires
        keys_unique(rows),
        0 <= i < rows.len(),
    ensures
        entries_map(rows).contains_key(row_key(rows[i])),
        entries_map(rows)[row_key(rows[i])] == rows[i].2,
    decreases rows.len(),
{
    assert(rows.last() == rows[rows.len() - 1]);
    if i < rows.len() - 1 {
        assert(forall|j: int|
            0 <= j < rows.len() - 1 ==> #[trigger] rows.drop_last()[j] == rows[j]);
        lemma_entries_map_index(rows.drop_last(), i);
        assert(row_key(rows[i]) != row_key(rows[rows.len() - 1]));
    }
}

/// Replacing the row at `i` by one with the same key updates the mapping at
/// exactly that key.
proof fn lemma_entries_map_update(rows: Seq<ShardTableRow>, i: int, row: ShardTableRow)
    requires
        keys_unique(rows),
        0 <= i < rows.len(),
        row_key(row) == row_key(rows[i]),
    ensures
        entries_map(rows.update(i, row)) =~= entries_map(rows).insert(row_key(row), row.2),
    decreases rows.len(),
{
    let updated = rows.update(i, row);
    assert(updated.last() == updated[rows.len() - 1]);
    assert(rows.last() == rows[rows.len() - 1]);
    if i == rows.len() - 1 {
        assert(updated.drop_last() =~= rows.drop_last());
    } else {
        assert(updated.drop_last() =~= rows.drop_last().update(i, row));
        assert(forall|j: int|
            0 <= j < rows.len() - 1 ==> #[trigger] rows.drop_last()[j] == rows[j]);
        lemma_entries_map_update(rows.drop_last(), i, row);
        assert(row_key(row) != row_key(rows.last()));
    }
}

/// Appending a row inserts its key into the mapping.
proof fn lemma_entries_map_push(rows: Seq<ShardTableRow>, row: ShardTableRow)
    ensures
        entries_map(rows.push(row)) =~= entries_map(rows).insert(row_key(row), row.2),
{
    assert(rows.push(row).drop_last() =~= rows);
    assert(rows.push(row).last() == row);
}

/// With unique keys, the mapping's domain is finite and has one key per row.
proof fn lemma_entries_map_len(rows: Seq<ShardTableRow>)
    requires
        keys_unique(rows),
    ensures
        entries_map(rows).dom().finite(),
        entries_map(rows).dom().len() == rows.len(),
    decreases rows.len(),
{
    if rows.len() > 0 {
        assert(forall|j: int|
            0 <= j < rows.len() - 1 ==> #[trigger] rows.drop_last()[j] == rows[j]);
        lemma_entries_map_len(rows.drop_last());
        lemma_entries_map_domain(rows.drop_last(), row_key(rows.last()));
        assert(rows.last() == rows[rows.len() - 1]);
        assert(!entries_map(rows.drop_last()).contains_key(row_key(rows.last())));
    }
}

/// A table of shard entries indexed by (index id, source id) pairs, viewed
/// as a mapping from those pairs to their entries.
pub struct ShardTable {
    table: Vec<ShardTableRow>,
}

impl View for ShardTable {
    type V = Map<(Seq<char>, Seq<char>), ShardTableEntry>;

    closed spec fn view(&self) -> Self::V {
        entries_map(self.table@)
    }
}

/// Well-formedness of the rows: no two share a key, and every entry is
/// itself well-formed.
spec fn rows_wf(rows: Seq<ShardTableRow>) -> bool {
    &&& keys_unique(rows)
    &&& forall|i: int| 0 <= i < rows.len() ==> (#[trigger] rows[i]).2.wf()
}

impl ShardTable {
    /// Well-formedness: no two rows share a key, and every entry is itself
    /// well-formed.
    pub closed spec fn wf(&self) -> bool {
        rows_wf(self.table@)
    }

    /// The index of the row carrying the given key, if any.
    fn find_index(&self, index_id: &String, source_id: &String) -> (position: Option<usize>)
        ensures
            match position {
                Some(i) => i < self.table@.len() && row_key(self.table@[i as int]) == (
                    index_id@,
                    source_id@,
                ),
                None => forall|i: int|
                    0 <= i < self.table@.len() ==> row_key(#[trigger] self.table@[i]) != (
                        index_id@,
                        source_id@,
                    ),
            },
    {
        let mut i: usize = 0;
        while i < self.table.len()
            invariant
                i <= self.table@.len(),
                forall|j: int|
                    0 <= j < i ==> row_key(#[trigger] self.table@[j]) != (index_id@, source_id@),
            decreases self.table@.len() - i,
        {
            let row = &self.table[i];
            if row.0 == *index_id && row.1 == *source_id {
                return Some(i);
            }
            i += 1;
        }
        None
    }

    /// Whether the table holds an entry for the given (index, source) pair.
    pub fn contains_entry(&self, index_id: &str, source_id: &str) -> (found: bool)
        ensures
            found == self@.contains_key((index_id@, source_id@)),
    {
        let index_key = index_id.to_owned();
        let source_key = source_id.to_owned();
        proof {
            lemma_entries_map_domain(self.table@, (index_id@, source_id@));
        }
        match self.find_index(&index_key, &source_key) {
            Some(_) => true,
            None => false,
        }
    }

    /// The entry for the given (index, source) pair, if the table holds
    /// one; absence is not an error.
    pub fn find_entry(&self, index_id: &str, source_id: &str) -> (entry: Option<&ShardTableEntry>)
        requires
            self.wf(),
        ensures
            match entry {
                Some(found) => {
                    &&& self@.contains_key((index_id@, source_id@))
                    &&& *found == self@[(index_id@, source_id@)]
                    &&& found.wf()
                },
                None => !self@.contains_key((index_id@, source_id@)),
            },
    {
        let index_key = index_id.to_owned();
        let source_key = source_id.to_owned();
        proof {
            lemma_entries_map_domain(self.table@, (index_id@, source_id@));
        }
        match self.find_index(&index_key, &source_key) {
            Some(i) => {
                proof {
                    lemma_entries_map_index(self.table@, i as int);
                }
                Some(&self.table[i].2)
            },
            None => None,
        }
    }

    /// The entry for the given (index, source) pair, mutably, so that a
    /// producer can advance its round-robin cursor in place; absence is
    /// not an error.
    pub fn find_entry_mut(&mut self, index_id: &str, source_id: &str) -> (entry: Option<
        &mut ShardTableEntry,
    >)
        requires
            old(self).wf(),
        ensures
            match entry {
                Some(found) => {
                    &&& old(self)@.contains_key((index_id@, source_id@))
                    &&& *found == old(self)@[(index_id@, source_id@)]
                    &&& found.wf()
                    &&& final(self)@ == old(self)@.insert((index_id@, source_id@), *final(found))
                    &&& (final(found).wf() ==> final(self).wf())
                },
                None => {
                    &&& !old(self)@.contains_key((index_id@, source_id@))
                    &&& *final(self) == *old(self)
                },
            },
    {
        let index_key = index_id.to_owned();
        let source_key = source_id.to_owned();
        let ghost key = (index_id@, source_id@);
        let ghost rows = self.table@;
        proof {
            lemma_entries_map_domain(rows, key);
        }
        match self.find_index(&index_key, &source_key) {
            Some(i) => {
                proof {
                    lemma_entries_map_index(rows, i as int);
                    assert forall|e: ShardTableEntry|
                        #[trigger] entries_map(
                            rows.update(i as int, (rows[i as int].0, rows[i as int].1, e)),
                        ) == entries_map(rows).insert(key, e) by {
                        lemma_entries_map_update(
                            rows,
                            i as int,
                            (rows[i as int].0, rows[i as int].1, e),
                        );
                    }
                    assert forall|e: ShardTableEntry| e.wf() implies #[trigger] rows_wf(
                        rows.update(i as int, (rows[i as int].0, rows[i as int].1, e)),
                    ) by {
                        let updated = rows.update(
                            i as int,
                            (rows[i as int].0, rows[i as int].1, e),
                        );
                        assert(forall|j: int|
                            0 <= j < updated.len() ==> row_key(#[trigger] updated[j]) == row_key(
                                rows[j],
                            ));
                    }
                }
                Some(&mut self.table[i].2)
            },
            None => None,
        }
    }

    /// Builds a new entry from `shards` (open shards only, sorted by id,
    /// deduplicated) and replaces any existing entry for the key wholesale;
    /// the fresh entry's cursor starts at zero. Fails, leaving the table
    /// unchanged, exactly when `shards` holds no open shard.
    pub fn insert_shards(&mut self, index_id: &str, source_id: &str, shards: Vec<Shard>) -> (result:
        Result<(), ShardTableError>)
        requires
            old(self).wf(),
        ensures
            final(self).wf(),
            match result {
                Ok(()) => {
                    let key = (index_id@, source_id@);
                    &&& final(self)@.contains_key(key)
                    &&& final(self)@[key].wf()
                    &&& final(self)@[key].cursor() == 0
                    &&& final(self)@[key].is_selection_of(shards@)
                    &&& final(self)@.remove(key) == old(self)@.remove(key)
                    &&& final(self)@.dom() == old(self)@.dom().insert(key)
                },
                Err(error) => {
                    &&& error == ShardTableError::EmptyShardSet
                    &&& *final(self) == *old(self)
                    &&& forall|j: int|
                        0 <= j < shards@.len() ==> !(#[trigger] shards@[j]).is_open_spec()
                },
            },
    {
        let ghost key = (index_id@, source_id@);
        let entry = match ShardTableEntry::new(shards) {
            Ok(entry) => entry,
            Err(error) => {
                return Err(error);
            },
        };
        let row = (index_id.to_owned(), source_id.to_owned(), entry);
        let ghost rows = self.table@;
        match self.find_index(&row.0, &row.1) {
            Some(i) => {
                self.table[i] = row;
                proof {
                    let placed = self.table@[i as int];
                    lemma_entries_map_update(rows, i as int, placed);
                    assert(self@ =~= entries_map(rows).insert(key, placed.2));
                    assert(self@.remove(key) =~= entries_map(rows).remove(key));
                    assert(self@.dom() =~= entries_map(rows).dom().insert(key));
                    assert(keys_unique(self.table@));
                    lemma_entries_map_index(self.table@, i as int);
                }
            },
            None => {
                self.table.push(row);
                proof {
                    let placed = self.table@[rows.len() as int];
                    lemma_entries_map_push(rows, placed);
                    assert(self@ =~= entries_map(rows).insert(key, placed.2));
                    assert(self@.remove(key) =~= entries_map(rows).remove(key));
                    assert(self@.dom() =~= entries_map(rows).dom().insert(key));
                    assert(keys_unique(self.table@)) by {
                        assert(forall|j: int|
                            0 <= j < rows.len() ==> #[trigger] self.table@[j] == rows[j]);
                    }
                    lemma_entries_map_index(self.table@, rows.len() as int);
                }
            },
        }
        Ok(())
    }

    /// Whether the table holds no entry at all.
    pub fn is_empty(&self) -> (empty: bool)
        ensures
            empty == (self@.dom() == Set::<(Seq<char>, Seq<char>)>::empty()),
    {
        proof {
            if self.table@.len() > 0 {
                lemma_entries_map_domain(self.table@, row_key(self.table@[0]));
                assert(self@.dom().contains(row_key(self.table@[0])));
            } else {
                assert(self@.dom() =~= Set::<(Seq<char>, Seq<char>)>::empty());
            }
        }
        self.table.is_empty()
    }

    /// The number of (index, source) pairs the table holds an entry for.
    pub fn len(&self) -> (len: usize)
        requires
            self.wf(),
        ensures
            len == self@.dom().len(),
    {
        proof {
            lemma_entries_map_len(self.table@);
        }
        self.table.len()
    }
}

/// Table replace semantics: `insert_shards` leaves the table unchanged
/// away from its key and pins the entry at the key (see its contract, which
/// also starts the fresh entry's cursor at zero). So after two insertions
/// for the same key the table is exactly the original without that key,
/// extended with the second insertion's entry alone: nothing of the first
/// entry — its shards or its cursor position — survives.
pub proof fn lemma_table_replace(
    before: Map<(Seq<char>, Seq<char>), ShardTableEntry>,
    middle: Map<(Seq<char>, Seq<char>), ShardTableEntry>,
    after: Map<(Seq<char>, Seq<char>), ShardTableEntry>,
    key: (Seq<char>, Seq<char>),
)
    requires
        middle.remove(key) == before.remove(key),
        middle.contains_key(key),
        after.remove(key) == middle.remove(key),
        after.contains_key(key),
    ensures
        after.remove(key) == before.remove(key),
        after == before.remove(key).insert(key, after[key]),
{
    assert(after =~= before.remove(key).insert(key, after[key]));
}

impl Default for ShardTable {
    /// An empty table.
    fn default() -> (table: ShardTable)
        ensures
            table.wf(),
            table@ == Map::<(Seq<char>, Seq<char>), ShardTableEntry>::empty(),
    {
        ShardTable { table: Vec::new() }
    }
}

} // verus!
