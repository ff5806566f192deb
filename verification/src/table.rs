//! The tables of a memory database, and the statements that a store runs on them.

use vstd::prelude::*;

use crate::protocol::{optional_time, record_views, MemoryError, MemoryRecord};
use crate::rows::{
    at, bytes_in, content_total, delete_row, expired, first, holds, identities_differ,
    identities_distinct, identity_taken, insert_row, key_before, lemma_delete_at, lemma_filter_add,
    lemma_filter_all, lemma_filter_empty, lemma_filter_step, lemma_filter_valid, lemma_insert_valid,
    lemma_key_order, lemma_key_transitive, lemma_lookup, lemma_rank, lemma_replace_at,
    lemma_replace_valid, lookup, max_id, one_in, record_count, record_of, records_of, replace_row,
    row_before, row_views, rows_in, rows_outside, sorted, tally, unexpired, valid_row, valid_state,
    RowView, StoreView, StoredMemory,
};
use crate::text::{byte_len, lemma_text_order, lemma_text_transitive, same_text, text_before, Place};

verus! {

/// One namespace that was written, with the smallest identifier that is still unused in it.
#[derive(Clone, Debug, PartialEq, Eq)]
pub struct NamespaceRow {
    pub namespace: String,
    pub next_id: i64,
}

/// Whether `namespace` has a row.
pub open spec fn known(rows: Seq<NamespaceRow>, namespace: Seq<char>) -> bool {
    exists|i: int| 0 <= i < rows.len() && (#[trigger] rows[i]).namespace@ == namespace
}

/// The smallest unused identifier of each namespace that has a row.
pub open spec fn next_ids_of(rows: Seq<NamespaceRow>) -> Map<Seq<char>, int> {
    Map::new(
        |namespace: Seq<char>| known(rows, namespace),
        |namespace: Seq<char>|
            rows[choose|i: int|
                0 <= i < rows.len() && (#[trigger] rows[i]).namespace@ == namespace].next_id as int,
    )
}

/// Whether no namespace has two rows.
pub open spec fn namespaces_distinct(rows: Seq<NamespaceRow>) -> bool {
    forall|i: int, j: int|
        0 <= i < j < rows.len() ==> (#[trigger] rows[i]).namespace@ != (
        #[trigger] rows[j]).namespace@
}

/// The database contents that two tables stand for.
pub open spec fn state_of(
    namespaces: Seq<NamespaceRow>,
    memories: Seq<StoredMemory>,
) -> StoreView {
    StoreView { rows: row_views(memories), next_ids: next_ids_of(namespaces) }
}

/// Whether two tables satisfy the constraints of the schema.
pub open spec fn loadable(namespaces: Seq<NamespaceRow>, memories: Seq<StoredMemory>) -> bool {
    namespaces_distinct(namespaces) && valid_state(state_of(namespaces, memories))
}

/// `next_ids` with `namespace` present; a new namespace starts at identifier 1.
pub open spec fn with_namespace(
    next_ids: Map<Seq<char>, int>,
    namespace: Seq<char>,
) -> Map<Seq<char>, int> {
    if next_ids.dom().contains(namespace) {
        next_ids
    } else {
        next_ids.insert(namespace, 1)
    }
}

/// The larger of two numbers.
pub open spec fn larger(a: int, b: int) -> int {
    if a >= b {
        a
    } else {
        b
    }
}

/// The identifier that the next new memory of `namespace` gets.
pub open spec fn fresh_id(state: StoreView, namespace: Seq<char>) -> int {
    larger(state.next_ids[namespace], max_id(state.rows, namespace) + 1)
}

/// Number and content bytes of the memories of one namespace.
#[derive(Clone, Copy, Debug, PartialEq, Eq, Structural)]
pub struct Totals {
    pub records: u64,
    pub content_bytes: u64,
}

/// The memories of every namespace, in the order of their keys, and the namespaces.
#[derive(Debug)]
pub struct Database {
    namespaces: Vec<NamespaceRow>,
    memories: Vec<StoredMemory>,
}

impl View for Database {
    type V = StoreView;

    closed spec fn view(&self) -> StoreView {
        state_of(self.namespaces@, self.memories@)
    }
}

/// A namespace row gives its namespace's entry.
pub proof fn lemma_next_id(rows: Seq<NamespaceRow>, i: int)
    requires
        namespaces_distinct(rows),
        0 <= i < rows.len(),
    ensures
        next_ids_of(rows).dom().contains(rows[i].namespace@),
        next_ids_of(rows)[rows[i].namespace@] == rows[i].next_id,
{
    let namespace = rows[i].namespace@;
    let j = choose|j: int| 0 <= j < rows.len() && (#[trigger] rows[j]).namespace@ == namespace;
    assert(rows[i].namespace@ == namespace);
    if i < j {
        assert(rows[i].namespace@ != rows[j].namespace@);
    } else if j < i {
        assert(rows[j].namespace@ != rows[i].namespace@);
    }
}

/// A row for a new namespace adds its entry.
proof fn lemma_next_ids_push(rows: Seq<NamespaceRow>, row: NamespaceRow)
    requires
        namespaces_distinct(rows),
        !known(rows, row.namespace@),
    ensures
        namespaces_distinct(rows.push(row)),
        next_ids_of(rows.push(row)) == next_ids_of(rows).insert(
            row.namespace@,
            row.next_id as int,
        ),
{
    let after = rows.push(row);
    assert forall|i: int, j: int| 0 <= i < j < after.len() implies (
    #[trigger] after[i]).namespace@ != (#[trigger] after[j]).namespace@ by {
        if j == rows.len() {
            assert(rows[i].namespace@ != row.namespace@);
        } else {
            assert(rows[i].namespace@ != rows[j].namespace@);
        }
    }
    lemma_next_id(after, rows.len() as int);
    assert forall|namespace: Seq<char>| known(after, namespace) <==> (known(rows, namespace)
        || namespace == row.namespace@) by {
        if known(rows, namespace) {
            let i = choose|i: int|
                0 <= i < rows.len() && (#[trigger] rows[i]).namespace@ == namespace;
            assert(after[i].namespace@ == namespace);
        }
        if known(after, namespace) {
            let i = choose|i: int|
                0 <= i < after.len() && (#[trigger] after[i]).namespace@ == namespace;
            if i < rows.len() {
                assert(rows[i].namespace@ == namespace);
            }
        }
    }
    assert forall|namespace: Seq<char>| known(rows, namespace) implies next_ids_of(
        after,
    )[namespace] == next_ids_of(rows)[namespace] by {
        let i = choose|i: int| 0 <= i < rows.len() && (#[trigger] rows[i]).namespace@ == namespace;
        lemma_next_id(rows, i);
        assert(after[i] == rows[i]);
        lemma_next_id(after, i);
    }
    assert(next_ids_of(after) =~= next_ids_of(rows).insert(row.namespace@, row.next_id as int));
}

/// Changing the row of a namespace changes its entry.
proof fn lemma_next_ids_update(rows: Seq<NamespaceRow>, i: int, row: NamespaceRow)
    requires
        namespaces_distinct(rows),
        0 <= i < rows.len(),
        row.namespace@ == rows[i].namespace@,
    ensures
        namespaces_distinct(rows.update(i, row)),
        next_ids_of(rows.update(i, row)) == next_ids_of(rows).insert(
            row.namespace@,
            row.next_id as int,
        ),
{
    let after = rows.update(i, row);
    assert forall|a: int, b: int| 0 <= a < b < after.len() implies (
    #[trigger] after[a]).namespace@ != (#[trigger] after[b]).namespace@ by {
        assert(rows[a].namespace@ != rows[b].namespace@);
    }
    lemma_next_id(after, i);
    assert forall|namespace: Seq<char>| known(after, namespace) <==> known(rows, namespace) by {
        if known(rows, namespace) {
            let j = choose|j: int|
                0 <= j < rows.len() && (#[trigger] rows[j]).namespace@ == namespace;
            assert(after[j].namespace@ == namespace);
        }
        if known(after, namespace) {
            let j = choose|j: int|
                0 <= j < after.len() && (#[trigger] after[j]).namespace@ == namespace;
            assert(rows[j].namespace@ == namespace);
        }
    }
    assert(known(rows, row.namespace@));
    assert forall|namespace: Seq<char>|
        known(rows, namespace) && namespace != row.namespace@ implies next_ids_of(
        after,
    )[namespace] == next_ids_of(rows)[namespace] by {
        let j = choose|j: int| 0 <= j < rows.len() && (#[trigger] rows[j]).namespace@ == namespace;
        lemma_next_id(rows, j);
        assert(after[j] == rows[j]);
        lemma_next_id(after, j);
    }
    assert(next_ids_of(after) =~= next_ids_of(rows).insert(row.namespace@, row.next_id as int));
}

/// Whether no namespace has two rows and every identifier to come is positive.
fn namespaces_sound(rows: &Vec<NamespaceRow>) -> (sound: bool)
    ensures
        sound == (namespaces_distinct(rows@) && forall|namespace: Seq<char>| #[trigger]
            next_ids_of(rows@).dom().contains(namespace) ==> 0 < next_ids_of(rows@)[namespace]
                <= i64::MAX),
{
    let mut i: usize = 0;
    while i < rows.len()
        invariant
            i <= rows@.len(),
            forall|a: int, b: int|
                0 <= a < b < i ==> (#[trigger] rows@[a]).namespace@ != (
                #[trigger] rows@[b]).namespace@,
            forall|a: int| 0 <= a < i ==> 0 < (#[trigger] rows@[a]).next_id,
        decreases rows@.len() - i,
    {
        if rows[i].next_id <= 0 {
            proof {
                if namespaces_distinct(rows@) {
                    lemma_next_id(rows@, i as int);
                }
            }
            return false;
        }
        let mut j: usize = 0;
        while j < i
            invariant
                j <= i < rows@.len(),
                forall|a: int|
                    0 <= a < j ==> (#[trigger] rows@[a]).namespace@
                        != rows@[i as int].namespace@,
            decreases i - j,
        {
            if same_text(rows[j].namespace.as_str(), rows[i].namespace.as_str()) {
                assert(rows@[j as int].namespace@ == rows@[i as int].namespace@);
                return false;
            }
            j += 1;
        }
        i += 1;
    }
    proof {
        assert(namespaces_distinct(rows@));
        assert forall|namespace: Seq<char>| #[trigger]
            next_ids_of(rows@).dom().contains(namespace) implies 0 < next_ids_of(rows@)[namespace]
            <= i64::MAX by {
            let a = choose|a: int|
                0 <= a < rows@.len() && (#[trigger] rows@[a]).namespace@ == namespace;
            lemma_next_id(rows@, a);
        }
    }
    true
}

/// Whether the memories are in the order of their keys and their numbers are in range.
fn memories_sound(memories: &Vec<StoredMemory>) -> (sound: bool)
    ensures
        sound == (sorted(row_views(memories@)) && forall|i: int|
            0 <= i < memories@.len() ==> valid_row(#[trigger] row_views(memories@)[i])),
{
    let ghost rows = row_views(memories@);
    let limit: u64 = i64::MAX as u64;
    let mut i: usize = 0;
    while i < memories.len()
        invariant
            rows == row_views(memories@),
            limit == i64::MAX,
            i <= memories@.len(),
            forall|a: int, b: int| 0 <= a < b < i ==> row_before(rows[a], rows[b]),
            forall|a: int| 0 <= a < i ==> valid_row(#[trigger] rows[a]),
        decreases memories@.len() - i,
    {
        let row = &memories[i];
        assert(row@ == rows[i as int]);
        if row.id <= 0 || row.version == 0 || row.version > limit || row.scan_count > limit
            || row.use_count > limit {
            assert(!valid_row(rows[i as int]));
            return false;
        }
        if i > 0 {
            let before = &memories[i - 1];
            assert(before@ == rows[i - 1]);
            match before.placed(row.namespace.as_str(), row.id) {
                Place::Before => {
                    proof {
                        assert forall|a: int| 0 <= a < i implies row_before(
                            #[trigger] rows[a],
                            rows[i as int],
                        ) by {
                            if a < i - 1 {
                                assert(row_before(rows[a], rows[i - 1]));
                                lemma_key_transitive(
                                    rows[a].namespace,
                                    rows[a].id,
                                    before@.namespace,
                                    before@.id,
                                    row@.namespace,
                                    row@.id,
                                );
                            }
                        }
                    }
                },
                _ => {
                    assert(!row_before(rows[i - 1], rows[i as int]));
                    return false;
                },
            }
        }
        i += 1;
    }
    true
}

/// Whether no namespace holds one identity twice.
fn identities_sound(memories: &Vec<StoredMemory>) -> (sound: bool)
    requires
        sorted(row_views(memories@)),
    ensures
        sound == identities_distinct(row_views(memories@)),
{
    let ghost rows = row_views(memories@);
    let mut i: usize = 0;
    while i < memories.len()
        invariant
            rows == row_views(memories@),
            sorted(rows),
            i <= memories@.len(),
            forall|a: int, b: int|
                0 <= a < i && a < b < rows.len() ==> identities_differ(rows[a], rows[b]),
        decreases memories@.len() - i,
    {
        let row = &memories[i];
        assert(row@ == rows[i as int]);
        let mut j: usize = i + 1;
        let mut same_owner = true;
        while j < memories.len() && same_owner
            invariant
                rows == row_views(memories@),
                sorted(rows),
                i < j <= memories@.len(),
                i < memories@.len(),
                row@ == rows[i as int],
                same_owner ==> forall|b: int|
                    i < b < j ==> identities_differ(rows[i as int], #[trigger] rows[b]),
                !same_owner ==> forall|b: int|
                    i < b < rows.len() ==> identities_differ(rows[i as int], #[trigger] rows[b]),
            decreases memories@.len() - j,
        {
            let other = &memories[j];
            assert(other@ == rows[j as int]);
            if !same_text(row.namespace.as_str(), other.namespace.as_str()) {
                same_owner = false;
                proof {
                    assert(row_before(rows[i as int], rows[j as int]));
                    assert forall|b: int| i < b < rows.len() implies identities_differ(
                        rows[i as int],
                        #[trigger] rows[b],
                    ) by {
                        if b > j {
                            assert(row_before(rows[j as int], rows[b]));
                            lemma_text_order(row@.namespace, other@.namespace);
                            lemma_text_order(row@.namespace, rows[b].namespace);
                            if text_before(other@.namespace, rows[b].namespace) {
                                lemma_text_transitive(
                                    row@.namespace,
                                    other@.namespace,
                                    rows[b].namespace,
                                );
                            }
                        }
                    }
                }
            } else if same_text(row.identity.as_str(), other.identity.as_str()) {
                assert(!identities_differ(rows[i as int], rows[j as int]));
                return false;
            }
            j += 1;
        }
        i += 1;
    }
    true
}

impl Database {
    /// A database with the rows of two tables, the memories in the order of their keys; tables
    /// that break a constraint of the schema are refused.
    pub fn load(namespaces: Vec<NamespaceRow>, memories: Vec<StoredMemory>) -> (loaded: Result<
        Database,
        MemoryError,
    >)
        ensures
            match loaded {
                Ok(database) => loadable(namespaces@, memories@) && database.wf() && database@
                    == state_of(namespaces@, memories@),
                Err(error) => error == MemoryError::Backend && !loadable(namespaces@, memories@),
            },
    {
        let ghost rows = row_views(memories@);
        let ghost state = state_of(namespaces@, memories@);
        if !namespaces_sound(&namespaces) {
            assert(state.next_ids == next_ids_of(namespaces@));
            return Err(MemoryError::Backend);
        }
        if !memories_sound(&memories) {
            assert(state.rows == rows);
            return Err(MemoryError::Backend);
        }
        if !identities_sound(&memories) {
            return Err(MemoryError::Backend);
        }
        let database = Database { namespaces, memories };
        let mut i: usize = 0;
        while i < database.memories.len()
            invariant
                database.memories@ == memories@,
                database.namespaces@ == namespaces@,
                rows == row_views(memories@),
                i <= memories@.len(),
                forall|a: int| 0 <= a < i ==> known(namespaces@, (#[trigger] rows[a]).namespace),
            decreases memories@.len() - i,
        {
            let row = &database.memories[i];
            assert(row@ == rows[i as int]);
            let mut j: usize = 0;
            while j < database.namespaces.len() && !same_text(
                database.namespaces[j].namespace.as_str(),
                row.namespace.as_str(),
            )
                invariant
                    database.namespaces@ == namespaces@,
                    j <= namespaces@.len(),
                    forall|a: int|
                        0 <= a < j ==> (#[trigger] namespaces@[a]).namespace@ != row.namespace@,
                decreases namespaces@.len() - j,
            {
                j += 1;
            }
            if j == database.namespaces.len() {
                assert(!known(namespaces@, rows[i as int].namespace));
                assert(!next_ids_of(namespaces@).dom().contains(rows[i as int].namespace));
                return Err(MemoryError::Backend);
            }
            assert(namespaces@[j as int].namespace@ == rows[i as int].namespace);
            i += 1;
        }
        Ok(database)
    }
}

impl Clone for Database {
    /// A database of the same contents.
    fn clone(&self) -> (copy: Database)
        ensures
            copy@ == self@,
            self.wf() ==> copy.wf(),
    {
        let mut namespaces: Vec<NamespaceRow> = Vec::new();
        let mut i: usize = 0;
        while i < self.namespaces.len()
            invariant
                i <= self.namespaces@.len(),
                namespaces@ == self.namespaces@.take(i as int),
            decreases self.namespaces@.len() - i,
        {
            let row = &self.namespaces[i];
            namespaces.push(
                NamespaceRow { namespace: row.namespace.clone(), next_id: row.next_id },
            );
            i += 1;
            assert(self.namespaces@.take(i as int) =~= self.namespaces@.take(i - 1).push(
                self.namespaces@[i - 1],
            ));
        }
        assert(namespaces@ =~= self.namespaces@);
        let mut memories: Vec<StoredMemory> = Vec::new();
        let mut j: usize = 0;
        while j < self.memories.len()
            invariant
                j <= self.memories@.len(),
                row_views(memories@) == row_views(self.memories@).take(j as int),
            decreases self.memories@.len() - j,
        {
            let ghost before = memories@;
            let row = &self.memories[j];
            memories.push(row.duplicate());
            j += 1;
            proof {
                let all = row_views(self.memories@);
                assert(row_views(memories@) =~= row_views(before).push(row@));
                assert(all.take(j as int) =~= all.take(j - 1).push(all[j - 1]));
            }
        }
        assert(row_views(memories@) =~= row_views(self.memories@));
        Database { namespaces, memories }
    }
}

impl Database {
    /// The invariant of a database: what the schema's constraints state.
    pub closed spec fn wf(&self) -> bool {
        loadable(self.namespaces@, self.memories@)
    }

    /// What the invariant says of the contents.
    pub proof fn lemma_wf(&self)
        requires
            self.wf(),
        ensures
            valid_state(self@),
    {
    }

    /// An empty database.
    pub fn new() -> (database: Database)
        ensures
            database.wf(),
            database@.rows == Seq::<RowView>::empty(),
            database@.next_ids == Map::<Seq<char>, int>::empty(),
    {
        let database = Database { namespaces: Vec::new(), memories: Vec::new() };
        assert(database@.rows =~= Seq::<RowView>::empty());
        assert(database@.next_ids =~= Map::<Seq<char>, int>::empty());
        database
    }

    /// The rows of the namespace table.
    pub fn namespace_rows(&self) -> (rows: &Vec<NamespaceRow>)
        ensures
            next_ids_of(rows@) == self@.next_ids,
            self.wf() ==> namespaces_distinct(rows@),
    {
        &self.namespaces
    }

    /// The rows of the memory table, in the order of their keys.
    pub fn memory_rows(&self) -> (rows: &Vec<StoredMemory>)
        ensures
            row_views(rows@) == self@.rows,
    {
        &self.memories
    }

    /// Number of memories of which the key comes before (`namespace`, `id`).
    fn lower_bound(&self, namespace: &str, id: i64) -> (k: usize)
        requires
            sorted(self@.rows),
        ensures
            k <= self@.rows.len(),
            self@.rows.len() == self.memories@.len(),
            forall|i: int|
                0 <= i < k ==> key_before(
                    (#[trigger] self@.rows[i]).namespace,
                    self@.rows[i].id,
                    namespace@,
                    id as int,
                ),
            forall|i: int|
                k <= i < self@.rows.len() ==> !key_before(
                    (#[trigger] self@.rows[i]).namespace,
                    self@.rows[i].id,
                    namespace@,
                    id as int,
                ),
    {
        let ghost rows = self@.rows;
        let mut low: usize = 0;
        let mut high: usize = self.memories.len();
        while low < high
            invariant
                rows == self@.rows,
                sorted(rows),
                low <= high <= self.memories@.len(),
                rows.len() == self.memories@.len(),
                forall|i: int|
                    0 <= i < low ==> key_before(
                        (#[trigger] rows[i]).namespace,
                        rows[i].id,
                        namespace@,
                        id as int,
                    ),
                forall|i: int|
                    high <= i < rows.len() ==> !key_before(
                        (#[trigger] rows[i]).namespace,
                        rows[i].id,
                        namespace@,
                        id as int,
                    ),
            decreases high - low,
        {
            let middle: usize = low + (high - low) / 2;
            let row = &self.memories[middle];
            assert(row@ == rows[middle as int]);
            match row.placed(namespace, id) {
                Place::Before => {
                    proof {
                        assert forall|i: int| 0 <= i < middle + 1 implies key_before(
                            (#[trigger] rows[i]).namespace,
                            rows[i].id,
                            namespace@,
                            id as int,
                        ) by {
                            if i < middle {
                                assert(row_before(rows[i], rows[middle as int]));
                                lemma_key_transitive(
                                    rows[i].namespace,
                                    rows[i].id,
                                    row@.namespace,
                                    row@.id,
                                    namespace@,
                                    id as int,
                                );
                            }
                        }
                    }
                    low = middle + 1;
                },
                _ => {
                    proof {
                        assert forall|i: int| middle <= i < rows.len() implies !key_before(
                            (#[trigger] rows[i]).namespace,
                            rows[i].id,
                            namespace@,
                            id as int,
                        ) by {
                            if i > middle && key_before(
                                rows[i].namespace,
                                rows[i].id,
                                namespace@,
                                id as int,
                            ) {
                                assert(row_before(rows[middle as int], rows[i]));
                                lemma_key_transitive(
                                    row@.namespace,
                                    row@.id,
                                    rows[i].namespace,
                                    rows[i].id,
                                    namespace@,
                                    id as int,
                                );
                            }
                        }
                    }
                    high = middle;
                },
            }
        }
        low
    }

    /// Position of the memory `id` of `namespace`.
    fn position(&self, namespace: &str, id: i64) -> (found: Option<usize>)
        requires
            sorted(self@.rows),
        ensures
            self@.rows.len() == self.memories@.len(),
            match found {
                Some(i) => i < self@.rows.len() && at(self@.rows[i as int], namespace@, id as int)
                    && lookup(self@.rows, namespace@, id as int) == Some(self@.rows[i as int]),
                None => lookup(self@.rows, namespace@, id as int) is None,
            },
    {
        let k: usize = self.lower_bound(namespace, id);
        proof {
            lemma_key_order(namespace@, id as int, namespace@, id as int);
        }
        if k < self.memories.len() {
            let row = &self.memories[k];
            assert(row@ == self@.rows[k as int]);
            if let Place::Same = row.placed(namespace, id) {
                proof {
                    lemma_lookup(self@.rows, k as int);
                }
                return Some(k);
            }
        }
        proof {
            assert forall|i: int| 0 <= i < self@.rows.len() implies !at(
                #[trigger] self@.rows[i],
                namespace@,
                id as int,
            ) by {
                if i > k && at(self@.rows[i], namespace@, id as int) {
                    assert(row_before(self@.rows[k as int], self@.rows[i]));
                }
            }
        }
        None
    }

    /// The memory `id` of `namespace`.
    pub fn load_one(&self, namespace: &str, id: i64) -> (row: Option<&StoredMemory>)
        requires
            self.wf(),
        ensures
            match row {
                Some(row) => lookup(self@.rows, namespace@, id as int) == Some(row@),
                None => lookup(self@.rows, namespace@, id as int) is None,
            },
    {
        match self.position(namespace, id) {
            Some(i) => {
                assert(self@.rows[i as int] == self.memories@[i as int]@);
                Some(&self.memories[i])
            },
            None => None,
        }
    }

    /// Deletes the unread memories whose probation is over at `now_ms`.
    pub fn prune_expired(&mut self, now_ms: i64)
        requires
            old(self).wf(),
        ensures
            final(self).wf(),
            final(self)@ == (StoreView {
                rows: unexpired(old(self)@.rows, now_ms as int),
                ..old(self)@
            }),
    {
        let ghost before = *self;
        let ghost rows = self@.rows;
        let ghost keep = |row: RowView| !expired(row, now_ms as int);
        let ghost mut done: int = 0;
        let mut i: usize = 0;
        proof {
            lemma_filter_valid(before@, keep);
            lemma_filter_empty(rows.take(0), keep);
            assert(self@.rows.take(0) =~= rows.take(0).filter(keep));
            assert(self@.rows.skip(0) =~= rows.skip(0));
        }
        while i < self.memories.len()
            invariant
                rows == before@.rows,
                keep == (|row: RowView| !expired(row, now_ms as int)),
                self.namespaces == before.namespaces,
                i <= self.memories@.len(),
                0 <= done <= rows.len(),
                self.memories@.len() - i == rows.len() - done,
                row_views(self.memories@).take(i as int) == rows.take(done).filter(keep),
                row_views(self.memories@).skip(i as int) == rows.skip(done),
            decreases self.memories@.len() - i,
        {
            let ghost present = row_views(self.memories@);
            proof {
                assert(present.skip(i as int)[0] == present[i as int]);
                assert(rows.skip(done)[0] == rows[done]);
                assert(present[i as int] == self.memories@[i as int]@);
                lemma_filter_step(rows, keep, done);
            }
            if self.memories[i].is_expired(now_ms) {
                self.memories.remove(i);
                proof {
                    let after = row_views(self.memories@);
                    assert(after =~= present.remove(i as int));
                    assert(after.take(i as int) =~= present.take(i as int));
                    assert(after.skip(i as int) =~= present.skip(i as int).skip(1));
                    assert(rows.skip(done).skip(1) =~= rows.skip(done + 1));
                }
            } else {
                i += 1;
                proof {
                    assert(present.take(i as int) =~= present.take(i - 1).push(present[i - 1]));
                    assert(present.skip(i as int) =~= present.skip(i - 1).skip(1));
                    assert(rows.skip(done).skip(1) =~= rows.skip(done + 1));
                }
            }
            proof {
                done = done + 1;
            }
        }
        proof {
            assert(rows.take(done) =~= rows);
            assert(row_views(self.memories@).take(i as int) =~= row_views(self.memories@));
            assert(self@.next_ids == before@.next_ids);
        }
    }

    /// Deletes the memories of `namespace`.
    pub fn delete_namespace(&mut self, namespace: &str)
        requires
            old(self).wf(),
        ensures
            final(self).wf(),
            final(self)@ == (StoreView {
                rows: rows_outside(old(self)@.rows, namespace@),
                ..old(self)@
            }),
    {
        let ghost before = *self;
        let ghost rows = self@.rows;
        let ghost keep = |row: RowView| row.namespace != namespace@;
        let ghost mut done: int = 0;
        let mut i: usize = 0;
        proof {
            lemma_filter_valid(before@, keep);
            lemma_filter_empty(rows.take(0), keep);
            assert(self@.rows.take(0) =~= rows.take(0).filter(keep));
            assert(self@.rows.skip(0) =~= rows.skip(0));
        }
        while i < self.memories.len()
            invariant
                rows == before@.rows,
                keep == (|row: RowView| row.namespace != namespace@),
                self.namespaces == before.namespaces,
                i <= self.memories@.len(),
                0 <= done <= rows.len(),
                self.memories@.len() - i == rows.len() - done,
                row_views(self.memories@).take(i as int) == rows.take(done).filter(keep),
                row_views(self.memories@).skip(i as int) == rows.skip(done),
            decreases self.memories@.len() - i,
        {
            let ghost present = row_views(self.memories@);
            proof {
                assert(present.skip(i as int)[0] == present[i as int]);
                assert(rows.skip(done)[0] == rows[done]);
                assert(present[i as int] == self.memories@[i as int]@);
                lemma_filter_step(rows, keep, done);
            }
            if same_text(self.memories[i].namespace.as_str(), namespace) {
                self.memories.remove(i);
                proof {
                    let after = row_views(self.memories@);
                    assert(after =~= present.remove(i as int));
                    assert(after.take(i as int) =~= present.take(i as int));
                    assert(after.skip(i as int) =~= present.skip(i as int).skip(1));
                    assert(rows.skip(done).skip(1) =~= rows.skip(done + 1));
                }
            } else {
                i += 1;
                proof {
                    assert(present.take(i as int) =~= present.take(i - 1).push(present[i - 1]));
                    assert(present.skip(i as int) =~= present.skip(i - 1).skip(1));
                    assert(rows.skip(done).skip(1) =~= rows.skip(done + 1));
                }
            }
            proof {
                done = done + 1;
            }
        }
        proof {
            assert(rows.take(done) =~= rows);
            assert(row_views(self.memories@).take(i as int) =~= row_views(self.memories@));
            assert(self@.next_ids == before@.next_ids);
        }
    }

    /// Position of the row of `namespace` in the namespace table.
    fn namespace_position(&self, namespace: &str) -> (found: Option<usize>)
        requires
            self.wf(),
        ensures
            match found {
                Some(i) => i < self.namespaces@.len() && self.namespaces@[i as int].namespace@
                    == namespace@ && self@.next_ids.dom().contains(namespace@)
                    && self@.next_ids[namespace@] == self.namespaces@[i as int].next_id,
                None => !self@.next_ids.dom().contains(namespace@) && !known(
                    self.namespaces@,
                    namespace@,
                ),
            },
    {
        let mut i: usize = 0;
        while i < self.namespaces.len()
            invariant
                self.wf(),
                i <= self.namespaces@.len(),
                forall|j: int|
                    0 <= j < i ==> (#[trigger] self.namespaces@[j]).namespace@ != namespace@,
            decreases self.namespaces@.len() - i,
        {
            if same_text(self.namespaces[i].namespace.as_str(), namespace) {
                proof {
                    lemma_next_id(self.namespaces@, i as int);
                }
                return Some(i);
            }
            i += 1;
        }
        None
    }

    /// Makes sure that `namespace` has a row.
    pub fn ensure_namespace(&mut self, namespace: &str)
        requires
            old(self).wf(),
        ensures
            final(self).wf(),
            final(self)@ == (StoreView {
                next_ids: with_namespace(old(self)@.next_ids, namespace@),
                ..old(self)@
            }),
    {
        if self.namespace_position(namespace).is_none() {
            let row = NamespaceRow { namespace: namespace.to_string(), next_id: 1 };
            proof {
                lemma_next_ids_push(self.namespaces@, row);
            }
            self.namespaces.push(row);
        }
    }

    /// Records that every identifier of `namespace` below `next_id` is used.
    fn raise_next_id(&mut self, namespace: &str, next_id: i64)
        requires
            old(self).wf(),
            old(self)@.next_ids.dom().contains(namespace@),
        ensures
            final(self).wf(),
            final(self)@ == (StoreView {
                next_ids: old(self)@.next_ids.insert(
                    namespace@,
                    larger(old(self)@.next_ids[namespace@], next_id as int),
                ),
                ..old(self)@
            }),
    {
        let ghost before = *self;
        if let Some(i) = self.namespace_position(namespace) {
            if self.namespaces[i].next_id < next_id {
                let row = NamespaceRow { namespace: namespace.to_string(), next_id };
                proof {
                    lemma_next_ids_update(self.namespaces@, i as int, row);
                }
                self.namespaces.set(i, row);
            } else {
                assert(before@.next_ids.insert(namespace@, before@.next_ids[namespace@])
                    =~= before@.next_ids);
            }
        }
    }

    /// The largest identifier in `namespace`, or 0.
    fn largest_id(&self, namespace: &str) -> (id: i64)
        requires
            self.wf(),
        ensures
            id == max_id(self@.rows, namespace@),
    {
        let mut largest: i64 = 0;
        let mut i: usize = 0;
        while i < self.memories.len()
            invariant
                i <= self.memories@.len(),
                largest == max_id(row_views(self.memories@).take(i as int), namespace@),
            decreases self.memories@.len() - i,
        {
            let row = &self.memories[i];
            if same_text(row.namespace.as_str(), namespace) && row.id > largest {
                largest = row.id;
            }
            i += 1;
            proof {
                let seen = row_views(self.memories@).take(i as int);
                assert(seen.drop_last() =~= row_views(self.memories@).take(i - 1));
                assert(seen.last() == row@);
            }
        }
        assert(row_views(self.memories@).take(i as int) =~= self@.rows);
        largest
    }

    /// Takes an identifier of `namespace` that was never used.
    pub fn allocate_id(&mut self, namespace: &str) -> (id: Result<i64, MemoryError>)
        requires
            old(self).wf(),
            old(self)@.next_ids.dom().contains(namespace@),
        ensures
            final(self).wf(),
            match id {
                Ok(id) => id == fresh_id(old(self)@, namespace@) && 0 < id < i64::MAX
                    && final(self)@ == (StoreView {
                    next_ids: old(self)@.next_ids.insert(namespace@, id + 1),
                    ..old(self)@
                }),
                Err(error) => error == MemoryError::StorageCapacity && fresh_id(
                    old(self)@,
                    namespace@,
                ) >= i64::MAX && final(self)@ == old(self)@,
            },
    {
        let largest: i64 = self.largest_id(namespace);
        let mut id: i64 = 1;
        if let Some(i) = self.namespace_position(namespace) {
            id = self.namespaces[i].next_id;
        }
        if largest == i64::MAX {
            return Err(MemoryError::StorageCapacity);
        }
        if largest + 1 > id {
            id = largest + 1;
        }
        if id == i64::MAX {
            return Err(MemoryError::StorageCapacity);
        }
        self.raise_next_id(namespace, id + 1);
        Ok(id)
    }

    /// Records that the identifier `id` of `namespace` is used.
    pub fn observe_id(&mut self, namespace: &str, id: i64) -> (done: Result<(), MemoryError>)
        requires
            old(self).wf(),
            old(self)@.next_ids.dom().contains(namespace@),
        ensures
            final(self).wf(),
            match done {
                Ok(()) => id < i64::MAX && final(self)@ == (StoreView {
                    next_ids: old(self)@.next_ids.insert(
                        namespace@,
                        larger(old(self)@.next_ids[namespace@], id + 1),
                    ),
                    ..old(self)@
                }),
                Err(error) => error == MemoryError::StorageCapacity && id == i64::MAX
                    && final(self)@ == old(self)@,
            },
    {
        if id == i64::MAX {
            return Err(MemoryError::StorageCapacity);
        }
        self.raise_next_id(namespace, id + 1);
        Ok(())
    }

    /// Number and content bytes of the memories of `namespace`; the sum of the bytes is refused
    /// where it does not fit in a signed 64-bit number.
    pub fn totals(&self, namespace: &str) -> (totals: Result<Totals, MemoryError>)
        ensures
            match totals {
                Ok(totals) => totals.records == record_count(self@.rows, namespace@)
                    && totals.content_bytes == content_total(self@.rows, namespace@)
                    && totals.content_bytes <= i64::MAX,
                Err(error) => error == MemoryError::Backend && content_total(
                    self@.rows,
                    namespace@,
                ) > i64::MAX,
            },
    {
        let ghost rows = self@.rows;
        let mut records: u64 = 0;
        let mut content_bytes: u128 = 0;
        let mut i: usize = 0;
        while i < self.memories.len()
            invariant
                rows == self@.rows,
                rows.len() == self.memories@.len(),
                i <= self.memories@.len(),
                records <= i,
                records == tally(rows.take(i as int), one_in(namespace@)),
                content_bytes <= i * (usize::MAX as u128),
                content_bytes == tally(rows.take(i as int), bytes_in(namespace@)),
            decreases self.memories@.len() - i,
        {
            let row = &self.memories[i];
            proof {
                let seen = rows.take(i + 1);
                assert(seen.drop_last() =~= rows.take(i as int));
                assert(seen.last() == row@);
            }
            if same_text(row.namespace.as_str(), namespace) {
                let bytes: usize = byte_len(row.content.as_str());
                proof {
                    assert(i * (usize::MAX as u128) <= 0xffff_ffff_ffff_fffe * (usize::MAX as u128))
                        by (nonlinear_arith)
                        requires
                            i <= 0xffff_ffff_ffff_fffe,
                    ;
                    assert((i + 1) * (usize::MAX as u128) == i * (usize::MAX as u128) + (
                    usize::MAX as u128)) by (nonlinear_arith);
                }
                records += 1;
                content_bytes += bytes as u128;
            } else {
                proof {
                    assert((i + 1) * (usize::MAX as u128) >= i * (usize::MAX as u128))
                        by (nonlinear_arith);
                }
            }
            i += 1;
        }
        assert(rows.take(i as int) =~= rows);
        if content_bytes > i64::MAX as u128 {
            return Err(MemoryError::Backend);
        }
        Ok(Totals { records, content_bytes: content_bytes as u64 })
    }

    /// Whether `namespace` holds `identity` in a memory other than `excluded`.
    pub fn identity_exists(&self, namespace: &str, identity: &str, excluded: Option<i64>) -> (r:
        bool)
        ensures
            r == identity_taken(
                self@.rows,
                namespace@,
                identity@,
                optional_time(excluded),
            ),
    {
        let mut i: usize = 0;
        while i < self.memories.len()
            invariant
                i <= self.memories@.len(),
                forall|j: int|
                    0 <= j < i ==> !((#[trigger] self@.rows[j]).namespace == namespace@
                        && self@.rows[j].identity == identity@
                        && optional_time(excluded) != Some(self@.rows[j].id)),
            decreases self.memories@.len() - i,
        {
            let row = &self.memories[i];
            assert(row@ == self@.rows[i as int]);
            let other = match excluded {
                Some(id) => row.id != id,
                None => true,
            };
            if other && same_text(row.namespace.as_str(), namespace) && same_text(
                row.identity.as_str(),
                identity,
            ) {
                return true;
            }
            i += 1;
        }
        false
    }

    /// Adds a memory.
    pub fn insert_memory(&mut self, row: StoredMemory)
        requires
            old(self).wf(),
            valid_row(row@),
            old(self)@.next_ids.dom().contains(row@.namespace),
            !holds(old(self)@.rows, row@.namespace, row@.id),
            !identity_taken(old(self)@.rows, row@.namespace, row@.identity, None),
        ensures
            final(self).wf(),
            final(self)@ == (StoreView { rows: insert_row(old(self)@.rows, row@), ..old(self)@ }),
    {
        let ghost before = *self;
        let ghost rows = self@.rows;
        let k: usize = self.lower_bound(row.namespace.as_str(), row.id);
        let ghost new_row = row@;
        self.memories.insert(k, row);
        proof {
            lemma_rank(rows, new_row, k as int);
            lemma_insert_valid(before@, new_row);
            assert(self@.rows =~= insert_row(rows, new_row));
        }
    }

    /// Replaces the memory of the same key.
    pub fn replace_memory(&mut self, row: StoredMemory)
        requires
            old(self).wf(),
            valid_row(row@),
            holds(old(self)@.rows, row@.namespace, row@.id),
            !identity_taken(old(self)@.rows, row@.namespace, row@.identity, Some(row@.id)),
        ensures
            final(self).wf(),
            final(self)@ == (StoreView { rows: replace_row(old(self)@.rows, row@), ..old(self)@ }),
    {
        let ghost before = *self;
        let ghost rows = self@.rows;
        if let Some(k) = self.position(row.namespace.as_str(), row.id) {
            let ghost new_row = row@;
            self.memories.set(k, row);
            proof {
                lemma_replace_at(rows, k as int, new_row);
                lemma_replace_valid(before@, new_row);
                assert(self@.rows =~= replace_row(rows, new_row));
            }
        }
    }

    /// Deletes the memory `id` of `namespace`, if there is one.
    pub fn delete_memory(&mut self, namespace: &str, id: i64)
        requires
            old(self).wf(),
        ensures
            final(self).wf(),
            final(self)@ == (StoreView {
                rows: delete_row(old(self)@.rows, namespace@, id as int),
                ..old(self)@
            }),
    {
        let ghost before = *self;
        let ghost rows = self@.rows;
        proof {
            lemma_filter_valid(before@, |row: RowView| !at(row, namespace@, id as int));
        }
        match self.position(namespace, id) {
            Some(k) => {
                self.memories.remove(k);
                proof {
                    lemma_delete_at(rows, k as int);
                    assert(self@.rows =~= rows.remove(k as int));
                }
            },
            None => {
                proof {
                    lemma_filter_all(rows, |row: RowView| !at(row, namespace@, id as int));
                }
            },
        }
    }

    /// The first `limit` records that have not expired at `now_ms`.
    pub fn load_visible(&self, now_ms: i64, limit: usize) -> (records: Vec<MemoryRecord>)
        ensures
            record_views(records@) == records_of(
                first(unexpired(self@.rows, now_ms as int), limit as int),
            ),
    {
        let ghost rows = self@.rows;
        let ghost keep = |row: RowView| !expired(row, now_ms as int);
        let mut records: Vec<MemoryRecord> = Vec::new();
        let mut i: usize = 0;
        proof {
            lemma_filter_empty(rows.take(0), keep);
            assert(record_views(records@) =~= records_of(rows.take(0).filter(keep)));
        }
        while i < self.memories.len() && records.len() < limit
            invariant
                rows == self@.rows,
                rows.len() == self.memories@.len(),
                keep == (|row: RowView| !expired(row, now_ms as int)),
                i <= self.memories@.len(),
                records.len() <= limit,
                record_views(records@) == records_of(rows.take(i as int).filter(keep)),
            decreases self.memories@.len() - i,
        {
            let row = &self.memories[i];
            let ghost before = records@;
            proof {
                assert(row@ == rows[i as int]);
                lemma_filter_step(rows, keep, i as int);
            }
            if !row.is_expired(now_ms) {
                records.push(row.record());
                proof {
                    assert(record_views(records@) =~= record_views(before).push(record_of(row@)));
                    assert(records_of(rows.take(i as int).filter(keep).push(row@))
                        =~= records_of(rows.take(i as int).filter(keep)).push(record_of(row@)));
                }
            }
            i += 1;
        }
        proof {
            let kept = rows.take(i as int).filter(keep);
            lemma_filter_add(rows.take(i as int), rows.skip(i as int), keep);
            assert(rows =~= rows.take(i as int) + rows.skip(i as int));
            assert(record_views(records@).len() == records_of(kept).len());
            if i == rows.len() {
                lemma_filter_empty(rows.skip(i as int), keep);
            }
            assert(first(rows.filter(keep), limit as int) =~= kept);
        }
        records
    }

    /// The memories of `namespace`, in the order of their identifiers.
    pub fn load_namespace(&self, namespace: &str) -> (records: Vec<MemoryRecord>)
        ensures
            record_views(records@) == records_of(rows_in(self@.rows, namespace@)),
    {
        let ghost rows = self@.rows;
        let ghost keep = |row: RowView| row.namespace == namespace@;
        let mut records: Vec<MemoryRecord> = Vec::new();
        let mut i: usize = 0;
        proof {
            lemma_filter_empty(rows.take(0), keep);
            assert(record_views(records@) =~= records_of(rows.take(0).filter(keep)));
        }
        while i < self.memories.len()
            invariant
                rows == self@.rows,
                rows.len() == self.memories@.len(),
                keep == (|row: RowView| row.namespace == namespace@),
                i <= self.memories@.len(),
                record_views(records@) == records_of(rows.take(i as int).filter(keep)),
            decreases self.memories@.len() - i,
        {
            let row = &self.memories[i];
            let ghost before = records@;
            proof {
                assert(row@ == rows[i as int]);
                lemma_filter_step(rows, keep, i as int);
            }
            if same_text(row.namespace.as_str(), namespace) {
                records.push(row.record());
                proof {
                    assert(record_views(records@) =~= record_views(before).push(record_of(row@)));
                    assert(records_of(rows.take(i as int).filter(keep).push(row@))
                        =~= records_of(rows.take(i as int).filter(keep)).push(record_of(row@)));
                }
            }
            i += 1;
        }
        assert(rows.take(i as int) =~= rows);
        records
    }
}

/// Two tables are loaded exactly where no namespace has two rows, each namespace's next identifier
/// is at least 1, each memory's identifier and version are at least 1 and its version and counts
/// fit, its namespace has a row, the memories stand in the order of their namespaces, byte by byte,
/// and in a namespace of their identifiers, and no two memories of a namespace have one identity.
pub proof fn law_tables_loaded(namespaces: Seq<NamespaceRow>, memories: Seq<StoredMemory>)
    ensures
        loadable(namespaces, memories) <==> {
            &&& forall|i: int, j: int|
                0 <= i < j < namespaces.len() ==> (#[trigger] namespaces[i]).namespace@ != (
                #[trigger] namespaces[j]).namespace@
            &&& forall|i: int| 0 <= i < namespaces.len() ==> (#[trigger] namespaces[i]).next_id >= 1
            &&& forall|i: int|
                0 <= i < memories.len() ==> {
                    let memory = #[trigger] memories[i];
                    &&& memory.id >= 1
                    &&& 1 <= memory.version <= i64::MAX
                    &&& memory.scan_count <= i64::MAX
                    &&& memory.use_count <= i64::MAX
                    &&& exists|k: int|
                        0 <= k < namespaces.len() && (#[trigger] namespaces[k]).namespace@
                            == memory.namespace@
                }
            &&& forall|i: int, j: int|
                0 <= i < j < memories.len() ==> text_before(
                    (#[trigger] memories[i]).namespace@,
                    (#[trigger] memories[j]).namespace@,
                ) || (memories[i].namespace@ == memories[j].namespace@ && memories[i].id
                    < memories[j].id)
            &&& forall|i: int, j: int|
                0 <= i < j < memories.len() && (#[trigger] memories[i]).namespace@ == (
                #[trigger] memories[j]).namespace@ ==> memories[i].identity@
                    != memories[j].identity@
        },
{
    let rows = row_views(memories);
    let state = state_of(namespaces, memories);
    assert forall|i: int| 0 <= i < memories.len() implies #[trigger] rows[i] == memories[i]@ by {}
    if loadable(namespaces, memories) {
        assert forall|i: int| 0 <= i < namespaces.len() implies (
        #[trigger] namespaces[i]).next_id >= 1 by {
            lemma_next_id(namespaces, i);
            assert(state.next_ids.dom().contains(namespaces[i].namespace@));
        }
        assert forall|i: int| 0 <= i < memories.len() implies ({
            let memory = #[trigger] memories[i];
            &&& memory.id >= 1
            &&& 1 <= memory.version <= i64::MAX
            &&& memory.scan_count <= i64::MAX
            &&& memory.use_count <= i64::MAX
            &&& exists|k: int|
                0 <= k < namespaces.len() && (#[trigger] namespaces[k]).namespace@
                    == memory.namespace@
        }) by {
            assert(valid_row(state.rows[i]));
            assert(known(namespaces, memories[i].namespace@));
        }
        assert forall|i: int, j: int| 0 <= i < j < memories.len() implies (text_before(
            (#[trigger] memories[i]).namespace@,
            (#[trigger] memories[j]).namespace@,
        ) || (memories[i].namespace@ == memories[j].namespace@ && memories[i].id < memories[j].id))
            && (memories[i].namespace@ == memories[j].namespace@ ==> memories[i].identity@
            != memories[j].identity@) by {
            assert(row_before(rows[i], rows[j]));
            assert(identities_differ(rows[i], rows[j]));
        }
    }
    if (forall|i: int, j: int|
        0 <= i < j < namespaces.len() ==> (#[trigger] namespaces[i]).namespace@ != (
        #[trigger] namespaces[j]).namespace@) && (forall|i: int|
        0 <= i < namespaces.len() ==> (#[trigger] namespaces[i]).next_id >= 1) && (forall|i: int|
        0 <= i < memories.len() ==> {
            let memory = #[trigger] memories[i];
            &&& memory.id >= 1
            &&& 1 <= memory.version <= i64::MAX
            &&& memory.scan_count <= i64::MAX
            &&& memory.use_count <= i64::MAX
            &&& exists|k: int|
                0 <= k < namespaces.len() && (#[trigger] namespaces[k]).namespace@
                    == memory.namespace@
        }) && (forall|i: int, j: int|
        0 <= i < j < memories.len() ==> text_before(
            (#[trigger] memories[i]).namespace@,
            (#[trigger] memories[j]).namespace@,
        ) || (memories[i].namespace@ == memories[j].namespace@ && memories[i].id < memories[j].id))
        && (forall|i: int, j: int|
        0 <= i < j < memories.len() && (#[trigger] memories[i]).namespace@ == (
        #[trigger] memories[j]).namespace@ ==> memories[i].identity@ != memories[j].identity@) {
        assert forall|i: int, j: int| 0 <= i < j < rows.len() implies row_before(rows[i], rows[j])
            && identities_differ(rows[i], rows[j]) by {
            assert(memories[i]@ == rows[i] && memories[j]@ == rows[j]);
        }
        assert forall|i: int| 0 <= i < state.rows.len() implies valid_row(#[trigger] state.rows[i])
            && state.next_ids.dom().contains(state.rows[i].namespace) by {
            assert(memories[i]@ == rows[i]);
            assert(known(namespaces, memories[i].namespace@));
        }
        assert(namespaces_distinct(namespaces));
        assert forall|namespace: Seq<char>| #[trigger]
            state.next_ids.dom().contains(namespace) implies 0 < state.next_ids[namespace]
            <= i64::MAX by {
            let k = choose|k: int|
                0 <= k < namespaces.len() && (#[trigger] namespaces[k]).namespace@ == namespace;
            lemma_next_id(namespaces, k);
        }
    }
}

} // verus!
