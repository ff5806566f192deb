//! Memory rows as values: their order, their invariant, and what lookups and sums over them mean.

use vstd::prelude::*;

use crate::protocol::{optional_time, KeyView, MemoryKey, MemoryRecord, RecordView};
use crate::text::{lemma_text_order, lemma_text_transitive, place, text_before, utf8_len, Place};

verus! {

/// One persisted memory with its owning namespace and its duplicate-detection identity.
#[derive(Clone, Debug, PartialEq, Eq)]
pub struct StoredMemory {
    pub namespace: String,
    pub id: i64,
    pub version: u64,
    pub content: String,
    pub identity: String,
    pub created_at_ms: i64,
    pub updated_at_ms: i64,
    pub last_scanned_at_ms: Option<i64>,
    pub scan_count: u64,
    pub last_used_at_ms: Option<i64>,
    pub use_count: u64,
    pub probation_until_ms: Option<i64>,
}

/// The value of a `StoredMemory`.
pub struct RowView {
    pub namespace: Seq<char>,
    pub id: int,
    pub version: int,
    pub content: Seq<char>,
    pub identity: Seq<char>,
    pub created_at_ms: int,
    pub updated_at_ms: int,
    pub last_scanned_at_ms: Option<int>,
    pub scan_count: int,
    pub last_used_at_ms: Option<int>,
    pub use_count: int,
    pub probation_until_ms: Option<int>,
}

impl View for StoredMemory {
    type V = RowView;

    open spec fn view(&self) -> RowView {
        RowView {
            namespace: self.namespace@,
            id: self.id as int,
            version: self.version as int,
            content: self.content@,
            identity: self.identity@,
            created_at_ms: self.created_at_ms as int,
            updated_at_ms: self.updated_at_ms as int,
            last_scanned_at_ms: optional_time(self.last_scanned_at_ms),
            scan_count: self.scan_count as int,
            last_used_at_ms: optional_time(self.last_used_at_ms),
            use_count: self.use_count as int,
            probation_until_ms: optional_time(self.probation_until_ms),
        }
    }
}

/// The values of a list of rows.
pub open spec fn row_views(rows: Seq<StoredMemory>) -> Seq<RowView> {
    rows.map_values(|row: StoredMemory| row@)
}

/// The record that a client sees of `row`.
pub open spec fn record_of(row: RowView) -> RecordView {
    RecordView {
        key: KeyView { id: row.id, version: row.version, namespace: Some(row.namespace) },
        content: row.content,
        created_at_ms: row.created_at_ms,
        updated_at_ms: row.updated_at_ms,
        last_scanned_at_ms: row.last_scanned_at_ms,
        scan_count: row.scan_count,
        last_used_at_ms: row.last_used_at_ms,
        use_count: row.use_count,
        probation_until_ms: row.probation_until_ms,
    }
}

/// The records that a client sees of `rows`.
pub open spec fn records_of(rows: Seq<RowView>) -> Seq<RecordView> {
    rows.map_values(|row: RowView| record_of(row))
}

impl StoredMemory {
    /// The key of the memory.
    pub fn key(&self) -> (key: MemoryKey)
        ensures
            key@ == record_of(self@).key,
    {
        MemoryKey::remote(self.namespace.clone(), self.id, self.version)
    }

    /// The record that a client sees.
    pub fn record(&self) -> (record: MemoryRecord)
        ensures
            record@ == record_of(self@),
    {
        MemoryRecord {
            key: self.key(),
            content: self.content.clone(),
            created_at_ms: self.created_at_ms,
            updated_at_ms: self.updated_at_ms,
            last_scanned_at_ms: self.last_scanned_at_ms,
            scan_count: self.scan_count,
            last_used_at_ms: self.last_used_at_ms,
            use_count: self.use_count,
            probation_until_ms: self.probation_until_ms,
        }
    }

    /// A row of the same value.
    pub fn duplicate(&self) -> (row: StoredMemory)
        ensures
            row@ == self@,
    {
        StoredMemory {
            namespace: self.namespace.clone(),
            id: self.id,
            version: self.version,
            content: self.content.clone(),
            identity: self.identity.clone(),
            created_at_ms: self.created_at_ms,
            updated_at_ms: self.updated_at_ms,
            last_scanned_at_ms: self.last_scanned_at_ms,
            scan_count: self.scan_count,
            last_used_at_ms: self.last_used_at_ms,
            use_count: self.use_count,
            probation_until_ms: self.probation_until_ms,
        }
    }

    /// Whether this row comes before, at or after the key (`namespace`, `id`).
    pub fn placed(&self, namespace: &str, id: i64) -> (p: Place)
        ensures
            p == Place::Before <==> key_before(self@.namespace, self@.id, namespace@, id as int),
            p == Place::Same <==> at(self@, namespace@, id as int),
            p == Place::After <==> key_before(namespace@, id as int, self@.namespace, self@.id),
    {
        proof {
            lemma_text_order(self.namespace@, namespace@);
        }
        match place(self.namespace.as_str(), namespace) {
            Place::Before => Place::Before,
            Place::After => Place::After,
            Place::Same => if self.id < id {
                Place::Before
            } else if self.id > id {
                Place::After
            } else {
                Place::Same
            },
        }
    }

    /// Whether the memory was never read and its probation is over at `now_ms`.
    pub fn is_expired(&self, now_ms: i64) -> (r: bool)
        ensures
            r == expired(self@, now_ms as int),
    {
        match self.probation_until_ms {
            Some(until) => until <= now_ms && self.use_count == 0,
            None => false,
        }
    }
}

/// Whether `row` is the memory `id` of `namespace`.
pub open spec fn at(row: RowView, namespace: Seq<char>, id: int) -> bool {
    row.namespace == namespace && row.id == id
}

/// Order of keys: by namespace in byte order, then by identifier.
pub open spec fn key_before(
    left_namespace: Seq<char>,
    left_id: int,
    right_namespace: Seq<char>,
    right_id: int,
) -> bool {
    ||| text_before(left_namespace, right_namespace)
    ||| left_namespace == right_namespace && left_id < right_id
}

/// Order of rows: that of their keys.
pub open spec fn row_before(left: RowView, right: RowView) -> bool {
    key_before(left.namespace, left.id, right.namespace, right.id)
}

/// Whether an unread memory has outlived its probation at `now`.
pub open spec fn expired(row: RowView, now: int) -> bool {
    match row.probation_until_ms {
        Some(until) => until <= now && row.use_count == 0,
        None => false,
    }
}

/// Whether `rows` are in strictly increasing order of keys; so no key occurs twice.
pub open spec fn sorted(rows: Seq<RowView>) -> bool {
    forall|i: int, j: int| 0 <= i < j < rows.len() ==> row_before(rows[i], rows[j])
}

/// Whether the two rows may stand in one table as far as their identities go.
pub open spec fn identities_differ(left: RowView, right: RowView) -> bool {
    left.namespace == right.namespace ==> left.identity != right.identity
}

/// Whether no namespace holds one identity twice.
pub open spec fn identities_distinct(rows: Seq<RowView>) -> bool {
    forall|i: int, j: int| 0 <= i < j < rows.len() ==> identities_differ(rows[i], rows[j])
}

/// Whether the numbers of `row` are in range.
pub open spec fn valid_row(row: RowView) -> bool {
    &&& 0 < row.id <= i64::MAX
    &&& 0 < row.version <= i64::MAX
    &&& 0 <= row.scan_count <= i64::MAX
    &&& 0 <= row.use_count <= i64::MAX
}

/// The contents of a memory database: its memories in the order of their keys, and for each
/// namespace that was ever written the smallest identifier that is still unused.
pub struct StoreView {
    pub rows: Seq<RowView>,
    pub next_ids: Map<Seq<char>, int>,
}

/// The invariant of a memory database.
pub open spec fn valid_state(state: StoreView) -> bool {
    &&& sorted(state.rows)
    &&& identities_distinct(state.rows)
    &&& forall|i: int|
        0 <= i < state.rows.len() ==> valid_row(#[trigger] state.rows[i])
            && state.next_ids.dom().contains(state.rows[i].namespace)
    &&& forall|namespace: Seq<char>| #[trigger]
        state.next_ids.dom().contains(namespace) ==> 0 < state.next_ids[namespace] <= i64::MAX
}

/// Whether `rows` hold the memory `id` of `namespace`.
pub open spec fn holds(rows: Seq<RowView>, namespace: Seq<char>, id: int) -> bool {
    exists|i: int| 0 <= i < rows.len() && at(#[trigger] rows[i], namespace, id)
}

/// The memory `id` of `namespace`.
pub open spec fn lookup(rows: Seq<RowView>, namespace: Seq<char>, id: int) -> Option<RowView> {
    if holds(rows, namespace, id) {
        Some(rows[choose|i: int| 0 <= i < rows.len() && at(#[trigger] rows[i], namespace, id)])
    } else {
        None
    }
}

/// Whether `namespace` holds `identity` in a memory other than `excluded`.
pub open spec fn identity_taken(
    rows: Seq<RowView>,
    namespace: Seq<char>,
    identity: Seq<char>,
    excluded: Option<int>,
) -> bool {
    exists|i: int|
        0 <= i < rows.len() && (#[trigger] rows[i]).namespace == namespace && rows[i].identity
            == identity && excluded != Some(rows[i].id)
}

/// The sum of `measure` over `rows`.
pub open spec fn tally(rows: Seq<RowView>, measure: spec_fn(RowView) -> int) -> int
    decreases rows.len(),
{
    if rows.len() == 0 {
        0
    } else {
        tally(rows.drop_last(), measure) + measure(rows.last())
    }
}

/// 1 for a row of `namespace`, 0 for another.
pub open spec fn one_in(namespace: Seq<char>) -> spec_fn(RowView) -> int {
    |row: RowView|
        if row.namespace == namespace {
            1
        } else {
            0
        }
}

/// The content bytes of a row of `namespace`, 0 for another.
pub open spec fn bytes_in(namespace: Seq<char>) -> spec_fn(RowView) -> int {
    |row: RowView|
        if row.namespace == namespace {
            utf8_len(row.content) as int
        } else {
            0
        }
}

/// Number of memories of `namespace`.
pub open spec fn record_count(rows: Seq<RowView>, namespace: Seq<char>) -> int {
    tally(rows, one_in(namespace))
}

/// Bytes of all the contents of `namespace`.
pub open spec fn content_total(rows: Seq<RowView>, namespace: Seq<char>) -> int {
    tally(rows, bytes_in(namespace))
}

/// The largest identifier in `namespace`, or 0.
pub open spec fn max_id(rows: Seq<RowView>, namespace: Seq<char>) -> int
    decreases rows.len(),
{
    if rows.len() == 0 {
        0
    } else {
        let before = max_id(rows.drop_last(), namespace);
        if rows.last().namespace == namespace && rows.last().id > before {
            rows.last().id
        } else {
            before
        }
    }
}

/// Number of rows that come before `row`.
pub open spec fn rank(rows: Seq<RowView>, row: RowView) -> int
    decreases rows.len(),
{
    if rows.len() == 0 {
        0
    } else if row_before(rows.last(), row) {
        rank(rows.drop_last(), row) + 1
    } else {
        rank(rows.drop_last(), row)
    }
}

/// `rows` with `row` added at its place in the order.
pub open spec fn insert_row(rows: Seq<RowView>, row: RowView) -> Seq<RowView> {
    rows.insert(rank(rows, row), row)
}

/// `rows` with the row of the same key replaced by `row`.
pub open spec fn replace_row(rows: Seq<RowView>, row: RowView) -> Seq<RowView> {
    rows.map_values(
        |present: RowView|
            if at(present, row.namespace, row.id) {
                row
            } else {
                present
            },
    )
}

/// `rows` without the memory `id` of `namespace`.
pub open spec fn delete_row(rows: Seq<RowView>, namespace: Seq<char>, id: int) -> Seq<RowView> {
    rows.filter(|row: RowView| !at(row, namespace, id))
}

/// The rows that have not expired at `now`.
pub open spec fn unexpired(rows: Seq<RowView>, now: int) -> Seq<RowView> {
    rows.filter(|row: RowView| !expired(row, now))
}

/// The first `limit` elements of `s`, or all of them where there are fewer.
pub open spec fn first<A>(s: Seq<A>, limit: int) -> Seq<A> {
    if s.len() <= limit {
        s
    } else {
        s.take(limit)
    }
}

/// The rows of `namespace`.
pub open spec fn rows_in(rows: Seq<RowView>, namespace: Seq<char>) -> Seq<RowView> {
    rows.filter(|row: RowView| row.namespace == namespace)
}

/// The rows of the other namespaces.
pub open spec fn rows_outside(rows: Seq<RowView>, namespace: Seq<char>) -> Seq<RowView> {
    rows.filter(|row: RowView| row.namespace != namespace)
}

/// The order of keys is a strict total order.
pub proof fn lemma_key_order(a: Seq<char>, a_id: int, b: Seq<char>, b_id: int)
    ensures
        !key_before(a, a_id, a, a_id),
        key_before(a, a_id, b, b_id) ==> !key_before(b, b_id, a, a_id),
        key_before(a, a_id, b, b_id) || key_before(b, b_id, a, a_id) || a == b && a_id == b_id,
{
    lemma_text_order(a, b);
    lemma_text_order(b, a);
}

/// The order of keys is transitive.
pub proof fn lemma_key_transitive(
    a: Seq<char>,
    a_id: int,
    b: Seq<char>,
    b_id: int,
    c: Seq<char>,
    c_id: int,
)
    requires
        key_before(a, a_id, b, b_id),
        key_before(b, b_id, c, c_id),
    ensures
        key_before(a, a_id, c, c_id),
{
    if text_before(a, b) && text_before(b, c) {
        lemma_text_transitive(a, b, c);
    }
}

/// A key occurs once, so looking it up gives the row that has it.
pub proof fn lemma_lookup(rows: Seq<RowView>, i: int)
    requires
        sorted(rows),
        0 <= i < rows.len(),
    ensures
        lookup(rows, rows[i].namespace, rows[i].id) == Some(rows[i]),
        forall|j: int|
            0 <= j < rows.len() && at(#[trigger] rows[j], rows[i].namespace, rows[i].id) ==> j == i,
{
    let namespace = rows[i].namespace;
    let id = rows[i].id;
    assert(at(rows[i], namespace, id));
    assert forall|j: int| 0 <= j < rows.len() && at(#[trigger] rows[j], namespace, id) implies j
        == i by {
        lemma_key_order(namespace, id, namespace, id);
        if j < i {
            assert(row_before(rows[j], rows[i]));
        } else if i < j {
            assert(row_before(rows[i], rows[j]));
        }
    }
}

/// What a lookup finds is one of the rows.
pub proof fn lemma_lookup_index(rows: Seq<RowView>, namespace: Seq<char>, id: int) -> (i: int)
    requires
        lookup(rows, namespace, id) is Some,
    ensures
        0 <= i < rows.len(),
        rows[i] == lookup(rows, namespace, id)->0,
        at(rows[i], namespace, id),
{
    choose|i: int| 0 <= i < rows.len() && at(#[trigger] rows[i], namespace, id)
}

/// One step of filtering a sequence from its start.
pub proof fn lemma_filter_step<A>(s: Seq<A>, pred: spec_fn(A) -> bool, k: int)
    requires
        0 <= k < s.len(),
    ensures
        s.take(k + 1).filter(pred) == if pred(s[k]) {
            s.take(k).filter(pred).push(s[k])
        } else {
            s.take(k).filter(pred)
        },
{
    reveal(Seq::filter);
    assert(s.take(k + 1).drop_last() =~= s.take(k));
}

/// Filtering the empty sequence leaves nothing.
pub proof fn lemma_filter_empty<A>(s: Seq<A>, pred: spec_fn(A) -> bool)
    requires
        s.len() == 0,
    ensures
        s.filter(pred) == s,
{
    reveal(Seq::filter);
    assert(s.filter(pred) =~= s);
}

/// What filtering keeps: exactly the elements that satisfy the predicate.
pub proof fn lemma_filter_members<A>(s: Seq<A>, pred: spec_fn(A) -> bool)
    ensures
        forall|i: int|
            0 <= i < s.filter(pred).len() ==> pred(#[trigger] s.filter(pred)[i]) && s.contains(
                s.filter(pred)[i],
            ),
        forall|i: int|
            0 <= i < s.len() && pred(#[trigger] s[i]) ==> s.filter(pred).contains(s[i]),
        s.filter(pred).len() <= s.len(),
    decreases s.len(),
{
    reveal(Seq::filter);
    if s.len() > 0 {
        let rest = s.drop_last();
        lemma_filter_members(rest, pred);
        let kept = rest.filter(pred);
        assert forall|i: int| 0 <= i < s.filter(pred).len() implies pred(
            #[trigger] s.filter(pred)[i],
        ) && s.contains(s.filter(pred)[i]) by {
            if i < kept.len() {
                let j = choose|j: int| 0 <= j < rest.len() && rest[j] == kept[i];
                assert(s[j] == kept[i]);
            } else {
                assert(s[s.len() - 1] == s.filter(pred)[i]);
            }
        }
        assert forall|i: int| 0 <= i < s.len() && pred(#[trigger] s[i]) implies s.filter(
            pred,
        ).contains(s[i]) by {
            if i < rest.len() {
                assert(rest[i] == s[i]);
                let j = choose|j: int| 0 <= j < kept.len() && kept[j] == rest[i];
                assert(s.filter(pred)[j] == s[i]);
            } else {
                assert(s.filter(pred)[kept.len() as int] == s[i]);
            }
        }
    }
}

/// A relation between every earlier and every later element survives filtering.
pub proof fn lemma_filter_pairwise<A>(
    s: Seq<A>,
    pred: spec_fn(A) -> bool,
    rel: spec_fn(A, A) -> bool,
)
    requires
        forall|i: int, j: int| 0 <= i < j < s.len() ==> rel(s[i], s[j]),
    ensures
        forall|i: int, j: int|
            0 <= i < j < s.filter(pred).len() ==> rel(s.filter(pred)[i], s.filter(pred)[j]),
    decreases s.len(),
{
    reveal(Seq::filter);
    if s.len() > 0 {
        let rest = s.drop_last();
        assert forall|i: int, j: int| 0 <= i < j < rest.len() implies rel(rest[i], rest[j]) by {
            assert(rel(s[i], s[j]));
        }
        lemma_filter_pairwise(rest, pred, rel);
        lemma_filter_members(rest, pred);
        let kept = rest.filter(pred);
        assert forall|i: int, j: int| 0 <= i < j < s.filter(pred).len() implies rel(
            s.filter(pred)[i],
            s.filter(pred)[j],
        ) by {
            if j == kept.len() {
                let k = choose|k: int| 0 <= k < rest.len() && rest[k] == kept[i];
                assert(rel(s[k], s[s.len() - 1]));
            } else {
                assert(rel(kept[i], kept[j]));
            }
        }
    }
}

/// Filtering keeps the rows in order, their identities apart, and their numbers in range.
pub proof fn lemma_filter_valid(state: StoreView, pred: spec_fn(RowView) -> bool)
    requires
        valid_state(state),
    ensures
        valid_state(StoreView { rows: state.rows.filter(pred), ..state }),
{
    let rows = state.rows;
    let before = |left: RowView, right: RowView| row_before(left, right);
    let differ = |left: RowView, right: RowView| identities_differ(left, right);
    lemma_filter_pairwise(rows, pred, before);
    lemma_filter_pairwise(rows, pred, differ);
    lemma_filter_members(rows, pred);
    let kept = rows.filter(pred);
    assert forall|i: int, j: int| 0 <= i < j < kept.len() implies row_before(kept[i], kept[j]) by {
        assert(before(kept[i], kept[j]));
    }
    assert forall|i: int, j: int| 0 <= i < j < kept.len() implies identities_differ(
        kept[i],
        kept[j],
    ) by {
        assert(differ(kept[i], kept[j]));
    }
}

/// The first rows come before `row` and the others do not, so their number is the rank.
pub proof fn lemma_rank(rows: Seq<RowView>, row: RowView, k: int)
    requires
        0 <= k <= rows.len(),
        forall|i: int| 0 <= i < k ==> row_before(#[trigger] rows[i], row),
        forall|i: int| k <= i < rows.len() ==> !row_before(#[trigger] rows[i], row),
    ensures
        rank(rows, row) == k,
    decreases rows.len(),
{
    if rows.len() > 0 {
        let rest = rows.drop_last();
        lemma_rank(rest, row, if k == rows.len() { k - 1 } else { k });
    }
}

/// Adding a new key keeps the order.
pub proof fn lemma_insert_sorted(rows: Seq<RowView>, row: RowView)
    requires
        sorted(rows),
        !holds(rows, row.namespace, row.id),
    ensures
        0 <= rank(rows, row) <= rows.len(),
        sorted(insert_row(rows, row)),
        forall|i: int| 0 <= i < rank(rows, row) ==> row_before(#[trigger] rows[i], row),
        forall|i: int| rank(rows, row) <= i < rows.len() ==> row_before(row, #[trigger] rows[i]),
{
    lemma_rank_splits(rows, row);
    let k = rank(rows, row);
    assert forall|i: int| k <= i < rows.len() implies row_before(row, #[trigger] rows[i]) by {
        lemma_key_order(row.namespace, row.id, rows[i].namespace, rows[i].id);
        assert(!at(rows[i], row.namespace, row.id));
    }
    let after = insert_row(rows, row);
    assert forall|i: int, j: int| 0 <= i < j < after.len() implies row_before(
        after[i],
        after[j],
    ) by {
        let a = if i < k { i } else { i - 1 };
        let b = if j < k { j } else { j - 1 };
        if i != k && j != k {
            assert(row_before(rows[a], rows[b]));
        }
    }
}

/// In sorted rows those before `row` come first.
proof fn lemma_rank_splits(rows: Seq<RowView>, row: RowView)
    requires
        sorted(rows),
    ensures
        0 <= rank(rows, row) <= rows.len(),
        forall|i: int| 0 <= i < rank(rows, row) ==> row_before(#[trigger] rows[i], row),
        forall|i: int| rank(rows, row) <= i < rows.len() ==> !row_before(#[trigger] rows[i], row),
    decreases rows.len(),
{
    if rows.len() > 0 {
        let rest = rows.drop_last();
        assert(sorted(rest)) by {
            assert forall|i: int, j: int| 0 <= i < j < rest.len() implies row_before(
                rest[i],
                rest[j],
            ) by {
                assert(row_before(rows[i], rows[j]));
            }
        }
        lemma_rank_splits(rest, row);
        if row_before(rows.last(), row) {
            assert forall|i: int| 0 <= i < rows.len() implies row_before(
                #[trigger] rows[i],
                row,
            ) by {
                if i < rows.len() - 1 {
                    let last = rows.last();
                    assert(row_before(rows[i], rows[rows.len() - 1]));
                    lemma_key_transitive(
                        rows[i].namespace,
                        rows[i].id,
                        last.namespace,
                        last.id,
                        row.namespace,
                        row.id,
                    );
                }
            }
            if rank(rest, row) < rest.len() {
                assert(row_before(rows[rest.len() - 1], row));
                assert(!row_before(rest[rest.len() - 1], row));
            }
        } else {
            assert forall|i: int| rank(rest, row) <= i < rows.len() implies !row_before(
                #[trigger] rows[i],
                row,
            ) by {
                if i < rest.len() {
                    assert(rest[i] == rows[i]);
                }
            }
            assert forall|i: int| 0 <= i < rank(rest, row) implies row_before(
                #[trigger] rows[i],
                row,
            ) by {
                assert(rest[i] == rows[i]);
            }
        }
    }
}

/// Replacing the row at one position is replacing the row of that key.
pub proof fn lemma_replace_at(rows: Seq<RowView>, i: int, row: RowView)
    requires
        sorted(rows),
        0 <= i < rows.len(),
        at(rows[i], row.namespace, row.id),
    ensures
        replace_row(rows, row) == rows.update(i, row),
        sorted(replace_row(rows, row)),
{
    lemma_lookup(rows, i);
    assert(replace_row(rows, row) =~= rows.update(i, row));
    let after = rows.update(i, row);
    assert forall|a: int, b: int| 0 <= a < b < after.len() implies row_before(
        after[a],
        after[b],
    ) by {
        assert(row_before(rows[a], rows[b]));
    }
}

/// Adding a memory keeps the invariant, where its key and its identity are new.
pub proof fn lemma_insert_valid(state: StoreView, row: RowView)
    requires
        valid_state(state),
        valid_row(row),
        state.next_ids.dom().contains(row.namespace),
        !holds(state.rows, row.namespace, row.id),
        !identity_taken(state.rows, row.namespace, row.identity, None),
    ensures
        valid_state(StoreView { rows: insert_row(state.rows, row), ..state }),
{
    let rows = state.rows;
    lemma_insert_sorted(rows, row);
    let k = rank(rows, row);
    let after = insert_row(rows, row);
    assert forall|i: int, j: int| 0 <= i < j < after.len() implies identities_differ(
        after[i],
        after[j],
    ) by {
        let a = if i < k { i } else { i - 1 };
        let b = if j < k { j } else { j - 1 };
        if i != k && j != k {
            assert(identities_differ(rows[a], rows[b]));
        } else if i == k {
            assert(after[j] == rows[b]);
        } else {
            assert(after[i] == rows[a]);
        }
    }
    assert forall|i: int| 0 <= i < after.len() implies valid_row(#[trigger] after[i])
        && state.next_ids.dom().contains(after[i].namespace) by {
        if i != k {
            let a = if i < k { i } else { i - 1 };
            assert(after[i] == rows[a]);
        }
    }
}

/// Replacing a memory keeps the invariant, where no other memory has its identity.
pub proof fn lemma_replace_valid(state: StoreView, row: RowView)
    requires
        valid_state(state),
        valid_row(row),
        holds(state.rows, row.namespace, row.id),
        !identity_taken(state.rows, row.namespace, row.identity, Some(row.id)),
    ensures
        valid_state(StoreView { rows: replace_row(state.rows, row), ..state }),
{
    let rows = state.rows;
    let k = lemma_lookup_index(rows, row.namespace, row.id);
    lemma_replace_at(rows, k, row);
    lemma_lookup(rows, k);
    let after = replace_row(rows, row);
    assert forall|i: int, j: int| 0 <= i < j < after.len() implies identities_differ(
        after[i],
        after[j],
    ) by {
        assert(identities_differ(rows[i], rows[j]));
        if i == k {
            assert(!at(rows[j], row.namespace, row.id));
            assert(after[j] == rows[j]);
        } else if j == k {
            assert(!at(rows[i], row.namespace, row.id));
            assert(after[i] == rows[i]);
        }
    }
}

/// Removing the row at one position is deleting the row of that key.
pub proof fn lemma_delete_at(rows: Seq<RowView>, i: int)
    requires
        sorted(rows),
        0 <= i < rows.len(),
    ensures
        delete_row(rows, rows[i].namespace, rows[i].id) == rows.remove(i),
{
    let namespace = rows[i].namespace;
    let id = rows[i].id;
    let pred = |row: RowView| !at(row, namespace, id);
    lemma_lookup(rows, i);
    lemma_filter_all(rows.take(i), pred);
    lemma_filter_all(rows.skip(i + 1), pred);
    assert(rows =~= rows.take(i).push(rows[i]) + rows.skip(i + 1));
    lemma_filter_add(rows.take(i).push(rows[i]), rows.skip(i + 1), pred);
    lemma_filter_push(rows.take(i), rows[i], pred);
    assert(rows.remove(i) =~= rows.take(i) + rows.skip(i + 1));
}

/// No identifier of `namespace` exceeds the largest.
pub proof fn lemma_max_id(rows: Seq<RowView>, namespace: Seq<char>)
    ensures
        max_id(rows, namespace) >= 0,
        forall|i: int|
            0 <= i < rows.len() && (#[trigger] rows[i]).namespace == namespace ==> rows[i].id
                <= max_id(rows, namespace),
    decreases rows.len(),
{
    if rows.len() > 0 {
        let rest = rows.drop_last();
        lemma_max_id(rest, namespace);
        assert forall|i: int|
            0 <= i < rows.len() && (#[trigger] rows[i]).namespace == namespace implies rows[i].id
            <= max_id(rows, namespace) by {
            if i < rest.len() {
                assert(rest[i] == rows[i]);
            }
        }
    }
}

/// A sum of measures that are not negative is at least each of them.
pub proof fn lemma_tally_at_least(rows: Seq<RowView>, measure: spec_fn(RowView) -> int, i: int)
    requires
        0 <= i < rows.len(),
        forall|row: RowView| #[trigger] measure(row) >= 0,
    ensures
        tally(rows, measure) >= measure(rows[i]),
    decreases rows.len(),
{
    lemma_tally_nonnegative(rows.drop_last(), measure);
    if i < rows.len() - 1 {
        lemma_tally_at_least(rows.drop_last(), measure, i);
    }
}

/// A sum of measures that are not negative is not negative.
pub proof fn lemma_tally_nonnegative(rows: Seq<RowView>, measure: spec_fn(RowView) -> int)
    requires
        forall|row: RowView| #[trigger] measure(row) >= 0,
    ensures
        tally(rows, measure) >= 0,
    decreases rows.len(),
{
    if rows.len() > 0 {
        lemma_tally_nonnegative(rows.drop_last(), measure);
    }
}

/// No other memory of its namespace has the identity of a row.
pub proof fn lemma_identity_free(rows: Seq<RowView>, i: int)
    requires
        identities_distinct(rows),
        0 <= i < rows.len(),
    ensures
        !identity_taken(rows, rows[i].namespace, rows[i].identity, Some(rows[i].id)),
{
    assert forall|j: int|
        0 <= j < rows.len() && (#[trigger] rows[j]).namespace == rows[i].namespace
            && rows[j].identity == rows[i].identity implies j == i by {
        if j < i {
            assert(identities_differ(rows[j], rows[i]));
        } else if i < j {
            assert(identities_differ(rows[i], rows[j]));
        }
    }
}

/// Filtering keeps a sequence whose elements all satisfy the predicate.
pub proof fn lemma_filter_all<A>(s: Seq<A>, pred: spec_fn(A) -> bool)
    requires
        forall|i: int| 0 <= i < s.len() ==> pred(#[trigger] s[i]),
    ensures
        s.filter(pred) == s,
    decreases s.len(),
{
    reveal(Seq::filter);
    if s.len() > 0 {
        lemma_filter_all(s.drop_last(), pred);
        assert(s.drop_last().push(s.last()) =~= s);
    } else {
        assert(s.filter(pred) =~= s);
    }
}

/// Filtering a concatenation filters the two parts.
pub proof fn lemma_filter_add<A>(a: Seq<A>, b: Seq<A>, pred: spec_fn(A) -> bool)
    ensures
        (a + b).filter(pred) == a.filter(pred) + b.filter(pred),
    decreases b.len(),
{
    reveal(Seq::filter);
    if b.len() == 0 {
        assert(a + b =~= a);
        assert(a.filter(pred) + b.filter(pred) =~= a.filter(pred));
    } else {
        assert((a + b).drop_last() =~= a + b.drop_last());
        lemma_filter_add(a, b.drop_last(), pred);
        assert((a.filter(pred) + b.drop_last().filter(pred)).push(b.last()) =~= a.filter(pred)
            + b.drop_last().filter(pred).push(b.last()));
    }
}

/// Filtering a sequence with one more element at its end.
pub proof fn lemma_filter_push<A>(s: Seq<A>, x: A, pred: spec_fn(A) -> bool)
    ensures
        s.push(x).filter(pred) == if pred(x) {
            s.filter(pred).push(x)
        } else {
            s.filter(pred)
        },
{
    reveal(Seq::filter);
    assert(s.push(x).drop_last() =~= s);
}

/// Two tables in which every lookup gives the same are the same table.
pub proof fn lemma_sorted_unique(a: Seq<RowView>, b: Seq<RowView>)
    requires
        sorted(a),
        sorted(b),
        forall|namespace: Seq<char>, id: int| #[trigger]
            lookup(a, namespace, id) == lookup(b, namespace, id),
    ensures
        a == b,
    decreases a.len(),
{
    if a.len() == 0 {
        if b.len() > 0 {
            lemma_lookup(b, 0);
            assert(lookup(a, b[0].namespace, b[0].id) == lookup(b, b[0].namespace, b[0].id));
        }
        assert(a =~= b);
    } else {
        let x = a.last();
        lemma_lookup(a, a.len() - 1);
        assert(lookup(a, x.namespace, x.id) == lookup(b, x.namespace, x.id));
        let j = lemma_lookup_index(b, x.namespace, x.id);
        let y = b.last();
        lemma_lookup(b, b.len() - 1);
        assert(lookup(a, y.namespace, y.id) == lookup(b, y.namespace, y.id));
        let i = lemma_lookup_index(a, y.namespace, y.id);
        lemma_key_order(x.namespace, x.id, y.namespace, y.id);
        if j < b.len() - 1 {
            assert(row_before(b[j], b[b.len() - 1]));
            if i < a.len() - 1 {
                assert(row_before(a[i], a[a.len() - 1]));
            }
            lemma_key_order(x.namespace, x.id, x.namespace, x.id);
        }
        assert(x == y);
        let a_rest = a.drop_last();
        let b_rest = b.drop_last();
        assert(sorted(a_rest)) by {
            assert forall|m: int, n: int| 0 <= m < n < a_rest.len() implies row_before(
                a_rest[m],
                a_rest[n],
            ) by {
                assert(row_before(a[m], a[n]));
            }
        }
        assert(sorted(b_rest)) by {
            assert forall|m: int, n: int| 0 <= m < n < b_rest.len() implies row_before(
                b_rest[m],
                b_rest[n],
            ) by {
                assert(row_before(b[m], b[n]));
            }
        }
        assert forall|namespace: Seq<char>, id: int| #[trigger]
            lookup(a_rest, namespace, id) == lookup(b_rest, namespace, id) by {
            lemma_drop_last_lookup(a, namespace, id);
            lemma_drop_last_lookup(b, namespace, id);
            assert(lookup(a, namespace, id) == lookup(b, namespace, id));
        }
        lemma_sorted_unique(a_rest, b_rest);
        assert(a =~= a_rest.push(x));
        assert(b =~= b_rest.push(y));
    }
}

/// A lookup without the last row finds every memory but the last.
proof fn lemma_drop_last_lookup(rows: Seq<RowView>, namespace: Seq<char>, id: int)
    requires
        sorted(rows),
        rows.len() > 0,
        sorted(rows.drop_last()),
    ensures
        lookup(rows.drop_last(), namespace, id) == if at(rows.last(), namespace, id) {
            None
        } else {
            lookup(rows, namespace, id)
        },
{
    let rest = rows.drop_last();
    if holds(rest, namespace, id) {
        let i = lemma_lookup_index(rest, namespace, id);
        assert(rows[i] == rest[i]);
        lemma_lookup(rows, i);
        if at(rows.last(), namespace, id) {
            assert(at(rows[rows.len() - 1], namespace, id));
        }
    }
    if holds(rows, namespace, id) && !at(rows.last(), namespace, id) {
        let i = lemma_lookup_index(rows, namespace, id);
        assert(rest[i] == rows[i]);
        lemma_lookup(rest, i);
    }
}

} // verus!
