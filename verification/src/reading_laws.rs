//! Laws of single reads, scans and lists: what they show, in which order, and what they mark.

use vstd::prelude::*;

use crate::laws::law_pruning;
use crate::mutation_laws::lemma_unexpired_members;
use crate::protocol::{KeyView, MemoryLimits, RecordView};
use crate::queries::{
    key_references, listed, read_outcome, read_record, read_records, referenced, references,
    scan_recorded, used_rows, wanted, wanted_by, ReferenceView,
};
use crate::rows::{
    lemma_lookup, lemma_lookup_index, lookup, unexpired, valid_state, RowView, StoreView,
};
use crate::terms::{shows, visible};

verus! {

/// Whether `key` is of the memory `id` of `namespace`, at any version.
pub open spec fn names_memory(key: KeyView, namespace: Seq<char>, id: int) -> bool {
    key.namespace == Some(namespace) && key.id == id
}

/// Whether a read mentions the memory `id` of `namespace` first at `position`, where the keys come
/// first and the identifiers, which are of the reader's own namespace, follow.
pub open spec fn mentioned_at(
    reader: Seq<char>,
    ids: Seq<i64>,
    keys: Seq<KeyView>,
    namespace: Seq<char>,
    id: int,
    position: int,
) -> bool {
    &&& 0 <= position < keys.len() + ids.len()
    &&& position < keys.len() ==> names_memory(keys[position], namespace, id)
    &&& position >= keys.len() ==> namespace == reader && ids[position - keys.len()] == id
    &&& forall|p: int|
        0 <= p < position && p < keys.len() ==> !names_memory(#[trigger] keys[p], namespace, id)
    &&& namespace == reader ==> forall|p: int|
        0 <= p < position - keys.len() ==> #[trigger] ids[p] != id
}

/// Whether a read mentions the memory of one record before that of another.
pub open spec fn mentioned_before(
    reader: Seq<char>,
    ids: Seq<i64>,
    keys: Seq<KeyView>,
    first: RecordView,
    second: RecordView,
) -> bool {
    exists|p: int, q: int|
        p < q && #[trigger] mentioned_at(
            reader,
            ids,
            keys,
            first.key.namespace->0,
            first.key.id,
            p,
        ) && #[trigger] mentioned_at(
            reader,
            ids,
            keys,
            second.key.namespace->0,
            second.key.id,
            q,
        )
}

/// Whether a read that mentions a memory at `position` takes it at `version`: a key asks for one
/// version, an identifier for any.
pub open spec fn takes_version(keys: Seq<KeyView>, position: int, version: int) -> bool {
    position < keys.len() ==> keys[position].version == version
}

/// Whether a read asks for `row`: at its first mention, at its version.
pub open spec fn asks_for(
    reader: Seq<char>,
    ids: Seq<i64>,
    keys: Seq<KeyView>,
    row: RowView,
) -> bool {
    exists|position: int| #[trigger]
        mentioned_at(reader, ids, keys, row.namespace, row.id, position) && takes_version(
            keys,
            position,
            row.version,
        )
}

/// Whether `reference` is what a read makes of its mention at `position`.
spec fn refers(
    reader: Seq<char>,
    ids: Seq<i64>,
    keys: Seq<KeyView>,
    reference: ReferenceView,
    position: int,
) -> bool {
    &&& mentioned_at(reader, ids, keys, reference.namespace, reference.id, position)
    &&& reference.version == if position < keys.len() {
        Some(keys[position].version)
    } else {
        None
    }
}

/// Whether `positions` are where `list` refers to, in order, and cover every mention.
spec fn positioned(
    reader: Seq<char>,
    ids: Seq<i64>,
    keys: Seq<KeyView>,
    list: Seq<ReferenceView>,
    positions: Seq<int>,
) -> bool {
    &&& positions.len() == list.len()
    &&& forall|k: int|
        0 <= k < list.len() ==> refers(reader, ids, keys, #[trigger] list[k], positions[k])
    &&& forall|j: int, k: int|
        0 <= j < k < positions.len() ==> #[trigger] positions[j] < #[trigger] positions[k]
    &&& forall|namespace: Seq<char>, id: int, position: int| #[trigger]
        mentioned_at(reader, ids, keys, namespace, id, position) ==> referenced(list, namespace, id)
}

/// A mention stays where it is when more is asked for.
proof fn lemma_more_keys(
    reader: Seq<char>,
    keys: Seq<KeyView>,
    key: KeyView,
    namespace: Seq<char>,
    id: int,
    position: int,
)
    requires
        position < keys.len(),
    ensures
        mentioned_at(reader, Seq::empty(), keys, namespace, id, position) <==> mentioned_at(
            reader,
            Seq::empty(),
            keys.push(key),
            namespace,
            id,
            position,
        ),
{
    let more = keys.push(key);
    let none = Seq::<i64>::empty();
    if 0 <= position {
        assert(more[position] == keys[position]);
        assert forall|p: int| 0 <= p < position implies #[trigger] more[p] == keys[p] by {}
        if mentioned_at(reader, none, keys, namespace, id, position) {
            assert forall|p: int| 0 <= p < position && p < more.len() implies !names_memory(
                #[trigger] more[p],
                namespace,
                id,
            ) by {
                assert(more[p] == keys[p]);
            }
        }
        if mentioned_at(reader, none, more, namespace, id, position) {
            assert forall|p: int| 0 <= p < position && p < keys.len() implies !names_memory(
                #[trigger] keys[p],
                namespace,
                id,
            ) by {
                assert(more[p] == keys[p]);
            }
        }
    }
}

/// Where the references of the keys stand.
proof fn lemma_key_positions(reader: Seq<char>, keys: Seq<KeyView>) -> (positions: Seq<int>)
    ensures
        positioned(reader, Seq::empty(), keys, key_references(keys), positions),
    decreases keys.len(),
{
    let none = Seq::<i64>::empty();
    if keys.len() == 0 {
        Seq::empty()
    } else {
        let earlier = keys.drop_last();
        let key = keys.last();
        let last = earlier.len() as int;
        assert(keys =~= earlier.push(key));
        let before = lemma_key_positions(reader, earlier);
        let list = key_references(earlier);
        assert forall|k: int| 0 <= k < list.len() implies refers(
            reader,
            none,
            keys,
            #[trigger] list[k],
            before[k],
        ) by {
            assert(refers(reader, none, earlier, list[k], before[k]));
            lemma_more_keys(reader, earlier, key, list[k].namespace, list[k].id, before[k]);
            assert(keys[before[k]] == earlier[before[k]]);
        }
        // A mention is an earlier one, or the last key is the first to name the memory.
        assert forall|namespace: Seq<char>, id: int, position: int| #[trigger]
            mentioned_at(reader, none, keys, namespace, id, position) implies referenced(
            list,
            namespace,
            id,
        ) || (position == last && names_memory(key, namespace, id)) by {
            if position < last {
                lemma_more_keys(reader, earlier, key, namespace, id, position);
                assert(mentioned_at(reader, none, earlier, namespace, id, position));
            }
        }
        let fresh = key.namespace is Some && !referenced(list, key.namespace->0, key.id);
        if fresh {
            let namespace = key.namespace->0;
            let reference = ReferenceView { namespace, id: key.id, version: Some(key.version) };
            let positions = before.push(last);
            let all = list.push(reference);
            assert(key_references(keys) == all);
            assert(mentioned_at(reader, none, keys, namespace, key.id, last)) by {
                assert forall|p: int| 0 <= p < last && p < keys.len() implies !names_memory(
                    #[trigger] keys[p],
                    namespace,
                    key.id,
                ) by {
                    if names_memory(keys[p], namespace, key.id) {
                        let q = lemma_first_key(earlier, namespace, key.id, p);
                        assert(mentioned_at(reader, none, earlier, namespace, key.id, q));
                    }
                }
            }
            assert forall|k: int| 0 <= k < all.len() implies refers(
                reader,
                none,
                keys,
                #[trigger] all[k],
                positions[k],
            ) by {
                if k < list.len() {
                    assert(all[k] == list[k]);
                }
            }
            assert forall|j: int, k: int| 0 <= j < k < positions.len() implies #[trigger]
                positions[j] < #[trigger] positions[k] by {
                assert(refers(reader, none, earlier, list[j], before[j]));
                if k < before.len() {
                    assert(before[j] < before[k]);
                }
            }
            assert forall|n: Seq<char>, id: int, position: int| #[trigger]
                mentioned_at(reader, none, keys, n, id, position) implies referenced(
                all,
                n,
                id,
            ) by {
                if referenced(list, n, id) {
                    let k = choose|k: int|
                        0 <= k < list.len() && (#[trigger] list[k]).namespace == n && list[k].id
                            == id;
                    assert(all[k] == list[k]);
                } else {
                    assert(all[list.len() as int] == reference);
                }
            }
            positions
        } else {
            assert(key_references(keys) == list);
            before
        }
    }
}

/// A memory that a key names is named first by one of the keys up to it.
proof fn lemma_first_key(keys: Seq<KeyView>, namespace: Seq<char>, id: int, p: int) -> (q: int)
    requires
        0 <= p < keys.len(),
        names_memory(keys[p], namespace, id),
    ensures
        0 <= q <= p,
        names_memory(keys[q], namespace, id),
        forall|r: int| 0 <= r < q ==> !names_memory(#[trigger] keys[r], namespace, id),
    decreases p,
{
    if exists|r: int| 0 <= r < p && names_memory(#[trigger] keys[r], namespace, id) {
        let r = choose|r: int| 0 <= r < p && names_memory(#[trigger] keys[r], namespace, id);
        lemma_first_key(keys, namespace, id, r)
    } else {
        p
    }
}

/// An identifier that occurs occurs first at one of the places up to it.
proof fn lemma_first_id(ids: Seq<i64>, id: int, p: int) -> (q: int)
    requires
        0 <= p < ids.len(),
        ids[p] == id,
    ensures
        0 <= q <= p,
        ids[q] == id,
        forall|r: int| 0 <= r < q ==> #[trigger] ids[r] != id,
    decreases p,
{
    if exists|r: int| 0 <= r < p && #[trigger] ids[r] == id {
        let r = choose|r: int| 0 <= r < p && #[trigger] ids[r] == id;
        lemma_first_id(ids, id, r)
    } else {
        p
    }
}

/// A mention stays where it is when one more identifier is asked for.
proof fn lemma_more_ids(
    reader: Seq<char>,
    ids: Seq<i64>,
    more_id: i64,
    keys: Seq<KeyView>,
    namespace: Seq<char>,
    id: int,
    position: int,
)
    requires
        position < keys.len() + ids.len(),
    ensures
        mentioned_at(reader, ids, keys, namespace, id, position) <==> mentioned_at(
            reader,
            ids.push(more_id),
            keys,
            namespace,
            id,
            position,
        ),
{
    let more = ids.push(more_id);
    if position >= keys.len() {
        assert(more[position - keys.len()] == ids[position - keys.len()]);
    }
    if mentioned_at(reader, ids, keys, namespace, id, position) && namespace == reader {
        assert forall|p: int| 0 <= p < position - keys.len() implies #[trigger] more[p] != id by {
            assert(more[p] == ids[p]);
        }
    }
    if mentioned_at(reader, more, keys, namespace, id, position) && namespace == reader {
        assert forall|p: int| 0 <= p < position - keys.len() implies #[trigger] ids[p] != id by {
            assert(more[p] == ids[p]);
        }
    }
}

/// Where the references of a read stand.
proof fn lemma_positions(reader: Seq<char>, ids: Seq<i64>, keys: Seq<KeyView>) -> (positions: Seq<
    int,
>)
    ensures
        positioned(reader, ids, keys, references(reader, ids, keys), positions),
    decreases ids.len(),
{
    if ids.len() == 0 {
        assert(ids =~= Seq::empty());
        lemma_key_positions(reader, keys)
    } else {
        let earlier = ids.drop_last();
        let id = ids.last();
        let last = (keys.len() + earlier.len()) as int;
        assert(ids =~= earlier.push(id));
        let before = lemma_positions(reader, earlier, keys);
        let list = references(reader, earlier, keys);
        assert forall|k: int| 0 <= k < list.len() implies refers(
            reader,
            ids,
            keys,
            #[trigger] list[k],
            before[k],
        ) by {
            assert(refers(reader, earlier, keys, list[k], before[k]));
            lemma_more_ids(reader, earlier, id, keys, list[k].namespace, list[k].id, before[k]);
        }
        assert forall|n: Seq<char>, i: int, position: int| #[trigger]
            mentioned_at(reader, ids, keys, n, i, position) implies referenced(list, n, i) || (
        position == last && n == reader && i == id) by {
            if position < last {
                lemma_more_ids(reader, earlier, id, keys, n, i, position);
                assert(mentioned_at(reader, earlier, keys, n, i, position));
            } else {
                assert(ids[position - keys.len()] == id);
            }
        }
        if !referenced(list, reader, id as int) {
            let reference = ReferenceView { namespace: reader, id: id as int, version: None };
            let positions = before.push(last);
            let all = list.push(reference);
            assert(references(reader, ids, keys) == all);
            assert(mentioned_at(reader, ids, keys, reader, id as int, last)) by {
                assert(ids[last - keys.len()] == id);
                assert forall|p: int| 0 <= p < last && p < keys.len() implies !names_memory(
                    #[trigger] keys[p],
                    reader,
                    id as int,
                ) by {
                    if names_memory(keys[p], reader, id as int) {
                        let q = lemma_first_key(keys, reader, id as int, p);
                        assert(mentioned_at(reader, earlier, keys, reader, id as int, q));
                    }
                }
                assert forall|p: int| 0 <= p < last - keys.len() implies #[trigger] ids[p]
                    != id as int by {
                    if ids[p] == id {
                        assert(earlier[p] == id);
                        let q = lemma_first_id(earlier, id as int, p);
                        assert(mentioned_at(
                            reader,
                            earlier,
                            keys,
                            reader,
                            id as int,
                            q + keys.len(),
                        ));
                    }
                }
            }
            assert forall|k: int| 0 <= k < all.len() implies refers(
                reader,
                ids,
                keys,
                #[trigger] all[k],
                positions[k],
            ) by {
                if k < list.len() {
                    assert(all[k] == list[k]);
                }
            }
            assert forall|j: int, k: int| 0 <= j < k < positions.len() implies #[trigger]
                positions[j] < #[trigger] positions[k] by {
                assert(refers(reader, earlier, keys, list[j], before[j]));
                if k < before.len() {
                    assert(before[j] < before[k]);
                }
            }
            assert forall|n: Seq<char>, i: int, position: int| #[trigger]
                mentioned_at(reader, ids, keys, n, i, position) implies referenced(all, n, i) by {
                if referenced(list, n, i) {
                    let k = choose|k: int|
                        0 <= k < list.len() && (#[trigger] list[k]).namespace == n && list[k].id
                            == i;
                    assert(all[k] == list[k]);
                } else {
                    assert(all[list.len() as int] == reference);
                }
            }
            positions
        } else {
            assert(references(reader, ids, keys) == list);
            before
        }
    }
}

/// A memory is mentioned first at one place only.
proof fn lemma_one_mention(
    reader: Seq<char>,
    ids: Seq<i64>,
    keys: Seq<KeyView>,
    namespace: Seq<char>,
    id: int,
    p: int,
    q: int,
)
    requires
        mentioned_at(reader, ids, keys, namespace, id, p),
        mentioned_at(reader, ids, keys, namespace, id, q),
    ensures
        p == q,
{
    let first = if p < q { p } else { q };
    if first < keys.len() {
        assert(names_memory(keys[first], namespace, id));
    } else {
        assert(ids[first - keys.len()] == id);
    }
}

/// Whether `chosen` are, in order, the references of which `records` are the records, all of them.
spec fn resolves(
    rows: Seq<RowView>,
    list: Seq<ReferenceView>,
    now: int,
    records: Seq<RecordView>,
    chosen: Seq<int>,
) -> bool {
    &&& chosen.len() == records.len()
    &&& forall|j: int, k: int|
        0 <= j < k < chosen.len() ==> #[trigger] chosen[j] < #[trigger] chosen[k]
    &&& forall|k: int|
        0 <= k < chosen.len() ==> 0 <= #[trigger] chosen[k] < list.len() && (lookup(
            rows,
            list[chosen[k]].namespace,
            list[chosen[k]].id,
        ) matches Some(row) && wanted(row, list[chosen[k]]) && records[k] == read_record(row, now))
    &&& forall|r: int|
        0 <= r < list.len() && (lookup(rows, (#[trigger] list[r]).namespace, list[r].id)
            matches Some(row) && wanted(row, list[r])) ==> chosen.contains(r)
}

/// Which references a read resolves.
proof fn lemma_resolves(rows: Seq<RowView>, list: Seq<ReferenceView>, now: int) -> (chosen: Seq<
    int,
>)
    ensures
        resolves(rows, list, now, read_records(rows, list, now), chosen),
    decreases list.len(),
{
    if list.len() == 0 {
        Seq::empty()
    } else {
        let earlier = list.drop_last();
        let reference = list.last();
        let last = earlier.len() as int;
        let before = lemma_resolves(rows, earlier, now);
        let records = read_records(rows, earlier, now);
        assert forall|r: int| 0 <= r < last implies #[trigger] earlier[r] == list[r] by {}
        let hit = lookup(rows, reference.namespace, reference.id) matches Some(row) && wanted(
            row,
            reference,
        );
        if hit {
            let chosen = before.push(last);
            let all = read_records(rows, list, now);
            assert forall|j: int, k: int| 0 <= j < k < chosen.len() implies #[trigger] chosen[j]
                < #[trigger] chosen[k] by {
                if k < before.len() {
                    assert(before[j] < before[k]);
                } else {
                    assert(before[j] < last);
                }
            }
            assert forall|k: int| 0 <= k < chosen.len() implies 0 <= #[trigger] chosen[k]
                < list.len() && (lookup(rows, list[chosen[k]].namespace, list[chosen[k]].id)
                matches Some(row) && wanted(row, list[chosen[k]]) && all[k] == read_record(
                row,
                now,
            )) by {
                if k < before.len() {
                    assert(chosen[k] == before[k]);
                    assert(earlier[before[k]] == list[chosen[k]]);
                    assert(all[k] == records[k]);
                }
            }
            assert forall|r: int|
                0 <= r < list.len() && (lookup(rows, (#[trigger] list[r]).namespace, list[r].id)
                    matches Some(row) && wanted(row, list[r])) implies chosen.contains(r) by {
                if r < last {
                    assert(earlier[r] == list[r]);
                    let k = choose|k: int| 0 <= k < before.len() && before[k] == r;
                    assert(chosen[k] == r);
                } else {
                    assert(chosen[before.len() as int] == r);
                }
            }
            chosen
        } else {
            assert forall|k: int| 0 <= k < before.len() implies 0 <= #[trigger] before[k]
                < list.len() && (lookup(rows, list[before[k]].namespace, list[before[k]].id)
                matches Some(row) && wanted(row, list[before[k]]) && records[k] == read_record(
                row,
                now,
            )) by {
                assert(earlier[before[k]] == list[before[k]]);
            }
            assert forall|r: int|
                0 <= r < list.len() && (lookup(rows, (#[trigger] list[r]).namespace, list[r].id)
                    matches Some(row) && wanted(row, list[r])) implies before.contains(r) by {
                assert(r < last);
                assert(earlier[r] == list[r]);
            }
            before
        }
    }
}

/// The reference to a memory that a read asks for resolves to it.
proof fn lemma_asked(
    reader: Seq<char>,
    ids: Seq<i64>,
    keys: Seq<KeyView>,
    positions: Seq<int>,
    row: RowView,
)
    requires
        positioned(reader, ids, keys, references(reader, ids, keys), positions),
    ensures
        wanted_by(row, references(reader, ids, keys)) <==> asks_for(reader, ids, keys, row),
{
    let list = references(reader, ids, keys);
    if wanted_by(row, list) {
        let k = choose|k: int| 0 <= k < list.len() && wanted(row, #[trigger] list[k]);
        assert(refers(reader, ids, keys, list[k], positions[k]));
        assert(mentioned_at(reader, ids, keys, row.namespace, row.id, positions[k]));
    }
    if asks_for(reader, ids, keys, row) {
        let p = choose|p: int| #[trigger]
            mentioned_at(reader, ids, keys, row.namespace, row.id, p) && takes_version(
                keys,
                p,
                row.version,
            );
        assert(referenced(list, row.namespace, row.id));
        let k = choose|k: int|
            0 <= k < list.len() && (#[trigger] list[k]).namespace == row.namespace && list[k].id
                == row.id;
        assert(refers(reader, ids, keys, list[k], positions[k]));
        lemma_one_mention(reader, ids, keys, row.namespace, row.id, p, positions[k]);
        assert(wanted(row, list[k]));
    }
}

/// Whether `record` is what a read at `now` shows of `row`: the memory, used once more, at this
/// time, and off probation.
pub open spec fn shows_read(record: RecordView, row: RowView, now: int) -> bool {
    shows(
        record,
        RowView {
            last_used_at_ms: Some(now),
            use_count: row.use_count + 1,
            probation_until_ms: None,
            ..row
        },
    )
}

/// Whether `record` is what a read shows of a memory that it asks for and that can be seen.
pub open spec fn rightly_shown(
    state: StoreView,
    reader: Seq<char>,
    ids: Seq<i64>,
    keys: Seq<KeyView>,
    now: int,
    record: RecordView,
) -> bool {
    exists|i: int|
        0 <= i < state.rows.len() && visible(state.rows[i], now) && asks_for(
            reader,
            ids,
            keys,
            state.rows[i],
        ) && #[trigger] shows_read(record, state.rows[i], now)
}

/// A read of any keys and identifiers shows each memory that it asks for and that can be seen,
/// once, and nothing else; in the order in which the request first mentions them.
pub proof fn law_read_shows(
    state: StoreView,
    reader: Seq<char>,
    ids: Seq<i64>,
    keys: Seq<KeyView>,
    now: int,
)
    requires
        valid_state(state),
    ensures
        ({
            let records = read_outcome(state, reader, ids, keys, now).1;
            forall|i: int|
                0 <= i < state.rows.len() && visible(#[trigger] state.rows[i], now) && asks_for(
                    reader,
                    ids,
                    keys,
                    state.rows[i],
                ) ==> exists|k: int|
                    0 <= k < records.len() && shows_read(
                        #[trigger] records[k],
                        state.rows[i],
                        now,
                    )
        }),
        ({
            let records = read_outcome(state, reader, ids, keys, now).1;
            forall|k: int|
                0 <= k < records.len() ==> rightly_shown(
                    state,
                    reader,
                    ids,
                    keys,
                    now,
                    #[trigger] records[k],
                )
        }),
        ({
            let records = read_outcome(state, reader, ids, keys, now).1;
            forall|j: int, k: int|
                0 <= j < k < records.len() ==> mentioned_before(
                    reader,
                    ids,
                    keys,
                    records[j],
                    records[k],
                )
        }),
{
    let list = references(reader, ids, keys);
    let positions = lemma_positions(reader, ids, keys);
    let kept = unexpired(state.rows, now);
    law_pruning(state, now, reader, 0);
    lemma_unexpired_members(state.rows, now);
    let records = read_outcome(state, reader, ids, keys, now).1;
    let chosen = lemma_resolves(kept, list, now);
    if list.len() == 0 {
        assert(records =~= read_records(kept, list, now));
    }
    assert forall|i: int|
        0 <= i < state.rows.len() && visible(#[trigger] state.rows[i], now) && asks_for(
            reader,
            ids,
            keys,
            state.rows[i],
        ) implies exists|k: int|
        0 <= k < records.len() && shows_read(#[trigger] records[k], state.rows[i], now) by {
        let row = state.rows[i];
        lemma_asked(reader, ids, keys, positions, row);
        let r = choose|r: int| 0 <= r < list.len() && wanted(row, #[trigger] list[r]);
        assert(state.rows.contains(row));
        assert(kept.contains(row));
        let m = choose|m: int| 0 <= m < kept.len() && kept[m] == row;
        lemma_lookup(kept, m);
        assert(lookup(kept, list[r].namespace, list[r].id) == Some(row));
        assert(chosen.contains(r));
        let k = choose|k: int| 0 <= k < chosen.len() && chosen[k] == r;
        assert(chosen[k] == r);
        assert(shows_read(records[k], row, now));
    }
    assert forall|k: int| 0 <= k < records.len() implies rightly_shown(
        state,
        reader,
        ids,
        keys,
        now,
        #[trigger] records[k],
    ) by {
        let r = chosen[k];
        let row = lookup(kept, list[r].namespace, list[r].id)->0;
        let m = lemma_lookup_index(kept, list[r].namespace, list[r].id);
        assert(kept.contains(kept[m]));
        let i = choose|i: int| 0 <= i < state.rows.len() && state.rows[i] == row;
        assert(wanted(row, list[r]));
        lemma_asked(reader, ids, keys, positions, row);
        assert(visible(state.rows[i], now));
        assert(shows_read(records[k], state.rows[i], now));
    }
    assert forall|j: int, k: int| 0 <= j < k < records.len() implies mentioned_before(
        reader,
        ids,
        keys,
        records[j],
        records[k],
    ) by {
        let r = chosen[j];
        let t = chosen[k];
        assert(r < t);
        assert(refers(reader, ids, keys, list[r], positions[r]));
        assert(refers(reader, ids, keys, list[t], positions[t]));
        let a = lemma_lookup_index(kept, list[r].namespace, list[r].id);
        let b = lemma_lookup_index(kept, list[t].namespace, list[t].id);
        assert(positions[r] < positions[t]);
        assert(mentioned_at(
            reader,
            ids,
            keys,
            records[j].key.namespace->0,
            records[j].key.id,
            positions[r],
        ));
        assert(mentioned_at(
            reader,
            ids,
            keys,
            records[k].key.namespace->0,
            records[k].key.id,
            positions[t],
        ));
    }
}

/// A read that mentions a memory marks what it asks for as used now, once more as far as a signed
/// 64-bit number goes, and off probation; it removes what expired, and changes nothing else. A read
/// that mentions none changes nothing and shows nothing.
pub proof fn law_read_marks(
    state: StoreView,
    reader: Seq<char>,
    ids: Seq<i64>,
    keys: Seq<KeyView>,
    now: int,
    row: RowView,
)
    requires
        valid_state(state),
    ensures
        ids.len() == 0 && (forall|p: int|
            0 <= p < keys.len() ==> (#[trigger] keys[p]).namespace is None) ==> read_outcome(
            state,
            reader,
            ids,
            keys,
            now,
        ) == (state, Seq::<RecordView>::empty()),
        (ids.len() > 0 || exists|p: int|
            0 <= p < keys.len() && (#[trigger] keys[p]).namespace is Some) ==> (read_outcome(
            state,
            reader,
            ids,
            keys,
            now,
        ).0.rows.contains(row) <==> exists|i: int|
            0 <= i < state.rows.len() && visible(#[trigger] state.rows[i], now) && row == (
            if asks_for(reader, ids, keys, state.rows[i]) {
                RowView {
                    last_used_at_ms: Some(now),
                    use_count: if state.rows[i].use_count < i64::MAX {
                        state.rows[i].use_count + 1
                    } else {
                        i64::MAX as int
                    },
                    probation_until_ms: None,
                    ..state.rows[i]
                }
            } else {
                state.rows[i]
            })),
        read_outcome(state, reader, ids, keys, now).0.next_ids == state.next_ids,
{
    let list = references(reader, ids, keys);
    let positions = lemma_positions(reader, ids, keys);
    let kept = unexpired(state.rows, now);
    law_pruning(state, now, reader, 0);
    lemma_unexpired_members(state.rows, now);
    if ids.len() > 0 {
        if list.len() == 0 {
            let q = lemma_first_id(ids, ids[0] as int, 0);
            if exists|p: int|
                0 <= p < keys.len() && names_memory(#[trigger] keys[p], reader, ids[0] as int) {
                let p = choose|p: int|
                    0 <= p < keys.len() && names_memory(
                        #[trigger] keys[p],
                        reader,
                        ids[0] as int,
                    );
                let f = lemma_first_key(keys, reader, ids[0] as int, p);
                assert(mentioned_at(reader, ids, keys, reader, ids[0] as int, f));
            } else {
                assert(mentioned_at(reader, ids, keys, reader, ids[0] as int, q + keys.len()));
            }
            assert(referenced(list, reader, ids[0] as int));
        }
    } else if exists|p: int| 0 <= p < keys.len() && (#[trigger] keys[p]).namespace is Some {
        let p = choose|p: int| 0 <= p < keys.len() && (#[trigger] keys[p]).namespace is Some;
        let f = lemma_first_key(keys, keys[p].namespace->0, keys[p].id, p);
        assert(mentioned_at(reader, ids, keys, keys[p].namespace->0, keys[p].id, f));
        assert(referenced(list, keys[p].namespace->0, keys[p].id));
    } else {
        if list.len() > 0 {
            assert(refers(reader, ids, keys, list[0], positions[0]));
        }
    }
    if list.len() > 0 {
        let after = used_rows(kept, list, now);
        if after.contains(row) {
            let m = choose|m: int| 0 <= m < after.len() && after[m] == row;
            assert(kept.contains(kept[m]));
            let i = choose|i: int| 0 <= i < state.rows.len() && state.rows[i] == kept[m];
            lemma_asked(reader, ids, keys, positions, kept[m]);
            assert(visible(state.rows[i], now));
        }
        assert forall|i: int| 0 <= i < state.rows.len() && visible(#[trigger] state.rows[i], now)
            && row == (if asks_for(reader, ids, keys, state.rows[i]) {
            RowView {
                last_used_at_ms: Some(now),
                use_count: if state.rows[i].use_count < i64::MAX {
                    state.rows[i].use_count + 1
                } else {
                    i64::MAX as int
                },
                probation_until_ms: None,
                ..state.rows[i]
            }
        } else {
            state.rows[i]
        }) implies after.contains(row) by {
            assert(state.rows.contains(state.rows[i]));
            assert(kept.contains(state.rows[i]));
            let m = choose|m: int| 0 <= m < kept.len() && kept[m] == state.rows[i];
            lemma_asked(reader, ids, keys, positions, kept[m]);
            assert(after[m] == row);
        }
    }
}

/// A list shows the first memories that can be seen, each as it stands and in the order of the
/// keys: all of them, or as many as the limit where there are more.
pub proof fn law_list_shows(state: StoreView, limits: MemoryLimits, now: int)
    requires
        valid_state(state),
    ensures
        ({
            let records = listed(state, limits, now);
            let seen = state.rows.filter(|row: RowView| visible(row, now));
            &&& records.len() == if seen.len() <= limits.records {
                seen.len() as int
            } else {
                limits.records as int
            }
            &&& forall|k: int|
                0 <= k < records.len() ==> shows(#[trigger] records[k], seen[k])
        }),
{
    lemma_visible_filter(state.rows, now);
}

/// What pruning keeps are the memories that can be seen, in order.
pub proof fn lemma_visible_filter(rows: Seq<RowView>, now: int)
    ensures
        unexpired(rows, now) == rows.filter(|row: RowView| visible(row, now)),
    decreases rows.len(),
{
    reveal(Seq::filter);
    if rows.len() > 0 {
        lemma_visible_filter(rows.drop_last(), now);
    }
}

/// A recorded scan counts each memory as often as it was shown at its version, as far as a signed
/// 64-bit number goes, notes the time where it was shown at all, and changes nothing else.
pub proof fn law_scan_counts(rows: Seq<RowView>, shown: Seq<KeyView>, now: int)
    requires
        forall|i: int| 0 <= i < rows.len() ==> (#[trigger] rows[i]).scan_count <= i64::MAX,
    ensures
        scan_recorded(rows, shown, now).len() == rows.len(),
        forall|i: int| 0 <= i < rows.len() ==> {
            let times = shown.filter(
                |key: KeyView|
                    key.namespace == Some(rows[i].namespace) && key.id == rows[i].id && key.version
                        == rows[i].version,
            ).len();
            #[trigger] scan_recorded(rows, shown, now)[i] == (RowView {
                last_scanned_at_ms: if times > 0 {
                    Some(now)
                } else {
                    rows[i].last_scanned_at_ms
                },
                scan_count: if rows[i].scan_count + times <= i64::MAX {
                    rows[i].scan_count + times
                } else {
                    i64::MAX as int
                },
                ..rows[i]
            })
        },
    decreases shown.len(),
{
    reveal(Seq::filter);
    if shown.len() > 0 {
        law_scan_counts(rows, shown.drop_last(), now);
    }
}

} // verus!
