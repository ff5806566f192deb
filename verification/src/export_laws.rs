//! Laws of exporting page by page.

use vstd::prelude::*;

use crate::protocol::{CursorView, RecordView};
use crate::queries::{cursor_of, export_page, export_rows, exported, page_size};
use crate::rows::{
    lemma_filter_add, lemma_filter_all, lemma_filter_members, lemma_filter_pairwise,
    lemma_filter_push, lemma_key_order, lemma_key_transitive, records_of, row_before, sorted,
    RowView,
};
use crate::terms::{shows, visible};
use crate::text::text_before;

verus! {

/// An export gives the memories in the order of their keys, each once.
pub proof fn law_export_is_sorted(
    rows: Seq<RowView>,
    namespaces: Option<Seq<Seq<char>>>,
    cursor: Option<CursorView>,
    now: int,
)
    requires
        sorted(rows),
    ensures
        sorted(export_rows(rows, namespaces, cursor, now)),
{
    let keep = |row: RowView| exported(row, namespaces, cursor, now);
    let before = |left: RowView, right: RowView| row_before(left, right);
    lemma_filter_pairwise(rows, keep, before);
    let kept = rows.filter(keep);
    assert forall|i: int, j: int| 0 <= i < j < kept.len() implies row_before(kept[i], kept[j]) by {
        assert(before(kept[i], kept[j]));
    }
}

/// The export from one of its memories on gives exactly the memories that follow it.
proof fn lemma_export_after(
    rows: Seq<RowView>,
    namespaces: Option<Seq<Seq<char>>>,
    cursor: Option<CursorView>,
    now: int,
    n: int,
)
    requires
        sorted(rows),
        0 < n <= export_rows(rows, namespaces, cursor, now).len(),
    ensures
        export_rows(
            rows,
            namespaces,
            Some(cursor_of(export_rows(rows, namespaces, cursor, now)[n - 1])),
            now,
        ) == export_rows(rows, namespaces, cursor, now).skip(n),
{
    let keep = |row: RowView| exported(row, namespaces, cursor, now);
    let selected = rows.filter(keep);
    law_export_is_sorted(rows, namespaces, cursor, now);
    lemma_filter_members(rows, keep);
    let last = selected[n - 1];
    let next = Some(cursor_of(last));
    let keep_next = |row: RowView| exported(row, namespaces, next, now);
    let beyond = |row: RowView| row_before(last, row);
    // A row is selected after `last` exactly where it was selected before and follows `last`.
    assert forall|i: int| 0 <= i < rows.len() implies keep_next(#[trigger] rows[i]) == (keep(
        rows[i],
    ) && beyond(rows[i])) by {
        if keep_next(rows[i]) && cursor is Some {
            let start = cursor->0;
            assert(keep(last));
            lemma_key_transitive(
                start.namespace,
                start.id,
                last.namespace,
                last.id,
                rows[i].namespace,
                rows[i].id,
            );
        }
    }
    lemma_filter_both(rows, keep, beyond, keep_next);
    // The selected rows up to `last` do not follow it; the others do.
    assert(selected =~= selected.take(n) + selected.skip(n));
    lemma_filter_add(selected.take(n), selected.skip(n), beyond);
    assert forall|i: int| 0 <= i < selected.skip(n).len() implies beyond(
        #[trigger] selected.skip(n)[i],
    ) by {
        assert(row_before(selected[n - 1], selected[n + i]));
    }
    lemma_filter_all(selected.skip(n), beyond);
    assert forall|i: int| 0 <= i < selected.take(n).len() implies !beyond(
        #[trigger] selected.take(n)[i],
    ) by {
        let row = selected[i];
        lemma_key_order(row.namespace, row.id, last.namespace, last.id);
        if i < n - 1 {
            assert(row_before(selected[i], selected[n - 1]));
        }
    }
    lemma_filter_none(selected.take(n), beyond);
    assert(Seq::<RowView>::empty() + selected.skip(n) =~= selected.skip(n));
}

/// Filtering by two conditions is filtering by one and then by the other.
proof fn lemma_filter_both(
    rows: Seq<RowView>,
    p: spec_fn(RowView) -> bool,
    q: spec_fn(RowView) -> bool,
    both: spec_fn(RowView) -> bool,
)
    requires
        forall|i: int|
            0 <= i < rows.len() ==> both(#[trigger] rows[i]) == (p(rows[i]) && q(rows[i])),
    ensures
        rows.filter(both) == rows.filter(p).filter(q),
    decreases rows.len(),
{
    reveal(Seq::filter);
    if rows.len() > 0 {
        let rest = rows.drop_last();
        assert forall|i: int| 0 <= i < rest.len() implies both(#[trigger] rest[i]) == (p(rest[i])
            && q(rest[i])) by {
            assert(rest[i] == rows[i]);
        }
        lemma_filter_both(rest, p, q, both);
        let last = rows.last();
        assert(both(rows[rows.len() - 1]) == (p(last) && q(last)));
        lemma_filter_push(rest.filter(p), last, q);
    }
}

/// Filtering leaves nothing where no element satisfies the predicate.
proof fn lemma_filter_none(rows: Seq<RowView>, p: spec_fn(RowView) -> bool)
    requires
        forall|i: int| 0 <= i < rows.len() ==> !p(#[trigger] rows[i]),
    ensures
        rows.filter(p) == Seq::<RowView>::empty(),
{
    lemma_filter_members(rows, p);
    let kept = rows.filter(p);
    if kept.len() > 0 {
        assert(p(kept[0]));
        assert(rows.contains(kept[0]));
    }
    assert(kept =~= Seq::<RowView>::empty());
}

/// The records of the first `pages` pages of an export, each page starting at the cursor that the
/// page before it gave.
pub open spec fn exported_pages(
    rows: Seq<RowView>,
    namespaces: Option<Seq<Seq<char>>>,
    cursor: Option<CursorView>,
    limit: int,
    now: int,
    pages: nat,
) -> Seq<RecordView>
    decreases pages,
{
    if pages == 0 {
        Seq::empty()
    } else {
        let (page, next) = export_page(rows, namespaces, cursor, limit, now);
        match next {
            Some(_) => page + exported_pages(
                rows,
                namespaces,
                next,
                limit,
                now,
                (pages - 1) as nat,
            ),
            None => page,
        }
    }
}

/// Each page of an export continues where the page before it ended: a page holds the first of the
/// memories that are left, and its cursor stands for exactly the others.
pub proof fn law_export_page_continues(
    rows: Seq<RowView>,
    namespaces: Option<Seq<Seq<char>>>,
    cursor: Option<CursorView>,
    limit: int,
    now: int,
)
    requires
        sorted(rows),
    ensures
        ({
            let selected = export_rows(rows, namespaces, cursor, now);
            let (page, next) = export_page(rows, namespaces, cursor, limit, now);
            match next {
                Some(_) => page == records_of(selected.take(page_size(limit))) && export_rows(
                    rows,
                    namespaces,
                    next,
                    now,
                ) == selected.skip(page_size(limit)),
                None => page == records_of(selected),
            }
        }),
{
    let selected = export_rows(rows, namespaces, cursor, now);
    if selected.len() > page_size(limit) {
        lemma_export_after(rows, namespaces, cursor, now, page_size(limit));
    }
}

/// Exporting page by page gives every memory selected, in order, without omission or repetition,
/// whatever the size of the pages.
pub proof fn law_export_is_complete(
    rows: Seq<RowView>,
    namespaces: Option<Seq<Seq<char>>>,
    cursor: Option<CursorView>,
    limit: int,
    now: int,
    pages: nat,
)
    requires
        sorted(rows),
        pages > export_rows(rows, namespaces, cursor, now).len(),
    ensures
        exported_pages(rows, namespaces, cursor, limit, now, pages) == records_of(
            export_rows(rows, namespaces, cursor, now),
        ),
    decreases pages,
{
    let selected = export_rows(rows, namespaces, cursor, now);
    let size = page_size(limit);
    law_export_page_continues(rows, namespaces, cursor, limit, now);
    let (page, next) = export_page(rows, namespaces, cursor, limit, now);
    if next is Some {
        law_export_is_complete(rows, namespaces, next, limit, now, (pages - 1) as nat);
        assert(records_of(selected) =~= records_of(selected.take(size)) + records_of(
            selected.skip(size),
        ));
    }
}

/// An export holds a memory exactly where the database holds it, it can be seen, one of the
/// namespaces asked for is its own, whichever place that has in the selection, and its key comes
/// after the cursor. Without a selection every namespace is asked for.
pub proof fn law_export_selects(
    rows: Seq<RowView>,
    namespaces: Option<Seq<Seq<char>>>,
    cursor: Option<CursorView>,
    now: int,
    row: RowView,
)
    ensures
        export_rows(rows, namespaces, cursor, now).contains(row) <==> {
            &&& rows.contains(row)
            &&& visible(row, now)
            &&& namespaces is Some ==> exists|k: int|
                0 <= k < namespaces->0.len() && #[trigger] namespaces->0[k] == row.namespace
            &&& cursor is Some ==> text_before(cursor->0.namespace, row.namespace) || (
            cursor->0.namespace == row.namespace && cursor->0.id < row.id)
        },
{
    let keep = |r: RowView| exported(r, namespaces, cursor, now);
    lemma_filter_members(rows, keep);
    let chosen = rows.filter(keep);
    if chosen.contains(row) {
        let k = choose|k: int| 0 <= k < chosen.len() && chosen[k] == row;
        assert(keep(chosen[k]));
    }
    if rows.contains(row) {
        let i = choose|i: int| 0 <= i < rows.len() && rows[i] == row;
        assert(keep(rows[i]) ==> chosen.contains(rows[i]));
    }
}

/// Exporting two selections together gives, as a set, what exporting each of them gives.
pub proof fn law_export_of_union(
    rows: Seq<RowView>,
    some: Seq<Seq<char>>,
    others: Seq<Seq<char>>,
    cursor: Option<CursorView>,
    now: int,
    row: RowView,
)
    ensures
        export_rows(rows, Some(some + others), cursor, now).contains(row) <==> export_rows(
            rows,
            Some(some),
            cursor,
            now,
        ).contains(row) || export_rows(rows, Some(others), cursor, now).contains(row),
{
    let all = some + others;
    law_export_selects(rows, Some(all), cursor, now, row);
    law_export_selects(rows, Some(some), cursor, now, row);
    law_export_selects(rows, Some(others), cursor, now, row);
    if exists|k: int| 0 <= k < all.len() && #[trigger] all[k] == row.namespace {
        let k = choose|k: int| 0 <= k < all.len() && #[trigger] all[k] == row.namespace;
        if k < some.len() {
            assert(some[k] == row.namespace);
        } else {
            assert(others[k - some.len()] == row.namespace);
        }
    }
    if exists|k: int| 0 <= k < some.len() && #[trigger] some[k] == row.namespace {
        let k = choose|k: int| 0 <= k < some.len() && #[trigger] some[k] == row.namespace;
        assert(all[k] == row.namespace);
    }
    if exists|k: int| 0 <= k < others.len() && #[trigger] others[k] == row.namespace {
        let k = choose|k: int| 0 <= k < others.len() && #[trigger] others[k] == row.namespace;
        assert(all[k + some.len()] == row.namespace);
    }
}

/// A page holds as many records as were asked for, but at least one and at most 128, or all that
/// are left; they show the first memories that are left, in order; and it gives a cursor, the key
/// of its last record, exactly where more are left.
pub proof fn law_export_page_holds(
    rows: Seq<RowView>,
    namespaces: Option<Seq<Seq<char>>>,
    cursor: Option<CursorView>,
    limit: int,
    now: int,
)
    ensures
        ({
            let left = export_rows(rows, namespaces, cursor, now);
            let (page, next) = export_page(rows, namespaces, cursor, limit, now);
            let size: int = if limit <= 1 {
                1
            } else if limit >= 128 {
                128
            } else {
                limit
            };
            &&& page.len() == if left.len() <= size {
                left.len() as int
            } else {
                size
            }
            &&& forall|k: int| 0 <= k < page.len() ==> shows(#[trigger] page[k], left[k])
            &&& next is Some <==> left.len() > size
            &&& next is Some ==> next->0.namespace == left[size - 1].namespace && next->0.id
                == left[size - 1].id
        }),
{
}

} // verus!
