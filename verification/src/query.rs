//! The query engine: a pure filter/sort/pagination pipeline over a
//! candidate record set. Filters are AND-combined exact field matches, an
//! optional case-insensitive text search OR-combined over the declared
//! search fields, an inclusive date range on the designated timestamp, and
//! include/exclude id lists applied last. Sorting is by the timestamp with
//! the entity id as the tie-break; pagination slices the filtered set and
//! reports its full size.

use vstd::prelude::*;
use vstd::seq_lib::*;
use crate::entity::{FieldValue, Record, fv_eq, record_field, value_eq};
use crate::text;

verus! {

/// The direction of the sort over the designated timestamp.
#[derive(Clone, Copy, PartialEq, Eq, Structural, Debug)]
pub enum SortOrder {
    Asc,
    Desc,
}

/// Requested pagination: 1-based page, page size, and the clamp ceiling
/// the deployment imposes on the page size.
#[derive(Clone, Copy, PartialEq, Eq, Structural, Debug)]
pub struct PaginationParams {
    /// The 1-based page number.
    pub page: u32,
    /// The requested page size.
    pub per_page: u32,
    /// The largest page size honoured; larger requests are clamped.
    pub max_per_page: u32,
}

impl PaginationParams {
    /// Well-formedness: pages are 1-based and sizes positive.
    pub open spec fn wf(self) -> bool {
        self.page >= 1 && self.per_page >= 1 && self.max_per_page >= 1
    }

    /// The page size actually honoured.
    pub open spec fn spec_effective_per_page(self) -> u32 {
        if self.per_page <= self.max_per_page {
            self.per_page
        } else {
            self.max_per_page
        }
    }

    /// The page size actually honoured: the request, clamped.
    pub fn effective_per_page(&self) -> (r: u32)
        ensures
            r == self.spec_effective_per_page(),
    {
        if self.per_page <= self.max_per_page {
            self.per_page
        } else {
            self.max_per_page
        }
    }
}

impl Default for PaginationParams {
    /// First page, ten items, clamped at one hundred.
    fn default() -> (r: Self)
        ensures
            r == (PaginationParams { page: 1, per_page: 10, max_per_page: 100 }),
            r.wf(),
    {
        PaginationParams { page: 1, per_page: 10, max_per_page: 100 }
    }
}

/// One page of results together with the shape of the whole filtered set.
pub struct PaginatedResult<T> {
    /// The items of this page, in sort order.
    pub items: Vec<T>,
    /// The size of the whole filtered set, counted before slicing.
    pub total_count: u64,
    /// The 1-based page this result holds.
    pub page: u32,
    /// The honoured page size.
    pub per_page: u32,
    /// `ceil(total_count / per_page)`; zero when nothing matched.
    pub total_pages: u64,
    /// Whether a further page exists.
    pub has_next: bool,
    /// Whether an earlier page exists.
    pub has_prev: bool,
}

/// An inclusive range on the designated timestamp; either bound may be
/// open.
#[derive(Clone, Copy, PartialEq, Eq, Structural, Debug)]
pub struct DateRange {
    /// The inclusive lower bound, if any.
    pub start: Option<i64>,
    /// The inclusive upper bound, if any.
    pub end: Option<i64>,
}

/// The filter specification of one query.
pub struct QueryFilters {
    /// Exact per-field requirements, AND-combined.
    pub field_filters: Vec<(String, FieldValue)>,
    /// Free text to search for, if any.
    pub search_query: Option<String>,
    /// The fields eligible for text search; with none declared, a search
    /// query matches nothing.
    pub search_fields: Vec<String>,
    /// An inclusive bound on the designated timestamp.
    pub date_range: Option<DateRange>,
    /// When present, only these ids are kept.
    pub include_ids: Option<Vec<u128>>,
    /// When present, these ids are removed, after everything else.
    pub exclude_ids: Option<Vec<u128>>,
}

impl Default for QueryFilters {
    /// No filtering at all: everything matches.
    fn default() -> (r: Self)
        ensures
            r.field_filters@.len() == 0,
            r.search_query is None,
            r.search_fields@.len() == 0,
            r.date_range is None,
            r.include_ids is None,
            r.exclude_ids is None,
    {
        QueryFilters {
            field_filters: Vec::new(),
            search_query: None,
            search_fields: Vec::new(),
            date_range: None,
            include_ids: None,
            exclude_ids: None,
        }
    }
}

/// The record satisfies one exact field requirement.
pub open spec fn matches_one_filter(r: Record, pair: (String, FieldValue)) -> bool {
    match record_field(r.fields@, pair.0@) {
        Some(v) => fv_eq(v, pair.1),
        None => false,
    }
}

/// The record satisfies every exact field requirement.
pub open spec fn matches_field_filters(r: Record, ff: Seq<(String, FieldValue)>) -> bool {
    forall|i: int| 0 <= i < ff.len() ==> matches_one_filter(r, #[trigger] ff[i])
}

/// Field `name` of the record is text that contains `q`,
/// case-insensitively.
pub open spec fn field_contains_text(r: Record, name: Seq<char>, q: Seq<char>) -> bool {
    match record_field(r.fields@, name) {
        Some(v) => match v {
            FieldValue::Text(t) => text::contains_ci(t@, q),
            _ => false,
        },
        None => false,
    }
}

/// Some declared search field contains `q`. With no fields declared this
/// is false: a text search then matches nothing.
pub open spec fn matches_search(r: Record, q: Seq<char>, fields: Seq<Seq<char>>) -> bool {
    exists|i: int| 0 <= i < fields.len() && field_contains_text(r, #[trigger] fields[i], q)
}

/// The designated timestamp lies within the inclusive range.
pub open spec fn matches_date_range(r: Record, dr: Option<DateRange>) -> bool {
    match dr {
        None => true,
        Some(d) => {
            &&& match d.start {
                Some(s) => r.created_at >= s,
                None => true,
            }
            &&& match d.end {
                Some(e) => r.created_at <= e,
                None => true,
            }
        },
    }
}

/// The whole filter specification accepts the record.
pub open spec fn keeps(f: QueryFilters, r: Record) -> bool {
    &&& matches_field_filters(r, f.field_filters@)
    &&& match f.search_query {
        Some(q) => matches_search(r, q@, f.search_fields.deep_view()),
        None => true,
    }
    &&& matches_date_range(r, f.date_range)
    &&& match f.include_ids {
        Some(v) => v@.contains(r.id),
        None => true,
    }
    &&& match f.exclude_ids {
        Some(v) => !v@.contains(r.id),
        None => true,
    }
}

/// Whether `v` holds `id`.
#[verifier::loop_isolation(false)]
pub fn contains_id(v: &Vec<u128>, id: u128) -> (r: bool)
    ensures
        r == v@.contains(id),
{
    let mut i: usize = 0;
    while i < v.len()
        invariant
            i <= v@.len(),
            forall|j: int| 0 <= j < i ==> v@[j] != id,
        decreases v@.len() - i,
    {
        if v[i] == id {
            return true;
        }
        i += 1;
    }
    false
}

/// Whether some of the given fields of the record is text containing the
/// query, compared case-insensitively.
#[verifier::loop_isolation(false)]
pub fn search_matches(rec: &Record, q: &String, fields: &Vec<String>) -> (r: bool)
    ensures
        r == matches_search(*rec, q@, fields.deep_view()),
{
    let mut i: usize = 0;
    while i < fields.len()
        invariant
            i <= fields@.len(),
            forall|j: int| 0 <= j < i
                ==> !field_contains_text(*rec, #[trigger] fields.deep_view()[j], q@),
        decreases fields@.len() - i,
    {
        let found = match rec.field(&fields[i]) {
            Some(v) => match v {
                FieldValue::Text(t) => text::str_contains_ci(t.as_str(), q.as_str()),
                _ => false,
            },
            None => false,
        };
        proof {
            assert(fields.deep_view()[i as int] == fields@[i as int]@);
            assert(found == field_contains_text(*rec, fields.deep_view()[i as int], q@));
        }
        if found {
            return true;
        }
        i += 1;
    }
    false
}

/// Whether the filter specification accepts the record.
#[verifier::loop_isolation(false)]
pub fn keeps_record(f: &QueryFilters, rec: &Record) -> (r: bool)
    ensures
        r == keeps(*f, *rec),
{
    // exact field requirements, AND-combined
    let mut i: usize = 0;
    while i < f.field_filters.len()
        invariant
            i <= f.field_filters@.len(),
            forall|j: int| 0 <= j < i ==> matches_one_filter(*rec, #[trigger] f.field_filters@[j]),
        decreases f.field_filters@.len() - i,
    {
        let ok = match rec.field(&f.field_filters[i].0) {
            Some(v) => value_eq(v, &f.field_filters[i].1),
            None => false,
        };
        if !ok {
            proof {
                assert(!matches_one_filter(*rec, f.field_filters@[i as int]));
            }
            return false;
        }
        i += 1;
    }
    // free text search across the declared fields, OR-combined
    match &f.search_query {
        Some(q) => {
            if !search_matches(rec, q, &f.search_fields) {
                return false;
            }
        },
        None => {},
    }
    // inclusive date range on the designated timestamp
    match &f.date_range {
        Some(d) => {
            match d.start {
                Some(s) => if rec.created_at < s {
                    return false;
                },
                None => {},
            }
            match d.end {
                Some(e) => if rec.created_at > e {
                    return false;
                },
                None => {},
            }
        },
        None => {},
    }
    // id include list, then id exclude list
    match &f.include_ids {
        Some(v) => if !contains_id(v, rec.id) {
            return false;
        },
        None => {},
    }
    match &f.exclude_ids {
        Some(v) => if contains_id(v, rec.id) {
            return false;
        },
        None => {},
    }
    true
}

/// Keeps exactly the records the filter specification accepts, in order.
#[verifier::loop_isolation(false)]
pub fn filter_records(candidates: Vec<Record>, f: &QueryFilters) -> (r: Vec<Record>)
    ensures
        r@ == candidates@.filter(|x: Record| keeps(*f, x)),
{
    let ghost pred = |x: Record| keeps(*f, x);
    let ghost orig = candidates@;
    let mut rest = candidates;
    let mut out: Vec<Record> = Vec::new();
    proof {
        orig.subrange(0, 0).lemma_filter_len(pred);
        assert(out@ =~= orig.subrange(0, 0).filter(pred));
        assert(rest@ =~= orig.subrange(0, orig.len() as int));
    }
    while rest.len() > 0
        invariant
            rest@.len() <= orig.len(),
            rest@ == orig.subrange(orig.len() - rest@.len(), orig.len() as int),
            out@ == orig.subrange(0, orig.len() - rest@.len()).filter(pred),
        decreases rest@.len(),
    {
        let ghost k = orig.len() - rest@.len();
        let x = rest.remove(0);
        proof {
            assert(rest@ =~= orig.subrange(k + 1, orig.len() as int));
            assert(x == orig[k]);
            assert(orig.subrange(0, k + 1) =~= orig.subrange(0, k).push(orig[k]));
            orig.subrange(0, k).lemma_filter_push(orig[k], pred);
        }
        if keeps_record(f, &x) {
            out.push(x);
        }
        proof {
            assert(out@ == orig.subrange(0, k + 1).filter(pred));
        }
    }
    proof {
        assert(orig.subrange(0, orig.len() as int) =~= orig);
    }
    out
}

/// The total order sorting uses: the designated timestamp in the
/// requested direction, ties broken by ascending entity id so that
/// pagination is deterministic across repeated calls.
pub open spec fn rec_le(ord: SortOrder, a: Record, b: Record) -> bool {
    if a.created_at != b.created_at {
        match ord {
            SortOrder::Asc => a.created_at < b.created_at,
            SortOrder::Desc => a.created_at > b.created_at,
        }
    } else {
        a.id <= b.id
    }
}

/// The sequence is sorted under `rec_le`.
pub open spec fn sorted_rec(ord: SortOrder, s: Seq<Record>) -> bool {
    forall|i: int, j: int| 0 <= i < j < s.len() ==> rec_le(ord, s[i], s[j])
}

/// Executable comparison under the sort order.
pub fn rec_le_exec(ord: SortOrder, a: &Record, b: &Record) -> (r: bool)
    ensures
        r == rec_le(ord, *a, *b),
{
    if a.created_at != b.created_at {
        match ord {
            SortOrder::Asc => a.created_at < b.created_at,
            SortOrder::Desc => a.created_at > b.created_at,
        }
    } else {
        a.id <= b.id
    }
}

/// Sorts the records in place: afterwards the sequence is ordered under
/// `rec_le` and holds exactly the same records.
#[verifier::loop_isolation(false)]
pub fn sort_records(v: &mut Vec<Record>, ord: SortOrder)
    ensures
        final(v)@.len() == old(v)@.len(),
        final(v)@.to_multiset() == old(v)@.to_multiset(),
        sorted_rec(ord, final(v)@),
{
    broadcast use vstd::seq_lib::to_multiset_remove, vstd::seq_lib::to_multiset_insert;

    let n = v.len();
    let mut i: usize = 1;
    while i < n
        invariant
            1 <= i,
            n == v@.len(),
            v@.to_multiset() == old(v)@.to_multiset(),
            forall|a: int, b: int| 0 <= a < b < i && b < n ==> rec_le(ord, v@[a], v@[b]),
        decreases n - i,
    {
        let ghost pre = v@;
        let x = v.remove(i);
        let ghost mid = v@;
        let mut j: usize = i;
        while j > 0 && !rec_le_exec(ord, &v[j - 1], &x)
            invariant
                j <= i,
                i < n,
                v@ == mid,
                mid == pre.remove(i as int),
                x == pre[i as int],
                forall|m: int| j <= m < i ==> rec_le(ord, x, mid[m]),
            decreases j,
        {
            proof {
                // totality of the order
                assert(rec_le(ord, x, mid[j - 1]));
            }
            j -= 1;
        }
        v.insert(j, x);
        proof {
            assert(v@ == mid.insert(j as int, x));
            // the multiset is unchanged by moving one element
            assert(v@.to_multiset() =~= pre.to_multiset()) by {
                broadcast use vstd::multiset::group_multiset_axioms;
                assert(mid.to_multiset() == pre.to_multiset().remove(x));
                assert(v@.to_multiset() == mid.to_multiset().insert(x));
                assert(pre.contains(x));
                vstd::seq_lib::to_multiset_contains(pre, x);
                assert(pre.to_multiset().count(x) >= 1);
            }
            // the prefix up to i + 1 is sorted
            assert forall|a: int, b: int| 0 <= a < b < i + 1 && b < n
                implies rec_le(ord, v@[a], v@[b]) by {
                if b < j {
                    assert(v@[a] == pre[a] && v@[b] == pre[b]);
                } else if a < j && b == j {
                    assert(v@[a] == pre[a]);
                    assert(v@[b] == x);
                    if j > 0 {
                        assert(rec_le(ord, mid[j - 1], x));
                        if a < j - 1 {
                            assert(rec_le(ord, mid[a], mid[j - 1]));
                        }
                    }
                } else if a < j && b > j {
                    assert(v@[a] == pre[a]);
                    assert(v@[b] == mid[b - 1]);
                    assert(rec_le(ord, pre[a], mid[b - 1]));
                } else if a == j {
                    assert(v@[a] == x);
                    assert(v@[b] == mid[b - 1]);
                    assert(rec_le(ord, x, mid[b - 1]));
                } else {
                    assert(v@[a] == mid[a - 1] && v@[b] == mid[b - 1]);
                    assert(rec_le(ord, mid[a - 1], mid[b - 1]));
                }
            }
        }
        i += 1;
    }
    proof {
        if n == 0 {
            assert(sorted_rec(ord, v@));
        }
    }
}

/// The smaller of two integers.
pub open spec fn min_int(a: int, b: int) -> int {
    if a <= b {
        a
    } else {
        b
    }
}

/// `ceil(count / per)`, and zero for an empty set.
pub open spec fn spec_total_pages(count: nat, per: nat) -> nat
    recommends
        per > 0,
{
    if count == 0 {
        0
    } else {
        (count - 1) as nat / per + 1
    }
}

/// `spec_total_pages` is the least page count that covers every item:
/// all pages together hold at least `count` items, and one page fewer
/// would leave some item out.
pub proof fn lemma_total_pages_is_ceil(count: nat, per: nat)
    requires
        per > 0,
    ensures
        spec_total_pages(count, per) * per >= count,
        count > 0 ==> (spec_total_pages(count, per) - 1) * per < count,
{
    if count > 0 {
        let q = (count - 1) as nat / per;
        assert((count - 1) as int == per as int * q as int + (count - 1) as int % per as int) by {
            vstd::arithmetic::div_mod::lemma_fundamental_div_mod((count - 1) as int, per as int);
        }
        assert((q + 1) * per == q * per + per) by (nonlinear_arith);
        assert(per * q == q * per) by (nonlinear_arith);
    }
}

/// Slices one page out of an already filtered and sorted sequence, and
/// reports the shape of the whole set: its size, the page count, and
/// whether neighbouring pages exist. An out-of-range page yields empty
/// items with the counts intact.
#[verifier::loop_isolation(false)]
pub fn paginate(items: Vec<Record>, params: &PaginationParams) -> (r: PaginatedResult<Record>)
    requires
        params.wf(),
    ensures
        r.page == params.page,
        r.per_page == params.spec_effective_per_page(),
        r.total_count == items@.len(),
        r.total_pages == spec_total_pages(
            items@.len() as nat,
            params.spec_effective_per_page() as nat,
        ),
        r.has_next == ((params.page as int) * (params.spec_effective_per_page() as int)
            < items@.len()),
        r.has_prev == (params.page > 1),
        r.items@ == items@.subrange(
            min_int(
                (params.page - 1) as int * params.spec_effective_per_page() as int,
                items@.len() as int,
            ),
            min_int(
                (params.page as int) * (params.spec_effective_per_page() as int),
                items@.len() as int,
            ),
        ),
{
    let eff = params.effective_per_page();
    let n = items.len();
    let n64 = n as u64;
    proof {
        assert((params.page as int) * (eff as int) <= 0xffff_ffffi64 * 0xffff_ffffi64)
            by (nonlinear_arith)
            requires params.page <= 0xffff_ffffu32, eff <= 0xffff_ffffu32;
        assert((params.page as int - 1) * (eff as int) + eff == (params.page as int) * (
        eff as int)) by (nonlinear_arith);
        assert((params.page as int - 1) * (eff as int) >= 0) by (nonlinear_arith)
            requires params.page >= 1, eff >= 1;
    }
    let start64 = (params.page as u64 - 1) * (eff as u64);
    let end64 = start64 + eff as u64;
    let start = if start64 > n64 {
        n
    } else {
        start64 as usize
    };
    let end = if end64 > n64 {
        n
    } else {
        end64 as usize
    };
    let ghost items0 = items@;
    let mut out = items;
    out.truncate(end);
    let mut c: usize = 0;
    while c < start
        invariant
            c <= start,
            start <= end <= n,
            n == items0.len(),
            out@ == items0.subrange(c as int, end as int),
        decreases start - c,
    {
        out.remove(0);
        proof {
            assert(out@ =~= items0.subrange(c + 1, end as int));
        }
        c += 1;
    }
    let total_pages = if n64 == 0 {
        0
    } else {
        (n64 - 1) / (eff as u64) + 1
    };
    let has_next = (params.page as u64) * (eff as u64) < n64;
    let has_prev = params.page > 1;
    PaginatedResult {
        items: out,
        total_count: n64,
        page: params.page,
        per_page: eff,
        total_pages,
        has_next,
        has_prev,
    }
}

/// The candidates that survive an optional filter specification.
pub open spec fn spec_filtered(c: Seq<Record>, f: Option<&QueryFilters>) -> Seq<Record> {
    match f {
        Some(ff) => c.filter(|x: Record| keeps(*ff, x)),
        None => c,
    }
}

/// The order an optional sort request denotes; ascending by default.
pub open spec fn spec_order(s: Option<SortOrder>) -> SortOrder {
    match s {
        Some(o) => o,
        None => SortOrder::Asc,
    }
}

/// The slice start an optional pagination request denotes.
pub open spec fn spec_page_start(p: Option<&PaginationParams>) -> int {
    match p {
        Some(pp) => (pp.page - 1) as int * pp.spec_effective_per_page() as int,
        None => 0,
    }
}

/// The slice end an optional pagination request denotes; everything when
/// absent.
pub open spec fn spec_page_end(p: Option<&PaginationParams>, total: int) -> int {
    match p {
        Some(pp) => (pp.page as int) * (pp.spec_effective_per_page() as int),
        None => total,
    }
}

/// The items are the `[start, end)` slice, clamped, of some ordering
/// `sorted` of the filtered set.
pub open spec fn is_query_page(
    items: Seq<Record>,
    filtered: Seq<Record>,
    ord: SortOrder,
    start: int,
    end: int,
    sorted: Seq<Record>,
) -> bool {
    &&& sorted.to_multiset() == filtered.to_multiset()
    &&& sorted.len() == filtered.len()
    &&& sorted_rec(ord, sorted)
    &&& items == sorted.subrange(
        min_int(start, sorted.len() as int),
        min_int(end, sorted.len() as int),
    )
}

/// The whole query pipeline: filter, sort, paginate. Filters default to
/// none, the sort order to ascending, pagination to no slicing.
pub fn find_with_params(
    candidates: Vec<Record>,
    filters: Option<&QueryFilters>,
    pagination: Option<&PaginationParams>,
    sort: Option<SortOrder>,
) -> (r: PaginatedResult<Record>)
    requires
        match pagination {
            Some(p) => p.wf(),
            None => true,
        },
    ensures
        r.total_count == spec_filtered(candidates@, filters).len(),
        match pagination {
            Some(p) => {
                &&& r.page == p.page
                &&& r.per_page == p.spec_effective_per_page()
                &&& r.total_pages == spec_total_pages(
                    r.total_count as nat,
                    p.spec_effective_per_page() as nat,
                )
                &&& r.has_next == ((p.page as int) * (p.spec_effective_per_page() as int)
                    < r.total_count)
                &&& r.has_prev == (p.page > 1)
            },
            None => {
                &&& r.page == 1
                &&& r.total_pages == (if r.total_count == 0 { 0u64 } else { 1u64 })
                &&& r.has_next == false
                &&& r.has_prev == false
                &&& r.items@.len() == r.total_count
            },
        },
        exists|sorted: Seq<Record>| #[trigger] is_query_page(
            r.items@,
            spec_filtered(candidates@, filters),
            spec_order(sort),
            spec_page_start(pagination),
            spec_page_end(pagination, spec_filtered(candidates@, filters).len() as int),
            sorted,
        ),
{
    broadcast use vstd::seq_lib::to_multiset_len;

    let ghost fseq = spec_filtered(candidates@, filters);
    let filtered = match filters {
        Some(f) => filter_records(candidates, f),
        None => candidates,
    };
    let ord = match sort {
        Some(o) => o,
        None => SortOrder::Asc,
    };
    let mut sorted_v = filtered;
    sort_records(&mut sorted_v, ord);
    let ghost sorted_view = sorted_v@;
    proof {
        assert(sorted_view.to_multiset() == fseq.to_multiset());
        assert(sorted_view.len() == fseq.len());
    }
    match pagination {
        Some(p) => {
            let r = paginate(sorted_v, p);
            proof {
                assert(is_query_page(
                    r.items@,
                    spec_filtered(candidates@, filters),
                    spec_order(sort),
                    spec_page_start(pagination),
                    spec_page_end(
                        pagination,
                        spec_filtered(candidates@, filters).len() as int,
                    ),
                    sorted_view,
                ));
            }
            r
        },
        None => {
            let total_items = sorted_v.len();
            let total64 = total_items as u64;
            let total_pages: u64 = if total64 == 0 {
                0
            } else {
                1
            };
            let per_page: u32 = if total_items == 0 {
                1
            } else if total_items > 0xffff_ffffusize {
                0xffff_ffffu32
            } else {
                total_items as u32
            };
            let r = PaginatedResult {
                items: sorted_v,
                total_count: total64,
                page: 1,
                per_page,
                total_pages,
                has_next: false,
                has_prev: false,
            };
            proof {
                assert(r.items@ =~= sorted_view.subrange(
                    min_int(0, sorted_view.len() as int),
                    min_int(fseq.len() as int, sorted_view.len() as int),
                ));
                assert(is_query_page(
                    r.items@,
                    spec_filtered(candidates@, filters),
                    spec_order(sort),
                    spec_page_start(pagination),
                    spec_page_end(
                        pagination,
                        spec_filtered(candidates@, filters).len() as int,
                    ),
                    sorted_view,
                ));
            }
            r
        },
    }
}

/// Every candidate, in the default ascending order.
pub fn find_all(candidates: Vec<Record>) -> (r: Vec<Record>)
    ensures
        r@.to_multiset() == candidates@.to_multiset(),
        r@.len() == candidates@.len(),
        sorted_rec(SortOrder::Asc, r@),
{
    let mut v = candidates;
    sort_records(&mut v, SortOrder::Asc);
    v
}

/// The candidates the filter accepts, in the default ascending order.
pub fn find_filtered(candidates: Vec<Record>, filters: &QueryFilters) -> (r: Vec<Record>)
    ensures
        r@.to_multiset() == candidates@.filter(|x: Record| keeps(*filters, x)).to_multiset(),
        r@.len() == candidates@.filter(|x: Record| keeps(*filters, x)).len(),
        sorted_rec(SortOrder::Asc, r@),
{
    let mut v = filter_records(candidates, filters);
    sort_records(&mut v, SortOrder::Asc);
    v
}

/// Every candidate, in the requested order.
pub fn find_sorted(candidates: Vec<Record>, sort: SortOrder) -> (r: Vec<Record>)
    ensures
        r@.to_multiset() == candidates@.to_multiset(),
        r@.len() == candidates@.len(),
        sorted_rec(sort, r@),
{
    let mut v = candidates;
    sort_records(&mut v, sort);
    v
}

/// One page over all candidates, unfiltered, in the default order, with
/// no clamp on the page size.
pub fn find_paginated(candidates: Vec<Record>, page: u32, per_page: u32)
    -> (r: PaginatedResult<Record>)
    requires
        page >= 1,
        per_page >= 1,
    ensures
        r.total_count == candidates@.len(),
        r.page == page,
        r.per_page == per_page,
        r.total_pages == spec_total_pages(candidates@.len() as nat, per_page as nat),
        r.has_next == ((page as int) * (per_page as int) < candidates@.len()),
        r.has_prev == (page > 1),
        exists|sorted: Seq<Record>| #[trigger] is_query_page(
            r.items@,
            candidates@,
            SortOrder::Asc,
            (page - 1) as int * per_page as int,
            (page as int) * (per_page as int),
            sorted,
        ),
{
    let params = PaginationParams { page, per_page, max_per_page: 0xffff_ffffu32 };
    find_with_params(candidates, None, Some(&params), None)
}

/// The number of candidates.
pub fn count_all(candidates: &Vec<Record>) -> (r: u64)
    ensures
        r == candidates@.len(),
{
    candidates.len() as u64
}

/// How many candidates the filter accepts.
#[verifier::loop_isolation(false)]
pub fn count_filtered(candidates: &Vec<Record>, filters: &QueryFilters) -> (r: u64)
    ensures
        r == candidates@.filter(|x: Record| keeps(*filters, x)).len(),
{
    broadcast use Seq::lemma_filter_len;

    let ghost pred = |x: Record| keeps(*filters, x);
    let mut count: u64 = 0;
    let mut i: usize = 0;
    proof {
        candidates@.subrange(0, 0).lemma_filter_len(pred);
        assert(candidates@.subrange(0, 0).filter(pred) =~= Seq::<Record>::empty());
    }
    while i < candidates.len()
        invariant
            i <= candidates@.len(),
            count == candidates@.subrange(0, i as int).filter(pred).len(),
        decreases candidates@.len() - i,
    {
        proof {
            assert(candidates@.subrange(0, i + 1)
                =~= candidates@.subrange(0, i as int).push(candidates@[i as int]));
            candidates@.subrange(0, i as int).lemma_filter_push(candidates@[i as int], pred);
            candidates@.subrange(0, i + 1).lemma_filter_len(pred);
        }
        if keeps_record(filters, &candidates[i]) {
            count += 1;
        }
        i += 1;
    }
    proof {
        assert(candidates@.subrange(0, candidates@.len() as int) =~= candidates@);
    }
    count
}

/// Whether any candidate passes the filter.
#[verifier::loop_isolation(false)]
pub fn exists_with_filters(candidates: &Vec<Record>, filters: &QueryFilters) -> (r: bool)
    ensures
        r == exists|i: int| 0 <= i < candidates@.len() && keeps(*filters, #[trigger] candidates@[i]),
{
    let mut i: usize = 0;
    while i < candidates.len()
        invariant
            i <= candidates@.len(),
            forall|j: int| 0 <= j < i ==> !keeps(*filters, #[trigger] candidates@[j]),
        decreases candidates@.len() - i,
    {
        if keeps_record(filters, &candidates[i]) {
            return true;
        }
        i += 1;
    }
    false
}

/// The candidates whose id stands in `ids`, in candidate order.
#[verifier::loop_isolation(false)]
pub fn find_by_ids(candidates: Vec<Record>, ids: &Vec<u128>) -> (r: Vec<Record>)
    ensures
        r@ == candidates@.filter(|x: Record| ids@.contains(x.id)),
{
    let ghost pred = |x: Record| ids@.contains(x.id);
    let ghost orig = candidates@;
    let mut rest = candidates;
    let mut out: Vec<Record> = Vec::new();
    proof {
        orig.subrange(0, 0).lemma_filter_len(pred);
        assert(out@ =~= orig.subrange(0, 0).filter(pred));
        assert(rest@ =~= orig.subrange(0, orig.len() as int));
    }
    while rest.len() > 0
        invariant
            rest@.len() <= orig.len(),
            rest@ == orig.subrange(orig.len() - rest@.len(), orig.len() as int),
            out@ == orig.subrange(0, orig.len() - rest@.len()).filter(pred),
        decreases rest@.len(),
    {
        let ghost k = orig.len() - rest@.len();
        let x = rest.remove(0);
        proof {
            assert(rest@ =~= orig.subrange(k + 1, orig.len() as int));
            assert(x == orig[k]);
            assert(orig.subrange(0, k + 1) =~= orig.subrange(0, k).push(orig[k]));
            orig.subrange(0, k).lemma_filter_push(orig[k], pred);
        }
        if contains_id(ids, x.id) {
            out.push(x);
        }
        proof {
            assert(out@ == orig.subrange(0, k + 1).filter(pred));
        }
    }
    proof {
        assert(orig.subrange(0, orig.len() as int) =~= orig);
    }
    out
}

/// The record has field `name` with exactly the value `v`.
pub open spec fn field_matches(r: Record, name: Seq<char>, v: FieldValue) -> bool {
    match record_field(r.fields@, name) {
        Some(w) => fv_eq(w, v),
        None => false,
    }
}

/// The candidates whose field `field` equals `value` exactly, in
/// candidate order.
#[verifier::loop_isolation(false)]
pub fn find_by_field(candidates: Vec<Record>, field: &String, value: &FieldValue)
    -> (r: Vec<Record>)
    ensures
        r@ == candidates@.filter(|x: Record| field_matches(x, field@, *value)),
{
    let ghost pred = |x: Record| field_matches(x, field@, *value);
    let ghost orig = candidates@;
    let mut rest = candidates;
    let mut out: Vec<Record> = Vec::new();
    proof {
        orig.subrange(0, 0).lemma_filter_len(pred);
        assert(out@ =~= orig.subrange(0, 0).filter(pred));
        assert(rest@ =~= orig.subrange(0, orig.len() as int));
    }
    while rest.len() > 0
        invariant
            rest@.len() <= orig.len(),
            rest@ == orig.subrange(orig.len() - rest@.len(), orig.len() as int),
            out@ == orig.subrange(0, orig.len() - rest@.len()).filter(pred),
        decreases rest@.len(),
    {
        let ghost k = orig.len() - rest@.len();
        let x = rest.remove(0);
        proof {
            assert(rest@ =~= orig.subrange(k + 1, orig.len() as int));
            assert(x == orig[k]);
            assert(orig.subrange(0, k + 1) =~= orig.subrange(0, k).push(orig[k]));
            orig.subrange(0, k).lemma_filter_push(orig[k], pred);
        }
        let hit = match x.field(field) {
            Some(w) => value_eq(w, value),
            None => false,
        };
        if hit {
            out.push(x);
        }
        proof {
            assert(out@ == orig.subrange(0, k + 1).filter(pred));
        }
    }
    proof {
        assert(orig.subrange(0, orig.len() as int) =~= orig);
    }
    out
}

/// The candidates some of whose `search_fields` contain `query`,
/// case-insensitively, in candidate order.
#[verifier::loop_isolation(false)]
pub fn search(candidates: Vec<Record>, query: &String, search_fields: &Vec<String>)
    -> (r: Vec<Record>)
    ensures
        r@ == candidates@.filter(
            |x: Record| matches_search(x, query@, search_fields.deep_view()),
        ),
{
    let ghost pred = |x: Record| matches_search(x, query@, search_fields.deep_view());
    let ghost orig = candidates@;
    let mut rest = candidates;
    let mut out: Vec<Record> = Vec::new();
    proof {
        orig.subrange(0, 0).lemma_filter_len(pred);
        assert(out@ =~= orig.subrange(0, 0).filter(pred));
        assert(rest@ =~= orig.subrange(0, orig.len() as int));
    }
    while rest.len() > 0
        invariant
            rest@.len() <= orig.len(),
            rest@ == orig.subrange(orig.len() - rest@.len(), orig.len() as int),
            out@ == orig.subrange(0, orig.len() - rest@.len()).filter(pred),
        decreases rest@.len(),
    {
        let ghost k = orig.len() - rest@.len();
        let x = rest.remove(0);
        proof {
            assert(rest@ =~= orig.subrange(k + 1, orig.len() as int));
            assert(x == orig[k]);
            assert(orig.subrange(0, k + 1) =~= orig.subrange(0, k).push(orig[k]));
            orig.subrange(0, k).lemma_filter_push(orig[k], pred);
        }
        if search_matches(&x, query, search_fields) {
            out.push(x);
        }
        proof {
            assert(out@ == orig.subrange(0, k + 1).filter(pred));
        }
    }
    proof {
        assert(orig.subrange(0, orig.len() as int) =~= orig);
    }
    out
}

/// The first record, in the default order, that the filter accepts.
pub fn find_first(candidates: Vec<Record>, filters: &QueryFilters) -> (r: Option<Record>)
    ensures
        (r is Some) == (candidates@.filter(|x: Record| keeps(*filters, x)).len() > 0),
        exists|sorted: Seq<Record>| #[trigger] is_first_of(
            r,
            spec_filtered(candidates@, Some(filters)),
            sorted,
        ),
{
    broadcast use vstd::seq_lib::to_multiset_len;

    let ghost fseq = candidates@.filter(|x: Record| keeps(*filters, x));
    let mut v = filter_records(candidates, filters);
    sort_records(&mut v, SortOrder::Asc);
    let ghost sorted_view = v@;
    if v.len() > 0 {
        let first = v.remove(0);
        proof {
            assert(is_first_of(
                Some(first),
                spec_filtered(candidates@, Some(filters)),
                sorted_view,
            ));
        }
        Some(first)
    } else {
        proof {
            assert(is_first_of(
                None::<Record>,
                spec_filtered(candidates@, Some(filters)),
                sorted_view,
            ));
        }
        None
    }
}

/// `r` is the head of `sorted`, an ascending ordering of `filtered`, or
/// nothing when the set is empty.
pub open spec fn is_first_of(r: Option<Record>, filtered: Seq<Record>, sorted: Seq<Record>)
    -> bool {
    &&& sorted.to_multiset() == filtered.to_multiset()
    &&& sorted.len() == filtered.len()
    &&& sorted_rec(SortOrder::Asc, sorted)
    &&& r == if sorted.len() > 0 {
        Some(sorted[0])
    } else {
        None::<Record>
    }
}

} // verus!
