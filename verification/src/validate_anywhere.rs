//! What a report says of a page whatever is wrong with the pages before it.
use crate::error::Error;
use crate::framing;
use crate::page::PageView;
use crate::validate;
use crate::validate::{HeadView, IssueView, Located, ReportView, Rule, Severity, Walk};
use crate::validate_chain;
use crate::validate_meaning;
use vstd::prelude::*;

verus! {

// ---------------------------------------------------------------------------
// Pages of bitstreams that go on
// ---------------------------------------------------------------------------
/// A page among the first `n` ends the logical bitstream `k`.
pub open spec fn ended_before(pages: Seq<PageView>, n: int, k: u32) -> bool {
    exists|j: int|
        0 <= j < n && (#[trigger] pages[j]).serial == k && validate_meaning::last(pages[j])
}

/// The granule position that the logical bitstream `k` bore last, since it began.
pub open spec fn stamp_before(pages: Seq<PageView>, n: int, k: u32) -> Option<i64>
    decreases n,
{
    if n <= 0 {
        None
    } else if pages[n - 1].serial != k {
        stamp_before(pages, n - 1, k)
    } else if validate_meaning::stamped(pages[n - 1]) {
        Some(pages[n - 1].granule_position)
    } else if validate_meaning::first(pages[n - 1]) {
        None
    } else {
        stamp_before(pages, n - 1, k)
    }
}

/// What is wrong with page `i`, of a logical bitstream that has not ended.
pub open spec fn faulty(pages: Seq<PageView>, i: int, rule: Rule) -> bool {
    let p = pages[i];
    let (continued, opens) = (validate_meaning::continued(p), validate_meaning::first(p));
    let (finishes, open) = (validate_meaning::finishes(p), validate_meaning::leaves_open(p));
    let before = validate_meaning::latest(pages, i, p.serial);
    let known = !opens && before is Some;
    let j = before->Some_0;
    let ahead = (p.seq_no - pages[j].seq_no) % 0x1_0000_0000;
    let judged = known ==> ahead == 1;
    match rule {
        Rule::ContinuedBos => opens && continued,
        Rule::SequenceStart => opens && p.seq_no != 0,
        Rule::DuplicateBos => opens && before is Some,
        Rule::MissingBos => !opens && before is None,
        Rule::SequenceGap => known && 1 < ahead < 0x8000_0000,
        Rule::SequenceRegression => known && (ahead == 0 || ahead >= 0x8000_0000),
        Rule::ContinuedWithoutPartial => known && judged && continued
            && !validate_meaning::leaves_open(pages[j]),
        Rule::PartialNotContinued => known && judged && !continued
            && validate_meaning::leaves_open(pages[j]),
        Rule::SpuriousGranule => judged && p.lacing.len() > 0 && !finishes && p.granule_position
            != -1,
        Rule::MissingGranule => judged && finishes && p.granule_position == -1,
        Rule::GranuleRegression => known && judged && finishes && p.granule_position != -1 && (
        stamp_before(pages, i, p.serial) matches Some(g) && p.granule_position < g),
        Rule::EosMidPacket => judged && validate_meaning::last(p) && open,
        _ => false,
    }
}

/// The rule can be told of a page by its own logical bitstream.
pub open spec fn own(rule: Rule) -> bool {
    rule != Rule::SerialReuse && rule != Rule::BosNotContiguous
}

/// What a walk behind the first `n` pages knows of the bitstreams that go on.
spec fn kept_up(pages: Seq<PageView>, n: int, w: Walk) -> bool {
    &&& forall|k: u32|
        !ended_before(pages, n, k) ==> match #[trigger] validate_meaning::latest(pages, n, k) {
            None => !w.live.contains_key(k),
            Some(j) => {
                let m = w.live[k];
                &&& w.live.contains_key(k)
                &&& m.last_seq == pages[j].seq_no
                &&& m.open_packet == validate_meaning::leaves_open(pages[j])
                &&& !m.eos && !m.tainted && !m.after_eos_reported
                &&& m.last_granule == stamp_before(pages, n, k)
            },
        }
    &&& forall|k: u32|
        (#[trigger] validate_meaning::latest(pages, n, k) matches Some(j)
            && validate_meaning::last(pages[j])) && w.live.contains_key(k) ==> w.live[k].eos
    &&& placed(w.report, n)
}

/// The issues of a report name the first `n` pages.
#[verifier::opaque]
spec fn placed(r: ReportView, n: int) -> bool {
    &&& r.pages == n
    &&& r.capped()
    &&& forall|x: int|
        0 <= x < r.issues.len() ==> ((#[trigger] r.issues[x]).page_index matches Some(m) && m < n)
            && r.issues[x].rule != Rule::MissingEos
}

/// No page is told to leave its bitstream open.
proof fn lemma_not_open(w: Walk, p: HeadView)
    ensures
        !validate_meaning::names(w.page_issues(p), Rule::MissingEos),
{
    broadcast use {validate_meaning::lemma_names_concat, validate_meaning::lemma_names_when};

    let n = w.report.pages;
    assert(!validate_meaning::names(Seq::<IssueView>::empty(), Rule::MissingEos)) by {
        reveal(validate_meaning::names);
    }
    if !p.bos() {
        if !w.live.contains_key(p.serial) {
            validate_meaning::lemma_names_one(
                validate::page_issue(
                    n,
                    p,
                    Rule::MissingBos,
                    "data page for a serial that never had a BOS page"@,
                ),
                Rule::MissingEos,
            );
        } else {
            validate_meaning::lemma_names_one(
                validate::hole_issue(n, p, w.live[p.serial].last_seq),
                Rule::MissingEos,
            );
        }
    }
}

/// The issues of one more page name it.
proof fn lemma_placed_on(w: Walk, n: int, h: HeadView)
    requires
        placed(w.report, n),
        0 <= n <= u64::MAX,
    ensures
        placed(w.after_page(h).report, n + 1),
{
    reveal(placed);
    let v = w.after_page(h);
    validate_chain::lemma_page_adds(w, h);
    validate_meaning::lemma_page_few(w, h);
    lemma_not_open(w, h);
    assert forall|x: int| 0 <= x < v.report.issues.len() implies ((
    #[trigger] v.report.issues[x]).page_index matches Some(m) && m < n + 1)
        && v.report.issues[x].rule != Rule::MissingEos by {
        if x < w.report.issues.len() {
            assert(v.report.issues[x] == w.report.issues[x]);
        } else {
            let y = x - w.report.issues.len();
            assert(v.report.issues[x] == w.page_issues(h)[y]);
            assert(w.page_issues(h)[y].rule != Rule::MissingEos) by {
                reveal(validate_meaning::names);
            }
        }
    }
}

proof fn lemma_ended_on(pages: Seq<PageView>, n: int, k: u32)
    requires
        0 <= n < pages.len(),
    ensures
        ended_before(pages, n + 1, k) <==> ended_before(pages, n, k) || (pages[n].serial == k
            && validate_meaning::last(pages[n])),
{
    if ended_before(pages, n, k) {
        let j = choose|j: int|
            0 <= j < n && (#[trigger] pages[j]).serial == k && validate_meaning::last(pages[j]);
        assert(pages[j].serial == k);
    }
    if pages[n].serial == k && validate_meaning::last(pages[n]) {
        assert(pages[n].serial == k);
    }
}

/// One more page is followed.
proof fn lemma_kept_up_on(pages: Seq<PageView>, n: int, w: Walk, offset: nat)
    requires
        kept_up(pages, n, w),
        0 <= n < pages.len(),
        n <= u64::MAX,
    ensures
        kept_up(pages, n + 1, w.after_page(validate_chain::head_of(pages[n], offset))),
{
    let p = pages[n];
    let h = validate_chain::head_of(p, offset);
    let v = w.after_page(h);
    let own = p.serial;
    validate_meaning::lemma_head(p, offset);
    lemma_placed_on(w, n, h);
    let link = h.bos() && w.opens_link(h);
    assert forall|k: u32| !ended_before(pages, n + 1, k) implies match #[trigger]
    validate_meaning::latest(pages, n + 1, k) {
        None => !v.live.contains_key(k),
        Some(j) => {
            let m = v.live[k];
            &&& v.live.contains_key(k)
            &&& m.last_seq == pages[j].seq_no
            &&& m.open_packet == validate_meaning::leaves_open(pages[j])
            &&& !m.eos && !m.tainted && !m.after_eos_reported
            &&& m.last_granule == stamp_before(pages, n + 1, k)
        },
    } by {
        lemma_ended_on(pages, n, k);
        let before = validate_meaning::latest(pages, n, k);
        if k != own {
            assert(validate_meaning::latest(pages, n + 1, k) == before);
            assert(stamp_before(pages, n + 1, k) == stamp_before(pages, n, k));
            if before is Some && link {
                assert(w.live.contains_key(k) && !w.live[k].eos);
            }
        } else {
            assert(validate_meaning::latest(pages, n + 1, k) == Some(n));
            if before is None {
                lemma_no_stamp(pages, n, k);
            }
        }
    }
    assert forall|k: u32|
        (#[trigger] validate_meaning::latest(pages, n + 1, k) matches Some(j)
            && validate_meaning::last(pages[j])) && v.live.contains_key(k) implies v.live[k].eos by {
        if k != own {
            assert(validate_meaning::latest(pages, n, k) == validate_meaning::latest(
                pages,
                n + 1,
                k,
            ));
        }
    }
}

proof fn lemma_no_stamp(pages: Seq<PageView>, n: int, k: u32)
    requires
        validate_meaning::latest(pages, n, k) is None,
    ensures
        stamp_before(pages, n, k) is None,
    decreases n,
{
    if n > 0 {
        lemma_no_stamp(pages, n - 1, k);
    }
}

/// The walk behind the first `n` pages.
proof fn lemma_kept_up(pages: Seq<PageView>, n: int) -> (w: Walk)
    requires
        0 <= n <= pages.len() <= u64::MAX,
    ensures
        kept_up(pages, n, w),
        validate_chain::gone(pages, 0, Walk::start()) == validate_chain::gone(
            pages.skip(n),
            validate_meaning::begins(pages, n),
            w,
        ),
    decreases n,
{
    if n == 0 {
        assert(pages.skip(0) =~= pages);
        assert(placed(Walk::start().report, 0)) by {
            reveal(placed);
        }
        Walk::start()
    } else {
        let w = lemma_kept_up(pages, n - 1);
        let at = validate_meaning::begins(pages, n - 1);
        lemma_kept_up_on(pages, n - 1, w, at);
        assert(pages.skip(n - 1).skip(1) =~= pages.skip(n));
        assert(pages.skip(n - 1)[0] == pages[n - 1]);
        w.after_page(validate_chain::head_of(pages[n - 1], at))
    }
}

/// The issues of a page name what is wrong with it.
proof fn lemma_faulty(pages: Seq<PageView>, i: int, w: Walk, offset: nat, rule: Rule)
    requires
        kept_up(pages, i, w),
        0 <= i < pages.len(),
        !ended_before(pages, i, pages[i].serial),
        own(rule),
    ensures
        validate_meaning::names(
            w.page_issues(validate_chain::head_of(pages[i], offset)),
            rule,
        ) == faulty(pages, i, rule),
{
    let p = pages[i];
    let h = validate_chain::head_of(p, offset);
    validate_meaning::lemma_head(p, offset);
    let before = validate_meaning::latest(pages, i, p.serial);
    let previous = if h.bos() || before is None {
        None
    } else {
        w.live[p.serial].last_granule
    };
    validate_meaning::lemma_tail_names(w.report.pages, h, previous, rule);
    if h.bos() {
        validate_meaning::lemma_bos_names(w, h, rule);
    } else {
        validate_meaning::lemma_data_names(w, h, rule);
    }
}

/// Pages behind the first `n` bring issues that name them.
proof fn lemma_later(pages: Seq<PageView>, offset: nat, w: Walk, n: nat)
    requires
        w.report.capped(),
        w.report.pages == n,
        n + pages.len() <= u64::MAX,
    ensures
        ({
            let e = validate_chain::gone(pages, offset, w);
            &&& e.report.capped()
            &&& forall|x: int|
                w.report.issues.len() <= x < e.report.issues.len() ==> ((
                #[trigger] e.report.issues[x]).page_index matches Some(m) && m >= n)
        }),
    decreases pages.len(),
{
    validate_chain::lemma_clean_first(pages, offset, w);
    if pages.len() > 0 {
        let h = validate_chain::head_of(pages[0], offset);
        let v = w.after_page(h);
        validate_chain::lemma_page_adds(w, h);
        validate_meaning::lemma_page_few(w, h);
        let next = offset + pages[0].encoded_len();
        lemma_later(pages.skip(1), next, v, n + 1);
        validate_chain::lemma_clean_first(pages.skip(1), next, v);
        let e = validate_chain::gone(pages, offset, w);
        assert forall|x: int| w.report.issues.len() <= x < e.report.issues.len() implies ((
        #[trigger] e.report.issues[x]).page_index matches Some(m) && m >= n) by {
            if x < v.report.issues.len() {
                assert(e.report.issues[x] == v.report.issues[x]);
                assert(v.report.issues[x] == w.page_issues(h)[x - w.report.issues.len()]);
            }
        }
    }
}

/// Page `i` is told with `rule`.
pub open spec fn tells(r: ReportView, i: int, rule: Rule) -> bool {
    exists|x: int|
        0 <= x < r.issues.len() && (#[trigger] r.issues[x]).rule == rule
            && r.issues[x].page_index == Some(i as u64)
}

/// A page of a logical bitstream that has not ended is told with each rule that it
/// breaks and with no other, whatever is wrong with the pages before it and behind
/// it, in a report that has room for all issues.
pub proof fn law_told_anywhere(data: Seq<u8>, pages: Seq<PageView>, i: int, rule: Rule)
    requires
        framing::pages_of(data) == Ok::<Seq<PageView>, Error>(pages),
        0 <= i < pages.len() <= u64::MAX,
        validate::validated(data).suppressed_issues == 0,
        !ended_before(pages, i, pages[i].serial),
        own(rule),
    ensures
        tells(validate::validated(data), i, rule) <==> faulty(pages, i, rule),
{
    let r = validate::validated(data);
    let w = lemma_kept_up(pages, i);
    reveal(placed);
    let at = validate_meaning::begins(pages, i);
    let h = validate_chain::head_of(pages[i], at);
    let rest = pages.skip(i);
    assert(rest[0] == pages[i]);
    lemma_faulty(pages, i, w, at, rule);
    validate_meaning::lemma_page_few(w, h);
    validate_chain::lemma_page_adds(w, h);
    let v = w.after_page(h);
    let found = w.page_issues(h);
    let next = at + pages[i].encoded_len();
    lemma_later(rest.skip(1), next, v, (i + 1) as nat);
    validate_chain::lemma_clean_first(rest.skip(1), next, v);
    let end = validate_chain::gone(pages, 0, Walk::start());
    assert(end == validate_chain::gone(rest.skip(1), next, v));
    assert(data.skip(0) =~= data);
    validate_chain::lemma_gone(data, 0, Walk::start());
    validate_meaning::lemma_end_keeps(data, end);
    lemma_room(data, end);
    let a = w.report.issues.len() as int;
    assert(v.report.issues.len() == a + found.len()) by {
        assert(v.report.total() == w.report.total() + found.len());
    }
    if faulty(pages, i, rule) {
        assert(exists|x: int| 0 <= x < found.len() && (#[trigger] found[x]).rule == rule) by {
            reveal(validate_meaning::names);
        }
        let x = choose|x: int| 0 <= x < found.len() && (#[trigger] found[x]).rule == rule;
        assert(v.report.issues[a + x] == found[x]);
        assert(end.report.issues[a + x] == v.report.issues[a + x]);
        assert(r.issues[a + x] == end.report.issues[a + x]);
    }
    if tells(r, i, rule) {
        let x = choose|x: int|
            0 <= x < r.issues.len() && (#[trigger] r.issues[x]).rule == rule
                && r.issues[x].page_index == Some(i as u64);
        assert(x < end.report.issues.len());
        assert(r.issues[x] == end.report.issues[x]);
        if x < a {
            assert(v.report.issues[x] == w.report.issues[x]);
            assert(end.report.issues[x] == v.report.issues[x]);
        } else if x < a + found.len() {
            assert(end.report.issues[x] == v.report.issues[x]);
            assert(v.report.issues[x] == found[x - a]);
            assert(validate_meaning::names(found, rule)) by {
                reveal(validate_meaning::names);
            }
        }
    }
}

/// Where a report has room for all issues, it holds all that were met; those of the
/// end of the input name no page.
proof fn lemma_room(data: Seq<u8>, end: Walk)
    requires
        validate::walked(data, 0, Walk::start()) == end,
        end.report.capped(),
        validate::validated(data).suppressed_issues == 0,
    ensures
        end.report.suppressed_issues == 0,
        end.report.issues.len() <= validate::validated(data).issues.len(),
        forall|x: int|
            end.report.issues.len() <= x < validate::validated(data).issues.len() ==> (
            #[trigger] validate::validated(data).issues[x]).page_index is None,
{
}

/// The elements of a set below `n`, in ascending order.
proof fn lemma_ordered_below(set: Set<u32>, n: nat) -> (s: Seq<u32>)
    requires
        n <= 0x1_0000_0000,
    ensures
        validate::strictly_ascending(s),
        forall|k: u32| #[trigger] s.contains(k) <==> set.contains(k) && k < n,
    decreases n,
{
    if n == 0 {
        Seq::empty()
    } else {
        let front = lemma_ordered_below(set, (n - 1) as nat);
        let k = (n - 1) as u32;
        assert forall|i: int| 0 <= i < front.len() implies (#[trigger] front[i]) < k by {
            assert(front.contains(front[i]));
        }
        if set.contains(k) {
            let s = front.push(k);
            assert forall|j: u32| #[trigger] s.contains(j) <==> set.contains(j) && j < n by {
                if s.contains(j) {
                    let i = choose|i: int| 0 <= i < s.len() && s[i] == j;
                    if i < front.len() {
                        assert(front[i] == j);
                        assert(front.contains(j));
                    }
                }
                if set.contains(j) && j < n {
                    if j < k {
                        assert(front.contains(j));
                        let i = choose|i: int| 0 <= i < front.len() && front[i] == j;
                        assert(s[i] == j);
                    } else {
                        assert(s[front.len() as int] == j);
                    }
                }
            }
            s
        } else {
            assert forall|j: u32| #[trigger] front.contains(j) <==> set.contains(j) && j < n by {}
            front
        }
    }
}

/// The report says that the logical bitstream `k` was never closed.
pub open spec fn tells_open(r: ReportView, k: u32) -> bool {
    exists|x: int|
        0 <= x < r.issues.len() && (#[trigger] r.issues[x]).rule == Rule::MissingEos
            && r.issues[x].serial == Some(k)
}

/// Each logical bitstream that has pages but none that ends it is told to be open,
/// whatever else is wrong, in a report that has room for all issues. One whose last
/// page ends it is not, nor one that has no page.
pub proof fn law_open_told(data: Seq<u8>, pages: Seq<PageView>, k: u32)
    requires
        framing::pages_of(data) == Ok::<Seq<PageView>, Error>(pages),
        pages.len() <= u64::MAX,
        validate::validated(data).suppressed_issues == 0,
    ensures
        ({
            let r = validate::validated(data);
            let n = pages.len() as int;
            match validate_meaning::latest(pages, n, k) {
                None => !tells_open(r, k),
                Some(j) => {
                    &&& !ended_before(pages, n, k) ==> tells_open(r, k)
                    &&& validate_meaning::last(pages[j]) ==> !tells_open(r, k)
                },
            }
        }),
{
    let r = validate::validated(data);
    let n = pages.len() as int;
    let w = lemma_kept_up(pages, n);
    reveal(placed);
    validate_meaning::lemma_latest(pages, n, k);
    assert(pages.skip(n).len() == 0);
    assert(data.skip(0) =~= data);
    validate_chain::lemma_gone(data, 0, Walk::start());
    validate_meaning::lemma_end_keeps(data, w);
    lemma_room(data, w);
    let set = validate::open_serials(w);
    let s = lemma_ordered_below(set, 0x1_0000_0000);
    assert(s.to_set() =~= set) by {
        assert forall|j: u32| s.to_set().contains(j) == set.contains(j) by {
            assert(s.contains(j) == set.contains(j));
        }
    }
    validate::lemma_in_order(s);
    let open = s.map_values(|j: u32| validate::missing_eos(data.len(), j));
    let a = w.report.issues.len() as int;
    let e = r.issues.len() - open.len();
    if set.contains(k) {
        assert(s.contains(k));
        let x = choose|x: int| 0 <= x < s.len() && s[x] == k;
        assert(open[x].rule == Rule::MissingEos);
        assert(r.issues[e + x] == open[x]);
    }
    if tells_open(r, k) {
        let x = choose|x: int|
            0 <= x < r.issues.len() && (#[trigger] r.issues[x]).rule == Rule::MissingEos
                && r.issues[x].serial == Some(k);
        if x < a {
            assert(r.issues[x] == w.report.issues[x]);
        } else if x >= e {
            assert(r.issues[x] == open[x - e]);
            assert(s[x - e] == k);
            assert(s.contains(k));
        }
        assert(set.contains(k));
    }
}

// ---------------------------------------------------------------------------
// Errors and warnings
// ---------------------------------------------------------------------------
/// A first page whose number is not 0 and a missing granule position are warnings,
/// and all else is an error.
pub open spec fn graded(i: IssueView) -> bool {
    i.severity == Severity::Warning <==> i.rule == Rule::SequenceStart || i.rule
        == Rule::MissingGranule
}

#[verifier::opaque]
spec fn all_graded(issues: Seq<IssueView>) -> bool {
    forall|x: int| 0 <= x < issues.len() ==> graded(#[trigger] issues[x])
}

broadcast proof fn lemma_graded_concat(a: Seq<IssueView>, b: Seq<IssueView>)
    requires
        all_graded(a),
        all_graded(b),
    ensures
        #[trigger] all_graded(a + b),
{
    reveal(all_graded);
    let all = a + b;
    assert forall|x: int| 0 <= x < all.len() implies graded(#[trigger] all[x]) by {
        if x < a.len() {
            assert(graded(a[x]));
        } else {
            assert(graded(b[x - a.len()]));
        }
    }
}

broadcast proof fn lemma_graded_when(cond: bool, issue: IssueView)
    requires
        graded(issue),
    ensures
        #[trigger] all_graded(validate::when(cond, issue)),
{
    reveal(all_graded);
}

proof fn lemma_graded_one(issue: IssueView)
    requires
        graded(issue),
    ensures
        all_graded(seq![issue]),
{
    reveal(all_graded);
}

proof fn lemma_graded_page(w: Walk, p: HeadView)
    ensures
        all_graded(w.page_issues(p)),
{
    broadcast use {lemma_graded_concat, lemma_graded_when};

    let n = w.report.pages;
    assert(all_graded(Seq::<IssueView>::empty())) by {
        reveal(all_graded);
    }
    if p.bos() {
        assert(all_graded(w.bos_issues(p)));
    } else if !w.live.contains_key(p.serial) {
        lemma_graded_one(
            validate::page_issue(
                n,
                p,
                Rule::MissingBos,
                "data page for a serial that never had a BOS page"@,
            ),
        );
        assert(all_graded(w.data_issues(p)));
    } else {
        lemma_graded_one(validate::hole_issue(n, p, w.live[p.serial].last_seq));
        assert(all_graded(w.data_issues(p)));
    }
}

proof fn lemma_graded_add(r: ReportView, found: Seq<IssueView>)
    requires
        all_graded(r.issues),
        all_graded(found),
    ensures
        all_graded(r.add(found).issues),
{
    lemma_graded_concat(r.issues, found);
    reveal(all_graded);
    let all = r.issues + found;
    assert forall|x: int| 0 <= x < r.add(found).issues.len() implies graded(
        #[trigger] r.add(found).issues[x],
    ) by {
        assert(graded(all[x]));
    }
}

proof fn lemma_graded_walk(data: Seq<u8>, pos: nat, w: Walk)
    requires
        all_graded(w.report.issues),
    ensures
        all_graded(validate::walked(data, pos, w).report.issues),
    decreases data.len() - pos,
{
    if pos < data.len() {
        let (after, next) = validate::step(data, pos, w);
        assert(all_graded(after.report.issues)) by {
            reveal(validate::step);
            match validate::located(data, pos) {
                Located::Page { head, next } if head.version == 0 => {
                    lemma_graded_page(w, head);
                    lemma_graded_add(w.report, w.page_issues(head));
                },
                _ => {
                    reveal(all_graded);
                },
            }
        }
        if pos < next <= data.len() {
            lemma_graded_walk(data, next, after);
        }
    }
}

/// In every report, whatever the input is, a first page whose number is not 0 and a
/// missing granule position are warnings, and all else is an error.
pub proof fn law_graded(data: Seq<u8>, x: int)
    requires
        0 <= x < validate::validated(data).issues.len(),
    ensures
        graded(validate::validated(data).issues[x]),
{
    let w = validate::walked(data, 0, Walk::start());
    assert(all_graded(Walk::start().report.issues)) by {
        reveal(all_graded);
    }
    lemma_graded_walk(data, 0, Walk::start());
    let empty = validate::when(
        data.len() == 0,
        validate::place_issue(
            0,
            Rule::Truncated,
            None,
            "empty input: a physical bitstream carries at least one page"@,
        ),
    );
    let open = validate::in_order(validate::open_serials(w)).map_values(
        |s: u32| validate::missing_eos(data.len(), s),
    );
    assert(all_graded(empty) && all_graded(open)) by {
        reveal(all_graded);
    }
    lemma_graded_add(w.report, empty);
    lemma_graded_add(w.report.add(empty), open);
    reveal(all_graded);
}

} // verus!
