//! What a report says of the pages of a physical stream.
use crate::error::Error;
use crate::framing;
use crate::page;
use crate::page::PageView;
use crate::validate;
use crate::validate::{HeadView, IssueView, ReportView, Rule, StreamModel, Walk};
use crate::validate_chain;
use crate::validate_group;
use vstd::prelude::*;

verus! {

// ---------------------------------------------------------------------------
// What a page must be
// ---------------------------------------------------------------------------
/// A page continues a packet.
pub open spec fn continued(p: PageView) -> bool {
    p.flags & 0x01 != 0
}

/// A page begins a logical bitstream.
pub open spec fn first(p: PageView) -> bool {
    p.flags & 0x02 != 0
}

/// A page ends a logical bitstream.
pub open spec fn last(p: PageView) -> bool {
    p.flags & 0x04 != 0
}

/// A packet ends on a page.
pub open spec fn finishes(p: PageView) -> bool {
    exists|i: int| 0 <= i < p.lacing.len() && #[trigger] p.lacing[i] < 255
}

/// A page leaves a packet open.
pub open spec fn leaves_open(p: PageView) -> bool {
    p.lacing.len() > 0 && p.lacing[p.lacing.len() - 1] == 255
}

/// A page says when a packet ends.
pub open spec fn stamped(p: PageView) -> bool {
    finishes(p) && p.granule_position != -1
}

/// The last of the first `n` pages that has the serial `k`.
pub open spec fn latest(pages: Seq<PageView>, n: int, k: u32) -> Option<int>
    decreases n,
{
    if n <= 0 {
        None
    } else if pages[n - 1].serial == k {
        Some(n - 1)
    } else {
        latest(pages, n - 1, k)
    }
}

/// Every logical bitstream of the first `n` pages has ended.
pub open spec fn all_ended(pages: Seq<PageView>, n: int) -> bool {
    forall|k: u32| #[trigger] latest(pages, n, k) matches Some(j) ==> last(pages[j])
}

/// Content has begun in the link of page `n`: no bitstream has begun since the
/// last page of content at a place where all that began before had ended.
pub open spec fn content_begun(pages: Seq<PageView>, n: int) -> bool
    decreases n,
{
    n > 0 && (!first(pages[n - 1]) || (content_begun(pages, n - 1) && !all_ended(pages, n - 1)))
}

/// A link begins with page `n`.
pub open spec fn link_begins(pages: Seq<PageView>, n: int) -> bool {
    first(pages[n]) && content_begun(pages, n) && all_ended(pages, n)
}

/// A link has begun behind page `j`, before page `i`.
pub open spec fn link_between(pages: Seq<PageView>, j: int, i: int) -> bool {
    exists|n: int| j < n < i && #[trigger] link_begins(pages, n)
}

/// Page `i` goes on with a logical bitstream that has begun in its link and has
/// not ended, behind page `j`.
pub open spec fn goes_on(pages: Seq<PageView>, i: int, j: int) -> bool {
    &&& !first(pages[i])
    &&& latest(pages, i, pages[i].serial) == Some(j)
    &&& !last(pages[j])
}

/// The sequence number of page `i` follows that of page `j`.
pub open spec fn numbered_next(pages: Seq<PageView>, i: int, j: int) -> bool {
    pages[i].seq_no == (pages[j].seq_no + 1) % 0x1_0000_0000
}

/// Page `i` belongs to a logical bitstream of which its link has no page.
pub open spec fn orphan(pages: Seq<PageView>, i: int) -> bool {
    &&& !first(pages[i])
    &&& match latest(pages, i, pages[i].serial) {
        None => true,
        Some(j) => last(pages[j]) && link_between(pages, j, i),
    }
}

/// What is on page `i` can be judged: no page is missing before it.
pub open spec fn judged(pages: Seq<PageView>, i: int) -> bool {
    ||| first(pages[i])
    ||| orphan(pages, i)
    ||| exists|j: int| #[trigger] goes_on(pages, i, j) && numbered_next(pages, i, j)
}

/// How far the sequence number of page `i` lies before that of page `j`.
pub open spec fn ahead(pages: Seq<PageView>, i: int, j: int) -> int {
    (pages[i].seq_no - pages[j].seq_no) % 0x1_0000_0000
}

/// Page `i` breaks `rule`.
pub open spec fn broken(pages: Seq<PageView>, i: int, rule: Rule) -> bool {
    let p = pages[i];
    let before = latest(pages, i, p.serial);
    match rule {
        Rule::ContinuedBos => first(p) && continued(p),
        Rule::SequenceStart => first(p) && p.seq_no != 0,
        Rule::DuplicateBos => first(p) && (before matches Some(j) && !last(pages[j])),
        Rule::SerialReuse => first(p) && (before matches Some(j) && last(pages[j])),
        Rule::BosNotContiguous => first(p) && (before matches Some(j) ==> last(pages[j]))
            && content_begun(pages, i) && !all_ended(pages, i),
        Rule::MissingBos => orphan(pages, i),
        Rule::PageAfterEos => !first(p) && (before matches Some(j) && last(pages[j])
            && !link_between(pages, j, i)),
        Rule::SequenceGap => exists|j: int| #[trigger]
            goes_on(pages, i, j) && 1 < ahead(pages, i, j) < 0x8000_0000,
        Rule::SequenceRegression => exists|j: int| #[trigger]
            goes_on(pages, i, j) && (ahead(pages, i, j) == 0 || ahead(pages, i, j) >= 0x8000_0000),
        Rule::ContinuedWithoutPartial => exists|j: int| #[trigger]
            goes_on(pages, i, j) && numbered_next(pages, i, j) && continued(p) && !leaves_open(
                pages[j],
            ),
        Rule::PartialNotContinued => exists|j: int| #[trigger]
            goes_on(pages, i, j) && numbered_next(pages, i, j) && !continued(p) && leaves_open(
                pages[j],
            ),
        Rule::SpuriousGranule => judged(pages, i) && p.lacing.len() > 0 && !finishes(p)
            && p.granule_position != -1,
        Rule::MissingGranule => judged(pages, i) && finishes(p) && p.granule_position == -1,
        Rule::GranuleRegression => stamped(p) && (exists|j: int| #[trigger]
            goes_on(pages, i, j) && numbered_next(pages, i, j)) && exists|j: int|
            0 <= j < i && (#[trigger] pages[j]).serial == p.serial && stamped(pages[j])
                && pages[j].granule_position > p.granule_position,
        Rule::EosMidPacket => judged(pages, i) && last(p) && leaves_open(p),
        Rule::MissingEos | Rule::CapturePattern | Rule::Version | Rule::Truncated
        | Rule::CrcMismatch => false,
    }
}

/// Page `i` breaks no rule.
pub open spec fn sound(pages: Seq<PageView>, i: int) -> bool {
    forall|rule: Rule| !#[trigger] broken(pages, i, rule)
}

/// The first `n` pages break no rule.
pub open spec fn all_sound(pages: Seq<PageView>, n: int) -> bool {
    forall|i: int| 0 <= i < n ==> #[trigger] sound(pages, i)
}

/// Where page `i` begins.
pub open spec fn begins(pages: Seq<PageView>, i: int) -> nat
    decreases i,
{
    if i <= 0 {
        0
    } else {
        begins(pages, i - 1) + pages[i - 1].encoded_len()
    }
}

// ---------------------------------------------------------------------------
// Which rules issues name
// ---------------------------------------------------------------------------
/// Some issue names `rule`.
#[verifier::opaque]
pub open spec fn names(issues: Seq<IssueView>, rule: Rule) -> bool {
    exists|i: int| 0 <= i < issues.len() && (#[trigger] issues[i]).rule == rule
}

pub broadcast proof fn lemma_names_concat(a: Seq<IssueView>, b: Seq<IssueView>, rule: Rule)
    ensures
        #[trigger] names(a + b, rule) == (names(a, rule) || names(b, rule)),
{
    reveal(names);
    let all = a + b;
    if names(a, rule) {
        let i = choose|i: int| 0 <= i < a.len() && (#[trigger] a[i]).rule == rule;
        assert(all[i].rule == rule);
    }
    if names(b, rule) {
        let i = choose|i: int| 0 <= i < b.len() && (#[trigger] b[i]).rule == rule;
        assert(all[a.len() + i].rule == rule);
    }
    if names(all, rule) {
        let i = choose|i: int| 0 <= i < all.len() && (#[trigger] all[i]).rule == rule;
        if i < a.len() {
            assert(a[i].rule == rule);
        } else {
            assert(b[i - a.len()].rule == rule);
        }
    }
}

pub broadcast proof fn lemma_names_when(cond: bool, issue: IssueView, rule: Rule)
    ensures
        #[trigger] names(validate::when(cond, issue), rule) == (cond && issue.rule == rule),
{
    reveal(names);
    if cond {
        assert(validate::when(cond, issue)[0] == issue);
    }
}

pub proof fn lemma_names_one(issue: IssueView, rule: Rule)
    ensures
        names(seq![issue], rule) == (issue.rule == rule),
{
    reveal(names);
    assert(seq![issue][0] == issue);
}

pub proof fn lemma_names_none(issues: Seq<IssueView>)
    ensures
        issues.len() == 0 <==> forall|rule: Rule| !#[trigger] names(issues, rule),
{
    reveal(names);
    if issues.len() > 0 {
        assert(names(issues, issues[0].rule));
    }
}

pub proof fn lemma_tail_names(index: nat, p: HeadView, previous: Option<i64>, rule: Rule)
    ensures
        names(validate::tail_issues(index, p, previous), rule) == match rule {
            Rule::SpuriousGranule => p.lacing.len() > 0 && p.ended() == 0 && p.granule != -1,
            Rule::MissingGranule => p.ended() > 0 && p.granule == -1,
            Rule::GranuleRegression => p.ended() > 0 && p.granule != -1 && previous is Some
                && p.granule < previous->Some_0,
            Rule::EosMidPacket => p.eos() && p.open(),
            _ => false,
        },
{
    broadcast use {lemma_names_concat, lemma_names_when};

}

pub proof fn lemma_bos_names(w: Walk, p: HeadView, rule: Rule)
    ensures
        names(w.bos_issues(p), rule) == match rule {
            Rule::ContinuedBos => p.continued(),
            Rule::SequenceStart => p.seq_no != 0,
            Rule::DuplicateBos => w.duplicate(p),
            Rule::SerialReuse => !w.duplicate(p) && (w.finished.contains(p.serial)
                || w.live.contains_key(p.serial)),
            Rule::BosNotContiguous => !w.duplicate(p) && w.link_has_data && !w.all_closed(),
            _ => names(validate::tail_issues(w.report.pages, p, None), rule),
        },
{
    broadcast use {lemma_names_concat, lemma_names_when};

    lemma_tail_names(w.report.pages, p, None, rule);
}

pub proof fn lemma_data_names(w: Walk, p: HeadView, rule: Rule)
    requires
        w.live.contains_key(p.serial) ==> !w.live[p.serial].tainted
            && !w.live[p.serial].after_eos_reported,
    ensures
        names(w.data_issues(p), rule) == if !w.live.contains_key(p.serial) {
            rule == Rule::MissingBos || names(
                validate::tail_issues(w.report.pages, p, None),
                rule,
            )
        } else {
            let m = w.live[p.serial];
            let far = (p.seq_no - m.last_seq) % 0x1_0000_0000;
            if m.eos {
                rule == Rule::PageAfterEos
            } else if far != 1 {
                rule == if 0 < far < 0x8000_0000 {
                    Rule::SequenceGap
                } else {
                    Rule::SequenceRegression
                }
            } else {
                match rule {
                    Rule::ContinuedWithoutPartial => p.continued() && !m.open_packet,
                    Rule::PartialNotContinued => !p.continued() && m.open_packet,
                    _ => names(
                        validate::tail_issues(w.report.pages, p, m.last_granule),
                        rule,
                    ),
                }
            }
        },
{
    broadcast use {lemma_names_concat, lemma_names_when};

    let n = w.report.pages;
    if !w.live.contains_key(p.serial) {
        lemma_tail_names(n, p, None, rule);
        lemma_names_one(
            validate::page_issue(
                n,
                p,
                Rule::MissingBos,
                "data page for a serial that never had a BOS page"@,
            ),
            rule,
        );
    } else {
        let m = w.live[p.serial];
        lemma_tail_names(n, p, m.last_granule, rule);
        lemma_names_one(validate::hole_issue(n, p, m.last_seq), rule);
    }
}

// ---------------------------------------------------------------------------
// What the walk knows of the pages behind it
// ---------------------------------------------------------------------------
/// `g` is the greatest granule position of the pages of `k` that bear one.
spec fn greatest(pages: Seq<PageView>, n: int, k: u32, g: Option<i64>) -> bool {
    &&& forall|j: int|
        0 <= j < n && (#[trigger] pages[j]).serial == k && stamped(pages[j]) ==> g is Some
            && pages[j].granule_position <= g->Some_0
    &&& g matches Some(v) ==> exists|j: int|
        0 <= j < n && (#[trigger] pages[j]).serial == k && stamped(pages[j])
            && pages[j].granule_position == v
}

/// What is known of the logical bitstream `k` is what its last page says.
spec fn known_well(pages: Seq<PageView>, n: int, k: u32, m: StreamModel) -> bool {
    &&& latest(pages, n, k) matches Some(j) && {
        &&& m.last_seq == pages[j].seq_no
        &&& m.open_packet == leaves_open(pages[j])
        &&& m.eos == last(pages[j])
        &&& !link_between(pages, j, n)
    }
    &&& !m.tainted
    &&& !m.after_eos_reported
    &&& greatest(pages, n, k, m.last_granule)
}

/// The walk `w` stands behind the first `n` pages.
spec fn stands(pages: Seq<PageView>, n: int, w: Walk) -> bool {
    &&& forall|k: u32| #[trigger]
        w.live.contains_key(k) ==> known_well(pages, n, k, w.live[k])
    &&& forall|k: u32|
        (#[trigger] latest(pages, n, k) matches Some(j) && !w.live.contains_key(k)) ==> {
            let j = latest(pages, n, k)->Some_0;
            last(pages[j]) && w.finished.contains(k) && link_between(pages, j, n)
        }
    &&& forall|k: u32| #[trigger] w.finished.contains(k) ==> latest(pages, n, k) is Some
    &&& w.link_has_data == content_begun(pages, n)
    &&& w.report.pages == n
    &&& w.report.streams == cut_off(streams_among(pages, n))
    &&& w.report.links == cut_off(links_among(pages, n))
    &&& w.report.junk_bytes == 0
    &&& w.report.clean()
    &&& w.report.capped()
}

/// The number of logical bitstreams that begin among the first `n` pages.
pub open spec fn streams_among(pages: Seq<PageView>, n: int) -> nat
    decreases n,
{
    if n <= 0 {
        0
    } else {
        streams_among(pages, n - 1) + if first(pages[n - 1]) {
            1nat
        } else {
            0
        }
    }
}

/// The number of links that begin among the first `n` pages: one with the first
/// page, and one wherever a link begins behind it.
pub open spec fn links_among(pages: Seq<PageView>, n: int) -> nat
    decreases n,
{
    if n <= 0 {
        0
    } else {
        links_among(pages, n - 1) + if n == 1 || link_begins(pages, n - 1) {
            1nat
        } else {
            0
        }
    }
}

/// `n`, cut off at the end of the range.
pub open spec fn cut_off(n: nat) -> u32 {
    if n > u32::MAX {
        u32::MAX
    } else {
        n as u32
    }
}

pub proof fn lemma_latest(pages: Seq<PageView>, n: int, k: u32)
    requires
        0 <= n <= pages.len(),
    ensures
        match latest(pages, n, k) {
            Some(j) => 0 <= j < n && pages[j].serial == k && forall|m: int|
                j < m < n ==> (#[trigger] pages[m]).serial != k,
            None => forall|m: int| 0 <= m < n ==> (#[trigger] pages[m]).serial != k,
        },
    decreases n,
{
    if n > 0 && pages[n - 1].serial != k {
        lemma_latest(pages, n - 1, k);
    }
}

proof fn lemma_ended(lacing: Seq<u8>)
    ensures
        page::packets_ended(lacing) > 0 <==> exists|i: int|
            0 <= i < lacing.len() && #[trigger] lacing[i] < 255,
    decreases lacing.len(),
{
    if lacing.len() > 0 {
        let front = lacing.drop_last();
        lemma_ended(front);
        if exists|i: int| 0 <= i < front.len() && #[trigger] front[i] < 255 {
            let i = choose|i: int| 0 <= i < front.len() && #[trigger] front[i] < 255;
            assert(lacing[i] < 255);
        }
        if exists|i: int| 0 <= i < lacing.len() && #[trigger] lacing[i] < 255 {
            let i = choose|i: int| 0 <= i < lacing.len() && #[trigger] lacing[i] < 255;
            if i < front.len() {
                assert(front[i] < 255);
            }
        }
        assert(lacing[lacing.len() - 1] == lacing.last());
    }
}

/// What the validator sees of a page is what the page says.
pub proof fn lemma_head(p: PageView, offset: nat)
    ensures
        ({
            let h = validate_chain::head_of(p, offset);
            &&& h.bos() == first(p)
            &&& h.eos() == last(p)
            &&& h.continued() == continued(p)
            &&& (h.ended() > 0) == finishes(p)
            &&& h.open() == leaves_open(p)
        }),
{
    lemma_ended(p.lacing);
}

proof fn lemma_closed(pages: Seq<PageView>, n: int, w: Walk)
    requires
        stands(pages, n, w),
        0 <= n <= pages.len(),
    ensures
        w.all_closed() == all_ended(pages, n),
{
    if w.all_closed() {
        assert forall|k: u32| (#[trigger] latest(pages, n, k) matches Some(j)) implies last(
            pages[latest(pages, n, k)->Some_0],
        ) by {
            if w.live.contains_key(k) {
                assert(known_well(pages, n, k, w.live[k]));
            }
        }
    }
    if all_ended(pages, n) {
        assert forall|k: u32| #[trigger] w.live.contains_key(k) implies w.live[k].eos by {
            assert(known_well(pages, n, k, w.live[k]));
            assert(latest(pages, n, k) is Some);
        }
    }
}

/// The validator names exactly the rules that a page breaks.
proof fn lemma_judged(pages: Seq<PageView>, n: int, w: Walk, offset: nat, rule: Rule)
    requires
        stands(pages, n, w),
        0 <= n < pages.len(),
    ensures
        names(w.page_issues(validate_chain::head_of(pages[n], offset)), rule) == broken(
            pages,
            n,
            rule,
        ),
{
    let p = pages[n];
    let h = validate_chain::head_of(p, offset);
    let k = p.serial;
    lemma_head(p, offset);
    lemma_latest(pages, n, k);
    lemma_closed(pages, n, w);
    let before = latest(pages, n, k);
    if w.live.contains_key(k) {
        assert(known_well(pages, n, k, w.live[k]));
    }
    if w.finished.contains(k) {
        assert(before is Some);
    }
    if first(p) {
        lemma_bos_names(w, h, rule);
        lemma_tail_names(w.report.pages, h, None, rule);
        assert forall|j: int| !goes_on(pages, n, j) by {}
        assert(judged(pages, n));
    } else {
        lemma_data_names(w, h, rule);
        if !w.live.contains_key(k) {
            lemma_tail_names(w.report.pages, h, None, rule);
            assert(orphan(pages, n));
            assert forall|j: int| !goes_on(pages, n, j) by {}
        } else {
            let m = w.live[k];
            let j = before->Some_0;
            assert(!orphan(pages, n));
            if m.eos {
                assert forall|j: int| !goes_on(pages, n, j) by {}
                assert(!judged(pages, n));
            } else {
                assert(goes_on(pages, n, j));
                assert forall|i: int| #[trigger] goes_on(pages, n, i) implies i == j by {}
                let far = ahead(pages, n, j);
                assert(far == 1 <==> numbered_next(pages, n, j));
                lemma_tail_names(w.report.pages, h, m.last_granule, rule);
                if far != 1 {
                    assert(!judged(pages, n));
                } else {
                    assert(judged(pages, n));
                    lemma_regression(pages, n, k, m.last_granule, p.granule_position);
                }
            }
        }
    }
}

proof fn lemma_regression(pages: Seq<PageView>, n: int, k: u32, g: Option<i64>, v: i64)
    requires
        greatest(pages, n, k, g),
    ensures
        (g is Some && v < g->Some_0) == exists|j: int|
            0 <= j < n && (#[trigger] pages[j]).serial == k && stamped(pages[j])
                && pages[j].granule_position > v,
{
    if g is Some && v < g->Some_0 {
        let j = choose|j: int|
            0 <= j < n && (#[trigger] pages[j]).serial == k && stamped(pages[j])
                && pages[j].granule_position == g->Some_0;
        assert(pages[j].granule_position > v);
    }
}

/// A page that breaks no rule is taken over.
proof fn lemma_stands_on(pages: Seq<PageView>, n: int, w: Walk, offset: nat)
    requires
        stands(pages, n, w),
        0 <= n < pages.len(),
        sound(pages, n),
    ensures
        stands(pages, n + 1, w.after_page(validate_chain::head_of(pages[n], offset))),
{
    let p = pages[n];
    let h = validate_chain::head_of(p, offset);
    let v = w.after_page(h);
    let k = p.serial;
    lemma_head(p, offset);
    lemma_latest(pages, n, k);
    lemma_closed(pages, n, w);
    assert forall|rule: Rule| !#[trigger] names(w.page_issues(h), rule) by {
        lemma_judged(pages, n, w, offset, rule);
        assert(!broken(pages, n, rule));
    }
    lemma_names_none(w.page_issues(h));
    validate_chain::lemma_page_adds(w, h);
    assert(v.report.clean());
    assert(!broken(pages, n, Rule::DuplicateBos));
    assert(!broken(pages, n, Rule::SerialReuse));
    assert(!broken(pages, n, Rule::MissingBos));
    assert(!broken(pages, n, Rule::PageAfterEos));
    let link = first(p) && w.opens_link(h);
    if w.live.contains_key(k) {
        assert(known_well(pages, n, k, w.live[k]));
    }
    if w.finished.contains(k) {
        assert(latest(pages, n, k) is Some);
    }
    assert(link == link_begins(pages, n));
    assert forall|l: u32| #[trigger] latest(pages, n + 1, l) == if l == k {
        Some(n)
    } else {
        latest(pages, n, l)
    } by {}
    assert forall|j: int| 0 <= j < n implies #[trigger] link_between(pages, j, n + 1) == (
    link_between(pages, j, n) || link) by {
        if link {
            assert(link_begins(pages, n));
        }
        if link_between(pages, j, n) {
            let i = choose|i: int| j < i < n && #[trigger] link_begins(pages, i);
            assert(link_begins(pages, i));
        }
    }
    assert forall|l: u32| #[trigger] v.live.contains_key(l) implies known_well(
        pages,
        n + 1,
        l,
        v.live[l],
    ) by {
        if l == k {
            lemma_own(pages, n, w, offset);
        } else {
            assert(w.live.contains_key(l) && !link);
            assert(known_well(pages, n, l, w.live[l]));
            lemma_latest(pages, n, l);
            lemma_greatest_other(pages, n, l, w.live[l].last_granule);
            let j = latest(pages, n, l)->Some_0;
            assert(link_between(pages, j, n + 1) == (link_between(pages, j, n) || link));
        }
    }
    assert forall|l: u32|
        (#[trigger] latest(pages, n + 1, l) matches Some(j)
            && !v.live.contains_key(l)) implies {
        let j = latest(pages, n + 1, l)->Some_0;
        last(pages[j]) && v.finished.contains(l) && link_between(pages, j, n + 1)
    } by {
        assert(l != k);
        lemma_latest(pages, n, l);
        let j = latest(pages, n, l)->Some_0;
        assert(link_between(pages, j, n + 1) == (link_between(pages, j, n) || link));
        if w.live.contains_key(l) {
            assert(link);
            assert(known_well(pages, n, l, w.live[l]));
            assert(all_ended(pages, n));
        }
    }
    assert forall|l: u32| #[trigger] v.finished.contains(l) implies latest(
        pages,
        n + 1,
        l,
    ) is Some by {
        if w.live.contains_key(l) {
            assert(known_well(pages, n, l, w.live[l]));
        }
    }
    assert(v.link_has_data == content_begun(pages, n + 1));
}

proof fn lemma_greatest_other(pages: Seq<PageView>, n: int, l: u32, g: Option<i64>)
    requires
        0 <= n < pages.len(),
        greatest(pages, n, l, g),
        pages[n].serial != l,
    ensures
        greatest(pages, n + 1, l, g),
{
    if let Some(v) = g {
        let j = choose|j: int|
            0 <= j < n && (#[trigger] pages[j]).serial == l && stamped(pages[j])
                && pages[j].granule_position == v;
        assert(pages[j].serial == l);
    }
}

/// What is known of the bitstream of the page that was taken over.
proof fn lemma_own(pages: Seq<PageView>, n: int, w: Walk, offset: nat)
    requires
        stands(pages, n, w),
        0 <= n < pages.len(),
        sound(pages, n),
    ensures
        ({
            let h = validate_chain::head_of(pages[n], offset);
            known_well(pages, n + 1, pages[n].serial, w.after_page(h).live[pages[n].serial])
        }),
{
    let p = pages[n];
    let h = validate_chain::head_of(p, offset);
    let k = p.serial;
    let m = w.after_page(h).live[k];
    lemma_head(p, offset);
    lemma_latest(pages, n, k);
    assert(!broken(pages, n, Rule::DuplicateBos));
    assert(!broken(pages, n, Rule::SerialReuse));
    assert(!broken(pages, n, Rule::MissingBos));
    assert(!broken(pages, n, Rule::PageAfterEos));
    assert(!broken(pages, n, Rule::GranuleRegression));
    assert(!broken(pages, n, Rule::SequenceGap));
    assert(!broken(pages, n, Rule::SequenceRegression));
    assert(latest(pages, n + 1, k) == Some(n));
    if first(p) {
        assert(latest(pages, n, k) is None);
        assert(m == validate::model_after(validate::fresh_model(p.seq_no), h));
    } else {
        assert(w.live.contains_key(k)) by {
            if !w.live.contains_key(k) {
                assert(orphan(pages, n));
            }
        }
        let o = w.live[k];
        assert(known_well(pages, n, k, o));
        let j = latest(pages, n, k)->Some_0;
        assert(!o.eos);
        assert(m == validate::model_after(o, h));
        assert(goes_on(pages, n, j));
        assert(numbered_next(pages, n, j)) by {
            assert(ahead(pages, n, j) == 1);
        }
        lemma_regression(pages, n, k, o.last_granule, p.granule_position);
        if let Some(v) = o.last_granule {
            let x = choose|x: int|
                0 <= x < n && (#[trigger] pages[x]).serial == k && stamped(pages[x])
                    && pages[x].granule_position == v;
            assert(pages[x].serial == k);
        }
    }
    if stamped(p) {
        assert(pages[n].serial == k);
    }
}

proof fn lemma_stands(pages: Seq<PageView>, n: int) -> (w: Walk)
    requires
        0 <= n <= pages.len(),
        all_sound(pages, n),
    ensures
        stands(pages, n, w),
        validate_chain::gone(pages, 0, Walk::start()) == validate_chain::gone(
            pages.skip(n),
            begins(pages, n),
            w,
        ),
    decreases n,
{
    if n == 0 {
        assert(pages.skip(0) =~= pages);
        Walk::start()
    } else {
        let w = lemma_stands(pages, n - 1);
        assert(sound(pages, n - 1));
        lemma_stands_on(pages, n - 1, w, begins(pages, n - 1));
        assert(pages.skip(n - 1).skip(1) =~= pages.skip(n));
        assert(pages.skip(n - 1)[0] == pages[n - 1]);
        w.after_page(validate_chain::head_of(pages[n - 1], begins(pages, n - 1)))
    }
}

/// What stands behind a page has no part in which rules it breaks.
pub proof fn lemma_sound_prefix(pages: Seq<PageView>, some: Seq<PageView>, i: int)
    requires
        0 <= i < some.len() <= pages.len(),
        some == pages.take(some.len() as int),
        sound(pages, i),
    ensures
        sound(some, i),
{
    assert forall|j: int| 0 <= j < some.len() implies some[j] == pages[j] by {}
    lemma_prefix(pages, some, i);
    let k = pages[i].serial;
    assert(latest(some, i, k) == latest(pages, i, k));
    lemma_latest(pages, i, k);
    assert forall|n: int| 0 <= n <= i implies #[trigger] link_begins(some, n) == link_begins(
        pages,
        n,
    ) by {
        lemma_prefix(pages, some, n);
    }
    assert forall|j: int| 0 <= j < i implies #[trigger] link_between(some, j, i)
        == link_between(pages, j, i) by {
        if link_between(some, j, i) {
            let n = choose|n: int| j < n < i && #[trigger] link_begins(some, n);
            assert(link_begins(pages, n));
        }
        if link_between(pages, j, i) {
            let n = choose|n: int| j < n < i && #[trigger] link_begins(pages, n);
            assert(link_begins(some, n));
        }
    }
    assert forall|j: int| #[trigger] goes_on(some, i, j) == goes_on(pages, i, j) by {}
    assert(orphan(some, i) == orphan(pages, i));
    assert(judged(some, i) == judged(pages, i)) by {
        if exists|j: int| #[trigger] goes_on(pages, i, j) && numbered_next(pages, i, j) {
            let j = choose|j: int| #[trigger]
                goes_on(pages, i, j) && numbered_next(pages, i, j);
            assert(goes_on(some, i, j) && numbered_next(some, i, j));
        }
        if exists|j: int| #[trigger] goes_on(some, i, j) && numbered_next(some, i, j) {
            let j = choose|j: int| #[trigger] goes_on(some, i, j) && numbered_next(some, i, j);
            assert(goes_on(pages, i, j) && numbered_next(pages, i, j));
        }
    }
    assert forall|rule: Rule| !#[trigger] broken(some, i, rule) by {
        assert(!broken(pages, i, rule));
        match latest(pages, i, k) {
            Some(j) => {
                assert(goes_on(some, i, j) == goes_on(pages, i, j));
                assert(numbered_next(some, i, j) == numbered_next(pages, i, j));
                assert(ahead(some, i, j) == ahead(pages, i, j));
            },
            None => {},
        }
        if rule == Rule::GranuleRegression && broken(some, i, rule) {
            let j = choose|j: int|
                0 <= j < i && (#[trigger] some[j]).serial == some[i].serial && stamped(some[j])
                    && some[j].granule_position > some[i].granule_position;
            assert(pages[j].serial == pages[i].serial);
            let x = choose|x: int| #[trigger] goes_on(some, i, x) && numbered_next(some, i, x);
            assert(goes_on(pages, i, x) && numbered_next(pages, i, x));
            assert(broken(pages, i, rule));
        }
    }
}

proof fn lemma_prefix(pages: Seq<PageView>, some: Seq<PageView>, n: int)
    requires
        0 <= n <= some.len() <= pages.len(),
        forall|j: int| 0 <= j < some.len() ==> some[j] == #[trigger] pages[j],
    ensures
        forall|k: u32| #[trigger] latest(some, n, k) == latest(pages, n, k),
        content_begun(some, n) == content_begun(pages, n),
        all_ended(some, n) == all_ended(pages, n),
    decreases n,
{
    if n > 0 {
        lemma_prefix(pages, some, n - 1);
        assert(some[n - 1] == pages[n - 1]);
    }
    assert forall|k: u32| #[trigger] latest(some, n, k) == latest(pages, n, k) by {
        if n > 0 {
            assert(latest(some, n - 1, k) == latest(pages, n - 1, k));
        }
    }
    assert(all_ended(some, n) == all_ended(pages, n)) by {
        if all_ended(some, n) {
            assert forall|k: u32| (#[trigger] latest(pages, n, k) matches Some(j)) implies last(
                pages[latest(pages, n, k)->Some_0],
            ) by {
                assert(latest(some, n, k) == latest(pages, n, k));
                lemma_latest(some, n, k);
            }
        }
        if all_ended(pages, n) {
            assert forall|k: u32| (#[trigger] latest(some, n, k) matches Some(j)) implies last(
                some[latest(some, n, k)->Some_0],
            ) by {
                assert(latest(some, n, k) == latest(pages, n, k));
                lemma_latest(some, n, k);
            }
        }
    }
}

/// Pages that break no rule are walked through without an issue.
pub proof fn lemma_sound_walk(pages: Seq<PageView>) -> (w: Walk)
    requires
        all_sound(pages, pages.len() as int),
    ensures
        w == validate_chain::gone(pages, 0, Walk::start()),
        w.report.clean(),
        w.report.capped(),
        w.report.pages == pages.len(),
        w.all_closed() == all_ended(pages, pages.len() as int),
{
    let n = pages.len() as int;
    let w = lemma_stands(pages, n);
    assert(pages.skip(n).len() == 0);
    lemma_closed(pages, n, w);
    w
}

// ---------------------------------------------------------------------------
// What a report means
// ---------------------------------------------------------------------------
/// A report names `rule` for page `i`.
pub open spec fn told(r: ReportView, pages: Seq<PageView>, i: int, rule: Rule) -> bool {
    exists|x: int|
        0 <= x < r.issues.len() && (#[trigger] r.issues[x]).rule == rule && r.issues[x].byte_offset
            == begins(pages, i) as u64 && r.issues[x].page_index == Some(i as u64)
            && r.issues[x].serial == Some(pages[i].serial)
}

/// The first page that breaks rules is told with each rule that it breaks,
/// whatever follows it.
pub proof fn law_first_fault(data: Seq<u8>, pages: Seq<PageView>, i: int, rule: Rule)
    requires
        framing::pages_of(data) == Ok::<Seq<PageView>, Error>(pages),
        0 <= i < pages.len(),
        all_sound(pages, i),
        broken(pages, i, rule),
    ensures
        told(validate::validated(data), pages, i, rule),
{
    let w = lemma_stands(pages, i);
    let at = begins(pages, i);
    let h = validate_chain::head_of(pages[i], at);
    lemma_judged(pages, i, w, at, rule);
    let found = w.page_issues(h);
    assert(exists|x: int| 0 <= x < found.len() && (#[trigger] found[x]).rule == rule) by {
        reveal(names);
    }
    let x = choose|x: int| 0 <= x < found.len() && (#[trigger] found[x]).rule == rule;
    lemma_page_few(w, h);
    validate_chain::lemma_page_adds(w, h);
    let after = w.after_page(h);
    assert(after.report.issues[x] == found[x - w.report.issues.len()]);
    let rest = pages.skip(i);
    assert(rest[0] == pages[i]);
    validate_chain::lemma_clean_first(rest.skip(1), at + pages[i].encoded_len(), after);
    let end = validate_chain::gone(pages, 0, Walk::start());
    assert(end.report.issues[x] == found[x]);
    assert(data.skip(0) =~= data);
    validate_chain::lemma_gone(data, 0, Walk::start());
    assert(validate::validated(data).issues[x] == found[x]) by {
        lemma_end_keeps(data, end);
    }
}

/// The issues of a page name the page, and there are few of them.
pub proof fn lemma_page_few(w: Walk, p: HeadView)
    ensures
        w.page_issues(p).len() <= 9,
        forall|x: int|
            0 <= x < w.page_issues(p).len() ==> (#[trigger] w.page_issues(p)[x]).byte_offset
                == p.offset as u64 && w.page_issues(p)[x].page_index == Some(
                w.report.pages as u64,
            ) && w.page_issues(p)[x].serial == Some(p.serial),
{
    broadcast use {lemma_bound_concat, lemma_bound_when};

    let n = w.report.pages;
    assert(bound(Seq::empty(), n, p)) by {
        reveal(bound);
    }
    if p.bos() {
        assert(bound(w.bos_issues(p), n, p));
    } else if !w.live.contains_key(p.serial) {
        lemma_bound_one(
            validate::page_issue(
                n,
                p,
                Rule::MissingBos,
                "data page for a serial that never had a BOS page"@,
            ),
            n,
            p,
        );
        assert(bound(w.data_issues(p), n, p));
    } else {
        lemma_bound_one(validate::hole_issue(n, p, w.live[p.serial].last_seq), n, p);
        assert(bound(w.data_issues(p), n, p));
    }
    reveal(bound);
}

/// All issues are tied to the page `p`, the accepted page number `n`.
#[verifier::opaque]
spec fn bound(issues: Seq<IssueView>, n: nat, p: HeadView) -> bool {
    forall|x: int|
        0 <= x < issues.len() ==> (#[trigger] issues[x]).byte_offset == p.offset as u64
            && issues[x].page_index == Some(n as u64) && issues[x].serial == Some(p.serial)
}

broadcast proof fn lemma_bound_concat(
    a: Seq<IssueView>,
    b: Seq<IssueView>,
    n: nat,
    p: HeadView,
)
    requires
        bound(a, n, p),
        bound(b, n, p),
    ensures
        #[trigger] bound(a + b, n, p),
{
    reveal(bound);
    let all = a + b;
    assert forall|x: int| 0 <= x < all.len() implies (#[trigger] all[x]).byte_offset
        == p.offset as u64 && all[x].page_index == Some(n as u64) && all[x].serial == Some(
        p.serial,
    ) by {
        if x < a.len() {
            assert(a[x].byte_offset == p.offset as u64);
        } else {
            assert(b[x - a.len()].byte_offset == p.offset as u64);
        }
    }
}

broadcast proof fn lemma_bound_when(cond: bool, issue: IssueView, n: nat, p: HeadView)
    requires
        issue.byte_offset == p.offset as u64,
        issue.page_index == Some(n as u64),
        issue.serial == Some(p.serial),
    ensures
        #[trigger] bound(validate::when(cond, issue), n, p),
{
    reveal(bound);
}

proof fn lemma_bound_one(issue: IssueView, n: nat, p: HeadView)
    requires
        issue.byte_offset == p.offset as u64,
        issue.page_index == Some(n as u64),
        issue.serial == Some(p.serial),
    ensures
        bound(seq![issue], n, p),
{
    reveal(bound);
}

/// The end of the input takes back no issue.
pub proof fn lemma_end_keeps(data: Seq<u8>, w: Walk)
    requires
        validate::walked(data, 0, Walk::start()) == w,
        w.report.capped(),
    ensures
        forall|x: int|
            0 <= x < w.report.issues.len() ==> x < validate::validated(data).issues.len()
                && #[trigger] validate::validated(data).issues[x] == w.report.issues[x],
{
}

/// A report is clean exactly where the input is made of pages, and at least one;
/// no page breaks a rule; and every logical bitstream has ended.
pub proof fn law_clean_means(data: Seq<u8>)
    ensures
        validate::validated(data).clean() <==> (framing::pages_of(data) matches Ok(pages) && {
            &&& pages.len() > 0
            &&& all_sound(pages, pages.len() as int)
            &&& all_ended(pages, pages.len() as int)
        }),
{
    assert(data.skip(0) =~= data);
    if validate::validated(data).clean() {
        let pages = validate_chain::lemma_clean_walk(data);
        let end = validate_chain::gone(pages, 0, Walk::start());
        lemma_clean_sound(pages, pages.len() as int);
        let w = lemma_stands(pages, pages.len() as int);
        assert(pages.skip(pages.len() as int).len() == 0);
        assert(w == end);
        lemma_closed(pages, pages.len() as int, w);
    }
    if let Ok(pages) = framing::pages_of(data) {
        let n = pages.len() as int;
        if n > 0 && all_sound(pages, n) && all_ended(pages, n) {
            let w = lemma_stands(pages, n);
            assert(pages.skip(n).len() == 0);
            lemma_closed(pages, n, w);
            validate_chain::lemma_gone(data, 0, Walk::start());
            validate_group::lemma_clean_end(data, w);
            assert(data.len() > 0);
        }
    }
}

/// A clean walk met no page that breaks a rule.
proof fn lemma_clean_sound(pages: Seq<PageView>, n: int)
    requires
        0 <= n <= pages.len(),
        validate_chain::gone(pages, 0, Walk::start()).report.clean(),
    ensures
        all_sound(pages, n),
    decreases n,
{
    if n > 0 {
        lemma_clean_sound(pages, n - 1);
        let w = lemma_stands(pages, n - 1);
        let at = begins(pages, n - 1);
        let rest = pages.skip(n - 1);
        assert(rest[0] == pages[n - 1]);
        validate_chain::lemma_clean_first(rest, at, w);
        let found = w.page_issues(validate_chain::head_of(pages[n - 1], at));
        assert(found.len() == 0);
        lemma_names_none(found);
        assert forall|rule: Rule| !#[trigger] broken(pages, n - 1, rule) by {
            lemma_judged(pages, n - 1, w, at, rule);
        }
        assert(sound(pages, n - 1));
    }
}

/// Where all pages before it break no rule, a page is told with no rule that it
/// does not break.
pub proof fn law_no_false_alarm(data: Seq<u8>, pages: Seq<PageView>, rule: Rule)
    requires
        framing::pages_of(data) == Ok::<Seq<PageView>, Error>(pages),
        pages.len() > 0,
        all_sound(pages, pages.len() - 1),
        rule != Rule::MissingEos,
        validate_chain::reports(validate::validated(data), rule),
    ensures
        broken(pages, pages.len() - 1, rule),
{
    let n = pages.len() - 1;
    let w = lemma_stands(pages, n);
    let at = begins(pages, n);
    let h = validate_chain::head_of(pages[n], at);
    lemma_judged(pages, n, w, at, rule);
    let found = w.page_issues(h);
    lemma_page_few(w, h);
    validate_chain::lemma_page_adds(w, h);
    let end = w.after_page(h);
    assert(pages.skip(n)[0] == pages[n]);
    assert(pages.skip(n).skip(1).len() == 0);
    assert(validate_chain::gone(pages.skip(n), at, w) == end) by {
        reveal_with_fuel(validate_chain::gone, 2);
    }
    assert(data.skip(0) =~= data);
    validate_chain::lemma_gone(data, 0, Walk::start());
    assert(validate::walked(data, 0, Walk::start()) == end);
    assert(data.len() > 0);
    let r = validate::validated(data);
    let x = choose|x: int| 0 <= x < r.issues.len() && (#[trigger] r.issues[x]).rule == rule;
    assert(w.report.issues.len() == 0);
    assert(end.report.issues =~= found) by {
        assert(w.report.issues + found =~= found);
    }
    if x < found.len() {
        assert(r.issues[x] == found[x]) by {
            lemma_end_keeps(data, end);
        }
        assert(names(found, rule)) by {
            reveal(names);
            assert(found[x].rule == rule);
        }
    } else {
        let open = validate::in_order(validate::open_serials(end)).map_values(
            |s: u32| validate::missing_eos(data.len(), s),
        );
        assert(r.issues[x] == open[x - found.len()]);
    }
}

/// A clean report counts the pages, the logical bitstreams that begin and the
/// links that begin, and no junk.
pub proof fn law_clean_counts(data: Seq<u8>, pages: Seq<PageView>)
    requires
        validate::validated(data).clean(),
        framing::pages_of(data) == Ok::<Seq<PageView>, Error>(pages),
    ensures
        ({
            let n = pages.len() as int;
            let r = validate::validated(data);
            &&& r.pages == n
            &&& r.streams == cut_off(streams_among(pages, n))
            &&& r.links == cut_off(links_among(pages, n))
            &&& r.junk_bytes == 0
        }),
{
    law_clean_means(data);
    let found = validate_chain::lemma_clean_walk(data);
    let w = lemma_stands(pages, pages.len() as int);
    assert(pages.skip(pages.len() as int).len() == 0);
    assert(w == validate_chain::gone(pages, 0, Walk::start()));
}

/// A clean physical stream from which a page inside a logical bitstream was lost
/// is not clean.
pub proof fn law_lost_page(data: Seq<u8>, left: Seq<u8>, pages: Seq<PageView>, i: int)
    requires
        framing::pages_of(data) == Ok::<Seq<PageView>, Error>(pages),
        validate::validated(data).clean(),
        0 <= i < pages.len(),
        !first(pages[i]),
        exists|j: int| i < j < pages.len() && (#[trigger] pages[j]).serial == pages[i].serial,
        framing::pages_of(left) == Ok::<Seq<PageView>, Error>(pages.remove(i)),
    ensures
        !validate::validated(left).clean(),
{
    law_clean_means(data);
    law_clean_means(left);
    let k = pages[i].serial;
    let far = choose|j: int| i < j < pages.len() && (#[trigger] pages[j]).serial == k;
    let j = lemma_next(pages, i, far);
    let q = pages.remove(i);
    lemma_latest(pages, i, k);
    lemma_latest(pages, j, k);
    assert(sound(pages, i) && sound(pages, j));
    assert(!broken(pages, i, Rule::MissingBos) && !broken(pages, i, Rule::PageAfterEos));
    assert(!broken(pages, j, Rule::MissingBos) && !broken(pages, j, Rule::PageAfterEos));
    assert(latest(pages, j, k) == Some(i));
    assert(latest(pages, i, k) is Some);
    let b = latest(pages, i, k)->Some_0;
    assert(!last(pages[b]));
    lemma_goes_on_next(pages, i, b);
    assert(!first(pages[j])) by {
        assert(!broken(pages, j, Rule::DuplicateBos) && !broken(pages, j, Rule::SerialReuse));
    }
    assert(!last(pages[i]));
    lemma_goes_on_next(pages, j, i);
    assert(q[j - 1] == pages[j]);
    assert(q[b] == pages[b]);
    lemma_latest(q, j - 1, k);
    assert(latest(q, j - 1, k) == Some(b)) by {
        assert(q[b].serial == k);
        if let Some(x) = latest(q, j - 1, k) {
            if x > b {
                if x < i {
                    assert(q[x] == pages[x]);
                } else {
                    assert(q[x] == pages[x + 1]);
                }
            }
        }
    }
    assert(goes_on(q, j - 1, b));
    assert(ahead(q, j - 1, b) == 2);
    assert(broken(q, j - 1, Rule::SequenceGap));
    assert(!sound(q, j - 1));
}

/// The next page of the same bitstream.
proof fn lemma_next(pages: Seq<PageView>, i: int, far: int) -> (j: int)
    requires
        0 <= i < far < pages.len(),
        pages[far].serial == pages[i].serial,
    ensures
        i < j <= far,
        pages[j].serial == pages[i].serial,
        forall|m: int| i < m < j ==> (#[trigger] pages[m]).serial != pages[i].serial,
    decreases far,
{
    if exists|m: int| i < m < far && (#[trigger] pages[m]).serial == pages[i].serial {
        let m = choose|m: int| i < m < far && (#[trigger] pages[m]).serial == pages[i].serial;
        lemma_next(pages, i, m)
    } else {
        far
    }
}

proof fn lemma_goes_on_next(pages: Seq<PageView>, i: int, j: int)
    requires
        goes_on(pages, i, j),
        sound(pages, i),
    ensures
        numbered_next(pages, i, j),
{
    assert(!broken(pages, i, Rule::SequenceGap));
    assert(!broken(pages, i, Rule::SequenceRegression));
    assert(ahead(pages, i, j) == 1);
}

} // verus!
