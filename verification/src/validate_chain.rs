//! What the validator says of physical streams put one behind the other.
use crate::error::Error;
use crate::framing;
use crate::page;
use crate::page::PageView;
use crate::validate;
use crate::validate::{HeadView, IssueView, Located, ReportView, Rule, Walk};
use crate::validate_group;
use crate::validate_laws;
use vstd::prelude::*;

verus! {

/// What the validator sees of a page at `offset`.
pub open spec fn head_of(p: PageView, offset: nat) -> HeadView {
    HeadView {
        offset,
        version: 0,
        flags: p.flags,
        granule: p.granule_position,
        serial: p.serial,
        seq_no: p.seq_no,
        lacing: p.lacing,
    }
}

/// The walk behind pages, of which the first stands at `offset`.
pub open spec fn gone(pages: Seq<PageView>, offset: nat, w: Walk) -> Walk
    decreases pages.len(),
{
    if pages.len() == 0 {
        w
    } else {
        gone(
            pages.skip(1),
            offset + pages[0].encoded_len(),
            w.after_page(head_of(pages[0], offset)),
        )
    }
}

/// Where pages stand, the walk goes from page to page.
pub proof fn lemma_gone(data: Seq<u8>, pos: nat, w: Walk)
    requires
        pos <= data.len(),
        framing::pages_of(data.skip(pos as int)) is Ok,
    ensures
        validate::walked(data, pos, w) == gone(
            framing::pages_of(data.skip(pos as int))->Ok_0,
            pos,
            w,
        ),
    decreases data.len() - pos,
{
    let rest = data.skip(pos as int);
    if pos < data.len() {
        let (p, used) = page::parsed(rest)->Ok_0;
        page::law_encoded_parsed(rest);
        validate::law_located_is_parsed(data, pos);
        let head = validate::located(data, pos)->Page_head;
        assert(head == head_of(p, pos));
        assert(validate::step(data, pos, w) == (w.after_page(head), pos + used)) by {
            reveal(validate::step);
        }
        assert(rest.skip(used as int) =~= data.skip((pos + used) as int));
        lemma_gone(data, pos + used, w.after_page(head));
        let more = framing::pages_of(rest.skip(used as int))->Ok_0;
        assert((seq![p] + more).skip(1) =~= more);
    }
}

/// A page takes back no violation.
pub proof fn lemma_page_adds(w: Walk, p: HeadView)
    requires
        w.report.capped(),
    ensures
        w.after_page(p).report.capped(),
        w.after_page(p).report.total() == w.report.total() + w.page_issues(p).len(),
        forall|i: int|
            0 <= i < w.report.issues.len() ==> i < w.after_page(p).report.issues.len()
                && #[trigger] w.after_page(p).report.issues[i] == w.report.issues[i],
        forall|i: int|
            w.report.issues.len() <= i < 1024 && i < w.report.issues.len() + w.page_issues(
                p,
            ).len() ==> i < w.after_page(p).report.issues.len()
                && #[trigger] w.after_page(p).report.issues[i] == w.page_issues(
                p,
            )[i - w.report.issues.len()],
{
    let counted = ReportView {
        issues: w.report.issues,
        suppressed_issues: w.report.suppressed_issues,
        ..w.after_page(p).report
    };
    validate::law_add(counted, w.page_issues(p), Seq::empty());
}

/// A step takes back no violation.
proof fn lemma_step_adds(data: Seq<u8>, pos: nat, w: Walk)
    requires
        pos < data.len(),
        w.report.capped(),
    ensures
        ({
            let (after, next) = validate::step(data, pos, w);
            &&& pos < next <= data.len()
            &&& after.report.capped()
            &&& after.report.total() >= w.report.total()
            &&& after.report.total() == w.report.total() ==> page::parsed(
                data.skip(pos as int),
            ) is Ok
        }),
{
    reveal(validate::step);
    validate_laws::lemma_next_valid_range(data, pos + 1);
    validate::law_located_is_parsed(data, pos);
    match validate::located(data, pos) {
        Located::Page { head, next } => {
            lemma_page_adds(w, head);
        },
        _ => {},
    }
}

/// Input without a violation is made of pages.
proof fn lemma_clean_pages(data: Seq<u8>, pos: nat, w: Walk)
    requires
        pos <= data.len(),
        w.report.capped(),
    ensures
        validate::walked(data, pos, w).report.capped(),
        validate::walked(data, pos, w).report.total() >= w.report.total(),
        validate::walked(data, pos, w).report.total() == w.report.total() ==> framing::pages_of(
            data.skip(pos as int),
        ) is Ok,
    decreases data.len() - pos,
{
    let rest = data.skip(pos as int);
    if pos < data.len() {
        let (after, next) = validate::step(data, pos, w);
        lemma_step_adds(data, pos, w);
        lemma_clean_pages(data, next, after);
        if validate::walked(data, pos, w).report.total() == w.report.total() {
            let (p, used) = page::parsed(rest)->Ok_0;
            page::law_encoded_parsed(rest);
            validate::law_located_is_parsed(data, pos);
            assert(next == pos + used) by {
                reveal(validate::step);
            }
            assert(rest.skip(used as int) =~= data.skip(next as int));
        }
    }
}

/// Every set of numbers has its ascending order.
pub proof fn lemma_ascending(set: Set<u32>, n: int) -> (s: Seq<u32>)
    requires
        0 <= n <= 0x1_0000_0000,
    ensures
        validate::strictly_ascending(s),
        forall|i: int| 0 <= i < s.len() ==> (#[trigger] s[i]) < n && set.contains(s[i]),
        forall|k: u32| k < n && set.contains(k) ==> #[trigger] s.contains(k),
    decreases n,
{
    if n == 0 {
        Seq::empty()
    } else {
        let front = lemma_ascending(set, n - 1);
        let k = (n - 1) as u32;
        if set.contains(k) {
            let s = front.push(k);
            assert forall|l: u32| l < n && set.contains(l) implies #[trigger] s.contains(l) by {
                if l < n - 1 {
                    assert(front.contains(l));
                    let i = choose|i: int| 0 <= i < front.len() && front[i] == l;
                    assert(s[i] == l);
                } else {
                    assert(s[front.len() as int] == l);
                }
            }
            s
        } else {
            front
        }
    }
}

/// What a clean report says of the walk.
pub proof fn lemma_clean_walk(data: Seq<u8>) -> (pages: Seq<PageView>)
    requires
        validate::validated(data).clean(),
    ensures
        framing::pages_of(data) == Ok::<Seq<PageView>, Error>(pages),
        pages.len() > 0,
        ({
            let w = gone(pages, 0, Walk::start());
            &&& w == validate::walked(data, 0, Walk::start())
            &&& w.report.clean()
            &&& w.report.capped()
            &&& w.all_closed()
            &&& validate::validated(data) == w.report
        }),
{
    let w = validate::walked(data, 0, Walk::start());
    lemma_clean_pages(data, 0, Walk::start());
    assert(data.skip(0) =~= data);
    let empty = validate::when(
        data.len() == 0,
        validate::place_issue(
            0,
            Rule::Truncated,
            None,
            "empty input: a physical bitstream carries at least one page"@,
        ),
    );
    let serials = validate::in_order(validate::open_serials(w));
    let open = serials.map_values(|s: u32| validate::missing_eos(data.len(), s));
    validate::law_add(w.report, empty, open);
    validate::law_add(w.report.add(empty), open, Seq::empty());
    assert(empty.len() == 0 && open.len() == 0);
    assert(empty =~= Seq::<IssueView>::empty());
    assert(open =~= Seq::<IssueView>::empty());
    assert(w.all_closed()) by {
        let set = validate::open_serials(w);
        let s = lemma_ascending(set, 0x1_0000_0000);
        assert(s.to_set() =~= set);
        assert(validate::strictly_ascending(s) && s.to_set() == set);
        assert(serials.to_set() == set);
        assert forall|k: u32| #[trigger] w.live.contains_key(k) implies w.live[k].eos by {
            if !w.live[k].eos {
                assert(set.contains(k));
                assert(serials.contains(k));
            }
        }
    }
    lemma_gone(data, 0, Walk::start());
    framing::pages_of(data)->Ok_0
}

/// The serials that a walk has met.
pub open spec fn met(w: Walk) -> Set<u32> {
    w.finished.union(w.live.dom())
}

/// A page has the serial `k`.
pub open spec fn occurs(pages: Seq<PageView>, k: u32) -> bool {
    exists|i: int| 0 <= i < pages.len() && (#[trigger] pages[i]).serial == k
}

proof fn lemma_occurs_first(pages: Seq<PageView>, k: u32)
    requires
        pages.len() > 0,
    ensures
        occurs(pages, k) <==> pages[0].serial == k || occurs(pages.skip(1), k),
{
    if occurs(pages, k) {
        let i = choose|i: int| 0 <= i < pages.len() && (#[trigger] pages[i]).serial == k;
        if i > 0 {
            assert(pages.skip(1)[i - 1].serial == k);
        }
    }
    if occurs(pages.skip(1), k) {
        let i = choose|i: int|
            0 <= i < pages.skip(1).len() && (#[trigger] pages.skip(1)[i]).serial == k;
        assert(pages[i + 1].serial == k);
    }
}

proof fn lemma_met(pages: Seq<PageView>, offset: nat, w: Walk)
    ensures
        forall|k: u32| #[trigger]
            met(gone(pages, offset, w)).contains(k) <==> met(w).contains(k) || occurs(pages, k),
    decreases pages.len(),
{
    if pages.len() > 0 {
        let after = w.after_page(head_of(pages[0], offset));
        lemma_met(pages.skip(1), offset + pages[0].encoded_len(), after);
        let end = gone(pages.skip(1), offset + pages[0].encoded_len(), after);
        assert forall|k: u32| #[trigger]
            met(gone(pages, offset, w)).contains(k) <==> met(w).contains(k) || occurs(
            pages,
            k,
        ) by {
            lemma_occurs_first(pages, k);
            assert(met(after).contains(k) <==> met(w).contains(k) || k == pages[0].serial);
            assert(met(end).contains(k) <==> met(after).contains(k) || occurs(pages.skip(1), k));
        }
    }
}

pub proof fn lemma_gone_concat(a: Seq<PageView>, b: Seq<PageView>, offset: nat, w: Walk) -> (end: nat)
    ensures
        gone(a + b, offset, w) == gone(b, end, gone(a, offset, w)),
    decreases a.len(),
{
    if a.len() == 0 {
        assert(a + b =~= b);
        offset
    } else {
        assert((a + b).skip(1) =~= a.skip(1) + b);
        lemma_gone_concat(
            a.skip(1),
            b,
            offset + a[0].encoded_len(),
            w.after_page(head_of(a[0], offset)),
        )
    }
}

proof fn lemma_pages_concat(a: Seq<u8>, b: Seq<u8>)
    requires
        framing::pages_of(a) is Ok,
        framing::pages_of(b) is Ok,
    ensures
        framing::pages_of(a + b) == Ok::<Seq<PageView>, Error>(
            framing::pages_of(a)->Ok_0 + framing::pages_of(b)->Ok_0,
        ),
    decreases a.len(),
{
    let pb = framing::pages_of(b)->Ok_0;
    if a.len() == 0 {
        assert(a + b =~= b);
        assert(framing::pages_of(a)->Ok_0 + pb =~= pb);
    } else {
        let (p, used) = page::parsed(a)->Ok_0;
        page::law_encoded_parsed(a);
        page::law_parsed_prefix(a, b);
        lemma_pages_concat(a.skip(used as int), b);
        assert((a + b).skip(used as int) =~= a.skip(used as int) + b);
        let more = framing::pages_of(a.skip(used as int))->Ok_0;
        assert(seq![p] + (more + pb) =~= (seq![p] + more) + pb);
    }
}

/// A sum that is cut off where it outgrows 32 bits.
pub open spec fn capped_sum(a: u32, b: u32) -> u32 {
    if a + b > u32::MAX {
        u32::MAX
    } else {
        (a + b) as u32
    }
}

/// Two walks through the same pages, `v` with the report `past` and the serials
/// `old` behind it.
pub open spec fn alike(w: Walk, v: Walk, past: ReportView, old: Set<u32>) -> bool {
    &&& forall|k: u32|
        !old.contains(k) ==> (#[trigger] v.live.contains_key(k)) == w.live.contains_key(k) && (
        v.live.contains_key(k) ==> v.live[k] == w.live[k])
    &&& forall|k: u32|
        old.contains(k) && #[trigger] v.live.contains_key(k) ==> v.live[k].eos
    &&& forall|k: u32|
        !old.contains(k) ==> (#[trigger] v.finished.contains(k)) == w.finished.contains(k)
    &&& forall|k: u32| #[trigger]
        old.contains(k) ==> met(v).contains(k) && !met(w).contains(k)
    &&& v.link_has_data == w.link_has_data
    &&& v.report.pages == w.report.pages + past.pages
    &&& v.report.streams == capped_sum(past.streams, w.report.streams)
    &&& v.report.links == capped_sum(past.links, w.report.links)
    &&& v.report.junk_bytes == w.report.junk_bytes + past.junk_bytes
    &&& w.report.pages > 0
}

/// Both walks find their bitstreams closed, or neither does.
pub proof fn lemma_alike_closed(w: Walk, v: Walk, past: ReportView, old: Set<u32>)
    requires
        alike(w, v, past, old),
    ensures
        v.all_closed() == w.all_closed(),
{
    if w.all_closed() {
        assert forall|k: u32| #[trigger] v.live.contains_key(k) implies v.live[k].eos by {
            if !old.contains(k) {
                assert(w.live.contains_key(k));
            }
        }
    } else {
        let k = choose|k: u32| #[trigger] w.live.contains_key(k) && !w.live[k].eos;
        assert(met(w).contains(k));
        assert(v.live.contains_key(k));
    }
}

/// A page with a new serial is judged alike by both walks.
proof fn lemma_page_alike(
    w: Walk,
    v: Walk,
    past: ReportView,
    old: Set<u32>,
    p: PageView,
    at: nat,
    there: nat,
)
    requires
        alike(w, v, past, old),
        !old.contains(p.serial),
        w.report.capped() && v.report.capped(),
        w.page_issues(head_of(p, at)).len() == 0,
    ensures
        alike(w.after_page(head_of(p, at)), v.after_page(head_of(p, there)), past, old),
        v.page_issues(head_of(p, there)).len() == 0,
{
    let a = head_of(p, at);
    let b = head_of(p, there);
    assert(a.continued() == b.continued() && a.bos() == b.bos() && a.eos() == b.eos());
    assert(a.ended() == b.ended() && a.open() == b.open());
    lemma_alike_closed(w, v, past, old);
    let k = p.serial;
    assert(v.live.contains_key(k) == w.live.contains_key(k));
    assert(v.finished.contains(k) == w.finished.contains(k));
}

/// The report behind a walk, as far as what follows adds to it: where the last
/// link holds nothing but BOS pages, the next bitstream goes on with that link.
spec fn behind(v: Walk) -> ReportView {
    ReportView {
        links: if v.link_has_data {
            v.report.links
        } else {
            (v.report.links - 1) as u32
        },
        ..v.report
    }
}

/// The first page behind closed bitstreams with other serials is judged as at
/// the beginning.
proof fn lemma_first_alike(v: Walk, p: PageView, there: nat)
    requires
        v.report.capped(),
        v.all_closed(),
        v.report.pages > 0,
        v.report.links > 0,
        !met(v).contains(p.serial),
        Walk::start().page_issues(head_of(p, 0)).len() == 0,
    ensures
        alike(
            Walk::start().after_page(head_of(p, 0)),
            v.after_page(head_of(p, there)),
            behind(v),
            met(v),
        ),
        v.page_issues(head_of(p, there)).len() == 0,
{
    let w = Walk::start();
    let a = head_of(p, 0);
    let b = head_of(p, there);
    assert(a.continued() == b.continued() && a.bos() == b.bos() && a.eos() == b.eos());
    assert(a.ended() == b.ended() && a.open() == b.open());
    assert(!v.live.contains_key(p.serial) && !v.finished.contains(p.serial));
    assert(a.bos());
    assert(v.opens_link(b) == v.link_has_data);
    assert(!w.opens_link(a));
    assert(v.stream_after(b) == w.stream_after(a));
}

/// A clean walk was clean all along.
pub proof fn lemma_clean_first(pages: Seq<PageView>, offset: nat, w: Walk)
    requires
        w.report.capped(),
    ensures
        gone(pages, offset, w).report.capped(),
        gone(pages, offset, w).report.total() >= w.report.total(),
        pages.len() > 0 && gone(pages, offset, w).report.total() == w.report.total()
            ==> w.page_issues(head_of(pages[0], offset)).len() == 0,
        forall|i: int|
            0 <= i < w.report.issues.len() ==> i < gone(pages, offset, w).report.issues.len()
                && #[trigger] gone(pages, offset, w).report.issues[i] == w.report.issues[i],
    decreases pages.len(),
{
    if pages.len() > 0 {
        let head = head_of(pages[0], offset);
        let after = w.after_page(head);
        let end = gone(pages, offset, w);
        lemma_page_adds(w, head);
        lemma_clean_first(pages.skip(1), offset + pages[0].encoded_len(), after);
        assert forall|i: int| 0 <= i < w.report.issues.len() implies i < end.report.issues.len()
            && #[trigger] end.report.issues[i] == w.report.issues[i] by {
            assert(after.report.issues[i] == w.report.issues[i]);
            assert(end.report.issues[i] == after.report.issues[i]);
        }
    }
}

/// Pages with new serials are judged alike by both walks.
pub proof fn lemma_gone_alike(
    pages: Seq<PageView>,
    w: Walk,
    v: Walk,
    past: ReportView,
    old: Set<u32>,
    at: nat,
    there: nat,
)
    requires
        alike(w, v, past, old),
        w.report.capped() && v.report.capped(),
        forall|k: u32| #[trigger] old.contains(k) ==> !occurs(pages, k),
        gone(pages, at, w).report.total() == w.report.total(),
    ensures
        alike(gone(pages, at, w), gone(pages, there, v), past, old),
        gone(pages, there, v).report.total() == v.report.total(),
    decreases pages.len(),
{
    if pages.len() > 0 {
        let p = pages[0];
        let a = head_of(p, at);
        let b = head_of(p, there);
        lemma_clean_first(pages, at, w);
        assert(occurs(pages, p.serial)) by {
            assert(pages[0].serial == p.serial);
        }
        lemma_page_alike(w, v, past, old, p, at, there);
        lemma_page_adds(w, a);
        lemma_page_adds(v, b);
        assert forall|k: u32| #[trigger] old.contains(k) implies !occurs(pages.skip(1), k) by {
            lemma_occurs_first(pages, k);
        }
        lemma_gone_alike(
            pages.skip(1),
            w.after_page(a),
            v.after_page(b),
            past,
            old,
            at + p.encoded_len(),
            there + p.encoded_len(),
        );
    }
}

/// A physical stream has a page with the serial `k`.
pub open spec fn has_serial(data: Seq<u8>, k: u32) -> bool {
    framing::pages_of(data) matches Ok(pages) && occurs(pages, k)
}

/// Behind the pages that begin its last link, a physical stream has further
/// pages.
pub open spec fn has_content(data: Seq<u8>) -> bool {
    validate::walked(data, 0, Walk::start()).link_has_data
}

/// Two clean physical streams without a common serial, put one behind the
/// other, are clean, and their pages, bitstreams and links add up. Where the
/// first ends with a link of nothing but BOS pages, the second goes on with it.
pub proof fn law_chain(a: Seq<u8>, b: Seq<u8>)
    requires
        validate::validated(a).clean(),
        validate::validated(b).clean(),
        forall|k: u32| #[trigger] has_serial(a, k) ==> !has_serial(b, k),
    ensures
        ({
            let first = validate::validated(a);
            let second = validate::validated(b);
            let both = validate::validated(a + b);
            &&& both.clean()
            &&& both.pages == first.pages + second.pages
            &&& both.streams == capped_sum(first.streams, second.streams)
            &&& first.links > 0
            &&& both.links == capped_sum(
                if has_content(a) {
                    first.links
                } else {
                    (first.links - 1) as u32
                },
                second.links,
            )
            &&& both.junk_bytes == 0
        }),
{
    let pa = lemma_clean_walk(a);
    let pb = lemma_clean_walk(b);
    let v = gone(pa, 0, Walk::start());
    let w = gone(pb, 0, Walk::start());
    let start = Walk::start();
    lemma_met(pa, 0, start);
    lemma_gone_pages(pa, 0, start);
    lemma_gone_pages(pb, 0, start);
    let end = lemma_gone_concat(pa, pb, 0, start);
    lemma_pages_concat(a, b);
    assert((a + b).skip(0) =~= a + b);
    lemma_gone(a + b, 0, start);
    let whole = gone(pb, end, v);
    assert(validate::walked(a + b, 0, start) == whole);
    let p = pb[0];
    assert forall|k: u32| #[trigger] met(v).contains(k) implies !occurs(pb, k) by {
        assert(occurs(pa, k));
        assert(has_serial(a, k));
    }
    assert(occurs(pb, p.serial)) by {
        assert(pb[0].serial == p.serial);
    }
    lemma_clean_first(pb, 0, start);
    lemma_first_alike(v, p, end);
    lemma_page_adds(start, head_of(p, 0));
    lemma_page_adds(v, head_of(p, end));
    assert forall|k: u32| #[trigger] met(v).contains(k) implies !occurs(pb.skip(1), k) by {
        lemma_occurs_first(pb, k);
    }
    lemma_gone_alike(
        pb.skip(1),
        start.after_page(head_of(p, 0)),
        v.after_page(head_of(p, end)),
        behind(v),
        met(v),
        p.encoded_len(),
        end + p.encoded_len(),
    );
    assert(alike(w, whole, behind(v), met(v)));
    lemma_alike_closed(w, whole, behind(v), met(v));
    assert(a.len() > 0);
    validate_group::lemma_clean_end(a + b, whole);
}

pub proof fn lemma_gone_pages(pages: Seq<PageView>, offset: nat, w: Walk)
    ensures
        gone(pages, offset, w).report.pages == w.report.pages + pages.len(),
        gone(pages, offset, w).report.junk_bytes == w.report.junk_bytes,
        w.report.links > 0 || (w.report.pages == 0 && pages.len() > 0) ==> gone(
            pages,
            offset,
            w,
        ).report.links > 0,
    decreases pages.len(),
{
    if pages.len() > 0 {
        lemma_gone_pages(
            pages.skip(1),
            offset + pages[0].encoded_len(),
            w.after_page(head_of(pages[0], offset)),
        );
    }
}

/// A report names a violation of `rule`.
pub open spec fn reports(r: ReportView, rule: Rule) -> bool {
    exists|i: int| 0 <= i < r.issues.len() && (#[trigger] r.issues[i]).rule == rule
}

proof fn lemma_reports_add(r: ReportView, found: Seq<IssueView>, rule: Rule)
    requires
        r.capped(),
        reports(r, rule),
    ensures
        reports(r.add(found), rule),
        r.add(found).capped(),
{
    let i = choose|i: int| 0 <= i < r.issues.len() && (#[trigger] r.issues[i]).rule == rule;
    assert(r.add(found).issues[i] == r.issues[i]);
}

/// A page that begins a bitstream with a serial of a closed one is reported.
proof fn lemma_reuse(v: Walk, head: HeadView)
    requires
        v.report.capped(),
        v.report.clean(),
        head.bos(),
        !v.duplicate(head),
        met(v).contains(head.serial),
    ensures
        reports(v.after_page(head).report, Rule::SerialReuse),
        v.after_page(head).report.capped(),
{
    lemma_page_adds(v, head);
    let n = v.report.pages;
    let c = validate::when(
        head.continued(),
        validate::page_issue(
            n,
            head,
            Rule::ContinuedBos,
            "BOS page carries the continued-packet flag"@,
        ),
    );
    let found = v.bos_issues(head);
    let at = c.len() as int + if head.seq_no != 0 {
        1int
    } else {
        0
    };
    assert(found.len() <= 9);
    assert(found[at].rule == Rule::SerialReuse);
    assert(v.after_page(head).report.issues[at] == found[at]);
}

proof fn lemma_reports_kept(pages: Seq<PageView>, offset: nat, w: Walk, rule: Rule)
    requires
        w.report.capped(),
        reports(w.report, rule),
    ensures
        reports(gone(pages, offset, w).report, rule),
        gone(pages, offset, w).report.capped(),
{
    lemma_clean_first(pages, offset, w);
    let i = choose|i: int|
        0 <= i < w.report.issues.len() && (#[trigger] w.report.issues[i]).rule == rule;
    assert(gone(pages, offset, w).report.issues[i] == w.report.issues[i]);
}

/// Pages of which one has an old serial are reported by the walk that knows it.
proof fn lemma_gone_reuse(
    pages: Seq<PageView>,
    w: Walk,
    v: Walk,
    past: ReportView,
    old: Set<u32>,
    at: nat,
    there: nat,
    k: u32,
)
    requires
        alike(w, v, past, old),
        w.report.capped() && v.report.capped(),
        v.report.clean(),
        forall|l: u32| #[trigger] old.contains(l) ==> !met(w).contains(l),
        old.contains(k),
        occurs(pages, k),
        gone(pages, at, w).report.total() == w.report.total(),
    ensures
        reports(gone(pages, there, v).report, Rule::SerialReuse),
        gone(pages, there, v).report.capped(),
    decreases pages.len(),
{
    let p = pages[0];
    let a = head_of(p, at);
    let b = head_of(p, there);
    lemma_clean_first(pages, at, w);
    lemma_occurs_first(pages, k);
    let rest = there + p.encoded_len();
    if old.contains(p.serial) {
        assert(!met(w).contains(p.serial));
        assert(!w.live.contains_key(p.serial));
        assert(a.bos() == b.bos());
        assert(a.bos());
        assert(!v.duplicate(b));
        lemma_reuse(v, b);
        lemma_reports_kept(pages.skip(1), rest, v.after_page(b), Rule::SerialReuse);
    } else {
        lemma_page_alike(w, v, past, old, p, at, there);
        lemma_page_adds(w, a);
        lemma_page_adds(v, b);
        assert forall|l: u32| #[trigger] old.contains(l) implies !met(
            w.after_page(a),
        ).contains(l) by {
            assert(!met(w).contains(l));
        }
        lemma_gone_reuse(
            pages.skip(1),
            w.after_page(a),
            v.after_page(b),
            past,
            old,
            at + p.encoded_len(),
            rest,
            k,
        );
    }
}

/// A clean physical stream behind another that has one of its serials is
/// reported to reuse a serial.
pub proof fn law_serial_reuse(a: Seq<u8>, b: Seq<u8>, k: u32)
    requires
        validate::validated(a).clean(),
        validate::validated(b).clean(),
        has_serial(a, k),
        has_serial(b, k),
    ensures
        reports(validate::validated(a + b), Rule::SerialReuse),
{
    let pa = lemma_clean_walk(a);
    let pb = lemma_clean_walk(b);
    let start = Walk::start();
    let v = gone(pa, 0, start);
    lemma_met(pa, 0, start);
    lemma_gone_pages(pa, 0, start);
    let end = lemma_gone_concat(pa, pb, 0, start);
    lemma_pages_concat(a, b);
    assert((a + b).skip(0) =~= a + b);
    lemma_gone(a + b, 0, start);
    let whole = gone(pb, end, v);
    assert(validate::walked(a + b, 0, start) == whole);
    let p = pb[0];
    lemma_clean_first(pb, 0, start);
    lemma_occurs_first(pb, k);
    let first = head_of(p, 0);
    let there = head_of(p, end);
    assert(first.bos() == there.bos());
    assert(first.bos());
    lemma_page_adds(start, first);
    lemma_page_adds(v, there);
    if met(v).contains(p.serial) {
        lemma_reuse(v, there);
        lemma_reports_kept(
            pb.skip(1),
            end + p.encoded_len(),
            v.after_page(there),
            Rule::SerialReuse,
        );
    } else {
        assert(met(v).contains(k));
        lemma_first_alike(v, p, end);
        assert forall|l: u32| #[trigger] met(v).contains(l) implies !met(
            start.after_page(first),
        ).contains(l) by {}
        lemma_gone_reuse(
            pb.skip(1),
            start.after_page(first),
            v.after_page(there),
            behind(v),
            met(v),
            p.encoded_len(),
            end + p.encoded_len(),
            k,
        );
    }
    assert(reports(whole.report, Rule::SerialReuse));
    let data = a + b;
    let empty = validate::when(
        data.len() == 0,
        validate::place_issue(
            0,
            Rule::Truncated,
            None,
            "empty input: a physical bitstream carries at least one page"@,
        ),
    );
    let open = validate::in_order(validate::open_serials(whole)).map_values(
        |s: u32| validate::missing_eos(data.len(), s),
    );
    lemma_reports_add(whole.report, empty, Rule::SerialReuse);
    lemma_reports_add(whole.report.add(empty), open, Rule::SerialReuse);
}

} // verus!
