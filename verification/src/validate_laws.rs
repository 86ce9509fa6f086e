//! What the validator says of the streams that a page writer produces.
use crate::framing;
use crate::framing::WriterView;
use crate::framing_laws;
use crate::framing_laws::WriterOp;
use crate::page;
use crate::page::{flags, PageView};
use crate::validate;
use crate::validate::{HeadView, IssueView, Located, ReportView, Rule, StreamModel, Walk};
use vstd::prelude::*;

verus! {

// ---------------------------------------------------------------------------
// Granule positions
// ---------------------------------------------------------------------------
/// Pages on which packets end bear granule positions that are not negative and
/// never fall.
pub open spec fn granules_rise(pages: Seq<PageView>) -> bool {
    &&& forall|i: int|
        0 <= i < pages.len() && page::packets_ended((#[trigger] pages[i]).lacing) > 0
            ==> pages[i].granule_position >= 0
    &&& forall|i: int, j: int|
        0 <= i < j < pages.len() && page::packets_ended((#[trigger] pages[i]).lacing) > 0
            && page::packets_ended((#[trigger] pages[j]).lacing) > 0 ==> pages[i].granule_position
            <= pages[j].granule_position
}

/// The granule positions of packets are not negative and never fall.
pub open spec fn pushes_rise(ops: Seq<WriterOp>) -> bool {
    forall|i: int, j: int|
        0 <= i <= j < ops.len() && (#[trigger] ops[i]) is Push && (#[trigger] ops[j]) is Push ==> 0
            <= ops[i]->Push_1 <= ops[j]->Push_1
}

/// No granule position in the writer is beyond `last`, and those on its pages
/// rise.
spec fn bounded(w: WriterView, last: i64) -> bool {
    &&& granules_rise(w.pages)
    &&& forall|i: int|
        0 <= i < w.pages.len() && page::packets_ended((#[trigger] w.pages[i]).lacing) > 0
            ==> w.pages[i].granule_position <= last
    &&& page::packets_ended(w.lacing) > 0 ==> w.granule is Some
    &&& w.granule matches Some(g) ==> {
        &&& 0 <= g <= last
        &&& forall|i: int|
            0 <= i < w.pages.len() && page::packets_ended((#[trigger] w.pages[i]).lacing) > 0
                ==> w.pages[i].granule_position <= g
    }
}

proof fn lemma_emit_bounded(w: WriterView, next: bool, mark: bool, last: i64)
    requires
        bounded(w, last),
    ensures
        bounded(w.emit(next, mark), last),
{
    let v = w.emit(next, mark);
    assert forall|i: int|
        0 <= i < v.pages.len() && page::packets_ended(
            (#[trigger] v.pages[i]).lacing,
        ) > 0 implies 0 <= v.pages[i].granule_position <= last by {
        if i < w.pages.len() {
            assert(v.pages[i] == w.pages[i]);
        }
    }
    assert forall|i: int, j: int|
        0 <= i < j < v.pages.len() && page::packets_ended((#[trigger] v.pages[i]).lacing) > 0
            && page::packets_ended(
            (#[trigger] v.pages[j]).lacing,
        ) > 0 implies v.pages[i].granule_position <= v.pages[j].granule_position by {
        assert(v.pages[i] == w.pages[i]);
        if j < w.pages.len() {
            assert(v.pages[j] == w.pages[j]);
        }
    }
}

proof fn lemma_segments_bounded(w: WriterView, rest: Seq<u8>, granule: i64)
    requires
        bounded(w, granule),
        0 <= granule,
    ensures
        bounded(w.segments(rest, granule), granule),
    decreases
            rest.len(),
            (if w.lacing.len() >= 255 {
                1int
            } else {
                0
            }),
{
    if w.lacing.len() >= 255 {
        lemma_emit_bounded(w, true, false, granule);
        lemma_segments_bounded(w.emit(true, false), rest, granule);
    } else if rest.len() >= 255 {
        let v = w.segment(rest.take(255));
        assert(v.lacing.drop_last() =~= w.lacing);
        lemma_segments_bounded(v, rest.skip(255), granule);
    } else {
        let v = w.segment(rest);
        assert(v.lacing.drop_last() =~= w.lacing);
        let stamped = WriterView { granule: Some(granule), ..v };
        assert(bounded(stamped, granule));
        lemma_emit_bounded(stamped, false, false, granule);
    }
}

/// The last granule position that was pushed, 0 where none was.
spec fn last_pushed(ops: Seq<WriterOp>) -> i64
    decreases ops.len(),
{
    if ops.len() == 0 {
        0
    } else {
        match ops.last() {
            WriterOp::Push(packet, granule) => granule,
            _ => last_pushed(ops.drop_last()),
        }
    }
}

proof fn lemma_last_pushed(ops: Seq<WriterOp>)
    requires
        pushes_rise(ops),
    ensures
        last_pushed(ops) >= 0,
        forall|i: int|
            0 <= i < ops.len() && (#[trigger] ops[i]) is Push ==> ops[i]->Push_1
                <= last_pushed(ops),
        last_pushed(ops) == 0 || exists|i: int|
            0 <= i < ops.len() && (#[trigger] ops[i]) is Push && ops[i]->Push_1
                == last_pushed(ops),
    decreases ops.len(),
{
    if ops.len() > 0 {
        let front = ops.drop_last();
        lemma_front_rises(ops);
        lemma_last_pushed(front);
        let n = ops.len() - 1;
        assert forall|i: int| 0 <= i < ops.len() && (#[trigger] ops[i]) is Push implies ops[i]->Push_1
            <= last_pushed(ops) by {
            if ops[n] is Push {
                assert(0 <= ops[i]->Push_1 <= ops[n]->Push_1);
            } else {
                assert(front[i] == ops[i]);
            }
        }
        if ops[n] is Push {
            assert(0 <= ops[n]->Push_1 <= ops[n]->Push_1);
        } else if last_pushed(front) != 0 {
            let i = choose|i: int|
                0 <= i < front.len() && (#[trigger] front[i]) is Push && front[i]->Push_1
                    == last_pushed(front);
            assert(ops[i] == front[i]);
        }
    }
}

proof fn lemma_front_rises(ops: Seq<WriterOp>)
    requires
        pushes_rise(ops),
        ops.len() > 0,
    ensures
        pushes_rise(ops.drop_last()),
{
    let front = ops.drop_last();
    assert forall|i: int, j: int|
        0 <= i <= j < front.len() && (#[trigger] front[i]) is Push && (
        #[trigger] front[j]) is Push implies 0 <= front[i]->Push_1 <= front[j]->Push_1 by {
        assert(0 <= ops[i]->Push_1 <= ops[j]->Push_1);
    }
}

proof fn lemma_bounded_more(w: WriterView, a: i64, b: i64)
    requires
        bounded(w, a),
        a <= b,
    ensures
        bounded(w, b),
{
}

proof fn lemma_run_bounded(serial: u32, ops: Seq<WriterOp>)
    requires
        pushes_rise(ops),
    ensures
        bounded(framing_laws::run(serial, ops), last_pushed(ops)),
    decreases ops.len(),
{
    if ops.len() > 0 {
        let front = ops.drop_last();
        lemma_front_rises(ops);
        lemma_run_bounded(serial, front);
        lemma_last_pushed(front);
        let before = framing_laws::run(serial, front);
        let n = ops.len() - 1;
        match ops.last() {
            WriterOp::Push(packet, granule) => {
                if last_pushed(front) != 0 {
                    let i = choose|i: int|
                        0 <= i < front.len() && (#[trigger] front[i]) is Push && front[i]->Push_1
                            == last_pushed(front);
                    assert(ops[i] == front[i]);
                    assert(0 <= ops[i]->Push_1 <= ops[n]->Push_1);
                } else {
                    assert(0 <= ops[n]->Push_1 <= ops[n]->Push_1);
                }
                lemma_bounded_more(before, last_pushed(front), granule);
                lemma_emit_bounded(before, false, false, granule);
                if before.lacing.len() == 255 {
                    lemma_segments_bounded(before.emit(false, false), packet, granule);
                } else {
                    lemma_segments_bounded(before, packet, granule);
                }
            },
            WriterOp::Flush => {
                lemma_emit_bounded(before, false, false, last_pushed(front));
            },
            WriterOp::Target(target) => {
                assert(framing_laws::run(serial, ops).pages == before.pages);
            },
        }
    }
}

proof fn lemma_finished_rises(serial: u32, ops: Seq<WriterOp>)
    requires
        pushes_rise(ops),
    ensures
        granules_rise(framing_laws::run(serial, ops).finished()),
{
    let w = framing_laws::run(serial, ops);
    lemma_run_bounded(serial, ops);
    let pages = w.finished();
    if w.lacing.len() > 0 {
        lemma_emit_bounded(w, false, true, last_pushed(ops));
    } else if w.pages.len() > 0 {
        assert forall|i: int|
            0 <= i < pages.len() && page::packets_ended(
                (#[trigger] pages[i]).lacing,
            ) > 0 implies pages[i].granule_position >= 0 by {
            assert(page::packets_ended(w.pages[i].lacing) > 0);
        }
        assert forall|i: int, j: int|
            0 <= i < j < pages.len() && page::packets_ended((#[trigger] pages[i]).lacing) > 0
                && page::packets_ended(
                (#[trigger] pages[j]).lacing,
            ) > 0 implies pages[i].granule_position <= pages[j].granule_position by {
            assert(page::packets_ended(w.pages[i].lacing) > 0);
            assert(page::packets_ended(w.pages[j].lacing) > 0);
        }
    }
}

// ---------------------------------------------------------------------------
// Walking one bitstream
// ---------------------------------------------------------------------------
/// The pages are one closed bitstream with serial `serial`.
pub open spec fn one_stream(serial: u32, pages: Seq<PageView>) -> bool {
    &&& 0 < pages.len() <= u32::MAX
    &&& forall|i: int|
        0 <= i < pages.len() ==> #[trigger] framing_laws::well_placed(serial, pages, i, true)
    &&& !page::ends_open(pages.last().lacing)
    &&& granules_rise(pages)
}

/// What a walk knows behind the first `i` pages of one bitstream.
spec fn followed(serial: u32, pages: Seq<PageView>, i: int, w: Walk) -> bool {
    &&& w.report == ReportView {
        pages: i as nat,
        streams: if i > 0 {
            1
        } else {
            0
        },
        links: if i > 0 {
            1
        } else {
            0
        },
        ..ReportView::empty()
    }
    &&& w.finished == Set::<u32>::empty()
    &&& i == 0 ==> w == Walk::start()
    &&& i > 0 ==> {
        &&& w.live == Map::<u32, StreamModel>::empty().insert(serial, w.live[serial])
        &&& ({
            let m = w.live[serial];
            &&& m.last_seq == i - 1
            &&& m.open_packet == page::ends_open(pages[i - 1].lacing)
            &&& m.eos == (i == pages.len())
            &&& !m.tainted
            &&& m.last_granule matches Some(g) ==> forall|j: int|
                i <= j < pages.len() && page::packets_ended((#[trigger] pages[j]).lacing) > 0 ==> g
                    <= pages[j].granule_position
        })
    }
}

proof fn lemma_page_followed(
    serial: u32,
    pages: Seq<PageView>,
    i: int,
    w: Walk,
    head: HeadView,
)
    requires
        one_stream(serial, pages),
        0 <= i < pages.len(),
        followed(serial, pages, i, w),
        head.flags == pages[i].flags,
        head.granule == pages[i].granule_position,
        head.serial == serial,
        head.seq_no == pages[i].seq_no,
        head.lacing == pages[i].lacing,
    ensures
        followed(serial, pages, i + 1, w.after_page(head)),
{
    let p = pages[i];
    assert(framing_laws::well_placed(serial, pages, i, true));
    let continued = i > 0 && page::ends_open(pages[i - 1].lacing);
    framing::law_page_flags(continued, i == 0, i == pages.len() - 1);
    assert(p.seq_no == i);
    let v = w.after_page(head);
    let none = Seq::<IssueView>::empty();
    assert(none + none =~= none);
    let previous = if i == 0 {
        None
    } else {
        w.live[serial].last_granule
    };
    assert(validate::tail_issues(w.report.pages, head, previous) =~= none);
    if i == 0 {
        assert(!w.live.contains_key(serial));
        assert(w.bos_issues(head) =~= none);
    } else {
        assert(w.live.contains_key(serial));
        assert(validate::seq_distance((i - 1) as u32, i as u32) == 1);
        assert(w.data_issues(head) =~= none);
    }
    assert(v.report.issues =~= none);
    assert(v.live =~= Map::<u32, StreamModel>::empty().insert(serial, v.live[serial]));
    let m = v.live[serial];
    if m.last_granule is Some {
        assert forall|j: int|
            i < j < pages.len() && page::packets_ended(
                (#[trigger] pages[j]).lacing,
            ) > 0 implies m.last_granule->Some_0 <= pages[j].granule_position by {
            if page::packets_ended(p.lacing) > 0 && p.granule_position != -1 {
                assert(page::packets_ended(pages[i].lacing) > 0);
            }
        }
    }
}

proof fn lemma_walk_followed(
    serial: u32,
    pages: Seq<PageView>,
    i: int,
    w: Walk,
)
    requires
        one_stream(serial, pages),
        0 <= i <= pages.len(),
        followed(serial, pages, i, w),
    ensures
        followed(
            serial,
            pages,
            pages.len() as int,
            validate::walked(
                framing::bytes_of(pages),
                framing::bytes_of(pages.take(i)).len(),
                w,
            ),
        ),
    decreases pages.len() - i,
{
    let data = framing::bytes_of(pages);
    let pos = framing::bytes_of(pages.take(i)).len();
    if i == pages.len() {
        assert(pages.take(i) =~= pages);
    } else {
        let p = pages[i];
        assert(framing_laws::well_placed(serial, pages, i, true));
        lemma_bytes_split(pages, i);
        let tail = data.skip(pos as int).skip(p.encoded().len() as int);
        assert(data.skip(pos as int) =~= p.encoded() + tail);
        page::law_parse_encoded(p, tail);
        validate::law_located_is_parsed(data, pos);
        reveal(validate::step);
        let head = validate::located(data, pos)->Page_head;
        lemma_page_followed(serial, pages, i, w, head);
        assert(pages.take(i + 1).drop_last() =~= pages.take(i));
        assert(validate::step(data, pos, w) == (w.after_page(head), pos + p.encoded_len()));
        lemma_walk_followed(serial, pages, i + 1, w.after_page(head));
    }
}

/// The bytes of the pages from `i` on begin with those of page `i`.
pub proof fn lemma_bytes_split(pages: Seq<PageView>, i: int)
    requires
        0 <= i < pages.len(),
    ensures
        ({
            let data = framing::bytes_of(pages);
            let pos = framing::bytes_of(pages.take(i)).len() as int;
            let len = pages[i].encoded().len();
            &&& pos + len <= data.len()
            &&& data.subrange(pos, pos + len) == pages[i].encoded()
        }),
    decreases pages.len(),
{
    let front = pages.drop_last();
    let data = framing::bytes_of(pages);
    let pos = framing::bytes_of(pages.take(i)).len() as int;
    if i == pages.len() - 1 {
        assert(pages.take(i) =~= front);
        assert(data.subrange(pos, data.len() as int) =~= pages.last().encoded());
    } else {
        lemma_bytes_split(front, i);
        assert(front.take(i) =~= pages.take(i));
        let len = pages[i].encoded().len();
        assert(data.subrange(pos, pos + len) =~= framing::bytes_of(front).subrange(pos, pos + len));
    }
}

/// One closed bitstream whose granule positions are not negative and never
/// fall violates no rule, and is reported as one stream in one link.
pub proof fn law_stream_clean(serial: u32, pages: Seq<PageView>)
    requires
        one_stream(serial, pages),
    ensures
        ({
            let report = validate::validated(framing::bytes_of(pages));
            &&& report.clean()
            &&& report.pages == pages.len()
            &&& report.streams == 1
            &&& report.links == 1
            &&& report.junk_bytes == 0
        }),
{
    let data = framing::bytes_of(pages);
    assert(pages.take(0) =~= Seq::empty());
    assert(framing::bytes_of(pages.take(0)).len() == 0);
    lemma_walk_followed(serial, pages, 0, Walk::start());
    let w = validate::walked(data, 0, Walk::start());
    lemma_bytes_split(pages, 0);
    assert(framing_laws::well_placed(serial, pages, 0, true));
    page::law_parse_encoded(pages[0], Seq::empty());
    assert(data.len() > 0);
    assert(validate::open_serials(w) =~= Set::<u32>::empty());
    let none = Seq::<u32>::empty();
    assert(none.to_set() =~= Set::<u32>::empty());
    validate::lemma_in_order(none);
    assert(w.report.issues + Seq::<IssueView>::empty() =~= Seq::empty());
    assert(none.map_values(|s: u32| validate::missing_eos(data.len(), s)) =~= Seq::empty());
}

/// What a page writer has been given, with granule positions that are not
/// negative and never fall, comes out as a stream that violates no rule, and is
/// reported as its pages, one stream in one link, and no junk.
pub proof fn law_writer_clean(serial: u32, ops: Seq<WriterOp>)
    requires
        framing_laws::pushed(ops).len() > 0,
        pushes_rise(ops),
        framing_laws::run(serial, ops).finished().len() <= u32::MAX,
    ensures
        ({
            let pages = framing_laws::run(serial, ops).finished();
            let report = validate::validated(framing::bytes_of(pages));
            &&& report.clean()
            &&& report.pages == pages.len()
            &&& framing::pages_of(framing::bytes_of(pages)) == Ok::<
                Seq<PageView>,
                crate::error::Error,
            >(pages)
            &&& report.streams == 1
            &&& report.links == 1
            &&& report.junk_bytes == 0
        }),
{
    let pages = framing_laws::run(serial, ops).finished();
    framing_laws::law_finished_pages(serial, ops);
    framing_laws::law_finished_empty(serial, ops);
    lemma_finished_rises(serial, ops);
    law_stream_clean(serial, pages);
    assert forall|i: int| 0 <= i < pages.len() implies (#[trigger] pages[i]).wf() by {
        assert(framing_laws::well_placed(serial, pages, i, true));
    }
    framing::law_pages_of_bytes_of(pages);
}

// ---------------------------------------------------------------------------
// Bounds of a report
// ---------------------------------------------------------------------------
pub proof fn lemma_next_valid_range(data: Seq<u8>, from: nat)
    ensures
        validate::next_valid(data, from) matches Some(n) ==> from <= n < data.len(),
    decreases data.len() - from,
{
    if from < data.len() && !(validate::located(data, from) is Page) {
        lemma_next_valid_range(data, from + 1);
    }
}

proof fn lemma_step_bounds(data: Seq<u8>, pos: nat, w: Walk)
    requires
        pos < data.len(),
        w.report.capped(),
        w.report.junk_bytes <= pos,
    ensures
        ({
            let (after, next) = validate::step(data, pos, w);
            &&& pos < next <= data.len()
            &&& after.report.capped()
            &&& after.report.junk_bytes <= next
        }),
{
    reveal(validate::step);
    lemma_next_valid_range(data, pos + 1);
    match validate::located(data, pos) {
        Located::Page { head, next } => {
            let counted = ReportView {
                issues: w.report.issues,
                suppressed_issues: w.report.suppressed_issues,
                ..w.after_page(head).report
            };
            validate::law_add(counted, w.page_issues(head), Seq::empty());
        },
        _ => {},
    }
}

proof fn lemma_walk_bounds(data: Seq<u8>, pos: nat, w: Walk)
    requires
        pos <= data.len(),
        w.report.capped(),
        w.report.junk_bytes <= pos,
    ensures
        validate::walked(data, pos, w).report.capped(),
        validate::walked(data, pos, w).report.junk_bytes <= data.len(),
    decreases data.len() - pos,
{
    if pos < data.len() {
        let (after, next) = validate::step(data, pos, w);
        lemma_step_bounds(data, pos, w);
        lemma_walk_bounds(data, next, after);
    }
}

/// A report retains at most as many issues as its cap, counts the rest only
/// once the cap is reached, and skips no more bytes than the input has.
pub proof fn law_report_bounds(data: Seq<u8>)
    ensures
        validate::validated(data).capped(),
        validate::validated(data).issues.len() <= validate::MAX_ISSUES,
        validate::validated(data).junk_bytes <= data.len(),
{
    lemma_walk_bounds(data, 0, Walk::start());
}

// ---------------------------------------------------------------------------
// Order of a report
// ---------------------------------------------------------------------------
/// The issues of a report stand in the order of the places that they name.
pub open spec fn in_file_order(issues: Seq<IssueView>) -> bool {
    forall|i: int, j: int|
        0 <= i < j < issues.len() ==> (#[trigger] issues[i]).byte_offset <= (
        #[trigger] issues[j]).byte_offset
}

/// All issues name the place `at`.
#[verifier::opaque]
spec fn all_at(issues: Seq<IssueView>, at: u64) -> bool {
    forall|i: int| 0 <= i < issues.len() ==> (#[trigger] issues[i]).byte_offset == at
}

/// No issue names a place behind `at`.
spec fn none_behind(issues: Seq<IssueView>, at: u64) -> bool {
    forall|i: int| 0 <= i < issues.len() ==> (#[trigger] issues[i]).byte_offset <= at
}

proof fn lemma_add_order(r: ReportView, found: Seq<IssueView>, at: u64)
    requires
        in_file_order(r.issues),
        none_behind(r.issues, at),
        all_at(found, at),
    ensures
        in_file_order(r.add(found).issues),
        none_behind(r.add(found).issues, at),
{
    reveal(all_at);
    let all = r.issues + found;
    assert forall|i: int| 0 <= i < all.len() implies (#[trigger] all[i]).byte_offset <= at by {
        if i < r.issues.len() {
            assert(r.issues[i].byte_offset <= at);
        } else {
            assert(found[i - r.issues.len()].byte_offset == at);
        }
    }
    assert forall|i: int, j: int| 0 <= i < j < all.len() implies (#[trigger] all[i]).byte_offset
        <= (#[trigger] all[j]).byte_offset by {
        if j < r.issues.len() {
            assert(r.issues[i].byte_offset <= r.issues[j].byte_offset);
        } else {
            assert(found[j - r.issues.len()].byte_offset == at);
        }
    }
}

broadcast proof fn lemma_concat_at(a: Seq<IssueView>, b: Seq<IssueView>, at: u64)
    requires
        all_at(a, at),
        all_at(b, at),
    ensures
        #[trigger] all_at(a + b, at),
{
    reveal(all_at);
    let all = a + b;
    assert forall|i: int| 0 <= i < all.len() implies (#[trigger] all[i]).byte_offset == at by {
        if i < a.len() {
            assert(a[i].byte_offset == at);
        } else {
            assert(b[i - a.len()].byte_offset == at);
        }
    }
}

broadcast proof fn lemma_when_at(cond: bool, issue: IssueView, at: u64)
    requires
        issue.byte_offset == at,
    ensures
        #[trigger] all_at(validate::when(cond, issue), at),
{
    reveal(all_at);
}

proof fn lemma_one_at(issue: IssueView)
    ensures
        all_at(seq![issue], issue.byte_offset),
{
    reveal(all_at);
}

/// What is wrong with a page is reported at its place.
proof fn lemma_page_issues_at(w: Walk, p: HeadView)
    ensures
        all_at(w.page_issues(p), p.offset as u64),
{
    broadcast use {lemma_concat_at, lemma_when_at};

    let n = w.report.pages;
    let at = p.offset as u64;
    assert(all_at(Seq::<IssueView>::empty(), at)) by {
        reveal(all_at);
    }
    if p.bos() {
        assert(all_at(w.bos_issues(p), at));
    } else if !w.live.contains_key(p.serial) {
        lemma_one_at(
            validate::page_issue(
                n,
                p,
                Rule::MissingBos,
                "data page for a serial that never had a BOS page"@,
            ),
        );
        assert(all_at(w.data_issues(p), at));
    } else {
        lemma_one_at(validate::hole_issue(n, p, w.live[p.serial].last_seq));
        assert(all_at(w.data_issues(p), at));
    }
}

proof fn lemma_step_order(data: Seq<u8>, pos: nat, w: Walk)
    requires
        pos < data.len() <= u64::MAX,
        in_file_order(w.report.issues),
        none_behind(w.report.issues, pos as u64),
    ensures
        ({
            let (after, next) = validate::step(data, pos, w);
            &&& pos < next <= data.len()
            &&& in_file_order(after.report.issues)
            &&& none_behind(after.report.issues, next as u64)
        }),
{
    reveal(validate::step);
    lemma_next_valid_range(data, pos + 1);
    let (after, next) = validate::step(data, pos, w);
    let at = pos as u64;
    assert(none_behind(after.report.issues, at) && in_file_order(after.report.issues)) by {
        match validate::located(data, pos) {
            Located::Page { head, next } => {
                lemma_page_issues_at(w, head);
                lemma_add_order(w.report, w.page_issues(head), at);
            },
            _ => {
                reveal(all_at);
            },
        }
    }
}

proof fn lemma_walk_order(data: Seq<u8>, pos: nat, w: Walk)
    requires
        pos <= data.len() <= u64::MAX,
        in_file_order(w.report.issues),
        none_behind(w.report.issues, pos as u64),
    ensures
        in_file_order(validate::walked(data, pos, w).report.issues),
        none_behind(validate::walked(data, pos, w).report.issues, data.len() as u64),
    decreases data.len() - pos,
{
    if pos < data.len() {
        let (after, next) = validate::step(data, pos, w);
        lemma_step_order(data, pos, w);
        lemma_walk_order(data, next, after);
    }
}

/// The issues of a report are listed in file order, and none of them is behind
/// the end of the input.
pub proof fn law_file_order(data: Seq<u8>)
    requires
        data.len() <= u64::MAX,
    ensures
        in_file_order(validate::validated(data).issues),
        forall|i: int|
            0 <= i < validate::validated(data).issues.len() ==> (#[trigger] validate::validated(
                data,
            ).issues[i]).byte_offset <= data.len(),
{
    lemma_walk_order(data, 0, Walk::start());
    reveal(all_at);
    let w = validate::walked(data, 0, Walk::start());
    let end = data.len() as u64;
    let empty = validate::when(
        data.len() == 0,
        validate::place_issue(
            0,
            Rule::Truncated,
            None,
            "empty input: a physical bitstream carries at least one page"@,
        ),
    );
    let open = validate::in_order(validate::open_serials(w)).map_values(
        |s: u32| validate::missing_eos(data.len(), s),
    );
    lemma_add_order(w.report, empty, end);
    lemma_add_order(w.report.add(empty), open, end);
}

} // verus!
