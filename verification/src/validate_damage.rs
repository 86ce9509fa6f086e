//! What damage to a physical stream is told.
use crate::bytes;
use crate::crc;
use crate::crc_tables;
use crate::framing;
use crate::page;
use crate::page::PageView;
use crate::validate;
use crate::validate::{IssueView, Located, ReportView, Rule, Walk};
use crate::validate_chain;
use crate::validate_laws;
use crate::validate_meaning;
use vstd::prelude::*;

verus! {

// ---------------------------------------------------------------------------
// The checksum
// ---------------------------------------------------------------------------
proof fn lemma_shift_bit_tells(a: u32, b: u32)
    ensures
        a != b ==> crc_tables::shift_bit(a) != crc_tables::shift_bit(b),
{
    assert(a != b ==> (if a & 0x8000_0000 != 0 {
        (a << 1) ^ 0x04C1_1DB7
    } else {
        a << 1
    }) != (if b & 0x8000_0000 != 0 {
        (b << 1) ^ 0x04C1_1DB7
    } else {
        b << 1
    })) by (bit_vector);
}

proof fn lemma_shift_byte_tells(a: u32, b: u32)
    ensures
        a != b ==> crc_tables::shift_byte(a) != crc_tables::shift_byte(b),
{
    reveal(crc_tables::shift_byte);
    let (a1, b1) = (crc_tables::shift_bit(a), crc_tables::shift_bit(b));
    let (a2, b2) = (crc_tables::shift_bit(a1), crc_tables::shift_bit(b1));
    let (a3, b3) = (crc_tables::shift_bit(a2), crc_tables::shift_bit(b2));
    let (a4, b4) = (crc_tables::shift_bit(a3), crc_tables::shift_bit(b3));
    let (a5, b5) = (crc_tables::shift_bit(a4), crc_tables::shift_bit(b4));
    let (a6, b6) = (crc_tables::shift_bit(a5), crc_tables::shift_bit(b5));
    let (a7, b7) = (crc_tables::shift_bit(a6), crc_tables::shift_bit(b6));
    lemma_shift_bit_tells(a, b);
    lemma_shift_bit_tells(a1, b1);
    lemma_shift_bit_tells(a2, b2);
    lemma_shift_bit_tells(a3, b3);
    lemma_shift_bit_tells(a4, b4);
    lemma_shift_bit_tells(a5, b5);
    lemma_shift_bit_tells(a6, b6);
    lemma_shift_bit_tells(a7, b7);
}

/// Two registers that differ still differ behind the same bytes.
proof fn lemma_crc_apart(a: u32, b: u32, s: Seq<u8>)
    requires
        a != b,
    ensures
        crc::crc_from(a, s) != crc::crc_from(b, s),
    decreases s.len(),
{
    if s.len() > 0 {
        let front = s.drop_last();
        lemma_crc_apart(a, b, front);
        let (x, y) = (crc::crc_from(a, front), crc::crc_from(b, front));
        let c = (s.last() as u32) << 24;
        assert(x != y ==> x ^ c != y ^ c) by (bit_vector);
        lemma_shift_byte_tells(x ^ c, y ^ c);
    }
}

/// The checksum tells any change of a single byte.
pub proof fn law_crc_tells(s: Seq<u8>, i: int, v: u8)
    requires
        0 <= i < s.len(),
        v != s[i],
    ensures
        crc::crc_from(0, s.update(i, v)) != crc::crc_from(0, s),
{
    let t = s.update(i, v);
    let head = s.take(i);
    let tail = s.skip(i + 1);
    assert(s =~= head.push(s[i]) + tail);
    assert(t =~= head.push(v) + tail);
    crc::law_crc_concat(0, head.push(s[i]), tail);
    crc::law_crc_concat(0, head.push(v), tail);
    let r = crc::crc_from(0, head);
    assert(head.push(s[i]).drop_last() =~= head);
    assert(head.push(v).drop_last() =~= head);
    let (a, b) = (s[i], v);
    assert(a != b ==> r ^ ((a as u32) << 24u32) != r ^ ((b as u32) << 24u32)) by (bit_vector);
    lemma_shift_byte_tells(r ^ ((a as u32) << 24u32), r ^ ((b as u32) << 24u32));
    lemma_crc_apart(
        crc::crc_from(0, head.push(s[i])),
        crc::crc_from(0, head.push(v)),
        tail,
    );
}

/// A byte of a page that says nothing of where the page ends.
pub open spec fn inner_byte(p: PageView, i: int) -> bool {
    4 <= i < 26 || 27 + p.lacing.len() <= i < p.encoded_len()
}

/// A page in which one byte was changed does not bear its checksum.
proof fn lemma_damaged(p: PageView, i: int, v: u8, tail: Seq<u8>)
    requires
        p.wf(),
        inner_byte(p, i),
        v != p.encoded()[i],
    ensures
        ({
            let bad = p.encoded().update(i, v);
            let rest = bad + tail;
            &&& bad.len() == p.encoded_len()
            &&& rest.take(4) == page::CAPTURE_PATTERN@
            &&& rest[26] == p.lacing.len()
            &&& page::declared_len(rest) == p.encoded_len()
            &&& rest.take(p.encoded_len() as int) == bad
            &&& crc::stored_crc(bad) != crc::page_crc(bad)
        }),
{
    let good = p.encoded();
    let bad = good.update(i, v);
    let n = p.lacing.len() as int;
    page::law_parse_encoded(p, Seq::empty());
    assert(good + Seq::<u8>::empty() =~= good);
    reveal(page::parsed);
    assert(page::declared_len(good) == p.encoded_len());
    assert(good.take(page::declared_len(good) as int) =~= good);
    let rest = bad + tail;
    assert(rest.take(4) =~= good.take(4));
    assert(rest[26] == good[26]);
    assert(page::page_in(good) == p);
    assert(rest.subrange(27, 27 + n) =~= good.subrange(27, 27 + n));
    assert(rest.take(p.encoded_len() as int) =~= bad);
    let zg = crc::with_zero_crc_field(good);
    let zb = crc::with_zero_crc_field(bad);
    if 22 <= i < 26 {
        assert(zb =~= zg);
        let (a, b) = (good.subrange(22, 26), bad.subrange(22, 26));
        assert(a[i - 22] != b[i - 22]);
        bytes::law_le_u32_round_trip(a);
        bytes::law_le_u32_round_trip(b);
    } else {
        assert(zb =~= zg.update(i, v));
        law_crc_tells(zg, i, v);
        assert(good.subrange(22, 26) =~= bad.subrange(22, 26));
    }
}

/// A page in which one byte was changed is not read as a page.
pub proof fn law_damaged_page(p: PageView, i: int, v: u8, tail: Seq<u8>)
    requires
        p.wf(),
        inner_byte(p, i),
        v != p.encoded()[i],
    ensures
        page::parsed(p.encoded().update(i, v) + tail) is Err,
{
    lemma_damaged(p, i, v, tail);
    reveal(page::parsed);
}

// ---------------------------------------------------------------------------
// Walking up to the damage
// ---------------------------------------------------------------------------
/// Every page can be written.
pub open spec fn writable(pages: Seq<PageView>) -> bool {
    forall|i: int| 0 <= i < pages.len() ==> (#[trigger] pages[i]).wf()
}

proof fn lemma_bytes_first(pages: Seq<PageView>)
    requires
        pages.len() > 0,
    ensures
        framing::bytes_of(pages) == pages[0].encoded() + framing::bytes_of(pages.skip(1)),
    decreases pages.len(),
{
    let front = pages.drop_last();
    if pages.len() == 1 {
        assert(front =~= Seq::<PageView>::empty());
        assert(pages.skip(1) =~= Seq::<PageView>::empty());
        assert(framing::bytes_of(pages) =~= pages[0].encoded() + framing::bytes_of(pages.skip(1)));
    } else {
        lemma_bytes_first(front);
        assert(front[0] == pages[0]);
        assert(pages.skip(1).drop_last() =~= front.skip(1));
        assert(pages.skip(1).last() == pages.last());
        assert(framing::bytes_of(pages) =~= pages[0].encoded() + framing::bytes_of(pages.skip(1)));
    }
}

/// Pages are walked through, whatever stands behind them.
proof fn lemma_walk_pages(data: Seq<u8>, pos: nat, pages: Seq<PageView>, tail: Seq<u8>, w: Walk)
    requires
        writable(pages),
        pos <= data.len(),
        data.skip(pos as int) == framing::bytes_of(pages) + tail,
    ensures
        validate::walked(data, pos, w) == validate::walked(
            data,
            pos + framing::bytes_of(pages).len(),
            validate_chain::gone(pages, pos, w),
        ),
        pos + framing::bytes_of(pages).len() + tail.len() == data.len(),
        data.skip(pos + framing::bytes_of(pages).len() as int) == tail,
    decreases pages.len(),
{
    let rest = data.skip(pos as int);
    if pages.len() == 0 {
        assert(rest =~= tail);
    } else {
        let p = pages[0];
        let less = pages.skip(1);
        lemma_bytes_first(pages);
        assert(p.wf());
        assert(rest =~= p.encoded() + (framing::bytes_of(less) + tail));
        page::law_parse_encoded(p, framing::bytes_of(less) + tail);
        validate::law_located_is_parsed(data, pos);
        let head = validate::located(data, pos)->Page_head;
        assert(head == validate_chain::head_of(p, pos)) by {
            reveal(page::parsed);
        }
        let next = pos + p.encoded_len();
        assert(validate::step(data, pos, w) == (w.after_page(head), next)) by {
            reveal(validate::step);
        }
        assert(data.skip(next as int) =~= rest.skip(p.encoded_len() as int));
        assert(rest.skip(p.encoded_len() as int) =~= framing::bytes_of(less) + tail);
        assert forall|i: int| 0 <= i < less.len() implies (#[trigger] less[i]).wf() by {
            assert(pages[i + 1].wf());
        }
        lemma_walk_pages(data, next, less, tail, w.after_page(head));
        assert(data.skip(pos + framing::bytes_of(pages).len() as int) =~= data.skip(
            next + framing::bytes_of(less).len() as int,
        ));
    }
}

/// A report holds the issues of an earlier one, before all others.
spec fn retains(before: ReportView, after: ReportView) -> bool {
    before.issues.len() <= after.issues.len() && forall|x: int|
        0 <= x < before.issues.len() ==> #[trigger] after.issues[x] == before.issues[x]
}

/// A walk takes back no issue.
proof fn lemma_walk_keeps(data: Seq<u8>, pos: nat, w: Walk)
    requires
        pos <= data.len(),
        w.report.capped(),
    ensures
        validate::walked(data, pos, w).report.capped(),
        retains(w.report, validate::walked(data, pos, w).report),
    decreases data.len() - pos,
{
    if pos < data.len() {
        let (after, next) = validate::step(data, pos, w);
        lemma_step_keeps(data, pos, w);
        lemma_walk_keeps(data, next, after);
        let end = validate::walked(data, next, after);
        assert(validate::walked(data, pos, w) == end);
        assert forall|x: int| 0 <= x < w.report.issues.len() implies #[trigger] end.report.issues[x]
            == w.report.issues[x] by {
            assert(after.report.issues[x] == w.report.issues[x]);
        }
    }
}

proof fn lemma_step_keeps(data: Seq<u8>, pos: nat, w: Walk)
    requires
        pos < data.len(),
        w.report.capped(),
    ensures
        ({
            let (after, next) = validate::step(data, pos, w);
            &&& pos < next <= data.len()
            &&& after.report.capped()
            &&& retains(w.report, after.report)
        }),
{
    reveal(validate::step);
    validate_laws::lemma_next_valid_range(data, pos + 1);
    match validate::located(data, pos) {
        Located::Page { head, next } => {
            let after = w.after_page(head);
            validate_chain::lemma_page_adds(w, head);
            validate::law_add(
                ReportView {
                    issues: w.report.issues,
                    suppressed_issues: w.report.suppressed_issues,
                    ..after.report
                },
                w.page_issues(head),
                Seq::empty(),
            );
        },
        _ => {},
    }
}

/// A report names `rule` at `at`.
pub open spec fn told_at(r: ReportView, rule: Rule, at: nat, serial: Option<u32>) -> bool {
    exists|x: int|
        0 <= x < r.issues.len() && (#[trigger] r.issues[x]).rule == rule && r.issues[x].byte_offset
            == at as u64 && r.issues[x].serial == serial
}

/// What stands behind sound pages is looked at from their state.
proof fn lemma_at_damage(pages: Seq<PageView>, tail: Seq<u8>) -> (w: Walk)
    requires
        writable(pages),
        validate_meaning::all_sound(pages, pages.len() as int),
    ensures
        ({
            let data = framing::bytes_of(pages) + tail;
            let pos = framing::bytes_of(pages).len();
            &&& validate::walked(data, 0, Walk::start()) == validate::walked(data, pos, w)
            &&& w == validate_chain::gone(pages, 0, Walk::start())
            &&& w.report.clean() && w.report.capped()
            &&& data.skip(pos as int) == tail
        }),
{
    let data = framing::bytes_of(pages) + tail;
    assert(data.skip(0) =~= data);
    lemma_walk_pages(data, 0, pages, tail, Walk::start());
    validate_meaning::lemma_sound_walk(pages)
}

proof fn lemma_told(pages: Seq<PageView>, tail: Seq<u8>, w: Walk, issue: IssueView)
    requires
        tail.len() > 0,
        ({
            let data = framing::bytes_of(pages) + tail;
            let pos = framing::bytes_of(pages).len();
            &&& validate::walked(data, 0, Walk::start()) == validate::walked(data, pos, w)
            &&& w.report.clean() && w.report.capped()
            &&& validate::step(data, pos, w).0.report.issues.len() > 0
            &&& validate::step(data, pos, w).0.report.issues[0] == issue
            &&& issue.byte_offset == pos as u64
        }),
    ensures
        told_at(
            validate::validated(framing::bytes_of(pages) + tail),
            issue.rule,
            framing::bytes_of(pages).len(),
            issue.serial,
        ),
{
    let data = framing::bytes_of(pages) + tail;
    let pos = framing::bytes_of(pages).len();
    let (after, next) = validate::step(data, pos, w);
    lemma_step_keeps(data, pos, w);
    lemma_walk_keeps(data, next, after);
    let end = validate::walked(data, pos, w);
    assert(end == validate::walked(data, next, after));
    assert(end.report.issues[0] == issue) by {
        assert(after.report.issues[0] == issue);
    }
    let r = validate::validated(data);
    assert(r.issues.len() > 0 && r.issues[0] == issue);
}

// ---------------------------------------------------------------------------
// Damage
// ---------------------------------------------------------------------------
/// Bytes behind sound pages that do not begin with the capture pattern are told
/// where they begin.
pub proof fn law_junk_told(pages: Seq<PageView>, junk: Seq<u8>)
    requires
        writable(pages),
        validate_meaning::all_sound(pages, pages.len() as int),
        junk.len() > 0,
        junk.len() < 4 || junk.take(4) != seq![0x4Fu8, 0x67, 0x67, 0x53],
    ensures
        told_at(
            validate::validated(framing::bytes_of(pages) + junk),
            Rule::CapturePattern,
            framing::bytes_of(pages).len(),
            None,
        ),
{
    let w = lemma_at_damage(pages, junk);
    let data = framing::bytes_of(pages) + junk;
    let pos = framing::bytes_of(pages).len();
    assert(page::CAPTURE_PATTERN@ =~= seq![0x4Fu8, 0x67, 0x67, 0x53]);
    assert(validate::located(data, pos) == Located::NoCapture);
    let issue = validate::step(data, pos, w).0.report.issues[0];
    assert(issue.rule == Rule::CapturePattern && issue.byte_offset == pos as u64 && issue.serial
        is None && validate::step(data, pos, w).0.report.issues.len() > 0) by {
        reveal(validate::step);
    }
    lemma_told(pages, junk, w, issue);
}

/// A page behind sound pages in which one byte was changed is told where it
/// begins, whatever follows it.
pub proof fn law_damage_told(pages: Seq<PageView>, p: PageView, i: int, v: u8, tail: Seq<u8>)
    requires
        writable(pages),
        validate_meaning::all_sound(pages, pages.len() as int),
        p.wf(),
        inner_byte(p, i),
        v != p.encoded()[i],
        !(14 <= i < 18),
    ensures
        told_at(
            validate::validated(framing::bytes_of(pages) + (p.encoded().update(i, v) + tail)),
            Rule::CrcMismatch,
            framing::bytes_of(pages).len(),
            Some(p.serial),
        ),
{
    let bad = p.encoded().update(i, v);
    let rest = bad + tail;
    let w = lemma_at_damage(pages, rest);
    let data = framing::bytes_of(pages) + rest;
    let pos = framing::bytes_of(pages).len();
    lemma_damaged(p, i, v, tail);
    assert(bytes::le_u32(rest.skip(14)) == p.serial) by {
        page::law_parse_encoded(p, Seq::empty());
        let good = p.encoded();
        assert(good + Seq::<u8>::empty() =~= good);
        reveal(page::parsed);
        assert(page::page_in(good) == p);
        assert(rest.skip(14).take(4) =~= good.skip(14).take(4));
        bytes::lemma_le_prefix(rest.skip(14), good.skip(14));
    }
    assert(validate::located(data, pos) is BadCrc);
    assert(validate::located(data, pos)->claimed_serial == p.serial);
    let issue = validate::step(data, pos, w).0.report.issues[0];
    assert(issue.rule == Rule::CrcMismatch && issue.byte_offset == pos as u64 && issue.serial
        == Some(p.serial) && validate::step(data, pos, w).0.report.issues.len() > 0) by {
        reveal(validate::step);
    }
    lemma_told(pages, rest, w, issue);
}

/// A page behind sound pages that is cut off by the end of the input is told
/// where it begins.
pub proof fn law_cut_told(pages: Seq<PageView>, p: PageView, n: int)
    requires
        writable(pages),
        validate_meaning::all_sound(pages, pages.len() as int),
        p.wf(),
        4 <= n < p.encoded_len(),
    ensures
        told_at(
            validate::validated(framing::bytes_of(pages) + p.encoded().take(n)),
            Rule::Truncated,
            framing::bytes_of(pages).len(),
            None,
        ),
{
    let good = p.encoded();
    let rest = good.take(n);
    let w = lemma_at_damage(pages, rest);
    let data = framing::bytes_of(pages) + rest;
    let pos = framing::bytes_of(pages).len();
    page::law_parse_encoded(p, Seq::empty());
    assert(good + Seq::<u8>::empty() =~= good);
    assert(page::page_in(good) == p && page::declared_len(good) == p.encoded_len() && good.take(4)
        == page::CAPTURE_PATTERN@ && good.subrange(27, 27 + good[26] as int) == p.lacing) by {
        reveal(page::parsed);
    }
    assert(rest.take(4) =~= good.take(4));
    if n >= 27 {
        assert(rest[26] == good[26]);
        if n >= 27 + good[26] as int {
            assert(rest.subrange(27, 27 + rest[26] as int) =~= good.subrange(
                27,
                27 + good[26] as int,
            ));
        }
    }
    assert(validate::located(data, pos) is Truncated);
    let issue = validate::step(data, pos, w).0.report.issues[0];
    assert(issue.rule == Rule::Truncated && issue.byte_offset == pos as u64 && issue.serial is None
        && validate::step(data, pos, w).0.report.issues.len() > 0) by {
        reveal(validate::step);
    }
    lemma_told(pages, rest, w, issue);
}

/// No capture pattern stands at or behind `from` before `to`.
pub open spec fn no_capture(data: Seq<u8>, from: int, to: int) -> bool {
    forall|at: int|
        from <= at < to ==> !#[trigger] captures(data, at)
}

/// The capture pattern stands at `at`.
pub open spec fn captures(data: Seq<u8>, at: int) -> bool {
    bytes::holds_at(data, at, seq![0x4Fu8, 0x67, 0x67, 0x53])
}

proof fn lemma_next_valid(data: Seq<u8>, from: nat, to: nat)
    requires
        from <= to <= data.len(),
        no_capture(data, from as int, to as int),
        to < data.len() ==> validate::located(data, to) is Page,
    ensures
        validate::next_valid(data, from) == (if to < data.len() {
            Some(to)
        } else {
            None
        }),
    decreases to - from,
{
    if from < to {
        assert(page::CAPTURE_PATTERN@ =~= seq![0x4Fu8, 0x67, 0x67, 0x53]);
        assert(!captures(data, from as int));
        let rest = data.skip(from as int);
        if rest.len() >= 4 {
            assert(data.subrange(from as int, from as int + 4) =~= rest.take(4));
        }
        assert(validate::located(data, from) == Located::NoCapture);
        lemma_next_valid(data, from + 1, to);
    }
}

/// Junk between the pages of a clean physical stream, or behind them, is one
/// violation, told where it begins. All of it is counted, and the pages,
/// bitstreams and links are those of the clean stream.
#[verifier::rlimit(40)]
pub proof fn law_junk_between(before: Seq<PageView>, junk: Seq<u8>, behind: Seq<PageView>)
    requires
        writable(before),
        writable(behind),
        before.len() > 0,
        junk.len() > 0,
        validate::validated(framing::bytes_of(before + behind)).clean(),
        no_capture(
            framing::bytes_of(before) + (junk + framing::bytes_of(behind)),
            framing::bytes_of(before).len() as int,
            (framing::bytes_of(before) + junk).len() as int,
        ),
    ensures
        ({
            let clean = validate::validated(framing::bytes_of(before + behind));
            let r = validate::validated(
                framing::bytes_of(before) + (junk + framing::bytes_of(behind)),
            );
            &&& r.total() == 1
            &&& told_at(r, Rule::CapturePattern, framing::bytes_of(before).len(), None)
            &&& r.junk_bytes == junk.len()
            &&& r.pages == clean.pages
            &&& r.streams == clean.streams
            &&& r.links == clean.links
        }),
{
    let all = before + behind;
    let plain = framing::bytes_of(all);
    let tail = junk + framing::bytes_of(behind);
    let data = framing::bytes_of(before) + tail;
    let pos = framing::bytes_of(before).len();
    let to = pos + junk.len();
    assert forall|i: int| 0 <= i < all.len() implies (#[trigger] all[i]).wf() by {
        if i < before.len() {
            assert(before[i].wf());
        } else {
            assert(behind[i - before.len()].wf());
        }
    }
    framing::law_pages_of_bytes_of(all);
    let found = validate_chain::lemma_clean_walk(plain);
    validate_meaning::law_clean_means(plain);
    assert(found == all);
    let n = before.len() as int;
    assert(before =~= all.take(n));
    assert(validate_meaning::all_sound(before, n)) by {
        assert forall|i: int| 0 <= i < n implies #[trigger] validate_meaning::sound(
            before,
            i,
        ) by {
            assert(validate_meaning::sound(all, i));
            validate_meaning::lemma_sound_prefix(all, before, i);
        }
    }
    let w = lemma_at_damage(before, tail);
    assert(data.skip(pos as int) =~= tail);
    assert(data.skip(to as int) =~= framing::bytes_of(behind));
    assert(page::CAPTURE_PATTERN@ =~= seq![0x4Fu8, 0x67, 0x67, 0x53]);
    assert(!captures(data, pos as int));
    assert(validate::located(data, pos) == Located::NoCapture) by {
        if tail.len() >= 4 {
            assert(data.subrange(pos as int, pos as int + 4) =~= tail.take(4));
        }
    }
    if behind.len() > 0 {
        let p = behind[0];
        assert(p.wf());
        lemma_bytes_first(behind);
        page::law_parse_encoded(p, framing::bytes_of(behind.skip(1)));
        validate::law_located_is_parsed(data, to);
    }
    lemma_next_valid(data, pos + 1, to);
    let (v, next) = validate::step(data, pos, w);
    assert(next == to && v.live == w.live && v.finished == w.finished && v.link_has_data
        == w.link_has_data && v.report.pages == w.report.pages && v.report.streams
        == w.report.streams && v.report.links == w.report.links && v.report.junk_bytes
        == w.report.junk_bytes + junk.len() && v.report.issues.len() == 1
        && v.report.suppressed_issues == 0 && v.report.issues[0].rule == Rule::CapturePattern
        && v.report.issues[0].byte_offset == pos as u64 && v.report.issues[0].serial is None) by {
        reveal(validate::step);
    }
    framing::law_pages_of_bytes_of(behind);
    validate_chain::lemma_gone(data, to, v);
    validate_chain::lemma_gone_pages(before, 0, Walk::start());
    let at = validate_chain::lemma_gone_concat(before, behind, 0, Walk::start());
    let end = validate_chain::gone(behind, to, v);
    assert(validate::walked(data, 0, Walk::start()) == end);
    lemma_behind_junk(behind, w, v, at, to, junk.len());
    lemma_closed_end(data, end);
    validate_chain::lemma_gone_pages(all, 0, Walk::start());
    let smooth = validate_chain::gone(all, 0, Walk::start()).report;
    assert(validate::validated(plain) == smooth);
    assert(smooth.junk_bytes == 0);
    assert(validate::validated(data) == end.report);
    assert(end.report.issues[0] == v.report.issues[0]);
}

/// Pages behind junk are judged as without it.
proof fn lemma_behind_junk(
    behind: Seq<PageView>,
    w: Walk,
    v: Walk,
    at: nat,
    to: nat,
    len: nat,
)
    requires
        v.live == w.live && v.finished == w.finished && v.link_has_data == w.link_has_data,
        v.report.pages == w.report.pages && v.report.streams == w.report.streams,
        v.report.links == w.report.links,
        v.report.junk_bytes == w.report.junk_bytes + len,
        v.report.issues.len() == 1 && v.report.suppressed_issues == 0,
        w.report.pages > 0,
        w.report.clean() && w.report.capped(),
        validate_chain::gone(behind, at, w).report.clean(),
        validate_chain::gone(behind, at, w).all_closed(),
    ensures
        ({
            let smooth = validate_chain::gone(behind, at, w).report;
            let end = validate_chain::gone(behind, to, v);
            &&& end.all_closed()
            &&& end.report.capped()
            &&& end.report.total() == 1
            &&& end.report.issues.len() > 0
            &&& end.report.issues[0] == v.report.issues[0]
            &&& end.report.pages == smooth.pages
            &&& end.report.streams == smooth.streams
            &&& end.report.links == smooth.links
            &&& end.report.junk_bytes == smooth.junk_bytes + len
        }),
{
    let past = ReportView {
        pages: 0,
        streams: 0,
        links: 0,
        junk_bytes: len,
        issues: Seq::empty(),
        suppressed_issues: 0,
    };
    let old = Set::<u32>::empty();
    assert(validate_chain::alike(w, v, past, old));
    validate_chain::lemma_gone_alike(behind, w, v, past, old, at, to);
    let smooth = validate_chain::gone(behind, at, w);
    let end = validate_chain::gone(behind, to, v);
    validate_chain::lemma_alike_closed(smooth, end, past, old);
    validate_chain::lemma_clean_first(behind, to, v);
    assert(end.report.issues[0] == v.report.issues[0]);
}

/// A walk that ends with every bitstream closed has nothing to add.
proof fn lemma_closed_end(data: Seq<u8>, w: Walk)
    requires
        validate::walked(data, 0, Walk::start()) == w,
        w.report.capped(),
        w.all_closed(),
        data.len() > 0,
    ensures
        validate::validated(data) == w.report,
{
    assert forall|k: u32| !validate::open_serials(w).contains(k) by {}
    assert(validate::open_serials(w) =~= Set::<u32>::empty());
    let none = Seq::<u32>::empty();
    assert(none.to_set() =~= Set::<u32>::empty());
    validate::lemma_in_order(none);
    assert(none.map_values(|s: u32| validate::missing_eos(data.len(), s)) =~= Seq::<
        IssueView,
    >::empty());
    validate::law_add(w.report, Seq::empty(), Seq::empty());
}

} // verus!
